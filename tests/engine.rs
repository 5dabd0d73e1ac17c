use oxide::builtins::{check_fetch_status, env_get, fetch_mode, fetch_plan, FetchUrl};
use oxide::drv::{DrvBuilder, Expr, IntoDrv, System};
use oxide::engine::{builder_envs, output_paths_from, output_refs};
use oxide::hash::{hash_bytes, HashAlgo};
use oxide::instantiate::{
    absorb, add_drv_output, add_src, drv_identity, drv_output_path, modulo_drv, modulo_input_drvs, output_envs,
    proto_drv, put_text, BindRes,
};
use oxide::scan::Chunk;
use oxide::store::{Config, Realisation, StoreDrv, StoreError};
use oxide::store_path::{make_path, StorePath};

fn part(c: char) -> String {
    std::iter::repeat(c).take(64).collect()
}

fn path_with(c: char, name: &str) -> StorePath {
    StorePath::from_string(format!("{}-{}", part(c), name))
}

fn fetch_drv(envs: Vec<(&str, &str)>, fixed: bool) -> StoreDrv {
    StoreDrv {
        eq_classes: vec![("out".to_string(), path_with('c', "src"))],
        fixed_hash: if fixed { Some(hash_bytes(HashAlgo::Sha256, b"x")) } else { None },
        input_drvs: Vec::new(),
        input_srcs: Vec::new(),
        system: System::x86_64_linux,
        builder: "builtin:fetchurl".to_string(),
        args: Vec::new(),
        envs: envs.into_iter().map(|(k, v)| (k.to_string(), v.to_string())).collect(),
    }
}

#[test]
fn sandbox_environment() {
    let envs = builder_envs("/st", &vec![("name".to_string(), "x".to_string()), ("HOME".to_string(), "/h".to_string())]);
    let names: Vec<&str> = envs.iter().map(|(k, _)| k.as_str()).collect();
    assert_eq!(
        names,
        vec!["PATH", "HOME", "OXIDE_STORE", "name", "HOME", "TMPDIR", "TEMPDIR", "TMP", "TEMP", "TERM"]
    );
    assert_eq!(envs[0].1, "/path-not-set");
    assert_eq!(envs[1].1, "/homeless-shelter");
    assert_eq!(envs[2].1, "/st");
    assert_eq!(envs[5].1, "/build");
    assert_eq!(envs[9].1, "xterm-256color");
    let last: std::collections::HashMap<String, String> = envs.into_iter().collect();
    assert_eq!(last["HOME"], "/h");
}

#[test]
fn fetch_plan_checks() {
    let outs = vec![("out".to_string(), "/st/p-src".to_string())];
    let plan = fetch_plan(&fetch_drv(vec![("url", "https://example.com/f"), ("executable", "1")], true), &outs).unwrap();
    assert_eq!(plan.url, "https://example.com/f");
    assert_eq!(plan.out, "/st/p-src");
    assert!(plan.executable);
    assert!(matches!(fetch_plan(&fetch_drv(vec![("url", "u")], false), &outs), Err(StoreError::FixedOutput)));
    assert!(matches!(
        fetch_plan(&fetch_drv(vec![("url", "u"), ("unpack", "1")], true), &outs),
        Err(StoreError::Unimplemented(_))
    ));
    assert!(matches!(fetch_plan(&fetch_drv(vec![], true), &outs), Err(StoreError::MissingOutput(_))));
    assert!(matches!(fetch_plan(&fetch_drv(vec![("url", "u")], true), &Vec::new()), Err(StoreError::MissingOutput(_))));
}

#[test]
fn fetch_status_and_mode() {
    assert!(check_fetch_status("u", 200).is_ok());
    assert!(check_fetch_status("u", 299).is_ok());
    match check_fetch_status("u", 404) {
        Err(StoreError::FetchFailed(url, code)) => {
            assert_eq!(url, "u");
            assert_eq!(code, 404);
        }
        _ => panic!("expected a failed fetch"),
    }
    assert_eq!(fetch_mode(true), 100644);
    assert_eq!(fetch_mode(false), 100644);
}

#[test]
fn fetchurl_recipe() {
    let d = FetchUrl {
        name: None,
        url: "https://example.com/dir/f.tar.gz".to_string(),
        hash: hash_bytes(HashAlgo::Sha256, b"x"),
        unpack: false,
        executable: true,
    }
    .into_drv();
    assert_eq!(d.name, "f.tar.gz");
    assert!(d.fixed_hash.is_some());
    assert_eq!(d.outputs, vec!["out".to_string()]);
    assert!(matches!(&d.builder, Expr::Str(b) if b == "builtin:fetchurl"));
    let keys: Vec<&str> = d.inputs.iter().map(|(k, _)| k.as_str()).collect();
    assert_eq!(keys, vec!["url", "executable"]);
}

#[test]
fn env_lookup_first_binding() {
    let envs = vec![("a".to_string(), "1".to_string()), ("a".to_string(), "2".to_string())];
    assert_eq!(env_get(&envs, "a"), Some("1".to_string()));
    assert_eq!(env_get(&envs, "b"), None);
}

#[test]
fn put_text_replaces() {
    let mut envs = vec![("a".to_string(), "1".to_string()), ("b".to_string(), "2".to_string())];
    put_text(&mut envs, "a".to_string(), "3".to_string());
    assert_eq!(env_get(&envs, "a"), Some("3".to_string()));
    assert_eq!(env_get(&envs, "b"), Some("2".to_string()));
    assert_eq!(envs.len(), 2);
}

#[test]
fn outputs_bound_in_env() {
    let config = Config::new(Some("/st".to_string()), None, None);
    let eqs = vec![("out".to_string(), path_with('e', "pkg")), ("dev".to_string(), path_with('f', "pkg-dev"))];
    let envs = vec![("out".to_string(), String::new()), ("name".to_string(), "pkg".to_string())];
    let r = output_envs(&config, envs, &eqs);
    assert_eq!(env_get(&r, "out"), Some(format!("/st/{}", path_with('e', "pkg").path)));
    assert_eq!(env_get(&r, "dev"), Some(format!("/st/{}", path_with('f', "pkg-dev").path)));
    assert_eq!(env_get(&r, "name"), Some("pkg".to_string()));
}

#[test]
fn output_reference_paths() {
    let config = Config::new(Some("/st".to_string()), None, None);
    let eqs = vec![("out".to_string(), path_with('e', "perl")), ("bin".to_string(), path_with('f', "perl-bin"))];
    let p = drv_output_path(&config, &eqs, "bin", &Some("/bin/perl".to_string())).unwrap();
    assert_eq!(p, format!("/st/{}/bin/perl", path_with('f', "perl-bin").path));
    let q = drv_output_path(&config, &eqs, "out", &None).unwrap();
    assert_eq!(q, format!("/st/{}", path_with('e', "perl").path));
    assert!(matches!(drv_output_path(&config, &eqs, "doc", &None), Err(StoreError::InvalidOutput(o)) if o == "doc"));
}

#[test]
fn inputs_keyed_by_identity() {
    let h = hash_bytes(HashAlgo::Sha512, b"input drv");
    let inputs = vec![(path_with('d', "perl.drv"), vec!["bin".to_string()])];
    let r = modulo_input_drvs(&inputs, &vec![h.copy()]);
    assert_eq!(r[0].0.path, make_path(&h, "perl.drv").path);
    assert_eq!(r[0].1, vec!["bin".to_string()]);
}

#[test]
fn chunk_overlap_split() {
    let c = Chunk { data: (0..100u8).collect(), offset: 7 };
    let (head, tail) = c.split_at_overlap();
    assert_eq!(head.len(), 37);
    assert_eq!(tail.len(), 63);
    assert_eq!(tail[0], 37);
    assert_eq!(c.chunk_offset(), 7);
    assert_eq!(c.chunk().len(), 100);
    let small = Chunk { data: vec![1, 2, 3], offset: 0 };
    let (h, t) = small.split_at_overlap();
    assert!(h.is_empty());
    assert_eq!(t, vec![1, 2, 3]);
}

#[test]
fn proto_derivation_blanks_outputs() {
    let d = DrvBuilder::new()
        .name("pkg")
        .out("out")
        .out("dev")
        .builder(Expr::Str("b".to_string()))
        .build();
    let envs = vec![("name".to_string(), "pkg".to_string()), ("out".to_string(), "x".to_string())];
    let p = proto_drv(&d, Vec::new(), Vec::new(), "b".to_string(), vec!["-e".to_string()], envs);
    assert_eq!(p.eq_classes.len(), 2);
    assert_eq!(p.eq_classes[1].0, "dev");
    assert!(p.eq_classes[1].1.path.is_empty());
    assert_eq!(env_get(&p.envs, "out"), Some(String::new()));
    assert_eq!(env_get(&p.envs, "dev"), Some(String::new()));
    assert_eq!(env_get(&p.envs, "name"), Some("pkg".to_string()));
    assert_eq!(p.args, vec!["-e".to_string()]);
}

#[test]
fn bindings_merge_as_sets() {
    let mut a = BindRes::new();
    add_drv_output(&mut a.drvs, &path_with('d', "x.drv"), &"out".to_string());
    add_src(&mut a.srcs, path_with('s', "src"));
    a.res.push("one".to_string());
    let mut b = BindRes::new();
    add_drv_output(&mut b.drvs, &path_with('d', "x.drv"), &"bin".to_string());
    add_drv_output(&mut b.drvs, &path_with('d', "x.drv"), &"out".to_string());
    add_drv_output(&mut b.drvs, &path_with('e', "y.drv"), &"out".to_string());
    add_src(&mut b.srcs, path_with('s', "src"));
    add_src(&mut b.srcs, path_with('t', "src2"));
    b.res.push("two".to_string());
    absorb(&mut a, b);
    assert_eq!(a.drvs.len(), 2);
    let x = a.drvs.iter().find(|(p, _)| p.path == path_with('d', "x.drv").path).unwrap();
    let mut outs = x.1.clone();
    outs.sort();
    assert_eq!(outs, vec!["bin".to_string(), "out".to_string()]);
    assert_eq!(a.srcs.len(), 2);
    assert_eq!(a.res, vec!["one".to_string(), "two".to_string()]);
}

#[test]
fn output_paths_use_the_draws() {
    let draw = hash_bytes(HashAlgo::Sha512, b"draw");
    let plain = fetch_drv(vec![], false);
    let r = output_paths_from(&plain, &vec![draw.copy()]);
    assert_eq!(r[0].0, "out");
    assert_eq!(r[0].1.path, StorePath::new(&draw, "src").path);
    let fixed = fetch_drv(vec![], true);
    let r = output_paths_from(&fixed, &vec![draw.copy()]);
    assert_eq!(r[0].1.path, fixed.eq_classes[0].1.path);
}

#[test]
fn modulo_derivation_and_identity() {
    let mut d = fetch_drv(vec![("a", "b")], false);
    d.input_drvs = vec![(path_with('d', "dep.drv"), vec!["out".to_string()])];
    let h = hash_bytes(HashAlgo::Sha512, b"dep");
    let m = modulo_drv(&d, &vec![h.copy()]);
    assert_eq!(m.input_drvs[0].0.path, make_path(&h, "dep.drv").path);
    assert_eq!(m.envs, d.envs);
    assert_eq!(m.builder, d.builder);
    let id = drv_identity(&d, "/st", "text");
    assert!(id.same(&hash_bytes(HashAlgo::Sha512, b"text")));
    let f = fetch_drv(vec![], true);
    let fid = drv_identity(&f, "/st", "ignored");
    let text = format!("fixed:out:{}:/st/", f.fixed_hash.as_ref().unwrap().base64_with_algo());
    assert!(fid.same(&hash_bytes(HashAlgo::Sha512, text.as_bytes())));
}

#[test]
fn output_scan_candidates() {
    let inputs = vec![Realisation { eq_class: path_with('e', "c"), out: "out".to_string(), path: path_with('p', "o") }];
    let srcs = vec![path_with('s', "src")];
    let tmp = path_with('t', "out");
    let (c, sh) = output_refs(&inputs, &srcs, &tmp, false);
    let names: Vec<String> = c.iter().map(|p| p.path.clone()).collect();
    assert_eq!(names, vec![path_with('p', "o").path, path_with('s', "src").path, tmp.path.clone()]);
    assert_eq!(sh.unwrap().path, tmp.path);
    let (_, none) = output_refs(&inputs, &srcs, &tmp, true);
    assert!(none.is_none());
}

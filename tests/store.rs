use oxide::drv::{current_system, DrvBuilder, Expr, LazyDrv, System};
use oxide::engine::{check_fixed_output, eq_refs_of, mappings, output_paths, resolve, rewrite_drv, trusted_outputs};
use oxide::hash::{hash_bytes, HashAlgo, ParseHashError};
use oxide::instantiate::{
    bind_str, default_envs, eq_classes, fixed_drv_hash, hash_drv_text, is_valid_drv, join_space,
};
use oxide::store::{check_name, closure, Config, LocalStoreConfig, Realisation, StoreDrv, StoreError};
use oxide::store_path::{
    add_lock_ext, base_name, is_temp, is_valid_name, make_path, random_path, tmpname, tmpname_from,
    StorePath,
};
use sha2::Digest;

fn part(c: char) -> String {
    std::iter::repeat(c).take(64).collect()
}

fn path_with(c: char, name: &str) -> StorePath {
    StorePath::from_string(format!("{}-{}", part(c), name))
}

fn realisation(eq: char, out: &str, p: char) -> Realisation {
    Realisation { eq_class: path_with(eq, "cls"), out: out.to_string(), path: path_with(p, "obj") }
}

fn empty_drv(builder: &str, fixed: Option<oxide::hash::Hash>) -> StoreDrv {
    StoreDrv {
        eq_classes: vec![("out".to_string(), path_with('c', "src"))],
        fixed_hash: fixed,
        input_drvs: Vec::new(),
        input_srcs: Vec::new(),
        system: System::x86_64_linux,
        builder: builder.to_string(),
        args: Vec::new(),
        envs: Vec::new(),
    }
}

#[test]
fn hash_text_round_trip() {
    let h = hash_bytes(HashAlgo::Sha256, b"hello");
    let text = h.base64_with_algo();
    assert!(text.starts_with("sha256:"));
    assert_eq!(text.len(), 7 + 43);
    let back = oxide::hash::Hash::parse(&text).unwrap();
    assert!(back.same(&h));
    let h512 = hash_bytes(HashAlgo::Sha512, b"hello");
    assert_eq!(h512.base64().len(), 86);
    assert!(oxide::hash::Hash::parse(&h512.to_string()).unwrap().same(&h512));
}

#[test]
fn hash_parse_rejects_bad_text() {
    assert_eq!(oxide::hash::Hash::parse("md5:abcd").err(), Some(ParseHashError));
    assert_eq!(oxide::hash::Hash::parse("sha256:abcd").err(), Some(ParseHashError));
    assert_eq!(oxide::hash::Hash::parse("sha256:!!!").err(), Some(ParseHashError));
    assert!(oxide::hash::Hash::parse("").is_err());
    let h = hash_bytes(HashAlgo::Sha512, b"x");
    let back = oxide::hash::Hash::parse(&h.base64_with_algo()).unwrap();
    assert_eq!(back.algo(), HashAlgo::Sha512);
    assert_eq!(back.digest_as_bytes(), h.digest_as_bytes());
}

#[test]
fn placeholder_is_zero_sha512() {
    let p = oxide::hash::Hash::placeholder();
    assert_eq!(p.algo(), HashAlgo::Sha512);
    assert_eq!(p.digest_as_bytes(), &[0u8; 64][..]);
}

#[test]
fn store_path_parts() {
    let h = hash_bytes(HashAlgo::Sha512, b"x");
    let p = StorePath::new(&h, "hello-1.0");
    assert_eq!(p.hash_part(), &h.base64()[..64]);
    assert_eq!(p.name_part(), "hello-1.0");
    assert_eq!(p.hash_bytes(), h.base64().as_bytes()[..64].to_vec());
    let mut q = path_with('a', "other");
    q.rewrite_hash_part(&p);
    assert_eq!(q.path, format!("{}-other", p.hash_part()));
    assert!(q.same_hash_part(&p));
}

#[test]
fn make_path_is_sha512_of_text() {
    let h = hash_bytes(HashAlgo::Sha256, b"content");
    let p = make_path(&h, "pkg");
    let text = format!("{}:pkg", h.base64_with_algo());
    let d = hash_bytes(HashAlgo::Sha512, text.as_bytes());
    assert_eq!(p.path, format!("{}-pkg", &d.base64()[..64]));
    let again = make_path(&h, "pkg");
    assert_eq!(p.path, again.path);
}

#[test]
fn name_validation() {
    assert!(!is_valid_name("ab"));
    assert!(is_valid_name("abc"));
    assert!(is_valid_name("hello.drv"));
    assert!(!is_valid_name("ok.drv"));
    assert!(!is_valid_name("a b"));
    assert!(matches!(check_name("ab", false), Err(StoreError::InvalidName)));
    assert!(matches!(check_name("ab", true), Err(StoreError::InvalidName)));
    assert!(check_name("src", false).is_ok());
    assert!(check_name("ok.drv", true).is_ok());
    assert!(matches!(check_name("ok.drv", false), Err(StoreError::InvalidName)));
    assert!(matches!(check_name("a/b", false), Err(StoreError::InvalidName)));
}

#[test]
fn small_path_helpers() {
    assert_eq!(base_name("/a/b/c"), "c");
    assert_eq!(base_name("/a/b/c/"), "c");
    assert_eq!(base_name("file"), "file");
    assert_eq!(base_name(""), "");
    assert_eq!(add_lock_ext("/s/x"), "/s/x.lock");
    assert!(is_temp(".abc"));
    assert!(!is_temp("abc"));
    assert!(is_temp("/s/.abc"));
    assert!(!is_temp("/s/abc"));
    assert!(!is_temp("/"));
    assert!(!is_temp("/.s/abc"));
    assert!(is_temp("/s/.abc/"));
    let chars: Vec<char> = "abcdefghijklmnopqrstuvwxyz012345".chars().collect();
    assert_eq!(tmpname_from(&chars), ".abcdefghijklmnopqrstuvwxyz012345");
    let t = tmpname();
    assert_eq!(t.len(), 33);
    assert!(t.starts_with('.'));
    assert!(t[1..].chars().all(|c| c.is_ascii_alphanumeric()));
    let r = random_path("name");
    assert_eq!(r.name_part(), "name");
    assert!(r.hash_part().chars().all(|c| c.is_ascii_alphanumeric() || c == '-' || c == '_'));
}

#[test]
fn config_defaults() {
    let c = Config::new(None, Some("/logs".to_string()), None);
    assert_eq!(c.store_dir, "/var/lib/oxide/store");
    assert_eq!(c.log_dir, "/logs");
    assert_eq!(c.state_dir, "/var/lib/oxide/var");
    let p = path_with('a', "x");
    let full = c.store_path(&p);
    assert_eq!(full, format!("/var/lib/oxide/store/{}", p.path));
    assert_eq!(c.path_to_store(&full).unwrap().path, p.path);
    assert!(c.path_to_store("/elsewhere/x").is_none());
    let l = LocalStoreConfig::new("/st");
    assert_eq!(l.db_dir, "/st/db");
    assert_eq!(l.db_path, "/st/db/sqlite.db");
    assert_eq!(l.migrations_dir, "/st/db/migrations");
}

#[test]
fn builtin_prefix() {
    assert_eq!(empty_drv("builtin:fetchurl", None).builtin(), Some("fetchurl".to_string()));
    assert_eq!(empty_drv("/bin/sh", None).builtin(), None);
}

#[test]
fn fixed_output_one_byte_body() {
    let body = [b'x'];
    let expected = hash_bytes(HashAlgo::Sha256, &body);
    let got = hash_bytes(HashAlgo::Sha256, &body);
    assert!(check_fixed_output(&expected, &got).is_ok());
    let other = hash_bytes(HashAlgo::Sha256, &[b'y']);
    match check_fixed_output(&expected, &other) {
        Err(StoreError::HashMismatch { expected: e, got: g }) => {
            assert!(e.same(&expected));
            assert!(g.same(&other));
        }
        _ => panic!("expected a hash mismatch"),
    }
}

#[test]
fn trusted_outputs_short_circuit() {
    let eqs = vec![("out".to_string(), path_with('e', "src"))];
    let trusted = vec![vec![path_with('r', "src"), path_with('s', "src")]];
    let outs = trusted_outputs(&eqs, &trusted).unwrap();
    assert_eq!(outs.len(), 1);
    assert_eq!(outs[0].0, "out");
    assert_eq!(outs[0].1.path, path_with('r', "src").path);
    assert!(trusted_outputs(&eqs, &vec![Vec::new()]).is_none());
}

#[test]
fn conflicting_realisations_abort() {
    let inputs = vec![realisation('a', "out", 'p'), realisation('a', "out", 'q')];
    assert!(matches!(resolve(&inputs), Err(StoreError::Conflict)));
    let fine = vec![realisation('a', "out", 'p'), realisation('a', "out", 'p'), realisation('b', "out", 'q')];
    let r = resolve(&fine).unwrap();
    assert_eq!(r.len(), 2);
}

#[test]
fn dependent_build_rewrites_classes() {
    let a = realisation('a', "out", 'p');
    let maps = mappings(&vec![a]);
    let cls = path_with('a', "cls").path;
    let mut drv = empty_drv(&format!("/store/{}/bin/sh", cls), None);
    drv.args = vec![format!("--with={}", cls)];
    drv.envs = vec![("dep".to_string(), format!("/store/{}", cls))];
    rewrite_drv(&mut drv, &maps);
    let realp = path_with('p', "cls").path;
    assert_eq!(drv.builder, format!("/store/{}/bin/sh", realp));
    assert_eq!(drv.args[0], format!("--with={}", realp));
    assert_eq!(drv.envs[0].1, format!("/store/{}", realp));
    assert_eq!(drv.envs[0].0, "dep");
}

#[test]
fn output_paths_fixed_and_random() {
    let fixed = empty_drv("builtin:fetchurl", Some(hash_bytes(HashAlgo::Sha256, b"x")));
    let o = output_paths(&fixed);
    assert_eq!(o[0].1.path, fixed.eq_classes[0].1.path);
    let plain = empty_drv("/bin/sh", None);
    let o = output_paths(&plain);
    assert_eq!(o[0].0, "out");
    assert_eq!(o[0].1.name_part(), "src");
    assert_ne!(o[0].1.path, plain.eq_classes[0].1.path);
}

#[test]
fn closure_is_closed() {
    let a = realisation('a', "out", 'p');
    let b = realisation('b', "out", 'q');
    let c = realisation('c', "out", 'r');
    let table = vec![(a.clone(), vec![b.clone()]), (b.clone(), vec![c.clone(), a.clone()])];
    let res = closure(&table, &a);
    assert_eq!(res.len(), 3);
    assert!(res.iter().any(|x| x.path.path == c.path.path));
    let lone = closure(&table, &c);
    assert_eq!(lone.len(), 1);
}

#[test]
fn eq_refs_filter() {
    let inputs = vec![realisation('a', "out", 'p'), realisation('b', "out", 'q')];
    let refs = vec![path_with('q', "obj")];
    let r = eq_refs_of(&inputs, &refs);
    assert_eq!(r.len(), 1);
    assert_eq!(r[0].eq_class.path, path_with('b', "cls").path);
}

#[test]
fn drv_builder_and_validation() {
    let d = DrvBuilder::new()
        .name("hello")
        .builder(Expr::Str("/bin/sh".to_string()))
        .input("a", Expr::Str("1".to_string()))
        .input("a", Expr::Str("2".to_string()))
        .input_bool("flag", true)
        .input_bool("off", false)
        .input_if("none", None)
        .arg(Expr::Str("-c".to_string()))
        .build();
    assert_eq!(d.outputs, vec!["out".to_string()]);
    assert_eq!(d.system, current_system());
    assert_eq!(d.inputs.len(), 2);
    assert_eq!(d.inputs[0].0, "a");
    assert!(matches!(&d.inputs[0].1, Expr::Str(s) if s == "2"));
    assert_eq!(d.inputs[1].0, "flag");
    assert!(matches!(&d.inputs[1].1, Expr::Str(s) if s == "1"));
    let again = DrvBuilder::new().input_bool("k", true).input_bool("k", true);
    assert_eq!(again.inputs.len(), 1);
    assert!(is_valid_drv(&d).is_ok());
    let lazy = LazyDrv::new(d);
    let path = lazy.out("bin").suff("/bin/perl");
    assert_eq!(path.out, "bin");
    assert_eq!(path.suff.as_deref(), Some("/bin/perl"));
    assert_eq!(lazy.derive().name, "hello");
    let bad = DrvBuilder::new().name("x.drv").builder(Expr::Str("b".to_string())).build();
    assert!(matches!(is_valid_drv(&bad), Err(StoreError::InvalidName)));
    let fixed = DrvBuilder::new()
        .name("src")
        .out("out")
        .out("dev")
        .fixed_hash(hash_bytes(HashAlgo::Sha256, b"x"))
        .builder(Expr::Str("b".to_string()))
        .build();
    assert!(matches!(is_valid_drv(&fixed), Err(StoreError::FixedOutput)));
}

#[test]
fn instantiation_steps() {
    let d = DrvBuilder::new()
        .name("pkg")
        .out("out")
        .out("dev")
        .builder(Expr::Str("b".to_string()))
        .build();
    let envs = default_envs(&d);
    assert_eq!(envs.len(), 3);
    assert_eq!(envs[0], ("name".to_string(), "pkg".to_string()));
    assert_eq!(envs[1], ("outputs".to_string(), "out dev".to_string()));
    assert_eq!(envs[2], ("system".to_string(), "x86-64_linux".to_string()));
    assert_eq!(join_space(&vec!["a".to_string(), "b c".to_string()]), "a b c");
    assert_eq!(bind_str("a b", true), "\"a b\"");
    assert_eq!(bind_str("a b", false), "a b");
    let h = hash_drv_text("some text");
    let expected = sha2::Sha512::digest(b"some text").to_vec();
    assert_eq!(h.digest_as_bytes(), expected.as_slice());
    let cls = eq_classes(&h, "pkg", &d.outputs);
    assert_eq!(cls[0].1.path, make_path(&h, "pkg").path);
    assert_eq!(cls[1].1.path, make_path(&h, "pkg-dev").path);
    let fixed = hash_bytes(HashAlgo::Sha256, b"x");
    let fh = fixed_drv_hash(&fixed, "/store");
    let text = format!("fixed:out:{}:/store/", fixed.base64_with_algo());
    let expected = sha2::Sha512::digest(text.as_bytes()).to_vec();
    assert_eq!(fh.digest_as_bytes(), expected.as_slice());
}

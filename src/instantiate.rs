//! The pure steps of instantiation: checking a recipe, its default
//! environment, the identity of a derivation and the classes of its outputs.
use crate::drv::{system_name, Drv};
use crate::hash::{hash_bytes, sha512_of, str_eq, HashAlgo};
use crate::store::{Config, StoreDrv, StoreError};
use crate::builtins::lookup;
use crate::store_path::{drv_ext, ends_with, has_suffix, is_valid_name, made_path, make_path, valid_name, StorePath};
use vstd::prelude::*;
use vstd::utf8::encode_utf8;

verus! {

/// The name of a valid recipe is a valid store name that does not end with
/// `.drv`; a fixed-output recipe has the single output `out`.
pub open spec fn valid_drv(drv: Drv) -> bool {
    &&& !ends_with(drv.name@, drv_ext())
    &&& valid_name(drv.name@)
    &&& (drv.fixed_hash is Some ==> drv.outputs@.len() == 1 && drv.outputs@[0]@ == seq!['o', 'u', 't'])
}

/// Checks a recipe before it is instantiated.
pub fn is_valid_drv(drv: &Drv) -> (r: Result<(), StoreError>)
    ensures
        r is Ok <==> valid_drv(*drv),
        r is Err ==> (r->Err_0 is InvalidName <==> !(!ends_with(drv.name@, drv_ext()) && valid_name(
            drv.name@,
        ))),
        r is Err ==> (r->Err_0 is InvalidName || r->Err_0 is FixedOutput),
{
    proof {
        reveal_strlit(".drv");
        reveal_strlit("out");
    }
    assert(".drv"@ =~= drv_ext());
    if has_suffix(drv.name.as_str(), ".drv") {
        return Err(StoreError::InvalidName);
    }
    if !is_valid_name(drv.name.as_str()) {
        return Err(StoreError::InvalidName);
    }
    if drv.fixed_hash.is_some() {
        let single = drv.outputs.len() == 1 && str_eq(drv.outputs[0].as_str(), "out");
        assert("out"@ =~= seq!['o', 'u', 't']);
        if !single {
            return Err(StoreError::FixedOutput);
        }
    }
    Ok(())
}

/// The words joined by single spaces.
pub open spec fn joined(ws: Seq<Seq<char>>) -> Seq<char>
    decreases ws.len(),
{
    if ws.len() == 0 {
        Seq::empty()
    } else if ws.len() == 1 {
        ws[0]
    } else {
        joined(ws.drop_last()) + seq![' '] + ws.last()
    }
}

pub open spec fn strings_view(ws: Seq<String>) -> Seq<Seq<char>> {
    ws.map_values(|w: String| w@)
}

/// Joins the strings with single spaces.
pub fn join_space(ws: &Vec<String>) -> (r: String)
    ensures
        r@ == joined(strings_view(ws@)),
{
    proof {
        reveal_strlit(" ");
    }
    let mut r = String::new();
    let mut i: usize = 0;
    while i < ws.len()
        invariant
            i <= ws@.len(),
            r@ == joined(strings_view(ws@.subrange(0, i as int))),
        decreases ws@.len() - i,
    {
        assert(strings_view(ws@.subrange(0, i + 1)).drop_last() =~= strings_view(
            ws@.subrange(0, i as int),
        ));
        assert(strings_view(ws@.subrange(0, i + 1)).last() == ws@[i as int]@);
        proof {
            reveal_strlit(" ");
        }
        assert(" "@ =~= seq![' ']);
        if i == 0 {
            r = ws[0].clone();
            assert(r@ =~= joined(strings_view(ws@.subrange(0, 1))));
        } else {
            r = r.concat(" ").concat(ws[i].as_str());
            assert(r@ =~= joined(strings_view(ws@.subrange(0, i + 1))));
        }
        i = i + 1;
    }
    assert(ws@.subrange(0, i as int) =~= ws@);
    r
}

/// The name of output `i`: the recipe's name for the first output, the
/// name and the output's, joined by `-`, for the others.
pub open spec fn output_name(name: Seq<char>, out: Seq<char>, i: int) -> Seq<char> {
    if i == 0 {
        name
    } else {
        name + seq!['-'] + out
    }
}

/// The classes of the outputs of a derivation whose identity is `h`.
pub open spec fn classes_of(
    h: crate::hash::Hash,
    name: Seq<char>,
    outputs: Seq<String>,
    r: Seq<(String, StorePath)>,
) -> bool {
    &&& r.len() == outputs.len()
    &&& forall|i: int|
        0 <= i < r.len() ==> (#[trigger] r[i]).0@ == outputs[i]@ && r[i].1.path@ == made_path(
            h,
            output_name(name, outputs[i]@, i),
        ) && r[i].1.wf()
}

/// Assigns each output its class: the path made from the derivation's
/// identity and the output's name.
pub fn eq_classes(h: &crate::hash::Hash, name: &str, outputs: &Vec<String>) -> (r: Vec<
    (String, StorePath),
>)
    requires
        h.wf(),
    ensures
        classes_of(*h, name@, outputs@, r@),
{
    proof {
        reveal_strlit("-");
    }
    let mut r: Vec<(String, StorePath)> = Vec::new();
    let mut i: usize = 0;
    while i < outputs.len()
        invariant
            i <= outputs@.len(),
            h.wf(),
            r@.len() == i,
            forall|q: int|
                0 <= q < i ==> (#[trigger] r@[q]).0@ == outputs@[q]@ && r@[q].1.path@ == made_path(
                    *h,
                    output_name(name@, outputs@[q]@, q),
                ) && r@[q].1.wf(),
        decreases outputs@.len() - i,
    {
        proof {
            reveal_strlit("-");
        }
        assert("-"@ =~= seq!['-']);
        let out_name = if i == 0 {
            name.to_owned()
        } else {
            name.to_owned().concat("-").concat(outputs[i].as_str())
        };
        assert(out_name@ =~= output_name(name@, outputs@[i as int]@, i as int));
        let p = make_path(h, out_name.as_str());
        r.push((outputs[i].clone(), p));
        i = i + 1;
    }
    r
}

/// Two instantiations of the same derivation identity, name and outputs
/// give the same classes.
pub proof fn lemma_classes_deterministic(
    h1: crate::hash::Hash,
    h2: crate::hash::Hash,
    name: Seq<char>,
    outputs: Seq<String>,
    r1: Seq<(String, StorePath)>,
    r2: Seq<(String, StorePath)>,
)
    requires
        h1.text() == h2.text(),
        classes_of(h1, name, outputs, r1),
        classes_of(h2, name, outputs, r2),
    ensures
        r1.len() == r2.len(),
        forall|i: int|
            0 <= i < r1.len() ==> (#[trigger] r1[i]).0@ == r2[i].0@ && r1[i].1.path@ == r2[i].1.path@,
{
    assert forall|i: int| 0 <= i < r1.len() implies (#[trigger] r1[i]).0@ == r2[i].0@ && r1[i].1.path@
        == r2[i].1.path@ by {
        assert(made_path(h1, output_name(name, outputs[i]@, i)) == made_path(
            h2,
            output_name(name, outputs[i]@, i),
        ));
    }
}

/// What the identity of a fixed-output derivation hashes:
/// `fixed:out:<fixed hash>:<store dir>/`, the class left empty.
pub open spec fn fixed_text(fixed: crate::hash::Hash, store_dir: Seq<char>) -> Seq<char> {
    seq!['f', 'i', 'x', 'e', 'd', ':', 'o', 'u', 't', ':'] + fixed.text() + seq![':'] + store_dir
        + seq!['/']
}

/// The identity of a fixed-output derivation: it depends on the declared
/// hash (and the store directory) only.
pub fn fixed_drv_hash(fixed: &crate::hash::Hash, store_dir: &str) -> (r: crate::hash::Hash)
    requires
        fixed.wf(),
    ensures
        r.wf(),
        r.spec_algo() == HashAlgo::Sha512,
        r.digest() == sha512_of(encode_utf8(fixed_text(*fixed, store_dir@))),
{
    proof {
        reveal_strlit("fixed:out:");
        reveal_strlit(":");
        reveal_strlit("/");
    }
    let text = String::from_str("fixed:out:").concat(fixed.base64_with_algo().as_str()).concat(
        ":",
    ).concat(store_dir).concat("/");
    assert(text@ =~= fixed_text(*fixed, store_dir@));
    hash_bytes(HashAlgo::Sha512, text.as_str().as_bytes())
}

/// The identity of a derivation from its canonical text.
pub fn hash_drv_text(text: &str) -> (r: crate::hash::Hash)
    ensures
        r.wf(),
        r.spec_algo() == HashAlgo::Sha512,
        r.digest() == sha512_of(encode_utf8(text@)),
{
    hash_bytes(HashAlgo::Sha512, text.as_bytes())
}

/// The identity of a derivation depends on its canonical text alone: two
/// recipes that resolve to the same text get the same identity.
pub proof fn lemma_identity_from_text(t1: Seq<char>, t2: Seq<char>)
    requires
        t1 == t2,
    ensures
        sha512_of(encode_utf8(t1)) == sha512_of(encode_utf8(t2)),
{
}

/// The `Debug` text of a string.
pub uninterp spec fn quoted_of(s: Seq<char>) -> Seq<char>;

/// Relies on the `Debug` format of `str`: the string in double quotes, with
/// the characters that need it escaped.
#[verifier::external_body]
fn debug_quote(s: &str) -> (r: String)
    ensures
        r@ == quoted_of(s@),
{
    format!("{:?}", s)
}

/// How a string binding is written: as it is, or quoted inside an array so
/// that its spaces survive the joining.
pub fn bind_str(s: &str, in_array: bool) -> (r: String)
    ensures
        in_array ==> r@ == quoted_of(s@),
        !in_array ==> r@ == s@,
{
    if in_array {
        debug_quote(s)
    } else {
        s.to_owned()
    }
}

/// The environment every derivation starts from, in key order: the fixed
/// hash if any, the name, the outputs joined by spaces and the system.
pub fn default_envs(drv: &Drv) -> (r: Vec<(String, String)>)
    requires
        drv.fixed_hash is Some ==> drv.fixed_hash->0.wf(),
    ensures
        drv.fixed_hash is Some ==> r@.len() == 4 && r@[0].0@ == seq![
            'f',
            'i',
            'x',
            'e',
            'd',
            '_',
            'h',
            'a',
            's',
            'h',
        ] && r@[0].1@ == drv.fixed_hash->0.text(),
        drv.fixed_hash is None ==> r@.len() == 3,
        r@[r@.len() - 3].0@ == seq!['n', 'a', 'm', 'e'] && r@[r@.len() - 3].1@ == drv.name@,
        r@[r@.len() - 2].0@ == seq!['o', 'u', 't', 'p', 'u', 't', 's'] && r@[r@.len() - 2].1@
            == joined(strings_view(drv.outputs@)),
        r@[r@.len() - 1].0@ == seq!['s', 'y', 's', 't', 'e', 'm'] && r@[r@.len() - 1].1@
            == system_name(drv.system),
{
    proof {
        reveal_strlit("fixed_hash");
        reveal_strlit("name");
        reveal_strlit("outputs");
        reveal_strlit("system");
    }
    let mut r: Vec<(String, String)> = Vec::new();
    match &drv.fixed_hash {
        Some(h) => {
            r.push((String::from_str("fixed_hash"), h.base64_with_algo()));
        },
        None => {},
    }
    r.push((String::from_str("name"), drv.name.clone()));
    r.push((String::from_str("outputs"), join_space(&drv.outputs)));
    r.push((String::from_str("system"), drv.system.name()));
    r
}

/// The input derivations keyed by what identifies them modulo their own
/// paths: each path is replaced by the path made from its derivation's
/// identity `hashes[i]` and its name.
pub fn modulo_input_drvs(
    input_drvs: &Vec<(StorePath, Vec<String>)>,
    hashes: &Vec<crate::hash::Hash>,
) -> (r: Vec<(StorePath, Vec<String>)>)
    requires
        hashes@.len() == input_drvs@.len(),
        forall|i: int| 0 <= i < hashes@.len() ==> (#[trigger] hashes@[i]).wf(),
        forall|i: int|
            0 <= i < input_drvs@.len() ==> (#[trigger] input_drvs@[i]).0.path@.len() > 64,
    ensures
        r@.len() == input_drvs@.len(),
        forall|i: int|
            0 <= i < r@.len() ==> (#[trigger] r@[i]).0.path@ == made_path(
                hashes@[i],
                input_drvs@[i].0.path@.subrange(65, input_drvs@[i].0.path@.len() as int),
            ) && r@[i].1@.len() == input_drvs@[i].1@.len() && forall|j: int|
                0 <= j < r@[i].1@.len() ==> r@[i].1@[j]@ == input_drvs@[i].1@[j]@,
{
    let mut r: Vec<(StorePath, Vec<String>)> = Vec::new();
    let mut i: usize = 0;
    while i < input_drvs.len()
        invariant
            i <= input_drvs@.len(),
            hashes@.len() == input_drvs@.len(),
            forall|q: int| 0 <= q < hashes@.len() ==> (#[trigger] hashes@[q]).wf(),
            forall|q: int|
                0 <= q < input_drvs@.len() ==> (#[trigger] input_drvs@[q]).0.path@.len() > 64,
            r@.len() == i,
            forall|q: int|
                0 <= q < i ==> (#[trigger] r@[q]).0.path@ == made_path(
                    hashes@[q],
                    input_drvs@[q].0.path@.subrange(65, input_drvs@[q].0.path@.len() as int),
                ) && r@[q].1@.len() == input_drvs@[q].1@.len() && forall|j: int|
                    0 <= j < r@[q].1@.len() ==> r@[q].1@[j]@ == input_drvs@[q].1@[j]@,
        decreases input_drvs@.len() - i,
    {
        let (p, outs) = &input_drvs[i];
        let key = make_path(&hashes[i], p.name_part());
        let mut copied: Vec<String> = Vec::new();
        let mut j: usize = 0;
        while j < outs.len()
            invariant
                j <= outs@.len(),
                copied@.len() == j,
                forall|x: int| 0 <= x < j ==> (#[trigger] copied@[x])@ == outs@[x]@,
            decreases outs@.len() - j,
        {
            copied.push(outs[j].clone());
            j = j + 1;
        }
        r.push((key, copied));
        i = i + 1;
    }
    r
}

/// The path a reference to output `out` of an instantiated derivation
/// resolves to: the output's class in the store directory, followed by the
/// suffix if any; an output the derivation lacks is an error.
pub fn drv_output_path(
    config: &Config,
    eq_classes: &Vec<(String, StorePath)>,
    out: &str,
    suff: &Option<String>,
) -> (r: Result<String, StoreError>)
    ensures
        r is Ok <==> exists|i: int| 0 <= i < eq_classes@.len() && (#[trigger] eq_classes@[i]).0@ == out@,
        r is Err ==> (r->Err_0 matches StoreError::InvalidOutput(o) && o@ == out@),
        r is Ok ==> exists|i: int|
            {
                &&& 0 <= i < eq_classes@.len()
                &&& (#[trigger] eq_classes@[i]).0@ == out@
                &&& forall|q: int| 0 <= q < i ==> eq_classes@[q].0@ != out@
                &&& r->Ok_0@ == config.store_dir@ + seq!['/'] + eq_classes@[i].1.path@ + match suff {
                    Some(s) => s@,
                    None => Seq::empty(),
                }
            },
{
    let mut i: usize = 0;
    while i < eq_classes.len()
        invariant
            i <= eq_classes@.len(),
            forall|q: int| 0 <= q < i ==> eq_classes@[q].0@ != out@,
        decreases eq_classes@.len() - i,
    {
        if str_eq(eq_classes[i].0.as_str(), out) {
            let base = config.store_path(&eq_classes[i].1);
            let full = match suff {
                Some(s) => base.concat(s.as_str()),
                None => base,
            };
            proof {
                assert(full@ =~= config.store_dir@ + seq!['/'] + eq_classes@[i as int].1.path@ + match suff {
                    Some(s) => s@,
                    None => Seq::empty(),
                });
            }
            return Ok(full);
        }
        i = i + 1;
    }
    Err(StoreError::InvalidOutput(out.to_owned()))
}

/// The environment with each output bound to the absolute path of its
/// class; an earlier binding of the output's name is replaced.
pub fn output_envs(
    config: &Config,
    envs: Vec<(String, String)>,
    eq_classes: &Vec<(String, StorePath)>,
) -> (r: Vec<(String, String)>)
    ensures
        forall|i: int|
            0 <= i < eq_classes@.len() && (forall|q: int|
                i < q < eq_classes@.len() ==> eq_classes@[q].0@ != (#[trigger] eq_classes@[i]).0@)
                ==> lookup(r@, eq_classes@[i].0@) == Some(
                config.store_dir@ + seq!['/'] + eq_classes@[i].1.path@,
            ),
        forall|k: Seq<char>|
            (forall|i: int| 0 <= i < eq_classes@.len() ==> (#[trigger] eq_classes@[i]).0@ != k)
                ==> #[trigger] lookup(r@, k) == lookup(envs@, k),
        crate::store::unique_keys(envs@) ==> crate::store::unique_keys(r@),
{
    let mut r = envs;
    let ghost orig = r@;
    let mut i: usize = 0;
    while i < eq_classes.len()
        invariant
            i <= eq_classes@.len(),
            forall|q: int|
                0 <= q < i && (forall|x: int|
                    q < x < i ==> eq_classes@[x].0@ != (#[trigger] eq_classes@[q]).0@) ==> lookup(
                    r@,
                    eq_classes@[q].0@,
                ) == Some(config.store_dir@ + seq!['/'] + eq_classes@[q].1.path@),
            forall|k: Seq<char>|
                (forall|q: int| 0 <= q < i ==> (#[trigger] eq_classes@[q]).0@ != k) ==> #[trigger] lookup(
                    r@,
                    k,
                ) == lookup(orig, k),
            crate::store::unique_keys(orig) ==> crate::store::unique_keys(r@),
        decreases eq_classes@.len() - i,
    {
        let ghost before = r@;
        let key = eq_classes[i].0.clone();
        let value = config.store_path(&eq_classes[i].1);
        let ghost kv = key@;
        let ghost vv = value@;
        put_text(&mut r, key, value);
        proof {
            assert forall|q: int|
                0 <= q < i + 1 && (forall|x: int|
                    q < x < i + 1 ==> eq_classes@[x].0@ != (#[trigger] eq_classes@[q]).0@) implies lookup(
                    r@,
                    eq_classes@[q].0@,
                ) == Some(config.store_dir@ + seq!['/'] + eq_classes@[q].1.path@) by {
                if q < i {
                    assert(eq_classes@[i as int].0@ != eq_classes@[q].0@);
                }
            }
        }
        i = i + 1;
    }
    r
}

proof fn lemma_lookup_append(s: Seq<(String, String)>, e: (String, String), x: Seq<char>)
    ensures
        lookup(s.push(e), x) == match lookup(s, x) {
            Some(v) => Some(v),
            None => if e.0@ == x {
                Some(e.1@)
            } else {
                None
            },
        },
    decreases s.len(),
{
    if s.len() > 0 {
        lemma_lookup_append(s.drop_first(), e, x);
        assert(s.push(e).drop_first() =~= s.drop_first().push(e));
        assert(s.push(e)[0] == s[0]);
    } else {
        assert(s.push(e)[0] == e);
        assert(s.push(e).drop_first() =~= Seq::<(String, String)>::empty());
        assert(lookup(Seq::<(String, String)>::empty(), x) is None);
    }
}

/// Binds `key` to `value`, replacing the earlier bindings of `key`.
pub fn put_text(entries: &mut Vec<(String, String)>, key: String, value: String)
    ensures
        lookup(final(entries)@, key@) == Some(value@),
        forall|x: Seq<char>| x != key@ ==> #[trigger] lookup(final(entries)@, x) == lookup(
            old(entries)@,
            x,
        ),
        crate::store::unique_keys(old(entries)@) ==> crate::store::unique_keys(final(entries)@),
{
    let ghost orig = entries@;
    let ghost kv = key@;
    let mut kept: Vec<(String, String)> = Vec::new();
    let mut i: usize = 0;
    while i < entries.len()
        invariant
            i <= entries@.len(),
            entries@ == orig,
            kv == key@,
            forall|x: Seq<char>|
                #[trigger] lookup(kept@, x) == if x == kv {
                    None
                } else {
                    lookup(orig.subrange(0, i as int), x)
                },
            forall|q: int| 0 <= q < kept@.len() ==> (#[trigger] kept@[q]).0@ != kv,
            forall|q: int|
                0 <= q < kept@.len() ==> exists|m: int| 0 <= m < i && (#[trigger] kept@[q]).0@ == orig[m].0@,
            crate::store::unique_keys(orig) ==> crate::store::unique_keys(kept@),
        decreases entries@.len() - i,
    {
        let ghost before = kept@;
        let ghost e = orig[i as int];
        assert(orig.subrange(0, i + 1) =~= orig.subrange(0, i as int).push(e));
        if !str_eq(entries[i].0.as_str(), key.as_str()) {
            let c = (entries[i].0.clone(), entries[i].1.clone());
            kept.push(c);
            proof {
                assert(kept@ =~= before.push(c));
                assert forall|q: int| 0 <= q < kept@.len() implies exists|m: int| 0 <= m < i + 1 && (#[trigger] kept@[q]).0@ == orig[m].0@ by {
                    if q < before.len() {
                        let m = choose|m: int| 0 <= m < i && before[q].0@ == orig[m].0@;
                        assert(kept@[q] == before[q]);
                    } else {
                        assert(kept@[q].0@ == orig[i as int].0@);
                    }
                }
                if crate::store::unique_keys(orig) {
                    assert forall|a: int, b: int| 0 <= a < b < kept@.len() implies (#[trigger] kept@[a]).0@ != (#[trigger] kept@[b]).0@ by {
                        assert(kept@[a] == before[a]);
                        if b < before.len() {
                            assert(kept@[b] == before[b]);
                        } else {
                            let m = choose|m: int| 0 <= m < i && before[a].0@ == orig[m].0@;
                            assert(orig[m].0@ != orig[i as int].0@);
                        }
                    }
                }
                assert forall|x: Seq<char>| #[trigger] lookup(kept@, x) == if x == kv {
                    None
                } else {
                    lookup(orig.subrange(0, i + 1), x)
                } by {
                    lemma_lookup_append(before, c, x);
                    lemma_lookup_append(orig.subrange(0, i as int), e, x);
                }
            }
        } else {
            proof {
                assert forall|x: Seq<char>| #[trigger] lookup(kept@, x) == if x == kv {
                    None
                } else {
                    lookup(orig.subrange(0, i + 1), x)
                } by {
                    lemma_lookup_append(orig.subrange(0, i as int), e, x);
                }
            }
        }
        i = i + 1;
    }
    assert(orig.subrange(0, i as int) =~= orig);
    let ghost before = kept@;
    let e = (key, value);
    let ghost eg = e;
    kept.push(e);
    proof {
        assert(kept@ =~= before.push(eg));
        if crate::store::unique_keys(orig) {
            assert forall|a: int, b: int| 0 <= a < b < kept@.len() implies (#[trigger] kept@[a]).0@ != (#[trigger] kept@[b]).0@ by {
                assert(kept@[a] == before[a]);
                if b < before.len() {
                    assert(kept@[b] == before[b]);
                }
            }
        }
        assert forall|x: Seq<char>| x != kv implies #[trigger] lookup(kept@, x) == lookup(orig, x) by {
            lemma_lookup_append(before, eg, x);
        }
        lemma_lookup_append(before, eg, kv);
    }
    *entries = kept;
}

/// The derivation before its identity is known: each output's class is the
/// empty path and each output is bound to the empty string in the
/// environment, so that the identity does not depend on them.
pub fn proto_drv(
    drv: &Drv,
    input_drvs: Vec<(StorePath, Vec<String>)>,
    input_srcs: Vec<StorePath>,
    builder: String,
    args: Vec<String>,
    envs: Vec<(String, String)>,
) -> (r: StoreDrv)
    ensures
        r.eq_classes@.len() == drv.outputs@.len(),
        forall|i: int|
            0 <= i < r.eq_classes@.len() ==> (#[trigger] r.eq_classes@[i]).0@ == drv.outputs@[i]@
                && r.eq_classes@[i].1.path@.len() == 0,
        forall|i: int|
            0 <= i < drv.outputs@.len() ==> lookup(r.envs@, (#[trigger] drv.outputs@[i])@) == Some(
                Seq::<char>::empty(),
            ),
        forall|k: Seq<char>|
            (forall|i: int| 0 <= i < drv.outputs@.len() ==> (#[trigger] drv.outputs@[i])@ != k)
                ==> #[trigger] lookup(r.envs@, k) == lookup(envs@, k),
        r.fixed_hash is Some <==> drv.fixed_hash is Some,
        r.fixed_hash is Some ==> r.fixed_hash->0.spec_algo() == drv.fixed_hash->0.spec_algo()
            && r.fixed_hash->0.digest() == drv.fixed_hash->0.digest(),
        r.system == drv.system,
        r.input_drvs == input_drvs,
        r.input_srcs == input_srcs,
        r.builder == builder,
        r.args == args,
{
    let mut eq_classes: Vec<(String, StorePath)> = Vec::new();
    let mut env = envs;
    let ghost orig = env@;
    let mut i: usize = 0;
    while i < drv.outputs.len()
        invariant
            i <= drv.outputs@.len(),
            eq_classes@.len() == i,
            forall|q: int|
                0 <= q < i ==> (#[trigger] eq_classes@[q]).0@ == drv.outputs@[q]@
                    && eq_classes@[q].1.path@.len() == 0,
            forall|q: int| 0 <= q < i ==> lookup(env@, (#[trigger] drv.outputs@[q])@) == Some(
                Seq::<char>::empty(),
            ),
            forall|k: Seq<char>|
                (forall|q: int| 0 <= q < i ==> (#[trigger] drv.outputs@[q])@ != k) ==> #[trigger] lookup(
                    env@,
                    k,
                ) == lookup(orig, k),
        decreases drv.outputs@.len() - i,
    {
        eq_classes.push((drv.outputs[i].clone(), StorePath::empty()));
        put_text(&mut env, drv.outputs[i].clone(), String::new());
        i = i + 1;
    }
    let fixed_hash = match &drv.fixed_hash {
        Some(h) => Some(h.copy()),
        None => None,
    };
    StoreDrv {
        eq_classes,
        fixed_hash,
        input_drvs,
        input_srcs,
        system: drv.system,
        builder,
        args,
        envs: env,
    }
}

/// The (derivation path, output) pairs listed in `d`.
pub open spec fn drv_pairs(d: Seq<(StorePath, Vec<String>)>) -> Set<(Seq<char>, Seq<char>)> {
    Set::new(
        |x: (Seq<char>, Seq<char>)|
            exists|i: int, j: int|
                0 <= i < d.len() && 0 <= j < d[i].1@.len() && d[i].0.path@ == x.0
                    && (#[trigger] d[i].1@[j])@ == x.1,
    )
}

/// The paths listed in `s`.
pub open spec fn path_set(s: Seq<StorePath>) -> Set<Seq<char>> {
    Set::new(|x: Seq<char>| exists|i: int| 0 <= i < s.len() && (#[trigger] s[i]).path@ == x)
}

/// What an expression resolves to: the derivations it uses with the
/// outputs it takes from each, the sources it adds, and its strings.
pub struct BindRes {
    pub drvs: Vec<(StorePath, Vec<String>)>,
    pub srcs: Vec<StorePath>,
    pub res: Vec<String>,
}

impl BindRes {
    /// Nothing resolved yet.
    pub fn new() -> (r: BindRes)
        ensures
            r.drvs@.len() == 0,
            r.srcs@.len() == 0,
            r.res@.len() == 0,
    {
        BindRes { drvs: Vec::new(), srcs: Vec::new(), res: Vec::new() }
    }
}

/// Adds a source path, once.
pub fn add_src(srcs: &mut Vec<StorePath>, p: StorePath)
    ensures
        path_set(final(srcs)@) == path_set(old(srcs)@).insert(p.path@),
{
    let ghost before = srcs@;
    let mut i: usize = 0;
    while i < srcs.len()
        invariant
            srcs@ == before,
            i <= srcs@.len(),
            forall|q: int| 0 <= q < i ==> srcs@[q].path@ != p.path@,
        decreases srcs@.len() - i,
    {
        if str_eq(srcs[i].path.as_str(), p.path.as_str()) {
            proof {
                assert(path_set(before).contains(p.path@));
                assert(path_set(before).insert(p.path@) =~= path_set(before));
            }
            return;
        }
        i = i + 1;
    }
    let ghost pv = p.path@;
    srcs.push(p);
    proof {
        assert forall|x: Seq<char>| #[trigger] path_set(srcs@).contains(x) <==> path_set(before).insert(pv).contains(x) by {
            if path_set(before).contains(x) {
                let q = choose|q: int| 0 <= q < before.len() && (#[trigger] before[q]).path@ == x;
                assert(srcs@[q] == before[q]);
            }
            if x == pv {
                assert(srcs@[before.len() as int].path@ == x);
            }
            if path_set(srcs@).contains(x) && x != pv {
                let q = choose|q: int| 0 <= q < srcs@.len() && (#[trigger] srcs@[q]).path@ == x;
                assert(q < before.len());
                assert(before[q] == srcs@[q]);
            }
        }
        assert(path_set(srcs@) =~= path_set(before).insert(pv));
    }
}

fn contains_text(v: &Vec<String>, s: &String) -> (r: bool)
    ensures
        r == exists|j: int| 0 <= j < v@.len() && (#[trigger] v@[j])@ == s@,
{
    let mut j: usize = 0;
    while j < v.len()
        invariant
            j <= v@.len(),
            forall|q: int| 0 <= q < j ==> v@[q]@ != s@,
        decreases v@.len() - j,
    {
        if str_eq(v[j].as_str(), s.as_str()) {
            return true;
        }
        j = j + 1;
    }
    false
}

/// Records that output `out` of derivation `p` is used.
pub fn add_drv_output(drvs: &mut Vec<(StorePath, Vec<String>)>, p: &StorePath, out: &String)
    ensures
        drv_pairs(final(drvs)@) == drv_pairs(old(drvs)@).insert((p.path@, out@)),
{
    let ghost before = drvs@;
    let ghost x0 = (p.path@, out@);
    let mut i: usize = 0;
    while i < drvs.len()
        invariant
            drvs@ == before,
            before == old(drvs)@,
            x0 == (p.path@, out@),
            i <= drvs@.len(),
            forall|q: int| 0 <= q < i ==> drvs@[q].0.path@ != p.path@,
        decreases drvs@.len() - i,
    {
        if str_eq(drvs[i].0.path.as_str(), p.path.as_str()) {
            let (key, mut outs) = drvs.remove(i);
            let ghost removed = drvs@;
            let ghost old_outs = outs@;
            assert(old_outs == before[i as int].1@);
            let found = contains_text(&outs, out);
            if !found {
                outs.push(out.clone());
                assert(outs@.len() == old_outs.len() + 1);
                assert(outs@[old_outs.len() as int]@ == out@);
            }
            let ghost entry_outs = outs@;
            assert(forall|b: int| 0 <= b < old_outs.len() ==> entry_outs[b] == old_outs[b]);
            drvs.push((key, outs));
            assert(drvs@[drvs@.len() - 1].1@ == entry_outs);
            assert(drvs@[drvs@.len() - 1].0.path@ == p.path@);
            proof {
                assert(removed =~= before.remove(i as int));
                let d = drvs@;
                assert(d =~= removed.push(d[d.len() - 1]));
                assert forall|x: (Seq<char>, Seq<char>)| #[trigger] drv_pairs(d).contains(x)
                    <==> drv_pairs(before).insert(x0).contains(x) by {
                    if drv_pairs(before).contains(x) {
                        let (a, b) = choose|a: int, b: int|
                            0 <= a < before.len() && 0 <= b < before[a].1@.len() && before[a].0.path@
                                == x.0 && (#[trigger] before[a].1@[b])@ == x.1;
                        if a < i {
                            assert(d[a] == before[a]);
                        } else if a > i {
                            assert(d[a - 1] == before[a]);
                        } else {
                            assert(entry_outs[b] == old_outs[b]);
                            assert(d[d.len() - 1].1@[b]@ == x.1);
                        }
                    }
                    if x == x0 {
                        let last = d[d.len() - 1];
                        assert(last.1@ == entry_outs);
                        assert(last.0.path@ == x.0);
                        if found {
                            let j = choose|j: int| 0 <= j < old_outs.len() && (#[trigger] old_outs[j])@ == out@;
                            assert(entry_outs[j] == old_outs[j]);
                            assert(last.1@[j]@ == x.1);
                            assert(drv_pairs(d).contains(x));
                        } else {
                            assert(entry_outs[old_outs.len() as int]@ == out@);
                            assert(last.1@[old_outs.len() as int]@ == x.1);
                            assert(drv_pairs(d).contains(x));
                        }
                    }
                    if drv_pairs(d).contains(x) && x != x0 {
                        let (a, b) = choose|a: int, b: int|
                            0 <= a < d.len() && 0 <= b < d[a].1@.len() && d[a].0.path@ == x.0
                                && (#[trigger] d[a].1@[b])@ == x.1;
                        if a < d.len() - 1 {
                            if a < i {
                                assert(before[a] == d[a]);
                            } else {
                                assert(before[a + 1] == d[a]);
                            }
                        } else {
                            if b < old_outs.len() {
                                assert(before[i as int].1@[b]@ == x.1);
                            }
                        }
                    }
                }
                assert(drv_pairs(d) =~= drv_pairs(before).insert(x0));
            }
            return;
        }
        i = i + 1;
    }
    let mut outs: Vec<String> = Vec::new();
    outs.push(out.clone());
    drvs.push((p.copy(), outs));
    proof {
        let d = drvs@;
        assert forall|x: (Seq<char>, Seq<char>)| #[trigger] drv_pairs(d).contains(x)
            <==> drv_pairs(before).insert(x0).contains(x) by {
            if drv_pairs(before).contains(x) {
                let (a, b) = choose|a: int, b: int|
                    0 <= a < before.len() && 0 <= b < before[a].1@.len() && before[a].0.path@
                        == x.0 && (#[trigger] before[a].1@[b])@ == x.1;
                assert(d[a] == before[a]);
            }
            if x == x0 {
                assert(d[before.len() as int].1@[0]@ == x.1);
            }
            if drv_pairs(d).contains(x) && x != x0 {
                let (a, b) = choose|a: int, b: int|
                    0 <= a < d.len() && 0 <= b < d[a].1@.len() && d[a].0.path@ == x.0
                        && (#[trigger] d[a].1@[b])@ == x.1;
                assert(a < before.len());
                assert(before[a] == d[a]);
            }
        }
        assert(drv_pairs(d) =~= drv_pairs(before).insert(x0));
    }
}

/// Adds what another expression resolved to: the derivations, outputs and
/// sources are united, the strings appended.
pub fn absorb(acc: &mut BindRes, other: BindRes)
    ensures
        drv_pairs(final(acc).drvs@) == drv_pairs(old(acc).drvs@).union(drv_pairs(other.drvs@)),
        path_set(final(acc).srcs@) == path_set(old(acc).srcs@).union(path_set(other.srcs@)),
        strings_view(final(acc).res@) == strings_view(old(acc).res@) + strings_view(other.res@),
{
    let BindRes { drvs: od_vec, srcs: os_vec, res: or_vec } = other;
    let ghost d0 = acc.drvs@;
    let ghost s0 = acc.srcs@;
    let ghost r0 = acc.res@;
    let ghost od = od_vec@;
    let mut i: usize = 0;
    proof {
        assert(drv_pairs(od.subrange(0, 0)) =~= Set::<(Seq<char>, Seq<char>)>::empty());
        assert(drv_pairs(d0).union(Set::empty()) =~= drv_pairs(d0));
    }
    while i < od_vec.len()
        invariant
            i <= od.len(),
            od_vec@ == od,
            acc.srcs@ == s0,
            acc.res@ == r0,
            drv_pairs(acc.drvs@) == drv_pairs(d0).union(drv_pairs(od.subrange(0, i as int))),
        decreases od.len() - i,
    {
        let ghost before = acc.drvs@;
        let ghost row_i = od[i as int];
        let mut j: usize = 0;
        proof {
            assert(Set::new(
                |x: (Seq<char>, Seq<char>)|
                    exists|b: int|
                        0 <= b < 0 && row_i.0.path@ == x.0 && (#[trigger] row_i.1@[b])@ == x.1,
            ) =~= Set::<(Seq<char>, Seq<char>)>::empty());
            assert(drv_pairs(before).union(Set::empty()) =~= drv_pairs(before));
        }
        while j < od_vec[i].1.len()
            invariant
                i < od.len(),
                od_vec@ == od,
                acc.srcs@ == s0,
                acc.res@ == r0,
                row_i == od[i as int],
                j <= row_i.1@.len(),
                drv_pairs(acc.drvs@) == drv_pairs(before).union(Set::new(
                    |x: (Seq<char>, Seq<char>)|
                        exists|b: int|
                            0 <= b < j && row_i.0.path@ == x.0 && (#[trigger] row_i.1@[b])@ == x.1,
                )),
            decreases row_i.1@.len() - j,
        {
            add_drv_output(&mut acc.drvs, &od_vec[i].0, &od_vec[i].1[j]);
            proof {
                let a = Set::new(
                    |x: (Seq<char>, Seq<char>)|
                        exists|b: int|
                            0 <= b < j && row_i.0.path@ == x.0 && (#[trigger] row_i.1@[b])@ == x.1,
                );
                let c = Set::new(
                    |x: (Seq<char>, Seq<char>)|
                        exists|b: int|
                            0 <= b < j + 1 && row_i.0.path@ == x.0 && (#[trigger] row_i.1@[b])@
                                == x.1,
                );
                let e = (row_i.0.path@, row_i.1@[j as int]@);
                assert forall|x: (Seq<char>, Seq<char>)| #[trigger] c.contains(x) <==> a.insert(e).contains(x) by {
                    if c.contains(x) {
                        let b = choose|b: int|
                            0 <= b < j + 1 && row_i.0.path@ == x.0 && (#[trigger] row_i.1@[b])@
                                == x.1;
                        if b < j {
                            assert(a.contains(x));
                        }
                    }
                    if a.contains(x) {
                        let b = choose|b: int|
                            0 <= b < j && row_i.0.path@ == x.0 && (#[trigger] row_i.1@[b])@ == x.1;
                        assert(c.contains(x));
                    }
                    if x == e {
                        assert(row_i.1@[j as int]@ == x.1);
                        assert(c.contains(x));
                    }
                }
                assert(c =~= a.insert(e));
                assert(drv_pairs(acc.drvs@) =~= drv_pairs(before).union(c));
            }
            j = j + 1;
        }
        proof {
            let row = Set::new(
                |x: (Seq<char>, Seq<char>)|
                    exists|b: int|
                        0 <= b < row_i.1@.len() && row_i.0.path@ == x.0 && (#[trigger] row_i.1@[b])@
                            == x.1,
            );
            let pre = od.subrange(0, i as int);
            let post = od.subrange(0, i + 1);
            assert forall|x: (Seq<char>, Seq<char>)| #[trigger] drv_pairs(post).contains(x)
                <==> drv_pairs(pre).contains(x) || row.contains(x) by {
                if drv_pairs(post).contains(x) {
                    let (a, b) = choose|a: int, b: int|
                        0 <= a < post.len() && 0 <= b < post[a].1@.len() && post[a].0.path@ == x.0
                            && (#[trigger] post[a].1@[b])@ == x.1;
                    if a < i {
                        assert(pre[a] == post[a]);
                        assert(drv_pairs(pre).contains(x));
                    } else {
                        assert(post[a] == row_i);
                        assert(row.contains(x));
                    }
                }
                if drv_pairs(pre).contains(x) {
                    let (a, b) = choose|a: int, b: int|
                        0 <= a < pre.len() && 0 <= b < pre[a].1@.len() && pre[a].0.path@ == x.0
                            && (#[trigger] pre[a].1@[b])@ == x.1;
                    assert(post[a] == pre[a]);
                    assert(drv_pairs(post).contains(x));
                }
                if row.contains(x) {
                    let b = choose|b: int|
                        0 <= b < row_i.1@.len() && row_i.0.path@ == x.0 && (#[trigger] row_i.1@[b])@
                            == x.1;
                    assert(post[i as int] == row_i);
                    assert(post[i as int].1@[b]@ == x.1);
                    assert(drv_pairs(post).contains(x));
                }
            }
            assert(drv_pairs(post) =~= drv_pairs(pre).union(row));
            assert(drv_pairs(acc.drvs@) =~= drv_pairs(d0).union(drv_pairs(post)));
        }
        i = i + 1;
    }
    assert(od.subrange(0, od.len() as int) =~= od);
    let ghost ssrc = os_vec@;
    let mut k: usize = 0;
    proof {
        assert(path_set(ssrc.subrange(0, 0)) =~= Set::<Seq<char>>::empty());
        assert(path_set(s0).union(Set::empty()) =~= path_set(s0));
    }
    while k < os_vec.len()
        invariant
            k <= ssrc.len(),
            os_vec@ == ssrc,
            acc.res@ == r0,
            drv_pairs(acc.drvs@) == drv_pairs(d0).union(drv_pairs(od)),
            path_set(acc.srcs@) == path_set(s0).union(path_set(ssrc.subrange(0, k as int))),
        decreases ssrc.len() - k,
    {
        add_src(&mut acc.srcs, os_vec[k].copy());
        proof {
            let pre = ssrc.subrange(0, k as int);
            let post = ssrc.subrange(0, k + 1);
            assert forall|x: Seq<char>| #[trigger] path_set(post).contains(x) <==> path_set(pre).insert(
                ssrc[k as int].path@,
            ).contains(x) by {
                if path_set(post).contains(x) {
                    let a = choose|a: int| 0 <= a < post.len() && (#[trigger] post[a]).path@ == x;
                    if a < k {
                        assert(pre[a] == post[a]);
                    }
                }
                if path_set(pre).contains(x) {
                    let a = choose|a: int| 0 <= a < pre.len() && (#[trigger] pre[a]).path@ == x;
                    assert(post[a] == pre[a]);
                }
                if x == ssrc[k as int].path@ {
                    assert(post[k as int] == ssrc[k as int]);
                }
            }
            assert(path_set(post) =~= path_set(pre).insert(ssrc[k as int].path@));
            assert(path_set(acc.srcs@) =~= path_set(s0).union(path_set(post)));
        }
        k = k + 1;
    }
    assert(ssrc.subrange(0, ssrc.len() as int) =~= ssrc);
    let ghost rr = or_vec@;
    let mut m: usize = 0;
    assert(strings_view(rr.subrange(0, 0)) =~= Seq::<Seq<char>>::empty());
    assert(strings_view(r0) + Seq::<Seq<char>>::empty() =~= strings_view(r0));
    while m < or_vec.len()
        invariant
            m <= rr.len(),
            or_vec@ == rr,
            drv_pairs(acc.drvs@) == drv_pairs(d0).union(drv_pairs(od)),
            path_set(acc.srcs@) == path_set(s0).union(path_set(ssrc)),
            strings_view(acc.res@) == strings_view(r0) + strings_view(rr.subrange(0, m as int)),
        decreases rr.len() - m,
    {
        let ghost prev = acc.res@;
        acc.res.push(or_vec[m].clone());
        assert(strings_view(acc.res@) =~= strings_view(prev).push(rr[m as int]@));
        assert(strings_view(rr.subrange(0, m + 1)) =~= strings_view(rr.subrange(0, m as int)).push(rr[m as int]@));
        m = m + 1;
    }
    assert(rr.subrange(0, rr.len() as int) =~= rr);
}

/// The views of a list of paths.
pub open spec fn paths_view(s: Seq<StorePath>) -> Seq<Seq<char>> {
    s.map_values(|p: StorePath| p.path@)
}

/// The views of a list of string pairs.
pub open spec fn text_pairs_view(s: Seq<(String, String)>) -> Seq<(Seq<char>, Seq<char>)> {
    s.map_values(|p: (String, String)| (p.0@, p.1@))
}

/// The views of a list of named paths.
pub open spec fn named_paths_view(s: Seq<(String, StorePath)>) -> Seq<(Seq<char>, Seq<char>)> {
    s.map_values(|p: (String, StorePath)| (p.0@, p.1.path@))
}

fn copy_strings(v: &Vec<String>) -> (r: Vec<String>)
    ensures
        strings_view(r@) == strings_view(v@),
{
    let mut r: Vec<String> = Vec::new();
    let mut i: usize = 0;
    while i < v.len()
        invariant
            i <= v@.len(),
            r@.len() == i,
            forall|q: int| 0 <= q < i ==> (#[trigger] r@[q])@ == v@[q]@,
        decreases v@.len() - i,
    {
        r.push(v[i].clone());
        i = i + 1;
    }
    assert(strings_view(r@) =~= strings_view(v@));
    r
}

fn copy_paths(v: &Vec<StorePath>) -> (r: Vec<StorePath>)
    ensures
        paths_view(r@) == paths_view(v@),
{
    let mut r: Vec<StorePath> = Vec::new();
    let mut i: usize = 0;
    while i < v.len()
        invariant
            i <= v@.len(),
            r@.len() == i,
            forall|q: int| 0 <= q < i ==> (#[trigger] r@[q]).path@ == v@[q].path@,
        decreases v@.len() - i,
    {
        r.push(v[i].copy());
        i = i + 1;
    }
    assert(paths_view(r@) =~= paths_view(v@));
    r
}

fn copy_text_pairs(v: &Vec<(String, String)>) -> (r: Vec<(String, String)>)
    ensures
        text_pairs_view(r@) == text_pairs_view(v@),
{
    let mut r: Vec<(String, String)> = Vec::new();
    let mut i: usize = 0;
    while i < v.len()
        invariant
            i <= v@.len(),
            r@.len() == i,
            forall|q: int| 0 <= q < i ==> (#[trigger] r@[q]).0@ == v@[q].0@ && r@[q].1@ == v@[q].1@,
        decreases v@.len() - i,
    {
        r.push((v[i].0.clone(), v[i].1.clone()));
        i = i + 1;
    }
    assert(text_pairs_view(r@) =~= text_pairs_view(v@));
    r
}

fn copy_named_paths(v: &Vec<(String, StorePath)>) -> (r: Vec<(String, StorePath)>)
    ensures
        named_paths_view(r@) == named_paths_view(v@),
{
    let mut r: Vec<(String, StorePath)> = Vec::new();
    let mut i: usize = 0;
    while i < v.len()
        invariant
            i <= v@.len(),
            r@.len() == i,
            forall|q: int| 0 <= q < i ==> (#[trigger] r@[q]).0@ == v@[q].0@ && r@[q].1.path@ == v@[q].1.path@,
        decreases v@.len() - i,
    {
        r.push((v[i].0.clone(), v[i].1.copy()));
        i = i + 1;
    }
    assert(named_paths_view(r@) =~= named_paths_view(v@));
    r
}

/// The derivation whose text gives the identity of `drv`: the same
/// derivation with each input derivation keyed by what identifies it
/// (`modulo_input_drvs` with the inputs' identities `hashes`).
pub fn modulo_drv(drv: &StoreDrv, hashes: &Vec<crate::hash::Hash>) -> (r: StoreDrv)
    requires
        hashes@.len() == drv.input_drvs@.len(),
        forall|i: int| 0 <= i < hashes@.len() ==> (#[trigger] hashes@[i]).wf(),
        forall|i: int|
            0 <= i < drv.input_drvs@.len() ==> (#[trigger] drv.input_drvs@[i]).0.path@.len() > 64,
    ensures
        r.input_drvs@.len() == drv.input_drvs@.len(),
        forall|i: int|
            0 <= i < r.input_drvs@.len() ==> (#[trigger] r.input_drvs@[i]).0.path@ == made_path(
                hashes@[i],
                drv.input_drvs@[i].0.path@.subrange(65, drv.input_drvs@[i].0.path@.len() as int),
            ) && strings_view(r.input_drvs@[i].1@) == strings_view(drv.input_drvs@[i].1@),
        named_paths_view(r.eq_classes@) == named_paths_view(drv.eq_classes@),
        r.fixed_hash is None <==> drv.fixed_hash is None,
        r.fixed_hash is Some ==> r.fixed_hash->0.spec_algo() == drv.fixed_hash->0.spec_algo()
            && r.fixed_hash->0.digest() == drv.fixed_hash->0.digest(),
        paths_view(r.input_srcs@) == paths_view(drv.input_srcs@),
        r.system == drv.system,
        r.builder@ == drv.builder@,
        strings_view(r.args@) == strings_view(drv.args@),
        text_pairs_view(r.envs@) == text_pairs_view(drv.envs@),
{
    let input_drvs = modulo_input_drvs(&drv.input_drvs, hashes);
    proof {
        assert forall|i: int| 0 <= i < input_drvs@.len() implies strings_view(
            (#[trigger] input_drvs@[i]).1@,
        ) == strings_view(drv.input_drvs@[i].1@) by {
            assert(strings_view(input_drvs@[i].1@) =~= strings_view(drv.input_drvs@[i].1@));
        }
    }
    StoreDrv {
        eq_classes: copy_named_paths(&drv.eq_classes),
        fixed_hash: match &drv.fixed_hash {
            Some(h) => Some(h.copy()),
            None => None,
        },
        input_drvs,
        input_srcs: copy_paths(&drv.input_srcs),
        system: drv.system,
        builder: drv.builder.clone(),
        args: copy_strings(&drv.args),
        envs: copy_text_pairs(&drv.envs),
    }
}

/// The identity of a derivation: for a fixed-output one, the digest of its
/// fixed text; otherwise the digest of `modulo_text`, the canonical text of
/// its `modulo_drv`.
pub fn drv_identity(drv: &StoreDrv, store_dir: &str, modulo_text: &str) -> (r: crate::hash::Hash)
    requires
        drv.fixed_hash is Some ==> drv.fixed_hash->0.wf(),
    ensures
        r.wf(),
        r.spec_algo() == HashAlgo::Sha512,
        drv.fixed_hash is Some ==> r.digest() == sha512_of(
            encode_utf8(fixed_text(drv.fixed_hash->0, store_dir@)),
        ),
        drv.fixed_hash is None ==> r.digest() == sha512_of(encode_utf8(modulo_text@)),
{
    match &drv.fixed_hash {
        Some(h) => fixed_drv_hash(h, store_dir),
        None => hash_drv_text(modulo_text),
    }
}

/// Two instantiations whose derivations resolve to the same canonical text
/// (in two runs, or from recipes that differ only where the text does not)
/// get the same identity and assign the same classes to the outputs.
pub proof fn lemma_same_text_same_classes(
    t1: Seq<char>,
    t2: Seq<char>,
    h1: crate::hash::Hash,
    h2: crate::hash::Hash,
    name: Seq<char>,
    outputs: Seq<String>,
    r1: Seq<(String, StorePath)>,
    r2: Seq<(String, StorePath)>,
)
    requires
        t1 == t2,
        h1.spec_algo() == HashAlgo::Sha512 && h1.digest() == sha512_of(encode_utf8(t1)),
        h2.spec_algo() == HashAlgo::Sha512 && h2.digest() == sha512_of(encode_utf8(t2)),
        classes_of(h1, name, outputs, r1),
        classes_of(h2, name, outputs, r2),
    ensures
        h1.text() == h2.text(),
        r1.len() == r2.len(),
        forall|i: int|
            0 <= i < r1.len() ==> (#[trigger] r1[i]).0@ == r2[i].0@ && r1[i].1.path@ == r2[i].1.path@,
{
    lemma_classes_deterministic(h1, h2, name, outputs, r1, r2);
}

} // verus!

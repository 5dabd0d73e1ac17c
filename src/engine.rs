//! The decisions of the build engine: reusing trusted outputs, resolving
//! the closure of the inputs to one path per output, rewriting equivalence
//! classes to real paths, choosing output paths and checking the outputs.
use crate::hashmod::rewrites_wf;
use crate::rewrite::{apply_char_matches, char_classes, replacement_chars, rewrite_str};
use crate::hashmod::rewrite_targets;
use crate::scan::{reports_matches, HASH_PART_LEN};
use crate::store::{Realisation, RealisationView, StoreDrv, StoreError, views};
use crate::hash::HashAlgo;
use crate::store_path::{path_text, random_hash, StorePath};
use vstd::prelude::*;

verus! {

/// `new` is `old` with every hash part of a key of `rw` rewritten to that
/// of its value.
pub open spec fn rewritten(old: Seq<char>, new: Seq<char>, rw: Seq<(StorePath, StorePath)>) -> bool {
    exists|ms: Seq<(usize, usize)>|
        {
            &&& reports_matches(char_classes(old), rewrite_targets(rw, None), 0, old.len() as int, ms)
            &&& new == apply_char_matches(old, ms, replacement_chars(rw))
        }
}

/// When every output has a trusted path, the first trusted path of each;
/// `trusted[i]` lists those of output `i`.
pub fn trusted_outputs(eq_classes: &Vec<(String, StorePath)>, trusted: &Vec<Vec<StorePath>>) -> (r:
    Option<Vec<(String, StorePath)>>)
    requires
        trusted@.len() == eq_classes@.len(),
    ensures
        r is Some <==> forall|i: int| 0 <= i < trusted@.len() ==> (#[trigger] trusted@[i])@.len() > 0,
        r is Some ==> {
            let v = r->0@;
            &&& v.len() == eq_classes@.len()
            &&& forall|i: int|
                0 <= i < v.len() ==> (#[trigger] v[i]).0@ == eq_classes@[i].0@ && v[i].1.path@
                    == trusted@[i]@[0].path@
        },
{
    let mut outs: Vec<(String, StorePath)> = Vec::new();
    let mut i: usize = 0;
    while i < eq_classes.len()
        invariant
            i <= eq_classes@.len(),
            trusted@.len() == eq_classes@.len(),
            outs@.len() == i,
            forall|q: int| 0 <= q < i ==> (#[trigger] trusted@[q])@.len() > 0,
            forall|q: int|
                0 <= q < i ==> (#[trigger] outs@[q]).0@ == eq_classes@[q].0@ && outs@[q].1.path@
                    == trusted@[q]@[0].path@,
        decreases eq_classes@.len() - i,
    {
        if trusted[i].len() == 0 {
            return None;
        }
        outs.push((eq_classes[i].0.clone(), trusted[i][0].copy()));
        i = i + 1;
    }
    Some(outs)
}

/// Two realisations of the same output of the same class, on different paths.
pub open spec fn conflicting(a: RealisationView, b: RealisationView) -> bool {
    a.0 == b.0 && a.1 == b.1 && a.2 != b.2
}

/// One path per output of each class: the inputs without repeats, or
/// `Conflict` when an output has two different trusted paths.
pub fn resolve(inputs: &Vec<Realisation>) -> (r: Result<Vec<Realisation>, StoreError>)
    ensures
        r is Ok <==> !exists|i: int, j: int|
            0 <= i < inputs@.len() && 0 <= j < inputs@.len() && #[trigger] conflicting(
                inputs@[i].view(),
                inputs@[j].view(),
            ),
        r is Err ==> r->Err_0 is Conflict,
        r is Ok ==> views(r->Ok_0@).no_duplicates() && forall|x: RealisationView|
            #[trigger] views(r->Ok_0@).contains(x) <==> views(inputs@).contains(x),
{
    let mut sel: Vec<Realisation> = Vec::new();
    let mut i: usize = 0;
    while i < inputs.len()
        invariant
            i <= inputs@.len(),
            views(sel@).no_duplicates(),
            forall|x: RealisationView|
                #[trigger] views(sel@).contains(x) <==> views(inputs@.subrange(0, i as int)).contains(
                    x,
                ),
            !exists|a: int, b: int|
                0 <= a < i && 0 <= b < i && #[trigger] conflicting(
                    inputs@[a].view(),
                    inputs@[b].view(),
                ),
        decreases inputs@.len() - i,
    {
        let x = &inputs[i];
        let mut k: usize = 0;
        let mut dup = false;
        while k < sel.len() && !dup
            invariant
                k <= sel@.len(),
                i < inputs@.len(),
                x == &inputs@[i as int],
                views(sel@).no_duplicates(),
                forall|y: RealisationView|
                    #[trigger] views(sel@).contains(y) <==> views(inputs@.subrange(0, i as int)).contains(
                        y,
                    ),
                dup ==> k < sel@.len() && sel@[k as int].view() == x.view(),
                forall|q: int|
                    0 <= q < k ==> !conflicting(#[trigger] sel@[q].view(), x.view()) && sel@[q].view()
                        != x.view(),
            decreases sel@.len() - k + (if dup { 0int } else { 1int }),
        {
            let same_key = sel[k].eq_class.path == x.eq_class.path && sel[k].out == x.out;
            if same_key {
                if sel[k].path.path == x.path.path {
                    dup = true;
                } else {
                    proof {
                        assert(views(sel@)[k as int] == sel@[k as int].view());
                        assert(views(sel@).contains(sel@[k as int].view()));
                        let a = choose|a: int|
                            0 <= a < views(inputs@.subrange(0, i as int)).len() && views(
                                inputs@.subrange(0, i as int),
                            )[a] == sel@[k as int].view();
                        assert(inputs@[a].view() == sel@[k as int].view());
                        assert(conflicting(inputs@[a].view(), inputs@[i as int].view()));
                    }
                    return Err(StoreError::Conflict);
                }
            } else {
                k = k + 1;
            }
        }
        let ghost before = views(sel@);
        let ghost xv = x.view();
        let ghost prev_in = views(inputs@.subrange(0, i as int));
        let ghost next_in = views(inputs@.subrange(0, i + 1));
        proof {
            assert(next_in =~= prev_in.push(xv));
            assert forall|y: RealisationView| #[trigger] next_in.contains(y) <==> (prev_in.contains(y) || y == xv) by {
                if y == xv {
                    assert(next_in[i as int] == xv);
                }
                if prev_in.contains(y) {
                    let a = choose|a: int| 0 <= a < prev_in.len() && prev_in[a] == y;
                    assert(next_in[a] == y);
                }
                if next_in.contains(y) && y != xv {
                    let a = choose|a: int| 0 <= a < next_in.len() && next_in[a] == y;
                    assert(a < i);
                    assert(prev_in[a] == y);
                }
            }
            assert forall|o: int| 0 <= o < i implies !conflicting(#[trigger] inputs@[o].view(), xv)
                && !conflicting(xv, inputs@[o].view()) by {
                assert(prev_in[o] == inputs@[o].view());
                assert(before.contains(inputs@[o].view()));
                let q = choose|q: int| 0 <= q < before.len() && before[q] == inputs@[o].view();
                assert(before[q] == sel@[q].view());
                if dup {
                    assert(before[k as int] == sel@[k as int].view());
                    assert(before[k as int] == xv);
                    assert(before.contains(xv));
                    assert(prev_in.contains(xv));
                    let a = choose|a: int| 0 <= a < prev_in.len() && prev_in[a] == xv;
                    assert(prev_in[a] == inputs@[a].view());
                    if conflicting(inputs@[o].view(), xv) {
                        assert(conflicting(inputs@[o].view(), inputs@[a].view()));
                    }
                    if conflicting(xv, inputs@[o].view()) {
                        assert(conflicting(inputs@[a].view(), inputs@[o].view()));
                    }
                } else {
                    assert(q < k);
                }
            }
        }
        if !dup {
            sel.push(x.copy());
            proof {
                assert(views(sel@) =~= before.push(xv));
                assert(!before.contains(xv)) by {
                    if before.contains(xv) {
                        let q = choose|q: int| 0 <= q < before.len() && before[q] == xv;
                        assert(before[q] == sel@[q].view());
                    }
                }
                assert forall|y: RealisationView| #[trigger] views(sel@).contains(y) <==> (before.contains(y) || y == xv) by {
                    if y == xv {
                        assert(views(sel@)[before.len() as int] == xv);
                    }
                    if before.contains(y) {
                        let a = choose|a: int| 0 <= a < before.len() && before[a] == y;
                        assert(views(sel@)[a] == y);
                    }
                    if views(sel@).contains(y) && y != xv {
                        let a = choose|a: int| 0 <= a < views(sel@).len() && views(sel@)[a] == y;
                        assert(before[a] == y);
                    }
                }
            }
        } else {
            proof {
                assert(before[k as int] == xv);
            }
        }
        proof {
            assert forall|a: int, b: int|
                0 <= a < i + 1 && 0 <= b < i + 1 implies !#[trigger] conflicting(
                    inputs@[a].view(),
                    inputs@[b].view(),
                ) by {
                if a == i && b == i {
                } else if a == i {
                    assert(inputs@[a].view() == xv);
                } else if b == i {
                    assert(inputs@[b].view() == xv);
                }
            }
        }
        i = i + 1;
    }
    assert(inputs@.subrange(0, i as int) =~= inputs@);
    Ok(sel)
}

/// The rewrites from each input's class to its path.
pub fn mappings(inputs: &Vec<Realisation>) -> (r: Vec<(StorePath, StorePath)>)
    ensures
        r@.len() == inputs@.len(),
        forall|i: int|
            0 <= i < r@.len() ==> (#[trigger] r@[i]).0.path@ == inputs@[i].eq_class.path@
                && r@[i].1.path@ == inputs@[i].path.path@,
{
    let mut r: Vec<(StorePath, StorePath)> = Vec::new();
    let mut i: usize = 0;
    while i < inputs.len()
        invariant
            i <= inputs@.len(),
            r@.len() == i,
            forall|q: int|
                0 <= q < i ==> (#[trigger] r@[q]).0.path@ == inputs@[q].eq_class.path@
                    && r@[q].1.path@ == inputs@[q].path.path@,
        decreases inputs@.len() - i,
    {
        r.push((inputs[i].eq_class.copy(), inputs[i].path.copy()));
        i = i + 1;
    }
    r
}

/// Rewrites the classes of the inputs to their paths in the builder, the
/// arguments and the values of the environment of a derivation.
pub fn rewrite_drv(drv: &mut StoreDrv, rw: &Vec<(StorePath, StorePath)>)
    requires
        rewrites_wf(rw@, None),
    ensures
        rewritten(old(drv).builder@, final(drv).builder@, rw@),
        final(drv).args@.len() == old(drv).args@.len(),
        forall|i: int|
            0 <= i < old(drv).args@.len() ==> rewritten(
                #[trigger] old(drv).args@[i]@,
                final(drv).args@[i]@,
                rw@,
            ),
        final(drv).envs@.len() == old(drv).envs@.len(),
        forall|i: int|
            0 <= i < old(drv).envs@.len() ==> final(drv).envs@[i].0@ == (#[trigger] old(
                drv,
            ).envs@[i]).0@ && rewritten(old(drv).envs@[i].1@, final(drv).envs@[i].1@, rw@),
        final(drv).eq_classes == old(drv).eq_classes,
        final(drv).input_drvs == old(drv).input_drvs,
        final(drv).input_srcs == old(drv).input_srcs,
        final(drv).fixed_hash == old(drv).fixed_hash,
        final(drv).system == old(drv).system,
        old(drv).wf() ==> final(drv).wf(),
{
    rewrite_str(&mut drv.builder, rw);
    let mut args: Vec<String> = Vec::new();
    let mut i: usize = 0;
    while i < drv.args.len()
        invariant
            i <= drv.args@.len(),
            drv.args == old(drv).args,
            rewrites_wf(rw@, None),
            args@.len() == i,
            forall|q: int| 0 <= q < i ==> rewritten(#[trigger] drv.args@[q]@, args@[q]@, rw@),
        decreases drv.args@.len() - i,
    {
        let mut a = drv.args[i].clone();
        rewrite_str(&mut a, rw);
        args.push(a);
        i = i + 1;
    }
    let mut envs: Vec<(String, String)> = Vec::new();
    let mut i: usize = 0;
    while i < drv.envs.len()
        invariant
            i <= drv.envs@.len(),
            drv.envs == old(drv).envs,
            rewrites_wf(rw@, None),
            envs@.len() == i,
            forall|q: int|
                0 <= q < i ==> (#[trigger] envs@[q]).0@ == drv.envs@[q].0@ && rewritten(
                    drv.envs@[q].1@,
                    envs@[q].1@,
                    rw@,
                ),
        decreases drv.envs@.len() - i,
    {
        let k = drv.envs[i].0.clone();
        let mut v = drv.envs[i].1.clone();
        rewrite_str(&mut v, rw);
        envs.push((k, v));
        i = i + 1;
    }
    let ghost old_envs = drv.envs@;
    drv.args = args;
    drv.envs = envs;
    proof {
        assert forall|a: int, b: int| 0 <= a < b < drv.envs@.len() && crate::store::unique_keys(old_envs)
            implies (#[trigger] drv.envs@[a]).0@ != (#[trigger] drv.envs@[b]).0@ by {
            assert(old_envs[a].0@ != old_envs[b].0@);
        }
    }
}

/// Checks the output of a fixed-output derivation: its hash must be the
/// declared one.
pub fn check_fixed_output(expected: &crate::hash::Hash, got: &crate::hash::Hash) -> (r: Result<
    (),
    StoreError,
>)
    ensures
        r is Ok <==> (expected.spec_algo() == got.spec_algo() && expected.digest() == got.digest()),
        r is Err ==> (r->Err_0 matches StoreError::HashMismatch { expected: e, got: g } && e.digest()
            == expected.digest() && g.digest() == got.digest() && e.spec_algo()
            == expected.spec_algo() && g.spec_algo() == got.spec_algo()),
{
    if expected.same(got) {
        Ok(())
    } else {
        Err(StoreError::HashMismatch { expected: expected.copy(), got: got.copy() })
    }
}

/// `r` pairs each output with the class itself for a fixed-output
/// derivation, and otherwise with the path of `draws[i]` and the class's name.
pub open spec fn outputs_from(
    drv: StoreDrv,
    draws: Seq<crate::hash::Hash>,
    r: Seq<(String, StorePath)>,
) -> bool {
    &&& r.len() == drv.eq_classes@.len()
    &&& draws.len() == drv.eq_classes@.len()
    &&& forall|i: int|
        0 <= i < r.len() ==> (#[trigger] r[i]).0@ == drv.eq_classes@[i].0@ && (if drv.fixed_hash is Some {
            r[i].1.path@ == drv.eq_classes@[i].1.path@
        } else {
            r[i].1.wf() && r[i].1.path@ == path_text(
                draws[i].digest(),
                drv.eq_classes@[i].1.path@.subrange(
                    HASH_PART_LEN + 1,
                    drv.eq_classes@[i].1.path@.len() as int,
                ),
            )
        })
}

/// The paths the builder writes its outputs to, given one drawn SHA-512
/// hash per output: the classes themselves for a fixed-output derivation,
/// whose path is known in advance, and otherwise the path made of the drawn
/// hash and the class's name.
pub fn output_paths_from(drv: &StoreDrv, draws: &Vec<crate::hash::Hash>) -> (r: Vec<(String, StorePath)>)
    requires
        draws@.len() == drv.eq_classes@.len(),
        forall|i: int|
            0 <= i < draws@.len() ==> (#[trigger] draws@[i]).wf() && draws@[i].spec_algo()
                == HashAlgo::Sha512,
        forall|i: int|
            0 <= i < drv.eq_classes@.len() ==> (#[trigger] drv.eq_classes@[i]).1.path@.len()
                > HASH_PART_LEN,
    ensures
        r@.len() == drv.eq_classes@.len(),
        forall|i: int|
            0 <= i < r@.len() ==> (#[trigger] r@[i]).0@ == drv.eq_classes@[i].0@ && (if drv.fixed_hash is Some {
                r@[i].1.path@ == drv.eq_classes@[i].1.path@
            } else {
                r@[i].1.wf() && r@[i].1.path@ == path_text(
                    draws@[i].digest(),
                    drv.eq_classes@[i].1.path@.subrange(
                        HASH_PART_LEN + 1,
                        drv.eq_classes@[i].1.path@.len() as int,
                    ),
                )
            }),
{
    let fixed = drv.fixed_hash.is_some();
    let mut r: Vec<(String, StorePath)> = Vec::new();
    let mut i: usize = 0;
    while i < drv.eq_classes.len()
        invariant
            i <= drv.eq_classes@.len(),
            fixed == drv.fixed_hash is Some,
            draws@.len() == drv.eq_classes@.len(),
            forall|q: int|
                0 <= q < draws@.len() ==> (#[trigger] draws@[q]).wf() && draws@[q].spec_algo()
                    == HashAlgo::Sha512,
            forall|q: int|
                0 <= q < drv.eq_classes@.len() ==> (#[trigger] drv.eq_classes@[q]).1.path@.len()
                    > HASH_PART_LEN,
            r@.len() == i,
            forall|q: int|
                0 <= q < i ==> (#[trigger] r@[q]).0@ == drv.eq_classes@[q].0@ && (if fixed {
                    r@[q].1.path@ == drv.eq_classes@[q].1.path@
                } else {
                    r@[q].1.wf() && r@[q].1.path@ == path_text(
                        draws@[q].digest(),
                        drv.eq_classes@[q].1.path@.subrange(
                            HASH_PART_LEN + 1,
                            drv.eq_classes@[q].1.path@.len() as int,
                        ),
                    )
                }),
        decreases drv.eq_classes@.len() - i,
    {
        let (out, eq_class) = &drv.eq_classes[i];
        let p = if fixed {
            eq_class.copy()
        } else {
            StorePath::new(&draws[i], eq_class.name_part())
        };
        r.push((out.clone(), p));
        i = i + 1;
    }
    r
}

/// The paths the builder writes its outputs to: `output_paths_from` with a
/// fresh random hash drawn for each output.
pub fn output_paths(drv: &StoreDrv) -> (r: Vec<(String, StorePath)>)
    requires
        forall|i: int|
            0 <= i < drv.eq_classes@.len() ==> (#[trigger] drv.eq_classes@[i]).1.path@.len()
                > HASH_PART_LEN,
    ensures
        exists|draws: Seq<crate::hash::Hash>| #[trigger] outputs_from(*drv, draws, r@),
        r@.len() == drv.eq_classes@.len(),
{
    let mut draws: Vec<crate::hash::Hash> = Vec::new();
    while draws.len() < drv.eq_classes.len()
        invariant
            draws@.len() <= drv.eq_classes@.len(),
            forall|q: int|
                0 <= q < draws@.len() ==> (#[trigger] draws@[q]).wf() && draws@[q].spec_algo()
                    == HashAlgo::Sha512,
        decreases drv.eq_classes@.len() - draws@.len(),
    {
        draws.push(random_hash());
    }
    let r = output_paths_from(drv, &draws);
    assert(outputs_from(*drv, draws@, r@));
    r
}

/// The inputs whose path is among the references found in an output.
pub fn eq_refs_of(inputs: &Vec<Realisation>, refs: &Vec<StorePath>) -> (r: Vec<Realisation>)
    ensures
        forall|x: RealisationView|
            #[trigger] views(r@).contains(x) <==> (views(inputs@).contains(x) && exists|j: int|
                0 <= j < refs@.len() && refs@[j].path@ == x.2),
{
    let mut r: Vec<Realisation> = Vec::new();
    let mut i: usize = 0;
    while i < inputs.len()
        invariant
            i <= inputs@.len(),
            forall|x: RealisationView|
                #[trigger] views(r@).contains(x) <==> (views(inputs@.subrange(0, i as int)).contains(x)
                    && exists|j: int| 0 <= j < refs@.len() && refs@[j].path@ == x.2),
        decreases inputs@.len() - i,
    {
        let x = &inputs[i];
        let ghost xv = x.view();
        let ghost before = views(r@);
        let mut found = false;
        let mut j: usize = 0;
        while j < refs.len() && !found
            invariant
                j <= refs@.len(),
                found ==> j < refs@.len() && refs@[j as int].path@ == xv.2,
                !found ==> forall|q: int| 0 <= q < j ==> refs@[q].path@ != xv.2,
                xv == x.view(),
            decreases refs@.len() - j + (if found { 0int } else { 1int }),
        {
            if refs[j].path == x.path.path {
                found = true;
            } else {
                j = j + 1;
            }
        }
        if found {
            r.push(x.copy());
        }
        proof {
            let prev_in = views(inputs@.subrange(0, i as int));
            let next_in = views(inputs@.subrange(0, i + 1));
            assert(next_in =~= prev_in.push(xv));
            assert forall|y: RealisationView| #[trigger] views(r@).contains(y) <==> (next_in.contains(y)
                && exists|j: int| 0 <= j < refs@.len() && refs@[j].path@ == y.2) by {
                if next_in.contains(y) {
                    let a = choose|a: int| 0 <= a < next_in.len() && next_in[a] == y;
                    if a < i {
                        assert(prev_in[a] == y);
                    }
                }
                if prev_in.contains(y) {
                    let a = choose|a: int| 0 <= a < prev_in.len() && prev_in[a] == y;
                    assert(next_in[a] == y);
                }
                if y == xv {
                    assert(next_in[i as int] == y);
                }
                if found {
                    assert(views(r@) =~= before.push(xv));
                    if before.contains(y) {
                        let a = choose|a: int| 0 <= a < before.len() && before[a] == y;
                        assert(views(r@)[a] == y);
                    }
                    if views(r@).contains(y) && y != xv {
                        let a = choose|a: int| 0 <= a < views(r@).len() && views(r@)[a] == y;
                        assert(before[a] == y);
                    }
                    if y == xv {
                        assert(views(r@)[before.len() as int] == y);
                    }
                }
            }
        }
        i = i + 1;
    }
    assert(inputs@.subrange(0, i as int) =~= inputs@);
    r
}

/// Directory the builder works in, inside its sandbox.
pub const SANDBOX_BUILD_DIR: &'static str = "/build";

pub open spec fn pair_view(p: (String, String)) -> (Seq<char>, Seq<char>) {
    (p.0@, p.1@)
}

pub open spec fn pairs_view(s: Seq<(String, String)>) -> Seq<(Seq<char>, Seq<char>)> {
    s.map_values(|p: (String, String)| pair_view(p))
}

fn push_pair(v: &mut Vec<(String, String)>, k: &str, val: &str)
    ensures
        pairs_view(final(v)@) == pairs_view(old(v)@).push((k@, val@)),
{
    let ghost before = v@;
    v.push((k.to_owned(), val.to_owned()));
    assert(pairs_view(v@) =~= pairs_view(before).push((k@, val@)));
}

/// The environment of a builder, as bindings in order, a later binding of a
/// name overriding an earlier one: `PATH`, `HOME` and `OXIDE_STORE`, then
/// the derivation's own variables, then the temporary directories, all
/// `/build`, and `TERM`.
pub fn builder_envs(store_dir: &str, drv_envs: &Vec<(String, String)>) -> (r: Vec<(String, String)>)
    ensures
        pairs_view(r@) == seq![
            ("PATH"@, "/path-not-set"@),
            ("HOME"@, "/homeless-shelter"@),
            ("OXIDE_STORE"@, store_dir@),
        ] + pairs_view(drv_envs@) + seq![
            ("TMPDIR"@, "/build"@),
            ("TEMPDIR"@, "/build"@),
            ("TMP"@, "/build"@),
            ("TEMP"@, "/build"@),
            ("TERM"@, "xterm-256color"@),
        ],
{
    let mut r: Vec<(String, String)> = Vec::new();
    push_pair(&mut r, "PATH", "/path-not-set");
    push_pair(&mut r, "HOME", "/homeless-shelter");
    push_pair(&mut r, "OXIDE_STORE", store_dir);
    let ghost head = pairs_view(r@);
    let mut i: usize = 0;
    while i < drv_envs.len()
        invariant
            i <= drv_envs@.len(),
            pairs_view(r@) == head + pairs_view(drv_envs@.subrange(0, i as int)),
        decreases drv_envs@.len() - i,
    {
        let ghost before = r@;
        r.push((drv_envs[i].0.clone(), drv_envs[i].1.clone()));
        assert(pairs_view(drv_envs@.subrange(0, i + 1)) =~= pairs_view(drv_envs@.subrange(0, i as int)).push(pair_view(drv_envs@[i as int])));
        assert(pairs_view(r@) =~= pairs_view(before).push(pair_view(drv_envs@[i as int])));
        i = i + 1;
    }
    assert(drv_envs@.subrange(0, i as int) =~= drv_envs@);
    push_pair(&mut r, "TMPDIR", SANDBOX_BUILD_DIR);
    push_pair(&mut r, "TEMPDIR", SANDBOX_BUILD_DIR);
    push_pair(&mut r, "TMP", SANDBOX_BUILD_DIR);
    push_pair(&mut r, "TEMP", SANDBOX_BUILD_DIR);
    push_pair(&mut r, "TERM", "xterm-256color");
    assert(pairs_view(r@) =~= seq![
            ("PATH"@, "/path-not-set"@),
            ("HOME"@, "/homeless-shelter"@),
            ("OXIDE_STORE"@, store_dir@),
        ] + pairs_view(drv_envs@) + seq![
            ("TMPDIR"@, "/build"@),
            ("TEMPDIR"@, "/build"@),
            ("TMP"@, "/build"@),
            ("TEMP"@, "/build"@),
            ("TERM"@, "xterm-256color"@),
        ]);
    r
}

/// What an output is scanned for and sealed with: the candidates for its
/// references (the paths of the inputs, the sources and its own temporary
/// path) and its self hash, none for a fixed-output derivation.
pub fn output_refs(inputs: &Vec<Realisation>, input_srcs: &Vec<StorePath>, tmp: &StorePath, fixed: bool) -> (r: (
    Vec<StorePath>,
    Option<StorePath>,
))
    ensures
        r.0@.len() == inputs@.len() + input_srcs@.len() + 1,
        forall|i: int| 0 <= i < inputs@.len() ==> (#[trigger] r.0@[i]).path@ == inputs@[i].path.path@,
        forall|i: int|
            0 <= i < input_srcs@.len() ==> (#[trigger] r.0@[inputs@.len() + i]).path@
                == input_srcs@[i].path@,
        r.0@[inputs@.len() + input_srcs@.len() as int].path@ == tmp.path@,
        fixed ==> r.1 is None,
        !fixed ==> r.1 is Some && r.1->0.path@ == tmp.path@,
{
    let mut c: Vec<StorePath> = Vec::new();
    let mut i: usize = 0;
    while i < inputs.len()
        invariant
            i <= inputs@.len(),
            c@.len() == i,
            forall|q: int| 0 <= q < i ==> (#[trigger] c@[q]).path@ == inputs@[q].path.path@,
        decreases inputs@.len() - i,
    {
        c.push(inputs[i].path.copy());
        i = i + 1;
    }
    let mut k: usize = 0;
    while k < input_srcs.len()
        invariant
            k <= input_srcs@.len(),
            c@.len() == inputs@.len() + k,
            forall|q: int| 0 <= q < inputs@.len() ==> (#[trigger] c@[q]).path@ == inputs@[q].path.path@,
            forall|q: int|
                0 <= q < k ==> (#[trigger] c@[inputs@.len() + q]).path@ == input_srcs@[q].path@,
        decreases input_srcs@.len() - k,
    {
        c.push(input_srcs[k].copy());
        k = k + 1;
    }
    c.push(tmp.copy());
    let self_hash = if fixed {
        None
    } else {
        Some(tmp.copy())
    };
    (c, self_hash)
}

} // verus!

//! Rewriting hash parts inside strings and store paths.
use crate::hashmod::{rewrite_target_bytes, rewrite_targets, rewrites_wf};
use crate::scan::{is_hash_byte, is_valid_hash_char, reports_matches, search, HASH_PART_LEN};
use crate::store_path::{push_char, StorePath};
use vstd::prelude::*;

verus! {

/// The byte a character stands for when a string is scanned: its code if it
/// may belong to a hash part, zero (never part of one) otherwise.
pub open spec fn char_class(c: char) -> u8 {
    if (c as u32) < 256 && is_hash_byte(c as u8) {
        c as u8
    } else {
        0
    }
}

pub open spec fn char_classes(s: Seq<char>) -> Seq<u8> {
    s.map_values(|c: char| char_class(c))
}

/// `s` with `w` written over it at offset `o`.
pub open spec fn overwrite_chars(s: Seq<char>, o: int, w: Seq<char>) -> Seq<char> {
    s.subrange(0, o) + w + s.subrange(o + w.len(), s.len() as int)
}

/// The hash parts of the values of `rw`, as characters.
pub open spec fn replacement_chars(rw: Seq<(StorePath, StorePath)>) -> Seq<Seq<char>> {
    rw.map_values(|p: (StorePath, StorePath)| p.1.path@.subrange(0, HASH_PART_LEN as int))
}

/// `s` after each match, in order, is overwritten with the replacement of
/// its target.
pub open spec fn apply_char_matches(
    s: Seq<char>,
    ms: Seq<(usize, usize)>,
    repl: Seq<Seq<char>>,
) -> Seq<char>
    decreases ms.len(),
{
    if ms.len() == 0 {
        s
    } else {
        let prev = apply_char_matches(s, ms.drop_last(), repl);
        let m = ms.last();
        if m.1 < repl.len() {
            overwrite_chars(prev, m.0 as int, repl[m.1 as int])
        } else {
            prev
        }
    }
}

fn chars_of(s: &str) -> (r: Vec<char>)
    ensures
        r@ == s@,
{
    let n = s.unicode_len();
    let mut r: Vec<char> = Vec::new();
    let mut k: usize = 0;
    while k < n
        invariant
            n == s@.len(),
            k <= n,
            r@ == s@.subrange(0, k as int),
        decreases n - k,
    {
        r.push(s.get_char(k));
        k = k + 1;
        assert(r@ =~= s@.subrange(0, k as int));
    }
    assert(s@.subrange(0, n as int) =~= s@);
    r
}

fn classes_of(cs: &Vec<char>) -> (r: Vec<u8>)
    ensures
        r@ == char_classes(cs@),
{
    let mut r: Vec<u8> = Vec::new();
    let mut k: usize = 0;
    while k < cs.len()
        invariant
            k <= cs@.len(),
            r@.len() == k,
            forall|q: int| 0 <= q < k ==> r@[q] == char_class(#[trigger] cs@[q]),
        decreases cs@.len() - k,
    {
        let c = cs[k];
        if is_valid_hash_char(c) {
            r.push(c as u8);
        } else {
            r.push(0u8);
        }
        k = k + 1;
    }
    assert(r@ =~= char_classes(cs@));
    r
}

/// Rewrites, in place, every hash part in `s` that is the hash part of a
/// key of `rewrites` to the hash part of its value; the length is kept.
pub fn rewrite_str(s: &mut String, rewrites: &Vec<(StorePath, StorePath)>)
    requires
        rewrites_wf(rewrites@, None),
    ensures
        exists|ms: Seq<(usize, usize)>|
            {
                &&& reports_matches(
                    char_classes(old(s)@),
                    rewrite_targets(rewrites@, None),
                    0,
                    old(s)@.len() as int,
                    ms,
                )
                &&& final(s)@ == apply_char_matches(old(s)@, ms, replacement_chars(rewrites@))
            },
{
    let ghost orig = s@;
    let mut cs = chars_of(s.as_str());
    let classes = classes_of(&cs);
    let targets = rewrite_target_bytes(rewrites, &None);
    let ms = search(classes.as_slice(), &targets);
    let ghost rp = replacement_chars(rewrites@);
    let mut j: usize = 0;
    while j < ms.len()
        invariant
            j <= ms@.len(),
            rewrites_wf(rewrites@, None),
            rp == replacement_chars(rewrites@),
            reports_matches(
                char_classes(orig),
                rewrite_targets(rewrites@, None),
                0,
                orig.len() as int,
                ms@,
            ),
            classes@ == char_classes(orig),
            cs@ == apply_char_matches(orig, ms@.subrange(0, j as int), rp),
            cs@.len() == orig.len(),
        decreases ms@.len() - j,
    {
        let (o, k) = ms[j];
        assert(ms@.subrange(0, j + 1).drop_last() =~= ms@.subrange(0, j as int));
        assert(ms@.subrange(0, j + 1).last() == ms@[j as int]);
        assert(o + HASH_PART_LEN <= classes@.len());
        assert(rewrite_targets(rewrites@, None).len() == rewrites@.len());
        assert(k < rewrites@.len());
        let value = &rewrites[k].1;
        let src = value.as_str();
        let ghost start = cs@;
        let n = cs.len();
        let mut q: usize = 0;
        while q < HASH_PART_LEN
            invariant
                q <= HASH_PART_LEN,
                n == start.len(),
                o + HASH_PART_LEN <= start.len(),
                cs@.len() == start.len(),
                src@ == value.path@,
                value.path@.len() >= HASH_PART_LEN,
                forall|x: int| o <= x < o + q ==> #[trigger] cs@[x] == src@[x - o],
                forall|x: int| 0 <= x < start.len() && !(o <= x < o + q) ==> cs@[x] == start[x],
            decreases HASH_PART_LEN - q,
        {
            let c = src.get_char(q);
            cs.set(o + q, c);
            q = q + 1;
        }
        assert(rp[k as int] == value.path@.subrange(0, HASH_PART_LEN as int));
        assert(cs@ =~= overwrite_chars(start, o as int, rp[k as int]));
        j = j + 1;
    }
    assert(ms@.subrange(0, ms@.len() as int) =~= ms@);
    let mut out = String::new();
    let mut k: usize = 0;
    while k < cs.len()
        invariant
            k <= cs@.len(),
            out@ == cs@.subrange(0, k as int),
        decreases cs@.len() - k,
    {
        push_char(&mut out, cs[k]);
        k = k + 1;
        assert(out@ =~= cs@.subrange(0, k as int));
    }
    assert(cs@.subrange(0, cs@.len() as int) =~= cs@);
    *s = out;
}

/// The first key of `rw` whose hash part is that of `p`.
pub open spec fn first_key(rw: Seq<(StorePath, StorePath)>, p: Seq<char>, k: int) -> bool {
    &&& 0 <= k < rw.len()
    &&& rw[k].0.path@.subrange(0, HASH_PART_LEN as int) == p.subrange(0, HASH_PART_LEN as int)
    &&& forall|q: int|
        0 <= q < k ==> rw[q].0.path@.subrange(0, HASH_PART_LEN as int) != p.subrange(
            0,
            HASH_PART_LEN as int,
        )
}

/// Replaces the hash part of `path` with that of the value of the first key
/// of `rewrites` that shares it; without such a key the path is unchanged.
pub fn rewrite_store_path(path: &mut StorePath, rewrites: &Vec<(StorePath, StorePath)>)
    requires
        rewrites_wf(rewrites@, None),
        old(path).path@.len() >= HASH_PART_LEN,
    ensures
        forall|k: int|
            #[trigger] first_key(rewrites@, old(path).path@, k) ==> final(path).path@
                == rewrites@[k].1.path@.subrange(0, HASH_PART_LEN as int) + old(
                path,
            ).path@.subrange(HASH_PART_LEN as int, old(path).path@.len() as int),
        (forall|k: int| !(#[trigger] first_key(rewrites@, old(path).path@, k)))
            ==> final(path).path@ == old(path).path@,
{
    let ghost orig = path.path@;
    let mut k: usize = 0;
    while k < rewrites.len()
        invariant
            k <= rewrites@.len(),
            rewrites_wf(rewrites@, None),
            path.path@ == orig,
            orig == old(path).path@,
            orig.len() >= HASH_PART_LEN,
            forall|q: int|
                0 <= q < k ==> rewrites@[q].0.path@.subrange(0, HASH_PART_LEN as int)
                    != orig.subrange(0, HASH_PART_LEN as int),
        decreases rewrites@.len() - k,
    {
        if rewrites[k].0.same_hash_part(path) {
            assert(first_key(rewrites@, orig, k as int));
            assert forall|q: int| #[trigger] first_key(rewrites@, orig, q) implies q == k by {
                if q < k {
                } else if q > k {
                    assert(rewrites@[k as int].0.path@.subrange(0, HASH_PART_LEN as int)
                        == orig.subrange(0, HASH_PART_LEN as int));
                }
            }
            path.rewrite_hash_part(&rewrites[k].1);
            assert(orig == old(path).path@);
            assert(path.path@ == rewrites@[k as int].1.path@.subrange(0, HASH_PART_LEN as int)
                + orig.subrange(HASH_PART_LEN as int, orig.len() as int));
            return;
        }
        k = k + 1;
    }
}

/// The matches' windows lie in a buffer of length `n`, one after another
/// without overlapping, and each names a replacement of `repl`.
pub open spec fn disjoint_windows(ms: Seq<(usize, usize)>, n: int, n_repl: int) -> bool {
    &&& forall|j: int| 0 <= j < ms.len() ==> (#[trigger] ms[j]).0 + HASH_PART_LEN <= n && ms[j].1 < n_repl
    &&& forall|j: int| 0 < j < ms.len() ==> (#[trigger] ms[j]).0 >= ms[j - 1].0 + HASH_PART_LEN
}

pub(crate) proof fn lemma_windows_ordered(ms: Seq<(usize, usize)>, a: int, b: int)
    requires
        0 <= a < b < ms.len(),
        forall|j: int| 0 < j < ms.len() ==> (#[trigger] ms[j]).0 >= ms[j - 1].0 + HASH_PART_LEN,
    ensures
        ms[a].0 + HASH_PART_LEN <= ms[b].0,
    decreases b - a,
{
    assert(ms[b].0 >= ms[b - 1].0 + HASH_PART_LEN);
    if a < b - 1 {
        lemma_windows_ordered(ms, a, b - 1);
    }
}

/// With windows that do not overlap, each window of a match holds the
/// replacement of its target and every other character is unchanged.
pub proof fn lemma_rewrite_windows(s: Seq<char>, ms: Seq<(usize, usize)>, repl: Seq<Seq<char>>)
    requires
        disjoint_windows(ms, s.len() as int, repl.len() as int),
        forall|k: int| 0 <= k < repl.len() ==> (#[trigger] repl[k]).len() == HASH_PART_LEN,
    ensures
        apply_char_matches(s, ms, repl).len() == s.len(),
        forall|j: int, x: int|
            #![trigger ms[j], apply_char_matches(s, ms, repl)[x]]
            0 <= j < ms.len() && ms[j].0 <= x < ms[j].0 + HASH_PART_LEN ==> apply_char_matches(
                s,
                ms,
                repl,
            )[x] == repl[ms[j].1 as int][x - ms[j].0],
        forall|x: int|
            0 <= x < s.len() && (forall|j: int|
                0 <= j < ms.len() ==> !(ms[j].0 <= x < (#[trigger] ms[j]).0 + HASH_PART_LEN))
                ==> #[trigger] apply_char_matches(s, ms, repl)[x] == s[x],
    decreases ms.len(),
{
    if ms.len() > 0 {
        let prev = ms.drop_last();
        assert forall|j: int| 0 < j < prev.len() implies (#[trigger] prev[j]).0 >= prev[j - 1].0
            + HASH_PART_LEN by {
            assert(prev[j] == ms[j] && prev[j - 1] == ms[j - 1]);
        }
        assert forall|j: int| 0 <= j < prev.len() implies (#[trigger] prev[j]).0 + HASH_PART_LEN
            <= s.len() && prev[j].1 < repl.len() by {
            assert(prev[j] == ms[j]);
        }
        lemma_rewrite_windows(s, prev, repl);
        let m = ms.last();
        assert(ms[ms.len() - 1] == m);
        // every earlier window ends before the last one starts
        assert forall|j: int| 0 <= j < prev.len() implies (#[trigger] prev[j]).0 + HASH_PART_LEN <= m.0 by {
            lemma_windows_ordered(ms, j, ms.len() - 1);
            assert(prev[j] == ms[j]);
        }
        assert forall|j: int, x: int|
            #![trigger ms[j], apply_char_matches(s, ms, repl)[x]]
            0 <= j < ms.len() && ms[j].0 <= x < ms[j].0 + HASH_PART_LEN implies apply_char_matches(
                s,
                ms,
                repl,
            )[x] == repl[ms[j].1 as int][x - ms[j].0] by {
            if j < ms.len() - 1 {
                assert(prev[j] == ms[j]);
            }
        }
        assert forall|x: int|
            0 <= x < s.len() && (forall|j: int|
                0 <= j < ms.len() ==> !(ms[j].0 <= x < (#[trigger] ms[j]).0 + HASH_PART_LEN))
                implies #[trigger] apply_char_matches(s, ms, repl)[x] == s[x] by {
            assert forall|j: int| 0 <= j < prev.len() implies !(prev[j].0 <= x < (#[trigger] prev[j]).0
                + HASH_PART_LEN) by {
                assert(prev[j] == ms[j]);
            }
        }
    }
}

} // verus!

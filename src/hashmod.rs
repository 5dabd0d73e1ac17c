//! Modulo hashing: the hash of a file tree that stays the same under
//! self-reference. In a regular file the object's own hash part is zeroed
//! before hashing and its offsets are mixed in after the content; other
//! known hash parts are rewritten on the way.
use crate::hash::{digest_of, hash_bytes, HashAlgo};
use crate::scan::{bytes_view, reports_matches, scan_chunks, HASH_PART_LEN};
use crate::rewrite::{disjoint_windows, lemma_windows_ordered};
use crate::store_path::{hash_part_bytes, StorePath};
use vstd::prelude::*;

verus! {

/// Permission code of a directory in a directory hash.
pub const DIR_PERMISSION: u64 = 100755;

/// Permission code of a regular file.
pub const FILE_PERMISSION: u64 = 100644;

/// Permission code of a file with an execute bit.
pub const EXEC_FILE_PERMISSION: u64 = 100644;

/// Permission code of a symbolic link.
pub const SYMLINK_PERMISSION: u64 = 100644;

/// The kinds of entries of a file tree.
#[derive(Clone, Copy, Debug, PartialEq, Eq, Structural)]
pub enum FileKind {
    Directory,
    File,
    Executable,
    Symlink,
    Unknown,
}

pub open spec fn permission_of(k: FileKind) -> u64 {
    match k {
        FileKind::Directory => DIR_PERMISSION,
        FileKind::File => FILE_PERMISSION,
        FileKind::Executable => EXEC_FILE_PERMISSION,
        FileKind::Symlink => SYMLINK_PERMISSION,
        FileKind::Unknown => 0,
    }
}

/// The permission code that a kind of entry contributes to a hash.
pub fn file_type_to_permission(kind: FileKind) -> (r: u64)
    ensures
        r == permission_of(kind),
{
    match kind {
        FileKind::Directory => DIR_PERMISSION,
        FileKind::File => FILE_PERMISSION,
        FileKind::Executable => EXEC_FILE_PERMISSION,
        FileKind::Symlink => SYMLINK_PERMISSION,
        FileKind::Unknown => 0,
    }
}

/// Big-endian bytes of a 64-bit integer.
pub open spec fn be64(x: u64) -> Seq<u8> {
    seq![
        (x >> 56u64) as u8,
        (x >> 48u64) as u8,
        (x >> 40u64) as u8,
        (x >> 32u64) as u8,
        (x >> 24u64) as u8,
        (x >> 16u64) as u8,
        (x >> 8u64) as u8,
        x as u8,
    ]
}

/// The framing marker: eight bytes 0xFF.
pub open spec fn marker() -> Seq<u8> {
    Seq::new(8, |_i: int| 255u8)
}

pub open spec fn zero_hash_part() -> Seq<u8> {
    Seq::new(HASH_PART_LEN as nat, |_i: int| 0u8)
}

/// `s` with `w` written over it at offset `o`.
pub open spec fn overwrite(s: Seq<u8>, o: int, w: Seq<u8>) -> Seq<u8> {
    s.subrange(0, o) + w + s.subrange(o + w.len(), s.len() as int)
}

/// The hash parts searched for in a file: those of the keys of `rw`, then
/// the self hash, if any.
pub open spec fn rewrite_targets(rw: Seq<(StorePath, StorePath)>, sh: Option<StorePath>) -> Seq<
    Seq<u8>,
> {
    rw.map_values(|p: (StorePath, StorePath)| hash_part_bytes(p.0.path@)) + match sh {
        Some(s) => seq![hash_part_bytes(s.path@)],
        None => Seq::empty(),
    }
}

/// The replacement hash parts, in the order of the keys.
pub open spec fn replacements(rw: Seq<(StorePath, StorePath)>) -> Seq<Seq<u8>> {
    rw.map_values(|p: (StorePath, StorePath)| hash_part_bytes(p.1.path@))
}

/// `b` after each match, in order, is overwritten: a match of target `k <
/// repl.len()` with `repl[k]`, one of a later target (the self hash) with
/// zeros when `zero_self` holds, and left alone otherwise.
pub open spec fn apply_matches(
    b: Seq<u8>,
    ms: Seq<(usize, usize)>,
    repl: Seq<Seq<u8>>,
    zero_self: bool,
) -> Seq<u8>
    decreases ms.len(),
{
    if ms.len() == 0 {
        b
    } else {
        let prev = apply_matches(b, ms.drop_last(), repl, zero_self);
        let m = ms.last();
        if m.1 < repl.len() {
            overwrite(prev, m.0 as int, repl[m.1 as int])
        } else if zero_self {
            overwrite(prev, m.0 as int, zero_hash_part())
        } else {
            prev
        }
    }
}

/// For each self-hash match, in order: a marker and its offset.
pub open spec fn modulo_suffix(ms: Seq<(usize, usize)>, n_rewrites: nat) -> Seq<u8>
    decreases ms.len(),
{
    if ms.len() == 0 {
        Seq::empty()
    } else {
        let m = ms.last();
        modulo_suffix(ms.drop_last(), n_rewrites) + if m.1 >= n_rewrites {
            marker() + be64(m.0 as u64)
        } else {
            Seq::empty()
        }
    }
}

/// The offsets of the self-hash matches, in order.
pub open spec fn self_offsets(ms: Seq<(usize, usize)>, n_rewrites: nat) -> Seq<u64>
    decreases ms.len(),
{
    if ms.len() == 0 {
        Seq::empty()
    } else {
        let m = ms.last();
        self_offsets(ms.drop_last(), n_rewrites) + if m.1 >= n_rewrites {
            seq![m.0 as u64]
        } else {
            Seq::empty()
        }
    }
}

/// What is hashed for a file whose matches are `ms`.
pub open spec fn file_message(
    b: Seq<u8>,
    ms: Seq<(usize, usize)>,
    rw: Seq<(StorePath, StorePath)>,
) -> Seq<u8> {
    apply_matches(b, ms, replacements(rw), true) + marker() + modulo_suffix(ms, rw.len())
}

/// The paths of a rewrite table and a self hash all have a hash part.
pub open spec fn rewrites_wf(rw: Seq<(StorePath, StorePath)>, sh: Option<StorePath>) -> bool {
    &&& forall|k: int|
        0 <= k < rw.len() ==> (#[trigger] rw[k]).0.path@.len() >= HASH_PART_LEN
            && rw[k].1.path@.len() >= HASH_PART_LEN
    &&& match sh {
        Some(s) => s.path@.len() >= HASH_PART_LEN,
        None => true,
    }
}

/// A regular file after hashing: its content with the rewrites applied,
/// the offsets at which the self hash was found, and the hash.
pub struct FileHash {
    pub content: Vec<u8>,
    pub modulos: Vec<u64>,
    pub hash: crate::hash::Hash,
}

/// Big-endian bytes of `x`.
pub fn be_bytes(x: u64) -> (r: Vec<u8>)
    ensures
        r@ == be64(x),
{
    let mut r: Vec<u8> = Vec::new();
    r.push((x >> 56u64) as u8);
    r.push((x >> 48u64) as u8);
    r.push((x >> 40u64) as u8);
    r.push((x >> 32u64) as u8);
    r.push((x >> 24u64) as u8);
    r.push((x >> 16u64) as u8);
    r.push((x >> 8u64) as u8);
    r.push(x as u8);
    assert(r@ =~= be64(x));
    r
}

fn push_marker(v: &mut Vec<u8>)
    ensures
        final(v)@ == old(v)@ + marker(),
{
    let ghost start = v@;
    let mut k: usize = 0;
    while k < 8
        invariant
            k <= 8,
            v@ == start + Seq::new(k as nat, |_i: int| 255u8),
        decreases 8 - k,
    {
        v.push(255u8);
        k = k + 1;
        assert(v@ =~= start + Seq::new(k as nat, |_i: int| 255u8));
    }
}

fn append_bytes(v: &mut Vec<u8>, w: &[u8])
    ensures
        final(v)@ == old(v)@ + w@,
{
    let ghost start = v@;
    let mut k: usize = 0;
    while k < w.len()
        invariant
            k <= w@.len(),
            v@ == start + w@.subrange(0, k as int),
        decreases w@.len() - k,
    {
        v.push(w[k]);
        k = k + 1;
        assert(v@ =~= start + w@.subrange(0, k as int));
    }
    assert(w@.subrange(0, w@.len() as int) =~= w@);
}

/// Writes `w` over `v` at offset `o`.
pub fn overwrite_at(v: &mut Vec<u8>, o: usize, w: &[u8])
    requires
        o + w@.len() <= old(v)@.len(),
    ensures
        final(v)@ == overwrite(old(v)@, o as int, w@),
{
    let ghost start = v@;
    let n = v.len();
    let mut k: usize = 0;
    while k < w.len()
        invariant
            k <= w@.len(),
            n == start.len(),
            o + w@.len() <= start.len(),
            v@.len() == start.len(),
            forall|q: int| o <= q < o + k ==> #[trigger] v@[q] == w@[q - o],
            forall|q: int| 0 <= q < start.len() && !(o <= q < o + k) ==> v@[q] == start[q],
        decreases w@.len() - k,
    {
        v.set(o + k, w[k]);
        k = k + 1;
    }
    assert(v@ =~= overwrite(start, o as int, w@));
}

/// Zeroes the hash part at offset `o`.
pub fn zeroo_hash(v: &mut Vec<u8>, o: usize)
    requires
        o + HASH_PART_LEN <= old(v)@.len(),
    ensures
        final(v)@ == overwrite(old(v)@, o as int, zero_hash_part()),
{
    let ghost start = v@;
    let n = v.len();
    let mut k: usize = 0;
    while k < HASH_PART_LEN
        invariant
            k <= HASH_PART_LEN,
            n == start.len(),
            o + HASH_PART_LEN <= start.len(),
            v@.len() == start.len(),
            forall|q: int| o <= q < o + k ==> #[trigger] v@[q] == 0u8,
            forall|q: int| 0 <= q < start.len() && !(o <= q < o + k) ==> v@[q] == start[q],
        decreases HASH_PART_LEN - k,
    {
        v.set(o + k, 0u8);
        k = k + 1;
    }
    assert(v@ =~= overwrite(start, o as int, zero_hash_part()));
}

/// The hash parts to search a file for: the keys of `rewrites`, then the
/// self hash.
pub fn rewrite_target_bytes(rewrites: &Vec<(StorePath, StorePath)>, self_hash: &Option<StorePath>) -> (r:
    Vec<Vec<u8>>)
    requires
        rewrites_wf(rewrites@, *self_hash),
    ensures
        bytes_view(r@) == rewrite_targets(rewrites@, *self_hash),
{
    let mut r: Vec<Vec<u8>> = Vec::new();
    let mut k: usize = 0;
    while k < rewrites.len()
        invariant
            k <= rewrites@.len(),
            rewrites_wf(rewrites@, *self_hash),
            r@.len() == k,
            forall|q: int| 0 <= q < k ==> (#[trigger] r@[q])@ == hash_part_bytes(rewrites@[q].0.path@),
        decreases rewrites@.len() - k,
    {
        let b = rewrites[k].0.hash_bytes();
        r.push(b);
        k = k + 1;
    }
    match self_hash {
        Some(s) => {
            let b = s.hash_bytes();
            r.push(b);
        },
        None => {},
    }
    assert(bytes_view(r@) =~= rewrite_targets(rewrites@, *self_hash));
    r
}

/// The replacement hash parts of `rewrites`, in order.
fn replacement_bytes(rewrites: &Vec<(StorePath, StorePath)>) -> (r: Vec<Vec<u8>>)
    requires
        rewrites_wf(rewrites@, None),
    ensures
        bytes_view(r@) == replacements(rewrites@),
{
    let mut r: Vec<Vec<u8>> = Vec::new();
    let mut k: usize = 0;
    while k < rewrites.len()
        invariant
            k <= rewrites@.len(),
            rewrites_wf(rewrites@, None),
            r@.len() == k,
            forall|q: int| 0 <= q < k ==> (#[trigger] r@[q])@ == hash_part_bytes(rewrites@[q].1.path@),
        decreases rewrites@.len() - k,
    {
        let b = rewrites[k].1.hash_bytes();
        r.push(b);
        k = k + 1;
    }
    assert(bytes_view(r@) =~= replacements(rewrites@));
    r
}

/// Hashes the content of a regular file, modulo its self hash.
///
/// The content is scanned for the hash parts of the keys of `rewrites` and
/// for `self_hash`. Every key found is replaced by its value, in the
/// returned content and in what is hashed; every self hash found is zeroed
/// in what is hashed only, and its offset recorded. After the content the
/// hasher gets a marker of eight 0xFF bytes, then a marker and the
/// big-endian offset for each self hash found.
pub fn hash_file_content(
    algo: HashAlgo,
    content: &Vec<u8>,
    rewrites: &Vec<(StorePath, StorePath)>,
    self_hash: &Option<StorePath>,
) -> (r: FileHash)
    requires
        rewrites_wf(rewrites@, *self_hash),
    ensures
        exists|ms: Seq<(usize, usize)>|
            {
                &&& reports_matches(
                    content@,
                    rewrite_targets(rewrites@, *self_hash),
                    0,
                    content@.len() as int,
                    ms,
                )
                &&& r.content@ == apply_matches(content@, ms, replacements(rewrites@), false)
                &&& r.modulos@ == self_offsets(ms, rewrites@.len())
                &&& r.hash.wf()
                &&& r.hash.spec_algo() == algo
                &&& r.hash.digest() == digest_of(algo, file_message(content@, ms, rewrites@))
            },
{
    let targets = rewrite_target_bytes(rewrites, self_hash);
    let repl = replacement_bytes(rewrites);
    let ms = scan_chunks(content.as_slice(), &targets);
    let ghost rp = replacements(rewrites@);
    let nrw = rewrites.len();
    let mut written = content.clone();
    let mut hashed = content.clone();
    let mut suffix: Vec<u8> = Vec::new();
    let mut modulos: Vec<u64> = Vec::new();
    let mut j: usize = 0;
    while j < ms.len()
        invariant
            j <= ms@.len(),
            nrw == rewrites@.len(),
            bytes_view(repl@) == rp,
            rp.len() == nrw,
            forall|q: int| 0 <= q < rp.len() ==> (#[trigger] rp[q]).len() == HASH_PART_LEN,
            reports_matches(
                content@,
                rewrite_targets(rewrites@, *self_hash),
                0,
                content@.len() as int,
                ms@,
            ),
            written@ == apply_matches(content@, ms@.subrange(0, j as int), rp, false),
            hashed@ == apply_matches(content@, ms@.subrange(0, j as int), rp, true),
            written@.len() == content@.len(),
            hashed@.len() == content@.len(),
            suffix@ == modulo_suffix(ms@.subrange(0, j as int), nrw as nat),
            modulos@ == self_offsets(ms@.subrange(0, j as int), nrw as nat),
        decreases ms@.len() - j,
    {
        let (o, k) = ms[j];
        assert(ms@.subrange(0, j + 1).drop_last() =~= ms@.subrange(0, j as int));
        assert(ms@.subrange(0, j + 1).last() == ms@[j as int]);
        assert(o + HASH_PART_LEN <= content@.len());
        if k < nrw {
            assert(repl@[k as int]@ == rp[k as int]);
            overwrite_at(&mut written, o, repl[k].as_slice());
            overwrite_at(&mut hashed, o, repl[k].as_slice());
        } else {
            zeroo_hash(&mut hashed, o);
            push_marker(&mut suffix);
            let be = be_bytes(o as u64);
            append_bytes(&mut suffix, be.as_slice());
            modulos.push(o as u64);
        }
        assert(modulos@ =~= self_offsets(ms@.subrange(0, j + 1), nrw as nat));
        j = j + 1;
    }
    assert(ms@.subrange(0, ms@.len() as int) =~= ms@);
    let mut message = hashed;
    push_marker(&mut message);
    append_bytes(&mut message, suffix.as_slice());
    let hash = hash_bytes(algo, message.as_slice());
    FileHash { content: written, modulos, hash }
}

/// `a` sorts strictly before `b` byte-wise, the first difference being at `k`
/// (or `a` a proper prefix of `b`, of length `k`).
pub open spec fn lex_lt_at(a: Seq<u8>, b: Seq<u8>, k: int) -> bool {
    &&& 0 <= k <= a.len()
    &&& k <= b.len()
    &&& forall|i: int| 0 <= i < k ==> a[i] == b[i]
    &&& ((k == a.len() && k < b.len()) || (k < a.len() && k < b.len() && a[k] < b[k]))
}

/// Byte-wise lexicographic order.
pub open spec fn lex_lt(a: Seq<u8>, b: Seq<u8>) -> bool {
    exists|k: int| lex_lt_at(a, b, k)
}

pub proof fn lemma_lex_irreflexive(a: Seq<u8>)
    ensures
        !lex_lt(a, a),
{
}

pub proof fn lemma_lex_transitive(a: Seq<u8>, b: Seq<u8>, c: Seq<u8>)
    requires
        lex_lt(a, b),
        lex_lt(b, c),
    ensures
        lex_lt(a, c),
{
    let k1 = choose|k: int| lex_lt_at(a, b, k);
    let k2 = choose|k: int| lex_lt_at(b, c, k);
    if k1 <= k2 {
        assert(lex_lt_at(a, c, k1));
    } else {
        assert(lex_lt_at(a, c, k2));
    }
}

/// Byte-wise comparison.
pub fn bytes_lt(a: &[u8], b: &[u8]) -> (r: bool)
    ensures
        r == lex_lt(a@, b@),
{
    let mut k: usize = 0;
    while k < a.len() && k < b.len() && a[k] == b[k]
        invariant
            k <= a@.len(),
            k <= b@.len(),
            forall|i: int| 0 <= i < k ==> a@[i] == b@[i],
        decreases a@.len() - k,
    {
        k = k + 1;
    }
    let r = if k == a.len() {
        k < b.len()
    } else {
        k < b.len() && a[k] < b[k]
    };
    proof {
        if r {
            assert(lex_lt_at(a@, b@, k as int));
        } else {
            assert forall|j: int| !lex_lt_at(a@, b@, j) by {
                if lex_lt_at(a@, b@, j) {
                    if j < k {
                        assert(a@[j] == b@[j]);
                    } else if j > k {
                        assert(a@[k as int] == b@[k as int]);
                    }
                }
            }
        }
    }
    r
}

/// One entry of a directory, its child already hashed.
pub struct DirEntryHash {
    pub name: Vec<u8>,
    pub kind: FileKind,
    pub hash: Vec<u8>,
}

pub type EntryView = (Seq<u8>, FileKind, Seq<u8>);

pub open spec fn entry_view(e: DirEntryHash) -> EntryView {
    (e.name@, e.kind, e.hash@)
}

pub open spec fn entries_view(es: Seq<DirEntryHash>) -> Seq<EntryView> {
    es.map_values(|e: DirEntryHash| entry_view(e))
}

/// What one entry feeds the hasher: its permission code, the length of its
/// name, the name, the length of its hash and the hash.
pub open spec fn entry_bytes(e: EntryView) -> Seq<u8> {
    be64(permission_of(e.1)) + be64(e.0.len() as u64) + e.0 + be64(e.2.len() as u64) + e.2
}

/// What a directory feeds the hasher, its entries in the given order;
/// entries of an unknown kind are skipped.
pub open spec fn dir_message(es: Seq<EntryView>) -> Seq<u8>
    decreases es.len(),
{
    if es.len() == 0 {
        Seq::empty()
    } else {
        dir_message(es.drop_last()) + if es.last().1 == FileKind::Unknown {
            Seq::empty()
        } else {
            entry_bytes(es.last())
        }
    }
}

/// The entries are in non-decreasing order of name.
pub open spec fn sorted_by_name(es: Seq<EntryView>) -> bool {
    forall|i: int, j: int| 0 <= i < j < es.len() ==> !lex_lt(#[trigger] es[j].0, #[trigger] es[i].0)
}

/// Sorts the entries by name, byte-wise; entries with equal names keep
/// their order.
pub fn sort_entries(entries: Vec<DirEntryHash>) -> (r: Vec<DirEntryHash>)
    ensures
        entries_view(r@).to_multiset() == entries_view(entries@).to_multiset(),
        sorted_by_name(entries_view(r@)),
{
    broadcast use vstd::seq_lib::group_to_multiset_ensures;

    let ghost ev = entries_view(entries@);
    let mut rest = entries;
    let mut sorted: Vec<DirEntryHash> = Vec::new();
    let ghost n = ev.len();
    while rest.len() > 0
        invariant
            entries_view(sorted@).to_multiset().add(entries_view(rest@).to_multiset())
                == ev.to_multiset(),
            sorted_by_name(entries_view(sorted@)),
        decreases rest@.len(),
    {
        let ghost rv = entries_view(rest@);
        let e = rest.remove(0);
        proof {
            assert(entries_view(rest@) =~= rv.remove(0));
            vstd::seq_lib::to_multiset_remove(rv, 0);
            assert(rv[0] == entry_view(e));
            assert(rv.contains(entry_view(e)));
            vstd::seq_lib::to_multiset_contains(rv, entry_view(e));
        }
        let mut p: usize = 0;
        while p < sorted.len() && !bytes_lt(e.name.as_slice(), sorted[p].name.as_slice())
            invariant
                p <= sorted@.len(),
                forall|q: int| 0 <= q < p ==> !lex_lt(e.name@, #[trigger] sorted@[q].name@),
            decreases sorted@.len() - p,
        {
            p = p + 1;
        }
        let ghost sv = entries_view(sorted@);
        let ghost x = entry_view(e);
        sorted.insert(p, e);
        proof {
            assert(entries_view(sorted@) =~= sv.insert(p as int, x));
            vstd::seq_lib::to_multiset_insert(sv, p as int, x);
            broadcast use vstd::multiset::group_multiset_axioms;
            assert(entries_view(sorted@).to_multiset().add(entries_view(rest@).to_multiset())
                =~= ev.to_multiset());
            let nv = entries_view(sorted@);
            assert forall|i: int, j: int| 0 <= i < j < nv.len() implies !lex_lt(
                #[trigger] nv[j].0,
                #[trigger] nv[i].0,
            ) by {
                if i < p && j == p {
                    assert(nv[i] == sv[i]);
                } else if i == p && j > p {
                    assert(nv[j] == sv[j - 1]);
                    if lex_lt(nv[j].0, x.0) {
                        assert(p < sv.len());
                        assert(lex_lt(x.0, sv[p as int].0));
                        lemma_lex_transitive(nv[j].0, x.0, sv[p as int].0);
                        if j - 1 == p {
                            lemma_lex_irreflexive(sv[p as int].0);
                        }
                    }
                } else if i < p && j > p {
                    assert(nv[i] == sv[i]);
                    assert(nv[j] == sv[j - 1]);
                } else if i > p {
                    assert(nv[i] == sv[i - 1]);
                    assert(nv[j] == sv[j - 1]);
                } else {
                    assert(nv[i] == sv[i]);
                    assert(nv[j] == sv[j]);
                }
            }
        }
    }
    assert(entries_view(rest@) =~= Seq::<EntryView>::empty());
    sorted
}

/// Hashes a directory: its entries sorted by name, then for each entry
/// whose kind is known its permission code, name and hash, with lengths.
pub fn hash_dir(algo: HashAlgo, entries: Vec<DirEntryHash>) -> (r: crate::hash::Hash)
    ensures
        r.wf(),
        r.spec_algo() == algo,
        exists|sorted: Seq<EntryView>|
            {
                &&& sorted.to_multiset() == entries_view(entries@).to_multiset()
                &&& sorted_by_name(sorted)
                &&& r.digest() == digest_of(algo, dir_message(sorted))
            },
{
    let sorted = sort_entries(entries);
    let mut message: Vec<u8> = Vec::new();
    let mut k: usize = 0;
    while k < sorted.len()
        invariant
            k <= sorted@.len(),
            message@ == dir_message(entries_view(sorted@).subrange(0, k as int)),
        decreases sorted@.len() - k,
    {
        let e = &sorted[k];
        let ghost before = entries_view(sorted@).subrange(0, k as int);
        assert(entries_view(sorted@).subrange(0, k + 1).drop_last() =~= before);
        if e.kind != FileKind::Unknown {
            let perm = file_type_to_permission(e.kind);
            append_bytes(&mut message, be_bytes(perm).as_slice());
            append_bytes(&mut message, be_bytes(e.name.len() as u64).as_slice());
            append_bytes(&mut message, e.name.as_slice());
            append_bytes(&mut message, be_bytes(e.hash.len() as u64).as_slice());
            append_bytes(&mut message, e.hash.as_slice());
            assert(message@ =~= dir_message(entries_view(sorted@).subrange(0, k + 1)));
        }
        k = k + 1;
    }
    assert(entries_view(sorted@).subrange(0, k as int) =~= entries_view(sorted@));
    hash_bytes(algo, message.as_slice())
}

/// Hashes the target of a symbolic link as it is.
pub fn hash_symlink(algo: HashAlgo, target: &[u8]) -> (r: crate::hash::Hash)
    ensures
        r.wf(),
        r.spec_algo() == algo,
        r.digest() == digest_of(algo, target@),
{
    hash_bytes(algo, target)
}

/// An empty file hashes to the digest of the framing marker alone.
pub proof fn lemma_empty_file_hash(
    algo: HashAlgo,
    rw: Seq<(StorePath, StorePath)>,
    sh: Option<StorePath>,
    ms: Seq<(usize, usize)>,
)
    requires
        reports_matches(Seq::empty(), rewrite_targets(rw, sh), 0, 0, ms),
    ensures
        digest_of(algo, file_message(Seq::empty(), ms, rw)) == digest_of(algo, marker()),
{
    if ms.len() > 0 {
        assert(ms[0].0 + HASH_PART_LEN <= 0);
    }
    assert(file_message(Seq::empty(), ms, rw) =~= marker());
}

/// A directory without entries hashes to the digest of no bytes at all.
pub proof fn lemma_empty_dir_hash(algo: HashAlgo, sorted: Seq<EntryView>)
    requires
        sorted.to_multiset() == Seq::<EntryView>::empty().to_multiset(),
    ensures
        digest_of(algo, dir_message(sorted)) == digest_of(algo, Seq::empty()),
{
    broadcast use vstd::seq_lib::group_to_multiset_ensures;

    vstd::seq_lib::to_multiset_len(sorted);
    vstd::seq_lib::to_multiset_len(Seq::<EntryView>::empty());
    assert(sorted.len() == 0);
    assert(dir_message(sorted) =~= Seq::<u8>::empty());
}

/// Offset `x` lies in the window of one of the matches.
pub open spec fn covered(ms: Seq<(usize, usize)>, x: int) -> bool {
    exists|j: int| 0 <= j < ms.len() && (#[trigger] ms[j]).0 <= x < ms[j].0 + HASH_PART_LEN
}

proof fn lemma_zeroed(s: Seq<u8>, ms: Seq<(usize, usize)>, repl: Seq<Seq<u8>>)
    requires
        forall|j: int| 0 <= j < ms.len() ==> (#[trigger] ms[j]).0 + HASH_PART_LEN <= s.len(),
        forall|j: int| 0 <= j < ms.len() ==> (#[trigger] ms[j]).1 >= repl.len(),
    ensures
        apply_matches(s, ms, repl, true).len() == s.len(),
        forall|x: int|
            0 <= x < s.len() ==> #[trigger] apply_matches(s, ms, repl, true)[x] == if covered(ms, x) {
                0u8
            } else {
                s[x]
            },
    decreases ms.len(),
{
    if ms.len() > 0 {
        let prev_ms = ms.drop_last();
        lemma_zeroed(s, prev_ms, repl);
        let m = ms.last();
        let prev = apply_matches(s, prev_ms, repl, true);
        assert forall|x: int| 0 <= x < s.len() implies #[trigger] apply_matches(s, ms, repl, true)[x]
            == if covered(ms, x) {
            0u8
        } else {
            s[x]
        } by {
            if covered(prev_ms, x) {
                let j = choose|j: int|
                    0 <= j < prev_ms.len() && (#[trigger] prev_ms[j]).0 <= x < prev_ms[j].0 + HASH_PART_LEN;
                assert(ms[j] == prev_ms[j]);
            }
            if covered(ms, x) && !(m.0 <= x < m.0 + HASH_PART_LEN) {
                let j = choose|j: int| 0 <= j < ms.len() && (#[trigger] ms[j]).0 <= x < ms[j].0 + HASH_PART_LEN;
                assert(prev_ms[j] == ms[j]);
            }
            if m.0 <= x < m.0 + HASH_PART_LEN {
                assert(ms[ms.len() - 1] == m);
            }
        }
    }
}

proof fn lemma_written_outside(s: Seq<u8>, ms: Seq<(usize, usize)>, repl: Seq<Seq<u8>>)
    requires
        forall|j: int| 0 <= j < ms.len() ==> (#[trigger] ms[j]).0 + HASH_PART_LEN <= s.len(),
        forall|j: int| 0 <= j < ms.len() ==> (#[trigger] ms[j]).1 < repl.len(),
        forall|k: int| 0 <= k < repl.len() ==> (#[trigger] repl[k]).len() == HASH_PART_LEN,
    ensures
        apply_matches(s, ms, repl, false).len() == s.len(),
        forall|x: int|
            0 <= x < s.len() && !covered(ms, x) ==> #[trigger] apply_matches(s, ms, repl, false)[x]
                == s[x],
    decreases ms.len(),
{
    if ms.len() > 0 {
        let prev_ms = ms.drop_last();
        lemma_written_outside(s, prev_ms, repl);
        let m = ms.last();
        assert(ms[ms.len() - 1] == m);
        assert forall|x: int| 0 <= x < s.len() && !covered(ms, x) implies #[trigger] apply_matches(
            s,
            ms,
            repl,
            false,
        )[x] == s[x] by {
            if covered(prev_ms, x) {
                let j = choose|j: int|
                    0 <= j < prev_ms.len() && (#[trigger] prev_ms[j]).0 <= x < prev_ms[j].0 + HASH_PART_LEN;
                assert(ms[j] == prev_ms[j]);
            }
        }
    }
}

/// The self-hash round trip. An object is hashed with its temporary hash
/// part `tmp` as the self hash; when it is stored, every `tmp` in it is
/// rewritten to the final hash part `fin` (a rewrite whose only key is
/// `tmp` finds the same matches, its targets being the same). Hashing the
/// stored content with `fin` as the self hash gives the object's hash
/// again, provided `fin` occurs in the stored content exactly where `tmp`
/// occurred in the content as it was hashed.
pub proof fn lemma_self_hash_round_trip(
    algo: HashAlgo,
    content: Seq<u8>,
    tmp: StorePath,
    fin: StorePath,
    ms: Seq<(usize, usize)>,
    stored: Seq<u8>,
    ms_stored: Seq<(usize, usize)>,
)
    requires
        tmp.path@.len() >= HASH_PART_LEN,
        fin.path@.len() >= HASH_PART_LEN,
        reports_matches(content, rewrite_targets(seq![], Some(tmp)), 0, content.len() as int, ms),
        stored == apply_matches(content, ms, replacements(seq![(tmp, fin)]), false),
        reports_matches(
            stored,
            rewrite_targets(seq![], Some(fin)),
            0,
            stored.len() as int,
            ms_stored,
        ),
        ms_stored == ms,
    ensures
        digest_of(algo, file_message(stored, ms_stored, seq![])) == digest_of(
            algo,
            file_message(content, ms, seq![]),
        ),
{
    let repl = replacements(seq![(tmp, fin)]);
    let none: Seq<Seq<u8>> = replacements(seq![]);
    assert(repl.len() == 1);
    assert(repl[0] == hash_part_bytes(fin.path@));
    assert(none.len() == 0);
    assert(rewrite_targets(seq![], Some(tmp)).len() == 1);
    assert forall|j: int| 0 <= j < ms.len() implies (#[trigger] ms[j]).1 < repl.len() by {
    }
    lemma_written_outside(content, ms, repl);
    lemma_zeroed(content, ms, none);
    lemma_zeroed(stored, ms, none);
    assert(apply_matches(stored, ms, none, true) =~= apply_matches(content, ms, none, true));
    assert(file_message(stored, ms_stored, seq![]) =~= file_message(content, ms, seq![]));
}

/// With windows that do not overlap, the written content holds, in each
/// window of a match, the replacement of its target, and every other byte
/// is unchanged.
pub proof fn lemma_written_windows(s: Seq<u8>, ms: Seq<(usize, usize)>, repl: Seq<Seq<u8>>)
    requires
        disjoint_windows(ms, s.len() as int, repl.len() as int),
        forall|k: int| 0 <= k < repl.len() ==> (#[trigger] repl[k]).len() == HASH_PART_LEN,
    ensures
        apply_matches(s, ms, repl, false).len() == s.len(),
        forall|j: int, x: int|
            #![trigger ms[j], apply_matches(s, ms, repl, false)[x]]
            0 <= j < ms.len() && ms[j].0 <= x < ms[j].0 + HASH_PART_LEN ==> apply_matches(s, ms, repl, false)[x] == repl[ms[j].1 as int][x - ms[j].0],
        forall|x: int|
            0 <= x < s.len() && (forall|j: int|
                0 <= j < ms.len() ==> !(ms[j].0 <= x < (#[trigger] ms[j]).0 + HASH_PART_LEN))
                ==> #[trigger] apply_matches(s, ms, repl, false)[x] == s[x],
    decreases ms.len(),
{
    if ms.len() > 0 {
        let prev = ms.drop_last();
        assert forall|j: int| 0 < j < prev.len() implies (#[trigger] prev[j]).0 >= prev[j - 1].0
            + HASH_PART_LEN by {
            assert(prev[j] == ms[j] && prev[j - 1] == ms[j - 1]);
        }
        assert forall|j: int| 0 <= j < prev.len() implies (#[trigger] prev[j]).0 + HASH_PART_LEN
            <= s.len() && prev[j].1 < repl.len() by {
            assert(prev[j] == ms[j]);
        }
        lemma_written_windows(s, prev, repl);
        let m = ms.last();
        assert(ms[ms.len() - 1] == m);
        // every earlier window ends before the last one starts
        assert forall|j: int| 0 <= j < prev.len() implies (#[trigger] prev[j]).0 + HASH_PART_LEN <= m.0 by {
            lemma_windows_ordered(ms, j, ms.len() - 1);
            assert(prev[j] == ms[j]);
        }
        assert forall|j: int, x: int|
            #![trigger ms[j], apply_matches(s, ms, repl, false)[x]]
            0 <= j < ms.len() && ms[j].0 <= x < ms[j].0 + HASH_PART_LEN implies apply_matches(s, ms, repl, false)[x] == repl[ms[j].1 as int][x - ms[j].0] by {
            if j < ms.len() - 1 {
                assert(prev[j] == ms[j]);
            }
        }
        assert forall|x: int|
            0 <= x < s.len() && (forall|j: int|
                0 <= j < ms.len() ==> !(ms[j].0 <= x < (#[trigger] ms[j]).0 + HASH_PART_LEN))
                implies #[trigger] apply_matches(s, ms, repl, false)[x] == s[x] by {
            assert forall|j: int| 0 <= j < prev.len() implies !(prev[j].0 <= x < (#[trigger] prev[j]).0
                + HASH_PART_LEN) by {
                assert(prev[j] == ms[j]);
            }
        }
    }
}

} // verus!

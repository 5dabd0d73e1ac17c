//! Detection of store-path hash parts inside byte buffers.
//!
//! A hash part is a run of `HASH_PART_LEN` bytes drawn from the base64url
//! alphabet. The scanner looks for runs that are equal to one of a set of
//! known targets, skipping ahead past any byte that cannot belong to a hash.
use vstd::prelude::*;

verus! {

/// Number of characters of the hash prefix of every store path.
pub const HASH_PART_LEN: usize = 64;

/// Bytes read from a file at once; matches are carried across chunks.
pub const BUFF_SIZE: usize = 131072;

/// Bytes of the previous chunk kept in front of the next one.
pub const OVERLAP: usize = 63;

/// Letters, digits, `-` and `_`.
pub open spec fn is_hash_byte(b: u8) -> bool {
    (48 <= b && b <= 57) || (65 <= b && b <= 90) || (97 <= b && b <= 122) || b == 45 || b == 95
}

/// The window of a hash part's length at `i` lies in `b` and holds hash bytes only.
pub open spec fn window_valid(b: Seq<u8>, i: int) -> bool {
    &&& 0 <= i
    &&& i + HASH_PART_LEN <= b.len()
    &&& forall|k: int| i <= k < i + HASH_PART_LEN ==> is_hash_byte(#[trigger] b[k])
}

pub open spec fn window(b: Seq<u8>, i: int) -> Seq<u8> {
    b.subrange(i, i + HASH_PART_LEN)
}

/// The views of a list of byte strings.
pub open spec fn bytes_view(ts: Seq<Vec<u8>>) -> Seq<Seq<u8>> {
    ts.map_values(|t: Vec<u8>| t@)
}

/// A known hash part occurs at offset `i` of `b`.
pub open spec fn is_match(b: Seq<u8>, ts: Seq<Seq<u8>>, i: int) -> bool {
    window_valid(b, i) && ts.contains(window(b, i))
}

/// `k` is the first target equal to the window at `i`.
pub open spec fn first_target(b: Seq<u8>, ts: Seq<Seq<u8>>, i: int, k: int) -> bool {
    &&& 0 <= k < ts.len()
    &&& ts[k] == window(b, i)
    &&& forall|q: int| 0 <= q < k ==> ts[q] != window(b, i)
}

/// `r` lists, in increasing order of offset, exactly the matches of `ts` in `b`
/// whose window starts at or after `lo` and ends at or before `hi`, each with
/// the first target it equals.
pub open spec fn reports_matches(
    b: Seq<u8>,
    ts: Seq<Seq<u8>>,
    lo: int,
    hi: int,
    r: Seq<(usize, usize)>,
) -> bool {
    &&& forall|j: int|
        0 <= j < r.len() ==> {
            &&& lo <= r[j].0
            &&& r[j].0 + HASH_PART_LEN <= hi
            &&& window_valid(b, r[j].0 as int)
            &&& first_target(b, ts, r[j].0 as int, r[j].1 as int)
        }
    &&& forall|j1: int, j2: int| 0 <= j1 < j2 < r.len() ==> r[j1].0 < r[j2].0
    &&& forall|i: int|
        lo <= i && i + HASH_PART_LEN <= hi && #[trigger] is_match(b, ts, i) ==> exists|j: int|
            0 <= j < r.len() && r[j].0 == i
}

/// Whether a byte may occur in the hash part of a store path.
pub fn is_valid_hash_byte(b: u8) -> (r: bool)
    ensures
        r == is_hash_byte(b),
{
    (48 <= b && b <= 57) || (65 <= b && b <= 90) || (97 <= b && b <= 122) || b == 45 || b == 95
}

/// Whether a character may occur in the hash part of a store path.
pub fn is_valid_hash_char(c: char) -> (r: bool)
    ensures
        r == ((c as u32) < 256 && is_hash_byte(c as u8)),
{
    let u = c as u32;
    u < 256 && is_valid_hash_byte(u as u8)
}

/// Index of the first target equal to the window at `i`, if any.
fn find_target(buff: &[u8], i: usize, targets: &Vec<Vec<u8>>) -> (r: Option<usize>)
    requires
        i + HASH_PART_LEN <= buff@.len(),
    ensures
        match r {
            Some(k) => first_target(buff@, bytes_view(targets@), i as int, k as int),
            None => !bytes_view(targets@).contains(window(buff@, i as int)),
        },
{
    let ghost ts = bytes_view(targets@);
    let len = buff.len();
    let mut k: usize = 0;
    while k < targets.len()
        invariant
            k <= targets@.len(),
            i + HASH_PART_LEN <= buff@.len(),
            len == buff@.len(),
            ts == bytes_view(targets@),
            forall|q: int| 0 <= q < k ==> ts[q] != window(buff@, i as int),
        decreases targets@.len() - k,
    {
        let t = &targets[k];
        let mut same = t.len() == HASH_PART_LEN;
        let mut m: usize = 0;
        while same && m < HASH_PART_LEN
            invariant
                m <= HASH_PART_LEN,
                i + HASH_PART_LEN <= buff@.len(),
                len == buff@.len(),
                same ==> t@.len() == HASH_PART_LEN,
                same ==> forall|x: int| 0 <= x < m ==> t@[x] == buff@[i + x],
                !same ==> t@ != window(buff@, i as int),
            decreases HASH_PART_LEN - m + (if same { 1int } else { 0int }),
        {
            if t[m] != buff[i + m] {
                same = false;
                assert(window(buff@, i as int)[m as int] == buff@[i + m]);
            } else {
                m = m + 1;
            }
        }
        if same {
            assert(t@ =~= window(buff@, i as int));
            return Some(k);
        }
        k = k + 1;
    }
    proof {
        if ts.contains(window(buff@, i as int)) {
            let q = choose|q: int| 0 <= q < ts.len() && ts[q] == window(buff@, i as int);
            assert(ts[q] != window(buff@, i as int));
        }
    }
    None
}

/// Finds the known hash parts whose window lies between `lo` and `hi`.
///
/// Each window is checked from its last byte backwards; on a byte outside
/// the hash alphabet the search resumes just after it, so a buffer is
/// walked in time linear in its length for a fixed set of targets.
pub fn search_range(buff: &[u8], lo: usize, hi: usize, targets: &Vec<Vec<u8>>) -> (r: Vec<
    (usize, usize),
>)
    requires
        lo <= hi <= buff@.len(),
    ensures
        reports_matches(buff@, bytes_view(targets@), lo as int, hi as int, r@),
{
    let ghost b = buff@;
    let ghost ts = bytes_view(targets@);
    let mut occ: Vec<(usize, usize)> = Vec::new();
    let mut i: usize = lo;
    while i <= hi && hi - i >= HASH_PART_LEN
        invariant
            lo <= i,
            hi <= buff@.len(),
            b == buff@,
            ts == bytes_view(targets@),
            forall|j: int|
                0 <= j < occ@.len() ==> {
                    &&& lo <= occ@[j].0 < i
                    &&& occ@[j].0 + HASH_PART_LEN <= hi
                    &&& window_valid(b, occ@[j].0 as int)
                    &&& first_target(b, ts, occ@[j].0 as int, occ@[j].1 as int)
                },
            forall|j1: int, j2: int| 0 <= j1 < j2 < occ@.len() ==> occ@[j1].0 < occ@[j2].0,
            forall|p: int|
                lo <= p < i && p + HASH_PART_LEN <= hi && #[trigger] is_match(b, ts, p)
                    ==> exists|j: int| 0 <= j < occ@.len() && occ@[j].0 == p,
        decreases hi - i,
    {
        // walk the window backwards, stopping at the first invalid byte
        let mut j: usize = i + HASH_PART_LEN;
        let mut bad = false;
        while j > i && !bad
            invariant
                i <= j <= i + HASH_PART_LEN,
                i + HASH_PART_LEN <= hi <= buff@.len(),
                b == buff@,
                bad ==> i < j && !is_hash_byte(b[j - 1]),
                forall|k: int| j <= k < i + HASH_PART_LEN ==> is_hash_byte(#[trigger] b[k]),
            decreases j - i + (if bad { 0int } else { 1int }),
        {
            if !is_valid_hash_byte(buff[j - 1]) {
                bad = true;
            } else {
                j = j - 1;
            }
        }
        if bad {
            // every window that starts in i..j holds the invalid byte at j - 1
            assert forall|p: int|
                i <= p < j && p + HASH_PART_LEN <= hi && #[trigger] is_match(b, ts, p) implies false by {
                assert(!is_hash_byte(b[j - 1]));
            }
            i = j;
        } else {
            assert(window_valid(b, i as int));
            let ghost prev = occ@;
            let found = find_target(buff, i, targets);
            match found {
                Some(k) => {
                    occ.push((i, k));
                },
                None => {},
            }
            proof {
                assert forall|p: int|
                    lo <= p < i + 1 && p + HASH_PART_LEN <= hi && #[trigger] is_match(b, ts, p)
                        implies exists|j: int| 0 <= j < occ@.len() && occ@[j].0 == p by {
                    if p == i {
                        assert(occ@[occ@.len() - 1].0 == p);
                    } else {
                        let j0 = choose|j: int|
                            0 <= j < prev.len() && prev[j].0 == p;
                        assert(occ@[j0].0 == p);
                    }
                }
            }
            i = i + 1;
        }
    }
    occ
}

/// Finds the known hash parts in a whole buffer.
pub fn search(buff: &[u8], targets: &Vec<Vec<u8>>) -> (r: Vec<(usize, usize)>)
    ensures
        reports_matches(buff@, bytes_view(targets@), 0, buff@.len() as int, r@),
{
    search_range(buff, 0, buff.len(), targets)
}

/// Offset at which the buffer of the chunk that starts at `s` begins: the
/// chunk's bytes are preceded by up to `OVERLAP` bytes of the chunk before.
pub open spec fn chunk_buffer_start(s: int) -> int {
    if s >= OVERLAP {
        s - OVERLAP
    } else {
        0
    }
}

/// Start of the buffer that the chunk starting at `chunk_start` is scanned in.
pub fn chunk_offset(chunk_start: usize) -> (r: usize)
    ensures
        r == chunk_buffer_start(chunk_start as int),
{
    if chunk_start >= OVERLAP {
        chunk_start - OVERLAP
    } else {
        0
    }
}

/// Scans `content` chunk by chunk, `BUFF_SIZE` new bytes at a time, each
/// chunk preceded by the last `OVERLAP` bytes of the one before, so that a
/// hash part that straddles two chunks is found, and found once, at its
/// offset in the whole content.
pub fn scan_chunks(content: &[u8], targets: &Vec<Vec<u8>>) -> (r: Vec<(usize, usize)>)
    ensures
        reports_matches(content@, bytes_view(targets@), 0, content@.len() as int, r@),
{
    let ghost b = content@;
    let ghost ts = bytes_view(targets@);
    let n = content.len();
    let mut res: Vec<(usize, usize)> = Vec::new();
    let mut s: usize = 0;
    while s < n
        invariant
            n == content@.len(),
            b == content@,
            ts == bytes_view(targets@),
            s <= n,
            reports_matches(b, ts, 0, s as int, res@),
        decreases n - s,
    {
        let e = if n - s > BUFF_SIZE {
            s + BUFF_SIZE
        } else {
            n
        };
        let bs = chunk_offset(s);
        let found = search_range(content, bs, e, targets);
        let ghost before = res@;
        let mut q: usize = 0;
        while q < found.len()
            invariant
                0 <= q <= found@.len(),
                s < e <= n,
                bs == chunk_buffer_start(s as int),
                reports_matches(b, ts, bs as int, e as int, found@),
                res@.len() == before.len() + q,
                forall|j: int| 0 <= j < before.len() ==> res@[j] == before[j],
                forall|j: int| 0 <= j < q ==> res@[before.len() + j] == found@[j],
                reports_matches(b, ts, 0, s as int, before),
                b == content@,
                n == content@.len(),
            decreases found@.len() - q,
        {
            res.push(found[q]);
            q = q + 1;
        }
        proof {
            assert forall|j1: int, j2: int| 0 <= j1 < j2 < res@.len() implies res@[j1].0 < res@[j2].0 by {
                if j2 >= before.len() && j1 < before.len() {
                    assert(res@[j1] == before[j1]);
                    assert(res@[j2] == found@[j2 - before.len()]);
                    assert(before[j1].0 + HASH_PART_LEN <= s);
                    assert(found@[j2 - before.len()].0 >= bs);
                } else if j1 >= before.len() {
                    assert(res@[j1] == found@[j1 - before.len()]);
                    assert(res@[j2] == found@[j2 - before.len()]);
                } else {
                    assert(res@[j1] == before[j1]);
                    assert(res@[j2] == before[j2]);
                }
            }
            assert forall|i: int|
                0 <= i && i + HASH_PART_LEN <= e && #[trigger] is_match(b, ts, i) implies exists|j: int|
                    0 <= j < res@.len() && res@[j].0 == i by {
                if i + HASH_PART_LEN <= s {
                    let j0 = choose|j: int| 0 <= j < before.len() && before[j].0 == i;
                    assert(res@[j0].0 == i);
                } else {
                    assert(bs <= i);
                    let j0 = choose|j: int| 0 <= j < found@.len() && found@[j].0 == i;
                    assert(res@[before.len() + j0].0 == i);
                }
            }
            assert forall|j: int| 0 <= j < res@.len() implies {
                &&& 0 <= res@[j].0
                &&& res@[j].0 + HASH_PART_LEN <= e
                &&& window_valid(b, res@[j].0 as int)
                &&& first_target(b, ts, res@[j].0 as int, res@[j].1 as int)
            } by {
                if j >= before.len() {
                    assert(res@[j] == found@[j - before.len()]);
                } else {
                    assert(res@[j] == before[j]);
                }
            }
        }
        s = e;
    }
    res
}

/// A buffer of a file being scanned: the bytes kept from the previous chunk
/// followed by new ones, and the offset of its first byte in the file.
pub struct Chunk {
    pub data: Vec<u8>,
    pub offset: usize,
}

impl Chunk {
    pub fn chunk(&self) -> (r: &Vec<u8>)
        ensures
            r@ == self.data@,
    {
        &self.data
    }

    pub fn chunk_offset(&self) -> (r: usize)
        ensures
            r == self.offset,
    {
        self.offset
    }

    /// The chunk cut before its last `OVERLAP` bytes (all of it when
    /// shorter), which are kept for the next chunk.
    pub fn split_at_overlap(&self) -> (r: (Vec<u8>, Vec<u8>))
        ensures
            r.0@ + r.1@ == self.data@,
            r.1@.len() == if self.data@.len() >= OVERLAP {
                OVERLAP as nat
            } else {
                self.data@.len()
            },
    {
        let n = self.data.len();
        let cut = if n >= OVERLAP {
            n - OVERLAP
        } else {
            0
        };
        let mut head: Vec<u8> = Vec::new();
        let mut tail: Vec<u8> = Vec::new();
        let mut k: usize = 0;
        while k < n
            invariant
                n == self.data@.len(),
                k <= n,
                cut <= n,
                k <= cut ==> head@ == self.data@.subrange(0, k as int) && tail@.len() == 0,
                k > cut ==> head@ == self.data@.subrange(0, cut as int) && tail@
                    == self.data@.subrange(cut as int, k as int),
            decreases n - k,
        {
            if k < cut {
                head.push(self.data[k]);
                assert(head@ =~= self.data@.subrange(0, k + 1));
            } else {
                tail.push(self.data[k]);
                assert(tail@ =~= self.data@.subrange(cut as int, k + 1));
            }
            k = k + 1;
        }
        assert(head@ + tail@ =~= self.data@);
        (head, tail)
    }
}

proof fn lemma_offsets_agree(
    b: Seq<u8>,
    ts: Seq<Seq<u8>>,
    lo: int,
    hi: int,
    r1: Seq<(usize, usize)>,
    r2: Seq<(usize, usize)>,
    j: int,
)
    requires
        reports_matches(b, ts, lo, hi, r1),
        reports_matches(b, ts, lo, hi, r2),
        0 <= j < r1.len(),
    ensures
        forall|i: int| 0 <= i <= j ==> i < r2.len() && (#[trigger] r1[i]).0 == r2[i].0,
    decreases j,
{
    if j > 0 {
        lemma_offsets_agree(b, ts, lo, hi, r1, r2, j - 1);
    }
    let a = r1[j].0 as int;
    assert(is_match(b, ts, a));
    let k = choose|k: int| 0 <= k < r2.len() && r2[k].0 == a;
    if k < j {
        assert(r1[k].0 == r2[k].0);
    } else if k > j {
        let c = r2[j].0 as int;
        assert(is_match(b, ts, c));
        let k2 = choose|k2: int| 0 <= k2 < r1.len() && r1[k2].0 == c;
        if k2 < j {
            assert(r1[k2].0 == r2[k2].0);
        }
    }
}

/// The matches of a set of targets in a buffer are a function of the buffer:
/// two lists that both report them exactly are the same list.
pub proof fn lemma_reports_unique(
    b: Seq<u8>,
    ts: Seq<Seq<u8>>,
    lo: int,
    hi: int,
    r1: Seq<(usize, usize)>,
    r2: Seq<(usize, usize)>,
)
    requires
        reports_matches(b, ts, lo, hi, r1),
        reports_matches(b, ts, lo, hi, r2),
    ensures
        r1 == r2,
{
    if r1.len() > 0 {
        lemma_offsets_agree(b, ts, lo, hi, r1, r2, r1.len() - 1);
        assert(r1[r1.len() - 1].0 == r2[r1.len() - 1].0);
    }
    if r2.len() > 0 {
        lemma_offsets_agree(b, ts, lo, hi, r2, r1, r2.len() - 1);
        assert(r2[r2.len() - 1].0 == r1[r2.len() - 1].0);
    }
    assert(r1.len() == r2.len());
    assert forall|i: int| 0 <= i < r1.len() implies r1[i].0 == r2[i].0 by {
        assert(r1[i].0 == r2[i].0);
    }
    assert forall|i: int| 0 <= i < r1.len() implies r1[i] == r2[i] by {
        let k1 = r1[i].1 as int;
        let k2 = r2[i].1 as int;
        if k1 < k2 {
            assert(ts[k1] == window(b, r1[i].0 as int));
        } else if k2 < k1 {
            assert(ts[k2] == window(b, r2[i].0 as int));
        }
    }
    assert(r1 =~= r2);
}

/// Scanning a buffer chunk by chunk finds what scanning it whole finds.
pub proof fn lemma_chunked_scan_whole(
    b: Seq<u8>,
    ts: Seq<Seq<u8>>,
    chunked: Seq<(usize, usize)>,
    whole: Seq<(usize, usize)>,
)
    requires
        reports_matches(b, ts, 0, b.len() as int, chunked),
        reports_matches(b, ts, 0, b.len() as int, whole),
    ensures
        chunked == whole,
{
    lemma_reports_unique(b, ts, 0, b.len() as int, chunked, whole);
}

} // verus!

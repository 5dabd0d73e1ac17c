//! Store paths `<hash-part>-<name>`, the names they may carry, and the
//! small path helpers of the store directory.
use crate::hash::{
    b64_text_of, hash_bytes, is_b64url_char, sha512_of, HashAlgo,
};
use crate::scan::HASH_PART_LEN;
use rand::distr::Alphanumeric;
use rand::Rng;
use vstd::prelude::*;
use vstd::string::*;
use vstd::utf8::encode_utf8;

verus! {

/// Suffix of the names of derivation files.
pub const DRV_EXT: &'static str = ".drv";

/// Name of the single output of a fixed-output derivation, and the default one.
pub const DEFAULT_OUT: &'static str = "out";

/// Number of random characters in the name of a temporary file.
pub const NUM_RAND_CHARS: usize = 32;

/// ASCII letters and digits.
pub open spec fn is_alnum(c: char) -> bool {
    ('0' <= c && c <= '9') || ('a' <= c && c <= 'z') || ('A' <= c && c <= 'Z')
}

/// Characters allowed in the name part of a store path.
pub open spec fn is_name_char(c: char) -> bool {
    is_alnum(c) || c == '-' || c == '_' || c == '.'
}

pub open spec fn drv_ext() -> Seq<char> {
    seq!['.', 'd', 'r', 'v']
}

pub open spec fn ends_with(s: Seq<char>, suffix: Seq<char>) -> bool {
    suffix.len() <= s.len() && s.subrange(s.len() - suffix.len(), s.len() as int) == suffix
}

/// A name is at least three characters long (seven for a derivation file,
/// whose name ends with `.drv`) and uses letters, digits, `-`, `_` and `.`.
pub open spec fn valid_name(name: Seq<char>) -> bool {
    let min_len: nat = if ends_with(name, drv_ext()) {
        7
    } else {
        3
    };
    name.len() >= min_len && forall|k: int| 0 <= k < name.len() ==> is_name_char(#[trigger] name[k])
}

/// The first `HASH_PART_LEN` characters of `s`, or all of it if shorter.
pub open spec fn truncate_hash(s: Seq<char>) -> Seq<char> {
    if s.len() > HASH_PART_LEN {
        s.subrange(0, HASH_PART_LEN as int)
    } else {
        s
    }
}

/// The text of the store path that carries digest `d` and `name`.
pub open spec fn path_text(d: Seq<u8>, name: Seq<char>) -> Seq<char> {
    truncate_hash(b64_text_of(d)) + seq!['-'] + name
}

/// The text that `make_path` hashes: `<algo>:<base64>:<name>`.
pub open spec fn make_path_input(h: crate::hash::Hash, name: Seq<char>) -> Seq<char> {
    h.text() + seq![':'] + name
}

/// The path that `make_path` gives for `h` and `name`.
pub open spec fn made_path(h: crate::hash::Hash, name: Seq<char>) -> Seq<char> {
    path_text(sha512_of(encode_utf8(make_path_input(h, name))), name)
}

/// The hash part of a store path as bytes.
pub open spec fn hash_part_bytes(p: Seq<char>) -> Seq<u8> {
    Seq::new(HASH_PART_LEN as nat, |k: int| p[k] as u8)
}

/// A path inside the store, `<hash-part>-<name>`.
#[derive(Clone, Debug, PartialEq, Eq, PartialOrd, Ord, Hash)]
pub struct StorePath {
    pub path: String,
}

impl StorePath {
    pub open spec fn view(&self) -> Seq<char> {
        self.path@
    }

    /// The hash part holds exactly `HASH_PART_LEN` base64url characters,
    /// followed by `-`.
    pub open spec fn wf(&self) -> bool {
        &&& self.path@.len() > HASH_PART_LEN
        &&& forall|k: int| 0 <= k < HASH_PART_LEN ==> is_b64url_char(#[trigger] self.path@[k])
        &&& self.path@[HASH_PART_LEN as int] == '-'
    }

    /// The path with the given digest and name: the base64url text of the
    /// digest, cut to `HASH_PART_LEN` characters, then `-` and the name.
    pub fn new(hash: &crate::hash::Hash, name: &str) -> (r: StorePath)
        requires
            hash.wf(),
        ensures
            r.path@ == path_text(hash.digest(), name@),
            hash.spec_algo() == HashAlgo::Sha512 ==> r.wf(),
            hash.spec_algo() == HashAlgo::Sha512 ==> r.path@.subrange(
                HASH_PART_LEN + 1,
                r.path@.len() as int,
            ) == name@,
    {
        proof {
            reveal_strlit("-");
        }
        let h = hash.base64();
        let n = h.as_str().unicode_len();
        let head = if n > HASH_PART_LEN {
            h.as_str().substring_char(0, HASH_PART_LEN).to_owned()
        } else {
            h
        };
        let r = head.concat("-").concat(name);
        assert(r@ =~= path_text(hash.digest(), name@));
        proof {
            if hash.spec_algo() == HashAlgo::Sha512 {
                assert(r@.subrange(HASH_PART_LEN + 1, r@.len() as int) =~= name@);
            }
        }
        StorePath { path: r }
    }

    /// Wraps a string that is taken to be a store path, unchecked.
    pub fn from_string(s: String) -> (r: StorePath)
        ensures
            r.path@ == s@,
    {
        StorePath { path: s }
    }

    /// The empty path, a stand-in before the real one is known.
    pub fn empty() -> (r: StorePath)
        ensures
            r.path@.len() == 0,
    {
        StorePath { path: String::new() }
    }

    /// The full text of the path.
    pub fn as_str(&self) -> (r: &str)
        ensures
            r@ == self.path@,
    {
        self.path.as_str()
    }

    /// A copy of the path.
    pub fn copy(&self) -> (r: StorePath)
        ensures
            r.path@ == self.path@,
    {
        StorePath { path: self.path.clone() }
    }

    /// What follows the hash part and its `-`.
    pub fn name_part(&self) -> (r: &str)
        requires
            self.path@.len() > HASH_PART_LEN,
        ensures
            r@ == self.path@.subrange(HASH_PART_LEN + 1, self.path@.len() as int),
    {
        let n = self.path.as_str().unicode_len();
        self.path.as_str().substring_char(HASH_PART_LEN + 1, n)
    }

    /// The first `HASH_PART_LEN` characters.
    pub fn hash_part(&self) -> (r: &str)
        requires
            self.path@.len() >= HASH_PART_LEN,
        ensures
            r@ == self.path@.subrange(0, HASH_PART_LEN as int),
    {
        self.path.as_str().substring_char(0, HASH_PART_LEN)
    }

    /// The hash part as bytes.
    pub fn hash_bytes(&self) -> (r: Vec<u8>)
        requires
            self.path@.len() >= HASH_PART_LEN,
        ensures
            r@ == hash_part_bytes(self.path@),
    {
        let s = self.path.as_str();
        let mut r: Vec<u8> = Vec::new();
        let mut k: usize = 0;
        while k < HASH_PART_LEN
            invariant
                k <= HASH_PART_LEN,
                s@ == self.path@,
                self.path@.len() >= HASH_PART_LEN,
                r@.len() == k,
                forall|q: int| 0 <= q < k ==> r@[q] == self.path@[q] as u8,
            decreases HASH_PART_LEN - k,
        {
            let c = s.get_char(k);
            r.push(c as u8);
            k = k + 1;
        }
        assert(r@ =~= hash_part_bytes(self.path@));
        r
    }

    /// Whether the two paths share their hash part.
    pub fn same_hash_part(&self, other: &StorePath) -> (r: bool)
        requires
            self.path@.len() >= HASH_PART_LEN,
            other.path@.len() >= HASH_PART_LEN,
        ensures
            r == (self.path@.subrange(0, HASH_PART_LEN as int) == other.path@.subrange(
                0,
                HASH_PART_LEN as int,
            )),
    {
        let a = self.path.as_str();
        let b = other.path.as_str();
        let mut k: usize = 0;
        while k < HASH_PART_LEN
            invariant
                k <= HASH_PART_LEN,
                a@ == self.path@,
                b@ == other.path@,
                self.path@.len() >= HASH_PART_LEN,
                other.path@.len() >= HASH_PART_LEN,
                forall|q: int| 0 <= q < k ==> self.path@[q] == other.path@[q],
            decreases HASH_PART_LEN - k,
        {
            if a.get_char(k) != b.get_char(k) {
                assert(self.path@.subrange(0, HASH_PART_LEN as int)[k as int] != other.path@.subrange(
                    0,
                    HASH_PART_LEN as int,
                )[k as int]);
                return false;
            }
            k = k + 1;
        }
        assert(self.path@.subrange(0, HASH_PART_LEN as int) =~= other.path@.subrange(
            0,
            HASH_PART_LEN as int,
        ));
        true
    }

    /// Replaces the hash part with that of `rewrite`; the length is kept.
    pub fn rewrite_hash_part(&mut self, rewrite: &StorePath)
        requires
            old(self).path@.len() >= HASH_PART_LEN,
            rewrite.path@.len() >= HASH_PART_LEN,
        ensures
            final(self).path@ == rewrite.path@.subrange(0, HASH_PART_LEN as int) + old(
                self,
            ).path@.subrange(HASH_PART_LEN as int, old(self).path@.len() as int),
            final(self).path@.len() == old(self).path@.len(),
    {
        let n = self.path.as_str().unicode_len();
        let tail = self.path.as_str().substring_char(HASH_PART_LEN, n).to_owned();
        let head = rewrite.path.as_str().substring_char(0, HASH_PART_LEN).to_owned();
        self.path = head.concat(tail.as_str());
    }
}

/// Whether `c` may occur in a store name.
pub fn is_valid_char(c: char) -> (r: bool)
    ensures
        r == is_name_char(c),
{
    ('0' <= c && c <= '9') || ('a' <= c && c <= 'z') || ('A' <= c && c <= 'Z') || c == '-' || c
        == '_' || c == '.'
}

/// Whether `s` ends with `suffix`.
pub fn has_suffix(s: &str, suffix: &str) -> (r: bool)
    ensures
        r == ends_with(s@, suffix@),
{
    let n = s.unicode_len();
    let m = suffix.unicode_len();
    if m > n {
        return false;
    }
    let mut k: usize = 0;
    while k < m
        invariant
            m == suffix@.len(),
            n == s@.len(),
            m <= n,
            k <= m,
            forall|q: int| 0 <= q < k ==> s@[n - m + q] == suffix@[q],
        decreases m - k,
    {
        if s.get_char(n - m + k) != suffix.get_char(k) {
            assert(s@.subrange(n - m, n as int)[k as int] != suffix@[k as int]);
            return false;
        }
        k = k + 1;
    }
    assert(s@.subrange(n - m, n as int) =~= suffix@);
    true
}

/// Whether `name` may name an object of the store.
pub fn is_valid_name(name: &str) -> (r: bool)
    ensures
        r == valid_name(name@),
{
    proof {
        reveal_strlit(".drv");
    }
    let n = name.unicode_len();
    assert(".drv"@ =~= drv_ext());
    let min_len: usize = if has_suffix(name, ".drv") {
        7
    } else {
        3
    };
    if n < min_len {
        return false;
    }
    let mut k: usize = 0;
    while k < n
        invariant
            n == name@.len(),
            k <= n,
            forall|q: int| 0 <= q < k ==> is_name_char(#[trigger] name@[q]),
        decreases n - k,
    {
        if !is_valid_char(name.get_char(k)) {
            return false;
        }
        k = k + 1;
    }
    true
}

/// The equivalence-class path of an output: the SHA-512 digest of
/// `<algo>:<base64>:<name>` made into a store path named `name`.
pub fn make_path(h: &crate::hash::Hash, name: &str) -> (r: StorePath)
    requires
        h.wf(),
    ensures
        r.path@ == made_path(*h, name@),
        r.wf(),
{
    proof {
        reveal_strlit(":");
    }
    let text = h.base64_with_algo().concat(":").concat(name);
    assert(text@ =~= make_path_input(*h, name@));
    let digest = hash_bytes(HashAlgo::Sha512, text.as_str().as_bytes());
    StorePath::new(&digest, name)
}

/// Relies on rand::random: 64 bytes, all of whose values are possible.
#[verifier::external_body]
fn random_bytes() -> (r: Vec<u8>)
    ensures
        r@.len() == 64,
{
    rand::random::<[u8; 64]>().to_vec()
}

/// A SHA-512-shaped hash of random bytes.
pub fn random_hash() -> (r: crate::hash::Hash)
    ensures
        r.wf(),
        r.spec_algo() == HashAlgo::Sha512,
{
    crate::hash::Hash::Sha512(random_bytes())
}

/// A store path with a random hash part and the given name.
pub fn random_path(name: &str) -> (r: StorePath)
    ensures
        r.wf(),
        r.path@.subrange(HASH_PART_LEN + 1, r.path@.len() as int) == name@,
{
    let h = random_hash();
    StorePath::new(&h, name)
}

/// Relies on rand's Alphanumeric distribution, which draws from the ASCII
/// letters and digits.
#[verifier::external_body]
fn random_alphanumeric() -> (r: char)
    ensures
        is_alnum(r),
{
    rand::rng().sample(Alphanumeric) as char
}

/// The name of a temporary file made of the drawn characters: a dot, then
/// the characters.
pub fn tmpname_from(cs: &Vec<char>) -> (r: String)
    requires
        cs@.len() == NUM_RAND_CHARS,
    ensures
        r@ == seq!['.'] + cs@,
{
    proof {
        reveal_strlit(".");
    }
    let mut r = String::from_str(".");
    let mut k: usize = 0;
    while k < cs.len()
        invariant
            k <= cs@.len(),
            r@ == seq!['.'] + cs@.subrange(0, k as int),
        decreases cs@.len() - k,
    {
        push_char(&mut r, cs[k]);
        k = k + 1;
        assert(r@ =~= seq!['.'] + cs@.subrange(0, k as int));
    }
    assert(cs@.subrange(0, k as int) =~= cs@);
    r
}

/// The name of a temporary file of the store: a dot and 32 random letters
/// or digits.
pub fn tmpname() -> (r: String)
    ensures
        r@.len() == NUM_RAND_CHARS + 1,
        r@[0] == '.',
        forall|k: int| 1 <= k < r@.len() ==> is_alnum(#[trigger] r@[k]),
{
    let mut cs: Vec<char> = Vec::new();
    while cs.len() < NUM_RAND_CHARS
        invariant
            cs@.len() <= NUM_RAND_CHARS,
            forall|q: int| 0 <= q < cs@.len() ==> is_alnum(#[trigger] cs@[q]),
        decreases NUM_RAND_CHARS - cs@.len(),
    {
        cs.push(random_alphanumeric());
    }
    let r = tmpname_from(&cs);
    assert forall|k: int| 1 <= k < r@.len() implies is_alnum(#[trigger] r@[k]) by {
        assert(r@[k] == cs@[k - 1]);
    }
    r
}

/// Relies on String::push: the character is appended.
#[verifier::external_body]
pub(crate) fn push_char(s: &mut String, c: char)
    ensures
        final(s)@ == old(s)@.push(c),
{
    s.push(c)
}

/// Whether a path names a temporary file: its last component starts with
/// a dot.
pub fn is_temp(path: &str) -> (r: bool)
    ensures
        exists|start: int|
            is_base_name(path@, start, base_name_end(path@)) && r == (start < base_name_end(path@)
                && path@[start] == '.'),
{
    let (start, end) = base_name_bounds(path);
    start < end && path.get_char(start) == '.'
}

/// The path of the lock file that guards `path`.
pub fn add_lock_ext(path: &str) -> (r: String)
    ensures
        r@ == path@ + seq!['.', 'l', 'o', 'c', 'k'],
{
    proof {
        reveal_strlit(".lock");
    }
    let r = path.to_owned().concat(".lock");
    r
}

/// The end of the last component of `s`: its length, less a trailing `/`.
pub open spec fn base_name_end(s: Seq<char>) -> int {
    if s.len() > 0 && s[s.len() - 1] == '/' {
        s.len() - 1
    } else {
        s.len() as int
    }
}

/// `start..end` is the last component of `s`: no `/` inside, and either a
/// `/` or the start of `s` just before it.
pub open spec fn is_base_name(s: Seq<char>, start: int, end: int) -> bool {
    &&& 0 <= start <= end
    &&& end == base_name_end(s)
    &&& forall|k: int| start <= k < end ==> s[k] != '/'
    &&& (start == 0 || s[start - 1] == '/')
}

/// Where the last component of a slash-separated path starts and ends.
pub fn base_name_bounds(s: &str) -> (r: (usize, usize))
    ensures
        is_base_name(s@, r.0 as int, r.1 as int),
        r.1 <= s@.len(),
{
    let n = s.unicode_len();
    let end = if n > 0 && s.get_char(n - 1) == '/' {
        n - 1
    } else {
        n
    };
    let mut start = end;
    while start > 0 && s.get_char(start - 1) != '/'
        invariant
            start <= end,
            end as int == base_name_end(s@),
            n == s@.len(),
            forall|k: int| start <= k < end ==> s@[k] != '/',
        decreases start,
    {
        start = start - 1;
    }
    (start, end)
}

/// The last component of a slash-separated path, a trailing slash ignored.
pub fn base_name(s: &str) -> (r: String)
    ensures
        exists|start: int| is_base_name(s@, start, base_name_end(s@)) && r@ == s@.subrange(
            start,
            base_name_end(s@),
        ),
{
    let (start, end) = base_name_bounds(s);
    s.substring_char(start, end).to_owned()
}

/// Same as `base_name`, on an owned string.
pub fn to_base_name(s: String) -> (r: String)
    ensures
        exists|start: int| is_base_name(s@, start, base_name_end(s@)) && r@ == s@.subrange(
            start,
            base_name_end(s@),
        ),
{
    base_name(s.as_str())
}

} // verus!

//! Content hashes: the algorithms, their digests and their text form
//! `<algo>:<base64url-no-pad>`.
use base64::prelude::BASE64_URL_SAFE_NO_PAD;
use base64::Engine;
use sha2::Digest;
use vstd::prelude::*;

verus! {

/// The base64url text (no padding) of a byte string.
pub uninterp spec fn b64_text_of(data: Seq<u8>) -> Seq<char>;

/// The SHA-256 digest of a byte string.
pub uninterp spec fn sha256_of(data: Seq<u8>) -> Seq<u8>;

/// The SHA-512 digest of a byte string.
pub uninterp spec fn sha512_of(data: Seq<u8>) -> Seq<u8>;

/// Characters of the base64url alphabet.
pub open spec fn is_b64url_char(c: char) -> bool {
    ('0' <= c && c <= '9') || ('a' <= c && c <= 'z') || ('A' <= c && c <= 'Z') || c == '-' || c
        == '_'
}

/// Length of the unpadded base64 text of `n` bytes.
pub open spec fn b64_len(n: nat) -> nat {
    4 * (n / 3) + (if n % 3 == 1 {
        2nat
    } else if n % 3 == 2 {
        3nat
    } else {
        0nat
    })
}

#[verifier::external_type_specification]
#[verifier::external_body]
pub struct ExDecodeError(base64::DecodeError);

/// Relies on base64's URL-safe engine without padding: the text is made of
/// the URL-safe alphabet and has the documented unpadded length.
#[verifier::external_body]
fn b64_encode(data: &[u8]) -> (r: String)
    requires
        data@.len() <= 1024,
    ensures
        r@ == b64_text_of(data@),
        r@.len() == b64_len(data@.len()),
        forall|k: int| 0 <= k < r@.len() ==> is_b64url_char(#[trigger] r@[k]),
{
    BASE64_URL_SAFE_NO_PAD.encode(data)
}

/// Relies on base64's URL-safe engine without padding, which decodes
/// canonical text only (no padding, no trailing bits): decoding succeeds on
/// the encoding of some bytes, and gives those bytes back.
#[verifier::external_body]
fn b64_decode(text: &str) -> (r: Result<Vec<u8>, base64::DecodeError>)
    ensures
        r is Ok ==> b64_text_of(r->Ok_0@) == text@,
        forall|v: Seq<u8>| #[trigger] b64_text_of(v) == text@ ==> r is Ok && r->Ok_0@ == v,
{
    BASE64_URL_SAFE_NO_PAD.decode(text)
}

/// Relies on sha2::Sha256::digest: a 32-byte digest of the data.
#[verifier::external_body]
fn sha256_digest(data: &[u8]) -> (r: Vec<u8>)
    ensures
        r@ == sha256_of(data@),
        r@.len() == 32,
{
    sha2::Sha256::digest(data).to_vec()
}

/// Relies on sha2::Sha512::digest: a 64-byte digest of the data.
#[verifier::external_body]
fn sha512_digest(data: &[u8]) -> (r: Vec<u8>)
    ensures
        r@ == sha512_of(data@),
        r@.len() == 64,
{
    sha2::Sha512::digest(data).to_vec()
}

#[derive(Clone, Copy, Debug, PartialEq, Eq, Hash, Structural)]
pub enum HashAlgo {
    Sha256,
    Sha512,
}

/// A digest tagged with the algorithm that produced it.
#[derive(Clone, Debug, Hash)]
pub enum Hash {
    Sha256(Vec<u8>),
    Sha512(Vec<u8>),
}

/// The hash text could not be parsed.
#[derive(Clone, Copy, Debug, PartialEq, Eq, Structural)]
pub struct ParseHashError;

/// Length in bytes of a digest of `a`.
pub open spec fn digest_len(a: HashAlgo) -> nat {
    match a {
        HashAlgo::Sha256 => 32,
        HashAlgo::Sha512 => 64,
    }
}

/// The digest of `data` under `a`.
pub open spec fn digest_of(a: HashAlgo, data: Seq<u8>) -> Seq<u8> {
    match a {
        HashAlgo::Sha256 => sha256_of(data),
        HashAlgo::Sha512 => sha512_of(data),
    }
}

/// The name of an algorithm in the text form of a hash.
pub open spec fn algo_name(a: HashAlgo) -> Seq<char> {
    match a {
        HashAlgo::Sha256 => seq!['s', 'h', 'a', '2', '5', '6'],
        HashAlgo::Sha512 => seq!['s', 'h', 'a', '5', '1', '2'],
    }
}

/// `<algo>:<base64url-no-pad of the digest>`.
pub open spec fn hash_text(a: HashAlgo, d: Seq<u8>) -> Seq<char> {
    algo_name(a) + seq![':'] + b64_text_of(d)
}

impl HashAlgo {
    /// The algorithm's name: `sha256` or `sha512`.
    pub fn name(&self) -> (r: String)
        ensures
            r@ == algo_name(*self),
    {
        proof {
            reveal_strlit("sha256");
            reveal_strlit("sha512");
        }
        match self {
            HashAlgo::Sha256 => String::from_str("sha256"),
            HashAlgo::Sha512 => String::from_str("sha512"),
        }
    }
}

impl Hash {
    pub open spec fn spec_algo(&self) -> HashAlgo {
        match self {
            Hash::Sha256(_) => HashAlgo::Sha256,
            Hash::Sha512(_) => HashAlgo::Sha512,
        }
    }

    pub open spec fn digest(&self) -> Seq<u8> {
        match self {
            Hash::Sha256(d) => d@,
            Hash::Sha512(d) => d@,
        }
    }

    /// The digest has the length of its algorithm.
    pub open spec fn wf(&self) -> bool {
        self.digest().len() == digest_len(self.spec_algo())
    }

    pub open spec fn text(&self) -> Seq<char> {
        hash_text(self.spec_algo(), self.digest())
    }

    /// An all-zero SHA-512 digest.
    pub fn placeholder() -> (r: Hash)
        ensures
            r.wf(),
            r.spec_algo() == HashAlgo::Sha512,
            r.digest() == Seq::new(64, |_i: int| 0u8),
    {
        let mut d: Vec<u8> = Vec::new();
        while d.len() < 64
            invariant
                d@.len() <= 64,
                forall|k: int| 0 <= k < d@.len() ==> d@[k] == 0u8,
            decreases 64 - d@.len(),
        {
            d.push(0u8);
        }
        assert(d@ =~= Seq::new(64, |_i: int| 0u8));
        Hash::Sha512(d)
    }

    /// Builds a hash from an algorithm and a digest of the right length.
    pub fn from_digest(algo: HashAlgo, d: Vec<u8>) -> (r: Result<Hash, ParseHashError>)
        ensures
            r is Ok <==> d@.len() == digest_len(algo),
            r is Ok ==> r->Ok_0.spec_algo() == algo && r->Ok_0.digest() == d@ && r->Ok_0.wf(),
    {
        match algo {
            HashAlgo::Sha256 => if d.len() == 32 {
                Ok(Hash::Sha256(d))
            } else {
                Err(ParseHashError)
            },
            HashAlgo::Sha512 => if d.len() == 64 {
                Ok(Hash::Sha512(d))
            } else {
                Err(ParseHashError)
            },
        }
    }

    pub fn algo(&self) -> (r: HashAlgo)
        ensures
            r == self.spec_algo(),
    {
        match self {
            Hash::Sha256(_) => HashAlgo::Sha256,
            Hash::Sha512(_) => HashAlgo::Sha512,
        }
    }

    pub fn digest_as_bytes(&self) -> (r: &[u8])
        ensures
            r@ == self.digest(),
    {
        match self {
            Hash::Sha256(d) => d.as_slice(),
            Hash::Sha512(d) => d.as_slice(),
        }
    }

    /// The digest in base64url without padding.
    pub fn base64(&self) -> (r: String)
        requires
            self.wf(),
        ensures
            r@ == b64_text_of(self.digest()),
            r@.len() == b64_len(self.digest().len()),
            forall|k: int| 0 <= k < r@.len() ==> is_b64url_char(#[trigger] r@[k]),
    {
        b64_encode(self.digest_as_bytes())
    }

    /// The text form `<algo>:<base64>`.
    pub fn base64_with_algo(&self) -> (r: String)
        requires
            self.wf(),
        ensures
            r@ == self.text(),
    {
        proof {
            reveal_strlit(":");
        }
        let name = self.algo().name();
        let with_colon = name.concat(":");
        let b = self.base64();
        let r = with_colon.concat(b.as_str());
        assert(r@ =~= self.text());
        r
    }

    /// Same as `base64_with_algo`.
    pub fn to_string(&self) -> (r: String)
        requires
            self.wf(),
        ensures
            r@ == self.text(),
    {
        self.base64_with_algo()
    }

    /// Parses the text form; any other prefix than `sha256:` or `sha512:`,
    /// a malformed base64 text or a digest of the wrong length is refused.
    pub fn parse(s: &str) -> (r: Result<Hash, ParseHashError>)
        ensures
            r is Ok ==> r->Ok_0.wf() && r->Ok_0.text() == s@,
            r is Err ==> forall|h: Hash| #[trigger] h.wf() ==> h.text() != s@,
            forall|h: Hash|
                #[trigger] h.wf() && h.text() == s@ ==> r is Ok && r->Ok_0.spec_algo()
                    == h.spec_algo() && r->Ok_0.digest() == h.digest(),
    {
        proof {
            reveal_strlit("sha256:");
            reveal_strlit("sha512:");
        }
        let n = s.unicode_len();
        let algo = if has_prefix(s, "sha256:") {
            assert(s@.subrange(0, 7) =~= algo_name(HashAlgo::Sha256) + seq![':']);
            HashAlgo::Sha256
        } else if has_prefix(s, "sha512:") {
            assert(s@.subrange(0, 7) =~= algo_name(HashAlgo::Sha512) + seq![':']);
            HashAlgo::Sha512
        } else {
            proof {
                assert forall|h: Hash| #[trigger] h.wf() implies h.text() != s@ by {
                    if h.text() == s@ {
                        match h.spec_algo() {
                            HashAlgo::Sha256 => assert(s@.subrange(0, 7) =~= "sha256:"@),
                            HashAlgo::Sha512 => assert(s@.subrange(0, 7) =~= "sha512:"@),
                        }
                    }
                }
            }
            return Err(ParseHashError);
        };
        let rest = s.substring_char(7, n);
        assert(s@ =~= s@.subrange(0, 7) + rest@);
        match b64_decode(rest) {
            Ok(d) => {
                let r = Hash::from_digest(algo, d);
                proof {
                    assert forall|h: Hash| #[trigger] h.wf() && h.text() == s@ implies r is Ok
                        && r->Ok_0.spec_algo() == h.spec_algo() && r->Ok_0.digest() == h.digest() by {
                        assert(algo_name(h.spec_algo())[4] == s@[4]);
                        assert(algo_name(algo)[4] == s@[4]);
                        assert((algo_name(h.spec_algo()) + seq![':'] + b64_text_of(h.digest())).subrange(7, s@.len() as int) =~= b64_text_of(h.digest()));
                        assert(s@.subrange(7, s@.len() as int) =~= rest@);
                        assert(b64_text_of(h.digest()) == rest@);
                    }
                    if r is Err {
                        assert forall|h: Hash| #[trigger] h.wf() implies h.text() != s@ by {
                            if h.text() == s@ {
                                assert(algo_name(h.spec_algo())[4] == s@[4]);
                                assert((algo_name(h.spec_algo()) + seq![':'] + b64_text_of(h.digest())).subrange(7, s@.len() as int) =~= b64_text_of(h.digest()));
                                assert(s@.subrange(7, s@.len() as int) =~= rest@);
                            }
                        }
                    }
                }
                r
            },
            Err(_) => {
                proof {
                    assert forall|h: Hash| #[trigger] h.wf() implies h.text() != s@ by {
                        if h.text() == s@ {
                            assert(algo_name(h.spec_algo())[4] == s@[4]);
                            assert((algo_name(h.spec_algo()) + seq![':'] + b64_text_of(h.digest())).subrange(7, s@.len() as int) =~= b64_text_of(h.digest()));
                            assert(s@.subrange(7, s@.len() as int) =~= rest@);
                        }
                    }
                }
                Err(ParseHashError)
            },
        }
    }

    /// A copy of this hash.
    pub fn copy(&self) -> (r: Hash)
        ensures
            r.spec_algo() == self.spec_algo(),
            r.digest() == self.digest(),
    {
        match self {
            Hash::Sha256(d) => Hash::Sha256(d.clone()),
            Hash::Sha512(d) => Hash::Sha512(d.clone()),
        }
    }

    /// Whether two hashes have the same algorithm and digest.
    pub fn same(&self, other: &Hash) -> (r: bool)
        ensures
            r == (self.spec_algo() == other.spec_algo() && self.digest() == other.digest()),
    {
        self.algo() == other.algo() && bytes_eq(self.digest_as_bytes(), other.digest_as_bytes())
    }
}

/// Byte-wise equality.
pub fn bytes_eq(a: &[u8], b: &[u8]) -> (r: bool)
    ensures
        r == (a@ == b@),
{
    if a.len() != b.len() {
        return false;
    }
    let mut k: usize = 0;
    while k < a.len()
        invariant
            a@.len() == b@.len(),
            k <= a@.len(),
            forall|q: int| 0 <= q < k ==> a@[q] == b@[q],
        decreases a@.len() - k,
    {
        if a[k] != b[k] {
            return false;
        }
        k = k + 1;
    }
    assert(a@ =~= b@);
    true
}

/// Whether `s` begins with `p`.
pub fn has_prefix(s: &str, p: &str) -> (r: bool)
    ensures
        r == (p@.len() <= s@.len() && s@.subrange(0, p@.len() as int) == p@),
{
    let n = s.unicode_len();
    let m = p.unicode_len();
    if m > n {
        return false;
    }
    let mut k: usize = 0;
    while k < m
        invariant
            m == p@.len(),
            n == s@.len(),
            m <= n,
            k <= m,
            forall|q: int| 0 <= q < k ==> s@[q] == p@[q],
        decreases m - k,
    {
        if s.get_char(k) != p.get_char(k) {
            assert(s@.subrange(0, m as int)[k as int] != p@[k as int]);
            return false;
        }
        k = k + 1;
    }
    assert(s@.subrange(0, m as int) =~= p@);
    true
}

/// Whether the two strings are equal.
pub fn str_eq(a: &str, b: &str) -> (r: bool)
    ensures
        r == (a@ == b@),
{
    let r = a.unicode_len() == b.unicode_len() && has_prefix(a, b);
    assert(a@.subrange(0, a@.len() as int) =~= a@);
    r
}

/// Hashes `data` with `algo`.
pub fn hash_bytes(algo: HashAlgo, data: &[u8]) -> (r: Hash)
    ensures
        r.wf(),
        r.spec_algo() == algo,
        r.digest() == digest_of(algo, data@),
{
    match algo {
        HashAlgo::Sha256 => Hash::Sha256(sha256_digest(data)),
        HashAlgo::Sha512 => Hash::Sha512(sha512_digest(data)),
    }
}

} // verus!

//! Content hashes: SHA-256 digests in lowercase hexadecimal text.

use crate::text::{chars_of, text_lt, text_of_chars, text_precedes};
use vstd::prelude::*;
use vstd::string::*;
use vstd::utf8::*;

verus! {

/// Number of hexadecimal characters in the text form of a hash.
pub const HASH_HEX_LEN: usize = 64;

/// `c` is a lowercase hexadecimal digit.
pub open spec fn is_lower_hex(c: char) -> bool {
    ('0' <= c && c <= '9') || ('a' <= c && c <= 'f')
}

/// `c` is a hexadecimal digit of either case.
pub open spec fn is_hex(c: char) -> bool {
    is_lower_hex(c) || ('A' <= c && c <= 'F')
}

/// The lowercase form of a hexadecimal digit; other characters are unchanged.
pub open spec fn lower_hex_of(c: char) -> char {
    if 'A' <= c && c <= 'F' {
        ((c as u32) + 32) as char
    } else {
        c
    }
}

/// `s` is the canonical text of a hash: 64 lowercase hexadecimal digits.
pub open spec fn is_hash_text(s: Seq<char>) -> bool {
    &&& s.len() == 64
    &&& forall|i: int| 0 <= i < s.len() ==> is_lower_hex(#[trigger] s[i])
}

/// `s` can be read as a hash: 64 hexadecimal digits of either case.
pub open spec fn is_hash_literal(s: Seq<char>) -> bool {
    &&& s.len() == 64
    &&& forall|i: int| 0 <= i < s.len() ==> is_hex(#[trigger] s[i])
}

/// The canonical text of a literal: every digit in lowercase.
pub open spec fn canonical_hash_text(s: Seq<char>) -> Seq<char> {
    Seq::new(s.len(), |i: int| lower_hex_of(s[i]))
}

/// The SHA-256 digest of `data`, as the digest crate renders it in text.
pub uninterp spec fn sha256_hex(data: Seq<u8>) -> Seq<char>;

/// Calls `sha256::digest` on a byte slice. The contract names the digest and
/// claims of it only its shape: the crate renders the 32 digest bytes with
/// `hex::encode`, which gives 64 lowercase hexadecimal digits.
#[verifier::external_body]
fn digest_hex(data: &[u8]) -> (r: String)
    ensures
        r@ == sha256_hex(data@),
        is_hash_text(r@),
{
    sha256::digest(data)
}

/// The content hash of the bytes `data`, in the model.
pub open spec fn hash_of_bytes(data: Seq<u8>) -> Seq<char> {
    sha256_hex(data)
}

/// The hash of the text `s`, in the model: the digest of its UTF-8 bytes.
pub open spec fn hash_of_text(s: Seq<char>) -> Seq<char> {
    sha256_hex(encode_utf8(s))
}

/// A content hash: 64 lowercase hexadecimal digits.
#[derive(Debug, PartialEq, Eq)]
pub struct Hash {
    hex: String,
}

impl View for Hash {
    type V = Seq<char>;

    closed spec fn view(&self) -> Seq<char> {
        self.hex@
    }
}

impl Clone for Hash {
    fn clone(&self) -> (r: Hash)
        ensures
            r@ == self@,
    {
        Hash { hex: self.hex.clone() }
    }
}

/// Decides whether `c` is a hexadecimal digit of either case.
pub fn hex_digit(c: char) -> (r: bool)
    ensures
        r == is_hex(c),
{
    (c >= '0' && c <= '9') || (c >= 'a' && c <= 'f') || (c >= 'A' && c <= 'F')
}

/// The lowercase form of a hexadecimal digit.
pub fn to_lower_hex(c: char) -> (r: char)
    requires
        is_hex(c),
    ensures
        r == lower_hex_of(c),
        is_lower_hex(r),
{
    if c >= 'A' && c <= 'F' {
        let r = match c {
            'A' => 'a',
            'B' => 'b',
            'C' => 'c',
            'D' => 'd',
            'E' => 'e',
            _ => 'f',
        };
        r
    } else {
        c
    }
}

impl Hash {
    /// Every hash holds canonical hash text.
    pub open spec fn wf(&self) -> bool {
        is_hash_text(self@)
    }

    /// The hash of a text: the digest of its UTF-8 bytes. Used to hash a
    /// sequence of sub-hashes and fields that were joined into one text.
    pub fn new(hash: &str) -> (h: Hash)
        ensures
            h@ == hash_of_text(hash@),
            h.wf(),
    {
        Hash { hex: digest_hex(hash.as_bytes()) }
    }

    /// The content hash of a byte sequence.
    pub fn from(vec: &[u8]) -> (h: Hash)
        ensures
            h@ == hash_of_bytes(vec@),
            h.wf(),
    {
        Hash { hex: digest_hex(vec) }
    }

    /// Reads a hash from its text without hashing: `None` unless the text is
    /// 64 hexadecimal digits; digits are put in lowercase.
    pub fn parse(s: &str) -> (r: Option<Hash>)
        ensures
            r is Some <==> is_hash_literal(s@),
            r matches Some(h) ==> h.wf() && h@ == canonical_hash_text(s@),
    {
        let v = chars_of(s);
        if v.len() != HASH_HEX_LEN {
            return None;
        }
        let mut out: Vec<char> = Vec::new();
        let mut i: usize = 0;
        while i < v.len()
            invariant
                v@ == s@,
                v.len() == 64,
                i <= v.len(),
                out.len() == i,
                forall|j: int| 0 <= j < i ==> is_hex(#[trigger] v@[j]),
                forall|j: int| 0 <= j < i ==> #[trigger] out@[j] == lower_hex_of(v@[j]),
                forall|j: int| 0 <= j < i ==> is_lower_hex(#[trigger] out@[j]),
            decreases v.len() - i,
        {
            let c = v[i];
            if !hex_digit(c) {
                return None;
            }
            out.push(to_lower_hex(c));
            i += 1;
        }
        let hex = text_of_chars(&out);
        assert(hex@ =~= canonical_hash_text(s@));
        Some(Hash { hex })
    }

    /// Takes an already formatted digest as a hash, without hashing it again;
    /// digits are put in lowercase.
    pub fn from_literal(s: &str) -> (h: Hash)
        requires
            is_hash_literal(s@),
        ensures
            h.wf(),
            h@ == canonical_hash_text(s@),
    {
        match Hash::parse(s) {
            Some(h) => h,
            None => vstd::pervasive::unreached(),
        }
    }

    /// The text of the hash.
    pub fn as_string(&self) -> (s: String)
        ensures
            s@ == self@,
    {
        self.hex.clone()
    }

    /// The text of the hash, borrowed.
    pub fn as_str(&self) -> (s: &str)
        ensures
            s@ == self@,
    {
        self.hex.as_str()
    }

    /// Decides whether two hashes are the same.
    pub fn same(&self, other: &Hash) -> (r: bool)
        ensures
            r == (self@ == other@),
    {
        self.hex == other.hex
    }

    /// Decides whether this hash comes strictly before `other` in the
    /// lexicographic order of their texts.
    pub fn precedes(&self, other: &Hash) -> (r: bool)
        ensures
            r == text_lt(self@, other@),
    {
        text_precedes(self.hex.as_str(), other.hex.as_str())
    }
}

/// A literal and its canonical text name the same hash whatever the case of
/// the digits: canonical text is a fixed point, and two literals that differ
/// only in case have the same canonical text.
pub proof fn lemma_canonical_hash_text(s: Seq<char>)
    requires
        is_hash_literal(s),
    ensures
        is_hash_text(canonical_hash_text(s)),
        canonical_hash_text(canonical_hash_text(s)) == canonical_hash_text(s),
        is_hash_text(s) ==> canonical_hash_text(s) == s,
{
    let c = canonical_hash_text(s);
    assert forall|i: int| 0 <= i < c.len() implies is_lower_hex(#[trigger] c[i]) by {
        assert(is_hex(s[i]));
    }
    assert(canonical_hash_text(c) =~= c);
    if is_hash_text(s) {
        assert(c =~= s);
    }
}

/// Objects that are addressed by a hash of their contents.
pub trait DVCSHash {
    /// What makes the object well formed.
    spec fn hashable(&self) -> bool;

    /// The hash of the object, in the model.
    spec fn hash_spec(&self) -> Seq<char>;

    /// Computes the hash of the object.
    fn get_hash(&self) -> (h: Hash)
        requires
            self.hashable(),
        ensures
            h@ == self.hash_spec(),
            h.wf(),
    ;
}

} // verus!

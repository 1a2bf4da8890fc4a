//! SHA-256 digests of backup objects and their hexadecimal names.

use vstd::prelude::*;

use crate::text::{chars_of, digit_char, is_hex_digit_char, string_from_chars};

verus! {

/// An incremental SHA-256 hasher, holding a `sha2::Sha256` in a private
/// field; what it has been fed is named `hashed_bytes`.
#[verifier::external_body]
pub struct Sha256Hasher {
    inner: sha2::Sha256,
}

/// The bytes fed to a hasher so far.
pub uninterp spec fn hashed_bytes(h: Sha256Hasher) -> Seq<u8>;

/// The SHA-256 digest of `data`.
pub uninterp spec fn sha256_of(data: Seq<u8>) -> Seq<u8>;

impl Sha256Hasher {
    /// A hasher that has seen nothing.
    ///
    /// Calls `sha2::Digest::new`.
    #[verifier::external_body]
    pub(crate) fn new() -> (h: Sha256Hasher)
        ensures
            hashed_bytes(h) == Seq::<u8>::empty(),
    {
        Sha256Hasher { inner: <sha2::Sha256 as sha2::Digest>::new() }
    }

    /// Feeds `data` to the hasher.
    ///
    /// Calls `sha2::Digest::update`, which appends `data` to the hashed
    /// input.
    #[verifier::external_body]
    pub(crate) fn update(&mut self, data: &[u8])
        ensures
            hashed_bytes(*final(self)) == hashed_bytes(*old(self)) + data@,
    {
        sha2::Digest::update(&mut self.inner, data)
    }

    /// The digest of everything fed to the hasher.
    ///
    /// Calls `sha2::Digest::finalize`: the SHA-256 digest, 32 bytes, of the
    /// concatenation of all updates.
    #[verifier::external_body]
    pub(crate) fn finalize(self) -> (d: Vec<u8>)
        ensures
            d@ == sha256_of(hashed_bytes(self)),
            d@.len() == 32,
    {
        sha2::Digest::finalize(self.inner).to_vec()
    }
}

/// Lower-case hexadecimal digit for `n < 16`.
pub open spec fn hex_lower_digit(n: int) -> char {
    if n < 10 {
        digit_char(n)
    } else if n == 10 {
        'a'
    } else if n == 11 {
        'b'
    } else if n == 12 {
        'c'
    } else if n == 13 {
        'd'
    } else if n == 14 {
        'e'
    } else {
        'f'
    }
}

/// Each byte of `bytes` as two lower-case hexadecimal digits.
pub open spec fn hex_lower(bytes: Seq<u8>) -> Seq<char>
    decreases bytes.len(),
{
    if bytes.len() == 0 {
        Seq::<char>::empty()
    } else {
        hex_lower(bytes.drop_last()) + seq![
            hex_lower_digit((bytes.last() / 16) as int),
            hex_lower_digit((bytes.last() % 16) as int),
        ]
    }
}

/// The name of a stored object: 64 hexadecimal digits.
pub open spec fn is_object_hash(s: Seq<char>) -> bool {
    s.len() == 64 && forall|i: int| 0 <= i < s.len() ==> is_hex_digit_char(#[trigger] s[i])
}

/// The lower-case hexadecimal digit for `n < 16`.
fn hex_digit(n: u8) -> (c: char)
    requires
        n < 16,
    ensures
        c == hex_lower_digit(n as int),
{
    match n {
        0 => '0',
        1 => '1',
        2 => '2',
        3 => '3',
        4 => '4',
        5 => '5',
        6 => '6',
        7 => '7',
        8 => '8',
        9 => '9',
        10 => 'a',
        11 => 'b',
        12 => 'c',
        13 => 'd',
        14 => 'e',
        _ => 'f',
    }
}

/// `bytes` as lower-case hexadecimal, two digits per byte.
pub fn hex_lower_string(bytes: &[u8]) -> (r: String)
    ensures
        r@ == hex_lower(bytes@),
{
    let mut out: Vec<char> = Vec::new();
    let mut i: usize = 0;
    while i < bytes.len()
        invariant
            i <= bytes.len(),
            out@ == hex_lower(bytes@.take(i as int)),
        decreases bytes.len() - i,
    {
        let b = bytes[i];
        out.push(hex_digit(b / 16));
        out.push(hex_digit(b % 16));
        assert(bytes@.take(i + 1).drop_last() =~= bytes@.take(i as int));
        assert(out@ =~= hex_lower(bytes@.take(i + 1)));
        i += 1;
    }
    assert(bytes@.take(i as int) =~= bytes@);
    string_from_chars(&out)
}

/// The object name of everything fed to `hasher`: its SHA-256 digest in
/// lower-case hexadecimal.
pub(crate) fn object_hash(hasher: Sha256Hasher) -> (r: String)
    ensures
        r@ == hex_lower(sha256_of(hashed_bytes(hasher))),
        is_object_hash(r@),
{
    let digest = hasher.finalize();
    let r = hex_lower_string(digest.as_slice());
    proof {
        law_hex_names_are_object_hashes(digest@);
    }
    r
}

proof fn lemma_hex_lower_len(bytes: Seq<u8>)
    ensures
        hex_lower(bytes).len() == 2 * bytes.len(),
        forall|i: int| 0 <= i < hex_lower(bytes).len() ==> is_hex_digit_char(#[trigger] hex_lower(bytes)[i]),
    decreases bytes.len(),
{
    if bytes.len() > 0 {
        lemma_hex_lower_len(bytes.drop_last());
        let prev = hex_lower(bytes.drop_last());
        let last = bytes.last();
        assert forall|i: int| 0 <= i < hex_lower(bytes).len() implies is_hex_digit_char(
            #[trigger] hex_lower(bytes)[i],
        ) by {
            if i < prev.len() {
                assert(hex_lower(bytes)[i] == prev[i]);
            }
        }
    }
}

/// Every 32-byte digest written in lower-case hexadecimal is an object
/// name that a repository sweep recognizes.
pub proof fn law_hex_names_are_object_hashes(digest: Seq<u8>)
    requires
        digest.len() == 32,
    ensures
        is_object_hash(hex_lower(digest)),
{
    lemma_hex_lower_len(digest);
}

/// Whether `s` names a stored object: exactly 64 ASCII hexadecimal digits.
pub fn is_object_hash_name(s: &str) -> (r: bool)
    ensures
        r == is_object_hash(s@),
{
    let chars = chars_of(s);
    if chars.len() != 64 {
        return false;
    }
    let mut i: usize = 0;
    while i < chars.len()
        invariant
            i <= chars.len() == 64,
            chars@ == s@,
            forall|j: int| 0 <= j < i ==> is_hex_digit_char(#[trigger] chars@[j]),
        decreases chars.len() - i,
    {
        let c = chars[i];
        if !((c >= '0' && c <= '9') || (c >= 'a' && c <= 'f') || (c >= 'A' && c <= 'F')) {
            return false;
        }
        i += 1;
    }
    true
}

/// The digest and size of an object's content, fed in chunks as it is read.
pub struct ObjectHasher {
    hasher: Sha256Hasher,
    size: u64,
}

impl View for ObjectHasher {
    /// The bytes fed so far, and the byte count (saturating at `u64::MAX`).
    type V = (Seq<u8>, u64);

    closed spec fn view(&self) -> (Seq<u8>, u64) {
        (hashed_bytes(self.hasher), self.size)
    }
}

/// `a + b`, or `u64::MAX` when the sum does not fit.
pub open spec fn saturating_sum_u64(a: u64, b: int) -> u64 {
    if a + b > u64::MAX {
        u64::MAX
    } else {
        (a + b) as u64
    }
}

impl ObjectHasher {
    /// A hasher that has seen nothing.
    pub fn new() -> (h: ObjectHasher)
        ensures
            h@.0 == Seq::<u8>::empty(),
            h@.1 == 0,
    {
        ObjectHasher { hasher: Sha256Hasher::new(), size: 0 }
    }

    /// Feeds the next `chunk` of the content.
    pub fn feed(&mut self, chunk: &[u8])
        ensures
            final(self)@.0 == old(self)@.0 + chunk@,
            final(self)@.1 == saturating_sum_u64(old(self)@.1, chunk@.len() as int),
    {
        self.hasher.update(chunk);
        let n: u64 = if chunk.len() as u128 > u64::MAX as u128 {
            u64::MAX
        } else {
            chunk.len() as u64
        };
        self.size = self.size.saturating_add(n);
    }

    /// The object name (lower-case hexadecimal SHA-256 digest) and the
    /// byte count of everything fed.
    pub fn finish(self) -> (r: (String, u64))
        ensures
            r.0@ == hex_lower(sha256_of(self@.0)),
            is_object_hash(r.0@),
            r.1 == self@.1,
    {
        let size = self.size;
        (object_hash(self.hasher), size)
    }
}

} // verus!

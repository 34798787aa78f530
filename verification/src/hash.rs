//! Digests of keys, their order, and the walk over their nibbles.

use crate::constant::{HASH_BYTE_SIZE, MAX_CURSOR_DEPTH};
use crate::error::{Failure, HamtError};
use vstd::prelude::*;

verus! {

/// The digest of a key.
pub type HashOutput = [u8; HASH_BYTE_SIZE];

/// A key that can be hashed, which is done through its bytes.
pub trait AsBytes {
    /// The bytes that are hashed.
    spec fn bytes(&self) -> Seq<u8>;

    /// Returns the bytes that are hashed.
    fn as_byte_slice(&self) -> (res: &[u8])
        ensures
            res@ == self.bytes(),
    ;
}

impl AsBytes for String {
    open spec fn bytes(&self) -> Seq<u8> {
        vstd::utf8::encode_utf8(self@)
    }

    fn as_byte_slice(&self) -> (res: &[u8])
        ensures
            res@ == vstd::utf8::encode_utf8(self@),
    {
        self.as_str().as_bytes()
    }
}

/// The bytes of a string key are all the bytes of its text in UTF-8, so that keys with different
/// texts have different bytes.
pub proof fn law_string_bytes(a: String, b: String)
    ensures
        a.bytes() == vstd::utf8::encode_utf8(a@),
        vstd::utf8::decode_utf8(a.bytes()) == a@,
        a.bytes() == b.bytes() <==> a@ == b@,
{
    vstd::utf8::encode_utf8_decode_utf8(a@);
    vstd::utf8::encode_utf8_decode_utf8(b@);
}

impl<'a> AsBytes for &'a str {
    open spec fn bytes(&self) -> Seq<u8> {
        vstd::utf8::encode_utf8(self@)
    }

    fn as_byte_slice(&self) -> (res: &[u8])
        ensures
            res@ == vstd::utf8::encode_utf8(self@),
    {
        self.as_bytes()
    }
}

/// The bytes of a borrowed string key are all the bytes of its text in UTF-8, as they are of an
/// owned one.
pub proof fn law_str_bytes(a: &str, b: &str, c: String)
    ensures
        AsBytes::bytes(&a) == vstd::utf8::encode_utf8(a@),
        vstd::utf8::decode_utf8(AsBytes::bytes(&a)) == a@,
        AsBytes::bytes(&a) == AsBytes::bytes(&b) <==> a@ == b@,
        AsBytes::bytes(&a) == c.bytes() <==> a@ == c@,
{
    vstd::utf8::encode_utf8_decode_utf8(a@);
    vstd::utf8::encode_utf8_decode_utf8(b@);
    vstd::utf8::encode_utf8_decode_utf8(c@);
}

impl AsBytes for Vec<u8> {
    open spec fn bytes(&self) -> Seq<u8> {
        self@
    }

    fn as_byte_slice(&self) -> (res: &[u8])
        ensures
            res@ == self@,
    {
        self.as_slice()
    }
}

/// The bytes of a byte string key are all of its bytes, so that different byte strings have
/// different bytes.
pub proof fn law_byte_string_bytes(a: Vec<u8>, b: Vec<u8>)
    ensures
        a.bytes().len() == a@.len(),
        forall|i: int| 0 <= i < a@.len() ==> a.bytes()[i] == #[trigger] a@[i],
        a.bytes() == b.bytes() <==> a@ == b@,
{
}

/// A hash function from bytes to digests.
pub trait Hasher {
    /// The digest of the given bytes.
    spec fn digest(bytes: Seq<u8>) -> Seq<u8>;

    /// Generates a hash of the given key.
    fn hash<K: AsBytes>(key: &K) -> (res: HashOutput)
        ensures
            res@ == Self::digest(key.bytes()),
    ;
}

/// The SHA3-256 hash function.
#[derive(Debug, Clone, Copy)]
pub struct Sha3_256;

/// The SHA3-256 digest of `data`.
pub uninterp spec fn sha3_256(data: Seq<u8>) -> Seq<u8>;

/// Calls `sha3::Sha3_256::digest`. It is trusted that the result depends on the
/// bytes of `data` alone; `sha3_256` names it.
#[verifier::external_body]
fn sha3_256_digest(data: &[u8]) -> (res: HashOutput)
    ensures
        res@ == sha3_256(data@),
{
    <sha3::Sha3_256 as sha3::Digest>::digest(data).into()
}

impl Hasher for Sha3_256 {
    open spec fn digest(bytes: Seq<u8>) -> Seq<u8> {
        sha3_256(bytes)
    }

    fn hash<K: AsBytes>(key: &K) -> (res: HashOutput)
        ensures
            res@ == sha3_256(key.bytes()),
    {
        sha3_256_digest(key.as_byte_slice())
    }
}

/// The default hash function is SHA3-256 of all the bytes.
pub proof fn law_default_hasher_is_sha3(bytes: Seq<u8>)
    ensures
        Sha3_256::digest(bytes) == sha3_256(bytes),
{
}

/// A string is hashed by SHA3-256 of its text in UTF-8, and a byte string by SHA3-256 of itself.
pub proof fn law_keys_are_hashed_whole(text: String, data: Vec<u8>)
    ensures
        Sha3_256::digest(text.bytes()) == sha3_256(vstd::utf8::encode_utf8(text@)),
        Sha3_256::digest(data.bytes()) == sha3_256(data@),
{
}

/// The nibble at position `k` of a digest: each byte holds two, the high one first.
pub open spec fn nibble(digest: Seq<u8>, k: int) -> int {
    if k % 2 == 0 {
        digest[k / 2] as int / 16
    } else {
        digest[k / 2] as int % 16
    }
}

/// The order of digests: byte by byte, the first difference decides.
pub open spec fn digest_less(a: Seq<u8>, b: Seq<u8>) -> bool {
    exists|k: int| #[trigger] differs_first_at(a, b, k) && a[k] < b[k]
}

/// Holds if `k` is the first position at which the two digests differ.
pub open spec fn differs_first_at(a: Seq<u8>, b: Seq<u8>, k: int) -> bool {
    &&& 0 <= k < a.len()
    &&& k < b.len()
    &&& a[k] != b[k]
    &&& forall|j: int| 0 <= j < k ==> a[j] == b[j]
}

/// A nibble is one of sixteen values.
pub proof fn lemma_nibble_bound(digest: Seq<u8>, k: int)
    ensures
        0 <= nibble(digest, k) < 16,
{
}

/// Each byte of a digest is made of two nibbles next to each other, the high one first.
pub proof fn law_nibbles_make_digest(digest: Seq<u8>, i: int)
    requires
        0 <= i < digest.len(),
    ensures
        digest[i] == 16 * nibble(digest, 2 * i) + nibble(digest, 2 * i + 1),
        0 <= nibble(digest, 2 * i) < 16,
        0 <= nibble(digest, 2 * i + 1) < 16,
        MAX_CURSOR_DEPTH == 2 * HASH_BYTE_SIZE,
{
    assert((2 * i) / 2 == i && (2 * i + 1) / 2 == i);
    assert((2 * i) % 2 == 0 && (2 * i + 1) % 2 == 1);
}

/// A digest is determined by its nibbles.
pub proof fn lemma_nibbles_determine_digest(a: Seq<u8>, b: Seq<u8>)
    requires
        a.len() == HASH_BYTE_SIZE,
        b.len() == HASH_BYTE_SIZE,
        forall|k: int| 0 <= k < MAX_CURSOR_DEPTH ==> #[trigger] nibble(a, k) == nibble(b, k),
    ensures
        a == b,
{
    assert forall|i: int| 0 <= i < a.len() implies a[i] == b[i] by {
        assert(nibble(a, 2 * i) == nibble(b, 2 * i));
        assert(nibble(a, 2 * i + 1) == nibble(b, 2 * i + 1));
        assert((2 * i) / 2 == i && (2 * i + 1) / 2 == i);
    }
    assert(a =~= b);
}

/// Two different digests of one length differ first somewhere at or after `from`.
proof fn lemma_first_difference(a: Seq<u8>, b: Seq<u8>, from: int) -> (k: int)
    requires
        a.len() == b.len(),
        0 <= from <= a.len(),
        forall|j: int| 0 <= j < from ==> a[j] == b[j],
        a != b,
    ensures
        differs_first_at(a, b, k),
    decreases a.len() - from,
{
    if from == a.len() {
        assert(a =~= b);
        0
    } else if a[from] != b[from] {
        from
    } else {
        lemma_first_difference(a, b, from + 1)
    }
}

/// Of two digests that are the same up to a byte, the one with the smaller byte comes first,
/// whatever follows, and equal digests come in no order.
pub proof fn law_digests_are_ordered_by_first_difference(a: Seq<u8>, b: Seq<u8>, k: int)
    requires
        0 <= k < a.len(),
        k < b.len(),
        forall|j: int| 0 <= j < k ==> a[j] == b[j],
        a[k] < b[k],
    ensures
        digest_less(a, b),
        !digest_less(b, a),
        !digest_less(a, a),
{
    assert(differs_first_at(a, b, k));
    lemma_digest_less_asymmetric(a, b);
    if digest_less(a, a) {
        lemma_digest_less_asymmetric(a, a);
    }
}

/// Of two different digests of one length, one comes before the other.
pub proof fn lemma_digest_less_total(a: Seq<u8>, b: Seq<u8>)
    requires
        a.len() == b.len(),
        a != b,
    ensures
        digest_less(a, b) || digest_less(b, a),
{
    let k = lemma_first_difference(a, b, 0);
    assert(differs_first_at(b, a, k));
}

/// Of two digests at most one comes before the other, and none before itself.
pub proof fn lemma_digest_less_asymmetric(a: Seq<u8>, b: Seq<u8>)
    requires
        digest_less(a, b),
    ensures
        !digest_less(b, a),
        a != b,
{
    let k = choose|k: int| #[trigger] differs_first_at(a, b, k) && a[k] < b[k];
    if digest_less(b, a) {
        let m = choose|m: int| #[trigger] differs_first_at(b, a, m) && b[m] < a[m];
        assert(k == m);
    }
}

/// The order of digests is transitive.
pub proof fn lemma_digest_less_transitive(a: Seq<u8>, b: Seq<u8>, c: Seq<u8>)
    requires
        digest_less(a, b),
        digest_less(b, c),
    ensures
        digest_less(a, c),
{
    let k = choose|k: int| #[trigger] differs_first_at(a, b, k) && a[k] < b[k];
    let m = choose|m: int| #[trigger] differs_first_at(b, c, m) && b[m] < c[m];
    if k < m {
        assert(differs_first_at(a, c, k));
    } else {
        assert(differs_first_at(a, c, m));
    }
}

/// Tells whether two digests are the same.
pub fn digests_equal(a: &HashOutput, b: &HashOutput) -> (res: bool)
    ensures
        res == (a@ == b@),
{
    for i in 0..HASH_BYTE_SIZE
        invariant
            forall|j: int| 0 <= j < i ==> a@[j] == b@[j],
    {
        if a[i] != b[i] {
            return false;
        }
    }
    assert(a@ =~= b@);
    true
}

/// Tells whether `a` comes before `b` in the order of digests.
pub fn digest_before(a: &HashOutput, b: &HashOutput) -> (res: bool)
    ensures
        res == digest_less(a@, b@),
{
    for i in 0..HASH_BYTE_SIZE
        invariant
            forall|j: int| 0 <= j < i ==> a@[j] == b@[j],
    {
        if a[i] != b[i] {
            assert(differs_first_at(a@, b@, i as int));
            return a[i] < b[i];
        }
    }
    assert(a@ =~= b@);
    false
}

/// A walk over the nibbles of a digest.
#[derive(Debug)]
pub struct HashNibbles<'a> {
    /// The digest that is walked.
    pub digest: &'a HashOutput,
    /// The position of the next nibble.
    pub cursor: usize,
}

impl<'a> HashNibbles<'a> {
    /// Starts a walk at the first nibble.
    pub fn new(digest: &'a HashOutput) -> (res: Self)
        ensures
            res.digest@ == digest@,
            res.cursor == 0,
    {
        Self::with_cursor(digest, 0)
    }

    /// Starts a walk at the given position.
    pub fn with_cursor(digest: &'a HashOutput, cursor: usize) -> (res: Self)
        ensures
            res.digest@ == digest@,
            res.cursor == cursor,
    {
        HashNibbles { digest, cursor }
    }

    /// Takes the next nibble, or fails if all of them have been taken.
    pub fn try_next(&mut self) -> (res: Result<usize, HamtError>)
        ensures
            final(self).digest@ == old(self).digest@,
            match res {
                Ok(n) => {
                    &&& old(self).cursor < MAX_CURSOR_DEPTH
                    &&& n == nibble(old(self).digest@, old(self).cursor as int)
                    &&& final(self).cursor == old(self).cursor + 1
                },
                Err(e) => {
                    &&& old(self).cursor >= MAX_CURSOR_DEPTH
                    &&& e@ == Failure::CursorOutOfBounds
                    &&& final(self).cursor == old(self).cursor
                },
            },
    {
        if self.cursor >= MAX_CURSOR_DEPTH {
            return Err(HamtError::CursorOutOfBounds);
        }
        let byte: u8 = self.digest[self.cursor / 2];
        assert(byte >> 4 == byte / 16 && byte & 0x0f == byte % 16) by (bit_vector);
        let n: u8 = if self.cursor % 2 == 0 {
            byte >> 4
        } else {
            byte & 0x0f
        };
        self.cursor = self.cursor + 1;
        Ok(n as usize)
    }

    /// Returns the position of the next nibble.
    pub fn get_cursor(&self) -> (res: usize)
        ensures
            res == self.cursor,
    {
        self.cursor
    }
}

} // verus!

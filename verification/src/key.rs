//! Keys, the XOR distance between them, and the bucket a distance falls in.

use vstd::prelude::*;
use vstd::std_specs::cmp::PartialEqSpecImpl;
use vstd::utf8::encode_utf8;
use sha2::{Digest, Sha256};
use vstd::arithmetic::power2::{lemma2_to64, lemma_pow2_adds, pow2};
use crate::text::{bytes_written, write_bytes};
use crate::KEY_LEN;

verus! {

/// A 256-bit identifier, most significant byte first.
#[derive(Debug, Hash)]
pub struct Key(pub [u8; KEY_LEN]);

impl Clone for Key {
    fn clone(&self) -> (r: Key)
        ensures
            r == *self,
    {
        Key(self.0)
    }
}

/// The XOR of two keys, read as a 256-bit magnitude.
#[derive(Clone, Copy, Debug, Hash, Ord)]
pub struct Distance(pub [u8; KEY_LEN]);

impl View for Key {
    type V = Seq<u8>;

    open spec fn view(&self) -> Seq<u8> {
        self.0@
    }
}

impl View for Distance {
    type V = Seq<u8>;

    open spec fn view(&self) -> Seq<u8> {
        self.0@
    }
}

/// Whether two 32-byte arrays hold the same bytes.
pub fn bytes_equal(a: &[u8; KEY_LEN], b: &[u8; KEY_LEN]) -> (r: bool)
    ensures
        r == (a@ == b@),
{
    let mut i: usize = 0;
    while i < KEY_LEN
        invariant
            i <= KEY_LEN,
            forall|j: int| 0 <= j < i ==> a@[j] == b@[j],
        decreases KEY_LEN - i,
    {
        if a[i] != b[i] {
            return false;
        }
        i += 1;
    }
    assert(a@ =~= b@);
    true
}

impl PartialEq for Key {
    fn eq(&self, other: &Key) -> (r: bool) {
        bytes_equal(&self.0, &other.0)
    }
}

impl PartialEqSpecImpl for Key {
    open spec fn obeys_eq_spec() -> bool {
        true
    }

    open spec fn eq_spec(&self, other: &Key) -> bool {
        self@ == other@
    }
}

impl Eq for Key {

}

impl PartialEq for Distance {
    fn eq(&self, other: &Distance) -> (r: bool) {
        bytes_equal(&self.0, &other.0)
    }
}

impl PartialEqSpecImpl for Distance {
    open spec fn obeys_eq_spec() -> bool {
        true
    }

    open spec fn eq_spec(&self, other: &Distance) -> bool {
        self@ == other@
    }
}

impl Eq for Distance {

}

/// The SHA-256 digest of a byte string. It is given no definition here:
/// all that is known of it is that equal inputs have equal digests.
pub uninterp spec fn sha256_digest(data: Seq<u8>) -> Seq<u8>;

/// The key that a text hashes to: the SHA-256 digest of its UTF-8 encoding.
pub open spec fn key_of(text: Seq<char>) -> Seq<u8> {
    sha256_digest(encode_utf8(text))
}

/// Calls `sha2::Sha256::digest`. Trusted, not proved: the 32 bytes
/// returned are the SHA-256 digest of `data`, the same for the same bytes
/// on every call.
#[verifier::external_body]
fn sha256(data: &[u8]) -> (digest: [u8; KEY_LEN])
    ensures
        digest@ == sha256_digest(data@),
{
    Sha256::digest(data).into()
}

impl Key {
    /// The key byte by byte in upper-case hex, each byte without leading
    /// zero.
    pub fn hex_string(&self) -> (text: String)
        ensures
            text@ == bytes_written(self@, true),
    {
        write_bytes(&self.0, true)
    }

    /// Hashes `input` to a key.
    pub fn new(input: String) -> (key: Key)
        ensures
            key@ == key_of(input@),
    {
        Key(sha256(input.as_str().as_bytes()))
    }
}

/// Byte-wise XOR of two byte strings of one length.
pub open spec fn xor_bytes(a: Seq<u8>, b: Seq<u8>) -> Seq<u8> {
    Seq::new(a.len(), |i: int| a[i] ^ b[i])
}

/// The number that a byte string spells, most significant byte first.
pub open spec fn be_value(bytes: Seq<u8>) -> nat
    decreases bytes.len(),
{
    if bytes.len() == 0 {
        0
    } else {
        be_value(bytes.drop_last()) * 256 + bytes.last() as nat
    }
}

/// Bit `j` of a byte, counted from its most significant bit.
pub open spec fn byte_bit(b: u8, j: int) -> bool {
    (b >> ((7 - j) as u8)) & 1u8 == 1u8
}

/// Bit `p` of a byte string, counted from the most significant bit of byte 0.
pub open spec fn bit_at(bytes: Seq<u8>, p: int) -> bool {
    byte_bit(bytes[p / 8], p % 8)
}

/// The position of the first set bit at or after `from`, and 255 where
/// none is set before the last bit.
pub open spec fn first_set_bit(bytes: Seq<u8>, from: int) -> int
    decreases 256 - from,
{
    if from >= 255 {
        255
    } else if bit_at(bytes, from) {
        from
    } else {
        first_set_bit(bytes, from + 1)
    }
}

/// The bucket that a distance falls in: the number of its leading zero
/// bits, and the last bucket for distance zero.
pub open spec fn bucket_of(d: Seq<u8>) -> int {
    first_set_bit(d, 0)
}

impl Distance {
    /// The distance as a number.
    pub open spec fn value(&self) -> nat {
        be_value(self@)
    }

    /// The distance between two keys.
    pub fn new(k1: &Key, k2: &Key) -> (d: Distance)
        ensures
            d@ == xor_bytes(k1@, k2@),
    {
        let mut ret = [0u8; KEY_LEN];
        let mut i: usize = 0;
        while i < KEY_LEN
            invariant
                i <= KEY_LEN,
                forall|j: int| 0 <= j < i ==> ret@[j] == k1@[j] ^ k2@[j],
            decreases KEY_LEN - i,
        {
            ret[i] = k1.0[i] ^ k2.0[i];
            i += 1;
        }
        Distance(ret)
    }

    /// The bucket this distance falls in.
    pub fn bucket_index(&self) -> (r: usize)
        ensures
            r == bucket_of(self@),
            r < 256,
    {
        let mut i: usize = 0;
        while i < KEY_LEN
            invariant
                i <= KEY_LEN,
                bucket_of(self@) == first_set_bit(self@, i * 8),
            decreases KEY_LEN - i,
        {
            let byte = self.0[i];
            let mut j: u8 = 0;
            while j < 8
                invariant
                    i < KEY_LEN,
                    j <= 8,
                    byte == self@[i as int],
                    bucket_of(self@) == first_set_bit(self@, i * 8 + j),
                decreases 8 - j,
            {
                if (byte >> (7 - j)) & 1 != 0 {
                    assert((byte >> (7 - j) as u8) & 1u8 == 1u8) by (bit_vector)
                        requires
                            (byte >> (7 - j) as u8) & 1u8 != 0u8,
                    ;
                    return i * 8 + j as usize;
                }
                j += 1;
            }
            i += 1;
        }
        255
    }
}

impl Distance {
    /// The distance byte by byte in upper-case hex, each byte without
    /// leading zero.
    pub fn hex_string(&self) -> (text: String)
        ensures
            text@ == bytes_written(self@, true),
    {
        write_bytes(&self.0, true)
    }

    /// The distance byte by byte in binary, each byte without leading
    /// zeros.
    pub fn binary_string(&self) -> (text: String)
        ensures
            text@ == bytes_written(self@, false),
    {
        write_bytes(&self.0, false)
    }

    /// Whether `self` is the smaller distance.
    pub fn closer_than(&self, other: &Distance) -> (r: bool)
        ensures
            r == (self.value() < other.value()),
    {
        let mut i: usize = 0;
        while i < KEY_LEN
            invariant
                i <= KEY_LEN,
                forall|j: int| 0 <= j < i ==> self@[j] == other@[j],
            decreases KEY_LEN - i,
        {
            if self.0[i] < other.0[i] {
                proof {
                    lemma_first_difference_decides(self@, other@, i as int);
                }
                return true;
            }
            if self.0[i] > other.0[i] {
                proof {
                    lemma_first_difference_decides(other@, self@, i as int);
                }
                return false;
            }
            i += 1;
        }
        assert(self@ =~= other@);
        false
    }
}

/// Two byte strings of one length that agree before position `i`, the
/// first smaller at `i`: the first spells the smaller number.
pub proof fn lemma_first_difference_decides(a: Seq<u8>, b: Seq<u8>, i: int)
    requires
        a.len() == b.len(),
        0 <= i < a.len(),
        forall|j: int| 0 <= j < i ==> a[j] == b[j],
        a[i] < b[i],
    ensures
        be_value(a) < be_value(b),
    decreases a.len(),
{
    if i == a.len() - 1 {
        assert(a.drop_last() =~= b.drop_last());
    } else {
        lemma_first_difference_decides(a.drop_last(), b.drop_last(), i);
    }
}

/// Byte strings of one length that spell the same number are the same.
pub proof fn lemma_value_injective(a: Seq<u8>, b: Seq<u8>)
    requires
        a.len() == b.len(),
        be_value(a) == be_value(b),
    ensures
        a == b,
    decreases a.len(),
{
    if a.len() > 0 {
        lemma_value_injective(a.drop_last(), b.drop_last());
        assert(a =~= a.drop_last().push(a.last()));
    }
}

impl Key {
    /// The bucket in which a table owned by `self` keeps `other`.
    pub fn bucket_index(&self, other: &Key) -> (r: usize)
        ensures
            r == bucket_of(xor_bytes(self@, other@)),
            r < 256,
    {
        Distance::new(self, other).bucket_index()
    }
}

/// The distance between two keys is the same in both directions.
pub proof fn lemma_distance_symmetric(a: Key, b: Key)
    ensures
        xor_bytes(a@, b@) == xor_bytes(b@, a@),
{
    assert forall|i: int| 0 <= i < KEY_LEN implies a@[i] ^ b@[i] == b@[i] ^ a@[i] by {
        let x = a@[i];
        let y = b@[i];
        assert(x ^ y == y ^ x) by (bit_vector);
    }
}

/// A byte string of zeros spells zero.
pub proof fn lemma_zero_bytes_value(bytes: Seq<u8>)
    requires
        forall|i: int| 0 <= i < bytes.len() ==> bytes[i] == 0,
    ensures
        be_value(bytes) == 0,
    decreases bytes.len(),
{
    if bytes.len() > 0 {
        lemma_zero_bytes_value(bytes.drop_last());
    }
}

/// The distance from a key to itself is zero.
pub proof fn lemma_distance_to_self(a: Key)
    ensures
        forall|i: int| 0 <= i < KEY_LEN ==> xor_bytes(a@, a@)[i] == 0,
        be_value(xor_bytes(a@, a@)) == 0,
{
    assert forall|i: int| 0 <= i < KEY_LEN implies xor_bytes(a@, a@)[i] == 0 by {
        let x = a@[i];
        assert(x ^ x == 0) by (bit_vector);
    }
    lemma_zero_bytes_value(xor_bytes(a@, a@));
}

/// Only a key itself is at distance zero from it.
pub proof fn lemma_distance_zero_is_same_key(a: Key, b: Key)
    requires
        be_value(xor_bytes(a@, b@)) == 0,
    ensures
        a == b,
{
    lemma_distance_to_self(a);
    lemma_value_injective(xor_bytes(a@, b@), xor_bytes(a@, a@));
    lemma_distance_symmetric(a, b);
    lemma_same_distance_same_key(b, a, a);
}

/// Two keys at the same distance from a third are the same key.
pub proof fn lemma_same_distance_same_key(a: Key, b: Key, k: Key)
    requires
        xor_bytes(a@, k@) == xor_bytes(b@, k@),
    ensures
        a == b,
{
    assert forall|i: int| 0 <= i < KEY_LEN implies a@[i] == b@[i] by {
        let x = a@[i];
        let y = b@[i];
        let z = k@[i];
        assert(xor_bytes(a@, k@)[i] == x ^ z);
        assert(x ^ z == y ^ z ==> x == y) by (bit_vector);
    }
    assert(a.0 =~= b.0);
}

/// XOR never exceeds the sum, number for number.
pub proof fn lemma_xor_at_most_sum(x: Seq<u8>, y: Seq<u8>)
    requires
        x.len() == y.len(),
    ensures
        be_value(xor_bytes(x, y)) <= be_value(x) + be_value(y),
    decreases x.len(),
{
    if x.len() > 0 {
        lemma_xor_at_most_sum(x.drop_last(), y.drop_last());
        assert(xor_bytes(x, y).drop_last() =~= xor_bytes(x.drop_last(), y.drop_last()));
        let p = x.last();
        let q = y.last();
        assert(p ^ q <= p + q) by (bit_vector);
    }
}

/// The distance from a to c is the XOR of the distances from a to b and
/// from b to c, and so at most their sum.
pub proof fn lemma_distance_triangle(a: Key, b: Key, c: Key)
    ensures
        xor_bytes(a@, c@) == xor_bytes(xor_bytes(a@, b@), xor_bytes(b@, c@)),
        be_value(xor_bytes(a@, c@)) <= be_value(xor_bytes(a@, b@)) + be_value(
            xor_bytes(b@, c@),
        ),
{
    assert forall|i: int| 0 <= i < KEY_LEN implies a@[i] ^ c@[i] == (a@[i] ^ b@[i]) ^ (b@[i]
        ^ c@[i]) by {
        let x = a@[i];
        let y = b@[i];
        let z = c@[i];
        assert(x ^ z == (x ^ y) ^ (y ^ z)) by (bit_vector);
    }
    lemma_xor_at_most_sum(xor_bytes(a@, b@), xor_bytes(b@, c@));
}

/// Where `first_set_bit` lands: on a set bit with none set between `from`
/// and it, or on the last bit.
pub proof fn lemma_first_set_bit(bytes: Seq<u8>, from: int)
    requires
        0 <= from <= 255,
    ensures
        from <= first_set_bit(bytes, from) <= 255,
        forall|p: int| from <= p < first_set_bit(bytes, from) ==> !bit_at(bytes, p),
        first_set_bit(bytes, from) < 255 ==> bit_at(bytes, first_set_bit(bytes, from)),
    decreases 255 - from,
{
    if from < 255 && !bit_at(bytes, from) {
        lemma_first_set_bit(bytes, from + 1);
    }
}

/// A byte whose first `z` bits are clear and whose next bit, if it has
/// one, is set: zero for `z == 8`, else between 2^(7-z) and 2^(8-z).
proof fn lemma_byte_from_leading_bits(b: u8, z: int)
    requires
        0 <= z <= 8,
        forall|j: int| 0 <= j < z ==> !byte_bit(b, j),
        z < 8 ==> byte_bit(b, z),
    ensures
        z == 8 ==> b == 0,
        z < 8 ==> pow2((7 - z) as nat) <= b < pow2((8 - z) as nat),
{
    lemma2_to64();
    assert(z > 0 ==> !byte_bit(b, 0));
    assert(z > 1 ==> !byte_bit(b, 1));
    assert(z > 2 ==> !byte_bit(b, 2));
    assert(z > 3 ==> !byte_bit(b, 3));
    assert(z > 4 ==> !byte_bit(b, 4));
    assert(z > 5 ==> !byte_bit(b, 5));
    assert(z > 6 ==> !byte_bit(b, 6));
    assert(z > 7 ==> !byte_bit(b, 7));
    let b0 = (b >> 7u8) & 1u8 == 1u8;
    let b1 = (b >> 6u8) & 1u8 == 1u8;
    let b2 = (b >> 5u8) & 1u8 == 1u8;
    let b3 = (b >> 4u8) & 1u8 == 1u8;
    let b4 = (b >> 3u8) & 1u8 == 1u8;
    let b5 = (b >> 2u8) & 1u8 == 1u8;
    let b6 = (b >> 1u8) & 1u8 == 1u8;
    let b7 = (b >> 0u8) & 1u8 == 1u8;
    assert({
        &&& (b0 ==> 128 <= b)
        &&& (!b0 && b1 ==> 64 <= b < 128)
        &&& (!b0 && !b1 && b2 ==> 32 <= b < 64)
        &&& (!b0 && !b1 && !b2 && b3 ==> 16 <= b < 32)
        &&& (!b0 && !b1 && !b2 && !b3 && b4 ==> 8 <= b < 16)
        &&& (!b0 && !b1 && !b2 && !b3 && !b4 && b5 ==> 4 <= b < 8)
        &&& (!b0 && !b1 && !b2 && !b3 && !b4 && !b5 && b6 ==> 2 <= b < 4)
        &&& (!b0 && !b1 && !b2 && !b3 && !b4 && !b5 && !b6 && b7 ==> b == 1)
        &&& (!b0 && !b1 && !b2 && !b3 && !b4 && !b5 && !b6 && !b7 ==> b == 0)
    }) by (bit_vector)
        requires
            b0 == ((b >> 7u8) & 1u8 == 1u8),
            b1 == ((b >> 6u8) & 1u8 == 1u8),
            b2 == ((b >> 5u8) & 1u8 == 1u8),
            b3 == ((b >> 4u8) & 1u8 == 1u8),
            b4 == ((b >> 3u8) & 1u8 == 1u8),
            b5 == ((b >> 2u8) & 1u8 == 1u8),
            b6 == ((b >> 1u8) & 1u8 == 1u8),
            b7 == ((b >> 0u8) & 1u8 == 1u8),
    ;
}

/// Bounds on the number that the first `k` bytes spell, where bytes before
/// `i` are zero and byte `i` lies between 2^(7-z) and 2^(8-z).
proof fn lemma_prefix_bounds(d: Seq<u8>, i: int, z: int, k: int)
    requires
        0 <= i < k <= d.len(),
        0 <= z < 8,
        forall|j: int| 0 <= j < i ==> d[j] == 0,
        pow2((7 - z) as nat) <= d[i] < pow2((8 - z) as nat),
    ensures
        pow2((7 - z + 8 * (k - i - 1)) as nat) <= be_value(d.take(k)) < pow2(
            (8 - z + 8 * (k - i - 1)) as nat,
        ),
    decreases k,
{
    assert(d.take(k).drop_last() =~= d.take(k - 1));
    if k == i + 1 {
        lemma_zero_bytes_value(d.take(i));
    } else {
        lemma_prefix_bounds(d, i, z, k - 1);
        let n = (7 - z + 8 * (k - i - 2)) as nat;
        lemma_pow2_adds(n, 8);
        lemma_pow2_adds(n + 1, 8);
        lemma2_to64();
    }
}

/// A distance other than zero in bucket i lies between 2^(255-i) and
/// 2^(256-i).
pub proof fn lemma_bucket_bounds(d: Distance)
    requires
        d.value() > 0,
    ensures
        pow2((255 - bucket_of(d@)) as nat) <= d.value() < pow2((256 - bucket_of(d@)) as nat),
{
    let r = bucket_of(d@);
    lemma_first_set_bit(d@, 0);
    let i = r / 8;
    let z = r % 8;
    assert forall|k: int| 0 <= k < i implies d@[k] == 0 by {
        assert forall|j: int| 0 <= j < 8 implies !byte_bit(d@[k], j) by {
            let p = 8 * k + j;
            assert(!bit_at(d@, p));
        }
        lemma_byte_from_leading_bits(d@[k], 8);
    }
    assert forall|j: int| 0 <= j < z implies !byte_bit(d@[i], j) by {
        let p = 8 * i + j;
        assert(!bit_at(d@, p));
    }
    if !bit_at(d@, r) {
        lemma_byte_from_leading_bits(d@[31], 8);
        lemma_zero_bytes_value(d@);
    }
    lemma_byte_from_leading_bits(d@[i], z);
    lemma_prefix_bounds(d@, i, z, 32);
    assert(d@.take(32) =~= d@);
}

} // verus!

//! Peer identities, content keys and the XOR distance between them.
use vstd::prelude::*;
use crate::hex::{decode_hex, decoded, encode_hex, encoded, is_hex};

verus! {

/// Number of bytes in an identifier of the key space.
pub const ID_LEN: usize = 32;

/// Number of bits in an identifier of the key space.
pub const ID_BITS: usize = 256;

/// A fixed-size identifier of the key space. Peers and content keys share it.
#[derive(Clone, Copy, Debug, Hash)]
pub struct PeerId {
    bytes: [u8; 32],
}

/// Content hashes live in the same key space as peers.
pub type ContentKey = PeerId;

impl View for PeerId {
    type V = Seq<u8>;

    closed spec fn view(&self) -> Seq<u8> {
        self.bytes@
    }
}

/// The XOR of two byte strings of equal length.
pub open spec fn xor_seq(a: Seq<u8>, b: Seq<u8>) -> Seq<u8> {
    Seq::new(a.len(), |i: int| a[i] ^ b[i])
}

/// `a` is smaller than `b` when both are read as big-endian unsigned integers
/// of the same width: they agree up to some byte, where `a` is smaller.
pub open spec fn seq_lt(a: Seq<u8>, b: Seq<u8>) -> bool {
    exists|i: int|
        0 <= i < a.len() && i < b.len() && a[i] < b[i] && (forall|j: int| 0 <= j < i ==> a[j] == b[j])
}

/// The distance between two identifiers.
pub open spec fn dist(a: PeerId, b: PeerId) -> Seq<u8> {
    xor_seq(a@, b@)
}

/// `a` is strictly closer to `target` than `b` is.
pub open spec fn closer(a: PeerId, b: PeerId, target: PeerId) -> bool {
    seq_lt(dist(a, target), dist(b, target))
}

/// Bit `i` of `s`, most significant bit of the first byte first.
pub open spec fn bit(s: Seq<u8>, i: int) -> bool {
    ((s[i / 8] >> ((7 - i % 8) as u8)) & 1u8) == 1u8
}

/// Length of the common bit prefix of `a` and `b`, looking from bit `i` on.
pub open spec fn prefix_from(a: Seq<u8>, b: Seq<u8>, i: nat) -> nat
    decreases ID_BITS - i,
{
    if i >= ID_BITS {
        ID_BITS as nat
    } else if bit(a, i as int) != bit(b, i as int) {
        i
    } else {
        prefix_from(a, b, i + 1)
    }
}

/// Length of the common bit prefix of two identifiers.
pub open spec fn prefix_len(a: PeerId, b: PeerId) -> nat {
    prefix_from(a@, b@, 0)
}

/// The error of an identifier built from a byte string of the wrong length.
#[derive(Clone, Copy, Debug, PartialEq, Eq, Structural)]
pub enum IdError {
    InvalidLength,
    /// Text that is not hexadecimal digits, two for each byte.
    InvalidHex,
}

pub proof fn lemma_id_len(a: PeerId)
    ensures
        #[trigger] a@.len() == ID_LEN,
{
}

pub proof fn lemma_view_injective(a: PeerId, b: PeerId)
    requires
        a@ == b@,
    ensures
        a == b,
{
    assert(a.bytes =~= b.bytes);
}

impl PeerId {
    /// Builds an identifier from exactly `ID_LEN` bytes.
    pub fn from_bytes(b: &[u8]) -> (r: Result<PeerId, IdError>)
        ensures
            b@.len() == ID_LEN ==> (r matches Ok(id) && id@ == b@),
            b@.len() != ID_LEN ==> r == Err::<PeerId, IdError>(IdError::InvalidLength),
    {
        if b.len() != ID_LEN {
            return Err(IdError::InvalidLength);
        }
        let mut bytes = [0u8; 32];
        let mut i: usize = 0;
        while i < ID_LEN
            invariant
                b@.len() == ID_LEN,
                i <= ID_LEN,
                forall|j: int| 0 <= j < i ==> bytes@[j] == b@[j],
            decreases ID_LEN - i,
        {
            bytes[i] = b[i];
            i += 1;
        }
        let r = PeerId { bytes };
        assert(r@ =~= b@);
        Ok(r)
    }

    /// The identifier's bytes.
    pub fn to_bytes(&self) -> (r: Vec<u8>)
        ensures
            r@ == self@,
    {
        let mut v: Vec<u8> = Vec::new();
        let mut i: usize = 0;
        while i < ID_LEN
            invariant
                i <= ID_LEN,
                v@ =~= self@.subrange(0, i as int),
            decreases ID_LEN - i,
        {
            v.push(self.bytes[i]);
            i += 1;
        }
        assert(v@ =~= self@);
        v
    }

    /// The identifier as lowercase hexadecimal text.
    pub fn to_hex(&self) -> (r: Vec<u8>)
        ensures
            r@ == encoded(self@),
    {
        let b = self.to_bytes();
        encode_hex(b.as_slice())
    }

    /// Reads an identifier written as hexadecimal text.
    pub fn from_hex(s: &[u8]) -> (r: Result<PeerId, IdError>)
        ensures
            !is_hex(s@) ==> r == Err::<PeerId, IdError>(IdError::InvalidHex),
            is_hex(s@) && decoded(s@).len() != ID_LEN ==> r == Err::<PeerId, IdError>(IdError::InvalidLength),
            is_hex(s@) && decoded(s@).len() == ID_LEN ==> (r matches Ok(id) && id@ == decoded(s@)),
    {
        match decode_hex(s) {
            Some(b) => PeerId::from_bytes(b.as_slice()),
            None => Err(IdError::InvalidHex),
        }
    }

    /// Byte `i` of the identifier.
    pub fn byte(&self, i: usize) -> (r: u8)
        requires
            i < ID_LEN,
        ensures
            r == self@[i as int],
    {
        self.bytes[i]
    }

    /// Whether two identifiers are the same.
    pub fn same_as(&self, other: &PeerId) -> (r: bool)
        ensures
            r == (self@ == other@),
            r == (*self == *other),
    {
        let mut i: usize = 0;
        while i < ID_LEN
            invariant
                i <= ID_LEN,
                forall|j: int| 0 <= j < i ==> self@[j] == other@[j],
            decreases ID_LEN - i,
        {
            if self.bytes[i] != other.bytes[i] {
                return false;
            }
            i += 1;
        }
        assert(self@ =~= other@);
        proof { lemma_view_injective(*self, *other); }
        true
    }
}

/// How one distance compares with another.
#[derive(Clone, Copy, Debug, PartialEq, Eq, Structural)]
pub enum Order {
    Less,
    Equal,
    Greater,
}

/// Compares the distances of `a` and `b` to `target`.
pub fn compare_distance(a: &PeerId, b: &PeerId, target: &PeerId) -> (r: Order)
    ensures
        r == Order::Less <==> closer(*a, *b, *target),
        r == Order::Greater <==> closer(*b, *a, *target),
        r == Order::Equal <==> *a == *b,
{
    let mut i: usize = 0;
    while i < ID_LEN
        invariant
            i <= ID_LEN,
            forall|j: int| 0 <= j < i ==> #[trigger] dist(*a, *target)[j] == dist(*b, *target)[j],
        decreases ID_LEN - i,
    {
        let x: u8 = a.bytes[i] ^ target.bytes[i];
        let y: u8 = b.bytes[i] ^ target.bytes[i];
        assert(x == dist(*a, *target)[i as int]);
        assert(y == dist(*b, *target)[i as int]);
        if x < y {
            proof {
                assert(seq_lt(dist(*a, *target), dist(*b, *target)));
                lemma_lt_asym(dist(*a, *target), dist(*b, *target));
                lemma_lt_irrefl(dist(*a, *target));
            }
            return Order::Less;
        }
        if x > y {
            proof {
                assert(seq_lt(dist(*b, *target), dist(*a, *target)));
                lemma_lt_asym(dist(*b, *target), dist(*a, *target));
                lemma_lt_irrefl(dist(*a, *target));
            }
            return Order::Greater;
        }
        i += 1;
    }
    proof {
        assert(dist(*a, *target) =~= dist(*b, *target));
        lemma_xor_cancel(*a, *b, *target);
        lemma_lt_irrefl(dist(*a, *target));
    }
    Order::Equal
}

/// Length of the common bit prefix of `a` and `b`; `ID_BITS` when they are equal.
pub fn common_prefix_len(a: &PeerId, b: &PeerId) -> (r: usize)
    ensures
        r == prefix_len(*a, *b),
        r <= ID_BITS,
        r == ID_BITS <==> *a == *b,
{
    let mut i: usize = 0;
    while i < ID_BITS
        invariant
            i <= ID_BITS,
            prefix_len(*a, *b) == prefix_from(a@, b@, i as nat),
            forall|j: int| 0 <= j < i ==> bit(a@, j) == bit(b@, j),
        decreases ID_BITS - i,
    {
        let sh: u8 = (7 - i % 8) as u8;
        let x: u8 = (a.bytes[i / 8] >> sh) & 1u8;
        let y: u8 = (b.bytes[i / 8] >> sh) & 1u8;
        if x != y {
            proof {
                let ab = a@[(i / 8) as int];
                let bb = b@[(i / 8) as int];
                assert((ab >> sh) & 1u8 <= 1u8 && (bb >> sh) & 1u8 <= 1u8) by (bit_vector);
                if *a == *b {
                    assert(bit(a@, i as int) == bit(b@, i as int));
                }
            }
            return i;
        }
        i += 1;
    }
    proof { lemma_all_bits_equal(*a, *b); }
    ID_BITS
}

proof fn lemma_byte_bits(x: u8, y: u8)
    requires
        (x >> 7u8) & 1u8 == (y >> 7u8) & 1u8,
        (x >> 6u8) & 1u8 == (y >> 6u8) & 1u8,
        (x >> 5u8) & 1u8 == (y >> 5u8) & 1u8,
        (x >> 4u8) & 1u8 == (y >> 4u8) & 1u8,
        (x >> 3u8) & 1u8 == (y >> 3u8) & 1u8,
        (x >> 2u8) & 1u8 == (y >> 2u8) & 1u8,
        (x >> 1u8) & 1u8 == (y >> 1u8) & 1u8,
        (x >> 0u8) & 1u8 == (y >> 0u8) & 1u8,
    ensures
        x == y,
{
    assert(x == y) by (bit_vector)
        requires
            (x >> 7u8) & 1u8 == (y >> 7u8) & 1u8,
            (x >> 6u8) & 1u8 == (y >> 6u8) & 1u8,
            (x >> 5u8) & 1u8 == (y >> 5u8) & 1u8,
            (x >> 4u8) & 1u8 == (y >> 4u8) & 1u8,
            (x >> 3u8) & 1u8 == (y >> 3u8) & 1u8,
            (x >> 2u8) & 1u8 == (y >> 2u8) & 1u8,
            (x >> 1u8) & 1u8 == (y >> 1u8) & 1u8,
            (x >> 0u8) & 1u8 == (y >> 0u8) & 1u8,
    ;
}

proof fn lemma_all_bits_equal(a: PeerId, b: PeerId)
    requires
        forall|j: int| 0 <= j < ID_BITS ==> bit(a@, j) == bit(b@, j),
    ensures
        a == b,
{
    assert forall|k: int| 0 <= k < ID_LEN implies a@[k] == b@[k] by {
        let x = a@[k];
        let y = b@[k];
        assert(bit(a@, 8 * k) == bit(b@, 8 * k));
        assert(bit(a@, 8 * k + 1) == bit(b@, 8 * k + 1));
        assert(bit(a@, 8 * k + 2) == bit(b@, 8 * k + 2));
        assert(bit(a@, 8 * k + 3) == bit(b@, 8 * k + 3));
        assert(bit(a@, 8 * k + 4) == bit(b@, 8 * k + 4));
        assert(bit(a@, 8 * k + 5) == bit(b@, 8 * k + 5));
        assert(bit(a@, 8 * k + 6) == bit(b@, 8 * k + 6));
        assert(bit(a@, 8 * k + 7) == bit(b@, 8 * k + 7));
        assert((x >> 7u8) & 1u8 == 1u8 <==> (y >> 7u8) & 1u8 == 1u8);
        lemma_bit_is_01(x, y);
        lemma_byte_bits(x, y);
    }
    assert(a@ =~= b@);
    lemma_view_injective(a, b);
}

proof fn lemma_bit_is_01(x: u8, y: u8)
    ensures
        (x >> 7u8) & 1u8 <= 1u8, (y >> 7u8) & 1u8 <= 1u8,
        (x >> 6u8) & 1u8 <= 1u8, (y >> 6u8) & 1u8 <= 1u8,
        (x >> 5u8) & 1u8 <= 1u8, (y >> 5u8) & 1u8 <= 1u8,
        (x >> 4u8) & 1u8 <= 1u8, (y >> 4u8) & 1u8 <= 1u8,
        (x >> 3u8) & 1u8 <= 1u8, (y >> 3u8) & 1u8 <= 1u8,
        (x >> 2u8) & 1u8 <= 1u8, (y >> 2u8) & 1u8 <= 1u8,
        (x >> 1u8) & 1u8 <= 1u8, (y >> 1u8) & 1u8 <= 1u8,
        (x >> 0u8) & 1u8 <= 1u8, (y >> 0u8) & 1u8 <= 1u8,
{
    assert(
        (x >> 7u8) & 1u8 <= 1u8 && (y >> 7u8) & 1u8 <= 1u8 &&
        (x >> 6u8) & 1u8 <= 1u8 && (y >> 6u8) & 1u8 <= 1u8 &&
        (x >> 5u8) & 1u8 <= 1u8 && (y >> 5u8) & 1u8 <= 1u8 &&
        (x >> 4u8) & 1u8 <= 1u8 && (y >> 4u8) & 1u8 <= 1u8 &&
        (x >> 3u8) & 1u8 <= 1u8 && (y >> 3u8) & 1u8 <= 1u8 &&
        (x >> 2u8) & 1u8 <= 1u8 && (y >> 2u8) & 1u8 <= 1u8 &&
        (x >> 1u8) & 1u8 <= 1u8 && (y >> 1u8) & 1u8 <= 1u8 &&
        (x >> 0u8) & 1u8 <= 1u8 && (y >> 0u8) & 1u8 <= 1u8
    ) by (bit_vector);
}

/// XOR with a common target cancels: equal distances mean equal identifiers.
pub proof fn lemma_xor_cancel(a: PeerId, b: PeerId, t: PeerId)
    requires
        dist(a, t) == dist(b, t),
    ensures
        a == b,
{
    assert forall|k: int| 0 <= k < ID_LEN implies a@[k] == b@[k] by {
        let x = a@[k];
        let y = b@[k];
        let z = t@[k];
        lemma_id_len(a);
        lemma_id_len(b);
        assert(dist(a, t)[k] == dist(b, t)[k]);
        assert(xor_seq(a@, t@)[k] == x ^ z);
        assert(dist(a, t)[k] == x ^ z);
        assert(x ^ z == y ^ z);
        assert(x == y) by (bit_vector)
            requires
                x ^ z == y ^ z,
        ;
    }
    assert(a@ =~= b@);
    lemma_view_injective(a, b);
}

pub proof fn lemma_lt_irrefl(a: Seq<u8>)
    ensures
        !seq_lt(a, a),
{
}

pub proof fn lemma_lt_asym(a: Seq<u8>, b: Seq<u8>)
    requires
        seq_lt(a, b),
    ensures
        !seq_lt(b, a),
{
    let i = choose|i: int|
        0 <= i < a.len() && i < b.len() && a[i] < b[i] && (forall|j: int| 0 <= j < i ==> a[j] == b[j]);
    if seq_lt(b, a) {
        let k = choose|k: int|
            0 <= k < b.len() && k < a.len() && b[k] < a[k] && (forall|j: int| 0 <= j < k ==> b[j] == a[j]);
        if k < i {
            assert(a[k] == b[k]);
        } else if i < k {
            assert(b[i] == a[i]);
        }
    }
}

pub proof fn lemma_lt_trans(a: Seq<u8>, b: Seq<u8>, c: Seq<u8>)
    requires
        seq_lt(a, b),
        seq_lt(b, c),
    ensures
        seq_lt(a, c),
{
    let i = choose|i: int|
        0 <= i < a.len() && i < b.len() && a[i] < b[i] && (forall|j: int| 0 <= j < i ==> a[j] == b[j]);
    let k = choose|k: int|
        0 <= k < b.len() && k < c.len() && b[k] < c[k] && (forall|j: int| 0 <= j < k ==> b[j] == c[j]);
    let m = if i < k { i } else { k };
    assert(a[m] < c[m]);
    assert(forall|j: int| 0 <= j < m ==> a[j] == c[j]);
}

/// The XOR distance is symmetric, and every identifier is at distance zero
/// from itself.
pub proof fn lemma_distance_symmetric(a: PeerId, b: PeerId)
    ensures
        dist(a, b) == dist(b, a),
        dist(a, a) == Seq::new(ID_LEN as nat, |i: int| 0u8),
{
    assert forall|k: int| 0 <= k < ID_LEN implies dist(a, b)[k] == dist(b, a)[k] by {
        let x = a@[k];
        let y = b@[k];
        assert(x ^ y == y ^ x) by (bit_vector);
    }
    assert forall|k: int| 0 <= k < ID_LEN implies dist(a, a)[k] == 0u8 by {
        let x = a@[k];
        assert(x ^ x == 0u8) by (bit_vector);
    }
    assert(dist(a, b) =~= dist(b, a));
    assert(dist(a, a) =~= Seq::new(ID_LEN as nat, |i: int| 0u8));
}

/// An identifier shares all its bits with itself.
pub proof fn lemma_prefix_self(a: PeerId)
    ensures
        prefix_len(a, a) == ID_BITS,
{
    lemma_prefix_from_self(a@, 0);
}

proof fn lemma_prefix_from_self(s: Seq<u8>, i: nat)
    ensures
        prefix_from(s, s, i) == ID_BITS,
    decreases ID_BITS - i,
{
    if i < ID_BITS {
        lemma_prefix_from_self(s, i + 1);
    }
}

} // verus!

//! 256-bit node and key identifiers and the XOR metric between them.

use vstd::arithmetic::power2::{lemma2_to64, pow2};
use vstd::prelude::*;

verus! {

/// Number of bytes in an identifier.
pub const ID_BYTES: usize = 32;

/// Number of bits in an identifier.
pub const ID_BITS: usize = 256;

/// A 256-bit identifier, stored as 32 big-endian bytes
/// (the first byte holds the most significant bits).
#[derive(Clone, Copy, Debug)]
pub struct NodeId {
    pub bytes: [u8; 32],
}

impl View for NodeId {
    type V = Seq<u8>;

    open spec fn view(&self) -> Seq<u8> {
        self.bytes@
    }
}

impl PartialEq for NodeId {
    fn eq(&self, other: &Self) -> (r: bool) {
        let mut i: usize = 0;
        while i < ID_BYTES
            invariant
                i <= ID_BYTES,
                forall|j: int| 0 <= j < i ==> self.bytes@[j] == other.bytes@[j],
            decreases ID_BYTES - i,
        {
            if self.bytes[i] != other.bytes[i] {
                return false;
            }
            i = i + 1;
        }
        proof {
            assert(self.bytes =~= other.bytes);
        }
        true
    }
}

impl Eq for NodeId {}

impl vstd::std_specs::cmp::PartialEqSpecImpl for NodeId {
    open spec fn obeys_eq_spec() -> bool {
        true
    }

    open spec fn eq_spec(&self, other: &Self) -> bool {
        *self == *other
    }
}

/// Bytewise XOR of two byte sequences of the same length.
pub open spec fn xor_seq(a: Seq<u8>, b: Seq<u8>) -> Seq<u8> {
    Seq::new(a.len(), |i: int| a[i] ^ b[i])
}

/// Strict lexicographic order on byte sequences; on sequences of equal
/// length it is the numeric order of the big-endian integers they encode.
pub open spec fn lex_lt(a: Seq<u8>, b: Seq<u8>) -> bool
    decreases a.len(),
{
    if a.len() == 0 || b.len() == 0 {
        false
    } else if a[0] != b[0] {
        a[0] < b[0]
    } else {
        lex_lt(a.drop_first(), b.drop_first())
    }
}

/// Non-strict version of [`lex_lt`].
pub open spec fn lex_le(a: Seq<u8>, b: Seq<u8>) -> bool {
    lex_lt(a, b) || a == b
}


/// Number of leading zero bits of a byte.
pub open spec fn byte_lz(v: u8) -> u32 {
    if v >= 128 {
        0
    } else if v >= 64 {
        1
    } else if v >= 32 {
        2
    } else if v >= 16 {
        3
    } else if v >= 8 {
        4
    } else if v >= 4 {
        5
    } else if v >= 2 {
        6
    } else if v >= 1 {
        7
    } else {
        8
    }
}

proof fn lemma_byte_lz_xor(x: u8, y: u8)
    ensures
        byte_lz(x ^ y) >= byte_lz(x) || byte_lz(x ^ y) >= byte_lz(y),
        byte_lz(x ^ y) >= byte_lz(x) && byte_lz(x ^ y) >= byte_lz(y) || byte_lz(x) != byte_lz(y),
        byte_lz(x) < byte_lz(y) ==> byte_lz(x ^ y) == byte_lz(x),
        byte_lz(y) < byte_lz(x) ==> byte_lz(x ^ y) == byte_lz(y),
{
    assert(byte_lz(x) < byte_lz(y) ==> byte_lz(x ^ y) == byte_lz(x)) by (bit_vector);
    assert(byte_lz(y) < byte_lz(x) ==> byte_lz(x ^ y) == byte_lz(y)) by (bit_vector);
    assert(byte_lz(x) == byte_lz(y) ==> byte_lz(x ^ y) >= byte_lz(x)) by (bit_vector);
}

/// Number of leading zero bits of a big-endian byte sequence.
pub open spec fn leading_zero_bits(s: Seq<u8>) -> nat
    decreases s.len(),
{
    if s.len() == 0 {
        0
    } else if s[0] == 0 {
        8 + leading_zero_bits(s.drop_first())
    } else {
        byte_lz(s[0]) as nat
    }
}

/// All bytes of `s` are zero.
pub open spec fn all_zero(s: Seq<u8>) -> bool {
    forall|i: int| 0 <= i < s.len() ==> s[i] == 0
}

proof fn lemma_byte_lz_order(x: u8, y: u8)
    ensures
        byte_lz(x) > byte_lz(y) ==> x < y,
        x != 0 ==> byte_lz(x) < 8,
        x == 0 ==> byte_lz(x) == 8,
{
}

proof fn lemma_xor_drop_first(a: Seq<u8>, b: Seq<u8>)
    requires
        a.len() == b.len(),
        a.len() > 0,
    ensures
        xor_seq(a, b).drop_first() == xor_seq(a.drop_first(), b.drop_first()),
        xor_seq(a, b)[0] == a[0] ^ b[0],
{
    assert(xor_seq(a, b).drop_first() =~= xor_seq(a.drop_first(), b.drop_first()));
}

/// The leading-zero count is at most the bit length, and reaches it exactly
/// on the all-zero sequences.
pub proof fn lemma_leading_zero_bits_bound(s: Seq<u8>)
    ensures
        leading_zero_bits(s) <= 8 * s.len(),
        leading_zero_bits(s) == 8 * s.len() <==> all_zero(s),
    decreases s.len(),
{
    if s.len() > 0 {
        lemma_leading_zero_bits_bound(s.drop_first());
        lemma_byte_lz_order(s[0], s[0]);
        if all_zero(s) {
            assert(all_zero(s.drop_first()));
        }
        if s[0] == 0 && all_zero(s.drop_first()) {
            assert forall|i: int| 0 <= i < s.len() implies s[i] == 0 by {
                if i > 0 {
                    assert(s[i] == s.drop_first()[i - 1]);
                }
            }
        }
    }
}

/// The leading-zero count of a byte locates its highest set bit: a byte
/// with `k` leading zero bits lies in `[2^(7-k), 2^(8-k))`, and only zero
/// has 8.
pub proof fn lemma_byte_lz_locates_top_bit(v: u8)
    ensures
        v == 0 <==> byte_lz(v) == 8,
        v != 0 ==> byte_lz(v) < 8 && pow2((7 - byte_lz(v)) as nat) <= v && v < pow2(
            (8 - byte_lz(v)) as nat,
        ),
{
    lemma2_to64();
}

/// The leading-zero count of a sequence is the position of its first set
/// bit: for `n = leading_zero_bits(s)` on a sequence that is not all zero,
/// the bytes before byte `n / 8` are zero, and byte `n / 8` lies in
/// `[2^(7 - n % 8), 2^(8 - n % 8))`, so its bit `n % 8` (from the top) is
/// the first one set.
pub proof fn lemma_leading_zero_bits_first_set_bit(s: Seq<u8>)
    requires
        !all_zero(s),
    ensures
        ({
            let n = leading_zero_bits(s);
            let i = n / 8;
            &&& i < s.len()
            &&& forall|j: int| 0 <= j < i ==> s[j] == 0
            &&& pow2((7 - n % 8) as nat) <= s[i as int]
            &&& s[i as int] < pow2((8 - n % 8) as nat)
        }),
    decreases s.len(),
{
    lemma_byte_lz_locates_top_bit(s[0]);
    if s[0] == 0 {
        let t = s.drop_first();
        assert(!all_zero(t)) by {
            let k = choose|k: int| 0 <= k < s.len() && s[k] != 0;
            assert(t[k - 1] == s[k]);
        }
        lemma_leading_zero_bits_first_set_bit(t);
        let m = leading_zero_bits(t);
        assert(leading_zero_bits(s) == 8 + m);
        assert((8 + m) / 8 == m / 8 + 1);
        assert((8 + m) % 8 == m % 8);
        assert forall|j: int| 0 <= j < (8 + m) / 8 implies s[j] == 0 by {
            if j > 0 {
                assert(s[j] == t[j - 1]);
            }
        }
        assert(s[(m / 8 + 1) as int] == t[(m / 8) as int]);
    } else {
        assert(leading_zero_bits(s) == byte_lz(s[0]));
    }
}

/// XOR is commutative.
pub proof fn lemma_xor_commutative(a: Seq<u8>, b: Seq<u8>)
    requires
        a.len() == b.len(),
    ensures
        xor_seq(a, b) == xor_seq(b, a),
{
    assert forall|i: int| 0 <= i < a.len() implies #[trigger] xor_seq(a, b)[i] == xor_seq(b, a)[i] by {
        let x = a[i];
        let y = b[i];
        assert(x ^ y == y ^ x) by (bit_vector);
    }
    assert(xor_seq(a, b) =~= xor_seq(b, a));
}

/// The XOR of two sequences is all zero exactly when they are equal.
pub proof fn lemma_xor_zero_iff_equal(a: Seq<u8>, b: Seq<u8>)
    requires
        a.len() == b.len(),
    ensures
        all_zero(xor_seq(a, b)) <==> a == b,
{
    if all_zero(xor_seq(a, b)) {
        assert forall|i: int| 0 <= i < a.len() implies a[i] == b[i] by {
            let x = a[i];
            let y = b[i];
            assert(xor_seq(a, b)[i] == 0);
            assert(x ^ y == 0 ==> x == y) by (bit_vector);
        }
        assert(a =~= b);
    }
    if a == b {
        assert forall|i: int| 0 <= i < a.len() implies xor_seq(a, b)[i] == 0 by {
            let x = a[i];
            assert(x ^ x == 0) by (bit_vector);
        }
    }
}

/// For a fixed target, distinct identifiers are at distinct distances.
pub proof fn lemma_xor_injective(a: Seq<u8>, b: Seq<u8>, t: Seq<u8>)
    requires
        a.len() == b.len(),
        b.len() == t.len(),
        xor_seq(a, t) == xor_seq(b, t),
    ensures
        a == b,
{
    assert forall|i: int| 0 <= i < a.len() implies a[i] == b[i] by {
        let x = a[i];
        let y = b[i];
        let z = t[i];
        assert(xor_seq(a, t)[i] == x ^ z);
        assert(xor_seq(b, t)[i] == y ^ z);
        assert(x ^ z == y ^ z ==> x == y) by (bit_vector);
    }
    assert(a =~= b);
}

/// The common-prefix length of `a` and `c` is at least the smaller of the
/// common-prefix lengths of `a`, `b` and of `b`, `c`, and equals it when
/// those two differ.
pub proof fn lemma_prefix_ultrametric(a: Seq<u8>, b: Seq<u8>, c: Seq<u8>)
    requires
        a.len() == b.len(),
        b.len() == c.len(),
    ensures
        leading_zero_bits(xor_seq(a, c)) >= leading_zero_bits(xor_seq(a, b)) || leading_zero_bits(
            xor_seq(a, c),
        ) >= leading_zero_bits(xor_seq(b, c)),
        leading_zero_bits(xor_seq(a, b)) < leading_zero_bits(xor_seq(b, c)) ==> leading_zero_bits(
            xor_seq(a, c),
        ) == leading_zero_bits(xor_seq(a, b)),
        leading_zero_bits(xor_seq(b, c)) < leading_zero_bits(xor_seq(a, b)) ==> leading_zero_bits(
            xor_seq(a, c),
        ) == leading_zero_bits(xor_seq(b, c)),
    decreases a.len(),
{
    if a.len() > 0 {
        let x = xor_seq(a, b);
        let y = xor_seq(b, c);
        let z = xor_seq(a, c);
        lemma_xor_drop_first(a, b);
        lemma_xor_drop_first(b, c);
        lemma_xor_drop_first(a, c);
        lemma_prefix_ultrametric(a.drop_first(), b.drop_first(), c.drop_first());
        let a0 = a[0];
        let b0 = b[0];
        let c0 = c[0];
        assert((a0 ^ b0) ^ (b0 ^ c0) == a0 ^ c0) by (bit_vector);
        assert(a0 ^ b0 == 0 && b0 ^ c0 == 0 ==> a0 ^ c0 == 0) by (bit_vector);
        assert(a0 ^ b0 == 0 ==> a0 ^ c0 == b0 ^ c0) by (bit_vector);
        assert(b0 ^ c0 == 0 ==> a0 ^ c0 == a0 ^ b0) by (bit_vector);
        lemma_byte_lz_xor(x[0], y[0]);
        lemma_byte_lz_order(x[0], x[0]);
        lemma_byte_lz_order(y[0], y[0]);
        lemma_byte_lz_order(z[0], z[0]);
        lemma_leading_zero_bits_bound(x.drop_first());
        lemma_leading_zero_bits_bound(y.drop_first());
        lemma_leading_zero_bits_bound(z.drop_first());
    }
}

/// A longer run of leading zero bits means a smaller number.
pub proof fn lemma_more_leading_zeros_is_smaller(x: Seq<u8>, y: Seq<u8>)
    requires
        x.len() == y.len(),
        leading_zero_bits(x) > leading_zero_bits(y),
    ensures
        lex_lt(x, y),
    decreases x.len(),
{
    lemma_byte_lz_order(x[0], y[0]);
    lemma_leading_zero_bits_bound(x.drop_first());
    lemma_leading_zero_bits_bound(y.drop_first());
    if x[0] == 0 && y[0] == 0 {
        lemma_more_leading_zeros_is_smaller(x.drop_first(), y.drop_first());
    }
}

/// `lex_lt` is irreflexive and asymmetric.
pub proof fn lemma_lex_lt_asymmetric(a: Seq<u8>, b: Seq<u8>)
    ensures
        !lex_lt(a, a),
        lex_lt(a, b) ==> !lex_lt(b, a),
    decreases a.len(),
{
    if a.len() > 0 {
        lemma_lex_lt_asymmetric(a.drop_first(), a.drop_first());
    }
    if a.len() > 0 && b.len() > 0 {
        lemma_lex_lt_asymmetric(a.drop_first(), b.drop_first());
    }
}

/// `lex_lt` is transitive.
pub proof fn lemma_lex_lt_transitive(a: Seq<u8>, b: Seq<u8>, c: Seq<u8>)
    requires
        lex_lt(a, b),
        lex_lt(b, c),
    ensures
        lex_lt(a, c),
    decreases a.len(),
{
    if a[0] == b[0] && b[0] == c[0] {
        lemma_lex_lt_transitive(a.drop_first(), b.drop_first(), c.drop_first());
    }
}

/// On sequences of equal length `lex_lt` is total.
pub proof fn lemma_lex_lt_total(a: Seq<u8>, b: Seq<u8>)
    requires
        a.len() == b.len(),
    ensures
        lex_lt(a, b) || lex_lt(b, a) || a == b,
    decreases a.len(),
{
    if a.len() == 0 {
        assert(a =~= b);
    } else if a[0] == b[0] {
        lemma_lex_lt_total(a.drop_first(), b.drop_first());
        if a.drop_first() == b.drop_first() {
            assert forall|i: int| 0 <= i < a.len() implies a[i] == b[i] by {
                if i > 0 {
                    assert(a[i] == a.drop_first()[i - 1]);
                    assert(b[i] == b.drop_first()[i - 1]);
                }
            }
            assert(a =~= b);
        }
    }
}

impl NodeId {
    /// The identifier whose 32 big-endian bytes are `bytes`.
    pub fn from_be_bytes(bytes: [u8; 32]) -> (r: NodeId)
        ensures
            r@ == bytes@,
    {
        NodeId { bytes }
    }

    /// The identifier whose big-endian encoding is `bytes`, which must be
    /// exactly 32 bytes long.
    pub fn from_be_slice(bytes: &[u8]) -> (r: NodeId)
        requires
            bytes@.len() == ID_BYTES,
        ensures
            r@ == bytes@,
    {
        let mut out = [0u8; 32];
        let mut i: usize = 0;
        while i < ID_BYTES
            invariant
                i <= ID_BYTES,
                bytes@.len() == ID_BYTES,
                forall|j: int| 0 <= j < i ==> out@[j] == bytes@[j],
            decreases ID_BYTES - i,
        {
            out[i] = bytes[i];
            i = i + 1;
        }
        assert(out@ =~= bytes@);
        NodeId { bytes: out }
    }

    /// The big-endian encoding of this identifier.
    pub fn to_be_bytes(&self) -> (r: [u8; 32])
        ensures
            r@ == self@,
    {
        self.bytes
    }

    /// The little-endian encoding of this identifier (the big-endian
    /// bytes in reverse order).
    pub fn to_le_bytes(&self) -> (r: [u8; 32])
        ensures
            r@ == self@.reverse(),
    {
        let mut out = [0u8; 32];
        let mut i: usize = 0;
        while i < ID_BYTES
            invariant
                i <= ID_BYTES,
                forall|j: int| 0 <= j < i ==> out@[j] == self.bytes@[ID_BYTES - 1 - j],
            decreases ID_BYTES - i,
        {
            out[i] = self.bytes[ID_BYTES - 1 - i];
            i = i + 1;
        }
        assert(out@ =~= self@.reverse());
        out
    }

    /// Bitwise XOR of two identifiers.
    pub fn xor(&self, other: &NodeId) -> (r: NodeId)
        ensures
            r@ == xor_seq(self@, other@),
    {
        let mut out = [0u8; 32];
        let mut i: usize = 0;
        while i < ID_BYTES
            invariant
                i <= ID_BYTES,
                forall|j: int| 0 <= j < i ==> out@[j] == self.bytes@[j] ^ other.bytes@[j],
            decreases ID_BYTES - i,
        {
            out[i] = self.bytes[i] ^ other.bytes[i];
            i = i + 1;
        }
        assert(out@ =~= xor_seq(self@, other@));
        NodeId { bytes: out }
    }

    /// Number of leading zero bits, 256 for the zero identifier.
    pub fn leading_zeros(&self) -> (r: u32)
        ensures
            r == leading_zero_bits(self@),
            r <= ID_BITS,
    {
        let mut i: usize = 0;
        assert(self@.skip(0) =~= self@);
        while i < ID_BYTES && self.bytes[i] == 0
            invariant
                i <= ID_BYTES,
                leading_zero_bits(self@) == 8 * i + leading_zero_bits(self@.skip(i as int)),
            decreases ID_BYTES - i,
        {
            assert(self@.skip(i as int).drop_first() =~= self@.skip(i + 1));
            i = i + 1;
        }
        proof {
            lemma_leading_zero_bits_bound(self@);
        }
        if i == ID_BYTES {
            assert(self@.skip(i as int).len() == 0);
            256
        } else {
            let b = self.bytes[i];
            let n: u32 = if b >= 128 {
                0
            } else if b >= 64 {
                1
            } else if b >= 32 {
                2
            } else if b >= 16 {
                3
            } else if b >= 8 {
                4
            } else if b >= 4 {
                5
            } else if b >= 2 {
                6
            } else {
                7
            };
            assert(self@.skip(i as int)[0] == b);
            8 * (i as u32) + n
        }
    }

    /// Whether this identifier is numerically smaller than `other`.
    pub fn less_than(&self, other: &NodeId) -> (r: bool)
        ensures
            r == lex_lt(self@, other@),
    {
        let mut i: usize = 0;
        assert(self@.skip(0) =~= self@);
        assert(other@.skip(0) =~= other@);
        while i < ID_BYTES
            invariant
                i <= ID_BYTES,
                lex_lt(self@, other@) == lex_lt(self@.skip(i as int), other@.skip(i as int)),
            decreases ID_BYTES - i,
        {
            assert(self@.skip(i as int).drop_first() =~= self@.skip(i + 1));
            assert(other@.skip(i as int).drop_first() =~= other@.skip(i + 1));
            if self.bytes[i] != other.bytes[i] {
                return self.bytes[i] < other.bytes[i];
            }
            i = i + 1;
        }
        false
    }
}

/// Big-endian value of the 8 bytes of `s` starting at `at`.
pub open spec fn be_u64(s: Seq<u8>, at: int) -> int {
    s[at] * 0x100000000000000 + s[at + 1] * 0x1000000000000 + s[at + 2] * 0x10000000000 + s[at
        + 3] * 0x100000000 + s[at + 4] * 0x1000000 + s[at + 5] * 0x10000 + s[at + 6] * 0x100 + s[at
        + 7]
}

/// The four 64-bit words of a 32-byte big-endian sequence, most
/// significant first.
pub open spec fn words_of(s: Seq<u8>) -> (u64, u64, u64, u64) {
    (be_u64(s, 0) as u64, be_u64(s, 8) as u64, be_u64(s, 16) as u64, be_u64(s, 24) as u64)
}

/// Lexicographic order on 4-tuples of words, the order `Ord` gives tuples.
pub open spec fn words_lt(a: (u64, u64, u64, u64), b: (u64, u64, u64, u64)) -> bool {
    a.0 < b.0 || (a.0 == b.0 && (a.1 < b.1 || (a.1 == b.1 && (a.2 < b.2 || (a.2 == b.2 && a.3
        < b.3)))))
}

proof fn lemma_be_u64_bounds(s: Seq<u8>, at: int)
    requires
        0 <= at,
        at + 8 <= s.len(),
    ensures
        0 <= be_u64(s, at) < 0x10000000000000000,
{
}

proof fn lemma_lex_split(a1: Seq<u8>, a2: Seq<u8>, b1: Seq<u8>, b2: Seq<u8>)
    requires
        a1.len() == b1.len(),
        a2.len() == b2.len(),
    ensures
        lex_lt(a1 + a2, b1 + b2) <==> lex_lt(a1, b1) || (a1 == b1 && lex_lt(a2, b2)),
    decreases a1.len(),
{
    if a1.len() == 0 {
        assert(a1 + a2 =~= a2);
        assert(b1 + b2 =~= b2);
        assert(a1 =~= b1);
    } else {
        assert((a1 + a2).drop_first() =~= a1.drop_first() + a2);
        assert((b1 + b2).drop_first() =~= b1.drop_first() + b2);
        lemma_lex_split(a1.drop_first(), a2, b1.drop_first(), b2);
        if a1[0] == b1[0] && a1.drop_first() == b1.drop_first() {
            assert forall|i: int| 0 <= i < a1.len() implies a1[i] == b1[i] by {
                if i > 0 {
                    assert(a1[i] == a1.drop_first()[i - 1]);
                    assert(b1[i] == b1.drop_first()[i - 1]);
                }
            }
            assert(a1 =~= b1);
        }
        if a1 == b1 {
            assert(a1.drop_first() == b1.drop_first());
        }
    }
}

/// Big-endian value of the first `n` bytes of `s`, for `n` up to 8.
spec fn be_prefix(s: Seq<u8>, n: int) -> int {
    if n == 1 {
        s[0] as int
    } else if n == 2 {
        s[0] * 0x100 + s[1]
    } else if n == 3 {
        s[0] * 0x10000 + s[1] * 0x100 + s[2]
    } else if n == 4 {
        s[0] * 0x1000000 + s[1] * 0x10000 + s[2] * 0x100 + s[3]
    } else if n == 5 {
        s[0] * 0x100000000 + s[1] * 0x1000000 + s[2] * 0x10000 + s[3] * 0x100 + s[4]
    } else if n == 6 {
        s[0] * 0x10000000000 + s[1] * 0x100000000 + s[2] * 0x1000000 + s[3] * 0x10000 + s[4] * 0x100 + s[5]
    } else if n == 7 {
        s[0] * 0x1000000000000 + s[1] * 0x10000000000 + s[2] * 0x100000000 + s[3] * 0x1000000 + s[4] * 0x10000 + s[5] * 0x100 + s[6]
    } else if n == 8 {
        s[0] * 0x100000000000000 + s[1] * 0x1000000000000 + s[2] * 0x10000000000 + s[3] * 0x100000000 + s[4] * 0x1000000 + s[5] * 0x10000 + s[6] * 0x100 + s[7]
    } else {
        0
    }
}

proof fn lemma_lex_prefix(s: Seq<u8>, t: Seq<u8>, n: int)
    requires
        1 <= n <= 8,
        s.len() == n,
        t.len() == n,
    ensures
        lex_lt(s, t) <==> be_prefix(s, n) < be_prefix(t, n),
        s == t <==> be_prefix(s, n) == be_prefix(t, n),
    decreases n,
{
    if n > 1 {
        lemma_lex_prefix(s.drop_first(), t.drop_first(), n - 1);
        assert(be_prefix(s, n) == s[0] * pow_byte(n - 1) + be_prefix(s.drop_first(), n - 1));
        assert(be_prefix(t, n) == t[0] * pow_byte(n - 1) + be_prefix(t.drop_first(), n - 1));
        lemma_be_prefix_bound(s.drop_first(), n - 1);
        lemma_be_prefix_bound(t.drop_first(), n - 1);
        if s[0] == t[0] && s.drop_first() == t.drop_first() {
            assert forall|i: int| 0 <= i < n implies s[i] == t[i] by {
                if i > 0 {
                    assert(s[i] == s.drop_first()[i - 1]);
                    assert(t[i] == t.drop_first()[i - 1]);
                }
            }
            assert(s =~= t);
        }
        lemma_pow_step(s[0], t[0], n - 1);
        lemma_pow_step(t[0], s[0], n - 1);
    } else {
        assert(!lex_lt(s.drop_first(), t.drop_first()));
        if s[0] == t[0] {
            assert(s =~= t);
        }
    }
}

/// `256^k`, for `k` up to 7.
spec fn pow_byte(k: int) -> int {
    if k == 0 {
        1
    } else if k == 1 {
        0x100
    } else if k == 2 {
        0x10000
    } else if k == 3 {
        0x1000000
    } else if k == 4 {
        0x100000000
    } else if k == 5 {
        0x10000000000
    } else if k == 6 {
        0x1000000000000
    } else {
        0x100000000000000
    }
}

proof fn lemma_be_prefix_bound(s: Seq<u8>, n: int)
    requires
        1 <= n <= 7,
        s.len() == n,
    ensures
        0 <= be_prefix(s, n) < pow_byte(n),
{
}

proof fn lemma_pow_step(a: u8, b: u8, k: int)
    requires
        0 <= k <= 7,
    ensures
        a < b ==> a * pow_byte(k) + pow_byte(k) <= b * pow_byte(k),
        a == b ==> a * pow_byte(k) == b * pow_byte(k),
{
    if k == 0 {
    } else if k == 1 {
    } else if k == 2 {
    } else if k == 3 {
    } else if k == 4 {
    } else if k == 5 {
    } else if k == 6 {
    } else {
    }
}

proof fn lemma_lex_eight(s: Seq<u8>, t: Seq<u8>)
    requires
        s.len() == 8,
        t.len() == 8,
    ensures
        lex_lt(s, t) <==> be_u64(s, 0) < be_u64(t, 0),
        s == t <==> be_u64(s, 0) == be_u64(t, 0),
{
    lemma_lex_prefix(s, t, 8);
}

/// On 32-byte sequences the lexicographic order is the order of their
/// words, and equal words mean equal sequences.
pub proof fn lemma_words_order(s: Seq<u8>, t: Seq<u8>)
    requires
        s.len() == 32,
        t.len() == 32,
    ensures
        lex_lt(s, t) <==> words_lt(words_of(s), words_of(t)),
        words_of(s) == words_of(t) ==> s == t,
{
    let s0 = s.subrange(0, 8);
    let s1 = s.subrange(8, 16);
    let s2 = s.subrange(16, 24);
    let s3 = s.subrange(24, 32);
    let t0 = t.subrange(0, 8);
    let t1 = t.subrange(8, 16);
    let t2 = t.subrange(16, 24);
    let t3 = t.subrange(24, 32);
    assert(s =~= s0 + (s1 + (s2 + s3)));
    assert(t =~= t0 + (t1 + (t2 + t3)));
    lemma_lex_split(s0, s1 + (s2 + s3), t0, t1 + (t2 + t3));
    lemma_lex_split(s1, s2 + s3, t1, t2 + t3);
    lemma_lex_split(s2, s3, t2, t3);
    lemma_lex_eight(s0, t0);
    lemma_lex_eight(s1, t1);
    lemma_lex_eight(s2, t2);
    lemma_lex_eight(s3, t3);
    assert(be_u64(s, 0) == be_u64(s0, 0));
    assert(be_u64(s, 8) == be_u64(s1, 0));
    assert(be_u64(s, 16) == be_u64(s2, 0));
    assert(be_u64(s, 24) == be_u64(s3, 0));
    assert(be_u64(t, 0) == be_u64(t0, 0));
    assert(be_u64(t, 8) == be_u64(t1, 0));
    assert(be_u64(t, 16) == be_u64(t2, 0));
    assert(be_u64(t, 24) == be_u64(t3, 0));
    lemma_be_u64_bounds(s, 0);
    lemma_be_u64_bounds(s, 8);
    lemma_be_u64_bounds(s, 16);
    lemma_be_u64_bounds(s, 24);
    lemma_be_u64_bounds(t, 0);
    lemma_be_u64_bounds(t, 8);
    lemma_be_u64_bounds(t, 16);
    lemma_be_u64_bounds(t, 24);
}

impl NodeId {
    /// The four 64-bit words of this identifier, most significant first.
    pub fn to_words(&self) -> (r: (u64, u64, u64, u64))
        ensures
            r == words_of(self@),
    {
        let b = &self.bytes;
        proof {
            lemma_be_u64_bounds(self@, 0);
            lemma_be_u64_bounds(self@, 8);
            lemma_be_u64_bounds(self@, 16);
            lemma_be_u64_bounds(self@, 24);
        }
        (
            Self::word_at(b, 0),
            Self::word_at(b, 8),
            Self::word_at(b, 16),
            Self::word_at(b, 24),
        )
    }

    fn word_at(b: &[u8; 32], at: usize) -> (r: u64)
        requires
            at + 8 <= 32,
        ensures
            r == be_u64(b@, at as int),
    {
        proof {
            lemma_be_u64_bounds(b@, at as int);
        }
        (b[at] as u64) * 0x100000000000000 + (b[at + 1] as u64) * 0x1000000000000 + (b[at + 2]
            as u64) * 0x10000000000 + (b[at + 3] as u64) * 0x100000000 + (b[at + 4] as u64)
            * 0x1000000 + (b[at + 5] as u64) * 0x10000 + (b[at + 6] as u64) * 0x100 + (b[at
            + 7] as u64)
    }
}

} // verus!

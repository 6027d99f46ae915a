//! Builds an unsigned integer bit by bit. Bits are packed
//! least-significant-bit-first within each byte, and completed bytes are
//! committed in little-endian order, so draining the buffer yields a byte
//! sequence whose little-endian value is exactly the value of the pushed
//! bit sequence.

use vstd::arithmetic::power2::{
    lemma2_to64, lemma_pow2_adds, lemma_pow2_strictly_increases, pow2,
};
use vstd::bits::lemma_u8_shl_is_mul;
use vstd::prelude::*;

verus! {

/// The value of a bit sequence read least-significant-bit-first.
pub open spec fn bits_value(bits: Seq<bool>) -> nat
    decreases bits.len(),
{
    if bits.len() == 0 {
        0
    } else {
        (if bits[0] {
            1nat
        } else {
            0nat
        }) + 2 * bits_value(bits.drop_first())
    }
}

/// The value of a byte sequence read as a little-endian unsigned integer.
pub open spec fn le_bytes_value(bytes: Seq<u8>) -> nat
    decreases bytes.len(),
{
    if bytes.len() == 0 {
        0
    } else {
        bytes[0] as nat + 256 * le_bytes_value(bytes.drop_first())
    }
}

/// Appending a bit adds its value at the next binary place.
pub proof fn lemma_bits_value_push(s: Seq<bool>, b: bool)
    ensures
        bits_value(s.push(b)) == bits_value(s) + pow2(s.len()) * (if b {
            1nat
        } else {
            0nat
        }),
    decreases s.len(),
{
    let v: nat = if b {
        1
    } else {
        0
    };
    if s.len() == 0 {
        assert(s.push(b).drop_first() =~= Seq::<bool>::empty());
        lemma2_to64();
        assert(bits_value(s.push(b)) == v + 2 * bits_value(s.push(b).drop_first()));
        assert(pow2(s.len()) * v == v) by (nonlinear_arith)
            requires
                pow2(s.len()) == 1,
        ;
    } else {
        assert(s.push(b).drop_first() =~= s.drop_first().push(b));
        lemma_bits_value_push(s.drop_first(), b);
        lemma_pow2_adds(1, (s.len() - 1) as nat);
        lemma2_to64();
        let p = pow2((s.len() - 1) as nat);
        assert(2 * (bits_value(s.drop_first()) + p * v) == 2 * bits_value(s.drop_first()) + (2
            * p) * v) by (nonlinear_arith);
    }
}

/// Appending a byte adds its value at the next 256-ary place.
pub proof fn lemma_le_bytes_value_push(s: Seq<u8>, v: u8)
    ensures
        le_bytes_value(s.push(v)) == le_bytes_value(s) + pow2(8 * s.len()) * v,
    decreases s.len(),
{
    if s.len() == 0 {
        assert(s.push(v).drop_first() =~= Seq::<u8>::empty());
        lemma2_to64();
        assert(le_bytes_value(s.push(v)) == v as nat + 256 * le_bytes_value(s.push(v).drop_first()));
        assert(pow2(s.len() * 8) * v == v) by (nonlinear_arith)
            requires
                pow2(s.len() * 8) == 1,
        ;
    } else {
        assert(s.push(v).drop_first() =~= s.drop_first().push(v));
        lemma_le_bytes_value_push(s.drop_first(), v);
        lemma_pow2_adds(8, 8 * (s.len() - 1) as nat);
        lemma2_to64();
        let p = pow2(8 * (s.len() - 1) as nat);
        let rest = le_bytes_value(s.drop_first());
        assert(le_bytes_value(s.push(v)) == s[0] + 256 * (rest + p * v));
        assert(256 * (rest + p * v) == 256 * rest + (256 * p) * v) by (nonlinear_arith);
        assert(pow2(8 * s.len()) == 256 * p);
        assert(le_bytes_value(s) == s[0] + 256 * rest);
    }
}

/// Zero bits appended beyond the last pushed bit do not change the value:
/// the drained bytes, zero-padded in the unused high bits, reconstruct
/// exactly the pushed sequence's integer.
pub proof fn lemma_zero_padding_keeps_value(bits: Seq<bool>, k: nat)
    ensures
        bits_value(bits + Seq::new(k, |i: int| false)) == bits_value(bits),
    decreases k,
{
    if k == 0 {
        assert(bits + Seq::new(0, |i: int| false) =~= bits);
    } else {
        lemma_zero_padding_keeps_value(bits, (k - 1) as nat);
        assert(bits + Seq::new(k, |i: int| false) =~= (bits + Seq::new(
            (k - 1) as nat,
            |i: int| false,
        )).push(false));
        lemma_bits_value_push(bits + Seq::new((k - 1) as nat, |i: int| false), false);
    }
}

/// Accumulates single bits into a growable byte-aligned buffer: committed
/// bytes, one partially filled byte, and a cursor counting the bits written
/// into the partial byte.
pub struct BitVec {
    bytes: Vec<u8>,
    last: u8,
    cursor: u8,
    bits: Ghost<Seq<bool>>,
}

impl View for BitVec {
    type V = Seq<bool>;

    closed spec fn view(&self) -> Seq<bool> {
        self.bits@
    }
}

impl BitVec {
    /// The stored bytes pack the pushed bits faithfully: the unused high
    /// bits of the partial byte are zero, the bit count matches the cursor,
    /// and committed bytes plus partial byte hold the sequence's value.
    pub closed spec fn wf(&self) -> bool {
        &&& self.cursor <= 7
        &&& (self.last as nat) < pow2(self.cursor as nat)
        &&& self.bits@.len() == 8 * self.bytes@.len() + self.cursor
        &&& self.bits@.len() <= usize::MAX
        &&& bits_value(self.bits@) == le_bytes_value(self.bytes@) + pow2(8 * self.bytes@.len())
            * self.last
    }

    /// An empty buffer, sized for roughly `cap` bits.
    pub fn new(cap: usize) -> (r: BitVec)
        ensures
            r.wf(),
            r@ == Seq::<bool>::empty(),
    {
        let r = BitVec {
            bytes: Vec::with_capacity((cap / 8) + 1),
            last: 0,
            cursor: 0,
            bits: Ghost(Seq::empty()),
        };
        proof {
            lemma2_to64();
        }
        r
    }

    /// Appends a zero bit.
    pub fn push_zero(&mut self)
        requires
            old(self).wf(),
            old(self)@.len() < usize::MAX,
        ensures
            final(self).wf(),
            final(self)@ == old(self)@.push(false),
    {
        proof {
            lemma_bits_value_push(self.bits@, false);
            lemma2_to64();
        }
        self.bits = Ghost(self.bits@.push(false));
        if self.cursor == 7 {
            proof {
                lemma_le_bytes_value_push(self.bytes@, self.last);
            }
            self.bytes.push(self.last);
            self.last = 0;
            self.cursor = 0;
        } else {
            self.cursor = self.cursor + 1;
            proof {
                lemma_pow2_strictly_increases(
                    (self.cursor - 1) as nat,
                    self.cursor as nat,
                );
            }
        }
    }

    /// Appends a one bit.
    pub fn push_one(&mut self)
        requires
            old(self).wf(),
            old(self)@.len() < usize::MAX,
        ensures
            final(self).wf(),
            final(self)@ == old(self)@.push(true),
    {
        let ghost n = self.bytes@.len();
        proof {
            lemma_bits_value_push(self.bits@, true);
            lemma2_to64();
        }
        self.bits = Ghost(self.bits@.push(true));
        if self.cursor == 7 {
            let committed = self.last + 128;
            proof {
                lemma_le_bytes_value_push(self.bytes@, committed);
                lemma_pow2_adds(8 * n, 7);
                assert(pow2(8 * n) * (self.last + 128) == pow2(8 * n) * self.last + pow2(8 * n)
                    * 128) by (nonlinear_arith);
            }
            self.bytes.push(committed);
            self.last = 0;
            self.cursor = 0;
        } else {
            proof {
                lemma_u8_shl_is_mul(1u8, self.cursor);
                lemma_pow2_strictly_increases(self.cursor as nat, 7);
                lemma_pow2_adds(8 * n, self.cursor as nat);
                assert(pow2(8 * n) * (self.last + pow2(self.cursor as nat)) == pow2(8 * n)
                    * self.last + pow2(8 * n) * pow2(self.cursor as nat)) by (nonlinear_arith);
                lemma_pow2_strictly_increases(self.cursor as nat, (self.cursor + 1) as nat);
            }
            self.last = self.last + (1u8 << self.cursor);
            self.cursor = self.cursor + 1;
        }
    }

    /// The number of bits pushed since the last reset.
    pub fn len(&self) -> (r: usize)
        requires
            self.wf(),
        ensures
            r == self@.len(),
    {
        self.bytes.len() * 8 + (self.cursor as usize)
    }

    /// Drains the buffer: returns the committed bytes plus the partial byte
    /// (unused high bits zero), whose little-endian value is exactly the
    /// value of the pushed bit sequence, and clears the buffer.
    pub fn reset(&mut self) -> (r: Vec<u8>)
        requires
            old(self).wf(),
        ensures
            final(self).wf(),
            final(self)@ == Seq::<bool>::empty(),
            r@.len() == old(self)@.len() / 8 + 1,
            le_bytes_value(r@) == bits_value(old(self)@),
    {
        let mut taken: Vec<u8> = Vec::new();
        core::mem::swap(&mut taken, &mut self.bytes);
        proof {
            lemma_le_bytes_value_push(taken@, self.last);
        }
        taken.push(self.last);
        self.last = 0;
        self.cursor = 0;
        self.bits = Ghost(Seq::empty());
        proof {
            lemma2_to64();
        }
        taken
    }
}

} // verus!

//! One-shot password generation from a block of raw entropy bytes: the
//! bytes are split into blocks, each block is reduced to a single bit by an
//! XOR-fold, the bits are read as a little-endian integer, and the integer
//! is decoded into characters by repeated division by the character-set
//! size. The first character produced corresponds to the least-significant
//! digit.

use vstd::prelude::*;

use num_bigint::BigUint;

use crate::bignum::{
    big_bits, big_div_mod, big_from_bytes_le, big_from_usize, big_pow, big_to_usize, big_value,
    lemma_threshold_pos, threshold_spec,
};
use crate::bit_vec::{bits_value, BitVec};

verus! {

/// The XOR of the bytes `data[start..end]`.
pub open spec fn block_xor(data: Seq<u8>, start: int, end: int) -> u8
    decreases end - start,
{
    if start >= end {
        0
    } else {
        block_xor(data, start, end - 1) ^ data[end - 1]
    }
}

/// The parity of the set bits in `data[start..end]`: the low bit of the
/// XOR-fold.
pub open spec fn block_parity(data: Seq<u8>, start: int, end: int) -> bool {
    block_xor(data, start, end) & 1 == 1
}

/// The bit each of `n` consecutive blocks of `block_len` bytes reduces to.
pub open spec fn sample_bits(data: Seq<u8>, block_len: nat, n: nat) -> Seq<bool> {
    Seq::new(n, |k: int| block_parity(data, k * block_len, (k + 1) * block_len))
}

/// The password that the integer `value` decodes to: `len` characters,
/// each indexed by the next remainder of repeated division by the
/// character-set size, least-significant digit first.
pub open spec fn decode_spec(value: nat, charset: Seq<u8>, len: nat) -> Seq<u8>
    decreases len,
{
    if len == 0 {
        Seq::empty()
    } else {
        seq![charset[(value % (charset.len() as nat)) as int]] + decode_spec(
            value / (charset.len() as nat),
            charset,
            (len - 1) as nat,
        )
    }
}

/// A decoded password has exactly the requested length.
pub proof fn lemma_decode_len(value: nat, charset: Seq<u8>, len: nat)
    requires
        charset.len() >= 1,
    ensures
        decode_spec(value, charset, len).len() == len,
    decreases len,
{
    if len > 0 {
        lemma_decode_len(value / (charset.len() as nat), charset, (len - 1) as nat);
    }
}

/// Every character of a decoded password is drawn from the character set.
pub proof fn lemma_decode_chars(value: nat, charset: Seq<u8>, len: nat)
    requires
        charset.len() >= 1,
    ensures
        forall|i: int|
            0 <= i < len ==> charset.contains(#[trigger] decode_spec(value, charset, len)[i]),
    decreases len,
{
    if len > 0 {
        let base = charset.len() as nat;
        let rest = decode_spec(value / base, charset, (len - 1) as nat);
        lemma_decode_chars(value / base, charset, (len - 1) as nat);
        lemma_decode_len(value / base, charset, (len - 1) as nat);
        assert forall|i: int|
            0 <= i < len implies charset.contains(
            #[trigger] decode_spec(value, charset, len)[i],
        ) by {
            if i == 0 {
                assert(value % base < base);
                assert(decode_spec(value, charset, len)[0] == charset[(value % base) as int]);
            } else {
                assert(decode_spec(value, charset, len)[i] == rest[i - 1]);
            }
        }
    }
}

/// Reduces the block `data[start..end]` to one bit: the parity of its set
/// bits.
pub fn hash_block(data: &Vec<u8>, start: usize, end: usize) -> (r: bool)
    requires
        start <= end,
        end <= data@.len(),
    ensures
        r == block_parity(data@, start as int, end as int),
{
    let mut result: u8 = 0;
    for idx in start..end
        invariant
            start <= idx <= end,
            end <= data@.len(),
            result == block_xor(data@, start as int, idx as int),
    {
        result = result ^ data[idx];
    }
    let r = result & 1 != 0;
    proof {
        assert((result & 1 != 0) == (result & 1 == 1)) by (bit_vector);
    }
    r
}

/// Reads `data` as one password's worth of entropy: one bit per block,
/// blocks as large as the data allows, as many bits as the sample
/// threshold asks for.
pub fn hash(data: &Vec<u8>, base: usize, len: usize) -> (r: BigUint)
    requires
        base >= 1,
        len <= u32::MAX,
        threshold_spec(base as nat, len as nat) <= usize::MAX,
    ensures
        ({
            let t = threshold_spec(base as nat, len as nat);
            big_value(r) == bits_value(sample_bits(data@, data@.len() / t, t))
        }),
{
    let base_big = big_from_usize(base);
    let powed = big_pow(&base_big, len as u32);
    let num_blocks_wide = big_bits(&powed);
    proof {
        lemma_threshold_pos(base as nat, len as nat);
    }
    let num_blocks = num_blocks_wide as usize;
    let mut bvec = BitVec::new(num_blocks);
    let block_len = data.len() / num_blocks;
    proof {
        assert(num_blocks * block_len <= data@.len()) by (nonlinear_arith)
            requires
                num_blocks >= 1 && block_len == data@.len() as int / num_blocks as int,
        ;
    }
    let mut i = num_blocks;
    let mut idx: usize = 0;
    while i > 0
        invariant
            i <= num_blocks,
            num_blocks >= 1,
            num_blocks * block_len <= data@.len(),
            data@.len() <= usize::MAX,
            block_len == data@.len() as int / num_blocks as int,
            idx == (num_blocks - i) * block_len,
            bvec.wf(),
            bvec@ == sample_bits(data@, block_len as nat, (num_blocks - i) as nat),
        decreases i,
    {
        let ghost done = (num_blocks - i) as nat;
        proof {
            assert((done + 1) * block_len <= num_blocks * block_len && done * block_len + block_len
                == (done + 1) * block_len) by (nonlinear_arith)
                requires
                    done + 1 <= num_blocks && block_len >= 0,
            ;
            assert(bvec@.len() < usize::MAX);
        }
        let idx_next = idx + block_len;
        if hash_block(data, idx, idx_next) {
            bvec.push_one();
        } else {
            bvec.push_zero();
        }
        proof {
            assert(sample_bits(data@, block_len as nat, done + 1) =~= sample_bits(
                data@,
                block_len as nat,
                done,
            ).push(block_parity(data@, done * block_len, (done + 1) * block_len)));
        }
        i = i - 1;
        idx = idx_next;
    }
    let drained = bvec.reset();
    big_from_bytes_le(&drained)
}

/// Decodes `value` into a password of `len` characters over `charset` by
/// repeated floored division, least-significant digit first.
pub fn decode(value: BigUint, charset: &Vec<u8>, len: usize) -> (r: Vec<u8>)
    requires
        charset@.len() >= 1,
    ensures
        r@ == decode_spec(big_value(value), charset@, len as nat),
{
    let base = charset.len();
    let base_big = big_from_usize(base);
    let mut result: Vec<u8> = Vec::with_capacity(len);
    let mut val = value;
    let ghost orig = big_value(value);
    for k in 0..len
        invariant
            base == charset@.len(),
            base >= 1,
            big_value(base_big) == base as nat,
            result@.len() == k,
            decode_spec(orig, charset@, len as nat) == result@ + decode_spec(
                big_value(val),
                charset@,
                (len - k) as nat,
            ),
    {
        let ghost val0 = big_value(val);
        let ghost prefix = result@;
        let (quo, rem) = big_div_mod(&val, &base_big);
        val = quo;
        let code_opt = big_to_usize(&rem);
        proof {
            assert(big_value(rem) < base as nat);
        }
        let code = code_opt.unwrap();
        let c = charset[code];
        result.push(c);
        proof {
            assert(decode_spec(val0, charset@, (len - k) as nat) == seq![c] + decode_spec(
                big_value(val),
                charset@,
                (len - k - 1) as nat,
            ));
            assert(prefix + (seq![c] + decode_spec(big_value(val), charset@, (len - k - 1) as nat))
                =~= result@ + decode_spec(big_value(val), charset@, (len - k - 1) as nat));
        }
    }
    proof {
        assert(result@ + decode_spec(big_value(val), charset@, 0) =~= result@);
    }
    result
}

/// Generates one password from `data`: reads it as an integer by `hash`
/// and decodes the integer over `charset`.
pub fn generate(data: &Vec<u8>, charset: &Vec<u8>, len: usize) -> (r: Vec<u8>)
    requires
        charset@.len() >= 1,
        len <= u32::MAX,
        threshold_spec(charset@.len(), len as nat) <= usize::MAX,
    ensures
        ({
            let t = threshold_spec(charset@.len(), len as nat);
            r@ == decode_spec(
                bits_value(sample_bits(data@, data@.len() / t, t)),
                charset@,
                len as nat,
            )
        }),
{
    let val = hash(data, charset.len(), len);
    decode(val, charset, len)
}

} // verus!

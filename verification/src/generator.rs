//! The generator: the orchestrator of the entropy-to-password pipeline. It
//! accumulates incoming bits into a buffer and, each time the sample
//! threshold is reached, drains the buffer, reads the drained bytes as a
//! little-endian integer, and decodes that integer into one password.

use vstd::arithmetic::div_mod::lemma_fundamental_div_mod_converse;
use vstd::prelude::*;

use num_bigint::BigUint;

use crate::bignum::{
    big_bits, big_from_bytes_le, big_from_usize, big_pow, big_value, lemma_threshold_pos,
    threshold_spec,
};
use crate::bit_vec::{bits_value, BitVec};
use crate::gen::decode_spec;

verus! {

/// The passwords a stream of bits completes: one for each full window of
/// `threshold` bits, each decoded from the value of its own window,
/// windows taken in arrival order.
pub open spec fn chunk_passwords(
    charset: Seq<u8>,
    pwd_len: nat,
    threshold: nat,
    stream: Seq<bool>,
) -> Seq<Seq<u8>>
    recommends
        threshold >= 1,
{
    Seq::new(
        stream.len() / threshold,
        |k: int|
            decode_spec(
                bits_value(stream.subrange(k * threshold, (k + 1) * threshold)),
                charset,
                pwd_len,
            ),
    )
}

/// The same stream yields the same passwords: the completed passwords are
/// a function of the character set, the password length, the threshold and
/// the arrived bits alone, with no hidden randomness.
pub proof fn lemma_generator_deterministic(
    charset: Seq<u8>,
    pwd_len: nat,
    threshold: nat,
    stream: Seq<bool>,
    first: Seq<Seq<u8>>,
    second: Seq<Seq<u8>>,
)
    requires
        first == chunk_passwords(charset, pwd_len, threshold, stream),
        second == chunk_passwords(charset, pwd_len, threshold, stream),
    ensures
        first == second,
{
}

pub struct Generator {
    /// The character set.
    charset: Vec<u8>,
    /// The buffer for the current password.
    buffer: BitVec,
    /// The length of each password in characters.
    pwd_len: usize,
    /// The number of samples for each password.
    num_samples: usize,
}

impl Generator {
    /// The character set, in the order that fixes the digit mapping.
    pub closed spec fn charset_view(&self) -> Seq<u8> {
        self.charset@
    }

    /// The password length in characters.
    pub closed spec fn pwd_len_view(&self) -> nat {
        self.pwd_len as nat
    }

    /// The sample threshold: bits accumulated per password.
    pub closed spec fn threshold_view(&self) -> nat {
        self.num_samples as nat
    }

    /// The bits accumulated since the last completed password.
    pub closed spec fn pending(&self) -> Seq<bool> {
        self.buffer@
    }

    /// The character set is nonempty, the stored threshold is the bit
    /// length of `base ^ pwd_len`, and fewer than one password's worth of
    /// bits is pending.
    pub closed spec fn wf(&self) -> bool {
        &&& self.charset@.len() >= 1
        &&& self.num_samples as nat == threshold_spec(self.charset@.len(), self.pwd_len as nat)
        &&& self.num_samples >= 1
        &&& self.buffer.wf()
        &&& self.buffer@.len() < self.num_samples
    }

    /// A generator for passwords of `pwd_len` characters over `charset`,
    /// with the sample threshold computed once by exact exponentiation.
    pub fn new(charset: Vec<u8>, pwd_len: usize) -> (r: Generator)
        requires
            charset@.len() >= 1,
            pwd_len <= u32::MAX,
            threshold_spec(charset@.len(), pwd_len as nat) <= usize::MAX,
        ensures
            r.wf(),
            r.charset_view() == charset@,
            r.pwd_len_view() == pwd_len as nat,
            r.threshold_view() == threshold_spec(charset@.len(), pwd_len as nat),
            r.pending() == Seq::<bool>::empty(),
    {
        let base = charset.len();
        let base_big = big_from_usize(base);
        let powed = big_pow(&base_big, pwd_len as u32);
        let wide = big_bits(&powed);
        proof {
            lemma_threshold_pos(base as nat, pwd_len as nat);
        }
        let num_samples = wide as usize;
        Generator { charset, buffer: BitVec::new(num_samples), pwd_len, num_samples }
    }

    /// The sample threshold: how many bits must arrive for each password.
    pub fn threshold(&self) -> (r: usize)
        requires
            self.wf(),
        ensures
            r as nat == self.threshold_view(),
    {
        self.num_samples
    }

    /// Decodes the given integer into a password.
    fn decode(&self, val: BigUint) -> (r: Vec<u8>)
        requires
            self.wf(),
        ensures
            r@ == decode_spec(big_value(val), self.charset_view(), self.pwd_len_view()),
    {
        crate::gen::decode(val, &self.charset, self.pwd_len)
    }

    /// Pushes bits to this generator, in arrival order. Returns the
    /// passwords completed by this call: one for each window of
    /// `threshold` bits that the pending bits plus the pushed bits fill,
    /// while the leftover below one threshold stays pending.
    pub fn push(&mut self, bits: &Vec<bool>) -> (r: Vec<Vec<u8>>)
        requires
            old(self).wf(),
        ensures
            final(self).wf(),
            final(self).charset_view() == old(self).charset_view(),
            final(self).pwd_len_view() == old(self).pwd_len_view(),
            final(self).threshold_view() == old(self).threshold_view(),
            ({
                let stream = old(self).pending() + bits@;
                let t = old(self).threshold_view() as int;
                &&& r.deep_view() == chunk_passwords(
                    old(self).charset_view(),
                    old(self).pwd_len_view(),
                    old(self).threshold_view(),
                    stream,
                )
                &&& final(self).pending() == stream.skip((stream.len() as int / t) * t)
            }),
    {
        let ghost p = old(self).pending();
        let ghost t = old(self).threshold_view();
        let ghost cs = old(self).charset_view();
        let ghost pl = old(self).pwd_len_view();
        let mut result: Vec<Vec<u8>> = Vec::new();
        proof {
            assert(p + bits@.take(0) =~= p);
            assert(result.deep_view() =~= Seq::<Seq<u8>>::empty());
            lemma_fundamental_div_mod_converse(p.len() as int, t as int, 0, p.len() as int);
            assert(p.skip(0) =~= p);
        }
        let mut j: usize = 0;
        while j < bits.len()
            invariant
                old(self).wf(),
                self.wf(),
                self.charset@ == old(self).charset@,
                self.pwd_len == old(self).pwd_len,
                self.num_samples == old(self).num_samples,
                cs == self.charset@,
                pl == self.pwd_len as nat,
                t == self.num_samples as nat,
                p == old(self).pending(),
                j <= bits@.len(),
                result.deep_view() == chunk_passwords(cs, pl, t, p + bits@.take(j as int)),
                result@.len() * t + self.buffer@.len() == p.len() + j,
                self.buffer@ == (p + bits@.take(j as int)).skip((result@.len() * t) as int),
            decreases bits@.len() - j,
        {
            let ghost stream0 = p + bits@.take(j as int);
            let ghost n = result@.len();
            let ghost chunks0 = chunk_passwords(cs, pl, t, stream0);
            let ghost buf0 = self.buffer@.len();
            proof {
                lemma_fundamental_div_mod_converse(
                    stream0.len() as int,
                    t as int,
                    n as int,
                    buf0 as int,
                );
                assert(chunks0.len() == n);
            }
            let bit = bits[j];
            proof {
                assert(p + bits@.take(j as int + 1) =~= stream0.push(bits@[j as int]));
                assert((n + 1) * t == n * t + t) by (nonlinear_arith);
            }
            if bit {
                self.buffer.push_one();
            } else {
                self.buffer.push_zero();
            }
            let ghost stream1 = stream0.push(bits@[j as int]);
            let ghost dv0 = result.deep_view();
            proof {
                assert(self.buffer@ =~= stream1.skip((n * t) as int));
                lemma_chunks_extend(t, stream0, bits@[j as int], n);
            }
            if self.buffer.len() >= self.num_samples {
                let ghost chunk = self.buffer@;
                let drained = self.buffer.reset();
                let value = big_from_bytes_le(&drained);
                let pwd = self.decode(value);
                result.push(pwd);
                proof {
                    let chunks1 = chunk_passwords(cs, pl, t, stream1);
                    assert(stream1.len() == n * t + t);
                    lemma_fundamental_div_mod_converse(
                        stream1.len() as int,
                        t as int,
                        n as int + 1,
                        0,
                    );
                    assert(chunks1.len() == n + 1);
                    assert(stream1.subrange((n * t) as int, ((n + 1) * t) as int) =~= chunk);
                    assert(pwd.deep_view() =~= pwd@);
                    assert forall|k: int| 0 <= k < n + 1 implies result.deep_view()[k] == chunks1[k] by {
                        if k < n {
                            assert(result.deep_view()[k] == dv0[k]);
                            assert(stream0.push(bits@[j as int]).subrange(k * t, (k + 1) * t)
                                == stream0.subrange(k * t, (k + 1) * t));
                            assert(chunks1[k] == chunks0[k]);
                        } else {
                            assert(result.deep_view()[k] == pwd.deep_view());
                            assert(chunks1[k] == decode_spec(bits_value(chunk), cs, pl));
                        }
                    }
                    assert(result.deep_view() =~= chunks1);
                    assert(stream1.skip((result@.len() * t) as int) =~= Seq::<bool>::empty());
                }
            } else {
                proof {
                    let chunks1 = chunk_passwords(cs, pl, t, stream1);
                    lemma_fundamental_div_mod_converse(
                        stream1.len() as int,
                        t as int,
                        n as int,
                        self.buffer@.len() as int,
                    );
                    assert(chunks1.len() == n);
                    assert forall|k: int| 0 <= k < n implies result.deep_view()[k] == chunks1[k] by {
                        assert(result.deep_view()[k] == dv0[k]);
                        assert(stream0.push(bits@[j as int]).subrange(k * t, (k + 1) * t)
                            == stream0.subrange(k * t, (k + 1) * t));
                        assert(chunks1[k] == chunks0[k]);
                    }
                    assert(result.deep_view() =~= chunks1);
                }
            }
            j = j + 1;
        }
        proof {
            let stream = p + bits@;
            assert(p + bits@.take(j as int) =~= stream);
            lemma_fundamental_div_mod_converse(
                stream.len() as int,
                t as int,
                result@.len() as int,
                self.buffer@.len() as int,
            );
        }
        result
    }
}

/// Extending a stream by one bit leaves every already-complete window of
/// `threshold` bits exactly as it was.
proof fn lemma_chunks_extend(threshold: nat, stream: Seq<bool>, b: bool, n: nat)
    requires
        threshold >= 1,
        n * threshold <= stream.len(),
    ensures
        forall|k: int|
            0 <= k < n ==> #[trigger] stream.push(b).subrange(k * threshold, (k + 1) * threshold)
                == stream.subrange(k * threshold, (k + 1) * threshold),
{
    assert forall|k: int|
        0 <= k < n implies #[trigger] stream.push(b).subrange(k * threshold, (k + 1) * threshold)
        == stream.subrange(k * threshold, (k + 1) * threshold) by {
        assert(0 <= k * threshold && k * threshold <= (k + 1) * threshold && (k + 1) * threshold
            <= n * threshold) by (nonlinear_arith)
            requires
                0 <= k && k + 1 <= n && threshold >= 1,
        ;
        assert(stream.push(b).subrange(k * threshold, (k + 1) * threshold) =~= stream.subrange(
            k * threshold,
            (k + 1) * threshold,
        ));
    }
}

} // verus!

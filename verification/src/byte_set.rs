//! A fixed-width set of byte values: a 256-bit bitmap held in four 64-bit
//! words. Bit `v % 64` of word `v / 64` is set exactly when `v` is a member.
//! Supports membership, insertion, removal, in-place set difference, subset
//! and emptiness tests, and iteration in strictly ascending value order.

use vstd::prelude::*;

verus! {

/// True when bit `i` of the word `w` is set.
pub open spec fn word_bit(w: u64, i: u64) -> bool {
    (w >> i) & 1u64 == 1u64
}

/// True when the 256-bit bitmap `words` holds the byte value `v`.
pub open spec fn bitmap_member(words: Seq<u64>, v: u8) -> bool {
    word_bit(words[v as int / 64], (v % 64) as u64)
}

pub struct ByteSet {
    words: [u64; 4],
}

impl View for ByteSet {
    type V = Set<u8>;

    closed spec fn view(&self) -> Set<u8> {
        Set::new(|v: u8| bitmap_member(self.words@, v))
    }
}

proof fn lemma_word_bit_or(w: u64, b: u64, i: u64)
    by (bit_vector)
    requires
        b < 64,
        i < 64,
    ensures
        word_bit(w | (1u64 << b), i) == (word_bit(w, i) || i == b),
{
}

proof fn lemma_word_bit_clear(w: u64, b: u64, i: u64)
    by (bit_vector)
    requires
        b < 64,
        i < 64,
    ensures
        word_bit(w & !(1u64 << b), i) == (word_bit(w, i) && i != b),
{
}

proof fn lemma_word_bit_andnot(a: u64, b: u64, i: u64)
    by (bit_vector)
    requires
        i < 64,
    ensures
        word_bit(a & !b, i) == (word_bit(a, i) && !word_bit(b, i)),
{
}

proof fn lemma_word_zero_bit(i: u64)
    by (bit_vector)
    ensures
        !word_bit(0u64, i),
{
}

/// A nonzero word has at least one set bit.
proof fn lemma_word_nonzero_has_bit(w: u64)
    requires
        w != 0,
    ensures
        exists|i: u64| i < 64 && #[trigger] word_bit(w, i),
    decreases w,
{
    if w & 1 == 1 {
        assert(w & 1 == 1 ==> word_bit(w, 0)) by (bit_vector);
        assert(word_bit(w, 0));
    } else {
        assert(w != 0 && w & 1 != 1 ==> w >> 1 != 0 && w >> 1 < w) by (bit_vector);
        lemma_word_nonzero_has_bit(w >> 1);
        let i = choose|i: u64| i < 64 && #[trigger] word_bit(w >> 1, i);
        assert(!word_bit(w >> 1, 63)) by (bit_vector);
        let j = (i + 1) as u64;
        assert(i < 63 && word_bit(w >> 1, i) ==> word_bit(w, (i + 1) as u64)) by (bit_vector);
        assert(word_bit(w, j));
    }
}

/// A byte value determines, and is determined by, its word and bit position.
proof fn lemma_locate(v: u8)
    ensures
        0 <= v as int / 64 < 4,
        (v % 64) < 64,
        v == 64 * (v as int / 64) + (v % 64) as int,
{
}

impl ByteSet {
    pub fn new() -> (r: ByteSet)
        ensures
            r@ == Set::<u8>::empty(),
    {
        let r = ByteSet { words: [0, 0, 0, 0] };
        proof {
            assert forall|v: u8| !r@.contains(v) by {
                lemma_word_zero_bit((v % 64) as u64);
            }
            assert(r@ =~= Set::<u8>::empty());
        }
        r
    }

    pub fn from_raw_parts(words: [u64; 4]) -> (r: ByteSet)
        ensures
            forall|v: u8| r@.contains(v) <==> bitmap_member(words@, v),
    {
        ByteSet { words }
    }

    fn locate(value: u8) -> (r: (u8, u8))
        ensures
            r.0 == value / 64,
            r.1 == value % 64,
    {
        let word_idx = value / 64;
        let bit_idx = value % 64;
        (word_idx, bit_idx)
    }

    fn member(words: &[u64; 4], value: u8) -> (r: bool)
        ensures
            r == bitmap_member(words@, value),
    {
        let (word_idx, bit_idx) = Self::locate(value);
        let w = words[word_idx as usize];
        let r = ((w >> (bit_idx as u64)) & 1) != 0;
        proof {
            let i = (value % 64) as u64;
            assert(((w >> i) & 1 != 0) == word_bit(w, i)) by (bit_vector);
        }
        r
    }

    pub fn contains(&self, value: u8) -> (r: bool)
        ensures
            r == self@.contains(value),
    {
        Self::member(&self.words, value)
    }

    pub fn insert(&mut self, value: u8)
        ensures
            final(self)@ == old(self)@.insert(value),
    {
        let (word_idx, bit_idx) = Self::locate(value);
        let w = self.words[word_idx as usize];
        self.words[word_idx as usize] = w | (1u64 << (bit_idx as u64));
        proof {
            assert forall|v: u8| self@.contains(v) == old(self)@.insert(value).contains(v) by {
                lemma_locate(v);
                lemma_locate(value);
                if v as int / 64 == value as int / 64 {
                    lemma_word_bit_or(w, (value % 64) as u64, (v % 64) as u64);
                }
            }
            assert(self@ =~= old(self)@.insert(value));
        }
    }

    pub fn remove(&mut self, value: u8)
        ensures
            final(self)@ == old(self)@.remove(value),
    {
        let (word_idx, bit_idx) = Self::locate(value);
        let w = self.words[word_idx as usize];
        self.words[word_idx as usize] = w & !(1u64 << (bit_idx as u64));
        proof {
            assert forall|v: u8| self@.contains(v) == old(self)@.remove(value).contains(v) by {
                lemma_locate(v);
                lemma_locate(value);
                if v as int / 64 == value as int / 64 {
                    lemma_word_bit_clear(w, (value % 64) as u64, (v % 64) as u64);
                }
            }
            assert(self@ =~= old(self)@.remove(value));
        }
    }

    /// In-place set subtraction: afterwards `self` holds its old members that
    /// are not members of `other`.
    pub fn difference(&mut self, other: &Self)
        ensures
            final(self)@ == old(self)@.difference(other@),
    {
        for k in 0..4
            invariant
                forall|j: int|
                    0 <= j < k ==> self.words@[j] == old(self).words@[j] & !other.words@[j],
                forall|j: int| k <= j < 4 ==> self.words@[j] == old(self).words@[j],
        {
            self.words[k] = self.words[k] & !other.words[k];
        }
        proof {
            assert forall|v: u8| self@.contains(v) == old(self)@.difference(other@).contains(
                v,
            ) by {
                lemma_locate(v);
                lemma_word_bit_andnot(
                    old(self).words@[v as int / 64],
                    other.words@[v as int / 64],
                    (v % 64) as u64,
                );
            }
            assert(self@ =~= old(self)@.difference(other@));
        }
    }

    /// True exactly when every member of `self` is a member of `other`.
    pub fn is_subset(&self, other: &Self) -> (r: bool)
        ensures
            r == self@.subset_of(other@),
    {
        for k in 0..4
            invariant
                forall|j: int| 0 <= j < k ==> self.words@[j] & !other.words@[j] == 0,
        {
            if self.words[k] & !other.words[k] != 0 {
                proof {
                    let a = self.words@[k as int];
                    let b = other.words@[k as int];
                    lemma_word_nonzero_has_bit(a & !b);
                    let i = choose|i: u64| i < 64 && #[trigger] word_bit(a & !b, i);
                    lemma_word_bit_andnot(a, b, i);
                    let v = (64 * k + i) as u8;
                    assert(v as int / 64 == k && (v % 64) as u64 == i);
                    assert(self@.contains(v) && !other@.contains(v));
                }
                return false;
            }
        }
        proof {
            assert forall|v: u8| self@.contains(v) implies other@.contains(v) by {
                lemma_locate(v);
                lemma_word_bit_andnot(
                    self.words@[v as int / 64],
                    other.words@[v as int / 64],
                    (v % 64) as u64,
                );
                lemma_word_zero_bit((v % 64) as u64);
            }
        }
        true
    }

    /// True exactly when the set has no members.
    pub fn is_empty(&self) -> (r: bool)
        ensures
            r == (self@ == Set::<u8>::empty()),
    {
        for k in 0..4
            invariant
                forall|j: int| 0 <= j < k ==> self.words@[j] == 0,
        {
            if self.words[k] != 0 {
                proof {
                    let a = self.words@[k as int];
                    lemma_word_nonzero_has_bit(a);
                    let i = choose|i: u64| i < 64 && #[trigger] word_bit(a, i);
                    let v = (64 * k + i) as u8;
                    assert(v as int / 64 == k && (v % 64) as u64 == i);
                    assert(self@.contains(v));
                }
                return false;
            }
        }
        proof {
            assert forall|v: u8| !self@.contains(v) by {
                lemma_locate(v);
                lemma_word_zero_bit((v % 64) as u64);
            }
            assert(self@ =~= Set::<u8>::empty());
        }
        true
    }

    /// An iterator over the members, starting from the smallest.
    pub fn iter(&self) -> (r: Iter)
        ensures
            r.set_view() == self@,
            r.pos_view() == 0,
            r.wf(),
    {
        let r = Iter { words: self.words, pos: 0 };
        proof {
            assert(r.set_view() =~= self@);
        }
        r
    }

    /// The members of the set, in strictly ascending order. This ordering is
    /// load-bearing: it fixes the character-to-digit mapping used by the
    /// generator, where digit 0 is the numerically smallest member.
    pub fn to_vec(&self) -> (r: Vec<u8>)
        ensures
            forall|i: int, j: int| 0 <= i < j < r@.len() ==> r@[i] < r@[j],
            forall|v: u8| r@.contains(v) <==> self@.contains(v),
    {
        let mut it = self.iter();
        let mut result: Vec<u8> = Vec::new();
        loop
            invariant
                it.wf(),
                it.set_view() == self@,
                forall|i: int, j: int| 0 <= i < j < result@.len() ==> result@[i] < result@[j],
                forall|i: int| 0 <= i < result@.len() ==> (result@[i] as int) < it.pos_view(),
                forall|v: u8|
                    result@.contains(v) <==> (self@.contains(v) && (v as int) < it.pos_view()),
            decreases 257 - it.pos_view(),
        {
            let ghost prev = result@;
            match it.next() {
                Some(v) => {
                    result.push(v);
                    proof {
                        assert forall|u: u8|
                            result@.contains(u) <==> (self@.contains(u) && (u as int)
                                < it.pos_view()) by {
                            assert(result@ == prev.push(v));
                            if u == v {
                                assert(result@[result@.len() - 1] == v);
                            } else if prev.contains(u) {
                                let i = choose|i: int| 0 <= i < prev.len() && prev[i] == u;
                                assert(result@[i] == u);
                            } else if result@.contains(u) {
                                let i = choose|i: int|
                                    0 <= i < result@.len() && result@[i] == u;
                                assert(i < prev.len() && prev[i] == u);
                            }
                        }
                    }
                },
                None => {
                    return result;
                },
            }
        }
    }
}

/// Membership follows insertion and removal: after inserting `v` a set
/// contains it, and keeps containing it until `v` itself is removed;
/// inserting or removing a value twice is the same as doing it once.
pub proof fn lemma_member_ops(s: Set<u8>, v: u8, w: u8)
    ensures
        s.insert(v).contains(v),
        !s.remove(v).contains(v),
        s.insert(v).insert(v) == s.insert(v),
        s.remove(v).remove(v) == s.remove(v),
        w != v ==> s.insert(v).remove(w).contains(v),
{
    assert(s.insert(v).insert(v) =~= s.insert(v));
    assert(s.remove(v).remove(v) =~= s.remove(v));
}

/// Walks the members of a `ByteSet` in strictly ascending value order.
pub struct Iter {
    words: [u64; 4],
    /// The next value to examine; all members below it were already produced.
    pos: u16,
}

impl Iter {
    /// The members of the set being walked.
    pub closed spec fn set_view(&self) -> Set<u8> {
        Set::new(|v: u8| bitmap_member(self.words@, v))
    }

    /// The next value to examine, between 0 and 256.
    pub closed spec fn pos_view(&self) -> int {
        self.pos as int
    }

    pub open spec fn wf(&self) -> bool {
        self.pos_view() <= 256
    }

    /// The smallest member not yet produced, or `None` once no member is left.
    pub fn next(&mut self) -> (r: Option<u8>)
        requires
            old(self).wf(),
        ensures
            final(self).wf(),
            final(self).set_view() == old(self).set_view(),
            match r {
                Some(v) => {
                    &&& old(self).pos_view() <= v < 256
                    &&& final(self).pos_view() == v + 1
                    &&& old(self).set_view().contains(v)
                    &&& forall|u: u8|
                        old(self).pos_view() <= u < v ==> !old(self).set_view().contains(u)
                },
                None => {
                    &&& final(self).pos_view() == 256
                    &&& forall|u: u8|
                        old(self).pos_view() <= u ==> !old(self).set_view().contains(u)
                },
            },
    {
        while self.pos < 256
            invariant
                old(self).pos_view() <= self.pos as int <= 256,
                self.words == old(self).words,
                forall|u: u8|
                    old(self).pos_view() <= u < self.pos as int ==> !old(
                        self,
                    ).set_view().contains(u),
            decreases 256 - self.pos as int,
        {
            let v = self.pos as u8;
            let in_set = ByteSet::member(&self.words, v);
            self.pos = self.pos + 1;
            if in_set {
                return Some(v);
            }
        }
        None
    }
}

} // verus!

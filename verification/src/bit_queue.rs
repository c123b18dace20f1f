//! A queue of bits.
use std::collections::VecDeque;

use vstd::prelude::*;

verus! {

/// How many bits one word holds.
pub const WORD_BITS: usize = 64;

/// A one-direction bit vector queue. It stores bits in the words of a ring buffer, the first bit
/// of a word being its most significant one:
///
/// `010000000101_110111011111_000001000000000`
///  ^        ^                ^    ^
///  |        |________________|____|
///  |________|         len    |____|
///     head                    tail
#[derive(Debug)]
pub struct BitVecQueue {
    store: VecDeque<u64>,
    /// The place of the first bit in the first word.
    head: usize,
    /// The place of the last bit in the last word.
    tail: usize,
}

/// The bit at a place of a word.
pub open spec fn bit_at(word: u64, slot: int) -> bool {
    (word >> ((63 - slot) as u64)) & 1u64 == 1u64
}

proof fn lemma_put_bit(word: u64, k: u64, j: u64)
    requires
        k < 64,
        j < 64,
    ensures
        ((word | (1u64 << k)) >> j) & 1u64 == 1u64 <==> (j == k || (word >> j) & 1u64 == 1u64),
        ((word & !(1u64 << k)) >> j) & 1u64 == 1u64 <==> (j != k && (word >> j) & 1u64 == 1u64),
{
    assert(((word | (1u64 << k)) >> j) & 1u64 == 1u64 <==> (j == k || (word >> j) & 1u64 == 1u64))
        by (bit_vector)
        requires
            k < 64,
            j < 64,
    ;
    assert(((word & !(1u64 << k)) >> j) & 1u64 == 1u64 <==> (j != k && (word >> j) & 1u64 == 1u64))
        by (bit_vector)
        requires
            k < 64,
            j < 64,
    ;
}

/// The word with one of its bits set to `v`.
fn put_bit(word: u64, slot: usize, v: bool) -> (r: u64)
    requires
        slot < WORD_BITS,
    ensures
        forall|i: int|
            0 <= i < WORD_BITS ==> #[trigger] bit_at(r, i) == (if i == slot {
                v
            } else {
                bit_at(word, i)
            }),
{
    let k: u64 = (63 - slot) as u64;
    let r: u64 = if v {
        word | (1u64 << k)
    } else {
        word & !(1u64 << k)
    };
    proof {
        assert forall|i: int| 0 <= i < WORD_BITS implies #[trigger] bit_at(r, i) == (if i == slot {
            v
        } else {
            bit_at(word, i)
        }) by {
            lemma_put_bit(word, k, (63 - i) as u64);
        }
    }
    r
}

impl View for BitVecQueue {
    type V = Seq<bool>;

    closed spec fn view(&self) -> Seq<bool> {
        Seq::new(self.bits(), |i: int| self.bit(i))
    }
}

impl BitVecQueue {
    spec fn bits(self) -> nat {
        if self.store@.len() == 0 {
            0
        } else {
            ((self.store@.len() - 1) * WORD_BITS + self.tail - self.head + 1) as nat
        }
    }

    spec fn bit(self, i: int) -> bool {
        bit_at(self.store@[(self.head + i) / 64], (self.head + i) % 64)
    }

    /// `head` and `tail` lie in their words, `head` no further than just behind `tail`.
    pub closed spec fn wf(self) -> bool {
        &&& self.head < WORD_BITS
        &&& self.tail < WORD_BITS
        &&& self.store@.len() == 0 ==> self.head == 0
        &&& self.store@.len() == 1 ==> self.head <= self.tail
        &&& self.store@.len() * WORD_BITS <= usize::MAX
    }

    /// A queue without bits.
    pub fn new() -> (r: BitVecQueue)
        ensures
            r.wf(),
            r@ == Seq::<bool>::empty(),
    {
        let r = BitVecQueue { store: VecDeque::new(), head: 0, tail: 0 };
        assert(r@ =~= Seq::<bool>::empty());
        r
    }

    /// A queue without bits, with room for `cap_bits` of them.
    pub fn with_capacity(cap_bits: usize) -> (r: BitVecQueue)
        ensures
            r.wf(),
            r@ == Seq::<bool>::empty(),
    {
        let r = BitVecQueue {
            store: VecDeque::with_capacity(cap_bits / WORD_BITS),
            head: 0,
            tail: 0,
        };
        assert(r@ =~= Seq::<bool>::empty());
        r
    }

    /// How many bits there are.
    pub fn len(&self) -> (r: usize)
        requires
            self.wf(),
        ensures
            r == self@.len(),
    {
        if self.store.len() == 0 {
            return 0;
        }
        (self.store.len() - 1) * WORD_BITS + self.tail - self.head + 1
    }

    /// The bit at `idx`, counted from the front.
    pub fn get(&self, idx: usize) -> (r: Option<bool>)
        requires
            self.wf(),
        ensures
            r == (if idx < self@.len() {
                Some(self@[idx as int])
            } else {
                None
            }),
    {
        if idx >= self.len() {
            return None;
        }
        let at: usize = self.head + idx;
        let word: u64 = self.store[at / WORD_BITS];
        let k: u64 = (63 - at % WORD_BITS) as u64;
        Some((word >> k) & 1u64 == 1u64)
    }

    /// Changes the bit at `idx`; where there is none, nothing happens.
    pub fn set(&mut self, idx: usize, v: bool)
        requires
            old(self).wf(),
        ensures
            final(self).wf(),
            final(self)@ == (if idx < old(self)@.len() {
                old(self)@.update(idx as int, v)
            } else {
                old(self)@
            }),
    {
        if idx >= self.len() {
            return ;
        }
        let at: usize = self.head + idx;
        let index: usize = at / WORD_BITS;
        let slot: usize = at % WORD_BITS;
        let word: u64 = put_bit(self.store[index], slot, v);
        self.store.remove(index);
        self.store.insert(index, word);
        proof {
            assert(self.store@ =~= old(self).store@.update(index as int, word));
            assert forall|i: int| 0 <= i < self@.len() implies self@[i] == old(self)@.update(
                idx as int,
                v,
            )[i] by {
                let p = self.head + i;
                if p / 64 == index {
                    assert(bit_at(word, p % 64) == (if p % 64 == slot {
                        v
                    } else {
                        bit_at(old(self).store@[index as int], p % 64)
                    }));
                }
            }
            assert(self@ =~= old(self)@.update(idx as int, v));
        }
    }

    /// Appends a bit.
    pub fn push_back(&mut self, v: bool)
        requires
            old(self).wf(),
            old(self)@.len() + 3 * WORD_BITS <= usize::MAX,
        ensures
            final(self).wf(),
            final(self)@ == old(self)@.push(v),
    {
        let n: usize = self.store.len();
        if self.tail == WORD_BITS - 1 || n == 0 {
            self.tail = 0;
            let word: u64 = put_bit(0, 0, v);
            self.store.push_back(word);
            assert(bit_at(word, 0) == v);
            assert(self@ =~= old(self)@.push(v));
            return ;
        }
        self.tail = self.tail + 1;
        let word: u64 = put_bit(self.store[n - 1], self.tail, v);
        self.store.pop_back();
        self.store.push_back(word);
        proof {
            let last = old(self).store@[n - 1];
            assert(self.store@ =~= old(self).store@.update(n - 1, word));
            assert forall|i: int| 0 <= i < self@.len() implies self@[i] == old(self)@.push(v)[i] by {
                let p = self.head + i;
                if p / 64 == n - 1 {
                    assert(bit_at(word, p % 64) == (if p % 64 == self.tail {
                        v
                    } else {
                        bit_at(last, p % 64)
                    }));
                }
            }
            assert(self@ =~= old(self)@.push(v));
        }
    }

    /// The first bit.
    pub fn front(&self) -> (r: Option<bool>)
        requires
            self.wf(),
        ensures
            r == (if self@.len() > 0 {
                Some(self@[0])
            } else {
                None
            }),
    {
        self.get(0)
    }

    /// Takes the first bit off; where there is none, nothing happens.
    pub fn pop_front(&mut self)
        requires
            old(self).wf(),
        ensures
            final(self).wf(),
            final(self)@ == (if old(self)@.len() > 0 {
                old(self)@.skip(1)
            } else {
                old(self)@
            }),
    {
        let n: usize = self.store.len();
        if n == 0 {
            return ;
        }
        if self.head == WORD_BITS - 1 {
            self.head = 0;
            self.store.pop_front();
            assert(self@ =~= old(self)@.skip(1));
            return ;
        }
        if n == 1 && self.head == self.tail {
            self.head = 0;
            self.tail = 0;
            self.store.clear();
            assert(self@ =~= old(self)@.skip(1));
            return ;
        }
        self.head = self.head + 1;
        assert(self@ =~= old(self)@.skip(1));
    }
}

} // verus!

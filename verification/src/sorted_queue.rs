//! A queue whose first item is the least one; items with one key leave in the order they came in.
use std::collections::VecDeque;

use vstd::prelude::*;

verus! {

/// Something that is ordered by a number.
pub trait Keyed: Sized {
    /// The number.
    spec fn spec_key(&self) -> nat;

    /// The number.
    fn key(&self) -> (r: u64)
        ensures
            r == self.spec_key(),
    ;
}

/// No item has a greater key than one behind it.
pub open spec fn sorted<T: Keyed>(s: Seq<T>) -> bool {
    forall|i: int, j: int|
        0 <= i < j < s.len() ==> (#[trigger] s[i]).spec_key() <= (#[trigger] s[j]).spec_key()
}

/// The place behind all items whose key is at most `k`, in a sorted run.
pub open spec fn slot<T: Keyed>(s: Seq<T>, k: nat) -> int
    decreases s.len(),
{
    if s.len() == 0 {
        0
    } else if s.last().spec_key() <= k {
        s.len() as int
    } else {
        slot(s.drop_last(), k)
    }
}

/// `s` with `x` at its place.
pub open spec fn insert_sorted<T: Keyed>(s: Seq<T>, x: T) -> Seq<T> {
    s.insert(slot(s, x.spec_key()), x)
}

/// `s` with the items of `xs` at their places, one after the other.
pub open spec fn insert_all<T: Keyed>(s: Seq<T>, xs: Seq<T>) -> Seq<T>
    decreases xs.len(),
{
    if xs.len() == 0 {
        s
    } else {
        insert_sorted(insert_all(s, xs.drop_last()), xs.last())
    }
}

/// Items in the order of their keys.
#[derive(Debug)]
pub struct SortedQueue<T> {
    /// The items, the least key first.
    pub items: VecDeque<T>,
}

impl<T> View for SortedQueue<T> {
    type V = Seq<T>;

    open spec fn view(&self) -> Seq<T> {
        self.items@
    }
}

impl<T: Keyed> SortedQueue<T> {
    /// The items are in order.
    pub open spec fn wf(self) -> bool {
        sorted(self.items@)
    }

    /// A queue without items.
    pub fn new() -> (r: SortedQueue<T>)
        ensures
            r.wf(),
            r@ == Seq::<T>::empty(),
    {
        SortedQueue { items: VecDeque::new() }
    }

    /// How many items there are.
    pub fn len(&self) -> (r: usize)
        ensures
            r == self@.len(),
    {
        self.items.len()
    }

    /// Whether there is no item.
    pub fn is_empty(&self) -> (r: bool)
        ensures
            r == (self@.len() == 0),
    {
        self.items.len() == 0
    }

    /// Puts an item at its place, behind those of the same key.
    pub fn push(&mut self, x: T)
        requires
            old(self).wf(),
        ensures
            final(self).wf(),
            final(self)@ == insert_sorted(old(self)@, x),
    {
        let ghost s = self.items@;
        let k: u64 = x.key();
        let mut at: usize = self.items.len();
        assert(s.take(at as int) =~= s);
        while at > 0 && self.items[at - 1].key() > k
            invariant
                at <= s.len(),
                s == self.items@,
                slot(s, k as nat) == slot(s.take(at as int), k as nat),
            decreases at,
        {
            assert(s.take(at as int).drop_last() =~= s.take(at - 1));
            at = at - 1;
        }
        assert(slot(s.take(at as int), k as nat) == at) by {
            if at > 0 {
                assert(s.take(at as int).last() == s[at - 1]);
            }
        }
        self.items.insert(at, x);
        proof {
            lemma_insert_sorted(s, x);
        }
    }

    /// Takes the first item off.
    pub fn pop(&mut self) -> (r: Option<T>)
        requires
            old(self).wf(),
        ensures
            final(self).wf(),
            match r {
                Some(x) => old(self)@.len() > 0 && x == old(self)@[0] && final(self)@ == old(
                    self,
                )@.skip(1),
                None => old(self)@.len() == 0 && final(self)@ == old(self)@,
            },
    {
        let ghost s = self.items@;
        let r = self.items.pop_front();
        assert(r is Some ==> self.items@ =~= s.skip(1));
        r
    }
}

pub(crate) proof fn lemma_slot<T: Keyed>(s: Seq<T>, k: nat)
    requires
        sorted(s),
    ensures
        0 <= slot(s, k) <= s.len(),
        forall|i: int| 0 <= i < slot(s, k) ==> (#[trigger] s[i]).spec_key() <= k,
        forall|i: int| slot(s, k) <= i < s.len() ==> k < (#[trigger] s[i]).spec_key(),
    decreases s.len(),
{
    if s.len() > 0 {
        if s.last().spec_key() > k {
            let init = s.drop_last();
            lemma_slot(init, k);
            assert forall|i: int| 0 <= i < slot(s, k) implies (#[trigger] s[i]).spec_key() <= k by {
                assert(init[i] == s[i]);
            }
            assert forall|i: int| slot(s, k) <= i < s.len() implies k < (
            #[trigger] s[i]).spec_key() by {
                if i < init.len() {
                    assert(init[i] == s[i]);
                }
            }
        }
    }
}

/// A sorted run stays sorted, and gains the item and nothing else.
pub proof fn lemma_insert_sorted<T: Keyed>(s: Seq<T>, x: T)
    requires
        sorted(s),
    ensures
        sorted(insert_sorted(s, x)),
        insert_sorted(s, x).len() == s.len() + 1,
        insert_sorted(s, x).to_multiset() == s.to_multiset().insert(x),
{
    let at = slot(s, x.spec_key());
    lemma_slot(s, x.spec_key());
    let t = s.insert(at, x);
    assert forall|i: int, j: int| 0 <= i < j < t.len() implies (#[trigger] t[i]).spec_key() <= (
    #[trigger] t[j]).spec_key() by {
        if i < at {
            assert(t[i] == s[i]);
        } else if i > at {
            assert(t[i] == s[i - 1]);
        }
        if j < at {
            assert(t[j] == s[j]);
        } else if j > at {
            assert(t[j] == s[j - 1]);
        }
    }
    broadcast use vstd::seq_lib::group_to_multiset_ensures;

    assert(t.to_multiset() =~= s.to_multiset().insert(x));
}

/// Every item that is put in is there, and nothing else joins.
pub proof fn lemma_insert_all<T: Keyed>(s: Seq<T>, xs: Seq<T>)
    requires
        sorted(s),
    ensures
        sorted(insert_all(s, xs)),
        insert_all(s, xs).len() == s.len() + xs.len(),
        forall|i: int|
            0 <= i < xs.len() ==> #[trigger] insert_all(s, xs).contains(xs[i]),
        forall|i: int| 0 <= i < s.len() ==> insert_all(s, xs).contains(#[trigger] s[i]),
    decreases xs.len(),
{
    if xs.len() > 0 {
        let init = xs.drop_last();
        let before = insert_all(s, init);
        let after = insert_all(s, xs);
        let at = slot(before, xs.last().spec_key());
        lemma_insert_all(s, init);
        lemma_insert_sorted(before, xs.last());
        lemma_slot(before, xs.last().spec_key());
        assert(after[at] == xs.last());
        assert forall|x: T| before.contains(x) implies after.contains(x) by {
            let k = choose|k: int| 0 <= k < before.len() && before[k] == x;
            if k < at {
                assert(after[k] == x);
            } else {
                assert(after[k + 1] == x);
            }
        }
        assert forall|i: int| 0 <= i < xs.len() implies #[trigger] after.contains(xs[i]) by {
            if i < init.len() {
                assert(before.contains(init[i]));
            }
        }
    } else {
        assert forall|i: int| 0 <= i < s.len() implies insert_all(s, xs).contains(
            #[trigger] s[i],
        ) by {
            assert(insert_all(s, xs)[i] == s[i]);
        }
    }
}

/// Nothing is made up: what is in the queue was there before or was put in.
pub proof fn lemma_insert_all_from<T: Keyed>(s: Seq<T>, xs: Seq<T>)
    requires
        sorted(s),
    ensures
        forall|i: int|
            0 <= i < insert_all(s, xs).len() ==> s.contains(#[trigger] insert_all(s, xs)[i])
                || xs.contains(insert_all(s, xs)[i]),
    decreases xs.len(),
{
    if xs.len() > 0 {
        let init = xs.drop_last();
        let before = insert_all(s, init);
        let after = insert_all(s, xs);
        let at = slot(before, xs.last().spec_key());
        lemma_insert_all_from(s, init);
        lemma_insert_all(s, init);
        lemma_slot(before, xs.last().spec_key());
        assert forall|i: int| 0 <= i < after.len() implies s.contains(#[trigger] after[i])
            || xs.contains(after[i]) by {
            if i == at {
                assert(xs[xs.len() - 1] == after[i]);
            } else {
                let k = if i < at {
                    i
                } else {
                    i - 1
                };
                assert(after[i] == before[k]);
                if init.contains(before[k]) {
                    let l = choose|l: int| 0 <= l < init.len() && init[l] == before[k];
                    assert(xs[l] == after[i]);
                }
            }
        }
    }
}

spec fn place<T>(q: Seq<T>, x: T) -> int {
    choose|k: int| 0 <= k < q.len() && q[k] == x
}

proof fn lemma_place_low<T: Keyed>(q: Seq<T>, all: Seq<T>, i: int)
    requires
        sorted(q),
        q.len() == all.len(),
        forall|j: int| 0 <= j < all.len() ==> (#[trigger] all[j]).spec_key() == j,
        forall|j: int| 0 <= j < all.len() ==> q.contains(#[trigger] all[j]),
        0 <= i < all.len(),
    ensures
        i <= place(q, all[i]) < q.len(),
        q[place(q, all[i])] == all[i],
    decreases i,
{
    assert(q.contains(all[i]));
    if i > 0 {
        lemma_place_low(q, all, i - 1);
        let a = place(q, all[i - 1]);
        let b = place(q, all[i]);
        assert(all[i].spec_key() == i && all[i - 1].spec_key() == i - 1);
        assert(a < b);
    }
}

proof fn lemma_place_high<T: Keyed>(q: Seq<T>, all: Seq<T>, i: int)
    requires
        sorted(q),
        q.len() == all.len(),
        forall|j: int| 0 <= j < all.len() ==> (#[trigger] all[j]).spec_key() == j,
        forall|j: int| 0 <= j < all.len() ==> q.contains(#[trigger] all[j]),
        0 <= i < all.len(),
    ensures
        place(q, all[i]) <= i,
    decreases all.len() - i,
{
    lemma_place_low(q, all, i);
    if i + 1 < all.len() {
        lemma_place_high(q, all, i + 1);
        lemma_place_low(q, all, i + 1);
        let a = place(q, all[i]);
        let b = place(q, all[i + 1]);
        assert(all[i].spec_key() == i && all[i + 1].spec_key() == i + 1);
        assert(a < b);
    }
}

/// The order in which items arrive does not matter: items with the keys 0, 1, 2 and so on come
/// out in that order, whatever order they were put in.
pub proof fn lemma_any_order<T: Keyed>(all: Seq<T>, arrivals: Seq<T>)
    requires
        arrivals.len() == all.len(),
        forall|i: int| 0 <= i < all.len() ==> (#[trigger] all[i]).spec_key() == i,
        forall|i: int| 0 <= i < all.len() ==> arrivals.contains(#[trigger] all[i]),
    ensures
        insert_all(Seq::empty(), arrivals) == all,
{
    let q = insert_all(Seq::<T>::empty(), arrivals);
    lemma_insert_all(Seq::<T>::empty(), arrivals);
    assert forall|i: int| 0 <= i < all.len() implies q.contains(#[trigger] all[i]) by {
        assert(arrivals.contains(all[i]));
        let k = choose|k: int| 0 <= k < arrivals.len() && arrivals[k] == all[i];
        assert(q.contains(arrivals[k]));
    }
    assert forall|i: int| 0 <= i < all.len() implies q[i] == all[i] by {
        lemma_place_low(q, all, i);
        lemma_place_high(q, all, i);
    }
    assert(q =~= all);
}

/// An item that is put in stands behind all of its own or a lesser key, the first come first, and
/// before all of a greater one; the others stay in their order.
pub proof fn lemma_stands_behind_equals<T: Keyed>(s: Seq<T>, x: T)
    requires
        sorted(s),
    ensures
        exists|at: int|
            {
                &&& 0 <= at <= s.len()
                &&& insert_sorted(s, x) == #[trigger] s.take(at).push(x) + s.skip(at)
                &&& forall|i: int| 0 <= i < at ==> (#[trigger] s[i]).spec_key() <= x.spec_key()
                &&& forall|i: int|
                    at <= i < s.len() ==> x.spec_key() < (#[trigger] s[i]).spec_key()
            },
{
    let at = slot(s, x.spec_key());
    lemma_slot(s, x.spec_key());
    assert(insert_sorted(s, x) =~= s.take(at).push(x) + s.skip(at));
}

/// A queue gains the items that are put in, each as often as it is, and nothing else.
pub proof fn lemma_gains<T: Keyed>(s: Seq<T>, xs: Seq<T>)
    requires
        sorted(s),
    ensures
        sorted(insert_all(s, xs)),
        insert_all(s, xs).to_multiset() == s.to_multiset().add(xs.to_multiset()),
    decreases xs.len(),
{
    broadcast use vstd::seq_lib::group_to_multiset_ensures;

    lemma_insert_all(s, xs);
    if xs.len() == 0 {
        assert(xs =~= Seq::empty());
        assert(insert_all(s, xs).to_multiset() =~= s.to_multiset().add(xs.to_multiset()));
    } else {
        let init = xs.drop_last();
        lemma_insert_all(s, init);
        lemma_gains(s, init);
        lemma_insert_sorted(insert_all(s, init), xs.last());
        assert(xs =~= init.push(xs.last()));
        assert(insert_all(s, xs).to_multiset() =~= s.to_multiset().add(xs.to_multiset()));
    }
}

} // verus!

//! A binary heap kept in a vector, ordered by a comparator.
//!
//! The items form a complete binary tree laid out level by level: the
//! children of index `i` sit at `2i + 1` and `2i + 2`, its parent at
//! `(i - 1) / 2`. The comparator says which of two items has priority; the
//! item at the root is one that no other item has priority over.
use vstd::prelude::*;
use vstd::multiset::Multiset;
use vstd::std_specs::cmp::{PartialOrdIs, PartialOrdSpec};

verus! {

broadcast use vstd::seq_lib::group_to_multiset_ensures;

/// A strategy that decides which of two items has priority in a heap.
pub trait Comparator<T> {
    /// Whether `favors` answers as `prefers` says.
    spec fn lawful(&self) -> bool;

    /// `a` has priority over `b`.
    spec fn prefers(&self, a: T, b: T) -> bool;

    fn favors(&self, a: &T, b: &T) -> (r: bool)
        ensures
            self.lawful() ==> r == self.prefers(*a, *b),
    ;
}

/// The order of `T` itself: smallest first, or largest first.
pub enum NaturalOrder {
    Ascending,
    Descending,
}

impl<T: Ord> Comparator<T> for NaturalOrder {
    open spec fn lawful(&self) -> bool {
        T::obeys_partial_cmp_spec()
    }

    open spec fn prefers(&self, a: T, b: T) -> bool {
        match self {
            NaturalOrder::Ascending => a.is_lt(&b),
            NaturalOrder::Descending => a.is_gt(&b),
        }
    }

    fn favors(&self, a: &T, b: &T) -> (r: bool) {
        match self {
            NaturalOrder::Ascending => *a < *b,
            NaturalOrder::Descending => *a > *b,
        }
    }
}

/// The comparator answers as it states and is a strict weak order: no item
/// has priority over itself, priority is never mutual, and if `a` has
/// priority over `b` then any `x` either comes after `a` or before `b`.
pub open spec fn is_weak_order<T, C: Comparator<T>>(c: C) -> bool {
    &&& c.lawful()
    &&& forall|a: T| !#[trigger] c.prefers(a, a)
    &&& forall|a: T, b: T| #[trigger] c.prefers(a, b) ==> !c.prefers(b, a)
    &&& forall|a: T, b: T, x: T|
        #[trigger] c.prefers(a, b) ==> c.prefers(a, x) || #[trigger] c.prefers(x, b)
}

/// Any two different items are ordered one way or the other.
pub open spec fn is_total<T, C: Comparator<T>>(c: C) -> bool {
    forall|a: T, b: T| a != b ==> #[trigger] c.prefers(a, b) || #[trigger] c.prefers(b, a)
}

/// The index of the parent of index `i`.
pub open spec fn parent(i: int) -> int {
    (i - 1) / 2
}

/// Every item whose parent stands at index `k` or later has no priority
/// over that parent.
pub open spec fn ordered_from<T, C: Comparator<T>>(c: C, s: Seq<T>, k: int) -> bool {
    forall|i: int|
        0 < i < s.len() && k <= parent(i) ==> !#[trigger] c.prefers(s[i], s[parent(i)])
}

/// The heap property over the whole sequence.
pub open spec fn heap_ordered<T, C: Comparator<T>>(c: C, s: Seq<T>) -> bool {
    ordered_from(c, s, 0)
}

/// `x` is an item of `s` over which no item of `s` has priority.
pub open spec fn is_first<T, C: Comparator<T>>(c: C, s: Seq<T>, x: T) -> bool {
    &&& s.contains(x)
    &&& forall|j: int| 0 <= j < s.len() ==> !#[trigger] c.prefers(s[j], x)
}

/// Index `j` lies in the subtree rooted at index `r`: it is `r` or a
/// descendant of it.
pub open spec fn descends(j: int, r: int) -> bool
    decreases j,
{
    if j <= r {
        j == r
    } else if j <= 0 {
        false
    } else {
        descends(parent(j), r)
    }
}

/// Every edge inside the subtree rooted at `r`, other than those from the
/// children of `skip` up to `skip`, has the heap property.
pub open spec fn subtree_ordered_except<T, C: Comparator<T>>(
    c: C,
    s: Seq<T>,
    r: int,
    skip: int,
) -> bool {
    forall|j: int|
        0 < j < s.len() && j != r && #[trigger] descends(j, r) && parent(j) != skip
            ==> !c.prefers(s[j], s[parent(j)])
}

/// The subtree rooted at `r` has the heap property.
pub open spec fn subtree_ordered<T, C: Comparator<T>>(c: C, s: Seq<T>, r: int) -> bool {
    subtree_ordered_except(c, s, r, -1)
}

/// Every index lies in the subtree of the root.
pub proof fn lemma_descends_root(j: int)
    requires
        0 <= j,
    ensures
        descends(j, 0),
    decreases j,
{
    if j > 0 {
        lemma_descends_root(parent(j));
    }
}

/// A descendant of `r` is a descendant of the parent of `r`.
pub proof fn lemma_descends_parent(j: int, r: int)
    requires
        0 < r,
        descends(j, r),
    ensures
        descends(j, parent(r)),
    decreases j,
{
    if j > r {
        lemma_descends_parent(parent(j), r);
    } else {
        assert(descends(parent(r), parent(r)));
    }
}

/// A descendant of `r` lies at `r` or after it.
pub proof fn lemma_descends_after(j: int, r: int)
    requires
        descends(j, r),
    ensures
        j >= r,
    decreases j,
{
}

/// In a heap-ordered sequence no item has priority over the root.
pub proof fn lemma_root_first<T, C: Comparator<T>>(c: C, s: Seq<T>, j: int)
    requires
        is_weak_order(c),
        heap_ordered(c, s),
        0 <= j < s.len(),
    ensures
        !c.prefers(s[j], s[0]),
    decreases j,
{
    if j > 0 {
        let p = parent(j);
        lemma_root_first(c, s, p);
        assert(!c.prefers(s[j], s[p]));
        if c.prefers(s[j], s[0]) {
            assert(c.prefers(s[j], s[p]) || c.prefers(s[p], s[0]));
        }
    }
}

/// `x` is an item of `m` over which no item of `m` has priority.
pub open spec fn is_first_of<T, C: Comparator<T>>(c: C, m: Multiset<T>, x: T) -> bool {
    &&& m.count(x) > 0
    &&& forall|y: T| #[trigger] m.count(y) > 0 ==> !c.prefers(y, x)
}

/// `out` is what popping a heap holding `m` until it is empty hands out:
/// each item is first among those still held.
pub open spec fn is_drain_of<T, C: Comparator<T>>(c: C, m: Multiset<T>, out: Seq<T>) -> bool
    decreases out.len(),
{
    if out.len() == 0 {
        m.len() == 0
    } else {
        &&& is_first_of(c, m, out[0])
        &&& is_drain_of(c, m.remove(out[0]), out.drop_first())
    }
}

/// An item first in a sequence is first in its multiset.
pub proof fn lemma_first_in_multiset<T, C: Comparator<T>>(c: C, s: Seq<T>, x: T)
    requires
        is_first(c, s, x),
    ensures
        is_first_of(c, s.to_multiset(), x),
{
    assert forall|y: T| #[trigger] s.to_multiset().count(y) > 0 implies !c.prefers(y, x) by {
        assert(s.contains(y));
        let j = choose|j: int| 0 <= j < s.len() && s[j] == y;
        assert(!c.prefers(s[j], x));
    }
}

/// Under a strict weak order, an item popped after another never has
/// priority over it: for the natural order the items come out sorted.
pub proof fn lemma_pop_order<T, C: Comparator<T>>(c: C, s0: Seq<T>, x: T, s1: Seq<T>, y: T)
    requires
        is_weak_order(c),
        is_first(c, s0, x),
        s1.to_multiset() == s0.to_multiset().remove(x),
        is_first(c, s1, y),
    ensures
        !c.prefers(y, x),
{
    broadcast use vstd::multiset::group_multiset_properties;

    lemma_first_in_multiset(c, s0, x);
    assert(s1.contains(y));
    assert(s1.to_multiset().count(y) > 0);
    assert(s0.to_multiset().count(y) > 0);
}

/// Under a strict total order the first item of a multiset is unique.
pub proof fn lemma_first_unique<T, C: Comparator<T>>(c: C, m: Multiset<T>, x: T, y: T)
    requires
        is_weak_order(c),
        is_total(c),
        is_first_of(c, m, x),
        is_first_of(c, m, y),
    ensures
        x == y,
{
    if x != y {
        assert(!c.prefers(y, x));
        assert(!c.prefers(x, y));
    }
}

/// Under a strict total order, what a heap hands out when popped until
/// empty depends only on the items it holds: a heap built in bulk and one
/// filled item by item from the same items hand out the same sequence.
pub proof fn lemma_drain_unique<T, C: Comparator<T>>(c: C, m: Multiset<T>, a: Seq<T>, b: Seq<T>)
    requires
        is_weak_order(c),
        is_total(c),
        is_drain_of(c, m, a),
        is_drain_of(c, m, b),
    ensures
        a == b,
    decreases a.len(),
{
    if a.len() == 0 {
        if b.len() > 0 {
            assert(m.count(b[0]) > 0);
        }
    } else {
        if b.len() == 0 {
            assert(m.count(a[0]) > 0);
        } else {
            lemma_first_unique(c, m, a[0], b[0]);
            lemma_drain_unique(c, m.remove(a[0]), a.drop_first(), b.drop_first());
            assert(a =~= seq![a[0]] + a.drop_first());
            assert(b =~= seq![b[0]] + b.drop_first());
        }
    }
}

/// One pop extends a drain: if `x` came out of a heap holding `s0`, leaving
/// `s1`, then `x` followed by a drain of `s1` is a drain of `s0`.
pub proof fn lemma_pop_drain<T, C: Comparator<T>>(c: C, s0: Seq<T>, x: T, s1: Seq<T>, rest: Seq<T>)
    requires
        is_first(c, s0, x),
        s1.to_multiset() == s0.to_multiset().remove(x),
        is_drain_of(c, s1.to_multiset(), rest),
    ensures
        is_drain_of(c, s0.to_multiset(), seq![x] + rest),
{
    lemma_first_in_multiset(c, s0, x);
    let out = seq![x] + rest;
    assert(out.drop_first() =~= rest);
    assert(out[0] == x);
}

/// The natural order of `i32`, either way round, is a strict total order.
pub proof fn lemma_natural_order_i32(o: NaturalOrder)
    ensures
        is_weak_order::<i32, NaturalOrder>(o),
        is_total::<i32, NaturalOrder>(o),
{
}

/// Two successive pops of a min-heap of `i32` come out in non-decreasing
/// order.
pub proof fn lemma_min_pops_non_decreasing(s0: Seq<i32>, x: i32, s1: Seq<i32>, y: i32)
    requires
        is_first(NaturalOrder::Ascending, s0, x),
        s1.to_multiset() == s0.to_multiset().remove(x),
        is_first(NaturalOrder::Ascending, s1, y),
    ensures
        x <= y,
{
    lemma_natural_order_i32(NaturalOrder::Ascending);
    lemma_pop_order(NaturalOrder::Ascending, s0, x, s1, y);
}

/// Two successive pops of a max-heap of `i32` come out in non-increasing
/// order.
pub proof fn lemma_max_pops_non_increasing(s0: Seq<i32>, x: i32, s1: Seq<i32>, y: i32)
    requires
        is_first(NaturalOrder::Descending, s0, x),
        s1.to_multiset() == s0.to_multiset().remove(x),
        is_first(NaturalOrder::Descending, s1, y),
    ensures
        x >= y,
{
    lemma_natural_order_i32(NaturalOrder::Descending);
    lemma_pop_order(NaturalOrder::Descending, s0, x, s1, y);
}

/// Every item a drain hands out was held.
pub proof fn lemma_drain_members<T, C: Comparator<T>>(c: C, m: Multiset<T>, out: Seq<T>)
    requires
        is_drain_of(c, m, out),
    ensures
        forall|j: int| 0 <= j < out.len() ==> m.count(#[trigger] out[j]) > 0,
    decreases out.len(),
{
    broadcast use vstd::multiset::group_multiset_properties;

    if out.len() > 0 {
        let rest = out.drop_first();
        lemma_drain_members(c, m.remove(out[0]), rest);
        assert forall|j: int| 0 <= j < out.len() implies m.count(#[trigger] out[j]) > 0 by {
            if j > 0 {
                assert(out[j] == rest[j - 1]);
            }
        }
    }
}

/// Popping a heap until it is empty hands out its items in order: no item
/// has priority over one handed out before it.
pub proof fn lemma_drain_in_order<T, C: Comparator<T>>(c: C, m: Multiset<T>, out: Seq<T>)
    requires
        is_drain_of(c, m, out),
    ensures
        forall|i: int, j: int| 0 <= i < j < out.len() ==> !c.prefers(#[trigger] out[j], #[trigger] out[i]),
    decreases out.len(),
{
    if out.len() > 0 {
        let rest = out.drop_first();
        lemma_drain_in_order(c, m.remove(out[0]), rest);
        lemma_drain_members(c, m, out);
        assert forall|i: int, j: int| 0 <= i < j < out.len() implies !c.prefers(
            #[trigger] out[j],
            #[trigger] out[i],
        ) by {
            if i > 0 {
                assert(out[i] == rest[i - 1]);
                assert(out[j] == rest[j - 1]);
            } else {
                assert(m.count(out[j]) > 0);
            }
        }
    }
}

/// A min-heap of `i32` popped until empty hands out its items in
/// non-decreasing order, and a heap built in bulk from `items` hands out
/// the same sequence as one filled from `items` one by one.
pub proof fn lemma_min_drains_sorted_and_equal(items: Seq<i32>, a: Seq<i32>, b: Seq<i32>)
    requires
        is_drain_of(NaturalOrder::Ascending, items.to_multiset(), a),
        is_drain_of(NaturalOrder::Ascending, items.to_multiset(), b),
    ensures
        a == b,
        forall|i: int, j: int| 0 <= i < j < a.len() ==> a[i] <= a[j],
{
    lemma_natural_order_i32(NaturalOrder::Ascending);
    lemma_drain_unique(NaturalOrder::Ascending, items.to_multiset(), a, b);
    lemma_drain_in_order(NaturalOrder::Ascending, items.to_multiset(), a);
    assert forall|i: int, j: int| 0 <= i < j < a.len() implies a[i] <= a[j] by {
        assert(!<NaturalOrder as Comparator<i32>>::prefers(&NaturalOrder::Ascending, a[j], a[i]));
    }
}

/// A max-heap of `i32` popped until empty hands out its items in
/// non-increasing order.
pub proof fn lemma_max_drain_sorted(m: Multiset<i32>, out: Seq<i32>)
    requires
        is_drain_of(NaturalOrder::Descending, m, out),
    ensures
        forall|i: int, j: int| 0 <= i < j < out.len() ==> out[i] >= out[j],
{
    lemma_drain_in_order(NaturalOrder::Descending, m, out);
    assert forall|i: int, j: int| 0 <= i < j < out.len() implies out[i] >= out[j] by {
        assert(!<NaturalOrder as Comparator<i32>>::prefers(&NaturalOrder::Descending, out[j], out[i]));
    }
}

proof fn lemma_swap_multiset<T>(s: Seq<T>, i: int, j: int)
    requires
        0 <= i < s.len(),
        0 <= j < s.len(),
    ensures
        s.update(i, s[j]).update(j, s[i]).to_multiset() == s.to_multiset(),
{
    broadcast use vstd::seq_lib::to_multiset_update;
    broadcast use vstd::multiset::group_multiset_properties;

    let t = s.update(i, s[j]);
    assert(t[j] == s[j]) by {
        if i != j {
        }
    };
    assert(s.update(i, s[j]).update(j, s[i]).to_multiset() =~= s.to_multiset());
}

/// Relies on slice::swap: exchanges the items at two indices.
#[verifier::external_body]
fn swap_items<T>(v: &mut Vec<T>, i: usize, j: usize)
    requires
        i < old(v)@.len(),
        j < old(v)@.len(),
    ensures
        final(v)@ == old(v)@.update(i as int, old(v)@[j as int]).update(j as int, old(v)@[i as int]),
{
    v.swap(i, j)
}

/// A binary heap of `T` ordered by the comparator `C`.
pub struct Heap<T, C = NaturalOrder> {
    items: Vec<T>,
    comparator: C,
}

impl<T, C: Comparator<T>> View for Heap<T, C> {
    type V = Seq<T>;

    /// The items in the order of the backing array.
    closed spec fn view(&self) -> Seq<T> {
        self.items@
    }
}

impl<T, C: Comparator<T>> Heap<T, C> {
    /// The comparator the heap was made with.
    pub closed spec fn order(&self) -> C {
        self.comparator
    }

    /// Where the comparator is a strict weak order, the items obey the
    /// heap property.
    pub open spec fn wf(&self) -> bool {
        is_weak_order(self.order()) ==> heap_ordered(self.order(), self@)
    }

    /// An empty heap ordered by `comparator`.
    pub fn new(comparator: C) -> (r: Self)
        ensures
            r@ == Seq::<T>::empty(),
            r.order() == comparator,
            r.wf(),
    {
        Heap { items: Vec::new(), comparator }
    }

    /// A heap holding exactly `items`, ordered by `comparator`, built bottom
    /// up by sifting down every node that has a child.
    pub fn from_vec(items: Vec<T>, comparator: C) -> (r: Self)
        ensures
            r@.to_multiset() == items@.to_multiset(),
            r@.len() == items@.len(),
            r.order() == comparator,
            r.wf(),
            comparator.lawful() && heap_ordered(comparator, items@) ==> r@ == items@,
    {
        let mut heap = Heap { items, comparator };
        heap.build_heap();
        heap
    }

    fn build_heap(&mut self)
        ensures
            final(self).order() == old(self).order(),
            final(self)@.len() == old(self)@.len(),
            final(self)@.to_multiset() == old(self)@.to_multiset(),
            final(self).wf(),
            old(self).comparator.lawful() && heap_ordered(old(self).comparator, old(self).items@)
                ==> final(self).items@ == old(self).items@,
    {
        let ghost c = self.comparator;
        let ghost s0 = self.items@;
        let mut k: usize = self.len() / 2;
        while k > 0
            invariant
                self.comparator == c,
                k <= self.items@.len() / 2,
                self.items@.len() == s0.len(),
                self.items@.to_multiset() == s0.to_multiset(),
                is_weak_order(c) ==> ordered_from(c, self.items@, k as int),
                c.lawful() && heap_ordered(c, s0) ==> self.items@ == s0,
            decreases k,
        {
            k = k - 1;
            let ghost s = self.items@;
            proof {
                if is_weak_order(c) {
                    assert forall|j: int|
                        0 < j < s.len() && j != k && #[trigger] descends(j, k as int) && parent(j)
                            != k implies !c.prefers(s[j], s[parent(j)]) by {
                        assert(descends(parent(j), k as int));
                        lemma_descends_after(parent(j), k as int);
                    }
                }
            }
            self.heapify_down(k);
            proof {
                if is_weak_order(c) {
                    let t = self.items@;
                    assert forall|i: int|
                        0 < i < t.len() && k <= parent(i) implies !#[trigger] c.prefers(
                            t[i],
                            t[parent(i)],
                        ) by {
                        if descends(i, k as int) {
                        } else {
                            if descends(parent(i), k as int) {
                                assert(descends(i, k as int));
                            }
                            if parent(i) == k {
                                assert(descends(k as int, k as int));
                                assert(descends(i, k as int));
                            }
                            assert(t[i] == s[i]);
                            assert(t[parent(i)] == s[parent(i)]);
                        }
                    }
                }
            }
        }
    }

    /// The items in the order of the backing array, which is not sorted.
    pub fn iter(&self) -> (r: std::slice::Iter<'_, T>)
        ensures
            vstd::std_specs::slice::into_iter_elts(r) == self@,
    {
        self.items.iter()
    }

    /// Inserts `value` as the next leaf and sifts it up.
    pub fn add(&mut self, value: T)
        requires
            old(self).wf(),
        ensures
            final(self).wf(),
            final(self).order() == old(self).order(),
            final(self)@.len() == old(self)@.len() + 1,
            final(self)@.to_multiset() == old(self)@.to_multiset().insert(value),
            forall|k: int|
                0 <= k < old(self)@.len() && !descends(old(self)@.len() as int, k)
                    ==> final(self)@[k] == old(self)@[k],
            old(self)@.len() == 0 ==> final(self)@ == seq![value],
            old(self)@.len() > 0 && old(self).order().lawful() && !old(self).order().prefers(
                value,
                old(self)@[parent(old(self)@.len() as int)],
            ) ==> final(self)@ == old(self)@.push(value),
    {
        self.items.push(value);
        let last = self.len() - 1;
        self.heapify_up(last);
    }

    /// Takes out the root: `None` on an empty heap, else the root, whose
    /// place the last item takes before it is sifted down.
    pub fn pop(&mut self) -> (r: Option<T>)
        requires
            old(self).wf(),
        ensures
            final(self).wf(),
            final(self).order() == old(self).order(),
            old(self)@.len() == 0 ==> r is None && final(self)@ == old(self)@,
            old(self)@.len() > 0 ==> {
                &&& r == Some(old(self)@[0])
                &&& final(self)@.len() == old(self)@.len() - 1
                &&& final(self)@.to_multiset() == old(self)@.to_multiset().remove(old(self)@[0])
            },
            is_weak_order(old(self).order()) && r is Some ==> is_first(
                old(self).order(),
                old(self)@,
                r->0,
            ),
    {
        if self.is_empty() {
            return None;
        }
        let ghost s0 = self.items@;
        proof {
            if is_weak_order(self.comparator) {
                assert forall|j: int| 0 <= j < s0.len() implies !#[trigger] self.comparator.prefers(
                    s0[j],
                    s0[0],
                ) by {
                    lemma_root_first(self.comparator, s0, j);
                }
                assert(s0.contains(s0[0]));
            }
        }
        let next = self.items.swap_remove(0);
        proof {
            let t = self.items@;
            assert(s0.update(0, s0.last()).drop_last().to_multiset() == s0.to_multiset().remove(s0[0])) by {
                broadcast use vstd::seq_lib::to_multiset_update;
                broadcast use vstd::multiset::group_multiset_properties;
                let u = s0.update(0, s0.last());
                assert(u.to_multiset() == s0.to_multiset().insert(s0.last()).remove(s0[0]));
                assert(u.drop_last() == u.remove(u.len() - 1));
                assert(u.drop_last().to_multiset() == u.to_multiset().remove(u[u.len() - 1]));
                assert(u[u.len() - 1] == s0.last()) by {
                    if s0.len() > 1 {
                    }
                };
                assert(u.drop_last().to_multiset() =~= s0.to_multiset().remove(s0[0]));
            };
            if is_weak_order(self.comparator) {
                assert forall|i: int|
                    0 < i < t.len() && 1 <= parent(i) implies !#[trigger] self.comparator.prefers(
                        t[i],
                        t[parent(i)],
                    ) by {
                    assert(t[i] == s0[i]);
                    assert(t[parent(i)] == s0[parent(i)]);
                }
            }
        }
        if !self.is_empty() {
            self.heapify_down(0);
            proof {
                if is_weak_order(self.comparator) {
                    let t = self.items@;
                    assert forall|i: int|
                        0 < i < t.len() && 0 <= parent(i) implies !#[trigger] self.comparator.prefers(
                            t[i],
                            t[parent(i)],
                        ) by {
                        lemma_descends_root(i);
                    }
                }
            }
        }
        Some(next)
    }

    fn parent_idx(&self, idx: usize) -> (r: Option<usize>)
        ensures
            idx == 0 ==> r is None,
            idx > 0 ==> r == Some(parent(idx as int) as usize),
    {
        if idx > 0 {
            Some((idx - 1) / 2)
        } else {
            None
        }
    }

    fn children_present(&self, idx: usize) -> (r: bool)
        ensures
            r == (2 * idx + 1 < self@.len()),
            r ==> 2 * idx + 2 <= usize::MAX,
    {
        idx < self.items.len() / 2
    }

    fn left_child_idx(&self, idx: usize) -> (r: usize)
        requires
            2 * idx + 1 <= usize::MAX,
        ensures
            r == 2 * idx + 1,
    {
        idx * 2 + 1
    }

    fn right_child_idx(&self, idx: usize) -> (r: usize)
        requires
            2 * idx + 2 <= usize::MAX,
        ensures
            r == 2 * idx + 2,
    {
        self.left_child_idx(idx) + 1
    }

    /// Moves the item at `idx` toward the root while it has priority over
    /// its parent.
    fn heapify_up(&mut self, idx: usize)
        requires
            idx < old(self).items@.len(),
            is_weak_order(old(self).comparator) ==> {
                &&& forall|i: int|
                    0 < i < old(self).items@.len() && i != idx ==> !#[trigger] old(self).comparator.prefers(
                        old(self).items@[i],
                        old(self).items@[parent(i)],
                    )
                &&& forall|i: int|
                    0 < i < old(self).items@.len() && idx > 0 && parent(i) == idx
                        ==> !#[trigger] old(self).comparator.prefers(
                        old(self).items@[i],
                        old(self).items@[parent(idx as int)],
                    )
            },
        ensures
            final(self).comparator == old(self).comparator,
            final(self).items@.len() == old(self).items@.len(),
            final(self).items@.to_multiset() == old(self).items@.to_multiset(),
            forall|k: int|
                0 <= k < old(self).items@.len() && !descends(idx as int, k)
                    ==> final(self).items@[k] == old(self).items@[k],
            idx == 0 || (old(self).comparator.lawful() && !old(self).comparator.prefers(
                old(self).items@[idx as int],
                old(self).items@[parent(idx as int)],
            )) ==> final(self).items@ == old(self).items@,
            final(self).wf(),
    {
        let ghost c = self.comparator;
        let ghost s0 = self.items@;
        let ghost idx0 = idx as int;
        let mut idx = idx;
        loop
            invariant
                self.comparator == c,
                idx < self.items@.len() == s0.len(),
                self.items@.to_multiset() == s0.to_multiset(),
                descends(idx0, idx as int),
                forall|k: int| 0 <= k < s0.len() && !descends(idx0, k) ==> self.items@[k] == s0[k],
                idx0 == 0 || (c.lawful() && !c.prefers(s0[idx0], s0[parent(idx0)])) ==> idx == idx0
                    && self.items@ == s0,
                is_weak_order(c) ==> forall|i: int|
                    0 < i < self.items@.len() && i != idx ==> !#[trigger] c.prefers(
                        self.items@[i],
                        self.items@[parent(i)],
                    ),
                is_weak_order(c) ==> forall|i: int|
                    0 < i < self.items@.len() && idx > 0 && parent(i) == idx
                        ==> !#[trigger] c.prefers(
                        self.items@[i],
                        self.items@[parent(idx as int)],
                    ),
            ensures
                self.comparator == c,
                self.items@.len() == s0.len(),
                self.items@.to_multiset() == s0.to_multiset(),
                is_weak_order(c) ==> heap_ordered(c, self.items@),
                forall|k: int| 0 <= k < s0.len() && !descends(idx0, k) ==> self.items@[k] == s0[k],
                idx0 == 0 || (c.lawful() && !c.prefers(s0[idx0], s0[parent(idx0)]))
                    ==> self.items@ == s0,
            decreases idx,
        {
            match self.parent_idx(idx) {
                None => {
                    break;
                },
                Some(pdx) => {
                    if self.comparator.favors(&self.items[idx], &self.items[pdx]) {
                        let ghost s = self.items@;
                        swap_items(&mut self.items, idx, pdx);
                        proof {
                            lemma_swap_multiset(s, idx as int, pdx as int);
                            lemma_descends_parent(idx0, idx as int);
                            if is_weak_order(c) {
                                let t = self.items@;
                                assert forall|i: int|
                                    0 < i < t.len() && i != pdx implies !#[trigger] c.prefers(
                                    t[i],
                                    t[parent(i)],
                                ) by {
                                    if i == idx {
                                    } else if parent(i) == pdx {
                                        assert(!c.prefers(s[i], s[pdx as int]));
                                        if c.prefers(s[i], s[idx as int]) {
                                            assert(c.prefers(s[i], s[pdx as int]) || c.prefers(
                                                s[pdx as int],
                                                s[idx as int],
                                            ));
                                        }
                                    } else if parent(i) == idx {
                                    } else {
                                        assert(t[i] == s[i]);
                                        assert(t[parent(i)] == s[parent(i)]);
                                    }
                                }
                                assert forall|i: int|
                                    0 < i < t.len() && pdx > 0 && parent(i) == pdx
                                        implies !#[trigger] c.prefers(
                                    t[i],
                                    t[parent(pdx as int)],
                                ) by {
                                    let g = parent(pdx as int);
                                    assert(!c.prefers(s[pdx as int], s[g]));
                                    if i == idx {
                                    } else {
                                        assert(!c.prefers(s[i], s[pdx as int]));
                                        if c.prefers(s[i], s[g]) {
                                            assert(c.prefers(s[i], s[pdx as int]) || c.prefers(
                                                s[pdx as int],
                                                s[g],
                                            ));
                                        }
                                    }
                                }
                            }
                        }
                        idx = pdx;
                    } else {
                        break;
                    }
                },
            }
        }
    }

    /// Moves the item at `idx` toward the leaves while its preferred child
    /// has priority over it.
    fn heapify_down(&mut self, idx: usize)
        requires
            idx < old(self).items@.len(),
            is_weak_order(old(self).comparator) ==> subtree_ordered_except(
                old(self).comparator,
                old(self).items@,
                idx as int,
                idx as int,
            ),
        ensures
            final(self).comparator == old(self).comparator,
            final(self).items@.len() == old(self).items@.len(),
            final(self).items@.to_multiset() == old(self).items@.to_multiset(),
            forall|k: int|
                0 <= k < old(self).items@.len() && !descends(k, idx as int)
                    ==> final(self).items@[k] == old(self).items@[k],
            old(self).comparator.lawful() && (forall|ch: int|
                0 < ch < old(self).items@.len() && parent(ch) == idx
                    ==> !#[trigger] old(self).comparator.prefers(
                    old(self).items@[ch],
                    old(self).items@[idx as int],
                )) ==> final(self).items@ == old(self).items@,
            is_weak_order(final(self).comparator) ==> subtree_ordered(
                final(self).comparator,
                final(self).items@,
                idx as int,
            ),
    {
        let ghost c = self.comparator;
        let ghost s0 = self.items@;
        let ghost start = idx as int;
        let mut idx = idx;
        while self.children_present(idx)
            invariant
                self.comparator == c,
                start <= idx < self.items@.len() == s0.len(),
                self.items@.to_multiset() == s0.to_multiset(),
                descends(idx as int, start),
                forall|k: int|
                    0 <= k < s0.len() && !descends(k, start) ==> self.items@[k] == s0[k],
                c.lawful() && (forall|ch: int|
                    0 < ch < s0.len() && parent(ch) == start ==> !#[trigger] c.prefers(
                        s0[ch],
                        s0[start],
                    )) ==> idx == start && self.items@ == s0,
                is_weak_order(c) ==> forall|i: int|
                    0 < i < self.items@.len() && i != start && #[trigger] descends(i, start)
                        && parent(i) != idx ==> !c.prefers(self.items@[i], self.items@[parent(i)]),
                is_weak_order(c) ==> forall|i: int|
                    0 < i < self.items@.len() && idx > start && parent(i) == idx
                        ==> !#[trigger] c.prefers(
                        self.items@[i],
                        self.items@[parent(idx as int)],
                    ),
            ensures
                self.comparator == c,
                self.items@.len() == s0.len(),
                self.items@.to_multiset() == s0.to_multiset(),
                is_weak_order(c) ==> subtree_ordered(c, self.items@, start),
                forall|k: int|
                    0 <= k < s0.len() && !descends(k, start) ==> self.items@[k] == s0[k],
                c.lawful() && (forall|ch: int|
                    0 < ch < s0.len() && parent(ch) == start ==> !#[trigger] c.prefers(
                        s0[ch],
                        s0[start],
                    )) ==> self.items@ == s0,
            decreases self.items@.len() - idx,
        {
            let ldx = self.left_child_idx(idx);
            let cdx = if self.right_child_idx(idx) >= self.len() {
                ldx
            } else {
                let rdx = self.right_child_idx(idx);
                if self.comparator.favors(&self.items[ldx], &self.items[rdx]) {
                    ldx
                } else {
                    rdx
                }
            };
            let ghost s = self.items@;
            // no other child of idx has priority over the chosen one
            assert(is_weak_order(c) ==> forall|i: int|
                0 < i < s.len() && parent(i) == idx ==> !#[trigger] c.prefers(
                    s[i],
                    s[cdx as int],
                ));
            if self.comparator.favors(&self.items[cdx], &self.items[idx]) {
                swap_items(&mut self.items, idx, cdx);
                proof {
                    lemma_swap_multiset(s, idx as int, cdx as int);
                    assert(parent(cdx as int) == idx);
                    lemma_descends_after(idx as int, start);
                    assert(descends(cdx as int, start));
                    if is_weak_order(c) {
                        let t = self.items@;
                        assert forall|i: int|
                            0 < i < t.len() && i != start && #[trigger] descends(i, start)
                                && parent(i) != cdx implies !c.prefers(t[i], t[parent(i)]) by {
                            if i == cdx {
                            } else if i == idx {
                                assert(c.prefers(s[cdx as int], s[idx as int]));
                            } else if parent(i) == idx {
                                assert(!c.prefers(s[i], s[cdx as int]));
                            } else {
                                assert(t[i] == s[i]);
                                assert(t[parent(i)] == s[parent(i)]);
                            }
                        }
                        assert forall|i: int|
                            0 < i < t.len() && cdx > start && parent(i) == cdx
                                implies !#[trigger] c.prefers(
                                t[i],
                                t[parent(cdx as int)],
                            ) by {
                            assert(t[i] == s[i]);
                            assert(descends(i, start));
                            assert(!c.prefers(s[i], s[cdx as int]));
                        }
                    }
                }
                idx = cdx;
            } else {
                proof {
                    if is_weak_order(c) {
                        assert forall|i: int|
                            0 < i < s.len() && i != start && #[trigger] descends(i, start)
                                && parent(i) != -1 implies !c.prefers(s[i], s[parent(i)]) by {
                            if parent(i) == idx && i != cdx {
                                assert(!c.prefers(s[i], s[cdx as int]));
                                assert(!c.prefers(s[cdx as int], s[idx as int]));
                                if c.prefers(s[i], s[idx as int]) {
                                    assert(c.prefers(s[i], s[cdx as int]) || c.prefers(
                                        s[cdx as int],
                                        s[idx as int],
                                    ));
                                }
                            }
                        }
                    }
                }
                break;
            }
        }
    }

    pub fn len(&self) -> (r: usize)
        ensures
            r == self@.len(),
    {
        self.items.len()
    }

    pub fn is_empty(&self) -> (r: bool)
        ensures
            r == (self@.len() == 0),
    {
        self.len() == 0
    }
}

impl<T: Ord> Heap<T, NaturalOrder> {
    /// An empty heap that hands out its smallest item first.
    pub fn new_min() -> (r: Self)
        ensures
            r@ == Seq::<T>::empty(),
            r.order() == NaturalOrder::Ascending,
            r.wf(),
    {
        Self::new(NaturalOrder::Ascending)
    }

    /// An empty heap that hands out its largest item first.
    pub fn new_max() -> (r: Self)
        ensures
            r@ == Seq::<T>::empty(),
            r.order() == NaturalOrder::Descending,
            r.wf(),
    {
        Self::new(NaturalOrder::Descending)
    }

    /// A heap of `items` that hands out the smallest first.
    pub fn from_vec_min(items: Vec<T>) -> (r: Self)
        ensures
            r@.to_multiset() == items@.to_multiset(),
            r@.len() == items@.len(),
            r.order() == NaturalOrder::Ascending,
            r.wf(),
    {
        Self::from_vec(items, NaturalOrder::Ascending)
    }

    /// A heap of `items` that hands out the largest first.
    pub fn from_vec_max(items: Vec<T>) -> (r: Self)
        ensures
            r@.to_multiset() == items@.to_multiset(),
            r@.len() == items@.len(),
            r.order() == NaturalOrder::Descending,
            r.wf(),
    {
        Self::from_vec(items, NaturalOrder::Descending)
    }
}

} // verus!

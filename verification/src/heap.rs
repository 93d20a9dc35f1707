//! A binary heap over a vector, ordered by a comparator.
//!
//! The elements stand in a vector in level order, after one unused slot, so
//! that the node at slot `i` has its parent at `i / 2` and its children at
//! `2 * i` and `2 * i + 1`. The view of a heap is the sequence of its elements
//! in that order, without the unused slot: element `k` has its parent at
//! `(k - 1) / 2` and its children at `2 * k + 1` and `2 * k + 2`.
//!
//! [`Heap::add`] appends and sifts up. [`Heap::next`] takes the root, moves
//! the last element into its place and sifts down. Sifting down looks only at
//! nodes that have two children: a node whose only child is the last element
//! is left where it is, so the root is not always the most preferred element.
//! The contracts say what the operations do, element by element.

use crate::swap::{swapped, lemma_swapped_multiset, swap_elements};
use core::cmp::Ordering;
use vstd::prelude::*;
use vstd::std_specs::cmp::PartialOrdSpec;

verus! {

/// A rule that says which of two elements a heap prefers.
pub trait Comparator<T> {
    /// Whether [`Comparator::compare`] answers as [`Comparator::prefers`] says.
    spec fn obeys(&self) -> bool;

    /// `a` is preferred to `b`.
    spec fn prefers(&self, a: &T, b: &T) -> bool;

    /// Decides whether `a` is preferred to `b`.
    fn compare(&self, a: &T, b: &T) -> (r: bool)
        ensures
            self.obeys() ==> r == self.prefers(a, b),
    ;
}

/// Prefers the smaller element.
pub struct Ascending;

/// Prefers the larger element.
pub struct Descending;

impl<T: Ord> Comparator<T> for Ascending {
    /// The order of `T` keeps to its specification.
    open spec fn obeys(&self) -> bool {
        T::obeys_partial_cmp_spec()
    }

    /// `a` is less than `b`.
    open spec fn prefers(&self, a: &T, b: &T) -> bool {
        a.partial_cmp_spec(b) == Some(Ordering::Less)
    }

    /// `a < b`.
    fn compare(&self, a: &T, b: &T) -> (r: bool) {
        a < b
    }
}

impl<T: Ord> Comparator<T> for Descending {
    /// The order of `T` keeps to its specification.
    open spec fn obeys(&self) -> bool {
        T::obeys_partial_cmp_spec()
    }

    /// `a` is greater than `b`.
    open spec fn prefers(&self, a: &T, b: &T) -> bool {
        a.partial_cmp_spec(b) == Some(Ordering::Greater)
    }

    /// `a > b`.
    fn compare(&self, a: &T, b: &T) -> (r: bool) {
        a > b
    }
}

/// `s` after the element at `k` has moved up: as long as it is preferred to
/// its parent, the two are swapped.
pub open spec fn sifted_up<T, C: Comparator<T>>(order: C, s: Seq<T>, k: int) -> Seq<T>
    decreases k,
{
    if 0 < k < s.len() && order.prefers(&s[k], &s[(k - 1) / 2]) {
        sifted_up(order, swapped(s, k, (k - 1) / 2), (k - 1) / 2)
    } else {
        s
    }
}

/// `s` after the element at `k` has moved down. While it has two children,
/// take the left one if the left is preferred to the right, else the right
/// one: if the element is preferred to that child it stays, else the two are
/// swapped and the element goes on from there.
pub open spec fn sifted_down<T, C: Comparator<T>>(order: C, s: Seq<T>, k: int) -> Seq<T>
    decreases s.len() - k,
{
    if 0 <= k && 2 * k + 2 < s.len() {
        let child = if order.prefers(&s[2 * k + 1], &s[2 * k + 2]) {
            2 * k + 1
        } else {
            2 * k + 2
        };
        if order.prefers(&s[k], &s[child]) {
            s
        } else {
            sifted_down(order, swapped(s, k, child), child)
        }
    } else {
        s
    }
}

/// Sifting up keeps the elements, each as often as before.
pub proof fn lemma_sifted_up_multiset<T, C: Comparator<T>>(order: C, s: Seq<T>, k: int)
    ensures
        sifted_up(order, s, k).to_multiset() == s.to_multiset(),
        sifted_up(order, s, k).len() == s.len(),
    decreases k,
{
    if 0 < k < s.len() && order.prefers(&s[k], &s[(k - 1) / 2]) {
        lemma_swapped_multiset(s, k, (k - 1) / 2);
        lemma_sifted_up_multiset(order, swapped(s, k, (k - 1) / 2), (k - 1) / 2);
    }
}

/// Sifting down keeps the elements, each as often as before.
pub proof fn lemma_sifted_down_multiset<T, C: Comparator<T>>(order: C, s: Seq<T>, k: int)
    ensures
        sifted_down(order, s, k).to_multiset() == s.to_multiset(),
        sifted_down(order, s, k).len() == s.len(),
    decreases s.len() - k,
{
    if 0 <= k && 2 * k + 2 < s.len() {
        let child = if order.prefers(&s[2 * k + 1], &s[2 * k + 2]) {
            2 * k + 1
        } else {
            2 * k + 2
        };
        if !order.prefers(&s[k], &s[child]) {
            lemma_swapped_multiset(s, k, child);
            lemma_sifted_down_multiset(order, swapped(s, k, child), child);
        }
    }
}

/// A binary heap of `T`, ordered by `C`.
pub struct Heap<T, C> where T: Default, C: Comparator<T> {
    count: usize,
    items: Vec<T>,
    comparator: C,
}

impl<T, C> View for Heap<T, C> where T: Default, C: Comparator<T> {
    type V = Seq<T>;

    /// The elements in level order, the root first.
    closed spec fn view(&self) -> Seq<T> {
        self.items@.skip(1)
    }
}

impl<T, C> Heap<T, C> where T: Default, C: Comparator<T> {
    /// The heap is well formed: its count is the number of its elements, it
    /// is small enough for the index arithmetic, and its comparator keeps to
    /// its rule.
    pub closed spec fn wf(&self) -> bool {
        &&& self.items@.len() == self.count + 1
        &&& self.count + 1 < usize::MAX / 2
        &&& self.comparator.obeys()
    }

    /// The comparator that the heap was made with.
    pub closed spec fn order(&self) -> C {
        self.comparator
    }

    /// An empty heap ordered by `comparator`.
    pub fn new(comparator: C) -> (heap: Self)
        requires
            comparator.obeys(),
        ensures
            heap.wf(),
            heap@ == Seq::<T>::empty(),
            heap.order() == comparator,
    {
        let mut items = Vec::new();
        items.push(T::default());
        let heap = Self { count: 0, items, comparator };
        proof {
            assert(heap@ =~= Seq::<T>::empty());
        }
        heap
    }

    /// The number of elements.
    pub fn len(&self) -> (n: usize)
        requires
            self.wf(),
        ensures
            n == self@.len(),
    {
        self.count
    }

    /// Whether the heap holds no element.
    pub fn is_empty(&self) -> (empty: bool)
        requires
            self.wf(),
        ensures
            empty == (self@.len() == 0),
    {
        self.len() == 0
    }

    /// Adds `value`: it is appended and then sifted up.
    pub fn add(&mut self, value: T)
        requires
            old(self).wf(),
            old(self)@.len() + 2 < usize::MAX / 2,
        ensures
            final(self).wf(),
            final(self).order() == old(self).order(),
            final(self)@ == sifted_up(old(self).order(), old(self)@.push(value), old(self)@.len() as int),
            final(self)@.to_multiset() == old(self)@.to_multiset().insert(value),
            final(self)@.len() == old(self)@.len() + 1,
    {
        proof {
            assert(self.items@.push(value).skip(1) =~= self@.push(value));
            lemma_sifted_up_multiset(self.order(), self@.push(value), self@.len() as int);
            broadcast use vstd::seq_lib::to_multiset_build;

        }
        self.items.push(value);
        self.count += 1;
        if !self.is_empty() {
            let last_idx = self.tail_idx();
            self.ajust_up(last_idx);
        }
    }

    /// Takes the root out: the last element is moved into its place and
    /// sifted down. Gives `None`, and changes nothing, if the heap is empty.
    pub fn next(&mut self) -> (top: Option<T>)
        requires
            old(self).wf(),
        ensures
            final(self).wf(),
            final(self).order() == old(self).order(),
            old(self)@.len() == 0 ==> top is None && final(self)@ == old(self)@,
            old(self)@.len() > 0 ==> top == Some(old(self)@[0]) && final(self)@ == sifted_down(
                old(self).order(),
                swapped(old(self)@, 0, old(self)@.len() - 1).drop_last(),
                0,
            ),
            old(self)@.len() > 0 ==> final(self)@.to_multiset().insert(old(self)@[0]) == old(
                self,
            )@.to_multiset(),
            old(self)@.len() > 0 ==> final(self)@.len() == old(self)@.len() - 1,
    {
        if self.is_empty() {
            None
        } else {
            let ghost before = self@;
            let tail = self.tail_idx();
            swap_elements(&mut self.items, 1, tail);
            let v = self.items.pop();
            self.count -= 1;
            proof {
                let turned = swapped(before, 0, before.len() - 1);
                assert(self@ =~= turned.drop_last());
                lemma_swapped_multiset(before, 0, before.len() - 1);
                lemma_sifted_down_multiset(self.order(), self@, 0);
                broadcast use vstd::seq_lib::to_multiset_build;

                assert(turned =~= turned.drop_last().push(before[0]));
            }
            self.ajust_down(1);
            v
        }
    }

    /// The slot of the last element.
    fn tail_idx(&self) -> (idx: usize)
        requires
            self.wf(),
        ensures
            idx == self@.len(),
    {
        self.count
    }

    /// Moves the element in slot `idx` up to its place.
    fn ajust_up(&mut self, idx: usize)
        requires
            old(self).wf(),
            1 <= idx <= old(self)@.len(),
        ensures
            final(self).wf(),
            final(self).order() == old(self).order(),
            final(self)@ == sifted_up(old(self).order(), old(self)@, idx - 1),
    {
        let ghost start = idx as int;
        let mut parent_idx = self.parent_idx(idx);
        let mut idx = idx;
        while idx > 1 && self.comparator.compare(&self.items[idx], &self.items[parent_idx])
            invariant
                self.wf(),
                self.order() == old(self).order(),
                1 <= idx <= self@.len(),
                parent_idx == idx / 2,
                self@.len() == old(self)@.len(),
                sifted_up(self.order(), self@, idx - 1) == sifted_up(
                    old(self).order(),
                    old(self)@,
                    start - 1,
                ),
            decreases idx,
        {
            proof {
                assert(self.items@[idx as int] == self@[idx - 1]);
                assert(self.items@[parent_idx as int] == self@[parent_idx - 1]);
                assert(swapped(self.items@, idx as int, parent_idx as int).skip(1) =~= swapped(
                    self@,
                    idx - 1,
                    parent_idx - 1,
                ));
            }
            swap_elements(&mut self.items, idx, parent_idx);
            idx = parent_idx;
            parent_idx = self.parent_idx(idx);
        }
        proof {
            if idx > 1 {
                assert(self.items@[idx as int] == self@[idx - 1]);
                assert(self.items@[parent_idx as int] == self@[parent_idx - 1]);
            }
        }
    }

    /// Moves the element in slot `idx` down to its place.
    fn ajust_down(&mut self, idx: usize)
        requires
            old(self).wf(),
            1 <= idx <= old(self)@.len() + 1,
        ensures
            final(self).wf(),
            final(self).order() == old(self).order(),
            final(self)@ == sifted_down(old(self).order(), old(self)@, idx - 1),
    {
        let ghost start = idx as int;
        let mut idx = idx;
        let mut child_idx;
        let mut left_idx = self.left_child_idx(idx);
        let mut right_idx = self.right_child_idx(idx);
        while left_idx < self.len()
            invariant
                self.wf(),
                self.order() == old(self).order(),
                1 <= idx <= self@.len() + 1,
                left_idx == 2 * idx,
                right_idx == 2 * idx + 1,
                self@.len() == old(self)@.len(),
                sifted_down(self.order(), self@, idx - 1) == sifted_down(
                    old(self).order(),
                    old(self)@,
                    start - 1,
                ),
            ensures
                self@ == sifted_down(old(self).order(), old(self)@, start - 1),
            decreases self@.len() + 1 - idx,
        {
            proof {
                assert(self.items@[idx as int] == self@[idx - 1]);
                assert(self.items@[left_idx as int] == self@[left_idx - 1]);
                assert(self.items@[right_idx as int] == self@[right_idx - 1]);
            }
            if right_idx <= self.len() && self.comparator.compare(
                &self.items[left_idx],
                &self.items[right_idx],
            ) {
                child_idx = left_idx;
            } else {
                child_idx = right_idx;
            }
            if self.comparator.compare(&self.items[idx], &self.items[child_idx]) {
                break ;
            }
            proof {
                assert(swapped(self.items@, idx as int, child_idx as int).skip(1) =~= swapped(
                    self@,
                    idx - 1,
                    child_idx - 1,
                ));
            }
            swap_elements(&mut self.items, idx, child_idx);
            idx = child_idx;
            left_idx = self.left_child_idx(idx);
            right_idx = self.right_child_idx(idx);
        }
    }

    /// The slot of the parent of slot `idx`.
    fn parent_idx(&self, idx: usize) -> (parent: usize)
        ensures
            parent == idx / 2,
    {
        idx / 2
    }

    /// The slot of the left child of slot `idx`.
    fn left_child_idx(&self, idx: usize) -> (left: usize)
        requires
            idx <= usize::MAX / 2,
        ensures
            left == 2 * idx,
    {
        idx * 2
    }

    /// The slot of the right child of slot `idx`.
    fn right_child_idx(&self, idx: usize) -> (right: usize)
        requires
            idx < usize::MAX / 2,
        ensures
            right == 2 * idx + 1,
    {
        self.left_child_idx(idx) + 1
    }
}

impl<T> Heap<T, Ascending> where T: Default + Ord {
    /// An empty heap that prefers the smaller element.
    pub fn new_min() -> (heap: Self)
        requires
            Comparator::<T>::obeys(&Ascending),
        ensures
            heap.wf(),
            heap@ == Seq::<T>::empty(),
            heap.order() == Ascending,
    {
        Self::new(Ascending)
    }
}

impl<T> Heap<T, Descending> where T: Default + Ord {
    /// An empty heap that prefers the larger element.
    pub fn new_max() -> (heap: Self)
        requires
            Comparator::<T>::obeys(&Descending),
        ensures
            heap.wf(),
            heap@ == Seq::<T>::empty(),
            heap.order() == Descending,
    {
        Self::new(Descending)
    }
}

/// Makes heaps that prefer the smaller element.
pub struct MinHeap;

impl MinHeap {
    /// An empty heap that prefers the smaller element.
    pub fn new<T>() -> (heap: Heap<T, Ascending>) where T: Default + Ord
        requires
            Comparator::<T>::obeys(&Ascending),
        ensures
            heap.wf(),
            heap@ == Seq::<T>::empty(),
            heap.order() == Ascending,
    {
        Heap::new(Ascending)
    }
}

/// Makes heaps that prefer the larger element.
pub struct MaxHeap;

impl MaxHeap {
    /// An empty heap that prefers the larger element.
    pub fn new<T>() -> (heap: Heap<T, Descending>) where T: Default + Ord
        requires
            Comparator::<T>::obeys(&Descending),
        ensures
            heap.wf(),
            heap@ == Seq::<T>::empty(),
            heap.order() == Descending,
    {
        Heap::new(Descending)
    }
}

} // verus!

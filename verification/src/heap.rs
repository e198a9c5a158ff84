use core::cmp::Ordering;
use vstd::multiset::Multiset;
use vstd::prelude::*;

verus! {

broadcast use {vstd::seq_lib::group_to_multiset_ensures, vstd::multiset::group_multiset_axioms};

/// `le` is a total preorder: reflexive, transitive and total.
pub open spec fn total_preorder<T>(le: spec_fn(T, T) -> bool) -> bool {
    &&& forall|a: T| #[trigger] le(a, a)
    &&& forall|a: T, b: T, c: T| #[trigger] le(a, b) && #[trigger] le(b, c) ==> le(a, c)
    &&& forall|a: T, b: T| #[trigger] le(a, b) || le(b, a)
}

/// Every answer of `f` agrees with the preorder `le`: `Less` when `a` is
/// strictly below `b`, `Equal` when both are below each other, `Greater`
/// when `a` is not below `b`.
pub open spec fn agrees<T, F: Fn(&T, &T) -> Ordering>(f: F, le: spec_fn(T, T) -> bool) -> bool {
    forall|a: T, b: T, o: Ordering|
        #[trigger] call_ensures(f, (&a, &b), o) ==> match o {
            Ordering::Less => le(a, b) && !le(b, a),
            Ordering::Equal => le(a, b) && le(b, a),
            Ordering::Greater => !le(a, b),
        }
}

/// `f` compares by some total preorder.
pub open spec fn lawful<T, F: Fn(&T, &T) -> Ordering>(f: F) -> bool {
    exists|le: spec_fn(T, T) -> bool| total_preorder(le) && agrees(f, le)
}

/// The total preorder by which a lawful `f` compares.
pub open spec fn order_of<T, F: Fn(&T, &T) -> Ordering>(f: F) -> spec_fn(T, T) -> bool {
    choose|le: spec_fn(T, T) -> bool| total_preorder(le) && agrees(f, le)
}

/// A comparison that agrees with a total preorder `le` orders by `le` on
/// every pair it answers: the order the heap's contracts speak of is then
/// `le` there.
pub proof fn lemma_order_of_agrees<T, F: Fn(&T, &T) -> Ordering>(
    f: F,
    le: spec_fn(T, T) -> bool,
    a: T,
    b: T,
    o: Ordering,
)
    requires
        total_preorder(le),
        agrees(f, le),
        call_ensures(f, (&a, &b), o),
    ensures
        lawful(f),
        order_of(f)(a, b) == le(a, b),
{
    assert(total_preorder(le) && agrees(f, le));
    let le2 = order_of(f);
    assert(agrees(f, le2));
    assert(agrees(f, le2) ==> match o {
        Ordering::Less => le2(a, b) && !le2(b, a),
        Ordering::Equal => le2(a, b) && le2(b, a),
        Ordering::Greater => !le2(a, b),
    });
}

/// `f` can be called on any two values.
pub open spec fn callable<T, F: Fn(&T, &T) -> Ordering>(f: F) -> bool {
    forall|a: &T, b: &T| #[trigger] f.requires((a, b))
}

/// An index as an integer.
pub open spec fn idx(i: usize) -> int {
    i as int
}

pub open spec fn parent_of(i: int) -> int {
    (i - 1) / 2
}

/// Every element is below none of its descendants: each is `le` its
/// children.
pub open spec fn heap_ordered<T>(s: Seq<T>, le: spec_fn(T, T) -> bool) -> bool {
    forall|k: int| 0 < k < s.len() ==> #[trigger] le(s[parent_of(k)], s[k])
}

/// `x` is below every element of `m`.
pub open spec fn is_least<T>(x: T, m: Multiset<T>, le: spec_fn(T, T) -> bool) -> bool {
    forall|y: T| m.contains(y) ==> #[trigger] le(x, y)
}

/// Implements a minimum binary heap, ordered by the comparison it is
/// made with.
pub struct Heap<T, F> {
    data: Vec<T>,
    order: F,
}

/// Exchanges the elements at `i` and `j`.
fn swap_items<T>(v: &mut Vec<T>, i: usize, j: usize)
    requires
        i < j < old(v)@.len(),
    ensures
        final(v)@ == old(v)@.update(idx(i), old(v)@[idx(j)]).update(idx(j), old(v)@[idx(i)]),
{
    let s = v.as_mut_slice();
    let (a, b) = s.split_at_mut(j);
    core::mem::swap(&mut a[i], &mut b[0]);
}

proof fn lemma_swap_multiset<T>(s: Seq<T>, i: int, j: int)
    requires
        0 <= i < s.len(),
        0 <= j < s.len(),
    ensures
        s.update(i, s[j]).update(j, s[i]).to_multiset() == s.to_multiset(),
{
    if i == j {
        assert(s.update(i, s[j]).update(j, s[i]) =~= s);
    } else {
        vstd::seq_lib::to_multiset_update(s, i, s[j]);
        vstd::seq_lib::to_multiset_update(s.update(i, s[j]), j, s[i]);
        assert(s.contains(s[i]));
        assert(s.to_multiset().count(s[i]) > 0);
        assert(s.update(i, s[j])[j] == s[j]);
        assert(s.update(i, s[j]).update(j, s[i]).to_multiset() =~= s.to_multiset());
    }
}

impl<T, F> Heap<T, F> {
    /// The elements, in storage order.
    pub closed spec fn items(self) -> Seq<T> {
        self.data@
    }

    /// The comparison the heap is ordered by.
    pub closed spec fn comparison(self) -> F {
        self.order
    }

    /// The elements held.
    pub open spec fn contents(self) -> Multiset<T> {
        self.items().to_multiset()
    }

    pub open spec fn spec_len(self) -> nat {
        self.items().len()
    }

    pub closed spec fn heap_wf(self) -> bool
        where F: Fn(&T, &T) -> Ordering
    {
        &&& self.data@.len() <= isize::MAX
        &&& callable(self.order)
        &&& lawful(self.order) ==> heap_ordered(self.data@, order_of(self.order))
    }

    pub fn new(cmp: F) -> (res: Self)
        ensures
            res.items() == Seq::<T>::empty(),
            res.contents() == Multiset::<T>::empty(),
            res.spec_len() == 0,
            res.comparison() == cmp,
    {
        let res = Heap { data: Vec::new(), order: cmp };
        proof {
            assert(res.data@.to_multiset() =~= Multiset::<T>::empty());
        }
        res
    }

    /// A heap without elements is sound once its comparison can be called
    /// on any two values.
    pub proof fn lemma_empty_heap_wf(self)
        where F: Fn(&T, &T) -> Ordering
        requires
            self.items().len() == 0,
            callable(self.comparison()),
        ensures
            self.heap_wf(),
    {
    }

    /// Returns the number of items currently in the heap.
    pub fn len(&self) -> (n: usize)
        ensures
            n == self.spec_len(),
    {
        self.data.len()
    }

    /// Returns if the heap has no elements.
    pub fn is_empty(&self) -> (r: bool)
        ensures
            r == (self.spec_len() == 0),
    {
        self.data.len() == 0
    }

    /// Returns the index of the left child for a given index.
    fn left(i: usize) -> (r: usize)
        requires
            2 * i + 1 <= usize::MAX,
        ensures
            r == 2 * i + 1,
    {
        (i * 2) + 1
    }

    /// Returns the index of the right child for a given index.
    fn right(i: usize) -> (r: usize)
        requires
            2 * i + 2 <= usize::MAX,
        ensures
            r == 2 * i + 2,
    {
        (i * 2) + 2
    }

    /// Returns the index of the parent for a given index.
    fn parent(i: usize) -> (r: usize)
        requires
            i > 0,
        ensures
            r == parent_of(idx(i)),
    {
        (i - 1) / 2
    }

    fn compare_items(&self, a: &T, b: &T) -> (o: Ordering)
        where F: Fn(&T, &T) -> Ordering
        requires
            callable(self.order),
        ensures
            call_ensures(self.order, (a, b), o),
            lawful(self.order) ==> match o {
                Ordering::Less => order_of(self.order)(*a, *b) && !order_of(self.order)(*b, *a),
                Ordering::Equal => order_of(self.order)(*a, *b) && order_of(self.order)(*b, *a),
                Ordering::Greater => !order_of(self.order)(*a, *b),
            },
    {
        let f = &self.order;
        let o = f(a, b);
        proof {
            if lawful(self.order) {
                let le = order_of(self.order);
                assert(agrees(self.order, le));
                assert(call_ensures(self.order, (a, b), o));
            }
        }
        o
    }

    /// Adds an element.
    pub fn push(&mut self, element: T)
        where F: Fn(&T, &T) -> Ordering
        requires
            old(self).heap_wf(),
            old(self).spec_len() < isize::MAX,
        ensures
            final(self).heap_wf(),
            final(self).contents() == old(self).contents().insert(element),
            final(self).spec_len() == old(self).spec_len() + 1,
            final(self).comparison() == old(self).comparison(),
    {
        self.data.push(element);
        self.sift_up();
    }

    /// Removes and returns the minimum element.
    pub fn pop(&mut self) -> (res: Option<T>)
        where F: Fn(&T, &T) -> Ordering
        requires
            old(self).heap_wf(),
        ensures
            final(self).heap_wf(),
            final(self).comparison() == old(self).comparison(),
            old(self).spec_len() == 0 ==> res is None && final(self).contents() == old(self).contents() && final(self).spec_len() == 0,
            old(self).spec_len() > 0 ==> res is Some && old(self).contents().contains(res->0)
                && final(self).contents() == old(self).contents().remove(res->0) && final(self).spec_len() == old(self).spec_len() - 1,
            old(self).spec_len() > 0 && lawful(old(self).comparison()) ==> is_least(
                res->0,
                old(self).contents(),
                order_of(old(self).comparison()),
            ),
    {
        if self.is_empty() {
            return None;
        }
        let ghost s0 = self.data@;
        proof {
            if lawful(self.order) {
                lemma_root_least(s0, order_of(self.order));
            }
        }
        // swap the root with the last value
        let last_idx = self.data.len() - 1;
        if last_idx > 0 {
            swap_items(&mut self.data, 0, last_idx);
        }
        let ghost s1 = self.data@;
        proof {
            lemma_swap_multiset(s0, 0, idx(last_idx));
            if last_idx == 0 {
                assert(s1 =~= s0.update(0, s0[idx(last_idx)]).update(idx(last_idx), s0[0]));
            }
        }
        let res = self.data.pop();
        proof {
            assert(s1 =~= self.data@.push(s0[0]));
            assert(s1.to_multiset() =~= self.data@.to_multiset().insert(s0[0]));
            assert(s0.contains(s0[0]));
            if lawful(self.order) {
                let le = order_of(self.order);
                assert forall|k: int| 0 < k < self.data@.len() && parent_of(k) != 0 implies #[trigger] le(
                    self.data@[parent_of(k)],
                    self.data@[k],
                ) by {
                    assert(le(s0[parent_of(k)], s0[k]));
                }
            }
        }
        self.sift_down();
        res
    }

    /// Returns the minimum element.
    pub fn peek(&self) -> (r: Option<&T>)
        where F: Fn(&T, &T) -> Ordering
        requires
            self.heap_wf(),
        ensures
            r is Some == (self.spec_len() > 0),
            r matches Some(x) ==> self.contents().contains(*x) && (lawful(self.comparison())
                ==> is_least(*x, self.contents(), order_of(self.comparison()))),
    {
        if self.data.len() == 0 {
            None
        } else {
            proof {
                assert(self.data@.contains(self.data@[0]));
                if lawful(self.order) {
                    lemma_root_least(self.data@, order_of(self.order));
                }
            }
            Some(&self.data[0])
        }
    }

    /// Given a valid heap except for the last element, places the last
    /// element into its correct position.
    fn sift_up(&mut self)
        where F: Fn(&T, &T) -> Ordering
        requires
            old(self).data@.len() <= isize::MAX,
            callable(old(self).order),
            old(self).data@.len() > 0,
            lawful(old(self).order) ==> forall|k: int|
                0 < k < old(self).data@.len() - 1 ==> #[trigger] order_of(old(self).order)(
                    old(self).data@[parent_of(k)],
                    old(self).data@[k],
                ),
        ensures
            final(self).heap_wf(),
            final(self).order == old(self).order,
            final(self).data@.to_multiset() == old(self).data@.to_multiset(),
            final(self).data@.len() == old(self).data@.len(),
    {
        let ghost s0 = self.data@;
        if self.data.len() <= 1 {
            return;
        }
        let mut i = self.data.len() - 1;
        while i > 0
            invariant
                self.data@.len() == s0.len(),
                self.data@.len() <= isize::MAX,
                self.data@.to_multiset() == s0.to_multiset(),
                callable(self.order),
                self.order == old(self).order,
                i < self.data@.len(),
                lawful(self.order) ==> {
                    let le = order_of(self.order);
                    &&& forall|k: int|
                        0 < k < self.data@.len() && k != i ==> #[trigger] le(
                            self.data@[parent_of(k)],
                            self.data@[k],
                        )
                    &&& i > 0 ==> forall|k: int|
                        0 < k < self.data@.len() && parent_of(k) == i ==> #[trigger] le(
                            self.data@[parent_of(idx(i))],
                            self.data@[k],
                        )
                },
            ensures
                self.data@.len() == s0.len(),
                self.data@.len() <= isize::MAX,
                self.data@.to_multiset() == s0.to_multiset(),
                callable(self.order),
                self.order == old(self).order,
                lawful(self.order) ==> heap_ordered(self.data@, order_of(self.order)),
            decreases i,
        {
            let p = Self::parent(i);
            let o = self.compare_items(&self.data[p], &self.data[i]);
            match o {
                Ordering::Greater => {},
                _ => {
                    proof {
                        if lawful(self.order) {
                            let le = order_of(self.order);
                            assert forall|k: int| 0 < k < self.data@.len() implies #[trigger] le(
                                self.data@[parent_of(k)],
                                self.data@[k],
                            ) by {
                                if k == i {
                                }
                            }
                        }
                    }
                    break;
                },
            }
            let ghost before = self.data@;
            swap_items(&mut self.data, p, i);
            proof {
                lemma_swap_multiset(before, idx(p), idx(i));
                if lawful(self.order) {
                    let le = order_of(self.order);
                    let s = self.data@;
                    let dp = before[idx(p)];
                    let di = before[idx(i)];
                    assert(le(di, dp));
                    assert forall|k: int| 0 < k < s.len() && k != p implies #[trigger] le(
                        s[parent_of(k)],
                        s[k],
                    ) by {
                        if k == i {
                        } else if parent_of(k) == i {
                            assert(le(before[parent_of(idx(i))], before[k]));
                        } else if parent_of(k) == p {
                            assert(le(dp, before[k]));
                            assert(le(di, before[k]));
                        } else if k == p {
                        } else {
                            assert(le(before[parent_of(k)], before[k]));
                        }
                    }
                    if p > 0 {
                        assert forall|k: int| 0 < k < s.len() && parent_of(k) == p implies #[trigger] le(
                            s[parent_of(idx(p))],
                            s[k],
                        ) by {
                            assert(le(before[parent_of(idx(p))], before[idx(p)]));
                            if k == i {
                            } else {
                                assert(le(dp, before[k]));
                            }
                        }
                    }
                }
            }
            i = p;
            proof {
                if i == 0 && lawful(self.order) {
                    let le = order_of(self.order);
                    assert forall|k: int| 0 < k < self.data@.len() implies #[trigger] le(
                        self.data@[parent_of(k)],
                        self.data@[k],
                    ) by {}
                }
            }
        }
    }

    /// Given a valid heap except for the root, moves the root down into
    /// its correct position.
    fn sift_down(&mut self)
        where F: Fn(&T, &T) -> Ordering
        requires
            old(self).data@.len() <= isize::MAX,
            callable(old(self).order),
            lawful(old(self).order) ==> forall|k: int|
                0 < k < old(self).data@.len() && parent_of(k) != 0 ==> #[trigger] order_of(
                    old(self).order,
                )(old(self).data@[parent_of(k)], old(self).data@[k]),
        ensures
            final(self).heap_wf(),
            final(self).order == old(self).order,
            final(self).data@.to_multiset() == old(self).data@.to_multiset(),
            final(self).data@.len() == old(self).data@.len(),
    {
        let ghost s0 = self.data@;
        if self.data.len() <= 1 {
            proof {
                if lawful(self.order) {
                    assert(heap_ordered(self.data@, order_of(self.order)));
                }
            }
            return;
        }
        let mut i: usize = 0;
        while i < self.data.len()
            invariant
                self.data@.len() == s0.len(),
                self.data@.len() <= isize::MAX,
                self.data@.to_multiset() == s0.to_multiset(),
                callable(self.order),
                self.order == old(self).order,
                i < self.data@.len(),
                lawful(self.order) ==> {
                    let le = order_of(self.order);
                    &&& forall|k: int|
                        0 < k < self.data@.len() && parent_of(k) != i ==> #[trigger] le(
                            self.data@[parent_of(k)],
                            self.data@[k],
                        )
                    &&& i > 0 ==> forall|k: int|
                        0 < k < self.data@.len() && parent_of(k) == i ==> #[trigger] le(
                            self.data@[parent_of(idx(i))],
                            self.data@[k],
                        )
                },
            ensures
                self.data@.len() == s0.len(),
                self.data@.len() <= isize::MAX,
                self.data@.to_multiset() == s0.to_multiset(),
                callable(self.order),
                self.order == old(self).order,
                lawful(self.order) ==> heap_ordered(self.data@, order_of(self.order)),
            decreases self.data@.len() - i,
        {
            let left = Self::left(i);
            if left >= self.data.len() {
                proof {
                    if lawful(self.order) {
                        let le = order_of(self.order);
                        assert forall|k: int| 0 < k < self.data@.len() implies #[trigger] le(
                            self.data@[parent_of(k)],
                            self.data@[k],
                        ) by {
                            if parent_of(k) == i {
                                assert(k >= 2 * i + 1);
                            }
                        }
                    }
                }
                break;
            }
            let mut child = left;
            let right = Self::right(i);
            // compare with the smaller child
            if right < self.data.len() {
                let o = self.compare_items(&self.data[right], &self.data[child]);
                if let Ordering::Less = o {
                    child = right;
                }
            }
            let ghost other = if child == left {
                idx(right)
            } else {
                idx(left)
            };
            proof {
                if lawful(self.order) {
                    let le = order_of(self.order);
                    if other < self.data@.len() {
                        assert(le(self.data@[idx(child)], self.data@[other]));
                    }
                }
            }
            let o = self.compare_items(&self.data[i], &self.data[child]);
            match o {
                Ordering::Greater => {},
                _ => {
                    proof {
                        if lawful(self.order) {
                            let le = order_of(self.order);
                            assert forall|k: int| 0 < k < self.data@.len() implies #[trigger] le(
                                self.data@[parent_of(k)],
                                self.data@[k],
                            ) by {
                                if parent_of(k) == i {
                                    assert(k == 2 * i + 1 || k == 2 * i + 2);
                                    if k != child {
                                        assert(k == other);
                                    }
                                }
                            }
                        }
                    }
                    break;
                },
            }
            let ghost before = self.data@;
            swap_items(&mut self.data, i, child);
            proof {
                lemma_swap_multiset(before, idx(i), idx(child));
                if lawful(self.order) {
                    let le = order_of(self.order);
                    let s = self.data@;
                    let di = before[idx(i)];
                    let dc = before[idx(child)];
                    assert(le(dc, di));
                    assert(parent_of(idx(child)) == i);
                    assert forall|k: int| 0 < k < s.len() && parent_of(k) != child implies #[trigger] le(
                        s[parent_of(k)],
                        s[k],
                    ) by {
                        if k == child {
                        } else if k == i {
                            assert(le(before[parent_of(idx(i))], dc));
                        } else if parent_of(k) == i {
                            assert(k == other);
                            assert(le(dc, before[k]));
                        } else {
                            assert(le(before[parent_of(k)], before[k]));
                        }
                    }
                    assert forall|k: int| 0 < k < s.len() && parent_of(k) == child implies #[trigger] le(
                        s[parent_of(idx(child))],
                        s[k],
                    ) by {
                        assert(le(before[parent_of(k)], before[k]));
                    }
                }
            }
            i = child;
        }
    }
}

/// The root of a heap-ordered sequence is below every element.
pub proof fn lemma_root_least<T>(s: Seq<T>, le: spec_fn(T, T) -> bool)
    requires
        total_preorder(le),
        heap_ordered(s, le),
        s.len() > 0,
    ensures
        is_least(s[0], s.to_multiset(), le),
{
    assert forall|k: int| 0 <= k < s.len() implies #[trigger] le(s[0], s[k]) by {
        lemma_root_below(s, le, k);
    }
    assert forall|y: T| s.to_multiset().contains(y) implies #[trigger] le(s[0], y) by {
        assert(s.contains(y));
        let k = choose|k: int| 0 <= k < s.len() && s[k] == y;
        assert(le(s[0], s[k]));
    }
}

proof fn lemma_root_below<T>(s: Seq<T>, le: spec_fn(T, T) -> bool, k: int)
    requires
        total_preorder(le),
        heap_ordered(s, le),
        0 <= k < s.len(),
    ensures
        le(s[0], s[k]),
    decreases k,
{
    if k > 0 {
        lemma_root_below(s, le, parent_of(k));
        assert(le(s[parent_of(k)], s[k]));
    }
}

/// `outs` is what successive pops give from a heap holding `m`: each is a
/// least element of what is left, and leaves it.
pub open spec fn pop_sequence<T>(m: Multiset<T>, outs: Seq<T>, le: spec_fn(T, T) -> bool) -> bool
    decreases outs.len(),
{
    if outs.len() == 0 {
        true
    } else {
        &&& m.contains(outs[0])
        &&& is_least(outs[0], m, le)
        &&& pop_sequence(m.remove(outs[0]), outs.drop_first(), le)
    }
}

/// Popping again and again gives the elements in order: every element
/// popped is below each one popped after it, and each was held.
pub proof fn lemma_pops_sorted<T>(m: Multiset<T>, outs: Seq<T>, le: spec_fn(T, T) -> bool)
    requires
        pop_sequence(m, outs, le),
    ensures
        forall|j: int| 0 <= j < outs.len() ==> #[trigger] m.contains(outs[j]),
        forall|i: int, j: int| 0 <= i < j < outs.len() ==> #[trigger] le(outs[i], outs[j]),
        outs.to_multiset().subset_of(m),
        outs.len() == m.len() ==> outs.to_multiset() == m,
    decreases outs.len(),
{
    if outs.len() == 0 {
        assert(outs.to_multiset() =~= Multiset::<T>::empty());
    }
    if outs.len() > 0 {
        let rest = outs.drop_first();
        let m1 = m.remove(outs[0]);
        lemma_pops_sorted(m1, rest, le);
        assert(outs =~= seq![outs[0]] + rest);
        vstd::seq_lib::lemma_multiset_commutative(seq![outs[0]], rest);
        assert(seq![outs[0]].to_multiset() =~= Multiset::singleton(outs[0])) by {
            assert(seq![outs[0]] =~= Seq::<T>::empty().push(outs[0]));
        }
        assert(outs.to_multiset() =~= rest.to_multiset().insert(outs[0]));
        assert(m1.insert(outs[0]) =~= m);
        assert forall|j: int| 0 <= j < outs.len() implies #[trigger] m.contains(outs[j]) by {
            if j > 0 {
                assert(rest[j - 1] == outs[j]);
                assert(m1.contains(outs[j]));
            }
        }
        assert forall|i: int, j: int| 0 <= i < j < outs.len() implies #[trigger] le(
            outs[i],
            outs[j],
        ) by {
            assert(m.contains(outs[j]));
            if i > 0 {
                assert(rest[i - 1] == outs[i] && rest[j - 1] == outs[j]);
            }
        }
    }
}

} // verus!

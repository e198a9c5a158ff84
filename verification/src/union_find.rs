use crate::index::{isx, ix, nat_of, nx};
use vstd::prelude::*;
use vstd::set_lib::{lemma_int_range, lemma_len_subset, set_int_range};

verus! {

broadcast use vstd::set::group_set_axioms;

/// A Disjoint Set Union / Union-Find implementation.
///
/// `data[i]` is negative when `i` is a root, and then `-data[i]` is the size
/// of its set; otherwise `data[i]` is the index of the parent of `i`.
pub struct UnionFind {
    data: Vec<isize>,
    num_sets: usize,
    /// A rank that strictly grows from a node to its parent; it bounds the
    /// length of every parent chain.
    rank: Ghost<Seq<nat>>,
    /// Strict upper bound of every rank.
    rank_bound: Ghost<nat>,
}

impl UnionFind {
    /// Number of elements.
    pub closed spec fn spec_len(self) -> nat {
        self.data@.len()
    }

    spec fn parent_ok(self, i: int) -> bool {
        let p = self.data@[i] as int;
        &&& 0 <= p < self.data@.len()
        &&& self.rank@[i] < self.rank@[p]
    }

    /// Structure of the parent forest: parents are in range and ranks grow
    /// strictly towards the roots.
    spec fn forest(self) -> bool {
        &&& self.data@.len() <= isize::MAX
        &&& self.rank_bound@ > 0
        &&& self.rank@.len() == self.data@.len()
        &&& forall|i: int| 0 <= i < self.data@.len() ==> #[trigger] self.rank@[i] < self.rank_bound@
        &&& forall|i: int|
            0 <= i < self.data@.len() && self.data@[i] >= 0 ==> #[trigger] self.parent_ok(i)
    }

    spec fn is_root(self, i: int) -> bool {
        self.data@[i] < 0
    }

    /// `i` is a representative or hangs right under one.
    pub closed spec fn flat(self, i: int) -> bool {
        ||| self.data@[i] < 0
        ||| self.data@[self.data@[i] as int] < 0
    }

    spec fn find_root(self, i: int) -> int
        decreases self.rank_bound@ - self.rank@[i],
    {
        if 0 <= i < self.data@.len() && self.data@[i] >= 0 && self.parent_ok(i) && self.rank@[
            self.data@[i] as int
        ] < self.rank_bound@ {
            self.find_root(self.data@[i] as int)
        } else {
            i
        }
    }

    /// The representative of the set that holds `i`.
    pub closed spec fn root_of(self, i: int) -> int {
        self.find_root(i)
    }

    /// Whether `i` and `j` are in the same set.
    pub open spec fn same_set(self, i: int, j: int) -> bool {
        self.root_of(i) == self.root_of(j)
    }

    /// The elements whose representative is `r`.
    pub closed spec fn class_of(self, r: int) -> Set<int> {
        Set::new(|k: int| 0 <= k < self.data@.len() && self.root_of(k) == r)
    }

    /// The set with representative `r` holds exactly the elements whose
    /// representative is `r`, finitely many; the size of an element's set
    /// is its number of elements.
    pub proof fn lemma_class_of(self, r: int)
        ensures
            self.class_of(r) == Set::new(|k: int| 0 <= k < self.spec_len() && self.root_of(k) == r),
            self.class_of(r).finite(),
            self.class_of(r).len() <= self.spec_len(),
            forall|i: int| #[trigger] self.set_size(i) == self.class_of(self.root_of(i)).len(),
    {
        self.lemma_class_finite(r);
    }

    /// The number of elements in the set that holds `i`.
    pub open spec fn set_size(self, i: int) -> nat {
        self.class_of(self.root_of(i)).len()
    }

    /// The representatives, one per set.
    pub closed spec fn roots(self) -> Set<int> {
        Set::new(|k: int| 0 <= k < self.data@.len() && self.data@[k] < 0)
    }

    /// The number of disjoint sets.
    pub closed spec fn spec_num_sets(self) -> nat {
        self.num_sets as nat
    }

    pub closed spec fn wf(self) -> bool {
        &&& self.data@.len() <= isize::MAX
        &&& self.forest()
        &&& self.num_sets == self.roots().len()
        &&& forall|r: int|
            0 <= r < self.data@.len() && self.data@[r] < 0 ==> -self.data@[r] == #[trigger] self.class_of(
                r,
            ).len()
    }

    proof fn lemma_root_of(self, i: int)
        requires
            self.forest(),
            0 <= i < self.data@.len(),
        ensures
            0 <= self.root_of(i) < self.data@.len(),
            self.is_root(self.root_of(i)),
            self.rank@[i] <= self.rank@[self.root_of(i)],
            !self.is_root(i) ==> self.rank@[i] < self.rank@[self.root_of(i)],
            self.is_root(i) ==> self.root_of(i) == i,
            !self.is_root(i) ==> self.root_of(i) == self.root_of(self.data@[i] as int),
        decreases self.rank_bound@ - self.rank@[i],
    {
        if self.data@[i] >= 0 {
            let p = self.data@[i] as int;
            assert(self.parent_ok(i));
            assert(self.rank@[p] < self.rank_bound@);
            self.lemma_root_of(p);
        }
    }

    proof fn lemma_class_finite(self, r: int)
        ensures
            self.class_of(r).finite(),
            self.class_of(r).len() <= self.data@.len(),
    {
        lemma_int_range(0, self.data@.len() as int);
        lemma_len_subset(self.class_of(r), set_int_range(0, self.data@.len() as int));
    }

    proof fn lemma_roots_finite(self)
        ensures
            self.roots().finite(),
            self.roots().len() <= self.data@.len(),
    {
        lemma_int_range(0, self.data@.len() as int);
        lemma_len_subset(self.roots(), set_int_range(0, self.data@.len() as int));
    }

    /// The representatives of the elements, one per set.
    pub open spec fn representatives(self) -> Set<int> {
        Set::new(|r: int| exists|j: int| 0 <= j < self.spec_len() && #[trigger] self.root_of(j) == r)
    }

    /// The number of sets is the number of distinct representatives: at
    /// most the number of elements, and at least one when there is one.
    pub proof fn lemma_num_sets(self)
        requires
            self.wf(),
        ensures
            self.representatives().finite(),
            self.spec_num_sets() == self.representatives().len(),
            self.spec_num_sets() <= self.spec_len(),
            self.spec_len() > 0 ==> self.spec_num_sets() >= 1,
    {
        self.lemma_roots_finite();
        assert forall|r: int| #[trigger] self.representatives().contains(r) == self.roots().contains(
            r,
        ) by {
            if self.representatives().contains(r) {
                let j = choose|j: int| 0 <= j < self.spec_len() && #[trigger] self.root_of(j) == r;
                self.lemma_root_of(j);
            }
            if self.roots().contains(r) {
                self.lemma_root_of(r);
                assert(self.root_of(r) == r);
            }
        }
        assert(self.representatives() =~= self.roots());
        if self.spec_len() > 0 {
            self.lemma_root_of(0);
            assert(self.roots().contains(self.root_of(0)));
        }
    }

    /// Pointing `cur` straight at its representative keeps every
    /// representative.
    proof fn lemma_compress_keeps_roots(old: Self, new: Self, cur: int, j: int)
        requires
            old.forest(),
            0 <= cur < old.data@.len(),
            !old.is_root(cur),
            new.data@ == old.data@.update(cur, old.root_of(cur) as isize),
            new.rank@ == old.rank@,
            new.rank_bound@ == old.rank_bound@,
            0 <= j < old.data@.len(),
        ensures
            new.forest(),
            new.root_of(j) == old.root_of(j),
        decreases old.rank_bound@ - old.rank@[j],
    {
        old.lemma_root_of(cur);
        assert(new.parent_ok(cur));
        assert forall|i: int| 0 <= i < new.data@.len() && new.data@[i] >= 0 implies #[trigger] new.parent_ok(
            i,
        ) by {
            if i != cur {
                assert(old.parent_ok(i));
            }
        }
        old.lemma_root_of(j);
        if j == cur {
            let r = old.root_of(cur);
            new.lemma_root_of(r);
            new.lemma_root_of(cur);
        } else if !old.is_root(j) {
            let p = old.data@[j] as int;
            assert(old.parent_ok(j));
            Self::lemma_compress_keeps_roots(old, new, cur, p);
            new.lemma_root_of(j);
        } else {
            new.lemma_root_of(j);
        }
    }

    /// Creates a new Union-Find structure with `size` elements,
    /// each in its own set.
    pub fn new(size: usize) -> (res: Self)
        requires
            size <= isize::MAX,
        ensures
            res.wf(),
            res.spec_len() == size,
            res.spec_num_sets() == size,
            forall|i: int| 0 <= i < size ==> #[trigger] res.root_of(i) == i,
            forall|i: int| 0 <= i < size ==> #[trigger] res.set_size(i) == 1,
    {
        let mut data: Vec<isize> = Vec::new();
        let mut k: usize = 0;
        while k < size
            invariant
                k <= size,
                data@.len() == k,
                forall|i: int| 0 <= i < k ==> data@[i] == -1,
            decreases size - k,
        {
            data.push(-1);
            k = k + 1;
        }
        let res = UnionFind {
            data,
            num_sets: size,
            rank: Ghost(Seq::new(nat_of(size), |i: int| 0nat)),
            rank_bound: Ghost(1nat),
        };
        proof {
            assert(res.roots() =~= set_int_range(0, ix(size)));
            lemma_int_range(0, ix(size));
            assert forall|r: int| 0 <= r < size implies #[trigger] res.root_of(r) == r by {
                res.lemma_root_of(r);
            }
            assert forall|r: int|
                0 <= r < res.data@.len() && res.data@[r] < 0 implies -res.data@[r]
                == #[trigger] res.class_of(r).len() by {
                assert(res.class_of(r) =~= set![r]);
            }
        }
        res
    }

    /// Creates a new empty Union-Find structure with space for
    /// `size` elements preallocated.
    pub fn with_capacity(size: usize) -> (res: Self)
        ensures
            res.wf(),
            res.spec_len() == 0,
            res.spec_num_sets() == 0,
    {
        let res = UnionFind {
            data: Vec::with_capacity(size),
            num_sets: 0,
            rank: Ghost(Seq::empty()),
            rank_bound: Ghost(1nat),
        };
        proof {
            assert(res.roots() =~= Set::empty());
        }
        res
    }

    /// Inserts a new node in its own set and returns the index of the
    /// new added element.
    pub fn add(&mut self) -> (new_i: usize)
        requires
            old(self).wf(),
            old(self).spec_len() < isize::MAX,
        ensures
            final(self).wf(),
            new_i == old(self).spec_len(),
            final(self).spec_len() == old(self).spec_len() + 1,
            final(self).spec_num_sets() == old(self).spec_num_sets() + 1,
            final(self).root_of(ix(new_i)) == new_i,
            final(self).set_size(ix(new_i)) == 1,
            forall|k: int|
                0 <= k < old(self).spec_len() ==> #[trigger] final(self).root_of(k) == old(self).root_of(
                    k,
                ),
            forall|k: int|
                0 <= k < old(self).spec_len() ==> #[trigger] final(self).set_size(k) == old(self).set_size(k),
    {
        let ghost old_self = *self;
        proof {
            old_self.lemma_roots_finite();
        }
        let new_i = self.data.len();
        self.data.push(-1);
        self.num_sets = self.num_sets + 1;
        proof {
            self.rank@ = self.rank@.push(0nat);
            assert forall|i: int| 0 <= i < self.data@.len() && self.data@[i] >= 0 implies #[trigger] self.parent_ok(
                i,
            ) by {
                assert(old_self.parent_ok(i));
            }
            assert forall|k: int| 0 <= k < old_self.data@.len() implies #[trigger] self.root_of(k)
                == old_self.root_of(k) && old_self.root_of(k) < old_self.data@.len() by {
                Self::lemma_push_keeps_roots(old_self, *self, k);
                old_self.lemma_root_of(k);
            }
            self.lemma_root_of(ix(new_i));
            assert(self.roots() =~= old_self.roots().insert(ix(new_i)));
            assert forall|r: int|
                0 <= r < self.data@.len() && self.data@[r] < 0 implies -self.data@[r]
                == #[trigger] self.class_of(r).len() by {
                if r == new_i {
                    assert(self.class_of(r) =~= set![r]);
                } else {
                    assert(self.class_of(r) =~= old_self.class_of(r));
                }
            }
            assert forall|k: int| 0 <= k < old_self.data@.len() implies #[trigger] self.set_size(k)
                == old_self.set_size(k) by {
                old_self.lemma_root_of(k);
                let r = old_self.root_of(k);
                assert(self.class_of(r) =~= old_self.class_of(r));
            }
            assert(self.class_of(ix(new_i)) =~= set![ix(new_i)]);
        }
        new_i
    }

    proof fn lemma_push_keeps_roots(old: Self, new: Self, k: int)
        requires
            old.forest(),
            new.forest(),
            new.data@ == old.data@.push(-1isize),
            new.rank@ == old.rank@.push(0nat),
            new.rank_bound@ == old.rank_bound@,
            0 <= k < old.data@.len(),
        ensures
            new.root_of(k) == old.root_of(k),
        decreases old.rank_bound@ - old.rank@[k],
    {
        old.lemma_root_of(k);
        new.lemma_root_of(k);
        if !old.is_root(k) {
            assert(old.parent_ok(k));
            Self::lemma_push_keeps_roots(old, new, isx(old.data@[k]));
        }
    }

    /// Finds the representative (root) of the set containing `i`.
    ///
    /// Each call flattens the tree.
    pub fn find(&mut self, i: usize) -> (root: usize)
        requires
            old(self).wf(),
            i < old(self).spec_len(),
        ensures
            final(self).wf(),
            root == old(self).root_of(i as int),
            root < final(self).spec_len(),
            final(self).root_of(root as int) == root,
            final(self).spec_len() == old(self).spec_len(),
            final(self).spec_num_sets() == old(self).spec_num_sets(),
            forall|k: int|
                0 <= k < old(self).spec_len() ==> #[trigger] final(self).root_of(k) == old(self).root_of(
                    k,
                ),
            forall|k: int|
                0 <= k < old(self).spec_len() ==> #[trigger] final(self).set_size(k) == old(self).set_size(k),
            final(self).flat(i as int),
    {
        let ghost old_self = *self;
        proof {
            self.lemma_root_of(i as int);
        }
        let mut root = i;
        while self.data[root] >= 0
            invariant
                *self == old_self,
                self.forest(),
                0 <= root < self.data@.len(),
                self.root_of(root as int) == self.root_of(i as int),
            decreases self.rank_bound@ - self.rank@[root as int],
        {
            proof {
                self.lemma_root_of(root as int);
                assert(self.parent_ok(root as int));
            }
            root = self.data[root] as usize;
        }
        proof {
            self.lemma_root_of(root as int);
        }
        let mut cur = i;
        while self.data[cur] >= 0
            invariant
                self.forest(),
                self.data@.len() == old_self.data@.len(),
                self.rank == old_self.rank,
                self.rank_bound == old_self.rank_bound,
                self.num_sets == old_self.num_sets,
                0 <= cur < self.data@.len(),
                0 <= root < self.data@.len(),
                root as int == old_self.root_of(i as int),
                self.root_of(cur as int) == root,
                self.is_root(root as int),
                forall|r: int|
                    0 <= r < self.data@.len() ==> (#[trigger] self.data@[r] < 0) == (old_self.data@[r]
                        < 0),
                forall|r: int|
                    0 <= r < self.data@.len() && #[trigger] self.data@[r] < 0 ==> self.data@[r]
                        == old_self.data@[r],
                forall|k: int|
                    0 <= k < self.data@.len() ==> #[trigger] self.root_of(k) == old_self.root_of(k),
                cur == i || (self.data@[i as int] == root as isize && self.rank@[i as int]
                    < self.rank@[cur as int]),
            decreases self.rank_bound@ - self.rank@[cur as int],
        {
            let ghost before = *self;
            proof {
                self.lemma_root_of(cur as int);
                assert(self.parent_ok(cur as int));
            }
            let next = self.data[cur];
            self.data[cur] = root as isize;
            proof {
                assert forall|r: int| 0 <= r < self.data@.len() && r != cur implies #[trigger] self.data@[r]
                    == before.data@[r] by {}
                assert forall|k: int| 0 <= k < self.data@.len() implies #[trigger] self.root_of(k)
                    == old_self.root_of(k) by {
                    Self::lemma_compress_keeps_roots(before, *self, cur as int, k);
                }
                Self::lemma_compress_keeps_roots(before, *self, cur as int, 0);
                assert(before.parent_ok(cur as int));
                Self::lemma_compress_keeps_roots(before, *self, cur as int, next as int);
            }
            cur = next as usize;
        }
        proof {
            assert(self.roots() =~= old_self.roots());
            assert forall|r: int| #[trigger] self.class_of(r) == old_self.class_of(r) by {
                assert(self.class_of(r) =~= old_self.class_of(r));
            }
            self.lemma_root_of(root as int);
        }
        root
    }

    /// Hanging root `ri` under root `rj` moves the whole set of `ri` into the
    /// set of `rj` and keeps every other set.
    proof fn lemma_link_roots(old: Self, new: Self, ri: int, rj: int, k: int)
        requires
            old.forest(),
            new.forest(),
            0 <= ri < old.data@.len(),
            0 <= rj < old.data@.len(),
            ri != rj,
            old.is_root(ri),
            old.is_root(rj),
            new.is_root(rj),
            new.data@.len() == old.data@.len(),
            new.data@[ri] == rj,
            forall|x: int| 0 <= x < old.data@.len() && x != ri && x != rj ==> new.data@[x] == old.data@[x],
            forall|x: int| 0 <= x < old.data@.len() && x != rj ==> new.rank@[x] == old.rank@[x],
            0 <= k < old.data@.len(),
        ensures
            new.root_of(k) == (if old.root_of(k) == ri {
                rj
            } else {
                old.root_of(k)
            }),
        decreases old.rank_bound@ - old.rank@[k],
    {
        old.lemma_root_of(k);
        new.lemma_root_of(k);
        if k == ri {
            new.lemma_root_of(rj);
        } else if k == rj {
        } else if !old.is_root(k) {
            let p = old.data@[k] as int;
            assert(old.parent_ok(k));
            Self::lemma_link_roots(old, new, ri, rj, p);
        }
    }

    /// Merges the sets containing `i` and `j`.
    ///
    /// Returns whether the sets were not already merged.
    pub fn union(&mut self, i: usize, j: usize) -> (merged: bool)
        requires
            old(self).wf(),
            i < old(self).spec_len(),
            j < old(self).spec_len(),
        ensures
            final(self).wf(),
            merged == !old(self).same_set(i as int, j as int),
            final(self).spec_len() == old(self).spec_len(),
            final(self).spec_num_sets() == old(self).spec_num_sets() - (if merged {
                1int
            } else {
                0int
            }),
            final(self).same_set(i as int, j as int),
            forall|a: int, b: int|
                0 <= a < old(self).spec_len() && 0 <= b < old(self).spec_len() ==> (
                #[trigger] final(self).same_set(a, b) <==> (old(self).same_set(a, b) || (old(self).same_set(a, i as int) && old(self).same_set(b, j as int)) || (old(self).same_set(
                    a,
                    j as int,
                ) && old(self).same_set(b, i as int)))),
            merged ==> final(self).set_size(i as int) == old(self).set_size(i as int) + old(self).set_size(j as int),
            !merged ==> forall|k: int|
                0 <= k < old(self).spec_len() ==> #[trigger] final(self).root_of(k) == old(self).root_of(k)
                    && final(self).set_size(k) == old(self).set_size(k),
            merged ==> final(self).root_of(i as int) == (if old(self).set_size(j as int) >= old(self).set_size(i as int) {
                old(self).root_of(j as int)
            } else {
                old(self).root_of(i as int)
            }),
            forall|k: int|
                0 <= k < old(self).spec_len() && !old(self).same_set(k, i as int) && !old(self).same_set(k, j as int) ==> #[trigger] final(self).root_of(k) == old(self).root_of(
                    k,
                ),
            forall|k: int|
                0 <= k < old(self).spec_len() && !old(self).same_set(k, i as int) && !old(self).same_set(k, j as int) ==> #[trigger] final(self).set_size(k) == old(self).set_size(k),
    {
        let ghost orig = *self;
        let root_i = self.find(i);
        let root_j = self.find(j);
        let ghost mid = *self;
        proof {
            mid.lemma_root_of(i as int);
            mid.lemma_root_of(j as int);
        }
        if root_j == root_i {
            return false;
        }
        proof {
            lemma_int_range(0, mid.data@.len() as int);
            mid.lemma_roots_finite();
            assert(mid.roots().contains(root_i as int));
            assert(mid.roots().remove(root_i as int).len() + 1 == mid.roots().len());
            mid.lemma_class_finite(root_i as int);
            mid.lemma_class_finite(root_j as int);
            assert(mid.class_of(root_i as int).disjoint(mid.class_of(root_j as int)));
            vstd::set_lib::lemma_set_disjoint_lens(
                mid.class_of(root_i as int),
                mid.class_of(root_j as int),
            );
            assert(mid.class_of(root_i as int) + mid.class_of(root_j as int) =~= Set::new(
                |k: int|
                    0 <= k < mid.data@.len() && (mid.root_of(k) == root_i || mid.root_of(k)
                        == root_j),
            ));
            vstd::set_lib::lemma_len_subset(
                mid.class_of(root_i as int) + mid.class_of(root_j as int),
                set_int_range(0, mid.data@.len() as int),
            );
        }
        let (lo, hi) = if self.data[root_j] <= self.data[root_i] {
            (root_i, root_j)
        } else {
            (root_j, root_i)
        };
        // `hi` becomes the representative of the merged set.
        let merged_size = self.data[hi] + self.data[lo];
        self.data[hi] = merged_size;
        self.data[lo] = hi as isize;
        self.num_sets = self.num_sets - 1;
        proof {
            self.rank@ = self.rank@.update(hi as int, self.rank_bound@);
            self.rank_bound@ = self.rank_bound@ + 1;
            assert forall|x: int| 0 <= x < self.data@.len() && self.data@[x] >= 0 implies #[trigger] self.parent_ok(
                x,
            ) by {
                if x != lo {
                    assert(mid.parent_ok(x));
                }
            }
            assert forall|k: int| 0 <= k < self.data@.len() implies #[trigger] self.root_of(k) == (
            if mid.root_of(k) == lo {
                hi as int
            } else {
                mid.root_of(k)
            }) by {
                Self::lemma_link_roots(mid, *self, lo as int, hi as int, k);
            }
            assert(self.roots() =~= mid.roots().remove(lo as int));
            assert(self.class_of(hi as int) =~= mid.class_of(root_i as int) + mid.class_of(
                root_j as int,
            ));
            assert forall|r: int|
                0 <= r < self.data@.len() && self.data@[r] < 0 implies -self.data@[r]
                == #[trigger] self.class_of(r).len() by {
                if r != hi {
                    assert(self.class_of(r) =~= mid.class_of(r));
                }
            }
            assert forall|k: int|
                0 <= k < orig.data@.len() && !orig.same_set(k, i as int) && !orig.same_set(
                    k,
                    j as int,
                ) implies #[trigger] self.set_size(k) == orig.set_size(k) by {
                let r = mid.root_of(k);
                assert(self.root_of(k) == r);
                assert(mid.set_size(k) == orig.set_size(k));
                assert(self.class_of(r) =~= mid.class_of(r));
            }
            assert(self.root_of(i as int) == hi as int);
            assert(self.root_of(j as int) == hi as int);
            assert(mid.set_size(i as int) == orig.set_size(i as int));
            assert(mid.set_size(j as int) == orig.set_size(j as int));
            assert(self.set_size(i as int) == self.class_of(hi as int).len());
            assert(mid.data@[root_i as int] < 0 && mid.data@[root_j as int] < 0);
            assert(-mid.data@[root_i as int] == mid.class_of(root_i as int).len());
            assert(-mid.data@[root_j as int] == mid.class_of(root_j as int).len());
        }
        true
    }

    /// Returns the number of elements in the set containing `i`.
    pub fn size_of(&mut self, i: usize) -> (size: usize)
        requires
            old(self).wf(),
            i < old(self).spec_len(),
        ensures
            final(self).wf(),
            size == old(self).set_size(i as int),
            final(self).spec_len() == old(self).spec_len(),
            final(self).spec_num_sets() == old(self).spec_num_sets(),
            forall|k: int|
                0 <= k < old(self).spec_len() ==> #[trigger] final(self).root_of(k) == old(self).root_of(
                    k,
                ),
            forall|k: int|
                0 <= k < old(self).spec_len() ==> #[trigger] final(self).set_size(k) == old(self).set_size(k),
    {
        let root = self.find(i);
        proof {
            self.lemma_root_of(root as int);
            self.lemma_class_finite(root as int);
        }
        let neg = self.data[root];
        proof {
            assert(self.root_of(i as int) == root);
            assert(-neg == self.class_of(root as int).len());
            assert(self.set_size(i as int) == self.class_of(root as int).len());
        }
        (-neg) as usize
    }

    /// Returns the total number of disjoint sets.
    pub fn num_sets(&self) -> (n: usize)
        ensures
            n == self.spec_num_sets(),
    {
        self.num_sets
    }

    /// Returns the total number of elements.
    pub fn len(&self) -> (n: usize)
        ensures
            n == self.spec_len(),
    {
        self.data.len()
    }
}

} // verus!

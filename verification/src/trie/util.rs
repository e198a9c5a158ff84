use vstd::prelude::*;

verus! {

/// Largest number of elements a `BoundedRawVec` can hold.
pub const CAPACITY_MAX: usize = 256;

/// `n` is the length of the longest common prefix of `a` and `b`.
pub open spec fn is_lcp(a: Seq<u8>, b: Seq<u8>, n: int) -> bool {
    &&& 0 <= n <= a.len()
    &&& n <= b.len()
    &&& forall|i: int| 0 <= i < n ==> a[i] == b[i]
    &&& (n < a.len() && n < b.len() ==> a[n] != b[n])
}

/// Calculates the longest common prefix.
pub fn lcp(buf1: &[u8], buf2: &[u8]) -> (n: usize)
    ensures
        is_lcp(buf1@, buf2@, n as int),
{
    let len = if buf1.len() < buf2.len() {
        buf1.len()
    } else {
        buf2.len()
    };
    let mut i: usize = 0;
    while i < len
        invariant
            i <= len,
            len <= buf1@.len(),
            len <= buf2@.len(),
            len == buf1@.len() || len == buf2@.len(),
            forall|k: int| 0 <= k < i ==> buf1@[k] == buf2@[k],
        decreases len - i,
    {
        if buf1[i] != buf2[i] {
            return i;
        }
        i = i + 1;
    }
    i
}

/// The capacities a `BoundedRawVec` can have: zero, or a power of two from
/// 2 up to `CAPACITY_MAX`.
pub open spec fn is_capacity_class(cap: nat) -> bool {
    cap == 0 || cap == 2 || cap == 4 || cap == 8 || cap == 16 || cap == 32 || cap == 64 || cap
        == 128 || cap == 256
}

/// A growable array of at most `CAPACITY_MAX` elements whose length is
/// tracked by its owner: every operation takes that length.
///
/// Its capacity doubles from 2 whenever it is full; for elements of size
/// zero it is `CAPACITY_MAX` from the start and never binds.
pub struct BoundedRawVec<T> {
    items: Vec<T>,
    cap: usize,
}

impl<T> View for BoundedRawVec<T> {
    type V = Seq<T>;

    closed spec fn view(&self) -> Seq<T> {
        self.items@
    }
}

impl<T> Default for BoundedRawVec<T> {
    fn default() -> (res: Self)
        ensures
            res.wf(),
            res@ == Seq::<T>::empty(),
    {
        BoundedRawVec::new()
    }
}

impl<T> BoundedRawVec<T> {
    pub closed spec fn wf(&self) -> bool {
        &&& is_capacity_class(self.cap as nat)
        &&& (vstd::layout::size_of::<T>() == 0 || self.items@.len() <= self.cap)
    }

    /// What a sound vector holds: its capacity is zero or a power of two
    /// from 2 to `CAPACITY_MAX`, and, but for elements of size zero, its
    /// elements fit in it.
    pub proof fn lemma_wf_facts(&self)
        requires
            self.wf(),
        ensures
            is_capacity_class(self.spec_capacity()),
            vstd::layout::size_of::<T>() != 0 ==> self@.len() <= self.spec_capacity(),
    {
    }

    /// The capacity reserved for elements.
    pub closed spec fn spec_capacity(&self) -> nat {
        if vstd::layout::size_of::<T>() == 0 {
            CAPACITY_MAX as nat
        } else {
            self.cap as nat
        }
    }

    /// The capacity of an empty vector: none, but for elements of size
    /// zero, which take no room.
    pub open spec fn empty_capacity() -> nat {
        if vstd::layout::size_of::<T>() == 0 {
            CAPACITY_MAX as nat
        } else {
            0
        }
    }

    pub fn new() -> (res: Self)
        ensures
            res.wf(),
            res@ == Seq::<T>::empty(),
            res.spec_capacity() == Self::empty_capacity(),
    {
        BoundedRawVec { items: Vec::new(), cap: 0 }
    }

    fn capacity(&self) -> (c: usize)
        ensures
            c == self.spec_capacity(),
    {
        if core::mem::size_of::<T>() == 0 {
            CAPACITY_MAX
        } else {
            self.cap
        }
    }

    pub fn get(&self, i: usize, len: usize) -> (r: Option<&T>)
        requires
            len == self@.len(),
        ensures
            r == (if i < len {
                Some(&self@[i as int])
            } else {
                None::<&T>
            }),
    {
        if i >= len {
            None
        } else {
            Some(&self.items[i])
        }
    }

    /// Mutable access to the element at position `i`.
    pub fn index_mut(&mut self, i: usize) -> (r: &mut T)
        requires
            i < old(self)@.len(),
        ensures
            *r == old(self)@[i as int],
            final(self)@ == old(self)@.update(i as int, *final(r)),
            final(self).spec_capacity() == old(self).spec_capacity(),
            old(self).wf() ==> final(self).wf(),
    {
        &mut self.items[i]
    }

    /// The element at position `i`, for changing, if it exists.
    pub fn get_mut(&mut self, i: usize, len: usize) -> (r: Option<&mut T>)
        requires
            len == old(self)@.len(),
        ensures
            r is Some == (i < len),
            final(self).spec_capacity() == old(self).spec_capacity(),
            old(self).wf() ==> final(self).wf(),
            r is None ==> final(self)@ == old(self)@,
            r is Some ==> *r->0 == old(self)@[i as int] && final(self)@ == old(self)@.update(
                i as int,
                *final(r->0),
            ),
    {
        if i >= len {
            None
        } else {
            Some(self.index_mut(i))
        }
    }

    /// An element of a vector is smaller than the vector.
    pub proof fn lemma_element_decreases(&self, i: int)
        requires
            0 <= i < self@.len(),
        ensures
            decreases_to!(self => self@[i]),
    {
        assert(decreases_to!(self.items => self.items@));
    }

    /// Every element of a vector is smaller than the vector.
    pub proof fn lemma_element_decreases_all(&self)
        ensures
            forall|i: int| 0 <= i < self@.len() ==> decreases_to!(self => self@[i]),
    {
        assert forall|i: int| 0 <= i < self@.len() implies decreases_to!(self => self@[i]) by {
            self.lemma_element_decreases(i);
        }
    }

    /// Inserts `element` at position `i`, shifting the later elements up.
    pub fn insert(&mut self, i: usize, element: T, len: usize)
        requires
            old(self).wf(),
            len == old(self)@.len(),
            i <= len,
            len < CAPACITY_MAX || vstd::layout::size_of::<T>() == 0,
            len < usize::MAX,
        ensures
            final(self).wf(),
            final(self)@ == old(self)@.insert(i as int, element),
            vstd::layout::size_of::<T>() == 0 ==> final(self).spec_capacity()
                == old(self).spec_capacity(),
            vstd::layout::size_of::<T>() != 0 && len == old(self).spec_capacity()
                ==> final(self).spec_capacity() == (if len == 0 {
                2
            } else {
                2 * len
            }),
            vstd::layout::size_of::<T>() != 0 && len < old(self).spec_capacity()
                ==> final(self).spec_capacity() == old(self).spec_capacity(),
    {
        let cur_cap = self.capacity();
        if core::mem::size_of::<T>() != 0 && len == cur_cap {
            let new_cap: usize = if cur_cap == 0 {
                2
            } else {
                cur_cap * 2
            };
            self.cap = new_cap;
        }
        self.items.insert(i, element);
    }

    /// Removes the element at position `i` and returns it, if it exists.
    pub fn remove(&mut self, i: usize, len: usize) -> (r: Option<T>)
        requires
            old(self).wf(),
            len == old(self)@.len(),
        ensures
            final(self).wf(),
            final(self).spec_capacity() == old(self).spec_capacity(),
            i < len ==> r == Some(old(self)@[i as int]) && final(self)@ == old(self)@.remove(
                i as int,
            ),
            i >= len ==> r == None::<T> && final(self)@ == old(self)@,
    {
        if i >= len {
            None
        } else {
            Some(self.items.remove(i))
        }
    }

    /// Drops every element and releases the storage.
    pub fn deallocate(&mut self, len: usize)
        requires
            len == old(self)@.len(),
        ensures
            final(self).wf(),
            final(self)@ == Seq::<T>::empty(),
            final(self).spec_capacity() == Self::empty_capacity(),
    {
        self.items = Vec::new();
        self.cap = 0;
    }

    /// Moves the elements out, leaving this vector empty.
    pub fn take_all(&mut self) -> (res: Self)
        requires
            old(self).wf(),
        ensures
            res.wf(),
            res@ == old(self)@,
            final(self).wf(),
            final(self)@ == Seq::<T>::empty(),
    {
        let mut res = BoundedRawVec::new();
        core::mem::swap(&mut res, self);
        res
    }

    pub fn iter(&self, len: usize) -> (it: Iter<'_, T>)
        requires
            len == self@.len(),
        ensures
            it.wf(),
            it@ == self@,
    {
        Iter { items: self.items.as_slice(), front: 0, back: len }
    }
}

impl<T> BoundedRawVec<T> {
    /// An iterator handing out each element for changing.
    pub fn iter_mut(&mut self, len: usize) -> (it: IterMut<'_, T>)
        requires
            len == old(self)@.len(),
        ensures
            it@ == old(self)@,
    {
        IterMut { items: self.items.as_mut_slice() }
    }
}

/// Mutable iterator over the elements of a `BoundedRawVec`.
pub struct IterMut<'a, T> {
    items: &'a mut [T],
}

impl<'a, T> View for IterMut<'a, T> {
    type V = Seq<T>;

    /// The elements not yet handed out, front first.
    closed spec fn view(&self) -> Seq<T> {
        self.items@
    }
}

impl<'a, T> IterMut<'a, T> {
    /// An iterator over nothing.
    pub fn new_empty() -> (it: Self)
        ensures
            it@ == Seq::<T>::empty(),
    {
        IterMut { items: &mut [] }
    }

    /// Hands out the front element.
    pub fn next(&mut self) -> (r: Option<&'a mut T>)
        ensures
            old(self)@.len() == 0 ==> r is None && final(self)@ == old(self)@,
            old(self)@.len() > 0 ==> r is Some && *r->0 == old(self)@[0] && final(self)@ == old(
                self,
            )@.drop_first(),
    {
        if self.items.len() == 0 {
            return None;
        }
        let mut items: &'a mut [T] = &mut [];
        core::mem::swap(&mut items, &mut self.items);
        let (first, rest) = items.split_at_mut(1);
        self.items = rest;
        first.first_mut()
    }

    /// Hands out the back element.
    pub fn next_back(&mut self) -> (r: Option<&'a mut T>)
        ensures
            old(self)@.len() == 0 ==> r is None && final(self)@ == old(self)@,
            old(self)@.len() > 0 ==> r is Some && *r->0 == old(self)@.last() && final(self)@
                == old(self)@.drop_last(),
    {
        let n = self.items.len();
        if n == 0 {
            return None;
        }
        let mut items: &'a mut [T] = &mut [];
        core::mem::swap(&mut items, &mut self.items);
        let (rest, last) = items.split_at_mut(n - 1);
        self.items = rest;
        last.first_mut()
    }

    /// Number of elements not yet handed out.
    pub fn len(&self) -> (n: usize)
        ensures
            n == self@.len(),
    {
        self.items.len()
    }
}

/// Immutable iterator over the elements of a `BoundedRawVec`.
pub struct Iter<'a, T> {
    items: &'a [T],
    front: usize,
    back: usize,
}

impl<'a, T> Clone for Iter<'a, T> {
    fn clone(&self) -> (res: Self)
        ensures
            res == *self,
    {
        Iter { items: self.items, front: self.front, back: self.back }
    }
}

impl<'a, T> View for Iter<'a, T> {
    type V = Seq<T>;

    /// The elements not yet handed out, front first.
    closed spec fn view(&self) -> Seq<T> {
        self.items@.subrange(self.front as int, self.back as int)
    }
}

impl<'a, T> Iter<'a, T> {
    pub closed spec fn wf(&self) -> bool {
        self.front <= self.back <= self.items@.len()
    }

    /// An iterator over nothing.
    pub fn new_empty() -> (it: Self)
        ensures
            it.wf(),
            it@ == Seq::<T>::empty(),
    {
        let it = Iter { items: &[], front: 0, back: 0 };
        proof {
            assert(it@ =~= Seq::<T>::empty());
        }
        it
    }

    /// Hands out the front element.
    pub fn next(&mut self) -> (r: Option<&'a T>)
        requires
            old(self).wf(),
        ensures
            final(self).wf(),
            old(self)@.len() == 0 ==> r == None::<&T> && final(self)@ == old(self)@,
            old(self)@.len() > 0 ==> r == Some(&old(self)@[0]) && final(self)@ == old(
                self,
            )@.drop_first(),
    {
        if self.front == self.back {
            None
        } else {
            let res = &self.items[self.front];
            self.front = self.front + 1;
            proof {
                assert(self@ =~= old(self)@.drop_first());
            }
            Some(res)
        }
    }

    /// Hands out the back element.
    pub fn next_back(&mut self) -> (r: Option<&'a T>)
        requires
            old(self).wf(),
        ensures
            final(self).wf(),
            old(self)@.len() == 0 ==> r == None::<&T> && final(self)@ == old(self)@,
            old(self)@.len() > 0 ==> r == Some(&old(self)@.last()) && final(self)@ == old(
                self,
            )@.drop_last(),
    {
        if self.front == self.back {
            None
        } else {
            self.back = self.back - 1;
            proof {
                assert(self@ =~= old(self)@.drop_last());
            }
            Some(&self.items[self.back])
        }
    }

    /// Number of elements not yet handed out.
    pub fn len(&self) -> (n: usize)
        requires
            self.wf(),
        ensures
            n == self@.len(),
    {
        self.back - self.front
    }
}

} // verus!

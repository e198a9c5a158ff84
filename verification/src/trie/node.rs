use super::bitmap::{
    bits_below, bm_bit, bm_clear, bm_rank, bm_set, count_ones, lemma_bits_below_bound,
    lemma_bits_below_mask, lemma_bm_set_clear_bits, lemma_byte_pos, lemma_empty_bitmap,
    lemma_mask_test, lemma_rank_after_clear, lemma_rank_after_set, lemma_rank_bound,
    lemma_rank_by_words, lemma_rank_injective, lemma_rank_monotone, low_mask, words_before,
};
use super::prefix::Prefix;
use super::util::{BoundedRawVec, Iter, IterMut};
use vstd::prelude::*;

verus! {

/// `key` begins with `p`.
pub open spec fn starts_with(key: Seq<u8>, p: Seq<u8>) -> bool {
    p.len() <= key.len() && key.take(p.len() as int) == p
}

/// Fields shared by both kinds of node.
struct Header<T> {
    prefix: Prefix,
    val: Option<T>,
}

/// A node without children storage.
pub struct LeafNode<T> {
    header: Header<T>,
}

/// A node with children storage: the children are kept in the order of
/// their first byte, and the bitmap records which first bytes are present.
pub struct InternalNode<T> {
    header: Header<T>,
    bitmap: [u64; 4],
    children: BoundedRawVec<Node<T>>,
}

impl<T> InternalNode<T> {
    /// The bitmap of the first bytes of the children.
    pub closed spec fn spec_bitmap(&self) -> Seq<u64> {
        self.bitmap@
    }

    /// Returns the number of bits set in the bitmap.
    pub fn len_children(&self) -> (n: usize)
        ensures
            n == bm_rank(self.spec_bitmap(), 256),
    {
        let bitmap = self.bitmap;
        proof {
            lemma_rank_by_words(bitmap@, 3, 64);
            lemma_bits_below_bound(bitmap@[0], 64);
            lemma_bits_below_bound(bitmap@[1], 64);
            lemma_bits_below_bound(bitmap@[2], 64);
            lemma_bits_below_bound(bitmap@[3], 64);
            assert(words_before(bitmap@, 3) == bits_below(bitmap@[0], 64) + bits_below(
                bitmap@[1],
                64,
            ) + bits_below(bitmap@[2], 64)) by {
                assert(words_before(bitmap@, 0) == 0);
                assert(words_before(bitmap@, 1) == bits_below(bitmap@[0], 64));
                assert(words_before(bitmap@, 2) == words_before(bitmap@, 1) + bits_below(
                    bitmap@[1],
                    64,
                ));
            }
        }
        (count_ones(bitmap[0]) + count_ones(bitmap[1]) + count_ones(bitmap[2]) + count_ones(
            bitmap[3],
        )) as usize
    }
}

/// A single radix tree node.
pub enum Node<T> {
    Leaf(LeafNode<T>),
    Internal(InternalNode<T>),
}

/// The location of the bit representing a child: a word of the bitmap and a
/// bit inside it.
#[derive(Clone, Copy)]
pub struct ChildPos {
    pub idx: usize,
    pub bit: u8,
}

impl ChildPos {
    /// The position lies inside the bitmap.
    pub open spec fn valid(self) -> bool {
        self.idx < 4 && self.bit < 64
    }

    /// The byte the position stands for.
    pub open spec fn byte(self) -> int {
        64 * self.idx + self.bit
    }
}

impl<T> Node<T> {
    pub closed spec fn spec_prefix(self) -> Seq<u8> {
        match self {
            Node::Leaf(l) => l.header.prefix@,
            Node::Internal(n) => n.header.prefix@,
        }
    }

    pub closed spec fn spec_val(self) -> Option<T> {
        match self {
            Node::Leaf(l) => l.header.val,
            Node::Internal(n) => n.header.val,
        }
    }

    /// The children, in order.
    pub closed spec fn kids(self) -> Seq<Node<T>> {
        match self {
            Node::Leaf(_) => Seq::empty(),
            Node::Internal(n) => n.children@,
        }
    }

    pub closed spec fn spec_bitmap(self) -> Seq<u64> {
        match self {
            Node::Leaf(_) => seq![0u64, 0u64, 0u64, 0u64],
            Node::Internal(n) => n.bitmap@,
        }
    }

    pub open spec fn spec_is_leaf(self) -> bool {
        self is Leaf
    }

    /// The children storage is sound.
    pub closed spec fn storage_ok(self) -> bool {
        match self {
            Node::Leaf(_) => true,
            Node::Internal(n) => n.children.wf(),
        }
    }

    /// The first byte of the node's prefix.
    pub open spec fn first(self) -> int {
        self.spec_prefix()[0] as int
    }

    /// The node sits at position `k` among the children of a node with
    /// bitmap `bm`.
    pub open spec fn child_ok(self, bm: Seq<u64>, k: int) -> bool {
        &&& self.spec_prefix().len() > 0
        &&& bm_bit(bm, self.first())
        &&& bm_rank(bm, self.first()) == k
    }

    /// The node's own structure, children excluded.
    pub open spec fn local_wf(self) -> bool {
        &&& self.storage_ok()
        &&& self.spec_bitmap().len() == 4
        &&& self.kids().len() == bm_rank(self.spec_bitmap(), 256)
        &&& forall|k: int|
            0 <= k < self.kids().len() ==> #[trigger] self.kids()[k].child_ok(
                self.spec_bitmap(),
                k,
            )
    }

    /// The structure of the whole subtree.
    pub closed spec fn wf(self) -> bool
        decreases self,
    {
        &&& self.local_wf()
        &&& match self {
            Node::Leaf(_) => true,
            Node::Internal(n) => {
                proof {
                    n.children.lemma_element_decreases_all();
                }
                forall|k: int| 0 <= k < n.children@.len() ==> (#[trigger] n.children@[k]).wf()
            },
        }
    }

    /// The value stored under `key`, the key being read from the start of
    /// this node's prefix.
    pub closed spec fn lookup(self, key: Seq<u8>) -> Option<T>
        decreases self,
    {
        let p = self.spec_prefix();
        if starts_with(key, p) {
            if key.len() == p.len() {
                self.spec_val()
            } else {
                match self {
                    Node::Leaf(_) => None,
                    Node::Internal(n) => {
                        let b = key[p.len() as int] as int;
                        let r = bm_rank(n.bitmap@, b) as int;
                        if bm_bit(n.bitmap@, b) && r < n.children@.len() {
                            proof {
                                n.children.lemma_element_decreases_all();
                            }
                            n.children@[r].lookup(key.skip(p.len() as int))
                        } else {
                            None
                        }
                    },
                }
            }
        } else {
            None
        }
    }

    /// Two nodes agree on everything but their children.
    pub open spec fn shell_eq(self, other: Self) -> bool {
        &&& self.spec_prefix() == other.spec_prefix()
        &&& self.spec_val() == other.spec_val()
        &&& self.spec_bitmap() == other.spec_bitmap()
        &&& self.spec_is_leaf() == other.spec_is_leaf()
        &&& self.storage_ok() == other.storage_ok()
    }

    /// Each child is smaller than its parent.
    pub proof fn lemma_kids_decrease(self)
        ensures
            forall|i: int| 0 <= i < self.kids().len() ==> decreases_to!(self => self.kids()[i]),
    {
        if let Node::Internal(n) = self {
            n.children.lemma_element_decreases_all();
        }
    }

    pub proof fn lemma_wf_unfold(self)
        requires
            self.wf(),
        ensures
            self.local_wf(),
            forall|k: int| 0 <= k < self.kids().len() ==> (#[trigger] self.kids()[k]).wf(),
    {
    }

    pub proof fn lemma_wf_fold(self)
        requires
            self.local_wf(),
            forall|k: int| 0 <= k < self.kids().len() ==> (#[trigger] self.kids()[k]).wf(),
        ensures
            self.wf(),
    {
    }

    /// A leaf has no children and an empty bitmap.
    pub proof fn lemma_leaf_local_wf(self)
        requires
            self.spec_is_leaf(),
        ensures
            self.local_wf(),
            self.kids().len() == 0,
            self.spec_bitmap() == seq![0u64, 0u64, 0u64, 0u64],
            forall|x: int| 0 <= x < 256 ==> !bm_bit(#[trigger] self.spec_bitmap(), x),
    {
        lemma_empty_bitmap(256);
        assert forall|x: int| 0 <= x < 256 implies !bm_bit(#[trigger] self.spec_bitmap(), x) by {
            lemma_empty_bitmap(x);
        }
    }

    /// Unfolds one step of `lookup`.
    pub proof fn lemma_lookup_unfold(self, key: Seq<u8>)
        ensures
            !starts_with(key, self.spec_prefix()) ==> self.lookup(key) is None,
            starts_with(key, self.spec_prefix()) && key.len() == self.spec_prefix().len()
                ==> self.lookup(key) == self.spec_val(),
            starts_with(key, self.spec_prefix()) && key.len() > self.spec_prefix().len() ==> {
                let b = key[self.spec_prefix().len() as int] as int;
                let r = bm_rank(self.spec_bitmap(), b) as int;
                self.lookup(key) == if bm_bit(self.spec_bitmap(), b) && r < self.kids().len() {
                    self.kids()[r].lookup(key.skip(self.spec_prefix().len() as int))
                } else {
                    None
                }
            },
    {
        if self is Leaf {
            self.lemma_leaf_local_wf();
            let p = self.spec_prefix();
            if starts_with(key, p) && key.len() > p.len() {
                let b = key[p.len() as int] as int;
                lemma_empty_bitmap(b);
                lemma_empty_bitmap(256);
            }
        }
    }

    /// In a sound node, the child reached through a set byte starts with
    /// that byte.
    pub proof fn lemma_child_at(self, b: int)
        requires
            self.local_wf(),
            0 <= b < 256,
            bm_bit(self.spec_bitmap(), b),
        ensures
            bm_rank(self.spec_bitmap(), b) < self.kids().len(),
            self.kids()[bm_rank(self.spec_bitmap(), b) as int].spec_prefix().len() > 0,
            self.kids()[bm_rank(self.spec_bitmap(), b) as int].first() == b,
    {
        let bm = self.spec_bitmap();
        lemma_rank_monotone(bm, b, 256);
        let r = bm_rank(bm, b) as int;
        assert(self.kids()[r].child_ok(bm, r));
        lemma_rank_injective(bm, self.kids()[r].first(), b);
    }

    /// In a sound node, a child's first byte is set in the bitmap and leads
    /// back to that child.
    pub proof fn lemma_child_first(self, k: int)
        requires
            self.local_wf(),
            0 <= k < self.kids().len(),
        ensures
            bm_bit(self.spec_bitmap(), self.kids()[k].first()),
            bm_rank(self.spec_bitmap(), self.kids()[k].first()) == k,
            0 <= self.kids()[k].first() < 256,
            self.kids()[k].spec_prefix().len() > 0,
    {
        assert(self.kids()[k].child_ok(self.spec_bitmap(), k));
    }

    /// Creates a leaf node with the given prefix and no value.
    pub fn new(prefix: &[u8]) -> (res: Node<T>)
        ensures
            res.wf(),
            res.spec_prefix() == prefix@,
            res.spec_val() is None,
            res.kids() == Seq::<Node<T>>::empty(),
            res.spec_is_leaf(),
    {
        Self::new_leaf(prefix, None)
    }

    /// Creates a leaf node.
    pub fn new_leaf(prefix: &[u8], val: Option<T>) -> (res: Self)
        ensures
            res.wf(),
            res.spec_prefix() == prefix@,
            res.spec_val() == val,
            res.kids() == Seq::<Node<T>>::empty(),
            res.spec_is_leaf(),
    {
        let res = Node::Leaf(LeafNode { header: Header { prefix: Prefix::new(prefix), val } });
        proof {
            res.lemma_leaf_local_wf();
        }
        res
    }

    /// Creates an internal node without children.
    pub fn new_internal(prefix: &[u8], val: Option<T>) -> (res: Self)
        ensures
            res.wf(),
            res.spec_prefix() == prefix@,
            res.spec_val() == val,
            res.kids() == Seq::<Node<T>>::empty(),
            !res.spec_is_leaf(),
            res.spec_bitmap() == seq![0u64, 0u64, 0u64, 0u64],
    {
        let res = Node::Internal(
            InternalNode {
                header: Header { prefix: Prefix::new(prefix), val },
                bitmap: [0u64; 4],
                children: BoundedRawVec::new(),
            },
        );
        proof {
            assert(res.spec_bitmap() =~= seq![0u64, 0u64, 0u64, 0u64]);
            lemma_empty_bitmap(256);
        }
        res
    }

    pub fn is_leaf(&self) -> (r: bool)
        ensures
            r == self.spec_is_leaf(),
    {
        match self {
            Node::Leaf(_) => true,
            Node::Internal(_) => false,
        }
    }

    pub fn has_val(&self) -> (r: bool)
        ensures
            r == self.spec_val() is Some,
    {
        match self {
            Node::Leaf(l) => l.header.val.is_some(),
            Node::Internal(n) => n.header.val.is_some(),
        }
    }

    pub fn prefix(&self) -> (p: &Prefix)
        ensures
            p@ == self.spec_prefix(),
    {
        match self {
            Node::Leaf(l) => &l.header.prefix,
            Node::Internal(n) => &n.header.prefix,
        }
    }

    /// Replaces the prefix.
    pub fn set_prefix(&mut self, prefix: Prefix)
        ensures
            final(self).spec_prefix() == prefix@,
            final(self).spec_val() == old(self).spec_val(),
            final(self).spec_bitmap() == old(self).spec_bitmap(),
            final(self).spec_is_leaf() == old(self).spec_is_leaf(),
            final(self).storage_ok() == old(self).storage_ok(),
            final(self).kids() == old(self).kids(),
    {
        match self {
            Node::Leaf(l) => {
                l.header.prefix = prefix;
            },
            Node::Internal(n) => {
                n.header.prefix = prefix;
            },
        }
    }

    /// Access the value if it exists.
    pub fn val(&self) -> (r: Option<&T>)
        ensures
            r is Some == self.spec_val() is Some,
            r matches Some(v) ==> *v == self.spec_val()->0,
    {
        match self {
            Node::Leaf(l) => l.header.val.as_ref(),
            Node::Internal(n) => n.header.val.as_ref(),
        }
    }

    /// Returns a mutable reference to the value.
    pub fn val_mut(&mut self) -> (r: Option<&mut T>)
        ensures
            r is Some == old(self).spec_val() is Some,
            r is None ==> *final(self) == *old(self),
            r is Some ==> *r->0 == old(self).spec_val()->0 && final(self).spec_val() == Some(
                *final(r->0),
            ) && final(self).spec_prefix() == old(self).spec_prefix() && final(self).spec_bitmap() == old(self).spec_bitmap() && final(self).spec_is_leaf() == old(self).spec_is_leaf() && final(self).storage_ok() == old(self).storage_ok() && final(self).kids() == old(self).kids(),
    {
        match self {
            Node::Leaf(l) => match &mut l.header.val {
                Some(v) => Some(v),
                None => None,
            },
            Node::Internal(n) => match &mut n.header.val {
                Some(v) => Some(v),
                None => None,
            },
        }
    }

    /// Returns the owned value, leaving none.
    pub fn take_val(&mut self) -> (r: Option<T>)
        ensures
            r == old(self).spec_val(),
            final(self).spec_val() is None,
            final(self).spec_prefix() == old(self).spec_prefix(),
            final(self).spec_bitmap() == old(self).spec_bitmap(),
            final(self).spec_is_leaf() == old(self).spec_is_leaf(),
            final(self).storage_ok() == old(self).storage_ok(),
            final(self).kids() == old(self).kids(),
    {
        match self {
            Node::Leaf(l) => l.header.val.take(),
            Node::Internal(n) => n.header.val.take(),
        }
    }

    /// Sets the value for this node, dropping the previous one.
    pub fn set_val(&mut self, val: T)
        ensures
            final(self).spec_val() == Some(val),
            final(self).spec_prefix() == old(self).spec_prefix(),
            final(self).spec_bitmap() == old(self).spec_bitmap(),
            final(self).spec_is_leaf() == old(self).spec_is_leaf(),
            final(self).storage_ok() == old(self).storage_ok(),
            final(self).kids() == old(self).kids(),
    {
        match self {
            Node::Leaf(l) => {
                l.header.val = Some(val);
            },
            Node::Internal(n) => {
                n.header.val = Some(val);
            },
        }
    }

    /// Returns the number of children the node has.
    pub fn len_children(&self) -> (n: usize)
        requires
            self.local_wf(),
        ensures
            n == self.kids().len(),
    {
        match self {
            Node::Leaf(_) => 0,
            Node::Internal(n) => n.len_children(),
        }
    }

    /// Whether a child starts with the byte of `pos`.
    pub fn child_exists(&self, pos: ChildPos) -> (r: bool)
        requires
            self.local_wf(),
            pos.valid(),
        ensures
            r == bm_bit(self.spec_bitmap(), pos.byte()),
    {
        proof {
            assert((pos.byte()) / 64 == pos.idx as int && pos.byte() % 64 == pos.bit as int) by {
                lemma_pos_div_mod(pos);
            }
        }
        match self {
            Node::Leaf(_) => {
                proof {
                    self.lemma_leaf_local_wf();
                }
                false
            },
            Node::Internal(n) => {
                proof {
                    lemma_mask_test(n.bitmap@[pos.idx as int], pos.bit as u64);
                }
                n.bitmap[pos.idx] & (1u64 << pos.bit) != 0
            },
        }
    }

    /// Given a byte, it returns its position among the children.
    pub fn child_pos_from_byte(byte: u8) -> (pos: ChildPos)
        ensures
            pos.valid(),
            pos.byte() == byte as int,
    {
        proof {
            lemma_byte_pos(byte);
        }
        ChildPos { idx: (byte >> 6u8) as usize, bit: byte & 63u8 }
    }

    /// Given a child index, it returns its position in the bitmap.
    pub fn child_pos_from_idx(&self, idx: usize) -> (pos: ChildPos)
        requires
            self.local_wf(),
            idx < self.kids().len(),
        ensures
            pos.valid(),
            pos.byte() == self.kids()[idx as int].first(),
    {
        proof {
            self.lemma_child_first(idx as int);
        }
        let child = self.get_child_by_idx(idx).unwrap();
        let p = child.prefix().as_ref();
        Self::child_pos_from_byte(p[0])
    }

    /// Returns the index among the children of the child starting with the
    /// byte of `pos`, or where such a child would go.
    pub fn child_idx_from_pos(&self, pos: ChildPos) -> (idx: usize)
        requires
            self.local_wf(),
            pos.valid(),
        ensures
            idx == bm_rank(self.spec_bitmap(), pos.byte()),
    {
        match self {
            Node::Leaf(_) => {
                proof {
                    lemma_empty_bitmap(pos.byte());
                }
                0
            },
            Node::Internal(n) => {
                let bitmap = n.bitmap;
                let safe_idx = pos.idx;
                let ghost bm = bitmap@;
                proof {
                    lemma_rank_by_words(bm, safe_idx as int, pos.bit as int);
                    lemma_bits_below_mask(bm[safe_idx as int], pos.bit as u64, 64);
                    lemma_bits_below_bound(bm[0], 64);
                    lemma_bits_below_bound(bm[1], 64);
                    lemma_bits_below_bound(bm[2], 64);
                    assert(words_before(bm, 0) == 0);
                    assert(words_before(bm, 1) == bits_below(bm[0], 64));
                    let bt = pos.bit as u64;
                    assert(bt < 64 ==> (1u64 << bt) >= 1u64) by (bit_vector);
                    assert(words_before(bm, 2) == words_before(bm, 1) + bits_below(bm[1], 64));
                    assert(words_before(bm, 3) == words_before(bm, 2) + bits_below(bm[2], 64));
                }
                let mut before: u32 = 0;
                if safe_idx > 0 {
                    before = before + count_ones(bitmap[0]);
                }
                if safe_idx > 1 {
                    before = before + count_ones(bitmap[1]);
                }
                if safe_idx > 2 {
                    before = before + count_ones(bitmap[2]);
                }
                let mask = (1u64 << pos.bit) - 1;
                proof {
                    assert(mask == low_mask(pos.bit as u64));
                }
                let current = count_ones(bitmap[safe_idx] & mask);
                proof {
                    lemma_bits_below_bound(bitmap[safe_idx as int] & mask, 64);
                }
                (before + current) as usize
            },
        }
    }

    /// Returns the child at the given index.
    pub fn get_child_by_idx(&self, idx: usize) -> (r: Option<&Node<T>>)
        requires
            self.local_wf(),
        ensures
            r == (if idx < self.kids().len() {
                Some(&self.kids()[idx as int])
            } else {
                None::<&Node<T>>
            }),
    {
        match self {
            Node::Leaf(_) => None,
            Node::Internal(n) => {
                let len = n.len_children();
                n.children.get(idx, len)
            },
        }
    }

    /// Returns the child starting with the byte of `pos`.
    pub fn get_child_by_pos(&self, pos: ChildPos) -> (r: Option<&Node<T>>)
        requires
            self.local_wf(),
            pos.valid(),
        ensures
            r == (if bm_rank(self.spec_bitmap(), pos.byte()) < self.kids().len() {
                Some(&self.kids()[bm_rank(self.spec_bitmap(), pos.byte()) as int])
            } else {
                None::<&Node<T>>
            }),
    {
        let idx = self.child_idx_from_pos(pos);
        self.get_child_by_idx(idx)
    }

    /// Returns a mutable reference to the child at the given index, which
    /// must be in bounds.
    pub fn get_mut_child_by_idx(&mut self, idx: usize) -> (r: Option<&mut Node<T>>)
        requires
            old(self).local_wf(),
            idx < old(self).kids().len(),
        ensures
            r is Some == (idx < old(self).kids().len()),
            r is None ==> *final(self) == *old(self),
            r is Some ==> *r->0 == old(self).kids()[idx as int] && final(self).shell_eq(*old(self))
                && final(self).kids() == old(self).kids().update(idx as int, *final(r->0)),
    {
        match self {
            Node::Leaf(_) => None,
            Node::Internal(n) => {
                let len = n.len_children();
                if idx >= len {
                    None
                } else {
                    Some(n.children.index_mut(idx))
                }
            },
        }
    }

    /// Returns a mutable reference to the child starting with the byte of
    /// `pos`. The position must be of an existing child, or at least rank
    /// below the number of children.
    pub fn get_mut_child_by_pos(&mut self, pos: ChildPos) -> (r: Option<&mut Node<T>>)
        requires
            old(self).local_wf(),
            pos.valid(),
            bm_rank(old(self).spec_bitmap(), pos.byte()) < old(self).kids().len(),
        ensures
            r is Some == (bm_rank(old(self).spec_bitmap(), pos.byte()) < old(self).kids().len()),
            r is None ==> *final(self) == *old(self),
            r is Some ==> *r->0 == old(self).kids()[bm_rank(
                old(self).spec_bitmap(),
                pos.byte(),
            ) as int] && final(self).shell_eq(*old(self)) && final(self).kids() == old(self).kids().update(bm_rank(old(self).spec_bitmap(), pos.byte()) as int, *final(r->0)),
    {
        let idx = self.child_idx_from_pos(pos);
        self.get_mut_child_by_idx(idx)
    }

    /// Upgrades a leaf node to an internal node without children.
    pub fn upgrade_to_internal(&mut self)
        requires
            old(self).local_wf(),
        ensures
            !final(self).spec_is_leaf(),
            final(self).local_wf(),
            final(self).spec_prefix() == old(self).spec_prefix(),
            final(self).spec_val() == old(self).spec_val(),
            final(self).kids() == old(self).kids(),
            final(self).spec_bitmap() == old(self).spec_bitmap(),
    {
        if let Node::Leaf(_) = self {
            let mut tmp = Node::Internal(
                InternalNode {
                    header: Header { prefix: Prefix::new(&[]), val: None },
                    bitmap: [0u64; 4],
                    children: BoundedRawVec::new(),
                },
            );
            core::mem::swap(&mut tmp, self);
            if let Node::Leaf(leaf) = tmp {
                *self = Node::Internal(
                    InternalNode {
                        header: leaf.header,
                        bitmap: [0u64; 4],
                        children: BoundedRawVec::new(),
                    },
                );
                proof {
                    assert(self.spec_bitmap() =~= seq![0u64, 0u64, 0u64, 0u64]);
                    lemma_empty_bitmap(256);
                }
            }
        }
    }

    /// Stores the given node as a child of this node.
    pub fn insert_child(&mut self, pos: ChildPos, child: Node<T>)
        requires
            old(self).local_wf(),
            pos.valid(),
            !bm_bit(old(self).spec_bitmap(), pos.byte()),
            child.spec_prefix().len() > 0,
            child.first() == pos.byte(),
        ensures
            final(self).local_wf(),
            !final(self).spec_is_leaf(),
            final(self).spec_prefix() == old(self).spec_prefix(),
            final(self).spec_val() == old(self).spec_val(),
            final(self).spec_bitmap() == bm_set(old(self).spec_bitmap(), pos.byte()),
            final(self).kids() == old(self).kids().insert(
                bm_rank(old(self).spec_bitmap(), pos.byte()) as int,
                child,
            ),
    {
        let ghost old_self = *self;
        let ghost bm = old_self.spec_bitmap();
        let ghost b = pos.byte();
        if self.is_leaf() {
            self.upgrade_to_internal();
        }
        let idx = self.child_idx_from_pos(pos);
        let len = self.len_children();
        proof {
            lemma_pos_div_mod(pos);
            lemma_rank_monotone(bm, b, 256);
            lemma_rank_bound(bm, b);
            lemma_rank_after_set(bm, b, 256);
            lemma_rank_bound(bm_set(bm, b), 256);
        }
        match self {
            Node::Internal(n) => {
                n.children.insert(idx, child, len);
                let word = n.bitmap[pos.idx] | (1u64 << pos.bit);
                n.bitmap[pos.idx] = word;
            },
            Node::Leaf(_) => {},
        }
        proof {
            let nbm = self.spec_bitmap();
            assert(nbm =~= bm_set(bm, b));
            let kids = self.kids();
            let r = bm_rank(bm, b) as int;
            lemma_rank_after_set(bm, b, 256);
            assert forall|k: int| 0 <= k < kids.len() implies #[trigger] kids[k].child_ok(nbm, k) by {
                if k < r {
                    old_self.lemma_child_first(k);
                    let f = kids[k].first();
                    if f >= b {
                        lemma_rank_monotone(bm, b, f);
                    }
                    lemma_bm_set_clear_bits(bm, b, f);
                    lemma_rank_after_set(bm, b, f);
                } else if k == r {
                    lemma_bm_set_clear_bits(bm, b, b);
                    lemma_rank_after_set(bm, b, b);
                } else {
                    old_self.lemma_child_first(k - 1);
                    let f = kids[k].first();
                    assert(kids[k] == old_self.kids()[k - 1]);
                    if f <= b {
                        lemma_rank_monotone(bm, f, b);
                    }
                    lemma_bm_set_clear_bits(bm, b, f);
                    lemma_rank_after_set(bm, b, f);
                }
            }
        }
    }

    /// Removes the child starting with the byte of `pos`, and returns it.
    pub fn remove_child(&mut self, pos: ChildPos) -> (r: Option<Node<T>>)
        requires
            old(self).local_wf(),
            pos.valid(),
            bm_bit(old(self).spec_bitmap(), pos.byte()),
        ensures
            final(self).local_wf(),
            r == Some(old(self).kids()[bm_rank(old(self).spec_bitmap(), pos.byte()) as int]),
            final(self).spec_is_leaf() == old(self).spec_is_leaf(),
            final(self).spec_prefix() == old(self).spec_prefix(),
            final(self).spec_val() == old(self).spec_val(),
            final(self).spec_bitmap() == bm_clear(old(self).spec_bitmap(), pos.byte()),
            final(self).kids() == old(self).kids().remove(
                bm_rank(old(self).spec_bitmap(), pos.byte()) as int,
            ),
    {
        let ghost old_self = *self;
        let ghost bm = old_self.spec_bitmap();
        let ghost b = pos.byte();
        proof {
            lemma_pos_div_mod(pos);
            old_self.lemma_child_at(b);
            if old_self.spec_is_leaf() {
                old_self.lemma_leaf_local_wf();
            }
        }
        let idx = self.child_idx_from_pos(pos);
        let len = self.len_children();
        let res = match self {
            Node::Internal(n) => {
                let res = n.children.remove(idx, len);
                let word = n.bitmap[pos.idx] & !(1u64 << pos.bit);
                n.bitmap[pos.idx] = word;
                res
            },
            Node::Leaf(_) => None,
        };
        proof {
            let nbm = self.spec_bitmap();
            assert(nbm =~= bm_clear(bm, b));
            let kids = self.kids();
            let r = bm_rank(bm, b) as int;
            lemma_rank_after_clear(bm, b, 256);
            assert forall|k: int| 0 <= k < kids.len() implies #[trigger] kids[k].child_ok(nbm, k) by {
                if k < r {
                    old_self.lemma_child_first(k);
                    let f = kids[k].first();
                    if f >= b {
                        lemma_rank_monotone(bm, b, f);
                    }
                    lemma_bm_set_clear_bits(bm, b, f);
                    lemma_rank_after_clear(bm, b, f);
                } else {
                    old_self.lemma_child_first(k + 1);
                    let f = kids[k].first();
                    assert(kids[k] == old_self.kids()[k + 1]);
                    if f <= b {
                        lemma_rank_monotone(bm, f, b);
                        if f == b {
                            lemma_rank_injective(bm, f, b);
                        }
                    }
                    lemma_bm_set_clear_bits(bm, b, f);
                    lemma_rank_after_clear(bm, b, f);
                }
            }
        }
        res
    }

    /// Gives its children to `other`, which becomes an internal node;
    /// this node keeps no children. A leaf gives nothing.
    pub fn transfer_children(&mut self, other: &mut Node<T>)
        requires
            old(self).local_wf(),
            old(other).local_wf(),
        ensures
            old(self).spec_is_leaf() ==> *final(self) == *old(self) && *final(other) == *old(other),
            !old(self).spec_is_leaf() ==> {
                &&& final(other).local_wf()
                &&& !final(other).spec_is_leaf()
                &&& final(other).spec_prefix() == old(other).spec_prefix()
                &&& final(other).spec_val() == old(other).spec_val()
                &&& final(other).kids() == old(self).kids()
                &&& final(other).spec_bitmap() == old(self).spec_bitmap()
                &&& final(self).local_wf()
                &&& !final(self).spec_is_leaf()
                &&& final(self).spec_prefix() == old(self).spec_prefix()
                &&& final(self).spec_val() == old(self).spec_val()
                &&& final(self).kids() == Seq::<Node<T>>::empty()
            },
    {
        if let Node::Internal(this) = self {
            other.upgrade_to_internal();
            if let Node::Internal(that) = other {
                that.children = this.children.take_all();
                that.bitmap = this.bitmap;
                this.bitmap = [0u64; 4];
                proof {
                    assert(this.bitmap@ =~= seq![0u64, 0u64, 0u64, 0u64]);
                    lemma_empty_bitmap(256);
                }
            }
        }
    }

    /// Iterates over the children in order.
    pub fn iter_children(&self) -> (it: Iter<'_, Node<T>>)
        requires
            self.local_wf(),
        ensures
            it.wf(),
            it@ == self.kids(),
    {
        match self {
            Node::Leaf(_) => Iter::new_empty(),
            Node::Internal(n) => {
                let len = n.len_children();
                n.children.iter(len)
            },
        }
    }

    /// Iterates over the children in order, handing each out for
    /// changing.
    pub fn iter_mut_children(&mut self) -> (it: IterMut<'_, Node<T>>)
        requires
            old(self).local_wf(),
        ensures
            it@ == old(self).kids(),
    {
        match self {
            Node::Leaf(_) => IterMut::new_empty(),
            Node::Internal(n) => {
                let len = n.len_children();
                n.children.iter_mut(len)
            },
        }
    }
}

proof fn lemma_pos_div_mod(pos: ChildPos)
    requires
        pos.valid(),
    ensures
        pos.byte() / 64 == pos.idx as int,
        pos.byte() % 64 == pos.bit as int,
        0 <= pos.byte() < 256,
{
    assert(pos.byte() / 64 == pos.idx as int && pos.byte() % 64 == pos.bit as int) by (
    nonlinear_arith)
        requires
            pos.idx < 4,
            pos.bit < 64,
            pos.byte() == 64 * pos.idx + pos.bit,
    ;
}

} // verus!

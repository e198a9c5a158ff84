//! A compressed radix trie keyed by byte strings.
pub mod bitmap;
pub mod lemmas;
pub mod node;
pub mod prefix;
pub mod util;
pub mod walk;

use self::bitmap::bm_bit;
use self::lemmas::{
    lemma_at_prefix, lemma_childless, lemma_dead, lemma_insert_kid, lemma_merge,
    lemma_off_prefix, lemma_remove_dead_kid, lemma_replace_kid, lemma_route_none,
    lemma_route_some, lemma_split, lemma_val_only,
};
use self::node::{starts_with, ChildPos, Node};
use self::prefix::{concat_slices, slice_views, Prefix};
use self::util::{is_lcp, lcp};
use self::walk::{
    distinct_keys, lemma_dfs_exact, lemma_dfs_shift, lemma_dfs_sorted, lemma_lex_prefix,
    lemma_prefix_node_lookup, lemma_shifted_distinct, lemma_shifted_sorted, lex_lt, shifted,
    sorted_keys, walk,
};
use crate::index::{ix, nx};
use vstd::prelude::*;

verus! {

/// A map from non-empty byte strings to values, stored as a compressed
/// radix trie.
pub struct TrieMap<T> {
    root: Option<Node<T>>,
}

proof fn lemma_skip_join(key: Seq<u8>, p: Seq<u8>, data: Seq<u8>, l: int)
    requires
        starts_with(key, p),
        0 <= l == p.len() <= data.len(),
        data.take(l) == p,
    ensures
        (key.skip(l) == data.skip(l)) == (key == data),
{
    if key.skip(l) == data.skip(l) {
        assert(key.skip(l).len() == key.len() - l);
        assert(key.len() == data.len());
        assert(key =~= data) by {
            assert forall|i: int| 0 <= i < key.len() implies key[i] == data[i] by {
                if i < l {
                    assert(key.take(l)[i] == p[i]);
                    assert(data.take(l)[i] == p[i]);
                } else {
                    assert(key.skip(l)[i - l] == data.skip(l)[i - l]);
                }
            }
        }
    }
}

impl<T> Default for TrieMap<T> {
    fn default() -> (res: Self)
        ensures
            res.wf(),
            res@ == Map::<Seq<u8>, T>::empty(),
    {
        TrieMap::new()
    }
}

impl<T> TrieMap<T> {
    pub closed spec fn wf(self) -> bool {
        &&& match self.root {
            Some(r) => r.wf(),
            None => true,
        }
        &&& root_lookup(self.root, Seq::empty()) is None
    }

    /// The value stored under `key`; the empty key holds nothing.
    pub closed spec fn spec_get(self, key: Seq<u8>) -> Option<T> {
        if key.len() == 0 {
            None
        } else {
            match self.root {
                Some(r) => r.lookup(key),
                None => None,
            }
        }
    }

    /// The trie holds no node at all.
    pub closed spec fn spec_is_empty(self) -> bool {
        self.root is None
    }

    /// Every node of the trie holds a value: no branching without a key of
    /// its own, and nothing left over from removals.
    pub closed spec fn spec_valued(self) -> bool {
        self.root matches Some(r) ==> all_valued(r)
    }

    /// Every node of the trie holds a value or has at least two children:
    /// nothing is left over that holds no key.
    pub closed spec fn spec_compact(self) -> bool {
        self.root matches Some(r) ==> compact(r)
    }

    /// In a compact trie, holding no node and holding no key are the same:
    /// the trie is empty exactly when no key is stored. `new`, `clear` and
    /// `insert` keep a trie compact, as do `remove_prefix` and `remove` of a
    /// key that no stored key goes on past.
    pub proof fn lemma_compact_empty_iff(self)
        requires
            self.wf(),
            self.spec_compact(),
        ensures
            self.spec_is_empty() <==> self@ == Map::<Seq<u8>, T>::empty(),
    {
        if self.root is Some {
            let rt = self.root->0;
            lemma_compact_holds(rt);
            let s2 = choose|s2: Seq<u8>| (#[trigger] rt.lookup(rt.spec_prefix() + s2)) is Some;
            let key = rt.spec_prefix() + s2;
            if key.len() == 0 {
                assert(key =~= Seq::<u8>::empty());
            }
            assert(self@.contains_key(key));
        } else {
            assert(self@ =~= Map::<Seq<u8>, T>::empty());
        }
    }

    /// The trie is a single node, without children, whose prefix is `key`.
    pub closed spec fn spec_single(self, key: Seq<u8>) -> bool {
        &&& self.root is Some
        &&& self.root->0.kids().len() == 0
        &&& self.root->0.spec_prefix() == key
    }

    pub fn new() -> (res: Self)
        ensures
            res.wf(),
            res@ == Map::<Seq<u8>, T>::empty(),
            res.spec_is_empty(),
            res.spec_valued(),
            res.spec_compact(),
    {
        let res = TrieMap { root: None };
        proof {
            assert(res@ =~= Map::<Seq<u8>, T>::empty());
        }
        res
    }

    /// Whether the trie holds no node. An empty trie holds no key.
    pub fn is_empty(&self) -> (r: bool)
        ensures
            r == self.spec_is_empty(),
            r ==> self@ == Map::<Seq<u8>, T>::empty(),
            self.wf() && self.spec_valued() ==> (r <==> self@ == Map::<Seq<u8>, T>::empty()),
            self.wf() && self.spec_compact() ==> (r <==> self@ == Map::<Seq<u8>, T>::empty()),
    {
        proof {
            if self.wf() && self.spec_compact() && self.root is Some {
                let rt = self.root->0;
                lemma_compact_holds(rt);
                let s2 = choose|s2: Seq<u8>| (#[trigger] rt.lookup(rt.spec_prefix() + s2)) is Some;
                let key = rt.spec_prefix() + s2;
                if key.len() == 0 {
                    assert(key =~= Seq::<u8>::empty());
                }
                assert(self@.contains_key(key));
            }
        }
        proof {
            if self.wf() && self.spec_valued() && self.root is Some {
                let rt = self.root->0;
                lemma_at_prefix(rt);
                if rt.spec_prefix().len() == 0 {
                    assert(rt.spec_prefix() =~= Seq::<u8>::empty());
                }
                assert(self@.contains_key(rt.spec_prefix()));
            }
        }
        proof {
            if self.root is None {
                assert(self@ =~= Map::<Seq<u8>, T>::empty());
            }
        }
        self.root.is_none()
    }

    pub fn clear(&mut self)
        ensures
            final(self).wf(),
            final(self)@ == Map::<Seq<u8>, T>::empty(),
            final(self).spec_is_empty(),
            final(self).spec_valued(),
            final(self).spec_compact(),
    {
        self.root = None;
        proof {
            assert(self@ =~= Map::<Seq<u8>, T>::empty());
        }
    }

    /// Stores `val` under `key`, replacing the value held there. The empty
    /// key is ignored.
    pub fn insert(&mut self, key: &[u8], val: T)
        requires
            old(self).wf(),
        ensures
            final(self).wf(),
            key@.len() == 0 ==> final(self)@ == old(self)@,
            key@.len() > 0 ==> final(self)@ == old(self)@.insert(key@, val),
            key@.len() > 0 && old(self).spec_is_empty() ==> final(self).spec_single(key@),
            old(self).spec_compact() ==> final(self).spec_compact(),
            old(self).spec_valued() && key@.len() > 0 && (old(self).spec_is_empty() || (key@.len()
                >= 2 && forall|m: int|
                1 <= m < key@.len() ==> old(self)@.contains_key(#[trigger] key@.take(m))))
                ==> final(self).spec_valued(),
    {
        let ghost old_self = *self;
        if key.len() == 0 {
            return;
        }
        proof {
            if old_self.spec_valued() && !old_self.spec_is_empty() && key@.len() >= 2 && forall|
                m: int,
            | 1 <= m < key@.len() ==> old_self@.contains_key(#[trigger] key@.take(m)) {
                let rt = old_self.root->0;
                let rp = rt.spec_prefix();
                lemma_at_prefix(rt);
                if rp.len() == 0 {
                    assert(rp =~= Seq::<u8>::empty());
                }
                assert(rp.len() > 0);
                let k1 = key@.take(1);
                assert(old_self@.contains_key(k1));
                assert(rt.lookup(k1) is Some);
                if !starts_with(k1, rp) {
                    lemma_off_prefix(rt, k1);
                }
                assert(key@[0] == k1[0]);
                assert(k1.take(rp.len() as int)[0] == rp[0]);
                assert forall|m: int| 1 <= m < key@.len() implies (#[trigger] rt.lookup(
                    key@.take(m),
                )) is Some by {
                    assert(old_self@.contains_key(key@.take(m)));
                }
                assert(prefixes_stored(rt, key@));
            }
        }
        match &mut self.root {
            Some(root) => {
                Self::insert_node(root, key, val);
            },
            None => {
                let mut new_node = Node::new(key);
                new_node.set_val(val);
                proof {
                    new_node.lemma_leaf_local_wf();
                    new_node.lemma_wf_fold();
                    assert forall|k: Seq<u8>| #[trigger] new_node.lookup(k) == (if k == key@ {
                        Some(val)
                    } else {
                        None
                    }) by {
                        lemma_childless(new_node, k);
                    }
                }
                self.root = Some(new_node);
            },
        }
        proof {
            assert(self@ =~= old_self@.insert(key@, val));
        }
    }

    /// Stores `val` under `data`, read from the start of the prefix of
    /// `node`.
    fn insert_node(node: &mut Node<T>, data: &[u8], val: T)
        requires
            old(node).wf(),
            data@.len() > 0,
        ensures
            final(node).wf(),
            forall|k: Seq<u8>| #[trigger]
                final(node).lookup(k) == (if k == data@ {
                    Some(val)
                } else {
                    old(node).lookup(k)
                }),
            old(node).spec_prefix().len() > 0 && old(node).first() == data@[0] as int ==> final(node).spec_prefix().len() > 0 && final(node).first() == old(node).first(),
            all_valued(*old(node)) && prefixes_stored(*old(node), data@) ==> all_valued(
                *final(node),
            ),
            compact(*old(node)) ==> compact(*final(node)),
        decreases data@.len() + if old(node).spec_prefix().len() == 0 {
            1int
        } else {
            0int
        },
    {
        let ghost n0 = *node;
        let ghost keep = all_valued(n0) && prefixes_stored(n0, data@);
        let ghost ckeep = compact(n0);
        proof {
            n0.lemma_wf_unfold();
        }
        let lcp_len = lcp(node.prefix().as_ref(), data);
        proof {
            if keep && lcp_len < n0.spec_prefix().len() && lcp_len < data@.len() {
                // a prefix of `data` that ends inside the prefix of `n0`
                // would be stored, but nothing is stored there
                assert(lcp_len >= 1) by {
                    if lcp_len == 0 {
                        assert(data@[0] == n0.spec_prefix()[0]);
                    }
                }
                let dk = data@.take(lcp_len as int);
                assert(n0.lookup(dk) is Some);
                lemma_off_prefix(n0, dk);
            }
        }
        let plen = node.prefix().len();
        let ghost split = lcp_len < plen;
        if lcp_len < plen {
            // create new split node to become the child of the
            // current node that inherits its children.
            let mut split_node = Node::new(
                &node.prefix().as_ref()[lcp_len..plen],
            );
            let ghost s0 = split_node;
            if let Some(v) = node.take_val() {
                split_node.set_val(v);
            }
            let new_prefix = Prefix::new(&node.prefix().as_ref()[0..lcp_len]);
            node.set_prefix(new_prefix);
            proof {
                split_node.lemma_leaf_local_wf();
            }
            let ghost before_transfer = *node;
            node.transfer_children(&mut split_node);
            let split_node_byte = split_node.prefix().as_ref()[0];
            let ghost s = split_node;
            proof {
                if before_transfer.spec_is_leaf() {
                    s0.lemma_leaf_local_wf();
                    before_transfer.lemma_leaf_local_wf();
                    n0.lemma_leaf_local_wf();
                    node.lemma_leaf_local_wf();
                    split_node.lemma_leaf_local_wf();
                    assert(split_node.kids() =~= n0.kids());
                }
                assert(s.spec_prefix() =~= n0.spec_prefix().skip(lcp_len as int));
                assert forall|k: int| 0 <= k < s.kids().len() implies (#[trigger] s.kids()[k]).wf() by {
                    assert(s.kids()[k] == n0.kids()[k]);
                }
                s.lemma_wf_fold();
                lemma_rank_zero_for(*node, split_node_byte as int);
            }
            node.insert_child(Node::<T>::child_pos_from_byte(split_node_byte), split_node);
            proof {
                let t = *node;
                assert(t.kids() =~= seq![s]);
                assert(t.spec_prefix() =~= n0.spec_prefix().take(lcp_len as int));
                assert forall|k: Seq<u8>| #[trigger] t.lookup(k) == n0.lookup(k) by {
                    lemma_split(n0, s, t, lcp_len as int, k);
                }
                assert forall|k: int| 0 <= k < t.kids().len() implies (#[trigger] t.kids()[k]).wf() by {
                }
                t.lemma_wf_fold();
                if ckeep {
                    assert(s.spec_val() == n0.spec_val());
                    assert(s.kids() == n0.kids());
                    assert forall|k: int| 0 <= k < s.kids().len() implies compact(
                        #[trigger] s.kids()[k],
                    ) by {
                        assert(s.kids()[k] == n0.kids()[k]);
                    }
                    assert(compact(s));
                    assert(t.kids()[0] == s);
                }
                if keep {
                    assert(s.spec_val() == n0.spec_val());
                    assert(s.kids() == n0.kids());
                    assert forall|k: int| 0 <= k < s.kids().len() implies all_valued(
                        #[trigger] s.kids()[k],
                    ) by {
                        assert(s.kids()[k] == n0.kids()[k]);
                    }
                    assert(all_valued(s));
                    assert(t.kids()[0] == s);
                }
            }
        }
        let ghost n1 = *node;
        proof {
            n1.lemma_wf_unfold();
            assert(n1.spec_prefix() =~= data@.take(lcp_len as int));
        }
        proof {
            if keep && !split {
                assert(n1 == n0);
            }
        }
        if lcp_len == data.len() {
            // already exists. overwrite the value
            node.set_val(val);
            proof {
                if keep {
                    let nf = *node;
                    assert forall|k: int| 0 <= k < nf.kids().len() implies all_valued(
                        #[trigger] nf.kids()[k],
                    ) by {
                        assert(nf.kids()[k] == n1.kids()[k]);
                        if !split {
                            assert(n1.kids()[k] == n0.kids()[k]);
                        }
                    }
                }
                if ckeep {
                    let nf = *node;
                    assert(nf.kids() == n1.kids());
                    if !split {
                        assert(n1 == n0);
                    }
                    assert forall|k: int| 0 <= k < nf.kids().len() implies compact(
                        #[trigger] nf.kids()[k],
                    ) by {
                        assert(nf.kids()[k] == n1.kids()[k]);
                        if !split {
                            assert(n1.kids()[k] == n0.kids()[k]);
                        }
                    }
                }
                assert(n1.spec_prefix() =~= data@);
                assert forall|k: Seq<u8>| #[trigger] node.lookup(k) == (if k == data@ {
                    Some(val)
                } else {
                    n0.lookup(k)
                }) by {
                    lemma_val_only(n1, *node, k);
                }
                assert forall|k: int| 0 <= k < node.kids().len() implies (#[trigger] node.kids()[k]).wf() by {
                }
                node.lemma_wf_fold();
            }
            return;
        }
        let rest = &data[lcp_len..data.len()];
        let byte = rest[0];
        let child_pos = Node::<T>::child_pos_from_byte(byte);
        let ghost b = byte as int;
        proof {
            assert(data@[lcp_len as int] == byte);
        }
        if node.child_exists(child_pos) {
            proof {
                n1.lemma_child_at(b);
            }
            let ghost r = self::bitmap::bm_rank(n1.spec_bitmap(), b) as int;
            let ghost c0 = n1.kids()[r];
            proof {
                if split {
                    assert(n1.kids().len() == 1);
                    assert(c0.first() == n0.spec_prefix()[lcp_len as int] as int);
                }
            }
            proof {
                if keep {
                    assert(n1 == n0);
                    assert(all_valued(c0));
                    assert(rest@[0] == c0.spec_prefix()[0]);
                    assert forall|m: int| 1 <= m < rest@.len() implies (#[trigger] c0.lookup(
                        rest@.take(m),
                    )) is Some by {
                        let dk = data@.take(lcp_len + m);
                        assert(n0.lookup(dk) is Some);
                        assert(dk.take(lcp_len as int) =~= n1.spec_prefix());
                        assert(dk[lcp_len as int] == byte);
                        lemma_route_some(n1, dk, r);
                        assert(dk.skip(lcp_len as int) =~= rest@.take(m));
                    }
                    assert(prefixes_stored(c0, rest@));
                }
            }
            proof {
                if ckeep {
                    if split {
                        assert(c0 == n1.kids()[0]);
                        assert(false);
                    }
                    assert(n1 == n0);
                    assert(compact(c0));
                }
            }
            let child = node.get_mut_child_by_pos(child_pos).unwrap();
            Self::insert_node(child, rest, val);
            proof {
                let nf = *node;
                let cf = nf.kids()[r];
                if ckeep {
                    assert forall|k: int| 0 <= k < nf.kids().len() implies compact(
                        #[trigger] nf.kids()[k],
                    ) by {
                        if k != r {
                            assert(nf.kids()[k] == n1.kids()[k]);
                        }
                    }
                    assert(nf.kids().len() == n1.kids().len());
                }
                if keep {
                    assert forall|k: int| 0 <= k < nf.kids().len() implies all_valued(
                        #[trigger] nf.kids()[k],
                    ) by {
                        if k != r {
                            assert(nf.kids()[k] == n1.kids()[k]);
                        }
                    }
                }
                assert forall|k: int| 0 <= k < nf.kids().len() implies #[trigger] nf.kids()[k].child_ok(
                    nf.spec_bitmap(),
                    k,
                ) by {
                    if k != r {
                        assert(nf.kids()[k] == n1.kids()[k]);
                        n1.lemma_child_first(k);
                    }
                }
                assert forall|k: int| 0 <= k < nf.kids().len() implies (#[trigger] nf.kids()[k]).wf() by {
                    if k != r {
                        assert(nf.kids()[k] == n1.kids()[k]);
                    }
                }
                nf.lemma_wf_fold();
                assert forall|k: Seq<u8>| #[trigger] nf.lookup(k) == (if k == data@ {
                    Some(val)
                } else {
                    n0.lookup(k)
                }) by {
                    lemma_replace_kid(n1, nf, r, cf, k);
                    let p1 = n1.spec_prefix();
                    if starts_with(k, p1) && k.len() > p1.len() && k[p1.len() as int] as int == b {
                        lemma_route_some(n1, k, r);
                        lemma_skip_join(k, p1, data@, lcp_len as int);
                    } else if k == data@ {
                        assert(k.take(p1.len() as int) =~= p1);
                    }
                }
            }
        } else {
            let mut new_child = Node::new(rest);
            new_child.set_val(val);
            let ghost c = new_child;
            proof {
                c.lemma_leaf_local_wf();
                c.lemma_wf_fold();
                assert forall|k: int| 0 <= k < n1.kids().len() implies #[trigger] n1.kids()[k].first()
                    != b by {
                    n1.lemma_child_first(k);
                }
            }
            node.insert_child(child_pos, new_child);
            proof {
                let nf = *node;
                let r = self::bitmap::bm_rank(n1.spec_bitmap(), b) as int;
                self::bitmap::lemma_rank_monotone(n1.spec_bitmap(), b, 256);
                if ckeep {
                    assert(compact(c));
                    if !split {
                        assert(n1 == n0);
                    }
                    assert forall|k: int| 0 <= k < nf.kids().len() implies compact(
                        #[trigger] nf.kids()[k],
                    ) by {
                        if k < r {
                            assert(nf.kids()[k] == n1.kids()[k]);
                        } else if k > r {
                            assert(nf.kids()[k] == n1.kids()[k - 1]);
                        }
                        if !split && k != r {
                            assert(nf.kids()[k] == n0.kids()[if k < r { k } else { k - 1 }]);
                        }
                    }
                    assert(nf.kids().len() == n1.kids().len() + 1);
                }
                if keep {
                    assert(n1 == n0);
                    assert(all_valued(c));
                    assert forall|k: int| 0 <= k < nf.kids().len() implies all_valued(
                        #[trigger] nf.kids()[k],
                    ) by {
                        if k < r {
                            assert(nf.kids()[k] == n1.kids()[k]);
                        } else if k > r {
                            assert(nf.kids()[k] == n1.kids()[k - 1]);
                        }
                    }
                }
                assert forall|k: int| 0 <= k < nf.kids().len() implies (#[trigger] nf.kids()[k]).wf() by {
                    if k < r {
                        assert(nf.kids()[k] == n1.kids()[k]);
                    } else if k > r {
                        assert(nf.kids()[k] == n1.kids()[k - 1]);
                    }
                }
                nf.lemma_wf_fold();
                assert forall|k: Seq<u8>| #[trigger] nf.lookup(k) == (if k == data@ {
                    Some(val)
                } else {
                    n0.lookup(k)
                }) by {
                    lemma_insert_kid(n1, nf, r, c, k);
                    let p1 = n1.spec_prefix();
                    if starts_with(k, p1) && k.len() > p1.len() && k[p1.len() as int] as int == b {
                        lemma_route_none(n1, k);
                        lemma_childless(c, k.skip(p1.len() as int));
                        lemma_skip_join(k, p1, data@, lcp_len as int);
                    } else if k == data@ {
                        assert(k.take(p1.len() as int) =~= p1);
                    }
                }
            }
        }
    }
}

/// Every node of the subtree of `n`, `n` itself included, holds a value.
pub open spec fn all_valued<T>(n: Node<T>) -> bool
    decreases n,
{
    proof {
        n.lemma_kids_decrease();
    }
    &&& n.spec_val() is Some
    &&& forall|k: int| 0 <= k < n.kids().len() ==> all_valued(#[trigger] n.kids()[k])
}

/// Every node of the subtree of `n`, `n` itself included, holds a value or
/// branches: a node holds a value or has at least two children.
pub open spec fn compact<T>(n: Node<T>) -> bool
    decreases n,
{
    proof {
        n.lemma_kids_decrease();
    }
    &&& (n.spec_val() is Some || n.kids().len() >= 2)
    &&& forall|k: int| 0 <= k < n.kids().len() ==> compact(#[trigger] n.kids()[k])
}

/// A compact node holds some key: its own, or one below a child.
pub proof fn lemma_compact_holds<T>(n: Node<T>)
    requires
        n.wf(),
        compact(n),
    ensures
        exists|s: Seq<u8>| (#[trigger] n.lookup(n.spec_prefix() + s)) is Some,
    decreases n,
{
    n.lemma_wf_unfold();
    n.lemma_kids_decrease();
    let np = n.spec_prefix();
    if n.spec_val() is Some {
        lemma_at_prefix(n);
        assert(np + Seq::<u8>::empty() =~= np);
        assert(n.lookup(np + Seq::<u8>::empty()) is Some);
    } else {
        let kid = n.kids()[0];
        lemma_compact_holds(kid);
        let kp = kid.spec_prefix();
        let s2 = choose|s2: Seq<u8>| (#[trigger] kid.lookup(kid.spec_prefix() + s2)) is Some;
        n.lemma_child_first(0);
        let key = np + (kp + s2);
        assert(key.take(np.len() as int) =~= np);
        assert(key[np.len() as int] == kp[0]);
        assert(key.skip(np.len() as int) =~= kp + s2);
        lemma_route_some(n, key, 0);
        assert(n.lookup(np + (kp + s2)) is Some);
    }
}

/// `data`, read from the start of the prefix of `n`, begins with the first
/// byte of that prefix, and each of its prefixes from one byte on, but
/// `data` itself, is stored below `n`.
pub open spec fn prefixes_stored<T>(n: Node<T>, data: Seq<u8>) -> bool {
    &&& n.spec_prefix().len() > 0
    &&& data.len() > 0
    &&& data[0] == n.spec_prefix()[0]
    &&& forall|m: int| 1 <= m < data.len() ==> (#[trigger] n.lookup(data.take(m))) is Some
}

/// No key stored below `n` goes on past `data`: `data` is the only stored
/// key that begins with it, if any is.
pub open spec fn no_extension<T>(n: Node<T>, data: Seq<u8>) -> bool {
    forall|k: Seq<u8>| (#[trigger] n.lookup(k)) is Some && starts_with(k, data) ==> k == data
}

/// `root` is the only child of `r` in its place: with the prefixes of the
/// two joined, the child's value and the child's children.
pub open spec fn promoted<T>(r: Node<T>, root: Option<Node<T>>) -> bool {
    &&& root is Some
    &&& root->0.spec_prefix() == r.spec_prefix() + r.kids()[0].spec_prefix()
    &&& root->0.spec_val() == r.kids()[0].spec_val()
    &&& root->0.kids() == r.kids()[0].kids()
}

/// `f` ran on a suffix whose bytes are the key of `e` and on its value.
pub open spec fn handed<'trie, T, F: FnMut(SuffixRef<'_, 'trie>, &'trie T)>(
    f: F,
    e: (Seq<u8>, T),
) -> bool {
    exists|s: SuffixRef<'_, 'trie>, v: &'trie T|
        #![trigger call_ensures(f, (s, v), ())]
        call_ensures(f, (s, v), ()) && s.wf() && s@ == e.0 && *v == e.1
}

/// The node holds no value and has no child.
pub open spec fn holds_nothing<T>(n: Node<T>) -> bool {
    n.kids().len() == 0 && n.spec_val() is None
}

/// The children of `parent` once the child reached through byte `b` is
/// dropped when it holds nothing.
pub open spec fn kids_after_drop<T>(parent: Node<T>, b: int) -> Seq<Node<T>> {
    let r = self::bitmap::bm_rank(parent.spec_bitmap(), b) as int;
    if holds_nothing(parent.kids()[r]) {
        parent.kids().remove(r)
    } else {
        parent.kids()
    }
}

impl<T> TrieMap<T> {
    /// One step of compression on the way back up from a removal: drops
    /// the child at `child_pos` if it holds nothing, then merges `parent`
    /// with its only child if it has no value. Returns whether a merge
    /// took place, that is whether compression goes on above.
    fn compress_step(parent: &mut Node<T>, child_pos: ChildPos) -> (merged: bool)
        requires
            old(parent).wf(),
            child_pos.valid(),
            bm_bit(old(parent).spec_bitmap(), child_pos.byte()),
        ensures
            final(parent).wf(),
            forall|k: Seq<u8>| #[trigger] final(parent).lookup(k) == old(parent).lookup(k),
            old(parent).spec_prefix().len() > 0 ==> final(parent).spec_prefix().len() > 0
                && final(parent).first() == old(parent).first(),
            merged == (kids_after_drop(*old(parent), child_pos.byte()).len() == 1
                && old(parent).spec_val() is None),
            merged ==> {
                let only = kids_after_drop(*old(parent), child_pos.byte())[0];
                &&& final(parent).spec_prefix() == old(parent).spec_prefix() + only.spec_prefix()
                &&& final(parent).spec_val() == only.spec_val()
                &&& final(parent).kids() == only.kids()
            },
            !merged ==> {
                &&& final(parent).spec_prefix() == old(parent).spec_prefix()
                &&& final(parent).spec_val() == old(parent).spec_val()
                &&& final(parent).kids() == kids_after_drop(*old(parent), child_pos.byte())
            },
    {
        let ghost p0 = *parent;
        proof {
            p0.lemma_wf_unfold();
            p0.lemma_child_at(child_pos.byte());
        }
        let visited_child = parent.get_child_by_pos(child_pos).unwrap();
        proof {
            visited_child.lemma_wf_unfold();
        }
        let dead = visited_child.len_children() == 0 && !visited_child.has_val();
        if dead {
            let ghost r = self::bitmap::bm_rank(p0.spec_bitmap(), child_pos.byte()) as int;
            parent.remove_child(child_pos);
            proof {
                let p1 = *parent;
                assert forall|k: Seq<u8>| (#[trigger] p0.kids()[r].lookup(k)) is None by {
                    lemma_dead(p0.kids()[r], k);
                }
                assert forall|k: Seq<u8>| #[trigger] p1.lookup(k) == p0.lookup(k) by {
                    lemma_remove_dead_kid(p0, p1, r, k);
                }
                assert forall|k: int| 0 <= k < p1.kids().len() implies (#[trigger] p1.kids()[k]).wf() by {
                    if k < r {
                        assert(p1.kids()[k] == p0.kids()[k]);
                    } else {
                        assert(p1.kids()[k] == p0.kids()[k + 1]);
                    }
                }
                p1.lemma_wf_fold();
            }
        }
        let ghost p1 = *parent;
        proof {
            p1.lemma_wf_unfold();
        }
        if parent.len_children() == 1 && !parent.has_val() {
            let idx_pos = parent.child_pos_from_idx(0);
            proof {
                p1.lemma_child_first(0);
            }
            let mut child = parent.remove_child(idx_pos).unwrap();
            let ghost c = child;
            proof {
                c.lemma_wf_unfold();
            }
            let joined = {
                let pa = parent.prefix().as_ref();
                let pc = child.prefix().as_ref();
                let parts: [&[u8]; 2] = [pa, pc];
                let joined = Prefix::from_slices(parts.as_slice());
                proof {
                    let sv = self::prefix::slice_views(parts@);
                    assert(sv =~= seq![pa@, pc@]);
                    self::prefix::lemma_concat_two(pa@, pc@);
                    assert(joined@ =~= p1.spec_prefix() + c.spec_prefix());
                }
                joined
            };
            parent.set_prefix(joined);
            let ghost p2 = *parent;
            proof {
                if p2.spec_is_leaf() {
                    p2.lemma_leaf_local_wf();
                }
                assert(p2.local_wf());
            }
            child.transfer_children(parent);
            if let Some(v) = child.take_val() {
                parent.set_val(v);
            }
            proof {
                let m = *parent;
                if c.spec_is_leaf() {
                    c.lemma_leaf_local_wf();
                    if m.spec_is_leaf() {
                        m.lemma_leaf_local_wf();
                    }
                    assert(m.kids().len() == 0);
                    assert(m.local_wf());
                } else {
                    assert(m.local_wf());
                }
                assert(p1.kids()[0] == c);
                assert forall|k: Seq<u8>| #[trigger] m.lookup(k) == p0.lookup(k) by {
                    lemma_merge(p1, m, k);
                }
                assert forall|k: int| 0 <= k < m.kids().len() implies (#[trigger] m.kids()[k]).wf() by {
                    assert(m.kids()[k] == c.kids()[k]);
                }
                m.lemma_wf_fold();
            }
            true
        } else {
            false
        }
    }

    /// Removes the value under `data` below `node`. Returns the value and
    /// whether compression goes on above.
    fn remove_node(node: &mut Node<T>, data: &[u8]) -> (res: (Option<T>, bool))
        requires
            old(node).wf(),
        ensures
            final(node).wf(),
            res.0 == old(node).lookup(data@),
            forall|k: Seq<u8>| #[trigger]
                final(node).lookup(k) == (if k == data@ {
                    None
                } else {
                    old(node).lookup(k)
                }),
            old(node).spec_prefix().len() > 0 ==> final(node).spec_prefix().len() > 0 && final(node).first() == old(node).first(),
            old(node).kids().len() == 0 && data@ == old(node).spec_prefix() ==> final(node).kids().len()
                == 0 && final(node).spec_val() is None,
            all_valued(*old(node)) && no_extension(*old(node), data@) ==> (res.1 ==> res.0 is Some
                && holds_nothing(*final(node))) && (!res.1 ==> all_valued(*final(node))),
            compact(*old(node)) && no_extension(*old(node), data@) ==> compact(*final(node)) || (
            res.1 && res.0 is Some && holds_nothing(*final(node))),
        decreases data@.len() + if old(node).spec_prefix().len() == 0 {
            1int
        } else {
            0int
        },
    {
        let ghost n0 = *node;
        let ghost keep = all_valued(n0) && no_extension(n0, data@);
        let ghost ckeep = compact(n0) && no_extension(n0, data@);
        proof {
            n0.lemma_wf_unfold();
            n0.lemma_lookup_unfold(data@);
        }
        let lcp_len = lcp(node.prefix().as_ref(), data);
        if lcp_len < node.prefix().len() {
            proof {
                assert forall|k: Seq<u8>| #[trigger] node.lookup(k) == (if k == data@ {
                    None
                } else {
                    n0.lookup(k)
                }) by {
                    if k == data@ {
                        if starts_with(k, n0.spec_prefix()) {
                            assert(k.take(n0.spec_prefix().len() as int)[lcp_len as int]
                                == n0.spec_prefix()[lcp_len as int]);
                        }
                    }
                }
            }
            return (None, false);
        }
        proof {
            assert(data@.take(lcp_len as int) =~= n0.spec_prefix());
        }
        if lcp_len == data.len() {
            let v = node.take_val();
            proof {
                assert(n0.spec_prefix() =~= data@);
                assert forall|k: Seq<u8>| #[trigger] node.lookup(k) == (if k == data@ {
                    None
                } else {
                    n0.lookup(k)
                }) by {
                    lemma_val_only(n0, *node, k);
                }
                node.lemma_wf_fold();
                if ckeep && n0.kids().len() > 0 {
                    // a child would hold a key going on past `data`
                    let kid = n0.kids()[0];
                    assert(compact(kid));
                    n0.lemma_child_first(0);
                    lemma_compact_holds(kid);
                    let s2 = choose|s2: Seq<u8>| (#[trigger] kid.lookup(kid.spec_prefix() + s2)) is Some;
                    let key = n0.spec_prefix() + (kid.spec_prefix() + s2);
                    assert(key.take(n0.spec_prefix().len() as int) =~= n0.spec_prefix());
                    assert(key[n0.spec_prefix().len() as int] == kid.spec_prefix()[0]);
                    lemma_route_some(n0, key, 0);
                    assert(key.skip(n0.spec_prefix().len() as int) =~= kid.spec_prefix() + s2);
                    assert(key.take(data@.len() as int) =~= data@);
                    assert(key.len() > data@.len());
                }
                if keep && n0.kids().len() > 0 {
                    // a child would hold a key going on past `data`
                    let kid = n0.kids()[0];
                    assert(all_valued(kid));
                    n0.lemma_child_first(0);
                    let key = n0.spec_prefix() + kid.spec_prefix();
                    assert(key.take(n0.spec_prefix().len() as int) =~= n0.spec_prefix());
                    assert(key[n0.spec_prefix().len() as int] == kid.spec_prefix()[0]);
                    lemma_route_some(n0, key, 0);
                    assert(key.skip(n0.spec_prefix().len() as int) =~= kid.spec_prefix());
                    lemma_at_prefix(kid);
                    assert(key.take(data@.len() as int) =~= data@);
                    assert(key.len() > data@.len());
                }
            }
            return (v, true);
        }
        let rest = &data[lcp_len..data.len()];
        let next_pos = Node::<T>::child_pos_from_byte(rest[0]);
        let ghost b = rest@[0] as int;
        proof {
            assert(data@[lcp_len as int] == rest@[0]);
        }
        if node.child_exists(next_pos) {
            proof {
                n0.lemma_child_at(b);
            }
            let ghost r = self::bitmap::bm_rank(n0.spec_bitmap(), b) as int;
            let ghost c0 = n0.kids()[r];
            proof {
                lemma_route_some(n0, data@, r);
                assert(data@.skip(lcp_len as int) =~= rest@);
            }
            proof {
                if keep {
                    assert(all_valued(c0));
                }
                if ckeep {
                    assert(compact(c0));
                }
                if no_extension(n0, data@) {
                    let p = n0.spec_prefix();
                    assert forall|k: Seq<u8>| (#[trigger] c0.lookup(k)) is Some && starts_with(
                        k,
                        rest@,
                    ) implies k == rest@ by {
                        let full = p + k;
                        assert(full.take(p.len() as int) =~= p);
                        assert(k.take(rest@.len() as int) =~= rest@);
                        assert(full[p.len() as int] == k[0]);
                        assert(k[0] == rest@[0]);
                        lemma_route_some(n0, full, r);
                        assert(full.skip(p.len() as int) =~= k);
                        assert(full.take(data@.len() as int) =~= data@) by {
                            assert(data@ =~= p + rest@);
                        }
                        assert(full == data@);
                        assert(k =~= full.skip(p.len() as int));
                        assert(data@.skip(p.len() as int) =~= rest@);
                    }
                }
            }
            let child = node.get_mut_child_by_pos(next_pos).unwrap();
            let (res, cont) = Self::remove_node(child, rest);
            let ghost n1 = *node;
            proof {
                let cf = n1.kids()[r];
                if ckeep && (!cont || res is None) {
                    assert forall|k: int| 0 <= k < n1.kids().len() implies compact(
                        #[trigger] n1.kids()[k],
                    ) by {
                        if k != r {
                            assert(n1.kids()[k] == n0.kids()[k]);
                        }
                    }
                    assert(n1.kids().len() == n0.kids().len());
                }
                if keep && !cont {
                    assert forall|k: int| 0 <= k < n1.kids().len() implies all_valued(
                        #[trigger] n1.kids()[k],
                    ) by {
                        if k != r {
                            assert(n1.kids()[k] == n0.kids()[k]);
                        }
                    }
                }
                assert forall|k: int| 0 <= k < n1.kids().len() implies #[trigger] n1.kids()[k].child_ok(
                    n1.spec_bitmap(),
                    k,
                ) by {
                    if k != r {
                        assert(n1.kids()[k] == n0.kids()[k]);
                        n0.lemma_child_first(k);
                    }
                }
                assert forall|k: int| 0 <= k < n1.kids().len() implies (#[trigger] n1.kids()[k]).wf() by {
                    if k != r {
                        assert(n1.kids()[k] == n0.kids()[k]);
                    }
                }
                n1.lemma_wf_fold();
                assert forall|k: Seq<u8>| #[trigger] n1.lookup(k) == (if k == data@ {
                    None
                } else {
                    n0.lookup(k)
                }) by {
                    lemma_replace_kid(n0, n1, r, cf, k);
                    let p = n0.spec_prefix();
                    if starts_with(k, p) && k.len() > p.len() && k[p.len() as int] as int == b {
                        lemma_route_some(n0, k, r);
                        lemma_skip_join(k, p, data@, lcp_len as int);
                    } else if k == data@ {
                        assert(k.take(p.len() as int) =~= p);
                    }
                }
            }
            if res.is_none() {
                return (None, false);
            }
            if !cont {
                return (res, false);
            }
            proof {
                assert(n1.spec_bitmap() == n0.spec_bitmap());
            }
            let merged = Self::compress_step(node, next_pos);
            proof {
                if ckeep {
                    let nf = *node;
                    let cf = n1.kids()[r];
                    let ks = kids_after_drop(n1, b);
                    assert(compact(cf) || holds_nothing(cf));
                    assert forall|k: int| 0 <= k < ks.len() implies compact(#[trigger] ks[k]) by {
                        if holds_nothing(cf) {
                            if k < r {
                                assert(ks[k] == n0.kids()[k]);
                            } else {
                                assert(ks[k] == n0.kids()[k + 1]);
                            }
                        } else {
                            if k != r {
                                assert(ks[k] == n0.kids()[k]);
                            }
                        }
                    }
                    if merged {
                        assert(compact(ks[0]));
                        assert forall|k: int| 0 <= k < nf.kids().len() implies compact(
                            #[trigger] nf.kids()[k],
                        ) by {
                            assert(nf.kids()[k] == ks[0].kids()[k]);
                        }
                    } else {
                        assert(nf.kids() == ks);
                        assert(n1.spec_val() == n0.spec_val());
                        if holds_nothing(cf) {
                            assert(ks.len() == n0.kids().len() - 1);
                        }
                    }
                    assert(compact(nf));
                }
            }
            proof {
                if keep {
                    let nf = *node;
                    assert(holds_nothing(n1.kids()[r]));
                    assert(kids_after_drop(n1, b) == n1.kids().remove(r));
                    assert(!merged);
                    assert forall|k: int| 0 <= k < nf.kids().len() implies all_valued(
                        #[trigger] nf.kids()[k],
                    ) by {
                        if k < r {
                            assert(nf.kids()[k] == n0.kids()[k]);
                        } else {
                            assert(nf.kids()[k] == n0.kids()[k + 1]);
                        }
                    }
                }
            }
            (res, merged)
        } else {
            proof {
                assert forall|k: int| 0 <= k < n0.kids().len() implies #[trigger] n0.kids()[k].first()
                    != b by {
                    n0.lemma_child_first(k);
                }
                lemma_route_none(n0, data@);
            }
            (None, false)
        }
    }

    /// Compression of the root, which has no parent to merge with: a root
    /// without value goes away when it has no child, and is replaced by its
    /// child, with the two prefixes joined, when it has one.
    fn compress_root(root: &mut Option<Node<T>>)
        requires
            *old(root) matches Some(r) ==> r.wf(),
        ensures
            *final(root) matches Some(r) ==> r.wf(),
            forall|k: Seq<u8>| #[trigger]
                root_lookup(*final(root), k) == root_lookup(*old(root), k),
            *old(root) is None ==> *final(root) is None,
            *old(root) matches Some(r) && (r.spec_val() is Some || r.kids().len() > 1)
                ==> *final(root) == *old(root),
            *old(root) matches Some(r) && r.spec_val() is None && r.kids().len() == 0
                ==> *final(root) is None,
            *old(root) matches Some(r) ==> (r.spec_val() is None && r.kids().len() == 1 ==> promoted(
                r,
                *final(root),
            )),
    {
        let ghost r0 = *root;
        let mut make_none = false;
        let mut promote: Option<Node<T>> = None;
        match root {
            Some(r) => {
                let ghost n0 = *r;
                proof {
                    n0.lemma_wf_unfold();
                }
                if !r.has_val() {
                    let count = r.len_children();
                    if count == 0 {
                        make_none = true;
                        proof {
                            assert forall|k: Seq<u8>| (#[trigger] n0.lookup(k)) is None by {
                                lemma_dead(n0, k);
                            }
                        }
                    } else if count == 1 {
                        let idx_pos = r.child_pos_from_idx(0);
                        proof {
                            n0.lemma_child_first(0);
                        }
                        let mut child = r.remove_child(idx_pos).unwrap();
                        let ghost c = child;
                        let joined = {
                            let pa = r.prefix().as_ref();
                            let pc = child.prefix().as_ref();
                            let parts: [&[u8]; 2] = [pa, pc];
                            let joined = Prefix::from_slices(parts.as_slice());
                            proof {
                                let sv = self::prefix::slice_views(parts@);
                                assert(sv =~= seq![pa@, pc@]);
                                self::prefix::lemma_concat_two(pa@, pc@);
                                assert(joined@ =~= n0.spec_prefix() + c.spec_prefix());
                            }
                            joined
                        };
                        child.set_prefix(joined);
                        proof {
                            c.lemma_wf_unfold();
                            let m = child;
                            if m.spec_is_leaf() {
                                m.lemma_leaf_local_wf();
                            }
                            assert(n0.kids()[0] == c);
                            assert forall|k: Seq<u8>| #[trigger] m.lookup(k) == n0.lookup(k) by {
                                lemma_merge(n0, m, k);
                            }
                            assert forall|k: int| 0 <= k < m.kids().len() implies (#[trigger] m.kids()[k]).wf() by {
                                assert(m.kids()[k] == c.kids()[k]);
                            }
                            m.lemma_wf_fold();
                        }
                        promote = Some(child);
                    }
                }
            },
            None => {},
        }
        if make_none {
            *root = None;
        } else if promote.is_some() {
            *root = promote;
        }
    }

    /// Removes the value stored under `key` and returns it.
    pub fn remove(&mut self, key: &[u8]) -> (res: Option<T>)
        requires
            old(self).wf(),
        ensures
            final(self).wf(),
            res == old(self).spec_get(key@),
            final(self)@ == old(self)@.remove(key@),
            old(self).spec_is_empty() ==> final(self).spec_is_empty(),
            old(self).spec_single(key@) && res is Some ==> final(self).spec_is_empty(),
            old(self).spec_valued() && (forall|k: Seq<u8>|
                #[trigger] old(self)@.contains_key(k) && starts_with(k, key@) ==> k == key@)
                ==> final(self).spec_valued(),
            old(self).spec_compact() && (forall|k: Seq<u8>|
                #[trigger] old(self)@.contains_key(k) && starts_with(k, key@) ==> k == key@)
                ==> final(self).spec_compact(),
    {
        proof {
            if key@.len() > 0 && self.root is Some && (forall|k: Seq<u8>|
                #[trigger] self@.contains_key(k) && starts_with(k, key@) ==> k == key@) {
                let rt = self.root->0;
                assert forall|k: Seq<u8>| (#[trigger] rt.lookup(k)) is Some && starts_with(
                    k,
                    key@,
                ) implies k == key@ by {
                    assert(k.len() >= key@.len());
                    assert(self@.contains_key(k));
                }
                assert(no_extension(rt, key@));
            }
        }
        let ghost old_self = *self;
        if key.len() == 0 || self.root.is_none() {
            proof {
                assert(self@ =~= old_self@.remove(key@));
            }
            return None;
        }
        let res = match &mut self.root {
            Some(root) => Self::remove_node(root, key).0,
            None => None,
        };
        if res.is_none() {
            proof {
                assert(self@ =~= old_self@.remove(key@));
            }
            return res;
        }
        Self::compress_root(&mut self.root);
        proof {
            assert forall|k: Seq<u8>| #[trigger] self.spec_get(k) == (if k == key@ {
                None
            } else {
                old_self.spec_get(k)
            }) by {
                assert(root_lookup(self.root, k) == self.spec_get(k) || k.len() == 0);
            }
            assert(self@ =~= old_self@.remove(key@));
        }
        res
    }

    /// Returns the value stored under `key`.
    pub fn get(&self, key: &[u8]) -> (r: Option<&T>)
        requires
            self.wf(),
        ensures
            r is Some == self.spec_get(key@) is Some,
            r matches Some(v) ==> *v == self.spec_get(key@)->0,
    {
        if key.len() == 0 || self.root.is_none() {
            return None;
        }
        let root = self.root.as_ref().unwrap();
        let mut cur_node = root;
        let mut cur_data = key;
        loop
            invariant
                cur_node.wf(),
                cur_node.lookup(cur_data@) == root.lookup(key@),
                root.lookup(key@) == self.spec_get(key@),
            decreases 2 * cur_data@.len() + if cur_node.spec_prefix().len() == 0 {
                1int
            } else {
                0int
            },
        {
            let ghost n = *cur_node;
            proof {
                n.lemma_wf_unfold();
                n.lemma_lookup_unfold(cur_data@);
            }
            let lcp_len = lcp(cur_node.prefix().as_ref(), cur_data);
            if lcp_len < cur_node.prefix().len() {
                proof {
                    if starts_with(cur_data@, n.spec_prefix()) {
                        assert(cur_data@.take(n.spec_prefix().len() as int)[lcp_len as int]
                            == n.spec_prefix()[lcp_len as int]);
                    }
                }
                return None;
            }
            proof {
                assert(cur_data@.take(lcp_len as int) =~= n.spec_prefix());
            }
            if lcp_len == cur_data.len() {
                return cur_node.val();
            }
            // keep traversing down.
            let rest = &cur_data[lcp_len..cur_data.len()];
            let byte = rest[0];
            let child_pos = Node::<T>::child_pos_from_byte(byte);
            proof {
                assert(cur_data@[lcp_len as int] == byte);
                assert(cur_data@.skip(lcp_len as int) =~= rest@);
            }
            if cur_node.child_exists(child_pos) {
                proof {
                    n.lemma_child_at(byte as int);
                }
                cur_node = cur_node.get_child_by_pos(child_pos).unwrap();
                cur_data = rest;
            } else {
                return None;
            }
        }
    }

    /// Returns a mutable reference to the value stored under `key`.
    pub fn get_mut(&mut self, key: &[u8]) -> (r: Option<&mut T>)
        requires
            old(self).wf(),
        ensures
            r is Some == old(self).spec_get(key@) is Some,
            final(self).wf(),
            r is None ==> final(self)@ == old(self)@,
            r is Some ==> *r->0 == old(self).spec_get(key@)->0 && final(self)@ == old(self)@.insert(
                key@,
                *final(r->0),
            ),
    {
        let ghost old_self = *self;
        if key.len() == 0 {
            return None;
        }
        match &mut self.root {
            Some(root) => {
                let ghost r0 = *root;
                Self::get_mut_node(root, key)
            },
            None => None,
        }
    }

    fn get_mut_node<'a>(node: &'a mut Node<T>, data: &[u8]) -> (r: Option<&'a mut T>)
        requires
            old(node).wf(),
        ensures
            r is Some == old(node).lookup(data@) is Some,
            final(node).wf(),
            final(node).spec_prefix() == old(node).spec_prefix(),
            r is None ==> forall|k: Seq<u8>| #[trigger] final(node).lookup(k) == old(node).lookup(k),
            r is Some ==> *r->0 == old(node).lookup(data@)->0 && forall|k: Seq<u8>| #[trigger]
                final(node).lookup(k) == (if k == data@ {
                    Some(*final(r->0))
                } else {
                    old(node).lookup(k)
                }),
        decreases data@.len() + if old(node).spec_prefix().len() == 0 {
            1int
        } else {
            0int
        },
    {
        let ghost n0 = *node;
        proof {
            n0.lemma_wf_unfold();
            n0.lemma_lookup_unfold(data@);
        }
        let lcp_len = lcp(node.prefix().as_ref(), data);
        if lcp_len < node.prefix().len() {
            proof {
                if starts_with(data@, n0.spec_prefix()) {
                    assert(data@.take(n0.spec_prefix().len() as int)[lcp_len as int]
                        == n0.spec_prefix()[lcp_len as int]);
                }
            }
            return None;
        }
        proof {
            assert(data@.take(lcp_len as int) =~= n0.spec_prefix());
        }
        if lcp_len == data.len() {
            proof {
                assert(n0.spec_prefix() =~= data@);
                lemma_val_change_all(n0);
            }
            return node.val_mut();
        }
        let rest = &data[lcp_len..data.len()];
        let byte = rest[0];
        let child_pos = Node::<T>::child_pos_from_byte(byte);
        let ghost b = byte as int;
        proof {
            assert(data@[lcp_len as int] == byte);
            assert(data@.skip(lcp_len as int) =~= rest@);
        }
        if node.child_exists(child_pos) {
            proof {
                n0.lemma_child_at(b);
                let r = self::bitmap::bm_rank(n0.spec_bitmap(), b) as int;
                lemma_route_some(n0, data@, r);
                lemma_kid_change_all(n0, data@, r);
            }
            let child = node.get_mut_child_by_pos(child_pos).unwrap();
            Self::get_mut_node(child, rest)
        } else {
            proof {
                assert forall|k: int| 0 <= k < n0.kids().len() implies #[trigger] n0.kids()[k].first()
                    != b by {
                    n0.lemma_child_first(k);
                }
                lemma_route_none(n0, data@);
            }
            None
        }
    }

    /// Removes every value whose key begins with `rem`, read from the
    /// start of the prefix of `node`. Returns whether the place where `rem`
    /// ends was found, and whether compression goes on above.
    fn remove_prefix_node(node: &mut Node<T>, rem: &[u8]) -> (res: (bool, bool))
        requires
            old(node).wf(),
        ensures
            final(node).wf(),
            forall|k: Seq<u8>| #[trigger]
                final(node).lookup(k) == (if starts_with(k, rem@) {
                    None
                } else {
                    old(node).lookup(k)
                }),
            old(node).spec_prefix().len() > 0 && rem@.len() > 0 && rem@[0] as int == old(
                node,
            ).first() ==> final(node).spec_prefix().len() > 0 && final(node).first() == old(
                node,
            ).first(),
            res.1 ==> res.0,
            compact(*old(node)) ==> compact(*final(node)) || (res.1 && holds_nothing(
                *final(node),
            )),
        decreases rem@.len() + if old(node).spec_prefix().len() == 0 {
            1int
        } else {
            0int
        },
    {
        let ghost n0 = *node;
        let ghost p = n0.spec_prefix();
        proof {
            n0.lemma_wf_unfold();
        }
        let lcp_len = lcp(node.prefix().as_ref(), rem);
        if lcp_len == rem.len() {
            // replace with a node holding nothing, removed by the
            // compression above.
            let new = Node::new(&node.prefix().as_ref()[0..lcp_len]);
            *node = new;
            proof {
                node.lemma_wf_unfold();
                assert(rem@ =~= p.take(lcp_len as int));
                assert forall|k: Seq<u8>| #[trigger] node.lookup(k) == (if starts_with(k, rem@) {
                    None
                } else {
                    n0.lookup(k)
                }) by {
                    lemma_dead(*node, k);
                    if !starts_with(k, rem@) {
                        if starts_with(k, p) {
                            assert(k.take(rem@.len() as int) =~= rem@);
                        }
                        lemma_off_prefix(n0, k);
                    }
                }
            }
            return (true, true);
        }
        if lcp_len < node.prefix().len() {
            proof {
                assert forall|k: Seq<u8>| #[trigger] node.lookup(k) == (if starts_with(k, rem@) {
                    None
                } else {
                    n0.lookup(k)
                }) by {
                    if starts_with(k, rem@) && starts_with(k, p) {
                        assert(k.take(rem@.len() as int)[lcp_len as int] == rem@[lcp_len as int]);
                        assert(k.take(p.len() as int)[lcp_len as int] == p[lcp_len as int]);
                    }
                    if starts_with(k, rem@) {
                        lemma_off_prefix(n0, k);
                    }
                }
            }
            return (false, false);
        }
        proof {
            assert(rem@.take(lcp_len as int) =~= p);
        }
        let rest = &rem[lcp_len..rem.len()];
        let next_pos = Node::<T>::child_pos_from_byte(rest[0]);
        let ghost b = rest@[0] as int;
        proof {
            assert(rem@[lcp_len as int] == rest@[0]);
            assert(rem@.skip(lcp_len as int) =~= rest@);
        }
        if node.child_exists(next_pos) {
            proof {
                n0.lemma_child_at(b);
            }
            let ghost r = self::bitmap::bm_rank(n0.spec_bitmap(), b) as int;
            let child = node.get_mut_child_by_pos(next_pos).unwrap();
            let (found, cont) = Self::remove_prefix_node(child, rest);
            let ghost n1 = *node;
            proof {
                let cf = n1.kids()[r];
                if compact(n0) {
                    assert(compact(n0.kids()[r]));
                }
                if compact(n0) && !cont {
                    assert forall|k: int| 0 <= k < n1.kids().len() implies compact(
                        #[trigger] n1.kids()[k],
                    ) by {
                        if k != r {
                            assert(n1.kids()[k] == n0.kids()[k]);
                        }
                    }
                    assert(n1.kids().len() == n0.kids().len());
                }
                assert forall|k: int| 0 <= k < n1.kids().len() implies #[trigger] n1.kids()[k].child_ok(
                    n1.spec_bitmap(),
                    k,
                ) by {
                    if k != r {
                        assert(n1.kids()[k] == n0.kids()[k]);
                        n0.lemma_child_first(k);
                    }
                }
                assert forall|k: int| 0 <= k < n1.kids().len() implies (#[trigger] n1.kids()[k]).wf() by {
                    if k != r {
                        assert(n1.kids()[k] == n0.kids()[k]);
                    }
                }
                n1.lemma_wf_fold();
                assert forall|k: Seq<u8>| #[trigger] n1.lookup(k) == (if starts_with(k, rem@) {
                    None
                } else {
                    n0.lookup(k)
                }) by {
                    lemma_replace_kid(n0, n1, r, cf, k);
                    if starts_with(k, p) && k.len() > p.len() && k[p.len() as int] as int == b {
                        lemma_route_some(n0, k, r);
                        lemma_skip_prefix(k, p, rem@);
                    } else if starts_with(k, rem@) {
                        assert(k.take(rem@.len() as int)[p.len() as int] == rem@[p.len() as int]);
                        assert(k.take(p.len() as int) =~= p) by {
                            assert forall|i: int| 0 <= i < p.len() implies k.take(
                                p.len() as int,
                            )[i] == p[i] by {
                                assert(k.take(rem@.len() as int)[i] == rem@[i]);
                                assert(rem@.take(p.len() as int)[i] == p[i]);
                            }
                        }
                    }
                }
            }
            if !found {
                return (false, false);
            }
            if !cont {
                return (true, false);
            }
            proof {
                assert(n1.spec_bitmap() == n0.spec_bitmap());
            }
            let merged = Self::compress_step(node, next_pos);
            proof {
                if compact(n0) {
                    let nf = *node;
                    let cf = n1.kids()[r];
                    let ks = kids_after_drop(n1, b);
                    assert(compact(cf) || holds_nothing(cf));
                    assert forall|k: int| 0 <= k < ks.len() implies compact(#[trigger] ks[k]) by {
                        if holds_nothing(cf) {
                            if k < r {
                                assert(ks[k] == n0.kids()[k]);
                            } else {
                                assert(ks[k] == n0.kids()[k + 1]);
                            }
                        } else {
                            if k != r {
                                assert(ks[k] == n0.kids()[k]);
                            }
                        }
                    }
                    if merged {
                        assert(compact(ks[0]));
                        assert forall|k: int| 0 <= k < nf.kids().len() implies compact(
                            #[trigger] nf.kids()[k],
                        ) by {
                            assert(nf.kids()[k] == ks[0].kids()[k]);
                        }
                    } else {
                        assert(nf.kids() == ks);
                        assert(n1.spec_val() == n0.spec_val());
                        if holds_nothing(cf) {
                            assert(ks.len() == n0.kids().len() - 1);
                        }
                    }
                    assert(compact(nf));
                }
            }
            (true, merged)
        } else {
            proof {
                assert forall|k: int| 0 <= k < n0.kids().len() implies #[trigger] n0.kids()[k].first()
                    != b by {
                    n0.lemma_child_first(k);
                }
                assert forall|k: Seq<u8>| #[trigger] node.lookup(k) == (if starts_with(k, rem@) {
                    None
                } else {
                    n0.lookup(k)
                }) by {
                    if starts_with(k, rem@) {
                        assert(k.take(rem@.len() as int)[p.len() as int] == rem@[p.len() as int]);
                        assert(k.take(p.len() as int) =~= p) by {
                            assert forall|i: int| 0 <= i < p.len() implies k.take(
                                p.len() as int,
                            )[i] == p[i] by {
                                assert(k.take(rem@.len() as int)[i] == rem@[i]);
                                assert(rem@.take(p.len() as int)[i] == p[i]);
                            }
                        }
                        lemma_route_none(n0, k);
                    }
                }
            }
            (false, false)
        }
    }

    /// Removes every value whose key begins with `prefix`. The empty prefix
    /// clears the trie.
    pub fn remove_prefix(&mut self, prefix: &[u8])
        requires
            old(self).wf(),
        ensures
            final(self).wf(),
            final(self)@ == old(self)@.remove_keys(Set::new(|k: Seq<u8>| starts_with(k, prefix@))),
            prefix@.len() == 0 ==> final(self).spec_is_empty(),
            old(self).spec_compact() ==> final(self).spec_compact(),
    {
        let ghost old_self = *self;
        if prefix.len() == 0 {
            self.root = None;
            proof {
                assert forall|k: Seq<u8>| starts_with(k, prefix@) by {
                    assert(k.take(0) =~= prefix@);
                }
                assert(self@ =~= old_self@.remove_keys(
                    Set::new(|k: Seq<u8>| starts_with(k, prefix@)),
                ));
            }
            return;
        }
        if self.root.is_none() {
            proof {
                assert(self@ =~= old_self@.remove_keys(
                    Set::new(|k: Seq<u8>| starts_with(k, prefix@)),
                ));
            }
            return;
        }
        let found = match &mut self.root {
            Some(root) => Self::remove_prefix_node(root, prefix).0,
            None => false,
        };
        if found {
            Self::compress_root(&mut self.root);
        }
        proof {
            assert forall|k: Seq<u8>| #[trigger] self.spec_get(k) == (if starts_with(k, prefix@) {
                None
            } else {
                old_self.spec_get(k)
            }) by {
                assert(root_lookup(self.root, k) == self.spec_get(k) || k.len() == 0);
            }
            assert(self@ =~= old_self@.remove_keys(
                Set::new(|k: Seq<u8>| starts_with(k, prefix@)),
            ));
        }
    }

    /// Returns the node a prefix ends at and the offset inside that node's
    /// prefix where the searched prefix ends.
    fn find_prefix_node(&self, key: &[u8]) -> (res: Option<(&Node<T>, usize)>)
        requires
            self.wf(),
        ensures
            self.root is None ==> res is None,
            self.root is Some && key@.len() == 0 ==> (res matches Some((n, off)) && *n
                == self.root->0 && off == 0),
            res is None ==> forall|k: Seq<u8>| starts_with(k, key@) ==> #[trigger] root_lookup(
                self.root,
                k,
            ) is None,
            self.root is Some && key@.len() > 0 ==> (res matches Some((n, off)) ==> prefix_node(
                self.root->0,
                key@,
            ) == Some((*n, off as int))) && (res is None ==> prefix_node(self.root->0, key@) is None),
            res matches Some((n, off)) ==> {
                &&& n.wf()
                &&& off <= n.spec_prefix().len()
                &&& forall|k: Seq<u8>|
                    starts_with(k, key@) ==> #[trigger] root_lookup(self.root, k) == n.lookup(
                        n.spec_prefix().take(off as int) + k.skip(key@.len() as int),
                    )
            },
    {
        if self.root.is_none() {
            return None;
        }
        let root = self.root.as_ref().unwrap();
        if key.len() == 0 {
            proof {
                assert forall|k: Seq<u8>| starts_with(k, key@) implies #[trigger] root_lookup(
                    self.root,
                    k,
                ) == root.lookup(root.spec_prefix().take(0) + k.skip(0)) by {
                    assert(root.spec_prefix().take(0) + k.skip(0) =~= k);
                }
            }
            return Some((root, 0));
        }
        let mut cur_node = root;
        let mut cur_data = key;
        proof {
            assert(key@.skip(0) =~= key@);
            assert forall|k: Seq<u8>| starts_with(k, key@) implies #[trigger] root_lookup(
                self.root,
                k,
            ) == root.lookup(k.skip(0)) by {
                assert(k.skip(0) =~= k);
            }
        }
        loop
            invariant
                cur_node.wf(),
                self.root == Some(*root),
                0 < cur_data@.len() <= key@.len(),
                cur_data@ == key@.skip(key@.len() - cur_data@.len()),
                prefix_node(*root, key@) == prefix_node(*cur_node, cur_data@),
                forall|k: Seq<u8>|
                    starts_with(k, key@) ==> #[trigger] root_lookup(self.root, k)
                        == cur_node.lookup(k.skip(key@.len() - cur_data@.len())),
            decreases 2 * cur_data@.len() + if cur_node.spec_prefix().len() == 0 {
                1int
            } else {
                0int
            },
        {
            let ghost n = *cur_node;
            let ghost consumed = key@.len() - cur_data@.len();
            proof {
                n.lemma_wf_unfold();
            }
            let lcp_len = lcp(cur_node.prefix().as_ref(), cur_data);
            proof {
                lemma_common_len(n.spec_prefix(), cur_data@, lcp_len as int);
            }
            if lcp_len == cur_data.len() {
                // prefix ends at this node. whole or in part
                proof {
                    assert forall|k: Seq<u8>| starts_with(k, key@) implies #[trigger] root_lookup(
                        self.root,
                        k,
                    ) == n.lookup(n.spec_prefix().take(lcp_len as int) + k.skip(key@.len() as int)) by {
                        assert(k.skip(consumed) =~= n.spec_prefix().take(lcp_len as int) + k.skip(
                            key@.len() as int,
                        )) by {
                            assert forall|i: int| 0 <= i < cur_data@.len() implies k.skip(
                                consumed,
                            )[i] == n.spec_prefix()[i] by {
                                assert(k.take(key@.len() as int)[consumed + i] == key@[consumed
                                    + i]);
                            }
                        }
                    }
                }
                return Some((cur_node, lcp_len));
            }
            if lcp_len < cur_node.prefix().len() {
                // mismatch before the whole prefix is consumed
                proof {
                    assert forall|k: Seq<u8>| starts_with(k, key@) implies #[trigger] root_lookup(
                        self.root,
                        k,
                    ) is None by {
                        let ks = k.skip(consumed);
                        assert(k.take(key@.len() as int)[consumed + lcp_len] == key@[consumed
                            + lcp_len]);
                        assert(ks[lcp_len as int] == cur_data@[lcp_len as int]);
                        if starts_with(ks, n.spec_prefix()) {
                            assert(ks.take(n.spec_prefix().len() as int)[lcp_len as int]
                                == n.spec_prefix()[lcp_len as int]);
                        }
                        lemma_off_prefix(n, ks);
                    }
                }
                return None;
            }
            // go down the tree
            let rest = &cur_data[lcp_len..cur_data.len()];
            let byte = rest[0];
            let child_pos = Node::<T>::child_pos_from_byte(byte);
            proof {
                assert(cur_data@.take(lcp_len as int) =~= n.spec_prefix());
                assert(cur_data@[lcp_len as int] == byte);
            }
            if cur_node.child_exists(child_pos) {
                proof {
                    n.lemma_child_at(byte as int);
                    let r = self::bitmap::bm_rank(n.spec_bitmap(), byte as int) as int;
                    assert forall|k: Seq<u8>| starts_with(k, key@) implies #[trigger] root_lookup(
                        self.root,
                        k,
                    ) == n.kids()[r].lookup(k.skip(consumed + lcp_len)) by {
                        let ks = k.skip(consumed);
                        assert(ks.take(lcp_len as int) =~= n.spec_prefix()) by {
                            assert forall|i: int| 0 <= i < lcp_len implies ks[i] == n.spec_prefix()[i] by {
                                assert(k.take(key@.len() as int)[consumed + i] == key@[consumed
                                    + i]);
                            }
                        }
                        assert(k.take(key@.len() as int)[consumed + lcp_len] == key@[consumed
                            + lcp_len]);
                        assert(ks[lcp_len as int] == byte);
                        lemma_route_some(n, ks, r);
                        assert(ks.skip(lcp_len as int) =~= k.skip(consumed + lcp_len));
                    }
                    assert(rest@ =~= key@.skip(consumed + lcp_len));
                    assert(rest@ =~= cur_data@.skip(lcp_len as int));
                    let kk = choose|k: int| 0 <= k < n.kids().len() && #[trigger] n.kids()[k].first()
                        == byte as int;
                    n.lemma_child_first(kk);
                }
                cur_node = cur_node.get_child_by_pos(child_pos).unwrap();
                cur_data = rest;
            } else {
                proof {
                    assert forall|j: int| 0 <= j < n.kids().len() implies #[trigger] n.kids()[j].first()
                        != byte as int by {
                        n.lemma_child_first(j);
                    }
                    assert forall|k: Seq<u8>| starts_with(k, key@) implies #[trigger] root_lookup(
                        self.root,
                        k,
                    ) is None by {
                        let ks = k.skip(consumed);
                        assert(ks.take(lcp_len as int) =~= n.spec_prefix()) by {
                            assert forall|i: int| 0 <= i < lcp_len implies ks[i] == n.spec_prefix()[i] by {
                                assert(k.take(key@.len() as int)[consumed + i] == key@[consumed
                                    + i]);
                            }
                        }
                        assert(k.take(key@.len() as int)[consumed + lcp_len] == key@[consumed
                            + lcp_len]);
                        lemma_route_none(n, ks);
                    }
                }
                return None;
            }
        }
    }

    /// Appends to `out` every value below `node` in depth-first order,
    /// with the chunks of its key: `chunks` followed by the prefixes of the
    /// nodes below `node`.
    fn collect<'trie>(
        node: &'trie Node<T>,
        chunks: &mut Vec<&'trie [u8]>,
        current_len: usize,
        out: &mut Vec<(Vec<&'trie [u8]>, usize, &'trie T)>,
    )
        requires
            node.wf(),
            current_len == clamp_len(concat_slices(slice_views(old(chunks)@)).len()),
            forall|i: int| 0 <= i < old(out)@.len() ==> #[trigger] entry_ok(old(out)@[i]),
        ensures
            final(chunks)@ == old(chunks)@,
            entries_view(final(out)@) == entries_view(old(out)@) + dfs_from(
                *node,
                concat_slices(slice_views(old(chunks)@)),
                -1,
            ),
            forall|i: int| 0 <= i < final(out)@.len() ==> #[trigger] entry_ok(final(out)@[i]),
        decreases node,
    {
        let ghost base = concat_slices(slice_views(chunks@));
        let ghost out0 = entries_view(out@);
        proof {
            node.lemma_wf_unfold();
            node.lemma_kids_decrease();
        }
        if let Some(value) = node.val() {
            let mut copy: Vec<&'trie [u8]> = Vec::new();
            let mut i: usize = 0;
            while i < chunks.len()
                invariant
                    i <= chunks@.len(),
                    copy@ == chunks@.take(ix(i)),
                decreases chunks@.len() - i,
            {
                copy.push(chunks[i]);
                i = i + 1;
                proof {
                    assert(copy@ =~= chunks@.take(ix(i)));
                }
            }
            proof {
                assert(copy@ =~= chunks@);
            }
            out.push((copy, current_len, value));
            proof {
                assert(entries_view(out@) =~= out0 + seq![(base, *value)]);
            }
        }
        let ghost own = entries_view(out@);
        proof {
            assert(own =~= out0 + match node.spec_val() {
                Some(v) => seq![(base, v)],
                None => Seq::<(Seq<u8>, T)>::empty(),
            });
        }
        let mut it = node.iter_children();
        let ghost kids = node.kids();
        proof {
            self::bitmap::lemma_rank_bound(node.spec_bitmap(), 256);
        }
        let mut j: usize = 0;
        while it.len() > 0
            invariant
                it.wf(),
                it@ == kids.skip(ix(j)),
                j <= kids.len(),
                kids.len() <= 256,
                kids == node.kids(),
                node.wf(),
                node.local_wf(),
                forall|k: int| 0 <= k < kids.len() ==> (#[trigger] kids[k]).wf(),
                forall|k: int| 0 <= k < kids.len() ==> decreases_to!(node => kids[k]),
                chunks@ == old(chunks)@,
                base == concat_slices(slice_views(chunks@)),
                current_len == clamp_len(base.len()),
                entries_view(out@) + dfs_from(*node, base, ix(j)) == own + dfs_from(
                    *node,
                    base,
                    0,
                ),
                forall|i: int| 0 <= i < out@.len() ==> #[trigger] entry_ok(out@[i]),
            decreases kids.len() - j,
        {
            let child = it.next().unwrap();
            proof {
                assert(kids.skip(ix(j))[0] == kids[ix(j)]);
                assert(it@ =~= kids.skip(j + 1));
            }
            let prefix = child.prefix().as_ref();
            let ghost before = entries_view(out@);
            chunks.push(prefix);
            proof {
                let sv = slice_views(chunks@);
                assert(sv.drop_last() =~= slice_views(old(chunks)@));
                assert(concat_slices(sv) == base + prefix@);
            }
            Self::collect(child, chunks, current_len.saturating_add(prefix.len()), out);
            chunks.pop();
            proof {
                assert(chunks@ =~= old(chunks)@);
                let a = dfs_from(kids[ix(j)], base + kids[ix(j)].spec_prefix(), -1);
                assert(dfs_from(*node, base, ix(j)) == a + dfs_from(*node, base, j + 1));
                assert(entries_view(out@) == before + a);
                assert(entries_view(out@) + dfs_from(*node, base, j + 1) =~= before + dfs_from(
                    *node,
                    base,
                    ix(j),
                ));
            }
            j = j + 1;
        }
        proof {
            assert(it@.len() == 0);
            assert(dfs_from(*node, base, ix(j)) =~= Seq::<(Seq<u8>, T)>::empty());
            assert(entries_view(out@) =~= own + dfs_from(*node, base, 0));
            assert(entries_view(out@) =~= out0 + dfs_from(*node, base, -1));
        }
    }

    /// The values whose key begins with `prefix`, in depth-first order, each
    /// with the chunks of the rest of its key and that rest's length.
    pub fn prefix_entries<'trie>(&'trie self, prefix: &[u8]) -> (out: Vec<
        (Vec<&'trie [u8]>, usize, &'trie T),
    >)
        requires
            self.wf(),
        ensures
            entries_view(out@) == self.spec_prefix_entries(prefix@),
            forall|i: int| 0 <= i < out@.len() ==> #[trigger] entry_ok(out@[i]),
    {
        let mut out: Vec<(Vec<&'trie [u8]>, usize, &'trie T)> = Vec::new();
        let found = self.find_prefix_node(prefix);
        match found {
            None => {
                proof {
                    assert(entries_view(out@) =~= Seq::<(Seq<u8>, T)>::empty());
                    if self.root is Some {
                        assert(prefix@.len() > 0);
                        assert(prefix_node(self.root->0, prefix@) is None);
                        assert(self.spec_prefix_entries(prefix@) =~= Seq::<(Seq<u8>, T)>::empty());
                    } else {
                        assert(self.spec_prefix_entries(prefix@) =~= Seq::<(Seq<u8>, T)>::empty());
                    }
                }
                out
            },
            Some((node, offset)) => {
                let mut chunks: Vec<&'trie [u8]> = Vec::new();
                let p = node.prefix().as_ref();
                let first = &p[offset..p.len()];
                let mut current_len: usize = 0;
                if first.len() != 0 {
                    chunks.push(first);
                    current_len = first.len();
                }
                proof {
                    let sv = slice_views(chunks@);
                    if first@.len() != 0 {
                        assert(sv.drop_last() =~= Seq::<Seq<u8>>::empty());
                        assert(concat_slices(sv.drop_last()) =~= Seq::<u8>::empty());
                        assert(concat_slices(sv) =~= first@);
                    } else {
                        assert(sv =~= Seq::<Seq<u8>>::empty());
                        assert(concat_slices(sv) =~= first@);
                    }
                    assert(first@ =~= node.spec_prefix().skip(ix(offset)));
                    assert(entries_view(out@) =~= Seq::<(Seq<u8>, T)>::empty());
                }
                Self::collect(node, &mut chunks, current_len, &mut out);
                proof {
                    assert(entries_view(out@) =~= Seq::<(Seq<u8>, T)>::empty() + dfs_from(
                        *node,
                        node.spec_prefix().skip(ix(offset)),
                        -1,
                    ));
                    if prefix@.len() == 0 {
                        assert(node.spec_prefix().skip(0) =~= node.spec_prefix());
                    }
                }
                out
            },
        }
    }

    /// The values whose key begins with `prefix`, in depth-first order, each
    /// with the rest of its key.
    pub closed spec fn spec_prefix_entries(self, prefix: Seq<u8>) -> Seq<(Seq<u8>, T)> {
        if self.root is None {
            Seq::empty()
        } else {
            let r = self.root->0;
            if prefix.len() == 0 {
                dfs_from(r, r.spec_prefix(), -1)
            } else {
                match prefix_node(r, prefix) {
                    Some((n, off)) => dfs_from(n, n.spec_prefix().skip(off), -1),
                    None => Seq::empty(),
                }
            }
        }
    }

    /// The walk `prefix_entries` hands out is exactly the part of the map
    /// under `prefix`: each entry is a stored key, `prefix` followed by the
    /// entry's rest of the key, with its value; no key comes twice; and
    /// every stored key that begins with `prefix` comes.
    pub proof fn lemma_prefix_entries_exact(self, prefix: Seq<u8>)
        requires
            self.wf(),
        ensures
            ({
                let es = self.spec_prefix_entries(prefix);
                &&& forall|j: int|
                    0 <= j < es.len() ==> self@.contains_key(prefix + #[trigger] es[j].0)
                        && self@[prefix + es[j].0] == es[j].1
                &&& distinct_keys(es)
                &&& forall|k: Seq<u8>|
                    #[trigger] self@.contains_key(k) && starts_with(k, prefix) ==> exists|j: int|
                        0 <= j < es.len() && #[trigger] es[j] == (k.skip(prefix.len() as int), self@[k])
                &&& sorted_keys(es)
                &&& forall|a: int, b: int|
                    0 <= a < b < es.len() ==> lex_lt(prefix + #[trigger] es[a].0, prefix + #[trigger] es[b].0)
            }),
    {
        let es = self.spec_prefix_entries(prefix);
        let e = Seq::<u8>::empty();
        self.lemma_prefix_entries_sorted(prefix);
        assert forall|a: int, b: int| 0 <= a < b < es.len() implies lex_lt(
            prefix + #[trigger] es[a].0,
            prefix + #[trigger] es[b].0,
        ) by {
            lemma_lex_prefix(prefix, es[a].0, es[b].0);
        }
        match self.root {
            None => {
                assert forall|k: Seq<u8>| !#[trigger] self@.contains_key(k) by {}
            },
            Some(r) => {
                let rp = r.spec_prefix();
                if prefix.len() == 0 {
                    lemma_dfs_shift(r, rp, -1);
                    lemma_dfs_exact(r, -1);
                    let w = walk(r);
                    assert(es == shifted(w, rp));
                    lemma_shifted_distinct(w, rp);
                    assert forall|j: int| 0 <= j < es.len() implies self@.contains_key(
                        prefix + #[trigger] es[j].0,
                    ) && self@[prefix + es[j].0] == es[j].1 by {
                        assert(prefix + es[j].0 =~= rp + w[j].0);
                        if (rp + w[j].0).len() == 0 {
                            assert(rp + w[j].0 =~= e);
                        }
                    }
                    assert forall|k: Seq<u8>|
                        #[trigger] self@.contains_key(k) && starts_with(k, prefix) implies exists|
                            j: int,
                        | 0 <= j < es.len() && #[trigger] es[j] == (
                            k.skip(prefix.len() as int),
                            self@[k],
                        ) by {
                        if !starts_with(k, rp) {
                            lemma_off_prefix(r, k);
                        }
                        let s = k.skip(rp.len() as int);
                        assert(k =~= rp + s);
                        assert(r.lookup(rp + s) is Some);
                        let j = choose|j: int|
                            0 <= j < w.len() && #[trigger] w[j] == (s, r.lookup(rp + s)->0);
                        assert(k.skip(0) =~= k);
                        assert(es[j] == (rp + s, r.lookup(rp + s)->0));
                    }
                } else {
                    lemma_prefix_node_lookup(r, prefix);
                    match prefix_node(r, prefix) {
                        None => {
                            assert forall|k: Seq<u8>|
                                #[trigger] self@.contains_key(k) implies !starts_with(k, prefix) by {
                                if starts_with(k, prefix) {
                                    let x = k.skip(prefix.len() as int);
                                    assert(k =~= prefix + x);
                                    assert(r.lookup(prefix + x) is None);
                                }
                            }
                        },
                        Some((n, off)) => {
                            let np = n.spec_prefix();
                            let tail = np.skip(off);
                            lemma_dfs_shift(n, tail, -1);
                            lemma_dfs_exact(n, -1);
                            let w = walk(n);
                            assert(es == shifted(w, tail));
                            lemma_shifted_distinct(w, tail);
                            assert(np.take(off) + tail =~= np);
                            assert forall|j: int| 0 <= j < es.len() implies self@.contains_key(
                                prefix + #[trigger] es[j].0,
                            ) && self@[prefix + es[j].0] == es[j].1 by {
                                let s = w[j].0;
                                assert(np.take(off) + (tail + s) =~= np + s);
                                assert(r.lookup(prefix + (tail + s)) == n.lookup(
                                    np.take(off) + (tail + s),
                                ));
                            }
                            assert forall|k: Seq<u8>|
                                #[trigger] self@.contains_key(k) && starts_with(k, prefix) implies exists|
                                    j: int,
                                | 0 <= j < es.len() && #[trigger] es[j] == (
                                    k.skip(prefix.len() as int),
                                    self@[k],
                                ) by {
                                let x = k.skip(prefix.len() as int);
                                assert(k =~= prefix + x);
                                assert(r.lookup(prefix + x) == n.lookup(np.take(off) + x));
                                let key = np.take(off) + x;
                                if !starts_with(key, np) {
                                    lemma_off_prefix(n, key);
                                }
                                let s = key.skip(np.len() as int);
                                assert(key =~= np + s);
                                assert(x =~= tail + s) by {
                                    assert forall|i: int| 0 <= i < x.len() implies x[i] == (tail
                                        + s)[i] by {
                                        assert(key[off + i] == x[i]);
                                        if i < tail.len() {
                                            assert(key.take(np.len() as int)[off + i] == np[off
                                                + i]);
                                        }
                                    }
                                }
                                assert(n.lookup(np + s) is Some);
                                let j = choose|j: int|
                                    0 <= j < w.len() && #[trigger] w[j] == (s, n.lookup(np + s)->0);
                                assert(es[j] == (tail + s, n.lookup(np + s)->0));
                            }
                        },
                    }
                }
            },
        }
    }

    /// The walk `prefix_entries` hands out comes in lexicographic order.
    proof fn lemma_prefix_entries_sorted(self, prefix: Seq<u8>)
        requires
            self.wf(),
        ensures
            sorted_keys(self.spec_prefix_entries(prefix)),
    {
        let es = self.spec_prefix_entries(prefix);
        if let Some(r) = self.root {
            if prefix.len() == 0 {
                lemma_dfs_shift(r, r.spec_prefix(), -1);
                lemma_dfs_sorted(r, -1);
                lemma_shifted_sorted(walk(r), r.spec_prefix());
            } else {
                lemma_prefix_node_lookup(r, prefix);
                if let Some((n, off)) = prefix_node(r, prefix) {
                    let tail = n.spec_prefix().skip(off);
                    lemma_dfs_shift(n, tail, -1);
                    lemma_dfs_sorted(n, -1);
                    lemma_shifted_sorted(walk(n), tail);
                }
            }
        }
    }

    /// Runs the given operation once for every value whose key begins with
    /// `prefix`, in the order of `prefix_entries`, handing it the rest of
    /// the key and the value.
    pub fn for_each_prefix<'trie, F>(&'trie self, prefix: &[u8], f: F)
        where
            F: FnMut(SuffixRef<'_, 'trie>, &'trie T),
        requires
            self.wf(),
            forall|s: SuffixRef, v: &T| f.requires((s, v)),
        ensures
            forall|j: int|
                0 <= j < self.spec_prefix_entries(prefix@).len() ==> handed(
                    f,
                    #[trigger] self.spec_prefix_entries(prefix@)[j],
                ),
    {
        let entries = self.prefix_entries(prefix);
        let ghost es = self.spec_prefix_entries(prefix@);
        let mut g = f;
        let mut i: usize = 0;
        while i < entries.len()
            invariant
                i <= entries@.len(),
                g == f,
                entries_view(entries@) == es,
                es == self.spec_prefix_entries(prefix@),
                forall|k: int| 0 <= k < entries@.len() ==> #[trigger] entry_ok(entries@[k]),
                forall|s: SuffixRef, v: &T| f.requires((s, v)),
                forall|j: int| 0 <= j < i ==> handed(f, #[trigger] es[j]),
            decreases entries@.len() - i,
        {
            let entry = &entries[i];
            let suffix = SuffixRef { chunks: entry.0.as_slice(), len: entry.1 };
            proof {
                assert(entry_ok(entries@[i as int]));
                assert(entry_view(entries@[i as int]) == es[i as int]);
            }
            g(suffix, entry.2);
            proof {
                assert(handed(f, es[i as int]));
            }
            i = i + 1;
        }
    }

    /// Whether a value is stored under `key`.
    pub fn contains(&self, key: &[u8]) -> (r: bool)
        requires
            self.wf(),
        ensures
            r == self@.contains_key(key@),
    {
        self.get(key).is_some()
    }
}

/// The value held under `key` by an optional root.
pub open spec fn root_lookup<T>(root: Option<Node<T>>, key: Seq<u8>) -> Option<T> {
    match root {
        Some(r) => r.lookup(key),
        None => None,
    }
}

/// A node that differs from `n0` only in its value holds what `n0` holds,
/// but under its prefix, and is as sound.
proof fn lemma_val_change_all<T>(n0: Node<T>)
    requires
        n0.wf(),
    ensures
        forall|nf: Node<T>, k: Seq<u8>|
            nf.spec_prefix() == n0.spec_prefix() && nf.spec_bitmap() == n0.spec_bitmap()
                && nf.kids() == n0.kids() ==> #[trigger] nf.lookup(k) == (if k == n0.spec_prefix() {
                nf.spec_val()
            } else {
                n0.lookup(k)
            }),
        forall|nf: Node<T>|
            nf.spec_prefix() == n0.spec_prefix() && nf.spec_bitmap() == n0.spec_bitmap()
                && nf.kids() == n0.kids() && nf.spec_is_leaf() == n0.spec_is_leaf()
                && nf.storage_ok() == n0.storage_ok() ==> #[trigger] nf.wf(),
{
    assert forall|nf: Node<T>, k: Seq<u8>|
        nf.spec_prefix() == n0.spec_prefix() && nf.spec_bitmap() == n0.spec_bitmap() && nf.kids()
            == n0.kids() implies #[trigger] nf.lookup(k) == (if k == n0.spec_prefix() {
        nf.spec_val()
    } else {
        n0.lookup(k)
    }) by {
        lemma_val_only(n0, nf, k);
    }
    assert forall|nf: Node<T>|
        nf.spec_prefix() == n0.spec_prefix() && nf.spec_bitmap() == n0.spec_bitmap() && nf.kids()
            == n0.kids() && nf.spec_is_leaf() == n0.spec_is_leaf() && nf.storage_ok()
            == n0.storage_ok() implies #[trigger] nf.wf() by {
        n0.lemma_wf_unfold();
        nf.lemma_wf_fold();
    }
}

/// A node that differs from `n0` only in the child at `r`, which keeps its
/// prefix and its soundness, holds what `n0` holds but for the keys that go
/// through that child, which are looked up in the new child; and it is as
/// sound.
proof fn lemma_kid_change_all<T>(n0: Node<T>, data: Seq<u8>, r: int)
    requires
        n0.wf(),
        0 <= r < n0.kids().len(),
        starts_with(data, n0.spec_prefix()),
        data.len() > n0.spec_prefix().len(),
        n0.kids()[r].first() == data[n0.spec_prefix().len() as int] as int,
    ensures
        forall|nf: Node<T>, k: Seq<u8>|
            nf.shell_eq(n0) && nf.kids() == n0.kids().update(r, nf.kids()[r]) && nf.kids()[r].spec_prefix()
                == n0.kids()[r].spec_prefix() ==> #[trigger] nf.lookup(k) == (if starts_with(
                k,
                n0.spec_prefix(),
            ) && k.len() > n0.spec_prefix().len() && k[n0.spec_prefix().len() as int] as int
                == n0.kids()[r].first() {
                nf.kids()[r].lookup(k.skip(n0.spec_prefix().len() as int))
            } else {
                n0.lookup(k)
            }),
        forall|nf: Node<T>|
            nf.shell_eq(n0) && nf.kids() == n0.kids().update(r, nf.kids()[r]) && nf.kids()[r].spec_prefix()
                == n0.kids()[r].spec_prefix() && nf.kids()[r].wf() ==> #[trigger] nf.wf(),
        forall|k: Seq<u8>|
            starts_with(k, n0.spec_prefix()) && k.len() > n0.spec_prefix().len() && k[n0.spec_prefix().len() as int] as int
                == n0.kids()[r].first() ==> #[trigger] n0.lookup(k) == n0.kids()[r].lookup(
                k.skip(n0.spec_prefix().len() as int),
            ) && (k.skip(n0.spec_prefix().len() as int) == data.skip(
                n0.spec_prefix().len() as int,
            ) <==> k == data),
        forall|k: Seq<u8>|
            !(starts_with(k, n0.spec_prefix()) && k.len() > n0.spec_prefix().len() && k[n0.spec_prefix().len() as int] as int
                == n0.kids()[r].first()) ==> #[trigger] n0.lookup(k) == n0.lookup(k) && k != data,
{
    let p = n0.spec_prefix();
    n0.lemma_wf_unfold();
    assert forall|nf: Node<T>|
        nf.shell_eq(n0) && nf.kids() == n0.kids().update(r, nf.kids()[r]) && nf.kids()[r].spec_prefix()
            == n0.kids()[r].spec_prefix() && nf.kids()[r].wf() implies #[trigger] nf.wf() by {
        assert forall|k: int| 0 <= k < nf.kids().len() implies #[trigger] nf.kids()[k].child_ok(
            nf.spec_bitmap(),
            k,
        ) by {
            n0.lemma_child_first(k);
        }
        assert forall|k: int| 0 <= k < nf.kids().len() implies (#[trigger] nf.kids()[k]).wf() by {
        }
        nf.lemma_wf_fold();
    }
    assert forall|nf: Node<T>, k: Seq<u8>|
        nf.shell_eq(n0) && nf.kids() == n0.kids().update(r, nf.kids()[r]) && nf.kids()[r].spec_prefix()
            == n0.kids()[r].spec_prefix() implies #[trigger] nf.lookup(k) == (if starts_with(
        k,
        p,
    ) && k.len() > p.len() && k[p.len() as int] as int == n0.kids()[r].first() {
        nf.kids()[r].lookup(k.skip(p.len() as int))
    } else {
        n0.lookup(k)
    }) by {
        assert forall|j: int| 0 <= j < nf.kids().len() implies #[trigger] nf.kids()[j].child_ok(
            nf.spec_bitmap(),
            j,
        ) by {
            n0.lemma_child_first(j);
        }
        n0.lemma_child_first(r);
        lemma_replace_kid(n0, nf, r, nf.kids()[r], k);
    }
    assert forall|k: Seq<u8>|
        starts_with(k, p) && k.len() > p.len() && k[p.len() as int] as int
            == n0.kids()[r].first() implies #[trigger] n0.lookup(k) == n0.kids()[r].lookup(
        k.skip(p.len() as int),
    ) && (k.skip(p.len() as int) == data.skip(p.len() as int) <==> k == data) by {
        lemma_route_some(n0, k, r);
        assert(data.take(p.len() as int) == p);
        lemma_skip_join(k, p, data, p.len() as int);
    }
    assert forall|k: Seq<u8>|
        !(starts_with(k, p) && k.len() > p.len() && k[p.len() as int] as int
            == n0.kids()[r].first()) implies #[trigger] n0.lookup(k) == n0.lookup(k) && k != data by {
    }
}

/// For a key that goes through the prefix `p` of a node, beginning with
/// `rem` (which goes on past `p`) is the same as its rest beginning with the
/// rest of `rem`.
proof fn lemma_skip_prefix(k: Seq<u8>, p: Seq<u8>, rem: Seq<u8>)
    requires
        starts_with(k, p),
        p.len() < rem.len(),
        rem.take(p.len() as int) == p,
    ensures
        starts_with(k.skip(p.len() as int), rem.skip(p.len() as int)) == starts_with(k, rem),
{
    let l = p.len() as int;
    let ks = k.skip(l);
    let rs = rem.skip(l);
    if starts_with(ks, rs) {
        assert(k.take(rem.len() as int) =~= rem) by {
            assert forall|i: int| 0 <= i < rem.len() implies k.take(rem.len() as int)[i]
                == rem[i] by {
                if i < l {
                    assert(k.take(l)[i] == p[i]);
                    assert(rem.take(l)[i] == p[i]);
                } else {
                    assert(ks.take(rs.len() as int)[i - l] == rs[i - l]);
                }
            }
        }
    }
    if starts_with(k, rem) {
        assert(ks.take(rs.len() as int) =~= rs) by {
            assert forall|i: int| 0 <= i < rs.len() implies ks.take(rs.len() as int)[i]
                == rs[i] by {
                assert(k.take(rem.len() as int)[i + l] == rem[i + l]);
            }
        }
    }
}

/// A length, or `usize::MAX` when it does not fit.
pub open spec fn clamp_len(n: nat) -> usize {
    if n <= usize::MAX {
        n as usize
    } else {
        usize::MAX
    }
}

/// The key and value of an entry handed out by `prefix_entries`.
pub open spec fn entry_view<T>(e: (Vec<&[u8]>, usize, &T)) -> (Seq<u8>, T) {
    (concat_slices(slice_views(e.0@)), *e.2)
}

/// The length recorded in an entry is the length of its key.
pub open spec fn entry_ok<T>(e: (Vec<&[u8]>, usize, &T)) -> bool {
    e.1 == clamp_len(concat_slices(slice_views(e.0@)).len())
}

pub open spec fn entries_view<T>(s: Seq<(Vec<&[u8]>, usize, &T)>) -> Seq<(Seq<u8>, T)> {
    Seq::new(s.len(), |i: int| entry_view(s[i]))
}

/// The values below `n` in depth-first order: its own value first, then
/// those below each child in order. Each key is `base` followed by the
/// prefixes of the nodes on the way down. With `i` at least 0, only the
/// children from `i` on are taken.
pub open spec fn dfs_from<T>(n: Node<T>, base: Seq<u8>, i: int) -> Seq<(Seq<u8>, T)>
    decreases n, n.kids().len() - i,
{
    if i == -1 {
        (match n.spec_val() {
            Some(v) => seq![(base, v)],
            None => Seq::empty(),
        }) + dfs_from(n, base, 0)
    } else if 0 <= i < n.kids().len() {
        proof {
            n.lemma_kids_decrease();
        }
        dfs_from(n.kids()[i], base + n.kids()[i].spec_prefix(), -1) + dfs_from(n, base, i + 1)
    } else {
        Seq::empty()
    }
}

/// The node where `key` ends, with the offset inside its prefix, if any,
/// following the nodes from `n`.
pub open spec fn prefix_node<T>(n: Node<T>, key: Seq<u8>) -> Option<(Node<T>, int)>
    decreases n,
{
    let p = n.spec_prefix();
    let l = common_len(p, key);
    if l == key.len() {
        Some((n, l))
    } else if l < p.len() {
        None
    } else {
        let b = key[l] as int;
        if exists|k: int| 0 <= k < n.kids().len() && #[trigger] n.kids()[k].first() == b {
            let k = choose|k: int| 0 <= k < n.kids().len() && #[trigger] n.kids()[k].first() == b;
            proof {
                n.lemma_kids_decrease();
            }
            prefix_node(n.kids()[k], key.skip(l))
        } else {
            None
        }
    }
}

proof fn lemma_common_len(a: Seq<u8>, b: Seq<u8>, n: int)
    requires
        is_lcp(a, b, n),
    ensures
        common_len(a, b) == n,
{
    let m = common_len(a, b);
    assert(is_lcp(a, b, m));
    if m < n {
        assert(a[m] == b[m]);
    } else if n < m {
        assert(a[n] == b[n]);
    }
}

/// Length of the longest common prefix.
pub open spec fn common_len(a: Seq<u8>, b: Seq<u8>) -> int {
    choose|n: int| is_lcp(a, b, n)
}

/// A node whose bitmap is empty: every byte has rank zero.
proof fn lemma_rank_zero_for<T>(n: Node<T>, b: int)
    requires
        n.local_wf(),
        n.kids().len() == 0,
        0 <= b < 256,
    ensures
        !bm_bit(n.spec_bitmap(), b),
        self::bitmap::bm_rank(n.spec_bitmap(), b) == 0,
{
    self::bitmap::lemma_rank_monotone(n.spec_bitmap(), b, 256);
}

/// A non-owning list of prefixes that make up a suffix.
pub struct SuffixRef<'buf, 'trie> {
    chunks: &'buf [&'trie [u8]],
    len: usize,
}

impl<'buf, 'trie> View for SuffixRef<'buf, 'trie> {
    type V = Seq<u8>;

    /// The bytes of the suffix, the chunks joined.
    closed spec fn view(&self) -> Seq<u8> {
        concat_slices(slice_views(self.chunks@))
    }
}

impl<'buf, 'trie> SuffixRef<'buf, 'trie> {
    pub closed spec fn spec_chunks(&self) -> Seq<&'trie [u8]> {
        self.chunks@
    }

    pub closed spec fn spec_len(&self) -> usize {
        self.len
    }

    /// The bytes of the suffix are its chunks joined.
    pub proof fn lemma_view(&self)
        ensures
            self@ == concat_slices(slice_views(self.spec_chunks())),
    {
    }

    /// The recorded length is the length of the suffix.
    pub open spec fn wf(&self) -> bool {
        self.spec_len() == clamp_len(self@.len())
    }

    /// Returns the chunks that make up the suffix.
    pub fn chunks(&self) -> (c: &'buf [&'trie [u8]])
        ensures
            c@ == self.spec_chunks(),
            slice_views(c@) == slice_views(self.spec_chunks()),
    {
        self.chunks
    }

    /// Returns the total number of bytes across all chunks.
    pub fn len(&self) -> (n: usize)
        ensures
            n == self.spec_len(),
    {
        self.len
    }

    pub fn is_empty(&self) -> (r: bool)
        ensures
            r == (self.spec_len() == 0),
    {
        self.len == 0
    }

    /// Copies the suffix into a vector.
    pub fn to_vec(&self) -> (out: Vec<u8>)
        ensures
            out@ == self@,
    {
        let mut out: Vec<u8> = Vec::new();
        let mut k: usize = 0;
        while k < self.chunks.len()
            invariant
                k <= self.chunks@.len(),
                out@ == concat_slices(slice_views(self.chunks@).take(ix(k))),
            decreases self.chunks@.len() - k,
        {
            let chunk: &[u8] = self.chunks[k];
            let ghost start = out@;
            let mut i: usize = 0;
            while i < chunk.len()
                invariant
                    i <= chunk@.len(),
                    out@ == start + chunk@.take(ix(i)),
                decreases chunk@.len() - i,
            {
                out.push(chunk[i]);
                i = i + 1;
                proof {
                    assert(out@ =~= start + chunk@.take(ix(i)));
                }
            }
            proof {
                assert(chunk@.take(nx(chunk@.len())) =~= chunk@);
                let sv = slice_views(self.chunks@);
                assert(sv.take(k + 1).drop_last() =~= sv.take(ix(k)));
                assert(sv.take(k + 1).last() == chunk@);
            }
            k = k + 1;
        }
        proof {
            assert(slice_views(self.chunks@).take(nx(self.chunks@.len())) =~= slice_views(
                self.chunks@,
            ));
        }
        out
    }
}

impl<T> View for TrieMap<T> {
    type V = Map<Seq<u8>, T>;

    open spec fn view(&self) -> Map<Seq<u8>, T> {
        Map::new(|k: Seq<u8>| self.spec_get(k) is Some, |k: Seq<u8>| self.spec_get(k)->0)
    }
}

} // verus!

//! How the structural steps of the trie operations act on lookups.
use super::bitmap::bm_bit;
use super::node::{starts_with, Node};
use vstd::prelude::*;

verus! {

/// A key that goes on past the prefix of `n` is looked up in the child
/// whose first byte is the next byte of the key.
pub proof fn lemma_route_some<T>(n: Node<T>, key: Seq<u8>, k: int)
    requires
        n.local_wf(),
        starts_with(key, n.spec_prefix()),
        key.len() > n.spec_prefix().len(),
        0 <= k < n.kids().len(),
        n.kids()[k].first() == key[n.spec_prefix().len() as int] as int,
    ensures
        n.lookup(key) == n.kids()[k].lookup(key.skip(n.spec_prefix().len() as int)),
{
    let b = key[n.spec_prefix().len() as int] as int;
    n.lemma_lookup_unfold(key);
    n.lemma_child_first(k);
    n.lemma_child_at(b);
}

/// A key that goes on past the prefix of `n` with a byte that starts no
/// child is absent.
pub proof fn lemma_route_none<T>(n: Node<T>, key: Seq<u8>)
    requires
        n.local_wf(),
        starts_with(key, n.spec_prefix()),
        key.len() > n.spec_prefix().len(),
        forall|k: int|
            0 <= k < n.kids().len() ==> #[trigger] n.kids()[k].first() != key[n.spec_prefix().len() as int] as int,
    ensures
        n.lookup(key) is None,
{
    let b = key[n.spec_prefix().len() as int] as int;
    n.lemma_lookup_unfold(key);
    if bm_bit(n.spec_bitmap(), b) {
        n.lemma_child_at(b);
    }
}

/// A key shorter than the prefix, or that departs from it, is absent.
pub proof fn lemma_off_prefix<T>(n: Node<T>, key: Seq<u8>)
    requires
        !starts_with(key, n.spec_prefix()),
    ensures
        n.lookup(key) is None,
{
    n.lemma_lookup_unfold(key);
}

/// A key equal to the prefix finds the node's own value.
pub proof fn lemma_at_prefix<T>(n: Node<T>)
    ensures
        n.lookup(n.spec_prefix()) == n.spec_val(),
{
    assert(n.spec_prefix().take(n.spec_prefix().len() as int) =~= n.spec_prefix());
    n.lemma_lookup_unfold(n.spec_prefix());
}

/// A node without value and without children holds nothing.
pub proof fn lemma_dead<T>(n: Node<T>, key: Seq<u8>)
    requires
        n.local_wf(),
        n.spec_val() is None,
        n.kids().len() == 0,
    ensures
        n.lookup(key) is None,
{
    n.lemma_lookup_unfold(key);
    if starts_with(key, n.spec_prefix()) && key.len() > n.spec_prefix().len() {
        lemma_route_none(n, key);
    }
}

/// A node without children holds its value under its prefix and nothing
/// else.
pub proof fn lemma_childless<T>(n: Node<T>, key: Seq<u8>)
    requires
        n.local_wf(),
        n.kids().len() == 0,
    ensures
        n.lookup(key) == (if key == n.spec_prefix() {
            n.spec_val()
        } else {
            None
        }),
{
    n.lemma_lookup_unfold(key);
    if key == n.spec_prefix() {
        assert(key.take(key.len() as int) =~= key);
    }
    if starts_with(key, n.spec_prefix()) {
        if key.len() > n.spec_prefix().len() {
            lemma_route_none(n, key);
        } else {
            assert(key =~= n.spec_prefix());
        }
    }
}

/// Two nodes that differ only in their value agree on every key but their
/// prefix.
pub proof fn lemma_val_only<T>(a: Node<T>, b: Node<T>, key: Seq<u8>)
    requires
        a.spec_prefix() == b.spec_prefix(),
        a.spec_bitmap() == b.spec_bitmap(),
        a.kids() == b.kids(),
    ensures
        key != a.spec_prefix() ==> a.lookup(key) == b.lookup(key),
        key == a.spec_prefix() ==> a.lookup(key) == a.spec_val() && b.lookup(key) == b.spec_val(),
{
    a.lemma_lookup_unfold(key);
    b.lemma_lookup_unfold(key);
    if starts_with(key, a.spec_prefix()) && key.len() == a.spec_prefix().len() {
        assert(key =~= a.spec_prefix());
    }
    if key == a.spec_prefix() {
        lemma_at_prefix(a);
        lemma_at_prefix(b);
    }
}

/// Dropping the first `d` bytes of the prefix: `b` holds, under a key with
/// those bytes removed, what `a` holds under the key.
pub proof fn lemma_strip<T>(a: Node<T>, b: Node<T>, d: int, key: Seq<u8>)
    requires
        0 <= d <= a.spec_prefix().len(),
        b.spec_prefix() == a.spec_prefix().skip(d),
        b.spec_val() == a.spec_val(),
        b.spec_bitmap() == a.spec_bitmap(),
        b.kids() == a.kids(),
        d <= key.len(),
        key.take(d) == a.spec_prefix().take(d),
    ensures
        b.lookup(key.skip(d)) == a.lookup(key),
{
    let pa = a.spec_prefix();
    let pb = b.spec_prefix();
    let kb = key.skip(d);
    a.lemma_lookup_unfold(key);
    b.lemma_lookup_unfold(kb);
    if starts_with(key, pa) {
        assert(kb.take(pb.len() as int) =~= pb) by {
            assert forall|i: int| 0 <= i < pb.len() implies kb[i] == pb[i] by {
                assert(key.take(pa.len() as int)[i + d] == pa[i + d]);
            }
        }
        if key.len() > pa.len() {
            assert(kb[pb.len() as int] == key[pa.len() as int]);
            assert(kb.skip(pb.len() as int) =~= key.skip(pa.len() as int));
        }
    } else if starts_with(kb, pb) {
        assert(key.take(pa.len() as int) =~= pa) by {
            assert forall|i: int| 0 <= i < pa.len() implies key[i] == pa[i] by {
                if i < d {
                    assert(key.take(d)[i] == pa.take(d)[i]);
                } else {
                    assert(kb.take(pb.len() as int)[i - d] == pb[i - d]);
                }
            }
        }
    }
}

/// As `lemma_strip`, for two nodes without children.
pub proof fn lemma_strip_childless<T>(a: Node<T>, b: Node<T>, d: int, key: Seq<u8>)
    requires
        a.local_wf(),
        b.local_wf(),
        a.kids().len() == 0,
        b.kids().len() == 0,
        0 <= d <= a.spec_prefix().len(),
        b.spec_prefix() == a.spec_prefix().skip(d),
        b.spec_val() == a.spec_val(),
        d <= key.len(),
        key.take(d) == a.spec_prefix().take(d),
    ensures
        b.lookup(key.skip(d)) == a.lookup(key),
{
    let pa = a.spec_prefix();
    lemma_childless(a, key);
    lemma_childless(b, key.skip(d));
    if key.skip(d) == b.spec_prefix() {
        assert(key =~= pa) by {
            assert(key.skip(d).len() == key.len() - d);
            assert(pa.skip(d).len() == pa.len() - d);
            assert(key.len() == pa.len());
            assert forall|i: int| 0 <= i < key.len() implies key[i] == pa[i] by {
                if i < d {
                    assert(key.take(d)[i] == pa.take(d)[i]);
                } else {
                    assert(key.skip(d)[i - d] == pa.skip(d)[i - d]);
                }
            }
        }
    }
    if key == pa {
        assert(key.skip(d) =~= b.spec_prefix());
    }
}

/// A node without value whose only child is `c` holds what a node with the
/// two prefixes joined and the contents of `c` holds.
pub proof fn lemma_merge<T>(p: Node<T>, m: Node<T>, key: Seq<u8>)
    requires
        p.local_wf(),
        p.spec_val() is None,
        p.kids().len() == 1,
        m.spec_prefix() == p.spec_prefix() + p.kids()[0].spec_prefix(),
        m.spec_val() == p.kids()[0].spec_val(),
        (m.spec_bitmap() == p.kids()[0].spec_bitmap() && m.kids() == p.kids()[0].kids()) || (
        m.local_wf() && p.kids()[0].local_wf() && m.kids().len() == 0 && p.kids()[0].kids().len()
            == 0),
    ensures
        m.lookup(key) == p.lookup(key),
{
    let c = p.kids()[0];
    let pp = p.spec_prefix();
    let mp = m.spec_prefix();
    p.lemma_child_first(0);
    p.lemma_lookup_unfold(key);
    m.lemma_lookup_unfold(key);
    if starts_with(key, pp) {
        if key.len() == pp.len() {
        } else {
            if key[pp.len() as int] as int == c.first() {
                lemma_route_some(p, key, 0);
                assert(c.spec_prefix() =~= mp.skip(pp.len() as int));
                assert(key.take(pp.len() as int) =~= mp.take(pp.len() as int));
                if m.spec_bitmap() == c.spec_bitmap() && m.kids() == c.kids() {
                    lemma_strip(m, c, pp.len() as int, key);
                } else {
                    lemma_strip_childless(m, c, pp.len() as int, key);
                }
            } else {
                lemma_route_none(p, key);
                assert(mp[pp.len() as int] == c.spec_prefix()[0]);
                if starts_with(key, mp) {
                    assert(key.take(mp.len() as int)[pp.len() as int] == mp[pp.len() as int]);
                }
            }
        }
    } else {
        if starts_with(key, mp) {
            assert(key.take(pp.len() as int) =~= pp) by {
                assert forall|i: int| 0 <= i < pp.len() implies key[i] == pp[i] by {
                    assert(key.take(mp.len() as int)[i] == mp[i]);
                }
            }
        }
    }
}

/// Splitting the prefix of `n` at `l`: a node `s` with the rest of the
/// prefix and the contents of `n`, under a node `t` with the first `l` bytes
/// of the prefix, no value and `s` as its only child, holds what `n` holds.
pub proof fn lemma_split<T>(n: Node<T>, s: Node<T>, t: Node<T>, l: int, key: Seq<u8>)
    requires
        0 <= l < n.spec_prefix().len(),
        s.spec_prefix() == n.spec_prefix().skip(l),
        s.spec_val() == n.spec_val(),
        s.spec_bitmap() == n.spec_bitmap(),
        s.kids() == n.kids(),
        t.local_wf(),
        t.spec_prefix() == n.spec_prefix().take(l),
        t.spec_val() is None,
        t.kids() == seq![s],
    ensures
        t.lookup(key) == n.lookup(key),
{
    let p = n.spec_prefix();
    let tp = t.spec_prefix();
    t.lemma_lookup_unfold(key);
    n.lemma_lookup_unfold(key);
    t.lemma_child_first(0);
    if starts_with(key, tp) {
        if key.len() == tp.len() {
        } else if key[l] == p[l] {
            assert(t.kids()[0].first() == key[l] as int);
            lemma_route_some(t, key, 0);
            assert(key.take(l) =~= p.take(l));
            lemma_strip(n, s, l, key);
        } else {
            lemma_route_none(t, key);
            if starts_with(key, p) {
                assert(key.take(p.len() as int)[l] == p[l]);
            }
        }
    } else {
        if starts_with(key, p) {
            assert(key.take(tp.len() as int) =~= tp) by {
                assert forall|i: int| 0 <= i < tp.len() implies key[i] == tp[i] by {
                    assert(key.take(p.len() as int)[i] == p[i]);
                }
            }
        }
    }
}

/// Replacing the child at `r` by `c` changes only the keys that go through
/// that child, and those are looked up in `c`.
pub proof fn lemma_replace_kid<T>(a: Node<T>, b: Node<T>, r: int, c: Node<T>, key: Seq<u8>)
    requires
        a.local_wf(),
        b.local_wf(),
        a.shell_eq(b),
        0 <= r < a.kids().len(),
        b.kids() == a.kids().update(r, c),
        c.spec_prefix().len() > 0,
        c.first() == a.kids()[r].first(),
    ensures
        b.lookup(key) == (if starts_with(key, a.spec_prefix()) && key.len() > a.spec_prefix().len()
            && key[a.spec_prefix().len() as int] as int == c.first() {
            c.lookup(key.skip(a.spec_prefix().len() as int))
        } else {
            a.lookup(key)
        }),
{
    let p = a.spec_prefix();
    a.lemma_lookup_unfold(key);
    b.lemma_lookup_unfold(key);
    if starts_with(key, p) && key.len() > p.len() {
        let x = key[p.len() as int] as int;
        if x == c.first() {
            lemma_route_some(b, key, r);
        } else if exists|j: int| 0 <= j < a.kids().len() && #[trigger] a.kids()[j].first() == x {
            let j = choose|j: int| 0 <= j < a.kids().len() && #[trigger] a.kids()[j].first() == x;
            lemma_route_some(a, key, j);
            lemma_route_some(b, key, j);
        } else {
            lemma_route_none(a, key);
            assert forall|k: int| 0 <= k < b.kids().len() implies #[trigger] b.kids()[k].first()
                != x by {
                if k != r {
                    assert(b.kids()[k] == a.kids()[k]);
                }
            }
            lemma_route_none(b, key);
        }
    }
}

/// Inserting a child `c` whose first byte starts no child changes only the
/// keys that go through `c`, and those are looked up in `c`.
pub proof fn lemma_insert_kid<T>(a: Node<T>, b: Node<T>, r: int, c: Node<T>, key: Seq<u8>)
    requires
        a.local_wf(),
        b.local_wf(),
        b.spec_prefix() == a.spec_prefix(),
        b.spec_val() == a.spec_val(),
        0 <= r <= a.kids().len(),
        b.kids() == a.kids().insert(r, c),
        c.spec_prefix().len() > 0,
        forall|k: int| 0 <= k < a.kids().len() ==> #[trigger] a.kids()[k].first() != c.first(),
    ensures
        b.lookup(key) == (if starts_with(key, a.spec_prefix()) && key.len() > a.spec_prefix().len()
            && key[a.spec_prefix().len() as int] as int == c.first() {
            c.lookup(key.skip(a.spec_prefix().len() as int))
        } else {
            a.lookup(key)
        }),
{
    let p = a.spec_prefix();
    a.lemma_lookup_unfold(key);
    b.lemma_lookup_unfold(key);
    if starts_with(key, p) && key.len() > p.len() {
        let x = key[p.len() as int] as int;
        if x == c.first() {
            lemma_route_some(b, key, r);
            lemma_route_none(a, key);
        } else if exists|j: int| 0 <= j < a.kids().len() && #[trigger] a.kids()[j].first() == x {
            let j = choose|j: int| 0 <= j < a.kids().len() && #[trigger] a.kids()[j].first() == x;
            lemma_route_some(a, key, j);
            if j < r {
                lemma_route_some(b, key, j);
            } else {
                lemma_route_some(b, key, j + 1);
            }
        } else {
            lemma_route_none(a, key);
            assert forall|k: int| 0 <= k < b.kids().len() implies #[trigger] b.kids()[k].first()
                != x by {
                if k < r {
                    assert(b.kids()[k] == a.kids()[k]);
                } else if k > r {
                    assert(b.kids()[k] == a.kids()[k - 1]);
                }
            }
            lemma_route_none(b, key);
        }
    }
}

/// Removing a child that holds nothing changes no key.
pub proof fn lemma_remove_dead_kid<T>(a: Node<T>, b: Node<T>, r: int, key: Seq<u8>)
    requires
        a.local_wf(),
        b.local_wf(),
        b.spec_prefix() == a.spec_prefix(),
        b.spec_val() == a.spec_val(),
        0 <= r < a.kids().len(),
        b.kids() == a.kids().remove(r),
        forall|k: Seq<u8>| (#[trigger] a.kids()[r].lookup(k)) is None,
    ensures
        b.lookup(key) == a.lookup(key),
{
    let p = a.spec_prefix();
    a.lemma_lookup_unfold(key);
    b.lemma_lookup_unfold(key);
    if starts_with(key, p) && key.len() > p.len() {
        let x = key[p.len() as int] as int;
        if exists|j: int| 0 <= j < a.kids().len() && #[trigger] a.kids()[j].first() == x {
            let j = choose|j: int| 0 <= j < a.kids().len() && #[trigger] a.kids()[j].first() == x;
            lemma_route_some(a, key, j);
            if j < r {
                lemma_route_some(b, key, j);
            } else if j > r {
                lemma_route_some(b, key, j - 1);
            } else {
                assert(a.kids()[r].lookup(key.skip(p.len() as int)) is None);
                assert forall|k: int| 0 <= k < b.kids().len() implies #[trigger] b.kids()[k].first()
                    != x by {
                    a.lemma_child_first(j);
                    if k < r {
                        a.lemma_child_first(k);
                        assert(b.kids()[k] == a.kids()[k]);
                    } else {
                        a.lemma_child_first(k + 1);
                        assert(b.kids()[k] == a.kids()[k + 1]);
                    }
                }
                lemma_route_none(b, key);
            }
        } else {
            lemma_route_none(a, key);
            assert forall|k: int| 0 <= k < b.kids().len() implies #[trigger] b.kids()[k].first()
                != x by {
                if k < r {
                    assert(b.kids()[k] == a.kids()[k]);
                } else {
                    assert(b.kids()[k] == a.kids()[k + 1]);
                }
            }
            lemma_route_none(b, key);
        }
    }
}

} // verus!

//! What the depth-first walk below a node hands out: each value stored
//! below it exactly once, with the rest of its key.
use super::lemmas::{lemma_at_prefix, lemma_off_prefix, lemma_route_none, lemma_route_some};
use super::node::{starts_with, Node};
use super::util::is_lcp;
use super::{common_len, dfs_from, prefix_node};
use vstd::prelude::*;

verus! {

/// The entries with `base` put before each key.
pub open spec fn shifted<T>(es: Seq<(Seq<u8>, T)>, base: Seq<u8>) -> Seq<(Seq<u8>, T)> {
    Seq::new(es.len(), |j: int| (base + es[j].0, es[j].1))
}

/// The walk below `n`, keys taken from the end of its prefix on.
pub open spec fn walk<T>(n: Node<T>) -> Seq<(Seq<u8>, T)> {
    dfs_from(n, Seq::empty(), -1)
}

/// The keys of `es` are pairwise different.
pub open spec fn distinct_keys<T>(es: Seq<(Seq<u8>, T)>) -> bool {
    forall|a: int, b: int| 0 <= a < b < es.len() ==> es[a].0 != es[b].0
}

/// The walk of `n` from child `i` on, each key in it preceded by `base`.
pub proof fn lemma_dfs_shift<T>(n: Node<T>, base: Seq<u8>, i: int)
    requires
        -1 <= i,
    ensures
        dfs_from(n, base, i) == shifted(dfs_from(n, Seq::empty(), i), base),
    decreases n, n.kids().len() - i,
{
    let e = Seq::<u8>::empty();
    if i == -1 {
        lemma_dfs_shift(n, base, 0);
        let own_b: Seq<(Seq<u8>, T)> = match n.spec_val() {
            Some(v) => seq![(base, v)],
            None => Seq::empty(),
        };
        let own_e: Seq<(Seq<u8>, T)> = match n.spec_val() {
            Some(v) => seq![(e, v)],
            None => Seq::empty(),
        };
        assert(base + e =~= base);
        assert(own_b =~= shifted(own_e, base));
        let rest = dfs_from(n, e, 0);
        assert(shifted(own_e + rest, base) =~= shifted(own_e, base) + shifted(rest, base));
    } else if i < n.kids().len() {
        n.lemma_kids_decrease();
        let kid = n.kids()[i];
        let kp = kid.spec_prefix();
        lemma_dfs_shift(kid, base + kp, -1);
        lemma_dfs_shift(kid, e + kp, -1);
        lemma_dfs_shift(n, base, i + 1);
        let w = dfs_from(kid, e, -1);
        let rest = dfs_from(n, e, i + 1);
        assert(e + kp =~= kp);
        assert(shifted(shifted(w, kp), base) =~= shifted(w, base + kp)) by {
            assert forall|j: int| 0 <= j < w.len() implies base + (kp + w[j].0) =~= (base + kp)
                + w[j].0 by {}
        }
        assert(shifted(shifted(w, kp) + rest, base) =~= shifted(shifted(w, kp), base) + shifted(
            rest,
            base,
        ));
    } else {
        assert(shifted(Seq::<(Seq<u8>, T)>::empty(), base) =~= Seq::<(Seq<u8>, T)>::empty());
    }
}

/// The walk of a sound node from child `i` on (from its own value on, for
/// `i == -1`): every entry is a stored key and value, no key comes twice,
/// and every stored key below the children from `i` on is there.
pub proof fn lemma_dfs_exact<T>(n: Node<T>, i: int)
    requires
        n.wf(),
        -1 <= i <= n.kids().len(),
    ensures
        ({
            let es = dfs_from(n, Seq::empty(), i);
            &&& forall|j: int|
                0 <= j < es.len() ==> n.lookup(n.spec_prefix() + es[j].0) == Some(
                    #[trigger] es[j].1,
                )
            &&& i >= 0 ==> forall|j: int|
                0 <= j < es.len() ==> (#[trigger] es[j]).0.len() > 0 && exists|k: int|
                    i <= k < n.kids().len() && es[j].0[0] as int == #[trigger] n.kids()[k].first()
            &&& distinct_keys(es)
            &&& forall|s: Seq<u8>|
                #![trigger n.lookup(n.spec_prefix() + s)]
                n.lookup(n.spec_prefix() + s) is Some && (i == -1 || (s.len() > 0 && exists|k: int|
                    i <= k < n.kids().len() && s[0] as int == #[trigger] n.kids()[k].first()))
                    ==> exists|j: int|
                    0 <= j < es.len() && #[trigger] es[j] == (s, n.lookup(n.spec_prefix() + s)->0)
        }),
    decreases n, n.kids().len() - i,
{
    let e = Seq::<u8>::empty();
    let np = n.spec_prefix();
    n.lemma_wf_unfold();
    n.lemma_kids_decrease();
    let es = dfs_from(n, e, i);
    if i == -1 {
        lemma_dfs_exact(n, 0);
        let rest = dfs_from(n, e, 0);
        let own: Seq<(Seq<u8>, T)> = match n.spec_val() {
            Some(v) => seq![(e, v)],
            None => Seq::empty(),
        };
        assert(es == own + rest);
        assert(np + e =~= np);
        lemma_at_prefix(n);
        assert forall|j: int| 0 <= j < es.len() implies n.lookup(np + es[j].0) == Some(
            #[trigger] es[j].1,
        ) by {
            if j >= own.len() {
                assert(es[j] == rest[j - own.len()]);
            }
        }
        assert forall|a: int, b: int| 0 <= a < b < es.len() implies es[a].0 != es[b].0 by {
            if a >= own.len() {
                assert(es[a] == rest[a - own.len()]);
                assert(es[b] == rest[b - own.len()]);
            } else {
                assert(es[b] == rest[b - own.len()]);
                assert(rest[b - own.len()].0.len() > 0);
            }
        }
        assert forall|s: Seq<u8>|
            #![trigger n.lookup(np + s)]
            n.lookup(np + s) is Some implies exists|j: int|
                0 <= j < es.len() && #[trigger] es[j] == (s, n.lookup(np + s)->0) by {
            if s.len() == 0 {
                assert(s =~= e);
                assert(es[0] == own[0]);
            } else {
                let key = np + s;
                assert(key.take(np.len() as int) =~= np);
                assert(key[np.len() as int] == s[0]);
                let b = s[0] as int;
                if exists|k: int| 0 <= k < n.kids().len() && #[trigger] n.kids()[k].first() == b {
                    let k = choose|k: int|
                        0 <= k < n.kids().len() && #[trigger] n.kids()[k].first() == b;
                    assert(n.lookup(np + s) is Some);
                    let j = choose|j: int|
                        0 <= j < rest.len() && #[trigger] rest[j] == (s, n.lookup(np + s)->0);
                    assert(es[j + own.len()] == rest[j]);
                } else {
                    lemma_route_none(n, key);
                }
            }
        }
    } else if i < n.kids().len() {
        let kid = n.kids()[i];
        let kp = kid.spec_prefix();
        lemma_dfs_exact(kid, -1);
        lemma_dfs_exact(n, i + 1);
        lemma_dfs_shift(kid, kp, -1);
        n.lemma_child_first(i);
        let w = walk(kid);
        let front = shifted(w, kp);
        let rest = dfs_from(n, e, i + 1);
        assert(e + kp =~= kp);
        assert(es == front + rest);
        // a key below the child is routed to it
        assert forall|s2: Seq<u8>| #[trigger] n.lookup(np + (kp + s2)) == kid.lookup(kp + s2) by {
            let key = np + (kp + s2);
            assert(key.take(np.len() as int) =~= np);
            assert(key[np.len() as int] == kp[0]);
            assert(key.skip(np.len() as int) =~= kp + s2);
            lemma_route_some(n, key, i);
        }
        assert forall|j: int| 0 <= j < es.len() implies n.lookup(np + es[j].0) == Some(
            #[trigger] es[j].1,
        ) by {
            if j < front.len() {
                assert(es[j] == front[j]);
                assert(n.lookup(np + (kp + w[j].0)) == kid.lookup(kp + w[j].0));
            } else {
                assert(es[j] == rest[j - front.len()]);
            }
        }
        assert forall|j: int| 0 <= j < es.len() implies (#[trigger] es[j]).0.len() > 0 && exists|
            k: int,
        | i <= k < n.kids().len() && es[j].0[0] as int == #[trigger] n.kids()[k].first() by {
            if j < front.len() {
                assert(es[j] == front[j]);
                assert((kp + w[j].0)[0] == kp[0]);
            } else {
                assert(es[j] == rest[j - front.len()]);
                let k = choose|k: int|
                    i + 1 <= k < n.kids().len() && rest[j - front.len()].0[0] as int
                        == #[trigger] n.kids()[k].first();
            }
        }
        assert forall|a: int, b: int| 0 <= a < b < es.len() implies es[a].0 != es[b].0 by {
            if b < front.len() {
                assert(es[a] == front[a] && es[b] == front[b]);
                if kp + w[a].0 == kp + w[b].0 {
                    assert(w[a].0 =~= (kp + w[a].0).skip(kp.len() as int));
                    assert(w[b].0 =~= (kp + w[b].0).skip(kp.len() as int));
                }
            } else if a >= front.len() {
                assert(es[a] == rest[a - front.len()] && es[b] == rest[b - front.len()]);
            } else {
                assert(es[a] == front[a] && es[b] == rest[b - front.len()]);
                assert((kp + w[a].0)[0] == kp[0]);
                let k = choose|k: int|
                    i + 1 <= k < n.kids().len() && rest[b - front.len()].0[0] as int
                        == #[trigger] n.kids()[k].first();
                n.lemma_child_first(k);
            }
        }
        assert forall|s: Seq<u8>|
            #![trigger n.lookup(np + s)]
            n.lookup(np + s) is Some && (s.len() > 0 && exists|k: int|
                i <= k < n.kids().len() && s[0] as int == #[trigger] n.kids()[k].first())
                implies exists|j: int|
                0 <= j < es.len() && #[trigger] es[j] == (s, n.lookup(np + s)->0) by {
            let k = choose|k: int|
                i <= k < n.kids().len() && s[0] as int == #[trigger] n.kids()[k].first();
            if k == i {
                let key = np + s;
                assert(key.take(np.len() as int) =~= np);
                assert(key[np.len() as int] == s[0]);
                assert(key.skip(np.len() as int) =~= s);
                lemma_route_some(n, key, i);
                if !starts_with(s, kp) {
                    lemma_off_prefix(kid, s);
                }
                let s2 = s.skip(kp.len() as int);
                assert(s =~= kp + s2);
                assert(kid.lookup(kp + s2) is Some);
                let j = choose|j: int|
                    0 <= j < w.len() && #[trigger] w[j] == (s2, kid.lookup(kp + s2)->0);
                assert(es[j] == front[j]);
            } else {
                assert(n.lookup(np + s) is Some);
                let j = choose|j: int|
                    0 <= j < rest.len() && #[trigger] rest[j] == (s, n.lookup(np + s)->0);
                assert(es[j + front.len()] == rest[j]);
            }
        }
    } else {
        assert(es =~= Seq::<(Seq<u8>, T)>::empty());
    }
}

/// A longest common prefix exists.
pub proof fn lemma_lcp_exists(a: Seq<u8>, b: Seq<u8>)
    ensures
        is_lcp(a, b, common_len(a, b)),
    decreases a.len(),
{
    if a.len() == 0 || b.len() == 0 || a[0] != b[0] {
        assert(is_lcp(a, b, 0));
    } else {
        lemma_lcp_exists(a.skip(1), b.skip(1));
        let m = common_len(a.skip(1), b.skip(1));
        assert(is_lcp(a, b, m + 1)) by {
            assert forall|i: int| 0 <= i < m + 1 implies a[i] == b[i] by {
                if i > 0 {
                    assert(a.skip(1)[i - 1] == b.skip(1)[i - 1]);
                }
            }
            if m + 1 < a.len() && m + 1 < b.len() {
                assert(a.skip(1)[m] != b.skip(1)[m]);
            }
        }
    }
}

/// Keys that begin with `key`, read from the start of the prefix of `n`,
/// are found below the node `prefix_node` reaches, from the offset it
/// gives inside that node's prefix; where it reaches none, no such key is
/// stored.
pub proof fn lemma_prefix_node_lookup<T>(n: Node<T>, key: Seq<u8>)
    requires
        n.wf(),
    ensures
        prefix_node(n, key) matches Some((m, off)) ==> {
            &&& m.wf()
            &&& 0 <= off <= m.spec_prefix().len()
            &&& forall|x: Seq<u8>| #[trigger] n.lookup(key + x) == m.lookup(
                m.spec_prefix().take(off) + x,
            )
        },
        prefix_node(n, key) is None ==> forall|x: Seq<u8>| #[trigger] n.lookup(key + x) is None,
    decreases n,
{
    let p = n.spec_prefix();
    lemma_lcp_exists(p, key);
    let l = common_len(p, key);
    n.lemma_wf_unfold();
    n.lemma_kids_decrease();
    if l == key.len() {
        assert(p.take(l) =~= key);
    } else if l < p.len() {
        assert forall|x: Seq<u8>| #[trigger] n.lookup(key + x) is None by {
            let kx = key + x;
            if starts_with(kx, p) {
                assert(kx.take(p.len() as int)[l] == p[l]);
                assert(kx[l] == key[l]);
            }
            lemma_off_prefix(n, kx);
        }
    } else {
        let b = key[l] as int;
        assert(p.len() == l);
        if exists|k: int| 0 <= k < n.kids().len() && #[trigger] n.kids()[k].first() == b {
            let k = choose|k: int| 0 <= k < n.kids().len() && #[trigger] n.kids()[k].first() == b;
            let kid = n.kids()[k];
            lemma_prefix_node_lookup(kid, key.skip(l));
            assert forall|x: Seq<u8>| #[trigger] n.lookup(key + x) == kid.lookup(
                key.skip(l) + x,
            ) by {
                let kx = key + x;
                assert(kx.take(l) =~= p) by {
                    assert forall|i: int| 0 <= i < l implies kx.take(l)[i] == p[i] by {
                        assert(p[i] == key[i]);
                    }
                }
                assert(kx[l] == key[l]);
                assert(kx.skip(l) =~= key.skip(l) + x);
                lemma_route_some(n, kx, k);
            }
        } else {
            assert forall|x: Seq<u8>| #[trigger] n.lookup(key + x) is None by {
                let kx = key + x;
                assert(kx.take(l) =~= p) by {
                    assert forall|i: int| 0 <= i < l implies kx.take(l)[i] == p[i] by {
                        assert(p[i] == key[i]);
                    }
                }
                assert(kx[l] == key[l]);
                lemma_route_none(n, kx);
            }
        }
    }
}

/// Putting the same bytes before every key keeps the keys different.
pub proof fn lemma_shifted_distinct<T>(es: Seq<(Seq<u8>, T)>, base: Seq<u8>)
    requires
        distinct_keys(es),
    ensures
        distinct_keys(shifted(es, base)),
{
    let sh = shifted(es, base);
    assert forall|a: int, b: int| 0 <= a < b < sh.len() implies sh[a].0 != sh[b].0 by {
        if sh[a].0 == sh[b].0 {
            assert(es[a].0 =~= sh[a].0.skip(base.len() as int));
            assert(es[b].0 =~= sh[b].0.skip(base.len() as int));
        }
    }
}

/// `a` comes before `b` in lexicographic byte order.
pub open spec fn lex_lt(a: Seq<u8>, b: Seq<u8>) -> bool
    decreases a.len(),
{
    if b.len() == 0 {
        false
    } else if a.len() == 0 {
        true
    } else if a[0] != b[0] {
        a[0] < b[0]
    } else {
        lex_lt(a.drop_first(), b.drop_first())
    }
}

/// The keys of `es` come in lexicographic order.
pub open spec fn sorted_keys<T>(es: Seq<(Seq<u8>, T)>) -> bool {
    forall|a: int, b: int| 0 <= a < b < es.len() ==> lex_lt(#[trigger] es[a].0, #[trigger] es[b].0)
}

/// The same bytes before two keys keep their order.
pub proof fn lemma_lex_prefix(p: Seq<u8>, x: Seq<u8>, y: Seq<u8>)
    ensures
        lex_lt(p + x, p + y) == lex_lt(x, y),
    decreases p.len(),
{
    if p.len() > 0 {
        let q = p.drop_first();
        lemma_lex_prefix(q, x, y);
        assert((p + x).drop_first() =~= q + x);
        assert((p + y).drop_first() =~= q + y);
        assert((p + x)[0] == p[0] && (p + y)[0] == p[0]);
    } else {
        assert(p + x =~= x);
        assert(p + y =~= y);
    }
}

/// Putting the same bytes before every key keeps the order.
pub proof fn lemma_shifted_sorted<T>(es: Seq<(Seq<u8>, T)>, base: Seq<u8>)
    requires
        sorted_keys(es),
    ensures
        sorted_keys(shifted(es, base)),
{
    let sh = shifted(es, base);
    assert forall|a: int, b: int| 0 <= a < b < sh.len() implies lex_lt(
        #[trigger] sh[a].0,
        #[trigger] sh[b].0,
    ) by {
        lemma_lex_prefix(base, es[a].0, es[b].0);
        assert(lex_lt(es[a].0, es[b].0));
    }
}

/// The walk of a sound node from child `i` on hands its keys out in
/// lexicographic order: the node's own value first, then the children in
/// the order of their first bytes.
pub proof fn lemma_dfs_sorted<T>(n: Node<T>, i: int)
    requires
        n.wf(),
        -1 <= i <= n.kids().len(),
    ensures
        sorted_keys(dfs_from(n, Seq::empty(), i)),
    decreases n, n.kids().len() - i,
{
    let e = Seq::<u8>::empty();
    n.lemma_wf_unfold();
    n.lemma_kids_decrease();
    let es = dfs_from(n, e, i);
    if i == -1 {
        lemma_dfs_sorted(n, 0);
        lemma_dfs_exact(n, 0);
        let rest = dfs_from(n, e, 0);
        let own: Seq<(Seq<u8>, T)> = match n.spec_val() {
            Some(v) => seq![(e, v)],
            None => Seq::empty(),
        };
        assert(es == own + rest);
        assert forall|a: int, b: int| 0 <= a < b < es.len() implies lex_lt(
            #[trigger] es[a].0,
            #[trigger] es[b].0,
        ) by {
            assert(es[b] == rest[b - own.len()]);
            if a >= own.len() {
                assert(es[a] == rest[a - own.len()]);
                assert(lex_lt(rest[a - own.len()].0, rest[b - own.len()].0));
            } else {
                assert(rest[b - own.len()].0.len() > 0);
                assert(es[a].0.len() == 0);
            }
        }
    } else if i < n.kids().len() {
        let kid = n.kids()[i];
        let kp = kid.spec_prefix();
        lemma_dfs_sorted(kid, -1);
        lemma_dfs_sorted(n, i + 1);
        lemma_dfs_exact(n, i + 1);
        lemma_dfs_shift(kid, kp, -1);
        n.lemma_child_first(i);
        let w = walk(kid);
        let front = shifted(w, kp);
        let rest = dfs_from(n, e, i + 1);
        assert(e + kp =~= kp);
        assert(es == front + rest);
        lemma_shifted_sorted(w, kp);
        assert forall|a: int, b: int| 0 <= a < b < es.len() implies lex_lt(
            #[trigger] es[a].0,
            #[trigger] es[b].0,
        ) by {
            if b < front.len() {
                assert(es[a] == front[a] && es[b] == front[b]);
            } else if a >= front.len() {
                assert(es[a] == rest[a - front.len()] && es[b] == rest[b - front.len()]);
                assert(lex_lt(rest[a - front.len()].0, rest[b - front.len()].0));
            } else {
                assert(es[a] == front[a] && es[b] == rest[b - front.len()]);
                let x = es[a].0;
                let y = es[b].0;
                assert(x == kp + w[a].0);
                assert(x[0] == kp[0]);
                let k = choose|k: int|
                    i + 1 <= k < n.kids().len() && rest[b - front.len()].0[0] as int
                        == #[trigger] n.kids()[k].first();
                n.lemma_child_first(k);
                let fi = kid.first();
                let fk = n.kids()[k].first();
                if fk <= fi {
                    super::bitmap::lemma_rank_monotone(n.spec_bitmap(), fk, fi);
                }
                assert(x[0] < y[0]);
                assert(y.len() > 0 && x.len() > 0);
            }
        }
    } else {
        assert(es =~= Seq::<(Seq<u8>, T)>::empty());
    }
}

} // verus!

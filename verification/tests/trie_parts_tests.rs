use algors::trie::node::Node;
use algors::trie::prefix::Prefix;
use algors::trie::util::{lcp, BoundedRawVec};
use algors::trie::TrieMap;

#[test]
fn test_prefix_entries_hand_out_each_key_once() {
    let mut trie = TrieMap::new();
    let keys = ["ape", "apple", "apply", "apt", "bat", "apex", "b"];
    for (i, key) in keys.iter().enumerate() {
        trie.insert(key.as_bytes(), i);
    }
    let entries = trie.prefix_entries(b"ap");
    let mut got: Vec<(Vec<u8>, usize)> = entries
        .iter()
        .map(|(chunks, len, v)| {
            let rest: Vec<u8> = chunks.iter().flat_map(|c| c.iter().copied()).collect();
            assert_eq!(rest.len(), *len);
            (rest, **v)
        })
        .collect();
    got.sort();
    let mut want: Vec<(Vec<u8>, usize)> = vec![
        (b"e".to_vec(), 0),
        (b"ex".to_vec(), 5),
        (b"ple".to_vec(), 1),
        (b"ply".to_vec(), 2),
        (b"t".to_vec(), 3),
    ];
    want.sort();
    assert_eq!(got, want);

    // a prefix inside a node's prefix, and one nothing begins with
    assert_eq!(trie.prefix_entries(b"appl").len(), 2);
    assert_eq!(trie.prefix_entries(b"apz").len(), 0);
    assert_eq!(trie.prefix_entries(b"").len(), keys.len());
}

#[test]
fn test_for_each_prefix_suffix_chunks() {
    let mut trie = TrieMap::new();
    trie.insert(b"abcdef", 1);
    trie.insert(b"abcxyz", 2);
    let mut seen = Vec::new();
    trie.for_each_prefix(b"ab", |suffix, v| {
        assert_eq!(suffix.len(), suffix.to_vec().len());
        assert!(!suffix.is_empty());
        let joined: Vec<u8> = suffix.chunks().iter().flat_map(|c| c.iter().copied()).collect();
        assert_eq!(joined, suffix.to_vec());
        seen.push((suffix.to_vec(), *v));
    });
    seen.sort();
    assert_eq!(seen, vec![(b"cdef".to_vec(), 1), (b"cxyz".to_vec(), 2)]);
}

#[test]
fn test_empty_key_is_ignored() {
    let mut trie = TrieMap::new();
    trie.insert(b"", 7);
    assert!(trie.is_empty());
    assert_eq!(trie.get(b""), None);
    trie.insert(b"k", 1);
    assert_eq!(trie.remove(b""), None);
    assert_eq!(trie.get(b"k"), Some(&1));
}

#[test]
fn test_insert_replaces() {
    let mut trie = TrieMap::default();
    trie.insert(b"key", 1);
    trie.insert(b"key", 2);
    assert_eq!(trie.get(b"key"), Some(&2));
    assert_eq!(trie.remove(b"key"), Some(2));
    assert_eq!(trie.remove(b"key"), None);
}

#[test]
fn test_lcp() {
    assert_eq!(lcp(b"", b"abc"), 0);
    assert_eq!(lcp(b"abc", b"abd"), 2);
    assert_eq!(lcp(b"abc", b"abc"), 3);
    assert_eq!(lcp(b"abcdefghijklmnopqrstuvwxyz0123", b"abcdefghijklmnopqrstuvwxyz0124"), 29);
    assert_eq!(lcp(b"xyz", b"xy"), 2);
}

#[test]
fn test_prefix_bytes() {
    let p = Prefix::new(b"hello");
    assert_eq!(p.as_ref(), b"hello");
    assert_eq!(p.len(), 5);
    assert!(p.is_inline());
    let long = Prefix::new(&[7u8; 40]);
    assert!(!long.is_inline());
    let joined = Prefix::from_slices(&[b"ab", b"", b"cde"]);
    assert_eq!(joined.as_ref(), b"abcde");
}

#[test]
fn test_bounded_vec() {
    let mut v: BoundedRawVec<u32> = BoundedRawVec::new();
    v.insert(0, 10, 0);
    v.insert(1, 30, 1);
    v.insert(1, 20, 2);
    assert_eq!(v.get(0, 3), Some(&10));
    assert_eq!(v.get(1, 3), Some(&20));
    assert_eq!(v.get(3, 3), None);
    *v.get_mut(2, 3).unwrap() = 31;
    assert!(v.get_mut(3, 3).is_none());
    let all: Vec<u32> = {
        let mut it = v.iter(3);
        let mut out = Vec::new();
        while let Some(x) = it.next() {
            out.push(*x);
        }
        out
    };
    assert_eq!(all, vec![10, 20, 31]);
    {
        let mut it = v.iter_mut(3);
        assert_eq!(it.len(), 3);
        while let Some(x) = it.next() {
            *x += 1;
        }
    }
    {
        let mut it = v.iter(3);
        assert_eq!(it.next_back(), Some(&32));
        assert_eq!(it.len(), 2);
        let copy = it.clone();
        assert_eq!(copy.len(), 2);
    }
    {
        let mut it = v.iter_mut(3);
        if let Some(x) = it.next_back() {
            *x = 0;
        }
    }
    assert_eq!(v.remove(0, 3), Some(11));
    assert_eq!(v.get(1, 2), Some(&0));
    assert_eq!(v.remove(5, 2), None);
}

#[test]
fn test_node_children() {
    let mut n: Node<u32> = Node::new_internal(b"ab", Some(1));
    assert!(!n.is_leaf());
    assert!(n.has_val());
    assert_eq!(n.len_children(), 0);
    let c = Node::<u32>::child_pos_from_byte(b'c');
    let x = Node::<u32>::child_pos_from_byte(b'x');
    n.insert_child(x, Node::new_leaf(b"xy", Some(2)));
    n.insert_child(c, Node::new_leaf(b"cd", Some(3)));
    assert_eq!(n.len_children(), 2);
    assert!(n.child_exists(c));
    assert!(!n.child_exists(Node::<u32>::child_pos_from_byte(b'd')));
    assert_eq!(n.child_idx_from_pos(x), 1);
    let first = n.get_child_by_idx(0).unwrap();
    assert_eq!(first.prefix().as_ref(), b"cd");
    assert_eq!(n.get_child_by_pos(x).unwrap().val(), Some(&2));
    let pos = n.child_pos_from_idx(1);
    assert_eq!(pos.idx * 64 + pos.bit as usize, b'x' as usize);
    let removed = n.remove_child(c).unwrap();
    assert_eq!(removed.val(), Some(&3));
    assert_eq!(n.len_children(), 1);
    assert_eq!(n.take_val(), Some(1));
    assert!(!n.has_val());
    n.set_val(9);
    assert_eq!(n.val(), Some(&9));
}

#[test]
fn test_leaf_upgrade() {
    let mut n: Node<u8> = Node::new(b"k");
    assert!(n.is_leaf());
    assert!(!n.has_val());
    n.upgrade_to_internal();
    assert!(!n.is_leaf());
    n.insert_child(Node::<u8>::child_pos_from_byte(b'z'), Node::new_leaf(b"z", Some(5)));
    let mut other: Node<u8> = Node::new_leaf(b"q", None);
    n.transfer_children(&mut other);
    assert_eq!(n.len_children(), 0);
    assert_eq!(other.len_children(), 1);
    assert!(!other.is_leaf());
}

#[test]
fn test_removing_everything_can_leave_an_empty_node() {
    // removal compresses only along the path it walked; a branch left
    // without values can stay behind as the root
    let mut trie = TrieMap::new();
    trie.insert(b"x", 1);
    trie.insert(b"xab", 2);
    trie.insert(b"xabcd", 3);
    assert_eq!(trie.remove(b"xab"), Some(2));
    assert_eq!(trie.remove(b"xabcd"), Some(3));
    assert_eq!(trie.remove(b"x"), Some(1));
    for key in [&b"x"[..], b"xa", b"xab", b"xabc", b"xabcd"] {
        assert_eq!(trie.get(key), None);
    }
    assert!(!trie.is_empty());
    assert_eq!(trie.prefix_entries(b"").len(), 0);
}

#[test]
fn test_single_key_removed_leaves_empty() {
    let mut trie = TrieMap::new();
    trie.insert(b"only", 5);
    assert!(!trie.is_empty());
    assert_eq!(trie.remove(b"only"), Some(5));
    assert!(trie.is_empty());
}

#[test]
fn test_prefix_entries_in_key_order() {
    let mut trie = TrieMap::new();
    let keys = ["b", "ab", "a", "abc", "ba", "aab", "z"];
    for (i, key) in keys.iter().enumerate() {
        trie.insert(key.as_bytes(), i);
    }
    let mut order = Vec::new();
    trie.for_each_prefix(b"", |suffix, _| order.push(suffix.to_vec()));
    let mut sorted = order.clone();
    sorted.sort();
    assert_eq!(order, sorted);
    assert_eq!(order.len(), keys.len());
}

#[test]
fn test_bounded_vec_zero_sized() {
    // zero-sized elements take no room: the vector is not bounded
    let mut v: BoundedRawVec<()> = BoundedRawVec::new();
    for i in 0..300 {
        v.insert(i, (), i);
    }
    assert_eq!(v.get(299, 300), Some(&()));
    assert_eq!(v.remove(0, 300), Some(()));
}

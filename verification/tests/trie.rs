use dart::trie::{Trie, TrieNode, TRIE_NODE_SPAN};

#[test]
fn a_new_trie_has_a_bare_root() {
    let t = Trie::new();
    assert_eq!(t.get_size(), 0);
    let root = t.get_root().as_ref().expect("a root");
    assert_eq!(root.edge(), 0);
    assert!(root.values().is_empty());
    for b in 0..=255u8 {
        assert!(root.child(b).is_none());
    }
    assert_eq!(TRIE_NODE_SPAN, 256);
    assert_eq!(t.search(b""), Some(vec![]));
    assert_eq!(t.search(b"a"), None);
}

#[test]
fn values_accumulate_under_a_key() {
    let mut t = Trie::new();
    t.insert(b"hello", b"trie".to_vec());
    t.insert(b"whyisrust", b"sohard".to_vec());
    t.insert(b"hello", b"sohard".to_vec());
    t.insert(b"k", b"v".to_vec());
    assert_eq!(t.get_size(), 5 + 9 + 1);
    assert_eq!(t.search(b"k"), Some(vec![b"v".to_vec()]));
    assert_eq!(t.search(b"hello"), Some(vec![b"trie".to_vec(), b"sohard".to_vec()]));
    assert_eq!(t.search(b"whyisrust"), Some(vec![b"sohard".to_vec()]));
    // a beginning of a key leads to a node without values
    assert_eq!(t.search(b"hell"), Some(vec![]));
    assert_eq!(t.search(b"why"), Some(vec![]));
    assert_eq!(t.search(b"hellos"), None);
    assert_eq!(t.search(b"x"), None);
}

#[test]
fn the_counter_counts_new_nodes_only() {
    let mut t = Trie::new();
    t.insert(b"abc", vec![1]);
    assert_eq!(t.get_size(), 3);
    t.insert(b"abd", vec![2]);
    assert_eq!(t.get_size(), 4);
    t.insert(b"ab", vec![3]);
    assert_eq!(t.get_size(), 4);
    t.insert(b"", vec![4]);
    assert_eq!(t.get_size(), 4);
    t.insert(b"abcde", vec![5]);
    assert_eq!(t.get_size(), 6);
    assert_eq!(t.search(b""), Some(vec![vec![4]]));
    assert_eq!(t.search(b"ab"), Some(vec![vec![3]]));
}

#[test]
fn nodes_hang_under_their_key_bytes() {
    let mut t = Trie::new();
    t.insert(&[7, 200, 0], vec![9]);
    let root = t.get_root().as_ref().unwrap();
    let a = root.child(7).expect("a child");
    assert_eq!(a.edge(), 7);
    assert!(root.child(8).is_none());
    let b = a.child(200).expect("a child");
    assert_eq!(b.edge(), 200);
    let c = b.child(0).expect("a child");
    assert_eq!(c.edge(), 0);
    assert_eq!(c.values(), &vec![vec![9u8]]);
    assert_eq!(c.search(b""), Some(vec![vec![9]]));
    assert_eq!(a.search(&[200, 0]), Some(vec![vec![9]]));
}

#[test]
fn a_node_alone() {
    let mut n = TrieNode::new(b'x');
    assert_eq!(n.edge(), b'x');
    assert_eq!(n.insert_at(b"__ab", 2, vec![1]), 2);
    assert_eq!(n.insert_at(b"ab", 0, vec![2]), 0);
    assert_eq!(n.insert_at(b"ac", 0, vec![3]), 1);
    assert_eq!(n.insert_at(b"ac", 2, vec![4]), 0);
    assert_eq!(n.search(b"ab"), Some(vec![vec![1], vec![2]]));
    assert_eq!(n.search(b"ac"), Some(vec![vec![3]]));
    assert_eq!(n.search(b""), Some(vec![vec![4]]));
}

#[test]
fn keys_come_in_the_order_of_their_bytes() {
    let mut t = Trie::new();
    assert!(t.keys().is_empty());
    for k in ["whyisrust", "hello", "k", "hell", "help", "a", "hello"] {
        t.insert(k.as_bytes(), b"v".to_vec());
    }
    let keys: Vec<String> = t.keys().iter().map(|k| String::from_utf8_lossy(k).into_owned()).collect();
    assert_eq!(keys, vec!["a", "hell", "hello", "help", "k", "whyisrust"]);
    t.insert(b"", b"root".to_vec());
    assert_eq!(t.keys()[0], Vec::<u8>::new());
    assert_eq!(t.keys().len(), 7);
    let root = t.get_root().as_ref().unwrap();
    assert_eq!(root.children(), vec![b'a', b'h', b'k', b'w']);
    let mut out = vec![b"kept".to_vec()];
    let mut prefix = b"x-".to_vec();
    root.child(b'h').unwrap().list_keys(&mut prefix, &mut out);
    assert_eq!(prefix, b"x-".to_vec());
    assert_eq!(out, vec![b"kept".to_vec(), b"x-ell".to_vec(), b"x-ello".to_vec(), b"x-elp".to_vec()]);
}

#[test]
fn insert_hands_out_the_node_of_the_key() {
    let mut t = Trie::new();
    {
        let n = t.insert(b"hello", b"trie".to_vec());
        assert_eq!(n.edge(), b'o');
        assert_eq!(n.values(), &vec![b"trie".to_vec()]);
    }
    {
        let n = t.insert(b"hello", b"again".to_vec());
        assert_eq!(n.values(), &vec![b"trie".to_vec(), b"again".to_vec()]);
    }
    {
        let n = t.insert(b"hel", b"short".to_vec());
        assert_eq!(n.edge(), b'l');
        assert_eq!(n.values(), &vec![b"short".to_vec()]);
        assert!(n.child(b'l').is_some());
    }
    let root = t.insert(b"", b"root".to_vec());
    assert_eq!(root.values(), &vec![b"root".to_vec()]);
}

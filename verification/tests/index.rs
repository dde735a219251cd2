use dart::art::{find_common_prefix, Art, ArtError};
use dart::codec::{NodeType, Pointer};
use dart::node::ArtNode;

fn put(art: &mut Art, k: &str) {
    assert_eq!(art.insert(k.as_bytes(), k.as_bytes().to_vec()), Ok(()));
}

fn values(art: &Art, k: &str) -> Option<Vec<Vec<u8>>> {
    art.search(k.as_bytes()).cloned()
}

fn one(k: &str) -> Option<Vec<Vec<u8>>> {
    Some(vec![k.as_bytes().to_vec()])
}

fn class_at(art: &Art, k: &str) -> NodeType {
    let a = art.find_node(k.as_bytes()).expect("a node");
    art.node(a).expect("a node").node_type()
}

fn five_siblings() -> Art {
    let mut art = Art::new();
    for k in ["hello", "helmo", "helno", "heloo"] {
        put(&mut art, k);
    }
    assert_eq!(class_at(&art, "hel"), NodeType::N4);
    let hel = art.find_node(b"hel").unwrap();
    assert!(art.node(hel).unwrap().need_expand());
    put(&mut art, "helpo");
    art
}

#[test]
fn fifth_sibling_promotes_the_shared_node() {
    let art = five_siblings();
    assert_eq!(class_at(&art, "hel"), NodeType::N16);
    assert_eq!(values(&art, "hello"), one("hello"));
    for k in ["helmo", "helno", "heloo", "helpo"] {
        assert_eq!(values(&art, k), one(k));
    }
    assert_eq!(values(&art, "hel"), None);
}

#[test]
fn deleting_siblings_demotes_the_shared_node() {
    let mut art = five_siblings();
    for (n, k) in ["hello", "helmo", "helno", "heloo"].iter().enumerate() {
        assert!(art.delete(k.as_bytes()));
        let hel = art.find_node(b"hel").unwrap();
        let left = art.node(hel).unwrap().get_children().len();
        assert_eq!(left, 4 - n);
        assert_eq!(values(&art, "helpo"), one("helpo"));
    }
    let hel = art.find_node(b"hel").unwrap();
    assert_eq!(art.node(hel).unwrap().get_children().len(), 1);
    assert_eq!(class_at(&art, "hel"), NodeType::N4);
    assert_eq!(values(&art, "helpo"), one("helpo"));
    assert_eq!(values(&art, "hello"), None);
}

#[test]
fn diverging_key_splits_the_edge() {
    let mut art = Art::new();
    assert_eq!(art.insert(b"cat", b"v1".to_vec()), Ok(()));
    assert_eq!(art.get_size(), 2);
    assert_eq!(art.insert(b"car", b"v2".to_vec()), Ok(()));
    assert_eq!(art.get_size(), 4);
    let ca = art.find_node(b"ca").expect("the split node");
    let node = art.node(ca).unwrap();
    assert_eq!(node.get_edge().as_slice(), b"ca");
    assert!(node.get_values().is_empty());
    let mut kids = node.get_children();
    kids.sort_by_key(|e| e.0);
    assert_eq!(kids.len(), 2);
    assert_eq!((kids[0].0, kids[1].0), (b'r', b't'));
    let r = art.resolve(kids[0].1).expect("a leaf");
    let t = art.resolve(kids[1].1).expect("a leaf");
    assert_eq!(r.get_edge().as_slice(), b"r");
    assert_eq!(t.get_edge().as_slice(), b"t");
    assert!(r.empty() && t.empty());
    assert_eq!(r.get_values(), &vec![b"v2".to_vec()]);
    assert_eq!(t.get_values(), &vec![b"v1".to_vec()]);
    assert_eq!(r.get_parent().addr, ca);
    assert_eq!(kids[0].1.distance(), 1);
    assert_eq!(art.search(b"cat"), Some(&vec![b"v1".to_vec()]));
    assert_eq!(art.search(b"car"), Some(&vec![b"v2".to_vec()]));
    assert_eq!(art.search(b"ca"), None);
    assert_eq!(art.search(b"c"), None);
    assert_eq!(art.search(b"cab"), None);
    assert_eq!(art.search(b"cats"), None);
}

#[test]
fn empty_index() {
    let mut art = Art::new();
    assert_eq!(art.get_size(), 1);
    assert_eq!(art.search(b""), None);
    assert_eq!(art.search(b"a"), None);
    assert!(!art.delete(b"a"));
    assert!(!art.delete(b""));
    assert_eq!(art.find_node(b""), Some(art.root_addr()));
    assert_eq!(art.node(art.root_addr()).unwrap().node_type(), NodeType::N4);
    assert_eq!(art.index_pool().page_count(), 1);
}

#[test]
fn same_key_accumulates_values() {
    let mut art = Art::new();
    assert_eq!(art.insert(b"hello", b"art".to_vec()), Ok(()));
    assert_eq!(art.insert(b"hello", b"art".to_vec()), Ok(()));
    assert_eq!(art.insert(b"hello", b"tree".to_vec()), Ok(()));
    assert_eq!(
        art.search(b"hello"),
        Some(&vec![b"art".to_vec(), b"art".to_vec(), b"tree".to_vec()])
    );
    assert_eq!(art.get_size(), 2);
    assert!(art.delete(b"hello"));
    assert_eq!(art.search(b"hello"), None);
    assert!(!art.delete(b"hello"));
    assert_eq!(art.get_size(), 1);
}

#[test]
fn key_that_ends_inside_an_edge_splits_it() {
    let mut art = Art::new();
    put(&mut art, "romane");
    put(&mut art, "rom");
    assert_eq!(values(&art, "rom"), one("rom"));
    assert_eq!(values(&art, "romane"), one("romane"));
    assert_eq!(values(&art, "ro"), None);
    let rom = art.find_node(b"rom").unwrap();
    assert_eq!(art.node(rom).unwrap().get_edge().as_slice(), b"rom");
    let rest = art.find_node(b"romane").unwrap();
    assert_eq!(art.node(rest).unwrap().get_edge().as_slice(), b"ane");
    put(&mut art, "romanus");
    put(&mut art, "romulus");
    put(&mut art, "rubens");
    for k in ["rom", "romane", "romanus", "romulus", "rubens"] {
        assert_eq!(values(&art, k), one(k));
    }
    assert_eq!(values(&art, "roman"), None);
    assert_eq!(values(&art, "r"), None);
}

#[test]
fn empty_key_lives_at_the_root() {
    let mut art = Art::new();
    assert_eq!(art.insert(b"", b"root".to_vec()), Ok(()));
    assert_eq!(art.search(b""), Some(&vec![b"root".to_vec()]));
    assert_eq!(art.get_size(), 1);
    put(&mut art, "a");
    assert!(art.delete(b""));
    assert_eq!(art.search(b""), None);
    assert_eq!(values(&art, "a"), one("a"));
    assert!(art.delete(b"a"));
    assert_eq!(art.get_size(), 1);
    assert_eq!(art.find_node(b""), Some(art.root_addr()));
}

#[test]
fn long_keys_take_a_chain_of_nodes() {
    let mut art = Art::new();
    let key: Vec<u8> = (0..100u8).collect();
    assert_eq!(art.insert(&key, b"long".to_vec()), Ok(()));
    // six nodes of at most 17 bytes each, and the root
    assert_eq!(art.get_size(), 7);
    assert_eq!(art.search(&key), Some(&vec![b"long".to_vec()]));
    assert_eq!(art.search(&key[..99]), None);
    assert_eq!(art.search(&key[..17]), None);
    let first = art.find_node(&key[..17]).expect("the first link of the chain");
    assert_eq!(art.node(first).unwrap().get_edge().len(), 17);
    let last = art.find_node(&key).unwrap();
    assert_eq!(art.node(last).unwrap().get_edge().len(), 100 - 5 * 17);
    let mut other = key.clone();
    other[60] = 255;
    assert_eq!(art.insert(&other, b"other".to_vec()), Ok(()));
    assert_eq!(art.search(&key), Some(&vec![b"long".to_vec()]));
    assert_eq!(art.search(&other), Some(&vec![b"other".to_vec()]));
    assert!(art.delete(&key));
    assert_eq!(art.search(&other), Some(&vec![b"other".to_vec()]));
    assert!(art.delete(&other));
    assert_eq!(art.get_size(), 1);
}

#[test]
fn other_keys_do_not_touch_a_stored_value() {
    let mut art = Art::new();
    assert_eq!(art.insert(b"keep", b"me".to_vec()), Ok(()));
    let others: Vec<String> = (0..300).map(|i| format!("k{}e{}", i % 7, i)).collect();
    for k in &others {
        assert_eq!(art.insert(k.as_bytes(), k.as_bytes().to_vec()), Ok(()));
        assert_eq!(art.search(b"keep"), Some(&vec![b"me".to_vec()]));
    }
    assert_eq!(art.insert(b"kee", b"x".to_vec()), Ok(()));
    assert_eq!(art.insert(b"keeper", b"y".to_vec()), Ok(()));
    for k in &others {
        assert!(art.delete(k.as_bytes()));
        assert_eq!(art.search(b"keep"), Some(&vec![b"me".to_vec()]));
    }
    assert!(art.delete(b"kee"));
    assert!(art.delete(b"keeper"));
    assert_eq!(art.search(b"keep"), Some(&vec![b"me".to_vec()]));
}

#[test]
fn a_node_goes_through_every_class_and_back() {
    let mut art = Art::new();
    let key = |i: u16| -> Vec<u8> { vec![b'p', (i % 256) as u8, b'x'] };
    let mut seen = Vec::new();
    for i in 0..256u16 {
        assert_eq!(art.insert(&key(i), vec![i as u8]), Ok(()));
        let p = art.find_node(b"p");
        let class = match p {
            Some(a) if art.node(a).unwrap().get_children().len() > 1 => {
                Some(art.node(a).unwrap().node_type())
            },
            _ => None,
        };
        if let Some(c) = class {
            if seen.last() != Some(&c) {
                seen.push(c);
            }
        }
        for j in 0..=i {
            assert_eq!(art.search(&key(j)), Some(&vec![vec![j as u8]]));
        }
    }
    assert_eq!(seen, vec![NodeType::N4, NodeType::N16, NodeType::N48, NodeType::N256]);
    let mut down = vec![NodeType::N256];
    for i in 0..255u16 {
        assert!(art.delete(&key(i)));
        assert_eq!(art.search(&key(i)), None);
        let a = art.find_node(b"p").unwrap();
        let c = art.node(a).unwrap().node_type();
        if down.last() != Some(&c) {
            down.push(c);
        }
        for j in (i + 1)..256 {
            assert_eq!(art.search(&key(j)), Some(&vec![vec![j as u8]]));
        }
    }
    assert_eq!(down, vec![NodeType::N256, NodeType::N48, NodeType::N16, NodeType::N4]);
    assert!(art.delete(&key(255)));
    assert_eq!(art.get_size(), 1);
}

#[test]
fn the_root_grows_too() {
    let mut art = Art::new();
    for b in 0..5u8 {
        assert_eq!(art.insert(&[b], vec![b]), Ok(()));
    }
    assert_eq!(art.node(art.root_addr()).unwrap().node_type(), NodeType::N16);
    assert_eq!(art.find_node(b""), Some(art.root_addr()));
    for b in 0..5u8 {
        assert_eq!(art.search(&[b]), Some(&vec![vec![b]]));
        let a = art.find_node(&[b]).unwrap();
        assert_eq!(art.node(a).unwrap().get_parent().addr, art.root_addr());
    }
    for b in 0..5u8 {
        assert!(art.delete(&[b]));
    }
    assert_eq!(art.get_size(), 1);
}

#[test]
fn slots_follow_the_nodes() {
    let mut art = Art::new();
    assert_eq!(art.index_pool().page(1).unwrap().free_max(), 3904);
    put(&mut art, "a");
    put(&mut art, "b");
    assert_eq!(art.index_pool().page(1).unwrap().free_max(), 3904 - 128);
    assert!(art.delete(b"b"));
    assert!(art.delete(b"a"));
    assert_eq!(art.index_pool().page(1).unwrap().free_max(), 3904);
    assert_eq!(art.index_pool().page_count(), 1);
}

#[test]
fn resolve_fails_closed() {
    let mut art = Art::new();
    put(&mut art, "ab");
    let a = art.find_node(b"ab").unwrap();
    assert!(art.resolve(Pointer::new(NodeType::N4, 2, a)).is_ok());
    assert_eq!(
        art.resolve(Pointer::new(NodeType::N16, 2, a)).err(),
        Some(ArtError::CorruptPointer)
    );
    assert_eq!(
        art.resolve(Pointer::new(NodeType::N4, 2, a + 1)).err(),
        Some(ArtError::CorruptPointer)
    );
    assert_eq!(art.resolve(Pointer::null()).err(), Some(ArtError::CorruptPointer));
    assert!(art.node(a + 1).is_none());
}

#[test]
fn common_prefix_lengths() {
    assert_eq!(find_common_prefix(b"abc", b"xxabd", 2), 2);
    assert_eq!(find_common_prefix(b"abc", b"abc", 0), 3);
    assert_eq!(find_common_prefix(b"abc", b"ab", 0), 2);
    assert_eq!(find_common_prefix(b"abc", b"zab", 0), 0);
    assert_eq!(find_common_prefix(b"", b"zab", 1), 0);
    assert_eq!(find_common_prefix(b"abc", b"abc", 3), 0);
}

#[test]
fn many_keys_against_a_plain_map() {
    let mut art = Art::new();
    let mut model: std::collections::BTreeMap<Vec<u8>, Vec<Vec<u8>>> = Default::default();
    let mut x: u64 = 12345;
    for step in 0..4000u32 {
        x = x.wrapping_mul(6364136223846793005).wrapping_add(1442695040888963407);
        let len = (x >> 60) as usize % 6;
        let key: Vec<u8> = (0..len).map(|i| b'a' + ((x >> (8 * i)) % 3) as u8).collect();
        if (x >> 40) % 3 == 0 {
            let had = model.remove(&key).is_some();
            assert_eq!(art.delete(&key), had);
        } else {
            let v = step.to_be_bytes().to_vec();
            let before = art.get_size();
            assert_eq!(art.insert(&key, v.clone()), Ok(()));
            assert!(art.get_size() >= before);
            assert!(art.get_size() <= before + (key.len() + 16) / 17 + 1);
            assert!(art.find_node(&key).is_some());
            model.entry(key.clone()).or_default().push(v);
        }
        assert_eq!(art.search(&key), model.get(&key));
    }
    for (k, v) in &model {
        assert_eq!(art.search(k), Some(v));
    }
}

#[test]
fn a_full_pool_refuses_and_keeps_what_it_holds() {
    assert_eq!(
        Art::with_pool(dart::page::IndexPool::with_limit(0)).err(),
        Some(ArtError::AllocationExhausted)
    );
    let mut art = Art::with_pool(dart::page::IndexPool::with_limit(1)).expect("room for a root");
    let mut stored: Vec<Vec<u8>> = Vec::new();
    let mut refused = 0;
    for i in 0..200u32 {
        let key = format!("{:03}-key", i * 37 % 1000).into_bytes();
        let nodes_before = art.get_size();
        let on_the_way: Vec<Option<u32>> =
            (0..=key.len()).map(|n| art.find_node(&key[..n])).collect();
        match art.insert(&key, key.clone()) {
            Ok(()) => stored.push(key),
            Err(e) => {
                assert_eq!(e, ArtError::AllocationExhausted);
                refused += 1;
                assert_eq!(art.search(&key), None);
                // a refused key leaves the tree as it was
                assert_eq!(art.get_size(), nodes_before);
                for n in 0..=key.len() {
                    assert_eq!(art.find_node(&key[..n]), on_the_way[n]);
                }
            },
        }
        assert_eq!(art.index_pool().page_count(), 1);
        for k in &stored {
            assert_eq!(art.search(k), Some(&vec![k.clone()]));
        }
    }
    assert!(refused > 0);
    assert!(stored.len() > 20);
    // a second value for a key that is there needs no slot
    let k = stored[0].clone();
    assert_eq!(art.insert(&k, b"more".to_vec()), Ok(()));
    assert_eq!(art.search(&k), Some(&vec![k.clone(), b"more".to_vec()]));
    // what is deleted makes room again
    for k in &stored {
        assert!(art.delete(k));
    }
    assert_eq!(art.get_size(), 1);
    assert_eq!(art.insert(b"fresh-key-after-all", b"v".to_vec()), Ok(()));
    assert_eq!(art.search(b"fresh-key-after-all"), Some(&vec![b"v".to_vec()]));
    assert_eq!(art.get_size(), 3);
    assert_eq!(art.index_pool().page_count(), 1);
}

#[test]
fn an_insert_adds_few_nodes() {
    for (len, nodes) in [(0usize, 0usize), (1, 1), (17, 1), (18, 2), (34, 2), (35, 3), (100, 6)] {
        let mut art = Art::new();
        let key = vec![b'z'; len];
        assert_eq!(art.insert(&key, b"v".to_vec()), Ok(()));
        assert_eq!(art.get_size(), 1 + nodes);
        // a second key that leaves the first in its last byte: a split and a leaf
        if len > 1 {
            let mut other = key.clone();
            other[len - 1] = b'y';
            assert_eq!(art.insert(&other, b"w".to_vec()), Ok(()));
            let extra = if (len - 1) % 17 == 0 { 1 } else { 2 };
            assert_eq!(art.get_size(), 1 + nodes + extra);
            assert!(art.delete(&other));
            assert!(art.delete(&key));
            assert!(art.get_size() <= 2);
        }
    }
}

#[test]
fn deleting_takes_bare_nodes_out_and_leaves_the_others() {
    let mut art = Art::new();
    for k in ["cat", "car", "ca", "carpet", "dog"] {
        put(&mut art, k);
    }
    // a node with children stays when its values go
    assert!(art.delete(b"car"));
    assert!(art.find_node(b"car").is_some());
    assert_eq!(values(&art, "car"), None);
    assert_eq!(values(&art, "carpet"), one("carpet"));
    // a node without children goes, and so does what it leaves bare
    assert!(art.delete(b"carpet"));
    assert!(art.find_node(b"carpet").is_none());
    assert!(art.find_node(b"car").is_none());
    assert!(art.find_node(b"ca").is_some());
    assert_eq!(values(&art, "ca"), one("ca"));
    assert!(art.find_node(b"dog").is_some());
    // the root stays whatever happens
    assert!(art.delete(b"cat"));
    assert!(art.delete(b"ca"));
    assert!(art.delete(b"dog"));
    assert_eq!(art.find_node(b""), Some(art.root_addr()));
    assert_eq!(art.get_size(), 1);
}

#[test]
fn an_insert_makes_nodes_on_its_own_key_only() {
    let mut art = Art::new();
    put(&mut art, "alphabet");
    put(&mut art, "alpine");
    put(&mut art, "beta");
    let with_nodes = ["", "alp", "alphabet", "alpine", "beta"];
    for k in ["", "a", "al", "alp", "alph", "alphabet", "alpi", "alpine", "b", "beta", "bet"] {
        assert_eq!(art.find_node(k.as_bytes()).is_some(), with_nodes.contains(&k), "{}", k);
    }
}

#[test]
fn chain_nodes_stand_a_longest_edge_apart_from_where_the_key_leaves_the_tree() {
    let mut art = Art::new();
    let key: Vec<u8> = (0..40u8).collect();
    assert_eq!(art.insert(&key, b"v".to_vec()), Ok(()));
    for n in 0..=40usize {
        let expected = n == 0 || n == 17 || n == 34 || n == 40;
        assert_eq!(art.find_node(&key[..n]).is_some(), expected, "{}", n);
    }
    // a key that shares twenty bytes leaves the tree inside the second edge
    let mut other: Vec<u8> = (0..60u8).collect();
    other[20] = 200;
    assert_eq!(art.insert(&other, b"w".to_vec()), Ok(()));
    for n in 0..=60usize {
        let expected = n == 0 || n == 17 || n == 20 || n == 37 || n == 54 || n == 60;
        assert_eq!(art.find_node(&other[..n]).is_some(), expected, "{}", n);
    }
    for n in 0..=40usize {
        let expected = n == 0 || n == 17 || n == 20 || n == 34 || n == 40;
        assert_eq!(art.find_node(&key[..n]).is_some(), expected, "{}", n);
    }
    // deleting it takes out what lay on its way alone
    assert!(art.delete(&other));
    for n in 21..=60usize {
        assert!(art.find_node(&other[..n]).is_none(), "{}", n);
    }
    assert!(art.find_node(&key[..20]).is_some());
    assert_eq!(art.search(&key), Some(&vec![b"v".to_vec()]));
}

#[test]
fn a_refused_long_key_leaves_no_node_behind() {
    // one page has room for a root and a few nodes of the smallest class
    let mut art = Art::with_pool(dart::page::IndexPool::with_limit(1)).expect("room for a root");
    put(&mut art, "stem");
    let nodes = art.get_size();
    // far more links than one page can hold
    let long: Vec<u8> = (0..60_000u32).map(|i| (i % 251) as u8).collect();
    assert_eq!(art.insert(&long, b"v".to_vec()), Err(ArtError::AllocationExhausted));
    assert_eq!(art.get_size(), nodes);
    assert_eq!(art.index_pool().page_count(), 1);
    assert!(art.find_node(&long[..17]).is_none());
    assert_eq!(values(&art, "stem"), one("stem"));
    // and the room that was kept aside is free again
    put(&mut art, "stew");
    assert_eq!(values(&art, "stew"), one("stew"));
    assert!(art.find_node(b"ste").is_some());
}

#[test]
fn a_new_index_has_one_page_and_may_have_as_many_as_an_address_names() {
    let art = Art::new();
    assert_eq!(art.index_pool().page_count(), 1);
    assert_eq!(art.index_pool().limit(), dart::codec::MAX_PAGES);
    let pool = dart::page::IndexPool::with_limit(3);
    let art = Art::with_pool(pool).expect("room for a root");
    assert_eq!(art.index_pool().page_count(), 1);
    assert_eq!(art.index_pool().limit(), 3);
}

#[test]
fn a_pool_at_its_limit_serves_while_a_page_has_room() {
    let mut art = Art::with_pool(dart::page::IndexPool::with_limit(1)).expect("room for a root");
    // the one page has a free run for far more than the few slots needed
    for k in ["cat", "car", "dog", "do", "catalogue-of-long-keys-with-a-chain"] {
        assert_eq!(art.insert(k.as_bytes(), k.as_bytes().to_vec()), Ok(()), "{}", k);
        assert_eq!(art.index_pool().page_count(), 1);
    }
    // a key that is stored takes another value whatever the pool has
    assert_eq!(art.insert(b"cat", b"more".to_vec()), Ok(()));
    assert_eq!(values(&art, "cat"), Some(vec![b"cat".to_vec(), b"more".to_vec()]));
}

#[test]
fn pages_grow_by_no_more_than_the_slots_taken() {
    let mut art = Art::new();
    let mut pages = art.index_pool().page_count();
    for i in 0..300u32 {
        let key = format!("key-{:05}-with-a-tail-that-needs-a-chain-of-leaves", i * 7919 % 100_000);
        let nodes = art.get_size();
        assert_eq!(art.insert(key.as_bytes(), vec![1]), Ok(()));
        let now = art.index_pool().page_count();
        assert!(now >= pages);
        // one page at most for each node that came, and one for a node that grew
        assert!(now - pages <= art.get_size() - nodes + 1);
        pages = now;
    }
    for i in 0..300u32 {
        let key = format!("key-{:05}-with-a-tail-that-needs-a-chain-of-leaves", i * 7919 % 100_000);
        let before = art.index_pool().page_count();
        assert!(art.delete(key.as_bytes()));
        let now = art.index_pool().page_count();
        assert!(before <= now && now <= before + 1);
    }
    assert_eq!(art.get_size(), 1);
}

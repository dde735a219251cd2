use dart::art::{Art, ArtError};
use dart::codec::{NodeType, Pointer};
use dart::node::{ArtNode, Node, Node16, Node256, Node4, Node48};
use dart::record::{
    decode, edge_offset, encode, read_ptr, write_ptr, ABSENT, DATA, NODE16_EDGE_OFFSET,
    NODE256_EDGE_OFFSET, NODE48_EDGE_OFFSET, NODE4_EDGE_OFFSET, NONE,
};
use dart::table::NodeOpRes;

fn ptr(addr: u32) -> Pointer {
    Pointer::new(NodeType::N16, 3, addr)
}

fn dress<N: ArtNode>(n: &mut N, keys: &[u8]) {
    assert_eq!(n.set_edge(b"edge"), NodeOpRes::Succ);
    n.set_parent(Pointer::new(NodeType::N48, 9, 0x1234_5678));
    for k in keys {
        assert_eq!(n.set_child(*k, ptr(4096 + *k as u32)), NodeOpRes::Succ);
    }
    n.set_value(b"one".to_vec());
    n.set_value(b"two".to_vec());
}

fn same_but_values(a: &Node, b: &Node) {
    assert_eq!(a.node_type(), b.node_type());
    assert_eq!(a.get_edge(), b.get_edge());
    assert_eq!(a.get_parent(), b.get_parent());
    let mut ca = a.get_children();
    let mut cb = b.get_children();
    ca.sort_by_key(|e| e.0);
    cb.sort_by_key(|e| e.0);
    assert_eq!(ca, cb);
    assert!(b.get_values().is_empty());
}

#[test]
fn wire_form_of_a_small_node() {
    let mut n = Node4::new();
    dress(&mut n, &[b'x', b'a']);
    let b = encode(&Node::N4(n));
    assert_eq!(b.len(), 64);
    assert_eq!(b[0], 1);
    assert_eq!(b[1], 4);
    assert_eq!(&b[2..8], &[1, 128 + 9, 0x12, 0x34, 0x56, 0x78]);
    assert_eq!(&b[8..12], &[b'x', b'a', 0, 0]);
    assert_eq!(read_ptr(&b, 12), ptr(4096 + b'x' as u32));
    assert_eq!(read_ptr(&b, 18), ptr(4096 + b'a' as u32));
    assert!(read_ptr(&b, 24).is_null());
    assert!(read_ptr(&b, 30).is_null());
    assert_eq!(&b[36..40], b"edge");
    assert_eq!(b[36 + 17], DATA);
    assert_eq!(&b[36 + 18..36 + 22], &[0, 0, 0, 2]);
}

#[test]
fn every_class_reads_back_what_it_wrote() {
    let keys: Vec<u8> = (0..4).map(|i| 250u8.wrapping_add(i * 3)).collect();
    let mut n4 = Node4::new();
    dress(&mut n4, &keys);
    let mut n16 = Node16::new();
    dress(&mut n16, &(0..16).map(|i| 200 + i * 3).collect::<Vec<u8>>());
    let mut n48 = Node48::new();
    dress(&mut n48, &(0..48).map(|i| 255 - i * 5).collect::<Vec<u8>>());
    let mut n256 = Node256::new();
    dress(&mut n256, &(0..=255).collect::<Vec<u8>>());
    for (n, size) in [
        (Node::N4(n4), 64usize),
        (Node::N16(n16), 192),
        (Node::N48(n48), 576),
        (Node::N256(n256), 1600),
    ] {
        let b = encode(&n);
        assert_eq!(b.len(), size);
        let (m, count) = decode(&b, n.node_type()).expect("a wire form");
        assert_eq!(count, 2);
        same_but_values(&n, &m);
        // a second trip gives the same node again
        let b2 = encode(&m);
        let (m2, count2) = decode(&b2, n.node_type()).expect("a wire form");
        assert_eq!(count2, 0);
        same_but_values(&m, &m2);
    }
}

#[test]
fn empty_nodes_read_back() {
    for n in [
        Node::N4(Node4::new()),
        Node::N16(Node16::new()),
        Node::N48(Node48::new()),
        Node::N256(Node256::new()),
    ] {
        let b = encode(&n);
        let o = edge_offset(n.node_type());
        assert_eq!(b[o + 17], NONE);
        let (m, count) = decode(&b, n.node_type()).unwrap();
        assert_eq!(count, 0);
        assert!(m.empty());
        same_but_values(&n, &m);
    }
}

#[test]
fn edge_offsets() {
    assert_eq!(edge_offset(NodeType::N4), 36);
    assert_eq!(NODE4_EDGE_OFFSET, 36);
    assert_eq!(NODE16_EDGE_OFFSET, 120);
    assert_eq!(NODE48_EDGE_OFFSET, 552);
    assert_eq!(NODE256_EDGE_OFFSET, 1544);
    assert_eq!(edge_offset(NodeType::N256) + 56, 1600);
}

#[test]
fn index_of_forty_eight() {
    let mut n = Node48::new();
    dress(&mut n, &[7, 200]);
    let b = encode(&Node::N48(n));
    for k in 0..256usize {
        if k == 7 || k == 200 {
            assert!(b[8 + k] < 48);
            let p = read_ptr(&b, 264 + 6 * b[8 + k] as usize);
            assert_eq!(p, ptr(4096 + k as u32));
        } else {
            assert_eq!(b[8 + k], ABSENT);
        }
    }
}

#[test]
fn corrupt_bytes_are_refused() {
    let mut n = Node4::new();
    dress(&mut n, &[1, 2]);
    let good = encode(&Node::N4(n));
    assert!(decode(&good, NodeType::N4).is_some());
    // too short for the class
    assert!(decode(&good[..63], NodeType::N4).is_none());
    assert!(decode(&good, NodeType::N16).is_none());
    // no node in the slot
    let mut b = good.clone();
    b[0] = 2;
    assert!(decode(&b, NodeType::N4).is_none());
    // an edge that is too long
    let mut b = good.clone();
    b[1] = 18;
    assert!(decode(&b, NodeType::N4).is_none());
    // the same key twice
    let mut b = good.clone();
    b[9] = b[8];
    assert!(decode(&b, NodeType::N4).is_none());
    // a value reference whose type does not go with the count
    let mut b = good.clone();
    b[36 + 17] = NONE;
    assert!(decode(&b, NodeType::N4).is_none());
    let mut b = good.clone();
    b[36 + 17] = 1;
    assert!(decode(&b, NodeType::N4).is_none());
    // a slot number that names no slot, and one that names an empty slot
    let mut n = Node48::new();
    dress(&mut n, &[1, 2]);
    let good = encode(&Node::N48(n));
    let mut b = good.clone();
    b[8 + 77] = 48;
    assert!(decode(&b, NodeType::N48).is_none());
    let mut b = good.clone();
    b[8 + 77] = 5;
    assert!(decode(&b, NodeType::N48).is_none());
    // two keys may not share one slot beyond the capacity, but may share it
    let mut b = good.clone();
    b[8 + 77] = 0;
    let (m, _) = decode(&b, NodeType::N48).expect("two keys, one child");
    assert_eq!(m.get_children().len(), 3);
    let mut b = good;
    for k in 0..256 {
        b[8 + k] = 0;
    }
    assert!(decode(&b, NodeType::N48).is_none());
}

#[test]
fn pointers_in_a_buffer() {
    let mut b = vec![0xAAu8; 20];
    let p = Pointer::new(NodeType::N256, 63, u32::MAX);
    write_ptr(&mut b, 7, p);
    assert_eq!(read_ptr(&b, 7), p);
    assert_eq!(&b[..7], &[0xAA; 7]);
    assert_eq!(&b[13..], &[0xAA; 7]);
    assert_eq!(&b[7..13], &[1, 255, 255, 255, 255, 255]);
}

fn check_images(art: &Art, keys: &[&[u8]]) {
    for k in keys {
        for cut in 0..=k.len() {
            if let Some(a) = art.find_node(&k[..cut]) {
                let n = art.node(a).unwrap();
                let p = Pointer::new(n.node_type(), n.get_edge().len() as u8, a);
                let (m, count) = art.load(p).expect("the wire form of the node");
                same_but_values(n, &m);
                assert_eq!(count as usize, n.get_values().len());
                let space = art.index_pool().get_space(a).unwrap();
                assert_eq!(&space[..n.node_type().size() as usize], encode(n).as_slice());
            }
        }
    }
}

#[test]
fn slots_hold_the_wire_forms_of_the_nodes() {
    let mut art = Art::new();
    let keys: Vec<Vec<u8>> = (0..60u8)
        .map(|i| vec![b'k', i % 5, b'-', i, i.wrapping_mul(7)])
        .collect();
    let refs: Vec<&[u8]> = keys.iter().map(|k| k.as_slice()).collect();
    check_images(&art, &refs);
    for k in &keys {
        assert_eq!(art.insert(k, k.clone()), Ok(()));
        assert_eq!(art.insert(k, b"again".to_vec()), Ok(()));
        check_images(&art, &refs);
    }
    for k in keys.iter().step_by(2) {
        assert!(art.delete(k));
        check_images(&art, &refs);
    }
}

#[test]
fn load_fails_closed() {
    let mut art = Art::new();
    assert_eq!(art.insert(b"ab", b"v".to_vec()), Ok(()));
    let a = art.find_node(b"ab").unwrap();
    assert!(art.load(Pointer::new(NodeType::N4, 2, a)).is_ok());
    // no wire form starts in the middle of a slot
    assert_eq!(
        art.load(Pointer::new(NodeType::N4, 2, a + 1)).err(),
        Some(ArtError::CorruptPointer)
    );
    // no page
    assert_eq!(
        art.load(Pointer::new(NodeType::N4, 2, 9 * 4096 + 128)).err(),
        Some(ArtError::CorruptPointer)
    );
    // a slot that was given back
    assert!(art.delete(b"ab"));
    assert_eq!(
        art.load(Pointer::new(NodeType::N4, 2, a)).err(),
        Some(ArtError::CorruptPointer)
    );
    // a class whose slot would not fit the rest of the page
    assert_eq!(
        art.load(Pointer::new(NodeType::N256, 0, 4096 + 4000)).err(),
        Some(ArtError::CorruptPointer)
    );
}

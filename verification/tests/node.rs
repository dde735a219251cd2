use dart::codec::{NodeType, Pointer};
use dart::node::{
    ArtNode, Node, Node16, Node256, Node4, Node48, Sentinel, MAX_EDGE_LEN, NODE16_FREE_LEN,
    NODE256_FREE_LEN, NODE48_FREE_LEN, NODE4_FREE_LEN,
};
use dart::table::NodeOpRes;

fn ptr(addr: u32) -> Pointer {
    Pointer::new(NodeType::N4, 1, addr)
}

fn fill<N: ArtNode>(n: &mut N, from: u8, count: usize) {
    for i in 0..count {
        let k = from.wrapping_add(i as u8);
        assert_eq!(n.set_child(k, ptr(1000 + k as u32)), NodeOpRes::Succ);
    }
}

fn check_children<N: ArtNode>(n: &N, from: u8, count: usize) {
    let mut got = n.get_children();
    got.sort_by_key(|e| e.0);
    let mut want: Vec<(u8, Pointer)> = (0..count)
        .map(|i| {
            let k = from.wrapping_add(i as u8);
            (k, ptr(1000 + k as u32))
        })
        .collect();
    want.sort_by_key(|e| e.0);
    assert_eq!(got, want);
}

#[test]
fn new_nodes_are_empty() {
    let n = Node4::new();
    assert_eq!(n.node_type(), NodeType::N4);
    assert!(n.empty());
    assert!(n.get_edge().is_empty());
    assert!(n.get_values().is_empty());
    assert!(n.get_parent().is_null());
    assert!(!n.need_expand());
    assert!(!n.need_shrink());
    assert_eq!(Node16::new().node_type(), NodeType::N16);
    assert_eq!(Node48::new().node_type(), NodeType::N48);
    assert_eq!(Node256::new().node_type(), NodeType::N256);
    assert!(Node16::new().need_shrink());
    assert!(Node48::new().need_shrink());
    assert!(Node256::new().need_shrink());
}

#[test]
fn child_table_of_four() {
    let mut n = Node4::new();
    assert_eq!(n.get_child(7), None);
    assert_eq!(n.set_child(7, ptr(70)), NodeOpRes::Succ);
    assert_eq!(n.set_child(0, ptr(1)), NodeOpRes::Succ);
    assert_eq!(n.get_child(7), Some(ptr(70)));
    assert_eq!(n.get_child(0), Some(ptr(1)));
    assert_eq!(n.get_child(1), None);
    assert!(!n.empty());
    // an occupied key keeps its child
    assert_eq!(n.set_child(7, ptr(71)), NodeOpRes::ChildExists);
    assert_eq!(n.get_child(7), Some(ptr(70)));
    assert_eq!(n.set_child(8, ptr(80)), NodeOpRes::Succ);
    assert!(!n.need_expand());
    assert_eq!(n.set_child(9, ptr(90)), NodeOpRes::Succ);
    assert!(n.need_expand());
    // a full node takes no child
    assert_eq!(n.set_child(10, ptr(100)), NodeOpRes::NotEnoughSpace);
    assert_eq!(n.get_child(10), None);
    n.del_child(7);
    assert_eq!(n.get_child(7), None);
    assert!(!n.need_expand());
    assert_eq!(n.set_child(10, ptr(100)), NodeOpRes::Succ);
    assert_eq!(n.get_child(10), Some(ptr(100)));
    n.del_child(200);
    assert_eq!(n.get_children().len(), 4);
    // the null pointer stands for no child
    assert_eq!(n.set_child(10, Pointer::null()), NodeOpRes::Succ);
    assert_eq!(n.get_child(10), None);
    assert_eq!(n.get_children().len(), 3);
}

#[test]
fn a_freed_slot_with_a_stale_key_is_not_found() {
    let mut n = Node4::new();
    fill(&mut n, 1, 4);
    n.del_child(2);
    assert_eq!(n.get_child(2), None);
    assert_eq!(n.set_child(9, ptr(9)), NodeOpRes::Succ);
    assert_eq!(n.get_child(2), None);
    assert_eq!(n.get_child(9), Some(ptr(9)));
    assert_eq!(n.set_child(2, ptr(2)), NodeOpRes::NotEnoughSpace);
}

#[test]
fn every_class_holds_its_capacity() {
    let mut n16 = Node16::new();
    fill(&mut n16, 250, 16);
    assert!(n16.need_expand());
    assert_eq!(n16.set_child(100, ptr(1)), NodeOpRes::NotEnoughSpace);
    check_children(&n16, 250, 16);
    let mut n48 = Node48::new();
    fill(&mut n48, 200, 48);
    assert!(n48.need_expand());
    assert_eq!(n48.set_child(100, ptr(1)), NodeOpRes::NotEnoughSpace);
    assert_eq!(n48.set_child(200, ptr(1)), NodeOpRes::ChildExists);
    check_children(&n48, 200, 48);
    n48.del_child(210);
    assert_eq!(n48.get_child(210), None);
    assert_eq!(n48.set_child(100, ptr(1100)), NodeOpRes::Succ);
    assert_eq!(n48.get_child(100), Some(ptr(1100)));
    let mut n256 = Node256::new();
    fill(&mut n256, 0, 256);
    assert!(!n256.need_expand());
    assert_eq!(n256.set_child(100, ptr(1)), NodeOpRes::ChildExists);
    check_children(&n256, 0, 256);
    n256.del_child(5);
    assert_eq!(n256.get_child(5), None);
    assert_eq!(n256.get_children().len(), 255);
}

#[test]
fn low_water_marks() {
    let mut n16 = Node16::new();
    fill(&mut n16, 0, 2);
    assert!(n16.need_shrink());
    fill(&mut n16, 2, 1);
    assert!(!n16.need_shrink());
    let mut n48 = Node48::new();
    fill(&mut n48, 100, 14);
    assert!(n48.need_shrink());
    fill(&mut n48, 114, 1);
    assert!(!n48.need_shrink());
    let mut n256 = Node256::new();
    fill(&mut n256, 0, 45);
    assert!(n256.need_shrink());
    fill(&mut n256, 45, 1);
    assert!(!n256.need_shrink());
    let mut n4 = Node4::new();
    assert!(!n4.need_shrink());
    fill(&mut n4, 0, 1);
    assert!(!n4.need_shrink());
}

fn dressed(n: &mut Node4) {
    assert_eq!(n.set_edge(b"edge"), NodeOpRes::Succ);
    n.set_parent(ptr(42));
    n.set_value(b"one".to_vec());
    n.set_value(b"two".to_vec());
    fill(n, 30, 4);
}

fn check_dressed<N: ArtNode>(n: &N) {
    assert_eq!(n.get_edge().as_slice(), b"edge");
    assert_eq!(n.get_parent(), ptr(42));
    assert_eq!(n.get_values(), &vec![b"one".to_vec(), b"two".to_vec()]);
    check_children(n, 30, 4);
}

#[test]
fn growing_through_every_class_and_back() {
    let mut n4 = Node4::new();
    dressed(&mut n4);
    let n16 = n4.expand();
    assert_eq!(n16.node_type(), NodeType::N16);
    check_dressed(&n16);
    let n48 = n16.expand();
    assert_eq!(n48.node_type(), NodeType::N48);
    check_dressed(&n48);
    let n256 = n48.expand();
    assert_eq!(n256.node_type(), NodeType::N256);
    check_dressed(&n256);
    let b48 = n256.shrink().expect("four children fit");
    assert_eq!(b48.node_type(), NodeType::N48);
    check_dressed(&b48);
    let b16 = b48.shrink().expect("four children fit");
    check_dressed(&b16);
    let b4 = b16.shrink().expect("four children fit");
    assert_eq!(b4.node_type(), NodeType::N4);
    check_dressed(&b4);
}

#[test]
fn shrinking_refuses_to_drop_children() {
    let mut n16 = Node16::new();
    fill(&mut n16, 0, 5);
    assert!(n16.shrink().is_none());
    n16.del_child(0);
    assert!(n16.shrink().is_some());
    let mut n48 = Node48::new();
    fill(&mut n48, 0, 17);
    assert!(n48.shrink().is_none());
    let mut n256 = Node256::new();
    fill(&mut n256, 0, 49);
    assert!(n256.shrink().is_none());
    n256.del_child(48);
    assert_eq!(n256.shrink().map(|n| n.get_children().len()), Some(48));
}

#[test]
fn any_node_grows_and_shrinks() {
    let mut n4 = Node4::new();
    dressed(&mut n4);
    let n = Node::N4(n4);
    assert!(n.shrink().is_none());
    let g = n.expand().expect("a larger class");
    assert_eq!(g.node_type(), NodeType::N16);
    check_dressed(&g);
    let s = g.shrink().expect("back again");
    assert_eq!(s.node_type(), NodeType::N4);
    check_dressed(&s);
    let top = Node::N256(Node256::new());
    assert!(top.expand().is_none());
    assert!(!top.need_expand());
}

#[test]
fn edges_are_bounded() {
    assert_eq!(MAX_EDGE_LEN, 17);
    assert_eq!(NODE4_FREE_LEN, 64 - 8 - 4 - 24);
    assert_eq!(NODE16_FREE_LEN, 192 - 8 - 16 - 96);
    assert_eq!(NODE48_FREE_LEN, 576 - 8 - 256 - 288);
    assert_eq!(NODE256_FREE_LEN, 1600 - 8 - 1536);
    assert_eq!(MAX_EDGE_LEN, NODE48_FREE_LEN as usize - 7);
    let mut n = Node4::new();
    assert_eq!(n.set_edge(&[7u8; 17]), NodeOpRes::Succ);
    assert_eq!(n.get_edge().len(), 17);
    assert_eq!(n.set_edge(&[8u8; 18]), NodeOpRes::NotEnoughSpace);
    assert_eq!(n.get_edge().as_slice(), &[7u8; 17]);
    assert_eq!(n.set_edge(b""), NodeOpRes::Succ);
    assert!(n.get_edge().is_empty());
}

#[test]
fn values_accumulate_and_clear() {
    let mut n = Node48::new();
    n.set_value(b"a".to_vec());
    n.set_value(b"a".to_vec());
    n.set_value(Vec::new());
    assert_eq!(n.get_values(), &vec![b"a".to_vec(), b"a".to_vec(), Vec::new()]);
    n.del_values();
    assert!(n.get_values().is_empty());
}

#[test]
fn child_distance_comes_from_the_pointer() {
    let mut n = Node16::new();
    n.set_child(b'x', Pointer::new(NodeType::N48, 13, 5000));
    assert_eq!(n.get_child_distance(b'x'), 13);
    assert_eq!(n.get_child_distance(b'y'), 0);
    assert_eq!(n.get_child(b'x').map(|p| p.node_type()), Some(NodeType::N48));
}

#[test]
fn sentinel_holds_one_pointer() {
    let mut s = Sentinel::new();
    assert_eq!(s.get_child(0), None);
    assert!(s.set_child(0, ptr(9)));
    assert_eq!(s.get_child(200), Some(ptr(9)));
    assert!(s.set_child(3, ptr(10)));
    assert_eq!(s.get_child(0), Some(ptr(10)));
    s.del_child(77);
    assert_eq!(s.get_child(0), None);
}

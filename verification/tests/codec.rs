use dart::codec::{
    be_u32, gen_node_info, get_child_space, get_distance_from_info, get_type_from_info,
    make_pointer_addr, NodeType, Pointer, INDEX_TYPE, MAX_DISTANCE, NODE16_SIZE, NODE256_SIZE,
    NODE48_SIZE, NODE4_SIZE, PAGE_META_SIZE, PAGE_SIZE, POINTER_SIZE,
};

#[test]
fn layout_constants() {
    assert_eq!(PAGE_SIZE, 4096);
    assert_eq!(PAGE_META_SIZE, 128);
    assert_eq!(NODE4_SIZE, 64);
    assert_eq!(NODE16_SIZE, 192);
    assert_eq!(NODE48_SIZE, 576);
    assert_eq!(NODE256_SIZE, 1600);
    assert_eq!(POINTER_SIZE, 6);
    assert_eq!(NodeType::N4.size(), 64);
    assert_eq!(NodeType::N16.size(), 192);
    assert_eq!(NodeType::N48.size(), 576);
    assert_eq!(NodeType::N256.size(), 1600);
    assert_eq!(NodeType::N4.capacity(), 4);
    assert_eq!(NodeType::N16.capacity(), 16);
    assert_eq!(NodeType::N48.capacity(), 48);
    assert_eq!(NodeType::N256.capacity(), 256);
}

#[test]
fn info_byte_packs_class_and_distance() {
    assert_eq!(gen_node_info(5, 0), 5);
    assert_eq!(gen_node_info(5, 1), 64 + 5);
    assert_eq!(gen_node_info(17, 2), 128 + 17);
    assert_eq!(gen_node_info(63, 3), 255);
    assert_eq!(get_distance_from_info(0b1100_0101), 5);
    assert_eq!(get_type_from_info(0b0000_0101), NodeType::N4);
    assert_eq!(get_type_from_info(0b0100_0101), NodeType::N16);
    assert_eq!(get_type_from_info(0b1000_0101), NodeType::N48);
    assert_eq!(get_type_from_info(0b1100_0101), NodeType::N256);
}

#[test]
fn info_byte_round_trip_for_every_class_and_distance() {
    for tp in [NodeType::N4, NodeType::N16, NodeType::N48, NodeType::N256] {
        for d in 0..=MAX_DISTANCE {
            let info = gen_node_info(d, tp.code());
            assert_eq!(get_distance_from_info(info), d);
            assert_eq!(get_type_from_info(info), tp);
        }
    }
}

#[test]
fn info_byte_drops_bits_that_do_not_fit() {
    assert_eq!(gen_node_info(64 + 3, 1), 64 + 3);
    assert_eq!(gen_node_info(3, 4 + 1), 64 + 3);
}

#[test]
fn address_packs_page_and_offset() {
    assert_eq!(make_pointer_addr(1, 128), 4096 + 128);
    assert_eq!(make_pointer_addr(0, 0), 0);
    assert_eq!(make_pointer_addr(3, 4095), 3 * 4096 + 4095);
    assert_eq!(make_pointer_addr(0xF_FFFF, 4095), u32::MAX);
    let p = Pointer::new(NodeType::N16, 7, make_pointer_addr(9, 192));
    assert_eq!(p.page(), 9);
    assert_eq!(p.offset(), 192);
    assert_eq!(p.node_type(), NodeType::N16);
    assert_eq!(p.distance(), 7);
    assert_eq!(p.tag, INDEX_TYPE);
    assert!(!p.is_null());
}

#[test]
fn address_drops_bits_that_do_not_fit() {
    assert_eq!(make_pointer_addr(0x10_0000 + 2, 4096 + 5), 2 * 4096 + 5);
}

#[test]
fn big_endian_number() {
    assert_eq!(be_u32(0x12, 0x34, 0x56, 0x78), 0x1234_5678);
    assert_eq!(be_u32(0, 0, 0, 1), 1);
    assert_eq!(be_u32(0xFF, 0xFF, 0xFF, 0xFF), u32::MAX);
}

#[test]
fn pointer_bytes_round_trip() {
    let p = Pointer::new(NodeType::N48, 17, 0x0012_3456);
    let b = p.to_bytes();
    assert_eq!(b, [1, 128 + 17, 0x00, 0x12, 0x34, 0x56]);
    assert_eq!(Pointer::from_bytes(&b), Some(p));
    assert_eq!(get_child_space(&b), Some(0x0012_3456));
    let n = Pointer::null();
    assert!(n.is_null());
    assert_eq!(n.to_bytes(), [0, 0, 0, 0, 0, 0]);
    assert_eq!(Pointer::from_bytes(&n.to_bytes()), Some(n));
}

#[test]
fn short_slices_hold_no_pointer() {
    assert_eq!(Pointer::from_bytes(&[1, 2, 3, 4, 5]), None);
    assert_eq!(get_child_space(&[1, 2, 3, 4, 5]), None);
    assert_eq!(get_child_space(&[]), None);
    assert_eq!(get_child_space(&[9, 9, 0, 0, 1, 2, 77]), Some(258));
}

#[test]
fn class_codes() {
    assert_eq!(NodeType::N4.code(), 0);
    assert_eq!(NodeType::N16.code(), 1);
    assert_eq!(NodeType::N48.code(), 2);
    assert_eq!(NodeType::N256.code(), 3);
    assert_eq!(NodeType::from_code(2), NodeType::N48);
    assert_eq!(NodeType::from_code(9), NodeType::N4);
}

use dart::codec::{make_pointer_addr, NodeType, MAX_PAGES};
use dart::page::{IndexPage, IndexPool, PageKey, ACTIVE, DELETED, PAGE_DATA_SIZE};
use dart::skiplist::Value;

#[test]
fn first_slot_of_an_empty_allocator() {
    let mut pool = IndexPool::new();
    assert_eq!(pool.page_count(), 0);
    let addr = pool.alloc_node4().expect("a slot");
    assert_eq!(pool.page_count(), 1);
    assert_eq!(addr, make_pointer_addr(1, 128));
    assert_eq!(pool.page(1).unwrap().free_max(), 4096 - 128 - 64);
    assert_eq!(pool.page(1).unwrap().free_max(), 3904);
    assert_eq!(pool.page(1).unwrap().index(), 1);
}

#[test]
fn a_page_serves_n4_slots_until_its_free_run_is_too_short() {
    let mut pool = IndexPool::new();
    for i in 0..62u32 {
        let addr = pool.alloc_node4().expect("a slot");
        assert_eq!(addr, make_pointer_addr(1, 128 + 64 * i));
        assert_eq!(pool.page_count(), 1);
        assert_eq!(pool.page(1).unwrap().free_max() as u32, 3968 - 64 * (i + 1));
    }
    assert_eq!(pool.page(1).unwrap().free_max(), 0);
    let addr = pool.alloc_node4().expect("a slot");
    assert_eq!(pool.page_count(), 2);
    assert_eq!(addr, make_pointer_addr(2, 128));
    assert_eq!(pool.page(2).unwrap().free_max(), 3904);
}

#[test]
fn page_carves_from_the_front_and_marks_the_slot() {
    let mut p = IndexPage::new();
    assert_eq!(p.free_max(), PAGE_DATA_SIZE);
    assert!(!p.is_dirty());
    assert_eq!(p.new_node4(), Some(128));
    assert_eq!(p.new_node(NodeType::N16), Some(192));
    assert_eq!(p.new_node(NodeType::N48), Some(384));
    assert_eq!(p.new_node(NodeType::N256), Some(960));
    assert_eq!(p.free_max(), 4096 - 2560);
    assert_eq!(p.new_node(NodeType::N256), None);
    assert_eq!(p.free_max(), 1536);
    p.set_dirty(true);
    assert!(p.is_dirty());
}

#[test]
fn released_slots_merge_with_their_neighbours() {
    let mut p = IndexPage::new();
    let a = p.new_node4().unwrap();
    let b = p.new_node4().unwrap();
    let c = p.new_node4().unwrap();
    let d = p.new_node(NodeType::N256).unwrap();
    let e = p.new_node(NodeType::N256).unwrap();
    assert_eq!((a, b, c, d, e), (128, 192, 256, 320, 1920));
    assert_eq!(p.free_max(), 4096 - 3520);
    // no free neighbour: a range of its own
    p.free_node(a, NodeType::N4);
    assert_eq!(p.free_max(), 576);
    // no free neighbour either
    p.free_node(c, NodeType::N4);
    assert_eq!(p.free_max(), 576);
    // both neighbours are free: one range of three slots
    p.free_node(b, NodeType::N4);
    assert_eq!(p.free_max(), 576);
    // the first range of the list that is long enough is the tail of the page
    assert_eq!(p.new_node(NodeType::N16), Some(3520));
    assert_eq!(p.free_max(), 384);
    p.free_node(3520, NodeType::N16);
    assert_eq!(p.free_max(), 576);
    // the last slot touches the free tail of the page
    p.free_node(e, NodeType::N256);
    assert_eq!(p.free_max(), 4096 - 1920);
    // and the middle one touches a free range on either side
    p.free_node(d, NodeType::N256);
    assert_eq!(p.free_max(), PAGE_DATA_SIZE);
    assert_eq!(p.new_node(NodeType::N256), Some(128));
}

#[test]
fn best_fit_picks_the_fullest_page_that_still_fits() {
    let mut pool = IndexPool::new();
    // page 1: an N256 and room for 2368 bytes; page 2 likewise
    let a1 = pool.alloc_node(NodeType::N256).unwrap();
    let a2 = pool.alloc_node(NodeType::N256).unwrap();
    assert_eq!(a1 / 4096, 1);
    assert_eq!(a2 / 4096, 1);
    assert_eq!(pool.page(1).unwrap().free_max(), 768);
    let a3 = pool.alloc_node(NodeType::N256).unwrap();
    assert_eq!(a3 / 4096, 2);
    assert_eq!(pool.page(2).unwrap().free_max(), 2368);
    // an N48 fits both: the page with less room gets it
    let a4 = pool.alloc_node(NodeType::N48).unwrap();
    assert_eq!(a4 / 4096, 1);
    assert_eq!(pool.page(1).unwrap().free_max(), 192);
    // now only page 2 has room for an N48
    let a5 = pool.alloc_node(NodeType::N48).unwrap();
    assert_eq!(a5 / 4096, 2);
    // an N16 fits page 1 exactly
    let a6 = pool.alloc_node(NodeType::N16).unwrap();
    assert_eq!(a6 / 4096, 1);
    assert_eq!(pool.page(1).unwrap().free_max(), 0);
    assert_eq!(pool.page_count(), 2);
}

#[test]
fn released_slots_are_used_again() {
    let mut pool = IndexPool::new();
    let mut addrs = Vec::new();
    for _ in 0..62 {
        addrs.push(pool.alloc_node4().unwrap());
    }
    assert_eq!(pool.page(1).unwrap().free_max(), 0);
    pool.release(addrs[10], NodeType::N4);
    assert_eq!(pool.page(1).unwrap().free_max(), 64);
    let again = pool.alloc_node4().unwrap();
    assert_eq!(again, addrs[10]);
    assert_eq!(pool.page_count(), 1);
    for a in &addrs {
        pool.release(*a, NodeType::N4);
    }
    assert_eq!(pool.page(1).unwrap().free_max(), PAGE_DATA_SIZE);
    assert_eq!(pool.alloc_node(NodeType::N256), Some(make_pointer_addr(1, 128)));
    assert_eq!(pool.page_count(), 1);
}

#[test]
fn find_page_and_put_page() {
    let mut pool = IndexPool::new();
    assert_eq!(pool.find_page(4000), None);
    assert_eq!(pool.page_count(), 0);
    let id = pool.find_page(64).expect("a new page");
    assert_eq!(id, 1);
    pool.put_page(id);
    let id = pool.find_page(3968).expect("the same page");
    assert_eq!(id, 1);
    pool.put_page(id);
    assert_eq!(pool.new_page(), Some(2));
    pool.put_page(2);
    assert_eq!(pool.page_count(), 2);
    assert!(pool.page(3).is_none());
    assert!(pool.page(0).is_none());
    assert!(MAX_PAGES > 2);
}

#[test]
fn resolve_gives_the_bytes_of_the_slot() {
    let mut pool = IndexPool::new();
    let a = pool.alloc_node4().unwrap();
    let b = pool.alloc_node4().unwrap();
    {
        let view = pool.get_space(a).expect("page 1");
        assert_eq!(view.len(), 4096 - 128);
        assert_eq!(view[0], ACTIVE);
        assert_eq!(view[64], ACTIVE);
    }
    pool.release(a, NodeType::N4);
    assert_eq!(pool.get_space(a).unwrap()[0], DELETED);
    assert_eq!(pool.get_space(b).unwrap()[0], ACTIVE);
    assert_eq!(pool.get_space(make_pointer_addr(1, 0)).unwrap()[0], 1);
    assert!(pool.get_space(make_pointer_addr(2, 128)).is_none());
    assert!(pool.get_space(5).is_none());
}

#[test]
fn page_keys_order_by_free_run_then_page() {
    let a = PageKey { free_max: 64, index: 9 };
    let b = PageKey { free_max: 65, index: 1 };
    let c = PageKey { free_max: 64, index: 10 };
    assert!(a.value() < b.value());
    assert!(a.value() < c.value());
    assert!(c.value() < b.value());
    assert_eq!(a.value(), 64 * 0x1_0000_0000 + 9);
}

#[test]
fn a_pool_grows_up_to_its_limit() {
    let mut pool = IndexPool::with_limit(2);
    assert_eq!(pool.limit(), 2);
    assert_eq!(IndexPool::new().limit(), MAX_PAGES);
    assert_eq!(IndexPool::with_limit(u32::MAX).limit(), MAX_PAGES);
    let mut got = Vec::new();
    while let Some(a) = pool.alloc_node(NodeType::N256) {
        got.push(a);
    }
    // two N256 slots fit a page
    assert_eq!(got.len(), 4);
    assert_eq!(pool.page_count(), 2);
    assert_eq!(pool.alloc_node(NodeType::N256), None);
    assert_eq!(pool.new_page(), None);
    // smaller nodes still find room
    assert!(pool.alloc_node(NodeType::N48).is_some());
    pool.release(got[1], NodeType::N256);
    assert_eq!(pool.alloc_node(NodeType::N256), Some(got[1]));
}

fn free_bytes(p: &IndexPage) -> u32 {
    p.free_list().iter().map(|r| r.1 as u32).sum()
}

#[test]
fn free_and_taken_bytes_fill_the_page() {
    let mut p = IndexPage::new();
    assert_eq!(p.free_list(), vec![(128, 3968)]);
    let mut taken: Vec<(u16, NodeType)> = Vec::new();
    let classes = [NodeType::N4, NodeType::N16, NodeType::N4, NodeType::N48, NodeType::N4];
    let mut x: u32 = 7;
    for step in 0..400 {
        x = x.wrapping_mul(1103515245).wrapping_add(12345);
        if (x >> 16) % 3 != 0 || taken.is_empty() {
            let tp = classes[step % classes.len()];
            if let Some(off) = p.new_node(tp) {
                taken.push((off, tp));
            }
        } else {
            let i = (x >> 8) as usize % taken.len();
            let (off, tp) = taken.swap_remove(i);
            p.free_node(off, tp);
        }
        let used: u32 = taken.iter().map(|t| t.1.size() as u32).sum();
        assert_eq!(free_bytes(&p) + used, 4096 - 128);
        let longest = p.free_list().iter().map(|r| r.1).max().unwrap_or(0);
        assert_eq!(p.free_max(), longest);
        // no free range ends where another starts, and none overlaps a slot
        let list = p.free_list();
        for a in &list {
            assert!(a.0 >= 128 && a.0 as u32 + a.1 as u32 <= 4096 && a.1 > 0);
            for b in &list {
                assert!(a.0 + a.1 != b.0);
            }
            for t in &taken {
                assert!(a.0 + a.1 <= t.0 || t.0 + t.1.size() <= a.0);
            }
        }
    }
    for (off, tp) in taken {
        p.free_node(off, tp);
    }
    assert_eq!(p.free_list(), vec![(128, 3968)]);
}

#[test]
fn every_page_of_a_pool_keeps_its_account() {
    let mut pool = IndexPool::new();
    let mut taken: Vec<(u32, NodeType)> = Vec::new();
    let classes = [NodeType::N256, NodeType::N4, NodeType::N48, NodeType::N16];
    let mut x: u32 = 99;
    for step in 0..600 {
        x = x.wrapping_mul(1103515245).wrapping_add(12345);
        if (x >> 16) % 3 != 0 || taken.is_empty() {
            let tp = classes[step % classes.len()];
            taken.push((pool.alloc_node(tp).unwrap(), tp));
        } else {
            let i = (x >> 8) as usize % taken.len();
            let (a, tp) = taken.swap_remove(i);
            pool.release(a, tp);
        }
        for id in 1..=pool.page_count() as u32 {
            let used: u32 =
                taken.iter().filter(|t| t.0 / 4096 == id).map(|t| t.1.size() as u32).sum();
            assert_eq!(free_bytes(pool.page(id).unwrap()) + used, 3968);
        }
    }
}

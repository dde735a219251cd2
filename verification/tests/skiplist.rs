use dart::skiplist::{climbs, SkipList, Value, SKIPLIST_MAXLEVEL, SKIPLIST_P};

fn list_of(items: &[u64], level: i32) -> SkipList<u64> {
    let mut sl: SkipList<u64> = SkipList::new(level);
    for x in items {
        sl.insert(*x);
    }
    sl
}

#[test]
fn removed_element_gives_way_to_the_next() {
    let mut sl = list_of(&[1, 2, 3, 4, 5], 32);
    assert_eq!(sl.len(), 5);
    assert_eq!(sl.get(3), Some(3));
    assert_eq!(sl.len(), 4);
    assert_eq!(sl.search(3), Some(&4));
    assert_eq!(sl.values(0), vec![1, 2, 4, 5]);
}

#[test]
fn level_zero_walk_is_sorted_and_counts_the_length() {
    let items = [41u64, 7, 19, 7, 88, 3, 56, 23, 19, 100, 1, 64];
    let mut sl: SkipList<u64> = SkipList::new(32);
    for (n, x) in items.iter().enumerate() {
        sl.insert(*x);
        let v = sl.values(0);
        assert_eq!(v.len() as u64, sl.len());
        assert_eq!(v.len(), n + 1);
        assert!(v.windows(2).all(|w| w[0] <= w[1]));
    }
    for x in [19u64, 1, 100, 50, 7] {
        sl.get(x);
        let v = sl.values(0);
        assert_eq!(v.len() as u64, sl.len());
        assert!(v.windows(2).all(|w| w[0] <= w[1]));
    }
    assert_eq!(sl.values(0), vec![3, 7, 19, 23, 41, 64, 88]);
}

#[test]
fn empty_list() {
    let mut sl: SkipList<u64> = SkipList::new(8);
    assert_eq!(sl.len(), 0);
    assert_eq!(sl.search(5), None);
    assert_eq!(sl.get(5), None);
    assert_eq!(sl.values(0), Vec::<u64>::new());
    assert_eq!(sl.len(), 0);
}

#[test]
fn search_finds_exact_or_next_greater() {
    let sl = list_of(&[10, 20, 30], 32);
    assert_eq!(sl.search(20), Some(&20));
    assert_eq!(sl.search(15), Some(&20));
    assert_eq!(sl.search(0), Some(&10));
    assert_eq!(sl.search(30), Some(&30));
    assert_eq!(sl.search(31), None);
    assert_eq!(sl.len(), 3);
}

#[test]
fn get_takes_exact_or_next_greater() {
    let mut sl = list_of(&[10, 20, 30], 32);
    assert_eq!(sl.get(15), Some(20));
    assert_eq!(sl.values(0), vec![10, 30]);
    assert_eq!(sl.get(31), None);
    assert_eq!(sl.values(0), vec![10, 30]);
    assert_eq!(sl.get(0), Some(10));
    assert_eq!(sl.get(0), Some(30));
    assert_eq!(sl.get(0), None);
    assert_eq!(sl.len(), 0);
}

#[test]
fn heights_decide_the_upper_levels() {
    let mut sl: SkipList<u64> = SkipList::new(4);
    sl.insert_with_level(5, 1);
    sl.insert_with_level(1, 3);
    sl.insert_with_level(9, 2);
    sl.insert_with_level(7, 4);
    sl.insert_with_level(3, 99);
    sl.insert_with_level(4, -2);
    assert_eq!(sl.values(0), vec![1, 3, 4, 5, 7, 9]);
    assert_eq!(sl.values(1), vec![1, 3, 7, 9]);
    assert_eq!(sl.values(2), vec![1, 3, 7]);
    assert_eq!(sl.values(3), vec![3, 7]);
    assert_eq!(sl.values(4), Vec::<u64>::new());
    assert_eq!(sl.get(3), Some(3));
    assert_eq!(sl.values(3), vec![7]);
    assert_eq!(sl.values(1), vec![1, 7, 9]);
    assert_eq!(sl.values(0), vec![1, 4, 5, 7, 9]);
}

#[test]
fn level_out_of_range_means_thirty_two() {
    let mut sl: SkipList<u64> = SkipList::new(0);
    sl.insert_with_level(1, 32);
    assert_eq!(sl.values(31), vec![1]);
    let mut sl: SkipList<u64> = SkipList::new(33);
    sl.insert_with_level(1, 32);
    assert_eq!(sl.values(31), vec![1]);
    let mut sl: SkipList<u64> = SkipList::new(-5);
    sl.insert_with_level(2, 40);
    assert_eq!(sl.values(31), vec![2]);
    assert_eq!(sl.values(32), Vec::<u64>::new());
}

#[test]
fn vacated_places_are_used_again() {
    let mut sl: SkipList<u64> = SkipList::new(32);
    for round in 0..50u64 {
        for x in 0..20u64 {
            sl.insert(round * 100 + x);
        }
        for _ in 0..20 {
            assert!(sl.get(0).is_some());
        }
        assert_eq!(sl.len(), 0);
    }
    sl.insert(4);
    assert_eq!(sl.values(0), vec![4]);
}

#[test]
fn signed_numbers_keep_their_order() {
    let mut sl: SkipList<i32> = SkipList::new(32);
    for x in [5, -3, 0, i32::MIN, i32::MAX, -1] {
        sl.insert(x);
    }
    assert_eq!((-1i32).value(), 0x7FFF_FFFF);
    assert_eq!(0i32.value(), 0x8000_0000);
    assert_eq!(sl.get(i32::MIN), Some(i32::MIN));
    assert_eq!(sl.get(-2), Some(-1));
    assert_eq!(sl.search(1), Some(&5));
    assert_eq!(sl.len(), 4);
}

#[test]
fn many_random_heights_keep_the_order() {
    let mut sl: SkipList<u64> = SkipList::new(32);
    for i in 0..2000u64 {
        sl.insert((i * 7919) % 1009);
    }
    assert_eq!(sl.len(), 2000);
    let v = sl.values(0);
    assert_eq!(v.len(), 2000);
    assert!(v.windows(2).all(|w| w[0] <= w[1]));
    for l in 1..32 {
        let u = sl.values(l);
        assert!(u.windows(2).all(|w| w[0] <= w[1]));
        assert!(u.len() <= sl.values(l - 1).len());
    }
}

#[test]
fn a_node_climbs_for_a_draw_above_the_threshold_until_it_is_highest() {
    assert!(climbs(1, 1));
    assert!(climbs(i32::MAX, SKIPLIST_MAXLEVEL - 1));
    assert!(!climbs(SKIPLIST_P, 1));
    assert!(!climbs(-1, 1));
    assert!(!climbs(i32::MIN, 5));
    assert!(!climbs(1, SKIPLIST_MAXLEVEL));
    assert!(!climbs(i32::MAX, SKIPLIST_MAXLEVEL));
}

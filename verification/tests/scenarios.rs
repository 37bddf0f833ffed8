use skippy_rs::list::SkipList;

#[test]
fn insert_then_iterate_in_key_order() {
    let mut list = SkipList::new();
    list.insert(5, 'a');
    list.insert(3, 'b');
    list.insert(7, 'c');
    let mut seen = Vec::new();
    let mut it = list.iter();
    while let Some(e) = it.next() {
        seen.push((*e.key(), *e.val()));
    }
    assert_eq!(seen, vec![(3, 'b'), (5, 'a'), (7, 'c')]);
}

#[test]
fn second_insert_returns_first_entry() {
    let mut list = SkipList::new();
    assert!(list.insert(1, 'x').is_none());
    assert_eq!(list.insert(1, 'y'), Some((1, 'x')));
    assert_eq!(*list.get(&1).unwrap().val(), 'y');
}

#[test]
fn remove_twice_returns_entry_once() {
    let mut list = SkipList::new();
    list.insert(2, 'a');
    assert_eq!(list.remove(&2), Some((2, 'a')));
    assert!(list.get(&2).is_none());
    assert_eq!(list.remove(&2), None);
    assert_eq!(list.len(), 0);
}

#[test]
fn empty_list_has_nothing_to_give() {
    let mut list: SkipList<u32, u32> = SkipList::new();
    assert!(list.is_empty());
    assert_eq!(list.len(), 0);
    assert!(list.get_first().is_none());
    assert!(list.get_last().is_none());
    assert!(list.get(&1).is_none());
    assert_eq!(list.remove(&1), None);
    assert_eq!(list.remove_first(), None);
    assert!(list.first_entry().is_none());
    assert!(list.iter().next().is_none());
    assert!(list.to_vec().is_empty());
}

#[test]
fn single_element_is_first_and_last() {
    let mut list = SkipList::new();
    list.insert(9u64, "nine");
    assert_eq!(list.len(), 1);
    assert_eq!(*list.get_first().unwrap().key(), 9);
    assert_eq!(*list.get_last().unwrap().key(), 9);
    assert_eq!(*list.get_first().unwrap().val(), "nine");
    assert_eq!(list.remove(&9), Some((9, "nine")));
    assert!(list.is_empty());
    assert_eq!(list.len(), 0);
    assert!(list.get_first().is_none());
}

#[test]
fn inserted_value_is_found_until_its_key_is_removed() {
    let mut list = SkipList::new();
    list.insert(10u32, 'a');
    list.insert(20u32, 'b');
    list.remove(&20);
    list.insert(5u32, 'c');
    assert_eq!(*list.get(&10).unwrap().val(), 'a');
    list.remove(&10);
    assert!(list.get(&10).is_none());
    list.insert(15u32, 'd');
    list.remove(&5);
    assert!(list.get(&10).is_none());
    list.insert(10u32, 'e');
    assert_eq!(*list.get(&10).unwrap().val(), 'e');
}

#[test]
fn first_and_last_are_the_smallest_and_the_largest_key() {
    let mut list = SkipList::new();
    for k in [40u16, 10, 30, 50, 20] {
        list.insert(k, k + 1);
    }
    let first = list.get_first().unwrap();
    assert_eq!((*first.key(), *first.val()), (10, 11));
    let last = list.get_last().unwrap();
    assert_eq!((*last.key(), *last.val()), (50, 51));
    list.remove(&50);
    list.remove(&10);
    assert_eq!(*list.get_first().unwrap().key(), 20);
    assert_eq!(*list.get_last().unwrap().key(), 40);
}

#[test]
fn many_keys_stay_in_order_whatever_heights_are_drawn() {
    let mut list = SkipList::new();
    for k in (0..5000u32).rev() {
        list.insert(k.wrapping_mul(2654435761) % 10007, k);
    }
    let keys: Vec<u32> = list.to_vec().iter().map(|e| *e.key()).collect();
    assert_eq!(keys.len(), list.len());
    assert!(keys.windows(2).all(|w| w[0] < w[1]));
    let found = list.find(&keys[keys.len() / 2], false);
    assert_eq!(found.prev.len(), 32);
    assert!(found.target.is_some());
}

#[test]
fn retired_slots_are_taken_up_again() {
    let mut list = SkipList::new();
    for round in 0..50u32 {
        for k in 0..100u32 {
            list.insert(k, round);
        }
        for k in 0..100u32 {
            assert_eq!(list.remove(&k), Some((k, round)));
        }
        assert_eq!(list.len(), 0);
    }
    list.insert(1, 0);
    let first = list.find(&1, false).target.unwrap();
    // one hundred slots were ever taken; the node sits in one of them
    assert!(first < (100 + 2) * 8);
}

#[test]
fn heights_grow_one_level_at_a_time_up_to_the_cap() {
    // From state 0 every draw is the largest height; only the empty top of
    // the head tower holds it down.
    let mut list = SkipList::with_seed(0);
    for k in 0..40usize {
        assert!(list.insert(k, ()).is_none());
        let found = list.find(&k, false);
        let target = found.target.unwrap();
        let height = found.prev.iter().filter(|p| p.1 == target).count();
        assert_eq!(height, std::cmp::min(3 + k, 32));
    }
    assert_eq!(list.len(), 40);
    let keys: Vec<usize> = list.to_vec().iter().map(|e| *e.key()).collect();
    assert_eq!(keys, (0..40).collect::<Vec<usize>>());
    for k in 0..40usize {
        assert_eq!(list.remove(&k), Some((k, ())));
    }
    assert_eq!(list.len(), 0);
}

#[test]
fn value_is_exchanged_through_a_handle() {
    let mut list = SkipList::new();
    list.insert(1u8, "a");
    list.insert(2u8, "b");
    list.insert(3u8, "c");
    assert!(list.get_mut(&9).is_none());
    assert_eq!(list.get_mut(&2).unwrap().set("B"), "b");
    assert_eq!(list.get_first_mut().unwrap().set("A"), "a");
    let last = list.get_last_mut().unwrap();
    assert_eq!((*last.key(), *last.val()), (3, "c"));
    assert_eq!(last.set("C"), "c");
    let all: Vec<(u8, &str)> = list.to_vec().iter().map(|e| (*e.key(), *e.val())).collect();
    assert_eq!(all, vec![(1, "A"), (2, "B"), (3, "C")]);
    assert_eq!(list.len(), 3);
}

#[test]
fn list_for_a_single_owner_turns_into_a_list_of_towers() {
    let mut seq = skippy_rs::skiplist::SkipList::new();
    seq.insert(2u32, 'b');
    seq.insert(1u32, 'a');
    let mut list = SkipList::from(seq);
    assert_eq!(list.len(), 2);
    assert_eq!(list.insert(1, 'z'), Some((1, 'a')));
    assert_eq!(*list.get(&2).unwrap().val(), 'b');
}

#[test]
fn drawn_height_is_held_down_by_the_empty_top_of_the_head() {
    let mut list: SkipList<u8, ()> = SkipList::with_seed(0);
    // the largest height is drawn; the head links nothing, so 3 is left
    assert_eq!(list.gen_height(), 3);
    assert_eq!(list.gen_height(), 3);
    list.insert(1, ());
    // the head now links levels 0 to 2: one level more is allowed
    assert_eq!(list.gen_height(), 4);
    assert_eq!(list.len(), 1);

    // state 1 steps to a state without trailing zeros: height 1
    let mut other: SkipList<u8, ()> = SkipList::with_seed(1);
    assert_eq!(other.gen_height(), 1);
}

#[test]
fn cursor_hands_out_every_entry_for_exchange_in_key_order() {
    let mut list = SkipList::new();
    for k in [3u8, 1, 2, 5, 4] {
        list.insert(k, u32::from(k));
    }
    list.entry(3).unwrap().remove();
    let mut seen = Vec::new();
    let mut it = list.iter_mut();
    while let Some(handle) = it.next() {
        let key = *handle.key();
        seen.push(key);
        assert_eq!(handle.set(u32::from(key) * 10), u32::from(key));
    }
    assert_eq!(seen, vec![1, 2, 4, 5]);
    let all: Vec<(u8, u32)> = list.to_vec().iter().map(|e| (*e.key(), *e.val())).collect();
    assert_eq!(all, vec![(1, 10), (2, 20), (4, 40), (5, 50)]);
}

#[test]
fn insert_that_may_refuse_inserts_while_there_is_room() {
    let mut list = SkipList::new();
    assert_eq!(list.try_insert(1u8, 'a'), Ok(None));
    assert_eq!(list.try_insert(1u8, 'b'), Ok(Some((1, 'a'))));
    assert_eq!(list.try_insert(2u8, 'c'), Ok(None));
    assert_eq!(list.len(), 2);
    assert_eq!(*list.get(&1).unwrap().val(), 'b');
    let keys: Vec<u8> = list.to_vec().iter().map(|e| *e.key()).collect();
    assert_eq!(keys, vec![1, 2]);
}

#[test]
fn links_around_a_new_node_lead_to_it_and_on() {
    let mut list = SkipList::with_seed(0);
    list.insert(10u32, ());
    list.insert(30u32, ());
    let before = list.find(&20, false);
    assert!(before.target.is_none());
    list.insert(20u32, ());
    let after = list.find(&20, false);
    let node = after.target.unwrap();
    let below = list.find(&10, false).target.unwrap();
    let above = list.find(&30, false).target.unwrap();
    // at the bottom the node stands between its neighbours
    assert_eq!(after.prev[0], (below, node));
    assert_eq!(list.find(&30, false).prev[0], (node, above));
    // the search before the insertion had found the same place
    assert_eq!(before.prev[0], (below, above));
    // removal swings the predecessor's link back to the successor
    assert_eq!(list.remove(&20), Some((20, ())));
    assert_eq!(list.find(&30, false).prev[0], (below, above));
    assert_eq!(list.find(&20, false).prev[0], (below, above));
}

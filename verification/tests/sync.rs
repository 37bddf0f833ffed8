use rand::Rng;
use skippy_rs::list::SkipList;
use skippy_rs::node::Node;

#[test]
fn sync_test_new_node_sync() {
    let node = Node::new(100, "hello", 1);
    let other = Node::new(100, "hello", 1);
    println!("node 1: {:?},", (node.key(), node.val(), node.height()));
    println!("node 2: {:?},", (other.key(), other.val(), other.height()));

    assert_eq!(node.key(), other.key());
    assert_eq!(node.val(), other.val());
}

#[test]
fn sync_test_new_list_sync() {
    let _: SkipList<usize, usize> = SkipList::new();
}

#[test]
fn sync_test_insert_sync() {
    let mut list = SkipList::new();
    let mut rng: u16 = rand::random();

    for _ in 0..100_000 {
        rng ^= rng << 3;
        rng ^= rng >> 12;
        rng ^= rng << 7;
        list.insert(rng, "hello there!");
    }
}

#[test]
fn sync_test_rand_height_sync() {
    let mut list: SkipList<i32, i32> = SkipList::new();
    let node = Node::new("Hello", "There!", list.gen_height());

    assert!(node.key().is_some());
    let height = node.levels.len();

    println!("height: {}", height);
    assert_eq!(node.height(), height);
    assert!(1 <= height && height <= 32);

    println!("[key: {:?}, val: {:?}, level: {}]", node.key(), node.val(), height);
}

#[test]
fn sync_test_insert_verbose_sync() {
    let mut list = SkipList::new();

    list.insert(1, 1);

    list.to_vec().iter().for_each(|n| println!("k: {},", n.key()));

    list.insert(2, 2);

    list.to_vec().iter().for_each(|n| println!("k: {},", n.key()));

    list.insert(5, 3);

    list.to_vec().iter().for_each(|n| println!("k: {},", n.key()));
}

#[test]
fn sync_test_remove() {
    let mut list = SkipList::new();
    let mut rng: u16 = rand::random();

    for _ in 0..100_000 {
        rng ^= rng << 3;
        rng ^= rng >> 12;
        rng ^= rng << 7;
        list.insert(rng, "hello there!");
    }
    for _ in 0..100_000 {
        rng ^= rng << 3;
        rng ^= rng >> 12;
        rng ^= rng << 7;
        list.remove(&rng);
    }
}

#[test]
fn sync_test_verbose_remove() {
    let mut list = SkipList::new();

    list.insert(1, 1);
    list.insert(2, 2);
    list.insert(2, 2);
    list.insert(5, 3);

    assert!(list.remove(&1).is_some());

    println!("removing 6");
    assert!(list.remove(&6).is_none());
    println!("removing 1");
    assert!(list.remove(&1).is_none());
    println!("removing 5");
    assert!(list.remove(&5).is_some());
    println!("removing 2");
    assert!(list.remove(&2).is_some());

    assert_eq!(list.len(), 0);
}

#[test]
fn sync_test_find_removed() {
    let mut list = SkipList::new();

    list.insert(3, ());

    list.insert(4, ());

    list.insert(5, ());

    assert!(list.find(&3, false).target.is_some());
    assert!(list.find(&4, false).target.is_some());

    // make sure the nodes are in the right order
    let keys: Vec<i32> = list.to_vec().iter().map(|e| *e.key()).collect();
    assert_eq!(keys[0], 3);
    assert_eq!(keys[1], 4);
    assert_eq!(keys[2], 5);

    // remove the node logically
    let _ = list.entry(4).unwrap().remove();

    assert!(list.find(&4, false).target.is_none());

    println!("{:?}", list.find(&3, false).target);

    assert!(list.get(&3).is_some());

    assert!(list.remove(&4).is_none());

    // bring the key back
    list.insert(4, ());

    assert!(list.get(&4).is_some());

    assert!(list.remove(&4).is_some());
}

#[test]
fn mod_test_new_node_sync() {
    let node = Node::new(100, "hello", 1);
    let other = Node::new(100, "hello", 1);
    println!("node 1: {:?},", (node.key(), node.val(), node.height()));
    println!("node 2: {:?},", (other.key(), other.val(), other.height()));

    assert_eq!(node.key(), other.key());
    assert_eq!(node.val(), other.val());
}

#[test]
fn mod_test_new_list_sync() {
    let _: SkipList<usize, usize> = SkipList::new();
}

#[test]
fn mod_test_insert_sync() {
    let mut list = SkipList::new();
    let mut rng: u16 = rand::random();

    for _ in 0..10_000 {
        rng ^= rng << 3;
        rng ^= rng >> 12;
        rng ^= rng << 7;
        list.insert(rng, "hello there!");
    }
}

#[test]
fn mod_test_rand_height_sync() {
    let mut list: SkipList<i32, i32> = SkipList::new();
    let node = Node::new("Hello", "There!", list.gen_height());

    assert!(node.key().is_some());
    let height = node.levels.len();

    println!("height: {}", height);
    assert_eq!(node.height(), height);
    assert!(1 <= height && height <= 32);

    println!("[key: {:?}, val: {:?}, level: {}]", node.key(), node.val(), height);
}

#[test]
fn mod_test_insert_verbose_sync() {
    let mut list = SkipList::new();

    list.insert(1, 1);

    list.to_vec().iter().for_each(|n| println!("k: {},", n.key()));

    list.insert(2, 2);

    list.to_vec().iter().for_each(|n| println!("k: {},", n.key()));

    list.insert(5, 3);

    list.to_vec().iter().for_each(|n| println!("k: {},", n.key()));
}

#[test]
fn mod_test_remove() {
    let mut list = SkipList::new();
    let mut rng: u16 = rand::random();

    for _ in 0..10_000 {
        rng ^= rng << 3;
        rng ^= rng >> 12;
        rng ^= rng << 7;
        list.insert(rng, "hello there!");
    }
    for _ in 0..10_000 {
        rng ^= rng << 3;
        rng ^= rng >> 12;
        rng ^= rng << 7;
        list.remove(&rng);
    }
}

#[test]
fn mod_test_verbose_remove() {
    let mut list = SkipList::new();

    list.insert(1, 1);
    list.insert(2, 2);
    list.insert(2, 2);
    list.insert(5, 3);

    list.to_vec().iter().for_each(|n| println!("k: {},", n.key()));

    assert!(list.remove(&1).is_some());

    list.to_vec().iter().for_each(|n| println!("k: {},", n.key()));

    println!("removing 6");
    assert!(list.remove(&6).is_none());
    println!("removing 1");
    assert!(list.remove(&1).is_none());
    println!("removing 5");
    assert!(list.remove(&5).is_some());
    println!("removing 2");
    assert!(list.remove(&2).is_some());

    list.to_vec().iter().for_each(|n| println!("k: {},", n.key()));

    assert_eq!(list.len(), 0);
}

#[test]
fn mod_test_find_removed() {
    let mut list = SkipList::new();

    list.insert(3, ());

    list.insert(4, ());

    list.insert(5, ());

    assert!(list.find(&3, false).target.is_some());
    assert!(list.find(&4, false).target.is_some());

    // make sure the nodes are in the right order
    let keys: Vec<i32> = list.to_vec().iter().map(|e| *e.key()).collect();
    assert_eq!(keys[0], 3);
    assert_eq!(keys[1], 4);
    assert_eq!(keys[2], 5);

    // remove the node logically
    let _ = list.entry(4).unwrap().remove();

    assert!(list.find(&4, false).target.is_none());

    println!("{:?}", list.find(&3, false).target);

    assert!(list.get(&3).is_some());

    assert!(list.remove(&4).is_none());

    // bring the key back
    list.insert(4, ());

    assert!(list.get(&4).is_some());

    assert!(list.remove(&4).is_some());
}

#[test]
fn single_owner_run_of_mixed_insertions_and_removals() {
    let mut list = SkipList::new();
    let mut seed: u32 = 0x9e37_79b9;
    let mut model = std::collections::BTreeMap::new();
    for _ in 0..20_000 {
        seed ^= seed << 13;
        seed ^= seed >> 17;
        seed ^= seed << 5;
        let key = (seed >> 8) as u8;
        if seed % 5 == 0 {
            assert_eq!(list.remove(&key), model.remove(&key).map(|v| (key, v)));
        } else {
            assert_eq!(list.insert(key, seed), model.insert(key, seed).map(|v| (key, v)));
        }
        assert_eq!(list.len(), model.len());
    }
    let got: Vec<(u8, u32)> = list.to_vec().iter().map(|e| (*e.key(), *e.val())).collect();
    let want: Vec<(u8, u32)> = model.iter().map(|(k, v)| (*k, *v)).collect();
    assert_eq!(got, want);
}

#[test]
fn marked_nodes_leave_the_count_at_once_and_the_arena_when_passed() {
    let mut list = SkipList::new();
    for k in 1..=5u32 {
        list.insert(k, ());
    }
    assert_eq!(list.nodes_held(), 5);
    assert_eq!(list.first_entry().unwrap().remove(), Some((1, ())));
    // the node is off the count at once, marked and still linked
    assert_eq!(list.len(), 4);
    assert_eq!(list.nodes_held(), 5);
    assert_eq!(list.entry(3).unwrap().remove(), Some((3, ())));
    assert_eq!(list.len(), 3);
    assert!(list.nodes_held() == 4 || list.nodes_held() == 5);
    assert_eq!(*list.get_first().unwrap().key(), 2);
    assert_eq!(*list.get_last().unwrap().key(), 5);
    let keys: Vec<u32> = list.to_vec().iter().map(|e| *e.key()).collect();
    assert_eq!(keys, vec![2, 4, 5]);
    assert_eq!(*list.first_entry().unwrap().key(), 2);
    // a search for the key of a marked node meets the node at every level;
    // it unlinks the node and leaves the count alone
    assert!(list.find(&1, false).target.is_none());
    assert!(list.find(&3, false).target.is_none());
    assert_eq!(list.len(), 3);
    assert_eq!(list.nodes_held(), 3);
    assert!(list.remove(&2).is_some());
    assert_eq!(list.len(), 2);
    assert_eq!(list.nodes_held(), 2);
}

#[test]
fn closest_search_finds_the_first_key_at_or_after() {
    let mut list = SkipList::new();
    for k in [10u32, 20, 30] {
        list.insert(k, ());
    }
    let exact = list.find(&20, false).target;
    assert!(exact.is_some());
    assert_eq!(list.find(&20, true).target, exact);
    assert_eq!(list.find(&15, true).target, exact);
    assert!(list.find(&15, false).target.is_none());
    assert!(list.find(&31, true).target.is_none());
    let first = list.find(&10, false).target;
    assert_eq!(list.find(&0, true).target, first);
}

#[test]
fn every_way_of_removing_agrees_with_an_ordered_map() {
    let mut list = SkipList::with_seed(0x2545_f491);
    let mut model = std::collections::BTreeMap::new();
    let mut seed: u32 = 0x1234_5678;
    for _ in 0..30_000 {
        seed ^= seed << 13;
        seed ^= seed >> 17;
        seed ^= seed << 5;
        let key = (seed >> 9) as u8;
        match seed % 8 {
            0 => {
                assert_eq!(list.remove(&key), model.remove(&key).map(|v| (key, v)));
            }
            1 => {
                let got = match list.entry(key) {
                    Some(handle) => handle.remove(),
                    None => None,
                };
                assert_eq!(got, model.remove(&key).map(|v| (key, v)));
            }
            2 => {
                let got = match list.first_entry() {
                    Some(handle) => handle.remove(),
                    None => None,
                };
                assert_eq!(got, model.pop_first());
            }
            3 => {
                assert_eq!(list.remove_first(), model.pop_first());
            }
            4 => {
                let got = list.get_mut(&key).map(|handle| handle.set(seed));
                let want = model.get_mut(&key).map(|v| std::mem::replace(v, seed));
                assert_eq!(got, want);
            }
            _ => {
                assert_eq!(list.insert(key, seed), model.insert(key, seed).map(|v| (key, v)));
            }
        }
        assert_eq!(list.len(), model.len());
        assert!(list.nodes_held() >= list.len());
        assert_eq!(list.get(&key).map(|e| *e.val()), model.get(&key).copied());
        assert_eq!(
            list.get_first().map(|e| (*e.key(), *e.val())),
            model.first_key_value().map(|(k, v)| (*k, *v))
        );
        assert_eq!(
            list.get_last().map(|e| (*e.key(), *e.val())),
            model.last_key_value().map(|(k, v)| (*k, *v))
        );
    }
    let got: Vec<(u8, u32)> = list.to_vec().iter().map(|e| (*e.key(), *e.val())).collect();
    let want: Vec<(u8, u32)> = model.iter().map(|(k, v)| (*k, *v)).collect();
    assert_eq!(got, want);
    // a search for every key meets whatever marked node is left
    for key in 0..=255u8 {
        list.find(&key, false);
    }
    assert_eq!(list.len(), model.len());
    assert_eq!(list.nodes_held(), model.len());
}

// The workers of the runs below take their turns one after another on a
// list with a single owner.

#[test]
fn sync_test_sync_remove() {
    let mut list = SkipList::new();
    let mut rng = rand::thread_rng();

    for _ in 0..10_000 {
        list.insert(rng.gen::<u16>(), ());
    }
    for _ in 0..30 {
        let mut rng = rand::thread_rng();
        for _ in 0..1_000 {
            let target = &rng.gen::<u16>();
            let success = list.remove(&target);
            if success.is_some() {
                println!("{:?}", success);
            }
        }
        println!("all done!");
    }

    list.to_vec().iter().for_each(|e| println!("key: {}", e.key()));
}

#[test]
fn sync_test_sync_insert() {
    let mut list = SkipList::new();

    for _ in 0..30 {
        let mut rng = rand::thread_rng();
        for _ in 0..10_000 {
            let target = rng.gen::<u8>();

            list.insert(target, ());
        }
    }

    list.to_vec().iter().for_each(|e| println!("key: {}", e.key()));
}

#[test]
fn sync_test_sync_inmove() {
    let mut list = SkipList::new();

    for _ in 0..20 {
        let mut rng = rand::thread_rng();
        for _ in 0..10_000 {
            let target = rng.gen::<u8>();
            if rng.gen::<u8>() % 5 == 0 {
                list.remove(&target);
            } else {
                list.insert(target, ());
            }
        }
    }

    list.to_vec().iter().for_each(|e| println!("key: {}", e.key()));
}

#[test]
fn mod_test_sync_remove() {
    let mut list = SkipList::new();
    let mut rng = rand::thread_rng();

    for _ in 0..10_000 {
        list.insert(rng.gen::<u16>(), ());
    }
    for _ in 0..20 {
        let mut rng = rand::thread_rng();
        for _ in 0..1_000 {
            let target = &rng.gen::<u16>();
            list.remove(&target);
        }
    }

    list.to_vec().iter().for_each(|e| println!("key: {}", e.key()));
}

#[test]
fn mod_test_sync_insert() {
    let mut list = SkipList::new();

    for _ in 0..20 {
        let mut rng = rand::thread_rng();
        for _ in 0..1_000 {
            let target = rng.gen::<u8>();

            list.insert(target, ());
        }
    }

    list.to_vec().iter().for_each(|e| println!("key: {}", e.key()));
}

#[test]
fn mod_test_sync_inmove() {
    let mut list = SkipList::new();

    for _ in 0..20 {
        let mut rng = rand::thread_rng();
        for _ in 0..5_000 {
            let target = rng.gen::<u8>();
            if rng.gen::<u8>() % 5 == 0 {
                list.remove(&target);
            } else {
                list.insert(target, ());
            }
        }
    }

    list.to_vec().iter().for_each(|e| println!("key: {}", e.key()));
}

#[test]
fn test_sync_iterate() {
    let mut list = SkipList::new();

    for worker in 0..20 {
        let mut rng = rand::thread_rng();
        for _ in 0..1_000 {
            let target = rng.gen::<u8>();
            if rng.gen::<u8>() % 5 == 0 {
                list.remove(&target);
            } else {
                list.insert(target, ());
            }
        }
        if worker < 5 {
            let mut it = list.iter();
            while let Some(e) = it.next() {
                println!("key: {}", e.key());
            }
        }
    }

    let keys: Vec<u8> = list.to_vec().iter().map(|e| *e.key()).collect();
    assert!(keys.windows(2).all(|w| w[0] < w[1]));

    let mut rest = list.into_iter();
    let mut drained = Vec::new();
    while let Some((k, _)) = rest.next() {
        println!("key: {}", k);
        drained.push(k);
    }
    assert_eq!(drained, keys);
}

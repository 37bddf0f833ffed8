use skippy_rs::node::Node;
use skippy_rs::skiplist::SkipList;

#[test]
fn skiplist_test_new_node() {
    let node = Node::new(100, "hello", 1);
    let other = Node::new(100, "hello", 1);
    println!("node 1: {:?},", (node.key(), node.val(), node.height()));
    println!("node 2: {:?},", (other.key(), other.val(), other.height()));

    assert_eq!(node.key(), other.key());
    assert_eq!(node.val(), other.val());
    assert_eq!(node.key(), Some(&100));
    assert_eq!(node.val(), Some(&"hello"));
}

#[test]
fn skiplist_test_new_list() {
    let _: SkipList<usize, usize> = SkipList::new();
}

#[test]
fn skiplist_test_insert() {
    let mut list = SkipList::new();
    let mut rng: u16 = rand::random();

    for _ in 0..100_000 {
        rng ^= rng << 3;
        rng ^= rng >> 12;
        rng ^= rng << 7;
        list.insert(rng, "hello there!");
    }
}

#[test]
fn skiplist_test_rand_height() {
    let mut list: SkipList<i32, i32> = SkipList::new();
    let node = Node::new("Hello", "There!", list.gen_height());

    assert!(node.key().is_some());
    let height = node.levels.len();

    println!("height: {}", height);
    assert_eq!(node.height(), height);
    assert!(1 <= height && height <= 32);

    println!("[key: {:?}, val: {:?}, level: {}]", node.key(), node.val(), height);
}

#[test]
fn skiplist_test_insert_verbose() {
    let mut list = SkipList::new();

    list.insert(1, 1);

    list.to_vec().iter().for_each(|n| println!("k: {}", n.key()));

    list.insert(2, 2);

    list.to_vec().iter().for_each(|n| println!("k: {}", n.key()));

    list.insert(5, 3);

    list.to_vec().iter().for_each(|n| println!("k: {}", n.key()));
}

#[test]
fn skiplist_test_remove() {
    let mut list = SkipList::new();
    let mut rng: u16 = rand::random();

    for _ in 0..100_000 {
        rng ^= rng << 3;
        rng ^= rng >> 12;
        rng ^= rng << 7;
        list.insert(rng, "hello there!");
    }
    for _ in 0..100_000 {
        rng ^= rng << 3;
        rng ^= rng >> 12;
        rng ^= rng << 7;
        list.remove(&rng);
    }
}

#[test]
fn skiplist_test_verbose_remove() {
    let mut list = SkipList::new();

    list.insert(1, 1);
    list.insert(2, 2);
    list.insert(2, 2);
    list.insert(5, 3);

    assert!(list.remove(&1).is_some());

    println!("removing 6");
    assert!(list.remove(&6).is_none());
    println!("removing 1");
    assert!(list.remove(&1).is_none());
    println!("removing 5");
    assert!(list.remove(&5).is_some());
    println!("removing 2");
    assert!(list.remove(&2).is_some());

    assert_eq!(list.len(), 0);
}

#[test]
fn test_traverse() {
    let mut list = SkipList::new();
    for _ in 0..100 {
        list.insert(rand::random::<u8>(), ());
    }

    let mut prev = list.get_first().unwrap().key().clone();

    let mut it = list.iter();
    while let Some(e) = it.next() {
        let k = e.key();
        println!("key: {:?}", k);
        assert!(*k >= prev);
        prev = k.clone();
    }
}

#[test]
fn test_get_last() {
    let mut list = SkipList::new();
    for _ in 0..100 {
        list.insert(rand::random::<u8>(), ());
    }

    assert!(list.get_last().is_some());

    println!("{}", list.get_last().unwrap().key())
}

#[test]
fn insert_exchanges_the_value_in_place() {
    let mut list = SkipList::new();
    assert_eq!(list.insert(4, "a"), None);
    assert_eq!(list.insert(4, "b"), Some("a"));
    assert_eq!(*list.get(&4).unwrap().val(), "b");
    assert_eq!(list.len(), 1);
}

#[test]
fn insert_conditionally_keeps_the_value_that_is_there() {
    let mut list = SkipList::new();
    assert_eq!(list.insert_conditionally(4, "a"), None);
    assert_eq!(list.insert_conditionally(4, "b"), Some("b"));
    assert_eq!(*list.get(&4).unwrap().val(), "a");
    assert_eq!(list.len(), 1);
}

#[test]
fn remove_first_takes_the_smallest_key() {
    let mut list = SkipList::new();
    assert_eq!(list.remove_first(), None);
    list.insert(30u64, 'c');
    list.insert(10u64, 'a');
    list.insert(20u64, 'b');
    assert_eq!(list.remove_first(), Some((10, 'a')));
    assert_eq!(list.remove_first(), Some((20, 'b')));
    assert_eq!(list.len(), 1);
    assert_eq!(list.remove_first(), Some((30, 'c')));
    assert_eq!(list.remove_first(), None);
    assert!(list.is_empty());
}

#[test]
fn entry_handle_reads_and_removes() {
    let mut list = SkipList::new();
    list.insert(1, "one");
    list.insert(2, "two");
    assert!(list.entry(3).is_none());
    let handle = list.entry(2).unwrap();
    assert_eq!(*handle.key(), 2);
    assert_eq!(*handle.val(), "two");
    assert_eq!(handle.remove(), Some((2, "two")));
    // the node is unlinked at once
    assert_eq!(list.len(), 1);
    assert!(list.get(&2).is_none());
    assert_eq!(*list.get(&1).unwrap().val(), "one");
}

#[test]
fn into_iter_yields_every_entry_in_key_order() {
    let mut list = SkipList::new();
    for k in [5u8, 1, 4, 2, 3] {
        list.insert(k, k * 2);
    }
    let mut it = list.into_iter();
    let mut out = Vec::new();
    while let Some(kv) = it.next() {
        out.push(kv);
    }
    assert_eq!(out, vec![(1, 2), (2, 4), (3, 6), (4, 8), (5, 10)]);
}

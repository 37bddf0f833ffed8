use skippy_rs::node::Node;
use skippy_rs::skiplist::SkipList;

#[test]
fn sync_skiplist_test_new_node() {
    let node = Node::new(100, "hello", 1);
    let other = Node::new(100, "hello", 1);
    println!("node 1: {:?},", (node.key(), node.val(), node.height()));
    println!("node 2: {:?},", (other.key(), other.val(), other.height()));

    assert_eq!(node.key(), other.key());
    assert_eq!(node.val(), other.val());
}

#[test]
fn sync_skiplist_test_new_list() {
    let _: SkipList<usize, usize> = SkipList::new();
}

#[test]
fn sync_skiplist_test_insert() {
    let mut list = SkipList::new();
    let mut rng: u16 = rand::random();

    for _ in 0..100_000 {
        rng ^= rng << 3;
        rng ^= rng >> 12;
        rng ^= rng << 7;
        list.insert(rng, "hello there!");
    }
}

#[test]
fn sync_skiplist_test_rand_height() {
    let mut list: SkipList<i32, i32> = SkipList::new();
    let node = Node::new("Hello", "There!", list.gen_height());

    assert!(node.key().is_some());
    let height = node.levels.len();

    println!("height: {}", height);
    assert_eq!(node.height(), height);
    assert!(1 <= height && height <= 32);

    println!("[key: {:?}, val: {:?}, level: {}]", node.key(), node.val(), height);
}

#[test]
fn sync_skiplist_test_insert_verbose() {
    let mut list = SkipList::new();

    list.insert(1, 1);

    list.to_vec().iter().for_each(|n| println!("{:?}-key: {:?}, val: {:?}", n.key(), n.key(), n.val()));

    list.insert(2, 2);

    list.to_vec().iter().for_each(|n| println!("{:?}-key: {:?}, val: {:?}", n.key(), n.key(), n.val()));

    list.insert(5, 3);

    list.to_vec().iter().for_each(|n| println!("{:?}-key: {:?}, val: {:?}", n.key(), n.key(), n.val()));
}

#[test]
fn sync_skiplist_test_remove() {
    let mut list = SkipList::new();
    let mut rng: u16 = rand::random();

    for _ in 0..100_000 {
        rng ^= rng << 3;
        rng ^= rng >> 12;
        rng ^= rng << 7;
        list.insert(rng, "hello there!");
    }
    for _ in 0..100_000 {
        rng ^= rng << 3;
        rng ^= rng >> 12;
        rng ^= rng << 7;
        list.remove(&rng);
    }
}

#[test]
fn sync_skiplist_test_verbose_remove() {
    let mut list = SkipList::new();

    list.insert(1, 1);
    list.insert(2, 2);
    list.insert(5, 3);

    assert!(list.remove(&1).is_some());
    assert!(list.remove(&6).is_none());
    assert!(list.remove(&1).is_none());
    assert!(list.remove(&5).is_some());
    assert!(list.remove(&2).is_some());
}

#[test]
fn concurrent_skiplist_test_new_node() {
    let node = Node::new(100, "hello", 1);

    assert_eq!(node.key(), Some(&100));
    assert_eq!(node.val(), Some(&"hello"));
    assert_eq!(node.height(), 1);
    assert!(!node.removed());
}

#[test]
fn concurrent_skiplist_test_rand_height() {
    let mut list: skippy_rs::list::SkipList<i32, i32> = skippy_rs::list::SkipList::new();
    let node = Node::new("Hello", "There!", list.gen_height());
    assert!(node.key().is_some());
    let mut height = node.height();
    println!("height: {}", height);

    // one link for every level of the tower
    for (level, _) in node.levels.iter().enumerate() {
        height -= 1;
        println!("level: {}", level + 1);
    }

    assert_eq!(height, 0);
}

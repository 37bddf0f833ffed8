use skippy_rs::height::draw_height;
use skippy_rs::height::randomize;
use skippy_rs::node::Node;
use skippy_rs::node::HEIGHT;
use skippy_rs::tagged::align;
use skippy_rs::tagged::unused_bits;
use skippy_rs::tagged::MaybeTagged;

#[test]
fn test_set_height() {
    let mut node = Node::new(3, (), 5);

    assert_eq!(node.height(), 5);

    assert!(!node.removed());

    assert!(node.set_removed().is_ok());

    assert!(node.removed());

    assert_eq!(node.height(), 5);

    node.set_height(3);

    assert_eq!(node.height(), 3);

    assert!(node.removed());
}

#[test]
fn only_the_first_removal_of_a_node_wins() {
    let mut node = Node::new(7u8, "seven", 4);
    assert_eq!(node.set_removed(), Ok(4));
    assert_eq!(node.set_removed(), Err(()));
    assert!(node.removed());

    let mut other = Node::new(7u8, "seven", 4);
    assert_eq!(other.try_remove_and_tag(), Ok((7, "seven")));
    assert_eq!(other.try_remove_and_tag(), Err(()));
    assert_eq!(other.key(), None);
    assert!(other.levels.iter().all(|l| l.load_tag() == 1));
}

#[test]
fn level_count_goes_up_and_down() {
    let mut node = Node::new(1u8, (), 2);
    assert_eq!(node.try_sub_ref(), Err(()));
    assert_eq!(node.try_add_ref(), Err(()));
    assert_eq!(node.add_ref(), 1);
    assert_eq!(node.try_add_ref(), Ok(2));
    assert_eq!(node.sub_ref(), 1);
    assert_eq!(node.try_sub_ref(), Ok(0));
}

#[test]
fn freezing_stops_at_a_level_that_holds_a_tag() {
    let mut node = Node::new(1u8, (), 3);
    node.levels[1].tag(1);
    assert_eq!(node.tag_levels(1), Err(1));
    assert_eq!(node.levels[0].load_tag(), 1);
    assert_eq!(node.levels[2].load_tag(), 0);

    let mut clean = Node::new(1u8, (), 3);
    assert_eq!(clean.tag_levels(1), Ok(()));
    assert!(clean.levels.iter().all(|l| l.load_tag() == 1));
}

#[test]
fn tagged_word_keeps_address_and_tag_apart() {
    assert_eq!(align::<u8>(), 1);
    assert_eq!(unused_bits::<u8>(), 0);
    assert_eq!(align::<u32>(), 4);
    assert_eq!(unused_bits::<u32>(), 3);
    assert_eq!(align::<usize>(), std::mem::align_of::<usize>());
    assert_eq!(unused_bits::<usize>(), std::mem::align_of::<usize>() - 1);
    assert_eq!(
        align::<skippy_rs::node::Node<u64, u64>>(),
        std::mem::align_of::<skippy_rs::node::Node<u64, u64>>()
    );
    assert_eq!(MaybeTagged::compose_raw(0x1000, 1), 0x1001);
    assert_eq!(MaybeTagged::compose_raw(0x1003, 9), 0x1001);
    assert_eq!(MaybeTagged::decompose_raw(0x1001), (0x1000, 1));

    let mut link = MaybeTagged::null();
    assert_eq!(link.load_decomposed(), (0, 0));
    link.store_ptr(0x40);
    assert_eq!(link.load_ptr(), 0x40);
    assert_eq!(link.load_tag(), 0);
    link.store_composed(0x80, 2);
    assert_eq!(link.load_decomposed(), (0x80, 2));
}

#[test]
fn compare_exchange_succeeds_only_on_the_expected_link() {
    let mut link = MaybeTagged::null();
    link.store_ptr(0x40);
    assert_eq!(link.compare_exchange(0x48, 0x50), Err((0x40, 0)));
    assert_eq!(link.load_ptr(), 0x40);
    assert_eq!(link.compare_exchange(0x40, 0x50), Ok((0x40, 0)));
    assert_eq!(link.load_ptr(), 0x50);

    // a frozen link takes no new successor
    link.tag(1);
    assert_eq!(link.load_decomposed(), (0x50, 1));
    assert_eq!(link.compare_exchange(0x50, 0x60), Err((0x50, 1)));
    assert_eq!(link.compare_exchange_with_tag(0x50, 1, 0x60, 1), Ok((0x50, 1)));
    assert_eq!(link.load_decomposed(), (0x60, 1));
}

#[test]
fn tag_exchange_reports_the_tag_it_found() {
    let mut link = MaybeTagged::null();
    link.store_ptr(0x40);
    assert_eq!(link.compare_exchange_tag(0, 1), Ok(1));
    assert_eq!(link.compare_exchange_tag(0, 1), Err(1));
    assert_eq!(link.load_decomposed(), (0x40, 1));
    assert_eq!(link.try_tag(0x48, 0), Err(0x40));
    assert_eq!(link.try_tag(0x40, 0), Ok(0x40));
    assert_eq!(link.load_decomposed(), (0x40, 0));
}

#[test]
fn pseudo_random_step_is_the_three_shift_generator() {
    assert_eq!(randomize(0), 0);
    let mut want: usize = 1;
    want ^= want << 13;
    want ^= want >> 17;
    want ^= want << 5;
    assert_eq!(randomize(1), want);
    assert_eq!(randomize(1), 0x0004_2021);
}

#[test]
fn drawn_height_is_one_more_than_the_trailing_zeros_up_to_the_cap() {
    assert_eq!(draw_height(1), 1);
    assert_eq!(draw_height(3), 1);
    assert_eq!(draw_height(2), 2);
    assert_eq!(draw_height(8), 4);
    assert_eq!(draw_height(1 << 30), 31);
    assert_eq!(draw_height(1 << 31), HEIGHT);
    assert_eq!(draw_height(0), HEIGHT);
}

#[test]
fn node_of_the_largest_height_has_every_level() {
    let node = Node::new(0u8, (), HEIGHT);
    assert_eq!(node.height(), 32);
    assert_eq!(node.levels.len(), 32);
    assert!(node.levels.iter().all(|l| l.load_decomposed() == (0, 0)));
}

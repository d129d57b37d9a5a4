use data_structures::utils::memory::Arena;

#[test]
fn arena_hands_out_the_item() {
    let mut arena = Arena::new();
    let first = arena.allocate(5);
    assert_eq!(*first, 5);
    *first = 6;
    let second = arena.allocate(7);
    assert_eq!(*second, 7);
}

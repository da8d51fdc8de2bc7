use oc_sort::IdAllocator;

#[test]
fn ids_start_at_zero_and_count_up() {
    let mut ids = IdAllocator::new();
    assert_eq!(ids.peek(), 0);
    assert_eq!(ids.allocate(), 0);
    assert_eq!(ids.allocate(), 1);
    assert_eq!(ids.allocate(), 2);
    assert_eq!(ids.peek(), 3);
}

#[test]
fn ids_never_decrease_and_never_repeat() {
    let mut ids = IdAllocator::starting_at(1000);
    let mut last = ids.allocate();
    assert_eq!(last, 1000);
    for _ in 0..500 {
        let id = ids.allocate();
        assert!(id > last);
        last = id;
    }
    assert_eq!(last, 1500);
}

#[test]
fn ids_wrap_around_only_after_the_largest() {
    let mut ids = IdAllocator::starting_at(u32::MAX - 1);
    assert_eq!(ids.allocate(), u32::MAX - 1);
    assert_eq!(ids.allocate(), u32::MAX);
    assert_eq!(ids.allocate(), 0);
    assert_eq!(ids.allocate(), 1);
}

#[test]
fn peek_does_not_allocate() {
    let mut ids = IdAllocator::starting_at(7);
    assert_eq!(ids.peek(), 7);
    assert_eq!(ids.peek(), 7);
    assert_eq!(ids.allocate(), 7);
    assert_eq!(ids.peek(), 8);
}

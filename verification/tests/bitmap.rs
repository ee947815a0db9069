use runqueue::PriorityBitmap;

#[test]
fn empty_bitmap_has_no_highest() {
    let b = PriorityBitmap::new();
    assert_eq!(b.highest_set(), None);
}

#[test]
fn highest_follows_set_and_clear() {
    let mut b = PriorityBitmap::new();
    b.set(5);
    assert_eq!(b.highest_set(), Some(5));
    b.set(2);
    assert_eq!(b.highest_set(), Some(5));
    b.clear(5);
    assert_eq!(b.highest_set(), Some(2));
    b.clear(2);
    assert_eq!(b.highest_set(), None);
}

#[test]
fn top_bit_of_the_word() {
    let mut b = PriorityBitmap::new();
    b.set(63);
    b.set(0);
    assert_eq!(b.highest_set(), Some(63));
    b.clear(63);
    assert_eq!(b.highest_set(), Some(0));
}

#[test]
fn set_and_clear_are_idempotent() {
    let mut b = PriorityBitmap::new();
    b.set(4);
    b.set(4);
    assert_eq!(b.highest_set(), Some(4));
    b.clear(4);
    b.clear(4);
    assert_eq!(b.highest_set(), None);
    b.clear(7);
    assert_eq!(b.highest_set(), None);
}

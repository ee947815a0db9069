use runqueue::LevelList;
use runqueue::Links;
use runqueue::ThreadId;

#[test]
fn level_list_is_fifo() {
    let mut links = Links::new(8);
    let mut ll = LevelList::new();
    assert!(ll.is_empty(&links));
    ll.push_back(&mut links, ThreadId::new(1));
    ll.push_back(&mut links, ThreadId::new(2));
    ll.push_back(&mut links, ThreadId::new(3));
    assert!(!ll.is_empty(&links));
    assert_eq!(ll.pop_head(&mut links), Some(ThreadId::new(1)));
    assert_eq!(ll.pop_head(&mut links), Some(ThreadId::new(2)));
    assert_eq!(ll.pop_head(&mut links), Some(ThreadId::new(3)));
    assert_eq!(ll.pop_head(&mut links), None);
    assert!(ll.is_empty(&links));
}

#[test]
fn level_list_remove_middle() {
    let mut links = Links::new(8);
    let mut ll = LevelList::new();
    ll.push_back(&mut links, ThreadId::new(1));
    ll.push_back(&mut links, ThreadId::new(2));
    ll.push_back(&mut links, ThreadId::new(3));
    ll.remove(&mut links, ThreadId::new(2));
    assert_eq!(ll.pop_head(&mut links), Some(ThreadId::new(1)));
    assert_eq!(ll.pop_head(&mut links), Some(ThreadId::new(3)));
    assert_eq!(ll.pop_head(&mut links), None);
}

#[test]
fn level_list_remove_head_advances() {
    let mut links = Links::new(8);
    let mut ll = LevelList::new();
    ll.push_back(&mut links, ThreadId::new(4));
    ll.push_back(&mut links, ThreadId::new(5));
    ll.remove(&mut links, ThreadId::new(4));
    assert_eq!(ll.peek(&links), Some(ThreadId::new(5)));
}

#[test]
fn level_list_rotate_cycles() {
    let mut links = Links::new(8);
    let mut ll = LevelList::new();
    ll.push_back(&mut links, ThreadId::new(1));
    ll.push_back(&mut links, ThreadId::new(2));
    ll.push_back(&mut links, ThreadId::new(3));
    assert_eq!(ll.peek(&links), Some(ThreadId::new(1)));
    ll.rotate(&mut links);
    assert_eq!(ll.peek(&links), Some(ThreadId::new(2)));
    ll.rotate(&mut links);
    assert_eq!(ll.peek(&links), Some(ThreadId::new(3)));
    ll.rotate(&mut links);
    assert_eq!(ll.peek(&links), Some(ThreadId::new(1)));
}

#[test]
fn level_list_rotate_small_is_noop() {
    let mut links = Links::new(4);
    let mut ll = LevelList::new();
    ll.rotate(&mut links);
    assert_eq!(ll.peek(&links), None);
    ll.push_back(&mut links, ThreadId::new(0));
    ll.rotate(&mut links);
    assert_eq!(ll.peek(&links), Some(ThreadId::new(0)));
}

#[test]
fn two_lists_share_one_storage() {
    let mut links = Links::new(8);
    let mut a = LevelList::new();
    let mut b = LevelList::new();
    a.push_back(&mut links, ThreadId::new(1));
    a.push_back(&mut links, ThreadId::new(2));
    b.push_back(&mut links, ThreadId::new(3));
    b.push_back(&mut links, ThreadId::new(4));
    a.remove(&mut links, ThreadId::new(1));
    assert_eq!(b.pop_head(&mut links), Some(ThreadId::new(3)));
    assert_eq!(b.pop_head(&mut links), Some(ThreadId::new(4)));
    assert_eq!(a.pop_head(&mut links), Some(ThreadId::new(2)));
    assert!(a.is_empty(&links) && b.is_empty(&links));
}

#[test]
fn level_list_reuse_after_empty() {
    let mut links = Links::new(4);
    let mut ll = LevelList::new();
    ll.push_back(&mut links, ThreadId::new(2));
    assert_eq!(ll.pop_head(&mut links), Some(ThreadId::new(2)));
    ll.push_back(&mut links, ThreadId::new(3));
    ll.push_back(&mut links, ThreadId::new(2));
    assert_eq!(ll.peek(&links), Some(ThreadId::new(3)));
}

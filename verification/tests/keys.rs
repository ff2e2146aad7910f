use domafic::keys::{Keys, KEY_CAPACITY};

#[test]
fn a_new_path_is_empty() {
    let keys = Keys::new();
    assert_eq!(keys.len(), 0);
    assert!(keys.is_empty());
    assert!(!keys.is_full());
    assert_eq!(keys.get(0), None);
}

#[test]
fn pushing_leaves_the_old_path_as_it_was() {
    let parent = Keys::new().push(7);
    let child = parent.push(9);
    assert_eq!(parent.len(), 1);
    assert_eq!(child.len(), 2);
    assert_eq!(parent.get(0), Some(7));
    assert_eq!(parent.get(1), None);
    assert_eq!(child.get(0), Some(7));
    assert_eq!(child.get(1), Some(9));
}

#[test]
fn paths_are_equal_when_their_keys_are() {
    let a = Keys::new().push(1).push(2);
    let b = Keys::new().push(1).push(2);
    assert!(a == b);
    assert!(a != Keys::new().push(1));
    assert!(a != Keys::new().push(2).push(1));
    assert!(a != Keys::new().push(1).push(2).push(3));
    assert!(Keys::new() == Keys::new());
}

#[test]
fn what_lies_behind_the_path_does_not_count() {
    let mut stack = [0u32; 32];
    stack[0] = 5;
    stack[1] = 6;
    stack[2] = 99;
    let a = Keys::from_raw(2, stack);
    assert_eq!(a.len(), 2);
    assert!(a == Keys::new().push(5).push(6));
    assert!(a != Keys::from_raw(3, stack));
}

#[test]
fn a_size_beyond_the_capacity_counts_as_full() {
    let keys = Keys::from_raw(40, [3u32; 32]);
    assert_eq!(keys.len(), KEY_CAPACITY);
    assert!(keys.is_full());
    assert_eq!(keys.try_push(1), None);
    assert_eq!(keys.get(31), Some(3));
    assert_eq!(keys.get(32), None);
}

#[test]
fn a_full_path_takes_no_further_key() {
    let mut keys = Keys::new();
    for key in 0..32u32 {
        assert!(!keys.is_full());
        keys = keys.try_push(key).unwrap();
    }
    assert!(keys.is_full());
    assert_eq!(keys.len(), 32);
    assert_eq!(keys.try_push(32), None);
    assert_eq!(keys.get(31), Some(31));
}

#[test]
fn a_child_without_a_key_has_the_path_of_its_parent() {
    let parent = Keys::new().push(4);
    assert!(parent.child(None) == parent);
    assert!(parent.child(Some(8)) == parent.push(8));
}

#[test]
fn the_cursor_hands_out_the_keys_root_first() {
    let mut iter = Keys::new().push(3).push(1).push(2).into_iter();
    assert_eq!(iter.next(), Some(3));
    assert_eq!(iter.next(), Some(1));
    assert_eq!(iter.next(), Some(2));
    assert_eq!(iter.next(), None);
    assert_eq!(iter.next(), None);
}

use f3note::mru::Mru;

#[test]
fn most_recent_comes_first() {
    let mut m = Mru::default();
    m.touch(1);
    m.touch(2);
    m.touch(3);
    assert_eq!(m.as_slice(), &[3, 2, 1]);
}

#[test]
fn touching_an_existing_item_moves_it_without_duplicating() {
    let mut m = Mru::default();
    m.touch(1);
    m.touch(2);
    m.touch(1);
    assert_eq!(m.as_slice(), &[1, 2]);
    assert_eq!(m.len(), 2);
}

#[test]
fn one_step_back_is_the_previously_used_item() {
    let mut m = Mru::default();
    m.touch(10);
    m.touch(20);
    assert_eq!(m.front(), Some(20));
    assert_eq!(m.nth(1), Some(10));
}

#[test]
fn stepping_past_the_end_wraps_around() {
    let mut m = Mru::default();
    m.touch(1);
    m.touch(2);
    assert_eq!(m.nth(2), Some(2));
    assert_eq!(m.nth(3), Some(1));
}

#[test]
fn removing_keeps_the_rest_in_order() {
    let mut m = Mru::default();
    m.touch(1);
    m.touch(2);
    m.touch(3);
    m.remove(2);
    assert_eq!(m.as_slice(), &[3, 1]);
}

#[test]
fn an_empty_list_has_nothing_to_switch_to() {
    let m: Mru<u64> = Mru::default();
    assert_eq!(m.front(), None);
    assert_eq!(m.nth(0), None);
    assert!(m.is_empty());
}

#[test]
fn touching_the_front_item_again_changes_nothing() {
    let mut m: Mru<u64> = Mru::default();
    m.touch(5);
    m.touch(6);
    m.touch(6);
    assert_eq!(m.as_slice(), &[6, 5]);
    m.remove(42);
    assert_eq!(m.as_slice(), &[6, 5]);
    m.remove(6);
    m.remove(5);
    assert!(m.is_empty());
}

#[test]
fn ctrl_tab_twice_comes_back() {
    let mut m = Mru::default();
    for id in [1, 2, 3, 4] {
        m.touch(id);
    }
    let previous = m.nth(1).unwrap();
    assert_eq!(previous, 3);
    m.touch(previous);
    assert_eq!(m.nth(1), Some(4));
}

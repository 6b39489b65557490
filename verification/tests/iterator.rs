use flat_tree::Iterator;

#[test]
fn iterator() {
    let mut iterator = Iterator::default();
    assert_eq!(iterator.index(), 0);
    assert_eq!(iterator.parent(), 1);
    assert_eq!(iterator.parent(), 3);
    assert_eq!(iterator.parent(), 7);
    assert_eq!(iterator.right_child(), 11);
    assert_eq!(iterator.left_child(), 9);
    assert_eq!(iterator.next(), Some(13));
    assert_eq!(iterator.left_span(), 12);
}

#[test]
fn non_leaf_start() {
    let mut iterator = Iterator::new(1);
    assert_eq!(iterator.index(), 1);
    assert_eq!(iterator.parent(), 3);
    assert_eq!(iterator.parent(), 7);
    assert_eq!(iterator.right_child(), 11);
    assert_eq!(iterator.left_child(), 9);
    assert_eq!(iterator.next(), Some(13));
    assert_eq!(iterator.left_span(), 12);
}

#[test]
fn new_leaf_walk() {
    let mut iter = Iterator::new(0);
    assert_eq!(iter.next(), Some(2));
    assert_eq!(iter.next(), Some(4));
    assert_eq!(iter.next(), Some(6));
    assert_eq!(iter.parent(), 5);
}

#[test]
fn seek_repositions() {
    let mut iter = Iterator::new(0);
    iter.seek(4);
    assert_eq!(iter.next(), Some(6));
    iter.seek(2);
    assert_eq!(iter.next(), Some(4));
    iter.seek(9);
    assert_eq!(iter.index(), 9);
    assert_eq!(iter.offset(), 2);
}

#[test]
fn side_checks() {
    assert_eq!(Iterator::new(0).is_left(), true);
    assert_eq!(Iterator::new(2).is_left(), false);
    assert_eq!(Iterator::new(1).is_left(), true);
    assert_eq!(Iterator::new(0).is_right(), false);
    assert_eq!(Iterator::new(2).is_right(), true);
    assert_eq!(Iterator::new(1).is_right(), false);
}

#[test]
fn prev_walk_and_leftmost_noop() {
    let mut iter = Iterator::new(6);
    assert_eq!(iter.prev(), 4);
    assert_eq!(iter.prev(), 2);
    assert_eq!(iter.prev(), 0);
    assert_eq!(iter.prev(), 0);
}

#[test]
fn sibling_moves() {
    assert_eq!(Iterator::new(0).sibling(), 2);
    assert_eq!(Iterator::new(1).sibling(), 5);
    assert_eq!(Iterator::new(4).sibling(), 6);
    assert_eq!(Iterator::new(2).sibling(), 0);
}

#[test]
fn span_moves() {
    assert_eq!(Iterator::new(0).left_span(), 0);
    assert_eq!(Iterator::new(1).left_span(), 0);
    assert_eq!(Iterator::new(3).left_span(), 0);
    assert_eq!(Iterator::new(23).left_span(), 16);
    assert_eq!(Iterator::new(27).left_span(), 24);
    assert_eq!(Iterator::new(0).right_span(), 0);
    assert_eq!(Iterator::new(1).right_span(), 2);
    assert_eq!(Iterator::new(3).right_span(), 6);
    assert_eq!(Iterator::new(23).right_span(), 30);
    assert_eq!(Iterator::new(27).right_span(), 30);
}

#[test]
fn child_moves_and_leaf_noop() {
    assert_eq!(Iterator::new(1).left_child(), 0);
    assert_eq!(Iterator::new(3).left_child(), 1);
    assert_eq!(Iterator::new(7).left_child(), 3);
    assert_eq!(Iterator::new(1).right_child(), 2);
    assert_eq!(Iterator::new(3).right_child(), 5);
    assert_eq!(Iterator::new(7).right_child(), 11);
    assert_eq!(Iterator::new(4).left_child(), 4);
    assert_eq!(Iterator::new(4).right_child(), 4);
}

#[test]
fn cursor_matches_stateless_functions() {
    for i in 0..200 {
        assert_eq!(Iterator::new(i).parent(), flat_tree::parent(i));
        assert_eq!(Iterator::new(i).sibling(), flat_tree::sibling(i));
        assert_eq!(Iterator::new(i).left_span(), flat_tree::left_span(i));
        assert_eq!(Iterator::new(i).right_span(), flat_tree::right_span(i));
        if i % 2 == 1 {
            assert_eq!(Iterator::new(i).left_child(), flat_tree::left_child(i).unwrap());
            assert_eq!(Iterator::new(i).right_child(), flat_tree::right_child(i).unwrap());
        } else {
            assert_eq!(Iterator::new(i).left_child(), i);
            assert_eq!(Iterator::new(i).right_child(), i);
        }
        assert_eq!(Iterator::new(i).offset(), flat_tree::offset(i));
        assert_eq!(Iterator::new(i).is_left(), flat_tree::is_even(flat_tree::offset(i)));
    }
}

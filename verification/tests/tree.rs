use flat_tree::{
    children, count, depth, full_roots, index, is_even, is_odd, iter_full_roots, left_child,
    left_span, offset, offset_with_depth, parent, right_child, right_span, sibling, spans,
    two_pow, uncle,
};

#[test]
fn test_two_pow() {
    assert_eq!(two_pow(0), 1);
    assert_eq!(two_pow(1), 2);
    assert_eq!(two_pow(2), 4);
    assert_eq!(two_pow(3), 8);
    assert_eq!(two_pow(31), 2147483648);
}

#[test]
fn test_two_pow_64bit() {
    assert_eq!(two_pow(34), 17179869184);
    assert_eq!(two_pow(63), 9223372036854775808);
}

#[test]
fn test_is_even() {
    assert_eq!(is_even(0), true);
    assert_eq!(is_even(1), false);
    assert_eq!(is_even(2), true);
    assert_eq!(is_even(3), false);
}

#[test]
fn test_is_odd() {
    assert_eq!(is_odd(0), false);
    assert_eq!(is_odd(1), true);
    assert_eq!(is_odd(2), false);
    assert_eq!(is_odd(3), true);
}

#[test]
fn test_parent_gt_int32() {
    assert_eq!(parent(10_000_000_000), 10_000_000_001);
}

#[test]
fn test_child_to_parent_to_child() {
    let mut child = 0;
    for _ in 0..50 {
        child = parent(child)
    }
    assert_eq!(child, 1_125_899_906_842_623);
    for _ in 0..50 {
        child = left_child(child).expect("no valid number returned");
    }
    assert_eq!(child, 0);
}

#[test]
fn index_scenarios() {
    assert_eq!(index(0, 0), 0);
    assert_eq!(index(0, 1), 2);
    assert_eq!(index(0, 2), 4);
    assert_eq!(index(1, 0), 1);
    assert_eq!(index(1, 1), 5);
    assert_eq!(index(1, 2), 9);
    assert_eq!(index(1, 3), 13);
    assert_eq!(index(2, 0), 3);
    assert_eq!(index(2, 1), 11);
    assert_eq!(index(2, 2), 19);
    assert_eq!(index(3, 0), 7);
    assert_eq!(index(3, 1), 23);
}

#[test]
fn depth_scenarios() {
    assert_eq!(depth(0), 0);
    assert_eq!(depth(1), 1);
    assert_eq!(depth(2), 0);
    assert_eq!(depth(3), 2);
    assert_eq!(depth(4), 0);
    assert_eq!(depth(7), 3);
}

#[test]
fn offset_scenarios() {
    assert_eq!(offset(0), 0);
    assert_eq!(offset(1), 0);
    assert_eq!(offset(2), 1);
    assert_eq!(offset(3), 0);
    assert_eq!(offset(4), 2);
}

#[test]
fn parent_scenarios() {
    assert_eq!(parent(0), 1);
    assert_eq!(parent(2), 1);
    assert_eq!(parent(1), 3);
}

#[test]
fn sibling_scenarios() {
    assert_eq!(sibling(0), 2);
    assert_eq!(sibling(2), 0);
    assert_eq!(sibling(1), 5);
    assert_eq!(sibling(5), 1);
}

#[test]
fn uncle_scenarios() {
    assert_eq!(uncle(0), 5);
    assert_eq!(uncle(2), 5);
    assert_eq!(uncle(1), 11);
}

#[test]
fn children_scenarios() {
    assert_eq!(children(0), None);
    assert_eq!(children(1), Some((0, 2)));
    assert_eq!(children(3), Some((1, 5)));
    assert_eq!(children(9), Some((8, 10)));
}

#[test]
fn child_scenarios() {
    assert_eq!(left_child(0), None);
    assert_eq!(left_child(1), Some(0));
    assert_eq!(left_child(3), Some(1));
    assert_eq!(right_child(0), None);
    assert_eq!(right_child(1), Some(2));
    assert_eq!(right_child(3), Some(5));
}

#[test]
fn span_scenarios() {
    assert_eq!(left_span(0), 0);
    assert_eq!(left_span(1), 0);
    assert_eq!(left_span(3), 0);
    assert_eq!(left_span(23), 16);
    assert_eq!(left_span(27), 24);
    assert_eq!(right_span(0), 0);
    assert_eq!(right_span(1), 2);
    assert_eq!(right_span(3), 6);
    assert_eq!(right_span(23), 30);
    assert_eq!(right_span(27), 30);
    assert_eq!(spans(0), (0, 0));
    assert_eq!(spans(1), (0, 2));
    assert_eq!(spans(3), (0, 6));
    assert_eq!(spans(23), (16, 30));
    assert_eq!(spans(27), (24, 30));
}

#[test]
fn count_scenarios() {
    assert_eq!(count(0), 1);
    assert_eq!(count(1), 3);
    assert_eq!(count(3), 7);
    assert_eq!(count(5), 3);
    assert_eq!(count(23), 15);
    assert_eq!(count(27), 7);
}

#[test]
fn round_trip_law_instances() {
    for d in 0..10 {
        for o in 0..20 {
            let i = index(d, o);
            assert_eq!(depth(i), d);
            assert_eq!(offset_with_depth(i, d), o);
            assert_eq!(offset(i), o);
        }
    }
}

#[test]
fn sibling_involution_instances() {
    for i in 0..200 {
        assert_eq!(sibling(sibling(i)), i);
    }
}

#[test]
fn parent_monotonic_on_left_nodes() {
    for i in 0..200 {
        if is_even(offset(i)) {
            assert!(parent(i) > i);
        } else {
            assert!(parent(i) < i);
        }
    }
}

#[test]
fn span_leaf_count_instances() {
    for i in 0..200 {
        assert_eq!((right_span(i) - left_span(i)) / 2 + 1, two_pow(depth(i)));
    }
}

#[test]
fn full_roots_scenarios() {
    let mut nodes = Vec::with_capacity(16);
    assert!(full_roots(0, &mut nodes).is_ok());
    assert_eq!(nodes, []);

    let mut nodes = Vec::with_capacity(16);
    assert!(full_roots(2, &mut nodes).is_ok());
    assert_eq!(nodes, [0]);

    let mut nodes = Vec::with_capacity(16);
    assert!(full_roots(8, &mut nodes).is_ok());
    assert_eq!(nodes, [3]);

    let mut nodes = Vec::with_capacity(16);
    assert!(full_roots(20, &mut nodes).is_ok());
    assert_eq!(nodes, [7, 17]);

    let mut nodes = Vec::with_capacity(16);
    assert!(full_roots(18, &mut nodes).is_ok());
    assert_eq!(nodes, [7, 16]);

    let mut nodes = Vec::with_capacity(16);
    assert!(full_roots(16, &mut nodes).is_ok());
    assert_eq!(nodes, [7]);
}

#[test]
fn full_roots_rejects_odd_boundary() {
    let mut nodes = vec![42];
    let r = full_roots(5, &mut nodes);
    assert!(r.is_err());
    assert_eq!(nodes, [42]);
    assert!(iter_full_roots(1).is_err());
    assert!(iter_full_roots(2).is_ok());
}

#[test]
fn iter_full_roots_is_lazy() {
    let mut it = iter_full_roots(20).unwrap();
    assert_eq!(it.next(), Some(7));
    assert_eq!(it.next(), Some(17));
    assert_eq!(it.next(), None);
    assert_eq!(it.next(), None);
}

#[test]
fn full_roots_cover_prefix() {
    for n in 1..64 {
        let mut roots = Vec::new();
        assert!(full_roots(2 * n, &mut roots).is_ok());
        let mut next_leaf = 0;
        let mut covered = 0;
        let mut last_size = usize::MAX;
        for &r in roots.iter() {
            assert_eq!(left_span(r), next_leaf);
            next_leaf = right_span(r) + 2;
            let size = two_pow(depth(r));
            assert!(size < last_size);
            last_size = size;
            covered += size;
        }
        assert_eq!(covered, n);
        assert_eq!(next_leaf, 2 * n);
    }
}

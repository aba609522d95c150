use pov_board::{points_for_cube, points_for_line, points_for_square};

#[test]
fn horizontal_line_in_order() {
    assert_eq!(points_for_line(0, 0, 3, 0), vec![(0, 0), (1, 0), (2, 0), (3, 0)]);
}

#[test]
fn vertical_line_in_order() {
    assert_eq!(points_for_line(0, 0, 0, 3), vec![(0, 0), (0, 1), (0, 2), (0, 3)]);
}

#[test]
fn reversed_line_starts_at_first_endpoint() {
    assert_eq!(points_for_line(3, 0, 0, 0), vec![(3, 0), (2, 0), (1, 0), (0, 0)]);
}

#[test]
fn single_point_line() {
    assert_eq!(points_for_line(5, -7, 5, -7), vec![(5, -7)]);
}

#[test]
fn shallow_diagonal_line() {
    assert_eq!(points_for_line(0, 0, 3, -2), vec![(0, 0), (1, -1), (2, -1), (3, -2)]);
}

#[test]
fn line_shape_on_a_steep_line() {
    let l = points_for_line(2, 9, -1, -4);
    assert_eq!(l[0], (2, 9));
    assert_eq!(*l.last().unwrap(), (-1, -4));
    for k in 0..l.len() - 1 {
        assert!((l[k].0 - l[k + 1].0).abs() <= 1);
        assert!((l[k].1 - l[k + 1].1).abs() <= 1);
    }
    for a in 0..l.len() {
        for b in a + 1..l.len() {
            assert_ne!(l[a], l[b]);
        }
    }
    assert_eq!(l.len(), 14);
}

#[test]
fn line_across_the_whole_range() {
    let l = points_for_line(i32::MIN, 0, i32::MIN + 2, 0);
    assert_eq!(l, vec![(i32::MIN, 0), (i32::MIN + 1, 0), (i32::MIN + 2, 0)]);
}

#[test]
fn square_perimeter_each_point_once() {
    assert_eq!(
        points_for_square(0, 0, 2),
        vec![(0, 0), (1, 0), (2, 0), (2, 1), (2, 2), (1, 2), (0, 2), (0, 1)]
    );
}

#[test]
fn square_of_side_zero_is_one_point() {
    assert_eq!(points_for_square(4, 4, 0), vec![(4, 4)]);
}

#[test]
fn cube_has_no_duplicates() {
    let c = points_for_cube(10, 10, 10);
    for a in 0..c.len() {
        for b in a + 1..c.len() {
            assert_ne!(c[a], c[b]);
        }
    }
    assert_eq!(&c[..5], &[(9, 9), (10, 10), (10, 11), (11, 10), (11, 11)]);
}

#[test]
fn cube_offset_of_small_side() {
    // side 4: no depth offset, so both squares coincide
    let c = points_for_cube(0, 0, 4);
    let mut expected: Vec<(i32, i32)> = Vec::new();
    for p in points_for_square(0, 0, 4) {
        for q in [p, (p.0 + 1, p.1 + 1), (p.0 + 1, p.1 + 2), (p.0 + 2, p.1 + 1), (p.0 + 2, p.1 + 2)] {
            if !expected.contains(&q) {
                expected.push(q);
            }
        }
    }
    assert_eq!(c, expected);
}

#[test]
fn cube_range_check() {
    assert!(pov_board::cube_in_range(0, 0, 10));
    assert!(!pov_board::cube_in_range(i32::MAX - 3, 0, 10));
    assert!(!pov_board::cube_in_range(0, i32::MIN, -10));
    assert!(pov_board::cube_in_range(i32::MAX - 13, 0, 10));
    assert!(!pov_board::cube_in_range(i32::MAX - 12, 0, 10));
}

#[test]
fn swapped_endpoints_reverse_the_line() {
    let forward = points_for_line(0, 0, 1, 2);
    assert_eq!(forward, vec![(0, 0), (0, 1), (1, 2)]);
    let backward = points_for_line(1, 2, 0, 0);
    assert_eq!(backward, vec![(1, 2), (0, 1), (0, 0)]);
}

#[test]
fn swapped_endpoints_reverse_a_long_line() {
    let mut forward = points_for_line(-3, 7, 11, -2);
    let backward = points_for_line(11, -2, -3, 7);
    forward.reverse();
    assert_eq!(forward, backward);
    assert_eq!(backward[0], (11, -2));
}

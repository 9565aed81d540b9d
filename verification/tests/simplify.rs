use tilegrid::aligned::is_aligned;
use tilegrid::shape::Point;
use tilegrid::simplify::removed_in_line;

fn ring(coords: &[(i128, i128)]) -> Vec<Point> {
    coords.iter().map(|&(x, y)| Point { x, y }).collect()
}

fn simplify(ring: &Vec<Point>) -> Vec<Point> {
    removed_in_line(ring, is_aligned, |a, b| a == b)
}

/// Twice the area that the ring encloses, closed by its first vertex.
fn twice_area(ring: &[Point]) -> i128 {
    let steps: i128 = ring.windows(2).map(|w| w[0].x * w[1].y - w[1].x * w[0].y).sum();
    match (ring.first(), ring.last()) {
        (Some(first), Some(last)) => steps + last.x * first.y - first.x * last.y,
        _ => steps,
    }
}

#[test]
fn a_point_is_aligned_between_its_neighbours_on_a_line() {
    let p = |x, y| Point { x, y };
    assert!(is_aligned(p(0, 0), p(1, 0), p(2, 0)));
    assert!(is_aligned(p(0, 0), p(1, 2), p(4, 8)));
    assert!(is_aligned(p(-3, 5), p(-1, 4), p(1, 3)));
    // a bend, however slight
    assert!(!is_aligned(p(0, 0), p(1000, 0), p(2000, 1)));
    assert!(!is_aligned(p(0, 0), p(1, 0), p(1, 1)));
    // a turn back along the same line
    assert!(!is_aligned(p(0, 0), p(2, 0), p(1, 0)));
    assert!(!is_aligned(p(0, 0), p(1, 0), p(0, 0)));
    // a step of length zero
    assert!(!is_aligned(p(0, 0), p(0, 0), p(1, 0)));
    assert!(!is_aligned(p(0, 0), p(1, 0), p(1, 0)));
    assert!(!is_aligned(p(1, 1), p(1, 1), p(1, 1)));
}

#[test]
fn alignment_is_judged_exactly_at_the_edge_of_its_reach() {
    let far = 0x2000_0000_0000_0000i128;
    let p = |x, y| Point { x, y };
    assert!(is_aligned(p(-far, -far), p(0, 0), p(far, far)));
    assert!(!is_aligned(p(-far, -far), p(0, 0), p(far, far - 1)));
    assert!(!is_aligned(p(-far, far), p(far, -far), p(-far, far)));
}

#[test]
fn short_lines_are_left_alone() {
    let all = |_: Point, _: Point, _: Point| true;
    let same = |a: Point, b: Point| a == b;
    assert_eq!(removed_in_line(&Vec::<Point>::new(), all, same), vec![]);
    assert_eq!(removed_in_line(&ring(&[(0, 0)]), all, same), ring(&[(0, 0)]));
    assert_eq!(removed_in_line(&ring(&[(0, 0), (1, 0)]), all, same), ring(&[(0, 0), (1, 0)]));
    assert_eq!(removed_in_line(&ring(&[(0, 0), (0, 0)]), all, same), ring(&[(0, 0), (0, 0)]));
}

#[test]
fn a_closed_ring_of_corners_comes_back_as_it_is() {
    let square = ring(&[(0, 0), (0, 2), (2, 2), (2, 0), (0, 0)]);
    assert_eq!(simplify(&square), square);
    let large = ring(&[(-16, -16), (-16, 16), (16, 16), (16, -16), (-16, -16)]);
    assert_eq!(simplify(&large), large);
    assert_eq!(simplify(&simplify(&large)), large);
}

#[test]
fn an_open_ring_of_corners_comes_back_as_it_is() {
    let triangle = ring(&[(0, 0), (16, 0), (0, 16)]);
    assert_eq!(simplify(&triangle), triangle);
    assert_eq!(twice_area(&simplify(&triangle)), 256);
    let square = ring(&[(0, 0), (0, 2), (2, 2), (2, 0)]);
    assert_eq!(simplify(&square), square);
    assert_eq!(simplify(&simplify(&square)), square);
}

#[test]
fn vertices_along_an_edge_are_removed() {
    let line = ring(&[(0, 0), (0, 1), (0, 2), (1, 2), (2, 2), (2, 1), (2, 0), (1, 0), (0, 0)]);
    assert_eq!(simplify(&line), ring(&[(0, 0), (0, 2), (2, 2), (2, 0), (0, 0)]));
    let open = ring(&[(0, 0), (0, 1), (0, 2), (1, 2), (2, 2), (2, 1), (2, 0), (1, 0)]);
    assert_eq!(simplify(&open), ring(&[(0, 0), (0, 2), (2, 2), (2, 0)]));
}

#[test]
fn a_ring_that_starts_along_an_edge_is_closed_at_a_corner() {
    // the ring starts in the middle of its lower edge
    let line = ring(&[(1, 0), (0, 0), (0, 2), (2, 2), (2, 0), (1, 0)]);
    assert_eq!(simplify(&line), ring(&[(0, 0), (0, 2), (2, 2), (2, 0), (0, 0)]));
    let open = ring(&[(1, 0), (0, 0), (0, 2), (2, 2), (2, 0)]);
    assert_eq!(simplify(&open), ring(&[(0, 0), (0, 2), (2, 2), (2, 0)]));
    // the ring ends in the middle of its lower edge
    let open = ring(&[(0, 0), (0, 2), (2, 2), (2, 0), (1, 0)]);
    assert_eq!(simplify(&open), ring(&[(0, 0), (0, 2), (2, 2), (2, 0)]));
}

#[test]
fn every_vertex_of_a_closed_ring_is_judged_with_its_neighbours_around_the_ring() {
    let line: Vec<i64> = vec![10, 11, 12, 13, 10];
    let seen = std::cell::RefCell::new(Vec::new());
    let kept = removed_in_line(
        &line,
        |a, b, c| {
            seen.borrow_mut().push((a, b, c));
            b == 12
        },
        |a, b| a == b,
    );
    assert_eq!(kept, vec![10, 11, 13, 10]);
    assert_eq!(seen.into_inner(), vec![(13, 10, 11), (10, 11, 12), (11, 12, 13), (12, 13, 10)]);
}

#[test]
fn every_vertex_of_an_open_ring_is_judged_with_its_neighbours_around_the_ring() {
    let line: Vec<i64> = vec![10, 11, 12, 13];
    let seen = std::cell::RefCell::new(Vec::new());
    let kept = removed_in_line(
        &line,
        |a, b, c| {
            seen.borrow_mut().push((a, b, c));
            b == 13
        },
        |a, b| a == b,
    );
    assert_eq!(kept, vec![10, 11, 12]);
    assert_eq!(seen.into_inner(), vec![(13, 10, 11), (10, 11, 12), (11, 12, 13), (12, 13, 10)]);
}

#[test]
fn the_form_of_the_ring_is_asked_of_its_first_and_last_coordinate() {
    let line: Vec<i64> = vec![1, 2, 3, 4];
    let asked = std::cell::RefCell::new(Vec::new());
    let kept = removed_in_line(
        &line,
        |_, _, _| false,
        |a, b| {
            asked.borrow_mut().push((a, b));
            true
        },
    );
    // taken as closed, the ring has the vertices 1, 2, 3 and is closed by the first
    assert_eq!(kept, vec![1, 2, 3, 1]);
    assert_eq!(asked.into_inner(), vec![(1, 4)]);
}

#[test]
fn a_closed_ring_of_three_coordinates_is_judged_too() {
    let line: Vec<i64> = vec![1, 2, 1];
    let seen = std::cell::RefCell::new(Vec::new());
    let kept = removed_in_line(
        &line,
        |a, b, c| {
            seen.borrow_mut().push((a, b, c));
            false
        },
        |a, b| a == b,
    );
    assert_eq!(kept, vec![1, 2, 1]);
    assert_eq!(seen.into_inner(), vec![(2, 1, 2), (1, 2, 1)]);
}

#[test]
fn everything_can_be_removed() {
    let closed: Vec<i64> = vec![1, 2, 3, 1];
    assert_eq!(removed_in_line(&closed, |_, _, _| true, |a, b| a == b), vec![]);
    let open: Vec<i64> = vec![1, 2, 3];
    assert_eq!(removed_in_line(&open, |_, _, _| true, |a, b| a == b), vec![]);
}

#[test]
fn a_single_kept_vertex_closes_its_ring() {
    let closed: Vec<i64> = vec![1, 2, 3, 1];
    assert_eq!(removed_in_line(&closed, |_, b, _| b != 2, |a, b| a == b), vec![2, 2]);
    let open: Vec<i64> = vec![1, 2, 3];
    assert_eq!(removed_in_line(&open, |_, b, _| b != 2, |a, b| a == b), vec![2]);
}

#[test]
fn the_kept_vertices_are_vertices_of_the_ring_in_their_order() {
    let line =
        ring(&[(0, 0), (0, 3), (2, 3), (3, 3), (3, 0), (2, 0), (2, 1), (1, 1), (1, 0), (0, 0)]);
    let kept = simplify(&line);
    assert!(kept.len() <= line.len());
    let mut from = 0;
    for p in &kept[..kept.len() - 1] {
        let at = line[from..].iter().position(|q| q == p).unwrap();
        from += at + 1;
    }
    assert_eq!(kept.first(), kept.last());
}

#[test]
fn simplifying_twice_is_simplifying_once() {
    let rings = vec![
        ring(&[(0, 0), (0, 1), (0, 2), (1, 2), (2, 2), (2, 1), (2, 0), (1, 0), (0, 0)]),
        ring(&[(0, 0), (0, 1), (0, 2), (1, 2), (2, 2), (2, 1), (2, 0), (1, 0)]),
        ring(&[(1, 0), (0, 0), (0, 2), (2, 2), (2, 0), (1, 0)]),
        ring(&[(1, 0), (0, 0), (0, 2), (2, 2), (2, 0)]),
        ring(&[(0, 0), (0, 3), (2, 3), (3, 3), (3, 0), (2, 0), (2, 1), (1, 1), (1, 0), (0, 0)]),
        ring(&[(0, 0), (4, 4), (8, 0), (6, 0), (4, 0), (2, 0), (0, 0)]),
        ring(&[(0, 0), (4, 4), (8, 0), (6, 0), (4, 0), (2, 0)]),
        ring(&[(0, 0), (0, 2), (2, 2), (2, 0), (0, 0)]),
        ring(&[(-16, -16), (-16, 16), (16, 16), (16, -16), (-16, -16)]),
        ring(&[(0, 0), (16, 0), (0, 16)]),
        ring(&[(0, 0), (1, 0), (-1, 0), (0, 0), (0, 0)]),
        ring(&[(0, 0), (1, 0), (2, 0), (0, 0)]),
    ];
    for line in rings {
        let once = simplify(&line);
        assert_eq!(simplify(&once), once);
        assert_eq!(twice_area(&once), twice_area(&line));
    }
}

#[test]
fn a_doubled_vertex_at_the_seam_is_kept_with_the_ring_closed() {
    // the ring runs from 0 to 1, back to -1 and home, and ends with a doubled vertex
    let line = ring(&[(0, 0), (1, 0), (-1, 0), (0, 0), (0, 0)]);
    let once = simplify(&line);
    assert_eq!(once, line);
    assert_eq!(simplify(&once), once);
}

#[test]
fn simplifying_keeps_the_enclosed_area() {
    let line =
        ring(&[(0, 0), (0, 3), (2, 3), (3, 3), (3, 0), (2, 0), (2, 1), (1, 1), (1, 0), (0, 0)]);
    let once = simplify(&line);
    assert_eq!(
        once,
        ring(&[(0, 0), (0, 3), (3, 3), (3, 0), (2, 0), (2, 1), (1, 1), (1, 0), (0, 0)])
    );
    assert_eq!(twice_area(&once), twice_area(&line));
    assert_eq!(twice_area(&line), -16);
    let open = ring(&[(0, 0), (0, 3), (2, 3), (3, 3), (3, 0), (2, 0), (2, 1), (1, 1), (1, 0)]);
    assert_eq!(twice_area(&simplify(&open)), -16);
}

#[test]
fn an_open_ring_that_comes_back_with_one_point_at_both_ends_is_closed_from_then_on() {
    // the judgement holds of two triples only; to remove a vertex changes none of its answers
    let along = |a: char, b: char, c: char| {
        (a, b, c) == ('B', 'A', 'C') || (a, b, c) == ('A', 'D', 'A')
    };
    let same = |a: char, b: char| a == b;
    let line = vec!['A', 'C', 'B', 'A', 'D'];
    let once = removed_in_line(&line, along, same);
    assert_eq!(once, vec!['A', 'C', 'B', 'A']);
    assert_eq!(removed_in_line(&once, along, same), vec!['C', 'B', 'C']);
}

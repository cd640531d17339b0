use rangefinder::bucket::Bucket;
use rangefinder::color::SimpleColor;
use rangefinder::locate::{color_positions, find_dot, locate_dot, sort_by_position};

const W: SimpleColor = SimpleColor::White;
const R: SimpleColor = SimpleColor::Red;
const O: SimpleColor = SimpleColor::Other;

fn region(points: &[u32], color: SimpleColor) -> Bucket {
    let mut bucket = Bucket::new();
    bucket.keys.insert(points[0]);
    bucket.points.extend(points.iter().copied());
    bucket.simple_color = color;
    bucket
}

#[test]
fn white_between_red_is_the_dot() {
    assert_eq!(find_dot(&vec![(10, R), (30, W), (50, R)]), Some(30));
}

#[test]
fn red_is_the_dot_where_no_white_qualifies() {
    assert_eq!(find_dot(&vec![(5, R), (20, O)]), Some(5));
}

#[test]
fn no_dot_among_other() {
    assert_eq!(find_dot(&vec![(5, O), (20, O)]), None);
    assert_eq!(find_dot(&Vec::new()), None);
}

#[test]
fn white_at_either_end_qualifies_without_red() {
    // Known behaviour: the first and the last mark need no red neighbour.
    assert_eq!(find_dot(&vec![(5, W), (20, O), (30, R)]), Some(5));
    assert_eq!(find_dot(&vec![(1, O), (5, R), (9, O), (20, W)]), Some(20));
    assert_eq!(find_dot(&vec![(7, W)]), Some(7));
}

#[test]
fn white_with_one_red_neighbour_qualifies() {
    assert_eq!(find_dot(&vec![(1, O), (5, R), (9, W), (20, O), (30, O)]), Some(9));
    assert_eq!(find_dot(&vec![(1, O), (5, O), (9, W), (20, R), (30, O)]), Some(9));
}

#[test]
fn first_qualifying_white_wins() {
    assert_eq!(find_dot(&vec![(1, O), (5, W), (9, O), (20, R), (30, W), (40, R), (50, O)]), Some(30));
    assert_eq!(find_dot(&vec![(1, R), (5, W), (9, R), (20, W), (30, R)]), Some(5));
}

#[test]
fn first_red_wins_over_unflanked_white() {
    assert_eq!(find_dot(&vec![(1, O), (5, W), (9, O), (20, R), (30, O), (40, R), (50, O)]), Some(20));
}

#[test]
fn first_white_is_the_last_resort() {
    assert_eq!(find_dot(&vec![(1, O), (5, W), (9, O), (20, W), (30, O)]), Some(5));
}

#[test]
fn sort_is_stable() {
    let sorted = sort_by_position(&vec![(5, R), (3, W), (5, O), (3, R), (1, O), (5, W)]);
    assert_eq!(sorted, vec![(1, O), (3, W), (3, R), (5, R), (5, O), (5, W)]);
    assert_eq!(sort_by_position(&Vec::new()), Vec::new());
    assert_eq!(sort_by_position(&vec![(9, W)]), vec![(9, W)]);
    assert_eq!(sort_by_position(&vec![(3, W), (2, R), (1, O)]), vec![(1, O), (2, R), (3, W)]);
}

#[test]
fn regions_become_marks_in_order() {
    let regions = vec![
        region(&[40, 41, 42, 43, 44, 45, 46, 47, 48, 49, 50, 51, 52, 53, 54, 55, 56, 57, 58, 59, 60], R),
        region(&[10, 11], W),
        region(&[90], O),
    ];
    assert_eq!(color_positions(&regions), vec![(10, W), (50, R), (90, O)]);
}

#[test]
fn dot_is_found_among_regions() {
    let regions = vec![region(&[49, 50, 51], R), region(&[9, 10, 11], R), region(&[29, 30, 31], W)];
    assert_eq!(locate_dot(&regions), Some(30));
    let background = vec![region(&[0, 1, 2, 3], O)];
    assert_eq!(locate_dot(&background), None);
    assert_eq!(locate_dot(&Vec::new()), None);
}

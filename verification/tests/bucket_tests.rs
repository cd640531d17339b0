use rangefinder::bucket::Bucket;
use rangefinder::color::SimpleColor;

fn members(set: &std::collections::BTreeSet<u32>) -> Vec<u32> {
    set.iter().copied().collect()
}

fn bucket_of(keys: &[u32], points: &[u32], color: SimpleColor) -> Bucket {
    let mut bucket = Bucket::new();
    bucket.keys.extend(keys.iter().copied());
    bucket.points.extend(points.iter().copied());
    bucket.simple_color = color;
    bucket
}

#[test]
fn new_bucket_is_empty_and_other() {
    let bucket = Bucket::new();
    assert!(bucket.keys.is_empty());
    assert!(bucket.points.is_empty());
    assert_eq!(bucket.simple_color, SimpleColor::Other);
}

#[test]
fn insert_collects_and_pools() {
    let mut bucket = Bucket::new();
    bucket.insert(2, 40, SimpleColor::Other);
    assert_eq!(bucket.simple_color, SimpleColor::Other);
    bucket.insert(2, 41, SimpleColor::Red);
    assert_eq!(bucket.simple_color, SimpleColor::Red);
    bucket.insert(2, 42, SimpleColor::Other);
    assert_eq!(bucket.simple_color, SimpleColor::Red);
    bucket.insert(2, 41, SimpleColor::White);
    assert_eq!(bucket.simple_color, SimpleColor::White);
    bucket.insert(2, 43, SimpleColor::Red);
    assert_eq!(bucket.simple_color, SimpleColor::White);
    assert_eq!(members(&bucket.keys), vec![2]);
    assert_eq!(members(&bucket.points), vec![40, 41, 42, 43]);
}

#[test]
fn main_key_is_the_smallest() {
    let bucket = bucket_of(&[7, 3, 9, 4], &[], SimpleColor::Red);
    assert_eq!(bucket.main_key(), 3);
    let single = bucket_of(&[0], &[], SimpleColor::Other);
    assert_eq!(single.main_key(), 0);
    let top = bucket_of(&[u32::MAX], &[], SimpleColor::Other);
    assert_eq!(top.main_key(), u32::MAX);
}

#[test]
fn merge_unites_and_empties_the_other() {
    let left = bucket_of(&[1, 2], &[20, 21, 40], SimpleColor::Red);
    let mut right = bucket_of(&[2, 3], &[40, 60, 61], SimpleColor::White);
    let joined = left.merge(&mut right);
    assert_eq!(members(&joined.keys), vec![1, 2, 3]);
    assert_eq!(members(&joined.points), vec![20, 21, 40, 60, 61]);
    assert_eq!(joined.simple_color, SimpleColor::Red);
    assert!(right.keys.is_empty());
    assert!(right.points.is_empty());
    assert_eq!(right.simple_color, SimpleColor::White);
}

#[test]
fn adjacent_needs_neighbours_of_one_colour() {
    let a = bucket_of(&[1, 2], &[], SimpleColor::Red);
    let b = bucket_of(&[3], &[], SimpleColor::Red);
    let c = bucket_of(&[4], &[], SimpleColor::Red);
    let d = bucket_of(&[3], &[], SimpleColor::White);
    let empty = Bucket::new();
    assert!(a.adjacent(&b));
    assert!(b.adjacent(&a));
    assert!(!a.adjacent(&c));
    assert!(!a.adjacent(&d));
    // A region with two neighbouring blocks touches itself; one with a
    // single block does not.
    assert!(a.adjacent(&a));
    assert!(!b.adjacent(&b));
    assert!(!empty.adjacent(&empty));
    assert!(!a.adjacent(&empty));
    let wide = bucket_of(&[0, 10, 20], &[], SimpleColor::Other);
    let far = bucket_of(&[5, 21, 30], &[], SimpleColor::Other);
    assert!(wide.adjacent(&far));
}

#[test]
fn centroid_is_the_mean_rounded_down() {
    assert_eq!(bucket_of(&[0], &[0, 1, 2, 3], SimpleColor::Other).centroid(), 1);
    assert_eq!(bucket_of(&[0], &[10, 11], SimpleColor::Other).centroid(), 10);
    assert_eq!(bucket_of(&[0], &[7], SimpleColor::Other).centroid(), 7);
    assert_eq!(bucket_of(&[0], &[1, 2, 9], SimpleColor::Other).centroid(), 4);
    assert_eq!(bucket_of(&[0], &[u32::MAX, u32::MAX - 1], SimpleColor::Other).centroid(), u32::MAX - 1);
    assert_eq!(Bucket::new().centroid(), 0);
}

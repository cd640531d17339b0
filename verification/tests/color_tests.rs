use rangefinder::color::{adjacent_bucket, is_red, is_white, ColorPattern, SimpleColor};

#[test]
fn white_wins_over_red() {
    // Mean 240, and a red ratio far above the threshold.
    assert!(is_white((720, 0, 1)));
    assert!(is_red((720, 0, 1)));
    assert_eq!(SimpleColor::from_color((720, 0, 1)), SimpleColor::White);
    assert_eq!(SimpleColor::from_color((255, 255, 255)), SimpleColor::White);
    assert_eq!(SimpleColor::from_color((250, 240, 230)), SimpleColor::White);
}

#[test]
fn red_dominant_sample_is_red() {
    assert_eq!(SimpleColor::from_color((200, 10, 10)), SimpleColor::Red);
}

#[test]
fn balanced_gray_is_other() {
    assert_eq!(SimpleColor::from_color((100, 100, 100)), SimpleColor::Other);
}

#[test]
fn white_threshold_is_exact() {
    assert!(is_white((240, 240, 240)));
    assert!(!is_white((240, 240, 239)));
    assert!(is_white((240, 240, 241)));
    assert!(!is_white((0, 0, 0)));
}

#[test]
fn red_threshold_is_exact() {
    // 310 * 310 = 310 * (155 + 155)
    assert!(is_red((310, 155, 155)));
    assert!(!is_red((309, 155, 155)));
    assert!(is_red((311, 155, 155)));
    assert!(!is_red((310, 155, 156)));
}

#[test]
fn no_green_and_blue_is_not_red() {
    assert!(!is_red((200, 0, 0)));
    assert!(!is_red((0, 0, 0)));
    assert_eq!(SimpleColor::from_color((200, 0, 0)), SimpleColor::Other);
}

#[test]
fn large_channels_do_not_overflow() {
    assert!(is_white((u32::MAX, u32::MAX, u32::MAX)));
    assert!(is_red((u32::MAX, 1, 0)));
    assert!(!is_red((1, u32::MAX, u32::MAX)));
    assert_eq!(SimpleColor::from_color((u32::MAX, u32::MAX, u32::MAX)), SimpleColor::White);
}

#[test]
fn neighbours_differ_by_one() {
    assert!(adjacent_bucket(3, 4));
    assert!(adjacent_bucket(4, 3));
    assert!(!adjacent_bucket(3, 3));
    assert!(!adjacent_bucket(3, 5));
    assert!(adjacent_bucket(0, 1));
    assert!(!adjacent_bucket(0, u32::MAX));
    assert!(adjacent_bucket(2147483648, 2147483647));
    assert!(adjacent_bucket(u32::MAX, u32::MAX - 1));
}

#[test]
fn pattern_cycles_through_three() {
    let mut pattern = ColorPattern::RedWhiteRed;
    pattern.incr();
    assert_eq!(pattern, ColorPattern::Red);
    pattern.incr();
    assert_eq!(pattern, ColorPattern::White);
    pattern.incr();
    assert_eq!(pattern, ColorPattern::RedWhiteRed);
}

#[test]
fn max_takes_the_higher_rank() {
    let all = [SimpleColor::Other, SimpleColor::Red, SimpleColor::White];
    for (i, a) in all.iter().enumerate() {
        for (j, b) in all.iter().enumerate() {
            let expected = if i >= j { *a } else { *b };
            assert_eq!(a.max(*b), expected);
            assert_eq!(a.max(*b), b.max(*a));
        }
    }
}

#[test]
fn labels_are_padded() {
    assert_eq!(SimpleColor::White.label(), "white");
    assert_eq!(SimpleColor::Red.label(), "red  ");
    assert_eq!(SimpleColor::Other.label(), "other");
}

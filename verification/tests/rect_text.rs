use platformer::player::{clamp, Vec2};
use platformer::rect::Rect;
use platformer::text::{chars_of, decimal_chars, line_ranges, parse_trimmed_i32, split_ranges};

fn r(x: i32, y: i32, w: i32, h: i32) -> Rect {
    Rect { x, y, w, h }
}

#[test]
fn rect_new_keeps_ordinary_values() {
    assert_eq!(Rect::new(2, 3, 4, 5), r(2, 3, 4, 5));
}

#[test]
fn rect_new_makes_empty_sizes_one() {
    assert_eq!(Rect::new(0, 0, 0, 0), r(0, 0, 1, 1));
}

#[test]
fn rect_new_clamps_to_range() {
    let max = 1073741823;
    assert_eq!(Rect::new(i32::MAX, i32::MIN, u32::MAX, 7), r(max, -1073741824, max, 7));
}

#[test]
fn rect_width_and_height() {
    let a = Rect::new(1, 2, 30, 40);
    assert_eq!(a.width(), 30);
    assert_eq!(a.height(), 40);
}

#[test]
fn rect_intersects_itself() {
    let a = Rect::new(0, 0, 5, 5);
    assert!(a.intersects(&a));
}

#[test]
fn rect_intersects_overlap() {
    assert!(Rect::new(0, 0, 5, 5).intersects(&Rect::new(2, 2, 5, 5)));
    assert!(Rect::new(2, 2, 5, 5).intersects(&Rect::new(0, 0, 5, 5)));
}

#[test]
fn rect_shared_edge_is_no_intersection() {
    assert!(!Rect::new(0, 0, 5, 5).intersects(&Rect::new(5, 0, 5, 5)));
    assert!(!Rect::new(0, 0, 5, 5).intersects(&Rect::new(0, 5, 5, 5)));
}

#[test]
fn rect_empty_intersects_nothing() {
    assert!(!r(0, 0, 0, 5).intersects(&r(0, 0, 5, 5)));
}

#[test]
fn clamp_trims_first_number() {
    let min = Vec2(-2, -8);
    let max = Vec2(2, 8);
    assert_eq!(clamp(&Vec2(3, 0), &min, &max), Vec2(2, 0));
    assert_eq!(clamp(&Vec2(-3, 0), &min, &max), Vec2(-2, 0));
    assert_eq!(clamp(&Vec2(1, 0), &min, &max), Vec2(1, 0));
}

#[test]
fn clamp_caps_second_number() {
    assert_eq!(clamp(&Vec2(0, 9), &Vec2(-2, -8), &Vec2(2, 8)), Vec2(0, 8));
}

#[test]
fn clamp_raises_second_number_to_minimum() {
    assert_eq!(clamp(&Vec2(0, -20), &Vec2(-2, -8), &Vec2(2, 8)), Vec2(0, -8));
    assert_eq!(clamp(&Vec2(-5, -20), &Vec2(-2, -8), &Vec2(2, 8)), Vec2(-2, -8));
}

#[test]
fn chars_of_keeps_order() {
    assert_eq!(chars_of("aé,1"), vec!['a', 'é', ',', '1']);
}

#[test]
fn parse_plain_numbers() {
    assert_eq!(parse_trimmed_i32("42"), Some(42));
    assert_eq!(parse_trimmed_i32("-7"), Some(-7));
    assert_eq!(parse_trimmed_i32("+5"), Some(5));
    assert_eq!(parse_trimmed_i32("007"), Some(7));
}

#[test]
fn parse_ignores_surrounding_whitespace() {
    assert_eq!(parse_trimmed_i32("  12\n"), Some(12));
    assert_eq!(parse_trimmed_i32("\u{a0}5\u{3000}"), Some(5));
    assert_eq!(parse_trimmed_i32("\t-3\r\n"), Some(-3));
}

#[test]
fn parse_rejects_malformed_text() {
    assert_eq!(parse_trimmed_i32(""), None);
    assert_eq!(parse_trimmed_i32("   "), None);
    assert_eq!(parse_trimmed_i32("-"), None);
    assert_eq!(parse_trimmed_i32("+"), None);
    assert_eq!(parse_trimmed_i32("12a"), None);
    assert_eq!(parse_trimmed_i32("1 2"), None);
    assert_eq!(parse_trimmed_i32("--1"), None);
}

#[test]
fn parse_limits_of_i32() {
    assert_eq!(parse_trimmed_i32("2147483647"), Some(i32::MAX));
    assert_eq!(parse_trimmed_i32("2147483648"), None);
    assert_eq!(parse_trimmed_i32("-2147483648"), Some(i32::MIN));
    assert_eq!(parse_trimmed_i32("-2147483649"), None);
    assert_eq!(parse_trimmed_i32("99999999999999999999"), None);
}

#[test]
fn parse_agrees_with_std() {
    for s in ["0", "17", "-0", "+0", " 3 ", "x", "", "-12345", "2147483647", "2147483648"] {
        assert_eq!(parse_trimmed_i32(s), s.trim().parse::<i32>().ok(), "{:?}", s);
    }
}

#[test]
fn decimal_writes_like_to_string() {
    for v in [0, 7, 10, 42, -1, -10, 1234567, i32::MAX, i32::MIN] {
        let text: String = decimal_chars(v).into_iter().collect();
        assert_eq!(text, v.to_string());
    }
}

#[test]
fn decimal_round_trip() {
    for v in [0, 1, -1, 99, -100, i32::MAX, i32::MIN] {
        let text: String = decimal_chars(v).into_iter().collect();
        assert_eq!(parse_trimmed_i32(&text), Some(v));
    }
}

#[test]
fn split_ranges_like_str_split() {
    let v = chars_of("1,,2,");
    let ranges = split_ranges(&v, 0, v.len(), ',');
    let pieces: Vec<String> = ranges.iter().map(|&(a, b)| v[a..b].iter().collect()).collect();
    assert_eq!(pieces, vec!["1", "", "2", ""]);
}

#[test]
fn line_ranges_like_str_lines() {
    for text in ["a\nb", "a\r\nb\r\n", "", "\n", "x\n\ny", "end\r", "\r\n\r\n"] {
        let v = chars_of(text);
        let ranges = line_ranges(&v);
        let lines: Vec<String> = ranges.iter().map(|&(a, b)| v[a..b].iter().collect()).collect();
        let expected: Vec<String> = text.lines().map(|l| l.to_string()).collect();
        assert_eq!(lines, expected, "{:?}", text);
    }
}

use oxvoid::landing::next_theme;
use oxvoid::rng::{seed_from_time, xorshift32};
use oxvoid::text::str_eq;

#[test]
fn theme_toggles() {
    assert_eq!(next_theme("dark"), "light");
    assert_eq!(next_theme("light"), "dark");
    assert_eq!(next_theme(""), "dark");
    assert_eq!(next_theme("Dark"), "dark");
}

#[test]
fn theme_toggle_twice_from_dark_returns_dark() {
    assert_eq!(next_theme(&next_theme("dark")), "dark");
}

#[test]
fn xorshift_values() {
    assert_eq!(xorshift32(1), 270369);
    assert_eq!(xorshift32(0), 0);
    let mut s: u32 = 2463534242;
    s ^= s << 13;
    s ^= s >> 17;
    s ^= s << 5;
    assert_eq!(xorshift32(2463534242), s);
}

#[test]
fn seeds_wrap() {
    assert_eq!(seed_from_time(0), 0);
    assert_eq!(seed_from_time(1), 2654435761);
    assert_eq!(seed_from_time(2), 2654435761u32.wrapping_mul(2));
}

#[test]
fn strings_compare_by_characters() {
    assert!(str_eq("", ""));
    assert!(str_eq("héllo", "héllo"));
    assert!(!str_eq("abc", "abd"));
    assert!(!str_eq("abc", "ab"));
}

use noice::decimal::{parse_i32, to_decimal};
use noice::text::{chars_of, join_text, replace_all, split_nth, string_of};

#[test]
fn parse_reads_signed_whole_numbers() {
    assert_eq!(parse_i32("42"), Some(42));
    assert_eq!(parse_i32("-7"), Some(-7));
    assert_eq!(parse_i32("+5"), Some(5));
    assert_eq!(parse_i32("007"), Some(7));
    assert_eq!(parse_i32("-0"), Some(0));
    assert_eq!(parse_i32("2147483647"), Some(i32::MAX));
    assert_eq!(parse_i32("-2147483648"), Some(i32::MIN));
}

#[test]
fn parse_rejects_what_str_parse_rejects() {
    for s in ["", "-", "+", "1a", " 1", "1 ", "2147483648", "-2147483649", "99999999999999999999", "--1", "١"] {
        assert_eq!(parse_i32(s), None, "{s:?}");
        assert_eq!(s.parse::<i32>().ok(), None, "{s:?}");
    }
}

#[test]
fn parse_agrees_with_str_parse() {
    for s in ["0", "12", "-12", "+0", "2147483646", "-2147483647", "000000000000000000001"] {
        assert_eq!(parse_i32(s), s.parse::<i32>().ok(), "{s:?}");
    }
}

#[test]
fn decimal_writes_as_to_string() {
    for n in [0i64, 5, -5, 10, 1234567890, -1000, i64::MAX, i64::MIN] {
        assert_eq!(to_decimal(n), n.to_string());
    }
}

#[test]
fn decimal_reads_back() {
    for n in [0i32, 1, -1, 9000, i32::MAX, i32::MIN] {
        assert_eq!(parse_i32(&to_decimal(n as i64)), Some(n));
    }
}

#[test]
fn split_gives_the_parts_str_split_gives() {
    for (s, i) in [("CHARACTER:EVE:123", 2), ("a:b", 2), ("a::c", 1), ("", 0), (":", 1), ("abc", 0), ("a:b:c:d", 2)] {
        assert_eq!(split_nth(s, ':', i), s.split(':').nth(i).map(String::from), "{s:?} {i}");
    }
}

#[test]
fn replace_swaps_every_comma() {
    assert_eq!(replace_all("1,5", ',', '.'), "1.5");
    assert_eq!(replace_all(",,x", ',', '.'), "..x");
    assert_eq!(replace_all("2.25", ',', '.'), "2.25");
}

#[test]
fn characters_round_trip() {
    let s = "Jita 4-4 ✓";
    assert_eq!(string_of(&chars_of(s)), s);
    assert_eq!(join_text("ab", "çd"), "abçd");
    assert_eq!(join_text("", ""), "");
}

use gene_core::clock::Timestamp;
use gene_core::ids::Uuid;
use gene_core::numerals::{decimal_text, hex16_text, signed_decimal_text};
use gene_core::order::text_before;
use gene_core::sorting::{arrange, descending};
use gene_core::text::{
    chars_of, contains_text, fitting_chars, is_blank, join_text, lines_text, replace_text,
    split_lines_text, trim_text,
};

#[test]
fn white_space_is_unicode_white_space() {
    for n in 0..=0x10ffffu32 {
        if let Some(c) = char::from_u32(n) {
            let s = format!("x{c}");
            let expected = if c.is_whitespace() { "x".to_string() } else { s.clone() };
            assert_eq!(trim_text(&s), expected);
        }
    }
}

#[test]
fn trimming_agrees_with_std() {
    for s in ["", "  ", " a b ", "\u{85}\u{2003}é\u{3000}", "\n\ta\u{200b}\r\n"] {
        assert_eq!(trim_text(s), s.trim());
        assert_eq!(is_blank(s), s.trim().is_empty());
    }
}

#[test]
fn lines_agree_with_std() {
    for s in ["", "\n", "a", "a\n", "a\r\nb", "a\r", "\r\n\r\n", "a\n\nb\n", "x\r\r\n"] {
        assert_eq!(lines_text(s), s.lines().map(String::from).collect::<Vec<_>>());
        assert_eq!(split_lines_text(s), s.split('\n').map(String::from).collect::<Vec<_>>());
    }
}

#[test]
fn replacing_agrees_with_std() {
    for (s, p, b) in [
        ("aaa", "aa", "b"),
        ("{x}{y}{x}", "{x}", "{y}"),
        ("", "a", "b"),
        ("abc", "d", "e"),
        ("éé", "é", ""),
        ("ab", "ab", "abab"),
    ] {
        assert_eq!(replace_text(s, p, b), s.replace(p, b));
    }
}

#[test]
fn searching_agrees_with_std() {
    for (h, n) in [("", ""), ("abc", ""), ("abc", "bc"), ("abc", "cb"), ("a", "ab"), ("éa", "a")] {
        assert_eq!(contains_text(h, n), h.contains(n));
    }
}

#[test]
fn joining() {
    assert_eq!(join_text(&vec![], ", "), "");
    assert_eq!(join_text(&vec!["a".to_string()], ", "), "a");
    assert_eq!(join_text(&vec!["a".to_string(), "".to_string(), "b".to_string()], ", "), "a, , b");
}

#[test]
fn fitting_stops_at_a_character() {
    let v = chars_of("aé€😀b");
    let fits: Vec<usize> = (0..=12).map(|cap| fitting_chars(&v, cap)).collect();
    assert_eq!(fits, vec![0, 1, 1, 2, 2, 2, 3, 3, 3, 3, 4, 5, 5]);
}

#[test]
fn text_order_agrees_with_std() {
    for (a, b) in [("", ""), ("", "a"), ("a", "b"), ("b", "a"), ("ab", "b"), ("é", "z"), ("z", "€")] {
        assert_eq!(text_before(a, b), a < b);
    }
}

#[test]
fn numbers_as_text() {
    for n in [0u64, 7, 10, 4096, u64::MAX] {
        assert_eq!(decimal_text(n), n.to_string());
        assert_eq!(hex16_text(n), format!("{n:016x}"));
    }
    for n in [0i32, 5, -1, i32::MIN, i32::MAX] {
        assert_eq!(signed_decimal_text(n), n.to_string());
    }
}

#[test]
fn times_are_written_compactly() {
    let t = Timestamp::from_parts(1_781_792_553, 5).unwrap();
    assert_eq!(t.compact_text(), "20260618T142233");
    assert_eq!(t.rfc3339_text(), "2026-06-18T14:22:33.000000005+00:00");
    assert_eq!((t.secs(), t.nanos()), (1_781_792_553, 5));
    let zero = Timestamp::from_parts(0, 0).unwrap();
    assert_eq!(zero.rfc3339_text(), "1970-01-01T00:00:00+00:00");
    assert!(zero.is_before(&t));
    assert!(!t.is_before(&t));
}

#[test]
fn the_calendar_has_ends() {
    assert!(Timestamp::from_parts(-8_334_601_228_800, 0).is_some());
    assert!(Timestamp::from_parts(-8_334_601_228_801, 0).is_none());
    assert!(Timestamp::from_parts(8_210_266_876_799, 999_999_999).is_some());
    assert!(Timestamp::from_parts(8_210_266_876_800, 0).is_none());
    // A leap second belongs to the last second of a minute.
    assert!(Timestamp::from_parts(59, 1_500_000_000).is_some());
    assert!(Timestamp::from_parts(-1, 1_500_000_000).is_some());
    assert!(Timestamp::from_parts(58, 1_500_000_000).is_none());
    assert!(Timestamp::from_parts(59, 2_000_000_000).is_none());
    for (secs, nanos) in [
        (-8_334_601_228_800i64, 0u32),
        (8_210_266_876_799, 1_999_999_999),
        (59, 1_500_000_000),
        (-1, 1_500_000_000),
        (253_402_300_799, 0),
        (-62_167_219_200, 0),
    ] {
        let there = chrono::DateTime::from_timestamp(secs, nanos).unwrap();
        let here = Timestamp::from_parts(secs, nanos).unwrap();
        assert_eq!(here.rfc3339_text(), there.to_rfc3339());
        assert_eq!(here.compact_text(), there.format("%Y%m%dT%H%M%S").to_string());
    }
}

#[test]
fn written_times_sort_as_times() {
    let mut times = Vec::new();
    for secs in [-62_167_219_200i64, -1, 0, 59, 60, 1_781_792_553, 253_402_300_799] {
        for nanos in [0u32, 1, 1_000, 1_000_000, 500_000_000, 999_999_999, 1_000_000_000, 1_999_999_999] {
            if let Some(t) = Timestamp::from_parts(secs, nanos) {
                times.push(t);
            }
        }
    }
    for a in &times {
        for b in &times {
            assert_eq!(a.rfc3339_text() < b.rfc3339_text(), a.is_before(b));
            if a.is_before(b) {
                assert!(a.compact_text() <= b.compact_text());
            }
            assert_eq!(a.compact_text().len(), 15);
        }
    }
}

#[test]
fn identifiers_as_text() {
    let id = Uuid { bits: 0x0123_4567_89ab_cdef_0011_2233_4455_6677 };
    assert_eq!(id.simple_text(), "0123456789abcdef0011223344556677");
    assert_eq!(id.hyphenated_text(), "01234567-89ab-cdef-0011-223344556677");
    assert_eq!(Uuid { bits: 0 }.simple_text().len(), 32);
}

#[test]
fn random_identifiers() {
    let a = Uuid::new_v4();
    assert_ne!(a, Uuid::new_v4());
    assert_eq!((a.bits >> 76) & 0xf, 4);
    assert_eq!((a.bits >> 62) & 0x3, 2);
}

#[test]
fn sorting_keeps_the_order_of_equals() {
    let keys: Vec<String> = ["b", "c", "a", "c", "b"].iter().map(|s| s.to_string()).collect();
    let order = descending(&keys);
    assert_eq!(order, vec![1, 3, 0, 4, 2]);
    assert_eq!(arrange(vec![10, 20, 30, 40, 50], &order), vec![20, 40, 10, 50, 30]);
    assert!(descending(&Vec::<String>::new()).is_empty());
}

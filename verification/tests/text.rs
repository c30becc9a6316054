use gossipping::announce::announce_interval;
use gossipping::text::{decimal, entries, lines, parse_number, str_eq, trim, white_space};

#[test]
fn white_space_is_that_of_unicode() {
    for n in 0..=0x10ffff_u32 {
        if let Some(c) = char::from_u32(n) {
            assert_eq!(white_space(c), c.is_whitespace(), "{n:x}");
        }
    }
}

#[test]
fn trim_agrees_with_std() {
    for s in ["", " ", "\t a b \u{3000}", "\u{85}x\u{a0}", "\r\n", "äß ", " \u{2028}y"] {
        assert_eq!(trim(s), s.trim());
    }
}

#[test]
fn str_eq_compares_texts() {
    assert!(str_eq("", ""));
    assert!(str_eq("häß", "häß"));
    assert!(!str_eq("a", "b"));
    assert!(!str_eq("a", "ab"));
}

#[test]
fn entries_are_trimmed_and_not_blank() {
    assert_eq!(entries(" a ,, b,\t,c d", ','), vec!["a", "b", "c d"]);
    assert_eq!(entries("one\r\n\r\n two \nthree", '\n'), vec!["one", "two", "three"]);
    assert!(entries("", ',').is_empty());
    assert!(entries(" , ", ',').is_empty());
}

#[test]
fn entries_agree_with_lines_of_std() {
    for s in ["a\nb\n", "a\r\nb", "\n\n", "x\ry\nz", " q \n\t\nr"] {
        let expected: Vec<String> =
            s.lines().map(|l| l.trim().to_string()).filter(|l| !l.is_empty()).collect();
        assert_eq!(entries(s, '\n'), expected);
    }
}

#[test]
fn lines_round_trip() {
    let items: Vec<String> = vec!["a".into(), "b c".into(), "ä".into()];
    assert_eq!(lines(&items), "a\nb c\nä\n");
    assert_eq!(entries(&lines(&items), '\n'), items);
    assert_eq!(lines(&vec![]), "");
}

#[test]
fn decimal_agrees_with_std() {
    for n in [0, 7, 10, 99, 100, 1234567890, u64::MAX] {
        assert_eq!(decimal(n), n.to_string());
        assert_eq!(parse_number(&decimal(n)), Some(n));
    }
}

#[test]
fn parse_number_agrees_with_std() {
    for s in [
        "", "+", "-1", "-0", "0", "+0", "007", "18446744073709551615", "18446744073709551616",
        "99999999999999999999999", " 1", "1 ", "1a", "++1", "+12", "٣",
    ] {
        assert_eq!(parse_number(s), s.parse::<u64>().ok(), "{s:?}");
    }
}

#[test]
fn the_announce_interval_has_a_default() {
    assert_eq!(announce_interval(None), 300);
    assert_eq!(announce_interval(Some("60")), 60);
    assert_eq!(announce_interval(Some("0")), 0);
    assert_eq!(announce_interval(Some("5m")), 300);
}

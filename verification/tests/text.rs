use repo_recall::order::{sorted, stands_before};
use repo_recall::product::{less, multiplied};
use repo_recall::text::{
    behind_last, chars_of, count_chars_in, decimal_string, has_bytes, is_white, join, lines,
    parse_i64, parse_u64, push_int, split_all, split_at_most, split_once, string_of, strip_prefix,
    trim, trim_suffixes, utf8_width, words,
};

fn strings(parts: Vec<&[char]>) -> Vec<String> {
    parts.into_iter().map(string_of).collect()
}

#[test]
fn white_space_is_that_of_unicode() {
    for u in 0..=0x10ffffu32 {
        if let Some(c) = char::from_u32(u) {
            assert_eq!(is_white(c), c.is_whitespace(), "{u:x}");
        }
    }
}

#[test]
fn widths_are_those_of_utf8() {
    for u in 0..=0x10ffffu32 {
        if let Some(c) = char::from_u32(u) {
            assert_eq!(utf8_width(c), c.len_utf8(), "{u:x}");
        }
    }
}

#[test]
fn trimming_matches_std() {
    for s in ["", " ", "\u{3000}a b\t\n", "x", "\u{85}x\u{a0}", "\u{200b}x"] {
        assert_eq!(string_of(trim(&chars_of(s))), s.trim());
    }
}

#[test]
fn lines_match_std() {
    for s in ["", "\n", "a", "a\n", "a\r\nb", "a\r\r\n\n\rb\r", "\r\n\r\n", "x\ry"] {
        let want: Vec<String> = s.lines().map(String::from).collect();
        assert_eq!(strings(lines(&chars_of(s))), want, "{s:?}");
    }
}

#[test]
fn splitting_matches_std() {
    for s in ["", "a", "a|b", "|", "||a|", "a|b|c|d|e"] {
        let chars = chars_of(s);
        let all: Vec<String> = s.split('|').map(String::from).collect();
        assert_eq!(strings(split_all(&chars, '|')), all);
        for n in 1..5 {
            let some: Vec<String> = s.splitn(n, '|').map(String::from).collect();
            assert_eq!(strings(split_at_most(&chars, '|', n)), some);
        }
        let once = split_once(&chars, '|').map(|(a, b)| (string_of(a), string_of(b)));
        assert_eq!(once, s.split_once('|').map(|(a, b)| (a.to_string(), b.to_string())));
    }
}

#[test]
fn words_match_std() {
    for s in ["", "  ", "a", " a\tb  c\n", "\u{2003}x\u{2003}y"] {
        let want: Vec<String> = s.split_whitespace().map(String::from).collect();
        assert_eq!(strings(words(&chars_of(s))), want);
    }
}

#[test]
fn affixes_match_std() {
    let chars = chars_of("refs/x/x/x");
    assert_eq!(strip_prefix(&chars, "refs/").map(string_of).as_deref(), Some("x/x/x"));
    assert_eq!(strip_prefix(&chars, "heads/").map(string_of), None);
    assert_eq!(string_of(trim_suffixes(&chars, "/x")), "refs/x/x/x".trim_end_matches("/x"));
    assert_eq!(string_of(trim_suffixes(&chars, "")), "refs/x/x/x");
}

#[test]
fn last_places_match_std() {
    for s in ["", "a", "a -> b", "a -> b -> c", " -> -> ", "x ->", " -> x"] {
        let want = s.rsplit(" -> ").next().unwrap_or(s);
        assert_eq!(string_of(behind_last(&chars_of(s), " -> ")), want, "{s:?}");
    }
}

#[test]
fn integers_match_std() {
    for s in [
        "", "+", "-", "0", "-0", "+7", "007", "9223372036854775807", "9223372036854775808",
        "-9223372036854775808", "-9223372036854775809", "18446744073709551615",
        "18446744073709551616", "1 ", " 1", "1_0", "٣", "--1", "+-1", "99999999999999999999999",
    ] {
        assert_eq!(parse_i64(&chars_of(s)), s.parse::<i64>().ok(), "{s:?}");
        assert_eq!(parse_u64(&chars_of(s)), s.parse::<u64>().ok(), "{s:?}");
    }
}

#[test]
fn decimals_match_std() {
    for n in [0u64, 7, 10, 99, 100, 12345, u64::MAX] {
        assert_eq!(decimal_string(n), n.to_string());
    }
    for n in [0i64, -1, 42, i64::MIN, i64::MAX] {
        let mut s = String::from("n=");
        push_int(&mut s, n);
        assert_eq!(s, format!("n={n}"));
    }
}

#[test]
fn joining_matches_std() {
    let parts: Vec<String> = vec!["a".into(), "".into(), "c".into()];
    assert_eq!(join(&parts, ", "), parts.join(", "));
    assert_eq!(join(&Vec::new(), ", "), "");
}

#[test]
fn bytes_are_counted() {
    let chars = chars_of("aé日🦀");
    for n in 0..12 {
        assert_eq!(has_bytes(&chars, n), "aé日🦀".len() >= n);
        let want = if "aé日🦀".is_char_boundary(n) {
            Some("aé日🦀"[..n].chars().count())
        } else {
            None
        };
        assert_eq!(count_chars_in(&chars, n), want);
    }
}

#[test]
fn texts_order_as_strings_do() {
    let list = ["", "a", "ab", "b", "B", "é", "日", "🦀", "z\u{ffff}", "a\0"];
    for a in list {
        for b in list {
            assert_eq!(stands_before(&chars_of(a), &chars_of(b)), a < b, "{a:?} {b:?}");
        }
    }
}

#[test]
fn integers_are_put_in_order() {
    assert_eq!(sorted(&vec![5, -1, 5, 0, 3]), vec![-1, 0, 3, 5, 5]);
    assert_eq!(sorted(&Vec::new()), Vec::<i128>::new());
}

#[test]
fn products_are_exact() {
    let big = 1u128 << 66;
    let a = multiplied(&vec![big, big, big, big, big, big, big, big]);
    let b = multiplied(&vec![big, big, big, big, big, big, big, big - 1]);
    assert!(less(&b, &a));
    assert!(!less(&a, &b));
    assert!(!less(&a, &a));
    let small = multiplied(&vec![3, 5, 7]);
    let mut value: u128 = 0;
    for d in small.iter().rev() {
        value = (value << 32) + *d as u128;
    }
    assert_eq!(value, 105);
    assert_eq!(multiplied(&Vec::new()), vec![1]);
}

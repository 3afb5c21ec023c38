use wano::number::{parse_i32, push_int, push_nat, push_three, push_thousandths};
use wano::order::{not_after, sort_texts};
use wano::text::{
    find_char, from_chars, has_prefix, joined, lowered, part, same_text, to_chars, trimmed, without_suffixes,
};

const SAMPLES: [&str; 14] =
    ["", "a", "A", "ab", "abc", "b", "Z", "é", "z\u{10ffff}", " a ", "\t\u{85}x\u{2029}", "ÀB", "日本", "0"];

fn chars(s: &str) -> Vec<char> {
    to_chars(s)
}

#[test]
fn texts_survive_being_taken_apart() {
    for s in SAMPLES {
        assert_eq!(chars(s), s.chars().collect::<Vec<char>>());
        assert_eq!(from_chars(&chars(s)), s);
        for t in SAMPLES {
            assert_eq!(same_text(s, t), s == t);
            assert_eq!(has_prefix(&chars(s), t), s.starts_with(t));
        }
    }
}

#[test]
fn white_space_is_what_unicode_says() {
    for c in '\0'..=char::MAX {
        assert_eq!(trimmed(&vec![c]).is_empty(), c.is_whitespace());
    }
    for s in SAMPLES {
        assert_eq!(from_chars(&trimmed(&chars(s))), s.trim());
    }
}

#[test]
fn only_ascii_letters_are_lowered() {
    for c in '\0'..=char::MAX {
        assert_eq!(lowered(&vec![c]), vec![c.to_ascii_lowercase()]);
    }
}

#[test]
fn suffixes_are_stripped_as_often_as_they_occur() {
    for s in ["60Hz", "60HzHz", "Hz", "60hz", "z", "HHz", "60H", ""] {
        assert_eq!(from_chars(&without_suffixes(&chars(s), "Hz")), s.trim_end_matches("Hz"));
    }
}

#[test]
fn parts_are_found() {
    let v = chars("a@b@c");
    assert_eq!(find_char(&v, '@'), Some(1));
    assert_eq!(find_char(&v, 'x'), None);
    assert_eq!(from_chars(&part(&v, 2, 5)), "b@c");
    assert_eq!(part(&v, 3, 3), vec![]);
}

#[test]
fn texts_are_joined() {
    let v: Vec<String> = vec!["a".into(), "".into(), "b".into()];
    assert_eq!(joined(&v, "--"), "a----b");
    assert_eq!(joined(&vec![], "--"), "");
}

#[test]
fn texts_are_in_the_order_of_their_characters() {
    for a in SAMPLES {
        for b in SAMPLES {
            assert_eq!(not_after(a, b), a <= b);
        }
    }
    let mut sorted: Vec<String> = SAMPLES.map(String::from).to_vec();
    let given = sorted.clone();
    sorted.sort();
    assert_eq!(sort_texts(&given), sorted);
}

#[test]
fn whole_numbers_are_read_as_i32() {
    for s in [
        "0", "7", "-7", "+7", "007", "2147483647", "2147483648", "-2147483648", "-2147483649", "", "-", "+", "--1",
        "1.0", " 1", "1 ", "99999999999999999999999999999999999999999999", "-00", "a", "٣",
    ] {
        assert_eq!(parse_i32(&chars(s)), s.parse::<i32>().ok());
    }
}

#[test]
fn numbers_are_written_in_decimal() {
    let mut v: Vec<char> = Vec::new();
    push_nat(&mut v, u64::MAX);
    v.push(' ');
    push_int(&mut v, -1234567890123);
    v.push(' ');
    push_int(&mut v, 0);
    v.push(' ');
    push_three(&mut v, 42);
    v.push(' ');
    push_thousandths(&mut v, -5);
    assert_eq!(from_chars(&v), "18446744073709551615 -1234567890123 0 042 -0.005");
}

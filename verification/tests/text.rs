use kmoddep::number::parse_unsigned;
use kmoddep::order::comes_before;
use kmoddep::text::{
    char_is_space, find, from_chars, has_prefix, has_suffix, lines, matches_at, remove, replace,
    rfind, split, to_chars, trim,
};

fn strings(v: Vec<Vec<char>>) -> Vec<String> {
    v.iter().map(|p| from_chars(p)).collect()
}

const SAMPLES: [&str; 14] = [
    "",
    "\n",
    "a",
    "a\n",
    "a\nb",
    "a\r\nb\r\n",
    "a\r",
    "\r\n\r\n",
    "a\n\nb\n",
    "  a b  \t",
    "\u{a0}x\u{3000}",
    "a,b,,c,",
    " lead and trail ",
    "\u{e9}t\u{e9}\n\u{4e2d}\u{6587}\r\nend",
];

#[test]
fn chars_round_trip() {
    for s in SAMPLES {
        assert_eq!(from_chars(&to_chars(s)), s);
        assert_eq!(to_chars(s), s.chars().collect::<Vec<char>>());
    }
}

#[test]
fn lines_are_those_of_std() {
    for s in SAMPLES {
        let want: Vec<String> = s.lines().map(|l| l.to_string()).collect();
        assert_eq!(strings(lines(&to_chars(s))), want, "lines of {:?}", s);
    }
}

#[test]
fn lines_in_detail() {
    assert!(lines(&to_chars("")).is_empty());
    assert_eq!(strings(lines(&to_chars("\n"))), vec!["".to_string()]);
    assert_eq!(strings(lines(&to_chars("a\r\nb"))), vec!["a".to_string(), "b".to_string()]);
    assert_eq!(strings(lines(&to_chars("a\r"))), vec!["a\r".to_string()]);
}

#[test]
fn split_is_that_of_std() {
    for s in SAMPLES {
        for sep in [' ', ',', '\n', '/'] {
            let want: Vec<String> = s.split(sep).map(|l| l.to_string()).collect();
            assert_eq!(strings(split(&to_chars(s), sep)), want, "split of {:?}", s);
        }
    }
}

#[test]
fn split_in_detail() {
    assert_eq!(strings(split(&to_chars(""), ' ')), vec!["".to_string()]);
    assert_eq!(
        strings(split(&to_chars("a  b "), ' ')),
        vec!["a".to_string(), "".to_string(), "b".to_string(), "".to_string()]
    );
}

#[test]
fn trim_is_that_of_std() {
    for s in SAMPLES {
        assert_eq!(from_chars(trim(&to_chars(s))), s.trim(), "trim of {:?}", s);
    }
    assert_eq!(from_chars(trim(&to_chars(" \t\n "))), "");
    assert_eq!(from_chars(trim(&to_chars("a  b"))), "a  b");
}

#[test]
fn white_space_is_that_of_std() {
    let mut n: u32 = 0;
    while n <= 0x3100 {
        if let Some(c) = char::from_u32(n) {
            assert_eq!(char_is_space(c), c.is_whitespace(), "code point {:x}", n);
        }
        n += 1;
    }
    assert!(!char_is_space('\u{feff}'));
    assert!(!char_is_space('\u{1f600}'));
}

#[test]
fn find_and_rfind_give_first_and_last_occurrence() {
    let s = to_chars("a.ko.b.ko");
    let ko = to_chars(".ko");
    assert_eq!(find(&s, &ko, 0), 1);
    assert_eq!(find(&s, &ko, 2), 6);
    assert_eq!(find(&s, &ko, 7), 9);
    assert_eq!(find(&s, &ko, 9), 9);
    assert_eq!(rfind(&s, &ko), Some(6));
    assert_eq!(rfind(&s, &to_chars("x")), None);
    assert_eq!(rfind(&to_chars(""), &ko), None);
    assert_eq!(find(&to_chars(""), &ko, 0), 0);
    assert_eq!(find(&s, &to_chars(""), 3), 3);
    assert_eq!(rfind(&s, &to_chars("")), Some(9));
}

#[test]
fn prefix_suffix_and_occurrence_are_those_of_std() {
    let pats = ["", "a", ".ko", "kernel/", "/kernel/", "x.ko", "a.ko.b.ko", "a.ko.b.kox"];
    let texts = ["", "a", "a.ko.b.ko", "kernel/x.ko", "/lib/kernel/x.ko"];
    for t in texts {
        for p in pats {
            let (tc, pc) = (to_chars(t), to_chars(p));
            assert_eq!(has_prefix(&tc, &pc), t.starts_with(p), "{:?} starts with {:?}", t, p);
            assert_eq!(has_suffix(&tc, &pc), t.ends_with(p), "{:?} ends with {:?}", t, p);
            let first = find(&tc, &pc, 0);
            assert_eq!(matches_at(&tc, &pc, first), t.contains(p), "{:?} contains {:?}", t, p);
            assert_eq!(first, t.find(p).map(|b| t[..b].chars().count()).unwrap_or(tc.len()));
        }
    }
}

#[test]
fn replace_and_remove_touch_every_occurrence() {
    assert_eq!(from_chars(&replace(&to_chars("_a_b__c"), '_', '-')), "-a-b--c");
    assert_eq!(from_chars(&replace(&to_chars("abc"), '_', '-')), "abc");
    assert_eq!(from_chars(&remove(&to_chars(" a  b c "), ' ')), "abc");
    assert_eq!(from_chars(&remove(&to_chars(""), ' ')), "");
}

#[test]
fn decimal_numbers_are_those_of_std() {
    let samples = [
        "0", "7", "007", "69632", "+5", "+", "", "-1", "1 ", " 1", "12a", "0x10", "255", "256",
        "18446744073709551615", "18446744073709551616", "99999999999999999999999", "١٢",
    ];
    for s in samples {
        assert_eq!(parse_unsigned(&to_chars(s), false, usize::MAX), s.parse::<usize>().ok(), "{:?}", s);
        assert_eq!(
            parse_unsigned(&to_chars(s), false, 255),
            s.parse::<u8>().ok().map(|v| v as usize),
            "{:?}",
            s
        );
    }
}

#[test]
fn hexadecimal_numbers_are_those_of_std() {
    let samples = [
        "0", "ff", "FF", "fF0", "ffffffffc0a12000", "+a", "g", "", "0x1", "ffffffffffffffff",
        "10000000000000000", "a b",
    ];
    for s in samples {
        assert_eq!(
            parse_unsigned(&to_chars(s), true, usize::MAX),
            usize::from_str_radix(s, 16).ok(),
            "{:?}",
            s
        );
    }
    assert_eq!(parse_unsigned(&to_chars("1f"), true, usize::MAX), Some(31));
    assert_eq!(parse_unsigned(&to_chars("1f"), false, usize::MAX), None);
}

#[test]
fn names_are_ordered_as_strings_are() {
    let names = ["", "a", "ab", "aB", "b", "a-b", "a_b", "\u{e9}", "\u{4e2d}", "\u{1f600}", "z", "Z"];
    for a in names {
        for b in names {
            assert_eq!(comes_before(&to_chars(a), &to_chars(b)), a < b, "{:?} before {:?}", a, b);
        }
    }
}

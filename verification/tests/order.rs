use kmoddep::order::{char_before, insert_ascending, lower_bound};
use kmoddep::text::{from_chars, to_chars};

fn list(items: &[&str]) -> Vec<Vec<char>> {
    items.iter().map(|s| to_chars(s)).collect()
}

fn strings(v: &Vec<Vec<char>>) -> Vec<String> {
    v.iter().map(|p| from_chars(p)).collect()
}

#[test]
fn characters_are_ordered_by_code_point() {
    assert!(char_before('a', 'b'));
    assert!(!char_before('b', 'a'));
    assert!(!char_before('a', 'a'));
    assert!(char_before('Z', 'a'));
    assert!(char_before('z', '\u{e9}'));
    assert!(char_before('\u{ffff}', '\u{10000}'));
}

#[test]
fn lower_bound_counts_the_elements_that_come_before() {
    let l = list(&["b", "d", "f"]);
    assert_eq!(lower_bound(&l, &to_chars("a")), 0);
    assert_eq!(lower_bound(&l, &to_chars("b")), 0);
    assert_eq!(lower_bound(&l, &to_chars("c")), 1);
    assert_eq!(lower_bound(&l, &to_chars("d")), 1);
    assert_eq!(lower_bound(&l, &to_chars("e")), 2);
    assert_eq!(lower_bound(&l, &to_chars("f")), 2);
    assert_eq!(lower_bound(&l, &to_chars("g")), 3);
    assert_eq!(lower_bound(&Vec::new(), &to_chars("a")), 0);
}

#[test]
fn insertion_keeps_the_list_ascending_and_free_of_repetition() {
    let mut l: Vec<Vec<char>> = Vec::new();
    let items = ["m", "c", "x", "c", "a", "m", "z", "", "ab", "a", "b"];
    for x in items {
        insert_ascending(&mut l, to_chars(x));
    }
    let mut want: Vec<String> = items.iter().map(|s| s.to_string()).collect();
    want.sort();
    want.dedup();
    assert_eq!(strings(&l), want);
}

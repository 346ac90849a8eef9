use std::cmp::Ordering;
use yml_diff::key::{common_run, split_dots};
use yml_diff::text::{char_before, chars_of, first_difference, lex_compare, same_chars};

fn chars(s: &str) -> Vec<char> {
    s.chars().collect()
}

#[test]
fn characters_of_a_string_come_in_order() {
    assert_eq!(chars_of(""), Vec::<char>::new());
    assert_eq!(chars_of("a.b"), vec!['a', '.', 'b']);
    assert_eq!(chars_of("é配"), vec!['é', '配']);
}

#[test]
fn characters_are_ordered_by_code_point() {
    assert!(char_before('a', 'b'));
    assert!(!char_before('b', 'a'));
    assert!(!char_before('a', 'a'));
    assert!(char_before('-', '.'));
    assert!(char_before('z', 'é'));
    assert!(char_before('é', '配'));
}

#[test]
fn first_difference_is_the_length_of_the_common_start() {
    assert_eq!(first_difference(&chars("abc"), &chars("abd")), 2);
    assert_eq!(first_difference(&chars("abc"), &chars("abc")), 3);
    assert_eq!(first_difference(&chars("ab"), &chars("abc")), 2);
    assert_eq!(first_difference(&chars(""), &chars("abc")), 0);
    assert_eq!(first_difference(&chars("x"), &chars("y")), 0);
}

#[test]
fn lexical_order_matches_the_order_of_strings() {
    let samples = ["", "a", "ab", "a.b", "a!", "b", "é", "配", "abc", "abd", "z"];
    for a in samples {
        for b in samples {
            assert_eq!(lex_compare(&chars(a), &chars(b)), a.cmp(b));
            assert_eq!(same_chars(&chars(a), &chars(b)), a == b);
        }
    }
    assert_eq!(lex_compare(&chars("ab"), &chars("abc")), Ordering::Less);
    assert_eq!(lex_compare(&chars("b"), &chars("abc")), Ordering::Greater);
}

#[test]
fn paths_split_at_their_dots() {
    assert_eq!(split_dots(&chars("")), vec![chars("")]);
    assert_eq!(split_dots(&chars("a")), vec![chars("a")]);
    assert_eq!(split_dots(&chars("db.host")), vec![chars("db"), chars("host")]);
    assert_eq!(split_dots(&chars("a..b.")), vec![chars("a"), chars(""), chars("b"), chars("")]);
    assert_eq!(split_dots(&chars(".")), vec![chars(""), chars("")]);
    for s in ["", "a", "a.b.c", "..", "x.", ".y", "é.配"] {
        let expected: Vec<Vec<char>> = s.split('.').map(chars).collect();
        assert_eq!(split_dots(&chars(s)), expected);
    }
}

#[test]
fn common_run_counts_the_equal_leading_segments() {
    let a = split_dots(&chars("a.b.c"));
    let b = split_dots(&chars("a.b.d"));
    let c = split_dots(&chars("a.b"));
    let d = split_dots(&chars("x.b.c"));
    assert_eq!(common_run(&a, &b), 2);
    assert_eq!(common_run(&a, &c), 2);
    assert_eq!(common_run(&a, &a), 3);
    assert_eq!(common_run(&a, &d), 0);
}

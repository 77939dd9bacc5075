//! Tests of the distance ranker: single-pair distances and the all-pairs
//! ranking.

use line_align::levenshtein;
use line_align::levenshtein_all;

#[test]
fn levenshtein_it_works() {
    let actual = levenshtein("abcde", "abcde");
    assert_eq!(actual, 0);
}

#[test]
fn levenshtein_one_before() {
    let actual = levenshtein("_abc", ".abc");
    assert_eq!(actual, 1);
}

#[test]
fn levenshtein_two_before_ragged() {
    let actual = levenshtein("..abc", "abc");
    assert_eq!(actual, 2);
}

#[test]
fn levenshtein_two_after() {
    let actual = levenshtein("abc..", "abc__");
    assert_eq!(actual, 2);
}

#[test]
fn levenshtein_two_middle_not_contiguous() {
    let actual = levenshtein("a.b.c", "a_b_c");
    assert_eq!(actual, 2);
}

#[test]
fn levenshtein_three_middle_contiguous() {
    let actual = levenshtein("a...c", "a___c");
    assert_eq!(actual, 3);
}

#[test]
fn levenshtein_one_wide_char() {
    let actual = levenshtein("五五", "五六");
    assert_eq!(actual, 1);
}

#[test]
fn levenshtein_missing_1st() {
    let actual = levenshtein("", "五六");
    assert_eq!(actual, 2);
}

#[test]
fn levenshtein_missing_2nd() {
    let actual = levenshtein("五五", "");
    assert_eq!(actual, 2);
}

#[test]
fn levenshtein_all_it_works() {
    let lines = vec![
        "MOJAVE DESERT, PROVIDENCE MTS.: canyon above",
        "E. MOJAVE DESERT , PROVIDENCE MTS . : canyon above",
        "E MOJAVE DESERT PROVTDENCE MTS. # canyon above",
        "Be ‘MOJAVE DESERT, PROVIDENCE canyon “above",
    ];
    let expect = vec![
        (6, 0, 1),
        (6, 0, 2),
        (6, 1, 2),
        (11, 0, 3),
        (13, 1, 3),
        (13, 2, 3),
    ];
    let actual = levenshtein_all(lines);
    assert_eq!(expect, actual);
}

#[test]
fn levenshtein_all_example() {
    let actual = levenshtein_all(vec!["abc", "abcde", "abcd"]);
    let expect = vec![(1, 0, 2), (1, 1, 2), (2, 0, 1)];
    assert_eq!(expect, actual);
}

#[test]
fn levenshtein_is_symmetric() {
    assert_eq!(levenshtein("kitten", "sitting"), levenshtein("sitting", "kitten"));
    assert_eq!(levenshtein("", "abc"), levenshtein("abc", ""));
    assert_eq!(levenshtein("五五", "五六"), levenshtein("五六", "五五"));
}

#[test]
fn levenshtein_triangle_inequality() {
    let a = "kitten";
    let b = "sitting";
    let c = "mitten";
    assert!(levenshtein(a, c) <= levenshtein(a, b) + levenshtein(b, c));
    assert!(levenshtein(a, b) <= levenshtein(a, c) + levenshtein(c, b));
    assert!(levenshtein(b, c) <= levenshtein(b, a) + levenshtein(a, c));
}

#[test]
fn levenshtein_all_fewer_than_two_lines() {
    assert_eq!(levenshtein_all(vec![]), vec![]);
    assert_eq!(levenshtein_all(vec!["alone"]), vec![]);
}

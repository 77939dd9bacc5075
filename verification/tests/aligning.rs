//! Tests of the affine-gap alignment engine.

use line_align::ConfigError;
use line_align::LineAlign;

fn engine(gap: i32, skew: i32) -> LineAlign {
    LineAlign::new(vec![], gap, skew).unwrap()
}

fn marker_count(s: &str, marker: char) -> usize {
    s.chars().filter(|c| *c == marker).count()
}

fn without_marker(s: &str, marker: char) -> String {
    s.chars().filter(|c| *c != marker).collect()
}

#[test]
fn align_empty_input() {
    let la = engine(-2, -1);
    let out = la.align(vec![]);
    assert!(out.is_empty());
}

#[test]
fn align_single_line_unchanged() {
    let la = engine(-2, -1);
    let out = la.align(vec!["MOJAVE DESERT"]);
    assert_eq!(out, vec!["MOJAVE DESERT".to_string()]);
}

#[test]
fn align_two_identical_lines_no_gaps() {
    let la = engine(-2, -1);
    let out = la.align(vec!["canyon above", "canyon above"]);
    assert_eq!(out.len(), 2);
    assert_eq!(out[0], "canyon above");
    assert_eq!(out[1], "canyon above");
    assert_eq!(marker_count(&out[0], la.gap_char), 0);
    assert_eq!(marker_count(&out[1], la.gap_char), 0);
}

#[test]
fn align_pads_missing_line() {
    let la = engine(-2, -1);
    let out = la.align(vec!["a", ""]);
    assert_eq!(out.len(), 2);
    assert_eq!(out[0], "a");
    assert_eq!(out[1], la.gap_char.to_string());
}

#[test]
fn align_pads_missing_profile() {
    let la = engine(-2, -1);
    let out = la.align(vec!["", "a"]);
    assert_eq!(out.len(), 2);
    assert_eq!(out[0], la.gap_char.to_string());
    assert_eq!(out[1], "a");
}

#[test]
fn align_outputs_equal_length_and_keep_characters() {
    let la = engine(-3, -1);
    let lines = vec!["abcde", "abc", "bcd", "xbcde"];
    let out = la.align(lines.clone());
    assert_eq!(out.len(), lines.len());
    let width = out[0].chars().count();
    assert!(width >= 5);
    for (orig, padded) in lines.iter().zip(out.iter()) {
        assert_eq!(padded.chars().count(), width);
        assert_eq!(without_marker(padded, la.gap_char), *orig);
    }
}

#[test]
fn align_wide_chars_count_as_units() {
    let la = engine(-2, -1);
    let lines = vec!["五五六", "五六"];
    let out = la.align(lines.clone());
    let width = out[0].chars().count();
    assert_eq!(out[1].chars().count(), width);
    for (orig, padded) in lines.iter().zip(out.iter()) {
        assert_eq!(without_marker(padded, la.gap_char), *orig);
    }
}

#[test]
fn align_marker_choice_changes_only_gap_columns() {
    let first = engine(-2, -1);
    let second = LineAlign {
        gap_char: '#',
        gap: first.gap,
        skew: first.skew,
        substitutions: first.substitutions.clone(),
    };
    let lines = vec!["abcde", "abc", "cde"];
    let out1 = first.align(lines.clone());
    let out2 = second.align(lines);
    assert_eq!(out1.len(), out2.len());
    for (s1, s2) in out1.iter().zip(out2.iter()) {
        let c1: Vec<char> = s1.chars().collect();
        let c2: Vec<char> = s2.chars().collect();
        assert_eq!(c1.len(), c2.len());
        for (a, b) in c1.iter().zip(c2.iter()) {
            if *a == first.gap_char {
                assert_eq!(*b, second.gap_char);
            } else {
                assert_eq!(*a, *b);
            }
        }
    }
}

#[test]
fn align_substitution_table_used() {
    // With a cheap substitution between '.' and '_', the two lines align
    // column for column without gaps.
    let la = LineAlign::new(vec![(('.', '_'), 0)], -5, -2).unwrap();
    let lines = vec!["a.b.c", "a_b_c"];
    let out = la.align(lines.clone());
    let width = out[0].chars().count();
    for (orig, padded) in lines.iter().zip(out.iter()) {
        assert_eq!(padded.chars().count(), width);
        assert_eq!(without_marker(padded, la.gap_char), *orig);
    }
}

#[test]
fn new_accepts_both_orders_with_same_cost() {
    let la = LineAlign::new(vec![(('a', 'b'), -1), (('b', 'a'), -1)], -2, -1);
    assert!(la.is_ok());
    let la = la.unwrap();
    assert_eq!(la.substitutions.len(), 1);
    assert_eq!(la.gap, -2);
    assert_eq!(la.skew, -1);
}

#[test]
fn new_rejects_conflicting_orders() {
    let la = LineAlign::new(vec![(('a', 'b'), -1), (('b', 'a'), -3)], -2, -1);
    assert!(matches!(la, Err(ConfigError::ConflictingSubstitution)));
}

#[test]
fn new_rejects_conflicting_duplicate() {
    let la = LineAlign::new(vec![(('x', 'y'), 1), (('x', 'y'), 2)], 0, 0);
    assert!(matches!(la, Err(ConfigError::ConflictingSubstitution)));
}

#[test]
fn align_ragged_prefix_lines() {
    let la = engine(-2, -1);
    let lines = vec!["..abc", "abc", "_abc"];
    let out = la.align(lines.clone());
    let width = out[0].chars().count();
    assert!(width >= 5);
    for (orig, padded) in lines.iter().zip(out.iter()) {
        assert_eq!(padded.chars().count(), width);
        assert_eq!(without_marker(padded, la.gap_char), *orig);
    }
}

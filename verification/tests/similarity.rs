//! Dimension strings and the overlap counts of two sessions.

use semantx_trace::similarity::{dimension_strings, overlap_counts};

fn strings(v: &[&str]) -> Vec<String> {
    v.iter().map(|s| s.to_string()).collect()
}

#[test]
fn dimensions_are_prefixed_by_kind() {
    let d = dimension_strings(&strings(&["Save"]), &strings(&["Editor", "List"]), &strings(&["Success"]));
    assert_eq!(d, strings(&["cmd:Save", "scr:Editor", "scr:List", "out:Success"]));
}

#[test]
fn overlap_counts_distinct_dimensions() {
    let a = strings(&["cmd:A", "scr:X", "cmd:A"]);
    let b = strings(&["cmd:A", "out:Success"]);
    assert_eq!(overlap_counts(&a, &b), (1, 3));
    assert_eq!(overlap_counts(&b, &a), (1, 3));
    assert_eq!(overlap_counts(&[], &[]), (0, 0));
    assert_eq!(overlap_counts(&a, &a), (2, 2));
}

//! Exact expected values for the sample-text fixture generator.

use netsim::sample_text;

#[test]
fn sample_text_exact_values() {
    assert_eq!(sample_text(3, 2), "aa\nbb\ncc");
    assert_eq!(sample_text(1, 4), "aaaa");
    assert_eq!(sample_text(4, 1), "a\nb\nc\nd");
}

#[test]
fn sample_text_edge_sizes() {
    assert_eq!(sample_text(0, 5), "");
    assert_eq!(sample_text(0, 0), "");
    assert_eq!(sample_text(1, 0), "");
    assert_eq!(sample_text(2, 0), "\n");
}

#[test]
fn sample_text_wraps_past_z() {
    let text = sample_text(26, 1);
    let lines: Vec<&str> = text.split('\n').collect();
    assert_eq!(lines.len(), 26);
    assert_eq!(lines[0], "a");
    assert_eq!(lines[25], "z");
    let wrapped = sample_text(27, 1);
    assert!(wrapped.ends_with('{'));
}

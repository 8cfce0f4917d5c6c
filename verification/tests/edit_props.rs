use derivefmt::{apply_edits, merge_edits, Edit};

fn edit(start: usize, end: usize, insert: &str) -> Edit {
    Edit { start, end, insert: insert.as_bytes().to_vec() }
}

#[test]
fn apply_replaces_one_range() {
    let src = b"hello world".to_vec();
    let edits = vec![edit(0, 5, "goodbye")];
    let out = apply_edits(&src, &edits).expect("in bounds");
    assert_eq!(out, b"goodbye world".to_vec());
}

#[test]
fn apply_handles_several_disjoint_ranges() {
    let src = b"aa bb cc".to_vec();
    let edits = vec![edit(0, 2, "XX"), edit(3, 5, "Y"), edit(6, 8, "")];
    let out = apply_edits(&src, &edits).expect("in bounds");
    assert_eq!(out, b"XX Y ".to_vec());
}

#[test]
fn apply_refuses_out_of_bounds() {
    let src = b"abc".to_vec();
    let edits = vec![edit(1, 9, "x")];
    assert_eq!(apply_edits(&src, &edits), None);
}

#[test]
fn apply_refuses_overlap() {
    let src = b"abcdef".to_vec();
    let edits = vec![edit(0, 3, "x"), edit(2, 4, "y")];
    assert_eq!(apply_edits(&src, &edits), None);
}

#[test]
fn apply_refuses_inverted_range() {
    let src = b"abcdef".to_vec();
    let edits = vec![edit(3, 1, "x")];
    assert_eq!(apply_edits(&src, &edits), None);
}

#[test]
fn apply_with_no_edits_copies_the_source() {
    let src = b"abc".to_vec();
    let edits: Vec<Edit> = Vec::new();
    assert_eq!(apply_edits(&src, &edits), Some(b"abc".to_vec()));
}

#[test]
fn merge_sorts_scripts_by_range() {
    let scripts = vec![vec![edit(6, 8, "b")], vec![edit(0, 2, "a")]];
    let merged = merge_edits(scripts).expect("disjoint");
    assert_eq!(merged, vec![edit(0, 2, "a"), edit(6, 8, "b")]);
}

#[test]
fn merge_refuses_overlapping_scripts() {
    let scripts = vec![vec![edit(0, 4, "a")], vec![edit(2, 6, "b")]];
    assert_eq!(merge_edits(scripts), None);
}

#[test]
fn merge_allows_touching_ranges() {
    let scripts = vec![vec![edit(2, 4, "b")], vec![edit(0, 2, "a")]];
    let merged = merge_edits(scripts).expect("touching is not overlap");
    assert_eq!(merged, vec![edit(0, 2, "a"), edit(2, 4, "b")]);
}

#[test]
fn merge_then_apply_rewrites_both_spans() {
    let src = b"one two three".to_vec();
    let scripts = vec![vec![edit(8, 13, "3")], vec![edit(0, 3, "1")]];
    let merged = merge_edits(scripts).expect("disjoint");
    let out = apply_edits(&src, &merged).expect("in bounds");
    assert_eq!(out, b"1 two 3".to_vec());
}

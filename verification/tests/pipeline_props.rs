use derivefmt::{reorder_derive_tokens, sorted_groups, ParsedDerive, Tok, TokKind};

fn ident(text: &str) -> Tok {
    Tok { kind: TokKind::Other, text: text.to_string() }
}

fn ws(text: &str) -> Tok {
    Tok { kind: TokKind::Whitespace, text: text.to_string() }
}

fn comment(text: &str) -> Tok {
    Tok { kind: TokKind::Comment, text: text.to_string() }
}

fn comma() -> Tok {
    Tok { kind: TokKind::Comma, text: ",".to_string() }
}

fn texts(toks: &[Tok]) -> Vec<String> {
    toks.iter().map(|t| t.text.clone()).collect()
}

fn joined(toks: &[Tok]) -> String {
    toks.iter().map(|t| t.text.as_str()).collect()
}

#[test]
fn pipeline_sorts_two_entries() {
    let toks = vec![ident("B"), comma(), ws(" "), ident("A")];
    let out = reorder_derive_tokens(toks);
    assert_eq!(texts(&out), vec!["A", ",", " ", "B"]);
}

#[test]
fn pipeline_keeps_token_count() {
    let toks = vec![
        ws(" "),
        ident("Zeta"),
        comma(),
        ws(" "),
        comment("/*x*/"),
        ws(" "),
        ident("Alpha"),
        comma(),
        ws(" "),
    ];
    let n = toks.len();
    let mut before = texts(&toks);
    let out = reorder_derive_tokens(toks);
    assert_eq!(out.len(), n);
    let mut after = texts(&out);
    before.sort();
    after.sort();
    assert_eq!(before, after);
}

#[test]
fn pipeline_key_order_is_nondecreasing() {
    let toks = vec![
        ident("Gamma"),
        comma(),
        ident("Beta"),
        comma(),
        ident("Alpha"),
    ];
    let out = reorder_derive_tokens(toks);
    assert_eq!(joined(&out), "Alpha,Beta,Gamma");
}

#[test]
fn pipeline_on_sorted_input_is_identity() {
    let toks = vec![ident("A"), comma(), ws(" "), ident("B")];
    let out = reorder_derive_tokens(toks);
    assert_eq!(texts(&out), vec!["A", ",", " ", "B"]);
}

#[test]
fn pipeline_twice_equals_once() {
    let toks = vec![
        ws("\n"),
        comment("/*lead*/"),
        ident("B"),
        comma(),
        ws(" "),
        ident("A"),
        comma(),
        ws("\n"),
    ];
    let once = reorder_derive_tokens(toks);
    let again: Vec<Tok> = once
        .iter()
        .map(|t| Tok { kind: t.kind, text: t.text.clone() })
        .collect();
    let twice = reorder_derive_tokens(again);
    assert_eq!(texts(&once), texts(&twice));
}

#[test]
fn fixed_point_stays_at_its_index() {
    // slot 1 holds a pure-whitespace entry between two commas
    let groups = vec![
        vec![ident("B")],
        vec![ws(" ")],
        vec![ident("A")],
    ];
    let out = sorted_groups(groups);
    assert_eq!(out.len(), 3);
    assert_eq!(texts(&out[0]), vec!["A"]);
    assert_eq!(texts(&out[1]), vec![" "]);
    assert_eq!(texts(&out[2]), vec!["B"]);
}

#[test]
fn sorted_groups_is_stable_for_equal_keys() {
    let groups = vec![
        vec![ident("x"), ident("A")],
        vec![ident("y"), ident("A")],
        vec![ident("B")],
    ];
    let out = sorted_groups(groups);
    assert_eq!(texts(&out[0]), vec!["x", "A"]);
    assert_eq!(texts(&out[1]), vec!["y", "A"]);
    assert_eq!(texts(&out[2]), vec!["B"]);
}

#[test]
fn sorted_groups_uses_last_content_token_as_key() {
    let groups = vec![
        vec![ident("std"), ident("::"), ident("fmt"), ident("::"), ident("Debug")],
        vec![ident("Copy")],
    ];
    let out = sorted_groups(groups);
    // "Debug" sorts under D, before "Copy"? no: Copy < Debug
    assert_eq!(texts(&out[0]), vec!["Copy"]);
    assert_eq!(texts(&out[1]), vec!["std", "::", "fmt", "::", "Debug"]);
}

#[test]
fn parse_trims_filler_into_separators() {
    let toks = vec![
        ws(" "),
        ident("A"),
        ws(" "),
        comma(),
        ws(" "),
        ident("B"),
        ws(" "),
    ];
    let parsed = ParsedDerive::parse(toks);
    let leading = parsed.leading_separator.expect("leading separator");
    assert_eq!(texts(&leading), vec![" "]);
    assert_eq!(parsed.groups.len(), 2);
    assert_eq!(texts(&parsed.groups[0]), vec!["A"]);
    assert_eq!(texts(&parsed.groups[1]), vec!["B"]);
    assert_eq!(parsed.separators.len(), 2);
    // the separator keeps its source order: filler, comma, filler
    assert_eq!(texts(&parsed.separators[0]), vec![" ", ",", " "]);
    assert_eq!(texts(&parsed.separators[1]), vec![" "]);
}

#[test]
fn parse_makes_zero_length_group_for_double_comma() {
    let toks = vec![ident("A"), comma(), comma(), ident("B")];
    let parsed = ParsedDerive::parse(toks);
    assert_eq!(parsed.groups.len(), 3);
    assert_eq!(texts(&parsed.groups[0]), vec!["A"]);
    assert!(parsed.groups[1].is_empty());
    assert_eq!(texts(&parsed.groups[2]), vec!["B"]);
}

#[test]
fn pipeline_on_empty_input_is_empty() {
    let toks: Vec<Tok> = Vec::new();
    let out = reorder_derive_tokens(toks);
    assert!(out.is_empty());
}

#[test]
fn pipeline_all_fixed_points_unchanged() {
    let toks = vec![ws(" "), comma(), ws(" ")];
    let out = reorder_derive_tokens(toks);
    assert_eq!(texts(&out), vec![" ", ",", " "]);
}

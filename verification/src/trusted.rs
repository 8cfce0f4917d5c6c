use vstd::prelude::*;

use crate::token::TokKind;
use ra_ap_syntax::ast::Attr;
use ra_ap_syntax::{AstNode, Edition, SourceFile, SyntaxKind};

verus! {

/// One token as the lexer hands it out: its kind code and its exact
/// source text. The library classifies the code itself.
pub struct RawTok {
    pub code: u16,
    pub text: String,
}

/// The byte range strictly inside the parentheses of each rewritable
/// derive list of a text: each outer attribute named `derive` whose
/// argument list holds tokens only, in document order. The parse is a
/// function of the text alone, so its answer carries a name.
pub uninterp spec fn derive_ranges_of(text: Seq<char>) -> Seq<(usize, usize)>;

/// The tokens strictly inside the parentheses of each of those same
/// derive lists, list by list, in the same order.
pub uninterp spec fn derive_toks_of(text: Seq<char>) -> Seq<Seq<RawTok>>;

/// The lexer's kind code for each of the categories the pipeline tells
/// apart; a fixed table of the outside crate, so its entries carry a
/// name.
pub uninterp spec fn kind_code(kind: TokKind) -> u16;

/// Relies on ra_ap_parser's SyntaxKind table: the code of a comma.
#[verifier::external_body]
pub(crate) fn comma_code() -> (r: u16)
    ensures
        r == kind_code(TokKind::Comma),
{
    SyntaxKind::COMMA.into()
}

/// Relies on ra_ap_parser's SyntaxKind table: the code of whitespace.
#[verifier::external_body]
pub(crate) fn whitespace_code() -> (r: u16)
    ensures
        r == kind_code(TokKind::Whitespace),
{
    SyntaxKind::WHITESPACE.into()
}

/// Relies on ra_ap_parser's SyntaxKind table: the code of a comment.
#[verifier::external_body]
pub(crate) fn comment_code() -> (r: u16)
    ensures
        r == kind_code(TokKind::Comment),
{
    SyntaxKind::COMMENT.into()
}

/// Relies on ra_ap_syntax::SourceFile::parse, SyntaxNode::descendants,
/// Attr::cast / excl_token / simple_name / token_tree,
/// TokenTree::token_trees_and_tokens and SyntaxToken::text_range: the
/// locate capability, first half. For every outer attribute named
/// `derive` whose argument list holds tokens only, it hands back the
/// byte range between the list's delimiters. Token offsets are byte
/// offsets into the parsed text, nodes come out in document order, and
/// distinct attributes occupy disjoint source spans, which gives the two
/// range clauses.
#[verifier::external_body]
pub(crate) fn find_derive_ranges(text: &str) -> (r: Vec<(usize, usize)>)
    ensures
        r@ == derive_ranges_of(text@),
        forall|i: int|
            0 <= i < r@.len() ==> (#[trigger] r@[i]).0 <= r@[i].1 && r@[i].1
                <= vstd::utf8::encode_utf8(text@).len(),
        forall|i: int| 0 <= i && i + 1 < r@.len() ==> (#[trigger] r@[i]).1 <= r@[i + 1].0,
{
    SourceFile::parse(text, Edition::CURRENT).syntax_node().descendants().filter_map(Attr::cast)
        .filter(|a| a.excl_token().is_none() && a.simple_name().as_deref() == Some("derive"))
        .filter_map(|a| a.token_tree())
        .filter_map(|tree| {
            let mut ts = Vec::new();
            for e in tree.token_trees_and_tokens() { ts.push(e.into_token()?); }
            let (f, rest) = ts.split_first()?;
            let (l, _) = rest.split_last()?;
            Some((f.text_range().end().into(), l.text_range().start().into()))
        }).collect()
}

/// Relies on the same functions as `find_derive_ranges`, plus
/// SyntaxToken::kind and text: the locate capability, second half. It
/// walks the same attributes the same way — so it finds exactly as many
/// lists — and hands back each list's tokens between the delimiters.
#[verifier::external_body]
pub(crate) fn find_derive_tokens(text: &str) -> (r: Vec<Vec<RawTok>>)
    ensures
        r@.map_values(|v: Vec<RawTok>| v@) == derive_toks_of(text@),
        r@.len() == derive_ranges_of(text@).len(),
{
    SourceFile::parse(text, Edition::CURRENT).syntax_node().descendants().filter_map(Attr::cast)
        .filter(|a| a.excl_token().is_none() && a.simple_name().as_deref() == Some("derive"))
        .filter_map(|a| a.token_tree())
        .filter_map(|tree| {
            let mut ts = Vec::new();
            for e in tree.token_trees_and_tokens() { ts.push(e.into_token()?); }
            let (_, rest) = ts.split_first()?;
            let (_, mid) = rest.split_last()?;
            Some(mid.iter().map(|t| RawTok { code: t.kind().into(), text: t.text().to_owned() }).collect())
        }).collect()
}

/// Relies on String::from_utf8: succeeds exactly on valid UTF-8, and the
/// string it returns holds exactly the bytes that went in.
#[verifier::external_body]
pub(crate) fn bytes_to_string(bytes: Vec<u8>) -> (r: Option<String>)
    ensures
        r matches Some(s) ==> vstd::utf8::encode_utf8(s@) == bytes@,
        vstd::utf8::valid_utf8(bytes@) ==> r is Some,
{
    String::from_utf8(bytes).ok()
}

} // verus!

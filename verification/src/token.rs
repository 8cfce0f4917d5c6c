use vstd::prelude::*;

verus! {

/// The lexical category a token falls into, as far as the derive-list
/// pipeline cares: commas split entries, whitespace and comments are
/// separator filler, everything else is entry content.
#[derive(Clone, Copy, PartialEq, Eq, Structural, Debug)]
pub enum TokKind {
    Whitespace,
    Comment,
    Comma,
    Other,
}

/// One token of a derive list: its category and its exact source text.
#[derive(Debug)]
pub struct Tok {
    pub kind: TokKind,
    pub text: String,
}

impl Tok {
    /// A token that can carry a sort key: neither whitespace, nor a
    /// comment, nor a comma.
    pub open spec fn is_content(self) -> bool {
        self.kind == TokKind::Other
    }

    /// A token that belongs to separator filler around entry content.
    pub open spec fn is_filler(self) -> bool {
        self.kind == TokKind::Whitespace || self.kind == TokKind::Comment
    }

    pub open spec fn is_comma(self) -> bool {
        self.kind == TokKind::Comma
    }

    pub fn content(&self) -> (r: bool)
        ensures
            r == self.is_content(),
    {
        matches!(self.kind, TokKind::Other)
    }

    pub fn comma(&self) -> (r: bool)
        ensures
            r == self.is_comma(),
    {
        matches!(self.kind, TokKind::Comma)
    }
}

/// Lexicographic order on character sequences, by code point; the empty
/// sequence comes first, and a proper prefix comes before its extensions.
pub open spec fn lex_leq(a: Seq<char>, b: Seq<char>) -> bool
    decreases a.len(),
{
    if a.len() == 0 {
        true
    } else if b.len() == 0 {
        false
    } else if a[0] == b[0] {
        lex_leq(a.drop_first(), b.drop_first())
    } else {
        (a[0] as u32) < (b[0] as u32)
    }
}

/// Any two character sequences are comparable.
pub proof fn lemma_lex_leq_total(a: Seq<char>, b: Seq<char>)
    ensures
        lex_leq(a, b) || lex_leq(b, a),
    decreases a.len(),
{
    if a.len() == 0 || b.len() == 0 {
    } else if a[0] == b[0] {
        lemma_lex_leq_total(a.drop_first(), b.drop_first());
    } else {
        assert((a[0] as u32) != (b[0] as u32)) by {
            vstd::utf8::char_u32_cast(a[0], a[0] as u32);
            vstd::utf8::char_u32_cast(b[0], b[0] as u32);
        }
    }
}

/// Lexicographic order is transitive.
pub proof fn lemma_lex_leq_trans(a: Seq<char>, b: Seq<char>, c: Seq<char>)
    requires
        lex_leq(a, b),
        lex_leq(b, c),
    ensures
        lex_leq(a, c),
    decreases a.len(),
{
    if a.len() == 0 || b.len() == 0 || c.len() == 0 {
    } else if a[0] == b[0] && b[0] == c[0] {
        lemma_lex_leq_trans(a.drop_first(), b.drop_first(), c.drop_first());
    } else {
        assert(a[0] == b[0] ==> (a[0] as u32) == (b[0] as u32));
        assert(b[0] == c[0] ==> (b[0] as u32) == (c[0] as u32));
    }
}

/// Compares two strings in the order `lex_leq` describes.
pub fn lex_leq_exec(a: &str, b: &str) -> (r: bool)
    ensures
        r == lex_leq(a@, b@),
{
    let a_len = a.unicode_len();
    let b_len = b.unicode_len();
    let mut i: usize = 0;
    proof {
        assert(a@.skip(0) =~= a@);
        assert(b@.skip(0) =~= b@);
    }
    loop
        invariant
            i <= a_len,
            i <= b_len,
            a_len == a@.len(),
            b_len == b@.len(),
            lex_leq(a@, b@) == lex_leq(a@.skip(i as int), b@.skip(i as int)),
        decreases a_len - i,
    {
        if i >= a_len {
            return true;
        }
        if i >= b_len {
            assert(a@.skip(i as int).len() > 0);
            return false;
        }
        let ca = a.get_char(i);
        let cb = b.get_char(i);
        proof {
            assert(a@.skip(i as int)[0] == a@[i as int]);
            assert(b@.skip(i as int)[0] == b@[i as int]);
            assert(a@.skip(i as int).drop_first() =~= a@.skip(i as int + 1));
            assert(b@.skip(i as int).drop_first() =~= b@.skip(i as int + 1));
        }
        if ca != cb {
            return (ca as u32) < (cb as u32);
        }
        i = i + 1;
    }
}

} // verus!

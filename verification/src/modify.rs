use vstd::prelude::*;

use crate::edits::{
    all_edits, apply_edits, edit_leq, edit_triple, edits_disjoint, edits_ok, edits_view,
    lemma_apply_is_splice, lemma_edits_chain, lemma_sorted_edits_identity, merge_edits,
    sort_edits_spec, splice_all, Edit,
};
use crate::rebuild::{pipeline_spec, reorder_derive_tokens};
use crate::token::{Tok, TokKind};
use crate::trusted::{
    bytes_to_string, comma_code, comment_code, derive_ranges_of, derive_toks_of,
    find_derive_ranges, find_derive_tokens, kind_code, whitespace_code, RawTok,
};
use vstd::utf8::{decode_utf8, encode_utf8, valid_utf8};

verus! {

/// The bytes of a token sequence, read back in order.
pub open spec fn render(toks: Seq<Tok>) -> Seq<u8>
    decreases toks.len(),
{
    if toks.len() == 0 {
        Seq::empty()
    } else {
        encode_utf8(toks[0].text@) + render(toks.drop_first())
    }
}

/// The category a lexer code falls into, read off the named code table.
pub open spec fn classify_spec(code: u16) -> TokKind {
    if code == kind_code(TokKind::Comma) {
        TokKind::Comma
    } else if code == kind_code(TokKind::Whitespace) {
        TokKind::Whitespace
    } else if code == kind_code(TokKind::Comment) {
        TokKind::Comment
    } else {
        TokKind::Other
    }
}

/// The pipeline's model of one raw token.
pub open spec fn tok_of_raw(rt: RawTok) -> Tok {
    Tok { kind: classify_spec(rt.code), text: rt.text }
}

/// The pipeline's tokens of one located list.
pub open spec fn span_toks(rts: Seq<RawTok>) -> Seq<Tok> {
    rts.map_values(|rt: RawTok| tok_of_raw(rt))
}

/// One replacement per derive list of a text: the byte range strictly
/// inside its parentheses, and the bytes of its reordered tokens.
pub open spec fn rewrite_plan(text: Seq<char>) -> Seq<(usize, usize, Seq<u8>)> {
    Seq::new(
        derive_ranges_of(text).len(),
        |i: int|
            (
                derive_ranges_of(text)[i].0,
                derive_ranges_of(text)[i].1,
                render(pipeline_spec(span_toks(derive_toks_of(text)[i]))),
            ),
    )
}

/// The rewritten byte stream of a source text: every derive list's inner
/// span replaced by the rendering of its reordered tokens, every byte
/// outside those spans kept exactly as it was.
pub open spec fn rewritten_bytes(text: Seq<char>) -> Seq<u8> {
    splice_all(encode_utf8(text), rewrite_plan(text), 0)
}

/// Classifies one lexer code against the named code table.
fn classify(code: u16) -> (k: TokKind)
    ensures
        k == classify_spec(code),
{
    if code == comma_code() {
        TokKind::Comma
    } else if code == whitespace_code() {
        TokKind::Whitespace
    } else if code == comment_code() {
        TokKind::Comment
    } else {
        TokKind::Other
    }
}

/// Turns the locator's raw tokens into the pipeline's.
fn raw_to_toks(raw: Vec<RawTok>) -> (r: Vec<Tok>)
    ensures
        r@ == span_toks(raw@),
{
    let ghost rv0 = raw@;
    let mut rest = raw;
    let mut out: Vec<Tok> = Vec::new();
    proof {
        assert(out@ =~= span_toks(rv0.take(0)));
        assert(rest@ =~= rv0.skip(0));
    }
    while rest.len() > 0
        invariant
            out@.len() <= rv0.len(),
            rest@ =~= rv0.skip(out@.len() as int),
            out@ == span_toks(rv0.take(out@.len() as int)),
        decreases rest@.len(),
    {
        let ghost i = out@.len() as int;
        let ghost rvv = rest@;
        let rt = rest.remove(0);
        proof {
            assert(rv0.skip(i)[0] == rv0[i]);
            assert(rt == rv0[i]);
            assert(rest@ =~= rv0.skip(i + 1)) by {
                assert(rvv.drop_first() =~= rv0.skip(i).drop_first());
                assert(rv0.skip(i).drop_first() =~= rv0.skip(i + 1));
            }
        }
        let kind = classify(rt.code);
        out.push(Tok { kind, text: rt.text });
        proof {
            assert(out@ =~= span_toks(rv0.take(i + 1))) by {
                assert(rv0.take(i + 1) =~= rv0.take(i).push(rv0[i]));
                assert(span_toks(rv0.take(i).push(rv0[i])) =~= span_toks(rv0.take(i)).push(
                    tok_of_raw(rv0[i]),
                ));
            }
        }
    }
    proof {
        assert(rv0.take(out@.len() as int) =~= rv0);
    }
    out
}

/// Renders a token sequence back to its bytes.
fn render_tokens(toks: &Vec<Tok>) -> (r: Vec<u8>)
    ensures
        r@ == render(toks@),
{
    let mut out: Vec<u8> = Vec::new();
    let mut i: usize = 0;
    proof {
        assert(toks@.skip(0) =~= toks@);
        assert(out@ + render(toks@) =~= render(toks@));
    }
    while i < toks.len()
        invariant
            i <= toks@.len(),
            render(toks@) == out@ + render(toks@.skip(i as int)),
        decreases toks@.len() - i,
    {
        proof {
            assert(toks@.skip(i as int)[0] == toks@[i as int]);
            assert(toks@.skip(i as int).drop_first() =~= toks@.skip(i as int + 1));
        }
        let mut piece = vstd::slice::slice_to_vec(toks[i].text.as_str().as_bytes());
        out.append(&mut piece);
        proof {
            assert(render(toks@) =~= out@ + render(toks@.skip(i as int + 1)));
        }
        i = i + 1;
    }
    proof {
        assert(render(toks@.skip(i as int)).len() == 0);
        assert(out@ =~= render(toks@));
    }
    out
}

/// Appending one single-edit script extends the collected edits by that
/// edit, keeping them aligned with the plan.
proof fn lemma_push_script(
    pre: Seq<Vec<Edit>>,
    post: Seq<Vec<Edit>>,
    sc: Vec<Edit>,
    edv: Edit,
    plan: Seq<(usize, usize, Seq<u8>)>,
    done: int,
)
    requires
        post == pre.push(sc),
        sc@ == seq![edv],
        edits_view(all_edits(pre)) == plan.take(done),
        all_edits(pre).len() == done,
        0 <= done < plan.len(),
        edit_triple(edv) == plan[done],
    ensures
        edits_view(all_edits(post)) == plan.take(done + 1),
        all_edits(post).len() == done + 1,
{
    let m_pre = pre.map_values(|v: Vec<Edit>| v@);
    assert(post.map_values(|v: Vec<Edit>| v@) =~= m_pre.push(seq![edv]));
    m_pre.lemma_flatten_push(seq![edv]);
    assert(all_edits(post) == all_edits(pre) + seq![edv]);
    assert(all_edits(post) =~= all_edits(pre).push(edv));
    assert(edits_view(all_edits(pre).push(edv)) =~= edits_view(all_edits(pre)).push(
        edit_triple(edv),
    ));
    assert(plan.take(done + 1) =~= plan.take(done).push(plan[done]));
}

/// A script built from the locator's ranges, in their order, is within
/// bounds, ascending and disjoint, and already where the merge's sort
/// puts it.
proof fn lemma_plan_script_ok(text: Seq<char>, es: Seq<Edit>)
    requires
        edits_view(es) == rewrite_plan(text),
        es.len() == derive_ranges_of(text).len(),
        forall|i: int|
            0 <= i < derive_ranges_of(text).len() ==> (#[trigger] derive_ranges_of(text)[i]).0
                <= derive_ranges_of(text)[i].1 && derive_ranges_of(text)[i].1 <= encode_utf8(
                text,
            ).len(),
        forall|i: int|
            0 <= i && i + 1 < derive_ranges_of(text).len() ==> (#[trigger] derive_ranges_of(
                text,
            )[i]).1 <= derive_ranges_of(text)[i + 1].0,
    ensures
        edits_ok(es, encode_utf8(text).len() as int),
        sort_edits_spec(es) == es,
        edits_disjoint(sort_edits_spec(es)),
{
    let rg = derive_ranges_of(text);
    let plan = rewrite_plan(text);
    assert forall|k: int|
        0 <= k < es.len() implies (#[trigger] es[k]).start <= es[k].end && es[k].end <= encode_utf8(
        text,
    ).len() by {
        assert(edits_view(es)[k] == edit_triple(es[k]));
        assert(plan[k].0 == rg[k].0 && plan[k].1 == rg[k].1);
        assert(rg[k].0 <= rg[k].1 && rg[k].1 <= encode_utf8(text).len());
    }
    assert forall|k: int|
        0 <= k && k + 1 < es.len() implies (#[trigger] es[k]).end <= es[k + 1].start by {
        assert(edits_view(es)[k] == edit_triple(es[k]));
        assert(edits_view(es)[k + 1] == edit_triple(es[k + 1]));
        assert(plan[k].1 == rg[k].1 && plan[k + 1].0 == rg[k + 1].0);
        assert(rg[k].1 <= rg[k + 1].0);
    }
    assert forall|i: int, j: int|
        0 <= i <= j < es.len() implies edit_leq(#[trigger] es[i], #[trigger] es[j]) by {
        if i < j {
            lemma_edits_chain(es, i, j);
        }
    }
    lemma_sorted_edits_identity(es);
}

/// A text in which the locator finds no derive list comes back byte for
/// byte unchanged: the plan is empty, so the splice is the identity, and
/// together with `modify_source`'s contract the source stays as it was.
pub proof fn lemma_no_derives_unchanged(text: Seq<char>)
    requires
        derive_ranges_of(text).len() == 0,
    ensures
        rewritten_bytes(text) == encode_utf8(text),
        valid_utf8(rewritten_bytes(text)),
        decode_utf8(rewritten_bytes(text)) == text,
{
    assert(rewrite_plan(text).len() == 0);
    assert(splice_all(encode_utf8(text), rewrite_plan(text), 0) =~= encode_utf8(text));
    vstd::utf8::encode_utf8_valid_utf8(text);
    vstd::utf8::encode_utf8_decode_utf8(text);
}

/// Rewrites every outer `derive` attribute of the source so that its
/// entries stand in key order, leaving every byte outside the rewritten
/// spans exactly as it was: the result is the source's bytes with each
/// derive list's inner span replaced by the rendering of its reordered
/// tokens. In the one case the replacement bytes do not decode — which
/// the rewrite of well-formed tokens never produces — the source is left
/// untouched rather than half-written.
pub fn modify_source(source: &mut String)
    ensures
        valid_utf8(rewritten_bytes(old(source)@)) ==> final(source)@ == decode_utf8(
            rewritten_bytes(old(source)@),
        ),
        !valid_utf8(rewritten_bytes(old(source)@)) ==> final(source)@ == old(source)@,
{
    let ghost text = source@;
    let ranges = find_derive_ranges(source.as_str());
    let tokss = find_derive_tokens(source.as_str());
    let ghost ranges0 = ranges@;
    let ghost toks0 = tokss@.map_values(|v: Vec<RawTok>| v@);
    let ghost plan = rewrite_plan(text);
    proof {
        assert(ranges0 == derive_ranges_of(text));
        assert(toks0 == derive_toks_of(text));
        assert(plan.len() == ranges0.len());
    }
    let n = ranges.len();
    let mut scripts: Vec<Vec<Edit>> = Vec::new();
    let mut rest_toks = tokss;
    let mut i: usize = 0;
    proof {
        assert(rest_toks@.map_values(|v: Vec<RawTok>| v@) =~= toks0.skip(0));
        assert(scripts@.map_values(|v: Vec<Edit>| v@) =~= Seq::<Seq<Edit>>::empty());
        assert(all_edits(scripts@).len() == 0);
        assert(edits_view(all_edits(scripts@)) =~= plan.take(0));
    }
    while i < n
        invariant
            i <= n,
            n == ranges0.len(),
            ranges@ == ranges0,
            ranges0 == derive_ranges_of(text),
            toks0 == derive_toks_of(text),
            toks0.len() == ranges0.len(),
            plan == rewrite_plan(text),
            plan.len() == ranges0.len(),
            rest_toks@.map_values(|v: Vec<RawTok>| v@) =~= toks0.skip(i as int),
            edits_view(all_edits(scripts@)) == plan.take(i as int),
            all_edits(scripts@).len() == i as int,
        decreases n - i,
    {
        let ghost rv = rest_toks@;
        proof {
            assert(rv.map_values(|v: Vec<RawTok>| v@).len() == toks0.len() - i);
        }
        let tv = rest_toks.remove(0);
        proof {
            assert(rv.map_values(|v: Vec<RawTok>| v@)[0] == rv[0]@);
            assert(toks0.skip(i as int)[0] == toks0[i as int]);
            assert(tv@ == toks0[i as int]);
            assert(rest_toks@.map_values(|v: Vec<RawTok>| v@) =~= toks0.skip(i as int + 1)) by {
                assert(rest_toks@ =~= rv.drop_first());
                assert(rest_toks@.map_values(|v: Vec<RawTok>| v@) =~= rv.map_values(
                    |v: Vec<RawTok>| v@,
                ).drop_first());
                assert(toks0.skip(i as int).drop_first() =~= toks0.skip(i as int + 1));
            }
        }
        let pr = ranges[i];
        let toks = raw_to_toks(tv);
        let rebuilt = reorder_derive_tokens(toks);
        let insert = render_tokens(&rebuilt);
        let ghost scripts_pre = scripts@;
        let ed = Edit { start: pr.0, end: pr.1, insert };
        let ghost edv = ed;
        let mut script: Vec<Edit> = Vec::new();
        script.push(ed);
        let ghost scv = script;
        scripts.push(script);
        proof {
            assert(plan[i as int] == (
                ranges0[i as int].0,
                ranges0[i as int].1,
                render(pipeline_spec(span_toks(toks0[i as int]))),
            ));
            assert(edit_triple(edv) == plan[i as int]);
            lemma_push_script(scripts_pre, scripts@, scv, edv, plan, i as int);
        }
        i = i + 1;
    }
    let ghost es = all_edits(scripts@);
    proof {
        assert(plan.take(n as int) =~= plan);
        assert(edits_view(es) == plan);
        assert(es.len() == plan.len());
        lemma_plan_script_ok(text, es);
    }
    let merged = match merge_edits(scripts) {
        Some(m) => m,
        None => {
            proof {
                assert(false);
            }
            Vec::new()
        },
    };
    let bytes = vstd::slice::slice_to_vec(source.as_str().as_bytes());
    proof {
        assert(bytes@ == encode_utf8(text));
        assert(merged@ == es);
        assert(edits_ok(merged@, bytes@.len() as int));
    }
    let applied = match apply_edits(&bytes, &merged) {
        Some(nb) => nb,
        None => {
            proof {
                assert(false);
            }
            Vec::new()
        },
    };
    let ghost apv = applied@;
    proof {
        lemma_apply_is_splice(bytes@, merged@, 0);
        assert(apv == splice_all(encode_utf8(text), edits_view(es), 0));
        assert(apv == rewritten_bytes(text));
    }
    match bytes_to_string(applied) {
        None => {
            // the replacement bytes do not decode; keep the source as it was
            proof {
                assert(!valid_utf8(rewritten_bytes(text)));
            }
        },
        Some(new_source) => {
            proof {
                vstd::utf8::encode_utf8_valid_utf8(new_source@);
                vstd::utf8::encode_utf8_decode_utf8(new_source@);
                assert(valid_utf8(rewritten_bytes(text)));
                assert(new_source@ == decode_utf8(rewritten_bytes(text)));
            }
            *source = new_source;
        },
    }
}

} // verus!

use vstd::prelude::*;

use crate::parse::{segment_spec, ParsedDerive, SegSt};
use crate::sort::{gviews, reorder_spec, sorted_groups};
use crate::token::Tok;

verus! {

/// The rebuilt inner span: each entry followed by the separator at the
/// same position, with whatever is left over of either appended at the
/// end, so no token is dropped.
pub open spec fn interleave(gs: Seq<Seq<Tok>>, ss: Seq<Seq<Tok>>) -> Seq<Tok>
    decreases gs.len() + ss.len(),
{
    if gs.len() == 0 {
        ss.flatten()
    } else if ss.len() == 0 {
        gs.flatten()
    } else {
        gs[0] + ss[0] + interleave(gs.drop_first(), ss.drop_first())
    }
}

/// The token sequence a segmenter state stands for, read back in order.
pub open spec fn seg_flat(st: SegSt) -> Seq<Tok> {
    st.leading + interleave(st.groups, st.seps) + st.acc
}

/// What the whole token pipeline produces for one inner span: segment,
/// reorder the entries, and lay them out again between the original
/// separators.
pub open spec fn pipeline_spec(toks: Seq<Tok>) -> Seq<Tok> {
    let st = segment_spec(toks);
    st.leading + interleave(reorder_spec(st.groups), st.seps)
}

/// Concatenates the leading separator, then the entries interleaved with
/// the separators, leftovers of either last.
pub fn rebuild_tokens(
    leading_separator: Option<Vec<Tok>>,
    groups: Vec<Vec<Tok>>,
    separators: Vec<Vec<Tok>>,
) -> (r: Vec<Tok>)
    ensures
        r@ == (match leading_separator {
            Some(l) => l@,
            None => Seq::<Tok>::empty(),
        }) + interleave(gviews(groups@), gviews(separators@)),
{
    let ghost lv = match &leading_separator {
        Some(l) => l@,
        None => Seq::<Tok>::empty(),
    };
    let ghost total = lv + interleave(gviews(groups@), gviews(separators@));
    let mut out: Vec<Tok> = match leading_separator {
        Some(l) => l,
        None => Vec::new(),
    };
    let mut gs = groups;
    let mut ss = separators;
    proof {
        assert(total == out@ + interleave(gviews(gs@), gviews(ss@)));
    }
    while gs.len() > 0 || ss.len() > 0
        invariant
            total == out@ + interleave(gviews(gs@), gviews(ss@)),
        decreases gs@.len() + ss@.len(),
    {
        let ghost gv = gviews(gs@);
        let ghost sv = gviews(ss@);
        if gs.len() > 0 {
            let ghost g0 = gs@[0]@;
            let mut g = gs.remove(0);
            proof {
                assert(gviews(gs@) =~= gv.drop_first());
                assert(gv[0] == g@);
            }
            out.append(&mut g);
        }
        if ss.len() > 0 {
            let ghost sv2 = gviews(ss@);
            let mut s = ss.remove(0);
            proof {
                assert(gviews(ss@) =~= sv2.drop_first());
                assert(sv2[0] == s@);
            }
            out.append(&mut s);
        }
        proof {
            if gv.len() > 0 && sv.len() > 0 {
                assert(interleave(gv, sv) == gv[0] + sv[0] + interleave(
                    gv.drop_first(),
                    sv.drop_first(),
                ));
                assert(total =~= out@ + interleave(gviews(gs@), gviews(ss@)));
            } else if gv.len() > 0 {
                assert(interleave(gv, sv) == gv.flatten());
                assert(gv.flatten() == gv[0] + gv.drop_first().flatten());
                assert(interleave(gviews(gs@), sv) == gviews(gs@).flatten());
                assert(total =~= out@ + interleave(gviews(gs@), gviews(ss@)));
            } else {
                assert(interleave(gv, sv) == sv.flatten());
                assert(sv.flatten() == sv[0] + sv.drop_first().flatten());
                assert(interleave(gv, gviews(ss@)) == gviews(ss@).flatten());
                assert(total =~= out@ + interleave(gviews(gs@), gviews(ss@)));
            }
        }
    }
    proof {
        assert(gviews(gs@).len() == 0);
        assert(gviews(ss@).len() == 0);
        assert(interleave(gviews(gs@), gviews(ss@)) == gviews(ss@).flatten());
        assert(total =~= out@);
    }
    out
}

/// Runs the whole pipeline on one inner token span: segments it, sorts
/// its entries, and rebuilds the span around the original separators.
pub fn reorder_derive_tokens(toks: Vec<Tok>) -> (r: Vec<Tok>)
    ensures
        r@ == pipeline_spec(toks@),
{
    let ghost tv = toks@;
    let parsed = ParsedDerive::parse(toks);
    let ghost st = segment_spec(tv);
    let sorted = sorted_groups(parsed.groups);
    proof {
        assert(gviews(sorted@) == reorder_spec(st.groups));
    }
    rebuild_tokens(parsed.leading_separator, sorted, parsed.separators)
}

} // verus!

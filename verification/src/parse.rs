use vstd::prelude::*;

use crate::token::Tok;

verus! {

/// The state the segmenter carries: separator filler seen before the
/// first entry, the entries produced so far, the separator after each of
/// them, and the buffer of tokens since the last comma.
pub ghost struct SegSt {
    pub leading: Seq<Tok>,
    pub groups: Seq<Seq<Tok>>,
    pub seps: Seq<Seq<Tok>>,
    pub acc: Seq<Tok>,
}

/// Index of the first content token of a buffer; the buffer's length
/// when it has none.
pub open spec fn first_content(acc: Seq<Tok>) -> int
    decreases acc.len(),
{
    if acc.len() == 0 {
        0
    } else if acc[0].is_content() {
        0
    } else {
        1 + first_content(acc.drop_first())
    }
}

/// Index of the last content token of a buffer; -1 when it has none.
pub open spec fn last_content(acc: Seq<Tok>) -> int
    decreases acc.len(),
{
    if acc.len() == 0 {
        -1
    } else if acc.last().is_content() {
        acc.len() - 1
    } else {
        last_content(acc.drop_last())
    }
}

pub proof fn lemma_first_content(acc: Seq<Tok>)
    ensures
        0 <= first_content(acc) <= acc.len(),
        first_content(acc) < acc.len() ==> acc[first_content(acc)].is_content(),
        forall|j: int| 0 <= j < first_content(acc) ==> !(#[trigger] acc[j]).is_content(),
    decreases acc.len(),
{
    if acc.len() > 0 && !acc[0].is_content() {
        lemma_first_content(acc.drop_first());
        assert forall|j: int| 0 <= j < first_content(acc) implies !(#[trigger] acc[j]).is_content()
            by {
            if j > 0 {
                assert(acc[j] == acc.drop_first()[j - 1]);
            }
        }
    }
}

pub proof fn lemma_last_content(acc: Seq<Tok>)
    ensures
        -1 <= last_content(acc) < acc.len(),
        last_content(acc) >= 0 ==> acc[last_content(acc)].is_content(),
        forall|j: int|
            last_content(acc) < j < acc.len() ==> !(#[trigger] acc[j]).is_content(),
    decreases acc.len(),
{
    if acc.len() > 0 && !acc.last().is_content() {
        lemma_last_content(acc.drop_last());
        assert forall|j: int| last_content(acc) < j < acc.len() implies !(
        #[trigger] acc[j]).is_content() by {
            if j < acc.len() - 1 {
                assert(acc[j] == acc.drop_last()[j]);
            }
        }
    }
}

/// When a buffer has content at all, its first content token comes no
/// later than its last.
pub proof fn lemma_content_bounds(acc: Seq<Tok>)
    requires
        last_content(acc) >= 0,
    ensures
        0 <= first_content(acc) <= last_content(acc) < acc.len(),
{
    lemma_first_content(acc);
    lemma_last_content(acc);
    if first_content(acc) > last_content(acc) {
        assert(!acc[last_content(acc)].is_content());
    }
}

/// Where a buffer's entry begins: at its first content token, or at the
/// buffer's start when it has no content at all.
pub open spec fn emit_start(acc: Seq<Tok>) -> int {
    if last_content(acc) >= 0 {
        first_content(acc)
    } else {
        0
    }
}

/// Where a buffer's entry ends (inclusive): at its last content token,
/// or at the buffer's end when it has no content at all.
pub open spec fn emit_end(acc: Seq<Tok>) -> int {
    if last_content(acc) >= 0 {
        last_content(acc)
    } else {
        acc.len() - 1
    }
}

/// What one buffer contributes when a comma arrives or the input ends:
/// nothing for an empty buffer at the end; a zero-length entry for an
/// empty buffer at a comma; otherwise the buffer is trimmed to its
/// content span, the part before it joins the previous separator (or the
/// leading separator, before the first entry), and the part after it,
/// followed by the comma when there is one, becomes the new separator.
pub open spec fn seg_emit(st: SegSt, comma: Option<Tok>) -> SegSt {
    if st.acc.len() == 0 {
        match comma {
            None => st,
            Some(c) => SegSt {
                leading: st.leading,
                groups: st.groups.push(Seq::empty()),
                seps: st.seps.push(seq![c]),
                acc: st.acc,
            },
        }
    } else {
        let start = emit_start(st.acc);
        let end = emit_end(st.acc);
        let prefix = st.acc.take(start);
        let grp = st.acc.subrange(start, end + 1);
        let suffix = st.acc.skip(end + 1);
        let sep = match comma {
            Some(c) => suffix.push(c),
            None => suffix,
        };
        let leading2 = if start > 0 && st.groups.len() == 0 {
            st.leading + prefix
        } else {
            st.leading
        };
        let seps2 = if start > 0 && st.groups.len() > 0 {
            st.seps.update(st.seps.len() - 1, st.seps.last() + prefix)
        } else {
            st.seps
        };
        SegSt {
            leading: leading2,
            groups: st.groups.push(grp),
            seps: seps2.push(sep),
            acc: Seq::empty(),
        }
    }
}

pub open spec fn seg_init() -> SegSt {
    SegSt {
        leading: Seq::empty(),
        groups: Seq::empty(),
        seps: Seq::empty(),
        acc: Seq::empty(),
    }
}

/// Walks the tokens, buffering until a comma, emitting at each comma and
/// once more at the end of the input.
pub open spec fn seg_loop(toks: Seq<Tok>, st: SegSt) -> SegSt
    decreases toks.len(),
{
    if toks.len() == 0 {
        seg_emit(st, None)
    } else if toks[0].is_comma() {
        seg_loop(toks.drop_first(), seg_emit(st, Some(toks[0])))
    } else {
        seg_loop(
            toks.drop_first(),
            SegSt {
                leading: st.leading,
                groups: st.groups,
                seps: st.seps,
                acc: st.acc.push(toks[0]),
            },
        )
    }
}

/// The segmentation of a derive list's inner token span.
pub open spec fn segment_spec(toks: Seq<Tok>) -> SegSt {
    seg_loop(toks, seg_init())
}

/// The segmenter's state after the tokens, before the final emit.
pub open spec fn seg_run(toks: Seq<Tok>, st: SegSt) -> SegSt
    decreases toks.len(),
{
    if toks.len() == 0 {
        st
    } else if toks[0].is_comma() {
        seg_run(toks.drop_first(), seg_emit(st, Some(toks[0])))
    } else {
        seg_run(
            toks.drop_first(),
            SegSt {
                leading: st.leading,
                groups: st.groups,
                seps: st.seps,
                acc: st.acc.push(toks[0]),
            },
        )
    }
}

/// The segmentation is the run followed by one final emit.
pub proof fn lemma_seg_loop_is_run(toks: Seq<Tok>, st: SegSt)
    ensures
        seg_loop(toks, st) == seg_emit(seg_run(toks, st), None),
    decreases toks.len(),
{
    if toks.len() == 0 {
    } else if toks[0].is_comma() {
        lemma_seg_loop_is_run(toks.drop_first(), seg_emit(st, Some(toks[0])));
    } else {
        lemma_seg_loop_is_run(
            toks.drop_first(),
            SegSt {
                leading: st.leading,
                groups: st.groups,
                seps: st.seps,
                acc: st.acc.push(toks[0]),
            },
        );
    }
}

/// Running two stretches of tokens one after the other runs their
/// concatenation.
pub proof fn lemma_seg_run_concat(a: Seq<Tok>, b: Seq<Tok>, st: SegSt)
    ensures
        seg_run(a + b, st) == seg_run(b, seg_run(a, st)),
    decreases a.len(),
{
    if a.len() == 0 {
        assert(a + b =~= b);
    } else {
        assert((a + b)[0] == a[0]);
        assert((a + b).drop_first() =~= a.drop_first() + b);
        if a[0].is_comma() {
            lemma_seg_run_concat(a.drop_first(), b, seg_emit(st, Some(a[0])));
        } else {
            lemma_seg_run_concat(
                a.drop_first(),
                b,
                SegSt {
                    leading: st.leading,
                    groups: st.groups,
                    seps: st.seps,
                    acc: st.acc.push(a[0]),
                },
            );
        }
    }
}

/// A stretch without commas only lengthens the buffer.
pub proof fn lemma_seg_run_no_comma(xs: Seq<Tok>, st: SegSt)
    requires
        forall|i: int| 0 <= i < xs.len() ==> !(#[trigger] xs[i]).is_comma(),
    ensures
        seg_run(xs, st) == (SegSt {
            leading: st.leading,
            groups: st.groups,
            seps: st.seps,
            acc: st.acc + xs,
        }),
    decreases xs.len(),
{
    if xs.len() == 0 {
        assert(st.acc + xs =~= st.acc);
        assert(seg_run(xs, st) == st);
        assert(SegSt { leading: st.leading, groups: st.groups, seps: st.seps, acc: st.acc + xs }
            == st);
    } else {
        let st1 = SegSt {
            leading: st.leading,
            groups: st.groups,
            seps: st.seps,
            acc: st.acc.push(xs[0]),
        };
        assert forall|i: int| 0 <= i < xs.drop_first().len() implies !(
        #[trigger] xs.drop_first()[i]).is_comma() by {
            assert(xs.drop_first()[i] == xs[i + 1]);
        }
        lemma_seg_run_no_comma(xs.drop_first(), st1);
        assert(st.acc.push(xs[0]) + xs.drop_first() =~= st.acc + xs);
    }
}

/// Structural facts every reachable segmenter state satisfies.
pub open spec fn seg_wf(st: SegSt) -> bool {
    st.groups.len() == st.seps.len()
}

pub proof fn lemma_seg_emit_wf(st: SegSt, comma: Option<Tok>)
    requires
        seg_wf(st),
    ensures
        seg_wf(seg_emit(st, comma)),
        seg_emit(st, comma).acc.len() == 0 || comma is None,
{
}

pub proof fn lemma_seg_loop_wf(toks: Seq<Tok>, st: SegSt)
    requires
        seg_wf(st),
    ensures
        seg_wf(seg_loop(toks, st)),
        seg_loop(toks, st).acc.len() == 0,
    decreases toks.len(),
{
    if toks.len() == 0 {
        lemma_seg_emit_wf(st, None);
        if st.acc.len() == 0 {
        }
    } else if toks[0].is_comma() {
        lemma_seg_emit_wf(st, Some(toks[0]));
        lemma_seg_loop_wf(toks.drop_first(), seg_emit(st, Some(toks[0])));
    } else {
        lemma_seg_loop_wf(
            toks.drop_first(),
            SegSt {
                leading: st.leading,
                groups: st.groups,
                seps: st.seps,
                acc: st.acc.push(toks[0]),
            },
        );
    }
}

/// The state the four working values stand for.
pub open spec fn st_of(
    leading: Option<Vec<Tok>>,
    groups: Seq<Vec<Tok>>,
    seps: Seq<Vec<Tok>>,
    acc: Seq<Tok>,
) -> SegSt {
    SegSt {
        leading: match leading {
            Some(l) => l@,
            None => Seq::empty(),
        },
        groups: crate::sort::gviews(groups),
        seps: crate::sort::gviews(seps),
        acc: acc,
    }
}

/// The working values' own invariant: entries and separators in
/// lockstep, and a leading separator only once the first entry exists,
/// and then never empty.
pub open spec fn pstate_wf(
    leading: Option<Vec<Tok>>,
    groups: Seq<Vec<Tok>>,
    seps: Seq<Vec<Tok>>,
) -> bool {
    &&& groups.len() == seps.len()
    &&& (leading is Some ==> groups.len() > 0)
    &&& (match leading {
        Some(l) => l@.len() > 0,
        None => true,
    })
}

/// Finds the content span of the buffer and moves every token of the
/// buffer to its place, as `seg_emit` describes.
fn emit_step(
    leading: &mut Option<Vec<Tok>>,
    groups: &mut Vec<Vec<Tok>>,
    seps: &mut Vec<Vec<Tok>>,
    acc: Vec<Tok>,
    comma: Option<Tok>,
)
    requires
        pstate_wf(*old(leading), old(groups)@, old(seps)@),
    ensures
        pstate_wf(*final(leading), final(groups)@, final(seps)@),
        st_of(*final(leading), final(groups)@, final(seps)@, Seq::empty()) == seg_emit(
            st_of(*old(leading), old(groups)@, old(seps)@, acc@),
            comma,
        ),
{
    let ghost st0 = st_of(*leading, groups@, seps@, acc@);
    let mut acc = acc;
    if acc.len() == 0 {
        proof {
            assert(st0.acc =~= Seq::<Tok>::empty());
        }
        match comma {
            None => {
                proof {
                    assert(st_of(*leading, groups@, seps@, Seq::empty()) == seg_emit(st0, comma));
                }
            },
            Some(c) => {
                groups.push(Vec::new());
                let mut s: Vec<Tok> = Vec::new();
                s.push(c);
                seps.push(s);
                proof {
                    assert(crate::sort::gviews(groups@) =~= st0.groups.push(Seq::empty()));
                    assert(crate::sort::gviews(seps@) =~= st0.seps.push(seq![c]));
                    assert(st_of(*leading, groups@, seps@, Seq::empty()) == seg_emit(st0, comma));
                }
            },
        }
        return ;
    }
    // locate the content span: first scan back for the last content token
    let mut endp: usize = acc.len();
    proof {
        assert(acc@.take(endp as int) =~= acc@);
    }
    loop
        invariant
            endp <= acc@.len(),
            last_content(acc@) == last_content(acc@.take(endp as int)),
        ensures
            endp <= acc@.len(),
            endp == 0 ==> last_content(acc@) == -1,
            endp > 0 ==> last_content(acc@) == endp - 1,
        decreases endp,
    {
        if endp == 0 {
            proof {
                assert(acc@.take(0) =~= Seq::<Tok>::empty());
            }
            break ;
        }
        proof {
            assert(acc@.take(endp as int).drop_last() =~= acc@.take(endp as int - 1));
            assert(acc@.take(endp as int).last() == acc@[endp as int - 1]);
        }
        if acc[endp - 1].content() {
            proof {
                assert(last_content(acc@.take(endp as int)) == endp - 1);
            }
            break ;
        }
        endp = endp - 1;
    }
    let ghost lc = last_content(acc@);
    // then, when the buffer has content, scan forward for the first
    let mut start: usize = 0;
    if endp > 0 {
        proof {
            assert(acc@.skip(0) =~= acc@);
        }
        loop
            invariant
                start <= acc@.len(),
                first_content(acc@) == start + first_content(acc@.skip(start as int)),
            ensures
                start as int == first_content(acc@),
                start <= acc@.len(),
            decreases acc@.len() - start,
        {
            if start == acc.len() {
                proof {
                    assert(acc@.skip(start as int).len() == 0);
                }
                break ;
            }
            proof {
                assert(acc@.skip(start as int)[0] == acc@[start as int]);
                assert(acc@.skip(start as int).drop_first() =~= acc@.skip(start as int + 1));
            }
            if acc[start].content() {
                break ;
            }
            start = start + 1;
        }
    }
    let ghost startg = if lc >= 0 { first_content(acc@) } else { 0int };
    let ghost endg = if lc >= 0 { lc } else { acc@.len() - 1 };
    let split_at = if endp > 0 {
        endp
    } else {
        acc.len()
    };
    proof {
        assert(startg == start as int);
        assert(endg + 1 == split_at as int);
        if lc >= 0 {
            lemma_content_bounds(acc@);
        }
    }
    let ghost av = acc@;
    let mut tail = acc.split_off(start);
    let mut suffix = tail.split_off(split_at - start);
    let grp = tail;
    let mut prefix = acc;
    proof {
        assert(prefix@ == av.take(startg));
        assert(grp@ =~= av.subrange(startg, endg + 1));
        assert(suffix@ =~= av.skip(endg + 1));
    }
    if prefix.len() > 0 {
        if seps.len() == 0 {
            proof {
                assert(st0.groups.len() == 0);
            }
            *leading = Some(prefix);
            proof {
                assert(st0.leading + prefix@ =~= prefix@);
            }
        } else {
            let mut ls = seps.pop().unwrap();
            ls.append(&mut prefix);
            seps.push(ls);
            proof {
                assert(crate::sort::gviews(seps@) =~= st0.seps.update(
                    st0.seps.len() - 1,
                    st0.seps.last() + av.take(startg),
                ));
            }
        }
    } else {
        proof {
            assert(st0.acc.take(startg) =~= Seq::<Tok>::empty());
            assert(st0.leading + st0.acc.take(startg) =~= st0.leading);
        }
    }
    groups.push(grp);
    let mut sep = suffix;
    match comma {
        Some(c) => {
            sep.push(c);
        },
        None => {},
    }
    seps.push(sep);
    proof {
        let st1 = seg_emit(st0, comma);
        assert(crate::sort::gviews(groups@) =~= st1.groups);
        assert(crate::sort::gviews(seps@) =~= st1.seps);
        assert(st_of(*leading, groups@, seps@, Seq::empty()) == st1);
    }
}

/// A derive list cut into its entries and the separators around them.
pub struct ParsedDerive {
    /// The separator after each entry.
    pub separators: Vec<Vec<Tok>>,
    /// Optional separator before the first entry.
    pub leading_separator: Option<Vec<Tok>>,
    /// An entry in the derive corresponding to a trait.
    pub groups: Vec<Vec<Tok>>,
}

impl ParsedDerive {
    /// The segmenter state this value stands for.
    pub open spec fn seg_view(self) -> SegSt {
        st_of(self.leading_separator, self.groups@, self.separators@, Seq::empty())
    }

    /// Cuts the token span strictly inside a derive attribute's
    /// parentheses into entries and separators, exactly as
    /// `segment_spec` describes.
    pub fn parse(tokens: Vec<Tok>) -> (r: ParsedDerive)
        ensures
            r.seg_view() == segment_spec(tokens@),
            pstate_wf(r.leading_separator, r.groups@, r.separators@),
    {
        let ghost tv = tokens@;
        let mut rest = tokens;
        let mut leading: Option<Vec<Tok>> = None;
        let mut groups: Vec<Vec<Tok>> = Vec::new();
        let mut seps: Vec<Vec<Tok>> = Vec::new();
        let mut acc: Vec<Tok> = Vec::new();
        proof {
            assert(st_of(leading, groups@, seps@, acc@) == seg_init()) by {
                assert(crate::sort::gviews(groups@) =~= Seq::<Seq<Tok>>::empty());
                assert(crate::sort::gviews(seps@) =~= Seq::<Seq<Tok>>::empty());
            }
        }
        while rest.len() > 0
            invariant
                seg_loop(tv, seg_init()) == seg_loop(rest@, st_of(leading, groups@, seps@, acc@)),
                pstate_wf(leading, groups@, seps@),
            decreases rest@.len(),
        {
            let ghost rv = rest@;
            let ghost st_pre = st_of(leading, groups@, seps@, acc@);
            let tok = rest.remove(0);
            proof {
                assert(rv[0] == tok);
                assert(rest@ =~= rv.drop_first());
            }
            if tok.comma() {
                let a = acc;
                acc = Vec::new();
                emit_step(&mut leading, &mut groups, &mut seps, a, Some(tok));
                proof {
                    assert(seg_loop(rv, st_pre) == seg_loop(rv.drop_first(), seg_emit(st_pre, Some(tok))));
                }
            } else {
                acc.push(tok);
                proof {
                    assert(st_of(leading, groups@, seps@, acc@) == SegSt {
                        leading: st_pre.leading,
                        groups: st_pre.groups,
                        seps: st_pre.seps,
                        acc: st_pre.acc.push(tok),
                    });
                }
            }
        }
        let ghost st_end = st_of(leading, groups@, seps@, acc@);
        proof {
            assert(seg_loop(rest@, st_end) == seg_emit(st_end, None));
        }
        let a = acc;
        emit_step(&mut leading, &mut groups, &mut seps, a, None);
        ParsedDerive { separators: seps, leading_separator: leading, groups }
    }
}

} // verus!

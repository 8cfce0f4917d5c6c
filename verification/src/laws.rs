use vstd::prelude::*;
use vstd::multiset::Multiset;
use vstd::seq_lib::lemma_multiset_commutative;

use crate::parse::{seg_emit, seg_init, seg_loop, seg_wf, segment_spec, SegSt};
use crate::rebuild::{interleave, pipeline_spec, seg_flat};
use crate::sort::{
    count_true, fixed_of, grp_leq, has_key, insort_pos, key_txt, keyed_of, lemma_count_true_le_len,
    lemma_keyed_of_push, mask_of, reorder_spec, sort_groups_spec, sort_push, weave,
};
use crate::token::{lemma_lex_leq_total, lemma_lex_leq_trans, Tok};

verus! {

/// Entries standing pairwise in key order.
pub open spec fn groups_sorted(s: Seq<Seq<Tok>>) -> bool {
    forall|i: int, j: int| 0 <= i <= j < s.len() ==> grp_leq(#[trigger] s[i], #[trigger] s[j])
}

/// Every entry has a key.
pub open spec fn all_keyed(s: Seq<Seq<Tok>>) -> bool {
    forall|i: int| 0 <= i < s.len() ==> has_key(#[trigger] s[i])
}

/// No entry has a key.
pub open spec fn none_keyed(s: Seq<Seq<Tok>>) -> bool {
    forall|i: int| 0 <= i < s.len() ==> !has_key(#[trigger] s[i])
}

/// Appending one entry and one separator extends the interleaving at the
/// end, as long as entries and separators were in lockstep.
proof fn lemma_interleave_push(gs: Seq<Seq<Tok>>, ss: Seq<Seq<Tok>>, g: Seq<Tok>, s: Seq<Tok>)
    requires
        gs.len() == ss.len(),
    ensures
        interleave(gs.push(g), ss.push(s)) == interleave(gs, ss) + g + s,
    decreases gs.len(),
{
    if gs.len() == 0 {
        assert(gs.push(g)[0] == g);
        assert(ss.push(s)[0] == s);
        assert(gs.push(g).drop_first() =~= Seq::<Seq<Tok>>::empty());
        assert(ss.push(s).drop_first() =~= Seq::<Seq<Tok>>::empty());
        assert(interleave(Seq::<Seq<Tok>>::empty(), Seq::<Seq<Tok>>::empty()) =~= Seq::<
            Tok,
        >::empty());
        assert(interleave(gs.push(g), ss.push(s)) =~= interleave(gs, ss) + g + s);
    } else {
        assert(gs.push(g)[0] == gs[0]);
        assert(ss.push(s)[0] == ss[0]);
        assert(gs.push(g).drop_first() =~= gs.drop_first().push(g));
        assert(ss.push(s).drop_first() =~= ss.drop_first().push(s));
        lemma_interleave_push(gs.drop_first(), ss.drop_first(), g, s);
        assert(interleave(gs.push(g), ss.push(s)) =~= interleave(gs, ss) + g + s);
    }
}

/// Extending the last separator extends the interleaving at the end.
proof fn lemma_interleave_extend_last(gs: Seq<Seq<Tok>>, ss: Seq<Seq<Tok>>, extra: Seq<Tok>)
    requires
        gs.len() == ss.len(),
        ss.len() > 0,
    ensures
        interleave(gs, ss.update(ss.len() - 1, ss.last() + extra)) == interleave(gs, ss) + extra,
    decreases gs.len(),
{
    let ss2 = ss.update(ss.len() - 1, ss.last() + extra);
    if gs.len() == 1 {
        assert(ss2[0] == ss[0] + extra);
        assert(gs.drop_first() =~= Seq::<Seq<Tok>>::empty());
        assert(ss2.drop_first() =~= Seq::<Seq<Tok>>::empty());
        assert(ss.drop_first() =~= Seq::<Seq<Tok>>::empty());
        assert(interleave(Seq::<Seq<Tok>>::empty(), Seq::<Seq<Tok>>::empty()) =~= Seq::<
            Tok,
        >::empty());
        assert(interleave(gs, ss2) =~= interleave(gs, ss) + extra);
    } else {
        assert(ss2[0] == ss[0]);
        assert(ss2.drop_first() =~= ss.drop_first().update(
            ss.drop_first().len() - 1,
            ss.drop_first().last() + extra,
        ));
        lemma_interleave_extend_last(gs.drop_first(), ss.drop_first(), extra);
        assert(interleave(gs, ss2) =~= interleave(gs, ss) + extra);
    }
}

/// One emit step adds exactly the buffer (and the comma, when one
/// arrived) to the tokens the state stands for.
#[verifier::rlimit(100)]
proof fn lemma_seg_emit_flat(st: SegSt, comma: Option<Tok>)
    requires
        seg_wf(st),
    ensures
        seg_flat(seg_emit(st, comma)) == seg_flat(st) + (match comma {
            Some(c) => seq![c],
            None => Seq::<Tok>::empty(),
        }),
{
    let st1 = seg_emit(st, comma);
    let cs = match comma {
        Some(c) => seq![c],
        None => Seq::<Tok>::empty(),
    };
    if st.acc.len() == 0 {
        match comma {
            None => {
                assert(seg_flat(st1) =~= seg_flat(st) + cs);
            },
            Some(c) => {
                lemma_interleave_push(st.groups, st.seps, Seq::empty(), seq![c]);
                assert(seg_flat(st1) =~= seg_flat(st) + cs);
            },
        }
    } else {
        let start = if crate::parse::last_content(st.acc) >= 0 {
            crate::parse::first_content(st.acc)
        } else {
            0
        };
        let end = if crate::parse::last_content(st.acc) >= 0 {
            crate::parse::last_content(st.acc)
        } else {
            st.acc.len() - 1
        };
        if crate::parse::last_content(st.acc) >= 0 {
            crate::parse::lemma_content_bounds(st.acc);
        }
        let prefix = st.acc.take(start);
        let grp = st.acc.subrange(start, end + 1);
        let suffix = st.acc.skip(end + 1);
        let sep = match comma {
            Some(c) => suffix.push(c),
            None => suffix,
        };
        let inter = interleave(st.groups, st.seps);
        assert(st.acc =~= prefix + grp + suffix);
        assert(sep =~= suffix + cs);
        assert(seg_flat(st) + cs =~= st.leading + inter + prefix + grp + (suffix + cs));
        if start > 0 && st.groups.len() == 0 {
            lemma_interleave_push(st.groups, st.seps, grp, sep);
            assert(st1.leading == st.leading + prefix);
            assert(interleave(st1.groups, st1.seps) == inter + grp + sep);
            assert(inter =~= Seq::<Tok>::empty());
            assert(seg_flat(st1) =~= st.leading + inter + prefix + grp + (suffix + cs));
        } else if start > 0 {
            lemma_interleave_extend_last(st.groups, st.seps, prefix);
            let seps2 = st.seps.update(st.seps.len() - 1, st.seps.last() + prefix);
            lemma_interleave_push(st.groups, seps2, grp, sep);
            assert(interleave(st1.groups, st1.seps) == (inter + prefix) + grp + sep);
            assert(seg_flat(st1) =~= st.leading + inter + prefix + grp + (suffix + cs));
        } else {
            assert(prefix =~= Seq::<Tok>::empty());
            lemma_interleave_push(st.groups, st.seps, grp, sep);
            assert(interleave(st1.groups, st1.seps) == inter + grp + sep);
            assert(seg_flat(st1) =~= st.leading + inter + prefix + grp + (suffix + cs));
        }
    }
}

/// Walking tokens through the segmenter appends exactly those tokens to
/// what the state stands for.
proof fn lemma_seg_loop_flat(toks: Seq<Tok>, st: SegSt)
    requires
        seg_wf(st),
    ensures
        seg_flat(seg_loop(toks, st)) == seg_flat(st) + toks,
    decreases toks.len(),
{
    if toks.len() == 0 {
        lemma_seg_emit_flat(st, None);
        assert(seg_flat(st) + toks =~= seg_flat(st));
    } else if toks[0].is_comma() {
        let st1 = seg_emit(st, Some(toks[0]));
        lemma_seg_emit_flat(st, Some(toks[0]));
        crate::parse::lemma_seg_emit_wf(st, Some(toks[0]));
        lemma_seg_loop_flat(toks.drop_first(), st1);
        assert(seg_flat(st) + seq![toks[0]] + toks.drop_first() =~= seg_flat(st) + toks);
    } else {
        let st1 = SegSt {
            leading: st.leading,
            groups: st.groups,
            seps: st.seps,
            acc: st.acc.push(toks[0]),
        };
        assert(seg_flat(st1) =~= seg_flat(st) + seq![toks[0]]);
        lemma_seg_loop_flat(toks.drop_first(), st1);
        assert(seg_flat(st) + seq![toks[0]] + toks.drop_first() =~= seg_flat(st) + toks);
    }
}

/// The segmentation is lossless: the leading separator, the entries and
/// the separators, read back in order, are exactly the tokens that came
/// in.
pub proof fn lemma_segment_lossless(toks: Seq<Tok>)
    ensures
        segment_spec(toks).leading + interleave(segment_spec(toks).groups, segment_spec(toks).seps)
            == toks,
{
    lemma_seg_loop_flat(toks, seg_init());
    crate::parse::lemma_seg_loop_wf(toks, seg_init());
    let st = segment_spec(toks);
    assert(seg_flat(seg_init()) =~= Seq::<Tok>::empty());
    assert(seg_flat(seg_init()) + toks =~= toks);
    assert(st.acc =~= Seq::<Tok>::empty());
    assert(seg_flat(st) =~= st.leading + interleave(st.groups, st.seps));
}

/// The mask, the keyed entries and the fixed points of a sequence of
/// entries fit together.
proof fn lemma_mask_counts(gs: Seq<Seq<Tok>>)
    ensures
        mask_of(gs).len() == gs.len(),
        count_true(mask_of(gs)) == keyed_of(gs).len(),
        keyed_of(gs).len() + fixed_of(gs).len() == gs.len(),
        all_keyed(keyed_of(gs)),
        none_keyed(fixed_of(gs)),
    decreases gs.len(),
{
    if gs.len() > 0 {
        lemma_mask_counts(gs.drop_first());
        assert(mask_of(gs).drop_first() =~= mask_of(gs.drop_first()));
        assert(mask_of(gs)[0] == has_key(gs[0]));
        if has_key(gs[0]) {
            let k = keyed_of(gs);
            assert(k == seq![gs[0]] + keyed_of(gs.drop_first()));
            assert forall|i: int| 0 <= i < k.len() implies has_key(#[trigger] k[i]) by {
                if i > 0 {
                    assert(k[i] == keyed_of(gs.drop_first())[i - 1]);
                }
            }
        } else {
            let f = fixed_of(gs);
            assert(f == seq![gs[0]] + fixed_of(gs.drop_first()));
            assert forall|i: int| 0 <= i < f.len() implies !has_key(#[trigger] f[i]) by {
                if i > 0 {
                    assert(f[i] == fixed_of(gs.drop_first())[i - 1]);
                }
            }
        }
    }
}

/// Everything before the insertion point compares less-or-equal, and the
/// entry at the insertion point, when there is one, compares strictly
/// after.
proof fn lemma_insort_prefix(s: Seq<Seq<Tok>>, x: Seq<Tok>)
    ensures
        0 <= insort_pos(s, x) <= s.len(),
        forall|k: int| 0 <= k < insort_pos(s, x) ==> grp_leq(#[trigger] s[k], x),
        insort_pos(s, x) < s.len() ==> !grp_leq(s[insort_pos(s, x)], x),
    decreases s.len(),
{
    if s.len() > 0 && grp_leq(s[0], x) {
        lemma_insort_prefix(s.drop_first(), x);
        assert forall|k: int| 0 <= k < insort_pos(s, x) implies grp_leq(#[trigger] s[k], x) by {
            if k > 0 {
                assert(s[k] == s.drop_first()[k - 1]);
            }
        }
        if insort_pos(s, x) < s.len() {
            assert(s[insort_pos(s, x)] == s.drop_first()[insort_pos(s.drop_first(), x)]);
        }
    }
}

/// When every entry compares less-or-equal, the insertion point is the
/// end.
proof fn lemma_insort_all_leq(s: Seq<Seq<Tok>>, x: Seq<Tok>)
    requires
        forall|k: int| 0 <= k < s.len() ==> grp_leq(#[trigger] s[k], x),
    ensures
        insort_pos(s, x) == s.len(),
    decreases s.len(),
{
    if s.len() > 0 {
        assert forall|k: int| 0 <= k < s.drop_first().len() implies grp_leq(
            #[trigger] s.drop_first()[k],
            x,
        ) by {
            assert(s.drop_first()[k] == s[k + 1]);
        }
        lemma_insort_all_leq(s.drop_first(), x);
    }
}

/// Inserting into a sorted run at the insertion point keeps it sorted.
proof fn lemma_insort_sorted(s: Seq<Seq<Tok>>, x: Seq<Tok>)
    requires
        groups_sorted(s),
    ensures
        groups_sorted(sort_push(s, x)),
{
    let pos = insort_pos(s, x);
    lemma_insort_prefix(s, x);
    let t = sort_push(s, x);
    s.insert_ensures(pos, x);
    assert forall|i: int, j: int| 0 <= i <= j < t.len() implies grp_leq(
        #[trigger] t[i],
        #[trigger] t[j],
    ) by {
        if pos < s.len() {
            lemma_lex_leq_total(key_txt(s[pos]), key_txt(x));
        }
        if i == j {
            lemma_lex_leq_total(key_txt(t[i]), key_txt(t[i]));
        } else if j < pos {
            assert(t[i] == s[i] && t[j] == s[j]);
        } else if i > pos {
            assert(t[i] == s[i - 1] && t[j] == s[j - 1]);
        } else if i == pos && j > pos {
            // t[i] is x; x goes before s[pos] and s is sorted
            assert(t[j] == s[j - 1]);
            assert(grp_leq(x, s[pos]));
            assert(grp_leq(s[pos], s[j - 1]));
            lemma_lex_leq_trans(key_txt(x), key_txt(s[pos]), key_txt(s[j - 1]));
        } else if i < pos && j == pos {
            assert(t[i] == s[i]);
            assert(grp_leq(s[i], x));
        } else {
            // i < pos < j: both from s
            assert(t[i] == s[i] && t[j] == s[j - 1]);
            assert(grp_leq(s[i], s[j - 1]));
        }
    }
}

/// A sequence of seqs, inserted into, keeps its members: the multiset
/// gains exactly the inserted entry.
proof fn lemma_insert_ms(s: Seq<Seq<Tok>>, i: int, x: Seq<Tok>)
    requires
        0 <= i <= s.len(),
    ensures
        s.insert(i, x).to_multiset() =~= s.to_multiset().insert(x),
{
    broadcast use vstd::seq_lib::group_to_multiset_ensures;
    broadcast use vstd::multiset::group_multiset_axioms;

    let a = s.subrange(0, i);
    let b = s.subrange(i, s.len() as int);
    assert(s.insert(i, x) == a.push(x) + b);
    lemma_multiset_commutative(a.push(x), b);
    lemma_multiset_commutative(a, b);
    assert(a + b =~= s);
    assert(a.push(x).to_multiset() =~= a.to_multiset().insert(x));
}

/// The same, at the level of the tokens the entries hold.
proof fn lemma_insert_flatten_ms(s: Seq<Seq<Tok>>, i: int, x: Seq<Tok>)
    requires
        0 <= i <= s.len(),
    ensures
        s.insert(i, x).flatten().to_multiset() =~= s.flatten().to_multiset().add(x.to_multiset()),
{
    broadcast use vstd::multiset::group_multiset_axioms;

    let a = s.subrange(0, i);
    let b = s.subrange(i, s.len() as int);
    assert(s.insert(i, x) == a.push(x) + b);
    vstd::seq_lib::lemma_flatten_concat(a.push(x), b);
    vstd::seq_lib::lemma_flatten_concat(a, b);
    assert(a + b =~= s);
    a.lemma_flatten_push(x);
    lemma_multiset_commutative(a.push(x).flatten(), b.flatten());
    lemma_multiset_commutative(a.flatten() + x, Seq::<Tok>::empty());
    lemma_multiset_commutative(a.flatten(), x);
    lemma_multiset_commutative(a.flatten(), b.flatten());
    assert(s.insert(i, x).flatten().to_multiset() =~= s.flatten().to_multiset().add(
        x.to_multiset(),
    ));
}

/// What the stable sort guarantees: same length, same entries (as a
/// multiset), same tokens, every entry still keyed, and the run sorted.
proof fn lemma_sort_props(s: Seq<Seq<Tok>>)
    requires
        all_keyed(s),
    ensures
        sort_groups_spec(s).len() == s.len(),
        sort_groups_spec(s).to_multiset() =~= s.to_multiset(),
        sort_groups_spec(s).flatten().to_multiset() =~= s.flatten().to_multiset(),
        all_keyed(sort_groups_spec(s)),
        groups_sorted(sort_groups_spec(s)),
    decreases s.len(),
{
    broadcast use vstd::seq_lib::group_to_multiset_ensures;
    broadcast use vstd::multiset::group_multiset_axioms;

    if s.len() == 0 {
        assert(sort_groups_spec(s).flatten() =~= Seq::<Tok>::empty());
        assert(s.flatten() =~= Seq::<Tok>::empty());
    } else {
        let d = s.drop_last();
        let x = s.last();
        assert(all_keyed(d)) by {
            assert forall|i: int| 0 <= i < d.len() implies has_key(#[trigger] d[i]) by {
                assert(d[i] == s[i]);
            }
        }
        lemma_sort_props(d);
        let q = sort_groups_spec(d);
        let pos = insort_pos(q, x);
        lemma_insort_prefix(q, x);
        lemma_insert_ms(q, pos, x);
        lemma_insert_flatten_ms(q, pos, x);
        lemma_insort_sorted(q, x);
        // multiset of entries
        assert(d.push(x) =~= s);
        assert(d.push(x).to_multiset() =~= d.to_multiset().insert(x));
        // multiset of tokens
        vstd::seq_lib::lemma_flatten_concat(d, seq![x]);
        assert(d + seq![x] =~= s);
        seq![x].lemma_flatten_one_element();
        lemma_multiset_commutative(d.flatten(), seq![x].flatten());
        // keyedness
        q.insert_ensures(pos, x);
        assert(all_keyed(sort_groups_spec(s))) by {
            assert forall|i: int| 0 <= i < sort_groups_spec(s).len() implies has_key(
                #[trigger] sort_groups_spec(s)[i],
            ) by {
                if i < pos {
                    assert(sort_groups_spec(s)[i] == q[i]);
                } else if i == pos {
                    assert(sort_groups_spec(s)[i] == x);
                } else {
                    assert(sort_groups_spec(s)[i] == q[i - 1]);
                }
            }
        }
    }
}

/// A sorted run of keyed entries is already where the sort puts it.
proof fn lemma_sorted_identity(s: Seq<Seq<Tok>>)
    requires
        groups_sorted(s),
    ensures
        sort_groups_spec(s) == s,
    decreases s.len(),
{
    if s.len() > 0 {
        let d = s.drop_last();
        let x = s.last();
        assert(groups_sorted(d)) by {
            assert forall|i: int, j: int| 0 <= i <= j < d.len() implies grp_leq(
                #[trigger] d[i],
                #[trigger] d[j],
            ) by {
                assert(d[i] == s[i] && d[j] == s[j]);
            }
        }
        lemma_sorted_identity(d);
        assert forall|k: int| 0 <= k < d.len() implies grp_leq(#[trigger] d[k], x) by {
            assert(d[k] == s[k]);
            assert(grp_leq(s[k], s[s.len() - 1]));
        }
        lemma_insort_all_leq(d, x);
        d.insert_ensures(d.len() as int, x);
        assert(sort_groups_spec(s) =~= s);
    }
}

/// The hypotheses under which the weave is meaningful: slots and entries
/// match up in number and in kind.
pub open spec fn weave_wf(m: Seq<bool>, ks: Seq<Seq<Tok>>, fs: Seq<Seq<Tok>>) -> bool {
    &&& count_true(m) == ks.len()
    &&& m.len() == ks.len() + fs.len()
    &&& all_keyed(ks)
    &&& none_keyed(fs)
}

/// The weave's sub-problem after its first slot is well formed too.
proof fn lemma_weave_step(m: Seq<bool>, ks: Seq<Seq<Tok>>, fs: Seq<Seq<Tok>>)
    requires
        weave_wf(m, ks, fs),
        m.len() > 0,
    ensures
        m[0] ==> ks.len() > 0 && weave_wf(m.drop_first(), ks.drop_first(), fs) && weave(m, ks, fs)
            == seq![ks[0]] + weave(m.drop_first(), ks.drop_first(), fs),
        !m[0] ==> fs.len() > 0 && weave_wf(m.drop_first(), ks, fs.drop_first()) && weave(m, ks, fs)
            == seq![fs[0]] + weave(m.drop_first(), ks, fs.drop_first()),
{
    lemma_count_true_le_len(m.drop_first());
    if m[0] {
        assert(all_keyed(ks.drop_first())) by {
            assert forall|i: int| 0 <= i < ks.drop_first().len() implies has_key(
                #[trigger] ks.drop_first()[i],
            ) by {
                assert(ks.drop_first()[i] == ks[i + 1]);
            }
        }
    } else {
        assert(none_keyed(fs.drop_first())) by {
            assert forall|i: int| 0 <= i < fs.drop_first().len() implies !has_key(
                #[trigger] fs.drop_first()[i],
            ) by {
                assert(fs.drop_first()[i] == fs[i + 1]);
            }
        }
    }
}

/// The weave fills every slot, each with an entry of the slot's kind.
proof fn lemma_weave_shape(m: Seq<bool>, ks: Seq<Seq<Tok>>, fs: Seq<Seq<Tok>>)
    requires
        weave_wf(m, ks, fs),
    ensures
        weave(m, ks, fs).len() == m.len(),
        forall|i: int|
            0 <= i < m.len() ==> has_key(#[trigger] weave(m, ks, fs)[i]) == m[i],
    decreases m.len(),
{
    if m.len() > 0 {
        lemma_weave_step(m, ks, fs);
        let w = weave(m, ks, fs);
        if m[0] {
            lemma_weave_shape(m.drop_first(), ks.drop_first(), fs);
            assert forall|i: int| 0 <= i < m.len() implies has_key(#[trigger] w[i]) == m[i] by {
                if i > 0 {
                    assert(w[i] == weave(m.drop_first(), ks.drop_first(), fs)[i - 1]);
                    assert(m[i] == m.drop_first()[i - 1]);
                }
            }
        } else {
            lemma_weave_shape(m.drop_first(), ks, fs.drop_first());
            assert forall|i: int| 0 <= i < m.len() implies has_key(#[trigger] w[i]) == m[i] by {
                if i > 0 {
                    assert(w[i] == weave(m.drop_first(), ks, fs.drop_first())[i - 1]);
                    assert(m[i] == m.drop_first()[i - 1]);
                }
            }
        }
    }
}

/// Reading the weave back by kind gives back the two runs it was made of.
proof fn lemma_weave_reads_back(m: Seq<bool>, ks: Seq<Seq<Tok>>, fs: Seq<Seq<Tok>>)
    requires
        weave_wf(m, ks, fs),
    ensures
        keyed_of(weave(m, ks, fs)) == ks,
        fixed_of(weave(m, ks, fs)) == fs,
        mask_of(weave(m, ks, fs)) =~= m,
    decreases m.len(),
{
    lemma_weave_shape(m, ks, fs);
    let w = weave(m, ks, fs);
    if m.len() == 0 {
        assert(keyed_of(w) =~= ks);
        assert(fixed_of(w) =~= fs);
    } else {
        lemma_weave_step(m, ks, fs);
        if m[0] {
            lemma_weave_reads_back(m.drop_first(), ks.drop_first(), fs);
            assert(w[0] == ks[0]);
            assert(w.drop_first() =~= weave(m.drop_first(), ks.drop_first(), fs));
            assert(keyed_of(w) == seq![ks[0]] + ks.drop_first());
            assert(seq![ks[0]] + ks.drop_first() =~= ks);
        } else {
            lemma_weave_reads_back(m.drop_first(), ks, fs.drop_first());
            assert(w[0] == fs[0]);
            assert(w.drop_first() =~= weave(m.drop_first(), ks, fs.drop_first()));
            assert(fixed_of(w) == seq![fs[0]] + fs.drop_first());
            assert(seq![fs[0]] + fs.drop_first() =~= fs);
        }
    }
}

/// The weave holds exactly the entries of its two runs.
proof fn lemma_weave_ms(m: Seq<bool>, ks: Seq<Seq<Tok>>, fs: Seq<Seq<Tok>>)
    requires
        weave_wf(m, ks, fs),
    ensures
        weave(m, ks, fs).to_multiset() =~= ks.to_multiset().add(fs.to_multiset()),
        weave(m, ks, fs).flatten().to_multiset() =~= ks.flatten().to_multiset().add(
            fs.flatten().to_multiset(),
        ),
    decreases m.len(),
{
    broadcast use vstd::seq_lib::group_to_multiset_ensures;
    broadcast use vstd::multiset::group_multiset_axioms;

    let w = weave(m, ks, fs);
    if m.len() == 0 {
        assert(w.flatten() =~= Seq::<Tok>::empty());
        assert(ks.flatten() =~= Seq::<Tok>::empty());
        assert(fs.flatten() =~= Seq::<Tok>::empty());
    } else {
        lemma_weave_step(m, ks, fs);
        if m[0] {
            let w2 = weave(m.drop_first(), ks.drop_first(), fs);
            lemma_weave_ms(m.drop_first(), ks.drop_first(), fs);
            lemma_multiset_commutative(seq![ks[0]], w2);
            assert(seq![ks[0]].to_multiset() =~= Multiset::<Seq<Tok>>::empty().insert(ks[0])) by {
                assert(seq![ks[0]] =~= Seq::<Seq<Tok>>::empty().push(ks[0]));
            }
            assert(seq![ks[0]] + ks.drop_first() =~= ks);
            lemma_multiset_commutative(seq![ks[0]], ks.drop_first());
            // token level
            assert(w[0] == ks[0]);
            assert(w.drop_first() =~= w2);
            assert(w.flatten() == w[0] + w.drop_first().flatten());
            assert(ks.flatten() == ks[0] + ks.drop_first().flatten());
            lemma_multiset_commutative(ks[0], w2.flatten());
            lemma_multiset_commutative(ks[0], ks.drop_first().flatten());
        } else {
            let w2 = weave(m.drop_first(), ks, fs.drop_first());
            lemma_weave_ms(m.drop_first(), ks, fs.drop_first());
            lemma_multiset_commutative(seq![fs[0]], w2);
            assert(seq![fs[0]].to_multiset() =~= Multiset::<Seq<Tok>>::empty().insert(fs[0])) by {
                assert(seq![fs[0]] =~= Seq::<Seq<Tok>>::empty().push(fs[0]));
            }
            assert(seq![fs[0]] + fs.drop_first() =~= fs);
            lemma_multiset_commutative(seq![fs[0]], fs.drop_first());
            assert(w[0] == fs[0]);
            assert(w.drop_first() =~= w2);
            assert(w.flatten() == w[0] + w.drop_first().flatten());
            assert(fs.flatten() == fs[0] + fs.drop_first().flatten());
            lemma_multiset_commutative(fs[0], w2.flatten());
            lemma_multiset_commutative(fs[0], fs.drop_first().flatten());
        }
    }
}

/// A keyless entry keeps its place: the weave puts the fixed points of a
/// sequence back at their own indices.
proof fn lemma_weave_fixed_idx(gs: Seq<Seq<Tok>>, ks: Seq<Seq<Tok>>)
    requires
        ks.len() == keyed_of(gs).len(),
        all_keyed(ks),
    ensures
        forall|i: int|
            0 <= i < gs.len() && !has_key(gs[i]) ==> weave(mask_of(gs), ks, fixed_of(gs))[i]
                == #[trigger] gs[i],
    decreases gs.len(),
{
    lemma_mask_counts(gs);
    if gs.len() > 0 {
        let m = mask_of(gs);
        let fs = fixed_of(gs);
        let w = weave(m, ks, fs);
        assert(m.drop_first() =~= mask_of(gs.drop_first()));
        assert(m[0] == has_key(gs[0]));
        if has_key(gs[0]) {
            assert(keyed_of(gs) == seq![gs[0]] + keyed_of(gs.drop_first()));
            assert(all_keyed(ks.drop_first())) by {
                assert forall|i: int| 0 <= i < ks.drop_first().len() implies has_key(
                    #[trigger] ks.drop_first()[i],
                ) by {
                    assert(ks.drop_first()[i] == ks[i + 1]);
                }
            }
            lemma_weave_fixed_idx(gs.drop_first(), ks.drop_first());
            lemma_mask_counts(gs.drop_first());
            assert(weave_wf(m.drop_first(), ks.drop_first(), fs)) by {
                assert(count_true(m) == 1 + count_true(m.drop_first()));
                assert(fixed_of(gs.drop_first()) == fs);
            }
            lemma_weave_shape(m.drop_first(), ks.drop_first(), fs);
            assert(w == seq![ks[0]] + weave(m.drop_first(), ks.drop_first(), fs));
            assert forall|i: int|
                0 <= i < gs.len() && !has_key(gs[i]) implies weave(mask_of(gs), ks, fixed_of(gs))[i]
                == #[trigger] gs[i] by {
                assert(i > 0);
                assert(w[i] == weave(m.drop_first(), ks.drop_first(), fs)[i - 1]);
                assert(fixed_of(gs.drop_first()) == fs);
                assert(gs[i] == gs.drop_first()[i - 1]);
            }
        } else {
            assert(fs == seq![gs[0]] + fixed_of(gs.drop_first()));
            assert(fs[0] == gs[0]);
            assert(keyed_of(gs) == keyed_of(gs.drop_first()));
            lemma_weave_fixed_idx(gs.drop_first(), ks);
            lemma_mask_counts(gs.drop_first());
            assert(weave_wf(m.drop_first(), ks, fs.drop_first())) by {
                assert(count_true(m) == count_true(m.drop_first()));
                assert(fs.drop_first() =~= fixed_of(gs.drop_first()));
            }
            lemma_weave_shape(m.drop_first(), ks, fs.drop_first());
            assert(w == seq![gs[0]] + weave(m.drop_first(), ks, fs.drop_first()));
            assert forall|i: int|
                0 <= i < gs.len() && !has_key(gs[i]) implies weave(mask_of(gs), ks, fixed_of(gs))[i]
                == #[trigger] gs[i] by {
                if i > 0 {
                    assert(w[i] == weave(m.drop_first(), ks, fs.drop_first())[i - 1]);
                    assert(fs.drop_first() =~= fixed_of(gs.drop_first()));
                    assert(gs[i] == gs.drop_first()[i - 1]);
                }
            }
        }
    }
}

/// Weaving a sequence's own keyed entries and fixed points back together
/// gives the sequence itself.
proof fn lemma_weave_partition(gs: Seq<Seq<Tok>>)
    ensures
        weave(mask_of(gs), keyed_of(gs), fixed_of(gs)) == gs,
    decreases gs.len(),
{
    lemma_mask_counts(gs);
    if gs.len() == 0 {
        assert(weave(mask_of(gs), keyed_of(gs), fixed_of(gs)) =~= gs);
    } else {
        let m = mask_of(gs);
        assert(m.drop_first() =~= mask_of(gs.drop_first()));
        assert(m[0] == has_key(gs[0]));
        lemma_weave_partition(gs.drop_first());
        if has_key(gs[0]) {
            assert(keyed_of(gs) == seq![gs[0]] + keyed_of(gs.drop_first()));
            assert(keyed_of(gs)[0] == gs[0]);
            assert(keyed_of(gs).drop_first() =~= keyed_of(gs.drop_first()));
            assert(fixed_of(gs) == fixed_of(gs.drop_first()));
            assert(seq![gs[0]] + gs.drop_first() =~= gs);
        } else {
            assert(fixed_of(gs) == seq![gs[0]] + fixed_of(gs.drop_first()));
            assert(fixed_of(gs)[0] == gs[0]);
            assert(fixed_of(gs).drop_first() =~= fixed_of(gs.drop_first()));
            assert(keyed_of(gs) == keyed_of(gs.drop_first()));
            assert(seq![gs[0]] + gs.drop_first() =~= gs);
        }
    }
}

/// Keyed entries come out of the weave in the order of the sorted run.
proof fn lemma_weave_sorted(m: Seq<bool>, ks: Seq<Seq<Tok>>, fs: Seq<Seq<Tok>>)
    requires
        weave_wf(m, ks, fs),
        groups_sorted(ks),
    ensures
        forall|j: int|
            0 <= j < m.len() && has_key(#[trigger] weave(m, ks, fs)[j]) ==> exists|k: int|
                0 <= k < ks.len() && weave(m, ks, fs)[j] == ks[k],
        forall|i: int, j: int|
            0 <= i <= j < m.len() && has_key(#[trigger] weave(m, ks, fs)[i]) && has_key(
                #[trigger] weave(m, ks, fs)[j],
            ) ==> grp_leq(weave(m, ks, fs)[i], weave(m, ks, fs)[j]),
    decreases m.len(),
{
    if m.len() > 0 {
        lemma_weave_step(m, ks, fs);
        lemma_weave_shape(m, ks, fs);
        let w = weave(m, ks, fs);
        if m[0] {
            let w2 = weave(m.drop_first(), ks.drop_first(), fs);
            assert(groups_sorted(ks.drop_first())) by {
                assert forall|i: int, j: int|
                    0 <= i <= j < ks.drop_first().len() implies grp_leq(
                    #[trigger] ks.drop_first()[i],
                    #[trigger] ks.drop_first()[j],
                ) by {
                    assert(ks.drop_first()[i] == ks[i + 1]);
                    assert(ks.drop_first()[j] == ks[j + 1]);
                }
            }
            lemma_weave_sorted(m.drop_first(), ks.drop_first(), fs);
            assert forall|j: int|
                0 <= j < m.len() && has_key(#[trigger] w[j]) implies exists|k: int|
                0 <= k < ks.len() && w[j] == ks[k] by {
                if j == 0 {
                    assert(w[0] == ks[0]);
                } else {
                    assert(w[j] == w2[j - 1]);
                    let k2 = choose|k2: int| 0 <= k2 < ks.drop_first().len() && w2[j - 1]
                        == ks.drop_first()[k2];
                    assert(w[j] == ks[k2 + 1]);
                }
            }
            assert forall|i: int, j: int|
                0 <= i <= j < m.len() && has_key(#[trigger] w[i]) && has_key(
                #[trigger] w[j]) implies grp_leq(w[i], w[j]) by {
                if i == 0 && j == 0 {
                    lemma_lex_leq_total(key_txt(w[0]), key_txt(w[0]));
                } else if i == 0 {
                    assert(w[j] == w2[j - 1]);
                    let k2 = choose|k2: int| 0 <= k2 < ks.drop_first().len() && w2[j - 1]
                        == ks.drop_first()[k2];
                    assert(w[j] == ks[k2 + 1]);
                    assert(grp_leq(ks[0], ks[k2 + 1]));
                } else {
                    assert(w[i] == w2[i - 1]);
                    assert(w[j] == w2[j - 1]);
                }
            }
        } else {
            let w2 = weave(m.drop_first(), ks, fs.drop_first());
            lemma_weave_sorted(m.drop_first(), ks, fs.drop_first());
            assert forall|j: int|
                0 <= j < m.len() && has_key(#[trigger] w[j]) implies exists|k: int|
                0 <= k < ks.len() && w[j] == ks[k] by {
                assert(j > 0);
                assert(w[j] == w2[j - 1]);
            }
            assert forall|i: int, j: int|
                0 <= i <= j < m.len() && has_key(#[trigger] w[i]) && has_key(
                #[trigger] w[j]) implies grp_leq(w[i], w[j]) by {
                assert(i > 0);
                assert(w[i] == w2[i - 1]);
                assert(w[j] == w2[j - 1]);
            }
        }
    }
}


/// A sequence of entries is its keyed entries plus its fixed points,
/// both as entries and as tokens.
proof fn lemma_partition_ms(gs: Seq<Seq<Tok>>)
    ensures
        gs.to_multiset() =~= keyed_of(gs).to_multiset().add(fixed_of(gs).to_multiset()),
        gs.flatten().to_multiset() =~= keyed_of(gs).flatten().to_multiset().add(
            fixed_of(gs).flatten().to_multiset(),
        ),
    decreases gs.len(),
{
    broadcast use vstd::seq_lib::group_to_multiset_ensures;
    broadcast use vstd::multiset::group_multiset_axioms;

    if gs.len() == 0 {
        assert(gs.flatten() =~= Seq::<Tok>::empty());
        assert(keyed_of(gs).flatten() =~= Seq::<Tok>::empty());
        assert(fixed_of(gs).flatten() =~= Seq::<Tok>::empty());
    } else {
        let d = gs.drop_first();
        lemma_partition_ms(d);
        assert(seq![gs[0]] + d =~= gs);
        lemma_multiset_commutative(seq![gs[0]], d);
        assert(seq![gs[0]].to_multiset() =~= Multiset::<Seq<Tok>>::empty().insert(gs[0])) by {
            assert(seq![gs[0]] =~= Seq::<Seq<Tok>>::empty().push(gs[0]));
        }
        assert(gs.flatten() == gs[0] + d.flatten());
        lemma_multiset_commutative(gs[0], d.flatten());
        if has_key(gs[0]) {
            let k = keyed_of(gs);
            assert(k == seq![gs[0]] + keyed_of(d));
            lemma_multiset_commutative(seq![gs[0]], keyed_of(d));
            assert(k[0] == gs[0]);
            assert(k.drop_first() =~= keyed_of(d));
            assert(k.flatten() == k[0] + k.drop_first().flatten());
            lemma_multiset_commutative(gs[0], keyed_of(d).flatten());
        } else {
            let f = fixed_of(gs);
            assert(f == seq![gs[0]] + fixed_of(d));
            lemma_multiset_commutative(seq![gs[0]], fixed_of(d));
            assert(f[0] == gs[0]);
            assert(f.drop_first() =~= fixed_of(d));
            assert(f.flatten() == f[0] + f.drop_first().flatten());
            lemma_multiset_commutative(gs[0], fixed_of(d).flatten());
        }
    }
}

/// The interleaving holds exactly the tokens of the entries and of the
/// separators.
proof fn lemma_interleave_ms(gs: Seq<Seq<Tok>>, ss: Seq<Seq<Tok>>)
    ensures
        interleave(gs, ss).to_multiset() =~= gs.flatten().to_multiset().add(
            ss.flatten().to_multiset(),
        ),
    decreases gs.len() + ss.len(),
{
    broadcast use vstd::seq_lib::group_to_multiset_ensures;
    broadcast use vstd::multiset::group_multiset_axioms;

    if gs.len() == 0 {
        assert(gs.flatten() =~= Seq::<Tok>::empty());
    } else if ss.len() == 0 {
        assert(ss.flatten() =~= Seq::<Tok>::empty());
    } else {
        lemma_interleave_ms(gs.drop_first(), ss.drop_first());
        let rest = interleave(gs.drop_first(), ss.drop_first());
        assert(interleave(gs, ss) == gs[0] + ss[0] + rest);
        lemma_multiset_commutative(gs[0] + ss[0], rest);
        lemma_multiset_commutative(gs[0], ss[0]);
        assert(gs.flatten() == gs[0] + gs.drop_first().flatten());
        assert(ss.flatten() == ss[0] + ss.drop_first().flatten());
        lemma_multiset_commutative(gs[0], gs.drop_first().flatten());
        lemma_multiset_commutative(ss[0], ss.drop_first().flatten());
    }
}

/// The reordering's three runs fit together.
proof fn lemma_reorder_wf(gs: Seq<Seq<Tok>>)
    ensures
        weave_wf(mask_of(gs), sort_groups_spec(keyed_of(gs)), fixed_of(gs)),
        groups_sorted(sort_groups_spec(keyed_of(gs))),
        sort_groups_spec(keyed_of(gs)).to_multiset() =~= keyed_of(gs).to_multiset(),
        sort_groups_spec(keyed_of(gs)).flatten().to_multiset() =~= keyed_of(
            gs,
        ).flatten().to_multiset(),
{
    lemma_mask_counts(gs);
    lemma_sort_props(keyed_of(gs));
}

/// The reordering only permutes the entries: each entry keeps its exact
/// token span, so in particular each keeps the multiset of its content
/// token texts.
pub proof fn lemma_reorder_is_permutation(gs: Seq<Seq<Tok>>)
    ensures
        reorder_spec(gs).to_multiset() == gs.to_multiset(),
{
    broadcast use vstd::multiset::group_multiset_axioms;

    lemma_reorder_wf(gs);
    lemma_weave_ms(mask_of(gs), sort_groups_spec(keyed_of(gs)), fixed_of(gs));
    lemma_partition_ms(gs);
    assert(reorder_spec(gs).to_multiset() =~= gs.to_multiset());
}

/// In the reordering's output, every slot keeps its kind, and the keyed
/// entries stand in non-decreasing key order.
pub proof fn lemma_reorder_sorted_keys(gs: Seq<Seq<Tok>>)
    ensures
        reorder_spec(gs).len() == gs.len(),
        forall|i: int|
            0 <= i < gs.len() ==> has_key(#[trigger] reorder_spec(gs)[i]) == has_key(gs[i]),
        forall|i: int, j: int|
            0 <= i <= j < gs.len() && has_key(#[trigger] reorder_spec(gs)[i]) && has_key(
                #[trigger] reorder_spec(gs)[j],
            ) ==> grp_leq(reorder_spec(gs)[i], reorder_spec(gs)[j]),
{
    lemma_reorder_wf(gs);
    lemma_mask_counts(gs);
    let m = mask_of(gs);
    let ks = sort_groups_spec(keyed_of(gs));
    let fs = fixed_of(gs);
    lemma_weave_shape(m, ks, fs);
    lemma_weave_sorted(m, ks, fs);
    assert forall|i: int| 0 <= i < gs.len() implies has_key(#[trigger] reorder_spec(gs)[i])
        == has_key(gs[i]) by {
        assert(m[i] == has_key(gs[i]));
    }
}

/// An entry with no key stays at its original absolute index.
pub proof fn lemma_reorder_fixed_points(gs: Seq<Seq<Tok>>)
    ensures
        reorder_spec(gs).len() == gs.len(),
        forall|i: int|
            0 <= i < gs.len() && !has_key(#[trigger] gs[i]) ==> reorder_spec(gs)[i] == gs[i],
{
    lemma_reorder_wf(gs);
    lemma_mask_counts(gs);
    lemma_weave_shape(mask_of(gs), sort_groups_spec(keyed_of(gs)), fixed_of(gs));
    lemma_weave_fixed_idx(gs, sort_groups_spec(keyed_of(gs)));
}

/// Reordering what was already reordered changes nothing.
pub proof fn lemma_reorder_idempotent(gs: Seq<Seq<Tok>>)
    ensures
        reorder_spec(reorder_spec(gs)) == reorder_spec(gs),
{
    lemma_reorder_wf(gs);
    let m = mask_of(gs);
    let ks = sort_groups_spec(keyed_of(gs));
    let fs = fixed_of(gs);
    let out = reorder_spec(gs);
    lemma_weave_reads_back(m, ks, fs);
    lemma_sorted_identity(ks);
    assert(mask_of(out) == m);
    assert(reorder_spec(out) == weave(m, sort_groups_spec(ks), fs));
}

/// When the keyed entries already stand in key order, the reordering
/// gives back the entries unchanged.
pub proof fn lemma_reorder_sorted_is_identity(gs: Seq<Seq<Tok>>)
    requires
        groups_sorted(keyed_of(gs)),
    ensures
        reorder_spec(gs) == gs,
{
    lemma_sorted_identity(keyed_of(gs));
    lemma_weave_partition(gs);
}

/// The pipeline loses no token and invents none: what comes out is a
/// permutation of what went in, in particular of the same length.
pub proof fn lemma_pipeline_preserves_tokens(toks: Seq<Tok>)
    ensures
        pipeline_spec(toks).to_multiset() == toks.to_multiset(),
        pipeline_spec(toks).len() == toks.len(),
{
    broadcast use vstd::seq_lib::group_to_multiset_ensures;
    broadcast use vstd::multiset::group_multiset_axioms;

    lemma_segment_lossless(toks);
    let st = segment_spec(toks);
    let out = reorder_spec(st.groups);
    lemma_reorder_wf(st.groups);
    lemma_weave_ms(mask_of(st.groups), sort_groups_spec(keyed_of(st.groups)), fixed_of(st.groups));
    lemma_partition_ms(st.groups);
    lemma_interleave_ms(st.groups, st.seps);
    lemma_interleave_ms(out, st.seps);
    lemma_multiset_commutative(st.leading, interleave(st.groups, st.seps));
    lemma_multiset_commutative(st.leading, interleave(out, st.seps));
    assert(pipeline_spec(toks).to_multiset() =~= toks.to_multiset());
    vstd::seq_lib::to_multiset_len(pipeline_spec(toks));
    vstd::seq_lib::to_multiset_len(toks);
}

/// A derive list whose entries already stand in key order comes through
/// the pipeline byte for byte unchanged.
pub proof fn lemma_pipeline_sorted_identity(toks: Seq<Tok>)
    requires
        groups_sorted(keyed_of(segment_spec(toks).groups)),
    ensures
        pipeline_spec(toks) == toks,
{
    lemma_segment_lossless(toks);
    lemma_reorder_sorted_is_identity(segment_spec(toks).groups);
}

/// Every token is separator filler (whitespace or a comment).
pub open spec fn all_filler(s: Seq<Tok>) -> bool {
    forall|i: int| 0 <= i < s.len() ==> (#[trigger] s[i]).is_filler()
}

/// No token is a comma.
pub open spec fn no_commas(s: Seq<Tok>) -> bool {
    forall|i: int| 0 <= i < s.len() ==> !(#[trigger] s[i]).is_comma()
}

/// An entry has a key exactly when it holds a content token.
proof fn lemma_has_key_content(g: Seq<Tok>)
    ensures
        has_key(g) <==> crate::parse::last_content(g) >= 0,
    decreases g.len(),
{
    if g.len() > 0 && !g.last().is_content() {
        lemma_has_key_content(g.drop_last());
    }
}

/// The shape of one well-segmented entry: no comma inside; a keyed entry
/// begins and ends with content; a keyless one is all filler.
pub open spec fn grp_wf(g: Seq<Tok>) -> bool {
    &&& no_commas(g)
    &&& (has_key(g) ==> g.len() > 0 && g[0].is_content() && g.last().is_content())
    &&& (!has_key(g) ==> all_filler(g))
}

/// The shape of a separator that carries its comma: filler, the comma,
/// filler.
pub open spec fn sep_mid_wf(s: Seq<Tok>) -> bool {
    exists|k: int|
        0 <= k < s.len() && (#[trigger] s[k]).is_comma() && all_filler(s.take(k)) && all_filler(
            s.skip(k + 1),
        )
}

/// The shape of the segmenter's finished output: entries and separators
/// in lockstep, every entry well formed, every separator carrying one
/// comma except possibly the last, which may be filler only.
pub open spec fn layout_wf(gs: Seq<Seq<Tok>>, ss: Seq<Seq<Tok>>) -> bool {
    &&& gs.len() == ss.len()
    &&& (forall|i: int| 0 <= i < gs.len() ==> grp_wf(#[trigger] gs[i]))
    &&& (forall|i: int| 0 <= i < ss.len() - 1 ==> sep_mid_wf(#[trigger] ss[i]))
    &&& (ss.len() > 0 ==> (sep_mid_wf(ss.last()) || all_filler(ss.last())))
}

/// What holds of the segmenter's state at every point of the run: the
/// leading separator is filler, entries and separators well formed, each
/// separator so far carries its comma, and the buffer holds no comma.
pub open spec fn seg_inv(st: SegSt) -> bool {
    &&& all_filler(st.leading)
    &&& st.groups.len() == st.seps.len()
    &&& (forall|i: int| 0 <= i < st.groups.len() ==> grp_wf(#[trigger] st.groups[i]))
    &&& (forall|i: int| 0 <= i < st.seps.len() ==> sep_mid_wf(#[trigger] st.seps[i]))
    &&& no_commas(st.acc)
}

/// What a nonempty comma-free buffer is trimmed into: filler before the
/// entry, a well-formed entry, filler after it.
proof fn lemma_buffer_pieces(acc: Seq<Tok>)
    requires
        no_commas(acc),
        acc.len() > 0,
    ensures
        0 <= crate::parse::emit_start(acc),
        crate::parse::emit_start(acc) <= crate::parse::emit_end(acc) + 1,
        crate::parse::emit_end(acc) < acc.len(),
        all_filler(acc.take(crate::parse::emit_start(acc))),
        grp_wf(acc.subrange(crate::parse::emit_start(acc), crate::parse::emit_end(acc) + 1)),
        all_filler(acc.skip(crate::parse::emit_end(acc) + 1)),
{
    let lc = crate::parse::last_content(acc);
    let start = crate::parse::emit_start(acc);
    let end = crate::parse::emit_end(acc);
    crate::parse::lemma_first_content(acc);
    crate::parse::lemma_last_content(acc);
    if lc >= 0 {
        crate::parse::lemma_content_bounds(acc);
    }
    // a token that is neither content nor a comma is filler
    assert forall|j: int| 0 <= j < start implies (#[trigger] acc.take(start)[j]).is_filler() by {
        assert(acc.take(start)[j] == acc[j]);
        assert(!acc[j].is_content() && !acc[j].is_comma());
    }
    assert forall|j: int|
        0 <= j < acc.skip(end + 1).len() implies (#[trigger] acc.skip(end + 1)[j]).is_filler() by {
        assert(acc.skip(end + 1)[j] == acc[j + end + 1]);
        assert(!acc[j + end + 1].is_content() && !acc[j + end + 1].is_comma());
    }
    let g = acc.subrange(start, end + 1);
    assert forall|j: int| 0 <= j < g.len() implies !(#[trigger] g[j]).is_comma() by {
        assert(g[j] == acc[j + start]);
    }
    lemma_has_key_content(g);
    if lc >= 0 {
        assert(g.len() > 0);
        assert(g[0] == acc[start]);
        assert(g.last() == acc[end]);
        assert(g.last().is_content());
        assert(crate::parse::last_content(g) == g.len() - 1);
    } else {
        // the whole buffer is filler, and the entry is all of it
        assert(g =~= acc);
        assert forall|j: int| 0 <= j < g.len() implies (#[trigger] g[j]).is_filler() by {
            assert(!acc[j].is_content() && !acc[j].is_comma());
        }
        assert(!has_key(g)) by {
            crate::parse::lemma_last_content(g);
            if crate::parse::last_content(g) >= 0 {
                assert(g[crate::parse::last_content(g)].is_content());
            }
        }
    }
}

/// An emit at a comma keeps the run invariant and clears the buffer.
proof fn lemma_emit_some_inv(st: SegSt, c: Tok)
    requires
        seg_inv(st),
        c.is_comma(),
    ensures
        seg_inv(seg_emit(st, Some(c))),
        seg_emit(st, Some(c)).acc.len() == 0,
{
    let st1 = seg_emit(st, Some(c));
    if st.acc.len() == 0 {
        assert(sep_mid_wf(seq![c])) by {
            assert(seq![c][0].is_comma());
            assert(all_filler(seq![c].take(0)));
            assert(all_filler(seq![c].skip(1))) by {
                assert(seq![c].skip(1).len() == 0);
            }
        }
        assert(grp_wf(Seq::<Tok>::empty())) by {
            lemma_has_key_content(Seq::<Tok>::empty());
        }
        assert forall|i: int| 0 <= i < st1.groups.len() implies grp_wf(#[trigger] st1.groups[i]) by {
            if i < st.groups.len() {
                assert(st1.groups[i] == st.groups[i]);
            } else {
                assert(st1.groups[i] == Seq::<Tok>::empty());
            }
        }
        assert forall|i: int| 0 <= i < st1.seps.len() implies sep_mid_wf(#[trigger] st1.seps[i]) by {
            if i < st.seps.len() {
                assert(st1.seps[i] == st.seps[i]);
            } else {
                assert(st1.seps[i] == seq![c]);
            }
        }
    } else {
        lemma_buffer_pieces(st.acc);
        let start = crate::parse::emit_start(st.acc);
        let end = crate::parse::emit_end(st.acc);
        let prefix = st.acc.take(start);
        let grp = st.acc.subrange(start, end + 1);
        let suffix = st.acc.skip(end + 1);
        let sep = suffix.push(c);
        assert(sep_mid_wf(sep)) by {
            assert(sep[suffix.len() as int].is_comma());
            assert(sep.take(suffix.len() as int) =~= suffix);
            assert(all_filler(sep.skip(suffix.len() as int + 1))) by {
                assert(sep.skip(suffix.len() as int + 1).len() == 0);
            }
        }
        let seps2 = if start > 0 && st.groups.len() > 0 {
            st.seps.update(st.seps.len() - 1, st.seps.last() + prefix)
        } else {
            st.seps
        };
        assert forall|i: int| 0 <= i < seps2.len() implies sep_mid_wf(#[trigger] seps2[i]) by {
            if start > 0 && st.groups.len() > 0 && i == st.seps.len() - 1 {
                let old = st.seps.last();
                assert(sep_mid_wf(old));
                let k = choose|k: int|
                    0 <= k < old.len() && (#[trigger] old[k]).is_comma() && all_filler(old.take(k))
                        && all_filler(old.skip(k + 1));
                let ext = old + prefix;
                assert(ext[k].is_comma());
                assert(ext.take(k) =~= old.take(k));
                assert(all_filler(ext.skip(k + 1))) by {
                    assert forall|j: int|
                        0 <= j < ext.skip(k + 1).len() implies (#[trigger] ext.skip(k + 1)[j]).is_filler() by {
                        if j < old.len() - k - 1 {
                            assert(ext.skip(k + 1)[j] == old.skip(k + 1)[j]);
                        } else {
                            assert(ext.skip(k + 1)[j] == prefix[j - (old.len() - k - 1)]);
                        }
                    }
                }
                assert(seps2[i] == ext);
            } else {
                assert(seps2[i] == st.seps[i]);
            }
        }
        assert forall|i: int| 0 <= i < st1.groups.len() implies grp_wf(#[trigger] st1.groups[i]) by {
            if i < st.groups.len() {
                assert(st1.groups[i] == st.groups[i]);
            } else {
                assert(st1.groups[i] == grp);
            }
        }
        assert forall|i: int| 0 <= i < st1.seps.len() implies sep_mid_wf(#[trigger] st1.seps[i]) by {
            if i < seps2.len() {
                assert(st1.seps[i] == seps2[i]);
            } else {
                assert(st1.seps[i] == sep);
            }
        }
        if start > 0 && st.groups.len() == 0 {
            assert(all_filler(st1.leading)) by {
                assert forall|j: int|
                    0 <= j < st1.leading.len() implies (#[trigger] st1.leading[j]).is_filler() by {
                    if j < st.leading.len() {
                        assert(st1.leading[j] == st.leading[j]);
                    } else {
                        assert(st1.leading[j] == prefix[j - st.leading.len()]);
                    }
                }
            }
        }
    }
}

/// The final emit turns a run-invariant state into a well-formed layout.
proof fn lemma_emit_none_layout(st: SegSt)
    requires
        seg_inv(st),
    ensures
        layout_wf(seg_emit(st, None).groups, seg_emit(st, None).seps),
        all_filler(seg_emit(st, None).leading),
{
    let st1 = seg_emit(st, None);
    if st.acc.len() == 0 {
    } else {
        lemma_buffer_pieces(st.acc);
        let start = crate::parse::emit_start(st.acc);
        let end = crate::parse::emit_end(st.acc);
        let prefix = st.acc.take(start);
        let grp = st.acc.subrange(start, end + 1);
        let suffix = st.acc.skip(end + 1);
        let seps2 = if start > 0 && st.groups.len() > 0 {
            st.seps.update(st.seps.len() - 1, st.seps.last() + prefix)
        } else {
            st.seps
        };
        assert forall|i: int| 0 <= i < seps2.len() implies sep_mid_wf(#[trigger] seps2[i]) by {
            if start > 0 && st.groups.len() > 0 && i == st.seps.len() - 1 {
                let old = st.seps.last();
                assert(sep_mid_wf(old));
                let k = choose|k: int|
                    0 <= k < old.len() && (#[trigger] old[k]).is_comma() && all_filler(old.take(k))
                        && all_filler(old.skip(k + 1));
                let ext = old + prefix;
                assert(ext[k].is_comma());
                assert(ext.take(k) =~= old.take(k));
                assert(all_filler(ext.skip(k + 1))) by {
                    assert forall|j: int|
                        0 <= j < ext.skip(k + 1).len() implies (#[trigger] ext.skip(k + 1)[j]).is_filler() by {
                        if j < old.len() - k - 1 {
                            assert(ext.skip(k + 1)[j] == old.skip(k + 1)[j]);
                        } else {
                            assert(ext.skip(k + 1)[j] == prefix[j - (old.len() - k - 1)]);
                        }
                    }
                }
                assert(seps2[i] == ext);
            } else {
                assert(seps2[i] == st.seps[i]);
            }
        }
        assert forall|i: int| 0 <= i < st1.groups.len() implies grp_wf(#[trigger] st1.groups[i]) by {
            if i < st.groups.len() {
                assert(st1.groups[i] == st.groups[i]);
            } else {
                assert(st1.groups[i] == grp);
            }
        }
        assert forall|i: int| 0 <= i < st1.seps.len() - 1 implies sep_mid_wf(#[trigger] st1.seps[i])
            by {
            assert(st1.seps[i] == seps2[i]);
        }
        assert(st1.seps.last() == suffix);
        if start > 0 && st.groups.len() == 0 {
            assert(all_filler(st1.leading)) by {
                assert forall|j: int|
                    0 <= j < st1.leading.len() implies (#[trigger] st1.leading[j]).is_filler() by {
                    if j < st.leading.len() {
                        assert(st1.leading[j] == st.leading[j]);
                    } else {
                        assert(st1.leading[j] == prefix[j - st.leading.len()]);
                    }
                }
            }
        }
    }
}

/// The run invariant holds along any stretch of tokens.
proof fn lemma_run_inv(toks: Seq<Tok>, st: SegSt)
    requires
        seg_inv(st),
    ensures
        seg_inv(crate::parse::seg_run(toks, st)),
    decreases toks.len(),
{
    if toks.len() > 0 {
        if toks[0].is_comma() {
            lemma_emit_some_inv(st, toks[0]);
            lemma_run_inv(toks.drop_first(), seg_emit(st, Some(toks[0])));
        } else {
            let st1 = SegSt {
                leading: st.leading,
                groups: st.groups,
                seps: st.seps,
                acc: st.acc.push(toks[0]),
            };
            assert(no_commas(st1.acc)) by {
                assert forall|i: int|
                    0 <= i < st1.acc.len() implies !(#[trigger] st1.acc[i]).is_comma() by {
                    if i < st.acc.len() {
                        assert(st1.acc[i] == st.acc[i]);
                    } else {
                        assert(st1.acc[i] == toks[0]);
                    }
                }
            }
            lemma_run_inv(toks.drop_first(), st1);
        }
    }
}

/// What the segmenter hands out is well formed: filler before the first
/// entry, every entry trimmed to its content span with no comma inside,
/// and each separator carrying exactly one comma, except possibly a
/// filler-only separator at the very end.
pub proof fn lemma_segment_layout(toks: Seq<Tok>)
    ensures
        all_filler(segment_spec(toks).leading),
        layout_wf(segment_spec(toks).groups, segment_spec(toks).seps),
{
    crate::parse::lemma_seg_loop_is_run(toks, seg_init());
    assert(seg_inv(seg_init()));
    lemma_run_inv(toks, seg_init());
    lemma_emit_none_layout(crate::parse::seg_run(toks, seg_init()));
}


/// Filler carries no comma and no content.
proof fn lemma_filler_facts(s: Seq<Tok>)
    requires
        all_filler(s),
    ensures
        no_commas(s),
        !has_key(s),
{
    lemma_has_key_content(s);
    crate::parse::lemma_last_content(s);
    if crate::parse::last_content(s) >= 0 {
        assert(s[crate::parse::last_content(s)].is_content());
    }
}

/// Two stretches of filler make one.
proof fn lemma_filler_concat(a: Seq<Tok>, b: Seq<Tok>)
    requires
        all_filler(a),
        all_filler(b),
    ensures
        all_filler(a + b),
{
    assert forall|i: int| 0 <= i < (a + b).len() implies (#[trigger] (a + b)[i]).is_filler() by {
        if i < a.len() {
            assert((a + b)[i] == a[i]);
        } else {
            assert((a + b)[i] == b[i - a.len()]);
        }
    }
}

/// A buffer that is filler, then a keyed entry, then filler, trims to
/// exactly that entry.
proof fn lemma_chunk_trim(f1: Seq<Tok>, g: Seq<Tok>, f2: Seq<Tok>)
    requires
        all_filler(f1),
        all_filler(f2),
        g.len() > 0,
        g[0].is_content(),
        g.last().is_content(),
    ensures
        crate::parse::emit_start(f1 + g + f2) == f1.len(),
        crate::parse::emit_end(f1 + g + f2) == (f1.len() + g.len() - 1) as int,
        (f1 + g + f2).subrange(f1.len() as int, (f1.len() + g.len()) as int) == g,
        (f1 + g + f2).take(f1.len() as int) == f1,
        (f1 + g + f2).skip((f1.len() + g.len()) as int) == f2,
{
    let acc = f1 + g + f2;
    crate::parse::lemma_first_content(acc);
    crate::parse::lemma_last_content(acc);
    assert(acc[f1.len() as int] == g[0]);
    assert(acc[(f1.len() + g.len() - 1) as int] == g.last());
    let lc = crate::parse::last_content(acc);
    // the buffer has content, so the trim points are content positions
    assert(lc >= 0) by {
        if lc < (f1.len() + g.len() - 1) as int {
            assert(!acc[(f1.len() + g.len() - 1) as int].is_content());
        }
    }
    let fc = crate::parse::first_content(acc);
    assert(fc == f1.len()) by {
        if fc < f1.len() {
            assert(acc[fc] == f1[fc]);
            assert(!acc[fc].is_content());
        }
        if fc > f1.len() {
            assert(!acc[f1.len() as int].is_content());
        }
        if fc == acc.len() {
            assert(!acc[f1.len() as int].is_content());
        }
    }
    assert(lc == (f1.len() + g.len() - 1) as int) by {
        if lc < (f1.len() + g.len() - 1) as int {
            assert(!acc[(f1.len() + g.len() - 1) as int].is_content());
        }
        if lc > (f1.len() + g.len() - 1) as int {
            assert(acc[lc] == f2[lc - f1.len() - g.len()]);
            assert(!acc[lc].is_content());
        }
    }
    assert(acc.subrange(f1.len() as int, (f1.len() + g.len()) as int) =~= g);
    assert(acc.take(f1.len() as int) =~= f1);
    assert(acc.skip((f1.len() + g.len()) as int) =~= f2);
}

/// An emit whose buffer is filler, a well-formed entry, filler again,
/// adds exactly that entry to the entry list; its key list grows by the
/// entry when it has a key and not otherwise.
proof fn lemma_emit_chunk(st: SegSt, f_g: Seq<Tok>, comma: Option<Tok>)
    requires
        exists|f1: Seq<Tok>, f2: Seq<Tok>|
            all_filler(f1) && all_filler(f2) && grp_wf(f_g) && st.acc == f1 + f_g + f2,
    ensures
        keyed_of(seg_emit(st, comma).groups) == if has_key(f_g) {
            keyed_of(st.groups).push(f_g)
        } else {
            keyed_of(st.groups)
        },
        seg_emit(st, comma).acc.len() == 0 || comma is None,
{
    let (f1, f2) = choose|f1: Seq<Tok>, f2: Seq<Tok>|
        all_filler(f1) && all_filler(f2) && grp_wf(f_g) && st.acc == f1 + f_g + f2;
    if has_key(f_g) {
        lemma_chunk_trim(f1, f_g, f2);
        assert(st.acc.len() > 0);
        let grp = st.acc.subrange(
            crate::parse::emit_start(st.acc),
            crate::parse::emit_end(st.acc) + 1,
        );
        assert(grp == f_g);
        lemma_keyed_of_push(st.groups, grp);
    } else {
        assert(all_filler(f_g));
        lemma_filler_concat(f1, f_g);
        lemma_filler_concat(f1 + f_g, f2);
        assert(all_filler(st.acc));
        if st.acc.len() == 0 {
            match comma {
                None => {},
                Some(c) => {
                    lemma_keyed_of_push(st.groups, Seq::empty());
                    lemma_filler_facts(Seq::<Tok>::empty());
                },
            }
        } else {
            lemma_filler_facts(st.acc);
            lemma_buffer_pieces(st.acc);
            let grp = st.acc.subrange(
                crate::parse::emit_start(st.acc),
                crate::parse::emit_end(st.acc) + 1,
            );
            assert(!has_key(grp)) by {
                lemma_has_key_content(grp);
                crate::parse::lemma_last_content(grp);
                if crate::parse::last_content(grp) >= 0 {
                    assert(grp[crate::parse::last_content(grp)].is_content());
                    assert(grp[crate::parse::last_content(grp)] == st.acc[crate::parse::last_content(
                        grp,
                    ) + crate::parse::emit_start(st.acc)]);
                }
            }
            lemma_keyed_of_push(st.groups, grp);
        }
    }
}

/// Re-segmenting a well-formed layout laid out flat after some filler
/// recovers, among the keyed entries, exactly the layout's keyed entries
/// in their order.
proof fn lemma_reseg(gs: Seq<Seq<Tok>>, ss: Seq<Seq<Tok>>, st: SegSt)
    requires
        layout_wf(gs, ss),
        all_filler(st.acc),
    ensures
        keyed_of(seg_emit(crate::parse::seg_run(interleave(gs, ss), st), None).groups)
            == keyed_of(st.groups) + keyed_of(gs),
    decreases gs.len(),
{
    if gs.len() == 0 {
        assert(interleave(gs, ss) == ss.flatten());
        assert(ss.flatten() =~= Seq::<Tok>::empty());
        assert(crate::parse::seg_run(interleave(gs, ss), st) == st);
        let st1 = seg_emit(st, None);
        if st.acc.len() == 0 {
            assert(st1 == st);
        } else {
            assert(st.acc =~= Seq::<Tok>::empty() + st.acc + Seq::<Tok>::empty());
            assert(grp_wf(st.acc)) by {
                lemma_filler_facts(st.acc);
            }
            assert(all_filler(Seq::<Tok>::empty()));
            lemma_emit_chunk(st, st.acc, None);
            assert(!has_key(st.acc)) by {
                lemma_filler_facts(st.acc);
            }
        }
        assert(keyed_of(st.groups) + keyed_of(gs) =~= keyed_of(st.groups));
    } else {
        let g0 = gs[0];
        let s0 = ss[0];
        let gs2 = gs.drop_first();
        let ss2 = ss.drop_first();
        let rest = interleave(gs2, ss2);
        assert(interleave(gs, ss) == g0 + s0 + rest);
        assert(grp_wf(g0));
        assert(layout_wf(gs2, ss2)) by {
            assert forall|i: int| 0 <= i < gs2.len() implies grp_wf(#[trigger] gs2[i]) by {
                assert(gs2[i] == gs[i + 1]);
            }
            assert forall|i: int| 0 <= i < ss2.len() - 1 implies sep_mid_wf(#[trigger] ss2[i]) by {
                assert(ss2[i] == ss[i + 1]);
            }
            if ss2.len() > 0 {
                assert(ss2.last() == ss.last());
            }
        }
        assert(no_commas(g0));
        if sep_mid_wf(s0) {
            let k = choose|k: int|
                0 <= k < s0.len() && (#[trigger] s0[k]).is_comma() && all_filler(s0.take(k))
                    && all_filler(s0.skip(k + 1));
            let p = s0.take(k);
            let c = s0[k];
            let q = s0.skip(k + 1);
            assert(g0 + s0 + rest =~= (g0 + p) + (seq![c] + (q + rest)));
            crate::parse::lemma_seg_run_concat(g0 + p, seq![c] + (q + rest), st);
            assert(no_commas(g0 + p)) by {
                lemma_filler_facts(p);
                assert forall|i: int|
                    0 <= i < (g0 + p).len() implies !(#[trigger] (g0 + p)[i]).is_comma() by {
                    if i < g0.len() {
                        assert((g0 + p)[i] == g0[i]);
                    } else {
                        assert((g0 + p)[i] == p[i - g0.len()]);
                    }
                }
            }
            crate::parse::lemma_seg_run_no_comma(g0 + p, st);
            let st1 = SegSt {
                leading: st.leading,
                groups: st.groups,
                seps: st.seps,
                acc: st.acc + (g0 + p),
            };
            let cqr = seq![c] + (q + rest);
            assert(cqr[0] == c);
            assert(cqr.drop_first() =~= q + rest);
            assert(crate::parse::seg_run(cqr, st1) == crate::parse::seg_run(
                q + rest,
                seg_emit(st1, Some(c)),
            ));
            let st2 = seg_emit(st1, Some(c));
            assert(st1.acc == st.acc + g0 + p) by {
                assert(st.acc + (g0 + p) =~= st.acc + g0 + p);
            }
            lemma_emit_chunk(st1, g0, Some(c));
            assert(st2.acc.len() == 0);
            crate::parse::lemma_seg_run_concat(q, rest, st2);
            assert(no_commas(q)) by {
                lemma_filler_facts(q);
            }
            crate::parse::lemma_seg_run_no_comma(q, st2);
            let st3 = crate::parse::seg_run(q, st2);
            assert(st3.acc =~= q);
            assert(all_filler(st3.acc));
            assert(st3.groups == st2.groups);
            lemma_reseg(gs2, ss2, st3);
            assert(keyed_of(gs) == if has_key(g0) {
                seq![g0] + keyed_of(gs2)
            } else {
                keyed_of(gs2)
            });
            if has_key(g0) {
                assert(keyed_of(st.groups).push(g0) + keyed_of(gs2) =~= keyed_of(st.groups) + (
                seq![g0] + keyed_of(gs2)));
            }
        } else {
            // by the layout, only the last separator can lack its comma
            assert(ss.len() == 1);
            assert(all_filler(s0));
            assert(gs2.len() == 0 && ss2.len() == 0);
            assert(rest =~= Seq::<Tok>::empty());
            assert(g0 + s0 + rest =~= g0 + s0);
            assert(no_commas(g0 + s0)) by {
                lemma_filler_facts(s0);
                assert forall|i: int|
                    0 <= i < (g0 + s0).len() implies !(#[trigger] (g0 + s0)[i]).is_comma() by {
                    if i < g0.len() {
                        assert((g0 + s0)[i] == g0[i]);
                    } else {
                        assert((g0 + s0)[i] == s0[i - g0.len()]);
                    }
                }
            }
            crate::parse::lemma_seg_run_no_comma(g0 + s0, st);
            let st1 = SegSt {
                leading: st.leading,
                groups: st.groups,
                seps: st.seps,
                acc: st.acc + (g0 + s0),
            };
            assert(st1.acc == st.acc + g0 + s0) by {
                assert(st.acc + (g0 + s0) =~= st.acc + g0 + s0);
            }
            lemma_emit_chunk(st1, g0, None);
            assert(keyed_of(gs) == if has_key(g0) {
                seq![g0] + keyed_of(gs2)
            } else {
                keyed_of(gs2)
            });
            if has_key(g0) {
                assert(keyed_of(st.groups).push(g0) =~= keyed_of(st.groups) + (seq![g0]
                    + keyed_of(gs2)));
            } else {
                assert(keyed_of(st.groups) =~= keyed_of(st.groups) + keyed_of(gs2));
            }
        }
    }
}

/// Running the pipeline on its own output changes nothing: the first run
/// leaves the keyed entries in key order, and re-segmenting its output
/// finds them, still in that order, around the same commas.
pub proof fn lemma_pipeline_idempotent(toks: Seq<Tok>)
    ensures
        pipeline_spec(pipeline_spec(toks)) == pipeline_spec(toks),
{
    broadcast use vstd::seq_lib::group_to_multiset_ensures;

    let st = segment_spec(toks);
    let gs2 = reorder_spec(st.groups);
    let out = pipeline_spec(toks);
    lemma_segment_layout(toks);
    lemma_reorder_wf(st.groups);
    lemma_reorder_sorted_keys(st.groups);
    lemma_reorder_is_permutation(st.groups);
    assert forall|i: int| 0 <= i < gs2.len() implies grp_wf(#[trigger] gs2[i]) by {
        assert(gs2.contains(gs2[i]));
        assert(st.groups.to_multiset().count(gs2[i]) > 0);
        assert(st.groups.contains(gs2[i]));
        let j = choose|j: int| 0 <= j < st.groups.len() && st.groups[j] == gs2[i];
        assert(grp_wf(st.groups[j]));
    }
    assert(layout_wf(gs2, st.seps));
    crate::parse::lemma_seg_loop_is_run(out, seg_init());
    assert(out == st.leading + interleave(gs2, st.seps));
    crate::parse::lemma_seg_run_concat(st.leading, interleave(gs2, st.seps), seg_init());
    assert(no_commas(st.leading)) by {
        lemma_filler_facts(st.leading);
    }
    crate::parse::lemma_seg_run_no_comma(st.leading, seg_init());
    let st0 = crate::parse::seg_run(st.leading, seg_init());
    assert(st0.acc =~= st.leading) by {
        assert(Seq::<Tok>::empty() + st.leading =~= st.leading);
    }
    lemma_reseg(gs2, st.seps, st0);
    assert(keyed_of(segment_spec(out).groups) == keyed_of(st0.groups) + keyed_of(gs2));
    lemma_weave_reads_back(
        mask_of(st.groups),
        sort_groups_spec(keyed_of(st.groups)),
        fixed_of(st.groups),
    );
    assert(keyed_of(gs2) == sort_groups_spec(keyed_of(st.groups)));
    assert(keyed_of(segment_spec(out).groups) =~= keyed_of(gs2)) by {
        assert(keyed_of(st0.groups).len() == 0);
    }
    assert(groups_sorted(keyed_of(segment_spec(out).groups)));
    lemma_pipeline_sorted_identity(out);
}

} // verus!

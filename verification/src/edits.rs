use vstd::prelude::*;

verus! {

/// One text edit: replace the bytes of `start..end` (offsets into the
/// original text) with `insert`.
#[derive(Debug, Clone, PartialEq, Eq)]
pub struct Edit {
    pub start: usize,
    pub end: usize,
    pub insert: Vec<u8>,
}

/// Edit order: by start offset, ties by end offset, stable.
pub open spec fn edit_leq(a: Edit, b: Edit) -> bool {
    a.start < b.start || (a.start == b.start && a.end <= b.end)
}

/// Where a new edit lands when inserted into an already sorted run.
pub open spec fn ed_insort_pos(s: Seq<Edit>, x: Edit) -> int
    decreases s.len(),
{
    if s.len() == 0 {
        0
    } else if edit_leq(s[0], x) {
        1 + ed_insort_pos(s.drop_first(), x)
    } else {
        0
    }
}

proof fn lemma_ed_insort_pos_bounds(s: Seq<Edit>, x: Edit)
    ensures
        0 <= ed_insort_pos(s, x) <= s.len(),
    decreases s.len(),
{
    if s.len() > 0 && edit_leq(s[0], x) {
        lemma_ed_insort_pos_bounds(s.drop_first(), x);
    }
}

/// Stable sort of edits by range.
pub open spec fn sort_edits_spec(s: Seq<Edit>) -> Seq<Edit>
    decreases s.len(),
{
    if s.len() == 0 {
        Seq::empty()
    } else {
        sort_edits_spec(s.drop_last()).insert(
            ed_insort_pos(sort_edits_spec(s.drop_last()), s.last()),
            s.last(),
        )
    }
}

/// Every script of the collection, one after the other.
pub open spec fn all_edits(ss: Seq<Vec<Edit>>) -> Seq<Edit> {
    ss.map_values(|v: Vec<Edit>| v@).flatten()
}

/// Consecutive edits never overlap (touching is allowed).
pub open spec fn edits_disjoint(es: Seq<Edit>) -> bool {
    forall|i: int| 0 <= i && i + 1 < es.len() ==> (#[trigger] es[i]).end <= es[i + 1].start
}

/// Every edit lies within a text of `n` bytes.
pub open spec fn edits_in_bounds(es: Seq<Edit>, n: int) -> bool {
    forall|i: int|
        0 <= i < es.len() ==> (#[trigger] es[i]).start <= es[i].end && es[i].end <= n
}

/// The edits a text of `n` bytes accepts in one pass.
pub open spec fn edits_ok(es: Seq<Edit>, n: int) -> bool {
    edits_in_bounds(es, n) && edits_disjoint(es)
}

/// The text after the edits at and beyond `from` are applied: the bytes
/// up to the next edit, its replacement, then the rest.
pub open spec fn apply_spec(src: Seq<u8>, es: Seq<Edit>, from: int) -> Seq<u8>
    decreases es.len(),
{
    if es.len() == 0 {
        src.subrange(from, src.len() as int)
    } else {
        src.subrange(from, es[0].start as int) + es[0].insert@ + apply_spec(
            src,
            es.drop_first(),
            es[0].end as int,
        )
    }
}

/// Where `x` lands in the sorted run `sorted`.
fn ed_find_pos(sorted: &Vec<Edit>, x: &Edit) -> (pos: usize)
    ensures
        pos == ed_insort_pos(sorted@, *x),
        pos <= sorted@.len(),
{
    let mut j: usize = 0;
    proof {
        assert(sorted@.skip(0) =~= sorted@);
    }
    loop
        invariant
            j <= sorted@.len(),
            ed_insort_pos(sorted@, *x) == j + ed_insort_pos(sorted@.skip(j as int), *x),
        decreases sorted@.len() - j,
    {
        if j == sorted.len() {
            proof {
                lemma_ed_insort_pos_bounds(sorted@.skip(j as int), *x);
            }
            return j;
        }
        proof {
            assert(sorted@.skip(j as int)[0] == sorted@[j as int]);
            assert(sorted@.skip(j as int).drop_first() =~= sorted@.skip(j as int + 1));
        }
        let e = &sorted[j];
        let le = e.start < x.start || (e.start == x.start && e.end <= x.end);
        if !le {
            return j;
        }
        j = j + 1;
    }
}

/// Collects the scripts of every derive attribute of a file into one
/// script, sorted by range; refuses the collection when two of its edits
/// overlap, which distinct attributes never produce.
pub fn merge_edits(scripts: Vec<Vec<Edit>>) -> (r: Option<Vec<Edit>>)
    ensures
        r matches Some(m) ==> m@ == sort_edits_spec(all_edits(scripts@)) && edits_disjoint(m@),
        (r is Some) <==> edits_disjoint(sort_edits_spec(all_edits(scripts@))),
{
    let ghost total = all_edits(scripts@);
    let mut rest = scripts;
    let mut all: Vec<Edit> = Vec::new();
    proof {
        assert(rest@.map_values(|v: Vec<Edit>| v@) == scripts@.map_values(|v: Vec<Edit>| v@));
        assert(all@ + all_edits(rest@) =~= total);
    }
    while rest.len() > 0
        invariant
            total == all@ + all_edits(rest@),
        decreases rest@.len(),
    {
        let ghost rv = rest@;
        let mut v = rest.remove(0);
        let ghost vv = v@;
        proof {
            let m = rv.map_values(|v: Vec<Edit>| v@);
            assert(m[0] == vv);
            assert(rest@ =~= rv.drop_first());
            assert(rest@.map_values(|v: Vec<Edit>| v@) =~= m.drop_first());
            assert(all_edits(rv) == vv + all_edits(rest@));
        }
        all.append(&mut v);
        proof {
            assert(total =~= all@ + all_edits(rest@));
        }
    }
    proof {
        assert(all_edits(rest@).len() == 0) by {
            assert(rest@.map_values(|v: Vec<Edit>| v@) =~= Seq::<Seq<Edit>>::empty());
        }
        assert(all@ =~= total);
    }
    // insertion sort, stable by range
    let mut rest2 = all;
    let mut sorted: Vec<Edit> = Vec::new();
    let ghost n_total = total.len();
    let ghost mut done: int = 0;
    proof {
        assert(total.take(0) =~= Seq::<Edit>::empty());
        assert(rest2@ =~= total.skip(0));
    }
    while rest2.len() > 0
        invariant
            0 <= done <= n_total,
            n_total == total.len(),
            rest2@ =~= total.skip(done),
            sorted@ == sort_edits_spec(total.take(done)),
        decreases rest2@.len(),
    {
        let ghost rv = rest2@;
        let e = rest2.remove(0);
        proof {
            assert(rv.len() > 0);
            assert(total.skip(done)[0] == total[done]);
            assert(total[done] == e);
            assert(rest2@ =~= total.skip(done + 1)) by {
                assert(rv.drop_first() =~= total.skip(done).drop_first());
                assert(total.skip(done).drop_first() =~= total.skip(done + 1));
            }
        }
        let pos = ed_find_pos(&sorted, &e);
        let ghost sv = sorted@;
        proof {
            lemma_ed_insort_pos_bounds(sv, e);
        }
        sorted.insert(pos, e);
        proof {
            let q = total.take(done + 1);
            assert(q.drop_last() =~= total.take(done));
            assert(q.last() == total[done]);
            assert(sorted@ == sort_edits_spec(q));
        }
        proof {
            done = done + 1;
        }
    }
    proof {
        assert(total.skip(done).len() == 0);
        assert(done == n_total);
        assert(total.take(done) =~= total);
    }
    // refuse overlapping edits
    let m = sorted.len();
    if m > 0 {
        let mut i: usize = 0;
        while i < m - 1
            invariant
                1 <= m,
                m == sorted@.len(),
                i <= m,
                total == all_edits(scripts@),
                sorted@ == sort_edits_spec(total),
                forall|k: int|
                    0 <= k < i as int && k + 1 < sorted@.len() ==> (#[trigger] sorted@[k]).end
                        <= sorted@[k + 1].start,
            decreases sorted@.len() - i,
        {
            if sorted[i].end > sorted[i + 1].start {
                proof {
                    let bad = sorted@[i as int];
                    let nxt = sorted@[i as int + 1];
                    assert(bad.end > nxt.start);
                    assert(!edits_disjoint(sorted@));
                }
                return None;
            }
            i = i + 1;
        }
    }
    Some(sorted)
}

/// Copies `src[from..to]` onto the end of `out`.
fn push_range(out: &mut Vec<u8>, src: &Vec<u8>, from: usize, to: usize)
    requires
        from <= to,
        to <= src@.len(),
    ensures
        final(out)@ == old(out)@ + src@.subrange(from as int, to as int),
{
    let mut j = from;
    proof {
        assert(out@ + src@.subrange(from as int, from as int) =~= out@);
    }
    while j < to
        invariant
            from <= j <= to,
            to <= src@.len(),
            out@ == old(out)@ + src@.subrange(from as int, j as int),
        decreases to - j,
    {
        out.push(src[j]);
        proof {
            assert(old(out)@ + src@.subrange(from as int, j as int + 1) =~= out@);
        }
        j = j + 1;
    }
}

/// Applies a sorted, non-overlapping script to a byte buffer in one
/// pass; refuses exactly the scripts that are not sorted and
/// non-overlapping and within bounds.
#[verifier::rlimit(60)]
pub fn apply_edits(src: &Vec<u8>, edits: &Vec<Edit>) -> (r: Option<Vec<u8>>)
    ensures
        (r is Some) <==> edits_ok(edits@, src@.len() as int),
        r matches Some(out) ==> out@ == apply_spec(src@, edits@, 0),
{
    let n = src.len();
    let mut out: Vec<u8> = Vec::new();
    let mut pos: usize = 0;
    let mut i: usize = 0;
    proof {
        assert(edits@.skip(0) =~= edits@);
        assert(out@ =~= Seq::<u8>::empty());
    }
    while i < edits.len()
        invariant
            i <= edits@.len(),
            pos <= src@.len(),
            n == src@.len(),
            i > 0 ==> pos == edits@[i as int - 1].end,
            apply_spec(src@, edits@, 0) == out@ + apply_spec(src@, edits@.skip(i as int), pos as int),
            forall|k: int|
                0 <= k < i as int ==> (#[trigger] edits@[k]).start <= edits@[k].end && edits@[k].end
                    <= src@.len(),
            forall|k: int|
                0 <= k && k + 1 < i as int ==> (#[trigger] edits@[k]).end <= edits@[k + 1].start,
            i == 0 ==> pos == 0,
        decreases edits@.len() - i,
    {
        let e = &edits[i];
        if e.end < e.start || e.end > n {
            proof {
                assert(!edits_in_bounds(edits@, src@.len() as int)) by {
                    if edits_in_bounds(edits@, src@.len() as int) {
                        assert((edits@[i as int]).start <= edits@[i as int].end && edits@[i
                            as int].end <= src@.len());
                    }
                }
            }
            return None;
        }
        if e.start < pos {
            proof {
                assert(i > 0);
                assert(!edits_disjoint(edits@)) by {
                    if edits_disjoint(edits@) {
                        assert((edits@[i as int - 1]).end <= edits@[i as int].start);
                    }
                }
            }
            return None;
        }
        proof {
            assert(edits@.skip(i as int)[0] == edits@[i as int]);
            assert(edits@.skip(i as int).drop_first() =~= edits@.skip(i as int + 1));
        }
        let ghost out_pre = out@;
        push_range(&mut out, src, pos, e.start);
        let ghost out_mid = out@;
        push_range(&mut out, &e.insert, 0, e.insert.len());
        proof {
            assert(e.insert@.subrange(0, e.insert@.len() as int) =~= e.insert@);
            assert(out@ =~= out_pre + (src@.subrange(pos as int, e.start as int) + e.insert@));
            assert(apply_spec(src@, edits@.skip(i as int), pos as int) == src@.subrange(
                pos as int,
                e.start as int,
            ) + e.insert@ + apply_spec(src@, edits@.skip(i as int + 1), e.end as int));
            assert(out_pre + (src@.subrange(pos as int, e.start as int) + e.insert@) + apply_spec(
                src@,
                edits@.skip(i as int + 1),
                e.end as int,
            ) =~= out_pre + apply_spec(src@, edits@.skip(i as int), pos as int));
        }
        pos = e.end;
        i = i + 1;
    }
    push_range(&mut out, src, pos, n);
    proof {
        assert(edits@.skip(i as int).len() == 0);
        assert(apply_spec(src@, edits@.skip(i as int), pos as int) == src@.subrange(
            pos as int,
            src@.len() as int,
        ));
        assert(edits_ok(edits@, src@.len() as int));
    }
    Some(out)
}

/// An edit as plain values: where it starts, where it ends, what it
/// inserts.
pub open spec fn edit_triple(e: Edit) -> (usize, usize, Seq<u8>) {
    (e.start, e.end, e.insert@)
}

/// A script as plain values.
pub open spec fn edits_view(es: Seq<Edit>) -> Seq<(usize, usize, Seq<u8>)> {
    es.map_values(|e: Edit| edit_triple(e))
}

/// The text after each replacement at and beyond `from` is spliced in:
/// the bytes up to the next range, its insertion, then the rest.
pub open spec fn splice_all(src: Seq<u8>, rs: Seq<(usize, usize, Seq<u8>)>, from: int) -> Seq<u8>
    decreases rs.len(),
{
    if rs.len() == 0 {
        src.subrange(from, src.len() as int)
    } else {
        src.subrange(from, rs[0].0 as int) + rs[0].2 + splice_all(src, rs.drop_first(), rs[0].1 as int)
    }
}

/// Applying a script is splicing its plain-value view.
pub proof fn lemma_apply_is_splice(src: Seq<u8>, es: Seq<Edit>, from: int)
    ensures
        apply_spec(src, es, from) == splice_all(src, edits_view(es), from),
    decreases es.len(),
{
    if es.len() > 0 {
        assert(edits_view(es)[0] == edit_triple(es[0]));
        assert(edits_view(es).drop_first() =~= edits_view(es.drop_first()));
        lemma_apply_is_splice(src, es.drop_first(), es[0].end as int);
    }
}

/// When every entry of a sorted run compares less-or-equal to the new
/// edit, the insertion point is the end.
proof fn lemma_ed_insort_all_leq(s: Seq<Edit>, x: Edit)
    requires
        forall|k: int| 0 <= k < s.len() ==> edit_leq(#[trigger] s[k], x),
    ensures
        ed_insort_pos(s, x) == s.len(),
    decreases s.len(),
{
    if s.len() > 0 {
        assert forall|k: int| 0 <= k < s.drop_first().len() implies edit_leq(
            #[trigger] s.drop_first()[k],
            x,
        ) by {
            assert(s.drop_first()[k] == s[k + 1]);
        }
        lemma_ed_insort_all_leq(s.drop_first(), x);
    }
}

/// A script already in range order is where the sort puts it.
pub proof fn lemma_sorted_edits_identity(es: Seq<Edit>)
    requires
        forall|i: int, j: int| 0 <= i <= j < es.len() ==> edit_leq(#[trigger] es[i], #[trigger] es[j]),
    ensures
        sort_edits_spec(es) == es,
    decreases es.len(),
{
    if es.len() > 0 {
        let d = es.drop_last();
        let x = es.last();
        assert forall|i: int, j: int| 0 <= i <= j < d.len() implies edit_leq(
            #[trigger] d[i],
            #[trigger] d[j],
        ) by {
            assert(d[i] == es[i] && d[j] == es[j]);
        }
        lemma_sorted_edits_identity(d);
        assert forall|k: int| 0 <= k < d.len() implies edit_leq(#[trigger] d[k], x) by {
            assert(d[k] == es[k]);
            assert(edit_leq(es[k], es[es.len() - 1]));
        }
        lemma_ed_insort_all_leq(d, x);
        d.insert_ensures(d.len() as int, x);
        assert(sort_edits_spec(es) =~= es);
    }
}

/// Disjoint, well-bounded edits never overtake one another, even at a
/// distance.
pub proof fn lemma_edits_chain(es: Seq<Edit>, i: int, j: int)
    requires
        edits_disjoint(es),
        forall|k: int| 0 <= k < es.len() ==> (#[trigger] es[k]).start <= es[k].end,
        0 <= i < j < es.len(),
    ensures
        es[i].end <= es[j].start,
    decreases j - i,
{
    if i + 1 < j {
        lemma_edits_chain(es, i, j - 1);
    }
}

} // verus!

use vstd::prelude::*;

use crate::token::{lex_leq, lex_leq_exec, Tok};

verus! {

/// The sort key of one derive entry: the text of its last content token,
/// or nothing when the entry holds no content token at all.
pub open spec fn key_of(g: Seq<Tok>) -> Option<Seq<char>>
    decreases g.len(),
{
    if g.len() == 0 {
        None
    } else if g.last().is_content() {
        Some(g.last().text@)
    } else {
        key_of(g.drop_last())
    }
}

/// An entry with no key is a fixed point: it never moves.
pub open spec fn has_key(g: Seq<Tok>) -> bool {
    key_of(g) is Some
}

/// The key text, defaulting to the empty sequence for keyless entries;
/// only ever compared between entries that have a key.
pub open spec fn key_txt(g: Seq<Tok>) -> Seq<char> {
    match key_of(g) {
        Some(k) => k,
        None => Seq::empty(),
    }
}

/// Entry order: lexicographic on the key texts.
pub open spec fn grp_leq(a: Seq<Tok>, b: Seq<Tok>) -> bool {
    lex_leq(key_txt(a), key_txt(b))
}

/// Finds the index of the token whose text is the entry's sort key.
pub fn key_index(g: &Vec<Tok>) -> (r: Option<usize>)
    ensures
        r matches Some(i) ==> i < g@.len() && key_of(g@) == Some(g@[i as int].text@),
        r is None <==> key_of(g@) is None,
{
    let mut j: usize = g.len();
    proof {
        assert(g@.take(j as int) =~= g@);
    }
    loop
        invariant
            j <= g@.len(),
            key_of(g@) == key_of(g@.take(j as int)),
        decreases j,
    {
        if j == 0 {
            return None;
        }
        proof {
            assert(g@.take(j as int).drop_last() =~= g@.take(j as int - 1));
            assert(g@.take(j as int).last() == g@[j as int - 1]);
        }
        if g[j - 1].content() {
            return Some(j - 1);
        }
        j = j - 1;
    }
}

/// Decides `grp_leq` on two entries.
pub fn grp_leq_exec(a: &Vec<Tok>, b: &Vec<Tok>) -> (r: bool)
    ensures
        r == grp_leq(a@, b@),
{
    let ia = key_index(a);
    let ib = key_index(b);
    match (ia, ib) {
        (None, _) => {
            assert(key_txt(a@).len() == 0);
            true
        },
        (Some(i), None) => {
            assert(key_txt(b@).len() == 0);
            let n = a[i].text.as_str().unicode_len();
            assert(lex_leq(key_txt(a@), key_txt(b@)) == (key_txt(a@).len() == 0));
            n == 0
        },
        (Some(i), Some(j)) => lex_leq_exec(a[i].text.as_str(), b[j].text.as_str()),
    }
}

/// Where a new entry lands when inserted into an already sorted run:
/// after every entry that compares less-or-equal, so that entries with
/// equal keys keep their arrival order.
pub open spec fn insort_pos(s: Seq<Seq<Tok>>, x: Seq<Tok>) -> int
    decreases s.len(),
{
    if s.len() == 0 {
        0
    } else if grp_leq(s[0], x) {
        1 + insort_pos(s.drop_first(), x)
    } else {
        0
    }
}

pub proof fn lemma_insort_pos_bounds(s: Seq<Seq<Tok>>, x: Seq<Tok>)
    ensures
        0 <= insort_pos(s, x) <= s.len(),
    decreases s.len(),
{
    if s.len() > 0 && grp_leq(s[0], x) {
        lemma_insort_pos_bounds(s.drop_first(), x);
    }
}

/// One step of the stable sort: insert the next entry at its position.
pub open spec fn sort_push(s: Seq<Seq<Tok>>, x: Seq<Tok>) -> Seq<Seq<Tok>> {
    s.insert(insort_pos(s, x), x)
}

/// Stable sort of the keyed entries, in arrival order.
pub open spec fn sort_groups_spec(s: Seq<Seq<Tok>>) -> Seq<Seq<Tok>>
    decreases s.len(),
{
    if s.len() == 0 {
        Seq::empty()
    } else {
        sort_push(sort_groups_spec(s.drop_last()), s.last())
    }
}

/// The token sequences of a vector of entries.
pub open spec fn gviews(s: Seq<Vec<Tok>>) -> Seq<Seq<Tok>> {
    s.map_values(|v: Vec<Tok>| v@)
}

/// The keyed entries, in their original order.
pub open spec fn keyed_of(gs: Seq<Seq<Tok>>) -> Seq<Seq<Tok>>
    decreases gs.len(),
{
    if gs.len() == 0 {
        Seq::empty()
    } else if has_key(gs[0]) {
        seq![gs[0]] + keyed_of(gs.drop_first())
    } else {
        keyed_of(gs.drop_first())
    }
}

/// The keyless entries, in their original order.
pub open spec fn fixed_of(gs: Seq<Seq<Tok>>) -> Seq<Seq<Tok>>
    decreases gs.len(),
{
    if gs.len() == 0 {
        Seq::empty()
    } else if !has_key(gs[0]) {
        seq![gs[0]] + fixed_of(gs.drop_first())
    } else {
        fixed_of(gs.drop_first())
    }
}

pub proof fn lemma_keyed_of_push(gs: Seq<Seq<Tok>>, x: Seq<Tok>)
    ensures
        keyed_of(gs.push(x)) == if has_key(x) {
            keyed_of(gs).push(x)
        } else {
            keyed_of(gs)
        },
    decreases gs.len(),
{
    if gs.len() == 0 {
        assert(gs.push(x)[0] == x);
        assert(gs.push(x).drop_first() =~= Seq::<Seq<Tok>>::empty());
        if has_key(x) {
            assert(seq![x] + keyed_of(Seq::<Seq<Tok>>::empty()) =~= keyed_of(gs).push(x));
        }
    } else {
        assert(gs.push(x)[0] == gs[0]);
        assert(gs.push(x).drop_first() =~= gs.drop_first().push(x));
        lemma_keyed_of_push(gs.drop_first(), x);
        if has_key(gs[0]) {
            if has_key(x) {
                assert(seq![gs[0]] + keyed_of(gs.drop_first()).push(x) =~= (seq![gs[0]]
                    + keyed_of(gs.drop_first())).push(x));
            }
        }
    }
}

pub proof fn lemma_fixed_of_push(gs: Seq<Seq<Tok>>, x: Seq<Tok>)
    ensures
        fixed_of(gs.push(x)) == if !has_key(x) {
            fixed_of(gs).push(x)
        } else {
            fixed_of(gs)
        },
    decreases gs.len(),
{
    if gs.len() == 0 {
        assert(gs.push(x)[0] == x);
        assert(gs.push(x).drop_first() =~= Seq::<Seq<Tok>>::empty());
        if !has_key(x) {
            assert(seq![x] + fixed_of(Seq::<Seq<Tok>>::empty()) =~= fixed_of(gs).push(x));
        }
    } else {
        assert(gs.push(x)[0] == gs[0]);
        assert(gs.push(x).drop_first() =~= gs.drop_first().push(x));
        lemma_fixed_of_push(gs.drop_first(), x);
        if !has_key(gs[0]) {
            if !has_key(x) {
                assert(seq![gs[0]] + fixed_of(gs.drop_first()).push(x) =~= (seq![gs[0]]
                    + fixed_of(gs.drop_first())).push(x));
            }
        }
    }
}

/// Which positions hold a keyed entry.
pub open spec fn mask_of(gs: Seq<Seq<Tok>>) -> Seq<bool> {
    gs.map_values(|g: Seq<Tok>| has_key(g))
}

pub open spec fn count_true(m: Seq<bool>) -> int
    decreases m.len(),
{
    if m.len() == 0 {
        0
    } else {
        (if m[0] {
            1int
        } else {
            0int
        }) + count_true(m.drop_first())
    }
}

pub proof fn lemma_count_true_push(m: Seq<bool>, b: bool)
    ensures
        count_true(m.push(b)) == count_true(m) + if b {
            1int
        } else {
            0int
        },
    decreases m.len(),
{
    if m.len() == 0 {
        assert(m.push(b)[0] == b);
        assert(m.push(b).drop_first() =~= Seq::<bool>::empty());
        assert(count_true(m.push(b)) == (if b {
            1int
        } else {
            0int
        }) + count_true(Seq::<bool>::empty()));
    } else {
        assert(m.push(b)[0] == m[0]);
        assert(m.push(b).drop_first() =~= m.drop_first().push(b));
        lemma_count_true_push(m.drop_first(), b);
        assert(count_true(m.push(b)) == (if m[0] {
            1int
        } else {
            0int
        }) + count_true(m.drop_first().push(b)));
    }
}

pub proof fn lemma_count_true_le_len(m: Seq<bool>)
    ensures
        0 <= count_true(m) <= m.len(),
    decreases m.len(),
{
    if m.len() > 0 {
        lemma_count_true_le_len(m.drop_first());
    }
}

/// Lays the sorted keyed entries into the keyed slots and the fixed
/// points into their own slots, in order.
pub open spec fn weave(m: Seq<bool>, ks: Seq<Seq<Tok>>, fs: Seq<Seq<Tok>>) -> Seq<Seq<Tok>>
    decreases m.len(),
{
    if m.len() == 0 {
        Seq::empty()
    } else if m[0] {
        seq![ks[0]] + weave(m.drop_first(), ks.drop_first(), fs)
    } else {
        seq![fs[0]] + weave(m.drop_first(), ks, fs.drop_first())
    }
}

/// The whole reordering: keyed entries stably sorted into the keyed
/// slots, keyless entries kept at their original absolute index.
pub open spec fn reorder_spec(gs: Seq<Seq<Tok>>) -> Seq<Seq<Tok>> {
    weave(mask_of(gs), sort_groups_spec(keyed_of(gs)), fixed_of(gs))
}

/// Where `x` lands in the sorted run `keyed`.
fn find_pos(keyed: &Vec<Vec<Tok>>, x: &Vec<Tok>) -> (pos: usize)
    ensures
        pos == insort_pos(gviews(keyed@), x@),
        pos <= keyed@.len(),
{
    let ghost s = gviews(keyed@);
    let mut j: usize = 0;
    proof {
        assert(s.skip(0) =~= s);
    }
    loop
        invariant
            j <= keyed@.len(),
            s == gviews(keyed@),
            s.len() == keyed@.len(),
            insort_pos(s, x@) == j + insort_pos(s.skip(j as int), x@),
        decreases keyed@.len() - j,
    {
        if j == keyed.len() {
            proof {
                lemma_insort_pos_bounds(s.skip(j as int), x@);
            }
            return j;
        }
        proof {
            assert(s.skip(j as int)[0] == s[j as int]);
            assert(s[j as int] == keyed@[j as int]@);
            assert(s.skip(j as int).drop_first() =~= s.skip(j as int + 1));
        }
        let le = grp_leq_exec(&keyed[j], x);
        if !le {
            return j;
        }
        j = j + 1;
    }
}

/// Returns the entries reordered: the keyed ones stably sorted by key,
/// the keyless ones left at their original absolute index.
pub fn sorted_groups(groups: Vec<Vec<Tok>>) -> (r: Vec<Vec<Tok>>)
    ensures
        gviews(r@) == reorder_spec(gviews(groups@)),
{
    let ghost orig = gviews(groups@);
    let mut rest = groups;
    let mut keyed: Vec<Vec<Tok>> = Vec::new();
    let mut fixed: Vec<Vec<Tok>> = Vec::new();
    let mut mask: Vec<bool> = Vec::new();
    proof {
        assert(gviews(rest@) =~= orig.skip(0));
        assert(orig.take(0) =~= Seq::<Seq<Tok>>::empty());
        assert(mask@ =~= mask_of(orig.take(0)));
        assert(gviews(keyed@) =~= sort_groups_spec(keyed_of(orig.take(0))));
        assert(gviews(fixed@) =~= fixed_of(orig.take(0)));
    }
    while rest.len() > 0
        invariant
            mask@.len() <= orig.len(),
            gviews(rest@) =~= orig.skip(mask@.len() as int),
            mask@ == mask_of(orig.take(mask@.len() as int)),
            gviews(keyed@) == sort_groups_spec(keyed_of(orig.take(mask@.len() as int))),
            gviews(fixed@) == fixed_of(orig.take(mask@.len() as int)),
            keyed@.len() + fixed@.len() == mask@.len(),
            count_true(mask@) == keyed@.len(),
        decreases rest@.len(),
    {
        let ghost k = mask@.len() as int;
        let ghost rv = rest@;
        let g = rest.remove(0);
        let ghost gv = g@;
        proof {
            assert(rv.len() > 0);
            assert(gviews(rv).len() == rv.len());
            assert(orig.skip(k) == gviews(rv));
            assert(orig.skip(k)[0] == orig[k]);
            assert(gviews(rv)[0] == rv[0]@);
            assert(orig[k] == gv);
            assert(gviews(rest@) =~= orig.skip(k + 1)) by {
                assert(rest@ =~= rv.remove(0));
                assert(gviews(rest@) =~= gviews(rv).drop_first());
                assert(orig.skip(k).drop_first() =~= orig.skip(k + 1));
            }
            assert(orig.take(k + 1) =~= orig.take(k).push(orig[k]));
            lemma_keyed_of_push(orig.take(k), gv);
            lemma_fixed_of_push(orig.take(k), gv);
        }
        let ki = key_index(&g);
        let is_keyed = ki.is_some();
        mask.push(is_keyed);
        proof {
            assert(mask@ =~= mask_of(orig.take(k + 1))) by {
                assert(mask_of(orig.take(k + 1)) =~= mask_of(orig.take(k)).push(has_key(gv)));
            }
            lemma_count_true_push(mask_of(orig.take(k)), has_key(gv));
            assert(keyed_of(orig.take(k + 1)) == if has_key(gv) {
                keyed_of(orig.take(k)).push(gv)
            } else {
                keyed_of(orig.take(k))
            });
            assert(fixed_of(orig.take(k + 1)) == if !has_key(gv) {
                fixed_of(orig.take(k)).push(gv)
            } else {
                fixed_of(orig.take(k))
            });
        }
        if is_keyed {
            let pos = find_pos(&keyed, &g);
            let ghost kv_old = gviews(keyed@);
            keyed.insert(pos, g);
            proof {
                lemma_insort_pos_bounds(kv_old, gv);
                assert(gviews(keyed@) =~= kv_old.insert(pos as int, gv));
                let q = keyed_of(orig.take(k)).push(gv);
                assert(q.drop_last() =~= keyed_of(orig.take(k)));
                assert(q.last() == gv);
                assert(sort_groups_spec(q) == sort_push(sort_groups_spec(keyed_of(orig.take(k))), gv));
                assert(gviews(keyed@) == sort_groups_spec(keyed_of(orig.take(k + 1))));
            }
        } else {
            fixed.push(g);
            proof {
                assert(gviews(fixed@) =~= fixed_of(orig.take(k)).push(gv));
            }
        }
    }
    proof {
        assert(orig.skip(mask@.len() as int).len() == 0);
        assert(mask@.len() == orig.len());
        assert(orig.take(orig.len() as int) =~= orig);
    }
    let ghost m0 = mask@;
    let ghost ks0 = gviews(keyed@);
    let ghost fs0 = gviews(fixed@);
    let n = mask.len();
    let mut out: Vec<Vec<Tok>> = Vec::new();
    let mut i: usize = 0;
    proof {
        assert(m0.skip(0) =~= m0);
        assert(gviews(out@) + weave(m0, ks0, fs0) =~= weave(m0, ks0, fs0));
    }
    while i < n
        invariant
            i <= n,
            n == m0.len(),
            mask@ == m0,
            weave(m0, ks0, fs0) == gviews(out@) + weave(
                m0.skip(i as int),
                gviews(keyed@),
                gviews(fixed@),
            ),
            count_true(m0.skip(i as int)) == keyed@.len(),
            m0.skip(i as int).len() == keyed@.len() + fixed@.len(),
        decreases n - i,
    {
        let ghost ks = gviews(keyed@);
        let ghost fs = gviews(fixed@);
        proof {
            assert(m0.skip(i as int)[0] == m0[i as int]);
            assert(m0.skip(i as int).drop_first() =~= m0.skip(i as int + 1));
            lemma_count_true_le_len(m0.skip(i as int + 1));
        }
        if mask[i] {
            let g = keyed.remove(0);
            out.push(g);
            proof {
                assert(gviews(keyed@) =~= ks.drop_first());
                assert(ks[0] == g@);
                assert(gviews(out@) + weave(m0.skip(i as int + 1), gviews(keyed@), fs) =~= weave(
                    m0,
                    ks0,
                    fs0,
                ));
            }
        } else {
            let g = fixed.remove(0);
            out.push(g);
            proof {
                assert(gviews(fixed@) =~= fs.drop_first());
                assert(fs[0] == g@);
                assert(gviews(out@) + weave(m0.skip(i as int + 1), ks, gviews(fixed@)) =~= weave(
                    m0,
                    ks0,
                    fs0,
                ));
            }
        }
        i = i + 1;
    }
    proof {
        assert(m0.skip(n as int).len() == 0);
        assert(gviews(out@) =~= weave(m0, ks0, fs0));
    }
    out
}

} // verus!

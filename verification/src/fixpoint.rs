//! Sorting a file that is sorted already changes nothing.

use vstd::prelude::*;

use crate::blocks::{
    block_at, block_nonempty, blocks_from, comment_run_end, lemma_blank_run_end,
    lemma_comment_run_end, lemma_nonblank_run_end, lemma_run_ends_bounds, nonblank_run_end,
    BlockView,
};
use crate::gitignore::{
    block_lines, law_sorting_keeps_lines_and_sections, lemma_block_layout, lemma_render_prepend,
    render, same_blank_layout, sorted_lines,
};
use crate::patterns::{
    concat, group_key, groups_of, keys_sorted, law_groups_cover_lines, law_sort_patterns_permutes,
    law_sorted_groups_are_ordered, lemma_insert_multiset, lemma_lex_refl, sort_groups,
    sort_patterns,
};
use crate::text::{is_blank, is_comment, lex_le, sort_key};

verus! {

/// The key a line gives the group it closes.
pub open spec fn line_key(x: Seq<char>) -> Seq<char> {
    if is_blank(x) {
        Seq::empty()
    } else {
        sort_key(x)
    }
}

/// The keys of the lines of `q` that are not comments, in order.
pub open spec fn closing_keys(q: Seq<Seq<char>>) -> Seq<Seq<char>>
    decreases q.len(),
{
    if q.len() == 0 {
        Seq::empty()
    } else if is_comment(q.last()) {
        closing_keys(q.drop_last())
    } else {
        closing_keys(q.drop_last()).push(line_key(q.last()))
    }
}

/// The keys of the groups of `q`, read off its lines.
pub open spec fn group_keys_of(q: Seq<Seq<char>>) -> Seq<Seq<char>> {
    if q.len() > 0 && is_comment(q.last()) {
        closing_keys(q).push(Seq::empty())
    } else {
        closing_keys(q)
    }
}

/// Keys in non-decreasing order.
pub open spec fn in_order(ks: Seq<Seq<char>>) -> bool {
    forall|i: int, j: int| 0 <= i < j < ks.len() ==> lex_le(#[trigger] ks[i], #[trigger] ks[j])
}

/// Comments, then one line that is not a comment.
pub open spec fn closed_group(g: Seq<Seq<char>>) -> bool {
    &&& g.len() > 0
    &&& !is_comment(g.last())
    &&& forall|k: int| 0 <= k < g.len() - 1 ==> is_comment(#[trigger] g[k])
}

/// Comments only.
pub open spec fn open_group(g: Seq<Seq<char>>) -> bool {
    &&& g.len() > 0
    &&& forall|k: int| 0 <= k < g.len() ==> is_comment(#[trigger] g[k])
}

/// Every group is closed or open.
pub open spec fn well_grouped(gs: Seq<Seq<Seq<char>>>) -> bool {
    forall|i: int| 0 <= i < gs.len() ==> closed_group(#[trigger] gs[i]) || open_group(gs[i])
}

/// The keys of the closed groups of `gs`, in order.
pub open spec fn closed_keys(gs: Seq<Seq<Seq<char>>>) -> Seq<Seq<char>>
    decreases gs.len(),
{
    if gs.len() == 0 {
        Seq::empty()
    } else if closed_group(gs.last()) {
        closed_keys(gs.drop_last()).push(group_key(gs.last()))
    } else {
        closed_keys(gs.drop_last())
    }
}

proof fn lemma_blank_not_comment(x: Seq<char>)
    ensures
        is_blank(x) ==> !is_comment(x),
{
}

proof fn lemma_group_key_closed(g: Seq<Seq<char>>)
    requires
        closed_group(g),
    ensures
        group_key(g) == line_key(g.last()),
    decreases g.len(),
{
    if g.len() > 1 {
        assert(is_comment(g[0]));
        let t = g.drop_first();
        assert(t.last() == g.last());
        assert forall|k: int| 0 <= k < t.len() - 1 implies is_comment(#[trigger] t[k]) by {
            assert(t[k] == g[k + 1]);
        }
        lemma_group_key_closed(t);
    } else {
        lemma_blank_not_comment(g[0]);
        assert(g[0] == g.last());
        assert(g.drop_first() =~= Seq::<Seq<char>>::empty());
        assert(group_key(g.drop_first()) == Seq::<char>::empty());
    }
}

proof fn lemma_group_key_open(g: Seq<Seq<char>>)
    requires
        forall|k: int| 0 <= k < g.len() ==> is_comment(#[trigger] g[k]),
    ensures
        group_key(g) == Seq::<char>::empty(),
    decreases g.len(),
{
    if g.len() > 0 {
        assert(is_comment(g[0]));
        let t = g.drop_first();
        assert forall|k: int| 0 <= k < t.len() implies is_comment(#[trigger] t[k]) by {
            assert(t[k] == g[k + 1]);
        }
        lemma_group_key_open(t);
    }
}

/// The groups of `p` are closed, but the last, which is open when `p` ends
/// with a comment.
proof fn lemma_groups_shape(p: Seq<Seq<char>>)
    ensures
        well_grouped(groups_of(p)),
        forall|i: int| 0 <= i < groups_of(p).len() - 1 ==> closed_group(#[trigger] groups_of(p)[i]),
        p.len() > 0 ==> groups_of(p).len() > 0 && (is_comment(p.last()) ==> open_group(
            groups_of(p).last(),
        )) && (!is_comment(p.last()) ==> closed_group(groups_of(p).last())),
    decreases p.len(),
{
    if p.len() > 0 {
        let q = p.drop_last();
        lemma_groups_shape(q);
        let g = groups_of(q);
        let x = p.last();
        if q.len() > 0 && is_comment(q.last()) && g.len() > 0 {
            let o = g.last();
            let r = g.drop_last().push(o.push(x));
            assert(groups_of(p) == r);
            assert forall|k: int| 0 <= k < o.push(x).len() - 1 implies is_comment(
                #[trigger] o.push(x)[k],
            ) by {
                assert(o.push(x)[k] == o[k]);
            }
            assert forall|i: int| 0 <= i < r.len() implies closed_group(#[trigger] r[i])
                || open_group(r[i]) by {
                if i < r.len() - 1 {
                    assert(r[i] == g[i]);
                }
            }
            assert forall|i: int| 0 <= i < r.len() - 1 implies closed_group(#[trigger] r[i]) by {
                assert(r[i] == g[i]);
            }
        } else {
            let r = g.push(seq![x]);
            assert(groups_of(p) == r);
            assert forall|i: int| 0 <= i < r.len() implies closed_group(#[trigger] r[i])
                || open_group(r[i]) by {
                if i < r.len() - 1 {
                    assert(r[i] == g[i]);
                } else {
                    assert(r[i] == seq![x]);
                }
            }
            assert forall|i: int| 0 <= i < r.len() - 1 implies closed_group(#[trigger] r[i]) by {
                assert(r[i] == g[i]);
                if q.len() > 0 {
                    assert(!is_comment(q.last()));
                }
            }
        }
    }
}

/// The keys of the groups of `q` are what its lines give.
proof fn lemma_group_keys(q: Seq<Seq<char>>)
    ensures
        groups_of(q).map_values(|g: Seq<Seq<char>>| group_key(g)) == group_keys_of(q),
    decreases q.len(),
{
    if q.len() > 0 {
        let p = q.drop_last();
        let x = q.last();
        lemma_group_keys(p);
        lemma_groups_shape(p);
        lemma_groups_shape(q);
        let g = groups_of(p);
        let gk = g.map_values(|g: Seq<Seq<char>>| group_key(g));
        let r = groups_of(q);
        if p.len() > 0 && is_comment(p.last()) && g.len() > 0 {
            let o = g.last();
            let m = o.push(x);
            assert(r == g.drop_last().push(m));
            if is_comment(x) {
                lemma_group_key_open(m);
                lemma_group_key_open(o);
            } else {
                lemma_group_key_closed(m);
                lemma_group_key_open(o);
            }
            assert(closing_keys(p).push(Seq::empty()) == gk);
            assert(r.map_values(|g: Seq<Seq<char>>| group_key(g)) =~= gk.drop_last().push(
                group_key(m),
            ));
            assert(gk.drop_last() =~= closing_keys(p));
        } else {
            let m = seq![x];
            assert(r == g.push(m));
            if is_comment(x) {
                lemma_group_key_open(m);
            } else {
                lemma_group_key_closed(m);
            }
            assert(r.map_values(|g: Seq<Seq<char>>| group_key(g)) =~= gk.push(group_key(m)));
        }
    } else {
        assert(groups_of(q).map_values(|g: Seq<Seq<char>>| group_key(g)) =~= Seq::<
            Seq<char>,
        >::empty());
    }
}

proof fn lemma_sort_identity(gs: Seq<Seq<Seq<char>>>)
    requires
        keys_sorted(gs),
    ensures
        sort_groups(gs) == gs,
    decreases gs.len(),
{
    if gs.len() > 0 {
        let t = gs.drop_last();
        assert(keys_sorted(t)) by {
            assert forall|i: int, j: int| 0 <= i < j < t.len() implies lex_le(
                group_key(#[trigger] t[i]),
                group_key(#[trigger] t[j]),
            ) by {
                assert(t[i] == gs[i] && t[j] == gs[j]);
            }
        }
        lemma_sort_identity(t);
        if t.len() > 0 {
            assert(lex_le(group_key(gs[t.len() - 1]), group_key(gs[gs.len() - 1])));
        }
        assert(t.push(gs.last()) =~= gs);
    }
}

/// Lines whose group keys are in order are left as they are.
proof fn lemma_sorted_form_fixed(q: Seq<Seq<char>>)
    requires
        in_order(group_keys_of(q)),
    ensures
        sort_patterns(q) == q,
{
    lemma_group_keys(q);
    let g = groups_of(q);
    assert(keys_sorted(g)) by {
        assert forall|i: int, j: int| 0 <= i < j < g.len() implies lex_le(
            group_key(#[trigger] g[i]),
            group_key(#[trigger] g[j]),
        ) by {
            let ks = group_keys_of(q);
            assert(ks[i] == group_key(g[i]));
            assert(ks[j] == group_key(g[j]));
        }
    }
    lemma_sort_identity(g);
    law_groups_cover_lines(q);
}

proof fn lemma_closing_keys_concat(a: Seq<Seq<char>>, b: Seq<Seq<char>>)
    ensures
        closing_keys(a + b) == closing_keys(a) + closing_keys(b),
    decreases b.len(),
{
    if b.len() == 0 {
        assert(a + b =~= a);
        assert(closing_keys(a) + closing_keys(b) =~= closing_keys(a));
    } else {
        lemma_closing_keys_concat(a, b.drop_last());
        assert((a + b).drop_last() =~= a + b.drop_last());
        assert((a + b).last() == b.last());
        assert(closing_keys(a) + closing_keys(b.drop_last()).push(line_key(b.last())) =~= (
        closing_keys(a) + closing_keys(b.drop_last())).push(line_key(b.last())));
    }
}

proof fn lemma_closing_keys_of_group(g: Seq<Seq<char>>)
    requires
        closed_group(g) || open_group(g),
    ensures
        closing_keys(g) == if closed_group(g) {
            seq![group_key(g)]
        } else {
            Seq::<Seq<char>>::empty()
        },
{
    lemma_all_comments_no_keys(g.drop_last());
    if closed_group(g) {
        lemma_group_key_closed(g);
        assert forall|k: int| 0 <= k < g.drop_last().len() implies is_comment(
            #[trigger] g.drop_last()[k],
        ) by {
            assert(g.drop_last()[k] == g[k]);
        }
        assert(closing_keys(g.drop_last()).push(line_key(g.last())) =~= seq![line_key(g.last())]);
    } else {
        assert(is_comment(g[g.len() - 1]));
        assert forall|k: int| 0 <= k < g.drop_last().len() implies is_comment(
            #[trigger] g.drop_last()[k],
        ) by {
            assert(g.drop_last()[k] == g[k]);
        }
    }
}

proof fn lemma_all_comments_no_keys(g: Seq<Seq<char>>)
    ensures
        (forall|k: int| 0 <= k < g.len() ==> is_comment(#[trigger] g[k])) ==> closing_keys(g)
            == Seq::<Seq<char>>::empty(),
    decreases g.len(),
{
    if g.len() > 0 {
        lemma_all_comments_no_keys(g.drop_last());
        if forall|k: int| 0 <= k < g.len() ==> is_comment(#[trigger] g[k]) {
            assert(is_comment(g[g.len() - 1]));
            assert forall|k: int| 0 <= k < g.drop_last().len() implies is_comment(
                #[trigger] g.drop_last()[k],
            ) by {
                assert(g.drop_last()[k] == g[k]);
            }
        }
    }
}

/// The group keys of the groups laid one after the other.
proof fn lemma_concat_keys(gs: Seq<Seq<Seq<char>>>)
    requires
        well_grouped(gs),
    ensures
        closing_keys(concat(gs)) == closed_keys(gs),
        gs.len() > 0 ==> concat(gs).len() > 0 && (is_comment(concat(gs).last()) == open_group(
            gs.last(),
        )),
    decreases gs.len(),
{
    if gs.len() > 0 {
        let t = gs.drop_last();
        let g = gs.last();
        assert(well_grouped(t)) by {
            assert forall|i: int| 0 <= i < t.len() implies closed_group(#[trigger] t[i])
                || open_group(t[i]) by {
                assert(t[i] == gs[i]);
            }
        }
        assert(closed_group(gs[gs.len() - 1]) || open_group(gs[gs.len() - 1]));
        lemma_concat_keys(t);
        lemma_closing_keys_concat(concat(t), g);
        lemma_closing_keys_of_group(g);
        assert((concat(t) + g).last() == g.last());
        if closed_group(g) {
            assert(closed_keys(t) + seq![group_key(g)] =~= closed_keys(t).push(group_key(g)));
        } else {
            assert(closed_keys(t) + Seq::<Seq<char>>::empty() =~= closed_keys(t));
            assert(is_comment(g[g.len() - 1]));
        }
    }
}

proof fn lemma_lex_le_empty(k: Seq<char>)
    requires
        lex_le(k, Seq::empty()),
    ensures
        k == Seq::<char>::empty(),
{
}

/// Keys of closed groups come from the groups, in their order.
proof fn lemma_closed_keys_in_order(gs: Seq<Seq<Seq<char>>>)
    requires
        keys_sorted(gs),
    ensures
        in_order(closed_keys(gs)),
        forall|m: int|
            0 <= m < closed_keys(gs).len() ==> exists|i: int|
                0 <= i < gs.len() && #[trigger] closed_keys(gs)[m] == group_key(gs[i]),
    decreases gs.len(),
{
    if gs.len() > 0 {
        let t = gs.drop_last();
        assert(keys_sorted(t)) by {
            assert forall|i: int, j: int| 0 <= i < j < t.len() implies lex_le(
                group_key(#[trigger] t[i]),
                group_key(#[trigger] t[j]),
            ) by {
                assert(t[i] == gs[i] && t[j] == gs[j]);
            }
        }
        lemma_closed_keys_in_order(t);
        let ct = closed_keys(t);
        let c = closed_keys(gs);
        assert forall|m: int| 0 <= m < ct.len() implies exists|i: int|
            0 <= i < t.len() && #[trigger] ct[m] == group_key(t[i]) && t[i] == gs[i] by {
            let i = choose|i: int| 0 <= i < t.len() && #[trigger] ct[m] == group_key(t[i]);
            assert(t[i] == gs[i]);
        }
        if closed_group(gs.last()) {
            let k = group_key(gs.last());
            assert(c == ct.push(k));
            assert forall|i: int, j: int| 0 <= i < j < c.len() implies lex_le(
                #[trigger] c[i],
                #[trigger] c[j],
            ) by {
                if j == ct.len() {
                    let a = choose|a: int| 0 <= a < t.len() && #[trigger] ct[i] == group_key(t[a])
                        && t[a] == gs[a];
                    assert(lex_le(group_key(gs[a]), group_key(gs[gs.len() - 1])));
                } else {
                    assert(c[i] == ct[i] && c[j] == ct[j]);
                }
            }
            assert forall|m: int| 0 <= m < c.len() implies exists|i: int|
                0 <= i < gs.len() && #[trigger] c[m] == group_key(gs[i]) by {
                if m == ct.len() {
                    assert(c[m] == group_key(gs[gs.len() - 1]));
                } else {
                    assert(c[m] == ct[m]);
                    let a = choose|a: int| 0 <= a < t.len() && #[trigger] ct[m] == group_key(t[a])
                        && t[a] == gs[a];
                    assert(c[m] == group_key(gs[a]));
                }
            }
        } else {
            assert(c == ct);
            assert forall|m: int| 0 <= m < c.len() implies exists|i: int|
                0 <= i < gs.len() && #[trigger] c[m] == group_key(gs[i]) by {
                let a = choose|a: int| 0 <= a < t.len() && #[trigger] ct[m] == group_key(t[a])
                    && t[a] == gs[a];
                assert(c[m] == group_key(gs[a]));
            }
        }
    }
}

proof fn lemma_sort_multiset(gs: Seq<Seq<Seq<char>>>)
    ensures
        sort_groups(gs).to_multiset() =~= gs.to_multiset(),
    decreases gs.len(),
{
    broadcast use vstd::seq_lib::group_to_multiset_ensures;

    if gs.len() > 0 {
        lemma_sort_multiset(gs.drop_last());
        lemma_insert_multiset(sort_groups(gs.drop_last()), gs.last());
        assert(gs =~= gs.drop_last().push(gs.last()));
    } else {
        assert(sort_groups(gs) =~= gs);
    }
}

/// The sorted pattern lines have their group keys in order.
pub proof fn lemma_sorted_patterns_in_order(p: Seq<Seq<char>>)
    ensures
        in_order(group_keys_of(sort_patterns(p))),
{
    broadcast use vstd::seq_lib::group_to_multiset_ensures;

    let gs = groups_of(p);
    let sg = sort_groups(gs);
    lemma_groups_shape(p);
    lemma_sort_multiset(gs);
    assert(well_grouped(sg)) by {
        assert forall|i: int| 0 <= i < sg.len() implies closed_group(#[trigger] sg[i]) || open_group(
            sg[i],
        ) by {
            assert(sg.to_multiset().count(sg[i]) > 0);
            assert(gs.contains(sg[i]));
            let j = choose|j: int| 0 <= j < gs.len() && gs[j] == sg[i];
            assert(closed_group(gs[j]) || open_group(gs[j]));
        }
    }
    law_sorted_groups_are_ordered(gs);
    lemma_concat_keys(sg);
    lemma_closed_keys_in_order(sg);
    let s = concat(sg);
    let ck = closed_keys(sg);
    if s.len() > 0 && is_comment(s.last()) {
        let k = group_keys_of(s);
        assert(k == ck.push(Seq::empty()));
        let last = sg[sg.len() - 1];
        assert(open_group(last));
        lemma_group_key_open(last);
        assert forall|i: int, j: int| 0 <= i < j < k.len() implies lex_le(
            #[trigger] k[i],
            #[trigger] k[j],
        ) by {
            if j == ck.len() {
                let a = choose|a: int| 0 <= a < sg.len() && #[trigger] ck[i] == group_key(sg[a]);
                if a < sg.len() - 1 {
                    assert(lex_le(group_key(sg[a]), group_key(sg[sg.len() - 1])));
                }
                lemma_lex_le_empty(ck[i]);
                lemma_lex_refl(Seq::<char>::empty());
            } else {
                assert(k[i] == ck[i] && k[j] == ck[j]);
            }
        }
    }
}

/// Sorting the pattern lines of a section twice gives what sorting once
/// gives.
pub proof fn law_sort_patterns_idempotent(p: Seq<Seq<char>>)
    ensures
        sort_patterns(sort_patterns(p)) == sort_patterns(p),
{
    lemma_sorted_patterns_in_order(p);
    lemma_sorted_form_fixed(sort_patterns(p));
}

/// Dropping leading comments from lines whose group keys are in order
/// leaves lines that sorting leaves alone.
pub proof fn lemma_drop_leading_comments(s: Seq<Seq<char>>, c: int)
    requires
        in_order(group_keys_of(s)),
        0 <= c < s.len(),
        forall|k: int| 0 <= k < c ==> is_comment(#[trigger] s[k]),
    ensures
        sort_patterns(s.skip(c)) == s.skip(c),
{
    let a = s.take(c);
    let b = s.skip(c);
    assert(s =~= a + b);
    lemma_closing_keys_concat(a, b);
    assert forall|k: int| 0 <= k < a.len() implies is_comment(#[trigger] a[k]) by {
        assert(a[k] == s[k]);
    }
    lemma_all_comments_no_keys(a);
    assert(closing_keys(a) + closing_keys(b) =~= closing_keys(b));
    assert(b.last() == s.last());
    assert(group_keys_of(b) == group_keys_of(s));
    lemma_sorted_form_fixed(b);
}


proof fn lemma_comments_fixed(c: Seq<Seq<char>>)
    requires
        forall|k: int| 0 <= k < c.len() ==> is_comment(#[trigger] c[k]),
    ensures
        sort_patterns(c) == c,
{
    lemma_all_comments_no_keys(c);
    lemma_sorted_form_fixed(c);
}

pub proof fn lemma_render_front(ls: Seq<Seq<char>>, i: int)
    requires
        0 <= i < ls.len(),
    ensures
        render(blocks_from(ls, i)) == block_lines(block_at(ls, i).0) + render(
            blocks_from(ls, block_at(ls, i).1),
        ),
{
    let (b, t) = block_at(ls, i);
    if block_nonempty(b) {
        lemma_render_prepend(b, blocks_from(ls, t));
    } else {
        let e = Seq::<Seq<char>>::empty();
        assert(b.patterns =~= e);
        assert(groups_of(e) =~= Seq::<Seq<Seq<char>>>::empty());
        assert(sort_groups(groups_of(e)) =~= Seq::<Seq<Seq<char>>>::empty());
        assert(concat(sort_groups(groups_of(e))) =~= e);
        assert(block_lines(b) =~= e);
        assert(block_lines(b) + render(blocks_from(ls, t)) =~= render(blocks_from(ls, t)));
    }
}

/// Where a section's lines stand sorted in `x`, and blank lines are where
/// they were, `x` has a section at the same place, and sorting it gives the
/// same lines.
proof fn lemma_block_fixed(ls: Seq<Seq<char>>, x: Seq<Seq<char>>, i: int)
    requires
        0 <= i < ls.len(),
        same_blank_layout(x, ls),
        block_at(ls, i).1 <= ls.len(),
        x.subrange(i, block_at(ls, i).1) == block_lines(block_at(ls, i).0),
    ensures
        block_at(x, i).1 == block_at(ls, i).1,
        block_lines(block_at(x, i).0) == block_lines(block_at(ls, i).0),
{
    lemma_run_ends_bounds(ls, i);
    let h = comment_run_end(ls, i);
    lemma_run_ends_bounds(ls, h);
    if h >= ls.len() || is_blank(ls[h]) {
        lemma_comment_block_fixed(ls, x, i);
    } else {
        lemma_pattern_block_fixed(ls, x, i);
    }
}

proof fn lemma_comment_block_fixed(ls: Seq<Seq<char>>, x: Seq<Seq<char>>, i: int)
    requires
        0 <= i < ls.len(),
        same_blank_layout(x, ls),
        block_at(ls, i).1 <= ls.len(),
        x.subrange(i, block_at(ls, i).1) == block_lines(block_at(ls, i).0),
        comment_run_end(ls, i) >= ls.len() || is_blank(ls[comment_run_end(ls, i)]),
    ensures
        block_at(x, i).1 == block_at(ls, i).1,
        block_lines(block_at(x, i).0) == block_lines(block_at(ls, i).0),
{
    lemma_run_ends_bounds(ls, i);
    let h = comment_run_end(ls, i);
    lemma_run_ends_bounds(ls, h);
    let (b, t) = block_at(ls, i);
    let n = ls.len();
    if t < n {
        assert(!is_blank(ls[t]));
        assert(!is_blank(x[t]));
    }
    let c = ls.subrange(i, h);
    assert forall|k: int| 0 <= k < c.len() implies is_comment(#[trigger] c[k]) by {
        assert(c[k] == ls[i + k]);
    }
    lemma_comments_fixed(c);
    let bl = ls.subrange(h, t);
    assert(block_lines(b) =~= c + bl);
    let xs = x.subrange(i, t);
    assert forall|k: int| i <= k < h implies is_comment(#[trigger] x[k]) by {
        assert(x[k] == xs[k - i]);
        assert(xs[k - i] == c[k - i]);
    }
    assert forall|k: int| h <= k < t implies is_blank(#[trigger] x[k]) by {
        assert(x[k] == xs[k - i]);
        assert(xs[k - i] == bl[k - h]);
        assert(bl[k - h] == ls[k]);
    }
    if h < n {
        assert(h < t);
        assert(is_blank(x[h]));
        lemma_blank_not_comment(x[h]);
    }
    lemma_comment_run_end(x, i, h);
    lemma_blank_run_end(x, h, t);
    let (b2, t2) = block_at(x, i);
    assert(b2.patterns =~= c) by {
        assert forall|k: int| 0 <= k < c.len() implies b2.patterns[k] == c[k] by {
            assert(xs[k] == c[k]);
        }
    }
    assert(b2.trailing_blanks =~= bl) by {
        assert forall|k: int| 0 <= k < bl.len() implies b2.trailing_blanks[k] == bl[k] by {
            assert(xs[h - i + k] == bl[k]);
        }
    }
    assert(block_lines(b2) =~= c + bl);
}

proof fn lemma_pattern_block_fixed(ls: Seq<Seq<char>>, x: Seq<Seq<char>>, i: int)
    requires
        0 <= i < ls.len(),
        same_blank_layout(x, ls),
        block_at(ls, i).1 <= ls.len(),
        x.subrange(i, block_at(ls, i).1) == block_lines(block_at(ls, i).0),
        comment_run_end(ls, i) < ls.len(),
        !is_blank(ls[comment_run_end(ls, i)]),
    ensures
        block_at(x, i).1 == block_at(ls, i).1,
        block_lines(block_at(x, i).0) == block_lines(block_at(ls, i).0),
{
    broadcast use vstd::seq_lib::group_to_multiset_ensures;

    lemma_run_ends_bounds(ls, i);
    let h = comment_run_end(ls, i);
    lemma_run_ends_bounds(ls, h);
    let e = nonblank_run_end(ls, h);
    lemma_run_ends_bounds(ls, e);
    let (b, t) = block_at(ls, i);
    let n = ls.len();
    if t < n {
        assert(!is_blank(ls[t]));
        assert(!is_blank(x[t]));
    }
    let hd = ls.subrange(i, h);
    let p = ls.subrange(h, e);
    let bl = ls.subrange(e, t);
    let s = sort_patterns(p);
    law_sort_patterns_permutes(p);
    assert(s.len() == s.to_multiset().len());
    assert(p.len() == p.to_multiset().len());
    let xs = x.subrange(i, t);
    assert(block_lines(b) =~= hd + s + bl);
    assert(xs =~= hd + s + bl);
    let c = lemma_leading_comments(p, s, h, ls);
    lemma_sorted_patterns_in_order(p);
    lemma_drop_leading_comments(s, c);
    let h2 = h + c;
    assert forall|k: int| i <= k < h2 implies is_comment(#[trigger] x[k]) by {
        assert(x[k] == xs[k - i]);
        if k < h {
            assert((hd + s + bl)[k - i] == hd[k - i]);
            assert(hd[k - i] == ls[k]);
        } else {
            assert((hd + s + bl)[k - i] == s[k - h]);
        }
    }
    assert(x[h2] == s[c]) by {
        assert(x[h2] == xs[h2 - i]);
        assert((hd + s + bl)[h2 - i] == s[c]);
    }
    lemma_comment_run_end(x, i, h2);
    assert forall|k: int| h2 <= k < e implies !is_blank(#[trigger] x[k]) by {
        assert(x[k] == xs[k - i]);
        assert((hd + s + bl)[k - i] == s[k - h]);
    }
    if e < n {
        assert(is_blank(ls[e]));
        assert(e < t);
        assert(x[e] == xs[e - i]);
        assert((hd + s + bl)[e - i] == bl[0]);
    }
    assert forall|k: int| e <= k < t implies is_blank(#[trigger] x[k]) by {
        assert(x[k] == xs[k - i]);
        assert((hd + s + bl)[k - i] == bl[k - e]);
        assert(bl[k - e] == ls[k]);
    }
    lemma_nonblank_run_end(x, h2, e);
    lemma_blank_run_end(x, e, t);
    let (b2, t2) = block_at(x, i);
    assert(b2.header_comments =~= hd + s.take(c)) by {
        assert forall|k: int| 0 <= k < h2 - i implies b2.header_comments[k] == (hd + s.take(
            c,
        ))[k] by {
            assert(b2.header_comments[k] == x[i + k]);
            assert(x[i + k] == xs[k]);
        }
    }
    assert(b2.patterns =~= s.skip(c)) by {
        assert forall|k: int| 0 <= k < e - h2 implies b2.patterns[k] == s.skip(c)[k] by {
            assert(b2.patterns[k] == x[h2 + k]);
            assert(x[h2 + k] == xs[h2 + k - i]);
            assert((hd + s + bl)[h2 + k - i] == s[c + k]);
        }
    }
    assert(b2.trailing_blanks =~= bl) by {
        assert forall|k: int| 0 <= k < t - e implies b2.trailing_blanks[k] == bl[k] by {
            assert(b2.trailing_blanks[k] == x[e + k]);
            assert(x[e + k] == xs[e + k - i]);
        }
    }
    assert(s.take(c) + s.skip(c) =~= s);
    assert(block_lines(b2) =~= hd + s.take(c) + s.skip(c) + bl);
}

/// The sorted patterns of a section start with a run of comments that
/// ends before them, and none of them is blank.
proof fn lemma_leading_comments(p: Seq<Seq<char>>, s: Seq<Seq<char>>, h: int, ls: Seq<Seq<char>>) -> (c: int)
    requires
        0 <= h < nonblank_run_end(ls, h) <= ls.len(),
        p == ls.subrange(h, nonblank_run_end(ls, h)),
        !is_comment(ls[h]),
        s == sort_patterns(p),
    ensures
        c == comment_run_end(s, 0),
        0 <= c < s.len(),
        s.len() == p.len(),
        forall|k: int| 0 <= k < c ==> is_comment(#[trigger] s[k]),
        !is_comment(s[c]),
        forall|k: int| 0 <= k < s.len() ==> !is_blank(#[trigger] s[k]),
{
    broadcast use vstd::seq_lib::group_to_multiset_ensures;

    lemma_run_ends_bounds(ls, h);
    law_sort_patterns_permutes(p);
    assert(s.len() == s.to_multiset().len());
    assert(p.len() == p.to_multiset().len());
    assert forall|k: int| 0 <= k < s.len() implies !is_blank(#[trigger] s[k]) by {
        assert(s.to_multiset().count(s[k]) > 0);
        assert(p.contains(s[k]));
        let j = choose|j: int| 0 <= j < p.len() && p[j] == s[k];
        assert(p[j] == ls[h + j]);
    }
    assert(p[0] == ls[h]);
    assert(s.to_multiset().count(p[0]) > 0);
    assert(s.contains(p[0]));
    lemma_run_ends_bounds(s, 0);
    let c = comment_run_end(s, 0);
    if c >= s.len() {
        let j = choose|j: int| 0 <= j < s.len() && s[j] == p[0];
        assert(is_comment(s[j]));
    }
    c
}

proof fn lemma_blocks_fixed(ls: Seq<Seq<char>>, x: Seq<Seq<char>>, i: int)
    requires
        0 <= i <= ls.len(),
        same_blank_layout(x, ls),
        x.subrange(i, x.len() as int) == render(blocks_from(ls, i)),
    ensures
        render(blocks_from(x, i)) == render(blocks_from(ls, i)),
    decreases ls.len() - i,
{
    if i == ls.len() {
        assert(blocks_from(x, i) =~= Seq::<BlockView>::empty());
    } else {
        let (b, t) = block_at(ls, i);
        crate::blocks::lemma_block_at_advances(ls, i);
        lemma_block_layout(ls, i);
        lemma_render_front(ls, i);
        let bl = block_lines(b);
        assert(bl.len() == t - i);
        assert(x.subrange(i, t) =~= x.subrange(i, x.len() as int).subrange(0, t - i));
        assert(x.subrange(i, x.len() as int).subrange(0, t - i) =~= bl);
        assert(x.subrange(t, x.len() as int) =~= x.subrange(i, x.len() as int).subrange(
            t - i,
            x.len() - i,
        ));
        assert(x.subrange(i, x.len() as int).subrange(t - i, x.len() - i) =~= render(
            blocks_from(ls, t),
        ));
        lemma_block_fixed(ls, x, i);
        lemma_blocks_fixed(ls, x, t);
        crate::blocks::lemma_block_at_advances(x, i);
        lemma_render_front(x, i);
    }
}

/// Sorting sorted lines changes nothing: sorting twice gives what sorting
/// once gives.
pub proof fn law_sorting_is_idempotent(ls: Seq<Seq<char>>)
    ensures
        sorted_lines(sorted_lines(ls)) == sorted_lines(ls),
{
    let x = sorted_lines(ls);
    law_sorting_keeps_lines_and_sections(ls);
    assert(x.subrange(0, x.len() as int) =~= x);
    lemma_blocks_fixed(ls, x, 0);
}

} // verus!

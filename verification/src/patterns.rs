//! Ordering the pattern lines of one section: comment lines travel with the
//! pattern that follows them, and the resulting groups are sorted stably by
//! the key of their pattern.

use vstd::prelude::*;

use crate::lines::views;
use crate::text::{
    is_blank, is_blank_chars, is_comment, is_comment_chars, lex_le, sort_key, sort_key_chars,
};

verus! {

/// The groups of `p`: each line joins the current group, and a line that is
/// not a comment closes it. Trailing comments form a last group of their own.
pub open spec fn groups_of(p: Seq<Seq<char>>) -> Seq<Seq<Seq<char>>>
    decreases p.len(),
{
    if p.len() == 0 {
        Seq::empty()
    } else {
        let q = p.drop_last();
        let g = groups_of(q);
        if q.len() > 0 && is_comment(q.last()) && g.len() > 0 {
            g.drop_last().push(g.last().push(p.last()))
        } else {
            g.push(seq![p.last()])
        }
    }
}

/// The groups of `p` that a non-comment line has closed.
pub open spec fn closed_groups(p: Seq<Seq<char>>) -> Seq<Seq<Seq<char>>> {
    if p.len() > 0 && is_comment(p.last()) {
        groups_of(p).drop_last()
    } else {
        groups_of(p)
    }
}

/// The groups one after the other.
pub open spec fn concat(gs: Seq<Seq<Seq<char>>>) -> Seq<Seq<char>>
    decreases gs.len(),
{
    if gs.len() == 0 {
        Seq::empty()
    } else {
        concat(gs.drop_last()) + gs.last()
    }
}

/// The key of a group: the sort key of its first line that is neither a
/// comment nor blank, or the empty key if there is none.
pub open spec fn group_key(g: Seq<Seq<char>>) -> Seq<char>
    decreases g.len(),
{
    if g.len() == 0 {
        Seq::empty()
    } else if !is_comment(g[0]) && !is_blank(g[0]) {
        sort_key(g[0])
    } else {
        group_key(g.drop_first())
    }
}

/// `g` put into `s` after every group from the back whose key is not greater.
pub open spec fn insert_by_key(s: Seq<Seq<Seq<char>>>, g: Seq<Seq<char>>) -> Seq<
    Seq<Seq<char>>,
>
    decreases s.len(),
{
    if s.len() == 0 {
        seq![g]
    } else if lex_le(group_key(s.last()), group_key(g)) {
        s.push(g)
    } else {
        insert_by_key(s.drop_last(), g).push(s.last())
    }
}

/// The groups sorted by key, stably.
pub open spec fn sort_groups(gs: Seq<Seq<Seq<char>>>) -> Seq<Seq<Seq<char>>>
    decreases gs.len(),
{
    if gs.len() == 0 {
        Seq::empty()
    } else {
        insert_by_key(sort_groups(gs.drop_last()), gs.last())
    }
}

/// The pattern lines of one section in sorted order.
pub open spec fn sort_patterns(p: Seq<Seq<char>>) -> Seq<Seq<char>> {
    concat(sort_groups(groups_of(p)))
}

/// The views of a sequence of groups.
pub open spec fn group_views(v: Seq<Vec<String>>) -> Seq<Seq<Seq<char>>> {
    v.map_values(|g: Vec<String>| views(g@))
}

/// The views of a sequence of keys.
pub open spec fn key_views(v: Seq<Vec<char>>) -> Seq<Seq<char>> {
    v.map_values(|k: Vec<char>| k@)
}

pub proof fn lemma_groups_nonempty(p: Seq<Seq<char>>)
    ensures
        p.len() > 0 ==> groups_of(p).len() > 0,
{
}

proof fn lemma_insert_at(s: Seq<Seq<Seq<char>>>, g: Seq<Seq<char>>, j: int)
    requires
        0 <= j <= s.len(),
        forall|k: int| j <= k < s.len() ==> !lex_le(group_key(#[trigger] s[k]), group_key(g)),
        j == 0 || lex_le(group_key(s[j - 1]), group_key(g)),
    ensures
        insert_by_key(s, g) == s.insert(j, g),
    decreases s.len(),
{
    if s.len() == 0 {
        assert(s.insert(j, g) =~= seq![g]);
    } else if j == s.len() {
        assert(s.insert(j, g) =~= s.push(g));
    } else {
        assert(!lex_le(group_key(s[s.len() - 1]), group_key(g)));
        let t = s.drop_last();
        assert forall|k: int| j <= k < t.len() implies !lex_le(
            group_key(#[trigger] t[k]),
            group_key(g),
        ) by {
            assert(t[k] == s[k]);
        }
        lemma_insert_at(t, g, j);
        assert(t.insert(j, g).push(s.last()) =~= s.insert(j, g));
    }
}

/// Whether `a` comes before or equals `b` in lexicographic order.
pub fn lex_le_chars(a: &Vec<char>, b: &Vec<char>) -> (r: bool)
    ensures
        r == lex_le(a@, b@),
{
    let mut i: usize = 0;
    assert(a@.skip(0) =~= a@);
    assert(b@.skip(0) =~= b@);
    while i < a.len() && i < b.len()
        invariant
            i <= a@.len(),
            i <= b@.len(),
            lex_le(a@, b@) == lex_le(a@.skip(i as int), b@.skip(i as int)),
        decreases a@.len() - i,
    {
        let x = a[i];
        let y = b[i];
        assert(a@.skip(i as int)[0] == a@[i as int]);
        assert(b@.skip(i as int)[0] == b@[i as int]);
        if x < y {
            return true;
        }
        if x > y {
            return false;
        }
        assert(a@.skip(i as int).drop_first() =~= a@.skip(i + 1));
        assert(b@.skip(i as int).drop_first() =~= b@.skip(i + 1));
        i = i + 1;
    }
    i == a.len()
}

/// The key of the group `g`.
pub fn group_key_of(g: &Vec<String>) -> (r: Vec<char>)
    ensures
        r@ == group_key(views(g@)),
{
    let n = g.len();
    assert(views(g@).skip(0) =~= views(g@));
    for i in 0..n
        invariant
            n == g@.len(),
            group_key(views(g@)) == group_key(views(g@).skip(i as int)),
    {
        let c = crate::text::chars_of(g[i].as_str());
        assert(views(g@).skip(i as int)[0] == c@);
        if !is_comment_chars(&c) && !is_blank_chars(&c) {
            return sort_key_chars(&c);
        }
        assert(views(g@).skip(i as int).drop_first() =~= views(g@).skip(i + 1));
    }
    assert(views(g@).skip(n as int) =~= Seq::<Seq<char>>::empty());
    Vec::new()
}

/// Puts `group`, whose key is `key`, into the sorted `groups`.
fn insert_group(
    groups: &mut Vec<Vec<String>>,
    keys: &mut Vec<Vec<char>>,
    group: Vec<String>,
    key: Vec<char>,
)
    requires
        key_views(old(keys)@) == group_views(old(groups)@).map_values(
            |g: Seq<Seq<char>>| group_key(g),
        ),
        key@ == group_key(views(group@)),
    ensures
        group_views(final(groups)@) == insert_by_key(group_views(old(groups)@), views(group@)),
        key_views(final(keys)@) == group_views(final(groups)@).map_values(
            |g: Seq<Seq<char>>| group_key(g),
        ),
{
    let ghost s = group_views(groups@);
    let ghost gv = views(group@);
    let mut j = groups.len();
    assert(key_views(keys@).len() == keys@.len());
    while j > 0 && !lex_le_chars(&keys[j - 1], &key)
        invariant
            j <= groups@.len() == keys@.len(),
            s == group_views(groups@),
            key_views(keys@) == s.map_values(|g: Seq<Seq<char>>| group_key(g)),
            key@ == group_key(gv),
            forall|k: int| j <= k < s.len() ==> !lex_le(group_key(#[trigger] s[k]), group_key(gv)),
        decreases j,
    {
        assert(key_views(keys@)[j - 1] == keys@[j - 1]@);
        j = j - 1;
    }
    if j > 0 {
        assert(key_views(keys@)[j - 1] == keys@[j - 1]@);
    }
    proof {
        lemma_insert_at(s, gv, j as int);
    }
    groups.insert(j, group);
    keys.insert(j, key);
    assert(group_views(groups@) =~= s.insert(j as int, gv));
    let ghost ks = key_views(keys@);
    let ghost want = group_views(groups@).map_values(|g: Seq<Seq<char>>| group_key(g));
    assert(ks.len() == want.len());
    assert forall|k: int| 0 <= k < ks.len() implies ks[k] == want[k] by {
        if k < j {
            assert(keys@[k] == old(keys)@[k]);
            assert(key_views(old(keys)@)[k] == old(keys)@[k]@);
        } else if k > j {
            assert(keys@[k] == old(keys)@[k - 1]);
            assert(key_views(old(keys)@)[k - 1] == old(keys)@[k - 1]@);
        }
    }
    assert(ks =~= want);
}

/// The lines of `groups` one after the other.
fn concat_groups(groups: &Vec<Vec<String>>) -> (r: Vec<String>)
    ensures
        views(r@) == concat(group_views(groups@)),
{
    let mut r: Vec<String> = Vec::new();
    let n = groups.len();
    for k in 0..n
        invariant
            n == groups@.len(),
            views(r@) == concat(group_views(groups@).take(k as int)),
    {
        let g = &groups[k];
        let m = g.len();
        let ghost before = views(r@);
        for l in 0..m
            invariant
                k < n == groups@.len(),
                m == g@.len(),
                g == groups@[k as int],
                views(r@) == before + views(g@).take(l as int),
        {
            let ghost old_r = views(r@);
            r.push(g[l].clone());
            assert(views(r@) =~= old_r.push(g@[l as int]@));
            assert(views(r@) =~= before + views(g@).take(l + 1));
        }
        proof {
            let t = group_views(groups@).take(k + 1);
            assert(t.drop_last() =~= group_views(groups@).take(k as int));
            assert(views(g@).take(m as int) =~= views(g@));
            assert(t.last() == views(g@));
        }
    }
    assert(group_views(groups@).take(n as int) =~= group_views(groups@));
    r
}

/// The pattern lines of one section in sorted order: comment lines stay
/// with the pattern after them, and groups are ordered stably by the key of
/// their pattern (leading `!` ignored, ASCII letters compared without case).
pub fn sort_block_patterns(patterns: Vec<String>) -> (r: Vec<String>)
    ensures
        views(r@) == sort_patterns(views(patterns@)),
{
    let ghost p = views(patterns@);
    let mut sorted: Vec<Vec<String>> = Vec::new();
    let mut keys: Vec<Vec<char>> = Vec::new();
    let mut current: Vec<String> = Vec::new();
    let n = patterns.len();
    assert(group_views(sorted@).map_values(|g: Seq<Seq<char>>| group_key(g)) =~= key_views(
        keys@,
    ));
    for i in 0..n
        invariant
            n == patterns@.len(),
            p == views(patterns@),
            key_views(keys@) == group_views(sorted@).map_values(|g: Seq<Seq<char>>| group_key(g)),
            (current@.len() > 0) == (i > 0 && is_comment(p[i - 1])),
            group_views(sorted@) == sort_groups(closed_groups(p.take(i as int))),
            current@.len() > 0 ==> groups_of(p.take(i as int)).last() == views(current@),
    {
        let line = patterns[i].clone();
        let c = crate::text::chars_of(line.as_str());
        let comment = is_comment_chars(&c);
        let ghost q = p.take(i as int);
        let ghost q1 = p.take(i + 1);
        let ghost cur = views(current@);
        proof {
            assert(q1.drop_last() =~= q);
            assert(q1.last() == line@);
            lemma_groups_nonempty(q);
        }
        current.push(line);
        assert(views(current@) =~= if cur.len() > 0 { cur.push(line@) } else { seq![line@] });
        if comment {
            assert(closed_groups(q1) =~= closed_groups(q));
        } else {
            let group = current;
            current = Vec::new();
            let key = group_key_of(&group);
            assert(closed_groups(q1) =~= closed_groups(q).push(views(group@)));
            assert(closed_groups(q1).drop_last() =~= closed_groups(q));
            insert_group(&mut sorted, &mut keys, group, key);
        }
    }
    assert(p.take(n as int) =~= p);
    if current.len() > 0 {
        proof {
            lemma_groups_nonempty(p);
            assert(groups_of(p) =~= closed_groups(p).push(views(current@)));
            assert(groups_of(p).drop_last() =~= closed_groups(p));
        }
        let key = group_key_of(&current);
        insert_group(&mut sorted, &mut keys, current, key);
    }
    concat_groups(&sorted)
}


/// Keys in non-decreasing order along `gs`.
pub open spec fn keys_sorted(gs: Seq<Seq<Seq<char>>>) -> bool {
    forall|i: int, j: int|
        0 <= i < j < gs.len() ==> lex_le(group_key(#[trigger] gs[i]), group_key(#[trigger] gs[j]))
}

/// The groups of `gs` whose key is `k`, in their order.
pub open spec fn with_key(gs: Seq<Seq<Seq<char>>>, k: Seq<char>) -> Seq<Seq<Seq<char>>>
    decreases gs.len(),
{
    if gs.len() == 0 {
        Seq::empty()
    } else if group_key(gs.last()) == k {
        with_key(gs.drop_last(), k).push(gs.last())
    } else {
        with_key(gs.drop_last(), k)
    }
}

pub proof fn lemma_lex_refl(a: Seq<char>)
    ensures
        lex_le(a, a),
    decreases a.len(),
{
    if a.len() > 0 {
        lemma_lex_refl(a.drop_first());
    }
}

pub proof fn lemma_lex_total(a: Seq<char>, b: Seq<char>)
    ensures
        lex_le(a, b) || lex_le(b, a),
    decreases a.len(),
{
    if a.len() > 0 && b.len() > 0 && a[0] == b[0] {
        lemma_lex_total(a.drop_first(), b.drop_first());
    }
}

pub proof fn lemma_lex_trans(a: Seq<char>, b: Seq<char>, c: Seq<char>)
    requires
        lex_le(a, b),
        lex_le(b, c),
    ensures
        lex_le(a, c),
    decreases a.len(),
{
    if a.len() > 0 && b.len() > 0 && c.len() > 0 && a[0] == b[0] && b[0] == c[0] {
        lemma_lex_trans(a.drop_first(), b.drop_first(), c.drop_first());
    }
}

pub proof fn lemma_lex_antisym(a: Seq<char>, b: Seq<char>)
    requires
        lex_le(a, b),
        lex_le(b, a),
    ensures
        a == b,
    decreases a.len(),
{
    if a.len() > 0 && b.len() > 0 {
        assert(a[0] == b[0]);
        lemma_lex_antisym(a.drop_first(), b.drop_first());
        assert(a =~= seq![a[0]] + a.drop_first());
        assert(b =~= seq![b[0]] + b.drop_first());
    }
}

pub proof fn lemma_insert_multiset(s: Seq<Seq<Seq<char>>>, g: Seq<Seq<char>>)
    ensures
        insert_by_key(s, g).to_multiset() =~= s.to_multiset().insert(g),
    decreases s.len(),
{
    broadcast use vstd::seq_lib::group_to_multiset_ensures;
    broadcast use vstd::multiset::group_multiset_axioms;

    if s.len() == 0 {
        assert(seq![g] =~= Seq::<Seq<Seq<char>>>::empty().push(g));
        assert(s =~= Seq::<Seq<Seq<char>>>::empty());
    } else if !lex_le(group_key(s.last()), group_key(g)) {
        lemma_insert_multiset(s.drop_last(), g);
        assert(s =~= s.drop_last().push(s.last()));
    }
}

proof fn lemma_insert_sorted(s: Seq<Seq<Seq<char>>>, g: Seq<Seq<char>>)
    requires
        keys_sorted(s),
    ensures
        keys_sorted(insert_by_key(s, g)),
    decreases s.len(),
{
    broadcast use vstd::seq_lib::group_to_multiset_ensures;

    if s.len() == 0 {
    } else if lex_le(group_key(s.last()), group_key(g)) {
        let r = s.push(g);
        assert forall|i: int, j: int| 0 <= i < j < r.len() implies lex_le(
            group_key(#[trigger] r[i]),
            group_key(#[trigger] r[j]),
        ) by {
            if j == s.len() {
                if i < s.len() - 1 {
                    lemma_lex_trans(group_key(s[i]), group_key(s[s.len() - 1]), group_key(g));
                }
            }
        }
    } else {
        let t = s.drop_last();
        let last = s.last();
        assert(keys_sorted(t)) by {
            assert forall|i: int, j: int| 0 <= i < j < t.len() implies lex_le(
                group_key(#[trigger] t[i]),
                group_key(#[trigger] t[j]),
            ) by {
                assert(t[i] == s[i] && t[j] == s[j]);
            }
        }
        lemma_insert_sorted(t, g);
        let q = insert_by_key(t, g);
        lemma_insert_multiset(t, g);
        lemma_lex_total(group_key(last), group_key(g));
        let r = q.push(last);
        assert forall|i: int, j: int| 0 <= i < j < r.len() implies lex_le(
            group_key(#[trigger] r[i]),
            group_key(#[trigger] r[j]),
        ) by {
            if j == q.len() {
                let x = q[i];
                assert(q.to_multiset().count(x) > 0);
                if x != g {
                    assert(t.to_multiset().count(x) > 0);
                    assert(t.contains(x));
                    let m = choose|m: int| 0 <= m < t.len() && t[m] == x;
                    assert(s[m] == x);
                    assert(s[s.len() - 1] == last);
                }
            }
        }
    }
}

proof fn lemma_insert_with_key(s: Seq<Seq<Seq<char>>>, g: Seq<Seq<char>>, k: Seq<char>)
    ensures
        with_key(insert_by_key(s, g), k) == if group_key(g) == k {
            with_key(s, k).push(g)
        } else {
            with_key(s, k)
        },
    decreases s.len(),
{
    if s.len() == 0 {
        assert(seq![g].drop_last() =~= Seq::<Seq<Seq<char>>>::empty());
        assert(s =~= Seq::<Seq<Seq<char>>>::empty());
    } else if lex_le(group_key(s.last()), group_key(g)) {
        assert(s.push(g).drop_last() =~= s);
    } else {
        let t = s.drop_last();
        lemma_insert_with_key(t, g, k);
        lemma_lex_refl(group_key(g));
        assert(insert_by_key(t, g).push(s.last()).drop_last() =~= insert_by_key(t, g));
    }
}

proof fn lemma_concat_insert_multiset(s: Seq<Seq<Seq<char>>>, g: Seq<Seq<char>>)
    ensures
        concat(insert_by_key(s, g)).to_multiset() =~= concat(s).to_multiset().add(g.to_multiset()),
    decreases s.len(),
{
    broadcast use vstd::seq_lib::lemma_multiset_commutative;
    broadcast use vstd::multiset::group_multiset_axioms;

    if s.len() == 0 {
        let e = Seq::<Seq<Seq<char>>>::empty();
        assert(seq![g].drop_last() =~= e);
        assert(concat(e) =~= Seq::<Seq<char>>::empty());
        assert(seq![g].last() == g);
        assert(concat(seq![g]) =~= g);
        assert(s =~= e);
        assert(concat(s) + g =~= g);
        assert((concat(s) + g).to_multiset() =~= concat(s).to_multiset().add(g.to_multiset()));
    } else if lex_le(group_key(s.last()), group_key(g)) {
        assert(s.push(g).drop_last() =~= s);
    } else {
        let t = s.drop_last();
        lemma_concat_insert_multiset(t, g);
        assert(insert_by_key(t, g).push(s.last()).drop_last() =~= insert_by_key(t, g));
    }
}

/// The groups' keys do not decrease along the sorted groups.
pub proof fn law_sorted_groups_are_ordered(gs: Seq<Seq<Seq<char>>>)
    ensures
        keys_sorted(sort_groups(gs)),
    decreases gs.len(),
{
    if gs.len() > 0 {
        law_sorted_groups_are_ordered(gs.drop_last());
        lemma_insert_sorted(sort_groups(gs.drop_last()), gs.last());
    }
}

/// The sort is stable: the groups of any one key keep their order.
pub proof fn law_sort_is_stable(gs: Seq<Seq<Seq<char>>>, k: Seq<char>)
    ensures
        with_key(sort_groups(gs), k) == with_key(gs, k),
    decreases gs.len(),
{
    if gs.len() > 0 {
        law_sort_is_stable(gs.drop_last(), k);
        lemma_insert_with_key(sort_groups(gs.drop_last()), gs.last(), k);
    }
}

/// The groups one after the other give back the lines they were cut from.
pub proof fn law_groups_cover_lines(p: Seq<Seq<char>>)
    ensures
        concat(groups_of(p)) == p,
    decreases p.len(),
{
    if p.len() > 0 {
        let q = p.drop_last();
        law_groups_cover_lines(q);
        lemma_groups_nonempty(q);
        let g = groups_of(q);
        if q.len() > 0 && is_comment(q.last()) && g.len() > 0 {
            assert(g =~= g.drop_last().push(g.last()));
            assert(g.drop_last().push(g.last().push(p.last())).drop_last() =~= g.drop_last());
            assert(concat(g) == concat(g.drop_last()) + g.last());
        } else {
            assert(g.push(seq![p.last()]).drop_last() =~= g);
        }
        assert(p =~= q.push(p.last()));
    }
}

/// Sorting the pattern lines of a section neither loses nor adds a line.
pub proof fn law_sort_patterns_permutes(p: Seq<Seq<char>>)
    ensures
        sort_patterns(p).to_multiset() == p.to_multiset(),
{
    law_groups_cover_lines(p);
    lemma_sort_concat_multiset(groups_of(p));
}

proof fn lemma_with_key_contains(gs: Seq<Seq<Seq<char>>>, k: Seq<char>, i: int)
    requires
        0 <= i < gs.len(),
        group_key(gs[i]) == k,
    ensures
        with_key(gs, k).len() > 0,
    decreases gs.len(),
{
    if i < gs.len() - 1 {
        lemma_with_key_contains(gs.drop_last(), k, i);
    }
}

proof fn lemma_with_key_members(gs: Seq<Seq<Seq<char>>>, k: Seq<char>)
    ensures
        forall|m: int|
            0 <= m < with_key(gs, k).len() ==> group_key(#[trigger] with_key(gs, k)[m]) == k
                && exists|i: int| 0 <= i < gs.len() && gs[i] == with_key(gs, k)[m],
    decreases gs.len(),
{
    if gs.len() > 0 {
        let t = gs.drop_last();
        lemma_with_key_members(t, k);
        let w = with_key(gs, k);
        let wt = with_key(t, k);
        assert forall|m: int| 0 <= m < w.len() implies group_key(#[trigger] w[m]) == k && exists|
            i: int,
        | 0 <= i < gs.len() && gs[i] == w[m] by {
            if m < wt.len() {
                assert(w[m] == wt[m]);
                let i = choose|i: int| 0 <= i < t.len() && t[i] == wt[m];
                assert(gs[i] == w[m]);
            } else {
                assert(w[m] == gs[gs.len() - 1]);
            }
        }
    }
}

/// The stable sort by key is the only one: groups ordered by key in which
/// the groups of every key come in the order they had are the sorted
/// groups.
pub proof fn law_stable_sort_is_unique(gs: Seq<Seq<Seq<char>>>, r: Seq<Seq<Seq<char>>>)
    requires
        keys_sorted(r),
        forall|k: Seq<char>| with_key(r, k) == with_key(gs, k),
    ensures
        r == sort_groups(gs),
{
    let s = sort_groups(gs);
    law_sorted_groups_are_ordered(gs);
    assert forall|k: Seq<char>| with_key(r, k) == with_key(s, k) by {
        law_sort_is_stable(gs, k);
    }
    lemma_sorted_same_keys_equal(r, s);
}

proof fn lemma_sorted_same_keys_equal(r: Seq<Seq<Seq<char>>>, s: Seq<Seq<Seq<char>>>)
    requires
        keys_sorted(r),
        keys_sorted(s),
        forall|k: Seq<char>| with_key(r, k) == with_key(s, k),
    ensures
        r == s,
    decreases r.len() + s.len(),
{
    if r.len() == 0 && s.len() == 0 {
    } else if r.len() == 0 {
        let b = s.last();
        lemma_with_key_contains(s, group_key(b), s.len() - 1);
        assert(with_key(r, group_key(b)) =~= Seq::<Seq<Seq<char>>>::empty());
    } else if s.len() == 0 {
        let a = r.last();
        lemma_with_key_contains(r, group_key(a), r.len() - 1);
        assert(with_key(s, group_key(a)) =~= Seq::<Seq<Seq<char>>>::empty());
    } else {
        let a = r.last();
        let b = s.last();
        let ka = group_key(a);
        let kb = group_key(b);
        lemma_with_key_contains(s, kb, s.len() - 1);
        lemma_with_key_members(r, kb);
        let wb = with_key(r, kb);
        let x = wb[0];
        assert(group_key(x) == kb);
        let i = choose|i: int| 0 <= i < r.len() && r[i] == x;
        if i < r.len() - 1 {
            assert(lex_le(group_key(r[i]), group_key(r[r.len() - 1])));
        } else {
            lemma_lex_refl(kb);
        }
        assert(lex_le(kb, ka));
        lemma_with_key_contains(r, ka, r.len() - 1);
        lemma_with_key_members(s, ka);
        let wa = with_key(s, ka);
        let y = wa[0];
        let j = choose|j: int| 0 <= j < s.len() && s[j] == y;
        if j < s.len() - 1 {
            assert(lex_le(group_key(s[j]), group_key(s[s.len() - 1])));
        } else {
            lemma_lex_refl(ka);
        }
        assert(lex_le(ka, kb));
        lemma_lex_antisym(ka, kb);
        assert(with_key(r, ka).last() == a);
        assert(with_key(s, ka).last() == b);
        let r2 = r.drop_last();
        let s2 = s.drop_last();
        assert(keys_sorted(r2)) by {
            assert forall|p: int, q: int| 0 <= p < q < r2.len() implies lex_le(
                group_key(#[trigger] r2[p]),
                group_key(#[trigger] r2[q]),
            ) by {
                assert(r2[p] == r[p] && r2[q] == r[q]);
            }
        }
        assert(keys_sorted(s2)) by {
            assert forall|p: int, q: int| 0 <= p < q < s2.len() implies lex_le(
                group_key(#[trigger] s2[p]),
                group_key(#[trigger] s2[q]),
            ) by {
                assert(s2[p] == s[p] && s2[q] == s[q]);
            }
        }
        assert forall|k: Seq<char>| with_key(r2, k) == with_key(s2, k) by {
            assert(with_key(r, k) == with_key(s, k));
            if k == ka {
                assert(with_key(r, k).drop_last() == with_key(r2, k));
                assert(with_key(s, k).drop_last() == with_key(s2, k));
            }
        }
        lemma_sorted_same_keys_equal(r2, s2);
        assert(r =~= r2.push(a));
        assert(s =~= s2.push(b));
    }
}

pub proof fn lemma_sort_concat_multiset(gs: Seq<Seq<Seq<char>>>)
    ensures
        concat(sort_groups(gs)).to_multiset() =~= concat(gs).to_multiset(),
    decreases gs.len(),
{
    broadcast use vstd::seq_lib::lemma_multiset_commutative;

    if gs.len() > 0 {
        lemma_sort_concat_multiset(gs.drop_last());
        lemma_concat_insert_multiset(sort_groups(gs.drop_last()), gs.last());
    }
}

} // verus!

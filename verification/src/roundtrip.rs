//! The sorted text read back as lines, and sorting the sorted text.

use vstd::prelude::*;

use crate::blocks::{
    blank_run_end, block_at, blocks_from, blocks_of, comment_run_end, lemma_blank_run_end,
    lemma_block_at_advances, lemma_comment_run_end, lemma_nonblank_run_end,
    lemma_run_ends_bounds, nonblank_run_end, BlockView,
};
use crate::fixpoint::{law_sorting_is_idempotent, lemma_render_front};
use crate::gitignore::{
    block_lines, law_sorting_keeps_lines_and_sections, lemma_blocks_layout, lemma_join_last,
    lemma_lines_from_shape,
    no_line_feeds, render, sorted_lines, sorted_text,
};
use crate::lines::{
    ends_nl, join_lines, lemma_next_nl_bounds, lemma_next_nl_is, lines_from, lines_of, next_nl,
    strip_cr,
};
use crate::text::{is_blank, is_comment};

verus! {

/// Whether `x` ends with a carriage return.
pub open spec fn ends_cr(x: Seq<char>) -> bool {
    x.len() > 0 && x.last() == '\r'
}

proof fn lemma_lines_from_skip(s: Seq<char>, i: int)
    requires
        0 <= i <= s.len(),
    ensures
        lines_from(s, i) == lines_from(s.skip(i), 0),
    decreases s.len() - i,
{
    let u = s.skip(i);
    if i < s.len() {
        let j = next_nl(s, i);
        lemma_next_nl_bounds(s, i);
        assert forall|k: int| 0 <= k < j - i implies u[k] != '\n' by {
            assert(u[k] == s[i + k]);
        }
        if j < s.len() {
            assert(u[j - i] == s[j]);
        }
        lemma_next_nl_is(u, 0, j - i);
        assert(u.subrange(0, j - i) =~= s.subrange(i, j));
        if j < s.len() {
            lemma_lines_from_skip(s, j + 1);
            lemma_lines_from_skip(u, j - i + 1);
            assert(u.skip(j - i + 1) =~= s.skip(j + 1));
        } else {
            assert(u.subrange(0, u.len() as int) =~= s.subrange(i, s.len() as int));
        }
    } else {
        assert(u.len() == 0);
    }
}

proof fn lemma_join_front(ls: Seq<Seq<char>>)
    requires
        ls.len() >= 2,
    ensures
        join_lines(ls) == ls[0] + seq!['\n'] + join_lines(ls.drop_first()),
    decreases ls.len(),
{
    let d = ls.drop_first();
    if ls.len() == 2 {
        assert(ls.drop_last() =~= seq![ls[0]]);
        assert(d =~= seq![ls[1]]);
        assert(join_lines(seq![ls[0]]) == ls[0]);
        assert(join_lines(d) == ls[1]);
        assert(ls.last() == ls[1]);
    } else {
        assert(join_lines(d) == join_lines(d.drop_last()) + seq!['\n'] + d.last());
        lemma_join_front(ls.drop_last());
        assert(ls.drop_last().drop_first() =~= d.drop_last());
        assert(ls.drop_last()[0] == ls[0]);
        assert(d.last() == ls.last());
        assert(ls[0] + seq!['\n'] + join_lines(d.drop_last()) + seq!['\n'] + ls.last() =~= ls[0]
            + seq!['\n'] + (join_lines(d.drop_last()) + seq!['\n'] + d.last()));
    }
}

proof fn lemma_lines_head(x: Seq<char>, tail: Seq<char>)
    requires
        forall|k: int| 0 <= k < x.len() ==> x[k] != '\n',
    ensures
        lines_of(x + seq!['\n'] + tail) == seq![strip_cr(x)] + lines_of(tail),
{
    let s = x + seq!['\n'] + tail;
    assert forall|k: int| 0 <= k < x.len() implies s[k] != '\n' by {
        assert(s[k] == x[k]);
    }
    assert(s[x.len() as int] == '\n');
    lemma_next_nl_is(s, 0, x.len() as int);
    assert(s.subrange(0, x.len() as int) =~= x);
    lemma_lines_from_skip(s, x.len() + 1int);
    assert(s.skip(x.len() + 1int) =~= tail);
}

/// Lines without line feeds, none but the last ending with a carriage
/// return, are read back from the text that joins them.
proof fn lemma_lines_of_join(ls: Seq<Seq<char>>)
    requires
        ls.len() > 0,
        no_line_feeds(ls),
        forall|k: int| 0 <= k < ls.len() - 1 ==> !ends_cr(#[trigger] ls[k]),
    ensures
        ls.last().len() > 0 ==> lines_of(join_lines(ls)) == ls,
        !ends_cr(ls.last()) ==> lines_of(join_lines(ls) + seq!['\n']) == ls,
    decreases ls.len(),
{
    let x = ls[0];
    assert forall|k: int| 0 <= k < x.len() implies x[k] != '\n' by {
        assert(ls[0][k] != '\n');
    }
    if ls.len() == 1 {
        let e = Seq::<char>::empty();
        if x.len() > 0 {
            assert forall|k: int| 0 <= k < x.len() implies x[k] != '\n' by {
            }
            lemma_next_nl_is(x, 0, x.len() as int);
            assert(x.subrange(0, x.len() as int) =~= x);
            assert(lines_of(x) =~= ls);
        }
        if !ends_cr(x) {
            lemma_lines_head(x, e);
            assert(x + seq!['\n'] + e =~= x + seq!['\n']);
            assert(lines_of(e) =~= Seq::<Seq<char>>::empty());
            assert(seq![strip_cr(x)] + lines_of(e) =~= ls);
        }
    } else {
        let d = ls.drop_first();
        assert(no_line_feeds(d)) by {
            assert forall|k: int, m: int| 0 <= k < d.len() && 0 <= m < d[k].len() implies #[trigger] d[k][m]
                != '\n' by {
                assert(d[k] == ls[k + 1]);
            }
        }
        assert forall|k: int| 0 <= k < d.len() - 1 implies !ends_cr(#[trigger] d[k]) by {
            assert(d[k] == ls[k + 1]);
        }
        lemma_lines_of_join(d);
        lemma_join_front(ls);
        assert(!ends_cr(ls[0]));
        assert(strip_cr(x) == x);
        assert(d.last() == ls.last());
        lemma_lines_head(x, join_lines(d));
        lemma_lines_head(x, join_lines(d) + seq!['\n']);
        assert(x + seq!['\n'] + join_lines(d) + seq!['\n'] =~= x + seq!['\n'] + (join_lines(d)
            + seq!['\n']));
        assert(seq![x] + d =~= ls);
    }
}

proof fn lemma_render_nonempty(ls: Seq<Seq<char>>, i: int)
    requires
        0 <= i < ls.len(),
    ensures
        render(blocks_from(ls, i)).len() == ls.len() - i,
{
    lemma_blocks_layout(ls, i);
}

/// Dropping a last blank line before sorting drops it after sorting.
proof fn lemma_drop_blank_from(ls: Seq<Seq<char>>, i: int)
    requires
        ls.len() > 0,
        is_blank(ls.last()),
        0 <= i < ls.len(),
    ensures
        render(blocks_from(ls.drop_last(), i)) == render(blocks_from(ls, i)).drop_last(),
    decreases ls.len() - i,
{
    let n = ls.len() as int;
    let d = ls.drop_last();
    lemma_run_ends_bounds(ls, i);
    let h = comment_run_end(ls, i);
    lemma_run_ends_bounds(ls, h);
    let (b, t) = block_at(ls, i);
    lemma_block_at_advances(ls, i);
    lemma_render_front(ls, i);
    assert(!is_comment(ls[n - 1])) by {
        assert(is_blank(ls[n - 1]));
    }
    if i == n - 1 {
        assert(h == n - 1);
        lemma_blank_run_end(ls, n - 1, n);
        assert(blocks_from(ls, n) =~= Seq::<BlockView>::empty());
        assert(render(blocks_from(ls, n)) =~= Seq::<Seq<char>>::empty());
        assert(blocks_from(d, i) =~= Seq::<BlockView>::empty());
        assert(b.trailing_blanks =~= seq![ls[n - 1]]);
        assert(b.patterns =~= Seq::<Seq<char>>::empty());
        lemma_sort_empty();
        assert(block_lines(b) =~= seq![ls[n - 1]]);
        assert(render(blocks_from(ls, i)) =~= seq![ls[n - 1]]);
    } else {
        assert forall|k: int| 0 <= k < n - 1 implies d[k] == ls[k] by {
        }
        assert(h <= n - 1);
        lemma_comment_run_end(d, i, h);
        if h >= n - 1 || is_blank(ls[h]) {
            lemma_tail_block(ls, i, h, h);
        } else {
            let e = nonblank_run_end(ls, h);
            lemma_run_ends_bounds(ls, e);
            assert(e <= n - 1);
            assert forall|k: int| h <= k < e implies !is_blank(#[trigger] d[k]) by {
                assert(d[k] == ls[k]);
            }
            if e < n - 1 {
                assert(d[e] == ls[e]);
            }
            lemma_nonblank_run_end(d, h, e);
            lemma_tail_block(ls, i, h, e);
        }
    }
}

proof fn lemma_sort_empty()
    ensures
        crate::patterns::sort_patterns(Seq::<Seq<char>>::empty()) == Seq::<Seq<char>>::empty(),
{
    let e = Seq::<Seq<char>>::empty();
    assert(crate::patterns::groups_of(e) =~= Seq::<Seq<Seq<char>>>::empty());
    assert(crate::patterns::sort_groups(crate::patterns::groups_of(e)) =~= Seq::<
        Seq<Seq<char>>,
    >::empty());
    assert(crate::patterns::concat(Seq::<Seq<Seq<char>>>::empty()) =~= e);
}

/// The section at `i` ends its patterns at `e`, the same with or without
/// the last blank line.
proof fn lemma_tail_block(ls: Seq<Seq<char>>, i: int, h: int, e: int)
    requires
        ls.len() > 0,
        is_blank(ls.last()),
        0 <= i < ls.len() - 1,
        h == comment_run_end(ls, i),
        h <= ls.len() - 1,
        comment_run_end(ls.drop_last(), i) == h,
        (h >= ls.len() - 1 || is_blank(ls[h])) ==> e == h,
        !(h >= ls.len() - 1 || is_blank(ls[h])) ==> e == nonblank_run_end(ls, h)
            && nonblank_run_end(ls.drop_last(), h) == e,
        i <= h <= e <= ls.len() - 1,
        e < ls.len() - 1 ==> is_blank(ls[e]),
        forall|k: int| 0 <= k < ls.len() - 1 ==> ls.drop_last()[k] == ls[k],
        block_at(ls, i).1 == blank_run_end(ls, e),
        i < block_at(ls, i).1 <= ls.len(),
        render(blocks_from(ls, i)) == block_lines(block_at(ls, i).0) + render(
            blocks_from(ls, block_at(ls, i).1),
        ),
    ensures
        render(blocks_from(ls.drop_last(), i)) == render(blocks_from(ls, i)).drop_last(),
    decreases ls.len() - i, 0int,
{
    let n = ls.len() as int;
    let d = ls.drop_last();
    let (b, t) = block_at(ls, i);
    lemma_run_ends_bounds(ls, e);
    if h < n - 1 {
        assert(d[h] == ls[h]);
    }
    if t < n {
        assert(!is_blank(ls[t]));
        assert(t < n - 1);
        assert(d[t] == ls[t]);
        lemma_blank_run_end(d, e, t);
        lemma_block_at_advances(d, i);
        assert(block_at(d, i) == block_at(ls, i)) by {
            if !(h >= n - 1 || is_blank(ls[h])) {
                assert(!(h >= d.len() || is_blank(d[h])));
            }
            assert(d.subrange(i, h) =~= ls.subrange(i, h));
            assert(d.subrange(h, e) =~= ls.subrange(h, e));
            assert(d.subrange(e, t) =~= ls.subrange(e, t));
            assert(d.subrange(i, e) =~= ls.subrange(i, e));
        }
        lemma_render_front(d, i);
        lemma_drop_blank_from(ls, t);
        lemma_render_nonempty(ls, t);
        assert(block_lines(b) + render(blocks_from(ls, t)).drop_last() =~= (block_lines(b)
            + render(blocks_from(ls, t))).drop_last());
    } else {
        assert(t == n);
        assert forall|k: int| e <= k < n - 1 implies is_blank(#[trigger] d[k]) by {
            assert(d[k] == ls[k]);
        }
        lemma_blank_run_end(d, e, n - 1);
        let (b2, t2) = block_at(d, i);
        assert(t2 == n - 1);
        assert(blocks_from(d, n - 1) =~= Seq::<BlockView>::empty());
        assert(blocks_from(ls, n) =~= Seq::<BlockView>::empty());
        lemma_render_front(d, i);
        assert(render(blocks_from(d, n - 1)) =~= Seq::<Seq<char>>::empty());
        assert(render(blocks_from(ls, n)) =~= Seq::<Seq<char>>::empty());
        if !(h >= n - 1 || is_blank(ls[h])) {
            assert(!(h >= d.len() || is_blank(d[h])));
        }
        assert(b2.header_comments =~= b.header_comments);
        assert(b2.patterns =~= b.patterns);
        assert(b2.trailing_blanks =~= b.trailing_blanks.drop_last());
        assert(e < n);
        assert(block_lines(b2) =~= block_lines(b).drop_last());
        assert(block_lines(b2) + Seq::<Seq<char>>::empty() =~= block_lines(b2));
        assert(block_lines(b) + Seq::<Seq<char>>::empty() =~= block_lines(b));
    }
}

/// Sorting lines that end with a blank line gives the sorted lines
/// without it, then that line.
proof fn lemma_sorted_lines_drop_blank(ls: Seq<Seq<char>>)
    requires
        ls.len() > 0,
        is_blank(ls.last()),
    ensures
        sorted_lines(ls.drop_last()) == sorted_lines(ls).drop_last(),
{
    lemma_drop_blank_from(ls, 0);
}

/// When sorting `content` leaves a text that sorts to itself: no line
/// that a line feed will follow ends with a carriage return, and the text
/// does not end with two empty lines after some other line.
pub open spec fn sorts_stably(content: Seq<char>) -> bool {
    let ls = lines_of(content);
    let out = sorted_lines(ls);
    let n = out.len();
    &&& forall|k: int|
        0 <= k < n && ends_cr(#[trigger] out[k]) ==> k == n - 1 && !ends_nl(content)
    &&& !(n >= 3 && ls[n - 1].len() == 0 && ls[n - 2].len() == 0)
}

/// Sorting a sorted text changes nothing, for every text that
/// `sorts_stably` admits.
pub proof fn law_sorted_text_idempotent(content: Seq<char>)
    requires
        sorts_stably(content),
    ensures
        sorted_text(sorted_text(content)) == sorted_text(content),
{
    broadcast use vstd::seq_lib::group_to_multiset_ensures;

    let ls = lines_of(content);
    let out = sorted_lines(ls);
    let n = out.len();
    law_sorting_keeps_lines_and_sections(ls);
    law_sorting_is_idempotent(ls);
    lemma_lines_from_shape(content, 0);
    let j = join_lines(out);
    let o1 = sorted_text(content);
    assert(no_line_feeds(out)) by {
        assert forall|k: int, m: int| 0 <= k < out.len() && 0 <= m < out[k].len() implies #[trigger] out[k][m]
            != '\n' by {
            assert(out.to_multiset().count(out[k]) > 0);
            assert(ls.contains(out[k]));
            let a = choose|a: int| 0 <= a < ls.len() && ls[a] == out[k];
            assert(ls[a][m] != '\n');
        }
    }
    if n == 0 {
        assert(ls.len() == 0);
        if content.len() > 0 {
            assert(lines_from(content, 0).len() > 0) by {
                let q = next_nl(content, 0);
                lemma_next_nl_bounds(content, 0);
            }
        }
        assert(j =~= Seq::<char>::empty());
        assert(o1 =~= Seq::<char>::empty());
        assert(lines_of(o1) =~= Seq::<Seq<char>>::empty());
        assert(sorted_lines(Seq::<Seq<char>>::empty()) =~= Seq::<Seq<char>>::empty()) by {
            assert(blocks_of(Seq::<Seq<char>>::empty()) =~= Seq::<BlockView>::empty());
        }
    } else if out[n - 1].len() > 0 {
        assert forall|k: int| 0 <= k < out.len() - 1 implies !ends_cr(#[trigger] out[k]) by {
        }
        lemma_lines_of_join(out);
        lemma_join_last(out);
        if ends_nl(content) {
            assert(!ends_cr(out[n - 1]));
            assert(o1 == j.push('\n'));
            assert(j + seq!['\n'] =~= j.push('\n'));
        } else {
            assert(o1 == j);
        }
        assert(lines_of(o1) == out);
    } else {
        assert(is_blank(out[n - 1]));
        assert(out[n - 1] == ls[n - 1]);
        if !ends_nl(content) {
            assert(content.len() > 0);
            assert(ls.last().len() > 0);
        }
        assert(ends_nl(content));
        if n == 1 {
            assert(out[0] =~= Seq::<char>::empty());
            assert(out =~= seq![Seq::<char>::empty()]);
            assert(j =~= Seq::<char>::empty());
            assert(o1 =~= seq!['\n']);
            lemma_lines_head(Seq::<char>::empty(), Seq::<char>::empty());
            assert(Seq::<char>::empty() + seq!['\n'] + Seq::<char>::empty() =~= seq!['\n']);
            assert(lines_of(Seq::<char>::empty()) =~= Seq::<Seq<char>>::empty());
            assert(lines_of(o1) =~= out);
        } else {
            let m = out.drop_last();
            assert(j == join_lines(m) + seq!['\n'] + out.last());
            assert(out.last() =~= Seq::<char>::empty());
            assert(j =~= join_lines(m) + seq!['\n']);
            assert(ends_nl(j));
            assert(o1 == j);
            if ls[n - 2].len() > 0 {
                assert(m.last().len() > 0) by {
                    if is_blank(ls[n - 2]) {
                        assert(out[n - 2] == ls[n - 2]);
                    } else {
                        assert(!is_blank(out[n - 2]));
                    }
                }
                assert(no_line_feeds(m)) by {
                    assert forall|k: int, q: int| 0 <= k < m.len() && 0 <= q < m[k].len() implies #[trigger] m[k][q]
                        != '\n' by {
                        assert(m[k] == out[k]);
                    }
                }
                assert forall|k: int| 0 <= k < m.len() - 1 implies !ends_cr(#[trigger] m[k]) by {
                    assert(m[k] == out[k]);
                }
                assert(!ends_cr(m.last())) by {
                    assert(m.last() == out[n - 2]);
                }
                lemma_lines_of_join(m);
                lemma_join_last(m);
                assert(!ends_nl(join_lines(m)));
            } else {
                assert(n == 2);
                assert(is_blank(ls[0]));
                assert(out[0] == ls[0]);
                assert(ls[0] =~= Seq::<char>::empty());
                assert(m[0] == out[0]);
                assert(m =~= seq![Seq::<char>::empty()]);
                assert(join_lines(m) =~= Seq::<char>::empty());
                lemma_lines_head(Seq::<char>::empty(), Seq::<char>::empty());
                assert(Seq::<char>::empty() + seq!['\n'] + Seq::<char>::empty() =~= seq!['\n']);
                assert(lines_of(Seq::<char>::empty()) =~= Seq::<Seq<char>>::empty());
                assert(join_lines(m) + seq!['\n'] =~= seq!['\n']);
            }
            assert(lines_of(o1) == m);
            lemma_sorted_lines_drop_blank(ls);
            law_sorting_is_idempotent(ls.drop_last());
            assert(sorted_lines(m) == m);
        }
    }
}

} // verus!

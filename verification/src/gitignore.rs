//! Sorting a whole `.gitignore` file, section by section.

use vstd::prelude::*;
use vstd::string::*;

use crate::blocks::{
    block_at, block_nonempty, block_views, blocks_from, blocks_of, comment_run_end,
    lemma_block_at_advances, lemma_run_ends_bounds, nonblank_run_end, parse_blocks, Block,
    BlockView,
};
use crate::lines::{
    ends_nl, ends_with_newline, join_lines, join_with_newlines, lemma_next_nl_bounds, lines_from,
    lines_of, next_nl, split_lines, strip_cr, views,
};
use crate::patterns::{law_sort_patterns_permutes, sort_block_patterns, sort_patterns};
use crate::text::{is_blank, is_comment, trim};

verus! {

/// The lines of a section after sorting: header comments, sorted patterns,
/// trailing blank lines.
pub open spec fn block_lines(b: BlockView) -> Seq<Seq<char>> {
    b.header_comments + sort_patterns(b.patterns) + b.trailing_blanks
}

/// The sorted lines of the sections, one section after the other.
pub open spec fn render(bs: Seq<BlockView>) -> Seq<Seq<char>>
    decreases bs.len(),
{
    if bs.len() == 0 {
        Seq::empty()
    } else {
        render(bs.drop_last()) + block_lines(bs.last())
    }
}

/// The lines `ls` with the patterns of every section sorted.
pub open spec fn sorted_lines(ls: Seq<Seq<char>>) -> Seq<Seq<char>> {
    render(blocks_of(ls))
}

/// The text `content` sorted: its lines sorted section by section, joined
/// with `\n`, with a final `\n` when `content` has one.
pub open spec fn sorted_text(content: Seq<char>) -> Seq<char> {
    let out = join_lines(sorted_lines(lines_of(content)));
    if ends_nl(content) && !ends_nl(out) {
        out.push('\n')
    } else {
        out
    }
}

/// Appends the lines of `v` to `out`.
fn push_all(out: &mut Vec<String>, v: &Vec<String>)
    ensures
        views(final(out)@) == views(old(out)@) + views(v@),
{
    let n = v.len();
    for i in 0..n
        invariant
            n == v@.len(),
            views(out@) == views(old(out)@) + views(v@).take(i as int),
    {
        let ghost before = views(out@);
        out.push(v[i].clone());
        assert(views(out@) =~= before.push(v@[i as int]@));
        assert(views(out@) =~= views(old(out)@) + views(v@).take(i + 1));
    }
    assert(views(v@).take(n as int) =~= views(v@));
}

/// `content` with the patterns of every section sorted. Sections are
/// separated by blank lines; header comments and blank lines keep their
/// place; a final line feed is kept when there was one.
pub fn sort_git_ignore(content: &str) -> (r: String)
    ensures
        r@ == sorted_text(content@),
{
    let raw_lines = split_lines(content);
    let mut blocks = parse_blocks(raw_lines.as_slice());
    let ghost all = block_views(blocks@);
    let mut output_lines: Vec<String> = Vec::new();
    let ghost mut k: int = 0;
    assert(all.skip(0) =~= all);
    while blocks.len() > 0
        invariant
            0 <= k <= all.len(),
            block_views(blocks@) == all.skip(k),
            views(output_lines@) == render(all.take(k)),
        decreases blocks@.len(),
    {
        let ghost rest = blocks@;
        assert(block_views(rest).len() == rest.len());
        assert(block_views(rest)[0] == rest[0]@);
        assert(all.skip(k)[0] == all[k]);
        let block = blocks.remove(0);
        let ghost b = block@;
        assert(b == all[k]);
        let Block { header_comments, patterns, trailing_blanks } = block;
        let sorted = sort_block_patterns(patterns);
        push_all(&mut output_lines, &header_comments);
        push_all(&mut output_lines, &sorted);
        push_all(&mut output_lines, &trailing_blanks);
        proof {
            assert(all.take(k + 1).drop_last() =~= all.take(k));
            assert(blocks@ =~= rest.drop_first());
            assert forall|m: int| 0 <= m < blocks@.len() implies block_views(blocks@)[m] == all.skip(
                k + 1,
            )[m] by {
                assert(block_views(rest)[m + 1] == rest[m + 1]@);
                assert(all.skip(k)[m + 1] == all[k + m + 1]);
            }
            assert(block_views(blocks@) =~= all.skip(k + 1));
            k = k + 1;
        }
    }
    assert(all.take(k) =~= all);
    let mut result = join_with_newlines(&output_lines);
    if ends_with_newline(content) && !ends_with_newline(result.as_str()) {
        proof {
            reveal_strlit("\n");
        }
        result.append("\n");
    }
    result
}


/// `out` is `orig` with lines moved only among non-blank positions.
pub open spec fn same_blank_layout(out: Seq<Seq<char>>, orig: Seq<Seq<char>>) -> bool {
    &&& out.len() == orig.len()
    &&& out.to_multiset() == orig.to_multiset()
    &&& forall|k: int|
        0 <= k < orig.len() ==> is_blank(#[trigger] out[k]) == is_blank(orig[k]) && (is_blank(
            orig[k],
        ) ==> out[k] == orig[k])
}

pub proof fn lemma_render_prepend(b: BlockView, rest: Seq<BlockView>)
    ensures
        render(seq![b] + rest) == block_lines(b) + render(rest),
    decreases rest.len(),
{
    if rest.len() == 0 {
        let e = Seq::<BlockView>::empty();
        assert(seq![b] + rest =~= seq![b]);
        assert(seq![b].drop_last() =~= e);
        assert(seq![b].last() == b);
        assert(render(e) =~= Seq::<Seq<char>>::empty());
        assert(rest =~= e);
        assert(render(seq![b]) =~= block_lines(b));
        assert(block_lines(b) + Seq::<Seq<char>>::empty() =~= block_lines(b));
    } else {
        lemma_render_prepend(b, rest.drop_last());
        assert((seq![b] + rest).drop_last() =~= seq![b] + rest.drop_last());
        assert(block_lines(b) + render(rest.drop_last()) + block_lines(rest.last()) =~= block_lines(
            b,
        ) + (render(rest.drop_last()) + block_lines(rest.last())));
    }
}

/// Sorting the patterns of lines none of which is blank gives lines of
/// which none is blank, and as many.
proof fn lemma_sorted_patterns_layout(p: Seq<Seq<char>>)
    requires
        forall|k: int| 0 <= k < p.len() ==> !is_blank(#[trigger] p[k]),
    ensures
        same_blank_layout(sort_patterns(p), p),
{
    broadcast use vstd::seq_lib::group_to_multiset_ensures;

    let out = sort_patterns(p);
    law_sort_patterns_permutes(p);
    assert(out.len() == out.to_multiset().len());
    assert(p.len() == p.to_multiset().len());
    assert forall|k: int| 0 <= k < out.len() implies !is_blank(#[trigger] out[k]) by {
        assert(out.to_multiset().count(out[k]) > 0);
        assert(p.contains(out[k]));
    }
}

proof fn lemma_layout_concat(o1: Seq<Seq<char>>, p1: Seq<Seq<char>>, o2: Seq<Seq<char>>, p2: Seq<Seq<char>>)
    requires
        same_blank_layout(o1, p1),
        same_blank_layout(o2, p2),
    ensures
        same_blank_layout(o1 + o2, p1 + p2),
{
    broadcast use vstd::seq_lib::lemma_multiset_commutative;

    let o = o1 + o2;
    let p = p1 + p2;
    assert forall|k: int| 0 <= k < p.len() implies is_blank(#[trigger] o[k]) == is_blank(p[k]) && (
    is_blank(p[k]) ==> o[k] == p[k]) by {
        if k < p1.len() {
            assert(o[k] == o1[k] && p[k] == p1[k]);
        } else {
            assert(o[k] == o2[k - p1.len()] && p[k] == p2[k - p1.len()]);
        }
    }
}

proof fn lemma_layout_refl(s: Seq<Seq<char>>)
    ensures
        same_blank_layout(s, s),
{
}

pub proof fn lemma_block_layout(ls: Seq<Seq<char>>, i: int)
    requires
        0 <= i < ls.len(),
    ensures
        same_blank_layout(block_lines(block_at(ls, i).0), ls.subrange(i, block_at(ls, i).1)),
{
    lemma_run_ends_bounds(ls, i);
    let h = comment_run_end(ls, i);
    lemma_run_ends_bounds(ls, h);
    let (b, t) = block_at(ls, i);
    if h >= ls.len() || is_blank(ls[h]) {
        let p = ls.subrange(i, h);
        assert forall|k: int| 0 <= k < p.len() implies !is_blank(#[trigger] p[k]) by {
            assert(p[k] == ls[i + k]);
            assert(is_comment(ls[i + k]));
        }
        lemma_sorted_patterns_layout(p);
        lemma_layout_refl(ls.subrange(h, t));
        lemma_layout_concat(sort_patterns(p), p, ls.subrange(h, t), ls.subrange(h, t));
        assert(block_lines(b) =~= sort_patterns(p) + ls.subrange(h, t));
        assert(ls.subrange(i, t) =~= p + ls.subrange(h, t));
    } else {
        let e = nonblank_run_end(ls, h);
        lemma_run_ends_bounds(ls, e);
        let hd = ls.subrange(i, h);
        let p = ls.subrange(h, e);
        let tr = ls.subrange(e, t);
        assert forall|k: int| 0 <= k < p.len() implies !is_blank(#[trigger] p[k]) by {
            assert(p[k] == ls[h + k]);
        }
        lemma_sorted_patterns_layout(p);
        lemma_layout_refl(hd);
        lemma_layout_refl(tr);
        lemma_layout_concat(hd, hd, sort_patterns(p), p);
        lemma_layout_concat(hd + sort_patterns(p), hd + p, tr, tr);
        assert(block_lines(b) =~= hd + sort_patterns(p) + tr);
        assert(ls.subrange(i, t) =~= hd + p + tr);
    }
}

pub proof fn lemma_blocks_layout(ls: Seq<Seq<char>>, i: int)
    requires
        0 <= i <= ls.len(),
    ensures
        same_blank_layout(render(blocks_from(ls, i)), ls.subrange(i, ls.len() as int)),
    decreases ls.len() - i,
{
    if i == ls.len() {
        assert(ls.subrange(i, ls.len() as int) =~= Seq::<Seq<char>>::empty());
        assert(render(blocks_from(ls, i)) =~= Seq::<Seq<char>>::empty());
    } else {
        let (b, t) = block_at(ls, i);
        lemma_block_at_advances(ls, i);
        lemma_blocks_layout(ls, t);
        lemma_block_layout(ls, i);
        lemma_layout_concat(
            block_lines(b),
            ls.subrange(i, t),
            render(blocks_from(ls, t)),
            ls.subrange(t, ls.len() as int),
        );
        assert(ls.subrange(i, t) + ls.subrange(t, ls.len() as int) =~= ls.subrange(
            i,
            ls.len() as int,
        ));
        if block_nonempty(b) {
            lemma_render_prepend(b, blocks_from(ls, t));
        } else {
            assert(block_lines(b) =~= Seq::<Seq<char>>::empty());
            assert(block_lines(b) + render(blocks_from(ls, t)) =~= render(blocks_from(ls, t)));
        }
    }
}

/// Sorting neither loses nor adds a line, and blank lines keep their place:
/// a line is blank after sorting exactly where it was blank before, and
/// there it is the same line. So sections keep their bounds.
pub proof fn law_sorting_keeps_lines_and_sections(ls: Seq<Seq<char>>)
    ensures
        same_blank_layout(sorted_lines(ls), ls),
{
    lemma_blocks_layout(ls, 0);
    assert(ls.subrange(0, ls.len() as int) =~= ls);
}

/// No line of `s` holds a line feed.
pub open spec fn no_line_feeds(ls: Seq<Seq<char>>) -> bool {
    forall|k: int, m: int| 0 <= k < ls.len() && 0 <= m < ls[k].len() ==> #[trigger] ls[k][m] != '\n'
}

pub proof fn lemma_lines_from_shape(s: Seq<char>, i: int)
    requires
        0 <= i <= s.len(),
    ensures
        no_line_feeds(lines_from(s, i)),
        i < s.len() && !ends_nl(s) ==> lines_from(s, i).len() > 0 && lines_from(s, i).last().len()
            > 0,
    decreases s.len() - i,
{
    if i < s.len() {
        let j = next_nl(s, i);
        lemma_next_nl_bounds(s, i);
        let r = lines_from(s, i);
        if j >= s.len() {
            let l = s.subrange(i, s.len() as int);
            assert forall|k: int, m: int| 0 <= k < r.len() && 0 <= m < r[k].len() implies #[trigger] r[k][m]
                != '\n' by {
                assert(r[k] == l);
                assert(l[m] == s[i + m]);
            }
        } else {
            lemma_lines_from_shape(s, j + 1);
            let l = strip_cr(s.subrange(i, j));
            let rest = lines_from(s, j + 1);
            assert(r == seq![l] + rest);
            assert forall|k: int, m: int| 0 <= k < r.len() && 0 <= m < r[k].len() implies #[trigger] r[k][m]
                != '\n' by {
                if k == 0 {
                    assert(r[k] == l);
                    assert(l[m] == s[i + m]);
                } else {
                    assert(r[k] == rest[k - 1]);
                }
            }
            if !ends_nl(s) {
                assert(j + 1 < s.len());
            }
        }
    }
}

pub proof fn lemma_join_last(ls: Seq<Seq<char>>)
    requires
        ls.len() > 0,
        ls.last().len() > 0,
    ensures
        join_lines(ls).len() > 0,
        join_lines(ls).last() == ls.last().last(),
    decreases ls.len(),
{
    if ls.len() > 1 {
        let j = join_lines(ls.drop_last()) + seq!['\n'] + ls.last();
        assert(j[j.len() - 1] == ls.last()[ls.last().len() - 1]);
    }
}

/// A final line feed is there after sorting exactly when it was there
/// before.
pub proof fn law_final_newline_kept(content: Seq<char>)
    ensures
        ends_nl(sorted_text(content)) == ends_nl(content),
{
    broadcast use vstd::seq_lib::group_to_multiset_ensures;

    let ls = lines_of(content);
    let out = sorted_lines(ls);
    law_sorting_keeps_lines_and_sections(ls);
    lemma_lines_from_shape(content, 0);
    if !ends_nl(content) {
        if content.len() == 0 {
            assert(ls =~= Seq::<Seq<char>>::empty());
            assert(out.len() == 0);
            assert(join_lines(out) =~= Seq::<char>::empty());
        } else {
            let n = out.len();
            let x = out[n - 1];
            assert(ls.last().len() > 0);
            if is_blank(ls[n - 1]) {
                assert(x == ls[n - 1]);
            } else {
                assert(!is_blank(x));
                assert(trim(x).len() > 0);
            }
            assert(x.len() > 0);
            assert(out.to_multiset().count(x) > 0);
            assert(ls.contains(x));
            let k = choose|k: int| 0 <= k < ls.len() && ls[k] == x;
            assert(ls[k][x.len() - 1] != '\n');
            lemma_join_last(out);
        }
    }
}

} // verus!

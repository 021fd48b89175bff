//! Cutting the lines of a `.gitignore` file into sections: header comments,
//! pattern lines, and the blank lines that end the section.

use vstd::prelude::*;

use crate::lines::views;
use crate::text::{chars_of, is_blank, is_blank_chars, is_comment, is_comment_chars};

verus! {

/// One section of a `.gitignore` file.
pub struct Block {
    /// Comment lines right above the patterns; they stay on top.
    pub header_comments: Vec<String>,
    /// The lines that are sorted.
    pub patterns: Vec<String>,
    /// The blank lines that end the section.
    pub trailing_blanks: Vec<String>,
}

/// The content of a section.
pub struct BlockView {
    pub header_comments: Seq<Seq<char>>,
    pub patterns: Seq<Seq<char>>,
    pub trailing_blanks: Seq<Seq<char>>,
}

impl View for Block {
    type V = BlockView;

    open spec fn view(&self) -> BlockView {
        BlockView {
            header_comments: views(self.header_comments@),
            patterns: views(self.patterns@),
            trailing_blanks: views(self.trailing_blanks@),
        }
    }
}

/// The views of a sequence of sections.
pub open spec fn block_views(v: Seq<Block>) -> Seq<BlockView> {
    v.map_values(|b: Block| b@)
}

/// End of the run of comment lines of `ls` that starts at `i`.
pub open spec fn comment_run_end(ls: Seq<Seq<char>>, i: int) -> int
    decreases ls.len() - i,
{
    if i < 0 || i >= ls.len() || !is_comment(ls[i]) {
        i
    } else {
        comment_run_end(ls, i + 1)
    }
}

/// End of the run of non-blank lines of `ls` that starts at `i`.
pub open spec fn nonblank_run_end(ls: Seq<Seq<char>>, i: int) -> int
    decreases ls.len() - i,
{
    if i < 0 || i >= ls.len() || is_blank(ls[i]) {
        i
    } else {
        nonblank_run_end(ls, i + 1)
    }
}

/// End of the run of blank lines of `ls` that starts at `i`.
pub open spec fn blank_run_end(ls: Seq<Seq<char>>, i: int) -> int
    decreases ls.len() - i,
{
    if i < 0 || i >= ls.len() || !is_blank(ls[i]) {
        i
    } else {
        blank_run_end(ls, i + 1)
    }
}

pub proof fn lemma_comment_run_end(ls: Seq<Seq<char>>, i: int, j: int)
    requires
        0 <= i <= j <= ls.len(),
        forall|k: int| i <= k < j ==> is_comment(#[trigger] ls[k]),
        j == ls.len() || !is_comment(ls[j]),
    ensures
        comment_run_end(ls, i) == j,
    decreases j - i,
{
    if i < j {
        lemma_comment_run_end(ls, i + 1, j);
    }
}

pub proof fn lemma_nonblank_run_end(ls: Seq<Seq<char>>, i: int, j: int)
    requires
        0 <= i <= j <= ls.len(),
        forall|k: int| i <= k < j ==> !is_blank(#[trigger] ls[k]),
        j == ls.len() || is_blank(ls[j]),
    ensures
        nonblank_run_end(ls, i) == j,
    decreases j - i,
{
    if i < j {
        lemma_nonblank_run_end(ls, i + 1, j);
    }
}

pub proof fn lemma_blank_run_end(ls: Seq<Seq<char>>, i: int, j: int)
    requires
        0 <= i <= j <= ls.len(),
        forall|k: int| i <= k < j ==> is_blank(#[trigger] ls[k]),
        j == ls.len() || !is_blank(ls[j]),
    ensures
        blank_run_end(ls, i) == j,
    decreases j - i,
{
    if i < j {
        lemma_blank_run_end(ls, i + 1, j);
    }
}

pub proof fn lemma_run_ends_bounds(ls: Seq<Seq<char>>, i: int)
    requires
        0 <= i <= ls.len(),
    ensures
        i <= comment_run_end(ls, i) <= ls.len(),
        i <= nonblank_run_end(ls, i) <= ls.len(),
        i <= blank_run_end(ls, i) <= ls.len(),
        forall|k: int| i <= k < comment_run_end(ls, i) ==> is_comment(#[trigger] ls[k]),
        forall|k: int| i <= k < nonblank_run_end(ls, i) ==> !is_blank(#[trigger] ls[k]),
        forall|k: int| i <= k < blank_run_end(ls, i) ==> is_blank(#[trigger] ls[k]),
        comment_run_end(ls, i) < ls.len() ==> !is_comment(ls[comment_run_end(ls, i)]),
        nonblank_run_end(ls, i) < ls.len() ==> is_blank(ls[nonblank_run_end(ls, i)]),
        blank_run_end(ls, i) < ls.len() ==> !is_blank(ls[blank_run_end(ls, i)]),
    decreases ls.len() - i,
{
    if i < ls.len() {
        lemma_run_ends_bounds(ls, i + 1);
    }
}

/// The section that starts at line `i` of `ls`, and the line after it.
pub open spec fn block_at(ls: Seq<Seq<char>>, i: int) -> (BlockView, int) {
    let h = comment_run_end(ls, i);
    if h >= ls.len() || is_blank(ls[h]) {
        let t = blank_run_end(ls, h);
        (
            BlockView {
                header_comments: Seq::empty(),
                patterns: ls.subrange(i, h),
                trailing_blanks: ls.subrange(h, t),
            },
            t,
        )
    } else {
        let e = nonblank_run_end(ls, h);
        let t = blank_run_end(ls, e);
        (
            BlockView {
                header_comments: ls.subrange(i, h),
                patterns: ls.subrange(h, e),
                trailing_blanks: ls.subrange(e, t),
            },
            t,
        )
    }
}

/// Whether a section holds any line.
pub open spec fn block_nonempty(b: BlockView) -> bool {
    b.header_comments.len() > 0 || b.patterns.len() > 0 || b.trailing_blanks.len() > 0
}

pub proof fn lemma_block_at_advances(ls: Seq<Seq<char>>, i: int)
    requires
        0 <= i < ls.len(),
    ensures
        i < block_at(ls, i).1 <= ls.len(),
{
    lemma_run_ends_bounds(ls, i);
    let h = comment_run_end(ls, i);
    lemma_run_ends_bounds(ls, h);
    if h < ls.len() {
        let e = nonblank_run_end(ls, h);
        lemma_run_ends_bounds(ls, e);
    }
}

/// The sections of `ls` from line `i` on.
pub open spec fn blocks_from(ls: Seq<Seq<char>>, i: int) -> Seq<BlockView>
    decreases ls.len() - i,
{
    if i < 0 || i >= ls.len() {
        Seq::empty()
    } else {
        let (b, t) = block_at(ls, i);
        proof {
            lemma_block_at_advances(ls, i);
        }
        if block_nonempty(b) {
            seq![b] + blocks_from(ls, t)
        } else {
            blocks_from(ls, t)
        }
    }
}

/// The sections of the lines `ls`.
pub open spec fn blocks_of(ls: Seq<Seq<char>>) -> Seq<BlockView> {
    blocks_from(ls, 0)
}

/// Copies `lines[from..to]`.
fn copy_lines(lines: &[String], from: usize, to: usize) -> (r: Vec<String>)
    requires
        from <= to <= lines@.len(),
    ensures
        views(r@) == views(lines@).subrange(from as int, to as int),
{
    let mut r: Vec<String> = Vec::new();
    let mut k = from;
    while k < to
        invariant
            from <= k <= to <= lines@.len(),
            views(r@) == views(lines@).subrange(from as int, k as int),
        decreases to - k,
    {
        let ghost before = views(r@);
        r.push(lines[k].clone());
        assert(views(r@) =~= before.push(lines@[k as int]@));
        assert(views(r@) =~= views(lines@).subrange(from as int, k + 1));
        k = k + 1;
    }
    r
}

/// The sections of `lines`: a run of comments directly above patterns is a
/// header; a run of comments followed by a blank line or the end of the
/// file counts as pattern lines; the patterns run up to the next blank
/// line, and the blank lines after them end the section.
pub fn parse_blocks(lines: &[String]) -> (r: Vec<Block>)
    ensures
        block_views(r@) == blocks_of(views(lines@)),
{
    let ghost ls = views(lines@);
    let n = lines.len();
    let mut comment: Vec<bool> = Vec::new();
    let mut blank: Vec<bool> = Vec::new();
    for k in 0..n
        invariant
            n == lines@.len(),
            ls == views(lines@),
            comment@.len() == k,
            blank@.len() == k,
            forall|m: int| 0 <= m < k ==> comment@[m] == is_comment(#[trigger] ls[m]),
            forall|m: int| 0 <= m < k ==> blank@[m] == is_blank(#[trigger] ls[m]),
    {
        let c = chars_of(lines[k].as_str());
        comment.push(is_comment_chars(&c));
        blank.push(is_blank_chars(&c));
    }
    let mut blocks: Vec<Block> = Vec::new();
    let mut i: usize = 0;
    while i < n
        invariant
            n == lines@.len() == comment@.len() == blank@.len(),
            ls == views(lines@),
            forall|m: int| 0 <= m < n ==> comment@[m] == is_comment(#[trigger] ls[m]),
            forall|m: int| 0 <= m < n ==> blank@[m] == is_blank(#[trigger] ls[m]),
            i <= n,
            block_views(blocks@) + blocks_from(ls, i as int) == blocks_of(ls),
        decreases n - i,
    {
        let ghost start = i as int;
        let header_start = i;
        while i < n && comment[i]
            invariant
                n == lines@.len() == comment@.len(),
                header_start <= i <= n,
                forall|m: int| 0 <= m < n ==> comment@[m] == is_comment(#[trigger] ls[m]),
                forall|m: int| header_start <= m < i ==> is_comment(#[trigger] ls[m]),
            decreases n - i,
        {
            i = i + 1;
        }
        proof {
            lemma_comment_run_end(ls, header_start as int, i as int);
        }
        let header_end = i;
        let header_comments: Vec<String>;
        let patterns: Vec<String>;
        if i >= n || blank[i] {
            header_comments = Vec::new();
            patterns = copy_lines(lines, header_start, header_end);
        } else {
            header_comments = copy_lines(lines, header_start, header_end);
            while i < n && !blank[i]
                invariant
                    n == lines@.len() == blank@.len(),
                    header_end <= i <= n,
                    forall|m: int| 0 <= m < n ==> blank@[m] == is_blank(#[trigger] ls[m]),
                    forall|m: int| header_end <= m < i ==> !is_blank(#[trigger] ls[m]),
                decreases n - i,
            {
                i = i + 1;
            }
            proof {
                lemma_nonblank_run_end(ls, header_end as int, i as int);
            }
            patterns = copy_lines(lines, header_end, i);
        }
        let pattern_end = i;
        while i < n && blank[i]
            invariant
                n == lines@.len() == blank@.len(),
                pattern_end <= i <= n,
                forall|m: int| 0 <= m < n ==> blank@[m] == is_blank(#[trigger] ls[m]),
                forall|m: int| pattern_end <= m < i ==> is_blank(#[trigger] ls[m]),
            decreases n - i,
        {
            i = i + 1;
        }
        proof {
            lemma_blank_run_end(ls, pattern_end as int, i as int);
        }
        let trailing_blanks = copy_lines(lines, pattern_end, i);
        let block = Block { header_comments, patterns, trailing_blanks };
        let ghost b = block@;
        proof {
            let h = header_end as int;
            assert(comment_run_end(ls, start) == h);
            if h >= ls.len() || is_blank(ls[h]) {
                assert(blank_run_end(ls, h) == i);
                assert(b.header_comments =~= Seq::<Seq<char>>::empty());
            } else {
                assert(!blank@[h]);
                assert(nonblank_run_end(ls, h) == pattern_end);
            }
        }
        assert(block_at(ls, start) == (b, i as int));
        let ghost before = block_views(blocks@);
        if header_comments_len(&block) > 0 || block.patterns.len() > 0
            || block.trailing_blanks.len() > 0 {
            blocks.push(block);
            assert(block_views(blocks@) =~= before.push(b));
            assert(blocks_from(ls, start) =~= seq![b] + blocks_from(ls, i as int));
            assert(block_views(blocks@) + blocks_from(ls, i as int) =~= before + blocks_from(
                ls,
                start,
            ));
        } else {
            assert(blocks_from(ls, start) =~= blocks_from(ls, i as int));
        }
    }
    assert(blocks_from(ls, n as int) =~= Seq::<BlockView>::empty());
    assert(block_views(blocks@) =~= block_views(blocks@) + blocks_from(ls, n as int));
    blocks
}

fn header_comments_len(b: &Block) -> (r: usize)
    ensures
        r == b.header_comments@.len(),
{
    b.header_comments.len()
}

} // verus!

//! Splitting text into lines the way `str::lines` does, and joining lines
//! with `\n`.

use vstd::prelude::*;
use vstd::string::*;

use crate::text::chars_of;

verus! {

/// Index of the first `\n` at or after `i`, or the length of `s` if none.
pub open spec fn next_nl(s: Seq<char>, i: int) -> int
    decreases s.len() - i,
{
    if i >= s.len() {
        s.len() as int
    } else if s[i] == '\n' {
        i
    } else {
        next_nl(s, i + 1)
    }
}

/// `l` without one trailing carriage return.
pub open spec fn strip_cr(l: Seq<char>) -> Seq<char> {
    if l.len() > 0 && l.last() == '\r' {
        l.drop_last()
    } else {
        l
    }
}

pub proof fn lemma_next_nl_bounds(s: Seq<char>, i: int)
    requires
        0 <= i,
    ensures
        i <= s.len() ==> i <= next_nl(s, i) <= s.len(),
        next_nl(s, i) < s.len() ==> s[next_nl(s, i)] == '\n',
        forall|k: int| i <= k < next_nl(s, i) ==> s[k] != '\n',
    decreases s.len() - i,
{
    if i < s.len() && s[i] != '\n' {
        lemma_next_nl_bounds(s, i + 1);
    }
}

/// The lines of `s` from index `i` on: split at `\n`, a `\r` right before a
/// `\n` dropped, no empty line after a final `\n`.
pub open spec fn lines_from(s: Seq<char>, i: int) -> Seq<Seq<char>>
    decreases s.len() - i,
{
    if i < 0 || i >= s.len() {
        Seq::empty()
    } else {
        let j = next_nl(s, i);
        proof {
            lemma_next_nl_bounds(s, i);
        }
        if j >= s.len() {
            seq![s.subrange(i, s.len() as int)]
        } else {
            seq![strip_cr(s.subrange(i, j))] + lines_from(s, j + 1)
        }
    }
}

/// The lines of `s`, as `str::lines` yields them.
pub open spec fn lines_of(s: Seq<char>) -> Seq<Seq<char>> {
    lines_from(s, 0)
}

/// The views of a sequence of strings.
pub open spec fn views(v: Seq<String>) -> Seq<Seq<char>> {
    v.map_values(|l: String| l@)
}

/// The lines joined with `\n` between them.
pub open spec fn join_lines(ls: Seq<Seq<char>>) -> Seq<char>
    decreases ls.len(),
{
    if ls.len() == 0 {
        Seq::empty()
    } else if ls.len() == 1 {
        ls[0]
    } else {
        join_lines(ls.drop_last()) + seq!['\n'] + ls.last()
    }
}

/// Whether `s` ends with a line feed.
pub open spec fn ends_nl(s: Seq<char>) -> bool {
    s.len() > 0 && s.last() == '\n'
}

/// Whether `s` ends with a line feed.
pub fn ends_with_newline(s: &str) -> (r: bool)
    ensures
        r == ends_nl(s@),
{
    let c = chars_of(s);
    c.len() > 0 && c[c.len() - 1] == '\n'
}

/// The lines of `content`.
pub fn split_lines(content: &str) -> (r: Vec<String>)
    ensures
        views(r@) == lines_of(content@),
{
    let c = chars_of(content);
    let n = c.len();
    let mut r: Vec<String> = Vec::new();
    let mut start: usize = 0;
    while start < n
        invariant
            n == c@.len(),
            c@ == content@,
            start <= n,
            views(r@) + lines_from(c@, start as int) == lines_of(c@),
        decreases n - start,
    {
        let mut j = start;
        while j < n && c[j] != '\n'
            invariant
                start <= j <= n == c@.len(),
                forall|k: int| start <= k < j ==> c@[k] != '\n',
            decreases n - j,
        {
            j = j + 1;
        }
        proof {
            lemma_next_nl_bounds(c@, start as int);
            lemma_next_nl_is(c@, start as int, j as int);
        }
        let ghost before = views(r@);
        if j == n {
            let piece = content.substring_char(start, n).to_owned();
            r.push(piece);
            assert(views(r@) =~= before.push(c@.subrange(start as int, n as int)));
            assert(lines_from(c@, n as int) =~= Seq::<Seq<char>>::empty());
            assert(views(r@) + lines_from(c@, n as int) =~= before + lines_from(c@, start as int));
            start = n;
        } else {
            let end = if j > start && c[j - 1] == '\r' {
                j - 1
            } else {
                j
            };
            let piece = content.substring_char(start, end).to_owned();
            r.push(piece);
            assert(c@.subrange(start as int, end as int) =~= strip_cr(
                c@.subrange(start as int, j as int),
            ));
            assert(views(r@) =~= before.push(strip_cr(c@.subrange(start as int, j as int))));
            assert(views(r@) + lines_from(c@, j + 1) =~= before + lines_from(c@, start as int));
            start = j + 1;
        }
    }
    assert(lines_from(c@, start as int) =~= Seq::<Seq<char>>::empty());
    assert(views(r@) =~= views(r@) + lines_from(c@, start as int));
    r
}

pub proof fn lemma_next_nl_is(s: Seq<char>, i: int, j: int)
    requires
        0 <= i <= j <= s.len(),
        forall|k: int| i <= k < j ==> s[k] != '\n',
        j == s.len() || s[j] == '\n',
    ensures
        next_nl(s, i) == j,
    decreases j - i,
{
    if i < j {
        lemma_next_nl_is(s, i + 1, j);
    }
}

/// The lines of `v` joined with `\n`.
pub fn join_with_newlines(v: &Vec<String>) -> (r: String)
    ensures
        r@ == join_lines(views(v@)),
{
    let mut r = String::new();
    let n = v.len();
    for i in 0..n
        invariant
            n == v@.len(),
            r@ == join_lines(views(v@).take(i as int)),
    {
        let ghost prev = views(v@).take(i as int);
        if i > 0 {
            proof {
                reveal_strlit("\n");
            }
            r.append("\n");
        }
        r.append(v[i].as_str());
        proof {
            let cur = views(v@).take(i + 1);
            assert(cur.drop_last() =~= prev);
            if i == 0 {
                assert(r@ =~= cur[0]);
            } else {
                assert(r@ =~= join_lines(prev) + seq!['\n'] + cur.last());
            }
        }
    }
    assert(views(v@).take(n as int) =~= views(v@));
    r
}

} // verus!

//! Character-level notions: whitespace, trimming, comment and blank lines,
//! and the key by which pattern lines are ordered.

use vstd::prelude::*;

verus! {

/// The Unicode `White_Space` property, the set `char::is_whitespace` tests.
pub open spec fn is_ws(c: char) -> bool {
    let u = c as u32;
    ||| 0x09 <= u <= 0x0d
    ||| u == 0x20
    ||| u == 0x85
    ||| u == 0xa0
    ||| u == 0x1680
    ||| 0x2000 <= u <= 0x200a
    ||| u == 0x2028
    ||| u == 0x2029
    ||| u == 0x202f
    ||| u == 0x205f
    ||| u == 0x3000
}

/// Whether `c` is white space.
pub fn is_whitespace_char(c: char) -> (r: bool)
    ensures
        r == is_ws(c),
{
    let u = c as u32;
    (0x09 <= u && u <= 0x0d) || u == 0x20 || u == 0x85 || u == 0xa0 || u == 0x1680 || (0x2000
        <= u && u <= 0x200a) || u == 0x2028 || u == 0x2029 || u == 0x202f || u == 0x205f || u
        == 0x3000
}

/// The characters of a string slice, in order.
pub fn chars_of(s: &str) -> (v: Vec<char>)
    ensures
        v@ == s@,
{
    let mut v: Vec<char> = Vec::new();
    for c in it: s.chars()
        invariant
            v@ == it.seq().take(it.index() as int),
            it.seq() == s@,
    {
        v.push(c);
    }
    v
}


/// Number of leading white-space characters of `s`.
pub open spec fn ws_prefix(s: Seq<char>) -> nat
    decreases s.len(),
{
    if s.len() > 0 && is_ws(s[0]) {
        1 + ws_prefix(s.drop_first())
    } else {
        0
    }
}

/// Number of trailing white-space characters of `s`.
pub open spec fn ws_suffix(s: Seq<char>) -> nat
    decreases s.len(),
{
    if s.len() > 0 && is_ws(s.last()) {
        1 + ws_suffix(s.drop_last())
    } else {
        0
    }
}

/// `s` without leading and trailing white space, as `str::trim` gives it.
pub open spec fn trim(s: Seq<char>) -> Seq<char> {
    if ws_prefix(s) >= s.len() {
        Seq::empty()
    } else {
        s.subrange(ws_prefix(s) as int, s.len() - ws_suffix(s))
    }
}

/// A comment line: its trimmed text starts with `#`.
pub open spec fn is_comment(s: Seq<char>) -> bool {
    trim(s).len() > 0 && trim(s)[0] == '#'
}

/// A blank line: nothing but white space.
pub open spec fn is_blank(s: Seq<char>) -> bool {
    trim(s).len() == 0
}

/// Number of leading `!` of `s`.
pub open spec fn bang_prefix(s: Seq<char>) -> nat
    decreases s.len(),
{
    if s.len() > 0 && s[0] == '!' {
        1 + bang_prefix(s.drop_first())
    } else {
        0
    }
}

/// ASCII upper-case letters mapped to lower case, every other character kept.
pub open spec fn ascii_lower(c: char) -> char {
    if 65 <= (c as u32) <= 90 {
        ((c as u32) + 32) as char
    } else {
        c
    }
}

/// The key by which a pattern line is ordered: trimmed, leading `!` removed,
/// ASCII letters lower-cased.
pub open spec fn sort_key(s: Seq<char>) -> Seq<char> {
    let t = trim(s);
    t.skip(bang_prefix(t) as int).map_values(|c: char| ascii_lower(c))
}

/// Lexicographic order on character sequences by code point (the order of
/// `String`'s `Ord`, since UTF-8 keeps the order of code points).
pub open spec fn lex_le(a: Seq<char>, b: Seq<char>) -> bool
    decreases a.len(),
{
    if a.len() == 0 {
        true
    } else if b.len() == 0 {
        false
    } else if a[0] < b[0] {
        true
    } else if a[0] > b[0] {
        false
    } else {
        lex_le(a.drop_first(), b.drop_first())
    }
}

proof fn lemma_ws_prefix(s: Seq<char>, i: int)
    requires
        0 <= i <= s.len(),
        forall|k: int| 0 <= k < i ==> is_ws(#[trigger] s[k]),
        i == s.len() || !is_ws(s[i]),
    ensures
        ws_prefix(s) == i,
    decreases i,
{
    if i > 0 {
        lemma_ws_prefix(s.drop_first(), i - 1);
    }
}

proof fn lemma_ws_suffix(s: Seq<char>, j: int)
    requires
        0 <= j <= s.len(),
        forall|k: int| j <= k < s.len() ==> is_ws(#[trigger] s[k]),
        j == 0 || !is_ws(s[j - 1]),
    ensures
        ws_suffix(s) == s.len() - j,
    decreases s.len() - j,
{
    if j < s.len() {
        lemma_ws_suffix(s.drop_last(), j);
    }
}

/// The bounds of the trimmed part of `c`.
pub fn trim_bounds(c: &Vec<char>) -> (r: (usize, usize))
    ensures
        r.0 <= r.1 <= c@.len(),
        trim(c@) == c@.subrange(r.0 as int, r.1 as int),
{
    let n = c.len();
    let mut a: usize = 0;
    while a < n && is_whitespace_char(c[a])
        invariant
            a <= n == c@.len(),
            forall|k: int| 0 <= k < a ==> is_ws(#[trigger] c@[k]),
        decreases n - a,
    {
        a = a + 1;
    }
    proof {
        lemma_ws_prefix(c@, a as int);
    }
    if a == n {
        assert(c@.subrange(n as int, n as int) =~= Seq::<char>::empty());
        return (n, n);
    }
    let mut b: usize = n;
    while b > a && is_whitespace_char(c[b - 1])
        invariant
            a < n == c@.len(),
            a <= b <= n,
            !is_ws(c@[a as int]),
            forall|k: int| b <= k < n ==> is_ws(#[trigger] c@[k]),
        decreases b,
    {
        b = b - 1;
    }
    proof {
        lemma_ws_suffix(c@, b as int);
    }
    (a, b)
}

/// Whether the line `c` is a comment line.
pub fn is_comment_chars(c: &Vec<char>) -> (r: bool)
    ensures
        r == is_comment(c@),
{
    let (a, b) = trim_bounds(c);
    a < b && c[a] == '#'
}

/// Whether the line `c` is blank.
pub fn is_blank_chars(c: &Vec<char>) -> (r: bool)
    ensures
        r == is_blank(c@),
{
    let (a, b) = trim_bounds(c);
    a == b
}

/// `c` with an ASCII upper-case letter lower-cased.
pub fn ascii_lower_char(c: char) -> (r: char)
    ensures
        r == ascii_lower(c),
{
    if 'A' <= c && c <= 'Z' {
        let b = (c as u8) + 32;
        let r = b as char;
        assert(r == ((c as u32) + 32) as char);
        r
    } else {
        c
    }
}

/// The sort key of the line `c`.
pub fn sort_key_chars(c: &Vec<char>) -> (r: Vec<char>)
    ensures
        r@ == sort_key(c@),
{
    let (a, b) = trim_bounds(c);
    let ghost t = c@.subrange(a as int, b as int);
    let mut i = a;
    while i < b && c[i] == '!'
        invariant
            a <= i <= b <= c@.len(),
            t == c@.subrange(a as int, b as int),
            forall|k: int| a <= k < i ==> #[trigger] c@[k] == '!',
        decreases b - i,
    {
        i = i + 1;
    }
    proof {
        lemma_bang_prefix(t, i - a);
    }
    let mut r: Vec<char> = Vec::new();
    let mut j = i;
    while j < b
        invariant
            a <= i <= j <= b <= c@.len(),
            r@ =~= c@.subrange(i as int, j as int).map_values(|x: char| ascii_lower(x)),
        decreases b - j,
    {
        let l = ascii_lower_char(c[j]);
        r.push(l);
        j = j + 1;
    }
    assert(t.skip(i - a) =~= c@.subrange(i as int, b as int));
    r
}

proof fn lemma_bang_prefix(s: Seq<char>, i: int)
    requires
        0 <= i <= s.len(),
        forall|k: int| 0 <= k < i ==> #[trigger] s[k] == '!',
        i == s.len() || s[i] != '!',
    ensures
        bang_prefix(s) == i,
    decreases i,
{
    if i > 0 {
        lemma_bang_prefix(s.drop_first(), i - 1);
    }
}

} // verus!

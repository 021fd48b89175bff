//! What the language server decides: which documents are open, and the
//! edit that sorts one of them.

use vstd::prelude::*;
use vstd::string::*;
use vstd::utf8::encode_utf8;

use crate::documents::{
    document_map, document_text, insert_document, new_document_map, no_documents,
    remove_document, DocumentMap,
};
use crate::gitignore::{sort_git_ignore, sorted_text};
use crate::lines::{
    ends_nl, ends_with_newline, lemma_next_nl_bounds, lines_from, next_nl, split_lines,
    views,
};

verus! {

/// A position in a document: zero-based line, and offset in that line.
#[derive(Clone, Copy, Debug)]
pub struct Position {
    pub line: u32,
    pub character: u32,
}

/// A stretch of a document.
#[derive(Clone, Copy, Debug)]
pub struct Range {
    pub start: Position,
    pub end: Position,
}

/// Replace the text in `range` with `new_text`.
#[derive(Debug)]
pub struct TextEdit {
    pub range: Range,
    pub new_text: String,
}

/// The content of an edit.
pub struct EditView {
    pub range: Range,
    pub new_text: Seq<char>,
}

impl View for TextEdit {
    type V = EditView;

    open spec fn view(&self) -> EditView {
        EditView { range: self.range, new_text: self.new_text@ }
    }
}

/// The views of a sequence of edits.
pub open spec fn edit_views(v: Seq<TextEdit>) -> Seq<EditView> {
    v.map_values(|e: TextEdit| e@)
}

/// Number of line feeds in `t`.
pub open spec fn count_nl(t: Seq<char>) -> nat
    decreases t.len(),
{
    if t.len() == 0 {
        0
    } else {
        count_nl(t.drop_last()) + if t.last() == '\n' {
            1nat
        } else {
            0nat
        }
    }
}

/// The text after the last line feed of `t` (all of `t` if it has none).
pub open spec fn after_last_nl(t: Seq<char>) -> Seq<char>
    decreases t.len(),
{
    if t.len() == 0 {
        t
    } else if t.last() == '\n' {
        Seq::empty()
    } else {
        after_last_nl(t.drop_last()).push(t.last())
    }
}

/// The length in bytes that `str::len` reports for a text whose characters
/// are `s`.
pub open spec fn byte_len(s: Seq<char>) -> usize {
    encode_utf8(s).len() as usize
}

/// The position just past the end of `t`, as line and byte offset; the
/// line number is counted in a `u32`, as the protocol has it.
pub open spec fn document_end(t: Seq<char>) -> Position {
    if ends_nl(t) {
        Position { line: count_nl(t) as u32, character: 0 }
    } else {
        let lines = (count_nl(t) + 1) as u32;
        Position {
            line: if lines == 0 {
                0
            } else {
                (lines - 1) as u32
            },
            character: byte_len(after_last_nl(t)) as u32,
        }
    }
}

/// The edit that replaces all of the text `t` with its sorted text.
pub open spec fn sort_edit(t: Seq<char>) -> EditView {
    EditView {
        range: Range { start: Position { line: 0, character: 0 }, end: document_end(t) },
        new_text: sorted_text(t),
    }
}

/// The edits that sort the text `t`: nothing when it is sorted already,
/// else the one edit that replaces all of it with the sorted text.
pub open spec fn edits_for(t: Seq<char>) -> Option<Seq<EditView>> {
    if sorted_text(t) == t {
        None
    } else {
        Some(seq![sort_edit(t)])
    }
}

/// The answer to a formatting request for `uri` when the open documents
/// are `docs`: nothing for a document that is not open or is sorted
/// already.
pub open spec fn formatting_result(docs: Map<Seq<char>, Seq<char>>, uri: Seq<char>) -> Option<
    Seq<EditView>,
> {
    if docs.contains_key(uri) {
        edits_for(docs[uri])
    } else {
        None
    }
}

/// The title of the code action that sorts a file.
pub open spec fn sort_action_title() -> Seq<char> {
    "Sort .gitignore"@
}

/// The kind of a code action, as the editor groups them.
#[derive(Clone, Copy, Debug)]
pub enum ActionKind {
    /// A source action that fixes the whole file at once.
    SourceFixAll,
}

/// A code action of kind `kind` that applies `edits` to the document `uri`;
/// `is_preferred` asks the editor to pick it before the others.
#[derive(Debug)]
pub struct SortAction {
    pub title: String,
    pub kind: ActionKind,
    pub is_preferred: bool,
    pub uri: String,
    pub edits: Vec<TextEdit>,
}

proof fn lemma_count_nl_concat(a: Seq<char>, b: Seq<char>)
    ensures
        count_nl(a + b) == count_nl(a) + count_nl(b),
    decreases b.len(),
{
    if b.len() == 0 {
        assert(a + b =~= a);
    } else {
        lemma_count_nl_concat(a, b.drop_last());
        assert((a + b).drop_last() =~= a + b.drop_last());
    }
}

proof fn lemma_after_last_nl_concat(a: Seq<char>, b: Seq<char>)
    requires
        ends_nl(a),
    ensures
        after_last_nl(a + b) == after_last_nl(b),
    decreases b.len(),
{
    if b.len() == 0 {
        assert(a + b =~= a);
        assert(after_last_nl(b) =~= Seq::<char>::empty());
    } else {
        lemma_after_last_nl_concat(a, b.drop_last());
        assert((a + b).drop_last() =~= a + b.drop_last());
    }
}

proof fn lemma_no_nl(u: Seq<char>)
    requires
        forall|k: int| 0 <= k < u.len() ==> u[k] != '\n',
    ensures
        count_nl(u) == 0,
        after_last_nl(u) == u,
    decreases u.len(),
{
    if u.len() > 0 {
        lemma_no_nl(u.drop_last());
        assert(after_last_nl(u.drop_last()).push(u.last()) =~= u);
    }
}

/// How many lines `str::lines` yields, and which the last is.
proof fn lemma_lines_count(s: Seq<char>, i: int)
    requires
        0 <= i <= s.len(),
    ensures
        ({
            let u = s.subrange(i, s.len() as int);
            &&& lines_from(s, i).len() == count_nl(u) + if u.len() > 0 && !ends_nl(u) {
                1nat
            } else {
                0nat
            }
            &&& u.len() > 0 && !ends_nl(u) ==> lines_from(s, i).last() == after_last_nl(u)
        }),
    decreases s.len() - i,
{
    let u = s.subrange(i, s.len() as int);
    if i == s.len() {
        assert(u =~= Seq::<char>::empty());
    } else {
        let j = next_nl(s, i);
        lemma_next_nl_bounds(s, i);
        if j >= s.len() {
            assert forall|k: int| 0 <= k < u.len() implies u[k] != '\n' by {
                assert(u[k] == s[i + k]);
            }
            lemma_no_nl(u);
        } else {
            lemma_lines_count(s, j + 1);
            let a = s.subrange(i, j + 1);
            let b = s.subrange(j + 1, s.len() as int);
            assert(u =~= a + b);
            let pre = s.subrange(i, j);
            assert forall|k: int| 0 <= k < pre.len() implies pre[k] != '\n' by {
                assert(pre[k] == s[i + k]);
            }
            lemma_no_nl(pre);
            assert(a =~= pre.push('\n'));
            lemma_count_nl_concat(a, b);
            lemma_after_last_nl_concat(a, b);
            assert(a.drop_last() =~= pre);
            if b.len() > 0 {
                assert(u.last() == b.last());
            }
        }
    }
}

/// What happens to the open documents: the events the server is told of.
pub enum DocumentEvent {
    /// A document was opened with a text.
    Open(Seq<char>, Seq<char>),
    /// A document changed; the full texts sent, the last one current.
    Change(Seq<char>, Seq<Seq<char>>),
    /// A document was closed.
    Close(Seq<char>),
}

/// The open documents after `e`, as `did_open`, `did_change` and
/// `did_close` leave them.
pub open spec fn apply_event(docs: Map<Seq<char>, Seq<char>>, e: DocumentEvent) -> Map<
    Seq<char>,
    Seq<char>,
> {
    match e {
        DocumentEvent::Open(uri, text) => docs.insert(uri, text),
        DocumentEvent::Change(uri, changes) => if changes.len() == 0 {
            docs
        } else {
            docs.insert(uri, changes.last())
        },
        DocumentEvent::Close(uri) => docs.remove(uri),
    }
}

/// The open documents after the events `es`, one after the other.
pub open spec fn apply_events(docs: Map<Seq<char>, Seq<char>>, es: Seq<DocumentEvent>) -> Map<
    Seq<char>,
    Seq<char>,
>
    decreases es.len(),
{
    if es.len() == 0 {
        docs
    } else {
        apply_event(apply_events(docs, es.drop_last()), es.last())
    }
}

/// What the last of the events `es` that concerns `uri` left it: `None`
/// when no event concerns it, `Some(None)` when it was closed,
/// `Some(Some(t))` when its text was set to `t`.
pub open spec fn last_state(es: Seq<DocumentEvent>, uri: Seq<char>) -> Option<Option<Seq<char>>>
    decreases es.len(),
{
    if es.len() == 0 {
        None
    } else {
        match es.last() {
            DocumentEvent::Open(u, text) if u == uri => Some(Some(text)),
            DocumentEvent::Change(u, changes) if u == uri && changes.len() > 0 => Some(
                Some(changes.last()),
            ),
            DocumentEvent::Close(u) if u == uri => Some(None),
            _ => last_state(es.drop_last(), uri),
        }
    }
}

/// A document just opened is formatted by what its text gives.
pub proof fn law_open_then_format(docs: Map<Seq<char>, Seq<char>>, uri: Seq<char>, text: Seq<char>)
    ensures
        formatting_result(docs.insert(uri, text), uri) == edits_for(text),
{
}

/// A closed document gets no answer to a formatting request.
pub proof fn law_close_then_format(docs: Map<Seq<char>, Seq<char>>, uri: Seq<char>)
    ensures
        formatting_result(docs.remove(uri), uri) is None,
{
}

/// Opening, changing or closing one document leaves the answer for any
/// other document as it was.
pub proof fn law_other_documents_unaffected(
    docs: Map<Seq<char>, Seq<char>>,
    uri: Seq<char>,
    other: Seq<char>,
    text: Seq<char>,
)
    requires
        uri != other,
    ensures
        formatting_result(docs.insert(uri, text), other) == formatting_result(docs, other),
        formatting_result(docs.remove(uri), other) == formatting_result(docs, other),
{
    assert(docs.insert(uri, text).contains_key(other) == docs.contains_key(other));
    assert(docs.remove(uri).contains_key(other) == docs.contains_key(other));
}

/// After any run of opens, changes and closes, the answer for a document
/// is decided by the last of them that concerned it: none after a close,
/// the edits for the text it set after an open or a change, and, when
/// none concerned it, the answer from before the run.
pub proof fn law_format_after_events(
    docs: Map<Seq<char>, Seq<char>>,
    es: Seq<DocumentEvent>,
    uri: Seq<char>,
)
    ensures
        formatting_result(apply_events(docs, es), uri) == match last_state(es, uri) {
            None => formatting_result(docs, uri),
            Some(None) => None,
            Some(Some(text)) => edits_for(text),
        },
    decreases es.len(),
{
    if es.len() > 0 {
        let before = apply_events(docs, es.drop_last());
        law_format_after_events(docs, es.drop_last(), uri);
        match es.last() {
            DocumentEvent::Open(u, text) => {
                if u != uri {
                    law_other_documents_unaffected(before, u, uri, text);
                }
            },
            DocumentEvent::Change(u, changes) => {
                if u != uri && changes.len() > 0 {
                    law_other_documents_unaffected(before, u, uri, changes.last());
                }
            },
            DocumentEvent::Close(u) => {
                if u != uri {
                    law_other_documents_unaffected(before, u, uri, Seq::empty());
                }
            },
        }
    }
}

/// A server that was just made answers, after any run of events, with
/// nothing for a document no event opened or that was closed last, and
/// with the edits for the text last set otherwise.
pub proof fn law_format_after_events_from_start(es: Seq<DocumentEvent>, uri: Seq<char>)
    ensures
        formatting_result(apply_events(no_documents(), es), uri) == match last_state(es, uri) {
            Some(Some(text)) => edits_for(text),
            _ => None,
        },
{
    law_format_after_events(no_documents(), es, uri);
}

/// A text gets no edit exactly when sorting leaves it as it is; otherwise
/// one edit, from the first position to the end, holding the sorted text.
pub proof fn law_none_iff_sorted(t: Seq<char>)
    ensures
        (edits_for(t) is None) == (sorted_text(t) == t),
        edits_for(t) matches Some(v) ==> v.len() == 1 && v[0].new_text == sorted_text(t)
            && v[0].range.start == (Position { line: 0, character: 0 }) && v[0].range.end
            == document_end(t),
{
}

/// Where neither count overflows a `u32`, the end position is the number
/// of line feeds and the byte length of the text after the last of them.
pub proof fn law_document_end_is_end_of_text(t: Seq<char>)
    requires
        count_nl(t) <= u32::MAX,
        !ends_nl(t) ==> count_nl(t) < u32::MAX && encode_utf8(after_last_nl(t)).len()
            <= u32::MAX,
    ensures
        document_end(t).line == count_nl(t),
        document_end(t).character == if ends_nl(t) {
            0
        } else {
            encode_utf8(after_last_nl(t)).len()
        },
{
}

/// The editor-facing state of the server: the open documents.
pub struct Backend {
    documents: DocumentMap,
}

impl View for Backend {
    type V = Map<Seq<char>, Seq<char>>;

    /// Each open document's URI mapped to its text.
    closed spec fn view(&self) -> Map<Seq<char>, Seq<char>> {
        document_map(self.documents)
    }
}

impl Backend {
    /// A server with no document open.
    pub fn new() -> (b: Self)
        ensures
            b@ == no_documents(),
    {
        Backend { documents: new_document_map() }
    }

    /// A document was opened with the text `text`.
    pub fn did_open(&mut self, uri: String, text: String)
        ensures
            final(self)@ == old(self)@.insert(uri@, text@),
            final(self)@ == apply_event(old(self)@, DocumentEvent::Open(uri@, text@)),
    {
        insert_document(&mut self.documents, uri, text);
    }

    /// A document changed; `changes` are the full texts sent, and the last
    /// one is the document's text now. With none, nothing changes.
    pub fn did_change(&mut self, uri: String, changes: Vec<String>)
        ensures
            final(self)@ == if changes@.len() == 0 {
                old(self)@
            } else {
                old(self)@.insert(uri@, changes@.last()@)
            },
            final(self)@ == apply_event(old(self)@, DocumentEvent::Change(uri@, views(changes@))),
    {
        let mut changes = changes;
        if let Some(change) = changes.pop() {
            insert_document(&mut self.documents, uri, change);
        }
    }

    /// A document was closed.
    pub fn did_close(&mut self, uri: &str)
        ensures
            final(self)@ == old(self)@.remove(uri@),
            final(self)@ == apply_event(old(self)@, DocumentEvent::Close(uri@)),
    {
        remove_document(&mut self.documents, uri);
    }

    /// The edits that sort the document `uri`: `None` when it is not open
    /// or is sorted already, else the one edit that replaces the whole
    /// document with its sorted text.
    pub fn formatting_edits(&self, uri: &str) -> (r: Option<Vec<TextEdit>>)
        ensures
            match r {
                Some(v) => formatting_result(self@, uri@) == Some(edit_views(v@)),
                None => formatting_result(self@, uri@) is None,
            },
    {
        let text = match document_text(&self.documents, uri) {
            Some(t) => t,
            None => {
                return None;
            },
        };
        let sorted = sort_git_ignore(text.as_str());
        if sorted == text {
            return None;
        }
        let lines = split_lines(text.as_str());
        proof {
            lemma_lines_count(text@, 0);
            assert(text@.subrange(0, text@.len() as int) =~= text@);
        }
        let n = lines.len();
        let line_count = n as u32;
        let last_line_len: u32 = if n > 0 {
            let l = lines[n - 1].as_str().len();
            l as u32
        } else {
            0
        };
        let end = if ends_with_newline(text.as_str()) {
            Position { line: line_count, character: 0 }
        } else {
            Position { line: line_count.saturating_sub(1), character: last_line_len }
        };
        proof {
            if !ends_nl(text@) && n > 0 {
                assert(views(lines@)[n - 1] == lines@[n - 1]@);
            }
            if text@.len() == 0 {
                assert(after_last_nl(text@) =~= Seq::<char>::empty());
                assert(encode_utf8(Seq::<char>::empty()) =~= Seq::<u8>::empty());
            }
        }
        assert(end == document_end(text@));
        let edit = TextEdit {
            range: Range { start: Position { line: 0, character: 0 }, end },
            new_text: sorted,
        };
        let mut v: Vec<TextEdit> = Vec::new();
        v.push(edit);
        assert(edit_views(v@) =~= seq![sort_edit(text@)]);
        Some(v)
    }

    /// The code action offered for `uri`: one that sorts it, when it is
    /// open and not sorted yet; else none.
    pub fn code_action(&self, uri: &str) -> (r: Option<SortAction>)
        ensures
            match formatting_result(self@, uri@) {
                Some(e) => r matches Some(a) && a.title@ == sort_action_title() && a.kind
                    == ActionKind::SourceFixAll && a.is_preferred && a.uri@ == uri@ && edit_views(
                    a.edits@,
                ) == e,
                None => r is None,
            },
    {
        let edits = match self.formatting_edits(uri) {
            Some(e) => e,
            None => {
                return None;
            },
        };
        Some(
            SortAction {
                title: String::from_str("Sort .gitignore"),
                kind: ActionKind::SourceFixAll,
                is_preferred: true,
                uri: String::from_str(uri),
                edits,
            },
        )
    }
}

} // verus!

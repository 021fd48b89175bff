//! The texts of the open documents, keyed by URI, held in a `DashMap`.

use dashmap::DashMap;
use vstd::prelude::*;

verus! {

/// `dashmap::DashMap`, carried as an opaque value.
#[verifier::external_type_specification]
#[verifier::external_body]
#[verifier::reject_recursive_types(K)]
#[verifier::reject_recursive_types(V)]
#[verifier::reject_recursive_types(S)]
pub struct ExDashMap<K, V, S>(DashMap<K, V, S>);

/// The map of open documents: URI to text.
pub type DocumentMap = DashMap<String, String>;

/// What a map of documents holds: each URI's view mapped to its text's view.
pub uninterp spec fn document_map(m: DocumentMap) -> Map<Seq<char>, Seq<char>>;

/// The map with no document.
pub open spec fn no_documents() -> Map<Seq<char>, Seq<char>> {
    Map::empty()
}

/// `DashMap::new`: the new map holds no entry.
#[verifier::external_body]
pub(crate) fn new_document_map() -> (docs: DocumentMap)
    ensures
        document_map(docs) == no_documents(),
{
    DashMap::new()
}

/// `DashMap::insert`: afterwards `uri` maps to `text`; every other entry is
/// unchanged.
#[verifier::external_body]
pub(crate) fn insert_document(m: &mut DocumentMap, uri: String, text: String)
    ensures
        document_map(*final(m)) == document_map(*old(m)).insert(uri@, text@),
{
    m.insert(uri, text);
}

/// `DashMap::remove`: afterwards `uri` maps to nothing; every other entry is
/// unchanged.
#[verifier::external_body]
pub(crate) fn remove_document(m: &mut DocumentMap, uri: &str)
    ensures
        document_map(*final(m)) == document_map(*old(m)).remove(uri@),
{
    m.remove(uri);
}

/// `DashMap::get`, the value cloned: the text `uri` maps to, or `None` when
/// it maps to nothing.
#[verifier::external_body]
pub(crate) fn document_text(m: &DocumentMap, uri: &str) -> (r: Option<String>)
    ensures
        match r {
            Some(t) => document_map(*m).contains_key(uri@) && t@ == document_map(*m)[uri@],
            None => !document_map(*m).contains_key(uri@),
        },
{
    match m.get(uri) {
        Some(entry) => Some(entry.value().clone()),
        None => None,
    }
}

} // verus!

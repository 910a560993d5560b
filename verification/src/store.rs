//! The set of open documents, keyed by URI.

use dashmap::DashMap;
use vstd::prelude::*;

use crate::document::Document;
#[allow(unused_imports)]
use crate::document::DocumentModel;
#[allow(unused_imports)]
use crate::position::fits;

verus! {

/// `dashmap::DashMap`, the concurrent hash map the server keeps its state in.
/// Nothing is claimed of it here: what a map holds is named, and each method's
/// effect on it stated, by the functions that call it.
#[verifier::external_type_specification]
#[verifier::external_body]
#[verifier::reject_recursive_types(K)]
#[verifier::reject_recursive_types(V)]
#[verifier::reject_recursive_types(S)]
pub struct ExDashMap<K, V, S>(DashMap<K, V, S>);

/// What a map of documents holds, by the text of its keys.
pub uninterp spec fn documents_in(docs: DashMap<String, Document>) -> Map<Seq<char>, Document>;

/// `DashMap::new`: a new map holds nothing.
#[verifier::external_body]
fn docs_new() -> (docs: DashMap<String, Document>)
    ensures
        (documents_in(docs) == Map::<Seq<char>, Document>::empty()),
{
    DashMap::new()
}

/// `DashMap::insert`: the value stands under the key afterwards, in place of any
/// that stood there, and nothing else changes.
#[verifier::external_body]
fn docs_insert(docs: &mut DashMap<String, Document>, uri: String, doc: Document)
    ensures
        documents_in(*final(docs)) == documents_in(*old(docs)).insert(uri@, doc),
{
    docs.insert(uri, doc);
}

/// `DashMap::remove`: nothing stands under the key afterwards, and nothing else
/// changes.
#[verifier::external_body]
fn docs_remove(docs: &mut DashMap<String, Document>, uri: &str)
    ensures
        documents_in(*final(docs)) == documents_in(*old(docs)).remove(uri@),
{
    docs.remove(uri);
}

/// `DashMap::get`: finds the value under a key exactly where one stands there.
/// Its text and version are copied out, so no lock is held once this returns.
#[verifier::external_body]
fn docs_get(docs: &DashMap<String, Document>, uri: &str) -> (found: Option<(String, i32)>)
    ensures
        match found {
            Some(pair) => documents_in(*docs).contains_key(uri@) && pair.0@ == documents_in(
                *docs,
            )[uri@]@.text && pair.1 == documents_in(*docs)[uri@]@.version,
            None => !documents_in(*docs).contains_key(uri@),
        },
{
    docs.get(uri).map(|d| d.value().snapshot())
}

/// A concurrent map of open documents. The protocol handlers run on many tasks,
/// so the store hands out cloned text rather than a borrow held across an await.
pub struct Store {
    docs: DashMap<String, Document>,
}

impl Store {
    /// The open documents, by URI.
    pub closed spec fn view(&self) -> Map<Seq<char>, DocumentModel> {
        Map::new(
            |uri: Seq<char>| documents_in(self.docs).contains_key(uri),
            |uri: Seq<char>| documents_in(self.docs)[uri]@,
        )
    }

    /// Every document has the line map of its own text.
    pub closed spec fn wf(&self) -> bool {
        forall|uri: Seq<char>|
            documents_in(self.docs).contains_key(uri) ==> (#[trigger] documents_in(
                self.docs,
            )[uri]).wf()
    }

    pub fn new() -> (store: Store)
        ensures
            store@ == Map::<Seq<char>, DocumentModel>::empty(),
            store.wf(),
    {
        let store = Store { docs: docs_new() };
        assert(store@ =~= Map::<Seq<char>, DocumentModel>::empty());
        store
    }

    /// Records a newly opened document.
    pub fn open(&mut self, uri: String, text: String, version: i32)
        requires
            old(self).wf(),
            fits(text@),
        ensures
            final(self).wf(),
            final(self)@ == old(self)@.insert(
                uri@,
                (DocumentModel { text: text@, version }),
            ),
    {
        let ghost model = DocumentModel { text: text@, version };
        let ghost key = uri@;
        docs_insert(&mut self.docs, uri, Document::new(text, version));
        assert(self@ =~= old(self)@.insert(key, model));
    }

    /// Replaces a document's text after a full sync change.
    pub fn update(&mut self, uri: String, text: String, version: i32)
        requires
            old(self).wf(),
            fits(text@),
        ensures
            final(self).wf(),
            final(self)@ == old(self)@.insert(
                uri@,
                (DocumentModel { text: text@, version }),
            ),
    {
        let ghost model = DocumentModel { text: text@, version };
        let ghost key = uri@;
        docs_insert(&mut self.docs, uri, Document::new(text, version));
        assert(self@ =~= old(self)@.insert(key, model));
    }

    /// Drops a document the client closed.
    pub fn close(&mut self, uri: &str)
        requires
            old(self).wf(),
        ensures
            final(self).wf(),
            final(self)@ == old(self)@.remove(uri@),
    {
        docs_remove(&mut self.docs, uri);
        assert(self@ =~= old(self)@.remove(uri@));
    }

    /// The current text of an open document, if it is open.
    pub fn text(&self, uri: &str) -> (text: Option<String>)
        ensures
            match text {
                Some(t) => self@.contains_key(uri@) && t@ == self@[uri@].text,
                None => !self@.contains_key(uri@),
            },
    {
        match docs_get(&self.docs, uri) {
            Some((text, _)) => Some(text),
            None => None,
        }
    }

    /// The text and version of an open document, taken together so a later
    /// publish can check whether it is still current.
    pub fn snapshot(&self, uri: &str) -> (pair: Option<(String, i32)>)
        ensures
            match pair {
                Some((text, version)) => self@.contains_key(uri@) && self@[uri@] == (
                DocumentModel { text: text@, version }),
                None => !self@.contains_key(uri@),
            },
    {
        docs_get(&self.docs, uri)
    }

    /// The version the client last sent for a document, if it is open.
    pub fn version(&self, uri: &str) -> (version: Option<i32>)
        ensures
            version == (if self@.contains_key(uri@) {
                Some(self@[uri@].version)
            } else {
                None
            }),
    {
        match docs_get(&self.docs, uri) {
            Some((_, version)) => Some(version),
            None => None,
        }
    }
}

/// A read gives back the last write: after a document is opened or updated, its
/// text and version are the ones given, and every other document is as it was.
pub proof fn law_reads_give_back_the_last_write(
    before: Store,
    after: Store,
    uri: Seq<char>,
    doc: DocumentModel,
    other: Seq<char>,
)
    requires
        after@ == before@.insert(uri, doc),
    ensures
        after@.contains_key(uri) && after@[uri] == doc,
        other != uri ==> after@.contains_key(other) == before@.contains_key(other),
        other != uri && before@.contains_key(other) ==> after@[other] == before@[other],
{
}

/// A closed document is no longer open, and every other document is as it was.
pub proof fn law_a_closed_document_is_gone(
    before: Store,
    after: Store,
    uri: Seq<char>,
    other: Seq<char>,
)
    requires
        after@ == before@.remove(uri),
    ensures
        !after@.contains_key(uri),
        other != uri ==> after@.contains_key(other) == before@.contains_key(other),
        other != uri && before@.contains_key(other) ==> after@[other] == before@[other],
{
}

} // verus!

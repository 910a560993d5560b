//! An open document and its line map.

use vstd::prelude::*;

use crate::position::LineIndex;
#[allow(unused_imports)]
use crate::position::fits;

verus! {

/// A file the client has opened: its full text, a line map for position
/// conversion, and the version the client last sent. Vesper keeps the whole
/// text and rebuilds the map on each change, which is cheap for the file sizes
/// dusk programs run to.
#[derive(Debug)]
pub struct Document {
    pub text: String,
    pub index: LineIndex,
    pub version: i32,
}

/// What a document holds: its text, and the version the client gave it.
#[verifier::ext_equal]
pub struct DocumentModel {
    pub text: Seq<char>,
    pub version: i32,
}

impl Document {
    pub open spec fn view(&self) -> DocumentModel {
        DocumentModel { text: self.text@, version: self.version }
    }

    /// The line map is the one of the text.
    pub open spec fn wf(&self) -> bool {
        self.index.maps(self.text@)
    }

    pub fn new(text: String, version: i32) -> (doc: Document)
        requires
            fits(text@),
        ensures
            doc@ == (DocumentModel { text: text@, version }),
            doc.wf(),
    {
        let index = LineIndex::new(text.as_str());
        Document { text, index, version }
    }

    /// The text and the version, taken together.
    pub fn snapshot(&self) -> (pair: (String, i32))
        ensures
            pair.0@ == self@.text,
            pair.1 == self@.version,
    {
        (self.text.clone(), self.version)
    }
}

/// A document says its text and its version.
pub proof fn law_a_document_says_its_text_and_version(doc: Document)
    ensures
        doc@.text == doc.text@,
        doc@.version == doc.version,
{
}

} // verus!

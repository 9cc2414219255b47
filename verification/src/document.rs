//! Documents: an integer id plus the content string, preserved byte for
//! byte so that highlight offsets index into it.

use vstd::prelude::*;

verus! {

/// A document contains an id and content.  Equality is by id only.
#[derive(Clone, Debug)]
pub struct Document {
    /// The id of the document.
    pub id: u64,
    /// The document's content.
    pub content: String,
}

impl Document {
    /// Constructs a new document from an id and content.
    pub fn new(id: u64, content: &str) -> (d: Document)
        ensures
            d.id == id,
            d.content@ == content@,
    {
        Document { id, content: content.to_owned() }
    }

    /// The document's id.
    pub fn id(&self) -> (r: u64)
        ensures
            r == self.id,
    {
        self.id
    }

    /// The document's content.
    pub fn content(&self) -> (r: &str)
        ensures
            r@ == self.content@,
    {
        self.content.as_str()
    }

    /// Copies the document.
    pub fn duplicate(&self) -> (d: Document)
        ensures
            d.id == self.id,
            d.content@ == self.content@,
    {
        Document { id: self.id, content: self.content.clone() }
    }
}

/// Documents are unique upon their id.
impl PartialEq for Document {
    fn eq(&self, other: &Document) -> (r: bool) {
        self.id == other.id
    }
}

impl vstd::std_specs::cmp::PartialEqSpecImpl for Document {
    open spec fn obeys_eq_spec() -> bool {
        true
    }

    open spec fn eq_spec(&self, other: &Document) -> bool {
        self.id == other.id
    }
}

} // verus!

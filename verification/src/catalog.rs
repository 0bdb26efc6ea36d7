use vstd::prelude::*;

verus! {

/// One entry of the game catalog: a relative path whose final component is
/// the ROM filename, and the canonical name of the game it belongs to.
pub struct CatalogRecord {
    pub path: String,
    pub name: String,
}

impl View for CatalogRecord {
    type V = (Seq<char>, Seq<char>);

    open spec fn view(&self) -> (Seq<char>, Seq<char>) {
        (self.path@, self.name@)
    }
}

impl CatalogRecord {
    pub fn new(path: String, name: String) -> (r: CatalogRecord)
        ensures
            r.path@ == path@,
            r.name@ == name@,
    {
        CatalogRecord { path, name }
    }
}

/// The one failure the grouping pass can hit: a catalog record whose path
/// has no final component (empty, or made of separators only), so no
/// filename can be read off it. The offending path is carried along for the
/// caller's diagnostic.
#[derive(Debug)]
pub enum DedupeError {
    MalformedPath { path: String },
}

} // verus!

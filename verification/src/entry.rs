//! The record that the index keeps for one filesystem object.

use std::collections::HashMap;
use vstd::prelude::*;

verus! {

/// What an [`IndexEntry`] holds, as mathematical values.
pub struct EntryView {
    /// The absolute path of the object.
    pub path: Seq<char>,
    /// The final component of the path: the only text that a query is matched against.
    pub name: Seq<char>,
    /// Further attributes of the object, by key.
    pub metadata: Map<String, String>,
}

/// The contents of an entry that has a path and a name and no further attributes.
pub open spec fn bare_entry(path: Seq<char>, name: Seq<char>) -> EntryView {
    EntryView { path, name, metadata: Map::empty() }
}

/// One filesystem object known to the index.
#[derive(Debug)]
pub struct IndexEntry {
    path: String,
    name: String,
    metadata: HashMap<String, String>,
}

impl View for IndexEntry {
    type V = EntryView;

    closed spec fn view(&self) -> EntryView {
        EntryView { path: self.path@, name: self.name@, metadata: self.metadata@ }
    }
}

impl IndexEntry {
    /// An entry for the object at `path` whose final component is `name`, with
    /// no further attributes.
    pub fn new(path: String, name: String) -> (entry: Self)
        ensures
            entry@ == bare_entry(path@, name@),
    {
        IndexEntry { path, name, metadata: HashMap::new() }
    }

    /// An entry for the object at `path` whose final component is `name`, with
    /// the attributes `metadata`.
    pub fn with_metadata(path: String, name: String, metadata: HashMap<String, String>) -> (entry:
        Self)
        ensures
            entry@ == (EntryView { path: path@, name: name@, metadata: metadata@ }),
    {
        IndexEntry { path, name, metadata }
    }

    /// The path, the name and the attributes, in this order.
    pub fn into_parts(self) -> (parts: (String, String, HashMap<String, String>))
        ensures
            parts.0@ == self@.path,
            parts.1@ == self@.name,
            parts.2@ == self@.metadata,
    {
        (self.path, self.name, self.metadata)
    }

    /// The absolute path of the object.
    pub fn path(&self) -> (path: &str)
        ensures
            path@ == self@.path,
    {
        self.path.as_str()
    }

    /// The final component of the path.
    pub fn name(&self) -> (name: &str)
        ensures
            name@ == self@.name,
    {
        self.name.as_str()
    }

    /// The further attributes of the object.
    pub fn metadata(&self) -> (metadata: &HashMap<String, String>)
        ensures
            metadata@ == self@.metadata,
    {
        &self.metadata
    }
}

impl Clone for IndexEntry {
    fn clone(&self) -> (copy: Self)
        ensures
            copy@ == self@,
    {
        IndexEntry {
            path: self.path.clone(),
            name: self.name.clone(),
            metadata: self.metadata.clone(),
        }
    }
}

/// The contents of a sequence of entries, one by one.
pub open spec fn views(entries: Seq<IndexEntry>) -> Seq<EntryView> {
    entries.map_values(|e: IndexEntry| e@)
}

} // verus!

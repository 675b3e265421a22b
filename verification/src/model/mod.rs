use vstd::prelude::*;

pub mod copy;
pub mod document;
pub mod inline;
pub mod node;
pub mod tree;

verus! {

/// Identifier of a node in a graph (its index in the node arena).
pub type NodeId = usize;

/// Identifier of a stored line of inlines in a graph.
pub type LineId = usize;

/// A half-open range of source lines: from `start` up to, not including, `end`.
#[derive(Clone, Copy, Debug, PartialEq, Eq, Structural)]
pub struct LineRange {
    pub start: usize,
    pub end: usize,
}

/// The key of a document: its path relative to the library root, without extension.
#[derive(Clone, Debug, PartialEq, Eq, Hash)]
pub struct Key {
    pub relative_path: String,
}

impl View for Key {
    type V = Seq<char>;

    open spec fn view(&self) -> Seq<char> {
        self.relative_path@
    }
}

impl Key {
    /// Makes a key from its relative path.
    pub fn new(path: &str) -> (key: Key)
        ensures
            key@ == path@,
    {
        Key { relative_path: path.to_string() }
    }

    /// A copy of the key with the same path.
    pub fn copy(&self) -> (key: Key)
        ensures
            key == *self,
    {
        Key { relative_path: self.relative_path.clone() }
    }

    /// Whether two keys name the same document.
    pub fn same(&self, other: &Key) -> (r: bool)
        ensures
            r == (self@ == other@),
    {
        self.relative_path == other.relative_path
    }
}

} // verus!

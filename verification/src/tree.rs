//! What goes into an archive and what comes out of one: the entries of a
//! directory tree, in the order of the walk.

use vstd::prelude::*;

verus! {
/// One entry of a walked tree: a directory, or a file with its bytes. The
/// path is relative to the root of the walk, with slashes between its
/// components.
#[derive(Debug, Clone)]
pub struct TreeEntry {
    pub path: String,
    pub is_directory: bool,
    pub modified: u64,
    pub content: Vec<u8>,
}

/// A tree entry as the contracts see it.
pub ghost struct EntryModel {
    pub path: Seq<char>,
    pub is_directory: bool,
    pub modified: u64,
    pub content: Seq<u8>,
}

impl View for TreeEntry {
    type V = EntryModel;

    open spec fn view(&self) -> EntryModel {
        EntryModel {
            path: self.path@,
            is_directory: self.is_directory,
            modified: self.modified,
            content: self.content@,
        }
    }
}

/// The entries of `tree`, each as its model.
pub open spec fn entry_views(tree: Seq<TreeEntry>) -> Seq<EntryModel> {
    Seq::new(tree.len(), |i: int| tree[i]@)
}

/// One entry that was read out of an archive: a directory to make, or a
/// file to write with its bytes. The path is safe to join under a root.
#[derive(Debug, Clone)]
pub struct ExtractedEntry {
    pub path: String,
    pub is_directory: bool,
    pub content: Vec<u8>,
}

/// An extracted entry as the contracts see it.
pub ghost struct ExtractedModel {
    pub path: Seq<char>,
    pub is_directory: bool,
    pub content: Seq<u8>,
}

impl View for ExtractedEntry {
    type V = ExtractedModel;

    open spec fn view(&self) -> ExtractedModel {
        ExtractedModel {
            path: self.path@,
            is_directory: self.is_directory,
            content: self.content@,
        }
    }
}

/// The entries of `out`, each as its model.
pub open spec fn extracted_views(out: Seq<ExtractedEntry>) -> Seq<ExtractedModel> {
    Seq::new(out.len(), |i: int| out[i]@)
}

/// What extraction owes for the tree entry `e`: the same path, and for a
/// file the same bytes.
pub open spec fn restored(e: EntryModel) -> ExtractedModel {
    ExtractedModel {
        path: e.path,
        is_directory: e.is_directory,
        content: if e.is_directory {
            Seq::empty()
        } else {
            e.content
        },
    }
}

/// What extraction owes for `entries`, in order.
pub open spec fn restored_all(entries: Seq<EntryModel>) -> Seq<ExtractedModel> {
    Seq::new(entries.len(), |i: int| restored(entries[i]))
}
} // verus!

//! The shape of one directory entry as the filter and the traversal see
//! it: a name and an entry kind. A symlink keeps its own kind, so that a
//! directory-typed link is never mistaken for a real directory.

use vstd::prelude::*;

verus! {

/// The kind of a single directory entry. A symbolic link is its own
/// kind, whatever it points at: the traversal and the filter never
/// follow links.
#[derive(Clone, Copy, PartialEq, Eq, Structural, Debug)]
pub enum EntryKind {
    File,
    Directory,
    Symlink,
}

/// One immediate entry of a directory listing.
#[derive(Clone, Debug)]
pub struct EntryInfo {
    pub name: String,
    pub kind: EntryKind,
}

/// A listing as mathematics: each entry reduced to its name and kind.
pub open spec fn listing_view(entries: Seq<EntryInfo>) -> Seq<(Seq<char>, EntryKind)> {
    entries.map_values(|e: EntryInfo| (e.name@, e.kind))
}

/// An entry that is a real directory: directory-typed and not a link.
pub open spec fn is_real_dir(e: (Seq<char>, EntryKind)) -> bool {
    e.1 is Directory
}

/// An entry that is a real file: file-typed and not a link.
pub open spec fn is_real_file(e: (Seq<char>, EntryKind)) -> bool {
    e.1 is File
}

impl EntryInfo {
    pub fn new(name: String, kind: EntryKind) -> (e: EntryInfo)
        ensures
            e.name@ == name@,
            e.kind == kind,
    {
        EntryInfo { name, kind }
    }
}

} // verus!

//! The directory filter: a pure predicate over one directory's entry
//! listing, deciding whether that directory itself is a match. The
//! concrete filter recognises a project that carries both a build
//! manifest file and a build-output directory.

use vstd::prelude::*;

use crate::listing::{is_real_dir, is_real_file, listing_view, EntryInfo, EntryKind};

verus! {

/// Capability to classify one directory by its entry listing, with no
/// further reads. Implementations must not treat a directory-typed
/// symlink as a directory.
pub trait DirFilter: Sized {
    /// What the filter accepts, as a predicate over the listing's
    /// names and kinds.
    spec fn spec_accept(&self, listing: Seq<(Seq<char>, EntryKind)>) -> bool;

    /// Decide whether the directory owning `entries` is a match.
    fn accept(&self, entries: &Vec<EntryInfo>) -> (r: bool)
        ensures
            r == self.spec_accept(listing_view(entries@)),
    ;
}

/// An entry that marks the build manifest: a real file named `Cargo.toml`.
pub open spec fn is_manifest_entry(e: (Seq<char>, EntryKind)) -> bool {
    &&& e.0 == "Cargo.toml"@
    &&& is_real_file(e)
}

/// An entry that marks the build output: a real directory named `target`.
pub open spec fn is_build_output_entry(e: (Seq<char>, EntryKind)) -> bool {
    &&& e.0 == "target"@
    &&& is_real_dir(e)
}

/// Accepts a listing that holds both a build manifest file and a
/// build-output directory, neither of them a symlink.
pub struct CargoDirFilter;

impl DirFilter for CargoDirFilter {
    open spec fn spec_accept(&self, listing: Seq<(Seq<char>, EntryKind)>) -> bool {
        &&& exists|i: int| 0 <= i < listing.len() && is_manifest_entry(listing[i])
        &&& exists|j: int| 0 <= j < listing.len() && is_build_output_entry(listing[j])
    }

    fn accept(&self, entries: &Vec<EntryInfo>) -> (r: bool) {
        let ghost listing = listing_view(entries@);
        let manifest_name: String = "Cargo.toml".to_owned();
        let build_name: String = "target".to_owned();
        let mut has_manifest = false;
        let mut has_build_output = false;
        let mut k: usize = 0;
        while k < entries.len()
            invariant
                0 <= k <= entries.len(),
                listing == listing_view(entries@),
                listing.len() == entries@.len(),
                has_manifest == exists|i: int| 0 <= i < k && is_manifest_entry(listing[i]),
                has_build_output == exists|j: int| 0 <= j < k && is_build_output_entry(listing[j]),
                manifest_name@ == "Cargo.toml"@,
                build_name@ == "target"@,
            decreases entries.len() - k,
        {
            let e = &entries[k];
            proof {
                assert(listing[k as int] == (entries@[k as int].name@, entries@[k as int].kind));
            }
            if e.name == manifest_name && matches!(e.kind, EntryKind::File) {
                has_manifest = true;
                assert(is_manifest_entry(listing[k as int]));
            }
            if e.name == build_name && matches!(e.kind, EntryKind::Directory) {
                has_build_output = true;
                assert(is_build_output_entry(listing[k as int]));
            }
            k = k + 1;
        }
        has_manifest && has_build_output
    }
}

} // verus!

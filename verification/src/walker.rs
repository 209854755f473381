//! The traversal engine's state over a real filesystem: an explicit
//! work stack of directory paths still to visit. The surrounding
//! binary owns the loop — it pops a path, reads its listing, and hands
//! the listing back — while every decision (does this directory match,
//! which children are visited later) is made and proved here.
//!
//! On a match the directory becomes a traversal leaf: none of its
//! children are scheduled. Otherwise every entry that is a real
//! directory — directory-typed, not a symlink — is scheduled, as the
//! path `dir/name`. A read failure simply schedules nothing.

use vstd::prelude::*;
use vstd::string::StringExecFns;

use crate::filter::DirFilter;
use crate::listing::{is_real_dir, listing_view, EntryInfo, EntryKind};

verus! {

/// The path of the child entry `name` inside the directory `dir`.
pub open spec fn child_path(dir: Seq<char>, name: Seq<char>) -> Seq<char> {
    dir + "/"@ + name
}

/// The paths of the real-directory entries of a listing, in listing
/// order: the children a traversal of `dir` schedules when `dir` did
/// not match.
pub open spec fn child_paths(dir: Seq<char>, listing: Seq<(Seq<char>, EntryKind)>) -> Seq<
    Seq<char>,
>
    decreases listing.len(),
{
    if listing.len() == 0 {
        Seq::empty()
    } else {
        child_paths(dir, listing.drop_last()) + (if is_real_dir(listing.last()) {
            seq![child_path(dir, listing.last().0)]
        } else {
            Seq::empty()
        })
    }
}

/// The traversal work stack. Directories are visited by popping the
/// most recently scheduled path first (depth-first, sibling order
/// unspecified to callers).
pub struct Walker {
    stack: Vec<String>,
}

impl Walker {
    /// The paths still to visit, bottom of the stack first.
    pub closed spec fn pending(&self) -> Seq<Seq<char>> {
        self.stack@.map_values(|s: String| s@)
    }

    /// A fresh traversal, seeded with the root path.
    pub fn new(root: String) -> (w: Walker)
        ensures
            w.pending() == seq![root@],
    {
        let mut stack: Vec<String> = Vec::new();
        stack.push(root);
        let w = Walker { stack };
        proof {
            assert(w.pending() =~= seq![root@]);
        }
        w
    }

    /// Pop the next directory to visit, or report that the traversal
    /// is complete.
    pub fn next_dir(&mut self) -> (r: Option<String>)
        ensures
            match r {
                Option::Some(dir) => old(self).pending().len() > 0 && dir@ == old(
                    self,
                ).pending().last() && final(self).pending() == old(self).pending().drop_last(),
                Option::None => old(self).pending().len() == 0 && final(self).pending() == old(
                    self,
                ).pending(),
            },
    {
        let r = self.stack.pop();
        proof {
            if old(self).stack@.len() > 0 {
                assert(self.pending() =~= old(self).pending().drop_last());
            }
        }
        r
    }

    /// Visit one directory: decide whether it matches, and if it does
    /// not, schedule every real subdirectory for a later visit. Returns
    /// whether the directory matched; a matched directory schedules
    /// nothing, so its subtree is never searched again.
    pub fn on_listing<F: DirFilter>(
        &mut self,
        dir: &String,
        entries: &Vec<EntryInfo>,
        filter: &F,
    ) -> (matched: bool)
        ensures
            matched == filter.spec_accept(listing_view(entries@)),
            matched ==> final(self).pending() == old(self).pending(),
            !matched ==> final(self).pending() == old(self).pending() + child_paths(
                dir@,
                listing_view(entries@),
            ),
    {
        if filter.accept(entries) {
            return true;
        }
        let ghost lv = listing_view(entries@);
        let ghost base = self.pending();
        let mut k: usize = 0;
        while k < entries.len()
            invariant
                0 <= k <= entries@.len(),
                lv == listing_view(entries@),
                lv.len() == entries@.len(),
                self.pending() == base + child_paths(dir@, lv.take(k as int)),
            decreases entries@.len() - k,
        {
            let ghost before = self.pending();
            let e = &entries[k];
            proof {
                assert(lv[k as int] == (entries@[k as int].name@, entries@[k as int].kind));
                assert(lv.take(k + 1).drop_last() =~= lv.take(k as int));
                assert(lv.take(k + 1).last() == lv[k as int]);
            }
            if matches!(e.kind, EntryKind::Directory) {
                let child = dir.clone().concat("/").concat(e.name.as_str());
                assert(child@ == child_path(dir@, e.name@));
                self.stack.push(child);
                proof {
                    assert(self.pending() =~= before.push(child_path(dir@, e.name@)));
                    assert(self.pending() =~= base + child_paths(dir@, lv.take(k + 1)));
                }
            } else {
                proof {
                    assert(child_paths(dir@, lv.take(k + 1)) =~= child_paths(
                        dir@,
                        lv.take(k as int),
                    ));
                }
            }
            k = k + 1;
        }
        proof {
            assert(lv.take(lv.len() as int) =~= lv);
        }
        false
    }

    /// How many directories are still scheduled.
    pub fn remaining(&self) -> (n: usize)
        ensures
            n == self.pending().len(),
    {
        self.stack.len()
    }
}

} // verus!

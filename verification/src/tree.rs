//! An in-memory model of a directory tree, and the traversal over it.
//!
//! The traversal engine's contract is stated and proved against this
//! model: visit a directory, evaluate the filter on its listing; on a
//! match emit one record carrying the directory's path and subtree
//! size and do not descend; otherwise descend into every entry that is
//! a real directory. Symlinks are never descended, so a tree of values
//! is a faithful model even of a filesystem with cyclic links.
//!
//! Paths are sequences of name components, so that reasoning about
//! nesting is reasoning about sequence prefixes.

use vstd::prelude::*;

use crate::filter::DirFilter;
use crate::listing::{listing_view, EntryInfo, EntryKind};

verus! {

/// One node of the tree: a file with a byte size, a directory with its
/// immediate entries, or a symbolic link (never followed).
pub enum FsNode {
    File { name: String, size: u64 },
    Dir { name: String, entries: Vec<FsNode> },
    Link { name: String },
}

pub open spec fn node_name(n: FsNode) -> Seq<char> {
    match n {
        FsNode::File { name, .. } => name@,
        FsNode::Dir { name, .. } => name@,
        FsNode::Link { name } => name@,
    }
}

pub open spec fn node_kind(n: FsNode) -> EntryKind {
    match n {
        FsNode::File { .. } => EntryKind::File,
        FsNode::Dir { .. } => EntryKind::Directory,
        FsNode::Link { .. } => EntryKind::Symlink,
    }
}

/// The listing a traversal reads when it visits a directory with these
/// entries: each entry's name and kind.
pub open spec fn node_listing(entries: Seq<FsNode>) -> Seq<(Seq<char>, EntryKind)> {
    entries.map_values(|n: FsNode| (node_name(n), node_kind(n)))
}

/// Addition on byte counts that pins at the largest representable value.
pub open spec fn sat_add(a: u64, b: u64) -> u64 {
    if a + b > u64::MAX {
        u64::MAX
    } else {
        (a + b) as u64
    }
}

/// Total bytes under a directory with these entries: the sum of all
/// file sizes in the subtree, saturating.
pub open spec fn entries_size(s: Seq<FsNode>) -> u64
    decreases s,
    via entries_size_decreases
{
    if s.len() == 0 {
        0u64
    } else {
        sat_add(
            entries_size(s.drop_last()),
            match s.last() {
                FsNode::File { size, .. } => size,
                FsNode::Dir { entries, .. } => entries_size(entries@),
                FsNode::Link { .. } => 0u64,
            },
        )
    }
}

#[via_fn]
proof fn entries_size_decreases(s: Seq<FsNode>) {
    if s.len() > 0 {
        assert(decreases_to!(s => s.drop_last()));
        assert(decreases_to!(s => s.last()));
        if s.last() is Dir {
            assert(decreases_to!(s.last() => s.last()->Dir_entries));
            assert(decreases_to!(s.last()->Dir_entries => s.last()->Dir_entries@));
        }
    }
}

/// No two entries of one directory share a name (as on a real
/// filesystem), at this level and in every subdirectory.
pub open spec fn distinct_names(s: Seq<FsNode>) -> bool {
    forall|i: int, j: int| 0 <= i < j < s.len() ==> node_name(s[i]) != node_name(s[j])
}

/// Well-formed directory contents: names distinct here and below.
pub open spec fn wf_entries(s: Seq<FsNode>) -> bool
    decreases s, 1int,
{
    &&& distinct_names(s)
    &&& wf_list(s)
}

/// Every directory among `s` has well-formed contents.
pub open spec fn wf_list(s: Seq<FsNode>) -> bool
    decreases s, 0int,
    via wf_list_decreases
{
    if s.len() == 0 {
        true
    } else {
        &&& wf_list(s.drop_last())
        &&& match s.last() {
            FsNode::Dir { entries, .. } => wf_entries(entries@),
            _ => true,
        }
    }
}

#[via_fn]
proof fn wf_list_decreases(s: Seq<FsNode>) {
    if s.len() > 0 {
        assert(decreases_to!(s => s.drop_last()));
        assert(decreases_to!(s => s.last()));
        if s.last() is Dir {
            assert(decreases_to!(s.last() => s.last()->Dir_entries));
            assert(decreases_to!(s.last()->Dir_entries => s.last()->Dir_entries@));
        }
    }
}

/// The matches the traversal reports when it visits a directory whose
/// component path is `path` and whose immediate entries are `entries`:
/// on a filter match, one record for this directory and nothing below
/// it; otherwise whatever is found under its real subdirectories.
pub open spec fn walk_dir<F: DirFilter>(
    filter: F,
    path: Seq<Seq<char>>,
    entries: Seq<FsNode>,
) -> Seq<(Seq<Seq<char>>, u64)>
    decreases entries, 1int,
{
    if filter.spec_accept(node_listing(entries)) {
        seq![(path, entries_size(entries))]
    } else {
        walk_list(filter, path, entries)
    }
}

/// The matches found under the real-directory entries of `prefix`,
/// accumulated in listing order.
pub open spec fn walk_list<F: DirFilter>(
    filter: F,
    path: Seq<Seq<char>>,
    prefix: Seq<FsNode>,
) -> Seq<(Seq<Seq<char>>, u64)>
    decreases prefix, 0int,
    via walk_list_decreases::<F>
{
    if prefix.len() == 0 {
        Seq::empty()
    } else {
        walk_list(filter, path, prefix.drop_last()) + (match prefix.last() {
            FsNode::Dir { name, entries } => walk_dir(filter, path.push(name@), entries@),
            _ => Seq::empty(),
        })
    }
}

#[via_fn]
proof fn walk_list_decreases<F: DirFilter>(filter: F, path: Seq<Seq<char>>, prefix: Seq<FsNode>) {
    if prefix.len() > 0 {
        assert(decreases_to!(prefix => prefix.drop_last()));
        assert(decreases_to!(prefix => prefix.last()));
        if prefix.last() is Dir {
            assert(decreases_to!(prefix.last() => prefix.last()->Dir_entries));
            assert(decreases_to!(prefix.last()->Dir_entries => prefix.last()->Dir_entries@));
        }
    }
}

/// `a` is a (not necessarily strict) ancestor path of `b`.
pub open spec fn path_prefix_of(a: Seq<Seq<char>>, b: Seq<Seq<char>>) -> bool {
    a.len() <= b.len() && b.take(a.len() as int) == a
}

/// `inner` lies strictly inside the subtree rooted at `outer`.
pub open spec fn strictly_inside(inner: Seq<Seq<char>>, outer: Seq<Seq<char>>) -> bool {
    path_prefix_of(outer, inner) && outer.len() < inner.len()
}

/// `p` names something strictly below `path`, reached through an entry
/// of `names`: it extends `path`, and its first component past `path`
/// is one of the entries' names.
pub open spec fn below_one_of(
    path: Seq<Seq<char>>,
    names: Seq<FsNode>,
    p: Seq<Seq<char>>,
) -> bool {
    &&& p.len() > path.len()
    &&& p.take(path.len() as int) == path
    &&& exists|k: int| 0 <= k < names.len() && p[path.len() as int] == node_name(names[k])
}

/// Every match reported when visiting a directory lies at that
/// directory's own path or below it.
pub proof fn lemma_walk_dir_paths<F: DirFilter>(
    filter: F,
    path: Seq<Seq<char>>,
    entries: Seq<FsNode>,
)
    ensures
        forall|t: int|
            0 <= t < walk_dir(filter, path, entries).len() ==> path_prefix_of(
                path,
                (#[trigger] walk_dir(filter, path, entries)[t]).0,
            ),
    decreases entries, 1int,
{
    assert(path.take(path.len() as int) =~= path);
    let r = walk_dir(filter, path, entries);
    if !filter.spec_accept(node_listing(entries)) {
        lemma_walk_list_paths(filter, path, entries);
        let l = walk_list(filter, path, entries);
        assert forall|t: int| 0 <= t < r.len() implies path_prefix_of(
            path,
            (#[trigger] r[t]).0,
        ) by {
            assert(r[t] == l[t]);
            assert(below_one_of(path, entries, l[t].0));
        }
    } else {
        assert(r[0].0 == path);
    }
}

/// Every match reported under the child entries of a directory lies
/// strictly below that directory's path, reached through one of the
/// entries.
pub proof fn lemma_walk_list_paths<F: DirFilter>(
    filter: F,
    path: Seq<Seq<char>>,
    prefix: Seq<FsNode>,
)
    ensures
        forall|t: int|
            0 <= t < walk_list(filter, path, prefix).len() ==> below_one_of(
                path,
                prefix,
                (#[trigger] walk_list(filter, path, prefix)[t]).0,
            ),
    decreases prefix, 0int,
{
    if prefix.len() == 0 {
    } else {
        let r = walk_list(filter, path, prefix);
        let a = walk_list(filter, path, prefix.drop_last());
        assert(decreases_to!(prefix => prefix.drop_last()));
        lemma_walk_list_paths(filter, path, prefix.drop_last());
        match prefix.last() {
            FsNode::Dir { name, entries } => {
                assert(decreases_to!(prefix => prefix.last()));
                assert(decreases_to!(prefix.last() => prefix.last()->Dir_entries));
                assert(decreases_to!(prefix.last()->Dir_entries => prefix.last()->Dir_entries@));
                let sub = path.push(name@);
                lemma_walk_dir_paths(filter, sub, entries@);
                let b = walk_dir(filter, sub, entries@);
                assert(r == a + b);
                assert forall|t: int| 0 <= t < r.len() implies below_one_of(
                    path,
                    prefix,
                    (#[trigger] r[t]).0,
                ) by {
                    if t < a.len() {
                        assert(r[t] == a[t]);
                        assert(below_one_of(path, prefix.drop_last(), a[t].0));
                        let k = choose|k: int|
                            0 <= k < prefix.drop_last().len() && a[t].0[path.len() as int]
                                == node_name(prefix.drop_last()[k]);
                        assert(prefix.drop_last()[k] == prefix[k]);
                        assert(0 <= k < prefix.len() && r[t].0[path.len() as int] == node_name(
                            prefix[k],
                        ));
                    } else {
                        let m = b[t - a.len()];
                        assert(r[t] == m);
                        assert(path_prefix_of(sub, m.0));
                        assert(m.0.take(sub.len() as int) == sub);
                        assert(m.0.take(path.len() as int) =~= m.0.take(sub.len() as int).take(
                            path.len() as int,
                        ));
                        assert(sub.take(path.len() as int) =~= path);
                        assert(m.0[path.len() as int] == m.0.take(sub.len() as int)[path.len() as int]);
                        assert(m.0[path.len() as int] == node_name(prefix[prefix.len() - 1]));
                    }
                }
            },
            _ => {
                assert(r =~= a);
                assert forall|t: int| 0 <= t < r.len() implies below_one_of(
                    path,
                    prefix,
                    (#[trigger] r[t]).0,
                ) by {
                    assert(r[t] == a[t]);
                    assert(below_one_of(path, prefix.drop_last(), a[t].0));
                    let k = choose|k: int|
                        0 <= k < prefix.drop_last().len() && a[t].0[path.len() as int] == node_name(
                            prefix.drop_last()[k],
                        );
                    assert(prefix.drop_last()[k] == prefix[k]);
                    assert(0 <= k < prefix.len() && r[t].0[path.len() as int] == node_name(
                        prefix[k],
                    ));
                }
            },
        }
    }
}

/// Law: a matched directory is never itself searched for nested
/// matches — no reported match lies strictly inside the subtree of
/// another reported match.
pub proof fn lemma_walk_dir_no_nesting<F: DirFilter>(
    filter: F,
    path: Seq<Seq<char>>,
    entries: Seq<FsNode>,
)
    requires
        wf_entries(entries),
    ensures
        forall|t1: int, t2: int|
            0 <= t1 < walk_dir(filter, path, entries).len() && 0 <= t2 < walk_dir(
                filter,
                path,
                entries,
            ).len() ==> !strictly_inside(
                (#[trigger] walk_dir(filter, path, entries)[t2]).0,
                (#[trigger] walk_dir(filter, path, entries)[t1]).0,
            ),
    decreases entries, 1int,
{
    let r = walk_dir(filter, path, entries);
    if filter.spec_accept(node_listing(entries)) {
        assert(r.len() == 1);
        assert(!strictly_inside(r[0].0, r[0].0));
    } else {
        lemma_walk_list_no_nesting(filter, path, entries);
        let l = walk_list(filter, path, entries);
        assert forall|t1: int, t2: int|
            0 <= t1 < r.len() && 0 <= t2 < r.len() implies !strictly_inside(
            (#[trigger] r[t2]).0,
            (#[trigger] r[t1]).0,
        ) by {
            assert(r[t1] == l[t1] && r[t2] == l[t2]);
        }
    }
}

/// Law, under a directory's children: no match found there lies
/// strictly inside another.
pub proof fn lemma_walk_list_no_nesting<F: DirFilter>(
    filter: F,
    path: Seq<Seq<char>>,
    prefix: Seq<FsNode>,
)
    requires
        distinct_names(prefix),
        wf_list(prefix),
    ensures
        forall|t1: int, t2: int|
            0 <= t1 < walk_list(filter, path, prefix).len() && 0 <= t2 < walk_list(
                filter,
                path,
                prefix,
            ).len() ==> !strictly_inside(
                (#[trigger] walk_list(filter, path, prefix)[t2]).0,
                (#[trigger] walk_list(filter, path, prefix)[t1]).0,
            ),
    decreases prefix, 0int,
{
    if prefix.len() == 0 {
    } else {
        let r = walk_list(filter, path, prefix);
        let rest = prefix.drop_last();
        let a = walk_list(filter, path, rest);
        assert(distinct_names(rest)) by {
            assert(forall|i: int| 0 <= i < rest.len() ==> rest[i] == prefix[i]);
        }
        assert(decreases_to!(prefix => prefix.drop_last()));
        lemma_walk_list_no_nesting(filter, path, rest);
        lemma_walk_list_paths(filter, path, rest);
        match prefix.last() {
            FsNode::Dir { name, entries } => {
                assert(decreases_to!(prefix => prefix.last()));
                assert(decreases_to!(prefix.last() => prefix.last()->Dir_entries));
                assert(decreases_to!(prefix.last()->Dir_entries => prefix.last()->Dir_entries@));
                let sub = path.push(name@);
                assert(wf_entries(entries@));
                lemma_walk_dir_no_nesting(filter, sub, entries@);
                lemma_walk_dir_paths(filter, sub, entries@);
                let b = walk_dir(filter, sub, entries@);
                assert(r == a + b);
                assert forall|t1: int, t2: int|
                    0 <= t1 < r.len() && 0 <= t2 < r.len() implies !strictly_inside(
                    (#[trigger] r[t2]).0,
                    (#[trigger] r[t1]).0,
                ) by {
                    lemma_two_halves_no_nesting(
                        filter, path, prefix, rest, a, b, sub, name@, t1, t2,
                    );
                }
            },
            _ => {
                assert(r =~= a);
                assert forall|t1: int, t2: int|
                    0 <= t1 < r.len() && 0 <= t2 < r.len() implies !strictly_inside(
                    (#[trigger] r[t2]).0,
                    (#[trigger] r[t1]).0,
                ) by {
                    assert(r[t1] == a[t1] && r[t2] == a[t2]);
                }
            },
        }
    }
}

/// One pair of matches drawn from the two halves of a child-list walk
/// cannot nest: within one half the inductive fact applies, and across
/// the halves the first component past `path` differs, because the two
/// children involved carry distinct names.
proof fn lemma_two_halves_no_nesting<F: DirFilter>(
    filter: F,
    path: Seq<Seq<char>>,
    prefix: Seq<FsNode>,
    rest: Seq<FsNode>,
    a: Seq<(Seq<Seq<char>>, u64)>,
    b: Seq<(Seq<Seq<char>>, u64)>,
    sub: Seq<Seq<char>>,
    last_name: Seq<char>,
    t1: int,
    t2: int,
)
    requires
        prefix.len() > 0,
        rest == prefix.drop_last(),
        distinct_names(prefix),
        prefix.last() is Dir,
        last_name == node_name(prefix.last()),
        sub == path.push(last_name),
        a == walk_list(filter, path, rest),
        b == walk_dir(filter, sub, prefix.last()->Dir_entries@),
        0 <= t1 < a.len() + b.len(),
        0 <= t2 < a.len() + b.len(),
        // within-half facts from the inductive hypotheses
        forall|u1: int, u2: int|
            0 <= u1 < a.len() && 0 <= u2 < a.len() ==> !strictly_inside(
                (#[trigger] a[u2]).0,
                (#[trigger] a[u1]).0,
            ),
        forall|u1: int, u2: int|
            0 <= u1 < b.len() && 0 <= u2 < b.len() ==> !strictly_inside(
                (#[trigger] b[u2]).0,
                (#[trigger] b[u1]).0,
            ),
        forall|u: int| 0 <= u < a.len() ==> below_one_of(path, rest, (#[trigger] a[u]).0),
        forall|u: int| 0 <= u < b.len() ==> path_prefix_of(sub, (#[trigger] b[u]).0),
    ensures
        !strictly_inside((a + b)[t2].0, (a + b)[t1].0),
{
    let r = a + b;
    let p1 = r[t1].0;
    let p2 = r[t2].0;
    if t1 < a.len() && t2 < a.len() {
        assert(r[t1] == a[t1] && r[t2] == a[t2]);
    } else if t1 >= a.len() && t2 >= a.len() {
        assert(r[t1] == b[t1 - a.len()] && r[t2] == b[t2 - a.len()]);
    } else {
        let (ta, tb) = if t1 < a.len() {
            (t1, t2)
        } else {
            (t2, t1)
        };
        let pa = r[ta].0;
        let pb = r[tb].0;
        assert(r[ta] == a[ta]);
        assert(r[tb] == b[tb - a.len()]);
        assert(below_one_of(path, rest, pa));
        assert(path_prefix_of(sub, pb));
        let pl = path.len() as int;
        // the component just past `path` differs between the two sides
        let k = choose|k: int| 0 <= k < rest.len() && pa[pl] == node_name(rest[k]);
        assert(rest[k] == prefix[k]);
        assert(node_name(prefix[k]) != last_name);
        assert(pb.take(sub.len() as int) == sub);
        assert(pb[pl] == pb.take(sub.len() as int)[pl]);
        assert(pb[pl] == last_name);
        assert(pa[pl] != pb[pl]);
        // so neither path can be a prefix of the other
        assert(pa.len() > pl && pb.len() > pl);
        if strictly_inside(pb, pa) {
            assert(pb.take(pa.len() as int) == pa);
            assert(pb.take(pa.len() as int)[pl] == pb[pl]);
            assert(false);
        }
        if strictly_inside(pa, pb) {
            assert(pa.take(pb.len() as int) == pb);
            assert(pa.take(pb.len() as int)[pl] == pa[pl]);
            assert(false);
        }
    }
}

/// The paths of all directories the traversal visits (reads the
/// listing of) when it reaches a directory at `path` with these
/// entries: the directory itself, and, unless it matched, everything
/// visited under its real subdirectories. A matched directory is a
/// traversal leaf; symlinks are never visited.
pub open spec fn visited_dirs<F: DirFilter>(
    filter: F,
    path: Seq<Seq<char>>,
    entries: Seq<FsNode>,
) -> Seq<Seq<Seq<char>>>
    decreases entries, 1int,
{
    seq![path] + (if filter.spec_accept(node_listing(entries)) {
        Seq::empty()
    } else {
        visited_list(filter, path, entries)
    })
}

/// The paths visited under the real-directory entries of `prefix`.
pub open spec fn visited_list<F: DirFilter>(
    filter: F,
    path: Seq<Seq<char>>,
    prefix: Seq<FsNode>,
) -> Seq<Seq<Seq<char>>>
    decreases prefix, 0int,
    via visited_list_decreases::<F>
{
    if prefix.len() == 0 {
        Seq::empty()
    } else {
        visited_list(filter, path, prefix.drop_last()) + (match prefix.last() {
            FsNode::Dir { name, entries } => visited_dirs(filter, path.push(name@), entries@),
            _ => Seq::empty(),
        })
    }
}

#[via_fn]
proof fn visited_list_decreases<F: DirFilter>(
    filter: F,
    path: Seq<Seq<char>>,
    prefix: Seq<FsNode>,
) {
    if prefix.len() > 0 {
        assert(decreases_to!(prefix => prefix.drop_last()));
        assert(decreases_to!(prefix => prefix.last()));
        if prefix.last() is Dir {
            assert(decreases_to!(prefix.last() => prefix.last()->Dir_entries));
            assert(decreases_to!(prefix.last()->Dir_entries => prefix.last()->Dir_entries@));
        }
    }
}

/// Every directory visited when a directory is reached lies at that
/// directory's own path or below it.
pub proof fn lemma_visited_dirs_paths<F: DirFilter>(
    filter: F,
    path: Seq<Seq<char>>,
    entries: Seq<FsNode>,
)
    ensures
        forall|t: int|
            0 <= t < visited_dirs(filter, path, entries).len() ==> path_prefix_of(
                path,
                #[trigger] visited_dirs(filter, path, entries)[t],
            ),
    decreases entries, 1int,
{
    assert(path.take(path.len() as int) =~= path);
    let r = visited_dirs(filter, path, entries);
    assert(r[0] == path);
    if !filter.spec_accept(node_listing(entries)) {
        lemma_visited_list_paths(filter, path, entries);
        let l = visited_list(filter, path, entries);
        assert forall|t: int| 0 <= t < r.len() implies path_prefix_of(
            path,
            #[trigger] r[t],
        ) by {
            if t > 0 {
                assert(r[t] == l[t - 1]);
                assert(below_one_of(path, entries, l[t - 1]));
            }
        }
    }
}

/// Every directory visited under the child entries of a directory lies
/// strictly below that directory's path, reached through one of the
/// entries.
pub proof fn lemma_visited_list_paths<F: DirFilter>(
    filter: F,
    path: Seq<Seq<char>>,
    prefix: Seq<FsNode>,
)
    ensures
        forall|t: int|
            0 <= t < visited_list(filter, path, prefix).len() ==> below_one_of(
                path,
                prefix,
                #[trigger] visited_list(filter, path, prefix)[t],
            ),
    decreases prefix, 0int,
{
    if prefix.len() == 0 {
    } else {
        let r = visited_list(filter, path, prefix);
        let a = visited_list(filter, path, prefix.drop_last());
        assert(decreases_to!(prefix => prefix.drop_last()));
        lemma_visited_list_paths(filter, path, prefix.drop_last());
        match prefix.last() {
            FsNode::Dir { name, entries } => {
                assert(decreases_to!(prefix => prefix.last()));
                assert(decreases_to!(prefix.last() => prefix.last()->Dir_entries));
                assert(decreases_to!(prefix.last()->Dir_entries => prefix.last()->Dir_entries@));
                let sub = path.push(name@);
                lemma_visited_dirs_paths(filter, sub, entries@);
                let b = visited_dirs(filter, sub, entries@);
                assert(r == a + b);
                assert forall|t: int| 0 <= t < r.len() implies below_one_of(
                    path,
                    prefix,
                    #[trigger] r[t],
                ) by {
                    if t < a.len() {
                        assert(r[t] == a[t]);
                        assert(below_one_of(path, prefix.drop_last(), a[t]));
                        let k = choose|k: int|
                            0 <= k < prefix.drop_last().len() && a[t][path.len() as int]
                                == node_name(prefix.drop_last()[k]);
                        assert(prefix.drop_last()[k] == prefix[k]);
                        assert(0 <= k < prefix.len() && r[t][path.len() as int] == node_name(
                            prefix[k],
                        ));
                    } else {
                        let p = b[t - a.len()];
                        assert(r[t] == p);
                        assert(path_prefix_of(sub, p));
                        assert(p.take(sub.len() as int) == sub);
                        assert(sub.take(path.len() as int) =~= path);
                        assert(p.take(path.len() as int) =~= p.take(sub.len() as int).take(
                            path.len() as int,
                        ));
                        assert(p[path.len() as int] == p.take(sub.len() as int)[path.len() as int]);
                        assert(p[path.len() as int] == node_name(prefix[prefix.len() - 1]));
                    }
                }
            },
            _ => {
                assert(r =~= a);
                assert forall|t: int| 0 <= t < r.len() implies below_one_of(
                    path,
                    prefix,
                    #[trigger] r[t],
                ) by {
                    assert(r[t] == a[t]);
                    assert(below_one_of(path, prefix.drop_last(), a[t]));
                    let k = choose|k: int|
                        0 <= k < prefix.drop_last().len() && a[t][path.len() as int] == node_name(
                            prefix.drop_last()[k],
                        );
                    assert(prefix.drop_last()[k] == prefix[k]);
                    assert(0 <= k < prefix.len() && r[t][path.len() as int] == node_name(
                        prefix[k],
                    ));
                }
            },
        }
    }
}

/// Law: every directory reachable from the root is visited at most
/// once — the visit sequence holds no duplicate path, so the traversal
/// cannot loop, even with cyclic link structures, which are never
/// descended.
pub proof fn lemma_visited_dirs_distinct<F: DirFilter>(
    filter: F,
    path: Seq<Seq<char>>,
    entries: Seq<FsNode>,
)
    requires
        wf_entries(entries),
    ensures
        forall|t1: int, t2: int|
            0 <= t1 < t2 < visited_dirs(filter, path, entries).len()
                ==> #[trigger] visited_dirs(filter, path, entries)[t1]
                != #[trigger] visited_dirs(filter, path, entries)[t2],
    decreases entries, 1int,
{
    let r = visited_dirs(filter, path, entries);
    if !filter.spec_accept(node_listing(entries)) {
        lemma_visited_list_distinct(filter, path, entries);
        lemma_visited_list_paths(filter, path, entries);
        let l = visited_list(filter, path, entries);
        assert forall|t1: int, t2: int| 0 <= t1 < t2 < r.len() implies #[trigger] r[t1]
            != #[trigger] r[t2] by {
            if t1 == 0 {
                assert(r[t2] == l[t2 - 1]);
                assert(below_one_of(path, entries, l[t2 - 1]));
                assert(l[t2 - 1].len() > path.len());
            } else {
                assert(r[t1] == l[t1 - 1] && r[t2] == l[t2 - 1]);
            }
        }
    } else {
        assert(r.len() == 1);
    }
}

/// Under a directory's children, no directory is visited twice.
pub proof fn lemma_visited_list_distinct<F: DirFilter>(
    filter: F,
    path: Seq<Seq<char>>,
    prefix: Seq<FsNode>,
)
    requires
        distinct_names(prefix),
        wf_list(prefix),
    ensures
        forall|t1: int, t2: int|
            0 <= t1 < t2 < visited_list(filter, path, prefix).len()
                ==> #[trigger] visited_list(filter, path, prefix)[t1]
                != #[trigger] visited_list(filter, path, prefix)[t2],
    decreases prefix, 0int,
{
    if prefix.len() == 0 {
    } else {
        let r = visited_list(filter, path, prefix);
        let rest = prefix.drop_last();
        let a = visited_list(filter, path, rest);
        assert(distinct_names(rest)) by {
            assert(forall|i: int| 0 <= i < rest.len() ==> rest[i] == prefix[i]);
        }
        assert(decreases_to!(prefix => prefix.drop_last()));
        lemma_visited_list_distinct(filter, path, rest);
        lemma_visited_list_paths(filter, path, rest);
        match prefix.last() {
            FsNode::Dir { name, entries } => {
                assert(decreases_to!(prefix => prefix.last()));
                assert(decreases_to!(prefix.last() => prefix.last()->Dir_entries));
                assert(decreases_to!(prefix.last()->Dir_entries => prefix.last()->Dir_entries@));
                let sub = path.push(name@);
                assert(wf_entries(entries@));
                lemma_visited_dirs_distinct(filter, sub, entries@);
                lemma_visited_dirs_paths(filter, sub, entries@);
                let b = visited_dirs(filter, sub, entries@);
                assert(r == a + b);
                assert forall|t1: int, t2: int| 0 <= t1 < t2 < r.len() implies #[trigger] r[t1]
                    != #[trigger] r[t2] by {
                    let pl = path.len() as int;
                    if t1 < a.len() && t2 < a.len() {
                        assert(r[t1] == a[t1] && r[t2] == a[t2]);
                    } else if t1 >= a.len() && t2 >= a.len() {
                        assert(r[t1] == b[t1 - a.len()] && r[t2] == b[t2 - a.len()]);
                    } else {
                        let pa = a[t1];
                        let pb = b[t2 - a.len()];
                        assert(r[t1] == pa && r[t2] == pb);
                        assert(below_one_of(path, rest, pa));
                        assert(path_prefix_of(sub, pb));
                        let k = choose|k: int| 0 <= k < rest.len() && pa[pl] == node_name(rest[k]);
                        assert(rest[k] == prefix[k]);
                        assert(node_name(prefix[k]) != name@);
                        assert(pb.take(sub.len() as int) == sub);
                        assert(pb[pl] == pb.take(sub.len() as int)[pl]);
                        assert(pb[pl] == name@);
                        assert(pa[pl] != pb[pl]);
                    }
                }
            },
            _ => {
                assert(r =~= a);
                assert forall|t1: int, t2: int| 0 <= t1 < t2 < r.len() implies #[trigger] r[t1]
                    != #[trigger] r[t2] by {
                    assert(r[t1] == a[t1] && r[t2] == a[t2]);
                }
            },
        }
    }
}

/// Law: the traversal is deterministic — over an unchanged tree, a
/// re-run visits the same directories and reports the same matches,
/// with the same sizes.
pub proof fn lemma_walk_idempotent<F: DirFilter>(
    filter: F,
    path: Seq<Seq<char>>,
    first: Seq<FsNode>,
    second: Seq<FsNode>,
)
    requires
        first == second,
    ensures
        walk_dir(filter, path, first) == walk_dir(filter, path, second),
        visited_dirs(filter, path, first) == visited_dirs(filter, path, second),
{
}

/// A match reported by the model traversal: the matched directory's
/// component path and its subtree size.
#[derive(Clone, Debug)]
pub struct TreeMatch {
    pub path: Vec<String>,
    pub size_bytes: u64,
}

/// A component path as mathematics.
pub open spec fn path_view(p: Seq<String>) -> Seq<Seq<char>> {
    p.map_values(|s: String| s@)
}

pub open spec fn match_view(m: TreeMatch) -> (Seq<Seq<char>>, u64) {
    (path_view(m.path@), m.size_bytes)
}

pub open spec fn matches_view(ms: Seq<TreeMatch>) -> Seq<(Seq<Seq<char>>, u64)> {
    ms.map_values(|m: TreeMatch| match_view(m))
}

fn clone_path(path: &Vec<String>) -> (r: Vec<String>)
    ensures
        r@ == path@,
{
    let mut r: Vec<String> = Vec::new();
    let mut i: usize = 0;
    while i < path.len()
        invariant
            0 <= i <= path@.len(),
            r@ == path@.take(i as int),
        decreases path@.len() - i,
    {
        r.push(path[i].clone());
        proof {
            assert(path@.take(i + 1) =~= path@.take(i as int).push(path@[i as int]));
        }
        i = i + 1;
    }
    proof {
        assert(path@.take(path@.len() as int) =~= path@);
    }
    r
}

/// Read the listing of a directory with these entries.
fn listing_of(entries: &Vec<FsNode>) -> (l: Vec<EntryInfo>)
    ensures
        listing_view(l@) == node_listing(entries@),
{
    let mut l: Vec<EntryInfo> = Vec::new();
    let mut i: usize = 0;
    while i < entries.len()
        invariant
            0 <= i <= entries@.len(),
            l@.len() == i,
            listing_view(l@) == node_listing(entries@.take(i as int)),
        decreases entries@.len() - i,
    {
        let e = match &entries[i] {
            FsNode::File { name, .. } => {
                let e = EntryInfo { name: name.clone(), kind: EntryKind::File };
                assert(e.name@ == node_name(entries@[i as int]));
                assert(e.kind == node_kind(entries@[i as int]));
                e
            },
            FsNode::Dir { name, .. } => {
                let e = EntryInfo { name: name.clone(), kind: EntryKind::Directory };
                assert(e.name@ == node_name(entries@[i as int]));
                assert(e.kind == node_kind(entries@[i as int]));
                e
            },
            FsNode::Link { name } => {
                let e = EntryInfo { name: name.clone(), kind: EntryKind::Symlink };
                assert(e.name@ == node_name(entries@[i as int]));
                assert(e.kind == node_kind(entries@[i as int]));
                e
            },
        };
        let ghost prev = l@;
        l.push(e);
        proof {
            let lv = listing_view(l@);
            let nl = node_listing(entries@.take(i + 1));
            assert(lv.len() == nl.len());
            assert forall|k: int| 0 <= k < lv.len() implies lv[k] == nl[k] by {
                assert(entries@.take(i + 1)[k] == entries@[k]);
                if k < i {
                    assert(l@[k] == prev[k]);
                    assert(listing_view(prev)[k] == node_listing(entries@.take(i as int))[k]);
                    assert(node_listing(entries@.take(i as int))[k] == (
                        node_name(entries@.take(i as int)[k]),
                        node_kind(entries@.take(i as int)[k]),
                    ));
                } else {
                    assert(l@[k] == e);
                }
            }
            assert(listing_view(l@) =~= node_listing(entries@.take(i + 1)));
        }
        i = i + 1;
    }
    proof {
        assert(entries@.take(entries@.len() as int) =~= entries@);
    }
    l
}

/// Compute the total bytes under a directory with these entries,
/// saturating instead of overflowing.
pub fn size_of_entries(entries: &Vec<FsNode>) -> (total: u64)
    ensures
        total == entries_size(entries@),
    decreases entries@,
{
    let mut total: u64 = 0;
    let mut i: usize = 0;
    while i < entries.len()
        invariant
            0 <= i <= entries@.len(),
            total == entries_size(entries@.take(i as int)),
        decreases entries@.len() - i,
    {
        let item_size: u64 = match &entries[i] {
            FsNode::File { size, .. } => *size,
            FsNode::Dir { entries: children, .. } => {
                proof {
                    assert(decreases_to!(entries@ => entries@[i as int]));
                    assert(decreases_to!(entries@[i as int] => entries@[i as int]->Dir_entries));
                    assert(decreases_to!(
                        entries@[i as int]->Dir_entries => entries@[i as int]->Dir_entries@));
                }
                size_of_entries(children)
            },
            FsNode::Link { .. } => 0u64,
        };
        total = if total > u64::MAX - item_size {
            u64::MAX
        } else {
            total + item_size
        };
        proof {
            let t = entries@.take(i + 1);
            assert(t.drop_last() =~= entries@.take(i as int));
            assert(t.last() == entries@[i as int]);
        }
        i = i + 1;
    }
    proof {
        assert(entries@.take(entries@.len() as int) =~= entries@);
    }
    total
}

/// Traverse the model tree rooted at a directory whose component path
/// is `path` and whose immediate entries are `entries`, appending every
/// reported match to `out` in traversal order.
pub fn walk_tree<F: DirFilter>(
    filter: &F,
    path: &Vec<String>,
    entries: &Vec<FsNode>,
    out: &mut Vec<TreeMatch>,
) ensures
        matches_view(final(out)@) == matches_view(old(out)@) + walk_dir(
            *filter,
            path_view(path@),
            entries@,
        ),
    decreases entries@,
{
    let listing = listing_of(entries);
    if filter.accept(&listing) {
        let size = size_of_entries(entries);
        let record = TreeMatch { path: clone_path(path), size_bytes: size };
        out.push(record);
        proof {
            assert(matches_view(out@) =~= matches_view(old(out)@) + walk_dir(
                *filter,
                path_view(path@),
                entries@,
            ));
        }
    } else {
        let ghost base = matches_view(old(out)@);
        let mut i: usize = 0;
        while i < entries.len()
            invariant
                0 <= i <= entries@.len(),
                !filter.spec_accept(node_listing(entries@)),
                matches_view(out@) == base + walk_list(
                    *filter,
                    path_view(path@),
                    entries@.take(i as int),
                ),
            decreases entries@.len() - i,
        {
            match &entries[i] {
                FsNode::Dir { name, entries: children } => {
                    let mut child_path = clone_path(path);
                    child_path.push(name.clone());
                    proof {
                        assert(path_view(child_path@) =~= path_view(path@).push(name@));
                        assert(decreases_to!(entries@ => entries@[i as int]));
                        assert(decreases_to!(
                            entries@[i as int] => entries@[i as int]->Dir_entries));
                        assert(decreases_to!(
                            entries@[i as int]->Dir_entries => entries@[i as int]->Dir_entries@));
                    }
                    walk_tree(filter, &child_path, children, out);
                },
                _ => {},
            }
            proof {
                let t = entries@.take(i + 1);
                assert(t.drop_last() =~= entries@.take(i as int));
                assert(t.last() == entries@[i as int]);
            }
            i = i + 1;
        }
        proof {
            assert(entries@.take(entries@.len() as int) =~= entries@);
        }
    }
}

} // verus!

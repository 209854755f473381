//! The rank aggregator: consumes match records one at a time, keeps a
//! private size index sorted in descending order, and assigns each
//! newcomer the count of already-seen sizes that are greater than or
//! equal to its own — so ties are broken first-in-first-out, the
//! newcomer ranking strictly after every earlier record of equal size.

use vstd::prelude::*;

use crate::record::{HubEvent, MatchRecord};

verus! {

/// How many elements of `s` are greater than or equal to `v`.
pub open spec fn count_geq(s: Seq<u64>, v: u64) -> nat
    decreases s.len(),
{
    if s.len() == 0 {
        0
    } else {
        (if s[0] >= v {
            1nat
        } else {
            0nat
        }) + count_geq(s.skip(1), v)
    }
}

/// How many elements of `s` are strictly greater than `v`.
pub open spec fn count_gt(s: Seq<u64>, v: u64) -> nat
    decreases s.len(),
{
    if s.len() == 0 {
        0
    } else {
        (if s[0] > v {
            1nat
        } else {
            0nat
        }) + count_gt(s.skip(1), v)
    }
}

/// `s` is sorted in descending order.
pub open spec fn sorted_desc(s: Seq<u64>) -> bool {
    forall|i: int, j: int| 0 <= i <= j < s.len() ==> s[i] >= s[j]
}

/// The rank assigned to the record at arrival position `i`: the number
/// of records among the first `i` whose size is greater than or equal
/// to its own.
pub open spec fn rank_at(sizes: Seq<u64>, i: int) -> nat {
    count_geq(sizes.take(i), sizes[i])
}

/// Counting greater-or-equal elements distributes over concatenation.
pub proof fn lemma_count_geq_concat(a: Seq<u64>, b: Seq<u64>, v: u64)
    ensures
        count_geq(a + b, v) == count_geq(a, v) + count_geq(b, v),
    decreases a.len(),
{
    if a.len() == 0 {
        assert(a + b =~= b);
    } else {
        assert((a + b).skip(1) =~= a.skip(1) + b);
        lemma_count_geq_concat(a.skip(1), b, v);
    }
}

/// Inserting one element raises the greater-or-equal count by one
/// exactly when the element itself is greater or equal.
pub proof fn lemma_count_geq_insert(s: Seq<u64>, p: int, x: u64, v: u64)
    requires
        0 <= p <= s.len(),
    ensures
        count_geq(s.insert(p, x), v) == count_geq(s, v) + (if x >= v {
            1nat
        } else {
            0nat
        }),
{
    let left = s.subrange(0, p);
    let right = s.subrange(p, s.len() as int);
    assert(s.insert(p, x) =~= left + (seq![x] + right));
    assert(s =~= left + right);
    assert(count_geq(seq![x], v) == (if x >= v {
        1nat
    } else {
        0nat
    })) by {
        let one = seq![x];
        assert(one.len() == 1);
        assert(one[0] == x);
        assert(one.skip(1) =~= Seq::<u64>::empty());
        assert(count_geq(one.skip(1), v) == 0);
        reveal_with_fuel(count_geq, 2);
    }
    lemma_count_geq_concat(seq![x], right, v);
    lemma_count_geq_concat(left, seq![x] + right, v);
    lemma_count_geq_concat(left, right, v);
}

/// No count exceeds the length of the sequence counted over.
pub proof fn lemma_count_geq_le_len(s: Seq<u64>, v: u64)
    ensures
        count_geq(s, v) <= s.len(),
    decreases s.len(),
{
    if s.len() > 0 {
        lemma_count_geq_le_len(s.skip(1), v);
    }
}

/// Over a sequence whose first `i` elements are all `>= v` and whose
/// remaining elements are all `< v`, the greater-or-equal count is `i`.
pub proof fn lemma_count_geq_split(s: Seq<u64>, v: u64, i: int)
    requires
        0 <= i <= s.len(),
        forall|k: int| 0 <= k < i ==> s[k] >= v,
        forall|k: int| i <= k < s.len() ==> s[k] < v,
    ensures
        count_geq(s, v) == i,
    decreases s.len(),
{
    if s.len() > 0 {
        if i > 0 {
            lemma_count_geq_split(s.skip(1), v, i - 1);
        } else {
            lemma_count_geq_split(s.skip(1), v, 0);
        }
    }
}

/// The index of the first element of a descending sequence that is
/// strictly below `v`; the length if there is none.
pub open spec fn first_below(s: Seq<u64>, v: u64) -> int
    decreases s.len(),
{
    if s.len() == 0 {
        0
    } else if s[0] < v {
        0
    } else {
        1 + first_below(s.skip(1), v)
    }
}

/// Over a descending sequence, everything before `first_below` is
/// greater or equal and everything from it on is strictly below, and
/// the greater-or-equal count equals it.
pub proof fn lemma_first_below(s: Seq<u64>, v: u64)
    requires
        sorted_desc(s),
    ensures
        0 <= first_below(s, v) <= s.len(),
        forall|k: int| 0 <= k < first_below(s, v) ==> s[k] >= v,
        forall|k: int| first_below(s, v) <= k < s.len() ==> s[k] < v,
        count_geq(s, v) == first_below(s, v),
    decreases s.len(),
{
    if s.len() > 0 {
        if s[0] < v {
            assert(forall|k: int| 0 <= k < s.len() ==> s[0] >= #[trigger] s[k]);
        } else {
            let t = s.skip(1);
            assert(forall|k: int| 0 <= k < t.len() ==> #[trigger] t[k] == s[k + 1]);
            assert(sorted_desc(t));
            lemma_first_below(t, v);
            let fb = first_below(s, v);
            assert(fb == 1 + first_below(t, v));
            assert forall|k: int| 0 <= k < fb implies s[k] >= v by {
                if k > 0 {
                    assert(t[k - 1] == s[k]);
                    assert(t[k - 1] >= v);
                }
            }
            assert forall|k: int| fb <= k < s.len() implies s[k] < v by {
                assert(t[k - 1] == s[k]);
                assert(t[k - 1] < v);
            }
        }
    }
    lemma_count_geq_split(s, v, first_below(s, v));
}

/// Inserting `v` into a descending sequence at the position
/// `first_below` picks keeps the sequence descending.
pub proof fn lemma_insert_keeps_sorted(s: Seq<u64>, v: u64)
    requires
        sorted_desc(s),
    ensures
        sorted_desc(s.insert(count_geq(s, v) as int, v)),
{
    lemma_first_below(s, v);
    let p = count_geq(s, v) as int;
    let t = s.insert(p, v);
    assert forall|i: int, j: int| 0 <= i <= j < t.len() implies t[i] >= t[j] by {
        if i < p && j < p {
        } else if i > p && j > p {
        } else if i == p && j > p {
            assert(t[j] == s[j - 1] && s[j - 1] < v);
        } else if i < p && j == p {
            assert(t[i] == s[i] && s[i] >= v);
        } else if i < p && j > p {
            assert(t[i] == s[i] && t[j] == s[j - 1]);
        }
    }
}

/// The ordered size index an aggregator holds after processing an
/// arrival sequence from fresh: each size inserted, in arrival order,
/// at the rank it was assigned.
pub open spec fn index_after(sizes: Seq<u64>) -> Seq<u64>
    decreases sizes.len(),
{
    if sizes.len() == 0 {
        Seq::empty()
    } else {
        let prev = index_after(sizes.drop_last());
        prev.insert(count_geq(prev, sizes.last()) as int, sizes.last())
    }
}

/// The index counts every value as often as the arrival sequence does,
/// and has one entry per record processed.
pub proof fn lemma_index_after_counts(sizes: Seq<u64>, v: u64)
    ensures
        index_after(sizes).len() == sizes.len(),
        count_geq(index_after(sizes), v) == count_geq(sizes, v),
    decreases sizes.len(),
{
    if sizes.len() > 0 {
        let rest = sizes.drop_last();
        let x = sizes.last();
        lemma_index_after_counts(rest, v);
        let prev = index_after(rest);
        lemma_count_geq_le_len(prev, x);
        lemma_count_geq_insert(prev, count_geq(prev, x) as int, x, v);
        assert(sizes =~= rest + seq![x]);
        lemma_count_geq_concat(rest, seq![x], v);
        assert(count_geq(seq![x], v) == (if x >= v {
            1nat
        } else {
            0nat
        })) by {
            assert(seq![x].skip(1) =~= Seq::<u64>::empty());
            reveal_with_fuel(count_geq, 2);
        }
    }
}

/// The index stays sorted in descending order after every record.
pub proof fn lemma_index_after_sorted(sizes: Seq<u64>)
    ensures
        sorted_desc(index_after(sizes)),
    decreases sizes.len(),
{
    if sizes.len() > 0 {
        lemma_index_after_sorted(sizes.drop_last());
        lemma_insert_keeps_sorted(index_after(sizes.drop_last()), sizes.last());
    }
}

/// Law: the emitted ranks are a consistent insertion order — replaying
/// the insertions they describe builds the descending-size
/// rearrangement of all records seen: an index that is sorted, has one
/// entry per record, and counts every value exactly as the arrivals
/// did.
pub proof fn lemma_ranks_build_descending_order(sizes: Seq<u64>)
    ensures
        index_after(sizes).len() == sizes.len(),
        sorted_desc(index_after(sizes)),
        forall|v: u64| #[trigger] count_geq(index_after(sizes), v) == count_geq(sizes, v),
    decreases sizes.len(),
{
    lemma_index_after_sorted(sizes);
    assert forall|v: u64| #[trigger] count_geq(index_after(sizes), v) == count_geq(
        sizes,
        v,
    ) by {
        lemma_index_after_counts(sizes, v);
    }
    lemma_index_after_counts(sizes, 0);
}

/// A sequence with a greater-or-equal element has a positive count.
pub proof fn lemma_count_geq_pos(s: Seq<u64>, v: u64)
    requires
        s.len() > 0,
        s[0] >= v,
    ensures
        count_geq(s, v) >= 1,
{
}

/// Law: a rank never exceeds the arrival position it is assigned at,
/// so every rank is a valid insertion position into the list of all
/// earlier records.
pub proof fn lemma_rank_le_index(sizes: Seq<u64>, i: int)
    requires
        0 <= i < sizes.len(),
    ensures
        rank_at(sizes, i) <= i,
{
    lemma_count_geq_le_len(sizes.take(i), sizes[i]);
}

/// Where no element equals `v`, counting greater-or-equal elements and
/// counting strictly-greater elements agree.
pub proof fn lemma_count_geq_eq_gt(s: Seq<u64>, v: u64)
    requires
        forall|k: int| 0 <= k < s.len() ==> s[k] != v,
    ensures
        count_geq(s, v) == count_gt(s, v),
    decreases s.len(),
{
    if s.len() > 0 {
        assert(forall|k: int| 0 <= k < s.skip(1).len() ==> s.skip(1)[k] == s[k + 1]);
        lemma_count_geq_eq_gt(s.skip(1), v);
    }
}

/// Law: a record preceded by no record of equal size is ranked by the
/// number of earlier records of strictly greater size.
pub proof fn lemma_rank_counts_strictly_greater(sizes: Seq<u64>, i: int)
    requires
        0 <= i < sizes.len(),
        forall|j: int| 0 <= j < i ==> sizes[j] != sizes[i],
    ensures
        rank_at(sizes, i) == count_gt(sizes.take(i), sizes[i]),
{
    assert(forall|k: int| 0 <= k < sizes.take(i).len() ==> sizes.take(i)[k] != sizes[i]);
    lemma_count_geq_eq_gt(sizes.take(i), sizes[i]);
}

/// Law: when sizes arrive in strictly descending order, the emitted
/// ranks are exactly the positions `0, 1, ..., n - 1` — each value
/// used once, the identity permutation.
pub proof fn lemma_ranks_descending_identity(sizes: Seq<u64>)
    requires
        forall|i: int, j: int| 0 <= i < j < sizes.len() ==> sizes[i] > sizes[j],
    ensures
        forall|i: int| 0 <= i < sizes.len() ==> rank_at(sizes, i) == i,
{
    assert forall|i: int| 0 <= i < sizes.len() implies rank_at(sizes, i) == i by {
        let t = sizes.take(i);
        assert(forall|k: int| 0 <= k < i ==> t[k] >= sizes[i]);
        lemma_count_geq_split(t, sizes[i], i);
    }
}

/// Law: ties are first-in-first-out. Of two records with equal size,
/// the earlier arrival receives the strictly smaller rank.
pub proof fn lemma_tie_fifo(sizes: Seq<u64>, a: int, b: int)
    requires
        0 <= a < b < sizes.len(),
        sizes[a] == sizes[b],
    ensures
        rank_at(sizes, a) < rank_at(sizes, b),
{
    let v = sizes[b];
    let ta = sizes.take(a);
    let tb = sizes.take(b);
    let mid = sizes.subrange(a, b);
    assert(tb =~= ta + mid);
    lemma_count_geq_concat(ta, mid, v);
    assert(mid[0] == sizes[a]);
    lemma_count_geq_pos(mid, v);
}

/// The aggregator's private state: every size seen so far, kept in
/// descending order. Its length equals the number of records processed.
pub struct Aggregator {
    sizes: Vec<u64>,
}

impl Aggregator {
    /// The ordered size index, as a mathematical sequence.
    pub closed spec fn index_seq(&self) -> Seq<u64> {
        self.sizes@
    }

    /// The index is sorted in descending order at all times.
    pub closed spec fn wf(&self) -> bool {
        sorted_desc(self.index_seq())
    }

    /// A fresh aggregator that has seen no records.
    pub fn new() -> (a: Aggregator)
        ensures
            a.wf(),
            a.index_seq() == Seq::<u64>::empty(),
    {
        Aggregator { sizes: Vec::new() }
    }

    /// How many records have been processed so far.
    pub fn len(&self) -> (n: usize)
        ensures
            n == self.index_seq().len(),
    {
        self.sizes.len()
    }

    /// Process one arriving size: binary-search the descending index
    /// for the first position holding a size strictly below the
    /// newcomer's, insert the newcomer there, and return that position
    /// as the newcomer's rank. The rank is exactly the number of sizes
    /// seen before it that are greater than or equal to it, so a tie
    /// ranks strictly after every earlier equal size.
    pub fn process(&mut self, size: u64) -> (rank: usize)
        requires
            old(self).wf(),
            old(self).index_seq().len() < usize::MAX,
        ensures
            final(self).wf(),
            rank == count_geq(old(self).index_seq(), size),
            rank <= old(self).index_seq().len(),
            final(self).index_seq() == old(self).index_seq().insert(rank as int, size),
    {
        let ghost s = self.sizes@;
        let mut lo: usize = 0;
        let mut hi: usize = self.sizes.len();
        while lo < hi
            invariant
                0 <= lo <= hi <= self.sizes.len(),
                self.sizes@ == s,
                sorted_desc(s),
                forall|k: int| 0 <= k < lo ==> s[k] >= size,
                forall|k: int| hi <= k < s.len() ==> s[k] < size,
            decreases hi - lo,
        {
            let mid = lo + (hi - lo) / 2;
            if self.sizes[mid] >= size {
                lo = mid + 1;
            } else {
                hi = mid;
            }
        }
        proof {
            lemma_count_geq_split(s, size, lo as int);
            lemma_insert_keeps_sorted(s, size);
        }
        self.sizes.insert(lo, size);
        lo
    }

    /// Consume one match record: compute its rank, remember its size,
    /// and build the event handed onward to the presentation layer.
    pub fn process_record(&mut self, record: MatchRecord) -> (ev: HubEvent)
        requires
            old(self).wf(),
            old(self).index_seq().len() < usize::MAX,
        ensures
            final(self).wf(),
            ev.index == count_geq(old(self).index_seq(), record.size_bytes),
            ev.path@ == record.path@,
            ev.size == record.size_bytes,
            final(self).index_seq() == old(self).index_seq().insert(
                ev.index as int,
                record.size_bytes,
            ),
    {
        let rank = self.process(record.size_bytes);
        HubEvent { index: rank, path: record.path, size: record.size_bytes }
    }
}

/// Feed a whole arrival sequence of sizes through a fresh aggregator
/// and return the rank each one was assigned: the record at arrival
/// position `i` receives `rank_at(sizes, i)`, the number of earlier
/// records with size greater than or equal to its own.
pub fn compute_ranks(sizes: &Vec<u64>) -> (ranks: Vec<usize>)
    ensures
        ranks@.len() == sizes@.len(),
        forall|i: int| 0 <= i < sizes@.len() ==> ranks@[i] == rank_at(sizes@, i),
{
    let mut agg = Aggregator::new();
    let mut ranks: Vec<usize> = Vec::new();
    let mut i: usize = 0;
    while i < sizes.len()
        invariant
            0 <= i <= sizes@.len(),
            agg.wf(),
            agg.index_seq().len() == i,
            ranks@.len() == i,
            forall|v: u64| #[trigger] count_geq(agg.index_seq(), v) == count_geq(
                sizes@.take(i as int),
                v,
            ),
            forall|k: int| 0 <= k < i ==> ranks@[k] == rank_at(sizes@, k),
        decreases sizes@.len() - i,
    {
        let ghost pre = agg.index_seq();
        let ghost prefix = sizes@.take(i as int);
        let x = sizes[i];
        let r = agg.process(x);
        proof {
            assert(count_geq(pre, x) == count_geq(prefix, x));
            assert(r == rank_at(sizes@, i as int));
            let newpre = pre.insert(r as int, x);
            let newprefix = sizes@.take(i + 1);
            assert(newprefix =~= prefix.insert(i as int, x));
            assert forall|v: u64| #[trigger] count_geq(newpre, v) == count_geq(newprefix, v) by {
                lemma_count_geq_insert(pre, r as int, x, v);
                lemma_count_geq_insert(prefix, i as int, x, v);
            }
        }
        ranks.push(r);
        i = i + 1;
    }
    proof {
        assert(sizes@.take(sizes@.len() as int) =~= sizes@);
    }
    ranks
}

} // verus!


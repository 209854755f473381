use deoxit::rank::{compute_ranks, Aggregator};
use deoxit::record::MatchRecord;

#[test]
fn two_sizes_descending() {
    // two matches, 500 then 200: ranks 0 then 1
    let ranks = compute_ranks(&vec![500u64, 200u64]);
    assert_eq!(ranks, vec![0usize, 1usize]);
}

#[test]
fn three_sizes_with_tie() {
    // 100, 300, 100: the first is alone (rank 0), the larger newcomer
    // ranks first among two (rank 0), the tie ranks after both (rank 2)
    let ranks = compute_ranks(&vec![100u64, 300u64, 100u64]);
    assert_eq!(ranks, vec![0usize, 0usize, 2usize]);
}

#[test]
fn ties_are_first_in_first_out() {
    let ranks = compute_ranks(&vec![100u64, 100u64]);
    assert!(ranks[0] < ranks[1]);
    assert_eq!(ranks, vec![0usize, 1usize]);
}

#[test]
fn strictly_descending_arrival_gives_identity_ranks() {
    let ranks = compute_ranks(&vec![900u64, 500u64, 300u64, 7u64]);
    assert_eq!(ranks, vec![0usize, 1usize, 2usize, 3usize]);
}

#[test]
fn ascending_arrival_keeps_rank_zero() {
    // every newcomer is the largest seen so far
    let ranks = compute_ranks(&vec![1u64, 2u64, 3u64]);
    assert_eq!(ranks, vec![0usize, 0usize, 0usize]);
}

#[test]
fn no_sizes_no_ranks() {
    let ranks = compute_ranks(&vec![]);
    assert!(ranks.is_empty());
}

#[test]
fn aggregator_processes_one_at_a_time() {
    let mut agg = Aggregator::new();
    assert_eq!(agg.len(), 0);
    assert_eq!(agg.process(500), 0);
    assert_eq!(agg.process(200), 1);
    assert_eq!(agg.process(300), 1);
    assert_eq!(agg.process(300), 2);
    assert_eq!(agg.len(), 4);
}

#[test]
fn record_becomes_ranked_event() {
    let mut agg = Aggregator::new();
    let first = agg.process_record(MatchRecord::new(String::from("/a"), 500));
    assert_eq!(first.index, 0);
    assert_eq!(first.path, "/a");
    assert_eq!(first.size, 500);
    let second = agg.process_record(MatchRecord::new(String::from("/b"), 200));
    assert_eq!(second.index, 1);
    assert_eq!(second.path, "/b");
    assert_eq!(second.size, 200);
}

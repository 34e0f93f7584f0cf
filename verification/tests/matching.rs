use shezem_rs::fingerprint::{Fingerprint, FingerprintData};
use shezem_rs::matcher::{accepted_records, rank_matches, rank_songs, sliding_window_score};

fn record(address: u32, anchor_address: u32, anchor_time: u32, song_id: i32) -> FingerprintData {
    FingerprintData {
        fingerprint: Fingerprint { address, anchor_address, anchor_time },
        song_id,
    }
}

#[test]
fn incomplete_neighborhood_contributes_nothing() {
    // Four collisions of one couple: one short of a full neighborhood.
    let records = vec![
        record(1, 77, 10, 1),
        record(2, 77, 10, 1),
        record(3, 77, 10, 1),
        record(4, 77, 10, 1),
    ];
    assert_eq!(accepted_records(&records).len(), 0);
}

#[test]
fn complete_neighborhood_is_accepted_once() {
    let records = vec![
        record(1, 77, 10, 1),
        record(2, 77, 10, 1),
        record(3, 77, 10, 1),
        record(4, 77, 10, 1),
        record(5, 77, 10, 1),
    ];
    let acc = accepted_records(&records);
    assert_eq!(acc.len(), 1);
    assert_eq!(acc[0].fingerprint.address, 5);
    assert_eq!(acc[0].song_id, 1);
}

#[test]
fn extra_collisions_do_not_accept_a_couple_twice() {
    let mut records = Vec::new();
    for a in 1..=7u32 {
        records.push(record(a, 77, 10, 1));
    }
    assert_eq!(accepted_records(&records).len(), 1);
}

#[test]
fn couples_differing_in_any_field_count_separately() {
    // Same anchor address but two songs: neither reaches five alone.
    let mut records = Vec::new();
    for a in 1..=4u32 {
        records.push(record(a, 77, 10, 1));
        records.push(record(a, 77, 10, 2));
    }
    assert_eq!(accepted_records(&records).len(), 0);
}

#[test]
fn sliding_window_counts_the_densest_span() {
    assert_eq!(sliding_window_score(&vec![10, 20, 30, 100, 110], 25), 3);
    assert_eq!(sliding_window_score(&vec![10, 20, 30, 100, 110], 15), 2);
    assert_eq!(sliding_window_score(&vec![10, 20, 30, 100, 110], 5), 1);
    assert_eq!(sliding_window_score(&vec![10, 20, 30, 100, 110], 95), 4);
    assert_eq!(sliding_window_score(&vec![10, 20, 30, 100, 110], 100), 5);
}

#[test]
fn sliding_window_of_nothing_scores_zero() {
    assert_eq!(sliding_window_score(&vec![], 25), 0);
}

#[test]
fn sliding_window_with_zero_duration_counts_equal_times() {
    assert_eq!(sliding_window_score(&vec![7, 7, 7, 9], 0), 3);
}

#[test]
fn matches_are_grouped_aligned_and_scored_per_song() {
    // The query's fingerprints carry addresses 1..=10 in order.
    let query: Vec<Fingerprint> = (1..=10u32)
        .map(|a| Fingerprint { address: a, anchor_address: 0, anchor_time: 0 })
        .collect();
    let mut records = Vec::new();
    // Song 1: two complete neighborhoods whose stored times follow the
    // query's order.
    for a in 1..=5u32 {
        records.push(record(a, 100, 50, 1));
    }
    for a in 6..=10u32 {
        records.push(record(a, 101, 60, 1));
    }
    // Song 2: one complete neighborhood.
    for a in 1..=5u32 {
        records.push(record(a, 200, 70, 2));
    }
    let ranked = rank_matches(&query, &records, 20, 5);
    assert_eq!(ranked, vec![(1, 2), (2, 1)]);
}

#[test]
fn contradicting_temporal_order_is_discarded() {
    // Two anchors of one song whose stored times run against the query's
    // order: the longest aligned run keeps only one of them.
    let query: Vec<Fingerprint> = (1..=10u32)
        .map(|a| Fingerprint { address: a, anchor_address: 0, anchor_time: 0 })
        .collect();
    let mut records = Vec::new();
    for a in 1..=5u32 {
        records.push(record(a, 100, 90, 1));
    }
    for a in 6..=10u32 {
        records.push(record(a, 101, 10, 1));
    }
    let ranked = rank_matches(&query, &records, 1000, 5);
    assert_eq!(ranked, vec![(1, 1)]);
}

#[test]
fn ranking_sorts_by_score_and_truncates() {
    let ranked = rank_songs(vec![(1, 5), (2, 9), (3, 7)], 2);
    assert_eq!(ranked, vec![(2, 9), (3, 7)]);
}

#[test]
fn ranking_with_large_rank_keeps_everything() {
    let ranked = rank_songs(vec![(1, 5), (2, 9), (3, 7)], 10);
    assert_eq!(ranked, vec![(2, 9), (3, 7), (1, 5)]);
}

use shezem_rs::db::{DbClient, SongData, StoreError};
use shezem_rs::fingerprint::{generate_fingerprint, Fingerprint, FingerprintData};
use shezem_rs::spectrogram::Peak;

fn record(address: u32, anchor_address: u32, anchor_time: u32, song_id: i32) -> FingerprintData {
    FingerprintData {
        fingerprint: Fingerprint { address, anchor_address, anchor_time },
        song_id,
    }
}

#[test]
fn unopenable_store_is_reported_not_fatal() {
    assert!(matches!(
        DbClient::new("/nonexistent_dir_for_this_test/db.db3"),
        Err(StoreError::Storage)
    ));
}

#[test]
fn song_ids_are_fresh_across_registrations() {
    let mut client = DbClient::new(":memory:").unwrap();
    let a = client
        .register_song(&SongData { title: "one".to_string() })
        .unwrap();
    let b = client
        .register_song(&SongData { title: "two".to_string() })
        .unwrap();
    assert_ne!(a, b);
    assert_eq!(client.get_song_data(a as i32).unwrap().title, "one");
    assert_eq!(client.get_song_data(b as i32).unwrap().title, "two");
}

#[test]
fn batch_registration_stores_every_record_once() {
    let mut client = DbClient::new(":memory:").unwrap();
    let batch = vec![record(1, 9, 0, 1), record(2, 9, 0, 1), record(1, 9, 0, 1)];
    client.register_fingerprints(&batch).unwrap();
    let q = vec![
        Fingerprint { address: 1, anchor_address: 0, anchor_time: 0 },
        Fingerprint { address: 2, anchor_address: 0, anchor_time: 0 },
    ];
    let mut addrs: Vec<u32> = client
        .get_fingerprint_from_database(&q)
        .unwrap()
        .iter()
        .map(|r| r.fingerprint.address)
        .collect();
    addrs.sort();
    assert_eq!(addrs, vec![1, 2]);
}

#[test]
fn registered_song_title_comes_back() {
    let mut client = DbClient::new(":memory:").unwrap();
    let id = client
        .register_song(&SongData { title: "first".to_string() })
        .unwrap();
    let data = client.get_song_data(id as i32).unwrap();
    assert_eq!(data.title, "first");
}

#[test]
fn missing_song_is_a_storage_error() {
    let client = DbClient::new(":memory:").unwrap();
    assert!(matches!(client.get_song_data(42), Err(StoreError::Storage)));
}

#[test]
fn duplicate_fingerprint_insertions_store_one_row() {
    let mut client = DbClient::new(":memory:").unwrap();
    let rec = record(11, 22, 33, 1);
    client.register_fingerprint(&rec).unwrap();
    client.register_fingerprint(&rec).unwrap();
    let rows = client
        .get_fingerprint_from_database(&vec![rec.fingerprint])
        .unwrap();
    assert_eq!(rows.len(), 1);
    assert_eq!(rows[0].fingerprint.address, 11);
    assert_eq!(rows[0].fingerprint.anchor_address, 22);
    assert_eq!(rows[0].fingerprint.anchor_time, 33);
    assert_eq!(rows[0].song_id, 1);
}

#[test]
fn lookup_returns_only_queried_addresses() {
    let mut client = DbClient::new(":memory:").unwrap();
    client.register_fingerprint(&record(1, 9, 0, 1)).unwrap();
    client.register_fingerprint(&record(2, 9, 0, 1)).unwrap();
    client.register_fingerprint(&record(3, 9, 0, 1)).unwrap();
    let q = vec![Fingerprint { address: 1, anchor_address: 0, anchor_time: 0 },
                 Fingerprint { address: 3, anchor_address: 0, anchor_time: 0 }];
    let mut addrs: Vec<u32> = client
        .get_fingerprint_from_database(&q)
        .unwrap()
        .iter()
        .map(|r| r.fingerprint.address)
        .collect();
    addrs.sort();
    assert_eq!(addrs, vec![1, 3]);
}

#[test]
fn empty_query_is_reported() {
    let client = DbClient::new(":memory:").unwrap();
    assert!(matches!(
        client.search(Vec::new(), 10),
        Err(StoreError::EmptyQuery)
    ));
}

fn clip_peaks(range: std::ops::Range<u32>) -> Vec<Peak> {
    range.map(|i| Peak { time_ms: 100 * i, freq: i }).collect()
}

fn index_song(client: &mut DbClient, title: &str, peaks: Vec<Peak>) -> i64 {
    let song_id = client
        .register_song(&SongData { title: title.to_string() })
        .unwrap();
    let records: Vec<FingerprintData> = generate_fingerprint(peaks)
        .into_iter()
        .map(|fingerprint| FingerprintData { fingerprint, song_id: song_id as i32 })
        .collect();
    client.register_fingerprints(&records).unwrap();
    song_id
}

#[test]
fn identical_excerpt_round_trips_to_the_top_rank() {
    let mut client = DbClient::new(":memory:").unwrap();
    index_song(&mut client, "wanted", clip_peaks(0..12));
    index_song(&mut client, "decoy", clip_peaks(20..32));

    // An unmodified excerpt of the first clip: its last nine peaks.
    let query = generate_fingerprint(clip_peaks(3..12));
    assert_eq!(query.len(), 4 * 5);
    let ranking = client.search(query, 10).unwrap();
    assert_eq!(ranking.len(), 1);
    assert_eq!(ranking[0].data.title, "wanted");
    // Every query anchor survives the filter and aligns: the score is the
    // full count of query anchors.
    assert_eq!(ranking[0].score, 4);
}

#[test]
fn whole_clip_matches_itself_fully() {
    let mut client = DbClient::new(":memory:").unwrap();
    index_song(&mut client, "only", clip_peaks(0..12));
    let query = generate_fingerprint(clip_peaks(0..12));
    let ranking = client.search(query, 3).unwrap();
    assert_eq!(ranking.len(), 1);
    assert_eq!(ranking[0].data.title, "only");
    assert_eq!(ranking[0].score, 7);
}

#[test]
fn rank_bounds_the_number_of_results() {
    let mut client = DbClient::new(":memory:").unwrap();
    index_song(&mut client, "a", clip_peaks(0..12));
    index_song(&mut client, "b", clip_peaks(100..112));
    // A query holding both clips' fingerprints matches both songs.
    let mut query = generate_fingerprint(clip_peaks(0..12));
    query.extend(generate_fingerprint(clip_peaks(100..112)));
    let ranking = client.search(query, 1).unwrap();
    assert_eq!(ranking.len(), 1);
}

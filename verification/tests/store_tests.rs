use thermobug::measurement::Measurement;
use thermobug::store::TempState;

fn keys(names: &[&str]) -> Vec<String> {
    names.iter().map(|s| s.to_string()).collect()
}

#[test]
fn update_on_known_key_is_recognised() {
    let mut st = TempState::new(keys(&["living", "cellar"]), 16, 60, 0);
    let r = st.update("living", 215, 1_000);
    assert!(r.recognised);
    let data = st.get("living").unwrap();
    assert_eq!(data, vec![Measurement::new(215, 1_000)]);
}

#[test]
fn update_on_unknown_key_changes_nothing() {
    let mut st = TempState::new(keys(&["living"]), 16, 60, 0);
    st.update("living", 200, 1_000);
    let before = st.get("living").unwrap();
    let r = st.update("attic", 999, 2_000);
    assert!(!r.recognised);
    assert!(!r.flush_claimed);
    assert_eq!(st.get("living").unwrap(), before);
    assert!(st.get("attic").is_none());
}

#[test]
fn reads_on_unknown_key_report_no_such_sensor() {
    let st = TempState::new(keys(&["living"]), 16, 60, 0);
    assert!(st.get("attic").is_none());
    // the durable collaborator is never consulted: no query is produced
    assert!(st.get_since("attic", 0).is_none());
}

#[test]
fn get_since_names_the_collection_and_bound() {
    let st = TempState::new(keys(&["living"]), 16, 60, 0);
    let q = st.get_since("living", 12_345).unwrap();
    assert_eq!(q.collection, "living".to_string());
    assert_eq!(q.min_timestamp, 12_345);
}

#[test]
fn update_claims_the_flush_after_the_interval() {
    // gate seeded at 0 seconds with a 60 second interval; updates carry
    // wall-clock milliseconds
    let mut st = TempState::new(keys(&["living"]), 16, 60, 0);
    assert!(!st.update("living", 1, 30_000).flush_claimed);
    assert!(st.update("living", 2, 61_000).flush_claimed);
    // claimed once: the next write in the same window stands down
    assert!(!st.update("living", 3, 61_500).flush_claimed);
    // an unrecognised key has no side effect: the flush gate is not
    // consulted, so the pending window stays open for the next recognised
    // write
    assert!(!st.update("attic", 4, 125_000).flush_claimed);
    assert!(st.update("living", 5, 125_000).flush_claimed);
}

#[test]
fn persist_drains_compacts_and_skips_empty_buffers() {
    let mut st = TempState::new(keys(&["living", "cellar", "attic"]), 16, 60, 0);
    st.update("living", 10, 1);
    st.update("living", 20, 2);
    st.update("attic", 30, 3);
    let batches = st.persist();
    assert_eq!(batches.len(), 2);
    assert_eq!(batches[0].key, "living".to_string());
    assert_eq!(
        batches[0].records,
        vec![Measurement::new(10, 1), Measurement::new(20, 2)]
    );
    assert_eq!(batches[1].key, "attic".to_string());
    assert_eq!(batches[1].records, vec![Measurement::new(30, 3)]);
    // each drained buffer keeps only its most recent entry; empty ones stay empty
    assert_eq!(st.get("living").unwrap(), vec![Measurement::new(20, 2)]);
    assert_eq!(st.get("cellar").unwrap(), vec![]);
    assert_eq!(st.get("attic").unwrap(), vec![Measurement::new(30, 3)]);
}

#[test]
fn persist_on_all_empty_buffers_reports_nothing() {
    let mut st = TempState::new(keys(&["living"]), 16, 60, 0);
    let batches = st.persist();
    assert!(batches.is_empty());
    assert_eq!(st.get("living").unwrap(), vec![]);
}

#[test]
fn repeated_keys_fold_into_one_sensor() {
    let mut st = TempState::new(keys(&["living", "living"]), 16, 60, 0);
    st.update("living", 5, 1);
    let batches = st.persist();
    assert_eq!(batches.len(), 1);
    assert_eq!(batches[0].records.len(), 1);
}

#[test]
fn unsent_data_returns_on_the_next_flush() {
    // compaction keeps the most recent entry resident, so after a flush the
    // next flush still carries that entry (the durable store's unique index
    // deduplicates it)
    let mut st = TempState::new(keys(&["living"]), 16, 60, 0);
    st.update("living", 10, 1);
    let first = st.persist();
    assert_eq!(first[0].records, vec![Measurement::new(10, 1)]);
    let second = st.persist();
    assert_eq!(second[0].records, vec![Measurement::new(10, 1)]);
}

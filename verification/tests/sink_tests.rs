use thermobug::measurement::Measurement;
use thermobug::response::{DataResponse, Response};
use thermobug::sink::{collect_records, is_duplicate_key_error, parse_record, RawRecord, RecordError};

#[test]
fn parse_record_accepts_fields_in_range() {
    let r = parse_record(Some(215), Some(1_000)).unwrap();
    assert_eq!(r, Measurement::new(215, 1_000));
}

#[test]
fn parse_record_rejects_missing_fields() {
    assert_eq!(parse_record(None, Some(1)), Err(RecordError::MissingField));
    assert_eq!(parse_record(Some(1), None), Err(RecordError::MissingField));
}

#[test]
fn parse_record_rejects_out_of_range_fields() {
    assert_eq!(parse_record(Some(-1), Some(1)), Err(RecordError::FieldOutOfRange));
    assert_eq!(parse_record(Some(65_536), Some(1)), Err(RecordError::FieldOutOfRange));
    assert_eq!(parse_record(Some(1), Some(-5)), Err(RecordError::FieldOutOfRange));
    assert_eq!(
        parse_record(Some(65_535), Some(0)).unwrap(),
        Measurement::new(65_535, 0)
    );
}

#[test]
fn collect_records_parses_a_clean_run_in_order() {
    let rows = vec![
        RawRecord { deg_c: Some(10), timestamp: Some(1) },
        RawRecord { deg_c: Some(20), timestamp: Some(2) },
    ];
    let out = collect_records(&rows).unwrap();
    assert_eq!(out, vec![Measurement::new(10, 1), Measurement::new(20, 2)]);
}

#[test]
fn collect_records_aborts_on_the_first_malformed_record() {
    let rows = vec![
        RawRecord { deg_c: Some(10), timestamp: Some(1) },
        RawRecord { deg_c: None, timestamp: Some(2) },
        RawRecord { deg_c: Some(-7), timestamp: Some(3) },
    ];
    // the earliest malformed record decides the error; nothing is returned
    assert_eq!(collect_records(&rows), Err(RecordError::MissingField));
}

#[test]
fn duplicate_key_conflicts_are_recognised() {
    let rendered = "Error { kind: BulkWrite, message: \"E11000 duplicate key error collection\" }";
    assert!(is_duplicate_key_error(rendered.as_bytes()));
    assert!(!is_duplicate_key_error(b"connection refused"));
    assert!(!is_duplicate_key_error(b""));
    // the marker must be contiguous
    assert!(!is_duplicate_key_error(b"duplicate bad key error"));
}

#[test]
fn a_conflicting_flush_batch_is_swallowed_and_the_rest_proceed() {
    // the flush loop over sensors, as the caller of persist() runs it: an
    // insert that reports a duplicate-key conflict is swallowed and the
    // remaining sensors still flush
    let mut st = thermobug::store::TempState::new(
        vec!["a".to_string(), "b".to_string()],
        4,
        60,
        0,
    );
    st.update("a", 1, 1);
    st.update("b", 2, 2);
    let batches = st.persist();
    let mut flushed = Vec::new();
    let mut aborted = false;
    for batch in &batches {
        // the first sensor's insert conflicts on its unique timestamp index
        let insert_error = if batch.key == "a" {
            Some("E11000 duplicate key error collection: tb.a index: timestamp_index")
        } else {
            None
        };
        if let Some(e) = insert_error {
            if !is_duplicate_key_error(e.as_bytes()) {
                aborted = true;
                break;
            }
        }
        flushed.push(batch.key.clone());
    }
    assert!(!aborted);
    assert_eq!(flushed, vec!["a".to_string(), "b".to_string()]);
}

#[test]
fn response_shapes_carry_their_fields() {
    let ok = Response::ok();
    assert!(ok.success);
    assert!(ok.message.is_none());
    let err = Response::err("unrecognised data source");
    assert!(!err.success);
    assert_eq!(err.message.unwrap(), "unrecognised data source".to_string());
    let data = DataResponse::new(vec![Measurement::new(1, 2)]);
    assert!(data.success);
    assert_eq!(data.data, vec![Measurement::new(1, 2)]);
}

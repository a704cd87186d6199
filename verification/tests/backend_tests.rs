//! Storage backend scenarios: durability through the backend's own medium.

use telemetry_ingest::store::{
    JsonFiles, SqliteOpen, StorageBackend, StorageOpen,
};
use telemetry_ingest::writer::read_decompressed;
use telemetry_ingest::StorageError;

fn temp_db_path() -> (tempfile::TempDir, String) {
    let dir = tempfile::tempdir().expect("temp dir");
    let path = dir.path().join("telemetry.sqlite.db");
    (dir, path.to_str().unwrap().to_string())
}

fn event_payloads(db_path: &str) -> Vec<serde_json::Value> {
    let conn = rusqlite::Connection::open(db_path).expect("reopen db");
    let mut stmt = conn
        .prepare("select json(payload) from events order by event_id")
        .expect("prepare");
    let rows = stmt
        .query_map((), |row| row.get::<_, String>(0))
        .expect("query");
    rows.map(|r| serde_json::from_str(&r.expect("row")).expect("json"))
        .collect()
}

#[test]
fn sqlite_records_readable_after_commit() {
    let (_dir, path) = temp_db_path();
    let opener = SqliteOpen { custom_schema: None, db_path: Some(path.clone()) };
    let mut conn = opener.open().expect("open backend");
    let id = conn.new_stream("{}").expect("new stream");
    conn.insert_event(id, 0, r#"{"a":1}"#).expect("insert 0");
    conn.insert_event(id, 1, r#"{"b":[true,null]}"#).expect("insert 1");
    conn.insert_event(id, 2, "7").expect("insert 2");
    conn.flush().expect("flush");
    conn.commit().expect("commit");
    let got = event_payloads(&path);
    let want: Vec<serde_json::Value> = vec![
        serde_json::from_str(r#"{"a":1}"#).unwrap(),
        serde_json::from_str(r#"{"b":[true,null]}"#).unwrap(),
        serde_json::from_str("7").unwrap(),
    ];
    assert_eq!(got, want);
    // the caller-assigned sequence index is part of the durable record
    let reopened = rusqlite::Connection::open(&path).unwrap();
    let mut stmt = reopened
        .prepare("select stream_event_index from events order by event_id")
        .unwrap();
    let indices: Vec<i64> = stmt
        .query_map((), |r| r.get(0))
        .unwrap()
        .map(|r| r.unwrap())
        .collect();
    assert_eq!(indices, vec![0, 1, 2]);
    let streams: i64 = reopened
        .query_row("select count(*) from streams", (), |r| r.get(0))
        .unwrap();
    assert_eq!(streams, 1);
}

#[test]
fn sqlite_schema_applied_once() {
    let (_dir, path) = temp_db_path();
    let opener = SqliteOpen { custom_schema: None, db_path: Some(path.clone()) };
    let mut conn = opener.open().expect("first open");
    let id = conn.new_stream("{}").expect("stream");
    conn.insert_event(id, 0, "1").expect("insert");
    drop(conn);
    // a second startup sees the version marker and does not re-apply
    let opener2 = SqliteOpen { custom_schema: None, db_path: Some(path.clone()) };
    let mut conn2 = opener2.open().expect("second open");
    let id2 = conn2.new_stream("{}").expect("stream 2");
    conn2.insert_event(id2, 0, "2").expect("insert 2");
    assert_eq!(event_payloads(&path).len(), 2);
}

#[test]
fn sqlite_rejects_invalid_payload() {
    let (_dir, path) = temp_db_path();
    let opener = SqliteOpen { custom_schema: None, db_path: Some(path) };
    let mut conn = opener.open().expect("open backend");
    let id = conn.new_stream("{}").expect("stream");
    let e = conn.insert_event(id, 0, "garbage").unwrap_err();
    assert!(matches!(e, StorageError::InvalidPayload));
    let e2 = conn.insert_event(id, 1, r#"{"a":1} "#).unwrap_err();
    assert!(matches!(e2, StorageError::InvalidPayload));
    assert!(!conn.commit_on_sigint());
}

/// Decompress every produced file, concatenate, and split into JSON lines.
fn decoded_lines(files: &[telemetry_ingest::writer::OutputFile]) -> Vec<serde_json::Value> {
    let mut all: Vec<u8> = Vec::new();
    for f in files {
        all.extend(read_decompressed(f).expect("decode"));
    }
    assert!(all.is_empty() || all.last() == Some(&b'\n'));
    all.split(|b| *b == b'\n')
        .filter(|line| !line.is_empty())
        .map(|line| serde_json::from_slice(line).expect("line is json"))
        .collect()
}

#[test]
fn flat_files_reconstruct_every_record_once_in_order() {
    let dir = tempfile::tempdir().expect("temp dir");
    let mut jf = JsonFiles::new_in(dir.path().to_str().unwrap());
    let id = jf.new_stream(r#"{"h":"v"}"#).expect("stream");
    jf.insert_event(id, 0, r#"{"a":1}"#).expect("insert 0");
    jf.insert_event(id, 1, r#"{"b":2}"#).expect("insert 1");
    // rotate the compression frame but keep the same file
    jf.flush().expect("flush");
    jf.insert_event(id, 2, r#"{"c":3}"#).expect("insert 2");
    jf.commit_files().expect("commit");
    let (stream_files, event_files) = jf.into_output_files();
    assert_eq!(stream_files.len(), 1);
    assert_eq!(event_files.len(), 1);

    let stream_lines = decoded_lines(&stream_files);
    assert_eq!(stream_lines.len(), 1);
    assert_eq!(stream_lines[0]["stream_id"], serde_json::Value::from(id.0));
    assert_eq!(stream_lines[0]["headers"], serde_json::Value::from(r#"{"h":"v"}"#));

    let lines = decoded_lines(&event_files);
    assert_eq!(lines.len(), 3);
    for (j, want) in [r#"{"a":1}"#, r#"{"b":2}"#, r#"{"c":3}"#].iter().enumerate() {
        let want: serde_json::Value = serde_json::from_str(want).unwrap();
        assert_eq!(lines[j]["payload"], want);
        assert_eq!(lines[j]["stream_id"], serde_json::Value::from(id.0));
        assert_eq!(lines[j]["stream_event_index"], serde_json::Value::from(j as u64));
    }
}

#[test]
fn flat_files_commit_starts_new_file() {
    let dir = tempfile::tempdir().expect("temp dir");
    let mut jf = JsonFiles::new_in(dir.path().to_str().unwrap());
    let id = jf.new_stream("{}").expect("stream");
    jf.insert_event(id, 0, "1").expect("insert");
    jf.commit_files().expect("commit 1");
    jf.insert_event(id, 1, "2").expect("insert 2");
    jf.commit_files().expect("commit 2");
    let (_, event_files) = jf.into_output_files();
    assert_eq!(event_files.len(), 2);
    let first = decoded_lines(&event_files[..1]);
    assert_eq!(first.len(), 1);
    assert_eq!(first[0]["payload"], serde_json::Value::from(1));
}

#[test]
fn flat_files_commit_on_interrupt_yields_exactly_one_record() {
    let dir = tempfile::tempdir().expect("temp dir");
    let mut jf = JsonFiles::new_in(dir.path().to_str().unwrap());
    // the flat-file backend advertises that an interrupt must trigger commit
    assert!(jf.commit_on_sigint());
    let id = jf.new_stream("{}").expect("stream");
    jf.insert_event(id, 0, r#"{"only":1}"#).expect("insert");
    // simulated interrupt: the hosting process reacts by committing
    jf.commit_files().expect("commit on interrupt");
    let (_, event_files) = jf.into_output_files();
    let lines = decoded_lines(&event_files);
    assert_eq!(lines.len(), 1);
    assert_eq!(lines[0]["payload"], serde_json::from_str::<serde_json::Value>(r#"{"only":1}"#).unwrap());
}

#[test]
fn flat_files_reject_invalid_payload() {
    let dir = tempfile::tempdir().expect("temp dir");
    let mut jf = JsonFiles::new_in(dir.path().to_str().unwrap());
    let id = jf.new_stream("{}").expect("stream");
    let e = jf.insert_event(id, 0, "not json").unwrap_err();
    assert!(matches!(e, StorageError::InvalidPayload));
}

#[test]
fn sqlite_reports_backend_error_on_constraint_violation() {
    let (_dir, path) = temp_db_path();
    let opener = SqliteOpen { custom_schema: None, db_path: Some(path) };
    let mut conn = opener.open().expect("open backend");
    // no stream with this identifier exists; the foreign key rejects it
    let e = conn
        .insert_event(telemetry_ingest::StreamId(123456), 0, "1")
        .unwrap_err();
    assert!(matches!(e, StorageError::Backend));
}

//! Endpoint scenarios: one request body driven chunk by chunk into a
//! backend, with the outcome mapped to an HTTP status code.

use telemetry_ingest::ingest::{finish_session, on_chunk, start_session, Outcome};
use telemetry_ingest::store::{SqliteOpen, StorageOpen};

fn temp_db_path() -> (tempfile::TempDir, String) {
    let dir = tempfile::tempdir().expect("temp dir");
    let path = dir.path().join("telemetry.sqlite.db");
    (dir, path.to_str().unwrap().to_string())
}

fn event_payloads(db_path: &str) -> Vec<serde_json::Value> {
    let conn = rusqlite::Connection::open(db_path).expect("reopen db");
    let mut stmt = conn
        .prepare("select json(payload) from events order by event_id")
        .expect("prepare");
    let rows = stmt
        .query_map((), |row| row.get::<_, String>(0))
        .expect("query");
    rows.map(|r| serde_json::from_str(&r.expect("row")).expect("json"))
        .collect()
}

#[test]
fn status_codes() {
    assert_eq!(Outcome::Success.status_code(), 200);
    assert_eq!(Outcome::ClientError.status_code(), 400);
    assert_eq!(Outcome::ServerError.status_code(), 500);
}

#[test]
fn body_split_mid_object_stores_both_events() {
    let (_dir, path) = temp_db_path();
    let mut conn = SqliteOpen { custom_schema: None, db_path: Some(path.clone()) }
        .open()
        .expect("open backend");
    let mut session = start_session(&mut conn, "{}").expect("start");
    // the body arrives in two chunks split in the middle of the second object
    on_chunk(&mut conn, &mut session, br#"{"a":1}{"b"#).expect("chunk 1");
    on_chunk(&mut conn, &mut session, br#"":2}"#).expect("chunk 2");
    let outcome = finish_session(&mut conn, session);
    assert_eq!(outcome.status_code(), 200);
    let got = event_payloads(&path);
    assert_eq!(got.len(), 2);
    assert_eq!(got[0], serde_json::from_str::<serde_json::Value>(r#"{"a":1}"#).unwrap());
    assert_eq!(got[1], serde_json::from_str::<serde_json::Value>(r#"{"b":2}"#).unwrap());
}

#[test]
fn garbage_after_value_is_client_error_after_value_stored() {
    let (_dir, path) = temp_db_path();
    let mut conn = SqliteOpen { custom_schema: None, db_path: Some(path.clone()) }
        .open()
        .expect("open backend");
    let mut session = start_session(&mut conn, "{}").expect("start");
    let err = on_chunk(&mut conn, &mut session, br#"{"a":1} garbage"#).unwrap_err();
    assert!(matches!(err, Outcome::ClientError));
    assert_eq!(err.status_code(), 400);
    // the embedded backend commits per record: the accepted value is visible
    let got = event_payloads(&path);
    assert_eq!(got.len(), 1);
    assert_eq!(got[0], serde_json::from_str::<serde_json::Value>(r#"{"a":1}"#).unwrap());
}

#[test]
fn truncated_body_is_client_error() {
    let (_dir, path) = temp_db_path();
    let mut conn = SqliteOpen { custom_schema: None, db_path: Some(path.clone()) }
        .open()
        .expect("open backend");
    let mut session = start_session(&mut conn, "{}").expect("start");
    on_chunk(&mut conn, &mut session, br#"{"a":1}{"b":"#).expect("chunk");
    let outcome = finish_session(&mut conn, session);
    assert!(matches!(outcome, Outcome::ClientError));
    // the completed first value was already stored
    assert_eq!(event_payloads(&path).len(), 1);
}

#[test]
fn empty_body_succeeds_with_no_events() {
    let (_dir, path) = temp_db_path();
    let mut conn = SqliteOpen { custom_schema: None, db_path: Some(path.clone()) }
        .open()
        .expect("open backend");
    let session = start_session(&mut conn, "{}").expect("start");
    let outcome = finish_session(&mut conn, session);
    assert_eq!(outcome.status_code(), 200);
    assert_eq!(event_payloads(&path).len(), 0);
}

#[test]
fn trailing_number_body_stores_final_value() {
    let (_dir, path) = temp_db_path();
    let mut conn = SqliteOpen { custom_schema: None, db_path: Some(path.clone()) }
        .open()
        .expect("open backend");
    let mut session = start_session(&mut conn, "{}").expect("start");
    on_chunk(&mut conn, &mut session, b"1 2 3").expect("chunk");
    let outcome = finish_session(&mut conn, session);
    assert_eq!(outcome.status_code(), 200);
    let got = event_payloads(&path);
    assert_eq!(got.len(), 3);
    assert_eq!(got[2], serde_json::Value::from(3));
}

#[test]
fn invalid_utf8_inside_string_is_client_error() {
    let (_dir, path) = temp_db_path();
    let mut conn = SqliteOpen { custom_schema: None, db_path: Some(path.clone()) }
        .open()
        .expect("open backend");
    let mut session = start_session(&mut conn, "{}").expect("start");
    // a JSON string token carrying a byte that is not valid UTF-8
    let body: Vec<u8> = vec![b'"', 0xff, b'"'];
    let err = on_chunk(&mut conn, &mut session, &body).unwrap_err();
    assert!(matches!(err, Outcome::ClientError));
    assert_eq!(event_payloads(&path).len(), 0);
}

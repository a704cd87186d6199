//! Behavior of the incremental JSON splitter under arbitrary chunkings.

use telemetry_ingest::splitter::{check_payload, Splitter};

/// Split `body` delivered in the given chunk sizes; returns the values (as
/// byte vectors) and whether the input was reported malformed or dangling.
fn run_split(body: &[u8], sizes: &[usize]) -> (Vec<Vec<u8>>, bool) {
    let mut sp = Splitter::new();
    let mut out = Vec::new();
    let mut pos = 0;
    for &n in sizes {
        let end = (pos + n).min(body.len());
        let fr = sp.feed(&body[pos..end]);
        out.extend(fr.values);
        if fr.malformed {
            return (out, true);
        }
        pos = end;
    }
    if pos < body.len() {
        let fr = sp.feed(&body[pos..]);
        out.extend(fr.values);
        if fr.malformed {
            return (out, true);
        }
    }
    match sp.finish() {
        Ok(vs) => {
            out.extend(vs);
            (out, false)
        }
        Err(_) => (out, true),
    }
}

fn parse_all(vals: &[Vec<u8>]) -> Vec<serde_json::Value> {
    vals.iter()
        .map(|v| serde_json::from_slice::<serde_json::Value>(v).expect("value must parse"))
        .collect()
}

#[test]
fn n_values_emitted_in_order_whole_body() {
    let body = br#"{"a":1}[2,3] "x" true null 1.5e3"#;
    let (vals, bad) = run_split(body, &[body.len()]);
    assert!(!bad);
    assert_eq!(vals.len(), 6);
    let parsed = parse_all(&vals);
    let expected: Vec<serde_json::Value> = vec![
        serde_json::from_str(r#"{"a":1}"#).unwrap(),
        serde_json::from_str("[2,3]").unwrap(),
        serde_json::from_str(r#""x""#).unwrap(),
        serde_json::from_str("true").unwrap(),
        serde_json::from_str("null").unwrap(),
        serde_json::from_str("1.5e3").unwrap(),
    ];
    assert_eq!(parsed, expected);
}

#[test]
fn one_byte_at_a_time_same_values() {
    let body = br#"{"a":1}[2,3] "x" true null 1.5e3"#;
    let sizes: Vec<usize> = vec![1; body.len()];
    let (vals, bad) = run_split(body, &sizes);
    assert!(!bad);
    let (whole, bad2) = run_split(body, &[body.len()]);
    assert!(!bad2);
    assert_eq!(parse_all(&vals), parse_all(&whole));
}

#[test]
fn two_chunkings_yield_same_sequence() {
    let body = br#"{"k":[true,{"n":-1.25e-2},"\"esc\\"]}{"m":null} 7 "#;
    let (a, bad_a) = run_split(body, &[3, 5, 1, 9]);
    let (b, bad_b) = run_split(body, &[17, 2]);
    assert!(!bad_a);
    assert!(!bad_b);
    assert_eq!(parse_all(&a), parse_all(&b));
}

#[test]
fn no_delimiter_needed_between_values() {
    let body = br#"{"a":1}{"b":2}"#;
    let (vals, bad) = run_split(body, &[body.len()]);
    assert!(!bad);
    assert_eq!(vals.len(), 2);
    assert_eq!(vals[0], br#"{"a":1}"#.to_vec());
    assert_eq!(vals[1], br#"{"b":2}"#.to_vec());
}

#[test]
fn trailing_partial_value_is_error_and_completion_succeeds() {
    // dangling incomplete object: reported bad at end of input
    let body = br#"{"a":1"#;
    let (vals, bad) = run_split(body, &[body.len()]);
    assert!(bad);
    assert_eq!(vals.len(), 0);
    // same bytes followed by the rest of the value: success
    let full = br#"{"a":1}"#;
    let (vals2, bad2) = run_split(full, &[6, 1]);
    assert!(!bad2);
    assert_eq!(vals2.len(), 1);
    assert_eq!(vals2[0], full.to_vec());
}

#[test]
fn trailing_complete_number_is_emitted_at_end() {
    let body = b"42";
    let mut sp = Splitter::new();
    let fr = sp.feed(body);
    assert!(!fr.malformed);
    assert_eq!(fr.values.len(), 0);
    let vs = sp.finish().expect("complete number at end of input");
    assert_eq!(vs.len(), 1);
    assert_eq!(vs[0], b"42".to_vec());
}

#[test]
fn number_split_across_chunks_stays_one_value() {
    let body = b"123 ";
    let (vals, bad) = run_split(body, &[2, 2]);
    assert!(!bad);
    assert_eq!(vals.len(), 1);
    assert_eq!(vals[0], b"123".to_vec());
}

#[test]
fn garbage_is_malformed_immediately() {
    let body = br#"{"a":1} garbage"#;
    let (vals, bad) = run_split(body, &[body.len()]);
    assert!(bad);
    assert_eq!(vals.len(), 1);
    assert_eq!(vals[0], br#"{"a":1}"#.to_vec());
}

#[test]
fn malformed_inside_object_is_rejected() {
    for body in [&br#"{"a":}"#[..], b"{,}", b"[1,]", b"{\"a\" 1}", b"01", b"tru "] {
        let (_, bad) = run_split(body, &[body.len()]);
        assert!(bad, "expected rejection: {:?}", body);
    }
}

#[test]
fn whitespace_between_values_is_skipped() {
    let body = b" \t\r\n true \n false ";
    let (vals, bad) = run_split(body, &[body.len()]);
    assert!(!bad);
    assert_eq!(vals.len(), 2);
    assert_eq!(vals[0], b"true".to_vec());
    assert_eq!(vals[1], b"false".to_vec());
}

#[test]
fn check_payload_accepts_single_values() {
    for body in [
        &br#"{"a":1}"#[..],
        b"true",
        b"null",
        b"3.25",
        b"-0.5e+10",
        br#""s""#,
        b"[1,2,[3]]",
        "{\"u\":\"\u{e9}\"}".as_bytes(),
    ] {
        assert!(check_payload(body), "expected valid: {:?}", body);
    }
}

#[test]
fn check_payload_rejects_non_single_values() {
    for body in [
        &b""[..],
        b" ",
        br#"{"a":}"#,
        br#"{"a":1} "#,
        br#"{"a":1}{"b":2}"#,
        b"01",
        b"tru",
        b"garbage",
        br#"{"a":1"#,
    ] {
        assert!(!check_payload(body), "expected invalid: {:?}", body);
    }
}

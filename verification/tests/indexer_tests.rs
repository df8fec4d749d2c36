use crypto_secretbox::aead::{Aead, KeyInit};
use crypto_secretbox::XSalsa20Poly1305;
use flumeview_sql::boxes::SecretKey;
use flumeview_sql::codec::Value;
use flumeview_sql::indexer::FlumeViewSql;
use flumeview_sql::offset_log::LogEntry;
use flumeview_sql::DecodeError;

fn push_str(out: &mut Vec<u8>, s: &str) {
    out.extend_from_slice(&(s.len() as u32).to_le_bytes());
    out.extend_from_slice(s.as_bytes());
}

fn render(v: &Value) -> Vec<u8> {
    let mut out = Vec::new();
    match v {
        Value::Null => out.push(0),
        Value::Boolean(false) => out.push(1),
        Value::Boolean(true) => out.push(2),
        Value::Number(bits) => {
            out.push(3);
            out.extend_from_slice(&bits.to_le_bytes());
        },
        Value::Str(s) => {
            out.push(4);
            push_str(&mut out, s);
        },
        Value::Sequence(_, elems) => {
            out.push(5);
            out.extend_from_slice(&(elems.len() as u32).to_le_bytes());
            for e in elems {
                out.extend_from_slice(&render(e));
            }
        },
        Value::Mapping(_, entries) => {
            out.push(6);
            out.extend_from_slice(&(entries.len() as u32).to_le_bytes());
            for (k, val) in entries {
                push_str(&mut out, k);
                out.extend_from_slice(&render(val));
            }
        },
        Value::Other => panic!("no wire form for unmodelled host kinds"),
    }
    out
}

fn msg(author: &str, ty: &str, timestamp: f64, content: Option<Value>) -> Vec<u8> {
    let mut entries = vec![
        ("author".to_string(), Value::Str(author.to_string())),
        ("type".to_string(), Value::Str(ty.to_string())),
        ("timestamp".to_string(), Value::Number(timestamp.to_bits())),
    ];
    if let Some(c) = content {
        entries.push(("content".to_string(), c));
    }
    render(&Value::Mapping(entries.len() as u64, entries))
}

fn fresh_view() -> FlumeViewSql {
    FlumeViewSql::new(Vec::new(), String::new())
}

#[test]
fn type_and_author_queries_return_matching_sequences_in_order() {
    let mut view = fresh_view();
    let batch = vec![
        LogEntry { sequence: 1, data: msg("@A", "post", 10.0, None) },
        LogEntry { sequence: 2, data: msg("@A", "vote", 11.0, None) },
        LogEntry { sequence: 3, data: msg("@B", "post", 12.0, None) },
    ];
    view.append_batch(batch).unwrap();
    assert_eq!(view.latest(), 3);
    assert_eq!(view.get_seqs_by_type(&"post".to_string()), vec![1, 3]);
    assert_eq!(view.get_seqs_by_type(&"vote".to_string()), vec![2]);
    assert_eq!(view.get_seqs_by_author(&"@A".to_string()), vec![1, 2]);
    assert_eq!(view.get_seqs_by_author(&"@B".to_string()), vec![3]);
    assert_eq!(view.get_seqs_by_author(&"@C".to_string()), Vec::<u64>::new());
}

#[test]
fn back_links_honour_the_since_bound() {
    let mut view = fresh_view();
    let content = Value::Mapping(
        1,
        vec![("link".to_string(), Value::Str("%X".to_string()))],
    );
    let batch = vec![LogEntry { sequence: 5, data: msg("@A", "post", 100.0, Some(content)) }];
    view.append_batch(batch).unwrap();
    assert_eq!(
        view.back_link_references(&"%X".to_string(), 0.0f64.to_bits()),
        vec![5]
    );
    assert_eq!(
        view.back_link_references(&"%X".to_string(), 150.0f64.to_bits()),
        Vec::<u64>::new()
    );
    assert_eq!(
        view.back_link_references(&"%Y".to_string(), 0.0f64.to_bits()),
        Vec::<u64>::new()
    );
}

#[test]
fn links_are_found_by_recursive_scan() {
    let mut view = fresh_view();
    let content = Value::Sequence(
        2,
        vec![
            Value::Mapping(
                1,
                vec![("deep".to_string(), Value::Str("%A".to_string()))],
            ),
            Value::Str("not a link".to_string()),
        ],
    );
    let batch = vec![LogEntry { sequence: 1, data: msg("@A", "post", 1.0, Some(content)) }];
    view.append_batch(batch).unwrap();
    assert_eq!(
        view.back_link_references(&"%A".to_string(), 0.0f64.to_bits()),
        vec![1]
    );
}

#[test]
fn resubmitting_an_indexed_batch_changes_nothing() {
    let mut view = fresh_view();
    let batch = vec![
        LogEntry { sequence: 1, data: msg("@A", "post", 10.0, None) },
        LogEntry { sequence: 2, data: msg("@B", "post", 11.0, None) },
    ];
    let again = vec![
        LogEntry { sequence: 1, data: msg("@A", "post", 10.0, None) },
        LogEntry { sequence: 2, data: msg("@B", "post", 11.0, None) },
    ];
    view.append_batch(batch).unwrap();
    let latest_before = view.latest();
    let by_type_before = view.get_seqs_by_type(&"post".to_string());
    view.append_batch(again).unwrap();
    assert_eq!(view.latest(), latest_before);
    assert_eq!(view.get_seqs_by_type(&"post".to_string()), by_type_before);
}

#[test]
fn a_failing_entry_aborts_the_whole_batch() {
    let mut view = fresh_view();
    view.append_batch(vec![LogEntry { sequence: 1, data: msg("@A", "post", 1.0, None) }])
        .unwrap();
    let batch = vec![
        LogEntry { sequence: 2, data: msg("@B", "post", 2.0, None) },
        LogEntry { sequence: 3, data: vec![9, 9, 9] },
    ];
    let err = view.append_batch(batch).unwrap_err();
    assert_eq!(err.sequence, 3);
    assert_eq!(err.cause, DecodeError::MalformedPayload);
    assert_eq!(view.latest(), 1);
    assert_eq!(view.get_seqs_by_author(&"@B".to_string()), Vec::<u64>::new());
}

#[test]
fn an_invalid_number_in_an_entry_aborts_with_its_sequence() {
    let mut view = fresh_view();
    let batch = vec![LogEntry {
        sequence: 4,
        data: msg("@A", "post", f64::NAN, None),
    }];
    let err = view.append_batch(batch).unwrap_err();
    assert_eq!(err.sequence, 4);
    assert_eq!(err.cause, DecodeError::InvalidLegacyNumber);
    assert_eq!(view.latest(), 0);
}

#[test]
fn queries_on_an_empty_view_return_empty_results() {
    let view = fresh_view();
    assert_eq!(view.latest(), 0);
    assert_eq!(view.get_seqs_by_type(&"post".to_string()), Vec::<u64>::new());
    assert_eq!(view.get_seqs_by_author(&"@A".to_string()), Vec::<u64>::new());
    assert_eq!(
        view.back_link_references(&"%X".to_string(), 0),
        Vec::<u64>::new()
    );
}

#[test]
fn encrypted_entries_are_decrypted_and_indexed() {
    let key_bytes = vec![7u8; 32];
    let cipher = XSalsa20Poly1305::new_from_slice(&key_bytes).unwrap();
    let nonce = [1u8; 24];
    let plaintext = msg("@A", "private", 1.0, None);
    let ct = cipher.encrypt((&nonce).into(), plaintext.as_slice()).unwrap();
    let mut sealed = nonce.to_vec();
    sealed.extend_from_slice(&ct);

    let keys = vec![SecretKey::new(key_bytes).unwrap()];
    let mut view = FlumeViewSql::new(keys, String::new());
    view.append_batch(vec![LogEntry { sequence: 1, data: sealed.clone() }])
        .unwrap();
    assert_eq!(view.get_seqs_by_type(&"private".to_string()), vec![1]);

    // Without the key the same entry is only ciphertext-shaped bytes and
    // fails to parse, so the batch aborts rather than indexing nonsense.
    let mut keyless = fresh_view();
    let err = keyless
        .append_batch(vec![LogEntry { sequence: 1, data: sealed }])
        .unwrap_err();
    assert_eq!(err.sequence, 1);
}

use flumeview_sql::codec::Value;
use flumeview_sql::payload::parse_payload;
use flumeview_sql::DecodeError;

fn push_str(out: &mut Vec<u8>, s: &str) {
    out.extend_from_slice(&(s.len() as u32).to_le_bytes());
    out.extend_from_slice(s.as_bytes());
}

fn render(v: &Value) -> Vec<u8> {
    let mut out = Vec::new();
    match v {
        Value::Null => out.push(0),
        Value::Boolean(false) => out.push(1),
        Value::Boolean(true) => out.push(2),
        Value::Number(bits) => {
            out.push(3);
            out.extend_from_slice(&bits.to_le_bytes());
        },
        Value::Str(s) => {
            out.push(4);
            push_str(&mut out, s);
        },
        Value::Sequence(_, elems) => {
            out.push(5);
            out.extend_from_slice(&(elems.len() as u32).to_le_bytes());
            for e in elems {
                out.extend_from_slice(&render(e));
            }
        },
        Value::Mapping(_, entries) => {
            out.push(6);
            out.extend_from_slice(&(entries.len() as u32).to_le_bytes());
            for (k, val) in entries {
                push_str(&mut out, k);
                out.extend_from_slice(&render(val));
            }
        },
        Value::Other => panic!("no wire form for unmodelled host kinds"),
    }
    out
}

#[test]
fn parses_a_nested_value_back() {
    let v = Value::Mapping(
        2,
        vec![
            (
                "items".to_string(),
                Value::Sequence(
                    3,
                    vec![
                        Value::Number(2.5f64.to_bits()),
                        Value::Str("héllo".to_string()),
                        Value::Null,
                    ],
                ),
            ),
            ("ok".to_string(), Value::Boolean(true)),
        ],
    );
    let bytes = render(&v);
    assert_eq!(parse_payload(&bytes).unwrap(), v);
}

#[test]
fn unknown_tag_is_malformed() {
    assert_eq!(parse_payload(&vec![9]), Err(DecodeError::MalformedPayload));
}

#[test]
fn empty_payload_is_malformed() {
    assert_eq!(parse_payload(&Vec::new()), Err(DecodeError::MalformedPayload));
}

#[test]
fn trailing_bytes_are_malformed() {
    let mut bytes = render(&Value::Null);
    bytes.push(0);
    assert_eq!(parse_payload(&bytes), Err(DecodeError::MalformedPayload));
}

#[test]
fn truncated_string_is_malformed() {
    let mut bytes = render(&Value::Str("hello".to_string()));
    bytes.pop();
    assert_eq!(parse_payload(&bytes), Err(DecodeError::MalformedPayload));
}

#[test]
fn invalid_utf8_in_string_is_malformed() {
    let mut bytes = vec![4];
    bytes.extend_from_slice(&2u32.to_le_bytes());
    bytes.extend_from_slice(&[0xff, 0xfe]);
    assert_eq!(parse_payload(&bytes), Err(DecodeError::MalformedPayload));
}

#[test]
fn sequence_claiming_more_elements_than_present_is_malformed() {
    let mut bytes = vec![5];
    bytes.extend_from_slice(&3u32.to_le_bytes());
    bytes.push(0);
    assert_eq!(parse_payload(&bytes), Err(DecodeError::MalformedPayload));
}

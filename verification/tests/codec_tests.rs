use flumeview_sql::codec::{decode_value, encode_value, number_is_legacy, LegacyValue, Value};
use flumeview_sql::DecodeError;

#[test]
fn rejects_nan_and_infinities_and_negative_zero() {
    for bad in [f64::NAN, f64::INFINITY, f64::NEG_INFINITY, -0.0f64] {
        let v = Value::Number(bad.to_bits());
        assert_eq!(decode_value(&v), Err(DecodeError::InvalidLegacyNumber));
    }
}

#[test]
fn accepts_and_roundtrips_finite_doubles_bit_for_bit() {
    for good in [0.0f64, 1.5, -1.1, 1.0e300, 5.0e-324, 100.0] {
        let bits = good.to_bits();
        let decoded = decode_value(&Value::Number(bits)).unwrap();
        assert_eq!(decoded, LegacyValue::Number(bits));
        match encode_value(&decoded) {
            Value::Number(back) => assert_eq!(back, bits),
            other => panic!("number re-encoded as {:?}", other),
        }
    }
}

#[test]
fn number_predicate_agrees_with_legacy_f64() {
    let samples = [
        0.0f64,
        -0.0,
        1.5,
        -2.25,
        f64::NAN,
        f64::INFINITY,
        f64::NEG_INFINITY,
        f64::MAX,
        f64::MIN,
        5.0e-324,
    ];
    for f in samples {
        let ours = number_is_legacy(f.to_bits());
        let theirs = ssb_legacy_msg_data::LegacyF64::from_f64(f).is_some();
        assert_eq!(ours, theirs, "disagreement on {:?}", f);
    }
}

#[test]
fn huge_claimed_length_decodes_to_actual_elements() {
    let v = Value::Sequence(
        1_000_000,
        vec![Value::Null, Value::Boolean(true), Value::Number(1.5f64.to_bits())],
    );
    match decode_value(&v).unwrap() {
        LegacyValue::Sequence(elems) => assert_eq!(elems.len(), 3),
        other => panic!("decoded as {:?}", other),
    }
}

#[test]
fn duplicate_mapping_key_is_rejected() {
    let v = Value::Mapping(
        2,
        vec![
            ("a".to_string(), Value::Null),
            ("a".to_string(), Value::Boolean(false)),
        ],
    );
    assert_eq!(decode_value(&v), Err(DecodeError::DuplicateKey));
}

#[test]
fn oversized_sequence_hits_allocation_cap() {
    let mut elems = Vec::new();
    for _ in 0..2049 {
        elems.push(Value::Null);
    }
    let v = Value::Sequence(2049, elems);
    assert_eq!(decode_value(&v), Err(DecodeError::AllocationCapExceeded));
}

#[test]
fn sequence_at_cap_still_decodes() {
    let mut elems = Vec::new();
    for _ in 0..2048 {
        elems.push(Value::Null);
    }
    let v = Value::Sequence(2048, elems);
    match decode_value(&v).unwrap() {
        LegacyValue::Sequence(out) => assert_eq!(out.len(), 2048),
        other => panic!("decoded as {:?}", other),
    }
}

#[test]
fn unmodelled_host_kind_decodes_as_null() {
    assert_eq!(decode_value(&Value::Other), Ok(LegacyValue::Null));
}

#[test]
fn mapping_roundtrip_preserves_entry_order() {
    let v = Value::Mapping(
        2,
        vec![
            ("zebra".to_string(), Value::Str("z".to_string())),
            ("apple".to_string(), Value::Boolean(true)),
        ],
    );
    let decoded = decode_value(&v).unwrap();
    match encode_value(&decoded) {
        Value::Mapping(len, entries) => {
            assert_eq!(len, 2);
            assert_eq!(entries[0].0, "zebra");
            assert_eq!(entries[1].0, "apple");
        },
        other => panic!("re-encoded as {:?}", other),
    }
}

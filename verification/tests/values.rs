use issundb_core::value::{
    decode_property_value, encode_property_value, PropValue, MAX_INDEXED_STRING_LEN,
};

fn text(s: &str) -> PropValue {
    PropValue::Str(s.to_string())
}

#[test]
fn over_long_strings_are_not_indexed() {
    let at_limit = text(&"a".repeat(MAX_INDEXED_STRING_LEN));
    let encoded = encode_property_value(&at_limit).expect("at-limit string indexes");
    assert_eq!(decode_property_value(&encoded), Some(at_limit));

    let too_long = text(&"a".repeat(MAX_INDEXED_STRING_LEN + 1));
    assert_eq!(
        encode_property_value(&too_long),
        None,
        "a string over the bound must not be indexed",
    );
}

#[test]
fn large_integers_do_not_collide() {
    let a = encode_property_value(&PropValue::Int(9_007_199_254_740_992)).unwrap();
    let b = encode_property_value(&PropValue::Int(9_007_199_254_740_993)).unwrap();
    assert_ne!(a, b, "distinct large integers must encode distinctly");
}

#[test]
fn integer_and_equal_float_unify() {
    assert_eq!(
        encode_property_value(&PropValue::Int(30)).unwrap(),
        encode_property_value(&PropValue::Float((30.0f64).to_bits())).unwrap(),
    );
    assert_eq!(
        encode_property_value(&PropValue::Int(0)).unwrap(),
        encode_property_value(&PropValue::Float((0.0f64).to_bits())).unwrap(),
    );
}

#[test]
fn numeric_encoding_is_fixed_length() {
    for v in [
        PropValue::Int(1),
        PropValue::Int(-1),
        PropValue::Int(0),
        PropValue::Int(i64::MAX),
        PropValue::Int(i64::MIN),
        PropValue::Float((3.5f64).to_bits()),
        PropValue::Float((-2.5e10f64).to_bits()),
    ] {
        assert_eq!(encode_property_value(&v).unwrap().len(), 17, "value {v:?}");
    }
}

#[test]
fn numeric_ordering_preserved() {
    let ascending: Vec<i64> = vec![
        i64::MIN,
        -1_000,
        -1,
        0,
        1,
        1_000,
        1 << 53,
        (1 << 53) + 1,
        i64::MAX,
    ];
    let encoded: Vec<Vec<u8>> =
        ascending.iter().map(|v| encode_property_value(&PropValue::Int(*v)).unwrap()).collect();
    let mut sorted = encoded.clone();
    sorted.sort();
    assert_eq!(encoded, sorted, "encodings must sort in numeric order");
}

#[test]
fn decode_round_trips_large_integer() {
    for v in [0, -1, 9_007_199_254_740_993_i64, i64::MAX] {
        let enc = encode_property_value(&PropValue::Int(v)).unwrap();
        assert_eq!(decode_property_value(&enc), Some(PropValue::Int(v)), "value {v}");
    }
}

#[test]
fn the_two_zeros_and_the_integer_zero_have_one_key() {
    let zero = encode_property_value(&PropValue::Int(0)).unwrap();
    assert_eq!(encode_property_value(&PropValue::Float((0.0f64).to_bits())).unwrap(), zero);
    assert_eq!(encode_property_value(&PropValue::Float((-0.0f64).to_bits())).unwrap(), zero);
    assert_eq!(decode_property_value(&zero), Some(PropValue::Int(0)));
    assert_eq!(encode_property_value(&PropValue::UInt(0)).unwrap(), zero);
    assert_eq!(
        encode_property_value(&PropValue::UInt(u64::MAX)).unwrap(),
        encode_property_value(&PropValue::Float((18446744073709551615.0f64).to_bits())).unwrap(),
    );
    let mut bytes = vec![3u8, 0x80, 0, 0, 0, 0, 0, 0, 0];
    bytes.extend_from_slice(&[0x80, 0, 0, 0, 0, 0, 0, 0]);
    assert_eq!(zero, bytes);
}

#[test]
fn floats_sort_by_their_keys() {
    let ascending = [
        f64::MIN, -2.5, -1.0, -f64::MIN_POSITIVE, -0.0, f64::MIN_POSITIVE, 0.5, 1.0, 1.5, f64::MAX,
    ];
    let keys: Vec<Vec<u8>> = ascending
        .iter()
        .map(|x| encode_property_value(&PropValue::Float(x.to_bits())).unwrap())
        .collect();
    for pair in keys.windows(2) {
        assert!(pair[0] < pair[1]);
    }
}

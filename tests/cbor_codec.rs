use miniserde_ditto::cbor::de::{from_slice, major_and_tag, parse_known_len_byte_seq, parse_u64, MAX_DEPTH};
use miniserde_ditto::cbor::drop::safely;
use miniserde_ditto::cbor::number::i65;
use miniserde_ditto::cbor::object::sort_canonical;
use miniserde_ditto::cbor::ser::to_vec;
use miniserde_ditto::cbor::value::{Array, Object, Value};
use miniserde_ditto::ErrorKind;

fn enc(v: &Value) -> Vec<u8> {
    to_vec(v).unwrap()
}

fn ints(xs: &[i128]) -> Value {
    let mut a = Array::new();
    for &x in xs {
        a.push(Value::Integer(x));
    }
    Value::Array(a)
}

fn text(s: &str) -> Value {
    Value::Text(s.to_owned())
}

fn float(f: f64) -> Value {
    Value::Float(f.to_bits())
}

fn assert_sorted_as_given(make: &dyn Fn() -> Vec<Value>) {
    let expected = make();
    let mut sorted = make();
    sort_canonical(&mut sorted);
    let a: Vec<Vec<u8>> = expected.iter().map(enc).collect();
    let b: Vec<Vec<u8>> = sorted.iter().map(enc).collect();
    assert_eq!(a, b);
}

#[test]
fn test_str() {
    assert_eq!(enc(&text("foobar")), b"ffoobar");
}

#[test]
fn test_string() {
    let value = "foobar".to_owned();
    assert_eq!(enc(&Value::Text(value)), b"ffoobar");
}

#[test]
fn ser_test_list() {
    assert_eq!(enc(&ints(&[1, 2, 3])), b"\x83\x01\x02\x03");
}

#[test]
fn test_list_strings() {
    let mut a = Array::new();
    a.push(text("1"));
    a.push(text("2"));
    a.push(text("3"));
    assert_eq!(enc(&Value::Array(a)), b"\x83\x611\x612\x613");
}

#[test]
fn ser_test_float() {
    assert_eq!(enc(&float(12.3f64)), b"\xfb@(\x99\x99\x99\x99\x99\x9a");
}

#[test]
fn test_f32() {
    assert_eq!(enc(&float(4000.5f32 as f64)), b"\xfa\x45\x7a\x08\x00");
}

#[test]
fn test_infinity() {
    assert_eq!(enc(&float(f64::INFINITY)), b"\xf9|\x00");
}

#[test]
fn test_neg_infinity() {
    assert_eq!(enc(&float(f64::NEG_INFINITY)), b"\xf9\xfc\x00");
}

#[test]
fn test_nan() {
    assert_eq!(enc(&float(f32::NAN as f64)), b"\xf9\x7e\x00");
}

#[test]
fn ser_test_integer() {
    assert_eq!(enc(&Value::Integer(24)), b"\x18\x18");
    assert_eq!(enc(&Value::Integer(-5)), b"\x24");
    assert_eq!(enc(&Value::Integer(-300)), b"\x39\x01\x2b");
    assert_eq!(enc(&Value::Integer(-23567997)), b"\x3a\x01\x67\x9e\x7c");
    assert_eq!(enc(&Value::Integer(u64::MAX as i128)), b"\x1b\xff\xff\xff\xff\xff\xff\xff\xff");
}

#[test]
fn test_byte_string() {
    let short = vec![0_u8, 1, 2, 255];
    assert_eq!(enc(&Value::Bytes(short)), [0x44, 0, 1, 2, 255]);

    let medium = vec![
        0u8, 1, 2, 3, 4, 5, 6, 7, 8, 9, 10, 11, 12, 13, 14, 15, 16, 17, 18, 19, 20, 21, 22, 255,
    ];
    assert_eq!(
        enc(&Value::Bytes(medium)),
        [
            0x58, 24, 0, 1, 2, 3, 4, 5, 6, 7, 8, 9, 10, 11, 12, 13, 14, 15, 16, 17, 18, 19, 20,
            21, 22, 255
        ]
    );

    let long_vec = (0..256).map(|i| (i & 0xFF) as u8).collect::<Vec<_>>();
    let long_s = enc(&Value::Bytes(long_vec.clone()));
    assert_eq!(&long_s[0..3], [0x59, 1, 0]);
    assert_eq!(&long_s[3..], &long_vec[..]);

    let very_long_vec = (0..65536).map(|i| (i & 0xFF) as u8).collect::<Vec<_>>();
    let very_long_s = enc(&Value::Bytes(very_long_vec.clone()));
    assert_eq!(&very_long_s[0..5], [0x5a, 0, 1, 0, 0]);
    assert_eq!(&very_long_s[5..], &very_long_vec[..]);
}

#[test]
fn test_half() {
    let vec = enc(&float(42.5f32 as f64));
    assert_eq!(vec, b"\xF9\x51\x50");
    match from_slice(&vec).unwrap() {
        Value::Float(bits) => assert_eq!(f64::from_bits(bits), 42.5f64),
        other => panic!("not a float: {:?}", other),
    }
}

#[test]
fn test_object() {
    let mut object = Object::new();
    for (k, v) in [("a", "A"), ("b", "B"), ("c", "C"), ("d", "D"), ("e", "E")] {
        object.insert(text(k), text(v));
    }
    let value = Value::Object(object);
    let bytes = enc(&value);
    let back = from_slice(&bytes).unwrap();
    assert_eq!(enc(&back), bytes);
    match back {
        Value::Object(o) => {
            assert_eq!(o.len(), 5);
            match o.get(&text("c")) {
                Some(Value::Text(t)) => assert_eq!(t, "C"),
                other => panic!("unexpected: {:?}", other),
            }
        }
        other => panic!("not a map: {:?}", other),
    }
}

#[test]
fn test_object_list_keys() {
    let mut object = Object::new();
    for key in [&[0i128][..], &[100], &[-1], &[-2], &[0, 0], &[0, -1]] {
        object.insert(ints(key), Value::Null);
    }
    let vec = enc(&Value::Object(object));
    assert_eq!(
        vec![
            166, 129, 0, 246, 129, 24, 100, 246, 129, 32, 246, 129, 33, 246, 130, 0, 0, 246, 130,
            0, 32, 246
        ],
        vec
    );
    let test_object = from_slice(&vec[..]).unwrap();
    assert_eq!(enc(&test_object), vec);
}

#[test]
fn test_object_object_keys() {
    let keys: Vec<Vec<&str>> = vec![vec!["a"], vec!["b"], vec!["c"], vec!["d"], vec!["aa"], vec!["a", "aa"]];
    let mut object = Object::new();
    for key in keys {
        let mut inner = Object::new();
        for s in key {
            inner.insert(text(s), Value::Null);
        }
        object.insert(Value::Object(inner), Value::Null);
    }
    let vec = enc(&Value::Object(object));
    assert_eq!(
        vec![
            166, 161, 97, 97, 246, 246, 161, 97, 98, 246, 246, 161, 97, 99, 246, 246, 161, 97, 100,
            246, 246, 161, 98, 97, 97, 246, 246, 162, 97, 97, 246, 98, 97, 97, 246, 246
        ],
        vec
    );
    let test_object = from_slice(&vec[..]).unwrap();
    assert_eq!(enc(&test_object), vec);
}

#[test]
fn integer_canonical_sort_order() {
    assert_sorted_as_given(&|| {
        [
            0, 23, 24, 255, 256, 65535, 65536, 4294967295, -1, -24, -25, -256, -257, -65536, -65537,
            -4294967296,
        ]
        .iter()
        .map(|&i| Value::Integer(i))
        .collect()
    });
}

#[test]
fn string_canonical_sort_order() {
    assert_sorted_as_given(&|| ["", "a", "b", "aa"].iter().map(|s| text(s)).collect());
}

#[test]
fn bytes_canonical_sort_order() {
    assert_sorted_as_given(&|| {
        vec![vec![], vec![0u8], vec![1u8], vec![0u8, 0u8]].into_iter().map(Value::Bytes).collect()
    });
}

#[test]
fn simple_data_canonical_sort_order() {
    assert_sorted_as_given(&|| vec![Value::Bool(false), Value::Bool(true), Value::Null]);
}

#[test]
fn major_type_canonical_sort_order() {
    assert_sorted_as_given(&|| {
        vec![
            Value::Integer(0),
            Value::Integer(-1),
            Value::Bytes(vec![]),
            text(""),
            Value::Null,
        ]
    });
}

#[test]
fn test_rfc_example() {
    assert_sorted_as_given(&|| {
        vec![
            Value::Integer(10),
            Value::Integer(100),
            Value::Integer(-1),
            text("z"),
            text("aa"),
            ints(&[100]),
            ints(&[-1]),
            Value::Bool(false),
        ]
    });
}

#[test]
fn integer_helper_conversions() {
    assert_eq!(i65::min().to_i128(), -(1i128 << 64));
    assert_eq!(i65::max().to_i128(), u64::MAX as i128);
    assert_eq!(i65::from_i64(i64::MIN).to_i128(), i64::MIN as i128);
    assert_eq!(i65::from_u64(5).to_i128(), 5);
    assert!(i65::try_from_i128(1i128 << 64).is_none());
    assert!(i65::try_from_i128(-(1i128 << 64) - 1).is_none());
    assert_eq!(i65::try_from_i128(-(1i128 << 64)).unwrap(), i65::min());
    assert_eq!(i65::try_from_i128(-3).unwrap(), i65 { negative: true, abs: 3 });
}

#[test]
fn out_of_range_integers_and_tags_are_refused() {
    assert_eq!(to_vec(&Value::Integer(1i128 << 64)).unwrap_err().kind, ErrorKind::Unrepresentable);
    assert_eq!(to_vec(&Value::Integer(-(1i128 << 64) - 1)).unwrap_err().kind, ErrorKind::Unrepresentable);
    assert_eq!(enc(&Value::Integer(-(1i128 << 64))), b"\x3b\xff\xff\xff\xff\xff\xff\xff\xff");
    let tagged = Value::Tag(1, Box::new(Value::Null));
    assert_eq!(to_vec(&tagged).unwrap_err().kind, ErrorKind::Unrepresentable);
    assert_eq!(from_slice(b"\xc1\x00").unwrap_err().kind, ErrorKind::Unrepresentable);
}

#[test]
fn decode_errors() {
    assert_eq!(from_slice(b"").unwrap_err().kind, ErrorKind::Malformed);
    assert_eq!(from_slice(b"\x19\x01").unwrap_err().kind, ErrorKind::Malformed);
    assert_eq!(from_slice(b"\x01\x02").unwrap_err().kind, ErrorKind::TrailingData);
    assert_eq!(from_slice(b"\x62\xff\xfe").unwrap_err().kind, ErrorKind::Malformed);
    assert_eq!(from_slice(b"\xff").unwrap_err().kind, ErrorKind::Malformed);
    assert_eq!(from_slice(b"\x9f\x01").unwrap_err().kind, ErrorKind::Malformed);
}

#[test]
fn depth_ceiling_on_binary_input() {
    let opens = vec![0x9fu8; MAX_DEPTH + 1];
    assert_eq!(from_slice(&opens).unwrap_err().kind, ErrorKind::DepthExceeded);
    let mut nested = vec![0x81u8; MAX_DEPTH - 1];
    nested.push(0x00);
    assert!(from_slice(&nested).is_ok());
}

#[test]
fn indefinite_lengths_decode() {
    // [_ 1, [2]] and (_ "ab" "c") and {_ "a": 1}
    let v = from_slice(b"\x9f\x01\x81\x02\xff").unwrap();
    assert_eq!(enc(&v), b"\x82\x01\x81\x02");
    let t = from_slice(b"\x7f\x62ab\x61c\xff").unwrap();
    assert_eq!(enc(&t), b"\x63abc");
    let m = from_slice(b"\xbf\x61a\x01\xff").unwrap();
    assert_eq!(enc(&m), b"\xa1\x61a\x01");
}

#[test]
fn floats_decode_to_doubles() {
    for f in [0.0f64, -0.0, 1.0, 1.5, 65504.0, 5.960464477539063e-8, 1e-40, 3.4028234663852886e38, 12.3, f64::MAX, f64::MIN_POSITIVE] {
        let bytes = enc(&float(f));
        match from_slice(&bytes).unwrap() {
            Value::Float(bits) => assert_eq!(bits, f.to_bits(), "{}", f),
            other => panic!("{:?}", other),
        }
    }
    assert_eq!(enc(&float(1.0)), b"\xf9\x3c\x00");
    assert_eq!(enc(&float(5.960464477539063e-8)), b"\xf9\x00\x01");
    match from_slice(b"\xf9\x7e\x00").unwrap() {
        Value::Float(bits) => assert!(f64::from_bits(bits).is_nan()),
        other => panic!("{:?}", other),
    }
}

#[test]
fn header_helpers() {
    assert_eq!(major_and_tag(0x9f), (4, 31));
    assert_eq!(parse_u64(0x19, &[0x01, 0x2c], 0), Some((300, 2)));
    assert_eq!(parse_u64(0x1c, &[], 0), None);
    assert_eq!(parse_known_len_byte_seq(2, &[7, 8, 9], 0), Some((vec![7, 8], 2)));
    assert_eq!(parse_known_len_byte_seq(4, &[7, 8, 9], 0), None);
}

#[test]
fn round_trip_is_stable() {
    let mut inner = Object::new();
    inner.insert(Value::Integer(-7), Value::Bytes(vec![1, 2]));
    inner.insert(text("k"), float(0.5));
    let mut a = Array::new();
    a.push(Value::Object(inner));
    a.push(Value::Bool(true));
    a.push(Value::Integer(u64::MAX as i128));
    let v = Value::Array(a);
    let once = enc(&v);
    let again = enc(&from_slice(&once).unwrap());
    assert_eq!(once, again);
}

#[test]
fn deep_values_encode_and_drop_iteratively() {
    let mut value = Value::Null;
    for _ in 0..100_000 {
        let mut a = Array::new();
        a.push(value);
        value = Value::Array(a);
    }
    let bytes = enc(&value);
    assert_eq!(bytes.len(), 100_001);
    assert_eq!(from_slice(&bytes).unwrap_err().kind, ErrorKind::DepthExceeded);
    safely(value);
}

use runtime_core::object::class::Class;
use runtime_core::object::str::value_text;
use runtime_core::object::str::Str;
use runtime_core::object::str::TextError;
use runtime_core::object::Object;
use runtime_core::value::value_eq;
use runtime_core::value::value_hash;
use runtime_core::value::HashError;
use runtime_core::value::Value;

#[test]
fn round_trip() {
    for sample in [
        &b""[..],
        &b"hello"[..],
        &b"a 14-byte text"[..],
        &b"a text that needs the shared mid tier"[..],
        &b"a much longer text that certainly cannot fit the mid tier buffer either"[..],
    ] {
        let text = Str::from(sample);
        assert_eq!(text.as_bytes(), sample);
    }
}

#[test]
fn tier_selection_deterministic() {
    let first = Str::from(b"same bytes in, same tier out");
    let second = Str::from(b"same bytes in, same tier out");
    assert!(first.eq(&second));
    assert!(matches!(Str::from(&[7u8; 14][..]), Str::ShortStr(_)));
    assert!(matches!(Str::from(&[7u8; 15][..]), Str::MidStr(_)));
    assert!(matches!(Str::from(&[7u8; 48][..]), Str::MidStr(_)));
    assert!(matches!(Str::from(&[7u8; 49][..]), Str::LongStr(_)));
}

#[test]
fn cross_tier_inequality() {
    let bytes = b"ten bytes!";
    let natural = Str::from(&bytes[..]);
    let forced_long = Str::LongStr(bytes.to_vec());
    assert_eq!(natural.as_bytes(), forced_long.as_bytes());
    assert!(!natural.eq(&forced_long));
    assert!(!forced_long.eq(&natural));
}

#[test]
fn concat_reencodes() {
    let left = Str::from(b"foo");
    let right = Str::from(b"bar");
    let sum = left.add(&right).unwrap();
    assert_eq!(sum.as_bytes(), b"foobar");
    assert!(matches!(sum, Str::ShortStr(_)));
    let wide = Str::from(&[b'x'; 30][..]);
    let sum2 = wide.add(&wide).unwrap();
    assert_eq!(sum2.as_bytes().len(), 60);
    assert!(matches!(sum2, Str::LongStr(_)));
}

#[test]
fn concat_rejects_invalid_utf8() {
    let good = Str::from(b"ok");
    let bad = Str::from(&[0xff, 0xfe][..]);
    assert_eq!(good.add(&bad).unwrap_err(), TextError::NotUtf8);
    assert_eq!(bad.add(&good).unwrap_err(), TextError::NotUtf8);
    let multi = Str::from("héllo 🎉".as_bytes());
    assert!(multi.add(&good).is_ok());
    let overlong = Str::from(&[0xc0, 0x80][..]);
    assert!(overlong.add(&good).is_err());
    let surrogate = Str::from(&[0xed, 0xa0, 0x80][..]);
    assert!(surrogate.add(&good).is_err());
}

#[test]
fn hash_nil_and_nan_fail() {
    assert_eq!(value_hash(&Value::Nil).unwrap_err(), HashError::NilKey);
    let nan = Value::Float(f64::NAN.to_bits());
    assert_eq!(value_hash(&nan).unwrap_err(), HashError::NanKey);
}

#[test]
fn equal_values_hash_equal() {
    let a = Value::Integer(42);
    let b = Value::Integer(42);
    assert!(value_eq(&a, &b));
    assert_eq!(value_hash(&a).unwrap(), value_hash(&b).unwrap());
    let t1 = Value::Object(Object::String(Str::from(b"same")));
    let t2 = Value::Object(Object::String(Str::from(b"same")));
    assert!(value_eq(&t1, &t2));
    assert_eq!(value_hash(&t1).unwrap(), value_hash(&t2).unwrap());
    // the hash reads the decoded bytes, so it ignores the tier even though
    // equality does not
    let forced = Value::Object(Object::String(Str::LongStr(b"same".to_vec())));
    assert!(!value_eq(&t1, &forced));
    assert_eq!(value_hash(&t1).unwrap(), value_hash(&forced).unwrap());
    // the two zero floats compare equal and must hash equally
    let pos = Value::Float(0.0f64.to_bits());
    let neg = Value::Float((-0.0f64).to_bits());
    assert!(value_eq(&pos, &neg));
    assert_eq!(value_hash(&pos).unwrap(), value_hash(&neg).unwrap());
}

#[test]
fn equal_classes_with_zero_keys_hash_equal() {
    let mut pos_keyed = Class::new();
    pos_keyed.insert(Value::Float(0.0f64.to_bits()), Value::Nil).unwrap();
    let mut neg_keyed = Class::new();
    neg_keyed.insert(Value::Float((-0.0f64).to_bits()), Value::Nil).unwrap();
    let v1 = Value::Object(Object::Class(pos_keyed));
    let v2 = Value::Object(Object::Class(neg_keyed));
    assert!(value_eq(&v1, &v2));
    assert_eq!(value_hash(&v1).unwrap(), value_hash(&v2).unwrap());
}

#[test]
fn float_equality_follows_ieee() {
    let nan = Value::Float(f64::NAN.to_bits());
    assert!(!value_eq(&nan, &nan));
    let pos = Value::Float(0.0f64.to_bits());
    let neg = Value::Float((-0.0f64).to_bits());
    assert!(value_eq(&pos, &neg));
    let one = Value::Float(1.0f64.to_bits());
    assert!(value_eq(&one, &one));
    assert!(!value_eq(&one, &pos));
}

#[test]
fn class_insert_lookup() {
    let mut class = Class::new();
    class.insert(Value::Integer(1), Value::Integer(10)).unwrap();
    class.insert(Value::Boolean(true), Value::Nil).unwrap();
    // last write wins on a duplicate key
    class.insert(Value::Integer(1), Value::Integer(99)).unwrap();
    assert_eq!(class.len(), 2);
    assert!(value_eq(class.get(&Value::Integer(1)).unwrap(), &Value::Integer(99)));
    assert!(value_eq(class.get(&Value::Boolean(true)).unwrap(), &Value::Nil));
    assert!(class.get(&Value::Integer(2)).is_none());
}

#[test]
fn class_rejects_unhashable_keys() {
    let mut class = Class::new();
    assert_eq!(class.insert(Value::Nil, Value::Integer(1)).unwrap_err(), HashError::NilKey);
    let nan = Value::Float(f64::NAN.to_bits());
    assert_eq!(class.insert(nan, Value::Integer(1)).unwrap_err(), HashError::NanKey);
    assert_eq!(class.len(), 0);
}

#[test]
fn class_equality_ignores_order() {
    let mut first = Class::new();
    first.insert(Value::Integer(1), Value::Integer(10)).unwrap();
    first.insert(Value::Integer(2), Value::Integer(20)).unwrap();
    let mut second = Class::new();
    second.insert(Value::Integer(2), Value::Integer(20)).unwrap();
    second.insert(Value::Integer(1), Value::Integer(10)).unwrap();
    let v1 = Value::Object(Object::Class(first));
    let v2 = Value::Object(Object::Class(second));
    assert!(value_eq(&v1, &v2));
    assert_eq!(value_hash(&v1).unwrap(), value_hash(&v2).unwrap());
    let mut third = Class::new();
    third.insert(Value::Integer(1), Value::Integer(10)).unwrap();
    third.insert(Value::Integer(2), Value::Integer(21)).unwrap();
    let v3 = Value::Object(Object::Class(third));
    assert!(!value_eq(&v1, &v3));
}

#[test]
fn textual_projection() {
    assert_eq!(value_text(&Value::Nil).unwrap(), b"nil");
    assert_eq!(value_text(&Value::Boolean(true)).unwrap(), b"true");
    assert_eq!(value_text(&Value::Boolean(false)).unwrap(), b"false");
    assert_eq!(value_text(&Value::Integer(42)).unwrap(), b"42");
    assert_eq!(value_text(&Value::Integer(-7)).unwrap(), b"-7");
    assert_eq!(value_text(&Value::Integer(0)).unwrap(), b"0");
    assert_eq!(
        value_text(&Value::Integer(i64::MIN)).unwrap(),
        b"-9223372036854775808"
    );
    let text = Value::Object(Object::String(Str::from(b"payload")));
    assert_eq!(value_text(&text).unwrap(), b"payload");
    let mut class = Class::new();
    class.insert(Value::Integer(1), Value::Nil).unwrap();
    let dump = value_text(&Value::Object(Object::Class(class))).unwrap();
    assert_eq!(dump, b"class(1)");
}

#[test]
fn textual_projection_failures() {
    let float = Value::Float(1.5f64.to_bits());
    assert_eq!(value_text(&float).unwrap_err(), TextError::Float);
    let bad = Value::Object(Object::String(Str::from(&[0x80, 0x80][..])));
    assert_eq!(value_text(&bad).unwrap_err(), TextError::NotUtf8);
}

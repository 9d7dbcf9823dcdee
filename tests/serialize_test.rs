use superjson_rs::serialize::serialize;
use superjson_rs::{AnnotationValues, BigInt, Date, Json, TypeAnnotation, Value};

fn num(x: f64) -> Value {
    Value::Number(x.to_bits())
}

fn jnum(x: f64) -> Json {
    Json::Number(x.to_bits())
}

fn jstr(s: &str) -> Json {
    Json::String(s.to_string())
}

fn leaf(name: &str) -> TypeAnnotation {
    TypeAnnotation::Leaf(name.to_string())
}

fn epoch() -> Date {
    Date::from_timestamp_millis(0).unwrap()
}

fn values_of(v: &Value) -> AnnotationValues {
    serialize(v).unwrap().meta.unwrap().values.unwrap()
}

#[test]
fn test_serialize_null() {
    let result = serialize(&Value::Null).unwrap();
    assert_eq!(result.json, Json::Null);
    assert!(result.meta.is_none());
}

#[test]
fn test_serialize_bool() {
    let result = serialize(&Value::Bool(true)).unwrap();
    assert_eq!(result.json, Json::Bool(true));
    assert!(result.meta.is_none());
}

#[test]
fn test_serialize_number() {
    let result = serialize(&num(42.0)).unwrap();
    assert_eq!(result.json, jnum(42.0));
    assert!(result.meta.is_none());
}

#[test]
fn test_serialize_string() {
    let result = serialize(&Value::String("hello".into())).unwrap();
    assert_eq!(result.json, jstr("hello"));
    assert!(result.meta.is_none());
}

#[test]
fn test_serialize_date() {
    let result = serialize(&Value::Date(epoch())).unwrap();
    assert_eq!(result.json, jstr("1970-01-01T00:00:00.000Z"));
    let meta = result.meta.unwrap();
    assert_eq!(meta.v, Some(1));
    assert_eq!(meta.values.unwrap(), AnnotationValues::Root(leaf("Date")));
}

#[test]
fn test_serialize_bigint() {
    let result = serialize(&Value::BigInt(BigInt::from_i64(42))).unwrap();
    assert_eq!(result.json, jstr("42"));
    assert_eq!(result.meta.unwrap().values.unwrap(), AnnotationValues::Root(leaf("bigint")));
}

#[test]
fn test_serialize_undefined() {
    let result = serialize(&Value::Undefined).unwrap();
    assert_eq!(result.json, Json::Null);
    assert_eq!(result.meta.unwrap().values.unwrap(), AnnotationValues::Root(leaf("undefined")));
}

#[test]
fn test_serialize_set_simple() {
    let result = serialize(&Value::JsSet(vec![num(1.0), num(2.0)])).unwrap();
    assert_eq!(result.json, Json::Array(vec![jnum(1.0), jnum(2.0)]));
    assert_eq!(result.meta.unwrap().values.unwrap(), AnnotationValues::Root(leaf("set")));
}

#[test]
fn test_serialize_set_with_extended_children() {
    let result = serialize(&Value::JsSet(vec![num(1.0), Value::Undefined, num(2.0)])).unwrap();
    assert_eq!(result.json, Json::Array(vec![jnum(1.0), Json::Null, jnum(2.0)]));
    let expected_inner = vec![("1".to_string(), leaf("undefined"))];
    assert_eq!(
        result.meta.unwrap().values.unwrap(),
        AnnotationValues::Root(TypeAnnotation::Node("set".into(), expected_inner))
    );
}

#[test]
fn test_serialize_map() {
    let result = serialize(&Value::JsMap(vec![(Value::String("key".into()), num(1.0))])).unwrap();
    assert_eq!(result.json, Json::Array(vec![Json::Array(vec![jstr("key"), jnum(1.0)])]));
    assert_eq!(result.meta.unwrap().values.unwrap(), AnnotationValues::Root(leaf("map")));
}

#[test]
fn test_serialize_map_with_nan_key() {
    let result = serialize(&Value::JsMap(vec![(Value::NaN, Value::Null)])).unwrap();
    assert_eq!(result.json, Json::Array(vec![Json::Array(vec![jstr("NaN"), Json::Null])]));
    let expected_inner = vec![("0.0".to_string(), leaf("number"))];
    assert_eq!(
        result.meta.unwrap().values.unwrap(),
        AnnotationValues::Root(TypeAnnotation::Node("map".into(), expected_inner))
    );
}

#[test]
fn test_serialize_nan() {
    let result = serialize(&Value::NaN).unwrap();
    assert_eq!(result.json, jstr("NaN"));
    assert_eq!(result.meta.unwrap().values.unwrap(), AnnotationValues::Root(leaf("number")));
}

#[test]
fn test_serialize_regexp() {
    let result = serialize(&Value::RegExp { source: "\\d+".into(), flags: "gi".into() }).unwrap();
    assert_eq!(result.json, jstr("/\\d+/gi"));
    assert_eq!(result.meta.unwrap().values.unwrap(), AnnotationValues::Root(leaf("regexp")));
}

#[test]
fn test_serialize_nested_object_with_date() {
    let obj = vec![
        ("created".to_string(), Value::Date(epoch())),
        ("name".to_string(), Value::String("test".into())),
    ];
    let result = serialize(&Value::Object(obj)).unwrap();
    assert_eq!(
        result.json,
        Json::Object(vec![
            ("created".to_string(), jstr("1970-01-01T00:00:00.000Z")),
            ("name".to_string(), jstr("test")),
        ])
    );
    let expected = vec![("created".to_string(), leaf("Date"))];
    assert_eq!(result.meta.unwrap().values.unwrap(), AnnotationValues::Children(expected));
}

#[test]
fn test_serialize_deeply_nested_date() {
    let inner = vec![("date".to_string(), Value::Date(epoch()))];
    let outer = vec![("meeting".to_string(), Value::Object(inner))];
    let expected = vec![("meeting.date".to_string(), leaf("Date"))];
    assert_eq!(values_of(&Value::Object(outer)), AnnotationValues::Children(expected));
}

#[test]
fn test_serialize_array_with_mixed_types() {
    let arr = Value::Array(vec![num(1.0), Value::Date(epoch()), Value::BigInt(BigInt::from_i64(999))]);
    let result = serialize(&arr).unwrap();
    assert_eq!(
        result.json,
        Json::Array(vec![jnum(1.0), jstr("1970-01-01T00:00:00.000Z"), jstr("999")])
    );
    let expected = vec![("1".to_string(), leaf("Date")), ("2".to_string(), leaf("bigint"))];
    assert_eq!(result.meta.unwrap().values.unwrap(), AnnotationValues::Children(expected));
}

#[test]
fn test_serialize_object_with_set_containing_extended() {
    let obj = vec![("a".to_string(), Value::JsSet(vec![num(1.0), Value::Undefined, num(2.0)]))];
    let result = serialize(&Value::Object(obj)).unwrap();
    assert_eq!(
        result.json,
        Json::Object(vec![("a".to_string(), Json::Array(vec![jnum(1.0), Json::Null, jnum(2.0)]))])
    );
    let inner = vec![("1".to_string(), leaf("undefined"))];
    let expected = vec![("a".to_string(), TypeAnnotation::Node("set".into(), inner))];
    assert_eq!(result.meta.unwrap().values.unwrap(), AnnotationValues::Children(expected));
}

#[test]
fn serialize_escapes_dotted_keys_in_paths() {
    let inner = vec![("x.y".to_string(), Value::Undefined)];
    let outer = vec![("a\\b".to_string(), Value::Object(inner))];
    let expected = vec![("a\\\\b.x\\.y".to_string(), leaf("undefined"))];
    assert_eq!(values_of(&Value::Object(outer)), AnnotationValues::Children(expected));
}

#[test]
fn serialize_special_numbers_and_url() {
    assert_eq!(serialize(&Value::PosInfinity).unwrap().json, jstr("Infinity"));
    assert_eq!(serialize(&Value::NegInfinity).unwrap().json, jstr("-Infinity"));
    assert_eq!(serialize(&Value::NegZero).unwrap().json, jstr("-0"));
    let url = serialize(&Value::Url("https://example.com/".into())).unwrap();
    assert_eq!(url.json, jstr("https://example.com/"));
    assert_eq!(url.meta.unwrap().values.unwrap(), AnnotationValues::Root(leaf("url")));
}

#[test]
fn serialize_error_with_typed_cause() {
    let v = Value::Error {
        name: "Error".into(),
        message: "fail".into(),
        cause: Some(Box::new(Value::Date(epoch()))),
    };
    let result = serialize(&v).unwrap();
    assert_eq!(
        result.json,
        Json::Object(vec![
            ("name".to_string(), jstr("Error")),
            ("message".to_string(), jstr("fail")),
            ("cause".to_string(), jstr("1970-01-01T00:00:00.000Z")),
        ])
    );
    let inner = vec![("cause".to_string(), leaf("Date"))];
    assert_eq!(
        result.meta.unwrap().values.unwrap(),
        AnnotationValues::Root(TypeAnnotation::Node("error".into(), inner))
    );
}

#[test]
fn serialize_map_value_children_flattened_under_entry_path() {
    let inner = vec![("d".to_string(), Value::Date(epoch()))];
    let v = Value::JsMap(vec![(num(1.0), Value::Object(inner))]);
    let expected_inner = vec![("0.1.d".to_string(), leaf("Date"))];
    assert_eq!(values_of(&v), AnnotationValues::Root(TypeAnnotation::Node("map".into(), expected_inner)));
}

#[test]
fn serialize_bigint_text_is_canonical() {
    let big = BigInt::from_decimal("-000123").unwrap();
    assert_eq!(serialize(&Value::BigInt(big)).unwrap().json, jstr("-123"));
    let min = BigInt::from_i64(i64::MIN);
    assert_eq!(min.to_decimal(), "-9223372036854775808");
}

#[test]
fn date_text_has_milliseconds_and_z() {
    let d = Date::from_timestamp_millis(1_700_000_000_123).unwrap();
    assert_eq!(d.to_rfc3339(), "2023-11-14T22:13:20.123Z");
    assert!(Date::from_timestamp_millis(253_402_300_800_000).is_none());
    assert!(Date::from_timestamp_millis(-62_167_219_200_001).is_none());
}

#[test]
fn number_bits_classification() {
    assert_eq!(Value::from_f64_bits(f64::NAN.to_bits()), Value::NaN);
    assert_eq!(Value::from_f64_bits(f64::INFINITY.to_bits()), Value::PosInfinity);
    assert_eq!(Value::from_f64_bits(f64::NEG_INFINITY.to_bits()), Value::NegInfinity);
    assert_eq!(Value::from_f64_bits((-0.0f64).to_bits()), Value::NegZero);
    assert_eq!(Value::from_f64_bits(1.5f64.to_bits()), num(1.5));
}

#[test]
fn value_from_plain_parts() {
    assert_eq!(Value::from(true), Value::Bool(true));
    assert_eq!(Value::from("x".to_string()), Value::String("x".into()));
    assert_eq!(Value::from(BigInt::from_i64(5)), Value::BigInt(BigInt::from_i64(5)));
    assert_eq!(Value::from(epoch()), Value::Date(epoch()));
}

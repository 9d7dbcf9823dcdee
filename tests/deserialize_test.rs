use superjson_rs::deserialize::deserialize;
use superjson_rs::error::ErrorKind;
use superjson_rs::{AnnotationValues, BigInt, Date, Error, Json, Meta, SuperJson, TypeAnnotation, Value};

fn num(x: f64) -> Value {
    Value::Number(x.to_bits())
}

fn jnum(x: f64) -> Json {
    Json::Number(x.to_bits())
}

fn jstr(s: &str) -> Json {
    Json::String(s.to_string())
}

fn leaf(name: &str) -> TypeAnnotation {
    TypeAnnotation::Leaf(name.to_string())
}

fn epoch() -> Value {
    Value::Date(Date::from_timestamp_millis(0).unwrap())
}

fn make_superjson_root(json: Json, ann: TypeAnnotation) -> SuperJson {
    SuperJson {
        json,
        meta: Some(Meta { values: Some(AnnotationValues::Root(ann)), referential_equalities: None, v: Some(1) }),
    }
}

fn make_superjson_children(json: Json, children: Vec<(String, TypeAnnotation)>) -> SuperJson {
    SuperJson {
        json,
        meta: Some(Meta { values: Some(AnnotationValues::Children(children)), referential_equalities: None, v: Some(1) }),
    }
}

fn make_superjson_plain(json: Json) -> SuperJson {
    SuperJson { json, meta: None }
}

fn member<'a>(v: &'a Value, key: &str) -> &'a Value {
    &v.as_object().unwrap().iter().find(|(k, _)| k == key).unwrap().1
}

fn kind_of(e: &Error) -> ErrorKind {
    match e {
        Error::Json(_) => ErrorKind::Json,
        Error::InvalidTypeAnnotation(_) => ErrorKind::InvalidTypeAnnotation,
        Error::InvalidPath(_) => ErrorKind::InvalidPath,
        Error::InvalidDate(_) => ErrorKind::InvalidDate,
        Error::InvalidBigInt(_) => ErrorKind::InvalidBigInt,
        Error::InvalidRegExp(_) => ErrorKind::InvalidRegExp,
        Error::TypeMismatch { .. } => ErrorKind::TypeMismatch,
    }
}

fn root_error(json: Json, ann: TypeAnnotation) -> ErrorKind {
    kind_of(&deserialize(&make_superjson_root(json, ann)).unwrap_err())
}

#[test]
fn test_deserialize_null() {
    assert_eq!(deserialize(&make_superjson_plain(Json::Null)).unwrap(), Value::Null);
}

#[test]
fn test_deserialize_bool() {
    assert_eq!(deserialize(&make_superjson_plain(Json::Bool(true))).unwrap(), Value::Bool(true));
}

#[test]
fn test_deserialize_number() {
    assert_eq!(deserialize(&make_superjson_plain(jnum(42.0))).unwrap(), num(42.0));
}

#[test]
fn test_deserialize_string() {
    assert_eq!(deserialize(&make_superjson_plain(jstr("hello"))).unwrap(), Value::String("hello".into()));
}

#[test]
fn test_deserialize_undefined() {
    let sj = make_superjson_root(Json::Null, leaf("undefined"));
    assert_eq!(deserialize(&sj).unwrap(), Value::Undefined);
}

#[test]
fn test_deserialize_date() {
    let sj = make_superjson_root(jstr("1970-01-01T00:00:00.000Z"), leaf("Date"));
    assert_eq!(deserialize(&sj).unwrap(), epoch());
}

#[test]
fn test_deserialize_bigint() {
    let sj = make_superjson_root(jstr("42"), leaf("bigint"));
    assert_eq!(deserialize(&sj).unwrap(), Value::BigInt(BigInt::from_i64(42)));
}

#[test]
fn test_deserialize_set() {
    let sj = make_superjson_root(Json::Array(vec![jnum(1.0), jnum(2.0), jnum(3.0)]), leaf("set"));
    assert_eq!(deserialize(&sj).unwrap(), Value::JsSet(vec![num(1.0), num(2.0), num(3.0)]));
}

#[test]
fn test_deserialize_set_with_inner_annotations() {
    let inner = vec![("1".to_string(), leaf("undefined"))];
    let sj = make_superjson_root(
        Json::Array(vec![jnum(1.0), Json::Null, jnum(2.0)]),
        TypeAnnotation::Node("set".into(), inner),
    );
    assert_eq!(deserialize(&sj).unwrap(), Value::JsSet(vec![num(1.0), Value::Undefined, num(2.0)]));
}

#[test]
fn test_deserialize_map() {
    let sj = make_superjson_root(Json::Array(vec![Json::Array(vec![jstr("key"), jnum(1.0)])]), leaf("map"));
    assert_eq!(deserialize(&sj).unwrap(), Value::JsMap(vec![(Value::String("key".into()), num(1.0))]));
}

#[test]
fn test_deserialize_map_with_nan_key() {
    let inner = vec![("0.0".to_string(), leaf("number"))];
    let sj = make_superjson_root(
        Json::Array(vec![Json::Array(vec![jstr("NaN"), Json::Null])]),
        TypeAnnotation::Node("map".into(), inner),
    );
    assert_eq!(deserialize(&sj).unwrap(), Value::JsMap(vec![(Value::NaN, Value::Null)]));
}

#[test]
fn test_deserialize_nan() {
    let sj = make_superjson_root(jstr("NaN"), leaf("number"));
    assert_eq!(deserialize(&sj).unwrap(), Value::NaN);
}

#[test]
fn test_deserialize_infinity() {
    let sj = make_superjson_root(jstr("Infinity"), leaf("number"));
    assert_eq!(deserialize(&sj).unwrap(), Value::PosInfinity);

    let sj = make_superjson_root(jstr("-Infinity"), leaf("number"));
    assert_eq!(deserialize(&sj).unwrap(), Value::NegInfinity);
}

#[test]
fn test_deserialize_regexp() {
    let sj = make_superjson_root(jstr("/\\d+/gi"), leaf("regexp"));
    assert_eq!(deserialize(&sj).unwrap(), Value::RegExp { source: "\\d+".into(), flags: "gi".into() });
}

#[test]
fn test_deserialize_object_with_children() {
    let children = vec![("created".to_string(), leaf("Date"))];
    let sj = make_superjson_children(
        Json::Object(vec![
            ("created".to_string(), jstr("1970-01-01T00:00:00.000Z")),
            ("name".to_string(), jstr("test")),
        ]),
        children,
    );
    let result = deserialize(&sj).unwrap();
    assert_eq!(member(&result, "created"), &epoch());
    assert_eq!(member(&result, "name"), &Value::String("test".into()));
}

#[test]
fn test_deserialize_deeply_nested() {
    let children = vec![("meeting.date".to_string(), leaf("Date"))];
    let sj = make_superjson_children(
        Json::Object(vec![(
            "meeting".to_string(),
            Json::Object(vec![("date".to_string(), jstr("1970-01-01T00:00:00.000Z"))]),
        )]),
        children,
    );
    let result = deserialize(&sj).unwrap();
    let meeting = member(&result, "meeting");
    assert_eq!(member(meeting, "date"), &epoch());
}

#[test]
fn test_deserialize_array_with_children() {
    let children = vec![("1".to_string(), leaf("Date")), ("2".to_string(), leaf("bigint"))];
    let sj = make_superjson_children(
        Json::Array(vec![jnum(1.0), jstr("1970-01-01T00:00:00.000Z"), jstr("999")]),
        children,
    );
    let result = deserialize(&sj).unwrap();
    let arr = result.as_array().unwrap();
    assert_eq!(arr[0], num(1.0));
    assert_eq!(arr[1], epoch());
    assert_eq!(arr[2], Value::BigInt(BigInt::from_i64(999)));
}

#[test]
fn deserialize_negative_zero_text() {
    let sj = make_superjson_root(jstr("-0"), leaf("number"));
    assert_eq!(deserialize(&sj).unwrap(), Value::NegZero);
}

#[test]
fn deserialize_plain_negative_zero_number() {
    let sj = make_superjson_plain(Json::Number((-0.0f64).to_bits()));
    assert_eq!(deserialize(&sj).unwrap(), Value::NegZero);
}

#[test]
fn deserialize_date_with_offset_and_fraction() {
    let sj = make_superjson_root(jstr("1970-01-01T01:00:00.5009+01:00"), leaf("Date"));
    assert_eq!(deserialize(&sj).unwrap(), Value::Date(Date::from_timestamp_millis(500).unwrap()));
}

#[test]
fn unknown_tag_is_invalid_annotation() {
    assert_eq!(root_error(jstr("x"), leaf("Symbol")), ErrorKind::InvalidTypeAnnotation);
}

#[test]
fn bad_date_is_invalid_date() {
    assert_eq!(root_error(jstr("yesterday"), leaf("Date")), ErrorKind::InvalidDate);
}

#[test]
fn bad_bigint_is_invalid_bigint() {
    assert_eq!(root_error(jstr("12x"), leaf("bigint")), ErrorKind::InvalidBigInt);
    assert_eq!(root_error(jstr(""), leaf("bigint")), ErrorKind::InvalidBigInt);
}

#[test]
fn bad_regexp_is_invalid_regexp() {
    assert_eq!(root_error(jstr("abc/"), leaf("regexp")), ErrorKind::InvalidRegExp);
    assert_eq!(root_error(jstr("/abc"), leaf("regexp")), ErrorKind::InvalidRegExp);
    assert_eq!(root_error(jstr(""), leaf("regexp")), ErrorKind::InvalidRegExp);
}

#[test]
fn regexp_closing_slash_is_the_last_one() {
    let sj = make_superjson_root(jstr("/a/b/i"), leaf("regexp"));
    assert_eq!(deserialize(&sj).unwrap(), Value::RegExp { source: "a/b".into(), flags: "i".into() });
}

#[test]
fn wrong_json_shape_is_type_mismatch() {
    assert_eq!(root_error(jnum(1.0), leaf("Date")), ErrorKind::TypeMismatch);
    assert_eq!(root_error(jstr("[]"), leaf("set")), ErrorKind::TypeMismatch);
    assert_eq!(root_error(jstr("zero"), leaf("number")), ErrorKind::TypeMismatch);
    assert_eq!(root_error(Json::Array(vec![Json::Array(vec![Json::Null])]), leaf("map")), ErrorKind::TypeMismatch);
    assert_eq!(root_error(Json::Array(vec![Json::Null]), leaf("map")), ErrorKind::TypeMismatch);
    assert_eq!(root_error(Json::Object(vec![]), leaf("error")), ErrorKind::TypeMismatch);
}

#[test]
fn map_pair_of_wrong_length_names_its_index() {
    let sj = make_superjson_root(
        Json::Array(vec![Json::Array(vec![Json::Null, Json::Null]), Json::Array(vec![Json::Null])]),
        leaf("map"),
    );
    match deserialize(&sj).unwrap_err() {
        Error::TypeMismatch { path, .. } => assert_eq!(path, "1"),
        other => panic!("unexpected error {other:?}"),
    }
}

#[test]
fn first_error_in_order_wins() {
    let inner = vec![("0".to_string(), leaf("Date")), ("1".to_string(), leaf("bigint"))];
    let sj = make_superjson_root(Json::Array(vec![jstr("bad"), jstr("bad")]), TypeAnnotation::Node("set".into(), inner));
    assert_eq!(kind_of(&deserialize(&sj).unwrap_err()), ErrorKind::InvalidDate);
}

#[test]
fn children_map_on_leaf_node_reads_plainly() {
    let children = vec![("a".to_string(), leaf("Date"))];
    let sj = make_superjson_children(jstr("plain"), children);
    assert_eq!(deserialize(&sj).unwrap(), Value::String("plain".into()));
}

#[test]
fn error_decodes_name_message_and_cause() {
    let inner = vec![("cause".to_string(), leaf("bigint"))];
    let sj = make_superjson_root(
        Json::Object(vec![
            ("name".to_string(), jstr("TypeError")),
            ("message".to_string(), jstr("bad")),
            ("cause".to_string(), jstr("7")),
        ]),
        TypeAnnotation::Node("error".into(), inner),
    );
    assert_eq!(
        deserialize(&sj).unwrap(),
        Value::Error {
            name: "TypeError".into(),
            message: "bad".into(),
            cause: Some(Box::new(Value::BigInt(BigInt::from_i64(7)))),
        }
    );
}

#[test]
fn url_decodes_from_string() {
    let sj = make_superjson_root(jstr("https://example.com/"), leaf("url"));
    assert_eq!(deserialize(&sj).unwrap(), Value::Url("https://example.com/".into()));
}

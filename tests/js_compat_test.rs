use superjson_rs::deserialize::deserialize;
use superjson_rs::serialize::serialize;
use superjson_rs::{AnnotationValues, BigInt, Date, Json, Meta, SuperJson, TypeAnnotation, Value};

fn num(x: f64) -> Value {
    Value::Number(x.to_bits())
}

fn jnum(x: f64) -> Json {
    Json::Number(x.to_bits())
}

fn jstr(s: &str) -> Json {
    Json::String(s.to_string())
}

fn obj(members: Vec<(&str, Json)>) -> Json {
    Json::Object(members.into_iter().map(|(k, v)| (k.to_string(), v)).collect())
}

fn leaf(name: &str) -> TypeAnnotation {
    TypeAnnotation::Leaf(name.to_string())
}

fn epoch() -> Value {
    Value::Date(Date::from_timestamp_millis(0).unwrap())
}

fn envelope(json: Json, values: AnnotationValues) -> SuperJson {
    SuperJson { json, meta: Some(Meta { values: Some(values), referential_equalities: None, v: Some(1) }) }
}

fn children(entries: Vec<(&str, TypeAnnotation)>) -> AnnotationValues {
    AnnotationValues::Children(entries.into_iter().map(|(k, v)| (k.to_string(), v)).collect())
}

fn from_serde(v: &serde_json::Value) -> Json {
    match v {
        serde_json::Value::Null => Json::Null,
        serde_json::Value::Bool(b) => Json::Bool(*b),
        serde_json::Value::Number(n) => Json::Number(n.as_f64().unwrap().to_bits()),
        serde_json::Value::String(s) => Json::String(s.clone()),
        serde_json::Value::Array(a) => Json::Array(a.iter().map(from_serde).collect()),
        serde_json::Value::Object(m) => Json::Object(m.iter().map(|(k, v)| (k.clone(), from_serde(v))).collect()),
    }
}

fn annotation_from_serde(v: &serde_json::Value) -> TypeAnnotation {
    let a = v.as_array().unwrap();
    let name = a[0].as_str().unwrap().to_string();
    match a.get(1) {
        Some(c) => TypeAnnotation::Node(
            name,
            c.as_object().unwrap().iter().map(|(k, v)| (k.clone(), annotation_from_serde(v))).collect(),
        ),
        None => TypeAnnotation::Leaf(name),
    }
}

fn parse_envelope(text: &str) -> SuperJson {
    let v: serde_json::Value = serde_json::from_str(text).unwrap();
    let json = from_serde(&v["json"]);
    let meta = v.get("meta").map(|m| {
        let values = m.get("values").map(|vals| match vals {
            serde_json::Value::Array(_) => AnnotationValues::Root(annotation_from_serde(vals)),
            _ => AnnotationValues::Children(
                vals.as_object().unwrap().iter().map(|(k, v)| (k.clone(), annotation_from_serde(v))).collect(),
            ),
        });
        Meta { values, referential_equalities: None, v: m.get("v").map(|x| x.as_u64().unwrap() as u8) }
    });
    SuperJson { json, meta }
}

fn member<'a>(v: &'a Value, key: &str) -> &'a Value {
    &v.as_object().unwrap().iter().find(|(k, _)| k == key).unwrap().1
}

#[test]
fn js_compat_simple_date() {
    let value = Value::Object(vec![("date".to_string(), epoch())]);
    let result = serialize(&value).unwrap();
    assert_eq!(
        result,
        envelope(obj(vec![("date", jstr("1970-01-01T00:00:00.000Z"))]), children(vec![("date", leaf("Date"))]))
    );
}

#[test]
fn js_compat_set_with_undefined() {
    let value = Value::Object(vec![("a".to_string(), Value::JsSet(vec![num(1.0), Value::Undefined, num(2.0)]))]);
    let result = serialize(&value).unwrap();
    assert_eq!(
        result,
        envelope(
            obj(vec![("a", Json::Array(vec![jnum(1.0), Json::Null, jnum(2.0)]))]),
            children(vec![("a", TypeAnnotation::Node("set".into(), vec![("1".to_string(), leaf("undefined"))]))]),
        )
    );
}

#[test]
fn js_compat_map_with_nan_key() {
    let value = Value::Object(vec![("a".to_string(), Value::JsMap(vec![(Value::NaN, Value::Null)]))]);
    let result = serialize(&value).unwrap();
    assert_eq!(
        result,
        envelope(
            obj(vec![("a", Json::Array(vec![Json::Array(vec![jstr("NaN"), Json::Null])]))]),
            children(vec![("a", TypeAnnotation::Node("map".into(), vec![("0.0".to_string(), leaf("number"))]))]),
        )
    );
}

#[test]
fn js_compat_nested_object_date() {
    let inner = Value::Object(vec![("date".to_string(), epoch())]);
    let value = Value::Object(vec![("meeting".to_string(), inner)]);
    let result = serialize(&value).unwrap();
    assert_eq!(
        result,
        envelope(
            obj(vec![("meeting", obj(vec![("date", jstr("1970-01-01T00:00:00.000Z"))]))]),
            children(vec![("meeting.date", leaf("Date"))]),
        )
    );
}

#[test]
fn js_compat_toplevel_set() {
    let result = serialize(&Value::JsSet(vec![num(1.0), num(2.0)])).unwrap();
    assert_eq!(result, envelope(Json::Array(vec![jnum(1.0), jnum(2.0)]), AnnotationValues::Root(leaf("set"))));
}

#[test]
fn js_compat_toplevel_date() {
    let result = serialize(&epoch()).unwrap();
    assert_eq!(result, envelope(jstr("1970-01-01T00:00:00.000Z"), AnnotationValues::Root(leaf("Date"))));
}

#[test]
fn js_compat_toplevel_undefined() {
    let result = serialize(&Value::Undefined).unwrap();
    assert_eq!(result, envelope(Json::Null, AnnotationValues::Root(leaf("undefined"))));
}

#[test]
fn js_compat_bigint() {
    let big = BigInt::from_decimal("1021312312412312312313").unwrap();
    let value = Value::Object(vec![("a".to_string(), Value::BigInt(big))]);
    let result = serialize(&value).unwrap();
    assert_eq!(
        result,
        envelope(obj(vec![("a", jstr("1021312312412312312313"))]), children(vec![("a", leaf("bigint"))]))
    );
}

#[test]
fn js_compat_regexp() {
    let value = Value::Object(vec![("a".to_string(), Value::RegExp { source: "hello".into(), flags: "g".into() })]);
    let result = serialize(&value).unwrap();
    assert_eq!(result, envelope(obj(vec![("a", jstr("/hello/g"))]), children(vec![("a", leaf("regexp"))])));
}

#[test]
fn js_compat_special_numbers() {
    let value = Value::Object(vec![
        ("a".to_string(), Value::PosInfinity),
        ("b".to_string(), Value::NegInfinity),
        ("c".to_string(), Value::NaN),
    ]);
    let result = serialize(&value).unwrap();
    assert_eq!(
        result,
        envelope(
            obj(vec![("a", jstr("Infinity")), ("b", jstr("-Infinity")), ("c", jstr("NaN"))]),
            children(vec![("a", leaf("number")), ("b", leaf("number")), ("c", leaf("number"))]),
        )
    );
}

#[test]
fn js_compat_neg_zero() {
    let result = serialize(&Value::NegZero).unwrap();
    assert_eq!(result, envelope(jstr("-0"), AnnotationValues::Root(leaf("number"))));
}

#[test]
fn js_compat_neg_zero_in_object() {
    let value = Value::Object(vec![("a".to_string(), Value::NegZero)]);
    let result = serialize(&value).unwrap();
    assert_eq!(result, envelope(obj(vec![("a", jstr("-0"))]), children(vec![("a", leaf("number"))])));
}

#[test]
fn js_compat_no_meta_for_plain_json() {
    let value = Value::Object(vec![
        ("name".to_string(), Value::String("Alice".into())),
        ("age".to_string(), num(30.0)),
    ]);
    let result = serialize(&value).unwrap();
    assert_eq!(result, SuperJson { json: obj(vec![("name", jstr("Alice")), ("age", jnum(30.0))]), meta: None });
    assert!(result.meta.is_none());
}

#[test]
fn js_compat_deserialize_js_output() {
    let js_output = r#"{
        "json": { "date": "1970-01-01T00:00:00.000Z", "name": "test" },
        "meta": { "values": { "date": ["Date"] }, "v": 1 }
    }"#;

    let value = deserialize(&parse_envelope(js_output)).unwrap();
    assert_eq!(member(&value, "date"), &epoch());
    assert_eq!(member(&value, "name"), &Value::String("test".into()));
}

#[test]
fn js_compat_deserialize_set_with_nested_annotations() {
    let js_output = r#"{
        "json": { "a": [1, null, 2] },
        "meta": { "values": { "a": ["set", { "1": ["undefined"] }] }, "v": 1 }
    }"#;

    let value = deserialize(&parse_envelope(js_output)).unwrap();
    assert_eq!(member(&value, "a"), &Value::JsSet(vec![num(1.0), Value::Undefined, num(2.0)]));
}

#[test]
fn js_compat_deserialize_toplevel_extended_type() {
    let js_output = r#"{
        "json": [1, 2, 3],
        "meta": { "values": ["set"], "v": 1 }
    }"#;

    let value = deserialize(&parse_envelope(js_output)).unwrap();
    assert_eq!(value, Value::JsSet(vec![num(1.0), num(2.0), num(3.0)]));
}

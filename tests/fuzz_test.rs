use superjson_rs::deserialize::deserialize;
use superjson_rs::serialize::serialize;
use superjson_rs::{AnnotationValues, BigInt, Date, Error, Json, Meta, SuperJson, TypeAnnotation, Value};

/// A small deterministic generator (64-bit LCG).
struct Gen(u64);

impl Gen {
    fn next(&mut self) -> u64 {
        self.0 = self.0.wrapping_mul(6364136223846793005).wrapping_add(1442695040888963407);
        self.0 >> 33
    }

    fn below(&mut self, n: u64) -> u64 {
        self.next() % n
    }
}

fn key(g: &mut Gen) -> String {
    let pieces = ["a", "b", ".", "\\", "0", "1", "x.y", "ü", ""];
    let n = g.below(3) + 1;
    (0..n).map(|_| pieces[g.below(pieces.len() as u64) as usize]).collect()
}

fn value(g: &mut Gen, depth: u32) -> Value {
    let leaf_kinds = 13;
    let kinds = if depth == 0 { leaf_kinds } else { leaf_kinds + 5 };
    match g.below(kinds) {
        0 => Value::Null,
        1 => Value::Bool(g.below(2) == 0),
        2 => Value::Number(((g.below(2000) as f64) - 1000.0).to_bits()),
        3 => Value::String(key(g)),
        4 => Value::Undefined,
        5 => Value::Date(Date::from_timestamp_millis(g.next() as i64 * 1000 - 4_000_000_000).unwrap()),
        6 => Value::BigInt(BigInt::from_i64((g.next() as i64) * if g.below(2) == 0 { -1 } else { 1 })),
        7 => Value::NaN,
        8 => Value::PosInfinity,
        9 => Value::NegInfinity,
        10 => Value::NegZero,
        11 => Value::RegExp { source: format!("{}/{}", key(g), key(g)), flags: "gi".into() },
        12 => Value::Url(format!("https://example.com/{}", key(g))),
        13 => Value::Array((0..g.below(4)).map(|_| value(g, depth - 1)).collect()),
        14 => {
            let mut members: Vec<(String, Value)> = Vec::new();
            for _ in 0..g.below(4) {
                let k = key(g);
                if !members.iter().any(|(m, _)| *m == k) {
                    let v = value(g, depth - 1);
                    members.push((k, v));
                }
            }
            Value::Object(members)
        }
        15 => Value::JsSet((0..g.below(4)).map(|_| value(g, depth - 1)).collect()),
        16 => Value::JsMap((0..g.below(3)).map(|_| (value(g, depth - 1), value(g, depth - 1))).collect()),
        _ => Value::Error {
            name: key(g),
            message: key(g),
            cause: if g.below(2) == 0 { None } else { Some(Box::new(value(g, depth - 1))) },
        },
    }
}

#[test]
fn random_bounded_trees_round_trip() {
    let mut g = Gen(7);
    for _ in 0..500 {
        let v = value(&mut g, 3);
        let env = serialize(&v).unwrap();
        assert_eq!(deserialize(&env).unwrap(), v);
    }
}

fn json(g: &mut Gen, depth: u32) -> Json {
    match g.below(if depth == 0 { 4 } else { 6 }) {
        0 => Json::Null,
        1 => Json::Bool(true),
        2 => Json::Number(3.5f64.to_bits()),
        3 => {
            let texts = ["NaN", "-0", "x", "/a/g", "2020-01-01T00:00:00Z", "12", "/", ""];
            Json::String(texts[g.below(texts.len() as u64) as usize].to_string())
        }
        4 => Json::Array((0..g.below(3)).map(|_| json(g, depth - 1)).collect()),
        _ => Json::Object(vec![("name".into(), json(g, depth - 1)), ("message".into(), Json::String("m".into()))]),
    }
}

fn is_documented(tag: &str, j: &Json, r: &Result<Value, Error>) -> bool {
    match (tag, r) {
        (_, Ok(_)) => !matches!(tag, "Symbol" | "Date2" | ""),
        ("Symbol" | "Date2" | "", Err(e)) => matches!(e, Error::InvalidTypeAnnotation(_)),
        ("Date", Err(e)) => match j {
            Json::String(_) => matches!(e, Error::InvalidDate(_)),
            _ => matches!(e, Error::TypeMismatch { .. }),
        },
        ("bigint", Err(e)) => match j {
            Json::String(_) => matches!(e, Error::InvalidBigInt(_)),
            _ => matches!(e, Error::TypeMismatch { .. }),
        },
        ("regexp", Err(e)) => match j {
            Json::String(_) => matches!(e, Error::InvalidRegExp(_)),
            _ => matches!(e, Error::TypeMismatch { .. }),
        },
        ("number" | "url" | "error" | "set" | "map", Err(e)) => matches!(e, Error::TypeMismatch { .. }),
        _ => false,
    }
}

#[test]
fn random_malformed_annotations_give_documented_errors() {
    let tags = ["Symbol", "Date2", "", "Date", "bigint", "regexp", "number", "url", "error", "set", "map", "undefined"];
    let mut g = Gen(11);
    for _ in 0..500 {
        let tag = tags[g.below(tags.len() as u64) as usize];
        let j = json(&mut g, 2);
        let env = SuperJson {
            json: clone_json(&j),
            meta: Some(Meta {
                values: Some(AnnotationValues::Root(TypeAnnotation::Leaf(tag.to_string()))),
                referential_equalities: None,
                v: Some(1),
            }),
        };
        let r = deserialize(&env);
        assert!(is_documented(tag, &j, &r), "tag {tag} on {j:?} gave {r:?}");
    }
}

fn clone_json(j: &Json) -> Json {
    match j {
        Json::Null => Json::Null,
        Json::Bool(b) => Json::Bool(*b),
        Json::Number(n) => Json::Number(*n),
        Json::String(s) => Json::String(s.clone()),
        Json::Array(a) => Json::Array(a.iter().map(clone_json).collect()),
        Json::Object(m) => Json::Object(m.iter().map(|(k, v)| (k.clone(), clone_json(v))).collect()),
    }
}

#[test]
fn extended_type_deep_inside_gives_meta() {
    let v = Value::Array(vec![Value::Object(vec![("k".into(), Value::Array(vec![Value::Undefined]))])]);
    let env = serialize(&v).unwrap();
    let meta = env.meta.unwrap();
    assert_eq!(
        meta.values.unwrap(),
        AnnotationValues::Children(vec![("0.k.0".to_string(), TypeAnnotation::Leaf("undefined".into()))])
    );
}

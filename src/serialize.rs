//! Encoding: a value becomes a JSON-safe tree and the annotations of the
//! positions where extended types occur, flattened under dotted paths.
use vstd::prelude::*;
use crate::annotation::{entries_view, AnnView, AnnotationValues, Meta, SuperJson, TypeAnnotation, ValuesView};
use crate::bigint::int_text;
use crate::date::utc_millis_text;
use crate::json::{Json, JsonView};
use crate::path::{escape, escape_key};
use crate::deserialize::{decode_plain, decode_spec};
use crate::tags::{
    bigint_tag, cause_key, date_tag, error_tag, key_cause, key_message, key_name, map_tag,
    message_key, name_key, nan_text, neg_infinity_text, neg_zero_text, infinity_text, number_tag, regexp_tag,
    set_tag, tag_bigint, tag_date, tag_error, tag_map, tag_number, tag_regexp, tag_set, tag_undefined, tag_url,
    text_infinity, text_nan, text_neg_infinity, text_neg_zero, undefined_tag, url_tag,
};
use crate::text::{index_text, nat_text, push_all};
use crate::value::{Value, ValueView};
use crate::roundtrip::{
    decodes_back, entries_decode_back, items_decode_back, lemma_entries_decode, lemma_error_decodes,
    lemma_items_decode, lemma_items_plain, lemma_members_decode, lemma_members_plain, lemma_regexp_decodes,
    lemma_tags_distinct, members_decode_back,
};

verus! {

broadcast use vstd::seq_lib::group_seq_properties;

/// What encoding found at a position: the position itself has an extended
/// type, or only positions below it do.
pub enum AnnResult {
    Typed(AnnView),
    Children(Seq<(Seq<char>, AnnView)>),
}

/// The executable form of `AnnResult`.
pub enum AnnotationResult {
    Typed(TypeAnnotation),
    Children(Vec<(String, TypeAnnotation)>),
}

impl AnnotationResult {
    pub open spec fn view(&self) -> AnnResult {
        match self {
            AnnotationResult::Typed(t) => AnnResult::Typed(t.view()),
            AnnotationResult::Children(c) => AnnResult::Children(entries_view(c@)),
        }
    }
}

pub open spec fn opt_result_view(a: Option<AnnotationResult>) -> Option<AnnResult> {
    match a {
        Some(r) => Some(r.view()),
        None => None,
    }
}

/// The entries that a child at path `key` adds to its parent: its own
/// annotation at `key`, or its descendants' under `key.`.
pub open spec fn collect(key: Seq<char>, a: Option<AnnResult>) -> Seq<(Seq<char>, AnnView)> {
    match a {
        None => Seq::empty(),
        Some(AnnResult::Typed(t)) => seq![(key, t)],
        Some(AnnResult::Children(m)) => Seq::new(m.len(), |i: int| (key + seq!['.'] + m[i].0, m[i].1)),
    }
}

/// No annotation for an empty list of entries.
pub open spec fn children_result(m: Seq<(Seq<char>, AnnView)>) -> Option<AnnResult> {
    if m.len() == 0 { None } else { Some(AnnResult::Children(m)) }
}

/// The annotation of an extended container: a leaf when nothing inside is typed.
pub open spec fn typed(name: Seq<char>, inner: Seq<(Seq<char>, AnnView)>) -> AnnView {
    if inner.len() == 0 { AnnView::Leaf(name) } else { AnnView::Node(name, inner) }
}

pub open spec fn leaf(name: Seq<char>) -> Option<AnnResult> {
    Some(AnnResult::Typed(AnnView::Leaf(name)))
}

/// The path of slot `slot` (0 for the key, 1 for the value) of entry `i` of a map.
pub open spec fn entry_path(i: nat, slot: char) -> Seq<char> {
    nat_text(i) + seq!['.', slot]
}

pub open spec fn items_json(items: Seq<ValueView>) -> Seq<JsonView>
    decreases items,
{
    Seq::new(items.len(), |i: int| if 0 <= i < items.len() { encode_spec(items[i]).0 } else { JsonView::Null })
}

/// The entries that the first `n` items of an array or a set add, one block per
/// item under its index; flattened, they are the container's entries.
pub open spec fn item_blocks(s: Seq<ValueView>, n: int) -> Seq<Seq<(Seq<char>, AnnView)>>
    decreases s,
{
    Seq::new(
        n as nat,
        |j: int| if 0 <= j < s.len() { collect(nat_text(j as nat), encode_spec(s[j]).1) } else { Seq::empty() },
    )
}

pub open spec fn members_json(m: Seq<(Seq<char>, ValueView)>) -> Seq<(Seq<char>, JsonView)>
    decreases m,
{
    Seq::new(m.len(), |i: int| if 0 <= i < m.len() { (m[i].0, encode_spec(m[i].1).0) } else { (Seq::empty(), JsonView::Null) })
}

/// The entries that the first `n` members of an object add, one block per
/// member under its escaped key.
pub open spec fn member_blocks(m: Seq<(Seq<char>, ValueView)>, n: int) -> Seq<Seq<(Seq<char>, AnnView)>>
    decreases m,
{
    Seq::new(
        n as nat,
        |j: int| if 0 <= j < m.len() { collect(escape(m[j].0), encode_spec(m[j].1).1) } else { Seq::empty() },
    )
}

pub open spec fn entries_json(e: Seq<(ValueView, ValueView)>) -> Seq<JsonView>
    decreases e,
{
    Seq::new(
        e.len(),
        |i: int| if 0 <= i < e.len() { JsonView::Array(seq![encode_spec(e[i].0).0, encode_spec(e[i].1).0]) } else { JsonView::Null },
    )
}

/// The entries that the first `n` entries of a map add: the key's under `i.0`,
/// the value's under `i.1`.
pub open spec fn entry_blocks(e: Seq<(ValueView, ValueView)>, n: int) -> Seq<Seq<(Seq<char>, AnnView)>>
    decreases e,
{
    Seq::new(
        n as nat,
        |j: int| if 0 <= j < e.len() {
            collect(entry_path(j as nat, '0'), encode_spec(e[j].0).1) + collect(entry_path(j as nat, '1'), encode_spec(e[j].1).1)
        } else {
            Seq::empty()
        },
    )
}

/// The members `{name, message}` of an error, and `cause` after them if present.
pub open spec fn error_json(name: Seq<char>, message: Seq<char>, cause: Option<Box<ValueView>>) -> Seq<(Seq<char>, JsonView)>
    decreases cause,
{
    let base = seq![(key_name(), JsonView::Str(name)), (key_message(), JsonView::Str(message))];
    match cause {
        Some(c) => base.push((key_cause(), encode_spec(*c).0)),
        None => base,
    }
}

pub open spec fn error_ann(cause: Option<Box<ValueView>>) -> Seq<(Seq<char>, AnnView)>
    decreases cause,
{
    match cause {
        Some(c) => collect(key_cause(), encode_spec(*c).1),
        None => Seq::empty(),
    }
}

/// The JSON-safe form of a value and what encoding records about it.
pub open spec fn encode_spec(v: ValueView) -> (JsonView, Option<AnnResult>)
    decreases v,
{
    match v {
        ValueView::Null => (JsonView::Null, None),
        ValueView::Bool(b) => (JsonView::Bool(b), None),
        ValueView::Number(n) => (JsonView::Number(n), None),
        ValueView::Str(s) => (JsonView::Str(s), None),
        ValueView::Array(items) => (JsonView::Array(items_json(items)), children_result(item_blocks(items, items.len() as int).flatten())),
        ValueView::Object(m) => (JsonView::Object(members_json(m)), children_result(member_blocks(m, m.len() as int).flatten())),
        ValueView::Undefined => (JsonView::Null, leaf(tag_undefined())),
        ValueView::Date(ms) => (JsonView::Str(utc_millis_text(ms)), leaf(tag_date())),
        ValueView::BigInt(n) => (JsonView::Str(int_text(n)), leaf(tag_bigint())),
        ValueView::JsSet(items) => (
            JsonView::Array(items_json(items)),
            Some(AnnResult::Typed(typed(tag_set(), item_blocks(items, items.len() as int).flatten()))),
        ),
        ValueView::JsMap(e) => (
            JsonView::Array(entries_json(e)),
            Some(AnnResult::Typed(typed(tag_map(), entry_blocks(e, e.len() as int).flatten()))),
        ),
        ValueView::NaN => (JsonView::Str(text_nan()), leaf(tag_number())),
        ValueView::PosInfinity => (JsonView::Str(text_infinity()), leaf(tag_number())),
        ValueView::NegInfinity => (JsonView::Str(text_neg_infinity()), leaf(tag_number())),
        ValueView::NegZero => (JsonView::Str(text_neg_zero()), leaf(tag_number())),
        ValueView::RegExp(source, flags) => (JsonView::Str(seq!['/'] + source + seq!['/'] + flags), leaf(tag_regexp())),
        ValueView::Url(u) => (JsonView::Str(u), leaf(tag_url())),
        ValueView::Error(name, message, cause) => (
            JsonView::Object(error_json(name, message, cause)),
            Some(AnnResult::Typed(typed(tag_error(), error_ann(cause)))),
        ),
    }
}

/// What `meta.values` holds for a value, if anything.
pub open spec fn values_spec(v: ValueView) -> Option<ValuesView> {
    match encode_spec(v).1 {
        None => None,
        Some(AnnResult::Typed(t)) => Some(ValuesView::Root(t)),
        Some(AnnResult::Children(c)) => Some(ValuesView::Children(c)),
    }
}

proof fn lemma_entries_view_push(m: Seq<(String, TypeAnnotation)>, x: (String, TypeAnnotation))
    ensures
        entries_view(m.push(x)) == entries_view(m).push((x.0@, x.1.view())),
{
    assert(entries_view(m.push(x)) =~= entries_view(m).push((x.0@, x.1.view())));
}

/// Adds a child's annotation to its parent's entries: at `key` when the child
/// is typed, under `key.` when only its descendants are.
fn collect_child_annotation(
    children: &mut Vec<(String, TypeAnnotation)>,
    key: &String,
    annotation: Option<AnnotationResult>,
)
    ensures
        entries_view(final(children)@) == entries_view(old(children)@) + collect(key@, opt_result_view(annotation)),
{
    match annotation {
        None => {
            assert(entries_view(children@) =~= entries_view(old(children)@) + Seq::<(Seq<char>, AnnView)>::empty());
        },
        Some(AnnotationResult::Typed(t)) => {
            let ghost tv = t.view();
            let k = key.clone();
            proof { lemma_entries_view_push(children@, (k, t)); }
            children.push((k, t));
            assert(entries_view(children@) =~= entries_view(old(children)@) + seq![(key@, tv)]);
        },
        Some(AnnotationResult::Children(inner)) => {
            let ghost iv = entries_view(inner@);
            let ghost base = entries_view(children@);
            let mut rest = inner;
            let ghost total = rest@.len();
            assert(iv.len() == total);
            while rest.len() > 0
                invariant
                    total == iv.len(),
                    rest@.len() <= total,
                    forall|j: int| 0 <= j < rest@.len() ==> (#[trigger] rest@[j]).0@ == iv[total - rest@.len() + j].0
                        && rest@[j].1.view() == iv[total - rest@.len() + j].1,
                    entries_view(children@) == base + Seq::new(
                        (total - rest@.len()) as nat,
                        |j: int| (key@ + seq!['.'] + iv[j].0, iv[j].1),
                    ),
                decreases rest@.len(),
            {
                let ghost done = total - rest@.len();
                let (k, a) = rest.remove(0);
                assert(k@ == iv[done].0 && a.view() == iv[done].1);
                assert forall|j: int| 0 <= j < rest@.len() implies (#[trigger] rest@[j]).0@ == iv[total - rest@.len() + j].0
                        && rest@[j].1.view() == iv[total - rest@.len() + j].1 by {
                }
                let mut path = key.clone();
                path.push('.');
                push_all(&mut path, k.as_str());
                assert(path@ =~= key@ + seq!['.'] + iv[done].0);
                let ghost before = entries_view(children@);
                proof { lemma_entries_view_push(children@, (path, a)); }
                children.push((path, a));
                assert(Seq::new((done + 1) as nat, |j: int| (key@ + seq!['.'] + iv[j].0, iv[j].1)) =~= Seq::new(
                    done as nat,
                    |j: int| (key@ + seq!['.'] + iv[j].0, iv[j].1),
                ).push((key@ + seq!['.'] + iv[done].0, iv[done].1)));
                assert(entries_view(children@) =~= base + Seq::new(
                    (done + 1) as nat,
                    |j: int| (key@ + seq!['.'] + iv[j].0, iv[j].1),
                ));
            }
            let ghost inner_view = iv;
            assert(collect(key@, Some(AnnResult::Children(inner_view))) =~= Seq::new(
                total as nat,
                |j: int| (key@ + seq!['.'] + iv[j].0, iv[j].1),
            ));
            assert(entries_view(children@) =~= entries_view(old(children)@) + collect(key@, Some(AnnResult::Children(inner_view))));
        },
    }
}
pub open spec fn values_view(items: Seq<Value>) -> Seq<ValueView> {
    Seq::new(items.len(), |i: int| items[i].view())
}

pub open spec fn jsons_view(items: Seq<Json>) -> Seq<JsonView> {
    Seq::new(items.len(), |i: int| items[i].view())
}

proof fn lemma_item_blocks_push(s: Seq<ValueView>, n: int)
    requires
        0 <= n < s.len(),
    ensures
        item_blocks(s, n + 1).flatten() == item_blocks(s, n).flatten() + collect(nat_text(n as nat), encode_spec(s[n]).1),
{
    assert(item_blocks(s, n + 1) =~= item_blocks(s, n).push(collect(nat_text(n as nat), encode_spec(s[n]).1)));
    item_blocks(s, n).lemma_flatten_push(collect(nat_text(n as nat), encode_spec(s[n]).1));
}

/// Encodes the items of an array or a set: their JSON forms, and their
/// annotations flattened under their indices.
fn serialize_items(items: &Vec<Value>) -> (r: (Vec<Json>, Vec<(String, TypeAnnotation)>))
    ensures
        jsons_view(r.0@) == items_json(values_view(items@)),
        entries_view(r.1@) == item_blocks(values_view(items@), items@.len() as int).flatten(),
        forall|j: int| 0 <= j < items@.len() ==> (#[trigger] values_view(items@)[j]).wf() ==> decodes_back(
            encode_spec(values_view(items@)[j]).0,
            encode_spec(values_view(items@)[j]).1,
            values_view(items@)[j],
        ),
    decreases items,
{
    let ghost s = values_view(items@);
    let mut json_arr: Vec<Json> = Vec::new();
    let mut children: Vec<(String, TypeAnnotation)> = Vec::new();
    let mut i: usize = 0;
    assert(item_blocks(s, 0) =~= Seq::<Seq<(Seq<char>, AnnView)>>::empty());
    assert(entries_view(children@) =~= item_blocks(s, 0).flatten());
    while i < items.len()
        invariant
            i <= items@.len(),
            s == values_view(items@),
            json_arr@.len() == i,
            forall|j: int| 0 <= j < i ==> (#[trigger] json_arr@[j]).view() == encode_spec(s[j]).0,
            entries_view(children@) == item_blocks(s, i as int).flatten(),
            forall|j: int| 0 <= j < i ==> (#[trigger] s[j]).wf() ==> decodes_back(encode_spec(s[j]).0, encode_spec(s[j]).1, s[j]),
        decreases items@.len() - i,
    {
        let (json_val, ann) = serialize_value(&items[i]);
        json_arr.push(json_val);
        let key = index_text(i);
        proof { lemma_item_blocks_push(s, i as int); }
        collect_child_annotation(&mut children, &key, ann);
        i = i + 1;
    }
    assert(jsons_view(json_arr@) =~= items_json(s));
    (json_arr, children)
}

/// Encodes one value.
#[verifier::rlimit(100)]
#[verifier::spinoff_prover]
fn serialize_value(value: &Value) -> (r: (Json, Option<AnnotationResult>))
    ensures
        r.0.view() == encode_spec(value.view()).0,
        opt_result_view(r.1) == encode_spec(value.view()).1,
        value.view().wf() ==> decodes_back(encode_spec(value.view()).0, encode_spec(value.view()).1, value.view()),
    decreases value,
{
    match value {
        Value::Null => (Json::Null, None),
        Value::Bool(b) => (Json::Bool(*b), None),
        Value::Number(n) => (Json::Number(*n), None),
        Value::String(s) => (Json::String(s.clone()), None),
        Value::Array(items) => {
            assert(value.view() == ValueView::Array(values_view(items@))) by {
                assert(value.view()->Array_0 =~= values_view(items@));
            }
            let (json_arr, children) = serialize_items(items);
            let j = Json::Array(json_arr);
            assert(j.view()->Array_0 =~= jsons_view(json_arr@));
            assert(entries_view(children@).len() == children@.len());
            proof {
                let s = values_view(items@);
                if value.view().wf() {
                    assert(items_decode_back(s)) by {
                        assert forall|i: int| 0 <= i < s.len() implies decodes_back(
                            encode_spec(#[trigger] s[i]).0,
                            encode_spec(s[i]).1,
                            s[i],
                        ) by {
                            assert(s[i].wf());
                        }
                    }
                    if children@.len() == 0 {
                        lemma_items_plain(s);
                        assert(decode_plain(j.view())->Array_0 =~= s);
                    } else {
                        lemma_items_decode(s);
                    }
                }
            }
            if children.len() == 0 {
                (j, None)
            } else {
                (j, Some(AnnotationResult::Children(children)))
            }
        },
        Value::Object(members) => {
            let ghost m = members_view(members@);
            assert(value.view() == ValueView::Object(m)) by {
                assert(value.view()->Object_0 =~= m);
            }
            let (json_map, children) = serialize_members(members);
            let j = Json::Object(json_map);
            assert(j.view()->Object_0 =~= json_members_view(json_map@));
            assert(entries_view(children@).len() == children@.len());
            proof {
                if value.view().wf() {
                    assert(members_decode_back(m)) by {
                        assert forall|i: int| 0 <= i < m.len() implies decodes_back(
                            encode_spec(#[trigger] m[i].1).0,
                            encode_spec(m[i].1).1,
                            m[i].1,
                        ) by {
                            assert(m[i].1.wf());
                        }
                    }
                    if children@.len() == 0 {
                        lemma_members_plain(m);
                        assert(decode_plain(j.view())->Object_0 =~= m);
                    } else {
                        lemma_members_decode(m);
                    }
                }
            }
            if children.len() == 0 {
                (j, None)
            } else {
                (j, Some(AnnotationResult::Children(children)))
            }
        },
        Value::Undefined => (Json::Null, Some(leaf_result(undefined_tag()))),
        Value::Date(d) => {
            let text = d.to_rfc3339();
            proof { lemma_tags_distinct(); }
            (Json::String(text), Some(leaf_result(date_tag())))
        },
        Value::BigInt(b) => {
            let text = b.to_decimal();
            proof { lemma_tags_distinct(); }
            (Json::String(text), Some(leaf_result(bigint_tag())))
        },
        Value::JsSet(items) => {
            assert(value.view() == ValueView::JsSet(values_view(items@))) by {
                assert(value.view()->JsSet_0 =~= values_view(items@));
            }
            let (json_arr, children) = serialize_items(items);
            let j = Json::Array(json_arr);
            assert(j.view()->Array_0 =~= jsons_view(json_arr@));
            proof {
                let s = values_view(items@);
                if value.view().wf() {
                    assert(items_decode_back(s)) by {
                        assert forall|i: int| 0 <= i < s.len() implies decodes_back(
                            encode_spec(#[trigger] s[i]).0,
                            encode_spec(s[i]).1,
                            s[i],
                        ) by {
                            assert(s[i].wf());
                        }
                    }
                    lemma_items_decode(s);
                    lemma_tags_distinct();
                    let f = item_blocks(s, s.len() as int).flatten();
                    if f.len() == 0 {
                        assert(typed(tag_set(), f).inner() =~= f);
                    }
                }
            }
            (j, Some(make_typed_annotation(set_tag(), children)))
        },
        Value::JsMap(entries) => {
            let ghost e = pairs_view(entries@);
            assert(value.view() == ValueView::JsMap(e)) by {
                assert(value.view()->JsMap_0 =~= e);
            }
            let (json_arr, children) = serialize_entries(entries);
            let j = Json::Array(json_arr);
            assert(j.view()->Array_0 =~= jsons_view(json_arr@));
            proof {
                if value.view().wf() {
                    assert(entries_decode_back(e)) by {
                        assert forall|i: int| 0 <= i < e.len() implies decodes_back(
                            encode_spec(#[trigger] e[i].0).0,
                            encode_spec(e[i].0).1,
                            e[i].0,
                        ) && decodes_back(encode_spec(e[i].1).0, encode_spec(e[i].1).1, e[i].1) by {
                            assert(e[i].0.wf() && e[i].1.wf());
                        }
                    }
                    lemma_entries_decode(e);
                    lemma_tags_distinct();
                    let f = entry_blocks(e, e.len() as int).flatten();
                    if f.len() == 0 {
                        assert(typed(tag_map(), f).inner() =~= f);
                    }
                }
            }
            (j, Some(make_typed_annotation(map_tag(), children)))
        },
        Value::NaN => {
            proof { lemma_tags_distinct(); }
            (Json::String(nan_text()), Some(leaf_result(number_tag())))
        },
        Value::PosInfinity => {
            proof { lemma_tags_distinct(); }
            (Json::String(infinity_text()), Some(leaf_result(number_tag())))
        },
        Value::NegInfinity => {
            proof { lemma_tags_distinct(); }
            (Json::String(neg_infinity_text()), Some(leaf_result(number_tag())))
        },
        Value::NegZero => {
            proof { lemma_tags_distinct(); }
            (Json::String(neg_zero_text()), Some(leaf_result(number_tag())))
        },
        Value::RegExp { source, flags } => {
            let mut text = String::new();
            text.push('/');
            push_all(&mut text, source.as_str());
            text.push('/');
            push_all(&mut text, flags.as_str());
            assert(text@ =~= seq!['/'] + source@ + seq!['/'] + flags@);
            proof {
                lemma_tags_distinct();
                if value.view().wf() {
                    lemma_regexp_decodes(source@, flags@);
                }
            }
            (Json::String(text), Some(leaf_result(regexp_tag())))
        },
        Value::Url(u) => {
            proof { lemma_tags_distinct(); }
            (Json::String(u.clone()), Some(leaf_result(url_tag())))
        },
        Value::Error { name, message, cause } => {
            let mut json_map: Vec<(String, Json)> = Vec::new();
            json_map.push((name_key(), Json::String(name.clone())));
            json_map.push((message_key(), Json::String(message.clone())));
            let mut children: Vec<(String, TypeAnnotation)> = Vec::new();
            let ghost cv: Option<Box<ValueView>> = match cause {
                Some(c) => Some(Box::new(c.view())),
                None => None,
            };
            assert(value.view() == ValueView::Error(name@, message@, cv));
            match cause {
                Some(c) => {
                    let (json_cause, cause_ann) = serialize_value(c);
                    proof {
                        if value.view().wf() {
                            assert(c.view().wf());
                        }
                    }
                    json_map.push((cause_key(), json_cause));
                    assert(json_map@[2].0@ == key_cause() && json_map@[2].1.view() == encode_spec(c.view()).0);
                    let key = cause_key();
                    collect_child_annotation(&mut children, &key, cause_ann);
                    assert(entries_view(children@) =~= error_ann(cv));
                },
                None => {
                    assert(entries_view(children@) =~= error_ann(cv));
                },
            }
            proof {
                if value.view().wf() {
                    lemma_error_decodes(name@, message@, cv);
                    lemma_tags_distinct();
                    if error_ann(cv).len() == 0 {
                        assert(typed(tag_error(), error_ann(cv)).inner() =~= error_ann(cv));
                    }
                }
            }
            let j = Json::Object(json_map);
            assert(json_map@[0].0@ == key_name() && json_map@[0].1.view() == JsonView::Str(name@));
            assert(json_map@[1].0@ == key_message() && json_map@[1].1.view() == JsonView::Str(message@));
            assert(j.view()->Object_0 =~= error_json(name@, message@, cv));
            (j, Some(make_typed_annotation(error_tag(), children)))
        },
    }
}

pub open spec fn json_members_view(m: Seq<(String, Json)>) -> Seq<(Seq<char>, JsonView)> {
    Seq::new(m.len(), |i: int| (m[i].0@, m[i].1.view()))
}

/// Encodes the members of an object: their JSON forms under the same keys,
/// and their annotations flattened under their escaped keys.
fn serialize_members(members: &Vec<(String, Value)>) -> (r: (Vec<(String, Json)>, Vec<(String, TypeAnnotation)>))
    ensures
        json_members_view(r.0@) == members_json(members_view(members@)),
        entries_view(r.1@) == member_blocks(members_view(members@), members@.len() as int).flatten(),
        forall|j: int| 0 <= j < members@.len() ==> (#[trigger] members_view(members@)[j]).1.wf() ==> decodes_back(
            encode_spec(members_view(members@)[j].1).0,
            encode_spec(members_view(members@)[j].1).1,
            members_view(members@)[j].1,
        ),
    decreases members,
{
    let ghost m = members_view(members@);
    let mut json_map: Vec<(String, Json)> = Vec::new();
    let mut children: Vec<(String, TypeAnnotation)> = Vec::new();
    let mut i: usize = 0;
    assert(member_blocks(m, 0) =~= Seq::<Seq<(Seq<char>, AnnView)>>::empty());
    assert(entries_view(children@) =~= member_blocks(m, 0).flatten());
    while i < members.len()
        invariant
            i <= members@.len(),
            m == members_view(members@),
            json_map@.len() == i,
            forall|j: int| 0 <= j < i ==> (#[trigger] json_map@[j]).0@ == m[j].0
                && json_map@[j].1.view() == encode_spec(m[j].1).0,
            entries_view(children@) == member_blocks(m, i as int).flatten(),
            forall|j: int| 0 <= j < i ==> (#[trigger] m[j]).1.wf() ==> decodes_back(encode_spec(m[j].1).0, encode_spec(m[j].1).1, m[j].1),
        decreases members@.len() - i,
    {
        let (json_val, ann) = serialize_value(&members[i].1);
        json_map.push((members[i].0.clone(), json_val));
        let key = escape_key(members[i].0.as_str());
        proof {
            assert(member_blocks(m, i + 1) =~= member_blocks(m, i as int).push(collect(escape(m[i as int].0), encode_spec(m[i as int].1).1)));
            member_blocks(m, i as int).lemma_flatten_push(collect(escape(m[i as int].0), encode_spec(m[i as int].1).1));
        }
        collect_child_annotation(&mut children, &key, ann);
        i = i + 1;
    }
    assert(json_members_view(json_map@) =~= members_json(m));
    (json_map, children)
}

/// Encodes the entries of a map: `[key, value]` pairs, with the key's
/// annotations under `i.0` and the value's under `i.1`.
#[verifier::rlimit(30)]
fn serialize_entries(entries: &Vec<(Value, Value)>) -> (r: (Vec<Json>, Vec<(String, TypeAnnotation)>))
    ensures
        jsons_view(r.0@) == entries_json(pairs_view(entries@)),
        entries_view(r.1@) == entry_blocks(pairs_view(entries@), entries@.len() as int).flatten(),
        forall|j: int| 0 <= j < entries@.len() ==> (#[trigger] pairs_view(entries@)[j]).0.wf() ==> decodes_back(
            encode_spec(pairs_view(entries@)[j].0).0,
            encode_spec(pairs_view(entries@)[j].0).1,
            pairs_view(entries@)[j].0,
        ),
        forall|j: int| 0 <= j < entries@.len() ==> (#[trigger] pairs_view(entries@)[j]).1.wf() ==> decodes_back(
            encode_spec(pairs_view(entries@)[j].1).0,
            encode_spec(pairs_view(entries@)[j].1).1,
            pairs_view(entries@)[j].1,
        ),
    decreases entries,
{
    let ghost e = pairs_view(entries@);
    let mut json_arr: Vec<Json> = Vec::new();
    let mut children: Vec<(String, TypeAnnotation)> = Vec::new();
    let mut i: usize = 0;
    assert(entry_blocks(e, 0) =~= Seq::<Seq<(Seq<char>, AnnView)>>::empty());
    assert(entries_view(children@) =~= entry_blocks(e, 0).flatten());
    while i < entries.len()
        invariant
            i <= entries@.len(),
            e == pairs_view(entries@),
            json_arr@.len() == i,
            forall|j: int| 0 <= j < i ==> (#[trigger] json_arr@[j]).view()
                == JsonView::Array(seq![encode_spec(e[j].0).0, encode_spec(e[j].1).0]),
            entries_view(children@) == entry_blocks(e, i as int).flatten(),
            forall|j: int| 0 <= j < i ==> (#[trigger] e[j]).0.wf() ==> decodes_back(encode_spec(e[j].0).0, encode_spec(e[j].0).1, e[j].0),
            forall|j: int| 0 <= j < i ==> (#[trigger] e[j]).1.wf() ==> decodes_back(encode_spec(e[j].1).0, encode_spec(e[j].1).1, e[j].1),
        decreases entries@.len() - i,
    {
        let (json_key, key_ann) = serialize_value(&entries[i].0);
        let (json_val, val_ann) = serialize_value(&entries[i].1);
        let pair = Json::Array(vec![json_key, json_val]);
        assert(pair.view()->Array_0 =~= seq![encode_spec(e[i as int].0).0, encode_spec(e[i as int].1).0]);
        json_arr.push(pair);
        let key_path = entry_path_string(i, '0');
        let val_path = entry_path_string(i, '1');
        let ghost before = entries_view(children@);
        collect_child_annotation(&mut children, &key_path, key_ann);
        collect_child_annotation(&mut children, &val_path, val_ann);
        proof {
            let blk = collect(entry_path(i as nat, '0'), encode_spec(e[i as int].0).1) + collect(entry_path(i as nat, '1'), encode_spec(e[i as int].1).1);
            assert(entry_blocks(e, i + 1) =~= entry_blocks(e, i as int).push(blk));
            entry_blocks(e, i as int).lemma_flatten_push(blk);
            assert(entries_view(children@) =~= before + blk);
        }
        i = i + 1;
    }
    assert(jsons_view(json_arr@) =~= entries_json(e));
    (json_arr, children)
}

pub open spec fn members_view(m: Seq<(String, Value)>) -> Seq<(Seq<char>, ValueView)> {
    Seq::new(m.len(), |i: int| (m[i].0@, m[i].1.view()))
}

pub open spec fn pairs_view(e: Seq<(Value, Value)>) -> Seq<(ValueView, ValueView)> {
    Seq::new(e.len(), |i: int| (e[i].0.view(), e[i].1.view()))
}

/// The path `i.0` or `i.1` of a map entry's key or value.
fn entry_path_string(i: usize, slot: char) -> (r: String)
    ensures
        r@ == entry_path(i as nat, slot),
{
    let mut p = index_text(i);
    p.push('.');
    p.push(slot);
    assert(p@ =~= entry_path(i as nat, slot));
    p
}

fn leaf_result(name: String) -> (r: AnnotationResult)
    ensures
        r.view() == AnnResult::Typed(AnnView::Leaf(name@)),
{
    AnnotationResult::Typed(TypeAnnotation::Leaf(name))
}

/// The annotation of an extended container: a leaf when nothing inside is typed.
fn make_typed_annotation(name: String, inner: Vec<(String, TypeAnnotation)>) -> (r: AnnotationResult)
    ensures
        r.view() == AnnResult::Typed(typed(name@, entries_view(inner@))),
{
    if inner.len() == 0 {
        AnnotationResult::Typed(TypeAnnotation::Leaf(name))
    } else {
        let t = TypeAnnotation::Node(name, inner);
        assert(t.view()->Node_1 =~= entries_view(inner@));
        AnnotationResult::Typed(t)
    }
}

/// The mathematical form of `meta.values`, if present.
pub open spec fn meta_values_view(meta: Option<Meta>) -> Option<ValuesView> {
    match meta {
        Some(m) => match m.values {
            Some(vals) => Some(vals.view()),
            None => None,
        },
        None => None,
    }
}

/// Encodes a value into the `{json, meta}` envelope. `meta` is absent when no
/// extended type occurs; otherwise it holds the annotations and version 1.
///
/// Round trip: for a well-formed value, decoding the envelope gives the value
/// back (`deserialize` returns exactly `decode_spec` of the envelope).
pub fn serialize(value: &Value) -> (r: Result<SuperJson, crate::error::Error>)
    ensures
        r matches Ok(env) && (value.view().wf() ==> decode_spec(env.json.view(), meta_values_view(env.meta))
            == Ok::<ValueView, crate::error::ErrorKind>(value.view())),
        r matches Ok(env) && env.json.view() == encode_spec(value.view()).0 && meta_values_view(env.meta)
            == values_spec(value.view()) && (env.meta is None <==> values_spec(value.view()) is None) && (
        env.meta matches Some(m) ==> m.v == Some(1u8) && m.referential_equalities is None && m.values is Some),
{
    let (json, annotation) = serialize_value(value);
    let meta = match annotation {
        None => None,
        Some(ann) => {
            let values = match ann {
                AnnotationResult::Typed(t) => AnnotationValues::Root(t),
                AnnotationResult::Children(c) => AnnotationValues::Children(c),
            };
            Some(Meta { values: Some(values), referential_equalities: None, v: Some(1) })
        },
    };
    Ok(SuperJson { json, meta })
}

/// The value, or some value inside it, has an extended type.
pub open spec fn has_extended(v: ValueView) -> bool
    decreases v,
{
    match v {
        ValueView::Null | ValueView::Bool(_) | ValueView::Number(_) | ValueView::Str(_) => false,
        ValueView::Array(items) => exists|i: int| 0 <= i < items.len() && has_extended(#[trigger] items[i]),
        ValueView::Object(m) => exists|i: int| 0 <= i < m.len() && has_extended(#[trigger] m[i].1),
        _ => true,
    }
}

pub proof fn lemma_flatten_empty<A>(b: Seq<Seq<A>>)
    ensures
        (b.flatten().len() == 0) <==> (forall|i: int| 0 <= i < b.len() ==> (#[trigger] b[i]).len() == 0),
    decreases b.len(),
{
    if b.len() > 0 {
        lemma_flatten_empty(b.drop_first());
        assert(b.flatten() == b.first() + b.drop_first().flatten());
        if b.flatten().len() == 0 {
            assert forall|i: int| 0 <= i < b.len() implies (#[trigger] b[i]).len() == 0 by {
                if i > 0 {
                    assert(b[i] == b.drop_first()[i - 1]);
                }
            }
        } else if forall|i: int| 0 <= i < b.len() ==> (#[trigger] b[i]).len() == 0 {
            assert forall|i: int| 0 <= i < b.drop_first().len() implies (#[trigger] b.drop_first()[i]).len() == 0 by {
                assert(b.drop_first()[i] == b[i + 1]);
            }
        }
    }
}

/// An encoding never records an empty list of descendants' annotations.
pub proof fn lemma_children_nonempty(v: ValueView)
    ensures
        encode_spec(v).1 matches Some(AnnResult::Children(m)) ==> m.len() > 0,
{
}

pub proof fn lemma_collect_empty(key: Seq<char>, a: Option<AnnResult>)
    requires
        a matches Some(AnnResult::Children(m)) ==> m.len() > 0,
    ensures
        (collect(key, a).len() == 0) <==> a is None,
{
}

/// Only values with an extended type somewhere get annotations.
proof fn lemma_annotation_iff_extended(v: ValueView)
    ensures
        encode_spec(v).1 is None <==> !has_extended(v),
    decreases v,
{
    match v {
        ValueView::Array(items) => {
            let b = item_blocks(items, items.len() as int);
            lemma_flatten_empty(b);
            assert forall|i: int| 0 <= i < items.len() implies ((#[trigger] b[i]).len() == 0 <==> !has_extended(items[i])) by {
                lemma_annotation_iff_extended(items[i]);
                lemma_children_nonempty(items[i]);
                lemma_collect_empty(nat_text(i as nat), encode_spec(items[i]).1);
            }
            if has_extended(v) {
                let i = choose|i: int| 0 <= i < items.len() && has_extended(#[trigger] items[i]);
                assert(b[i].len() != 0);
            } else {
                assert forall|i: int| 0 <= i < b.len() implies (#[trigger] b[i]).len() == 0 by {
                    assert(!has_extended(items[i]));
                }
            }
        },
        ValueView::Object(m) => {
            let b = member_blocks(m, m.len() as int);
            lemma_flatten_empty(b);
            assert forall|i: int| 0 <= i < m.len() implies ((#[trigger] b[i]).len() == 0 <==> !has_extended(m[i].1)) by {
                lemma_annotation_iff_extended(m[i].1);
                lemma_children_nonempty(m[i].1);
                lemma_collect_empty(escape(m[i].0), encode_spec(m[i].1).1);
            }
            if has_extended(v) {
                let i = choose|i: int| 0 <= i < m.len() && has_extended(#[trigger] m[i].1);
                assert(b[i].len() != 0);
            } else {
                assert forall|i: int| 0 <= i < b.len() implies (#[trigger] b[i]).len() == 0 by {
                    assert(!has_extended(m[i].1));
                }
            }
        },
        _ => {},
    }
}

/// The envelope of a value has no `meta` exactly when no extended type
/// (undefined, a date, a big integer, a set, a map, a special number, a
/// regular expression, a URL or an error) occurs anywhere in it.
pub proof fn lemma_no_meta_iff_plain(v: ValueView)
    ensures
        values_spec(v) is None <==> !has_extended(v),
{
    lemma_annotation_iff_extended(v);
}

} // verus!

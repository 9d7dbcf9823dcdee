//! Decoding: a JSON-safe tree and its annotations become a value again.
use vstd::prelude::*;
use crate::annotation::{entries_view, AnnView, SuperJson, TypeAnnotation, ValuesView};
use crate::bigint::bigint_parse;
use crate::date::{rfc3339_millis, MAX_MILLIS, MIN_MILLIS};
use crate::error::{Error, ErrorKind};
use crate::json::{Json, JsonView};
use crate::path::escape;
use crate::serialize::{entry_path, meta_values_view};
use crate::tags::{
    key_cause, key_message, key_name, tag_bigint, tag_date, tag_error, tag_map, tag_number, tag_regexp, tag_set,
    tag_undefined, tag_url, text_infinity, text_nan, text_neg_infinity, text_neg_zero,
};
use crate::text::{chars_of, index_text, nat_text, string_of_range};
use crate::path::escape_key;
use crate::serialize::{json_members_view, jsons_view, members_view, pairs_view, values_view};
use crate::tags::{owned, undefined_tag, date_tag, bigint_tag, set_tag, map_tag, number_tag, regexp_tag, url_tag, error_tag, nan_text, infinity_text, neg_infinity_text, neg_zero_text, name_key, message_key, cause_key};
use crate::value::{number_view, Value, ValueView};

verus! {

/// The annotation of the first entry at path `k`, if any.
pub open spec fn lookup(m: Seq<(Seq<char>, AnnView)>, k: Seq<char>) -> Option<AnnView>
    decreases m.len(),
{
    if m.len() == 0 {
        None
    } else {
        let r = lookup(m.drop_last(), k);
        if r is Some {
            r
        } else if m.last().0 == k {
            Some(m.last().1)
        } else {
            None
        }
    }
}

/// Looking up in a concatenation finds the first part's entry first.
pub proof fn lemma_lookup_append(a: Seq<(Seq<char>, AnnView)>, b: Seq<(Seq<char>, AnnView)>, k: Seq<char>)
    ensures
        lookup(a + b, k) == (if lookup(a, k) is Some { lookup(a, k) } else { lookup(b, k) }),
    decreases b.len(),
{
    if b.len() == 0 {
        assert(a + b =~= a);
    } else {
        assert((a + b).drop_last() =~= a + b.drop_last());
        assert((a + b).last() == b.last());
        lemma_lookup_append(a, b.drop_last(), k);
    }
}

/// Filtering by a prefix distributes over concatenation.
pub proof fn lemma_sub_children_append(a: Seq<(Seq<char>, AnnView)>, b: Seq<(Seq<char>, AnnView)>, p: Seq<char>)
    ensures
        sub_children(a + b, p) == sub_children(a, p) + sub_children(b, p),
    decreases b.len(),
{
    if b.len() == 0 {
        assert(a + b =~= a);
        assert(sub_children(a, p) + sub_children(b, p) =~= sub_children(a, p));
    } else {
        assert((a + b).drop_last() =~= a + b.drop_last());
        assert((a + b).last() == b.last());
        lemma_sub_children_append(a, b.drop_last(), p);
        let x = (b.last().0.skip(p.len() as int), b.last().1);
        if p.is_prefix_of(b.last().0) {
            assert(sub_children(a, p) + sub_children(b.drop_last(), p).push(x) =~= (sub_children(a, p) + sub_children(b.drop_last(), p)).push(x));
        }
    }
}

/// The entries whose path starts with `prefix`, with the prefix taken off, in order.
pub open spec fn sub_children(m: Seq<(Seq<char>, AnnView)>, prefix: Seq<char>) -> Seq<(Seq<char>, AnnView)>
    decreases m.len(),
{
    if m.len() == 0 {
        Seq::empty()
    } else {
        let rest = sub_children(m.drop_last(), prefix);
        if prefix.is_prefix_of(m.last().0) {
            rest.push((m.last().0.skip(prefix.len() as int), m.last().1))
        } else {
            rest
        }
    }
}

/// The index of the first member named `k`, or -1.
pub open spec fn member_index_from(m: Seq<(Seq<char>, JsonView)>, k: Seq<char>, i: int) -> int
    decreases m.len() - i,
{
    if i < 0 || i >= m.len() {
        -1
    } else if m[i].0 == k {
        i
    } else {
        member_index_from(m, k, i + 1)
    }
}

pub open spec fn member_index(m: Seq<(Seq<char>, JsonView)>, k: Seq<char>) -> int {
    member_index_from(m, k, 0)
}

/// The index of the last `c` in `s`, or -1.
pub open spec fn last_index_of(s: Seq<char>, c: char) -> int
    decreases s.len(),
{
    if s.len() == 0 {
        -1
    } else if s.last() == c {
        s.len() - 1
    } else {
        last_index_of(s.drop_last(), c)
    }
}

/// A JSON tree read with no annotation: numbers go through `number_view`.
pub open spec fn decode_plain(j: JsonView) -> ValueView
    decreases j,
{
    match j {
        JsonView::Null => ValueView::Null,
        JsonView::Bool(b) => ValueView::Bool(b),
        JsonView::Number(n) => number_view(n),
        JsonView::Str(s) => ValueView::Str(s),
        JsonView::Array(items) => ValueView::Array(
            Seq::new(items.len(), |i: int| if 0 <= i < items.len() { decode_plain(items[i]) } else { ValueView::Null }),
        ),
        JsonView::Object(m) => ValueView::Object(
            Seq::new(m.len(), |i: int| if 0 <= i < m.len() { (m[i].0, decode_plain(m[i].1)) } else { (Seq::empty(), ValueView::Null) }),
        ),
    }
}

/// A regular expression from `/source/flags`: the closing `/` is the last one.
pub open spec fn decode_regexp(s: Seq<char>) -> Result<ValueView, ErrorKind> {
    let k = last_index_of(s, '/');
    if s.len() == 0 || s[0] != '/' || k <= 0 {
        Err(ErrorKind::InvalidRegExp)
    } else {
        Ok(ValueView::RegExp(s.subrange(1, k), s.subrange(k + 1, s.len() as int)))
    }
}

pub open spec fn decode_number(s: Seq<char>) -> Result<ValueView, ErrorKind> {
    if s == text_nan() {
        Ok(ValueView::NaN)
    } else if s == text_infinity() {
        Ok(ValueView::PosInfinity)
    } else if s == text_neg_infinity() {
        Ok(ValueView::NegInfinity)
    } else if s == text_neg_zero() {
        Ok(ValueView::NegZero)
    } else {
        Err(ErrorKind::TypeMismatch)
    }
}

pub open spec fn decode_date(s: Seq<char>) -> Result<ValueView, ErrorKind> {
    match rfc3339_millis(s) {
        Some(m) => if MIN_MILLIS <= m <= MAX_MILLIS { Ok(ValueView::Date(m)) } else { Err(ErrorKind::InvalidDate) },
        None => Err(ErrorKind::InvalidDate),
    }
}

pub open spec fn decode_bigint(s: Seq<char>) -> Result<ValueView, ErrorKind> {
    match bigint_parse(s) {
        Some(n) => Ok(ValueView::BigInt(n)),
        None => Err(ErrorKind::InvalidBigInt),
    }
}

/// A child at path `key` of a container whose descendants' annotations are
/// `m`: by its own entry, else by the entries under `key.`, else plainly.
pub open spec fn decode_child(j: JsonView, key: Seq<char>, m: Seq<(Seq<char>, AnnView)>) -> Result<ValueView, ErrorKind>
    decreases j, 1nat, 0nat,
{
    match lookup(m, key) {
        Some(a) => decode_annotated(j, a),
        None => {
            let sub = sub_children(m, key + seq!['.']);
            if sub.len() > 0 {
                decode_with_children(j, sub)
            } else {
                Ok(decode_plain(j))
            }
        },
    }
}

/// Items `i..` of an array or a set, each at its index; the first error wins.
pub open spec fn decode_items(items: Seq<JsonView>, m: Seq<(Seq<char>, AnnView)>, i: int) -> Result<Seq<ValueView>, ErrorKind>
    decreases items, 0nat, items.len() - i,
{
    if i < 0 || i >= items.len() {
        Ok(Seq::empty())
    } else {
        match decode_child(items[i], nat_text(i as nat), m) {
            Err(e) => Err(e),
            Ok(x) => match decode_items(items, m, i + 1) {
                Err(e) => Err(e),
                Ok(rest) => Ok(seq![x] + rest),
            },
        }
    }
}

/// Members `i..` of an object, each at its escaped key; the first error wins.
pub open spec fn decode_members(
    ms: Seq<(Seq<char>, JsonView)>,
    m: Seq<(Seq<char>, AnnView)>,
    i: int,
) -> Result<Seq<(Seq<char>, ValueView)>, ErrorKind>
    decreases ms, 0nat, ms.len() - i,
{
    if i < 0 || i >= ms.len() {
        Ok(Seq::empty())
    } else {
        match decode_child(ms[i].1, escape(ms[i].0), m) {
            Err(e) => Err(e),
            Ok(x) => match decode_members(ms, m, i + 1) {
                Err(e) => Err(e),
                Ok(rest) => Ok(seq![(ms[i].0, x)] + rest),
            },
        }
    }
}

/// Entries `i..` of a map, each a two-element array with its key at `i.0`
/// and its value at `i.1`; the first error wins.
pub open spec fn decode_entries(
    items: Seq<JsonView>,
    m: Seq<(Seq<char>, AnnView)>,
    i: int,
) -> Result<Seq<(ValueView, ValueView)>, ErrorKind>
    decreases items, 0nat, items.len() - i,
{
    if i < 0 || i >= items.len() {
        Ok(Seq::empty())
    } else {
        match items[i] {
            JsonView::Array(p) => if p.len() != 2 {
                Err(ErrorKind::TypeMismatch)
            } else {
                match decode_child(p[0], entry_path(i as nat, '0'), m) {
                    Err(e) => Err(e),
                    Ok(k) => match decode_child(p[1], entry_path(i as nat, '1'), m) {
                        Err(e) => Err(e),
                        Ok(v) => match decode_entries(items, m, i + 1) {
                            Err(e) => Err(e),
                            Ok(rest) => Ok(seq![(k, v)] + rest),
                        },
                    },
                }
            },
            _ => Err(ErrorKind::TypeMismatch),
        }
    }
}

/// An error from an object with string members `name` and `message`, and an
/// optional member `cause` decoded at path `cause`.
pub open spec fn decode_error(ms: Seq<(Seq<char>, JsonView)>, m: Seq<(Seq<char>, AnnView)>) -> Result<ValueView, ErrorKind>
    decreases ms, 0nat, 0nat,
{
    let ni = member_index(ms, key_name());
    let mi = member_index(ms, key_message());
    let ci = member_index(ms, key_cause());
    if !(0 <= ni < ms.len()) || !(0 <= mi < ms.len()) {
        Err(ErrorKind::TypeMismatch)
    } else {
        match (ms[ni].1, ms[mi].1) {
            (JsonView::Str(name), JsonView::Str(message)) => if 0 <= ci < ms.len() {
                match decode_child(ms[ci].1, key_cause(), m) {
                    Err(e) => Err(e),
                    Ok(c) => Ok(ValueView::Error(name, message, Some(Box::new(c)))),
                }
            } else {
                Ok(ValueView::Error(name, message, None))
            },
            _ => Err(ErrorKind::TypeMismatch),
        }
    }
}

/// A JSON tree read against its annotation's tag.
pub open spec fn decode_annotated(j: JsonView, a: AnnView) -> Result<ValueView, ErrorKind>
    decreases j, 0nat, 0nat,
{
    let name = a.name();
    if name == tag_undefined() {
        Ok(ValueView::Undefined)
    } else if name == tag_date() {
        match j {
            JsonView::Str(s) => decode_date(s),
            _ => Err(ErrorKind::TypeMismatch),
        }
    } else if name == tag_bigint() {
        match j {
            JsonView::Str(s) => decode_bigint(s),
            _ => Err(ErrorKind::TypeMismatch),
        }
    } else if name == tag_set() {
        match j {
            JsonView::Array(items) => match decode_items(items, a.inner(), 0) {
                Ok(vs) => Ok(ValueView::JsSet(vs)),
                Err(e) => Err(e),
            },
            _ => Err(ErrorKind::TypeMismatch),
        }
    } else if name == tag_map() {
        match j {
            JsonView::Array(items) => match decode_entries(items, a.inner(), 0) {
                Ok(es) => Ok(ValueView::JsMap(es)),
                Err(e) => Err(e),
            },
            _ => Err(ErrorKind::TypeMismatch),
        }
    } else if name == tag_number() {
        match j {
            JsonView::Str(s) => decode_number(s),
            _ => Err(ErrorKind::TypeMismatch),
        }
    } else if name == tag_regexp() {
        match j {
            JsonView::Str(s) => decode_regexp(s),
            _ => Err(ErrorKind::TypeMismatch),
        }
    } else if name == tag_url() {
        match j {
            JsonView::Str(s) => Ok(ValueView::Url(s)),
            _ => Err(ErrorKind::TypeMismatch),
        }
    } else if name == tag_error() {
        match j {
            JsonView::Object(ms) => decode_error(ms, a.inner()),
            _ => Err(ErrorKind::TypeMismatch),
        }
    } else {
        Err(ErrorKind::InvalidTypeAnnotation)
    }
}

/// A container whose descendants carry the annotations `m`; any other node
/// is read plainly.
pub open spec fn decode_with_children(j: JsonView, m: Seq<(Seq<char>, AnnView)>) -> Result<ValueView, ErrorKind>
    decreases j, 0nat, 0nat,
{
    match j {
        JsonView::Array(items) => match decode_items(items, m, 0) {
            Ok(vs) => Ok(ValueView::Array(vs)),
            Err(e) => Err(e),
        },
        JsonView::Object(ms) => match decode_members(ms, m, 0) {
            Ok(vs) => Ok(ValueView::Object(vs)),
            Err(e) => Err(e),
        },
        _ => Ok(decode_plain(j)),
    }
}

/// What decoding an envelope gives, by what `meta.values` holds.
pub open spec fn decode_spec(j: JsonView, values: Option<ValuesView>) -> Result<ValueView, ErrorKind> {
    match values {
        None => Ok(decode_plain(j)),
        Some(ValuesView::Root(a)) => decode_annotated(j, a),
        Some(ValuesView::Children(m)) => decode_with_children(j, m),
    }
}

pub open spec fn result_view(r: Result<Value, Error>) -> Result<ValueView, ErrorKind> {
    match r {
        Ok(v) => Ok(v.view()),
        Err(e) => Err(e.kind()),
    }
}

/// A copy of an annotation tree.
fn copy_annotation(a: &TypeAnnotation) -> (r: TypeAnnotation)
    ensures
        r.view() == a.view(),
    decreases a,
{
    match a {
        TypeAnnotation::Leaf(n) => TypeAnnotation::Leaf(n.clone()),
        TypeAnnotation::Node(n, c) => {
            let out = copy_entries(c);
            let r = TypeAnnotation::Node(n.clone(), out);
            assert(r.view()->Node_1 =~= a.view()->Node_1);
            r
        },
    }
}

/// A copy of a path-keyed list of annotations.
fn copy_entries(c: &Vec<(String, TypeAnnotation)>) -> (r: Vec<(String, TypeAnnotation)>)
    ensures
        r@.len() == c@.len(),
        forall|j: int| 0 <= j < c@.len() ==> (#[trigger] r@[j]).0@ == c@[j].0@ && r@[j].1.view() == c@[j].1.view(),
    decreases c,
{
    let mut out: Vec<(String, TypeAnnotation)> = Vec::new();
    let mut i: usize = 0;
    while i < c.len()
        invariant
            i <= c@.len(),
            out@.len() == i,
            forall|j: int| 0 <= j < i ==> (#[trigger] out@[j]).0@ == c@[j].0@ && out@[j].1.view() == c@[j].1.view(),
        decreases c@.len() - i,
    {
        let t = copy_annotation(&c[i].1);
        out.push((c[i].0.clone(), t));
        i = i + 1;
    }
    out
}

/// The annotation of the first entry at path `key`.
fn find_child<'a>(children: &'a Vec<(String, TypeAnnotation)>, key: &String) -> (r: Option<&'a TypeAnnotation>)
    ensures
        lookup(entries_view(children@), key@) == (match r { Some(a) => Some(a.view()), None => None::<AnnView> }),
{
    let ghost m = entries_view(children@);
    let mut i: usize = 0;
    assert(m.take(0) =~= Seq::<(Seq<char>, AnnView)>::empty());
    while i < children.len()
        invariant
            i <= children@.len(),
            m == entries_view(children@),
            lookup(m.take(i as int), key@) is None,
        decreases children@.len() - i,
    {
        assert(m.take(i + 1).drop_last() =~= m.take(i as int));
        assert(m.take(i + 1).last() == m[i as int]);
        if children[i].0 == *key {
            proof {
                lemma_lookup_append(m.take(i + 1), m.skip(i + 1), key@);
                assert(m.take(i + 1) + m.skip(i + 1) =~= m);
            }
            return Some(&children[i].1);
        }
        i = i + 1;
    }
    assert(m.take(children@.len() as int) =~= m);
    None
}

/// `p` is a prefix of `s`.
fn starts_with(s: &Vec<char>, p: &Vec<char>) -> (r: bool)
    ensures
        r == p@.is_prefix_of(s@),
{
    if p.len() > s.len() {
        return false;
    }
    let mut i: usize = 0;
    while i < p.len()
        invariant
            p@.len() <= s@.len(),
            i <= p@.len(),
            forall|j: int| 0 <= j < i ==> p@[j] == s@[j],
        decreases p@.len() - i,
    {
        if p[i] != s[i] {
            assert(p@[i as int] != s@.subrange(0, p@.len() as int)[i as int]);
            return false;
        }
        i = i + 1;
    }
    assert(p@ =~= s@.subrange(0, p@.len() as int));
    true
}

/// The entries whose path starts with `prefix`, prefix taken off.
fn sub_children_of(children: &Vec<(String, TypeAnnotation)>, prefix: &Vec<char>) -> (r: Vec<(String, TypeAnnotation)>)
    ensures
        entries_view(r@) == sub_children(entries_view(children@), prefix@),
{
    let ghost m = entries_view(children@);
    let mut out: Vec<(String, TypeAnnotation)> = Vec::new();
    let mut i: usize = 0;
    assert(m.take(0) =~= Seq::<(Seq<char>, AnnView)>::empty());
    while i < children.len()
        invariant
            i <= children@.len(),
            m == entries_view(children@),
            entries_view(out@) == sub_children(m.take(i as int), prefix@),
        decreases children@.len() - i,
    {
        let cs = chars_of(children[i].0.as_str());
        assert(m.take(i + 1).drop_last() =~= m.take(i as int));
        assert(m.take(i + 1).last() == m[i as int]);
        if starts_with(&cs, prefix) {
            let rest = string_of_range(&cs, prefix.len(), cs.len());
            let t = copy_annotation(&children[i].1);
            let ghost before = out@;
            out.push((rest, t));
            assert(entries_view(out@) =~= entries_view(before).push((rest@, t.view())));
        }
        i = i + 1;
    }
    assert(m.take(children@.len() as int) =~= m);
    out
}

/// The index of the first member named `key`.
fn find_member(members: &Vec<(String, Json)>, key: &String) -> (r: Option<usize>)
    ensures
        match r {
            Some(i) => member_index(json_members_view(members@), key@) == i && i < members@.len(),
            None => member_index(json_members_view(members@), key@) == -1,
        },
{
    let ghost m = json_members_view(members@);
    let mut i: usize = 0;
    while i < members.len()
        invariant
            i <= members@.len(),
            m == json_members_view(members@),
            member_index(m, key@) == member_index_from(m, key@, i as int),
        decreases members@.len() - i,
    {
        if members[i].0 == *key {
            return Some(i);
        }
        i = i + 1;
    }
    None
}

/// The index of the last `c` in `s`, if any.
fn find_last(s: &Vec<char>, c: char) -> (r: Option<usize>)
    ensures
        match r {
            Some(i) => last_index_of(s@, c) == i && i < s@.len(),
            None => last_index_of(s@, c) == -1,
        },
{
    let mut i: usize = s.len();
    assert(s@.take(i as int) =~= s@);
    while i > 0
        invariant
            i <= s@.len(),
            last_index_of(s@, c) == last_index_of(s@.take(i as int), c),
        decreases i,
    {
        assert(s@.take(i as int).last() == s@[i - 1]);
        if s[i - 1] == c {
            return Some(i - 1);
        }
        assert(s@.take(i as int).drop_last() =~= s@.take(i - 1));
        i = i - 1;
    }
    None
}

/// The kind of a JSON node, for error messages.
fn json_kind(json: &Json) -> String {
    match json {
        Json::Null => owned("null"),
        Json::Bool(_) => owned("boolean"),
        Json::Number(_) => owned("number"),
        Json::String(_) => owned("string"),
        Json::Array(_) => owned("array"),
        Json::Object(_) => owned("object"),
    }
}

fn mismatch(path: String, expected: &str, json: &Json) -> (r: Error)
    ensures
        r.kind() == ErrorKind::TypeMismatch,
{
    Error::TypeMismatch { path, expected: owned(expected), actual: json_kind(json) }
}

fn tag_matches(name: &String, tag: String) -> (r: bool)
    ensures
        r == (name@ == tag@),
{
    *name == tag
}

/// Reads a JSON tree with no annotation.
fn deserialize_plain(json: &Json) -> (r: Value)
    ensures
        r.view() == decode_plain(json.view()),
    decreases json,
{
    match json {
        Json::Null => Value::Null,
        Json::Bool(b) => Value::Bool(*b),
        Json::Number(n) => Value::from_f64_bits(*n),
        Json::String(s) => Value::String(s.clone()),
        Json::Array(items) => {
            let vals = plain_items(items);
            let r = Value::Array(vals);
            assert(json.view()->Array_0 =~= jsons_view(items@));
            assert(r.view()->Array_0 =~= decode_plain(json.view())->Array_0);
            r
        },
        Json::Object(members) => {
            let vals = plain_members(members);
            let r = Value::Object(vals);
            assert(json.view()->Object_0 =~= json_members_view(members@));
            assert(r.view()->Object_0 =~= decode_plain(json.view())->Object_0);
            r
        },
    }
}

fn plain_items(items: &Vec<Json>) -> (r: Vec<Value>)
    ensures
        r@.len() == items@.len(),
        forall|i: int| 0 <= i < items@.len() ==> (#[trigger] r@[i]).view() == decode_plain(items@[i].view()),
    decreases items,
{
    let mut out: Vec<Value> = Vec::new();
    let mut i: usize = 0;
    while i < items.len()
        invariant
            i <= items@.len(),
            out@.len() == i,
            forall|j: int| 0 <= j < i ==> (#[trigger] out@[j]).view() == decode_plain(items@[j].view()),
        decreases items@.len() - i,
    {
        out.push(deserialize_plain(&items[i]));
        i = i + 1;
    }
    out
}

fn plain_members(members: &Vec<(String, Json)>) -> (r: Vec<(String, Value)>)
    ensures
        r@.len() == members@.len(),
        forall|i: int| 0 <= i < members@.len() ==> (#[trigger] r@[i]).0@ == members@[i].0@
            && r@[i].1.view() == decode_plain(members@[i].1.view()),
    decreases members,
{
    let mut out: Vec<(String, Value)> = Vec::new();
    let mut i: usize = 0;
    while i < members.len()
        invariant
            i <= members@.len(),
            out@.len() == i,
            forall|j: int| 0 <= j < i ==> (#[trigger] out@[j]).0@ == members@[j].0@
                && out@[j].1.view() == decode_plain(members@[j].1.view()),
        decreases members@.len() - i,
    {
        let v = deserialize_plain(&members[i].1);
        out.push((members[i].0.clone(), v));
        i = i + 1;
    }
    out
}

/// Reads a child at path `key` by the direct entry, else the entries under
/// `key.`, else plainly.
fn deserialize_child(json: &Json, key: &String, children: &Vec<(String, TypeAnnotation)>) -> (r: Result<Value, Error>)
    ensures
        result_view(r) == decode_child(json.view(), key@, entries_view(children@)),
    decreases json, 1nat, 0nat,
{
    match find_child(children, key) {
        Some(ann) => deserialize_annotated(json, ann),
        None => {
            let mut prefix = chars_of(key.as_str());
            prefix.push('.');
            assert(prefix@ =~= key@ + seq!['.']);
            let sub = sub_children_of(children, &prefix);
            assert(entries_view(sub@).len() == sub@.len());
            if sub.len() > 0 {
                deserialize_with_children(json, &sub)
            } else {
                Ok(deserialize_plain(json))
            }
        },
    }
}

/// Reads the items of an array or a set, each at its index.
fn deserialize_items(items: &Vec<Json>, children: &Vec<(String, TypeAnnotation)>) -> (r: Result<Vec<Value>, Error>)
    ensures
        decode_items(jsons_view(items@), entries_view(children@), 0) == (match r {
            Ok(vs) => Ok(values_view(vs@)),
            Err(e) => Err(e.kind()),
        }),
    decreases items, 0nat, 0nat,
{
    let ghost s = jsons_view(items@);
    let ghost m = entries_view(children@);
    let mut out: Vec<Value> = Vec::new();
    let mut i: usize = 0;
    assert(values_view(out@) + Seq::<ValueView>::empty() =~= values_view(out@));
    while i < items.len()
        invariant
            i <= items@.len(),
            s == jsons_view(items@),
            m == entries_view(children@),
            decode_items(s, m, 0) == (match decode_items(s, m, i as int) {
                Ok(rest) => Ok(values_view(out@) + rest),
                Err(e) => Err(e),
            }),
        decreases items@.len() - i,
    {
        let key = index_text(i);
        match deserialize_child(&items[i], &key, children) {
            Ok(x) => {
                let ghost before = values_view(out@);
                out.push(x);
                proof {
                    assert(values_view(out@) =~= before.push(x.view()));
                    match decode_items(s, m, i + 1) {
                        Ok(rest) => {
                            assert(before + (seq![x.view()] + rest) =~= values_view(out@) + rest);
                        },
                        Err(e) => {},
                    }
                }
                i = i + 1;
            },
            Err(e) => {
                return Err(e);
            },
        }
    }
    assert(values_view(out@) + Seq::<ValueView>::empty() =~= values_view(out@));
    Ok(out)
}

/// Reads the members of an object, each at its escaped key.
fn deserialize_members(members: &Vec<(String, Json)>, children: &Vec<(String, TypeAnnotation)>) -> (r: Result<Vec<(String, Value)>, Error>)
    ensures
        decode_members(json_members_view(members@), entries_view(children@), 0) == (match r {
            Ok(vs) => Ok(members_view(vs@)),
            Err(e) => Err(e.kind()),
        }),
    decreases members, 0nat, 0nat,
{
    let ghost s = json_members_view(members@);
    let ghost m = entries_view(children@);
    let mut out: Vec<(String, Value)> = Vec::new();
    let mut i: usize = 0;
    assert(members_view(out@) + Seq::<(Seq<char>, ValueView)>::empty() =~= members_view(out@));
    while i < members.len()
        invariant
            i <= members@.len(),
            s == json_members_view(members@),
            m == entries_view(children@),
            decode_members(s, m, 0) == (match decode_members(s, m, i as int) {
                Ok(rest) => Ok(members_view(out@) + rest),
                Err(e) => Err(e),
            }),
        decreases members@.len() - i,
    {
        let key = escape_key(members[i].0.as_str());
        match deserialize_child(&members[i].1, &key, children) {
            Ok(x) => {
                let ghost before = members_view(out@);
                out.push((members[i].0.clone(), x));
                proof {
                    assert(members_view(out@) =~= before.push((s[i as int].0, x.view())));
                    match decode_members(s, m, i + 1) {
                        Ok(rest) => {
                            assert(before + (seq![(s[i as int].0, x.view())] + rest) =~= members_view(out@) + rest);
                        },
                        Err(e) => {},
                    }
                }
                i = i + 1;
            },
            Err(e) => {
                return Err(e);
            },
        }
    }
    assert(members_view(out@) + Seq::<(Seq<char>, ValueView)>::empty() =~= members_view(out@));
    Ok(out)
}

/// Reads the entries of a map: each a two-element array, key at `i.0`, value at `i.1`.
fn deserialize_entries(items: &Vec<Json>, children: &Vec<(String, TypeAnnotation)>) -> (r: Result<Vec<(Value, Value)>, Error>)
    ensures
        decode_entries(jsons_view(items@), entries_view(children@), 0) == (match r {
            Ok(vs) => Ok(pairs_view(vs@)),
            Err(e) => Err(e.kind()),
        }),
    decreases items, 0nat, 0nat,
{
    let ghost s = jsons_view(items@);
    let ghost m = entries_view(children@);
    let mut out: Vec<(Value, Value)> = Vec::new();
    let mut i: usize = 0;
    assert(pairs_view(out@) + Seq::<(ValueView, ValueView)>::empty() =~= pairs_view(out@));
    while i < items.len()
        invariant
            i <= items@.len(),
            s == jsons_view(items@),
            m == entries_view(children@),
            decode_entries(s, m, 0) == (match decode_entries(s, m, i as int) {
                Ok(rest) => Ok(pairs_view(out@) + rest),
                Err(e) => Err(e),
            }),
        decreases items@.len() - i,
    {
        match &items[i] {
            Json::Array(pair) => {
                assert(s[i as int] == JsonView::Array(jsons_view(pair@))) by {
                    assert(items@[i as int].view()->Array_0 =~= jsons_view(pair@));
                }
                if pair.len() != 2 {
                    return Err(Error::TypeMismatch {
                        path: index_text(i),
                        expected: owned("array of length 2"),
                        actual: json_kind(&items[i]),
                    });
                }
                let key_path = entry_path_text(i, '0');
                let val_path = entry_path_text(i, '1');
                let k = match deserialize_child(&pair[0], &key_path, children) {
                    Ok(k) => k,
                    Err(e) => { return Err(e); },
                };
                let v = match deserialize_child(&pair[1], &val_path, children) {
                    Ok(v) => v,
                    Err(e) => { return Err(e); },
                };
                let ghost before = pairs_view(out@);
                let ghost kv = (k.view(), v.view());
                out.push((k, v));
                proof {
                    assert(pairs_view(out@) =~= before.push(kv));
                    match decode_entries(s, m, i + 1) {
                        Ok(rest) => {
                            assert(before + (seq![kv] + rest) =~= pairs_view(out@) + rest);
                        },
                        Err(e) => {},
                    }
                }
                i = i + 1;
            },
            _ => {
                return Err(mismatch(index_text(i), "array (key-value pair)", &items[i]));
            },
        }
    }
    assert(pairs_view(out@) + Seq::<(ValueView, ValueView)>::empty() =~= pairs_view(out@));
    Ok(out)
}

fn entry_path_text(i: usize, slot: char) -> (r: String)
    ensures
        r@ == entry_path(i as nat, slot),
{
    let mut p = index_text(i);
    p.push('.');
    p.push(slot);
    assert(p@ =~= entry_path(i as nat, slot));
    p
}

/// Reads `/source/flags`; the closing `/` is the last one, after the first character.
fn parse_regexp(s: &String) -> (r: Result<Value, Error>)
    ensures
        result_view(r) == decode_regexp(s@),
{
    let cs = chars_of(s.as_str());
    if cs.len() == 0 || cs[0] != '/' {
        return Err(Error::InvalidRegExp(owned("regexp must start with '/'")));
    }
    match find_last(&cs, '/') {
        Some(k) => {
            if k == 0 {
                return Err(Error::InvalidRegExp(owned("regexp must have closing '/'")));
            }
            let source = string_of_range(&cs, 1, k);
            let flags = string_of_range(&cs, k + 1, cs.len());
            Ok(Value::RegExp { source, flags })
        },
        None => Err(Error::InvalidRegExp(owned("regexp must have closing '/'"))),
    }
}

/// Reads an error from its members `name`, `message` and optional `cause`.
fn deserialize_error(members: &Vec<(String, Json)>, children: &Vec<(String, TypeAnnotation)>) -> (r: Result<Value, Error>)
    ensures
        result_view(r) == decode_error(json_members_view(members@), entries_view(children@)),
    decreases members, 0nat, 0nat,
{
    let ni = find_member(members, &name_key());
    let mi = find_member(members, &message_key());
    let ci = find_member(members, &cause_key());
    let (ni, mi) = match (ni, mi) {
        (Some(ni), Some(mi)) => (ni, mi),
        _ => {
            return Err(Error::TypeMismatch {
                path: String::new(),
                expected: owned("object with name and message"),
                actual: owned("object"),
            });
        },
    };
    let ghost ms = json_members_view(members@);
    match (&members[ni].1, &members[mi].1) {
        (Json::String(name), Json::String(message)) => {
            match ci {
                Some(ci) => {
                    match deserialize_child(&members[ci].1, &cause_key(), children) {
                        Ok(c) => Ok(Value::Error { name: name.clone(), message: message.clone(), cause: Some(Box::new(c)) }),
                        Err(e) => Err(e),
                    }
                },
                None => Ok(Value::Error { name: name.clone(), message: message.clone(), cause: None }),
            }
        },
        _ => Err(Error::TypeMismatch {
            path: String::new(),
            expected: owned("string name and message"),
            actual: owned("object"),
        }),
    }
}

/// Reads a JSON tree against its annotation's tag.
fn deserialize_annotated(json: &Json, annotation: &TypeAnnotation) -> (r: Result<Value, Error>)
    ensures
        result_view(r) == decode_annotated(json.view(), annotation.view()),
    decreases json, 0nat, 0nat,
{
    let name = match annotation {
        TypeAnnotation::Leaf(n) => n,
        TypeAnnotation::Node(n, _) => n,
    };
    let empty: Vec<(String, TypeAnnotation)> = Vec::new();
    let children = match annotation.children() {
        Some(c) => c,
        None => &empty,
    };
    assert(entries_view(children@) =~= annotation.view().inner());
    if tag_matches(name, undefined_tag()) {
        Ok(Value::Undefined)
    } else if tag_matches(name, date_tag()) {
        match json {
            Json::String(s) => match crate::date::Date::parse_rfc3339(s.as_str()) {
                Some(d) => Ok(Value::Date(d)),
                None => Err(Error::InvalidDate(s.clone())),
            },
            _ => Err(mismatch(String::new(), "string for Date", json)),
        }
    } else if tag_matches(name, bigint_tag()) {
        match json {
            Json::String(s) => match crate::bigint::BigInt::from_decimal(s.as_str()) {
                Some(b) => Ok(Value::BigInt(b)),
                None => Err(Error::InvalidBigInt(s.clone())),
            },
            _ => Err(mismatch(String::new(), "string for bigint", json)),
        }
    } else if tag_matches(name, set_tag()) {
        match json {
            Json::Array(items) => {
                assert(json.view()->Array_0 =~= jsons_view(items@));
                match deserialize_items(items, children) {
                    Ok(vs) => {
                        let r = Value::JsSet(vs);
                        assert(r.view()->JsSet_0 =~= values_view(vs@));
                        Ok(r)
                    },
                    Err(e) => Err(e),
                }
            },
            _ => Err(mismatch(String::new(), "array for set", json)),
        }
    } else if tag_matches(name, map_tag()) {
        match json {
            Json::Array(items) => {
                assert(json.view()->Array_0 =~= jsons_view(items@));
                match deserialize_entries(items, children) {
                    Ok(es) => {
                        let r = Value::JsMap(es);
                        assert(r.view()->JsMap_0 =~= pairs_view(es@));
                        Ok(r)
                    },
                    Err(e) => Err(e),
                }
            },
            _ => Err(mismatch(String::new(), "array for map", json)),
        }
    } else if tag_matches(name, number_tag()) {
        match json {
            Json::String(s) => {
                if *s == nan_text() {
                    Ok(Value::NaN)
                } else if *s == infinity_text() {
                    Ok(Value::PosInfinity)
                } else if *s == neg_infinity_text() {
                    Ok(Value::NegInfinity)
                } else if *s == neg_zero_text() {
                    Ok(Value::NegZero)
                } else {
                    Err(Error::TypeMismatch {
                        path: String::new(),
                        expected: owned("NaN, Infinity, -Infinity or -0"),
                        actual: s.clone(),
                    })
                }
            },
            _ => Err(mismatch(String::new(), "string for number", json)),
        }
    } else if tag_matches(name, regexp_tag()) {
        match json {
            Json::String(s) => parse_regexp(s),
            _ => Err(mismatch(String::new(), "string for regexp", json)),
        }
    } else if tag_matches(name, url_tag()) {
        match json {
            Json::String(s) => Ok(Value::Url(s.clone())),
            _ => Err(mismatch(String::new(), "string for url", json)),
        }
    } else if tag_matches(name, error_tag()) {
        match json {
            Json::Object(members) => {
                assert(json.view()->Object_0 =~= json_members_view(members@));
                deserialize_error(members, children)
            },
            _ => Err(mismatch(String::new(), "object for error", json)),
        }
    } else {
        Err(Error::InvalidTypeAnnotation(name.clone()))
    }
}

/// Reads a container whose descendants carry the annotations `children`;
/// any other node is read plainly.
fn deserialize_with_children(json: &Json, children: &Vec<(String, TypeAnnotation)>) -> (r: Result<Value, Error>)
    ensures
        result_view(r) == decode_with_children(json.view(), entries_view(children@)),
    decreases json, 0nat, 0nat,
{
    match json {
        Json::Array(items) => {
            assert(json.view()->Array_0 =~= jsons_view(items@));
            match deserialize_items(items, children) {
                Ok(vs) => {
                    let r = Value::Array(vs);
                    assert(r.view()->Array_0 =~= values_view(vs@));
                    Ok(r)
                },
                Err(e) => Err(e),
            }
        },
        Json::Object(members) => {
            assert(json.view()->Object_0 =~= json_members_view(members@));
            match deserialize_members(members, children) {
                Ok(vs) => {
                    let r = Value::Object(vs);
                    assert(r.view()->Object_0 =~= members_view(vs@));
                    Ok(r)
                },
                Err(e) => Err(e),
            }
        },
        _ => Ok(deserialize_plain(json)),
    }
}

/// Decodes an envelope: plainly without `meta.values`, against the root
/// annotation, or against the descendants' annotations.
pub fn deserialize(superjson: &SuperJson) -> (r: Result<Value, Error>)
    ensures
        result_view(r) == decode_spec(superjson.json.view(), meta_values_view(superjson.meta)),
{
    let values = match &superjson.meta {
        Some(m) => match &m.values {
            Some(v) => Some(v),
            None => None,
        },
        None => None,
    };
    match values {
        Some(crate::annotation::AnnotationValues::Root(ann)) => deserialize_annotated(&superjson.json, ann),
        Some(crate::annotation::AnnotationValues::Children(children)) => deserialize_with_children(&superjson.json, children),
        None => Ok(deserialize_plain(&superjson.json)),
    }
}

} // verus!

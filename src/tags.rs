//! The tags of the extended types and the fixed texts of special numbers.
use vstd::prelude::*;

verus! {

pub open spec fn tag_undefined() -> Seq<char> { seq!['u', 'n', 'd', 'e', 'f', 'i', 'n', 'e', 'd'] }
pub open spec fn tag_date() -> Seq<char> { seq!['D', 'a', 't', 'e'] }
pub open spec fn tag_bigint() -> Seq<char> { seq!['b', 'i', 'g', 'i', 'n', 't'] }
pub open spec fn tag_set() -> Seq<char> { seq!['s', 'e', 't'] }
pub open spec fn tag_map() -> Seq<char> { seq!['m', 'a', 'p'] }
pub open spec fn tag_number() -> Seq<char> { seq!['n', 'u', 'm', 'b', 'e', 'r'] }
pub open spec fn tag_regexp() -> Seq<char> { seq!['r', 'e', 'g', 'e', 'x', 'p'] }
pub open spec fn tag_url() -> Seq<char> { seq!['u', 'r', 'l'] }
pub open spec fn tag_error() -> Seq<char> { seq!['e', 'r', 'r', 'o', 'r'] }

pub open spec fn text_nan() -> Seq<char> { seq!['N', 'a', 'N'] }
pub open spec fn text_infinity() -> Seq<char> { seq!['I', 'n', 'f', 'i', 'n', 'i', 't', 'y'] }
pub open spec fn text_neg_infinity() -> Seq<char> { seq!['-', 'I', 'n', 'f', 'i', 'n', 'i', 't', 'y'] }
pub open spec fn text_neg_zero() -> Seq<char> { seq!['-', '0'] }

pub open spec fn key_name() -> Seq<char> { seq!['n', 'a', 'm', 'e'] }
pub open spec fn key_message() -> Seq<char> { seq!['m', 'e', 's', 's', 'a', 'g', 'e'] }
pub open spec fn key_cause() -> Seq<char> { seq!['c', 'a', 'u', 's', 'e'] }

/// A `String` holding `s`.
pub fn owned(s: &str) -> (r: String)
    ensures
        r@ == s@,
{
    s.to_owned()
}

pub fn undefined_tag() -> (r: String) ensures r@ == tag_undefined() {
    proof { reveal_strlit("undefined"); }
    let r = owned("undefined");
    assert(r@ =~= tag_undefined());
    r
}

pub fn date_tag() -> (r: String) ensures r@ == tag_date() {
    proof { reveal_strlit("Date"); }
    let r = owned("Date");
    assert(r@ =~= tag_date());
    r
}

pub fn bigint_tag() -> (r: String) ensures r@ == tag_bigint() {
    proof { reveal_strlit("bigint"); }
    let r = owned("bigint");
    assert(r@ =~= tag_bigint());
    r
}

pub fn set_tag() -> (r: String) ensures r@ == tag_set() {
    proof { reveal_strlit("set"); }
    let r = owned("set");
    assert(r@ =~= tag_set());
    r
}

pub fn map_tag() -> (r: String) ensures r@ == tag_map() {
    proof { reveal_strlit("map"); }
    let r = owned("map");
    assert(r@ =~= tag_map());
    r
}

pub fn number_tag() -> (r: String) ensures r@ == tag_number() {
    proof { reveal_strlit("number"); }
    let r = owned("number");
    assert(r@ =~= tag_number());
    r
}

pub fn regexp_tag() -> (r: String) ensures r@ == tag_regexp() {
    proof { reveal_strlit("regexp"); }
    let r = owned("regexp");
    assert(r@ =~= tag_regexp());
    r
}

pub fn url_tag() -> (r: String) ensures r@ == tag_url() {
    proof { reveal_strlit("url"); }
    let r = owned("url");
    assert(r@ =~= tag_url());
    r
}

pub fn error_tag() -> (r: String) ensures r@ == tag_error() {
    proof { reveal_strlit("error"); }
    let r = owned("error");
    assert(r@ =~= tag_error());
    r
}

pub fn nan_text() -> (r: String) ensures r@ == text_nan() {
    proof { reveal_strlit("NaN"); }
    let r = owned("NaN");
    assert(r@ =~= text_nan());
    r
}

pub fn infinity_text() -> (r: String) ensures r@ == text_infinity() {
    proof { reveal_strlit("Infinity"); }
    let r = owned("Infinity");
    assert(r@ =~= text_infinity());
    r
}

pub fn neg_infinity_text() -> (r: String) ensures r@ == text_neg_infinity() {
    proof { reveal_strlit("-Infinity"); }
    let r = owned("-Infinity");
    assert(r@ =~= text_neg_infinity());
    r
}

pub fn neg_zero_text() -> (r: String) ensures r@ == text_neg_zero() {
    proof { reveal_strlit("-0"); }
    let r = owned("-0");
    assert(r@ =~= text_neg_zero());
    r
}

pub fn name_key() -> (r: String) ensures r@ == key_name() {
    proof { reveal_strlit("name"); }
    let r = owned("name");
    assert(r@ =~= key_name());
    r
}

pub fn message_key() -> (r: String) ensures r@ == key_message() {
    proof { reveal_strlit("message"); }
    let r = owned("message");
    assert(r@ =~= key_message());
    r
}

pub fn cause_key() -> (r: String) ensures r@ == key_cause() {
    proof { reveal_strlit("cause"); }
    let r = owned("cause");
    assert(r@ =~= key_cause());
    r
}

} // verus!

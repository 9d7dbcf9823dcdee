//! The value model: JSON's types and the extended types that JSON cannot hold.
use vstd::prelude::*;
use crate::bigint::BigInt;
use crate::date::Date;

verus! {

/// A value. `Number` holds the bits of a finite double other than `-0`
/// (`f64::to_bits`); NaN, the infinities and `-0` have variants of their own.
/// Object members keep their order and have distinct keys.
#[derive(Debug, PartialEq)]
pub enum Value {
    Null,
    Bool(bool),
    Number(u64),
    String(String),
    Array(Vec<Value>),
    Object(Vec<(String, Value)>),
    Undefined,
    Date(Date),
    BigInt(BigInt),
    JsSet(Vec<Value>),
    JsMap(Vec<(Value, Value)>),
    NaN,
    PosInfinity,
    NegInfinity,
    NegZero,
    RegExp { source: String, flags: String },
    Url(String),
    Error { name: String, message: String, cause: Option<Box<Value>> },
}

/// The mathematical form of a value: dates as milliseconds since the epoch,
/// big integers as integers.
pub enum ValueView {
    Null,
    Bool(bool),
    Number(u64),
    Str(Seq<char>),
    Array(Seq<ValueView>),
    Object(Seq<(Seq<char>, ValueView)>),
    Undefined,
    Date(int),
    BigInt(int),
    JsSet(Seq<ValueView>),
    JsMap(Seq<(ValueView, ValueView)>),
    NaN,
    PosInfinity,
    NegInfinity,
    NegZero,
    RegExp(Seq<char>, Seq<char>),
    Url(Seq<char>),
    Error(Seq<char>, Seq<char>, Option<Box<ValueView>>),
}

/// The bits of `-0.0`.
pub const NEG_ZERO_BITS: u64 = 0x8000_0000_0000_0000;

/// The exponent field of a double.
pub open spec fn exponent_bits(bits: u64) -> u64 {
    (bits >> 52u64) & 0x7ffu64
}

/// The fraction field of a double.
pub open spec fn fraction_bits(bits: u64) -> u64 {
    bits & 0xf_ffff_ffff_ffffu64
}

/// The bits of a finite double other than `-0`.
pub open spec fn plain_number(bits: u64) -> bool {
    exponent_bits(bits) != 0x7ff && bits != NEG_ZERO_BITS
}

/// The value of the double with these bits.
pub open spec fn number_view(bits: u64) -> ValueView {
    if exponent_bits(bits) == 0x7ff {
        if fraction_bits(bits) != 0 {
            ValueView::NaN
        } else if bits >> 63u64 == 1 {
            ValueView::NegInfinity
        } else {
            ValueView::PosInfinity
        }
    } else if bits == NEG_ZERO_BITS {
        ValueView::NegZero
    } else {
        ValueView::Number(bits)
    }
}

impl ValueView {
    /// Well-formed: numbers are plain, object keys are distinct, regular
    /// expression flags hold no `/`, at every depth.
    pub open spec fn wf(self) -> bool
        decreases self,
    {
        match self {
            ValueView::Number(b) => plain_number(b),
            ValueView::Array(items) => forall|i: int| 0 <= i < items.len() ==> (#[trigger] items[i]).wf(),
            ValueView::JsSet(items) => forall|i: int| 0 <= i < items.len() ==> (#[trigger] items[i]).wf(),
            ValueView::Object(members) => {
                &&& forall|i: int| 0 <= i < members.len() ==> (#[trigger] members[i]).1.wf()
                &&& forall|i: int, j: int| 0 <= i < j < members.len() ==> #[trigger] members[i].0 != #[trigger] members[j].0
            },
            ValueView::JsMap(entries) => forall|i: int|
                0 <= i < entries.len() ==> (#[trigger] entries[i]).0.wf() && entries[i].1.wf(),
            ValueView::RegExp(_, flags) => !flags.contains('/'),
            ValueView::Error(_, _, cause) => match cause {
                Some(c) => c.wf(),
                None => true,
            },
            _ => true,
        }
    }
}

impl Value {
    pub open spec fn view(&self) -> ValueView
        decreases self,
    {
        match self {
            Value::Null => ValueView::Null,
            Value::Bool(b) => ValueView::Bool(*b),
            Value::Number(n) => ValueView::Number(*n),
            Value::String(s) => ValueView::Str(s@),
            Value::Array(items) => ValueView::Array(
                Seq::new(items@.len(), |i: int| if 0 <= i < items@.len() { items@[i].view() } else { ValueView::Null }),
            ),
            Value::Object(members) => ValueView::Object(
                Seq::new(
                    members@.len(),
                    |i: int| if 0 <= i < members@.len() { (members@[i].0@, members@[i].1.view()) } else { (Seq::empty(), ValueView::Null) },
                ),
            ),
            Value::Undefined => ValueView::Undefined,
            Value::Date(d) => ValueView::Date(d.millis()),
            Value::BigInt(b) => ValueView::BigInt(b.value()),
            Value::JsSet(items) => ValueView::JsSet(
                Seq::new(items@.len(), |i: int| if 0 <= i < items@.len() { items@[i].view() } else { ValueView::Null }),
            ),
            Value::JsMap(entries) => ValueView::JsMap(
                Seq::new(
                    entries@.len(),
                    |i: int| if 0 <= i < entries@.len() { (entries@[i].0.view(), entries@[i].1.view()) } else { (ValueView::Null, ValueView::Null) },
                ),
            ),
            Value::NaN => ValueView::NaN,
            Value::PosInfinity => ValueView::PosInfinity,
            Value::NegInfinity => ValueView::NegInfinity,
            Value::NegZero => ValueView::NegZero,
            Value::RegExp { source, flags } => ValueView::RegExp(source@, flags@),
            Value::Url(u) => ValueView::Url(u@),
            Value::Error { name, message, cause } => ValueView::Error(
                name@,
                message@,
                match cause {
                    Some(c) => Some(Box::new(c.view())),
                    None => None,
                },
            ),
        }
    }

    /// The value of the double with bits `bits`: NaN, an infinity and `-0`
    /// go to their own variants.
    pub fn from_f64_bits(bits: u64) -> (r: Value)
        ensures
            r.view() == number_view(bits),
    {
        let exponent = (bits >> 52u64) & 0x7ffu64;
        let fraction = bits & 0xf_ffff_ffff_ffffu64;
        if exponent == 0x7ff {
            if fraction != 0 {
                Value::NaN
            } else if bits >> 63u64 == 1 {
                Value::NegInfinity
            } else {
                Value::PosInfinity
            }
        } else if bits == NEG_ZERO_BITS {
            Value::NegZero
        } else {
            Value::Number(bits)
        }
    }

    pub fn is_null(&self) -> (r: bool)
        ensures
            r == (self is Null),
    {
        matches!(self, Value::Null)
    }

    pub fn is_undefined(&self) -> (r: bool)
        ensures
            r == (self is Undefined),
    {
        matches!(self, Value::Undefined)
    }

    pub fn as_bool(&self) -> (r: Option<bool>)
        ensures
            r == (match self { Value::Bool(b) => Some(*b), _ => None::<bool> }),
    {
        match self {
            Value::Bool(b) => Some(*b),
            _ => None,
        }
    }

    /// The bits of the double, for a number.
    pub fn as_f64_bits(&self) -> (r: Option<u64>)
        ensures
            r == (match self { Value::Number(n) => Some(*n), _ => None::<u64> }),
    {
        match self {
            Value::Number(n) => Some(*n),
            _ => None,
        }
    }

    pub fn as_str(&self) -> (r: Option<&str>)
        ensures
            r is Some <==> self is String,
            r matches Some(s) ==> self.view() == ValueView::Str(s@),
    {
        match self {
            Value::String(s) => Some(s.as_str()),
            _ => None,
        }
    }

    pub fn as_array(&self) -> (r: Option<&Vec<Value>>)
        ensures
            r is Some <==> self is Array,
            r matches Some(a) ==> self == Value::Array(*a),
    {
        match self {
            Value::Array(a) => Some(a),
            _ => None,
        }
    }

    pub fn as_object(&self) -> (r: Option<&Vec<(String, Value)>>)
        ensures
            r is Some <==> self is Object,
            r matches Some(o) ==> self == Value::Object(*o),
    {
        match self {
            Value::Object(o) => Some(o),
            _ => None,
        }
    }
}

impl From<bool> for Value {
    fn from(b: bool) -> (r: Value)
        ensures
            r == Value::Bool(b),
    {
        Value::Bool(b)
    }
}

impl vstd::std_specs::convert::FromSpecImpl<bool> for Value {
    open spec fn obeys_from_spec() -> bool {
        true
    }

    open spec fn from_spec(b: bool) -> Value {
        Value::Bool(b)
    }
}

impl From<String> for Value {
    fn from(s: String) -> (r: Value)
        ensures
            r == Value::String(s),
    {
        Value::String(s)
    }
}

impl vstd::std_specs::convert::FromSpecImpl<String> for Value {
    open spec fn obeys_from_spec() -> bool {
        true
    }

    open spec fn from_spec(s: String) -> Value {
        Value::String(s)
    }
}

impl From<BigInt> for Value {
    fn from(n: BigInt) -> (r: Value)
        ensures
            r == Value::BigInt(n),
    {
        Value::BigInt(n)
    }
}

impl vstd::std_specs::convert::FromSpecImpl<BigInt> for Value {
    open spec fn obeys_from_spec() -> bool {
        true
    }

    open spec fn from_spec(n: BigInt) -> Value {
        Value::BigInt(n)
    }
}

impl From<Date> for Value {
    fn from(d: Date) -> (r: Value)
        ensures
            r == Value::Date(d),
    {
        Value::Date(d)
    }
}

impl vstd::std_specs::convert::FromSpecImpl<Date> for Value {
    open spec fn obeys_from_spec() -> bool {
        true
    }

    open spec fn from_spec(d: Date) -> Value {
        Value::Date(d)
    }
}

} // verus!

//! Arbitrary-precision signed integers and their decimal text.
use vstd::prelude::*;
use crate::text::nat_text;

verus! {

/// A signed integer of any size: a sign and base 2^32 limbs, least
/// significant first, with no zero limb at the top and no sign on zero.
#[derive(Debug, PartialEq, Eq)]
pub struct BigInt {
    negative: bool,
    magnitude: Vec<u32>,
}

/// The number that base 2^32 limbs spell, least significant first.
pub open spec fn limbs_value(s: Seq<u32>) -> nat
    decreases s.len(),
{
    if s.len() == 0 {
        0
    } else {
        s[0] as nat + 4294967296 * limbs_value(s.skip(1))
    }
}

/// No zero limb at the top, and no sign on zero.
pub open spec fn canonical(negative: bool, magnitude: Seq<u32>) -> bool {
    &&& (magnitude.len() == 0 || magnitude.last() != 0)
    &&& (negative ==> magnitude.len() > 0)
}

pub open spec fn signed_value(negative: bool, magnitude: nat) -> int {
    if negative { -magnitude } else { magnitude as int }
}

/// Canonical decimal text: a `-` before negative numbers, no leading zeros.
pub open spec fn int_text(n: int) -> Seq<char> {
    if n < 0 {
        seq!['-'] + nat_text((-n) as nat)
    } else {
        nat_text(n as nat)
    }
}

/// The integer that num-bigint reads from decimal text, if any.
pub uninterp spec fn bigint_parse(s: Seq<char>) -> Option<int>;

/// Relies on num-bigint's `Display` for `BigInt` (built with `BigInt::from_slice`):
/// a `-` for negative numbers, then the decimal digits of the magnitude, which
/// `BigInt::from_str` reads back.
#[verifier::external_body]
fn write_decimal(negative: bool, magnitude: &Vec<u32>) -> (r: String)
    ensures
        r@ == int_text(signed_value(negative, limbs_value(magnitude@))),
        bigint_parse(r@) == Some(signed_value(negative, limbs_value(magnitude@))),
{
    let sign = if negative { num_bigint::Sign::Minus } else { num_bigint::Sign::Plus };
    num_bigint::BigInt::from_slice(sign, magnitude).to_string()
}

/// Relies on num-bigint's `BigInt::from_str` (radix 10) and `to_u32_digits`,
/// whose limbs carry no zero at the top and whose sign is `Minus` only below zero.
#[verifier::external_body]
fn read_decimal(s: &str) -> (r: Option<(bool, Vec<u32>)>)
    ensures
        r is None <==> bigint_parse(s@) is None,
        r matches Some((neg, mag)) ==> canonical(neg, mag@),
        r matches Some((neg, mag)) ==> bigint_parse(s@) == Some(signed_value(neg, limbs_value(mag@))),
{
    s.parse::<num_bigint::BigInt>().ok().map(|n| {
        let (sign, mag) = n.to_u32_digits();
        (sign == num_bigint::Sign::Minus, mag)
    })
}

impl BigInt {
    #[verifier::type_invariant]
    spec fn inv(&self) -> bool {
        canonical(self.negative, self.magnitude@)
    }

    /// The integer.
    pub closed spec fn value(&self) -> int {
        signed_value(self.negative, limbs_value(self.magnitude@))
    }

    /// The integer `n`.
    pub fn from_i64(n: i64) -> (r: BigInt)
        ensures
            r.value() == n,
    {
        let negative = n < 0;
        let m: u64 = if negative { (0i128 - n as i128) as u64 } else { n as u64 };
        let lo = (m % 4294967296) as u32;
        let hi = (m / 4294967296) as u32;
        let mut magnitude: Vec<u32> = Vec::new();
        if m > 0 {
            magnitude.push(lo);
        }
        if hi > 0 {
            magnitude.push(hi);
        }
        proof {
            let s = magnitude@;
            assert(canonical(negative && m > 0, s));
            if m == 0 {
                assert(limbs_value(s) == 0);
            } else if hi == 0 {
                assert(s.skip(1) =~= Seq::<u32>::empty());
                assert(limbs_value(Seq::<u32>::empty()) == 0);
                assert(limbs_value(s) == lo as nat);
            } else {
                assert(s.skip(1) =~= seq![hi]);
                assert(seq![hi].skip(1) =~= Seq::<u32>::empty());
                assert(limbs_value(Seq::<u32>::empty()) == 0);
                assert(limbs_value(seq![hi]) == hi as nat);
                assert(limbs_value(s) == lo as nat + 4294967296 * (hi as nat));
            }
        }
        BigInt { negative: negative && m > 0, magnitude }
    }

    /// Reads decimal text as num-bigint does; `None` where it is not a number.
    pub fn from_decimal(s: &str) -> (r: Option<BigInt>)
        ensures
            r is None <==> bigint_parse(s@) is None,
            r matches Some(b) ==> bigint_parse(s@) == Some(b.value()),
    {
        match read_decimal(s) {
            Some((negative, magnitude)) => Some(BigInt { negative, magnitude }),
            None => None,
        }
    }

    /// The canonical decimal text.
    pub fn to_decimal(&self) -> (r: String)
        ensures
            r@ == int_text(self.value()),
            bigint_parse(r@) == Some(self.value()),
    {
        write_decimal(self.negative, &self.magnitude)
    }
}

} // verus!

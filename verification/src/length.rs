//! Lengths as whole micrometers.

use vstd::prelude::*;
use vstd::string::*;

use crate::decimal::{signed_decimal, signed_decimal_string};

verus! {

/// A length stored as an integer number of micrometers.
///
/// Construct values with [`Length::um`], [`Length::mm`], [`Length::cm`], or
/// [`Length::m`], or as `100.um()` / `5.mm()` / `2.cm()` / `1.m()` via
/// [`ToLength`]. Internal resolution is micrometers (`i128`).
#[derive(Debug, Clone, Copy, PartialEq, Eq, Structural, PartialOrd, Ord, Hash)]
pub struct Length {
    um: i128,
}

/// Micrometers per millimeter.
pub const UM_PER_MM: i128 = 1_000;

/// Micrometers per centimeter.
pub const UM_PER_CM: i128 = 10_000;

/// Micrometers per meter.
pub const UM_PER_M: i128 = 1_000_000;

impl View for Length {
    type V = int;

    /// The length in micrometers.
    closed spec fn view(&self) -> int {
        self.um as int
    }
}

/// The length of `um` micrometers, for `um` in the range of `i128`.
pub closed spec fn length_of(um: int) -> Length {
    Length { um: um as i128 }
}

/// Whether `v` micrometers can be stored in a [`Length`].
pub open spec fn in_length_range(v: int) -> bool {
    i128::MIN <= v <= i128::MAX
}

/// Quotient of `a` by `b` rounded toward zero, as Rust's integer `/` does.
pub open spec fn trunc_div(a: int, b: int) -> int {
    if a >= 0 && b > 0 {
        a / b
    } else if a < 0 && b < 0 {
        (-a) / (-b)
    } else if a < 0 {
        -((-a) / b)
    } else {
        -(a / (-b))
    }
}

/// Halving twice a length gives that length back: a circle or sphere made
/// from a diameter of twice a radius has exactly that radius.
pub proof fn lemma_halve_twice(um: int)
    ensures
        trunc_div(2 * um, 2) == um,
{
}

/// Two lengths are equal exactly when they hold the same number of micrometers.
pub broadcast proof fn lemma_length_view_injective(a: Length, b: Length)
    ensures
        #![trigger a@, b@]
        (a@ == b@) == (a == b),
{
}

/// A length built from `um` micrometers holds `um`.
pub broadcast proof fn lemma_length_of_view(um: int)
    requires
        in_length_range(um),
    ensures
        #[trigger] length_of(um)@ == um,
{
}

/// Every length holds a number of micrometers in the range of `i128`.
pub broadcast proof fn lemma_length_in_range(a: Length)
    ensures
        #[trigger] in_length_range(a@),
{
}

pub broadcast group group_length {
    lemma_length_view_injective,
    lemma_length_of_view,
    lemma_length_in_range,
}

impl Length {
    /// The zero length.
    pub fn zero() -> (r: Length)
        ensures
            r@ == 0,
    {
        Length { um: 0 }
    }

    /// A length of `um` micrometers.
    pub fn um(um: i128) -> (r: Length)
        ensures
            r@ == um,
    {
        Length { um }
    }

    /// A length of `mm` millimeters.
    pub fn mm(mm: i64) -> (r: Length)
        ensures
            r@ == mm * 1000,
    {
        Length { um: mm as i128 * UM_PER_MM }
    }

    /// A length of `cm` centimeters.
    pub fn cm(cm: i64) -> (r: Length)
        ensures
            r@ == cm * 10_000,
    {
        Length { um: cm as i128 * UM_PER_CM }
    }

    /// A length of `m` meters.
    pub fn m(m: i64) -> (r: Length)
        ensures
            r@ == m * 1_000_000,
    {
        Length { um: m as i128 * UM_PER_M }
    }

    /// Half of this length, rounded toward zero to whole micrometers.
    pub fn halved(self) -> (r: Length)
        ensures
            r@ == trunc_div(self@, 2),
    {
        proof {
            assert(in_length_range(trunc_div(self@, 2)));
        }
        self / 2i64
    }

    /// This length in micrometers.
    pub fn as_um(self) -> (r: i128)
        ensures
            r == self@,
    {
        self.um
    }

    /// The text of this length: whole millimeters as `"<n> mm"`, otherwise
    /// micrometers as `"<n> µm"`.
    pub fn to_string(&self) -> (s: String)
        ensures
            s@ == length_text(self@),
    {
        if self.um % UM_PER_MM == 0 {
            let mut s = signed_decimal_string(self.um / UM_PER_MM);
            proof {
                reveal_strlit(" mm");
                assert(self.um / UM_PER_MM == trunc_div(self@, 1000));
            }
            s.append(" mm");
            s
        } else {
            let mut s = signed_decimal_string(self.um);
            proof {
                reveal_strlit(" \u{b5}m");
            }
            s.append(" \u{b5}m");
            s
        }
    }
}

/// The text of a length of `um` micrometers.
pub open spec fn length_text(um: int) -> Seq<char> {
    if um % 1000 == 0 {
        signed_decimal(um / 1000) + seq![' ', 'm', 'm']
    } else {
        signed_decimal(um) + seq![' ', '\u{b5}', 'm']
    }
}

impl Default for Length {
    fn default() -> (r: Length)
        ensures
            r@ == 0,
    {
        Length::zero()
    }
}

impl core::ops::Add for Length {
    type Output = Length;

    fn add(self, rhs: Length) -> (r: Length)
        ensures
            r@ == self@ + rhs@,
    {
        Length { um: self.um + rhs.um }
    }
}

impl vstd::std_specs::ops::AddSpecImpl for Length {
    open spec fn obeys_add_spec() -> bool {
        true
    }

    open spec fn add_req(self, rhs: Length) -> bool {
        in_length_range(self@ + rhs@)
    }

    open spec fn add_spec(self, rhs: Length) -> Length {
        length_of(self@ + rhs@)
    }
}

impl core::ops::AddAssign for Length {
    fn add_assign(&mut self, rhs: Length)
        requires
            in_length_range(old(self)@ + rhs@),
        ensures
            final(self)@ == old(self)@ + rhs@,
    {
        *self = *self + rhs;
    }
}

impl core::ops::Sub for Length {
    type Output = Length;

    fn sub(self, rhs: Length) -> (r: Length)
        ensures
            r@ == self@ - rhs@,
    {
        Length { um: self.um - rhs.um }
    }
}

impl vstd::std_specs::ops::SubSpecImpl for Length {
    open spec fn obeys_sub_spec() -> bool {
        true
    }

    open spec fn sub_req(self, rhs: Length) -> bool {
        in_length_range(self@ - rhs@)
    }

    open spec fn sub_spec(self, rhs: Length) -> Length {
        length_of(self@ - rhs@)
    }
}

impl core::ops::SubAssign for Length {
    fn sub_assign(&mut self, rhs: Length)
        requires
            in_length_range(old(self)@ - rhs@),
        ensures
            final(self)@ == old(self)@ - rhs@,
    {
        *self = *self - rhs;
    }
}

impl core::ops::Neg for Length {
    type Output = Length;

    fn neg(self) -> (r: Length)
        ensures
            r@ == -self@,
    {
        Length { um: -self.um }
    }
}

impl vstd::std_specs::ops::NegSpecImpl for Length {
    open spec fn obeys_neg_spec() -> bool {
        true
    }

    open spec fn neg_req(self) -> bool {
        in_length_range(-self@)
    }

    open spec fn neg_spec(self) -> Length {
        length_of(-self@)
    }
}

impl core::ops::Mul<i64> for Length {
    type Output = Length;

    fn mul(self, rhs: i64) -> (r: Length)
        ensures
            r@ == self@ * rhs,
    {
        Length { um: self.um * rhs as i128 }
    }
}

impl vstd::std_specs::ops::MulSpecImpl<i64> for Length {
    open spec fn obeys_mul_spec() -> bool {
        true
    }

    open spec fn mul_req(self, rhs: i64) -> bool {
        in_length_range(self@ * rhs)
    }

    open spec fn mul_spec(self, rhs: i64) -> Length {
        length_of(self@ * rhs)
    }
}

impl core::ops::Mul<Length> for i64 {
    type Output = Length;

    fn mul(self, rhs: Length) -> (r: Length)
        ensures
            r@ == self * rhs@,
    {
        proof {
            assert(self * rhs@ == rhs@ * self) by (nonlinear_arith);
        }
        rhs * self
    }
}

impl vstd::std_specs::ops::MulSpecImpl<Length> for i64 {
    open spec fn obeys_mul_spec() -> bool {
        true
    }

    open spec fn mul_req(self, rhs: Length) -> bool {
        in_length_range(self * rhs@)
    }

    open spec fn mul_spec(self, rhs: Length) -> Length {
        length_of(self * rhs@)
    }
}

impl core::ops::Div<i64> for Length {
    type Output = Length;

    fn div(self, rhs: i64) -> (r: Length)
        ensures
            r@ == trunc_div(self@, rhs as int),
    {
        let d: i128 = rhs as i128;
        let a: i128 = self.um;
        proof {
            if a == i128::MIN && d == -1 {
                assert(trunc_div(a as int, d as int) == (-(a as int)) / 1);
            }
        }
        let q: i128 = match a.checked_div(d) {
            Some(q) => q,
            None => 0,
        };
        Length { um: q }
    }
}

impl vstd::std_specs::ops::DivSpecImpl<i64> for Length {
    open spec fn obeys_div_spec() -> bool {
        true
    }

    open spec fn div_req(self, rhs: i64) -> bool {
        rhs != 0 && in_length_range(trunc_div(self@, rhs as int))
    }

    open spec fn div_spec(self, rhs: i64) -> Length {
        length_of(trunc_div(self@, rhs as int))
    }
}

/// Conversion from a bare number into a [`Length`] with an explicit unit.
pub trait ToLength {
    fn um(self) -> Length;

    fn mm(self) -> Length;

    fn cm(self) -> Length;

    fn m(self) -> Length;
}

impl ToLength for i64 {
    fn um(self) -> (r: Length)
        ensures
            r@ == self,
    {
        Length::um(self as i128)
    }

    fn mm(self) -> (r: Length)
        ensures
            r@ == self * 1000,
    {
        Length::mm(self)
    }

    fn cm(self) -> (r: Length)
        ensures
            r@ == self * 10_000,
    {
        Length::cm(self)
    }

    fn m(self) -> (r: Length)
        ensures
            r@ == self * 1_000_000,
    {
        Length::m(self)
    }
}

} // verus!

//! Output colors, one byte for each channel, and range limiting of channel
//! values.

use crate::decimal::{decimal, push_decimal};
use std::cmp::Ordering;
use vstd::prelude::*;
use vstd::std_specs::cmp::PartialOrdSpec;

verus! {

/// What [`clamp`] returns, over the order that `partial_cmp` gives: `min`
/// where `val` is below it, else `max` where `val` is above it, else `val`.
/// Where `val` cannot be compared with a bound, that bound does not apply.
pub open spec fn clamp_spec<T: PartialOrd>(val: T, min: T, max: T) -> T {
    if val.partial_cmp_spec(&min) == Some(Ordering::Less) {
        min
    } else if val.partial_cmp_spec(&max) == Some(Ordering::Greater) {
        max
    } else {
        val
    }
}

/// Whether `r` can come of limiting `val` to the range from `min` to `max`,
/// over what `<` and `>` answer: `min` where `val < min`, else `max` where
/// `val > max`, else `val`.
pub open spec fn clamped<T: PartialOrd>(val: T, min: T, max: T, r: T) -> bool {
    exists|below: bool|
        {
            &&& #[trigger] call_ensures(T::lt, (&val, &min), below)
            &&& below ==> r == min
            &&& !below ==> exists|above: bool|
                {
                    &&& #[trigger] call_ensures(T::gt, (&val, &max), above)
                    &&& above ==> r == max
                    &&& !above ==> r == val
                }
        }
}

/// Limits `val` to the range from `min` to `max`.
pub fn clamp<T: PartialOrd>(val: T, min: T, max: T) -> (r: T)
    ensures
        clamped(val, min, max, r),
        T::obeys_partial_cmp_spec() ==> r == clamp_spec(val, min, max),
{
    if val < min {
        min
    } else if val > max {
        max
    } else {
        val
    }
}

/// A color as it is written out: red, green and blue, one byte each.
#[derive(Clone, Copy, Debug, PartialEq, Eq, Structural)]
pub struct Rgb {
    pub r: u8,
    pub g: u8,
    pub b: u8,
}

impl Rgb {
    /// The three channels in the order in which they are written.
    pub open spec fn bytes(self) -> Seq<u8> {
        seq![self.r, self.g, self.b]
    }

    /// The three channels as decimal numerals with a space between them.
    pub open spec fn text(self) -> Seq<char> {
        decimal(self.r as nat) + seq![' '] + decimal(self.g as nat) + seq![' '] + decimal(
            self.b as nat,
        )
    }

    pub fn new(r: u8, g: u8, b: u8) -> (c: Rgb)
        ensures
            c == (Rgb { r, g, b }),
    {
        Rgb { r, g, b }
    }

    pub fn black() -> (c: Rgb)
        ensures
            c == (Rgb { r: 0, g: 0, b: 0 }),
    {
        Rgb { r: 0, g: 0, b: 0 }
    }

    pub fn white() -> (c: Rgb)
        ensures
            c == (Rgb { r: 255, g: 255, b: 255 }),
    {
        Rgb { r: 255, g: 255, b: 255 }
    }

    /// The three channels in the order in which they are written.
    pub fn as_bytes(&self) -> (r: [u8; 3])
        ensures
            r@ == self.bytes(),
    {
        let r = [self.r, self.g, self.b];
        assert(r@ =~= self.bytes());
        r
    }

    /// The three channels as decimal numerals with a space between them.
    pub fn to_text(&self) -> (r: String)
        ensures
            r@ == self.text(),
    {
        proof {
            reveal_strlit(" ");
        }
        let mut out = String::new();
        push_decimal(&mut out, self.r as u32);
        out.append(" ");
        push_decimal(&mut out, self.g as u32);
        out.append(" ");
        push_decimal(&mut out, self.b as u32);
        assert(out@ =~= self.text());
        out
    }
}

} // verus!

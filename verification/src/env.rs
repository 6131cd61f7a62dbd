//! What the value of an environment variable means.
//!
//! An empty value is a value: `FOO=` is how a shell clears something it has
//! already exported, and it means "set to nothing", not "unset".
use vstd::prelude::*;

use crate::text;
use crate::text::{parse_u64, same};

verus! {

pub open spec fn number(value: Option<Seq<char>>, default: u64) -> u64 {
    match value {
        Some(v) => match text::natural_u64(v) {
            Some(n) => n,
            None => default,
        },
        None => default,
    }
}

/// A numeric variable, or `default` when it is unset or unparseable.
///
/// Unparseable takes the default rather than failing: these are all tuning
/// knobs, and a typo in one should not stop the picker opening.
pub fn num(value: Option<&str>, default: u64) -> (r: u64)
    ensures
        r == number(text::opt(value), default),
{
    match value {
        Some(v) => match parse_u64(v) {
            Some(n) => n,
            None => default,
        },
        None => default,
    }
}

/// Whether a variable is set to exactly `want`.
///
/// The two shapes in use are "on unless it says 0" and "off unless it says 1",
/// which read as `!is(x, "0")` and `is(x, "1")`.
pub fn is(value: Option<&str>, want: &str) -> (r: bool)
    ensures
        r == (text::opt(value) == Some(want@)),
{
    match value {
        Some(v) => same(v, want),
        None => false,
    }
}

/// A boolean knob that is ON unless it is explicitly turned off with `0`.
pub fn on(value: Option<&str>) -> (r: bool)
    ensures
        r == (text::opt(value) != Some("0"@)),
{
    let off = self::is(value, "0");
    !off
}

} // verus!

//! The text of one report line: a size field, raw or human-readable, then the path.

use crate::text::{decimal, decimal_string, pad_left, padded};
use vstd::prelude::*;
use vstd::string::*;

verus! {

/// The unit prefixes of a human-readable size.
#[derive(Clone, Copy, PartialEq, Eq, Debug)]
pub enum UnitSystem {
    /// Powers of 1024: KiB, MiB and so on.
    Binary,
    /// Powers of 1000: kB, MB and so on.
    Decimal,
}

/// The least width of the size field, in characters.
pub const FIELD_WIDTH: usize = 10;

/// The number of decimal places of a human-readable size that has a fraction.
pub const DECIMAL_PLACES: usize = 1;

/// The most decimal places that a size is written with: a 64-bit float holds
/// no more significant digits than that.
pub const MAX_PLACES: usize = 15;

/// What `humansize::format_size` writes for a size, with the crate's options
/// for the unit system and with the given number of decimal places.
pub uninterp spec fn humanized(size: u64, units: UnitSystem, places: nat) -> Seq<char>;

/// Calls `humansize::format_size` with the crate's `BINARY` or `DECIMAL`
/// options, their `decimal_places` set to `places`. The contract only names
/// what comes back: nothing is proved of the text itself.
#[verifier::external_body]
fn humanize(size: u64, units: UnitSystem, places: usize) -> (text: String)
    requires
        places <= MAX_PLACES,
    ensures
        text@ == humanized(size, units, places as nat),
{
    let options = match units {
        UnitSystem::Binary => humansize::BINARY,
        UnitSystem::Decimal => humansize::DECIMAL,
    };
    humansize::format_size(size, options.decimal_places(places))
}

/// The size field before padding: the decimal numeral of the byte count, or
/// the human-readable size.
pub open spec fn size_field(size: u64, raw_bytes: bool, units: UnitSystem) -> Seq<char> {
    if raw_bytes {
        decimal(size as nat)
    } else {
        humanized(size, units, DECIMAL_PLACES as nat)
    }
}

/// A report line: the size field padded on its left to `FIELD_WIDTH`, a
/// space, the path.
pub open spec fn line_text(size: u64, path: Seq<char>, raw_bytes: bool, units: UnitSystem) -> Seq<
    char,
> {
    padded(size_field(size, raw_bytes, units), FIELD_WIDTH as nat) + seq![' '] + path
}

/// Lays out a line from a size field that is already written.
pub fn layout_line(field: &str, path: &str) -> (line: String)
    ensures
        line@ == padded(field@, FIELD_WIDTH as nat) + seq![' '] + path@,
{
    let mut line = pad_left(field, FIELD_WIDTH);
    line.push(' ');
    line.append(path);
    assert(padded(field@, FIELD_WIDTH as nat).push(' ') =~= padded(field@, FIELD_WIDTH as nat)
        + seq![' ']);
    line
}

/// Writes the line of one entry.
pub fn format_line(size: u64, path: &str, raw_bytes: bool, units: UnitSystem) -> (line: String)
    ensures
        line@ == line_text(size, path@, raw_bytes, units),
{
    let field = if raw_bytes {
        decimal_string(size)
    } else {
        humanize(size, units, DECIMAL_PLACES)
    };
    layout_line(field.as_str(), path)
}

} // verus!

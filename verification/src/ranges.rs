//! Inclusive assignment ranges and their containment and overlap tests.
use vstd::prelude::*;

use crate::text::{all_digits, chars_of, dec_val, parse_u8, split_raw, split_fields};

verus! {

#[derive(Clone, Copy, PartialEq, Eq, Structural, Debug)]
pub struct Range {
    pub start: u8,
    pub end: u8,
}

/// Whether a field spells a `u8` decimal number.
pub open spec fn is_u8_numeral(t: Seq<char>) -> bool {
    t.len() > 0 && all_digits(t) && dec_val(t) <= u8::MAX
}

/// What parsing `<start>-<end>` yields: the last two `-`-separated fields are
/// read as end and start; a string with fewer than two fields, or fields that
/// are not `u8` numerals, yields nothing.
pub open spec fn spec_parse_range(s: Seq<char>) -> Option<Range> {
    let fields = split_raw(s, '-');
    if fields.len() < 2 {
        None
    } else {
        let st = fields[fields.len() - 2];
        let en = fields[fields.len() - 1];
        if is_u8_numeral(st) && is_u8_numeral(en) {
            Some(Range { start: dec_val(st) as u8, end: dec_val(en) as u8 })
        } else {
            None
        }
    }
}

impl Range {
    /// Reads a range written `<start>-<end>`.
    pub fn parse(range_string: &str) -> (r: Option<Range>)
        ensures
            r == spec_parse_range(range_string@),
    {
        let cs = chars_of(range_string);
        let fields = split_fields(&cs, '-');
        if fields.len() < 2 {
            return None;
        }
        let st = parse_u8(&fields[fields.len() - 2]);
        let en = parse_u8(&fields[fields.len() - 1]);
        match (st, en) {
            (Some(start), Some(end)) => Some(Range { start, end }),
            _ => None,
        }
    }

    /// Whether this range wholly contains `other`.
    pub fn contains(self, other: &Range) -> (r: bool)
        ensures
            r == (self.start <= other.start && self.end >= other.end),
    {
        self.start <= other.start && self.end >= other.end
    }

    /// Whether this range and `other` share at least one value: either one
    /// contains the other, or one of this range's endpoints falls inside
    /// `other`.
    pub fn overlaps(self, other: &Range) -> (r: bool)
        ensures
            r == (self.contains_spec(*other) || other.contains_spec(self) || (self.start
                <= other.start && self.end >= other.start) || (self.start >= other.start
                && self.start <= other.end)),
    {
        let condition1 = self.contains(other);
        let condition2 = other.contains(&self);
        let condition3 = self.start <= other.start && self.end >= other.start;
        let condition4 = self.start >= other.start && self.start <= other.end;
        condition1 || condition2 || condition3 || condition4
    }

    /// Containment, as a predicate.
    pub open spec fn contains_spec(self, other: Range) -> bool {
        self.start <= other.start && self.end >= other.end
    }
}

} // verus!

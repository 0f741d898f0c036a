//! Decisions of the batch driver on the lines of an input file.
use vstd::prelude::*;
use vstd::string::StringSliceAdditionalSpecFns;
use crate::scan::{contains_pat, find_bytes, skip_bytes, skip_class, CharClass};

verus! {

/// What a line of the input holds.
#[derive(Clone, Copy, Debug, PartialEq, Eq, Structural)]
pub enum LineKind {
    /// Only whitespace: skipped without counting.
    Blank,
    /// A line that names a polygon: it is sampled.
    Polygon,
    /// Any other line: recorded as an error.
    NoPolygon,
}

/// `POLYGON`
pub open spec fn polygon_word() -> Seq<u8> {
    seq![80u8, 79, 76, 89, 71, 79, 78]
}

pub open spec fn line_kind_of(s: Seq<u8>) -> LineKind {
    if skip_class(s, 0, s.len() as int, CharClass::Space) == s.len() {
        LineKind::Blank
    } else if contains_pat(s, polygon_word()) {
        LineKind::Polygon
    } else {
        LineKind::NoPolygon
    }
}

/// Sorts a line of the input: blank, naming a polygon (`MULTIPOLYGON`
/// included), or neither.
pub fn line_kind(line: &str) -> (r: LineKind)
    ensures
        r == line_kind_of(line.spec_bytes()),
{
    let b = line.as_bytes();
    let n = b.len();
    if skip_bytes(b, 0, n, CharClass::Space) == n {
        return LineKind::Blank;
    }
    let word: [u8; 7] = [80, 79, 76, 89, 71, 79, 78];
    assert(word@ =~= polygon_word());
    if find_bytes(b, word.as_slice(), 0).is_some() {
        LineKind::Polygon
    } else {
        LineKind::NoPolygon
    }
}

} // verus!

//! Reading a polygon ring out of loosely written `POLYGON((x y, ...))` text.
//!
//! Two strategies are tried in turn. The strict one takes the text between
//! the marker and the first `))` and fails as a whole on any bad pair. The
//! lenient one takes everything after the marker (less a trailing `))`) and
//! skips pairs that do not read as two numbers.
use vstd::prelude::*;
use vstd::string::StringSliceAdditionalSpecFns;
use crate::geometry::{coord_ok, ring_ok, Coord, Polygon};
use crate::scan::{
    find_bytes, find_from, contains_pat, lemma_find_from, lemma_skip_class,
    number_value, parse_number, skip_bytes, skip_class, trim_end, trim_end_bytes, CharClass,
};

verus! {

/// Why a geometry text was refused.
#[derive(Clone, Copy, Debug, PartialEq, Eq, Structural)]
pub enum GeometryError {
    /// The text holds a multi-part geometry.
    UnsupportedGeometry,
    /// The text holds no `POLYGON((` marker.
    MalformedGeometry,
    /// No coordinate pair could be read.
    EmptyGeometry,
}

/// `MULTIPOLYGON`
pub open spec fn multi_marker() -> Seq<u8> {
    seq![77u8, 85, 76, 84, 73, 80, 79, 76, 89, 71, 79, 78]
}

/// `POLYGON((`
pub open spec fn polygon_marker() -> Seq<u8> {
    seq![80u8, 79, 76, 89, 71, 79, 78, 40, 40]
}

/// `))`
pub open spec fn ring_close() -> Seq<u8> {
    seq![41u8, 41]
}

/// Two whitespace-separated numbers, with nothing else but whitespace, in
/// `[lo, hi)`.
pub open spec fn pair_value(s: Seq<u8>, lo: int, hi: int) -> Option<Coord> {
    let a0 = skip_class(s, lo, hi, CharClass::Space);
    let a1 = skip_class(s, a0, hi, CharClass::Word);
    let b0 = skip_class(s, a1, hi, CharClass::Space);
    let b1 = skip_class(s, b0, hi, CharClass::Word);
    if a0 < a1 && b0 < b1 && skip_class(s, b1, hi, CharClass::Space) == hi {
        match (number_value(s, a0, a1), number_value(s, b0, b1)) {
            (Some(x), Some(y)) => Some(Coord { x: x as i64, y: y as i64 }),
            _ => None,
        }
    } else {
        None
    }
}

/// The comma-separated pairs of `[i, hi)`, or `None` if any of them is bad.
pub open spec fn strict_pairs(s: Seq<u8>, i: int, hi: int) -> Option<Seq<Coord>>
    decreases hi - i,
{
    if i > hi {
        None
    } else {
        let j = skip_class(s, i, hi, CharClass::Field);
        proof {
            lemma_skip_class(s, i, hi, CharClass::Field);
        }
        match pair_value(s, i, j) {
            None => None,
            Some(c) => if j >= hi {
                Some(seq![c])
            } else {
                match strict_pairs(s, j + 1, hi) {
                    Some(rest) => Some(seq![c] + rest),
                    None => None,
                }
            },
        }
    }
}

/// The comma-separated pairs of `[i, hi)` that read well; the others are
/// skipped.
pub open spec fn lenient_pairs(s: Seq<u8>, i: int, hi: int) -> Seq<Coord>
    decreases hi - i,
{
    if i > hi {
        seq![]
    } else {
        let j = skip_class(s, i, hi, CharClass::Field);
        proof {
            lemma_skip_class(s, i, hi, CharClass::Field);
        }
        let rest = if j >= hi {
            seq![]
        } else {
            lenient_pairs(s, j + 1, hi)
        };
        match pair_value(s, i, j) {
            Some(c) => seq![c] + rest,
            None => rest,
        }
    }
}

/// Where the ring text begins: just after the first `POLYGON((`, or -1.
pub open spec fn ring_start(s: Seq<u8>) -> int {
    let m = find_from(s, polygon_marker(), 0);
    if m < 0 {
        -1
    } else {
        m + 9
    }
}

/// The strict reading: pairs up to the first `))` after the marker.
pub open spec fn strict_ring(s: Seq<u8>) -> Option<Seq<Coord>> {
    let start = ring_start(s);
    if start < 0 {
        None
    } else {
        let end = find_from(s, ring_close(), start);
        if end < 0 {
            None
        } else {
            strict_pairs(s, start, end)
        }
    }
}

/// The end of the lenient ring text: trailing whitespace and one trailing
/// `))` dropped.
pub open spec fn lenient_end(s: Seq<u8>, start: int) -> int {
    let e = trim_end(s, start, s.len() as int);
    if e - start >= 2 && s[e - 2] == 41 && s[e - 1] == 41 {
        e - 2
    } else {
        e
    }
}

/// The lenient reading: every pair after the marker that reads well.
pub open spec fn lenient_ring(s: Seq<u8>) -> Seq<Coord> {
    let start = ring_start(s);
    if start < 0 {
        seq![]
    } else {
        lenient_pairs(s, start, lenient_end(s, start))
    }
}

/// A ring of two or more coordinates whose ends differ gets its first
/// coordinate appended.
pub open spec fn closed_ring(r: Seq<Coord>) -> Seq<Coord> {
    if r.len() >= 2 && r[0] != r[r.len() - 1] {
        r.push(r[0])
    } else {
        r
    }
}

/// What a geometry text reads as: the exterior ring, or why it is refused.
pub open spec fn geometry_of(s: Seq<u8>) -> Result<Seq<Coord>, GeometryError> {
    if contains_pat(s, multi_marker()) {
        Err(GeometryError::UnsupportedGeometry)
    } else if !contains_pat(s, polygon_marker()) {
        Err(GeometryError::MalformedGeometry)
    } else {
        match strict_ring(s) {
            Some(r) => Ok(closed_ring(r)),
            None => {
                let r = lenient_ring(s);
                if r.len() == 0 {
                    Err(GeometryError::EmptyGeometry)
                } else {
                    Ok(closed_ring(r))
                }
            },
        }
    }
}

pub proof fn lemma_pair_ok(s: Seq<u8>, lo: int, hi: int)
    ensures
        pair_value(s, lo, hi) matches Some(c) ==> coord_ok(c),
{
}

proof fn lemma_strict_ok(s: Seq<u8>, i: int, hi: int)
    ensures
        strict_pairs(s, i, hi) matches Some(r) ==> ring_ok(r),
    decreases hi - i,
{
    if i <= hi {
        let j = skip_class(s, i, hi, CharClass::Field);
        lemma_skip_class(s, i, hi, CharClass::Field);
        lemma_pair_ok(s, i, j);
        if j < hi {
            lemma_strict_ok(s, j + 1, hi);
        }
        if let Some(r) = strict_pairs(s, i, hi) {
            assert forall|k: int| 0 <= k < r.len() implies coord_ok(#[trigger] r[k]) by {
                if k > 0 {
                    let rest = strict_pairs(s, j + 1, hi)->Some_0;
                    assert(r[k] == rest[k - 1]);
                }
            }
        }
    }
}

proof fn lemma_lenient_ok(s: Seq<u8>, i: int, hi: int)
    ensures
        ring_ok(lenient_pairs(s, i, hi)),
    decreases hi - i,
{
    if i <= hi {
        let j = skip_class(s, i, hi, CharClass::Field);
        lemma_skip_class(s, i, hi, CharClass::Field);
        lemma_pair_ok(s, i, j);
        if j < hi {
            lemma_lenient_ok(s, j + 1, hi);
        }
        let r = lenient_pairs(s, i, hi);
        let rest = if j >= hi {
            seq![]
        } else {
            lenient_pairs(s, j + 1, hi)
        };
        assert forall|k: int| 0 <= k < r.len() implies coord_ok(#[trigger] r[k]) by {
            if pair_value(s, i, j) is Some {
                if k > 0 {
                    assert(r[k] == rest[k - 1]);
                }
            } else {
                assert(r[k] == rest[k]);
            }
        }
    }
}

proof fn lemma_closed_ok(r: Seq<Coord>)
    requires
        ring_ok(r),
    ensures
        ring_ok(closed_ring(r)),
{
    let c = closed_ring(r);
    assert forall|k: int| 0 <= k < c.len() implies coord_ok(#[trigger] c[k]) by {
        if k < r.len() {
            assert(c[k] == r[k]);
        } else {
            assert(c[k] == r[0]);
        }
    }
}

/// Every coordinate that a geometry text reads as lies within the range.
pub proof fn lemma_geometry_ok(s: Seq<u8>)
    ensures
        geometry_of(s) matches Ok(r) ==> ring_ok(r),
{
    let start = ring_start(s);
    if start >= 0 {
        let end = find_from(s, ring_close(), start);
        lemma_strict_ok(s, start, end);
        lemma_lenient_ok(s, start, lenient_end(s, start));
        if let Some(r) = strict_ring(s) {
            lemma_closed_ok(r);
        }
        lemma_closed_ok(lenient_ring(s));
    }
}

/// Reads two whitespace-separated numbers from `[lo, hi)`.
pub fn parse_pair(b: &[u8], lo: usize, hi: usize) -> (r: Option<Coord>)
    requires
        lo <= hi <= b@.len(),
    ensures
        r == pair_value(b@, lo as int, hi as int),
{
    let a0 = skip_bytes(b, lo, hi, CharClass::Space);
    proof {
        lemma_skip_class(b@, lo as int, hi as int, CharClass::Space);
    }
    let a1 = skip_bytes(b, a0, hi, CharClass::Word);
    proof {
        lemma_skip_class(b@, a0 as int, hi as int, CharClass::Word);
    }
    let b0 = skip_bytes(b, a1, hi, CharClass::Space);
    proof {
        lemma_skip_class(b@, a1 as int, hi as int, CharClass::Space);
    }
    let b1 = skip_bytes(b, b0, hi, CharClass::Word);
    proof {
        lemma_skip_class(b@, b0 as int, hi as int, CharClass::Word);
    }
    let tail = skip_bytes(b, b1, hi, CharClass::Space);
    if a0 < a1 && b0 < b1 && tail == hi {
        match (parse_number(b, a0, a1), parse_number(b, b0, b1)) {
            (Some(x), Some(y)) => Some(Coord { x, y }),
            _ => None,
        }
    } else {
        None
    }
}

/// Reads the comma-separated pairs of `[lo, hi)`; `None` at the first bad one.
pub fn parse_pairs_strict(b: &[u8], lo: usize, hi: usize) -> (r: Option<Vec<Coord>>)
    requires
        lo <= hi <= b@.len(),
    ensures
        match r {
            Some(v) => strict_pairs(b@, lo as int, hi as int) == Some(v@),
            None => strict_pairs(b@, lo as int, hi as int) is None,
        },
{
    let mut out: Vec<Coord> = Vec::new();
    let mut i = lo;
    loop
        invariant
            lo <= i <= hi <= b@.len(),
            strict_pairs(b@, lo as int, hi as int) == (match strict_pairs(b@, i as int, hi as int) {
                Some(rest) => Some(out@ + rest),
                None => None::<Seq<Coord>>,
            }),
        decreases hi - i,
    {
        let j = skip_bytes(b, i, hi, CharClass::Field);
        proof {
            lemma_skip_class(b@, i as int, hi as int, CharClass::Field);
        }
        match parse_pair(b, i, j) {
            None => {
                return None;
            },
            Some(c) => {
                let ghost before = out@;
                out.push(c);
                if j >= hi {
                    assert(before + seq![c] =~= out@);
                    return Some(out);
                }
                proof {
                    if let Some(rest) = strict_pairs(b@, j + 1, hi as int) {
                        assert(before + (seq![c] + rest) =~= out@ + rest);
                    }
                }
                i = j + 1;
            },
        }
    }
}

/// Reads the comma-separated pairs of `[lo, hi)`, skipping the bad ones.
pub fn parse_pairs_lenient(b: &[u8], lo: usize, hi: usize) -> (r: Vec<Coord>)
    requires
        lo <= hi <= b@.len(),
    ensures
        r@ == lenient_pairs(b@, lo as int, hi as int),
{
    let mut out: Vec<Coord> = Vec::new();
    let mut i = lo;
    loop
        invariant
            lo <= i <= hi <= b@.len(),
            lenient_pairs(b@, lo as int, hi as int) == out@ + lenient_pairs(b@, i as int, hi as int),
        decreases hi - i,
    {
        let j = skip_bytes(b, i, hi, CharClass::Field);
        proof {
            lemma_skip_class(b@, i as int, hi as int, CharClass::Field);
        }
        let ghost before = out@;
        match parse_pair(b, i, j) {
            None => {},
            Some(c) => {
                out.push(c);
            },
        }
        if j >= hi {
            proof {
                if let Some(c) = pair_value(b@, i as int, j as int) {
                    assert(before + (seq![c] + seq![]) =~= out@);
                } else {
                    assert(before + seq![] =~= out@);
                }
            }
            return out;
        }
        proof {
            let rest = lenient_pairs(b@, j + 1, hi as int);
            if let Some(c) = pair_value(b@, i as int, j as int) {
                assert(before + (seq![c] + rest) =~= out@ + rest);
            }
        }
        i = j + 1;
    }
}

/// Appends the first coordinate when a ring of two or more is left open.
pub fn close_ring(ring: &mut Vec<Coord>)
    ensures
        final(ring)@ == closed_ring(old(ring)@),
{
    let n = ring.len();
    if n >= 2 {
        let first = ring[0];
        if first != ring[n - 1] {
            ring.push(first);
        }
    }
}

fn marker_start(b: &[u8]) -> (r: Option<usize>)
    ensures
        match r {
            Some(k) => ring_start(b@) == k as int && k <= b@.len(),
            None => ring_start(b@) == -1,
        },
{
    let n = b.len();
    let marker: [u8; 9] = [80, 79, 76, 89, 71, 79, 78, 40, 40];
    assert(marker@ =~= polygon_marker());
    match find_bytes(b, marker.as_slice(), 0) {
        Some(m) => {
            proof {
                lemma_find_from(b@, polygon_marker(), 0);
                assert(polygon_marker().len() == 9);
                assert(m + 9 <= n);
            }
            Some(m + 9)
        },
        None => None,
    }
}

/// The strict strategy: the pairs between the marker and the first `))`,
/// closed; `None` if any pair there is bad or there is no such text.
pub fn parse_ring_strict(text: &str) -> (r: Option<Vec<Coord>>)
    ensures
        match r {
            Some(v) => strict_ring(text.spec_bytes()) matches Some(ring) && v@ == closed_ring(ring),
            None => strict_ring(text.spec_bytes()) is None,
        },
{
    let b = text.as_bytes();
    let start = match marker_start(b) {
        Some(s) => s,
        None => {
            return None;
        },
    };
    let close: [u8; 2] = [41, 41];
    assert(close@ =~= ring_close());
    let end = match find_bytes(b, close.as_slice(), start) {
        Some(e) => e,
        None => {
            return None;
        },
    };
    proof {
        lemma_find_from(b@, ring_close(), start as int);
    }
    match parse_pairs_strict(b, start, end) {
        Some(mut ring) => {
            close_ring(&mut ring);
            Some(ring)
        },
        None => None,
    }
}

/// The lenient strategy: every pair after the marker that reads as two
/// numbers, closed; `EmptyGeometry` if there is none.
pub fn parse_ring_lenient(text: &str) -> (r: Result<Vec<Coord>, GeometryError>)
    ensures
        match r {
            Ok(v) => lenient_ring(text.spec_bytes()).len() > 0 && v@ == closed_ring(
                lenient_ring(text.spec_bytes()),
            ),
            Err(e) => lenient_ring(text.spec_bytes()).len() == 0 && e
                == GeometryError::EmptyGeometry,
        },
{
    let b = text.as_bytes();
    let start = match marker_start(b) {
        Some(s) => s,
        None => {
            return Err(GeometryError::EmptyGeometry);
        },
    };
    let n = b.len();
    let mut end = trim_end_bytes(b, start, n);
    if end - start >= 2 && b[end - 2] == 41 && b[end - 1] == 41 {
        end = end - 2;
    }
    let mut ring = parse_pairs_lenient(b, start, end);
    if ring.len() == 0 {
        return Err(GeometryError::EmptyGeometry);
    }
    close_ring(&mut ring);
    Ok(ring)
}

/// Reads a polygon from `POLYGON((x y, ...))` text: multi-part geometries
/// are refused, then text without the marker; the strict strategy is tried
/// first and the lenient one after it. The result has no holes.
pub fn parse_geometry(text: &str) -> (r: Result<Polygon, GeometryError>)
    ensures
        match geometry_of(text.spec_bytes()) {
            Ok(ring) => r matches Ok(p) && p.exterior@ == ring && p.interiors@.len() == 0,
            Err(e) => r == Err::<Polygon, GeometryError>(e),
        },
        r matches Ok(p) ==> p.wf() && p.exterior@.len() > 0,
{
    let b = text.as_bytes();
    proof {
        lemma_geometry_ok(b@);
    }
    let multi: [u8; 12] = [77, 85, 76, 84, 73, 80, 79, 76, 89, 71, 79, 78];
    assert(multi@ =~= multi_marker());
    if find_bytes(b, multi.as_slice(), 0).is_some() {
        return Err(GeometryError::UnsupportedGeometry);
    }
    if marker_start(b).is_none() {
        return Err(GeometryError::MalformedGeometry);
    }
    let exterior = match parse_ring_strict(text) {
        Some(ring) => ring,
        None => match parse_ring_lenient(text) {
            Ok(ring) => ring,
            Err(e) => {
                return Err(e);
            },
        },
    };
    Ok(Polygon { exterior, interiors: Vec::new() })
}

} // verus!

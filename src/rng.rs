//! The random source: rand's seedable standard generator, and the offsets
//! drawn from it.
use vstd::prelude::*;
use rand::rngs::StdRng;
use crate::geometry::{squared_length, COORD_LIMIT};

verus! {

#[verifier::external_type_specification]
#[verifier::external_body]
pub struct ExStdRng(StdRng);

/// Relies on rand's `Rng::random_range` over an inclusive range: the value
/// drawn lies in the range; it panics only when the range is empty.
#[verifier::external_body]
pub(crate) fn draw_between(rng: &mut StdRng, lo: i64, hi: i64) -> (r: i64)
    requires
        lo <= hi,
    ensures
        lo <= r <= hi,
{
    rand::Rng::random_range(rng, lo..=hi)
}

/// How many times an offset is drawn before a draw is given up.
pub const OFFSET_TRIES: usize = 16;

/// An offset in the square of half-side `2d` whose length lies in
/// `[d, 2d)`.
pub open spec fn in_annulus(o: (i64, i64), d: int) -> bool {
    &&& -2 * d <= o.0 <= 2 * d
    &&& -2 * d <= o.1 <= 2 * d
    &&& d * d <= o.0 * o.0 + o.1 * o.1 < 4 * (d * d)
}

/// Keeps a drawn offset if its length lies in `[d, 2d)`.
pub fn annulus_pick(dx: i64, dy: i64, d: i64) -> (r: Option<(i64, i64)>)
    requires
        0 < d <= COORD_LIMIT,
        -2 * d <= dx <= 2 * d,
        -2 * d <= dy <= 2 * d,
    ensures
        r == (if d * d <= dx * dx + dy * dy < 4 * (d * d) {
            Some((dx, dy))
        } else {
            None
        }),
{
    let len2 = squared_length(dx as i128, dy as i128);
    let dd = squared_length(d as i128, 0);
    if dd <= len2 && len2 < 4 * dd {
        Some((dx, dy))
    } else {
        None
    }
}

/// Keeps a drawn offset if it is shorter than `v`.
pub fn disc_pick(dx: i64, dy: i64, v: i64) -> (r: Option<(i64, i64)>)
    requires
        0 < v <= COORD_LIMIT,
        -v <= dx <= v,
        -v <= dy <= v,
    ensures
        r == (if dx * dx + dy * dy < v * v {
            Some((dx, dy))
        } else {
            None
        }),
{
    if squared_length(dx as i128, dy as i128) < squared_length(v as i128, 0) {
        Some((dx, dy))
    } else {
        None
    }
}

/// A random offset whose length lies in `[d, 2d)`: pairs are drawn
/// uniformly over `[-2d, 2d]²` and the first that `annulus_pick` keeps is
/// returned; `None` when `OFFSET_TRIES` draws all missed.
pub fn annulus_offset(rng: &mut StdRng, d: i64) -> (r: Option<(i64, i64)>)
    requires
        0 < d <= COORD_LIMIT,
    ensures
        r matches Some(o) ==> in_annulus(o, d as int),
{
    let mut tries: usize = 0;
    while tries < OFFSET_TRIES
        invariant
            0 < d <= COORD_LIMIT,
        decreases OFFSET_TRIES - tries,
    {
        let reach = d + d;
        let dx = draw_between(rng, -reach, reach);
        let dy = draw_between(rng, -reach, reach);
        let picked = annulus_pick(dx, dy, d);
        if picked.is_some() {
            return picked;
        }
        tries = tries + 1;
    }
    None
}

/// A random offset shorter than `v`: pairs are drawn uniformly over
/// `[-v, v]²` and the first that `disc_pick` keeps is returned; no offset
/// when `OFFSET_TRIES` draws all missed.
pub fn disc_offset(rng: &mut StdRng, v: i64) -> (r: (i64, i64))
    requires
        0 < v <= COORD_LIMIT,
    ensures
        -v <= r.0 <= v,
        -v <= r.1 <= v,
        r.0 * r.0 + r.1 * r.1 < v * v,
{
    let mut tries: usize = 0;
    while tries < OFFSET_TRIES
        invariant
            0 < v <= COORD_LIMIT,
        decreases OFFSET_TRIES - tries,
    {
        let dx = draw_between(rng, -v, v);
        let dy = draw_between(rng, -v, v);
        if let Some(o) = disc_pick(dx, dy, v) {
            return o;
        }
        tries = tries + 1;
    }
    assert(0 < v * v) by (nonlinear_arith)
        requires
            0 < v,
    ;
    (0, 0)
}

} // verus!

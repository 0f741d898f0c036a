//! Bounded random displacement of accepted points.
use vstd::prelude::*;
use rand::rngs::StdRng;
use crate::geometry::{coord_ok, dist2, Coord, COORD_LIMIT};
use crate::rng::disc_offset;

verus! {

/// `after` is `before` with each point moved by less than `v`, or left in
/// place when `v` is zero.
pub open spec fn jittered(before: Seq<Coord>, after: Seq<Coord>, v: int) -> bool {
    &&& after.len() == before.len()
    &&& forall|i: int|
        0 <= i < before.len() ==> if v == 0 {
            #[trigger] after[i] == before[i]
        } else {
            dist2(after[i], before[i]) < v * v
        }
}

/// Moves each point by its offset.
pub fn shift(points: &Vec<Coord>, offsets: &Vec<(i64, i64)>) -> (r: Vec<Coord>)
    requires
        offsets@.len() == points@.len(),
        forall|i: int| 0 <= i < points@.len() ==> coord_ok(#[trigger] points@[i]),
        forall|i: int|
            0 <= i < offsets@.len() ==> -COORD_LIMIT <= (#[trigger] offsets@[i]).0 <= COORD_LIMIT
                && -COORD_LIMIT <= offsets@[i].1 <= COORD_LIMIT,
    ensures
        r@.len() == points@.len(),
        forall|i: int|
            0 <= i < points@.len() ==> #[trigger] r@[i] == (Coord {
                x: (points@[i].x + offsets@[i].0) as i64,
                y: (points@[i].y + offsets@[i].1) as i64,
            }),
{
    let mut out: Vec<Coord> = Vec::new();
    let mut i: usize = 0;
    while i < points.len()
        invariant
            i <= points@.len(),
            offsets@.len() == points@.len(),
            forall|k: int| 0 <= k < points@.len() ==> coord_ok(#[trigger] points@[k]),
            forall|k: int|
                0 <= k < offsets@.len() ==> -COORD_LIMIT <= (#[trigger] offsets@[k]).0
                    <= COORD_LIMIT && -COORD_LIMIT <= offsets@[k].1 <= COORD_LIMIT,
            out@.len() == i,
            forall|k: int|
                0 <= k < i ==> #[trigger] out@[k] == (Coord {
                    x: (points@[k].x + offsets@[k].0) as i64,
                    y: (points@[k].y + offsets@[k].1) as i64,
                }),
        decreases points@.len() - i,
    {
        let p = points[i];
        let o = offsets[i];
        out.push(Coord { x: p.x + o.0, y: p.y + o.1 });
        i = i + 1;
    }
    out
}

/// Moves each point by a random offset shorter than `variation` (drawn by
/// `disc_offset`); with no variation every offset is zero. Neither
/// containment nor spacing is checked again afterwards.
pub fn apply_jitter(points: &Vec<Coord>, variation: i64, rng: &mut StdRng) -> (r: Vec<Coord>)
    requires
        forall|i: int| 0 <= i < points@.len() ==> coord_ok(#[trigger] points@[i]),
        0 <= variation <= COORD_LIMIT,
    ensures
        jittered(points@, r@, variation as int),
{
    let mut offsets: Vec<(i64, i64)> = Vec::new();
    let mut i: usize = 0;
    while i < points.len()
        invariant
            i <= points@.len(),
            0 <= variation <= COORD_LIMIT,
            offsets@.len() == i,
            forall|k: int|
                0 <= k < i ==> if variation == 0 {
                    #[trigger] offsets@[k] == (0i64, 0i64)
                } else {
                    -variation <= offsets@[k].0 <= variation && -variation <= offsets@[k].1
                        <= variation && offsets@[k].0 * offsets@[k].0 + offsets@[k].1
                        * offsets@[k].1 < variation * variation
                },
        decreases points@.len() - i,
    {
        let o = if variation > 0 {
            disc_offset(rng, variation)
        } else {
            (0, 0)
        };
        offsets.push(o);
        i = i + 1;
    }
    let out = shift(points, &offsets);
    proof {
        assert forall|k: int| 0 <= k < points@.len() implies if variation == 0 {
            #[trigger] out@[k] == points@[k]
        } else {
            dist2(out@[k], points@[k]) < variation * variation
        } by {
            let o = offsets@[k];
            assert(out@[k] == Coord { x: (points@[k].x + o.0) as i64, y: (points@[k].y + o.1) as i64 });
        }
    }
    out
}

} // verus!

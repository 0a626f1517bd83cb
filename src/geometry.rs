//! Circle-against-axis-aligned-box collision with side resolution.
use vstd::prelude::*;

verus! {

/// A point or vector on the integer plane.
#[derive(Clone, Copy, Debug, PartialEq, Eq, Structural)]
pub struct Vec2 {
    pub x: i32,
    pub y: i32,
}

/// The face of a box that a circle struck.
#[derive(Clone, Copy, Debug, PartialEq, Eq, Structural)]
pub enum Side {
    Left,
    Right,
    Top,
    Bottom,
}

/// `v` clamped into `[lo, hi]`: first raised to `lo`, then lowered to `hi`.
pub open spec fn clamp(v: int, lo: int, hi: int) -> int {
    let a = if v < lo { lo } else { v };
    if a > hi { hi } else { a }
}

pub open spec fn abs(v: int) -> int {
    if v < 0 { -v } else { v }
}

/// Offset along one axis from the box's closest point to the circle center.
pub open spec fn axis_offset(p: int, c: int, h: int) -> int {
    p - clamp(p, c - h, c + h)
}

/// Squared distance from the circle center to the closest point of the box.
pub open spec fn dist_sq(cx: int, cy: int, bx: int, by: int, hx: int, hy: int) -> int {
    let ox = axis_offset(cx, bx, hx);
    let oy = axis_offset(cy, by, hy);
    ox * ox + oy * oy
}

/// Whether a circle (center, radius) and a box (center, half extent) overlap.
pub open spec fn intersects(cx: int, cy: int, r: int, bx: int, by: int, hx: int, hy: int) -> bool {
    dist_sq(cx, cy, bx, by, hx, hy) <= r * r
}

/// The side picked for an offset: horizontal only when strictly dominant.
pub open spec fn side_of_offset(ox: int, oy: int) -> Side {
    if abs(ox) > abs(oy) {
        if ox < 0 { Side::Left } else { Side::Right }
    } else if oy > 0 {
        Side::Top
    } else {
        Side::Bottom
    }
}

/// The side of the box that the circle hit, or `None` when they do not overlap.
pub open spec fn collision_side(cx: int, cy: int, r: int, bx: int, by: int, hx: int, hy: int) -> Option<Side> {
    if intersects(cx, cy, r, bx, by, hx, hy) {
        Some(side_of_offset(axis_offset(cx, bx, hx), axis_offset(cy, by, hy)))
    } else {
        None
    }
}

fn clamp_exec(v: i128, lo: i128, hi: i128) -> (r: i128)
    ensures
        r == clamp(v as int, lo as int, hi as int),
{
    let a = if v < lo { lo } else { v };
    if a > hi { hi } else { a }
}

/// Resolves which side of the box centered at `(bx, by)` with half extent
/// `(hx, hy)` the circle centered at `(cx, cy)` with radius `r` struck.
pub fn resolve_collision_side(cx: i64, cy: i64, r: i64, bx: i64, by: i64, hx: i64, hy: i64) -> (res: Option<Side>)
    ensures
        res == collision_side(cx as int, cy as int, r as int, bx as int, by as int, hx as int, hy as int),
{
    let ox: i128 = cx as i128 - clamp_exec(cx as i128, bx as i128 - hx as i128, bx as i128 + hx as i128);
    let oy: i128 = cy as i128 - clamp_exec(cy as i128, by as i128 - hy as i128, by as i128 + hy as i128);
    let ar: i128 = if r < 0 { -(r as i128) } else { r as i128 };
    let ax: i128 = if ox < 0 { -ox } else { ox };
    let ay: i128 = if oy < 0 { -oy } else { oy };
    proof {
        assert(r as int * r as int == ar * ar) by (nonlinear_arith)
            requires ar == abs(r as int);
        assert(ox * ox == ax * ax) by (nonlinear_arith)
            requires ax == abs(ox as int);
        assert(oy * oy == ay * ay) by (nonlinear_arith)
            requires ay == abs(oy as int);
    }
    if ax > ar || ay > ar {
        proof {
            assert(ox * ox + oy * oy > ar * ar) by (nonlinear_arith)
                requires
                    ox * ox == ax * ax,
                    oy * oy == ay * ay,
                    ax >= 0,
                    ay >= 0,
                    ar >= 0,
                    ax > ar || ay > ar,
            ;
        }
        return None;
    }
    proof {
        assert(ar * ar <= 0x8000_0000_0000_0000 * 0x8000_0000_0000_0000) by (nonlinear_arith)
            requires 0 <= ar <= 0x8000_0000_0000_0000;
        assert(ax * ax <= ar * ar && ay * ay <= ar * ar) by (nonlinear_arith)
            requires 0 <= ax <= ar, 0 <= ay <= ar;
    }
    let d: i128 = (ax * ax - ar * ar) + ay * ay;
    if d > 0 {
        return None;
    }
    let side = if ax > ay {
        if ox < 0 { Side::Left } else { Side::Right }
    } else if oy > 0 {
        Side::Top
    } else {
        Side::Bottom
    };
    Some(side)
}

/// The velocity after bouncing off `side`: horizontal sides flip `x`,
/// vertical sides flip `y`.
pub open spec fn reflect(v: Vec2, side: Side) -> Vec2 {
    match side {
        Side::Left | Side::Right => Vec2 { x: -v.x as i32, y: v.y },
        Side::Top | Side::Bottom => Vec2 { x: v.x, y: -v.y as i32 },
    }
}

/// When the offset from the closest box point lies on a diagonal, the hit is
/// resolved vertically, never to `Left` or `Right`.
pub proof fn lemma_diagonal_hit_is_vertical(cx: int, cy: int, r: int, bx: int, by: int, hx: int, hy: int)
    requires
        intersects(cx, cy, r, bx, by, hx, hy),
        abs(axis_offset(cx, bx, hx)) == abs(axis_offset(cy, by, hy)),
    ensures
        collision_side(cx, cy, r, bx, by, hx, hy) == Some(Side::Top)
            || collision_side(cx, cy, r, bx, by, hx, hy) == Some(Side::Bottom),
{
}

/// A circle whose center is farther than its radius from every point of the
/// box does not collide with it.
pub proof fn lemma_apart_no_collision(cx: int, cy: int, r: int, bx: int, by: int, hx: int, hy: int)
    requires
        dist_sq(cx, cy, bx, by, hx, hy) > r * r,
    ensures
        collision_side(cx, cy, r, bx, by, hx, hy) is None,
{
}

/// Two bounces off the same side in one tick cancel out.
pub proof fn lemma_double_reflect(v: Vec2, side: Side)
    requires
        v.x > i32::MIN,
        v.y > i32::MIN,
    ensures
        reflect(reflect(v, side), side) == v,
{
}

} // verus!

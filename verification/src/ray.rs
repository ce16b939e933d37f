//! Rays and the exact slab test against an axis-aligned box.

use vstd::prelude::*;

use crate::aabb::{Vector3, AABB, COORD_LIMIT};
use crate::plane::{Dimension, DimensionMap};

verus! {

/// Does the parameter `t = tn / td` (with `td > 0`) place the ray point
/// `o + t * d` inside `[mn, mx]` on one axis?  All terms are scaled by `td`
/// so the test is exact integer arithmetic.
pub open spec fn axis_sat(mn: int, mx: int, o: int, d: int, tn: int, td: int) -> bool {
    mn * td <= o * td + tn * d && o * td + tn * d <= mx * td
}

/// Does the parameter `t = tn / td` place the ray point inside the box on
/// every axis?
pub open spec fn ray_box_sat(o: Vector3, d: Vector3, b: AABB, tn: int, td: int) -> bool {
    &&& axis_sat(b.min.x as int, b.max.x as int, o.x as int, d.x as int, tn, td)
    &&& axis_sat(b.min.y as int, b.max.y as int, o.y as int, d.y as int, tn, td)
    &&& axis_sat(b.min.z as int, b.max.z as int, o.z as int, d.z as int, tn, td)
}

/// The slab test, as a mathematical predicate: the ray starting at `o` with
/// direction `d` meets the box at some strictly positive rational parameter.
pub open spec fn hits(o: Vector3, d: Vector3, b: AABB) -> bool {
    exists|tn: int, td: int| tn > 0 && td > 0 && #[trigger] ray_box_sat(o, d, b, tn, td)
}

/// A running parameter window `[ln/ld, hn/hd]`, each bound a rational with
/// positive denominator.
type Window = (i64, i64, i64, i64);

/// Bounds that keep every cross product of a window inside `i64`.
spec fn win_wf(w: Window) -> bool {
    &&& 0 < w.1 <= COORD_LIMIT
    &&& 0 < w.3 <= COORD_LIMIT
    &&& -2 * COORD_LIMIT <= w.0 <= 2 * COORD_LIMIT
    &&& -2 * COORD_LIMIT <= w.2 <= 2 * COORD_LIMIT
}

/// The window is a nonempty interval: its lower bound is at most its upper
/// bound.
spec fn win_nonempty(w: Window) -> bool {
    w.0 * w.3 <= w.2 * w.1
}

/// Is `tn / td` inside the window?
spec fn in_win(w: Window, tn: int, td: int) -> bool {
    w.0 * td <= tn * w.1 && tn * w.3 <= w.2 * td
}

/// Is `tn / td` inside the window, where `None` means "no constraint yet"?
spec fn opt_win_sat(w: Option<Window>, tn: int, td: int) -> bool {
    match w {
        None => true,
        Some(w) => in_win(w, tn, td),
    }
}

/// Cross products of window and axis bounds stay far inside `i64`.
proof fn lemma_mul_bound(a: int, b: int)
    by (nonlinear_arith)
    requires
        -2_000_000 <= a <= 2_000_000,
        -1_000_000 <= b <= 1_000_000,
    ensures
        -2_000_000_000_000 <= a * b <= 2_000_000_000_000,
{
}

/// Multiplying both sides of an inequality by a positive factor keeps it.
pub(crate) proof fn lemma_mul_le_mono(a: int, b: int, c: int)
    by (nonlinear_arith)
    requires
        a <= b,
        c > 0,
    ensures
        a * c <= b * c,
{
}

/// The product of two positive numbers is positive.
proof fn lemma_mul_pos(a: int, b: int)
    by (nonlinear_arith)
    requires
        a > 0,
        b > 0,
    ensures
        a * b > 0,
{
}

/// A nonpositive number times a positive number is nonpositive.
proof fn lemma_mul_nonpos(a: int, b: int)
    by (nonlinear_arith)
    requires
        a <= 0,
        b > 0,
    ensures
        a * b <= 0,
{
}

/// Transitivity of rational comparison by cross multiplication: from
/// `n1/d1 <= n2/d2` and `n2/d2 <= n3/d3` conclude `n1/d1 <= n3/d3`, all
/// denominators positive.
proof fn lemma_rat_trans(n1: int, d1: int, n2: int, d2: int, n3: int, d3: int)
    by (nonlinear_arith)
    requires
        d1 > 0,
        d2 > 0,
        d3 > 0,
        n1 * d2 <= n2 * d1,
        n2 * d3 <= n3 * d2,
    ensures
        n1 * d3 <= n3 * d1,
{
}

/// Tightening a window by one axis interval: a parameter lies in the merged
/// window exactly when it lies in the old window and in the axis interval.
/// The merged bounds must be the rational maximum of the lower bounds and
/// the rational minimum of the upper bounds.
proof fn lemma_window_merge(w: Window, alo: int, aden: int, ahi: int, nw: Window, tn: int, td: int)
    requires
        td > 0,
        aden > 0,
        0 < w.1,
        0 < w.3,
        (nw.0 == w.0 && nw.1 == w.1 && alo * w.1 <= w.0 * aden) || (nw.0 == alo && nw.1 == aden
            && w.0 * aden <= alo * w.1),
        (nw.2 == w.2 && nw.3 == w.3 && w.2 * aden <= ahi * w.3) || (nw.2 == ahi && nw.3 == aden
            && ahi * w.3 <= w.2 * aden),
    ensures
        in_win(nw, tn, td) <==> (in_win(w, tn, td) && alo * td <= tn * aden && tn * aden <= ahi
            * td),
{
    if in_win(nw, tn, td) {
        if nw.0 == w.0 && nw.1 == w.1 && alo * w.1 <= w.0 * aden {
            lemma_rat_trans(alo, aden, w.0 as int, w.1 as int, tn, td);
        } else {
            lemma_rat_trans(w.0 as int, w.1 as int, alo, aden, tn, td);
        }
        if nw.2 == w.2 && nw.3 == w.3 && w.2 * aden <= ahi * w.3 {
            lemma_rat_trans(tn, td, w.2 as int, w.3 as int, ahi, aden);
        } else {
            lemma_rat_trans(tn, td, ahi, aden, w.2 as int, w.3 as int);
        }
    }
}

/// For a positive direction component, the axis constraint is the cross
/// multiplied interval `[(mn - o)/d, (mx - o)/d]`.
proof fn lemma_axis_pos(mn: int, mx: int, o: int, d: int, tn: int, td: int)
    by (nonlinear_arith)
    requires
        d > 0,
        td > 0,
    ensures
        axis_sat(mn, mx, o, d, tn, td) <==> ((mn - o) * td <= tn * d && tn * d <= (mx - o) * td),
{
}

/// For a negative direction component, the axis constraint is the cross
/// multiplied interval `[(o - mx)/(-d), (o - mn)/(-d)]`.
proof fn lemma_axis_neg(mn: int, mx: int, o: int, d: int, tn: int, td: int)
    by (nonlinear_arith)
    requires
        d < 0,
        td > 0,
    ensures
        axis_sat(mn, mx, o, d, tn, td) <==> ((o - mx) * td <= tn * (-d) && tn * (-d) <= (o - mn)
            * td),
{
}

/// For a zero direction component, the axis constraint is exactly origin
/// containment, independent of the parameter.
proof fn lemma_axis_zero(mn: int, mx: int, o: int, tn: int, td: int)
    by (nonlinear_arith)
    requires
        td > 0,
    ensures
        axis_sat(mn, mx, o, 0, tn, td) <==> (mn <= o && o <= mx),
{
}

/// A parameter that places the ray inside a box also places it inside any
/// enclosing box.
pub(crate) proof fn lemma_sat_inside(
    o: Vector3,
    d: Vector3,
    inner: AABB,
    outer: AABB,
    tn: int,
    td: int,
)
    requires
        td > 0,
        ray_box_sat(o, d, inner, tn, td),
        crate::aabb::spec_inside(inner, outer),
    ensures
        ray_box_sat(o, d, outer, tn, td),
{
    lemma_mul_le_mono(outer.min.x as int, inner.min.x as int, td);
    lemma_mul_le_mono(inner.max.x as int, outer.max.x as int, td);
    lemma_mul_le_mono(outer.min.y as int, inner.min.y as int, td);
    lemma_mul_le_mono(inner.max.y as int, outer.max.y as int, td);
    lemma_mul_le_mono(outer.min.z as int, inner.min.z as int, td);
    lemma_mul_le_mono(inner.max.z as int, outer.max.z as int, td);
}

/// Fold one axis of the slab test into the running window.
///
/// Returns `None` when the axis proves the ray misses the box; otherwise
/// the new window, equivalent to the old one conjoined with this axis's
/// constraint.
#[verifier::rlimit(50)]
fn process_axis(win: Option<Window>, mn: i64, mx: i64, o: i64, d: i64) -> (r: Option<
    Option<Window>,
>)
    requires
        -COORD_LIMIT <= mn <= mx <= COORD_LIMIT,
        -COORD_LIMIT <= o <= COORD_LIMIT,
        -COORD_LIMIT <= d <= COORD_LIMIT,
        match win {
            Some(w) => win_wf(w) && win_nonempty(w),
            None => true,
        },
    ensures
        r is None ==> forall|tn: int, td: int|
            td > 0 ==> !(opt_win_sat(win, tn, td) && axis_sat(
                mn as int,
                mx as int,
                o as int,
                d as int,
                tn,
                td,
            )),
        r matches Some(nw) ==> {
            &&& (nw matches Some(w) ==> win_wf(w) && win_nonempty(w))
            &&& forall|tn: int, td: int|
                td > 0 ==> (opt_win_sat(nw, tn, td) <==> (opt_win_sat(win, tn, td) && axis_sat(
                    mn as int,
                    mx as int,
                    o as int,
                    d as int,
                    tn,
                    td,
                )))
        },
{
    if d == 0 {
        if o < mn || mx < o {
            proof {
                assert forall|tn: int, td: int| td > 0 implies !(opt_win_sat(win, tn, td)
                    && axis_sat(mn as int, mx as int, o as int, d as int, tn, td)) by {
                    lemma_axis_zero(mn as int, mx as int, o as int, tn, td);
                    assert(axis_sat(mn as int, mx as int, o as int, d as int, tn, td)
                        == axis_sat(mn as int, mx as int, o as int, 0, tn, td));
                }
            }
            None
        } else {
            proof {
                assert forall|tn: int, td: int| td > 0 implies (opt_win_sat(win, tn, td) <==> (
                opt_win_sat(win, tn, td) && axis_sat(mn as int, mx as int, o as int, d as int, tn, td)))
                    by {
                    lemma_axis_zero(mn as int, mx as int, o as int, tn, td);
                    assert(axis_sat(mn as int, mx as int, o as int, d as int, tn, td)
                        == axis_sat(mn as int, mx as int, o as int, 0, tn, td));
                }
            }
            Some(win)
        }
    } else {
        // The axis interval as a rational pair with a positive denominator.
        let (alo, ahi, aden): (i64, i64, i64) = if d > 0 {
            (mn - o, mx - o, d)
        } else {
            (o - mx, o - mn, -d)
        };
        proof {
            assert forall|tn: int, td: int| td > 0 implies (axis_sat(
                mn as int,
                mx as int,
                o as int,
                d as int,
                tn,
                td,
            ) <==> (alo * td <= tn * aden && tn * aden <= ahi * td)) by {
                if d > 0 {
                    lemma_axis_pos(mn as int, mx as int, o as int, d as int, tn, td);
                } else {
                    lemma_axis_neg(mn as int, mx as int, o as int, d as int, tn, td);
                }
            }
        }
        match win {
            None => {
                proof {
                    lemma_mul_le_mono(alo as int, ahi as int, aden as int);
                    assert forall|tn: int, td: int| td > 0 implies (opt_win_sat(
                        Some((alo, aden, ahi, aden)),
                        tn,
                        td,
                    ) <==> (opt_win_sat(win, tn, td) && axis_sat(
                        mn as int,
                        mx as int,
                        o as int,
                        d as int,
                        tn,
                        td,
                    ))) by {
                        assert(axis_sat(mn as int, mx as int, o as int, d as int, tn, td) <==> (alo
                            * td <= tn * aden && tn * aden <= ahi * td));
                    }
                }
                Some(Some((alo, aden, ahi, aden)))
            },
            Some(w) => {
                let (ln, ld, hn, hd) = w;
                proof {
                    lemma_mul_bound(ln as int, aden as int);
                    lemma_mul_bound(alo as int, ld as int);
                    lemma_mul_bound(hn as int, aden as int);
                    lemma_mul_bound(ahi as int, hd as int);
                }
                // New lower bound: the larger of ln/ld and alo/aden.
                let (nln, nld) = if ln * aden >= alo * ld {
                    (ln, ld)
                } else {
                    (alo, aden)
                };
                // New upper bound: the smaller of hn/hd and ahi/aden.
                let (nhn, nhd) = if hn * aden <= ahi * hd {
                    (hn, hd)
                } else {
                    (ahi, aden)
                };
                proof {
                    lemma_mul_bound(nln as int, nhd as int);
                    lemma_mul_bound(nhn as int, nld as int);
                }
                if nln * nhd <= nhn * nld {
                    proof {
                        assert forall|tn: int, td: int| td > 0 implies (opt_win_sat(
                            Some((nln, nld, nhn, nhd)),
                            tn,
                            td,
                        ) <==> (opt_win_sat(win, tn, td) && axis_sat(
                            mn as int,
                            mx as int,
                            o as int,
                            d as int,
                            tn,
                            td,
                        ))) by {
                            assert(axis_sat(mn as int, mx as int, o as int, d as int, tn, td) <==> (
                            alo * td <= tn * aden && tn * aden <= ahi * td));
                            lemma_window_merge(
                                w,
                                alo as int,
                                aden as int,
                                ahi as int,
                                (nln, nld, nhn, nhd),
                                tn,
                                td,
                            );
                        }
                    }
                    Some(Some((nln, nld, nhn, nhd)))
                } else {
                    proof {
                        assert forall|tn: int, td: int| td > 0 implies !(opt_win_sat(win, tn, td)
                            && axis_sat(mn as int, mx as int, o as int, d as int, tn, td)) by {
                            assert(axis_sat(mn as int, mx as int, o as int, d as int, tn, td) <==> (
                            alo * td <= tn * aden && tn * aden <= ahi * td));
                            if in_win(w, tn, td) && alo * td <= tn * aden && tn * aden <= ahi * td {
                                lemma_window_merge(
                                    w,
                                    alo as int,
                                    aden as int,
                                    ahi as int,
                                    (nln, nld, nhn, nhd),
                                    tn,
                                    td,
                                );
                                assert(in_win((nln, nld, nhn, nhd), tn, td));
                                lemma_rat_trans(
                                    nln as int,
                                    nld as int,
                                    tn,
                                    td,
                                    nhn as int,
                                    nhd as int,
                                );
                            }
                        }
                    }
                    None
                }
            },
        }
    }
}

/// A precomputed ray: an origin, a direction, and one sign bit per axis
/// (true when that direction component is negative).
#[derive(Clone, Copy, Debug)]
pub struct Ray {
    /// The origin of the ray.
    pub origin: Vector3,
    /// The direction of the ray.
    pub direction: Vector3,
    /// The sign of the direction of the ray, per axis.
    pub sign: DimensionMap<bool>,
}

impl Ray {
    /// Coordinates of origin and direction are within the supported range.
    pub open spec fn wf(self) -> bool {
        self.origin.wf() && self.direction.wf()
    }

    /// Create a ray from an origin and a direction.
    pub fn new(origin: &Vector3, direction: &Vector3) -> (r: Ray)
        requires
            origin.wf(),
            direction.wf(),
        ensures
            r.origin == *origin,
            r.direction == *direction,
            r.sign.spec_get(Dimension::X) == (direction.x < 0),
            r.sign.spec_get(Dimension::Y) == (direction.y < 0),
            r.sign.spec_get(Dimension::Z) == (direction.z < 0),
            r.wf(),
    {
        Ray {
            origin: *origin,
            direction: *direction,
            sign: DimensionMap { x: direction.x < 0, y: direction.y < 0, z: direction.z < 0 },
        }
    }

    /// The exact slab test: does the ray reach the box at some strictly
    /// positive parameter?  Decides [`hits`] with no rounding.
    pub fn intersect(&self, aabb: &AABB) -> (r: bool)
        requires
            self.wf(),
            aabb.wf(),
        ensures
            r == hits(self.origin, self.direction, *aabb),
    {
        let o = self.origin;
        let d = self.direction;
        let b = *aabb;
        let ghost sat_x = |tn: int, td: int|
            axis_sat(b.min.x as int, b.max.x as int, o.x as int, d.x as int, tn, td);
        let ghost sat_y = |tn: int, td: int|
            axis_sat(b.min.y as int, b.max.y as int, o.y as int, d.y as int, tn, td);
        let ghost sat_z = |tn: int, td: int|
            axis_sat(b.min.z as int, b.max.z as int, o.z as int, d.z as int, tn, td);
        let w0: Option<Window> = None;
        let w1 = match process_axis(w0, b.min.x, b.max.x, o.x, d.x) {
            None => {
                proof {
                    assert forall|tn: int, td: int|
                        !(tn > 0 && td > 0 && ray_box_sat(o, d, b, tn, td)) by {
                        if tn > 0 && td > 0 && ray_box_sat(o, d, b, tn, td) {
                            assert(opt_win_sat(w0, tn, td));
                            assert(axis_sat(
                                b.min.x as int,
                                b.max.x as int,
                                o.x as int,
                                d.x as int,
                                tn,
                                td,
                            ));
                        }
                    }
                }
                return false;
            },
            Some(w) => w,
        };
        // The window so far is equivalent to the first axis's constraint.
        assert(forall|tn: int, td: int|
            td > 0 ==> (opt_win_sat(w1, tn, td) <==> sat_x(tn, td)));
        let w2 = match process_axis(w1, b.min.y, b.max.y, o.y, d.y) {
            None => {
                proof {
                    assert forall|tn: int, td: int|
                        !(tn > 0 && td > 0 && ray_box_sat(o, d, b, tn, td)) by {
                        if tn > 0 && td > 0 && ray_box_sat(o, d, b, tn, td) {
                            assert(sat_x(tn, td));
                            assert(opt_win_sat(w1, tn, td));
                        }
                    }
                }
                return false;
            },
            Some(w) => w,
        };
        assert(forall|tn: int, td: int|
            td > 0 ==> (opt_win_sat(w2, tn, td) <==> (sat_x(tn, td) && sat_y(tn, td))));
        let w3 = match process_axis(w2, b.min.z, b.max.z, o.z, d.z) {
            None => {
                proof {
                    assert forall|tn: int, td: int|
                        !(tn > 0 && td > 0 && ray_box_sat(o, d, b, tn, td)) by {
                        if tn > 0 && td > 0 && ray_box_sat(o, d, b, tn, td) {
                            assert(sat_x(tn, td) && sat_y(tn, td));
                            assert(opt_win_sat(w2, tn, td));
                        }
                    }
                }
                return false;
            },
            Some(w) => w,
        };
        assert(forall|tn: int, td: int|
            td > 0 ==> (opt_win_sat(w3, tn, td) <==> (sat_x(tn, td) && sat_y(tn, td) && sat_z(
                tn,
                td,
            ))));
        match w3 {
            None => {
                // No axis constrained the parameter: the origin is inside
                // the box on every axis, and any positive parameter works.
                proof {
                    assert(opt_win_sat(w3, 1, 1));
                    assert(ray_box_sat(o, d, b, 1, 1));
                }
                true
            },
            Some((ln, ld, hn, hd)) => {
                if hn > 0 {
                    // The upper end of the window is a positive parameter
                    // inside the box.
                    proof {
                        lemma_mul_pos(hn as int, hd as int);
                        assert(in_win((ln, ld, hn, hd), hn as int, hd as int));
                        assert(opt_win_sat(w3, hn as int, hd as int));
                        assert(ray_box_sat(o, d, b, hn as int, hd as int));
                    }
                    true
                } else {
                    // Every parameter in the window is nonpositive: the box
                    // lies behind the ray origin.
                    proof {
                        assert forall|tn: int, td: int| !(tn > 0 && td > 0 && ray_box_sat(
                            o,
                            d,
                            b,
                            tn,
                            td,
                        )) by {
                            if tn > 0 && td > 0 && ray_box_sat(o, d, b, tn, td) {
                                assert(opt_win_sat(w3, tn, td));
                                assert(in_win((ln, ld, hn, hd), tn, td));
                                lemma_mul_pos(tn, hd as int);
                                lemma_mul_nonpos(hn as int, td);
                            }
                        }
                    }
                    false
                }
            },
        }
    }
}

} // verus!

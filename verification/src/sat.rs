use vstd::prelude::*;
use crate::vec2::{tdiv, Vec2};

verus! {

/// Largest magnitude of a world-space vertex coordinate accepted by the
/// narrow phase.
pub const PT_BOUND: i64 = 262144;

/// Largest magnitude of an edge-normal component (difference of two
/// world-space coordinates).
pub const AX_BOUND: i64 = 524288;

/// Largest magnitude of a projection of a bounded point onto a bounded axis.
pub const DOT_BOUND: i64 = 549755813888;

/// Largest magnitude of an interval overlap along a bounded axis.
pub const OVERLAP_BOUND: i64 = 1099511627776;

/// Largest squared length of a bounded axis.
pub const NN_BOUND: i64 = 549755813888;

pub open spec fn min2(a: int, b: int) -> int {
    if a <= b {
        a
    } else {
        b
    }
}

pub open spec fn max2(a: int, b: int) -> int {
    if a >= b {
        a
    } else {
        b
    }
}

/// Projection of point `p` onto the (unnormalized) axis `n`.
pub open spec fn dot(n: Vec2, p: Vec2) -> int {
    n.x * p.x + n.y * p.y
}

/// Squared length of a vector.
pub open spec fn sqlen(n: Vec2) -> int {
    n.x * n.x + n.y * n.y
}

/// Least projection of a non-empty point sequence onto `n`.
pub open spec fn min_proj(s: Seq<Vec2>, n: Vec2) -> int
    recommends
        s.len() >= 1,
    decreases s.len(),
{
    if s.len() <= 1 {
        dot(n, s[0])
    } else {
        min2(min_proj(s.drop_last(), n), dot(n, s.last()))
    }
}

/// Greatest projection of a non-empty point sequence onto `n`.
pub open spec fn max_proj(s: Seq<Vec2>, n: Vec2) -> int
    recommends
        s.len() >= 1,
    decreases s.len(),
{
    if s.len() <= 1 {
        dot(n, s[0])
    } else {
        max2(max_proj(s.drop_last(), n), dot(n, s.last()))
    }
}

/// The outward normal of edge `i` of the polygon `s`: for the edge from
/// `s[i]` to `s[(i + 1) % len]` with direction `(dx, dy)` it is `(dy, -dx)`.
pub open spec fn axis_of(s: Seq<Vec2>, i: int) -> Vec2
    recommends
        0 <= i < s.len(),
{
    let p1 = s[i];
    let p2 = s[if i + 1 == s.len() {
        0int
    } else {
        i + 1
    }];
    Vec2 { x: ((p2.y - p1.y) as i64), y: ((p1.x - p2.x) as i64) }
}

/// How much the projection intervals of `a` and `b` overlap along `n`,
/// measured in projection units of `n`.
pub open spec fn overlap_amt(a: Seq<Vec2>, b: Seq<Vec2>, n: Vec2) -> int {
    min2(max_proj(a, n), max_proj(b, n)) - max2(min_proj(a, n), min_proj(b, n))
}

/// The projection intervals of `a` and `b` onto `n` share no interior point:
/// `n` is a separating axis. Exact touching counts as separated.
pub open spec fn sep_axis(a: Seq<Vec2>, b: Seq<Vec2>, n: Vec2) -> bool {
    overlap_amt(a, b, n) <= 0
}

/// Some edge normal of either polygon separates the two polygons.
pub open spec fn has_sep_axis(a: Seq<Vec2>, b: Seq<Vec2>) -> bool {
    ||| exists|i: int| 0 <= i < a.len() && sep_axis(a, b, axis_of(a, i))
    ||| exists|i: int| 0 <= i < b.len() && sep_axis(a, b, axis_of(b, i))
}

/// The local points of a shape carried to world space by a translation.
pub open spec fn world_pts(pts: Seq<Vec2>, pos: Vec2) -> Seq<Vec2> {
    pts.map(|i: int, p: Vec2| Vec2 { x: ((p.x + pos.x) as i64), y: ((p.y + pos.y) as i64) })
}

/// Every point of `s` lies within `k` in magnitude.
pub open spec fn pts_within(s: Seq<Vec2>, k: int) -> bool {
    forall|i: int| 0 <= i < s.len() ==> (#[trigger] s[i]).within(k)
}

pub open spec fn neg_vec(n: Vec2) -> Vec2 {
    Vec2 { x: ((-n.x) as i64), y: ((-n.y) as i64) }
}

/// The normalized penetration along `m`'s axis is strictly smaller than
/// along the axis `n` (cross-multiplied squares).
pub open spec fn strictly_shallower(m: Mtv, a: Seq<Vec2>, b: Seq<Vec2>, n: Vec2) -> bool {
    m.overlap * m.overlap * sqlen(n) < overlap_amt(a, b, n) * overlap_amt(a, b, n) * m.nn
}

/// `m`'s axis is the first candidate, in the fixed deterministic order (all
/// edge normals of `a`, then all of `b`), whose normalized penetration is
/// minimal: every candidate tried before it is strictly deeper. On
/// equal-depth ties the earlier axis wins, which pins the tie-break.
pub open spec fn first_min_axis(m: Mtv, a: Seq<Vec2>, b: Seq<Vec2>) -> bool {
    ||| exists|i: int|
        0 <= i < a.len() && (m.axis() == axis_of(a, i) || m.axis() == neg_vec(axis_of(a, i))) && (
        forall|j: int| 0 <= j < i ==> strictly_shallower(m, a, b, #[trigger] axis_of(a, j)))
    ||| exists|i: int|
        0 <= i < b.len() && (m.axis() == axis_of(b, i) || m.axis() == neg_vec(axis_of(b, i))) && (
        forall|j: int| 0 <= j < a.len() ==> strictly_shallower(m, a, b, #[trigger] axis_of(a, j)))
            && (forall|j: int| 0 <= j < i ==> strictly_shallower(m, a, b, #[trigger] axis_of(b, j)))
}

/// The minimum-translation data for an overlapping pair: a separation axis
/// (an edge normal, not normalized), the interval overlap measured along it,
/// and the axis' squared length. The exact separating displacement is the
/// rational vector `axis * overlap / nn`; `translation` returns it rounded
/// toward zero.
#[derive(Clone, Copy, PartialEq, Eq, Structural, Debug)]
pub struct Mtv {
    pub nx: i64,
    pub ny: i64,
    pub overlap: i64,
    pub nn: i64,
}

impl Mtv {
    pub open spec fn axis(self) -> Vec2 {
        Vec2 { x: self.nx, y: self.ny }
    }

    /// The numeric ranges that the narrow phase guarantees of its result.
    pub open spec fn bounded(self) -> bool {
        &&& self.axis().within(AX_BOUND as int)
        &&& 0 < self.overlap <= OVERLAP_BOUND
        &&& 0 < self.nn <= NN_BOUND
    }

    /// Component of the displacement `axis * overlap / den`, rounded toward
    /// zero.
    pub open spec fn push_x(self, den: int) -> int {
        tdiv(self.nx * self.overlap, den)
    }

    pub open spec fn push_y(self, den: int) -> int {
        tdiv(self.ny * self.overlap, den)
    }
}

/// The numerator `axis component * overlap` of a displacement stays inside
/// `i64`.
pub proof fn lemma_push_range(nx: int, o: int)
    by (nonlinear_arith)
    requires
        -524288 <= nx <= 524288,
        0 < o <= 1099511627776,
    ensures
        -576460752303423488 <= nx * o <= 576460752303423488,
{
}

impl Mtv {
    /// The rounded displacement `axis * overlap / nn` that moves the second
    /// shape fully out of the first when applied to it whole.
    pub fn translation(&self) -> (v: Vec2)
        requires
            self.bounded(),
        ensures
            v.x == self.push_x(self.nn as int),
            v.y == self.push_y(self.nn as int),
            v.within(576460752303423488),
    {
        proof {
            lemma_push_range(self.nx as int, self.overlap as int);
            lemma_push_range(self.ny as int, self.overlap as int);
        }
        Vec2 {
            x: crate::vec2::div_trunc(self.nx * self.overlap, self.nn),
            y: crate::vec2::div_trunc(self.ny * self.overlap, self.nn),
        }
    }

    /// Half of the separating displacement, rounded: the share each of the
    /// two physical bodies receives during resolution.
    pub fn half_translation(&self) -> (v: Vec2)
        requires
            self.bounded(),
        ensures
            v.x == self.push_x(2 * self.nn as int),
            v.y == self.push_y(2 * self.nn as int),
            v.within(576460752303423488),
    {
        proof {
            lemma_push_range(self.nx as int, self.overlap as int);
            lemma_push_range(self.ny as int, self.overlap as int);
        }
        Vec2 {
            x: crate::vec2::div_trunc(self.nx * self.overlap, 2 * self.nn),
            y: crate::vec2::div_trunc(self.ny * self.overlap, 2 * self.nn),
        }
    }
}

/// The normalized penetration depth along `m`'s axis is no larger than the
/// depth along the axis `n` (depths compared by cross-multiplied squares,
/// which avoids square roots).
pub open spec fn no_deeper(m: Mtv, a: Seq<Vec2>, b: Seq<Vec2>, n: Vec2) -> bool {
    m.overlap * m.overlap * sqlen(n) <= overlap_amt(a, b, n) * overlap_amt(a, b, n) * m.nn
}

/// `m` is a correct minimum-translation result for the overlapping polygons
/// `a` and `b`: its axis is an edge normal of one of them — the first, in
/// the fixed candidate order, of minimal normalized penetration — its
/// overlap is the interval overlap along that axis, no other candidate axis
/// has a smaller normalized penetration, and the axis points from `a`
/// toward `b` (so that moving `b` by the displacement and `a` against it
/// separates the pair).
pub open spec fn mtv_valid(m: Mtv, a: Seq<Vec2>, b: Seq<Vec2>) -> bool {
    &&& m.nn == sqlen(m.axis())
    &&& m.nn > 0
    &&& m.overlap == overlap_amt(a, b, m.axis())
    &&& m.overlap > 0
    &&& first_min_axis(m, a, b)
    &&& forall|i: int| 0 <= i < a.len() ==> no_deeper(m, a, b, #[trigger] axis_of(a, i))
    &&& forall|i: int| 0 <= i < b.len() ==> no_deeper(m, a, b, #[trigger] axis_of(b, i))
    &&& min_proj(a, m.axis()) + max_proj(a, m.axis()) <= min_proj(b, m.axis()) + max_proj(
        b,
        m.axis(),
    )
}

/// Bounds of a single projection of one bounded vector onto another.
pub proof fn lemma_dot_range(n: Vec2, p: Vec2)
    by (nonlinear_arith)
    requires
        -524288 <= n.x <= 524288,
        -524288 <= n.y <= 524288,
        -524288 <= p.x <= 524288,
        -524288 <= p.y <= 524288,
    ensures
        -274877906944 <= n.x * p.x <= 274877906944,
        -274877906944 <= n.y * p.y <= 274877906944,
        -549755813888 <= n.x * p.x + n.y * p.y <= 549755813888,
{
}

/// A squared length is never negative, and the squared length of the reversed
/// vector is the same.
pub proof fn lemma_sqlen_facts(x: int, y: int)
    by (nonlinear_arith)
    ensures
        x * x + y * y >= 0,
        (-x) * (-x) + (-y) * (-y) == x * x + y * y,
        (x * x + y * y == 0) ==> (x == 0 && y == 0),
{
}

/// Every projection of a point of `s` lies between the least and the greatest
/// projection, and both extremes are attained.
pub proof fn lemma_proj_bounds(s: Seq<Vec2>, n: Vec2)
    requires
        s.len() >= 1,
    ensures
        min_proj(s, n) <= max_proj(s, n),
        forall|k: int| 0 <= k < s.len() ==> min_proj(s, n) <= #[trigger] dot(n, s[k]) <= max_proj(s, n),
        exists|k: int| 0 <= k < s.len() && min_proj(s, n) == dot(n, s[k]),
        exists|k: int| 0 <= k < s.len() && max_proj(s, n) == dot(n, s[k]),
    decreases s.len(),
{
    if s.len() > 1 {
        lemma_proj_bounds(s.drop_last(), n);
        assert(forall|k: int| 0 <= k < s.len() - 1 ==> s.drop_last()[k] == s[k]);
        assert(s.last() == s[s.len() - 1]);
    }
}

/// Projecting onto the reversed axis negates and swaps the extremes.
pub proof fn lemma_proj_neg(s: Seq<Vec2>, n: Vec2)
    requires
        s.len() >= 1,
        n.within(AX_BOUND as int),
    ensures
        min_proj(s, neg_vec(n)) == -max_proj(s, n),
        max_proj(s, neg_vec(n)) == -min_proj(s, n),
    decreases s.len(),
{
    let m = neg_vec(n);
    assert forall|p: Vec2| dot(m, p) == -dot(n, p) by {
        assert((-n.x) * p.x == -(n.x * p.x) && (-n.y) * p.y == -(n.y * p.y))
            by (nonlinear_arith);
    }
    if s.len() > 1 {
        lemma_proj_neg(s.drop_last(), n);
    }
}

/// An axis of squared length zero projects everything to zero, so the overlap
/// along it is zero.
pub proof fn lemma_zero_axis(a: Seq<Vec2>, b: Seq<Vec2>, n: Vec2)
    requires
        a.len() >= 1,
        b.len() >= 1,
        sqlen(n) == 0,
    ensures
        overlap_amt(a, b, n) == 0,
{
    lemma_sqlen_facts(n.x as int, n.y as int);
    assert forall|p: Vec2| dot(n, p) == 0 by {
        assert(0int * p.x == 0 && 0int * p.y == 0) by (nonlinear_arith);
    }
    lemma_proj_bounds(a, n);
    lemma_proj_bounds(b, n);
}

/// Transitivity of the cross-multiplied depth comparison: if the current best
/// is no deeper than axis `j`, and a new axis is strictly tighter than the
/// best, the new axis is no deeper than axis `j` either.
pub proof fn lemma_tighter_trans(bo: int, bnn: int, o: int, nn: int, oj: int, sj: int)
    by (nonlinear_arith)
    requires
        bo > 0,
        bnn > 0,
        o > 0,
        nn > 0,
        sj >= 0,
        bo * bo * sj <= oj * oj * bnn,
        o * o * bnn < bo * bo * nn,
    ensures
        o * o * sj <= oj * oj * nn,
{
    assert((o * o * sj) * bnn <= (oj * oj * nn) * bnn);
}

/// The strict variant: a new axis strictly tighter than the best is
/// strictly tighter than every axis the best was no deeper than, provided
/// that axis is not degenerate.
pub proof fn lemma_tighter_trans_strict(bo: int, bnn: int, o: int, nn: int, oj: int, sj: int)
    by (nonlinear_arith)
    requires
        bo > 0,
        bnn > 0,
        o > 0,
        nn > 0,
        sj > 0,
        bo * bo * sj <= oj * oj * bnn,
        o * o * bnn < bo * bo * nn,
    ensures
        o * o * sj < oj * oj * nn,
{
    assert((o * o * sj) * bnn < (oj * oj * nn) * bnn);
}

/// Products staying inside `i128` for the depth comparison.
pub proof fn lemma_cmp_range(o: int, nn: int)
    by (nonlinear_arith)
    requires
        0 < o <= 1099511627776,
        0 < nn <= 549755813888,
    ensures
        o * o <= 1208925819614629174706176,
        o * o * nn <= 664613997892457936451903530140172288,
{
}

/// Projection of `p` onto `n`, in machine integers.
fn dot_i64(n: Vec2, p: Vec2) -> (r: i64)
    requires
        n.within(AX_BOUND as int),
        p.within(AX_BOUND as int),
    ensures
        r == dot(n, p),
        -DOT_BOUND <= r <= DOT_BOUND,
{
    proof {
        lemma_dot_range(n, p);
    }
    n.x * p.x + n.y * p.y
}

/// The least and greatest projections of the points onto `n`.
fn project_interval(pts: &Vec<Vec2>, n: Vec2) -> (r: (i64, i64))
    requires
        pts@.len() >= 1,
        pts_within(pts@, AX_BOUND as int),
        n.within(AX_BOUND as int),
    ensures
        r.0 == min_proj(pts@, n),
        r.1 == max_proj(pts@, n),
        -DOT_BOUND <= r.0 <= r.1 <= DOT_BOUND,
{
    let ghost s = pts@;
    let first = dot_i64(n, pts[0]);
    let mut mn = first;
    let mut mx = first;
    proof {
        assert(s.take(1) =~= seq![s[0]]);
    }
    for i in 1..pts.len()
        invariant
            1 <= i <= s.len(),
            s == pts@,
            pts_within(s, AX_BOUND as int),
            n.within(AX_BOUND as int),
            mn == min_proj(s.take(i as int), n),
            mx == max_proj(s.take(i as int), n),
            -DOT_BOUND <= mn <= DOT_BOUND,
            -DOT_BOUND <= mx <= DOT_BOUND,
    {
        let d = dot_i64(n, pts[i]);
        proof {
            assert(s.take(i + 1).drop_last() =~= s.take(i as int));
            assert(s.take(i + 1).last() == s[i as int]);
            assert(s.take(i + 1).len() == i + 1);
        }
        if d < mn {
            mn = d;
        }
        if d > mx {
            mx = d;
        }
    }
    proof {
        assert(s.take(s.len() as int) =~= s);
        lemma_proj_bounds(s, n);
    }
    (mn, mx)
}

/// Carry local points into world space by a translation.
pub fn world_vec(pts: &Vec<Vec2>, pos: Vec2) -> (r: Vec<Vec2>)
    requires
        pts_within(pts@, crate::vec2::SHAPE_LIMIT as int),
        pos.within(crate::vec2::INDEX_LIMIT as int),
    ensures
        r@ == world_pts(pts@, pos),
        r@.len() == pts@.len(),
        pts_within(r@, PT_BOUND as int),
{
    let mut r: Vec<Vec2> = Vec::new();
    for i in 0..pts.len()
        invariant
            r@.len() == i,
            pts_within(pts@, crate::vec2::SHAPE_LIMIT as int),
            pos.within(crate::vec2::INDEX_LIMIT as int),
            forall|k: int| 0 <= k < i ==> r@[k] == world_pts(pts@, pos)[k],
            pts_within(r@, PT_BOUND as int),
    {
        let w = pts[i].add(pos);
        r.push(w);
    }
    proof {
        assert(r@ =~= world_pts(pts@, pos));
    }
    r
}

/// Strict cross-multiplied depth comparison: the axis with overlap `o2` and
/// squared length `nn2` has a strictly smaller normalized penetration than
/// the axis with `o1`, `nn1`.
fn tighter(o1: i64, nn1: i64, o2: i64, nn2: i64) -> (r: bool)
    requires
        0 < o1 <= OVERLAP_BOUND,
        0 < o2 <= OVERLAP_BOUND,
        0 < nn1 <= NN_BOUND,
        0 < nn2 <= NN_BOUND,
    ensures
        r == (o2 * o2 * nn1 < o1 * o1 * nn2),
{
    proof {
        lemma_cmp_range(o1 as int, nn1 as int);
        lemma_cmp_range(o2 as int, nn2 as int);
        lemma_cmp_range(o1 as int, nn2 as int);
        lemma_cmp_range(o2 as int, nn1 as int);
    }
    let l: i128 = (o2 as i128) * (o2 as i128) * (nn1 as i128);
    let r: i128 = (o1 as i128) * (o1 as i128) * (nn2 as i128);
    l < r
}

/// The world-space normal of edge `i` of the polygon.
fn edge_axis(s: &Vec<Vec2>, i: usize) -> (n: Vec2)
    requires
        i < s@.len(),
        pts_within(s@, PT_BOUND as int),
    ensures
        n == axis_of(s@, i as int),
        n.within(AX_BOUND as int),
{
    let l = s.len();
    let p1 = s[i];
    let j = if i + 1 == l {
        0
    } else {
        i + 1
    };
    let p2 = s[j];
    Vec2 { x: p2.y - p1.y, y: p1.x - p2.x }
}

/// Overlap, squared axis length, and the interval midpoint sums of both
/// shapes along one candidate axis.
fn eval_axis(wa: &Vec<Vec2>, wb: &Vec<Vec2>, n: Vec2) -> (r: (i64, i64, i64, i64))
    requires
        wa@.len() >= 1,
        wb@.len() >= 1,
        pts_within(wa@, PT_BOUND as int),
        pts_within(wb@, PT_BOUND as int),
        n.within(AX_BOUND as int),
    ensures
        r.0 == overlap_amt(wa@, wb@, n),
        r.1 == sqlen(n),
        r.2 == min_proj(wa@, n) + max_proj(wa@, n),
        r.3 == min_proj(wb@, n) + max_proj(wb@, n),
        -OVERLAP_BOUND <= r.0 <= OVERLAP_BOUND,
        0 <= r.1 <= NN_BOUND,
        r.0 > 0 ==> r.1 > 0,
{
    proof {
        assert forall|k: int| 0 <= k < wa@.len() implies (#[trigger] wa@[k]).within(
            AX_BOUND as int,
        ) by {
            assert(wa@[k].within(PT_BOUND as int));
        }
        assert forall|k: int| 0 <= k < wb@.len() implies (#[trigger] wb@[k]).within(
            AX_BOUND as int,
        ) by {
            assert(wb@[k].within(PT_BOUND as int));
        }
    }
    let (amin, amax) = project_interval(wa, n);
    let (bmin, bmax) = project_interval(wb, n);
    let lo = if amax <= bmax {
        amax
    } else {
        bmax
    };
    let hi = if amin >= bmin {
        amin
    } else {
        bmin
    };
    let o = lo - hi;
    let nn = dot_i64(n, n);
    proof {
        lemma_sqlen_facts(n.x as int, n.y as int);
        if o > 0 && nn == 0 {
            lemma_zero_axis(wa@, wb@, n);
        }
    }
    (o, nn, amin + amax, bmin + bmax)
}

/// Separating-axis test with minimum-translation output for two convex
/// polygons given by their world-space vertices.
///
/// Returns `None` exactly when some edge normal of either polygon separates
/// the two vertex sets; a zero-width overlap (exact touching) counts as
/// separated. Otherwise returns the axis of least normalized penetration,
/// with candidates tried in a fixed deterministic order (all edges of `a`,
/// then all edges of `b`, the first axis kept on ties) and the axis oriented
/// from `a` toward `b`.
pub fn sat_mtv(wa: &Vec<Vec2>, wb: &Vec<Vec2>) -> (r: Option<Mtv>)
    requires
        wa@.len() >= 3,
        wb@.len() >= 3,
        pts_within(wa@, PT_BOUND as int),
        pts_within(wb@, PT_BOUND as int),
    ensures
        r.is_some() <==> !has_sep_axis(wa@, wb@),
        r.is_some() ==> mtv_valid(r.unwrap(), wa@, wb@) && r.unwrap().bounded(),
{
    let na = wa.len();
    let nb = wb.len();
    let n0 = edge_axis(wa, 0);
    let (o0, nn0, as0, bs0) = eval_axis(wa, wb, n0);
    if o0 <= 0 {
        proof {
            assert(sep_axis(wa@, wb@, axis_of(wa@, 0)));
        }
        return None;
    }
    let mut bnx = n0.x;
    let mut bny = n0.y;
    let mut bo = o0;
    let mut bnn = nn0;
    let mut basum = as0;
    let mut bbsum = bs0;
    let ghost mut bsrc: (bool, int) = (true, 0int);
    for i in 1..na
        invariant
            1 <= i <= na,
            na == wa@.len(),
            nb == wb@.len(),
            wa@.len() >= 3,
            wb@.len() >= 3,
            pts_within(wa@, PT_BOUND as int),
            pts_within(wb@, PT_BOUND as int),
            forall|j: int| 0 <= j < i ==> !sep_axis(wa@, wb@, #[trigger] axis_of(wa@, j)),
            bsrc.0 && 0 <= bsrc.1 < i,
            (Vec2 { x: bnx, y: bny }) == axis_of(wa@, bsrc.1),
            bo == overlap_amt(wa@, wb@, (Vec2 { x: bnx, y: bny })),
            bnn == sqlen((Vec2 { x: bnx, y: bny })),
            basum == min_proj(wa@, (Vec2 { x: bnx, y: bny })) + max_proj(
                wa@,
                (Vec2 { x: bnx, y: bny }),
            ),
            bbsum == min_proj(wb@, (Vec2 { x: bnx, y: bny })) + max_proj(
                wb@,
                (Vec2 { x: bnx, y: bny }),
            ),
            0 < bo <= OVERLAP_BOUND,
            0 < bnn <= NN_BOUND,
            (Vec2 { x: bnx, y: bny }).within(AX_BOUND as int),
            forall|j: int|
                0 <= j < i ==> bo * bo * sqlen(#[trigger] axis_of(wa@, j)) <= overlap_amt(
                    wa@,
                    wb@,
                    axis_of(wa@, j),
                ) * overlap_amt(wa@, wb@, axis_of(wa@, j)) * bnn,
            forall|j: int|
                0 <= j < bsrc.1 ==> bo * bo * sqlen(#[trigger] axis_of(wa@, j)) < overlap_amt(
                    wa@,
                    wb@,
                    axis_of(wa@, j),
                ) * overlap_amt(wa@, wb@, axis_of(wa@, j)) * bnn,
    {
        let n = edge_axis(wa, i);
        let (o, nn, asum, bsum) = eval_axis(wa, wb, n);
        if o <= 0 {
            proof {
                assert(sep_axis(wa@, wb@, axis_of(wa@, i as int)));
            }
            return None;
        }
        if tighter(bo, bnn, o, nn) {
            proof {
                assert forall|j: int|
                    0 <= j < i implies o * o * sqlen(#[trigger] axis_of(wa@, j)) < overlap_amt(
                    wa@,
                    wb@,
                    axis_of(wa@, j),
                ) * overlap_amt(wa@, wb@, axis_of(wa@, j)) * nn by {
                    let aj = axis_of(wa@, j);
                    lemma_sqlen_facts(aj.x as int, aj.y as int);
                    if sqlen(aj) == 0 {
                        lemma_zero_axis(wa@, wb@, aj);
                    } else {
                        lemma_tighter_trans_strict(
                            bo as int,
                            bnn as int,
                            o as int,
                            nn as int,
                            overlap_amt(wa@, wb@, aj),
                            sqlen(aj),
                        );
                    }
                }
                assert forall|j: int|
                    0 <= j < i implies o * o * sqlen(#[trigger] axis_of(wa@, j)) <= overlap_amt(
                    wa@,
                    wb@,
                    axis_of(wa@, j),
                ) * overlap_amt(wa@, wb@, axis_of(wa@, j)) * nn by {
                    let aj = axis_of(wa@, j);
                    lemma_sqlen_facts(aj.x as int, aj.y as int);
                    lemma_tighter_trans(
                        bo as int,
                        bnn as int,
                        o as int,
                        nn as int,
                        overlap_amt(wa@, wb@, aj),
                        sqlen(aj),
                    );
                }
            }
            bnx = n.x;
            bny = n.y;
            bo = o;
            bnn = nn;
            basum = asum;
            bbsum = bsum;
            proof {
                bsrc = (true, i as int);
            }
        }
    }
    for i in 0..nb
        invariant
            0 <= i <= nb,
            na == wa@.len(),
            nb == wb@.len(),
            wa@.len() >= 3,
            wb@.len() >= 3,
            pts_within(wa@, PT_BOUND as int),
            pts_within(wb@, PT_BOUND as int),
            forall|j: int| 0 <= j < na ==> !sep_axis(wa@, wb@, #[trigger] axis_of(wa@, j)),
            forall|j: int| 0 <= j < i ==> !sep_axis(wa@, wb@, #[trigger] axis_of(wb@, j)),
            (bsrc.0 && 0 <= bsrc.1 < na && (Vec2 { x: bnx, y: bny }) == axis_of(wa@, bsrc.1))
                || (!bsrc.0 && 0 <= bsrc.1 < i && (Vec2 { x: bnx, y: bny }) == axis_of(
                wb@,
                bsrc.1,
            )),
            bo == overlap_amt(wa@, wb@, (Vec2 { x: bnx, y: bny })),
            bnn == sqlen((Vec2 { x: bnx, y: bny })),
            basum == min_proj(wa@, (Vec2 { x: bnx, y: bny })) + max_proj(
                wa@,
                (Vec2 { x: bnx, y: bny }),
            ),
            bbsum == min_proj(wb@, (Vec2 { x: bnx, y: bny })) + max_proj(
                wb@,
                (Vec2 { x: bnx, y: bny }),
            ),
            0 < bo <= OVERLAP_BOUND,
            0 < bnn <= NN_BOUND,
            (Vec2 { x: bnx, y: bny }).within(AX_BOUND as int),
            forall|j: int|
                0 <= j < na ==> bo * bo * sqlen(#[trigger] axis_of(wa@, j)) <= overlap_amt(
                    wa@,
                    wb@,
                    axis_of(wa@, j),
                ) * overlap_amt(wa@, wb@, axis_of(wa@, j)) * bnn,
            forall|j: int|
                0 <= j < i ==> bo * bo * sqlen(#[trigger] axis_of(wb@, j)) <= overlap_amt(
                    wa@,
                    wb@,
                    axis_of(wb@, j),
                ) * overlap_amt(wa@, wb@, axis_of(wb@, j)) * bnn,
            bsrc.0 ==> forall|j: int|
                0 <= j < bsrc.1 ==> bo * bo * sqlen(#[trigger] axis_of(wa@, j)) < overlap_amt(
                    wa@,
                    wb@,
                    axis_of(wa@, j),
                ) * overlap_amt(wa@, wb@, axis_of(wa@, j)) * bnn,
            !bsrc.0 ==> forall|j: int|
                0 <= j < na ==> bo * bo * sqlen(#[trigger] axis_of(wa@, j)) < overlap_amt(
                    wa@,
                    wb@,
                    axis_of(wa@, j),
                ) * overlap_amt(wa@, wb@, axis_of(wa@, j)) * bnn,
            !bsrc.0 ==> forall|j: int|
                0 <= j < bsrc.1 ==> bo * bo * sqlen(#[trigger] axis_of(wb@, j)) < overlap_amt(
                    wa@,
                    wb@,
                    axis_of(wb@, j),
                ) * overlap_amt(wa@, wb@, axis_of(wb@, j)) * bnn,
    {
        let n = edge_axis(wb, i);
        let (o, nn, asum, bsum) = eval_axis(wa, wb, n);
        if o <= 0 {
            proof {
                assert(sep_axis(wa@, wb@, axis_of(wb@, i as int)));
            }
            return None;
        }
        if tighter(bo, bnn, o, nn) {
            proof {
                assert forall|j: int|
                    0 <= j < na implies o * o * sqlen(#[trigger] axis_of(wa@, j)) < overlap_amt(
                    wa@,
                    wb@,
                    axis_of(wa@, j),
                ) * overlap_amt(wa@, wb@, axis_of(wa@, j)) * nn by {
                    let aj = axis_of(wa@, j);
                    lemma_sqlen_facts(aj.x as int, aj.y as int);
                    if sqlen(aj) == 0 {
                        lemma_zero_axis(wa@, wb@, aj);
                    } else {
                        lemma_tighter_trans_strict(
                            bo as int,
                            bnn as int,
                            o as int,
                            nn as int,
                            overlap_amt(wa@, wb@, aj),
                            sqlen(aj),
                        );
                    }
                }
                assert forall|j: int|
                    0 <= j < i implies o * o * sqlen(#[trigger] axis_of(wb@, j)) < overlap_amt(
                    wa@,
                    wb@,
                    axis_of(wb@, j),
                ) * overlap_amt(wa@, wb@, axis_of(wb@, j)) * nn by {
                    let aj = axis_of(wb@, j);
                    lemma_sqlen_facts(aj.x as int, aj.y as int);
                    if sqlen(aj) == 0 {
                        lemma_zero_axis(wa@, wb@, aj);
                    } else {
                        lemma_tighter_trans_strict(
                            bo as int,
                            bnn as int,
                            o as int,
                            nn as int,
                            overlap_amt(wa@, wb@, aj),
                            sqlen(aj),
                        );
                    }
                }
                assert forall|j: int|
                    0 <= j < na implies o * o * sqlen(#[trigger] axis_of(wa@, j)) <= overlap_amt(
                    wa@,
                    wb@,
                    axis_of(wa@, j),
                ) * overlap_amt(wa@, wb@, axis_of(wa@, j)) * nn by {
                    let aj = axis_of(wa@, j);
                    lemma_sqlen_facts(aj.x as int, aj.y as int);
                    lemma_tighter_trans(
                        bo as int,
                        bnn as int,
                        o as int,
                        nn as int,
                        overlap_amt(wa@, wb@, aj),
                        sqlen(aj),
                    );
                }
                assert forall|j: int|
                    0 <= j < i implies o * o * sqlen(#[trigger] axis_of(wb@, j)) <= overlap_amt(
                    wa@,
                    wb@,
                    axis_of(wb@, j),
                ) * overlap_amt(wa@, wb@, axis_of(wb@, j)) * nn by {
                    let aj = axis_of(wb@, j);
                    lemma_sqlen_facts(aj.x as int, aj.y as int);
                    lemma_tighter_trans(
                        bo as int,
                        bnn as int,
                        o as int,
                        nn as int,
                        overlap_amt(wa@, wb@, aj),
                        sqlen(aj),
                    );
                }
            }
            bnx = n.x;
            bny = n.y;
            bo = o;
            bnn = nn;
            basum = asum;
            bbsum = bsum;
            proof {
                bsrc = (false, i as int);
            }
        }
    }
    let ghost bvec = Vec2 { x: bnx, y: bny };
    let m = if basum > bbsum {
        proof {
            lemma_proj_neg(wa@, bvec);
            lemma_proj_neg(wb@, bvec);
            lemma_sqlen_facts(bnx as int, bny as int);
        }
        Mtv { nx: -bnx, ny: -bny, overlap: bo, nn: bnn }
    } else {
        Mtv { nx: bnx, ny: bny, overlap: bo, nn: bnn }
    };
    proof {
        assert(!has_sep_axis(wa@, wb@));
        if basum > bbsum {
            assert(m.axis() == neg_vec(bvec));
            assert(sqlen(m.axis()) == sqlen(bvec));
            assert(overlap_amt(wa@, wb@, m.axis()) == overlap_amt(wa@, wb@, bvec));
        }
        if bsrc.0 {
            assert(0 <= bsrc.1 < wa@.len() && (m.axis() == axis_of(wa@, bsrc.1) || m.axis()
                == neg_vec(axis_of(wa@, bsrc.1))) && (forall|j: int|
                0 <= j < bsrc.1 ==> strictly_shallower(m, wa@, wb@, #[trigger] axis_of(wa@, j))));
            assert(first_min_axis(m, wa@, wb@));
        } else {
            assert(0 <= bsrc.1 < wb@.len() && (m.axis() == axis_of(wb@, bsrc.1) || m.axis()
                == neg_vec(axis_of(wb@, bsrc.1))) && (forall|j: int|
                0 <= j < wa@.len() ==> strictly_shallower(m, wa@, wb@, #[trigger] axis_of(wa@, j)))
                && (forall|j: int|
                0 <= j < bsrc.1 ==> strictly_shallower(m, wa@, wb@, #[trigger] axis_of(wb@, j))));
            assert(first_min_axis(m, wa@, wb@));
        }
        assert(mtv_valid(m, wa@, wb@));
    }
    Some(m)
}


/// Shifting every point of a shape by one vector shifts every projection by
/// the projection of that vector.
proof fn lemma_proj_shift(s: Seq<Vec2>, pos: Vec2, pos2: Vec2, n: Vec2)
    requires
        s.len() >= 1,
        pts_within(s, crate::vec2::SHAPE_LIMIT as int),
        pos.within(crate::vec2::INDEX_LIMIT as int),
        pos2.within(crate::vec2::INDEX_LIMIT as int),
    ensures
        min_proj(world_pts(s, pos2), n) == min_proj(world_pts(s, pos), n) + (n.x * (pos2.x
            - pos.x) + n.y * (pos2.y - pos.y)),
        max_proj(world_pts(s, pos2), n) == max_proj(world_pts(s, pos), n) + (n.x * (pos2.x
            - pos.x) + n.y * (pos2.y - pos.y)),
    decreases s.len(),
{
    let w1 = world_pts(s, pos);
    let w2 = world_pts(s, pos2);
    let sh = n.x * (pos2.x - pos.x) + n.y * (pos2.y - pos.y);
    assert forall|k: int| 0 <= k < s.len() implies dot(n, #[trigger] w2[k]) == dot(n, w1[k])
        + sh by {
        assert(n.x * ((s[k].x + pos2.x) as i64) == n.x * ((s[k].x + pos.x) as i64) + n.x * (
        pos2.x - pos.x) && n.y * ((s[k].y + pos2.y) as i64) == n.y * ((s[k].y + pos.y) as i64)
            + n.y * (pos2.y - pos.y)) by (nonlinear_arith)
            requires
                ((s[k].x + pos2.x) as i64) == s[k].x + pos2.x,
                ((s[k].x + pos.x) as i64) == s[k].x + pos.x,
                ((s[k].y + pos2.y) as i64) == s[k].y + pos2.y,
                ((s[k].y + pos.y) as i64) == s[k].y + pos.y,
        ;
    }
    if s.len() > 1 {
        lemma_proj_shift(s.drop_last(), pos, pos2, n);
        assert(world_pts(s.drop_last(), pos) =~= w1.drop_last());
        assert(world_pts(s.drop_last(), pos2) =~= w2.drop_last());
        assert(w2.last() == w2[s.len() - 1] && w1.last() == w1[s.len() - 1]);
    }
}

/// A common translation carries a valid minimum-translation result along:
/// edge normals are differences of points, so they do not move, and both
/// shapes' projections shift by the same amount on every axis.
proof fn lemma_mtv_valid_shift(
    a: Seq<Vec2>,
    b: Seq<Vec2>,
    ta: Vec2,
    tb: Vec2,
    ta2: Vec2,
    tb2: Vec2,
    m: Mtv,
)
    requires
        a.len() >= 1,
        b.len() >= 1,
        pts_within(a, crate::vec2::SHAPE_LIMIT as int),
        pts_within(b, crate::vec2::SHAPE_LIMIT as int),
        ta.within(crate::vec2::INDEX_LIMIT as int),
        tb.within(crate::vec2::INDEX_LIMIT as int),
        ta2.within(crate::vec2::INDEX_LIMIT as int),
        tb2.within(crate::vec2::INDEX_LIMIT as int),
        ta2.x - ta.x == tb2.x - tb.x,
        ta2.y - ta.y == tb2.y - tb.y,
        mtv_valid(m, world_pts(a, ta), world_pts(b, tb)),
    ensures
        mtv_valid(m, world_pts(a, ta2), world_pts(b, tb2)),
{
    let wa1 = world_pts(a, ta);
    let wb1 = world_pts(b, tb);
    let wa2 = world_pts(a, ta2);
    let wb2 = world_pts(b, tb2);
    assert forall|i: int| 0 <= i < a.len() implies #[trigger] axis_of(wa2, i) == axis_of(
        wa1,
        i,
    ) by {
        assert(wa2.len() == a.len() && wa1.len() == a.len());
    }
    assert forall|i: int| 0 <= i < b.len() implies #[trigger] axis_of(wb2, i) == axis_of(
        wb1,
        i,
    ) by {
        assert(wb2.len() == b.len() && wb1.len() == b.len());
    }
    assert forall|n: Vec2| #[trigger] overlap_amt(wa2, wb2, n) == overlap_amt(wa1, wb1, n) by {
        lemma_proj_shift(a, ta, ta2, n);
        lemma_proj_shift(b, tb, tb2, n);
    }
    lemma_proj_shift(a, ta, ta2, m.axis());
    lemma_proj_shift(b, tb, tb2, m.axis());
    assert forall|i: int| 0 <= i < a.len() implies no_deeper(
        m,
        wa2,
        wb2,
        #[trigger] axis_of(wa2, i),
    ) by {
        assert(overlap_amt(wa2, wb2, axis_of(wa2, i)) == overlap_amt(wa1, wb1, axis_of(wa1, i)));
        assert(no_deeper(m, wa1, wb1, axis_of(wa1, i)));
    }
    assert forall|i: int| 0 <= i < b.len() implies no_deeper(
        m,
        wa2,
        wb2,
        #[trigger] axis_of(wb2, i),
    ) by {
        assert(overlap_amt(wa2, wb2, axis_of(wb2, i)) == overlap_amt(wa1, wb1, axis_of(wb1, i)));
        assert(no_deeper(m, wa1, wb1, axis_of(wb1, i)));
    }
    assert(first_min_axis(m, wa2, wb2)) by {
        if exists|i: int|
            0 <= i < wa1.len() && (m.axis() == axis_of(wa1, i) || m.axis() == neg_vec(
                axis_of(wa1, i),
            )) && (forall|j: int|
                0 <= j < i ==> strictly_shallower(m, wa1, wb1, #[trigger] axis_of(wa1, j))) {
            let i = choose|i: int|
                0 <= i < wa1.len() && (m.axis() == axis_of(wa1, i) || m.axis() == neg_vec(
                    axis_of(wa1, i),
                )) && (forall|j: int|
                    0 <= j < i ==> strictly_shallower(m, wa1, wb1, #[trigger] axis_of(wa1, j)));
            assert(m.axis() == axis_of(wa2, i) || m.axis() == neg_vec(axis_of(wa2, i)));
            assert forall|j: int| 0 <= j < i implies strictly_shallower(
                m,
                wa2,
                wb2,
                #[trigger] axis_of(wa2, j),
            ) by {
                assert(strictly_shallower(m, wa1, wb1, axis_of(wa1, j)));
            }
        } else {
            let i = choose|i: int|
                0 <= i < wb1.len() && (m.axis() == axis_of(wb1, i) || m.axis() == neg_vec(
                    axis_of(wb1, i),
                )) && (forall|j: int|
                    0 <= j < wa1.len() ==> strictly_shallower(
                        m,
                        wa1,
                        wb1,
                        #[trigger] axis_of(wa1, j),
                    )) && (forall|j: int|
                    0 <= j < i ==> strictly_shallower(m, wa1, wb1, #[trigger] axis_of(wb1, j)));
            assert(m.axis() == axis_of(wb2, i) || m.axis() == neg_vec(axis_of(wb2, i)));
            assert forall|j: int| 0 <= j < wa2.len() implies strictly_shallower(
                m,
                wa2,
                wb2,
                #[trigger] axis_of(wa2, j),
            ) by {
                assert(strictly_shallower(m, wa1, wb1, axis_of(wa1, j)));
            }
            assert forall|j: int| 0 <= j < i implies strictly_shallower(
                m,
                wa2,
                wb2,
                #[trigger] axis_of(wb2, j),
            ) by {
                assert(strictly_shallower(m, wa1, wb1, axis_of(wb1, j)));
            }
        }
    }
}

/// Translating both shapes of a pair by the same world vector moves no
/// edge normal and changes no projection gap: the separating-axis verdict
/// is unchanged, and a minimum-translation result valid for the pair at one
/// place is valid at the other — the engine's answer does not depend on
/// where in the world the pair sits.
pub proof fn lemma_translation_invariant(
    a: Seq<Vec2>,
    b: Seq<Vec2>,
    ta: Vec2,
    tb: Vec2,
    ta2: Vec2,
    tb2: Vec2,
)
    requires
        a.len() >= 1,
        b.len() >= 1,
        pts_within(a, crate::vec2::SHAPE_LIMIT as int),
        pts_within(b, crate::vec2::SHAPE_LIMIT as int),
        ta.within(crate::vec2::INDEX_LIMIT as int),
        tb.within(crate::vec2::INDEX_LIMIT as int),
        ta2.within(crate::vec2::INDEX_LIMIT as int),
        tb2.within(crate::vec2::INDEX_LIMIT as int),
        ta2.x - ta.x == tb2.x - tb.x,
        ta2.y - ta.y == tb2.y - tb.y,
    ensures
        has_sep_axis(world_pts(a, ta2), world_pts(b, tb2)) == has_sep_axis(
            world_pts(a, ta),
            world_pts(b, tb),
        ),
        forall|m: Mtv|
            #[trigger] mtv_valid(m, world_pts(a, ta2), world_pts(b, tb2)) == mtv_valid(
                m,
                world_pts(a, ta),
                world_pts(b, tb),
            ),
{
    let wa1 = world_pts(a, ta);
    let wb1 = world_pts(b, tb);
    let wa2 = world_pts(a, ta2);
    let wb2 = world_pts(b, tb2);
    assert forall|i: int| 0 <= i < a.len() implies #[trigger] axis_of(wa2, i) == axis_of(
        wa1,
        i,
    ) by {
        assert(wa2.len() == a.len() && wa1.len() == a.len());
    }
    assert forall|i: int| 0 <= i < b.len() implies #[trigger] axis_of(wb2, i) == axis_of(
        wb1,
        i,
    ) by {
        assert(wb2.len() == b.len() && wb1.len() == b.len());
    }
    assert forall|n: Vec2| #[trigger] overlap_amt(wa2, wb2, n) == overlap_amt(wa1, wb1, n) by {
        lemma_proj_shift(a, ta, ta2, n);
        lemma_proj_shift(b, tb, tb2, n);
    }
    assert(has_sep_axis(wa2, wb2) == has_sep_axis(wa1, wb1)) by {
        if has_sep_axis(wa1, wb1) {
            if exists|i: int| 0 <= i < wa1.len() && sep_axis(wa1, wb1, axis_of(wa1, i)) {
                let i = choose|i: int| 0 <= i < wa1.len() && sep_axis(wa1, wb1, axis_of(wa1, i));
                assert(sep_axis(wa2, wb2, axis_of(wa2, i)));
            } else {
                let i = choose|i: int| 0 <= i < wb1.len() && sep_axis(wa1, wb1, axis_of(wb1, i));
                assert(sep_axis(wa2, wb2, axis_of(wb2, i)));
            }
        }
        if has_sep_axis(wa2, wb2) {
            if exists|i: int| 0 <= i < wa2.len() && sep_axis(wa2, wb2, axis_of(wa2, i)) {
                let i = choose|i: int| 0 <= i < wa2.len() && sep_axis(wa2, wb2, axis_of(wa2, i));
                assert(sep_axis(wa1, wb1, axis_of(wa1, i)));
            } else {
                let i = choose|i: int| 0 <= i < wb2.len() && sep_axis(wa2, wb2, axis_of(wb2, i));
                assert(sep_axis(wa1, wb1, axis_of(wb1, i)));
            }
        }
    }
    assert forall|m: Mtv| #[trigger] mtv_valid(m, wa2, wb2) == mtv_valid(m, wa1, wb1) by {
        if mtv_valid(m, wa1, wb1) {
            lemma_mtv_valid_shift(a, b, ta, tb, ta2, tb2, m);
        }
        if mtv_valid(m, wa2, wb2) {
            lemma_mtv_valid_shift(a, b, ta2, tb2, ta, tb, m);
        }
    }
}

} // verus!

use vstd::prelude::*;

verus! {

/// Largest magnitude a world position coordinate may take; position updates
/// saturate here so that every later computation stays inside `i64`.
pub const POS_LIMIT: i64 = 1099511627776;

/// Largest magnitude allowed for a local polygon vertex coordinate and for a
/// broad-phase boundary radius.
pub const SHAPE_LIMIT: i64 = 65536;

/// Largest magnitude allowed for a coordinate of the spatial-index root
/// boundary; a position inside it is safe for the narrow phase.
pub const INDEX_LIMIT: i64 = 131072;

/// Largest magnitude allowed for a force component.
pub const FORCE_LIMIT: i64 = 65536;

/// A plane vector with fixed-point integer coordinates.
#[derive(Clone, Copy, PartialEq, Eq, Structural, Debug)]
pub struct Vec2 {
    pub x: i64,
    pub y: i64,
}

/// Truncating division by a positive divisor: the quotient is rounded toward
/// zero, as Rust's `/` rounds on signed integers.
pub open spec fn tdiv(a: int, b: int) -> int
    recommends
        b > 0,
{
    if a >= 0 {
        a / b
    } else {
        -((-a) / b)
    }
}

/// Saturate a coordinate into `[-POS_LIMIT, POS_LIMIT]`.
pub open spec fn clamp_pos(v: int) -> int {
    if v > POS_LIMIT as int {
        POS_LIMIT as int
    } else if v < -(POS_LIMIT as int) {
        -(POS_LIMIT as int)
    } else {
        v
    }
}

/// The quotient of a truncating division never exceeds the dividend in
/// magnitude.
pub proof fn lemma_tdiv_bounds(a: int, b: int)
    requires
        b >= 1,
    ensures
        a >= 0 ==> 0 <= tdiv(a, b) <= a,
        a < 0 ==> a <= tdiv(a, b) <= 0,
{
    if a >= 0 {
        vstd::arithmetic::div_mod::lemma_div_pos_is_pos(a, b);
        vstd::arithmetic::div_mod::lemma_div_nonincreasing(a, b);
    } else {
        vstd::arithmetic::div_mod::lemma_div_pos_is_pos(-a, b);
        vstd::arithmetic::div_mod::lemma_div_nonincreasing(-a, b);
    }
}

/// Truncating division of an `i64` by a positive divisor.
pub fn div_trunc(a: i64, b: i64) -> (r: i64)
    requires
        b >= 1,
        a > i64::MIN,
    ensures
        r == tdiv(a as int, b as int),
        a >= 0 ==> 0 <= r <= a,
        a < 0 ==> a <= r <= 0,
{
    proof {
        lemma_tdiv_bounds(a as int, b as int);
    }
    if a >= 0 {
        let q: u64 = (a as u64) / (b as u64);
        q as i64
    } else {
        let q: u64 = ((-a) as u64) / (b as u64);
        -(q as i64)
    }
}

impl Vec2 {
    /// Build a vector from its coordinates.
    pub fn new(x: i64, y: i64) -> (r: Vec2)
        ensures
            r.x == x,
            r.y == y,
    {
        Vec2 { x, y }
    }

    /// Component-wise sum.
    pub fn add(self, o: Vec2) -> (r: Vec2)
        requires
            i64::MIN <= self.x + o.x <= i64::MAX,
            i64::MIN <= self.y + o.y <= i64::MAX,
        ensures
            r.x == self.x + o.x,
            r.y == self.y + o.y,
    {
        Vec2 { x: self.x + o.x, y: self.y + o.y }
    }

    /// Component-wise difference.
    pub fn sub(self, o: Vec2) -> (r: Vec2)
        requires
            i64::MIN <= self.x - o.x <= i64::MAX,
            i64::MIN <= self.y - o.y <= i64::MAX,
        ensures
            r.x == self.x - o.x,
            r.y == self.y - o.y,
    {
        Vec2 { x: self.x - o.x, y: self.y - o.y }
    }

    /// Component-wise negation.
    pub fn neg(self) -> (r: Vec2)
        requires
            self.x > i64::MIN,
            self.y > i64::MIN,
        ensures
            r.x == -self.x,
            r.y == -self.y,
    {
        Vec2 { x: -self.x, y: -self.y }
    }

    /// Sum saturated into the world coordinate range.
    pub fn add_clamped(self, o: Vec2) -> (r: Vec2)
        requires
            -POS_LIMIT <= self.x <= POS_LIMIT,
            -POS_LIMIT <= self.y <= POS_LIMIT,
            -1152921504606846976 <= o.x <= 1152921504606846976,
            -1152921504606846976 <= o.y <= 1152921504606846976,
        ensures
            r.x == clamp_pos(self.x + o.x),
            r.y == clamp_pos(self.y + o.y),
            -POS_LIMIT <= r.x <= POS_LIMIT,
            -POS_LIMIT <= r.y <= POS_LIMIT,
    {
        let sx: i64 = self.x + o.x;
        let sy: i64 = self.y + o.y;
        let rx: i64 = if sx > POS_LIMIT {
            POS_LIMIT
        } else if sx < -POS_LIMIT {
            -POS_LIMIT
        } else {
            sx
        };
        let ry: i64 = if sy > POS_LIMIT {
            POS_LIMIT
        } else if sy < -POS_LIMIT {
            -POS_LIMIT
        } else {
            sy
        };
        Vec2 { x: rx, y: ry }
    }

    /// Both coordinates lie within `k` in magnitude.
    pub open spec fn within(self, k: int) -> bool {
        &&& -k <= self.x <= k
        &&& -k <= self.y <= k
    }
}

} // verus!

use vstd::prelude::*;

verus! {

/// Largest magnitude of a coordinate for which the squared distance of two
/// points stays inside `i64`.
pub const MAX_COORD: i64 = 536870912;

/// A 3-component fixed-point vector: position, velocity or separation.
#[derive(Clone, Copy, PartialEq, Eq, Structural, Debug)]
pub struct Point(pub i64, pub i64, pub i64);

/// Position and velocity of every particle, as two parallel sequences.
pub struct Particles {
    pub pvec: Vec<Point>,
    pub uvec: Vec<Point>,
}

impl Particles {
    pub open spec fn wf(&self) -> bool {
        self.pvec@.len() == self.uvec@.len()
    }
}

/// Every coordinate lies in `[-MAX_COORD, MAX_COORD]`.
pub open spec fn bounded(p: Point) -> bool {
    -MAX_COORD <= p.0 <= MAX_COORD && -MAX_COORD <= p.1 <= MAX_COORD && -MAX_COORD <= p.2
        <= MAX_COORD
}

/// Squared Euclidean length of the separation `p - q`.
pub open spec fn dist2(p: Point, q: Point) -> int {
    (p.0 - q.0) * (p.0 - q.0) + (p.1 - q.1) * (p.1 - q.1) + (p.2 - q.2) * (p.2 - q.2)
}

/// The squared distance does not depend on the order of the two points.
pub proof fn lemma_dist2_symmetric(p: Point, q: Point)
    ensures
        dist2(p, q) == dist2(q, p),
{
    assert(dist2(p, q) == dist2(q, p)) by (nonlinear_arith);
}

/// Squared distance of two bounded points.
pub fn distance_squared(p: &Point, q: &Point) -> (r: i64)
    requires
        bounded(*p),
        bounded(*q),
    ensures
        r == dist2(*p, *q),
        r >= 0,
{
    let dx = p.0 - q.0;
    let dy = p.1 - q.1;
    let dz = p.2 - q.2;
    assert(0 <= dx * dx <= 4 * MAX_COORD * MAX_COORD) by (nonlinear_arith)
        requires
            -2 * MAX_COORD <= dx <= 2 * MAX_COORD,
    ;
    assert(0 <= dy * dy <= 4 * MAX_COORD * MAX_COORD) by (nonlinear_arith)
        requires
            -2 * MAX_COORD <= dy <= 2 * MAX_COORD,
    ;
    assert(0 <= dz * dz <= 4 * MAX_COORD * MAX_COORD) by (nonlinear_arith)
        requires
            -2 * MAX_COORD <= dz <= 2 * MAX_COORD,
    ;
    dx * dx + dy * dy + dz * dz
}

impl Point {
    /// The zero vector.
    pub fn new() -> (r: Point)
        ensures
            r == Point(0, 0, 0),
    {
        Point(0, 0, 0)
    }

    /// Sum of the three components.
    pub fn sum(&self) -> (r: i64)
        requires
            i64::MIN <= self.0 + self.1 + self.2 <= i64::MAX,
            i64::MIN <= self.0 + self.1 <= i64::MAX,
        ensures
            r == self.0 + self.1 + self.2,
    {
        self.0 + self.1 + self.2
    }

    /// Componentwise sum.
    pub fn add(self, other: Point) -> (r: Point)
        requires
            i64::MIN <= self.0 + other.0 <= i64::MAX,
            i64::MIN <= self.1 + other.1 <= i64::MAX,
            i64::MIN <= self.2 + other.2 <= i64::MAX,
        ensures
            r == Point((self.0 + other.0) as i64, (self.1 + other.1) as i64, (self.2 + other.2) as i64),
    {
        Point(self.0 + other.0, self.1 + other.1, self.2 + other.2)
    }

    /// Componentwise difference.
    pub fn sub(self, other: Point) -> (r: Point)
        requires
            i64::MIN <= self.0 - other.0 <= i64::MAX,
            i64::MIN <= self.1 - other.1 <= i64::MAX,
            i64::MIN <= self.2 - other.2 <= i64::MAX,
        ensures
            r == Point((self.0 - other.0) as i64, (self.1 - other.1) as i64, (self.2 - other.2) as i64),
    {
        Point(self.0 - other.0, self.1 - other.1, self.2 - other.2)
    }

    /// Componentwise product.
    pub fn mul(self, other: Point) -> (r: Point)
        requires
            i64::MIN <= self.0 * other.0 <= i64::MAX,
            i64::MIN <= self.1 * other.1 <= i64::MAX,
            i64::MIN <= self.2 * other.2 <= i64::MAX,
        ensures
            r == Point((self.0 * other.0) as i64, (self.1 * other.1) as i64, (self.2 * other.2) as i64),
    {
        Point(self.0 * other.0, self.1 * other.1, self.2 * other.2)
    }
}

/// Coefficient of the initial velocity field `u = (a0 * x, 0, -a0 * z)`.
pub const VELOCITY_GAIN: i64 = 50;

/// The initial velocity field of a set of positions: particle `i` gets
/// `(50 * x, 0, -50 * z)`, a shear flow.
pub fn genvelocity(pvec: &Vec<Point>) -> (uvec: Vec<Point>)
    requires
        forall|i: int| 0 <= i < pvec@.len() ==> bounded(#[trigger] pvec@[i]),
    ensures
        uvec@.len() == pvec@.len(),
        forall|i: int|
            0 <= i < pvec@.len() ==> {
                &&& #[trigger] uvec@[i].0 == VELOCITY_GAIN * pvec@[i].0
                &&& uvec@[i].1 == 0
                &&& uvec@[i].2 == -VELOCITY_GAIN * pvec@[i].2
            },
{
    let n = pvec.len();
    let mut uvec: Vec<Point> = Vec::with_capacity(n);
    let gain = Point(VELOCITY_GAIN, 0, -VELOCITY_GAIN);
    let mut i: usize = 0;
    while i < n
        invariant
            n == pvec@.len(),
            i <= n,
            gain.0 == VELOCITY_GAIN && gain.1 == 0 && gain.2 == -VELOCITY_GAIN,
            forall|k: int| 0 <= k < pvec@.len() ==> bounded(#[trigger] pvec@[k]),
            uvec@.len() == i,
            forall|k: int|
                0 <= k < i ==> {
                    &&& #[trigger] uvec@[k].0 == VELOCITY_GAIN * pvec@[k].0
                    &&& uvec@[k].1 == 0
                    &&& uvec@[k].2 == -VELOCITY_GAIN * pvec@[k].2
                },
        decreases n - i,
    {
        let p = pvec[i];
        assert(bounded(p));
        assert(-50 * MAX_COORD <= p.0 * 50 <= 50 * MAX_COORD) by (nonlinear_arith)
            requires
                -MAX_COORD <= p.0 <= MAX_COORD,
        ;
        assert(-50 * MAX_COORD <= p.2 * -50 <= 50 * MAX_COORD) by (nonlinear_arith)
            requires
                -MAX_COORD <= p.2 <= MAX_COORD,
        ;
        uvec.push(p.mul(gain));
        i += 1;
    }
    uvec
}

} // verus!

use vstd::prelude::*;
use crate::adjacency::{cell_ids, CellList};
use crate::arith::{
    flat_of, lemma_close_quotients, lemma_flatten, lemma_lex_order, lemma_part_width,
    lemma_unflatten,
};
use vstd::set_lib::{lemma_int_range, lemma_len_subset, set_int_range};
use vstd::arithmetic::div_mod::lemma_fundamental_div_mod_converse;
use crate::point::{dist2, distance_squared, lemma_dist2_symmetric, Point, MAX_COORD};

verus! {

/// Largest number of cells a grid may hold.
pub const MAX_CELLS: usize = 16777216;

/// Why a grid cannot be built.
#[derive(Clone, Copy, PartialEq, Eq, Structural, Debug)]
pub enum GridError {
    /// The radius is not positive, or the domain is narrower than the
    /// radius along some axis.
    DegenerateDomain,
}

/// A point lies in the non-negative octant, within the coordinate bound.
pub open spec fn in_domain(p: Point) -> bool {
    0 <= p.0 <= MAX_COORD && 0 <= p.1 <= MAX_COORD && 0 <= p.2 <= MAX_COORD
}

/// Every point of `pts` lies in the domain.
pub open spec fn all_in_domain(pts: Seq<Point>) -> bool {
    forall|i: int| 0 <= i < pts.len() ==> in_domain(#[trigger] pts[i])
}

/// The cell, along one axis of `s` cells of width `w`, that holds the
/// coordinate `v`; values past the last cell are held by the last cell.
pub open spec fn axis_cell(v: int, w: int, s: int) -> int {
    if v / w < s {
        v / w
    } else {
        s - 1
    }
}

/// `ids` is the list reached from `start` by following `successor` links,
/// ending in `None`.
pub open spec fn is_chain(successor: Seq<Option<usize>>, start: Option<usize>, ids: Seq<usize>) -> bool {
    &&& ids.len() == 0 <==> start is None
    &&& ids.len() > 0 ==> start == Some(ids[0])
    &&& forall|k: int|
        0 <= k < ids.len() ==> {
            &&& #[trigger] ids[k] < successor.len()
            &&& successor[ids[k] as int] == if k + 1 < ids.len() {
                Some(ids[k + 1])
            } else {
                None
            }
        }
}

/// `e` names two points `e.0 < e.1` of `pts` closer than `radius`, with
/// their squared distance.
pub open spec fn record_ok(pts: Seq<Point>, radius: int, e: (usize, usize, i64)) -> bool {
    &&& e.0 < e.1 < pts.len()
    &&& e.2 == dist2(pts[e.0 as int], pts[e.1 as int])
    &&& e.2 < radius * radius
}

/// `r` lists every pair `i < j` of points of `pts` closer than `radius`,
/// each once, with its squared distance, and nothing else.
pub open spec fn is_neighbor_list(pts: Seq<Point>, radius: int, r: Seq<(usize, usize, i64)>) -> bool {
    &&& forall|k: int| 0 <= k < r.len() ==> #[trigger] record_ok(pts, radius, r[k])
    &&& forall|k1: int, k2: int|
        0 <= k1 < k2 < r.len() ==> !(r[k1].0 == r[k2].0 && r[k1].1 == r[k2].1)
    &&& forall|i: int, j: int|
        0 <= i < j < pts.len() && #[trigger] dist2(pts[i], pts[j]) < radius * radius ==> exists|k: int|
            0 <= k < r.len() && r[k].0 == i && r[k].1 == j
}

/// Some record of `r` joins points `i` and `j`, in either order.
pub open spec fn linked(r: Seq<(usize, usize, i64)>, i: int, j: int) -> bool {
    exists|k: int|
        0 <= k < r.len() && ((r[k].0 == i && r[k].1 == j) || (r[k].0 == j && r[k].1 == i))
}

/// The pairs `(i, j)` that a list of neighbour records names.
pub open spec fn pair_set(r: Seq<(usize, usize, i64)>) -> Set<(int, int)> {
    Set::new(|p: (int, int)| exists|k: int| 0 <= k < r.len() && r[k].0 == p.0 && r[k].1 == p.1)
}

/// Any two neighbour lists of the same points and radius name the same
/// pairs: a list from the grid and one from checking every pair agree.
pub proof fn lemma_neighbor_lists_agree(
    pts: Seq<Point>,
    radius: int,
    a: Seq<(usize, usize, i64)>,
    b: Seq<(usize, usize, i64)>,
)
    requires
        is_neighbor_list(pts, radius, a),
        is_neighbor_list(pts, radius, b),
    ensures
        pair_set(a) == pair_set(b),
{
    assert forall|p: (int, int)| pair_set(a).contains(p) implies pair_set(b).contains(p) by {
        let k = choose|k: int| 0 <= k < a.len() && a[k].0 == p.0 && a[k].1 == p.1;
        assert(record_ok(pts, radius, a[k]));
    }
    assert forall|p: (int, int)| pair_set(b).contains(p) implies pair_set(a).contains(p) by {
        let k = choose|k: int| 0 <= k < b.len() && b[k].0 == p.0 && b[k].1 == p.1;
        assert(record_ok(pts, radius, b[k]));
    }
    assert(pair_set(a) =~= pair_set(b));
}

/// Every pair of points closer than `radius`, found by checking all pairs.
pub fn brute_force_pairs(points: &[Point], radius: i64) -> (r: Vec<(usize, usize, i64)>)
    requires
        all_in_domain(points@),
        0 < radius <= MAX_COORD,
    ensures
        is_neighbor_list(points@, radius as int, r@),
{
    let n = points.len();
    assert(0 < radius * radius <= MAX_COORD * MAX_COORD) by (nonlinear_arith)
        requires
            0 < radius <= MAX_COORD,
    ;
    let squared_radius = radius * radius;
    let mut r: Vec<(usize, usize, i64)> = Vec::new();
    let mut i: usize = 0;
    while i < n
        invariant
            n == points@.len(),
            all_in_domain(points@),
            squared_radius == radius * radius,
            i <= n,
            forall|k: int| 0 <= k < r@.len() ==> #[trigger] record_ok(points@, radius as int, r@[k]),
            forall|k: int| 0 <= k < r@.len() ==> #[trigger] r@[k].0 < i,
            forall|k1: int, k2: int|
                0 <= k1 < k2 < r@.len() ==> (r@[k1].0 < r@[k2].0 || (r@[k1].0 == r@[k2].0 && r@[k1].1
                    < r@[k2].1)),
            forall|a: int, b: int|
                0 <= a < b < n && a < i && #[trigger] dist2(points@[a], points@[b]) < radius * radius
                    ==> exists|k: int| 0 <= k < r@.len() && r@[k].0 == a && r@[k].1 == b,
        decreases n - i,
    {
        let mut j: usize = i + 1;
        while j < n
            invariant
                n == points@.len(),
                all_in_domain(points@),
                squared_radius == radius * radius,
                i < n,
                i + 1 <= j <= n,
                forall|k: int| 0 <= k < r@.len() ==> #[trigger] record_ok(points@, radius as int, r@[k]),
                forall|k: int|
                    0 <= k < r@.len() ==> (#[trigger] r@[k].0 < i || (r@[k].0 == i && r@[k].1 < j)),
                forall|k1: int, k2: int|
                    0 <= k1 < k2 < r@.len() ==> (r@[k1].0 < r@[k2].0 || (r@[k1].0 == r@[k2].0
                        && r@[k1].1 < r@[k2].1)),
                forall|a: int, b: int|
                    0 <= a < b < n && (a < i || (a == i && b < j)) && #[trigger] dist2(
                        points@[a],
                        points@[b],
                    ) < radius * radius ==> exists|k: int|
                        0 <= k < r@.len() && r@[k].0 == a && r@[k].1 == b,
            decreases n - j,
        {
            assert(in_domain(points@[i as int]) && in_domain(points@[j as int]));
            let d2 = distance_squared(&points[i], &points[j]);
            if d2 < squared_radius {
                let ghost r0 = r@;
                r.push((i, j, d2));
                proof {
                    assert forall|a: int, b: int|
                        0 <= a < b < n && (a < i || (a == i && b < j + 1)) && #[trigger] dist2(
                            points@[a],
                            points@[b],
                        ) < radius * radius implies exists|k: int|
                        0 <= k < r@.len() && r@[k].0 == a && r@[k].1 == b by {
                        if a == i && b == j {
                            assert(r@[r0.len() as int] == (i, j, d2));
                        } else {
                            let k = choose|k: int| 0 <= k < r0.len() && r0[k].0 == a && r0[k].1 == b;
                            assert(r@[k] == r0[k]);
                        }
                    }
                }
            }
            j += 1;
        }
        i += 1;
    }
    proof {
        assert forall|k1: int, k2: int| 0 <= k1 < k2 < r@.len() implies !(r@[k1].0 == r@[k2].0
            && r@[k1].1 == r@[k2].1) by {}
    }
    r
}

/// The geometry of a grid: cells per axis, cell widths and search radius.
#[derive(Clone, Copy)]
pub struct CellShape {
    radius: i64,
    squared_radius: i64,
    nb_subdivisons: [usize; 3],
    cell_width: [i64; 3],
    nb_cells: usize,
}

/// A uniform grid over the box `[0, d0] x [0, d1] x [0, d2]`, with cells at
/// least as wide as the search radius, and for each cell the list of the
/// particles it holds.
pub struct GridPartition {
    shape: CellShape,
    adjascent_cells: Vec<CellList>,
    head: Vec<Option<usize>>,
    successor: Vec<Option<usize>>,
    points: Ghost<Seq<Point>>,
}

impl CellShape {
    pub closed spec fn sx(&self) -> int {
        self.nb_subdivisons@[0] as int
    }

    pub closed spec fn sy(&self) -> int {
        self.nb_subdivisons@[1] as int
    }

    pub closed spec fn sz(&self) -> int {
        self.nb_subdivisons@[2] as int
    }

    pub closed spec fn num_cells(&self) -> int {
        self.nb_cells as int
    }

    pub closed spec fn search_radius(&self) -> int {
        self.radius as int
    }

    /// Width of the cells along axis `d`.
    pub closed spec fn width(&self, d: int) -> int {
        self.cell_width@[d] as int
    }

    /// Index of the cell with lattice coordinates `(x, y, z)`.
    pub closed spec fn flat(&self, x: int, y: int, z: int) -> int {
        flat_of(self.sy(), self.sz(), x, y, z)
    }

    /// Lattice coordinates of cell `c`.
    pub closed spec fn cx(&self, c: int) -> int {
        c / (self.sy() * self.sz())
    }

    pub closed spec fn cy(&self, c: int) -> int {
        (c / self.sz()) % self.sy()
    }

    pub closed spec fn cz(&self, c: int) -> int {
        c % self.sz()
    }

    /// Cells `a` and `b` share a face, an edge or a corner, or are the same.
    pub closed spec fn near(&self, a: int, b: int) -> bool {
        &&& -1 <= self.cx(a) - self.cx(b) <= 1
        &&& -1 <= self.cy(a) - self.cy(b) <= 1
        &&& -1 <= self.cz(a) - self.cz(b) <= 1
    }

    pub closed spec fn is_cell(&self, c: int) -> bool {
        0 <= c < self.nb_cells
    }

    /// Position, in the order of the 27 offsets `(dx, dy, dz)`, of the
    /// offset leading from `c` to `b`.
    pub closed spec fn offset(&self, c: int, b: int) -> int {
        9 * (self.cx(b) - self.cx(c) + 1) + 3 * (self.cy(b) - self.cy(c) + 1) + (self.cz(b)
            - self.cz(c) + 1)
    }

    /// `l` lists, in increasing order, exactly the cells near `c` whose index
    /// is at most `c`.
    pub closed spec fn adjacency_ok(&self, c: int, l: Seq<usize>) -> bool {
        &&& forall|k: int|
            0 <= k < l.len() ==> {
                &&& self.is_cell(#[trigger] l[k] as int)
                &&& l[k] <= c
                &&& self.near(c, l[k] as int)
            }
        &&& forall|k1: int, k2: int| 0 <= k1 < k2 < l.len() ==> l[k1] < l[k2]
        &&& forall|b: int|
            #![trigger self.near(c, b)]
            self.is_cell(b) && b <= c && self.near(c, b) ==> l.contains(b as usize)
        &&& l.len() <= 27
    }

    /// Dimensions, widths and radius are consistent.
    pub closed spec fn shape_ok(&self) -> bool {
        &&& self.sx() >= 1
        &&& self.sy() >= 1
        &&& self.sz() >= 1
        &&& self.nb_cells == self.sx() * (self.sy() * self.sz())
        &&& self.nb_cells <= MAX_CELLS
        &&& 1 <= self.radius <= MAX_COORD
        &&& self.squared_radius == self.radius * self.radius
        &&& self.width(0) >= self.radius
        &&& self.width(1) >= self.radius
        &&& self.width(2) >= self.radius
    }

    /// The cell that holds point `p`.
    pub closed spec fn cell_of(&self, p: Point) -> int {
        self.flat(
            axis_cell(p.0 as int, self.width(0), self.sx()),
            axis_cell(p.1 as int, self.width(1), self.sy()),
            axis_cell(p.2 as int, self.width(2), self.sz()),
        )
    }

    /// The ids below `n` of the points of `pts` held by cell `c`, most
    /// recent first.
    pub closed spec fn members_upto(&self, pts: Seq<Point>, c: int, n: int) -> Seq<usize>
        decreases n,
    {
        if n <= 0 {
            Seq::empty()
        } else if self.cell_of(pts[n - 1]) == c {
            seq![(n - 1) as usize] + self.members_upto(pts, c, n - 1)
        } else {
            self.members_upto(pts, c, n - 1)
        }
    }

    // given the spatial coordinates (x, y, z) of a cell, compute its integer index.
    fn flatten_index(&self, x: usize, y: usize, z: usize) -> (r: usize)
        requires
            self.shape_ok(),
            x < self.sx(),
            y < self.sy(),
            z < self.sz(),
        ensures
            r == self.flat(x as int, y as int, z as int),
            r < self.nb_cells,
    {
        let s1 = self.nb_subdivisons[1];
        let s2 = self.nb_subdivisons[2];
        proof {
            let sx = self.sx();
            let sy = self.sy();
            let sz = self.sz();
            lemma_lex_order(sy, sz, x as int, y as int, z as int, sx, 0, 0);
            assert(sy * sz <= sx * (sy * sz)) by (nonlinear_arith)
                requires
                    sx >= 1,
                    sy * sz >= 0,
            ;
            assert(0 <= x * (sy * sz) && 0 <= y * sz) by (nonlinear_arith)
                requires
                    sy >= 0,
                    sz >= 0,
                    x >= 0,
                    y >= 0,
            ;
            assert(sy * sz >= 0) by (nonlinear_arith)
                requires
                    sy >= 0,
                    sz >= 0,
            ;
        }
        x * (s1 * s2) + y * s2 + z
    }

    // the list of the cells near cell `c` whose index is at most `c`
    fn adjacent_list(&self, c: usize) -> (l: CellList)
        requires
            self.shape_ok(),
            c < self.nb_cells,
        ensures
            self.adjacency_ok(c as int, cell_ids(l)),
    {
        let s0 = self.nb_subdivisons[0];
        let s1 = self.nb_subdivisons[1];
        let s2 = self.nb_subdivisons[2];
        proof {
            assert(s1 * s2 <= s0 * (s1 * s2)) by (nonlinear_arith)
                requires
                    s0 >= 1,
                    s1 * s2 >= 0,
            ;
            assert(s1 * s2 >= 1) by (nonlinear_arith)
                requires
                    s1 >= 1,
                    s2 >= 1,
            ;
            assert(s0 <= s0 * (s1 * s2) && s1 <= s0 * (s1 * s2) && s2 <= s0 * (s1 * s2))
                by (nonlinear_arith)
                requires
                    s0 >= 1,
                    s1 >= 1,
                    s2 >= 1,
            ;
            lemma_flatten(self.sx(), self.sy(), self.sz(), c as int);
        }
        let plane = s1 * s2;
        let x = c / plane;
        let y = (c / s2) % s1;
        let z = c % s2;
        let mut l = CellList::new();
        let mut t: usize = 0;
        while t < 27
            invariant
                self.shape_ok(),
                c < self.nb_cells,
                s0 == self.sx(),
                s1 == self.sy(),
                s2 == self.sz(),
                x == self.cx(c as int),
                y == self.cy(c as int),
                z == self.cz(c as int),
                x < s0,
                y < s1,
                z < s2,
                s0 <= MAX_CELLS,
                s1 <= MAX_CELLS,
                s2 <= MAX_CELLS,
                t <= 27,
                cell_ids(l).len() <= t,
                forall|k: int|
                    0 <= k < cell_ids(l).len() ==> {
                        &&& self.is_cell(#[trigger] cell_ids(l)[k] as int)
                        &&& cell_ids(l)[k] <= c
                        &&& self.near(c as int, cell_ids(l)[k] as int)
                        &&& self.offset(c as int, cell_ids(l)[k] as int) < t
                    },
                forall|k1: int, k2: int|
                    0 <= k1 < k2 < cell_ids(l).len() ==> cell_ids(l)[k1] < cell_ids(l)[k2],
                forall|b: int|
                    #![trigger self.near(c as int, b)]
                    self.is_cell(b) && b <= c && self.near(c as int, b) && self.offset(c as int, b)
                        < t ==> cell_ids(l).contains(b as usize),
            decreases 27 - t,
        {
            let ox = x as i64 + (t / 9) as i64 - 1;
            let oy = y as i64 + ((t / 3) % 3) as i64 - 1;
            let oz = z as i64 + (t % 3) as i64 - 1;
            let ghost old_l = cell_ids(l);
            if ox >= 0 && ox < s0 as i64 && oy >= 0 && oy < s1 as i64 && oz >= 0 && oz < s2 as i64 {
                let other = self.flatten_index(ox as usize, oy as usize, oz as usize);
                proof {
                    lemma_unflatten(self.sy(), self.sz(), ox as int, oy as int, oz as int);
                    assert(self.offset(c as int, other as int) == t);
                }
                if other <= c {
                    proof {
                        assert forall|k: int| 0 <= k < old_l.len() implies old_l[k] < other by {
                            let b = old_l[k] as int;
                            lemma_flatten(self.sx(), self.sy(), self.sz(), b);
                            lemma_lex_order(
                                self.sy(),
                                self.sz(),
                                self.cx(b),
                                self.cy(b),
                                self.cz(b),
                                ox as int,
                                oy as int,
                                oz as int,
                            );
                        }
                    }
                    l.push(other);
                    proof {
                        assert(cell_ids(l)[old_l.len() as int] == other);
                    }
                }
            }
            proof {
                let l2 = cell_ids(l);
                assert forall|b: int|
                    #![trigger self.near(c as int, b)]
                    self.is_cell(b) && b <= c && self.near(c as int, b) && self.offset(c as int, b)
                        < t + 1 implies l2.contains(b as usize) by {
                    if self.offset(c as int, b) < t {
                        assert(old_l.contains(b as usize));
                        let k = choose|k: int| 0 <= k < old_l.len() && old_l[k] == b as usize;
                        assert(l2[k] == b as usize);
                    } else {
                        lemma_flatten(self.sx(), self.sy(), self.sz(), b);
                        assert(self.cx(b) == ox);
                        assert(self.cy(b) == oy);
                        assert(self.cz(b) == oz);
                        assert(l2[old_l.len() as int] == b as usize);
                    }
                }
            }
            t += 1;
        }
        l
    }

    /// The ids held by cell `c`, in the order the cell list visits them,
    /// are those below `n` whose point lies in `c`, in decreasing order.
    pub proof fn lemma_members(&self, pts: Seq<Point>, c: int, n: int)
        requires
            0 <= n <= pts.len(),
            pts.len() <= usize::MAX,
        ensures
            forall|k: int|
                0 <= k < self.members_upto(pts, c, n).len() ==> {
                    &&& #[trigger] self.members_upto(pts, c, n)[k] < n
                    &&& self.cell_of(pts[self.members_upto(pts, c, n)[k] as int]) == c
                },
            forall|k1: int, k2: int|
                0 <= k1 < k2 < self.members_upto(pts, c, n).len() ==> self.members_upto(pts, c, n)[k1]
                    > self.members_upto(pts, c, n)[k2],
            forall|i: int|
                0 <= i < n && #[trigger] self.cell_of(pts[i]) == c ==> self.members_upto(pts, c, n).contains(
                    i as usize,
                ),
        decreases n,
    {
        if n > 0 {
            self.lemma_members(pts, c, n - 1);
            let m = self.members_upto(pts, c, n);
            let m1 = self.members_upto(pts, c, n - 1);
            if self.cell_of(pts[n - 1]) == c {
                assert(m == seq![(n - 1) as usize] + m1);
                assert forall|k: int| 0 < k < m.len() implies m[k] == m1[k - 1] by {}
                assert forall|i: int|
                    0 <= i < n && #[trigger] self.cell_of(pts[i]) == c implies m.contains(i as usize) by {
                    if i < n - 1 {
                        let k = choose|k: int| 0 <= k < m1.len() && m1[k] == i as usize;
                        assert(m[k + 1] == i as usize);
                    } else {
                        assert(m[0] == i as usize);
                    }
                }
            }
        }
    }

    // the cell, along one axis, that holds coordinate `v`
    fn axis_index(v: i64, w: i64, s: usize) -> (r: usize)
        requires
            0 <= v,
            w >= 1,
            s >= 1,
        ensures
            r == axis_cell(v as int, w as int, s as int),
            r < s,
    {
        let q = (v as u64) / (w as u64);
        if q < s as u64 {
            q as usize
        } else {
            s - 1
        }
    }

    // the index of the cell that holds point `p`
    fn cell_index(&self, p: &Point) -> (r: usize)
        requires
            self.shape_ok(),
            in_domain(*p),
        ensures
            r == self.cell_of(*p),
            r < self.nb_cells,
    {
        let ix = Self::axis_index(p.0, self.cell_width[0], self.nb_subdivisons[0]);
        let iy = Self::axis_index(p.1, self.cell_width[1], self.nb_subdivisons[1]);
        let iz = Self::axis_index(p.2, self.cell_width[2], self.nb_subdivisons[2]);
        self.flatten_index(ix, iy, iz)
    }

    /// The cell of a point in the domain is a cell of the grid, with the
    /// per-axis cells as its coordinates.
    pub proof fn lemma_cell_of(&self, p: Point)
        requires
            self.shape_ok(),
            in_domain(p),
        ensures
            self.is_cell(self.cell_of(p)),
            self.cx(self.cell_of(p)) == axis_cell(p.0 as int, self.width(0), self.sx()),
            self.cy(self.cell_of(p)) == axis_cell(p.1 as int, self.width(1), self.sy()),
            self.cz(self.cell_of(p)) == axis_cell(p.2 as int, self.width(2), self.sz()),
    {
        let ax = axis_cell(p.0 as int, self.width(0), self.sx());
        let ay = axis_cell(p.1 as int, self.width(1), self.sy());
        let az = axis_cell(p.2 as int, self.width(2), self.sz());
        assert(0 <= (p.0 as int) / self.width(0)) by (nonlinear_arith)
            requires
                p.0 >= 0,
                self.width(0) > 0,
        ;
        assert(0 <= (p.1 as int) / self.width(1)) by (nonlinear_arith)
            requires
                p.1 >= 0,
                self.width(1) > 0,
        ;
        assert(0 <= (p.2 as int) / self.width(2)) by (nonlinear_arith)
            requires
                p.2 >= 0,
                self.width(2) > 0,
        ;
        lemma_unflatten(self.sy(), self.sz(), ax, ay, az);
        lemma_lex_order(self.sy(), self.sz(), ax, ay, az, self.sx(), 0, 0);
        assert(0 <= flat_of(self.sy(), self.sz(), ax, ay, az)) by (nonlinear_arith)
            requires
                ax >= 0,
                ay >= 0,
                az >= 0,
                self.sy() >= 0,
                self.sz() >= 0,
        ;
    }

    // one axis of the neighbourhood argument
    proof fn lemma_axis_near(&self, a: int, b: int, w: int, s: int)
        requires
            1 <= self.radius <= w,
            s >= 1,
            0 <= a,
            0 <= b,
            (a - b) * (a - b) < self.radius * self.radius,
        ensures
            -1 <= axis_cell(a, w, s) - axis_cell(b, w, s) <= 1,
    {
        let r = self.radius as int;
        assert(a - b < r && b - a < r) by (nonlinear_arith)
            requires
                (a - b) * (a - b) < r * r,
                r >= 1,
        ;
        lemma_close_quotients(a, b, w);
    }

    /// Two points of the domain closer than the search radius lie in cells
    /// that touch.
    pub proof fn lemma_close_cells_near(&self, p: Point, q: Point)
        requires
            self.shape_ok(),
            in_domain(p),
            in_domain(q),
            dist2(p, q) < self.search_radius() * self.search_radius(),
        ensures
            self.near(self.cell_of(p), self.cell_of(q)),
            self.near(self.cell_of(q), self.cell_of(p)),
    {
        self.lemma_cell_of(p);
        self.lemma_cell_of(q);
        let dx = p.0 - q.0;
        let dy = p.1 - q.1;
        let dz = p.2 - q.2;
        assert(dx * dx >= 0 && dy * dy >= 0 && dz * dz >= 0) by (nonlinear_arith);
        self.lemma_axis_near(p.0 as int, q.0 as int, self.width(0), self.sx());
        self.lemma_axis_near(p.1 as int, q.1 as int, self.width(1), self.sy());
        self.lemma_axis_near(p.2 as int, q.2 as int, self.width(2), self.sz());
    }

    /// `i < j` are ids of two points of `pts` closer than the search radius.
    pub closed spec fn close(&self, pts: Seq<Point>, i: int, j: int) -> bool {
        0 <= i < j < pts.len() && dist2(pts[i], pts[j]) < self.squared_radius
    }

    /// `r` lists, once each, the close pairs that `done` admits, with their
    /// squared distances.
    pub closed spec fn pairs_ok(
        &self,
        pts: Seq<Point>,
        r: Seq<(usize, usize, i64)>,
        done: spec_fn(int, int) -> bool,
    ) -> bool {
        &&& forall|k: int|
            0 <= k < r.len() ==> {
                &&& self.close(pts, #[trigger] r[k].0 as int, r[k].1 as int)
                &&& r[k].2 == dist2(pts[r[k].0 as int], pts[r[k].1 as int])
                &&& done(r[k].0 as int, r[k].1 as int)
            }
        &&& forall|k1: int, k2: int|
            0 <= k1 < k2 < r.len() ==> !(r[k1].0 == r[k2].0 && r[k1].1 == r[k2].1)
        &&& forall|i: int, j: int|
            #[trigger] self.close(pts, i, j) && done(i, j) ==> exists|k: int|
                0 <= k < r.len() && r[k].0 == i && r[k].1 == j
    }

    proof fn lemma_pairs_same(
        &self,
        pts: Seq<Point>,
        r: Seq<(usize, usize, i64)>,
        d1: spec_fn(int, int) -> bool,
        d2: spec_fn(int, int) -> bool,
    )
        requires
            self.pairs_ok(pts, r, d1),
            forall|i: int, j: int| #[trigger] self.close(pts, i, j) ==> (d1(i, j) <==> d2(i, j)),
        ensures
            self.pairs_ok(pts, r, d2),
    {
        assert forall|k: int| 0 <= k < r.len() implies d2(r[k].0 as int, r[k].1 as int) by {
            assert(self.close(pts, r[k].0 as int, r[k].1 as int));
        }
    }

    // distinct pairs of ids below `n` number at most `n * n`
    proof fn lemma_pairs_bound(
        &self,
        pts: Seq<Point>,
        r: Seq<(usize, usize, i64)>,
        done: spec_fn(int, int) -> bool,
    )
        requires
            self.pairs_ok(pts, r, done),
        ensures
            r.len() <= pts.len() * pts.len(),
    {
        let n = pts.len() as int;
        let t = r.map(|k: int, e: (usize, usize, i64)| e.0 as int * n + e.1 as int);
        assert forall|k: int| 0 <= k < r.len() implies 0 <= #[trigger] t[k] < n * n by {
            assert(self.close(pts, r[k].0 as int, r[k].1 as int));
            let a = r[k].0 as int;
            let b = r[k].1 as int;
            assert(0 <= a * n + b < n * n) by (nonlinear_arith)
                requires
                    0 <= a < n,
                    0 <= b < n,
            ;
        }
        assert forall|k1: int, k2: int| 0 <= k1 < t.len() && 0 <= k2 < t.len() && k1 != k2 implies t[k1]
            != t[k2] by {
            assert(self.close(pts, r[k1].0 as int, r[k1].1 as int));
            assert(self.close(pts, r[k2].0 as int, r[k2].1 as int));
            if t[k1] == t[k2] {
                lemma_fundamental_div_mod_converse(t[k1], n, r[k1].0 as int, r[k1].1 as int);
                lemma_fundamental_div_mod_converse(t[k2], n, r[k2].0 as int, r[k2].1 as int);
                if k1 < k2 {
                    assert(!(r[k1].0 == r[k2].0 && r[k1].1 == r[k2].1));
                } else {
                    assert(!(r[k2].0 == r[k1].0 && r[k2].1 == r[k1].1));
                }
            }
        }
        assert(t.no_duplicates());
        t.unique_seq_to_set();
        assert(n * n >= 0) by (nonlinear_arith);
        lemma_int_range(0, n * n);
        assert forall|v: int| t.to_set().contains(v) implies set_int_range(0, n * n).contains(v) by {
            let k = choose|k: int| 0 <= k < t.len() && t[k] == v;
        }
        lemma_len_subset(t.to_set(), set_int_range(0, n * n));
    }

    proof fn lemma_pairs_push(
        &self,
        pts: Seq<Point>,
        r: Seq<(usize, usize, i64)>,
        d1: spec_fn(int, int) -> bool,
        d2: spec_fn(int, int) -> bool,
        e: (usize, usize, i64),
    )
        requires
            self.pairs_ok(pts, r, d1),
            self.close(pts, e.0 as int, e.1 as int),
            e.2 == dist2(pts[e.0 as int], pts[e.1 as int]),
            !d1(e.0 as int, e.1 as int),
            forall|i: int, j: int|
                #[trigger] self.close(pts, i, j) ==> (d2(i, j) <==> (d1(i, j) || (i == e.0 && j
                    == e.1))),
        ensures
            self.pairs_ok(pts, r.push(e), d2),
    {
        let r2 = r.push(e);
        assert forall|k: int| 0 <= k < r2.len() implies {
            &&& self.close(pts, #[trigger] r2[k].0 as int, r2[k].1 as int)
            &&& r2[k].2 == dist2(pts[r2[k].0 as int], pts[r2[k].1 as int])
            &&& d2(r2[k].0 as int, r2[k].1 as int)
        } by {
            if k < r.len() {
                assert(r2[k] == r[k]);
                assert(self.close(pts, r[k].0 as int, r[k].1 as int));
            }
        }
        assert forall|k1: int, k2: int| 0 <= k1 < k2 < r2.len() implies !(r2[k1].0 == r2[k2].0
            && r2[k1].1 == r2[k2].1) by {
            if k2 == r.len() {
                assert(r2[k1] == r[k1]);
                assert(self.close(pts, r[k1].0 as int, r[k1].1 as int));
            } else {
                assert(r2[k1] == r[k1]);
                assert(r2[k2] == r[k2]);
            }
        }
        assert forall|i: int, j: int| #[trigger] self.close(pts, i, j) && d2(i, j) implies exists|
            k: int,
        | 0 <= k < r2.len() && r2[k].0 == i && r2[k].1 == j by {
            if d1(i, j) {
                let k = choose|k: int| 0 <= k < r.len() && r[k].0 == i && r[k].1 == j;
                assert(r2[k] == r[k]);
            } else {
                assert(r2[r.len() as int] == e);
            }
        }
    }
}

impl GridPartition {
    /// The geometry of the grid.
    pub closed spec fn layout(&self) -> CellShape {
        self.shape
    }

    /// The positions the grid was last filled with.
    pub closed spec fn filled(&self) -> Seq<Point> {
        self.points@
    }

    /// The cells stored as adjacent to `c`.
    pub closed spec fn adjacent(&self, c: int) -> Seq<usize> {
        cell_ids(self.adjascent_cells@[c])
    }

    /// The particles held by cell `c`, in the order the cell list visits them.
    pub closed spec fn members(&self, c: int) -> Seq<usize> {
        self.shape.members_upto(self.points@, c, self.points@.len() as int)
    }

    /// The grid is consistent: its shape, its adjacency table and the cell
    /// lists of the last fill.
    pub closed spec fn wf(&self) -> bool {
        &&& self.shape.shape_ok()
        &&& self.adjascent_cells@.len() == self.shape.nb_cells
        &&& forall|c: int| 0 <= c < self.shape.nb_cells ==> self.shape.adjacency_ok(c, cell_ids(#[trigger] self.adjascent_cells@[c]))
        &&& self.head@.len() == self.shape.nb_cells
        &&& self.successor@.len() == self.points@.len()
        &&& self.points@.len() <= usize::MAX
        &&& all_in_domain(self.points@)
        &&& forall|c: int|
            0 <= c < self.shape.nb_cells ==> is_chain(self.successor@, #[trigger] self.head@[c], self.members(c))
    }

    /// `self` and `other` have the same shape and adjacency table.
    pub closed spec fn same_shape(&self, other: &GridPartition) -> bool {
        &&& self.shape == other.shape
        &&& self.adjascent_cells@ == other.adjascent_cells@
    }

    // Precompute the adjacency table
    fn build_adjascent_cells(&mut self)
        requires
            old(self).shape.shape_ok(),
        ensures
            final(self).shape.shape_ok(),
            final(self).adjascent_cells@.len() == final(self).shape.nb_cells,
            forall|c: int|
                0 <= c < final(self).shape.nb_cells ==> final(self).shape.adjacency_ok(
                    c,
                    cell_ids(#[trigger] final(self).adjascent_cells@[c]),
                ),
            final(self).shape == old(self).shape,
            final(self).head == old(self).head,
            final(self).successor == old(self).successor,
            final(self).points == old(self).points,
    {
        let mut cells: Vec<CellList> = Vec::new();
        let mut c: usize = 0;
        while c < self.shape.nb_cells
            invariant
                self.shape.shape_ok(),
                c <= self.shape.nb_cells,
                cells@.len() == c,
                forall|k: int| 0 <= k < c ==> self.shape.adjacency_ok(k, #[trigger] cell_ids(cells@[k])),
            decreases self.shape.nb_cells - c,
        {
            let l = self.shape.adjacent_list(c);
            cells.push(l);
            proof {
                assert(cells@[c as int] == l);
            }
            c += 1;
        }
        let ghost before = *self;
        self.adjascent_cells = cells;
        proof {
            assert forall|c: int| 0 <= c < self.shape.nb_cells implies self.shape.adjacency_ok(
                c,
                cell_ids(#[trigger] self.adjascent_cells@[c]),
            ) by {
                assert(before.shape.adjacency_ok(c, cell_ids(cells@[c])));
            }
        }
    }

    /// Build an empty grid over `[0, d0] x [0, d1] x [0, d2]` for the search
    /// radius `radius`: `d / radius` cells along each axis, each of width
    /// `d / (d / radius)`, which is at least `radius`.
    pub fn new(dimensions: [i64; 3], radius: i64) -> (r: Result<GridPartition, GridError>)
        requires
            dimensions@[0] <= MAX_COORD,
            dimensions@[1] <= MAX_COORD,
            dimensions@[2] <= MAX_COORD,
            radius > 0 && dimensions@[0] >= radius && dimensions@[1] >= radius && dimensions@[2]
                >= radius ==> (dimensions@[0] / radius) * ((dimensions@[1] / radius) * (
            dimensions@[2] / radius)) <= MAX_CELLS,
        ensures
            r is Err <==> (radius <= 0 || dimensions@[0] < radius || dimensions@[1] < radius
                || dimensions@[2] < radius),
            r is Ok ==> {
                let g = r->Ok_0;
                &&& g.wf()
                &&& g.layout().search_radius() == radius
                &&& g.layout().sx() == dimensions@[0] / radius
                &&& g.layout().sy() == dimensions@[1] / radius
                &&& g.layout().sz() == dimensions@[2] / radius
                &&& g.layout().width(0) == dimensions@[0] as int / g.layout().sx()
                &&& g.layout().width(1) == dimensions@[1] as int / g.layout().sy()
                &&& g.layout().width(2) == dimensions@[2] as int / g.layout().sz()
                &&& g.filled() == Seq::<Point>::empty()
            },
    {
        if radius <= 0 || dimensions[0] < radius || dimensions[1] < radius || dimensions[2] < radius {
            return Err(GridError::DegenerateDomain);
        }
        let d0 = dimensions[0];
        let d1 = dimensions[1];
        let d2 = dimensions[2];
        proof {
            lemma_part_width(d0 as int, radius as int);
            lemma_part_width(d1 as int, radius as int);
            lemma_part_width(d2 as int, radius as int);
        }
        let q0 = (d0 as u64) / (radius as u64);
        let q1 = (d1 as u64) / (radius as u64);
        let q2 = (d2 as u64) / (radius as u64);
        proof {
            assert(q0 <= q0 * (q1 * q2) && q1 <= q0 * (q1 * q2) && q2 <= q0 * (q1 * q2)
                && q1 * q2 <= q0 * (q1 * q2)) by (nonlinear_arith)
                requires
                    q0 >= 1,
                    q1 >= 1,
                    q2 >= 1,
            ;
        }
        let s0 = q0 as usize;
        let s1 = q1 as usize;
        let s2 = q2 as usize;
        let w0 = ((d0 as u64) / q0) as i64;
        let w1 = ((d1 as u64) / q1) as i64;
        let w2 = ((d2 as u64) / q2) as i64;
        let nb_cells = s0 * (s1 * s2);
        let mut head: Vec<Option<usize>> = Vec::with_capacity(nb_cells);
        let mut k: usize = 0;
        while k < nb_cells
            invariant
                k <= nb_cells,
                head@.len() == k,
                forall|j: int| 0 <= j < k ==> #[trigger] head@[j] is None,
            decreases nb_cells - k,
        {
            head.push(None);
            k += 1;
        }
        proof {
            assert(0 < radius * radius <= MAX_COORD * MAX_COORD) by (nonlinear_arith)
                requires
                    0 < radius <= MAX_COORD,
            ;
        }
        let mut grid = GridPartition {
            shape: CellShape {
                radius,
                squared_radius: radius * radius,
                nb_subdivisons: [s0, s1, s2],
                cell_width: [w0, w1, w2],
                nb_cells,
            },
            adjascent_cells: Vec::new(),
            head,
            successor: Vec::new(),
            points: Ghost(Seq::empty()),
        };
        grid.build_adjascent_cells();
        proof {
            assert forall|c: int| 0 <= c < grid.shape.nb_cells implies is_chain(
                grid.successor@,
                #[trigger] grid.head@[c],
                grid.members(c),
            ) by {
                assert(grid.members(c) == Seq::<usize>::empty());
            }
        }
        Ok(grid)
    }

    /// Of the cells of points `i` and `j`, the lower and the higher index.
    pub closed spec fn lo_cell(&self, pts: Seq<Point>, i: int, j: int) -> int {
        if self.shape.cell_of(pts[i]) <= self.shape.cell_of(pts[j]) {
            self.shape.cell_of(pts[i])
        } else {
            self.shape.cell_of(pts[j])
        }
    }

    pub closed spec fn hi_cell(&self, pts: Seq<Point>, i: int, j: int) -> int {
        if self.shape.cell_of(pts[i]) <= self.shape.cell_of(pts[j]) {
            self.shape.cell_of(pts[j])
        } else {
            self.shape.cell_of(pts[i])
        }
    }

    /// Of points `i` and `j`, the one in the lower cell (`i` if they share
    /// one), and the other.
    pub closed spec fn first_of(&self, pts: Seq<Point>, i: int, j: int) -> int {
        if self.shape.cell_of(pts[i]) <= self.shape.cell_of(pts[j]) {
            i
        } else {
            j
        }
    }

    pub closed spec fn second_of(&self, pts: Seq<Point>, i: int, j: int) -> int {
        if self.shape.cell_of(pts[i]) <= self.shape.cell_of(pts[j]) {
            j
        } else {
            i
        }
    }

    // pairs whose higher cell comes before cell `c`
    closed spec fn done_cells(&self, pts: Seq<Point>, i: int, j: int, c: int) -> bool {
        self.hi_cell(pts, i, j) < c
    }

    // ... or is `c`, with the lower cell among the first `k` adjacent cells of `c`
    closed spec fn done_adj(&self, pts: Seq<Point>, i: int, j: int, c: int, k: int) -> bool {
        ||| self.done_cells(pts, i, j, c)
        ||| (self.hi_cell(pts, i, j) == c && self.adjacent(c).subrange(0, k).contains(
            self.lo_cell(pts, i, j) as usize,
        ))
    }

    // ... or with the lower cell the `k`-th, and the first point among `vx`
    closed spec fn done_x(
        &self,
        pts: Seq<Point>,
        i: int,
        j: int,
        c: int,
        k: int,
        vx: Seq<usize>,
    ) -> bool {
        ||| self.done_adj(pts, i, j, c, k)
        ||| (self.hi_cell(pts, i, j) == c && self.lo_cell(pts, i, j) == self.adjacent(c)[k]
            && vx.contains(self.first_of(pts, i, j) as usize))
    }

    // ... or with the first point `x`, and the second among `vy`
    closed spec fn done_y(
        &self,
        pts: Seq<Point>,
        i: int,
        j: int,
        c: int,
        k: int,
        vx: Seq<usize>,
        x: usize,
        vy: Seq<usize>,
    ) -> bool {
        ||| self.done_x(pts, i, j, c, k, vx)
        ||| (self.hi_cell(pts, i, j) == c && self.lo_cell(pts, i, j) == self.adjacent(c)[k]
            && self.first_of(pts, i, j) == x && vy.contains(self.second_of(pts, i, j) as usize))
    }

    // one combination `(x, y)` of the walk over cell `c` and its `k`-th adjacent cell
    proof fn lemma_step_y(
        &self,
        pts: Seq<Point>,
        c: int,
        k: int,
        vx: Seq<usize>,
        x: usize,
        vy: Seq<usize>,
        y: usize,
    )
        requires
            self.wf(),
            pts == self.filled(),
            0 <= c < self.shape.nb_cells,
            0 <= k < self.adjacent(c).len(),
            x < pts.len(),
            y < pts.len(),
            self.shape.cell_of(pts[x as int]) == self.adjacent(c)[k],
            self.shape.cell_of(pts[y as int]) == c,
            !vx.contains(x),
            !vy.contains(y),
        ensures
            forall|i: int, j: int|
                #[trigger] self.shape.close(pts, i, j) ==> (self.done_y(pts, i, j, c, k, vx, x, vy.push(y))
                    <==> (self.done_y(pts, i, j, c, k, vx, x, vy) || ((self.adjacent(c)[k] != c
                    || x < y) && i == (if x < y { x } else { y }) && j == (if x < y {
                    y
                } else {
                    x
                })))),
            (self.adjacent(c)[k] != c || x < y) ==> !self.done_y(
                pts,
                (if x < y { x } else { y }) as int,
                (if x < y { y } else { x }) as int,
                c,
                k,
                vx,
                x,
                vy,
            ),
    {
        let adj = self.adjacent(c);
        let a = adj[k];
        assert(self.shape.adjacency_ok(c, cell_ids(self.adjascent_cells@[c])));
        assert(a <= c);
        assert forall|m: int| 0 <= m < k implies adj.subrange(0, k)[m] != a by {
            assert(adj.subrange(0, k)[m] == adj[m]);
        }
        assert forall|i: int, j: int| #[trigger] self.shape.close(pts, i, j) implies (self.done_y(
            pts,
            i,
            j,
            c,
            k,
            vx,
            x,
            vy.push(y),
        ) <==> (self.done_y(pts, i, j, c, k, vx, x, vy) || ((a != c || x < y) && i == (if x < y {
            x
        } else {
            y
        }) && j == (if x < y { y } else { x })))) by {
            if self.hi_cell(pts, i, j) == c && self.lo_cell(pts, i, j) == a && self.first_of(
                pts,
                i,
                j,
            ) == x && self.second_of(pts, i, j) == y {
                assert(vy.push(y).contains(y as usize)) by {
                    assert(vy.push(y)[vy.len() as int] == y);
                }
            }
            assert(0 <= self.second_of(pts, i, j) < pts.len());
            assert(0 <= self.first_of(pts, i, j) < pts.len());
            if vy.push(y).contains(self.second_of(pts, i, j) as usize) && self.second_of(pts, i, j)
                != y {
                let m = choose|m: int|
                    0 <= m < vy.push(y).len() && vy.push(y)[m] == self.second_of(pts, i, j) as usize;
                assert(vy[m] == vy.push(y)[m]);
            }
            if vy.contains(self.second_of(pts, i, j) as usize) {
                let m = choose|m: int|
                    0 <= m < vy.len() && vy[m] == self.second_of(pts, i, j) as usize;
                assert(vy.push(y)[m] == vy[m]);
            }
        }
    }

    // the next unvisited id of a strictly decreasing list is not among the visited ones
    proof fn lemma_fresh(m: Seq<usize>, v: Seq<usize>, rest: Seq<usize>)
        requires
            v + rest == m,
            rest.len() > 0,
            forall|k1: int, k2: int| 0 <= k1 < k2 < m.len() ==> m[k1] > m[k2],
        ensures
            !v.contains(rest[0]),
    {
        assert(m[v.len() as int] == rest[0]);
        assert forall|k: int| 0 <= k < v.len() implies v[k] != rest[0] by {
            assert(m[k] == v[k]);
        }
    }

    // the walk over cell `c` for the first point `x` is over
    proof fn lemma_end_y(&self, pts: Seq<Point>, c: int, k: int, vx: Seq<usize>, x: usize)
        requires
            self.wf(),
            pts == self.filled(),
            0 <= c < self.shape.nb_cells,
            0 <= k < self.adjacent(c).len(),
        ensures
            forall|i: int, j: int|
                #[trigger] self.shape.close(pts, i, j) ==> (self.done_y(pts, i, j, c, k, vx, x, self.members(c))
                    <==> self.done_x(pts, i, j, c, k, vx.push(x))),
    {
        let n = pts.len() as int;
        let a = self.adjacent(c)[k] as int;
        let vy = self.members(c);
        let vx2 = vx.push(x);
        self.shape.lemma_members(pts, c, n);
        assert forall|i: int, j: int| #[trigger] self.shape.close(pts, i, j) implies (self.done_y(
            pts,
            i,
            j,
            c,
            k,
            vx,
            x,
            vy,
        ) <==> self.done_x(pts, i, j, c, k, vx2)) by {
            let f = self.first_of(pts, i, j);
            let g = self.second_of(pts, i, j);
            assert(0 <= f < n && 0 <= g < n);
            if self.hi_cell(pts, i, j) == c && self.lo_cell(pts, i, j) == a && f == x {
                assert(self.shape.cell_of(pts[g]) == c);
                assert(vy.contains(g as usize));
                assert(vx2[vx.len() as int] == x);
            }
            if vx2.contains(f as usize) && f != x {
                let m = choose|m: int| 0 <= m < vx2.len() && #[trigger] vx2[m] == f as usize;
                assert(vx[m] == vx2[m]);
            }
            if vx.contains(f as usize) {
                let m = choose|m: int| 0 <= m < vx.len() && #[trigger] vx[m] == f as usize;
                assert(vx2[m] == vx[m]);
            }
        }
    }

    // the walk over the `k`-th adjacent cell of `c` is over
    proof fn lemma_end_x(&self, pts: Seq<Point>, c: int, k: int)
        requires
            self.wf(),
            pts == self.filled(),
            0 <= c < self.shape.nb_cells,
            0 <= k < self.adjacent(c).len(),
        ensures
            forall|i: int, j: int|
                #[trigger] self.shape.close(pts, i, j) ==> (self.done_x(
                    pts,
                    i,
                    j,
                    c,
                    k,
                    self.members(self.adjacent(c)[k] as int),
                ) <==> self.done_adj(pts, i, j, c, k + 1)),
    {
        let n = pts.len() as int;
        let adjs = self.adjacent(c);
        let a = adjs[k];
        let vx = self.members(a as int);
        self.shape.lemma_members(pts, a as int, n);
        assert(adjs.subrange(0, k + 1) =~= adjs.subrange(0, k).push(a));
        assert forall|i: int, j: int| #[trigger] self.shape.close(pts, i, j) implies (self.done_x(
            pts,
            i,
            j,
            c,
            k,
            vx,
        ) <==> self.done_adj(pts, i, j, c, k + 1)) by {
            let lo = self.lo_cell(pts, i, j);
            let f = self.first_of(pts, i, j);
            assert(0 <= f < n);
            if self.hi_cell(pts, i, j) == c && lo == a {
                assert(self.shape.cell_of(pts[f]) == a);
                assert(vx.contains(f as usize));
                assert(adjs.subrange(0, k + 1)[k] == a);
            }
            if adjs.subrange(0, k).contains(lo as usize) {
                let m = choose|m: int| 0 <= m < k && #[trigger] adjs.subrange(0, k)[m] == lo as usize;
                assert(adjs.subrange(0, k + 1)[m] == lo as usize);
            }
            if adjs.subrange(0, k + 1).contains(lo as usize) {
                let m = choose|m: int| 0 <= m < k + 1 && #[trigger] adjs.subrange(0, k + 1)[m] == lo as usize;
                if m < k {
                    assert(adjs.subrange(0, k)[m] == lo as usize);
                }
            }
        }
    }

    // every adjacent cell of `c` has been walked
    proof fn lemma_end_adj(&self, pts: Seq<Point>, c: int)
        requires
            self.wf(),
            pts == self.filled(),
            0 <= c < self.shape.nb_cells,
        ensures
            forall|i: int, j: int|
                #[trigger] self.shape.close(pts, i, j) ==> (self.done_adj(
                    pts,
                    i,
                    j,
                    c,
                    self.adjacent(c).len() as int,
                ) <==> self.done_cells(pts, i, j, c + 1)),
    {
        let adjs = self.adjacent(c);
        assert(self.shape.adjacency_ok(c, cell_ids(self.adjascent_cells@[c])));
        assert(adjs.subrange(0, adjs.len() as int) =~= adjs);
        assert forall|i: int, j: int| #[trigger] self.shape.close(pts, i, j) implies (self.done_adj(
            pts,
            i,
            j,
            c,
            adjs.len() as int,
        ) <==> self.done_cells(pts, i, j, c + 1)) by {
            assert(in_domain(pts[i]));
            assert(in_domain(pts[j]));
            self.shape.lemma_cell_of(pts[i]);
            self.shape.lemma_cell_of(pts[j]);
            self.shape.lemma_close_cells_near(pts[i], pts[j]);
            let lo = self.lo_cell(pts, i, j);
            if self.hi_cell(pts, i, j) == c {
                assert(self.shape.near(c, lo));
                assert(adjs.contains(lo as usize));
            }
        }
    }

    // every cell has been walked
    proof fn lemma_end_cells(&self, pts: Seq<Point>)
        requires
            self.wf(),
            pts == self.filled(),
        ensures
            forall|i: int, j: int|
                #[trigger] self.shape.close(pts, i, j) ==> self.done_cells(pts, i, j, self.shape.nb_cells as int),
    {
        assert forall|i: int, j: int| #[trigger] self.shape.close(pts, i, j) implies self.done_cells(
            pts,
            i,
            j,
            self.shape.nb_cells as int,
        ) by {
            assert(in_domain(pts[i]));
            assert(in_domain(pts[j]));
            self.shape.lemma_cell_of(pts[i]);
            self.shape.lemma_cell_of(pts[j]);
        }
    }

    // a list of all close pairs is a neighbour list
    proof fn lemma_complete_list(&self, pts: Seq<Point>, r: Seq<(usize, usize, i64)>)
        requires
            self.wf(),
            self.shape.pairs_ok(pts, r, |i: int, j: int| true),
        ensures
            is_neighbor_list(pts, self.layout().search_radius(), r),
    {
        let radius = self.layout().search_radius();
        assert forall|k: int| 0 <= k < r.len() implies #[trigger] record_ok(pts, radius, r[k]) by {
            assert(self.shape.close(pts, r[k].0 as int, r[k].1 as int));
        }
        assert forall|i: int, j: int|
            0 <= i < j < pts.len() && #[trigger] dist2(pts[i], pts[j]) < radius * radius implies exists|
            k: int,
        | 0 <= k < r.len() && r[k].0 == i && r[k].1 == j by {
            assert(self.shape.close(pts, i, j));
        }
    }

    /// The ids held by the cells stored as adjacent to `c`, in visiting
    /// order: the first such cell, then the others from the last to the
    /// second.
    pub closed spec fn adjacent_members(&self, c: int) -> Seq<usize> {
        let adj = self.adjacent(c);
        self.members(adj[0] as int) + concat_rev(
            adj.subrange(1, adj.len() as int).map_values(|b: usize| self.members(b as int)),
        )
    }

    /// Walks the ids held by the cells stored as adjacent to cell `idx_flat`
    /// (the cell itself among them).
    pub fn iter_adjascent_cells<'a>(&'a self, idx_flat: usize) -> (r: MultiCellIterator<'a>)
        requires
            self.wf(),
            idx_flat < self.layout().num_cells(),
        ensures
            r.wf(),
            r@ == self.adjacent_members(idx_flat as int),
    {
        let adj = &self.adjascent_cells[idx_flat];
        let ghost ids = cell_ids(*adj);
        proof {
            assert(self.shape.adjacency_ok(idx_flat as int, ids));
            assert(self.shape.near(idx_flat as int, idx_flat as int));
            assert(ids.contains(idx_flat));
        }
        let n = adj.len();
        let current_cell = Some(self.iter_cell(adj.get(0)));
        let mut remaining_cells: Vec<CellIterator<'a>> = Vec::new();
        let mut k: usize = 1;
        while k < n
            invariant
                self.wf(),
                ids == cell_ids(*adj),
                ids == self.adjacent(idx_flat as int),
                self.shape.adjacency_ok(idx_flat as int, ids),
                n == ids.len(),
                1 <= k <= n,
                remaining_cells@.len() == k - 1,
                forall|m: int| 0 <= m < k - 1 ==> (#[trigger] remaining_cells@[m]).wf(),
                forall|m: int|
                    0 <= m < k - 1 ==> #[trigger] remaining_cells@[m]@ == self.members(ids[m + 1] as int),
            decreases n - k,
        {
            let b = adj.get(k);
            remaining_cells.push(self.iter_cell(b));
            k += 1;
        }
        let r = MultiCellIterator { current_cell, remaining_cells };
        proof {
            assert(remaining_cells@.map_values(|it: CellIterator<'a>| it@) =~= ids.subrange(
                1,
                ids.len() as int,
            ).map_values(|b: usize| self.members(b as int)));
        }
        r
    }

    /// A walk over every pair of the points the grid was filled with that
    /// lie closer than the search radius: each comes once, as
    /// `(i, j, squared distance)` with `i < j`.
    pub fn iter_neighbors<'a>(&'a self, points: &'a [Point]) -> (r: NeighborIterator<'a>)
        requires
            self.wf(),
            points@ == self.filled(),
        ensures
            r.wf(),
            r.points() == points@,
            r.radius() == self.layout().search_radius(),
            r.produced() == Seq::<(usize, usize, i64)>::empty(),
    {
        let ghost pts = points@;
        let ghost e = Seq::<(usize, usize, i64)>::empty();
        assert(self.shape.nb_cells >= 1) by (nonlinear_arith)
            requires
                self.shape.nb_cells == self.shape.sx() * (self.shape.sy() * self.shape.sz()),
                self.shape.sx() >= 1,
                self.shape.sy() >= 1,
                self.shape.sz() >= 1,
        ;
        let adj = &self.adjascent_cells[0];
        proof {
            assert(self.shape.adjacency_ok(0, cell_ids(*adj)));
            assert(self.shape.near(0, 0));
            assert(cell_ids(*adj).contains(0));
        }
        let first = self.iter_cell(adj.get(0));
        let r = NeighborIterator {
            grid: self,
            points,
            current_cell: 0,
            adjacent_index: 0,
            outer: first,
            current: None,
            inner: first,
            visited_outer: Ghost(Seq::empty()),
            visited_inner: Ghost(Seq::empty()),
            emitted: Ghost(e),
        };
        proof {
            self.shape.lemma_pairs_same(pts, e, |i: int, j: int| false, |i: int, j: int| r.done_at(i, j));
        }
        r
    }

    /// Fill the grid with `points`, then list every pair of them closer than
    /// the search radius, as `iter_neighbors` does.
    pub fn query_neighbors<'a>(&'a mut self, points: &'a [Point]) -> (r: NeighborIterator<'a>)
        requires
            old(self).wf(),
            all_in_domain(points@),
        ensures
            final(self).wf(),
            final(self).same_shape(old(self)),
            final(self).filled() == points@,
            r.wf(),
            r.points() == points@,
            r.radius() == old(self).layout().search_radius(),
            r.produced() == Seq::<(usize, usize, i64)>::empty(),
    {
        self.fill_grid(points);
        self.iter_neighbors(points)
    }

    /// Fill the grid with `points`, then give each point the ids of the
    /// other points closer than the search radius.
    pub fn neighbor_lists(&mut self, points: &[Point]) -> (lists: Vec<Vec<usize>>)
        requires
            old(self).wf(),
            all_in_domain(points@),
        ensures
            final(self).wf(),
            final(self).same_shape(old(self)),
            final(self).filled() == points@,
            lists@.len() == points@.len(),
            forall|i: int, j: usize|
                0 <= i < points@.len() && j < points@.len() ==> (#[trigger] lists@[i]@.contains(j)
                    <==> (i != j && dist2(points@[i], points@[j as int]) < old(self).layout().search_radius()
                    * old(self).layout().search_radius())),
    {
        let n = points.len();
        let ghost radius = self.layout().search_radius();
        let mut pairs = self.query_neighbors(points);
        let mut lists: Vec<Vec<usize>> = Vec::new();
        let mut k: usize = 0;
        while k < n
            invariant
                k <= n,
                lists@.len() == k,
                forall|m: int| 0 <= m < k ==> (#[trigger] lists@[m])@.len() == 0,
            decreases n - k,
        {
            lists.push(Vec::new());
            k += 1;
        }
        let ghost mut all: Seq<(usize, usize, i64)> = Seq::empty();
        loop
            invariant
                n == points@.len(),
                pairs.wf(),
                pairs.points() == points@,
                pairs.radius() == radius,
                lists@.len() == n,
                forall|i: int, j: int|
                    0 <= i < n && 0 <= j < n ==> (#[trigger] lists@[i]@.contains(j as usize)
                        <==> linked(pairs.produced(), i, j)),
            ensures
                lists@.len() == n,
                is_neighbor_list(points@, radius, all),
                forall|i: int, j: int|
                    0 <= i < n && 0 <= j < n ==> (#[trigger] lists@[i]@.contains(j as usize)
                        <==> linked(all, i, j)),
            decreases n * n - pairs.produced().len(),
        {
            let ghost done = pairs.produced();
            match pairs.next() {
                None => {
                    proof {
                        all = done;
                    }
                    break ;
                },
                Some(e) => {
                    assert(pairs.produced() == done.push(e));
                    assert(pairs.produced()[done.len() as int] == e);
                    assert(record_ok(points@, radius, e));
                    let ghost old_lists = lists@;
                    let (a, b, _) = e;
                    lists[a].push(b);
                    lists[b].push(a);
                    let ghost done2 = done.push(e);
                    proof {
                        assert forall|i: int, j: int|
                            0 <= i < n && 0 <= j < n implies (#[trigger] lists@[i]@.contains(j as usize)
                            <==> linked(done2, i, j)) by {
                            if linked(done, i, j) {
                                let w = choose|w: int|
                                    0 <= w < done.len() && ((done[w].0 == i && done[w].1 == j) || (
                                    done[w].0 == j && done[w].1 == i));
                                assert(done2[w] == done[w]);
                            }
                            if linked(done2, i, j) && !((a == i && b == j) || (a == j && b == i)) {
                                let w = choose|w: int|
                                    0 <= w < done2.len() && ((done2[w].0 == i && done2[w].1 == j) || (
                                    done2[w].0 == j && done2[w].1 == i));
                                assert(w < done.len());
                                assert(done2[w] == done[w]);
                            }
                            if (a == i && b == j) || (a == j && b == i) {
                                assert(done2[done.len() as int] == e);
                            }
                            let li = lists@[i]@;
                            let oi = old_lists[i]@;
                            if i == a {
                                assert(li == oi.push(b));
                            } else if i == b {
                                assert(li == oi.push(a));
                            } else {
                                assert(li == oi);
                            }
                            if li.contains(j as usize) {
                                let w = choose|w: int| 0 <= w < li.len() && li[w] == j as usize;
                                if w < oi.len() {
                                    assert(oi[w] == li[w]);
                                }
                            }
                            if oi.contains(j as usize) {
                                let w = choose|w: int| 0 <= w < oi.len() && oi[w] == j as usize;
                                assert(li[w] == oi[w]);
                            }
                            if (i == a && j == b) || (i == b && j == a) {
                                assert(li[li.len() - 1] == j as usize);
                            }
                        }
                    }
                },
            }
        }
        proof {
            assert forall|i: int, j: usize|
                0 <= i < n && j < n implies (#[trigger] lists@[i]@.contains(j) <==> (i != j && dist2(
                points@[i],
                points@[j as int],
            ) < radius * radius)) by {
                let j = j as int;
                assert(lists@[i]@.contains(j as usize) <==> linked(all, i, j));
                if linked(all, i, j) {
                    let w = choose|w: int|
                        0 <= w < all.len() && ((all[w].0 == i && all[w].1 == j) || (all[w].0 == j
                            && all[w].1 == i));
                    assert(record_ok(points@, radius, all[w]));
                    lemma_dist2_symmetric(points@[i], points@[j]);
                }
                if i != j && dist2(points@[i], points@[j]) < radius * radius {
                    lemma_dist2_symmetric(points@[i], points@[j]);
                    if i < j {
                        assert(dist2(points@[i], points@[j]) < radius * radius);
                        let w = choose|w: int| 0 <= w < all.len() && all[w].0 == i && all[w].1 == j;
                        assert(linked(all, i, j));
                    } else {
                        assert(dist2(points@[j], points@[i]) < radius * radius);
                        let w = choose|w: int| 0 <= w < all.len() && all[w].0 == j && all[w].1 == i;
                        assert(linked(all, i, j));
                    }
                }
            }
        }
        lists
    }

    /// The ids of the points held by cell `idx_flat`, in the order the cell
    /// list visits them.
    pub fn cell_members(&self, idx_flat: usize) -> (r: Vec<usize>)
        requires
            self.wf(),
            idx_flat < self.layout().num_cells(),
        ensures
            r@ == self.members(idx_flat as int),
    {
        let mut it = self.iter_cell(idx_flat);
        let mut r: Vec<usize> = Vec::new();
        loop
            invariant
                it.wf(),
                r@ + it@ == self.members(idx_flat as int),
            ensures
                r@ == self.members(idx_flat as int),
            decreases it@.len(),
        {
            match it.next() {
                None => {
                    assert(r@ + it@ =~= r@);
                    break ;
                },
                Some(i) => {
                    r.push(i);
                    assert(r@ + it@ =~= self.members(idx_flat as int));
                },
            }
        }
        r
    }

    /// The cells stored as adjacent to cell `idx_flat`: every touching cell
    /// whose index is at most `idx_flat`, in increasing order.
    pub fn adjacent_cells(&self, idx_flat: usize) -> (r: Vec<usize>)
        requires
            self.wf(),
            idx_flat < self.layout().num_cells(),
        ensures
            r@ == self.adjacent(idx_flat as int),
    {
        let list = &self.adjascent_cells[idx_flat];
        let n = list.len();
        let mut r: Vec<usize> = Vec::new();
        let mut k: usize = 0;
        while k < n
            invariant
                n == cell_ids(*list).len(),
                k <= n,
                r@ == cell_ids(*list).subrange(0, k as int),
            decreases n - k,
        {
            r.push(list.get(k));
            k += 1;
            assert(r@ =~= cell_ids(*list).subrange(0, k as int));
        }
        assert(r@ =~= cell_ids(*list));
        r
    }

    /// The index of the cell that holds point `p`.
    pub fn cell_of_point(&self, p: &Point) -> (r: usize)
        requires
            self.wf(),
            in_domain(*p),
        ensures
            r == self.layout().cell_of(*p),
            r < self.layout().num_cells(),
    {
        self.shape.cell_index(p)
    }

    /// Number of cells along each axis.
    pub fn nb_subdivisons(&self) -> (r: [usize; 3])
        ensures
            r@[0] == self.layout().sx(),
            r@[1] == self.layout().sy(),
            r@[2] == self.layout().sz(),
    {
        self.shape.nb_subdivisons
    }

    /// Width of the cells along each axis.
    pub fn cell_width(&self) -> (r: [i64; 3])
        ensures
            r@[0] == self.layout().width(0),
            r@[1] == self.layout().width(1),
            r@[2] == self.layout().width(2),
    {
        self.shape.cell_width
    }

    /// Total number of cells.
    pub fn nb_cells(&self) -> (r: usize)
        ensures
            r == self.layout().num_cells(),
    {
        self.shape.nb_cells
    }

    /// After a fill, cell `c` holds exactly the points that lie in it, each
    /// once, most recent id first.
    pub proof fn lemma_cell_contents(&self, c: int)
        requires
            self.wf(),
        ensures
            forall|i: usize|
                i < self.filled().len() ==> (#[trigger] self.members(c).contains(i) <==> self.layout().cell_of(
                    self.filled()[i as int],
                ) == c),
            forall|k: int|
                0 <= k < self.members(c).len() ==> #[trigger] self.members(c)[k] < self.filled().len(),
            forall|k1: int, k2: int|
                0 <= k1 < k2 < self.members(c).len() ==> self.members(c)[k1] > self.members(c)[k2],
    {
        let pts = self.points@;
        self.shape.lemma_members(pts, c, pts.len() as int);
        assert forall|i: usize| i < pts.len() implies (#[trigger] self.members(c).contains(i) <==> self.shape.cell_of(pts[i as int]) == c) by {
            if self.members(c).contains(i) {
                let k = choose|k: int| 0 <= k < self.members(c).len() && self.members(c)[k] == i;
                assert(self.members(c)[k] < pts.len());
            }
            if self.shape.cell_of(pts[i as int]) == c {
                assert(self.members(c).contains((i as int) as usize));
            }
        }
    }

    /// Touching is symmetric: a cell stored as adjacent to `a` touches `a`
    /// seen from either side, and of two touching cells one is stored as
    /// adjacent to the other.
    pub proof fn lemma_adjacency_symmetric(&self, a: int, b: int)
        requires
            self.wf(),
            self.layout().is_cell(a),
            self.layout().is_cell(b),
        ensures
            self.layout().near(a, b) == self.layout().near(b, a),
            self.adjacent(a).contains(b as usize) ==> self.layout().near(a, b) && self.layout().near(
                b,
                a,
            ),
            self.layout().near(a, b) ==> self.adjacent(a).contains(b as usize) || self.adjacent(
                b,
            ).contains(a as usize),
    {
        assert(self.shape.adjacency_ok(a, cell_ids(self.adjascent_cells@[a])));
        assert(self.shape.adjacency_ok(b, cell_ids(self.adjascent_cells@[b])));
        if self.adjacent(a).contains(b as usize) {
            let k = choose|k: int| 0 <= k < self.adjacent(a).len() && self.adjacent(a)[k] == b as usize;
            assert(self.shape.near(a, self.adjacent(a)[k] as int));
        }
        if self.shape.near(a, b) {
            if b <= a {
                assert(self.shape.near(a, b));
            } else {
                assert(self.shape.near(b, a));
            }
        }
    }

    /// Filling a grid twice in a row with the same points gives the same
    /// cell lists: `g2` has the shape of `g1` and was filled with the same
    /// points.
    pub proof fn lemma_fill_idempotent(g1: &GridPartition, g2: &GridPartition, c: int)
        requires
            g1.wf(),
            g2.wf(),
            g2.same_shape(g1),
            g2.filled() == g1.filled(),
        ensures
            g2.members(c) == g1.members(c),
            g2.members(c).to_set() == g1.members(c).to_set(),
    {
    }

    // Reset the cell heads and size the successor table for `nb_points` points
    fn empty_grid(&mut self, nb_points: usize)
        requires
            old(self).head@.len() == old(self).shape.nb_cells,
        ensures
            final(self).shape == old(self).shape,
            final(self).adjascent_cells == old(self).adjascent_cells,
            final(self).head@.len() == final(self).shape.nb_cells,
            forall|c: int| 0 <= c < final(self).shape.nb_cells ==> #[trigger] final(self).head@[c] is None,
            final(self).successor@.len() == nb_points,
    {
        let mut c: usize = 0;
        while c < self.head.len()
            invariant
                self.shape == old(self).shape,
                self.adjascent_cells == old(self).adjascent_cells,
                self.head@.len() == self.shape.nb_cells,
                c <= self.head@.len(),
                forall|k: int| 0 <= k < c ==> #[trigger] self.head@[k] is None,
            decreases self.head@.len() - c,
        {
            self.head.set(c, None);
            c += 1;
        }
        self.successor.clear();
        self.successor.reserve(nb_points);
        let mut i: usize = 0;
        while i < nb_points
            invariant
                self.shape == old(self).shape,
                self.adjascent_cells == old(self).adjascent_cells,
                self.head@.len() == self.shape.nb_cells,
                forall|k: int| 0 <= k < self.shape.nb_cells ==> #[trigger] self.head@[k] is None,
                i <= nb_points,
                self.successor@.len() == i,
            decreases nb_points - i,
        {
            self.successor.push(None);
            i += 1;
        }
    }

    /// Fill the grid with a new set of points: afterwards the list of each
    /// cell holds exactly the ids of the points that lie in it, most recent
    /// id first.
    pub fn fill_grid(&mut self, points: &[Point])
        requires
            old(self).wf(),
            all_in_domain(points@),
        ensures
            final(self).wf(),
            final(self).same_shape(old(self)),
            final(self).filled() == points@,
    {
        let n = points.len();
        self.empty_grid(n);
        let ghost pts = points@;
        let mut i: usize = 0;
        while i < n
            invariant
                n == pts.len(),
                pts == points@,
                self.shape == old(self).shape,
                self.adjascent_cells == old(self).adjascent_cells,
                self.shape.shape_ok(),
                self.head@.len() == self.shape.nb_cells,
                self.successor@.len() == n,
                all_in_domain(pts),
                i <= n,
                forall|c: int|
                    0 <= c < self.shape.nb_cells ==> is_chain(
                        self.successor@,
                        #[trigger] self.head@[c],
                        self.shape.members_upto(pts, c, i as int),
                    ),
            decreases n - i,
        {
            let p = points[i];
            assert(in_domain(pts[i as int]));
            let cell = self.shape.cell_index(&p);
            let ghost s_old = self.successor@;
            let ghost h_old = self.head@;
            let prev = self.head[cell];
            self.successor.set(i, prev);
            self.head.set(cell, Some(i));
            proof {
                let shape = self.shape;
                assert forall|c: int| 0 <= c < shape.nb_cells implies is_chain(
                    self.successor@,
                    #[trigger] self.head@[c],
                    shape.members_upto(pts, c, i + 1),
                ) by {
                    shape.lemma_members(pts, c, i as int);
                    let m = shape.members_upto(pts, c, i as int);
                    assert(is_chain(s_old, h_old[c], m));
                    if c == cell {
                        let m2 = seq![i as usize] + m;
                        assert(shape.members_upto(pts, c, i + 1) == m2);
                        assert forall|k: int| 0 <= k < m2.len() implies {
                            &&& #[trigger] m2[k] < self.successor@.len()
                            &&& self.successor@[m2[k] as int] == if k + 1 < m2.len() {
                                Some(m2[k + 1])
                            } else {
                                None
                            }
                        } by {
                            if k > 0 {
                                assert(m2[k] == m[k - 1]);
                                assert(m[k - 1] < i);
                            }
                        }
                    } else {
                        assert(shape.members_upto(pts, c, i + 1) == m);
                        assert forall|k: int| 0 <= k < m.len() implies {
                            &&& #[trigger] m[k] < self.successor@.len()
                            &&& self.successor@[m[k] as int] == if k + 1 < m.len() {
                                Some(m[k + 1])
                            } else {
                                None
                            }
                        } by {
                            assert(m[k] < i);
                        }
                    }
                }
            }
            i += 1;
        }
        self.points = Ghost(pts);
    }

    /// The ids of the points held by cell `idx_flat`.
    pub fn iter_cell<'a>(&'a self, idx_flat: usize) -> (r: CellIterator<'a>)
        requires
            self.wf(),
            idx_flat < self.layout().num_cells(),
        ensures
            r.wf(),
            r@ == self.members(idx_flat as int),
    {
        CellIterator {
            current_entity: self.head[idx_flat],
            successor: &self.successor,
            remaining: Ghost(self.members(idx_flat as int)),
        }
    }
}

/// The ids of a stack of cells, the top of the stack (its last item) first.
pub open spec fn concat_rev(s: Seq<Seq<usize>>) -> Seq<usize>
    decreases s.len(),
{
    if s.len() == 0 {
        Seq::empty()
    } else {
        s.last() + concat_rev(s.drop_last())
    }
}

/// Walks the ids held by several cells: the current one, then the others
/// from the last to the first.
pub struct MultiCellIterator<'a> {
    current_cell: Option<CellIterator<'a>>,
    remaining_cells: Vec<CellIterator<'a>>,
}

impl<'a> View for MultiCellIterator<'a> {
    type V = Seq<usize>;

    /// The ids not visited yet, in visiting order.
    closed spec fn view(&self) -> Seq<usize> {
        match self.current_cell {
            Some(cell) => cell@ + concat_rev(self.remaining_cells@.map_values(|it: CellIterator<'a>| it@)),
            None => Seq::empty(),
        }
    }
}

impl<'a> MultiCellIterator<'a> {
    pub closed spec fn wf(&self) -> bool {
        &&& self.current_cell is None ==> self.remaining_cells@.len() == 0
        &&& self.current_cell is Some ==> self.current_cell->Some_0.wf()
        &&& forall|k: int| 0 <= k < self.remaining_cells@.len() ==> (#[trigger] self.remaining_cells@[k]).wf()
    }

    /// The next id, or `None` once every cell has been walked.
    pub fn next(&mut self) -> (r: Option<usize>)
        requires
            old(self).wf(),
        ensures
            final(self).wf(),
            old(self)@.len() == 0 ==> r is None && final(self)@ == old(self)@,
            old(self)@.len() > 0 ==> r == Some(old(self)@[0]) && final(self)@ == old(self)@.drop_first(),
    {
        loop
            invariant
                self.wf(),
                self@ == old(self)@,
            decreases self.remaining_cells@.len() + if self.current_cell is Some { 1int } else { 0 },
        {
            match self.current_cell {
                None => {
                    return None;
                },
                Some(cell) => {
                    let mut cell = cell;
                    let ghost rest = self.remaining_cells@.map_values(|it: CellIterator<'a>| it@);
                    match cell.next() {
                        Some(i) => {
                            self.current_cell = Some(cell);
                            assert(self@ =~= old(self)@.drop_first());
                            return Some(i);
                        },
                        None => {
                            let ghost before = self.remaining_cells@;
                            self.current_cell = self.remaining_cells.pop();
                            proof {
                                if before.len() > 0 {
                                    let after = self.remaining_cells@.map_values(|it: CellIterator<'a>| it@);
                                    assert(rest.drop_last() =~= after);
                                    assert(rest.last() == before.last()@);
                                    assert(self.remaining_cells@.len() == before.len() - 1);
                                    assert forall|k: int| 0 <= k < self.remaining_cells@.len() implies (#[trigger] self.remaining_cells@[k]).wf() by {
                                        assert(self.remaining_cells@[k] == before[k]);
                                    }
                                }
                            }
                        },
                    }
                },
            }
        }
    }
}

/// A walk over the close pairs of a filled grid, cell by cell: for each
/// cell `c`, each cell stored as adjacent to it, each point `x` of that cell
/// and each point `y` of `c`.
pub struct NeighborIterator<'a> {
    grid: &'a GridPartition,
    points: &'a [Point],
    current_cell: usize,
    adjacent_index: usize,
    outer: CellIterator<'a>,
    current: Option<usize>,
    inner: CellIterator<'a>,
    visited_outer: Ghost<Seq<usize>>,
    visited_inner: Ghost<Seq<usize>>,
    emitted: Ghost<Seq<(usize, usize, i64)>>,
}

impl<'a> NeighborIterator<'a> {
    /// The points whose pairs are walked.
    pub closed spec fn points(&self) -> Seq<Point> {
        self.points@
    }

    /// The search radius.
    pub closed spec fn radius(&self) -> int {
        self.grid.layout().search_radius()
    }

    /// The pairs handed out so far.
    pub closed spec fn produced(&self) -> Seq<(usize, usize, i64)> {
        self.emitted@
    }

    // the close pairs already handed out, given where the walk stands
    closed spec fn done_at(&self, i: int, j: int) -> bool {
        let pts = self.points@;
        let c = self.current_cell as int;
        let k = self.adjacent_index as int;
        if c >= self.grid.shape.nb_cells {
            true
        } else {
            match self.current {
                Some(x) => self.grid.done_y(
                    pts,
                    i,
                    j,
                    c,
                    k,
                    self.visited_outer@,
                    x,
                    self.visited_inner@,
                ),
                None => self.grid.done_x(pts, i, j, c, k, self.visited_outer@),
            }
        }
    }

    pub closed spec fn wf(&self) -> bool {
        let g = self.grid;
        let pts = self.points@;
        let c = self.current_cell as int;
        let k = self.adjacent_index as int;
        &&& g.wf()
        &&& pts == g.filled()
        &&& c <= g.shape.nb_cells
        &&& c < g.shape.nb_cells ==> {
            &&& k < g.adjacent(c).len()
            &&& g.shape.adjacency_ok(c, g.adjacent(c))
            &&& self.outer.wf()
            &&& self.current is None ==> self.visited_outer@ + self.outer@ == g.members(
                g.adjacent(c)[k] as int,
            )
            &&& self.current is Some ==> {
                let x = self.current->Some_0;
                &&& self.visited_outer@.push(x) + self.outer@ == g.members(g.adjacent(c)[k] as int)
                &&& x < pts.len()
                &&& g.shape.cell_of(pts[x as int]) == g.adjacent(c)[k]
                &&& !self.visited_outer@.contains(x)
                &&& self.inner.wf()
                &&& self.visited_inner@ + self.inner@ == g.members(c)
            }
        }
        &&& g.shape.pairs_ok(pts, self.emitted@, |i: int, j: int| self.done_at(i, j))
    }

    /// The next close pair; `None` once every close pair has been handed
    /// out, and then what was handed out lists each close pair once.
    #[verifier::rlimit(60)]
    pub fn next(&mut self) -> (r: Option<(usize, usize, i64)>)
        requires
            old(self).wf(),
        ensures
            final(self).wf(),
            final(self).points() == old(self).points(),
            final(self).radius() == old(self).radius(),
            final(self).produced().len() <= final(self).points().len() * final(self).points().len(),
            r matches Some(e) ==> final(self).produced() == old(self).produced().push(e) && record_ok(
                old(self).points(),
                old(self).radius(),
                e,
            ),
            r is None ==> final(self).produced() == old(self).produced() && is_neighbor_list(
                old(self).points(),
                old(self).radius(),
                old(self).produced(),
            ),
    {
        let grid = self.grid;
        let points = self.points;
        let ghost pts = points@;
        let ghost n = pts.len() as int;
        let nb_cells = grid.shape.nb_cells;
        loop
            invariant
                self.wf(),
                self.grid == grid,
                self.points == points,
                pts == points@,
                n == pts.len(),
                nb_cells == grid.shape.nb_cells,
                self.emitted@ == old(self).emitted@,
                old(self).grid == grid,
                old(self).points == points,
            decreases
                nb_cells - self.current_cell,
                27 - self.adjacent_index,
                self.outer@.len(),
                if self.current is Some { 1int } else { 0int },
                self.inner@.len(),
        {
            let ghost s0 = *self;
            let c = self.current_cell;
            if c >= nb_cells {
                proof {
                    grid.shape.lemma_pairs_same(
                        pts,
                        self.emitted@,
                        |i: int, j: int| self.done_at(i, j),
                        |i: int, j: int| true,
                    );
                    grid.lemma_complete_list(pts, self.emitted@);
                    grid.shape.lemma_pairs_bound(pts, self.emitted@, |i: int, j: int| true);
                }
                return None;
            }
            let k = self.adjacent_index;
            let adj = &grid.adjascent_cells[c];
            let ghost adjs = grid.adjacent(c as int);
            proof {
                assert(adjs == cell_ids(*adj));
                assert(adjs.len() <= 27);
            }
            let a = adj.get(k);
            match self.current {
                Some(x) => {
                    let ghost rest_y = self.inner@;
                    let ghost vy = self.visited_inner@;
                    let ghost vx = self.visited_outer@;
                    match self.inner.next() {
                        Some(y) => {
                            proof {
                                grid.shape.lemma_members(pts, c as int, n);
                                GridPartition::lemma_fresh(grid.members(c as int), vy, rest_y);
                                assert(grid.members(c as int)[vy.len() as int] == y);
                                grid.lemma_step_y(pts, c as int, k as int, vx, x, vy, y);
                                lemma_dist2_symmetric(pts[x as int], pts[y as int]);
                            }
                            let ghost vy2 = vy.push(y);
                            self.visited_inner = Ghost(vy2);
                            proof {
                                assert(self.visited_inner@ + self.inner@ =~= grid.members(c as int));
                            }
                            if a != c || x < y {
                                let d2 = distance_squared(&points[x], &points[y]);
                                if d2 < grid.shape.squared_radius {
                                    let e = if x < y {
                                        (x, y, d2)
                                    } else {
                                        (y, x, d2)
                                    };
                                    proof {
                                        grid.shape.lemma_pairs_push(
                                            pts,
                                            s0.emitted@,
                                            |i: int, j: int| s0.done_at(i, j),
                                            |i: int, j: int| self.done_at(i, j),
                                            e,
                                        );
                                    }
                                    self.emitted = Ghost(s0.emitted@.push(e));
                                    proof {
                                        assert(self.emitted@[s0.emitted@.len() as int] == e);
                                        assert(grid.shape.close(pts, e.0 as int, e.1 as int));
                                        grid.shape.lemma_pairs_bound(
                                            pts,
                                            self.emitted@,
                                            |i: int, j: int| self.done_at(i, j),
                                        );
                                    }
                                    return Some(e);
                                }
                            }
                            proof {
                                grid.shape.lemma_pairs_same(
                                    pts,
                                    s0.emitted@,
                                    |i: int, j: int| s0.done_at(i, j),
                                    |i: int, j: int| self.done_at(i, j),
                                );
                            }
                        },
                        None => {
                            proof {
                                assert(vy + self.inner@ =~= vy);
                                grid.lemma_end_y(pts, c as int, k as int, vx, x);
                            }
                            self.current = None;
                            self.visited_outer = Ghost(vx.push(x));
                            proof {
                                grid.shape.lemma_pairs_same(
                                    pts,
                                    s0.emitted@,
                                    |i: int, j: int| s0.done_at(i, j),
                                    |i: int, j: int| self.done_at(i, j),
                                );
                            }
                        },
                    }
                },
                None => {
                    let ghost rest_x = self.outer@;
                    let ghost vx = self.visited_outer@;
                    match self.outer.next() {
                        Some(x) => {
                            proof {
                                grid.shape.lemma_members(pts, a as int, n);
                                GridPartition::lemma_fresh(grid.members(a as int), vx, rest_x);
                                assert(grid.members(a as int)[vx.len() as int] == x);
                            }
                            self.current = Some(x);
                            self.inner = grid.iter_cell(c);
                            self.visited_inner = Ghost(Seq::empty());
                            self.visited_outer = Ghost(vx);
                            proof {
                                assert(self.visited_outer@.push(x) + self.outer@ =~= grid.members(a as int));
                                assert(self.visited_inner@ + self.inner@ =~= grid.members(c as int));
                                grid.shape.lemma_pairs_same(
                                    pts,
                                    s0.emitted@,
                                    |i: int, j: int| s0.done_at(i, j),
                                    |i: int, j: int| self.done_at(i, j),
                                );
                            }
                        },
                        None => {
                            proof {
                                assert(vx + self.outer@ =~= vx);
                                grid.lemma_end_x(pts, c as int, k as int);
                            }
                            let nadj = adj.len();
                            if k + 1 < nadj {
                                let b = adj.get(k + 1);
                                self.adjacent_index = k + 1;
                                self.outer = grid.iter_cell(b);
                                self.visited_outer = Ghost(Seq::empty());
                                proof {
                                    assert(self.visited_outer@ + self.outer@ =~= grid.members(b as int));
                                    grid.shape.lemma_pairs_same(
                                        pts,
                                        s0.emitted@,
                                        |i: int, j: int| s0.done_at(i, j),
                                        |i: int, j: int| self.done_at(i, j),
                                    );
                                }
                            } else {
                                proof {
                                    grid.lemma_end_adj(pts, c as int);
                                }
                                self.current_cell = c + 1;
                                self.adjacent_index = 0;
                                if c + 1 < nb_cells {
                                    let adj2 = &grid.adjascent_cells[c + 1];
                                    proof {
                                        assert(grid.shape.adjacency_ok(c + 1, cell_ids(*adj2)));
                                        assert(grid.shape.near(c + 1, c + 1));
                                        assert(cell_ids(*adj2).contains((c + 1) as usize));
                                    }
                                    let b = adj2.get(0);
                                    self.outer = grid.iter_cell(b);
                                    self.visited_outer = Ghost(Seq::empty());
                                    proof {
                                        assert(self.visited_outer@ + self.outer@ =~= grid.members(b as int));
                                    }
                                } else {
                                    proof {
                                        grid.lemma_end_cells(pts);
                                    }
                                }
                                proof {
                                    grid.shape.lemma_pairs_same(
                                        pts,
                                        s0.emitted@,
                                        |i: int, j: int| s0.done_at(i, j),
                                        |i: int, j: int| self.done_at(i, j),
                                    );
                                }
                            }
                        },
                    }
                },
            }
        }
    }
}

/// Walks the ids held by one cell.
#[derive(Clone, Copy)]
pub struct CellIterator<'a> {
    current_entity: Option<usize>,
    successor: &'a Vec<Option<usize>>,
    remaining: Ghost<Seq<usize>>,
}

impl<'a> View for CellIterator<'a> {
    type V = Seq<usize>;

    /// The ids not visited yet, in visiting order.
    closed spec fn view(&self) -> Seq<usize> {
        self.remaining@
    }
}

impl<'a> CellIterator<'a> {
    pub closed spec fn wf(&self) -> bool {
        is_chain(self.successor@, self.current_entity, self.remaining@)
    }

    /// The next id of the cell, or `None` once every id has been visited.
    pub fn next(&mut self) -> (r: Option<usize>)
        requires
            old(self).wf(),
        ensures
            final(self).wf(),
            old(self)@.len() == 0 ==> r is None && final(self)@ == old(self)@,
            old(self)@.len() > 0 ==> r == Some(old(self)@[0]) && final(self)@ == old(self)@.drop_first(),
    {
        if let Some(i) = self.current_entity {
            proof {
                assert(self.remaining@[0] == i);
            }
            self.current_entity = self.successor[i];
            let ghost rest = self.remaining@.drop_first();
            self.remaining = Ghost(rest);
            proof {
                assert forall|k: int| 0 <= k < rest.len() implies {
                    &&& #[trigger] rest[k] < self.successor@.len()
                    &&& self.successor@[rest[k] as int] == if k + 1 < rest.len() {
                        Some(rest[k + 1])
                    } else {
                        None
                    }
                } by {
                    assert(rest[k] == old(self).remaining@[k + 1]);
                }
            }
            Some(i)
        } else {
            None
        }
    }
}

} // verus!

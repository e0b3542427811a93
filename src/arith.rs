use vstd::prelude::*;
use vstd::arithmetic::div_mod::{
    lemma_fundamental_div_mod, lemma_fundamental_div_mod_converse, lemma_div_is_ordered,
    lemma_div_multiples_vanish, lemma_mod_bound,
};

verus! {

/// Row-major index of the lattice cell `(x, y, z)` in a grid of `sy` by `sz`
/// cells per plane.
pub open spec fn flat_of(sy: int, sz: int, x: int, y: int, z: int) -> int {
    x * (sy * sz) + y * sz + z
}

/// Decoding a row-major index gives back the coordinates it was made from.
pub proof fn lemma_unflatten(sy: int, sz: int, x: int, y: int, z: int)
    requires
        sy > 0,
        sz > 0,
        x >= 0,
        0 <= y < sy,
        0 <= z < sz,
    ensures
        flat_of(sy, sz, x, y, z) / (sy * sz) == x,
        (flat_of(sy, sz, x, y, z) / sz) % sy == y,
        flat_of(sy, sz, x, y, z) % sz == z,
{
    let c = flat_of(sy, sz, x, y, z);
    assert(0 <= y * sz + z < sy * sz) by (nonlinear_arith)
        requires
            0 <= y < sy,
            0 <= z < sz,
    ;
    lemma_fundamental_div_mod_converse(c, sy * sz, x, y * sz + z);
    assert(c == (x * sy + y) * sz + z) by (nonlinear_arith)
        requires
            c == x * (sy * sz) + y * sz + z,
    ;
    lemma_fundamental_div_mod_converse(c, sz, x * sy + y, z);
    lemma_fundamental_div_mod_converse(x * sy + y, sy, x, y);
}

/// Every index below `sx * (sy * sz)` decodes into in-range coordinates that
/// encode it again.
pub proof fn lemma_flatten(sx: int, sy: int, sz: int, c: int)
    requires
        sx > 0,
        sy > 0,
        sz > 0,
        0 <= c < sx * (sy * sz),
    ensures
        0 <= c / (sy * sz) < sx,
        0 <= (c / sz) % sy < sy,
        0 <= c % sz < sz,
        c == flat_of(sy, sz, c / (sy * sz), (c / sz) % sy, c % sz),
{
    let p = sy * sz;
    assert(p > 0) by (nonlinear_arith)
        requires
            p == sy * sz,
            sy > 0,
            sz > 0,
    ;
    lemma_fundamental_div_mod(c, p);
    lemma_mod_bound(c, p);
    let x = c / p;
    let r = c % p;
    assert(0 <= x < sx) by (nonlinear_arith)
        requires
            c == p * x + r,
            0 <= r < p,
            0 <= c < sx * p,
    ;
    lemma_fundamental_div_mod(r, sz);
    lemma_mod_bound(r, sz);
    let y = r / sz;
    let z = r % sz;
    assert(0 <= y < sy) by (nonlinear_arith)
        requires
            r == sz * y + z,
            0 <= z < sz,
            0 <= r < sy * sz,
    ;
    assert(c == flat_of(sy, sz, x, y, z)) by (nonlinear_arith)
        requires
            c == p * x + r,
            r == sz * y + z,
            p == sy * sz,
    ;
    lemma_unflatten(sy, sz, x, y, z);
}

/// Row-major order agrees with the lexicographic order of coordinates.
pub proof fn lemma_lex_order(
    sy: int,
    sz: int,
    x1: int,
    y1: int,
    z1: int,
    x2: int,
    y2: int,
    z2: int,
)
    requires
        sy > 0,
        sz > 0,
        0 <= y1 < sy,
        0 <= z1 < sz,
        0 <= y2 < sy,
        0 <= z2 < sz,
        x1 < x2 || (x1 == x2 && y1 < y2) || (x1 == x2 && y1 == y2 && z1 < z2),
    ensures
        flat_of(sy, sz, x1, y1, z1) < flat_of(sy, sz, x2, y2, z2),
{
    assert(0 <= y1 * sz + z1 < sy * sz) by (nonlinear_arith)
        requires
            0 <= y1 < sy,
            0 <= z1 < sz,
    ;
    assert(0 <= y2 * sz + z2 < sy * sz) by (nonlinear_arith)
        requires
            0 <= y2 < sy,
            0 <= z2 < sz,
    ;
    if x1 < x2 {
        assert(x1 * (sy * sz) + sy * sz <= x2 * (sy * sz)) by (nonlinear_arith)
            requires
                x1 < x2,
                sy * sz > 0,
        ;
    } else if y1 < y2 {
        assert(y1 * sz + sz <= y2 * sz) by (nonlinear_arith)
            requires
                y1 < y2,
                sz > 0,
        ;
    }
}

/// Two values less than `w` apart fall in the same or in neighbouring
/// intervals of width `w`.
pub proof fn lemma_close_quotients(a: int, b: int, w: int)
    requires
        w > 0,
        a >= 0,
        b >= 0,
        a - b < w,
        b - a < w,
    ensures
        -1 <= a / w - b / w <= 1,
{
    lemma_fundamental_div_mod(a, w);
    lemma_fundamental_div_mod(b, w);
    lemma_mod_bound(a, w);
    lemma_mod_bound(b, w);
    let qa = a / w;
    let qb = b / w;
    assert(-1 <= qa - qb <= 1) by (nonlinear_arith)
        requires
            a == w * qa + a % w,
            b == w * qb + b % w,
            0 <= a % w < w,
            0 <= b % w < w,
            a - b < w,
            b - a < w,
            w > 0,
    ;
}

/// Splitting `d` into `d / r` parts gives parts at least `r` wide.
pub proof fn lemma_part_width(d: int, r: int)
    requires
        r > 0,
        d >= r,
    ensures
        d / r >= 1,
        d / (d / r) >= r,
{
    lemma_fundamental_div_mod(d, r);
    lemma_mod_bound(d, r);
    let s = d / r;
    assert(s >= 1) by (nonlinear_arith)
        requires
            d == r * s + d % r,
            0 <= d % r < r,
            d >= r,
    ;
    assert(s * r <= d) by (nonlinear_arith)
        requires
            d == r * s + d % r,
            0 <= d % r,
    ;
    lemma_div_is_ordered(s * r, d, s);
    lemma_div_multiples_vanish(r, s);
}

} // verus!

//! The affine model behind a geotransform, stated over mathematical integers.
//!
//! A geotransform `[a, b, c, d, e, f]` maps a pixel `(col, row)` to the world point
//! `(a + b * col + c * row, d + e * col + f * row)`. World coordinates are integers
//! in a unit of the caller's choosing (for instance 1e-8 degree), so every mapping
//! below is exact.
use vstd::arithmetic::div_mod::{
    lemma_fundamental_div_mod, lemma_fundamental_div_mod_converse, lemma_mod_pos_bound,
};
use vstd::prelude::*;

verus! {

/// Largest magnitude accepted for an entry of a geotransform.
pub const ENTRY_LIMIT: i64 = 4611686018427387904;

/// Every entry of `gt` lies within `ENTRY_LIMIT` in magnitude.
pub open spec fn entries_in_range(gt: [i64; 6]) -> bool {
    forall|k: int| 0 <= k < 6 ==> -ENTRY_LIMIT <= #[trigger] gt@[k] <= ENTRY_LIMIT
}

/// World x of the upper-left corner of pixel `(col, row)`.
pub open spec fn world_x(gt: [i64; 6], col: int, row: int) -> int {
    gt@[0] + gt@[1] * col + gt@[2] * row
}

/// World y of the upper-left corner of pixel `(col, row)`.
pub open spec fn world_y(gt: [i64; 6], col: int, row: int) -> int {
    gt@[3] + gt@[4] * col + gt@[5] * row
}

/// Determinant `b * f - c * e` of the linear part; the geotransform is invertible iff it is not 0.
pub open spec fn determinant(gt: [i64; 6]) -> int {
    gt@[1] * gt@[5] - gt@[2] * gt@[4]
}

/// The inverse geotransform `[a', b', c', d', e', f']`, each entry multiplied by the determinant.
pub open spec fn inverse_numerators(gt: [i64; 6]) -> Seq<int> {
    seq![
        gt@[2] * gt@[3] - gt@[5] * gt@[0],
        gt@[5] as int,
        -gt@[2],
        gt@[4] * gt@[0] - gt@[1] * gt@[3],
        -gt@[4],
        gt@[1] as int,
    ]
}

/// The largest integer not above the rational `n / d` (for `d != 0`).
pub open spec fn floor_div(n: int, d: int) -> int {
    if d > 0 {
        n / d
    } else {
        (-n) / (-d)
    }
}

/// Column of the pixel that holds the world point `(x, y)`: the floor of `a' + b' * x + c' * y`.
pub open spec fn pixel_col(gt: [i64; 6], x: int, y: int) -> int {
    let inv = inverse_numerators(gt);
    floor_div(inv[0] + inv[1] * x + inv[2] * y, determinant(gt))
}

/// Row of the pixel that holds the world point `(x, y)`: the floor of `d' + e' * x + f' * y`.
pub open spec fn pixel_row(gt: [i64; 6], x: int, y: int) -> int {
    let inv = inverse_numerators(gt);
    floor_div(inv[3] + inv[4] * x + inv[5] * y, determinant(gt))
}

/// `inv / scale` is the inverse affine of `gt`: composing the two, in either order, gives
/// the identity (each equation is multiplied through by `scale`).
pub open spec fn composes_to_identity(gt: [i64; 6], inv: Seq<int>, scale: int) -> bool {
    let (a, b, c, d, e, f) = (
        gt@[0] as int,
        gt@[1] as int,
        gt@[2] as int,
        gt@[3] as int,
        gt@[4] as int,
        gt@[5] as int,
    );
    // forward after inverse: linear part, then offset
    &&& b * inv[1] + c * inv[4] == scale
    &&& b * inv[2] + c * inv[5] == 0
    &&& e * inv[1] + f * inv[4] == 0
    &&& e * inv[2] + f * inv[5] == scale
    &&& a * scale + b * inv[0] + c * inv[3] == 0
    &&& d * scale + e * inv[0] + f * inv[3] == 0
    // inverse after forward: linear part, then offset
    &&& inv[1] * b + inv[2] * e == scale
    &&& inv[1] * c + inv[2] * f == 0
    &&& inv[4] * b + inv[5] * e == 0
    &&& inv[4] * c + inv[5] * f == scale
    &&& inv[0] + inv[1] * a + inv[2] * d == 0
    &&& inv[3] + inv[4] * a + inv[5] * d == 0
}

/// The smaller of two integers.
pub open spec fn min_of(u: int, v: int) -> int {
    if u <= v {
        u
    } else {
        v
    }
}

/// The larger of two integers.
pub open spec fn max_of(u: int, v: int) -> int {
    if u >= v {
        u
    } else {
        v
    }
}

/// A product of two integers is bounded by the product of their bounds.
pub proof fn lemma_product_bound(u: int, v: int, bu: int, bv: int)
    requires
        -bu <= u <= bu,
        -bv <= v <= bv,
    ensures
        -(bu * bv) <= u * v <= bu * bv,
{
    assert(-(bu * bv) <= u * v <= bu * bv) by (nonlinear_arith)
        requires
            -bu <= u <= bu,
            -bv <= v <= bv,
    ;
}

/// Floor of `n / d` for a positive `d`, on machine integers.
pub fn floor_div_positive(n: i128, d: i128) -> (q: i128)
    requires
        d > 0,
        n > i128::MIN,
    ensures
        q == floor_div(n as int, d as int),
{
    if n >= 0 {
        let q = (n as u128 / d as u128) as i128;
        q
    } else {
        let m = (-n - 1) as u128;
        let k = m / d as u128;
        proof {
            let r = (m % (d as u128)) as int;
            lemma_fundamental_div_mod(m as int, d as int);
            lemma_mod_pos_bound(m as int, d as int);
            assert(m as int == d * k + r);
            assert(n == (-(k as int) - 1) * d + (d - r - 1)) by (nonlinear_arith)
                requires
                    m as int == d * k + r,
                    m == -n - 1,
            ;
            lemma_fundamental_div_mod_converse(n as int, d as int, -(k as int) - 1, d - r - 1);
        }
        -(k as i128) - 1
    }
}

} // verus!

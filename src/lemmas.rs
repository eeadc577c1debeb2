//! Laws that relate the mappings of a transformer to one another.
use crate::affine::{composes_to_identity, determinant, inverse_numerators, floor_div, pixel_col, pixel_row, world_x, world_y};
use crate::transformer::{signed, GeoTransform, GeoTransformer};
use vstd::arithmetic::div_mod::lemma_fundamental_div_mod_converse;
use vstd::prelude::*;

verus! {

/// Dividing `d * q` by a nonzero `d` and rounding down gives back `q`.
proof fn lemma_floor_div_multiple(d: int, q: int)
    requires
        d != 0,
    ensures
        floor_div(d * q, d) == q,
{
    if d > 0 {
        lemma_fundamental_div_mod_converse(d * q, d, q, 0);
    } else {
        assert(-(d * q) == q * (-d) + 0) by (nonlinear_arith);
        lemma_fundamental_div_mod_converse(-(d * q), -d, q, 0);
    }
}

/// The offset `(a, d)` cancels when the inverse's first row is applied to a forward image.
proof fn lemma_cancel_offset(a: int, b: int, c: int, d: int, e: int, f: int, col: int, row: int)
    ensures
        (c * d - f * a) + f * (a + b * col + c * row) - c * (d + e * col + f * row) == (b * f - c
            * e) * col,
{
    assert(f * (a + b * col + c * row) == f * a + f * (b * col) + f * (c * row))
        by (nonlinear_arith);
    assert(c * (d + e * col + f * row) == c * d + c * (e * col) + c * (f * row))
        by (nonlinear_arith);
    assert(f * (c * row) == c * (f * row)) by (nonlinear_arith);
    assert(f * (b * col) == (b * f) * col) by (nonlinear_arith);
    assert(c * (e * col) == (c * e) * col) by (nonlinear_arith);
    assert((b * f - c * e) * col == (b * f) * col - (c * e) * col) by (nonlinear_arith);
}

/// Mapping a pixel to the world and back gives the same pixel, for every invertible
/// geotransform (with or without rotation).
pub proof fn lemma_pixel_round_trip(t: GeoTransformer, col: int, row: int)
    requires
        t.wf(),
    ensures
        pixel_col(t.forward(), world_x(t.forward(), col, row), world_y(t.forward(), col, row))
            == col,
        pixel_row(t.forward(), world_x(t.forward(), col, row), world_y(t.forward(), col, row))
            == row,
{
    let gt = t.forward();
    let (a, b, c, d, e, f) = (
        gt@[0] as int,
        gt@[1] as int,
        gt@[2] as int,
        gt@[3] as int,
        gt@[4] as int,
        gt@[5] as int,
    );
    let x = world_x(gt, col, row);
    let y = world_y(gt, col, row);
    let det = determinant(gt);
    lemma_cancel_offset(a, b, c, d, e, f, col, row);
    lemma_cancel_offset(d, f, e, a, c, b, row, col);
    assert(f * x == f * (a + b * col + c * row));
    assert((-c) * y == -(c * (d + e * col + f * row))) by (nonlinear_arith)
        requires
            y == d + e * col + f * row,
    ;
    assert((-e) * x == -(e * (a + b * col + c * row))) by (nonlinear_arith)
        requires
            x == a + b * col + c * row,
    ;
    assert(b * y == b * (d + e * col + f * row));
    assert((f * b - e * c) * row == det * row) by (nonlinear_arith)
        requires
            det == b * f - c * e,
    ;
    lemma_floor_div_multiple(det, col);
    lemma_floor_div_multiple(det, row);
}

/// Moving by the sum of two pixel offsets moves the world point by the sum of the two
/// world offsets.
pub proof fn lemma_world_offsets_add(t: GeoTransformer, c1: int, r1: int, c2: int, r2: int)
    requires
        t.wf(),
    ensures
        world_x(t.forward(), c1 + c2, r1 + r2) - world_x(t.forward(), 0, 0) == (world_x(
            t.forward(),
            c1,
            r1,
        ) - world_x(t.forward(), 0, 0)) + (world_x(t.forward(), c2, r2) - world_x(
            t.forward(),
            0,
            0,
        )),
        world_y(t.forward(), c1 + c2, r1 + r2) - world_y(t.forward(), 0, 0) == (world_y(
            t.forward(),
            c1,
            r1,
        ) - world_y(t.forward(), 0, 0)) + (world_y(t.forward(), c2, r2) - world_y(
            t.forward(),
            0,
            0,
        )),
{
    let gt = t.forward();
    let (b, c, e, f) = (gt@[1] as int, gt@[2] as int, gt@[4] as int, gt@[5] as int);
    assert(b * (c1 + c2) + c * (r1 + r2) == (b * c1 + c * r1) + (b * c2 + c * r2))
        by (nonlinear_arith);
    assert(e * (c1 + c2) + f * (r1 + r2) == (e * c1 + f * r1) + (e * c2 + f * r2))
        by (nonlinear_arith);
    assert(b * 0 == 0 && c * 0 == 0 && e * 0 == 0 && f * 0 == 0);
}

/// The pixel `(0, 0)` has its upper-left corner at `(a, d)`.
pub proof fn lemma_origin(t: GeoTransformer)
    requires
        t.wf(),
    ensures
        world_x(t.forward(), 0, 0) == t.forward()@[0],
        world_y(t.forward(), 0, 0) == t.forward()@[3],
{
    let gt = t.forward();
    assert(gt@[1] * 0 == 0 && gt@[2] * 0 == 0 && gt@[4] * 0 == 0 && gt@[5] * 0 == 0);
}

/// A geotransform whose linear part is all zero, `[a, 0, 0, d, 0, 0]`, is singular, so
/// no transformer can be built from it.
pub proof fn lemma_zero_scale_is_singular(gt: GeoTransform)
    requires
        gt@[1] == 0,
        gt@[2] == 0,
        gt@[4] == 0,
        gt@[5] == 0,
    ensures
        determinant(gt) == 0,
{
}

/// The stored inverse, over the stored scale, is exactly the inverse affine of the
/// forward geotransform.
pub proof fn lemma_inverse_consistency(t: GeoTransformer)
    requires
        t.wf(),
    ensures
        composes_to_identity(t.forward(), t.inverse(), t.scale()),
{
    let gt = t.forward();
    let n = inverse_numerators(gt);
    let det = determinant(gt);
    let (a, b, c, d, e, f) = (
        gt@[0] as int,
        gt@[1] as int,
        gt@[2] as int,
        gt@[3] as int,
        gt@[4] as int,
        gt@[5] as int,
    );
    assert(composes_to_identity(gt, n, det)) by {
        assert(b * f + c * (-e) == b * f - c * e) by (nonlinear_arith);
        assert(b * (-c) + c * b == 0) by (nonlinear_arith);
        assert(e * f + f * (-e) == 0) by (nonlinear_arith);
        assert(e * (-c) + f * b == b * f - c * e) by (nonlinear_arith);
        assert(a * (b * f - c * e) + b * (c * d - f * a) + c * (e * a - b * d) == 0)
            by (nonlinear_arith);
        assert(d * (b * f - c * e) + e * (c * d - f * a) + f * (e * a - b * d) == 0)
            by (nonlinear_arith);
        assert(f * b + (-c) * e == b * f - c * e) by (nonlinear_arith);
        assert(f * c + (-c) * f == 0) by (nonlinear_arith);
        assert((-e) * b + b * e == 0) by (nonlinear_arith);
        assert((-e) * c + b * f == b * f - c * e) by (nonlinear_arith);
        assert((c * d - f * a) + f * a + (-c) * d == 0) by (nonlinear_arith);
        assert((e * a - b * d) + (-e) * a + b * d == 0) by (nonlinear_arith);
    }
    let inv = t.inverse();
    assert(inv[0] == signed(det, n[0]));
    assert(inv[1] == signed(det, n[1]));
    assert(inv[2] == signed(det, n[2]));
    assert(inv[3] == signed(det, n[3]));
    assert(inv[4] == signed(det, n[4]));
    assert(inv[5] == signed(det, n[5]));
    if det < 0 {
        lemma_negated_composition(gt, n, det, inv);
    }
}

/// Negating both the inverse entries and the scale keeps a composition the identity.
proof fn lemma_negated_composition(gt: GeoTransform, n: Seq<int>, det: int, m: Seq<int>)
    requires
        composes_to_identity(gt, n, det),
        forall|k: int| 0 <= k < 6 ==> #[trigger] m[k] == -n[k],
    ensures
        composes_to_identity(gt, m, -det),
{
    broadcast use vstd::arithmetic::mul::lemma_mul_unary_negation;

    assert(m[0] == -n[0] && m[1] == -n[1] && m[2] == -n[2]);
    assert(m[3] == -n[3] && m[4] == -n[4] && m[5] == -n[5]);
}

} // verus!

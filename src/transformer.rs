//! A transformer that owns a geotransform together with its exact inverse.
use crate::affine::{
    determinant, entries_in_range, floor_div_positive, inverse_numerators,
    lemma_product_bound, max_of, min_of, pixel_col, pixel_row, world_x, world_y, ENTRY_LIMIT,
};
use vstd::prelude::*;

verus! {

/// Six entries `[a, b, c, d, e, f]`: a pixel `(col, row)` has its upper-left corner at
/// `(a + b * col + c * row, d + e * col + f * row)` in world units.
pub type GeoTransform = [i64; 6];

/// A point in world coordinates.
#[derive(Clone, Copy, Debug, PartialEq, Eq, Structural)]
pub struct Coordinate {
    pub x: i64,
    pub y: i64,
}

/// An axis-aligned rectangle in world coordinates.
#[derive(Clone, Copy, Debug, PartialEq, Eq, Structural)]
pub struct Rect {
    pub min: Coordinate,
    pub max: Coordinate,
}

impl Rect {
    /// `min` lies below and to the left of `max` (or on them).
    pub open spec fn is_normalized(self) -> bool {
        self.min.x <= self.max.x && self.min.y <= self.max.y
    }
}

/// Why a transformer could not be built.
#[derive(Clone, Copy, Debug, PartialEq, Eq, Structural)]
pub enum TransformError {
    /// The geotransform has determinant 0 and no inverse.
    SingularTransform,
}

impl TransformError {
    /// A human-readable description of the error.
    pub fn message(&self) -> (r: &'static str)
        ensures
            r@ == "could not invert geotransform"@,
    {
        "could not invert geotransform"
    }
}

/// The rectangle whose corners are the component-wise minimum and maximum of `c1` and `c2`.
fn rect_from_coordinates(c1: Coordinate, c2: Coordinate) -> (r: Rect)
    ensures
        r.min.x == min_of(c1.x as int, c2.x as int),
        r.min.y == min_of(c1.y as int, c2.y as int),
        r.max.x == max_of(c1.x as int, c2.x as int),
        r.max.y == max_of(c1.y as int, c2.y as int),
        r.is_normalized(),
{
    Rect {
        min: Coordinate {
            x: if c1.x > c2.x { c2.x } else { c1.x },
            y: if c1.y > c2.y { c2.y } else { c1.y },
        },
        max: Coordinate {
            x: if c1.x < c2.x { c2.x } else { c1.x },
            y: if c1.y < c2.y { c2.y } else { c1.y },
        },
    }
}

/// Converts between world coordinates and pixel coordinates of one raster.
///
/// The inverse is kept exactly: each of its entries is stored multiplied by the
/// absolute value of the determinant, which is stored beside it.
#[derive(Clone, Copy, Debug)]
pub struct GeoTransformer {
    geotransform: GeoTransform,
    inv_geotransform: [i128; 6],
    scale: i128,
}

/// `v` if `det` is positive, `-v` otherwise: multiplies by the sign of a nonzero `det`.
pub open spec fn signed(det: int, v: int) -> int {
    if det > 0 {
        v
    } else {
        -v
    }
}

impl GeoTransformer {
    /// The geotransform that this transformer maps pixels with.
    pub closed spec fn forward(self) -> GeoTransform {
        self.geotransform
    }

    /// The stored inverse entries, each multiplied by `scale()`.
    pub closed spec fn inverse(self) -> Seq<int> {
        self.inv_geotransform@.map_values(|v: i128| v as int)
    }

    /// The common denominator of the stored inverse entries.
    pub closed spec fn scale(self) -> int {
        self.scale as int
    }

    /// The forward geotransform is invertible and within range, and the stored
    /// inverse is its exact inverse.
    pub open spec fn wf(self) -> bool {
        let gt = self.forward();
        let det = determinant(gt);
        &&& entries_in_range(gt)
        &&& det != 0
        &&& self.scale() == signed(det, det)
        &&& self.inverse().len() == 6
        &&& forall|k: int|
            0 <= k < 6 ==> #[trigger] self.inverse()[k] == signed(det, inverse_numerators(gt)[k])
    }
}

impl GeoTransformer {
    /// Builds a transformer from `geotransform`, computing its inverse.
    ///
    /// Fails exactly when the determinant `b * f - c * e` is 0.
    pub fn try_from(geotransform: GeoTransform) -> (r: Result<GeoTransformer, TransformError>)
        requires
            entries_in_range(geotransform),
        ensures
            determinant(geotransform) == 0 ==> r == Err::<GeoTransformer, TransformError>(
                TransformError::SingularTransform,
            ),
            determinant(geotransform) != 0 ==> (r matches Ok(t) && t.wf() && t.forward()
                == geotransform),
    {
        let gt = geotransform;
        proof {
            assert(-ENTRY_LIMIT <= gt@[0] <= ENTRY_LIMIT);
            assert(-ENTRY_LIMIT <= gt@[1] <= ENTRY_LIMIT);
            assert(-ENTRY_LIMIT <= gt@[2] <= ENTRY_LIMIT);
            assert(-ENTRY_LIMIT <= gt@[3] <= ENTRY_LIMIT);
            assert(-ENTRY_LIMIT <= gt@[4] <= ENTRY_LIMIT);
            assert(-ENTRY_LIMIT <= gt@[5] <= ENTRY_LIMIT);
            let l = ENTRY_LIMIT as int;
            lemma_product_bound(gt@[1] as int, gt@[5] as int, l, l);
            lemma_product_bound(gt@[2] as int, gt@[4] as int, l, l);
            lemma_product_bound(gt@[2] as int, gt@[3] as int, l, l);
            lemma_product_bound(gt@[5] as int, gt@[0] as int, l, l);
            lemma_product_bound(gt@[4] as int, gt@[0] as int, l, l);
            lemma_product_bound(gt@[1] as int, gt@[3] as int, l, l);
        }
        let a = gt[0] as i128;
        let b = gt[1] as i128;
        let c = gt[2] as i128;
        let d = gt[3] as i128;
        let e = gt[4] as i128;
        let f = gt[5] as i128;
        let det = b * f - c * e;
        if det == 0 {
            return Err(TransformError::SingularTransform);
        }
        let inv_a = c * d - f * a;
        let inv_d = e * a - b * d;
        let (inv_geotransform, scale) = if det > 0 {
            ([inv_a, f, -c, inv_d, -e, b], det)
        } else {
            ([-inv_a, -f, c, -inv_d, e, -b], -det)
        };
        let t = GeoTransformer { geotransform: gt, inv_geotransform, scale };
        proof {
            let inv = inverse_numerators(gt);
            assert forall|k: int| 0 <= k < 6 implies #[trigger] t.inverse()[k] == signed(
                determinant(gt),
                inv[k],
            ) by {
                assert(t.inverse()[k] == inv_geotransform@[k] as int);
            }
        }
        Ok(t)
    }
}

impl GeoTransformer {
    /// The stored inverse entries and their denominator are bounded in terms of `ENTRY_LIMIT`.
    proof fn lemma_inverse_bounds(self)
        requires
            self.wf(),
        ensures
            0 < self.scale() <= 2 * ENTRY_LIMIT * ENTRY_LIMIT,
            -2 * ENTRY_LIMIT * ENTRY_LIMIT <= self.inverse()[0] <= 2 * ENTRY_LIMIT * ENTRY_LIMIT,
            -2 * ENTRY_LIMIT * ENTRY_LIMIT <= self.inverse()[3] <= 2 * ENTRY_LIMIT * ENTRY_LIMIT,
            -ENTRY_LIMIT <= self.inverse()[1] <= ENTRY_LIMIT,
            -ENTRY_LIMIT <= self.inverse()[2] <= ENTRY_LIMIT,
            -ENTRY_LIMIT <= self.inverse()[4] <= ENTRY_LIMIT,
            -ENTRY_LIMIT <= self.inverse()[5] <= ENTRY_LIMIT,
    {
        let gt = self.forward();
        let l = ENTRY_LIMIT as int;
        assert(-l <= gt@[0] <= l);
        assert(-l <= gt@[1] <= l);
        assert(-l <= gt@[2] <= l);
        assert(-l <= gt@[3] <= l);
        assert(-l <= gt@[4] <= l);
        assert(-l <= gt@[5] <= l);
        lemma_product_bound(gt@[1] as int, gt@[5] as int, l, l);
        lemma_product_bound(gt@[2] as int, gt@[4] as int, l, l);
        lemma_product_bound(gt@[2] as int, gt@[3] as int, l, l);
        lemma_product_bound(gt@[5] as int, gt@[0] as int, l, l);
        lemma_product_bound(gt@[4] as int, gt@[0] as int, l, l);
        lemma_product_bound(gt@[1] as int, gt@[3] as int, l, l);
        assert(self.inverse()[0] == signed(determinant(gt), inverse_numerators(gt)[0]));
        assert(self.inverse()[1] == signed(determinant(gt), inverse_numerators(gt)[1]));
        assert(self.inverse()[2] == signed(determinant(gt), inverse_numerators(gt)[2]));
        assert(self.inverse()[3] == signed(determinant(gt), inverse_numerators(gt)[3]));
        assert(self.inverse()[4] == signed(determinant(gt), inverse_numerators(gt)[4]));
        assert(self.inverse()[5] == signed(determinant(gt), inverse_numerators(gt)[5]));
    }

    /// World point of the upper-left corner of `pixel`, in wide integers.
    fn world_of(&self, pixel: (usize, usize)) -> (r: (i128, i128))
        requires
            self.wf(),
        ensures
            r.0 == world_x(self.forward(), pixel.0 as int, pixel.1 as int),
            r.1 == world_y(self.forward(), pixel.0 as int, pixel.1 as int),
    {
        let gt = self.geotransform;
        let col = pixel.0 as i128;
        let row = pixel.1 as i128;
        proof {
            let l = ENTRY_LIMIT as int;
            let m = 0xFFFF_FFFF_FFFF_FFFFint;
            assert(-l <= gt@[0] <= l);
            assert(-l <= gt@[1] <= l);
            assert(-l <= gt@[2] <= l);
            assert(-l <= gt@[3] <= l);
            assert(-l <= gt@[4] <= l);
            assert(-l <= gt@[5] <= l);
            lemma_product_bound(gt@[1] as int, col as int, l, m);
            lemma_product_bound(gt@[2] as int, row as int, l, m);
            lemma_product_bound(gt@[4] as int, col as int, l, m);
            lemma_product_bound(gt@[5] as int, row as int, l, m);
        }
        let x = gt[0] as i128 + gt[1] as i128 * col + gt[2] as i128 * row;
        let y = gt[3] as i128 + gt[4] as i128 * col + gt[5] as i128 * row;
        (x, y)
    }

    /// Converts a pixel coordinate to the world point of that pixel's upper-left corner.
    ///
    /// Pixels outside the raster are accepted and give the extrapolated point.
    pub fn pixel_to_coordinate(&self, pixel: (usize, usize)) -> (r: Coordinate)
        requires
            self.wf(),
            i64::MIN <= world_x(self.forward(), pixel.0 as int, pixel.1 as int) <= i64::MAX,
            i64::MIN <= world_y(self.forward(), pixel.0 as int, pixel.1 as int) <= i64::MAX,
        ensures
            r.x == world_x(self.forward(), pixel.0 as int, pixel.1 as int),
            r.y == world_y(self.forward(), pixel.0 as int, pixel.1 as int),
    {
        let (x, y) = self.world_of(pixel);
        Coordinate { x: x as i64, y: y as i64 }
    }

    /// Like `pixel_to_coordinate`, but gives `None` where the world point does not fit an `i64`.
    pub fn checked_pixel_to_coordinate(&self, pixel: (usize, usize)) -> (r: Option<Coordinate>)
        requires
            self.wf(),
        ensures
            r is Some <==> (i64::MIN <= world_x(self.forward(), pixel.0 as int, pixel.1 as int)
                <= i64::MAX && i64::MIN <= world_y(self.forward(), pixel.0 as int, pixel.1 as int)
                <= i64::MAX),
            r matches Some(p) ==> p.x == world_x(self.forward(), pixel.0 as int, pixel.1 as int)
                && p.y == world_y(self.forward(), pixel.0 as int, pixel.1 as int),
    {
        let (x, y) = self.world_of(pixel);
        if i64::MIN as i128 <= x && x <= i64::MAX as i128 && i64::MIN as i128 <= y && y
            <= i64::MAX as i128 {
            Some(Coordinate { x: x as i64, y: y as i64 })
        } else {
            None
        }
    }

    /// Converts a world point to the pixel that holds it: the floor of the inverse
    /// geotransform applied to the point.
    ///
    /// Points outside the raster give pixels outside it, possibly negative.
    pub fn coordinate_to_pixel(&self, coordinate: Coordinate) -> (r: (i128, i128))
        requires
            self.wf(),
        ensures
            r.0 == pixel_col(self.forward(), coordinate.x as int, coordinate.y as int),
            r.1 == pixel_row(self.forward(), coordinate.x as int, coordinate.y as int),
    {
        proof {
            self.lemma_inverse_bounds();
            let m = 0x8000_0000_0000_0000int;
            let l = ENTRY_LIMIT as int;
            lemma_product_bound(self.inverse()[1], coordinate.x as int, l, m);
            lemma_product_bound(self.inverse()[2], coordinate.y as int, l, m);
            lemma_product_bound(self.inverse()[4], coordinate.x as int, l, m);
            lemma_product_bound(self.inverse()[5], coordinate.y as int, l, m);
        }
        let inv = self.inv_geotransform;
        let x = coordinate.x as i128;
        let y = coordinate.y as i128;
        let n_col = inv[0] + inv[1] * x + inv[2] * y;
        let n_row = inv[3] + inv[4] * x + inv[5] * y;
        let col = floor_div_positive(n_col, self.scale);
        let row = floor_div_positive(n_row, self.scale);
        proof {
            let gt = self.forward();
            let det = determinant(gt);
            let nums = inverse_numerators(gt);
            assert(inv@[0] == signed(det, nums[0]));
            assert(inv@[1] == signed(det, nums[1]));
            assert(inv@[2] == signed(det, nums[2]));
            assert(inv@[3] == signed(det, nums[3]));
            assert(inv@[4] == signed(det, nums[4]));
            assert(inv@[5] == signed(det, nums[5]));
            if det < 0 {
                assert(n_col == -(nums[0] + nums[1] * x + nums[2] * y)) by (nonlinear_arith)
                    requires
                        n_col == inv@[0] + inv@[1] * x + inv@[2] * y,
                        inv@[0] == -nums[0],
                        inv@[1] == -nums[1],
                        inv@[2] == -nums[2],
                ;
                assert(n_row == -(nums[3] + nums[4] * x + nums[5] * y)) by (nonlinear_arith)
                    requires
                        n_row == inv@[3] + inv@[4] * x + inv@[5] * y,
                        inv@[3] == -nums[3],
                        inv@[4] == -nums[4],
                        inv@[5] == -nums[5],
                ;
            }
        }
        (col, row)
    }

    /// The axis-aligned world rectangle spanned by the pixel corners `(0, 0)` and `size`.
    ///
    /// Only for a geotransform without rotation (`c == e == 0`) is this the whole raster's extent.
    pub fn bounds_from_size(&self, size: (usize, usize)) -> (r: Rect)
        requires
            self.wf(),
            i64::MIN <= world_x(self.forward(), size.0 as int, size.1 as int) <= i64::MAX,
            i64::MIN <= world_y(self.forward(), size.0 as int, size.1 as int) <= i64::MAX,
        ensures
            r.min.x == min_of(
                world_x(self.forward(), 0, 0),
                world_x(self.forward(), size.0 as int, size.1 as int),
            ),
            r.min.y == min_of(
                world_y(self.forward(), 0, 0),
                world_y(self.forward(), size.0 as int, size.1 as int),
            ),
            r.max.x == max_of(
                world_x(self.forward(), 0, 0),
                world_x(self.forward(), size.0 as int, size.1 as int),
            ),
            r.max.y == max_of(
                world_y(self.forward(), 0, 0),
                world_y(self.forward(), size.0 as int, size.1 as int),
            ),
            r.min.x <= r.max.x,
            r.min.y <= r.max.y,
    {
        proof {
            assert(-ENTRY_LIMIT <= self.forward()@[0] <= ENTRY_LIMIT);
            assert(-ENTRY_LIMIT <= self.forward()@[3] <= ENTRY_LIMIT);
        }
        let c1 = self.pixel_to_coordinate((0, 0));
        let c2 = self.pixel_to_coordinate(size);
        rect_from_coordinates(c1, c2)
    }
}

} // verus!

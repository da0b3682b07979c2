//! FAST-style corner detection: each candidate pixel is scored by walking a
//! fixed circular sampling pattern in a spread-out traversal order, with
//! per-step early rejection of flat neighborhoods, and every surviving
//! pixel gets an orientation from the intensity moments of its patch.

use crate::angle::{abs_i, atan2_deg, atan2_deg_spec, isqrt_u64, lemma_atan2_deg_range,
    lemma_sqrt_floor_bounds, sqrt_floor};
use crate::common::{Matchable, Point};
use crate::gray::GrayImage;
use vstd::prelude::*;

verus! {

broadcast use vstd::seq_lib::group_to_multiset_ensures;

/// The threshold `fast` falls back to when none is supplied.
pub const DEFAULT_FAST_THRESHOLD: i32 = 50;

/// A detected corner: its pixel location, its accumulated
/// brightness-difference score, and the orientation moment of its patch.
#[derive(Debug, Clone, Copy)]
pub struct FastKeypoint {
    pub location: Point,
    pub score: i32,
    pub nms_dist: usize,
    pub moment: Moment,
}

/// The orientation statistics of a keypoint's patch: `centroid` holds the
/// queried point itself, `moment` the rounded intensity-weighted centroid,
/// and `rotation` the angle, in whole degrees in `[-180, 180]`, of the
/// vector from the weighted centroid toward the queried point.
#[derive(Debug, Clone, Copy)]
pub struct Moment {
    pub centroid: Point,
    pub moment: Point,
    pub rotation: i32,
}

impl Matchable for FastKeypoint {
    /// Euclidean distance between the two locations, rounded down.
    open spec fn dist_spec(&self, other: &Self) -> int {
        sqrt_floor(
            (self.location.0 - other.location.0) * (self.location.0 - other.location.0) + (
            self.location.1 - other.location.1) * (self.location.1 - other.location.1),
        )
    }

    open spec fn dist_req(&self, other: &Self) -> bool {
        &&& abs_i(self.location.0 as int) <= 0x40000000
        &&& abs_i(self.location.1 as int) <= 0x40000000
        &&& abs_i(other.location.0 as int) <= 0x40000000
        &&& abs_i(other.location.1 as int) <= 0x40000000
    }

    fn distance(&self, other: &Self) -> (r: usize) {
        let dx: i64 = self.location.0 as i64 - other.location.0 as i64;
        let dy: i64 = self.location.1 as i64 - other.location.1 as i64;
        proof {
            assert(dx * dx >= 0 && dx * dx <= 0x4000000000000000) by (nonlinear_arith)
                requires
                    -0x80000000 <= dx <= 0x80000000,
            ;
            assert(dy * dy >= 0 && dy * dy <= 0x4000000000000000) by (nonlinear_arith)
                requires
                    -0x80000000 <= dy <= 0x80000000,
            ;
        }
        let d2: u64 = (dx * dx) as u64 + (dy * dy) as u64;
        let s = isqrt_u64(d2);
        proof {
            lemma_sqrt_floor_bounds(d2 as int);
            assert((s as int) * (s as int) <= 0x8000000000000000);
            assert(s as int <= 0xffffffff) by (nonlinear_arith)
                requires
                    0 <= s as int,
                    (s as int) * (s as int) <= 0x8000000000000000,
            ;
        }
        s as usize
    }
}

/// A sampling pattern: the circle offsets, the traversal order over them,
/// the per-step cap on how many similar samples are tolerated, the circle
/// radius, and the number of required dissimilar samples.
pub struct FastContext {
    pub offsets: Vec<Point>,
    pub idx: Vec<usize>,
    pub cmp: Vec<i32>,
    pub radius: u32,
    pub n: u32,
}

/// What every usable pattern satisfies: the three tables walk in step, the
/// traversal permutation stays in range, and every offset stays within the
/// circle radius.
pub open spec fn pattern_wf(offs: Seq<Point>, idxs: Seq<usize>, cmps: Seq<i32>, radius: int) -> bool {
    &&& offs.len() == idxs.len()
    &&& offs.len() == cmps.len()
    &&& 1 <= offs.len() <= 16
    &&& 1 <= radius <= 8
    &&& forall|i: int| 0 <= i < idxs.len() ==> (#[trigger] idxs[i]) < offs.len()
    &&& forall|i: int|
        0 <= i < offs.len() ==> abs_i((#[trigger] offs[i]).0 as int) <= radius && abs_i(
            offs[i].1 as int,
        ) <= radius
}

impl FastContext {
    pub open spec fn wf(self) -> bool {
        pattern_wf(self.offsets@, self.idx@, self.cmp@, self.radius as int)
    }
}

/// The two built-in pattern variants: 12 samples of which 9 must differ
/// (radius 3), and 16 samples of which 12 must differ (radius 4).
#[allow(non_camel_case_types)]
#[derive(Debug, PartialEq, Eq, Structural)]
pub enum FastType {
    TYPE_7_12,
    TYPE_9_16,
}

pub open spec fn offsets12() -> Seq<Point> {
    seq![
        (0i32, -2i32), (1i32, -2i32), (2i32, -1i32), (2i32, 0i32), (2i32, 1i32), (1i32, 2i32),
        (0i32, 2i32), (-1i32, 2i32), (-2i32, 1i32), (-2i32, 0i32), (-2i32, -1i32), (-1i32, -2i32),
    ]
}

pub open spec fn idx12() -> Seq<usize> {
    seq![0usize, 6, 3, 9, 1, 2, 4, 5, 7, 8, 10, 11]
}

pub open spec fn cmp12() -> Seq<i32> {
    seq![1i32, 1, 1, 1, 3, 3, 3, 3, 3, 3, 3, 3]
}

pub open spec fn offsets16() -> Seq<Point> {
    seq![
        (0i32, -3i32), (1i32, -3i32), (2i32, -2i32), (3i32, -1i32), (3i32, 0i32), (3i32, 1i32),
        (2i32, 2i32), (1i32, 3i32), (0i32, 3i32), (-1i32, 3i32), (-2i32, 2i32), (-3i32, 1i32),
        (-3i32, 0i32), (-3i32, -1i32), (-2i32, -2i32), (-1i32, -3i32),
    ]
}

pub open spec fn idx16() -> Seq<usize> {
    seq![0usize, 8, 4, 12, 1, 2, 3, 5, 6, 7, 9, 10, 11, 13, 14, 15]
}

pub open spec fn cmp16() -> Seq<i32> {
    seq![1i32, 1, 1, 1, 4, 4, 4, 4, 4, 4, 4, 4, 4, 4, 4, 4]
}

pub open spec fn offsets_of(t: FastType) -> Seq<Point> {
    match t {
        FastType::TYPE_7_12 => offsets12(),
        FastType::TYPE_9_16 => offsets16(),
    }
}

pub open spec fn idx_of(t: FastType) -> Seq<usize> {
    match t {
        FastType::TYPE_7_12 => idx12(),
        FastType::TYPE_9_16 => idx16(),
    }
}

pub open spec fn cmp_of(t: FastType) -> Seq<i32> {
    match t {
        FastType::TYPE_7_12 => cmp12(),
        FastType::TYPE_9_16 => cmp16(),
    }
}

pub open spec fn radius_of(t: FastType) -> int {
    match t {
        FastType::TYPE_7_12 => 3,
        FastType::TYPE_9_16 => 4,
    }
}

pub open spec fn n_of(t: FastType) -> int {
    match t {
        FastType::TYPE_7_12 => 9,
        FastType::TYPE_9_16 => 12,
    }
}

impl FastType {
    /// The full sampling context of this variant.
    pub fn get_context(&self) -> (r: FastContext)
        ensures
            r.offsets@ == offsets_of(*self),
            r.idx@ == idx_of(*self),
            r.cmp@ == cmp_of(*self),
            r.radius as int == radius_of(*self),
            r.n as int == n_of(*self),
            r.wf(),
    {
        match self {
            FastType::TYPE_7_12 => {
                let r = FastContext {
                    offsets: vec![
                        (0i32, -2i32), (1i32, -2i32), (2i32, -1i32), (2i32, 0i32), (2i32, 1i32),
                        (1i32, 2i32), (0i32, 2i32), (-1i32, 2i32), (-2i32, 1i32), (-2i32, 0i32),
                        (-2i32, -1i32), (-1i32, -2i32),
                    ],
                    idx: vec![0usize, 6, 3, 9, 1, 2, 4, 5, 7, 8, 10, 11],
                    cmp: vec![1i32, 1, 1, 1, 3, 3, 3, 3, 3, 3, 3, 3],
                    radius: 3,
                    n: 9,
                };
                proof {
                    assert(r.offsets@ =~= offsets12());
                    assert(r.idx@ =~= idx12());
                    assert(r.cmp@ =~= cmp12());
                }
                r
            },
            FastType::TYPE_9_16 => {
                let r = FastContext {
                    offsets: vec![
                        (0i32, -3i32), (1i32, -3i32), (2i32, -2i32), (3i32, -1i32), (3i32, 0i32),
                        (3i32, 1i32), (2i32, 2i32), (1i32, 3i32), (0i32, 3i32), (-1i32, 3i32),
                        (-2i32, 2i32), (-3i32, 1i32), (-3i32, 0i32), (-3i32, -1i32),
                        (-2i32, -2i32), (-1i32, -3i32),
                    ],
                    idx: vec![0usize, 8, 4, 12, 1, 2, 3, 5, 6, 7, 9, 10, 11, 13, 14, 15],
                    cmp: vec![1i32, 1, 1, 1, 4, 4, 4, 4, 4, 4, 4, 4, 4, 4, 4, 4],
                    radius: 4,
                    n: 12,
                };
                proof {
                    assert(r.offsets@ =~= offsets16());
                    assert(r.idx@ =~= idx16());
                    assert(r.cmp@ =~= cmp16());
                }
                r
            },
        }
    }
}

/// The per-cell weight of a patch moment: `1` for the mass, the cell's x
/// or y coordinate for the first-order moments, `0` for any other order.
pub open spec fn cell_coeff(xm: int, ym: int, mx: int, my: int) -> int {
    if xm == 0 && ym == 0 {
        1
    } else if xm == 0 && ym == 1 {
        my
    } else if xm == 1 && ym == 0 {
        mx
    } else {
        0
    }
}

/// Weighted intensity sum of one column of a patch, rows `y0..y1`.
pub open spec fn col_sum(img: GrayImage, mx: int, y0: int, y1: int, xm: int, ym: int) -> int
    decreases y1 - y0,
{
    if y0 >= y1 {
        0
    } else {
        cell_coeff(xm, ym, mx, y0) * (img.pixel(mx, y0) as int) + col_sum(
            img,
            mx,
            y0 + 1,
            y1,
            xm,
            ym,
        )
    }
}

/// Weighted intensity sum of a patch, columns `x0..x1`, rows `y0..y1`.
pub open spec fn patch_sum(
    img: GrayImage,
    x0: int,
    x1: int,
    y0: int,
    y1: int,
    xm: int,
    ym: int,
) -> int
    decreases x1 - x0,
{
    if x0 >= x1 {
        0
    } else {
        col_sum(img, x0, y0, y1, xm, ym) + patch_sum(img, x0 + 1, x1, y0, y1, xm, ym)
    }
}

/// The raw patch moment: the weighted sum over the square patch of radius
/// `r` around `(x, y)`, or the sentinel `1` when the patch would leave the
/// image.
pub open spec fn patch_moment_spec(
    img: GrayImage,
    x: int,
    y: int,
    xm: int,
    ym: int,
    r: int,
) -> int {
    if x < r || y < r || x + r >= img.width_spec() || y + r >= img.height_spec() {
        1
    } else {
        patch_sum(img, x - r, x + r + 1, y - r, y + r + 1, xm, ym)
    }
}

pub open spec fn opt_radius(o: Option<u32>) -> int {
    match o {
        Option::Some(v) => v as int,
        Option::None => 5,
    }
}

pub proof fn lemma_col_sum_bounds(
    img: GrayImage,
    mx: int,
    y0: int,
    y1: int,
    xm: int,
    ym: int,
    c: int,
)
    requires
        y0 <= y1,
        0 <= c,
        forall|my: int| y0 <= my < y1 ==> 0 <= #[trigger] cell_coeff(xm, ym, mx, my) <= c,
    ensures
        0 <= col_sum(img, mx, y0, y1, xm, ym) <= (y1 - y0) * c * 255,
    decreases y1 - y0,
{
    if y0 < y1 {
        lemma_col_sum_bounds(img, mx, y0 + 1, y1, xm, ym, c);
        let k = cell_coeff(xm, ym, mx, y0);
        let p = img.pixel(mx, y0) as int;
        assert(0 <= k * p <= c * 255) by (nonlinear_arith)
            requires
                0 <= k <= c,
                0 <= p <= 255,
        ;
        assert((y1 - y0) * c * 255 == (y1 - y0 - 1) * c * 255 + c * 255) by (nonlinear_arith);
    }
}

pub proof fn lemma_patch_sum_bounds(
    img: GrayImage,
    x0: int,
    x1: int,
    y0: int,
    y1: int,
    xm: int,
    ym: int,
    c: int,
)
    requires
        x0 <= x1,
        y0 <= y1,
        0 <= c,
        forall|mx: int, my: int|
            x0 <= mx < x1 && y0 <= my < y1 ==> 0 <= #[trigger] cell_coeff(xm, ym, mx, my) <= c,
    ensures
        0 <= patch_sum(img, x0, x1, y0, y1, xm, ym) <= (x1 - x0) * ((y1 - y0) * c * 255),
    decreases x1 - x0,
{
    if x0 < x1 {
        lemma_patch_sum_bounds(img, x0 + 1, x1, y0, y1, xm, ym, c);
        lemma_col_sum_bounds(img, x0, y0, y1, xm, ym, c);
        assert((x1 - x0) * ((y1 - y0) * c * 255) == (x1 - x0 - 1) * ((y1 - y0) * c * 255) + (y1
            - y0) * c * 255) by (nonlinear_arith);
    }
}

/// A column's x-moment is its x coordinate times its mass.
proof fn lemma_col_sum_x_linear(img: GrayImage, mx: int, y0: int, y1: int)
    ensures
        col_sum(img, mx, y0, y1, 1, 0) == mx * col_sum(img, mx, y0, y1, 0, 0),
    decreases y1 - y0,
{
    if y0 < y1 {
        lemma_col_sum_x_linear(img, mx, y0 + 1, y1);
        let p = img.pixel(mx, y0) as int;
        let rest = col_sum(img, mx, y0 + 1, y1, 0, 0);
        assert(mx * (p + rest) == mx * p + mx * rest) by (nonlinear_arith);
    }
}

/// A column's y-moment is at most `y1 - 1` times its mass (weights grow
/// with the row index).
proof fn lemma_col_sum_y_bound(img: GrayImage, mx: int, y0: int, y1: int)
    requires
        0 <= y0,
    ensures
        col_sum(img, mx, y0, y1, 0, 1) <= (y1 - 1) * col_sum(img, mx, y0, y1, 0, 0),
        0 <= col_sum(img, mx, y0, y1, 0, 0),
    decreases y1 - y0,
{
    if y0 < y1 {
        lemma_col_sum_y_bound(img, mx, y0 + 1, y1);
        let p = img.pixel(mx, y0) as int;
        let mass_rest = col_sum(img, mx, y0 + 1, y1, 0, 0);
        assert(y0 * p + (y1 - 1) * mass_rest <= (y1 - 1) * (p + mass_rest)) by (nonlinear_arith)
            requires
                0 <= y0 <= y1 - 1,
                0 <= p,
                0 <= mass_rest,
        ;
    }
}

/// The x-moment of a patch is at most `x1 - 1` times its mass, and at
/// least zero; likewise the y-moment with `y1 - 1`.
proof fn lemma_patch_sum_moment_bounds(img: GrayImage, x0: int, x1: int, y0: int, y1: int)
    requires
        0 <= x0,
        0 <= y0,
        y0 <= y1,
    ensures
        patch_sum(img, x0, x1, y0, y1, 1, 0) <= (x1 - 1) * patch_sum(img, x0, x1, y0, y1, 0, 0),
        patch_sum(img, x0, x1, y0, y1, 0, 1) <= (y1 - 1) * patch_sum(img, x0, x1, y0, y1, 0, 0),
        0 <= patch_sum(img, x0, x1, y0, y1, 0, 0),
        0 <= patch_sum(img, x0, x1, y0, y1, 1, 0),
        0 <= patch_sum(img, x0, x1, y0, y1, 0, 1),
    decreases x1 - x0,
{
    if x0 < x1 {
        lemma_patch_sum_moment_bounds(img, x0 + 1, x1, y0, y1);
        lemma_col_sum_x_linear(img, x0, y0, y1);
        lemma_col_sum_y_bound(img, x0, y0, y1);
        let mass0 = col_sum(img, x0, y0, y1, 0, 0);
        let mass_rest = patch_sum(img, x0 + 1, x1, y0, y1, 0, 0);
        assert(x0 * mass0 + (x1 - 1) * mass_rest <= (x1 - 1) * (mass0 + mass_rest))
            by (nonlinear_arith)
            requires
                0 <= x0 <= x1 - 1,
                0 <= mass0,
                0 <= mass_rest,
        ;
        assert(0 <= x0 * mass0) by (nonlinear_arith)
            requires
                0 <= x0,
                0 <= mass0,
        ;
        let ym0 = col_sum(img, x0, y0, y1, 0, 1);
        let ym_rest = patch_sum(img, x0 + 1, x1, y0, y1, 0, 1);
        assert(ym0 + ym_rest <= (y1 - 1) * mass0 + (y1 - 1) * mass_rest ==> ym0 + ym_rest <= (y1
            - 1) * (mass0 + mass_rest)) by (nonlinear_arith);
        if y1 >= 1 {
            lemma_col_sum_bounds(img, x0, y0, y1, 0, 1, y1 - 1);
        } else {
            assert(col_sum(img, x0, y0, y1, 0, 1) == 0);
        }
    }
}

/// The weighted sum of one square patch, or the sentinel `1` when the
/// patch would cross the image border.
pub fn patch_moment(
    img: &GrayImage,
    x: u32,
    y: u32,
    x_moment: u32,
    y_moment: u32,
    radius: Option<u32>,
) -> (r: u64)
    requires
        img.wf(),
    ensures
        r as int == patch_moment_spec(
            *img,
            x as int,
            y as int,
            x_moment as int,
            y_moment as int,
            opt_radius(radius),
        ),
{
    let radius = match radius {
        Option::Some(v) => v,
        Option::None => 5,
    };
    if (x as u64) < (radius as u64) || (y as u64) < (radius as u64) || (x as u64) + (radius as u64)
        >= img.width() as u64 || (y as u64) + (radius as u64) >= img.height() as u64 {
        return 1;
    }
    let x0: u32 = x - radius;
    let x1: u32 = x + radius + 1;
    let y0: u32 = y - radius;
    let y1: u32 = y + radius + 1;
    let ghost xm = x_moment as int;
    let ghost ym = y_moment as int;
    proof {
        img.lemma_dims();
        assert(forall|mx: int, my: int|
            x0 as int <= mx < x1 as int && y0 as int <= my < y1 as int ==> 0
                <= #[trigger] cell_coeff(xm, ym, mx, my) <= 0x10000);
    }
    let mut patch_sum_acc: u64 = 0;
    let mut mx: u32 = x0;
    while mx < x1
        invariant
            img.wf(),
            x0 <= mx <= x1,
            x1 as int <= img.width_spec(),
            y1 as int <= img.height_spec(),
            x1 <= 0x10000,
            y1 <= 0x10000,
            xm == x_moment as int,
            ym == y_moment as int,
            y0 < y1,
            x1 - x0 <= 0x20000,
            y1 - y0 <= 0x20000,
            forall|mx2: int, my2: int|
                x0 as int <= mx2 < x1 as int && y0 as int <= my2 < y1 as int ==> 0
                    <= #[trigger] cell_coeff(xm, ym, mx2, my2) <= 0x10000,
            patch_sum_acc as int == patch_sum(*img, x0 as int, mx as int, y0 as int, y1 as int,
                xm, ym),
        decreases x1 - mx,
    {
        let mut col_acc: u64 = 0;
        let mut my: u32 = y0;
        while my < y1
            invariant
                img.wf(),
                x0 <= mx < x1,
                y0 <= my <= y1,
                x1 as int <= img.width_spec(),
                y1 as int <= img.height_spec(),
                x1 <= 0x10000,
                y1 <= 0x10000,
                xm == x_moment as int,
                ym == y_moment as int,
                y1 - y0 <= 0x20000,
                forall|mx2: int, my2: int|
                    x0 as int <= mx2 < x1 as int && y0 as int <= my2 < y1 as int ==> 0
                        <= #[trigger] cell_coeff(xm, ym, mx2, my2) <= 0x10000,
                col_acc as int == col_sum(*img, mx as int, y0 as int, my as int, xm, ym),
            decreases y1 - my,
        {
            let coefficient: u64 = if x_moment == 0 && y_moment == 0 {
                1
            } else if x_moment == 0 && y_moment == 1 {
                my as u64
            } else if x_moment == 1 && y_moment == 0 {
                mx as u64
            } else {
                0
            };
            let px = img.get_pixel(mx, my) as u64;
            proof {
                lemma_col_sum_bounds(*img, mx as int, y0 as int, my as int, xm, ym, 0x10000);
                assert(col_sum(*img, mx as int, y0 as int, my as int + 1, xm, ym) == col_sum(
                    *img,
                    mx as int,
                    y0 as int,
                    my as int,
                    xm,
                    ym,
                ) + cell_coeff(xm, ym, mx as int, my as int) * (img.pixel(mx as int, my as int)
                    as int)) by {
                    lemma_col_sum_snoc(*img, mx as int, y0 as int, my as int + 1, xm, ym);
                }
                assert((my as int - y0 as int) * 0x10000 * 255 <= 0x20000 * 0x10000 * 255)
                    by (nonlinear_arith)
                    requires
                        my as int - y0 as int <= 0x20000,
                ;
                assert(coefficient * px <= 0x10000 * 255) by (nonlinear_arith)
                    requires
                        0 <= coefficient <= 0x10000,
                        0 <= px <= 255,
                ;
            }
            proof {
                assert(coefficient as int == cell_coeff(xm, ym, mx as int, my as int));
                assert(px as int == img.pixel(mx as int, my as int) as int);
            }
            col_acc = col_acc + coefficient * px;
            proof {
                assert(col_acc as int == col_sum(*img, mx as int, y0 as int, my as int + 1, xm,
                    ym));
            }
            my += 1;
        }
        proof {
            lemma_patch_sum_bounds(*img, x0 as int, mx as int, y0 as int, y1 as int, xm, ym,
                0x10000);
            lemma_col_sum_bounds(*img, mx as int, y0 as int, y1 as int, xm, ym, 0x10000);
            lemma_patch_sum_snoc(*img, x0 as int, mx as int + 1, y0 as int, y1 as int, xm, ym);
            assert((mx as int - x0 as int) * ((y1 as int - y0 as int) * 0x10000 * 255) <= 0x20000
                * (0x20000 * 0x10000 * 255)) by (nonlinear_arith)
                requires
                    0 <= mx as int - x0 as int <= 0x20000,
                    0 <= y1 as int - y0 as int <= 0x20000,
            ;
            assert((y1 as int - y0 as int) * 0x10000 * 255 <= 0x20000 * 0x10000 * 255)
                by (nonlinear_arith)
                requires
                    0 <= y1 as int - y0 as int <= 0x20000,
            ;
        }
        patch_sum_acc = patch_sum_acc + col_acc;
        mx += 1;
    }
    patch_sum_acc
}

/// Splitting a column sum at its last row.
proof fn lemma_col_sum_snoc(img: GrayImage, mx: int, y0: int, y1: int, xm: int, ym: int)
    requires
        y0 < y1,
    ensures
        col_sum(img, mx, y0, y1, xm, ym) == col_sum(img, mx, y0, y1 - 1, xm, ym) + cell_coeff(
            xm,
            ym,
            mx,
            y1 - 1,
        ) * (img.pixel(mx, y1 - 1) as int),
    decreases y1 - y0,
{
    if y0 + 1 < y1 {
        lemma_col_sum_snoc(img, mx, y0 + 1, y1, xm, ym);
    } else {
        assert(col_sum(img, mx, y0 + 1, y1, xm, ym) == 0);
        assert(col_sum(img, mx, y0, y1 - 1, xm, ym) == 0);
    }
}

/// Splitting a patch sum at its last column.
proof fn lemma_patch_sum_snoc(img: GrayImage, x0: int, x1: int, y0: int, y1: int, xm: int, ym: int)
    requires
        x0 < x1,
    ensures
        patch_sum(img, x0, x1, y0, y1, xm, ym) == patch_sum(img, x0, x1 - 1, y0, y1, xm, ym)
            + col_sum(img, x1 - 1, y0, y1, xm, ym),
    decreases x1 - x0,
{
    if x0 + 1 < x1 {
        lemma_patch_sum_snoc(img, x0 + 1, x1, y0, y1, xm, ym);
    } else {
        assert(patch_sum(img, x0 + 1, x1, y0, y1, xm, ym) == 0);
        assert(patch_sum(img, x0, x1 - 1, y0, y1, xm, ym) == 0);
    }
}

/// The moment of the patch around `(px, py)`: the rounded weighted
/// centroid, and the whole-degree direction from the centroid toward the
/// point.  A patch crossing the border uses the sentinel sums; a patch of
/// zero mass yields centroid `(0, 0)` and direction `0`.
pub open spec fn moment_spec(img: GrayImage, px: int, py: int, radius: int) -> Moment {
    let pm = patch_moment_spec(img, px, py, 0, 0, radius);
    let pxm = patch_moment_spec(img, px, py, 1, 0, radius);
    let pym = patch_moment_spec(img, px, py, 0, 1, radius);
    if pm == 0 {
        Moment { centroid: (px as i32, py as i32), moment: (0i32, 0i32), rotation: 0 }
    } else {
        Moment {
            centroid: (px as i32, py as i32),
            moment: (((2 * pxm + pm) / (2 * pm)) as i32, ((2 * pym + pm) / (2 * pm)) as i32),
            rotation: atan2_deg_spec(py * pm - pym, px * pm - pxm) as i32,
        }
    }
}


/// The threshold `fast` falls back to when none is given.
pub open spec fn t_or_default(o: Option<i32>) -> int {
    match o {
        Option::Some(t) => t as int,
        Option::None => DEFAULT_FAST_THRESHOLD as int,
    }
}

pub open spec fn ft_or_default(o: Option<FastType>) -> FastType {
    match o {
        Option::Some(t) => t,
        Option::None => FastType::TYPE_9_16,
    }
}

/// The centroid-and-orientation moment of the patch around `point`.
pub fn moment_centroid(img: &GrayImage, point: &Point, moment_radius: Option<u32>) -> (r: Moment)
    requires
        img.wf(),
        opt_radius(moment_radius) <= 1024,
    ensures
        r == moment_spec(*img, point.0 as int, point.1 as int, opt_radius(moment_radius)),
{
    let ghost px_ = point.0 as int;
    let ghost py_ = point.1 as int;
    let ghost rad = opt_radius(moment_radius);
    let (p_m, p_x, p_y): (u64, u64, u64) = if point.0 < 0 || point.1 < 0 {
        (1, 1, 1)
    } else {
        (
            patch_moment(img, point.0 as u32, point.1 as u32, 0, 0, moment_radius),
            patch_moment(img, point.0 as u32, point.1 as u32, 1, 0, moment_radius),
            patch_moment(img, point.0 as u32, point.1 as u32, 0, 1, moment_radius),
        )
    };
    proof {
        assert(p_m as int == patch_moment_spec(*img, px_, py_, 0, 0, rad));
        assert(p_x as int == patch_moment_spec(*img, px_, py_, 1, 0, rad));
        assert(p_y as int == patch_moment_spec(*img, px_, py_, 0, 1, rad));
        img.lemma_dims();
        if !(px_ < rad || py_ < rad || px_ + rad >= img.width_spec() || py_ + rad
            >= img.height_spec()) {
            lemma_patch_sum_moment_bounds(*img, px_ - rad, px_ + rad + 1, py_ - rad, py_ + rad
                + 1);
            lemma_patch_sum_bounds(*img, px_ - rad, px_ + rad + 1, py_ - rad, py_ + rad + 1, 0, 0,
                1);
            assert((2 * rad + 1) * ((2 * rad + 1) * 1 * 255) <= 0x40000000) by (nonlinear_arith)
                requires
                    0 <= rad <= 1024,
            ;
            assert(p_x as int <= 0x10000 * (p_m as int)) by (nonlinear_arith)
                requires
                    p_x as int <= (px_ + rad) * (p_m as int),
                    0 <= px_ + rad <= 0x10000,
                    0 <= p_m as int,
            ;
            assert(p_y as int <= 0x10000 * (p_m as int)) by (nonlinear_arith)
                requires
                    p_y as int <= (py_ + rad) * (p_m as int),
                    0 <= py_ + rad <= 0x10000,
                    0 <= p_m as int,
            ;
        }
        assert(p_m <= 0x40000000);
        assert(p_x as int <= 0x10000 * (p_m as int));
        assert(p_y as int <= 0x10000 * (p_m as int));
    }
    if p_m == 0 {
        return Moment { centroid: *point, moment: (0, 0), rotation: 0 };
    }
    let mx: u64 = (2 * p_x + p_m) / (2 * p_m);
    let my: u64 = (2 * p_y + p_m) / (2 * p_m);
    proof {
        lemma_rounded_ratio_bound(p_x as int, p_m as int);
        lemma_rounded_ratio_bound(p_y as int, p_m as int);
    }
    proof {
        assert(-0x2000000000000000 <= (point.1 as i64) * (p_m as i64) <= 0x2000000000000000)
            by (nonlinear_arith)
            requires
                -0x80000000 <= point.1 as i64 <= 0x80000000,
                0 <= p_m as i64 <= 0x40000000,
        ;
        assert(-0x2000000000000000 <= (point.0 as i64) * (p_m as i64) <= 0x2000000000000000)
            by (nonlinear_arith)
            requires
                -0x80000000 <= point.0 as i64 <= 0x80000000,
                0 <= p_m as i64 <= 0x40000000,
        ;
        assert(0 <= p_x as int <= 0x4000000000000) by (nonlinear_arith)
            requires
                0 <= p_x as int <= 0x10000 * (p_m as int),
                0 <= p_m as int <= 0x40000000,
        ;
        assert(0 <= p_y as int <= 0x4000000000000) by (nonlinear_arith)
            requires
                0 <= p_y as int <= 0x10000 * (p_m as int),
                0 <= p_m as int <= 0x40000000,
        ;
    }
    let ny: i64 = (point.1 as i64) * (p_m as i64) - (p_y as i64);
    let nx: i64 = (point.0 as i64) * (p_m as i64) - (p_x as i64);
    let rotation = atan2_deg(ny, nx);
    Moment { centroid: *point, moment: (mx as i32, my as i32), rotation }
}

/// The half-up rounded ratio of two sums stays within the coordinate
/// range when the numerator is at most `0x10000` times the denominator.
proof fn lemma_rounded_ratio_bound(a: int, m: int)
    requires
        0 <= a,
        1 <= m,
        a <= 0x10000 * m,
    ensures
        0 <= (2 * a + m) / (2 * m) <= 0x10000,
{
    vstd::arithmetic::div_mod::lemma_div_is_ordered(0, 2 * a + m, 2 * m);
    vstd::arithmetic::div_mod::lemma_div_is_ordered(2 * a + m, 2 * (0x10000 * m) + m, 2 * m);
    vstd::arithmetic::div_mod::lemma_fundamental_div_mod_converse(
        2 * (0x10000 * m) + m,
        2 * m,
        0x10000,
        m,
    );
    assert(2 * (0x10000 * m) + m == 0x10000 * (2 * m) + m) by (nonlinear_arith);
}

/// One walk of the sampling pattern at pixel `(cx, cy)`: `None` when the
/// similar-sample counter exceeds the step's cap (early rejection), else
/// the accumulated score of the dissimilar samples.
pub open spec fn fast_step(
    img: GrayImage,
    cx: int,
    cy: int,
    t: int,
    offs: Seq<Point>,
    idxs: Seq<usize>,
    cmps: Seq<i32>,
    i: int,
    similars: int,
    score: int,
) -> Option<int>
    decreases offs.len() - i,
{
    if i < 0 || i >= offs.len() {
        Option::Some(score)
    } else {
        let off = offs[idxs[i] as int];
        let diff = abs_i(
            (img.pixel(cx + off.0, cy + off.1) as int) - (img.pixel(cx, cy) as int),
        );
        if diff < t {
            if similars + 1 > cmps[i] {
                Option::None
            } else {
                fast_step(img, cx, cy, t, offs, idxs, cmps, i + 1, similars + 1, score)
            }
        } else {
            fast_step(img, cx, cy, t, offs, idxs, cmps, i + 1, similars, score + diff)
        }
    }
}

/// The corner score of a pixel, or `None` when it is rejected as flat.
pub open spec fn pixel_score_spec(
    img: GrayImage,
    cx: int,
    cy: int,
    t: int,
    offs: Seq<Point>,
    idxs: Seq<usize>,
    cmps: Seq<i32>,
) -> Option<int> {
    fast_step(img, cx, cy, t, offs, idxs, cmps, 0, 0, 0)
}

pub proof fn lemma_fast_step_bounds(
    img: GrayImage,
    cx: int,
    cy: int,
    t: int,
    offs: Seq<Point>,
    idxs: Seq<usize>,
    cmps: Seq<i32>,
    i: int,
    similars: int,
    score: int,
)
    requires
        0 <= i <= offs.len(),
        0 <= score,
    ensures
        fast_step(img, cx, cy, t, offs, idxs, cmps, i, similars, score) matches Option::Some(s)
            ==> score <= s <= score + (offs.len() - i) * 255,
    decreases offs.len() - i,
{
    if !(i < 0 || i >= offs.len()) {
        let off = offs[idxs[i] as int];
        let diff = abs_i(
            (img.pixel(cx + off.0, cy + off.1) as int) - (img.pixel(cx, cy) as int),
        );
        assert((offs.len() - i) * 255 == (offs.len() - (i + 1)) * 255 + 255)
            by (nonlinear_arith);
        if diff < t {
            if !(similars + 1 > cmps[i]) {
                lemma_fast_step_bounds(img, cx, cy, t, offs, idxs, cmps, i + 1, similars + 1,
                    score);
            }
        } else {
            assert(0 <= diff <= 255);
            lemma_fast_step_bounds(img, cx, cy, t, offs, idxs, cmps, i + 1, similars, score
                + diff);
        }
    }
}

/// Scores one candidate pixel by walking the pattern in its traversal
/// order: `None` when the pixel is rejected early as flat, else its
/// accumulated brightness-difference score.
pub fn fast_pixel_score(img: &GrayImage, ctx: &FastContext, threshold: i32, x: u32, y: u32) -> (r:
    Option<i32>)
    requires
        img.wf(),
        ctx.wf(),
        ctx.radius as int <= x as int,
        (x as int) + (ctx.radius as int) < img.width_spec(),
        ctx.radius as int <= y as int,
        (y as int) + (ctx.radius as int) < img.height_spec(),
    ensures
        r matches Option::Some(s) ==> pixel_score_spec(
            *img,
            x as int,
            y as int,
            threshold as int,
            ctx.offsets@,
            ctx.idx@,
            ctx.cmp@,
        ) == Option::Some(s as int) && 0 <= s <= 4080,
        r is None ==> pixel_score_spec(
            *img,
            x as int,
            y as int,
            threshold as int,
            ctx.offsets@,
            ctx.idx@,
            ctx.cmp@,
        ) is None,
{
    proof {
        img.lemma_dims();
    }
    let center_pixel = img.get_pixel(x, y) as i32;
    let mut score: i32 = 0;
    let mut similars: i32 = 0;
    let mut i: usize = 0;
    let len = ctx.offsets.len();
    while i < len
        invariant
            img.wf(),
            ctx.wf(),
            len == ctx.offsets@.len(),
            ctx.radius as int <= x as int,
            (x as int) + (ctx.radius as int) < img.width_spec(),
            ctx.radius as int <= y as int,
            (y as int) + (ctx.radius as int) < img.height_spec(),
            img.width_spec() <= 0x10000,
            img.height_spec() <= 0x10000,
            center_pixel as int == img.pixel(x as int, y as int) as int,
            0 <= i <= len,
            0 <= score,
            score as int <= 255 * i,
            0 <= similars <= i,
            pixel_score_spec(*img, x as int, y as int, threshold as int, ctx.offsets@, ctx.idx@,
                ctx.cmp@) == fast_step(*img, x as int, y as int, threshold as int, ctx.offsets@,
                ctx.idx@, ctx.cmp@, i as int, similars as int, score as int),
        decreases len - i,
    {
        let px_idx = ctx.idx[i];
        let off = ctx.offsets[px_idx];
        let sx = ((x as i64) + (off.0 as i64)) as u32;
        let sy = ((y as i64) + (off.1 as i64)) as u32;
        let px = img.get_pixel(sx, sy) as i32;
        let d = px - center_pixel;
        let diff = if d < 0 {
            -d
        } else {
            d
        };
        if diff < threshold {
            similars += 1;
            if similars > ctx.cmp[i] {
                return Option::None;
            }
        } else {
            score += diff;
        }
        i += 1;
    }
    Option::Some(score)
}

/// The keypoints of one scan row, columns `x` and rightward, in scan
/// order.
pub open spec fn detect_row(
    img: GrayImage,
    t: int,
    offs: Seq<Point>,
    idxs: Seq<usize>,
    cmps: Seq<i32>,
    radius: int,
    y: int,
    x: int,
) -> Seq<FastKeypoint>
    decreases img.width_spec() - radius - x,
{
    if x < 0 || x + radius >= img.width_spec() {
        Seq::empty()
    } else {
        let rest = detect_row(img, t, offs, idxs, cmps, radius, y, x + 1);
        match pixel_score_spec(img, x, y, t, offs, idxs, cmps) {
            Option::Some(s) => seq![
                FastKeypoint {
                    location: (x as i32, y as i32),
                    score: s as i32,
                    nms_dist: 0,
                    moment: moment_spec(img, x, y, 5),
                },
            ] + rest,
            Option::None => rest,
        }
    }
}

/// The keypoints of rows `y` and below, in scan order.
pub open spec fn detect_from(
    img: GrayImage,
    t: int,
    offs: Seq<Point>,
    idxs: Seq<usize>,
    cmps: Seq<i32>,
    radius: int,
    y: int,
) -> Seq<FastKeypoint>
    decreases img.height_spec() - radius - y,
{
    if y < 0 || y + radius >= img.height_spec() {
        Seq::empty()
    } else {
        detect_row(img, t, offs, idxs, cmps, radius, y, radius) + detect_from(
            img,
            t,
            offs,
            idxs,
            cmps,
            radius,
            y + 1,
        )
    }
}

/// Every keypoint a full scan of the image detects, in scan order,
/// before sorting.
pub open spec fn detect_spec(
    img: GrayImage,
    t: int,
    offs: Seq<Point>,
    idxs: Seq<usize>,
    cmps: Seq<i32>,
    radius: int,
) -> Seq<FastKeypoint> {
    detect_from(img, t, offs, idxs, cmps, radius, radius)
}

pub proof fn lemma_detect_row_props(
    img: GrayImage,
    t: int,
    offs: Seq<Point>,
    idxs: Seq<usize>,
    cmps: Seq<i32>,
    radius: int,
    y: int,
    x: int,
)
    requires
        0 <= radius,
        0 <= y < img.height_spec(),
        0 <= x,
        offs.len() <= 16,
        img.width_spec() <= 0x7fffffff,
        img.height_spec() <= 0x7fffffff,
    ensures
        forall|kp: FastKeypoint|
            #[trigger] detect_row(img, t, offs, idxs, cmps, radius, y, x).contains(kp) ==> {
                &&& 0 <= kp.location.0 < img.width_spec()
                &&& kp.location.1 == y
                &&& kp.score >= 0
                &&& -180 <= kp.moment.rotation <= 180
            },
    decreases img.width_spec() - radius - x,
{
    if !(x < 0 || x + radius >= img.width_spec()) {
        lemma_detect_row_props(img, t, offs, idxs, cmps, radius, y, x + 1);
        match pixel_score_spec(img, x, y, t, offs, idxs, cmps) {
            Option::Some(s) => {
                lemma_fast_step_bounds(img, x, y, t, offs, idxs, cmps, 0, 0, 0);
                let head = FastKeypoint {
                    location: (x as i32, y as i32),
                    score: s as i32,
                    nms_dist: 0,
                    moment: moment_spec(img, x, y, 5),
                };
                let whole = detect_row(img, t, offs, idxs, cmps, radius, y, x);
                let rest = detect_row(img, t, offs, idxs, cmps, radius, y, x + 1);
                assert(whole == seq![head] + rest);
                assert forall|kp: FastKeypoint| #[trigger] whole.contains(kp) implies kp == head
                    || rest.contains(kp) by {
                    let idx = choose|idx: int| 0 <= idx < whole.len() && whole[idx] == kp;
                    if idx > 0 {
                        assert(rest[idx - 1] == kp);
                        assert(rest.contains(kp));
                    }
                }
                assert(0 <= s <= 16 * 255);
                assert(0 <= head.location.0 < img.width_spec());
                assert(head.location.1 == y);
                assert(head.score >= 0);
                let pm = patch_moment_spec(img, x, y, 0, 0, 5);
                let pxm = patch_moment_spec(img, x, y, 1, 0, 5);
                let pym = patch_moment_spec(img, x, y, 0, 1, 5);
                lemma_atan2_deg_range(y * pm - pym, x * pm - pxm);
                assert(-180 <= head.moment.rotation <= 180);
            },
            Option::None => {
                assert(detect_row(img, t, offs, idxs, cmps, radius, y, x) == detect_row(img, t,
                    offs, idxs, cmps, radius, y, x + 1));
            },
        }
    } else {
        assert(detect_row(img, t, offs, idxs, cmps, radius, y, x) =~= Seq::<
            FastKeypoint,
        >::empty());
        assert(forall|kp: FastKeypoint|
            !(#[trigger] detect_row(img, t, offs, idxs, cmps, radius, y, x).contains(kp)));
    }
}

pub proof fn lemma_detect_from_props(
    img: GrayImage,
    t: int,
    offs: Seq<Point>,
    idxs: Seq<usize>,
    cmps: Seq<i32>,
    radius: int,
    y: int,
)
    requires
        0 <= radius,
        0 <= y,
        offs.len() <= 16,
        img.width_spec() <= 0x7fffffff,
        img.height_spec() <= 0x7fffffff,
    ensures
        forall|kp: FastKeypoint|
            #[trigger] detect_from(img, t, offs, idxs, cmps, radius, y).contains(kp) ==> {
                &&& 0 <= kp.location.0 < img.width_spec()
                &&& 0 <= kp.location.1 < img.height_spec()
                &&& kp.score >= 0
                &&& -180 <= kp.moment.rotation <= 180
            },
    decreases img.height_spec() - radius - y,
{
    if !(y < 0 || y + radius >= img.height_spec()) {
        lemma_detect_row_props(img, t, offs, idxs, cmps, radius, y, radius);
        lemma_detect_from_props(img, t, offs, idxs, cmps, radius, y + 1);
        assert(forall|kp: FastKeypoint|
            #[trigger] detect_from(img, t, offs, idxs, cmps, radius, y).contains(kp)
                ==> detect_row(img, t, offs, idxs, cmps, radius, y, radius).contains(kp)
                || detect_from(img, t, offs, idxs, cmps, radius, y + 1).contains(kp));
    }
}

/// Sorts keypoints by score, highest first, preserving the multiset.
fn sort_keypoints(v: &mut Vec<FastKeypoint>)
    ensures
        final(v)@.len() == old(v)@.len(),
        final(v)@.to_multiset() == old(v)@.to_multiset(),
        forall|a: int, b: int|
            0 <= a < b < final(v)@.len() ==> final(v)@[a].score >= final(v)@[b].score,
{
    let len = v.len();
    if len == 0 {
        return ;
    }
    let mut i: usize = 1;
    while i < len
        invariant
            len == v@.len(),
            1 <= i <= len,
            v@.to_multiset() == old(v)@.to_multiset(),
            forall|a: int, b: int| 0 <= a < b < i ==> v@[a].score >= v@[b].score,
        decreases len - i,
    {
        let mut j: usize = i;
        while j > 0 && v[j - 1].score < v[j].score
            invariant
                len == v@.len(),
                1 <= i < len,
                0 <= j <= i,
                v@.to_multiset() == old(v)@.to_multiset(),
                forall|a: int, b: int|
                    0 <= a < b <= i && b != j ==> v@[a].score >= v@[b].score,
                forall|b: int| j < b <= i ==> v@[j as int].score >= v@[b].score,
            decreases j,
        {
            let ghost pre = v@;
            let a = v[j - 1];
            let b = v[j];
            v.set(j - 1, b);
            v.set(j, a);
            proof {
                assert(v@ =~= crate::common::seq_swap(pre, j - 1, j as int));
                crate::common::lemma_swap_multiset(pre, j - 1, j as int);
            }
            j -= 1;
        }
        i += 1;
    }
}

/// Detects every corner of the image under the chosen pattern (default:
/// the 16-sample pattern) and threshold (default 50), and returns the
/// keypoints ordered by score, strongest first.  An image smaller than
/// twice the pattern radius yields the empty sequence.
pub fn fast(img: &GrayImage, fast_type: Option<FastType>, threshold: Option<i32>) -> (r: Vec<
    FastKeypoint>)
    requires
        img.wf(),
    ensures
        ({
            let ft = ft_or_default(fast_type);
            let t = t_or_default(threshold);
            &&& r@.to_multiset() == detect_spec(
                *img,
                t,
                offsets_of(ft),
                idx_of(ft),
                cmp_of(ft),
                radius_of(ft),
            ).to_multiset()
            &&& forall|a: int, b: int| 0 <= a < b < r@.len() ==> r@[a].score >= r@[b].score
            &&& forall|k: int|
                0 <= k < r@.len() ==> {
                    &&& 0 <= (#[trigger] r@[k]).location.0 < img.width_spec()
                    &&& 0 <= r@[k].location.1 < img.height_spec()
                    &&& r@[k].score >= 0
                    &&& -180 <= r@[k].moment.rotation <= 180
                }
        }),
{
    let threshold: i32 = match threshold {
        Option::Some(t) => t,
        Option::None => DEFAULT_FAST_THRESHOLD,
    };
    let ghost ft = ft_or_default(fast_type);
    let fast_type: FastType = match fast_type {
        Option::Some(t) => t,
        Option::None => FastType::TYPE_9_16,
    };
    let ctx = fast_type.get_context();
    let ghost t_ = threshold as int;
    let ghost offs = ctx.offsets@;
    let ghost idxs = ctx.idx@;
    let ghost cmps = ctx.cmp@;
    let ghost rad = ctx.radius as int;
    proof {
        img.lemma_dims();
    }
    let w = img.width();
    let h = img.height();
    let mut fast_keypoint_matches: Vec<FastKeypoint> = Vec::new();
    let mut y: u32 = ctx.radius;
    while y + ctx.radius < h
        invariant
            img.wf(),
            ctx.wf(),
            offs == ctx.offsets@ && idxs == ctx.idx@ && cmps == ctx.cmp@ && rad
                == ctx.radius as int,
            t_ == threshold as int,
            w == img.width_spec() && h == img.height_spec(),
            img.width_spec() <= 0x10000 && img.height_spec() <= 0x10000,
            rad <= y as int,
            y as int <= 0x10000,
            detect_spec(*img, t_, offs, idxs, cmps, rad) == fast_keypoint_matches@ + detect_from(
                *img,
                t_,
                offs,
                idxs,
                cmps,
                rad,
                y as int,
            ),
            forall|k: int|
                0 <= k < fast_keypoint_matches@.len() ==> {
                    &&& 0 <= (#[trigger] fast_keypoint_matches@[k]).location.0 < img.width_spec()
                    &&& 0 <= fast_keypoint_matches@[k].location.1 < img.height_spec()
                    &&& fast_keypoint_matches@[k].score >= 0
                },
        decreases h - y,
    {
        proof {
            assert(detect_from(*img, t_, offs, idxs, cmps, rad, y as int) == detect_row(
                *img,
                t_,
                offs,
                idxs,
                cmps,
                rad,
                y as int,
                rad,
            ) + detect_from(*img, t_, offs, idxs, cmps, rad, y as int + 1));
        }
        let mut x: u32 = ctx.radius;
        while x + ctx.radius < w
            invariant
                img.wf(),
                ctx.wf(),
                offs == ctx.offsets@ && idxs == ctx.idx@ && cmps == ctx.cmp@ && rad
                    == ctx.radius as int,
                t_ == threshold as int,
                w == img.width_spec() && h == img.height_spec(),
                img.width_spec() <= 0x10000 && img.height_spec() <= 0x10000,
                rad <= x as int,
                x as int <= 0x10000,
                rad <= y as int && (y as int) + rad < img.height_spec(),
                detect_spec(*img, t_, offs, idxs, cmps, rad) == fast_keypoint_matches@ + (
                detect_row(*img, t_, offs, idxs, cmps, rad, y as int, x as int) + detect_from(
                    *img,
                    t_,
                    offs,
                    idxs,
                    cmps,
                    rad,
                    y as int + 1,
                )),
                forall|k: int|
                    0 <= k < fast_keypoint_matches@.len() ==> {
                        &&& 0 <= (#[trigger] fast_keypoint_matches@[k]).location.0
                            < img.width_spec()
                        &&& 0 <= fast_keypoint_matches@[k].location.1 < img.height_spec()
                        &&& fast_keypoint_matches@[k].score >= 0
                    },
            decreases w - x,
        {
            let ghost pre = fast_keypoint_matches@;
            match fast_pixel_score(img, &ctx, threshold, x, y) {
                Option::Some(score) => {
                    let point: Point = (x as i32, y as i32);
                    let moment = moment_centroid(img, &point, Option::None);
                    fast_keypoint_matches.push(
                        FastKeypoint { location: point, score, nms_dist: 0, moment },
                    );
                    proof {
                        let kp = FastKeypoint {
                            location: (x as i32, y as i32),
                            score: score,
                            nms_dist: 0,
                            moment: moment_spec(*img, x as int, y as int, 5),
                        };
                        assert(detect_row(*img, t_, offs, idxs, cmps, rad, y as int, x as int)
                            == seq![kp] + detect_row(*img, t_, offs, idxs, cmps, rad, y as int,
                            x as int + 1));
                        assert(fast_keypoint_matches@ + (detect_row(*img, t_, offs, idxs, cmps,
                            rad, y as int, x as int + 1) + detect_from(*img, t_, offs, idxs, cmps,
                            rad, y as int + 1)) =~= pre + (detect_row(*img, t_, offs, idxs, cmps,
                            rad, y as int, x as int) + detect_from(*img, t_, offs, idxs, cmps,
                            rad, y as int + 1)));
                    }
                },
                Option::None => {
                    proof {
                        assert(detect_row(*img, t_, offs, idxs, cmps, rad, y as int, x as int)
                            == detect_row(*img, t_, offs, idxs, cmps, rad, y as int, x as int
                            + 1));
                    }
                },
            }
            x += 1;
        }
        proof {
            assert(detect_row(*img, t_, offs, idxs, cmps, rad, y as int, x as int)
                =~= Seq::<FastKeypoint>::empty());
            assert(fast_keypoint_matches@ + (Seq::<FastKeypoint>::empty() + detect_from(*img, t_,
                offs, idxs, cmps, rad, y as int + 1)) =~= fast_keypoint_matches@ + detect_from(
                *img, t_, offs, idxs, cmps, rad, y as int + 1));
        }
        y += 1;
    }
    proof {
        assert(detect_from(*img, t_, offs, idxs, cmps, rad, y as int)
            =~= Seq::<FastKeypoint>::empty());
        assert(fast_keypoint_matches@ + Seq::<FastKeypoint>::empty()
            =~= fast_keypoint_matches@);
        assert(fast_keypoint_matches@ == detect_spec(*img, t_, offs, idxs, cmps, rad));
    }
    sort_keypoints(&mut fast_keypoint_matches);
    proof {
        assert(offs == offsets_of(ft) && idxs == idx_of(ft) && cmps == cmp_of(ft) && rad
            == radius_of(ft));
        lemma_detect_from_props(*img, t_, offs, idxs, cmps, rad, rad);
        assert(forall|k: int|
            0 <= k < fast_keypoint_matches@.len() ==> detect_spec(*img, t_, offs, idxs, cmps,
                rad).contains(#[trigger] fast_keypoint_matches@[k])) by {
            assert(forall|k: int|
                0 <= k < fast_keypoint_matches@.len()
                    ==> fast_keypoint_matches@.to_multiset().count(
                    #[trigger] fast_keypoint_matches@[k],
                ) > 0);
        }
    }
    fast_keypoint_matches
}


proof fn lemma_uniform_col_mass(img: GrayImage, mx: int, y0: int, y1: int, v: u8)
    requires
        y0 <= y1,
        forall|b: int| y0 <= b < y1 ==> img.pixel(mx, b) == v,
    ensures
        col_sum(img, mx, y0, y1, 0, 0) == (y1 - y0) * (v as int),
    decreases y1 - y0,
{
    if y0 < y1 {
        lemma_uniform_col_mass(img, mx, y0 + 1, y1, v);
        assert((y1 - y0) * (v as int) == (v as int) + (y1 - y0 - 1) * (v as int))
            by (nonlinear_arith);
    } else {
        assert((y1 - y0) * (v as int) == 0) by (nonlinear_arith)
            requires
                y1 == y0,
        ;
    }
}

proof fn lemma_uniform_col_ymoment(img: GrayImage, mx: int, y0: int, y1: int, v: u8)
    requires
        y0 <= y1,
        forall|b: int| y0 <= b < y1 ==> img.pixel(mx, b) == v,
    ensures
        2 * col_sum(img, mx, y0, y1, 0, 1) == (y1 - y0) * (y0 + y1 - 1) * (v as int),
    decreases y1 - y0,
{
    if y0 < y1 {
        lemma_uniform_col_ymoment(img, mx, y0 + 1, y1, v);
        let rest2 = 2 * col_sum(img, mx, y0 + 1, y1, 0, 1);
        assert(2 * col_sum(img, mx, y0, y1, 0, 1) == 2 * (y0 * (v as int)) + rest2);
        assert(2 * (y0 * (v as int)) + (y1 - (y0 + 1)) * ((y0 + 1) + y1 - 1) * (v as int) == (y1
            - y0) * (y0 + y1 - 1) * (v as int)) by (nonlinear_arith);
    } else {
        assert((y1 - y0) * (y0 + y1 - 1) * (v as int) == 0) by (nonlinear_arith)
            requires
                y1 == y0,
        ;
    }
}

proof fn lemma_uniform_patch_mass(img: GrayImage, x0: int, x1: int, y0: int, y1: int, v: u8)
    requires
        x0 <= x1,
        y0 <= y1,
        forall|a: int, b: int| x0 <= a < x1 && y0 <= b < y1 ==> img.pixel(a, b) == v,
    ensures
        patch_sum(img, x0, x1, y0, y1, 0, 0) == (x1 - x0) * ((y1 - y0) * (v as int)),
    decreases x1 - x0,
{
    if x0 < x1 {
        lemma_uniform_patch_mass(img, x0 + 1, x1, y0, y1, v);
        lemma_uniform_col_mass(img, x0, y0, y1, v);
        assert((x1 - x0) * ((y1 - y0) * (v as int)) == (y1 - y0) * (v as int) + (x1 - (x0 + 1)) * (
        (y1 - y0) * (v as int))) by (nonlinear_arith);
    } else {
        assert((x1 - x0) * ((y1 - y0) * (v as int)) == 0) by (nonlinear_arith)
            requires
                x1 == x0,
        ;
    }
}

proof fn lemma_uniform_patch_xmoment(img: GrayImage, x0: int, x1: int, y0: int, y1: int, v: u8)
    requires
        x0 <= x1,
        y0 <= y1,
        forall|a: int, b: int| x0 <= a < x1 && y0 <= b < y1 ==> img.pixel(a, b) == v,
    ensures
        2 * patch_sum(img, x0, x1, y0, y1, 1, 0) == (x1 - x0) * (x0 + x1 - 1) * ((y1 - y0) * (
        v as int)),
    decreases x1 - x0,
{
    let c = (y1 - y0) * (v as int);
    if x0 < x1 {
        lemma_uniform_patch_xmoment(img, x0 + 1, x1, y0, y1, v);
        lemma_uniform_col_mass(img, x0, y0, y1, v);
        lemma_col_sum_x_linear(img, x0, y0, y1);
        assert(col_sum(img, x0, y0, y1, 1, 0) == x0 * c);
        assert(2 * patch_sum(img, x0, x1, y0, y1, 1, 0) == 2 * (x0 * c) + 2 * patch_sum(img, x0
            + 1, x1, y0, y1, 1, 0));
        assert(2 * (x0 * c) + (x1 - (x0 + 1)) * ((x0 + 1) + x1 - 1) * c == (x1 - x0) * (x0 + x1
            - 1) * c) by (nonlinear_arith);
    } else {
        assert((x1 - x0) * (x0 + x1 - 1) * c == 0) by (nonlinear_arith)
            requires
                x1 == x0,
        ;
    }
}

proof fn lemma_uniform_patch_ymoment(img: GrayImage, x0: int, x1: int, y0: int, y1: int, v: u8)
    requires
        x0 <= x1,
        y0 <= y1,
        forall|a: int, b: int| x0 <= a < x1 && y0 <= b < y1 ==> img.pixel(a, b) == v,
    ensures
        2 * patch_sum(img, x0, x1, y0, y1, 0, 1) == (x1 - x0) * ((y1 - y0) * (y0 + y1 - 1) * (
        v as int)),
    decreases x1 - x0,
{
    let c = (y1 - y0) * (y0 + y1 - 1) * (v as int);
    if x0 < x1 {
        lemma_uniform_patch_ymoment(img, x0 + 1, x1, y0, y1, v);
        lemma_uniform_col_ymoment(img, x0, y0, y1, v);
        assert(2 * patch_sum(img, x0, x1, y0, y1, 0, 1) == 2 * col_sum(img, x0, y0, y1, 0, 1) + 2
            * patch_sum(img, x0 + 1, x1, y0, y1, 0, 1));
        assert(c + (x1 - (x0 + 1)) * c == (x1 - x0) * c) by (nonlinear_arith);
    } else {
        assert((x1 - x0) * c == 0) by (nonlinear_arith)
            requires
                x1 == x0,
        ;
    }
}

/// A flat patch of positive intensity, fully inside the image, has its
/// weighted centroid exactly at the queried point: the rounded centroid
/// the moment stores equals the point itself.
pub proof fn lemma_uniform_patch_centroid(img: GrayImage, px: int, py: int, radius: int, v: u8)
    requires
        0 <= radius,
        radius <= px && px + radius < img.width_spec(),
        radius <= py && py + radius < img.height_spec(),
        img.width_spec() <= 0x10000,
        img.height_spec() <= 0x10000,
        v >= 1,
        forall|a: int, b: int|
            px - radius <= a <= px + radius && py - radius <= b <= py + radius ==> img.pixel(a, b)
                == v,
    ensures
        moment_spec(img, px, py, radius).moment == (px as i32, py as i32),
        moment_spec(img, px, py, radius).centroid == (px as i32, py as i32),
{
    let x0 = px - radius;
    let x1 = px + radius + 1;
    let y0 = py - radius;
    let y1 = py + radius + 1;
    lemma_uniform_patch_mass(img, x0, x1, y0, y1, v);
    lemma_uniform_patch_xmoment(img, x0, x1, y0, y1, v);
    lemma_uniform_patch_ymoment(img, x0, x1, y0, y1, v);
    let side = 2 * radius + 1;
    let c = side * (v as int);
    let pm = patch_sum(img, x0, x1, y0, y1, 0, 0);
    let pxm = patch_sum(img, x0, x1, y0, y1, 1, 0);
    let pym = patch_sum(img, x0, x1, y0, y1, 0, 1);
    assert(pm == side * c);
    assert(pm >= 1) by (nonlinear_arith)
        requires
            pm == side * (side * (v as int)),
            side >= 1,
            v >= 1,
    ;
    assert(2 * pxm == side * (2 * px) * c);
    assert(2 * pym == side * (2 * py * c)) by {
        assert((y1 - y0) * (y0 + y1 - 1) * (v as int) == 2 * py * c) by (nonlinear_arith)
            requires
                y0 == py - radius,
                y1 == py + radius + 1,
                c == (2 * radius + 1) * (v as int),
        ;
    }
    assert(2 * pxm + pm == px * (2 * pm) + pm) by (nonlinear_arith)
        requires
            2 * pxm == side * (2 * px) * c,
            pm == side * c,
    ;
    assert(2 * pym + pm == py * (2 * pm) + pm) by (nonlinear_arith)
        requires
            2 * pym == side * (2 * py * c),
            pm == side * c,
    ;
    vstd::arithmetic::div_mod::lemma_fundamental_div_mod_converse(2 * pxm + pm, 2 * pm, px, pm);
    vstd::arithmetic::div_mod::lemma_fundamental_div_mod_converse(2 * pym + pm, 2 * pm, py, pm);
}

proof fn lemma_uniform_fast_step(
    img: GrayImage,
    cx: int,
    cy: int,
    t: int,
    offs: Seq<Point>,
    idxs: Seq<usize>,
    cmps: Seq<i32>,
    radius: int,
    v: u8,
    i: int,
    score: int,
)
    requires
        pattern_wf(offs, idxs, cmps, radius),
        radius <= cx && cx + radius < img.width_spec(),
        radius <= cy && cy + radius < img.height_spec(),
        forall|a: int, b: int|
            0 <= a < img.width_spec() && 0 <= b < img.height_spec() ==> img.pixel(a, b) == v,
        t >= 1,
        0 <= i,
        exists|j: int| i <= j < cmps.len() && cmps[j] <= j,
    ensures
        fast_step(img, cx, cy, t, offs, idxs, cmps, i, i, score) is None,
    decreases offs.len() - i,
{
    let j0 = choose|j: int| i <= j < cmps.len() && cmps[j] <= j;
    let off = offs[idxs[i] as int];
    assert(img.pixel(cx + off.0, cy + off.1) == v);
    assert(img.pixel(cx, cy) == v);
    if !(i + 1 > cmps[i]) {
        assert(i < j0);
        lemma_uniform_fast_step(img, cx, cy, t, offs, idxs, cmps, radius, v, i + 1, score);
    }
}

proof fn lemma_uniform_detect_row(
    img: GrayImage,
    t: int,
    offs: Seq<Point>,
    idxs: Seq<usize>,
    cmps: Seq<i32>,
    radius: int,
    v: u8,
    y: int,
    x: int,
)
    requires
        pattern_wf(offs, idxs, cmps, radius),
        radius <= y && y + radius < img.height_spec(),
        radius <= x,
        forall|a: int, b: int|
            0 <= a < img.width_spec() && 0 <= b < img.height_spec() ==> img.pixel(a, b) == v,
        t >= 1,
        exists|j: int| 0 <= j < cmps.len() && cmps[j] <= j,
    ensures
        detect_row(img, t, offs, idxs, cmps, radius, y, x) =~= Seq::<FastKeypoint>::empty(),
    decreases img.width_spec() - radius - x,
{
    if !(x < 0 || x + radius >= img.width_spec()) {
        lemma_uniform_fast_step(img, x, y, t, offs, idxs, cmps, radius, v, 0, 0);
        lemma_uniform_detect_row(img, t, offs, idxs, cmps, radius, v, y, x + 1);
    }
}

proof fn lemma_uniform_detect_from(
    img: GrayImage,
    t: int,
    offs: Seq<Point>,
    idxs: Seq<usize>,
    cmps: Seq<i32>,
    radius: int,
    v: u8,
    y: int,
)
    requires
        pattern_wf(offs, idxs, cmps, radius),
        radius <= y,
        forall|a: int, b: int|
            0 <= a < img.width_spec() && 0 <= b < img.height_spec() ==> img.pixel(a, b) == v,
        t >= 1,
        exists|j: int| 0 <= j < cmps.len() && cmps[j] <= j,
    ensures
        detect_from(img, t, offs, idxs, cmps, radius, y) =~= Seq::<FastKeypoint>::empty(),
    decreases img.height_spec() - radius - y,
{
    if !(y < 0 || y + radius >= img.height_spec()) {
        lemma_uniform_detect_row(img, t, offs, idxs, cmps, radius, v, y, radius);
        lemma_uniform_detect_from(img, t, offs, idxs, cmps, radius, v, y + 1);
    }
}

/// Corner detection on a perfectly uniform image finds nothing, at any
/// positive threshold and with either built-in pattern: every candidate
/// pixel is rejected early as flat.
pub proof fn lemma_uniform_image_empty(img: GrayImage, v: u8, t: int, ft: FastType)
    requires
        forall|a: int, b: int|
            0 <= a < img.width_spec() && 0 <= b < img.height_spec() ==> img.pixel(a, b) == v,
        t >= 1,
    ensures
        detect_spec(img, t, offsets_of(ft), idx_of(ft), cmp_of(ft), radius_of(ft)) =~= Seq::<
            FastKeypoint,
        >::empty(),
{
    let cmps = cmp_of(ft);
    assert(cmps[1] <= 1);
    assert(exists|j: int| 0 <= j < cmps.len() && cmps[j] <= j) by {
        assert(0 <= 1 < cmps.len() && cmps[1] <= 1);
    }
    match ft {
        FastType::TYPE_7_12 => {
            lemma_uniform_detect_from(img, t, offsets12(), idx12(), cmp12(), 3, v, 3);
        },
        FastType::TYPE_9_16 => {
            lemma_uniform_detect_from(img, t, offsets16(), idx16(), cmp16(), 4, v, 4);
        },
    }
}

} // verus!

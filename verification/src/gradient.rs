//! Gradient estimator: turns the color grid into an energy grid of local
//! edge-strength magnitudes.

use vstd::prelude::*;

use crate::grid::{ColorImage, GradCell, GradientGrid, Pixel, grid_index, lemma_grid_index};
use crate::math::{isqrt, isqrt_spec, sq};

verus! {

/// Euclidean magnitude of a pixel across its channels, rounded down.
pub open spec fn pixel_mag(p: Pixel) -> int {
    isqrt_spec(
        (p.r as int * p.r as int + p.g as int * p.g as int + p.b as int * p.b as int) as nat,
    ) as int
}

/// Magnitude read at a coordinate; a read outside the grid yields a
/// zero-magnitude pixel.
pub open spec fn mag_at(img: &ColorImage, x: int, y: int) -> int {
    if img.in_bounds(x, y) {
        pixel_mag(img.pixel_at(x, y))
    } else {
        0
    }
}

/// Gradient magnitude of the pixel at `(x, y)`: the Euclidean norm of the
/// horizontal and vertical magnitude differences, truncated to `[0, 255]`.
pub open spec fn gradient_at(img: &ColorImage, x: int, y: int) -> int {
    let dx = mag_at(img, x + 1, y) - mag_at(img, x - 1, y);
    let dy = mag_at(img, x, y + 1) - mag_at(img, x, y - 1);
    let m = isqrt_spec((dx * dx + dy * dy) as nat) as int;
    if m > 255 {
        255
    } else {
        m
    }
}

/// Cell that `estimate` writes at flat index `i` of the gradient grid.
pub open spec fn estimate_cell(img: &ColorImage, i: int) -> GradCell {
    GradCell {
        energy: gradient_at(img, i % (img.width as int), i / (img.width as int)) as i16,
        claimed: false,
    }
}

/// The gradient grid that `estimate` produces: one unclaimed cell per pixel.
pub open spec fn estimate_spec(img: &ColorImage) -> Seq<GradCell> {
    Seq::new((img.width * img.height) as nat, |i: int| estimate_cell(img, i))
}

/// Every gradient magnitude lies in `[0, 255]`, whatever the image holds.
pub proof fn lemma_gradient_in_range(img: &ColorImage, x: int, y: int)
    ensures
        0 <= gradient_at(img, x, y) <= 255,
{
}

/// On an image whose pixels are all equal, the gradient of every pixel with
/// all four neighbors inside the grid is zero.
pub proof fn lemma_uniform_interior_gradient(img: &ColorImage, p: Pixel, x: int, y: int)
    requires
        forall|i: int, j: int| img.in_bounds(i, j) ==> img.pixel_at(i, j) == p,
        img.in_bounds(x - 1, y),
        img.in_bounds(x + 1, y),
        img.in_bounds(x, y - 1),
        img.in_bounds(x, y + 1),
    ensures
        gradient_at(img, x, y) == 0,
{
    assert(mag_at(img, x + 1, y) == pixel_mag(p));
    assert(mag_at(img, x - 1, y) == pixel_mag(p));
    assert(mag_at(img, x, y + 1) == pixel_mag(p));
    assert(mag_at(img, x, y - 1) == pixel_mag(p));
    assert(isqrt_spec(0nat) == 0);
}

/// On an image whose pixels all have zero channels, every gradient is zero,
/// border pixels included.
pub proof fn lemma_black_gradient_zero(img: &ColorImage, x: int, y: int)
    requires
        forall|i: int, j: int|
            img.in_bounds(i, j) ==> img.pixel_at(i, j) == (Pixel { r: 0, g: 0, b: 0 }),
    ensures
        gradient_at(img, x, y) == 0,
{
    assert(pixel_mag(Pixel { r: 0, g: 0, b: 0 }) == 0) by {
        assert(isqrt_spec(0nat) == 0);
    }
    assert(mag_at(img, x + 1, y) == 0);
    assert(mag_at(img, x - 1, y) == 0);
    assert(mag_at(img, x, y + 1) == 0);
    assert(mag_at(img, x, y - 1) == 0);
    assert(isqrt_spec(0nat) == 0);
}

/// Euclidean channel magnitude of one pixel; at most 441.
pub fn pixel_magnitude(p: Pixel) -> (m: u32)
    ensures
        m as int == pixel_mag(p),
        m <= 441,
{
    let rr = p.r as u32;
    let gg = p.g as u32;
    let bb = p.b as u32;
    proof {
        assert(rr * rr <= 65025 && gg * gg <= 65025 && bb * bb <= 65025) by (nonlinear_arith)
            requires
                rr <= 255,
                gg <= 255,
                bb <= 255,
        ;
    }
    let s = rr * rr + gg * gg + bb * bb;
    let m = isqrt(s);
    proof {
        if m > 441 {
            assert(sq(442) <= sq(m as int)) by (nonlinear_arith)
                requires
                    442 <= m as int,
            ;
        }
    }
    m
}

/// Magnitude at a coordinate given as offsets from `(x, y)`, substituting zero
/// outside the grid.
fn mag_checked(img: &ColorImage, x: usize, y: usize, dx: i8, dy: i8) -> (m: u32)
    requires
        img.wf(),
        -1 <= dx <= 1,
        -1 <= dy <= 1,
        x < img.width,
        y < img.height,
    ensures
        m as int == mag_at(img, x as int + dx as int, y as int + dy as int),
        m <= 441,
{
    let ok_x: bool = if dx < 0 {
        x >= 1
    } else if dx > 0 {
        x + 1 < img.width
    } else {
        true
    };
    let ok_y: bool = if dy < 0 {
        y >= 1
    } else if dy > 0 {
        y + 1 < img.height
    } else {
        true
    };
    if ok_x && ok_y {
        let xx = if dx < 0 {
            x - 1
        } else if dx > 0 {
            x + 1
        } else {
            x
        };
        let yy = if dy < 0 {
            y - 1
        } else if dy > 0 {
            y + 1
        } else {
            y
        };
        pixel_magnitude(img.get(xx, yy))
    } else {
        proof {
            assert(!img.in_bounds(x as int + dx as int, y as int + dy as int));
        }
        0
    }
}

/// Gradient magnitude of one pixel, truncated to `[0, 255]`.
pub fn gradient_magnitude(img: &ColorImage, x: usize, y: usize) -> (e: i16)
    requires
        img.wf(),
        img.in_bounds(x as int, y as int),
    ensures
        e as int == gradient_at(img, x as int, y as int),
        0 <= e <= 255,
{
    let mxp = mag_checked(img, x, y, 1, 0);
    let mxm = mag_checked(img, x, y, -1, 0);
    let myp = mag_checked(img, x, y, 0, 1);
    let mym = mag_checked(img, x, y, 0, -1);
    let dx = mxp as i32 - mxm as i32;
    let dy = myp as i32 - mym as i32;
    proof {
        assert(dx * dx <= 194481 && dx * dx >= 0 && dy * dy <= 194481 && dy * dy >= 0)
            by (nonlinear_arith)
            requires
                -441 <= dx <= 441,
                -441 <= dy <= 441,
        ;
    }
    let m = isqrt((dx * dx + dy * dy) as u32);
    if m > 255 {
        255
    } else {
        m as i16
    }
}

/// Gradient estimator: one energy cell per pixel, none claimed.
pub fn estimate(img: &ColorImage) -> (g: GradientGrid)
    requires
        img.wf(),
    ensures
        g.wf(),
        g.width == img.width,
        g.height == img.height,
        g.cells@ == estimate_spec(img),
        forall|x: int, y: int|
            img.in_bounds(x, y) ==> g.cell_at(x, y) == (GradCell {
                energy: gradient_at(img, x, y) as i16,
                claimed: false,
            }),
{
    let w = img.width;
    let h = img.height;
    let total = w * h;
    let mut cells: Vec<GradCell> = Vec::new();
    let mut x: usize = 0;
    let mut y: usize = 0;
    let mut i: usize = 0;
    while i < total
        invariant
            img.wf(),
            w == img.width,
            h == img.height,
            total == w * h,
            i == y * w + x,
            w > 0 ==> x < w,
            w == 0 ==> x == 0,
            y <= h,
            i <= total,
            cells@.len() == i,
            forall|j: int| 0 <= j < i ==> #[trigger] cells@[j] == estimate_cell(img, j),
        decreases total - i,
    {
        proof {
            assert(w > 0 && y < h) by (nonlinear_arith)
                requires
                    i < total,
                    total == w * h,
                    i == y * w + x,
                    0 <= x,
                    0 <= y,
                    w == 0 ==> x == 0,
                    w > 0 ==> x < w,
            ;
        }
        let e = gradient_magnitude(img, x, y);
        proof {
            vstd::arithmetic::div_mod::lemma_fundamental_div_mod_converse(
                i as int,
                w as int,
                y as int,
                x as int,
            );
            assert(estimate_cell(img, i as int) == GradCell { energy: e, claimed: false });
        }
        cells.push(GradCell { energy: e, claimed: false });
        i += 1;
        x += 1;
        if x == w {
            x = 0;
            y += 1;
            proof {
                assert((y - 1) * w + w == y * w) by (nonlinear_arith)
                    requires
                        y >= 1,
                ;
            }
        }
    }
    proof {
        assert forall|j: int| 0 <= j < cells@.len() implies #[trigger] cells@[j]
            == estimate_spec(img)[j] by {
        }
        assert(cells@ =~= estimate_spec(img));
        assert forall|j: int| 0 <= j < cells@.len() implies 0 <= (#[trigger] cells@[j]).energy
            <= 255 by {
            lemma_gradient_in_range(img, j % (w as int), j / (w as int));
        }
    }
    let g = GradientGrid { width: w, height: h, cells };
    proof {
        assert forall|xx: int, yy: int| img.in_bounds(xx, yy) implies g.cell_at(xx, yy)
            == (GradCell { energy: gradient_at(img, xx, yy) as i16, claimed: false }) by {
            lemma_grid_index(w as int, h as int, xx, yy);
            vstd::arithmetic::div_mod::lemma_fundamental_div_mod_converse(
                yy * (w as int) + xx,
                w as int,
                yy,
                xx,
            );
        }
    }
    g
}

} // verus!

//! The pixel, energy and cost planes: width x height grids stored row-major.

use vstd::prelude::*;

verus! {

/// Energy a claimed gradient cell reports: the most expensive magnitude the
/// 16-bit energy plane can express, so a claimed cell is never preferred.
pub const CLAIMED_ENERGY: i32 = 32767;

/// Cost reported for a neighbor that lies outside the grid: never selected.
pub const ABSENT_COST: i32 = i32::MAX;

/// Sentinel written into the cost grid where a traced seam passed: half of
/// the largest 32-bit cost.
pub const SEAM_MARK: i32 = 1073741823;

/// One 3-channel 8-bit color pixel.
#[derive(Clone, Copy, PartialEq, Eq, Structural, Debug)]
pub struct Pixel {
    pub r: u8,
    pub g: u8,
    pub b: u8,
}

/// One cell of the gradient grid: its edge-strength magnitude, and whether the
/// cost accumulator has already claimed it for a cheaper path.
#[derive(Clone, Copy, PartialEq, Eq, Structural, Debug)]
pub struct GradCell {
    pub energy: i16,
    pub claimed: bool,
}

/// Flat row-major index of the cell at column `x`, row `y`.
pub open spec fn grid_index(w: int, x: int, y: int) -> int {
    y * w + x
}

/// The flat index of an in-bounds cell lies within the grid.
pub proof fn lemma_grid_index(w: int, h: int, x: int, y: int)
    requires
        0 <= x < w,
        0 <= y < h,
    ensures
        0 <= grid_index(w, x, y) < w * h,
        grid_index(w, x, y) == y * w + x,
{
    assert(0 <= y * w + x < w * h) by (nonlinear_arith)
        requires
            0 <= x < w,
            0 <= y < h,
    ;
}

/// Cells of a lower row have lower flat indices than cells of a higher row.
pub proof fn lemma_grid_index_row_order(w: int, x1: int, y1: int, x2: int, y2: int)
    requires
        0 <= x1 < w,
        0 <= x2 < w,
        0 <= y1 < y2,
    ensures
        grid_index(w, x1, y1) < y2 * w,
        grid_index(w, x1, y1) < grid_index(w, x2, y2),
{
    assert(y1 * w + x1 < y2 * w && y1 * w + x1 < y2 * w + x2) by (nonlinear_arith)
        requires
            0 <= x1 < w,
            0 <= x2 < w,
            0 <= y1 < y2,
    ;
}

/// A width x height grid of color pixels, stored row-major.
pub struct ColorImage {
    pub width: usize,
    pub height: usize,
    pub pixels: Vec<Pixel>,
}

impl ColorImage {
    /// The backing vector holds exactly one pixel per grid cell.
    pub open spec fn wf(&self) -> bool {
        self.pixels@.len() == self.width * self.height && self.width * self.height <= usize::MAX
    }

    pub open spec fn in_bounds(&self, x: int, y: int) -> bool {
        0 <= x < self.width && 0 <= y < self.height
    }

    pub open spec fn pixel_at(&self, x: int, y: int) -> Pixel {
        self.pixels@[grid_index(self.width as int, x, y)]
    }

    /// A grid of the given size with every pixel set to `fill`.
    pub fn new_filled(width: usize, height: usize, fill: Pixel) -> (img: ColorImage)
        requires
            width * height <= usize::MAX,
        ensures
            img.wf(),
            img.width == width,
            img.height == height,
            forall|x: int, y: int| img.in_bounds(x, y) ==> img.pixel_at(x, y) == fill,
    {
        let total = width * height;
        let mut pixels: Vec<Pixel> = Vec::new();
        for i in 0..total
            invariant
                pixels@.len() == i,
                forall|j: int| 0 <= j < i ==> pixels@[j] == fill,
        {
            pixels.push(fill);
        }
        let img = ColorImage { width, height, pixels };
        proof {
            assert forall|x: int, y: int| img.in_bounds(x, y) implies img.pixel_at(x, y)
                == fill by {
                lemma_grid_index(width as int, height as int, x, y);
            }
        }
        img
    }

    /// Builds a grid from row-major pixels, rejecting a vector of the wrong
    /// length.
    pub fn from_pixels(width: usize, height: usize, pixels: Vec<Pixel>) -> (img: Option<
        ColorImage,
    >)
        ensures
            match img {
                Some(i) => {
                    &&& i.wf()
                    &&& i.width == width
                    &&& i.height == height
                    &&& i.pixels@ == pixels@
                },
                None => pixels@.len() != width * height,
            },
    {
        let total = match width.checked_mul(height) {
            Some(t) => t,
            None => {
                proof {
                    assert(pixels@.len() == pixels.len());
                }
                return None;
            },
        };
        if pixels.len() != total {
            None
        } else {
            Some(ColorImage { width, height, pixels })
        }
    }

    pub fn get(&self, x: usize, y: usize) -> (p: Pixel)
        requires
            self.wf(),
            self.in_bounds(x as int, y as int),
        ensures
            p == self.pixel_at(x as int, y as int),
    {
        proof {
            lemma_grid_index(self.width as int, self.height as int, x as int, y as int);
        }
        self.pixels[y * self.width + x]
    }

    pub fn set(&mut self, x: usize, y: usize, p: Pixel)
        requires
            old(self).wf(),
            old(self).in_bounds(x as int, y as int),
        ensures
            final(self).wf(),
            final(self).width == old(self).width,
            final(self).height == old(self).height,
            final(self).pixels@ == old(self).pixels@.update(
                grid_index(old(self).width as int, x as int, y as int),
                p,
            ),
            final(self).pixel_at(x as int, y as int) == p,
    {
        proof {
            lemma_grid_index(self.width as int, self.height as int, x as int, y as int);
        }
        let w = self.width;
        self.pixels.set(y * w + x, p);
    }
}

/// A width x height grid of energy cells, stored row-major.
pub struct GradientGrid {
    pub width: usize,
    pub height: usize,
    pub cells: Vec<GradCell>,
}

/// What a gradient cell costs when read as a relaxation candidate: a claimed
/// cell reports `CLAIMED_ENERGY`, a cell outside the grid `ABSENT_COST`.
pub open spec fn grad_read(g: Seq<GradCell>, w: int, h: int, x: int, y: int) -> int {
    if 0 <= x < w && 0 <= y < h {
        if g[grid_index(w, x, y)].claimed {
            CLAIMED_ENERGY as int
        } else {
            g[grid_index(w, x, y)].energy as int
        }
    } else {
        ABSENT_COST as int
    }
}

/// Every energy lies in the gradient range `[0, 255]`.
pub open spec fn energies_wf(g: Seq<GradCell>) -> bool {
    forall|i: int| 0 <= i < g.len() ==> 0 <= (#[trigger] g[i]).energy <= 255
}

impl GradientGrid {
    pub open spec fn wf(&self) -> bool {
        self.cells@.len() == self.width * self.height && self.width * self.height <= usize::MAX
            && energies_wf(self.cells@)
    }

    pub open spec fn in_bounds(&self, x: int, y: int) -> bool {
        0 <= x < self.width && 0 <= y < self.height
    }

    pub open spec fn cell_at(&self, x: int, y: int) -> GradCell {
        self.cells@[grid_index(self.width as int, x, y)]
    }

    /// Builds a grid from row-major energies, rejecting a vector of the wrong
    /// length or an energy outside `[0, 255]`.
    pub fn from_energies(width: usize, height: usize, energies: Vec<i16>) -> (g: Option<
        GradientGrid,
    >)
        ensures
            match g {
                Some(g) => {
                    &&& g.wf()
                    &&& g.width == width
                    &&& g.height == height
                    &&& g.cells@.len() == energies@.len()
                    &&& forall|i: int|
                        0 <= i < energies@.len() ==> g.cells@[i] == (GradCell {
                            energy: energies@[i],
                            claimed: false,
                        })
                },
                None => energies@.len() != width * height || exists|i: int|
                    0 <= i < energies@.len() && !(0 <= #[trigger] energies@[i] <= 255),
            },
    {
        let total = match width.checked_mul(height) {
            Some(t) => t,
            None => {
                proof {
                    assert(energies@.len() == energies.len());
                }
                return None;
            },
        };
        if energies.len() != total {
            return None;
        }
        let mut cells: Vec<GradCell> = Vec::new();
        for i in 0..total
            invariant
                total == energies@.len(),
                cells@.len() == i,
                forall|j: int|
                    0 <= j < i ==> cells@[j] == (GradCell {
                        energy: energies@[j],
                        claimed: false,
                    }),
                forall|j: int| 0 <= j < i ==> 0 <= #[trigger] energies@[j] <= 255,
        {
            let e = energies[i];
            if !(0 <= e && e <= 255) {
                return None;
            }
            cells.push(GradCell { energy: e, claimed: false });
        }
        Some(GradientGrid { width, height, cells })
    }
}

/// A width x height grid of signed 32-bit cumulative costs, stored row-major.
pub struct CostGrid {
    pub width: usize,
    pub height: usize,
    pub cells: Vec<i32>,
}

/// What a cost cell reports when read: a cell outside the grid reports
/// `ABSENT_COST`.
pub open spec fn cost_read(c: Seq<i32>, w: int, h: int, x: int, y: int) -> int {
    if 0 <= x < w && 0 <= y < h {
        c[grid_index(w, x, y)] as int
    } else {
        ABSENT_COST as int
    }
}

/// Every accumulated or marked cost lies in `[0, SEAM_MARK]`.
pub open spec fn costs_wf(c: Seq<i32>) -> bool {
    forall|i: int| 0 <= i < c.len() ==> 0 <= #[trigger] c[i] <= SEAM_MARK
}

impl CostGrid {
    pub open spec fn wf(&self) -> bool {
        self.cells@.len() == self.width * self.height && self.width * self.height <= usize::MAX
            && costs_wf(self.cells@)
    }

    pub open spec fn in_bounds(&self, x: int, y: int) -> bool {
        0 <= x < self.width && 0 <= y < self.height
    }

    pub open spec fn cost_at(&self, x: int, y: int) -> int {
        self.cells@[grid_index(self.width as int, x, y)] as int
    }

    pub fn get(&self, x: usize, y: usize) -> (v: i32)
        requires
            self.wf(),
            self.in_bounds(x as int, y as int),
        ensures
            v as int == self.cost_at(x as int, y as int),
    {
        proof {
            lemma_grid_index(self.width as int, self.height as int, x as int, y as int);
        }
        self.cells[y * self.width + x]
    }

    /// Builds a grid from row-major costs, rejecting a vector of the wrong
    /// length or a cost outside `[0, SEAM_MARK]`.
    pub fn from_costs(width: usize, height: usize, costs: Vec<i32>) -> (c: Option<CostGrid>)
        ensures
            match c {
                Some(c) => {
                    &&& c.wf()
                    &&& c.width == width
                    &&& c.height == height
                    &&& c.cells@ == costs@
                },
                None => costs@.len() != width * height || exists|i: int|
                    0 <= i < costs@.len() && !(0 <= #[trigger] costs@[i] <= SEAM_MARK),
            },
    {
        let total = match width.checked_mul(height) {
            Some(t) => t,
            None => {
                proof {
                    assert(costs@.len() == costs.len());
                }
                return None;
            },
        };
        if costs.len() != total {
            return None;
        }
        let mut i: usize = 0;
        while i < costs.len()
            invariant
                i <= costs@.len(),
                forall|j: int| 0 <= j < i ==> 0 <= #[trigger] costs@[j] <= SEAM_MARK,
        decreases costs@.len() - i,
        {
            let v = costs[i];
            if !(0 <= v && v <= SEAM_MARK) {
                return None;
            }
            i += 1;
        }
        Some(CostGrid { width, height, cells: costs })
    }
}

} // verus!

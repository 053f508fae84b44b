//! The whole pipeline in one call: estimate gradients, accumulate costs,
//! select the seam origins, and trace them onto a copy of the input image.

use vstd::prelude::*;

use crate::cost::{acc_result, acc_steps, accumulate, lemma_zero_grid_costs};
use crate::gradient::{estimate, estimate_spec, lemma_black_gradient_zero};
use crate::grid::{ColorImage, Pixel};
use crate::seams::{select_seams, select_state, top_row, trace_all, trace_seams};

verus! {

/// The mathematical costs narrowed back to the 32-bit cells that hold them.
pub open spec fn seq_to_i32(s: Seq<int>) -> Seq<i32> {
    Seq::new(s.len(), |i: int| s[i] as i32)
}

/// Cost grid and canvas that the pipeline leaves behind: gradients estimated,
/// costs accumulated, the `seam_count` first-fit slots selected from the top
/// cost row, and every claimed slot traced onto the image.
pub open spec fn marked_image_spec(img: &ColorImage, seam_count: nat, hl: Pixel) -> (
    Seq<i32>,
    Seq<Pixel>,
) {
    let w = img.width as int;
    let h = img.height as int;
    let ge = estimate_spec(img);
    let acc = acc_result(ge, w, h);
    let costs = seq_to_i32(acc.1);
    let sl = select_state(top_row(costs, w), seam_count, img.width as nat);
    trace_all(costs, img.pixels@, acc.0, w, h, sl.0, sl.1, hl, seam_count)
}

/// On an image whose pixels are all zero, every accumulated cost is zero.
pub proof fn lemma_black_image_costs_zero(img: &ColorImage)
    requires
        img.wf(),
        forall|x: int, y: int|
            img.in_bounds(x, y) ==> img.pixel_at(x, y) == (Pixel { r: 0, g: 0, b: 0 }),
    ensures
        forall|i: int|
            0 <= i < img.width * img.height ==> #[trigger] acc_result(
                estimate_spec(img),
                img.width as int,
                img.height as int,
            ).1[i] == 0,
{
    let w = img.width as int;
    let h = img.height as int;
    let ge = estimate_spec(img);
    assert(ge.len() == w * h);
    assert forall|i: int| 0 <= i < ge.len() implies (#[trigger] ge[i]).energy == 0
        && !ge[i].claimed by {
        lemma_black_gradient_zero(img, i % w, i / w);
    }
    if w >= 1 && h >= 1 {
        lemma_zero_grid_costs(ge, w, h, acc_steps(w, h));
    } else {
        assert(w * h <= 0) by (nonlinear_arith)
            requires
                w <= 0 || h <= 0,
                w >= 0,
                h >= 0,
        ;
    }
}

impl ColorImage {
    /// A fresh copy of the image, to serve as the output canvas.
    pub fn duplicate(&self) -> (c: ColorImage)
        requires
            self.wf(),
        ensures
            c.wf(),
            c.width == self.width,
            c.height == self.height,
            c.pixels@ == self.pixels@,
    {
        let mut pixels: Vec<Pixel> = Vec::new();
        let n = self.pixels.len();
        let mut i: usize = 0;
        while i < n
            invariant
                n == self.pixels@.len(),
                i <= n,
                pixels@.len() == i,
                forall|j: int| 0 <= j < i ==> #[trigger] pixels@[j] == self.pixels@[j],
            decreases n - i,
        {
            let p = self.pixels[i];
            pixels.push(p);
            i += 1;
        }
        proof {
            assert(pixels@ =~= self.pixels@);
        }
        ColorImage { width: self.width, height: self.height, pixels }
    }
}

/// Runs the whole pipeline on one image: returns the canvas with every traced
/// seam drawn in the highlight color, and the column path of each seam slot
/// (empty for a slot that stayed unclaimed).
pub fn mark_seams(img: &ColorImage, seam_count: usize, hl: Pixel) -> (out: (
    ColorImage,
    Vec<Vec<usize>>,
))
    requires
        img.wf(),
        img.width >= 1,
        img.height >= 1,
    ensures
        out.0.wf(),
        out.0.width == img.width,
        out.0.height == img.height,
        out.0.pixels@ == marked_image_spec(img, seam_count as nat, hl).1,
        out.1@.len() == seam_count,
{
    let mut grad = estimate(img);
    let mut cost = accumulate(&mut grad);
    proof {
        let acc = acc_result(estimate_spec(img), img.width as int, img.height as int);
        assert forall|i: int| 0 <= i < cost.cells@.len() implies #[trigger] cost.cells@[i]
            == seq_to_i32(acc.1)[i] by {
            assert(cost.cells@[i] as int == acc.1[i]);
        }
        assert(cost.cells@ =~= seq_to_i32(acc.1));
    }
    let slots = select_seams(&cost, seam_count);
    let mut canvas = img.duplicate();
    let paths = trace_seams(&mut cost, &grad, &mut canvas, &slots, hl);
    (canvas, paths)
}

} // verus!

//! Cost accumulator: sweeps the gradient grid bottom-to-top, producing the
//! cumulative-cost grid and claiming the gradient cell chosen at every step so
//! that later rows are biased away from already-used neighbors.

use vstd::prelude::*;

use crate::grid::{
    ABSENT_COST, CLAIMED_ENERGY, CostGrid, GradCell, GradientGrid, SEAM_MARK, energies_wf,
    grad_read, grid_index, lemma_grid_index,
};

verus! {

use vstd::pervasive::VecAdditionalExecFns;

/// Direction of the neighbor chosen in the row below.
#[derive(Clone, Copy, PartialEq, Eq, Structural, Debug)]
pub enum Dir {
    Left,
    Center,
    Right,
}

/// The fixed tie-break among the three neighbor costs: left only when strictly
/// below both others, else right only when strictly below both others, else
/// center.
pub open spec fn pick_dir(l: int, c: int, r: int) -> Dir {
    if l < r && l < c {
        Dir::Left
    } else if r < l && r < c {
        Dir::Right
    } else {
        Dir::Center
    }
}

/// Column that the chosen direction steps to from column `x`.
pub open spec fn step_target(d: Dir, x: int) -> int {
    match d {
        Dir::Left => x - 1,
        Dir::Center => x,
        Dir::Right => x + 1,
    }
}

/// The tie-break rule, executable.
pub fn pick_neighbor(l: i32, c: i32, r: i32) -> (d: Dir)
    ensures
        d == pick_dir(l as int, c as int, r as int),
{
    if l < r && l < c {
        Dir::Left
    } else if r < l && r < c {
        Dir::Right
    } else {
        Dir::Center
    }
}

/// The gradient cells with the cell at `(x, y)` claimed; unchanged when the
/// coordinate lies outside the grid.
pub open spec fn claim_cell(g: Seq<GradCell>, w: int, h: int, x: int, y: int) -> Seq<GradCell> {
    if 0 <= x < w && 0 <= y < h {
        g.update(
            grid_index(w, x, y),
            GradCell { energy: g[grid_index(w, x, y)].energy, claimed: true },
        )
    } else {
        g
    }
}

/// One relaxation step at `(x, y)`: read the cell's own cost and its three
/// neighbors in the row below, claim the chosen neighbor, and store the sum.
pub open spec fn acc_step(g: Seq<GradCell>, c: Seq<int>, w: int, h: int, x: int, y: int) -> (
    Seq<GradCell>,
    Seq<int>,
) {
    let cur = grad_read(g, w, h, x, y);
    let l = grad_read(g, w, h, x - 1, y + 1);
    let ce = grad_read(g, w, h, x, y + 1);
    let r = grad_read(g, w, h, x + 1, y + 1);
    let d = pick_dir(l, ce, r);
    let chosen = match d {
        Dir::Left => l,
        Dir::Center => ce,
        Dir::Right => r,
    };
    (
        claim_cell(g, w, h, step_target(d, x), y + 1),
        c.update(grid_index(w, x, y), cur + chosen),
    )
}

/// Costs before any relaxation: the bottom row seeded from the gradient
/// energies, zero everywhere else.
pub open spec fn seed_costs(g: Seq<GradCell>, w: int, h: int) -> Seq<int> {
    Seq::new(
        (w * h) as nat,
        |i: int|
            if i >= (h - 1) * w {
                g[i].energy as int
            } else {
                0
            },
    )
}

/// Number of relaxation steps: one per cell of every row above the bottom.
pub open spec fn acc_steps(w: int, h: int) -> nat {
    if h >= 1 {
        ((h - 1) * w) as nat
    } else {
        0
    }
}

/// Coordinates of relaxation step `t`: rows run from `h - 2` down to `0`,
/// columns left to right within a row.
pub open spec fn step_x(w: int, t: int) -> int {
    t % w
}

pub open spec fn step_y(w: int, h: int, t: int) -> int {
    h - 2 - t / w
}

/// The grid pair after the first `t` relaxation steps.
pub open spec fn acc_state(g0: Seq<GradCell>, w: int, h: int, t: nat) -> (Seq<GradCell>, Seq<int>)
    decreases t,
{
    if t == 0 {
        (g0, seed_costs(g0, w, h))
    } else {
        let prev = acc_state(g0, w, h, (t - 1) as nat);
        acc_step(prev.0, prev.1, w, h, step_x(w, t - 1), step_y(w, h, t - 1))
    }
}

/// The grids the accumulator leaves behind.
pub open spec fn acc_result(g0: Seq<GradCell>, w: int, h: int) -> (Seq<GradCell>, Seq<int>) {
    acc_state(g0, w, h, acc_steps(w, h))
}

/// The 32-bit cost vector `v` realises the mathematical costs `s`.
pub open spec fn costs_match(v: Seq<i32>, s: Seq<int>) -> bool {
    v.len() == s.len() && forall|i: int| 0 <= i < v.len() ==> #[trigger] v[i] as int == s[i]
}

/// Step `t < acc_steps` happens at an in-bounds cell of a row above the
/// bottom.
proof fn lemma_step_coords(w: int, h: int, t: int)
    requires
        h >= 1,
        w >= 0,
        0 <= t < acc_steps(w, h),
    ensures
        w >= 1,
        0 <= step_x(w, t) < w,
        0 <= step_y(w, h, t) <= h - 2,
{
    assert(w >= 1) by (nonlinear_arith)
        requires
            0 <= t < (h - 1) * w,
            w >= 0,
    ;
    vstd::arithmetic::div_mod::lemma_mod_bound(t, w);
    vstd::arithmetic::div_mod::lemma_fundamental_div_mod(t, w);
    assert(0 <= t / w) by (nonlinear_arith)
        requires
            t == w * (t / w) + t % w,
            0 <= t % w < w,
            0 <= t,
            w >= 1,
    ;
    assert(t < w * (h - 1)) by (nonlinear_arith)
        requires
            t < (h - 1) * w,
    ;
    vstd::arithmetic::div_mod::lemma_multiply_divide_lt(t, w, h - 1);
}

/// Through every relaxation step the grids keep their size, claiming never
/// changes a cell's stored energy, every cost lies in
/// `[0, 2 * CLAIMED_ENERGY]`, and the bottom cost row stays exactly the seeded
/// gradient energies.
pub proof fn lemma_acc_state_wf(g0: Seq<GradCell>, w: int, h: int, t: nat)
    requires
        g0.len() == w * h,
        energies_wf(g0),
        w >= 0,
        h >= 1,
        t <= acc_steps(w, h),
    ensures
        acc_state(g0, w, h, t).0.len() == w * h,
        acc_state(g0, w, h, t).1.len() == w * h,
        forall|i: int|
            0 <= i < w * h ==> (#[trigger] acc_state(g0, w, h, t).0[i]).energy == g0[i].energy,
        forall|i: int| 0 <= i < w * h ==> 0 <= #[trigger] acc_state(g0, w, h, t).1[i] <= 2
            * CLAIMED_ENERGY,
        forall|x: int|
            0 <= x < w ==> #[trigger] acc_state(g0, w, h, t).1[grid_index(w, x, h - 1)] == g0[
                grid_index(w, x, h - 1)].energy as int,
    decreases t,
{
    if t == 0 {
        assert forall|x: int| 0 <= x < w implies #[trigger] seed_costs(g0, w, h)[grid_index(
            w,
            x,
            h - 1,
        )] == g0[grid_index(w, x, h - 1)].energy as int by {
            lemma_grid_index(w, h, x, h - 1);
        }
        assert forall|i: int| 0 <= i < w * h implies 0 <= #[trigger] seed_costs(g0, w, h)[i] <= 2
            * CLAIMED_ENERGY by {}
    } else {
        lemma_acc_state_wf(g0, w, h, (t - 1) as nat);
        lemma_step_coords(w, h, t - 1);
        let prev = acc_state(g0, w, h, (t - 1) as nat);
        let x = step_x(w, t - 1);
        let y = step_y(w, h, t - 1);
        lemma_grid_index(w, h, x, y);
        let cur = grad_read(prev.0, w, h, x, y);
        let l = grad_read(prev.0, w, h, x - 1, y + 1);
        let ce = grad_read(prev.0, w, h, x, y + 1);
        let r = grad_read(prev.0, w, h, x + 1, y + 1);
        lemma_grid_index(w, h, x, y + 1);
        if x - 1 >= 0 {
            lemma_grid_index(w, h, x - 1, y + 1);
        }
        if x + 1 < w {
            lemma_grid_index(w, h, x + 1, y + 1);
        }
        assert(0 <= cur <= CLAIMED_ENERGY);
        assert(0 <= ce <= CLAIMED_ENERGY);
        assert(0 <= l && 0 <= r);
        let d = pick_dir(l, ce, r);
        let chosen = match d {
            Dir::Left => l,
            Dir::Center => ce,
            Dir::Right => r,
        };
        assert(0 <= chosen <= CLAIMED_ENERGY);
        let nx = step_target(d, x);
        if 0 <= nx < w {
            lemma_grid_index(w, h, nx, y + 1);
        }
        assert forall|xx: int| 0 <= xx < w implies #[trigger] acc_state(g0, w, h, t).1[grid_index(
            w,
            xx,
            h - 1,
        )] == g0[grid_index(w, xx, h - 1)].energy as int by {
            lemma_grid_index(w, h, xx, h - 1);
            crate::grid::lemma_grid_index_row_order(w, x, y, xx, h - 1);
        }
    }
}

/// Cells that the first `t` relaxation steps have claimed, as a flat index
/// range: the processed rows below the current one in full, and the current
/// claim row up to the current column.
pub open spec fn claimed_region(w: int, h: int, t: int, i: int) -> bool {
    let b = (h - 1 - t / w) * w;
    (b <= i < b + t % w) || (b + w <= i < w * h)
}

/// On a gradient grid of all-zero, unclaimed energies, every relaxation step
/// picks the center neighbor and writes cost zero: the cost grid stays all
/// zero, and exactly the center cells get claimed.
pub proof fn lemma_zero_grid_costs(g0: Seq<GradCell>, w: int, h: int, t: nat)
    requires
        g0.len() == w * h,
        w >= 1,
        h >= 1,
        forall|i: int| 0 <= i < g0.len() ==> (#[trigger] g0[i]).energy == 0 && !g0[i].claimed,
        t <= acc_steps(w, h),
    ensures
        acc_state(g0, w, h, t).0.len() == w * h,
        acc_state(g0, w, h, t).1.len() == w * h,
        forall|i: int| 0 <= i < w * h ==> #[trigger] acc_state(g0, w, h, t).1[i] == 0,
        forall|i: int|
            0 <= i < w * h ==> ((#[trigger] acc_state(g0, w, h, t).0[i]).claimed <==> claimed_region(
                w,
                h,
                t as int,
                i,
            )),
    decreases t,
{
    lemma_acc_state_wf(g0, w, h, t);
    if t == 0 {
        assert(0int / w == 0 && 0int % w == 0) by (nonlinear_arith)
            requires
                w >= 1,
        ;
        assert forall|i: int| 0 <= i < w * h implies #[trigger] acc_state(g0, w, h, 0).1[i]
            == 0 by {
            assert(seed_costs(g0, w, h)[i] == if i >= (h - 1) * w {
                g0[i].energy as int
            } else {
                0
            });
        }
        assert forall|i: int| 0 <= i < w * h implies ((#[trigger] acc_state(g0, w, h, 0).0[
        i]).claimed <==> claimed_region(w, h, 0, i)) by {
            assert((h - 1 - 0int / w) * w + w == h * w && h * w == w * h) by (nonlinear_arith)
                requires
                    w >= 1,
                    0int / w == 0,
            ;
        }
    } else {
        lemma_zero_grid_costs(g0, w, h, (t - 1) as nat);
        lemma_acc_state_wf(g0, w, h, (t - 1) as nat);
        lemma_step_coords(w, h, t - 1);
        vstd::arithmetic::div_mod::lemma_fundamental_div_mod(t - 1, w);
        let prev = acc_state(g0, w, h, (t - 1) as nat);
        let x = step_x(w, t - 1);
        let y = step_y(w, h, t - 1);
        let row = (t - 1) / w;
        let b = (h - 1 - row) * w;
        assert(y == h - 2 - row && x == (t - 1) % w);
        assert(b + w <= w * h && 0 <= b) by (nonlinear_arith)
            requires
                b == (h - 1 - row) * w,
                0 <= row <= h - 2,
                w >= 1,
        ;
        lemma_grid_index(w, h, x, y);
        lemma_grid_index(w, h, x, y + 1);
        assert(grid_index(w, x, y) == b - w + x && grid_index(w, x, y + 1) == b + x)
            by (nonlinear_arith)
            requires
                y == h - 2 - row,
                b == (h - 1 - row) * w,
        ;
        let cur = grad_read(prev.0, w, h, x, y);
        let l = grad_read(prev.0, w, h, x - 1, y + 1);
        let ce = grad_read(prev.0, w, h, x, y + 1);
        let r = grad_read(prev.0, w, h, x + 1, y + 1);
        assert(!claimed_region(w, h, t - 1, b - w + x) && !claimed_region(w, h, t - 1, b + x));
        assert(cur == 0 && ce == 0);
        if x - 1 >= 0 {
            lemma_grid_index(w, h, x - 1, y + 1);
            assert(grid_index(w, x - 1, y + 1) == b + x - 1);
            if x - 1 < (t - 1) % w {
                assert(claimed_region(w, h, t - 1, b + x - 1));
                assert(l == CLAIMED_ENERGY as int);
            }
            assert(l > 0);
        } else {
            assert(l == ABSENT_COST as int);
        }
        if x + 1 < w {
            lemma_grid_index(w, h, x + 1, y + 1);
            assert(grid_index(w, x + 1, y + 1) == b + x + 1);
            assert(!claimed_region(w, h, t - 1, b + x + 1));
            assert(r == 0);
        } else {
            assert(r == ABSENT_COST as int);
        }
        assert(pick_dir(l, ce, r) == Dir::Center);
        assert(acc_state(g0, w, h, t).1 == prev.1.update(grid_index(w, x, y), 0int));
        assert(acc_state(g0, w, h, t).0 == claim_cell(prev.0, w, h, x, y + 1));
        assert forall|i: int| 0 <= i < w * h implies ((#[trigger] acc_state(g0, w, h, t).0[
        i]).claimed <==> claimed_region(w, h, t as int, i)) by {
            if x + 1 < w {
                assert(t as int == row * w + (x + 1)) by (nonlinear_arith)
                    requires
                        t - 1 == w * row + x,
                ;
                vstd::arithmetic::div_mod::lemma_fundamental_div_mod_converse(
                    t as int,
                    w,
                    row,
                    x + 1,
                );
            } else {
                assert(t as int == (row + 1) * w + 0) by (nonlinear_arith)
                    requires
                        t - 1 == w * row + x,
                        x == w - 1,
                ;
                vstd::arithmetic::div_mod::lemma_fundamental_div_mod_converse(
                    t as int,
                    w,
                    row + 1,
                    0,
                );
                assert((h - 1 - (row + 1)) * w == b - w) by (nonlinear_arith)
                    requires
                        b == (h - 1 - row) * w,
                ;
            }
        }
    }
}

/// Reads the relaxation cost of the gradient cell at an offset from `(x, y)`,
/// with the claimed and out-of-bounds substitutions.
fn grad_cost_at(
    cells: &Vec<GradCell>,
    w: usize,
    h: usize,
    x: usize,
    y: usize,
    dx: i8,
    dy: i8,
) -> (v: i32)
    requires
        cells@.len() == w * h,
        x < w,
        y < h,
        -1 <= dx <= 1,
        0 <= dy <= 1,
    ensures
        v as int == grad_read(cells@, w as int, h as int, x as int + dx as int, y as int + dy as int),
{
    let ok_x: bool = if dx < 0 {
        x >= 1
    } else if dx > 0 {
        x + 1 < w
    } else {
        true
    };
    let ok_y: bool = if dy > 0 {
        y + 1 < h
    } else {
        true
    };
    if ok_x && ok_y {
        let xx = if dx < 0 {
            x - 1
        } else if dx > 0 {
            x + 1
        } else {
            x
        };
        let yy = if dy > 0 {
            y + 1
        } else {
            y
        };
        proof {
            assert(cells@.len() == cells.len());
            lemma_grid_index(w as int, h as int, xx as int, yy as int);
        }
        let cell = cells[yy * w + xx];
        if cell.claimed {
            CLAIMED_ENERGY
        } else {
            cell.energy as i32
        }
    } else {
        ABSENT_COST
    }
}

/// Claims the gradient cell at `(x, y)`: its energy stays, only the flag
/// changes.
fn claim_at(cells: &mut Vec<GradCell>, w: usize, h: usize, x: usize, y: usize)
    requires
        old(cells)@.len() == w * h,
        x < w,
        y < h,
    ensures
        final(cells)@ == claim_cell(old(cells)@, w as int, h as int, x as int, y as int),
{
    proof {
        assert(cells@.len() == cells.len());
        lemma_grid_index(w as int, h as int, x as int, y as int);
    }
    let idx = y * w + x;
    let e = cells[idx].energy;
    cells.set(idx, GradCell { energy: e, claimed: true });
}

/// Cost accumulator: seeds the bottom cost row from the gradient energies,
/// then relaxes every higher row bottom-to-top, left-to-right, claiming the
/// chosen neighbor of the row below as a side effect on the gradient grid.
pub fn accumulate(grad: &mut GradientGrid) -> (cost: CostGrid)
    requires
        old(grad).wf(),
        old(grad).height >= 1,
    ensures
        final(grad).wf(),
        final(grad).width == old(grad).width,
        final(grad).height == old(grad).height,
        cost.wf(),
        cost.width == old(grad).width,
        cost.height == old(grad).height,
        final(grad).cells@ == acc_result(
            old(grad).cells@,
            old(grad).width as int,
            old(grad).height as int,
        ).0,
        costs_match(
            cost.cells@,
            acc_result(old(grad).cells@, old(grad).width as int, old(grad).height as int).1,
        ),
        forall|x: int|
            0 <= x < old(grad).width ==> #[trigger] cost.cost_at(x, old(grad).height as int - 1)
                == old(grad).cell_at(x, old(grad).height as int - 1).energy as int,
{
    let w = grad.width;
    let h = grad.height;
    let g0: Ghost<Seq<GradCell>> = Ghost(grad.cells@);
    let total = w * h;
    proof {
        assert((h - 1) * w + w == h * w && h * w == w * h) by (nonlinear_arith)
            requires
                h >= 1,
        ;
    }
    let bottom_start = (h - 1) * w;
    let mut cvec: Vec<i32> = Vec::new();
    let mut i: usize = 0;
    while i < total
        invariant
            grad.cells@ == g0@,
            g0@.len() == w * h,
            energies_wf(g0@),
            total == w * h,
            h >= 1,
            bottom_start == (h - 1) * w,
            i <= total,
            cvec@.len() == i,
            forall|j: int|
                0 <= j < i ==> #[trigger] cvec@[j] as int == seed_costs(g0@, w as int, h as int)[j],
        decreases total - i,
    {
        if i >= bottom_start {
            let e = grad.cells[i].energy;
            cvec.push(e as i32);
        } else {
            cvec.push(0);
        }
        i += 1;
    }
    let mut row: usize = 0;
    while row < h - 1
        invariant
            w == grad.width,
            h == grad.height,
            h >= 1,
            row <= h - 1,
            g0@.len() == w * h,
            energies_wf(g0@),
            total == w * h,
            cvec@.len() == total,
            row * w <= acc_steps(w as int, h as int),
            grad.cells@ == acc_state(g0@, w as int, h as int, (row * w) as nat).0,
            costs_match(cvec@, acc_state(g0@, w as int, h as int, (row * w) as nat).1),
        decreases h - 1 - row,
    {
        let y = h - 2 - row;
        proof {
            assert(row * w + w <= (h - 1) * w) by (nonlinear_arith)
                requires
                    row + 1 <= h - 1,
                    w >= 0,
            ;
        }
        let mut x: usize = 0;
        while x < w
            invariant
                w == grad.width,
                h == grad.height,
                h >= 2,
                row < h - 1,
                y == h - 2 - row,
                x <= w,
                g0@.len() == w * h,
                energies_wf(g0@),
                total == w * h,
                cvec@.len() == total,
                row * w + x <= acc_steps(w as int, h as int),
                row * w + w <= acc_steps(w as int, h as int),
                grad.cells@ == acc_state(g0@, w as int, h as int, (row * w + x) as nat).0,
                costs_match(cvec@, acc_state(g0@, w as int, h as int, (row * w + x) as nat).1),
            decreases w - x,
        {
            let t: Ghost<nat> = Ghost((row * w + x) as nat);
            proof {
                lemma_acc_state_wf(g0@, w as int, h as int, t@);
                vstd::arithmetic::div_mod::lemma_fundamental_div_mod_converse(
                    t@ as int,
                    w as int,
                    row as int,
                    x as int,
                );
                assert(step_x(w as int, t@ as int) == x as int);
                assert(step_y(w as int, h as int, t@ as int) == y as int);
            }
            let cur = grad_cost_at(&grad.cells, w, h, x, y, 0, 0);
            let l = grad_cost_at(&grad.cells, w, h, x, y, -1, 1);
            let ce = grad_cost_at(&grad.cells, w, h, x, y, 0, 1);
            let r = grad_cost_at(&grad.cells, w, h, x, y, 1, 1);
            proof {
                lemma_grid_index(w as int, h as int, x as int, y as int);
                lemma_grid_index(w as int, h as int, x as int, y as int + 1);
                assert(0 <= cur <= CLAIMED_ENERGY);
                assert(0 <= ce <= CLAIMED_ENERGY);
            }
            let idx = y * w + x;
            if l < r && l < ce {
                proof {
                    assert(x >= 1);
                }
                claim_at(&mut grad.cells, w, h, x - 1, y + 1);
                cvec.set(idx, cur + l);
            } else if r < l && r < ce {
                proof {
                    assert(x as int + 1 < w);
                }
                claim_at(&mut grad.cells, w, h, x + 1, y + 1);
                cvec.set(idx, cur + r);
            } else {
                claim_at(&mut grad.cells, w, h, x, y + 1);
                cvec.set(idx, cur + ce);
            }
            proof {
                let prev = acc_state(g0@, w as int, h as int, t@);
                let next = acc_state(g0@, w as int, h as int, t@ + 1);
                assert(next == acc_step(prev.0, prev.1, w as int, h as int, x as int, y as int));
                assert(grad.cells@ == next.0);
                assert forall|j: int| 0 <= j < cvec@.len() implies #[trigger] cvec@[j] as int
                    == next.1[j] by {}
                assert(costs_match(cvec@, next.1));
            }
            x += 1;
        }
        row += 1;
        proof {
            assert((row - 1) * w + w == row * w) by (nonlinear_arith)
                requires
                    row >= 1,
            ;
        }
    }
    proof {
        assert(row * w == (h - 1) * w);
        lemma_acc_state_wf(g0@, w as int, h as int, acc_steps(w as int, h as int));
    }
    let cost = CostGrid { width: w, height: h, cells: cvec };
    proof {
        let fin = acc_state(g0@, w as int, h as int, acc_steps(w as int, h as int));
        assert forall|i2: int| 0 <= i2 < cost.cells@.len() implies 0 <= #[trigger] cost.cells@[i2]
            <= SEAM_MARK by {
            assert(cost.cells@[i2] as int == fin.1[i2]);
            assert(0 <= fin.1[i2] <= 2 * CLAIMED_ENERGY);
        }
        assert forall|i2: int| 0 <= i2 < grad.cells@.len() implies 0 <= (
        #[trigger] grad.cells@[i2]).energy <= 255 by {
            assert(grad.cells@[i2].energy == g0@[i2].energy);
        }
        assert forall|x: int| 0 <= x < w implies #[trigger] cost.cost_at(x, h as int - 1) == g0@[
            grid_index(w as int, x, h as int - 1)].energy as int by {
            lemma_grid_index(w as int, h as int, x, h as int - 1);
            assert(cost.cells@[grid_index(w as int, x, h as int - 1)] as int == fin.1[grid_index(
                w as int,
                x,
                h as int - 1,
            )]);
        }
    }
    cost
}

} // verus!

//! Seam selector and tracer: picks the cheapest seam origins in the top cost
//! row by first-fit insertion, then walks each seam top to bottom, re-steering
//! by cost residuals, drawing the seam onto the canvas and marking the cost
//! grid behind it.

use vstd::prelude::*;

use crate::cost::{pick_dir, step_target};
use crate::grid::{
    ABSENT_COST, CLAIMED_ENERGY, ColorImage, CostGrid, GradCell, GradientGrid, Pixel, SEAM_MARK,
    cost_read, grad_read, grid_index, lemma_grid_index,
};

verus! {

use vstd::pervasive::VecAdditionalExecFns;

/// The selected seam origins: slot `i` holds the top-row cost it claimed and
/// the column it starts in. A slot still at `ABSENT_COST` was never claimed.
pub struct SeamSlots {
    pub values: Vec<i32>,
    pub columns: Vec<usize>,
}

/// A slot is either still unclaimed or holds a genuine top-row cost together
/// with an in-grid column.
pub open spec fn slot_ok(v: i32, c: usize, w: int) -> bool {
    v == ABSENT_COST || (0 <= v <= SEAM_MARK && 0 <= c < w)
}

/// Every claimed slot holds a genuine top-row cost and an in-grid column.
pub open spec fn slots_wf(vals: Seq<i32>, cols: Seq<usize>, w: int) -> bool {
    &&& vals.len() == cols.len()
    &&& forall|i: int| 0 <= i < vals.len() ==> slot_ok(#[trigger] vals[i], #[trigger] cols[i], w)
}

/// First-fit insertion of column `x` with cost `v`, scanning slots from `i`
/// upward: the first slot whose value is strictly greater takes the pair.
pub open spec fn slot_insert(vals: Seq<i32>, cols: Seq<usize>, v: i32, x: usize, i: nat) -> (
    Seq<i32>,
    Seq<usize>,
)
    decreases vals.len() - i,
{
    if i >= vals.len() {
        (vals, cols)
    } else if v < vals[i as int] {
        (vals.update(i as int, v), cols.update(i as int, x))
    } else {
        slot_insert(vals, cols, v, x, (i + 1) as nat)
    }
}

/// Slot state after scanning the first `t` columns of the top cost row.
pub open spec fn select_state(top: Seq<i32>, k: nat, t: nat) -> (Seq<i32>, Seq<usize>)
    decreases t,
{
    if t == 0 {
        (Seq::new(k, |i: int| ABSENT_COST), Seq::new(k, |i: int| 0usize))
    } else {
        let prev = select_state(top, k, (t - 1) as nat);
        slot_insert(prev.0, prev.1, top[t - 1], (t - 1) as usize, 0)
    }
}

/// The top row of a cost grid.
pub open spec fn top_row(c: Seq<i32>, w: int) -> Seq<i32> {
    c.subrange(0, w)
}

/// When slots `i..j` refuse `v` and slot `j` accepts it, first-fit from `i`
/// updates exactly slot `j`.
proof fn lemma_slot_insert_found(
    vals: Seq<i32>,
    cols: Seq<usize>,
    v: i32,
    x: usize,
    i: nat,
    j: nat,
)
    requires
        i <= j < vals.len(),
        forall|m: int| i <= m < j ==> !(v < #[trigger] vals[m]),
        v < vals[j as int],
    ensures
        slot_insert(vals, cols, v, x, i) == (vals.update(j as int, v), cols.update(j as int, x)),
    decreases j - i,
{
    if i < j {
        lemma_slot_insert_found(vals, cols, v, x, (i + 1) as nat, j);
    }
}

/// When every slot from `i` on refuses `v`, first-fit changes nothing.
proof fn lemma_slot_insert_none(vals: Seq<i32>, cols: Seq<usize>, v: i32, x: usize, i: nat)
    requires
        forall|m: int| i <= m < vals.len() ==> !(v < #[trigger] vals[m]),
    ensures
        slot_insert(vals, cols, v, x, i) == (vals, cols),
    decreases vals.len() - i,
{
    if i < vals.len() {
        lemma_slot_insert_none(vals, cols, v, x, (i + 1) as nat);
    }
}

/// First-fit insertion keeps every slot either unclaimed or holding a genuine
/// top-row cost and an in-grid column.
proof fn lemma_slot_insert_wf(vals: Seq<i32>, cols: Seq<usize>, v: i32, x: usize, i: nat, w: int)
    requires
        slots_wf(vals, cols, w),
        0 <= v <= SEAM_MARK,
        0 <= x < w,
    ensures
        slot_insert(vals, cols, v, x, i).0.len() == vals.len(),
        slot_insert(vals, cols, v, x, i).1.len() == cols.len(),
        slots_wf(slot_insert(vals, cols, v, x, i).0, slot_insert(vals, cols, v, x, i).1, w),
    decreases vals.len() - i,
{
    if i >= vals.len() {
    } else if v < vals[i as int] {
        let nv = vals.update(i as int, v);
        let nc = cols.update(i as int, x);
        assert forall|m: int| 0 <= m < nv.len() implies slot_ok(
            #[trigger] nv[m],
            #[trigger] nc[m],
            w,
        ) by {
            if m != i {
                assert(nv[m] == vals[m] && nc[m] == cols[m]);
                assert(slot_ok(vals[m], cols[m], w));
            }
        }
        assert(slot_insert(vals, cols, v, x, i) == (nv, nc));
        assert(slots_wf(nv, nc, w));
    } else {
        lemma_slot_insert_wf(vals, cols, v, x, (i + 1) as nat, w);
    }
}

/// Every slot state the selector passes through is well formed.
proof fn lemma_select_state_wf(top: Seq<i32>, k: nat, t: nat, w: int)
    requires
        t <= top.len(),
        top.len() == w,
        forall|j: int| 0 <= j < top.len() ==> 0 <= #[trigger] top[j] <= SEAM_MARK,
    ensures
        select_state(top, k, t).0.len() == k,
        select_state(top, k, t).1.len() == k,
        slots_wf(select_state(top, k, t).0, select_state(top, k, t).1, w),
    decreases t,
{
    if t == 0 {
        assert forall|m: int| 0 <= m < k implies slot_ok(
            #[trigger] select_state(top, k, 0).0[m],
            #[trigger] select_state(top, k, 0).1[m],
            w,
        ) by {
            assert(select_state(top, k, 0).0[m] == ABSENT_COST);
        }
    } else {
        lemma_select_state_wf(top, k, (t - 1) as nat, w);
        let prev = select_state(top, k, (t - 1) as nat);
        lemma_slot_insert_wf(prev.0, prev.1, top[t - 1], (t - 1) as usize, 0, w);
    }
}

/// Seam selector: scans the top cost row left to right; each column claims the
/// first slot whose held value it strictly beats. This is a first-fit scan,
/// not a sorted top-k selection.
pub fn select_seams(cost: &CostGrid, seam_count: usize) -> (slots: SeamSlots)
    requires
        cost.wf(),
        cost.width == 0 || cost.height >= 1,
    ensures
        slots.values@.len() == seam_count,
        slots.columns@.len() == seam_count,
        (slots.values@, slots.columns@) == select_state(
            top_row(cost.cells@, cost.width as int),
            seam_count as nat,
            cost.width as nat,
        ),
        slots_wf(slots.values@, slots.columns@, cost.width as int),
{
    let w = cost.width;
    let k = seam_count;
    let ghost top = top_row(cost.cells@, cost.width as int);
    proof {
        if w > 0 {
            assert(w * 1 <= w * cost.height && w * 1 == w) by (nonlinear_arith)
                requires
                    cost.height >= 1,
                    w >= 0,
            ;
            assert(w <= cost.cells@.len());
        }
        assert(top.len() == w);
    }
    let mut values: Vec<i32> = Vec::new();
    let mut columns: Vec<usize> = Vec::new();
    let mut i: usize = 0;
    while i < k
        invariant
            i <= k,
            values@.len() == i,
            columns@.len() == i,
            forall|j: int| 0 <= j < i ==> #[trigger] values@[j] == ABSENT_COST,
            forall|j: int| 0 <= j < i ==> #[trigger] columns@[j] == 0usize,
        decreases k - i,
    {
        values.push(ABSENT_COST);
        columns.push(0);
        i += 1;
    }
    proof {
        assert(values@ =~= select_state(top, k as nat, 0).0);
        assert(columns@ =~= select_state(top, k as nat, 0).1);
    }
    let mut x: usize = 0;
    while x < w
        invariant
            cost.wf(),
            w == cost.width,
            w == 0 || cost.height >= 1,
            w <= cost.cells@.len(),
            top == top_row(cost.cells@, cost.width as int),
            top.len() == w,
            x <= w,
            values@.len() == k,
            columns@.len() == k,
            values@ == select_state(top, k as nat, x as nat).0,
            columns@ == select_state(top, k as nat, x as nat).1,
        decreases w - x,
    {
        let v = cost.cells[x];
        proof {
            assert(v == top[x as int]);
            assert(0 <= v <= SEAM_MARK);
        }
        let ghost old_vals = values@;
        let ghost old_cols = columns@;
        let mut i: usize = 0;
        while i < k && !(v < values[i])
            invariant
                k == values@.len(),
                i <= k,
                values@ == old_vals,
                forall|m: int| 0 <= m < i ==> !(v < #[trigger] values@[m]),
            decreases k - i,
        {
            i += 1;
        }
        if i < k {
            values.set(i, v);
            columns.set(i, x);
            proof {
                lemma_slot_insert_found(old_vals, old_cols, v, x, 0, i as nat);
            }
        } else {
            proof {
                lemma_slot_insert_none(old_vals, old_cols, v, x, 0);
            }
        }
        proof {
            assert(select_state(top, k as nat, x as nat + 1) == slot_insert(
                old_vals,
                old_cols,
                top[x as int],
                x,
                0,
            ));
            assert(values@ == select_state(top, k as nat, x as nat + 1).0);
            assert(columns@ == select_state(top, k as nat, x as nat + 1).1);
        }
        x += 1;
    }
    proof {
        assert forall|j: int| 0 <= j < top.len() implies 0 <= #[trigger] top[j] <= SEAM_MARK by {
            assert(top[j] == cost.cells@[j]);
        }
        lemma_select_state_wf(top, k as nat, w as nat, w as int);
    }
    SeamSlots { values, columns }
}

/// Absolute value.
pub open spec fn abs_val(a: int) -> int {
    if a < 0 {
        -a
    } else {
        a
    }
}

/// Residual of stepping toward the neighbor whose cost below reads `nbr`:
/// how far the recorded cost delta is from the cell's own gradient.
pub open spec fn resid(nbr: int, base: int, g: int) -> int {
    abs_val(abs_val(nbr - base) - g)
}

/// One traced row at column `col`, row `y`: the canvas pixel is marked, the
/// tie-break re-steers among the three residuals, and the cost cell at the new
/// column is overwritten with `SEAM_MARK`.
pub open spec fn trace_step(
    c: Seq<i32>,
    img: Seq<Pixel>,
    gr: Seq<GradCell>,
    w: int,
    h: int,
    col: int,
    y: int,
    hl: Pixel,
) -> (Seq<i32>, Seq<Pixel>, int) {
    let img2 = img.update(grid_index(w, col, y), hl);
    let base = cost_read(c, w, h, col, y);
    let gv = grad_read(gr, w, h, col, y);
    let rc = resid(cost_read(c, w, h, col, y + 1), base, gv);
    let rl = resid(cost_read(c, w, h, col - 1, y + 1), base, gv);
    let rr = resid(cost_read(c, w, h, col + 1, y + 1), base, gv);
    let col2 = step_target(pick_dir(rl, rc, rr), col);
    (c.update(grid_index(w, col2, y), SEAM_MARK), img2, col2)
}

/// State after tracing the first `t` rows of one seam that starts at `col`.
pub open spec fn trace_rows(
    c: Seq<i32>,
    img: Seq<Pixel>,
    gr: Seq<GradCell>,
    w: int,
    h: int,
    col: int,
    hl: Pixel,
    t: nat,
) -> (Seq<i32>, Seq<Pixel>, int)
    decreases t,
{
    if t == 0 {
        (c, img, col)
    } else {
        let prev = trace_rows(c, img, gr, w, h, col, hl, (t - 1) as nat);
        trace_step(prev.0, prev.1, gr, w, h, prev.2, t - 1, hl)
    }
}

/// State after tracing the first `k` selected seams; a slot still at
/// `ABSENT_COST` is skipped, not traced.
pub open spec fn trace_all(
    c: Seq<i32>,
    img: Seq<Pixel>,
    gr: Seq<GradCell>,
    w: int,
    h: int,
    vals: Seq<i32>,
    cols: Seq<usize>,
    hl: Pixel,
    k: nat,
) -> (Seq<i32>, Seq<Pixel>)
    decreases k,
{
    if k == 0 {
        (c, img)
    } else {
        let prev = trace_all(c, img, gr, w, h, vals, cols, hl, (k - 1) as nat);
        if vals[k - 1] == ABSENT_COST {
            prev
        } else {
            let tr = trace_rows(prev.0, prev.1, gr, w, h, cols[k - 1] as int, hl, h as nat);
            (tr.0, tr.1)
        }
    }
}

/// Against a neighbor outside the grid the residual is never smaller than
/// against any in-grid or absent cost, so the trace never steps off the grid.
proof fn lemma_edge_resid(base: int, g: int, nbr: int)
    requires
        0 <= base <= SEAM_MARK,
        0 <= g <= CLAIMED_ENERGY,
        0 <= nbr <= SEAM_MARK || nbr == ABSENT_COST as int,
    ensures
        resid(ABSENT_COST as int, base, g) >= resid(nbr, base, g),
{
}

/// Reads the cost one row below `(x, y)` at a column offset, substituting
/// `ABSENT_COST` outside the grid.
fn cost_below(cells: &Vec<i32>, w: usize, h: usize, x: usize, y: usize, dx: i8) -> (v: i32)
    requires
        cells@.len() == w * h,
        x < w,
        y < h,
        -1 <= dx <= 1,
    ensures
        v as int == cost_read(cells@, w as int, h as int, x as int + dx as int, y as int + 1),
{
    let ok_x: bool = if dx < 0 {
        x >= 1
    } else if dx > 0 {
        x + 1 < w
    } else {
        true
    };
    if ok_x && y + 1 < h {
        let xx = if dx < 0 {
            x - 1
        } else if dx > 0 {
            x + 1
        } else {
            x
        };
        proof {
            assert(cells@.len() == cells.len());
            lemma_grid_index(w as int, h as int, xx as int, y as int + 1);
        }
        cells[(y + 1) * w + xx]
    } else {
        ABSENT_COST
    }
}

/// The residual, executable.
fn resid_exec(nbr: i32, base: i32, g: i32) -> (r: i32)
    requires
        0 <= base,
        0 <= g,
        0 <= nbr,
    ensures
        r as int == resid(nbr as int, base as int, g as int),
        r >= 0,
{
    let d1 = if nbr >= base {
        nbr - base
    } else {
        base - nbr
    };
    if d1 >= g {
        d1 - g
    } else {
        g - d1
    }
}

/// Seam tracer: walks each claimed slot from its top-row column downwards,
/// marking the canvas pixel of every visited cell, re-steering by the three
/// residuals, and overwriting each visited cost cell with `SEAM_MARK` so later
/// seams are discouraged from the same path. Returns one column path per slot;
/// a skipped slot yields an empty path.
pub fn trace_seams(
    cost: &mut CostGrid,
    grad: &GradientGrid,
    img: &mut ColorImage,
    slots: &SeamSlots,
    hl: Pixel,
) -> (paths: Vec<Vec<usize>>)
    requires
        old(cost).wf(),
        grad.wf(),
        old(img).wf(),
        grad.width == old(cost).width,
        grad.height == old(cost).height,
        old(img).width == old(cost).width,
        old(img).height == old(cost).height,
        slots_wf(slots.values@, slots.columns@, old(cost).width as int),
    ensures
        final(cost).wf(),
        final(img).wf(),
        final(cost).width == old(cost).width,
        final(cost).height == old(cost).height,
        final(img).width == old(img).width,
        final(img).height == old(img).height,
        ({
            let tr = trace_all(
                old(cost).cells@,
                old(img).pixels@,
                grad.cells@,
                old(cost).width as int,
                old(cost).height as int,
                slots.values@,
                slots.columns@,
                hl,
                slots.values@.len() as nat,
            );
            final(cost).cells@ == tr.0 && final(img).pixels@ == tr.1
        }),
        paths@.len() == slots.values@.len(),
        forall|i: int|
            0 <= i < paths@.len() && slots.values@[i] == ABSENT_COST ==> (#[trigger] paths@[i])@
                =~= Seq::<usize>::empty(),
        forall|i: int|
            0 <= i < paths@.len() && slots.values@[i] != ABSENT_COST ==> (#[trigger] paths@[i])@.len()
                == old(cost).height,
        forall|i: int, y: int|
            0 <= i < paths@.len() && slots.values@[i] != ABSENT_COST && 0 <= y
                < old(cost).height ==> (#[trigger] paths@[i]@[y]) as int == trace_rows(
                trace_all(
                    old(cost).cells@,
                    old(img).pixels@,
                    grad.cells@,
                    old(cost).width as int,
                    old(cost).height as int,
                    slots.values@,
                    slots.columns@,
                    hl,
                    i as nat,
                ).0,
                trace_all(
                    old(cost).cells@,
                    old(img).pixels@,
                    grad.cells@,
                    old(cost).width as int,
                    old(cost).height as int,
                    slots.values@,
                    slots.columns@,
                    hl,
                    i as nat,
                ).1,
                grad.cells@,
                old(cost).width as int,
                old(cost).height as int,
                slots.columns@[i] as int,
                hl,
                y as nat,
            ).2,
{
    let w = cost.width;
    let h = cost.height;
    let ghost c0 = cost.cells@;
    let ghost p0 = img.pixels@;
    let ghost gr = grad.cells@;
    let ghost vals = slots.values@;
    let ghost cols = slots.columns@;
    let k = slots.values.len();
    let mut paths: Vec<Vec<usize>> = Vec::new();
    let mut si: usize = 0;
    while si < k
        invariant
            cost.wf(),
            img.wf(),
            grad.wf(),
            w == cost.width,
            h == cost.height,
            grad.width == w,
            grad.height == h,
            img.width == w,
            img.height == h,
            gr == grad.cells@,
            vals == slots.values@,
            cols == slots.columns@,
            k == vals.len(),
            slots_wf(vals, cols, w as int),
            si <= k,
            cost.cells@ == trace_all(c0, p0, gr, w as int, h as int, vals, cols, hl, si as nat).0,
            img.pixels@ == trace_all(c0, p0, gr, w as int, h as int, vals, cols, hl, si as nat).1,
            paths@.len() == si,
            forall|i: int|
                0 <= i < si && vals[i] == ABSENT_COST ==> (#[trigger] paths@[i])@ =~= Seq::<
                    usize,
                >::empty(),
            forall|i: int|
                0 <= i < si && vals[i] != ABSENT_COST ==> (#[trigger] paths@[i])@.len() == h,
            forall|i: int, y: int|
                0 <= i < si && vals[i] != ABSENT_COST && 0 <= y < h ==> (#[trigger] paths@[i]@[y])
                    as int == trace_rows(
                    trace_all(c0, p0, gr, w as int, h as int, vals, cols, hl, i as nat).0,
                    trace_all(c0, p0, gr, w as int, h as int, vals, cols, hl, i as nat).1,
                    gr,
                    w as int,
                    h as int,
                    cols[i] as int,
                    hl,
                    y as nat,
                ).2,
        decreases k - si,
    {
        let ghost pre = trace_all(c0, p0, gr, w as int, h as int, vals, cols, hl, si as nat);
        let mut path: Vec<usize> = Vec::new();
        let v = slots.values[si];
        if v != ABSENT_COST {
            let mut col = slots.columns[si];
            let mut y: usize = 0;
            while y < h
                invariant
                    cost.wf(),
                    img.wf(),
                    grad.wf(),
                    w == cost.width,
                    h == cost.height,
                    grad.width == w,
                    grad.height == h,
                    img.width == w,
                    img.height == h,
                    gr == grad.cells@,
                    y <= h,
                    col < w,
                    cost.cells@ == trace_rows(pre.0, pre.1, gr, w as int, h as int, pre_col(cols, si as int), hl, y as nat).0,
                    img.pixels@ == trace_rows(pre.0, pre.1, gr, w as int, h as int, pre_col(cols, si as int), hl, y as nat).1,
                    col as int == trace_rows(pre.0, pre.1, gr, w as int, h as int, pre_col(cols, si as int), hl, y as nat).2,
                    path@.len() == y,
                    forall|yy: int|
                        0 <= yy < y ==> (#[trigger] path@[yy]) as int == trace_rows(
                            pre.0,
                            pre.1,
                            gr,
                            w as int,
                            h as int,
                            pre_col(cols, si as int),
                            hl,
                            yy as nat,
                        ).2,
                decreases h - y,
            {
                path.push(col);
                let ghost st = trace_rows(
                    pre.0,
                    pre.1,
                    gr,
                    w as int,
                    h as int,
                    pre_col(cols, si as int),
                    hl,
                    y as nat,
                );
                img.set(col, y, hl);
                let base = cost.get(col, y);
                let gv = grad_cell_cost(&grad.cells, w, h, col, y);
                let nc = cost_below(&cost.cells, w, h, col, y, 0);
                let nl = cost_below(&cost.cells, w, h, col, y, -1);
                let nr = cost_below(&cost.cells, w, h, col, y, 1);
                proof {
                    lemma_grid_index(w as int, h as int, col as int, y as int);
                    assert(base as int == cost_read(st.0, w as int, h as int, col as int, y as int));
                    assert(0 <= base <= SEAM_MARK);
                    assert(0 <= gv <= CLAIMED_ENERGY);
                    if y as int + 1 < h {
                        lemma_grid_index(w as int, h as int, col as int, y as int + 1);
                        if col >= 1 {
                            lemma_grid_index(w as int, h as int, col as int - 1, y as int + 1);
                        }
                        if col as int + 1 < w {
                            lemma_grid_index(w as int, h as int, col as int + 1, y as int + 1);
                        }
                    }
                    assert(0 <= nc && 0 <= nl && 0 <= nr);
                    if col == 0 {
                        lemma_edge_resid(base as int, gv as int, nc as int);
                    }
                    if col + 1 == w {
                        lemma_edge_resid(base as int, gv as int, nc as int);
                    }
                }
                let rc = resid_exec(nc, base, gv);
                let rl = resid_exec(nl, base, gv);
                let rr = resid_exec(nr, base, gv);
                if rl < rc && rl < rr {
                    col -= 1;
                } else if rr < rc && rr < rl {
                    col += 1;
                }
                proof {
                    lemma_grid_index(w as int, h as int, col as int, y as int);
                }
                let widx = y * w + col;
                cost.cells.set(widx, SEAM_MARK);
                proof {
                    let next = trace_step(st.0, st.1, gr, w as int, h as int, st.2, y as int, hl);
                    assert(cost.cells@ == next.0);
                    assert(img.pixels@ == next.1);
                    assert(col as int == next.2);
                    assert(trace_rows(
                        pre.0,
                        pre.1,
                        gr,
                        w as int,
                        h as int,
                        pre_col(cols, si as int),
                        hl,
                        (y + 1) as nat,
                    ) == next);
                }
                y += 1;
            }
            proof {
                assert(trace_all(c0, p0, gr, w as int, h as int, vals, cols, hl, si as nat + 1)
                    == (cost.cells@, img.pixels@));
            }
        } else {
            proof {
                assert(trace_all(c0, p0, gr, w as int, h as int, vals, cols, hl, si as nat + 1)
                    == pre);
            }
        }
        paths.push(path);
        si += 1;
    }
    paths
}

/// Column a seam slot starts in.
pub open spec fn pre_col(cols: Seq<usize>, i: int) -> int {
    cols[i] as int
}

/// Relaxation cost of the gradient cell at `(x, y)` itself.
fn grad_cell_cost(cells: &Vec<GradCell>, w: usize, h: usize, x: usize, y: usize) -> (v: i32)
    requires
        cells@.len() == w * h,
        x < w,
        y < h,
    ensures
        v as int == grad_read(cells@, w as int, h as int, x as int, y as int),
{
    proof {
        assert(cells@.len() == cells.len());
        lemma_grid_index(w as int, h as int, x as int, y as int);
    }
    let cell = cells[y * w + x];
    if cell.claimed {
        CLAIMED_ENERGY
    } else {
        cell.energy as i32
    }
}

} // verus!

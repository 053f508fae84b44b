use seam_carving::cost::{accumulate, pick_neighbor, Dir};
use seam_carving::gradient::estimate;
use seam_carving::grid::{ColorImage, CostGrid, GradientGrid, Pixel, ABSENT_COST};
use seam_carving::math::isqrt;
use seam_carving::pipeline::mark_seams;
use seam_carving::seams::select_seams;

const GREEN: Pixel = Pixel { r: 0, g: 255, b: 0 };

fn uniform(w: usize, h: usize, p: Pixel) -> ColorImage {
    ColorImage::from_pixels(w, h, vec![p; w * h]).unwrap()
}

fn patterned(w: usize, h: usize) -> ColorImage {
    let mut pixels = Vec::new();
    for y in 0..h {
        for x in 0..w {
            pixels.push(Pixel {
                r: ((x * 41 + y * 13) % 256) as u8,
                g: ((x * 7 + y * 91) % 256) as u8,
                b: ((x * 113 + y * 29) % 256) as u8,
            });
        }
    }
    ColorImage::from_pixels(w, h, pixels).unwrap()
}

#[test]
fn isqrt_exact_values() {
    assert_eq!(isqrt(0), 0);
    assert_eq!(isqrt(1), 1);
    assert_eq!(isqrt(3), 1);
    assert_eq!(isqrt(4), 2);
    assert_eq!(isqrt(195075), 441);
    assert_eq!(isqrt(u32::MAX), 65535);
}

#[test]
fn gradient_values_stay_in_byte_range() {
    let img = patterned(7, 5);
    let g = estimate(&img);
    assert_eq!(g.cells.len(), 35);
    for cell in &g.cells {
        assert!(0 <= cell.energy && cell.energy <= 255);
        assert!(!cell.claimed);
    }
    // extreme channel values at a hard edge
    let mut pixels = vec![Pixel { r: 0, g: 0, b: 0 }; 4];
    pixels[1] = Pixel { r: 255, g: 255, b: 255 };
    let img2 = ColorImage::from_pixels(4, 1, pixels).unwrap();
    let g2 = estimate(&img2);
    for cell in &g2.cells {
        assert!(0 <= cell.energy && cell.energy <= 255);
    }
}

#[test]
fn gradient_exact_two_pixels() {
    // [white, black]: the white pixel sees equal emptiness on both sides, the
    // black one sees the white magnitude 441 on its left, clamped to 255.
    let img = ColorImage::from_pixels(
        2,
        1,
        vec![Pixel { r: 255, g: 255, b: 255 }, Pixel { r: 0, g: 0, b: 0 }],
    )
    .unwrap();
    let g = estimate(&img);
    assert_eq!(g.cells[0].energy, 0);
    assert_eq!(g.cells[1].energy, 255);
}

#[test]
fn uniform_image_interior_gradients_are_zero() {
    let img = uniform(5, 5, Pixel { r: 100, g: 150, b: 200 });
    let g = estimate(&img);
    for y in 1..4usize {
        for x in 1..4usize {
            assert_eq!(g.cells[y * 5 + x].energy, 0);
        }
    }
}

#[test]
fn black_image_gives_all_zero_gradients_and_costs() {
    let img = uniform(4, 4, Pixel { r: 0, g: 0, b: 0 });
    let mut g = estimate(&img);
    for cell in &g.cells {
        assert_eq!(cell.energy, 0);
    }
    let cost = accumulate(&mut g);
    for v in &cost.cells {
        assert_eq!(*v, 0);
    }
}

#[test]
fn accumulate_claims_every_row_below_a_processed_row() {
    let img = uniform(3, 3, Pixel { r: 0, g: 0, b: 0 });
    let mut g = estimate(&img);
    let _ = accumulate(&mut g);
    for x in 0..3usize {
        assert!(!g.cells[x].claimed); // top row is never a neighbor
        assert!(g.cells[3 + x].claimed);
        assert!(g.cells[6 + x].claimed);
    }
}

#[test]
fn bottom_cost_row_equals_gradient_bottom_row() {
    let img = patterned(6, 4);
    let mut g = estimate(&img);
    let bottom: Vec<i16> = (0..6).map(|x| g.cells[3 * 6 + x].energy).collect();
    let cost = accumulate(&mut g);
    for x in 0..6usize {
        assert_eq!(cost.cells[3 * 6 + x], bottom[x] as i32);
    }
}

#[test]
fn tie_break_is_fixed_and_deterministic() {
    // left == right < center falls through both strict tests to center
    assert_eq!(pick_neighbor(2, 5, 2), Dir::Center);
    // a strictly smallest left or right wins
    assert_eq!(pick_neighbor(1, 5, 2), Dir::Left);
    assert_eq!(pick_neighbor(2, 5, 1), Dir::Right);
    // all equal stays center
    assert_eq!(pick_neighbor(7, 7, 7), Dir::Center);
    // left == center < right: center keeps it
    assert_eq!(pick_neighbor(3, 3, 9), Dir::Center);
}

#[test]
fn one_column_and_one_row_images_complete() {
    let tall = patterned(1, 5);
    let (out, paths) = mark_seams(&tall, 2, GREEN);
    assert_eq!(out.width, 1);
    assert_eq!(out.height, 5);
    assert_eq!(paths.len(), 2);
    for p in &paths {
        for &c in p {
            assert_eq!(c, 0);
        }
    }
    let wide = patterned(5, 1);
    let (out2, paths2) = mark_seams(&wide, 2, GREEN);
    assert_eq!(out2.width, 5);
    assert_eq!(out2.height, 1);
    assert_eq!(paths2.len(), 2);
}

#[test]
fn seam_count_beyond_width_skips_unclaimed_slots() {
    let img = patterned(4, 4);
    let (out, paths) = mark_seams(&img, 10, GREEN);
    assert_eq!(out.width, 4);
    assert_eq!(paths.len(), 10);
    let traced = paths.iter().filter(|p| !p.is_empty()).count();
    assert!(traced <= 4);
    for p in &paths {
        assert!(p.is_empty() || p.len() == 4);
    }
}

#[test]
fn selector_is_first_fit_not_a_sort() {
    let cost = CostGrid::from_costs(4, 1, vec![5, 3, 3, 7]).unwrap();
    let slots = select_seams(&cost, 2);
    assert_eq!(slots.values, vec![3, 3]);
    assert_eq!(slots.columns, vec![1, 2]);
}

#[test]
fn selector_leaves_excess_slots_unclaimed() {
    let cost = CostGrid::from_costs(2, 1, vec![9, 9]).unwrap();
    let slots = select_seams(&cost, 4);
    assert_eq!(slots.values[0], 9);
    assert_eq!(slots.columns[0], 0);
    assert_eq!(slots.values[1], 9);
    assert_eq!(slots.columns[1], 1);
    assert_eq!(slots.values[2], ABSENT_COST);
    assert_eq!(slots.values[3], ABSENT_COST);
}

#[test]
fn traced_seam_is_drawn_in_the_highlight_color() {
    let img = patterned(6, 6);
    let (out, paths) = mark_seams(&img, 1, GREEN);
    let path = &paths[0];
    assert_eq!(path.len(), 6);
    for (y, &c) in path.iter().enumerate() {
        assert!(c < 6);
        let p = out.get(c, y);
        assert_eq!(p, GREEN);
    }
}

#[test]
fn adjacent_rows_of_a_path_stay_adjacent() {
    let img = patterned(9, 9);
    let (_, paths) = mark_seams(&img, 3, GREEN);
    for p in &paths {
        for win in p.windows(2) {
            let d = win[0] as i64 - win[1] as i64;
            assert!(-1 <= d && d <= 1);
        }
    }
}

#[test]
fn bright_line_scenario_avoids_the_line_most_rows() {
    let mut pixels = Vec::new();
    for _y in 0..10 {
        for x in 0..10 {
            if x == 5 {
                pixels.push(Pixel { r: 255, g: 255, b: 255 });
            } else {
                pixels.push(Pixel { r: 10, g: 10, b: 10 });
            }
        }
    }
    let img = ColorImage::from_pixels(10, 10, pixels).unwrap();
    let (_, paths) = mark_seams(&img, 1, GREEN);
    let path = &paths[0];
    assert_eq!(path.len(), 10);
    let on_line = path.iter().filter(|&&c| c == 5).count();
    assert!(on_line <= 5, "seam sat on the bright line for {} rows", on_line);
}

#[test]
fn grid_constructors_validate_their_input() {
    assert!(ColorImage::from_pixels(2, 2, vec![Pixel { r: 0, g: 0, b: 0 }; 3]).is_none());
    assert!(GradientGrid::from_energies(2, 2, vec![0, 1, 2, 300]).is_none());
    assert!(GradientGrid::from_energies(2, 2, vec![0, 1, 2, -1]).is_none());
    assert!(GradientGrid::from_energies(2, 1, vec![0, 255]).is_some());
    assert!(CostGrid::from_costs(2, 1, vec![-1, 0]).is_none());
    assert!(CostGrid::from_costs(2, 1, vec![0, i32::MAX]).is_none());
}

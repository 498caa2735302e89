use linedither::{
    composite, dither_color, dithering_matrices_from, edge_detect, gradient_magnitudes,
    label_components, line_dither, make_direction_or_offset_matrix, make_dithering_matrices,
    quantize, sample, stamp_labels, submod, Grid, Levels, Rgb,
};

fn grid<T: Clone>(width: usize, height: usize, f: impl Fn(usize, usize) -> T) -> Grid<T> {
    let mut cells = Vec::new();
    for r in 0..height {
        for c in 0..width {
            cells.push(f(r, c));
        }
    }
    Grid { width, height, cells }
}

fn at<T: Copy>(g: &Grid<T>, r: usize, c: usize) -> T {
    g.cells[r * g.width + c]
}

fn gray(v: u16) -> Rgb {
    Rgb { r: v, g: v, b: v }
}

#[test]
fn submod_wraps_negative_differences() {
    assert_eq!(submod(7, 2, 5), 0);
    assert_eq!(submod(1, 3, 5), 3);
    assert_eq!(submod(2, 9, 4), 1);
    assert_eq!(submod(0, 0, 1), 0);
    assert_eq!(submod(3, 3, 7), 0);
    assert_eq!(submod(0, 1, 256), 255);
}

#[test]
fn quantize_rounds_to_nearest_level() {
    // 0.25 of two levels rounds down, 0.5 rounds away from zero.
    assert_eq!(quantize(2, 1, 4), 0);
    assert_eq!(quantize(2, 1, 2), 1);
    assert_eq!(quantize(2, 3, 4), 1);
    // 0.5 of five levels is level 2 of 0..=4.
    assert_eq!(quantize(5, 1, 2), 2);
    assert_eq!(quantize(5, 1, 1), 4);
    assert_eq!(quantize(5, 0, 7), 0);
    // values outside [0, 1] give levels outside the range; -0.5 rounds to -1.
    assert_eq!(quantize(2, -1, 2), -1);
    assert_eq!(quantize(3, -1, 4), -1);
    assert_eq!(quantize(2, 5, 4), 1);
    assert_eq!(quantize(2, 7, 4), 2);
}

#[test]
fn quantize_is_idempotent_on_samples() {
    for n in 2u32..9 {
        for num in -40i128..80 {
            for den in [1i128, 3, 7, 16, 65535] {
                let k = quantize(n, num, den);
                assert_eq!(quantize(n, k, (n - 1) as i128), k);
            }
        }
    }
}

#[test]
fn sample_clamps_to_edge() {
    let g = grid(3, 2, |r, c| (10 * r + c) as i32);
    assert_eq!(sample(&g, -1, -1), 0);
    assert_eq!(sample(&g, 0, 2), 2);
    assert_eq!(sample(&g, 5, 1), 11);
    assert_eq!(sample(&g, 1, 9), 12);
    assert_eq!(sample(&g, -3, 7), 2);
    assert_eq!(sample(&g, 1, 1), 11);
}

#[test]
fn flat_image_has_zero_gradient_and_no_edges() {
    let g = grid(5, 4, |_, _| 32768i32);
    let mags = gradient_magnitudes(&g);
    assert!(mags.cells.iter().all(|&m| m == 0));
    let mask = edge_detect(&g);
    assert_eq!((mask.width, mask.height), (5, 4));
    assert!(mask.cells.iter().all(|&e| !e));
}

#[test]
fn step_image_marks_the_step() {
    let u = 65535i32;
    let g = grid(4, 3, |_, c| if c >= 2 { u } else { 0 });
    let mags = gradient_magnitudes(&g);
    // gx = -(3 + 10 + 3) * u next to the step, gy = 0.
    let step = (16 * u as u128) * (16 * u as u128);
    for r in 0..3 {
        assert_eq!(at(&mags, r, 0), 0);
        assert_eq!(at(&mags, r, 1), step);
        assert_eq!(at(&mags, r, 2), step);
        assert_eq!(at(&mags, r, 3), 0);
    }
    let mask = edge_detect(&g);
    for r in 0..3 {
        assert_eq!(
            [at(&mask, r, 0), at(&mask, r, 1), at(&mask, r, 2), at(&mask, r, 3)],
            [false, true, true, false]
        );
    }
}

#[test]
fn one_outlier_suppresses_weak_edges() {
    // A weak step on the left, a huge spike on the right.
    let g = grid(8, 3, |r, c| {
        if c == 6 && r == 1 {
            1_000_000
        } else if c >= 1 && c < 6 {
            10
        } else {
            0
        }
    });
    let mask = edge_detect(&g);
    for r in 0..3 {
        assert!(!at(&mask, r, 0));
        assert!(!at(&mask, r, 1));
    }
    assert!(at(&mask, 1, 5));
    assert!(at(&mask, 1, 7));
}

#[test]
fn components_follow_raster_order() {
    // a wall down column 2 splits the grid in two
    let mask = grid(5, 3, |_, c| c == 2);
    let (ids, count) = label_components(&mask);
    assert_eq!(count, 2);
    for r in 0..3 {
        assert_eq!(at(&ids, r, 0), 2);
        assert_eq!(at(&ids, r, 1), 2);
        assert_eq!(at(&ids, r, 2), 1);
        assert_eq!(at(&ids, r, 3), 3);
        assert_eq!(at(&ids, r, 4), 3);
    }
    let labels = stamp_labels(&ids, &vec![5, 7]);
    for r in 0..3 {
        assert_eq!(at(&labels, r, 0), 7);
        assert_eq!(at(&labels, r, 2), 1);
        assert_eq!(at(&labels, r, 4), 9);
    }
}

#[test]
fn regions_around_an_enclosure() {
    // a ring of edge cells encloses the centre cell
    let mask = grid(5, 5, |r, c| {
        (r == 1 || r == 3) && (1..=3).contains(&c) || (c == 1 || c == 3) && (1..=3).contains(&r)
    });
    let (ids, count) = label_components(&mask);
    assert_eq!(count, 2);
    assert_eq!(at(&ids, 0, 0), 2);
    assert_eq!(at(&ids, 4, 4), 2);
    assert_eq!(at(&ids, 2, 2), 3);
    assert_eq!(at(&ids, 1, 1), 1);
}

#[test]
fn labels_cover_every_background_cell() {
    let mask = grid(6, 4, |r, c| r == 1 && c < 5);
    let labels = make_direction_or_offset_matrix(&mask, 2);
    for r in 0..4 {
        for c in 0..6 {
            let v = at(&labels, r, c);
            if at(&mask, r, c) {
                assert_eq!(v, 1);
            } else {
                assert!(v == 2 || v == 3);
            }
        }
    }
    // the two background rows meet round the end of the wall: one region
    let first = at(&labels, 0, 0);
    for r in [0, 2, 3] {
        for c in 0..6 {
            assert_eq!(at(&labels, r, c), first);
        }
    }
}

#[test]
fn a_single_choice_bound_gives_label_two() {
    let mask = grid(4, 4, |r, c| r == c);
    let labels = make_direction_or_offset_matrix(&mask, 1);
    for r in 0..4 {
        for c in 0..4 {
            assert_eq!(at(&labels, r, c), if r == c { 1 } else { 2 });
        }
    }
}

#[test]
fn flood_fill_of_a_million_cells() {
    let mask = Grid { width: 1000, height: 1000, cells: vec![false; 1_000_000] };
    let (ids, count) = label_components(&mask);
    assert_eq!(count, 1);
    assert!(ids.cells.iter().all(|&id| id == 2));
    let labels = make_direction_or_offset_matrix(&mask, 256);
    let first = labels.cells[0];
    assert!((2..258).contains(&first));
    assert!(labels.cells.iter().all(|&l| l == first));
}

#[test]
fn matrices_of_size_two_with_identity_order() {
    let (m1, m2) = dithering_matrices_from(2, &vec![0, 1]);
    assert_eq!(m1.cells, vec![0, 2, 3, 1]);
    assert_eq!(m2.cells, vec![0, 2, 3, 1]);
    let value = |rank: usize| rank as f64 / 4.0 - 0.5;
    assert_eq!(value(at(&m1, 0, 0)), -0.5);
    assert_eq!(value(at(&m1, 1, 1)), -0.25);
}

#[test]
fn matrices_mirror_across_the_diagonals() {
    let perm = vec![2, 0, 3, 1];
    let (m1, m2) = dithering_matrices_from(4, &perm);
    for i in 0..4 {
        for j in 0..4 {
            assert_eq!(at(&m1, i, j), perm[(i + j) % 4] * 4 + i);
            assert_eq!(at(&m2, i, j), perm[(i + 4 - j) % 4] * 4 + i);
        }
    }
    assert_eq!(at(&m2, 0, 1), 1 * 4);
    assert_eq!(at(&m1, 3, 2), 0 * 4 + 3);
}

#[test]
fn random_matrices_hold_every_rank_once() {
    for size in [1usize, 2, 5, 8] {
        let (m1, m2) = make_dithering_matrices(size);
        for m in [&m1, &m2] {
            assert_eq!((m.width, m.height), (size, size));
            let mut ranks = m.cells.clone();
            ranks.sort();
            assert_eq!(ranks, (0..size * size).collect::<Vec<_>>());
            for &r in &m.cells {
                let v = r as f64 / (size * size) as f64 - 0.5;
                assert!((-0.5..0.5).contains(&v));
            }
        }
    }
}

#[test]
fn dither_lookup_wraps_columns() {
    let (m1, _) = dithering_matrices_from(4, &vec![3, 1, 0, 2]);
    let c = Rgb { r: 10000, g: 30000, b: 60000 };
    for i in 0..6 {
        for j in 0..4 {
            let base = dither_color(4, &m1, 4, c, i, j);
            assert_eq!(dither_color(4, &m1, 4, c, i, j + 4 * 1000), base);
            assert_eq!(dither_color(4, &m1, 4, c, i + 8, j), base);
        }
    }
}

#[test]
fn dither_color_exact_levels() {
    let (m1, _) = dithering_matrices_from(2, &vec![0, 1]);
    // gray 0: thresholds -0.5, 0, 0.25, -0.25 -> rounded: -1 (half away), 0, 0, 0
    let black = gray(0);
    assert_eq!(dither_color(2, &m1, 2, black, 0, 0), Levels { r: -1, g: -1, b: -1 });
    assert_eq!(dither_color(2, &m1, 2, black, 0, 1), Levels { r: 0, g: 0, b: 0 });
    // white plus 0.25 -> 1.25 -> level 1
    let white = gray(65535);
    assert_eq!(dither_color(2, &m1, 2, white, 1, 0), Levels { r: 1, g: 1, b: 1 });
    // 0.4 plus 0.25 (rank 3 of 4) with 3 levels: 0.65 * 2 = 1.3 -> 1
    let c = gray(26214);
    assert_eq!(dither_color(3, &m1, 2, c, 1, 0).r, 1);
    // 0.4 minus 0.5 with 3 levels: -0.1 * 2 = -0.2 -> 0
    assert_eq!(dither_color(3, &m1, 2, c, 0, 0).r, 0);
}

#[test]
fn composite_picks_matrix_by_direction() {
    let (m1, m2) = dithering_matrices_from(3, &vec![2, 0, 1]);
    let orig = grid(4, 3, |r, c| gray((r * 9000 + c * 7000) as u16));
    let offset = grid(4, 3, |r, c| (2 + r + c) as u32);
    for d in [1u32, 2, 3] {
        let direction = grid(4, 3, |_, _| d);
        let out = composite(5, &direction, &offset, &m1, &m2, 3, &orig);
        let m = if d == 3 { &m2 } else { &m1 };
        for i in 0..3 {
            for j in 0..4 {
                let col = (j + at(&offset, i, j) as usize) % 3;
                let expect = dither_color(5, m, 3, at(&orig, i, j), i, col);
                assert_eq!(at(&out, i, j), expect);
            }
        }
    }
    // the two matrices differ where the lines cross
    assert_eq!(at(&m1, 0, 1), 0);
    assert_eq!(at(&m2, 0, 1), 3);
}

#[test]
fn flat_gray_image_end_to_end() {
    let dog = grid(4, 4, |_, _| 32768i32);
    let orig = grid(4, 4, |_, _| gray(32768));
    let mask = edge_detect(&dog);
    assert!(mask.cells.iter().all(|&e| !e));
    let direction = make_direction_or_offset_matrix(&mask, 2);
    let d = direction.cells[0];
    assert!(d == 2 || d == 3);
    assert!(direction.cells.iter().all(|&x| x == d));

    let out = line_dither(2, 2, &dog, &orig);
    assert_eq!((out.width, out.height), (4, 4));
    for i in 0..4 {
        for j in 0..4 {
            let p = at(&out, i, j);
            assert!(p.r == 0 || p.r == 1);
            assert_eq!(p.r, p.g);
            assert_eq!(p.r, p.b);
            // the pattern repeats with the matrix period
            assert_eq!(at(&out, (i + 2) % 4, j), p);
            assert_eq!(at(&out, i, (j + 2) % 4), p);
        }
    }
    // half of the ranks of a 2x2 matrix round 0.5 + threshold up
    let ones = out.cells.iter().filter(|p| p.r == 1).count();
    assert_eq!(ones, 8);
}

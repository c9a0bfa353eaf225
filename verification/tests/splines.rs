use jdr_rolls::maths::splines::{band_slot, compute_equation_metadata, equation_rows, EquationRow, RowRhs, Trend};

fn trends(ys: &[f64]) -> Vec<Trend> {
    ys.windows(2)
        .map(|w| match w[0].partial_cmp(&w[1]) {
            Some(std::cmp::Ordering::Less) => Trend::Rising,
            Some(std::cmp::Ordering::Greater) => Trend::Falling,
            Some(std::cmp::Ordering::Equal) => Trend::Level,
            None => Trend::Unordered,
        })
        .collect()
}

/// Dense matrix of the system through `points`, the last column holding the right-hand
/// sides, with the coefficient counts of the first version of the spline.
fn dense_matrix(points: &[(f64, f64)]) -> Vec<Vec<f64>> {
    let ys: Vec<f64> = points.iter().map(|p| p.1).collect();
    let counts = jdr_rolls::splines::interval_coefficient_counts(&trends(&ys));
    let rows: Vec<EquationRow> = equation_rows(&counts);
    let nb_unknowns: usize = counts.iter().sum();
    let mut matrix = vec![vec![0.0; nb_unknowns + 1]; nb_unknowns];
    for (r, row) in rows.iter().enumerate() {
        for b in &row.blocks {
            let x = if b.at_end { points[b.interval + 1].0 - points[b.interval].0 } else { 0.0 };
            let sign = if b.negated { -1.0 } else { 1.0 };
            let mut cur_x = 1.0;
            for i in b.derivative..b.nb_coefficients {
                let mut factor = 1.0;
                for j in 0..b.derivative {
                    factor *= (i - j) as f64;
                }
                matrix[r][b.first_column + i] = factor * cur_x * sign;
                cur_x *= x;
            }
        }
        matrix[r][nb_unknowns] = match row.rhs {
            RowRhs::Zero => 0.0,
            RowRhs::PointY(j) => points[j].1,
        };
    }
    matrix
}

#[test]
fn it_correctly_calculates_interval_degrees_list() {
    let ys = [10.0, 20.0, 30.0, 20.0, 10.0, 20.0, 20.0, 10.0, 0.0, 0.0, 10.0];
    let counts = jdr_rolls::maths::splines::interval_coefficient_counts(&trends(&ys));
    assert_eq!(counts[0], 4);
    assert_eq!(counts[1], 5);
    assert_eq!(counts[2], 4);
    assert_eq!(counts[3], 5);
    assert_eq!(counts[4], 4);
    assert_eq!(counts[5], 4);
    assert_eq!(counts[6], 4);
    assert_eq!(counts[7], 5);
    assert_eq!(counts[8], 4);
    assert_eq!(counts[9], 4);
}

#[test]
fn mod_it_correctly_calculates_interval_degrees_list() {
    let ys = [10.0, 20.0, 30.0, 20.0, 10.0, 20.0, 20.0, 10.0, 0.0, 0.0, 10.0];
    let counts = jdr_rolls::splines::interval_coefficient_counts(&trends(&ys));
    assert_eq!(counts[0], 4);
    assert_eq!(counts[1], 5);
    assert_eq!(counts[2], 4);
    assert_eq!(counts[3], 5);
    assert_eq!(counts[4], 5);
    assert_eq!(counts[5], 4);
    assert_eq!(counts[6], 4);
    assert_eq!(counts[7], 5);
    assert_eq!(counts[8], 4);
    assert_eq!(counts[9], 4);
}

#[test]
fn it_correctly_generates_equation_matrix_for_simple_case() {
    let points = [(0.0, 1.0), (1.0, 3.0), (2.0, 2.0)];
    let equation_matrix = dense_matrix(&points);
    assert_eq!(equation_matrix, vec![
        vec![1.0,   0.0,   0.0,   0.0,   0.0,   0.0,   0.0,   0.0,   0.0,   1.0],
        vec![1.0,   1.0,   1.0,   1.0,   1.0,   0.0,   0.0,   0.0,   0.0,   3.0],
        vec![0.0,   1.0,   2.0,   3.0,   4.0,   0.0,   0.0,   0.0,   0.0,   0.0],
        vec![0.0,   1.0,   2.0,   3.0,   4.0,   0.0,  -1.0,   0.0,   0.0,   0.0],
        vec![0.0,   0.0,   2.0,   0.0,   0.0,   0.0,   0.0,   0.0,   0.0,   0.0],
        vec![0.0,   0.0,   2.0,   6.0,  12.0,   0.0,   0.0,  -2.0,   0.0,   0.0],
        vec![0.0,   0.0,   0.0,   0.0,   0.0,   1.0,   0.0,   0.0,   0.0,   3.0],
        vec![0.0,   0.0,   0.0,   0.0,   0.0,   1.0,   1.0,   1.0,   1.0,   2.0],
        vec![0.0,   0.0,   0.0,   0.0,   0.0,   0.0,   0.0,   2.0,   6.0,   0.0],
    ]);
}

#[test]
fn it_correctly_generates_equation_matrix_for_bigger_case() {
    let points = [(0.0, 2.0), (2.0, 4.0), (3.0, 1.0), (4.0, 3.0), (5.0, 5.0), (6.0, 2.0)];
    let equation_matrix = dense_matrix(&points);
    assert_eq!(equation_matrix, vec![
        vec![1.0,   0.0,   0.0,   0.0,   0.0,      0.0,   0.0,   0.0,   0.0,   0.0,      0.0,   0.0,   0.0,   0.0,      0.0,   0.0,   0.0,   0.0,   0.0,      0.0,   0.0,   0.0,   0.0,      2.0],

        vec![1.0,   2.0,   4.0,   8.0,  16.0,      0.0,   0.0,   0.0,   0.0,   0.0,      0.0,   0.0,   0.0,   0.0,      0.0,   0.0,   0.0,   0.0,   0.0,      0.0,   0.0,   0.0,   0.0,      4.0],
        vec![0.0,   1.0,   4.0,  12.0,  32.0,      0.0,   0.0,   0.0,   0.0,   0.0,      0.0,   0.0,   0.0,   0.0,      0.0,   0.0,   0.0,   0.0,   0.0,      0.0,   0.0,   0.0,   0.0,      0.0],
        vec![0.0,   1.0,   4.0,  12.0,  32.0,      0.0,  -1.0,   0.0,   0.0,   0.0,      0.0,   0.0,   0.0,   0.0,      0.0,   0.0,   0.0,   0.0,   0.0,      0.0,   0.0,   0.0,   0.0,      0.0],
        vec![0.0,   0.0,   2.0,   0.0,   0.0,      0.0,   0.0,   0.0,   0.0,   0.0,      0.0,   0.0,   0.0,   0.0,      0.0,   0.0,   0.0,   0.0,   0.0,      0.0,   0.0,   0.0,   0.0,      0.0],
        vec![0.0,   0.0,   2.0,  12.0,  48.0,      0.0,   0.0,  -2.0,   0.0,   0.0,      0.0,   0.0,   0.0,   0.0,      0.0,   0.0,   0.0,   0.0,   0.0,      0.0,   0.0,   0.0,   0.0,      0.0],
        vec![0.0,   0.0,   0.0,   0.0,   0.0,      1.0,   0.0,   0.0,   0.0,   0.0,      0.0,   0.0,   0.0,   0.0,      0.0,   0.0,   0.0,   0.0,   0.0,      0.0,   0.0,   0.0,   0.0,      4.0],

        vec![0.0,   0.0,   0.0,   0.0,   0.0,      1.0,   1.0,   1.0,   1.0,   1.0,      0.0,   0.0,   0.0,   0.0,      0.0,   0.0,   0.0,   0.0,   0.0,      0.0,   0.0,   0.0,   0.0,      1.0],
        vec![0.0,   0.0,   0.0,   0.0,   0.0,      0.0,   1.0,   2.0,   3.0,   4.0,      0.0,   0.0,   0.0,   0.0,      0.0,   0.0,   0.0,   0.0,   0.0,      0.0,   0.0,   0.0,   0.0,      0.0],
        vec![0.0,   0.0,   0.0,   0.0,   0.0,      0.0,   1.0,   2.0,   3.0,   4.0,      0.0,  -1.0,   0.0,   0.0,      0.0,   0.0,   0.0,   0.0,   0.0,      0.0,   0.0,   0.0,   0.0,      0.0],
        vec![0.0,   0.0,   0.0,   0.0,   0.0,      0.0,   0.0,   2.0,   6.0,  12.0,      0.0,   0.0,  -2.0,   0.0,      0.0,   0.0,   0.0,   0.0,   0.0,      0.0,   0.0,   0.0,   0.0,      0.0],
        vec![0.0,   0.0,   0.0,   0.0,   0.0,      0.0,   0.0,   0.0,   0.0,   0.0,      1.0,   0.0,   0.0,   0.0,      0.0,   0.0,   0.0,   0.0,   0.0,      0.0,   0.0,   0.0,   0.0,      1.0],

        vec![0.0,   0.0,   0.0,   0.0,   0.0,      0.0,   0.0,   0.0,   0.0,   0.0,      1.0,   1.0,   1.0,   1.0,      0.0,   0.0,   0.0,   0.0,   0.0,      0.0,   0.0,   0.0,   0.0,      3.0],
        vec![0.0,   0.0,   0.0,   0.0,   0.0,      0.0,   0.0,   0.0,   0.0,   0.0,      0.0,   1.0,   2.0,   3.0,      0.0,  -1.0,   0.0,   0.0,   0.0,      0.0,   0.0,   0.0,   0.0,      0.0],
        vec![0.0,   0.0,   0.0,   0.0,   0.0,      0.0,   0.0,   0.0,   0.0,   0.0,      0.0,   0.0,   2.0,   6.0,      0.0,   0.0,  -2.0,   0.0,   0.0,      0.0,   0.0,   0.0,   0.0,      0.0],
        vec![0.0,   0.0,   0.0,   0.0,   0.0,      0.0,   0.0,   0.0,   0.0,   0.0,      0.0,   0.0,   0.0,   0.0,      1.0,   0.0,   0.0,   0.0,   0.0,      0.0,   0.0,   0.0,   0.0,      3.0],

        vec![0.0,   0.0,   0.0,   0.0,   0.0,      0.0,   0.0,   0.0,   0.0,   0.0,      0.0,   0.0,   0.0,   0.0,      1.0,   1.0,   1.0,   1.0,   1.0,      0.0,   0.0,   0.0,   0.0,      5.0],
        vec![0.0,   0.0,   0.0,   0.0,   0.0,      0.0,   0.0,   0.0,   0.0,   0.0,      0.0,   0.0,   0.0,   0.0,      0.0,   1.0,   2.0,   3.0,   4.0,      0.0,   0.0,   0.0,   0.0,      0.0],
        vec![0.0,   0.0,   0.0,   0.0,   0.0,      0.0,   0.0,   0.0,   0.0,   0.0,      0.0,   0.0,   0.0,   0.0,      0.0,   1.0,   2.0,   3.0,   4.0,      0.0,  -1.0,   0.0,   0.0,      0.0],
        vec![0.0,   0.0,   0.0,   0.0,   0.0,      0.0,   0.0,   0.0,   0.0,   0.0,      0.0,   0.0,   0.0,   0.0,      0.0,   0.0,   2.0,   6.0,  12.0,      0.0,   0.0,  -2.0,   0.0,      0.0],
        vec![0.0,   0.0,   0.0,   0.0,   0.0,      0.0,   0.0,   0.0,   0.0,   0.0,      0.0,   0.0,   0.0,   0.0,      0.0,   0.0,   0.0,   0.0,   0.0,      1.0,   0.0,   0.0,   0.0,      5.0],

        vec![0.0,   0.0,   0.0,   0.0,   0.0,      0.0,   0.0,   0.0,   0.0,   0.0,      0.0,   0.0,   0.0,   0.0,      0.0,   0.0,   0.0,   0.0,   0.0,      1.0,   1.0,   1.0,   1.0,      2.0],
        vec![0.0,   0.0,   0.0,   0.0,   0.0,      0.0,   0.0,   0.0,   0.0,   0.0,      0.0,   0.0,   0.0,   0.0,      0.0,   0.0,   0.0,   0.0,   0.0,      0.0,   0.0,   2.0,   6.0,      0.0],
    ]);
}

#[test]
fn the_system_has_as_many_rows_as_unknowns() {
    let ys = [2.0, 3.0, 4.0, 1.0, 3.0, 5.0, 2.0];
    let counts = jdr_rolls::maths::splines::interval_coefficient_counts(&trends(&ys));
    assert_eq!(counts, vec![4, 5, 5, 4, 5, 4]);
    let rows = equation_rows(&counts);
    assert_eq!(rows.len(), counts.iter().sum::<usize>());
}

#[test]
fn two_points_give_three_rows_for_four_unknowns() {
    let rows = equation_rows(&vec![4]);
    assert_eq!(rows.len(), 3);
}

#[test]
fn metadata_gives_the_size_and_the_bandwidth_of_the_system() {
    for counts in [vec![4], vec![5, 4], vec![4, 5, 5, 4, 5, 4], vec![4, 4, 4, 4]] {
        let rows = equation_rows(&counts);
        let mut bw = 0usize;
        for (r, row) in rows.iter().enumerate() {
            for b in &row.blocks {
                for c in (b.first_column + b.derivative)..b.nb_coefficients + b.first_column {
                    bw = bw.max(r.abs_diff(c));
                }
            }
        }
        assert_eq!(compute_equation_metadata(&counts), (rows.len(), bw));
    }
}

#[test]
fn metadata_of_a_small_system() {
    assert_eq!(compute_equation_metadata(&vec![5, 4]), (9, 5));
}

#[test]
fn band_slots_of_a_small_band() {
    // Bandwidth 1: three slots per row, the first one for the column left of the diagonal.
    assert_eq!(band_slot(4, 1, 0, 0), 1);
    assert_eq!(band_slot(4, 1, 0, 1), 2);
    assert_eq!(band_slot(4, 1, 1, 0), 3);
    assert_eq!(band_slot(4, 1, 2, 3), 8);
    assert_eq!(band_slot(4, 1, 3, 2), 9);
}

#[test]
fn every_entry_of_the_band_has_a_slot_of_its_own() {
    let (n, bw) = (5usize, 2usize);
    let mut seen = vec![false; n * (2 * bw + 1)];
    for row in 0..n {
        for col in row.saturating_sub(bw)..=row + bw {
            let slot = band_slot(n, bw, row, col);
            assert!(!seen[slot]);
            seen[slot] = true;
        }
    }
}

#[test]
fn every_entry_of_the_system_fits_its_band() {
    let counts = vec![4usize, 5, 4, 4];
    let (n, bw) = compute_equation_metadata(&counts);
    let rows = equation_rows(&counts);
    let mut seen = vec![false; n * (2 * bw + 1)];
    for (r, row) in rows.iter().enumerate() {
        for b in &row.blocks {
            for col in b.first_column + b.derivative..b.first_column + b.nb_coefficients {
                assert!(col.abs_diff(r) <= bw);
                let slot = band_slot(n, bw, r, col);
                assert!(!seen[slot]);
                seen[slot] = true;
            }
        }
    }
}

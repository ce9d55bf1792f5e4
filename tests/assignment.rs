use fastmunk::{kuhn_munkres, kuhn_munkres_labelled, kuhn_munkres_min, negate_weights};

fn total(w: &[Vec<i64>], m: &[(usize, usize)]) -> i64 {
    m.iter().map(|&(x, y)| w[x][y]).sum()
}

fn check_assignment(w: &[Vec<i64>], m: &[(usize, usize)]) {
    let ny = if w.is_empty() { 0 } else { w[0].len() };
    assert_eq!(m.len(), w.len());
    let mut seen = vec![false; ny];
    for (i, &(x, y)) in m.iter().enumerate() {
        assert_eq!(x, i);
        assert!(y < ny);
        assert!(!seen[y]);
        seen[y] = true;
    }
}

/// Best and worst totals over every row-to-distinct-column assignment.
fn brute_force(w: &[Vec<i64>]) -> (i64, i64) {
    fn go(w: &[Vec<i64>], x: usize, used: &mut Vec<bool>, acc: i64, best: &mut (i64, i64)) {
        if x == w.len() {
            best.0 = best.0.max(acc);
            best.1 = best.1.min(acc);
            return;
        }
        for y in 0..used.len() {
            if !used[y] {
                used[y] = true;
                go(w, x + 1, used, acc + w[x][y], best);
                used[y] = false;
            }
        }
    }
    let ny = if w.is_empty() { 0 } else { w[0].len() };
    let mut best = (i64::MIN, i64::MAX);
    go(w, 0, &mut vec![false; ny], 0, &mut best);
    best
}

/// A small deterministic generator for test matrices.
fn matrix(seed: u64, nx: usize, ny: usize, range: i64) -> Vec<Vec<i64>> {
    let mut state = seed.wrapping_mul(6364136223846793005).wrapping_add(1442695040888963407);
    let mut w = Vec::new();
    for _ in 0..nx {
        let mut row = Vec::new();
        for _ in 0..ny {
            state = state.wrapping_mul(6364136223846793005).wrapping_add(1442695040888963407);
            row.push(((state >> 33) as i64 % (2 * range + 1)) - range);
        }
        w.push(row);
    }
    w
}

#[test]
fn scenario_square_maximise() {
    let w = vec![vec![3, 1], vec![2, 4]];
    let m = kuhn_munkres(&w);
    assert_eq!(m, vec![(0, 0), (1, 1)]);
    assert_eq!(total(&w, &m), 7);
}

#[test]
fn scenario_square_minimise() {
    let w = vec![vec![3, 1], vec![2, 4]];
    let m = kuhn_munkres_min(&w);
    assert_eq!(m, vec![(0, 1), (1, 0)]);
    assert_eq!(total(&w, &m), 3);
}

#[test]
fn scenario_rectangular() {
    let w = vec![vec![5, 2, 1], vec![1, 4, 3]];
    let m = kuhn_munkres(&w);
    check_assignment(&w, &m);
    assert_eq!(m, vec![(0, 0), (1, 1)]);
    assert_eq!(total(&w, &m), 9);
}

#[test]
fn empty_matrix_gives_empty_matching() {
    let w: Vec<Vec<i64>> = Vec::new();
    assert_eq!(kuhn_munkres(&w), Vec::new());
    assert_eq!(kuhn_munkres_min(&w), Vec::new());
}

#[test]
fn single_cell() {
    assert_eq!(kuhn_munkres(&vec![vec![-17]]), vec![(0, 0)]);
    assert_eq!(kuhn_munkres_min(&vec![vec![42]]), vec![(0, 0)]);
}

#[test]
fn every_row_gets_a_distinct_column() {
    for seed in 0..40 {
        let nx = (seed % 5) as usize + 1;
        let ny = nx + (seed % 3) as usize;
        let w = matrix(seed, nx, ny, 20);
        check_assignment(&w, &kuhn_munkres(&w));
        check_assignment(&w, &kuhn_munkres_min(&w));
    }
}

#[test]
fn optimal_against_exhaustive_search() {
    for seed in 0..60 {
        let nx = (seed % 6) as usize + 1;
        let ny = nx + (seed % 7) as usize % (7 - nx);
        let w = matrix(seed + 100, nx, ny, 50);
        let (best, worst) = brute_force(&w);
        assert_eq!(total(&w, &kuhn_munkres(&w)), best);
        assert_eq!(total(&w, &kuhn_munkres_min(&w)), worst);
    }
}

#[test]
fn labels_are_feasible_and_tight() {
    for seed in 0..30 {
        let nx = (seed % 5) as usize + 1;
        let ny = nx + (seed % 2) as usize;
        let w = matrix(seed + 7, nx, ny, 30);
        let sol = kuhn_munkres_labelled(&w);
        check_assignment(&w, &sol.pairs);
        for x in 0..nx {
            for y in 0..ny {
                assert!(sol.lx[x] + sol.ly[y] >= w[x][y] as i128);
            }
        }
        let mut matched = vec![false; ny];
        for &(x, y) in &sol.pairs {
            assert_eq!(sol.lx[x] + sol.ly[y], w[x][y] as i128);
            matched[y] = true;
        }
        for y in 0..ny {
            assert!(sol.ly[y] >= 0);
            if !matched[y] {
                assert_eq!(sol.ly[y], 0);
            }
        }
    }
}

#[test]
fn repeated_runs_agree() {
    for seed in 0..20 {
        let w = matrix(seed + 300, 4, 6, 3);
        assert_eq!(kuhn_munkres(&w), kuhn_munkres(&w));
        assert_eq!(kuhn_munkres_min(&w), kuhn_munkres_min(&w));
    }
}

#[test]
fn equal_weights_still_match_every_row() {
    let w = vec![vec![5; 4]; 4];
    let m = kuhn_munkres(&w);
    check_assignment(&w, &m);
    assert_eq!(total(&w, &m), 20);
}

#[test]
fn extreme_weights_do_not_overflow() {
    let w = vec![
        vec![i64::MAX, i64::MIN, 0],
        vec![i64::MIN, i64::MAX, i64::MIN],
        vec![0, i64::MIN, i64::MAX],
    ];
    let m = kuhn_munkres(&w);
    assert_eq!(m, vec![(0, 0), (1, 1), (2, 2)]);
    let v = vec![vec![i64::MAX, -i64::MAX], vec![-i64::MAX, i64::MAX]];
    assert_eq!(kuhn_munkres_min(&v), vec![(0, 1), (1, 0)]);
}

#[test]
fn negation_flips_every_sign() {
    let w = vec![vec![3, -1, 0], vec![i64::MAX, -i64::MAX, 7]];
    assert_eq!(negate_weights(&w), vec![vec![-3, 1, 0], vec![-i64::MAX, i64::MAX, -7]]);
}

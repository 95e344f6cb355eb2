use paragem::pattern::SparsePattern;
use paragem::system::{laplacian_entries, laplacian_row, neighborhood, EditError, SystemLayout};

#[test]
fn laplacian_rows_of_a_two_point_chain() {
    assert_eq!(laplacian_row(2, 0), vec![(1, -2), (0, 2)]);
    assert_eq!(laplacian_row(2, 1), vec![(0, -2), (1, 2)]);
}

#[test]
fn laplacian_rows_of_a_longer_chain() {
    assert_eq!(laplacian_row(4, 0), vec![(1, -2), (0, 2)]);
    assert_eq!(laplacian_row(4, 1), vec![(0, -1), (2, -1), (1, 2)]);
    assert_eq!(laplacian_row(4, 2), vec![(1, -1), (3, -1), (2, 2)]);
    assert_eq!(laplacian_row(4, 3), vec![(2, -2), (3, 2)]);
    for i in 0..4 {
        let sum: i64 = laplacian_row(4, i).iter().map(|e| e.1).sum();
        assert_eq!(sum, 0);
    }
}

#[test]
fn laplacian_of_straight_chain_is_translation_invariant() {
    let xs = [0.0f64, 1.0, 2.0, 3.0];
    let shift = 2.5f64;
    for i in 0..4 {
        let row = laplacian_row(4, i);
        let d0: f64 = row.iter().map(|&(j, w)| w as f64 / 2.0 * xs[j]).sum();
        let d1: f64 = row.iter().map(|&(j, w)| w as f64 / 2.0 * (xs[j] + shift)).sum();
        assert!((d0 - d1).abs() < 1e-12);
    }
}

#[test]
fn neighborhoods_hold_the_point_and_its_chain_neighbors() {
    assert_eq!(neighborhood(3, 0), vec![0, 1]);
    assert_eq!(neighborhood(3, 1), vec![0, 1, 2]);
    assert_eq!(neighborhood(3, 2), vec![1, 2]);
}

#[test]
fn layout_refuses_short_chains() {
    assert!(matches!(SystemLayout::new(0, vec![]), Err(EditError::EmptyChain)));
    assert!(matches!(SystemLayout::new(1, vec![0]), Err(EditError::EmptyChain)));
    assert!(SystemLayout::new(2, vec![]).is_ok());
}

#[test]
fn layout_sizes_and_constraint_rows() {
    let l = SystemLayout::new(3, vec![0, 2]).unwrap();
    assert_eq!(l.row_count(), 10);
    assert_eq!(l.col_count(), 6);
    assert_eq!(l.constraint_entries(), vec![(6, 0), (7, 2), (8, 3), (9, 5)]);
    let all = SystemLayout::new(4, vec![0, 1, 2, 3]).unwrap();
    assert_eq!(all.row_count(), 16);
    assert_eq!(
        all.constraint_entries(),
        vec![(8, 0), (9, 1), (10, 2), (11, 3), (12, 4), (13, 5), (14, 6), (15, 7)]
    );
}

#[test]
fn pattern_gives_repeated_positions_the_same_slot() {
    let mut p = SparsePattern::new();
    assert_eq!(p.len(), 0);
    assert_eq!(p.slot(0, 1), (0, true));
    assert_eq!(p.slot(2, 2), (1, true));
    assert_eq!(p.slot(0, 1), (0, false));
    assert_eq!(p.slot(1, 0), (2, true));
    assert_eq!(p.slot(2, 2), (1, false));
    assert_eq!(p.len(), 3);
    assert_eq!(p.rows(), &vec![0, 2, 1]);
    assert_eq!(p.cols(), &vec![1, 2, 0]);
}

#[test]
fn pattern_sums_duplicate_contributions() {
    let mut p = SparsePattern::new();
    let mut vals: Vec<f64> = Vec::new();
    for &(r, c, v) in &[(0usize, 0usize, 1.0f64), (0, 1, -0.5), (0, 0, 2.0), (0, 1, -0.5)] {
        let (k, fresh) = p.slot(r, c);
        if fresh {
            vals.push(v);
        } else {
            vals[k] += v;
        }
    }
    assert_eq!(vals, vec![3.0, -1.0]);
}

#[test]
fn stacked_laplacian_holds_both_blocks() {
    assert_eq!(
        laplacian_entries(2),
        vec![(0, 1, -2), (0, 0, 2), (2, 3, -2), (2, 2, 2), (1, 0, -2), (1, 1, 2), (3, 2, -2), (3, 3, 2)]
    );
    let e = laplacian_entries(3);
    assert_eq!(e.len(), 14);
    assert!(e.contains(&(1, 0, -1)) && e.contains(&(1, 2, -1)) && e.contains(&(1, 1, 2)));
    assert!(e.contains(&(4, 3, -1)) && e.contains(&(4, 5, -1)) && e.contains(&(4, 4, 2)));
    for r in 0..6 {
        let sum: i64 = e.iter().filter(|t| t.0 == r).map(|t| t.2).sum();
        assert_eq!(sum, 0);
    }
}

#[test]
fn layout_of_a_very_long_chain_does_not_overflow() {
    let n = usize::MAX / 2 - 2;
    let l = SystemLayout::new(n, vec![0, n - 1]).unwrap();
    assert_eq!(l.col_count(), 2 * n);
    assert_eq!(l.row_count(), 2 * n + 4);
    assert_eq!(l.constraint_entries()[3], (2 * n + 3, 2 * n - 1));
}

#[test]
fn second_contribution_to_a_position_lands_in_its_slot() {
    let mut p = SparsePattern::new();
    let mut vals: Vec<f32> = Vec::new();
    for &(r, c, v) in &[(0usize, 1usize, 1.0f32), (0, 1, -0.5)] {
        let (k, fresh) = p.slot(r, c);
        if fresh {
            vals.push(v);
        } else {
            vals[k] += v;
        }
    }
    assert_eq!(p.rows(), &vec![0]);
    assert_eq!(p.cols(), &vec![1]);
    assert_eq!(vals, vec![0.5]);
}

#[test]
fn layout_exists_for_every_chain_of_two_or_more() {
    for n in 2..6usize {
        let fixed: Vec<usize> = (0..n).collect();
        let l = SystemLayout::new(n, fixed).unwrap();
        assert_eq!(l.row_count(), 4 * n);
    }
}

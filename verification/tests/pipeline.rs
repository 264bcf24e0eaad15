//! End-to-end behavior of the extraction pipeline on concrete grids.

use bioguard::extract;
use bioguard::grid::RidgeMapError;
use bioguard::minutiae::{mark_minutia, Minutia, MinutiaType};
use bioguard::thinning::{skeletonize, thin};

fn zeros(h: usize, w: usize) -> Vec<Vec<u8>> {
    vec![vec![0u8; w]; h]
}

fn ones_count(g: &Vec<Vec<u8>>) -> usize {
    g.iter().map(|r| r.iter().filter(|&&c| c == 1).count()).sum()
}

/// A single diagonal line of eight connected 1-pixels in a 10x10 grid.
fn diagonal() -> Vec<Vec<u8>> {
    let mut g = zeros(10, 10);
    for k in 1..9 {
        g[k][k] = 1;
    }
    g
}

/// A small ridge map mixing strokes, gaps and stray pixels.
fn sample_grid() -> Vec<Vec<u8>> {
    vec![
        vec![0, 0, 0, 0, 0, 0, 0, 0, 0, 0],
        vec![0, 1, 1, 0, 1, 1, 1, 0, 1, 0],
        vec![0, 1, 0, 0, 0, 0, 1, 0, 0, 0],
        vec![0, 1, 1, 1, 1, 1, 1, 0, 0, 0],
        vec![0, 0, 0, 0, 0, 0, 0, 0, 1, 0],
        vec![0, 1, 1, 1, 0, 1, 0, 1, 1, 0],
        vec![0, 1, 0, 0, 1, 1, 0, 1, 0, 0],
        vec![0, 0, 0, 0, 0, 0, 0, 0, 0, 0],
    ]
}

#[test]
fn all_zero_grid_is_a_no_op() {
    let g = zeros(10, 10);
    let s = skeletonize(&g).unwrap();
    assert_eq!(s, g);
    let t = thin(&g).unwrap();
    assert_eq!(t, g);
    let minutiae = mark_minutia(&g);
    assert!(minutiae.is_empty());
    let out = extract(&g).unwrap();
    assert_eq!(out, g);
}

#[test]
fn diagonal_line_survives_thinning_unchanged() {
    let g = diagonal();
    let s = skeletonize(&g).unwrap();
    assert_eq!(s, g);
}

#[test]
fn diagonal_line_has_two_ridge_endings() {
    let g = diagonal();
    let s = skeletonize(&g).unwrap();
    let minutiae = mark_minutia(&s);
    assert_eq!(
        minutiae,
        vec![
            Minutia { row: 1, col: 1, minutia_type: MinutiaType::RidgeEnding },
            Minutia { row: 8, col: 8, minutia_type: MinutiaType::RidgeEnding },
        ]
    );
}

#[test]
fn extract_on_diagonal_erases_spikes_and_false_endings() {
    // thinning leaves the diagonal; the spike pass clears its two endpoints;
    // the two remaining endings lie 5x sqrt(2) < 10 apart and are erased as a
    // false pair, leaving the four middle pixels
    let g = diagonal();
    let out = extract(&g).unwrap();
    let mut expected = zeros(10, 10);
    for k in 3..7 {
        expected[k][k] = 1;
    }
    assert_eq!(out, expected);
}

#[test]
fn skeletonize_is_idempotent_on_sample() {
    let g = sample_grid();
    let once = skeletonize(&g).unwrap();
    let twice = skeletonize(&once).unwrap();
    assert_eq!(once, twice);
}

#[test]
fn thinning_preserves_borders() {
    let mut g = vec![vec![1u8; 7]; 7];
    g[3][3] = 0;
    let t = thin(&g).unwrap();
    for i in 0..7 {
        assert_eq!(t[i][0], g[i][0]);
        assert_eq!(t[i][6], g[i][6]);
        assert_eq!(t[0][i], g[0][i]);
        assert_eq!(t[6][i], g[6][i]);
    }
}

#[test]
fn thinning_never_adds_ridge_pixels() {
    let g = sample_grid();
    let t = thin(&g).unwrap();
    assert!(ones_count(&t) <= ones_count(&g));
    let d = diagonal();
    let td = thin(&d).unwrap();
    assert!(ones_count(&td) <= ones_count(&d));
}

#[test]
fn undersized_grids_are_rejected() {
    let g = zeros(2, 10);
    assert_eq!(skeletonize(&g), Err(RidgeMapError::InvalidInput));
    assert_eq!(thin(&g), Err(RidgeMapError::InvalidInput));
    assert_eq!(extract(&g), Err(RidgeMapError::InvalidInput));
    let n = zeros(10, 2);
    assert_eq!(extract(&n), Err(RidgeMapError::InvalidInput));
}

#[test]
fn ragged_grids_are_rejected() {
    let mut g = zeros(5, 5);
    g[3].push(0);
    assert_eq!(skeletonize(&g), Err(RidgeMapError::InvalidInput));
    assert_eq!(extract(&g), Err(RidgeMapError::InvalidInput));
}

#[test]
fn every_detected_minutia_matches_its_neighbor_sum() {
    let g = thin(&sample_grid()).unwrap();
    let minutiae = mark_minutia(&g);
    for m in &minutiae {
        let mut sum = 0u32;
        for di in 0..3 {
            for dj in 0..3 {
                if di == 1 && dj == 1 {
                    continue;
                }
                sum += g[m.row + di - 1][m.col + dj - 1] as u32;
            }
        }
        match m.minutia_type {
            MinutiaType::RidgeEnding => assert_eq!(sum, 1),
            MinutiaType::Bifurcation => assert_eq!(sum, 3),
        }
    }
}

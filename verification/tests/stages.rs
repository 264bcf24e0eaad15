//! The individual pipeline stages and helpers on concrete inputs.

use bioguard::cleanup::{remove_h_breaks, remove_isolated_points, remove_spikes};
use bioguard::codec::{flatten, reconstruct};
use bioguard::grid::{binarization, get_neighbors};
use bioguard::minutiae::MinutiaType;
use bioguard::thinning::count_transitions;
use bioguard::window_thinning::{calculate_crossing_number, mark_minutiae_points, thin_ridges};

fn zeros(h: usize, w: usize) -> Vec<Vec<u8>> {
    vec![vec![0u8; w]; h]
}

#[test]
fn transitions_count_zero_to_one_steps_cyclically() {
    assert_eq!(count_transitions(&vec![0, 1, 0, 1, 0, 1, 0, 1]), 4);
    assert_eq!(count_transitions(&vec![1, 1, 1, 1, 1, 1, 1, 1]), 0);
    assert_eq!(count_transitions(&vec![0, 0, 0, 0, 0, 0, 0, 0]), 0);
    // the step from the last position back to the first counts too
    assert_eq!(count_transitions(&vec![1, 0, 0, 0, 0, 0, 0, 0]), 1);
    assert_eq!(count_transitions(&vec![0, 0, 0, 0, 0, 0, 0, 1]), 1);
}

#[test]
fn neighbors_come_clockwise_from_north() {
    let mut g = zeros(3, 3);
    g[0][1] = 1; // N
    g[0][2] = 2; // NE
    g[1][2] = 3; // E
    g[2][2] = 4; // SE
    g[2][1] = 5; // S
    g[2][0] = 6; // SW
    g[1][0] = 7; // W
    g[0][0] = 8; // NW
    assert_eq!(get_neighbors(&g, 1, 1), vec![1, 2, 3, 4, 5, 6, 7, 8]);
}

#[test]
fn binarization_thresholds_strictly() {
    let input = vec![vec![0u8, 127, 128, 129, 255], vec![128, 128, 128, 128, 128]];
    let out = binarization(input, 128);
    assert_eq!(out, vec![vec![0, 0, 0, 1, 1], vec![0, 0, 0, 0, 0]]);
}

#[test]
fn h_break_pixel_is_removed() {
    // neighborhood of (2,2) reads [N,NE,E,SE,S,SW,W,NW] = [1,0,1,0,1,1,1,0]
    let mut g = zeros(5, 5);
    g[2][2] = 1;
    g[1][2] = 1; // N
    g[2][3] = 1; // E
    g[3][2] = 1; // S
    g[3][1] = 1; // SW
    g[2][1] = 1; // W
    let mut expected = g.clone();
    expected[2][2] = 0;
    remove_h_breaks(&mut g);
    assert_eq!(g, expected);
}

#[test]
fn non_h_break_pixels_stay() {
    let mut g = zeros(5, 5);
    g[2][2] = 1;
    g[1][2] = 1;
    g[3][2] = 1;
    let before = g.clone();
    remove_h_breaks(&mut g);
    assert_eq!(g, before);
}

#[test]
fn isolated_point_is_cleared() {
    let mut g = zeros(5, 5);
    g[2][2] = 1;
    remove_isolated_points(&mut g);
    assert_eq!(g, zeros(5, 5));
}

#[test]
fn connected_pixels_are_not_isolated() {
    let mut g = zeros(5, 5);
    g[2][2] = 1;
    g[2][3] = 1;
    let before = g.clone();
    remove_isolated_points(&mut g);
    assert_eq!(g, before);
}

#[test]
fn both_ends_of_a_domino_are_spikes() {
    // each of the two pixels has exactly one ridge neighbor; both are marked
    // against the same snapshot and both are cleared
    let mut g = zeros(5, 5);
    g[2][2] = 1;
    g[2][3] = 1;
    remove_spikes(&mut g);
    assert_eq!(g, zeros(5, 5));
}

#[test]
fn an_isolated_pixel_is_not_a_spike() {
    let mut g = zeros(5, 5);
    g[2][2] = 1;
    let before = g.clone();
    remove_spikes(&mut g);
    assert_eq!(g, before);
}

#[test]
fn flatten_is_row_major() {
    let g = vec![vec![1u8, 2, 3], vec![4, 5, 6]];
    assert_eq!(flatten(g), vec![1, 2, 3, 4, 5, 6]);
}

#[test]
fn reconstruct_inverts_flatten() {
    let g = vec![vec![0u8, 1, 0, 1], vec![1, 1, 0, 0], vec![0, 0, 0, 1]];
    let flat = flatten(g.clone());
    assert_eq!(reconstruct(flat, 3, 4), g);
}

#[test]
fn reconstruct_leaves_a_short_final_row() {
    let flat = vec![1u8, 2, 3, 4, 5];
    assert_eq!(reconstruct(flat, 2, 3), vec![vec![1, 2, 3], vec![4, 5]]);
}

#[test]
fn crossing_number_counts_the_whole_window() {
    let mut g = zeros(5, 5);
    g[2][2] = 1;
    g[1][1] = 1;
    g[3][3] = 1;
    assert_eq!(calculate_crossing_number(&g, 2, 2), 3);
    // a non-ridge center always answers 0
    assert_eq!(calculate_crossing_number(&g, 2, 3), 0);
    g[2][2] = 0;
    assert_eq!(calculate_crossing_number(&g, 2, 2), 0);
}

#[test]
fn window_thinning_erases_a_redundant_block() {
    // every pixel of the 2x2 block has window count 4, so one scan clears
    // them all and the next scan stops
    let mut g = zeros(5, 5);
    g[2][2] = 1;
    g[2][3] = 1;
    g[3][2] = 1;
    g[3][3] = 1;
    thin_ridges(&mut g);
    assert_eq!(g, zeros(5, 5));
}

#[test]
fn window_thinning_keeps_sparse_pixels() {
    let mut g = zeros(5, 5);
    g[2][2] = 1;
    let before = g.clone();
    thin_ridges(&mut g);
    assert_eq!(g, before);
}

#[test]
fn window_minutiae_classify_by_window_count() {
    let mut g = zeros(6, 6);
    // an isolated ridge pixel: window count 1
    g[1][1] = 1;
    // an L-corner: the corner pixel sees itself and two neighbors
    g[3][3] = 1;
    g[3][4] = 1;
    g[4][3] = 1;
    let points = mark_minutiae_points(&g);
    assert!(points.contains(&(1, 1, MinutiaType::RidgeEnding)));
    assert!(points.contains(&(3, 3, MinutiaType::Bifurcation)));
}

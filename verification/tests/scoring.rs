//! False-minutia suppression and match scoring on concrete inputs.

use bioguard::filter::remove_false_minutia;
use bioguard::matching::{match_test, minutiae_matching};
use bioguard::minutiae::{mark_minutia, Minutia, MinutiaType};

fn zeros(h: usize, w: usize) -> Vec<Vec<u8>> {
    vec![vec![0u8; w]; h]
}

fn ending(row: usize, col: usize) -> Minutia {
    Minutia { row, col, minutia_type: MinutiaType::RidgeEnding }
}

fn bifurcation(row: usize, col: usize) -> Minutia {
    Minutia { row, col, minutia_type: MinutiaType::Bifurcation }
}

/// Eighteen well-separated ridge endings: nine dominoes, each contributing
/// its two end pixels.
fn many_endings() -> Vec<Vec<u8>> {
    let mut g = zeros(12, 16);
    for &r in &[1usize, 5, 9] {
        for &c in &[1usize, 6, 11] {
            g[r][c] = 1;
            g[r][c + 1] = 1;
        }
    }
    g
}

#[test]
fn close_endings_are_erased_from_the_image() {
    let mut g = zeros(7, 7);
    g[2][2] = 1;
    g[2][4] = 1;
    let minutiae = vec![ending(2, 2), ending(2, 4)];
    let out = remove_false_minutia(g, minutiae, 10);
    assert_eq!(out, zeros(7, 7));
}

#[test]
fn mixed_close_pair_is_erased() {
    let mut g = zeros(7, 7);
    g[1][1] = 1;
    g[5][5] = 1;
    let minutiae = vec![ending(1, 1), bifurcation(5, 5)];
    let out = remove_false_minutia(g, minutiae, 10);
    assert_eq!(out, zeros(7, 7));
}

#[test]
fn distant_minutiae_survive_the_filter() {
    let mut g = zeros(20, 20);
    g[1][1] = 1;
    g[15][15] = 1;
    let before = g.clone();
    let minutiae = vec![ending(1, 1), ending(15, 15)];
    let out = remove_false_minutia(g, minutiae, 10);
    assert_eq!(out, before);
}

#[test]
fn pair_at_exactly_the_threshold_survives() {
    // the rule demands a distance strictly below the threshold
    let mut g = zeros(14, 14);
    g[1][1] = 1;
    g[1][11] = 1;
    let before = g.clone();
    let minutiae = vec![ending(1, 1), ending(1, 11)];
    let out = remove_false_minutia(g, minutiae, 10);
    assert_eq!(out, before);
}

#[test]
fn reversed_minutia_list_erases_the_same_pixels() {
    let mut g = zeros(10, 10);
    g[1][1] = 1;
    g[1][3] = 1;
    g[8][8] = 1;
    let minutiae = vec![ending(1, 1), bifurcation(1, 3), ending(8, 8)];
    let mut reversed = minutiae.clone();
    reversed.reverse();
    let out_forward = remove_false_minutia(g.clone(), minutiae, 10);
    let out_reversed = remove_false_minutia(g, reversed, 10);
    assert_eq!(out_forward, out_reversed);
}

#[test]
fn empty_maps_yield_no_matches_and_no_match() {
    let a = zeros(10, 10);
    let b = zeros(10, 10);
    assert!(minutiae_matching(&a, &b).is_empty());
    assert!(!match_test(a, b));
}

#[test]
fn a_map_matches_its_own_copy_on_every_minutia() {
    let g = many_endings();
    let own = mark_minutia(&g);
    assert_eq!(own.len(), 18);
    let matches = minutiae_matching(&g, &g.clone());
    assert_eq!(matches, own);
    assert!(match_test(g.clone(), g));
}

#[test]
fn too_few_matches_mean_no_match() {
    let mut g = zeros(10, 10);
    g[2][2] = 1;
    g[2][3] = 1;
    let matches = minutiae_matching(&g, &g.clone());
    assert_eq!(matches.len(), 2);
    assert!(!match_test(g.clone(), g));
}

#[test]
fn disjoint_maps_do_not_match() {
    let g = many_endings();
    let empty = zeros(12, 16);
    assert!(minutiae_matching(&g, &empty).is_empty());
    assert!(!match_test(g, empty));
}

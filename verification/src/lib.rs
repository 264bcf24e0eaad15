//! Fingerprint feature extraction and matching over binary ridge maps.
//!
//! A ridge map is a rectangular grid of 0/1 pixels. The pipeline thins the
//! ridges to one-pixel-wide curves (Zhang-Suen), removes thinning artifacts,
//! classifies skeleton pixels as minutiae (ridge endings and bifurcations),
//! erases minutiae that look like noise, and finally compares two processed
//! maps by counting nearby minutia pairs.

use vstd::prelude::*;

pub mod cleanup;
pub mod codec;
pub mod filter;
pub mod grid;
pub mod matching;
pub mod minutiae;
pub mod models;
pub mod ridge_map;
pub mod thinning;
pub mod window_thinning;

use crate::filter::{cleared_at, flagged, remove_false_minutia};
use crate::grid::{
    borders_unchanged, clears_only, dims_ok, grid_binary, grid_ones, grid_wf, gv, in_interior,
    lemma_clears_only_borders, lemma_clears_only_ones, lemma_clears_only_trans,
    lemma_clears_only_wf, RidgeMapError,
};
use crate::minutiae::{grid_minutiae, lemma_minutiae_type_sum, mark_minutia};
use crate::thinning::{thin, thin_spec};

verus! {

/// Distance threshold (in pixels) under which a minutia pair counts as a
/// noise artifact during extraction.
pub open spec fn extract_distance_threshold() -> int {
    10
}

/// What `extract` computes: the thinned and cleaned map, with the source
/// pixel of every false minutia erased.
pub open spec fn extract_spec(g: Seq<Seq<u8>>) -> Seq<Seq<u8>> {
    let t = thin_spec(g);
    Seq::new(
        t.len(),
        |i: int|
            Seq::new(
                t[i].len(),
                |j: int|
                    if cleared_at(grid_minutiae(t), extract_distance_threshold(), i, j) {
                        0u8
                    } else {
                        t[i][j]
                    },
            ),
    )
}

/// The full extraction pipeline over a binary ridge map: thinning, cleanup,
/// minutia detection and false-minutia erasure. Border pixels are never
/// touched and the number of ridge pixels does not grow. Grids smaller than
/// 3x3 or with ragged rows are rejected.
pub fn extract(image: &Vec<Vec<u8>>) -> (r: Result<Vec<Vec<u8>>, RidgeMapError>)
    requires
        grid_binary(gv(image@)),
    ensures
        match r {
            Ok(out) => {
                &&& dims_ok(gv(image@))
                &&& gv(out@) == extract_spec(gv(image@))
                &&& clears_only(gv(image@), gv(out@))
                &&& borders_unchanged(gv(image@), gv(out@))
                &&& grid_wf(gv(out@))
                &&& grid_ones(gv(out@)) <= grid_ones(gv(image@))
            },
            Err(e) => e == RidgeMapError::InvalidInput && !dims_ok(gv(image@)),
        },
{
    let ghost g0 = gv(image@);
    let thinned = match thin(image) {
        Ok(t) => t,
        Err(e) => {
            return Err(e);
        },
    };
    let ghost t = gv(thinned@);
    let h = thinned.len();
    let w = thinned[0].len();
    proof {
        assert(t[0] == thinned@[0]@);
        lemma_minutiae_type_sum(t);
    }
    let minutia = mark_minutia(&thinned);
    let ghost ms = minutia@;
    proof {
        assert forall|k: int|
            0 <= k < ms.len() implies (#[trigger] ms[k]).row < thinned@.len() && ms[k].col < gv(
            thinned@,
        )[0].len() by {
            assert(in_interior(t, ms[k].row as int, ms[k].col as int));
        }
    }
    let res_image = remove_false_minutia(thinned, minutia, 10);
    proof {
        let d = extract_distance_threshold();
        let out = gv(res_image@);
        assert forall|i: int| 0 <= i < t.len() implies #[trigger] out[i] =~= extract_spec(g0)[i] by {
            assert forall|j: int| 0 <= j < t[i].len() implies out[i][j] == extract_spec(
                g0,
            )[i][j] by {
                assert(out[i][j] == (if cleared_at(ms, d, i, j) {
                    0u8
                } else {
                    t[i][j]
                }));
            }
        }
        assert(out =~= extract_spec(g0));
        assert(clears_only(t, out)) by {
            assert forall|i: int, j: int|
                0 <= i < t.len() && 0 <= j < t[i].len() implies #[trigger] out[i][j] == t[i][j] || (
            in_interior(t, i, j) && t[i][j] == 1 && out[i][j] == 0) by {
                if out[i][j] != t[i][j] {
                    assert(cleared_at(ms, d, i, j));
                    let k = choose|k: int|
                        0 <= k < ms.len() && #[trigger] flagged(ms, d, k) && ms[k].row == i
                            && ms[k].col == j;
                    assert(in_interior(t, ms[k].row as int, ms[k].col as int));
                    assert(t[ms[k].row as int][ms[k].col as int] == 1);
                }
            }
        }
        lemma_clears_only_trans(g0, t, out);
        lemma_clears_only_wf(g0, out);
        lemma_clears_only_ones(g0, out);
        lemma_clears_only_borders(g0, out);
    }
    Ok(res_image)
}

} // verus!

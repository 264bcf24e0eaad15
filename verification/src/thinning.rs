//! Ridge skeletonization: iterative Zhang-Suen thinning. Each round runs two
//! sub-passes over the interior; a sub-pass marks deletable ridge pixels
//! against a snapshot of the grid and then clears them all at once. The
//! rounds repeat until one of them deletes nothing.

use vstd::prelude::*;
use crate::grid::{
    borders_unchanged, check_dims, clears_only, copy_grid, dims_ok, get_neighbors, grid_binary,
    grid_ones, grid_rect, grid_wf, gv, in_interior, lemma_clears_only_borders,
    lemma_clears_only_ones, lemma_clears_only_trans, lemma_clears_only_wf, make_flags, nbr,
    nbr_sum8, set_cell, set_flag, sum8, bv, RidgeMapError,
};

verus! {

/// 1 when position `i` of the cyclic neighbor walk steps from a 0 to a 1.
pub open spec fn trans_at(ns: Seq<u8>, i: int) -> int {
    if ns[i] == 0 && ns[(i + 1) % (ns.len() as int)] == 1 {
        1
    } else {
        0
    }
}

/// 0-to-1 steps among the first `k` positions of the cyclic walk.
pub open spec fn trans_upto(ns: Seq<u8>, k: int) -> int
    decreases k,
{
    if k <= 0 {
        0
    } else {
        trans_upto(ns, k - 1) + trans_at(ns, k - 1)
    }
}

/// Number of positions `i` with `ns[i] == 0` directly followed (cyclically)
/// by `ns[i+1] == 1`. The count deliberately looks only at 0-then-1 steps,
/// not at symmetric crossings.
pub open spec fn transitions(ns: Seq<u8>) -> int {
    trans_upto(ns, ns.len() as int)
}

/// Counts the 0-to-1 transitions walking the neighbor vector cyclically.
#[verifier::loop_isolation(false)]
pub fn count_transitions(neighbors: &Vec<u8>) -> (count: usize)
    ensures
        count == transitions(neighbors@),
{
    let n = neighbors.len();
    let mut count: usize = 0;
    let mut i: usize = 0;
    while i < n
        invariant
            i <= n,
            count <= i,
            count == trans_upto(neighbors@, i as int),
        decreases n - i,
    {
        if neighbors[i] == 0 && neighbors[(i + 1) % n] == 1 {
            count += 1;
        }
        i += 1;
    }
    count
}

/// The deletion condition of a thinning sub-pass at interior pixel `(i, j)`:
/// the neighbor sum lies in `[2, 6]`, the cyclic walk has exactly one 0-to-1
/// transition, and two direction products vanish (which pair depends on the
/// sub-pass).
pub open spec fn zs_cond(g: Seq<Seq<u8>>, i: int, j: int, second: bool) -> bool {
    let ns = nbr(g, i, j);
    &&& 2 <= nbr_sum8(ns) <= 6
    &&& transitions(ns) == 1
    &&& if !second {
        ns[0] * ns[2] * ns[4] == 0 && ns[2] * ns[4] * ns[6] == 0
    } else {
        ns[0] * ns[2] * ns[6] == 0 && ns[0] * ns[4] * ns[6] == 0
    }
}

/// One thinning sub-pass: every interior ridge pixel that meets the deletion
/// condition on the snapshot `g` is cleared; everything else is kept.
pub open spec fn zs_pass(g: Seq<Seq<u8>>, second: bool) -> Seq<Seq<u8>> {
    Seq::new(
        g.len(),
        |i: int|
            Seq::new(
                g[i].len(),
                |j: int|
                    if in_interior(g, i, j) && g[i][j] == 1 && zs_cond(g, i, j, second) {
                        0u8
                    } else {
                        g[i][j]
                    },
            ),
    )
}

/// One full thinning round: sub-pass A, then sub-pass B on A's output.
pub open spec fn zs_round(g: Seq<Seq<u8>>) -> Seq<Seq<u8>> {
    zs_pass(zs_pass(g, false), true)
}

/// The grid is a fixed point of thinning: a further round changes nothing.
pub open spec fn zs_fixed(g: Seq<Seq<u8>>) -> bool {
    zs_round(g) == g
}

/// A sub-pass only clears interior ridge pixels and keeps the grid's shape.
pub proof fn lemma_zs_pass_clears(g: Seq<Seq<u8>>, second: bool)
    ensures
        clears_only(g, zs_pass(g, second)),
        zs_pass(g, second).len() == g.len(),
        forall|i: int| 0 <= i < g.len() ==> #[trigger] zs_pass(g, second)[i].len() == g[i].len(),
{
    let p = zs_pass(g, second);
    assert forall|i: int| 0 <= i < g.len() implies #[trigger] p[i].len() == g[i].len() by {}
    assert forall|i: int, j: int| 0 <= i < g.len() && 0 <= j < g[i].len() implies #[trigger] p[i][j]
        == g[i][j] || (in_interior(g, i, j) && g[i][j] == 1 && p[i][j] == 0) by {}
}

/// A full round only clears interior ridge pixels.
pub proof fn lemma_zs_round_clears(g: Seq<Seq<u8>>)
    ensures
        clears_only(g, zs_round(g)),
{
    lemma_zs_pass_clears(g, false);
    lemma_zs_pass_clears(zs_pass(g, false), true);
    lemma_clears_only_trans(g, zs_pass(g, false), zs_round(g));
}

/// Thinning to the fixed point: rounds are applied until one changes
/// nothing. Terminates because every changing round clears at least one
/// ridge pixel.
pub open spec fn zs_fix(g: Seq<Seq<u8>>) -> Seq<Seq<u8>>
    decreases grid_ones(g),
    via zs_fix_decreases
{
    if zs_round(g) == g {
        g
    } else {
        zs_fix(zs_round(g))
    }
}

#[via_fn]
proof fn zs_fix_decreases(g: Seq<Seq<u8>>) {
    if zs_round(g) != g {
        lemma_zs_round_clears(g);
        lemma_clears_only_ones(g, zs_round(g));
    }
}

/// The thinned grid only lost interior ridge pixels.
pub proof fn lemma_zs_fix_clears(g: Seq<Seq<u8>>)
    ensures
        clears_only(g, zs_fix(g)),
    decreases grid_ones(g),
{
    lemma_zs_round_clears(g);
    if zs_round(g) == g {
    } else {
        lemma_clears_only_ones(g, zs_round(g));
        lemma_zs_fix_clears(zs_round(g));
        lemma_clears_only_trans(g, zs_round(g), zs_fix(zs_round(g)));
    }
}

/// The thinned grid is a fixed point: one more round changes nothing.
pub proof fn lemma_zs_fix_fixed(g: Seq<Seq<u8>>)
    ensures
        zs_fixed(zs_fix(g)),
    decreases grid_ones(g),
{
    if zs_round(g) == g {
    } else {
        lemma_zs_round_clears(g);
        lemma_clears_only_ones(g, zs_round(g));
        lemma_zs_fix_fixed(zs_round(g));
    }
}

/// Idempotence of thinning: running the skeletonizer on its own output
/// produces no further change.
pub proof fn lemma_thinning_idempotent(g: Seq<Seq<u8>>)
    ensures
        zs_fix(zs_fix(g)) == zs_fix(g),
{
    lemma_zs_fix_fixed(g);
}

/// A product of three integers vanishes exactly when one factor does.
proof fn lemma_prod3_zero(a: int, b: int, c: int)
    ensures
        (a * b * c == 0) <==> (a == 0 || b == 0 || c == 0),
{
    assert((a * b * c == 0) <==> (a == 0 || b == 0 || c == 0)) by (nonlinear_arith);
}

/// The pixel a sub-pass deletes: an interior ridge pixel meeting the
/// deletion condition.
pub open spec fn zs_marks(g: Seq<Seq<u8>>, i: int, j: int, second: bool) -> bool {
    in_interior(g, i, j) && g[i][j] == 1 && zs_cond(g, i, j, second)
}

/// Runs one thinning sub-pass in place: marks every deletable interior ridge
/// pixel against a snapshot of the grid, then clears all marked pixels.
/// Returns whether anything changed.
#[verifier::loop_isolation(false)]
fn zs_subpass(image: &mut Vec<Vec<u8>>, second: bool) -> (changed: bool)
    requires
        grid_wf(gv(old(image)@)),
    ensures
        gv(final(image)@) == zs_pass(gv(old(image)@), second),
        changed == (gv(final(image)@) != gv(old(image)@)),
{
    let ghost g = gv(image@);
    let h = image.len();
    let w = image[0].len();
    proof {
        assert(gv(image@)[0] == image@[0]@);
    }
    let mut to_del = make_flags(h, w);
    let mut changed = false;

    // mark every deletable pixel against the snapshot
    let mut i: usize = 1;
    while i < h - 1
        invariant
            1 <= i <= h - 1,
            gv(image@) == g,
            to_del@.len() == h,
            forall|i2: int| 0 <= i2 < h ==> (#[trigger] bv(to_del@)[i2]).len() == w,
            forall|i2: int, j2: int|
                0 <= i2 < h && 0 <= j2 < w ==> #[trigger] bv(to_del@)[i2][j2] == (zs_marks(
                    g,
                    i2,
                    j2,
                    second,
                ) && i2 < i),
            changed == exists|i2: int, j2: int|
                0 <= i2 < h && 0 <= j2 < w && #[trigger] bv(to_del@)[i2][j2],
        decreases h - i,
    {
        let mut j: usize = 1;
        while j < w - 1
            invariant
                1 <= j <= w - 1,
                gv(image@) == g,
                to_del@.len() == h,
                forall|i2: int| 0 <= i2 < h ==> (#[trigger] bv(to_del@)[i2]).len() == w,
                forall|i2: int, j2: int|
                    0 <= i2 < h && 0 <= j2 < w ==> #[trigger] bv(to_del@)[i2][j2] == (zs_marks(
                        g,
                        i2,
                        j2,
                        second,
                    ) && (i2 < i || (i2 == i && j2 < j))),
                changed == exists|i2: int, j2: int|
                    0 <= i2 < h && 0 <= j2 < w && #[trigger] bv(to_del@)[i2][j2],
            decreases w - j,
        {
            proof {
                assert(gv(image@)[i as int] == image@[i as int]@);
            }
            let ghost marks_before = bv(to_del@);
            let deletable = image[i][j] == 1 && (if second {
                step2(image, i, j)
            } else {
                step1(image, i, j)
            });
            if deletable {
                set_flag(&mut to_del, i, j, true);
                changed = true;
            }
            proof {
                let ii = i as int;
                let jj = j as int;
                assert forall|i2: int, j2: int|
                    0 <= i2 < h && 0 <= j2 < w implies #[trigger] bv(to_del@)[i2][j2] == (zs_marks(
                    g,
                    i2,
                    j2,
                    second,
                ) && (i2 < ii || (i2 == ii && j2 < jj + 1))) by {
                    if deletable {
                        if i2 == ii && j2 == jj {
                            assert(bv(to_del@)[i2][j2]);
                            assert(zs_marks(g, i2, j2, second));
                        } else {
                            assert(bv(to_del@)[i2][j2] == marks_before[i2][j2]);
                        }
                    } else {
                        assert(bv(to_del@)[i2][j2] == marks_before[i2][j2]);
                        if i2 == ii && j2 == jj {
                            assert(!zs_marks(g, i2, j2, second));
                        }
                    }
                }
                if deletable {
                    assert(bv(to_del@)[i as int][j as int]);
                }
            }
            j += 1;
        }
        i += 1;
    }
    proof {
        assert forall|i2: int, j2: int|
            0 <= i2 < h && 0 <= j2 < w implies #[trigger] bv(to_del@)[i2][j2] == zs_marks(
            g,
            i2,
            j2,
            second,
        ) by {
            if zs_marks(g, i2, j2, second) {
                assert(in_interior(g, i2, j2));
                assert(i2 < i);
            }
        }
    }

    // clear every marked pixel
    let mut i: usize = 0;
    while i < h
        invariant
            i <= h,
            image@.len() == h,
            forall|i2: int| 0 <= i2 < h ==> #[trigger] gv(image@)[i2].len() == g[i2].len(),
            forall|i2: int, j2: int|
                0 <= i2 < h && 0 <= j2 < g[i2].len() ==> #[trigger] gv(image@)[i2][j2] == (if
                zs_marks(g, i2, j2, second) && i2 < i {
                    0u8
                } else {
                    g[i2][j2]
                }),
        decreases h - i,
    {
        let mut j: usize = 0;
        while j < w
            invariant
                j <= w,
                image@.len() == h,
                forall|i2: int| 0 <= i2 < h ==> #[trigger] gv(image@)[i2].len() == g[i2].len(),
                forall|i2: int, j2: int|
                    0 <= i2 < h && 0 <= j2 < g[i2].len() ==> #[trigger] gv(image@)[i2][j2] == (if
                    zs_marks(g, i2, j2, second) && (i2 < i || (i2 == i && j2 < j)) {
                        0u8
                    } else {
                        g[i2][j2]
                    }),
            decreases w - j,
        {
            let ghost before = gv(image@);
            proof {
                assert(bv(to_del@)[i as int] == to_del@[i as int]@);
            }
            if to_del[i][j] {
                proof {
                    assert(gv(image@)[i as int].len() == g[i as int].len());
                    assert(g[i as int].len() == g[0].len());
                }
                set_cell(image, i, j, 0u8);
            }
            proof {
                let ii = i as int;
                let jj = j as int;
                assert(bv(to_del@)[ii] == to_del@[ii]@);
                assert forall|i2: int, j2: int|
                    0 <= i2 < h && 0 <= j2 < g[i2].len() implies #[trigger] gv(image@)[i2][j2] == (
                if zs_marks(g, i2, j2, second) && (i2 < ii || (i2 == ii && j2 < jj + 1)) {
                    0u8
                } else {
                    g[i2][j2]
                }) by {
                    if bv(to_del@)[ii][jj] {
                        if i2 == ii {
                            assert(gv(image@)[i2] == before[i2].update(jj, 0u8));
                        } else {
                            assert(gv(image@)[i2] == before[i2]);
                        }
                    } else {
                        assert(gv(image@)[i2] == before[i2]);
                        if i2 == ii && j2 == jj {
                            assert(!zs_marks(g, i2, j2, second));
                        }
                    }
                }
            }
            j += 1;
        }
        i += 1;
    }

    // what remains is exactly the sub-pass applied to the snapshot
    proof {
        assert forall|i2: int| 0 <= i2 < h implies #[trigger] gv(image@)[i2] =~= zs_pass(
            g,
            second,
        )[i2] by {
            assert forall|j2: int| 0 <= j2 < g[i2].len() implies gv(image@)[i2][j2] == zs_pass(
                g,
                second,
            )[i2][j2] by {
                assert(gv(image@)[i2][j2] == (if zs_marks(g, i2, j2, second) {
                    0u8
                } else {
                    g[i2][j2]
                }));
            }
        }
        assert(gv(image@) =~= zs_pass(g, second));
        if changed {
            let (i2, j2) = choose|i2: int, j2: int|
                0 <= i2 < h && 0 <= j2 < w && #[trigger] bv(to_del@)[i2][j2];
            assert(zs_marks(g, i2, j2, second));
            assert(gv(image@)[i2][j2] == 0 && g[i2][j2] == 1);
        } else {
            assert forall|i2: int| 0 <= i2 < h implies #[trigger] gv(image@)[i2] =~= g[i2] by {
                assert forall|j2: int| 0 <= j2 < g[i2].len() implies gv(image@)[i2][j2]
                    == g[i2][j2] by {
                    assert(!bv(to_del@)[i2][j2]);
                }
            }
            assert(gv(image@) =~= g);
        }
    }
    changed
}

/// Thins the ridges of a binary map to one-pixel-wide curves with repeated
/// Zhang-Suen rounds, stopping at the first round that deletes nothing. The
/// result is the unique thinning fixed point reached from the input; borders
/// are untouched. Grids smaller than 3x3 or with ragged rows are rejected.
#[verifier::loop_isolation(false)]
pub fn skeletonize(image: &Vec<Vec<u8>>) -> (r: Result<Vec<Vec<u8>>, RidgeMapError>)
    requires
        grid_binary(gv(image@)),
    ensures
        match r {
            Ok(s) => {
                &&& dims_ok(gv(image@))
                &&& gv(s@) == zs_fix(gv(image@))
                &&& zs_fixed(gv(s@))
                &&& clears_only(gv(image@), gv(s@))
                &&& borders_unchanged(gv(image@), gv(s@))
            },
            Err(e) => e == RidgeMapError::InvalidInput && !dims_ok(gv(image@)),
        },
{
    if !check_dims(image) {
        return Err(RidgeMapError::InvalidInput);
    }
    proof {
        lemma_zs_fix_clears(gv(image@));
        lemma_clears_only_borders(gv(image@), zs_fix(gv(image@)));
        lemma_zs_fix_fixed(gv(image@));
    }
    let ghost g0 = gv(image@);
    let mut img = copy_grid(image);
    let mut done = false;
    while !done
        invariant
            grid_wf(gv(img@)),
            gv(img@).len() == g0.len(),
            gv(img@)[0].len() == g0[0].len(),
            zs_fix(gv(img@)) == zs_fix(g0),
            done ==> gv(img@) == zs_fix(g0),
        decreases grid_ones(gv(img@)), (if done {
            0int
        } else {
            1int
        }),
    {
        let ghost before = gv(img@);
        let changed1 = zs_subpass(&mut img, false);
        let ghost mid = gv(img@);
        let changed2 = zs_subpass(&mut img, true);
        proof {
            assert(gv(img@) == zs_round(before));
            lemma_zs_round_clears(before);
            lemma_clears_only_wf(before, gv(img@));
            if zs_round(before) == before {
            } else {
                assert(zs_fix(before) == zs_fix(zs_round(before)));
            }
            lemma_zs_pass_clears(before, false);
            lemma_clears_only_ones(before, mid);
            lemma_zs_pass_clears(mid, true);
            lemma_clears_only_ones(mid, gv(img@));
        }
        if !changed1 && !changed2 {
            proof {
                assert(mid == before);
                assert(gv(img@) == before);
                assert(zs_fixed(before));
                assert(zs_fix(before) == before);
            }
            done = true;
        }
    }
    Ok(img)
}

/// What `thin` computes: the Zhang-Suen fixed point, then H-break removal to
/// its own fixed point, then one isolated-point pass and one spike pass.
pub open spec fn thin_spec(g: Seq<Seq<u8>>) -> Seq<Seq<u8>> {
    crate::cleanup::spike_pass(crate::cleanup::iso_pass(crate::cleanup::hb_fix(zs_fix(g))))
}

/// The full thinned map only lost interior ridge pixels: borders are
/// untouched and the 1-pixel count does not grow.
pub proof fn lemma_thin_spec_clears(g: Seq<Seq<u8>>)
    requires
        grid_wf(g),
    ensures
        clears_only(g, thin_spec(g)),
        grid_wf(thin_spec(g)),
        grid_ones(thin_spec(g)) <= grid_ones(g),
{
    let a = zs_fix(g);
    let b = crate::cleanup::hb_fix(a);
    let c = crate::cleanup::iso_pass(b);
    let d = crate::cleanup::spike_pass(c);
    lemma_zs_fix_clears(g);
    lemma_clears_only_wf(g, a);
    crate::cleanup::lemma_hb_fix_clears(a);
    lemma_clears_only_wf(a, b);
    crate::cleanup::lemma_cleanup_map_clears(b, crate::cleanup::CleanupKind::Isolated);
    lemma_clears_only_wf(b, c);
    crate::cleanup::lemma_cleanup_map_clears(c, crate::cleanup::CleanupKind::Spike);
    lemma_clears_only_wf(c, d);
    lemma_clears_only_trans(g, a, b);
    lemma_clears_only_trans(g, b, c);
    lemma_clears_only_trans(g, c, d);
    lemma_clears_only_ones(g, d);
}

/// Thins the ridges with Zhang-Suen rounds until a fixed point, then applies
/// the three cleanup passes: H-break removal (to its own fixed point), one
/// isolated-point pass, one spike pass. Borders are untouched and the number
/// of ridge pixels does not grow. Grids smaller than 3x3 or with ragged rows
/// are rejected.
pub fn thin(image: &Vec<Vec<u8>>) -> (r: Result<Vec<Vec<u8>>, RidgeMapError>)
    requires
        grid_binary(gv(image@)),
    ensures
        match r {
            Ok(t) => {
                &&& dims_ok(gv(image@))
                &&& gv(t@) == thin_spec(gv(image@))
                &&& clears_only(gv(image@), gv(t@))
                &&& borders_unchanged(gv(image@), gv(t@))
                &&& grid_wf(gv(t@))
                &&& grid_ones(gv(t@)) <= grid_ones(gv(image@))
            },
            Err(e) => e == RidgeMapError::InvalidInput && !dims_ok(gv(image@)),
        },
{
    let ghost g0 = gv(image@);
    let mut img = match skeletonize(image) {
        Ok(s) => s,
        Err(e) => {
            return Err(e);
        },
    };
    proof {
        lemma_zs_fix_clears(g0);
        lemma_clears_only_wf(g0, gv(img@));
    }
    crate::cleanup::remove_h_breaks(&mut img);
    proof {
        crate::cleanup::lemma_hb_fix_clears(zs_fix(g0));
        lemma_clears_only_wf(zs_fix(g0), gv(img@));
    }
    crate::cleanup::remove_isolated_points(&mut img);
    proof {
        crate::cleanup::lemma_cleanup_map_clears(
            crate::cleanup::hb_fix(zs_fix(g0)),
            crate::cleanup::CleanupKind::Isolated,
        );
        lemma_clears_only_wf(crate::cleanup::hb_fix(zs_fix(g0)), gv(img@));
    }
    crate::cleanup::remove_spikes(&mut img);
    proof {
        lemma_thin_spec_clears(g0);
        lemma_clears_only_borders(g0, gv(img@));
    }
    Ok(img)
}

/// The first sub-pass deletion conditions at interior pixel `(x, y)`.
fn step1(image: &Vec<Vec<u8>>, x: usize, y: usize) -> (r: bool)
    requires
        grid_rect(gv(image@)),
        in_interior(gv(image@), x as int, y as int),
    ensures
        r == zs_cond(gv(image@), x as int, y as int, false),
{
    let neighbors = get_neighbors(image, x, y);
    let transition_count = count_transitions(&neighbors);
    let neighbor_count = sum8(&neighbors);
    proof {
        let ns = nbr(gv(image@), x as int, y as int);
        lemma_prod3_zero(ns[0] as int, ns[2] as int, ns[4] as int);
        lemma_prod3_zero(ns[2] as int, ns[4] as int, ns[6] as int);
    }
    neighbor_count >= 2 && neighbor_count <= 6 && transition_count == 1 && (neighbors[0] == 0
        || neighbors[2] == 0 || neighbors[4] == 0) && (neighbors[2] == 0 || neighbors[4] == 0
        || neighbors[6] == 0)
}

/// The second sub-pass deletion conditions at interior pixel `(x, y)`.
fn step2(image: &Vec<Vec<u8>>, x: usize, y: usize) -> (r: bool)
    requires
        grid_rect(gv(image@)),
        in_interior(gv(image@), x as int, y as int),
    ensures
        r == zs_cond(gv(image@), x as int, y as int, true),
{
    let neighbors = get_neighbors(image, x, y);
    let transition_count = count_transitions(&neighbors);
    let neighbor_count = sum8(&neighbors);
    proof {
        let ns = nbr(gv(image@), x as int, y as int);
        lemma_prod3_zero(ns[0] as int, ns[2] as int, ns[6] as int);
        lemma_prod3_zero(ns[0] as int, ns[4] as int, ns[6] as int);
    }
    neighbor_count >= 2 && neighbor_count <= 6 && transition_count == 1 && (neighbors[0] == 0
        || neighbors[2] == 0 || neighbors[6] == 0) && (neighbors[0] == 0 || neighbors[4] == 0
        || neighbors[6] == 0)
}

} // verus!

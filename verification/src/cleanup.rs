//! Skeleton cleanup: three morphological passes over the thinned map, in
//! fixed order. H-break removal repeats until a full scan removes nothing;
//! isolated-point removal and spike removal each run exactly once, so a
//! pixel newly isolated by a removed spike is deliberately not re-checked.

use vstd::prelude::*;
use crate::grid::{
    clears_only, get_neighbors, grid_ones, grid_wf, gv, in_interior,
    lemma_clears_only_ones, lemma_clears_only_wf, make_flags, nbr, neighbor_sum, set_cell,
    set_flag, sum8, bv,
};

verus! {

/// Reference neighborhood of an H-break pixel.
pub open spec fn hb_pattern_a() -> Seq<u8> {
    seq![1u8, 0u8, 1u8, 0u8, 1u8, 1u8, 1u8, 0u8]
}

/// The same H-break neighborhood, rotated.
pub open spec fn hb_pattern_b() -> Seq<u8> {
    seq![1u8, 1u8, 1u8, 0u8, 1u8, 0u8, 1u8, 0u8]
}

/// The neighborhood of `(i, j)` exactly matches one of the two H-break
/// patterns (positional match, not rotation-invariant beyond these two).
pub open spec fn hb_cond(g: Seq<Seq<u8>>, i: int, j: int) -> bool {
    nbr(g, i, j) == hb_pattern_a() || nbr(g, i, j) == hb_pattern_b()
}

/// Which of the three cleanup conditions a pass removes.
#[derive(Clone, Copy, Debug, PartialEq, Eq, Structural)]
pub enum CleanupKind {
    /// The neighborhood matches an H-break pattern.
    HBreak,
    /// All 8 neighbors are 0: the pixel is noise, not part of any ridge.
    Isolated,
    /// Exactly 1 neighbor is 1: a dangling one-pixel protrusion.
    Spike,
}

/// The removal condition of a cleanup pass at interior pixel `(i, j)`.
pub open spec fn cleanup_cond(g: Seq<Seq<u8>>, i: int, j: int, kind: CleanupKind) -> bool {
    match kind {
        CleanupKind::HBreak => hb_cond(g, i, j),
        CleanupKind::Isolated => neighbor_sum(g, i, j) == 0,
        CleanupKind::Spike => neighbor_sum(g, i, j) == 1,
    }
}

/// One cleanup pass: every interior ridge pixel meeting the condition on the
/// snapshot `g` is cleared; everything else is kept.
pub open spec fn cleanup_map(g: Seq<Seq<u8>>, kind: CleanupKind) -> Seq<Seq<u8>> {
    Seq::new(
        g.len(),
        |i: int|
            Seq::new(
                g[i].len(),
                |j: int|
                    if in_interior(g, i, j) && g[i][j] == 1 && cleanup_cond(g, i, j, kind) {
                        0u8
                    } else {
                        g[i][j]
                    },
            ),
    )
}

/// One scan of the isolated-point pass.
pub open spec fn iso_pass(g: Seq<Seq<u8>>) -> Seq<Seq<u8>> {
    cleanup_map(g, CleanupKind::Isolated)
}

/// One scan of the spike pass.
pub open spec fn spike_pass(g: Seq<Seq<u8>>) -> Seq<Seq<u8>> {
    cleanup_map(g, CleanupKind::Spike)
}

/// One scan of the H-break pass.
pub open spec fn hb_pass(g: Seq<Seq<u8>>) -> Seq<Seq<u8>> {
    cleanup_map(g, CleanupKind::HBreak)
}

/// A cleanup pass only clears interior ridge pixels and keeps the shape.
pub proof fn lemma_cleanup_map_clears(g: Seq<Seq<u8>>, kind: CleanupKind)
    ensures
        clears_only(g, cleanup_map(g, kind)),
        cleanup_map(g, kind).len() == g.len(),
        forall|i: int| 0 <= i < g.len() ==> #[trigger] cleanup_map(g, kind)[i].len() == g[i].len(),
{
    let p = cleanup_map(g, kind);
    assert forall|i: int| 0 <= i < g.len() implies #[trigger] p[i].len() == g[i].len() by {}
    assert forall|i: int, j: int| 0 <= i < g.len() && 0 <= j < g[i].len() implies #[trigger] p[i][j]
        == g[i][j] || (in_interior(g, i, j) && g[i][j] == 1 && p[i][j] == 0) by {}
}

/// H-break removal to the fixed point: scans repeat until one removes
/// nothing. Terminates because every changing scan clears a ridge pixel.
pub open spec fn hb_fix(g: Seq<Seq<u8>>) -> Seq<Seq<u8>>
    decreases grid_ones(g),
    via hb_fix_decreases
{
    if hb_pass(g) == g {
        g
    } else {
        hb_fix(hb_pass(g))
    }
}

#[via_fn]
proof fn hb_fix_decreases(g: Seq<Seq<u8>>) {
    if hb_pass(g) != g {
        lemma_cleanup_map_clears(g, CleanupKind::HBreak);
        lemma_clears_only_ones(g, hb_pass(g));
    }
}

/// H-break removal only loses interior ridge pixels.
pub proof fn lemma_hb_fix_clears(g: Seq<Seq<u8>>)
    ensures
        clears_only(g, hb_fix(g)),
    decreases grid_ones(g),
{
    lemma_cleanup_map_clears(g, CleanupKind::HBreak);
    if hb_pass(g) == g {
    } else {
        lemma_clears_only_ones(g, hb_pass(g));
        lemma_hb_fix_clears(hb_pass(g));
        crate::grid::lemma_clears_only_trans(g, hb_pass(g), hb_fix(hb_pass(g)));
    }
}

/// Decides whether the neighborhood of interior pixel `(x, y)` matches one
/// of the two H-break reference patterns.
pub fn is_h_break(image: &Vec<Vec<u8>>, x: usize, y: usize) -> (r: bool)
    requires
        crate::grid::grid_rect(gv(image@)),
        in_interior(gv(image@), x as int, y as int),
    ensures
        r == hb_cond(gv(image@), x as int, y as int),
{
    let ns = get_neighbors(image, x, y);
    let m_a = ns[0] == 1 && ns[1] == 0 && ns[2] == 1 && ns[3] == 0 && ns[4] == 1 && ns[5] == 1
        && ns[6] == 1 && ns[7] == 0;
    let m_b = ns[0] == 1 && ns[1] == 1 && ns[2] == 1 && ns[3] == 0 && ns[4] == 1 && ns[5] == 0
        && ns[6] == 1 && ns[7] == 0;
    proof {
        if m_a {
            assert(ns@ =~= hb_pattern_a());
        } else {
            assert(ns@ != hb_pattern_a()) by {
                if ns@ == hb_pattern_a() {
                    assert(ns@[0] == 1 && ns@[1] == 0 && ns@[2] == 1 && ns@[3] == 0 && ns@[4] == 1
                        && ns@[5] == 1 && ns@[6] == 1 && ns@[7] == 0);
                }
            }
        }
        if m_b {
            assert(ns@ =~= hb_pattern_b());
        } else {
            assert(ns@ != hb_pattern_b()) by {
                if ns@ == hb_pattern_b() {
                    assert(ns@[0] == 1 && ns@[1] == 1 && ns@[2] == 1 && ns@[3] == 0 && ns@[4] == 1
                        && ns@[5] == 0 && ns@[6] == 1 && ns@[7] == 0);
                }
            }
        }
    }
    m_a || m_b
}

/// All 8 neighbors of interior pixel `(x, y)` are 0.
pub fn is_isolated(image: &Vec<Vec<u8>>, x: usize, y: usize) -> (r: bool)
    requires
        crate::grid::grid_rect(gv(image@)),
        in_interior(gv(image@), x as int, y as int),
    ensures
        r == (neighbor_sum(gv(image@), x as int, y as int) == 0),
{
    let ns = get_neighbors(image, x, y);
    sum8(&ns) == 0
}

/// Exactly 1 neighbor of interior pixel `(x, y)` is 1.
pub fn is_spike(image: &Vec<Vec<u8>>, x: usize, y: usize) -> (r: bool)
    requires
        crate::grid::grid_rect(gv(image@)),
        in_interior(gv(image@), x as int, y as int),
    ensures
        r == (neighbor_sum(gv(image@), x as int, y as int) == 1),
{
    let ns = get_neighbors(image, x, y);
    sum8(&ns) == 1
}

/// Runs one cleanup pass in place: marks every interior ridge pixel meeting
/// the condition against a snapshot of the grid, then clears all marked
/// pixels. Returns whether anything changed.
#[verifier::loop_isolation(false)]
fn cleanup_pass(image: &mut Vec<Vec<u8>>, kind: CleanupKind) -> (changed: bool)
    requires
        grid_wf(gv(old(image)@)),
    ensures
        gv(final(image)@) == cleanup_map(gv(old(image)@), kind),
        changed == (gv(final(image)@) != gv(old(image)@)),
{
    let ghost g = gv(image@);
    let h = image.len();
    let w = image[0].len();
    proof {
        assert(gv(image@)[0] == image@[0]@);
    }
    let mut to_del = make_flags(h, w);
    let mut changed = false;

    // mark every removable pixel against the snapshot
    let mut i: usize = 1;
    while i < h - 1
        invariant
            1 <= i <= h - 1,
            gv(image@) == g,
            to_del@.len() == h,
            forall|i2: int| 0 <= i2 < h ==> (#[trigger] bv(to_del@)[i2]).len() == w,
            forall|i2: int, j2: int|
                0 <= i2 < h && 0 <= j2 < w ==> #[trigger] bv(to_del@)[i2][j2] == (in_interior(
                    g,
                    i2,
                    j2,
                ) && g[i2][j2] == 1 && cleanup_cond(g, i2, j2, kind) && i2 < i),
            changed == exists|i2: int, j2: int|
                0 <= i2 < h && 0 <= j2 < w && #[trigger] bv(to_del@)[i2][j2],
        decreases h - i,
    {
        let mut j: usize = 1;
        while j < w - 1
            invariant
                1 <= j <= w - 1,
                gv(image@) == g,
                to_del@.len() == h,
                forall|i2: int| 0 <= i2 < h ==> (#[trigger] bv(to_del@)[i2]).len() == w,
                forall|i2: int, j2: int|
                    0 <= i2 < h && 0 <= j2 < w ==> #[trigger] bv(to_del@)[i2][j2] == (in_interior(
                        g,
                        i2,
                        j2,
                    ) && g[i2][j2] == 1 && cleanup_cond(g, i2, j2, kind) && (i2 < i || (i2 == i
                        && j2 < j))),
                changed == exists|i2: int, j2: int|
                    0 <= i2 < h && 0 <= j2 < w && #[trigger] bv(to_del@)[i2][j2],
            decreases w - j,
        {
            proof {
                assert(gv(image@)[i as int] == image@[i as int]@);
            }
            let ghost marks_before = bv(to_del@);
            let removable = image[i][j] == 1 && (match kind {
                CleanupKind::HBreak => is_h_break(image, i, j),
                CleanupKind::Isolated => is_isolated(image, i, j),
                CleanupKind::Spike => is_spike(image, i, j),
            });
            if removable {
                set_flag(&mut to_del, i, j, true);
                changed = true;
            }
            proof {
                let ii = i as int;
                let jj = j as int;
                assert forall|i2: int, j2: int|
                    0 <= i2 < h && 0 <= j2 < w implies #[trigger] bv(to_del@)[i2][j2]
                    == (in_interior(g, i2, j2) && g[i2][j2] == 1 && cleanup_cond(g, i2, j2, kind)
                    && (i2 < ii || (i2 == ii && j2 < jj + 1))) by {
                    if removable {
                        if i2 == ii && j2 == jj {
                            assert(bv(to_del@)[i2][j2]);
                        } else {
                            assert(bv(to_del@)[i2][j2] == marks_before[i2][j2]);
                        }
                    } else {
                        assert(bv(to_del@)[i2][j2] == marks_before[i2][j2]);
                    }
                }
                if removable {
                    assert(bv(to_del@)[i as int][j as int]);
                }
            }
            j += 1;
        }
        i += 1;
    }
    proof {
        assert forall|i2: int, j2: int|
            0 <= i2 < h && 0 <= j2 < w implies #[trigger] bv(to_del@)[i2][j2] == (in_interior(
            g,
            i2,
            j2,
        ) && g[i2][j2] == 1 && cleanup_cond(g, i2, j2, kind)) by {
            if in_interior(g, i2, j2) {
                assert(i2 < i);
            }
        }
    }

    // clear every marked pixel
    let mut i: usize = 0;
    while i < h
        invariant
            i <= h,
            image@.len() == h,
            forall|i2: int| 0 <= i2 < h ==> #[trigger] gv(image@)[i2].len() == g[i2].len(),
            forall|i2: int, j2: int|
                0 <= i2 < h && 0 <= j2 < g[i2].len() ==> #[trigger] gv(image@)[i2][j2] == (if
                in_interior(g, i2, j2) && g[i2][j2] == 1 && cleanup_cond(g, i2, j2, kind) && i2
                    < i {
                    0u8
                } else {
                    g[i2][j2]
                }),
        decreases h - i,
    {
        let mut j: usize = 0;
        while j < w
            invariant
                j <= w,
                image@.len() == h,
                forall|i2: int| 0 <= i2 < h ==> #[trigger] gv(image@)[i2].len() == g[i2].len(),
                forall|i2: int, j2: int|
                    0 <= i2 < h && 0 <= j2 < g[i2].len() ==> #[trigger] gv(image@)[i2][j2] == (if
                    in_interior(g, i2, j2) && g[i2][j2] == 1 && cleanup_cond(g, i2, j2, kind) && (i2
                        < i || (i2 == i && j2 < j)) {
                        0u8
                    } else {
                        g[i2][j2]
                    }),
            decreases w - j,
        {
            let ghost before = gv(image@);
            proof {
                assert(bv(to_del@)[i as int] == to_del@[i as int]@);
            }
            if to_del[i][j] {
                proof {
                    assert(gv(image@)[i as int].len() == g[i as int].len());
                    assert(g[i as int].len() == g[0].len());
                }
                set_cell(image, i, j, 0u8);
            }
            proof {
                let ii = i as int;
                let jj = j as int;
                assert forall|i2: int, j2: int|
                    0 <= i2 < h && 0 <= j2 < g[i2].len() implies #[trigger] gv(image@)[i2][j2] == (
                if in_interior(g, i2, j2) && g[i2][j2] == 1 && cleanup_cond(g, i2, j2, kind) && (i2
                    < ii || (i2 == ii && j2 < jj + 1)) {
                    0u8
                } else {
                    g[i2][j2]
                }) by {
                    if bv(to_del@)[ii][jj] {
                        if i2 == ii {
                            assert(gv(image@)[i2] == before[i2].update(jj, 0u8));
                        } else {
                            assert(gv(image@)[i2] == before[i2]);
                        }
                    } else {
                        assert(gv(image@)[i2] == before[i2]);
                    }
                }
            }
            j += 1;
        }
        i += 1;
    }

    // what remains is exactly the pass applied to the snapshot
    proof {
        assert forall|i2: int| 0 <= i2 < h implies #[trigger] gv(image@)[i2] =~= cleanup_map(
            g,
            kind,
        )[i2] by {
            assert forall|j2: int| 0 <= j2 < g[i2].len() implies gv(image@)[i2][j2] == cleanup_map(
                g,
                kind,
            )[i2][j2] by {
                assert(gv(image@)[i2][j2] == (if in_interior(g, i2, j2) && g[i2][j2] == 1
                    && cleanup_cond(g, i2, j2, kind) {
                    0u8
                } else {
                    g[i2][j2]
                }));
            }
        }
        assert(gv(image@) =~= cleanup_map(g, kind));
        if changed {
            let (i2, j2) = choose|i2: int, j2: int|
                0 <= i2 < h && 0 <= j2 < w && #[trigger] bv(to_del@)[i2][j2];
            assert(gv(image@)[i2][j2] == 0 && g[i2][j2] == 1);
        } else {
            assert forall|i2: int| 0 <= i2 < h implies #[trigger] gv(image@)[i2] =~= g[i2] by {
                assert forall|j2: int| 0 <= j2 < g[i2].len() implies gv(image@)[i2][j2]
                    == g[i2][j2] by {
                    if in_interior(g, i2, j2) && g[i2][j2] == 1 && cleanup_cond(g, i2, j2, kind) {
                        assert(bv(to_del@)[i2][j2]);
                    }
                }
            }
            assert(gv(image@) =~= g);
        }
    }
    changed
}

/// Removes H-breaks: any interior ridge pixel whose neighborhood exactly
/// matches one of the two reference patterns is cleared, and the scan
/// repeats until one pass removes nothing.
#[verifier::loop_isolation(false)]
pub fn remove_h_breaks(image: &mut Vec<Vec<u8>>)
    requires
        grid_wf(gv(old(image)@)),
    ensures
        gv(final(image)@) == hb_fix(gv(old(image)@)),
{
    let ghost g0 = gv(image@);
    let mut done = false;
    while !done
        invariant
            grid_wf(gv(image@)),
            gv(image@).len() == g0.len(),
            gv(image@)[0].len() == g0[0].len(),
            hb_fix(gv(image@)) == hb_fix(g0),
            done ==> gv(image@) == hb_fix(g0),
        decreases grid_ones(gv(image@)), (if done {
            0int
        } else {
            1int
        }),
    {
        let ghost before = gv(image@);
        let changed = cleanup_pass(image, CleanupKind::HBreak);
        proof {
            lemma_cleanup_map_clears(before, CleanupKind::HBreak);
            lemma_clears_only_wf(before, gv(image@));
            lemma_clears_only_ones(before, gv(image@));
            if hb_pass(before) == before {
            } else {
                assert(hb_fix(before) == hb_fix(hb_pass(before)));
            }
        }
        if !changed {
            proof {
                assert(gv(image@) == before);
                assert(hb_pass(before) == before);
                assert(hb_fix(before) == before);
            }
            done = true;
        }
    }
}

/// Removes isolated points: one pass clearing every interior ridge pixel
/// whose 8 neighbors are all 0.
pub fn remove_isolated_points(image: &mut Vec<Vec<u8>>)
    requires
        grid_wf(gv(old(image)@)),
    ensures
        gv(final(image)@) == iso_pass(gv(old(image)@)),
{
    let _ = cleanup_pass(image, CleanupKind::Isolated);
}

/// Removes spikes: one pass clearing every interior ridge pixel with exactly
/// one ridge neighbor.
pub fn remove_spikes(image: &mut Vec<Vec<u8>>)
    requires
        grid_wf(gv(old(image)@)),
    ensures
        gv(final(image)@) == spike_pass(gv(old(image)@)),
{
    let _ = cleanup_pass(image, CleanupKind::Spike);
}

} // verus!

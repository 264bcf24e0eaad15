//! A second, simpler thinning and detection scheme that counts the 1-cells
//! of the whole 3x3 window around a pixel (center included). Thinning clears
//! interior ridge pixels whose window count lies strictly between 2 and 8,
//! repeated until nothing changes; detection classifies pixels by the same
//! window count.

use vstd::prelude::*;
use crate::grid::{
    clears_only, grid_ones, grid_rect, grid_wf, gv, in_interior, lemma_clears_only_ones,
    lemma_clears_only_wf, make_flags, set_flag, bv,
};
use crate::minutiae::MinutiaType;

verus! {

/// 1 when the cell holds a ridge pixel.
pub open spec fn one_if_ridge(v: u8) -> int {
    if v == 1 {
        1
    } else {
        0
    }
}

/// Number of 1-cells in the 3x3 window around interior pixel `(i, j)`,
/// center included.
pub open spec fn window_ones(g: Seq<Seq<u8>>, i: int, j: int) -> int {
    one_if_ridge(g[i - 1][j - 1]) + one_if_ridge(g[i - 1][j]) + one_if_ridge(g[i - 1][j + 1])
        + one_if_ridge(g[i][j - 1]) + one_if_ridge(g[i][j]) + one_if_ridge(g[i][j + 1])
        + one_if_ridge(g[i + 1][j - 1]) + one_if_ridge(g[i + 1][j]) + one_if_ridge(g[i + 1][j + 1])
}

/// A ridge pixel is redundant when its window count lies strictly between
/// 2 and 8.
pub open spec fn redundant_at(g: Seq<Seq<u8>>, i: int, j: int) -> bool {
    g[i][j] == 1 && 2 < window_ones(g, i, j) < 8
}

/// One thinning scan: every redundant interior pixel, judged against the
/// snapshot `g`, is cleared.
pub open spec fn window_pass(g: Seq<Seq<u8>>) -> Seq<Seq<u8>> {
    Seq::new(
        g.len(),
        |i: int|
            Seq::new(
                g[i].len(),
                |j: int|
                    if in_interior(g, i, j) && redundant_at(g, i, j) {
                        0u8
                    } else {
                        g[i][j]
                    },
            ),
    )
}

/// A thinning scan only clears interior ridge pixels and keeps the shape.
pub proof fn lemma_window_pass_clears(g: Seq<Seq<u8>>)
    ensures
        clears_only(g, window_pass(g)),
        window_pass(g).len() == g.len(),
        forall|i: int| 0 <= i < g.len() ==> #[trigger] window_pass(g)[i].len() == g[i].len(),
{
    let p = window_pass(g);
    assert forall|i: int| 0 <= i < g.len() implies #[trigger] p[i].len() == g[i].len() by {}
    assert forall|i: int, j: int| 0 <= i < g.len() && 0 <= j < g[i].len() implies #[trigger] p[i][j]
        == g[i][j] || (in_interior(g, i, j) && g[i][j] == 1 && p[i][j] == 0) by {}
}

/// Window thinning to the fixed point: scans repeat until one clears
/// nothing. Terminates because every changing scan clears a ridge pixel.
pub open spec fn window_fix(g: Seq<Seq<u8>>) -> Seq<Seq<u8>>
    decreases grid_ones(g),
    via window_fix_decreases
{
    if window_pass(g) == g {
        g
    } else {
        window_fix(window_pass(g))
    }
}

#[via_fn]
proof fn window_fix_decreases(g: Seq<Seq<u8>>) {
    if window_pass(g) != g {
        lemma_window_pass_clears(g);
        lemma_clears_only_ones(g, window_pass(g));
    }
}

/// The number of 1-cells in the 3x3 window around interior pixel `(i, j)`,
/// or 0 when the center is not a ridge pixel.
pub fn calculate_crossing_number(image: &Vec<Vec<u8>>, i: usize, j: usize) -> (r: u8)
    requires
        grid_rect(gv(image@)),
        in_interior(gv(image@), i as int, j as int),
    ensures
        r == (if gv(image@)[i as int][j as int] == 0 {
            0int
        } else {
            window_ones(gv(image@), i as int, j as int)
        }),
{
    let ghost g = gv(image@);
    proof {
        assert(g[i - 1] == image@[i - 1]@);
        assert(g[i as int] == image@[i as int]@);
        assert(g[i + 1] == image@[i + 1]@);
        assert(g[i - 1].len() == g[0].len());
        assert(g[i as int].len() == g[0].len());
        assert(g[i + 1].len() == g[0].len());
    }
    let h = image.len();
    let w = image[i].len();
    if image[i][j] == 0 {
        return 0;
    }
    let mut sum: u8 = 0;
    if image[i - 1][j - 1] == 1 {
        sum += 1;
    }
    if image[i - 1][j] == 1 {
        sum += 1;
    }
    if image[i - 1][j + 1] == 1 {
        sum += 1;
    }
    if image[i][j - 1] == 1 {
        sum += 1;
    }
    if image[i][j] == 1 {
        sum += 1;
    }
    if image[i][j + 1] == 1 {
        sum += 1;
    }
    if image[i + 1][j - 1] == 1 {
        sum += 1;
    }
    if image[i + 1][j] == 1 {
        sum += 1;
    }
    if image[i + 1][j + 1] == 1 {
        sum += 1;
    }
    sum
}

/// Marks every interior ridge pixel whose 3x3 window count lies strictly
/// between 2 and 8, judged against the current grid. Marks already set are
/// kept.
#[verifier::loop_isolation(false)]
pub fn mark_redundant_pixels(image: &Vec<Vec<u8>>, marked_pixels: &mut Vec<Vec<bool>>)
    requires
        grid_wf(gv(image@)),
        old(marked_pixels)@.len() == gv(image@).len(),
        forall|i: int|
            0 <= i < gv(image@).len() ==> (#[trigger] bv(old(marked_pixels)@)[i]).len() == gv(
                image@,
            )[0].len(),
    ensures
        final(marked_pixels)@.len() == old(marked_pixels)@.len(),
        forall|i: int|
            0 <= i < gv(image@).len() ==> (#[trigger] bv(final(marked_pixels)@)[i]).len() == gv(
                image@,
            )[0].len(),
        forall|i: int, j: int|
            0 <= i < gv(image@).len() && 0 <= j < gv(image@)[0].len() ==> #[trigger] bv(
                final(marked_pixels)@,
            )[i][j] == (bv(old(marked_pixels)@)[i][j] || (in_interior(gv(image@), i, j)
                && redundant_at(gv(image@), i, j))),
{
    let ghost g = gv(image@);
    let ghost m0 = bv(old(marked_pixels)@);
    let h = image.len();
    let w = image[0].len();
    proof {
        assert(g[0] == image@[0]@);
    }
    let mut i: usize = 1;
    while i < h - 1
        invariant
            1 <= i <= h - 1,
            marked_pixels@.len() == h,
            forall|i2: int| 0 <= i2 < h ==> (#[trigger] bv(marked_pixels@)[i2]).len() == w,
            forall|i2: int, j2: int|
                0 <= i2 < h && 0 <= j2 < w ==> #[trigger] bv(marked_pixels@)[i2][j2] == (m0[i2][j2]
                    || (in_interior(g, i2, j2) && redundant_at(g, i2, j2) && i2 < i)),
        decreases h - i,
    {
        let mut j: usize = 1;
        while j < w - 1
            invariant
                1 <= j <= w - 1,
                marked_pixels@.len() == h,
                forall|i2: int| 0 <= i2 < h ==> (#[trigger] bv(marked_pixels@)[i2]).len() == w,
                forall|i2: int, j2: int|
                    0 <= i2 < h && 0 <= j2 < w ==> #[trigger] bv(marked_pixels@)[i2][j2]
                        == (m0[i2][j2] || (in_interior(g, i2, j2) && redundant_at(g, i2, j2) && (i2
                        < i || (i2 == i && j2 < j)))),
            decreases w - j,
        {
            proof {
                assert(g[i as int] == image@[i as int]@);
            }
            let ghost marks_before = bv(marked_pixels@);
            let count = calculate_crossing_number(image, i, j);
            if image[i][j] == 1 && count > 2 && count < 8 {
                set_flag(marked_pixels, i, j, true);
            }
            proof {
                let ii = i as int;
                let jj = j as int;
                assert forall|i2: int, j2: int|
                    0 <= i2 < h && 0 <= j2 < w implies #[trigger] bv(marked_pixels@)[i2][j2]
                    == (m0[i2][j2] || (in_interior(g, i2, j2) && redundant_at(g, i2, j2) && (i2 < ii
                    || (i2 == ii && j2 < jj + 1)))) by {
                    if i2 == ii && j2 == jj {
                        if redundant_at(g, ii, jj) {
                            assert(bv(marked_pixels@)[i2][j2]);
                        } else {
                            assert(bv(marked_pixels@)[i2][j2] == marks_before[i2][j2]);
                        }
                    } else {
                        assert(bv(marked_pixels@)[i2][j2] == marks_before[i2][j2]);
                    }
                }
            }
            j += 1;
        }
        i += 1;
    }
    proof {
        assert forall|i2: int, j2: int|
            0 <= i2 < h && 0 <= j2 < w implies #[trigger] bv(marked_pixels@)[i2][j2] == (m0[i2][j2]
            || (in_interior(g, i2, j2) && redundant_at(g, i2, j2))) by {
            if in_interior(g, i2, j2) {
                assert(i2 < i);
            }
        }
    }
}

/// Clears every marked interior pixel and reports whether any interior mark
/// was present at all.
#[verifier::loop_isolation(false)]
pub fn remove_marked_pixels(image: &mut Vec<Vec<u8>>, marked_pixels: &Vec<Vec<bool>>) -> (changed:
    bool)
    requires
        grid_wf(gv(old(image)@)),
        marked_pixels@.len() == gv(old(image)@).len(),
        forall|i: int|
            0 <= i < gv(old(image)@).len() ==> (#[trigger] bv(marked_pixels@)[i]).len() == gv(
                old(image)@,
            )[0].len(),
    ensures
        final(image)@.len() == old(image)@.len(),
        forall|i: int|
            0 <= i < gv(final(image)@).len() ==> #[trigger] gv(final(image)@)[i].len() == gv(
                old(image)@,
            )[i].len(),
        forall|i: int, j: int|
            0 <= i < gv(old(image)@).len() && 0 <= j < gv(old(image)@)[i].len() ==> #[trigger] gv(
                final(image)@,
            )[i][j] == (if in_interior(gv(old(image)@), i, j) && bv(marked_pixels@)[i][j] {
                0u8
            } else {
                gv(old(image)@)[i][j]
            }),
        changed == exists|i: int, j: int|
            in_interior(gv(old(image)@), i, j) && #[trigger] bv(marked_pixels@)[i][j],
{
    let ghost g = gv(image@);
    let h = image.len();
    let w = image[0].len();
    proof {
        assert(g[0] == image@[0]@);
    }
    let mut changed = false;
    let mut i: usize = 1;
    while i < h - 1
        invariant
            1 <= i <= h - 1,
            image@.len() == h,
            forall|i2: int| 0 <= i2 < h ==> #[trigger] gv(image@)[i2].len() == g[i2].len(),
            forall|i2: int, j2: int|
                0 <= i2 < h && 0 <= j2 < g[i2].len() ==> #[trigger] gv(image@)[i2][j2] == (if
                in_interior(g, i2, j2) && bv(marked_pixels@)[i2][j2] && i2 < i {
                    0u8
                } else {
                    g[i2][j2]
                }),
            changed == exists|i2: int, j2: int|
                in_interior(g, i2, j2) && i2 < i && #[trigger] bv(marked_pixels@)[i2][j2],
        decreases h - i,
    {
        let mut j: usize = 1;
        while j < w - 1
            invariant
                1 <= j <= w - 1,
                image@.len() == h,
                forall|i2: int| 0 <= i2 < h ==> #[trigger] gv(image@)[i2].len() == g[i2].len(),
                forall|i2: int, j2: int|
                    0 <= i2 < h && 0 <= j2 < g[i2].len() ==> #[trigger] gv(image@)[i2][j2] == (if
                    in_interior(g, i2, j2) && bv(marked_pixels@)[i2][j2] && (i2 < i || (i2 == i
                        && j2 < j)) {
                        0u8
                    } else {
                        g[i2][j2]
                    }),
                changed == exists|i2: int, j2: int|
                    in_interior(g, i2, j2) && (i2 < i || (i2 == i && j2 < j))
                        && #[trigger] bv(marked_pixels@)[i2][j2],
            decreases w - j,
        {
            let ghost before = gv(image@);
            let ghost changed_before = changed;
            proof {
                assert(bv(marked_pixels@)[i as int] == marked_pixels@[i as int]@);
            }
            if marked_pixels[i][j] {
                proof {
                    assert(gv(image@)[i as int].len() == g[i as int].len());
                    assert(g[i as int].len() == g[0].len());
                }
                crate::grid::set_cell(image, i, j, 0u8);
                changed = true;
            }
            proof {
                let ii = i as int;
                let jj = j as int;
                assert forall|i2: int, j2: int|
                    0 <= i2 < h && 0 <= j2 < g[i2].len() implies #[trigger] gv(image@)[i2][j2] == (
                if in_interior(g, i2, j2) && bv(marked_pixels@)[i2][j2] && (i2 < ii || (i2 == ii
                    && j2 < jj + 1)) {
                    0u8
                } else {
                    g[i2][j2]
                }) by {
                    if bv(marked_pixels@)[ii][jj] {
                        if i2 == ii {
                            assert(gv(image@)[i2] == before[i2].update(jj, 0u8));
                        } else {
                            assert(gv(image@)[i2] == before[i2]);
                        }
                    } else {
                        assert(gv(image@)[i2] == before[i2]);
                    }
                }
                if bv(marked_pixels@)[ii][jj] {
                    assert(in_interior(g, ii, jj));
                    assert(changed);
                } else {
                    assert(changed == changed_before);
                    assert forall|i2: int, j2: int|
                        in_interior(g, i2, j2) && (i2 < ii || (i2 == ii && j2 < jj + 1))
                            && #[trigger] bv(marked_pixels@)[i2][j2] implies (i2 < ii || (i2 == ii
                        && j2 < jj)) by {}
                }
            }
            j += 1;
        }
        proof {
            assert forall|i2: int, j2: int|
                in_interior(g, i2, j2) && (i2 < i + 1 || (i2 == i + 1 && j2 < 1))
                    && #[trigger] bv(marked_pixels@)[i2][j2] implies (i2 < i || (i2 == i && j2
                < j)) by {
                if i2 == i as int {
                    assert(j2 < g[0].len() - 1);
                }
            }
        }
        i += 1;
    }
    proof {
        assert forall|i2: int, j2: int|
            in_interior(g, i2, j2) && #[trigger] bv(marked_pixels@)[i2][j2] implies i2 < i by {}
    }
    changed
}

/// Thins the ridges by repeatedly clearing redundant interior pixels (3x3
/// window count strictly between 2 and 8, judged against a snapshot) until a
/// scan clears nothing.
#[verifier::loop_isolation(false)]
pub fn thin_ridges(image: &mut Vec<Vec<u8>>)
    requires
        grid_wf(gv(old(image)@)),
    ensures
        gv(final(image)@) == window_fix(gv(old(image)@)),
{
    let ghost g0 = gv(image@);
    let mut done = false;
    while !done
        invariant
            grid_wf(gv(image@)),
            gv(image@).len() == g0.len(),
            gv(image@)[0].len() == g0[0].len(),
            window_fix(gv(image@)) == window_fix(g0),
            done ==> gv(image@) == window_fix(g0),
        decreases grid_ones(gv(image@)), (if done {
            0int
        } else {
            1int
        }),
    {
        let ghost before = gv(image@);
        let h = image.len();
        let w = image[0].len();
        proof {
            assert(before[0] == image@[0]@);
        }
        let mut marked_pixels = make_flags(h, w);
        mark_redundant_pixels(image, &mut marked_pixels);
        let has_changes = remove_marked_pixels(image, &marked_pixels);
        proof {
            lemma_window_pass_clears(before);
            assert forall|i2: int| 0 <= i2 < before.len() implies #[trigger] gv(image@)[i2]
                =~= window_pass(before)[i2] by {
                assert forall|j2: int| 0 <= j2 < before[i2].len() implies gv(image@)[i2][j2]
                    == window_pass(before)[i2][j2] by {
                    assert(gv(image@)[i2][j2] == (if in_interior(before, i2, j2) && bv(
                        marked_pixels@,
                    )[i2][j2] {
                        0u8
                    } else {
                        before[i2][j2]
                    }));
                    assert(bv(marked_pixels@)[i2][j2] == (in_interior(before, i2, j2)
                        && redundant_at(before, i2, j2)) || !(0 <= i2 < h && 0 <= j2 < w));
                }
            }
            assert(gv(image@) =~= window_pass(before));
            lemma_clears_only_wf(before, gv(image@));
            lemma_clears_only_ones(before, gv(image@));
            if window_pass(before) == before {
            } else {
                assert(window_fix(before) == window_fix(window_pass(before)));
            }
            if has_changes {
                let (i2, j2) = choose|i2: int, j2: int|
                    in_interior(before, i2, j2) && #[trigger] bv(marked_pixels@)[i2][j2];
                assert(redundant_at(before, i2, j2));
                assert(gv(image@)[i2][j2] == 0 && before[i2][j2] == 1);
            } else {
                assert forall|i2: int| 0 <= i2 < before.len() implies #[trigger] gv(image@)[i2]
                    =~= before[i2] by {
                    assert forall|j2: int| 0 <= j2 < before[i2].len() implies gv(image@)[i2][j2]
                        == before[i2][j2] by {
                    }
                }
                assert(gv(image@) =~= before);
            }
        }
        if !has_changes {
            proof {
                assert(window_pass(before) == before);
                assert(window_fix(before) == before);
            }
            done = true;
        }
    }
}

/// Scans the interior and classifies each pixel by its 3x3 window count:
/// count 1 is a ridge ending (an isolated ridge pixel under this scheme),
/// count 3 a bifurcation (a ridge pixel with two ridge neighbors).
pub open spec fn window_minutia_at(g: Seq<Seq<u8>>, i: int, j: int) -> int {
    if g[i][j] == 0 {
        0
    } else {
        window_ones(g, i, j)
    }
}

/// Minutiae of row `i` at columns `j` and beyond under the window-count
/// classification.
pub open spec fn window_row_minutiae(g: Seq<Seq<u8>>, i: int, j: int) -> Seq<
    (usize, usize, MinutiaType),
>
    decreases g[0].len() - j,
{
    if j < 1 || j >= g[0].len() - 1 {
        Seq::empty()
    } else {
        (if window_minutia_at(g, i, j) == 1 {
            seq![(i as usize, j as usize, MinutiaType::RidgeEnding)]
        } else if window_minutia_at(g, i, j) == 3 {
            seq![(i as usize, j as usize, MinutiaType::Bifurcation)]
        } else {
            Seq::empty()
        }) + window_row_minutiae(g, i, j + 1)
    }
}

/// Minutiae of rows `i` and beyond under the window-count classification.
pub open spec fn window_minutiae_from(g: Seq<Seq<u8>>, i: int) -> Seq<(usize, usize, MinutiaType)>
    decreases g.len() - i,
{
    if i < 1 || i >= g.len() - 1 {
        Seq::empty()
    } else {
        window_row_minutiae(g, i, 1) + window_minutiae_from(g, i + 1)
    }
}

/// Lists the window-count minutiae of the grid in row-major order.
#[verifier::loop_isolation(false)]
pub fn mark_minutiae_points(image: &Vec<Vec<u8>>) -> (res: Vec<(usize, usize, MinutiaType)>)
    requires
        grid_wf(gv(image@)),
    ensures
        res@ == window_minutiae_from(gv(image@), 1),
{
    let ghost g = gv(image@);
    let h = image.len();
    let w = image[0].len();
    proof {
        assert(g[0] == image@[0]@);
    }
    let mut res: Vec<(usize, usize, MinutiaType)> = Vec::new();
    let mut i: usize = 1;
    while i < h - 1
        invariant
            1 <= i <= h - 1,
            res@ + window_minutiae_from(g, i as int) == window_minutiae_from(g, 1),
        decreases h - i,
    {
        let mut j: usize = 1;
        proof {
            assert(res@ + (window_row_minutiae(g, i as int, 1) + window_minutiae_from(
                g,
                i as int + 1,
            )) =~= res@ + window_row_minutiae(g, i as int, 1) + window_minutiae_from(
                g,
                i as int + 1,
            ));
        }
        while j < w - 1
            invariant
                1 <= j <= w - 1,
                res@ + window_row_minutiae(g, i as int, j as int) + window_minutiae_from(
                    g,
                    i as int + 1,
                ) == window_minutiae_from(g, 1),
            decreases w - j,
        {
            let ghost res_before = res@;
            let crossing_number = calculate_crossing_number(image, i, j);
            if crossing_number == 1 {
                res.push((i, j, MinutiaType::RidgeEnding));
            } else if crossing_number == 3 {
                res.push((i, j, MinutiaType::Bifurcation));
            }
            proof {
                let ii = i as int;
                let jj = j as int;
                assert(res@ + window_row_minutiae(g, ii, jj + 1) + window_minutiae_from(g, ii + 1)
                    =~= res_before + window_row_minutiae(g, ii, jj) + window_minutiae_from(
                    g,
                    ii + 1,
                ));
            }
            j += 1;
        }
        proof {
            assert(window_row_minutiae(g, i as int, j as int) =~= Seq::<
                (usize, usize, MinutiaType),
            >::empty());
            assert(res@ + window_minutiae_from(g, i as int + 1) =~= res@ + window_row_minutiae(
                g,
                i as int,
                j as int,
            ) + window_minutiae_from(g, i as int + 1));
        }
        i += 1;
    }
    proof {
        assert(window_minutiae_from(g, i as int) =~= Seq::<(usize, usize, MinutiaType)>::empty());
        assert(res@ =~= res@ + window_minutiae_from(g, i as int));
    }
    res
}

} // verus!

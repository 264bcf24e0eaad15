//! The binary ridge map: a rectangular grid of 0/1 pixels, its mathematical
//! view, and the neighborhood primitives every pipeline stage builds on.

use vstd::prelude::*;
use vstd::pervasive::VecAdditionalExecFns;

verus! {

/// Mathematical view of a grid: each row of `u8` cells as a sequence.
pub open spec fn gv(rows: Seq<Vec<u8>>) -> Seq<Seq<u8>> {
    rows.map_values(|r: Vec<u8>| r@)
}

/// Every row has the same length as the first one.
pub open spec fn grid_rect(g: Seq<Seq<u8>>) -> bool {
    forall|i: int| 0 <= i < g.len() ==> #[trigger] g[i].len() == g[0].len()
}

/// Every cell is 0 or 1.
pub open spec fn grid_binary(g: Seq<Seq<u8>>) -> bool {
    forall|i: int, j: int|
        0 <= i < g.len() && 0 <= j < g[i].len() ==> #[trigger] g[i][j] == 0 || g[i][j] == 1
}

/// Acceptable dimensions for the neighbor-dependent stages: rectangular and
/// at least 3x3, so that the interior is non-empty and every interior pixel
/// has all 8 neighbors.
pub open spec fn dims_ok(g: Seq<Seq<u8>>) -> bool {
    &&& grid_rect(g)
    &&& g.len() >= 3
    &&& g[0].len() >= 3
}

/// A well-formed ridge map: rectangular, binary, at least 3x3.
pub open spec fn grid_wf(g: Seq<Seq<u8>>) -> bool {
    &&& dims_ok(g)
    &&& grid_binary(g)
}

/// How a malformed grid or a bad pixel access is reported.
#[derive(Clone, Copy, Debug, PartialEq, Eq, Structural)]
pub enum RidgeMapError {
    /// The grid is smaller than 3x3 in either dimension, or its rows have
    /// unequal lengths.
    InvalidInput,
    /// A pixel access lies outside the grid.
    OutOfBounds,
}

/// `(i, j)` is an interior pixel: not on any border row or column.
pub open spec fn in_interior(g: Seq<Seq<u8>>, i: int, j: int) -> bool {
    1 <= i < g.len() - 1 && 1 <= j < g[0].len() - 1
}

/// The 8-connected neighborhood of interior pixel `(i, j)`, clockwise from
/// North: `[N, NE, E, SE, S, SW, W, NW]`.
pub open spec fn nbr(g: Seq<Seq<u8>>, i: int, j: int) -> Seq<u8> {
    seq![
        g[i - 1][j],
        g[i - 1][j + 1],
        g[i][j + 1],
        g[i + 1][j + 1],
        g[i + 1][j],
        g[i + 1][j - 1],
        g[i][j - 1],
        g[i - 1][j - 1],
    ]
}

/// Sum of a length-8 neighbor vector.
pub open spec fn nbr_sum8(ns: Seq<u8>) -> int {
    ns[0] + ns[1] + ns[2] + ns[3] + ns[4] + ns[5] + ns[6] + ns[7]
}

/// Sum of the 8 neighbors of interior pixel `(i, j)`.
pub open spec fn neighbor_sum(g: Seq<Seq<u8>>, i: int, j: int) -> int {
    nbr_sum8(nbr(g, i, j))
}

/// `b` is `a` with some interior 1-pixels cleared to 0 and nothing else
/// changed. Every pipeline stage transforms the grid this way, which is what
/// makes the borders invariant and the 1-pixel count non-increasing.
pub open spec fn clears_only(a: Seq<Seq<u8>>, b: Seq<Seq<u8>>) -> bool {
    &&& b.len() == a.len()
    &&& forall|i: int| 0 <= i < a.len() ==> #[trigger] b[i].len() == a[i].len()
    &&& forall|i: int, j: int|
        0 <= i < a.len() && 0 <= j < a[i].len() ==> #[trigger] b[i][j] == a[i][j] || (in_interior(
            a,
            i,
            j,
        ) && a[i][j] == 1 && b[i][j] == 0)
}

/// All border cells of `a` and `b` agree (and the grids have the same shape).
pub open spec fn borders_unchanged(a: Seq<Seq<u8>>, b: Seq<Seq<u8>>) -> bool {
    &&& b.len() == a.len()
    &&& forall|i: int| 0 <= i < a.len() ==> #[trigger] b[i].len() == a[i].len()
    &&& forall|i: int, j: int|
        0 <= i < a.len() && 0 <= j < a[i].len() && !in_interior(a, i, j) ==> #[trigger] b[i][j]
            == a[i][j]
}

/// A stage that only clears interior pixels leaves every border pixel alone.
pub proof fn lemma_clears_only_borders(a: Seq<Seq<u8>>, b: Seq<Seq<u8>>)
    requires
        clears_only(a, b),
    ensures
        borders_unchanged(a, b),
{
}

/// `clears_only` composes across consecutive stages.
pub proof fn lemma_clears_only_trans(a: Seq<Seq<u8>>, b: Seq<Seq<u8>>, c: Seq<Seq<u8>>)
    requires
        clears_only(a, b),
        clears_only(b, c),
    ensures
        clears_only(a, c),
{
}

/// Number of 1-cells in a row.
pub open spec fn row_ones(r: Seq<u8>) -> nat
    decreases r.len(),
{
    if r.len() == 0 {
        0
    } else {
        row_ones(r.drop_last()) + (if r.last() == 1 {
            1nat
        } else {
            0nat
        })
    }
}

/// Number of 1-cells in the whole grid.
pub open spec fn grid_ones(g: Seq<Seq<u8>>) -> nat
    decreases g.len(),
{
    if g.len() == 0 {
        0
    } else {
        grid_ones(g.drop_last()) + row_ones(g.last())
    }
}

/// Clearing cells of a row can only lower its 1-count, and strictly lowers it
/// if any cell actually changed.
proof fn lemma_row_ones_pointwise(a: Seq<u8>, b: Seq<u8>)
    requires
        b.len() == a.len(),
        forall|j: int| 0 <= j < a.len() ==> #[trigger] b[j] == a[j] || (a[j] == 1 && b[j] == 0),
    ensures
        row_ones(b) <= row_ones(a),
        (exists|j: int| 0 <= j < a.len() && b[j] != a[j]) ==> row_ones(b) < row_ones(a),
    decreases a.len(),
{
    if a.len() > 0 {
        lemma_row_ones_pointwise(a.drop_last(), b.drop_last());
        if exists|j: int| 0 <= j < a.len() && b[j] != a[j] {
            let j = choose|j: int| 0 <= j < a.len() && b[j] != a[j];
            if j < a.len() - 1 {
                assert(b.drop_last()[j] != a.drop_last()[j]);
            }
        }
    }
}

/// `b` agrees with `a` pointwise except where a 1 was cleared to 0. Weaker
/// than `clears_only` (no interiority), which makes it survive row induction.
pub open spec fn pointwise_clears(a: Seq<Seq<u8>>, b: Seq<Seq<u8>>) -> bool {
    &&& b.len() == a.len()
    &&& forall|i: int| 0 <= i < a.len() ==> #[trigger] b[i].len() == a[i].len()
    &&& forall|i: int, j: int|
        0 <= i < a.len() && 0 <= j < a[i].len() ==> #[trigger] b[i][j] == a[i][j] || (a[i][j] == 1
            && b[i][j] == 0)
}

/// Clearing 1-pixels can only lower the grid's 1-count, and strictly lowers
/// it if any pixel actually changed.
pub proof fn lemma_pointwise_clears_ones(a: Seq<Seq<u8>>, b: Seq<Seq<u8>>)
    requires
        pointwise_clears(a, b),
    ensures
        grid_ones(b) <= grid_ones(a),
        b != a ==> grid_ones(b) < grid_ones(a),
    decreases a.len(),
{
    if a.len() == 0 {
        assert(b =~= a);
    } else {
        let a1 = a.drop_last();
        let b1 = b.drop_last();
        assert(pointwise_clears(a1, b1));
        lemma_pointwise_clears_ones(a1, b1);
        lemma_row_ones_pointwise(a.last(), b.last());
        if b != a {
            if b.last() =~= a.last() {
                assert(b1 != a1) by {
                    if b1 =~= a1 {
                        assert forall|i: int| 0 <= i < a.len() implies b[i] == a[i] by {
                            if i < a.len() - 1 {
                                assert(b1[i] == a1[i]);
                                assert(b[i] == b1[i]);
                                assert(a[i] == a1[i]);
                            } else {
                                assert(b[i] == b.last());
                                assert(a[i] == a.last());
                            }
                        }
                        assert(b =~= a);
                    }
                }
            } else {
                assert(exists|j: int|
                    0 <= j < a.last().len() && b.last()[j] != a.last()[j]) by {
                    if forall|j: int|
                        0 <= j < a.last().len() ==> #[trigger] b.last()[j] == a.last()[j] {
                        assert(b.last() =~= a.last());
                    }
                }
            }
        }
    }
}

/// Clearing interior 1-pixels can only lower the grid's 1-count, and strictly
/// lowers it if any pixel actually changed.
pub proof fn lemma_clears_only_ones(a: Seq<Seq<u8>>, b: Seq<Seq<u8>>)
    requires
        clears_only(a, b),
    ensures
        grid_ones(b) <= grid_ones(a),
        b != a ==> grid_ones(b) < grid_ones(a),
{
    lemma_pointwise_clears_ones(a, b);
}

/// A stage that only clears interior pixels keeps the grid well-formed and
/// its dimensions.
pub proof fn lemma_clears_only_wf(a: Seq<Seq<u8>>, b: Seq<Seq<u8>>)
    requires
        grid_wf(a),
        clears_only(a, b),
    ensures
        grid_wf(b),
        b.len() == a.len(),
        b[0].len() == a[0].len(),
{
    assert(b[0].len() == a[0].len());
    assert forall|i: int| 0 <= i < b.len() implies #[trigger] b[i].len() == b[0].len() by {
        assert(b[i].len() == a[i].len());
    }
}

/// Checks that the grid is rectangular and at least 3x3.
#[verifier::loop_isolation(false)]
pub fn check_dims(image: &Vec<Vec<u8>>) -> (ok: bool)
    ensures
        ok == dims_ok(gv(image@)),
{
    let h = image.len();
    if h < 3 {
        return false;
    }
    let w = image[0].len();
    proof {
        assert(gv(image@)[0] == image@[0]@);
    }
    if w < 3 {
        return false;
    }
    let mut i: usize = 0;
    while i < h
        invariant
            i <= h,
            forall|i2: int| 0 <= i2 < i ==> #[trigger] gv(image@)[i2].len() == w,
        decreases h - i,
    {
        if image[i].len() != w {
            proof {
                assert(gv(image@)[i as int] == image@[i as int]@);
            }
            return false;
        }
        proof {
            assert(gv(image@)[i as int] == image@[i as int]@);
        }
        i += 1;
    }
    true
}

/// Checks that every cell of the grid is 0 or 1.
#[verifier::loop_isolation(false)]
pub fn check_binary(image: &Vec<Vec<u8>>) -> (ok: bool)
    ensures
        ok == grid_binary(gv(image@)),
{
    let h = image.len();
    let mut i: usize = 0;
    while i < h
        invariant
            i <= h,
            forall|i2: int, j2: int|
                0 <= i2 < i && 0 <= j2 < gv(image@)[i2].len() ==> #[trigger] gv(image@)[i2][j2] == 0
                    || gv(image@)[i2][j2] == 1,
        decreases h - i,
    {
        proof {
            assert(gv(image@)[i as int] == image@[i as int]@);
        }
        let row = &image[i];
        let w = row.len();
        let mut j: usize = 0;
        while j < w
            invariant
                j <= w,
                forall|j2: int|
                    0 <= j2 < j ==> #[trigger] gv(image@)[i as int][j2] == 0 || gv(
                        image@,
                    )[i as int][j2] == 1,
            decreases w - j,
        {
            if row[j] > 1 {
                return false;
            }
            j += 1;
        }
        i += 1;
    }
    true
}

/// Returns a fresh copy of the grid with the same cells.
#[verifier::loop_isolation(false)]
pub fn copy_grid(image: &Vec<Vec<u8>>) -> (r: Vec<Vec<u8>>)
    ensures
        gv(r@) == gv(image@),
{
    let h = image.len();
    let mut r: Vec<Vec<u8>> = Vec::new();
    let mut i: usize = 0;
    while i < h
        invariant
            i <= h,
            r@.len() == i,
            forall|i2: int| 0 <= i2 < i ==> #[trigger] gv(r@)[i2] == gv(image@)[i2],
        decreases h - i,
    {
        let row = image[i].clone();
        proof {
            assert forall|k: int| 0 <= k < row@.len() implies row@[k] == image@[i as int]@[k] by {
                assert(cloned::<u8>(image@[i as int]@[k], row@[k]));
            }
            assert(row@ =~= image@[i as int]@);
        }
        let ghost old_r = r@;
        r.push(row);
        proof {
            assert forall|i2: int| 0 <= i2 < i + 1 implies #[trigger] gv(r@)[i2] == gv(image@)[i2] by {
                assert(gv(r@)[i2] == r@[i2]@);
                assert(gv(image@)[i2] == image@[i2]@);
                if i2 < i {
                    assert(r@[i2] == old_r[i2]);
                    assert(gv(old_r)[i2] == old_r[i2]@);
                } else {
                    assert(r@[i2] == row);
                }
            }
        }
        i += 1;
    }
    proof {
        assert(gv(r@) =~~= gv(image@));
    }
    r
}

/// Pointwise thresholding: 1 where the intensity exceeds the threshold,
/// else 0.
pub open spec fn binarize_map(g: Seq<Seq<u8>>, threshold: u8) -> Seq<Seq<u8>> {
    Seq::new(
        g.len(),
        |i: int|
            Seq::new(
                g[i].len(),
                |j: int|
                    if g[i][j] > threshold {
                        1u8
                    } else {
                        0u8
                    },
            ),
    )
}

/// Turns a grayscale intensity grid into a binary ridge map: cells above the
/// threshold become 1, all others 0.
#[verifier::loop_isolation(false)]
pub fn binarization(input: Vec<Vec<u8>>, threshold: u8) -> (res: Vec<Vec<u8>>)
    requires
        input@.len() > 0,
        grid_rect(gv(input@)),
    ensures
        gv(res@) == binarize_map(gv(input@), threshold),
        grid_binary(gv(res@)),
{
    let ghost g = gv(input@);
    let h = input.len();
    let mut res: Vec<Vec<u8>> = Vec::new();
    let mut i: usize = 0;
    while i < h
        invariant
            i <= h,
            res@.len() == i,
            forall|i2: int| 0 <= i2 < i ==> #[trigger] gv(res@)[i2] == binarize_map(g, threshold)[i2],
        decreases h - i,
    {
        proof {
            assert(gv(input@)[i as int] == input@[i as int]@);
        }
        let row = &input[i];
        let w = row.len();
        let mut out: Vec<u8> = Vec::new();
        let mut j: usize = 0;
        while j < w
            invariant
                j <= w,
                out@.len() == j,
                forall|j2: int|
                    0 <= j2 < j ==> #[trigger] out@[j2] == binarize_map(g, threshold)[i as int][j2],
            decreases w - j,
        {
            if row[j] > threshold {
                out.push(1u8);
            } else {
                out.push(0u8);
            }
            j += 1;
        }
        let ghost res_before = res@;
        res.push(out);
        proof {
            assert forall|i2: int| 0 <= i2 < i + 1 implies #[trigger] gv(res@)[i2] == binarize_map(
                g,
                threshold,
            )[i2] by {
                assert(gv(res@)[i2] == res@[i2]@);
                if i2 < i {
                    assert(res@[i2] == res_before[i2]);
                    assert(gv(res_before)[i2] == res_before[i2]@);
                } else {
                    assert(res@[i2] == out);
                    assert(out@ =~= binarize_map(g, threshold)[i2]);
                }
            }
        }
        i += 1;
    }
    proof {
        assert(gv(res@) =~~= binarize_map(g, threshold));
    }
    res
}

/// View of a grid of boolean marks.
pub open spec fn bv(rows: Seq<Vec<bool>>) -> Seq<Seq<bool>> {
    rows.map_values(|r: Vec<bool>| r@)
}

/// Returns an `h` by `w` grid of marks, all unset.
#[verifier::loop_isolation(false)]
pub fn make_flags(h: usize, w: usize) -> (r: Vec<Vec<bool>>)
    ensures
        r@.len() == h,
        forall|i: int| 0 <= i < h ==> (#[trigger] bv(r@)[i]).len() == w,
        forall|i: int, j: int| 0 <= i < h && 0 <= j < w ==> !(#[trigger] bv(r@)[i][j]),
{
    let mut r: Vec<Vec<bool>> = Vec::new();
    let mut i: usize = 0;
    while i < h
        invariant
            i <= h,
            r@.len() == i,
            forall|i2: int| 0 <= i2 < i ==> (#[trigger] bv(r@)[i2]).len() == w,
            forall|i2: int, j: int| 0 <= i2 < i && 0 <= j < w ==> !(#[trigger] bv(r@)[i2][j]),
        decreases h - i,
    {
        let mut row: Vec<bool> = Vec::new();
        let mut j: usize = 0;
        while j < w
            invariant
                j <= w,
                row@.len() == j,
                forall|j2: int| 0 <= j2 < j ==> !(#[trigger] row@[j2]),
            decreases w - j,
        {
            row.push(false);
            j += 1;
        }
        let ghost old_r = r@;
        r.push(row);
        proof {
            assert forall|i2: int| 0 <= i2 < i + 1 implies (#[trigger] bv(r@)[i2]).len() == w by {
                assert(bv(r@)[i2] == r@[i2]@);
                if i2 < i {
                    assert(bv(old_r)[i2] == old_r[i2]@);
                }
            }
            assert forall|i2: int, j2: int| 0 <= i2 < i + 1 && 0 <= j2 < w implies !(
            #[trigger] bv(r@)[i2][j2]) by {
                assert(bv(r@)[i2] == r@[i2]@);
                if i2 < i {
                    assert(bv(old_r)[i2] == old_r[i2]@);
                }
            }
        }
        i += 1;
    }
    r
}

/// Sets the mark at `(r, c)`, leaving every other mark alone.
pub fn set_flag(flags: &mut Vec<Vec<bool>>, r: usize, c: usize, v: bool)
    requires
        r < old(flags)@.len(),
        c < bv(old(flags)@)[r as int].len(),
    ensures
        final(flags)@.len() == old(flags)@.len(),
        forall|ri: int|
            0 <= ri < final(flags)@.len() ==> #[trigger] bv(final(flags)@)[ri] == (if ri
                == r as int {
                bv(old(flags)@)[r as int].update(c as int, v)
            } else {
                bv(old(flags)@)[ri]
            }),
{
    let ghost rows0 = old(flags)@;
    proof {
        assert(bv(rows0)[r as int] == rows0[r as int]@);
    }
    let row: &mut Vec<bool> = &mut flags[r];
    row.set(c, v);
    proof {
        assert forall|ri: int| 0 <= ri < flags@.len() implies #[trigger] bv(flags@)[ri] == (if ri
            == r as int {
            bv(rows0)[r as int].update(c as int, v)
        } else {
            bv(rows0)[ri]
        }) by {
            assert(bv(flags@)[ri] == flags@[ri]@);
            assert(bv(rows0)[ri] == rows0[ri]@);
        }
    }
}

/// Sum of a length-8 neighbor vector, as executable code.
pub fn sum8(ns: &Vec<u8>) -> (s: u32)
    requires
        ns@.len() == 8,
    ensures
        s == nbr_sum8(ns@),
{
    ns[0] as u32 + ns[1] as u32 + ns[2] as u32 + ns[3] as u32 + ns[4] as u32 + ns[5] as u32 + ns[6]
        as u32 + ns[7] as u32
}

/// Writes `v` into cell `(r, c)`, leaving every other cell alone.
pub fn set_cell(image: &mut Vec<Vec<u8>>, r: usize, c: usize, v: u8)
    requires
        r < old(image)@.len(),
        c < gv(old(image)@)[r as int].len(),
    ensures
        final(image)@.len() == old(image)@.len(),
        forall|ri: int|
            0 <= ri < final(image)@.len() ==> #[trigger] gv(final(image)@)[ri] == (if ri
                == r as int {
                gv(old(image)@)[r as int].update(c as int, v)
            } else {
                gv(old(image)@)[ri]
            }),
{
    let ghost rows0 = old(image)@;
    proof {
        assert(gv(rows0)[r as int] == rows0[r as int]@);
    }
    let row: &mut Vec<u8> = &mut image[r];
    row.set(c, v);
    proof {
        assert forall|ri: int| 0 <= ri < image@.len() implies #[trigger] gv(image@)[ri] == (if ri
            == r as int {
            gv(rows0)[r as int].update(c as int, v)
        } else {
            gv(rows0)[ri]
        }) by {
            assert(gv(image@)[ri] == image@[ri]@);
            assert(gv(rows0)[ri] == rows0[ri]@);
        }
    }
}

/// Returns the 8 neighbors of interior pixel `(x, y)` clockwise from North:
/// `[N, NE, E, SE, S, SW, W, NW]`. This ordering is load-bearing: the
/// transition count of the thinning conditions walks it cyclically.
pub fn get_neighbors(image: &Vec<Vec<u8>>, x: usize, y: usize) -> (r: Vec<u8>)
    requires
        grid_rect(gv(image@)),
        in_interior(gv(image@), x as int, y as int),
    ensures
        r@ == nbr(gv(image@), x as int, y as int),
{
    proof {
        assert(gv(image@)[x - 1] == image@[x - 1]@);
        assert(gv(image@)[x as int] == image@[x as int]@);
        assert(gv(image@)[x + 1] == image@[x + 1]@);
        assert(gv(image@)[0] == image@[0]@);
    }
    let h = image.len();
    let above = &image[x - 1];
    let here = &image[x];
    let below = &image[x + 1];
    let w = here.len();
    let r: Vec<u8> = vec![
        above[y],
        above[y + 1],
        here[y + 1],
        below[y + 1],
        below[y],
        below[y - 1],
        here[y - 1],
        above[y - 1],
    ];
    proof {
        assert(r@ =~= nbr(gv(image@), x as int, y as int));
    }
    r
}

} // verus!

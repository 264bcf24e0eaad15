//! Minutia detection: classifies interior skeleton pixels as ridge endings
//! or bifurcations by the sum of their 8 neighbors.

use vstd::prelude::*;
use crate::grid::{get_neighbors, grid_wf, gv, in_interior, neighbor_sum, sum8};

verus! {

#[derive(Clone, Copy, Debug, PartialEq, Eq, Structural)]
pub enum MinutiaType {
    RidgeEnding,
    Bifurcation,
}

/// A feature point of the skeleton: its pixel position and kind.
#[derive(Clone, Copy, Debug, PartialEq, Eq, Structural)]
pub struct Minutia {
    pub row: usize,
    pub col: usize,
    pub minutia_type: MinutiaType,
}

/// Interior ridge pixel whose 8-neighbor sum is 1 (ridge ending) or
/// 3 (bifurcation). Any other sum is a regular ridge point, not a minutia.
pub open spec fn is_minutia_at(g: Seq<Seq<u8>>, i: int, j: int) -> bool {
    &&& in_interior(g, i, j)
    &&& g[i][j] == 1
    &&& (neighbor_sum(g, i, j) == 1 || neighbor_sum(g, i, j) == 3)
}

/// The minutia emitted for pixel `(i, j)`.
pub open spec fn minutia_at(g: Seq<Seq<u8>>, i: int, j: int) -> Minutia {
    Minutia {
        row: i as usize,
        col: j as usize,
        minutia_type: if neighbor_sum(g, i, j) == 1 {
            MinutiaType::RidgeEnding
        } else {
            MinutiaType::Bifurcation
        },
    }
}

/// Minutiae of row `i` at columns `j` and beyond (interior columns only),
/// in column order.
pub open spec fn minutiae_in_row(g: Seq<Seq<u8>>, i: int, j: int) -> Seq<Minutia>
    decreases g[0].len() - j,
{
    if j < 1 || j >= g[0].len() - 1 {
        Seq::empty()
    } else {
        (if is_minutia_at(g, i, j) {
            seq![minutia_at(g, i, j)]
        } else {
            Seq::empty()
        }) + minutiae_in_row(g, i, j + 1)
    }
}

/// Minutiae of rows `i` and beyond (interior rows only), row-major.
pub open spec fn minutiae_from_row(g: Seq<Seq<u8>>, i: int) -> Seq<Minutia>
    decreases g.len() - i,
{
    if i < 1 || i >= g.len() - 1 {
        Seq::empty()
    } else {
        minutiae_in_row(g, i, 1) + minutiae_from_row(g, i + 1)
    }
}

/// All minutiae of the grid, in row-major scan order.
pub open spec fn grid_minutiae(g: Seq<Seq<u8>>) -> Seq<Minutia> {
    minutiae_from_row(g, 1)
}

/// Every minutia of row `i` listed from column `j` on carries its own source
/// position, satisfies the detection condition there, and the list is in
/// strictly increasing column order and complete for those columns.
proof fn lemma_minutiae_in_row_props(g: Seq<Seq<u8>>, i: int, j: int)
    requires
        1 <= j,
        0 <= i <= usize::MAX,
        g[0].len() <= usize::MAX,
    ensures
        forall|k: int|
            0 <= k < minutiae_in_row(g, i, j).len() ==> {
                &&& (#[trigger] minutiae_in_row(g, i, j)[k]).row == i
                &&& j <= minutiae_in_row(g, i, j)[k].col < g[0].len() - 1
                &&& is_minutia_at(g, i, minutiae_in_row(g, i, j)[k].col as int)
                &&& minutiae_in_row(g, i, j)[k] == minutia_at(
                    g,
                    i,
                    minutiae_in_row(g, i, j)[k].col as int,
                )
            },
        forall|j2: int|
            j <= j2 < g[0].len() - 1 && is_minutia_at(g, i, j2) ==> minutiae_in_row(
                g,
                i,
                j,
            ).contains(minutia_at(g, i, j2)),
        forall|k: int, l: int|
            0 <= k < l < minutiae_in_row(g, i, j).len() ==> (#[trigger] minutiae_in_row(g, i, j)[k]).col
                < (#[trigger] minutiae_in_row(g, i, j)[l]).col,
    decreases g[0].len() - j,
{
    if j >= g[0].len() - 1 {
        // empty: nothing to show
    } else {
        lemma_minutiae_in_row_props(g, i, j + 1);
        let s = minutiae_in_row(g, i, j);
        let head: Seq<Minutia> = if is_minutia_at(g, i, j) {
            seq![minutia_at(g, i, j)]
        } else {
            Seq::empty()
        };
        let tail = minutiae_in_row(g, i, j + 1);
        assert(s == head + tail);
        assert forall|j2: int|
            j <= j2 < g[0].len() - 1 && is_minutia_at(g, i, j2) implies s.contains(
            minutia_at(g, i, j2),
        ) by {
            if j2 == j {
                assert(s[0] == minutia_at(g, i, j));
            } else {
                assert(tail.contains(minutia_at(g, i, j2)));
                let k2 = choose|k2: int|
                    0 <= k2 < tail.len() && tail[k2] == minutia_at(g, i, j2);
                assert(s[head.len() + k2] == minutia_at(g, i, j2));
            }
        }
    }
}

/// Every minutia of the grid from row `i` on carries its own source position,
/// satisfies the detection condition there, and the list is in strictly
/// increasing row-major order and complete.
proof fn lemma_minutiae_from_row_props(g: Seq<Seq<u8>>, i: int)
    requires
        1 <= i,
        g.len() <= usize::MAX,
        g[0].len() <= usize::MAX,
    ensures
        forall|k: int|
            0 <= k < minutiae_from_row(g, i).len() ==> {
                &&& i <= (#[trigger] minutiae_from_row(g, i)[k]).row < g.len() - 1
                &&& 1 <= minutiae_from_row(g, i)[k].col < g[0].len() - 1
                &&& is_minutia_at(
                    g,
                    minutiae_from_row(g, i)[k].row as int,
                    minutiae_from_row(g, i)[k].col as int,
                )
                &&& minutiae_from_row(g, i)[k] == minutia_at(
                    g,
                    minutiae_from_row(g, i)[k].row as int,
                    minutiae_from_row(g, i)[k].col as int,
                )
            },
        forall|i2: int, j2: int|
            i <= i2 && 1 <= j2 && is_minutia_at(g, i2, j2) ==> minutiae_from_row(g, i).contains(
                minutia_at(g, i2, j2),
            ),
        forall|k: int, l: int|
            0 <= k < l < minutiae_from_row(g, i).len() ==> {
                ||| (#[trigger] minutiae_from_row(g, i)[k]).row < (#[trigger] minutiae_from_row(
                    g,
                    i,
                )[l]).row
                ||| (minutiae_from_row(g, i)[k].row == minutiae_from_row(g, i)[l].row
                    && minutiae_from_row(g, i)[k].col < minutiae_from_row(g, i)[l].col)
            },
    decreases g.len() - i,
{
    if i >= g.len() - 1 {
        // empty: nothing to show
    } else {
        lemma_minutiae_in_row_props(g, i, 1);
        lemma_minutiae_from_row_props(g, i + 1);
        let s = minutiae_from_row(g, i);
        let head = minutiae_in_row(g, i, 1);
        let tail = minutiae_from_row(g, i + 1);
        assert(s == head + tail);
        assert forall|i2: int, j2: int|
            i <= i2 && 1 <= j2 && is_minutia_at(g, i2, j2) implies s.contains(
            minutia_at(g, i2, j2),
        ) by {
            if i2 == i {
                assert(in_interior(g, i2, j2));
                assert(head.contains(minutia_at(g, i2, j2)));
                let k2 = choose|k2: int|
                    0 <= k2 < head.len() && head[k2] == minutia_at(g, i2, j2);
                assert(s[k2] == minutia_at(g, i2, j2));
            } else {
                assert(tail.contains(minutia_at(g, i2, j2)));
                let k2 = choose|k2: int|
                    0 <= k2 < tail.len() && tail[k2] == minutia_at(g, i2, j2);
                assert(s[head.len() + k2] == minutia_at(g, i2, j2));
            }
        }
    }
}

/// Type-sum contract of the detector: every listed minutia sits on an
/// interior ridge pixel whose 8-neighbor sum is exactly 1 for a ridge ending
/// and exactly 3 for a bifurcation, and every such pixel is listed.
pub proof fn lemma_minutiae_type_sum(g: Seq<Seq<u8>>)
    requires
        g.len() <= usize::MAX,
        g[0].len() <= usize::MAX,
    ensures
        forall|k: int|
            0 <= k < grid_minutiae(g).len() ==> {
                &&& in_interior(
                    g,
                    (#[trigger] grid_minutiae(g)[k]).row as int,
                    grid_minutiae(g)[k].col as int,
                )
                &&& g[grid_minutiae(g)[k].row as int][grid_minutiae(g)[k].col as int] == 1
                &&& (grid_minutiae(g)[k].minutia_type == MinutiaType::RidgeEnding <==> neighbor_sum(
                    g,
                    grid_minutiae(g)[k].row as int,
                    grid_minutiae(g)[k].col as int,
                ) == 1)
                &&& (grid_minutiae(g)[k].minutia_type == MinutiaType::Bifurcation <==> neighbor_sum(
                    g,
                    grid_minutiae(g)[k].row as int,
                    grid_minutiae(g)[k].col as int,
                ) == 3)
            },
        forall|i: int, j: int|
            is_minutia_at(g, i, j) ==> grid_minutiae(g).contains(minutia_at(g, i, j)),
{
    lemma_minutiae_from_row_props(g, 1);
}

/// No two minutiae of a grid are equal: the scan visits each pixel once, so
/// the listed positions strictly increase in row-major order.
pub proof fn lemma_minutiae_distinct(g: Seq<Seq<u8>>)
    requires
        g.len() <= usize::MAX,
        g[0].len() <= usize::MAX,
    ensures
        forall|k: int, l: int|
            0 <= k < l < grid_minutiae(g).len() ==> #[trigger] grid_minutiae(g)[k]
                != #[trigger] grid_minutiae(g)[l],
{
    lemma_minutiae_from_row_props(g, 1);
}

/// Scans every interior pixel of a finalized skeleton and collects the
/// minutiae: ridge endings where the 8-neighbor sum is 1, bifurcations where
/// it is 3, in row-major order.
#[verifier::loop_isolation(false)]
pub fn mark_minutia(image: &Vec<Vec<u8>>) -> (res: Vec<Minutia>)
    requires
        grid_wf(gv(image@)),
    ensures
        res@ == grid_minutiae(gv(image@)),
{
    let ghost g = gv(image@);
    let h = image.len();
    let w = image[0].len();
    proof {
        assert(g[0] == image@[0]@);
        assert(minutiae_from_row(g, 1) == grid_minutiae(g));
    }
    let mut res: Vec<Minutia> = Vec::new();
    let mut i: usize = 1;
    while i < h - 1
        invariant
            1 <= i <= h - 1,
            res@ + minutiae_from_row(g, i as int) == grid_minutiae(g),
        decreases h - i,
    {
        let mut j: usize = 1;
        proof {
            assert(minutiae_from_row(g, i as int) == minutiae_in_row(g, i as int, 1)
                + minutiae_from_row(g, i as int + 1));
            assert(res@ + (minutiae_in_row(g, i as int, 1) + minutiae_from_row(g, i as int + 1))
                =~= res@ + minutiae_in_row(g, i as int, 1) + minutiae_from_row(g, i as int + 1));
        }
        while j < w - 1
            invariant
                1 <= j <= w - 1,
                res@ + minutiae_in_row(g, i as int, j as int) + minutiae_from_row(g, i as int + 1)
                    == grid_minutiae(g),
            decreases w - j,
        {
            proof {
                assert(gv(image@)[i as int] == image@[i as int]@);
            }
            let ghost res_before = res@;
            if image[i][j] == 1 {
                let ns = get_neighbors(image, i, j);
                let s = sum8(&ns);
                if s == 1 {
                    res.push(
                        Minutia { row: i, col: j, minutia_type: MinutiaType::RidgeEnding },
                    );
                } else if s == 3 {
                    res.push(
                        Minutia { row: i, col: j, minutia_type: MinutiaType::Bifurcation },
                    );
                }
            }
            proof {
                let ii = i as int;
                let jj = j as int;
                assert(minutiae_in_row(g, ii, jj) == (if is_minutia_at(g, ii, jj) {
                    seq![minutia_at(g, ii, jj)]
                } else {
                    Seq::<Minutia>::empty()
                }) + minutiae_in_row(g, ii, jj + 1));
                if is_minutia_at(g, ii, jj) {
                    assert(res@ =~= res_before + seq![minutia_at(g, ii, jj)]);
                    assert(res@ + minutiae_in_row(g, ii, jj + 1) =~= res_before + minutiae_in_row(
                        g,
                        ii,
                        jj,
                    ));
                } else {
                    assert(res@ == res_before);
                    assert(res@ + minutiae_in_row(g, ii, jj + 1) =~= res_before + minutiae_in_row(
                        g,
                        ii,
                        jj,
                    ));
                }
                assert(res@ + minutiae_in_row(g, ii, jj + 1) + minutiae_from_row(g, ii + 1)
                    =~= res_before + minutiae_in_row(g, ii, jj) + minutiae_from_row(g, ii + 1));
            }
            j += 1;
        }
        proof {
            assert(minutiae_in_row(g, i as int, j as int) =~= Seq::<Minutia>::empty());
            assert(res@ + Seq::<Minutia>::empty() =~= res@);
            assert(res@ + minutiae_from_row(g, i as int + 1) =~= res@ + minutiae_in_row(
                g,
                i as int,
                j as int,
            ) + minutiae_from_row(g, i as int + 1));
        }
        i += 1;
    }
    proof {
        assert(minutiae_from_row(g, i as int) =~= Seq::<Minutia>::empty());
        assert(res@ =~= res@ + minutiae_from_row(g, i as int));
    }
    res
}

} // verus!

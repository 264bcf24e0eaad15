//! False-minutia suppression: minutia pairs that lie closer than a distance
//! threshold are artifacts of noise; both members of such a pair are erased
//! from the source image.

use vstd::prelude::*;
use vstd::pervasive::VecAdditionalExecFns;
use crate::grid::{grid_rect, gv, set_cell};
use crate::minutiae::{Minutia, MinutiaType};

verus! {

/// Squared Euclidean distance between two minutia positions.
pub open spec fn dist_sq(a: Minutia, b: Minutia) -> int {
    (a.row - b.row) * (a.row - b.row) + (a.col - b.col) * (a.col - b.col)
}

/// The two points lie strictly closer than `t` pixels apart (compared on
/// squared distances, which is exact for a whole-pixel threshold).
pub open spec fn pair_close(a: Minutia, b: Minutia, t: int) -> bool {
    dist_sq(a, b) < t * t
}

/// A pair of minutiae is flagged false when it is closer than the distance
/// threshold and matches one of the fuzzy rules: a termination paired with a
/// bifurcation, two bifurcations, or two terminations. A further rule on the
/// orientation angle of two close terminations is subsumed by the two-
/// terminations rule, which already flags every such pair, so no angle enters
/// the decision.
pub open spec fn pair_false(a: Minutia, b: Minutia, t: int) -> bool {
    pair_close(a, b, t) && {
        ||| a.minutia_type != b.minutia_type
        ||| (a.minutia_type == MinutiaType::Bifurcation && b.minutia_type
            == MinutiaType::Bifurcation)
        ||| (a.minutia_type == MinutiaType::RidgeEnding && b.minutia_type
            == MinutiaType::RidgeEnding)
    }
}

/// The minutia at index `k` forms a false pair with some other list member.
pub open spec fn flagged(ms: Seq<Minutia>, t: int, k: int) -> bool {
    exists|l: int| 0 <= l < ms.len() && l != k && pair_false(ms[k], ms[l], t)
}

/// Some flagged minutia of the list sits at pixel `(i, j)`.
pub open spec fn cleared_at(ms: Seq<Minutia>, t: int, i: int, j: int) -> bool {
    exists|k: int| 0 <= k < ms.len() && #[trigger] flagged(ms, t, k) && ms[k].row == i && ms[k].col
        == j
}

/// Squared distance does not depend on the order of its two points.
pub proof fn lemma_dist_sq_sym(a: Minutia, b: Minutia)
    ensures
        dist_sq(a, b) == dist_sq(b, a),
{
    let dr: int = a.row - b.row;
    let dc: int = a.col - b.col;
    assert(dr * dr == (-dr) * (-dr) && dc * dc == (-dc) * (-dc)) by (nonlinear_arith);
}

/// Whether a pair is flagged false does not depend on the order of its two
/// points.
pub proof fn lemma_pair_false_sym(a: Minutia, b: Minutia, t: int)
    ensures
        pair_false(a, b, t) == pair_false(b, a, t),
{
    lemma_dist_sq_sym(a, b);
}

/// Pairs already scanned when the outer index is at `i` and the inner index
/// at `j`: all pairs `(a, b)` with `a < b` that precede `(i, j)` in the scan.
pub open spec fn flagged_prefix(ms: Seq<Minutia>, t: int, k: int, i: int, j: int) -> bool {
    exists|a: int, b: int|
        0 <= a < b < ms.len() && (a < i || (a == i && b < j)) && (k == a || k == b) && pair_false(
            ms[a],
            ms[b],
            t,
        )
}

/// Once every pair has been scanned, the prefix predicate coincides with
/// `flagged`.
proof fn lemma_flagged_prefix_full(ms: Seq<Minutia>, t: int, k: int)
    requires
        0 <= k < ms.len(),
    ensures
        flagged_prefix(ms, t, k, ms.len() as int, ms.len() as int + 1) == flagged(ms, t, k),
{
    let n = ms.len() as int;
    if flagged_prefix(ms, t, k, n, n + 1) {
        let (a, b) = choose|a: int, b: int|
            0 <= a < b < n && (a < n || (a == n && b < n + 1)) && (k == a || k == b) && pair_false(
                ms[a],
                ms[b],
                t,
            );
        if k == a {
            assert(pair_false(ms[k], ms[b], t));
        } else {
            lemma_pair_false_sym(ms[a], ms[b], t);
            assert(pair_false(ms[k], ms[a], t));
        }
    }
    if flagged(ms, t, k) {
        let l = choose|l: int| 0 <= l < n && l != k && pair_false(ms[k], ms[l], t);
        if k < l {
            assert(0 <= k < l < n && (k < n) && (k == k || l == k) && pair_false(ms[k], ms[l], t));
        } else {
            lemma_pair_false_sym(ms[k], ms[l], t);
            assert(0 <= l < k < n && (l < n) && (k == l || k == k) && pair_false(ms[l], ms[k], t));
        }
        assert(flagged_prefix(ms, t, k, n, n + 1));
    }
}

/// Removes the false minutiae: every unordered pair of listed minutiae that
/// lies closer than `distance_threshold` pixels apart is flagged by the fuzzy
/// rules, and each flagged minutia has its source pixel cleared to 0. The
/// returned image is the authoritative output; the minutia list is stale
/// afterwards.
#[verifier::loop_isolation(false)]
pub fn remove_false_minutia(
    image: Vec<Vec<u8>>,
    minutia: Vec<Minutia>,
    distance_threshold: u64,
) -> (res: Vec<Vec<u8>>)
    requires
        grid_rect(gv(image@)),
        distance_threshold <= 0x8000_0000,
        forall|k: int|
            0 <= k < minutia@.len() ==> (#[trigger] minutia@[k]).row < image@.len()
                && minutia@[k].col < gv(image@)[0].len(),
    ensures
        res@.len() == image@.len(),
        forall|i: int| 0 <= i < image@.len() ==> #[trigger] gv(res@)[i].len() == gv(image@)[i].len(),
        forall|i: int, j: int|
            0 <= i < image@.len() && 0 <= j < gv(image@)[i].len() ==> #[trigger] gv(res@)[i][j]
                == (if cleared_at(minutia@, distance_threshold as int, i, j) {
                0u8
            } else {
                gv(image@)[i][j]
            }),
{
    let ghost ms = minutia@;
    let ghost t = distance_threshold as int;
    let ghost g0 = gv(image@);
    let n = minutia.len();
    let mut image = image;

    // Mark both members of every false pair, scanning unordered pairs
    // (i, j) with i < j.
    let mut flags: Vec<bool> = Vec::new();
    let mut k0: usize = 0;
    while k0 < n
        invariant
            flags@.len() == k0 <= n,
            forall|k: int| 0 <= k < k0 ==> !(#[trigger] flags@[k]),
        decreases n - k0,
    {
        flags.push(false);
        k0 += 1;
    }
    let mut i: usize = 0;
    while i < n
        invariant
            i <= n,
            flags@.len() == n,
            forall|k: int|
                0 <= k < n ==> #[trigger] flags@[k] == flagged_prefix(ms, t, k, i as int, i as int
                    + 1),
        decreases n - i,
    {
        let mut j: usize = i + 1;
        while j < n
            invariant
                i < j <= n,
                flags@.len() == n,
                forall|k: int|
                    0 <= k < n ==> #[trigger] flags@[k] == flagged_prefix(ms, t, k, i as int, j as int),
            decreases n - j,
        {
            let ghost flags_before = flags@;
            let f = pair_is_false(&minutia[i], &minutia[j], distance_threshold);
            if f {
                flags.set(i, true);
                flags.set(j, true);
            }
            proof {
                let ii = i as int;
                let jj = j as int;
                assert forall|k: int| 0 <= k < n implies #[trigger] flags@[k] == flagged_prefix(
                    ms,
                    t,
                    k,
                    ii,
                    jj + 1,
                ) by {
                    if flags@[k] {
                        if flags_before[k] {
                            let (a, b) = choose|a: int, b: int|
                                0 <= a < b < ms.len() && (a < ii || (a == ii && b < jj)) && (k == a
                                    || k == b) && pair_false(ms[a], ms[b], t);
                            assert(0 <= a < b < ms.len() && (a < ii || (a == ii && b < jj + 1)) && (
                            k == a || k == b) && pair_false(ms[a], ms[b], t));
                        } else {
                            assert(f && (k == ii || k == jj));
                            assert(0 <= ii < jj < ms.len() && (ii == ii && jj < jj + 1) && (k == ii
                                || k == jj) && pair_false(ms[ii], ms[jj], t));
                        }
                        assert(flagged_prefix(ms, t, k, ii, jj + 1));
                    } else {
                        if flagged_prefix(ms, t, k, ii, jj + 1) {
                            let (a, b) = choose|a: int, b: int|
                                0 <= a < b < ms.len() && (a < ii || (a == ii && b < jj + 1)) && (k
                                    == a || k == b) && pair_false(ms[a], ms[b], t);
                            if a == ii && b == jj {
                                assert(f);
                                assert(flags@[k]);
                            } else {
                                assert(a < ii || (a == ii && b < jj));
                                assert(flagged_prefix(ms, t, k, ii, jj));
                                assert(flags_before[k]);
                                assert(flags@[k]);
                            }
                            assert(false);
                        }
                    }
                }
            }
            j += 1;
        }
        proof {
            let ii = i as int;
            assert forall|k: int| 0 <= k < n implies #[trigger] flags@[k] == flagged_prefix(
                ms,
                t,
                k,
                ii + 1,
                ii + 2,
            ) by {
                if flags@[k] {
                    let (a, b) = choose|a: int, b: int|
                        0 <= a < b < ms.len() && (a < ii || (a == ii && b < n)) && (k == a || k
                            == b) && pair_false(ms[a], ms[b], t);
                    assert(0 <= a < b < ms.len() && (a < ii + 1 || (a == ii + 1 && b < ii + 2)) && (
                    k == a || k == b) && pair_false(ms[a], ms[b], t));
                    assert(flagged_prefix(ms, t, k, ii + 1, ii + 2));
                } else {
                    if flagged_prefix(ms, t, k, ii + 1, ii + 2) {
                        let (a, b) = choose|a: int, b: int|
                            0 <= a < b < ms.len() && (a < ii + 1 || (a == ii + 1 && b < ii + 2)) && (
                            k == a || k == b) && pair_false(ms[a], ms[b], t);
                        assert(a < ii || (a == ii && b < n));
                        assert(flagged_prefix(ms, t, k, ii, n as int));
                        assert(false);
                    }
                }
            }
        }
        i += 1;
    }
    proof {
        assert forall|k: int| 0 <= k < n implies #[trigger] flags@[k] == flagged(ms, t, k) by {
            lemma_flagged_prefix_full(ms, t, k);
        }
    }

    // Clear the source pixel of every flagged minutia.
    let mut k: usize = 0;
    while k < n
        invariant
            k <= n,
            image@.len() == g0.len(),
            forall|ri: int| 0 <= ri < g0.len() ==> #[trigger] gv(image@)[ri].len() == g0[ri].len(),
            forall|ri: int, cj: int|
                0 <= ri < g0.len() && 0 <= cj < g0[ri].len() ==> #[trigger] gv(image@)[ri][cj] == (
                if exists|k2: int|
                    0 <= k2 < k && #[trigger] flagged(ms, t, k2) && ms[k2].row == ri && ms[k2].col
                        == cj {
                    0u8
                } else {
                    g0[ri][cj]
                }),
        decreases n - k,
    {
        let ghost before = gv(image@);
        if flags[k] {
            let r = minutia[k].row;
            let c = minutia[k].col;
            proof {
                assert(gv(image@)[r as int].len() == g0[r as int].len());
                assert(g0[r as int].len() == g0[0].len());
            }
            set_cell(&mut image, r, c, 0u8);
        }
        proof {
            assert forall|ri: int, cj: int|
                0 <= ri < g0.len() && 0 <= cj < g0[ri].len() implies #[trigger] gv(image@)[ri][cj]
                == (if exists|k2: int|
                    0 <= k2 < k + 1 && #[trigger] flagged(ms, t, k2) && ms[k2].row == ri
                        && ms[k2].col == cj {
                    0u8
                } else {
                    g0[ri][cj]
                }) by {
                let kk = k as int;
                if flags@[kk] && ms[kk].row == ri && ms[kk].col == cj {
                    assert(gv(image@)[ri][cj] == 0);
                    assert(flagged(ms, t, kk));
                } else {
                    assert(gv(image@)[ri][cj] == before[ri][cj]);
                    if exists|k2: int|
                        0 <= k2 < k + 1 && #[trigger] flagged(ms, t, k2) && ms[k2].row == ri
                            && ms[k2].col == cj {
                        let k2 = choose|k2: int|
                            0 <= k2 < k + 1 && #[trigger] flagged(ms, t, k2) && ms[k2].row == ri
                                && ms[k2].col == cj;
                        assert(k2 < k);
                    }
                }
            }
        }
        k += 1;
    }
    proof {
        assert forall|ri: int, cj: int|
            0 <= ri < g0.len() && 0 <= cj < g0[ri].len() implies #[trigger] gv(image@)[ri][cj] == (
        if cleared_at(ms, t, ri, cj) {
            0u8
        } else {
            g0[ri][cj]
        }) by {
            assert(cleared_at(ms, t, ri, cj) == exists|k2: int|
                0 <= k2 < n && #[trigger] flagged(ms, t, k2) && ms[k2].row == ri && ms[k2].col
                    == cj);
        }
    }
    image
}

/// Decides whether two minutiae form a false pair under the fuzzy rules.
fn pair_is_false(a: &Minutia, b: &Minutia, t: u64) -> (r: bool)
    requires
        t <= 0x8000_0000,
    ensures
        r == pair_false(*a, *b, t as int),
{
    let dr: u64 = if a.row >= b.row {
        (a.row - b.row) as u64
    } else {
        (b.row - a.row) as u64
    };
    let dc: u64 = if a.col >= b.col {
        (a.col - b.col) as u64
    } else {
        (b.col - a.col) as u64
    };
    proof {
        assert((a.row - b.row) * (a.row - b.row) == dr * dr && (a.col - b.col) * (a.col - b.col)
            == dc * dc) by (nonlinear_arith)
            requires
                dr == (if a.row >= b.row {
                    a.row - b.row
                } else {
                    b.row - a.row
                }) && dc == (if a.col >= b.col {
                    a.col - b.col
                } else {
                    b.col - a.col
                }),
        ;
    }
    let close: bool = if dr >= t || dc >= t {
        proof {
            assert(dr * dr + dc * dc >= t * t) by (nonlinear_arith)
                requires
                    (dr >= t || dc >= t) && t >= 0 && dr >= 0 && dc >= 0,
            ;
        }
        false
    } else {
        proof {
            assert(dr * dr <= 0x4000_0000_0000_0000 && dc * dc <= 0x4000_0000_0000_0000 && t * t
                <= 0x4000_0000_0000_0000) by (nonlinear_arith)
                requires
                    dr < t && dc < t && 0 <= dr && 0 <= dc && t <= 0x8000_0000,
            ;
        }
        dr * dr + dc * dc < t * t
    };
    let mut is_false = false;
    // a termination paired with a bifurcation on the same short segment
    if close && a.minutia_type != b.minutia_type {
        is_false = true;
    }
    // two bifurcations too close together
    if !is_false && close && a.minutia_type == MinutiaType::Bifurcation && b.minutia_type
        == MinutiaType::Bifurcation {
        is_false = true;
    }
    // two terminations too close together (this also subsumes the narrower
    // rule on the orientation angle between two close terminations)
    if !is_false && close && a.minutia_type == MinutiaType::RidgeEnding && b.minutia_type
        == MinutiaType::RidgeEnding {
        is_false = true;
    }
    is_false
}

/// Order independence of false-pair detection: reversing the minutia list
/// flags exactly the same pixels for deletion.
pub proof fn lemma_false_pair_order_reversal(ms: Seq<Minutia>, t: int)
    ensures
        forall|i: int, j: int| cleared_at(ms.reverse(), t, i, j) <==> cleared_at(ms, t, i, j),
{
    let n = ms.len() as int;
    assert forall|i: int, j: int| cleared_at(ms.reverse(), t, i, j) <==> cleared_at(
        ms,
        t,
        i,
        j,
    ) by {
        if cleared_at(ms.reverse(), t, i, j) {
            let k = choose|k: int|
                0 <= k < n && #[trigger] flagged(ms.reverse(), t, k) && ms.reverse()[k].row == i
                    && ms.reverse()[k].col == j;
            let l = choose|l: int|
                0 <= l < n && l != k && pair_false(ms.reverse()[k], ms.reverse()[l], t);
            assert(ms.reverse()[k] == ms[n - 1 - k]);
            assert(ms.reverse()[l] == ms[n - 1 - l]);
            assert(pair_false(ms[n - 1 - k], ms[n - 1 - l], t));
            assert(flagged(ms, t, n - 1 - k));
            assert(cleared_at(ms, t, i, j));
        }
        if cleared_at(ms, t, i, j) {
            let k = choose|k: int|
                0 <= k < n && #[trigger] flagged(ms, t, k) && ms[k].row == i && ms[k].col == j;
            let l = choose|l: int| 0 <= l < n && l != k && pair_false(ms[k], ms[l], t);
            assert(ms.reverse()[n - 1 - k] == ms[k]);
            assert(ms.reverse()[n - 1 - l] == ms[l]);
            assert(pair_false(ms.reverse()[n - 1 - k], ms.reverse()[n - 1 - l], t));
            assert(flagged(ms.reverse(), t, n - 1 - k));
            assert(cleared_at(ms.reverse(), t, i, j));
        }
    }
}

} // verus!


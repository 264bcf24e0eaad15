//! Match scoring: re-derives the minutiae of two processed ridge maps and
//! greedily counts, over all cross pairs, the distinct minutiae of the first
//! map that lie within a fixed proximity of some minutia of the second.
//! The comparison assumes the two captures are already spatially aligned.

use vstd::prelude::*;
use crate::filter::dist_sq;
use crate::grid::{grid_wf, gv};
use crate::minutiae::{grid_minutiae, lemma_minutiae_distinct, mark_minutia, Minutia};

verus! {

/// Squared proximity threshold of the scorer: two minutiae match when their
/// distance is below 5 pixel units, that is, its square is below 25.
pub open spec fn match_dist_sq() -> int {
    25
}

/// How many matched minutiae the scorer demands before it accepts.
pub open spec fn match_count_needed() -> int {
    11
}

/// `m` lies within the proximity threshold of some member of `s2`.
pub open spec fn has_close(m: Minutia, s2: Seq<Minutia>) -> bool {
    exists|l: int| 0 <= l < s2.len() && dist_sq(m, #[trigger] s2[l]) < match_dist_sq()
}

/// The matching predicate against a fixed second minutia set.
pub open spec fn match_pred(s2: Seq<Minutia>) -> spec_fn(Minutia) -> bool {
    |m: Minutia| has_close(m, s2)
}

/// The minutiae of the first map that match some minutia of the second, in
/// scan order. Each is recorded once, so this is a plain filter.
pub open spec fn matched_minutiae(g1: Seq<Seq<u8>>, g2: Seq<Seq<u8>>) -> Seq<Minutia> {
    grid_minutiae(g1).filter(match_pred(grid_minutiae(g2)))
}

/// A filter that keeps every element returns the sequence unchanged.
proof fn lemma_filter_all<A>(s: Seq<A>, pred: spec_fn(A) -> bool)
    requires
        forall|k: int| 0 <= k < s.len() ==> pred(#[trigger] s[k]),
    ensures
        s.filter(pred) == s,
    decreases s.len(),
{
    reveal(Seq::filter);
    if s.len() > 0 {
        lemma_filter_all(s.drop_last(), pred);
        assert(s.filter(pred) =~= s);
    }
}

/// Every element kept by a filter is an element of the sequence.
proof fn lemma_filter_sub<A>(s: Seq<A>, pred: spec_fn(A) -> bool)
    ensures
        forall|i: int| 0 <= i < s.filter(pred).len() ==> s.contains(#[trigger] s.filter(pred)[i]),
    decreases s.len(),
{
    reveal(Seq::filter);
    if s.len() > 0 {
        lemma_filter_sub(s.drop_last(), pred);
        assert forall|i: int| 0 <= i < s.filter(pred).len() implies s.contains(
            #[trigger] s.filter(pred)[i],
        ) by {
            if i < s.drop_last().filter(pred).len() {
                assert(s.drop_last().contains(s.drop_last().filter(pred)[i]));
                let j = choose|j: int|
                    0 <= j < s.drop_last().len() && s.drop_last()[j] == s.drop_last().filter(
                        pred,
                    )[i];
                assert(s[j] == s.filter(pred)[i]);
            } else {
                assert(s.filter(pred)[i] == s.last());
                assert(s[s.len() - 1] == s.last());
            }
        }
    }
}

/// Comparing a map against an exact copy of itself matches every one of its
/// minutiae: each lies at distance zero from itself.
pub proof fn lemma_self_match(g: Seq<Seq<u8>>)
    ensures
        matched_minutiae(g, g) == grid_minutiae(g),
{
    let s = grid_minutiae(g);
    assert forall|k: int| 0 <= k < s.len() implies (match_pred(s))(#[trigger] s[k]) by {
        assert(dist_sq(s[k], s[k]) == 0);
    }
    lemma_filter_all(s, match_pred(s));
}

/// Whether the first minutia lies within the scorer's proximity threshold of
/// the second.
fn within_match_distance(a: &Minutia, b: &Minutia) -> (r: bool)
    ensures
        r == (dist_sq(*a, *b) < match_dist_sq()),
{
    let dr: u64 = if a.row >= b.row {
        (a.row - b.row) as u64
    } else {
        (b.row - a.row) as u64
    };
    let dc: u64 = if a.col >= b.col {
        (a.col - b.col) as u64
    } else {
        (b.col - a.col) as u64
    };
    proof {
        assert((a.row - b.row) * (a.row - b.row) == dr * dr && (a.col - b.col) * (a.col - b.col)
            == dc * dc) by (nonlinear_arith)
            requires
                dr == (if a.row >= b.row {
                    a.row - b.row
                } else {
                    b.row - a.row
                }) && dc == (if a.col >= b.col {
                    a.col - b.col
                } else {
                    b.col - a.col
                }),
        ;
    }
    if dr >= 5 || dc >= 5 {
        proof {
            assert(dr * dr + dc * dc >= 25) by (nonlinear_arith)
                requires
                    (dr >= 5 || dc >= 5) && dr >= 0 && dc >= 0,
            ;
        }
        false
    } else {
        proof {
            assert(dr * dr <= 16 && dc * dc <= 16) by (nonlinear_arith)
                requires
                    dr < 5 && dc < 5 && dr >= 0 && dc >= 0,
            ;
        }
        dr * dr + dc * dc < 25
    }
}

/// Whether the list already records this minutia.
#[verifier::loop_isolation(false)]
fn contains_minutia(v: &Vec<Minutia>, m: &Minutia) -> (r: bool)
    ensures
        r == v@.contains(*m),
{
    let n = v.len();
    let mut k: usize = 0;
    while k < n
        invariant
            k <= n,
            forall|k2: int| 0 <= k2 < k ==> v@[k2] != *m,
        decreases n - k,
    {
        if v[k] == *m {
            proof {
                assert(v@[k as int] == *m);
            }
            return true;
        }
        k += 1;
    }
    false
}

/// Re-derives the minutiae of both maps and records each minutia of the
/// first that lies within the proximity threshold of some minutia of the
/// second, once.
#[verifier::loop_isolation(false)]
pub fn minutiae_matching(image1: &Vec<Vec<u8>>, image2: &Vec<Vec<u8>>) -> (matches: Vec<Minutia>)
    requires
        grid_wf(gv(image1@)),
        grid_wf(gv(image2@)),
    ensures
        matches@ == matched_minutiae(gv(image1@), gv(image2@)),
{
    let h1 = image1.len();
    let w1 = image1[0].len();
    proof {
        assert(gv(image1@)[0] == image1@[0]@);
        lemma_minutiae_distinct(gv(image1@));
    }
    let minutiae1 = mark_minutia(image1);
    let minutiae2 = mark_minutia(image2);
    let ghost s1 = minutiae1@;
    let ghost s2 = minutiae2@;
    let ghost pred = match_pred(s2);
    let n1 = minutiae1.len();
    let n2 = minutiae2.len();
    let mut matches: Vec<Minutia> = Vec::new();
    proof {
        reveal(Seq::filter);
        assert(s1.take(0) =~= Seq::<Minutia>::empty());
        assert(matches@ == s1.take(0).filter(pred));
    }
    let mut k1: usize = 0;
    while k1 < n1
        invariant
            k1 <= n1,
            matches@ == s1.take(k1 as int).filter(pred),
        decreases n1 - k1,
    {
        let mut found = false;
        let mut k2: usize = 0;
        while k2 < n2
            invariant
                k2 <= n2,
                found == exists|l: int|
                    0 <= l < k2 && dist_sq(s1[k1 as int], #[trigger] s2[l]) < match_dist_sq(),
            decreases n2 - k2,
        {
            if within_match_distance(&minutiae1[k1], &minutiae2[k2]) {
                found = true;
            }
            k2 += 1;
        }
        proof {
            assert(found == pred(s1[k1 as int]));
        }
        let ghost matches_before = matches@;
        if found && !contains_minutia(&matches, &minutiae1[k1]) {
            matches.push(minutiae1[k1]);
        }
        proof {
            reveal(Seq::filter);
            let kk = k1 as int;
            assert(s1.take(kk + 1).drop_last() =~= s1.take(kk));
            assert(s1.take(kk + 1).last() == s1[kk]);
            if found {
                // the current minutia cannot already be recorded: recorded
                // minutiae come from the strictly earlier scan positions, and
                // minutiae are pairwise distinct
                assert(!matches_before.contains(s1[kk])) by {
                    if matches_before.contains(s1[kk]) {
                        lemma_filter_sub(s1.take(kk), pred);
                        let i = choose|i: int|
                            0 <= i < matches_before.len() && matches_before[i] == s1[kk];
                        assert(s1.take(kk).contains(s1[kk]));
                        let j = choose|j: int| 0 <= j < kk && s1.take(kk)[j] == s1[kk];
                        assert(s1[j] == s1[kk] && j < kk);
                    }
                }
                assert(matches@ =~= matches_before.push(s1[kk]));
                assert(matches@ == s1.take(kk + 1).filter(pred));
            } else {
                assert(matches@ == s1.take(kk + 1).filter(pred));
            }
        }
        k1 += 1;
    }
    proof {
        assert(s1.take(n1 as int) =~= s1);
    }
    matches
}

/// Compares two processed ridge maps: accepts exactly when more than 11
/// distinct minutiae of the first map match minutiae of the second.
pub fn match_test(mat_try: Vec<Vec<u8>>, mat_db: Vec<Vec<u8>>) -> (r: bool)
    requires
        grid_wf(gv(mat_try@)),
        grid_wf(gv(mat_db@)),
    ensures
        r == (matched_minutiae(gv(mat_try@), gv(mat_db@)).len() > match_count_needed()),
{
    let matches = minutiae_matching(&mat_try, &mat_db);
    matches.len() > 11
}

} // verus!

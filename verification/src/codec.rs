//! Persistence helpers: a ridge map travels as a flattened row-major byte
//! sequence plus its dimensions, and comes back unchanged.

use vstd::prelude::*;
use crate::grid::{grid_rect, gv};

verus! {

/// The byte sequence split into consecutive rows of `cols` cells; a final
/// short remainder becomes a short row.
pub open spec fn chunks_of(s: Seq<u8>, cols: int) -> Seq<Seq<u8>>
    decreases s.len(),
{
    if cols < 1 || s.len() == 0 {
        Seq::empty()
    } else if s.len() <= cols {
        seq![s]
    } else {
        seq![s.take(cols)] + chunks_of(s.skip(cols), cols)
    }
}

/// Flattens a grid into a row-major byte sequence.
#[verifier::loop_isolation(false)]
pub fn flatten(vec: Vec<Vec<u8>>) -> (res: Vec<u8>)
    ensures
        res@ == gv(vec@).flatten(),
{
    let ghost g = gv(vec@);
    let n = vec.len();
    let mut res: Vec<u8> = Vec::new();
    let mut i: usize = 0;
    proof {
        assert(g.take(0) =~= Seq::<Seq<u8>>::empty());
    }
    while i < n
        invariant
            i <= n,
            res@ == g.take(i as int).flatten_alt(),
        decreases n - i,
    {
        proof {
            assert(gv(vec@)[i as int] == vec@[i as int]@);
        }
        let row = &vec[i];
        let m = row.len();
        let mut j: usize = 0;
        while j < m
            invariant
                j <= m,
                res@ == g.take(i as int).flatten_alt() + g[i as int].take(j as int),
            decreases m - j,
        {
            res.push(row[j]);
            proof {
                assert(g[i as int].take(j + 1) =~= g[i as int].take(j as int).push(g[i as int][j as int]));
                assert(res@ =~= g.take(i as int).flatten_alt() + g[i as int].take(j + 1));
            }
            j += 1;
        }
        proof {
            assert(g[i as int].take(m as int) =~= g[i as int]);
            assert(g.take(i + 1).drop_last() =~= g.take(i as int));
            assert(g.take(i + 1).last() == g[i as int]);
            assert(g.take(i + 1).flatten_alt() == g.take(i as int).flatten_alt() + g[i as int]);
        }
        i += 1;
    }
    proof {
        assert(g.take(n as int) =~= g);
        g.lemma_flatten_and_flatten_alt_are_equivalent();
    }
    res
}

/// Rebuilds a grid from a row-major byte sequence, `cols` cells per row. The
/// row count is implied by the data and the width, so the `rows` argument is
/// not otherwise consulted.
#[allow(unused_variables)]
#[verifier::loop_isolation(false)]
pub fn reconstruct(flat: Vec<u8>, rows: usize, cols: usize) -> (res: Vec<Vec<u8>>)
    requires
        cols >= 1,
    ensures
        gv(res@) == chunks_of(flat@, cols as int),
{
    let ghost s = flat@;
    let n = flat.len();
    let mut res: Vec<Vec<u8>> = Vec::new();
    let mut pos: usize = 0;
    proof {
        assert(s.skip(0) =~= s);
        assert(gv(res@) =~= Seq::<Seq<u8>>::empty());
        assert(gv(res@) + chunks_of(s.skip(0), cols as int) =~= chunks_of(s, cols as int));
    }
    while pos < n
        invariant
            pos <= n,
            chunks_of(s, cols as int) == gv(res@) + chunks_of(s.skip(pos as int), cols as int),
        decreases n - pos,
    {
        let remaining = n - pos;
        let take_n = if remaining < cols {
            remaining
        } else {
            cols
        };
        let mut row: Vec<u8> = Vec::new();
        let mut j: usize = 0;
        while j < take_n
            invariant
                j <= take_n,
                pos + take_n <= n,
                row@ == s.subrange(pos as int, pos + j),
            decreases take_n - j,
        {
            row.push(flat[pos + j]);
            proof {
                assert(row@ =~= s.subrange(pos as int, pos + j + 1));
            }
            j += 1;
        }
        let ghost res_before = res@;
        res.push(row);
        proof {
            let p = pos as int;
            let c = cols as int;
            let rest = s.skip(p);
            assert(rest.len() == n - pos);
            assert forall|k: int| 0 <= k < rest.len() implies rest[k] == s[p + k] by {}
            if remaining < cols {
                assert(row@ =~= rest);
                assert(chunks_of(rest, c) =~= seq![rest]);
            } else {
                assert(row@ =~= rest.take(c));
                assert(chunks_of(rest, c) == seq![rest.take(c)] + chunks_of(rest.skip(c), c));
                assert(rest.skip(c) =~= s.skip(p + c));
            }
            assert forall|k: int| 0 <= k < res@.len() implies #[trigger] gv(res@)[k] == (if k
                < res_before.len() {
                gv(res_before)[k]
            } else {
                row@
            }) by {
                assert(gv(res@)[k] == res@[k]@);
                if k < res_before.len() {
                    assert(gv(res_before)[k] == res_before[k]@);
                }
            }
            assert(gv(res@) =~= gv(res_before) + seq![row@]);
            if remaining < cols {
                assert(gv(res@) + chunks_of(s.skip(p + remaining), c) =~= gv(res_before)
                    + chunks_of(rest, c));
            } else {
                assert(gv(res@) + chunks_of(s.skip(p + c), c) =~= gv(res_before) + chunks_of(
                    rest,
                    c,
                ));
            }
        }
        pos += take_n;
    }
    proof {
        assert(chunks_of(s.skip(pos as int), cols as int) =~= Seq::<Seq<u8>>::empty());
        assert(gv(res@) =~= gv(res@) + Seq::<Seq<u8>>::empty());
    }
    res
}

/// Round trip of persistence: flattening a rectangular grid and splitting the
/// bytes back into rows of the grid's width returns the grid unchanged.
pub proof fn lemma_reconstruct_flatten(g: Seq<Seq<u8>>, cols: int)
    requires
        grid_rect(g),
        g.len() >= 1 ==> cols == g[0].len(),
        cols >= 1,
    ensures
        chunks_of(g.flatten(), cols) == g,
    decreases g.len(),
{
    if g.len() == 0 {
        assert(g.flatten().len() == 0);
        assert(chunks_of(g.flatten(), cols) =~= g);
    } else {
        let rest = g.drop_first();
        let s = g.flatten();
        assert(s == g.first() + rest.flatten());
        assert(grid_rect(rest) && (rest.len() >= 1 ==> rest[0].len() == cols)) by {
            assert forall|i: int| 0 <= i < rest.len() implies #[trigger] rest[i].len()
                == rest[0].len() by {
                assert(rest[i] == g[i + 1]);
                assert(g[i + 1].len() == g[0].len());
                if rest.len() >= 1 {
                    assert(rest[0] == g[1]);
                }
            }
            if rest.len() >= 1 {
                assert(rest[0] == g[1]);
                assert(g[1].len() == g[0].len());
            }
        }
        lemma_reconstruct_flatten(rest, cols);
        if g.len() == 1 {
            assert(rest.len() == 0);
            assert(rest.flatten().len() == 0);
            assert(s =~= g.first());
            assert(s.len() == cols);
            assert(chunks_of(s, cols) =~= seq![s]);
            assert(seq![s] =~= g);
        } else {
            assert(rest.len() >= 1);
            assert(rest.flatten().len() >= rest[0].len()) by {
                assert(rest.flatten() == rest.first() + rest.drop_first().flatten());
            }
            assert(s.len() > cols);
            assert(chunks_of(s, cols) == seq![s.take(cols)] + chunks_of(s.skip(cols), cols));
            assert(s.take(cols) =~= g.first());
            assert(s.skip(cols) =~= rest.flatten());
            assert(seq![g.first()] + rest =~= g);
        }
    }
}

} // verus!

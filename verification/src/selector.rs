//! The move selector: two stateless random policies over the legal-move
//! list of a player — a uniform pick, and a positionally filtered pick.

use vstd::prelude::*;

use crate::game::Board;
use crate::game::Coordinate;
use crate::game::Player;
use crate::game::cell_key;
use crate::game::distinct_coords;
use crate::game::move_legal;
use crate::game::no_moves;

verus! {

/// Relies on rand::random_range over `0..n`, the thread-local generator:
/// the sample lies in the range. It panics only on an empty range, which
/// `n >= 1` rules out.
#[verifier::external_body]
fn random_below(n: usize) -> (r: usize)
    requires
        n >= 1,
    ensures
        r < n,
{
    rand::random_range(0..n)
}

/// Removing one candidate keeps the others as they were, in their relative
/// order: each survivor equals some element of the old list, and strictly
/// increasing board order is preserved.
proof fn lemma_removal_keeps_order(before: Seq<Coordinate>, after: Seq<Coordinate>, x: int)
    requires
        0 <= x < before.len(),
        after == before.remove(x),
        forall|i: int, j: int|
            0 <= i < j < before.len() ==> cell_key(#[trigger] before[i]) < cell_key(
                #[trigger] before[j],
            ),
    ensures
        forall|i: int, j: int|
            0 <= i < j < after.len() ==> cell_key(#[trigger] after[i]) < cell_key(
                #[trigger] after[j],
            ),
        forall|i: int|
            0 <= i < after.len() ==> (#[trigger] after[i]) == before[i] || after[i] == before[i
                + 1],
{
    before.remove_ensures(x);
    assert forall|i: int|
        0 <= i < after.len() implies (#[trigger] after[i]) == before[i] || after[i] == before[i
        + 1] by {
        if i < x {
            assert(after[i] == before[i]);
        } else {
            assert(after[i] == before[i + 1]);
        }
    }
    assert forall|i: int, j: int| 0 <= i < j < after.len() implies cell_key(#[trigger] after[i])
        < cell_key(#[trigger] after[j]) by {
        if j < x {
            assert(after[i] == before[i] && after[j] == before[j]);
        } else if i < x {
            assert(after[i] == before[i] && after[j] == before[j + 1]);
        } else {
            assert(after[i] == before[i + 1] && after[j] == before[j + 1]);
        }
    }
}

impl Board {
    /// Pick one of `p`'s legal moves by random elimination: candidates are
    /// removed one at a time until a single one is left. The result is that
    /// one move, or empty when `p` has no legal move; the board itself is
    /// untouched.
    pub fn ai_move(self: &mut Self, p: Player) -> (r: Vec<Coordinate>)
        requires
            old(self).wf(),
        ensures
            final(self).grid() == old(self).grid(),
            final(self).current_player == old(self).current_player,
            final(self).next_player == old(self).next_player,
            final(self).wf(),
            forall|i: int|
                0 <= i < r@.len() ==> move_legal(
                    old(self).grid(),
                    p,
                    (#[trigger] r@[i]).x as int,
                    r@[i].y as int,
                ),
            r@.len() == 0 <==> no_moves(old(self).grid(), p),
            r@.len() <= 1,
    {
        let ghost g = self.grid();
        let mut move_list = self.legal_moves(p);
        proof {
            if move_list@.len() == 0 {
                assert forall|x: int, y: int| !move_legal(g, p, x, y) by {
                    if move_legal(g, p, x, y) {
                        let c = Coordinate { x: x as usize, y: y as usize };
                        assert(move_list@.contains(c));
                    }
                }
            } else {
                assert(move_list@.contains(move_list@[0]));
                assert(!no_moves(g, p));
            }
            assert forall|i: int|
                0 <= i < move_list@.len() ==> move_legal(
                    g,
                    p,
                    (#[trigger] move_list@[i]).x as int,
                    move_list@[i].y as int,
                ) by {
                if 0 <= i < move_list@.len() {
                    assert(move_list@.contains(move_list@[i]));
                }
            }
        }
        let mut len = move_list.len();
        while len > 1
            invariant
                len == move_list@.len(),
                move_list@.len() == 0 <==> no_moves(g, p),
                forall|i: int|
                    0 <= i < move_list@.len() ==> move_legal(
                        g,
                        p,
                        (#[trigger] move_list@[i]).x as int,
                        move_list@[i].y as int,
                    ),
            decreases len,
        {
            let ghost before = move_list@;
            let rand_num = random_below(len);
            move_list.remove(rand_num);
            len = len - 1;
            proof {
                before.remove_ensures(rand_num as int);
            }
        }
        move_list
    }

    /// Pick among `p`'s legal moves by random elimination with a positional
    /// filter that deprioritizes edge and corner-adjacent squares. The
    /// filter sometimes only shrinks the elimination budget instead of
    /// removing a candidate, so the result can hold more than one move: a
    /// duplicate-free selection of legal moves in the legal-move list's own
    /// order, empty exactly when `p` has no legal move; the board itself is
    /// untouched.
    pub fn ai_move_with_heuristics(self: &mut Self, p: Player) -> (r: Vec<Coordinate>)
        requires
            old(self).wf(),
        ensures
            final(self).grid() == old(self).grid(),
            final(self).current_player == old(self).current_player,
            final(self).next_player == old(self).next_player,
            final(self).wf(),
            forall|i: int|
                0 <= i < r@.len() ==> move_legal(
                    old(self).grid(),
                    p,
                    (#[trigger] r@[i]).x as int,
                    r@[i].y as int,
                ),
            r@.len() == 0 <==> no_moves(old(self).grid(), p),
            distinct_coords(r@),
            forall|i: int, j: int|
                0 <= i < j < r@.len() ==> cell_key(#[trigger] r@[i]) < cell_key(#[trigger] r@[j]),
    {
        let ghost g = self.grid();
        let mut move_list = self.legal_moves(p);
        proof {
            if move_list@.len() == 0 {
                assert forall|x: int, y: int| !move_legal(g, p, x, y) by {
                    if move_legal(g, p, x, y) {
                        let c = Coordinate { x: x as usize, y: y as usize };
                        assert(move_list@.contains(c));
                    }
                }
            } else {
                assert(move_list@.contains(move_list@[0]));
                assert(!no_moves(g, p));
            }
            assert forall|i: int|
                0 <= i < move_list@.len() ==> move_legal(
                    g,
                    p,
                    (#[trigger] move_list@[i]).x as int,
                    move_list@[i].y as int,
                ) by {
                if 0 <= i < move_list@.len() {
                    assert(move_list@.contains(move_list@[i]));
                }
            }
        }
        let mut len = move_list.len();
        while len > 1
            invariant
                len <= move_list@.len(),
                len >= 1 || move_list@.len() == 0,
                move_list@.len() == 0 <==> no_moves(g, p),
                forall|i: int|
                    0 <= i < move_list@.len() ==> move_legal(
                        g,
                        p,
                        (#[trigger] move_list@[i]).x as int,
                        move_list@[i].y as int,
                    ),
                forall|i: int, j: int|
                    0 <= i < j < move_list@.len() ==> cell_key(#[trigger] move_list@[i]) < cell_key(
                        #[trigger] move_list@[j],
                    ),
            decreases len,
        {
            let ghost before = move_list@;
            let x = random_below(len);
            let m = move_list[x];
            if !(m.x != 1 && m.x != 0 && m.x != 6 && m.x != 7 || m.x != 1 && m.y != 1 && m.x != 6
                && m.y != 6 || m.y != 0 && m.y != 1 && m.y != 6 && m.y != 7) {
                move_list.remove(x);
                len = len - 1;
                proof {
                    lemma_removal_keeps_order(before, move_list@, x as int);
                }
                continue ;
            }
            if !(m.y != 0 && m.y != 7 || m.x != 0 && m.x != 7) {
                len = len - 1;
                continue ;
            }
            move_list.remove(x);
            len = len - 1;
            proof {
                lemma_removal_keeps_order(before, move_list@, x as int);
            }
        }
        proof {
            assert forall|i: int, j: int| 0 <= i < j < move_list@.len() implies move_list@[i]
                != move_list@[j] by {
                assert(cell_key(move_list@[i]) < cell_key(move_list@[j]));
            }
        }
        move_list
    }
}

} // verus!

//! Laws that tie the engine's contracts together: a listed legal move is
//! accepted and flips exactly the evaluated set, game over coincides with
//! two empty move lists, and the legal-move list is uniquely determined by
//! the board.

use vstd::prelude::*;

use crate::game::Coordinate;
use crate::game::Player;
use crate::game::cell;
use crate::game::cell_key;
use crate::game::game_over;
use crate::game::in_bounds;
use crate::game::is_flipped;
use crate::game::move_legal;

verus! {

/// Law: a move taken from the legal-move list of `p` on grid `g` meets the
/// success condition of `do_move`, and the squares a successful `do_move`
/// rewrites are the origin plus exactly the flip set that `is_move_legal`
/// returns — every other square keeps its piece.
///
/// `moves`, `flips` and `g2` are constrained exactly as the contracts of
/// `legal_moves`, `is_move_legal` and `do_move` describe their results.
pub proof fn lemma_legal_move_applies(
    moves: Seq<Coordinate>,
    flips: Seq<Coordinate>,
    g: Seq<Option<Player>>,
    g2: Seq<Option<Player>>,
    p: Player,
    c: Coordinate,
)
    requires
        forall|m: Coordinate|
            #[trigger] moves.contains(m) <==> move_legal(g, p, m.x as int, m.y as int),
        moves.contains(c),
        forall|m: Coordinate|
            #[trigger] flips.contains(m) <==> is_flipped(
                g,
                c.x as int,
                c.y as int,
                p,
                m.x as int,
                m.y as int,
            ),
        forall|cx: int, cy: int|
            in_bounds(cx, cy) ==> #[trigger] cell(g2, cx, cy) == (if (cx == c.x as int && cy == c.y
                as int) || is_flipped(g, c.x as int, c.y as int, p, cx, cy) {
                Some(p)
            } else {
                cell(g, cx, cy)
            }),
    ensures
        move_legal(g, p, c.x as int, c.y as int),
        forall|cx: int, cy: int|
            in_bounds(cx, cy) ==> #[trigger] cell(g2, cx, cy) == (if (cx == c.x as int && cy == c.y
                as int) || flips.contains(Coordinate { x: cx as usize, y: cy as usize }) {
                Some(p)
            } else {
                cell(g, cx, cy)
            }),
{
    assert forall|cx: int, cy: int| in_bounds(cx, cy) implies #[trigger] cell(g2, cx, cy) == (if (cx
        == c.x as int && cy == c.y as int) || flips.contains(
        Coordinate { x: cx as usize, y: cy as usize },
    ) {
        Some(p)
    } else {
        cell(g, cx, cy)
    }) by {
        let m = Coordinate { x: cx as usize, y: cy as usize };
        assert(m.x as int == cx && m.y as int == cy);
        assert(flips.contains(m) <==> is_flipped(g, c.x as int, c.y as int, p, cx, cy));
    }
}

/// Law: the game is over exactly when the legal-move lists of both players
/// are empty. `dark_moves` and `light_moves` are constrained exactly as
/// `legal_moves` describes its result for each player.
pub proof fn lemma_game_over_iff_no_moves(
    g: Seq<Option<Player>>,
    dark_moves: Seq<Coordinate>,
    light_moves: Seq<Coordinate>,
)
    requires
        forall|m: Coordinate|
            #[trigger] dark_moves.contains(m) <==> move_legal(g, Player::Black, m.x as int, m.y as int),
        forall|m: Coordinate|
            #[trigger] light_moves.contains(m) <==> move_legal(g, Player::White, m.x as int, m.y as int),
    ensures
        game_over(g) <==> (dark_moves.len() == 0 && light_moves.len() == 0),
{
    if dark_moves.len() == 0 {
        assert forall|x: int, y: int| !move_legal(g, Player::Black, x, y) by {
            if move_legal(g, Player::Black, x, y) {
                let c = Coordinate { x: x as usize, y: y as usize };
                assert(dark_moves.contains(c));
            }
        }
    } else {
        assert(dark_moves.contains(dark_moves[0]));
    }
    if light_moves.len() == 0 {
        assert forall|x: int, y: int| !move_legal(g, Player::White, x, y) by {
            if move_legal(g, Player::White, x, y) {
                let c = Coordinate { x: x as usize, y: y as usize };
                assert(light_moves.contains(c));
            }
        }
    } else {
        assert(light_moves.contains(light_moves[0]));
    }
}

/// Sequences that are strictly ordered by board position and hold the same
/// members coincide.
proof fn lemma_sorted_same_members(s1: Seq<Coordinate>, s2: Seq<Coordinate>)
    requires
        forall|i: int, j: int|
            0 <= i < j < s1.len() ==> cell_key(#[trigger] s1[i]) < cell_key(#[trigger] s1[j]),
        forall|i: int, j: int|
            0 <= i < j < s2.len() ==> cell_key(#[trigger] s2[i]) < cell_key(#[trigger] s2[j]),
        forall|c: Coordinate| s1.contains(c) <==> s2.contains(c),
    ensures
        s1 == s2,
    decreases s1.len(),
{
    if s1.len() == 0 {
        if s2.len() > 0 {
            assert(s2.contains(s2[0]));
            assert(s1.contains(s2[0]));
        }
        assert(s1 =~= s2);
    } else {
        assert(s1.contains(s1[0]));
        assert(s2.contains(s1[0]));
        let j = choose|j: int| 0 <= j < s2.len() && s2[j] == s1[0];
        assert(s2.contains(s2[0]));
        assert(s1.contains(s2[0]));
        let i = choose|i: int| 0 <= i < s1.len() && s1[i] == s2[0];
        if i > 0 && j > 0 {
            assert(cell_key(s1[0]) < cell_key(s1[i]));
            assert(cell_key(s2[0]) < cell_key(s2[j]));
            assert(false);
        }
        assert(s1[0] == s2[0]);
        let t1 = s1.subrange(1, s1.len() as int);
        let t2 = s2.subrange(1, s2.len() as int);
        assert forall|c: Coordinate| t1.contains(c) <==> t2.contains(c) by {
            if t1.contains(c) {
                let k = choose|k: int| 0 <= k < t1.len() && t1[k] == c;
                assert(s1[k + 1] == c);
                assert(s1.contains(c));
                assert(cell_key(s1[0]) < cell_key(c));
                assert(s2.contains(c));
                let k2 = choose|k2: int| 0 <= k2 < s2.len() && s2[k2] == c;
                assert(k2 > 0);
                assert(t2[k2 - 1] == c);
                assert(t2.contains(c));
            }
            if t2.contains(c) {
                let k = choose|k: int| 0 <= k < t2.len() && t2[k] == c;
                assert(s2[k + 1] == c);
                assert(s2.contains(c));
                assert(cell_key(s2[0]) < cell_key(c));
                assert(s1.contains(c));
                let k2 = choose|k2: int| 0 <= k2 < s1.len() && s1[k2] == c;
                assert(k2 > 0);
                assert(t1[k2 - 1] == c);
                assert(t1.contains(c));
            }
        }
        lemma_sorted_same_members(t1, t2);
        assert forall|k: int| 0 <= k < s1.len() implies s1[k] == s2[k] by {
            if k > 0 {
                assert(t1[k - 1] == s1[k]);
                assert(t2[k - 1] == s2[k]);
            }
        }
        assert(s1 =~= s2);
    }
}

/// Law: the legal-move list is a function of the board and the player
/// alone. Any two sequences meeting `legal_moves`' contract on the same
/// grid for the same player — membership exactly at the legal moves, in
/// strictly increasing board order — are identical; so two calls of
/// `legal_moves` without a mutation in between return the same list.
pub proof fn lemma_legal_moves_deterministic(
    g: Seq<Option<Player>>,
    p: Player,
    s1: Seq<Coordinate>,
    s2: Seq<Coordinate>,
)
    requires
        forall|c: Coordinate|
            #[trigger] s1.contains(c) <==> move_legal(g, p, c.x as int, c.y as int),
        forall|c: Coordinate|
            #[trigger] s2.contains(c) <==> move_legal(g, p, c.x as int, c.y as int),
        forall|i: int, j: int|
            0 <= i < j < s1.len() ==> cell_key(#[trigger] s1[i]) < cell_key(#[trigger] s1[j]),
        forall|i: int, j: int|
            0 <= i < j < s2.len() ==> cell_key(#[trigger] s2[i]) < cell_key(#[trigger] s2[j]),
    ensures
        s1 == s2,
{
    lemma_sorted_same_members(s1, s2);
}

} // verus!

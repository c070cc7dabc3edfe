use reversi::game::Board;
use reversi::game::Coordinate;
use reversi::game::Direction;
use reversi::game::InvalidMove;
use reversi::game::Player;

fn cell_at(b: &Board, x: usize, y: usize) -> Option<Player> {
    b.get_coordinates(&Coordinate { x, y })
}

fn snapshot(b: &Board) -> (Vec<Option<Player>>, Player, Player) {
    let mut cells = Vec::new();
    for x in 0..8 {
        for y in 0..8 {
            cells.push(cell_at(b, x, y));
        }
    }
    (cells, b.current_player, b.next_player)
}

fn contains(moves: &[Coordinate], x: usize, y: usize) -> bool {
    moves.iter().any(|c| c.x == x && c.y == y)
}

#[test]
fn default_board_has_opening_layout() {
    let board = Board::default();
    assert_eq!(board.current_player, Player::Black);
    assert_eq!(board.next_player, Player::White);
    assert_eq!(cell_at(&board, 3, 4), Some(Player::Black));
    assert_eq!(cell_at(&board, 4, 3), Some(Player::Black));
    assert_eq!(cell_at(&board, 3, 3), Some(Player::White));
    assert_eq!(cell_at(&board, 4, 4), Some(Player::White));
    let mut occupied = 0;
    for x in 0..8 {
        for y in 0..8 {
            if cell_at(&board, x, y).is_some() {
                occupied += 1;
            }
        }
    }
    assert_eq!(occupied, 4);
}

#[test]
fn opening_moves_are_the_four_standard_ones() {
    let board = Board::default();
    let moves = board.legal_moves(Player::Black);
    assert_eq!(moves.len(), 4);
    assert!(contains(&moves, 2, 3));
    assert!(contains(&moves, 3, 2));
    assert!(contains(&moves, 4, 5));
    assert!(contains(&moves, 5, 4));
}

#[test]
fn opening_move_flips_one_piece_and_swaps_players() {
    let mut board = Board::default();
    let result = board.do_move(2, 3);
    assert_eq!(result.ok(), Some(Player::White));
    assert_eq!(board.current_player, Player::White);
    assert_eq!(board.next_player, Player::Black);
    // the move takes the origin and flips exactly (3, 3)
    assert_eq!(cell_at(&board, 2, 3), Some(Player::Black));
    assert_eq!(cell_at(&board, 3, 3), Some(Player::Black));
    // the other three opening pieces are untouched
    assert_eq!(cell_at(&board, 3, 4), Some(Player::Black));
    assert_eq!(cell_at(&board, 4, 3), Some(Player::Black));
    assert_eq!(cell_at(&board, 4, 4), Some(Player::White));
    // nothing else became occupied
    let mut occupied = 0;
    for x in 0..8 {
        for y in 0..8 {
            if cell_at(&board, x, y).is_some() {
                occupied += 1;
            }
        }
    }
    assert_eq!(occupied, 5);
}

#[test]
fn occupied_origin_fails_with_filled_and_leaves_board_unchanged() {
    let mut board = Board::default();
    let before = snapshot(&board);
    let result = board.do_move(3, 3);
    assert!(matches!(result, Err(InvalidMove::Filled)));
    assert_eq!(snapshot(&board), before);
}

#[test]
fn out_of_range_origin_fails_with_invalid_and_leaves_board_unchanged() {
    let mut board = Board::default();
    let before = snapshot(&board);
    assert!(matches!(board.do_move(8, 0), Err(InvalidMove::Invalid)));
    assert!(matches!(board.do_move(0, 8), Err(InvalidMove::Invalid)));
    assert!(matches!(board.do_move(100, 100), Err(InvalidMove::Invalid)));
    assert_eq!(snapshot(&board), before);
}

#[test]
fn zero_capture_origin_fails_with_invalid_and_leaves_board_unchanged() {
    let mut board = Board::default();
    let before = snapshot(&board);
    let result = board.do_move(0, 0);
    assert!(matches!(result, Err(InvalidMove::Invalid)));
    assert_eq!(snapshot(&board), before);
}

#[test]
fn successful_move_swaps_current_and_next() {
    let mut board = Board::default();
    let current_before = board.current_player;
    let next_before = board.next_player;
    assert!(board.do_move(2, 3).is_ok());
    assert_eq!(board.current_player, next_before);
    assert_eq!(board.next_player, current_before);
}

#[test]
fn change_player_swaps_and_keeps_the_grid() {
    let mut board = Board::default();
    let before = snapshot(&board);
    board.change_player();
    assert_eq!(board.current_player, Player::White);
    assert_eq!(board.next_player, Player::Black);
    assert_eq!(snapshot(&board).0, before.0);
}

#[test]
fn legal_moves_are_in_range_and_on_empty_cells() {
    let mut board = Board::default();
    // check the invariant along a played-out game
    loop {
        for p in [Player::Black, Player::White] {
            for c in board.legal_moves(p) {
                assert!(c.x < 8 && c.y < 8);
                assert!(board.get_coordinates(&c).is_none());
            }
        }
        if board.is_game_over() {
            break;
        }
        let moves = board.legal_moves(board.current_player);
        if moves.is_empty() {
            board.change_player();
            continue;
        }
        assert!(board.do_move(moves[0].x, moves[0].y).is_ok());
    }
}

#[test]
fn every_listed_move_succeeds() {
    let board = Board::default();
    for p in [Player::Black, Player::White] {
        for c in board.legal_moves(p) {
            let mut copy = board.clone();
            if copy.current_player != p {
                copy.change_player();
            }
            assert!(copy.do_move(c.x, c.y).is_ok());
        }
    }
}

#[test]
fn listed_move_flips_exactly_the_evaluated_set() {
    let board = Board::default();
    for c in board.legal_moves(Player::Black) {
        let flips = board
            .is_move_legal(&c, Player::Black)
            .expect("a listed move must evaluate to a flip set");
        assert!(!flips.is_empty());
        let mut copy = board.clone();
        assert!(copy.do_move(c.x, c.y).is_ok());
        for x in 0..8 {
            for y in 0..8 {
                let expected = if (x, y) == (c.x, c.y) || contains(&flips, x, y) {
                    Some(Player::Black)
                } else {
                    cell_at(&board, x, y)
                };
                assert_eq!(cell_at(&copy, x, y), expected);
            }
        }
    }
}

#[test]
fn game_over_iff_both_move_lists_empty() {
    let board = Board::default();
    assert!(!board.is_game_over());

    // a board holding only dark pieces has no legal move for either side
    let mut dark_only = Board::default();
    dark_only.set_coordinates(&Coordinate { x: 3, y: 3 }, Player::Black);
    dark_only.set_coordinates(&Coordinate { x: 4, y: 4 }, Player::Black);
    assert!(dark_only.legal_moves(Player::Black).is_empty());
    assert!(dark_only.legal_moves(Player::White).is_empty());
    assert!(dark_only.is_game_over());
}

#[test]
fn score_counts_the_opening_pieces() {
    let board = Board::default();
    assert_eq!(board.get_score(), [2, 2]);
}

#[test]
fn score_after_first_move() {
    let mut board = Board::default();
    assert!(board.do_move(2, 3).is_ok());
    assert_eq!(board.get_score(), [4, 1]);
}

#[test]
fn eliminated_side_hands_its_opponent_the_full_board() {
    // only dark pieces: light's elimination forces dark's count to 64
    let mut dark_only = Board::default();
    dark_only.set_coordinates(&Coordinate { x: 3, y: 3 }, Player::Black);
    dark_only.set_coordinates(&Coordinate { x: 4, y: 4 }, Player::Black);
    assert_eq!(dark_only.get_score(), [64, 0]);

    // only light pieces: dark's elimination forces light's count to 64
    let mut light_only = Board::default();
    light_only.set_coordinates(&Coordinate { x: 3, y: 4 }, Player::White);
    light_only.set_coordinates(&Coordinate { x: 4, y: 3 }, Player::White);
    assert_eq!(light_only.get_score(), [0, 64]);
}

#[test]
fn empty_board_scores_as_a_light_sweep() {
    // both counts are zero: the dark check runs first and hands light 64,
    // after which the light count is no longer zero
    let board = Board { current_player: Player::Black, next_player: Player::White, board: vec![None; 64] };
    assert_eq!(board.get_score(), [0, 64]);
}

#[test]
fn legal_moves_is_idempotent() {
    let board = Board::default();
    let first = board.legal_moves(Player::Black);
    let second = board.legal_moves(Player::Black);
    assert_eq!(first, second);
    let first_light = board.legal_moves(Player::White);
    let second_light = board.legal_moves(Player::White);
    assert_eq!(first_light, second_light);
}

#[test]
fn forward_stops_at_every_edge() {
    let origin = Coordinate { x: 0, y: 0 };
    assert!(origin.forward(&Direction::Down).is_none());
    assert!(origin.forward(&Direction::Left).is_none());
    assert!(origin.forward(&Direction::Bottomleft).is_none());
    assert!(origin.forward(&Direction::Bottomright).is_none());
    assert!(origin.forward(&Direction::Topleft).is_none());
    let up = origin.forward(&Direction::Up).unwrap();
    assert_eq!((up.x, up.y), (0, 1));
    // the high edges refuse the step as well: no out-of-range square is
    // ever handed out
    let corner = Coordinate { x: 7, y: 7 };
    assert!(corner.forward(&Direction::Up).is_none());
    assert!(corner.forward(&Direction::Right).is_none());
    assert!(corner.forward(&Direction::Topright).is_none());
    assert!(corner.forward(&Direction::Topleft).is_none());
    assert!(corner.forward(&Direction::Bottomright).is_none());
    let back = corner.forward(&Direction::Bottomleft).unwrap();
    assert_eq!((back.x, back.y), (6, 6));
}

#[test]
fn ai_move_returns_one_legal_move() {
    for _ in 0..20 {
        let mut board = Board::default();
        let picked = board.ai_move(Player::Black);
        assert_eq!(picked.len(), 1);
        let legal = board.legal_moves(Player::Black);
        assert!(legal.contains(&picked[0]));
    }
}

#[test]
fn ai_move_with_heuristics_returns_only_legal_moves() {
    for _ in 0..20 {
        let mut board = Board::default();
        let picked = board.ai_move_with_heuristics(Player::Black);
        assert!(!picked.is_empty());
        let legal = board.legal_moves(Player::Black);
        for c in &picked {
            assert!(legal.contains(c));
        }
        // duplicate-free, and in the legal-move list's own order
        let positions: Vec<usize> = picked
            .iter()
            .map(|c| legal.iter().position(|l| l == c).unwrap())
            .collect();
        for w in positions.windows(2) {
            assert!(w[0] < w[1]);
        }
    }
}

#[test]
fn ai_move_on_a_blocked_board_is_empty() {
    let mut dark_only = Board::default();
    dark_only.set_coordinates(&Coordinate { x: 3, y: 3 }, Player::Black);
    dark_only.set_coordinates(&Coordinate { x: 4, y: 4 }, Player::Black);
    assert!(dark_only.ai_move(Player::Black).is_empty());
    assert!(dark_only.ai_move_with_heuristics(Player::White).is_empty());
}

#[test]
fn a_full_random_game_terminates_consistently() {
    let mut board = Board::default();
    let mut turns = 0;
    while !board.is_game_over() {
        turns += 1;
        assert!(turns < 200);
        let moves = board.legal_moves(board.current_player);
        if moves.is_empty() {
            board.change_player();
            continue;
        }
        let picked = board.ai_move(board.current_player);
        assert!(board.do_move(picked[0].x, picked[0].y).is_ok());
    }
    assert!(board.legal_moves(Player::Black).is_empty());
    assert!(board.legal_moves(Player::White).is_empty());
    let score = board.get_score();
    assert!(score[0] >= 0 && score[1] >= 0);
    assert!(score[0] <= 64 && score[1] <= 64);
}

//! The board engine: cell occupancy, move legality, capture tracing,
//! move application, termination and scoring.

use vstd::prelude::*;

verus! {

/// One of the two sides. `Black` plays the dark pieces, `White` the light ones.
#[derive(Copy, Clone, Debug, PartialEq, Eq, Structural)]
pub enum Player {
    Black,
    White,
}

/// Why a move was rejected: `Invalid` for an out-of-range origin or a move
/// that captures nothing, `Filled` for an origin that is already occupied.
#[derive(Copy, Clone, Debug, PartialEq, Eq, Structural)]
pub enum InvalidMove {
    Invalid,
    Filled,
}

/// A board square, identified by its column `x` and row `y`, each in `[0, 8)`.
#[derive(Copy, Clone, Debug, PartialEq, Eq, Structural)]
pub struct Coordinate {
    pub x: usize,
    pub y: usize,
}

/// One of the eight compass directions a capture ray can run in.
#[derive(Copy, Clone, Debug, PartialEq, Eq, Structural)]
pub enum Direction {
    Up,
    Down,
    Right,
    Left,
    Topleft,
    Topright,
    Bottomleft,
    Bottomright,
}

/// The opponent of `p`.
pub open spec fn opposite(p: Player) -> Player {
    match p {
        Player::Black => Player::White,
        Player::White => Player::Black,
    }
}

/// Horizontal displacement of one step in direction `d`.
pub open spec fn dx(d: Direction) -> int {
    match d {
        Direction::Up => 0,
        Direction::Down => 0,
        Direction::Right => 1,
        Direction::Left => -1,
        Direction::Topleft => -1,
        Direction::Topright => 1,
        Direction::Bottomleft => -1,
        Direction::Bottomright => 1,
    }
}

/// Vertical displacement of one step in direction `d`.
pub open spec fn dy(d: Direction) -> int {
    match d {
        Direction::Up => 1,
        Direction::Down => -1,
        Direction::Right => 0,
        Direction::Left => 0,
        Direction::Topleft => 1,
        Direction::Topright => 1,
        Direction::Bottomleft => -1,
        Direction::Bottomright => -1,
    }
}

/// Whether `(x, y)` lies on the 8x8 board.
pub open spec fn in_bounds(x: int, y: int) -> bool {
    0 <= x < 8 && 0 <= y < 8
}

/// Column reached after `k` steps from column `x` in direction `d`.
pub open spec fn step_x(x: int, d: Direction, k: int) -> int {
    x + k * dx(d)
}

/// Row reached after `k` steps from row `y` in direction `d`.
pub open spec fn step_y(y: int, d: Direction, k: int) -> int {
    y + k * dy(d)
}

/// The cell of grid `g` at column `x`, row `y`; the grid is stored flat,
/// column-major, at index `x * 8 + y`.
pub open spec fn cell(g: Seq<Option<Player>>, x: int, y: int) -> Option<Player> {
    g[x * 8 + y]
}

/// The squares 1 through `n` steps away from `(x, y)` in direction `d` all
/// lie on the board and all hold the opponent of `p`.
pub open spec fn opp_run(
    g: Seq<Option<Player>>,
    x: int,
    y: int,
    d: Direction,
    p: Player,
    n: int,
) -> bool
    decreases n,
{
    n <= 0 || (opp_run(g, x, y, d, p, n - 1) && in_bounds(step_x(x, d, n), step_y(y, d, n))
        && cell(g, step_x(x, d, n), step_y(y, d, n)) == Some(opposite(p)))
}

/// A move at `(x, y)` by `p` captures exactly `n` opponent pieces along
/// direction `d`: a run of `n >= 1` opponent squares, bracketed at step
/// `n + 1` by a square of `p`'s own.
pub open spec fn captures_to(
    g: Seq<Option<Player>>,
    x: int,
    y: int,
    d: Direction,
    p: Player,
    n: int,
) -> bool {
    &&& 1 <= n
    &&& opp_run(g, x, y, d, p, n)
    &&& in_bounds(step_x(x, d, n + 1), step_y(y, d, n + 1))
    &&& cell(g, step_x(x, d, n + 1), step_y(y, d, n + 1)) == Some(p)
}

/// A move at `(x, y)` by `p` captures along direction `d`.
pub open spec fn dir_captures(g: Seq<Option<Player>>, x: int, y: int, d: Direction, p: Player) -> bool {
    exists|n: int| captures_to(g, x, y, d, p, n)
}

/// The square `(cx, cy)` is one of the pieces flipped along direction `d`
/// by a move of `p` at `(x, y)`.
pub open spec fn flips_to(
    g: Seq<Option<Player>>,
    x: int,
    y: int,
    d: Direction,
    p: Player,
    cx: int,
    cy: int,
) -> bool {
    exists|n: int, k: int|
        {
            &&& #[trigger] captures_to(g, x, y, d, p, n)
            &&& 1 <= k <= n
            &&& cx == #[trigger] step_x(x, d, k)
            &&& cy == step_y(y, d, k)
        }
}

/// `m_new` holds exactly the members of `m_old` plus the squares flipped
/// along `d` by a move of `p` at `(x, y)`.
pub open spec fn adds_flips_of(
    m_old: Seq<Coordinate>,
    m_new: Seq<Coordinate>,
    g: Seq<Option<Player>>,
    x: int,
    y: int,
    d: Direction,
    p: Player,
) -> bool {
    forall|c: Coordinate|
        #[trigger] m_new.contains(c) <==> (m_old.contains(c) || flips_to(
            g,
            x,
            y,
            d,
            p,
            c.x as int,
            c.y as int,
        ))
}

/// No square occurs twice in `s`.
pub open spec fn distinct_coords(s: Seq<Coordinate>) -> bool {
    forall|i: int, j: int| 0 <= i < j < s.len() ==> s[i] != s[j]
}

/// The square `(cx, cy)` is flipped, along some direction, by a move of `p`
/// at `(x, y)`.
pub open spec fn is_flipped(
    g: Seq<Option<Player>>,
    x: int,
    y: int,
    p: Player,
    cx: int,
    cy: int,
) -> bool {
    exists|d: Direction| flips_to(g, x, y, d, p, cx, cy)
}

/// A move by `p` at `(x, y)` is legal: on the board, on an empty square,
/// and capturing in at least one direction.
pub open spec fn move_legal(g: Seq<Option<Player>>, p: Player, x: int, y: int) -> bool {
    &&& in_bounds(x, y)
    &&& cell(g, x, y) is None
    &&& exists|d: Direction| dir_captures(g, x, y, d, p)
}

/// Player `p` has no legal move anywhere on grid `g`.
pub open spec fn no_moves(g: Seq<Option<Player>>, p: Player) -> bool {
    forall|x: int, y: int| !#[trigger] move_legal(g, p, x, y)
}

/// The game is over: neither side has a legal move.
pub open spec fn game_over(g: Seq<Option<Player>>) -> bool {
    no_moves(g, Player::Black) && no_moves(g, Player::White)
}

/// The position of `c`'s square in the row-major enumeration that
/// `legal_moves` walks: column first, row second.
pub open spec fn cell_key(c: Coordinate) -> int {
    c.x as int * 8 + c.y as int
}

/// How many of the first `n` cells of `g` hold a piece of `p`.
pub open spec fn count_pieces(g: Seq<Option<Player>>, p: Player, n: int) -> int
    decreases n,
{
    if n <= 0 {
        0
    } else {
        count_pieces(g, p, n - 1) + (if g[n - 1] == Some(p) {
            1int
        } else {
            0int
        })
    }
}

/// How many pieces of `p` stand on grid `g`.
pub open spec fn score_of(g: Seq<Option<Player>>, p: Player) -> int {
    count_pieces(g, p, 64)
}

/// A piece count over `n` cells lies in `[0, n]`.
pub proof fn lemma_count_bound(g: Seq<Option<Player>>, p: Player, n: int)
    requires
        n >= 0,
    ensures
        0 <= count_pieces(g, p, n) <= n,
    decreases n,
{
    if n > 0 {
        lemma_count_bound(g, p, n - 1);
    }
}

/// The canonical opening layout: dark at (3, 4) and (4, 3), light at
/// (3, 3) and (4, 4), every other square empty.
pub open spec fn opening_cell(cx: int, cy: int) -> Option<Player> {
    if (cx == 3 && cy == 4) || (cx == 4 && cy == 3) {
        Some(Player::Black)
    } else if (cx == 3 && cy == 3) || (cx == 4 && cy == 4) {
        Some(Player::White)
    } else {
        None
    }
}

impl Coordinate {
    /// The square one step away from `self` in direction `dir`, or `None`
    /// when that step would leave the board on any side: every coordinate
    /// handed out stays in `[0, 8)` on both axes.
    pub fn forward(self: &Self, dir: &Direction) -> (r: Option<Coordinate>)
        requires
            self.x < 8,
            self.y < 8,
        ensures
            r is Some <==> in_bounds(self.x as int + dx(*dir), self.y as int + dy(*dir)),
            r is Some ==> r->0.x as int == self.x as int + dx(*dir) && r->0.y as int == self.y
                as int + dy(*dir),
    {
        let goes_down = match *dir {
            Direction::Down | Direction::Bottomleft | Direction::Bottomright => true,
            _ => false,
        };
        let goes_left = match *dir {
            Direction::Left | Direction::Topleft | Direction::Bottomleft => true,
            _ => false,
        };
        let goes_up = match *dir {
            Direction::Up | Direction::Topleft | Direction::Topright => true,
            _ => false,
        };
        let goes_right = match *dir {
            Direction::Right | Direction::Topright | Direction::Bottomright => true,
            _ => false,
        };
        if goes_down && self.y == 0 {
            return None;
        }
        if goes_left && self.x == 0 {
            return None;
        }
        if goes_up && self.y == 7 {
            return None;
        }
        if goes_right && self.x == 7 {
            return None;
        }
        let coordinates = match *dir {
            Direction::Up => Coordinate { x: self.x, y: self.y + 1 },
            Direction::Down => Coordinate { x: self.x, y: self.y - 1 },
            Direction::Right => Coordinate { x: self.x + 1, y: self.y },
            Direction::Left => Coordinate { x: self.x - 1, y: self.y },
            Direction::Topleft => Coordinate { x: self.x - 1, y: self.y + 1 },
            Direction::Topright => Coordinate { x: self.x + 1, y: self.y + 1 },
            Direction::Bottomleft => Coordinate { x: self.x - 1, y: self.y - 1 },
            Direction::Bottomright => Coordinate { x: self.x + 1, y: self.y - 1 },
        };
        Some(coordinates)
    }
}

/// A product of integers in `{-1, 0, 1}` collapses to `k`, `-k` or `0`.
proof fn lemma_mul_cases(k: int, m: int)
    requires
        -1 <= m <= 1,
    ensures
        m == 1 ==> k * m == k,
        m == -1 ==> k * m == -k,
        m == 0 ==> k * m == 0,
{
    assert(m == 1 ==> k * m == k) by (nonlinear_arith);
    assert(m == -1 ==> k * m == -k) by (nonlinear_arith);
    assert(m == 0 ==> k * m == 0) by (nonlinear_arith);
}

/// Every direction moves by at most one square per axis, and by at least
/// one square on some axis.
proof fn lemma_dir_range(d: Direction)
    ensures
        -1 <= dx(d) <= 1,
        -1 <= dy(d) <= 1,
        dx(d) != 0 || dy(d) != 0,
{
}

/// Stepping once more moves the walk by one displacement.
pub proof fn lemma_step_unfold(x: int, y: int, d: Direction, k: int)
    ensures
        step_x(x, d, k + 1) == step_x(x, d, k) + dx(d),
        step_y(y, d, k + 1) == step_y(y, d, k) + dy(d),
        step_x(x, d, 1) == x + dx(d),
        step_y(y, d, 1) == y + dy(d),
{
    assert((k + 1) * dx(d) == k * dx(d) + dx(d)) by (nonlinear_arith);
    assert((k + 1) * dy(d) == k * dy(d) + dy(d)) by (nonlinear_arith);
    assert(1 * dx(d) == dx(d)) by (nonlinear_arith);
    assert(1 * dy(d) == dy(d)) by (nonlinear_arith);
}

/// A walk that starts on the board and is still on the board after `n`
/// steps has taken at most 7 of them.
pub proof fn lemma_step_bound(x: int, y: int, d: Direction, n: int)
    requires
        in_bounds(x, y),
        1 <= n,
        in_bounds(step_x(x, d, n), step_y(y, d, n)),
    ensures
        n <= 7,
{
    lemma_dir_range(d);
    lemma_mul_cases(n, dx(d));
    lemma_mul_cases(n, dy(d));
}

/// Inside a run of opponent pieces, each square of the run is on the board
/// and holds the opponent.
pub proof fn lemma_opp_run_at(
    g: Seq<Option<Player>>,
    x: int,
    y: int,
    d: Direction,
    p: Player,
    n: int,
    k: int,
)
    requires
        opp_run(g, x, y, d, p, n),
        1 <= k <= n,
    ensures
        in_bounds(step_x(x, d, k), step_y(y, d, k)),
        cell(g, step_x(x, d, k), step_y(y, d, k)) == Some(opposite(p)),
    decreases n,
{
    if k < n {
        lemma_opp_run_at(g, x, y, d, p, n - 1, k);
    }
}

/// Along one direction the capture length is unique: the first square of
/// the mover's own colour ends the run.
pub proof fn lemma_captures_unique(
    g: Seq<Option<Player>>,
    x: int,
    y: int,
    d: Direction,
    p: Player,
    n1: int,
    n2: int,
)
    requires
        captures_to(g, x, y, d, p, n1),
        captures_to(g, x, y, d, p, n2),
    ensures
        n1 == n2,
{
    if n1 < n2 {
        lemma_opp_run_at(g, x, y, d, p, n2, n1 + 1);
        assert(false);
    }
    if n2 < n1 {
        lemma_opp_run_at(g, x, y, d, p, n1, n2 + 1);
        assert(false);
    }
}

/// Distinct walk positions name distinct squares: along one direction
/// because every step moves, across directions because two rays from one
/// origin never meet again.
proof fn lemma_steps_injective(x: int, y: int, d1: Direction, k1: int, d2: Direction, k2: int)
    requires
        1 <= k1,
        1 <= k2,
        !(d1 == d2 && k1 == k2),
    ensures
        step_x(x, d1, k1) != step_x(x, d2, k2) || step_y(y, d1, k1) != step_y(y, d2, k2),
{
    lemma_dir_range(d1);
    lemma_dir_range(d2);
    lemma_mul_cases(k1, dx(d1));
    lemma_mul_cases(k1, dy(d1));
    lemma_mul_cases(k2, dx(d2));
    lemma_mul_cases(k2, dy(d2));
}

/// A square is flipped along at most one direction.
proof fn lemma_flips_dir_unique(g: Seq<Option<Player>>, x: int, y: int, p: Player, cx: int, cy: int)
    ensures
        forall|d1: Direction, d2: Direction|
            #[trigger] flips_to(g, x, y, d1, p, cx, cy) && #[trigger] flips_to(g, x, y, d2, p, cx, cy)
                ==> d1 == d2,
{
    assert forall|d1: Direction, d2: Direction|
        #[trigger] flips_to(g, x, y, d1, p, cx, cy) && #[trigger] flips_to(
            g,
            x,
            y,
            d2,
            p,
            cx,
            cy,
        ) implies d1 == d2 by {
        if d1 != d2 {
            let (n1, k1): (int, int) = choose|n: int, k: int|
                {
                    &&& #[trigger] captures_to(g, x, y, d1, p, n)
                    &&& 1 <= k <= n
                    &&& cx == #[trigger] step_x(x, d1, k)
                    &&& cy == step_y(y, d1, k)
                };
            let (n2, k2): (int, int) = choose|n: int, k: int|
                {
                    &&& #[trigger] captures_to(g, x, y, d2, p, n)
                    &&& 1 <= k <= n
                    &&& cx == #[trigger] step_x(x, d2, k)
                    &&& cy == step_y(y, d2, k)
                };
            lemma_steps_injective(x, y, d1, k1, d2, k2);
        }
    }
}

/// A flipped square lies on the board.
pub proof fn lemma_flipped_in_bounds(
    g: Seq<Option<Player>>,
    x: int,
    y: int,
    p: Player,
    cx: int,
    cy: int,
)
    requires
        is_flipped(g, x, y, p, cx, cy),
    ensures
        in_bounds(cx, cy),
{
    let d = choose|d: Direction| flips_to(g, x, y, d, p, cx, cy);
    let (n, k): (int, int) = choose|n: int, k: int|
        {
            &&& #[trigger] captures_to(g, x, y, d, p, n)
            &&& 1 <= k <= n
            &&& cx == #[trigger] step_x(x, d, k)
            &&& cy == step_y(y, d, k)
        };
    lemma_opp_run_at(g, x, y, d, p, n, k);
}

/// Membership in a pushed sequence.
pub proof fn lemma_push_contains<T>(s: Seq<T>, v: T, c: T)
    ensures
        s.push(v).contains(c) <==> s.contains(c) || c == v,
{
    if s.contains(c) {
        let i = choose|i: int| 0 <= i < s.len() && s[i] == c;
        assert(s.push(v)[i] == c);
    }
    if c == v {
        assert(s.push(v)[s.len() as int] == c);
    }
    if s.push(v).contains(c) {
        let i = choose|i: int| 0 <= i < s.push(v).len() && s.push(v)[i] == c;
        if i < s.len() {
            assert(s[i] == c);
        }
    }
}

/// Membership in a concatenation.
pub proof fn lemma_concat_contains<T>(a: Seq<T>, b: Seq<T>, c: T)
    ensures
        (a + b).contains(c) <==> a.contains(c) || b.contains(c),
{
    if a.contains(c) {
        let i = choose|i: int| 0 <= i < a.len() && a[i] == c;
        assert((a + b)[i] == c);
    }
    if b.contains(c) {
        let i = choose|i: int| 0 <= i < b.len() && b[i] == c;
        assert((a + b)[a.len() + i] == c);
    }
    if (a + b).contains(c) {
        let i = choose|i: int| 0 <= i < (a + b).len() && (a + b)[i] == c;
        if i < a.len() {
            assert(a[i] == c);
        } else {
            assert(b[i - a.len()] == c);
        }
    }
}

/// The game state: the 8x8 grid plus whose turn it is (`current_player`)
/// and whose turn comes after a swap (`next_player`).
#[derive(Clone, Debug)]
pub struct Board {
    pub current_player: Player,
    pub next_player: Player,
    pub board: Vec<Option<Player>>,
}

impl Board {
    /// The grid as a flat sequence of 64 cells; the cell at column `x`,
    /// row `y` sits at index `x * 8 + y`.
    pub open spec fn grid(&self) -> Seq<Option<Player>> {
        self.board@
    }

    /// Well-formed: exactly 64 cells, and the two player fields hold the
    /// two distinct players.
    pub open spec fn wf(&self) -> bool {
        &&& self.grid().len() == 64
        &&& self.next_player == opposite(self.current_player)
    }

    /// A fresh board in the canonical opening layout, dark to move.
    pub fn default() -> (r: Board)
        ensures
            r.wf(),
            r.current_player == Player::Black,
            r.next_player == Player::White,
            forall|cx: int, cy: int|
                in_bounds(cx, cy) ==> #[trigger] cell(r.grid(), cx, cy) == opening_cell(cx, cy),
    {
        let mut cells: Vec<Option<Player>> = Vec::new();
        let mut i: usize = 0;
        while i < 64
            invariant
                i <= 64,
                cells@.len() == i,
                forall|j: int| 0 <= j < i ==> cells@[j] is None,
            decreases 64 - i,
        {
            cells.push(None);
            i = i + 1;
        }
        let mut board = Board { current_player: Player::Black, next_player: Player::White, board: cells };
        board.set_coordinates(&Coordinate { x: 3, y: 4 }, Player::Black);
        board.set_coordinates(&Coordinate { x: 4, y: 4 }, Player::White);
        board.set_coordinates(&Coordinate { x: 3, y: 3 }, Player::White);
        board.set_coordinates(&Coordinate { x: 4, y: 3 }, Player::Black);
        board
    }

    /// The opponent of `p`.
    fn next_player(self: &Self, p: Player) -> (r: Player)
        ensures
            r == opposite(p),
    {
        match p {
            Player::Black => Player::White,
            Player::White => Player::Black,
        }
    }

    /// Swap whose turn it is; the grid is untouched. The driver calls this
    /// directly to implement a pass.
    pub fn change_player(self: &mut Self)
        requires
            old(self).wf(),
        ensures
            final(self).wf(),
            final(self).current_player == old(self).next_player,
            final(self).next_player == old(self).current_player,
            final(self).grid() == old(self).grid(),
    {
        let c = self.current_player;
        self.current_player = self.next_player;
        self.next_player = c;
    }

    /// Whether `coordinates` lies on the 8x8 board.
    fn check_bounds(self: &Self, coordinates: &Coordinate) -> (r: bool)
        ensures
            r == in_bounds(coordinates.x as int, coordinates.y as int),
    {
        coordinates.x < 8 && coordinates.y < 8
    }

    /// The occupancy of the square at `coord`.
    pub fn get_coordinates(self: &Self, coord: &Coordinate) -> (r: Option<Player>)
        requires
            self.wf(),
            coord.x < 8,
            coord.y < 8,
        ensures
            r == cell(self.grid(), coord.x as int, coord.y as int),
    {
        self.board[coord.x * 8 + coord.y]
    }

    /// Put a piece of `p` on the square at `coord`; every other square is
    /// untouched.
    pub fn set_coordinates(self: &mut Self, coord: &Coordinate, p: Player)
        requires
            old(self).wf(),
            coord.x < 8,
            coord.y < 8,
        ensures
            final(self).wf(),
            final(self).current_player == old(self).current_player,
            final(self).next_player == old(self).next_player,
            final(self).grid() == old(self).grid().update(
                coord.x as int * 8 + coord.y as int,
                Some(p),
            ),
            cell(final(self).grid(), coord.x as int, coord.y as int) == Some::<Player>(p),
            forall|cx: int, cy: int|
                in_bounds(cx, cy) && !(cx == coord.x as int && cy == coord.y as int)
                    ==> #[trigger] cell(final(self).grid(), cx, cy) == cell(old(self).grid(), cx, cy),
    {
        self.board[coord.x * 8 + coord.y] = Some(p);
    }

    /// Whether `c` names a square that is on the board and holds `player`.
    fn check_position_against_player(self: &Self, c: Option<Coordinate>, player: Player) -> (r:
        bool)
        requires
            self.wf(),
        ensures
            r == (c is Some && in_bounds(c->0.x as int, c->0.y as int) && cell(
                self.grid(),
                c->0.x as int,
                c->0.y as int,
            ) == Some(player)),
    {
        match c {
            Some(cc) => {
                if self.check_bounds(&cc) {
                    match self.get_coordinates(&cc) {
                        Some(q) => q == player,
                        None => false,
                    }
                } else {
                    false
                }
            },
            None => false,
        }
    }

    /// Walk from `coord` in direction `dir`, collecting the bracketed run of
    /// opponent pieces. The result is the capture of that direction: empty
    /// when the direction captures nothing, otherwise exactly the run, in
    /// walking order.
    fn trace_map(self: &Self, coord: &Coordinate, dir: &Direction, player: Player) -> (r: Vec<
        Coordinate,
    >)
        requires
            self.wf(),
            coord.x < 8,
            coord.y < 8,
        ensures
            r@.len() == 0 <==> !dir_captures(
                self.grid(),
                coord.x as int,
                coord.y as int,
                *dir,
                player,
            ),
            r@.len() > 0 ==> captures_to(
                self.grid(),
                coord.x as int,
                coord.y as int,
                *dir,
                player,
                r@.len() as int,
            ),
            forall|i: int|
                0 <= i < r@.len() ==> (#[trigger] r@[i]).x as int == step_x(
                    coord.x as int,
                    *dir,
                    i + 1,
                ) && r@[i].y as int == step_y(coord.y as int, *dir, i + 1),
    {
        let ghost g = self.grid();
        let ghost x0: int = coord.x as int;
        let ghost y0: int = coord.y as int;
        let ghost d = *dir;
        let opp = self.next_player(player);
        let mut collected: Vec<Coordinate> = Vec::new();
        proof {
            lemma_step_unfold(x0, y0, d, 0);
        }
        let mut cur: Option<Coordinate> = coord.forward(dir);
        while self.check_position_against_player(cur, opp)
            invariant
                self.wf(),
                g == self.grid(),
                x0 == coord.x as int,
                y0 == coord.y as int,
                d == *dir,
                in_bounds(x0, y0),
                opp == opposite(player),
                collected@.len() <= 7,
                opp_run(g, x0, y0, d, player, collected@.len() as int),
                forall|i: int|
                    0 <= i < collected@.len() ==> (#[trigger] collected@[i]).x as int == step_x(x0, d, i + 1)
                        && collected@[i].y as int == step_y(y0, d, i + 1),
                match cur {
                    Some(c) => c.x as int == step_x(x0, d, collected@.len() as int + 1) && c.y as int == step_y(
                        y0,
                        d,
                        collected@.len() as int + 1,
                    ),
                    None => !in_bounds(
                        step_x(x0, d, collected@.len() as int + 1),
                        step_y(y0, d, collected@.len() as int + 1),
                    ),
                },
            decreases 8 - collected@.len(),
        {
            let c = cur.unwrap();
            proof {
                // the square just checked extends the opponent run by one
                assert(opp_run(g, x0, y0, d, player, collected@.len() as int + 1));
                lemma_step_bound(x0, y0, d, collected@.len() as int + 1);
                lemma_step_unfold(x0, y0, d, collected@.len() as int + 1);
            }
            collected.push(c);
            cur = c.forward(dir);
        }
        let captured = collected.len() > 0 && self.check_position_against_player(cur, player);
        if captured {
            proof {
                assert(captures_to(g, x0, y0, d, player, collected@.len() as int));
            }
            collected
        } else {
            proof {
                let n0: int = collected@.len() as int;
                assert forall|n: int| !captures_to(g, x0, y0, d, player, n) by {
                    if 1 <= n {
                        if n < n0 {
                            // the run continues past the would-be bracket
                            if captures_to(g, x0, y0, d, player, n) {
                                lemma_opp_run_at(g, x0, y0, d, player, n0, n + 1);
                                assert(false);
                            }
                        } else if n == n0 {
                            // the bracket square is missing: off the board or
                            // not the mover's piece
                        } else {
                            // the run stops at step n0 + 1
                            if captures_to(g, x0, y0, d, player, n) {
                                lemma_opp_run_at(g, x0, y0, d, player, n, n0 + 1);
                                assert(false);
                            }
                        }
                    }
                }
            }
            Vec::new()
        }
    }

    /// Append the capture of one direction to `map`: afterwards `map` holds
    /// its old elements plus exactly the squares flipped along `dir`, and it
    /// grew exactly when `dir` captures.
    fn add_direction_flips(
        self: &Self,
        coord: &Coordinate,
        dir: Direction,
        player: Player,
        map: &mut Vec<Coordinate>,
    )
        requires
            self.wf(),
            coord.x < 8,
            coord.y < 8,
        ensures
            adds_flips_of(
                old(map)@,
                final(map)@,
                self.grid(),
                coord.x as int,
                coord.y as int,
                dir,
                player,
            ),
            final(map)@.len() >= old(map)@.len(),
            final(map)@.len() == old(map)@.len() <==> !dir_captures(
                self.grid(),
                coord.x as int,
                coord.y as int,
                dir,
                player,
            ),
            (distinct_coords(old(map)@) && (forall|i: int|
                0 <= i < old(map)@.len() ==> !flips_to(
                    self.grid(),
                    coord.x as int,
                    coord.y as int,
                    dir,
                    player,
                    (#[trigger] old(map)@[i]).x as int,
                    old(map)@[i].y as int,
                ))) ==> distinct_coords(final(map)@),
    {
        let ghost g = self.grid();
        let ghost x0: int = coord.x as int;
        let ghost y0: int = coord.y as int;
        let ghost m0 = map@;
        let mut t = self.trace_map(coord, &dir, player);
        let ghost ts = t@;
        map.append(&mut t);
        proof {
            assert(map@ == m0 + ts);
            assert forall|c: Coordinate|
                map@.contains(c) <==> (m0.contains(c) || flips_to(
                    g,
                    x0,
                    y0,
                    dir,
                    player,
                    c.x as int,
                    c.y as int,
                )) by {
                lemma_concat_contains(m0, ts, c);
                if ts.contains(c) {
                    let i = choose|i: int| 0 <= i < ts.len() && ts[i] == c;
                    assert(captures_to(g, x0, y0, dir, player, ts.len() as int));
                    assert(c.x as int == step_x(x0, dir, i + 1));
                    assert(c.y as int == step_y(y0, dir, i + 1));
                    assert(flips_to(g, x0, y0, dir, player, c.x as int, c.y as int));
                }
                if flips_to(g, x0, y0, dir, player, c.x as int, c.y as int) {
                    let (n, k): (int, int) = choose|n: int, k: int|
                        {
                            &&& #[trigger] captures_to(g, x0, y0, dir, player, n)
                            &&& 1 <= k <= n
                            &&& c.x as int == #[trigger] step_x(x0, dir, k)
                            &&& c.y as int == step_y(y0, dir, k)
                        };
                    assert(dir_captures(g, x0, y0, dir, player));
                    assert(ts.len() > 0);
                    lemma_captures_unique(g, x0, y0, dir, player, n, ts.len() as int);
                    assert(ts[k - 1].x as int == step_x(x0, dir, k));
                    assert(ts[k - 1] == c);
                    assert(ts.contains(c));
                }
            }
            assert(adds_flips_of(m0, map@, g, x0, y0, dir, player));
            if ts.len() > 0 {
                assert(dir_captures(g, x0, y0, dir, player));
            }
            if distinct_coords(m0) && (forall|i: int|
                0 <= i < m0.len() ==> !flips_to(
                    g,
                    x0,
                    y0,
                    dir,
                    player,
                    (#[trigger] m0[i]).x as int,
                    m0[i].y as int,
                )) {
                assert forall|i: int, j: int| 0 <= i < j < map@.len() implies map@[i] != map@[j] by {
                    if j >= m0.len() {
                        let tj: int = j - m0.len();
                        assert(map@[j] == ts[tj]);
                        assert(captures_to(g, x0, y0, dir, player, ts.len() as int));
                        assert(ts[tj].x as int == step_x(x0, dir, tj + 1) && ts[tj].y as int
                            == step_y(y0, dir, tj + 1));
                        assert(flips_to(g, x0, y0, dir, player, ts[tj].x as int, ts[tj].y as int));
                        if i < m0.len() {
                            assert(map@[i] == m0[i]);
                            if map@[i] == map@[j] {
                                assert(flips_to(
                                    g,
                                    x0,
                                    y0,
                                    dir,
                                    player,
                                    m0[i].x as int,
                                    m0[i].y as int,
                                ));
                            }
                        } else {
                            let ti: int = i - m0.len();
                            assert(map@[i] == ts[ti]);
                            assert(ts[ti].x as int == step_x(x0, dir, ti + 1) && ts[ti].y as int
                                == step_y(y0, dir, ti + 1));
                            lemma_steps_injective(x0, y0, dir, ti + 1, dir, tj + 1);
                        }
                    }
                }
            }
        }
    }

    /// Evaluate a move of `player` at `coord`: `Ok` with exactly the full
    /// flip set when the move is legal; `Err(Invalid)` off the board or when
    /// nothing would be captured; `Err(Filled)` on an occupied square. The
    /// board is not touched.
    pub fn is_move_legal(self: &Self, coord: &Coordinate, player: Player) -> (r: Result<
        Vec<Coordinate>,
        InvalidMove,
    >)
        requires
            self.wf(),
        ensures
            r is Ok <==> move_legal(self.grid(), player, coord.x as int, coord.y as int),
            r matches Ok(v) ==> v@.len() >= 1,
            r matches Ok(v) ==> distinct_coords(v@),
            r matches Ok(v) ==> forall|c: Coordinate|
                v@.contains(c) <==> is_flipped(
                    self.grid(),
                    coord.x as int,
                    coord.y as int,
                    player,
                    c.x as int,
                    c.y as int,
                ),
            r == Err::<Vec<Coordinate>, InvalidMove>(InvalidMove::Filled) <==> (in_bounds(
                coord.x as int,
                coord.y as int,
            ) && cell(self.grid(), coord.x as int, coord.y as int) is Some),
            r == Err::<Vec<Coordinate>, InvalidMove>(InvalidMove::Invalid) <==> (!in_bounds(
                coord.x as int,
                coord.y as int,
            ) || (cell(self.grid(), coord.x as int, coord.y as int) is None && !move_legal(
                self.grid(),
                player,
                coord.x as int,
                coord.y as int,
            ))),
    {
        let ghost g = self.grid();
        let ghost x0: int = coord.x as int;
        let ghost y0: int = coord.y as int;
        if !self.check_bounds(coord) {
            return Err(InvalidMove::Invalid);
        }
        match self.get_coordinates(coord) {
            None => {
                let mut map: Vec<Coordinate> = Vec::new();
                // between the appends, each proof block notes that nothing
                // collected so far lies along the next direction's ray, so
                // the union stays free of duplicates
                self.add_direction_flips(coord, Direction::Up, player, &mut map);
                proof {
                    assert forall|i: int| 0 <= i < map@.len() implies !flips_to(
                        g,
                        x0,
                        y0,
                        Direction::Down,
                        player,
                        (#[trigger] map@[i]).x as int,
                        map@[i].y as int,
                    ) by {
                        assert(map@.contains(map@[i]));
                        lemma_flips_dir_unique(g, x0, y0, player, map@[i].x as int, map@[i].y as int);
                    }
                }
                self.add_direction_flips(coord, Direction::Down, player, &mut map);
                proof {
                    assert forall|i: int| 0 <= i < map@.len() implies !flips_to(
                        g,
                        x0,
                        y0,
                        Direction::Right,
                        player,
                        (#[trigger] map@[i]).x as int,
                        map@[i].y as int,
                    ) by {
                        assert(map@.contains(map@[i]));
                        lemma_flips_dir_unique(g, x0, y0, player, map@[i].x as int, map@[i].y as int);
                    }
                }
                self.add_direction_flips(coord, Direction::Right, player, &mut map);
                proof {
                    assert forall|i: int| 0 <= i < map@.len() implies !flips_to(
                        g,
                        x0,
                        y0,
                        Direction::Left,
                        player,
                        (#[trigger] map@[i]).x as int,
                        map@[i].y as int,
                    ) by {
                        assert(map@.contains(map@[i]));
                        lemma_flips_dir_unique(g, x0, y0, player, map@[i].x as int, map@[i].y as int);
                    }
                }
                self.add_direction_flips(coord, Direction::Left, player, &mut map);
                proof {
                    assert forall|i: int| 0 <= i < map@.len() implies !flips_to(
                        g,
                        x0,
                        y0,
                        Direction::Topleft,
                        player,
                        (#[trigger] map@[i]).x as int,
                        map@[i].y as int,
                    ) by {
                        assert(map@.contains(map@[i]));
                        lemma_flips_dir_unique(g, x0, y0, player, map@[i].x as int, map@[i].y as int);
                    }
                }
                self.add_direction_flips(coord, Direction::Topleft, player, &mut map);
                proof {
                    assert forall|i: int| 0 <= i < map@.len() implies !flips_to(
                        g,
                        x0,
                        y0,
                        Direction::Topright,
                        player,
                        (#[trigger] map@[i]).x as int,
                        map@[i].y as int,
                    ) by {
                        assert(map@.contains(map@[i]));
                        lemma_flips_dir_unique(g, x0, y0, player, map@[i].x as int, map@[i].y as int);
                    }
                }
                self.add_direction_flips(coord, Direction::Topright, player, &mut map);
                proof {
                    assert forall|i: int| 0 <= i < map@.len() implies !flips_to(
                        g,
                        x0,
                        y0,
                        Direction::Bottomleft,
                        player,
                        (#[trigger] map@[i]).x as int,
                        map@[i].y as int,
                    ) by {
                        assert(map@.contains(map@[i]));
                        lemma_flips_dir_unique(g, x0, y0, player, map@[i].x as int, map@[i].y as int);
                    }
                }
                self.add_direction_flips(coord, Direction::Bottomleft, player, &mut map);
                proof {
                    assert forall|i: int| 0 <= i < map@.len() implies !flips_to(
                        g,
                        x0,
                        y0,
                        Direction::Bottomright,
                        player,
                        (#[trigger] map@[i]).x as int,
                        map@[i].y as int,
                    ) by {
                        assert(map@.contains(map@[i]));
                        lemma_flips_dir_unique(g, x0, y0, player, map@[i].x as int, map@[i].y as int);
                    }
                }
                self.add_direction_flips(coord, Direction::Bottomright, player, &mut map);
                proof {
                    assert forall|c: Coordinate|
                        map@.contains(c) <==> is_flipped(g, x0, y0, player, c.x as int, c.y as int) by {
                        if is_flipped(g, x0, y0, player, c.x as int, c.y as int) {
                            let d = choose|d: Direction|
                                flips_to(g, x0, y0, d, player, c.x as int, c.y as int);
                            assert(map@.contains(c));
                        }
                    }
                    assert(map@.len() == 0 <==> !exists|d: Direction|
                        dir_captures(g, x0, y0, d, player)) by {
                        if map@.len() == 0 {
                            assert forall|d: Direction| !dir_captures(g, x0, y0, d, player) by {}
                        }
                    }
                }
                if map.len() == 0 {
                    Err(InvalidMove::Invalid)
                } else {
                    Ok(map)
                }
            },
            Some(_) => Err(InvalidMove::Filled),
        }
    }

    /// The legal moves of `player`, one coordinate per move, enumerated
    /// column by column and row by row: exactly the squares where
    /// `is_move_legal` succeeds, in strictly increasing board order.
    pub fn legal_moves(self: &Self, player: Player) -> (r: Vec<Coordinate>)
        requires
            self.wf(),
        ensures
            forall|c: Coordinate|
                r@.contains(c) <==> move_legal(self.grid(), player, c.x as int, c.y as int),
            forall|i: int, j: int|
                0 <= i < j < r@.len() ==> cell_key(#[trigger] r@[i]) < cell_key(#[trigger] r@[j]),
            forall|i: int|
                0 <= i < r@.len() ==> in_bounds((#[trigger] r@[i]).x as int, r@[i].y as int)
                    && cell(self.grid(), r@[i].x as int, r@[i].y as int) is None,
    {
        let ghost g = self.grid();
        let mut move_list: Vec<Coordinate> = Vec::new();
        let mut x: usize = 0;
        while x < 8
            invariant
                self.wf(),
                g == self.grid(),
                x <= 8,
                forall|c: Coordinate|
                    move_list@.contains(c) <==> (move_legal(g, player, c.x as int, c.y as int)
                        && cell_key(c) < x as int * 8),
                forall|i: int|
                    0 <= i < move_list@.len() ==> cell_key(#[trigger] move_list@[i]) < x as int * 8,
                forall|i: int, j: int|
                    0 <= i < j < move_list@.len() ==> cell_key(#[trigger] move_list@[i]) < cell_key(
                        #[trigger] move_list@[j],
                    ),
                forall|i: int|
                    0 <= i < move_list@.len() ==> in_bounds(
                        (#[trigger] move_list@[i]).x as int,
                        move_list@[i].y as int,
                    ) && cell(g, move_list@[i].x as int, move_list@[i].y as int) is None,
            decreases 8 - x,
        {
            let mut y: usize = 0;
            while y < 8
                invariant
                    self.wf(),
                    g == self.grid(),
                    x < 8,
                    y <= 8,
                    forall|c: Coordinate|
                        move_list@.contains(c) <==> (move_legal(g, player, c.x as int, c.y as int)
                            && cell_key(c) < x as int * 8 + y as int),
                    forall|i: int|
                        0 <= i < move_list@.len() ==> cell_key(#[trigger] move_list@[i]) < x as int
                            * 8 + y as int,
                    forall|i: int, j: int|
                        0 <= i < j < move_list@.len() ==> cell_key(#[trigger] move_list@[i])
                            < cell_key(#[trigger] move_list@[j]),
                    forall|i: int|
                        0 <= i < move_list@.len() ==> in_bounds(
                            (#[trigger] move_list@[i]).x as int,
                            move_list@[i].y as int,
                        ) && cell(g, move_list@[i].x as int, move_list@[i].y as int) is None,
                decreases 8 - y,
            {
                let coord = Coordinate { x, y };
                let ghost before = move_list@;
                if self.is_move_legal(&coord, player).is_ok() {
                    move_list.push(coord);
                }
                proof {
                    assert forall|c: Coordinate|
                        move_list@.contains(c) <==> (move_legal(g, player, c.x as int, c.y as int)
                            && cell_key(c) < x as int * 8 + y as int + 1) by {
                        lemma_push_contains(before, coord, c);
                        if move_legal(g, player, c.x as int, c.y as int) && cell_key(c) == x as int
                            * 8 + y as int {
                            // a legal square with this key is this very square
                            assert(c.x as int == x as int && c.y as int == y as int);
                            assert(c == coord);
                        }
                    }
                }
                y = y + 1;
            }
            x = x + 1;
        }
        move_list
    }

    /// Whether neither side has a legal move left.
    pub fn is_game_over(self: &Self) -> (r: bool)
        requires
            self.wf(),
        ensures
            r == game_over(self.grid()),
    {
        let ghost g = self.grid();
        let black_moves = self.legal_moves(Player::Black);
        let white_moves = self.legal_moves(Player::White);
        let r = black_moves.is_empty() && white_moves.is_empty();
        proof {
            if black_moves@.len() == 0 {
                assert forall|x: int, y: int| !move_legal(g, Player::Black, x, y) by {
                    if move_legal(g, Player::Black, x, y) {
                        let c = Coordinate { x: x as usize, y: y as usize };
                        assert(black_moves@.contains(c));
                    }
                }
            } else {
                assert(black_moves@.contains(black_moves@[0]));
                assert(!no_moves(g, Player::Black));
            }
            if white_moves@.len() == 0 {
                assert forall|x: int, y: int| !move_legal(g, Player::White, x, y) by {
                    if move_legal(g, Player::White, x, y) {
                        let c = Coordinate { x: x as usize, y: y as usize };
                        assert(white_moves@.contains(c));
                    }
                }
            } else {
                assert(white_moves@.contains(white_moves@[0]));
                assert(!no_moves(g, Player::White));
            }
        }
        r
    }

    /// Play the current player's move at `(x, y)`. On success the origin is
    /// taken and every bracketed opponent piece flipped to the mover, the
    /// two player fields swap, and the new current player is returned. On
    /// failure the board is left exactly as it was and the error says why:
    /// `Filled` for an occupied origin, `Invalid` for an out-of-range origin
    /// or a move that captures nothing.
    pub fn do_move(self: &mut Self, x: usize, y: usize) -> (r: Result<Player, InvalidMove>)
        requires
            old(self).wf(),
        ensures
            final(self).wf(),
            r is Ok <==> move_legal(old(self).grid(), old(self).current_player, x as int, y as int),
            r is Err ==> final(self).grid() == old(self).grid() && final(self).current_player
                == old(self).current_player && final(self).next_player == old(self).next_player,
            r == Err::<Player, InvalidMove>(InvalidMove::Filled) <==> (in_bounds(x as int, y as int)
                && cell(old(self).grid(), x as int, y as int) is Some),
            r == Err::<Player, InvalidMove>(InvalidMove::Invalid) <==> (!in_bounds(x as int, y as int)
                || (cell(old(self).grid(), x as int, y as int) is None && !move_legal(
                old(self).grid(),
                old(self).current_player,
                x as int,
                y as int,
            ))),
            r is Ok ==> final(self).current_player == old(self).next_player
                && final(self).next_player == old(self).current_player
                && r == Ok::<Player, InvalidMove>(old(self).next_player),
            r is Ok ==> forall|cx: int, cy: int|
                in_bounds(cx, cy) ==> #[trigger] cell(final(self).grid(), cx, cy) == (if (cx == x
                    && cy == y) || is_flipped(
                    old(self).grid(),
                    x as int,
                    y as int,
                    old(self).current_player,
                    cx,
                    cy,
                ) {
                    Some(old(self).current_player)
                } else {
                    cell(old(self).grid(), cx, cy)
                }),
    {
        let ghost g0 = self.grid();
        let ghost p0 = self.current_player;
        let coord = Coordinate { x, y };
        let current = self.current_player;
        let legal_move = self.is_move_legal(&coord, current);
        match legal_move {
            Ok(map) => {
                self.set_coordinates(&coord, current);
                self.change_player();
                let mut i: usize = 0;
                while i < map.len()
                    invariant
                        self.wf(),
                        i <= map@.len(),
                        x < 8,
                        y < 8,
                        current == p0,
                        self.current_player == opposite(p0),
                        self.next_player == p0,
                        forall|c: Coordinate|
                            map@.contains(c) <==> is_flipped(
                                g0,
                                x as int,
                                y as int,
                                p0,
                                c.x as int,
                                c.y as int,
                            ),
                        forall|cx: int, cy: int|
                            in_bounds(cx, cy) ==> #[trigger] cell(self.grid(), cx, cy) == (if (cx
                                == x && cy == y) || (exists|j: int|
                                0 <= j < i && (#[trigger] map@[j]).x as int == cx && map@[j].y as int
                                    == cy) {
                                Some(p0)
                            } else {
                                cell(g0, cx, cy)
                            }),
                    decreases map@.len() - i,
                {
                    let c = map[i];
                    proof {
                        assert(map@.contains(c));
                        lemma_flipped_in_bounds(g0, x as int, y as int, p0, c.x as int, c.y as int);
                    }
                    let ghost gprev = self.grid();
                    let ghost iprev: int = i as int;
                    self.set_coordinates(&c, current);
                    i = i + 1;
                    proof {
                        assert forall|cx: int, cy: int| in_bounds(cx, cy) implies #[trigger] cell(
                            self.grid(),
                            cx,
                            cy,
                        ) == (if (cx == x && cy == y) || (exists|j: int|
                            0 <= j < i && (#[trigger] map@[j]).x as int == cx && map@[j].y as int
                                == cy) {
                            Some(p0)
                        } else {
                            cell(g0, cx, cy)
                        }) by {
                            if cx == c.x as int && cy == c.y as int {
                                assert(0 <= iprev < i && map@[iprev].x as int == cx
                                    && map@[iprev].y as int == cy);
                            } else {
                                assert(cell(self.grid(), cx, cy) == cell(gprev, cx, cy));
                                if exists|j: int|
                                    0 <= j < i && (#[trigger] map@[j]).x as int == cx
                                        && map@[j].y as int == cy {
                                    let j = choose|j: int|
                                        0 <= j < i && (#[trigger] map@[j]).x as int == cx
                                            && map@[j].y as int == cy;
                                    assert(0 <= j < iprev && map@[j].x as int == cx
                                        && map@[j].y as int == cy);
                                }
                            }
                        }
                    }
                }
                proof {
                    assert forall|cx: int, cy: int| in_bounds(cx, cy) implies #[trigger] cell(
                        self.grid(),
                        cx,
                        cy,
                    ) == (if (cx == x && cy == y) || is_flipped(g0, x as int, y as int, p0, cx, cy) {
                        Some(p0)
                    } else {
                        cell(g0, cx, cy)
                    }) by {
                        if is_flipped(g0, x as int, y as int, p0, cx, cy) {
                            lemma_flipped_in_bounds(g0, x as int, y as int, p0, cx, cy);
                            let c = Coordinate { x: cx as usize, y: cy as usize };
                            assert(map@.contains(c));
                            let j = choose|j: int| 0 <= j < map@.len() && map@[j] == c;
                            assert((map@[j]).x as int == cx && map@[j].y as int == cy);
                        }
                        if exists|j: int|
                            0 <= j < i && (#[trigger] map@[j]).x as int == cx && map@[j].y as int
                                == cy {
                            let j = choose|j: int|
                                0 <= j < i && (#[trigger] map@[j]).x as int == cx && map@[j].y as int
                                    == cy;
                            assert(map@.contains(map@[j]));
                        }
                    }
                }
                Ok(self.current_player)
            },
            Err(e) => Err(e),
        }
    }

    /// Count the pieces of each side: the result holds the dark count first
    /// and the light count second, except that a side with no pieces at all
    /// hands its opponent the full-board count of 64.
    pub fn get_score(self: &Self) -> (r: [i32; 2])
        requires
            self.wf(),
        ensures
            r@[0] == (if score_of(self.grid(), Player::Black) != 0 && score_of(
                self.grid(),
                Player::White,
            ) == 0 {
                64int
            } else {
                score_of(self.grid(), Player::Black)
            }),
            r@[1] == (if score_of(self.grid(), Player::Black) == 0 {
                64int
            } else {
                score_of(self.grid(), Player::White)
            }),
    {
        let ghost g = self.grid();
        let mut black: i32 = 0;
        let mut white: i32 = 0;
        let mut i: usize = 0;
        while i < 64
            invariant
                self.wf(),
                g == self.grid(),
                i <= 64,
                black as int == count_pieces(g, Player::Black, i as int),
                white as int == count_pieces(g, Player::White, i as int),
            decreases 64 - i,
        {
            proof {
                lemma_count_bound(g, Player::Black, i as int);
                lemma_count_bound(g, Player::White, i as int);
            }
            match self.board[i] {
                None => {},
                Some(Player::Black) => {
                    black = black + 1;
                },
                Some(Player::White) => {
                    white = white + 1;
                },
            }
            i = i + 1;
        }
        let first = if black != 0 && white == 0 {
            64
        } else {
            black
        };
        let second = if black == 0 {
            64
        } else {
            white
        };
        [first, second]
    }
}

} // verus!

//! The free-placement board: an 8 x 8 packed bitboard where any empty cell
//! may be played. Legal actions are enumerated by a scan that walks inward
//! from the four rotated board edges, with a bitmask of already-yielded cells
//! suppressing duplicates, and yields every empty cell exactly once.

use vstd::prelude::*;
use crate::games::{Game, GameState, Player, TileStates};
use crate::grid::{
    cells_valid, full_grid, get_cell, has_line, has_line_through, in_grid, lemma_cell_set_other,
    lemma_cell_set_same, lemma_empty_state, lemma_idx_bounds, lemma_idx_injective,
    lemma_place_lines, lemma_set_restore, line_through, set_cell, state_of, tile_get, tile_set,
};

verus! {

pub const BOARD_SIZE: usize = 8;

/// A free-placement board: packed cells, the player to move, and the cached
/// game status. Cell (x, y) sits at packed index 2 * (x + 8 * y), starting in
/// the bottom left corner and going row by row.
#[derive(Clone, Copy, PartialEq, Eq, Structural, Debug)]
pub struct Stack4 {
    pub board: u128,
    pub cur_player: Player,
    pub game_state: GameState,
}

/// A free-placement action: the coordinates of the cell to fill.
#[derive(Clone, Copy, PartialEq, Eq, Structural, Debug)]
pub struct Cell {
    pub x: usize,
    pub y: usize,
}

/// Coordinates of the k-th cell of the c-th inward ray of edge `side`.
pub open spec fn ray_cell_x(side: int, c: int, k: int) -> int {
    if side == 0 { c + 1 } else if side == 1 { 7 - k } else if side == 2 { 6 - c } else { k }
}

pub open spec fn ray_cell_y(side: int, c: int, k: int) -> int {
    if side == 0 { k } else if side == 1 { c + 1 } else if side == 2 { 7 - k } else { 6 - c }
}

pub open spec fn ray_hits(side: int, c: int, k: int, x: int, y: int) -> bool {
    ray_cell_x(side, c, k) == x && ray_cell_y(side, c, k) == y
}

/// Bitmask of cells already yielded by the scan, one bit per cell.
pub open spec fn mask_has(mask: u64, x: int, y: int) -> bool {
    (mask >> ((x + 8 * y) as u64)) & 1 == 1
}

pub open spec fn mask_add(mask: u64, x: int, y: int) -> u64 {
    mask | (1u64 << ((x + 8 * y) as u64))
}

pub broadcast proof fn lemma_mask_add_same(m: u64, x: int, y: int)
    requires
        0 <= x < 8,
        0 <= y < 8,
    ensures
        #[trigger] mask_has(mask_add(m, x, y), x, y),
{
    let s = ((x + 8 * y) as u64);
    assert(((m | (1u64 << s)) >> s) & 1 == 1) by (bit_vector)
        requires s <= 63;
}

pub broadcast proof fn lemma_mask_add_other(m: u64, x: int, y: int, x2: int, y2: int)
    requires
        0 <= x < 8,
        0 <= y < 8,
        0 <= x2 < 8,
        0 <= y2 < 8,
        !(x == x2 && y == y2),
    ensures
        #[trigger] mask_has(mask_add(m, x, y), x2, y2) == mask_has(m, x2, y2),
{
    lemma_idx_injective(8, x, y, x2, y2);
    let s = ((x + 8 * y) as u64);
    let t = ((x2 + 8 * y2) as u64);
    assert((((m | (1u64 << s)) >> t) & 1) == ((m >> t) & 1)) by (bit_vector)
        requires s <= 63, t <= 63, s != t;
}

pub proof fn lemma_mask_empty(x: int, y: int)
    requires
        0 <= x < 8,
        0 <= y < 8,
    ensures
        !mask_has(0u64, x, y),
{
    let s = ((x + 8 * y) as u64);
    assert((0u64 >> s) & 1 == 0) by (bit_vector);
}

/// Lexicographic order on scan positions (side, then ray, then depth).
pub open spec fn visit_le(s1: int, c1: int, k1: int, s2: int, c2: int, k2: int) -> bool {
    s1 < s2 || (s1 == s2 && (c1 < c2 || (c1 == c2 && k1 <= k2)))
}

/// Some scan position at or after (side, c, k) lands on cell (x, y).
pub open spec fn future_visit(side: int, c: int, k: int, x: int, y: int) -> bool {
    exists|s2: int, c2: int, k2: int|
        0 <= s2 < 4 && 0 <= c2 < 8 && 0 <= k2 < 8 && visit_le(side, c, k, s2, c2, k2)
            && #[trigger] ray_hits(s2, c2, k2, x, y)
}

/// The actions the edge scan yields from position (side, c, k) onward, given
/// the cells already yielded in `mask`.
pub open spec fn scan_from(bits: u128, side: int, c: int, k: int, mask: u64) -> Seq<Cell>
    decreases 4 - side, 8 - c, 9 - k,
    when 0 <= side && 0 <= c <= 8 && 0 <= k <= 8
{
    if side >= 4 {
        Seq::empty()
    } else if c >= 8 {
        scan_from(bits, side + 1, 0, 0, mask)
    } else if k >= 8 {
        scan_from(bits, side, c + 1, 0, mask)
    } else {
        let x = ray_cell_x(side, c, k);
        let y = ray_cell_y(side, c, k);
        if in_grid(8, 8, x, y) && get_cell(bits, 8, x, y) == 0 && !mask_has(mask, x, y) {
            seq![(Cell { x: x as usize, y: y as usize })] + scan_from(
                bits, side, c, k + 1, mask_add(mask, x, y),
            )
        } else {
            scan_from(bits, side, c, k + 1, mask)
        }
    }
}

/// Whether the scan from (side, c, k) with mask `mask` still owes cell `a`.
pub open spec fn scan_yields(bits: u128, side: int, c: int, k: int, mask: u64, a: Cell) -> bool {
    &&& a.x < 8
    &&& a.y < 8
    &&& get_cell(bits, 8, a.x as int, a.y as int) == 0
    &&& !mask_has(mask, a.x as int, a.y as int)
    &&& future_visit(side, c, k, a.x as int, a.y as int)
}

/// The scan yields exactly the empty cells it still owes, each once.
pub proof fn lemma_scan_characterize(bits: u128, side: int, c: int, k: int, mask: u64)
    requires
        0 <= side <= 4,
        0 <= c <= 8,
        0 <= k <= 8,
    ensures
        forall|a: Cell|
            scan_from(bits, side, c, k, mask).contains(a) <==> #[trigger] scan_yields(
                bits, side, c, k, mask, a,
            ),
        scan_from(bits, side, c, k, mask).no_duplicates(),
    decreases 4 - side, 8 - c, 9 - k,
{
    let s = scan_from(bits, side, c, k, mask);
    if side >= 4 {
        assert forall|a: Cell| !#[trigger] scan_yields(bits, side, c, k, mask, a) by {
            if future_visit(side, c, k, a.x as int, a.y as int) {
                let (s2, c2, k2) = choose|s2: int, c2: int, k2: int|
                    0 <= s2 < 4 && 0 <= c2 < 8 && 0 <= k2 < 8 && visit_le(side, c, k, s2, c2, k2)
                        && #[trigger] ray_hits(s2, c2, k2, a.x as int, a.y as int);
                assert(false);
            }
        }
        assert(s.no_duplicates());
    } else if c >= 8 {
        lemma_scan_characterize(bits, side + 1, 0, 0, mask);
        assert forall|a: Cell|
            #[trigger] scan_yields(bits, side, c, k, mask, a) == scan_yields(
            bits, side + 1, 0, 0, mask, a,
        ) by {
            let ax = a.x as int;
            let ay = a.y as int;
            if future_visit(side + 1, 0, 0, ax, ay) {
                lemma_future_shift(side, c, k, side + 1, 0, 0, ax, ay);
            }
            if future_visit(side, c, k, ax, ay) {
                let (s2, c2, k2) = choose|s2: int, c2: int, k2: int|
                    0 <= s2 < 4 && 0 <= c2 < 8 && 0 <= k2 < 8 && visit_le(side, c, k, s2, c2, k2)
                        && #[trigger] ray_hits(s2, c2, k2, ax, ay);
                assert(visit_le(side + 1, 0, 0, s2, c2, k2));
                assert(future_visit(side + 1, 0, 0, ax, ay));
            }
        }
    } else if k >= 8 {
        lemma_scan_characterize(bits, side, c + 1, 0, mask);
        assert forall|a: Cell|
            #[trigger] scan_yields(bits, side, c, k, mask, a) == scan_yields(
            bits, side, c + 1, 0, mask, a,
        ) by {
            let ax = a.x as int;
            let ay = a.y as int;
            if future_visit(side, c + 1, 0, ax, ay) {
                lemma_future_shift(side, c, k, side, c + 1, 0, ax, ay);
            }
            if future_visit(side, c, k, ax, ay) {
                let (s2, c2, k2) = choose|s2: int, c2: int, k2: int|
                    0 <= s2 < 4 && 0 <= c2 < 8 && 0 <= k2 < 8 && visit_le(side, c, k, s2, c2, k2)
                        && #[trigger] ray_hits(s2, c2, k2, ax, ay);
                assert(visit_le(side, c + 1, 0, s2, c2, k2));
                assert(future_visit(side, c + 1, 0, ax, ay));
            }
        }
    } else {
        let x = ray_cell_x(side, c, k);
        let y = ray_cell_y(side, c, k);
        if in_grid(8, 8, x, y) && get_cell(bits, 8, x, y) == 0 && !mask_has(mask, x, y) {
            let cur = Cell { x: x as usize, y: y as usize };
            let mask2 = mask_add(mask, x, y);
            let tail = scan_from(bits, side, c, k + 1, mask2);
            lemma_scan_characterize(bits, side, c, k + 1, mask2);
            assert(s == seq![cur] + tail);
            assert forall|a: Cell| s.contains(a) <==> #[trigger] scan_yields(
                bits, side, c, k, mask, a,
            ) by {
                broadcast use lemma_mask_add_same, lemma_mask_add_other;

                let ax = a.x as int;
                let ay = a.y as int;
                if s.contains(a) {
                    if a == cur {
                        assert(ray_hits(side, c, k, ax, ay));
                        assert(visit_le(side, c, k, side, c, k));
                        assert(future_visit(side, c, k, ax, ay));
                    } else {
                        assert(tail.contains(a)) by {
                            let i = choose|i: int| 0 <= i < s.len() && s[i] == a;
                            assert(tail[i - 1] == a);
                        }
                        assert(scan_yields(bits, side, c, k + 1, mask2, a));
                        assert(!mask_has(mask, ax, ay));
                        lemma_future_shift(side, c, k, side, c, k + 1, ax, ay);
                    }
                }
                if scan_yields(bits, side, c, k, mask, a) {
                    if a == cur {
                        assert(s[0] == a);
                        assert(s.contains(a));
                    } else {
                        assert(!(ax == x && ay == y)) by {
                            if ax == x && ay == y {
                                assert(a.x == x as usize && a.y == y as usize);
                            }
                        }
                        assert(!mask_has(mask2, ax, ay));
                        // the owed visit cannot be the current position
                        let (s2, c2, k2) = choose|s2: int, c2: int, k2: int|
                            0 <= s2 < 4 && 0 <= c2 < 8 && 0 <= k2 < 8 && visit_le(
                                side, c, k, s2, c2, k2,
                            ) && #[trigger] ray_hits(s2, c2, k2, ax, ay);
                        assert(!(s2 == side && c2 == c && k2 == k));
                        assert(visit_le(side, c, k + 1, s2, c2, k2));
                        assert(future_visit(side, c, k + 1, ax, ay));
                        assert(scan_yields(bits, side, c, k + 1, mask2, a));
                        assert(tail.contains(a));
                        let i = choose|i: int| 0 <= i < tail.len() && tail[i] == a;
                        assert(s[i + 1] == a);
                        assert(s.contains(a));
                    }
                }
            }
            assert(s.no_duplicates()) by {
                broadcast use lemma_mask_add_same;

                assert forall|i: int, j: int| 0 <= i < j < s.len() implies s[i] != s[j] by {
                    if i == 0 {
                        assert(s[j] == tail[j - 1]);
                        assert(tail.contains(tail[j - 1]));
                        assert(scan_yields(bits, side, c, k + 1, mask2, tail[j - 1]));
                        assert(mask_has(mask2, x, y));
                    } else {
                        assert(s[i] == tail[i - 1] && s[j] == tail[j - 1]);
                    }
                }
            }
        } else {
            lemma_scan_characterize(bits, side, c, k + 1, mask);
            assert forall|a: Cell|
                #[trigger] scan_yields(bits, side, c, k, mask, a) == scan_yields(
                bits, side, c, k + 1, mask, a,
            ) by {
                let ax = a.x as int;
                let ay = a.y as int;
                if scan_yields(bits, side, c, k, mask, a) {
                    let (s2, c2, k2) = choose|s2: int, c2: int, k2: int|
                        0 <= s2 < 4 && 0 <= c2 < 8 && 0 <= k2 < 8 && visit_le(
                            side, c, k, s2, c2, k2,
                        ) && #[trigger] ray_hits(s2, c2, k2, ax, ay);
                    assert(!(s2 == side && c2 == c && k2 == k)) by {
                        if s2 == side && c2 == c && k2 == k {
                            assert(ax == x && ay == y);
                            assert(in_grid(8, 8, x, y));
                            assert(false);
                        }
                    }
                    assert(visit_le(side, c, k + 1, s2, c2, k2));
                    assert(future_visit(side, c, k + 1, ax, ay));
                }
                if scan_yields(bits, side, c, k + 1, mask, a) {
                    lemma_future_shift(side, c, k, side, c, k + 1, ax, ay);
                }
            }
        }
    }
}

/// A scan position that is owed from a later position is owed from an
/// earlier one too.
proof fn lemma_future_shift(s1: int, c1: int, k1: int, s2: int, c2: int, k2: int, x: int, y: int)
    requires
        visit_le(s1, c1, k1, s2, c2, k2) || (s1 == s2 && c1 == c2 && k2 == k1 + 1) || (s1 == s2
            && c2 == c1 + 1 && k1 >= 8) || (s2 == s1 + 1 && c1 >= 8),
        future_visit(s2, c2, k2, x, y),
    ensures
        future_visit(s1, c1, k1, x, y),
{
    let (s3, c3, k3) = choose|s3: int, c3: int, k3: int|
        0 <= s3 < 4 && 0 <= c3 < 8 && 0 <= k3 < 8 && visit_le(s2, c2, k2, s3, c3, k3)
            && #[trigger] ray_hits(s3, c3, k3, x, y);
    assert(visit_le(s1, c1, k1, s3, c3, k3));
}

impl Stack4 {
    /// Consistency of a board value: every cell holds a legal tile code and
    /// the cached status is the one the cells encode.
    pub open spec fn wf_spec(self) -> bool {
        &&& cells_valid(self.board, 8, 8)
        &&& self.game_state == state_of(self.board, 8, 8)
    }

    /// Legal-move completeness: whatever the occupancy, the four-edge scan
    /// yields every empty cell exactly once, with no duplicates, no
    /// omissions, and nothing else.
    pub proof fn lemma_legal_actions_exact(self)
        ensures
            self.legal_spec().no_duplicates(),
            forall|a: Cell|
                self.legal_spec().contains(a) <==> (a.x < 8 && a.y < 8 && get_cell(
                    self.board, 8, a.x as int, a.y as int,
                ) == 0),
    {
        lemma_scan_characterize(self.board, 0, 0, 0, 0);
        assert forall|a: Cell|
            self.legal_spec().contains(a) <==> (a.x < 8 && a.y < 8 && get_cell(
                self.board, 8, a.x as int, a.y as int,
            ) == 0) by {
            if self.legal_spec().contains(a) {
                assert(scan_yields(self.board, 0, 0, 0, 0u64, a));
            }
            if a.x < 8 && a.y < 8 && get_cell(self.board, 8, a.x as int, a.y as int) == 0 {
                lemma_scan_full_yields(self.board, a.x as int, a.y as int);
            }
        }
    }

    /// Terminal detection: a well-formed board reports a win exactly when
    /// its cells hold an unbroken line of four for that player, and a draw
    /// exactly when it is full with no such line.
    pub proof fn lemma_terminal_detection(self)
        requires
            self.wf_spec(),
        ensures
            (self.game_state == GameState::Won(Player::Red)) == has_line(self.board, 8, 8, 1),
            (self.game_state == GameState::Won(Player::Yellow)) == (has_line(self.board, 8, 8, 2)
                && !has_line(self.board, 8, 8, 1)),
            (self.game_state == GameState::Draw) == (full_grid(self.board, 8, 8) && !has_line(
                self.board, 8, 8, 1,
            ) && !has_line(self.board, 8, 8, 2)),
    {
    }

    /// Whether a completed line of four same-player tiles passes through the
    /// given cell.
    pub fn player_won(&self, piece_pos: [usize; 2]) -> (r: bool)
        requires
            piece_pos[0] < 8,
            piece_pos[1] < 8,
        ensures
            r == has_line_through(
                self.board, 8, 8, piece_pos[0] as int, piece_pos[1] as int,
                get_cell(self.board, 8, piece_pos[0] as int, piece_pos[1] as int),
            ),
    {
        let x = piece_pos[0];
        let y = piece_pos[1];
        line_through(self.board, 8, 8, x, y)
    }

    /// The board is full exactly when the scan yields no legal action.
    pub fn is_full(&self) -> (r: bool)
        ensures
            r == full_grid(self.board, 8, 8),
    {
        let n = Game::legal_actions(self).len();
        proof {
            lemma_scan_characterize(self.board, 0, 0, 0, 0);
            let s = scan_from(self.board, 0, 0, 0, 0);
            if n == 0 {
                assert forall|x: int, y: int| in_grid(8, 8, x, y) implies #[trigger] get_cell(
                    self.board, 8, x, y,
                ) != 0 by {
                    if get_cell(self.board, 8, x, y) == 0 {
                        lemma_scan_full_yields(self.board, x, y);
                        assert(s.contains(Cell { x: x as usize, y: y as usize }));
                        assert(false);
                    }
                }
            } else {
                assert(s.contains(s[0]));
                assert(scan_yields(self.board, 0, 0, 0, 0, s[0]));
                assert(in_grid(8, 8, s[0].x as int, s[0].y as int));
                assert(!full_grid(self.board, 8, 8));
            }
        }
        n == 0
    }

    pub fn in_board(x: i32, y: i32) -> (r: bool)
        ensures
            r == in_grid(8, 8, x as int, y as int),
    {
        x >= 0 && y >= 0 && x < 8 && y < 8
    }

    /// Overwrite the two bits of cell (x, y) with the tile code `v`.
    pub fn set(&mut self, x: usize, y: usize, v: u8)
        requires
            x < 8,
            y < 8,
            v <= 3,
        ensures
            final(self).board == set_cell(old(self).board, 8, x as int, y as int, v),
            final(self).cur_player == old(self).cur_player,
            final(self).game_state == old(self).game_state,
    {
        proof {
            lemma_idx_bounds(8, 8, x as int, y as int);
        }
        self.board = tile_set(self.board, 8, x, y, v);
    }

    /// The cell's contents as a tile state.
    pub fn tile_at(&self, x: usize, y: usize) -> (r: TileStates)
        requires
            x < 8,
            y < 8,
        ensures
            (r == TileStates::Empty) == (get_cell(self.board, 8, x as int, y as int) == 0),
            (r == TileStates::Full(Player::Red)) == (get_cell(self.board, 8, x as int, y as int)
                == 1),
            (r == (TileStates::Full(Player::Yellow))) == (get_cell(
                self.board, 8, x as int, y as int,
            ) != 0 && get_cell(self.board, 8, x as int, y as int) != 1),
    {
        let c = self.get(x, y);
        if c == 0 {
            TileStates::Empty
        } else if c == 1 {
            TileStates::Full(Player::Red)
        } else {
            TileStates::Full(Player::Yellow)
        }
    }

    /// The tile code of cell (x, y).
    pub fn get(&self, x: usize, y: usize) -> (r: u8)
        requires
            x < 8,
            y < 8,
        ensures
            r == get_cell(self.board, 8, x as int, y as int),
    {
        proof {
            lemma_idx_bounds(8, 8, x as int, y as int);
        }
        tile_get(self.board, 8, x, y)
    }
}

/// An empty cell is owed by the scan from its start: cells off the first
/// column are met walking up from the bottom edge, the first column walking
/// down from the top edge.
proof fn lemma_scan_full_yields(bits: u128, x: int, y: int)
    requires
        0 <= x < 8,
        0 <= y < 8,
        get_cell(bits, 8, x, y) == 0,
    ensures
        scan_yields(bits, 0, 0, 0, 0u64, (Cell { x: x as usize, y: y as usize })),
{
    lemma_mask_empty(x, y);
    if x >= 1 {
        assert(ray_hits(0, x - 1, y, x, y));
        assert(visit_le(0, 0, 0, 0, x - 1, y));
    } else {
        assert(ray_hits(2, 6, 7 - y, x, y));
        assert(visit_le(0, 0, 0, 2, 6, 7 - y));
    }
}

fn ray_cell(side: usize, c: usize, k: usize) -> (r: (i32, i32))
    requires
        side < 4,
        c < 8,
        k < 8,
    ensures
        r.0 as int == ray_cell_x(side as int, c as int, k as int),
        r.1 as int == ray_cell_y(side as int, c as int, k as int),
{
    if side == 0 {
        (c as i32 + 1, k as i32)
    } else if side == 1 {
        (7 - k as i32, c as i32 + 1)
    } else if side == 2 {
        (6 - c as i32, 7 - k as i32)
    } else {
        (k as i32, 6 - c as i32)
    }
}

impl Game for Stack4 {
    type Action = Cell;

    open spec fn wf(self) -> bool {
        self.wf_spec()
    }

    open spec fn state_spec(self) -> GameState {
        self.game_state
    }

    open spec fn player_spec(self) -> Player {
        self.cur_player
    }

    open spec fn uid_spec(self) -> u128 {
        self.board
    }

    open spec fn legal_spec(self) -> Seq<Cell> {
        scan_from(self.board, 0, 0, 0, 0u64)
    }

    open spec fn play_spec(self, a: Cell) -> Stack4 {
        let nb = set_cell(self.board, 8, a.x as int, a.y as int, self.cur_player.code_spec());
        Stack4 {
            board: nb,
            cur_player: self.cur_player.opponent_spec(),
            game_state: state_of(nb, 8, 8),
        }
    }

    open spec fn unplay_spec(self, a: Cell) -> Stack4 {
        Stack4 {
            board: set_cell(self.board, 8, a.x as int, a.y as int, 0),
            cur_player: self.cur_player.opponent_spec(),
            game_state: GameState::InProgress,
        }
    }

    open spec fn vectorize_spec(self, player: Player) -> Seq<i64> {
        Seq::new(64, |i: int| tile_feature(get_cell(self.board, 8, i % 8, i / 8), player))
    }

    proof fn lemma_play_wf(self, a: Cell) {
        broadcast use lemma_cell_set_same, lemma_cell_set_other;

        lemma_scan_characterize(self.board, 0, 0, 0, 0);
        assert(scan_yields(self.board, 0, 0, 0, 0u64, a));
        let x = a.x as int;
        let y = a.y as int;
        lemma_idx_bounds(8, 8, x, y);
        let nb = set_cell(self.board, 8, x, y, self.cur_player.code_spec());
        assert forall|x2: int, y2: int| in_grid(8, 8, x2, y2) implies #[trigger] get_cell(
            nb, 8, x2, y2,
        ) <= 2 by {
            lemma_idx_bounds(8, 8, x2, y2);
            if x2 == x && y2 == y {
                assert(get_cell(nb, 8, x2, y2) == self.cur_player.code_spec());
            } else {
                assert(get_cell(nb, 8, x2, y2) == get_cell(self.board, 8, x2, y2));
            }
        }
    }

    proof fn lemma_unplay_play(self, a: Cell) {
        broadcast use lemma_set_restore;

        lemma_scan_characterize(self.board, 0, 0, 0, 0);
        assert(scan_yields(self.board, 0, 0, 0, 0u64, a));
        lemma_idx_bounds(8, 8, a.x as int, a.y as int);
    }

    proof fn lemma_inprogress_has_actions(self) {
        lemma_scan_characterize(self.board, 0, 0, 0, 0);
        let s = scan_from(self.board, 0, 0, 0, 0);
        assert(!full_grid(self.board, 8, 8));
        let (x, y) = choose|x: int, y: int|
            in_grid(8, 8, x, y) && #[trigger] get_cell(self.board, 8, x, y) == 0;
        lemma_scan_full_yields(self.board, x, y);
        assert(s.contains(Cell { x: x as usize, y: y as usize }));
    }

    proof fn lemma_uid_state(self, other: Stack4) {
    }

    fn new() -> (r: Stack4) {
        proof {
            lemma_empty_state(8, 8);
        }
        Stack4 { board: 0, cur_player: Player::Red, game_state: GameState::InProgress }
    }

    fn play_action(&mut self, action: Cell) {
        proof {
            lemma_scan_characterize(self.board, 0, 0, 0, 0);
            assert(scan_yields(self.board, 0, 0, 0, 0u64, action));
            lemma_idx_bounds(8, 8, action.x as int, action.y as int);
        }
        let x = action.x;
        let y = action.y;
        let ghost prev = *self;
        let code = self.cur_player.code();
        self.board = tile_set(self.board, 8, x, y, code);
        proof {
            broadcast use lemma_cell_set_same;

            lemma_place_lines(prev.board, 8, 8, x as int, y as int, prev.cur_player);
        }
        let won = self.player_won([x, y]);
        if won {
            self.game_state = GameState::Won(self.cur_player);
        } else if self.is_full() {
            self.game_state = GameState::Draw;
        } else {
            self.game_state = GameState::InProgress;
        }
        self.cur_player = self.cur_player.opponent();
    }

    fn reverse_last_action(&mut self, last_action: Cell) {
        proof {
            let b = choose|b: Stack4|
                #[trigger] b.play_spec(last_action) == *old(self) && b.wf() && b.state_spec()
                    == GameState::InProgress && b.legal_spec().contains(last_action);
            lemma_scan_characterize(b.board, 0, 0, 0, 0);
            assert(scan_yields(b.board, 0, 0, 0, 0u64, last_action));
            lemma_idx_bounds(8, 8, last_action.x as int, last_action.y as int);
        }
        let x = last_action.x;
        let y = last_action.y;
        self.board = tile_set(self.board, 8, x, y, 0);
        self.game_state = GameState::InProgress;
        self.cur_player = self.cur_player.opponent();
    }

    fn game_state(&self) -> (r: GameState) {
        self.game_state
    }

    fn cur_player(&self) -> (r: Player) {
        self.cur_player
    }

    fn legal_actions(&self) -> (r: Vec<Cell>) {
        let mut res: Vec<Cell> = Vec::new();
        let mut mask: u64 = 0;
        let ghost full = scan_from(self.board, 0, 0, 0, 0u64);
        let mut side: usize = 0;
        while side < 4
            invariant
                side <= 4,
                res@ + scan_from(self.board, side as int, 0, 0, mask) == full,
            decreases 4 - side,
        {
            let mut c: usize = 0;
            while c < 8
                invariant
                    side < 4,
                    c <= 8,
                    res@ + scan_from(self.board, side as int, c as int, 0, mask) == full,
                decreases 8 - c,
            {
                let mut k: usize = 0;
                while k < 8
                    invariant
                        side < 4,
                        c < 8,
                        k <= 8,
                        res@ + scan_from(self.board, side as int, c as int, k as int, mask)
                            == full,
                    decreases 8 - k,
                {
                    let (cx, cy) = ray_cell(side, c, k);
                    if 0 <= cx && cx < 8 && 0 <= cy && cy < 8 {
                        let ux = cx as usize;
                        let uy = cy as usize;
                        proof {
                            lemma_idx_bounds(8, 8, ux as int, uy as int);
                        }
                        if tile_get(self.board, 8, ux, uy) == 0 {
                            let bit: u64 = (ux + 8 * uy) as u64;
                            if (mask >> bit) & 1 == 0 {
                                proof {
                                    assert(((mask >> bit) & 1 == 0) ==> ((mask >> bit) & 1 != 1))
                                        by (bit_vector);
                                }
                                let ghost res0 = res@;
                                let ghost mask0 = mask;
                                res.push(Cell { x: ux, y: uy });
                                mask = mask | (1u64 << bit);
                                proof {
                                    assert(mask == mask_add(mask0, ux as int, uy as int));
                                    assert(scan_from(
                                        self.board, side as int, c as int, k as int, mask0,
                                    ) == seq![(Cell { x: ux, y: uy })] + scan_from(
                                        self.board, side as int, c as int, (k + 1) as int, mask,
                                    ));
                                    assert(res@ + scan_from(
                                        self.board, side as int, c as int, (k + 1) as int, mask,
                                    ) == (res0 + scan_from(
                                        self.board, side as int, c as int, k as int, mask0,
                                    )));
                                }
                            } else {
                                proof {
                                    assert(((mask >> bit) & 1 != 0) ==> ((mask >> bit) & 1 == 1))
                                        by (bit_vector);
                                    assert(mask_has(mask, ux as int, uy as int));
                                }
                            }
                        }
                    }
                    k = k + 1;
                }
                c = c + 1;
            }
            side = side + 1;
        }
        proof {
            assert(scan_from(self.board, 4, 0, 0, mask) == Seq::<Cell>::empty());
            assert(res@ == res@ + scan_from(self.board, 4, 0, 0, mask));
        }
        res
    }

    fn vectorize(&self, player: Player) -> (r: Vec<i64>) {
        let mut v: Vec<i64> = Vec::new();
        let mut y: usize = 0;
        while y < 8
            invariant
                y <= 8,
                v@.len() == 8 * y,
                forall|i: int|
                    0 <= i < v@.len() ==> v@[i] == tile_feature(
                        get_cell(self.board, 8, i % 8, i / 8), player,
                    ),
            decreases 8 - y,
        {
            let mut x: usize = 0;
            while x < 8
                invariant
                    y < 8,
                    x <= 8,
                    v@.len() == 8 * y + x,
                    forall|i: int|
                        0 <= i < v@.len() ==> v@[i] == tile_feature(
                            get_cell(self.board, 8, i % 8, i / 8), player,
                        ),
                decreases 8 - x,
            {
                let cur = self.get(x, y);
                let f: i64 = if cur == player.code() {
                    1
                } else if cur == player.opponent().code() {
                    -1
                } else {
                    0
                };
                proof {
                    assert((x + 8 * y) % 8 == x as int && (x + 8 * y) / 8 == y as int);
                }
                v.push(f);
                x = x + 1;
            }
            y = y + 1;
        }
        proof {
            assert(v@ =~= self.vectorize_spec(player));
        }
        v
    }

    fn uid(&self) -> (r: u128) {
        self.board
    }
}

/// Feature encoding of one tile code for an evaluator: 1 for the asked
/// player's tiles, -1 for the opponent's, 0 otherwise.
pub open spec fn tile_feature(c: u8, player: Player) -> i64 {
    if c == player.code_spec() {
        1i64
    } else if c == player.opponent_spec().code_spec() {
        -1i64
    } else {
        0i64
    }
}

} // verus!

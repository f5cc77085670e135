//! The gravity-drop board: a 7-wide, 6-tall packed bitboard. An action is a
//! column index; it is legal exactly when the column's topmost cell is empty,
//! and playing it fills the lowest empty cell of that column.

use vstd::prelude::*;
use crate::games::{Game, GameState, Player, TileStates};
use crate::grid::{
    cells_valid, full_grid, get_cell, has_line, in_grid, lemma_cell_set_other, lemma_cell_set_same,
    lemma_empty_state, lemma_idx_bounds, lemma_place_lines, lemma_set_restore, line_through,
    set_cell, state_of, tile_get, tile_set,
};

verus! {

pub const BOARD_WIDTH: usize = 7;

pub const BOARD_HEIGHT: usize = 6;

/// A gravity board: packed cells, the player to move, and the cached game
/// status. Cell (x, y) sits at packed index 2 * (x + 7 * y), row by row from
/// the bottom left corner.
#[derive(Clone, Copy, PartialEq, Eq, Structural, Debug)]
pub struct Connect4 {
    pub board: u128,
    pub cur_player: Player,
    pub game_state: GameState,
}

/// Gravity packing: an occupied cell never floats above an empty one.
pub open spec fn packed(bits: u128) -> bool {
    forall|x: int, y: int|
        in_grid(7, 6, x, y) && y >= 1 && #[trigger] get_cell(bits, 7, x, y) != 0 ==> get_cell(
            bits, 7, x, y - 1,
        ) != 0
}

/// The first empty row of column `x` at or above row `y`.
pub open spec fn height_from(bits: u128, x: int, y: int) -> int
    decreases 6 - y,
    when 0 <= y <= 6
{
    if y >= 6 {
        6
    } else if get_cell(bits, 7, x, y) != 0 {
        height_from(bits, x, y + 1)
    } else {
        y
    }
}

/// Number of occupied cells at the bottom of column `x`; in a packed grid
/// this is the row where a dropped piece lands.
pub open spec fn col_height(bits: u128, x: int) -> int {
    height_from(bits, x, 0)
}

/// In a column whose row `y` is empty, every row above is empty too.
pub proof fn lemma_empty_above(bits: u128, x: int, y: int, y2: int)
    requires
        packed(bits),
        0 <= x < 7,
        0 <= y <= y2 < 6,
        get_cell(bits, 7, x, y) == 0,
    ensures
        get_cell(bits, 7, x, y2) == 0,
    decreases y2 - y,
{
    if y2 > y {
        lemma_empty_above(bits, x, y, y2 - 1);
        if get_cell(bits, 7, x, y2) != 0 {
            assert(get_cell(bits, 7, x, y2 - 1) != 0);
        }
    }
}

proof fn lemma_height_from_range(bits: u128, x: int, y: int)
    requires
        0 <= x < 7,
        0 <= y <= 6,
    ensures
        y <= height_from(bits, x, y) <= 6,
        forall|y2: int| y <= y2 < height_from(bits, x, y) ==> get_cell(bits, 7, x, y2) != 0,
        height_from(bits, x, y) < 6 ==> get_cell(bits, 7, x, height_from(bits, x, y)) == 0,
    decreases 6 - y,
{
    if y < 6 && get_cell(bits, 7, x, y) != 0 {
        lemma_height_from_range(bits, x, y + 1);
    }
}

/// In a packed grid, column `x` holds tiles exactly below its height.
pub proof fn lemma_height(bits: u128, x: int)
    requires
        packed(bits),
        0 <= x < 7,
    ensures
        0 <= col_height(bits, x) <= 6,
        forall|y: int| 0 <= y < col_height(bits, x) ==> get_cell(bits, 7, x, y) != 0,
        forall|y: int| col_height(bits, x) <= y < 6 ==> get_cell(bits, 7, x, y) == 0,
{
    lemma_height_from_range(bits, x, 0);
    let h = col_height(bits, x);
    if h < 6 {
        assert forall|y: int| h <= y < 6 implies get_cell(bits, 7, x, y) == 0 by {
            lemma_empty_above(bits, x, h, y);
        }
    }
}

/// A grid whose column heights are known has a computable height value.
proof fn lemma_height_is(bits: u128, x: int, h: int)
    requires
        0 <= x < 7,
        0 <= h <= 6,
        forall|y: int| 0 <= y < h ==> get_cell(bits, 7, x, y) != 0,
        h < 6 ==> get_cell(bits, 7, x, h) == 0,
    ensures
        col_height(bits, x) == h,
{
    lemma_height_step(bits, x, 0, h);
}

proof fn lemma_height_step(bits: u128, x: int, y: int, h: int)
    requires
        0 <= x < 7,
        0 <= y <= h <= 6,
        forall|y2: int| y <= y2 < h ==> get_cell(bits, 7, x, y2) != 0,
        h < 6 ==> get_cell(bits, 7, x, h) == 0,
    ensures
        height_from(bits, x, y) == h,
    decreases 6 - y,
{
    if y < h {
        lemma_height_step(bits, x, y + 1, h);
    }
}

/// The columns whose topmost cell is empty, from column `c` rightward.
pub open spec fn cols_from(bits: u128, c: int) -> Seq<usize>
    decreases 7 - c,
    when 0 <= c <= 7
{
    if c >= 7 {
        Seq::empty()
    } else if get_cell(bits, 7, c, 5) == 0 {
        seq![c as usize] + cols_from(bits, c + 1)
    } else {
        cols_from(bits, c + 1)
    }
}

pub proof fn lemma_cols_characterize(bits: u128, c: int)
    requires
        0 <= c <= 7,
    ensures
        forall|a: usize|
            cols_from(bits, c).contains(a) <==> (c <= a < 7 && get_cell(bits, 7, a as int, 5)
                == 0),
        cols_from(bits, c).no_duplicates(),
    decreases 7 - c,
{
    if c < 7 {
        lemma_cols_characterize(bits, c + 1);
        let s = cols_from(bits, c);
        let tail = cols_from(bits, c + 1);
        if get_cell(bits, 7, c, 5) == 0 {
            assert forall|a: usize| s.contains(a) <==> (c <= a < 7 && get_cell(
                bits, 7, a as int, 5,
            ) == 0) by {
                if s.contains(a) {
                    let i = choose|i: int| 0 <= i < s.len() && s[i] == a;
                    if i > 0 {
                        assert(tail[i - 1] == a);
                        assert(tail.contains(a));
                    }
                }
                if c <= a < 7 && get_cell(bits, 7, a as int, 5) == 0 {
                    if a as int == c {
                        assert(s[0] == a);
                    } else {
                        assert(tail.contains(a));
                        let i = choose|i: int| 0 <= i < tail.len() && tail[i] == a;
                        assert(s[i + 1] == a);
                    }
                }
            }
            assert(s.no_duplicates()) by {
                assert forall|i: int, j: int| 0 <= i < j < s.len() implies s[i] != s[j] by {
                    if i == 0 {
                        assert(s[j] == tail[j - 1]);
                        assert(tail.contains(tail[j - 1]));
                    } else {
                        assert(s[i] == tail[i - 1] && s[j] == tail[j - 1]);
                    }
                }
            }
        } else {
            assert forall|a: usize| s.contains(a) <==> (c <= a < 7 && get_cell(
                bits, 7, a as int, 5,
            ) == 0) by {
                if c <= a < 7 && get_cell(bits, 7, a as int, 5) == 0 {
                    assert(a as int != c);
                }
            }
        }
    }
}

impl Connect4 {
    /// Consistency of a board value: legal tile codes, gravity packing, and a
    /// cached status that matches the cells.
    pub open spec fn wf_spec(self) -> bool {
        &&& cells_valid(self.board, 7, 6)
        &&& packed(self.board)
        &&& self.game_state == state_of(self.board, 7, 6)
    }

    /// Legal-move completeness: the legal actions are exactly the columns
    /// whose topmost cell is empty, each listed once.
    pub proof fn lemma_legal_actions_exact(self)
        ensures
            self.legal_spec().no_duplicates(),
            forall|a: usize|
                self.legal_spec().contains(a) <==> (a < 7 && get_cell(self.board, 7, a as int, 5)
                    == 0),
    {
        lemma_cols_characterize(self.board, 0);
    }

    /// Terminal detection: a well-formed board reports a win exactly when
    /// its cells hold an unbroken line of four for that player, and a draw
    /// exactly when it is full with no such line.
    pub proof fn lemma_terminal_detection(self)
        requires
            self.wf_spec(),
        ensures
            (self.game_state == GameState::Won(Player::Red)) == has_line(self.board, 7, 6, 1),
            (self.game_state == GameState::Won(Player::Yellow)) == (has_line(self.board, 7, 6, 2)
                && !has_line(self.board, 7, 6, 1)),
            (self.game_state == GameState::Draw) == (full_grid(self.board, 7, 6) && !has_line(
                self.board, 7, 6, 1,
            ) && !has_line(self.board, 7, 6, 2)),
    {
    }

    /// Whether the column can still take a piece.
    pub fn is_valid_move(&self, column: usize) -> (r: bool)
        requires
            column < 7,
        ensures
            r == (get_cell(self.board, 7, column as int, 5) == 0),
    {
        proof {
            lemma_idx_bounds(7, 6, column as int, 5);
        }
        tile_get(self.board, 7, column, 5) == 0
    }

    /// The cell's contents as a tile state.
    pub fn tile_at(&self, x: usize, y: usize) -> (r: TileStates)
        requires
            x < 7,
            y < 6,
        ensures
            (r == TileStates::Empty) == (get_cell(self.board, 7, x as int, y as int) == 0),
            (r == TileStates::Full(Player::Red)) == (get_cell(self.board, 7, x as int, y as int)
                == 1),
            (r == (TileStates::Full(Player::Yellow))) == (get_cell(
                self.board, 7, x as int, y as int,
            ) != 0 && get_cell(self.board, 7, x as int, y as int) != 1),
    {
        let c = self.get(x, y);
        if c == 0 {
            TileStates::Empty
        } else if c == 1 {
            TileStates::Full(Player::Red)
        } else {
            TileStates::Full(Player::Yellow)
        }
    }

    /// The tile code of cell (x, y).
    pub fn get(&self, x: usize, y: usize) -> (r: u8)
        requires
            x < 7,
            y < 6,
        ensures
            r == get_cell(self.board, 7, x as int, y as int),
    {
        proof {
            lemma_idx_bounds(7, 6, x as int, y as int);
        }
        tile_get(self.board, 7, x, y)
    }

    /// The first empty row of the column, where a dropped piece lands.
    fn column_height(&self, column: usize) -> (h: usize)
        requires
            column < 7,
        ensures
            h as int == col_height(self.board, column as int),
            h <= 6,
    {
        let mut yy: usize = 0;
        while yy < 6
            invariant
                column < 7,
                yy <= 6,
                height_from(self.board, column as int, 0) == height_from(
                    self.board, column as int, yy as int,
                ),
                forall|y2: int|
                    0 <= y2 < yy ==> get_cell(self.board, 7, column as int, y2) != 0,
            decreases 6 - yy,
        {
            proof {
                lemma_idx_bounds(7, 6, column as int, yy as int);
            }
            if tile_get(self.board, 7, column, yy) == 0 {
                return yy;
            }
            yy = yy + 1;
        }
        6
    }
}

impl Game for Connect4 {
    type Action = usize;

    open spec fn wf(self) -> bool {
        self.wf_spec()
    }

    open spec fn state_spec(self) -> GameState {
        self.game_state
    }

    open spec fn player_spec(self) -> Player {
        self.cur_player
    }

    open spec fn uid_spec(self) -> u128 {
        self.board
    }

    open spec fn legal_spec(self) -> Seq<usize> {
        cols_from(self.board, 0)
    }

    open spec fn play_spec(self, a: usize) -> Connect4 {
        let nb = set_cell(
            self.board, 7, a as int, col_height(self.board, a as int),
            self.cur_player.code_spec(),
        );
        Connect4 {
            board: nb,
            cur_player: self.cur_player.opponent_spec(),
            game_state: state_of(nb, 7, 6),
        }
    }

    open spec fn unplay_spec(self, a: usize) -> Connect4 {
        let h = col_height(self.board, a as int);
        Connect4 {
            board: if h >= 1 {
                set_cell(self.board, 7, a as int, h - 1, 0)
            } else {
                self.board
            },
            cur_player: self.cur_player.opponent_spec(),
            game_state: GameState::InProgress,
        }
    }

    open spec fn vectorize_spec(self, player: Player) -> Seq<i64> {
        Seq::new(42, |i: int| crate::stack4::tile_feature(get_cell(self.board, 7, i % 7, i / 7), player))
    }

    proof fn lemma_play_wf(self, a: usize) {
        broadcast use lemma_cell_set_same, lemma_cell_set_other;

        lemma_cols_characterize(self.board, 0);
        let x = a as int;
        lemma_height(self.board, x);
        let h = col_height(self.board, x);
        assert(h <= 5) by {
            if h == 6 {
                assert(get_cell(self.board, 7, x, 5) != 0);
            }
        }
        lemma_idx_bounds(7, 6, x, h);
        let nb = set_cell(self.board, 7, x, h, self.cur_player.code_spec());
        assert forall|x2: int, y2: int| in_grid(7, 6, x2, y2) implies #[trigger] get_cell(
            nb, 7, x2, y2,
        ) <= 2 by {
            lemma_idx_bounds(7, 6, x2, y2);
            if x2 == x && y2 == h {
                assert(get_cell(nb, 7, x2, y2) == self.cur_player.code_spec());
            } else {
                assert(get_cell(nb, 7, x2, y2) == get_cell(self.board, 7, x2, y2));
            }
        }
        assert forall|x2: int, y2: int|
            in_grid(7, 6, x2, y2) && y2 >= 1 && #[trigger] get_cell(nb, 7, x2, y2)
                != 0 implies get_cell(nb, 7, x2, y2 - 1) != 0 by {
            lemma_idx_bounds(7, 6, x2, y2);
            lemma_idx_bounds(7, 6, x2, y2 - 1);
            if x2 == x && y2 == h {
                assert(get_cell(nb, 7, x2, y2 - 1) == get_cell(self.board, 7, x2, y2 - 1));
            } else {
                assert(get_cell(nb, 7, x2, y2) == get_cell(self.board, 7, x2, y2));
                assert(get_cell(self.board, 7, x2, y2 - 1) != 0);
                if x2 == x && y2 - 1 == h {
                    assert(get_cell(self.board, 7, x, h) == 0);
                    assert(false);
                } else {
                    assert(get_cell(nb, 7, x2, y2 - 1) == get_cell(self.board, 7, x2, y2 - 1));
                }
            }
        }
    }

    proof fn lemma_unplay_play(self, a: usize) {
        broadcast use lemma_cell_set_same, lemma_cell_set_other, lemma_set_restore;

        lemma_cols_characterize(self.board, 0);
        let x = a as int;
        lemma_height(self.board, x);
        let h = col_height(self.board, x);
        assert(h <= 5) by {
            if h == 6 {
                assert(get_cell(self.board, 7, x, 5) != 0);
            }
        }
        lemma_idx_bounds(7, 6, x, h);
        let nb = set_cell(self.board, 7, x, h, self.cur_player.code_spec());
        assert forall|y2: int| 0 <= y2 < h + 1 implies #[trigger] get_cell(nb, 7, x, y2)
            != 0 by {
            lemma_idx_bounds(7, 6, x, y2);
            if y2 < h {
                assert(get_cell(nb, 7, x, y2) == get_cell(self.board, 7, x, y2));
            }
        }
        if h + 1 < 6 {
            lemma_idx_bounds(7, 6, x, h + 1);
            assert(get_cell(nb, 7, x, h + 1) == get_cell(self.board, 7, x, h + 1));
        }
        lemma_height_is(nb, x, h + 1);
    }

    proof fn lemma_inprogress_has_actions(self) {
        lemma_cols_characterize(self.board, 0);
        assert(!full_grid(self.board, 7, 6));
        let (x, y) = choose|x: int, y: int|
            in_grid(7, 6, x, y) && #[trigger] get_cell(self.board, 7, x, y) == 0;
        lemma_empty_above(self.board, x, y, 5);
        assert(cols_from(self.board, 0).contains(x as usize));
    }

    proof fn lemma_uid_state(self, other: Connect4) {
    }

    fn new() -> (r: Connect4) {
        proof {
            lemma_empty_state(7, 6);
        }
        Connect4 { board: 0, cur_player: Player::Red, game_state: GameState::InProgress }
    }

    fn play_action(&mut self, action: usize) {
        proof {
            lemma_cols_characterize(self.board, 0);
            lemma_height(self.board, action as int);
            if col_height(self.board, action as int) == 6 {
                assert(get_cell(self.board, 7, action as int, 5) != 0);
            }
        }
        let ghost prev = *self;
        let h = self.column_height(action);
        proof {
            lemma_idx_bounds(7, 6, action as int, h as int);
        }
        let code = self.cur_player.code();
        self.board = tile_set(self.board, 7, action, h, code);
        proof {
            broadcast use lemma_cell_set_same;

            lemma_place_lines(prev.board, 7, 6, action as int, h as int, prev.cur_player);
            prev.lemma_play_wf(action);
            assert(self.board == prev.play_spec(action).board);
        }
        let won = line_through(self.board, 7, 6, action, h);
        if won {
            self.game_state = GameState::Won(self.cur_player);
        } else {
            let legal = Game::legal_actions(self);
            proof {
                lemma_cols_characterize(self.board, 0);
                if legal@.len() == 0 {
                    assert forall|x2: int, y2: int| in_grid(7, 6, x2, y2) implies #[trigger]
                        get_cell(self.board, 7, x2, y2) != 0 by {
                        if get_cell(self.board, 7, x2, y2) == 0 {
                            lemma_empty_above(self.board, x2, y2, 5);
                            assert(cols_from(self.board, 0).contains(x2 as usize));
                            assert(false);
                        }
                    }
                } else {
                    let c0 = cols_from(self.board, 0)[0];
                    assert(cols_from(self.board, 0).contains(c0));
                    assert(get_cell(self.board, 7, c0 as int, 5) == 0);
                    assert(in_grid(7, 6, c0 as int, 5));
                    assert(!full_grid(self.board, 7, 6));
                }
            }
            if legal.len() == 0 {
                self.game_state = GameState::Draw;
            } else {
                self.game_state = GameState::InProgress;
            }
        }
        self.cur_player = self.cur_player.opponent();
    }

    fn reverse_last_action(&mut self, last_action: usize) {
        proof {
            broadcast use lemma_cell_set_same;

            let b = choose|b: Connect4|
                #[trigger] b.play_spec(last_action) == *old(self) && b.wf() && b.state_spec()
                    == GameState::InProgress && b.legal_spec().contains(last_action);
            lemma_cols_characterize(b.board, 0);
            assert(last_action < 7);
            b.lemma_play_wf(last_action);
            lemma_height(b.board, last_action as int);
            let hb = col_height(b.board, last_action as int);
            assert(hb <= 5) by {
                if hb == 6 {
                    assert(get_cell(b.board, 7, last_action as int, 5) != 0);
                }
            }
            lemma_idx_bounds(7, 6, last_action as int, hb);
            assert(get_cell(self.board, 7, last_action as int, hb) != 0);
            lemma_height(self.board, last_action as int);
            let h2 = col_height(self.board, last_action as int);
            assert(h2 >= 1) by {
                if h2 <= hb {
                    assert(get_cell(self.board, 7, last_action as int, hb) == 0);
                }
            }
        }
        let h = self.column_height(last_action);
        proof {
            lemma_idx_bounds(7, 6, last_action as int, h - 1);
        }
        self.board = tile_set(self.board, 7, last_action, h - 1, 0);
        self.game_state = GameState::InProgress;
        self.cur_player = self.cur_player.opponent();
    }

    fn game_state(&self) -> (r: GameState) {
        self.game_state
    }

    fn cur_player(&self) -> (r: Player) {
        self.cur_player
    }

    fn legal_actions(&self) -> (r: Vec<usize>) {
        let mut res: Vec<usize> = Vec::new();
        let mut c: usize = 0;
        while c < 7
            invariant
                c <= 7,
                res@ + cols_from(self.board, c as int) == cols_from(self.board, 0),
            decreases 7 - c,
        {
            proof {
                lemma_idx_bounds(7, 6, c as int, 5);
            }
            if tile_get(self.board, 7, c, 5) == 0 {
                let ghost res0 = res@;
                res.push(c);
                proof {
                    assert(cols_from(self.board, c as int) == seq![c] + cols_from(
                        self.board, c as int + 1,
                    ));
                    assert(res@ + cols_from(self.board, c as int + 1) == res0 + cols_from(
                        self.board, c as int,
                    ));
                }
            }
            c = c + 1;
        }
        res
    }

    fn vectorize(&self, player: Player) -> (r: Vec<i64>) {
        let mut v: Vec<i64> = Vec::new();
        let mut y: usize = 0;
        while y < 6
            invariant
                y <= 6,
                v@.len() == 7 * y,
                forall|i: int|
                    0 <= i < v@.len() ==> v@[i] == crate::stack4::tile_feature(
                        get_cell(self.board, 7, i % 7, i / 7), player,
                    ),
            decreases 6 - y,
        {
            let mut x: usize = 0;
            while x < 7
                invariant
                    y < 6,
                    x <= 7,
                    v@.len() == 7 * y + x,
                    forall|i: int|
                        0 <= i < v@.len() ==> v@[i] == crate::stack4::tile_feature(
                            get_cell(self.board, 7, i % 7, i / 7), player,
                        ),
                decreases 7 - x,
            {
                let cur = self.get(x, y);
                let f: i64 = if cur == player.code() {
                    1
                } else if cur == player.opponent().code() {
                    -1
                } else {
                    0
                };
                proof {
                    assert((x + 7 * y) % 7 == x as int && (x + 7 * y) / 7 == y as int);
                }
                v.push(f);
                x = x + 1;
            }
            y = y + 1;
        }
        proof {
            assert(v@ =~= self.vectorize_spec(player));
        }
        v
    }

    fn uid(&self) -> (r: u128) {
        self.board
    }
}

} // verus!

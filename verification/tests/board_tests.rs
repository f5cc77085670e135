use gamesolver::connect4::Connect4;
use gamesolver::games::{Game, GameState, Player, TileStates};
use gamesolver::stack4::{Cell, Stack4};

fn draw_pattern_player(x: usize, y: usize) -> Player {
    // rows alternate between RRYY-repeating and YYRR-repeating, which admits
    // no four-in-a-row in any direction once the board is full
    if ((x + 2 * (y % 2)) / 2) % 2 == 0 {
        Player::Red
    } else {
        Player::Yellow
    }
}

#[test]
fn stack4_new_board_is_empty_and_red_moves() {
    let b: Stack4 = Game::new();
    assert_eq!(b.uid(), 0u128);
    assert_eq!(b.game_state(), GameState::InProgress);
    assert_eq!(b.cur_player(), Player::Red);
    for x in 0..8 {
        for y in 0..8 {
            assert_eq!(b.get(x, y), 0);
            assert_eq!(b.tile_at(x, y), TileStates::Empty);
        }
    }
}

#[test]
fn stack4_set_get_roundtrip() {
    let mut b: Stack4 = Game::new();
    b.set(3, 4, 2);
    assert_eq!(b.get(3, 4), 2);
    assert_eq!(b.tile_at(3, 4), TileStates::Full(Player::Yellow));
    assert_eq!(b.get(4, 3), 0);
    assert_eq!(b.get(2, 4), 0);
    assert_eq!(b.get(3, 5), 0);
    b.set(3, 4, 1);
    assert_eq!(b.get(3, 4), 1);
    assert_eq!(b.tile_at(3, 4), TileStates::Full(Player::Red));
    b.set(3, 4, 0);
    assert_eq!(b.uid(), 0u128);
}

#[test]
fn stack4_in_board_bounds() {
    assert!(Stack4::in_board(0, 0));
    assert!(Stack4::in_board(7, 7));
    assert!(!Stack4::in_board(-1, 0));
    assert!(!Stack4::in_board(0, -1));
    assert!(!Stack4::in_board(8, 0));
    assert!(!Stack4::in_board(0, 8));
}

#[test]
fn stack4_legal_actions_cover_every_empty_cell_once() {
    let mut b: Stack4 = Game::new();
    let acts = b.legal_actions();
    assert_eq!(acts.len(), 64);
    for x in 0..8 {
        for y in 0..8 {
            assert_eq!(acts.iter().filter(|a| a.x == x && a.y == y).count(), 1);
        }
    }

    // occupy a few cells on several edges and in the middle
    b.play_action(Cell { x: 0, y: 0 });
    b.play_action(Cell { x: 7, y: 7 });
    b.play_action(Cell { x: 3, y: 4 });
    b.play_action(Cell { x: 5, y: 0 });
    let acts = b.legal_actions();
    assert_eq!(acts.len(), 60);
    for x in 0..8 {
        for y in 0..8 {
            let expected = if b.get(x, y) == 0 { 1 } else { 0 };
            assert_eq!(acts.iter().filter(|a| a.x == x && a.y == y).count(), expected);
        }
    }
}

#[test]
fn stack4_play_reverse_roundtrip() {
    let mut b: Stack4 = Game::new();
    b.play_action(Cell { x: 2, y: 2 });
    b.play_action(Cell { x: 5, y: 1 });
    let before = b;
    b.play_action(Cell { x: 4, y: 4 });
    assert_ne!(b, before);
    assert_eq!(b.cur_player(), Player::Yellow);
    b.reverse_last_action(Cell { x: 4, y: 4 });
    assert_eq!(b, before);
}

#[test]
fn stack4_vertical_win_detected_immediately() {
    let mut b: Stack4 = Game::new();
    // red stacks column 0 while yellow fills column 7
    for i in 0..3 {
        b.play_action(Cell { x: 0, y: i });
        assert_eq!(b.game_state(), GameState::InProgress);
        b.play_action(Cell { x: 7, y: i });
        assert_eq!(b.game_state(), GameState::InProgress);
    }
    b.play_action(Cell { x: 0, y: 3 });
    assert_eq!(b.game_state(), GameState::Won(Player::Red));
    assert!(b.player_won([0, 3]));
    assert!(b.player_won([0, 0]));
    assert!(!b.player_won([7, 0]));
}

#[test]
fn stack4_horizontal_and_diagonal_wins() {
    let mut b: Stack4 = Game::new();
    for i in 0..3 {
        b.play_action(Cell { x: 1 + i, y: 0 });
        b.play_action(Cell { x: 1 + i, y: 7 });
    }
    b.play_action(Cell { x: 4, y: 0 });
    assert_eq!(b.game_state(), GameState::Won(Player::Red));

    let mut d: Stack4 = Game::new();
    for i in 0..3 {
        d.play_action(Cell { x: i, y: i });
        d.play_action(Cell { x: i, y: 7 - i });
    }
    d.play_action(Cell { x: 3, y: 3 });
    assert_eq!(d.game_state(), GameState::Won(Player::Red));

    let mut a: Stack4 = Game::new();
    for i in 0..3 {
        a.play_action(Cell { x: 7 - i, y: i });
        a.play_action(Cell { x: 0, y: 1 + i });
    }
    a.play_action(Cell { x: 4, y: 3 });
    assert_eq!(a.game_state(), GameState::Won(Player::Red));
}

#[test]
fn stack4_full_line_free_board_is_draw() {
    let mut reds: Vec<(usize, usize)> = Vec::new();
    let mut yellows: Vec<(usize, usize)> = Vec::new();
    for y in 0..8 {
        for x in 0..8 {
            if draw_pattern_player(x, y) == Player::Red {
                reds.push((x, y));
            } else {
                yellows.push((x, y));
            }
        }
    }
    assert_eq!(reds.len(), 32);
    assert_eq!(yellows.len(), 32);
    let mut b: Stack4 = Game::new();
    for i in 0..32 {
        assert_eq!(b.game_state(), GameState::InProgress);
        b.play_action(Cell { x: reds[i].0, y: reds[i].1 });
        assert_eq!(b.game_state(), GameState::InProgress);
        b.play_action(Cell { x: yellows[i].0, y: yellows[i].1 });
    }
    assert!(b.is_full());
    assert_eq!(b.game_state(), GameState::Draw);
}

#[test]
fn stack4_vectorize_marks_own_and_opponent_tiles() {
    let mut b: Stack4 = Game::new();
    b.play_action(Cell { x: 0, y: 0 });
    b.play_action(Cell { x: 1, y: 0 });
    let v = b.vectorize(Player::Red);
    assert_eq!(v.len(), 64);
    assert_eq!(v[0], 1);
    assert_eq!(v[1], -1);
    assert_eq!(v[2], 0);
    let w = b.vectorize(Player::Yellow);
    assert_eq!(w[0], -1);
    assert_eq!(w[1], 1);
    assert_eq!(w[8], 0);
}

#[test]
fn connect4_pieces_drop_to_lowest_empty_row() {
    let mut b: Connect4 = Game::new();
    assert!(b.is_valid_move(3));
    b.play_action(3);
    assert_eq!(b.get(3, 0), 1);
    b.play_action(3);
    assert_eq!(b.get(3, 1), 2);
    b.play_action(3);
    assert_eq!(b.get(3, 2), 1);
    assert_eq!(b.tile_at(3, 2), TileStates::Full(Player::Red));
    assert_eq!(b.get(3, 3), 0);
    assert_eq!(b.cur_player(), Player::Yellow);
}

#[test]
fn connect4_column_fills_up_and_leaves_legal_actions() {
    let mut b: Connect4 = Game::new();
    for _ in 0..3 {
        b.play_action(0);
        b.play_action(1);
    }
    // column 0 holds R,Y? no: alternating plays columns 0 and 1
    let acts = b.legal_actions();
    assert_eq!(acts, vec![0, 1, 2, 3, 4, 5, 6]);
    for _ in 0..3 {
        b.play_action(0);
        b.play_action(1);
    }
    assert!(!b.is_valid_move(0));
    assert!(!b.is_valid_move(1));
    assert_eq!(b.legal_actions(), vec![2, 3, 4, 5, 6]);
}

#[test]
fn connect4_play_reverse_roundtrip() {
    let mut b: Connect4 = Game::new();
    b.play_action(2);
    b.play_action(2);
    b.play_action(4);
    let before = b;
    b.play_action(2);
    assert_ne!(b, before);
    b.reverse_last_action(2);
    assert_eq!(b, before);
}

#[test]
fn connect4_vertical_stack_wins_on_fourth_play_of_column() {
    // alternate columns three and two so red stacks four in column three
    let mut b: Connect4 = Game::new();
    let moves = [3, 2, 3, 2, 3, 2];
    for m in moves {
        b.play_action(m);
        assert_eq!(b.game_state(), GameState::InProgress);
    }
    b.play_action(3);
    assert_eq!(b.game_state(), GameState::Won(Player::Red));
    for y in 0..4 {
        assert_eq!(b.get(3, y), 1);
    }
}

#[test]
fn connect4_uid_is_the_packed_pattern() {
    let mut a: Connect4 = Game::new();
    let mut b: Connect4 = Game::new();
    a.play_action(1);
    b.play_action(1);
    assert_eq!(a.uid(), b.uid());
    b.reverse_last_action(1);
    assert_eq!(b.uid(), 0u128);
    assert_ne!(a.uid(), 0u128);
}

#[test]
fn connect4_vectorize_length_and_values() {
    let mut b: Connect4 = Game::new();
    b.play_action(0);
    b.play_action(1);
    let v = b.vectorize(Player::Yellow);
    assert_eq!(v.len(), 42);
    assert_eq!(v[0], -1);
    assert_eq!(v[1], 1);
    assert_eq!(v[7], 0);
}

use gamesolver::agents::MinimaxAgent;
use gamesolver::connect4::Connect4;
use gamesolver::evaluators::{Evaluator, SimpleEval, WIN_VALUE};
use gamesolver::games::{Game, GameState, Player};
use gamesolver::search::{
    abnegamax, abnegamax_best_action, batch_abnegamax_best_action, batch_negamax,
    batch_negamax_best_action, leafs, negamax,
};
use gamesolver::stack4::{Cell, Stack4};

fn red_about_to_win() -> Connect4 {
    // red holds three in column zero, yellow three in column one, red to move
    let mut b: Connect4 = Game::new();
    for m in [0, 1, 0, 1, 0, 1] {
        b.play_action(m);
    }
    b
}

#[test]
fn simple_eval_scores_terminal_states() {
    let mut b: Connect4 = Game::new();
    for m in [3, 2, 3, 2, 3, 2, 3] {
        b.play_action(m);
    }
    assert_eq!(b.game_state(), GameState::Won(Player::Red));
    let e = SimpleEval::new(Player::Red);
    assert_eq!(e.value(&b, Player::Red), WIN_VALUE);
    assert_eq!(e.value(&b, Player::Yellow), -WIN_VALUE);
    let fresh: Connect4 = Game::new();
    assert_eq!(e.value(&fresh, Player::Red), 0);
}

#[test]
fn simple_eval_bulk_values_match_scalar_values() {
    let e = SimpleEval::new(Player::Red);
    let mut won: Connect4 = Game::new();
    for m in [3, 2, 3, 2, 3, 2, 3] {
        won.play_action(m);
    }
    let fresh: Connect4 = Game::new();
    let boards = vec![won, fresh, won];
    let vals = e.values(&boards, Player::Red);
    assert_eq!(vals.len(), 3);
    for i in 0..3 {
        assert_eq!(vals[i], e.value(&boards[i], Player::Red));
    }
}

#[test]
fn negamax_finds_the_immediate_win() {
    let e = SimpleEval::new(Player::Red);
    let mut b = red_about_to_win();
    let v = negamax(&mut b, 1, &e, Player::Red);
    assert_eq!(v, WIN_VALUE);
    // the search leaves the board exactly as it found it
    assert_eq!(b, red_about_to_win());
}

#[test]
fn negamax_zero_sum_at_the_frontier() {
    let e = SimpleEval::new(Player::Red);
    let mut won: Connect4 = Game::new();
    for m in [3, 2, 3, 2, 3, 2, 3] {
        won.play_action(m);
    }
    // terminal board: antisymmetric at any depth
    let vr = negamax(&mut won, 3, &e, Player::Red);
    let vy = negamax(&mut won, 3, &e, Player::Yellow);
    assert_eq!(vr, -vy);
    assert_eq!(vr, WIN_VALUE);
    // depth zero: antisymmetric on any board
    let mut mid = red_about_to_win();
    assert_eq!(
        negamax(&mut mid, 0, &e, Player::Red),
        -negamax(&mut mid, 0, &e, Player::Yellow)
    );
}

#[test]
fn alpha_beta_matches_plain_negamax() {
    let e = SimpleEval::new(Player::Red);
    let mut b: Connect4 = Game::new();
    for m in [3, 2, 3, 4] {
        b.play_action(m);
    }
    for depth in 0..4 {
        for player in [Player::Red, Player::Yellow] {
            let plain = negamax(&mut b.clone(), depth, &e, player);
            let pruned = abnegamax(&b, depth, 0, &e, player);
            assert_eq!(pruned, plain);
        }
    }
    let mut s: Stack4 = Game::new();
    for a in [(2, 2), (3, 3), (2, 3), (4, 4), (2, 4)] {
        s.play_action(Cell { x: a.0, y: a.1 });
    }
    for depth in 0..3 {
        let plain = negamax(&mut s.clone(), depth, &e, Player::Yellow);
        let pruned = abnegamax(&s, depth, 0, &e, Player::Yellow);
        assert_eq!(pruned, plain);
    }
}

#[test]
fn batched_negamax_matches_plain_negamax() {
    let e = SimpleEval::new(Player::Red);
    let mut b: Connect4 = Game::new();
    for m in [3, 2, 3, 4, 0] {
        b.play_action(m);
    }
    for depth in 0..4 {
        for player in [Player::Red, Player::Yellow] {
            let plain = negamax(&mut b.clone(), depth, &e, player);
            let batched = batch_negamax(&b, depth, &e, player);
            assert_eq!(batched, plain);
        }
    }
    let near_win = red_about_to_win();
    assert_eq!(batch_negamax(&near_win, 1, &e, Player::Red), WIN_VALUE);
}

#[test]
fn leafs_collects_the_horizon_positions() {
    let mut b: Connect4 = Game::new();
    let l0 = leafs(&mut b, 0);
    assert_eq!(l0.len(), 1);
    assert_eq!(l0[0], b);
    let l1 = leafs(&mut b, 1);
    assert_eq!(l1.len(), 7);
    let l2 = leafs(&mut b, 2);
    assert_eq!(l2.len(), 49);
    assert_eq!(b, Game::new());
    // a board already decided contributes no leaves short of the horizon
    let mut won: Connect4 = Game::new();
    for m in [3, 2, 3, 2, 3, 2, 3] {
        won.play_action(m);
    }
    assert_eq!(leafs(&mut won, 2).len(), 0);
}

#[test]
fn best_action_takes_the_forced_win_every_time() {
    let e = SimpleEval::new(Player::Red);
    let b = red_about_to_win();
    for _ in 0..20 {
        assert_eq!(abnegamax_best_action(&b, 2, &e, Player::Red), 0);
        assert_eq!(batch_negamax_best_action(&b, 2, &e, Player::Red), 0);
        assert_eq!(batch_abnegamax_best_action(&b, 2, 1, &e, Player::Red), 0);
    }
}

#[test]
fn best_action_returns_the_single_legal_action() {
    // a position with exactly one empty cell left must yield that cell
    let mut reds: Vec<(usize, usize)> = Vec::new();
    let mut yellows: Vec<(usize, usize)> = Vec::new();
    for y in 0..8 {
        for x in 0..8 {
            if ((x + 2 * (y % 2)) / 2) % 2 == 0 {
                reds.push((x, y));
            } else {
                yellows.push((x, y));
            }
        }
    }
    let mut b: Stack4 = Game::new();
    for i in 0..32 {
        b.play_action(Cell { x: reds[i].0, y: reds[i].1 });
        if i < 31 {
            b.play_action(Cell { x: yellows[i].0, y: yellows[i].1 });
        }
    }
    let last = yellows[31];
    let acts = b.legal_actions();
    assert_eq!(acts.len(), 1);
    let e = SimpleEval::new(Player::Yellow);
    let chosen = abnegamax_best_action(&b, 1, &e, Player::Yellow);
    assert_eq!((chosen.x, chosen.y), last);
}

#[test]
fn minimax_agent_plays_the_winning_move() {
    let e = SimpleEval::new(Player::Red);
    let agent = MinimaxAgent::new(e, 2);
    assert_eq!(agent.depth, 2);
    let b = red_about_to_win();
    for _ in 0..5 {
        let a: usize = agent.get_action(&b, Player::Red);
        assert_eq!(a, 0);
    }
}

#[test]
fn search_value_is_bounded_by_the_win_score() {
    let e = SimpleEval::new(Player::Red);
    let mut b: Connect4 = Game::new();
    for depth in 0..4 {
        let v = negamax(&mut b, depth, &e, Player::Red);
        assert!(-WIN_VALUE <= v && v <= WIN_VALUE);
    }
}

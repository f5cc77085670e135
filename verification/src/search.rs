//! The search engine: negamax, alpha-beta negamax, batch-evaluated negamax,
//! and best-action selection with uniformly random tie-breaking. All variants
//! return the value `spec_negamax` defines: the game-theoretic value under
//! optimal alternating play to the depth limit, judged by the evaluator at
//! the frontier.

use vstd::prelude::*;
use std::collections::HashMap;
use crate::games::{Game, GameState, Player};
use crate::evaluators::{Evaluator, VAL_MAX};

verus! {

broadcast use vstd::std_specs::hash::group_hash_axioms;

/// Sentinel strictly below every achievable value; the negated value serves
/// as the sentinel above every achievable value.
pub const NEG_INF: i64 = -1_000_000_001;

pub const INF: i64 = 1_000_000_001;

pub open spec fn max_int(a: int, b: int) -> int {
    if a >= b {
        a
    } else {
        b
    }
}

/// The reference search value of a position: the evaluator's score at a
/// terminal position or at depth zero, and otherwise the maximum over all
/// legal actions of the negated value of the resulting position for the
/// opponent.
pub open spec fn spec_negamax<T: Game, E: Evaluator<T>>(
    e: E, b: T, depth: nat, player: Player,
) -> int
    decreases depth, 1nat, 0nat,
{
    if b.state_spec() != GameState::InProgress || depth == 0 {
        e.spec_value(b, player)
    } else {
        prefix_val(e, b, b.legal_spec(), b.legal_spec().len() as int, depth, player)
    }
}

/// Maximum of the negated child values over the first `i` legal actions.
pub open spec fn prefix_val<T: Game, E: Evaluator<T>>(
    e: E, b: T, acts: Seq<T::Action>, i: int, depth: nat, player: Player,
) -> int
    decreases depth, 0nat, i,
    when i <= acts.len()
{
    if i <= 0 || depth == 0 {
        NEG_INF as int
    } else {
        max_int(
            prefix_val(e, b, acts, i - 1, depth, player),
            -spec_negamax(e, b.play_spec(acts[i - 1]), (depth - 1) as nat, player.opponent_spec()),
        )
    }
}

/// The value that playing `a` achieves for `player`: the value of the
/// resulting position for the opponent, negated.
pub open spec fn action_value<T: Game, E: Evaluator<T>>(
    e: E, b: T, a: T::Action, depth: nat, player: Player,
) -> int
    recommends
        depth >= 1,
{
    -spec_negamax(e, b.play_spec(a), (depth - 1) as nat, player.opponent_spec())
}

/// Search values of well-formed positions stay within the evaluator's bound.
pub proof fn lemma_negamax_bounds<T: Game, E: Evaluator<T>>(e: E, b: T, depth: nat, player: Player)
    requires
        b.wf(),
    ensures
        -VAL_MAX <= spec_negamax(e, b, depth, player) <= VAL_MAX,
    decreases depth, 1nat, 0nat,
{
    if b.state_spec() != GameState::InProgress || depth == 0 {
        e.lemma_value_bounds(b, player);
    } else {
        b.lemma_inprogress_has_actions();
        lemma_prefix_bounds(e, b, b.legal_spec(), b.legal_spec().len() as int, depth, player);
    }
}

proof fn lemma_prefix_bounds<T: Game, E: Evaluator<T>>(
    e: E, b: T, acts: Seq<T::Action>, i: int, depth: nat, player: Player,
)
    requires
        b.wf(),
        b.state_spec() == GameState::InProgress,
        depth >= 1,
        acts == b.legal_spec(),
        0 <= i <= acts.len(),
    ensures
        prefix_val(e, b, acts, i, depth, player) <= VAL_MAX,
        NEG_INF <= prefix_val(e, b, acts, i, depth, player),
        i >= 1 ==> prefix_val(e, b, acts, i, depth, player) >= -VAL_MAX,
    decreases depth, 0nat, i,
{
    if i > 0 {
        lemma_prefix_bounds(e, b, acts, i - 1, depth, player);
        assert(acts[i - 1] == b.legal_spec()[i - 1]);
        assert(b.legal_spec().contains(acts[i - 1]));
        b.lemma_play_wf(acts[i - 1]);
        lemma_negamax_bounds(
            e, b.play_spec(acts[i - 1]), (depth - 1) as nat, player.opponent_spec(),
        );
    }
}

/// The child maximum only grows as more actions are taken into account.
proof fn lemma_prefix_mono<T: Game, E: Evaluator<T>>(
    e: E, b: T, acts: Seq<T::Action>, i: int, j: int, depth: nat, player: Player,
)
    requires
        0 <= i <= j <= acts.len(),
    ensures
        prefix_val(e, b, acts, i, depth, player) <= prefix_val(e, b, acts, j, depth, player),
    decreases j - i,
{
    if j > i {
        lemma_prefix_mono(e, b, acts, i, j - 1, depth, player);
    }
}

/// Zero-sum recursion: the value of an undecided position is the maximum,
/// over its legal actions, of the negated value that the resulting position
/// has for the opponent. This is the symmetry the negamax formulation
/// exploits in place of separate maximizing and minimizing passes.
pub proof fn lemma_negamax_zero_sum_step<T: Game, E: Evaluator<T>>(
    e: E, b: T, depth: nat, player: Player,
)
    requires
        b.wf(),
        b.state_spec() == GameState::InProgress,
        depth >= 1,
    ensures
        forall|j: int|
            0 <= j < b.legal_spec().len() ==> spec_negamax(e, b, depth, player) >= -spec_negamax(
                e, b.play_spec(#[trigger] b.legal_spec()[j]), (depth - 1) as nat,
                player.opponent_spec(),
            ),
        exists|j: int|
            0 <= j < b.legal_spec().len() && spec_negamax(e, b, depth, player) == -spec_negamax(
                e, b.play_spec(#[trigger] b.legal_spec()[j]), (depth - 1) as nat,
                player.opponent_spec(),
            ),
{
    b.lemma_inprogress_has_actions();
    let acts = b.legal_spec();
    lemma_prefix_achieved(e, b, acts, acts.len() as int, depth, player);
}

proof fn lemma_prefix_achieved<T: Game, E: Evaluator<T>>(
    e: E, b: T, acts: Seq<T::Action>, i: int, depth: nat, player: Player,
)
    requires
        b.wf(),
        b.state_spec() == GameState::InProgress,
        depth >= 1,
        acts == b.legal_spec(),
        0 <= i <= acts.len(),
    ensures
        forall|j: int|
            0 <= j < i ==> prefix_val(e, b, acts, i, depth, player) >= -spec_negamax(
                e, b.play_spec(#[trigger] acts[j]), (depth - 1) as nat, player.opponent_spec(),
            ),
        i >= 1 ==> exists|j: int|
            0 <= j < i && prefix_val(e, b, acts, i, depth, player) == -spec_negamax(
                e, b.play_spec(#[trigger] acts[j]), (depth - 1) as nat, player.opponent_spec(),
            ),
    decreases i,
{
    if i >= 1 {
        lemma_prefix_achieved(e, b, acts, i - 1, depth, player);
        assert(acts[i - 1] == b.legal_spec()[i - 1]);
        assert(b.legal_spec().contains(acts[i - 1]));
        b.lemma_play_wf(acts[i - 1]);
        lemma_negamax_bounds(
            e, b.play_spec(acts[i - 1]), (depth - 1) as nat, player.opponent_spec(),
        );
        let m0 = prefix_val(e, b, acts, i - 1, depth, player);
        let c = -spec_negamax(
            e, b.play_spec(acts[i - 1]), (depth - 1) as nat, player.opponent_spec(),
        );
        if c >= m0 {
            assert(prefix_val(e, b, acts, i, depth, player) == -spec_negamax(
                e, b.play_spec(acts[i - 1]), (depth - 1) as nat, player.opponent_spec(),
            ));
        } else {
            assert(m0 > NEG_INF);
            assert(i - 1 >= 1);
            assert(prefix_val(e, b, acts, i, depth, player) == m0);
        }
    }
}

/// Zero-sum symmetry at the evaluation frontier: on a terminal position or
/// at depth zero the search returns the evaluator's score, so an evaluator
/// antisymmetric in the player makes the search value antisymmetric too.
/// Past the frontier the identity does not hold of undecided positions: the
/// same side chooses the moves whichever player the value is asked for.
pub proof fn lemma_negamax_zero_sum_frontier<T: Game, E: Evaluator<T>>(
    e: E, b: T, depth: nat, player: Player,
)
    requires
        b.state_spec() != GameState::InProgress || depth == 0,
        e.spec_value(b, player) == -e.spec_value(b, player.opponent_spec()),
    ensures
        spec_negamax(e, b, depth, player) == -spec_negamax(e, b, depth, player.opponent_spec()),
{
}

/// Plain negamax: depth-first, mutating the board in place through strict
/// play/reverse pairs, maximizing the negated value of each reply.
pub fn negamax<T: Game, E: Evaluator<T>>(
    board: &mut T, depth: u32, evaluator: &E, player: Player,
) -> (r: i64)
    requires
        old(board).wf(),
    ensures
        *final(board) == *old(board),
        r as int == spec_negamax(*evaluator, *old(board), depth as nat, player),
        -VAL_MAX <= r <= VAL_MAX,
    decreases depth,
{
    if board.game_state() != GameState::InProgress || depth == 0 {
        return evaluator.value(board, player);
    }
    let ghost b0 = *board;
    let actions = board.legal_actions();
    proof {
        b0.lemma_inprogress_has_actions();
    }
    let mut val: i64 = NEG_INF;
    let mut i: usize = 0;
    while i < actions.len()
        invariant
            *board == b0,
            b0.wf(),
            b0.state_spec() == GameState::InProgress,
            depth >= 1,
            actions@ == b0.legal_spec(),
            i <= actions@.len(),
            actions@.len() >= 1,
            val as int == prefix_val(*evaluator, b0, actions@, i as int, depth as nat, player),
            val <= VAL_MAX,
            NEG_INF <= val,
            i >= 1 ==> val >= -VAL_MAX,
        decreases actions@.len() - i,
    {
        let a = actions[i];
        proof {
            assert(actions@[i as int] == a);
            assert(b0.legal_spec().contains(a));
            b0.lemma_play_wf(a);
        }
        board.play_action(a);
        let v = negamax(board, depth - 1, evaluator, player.opponent());
        let nv = -v;
        proof {
            assert(b0.play_spec(a) == *board);
        }
        board.reverse_last_action(a);
        proof {
            b0.lemma_unplay_play(a);
        }
        if nv > val {
            val = nv;
        }
        i = i + 1;
    }
    val
}

/// Which player's perspective the evaluator is asked for at the horizon:
/// the batch root's player at even depth, the opponent at odd depth.
pub open spec fn horizon_player(player: Player, depth: nat) -> Player {
    if depth % 2 == 0 {
        player
    } else {
        player.opponent_spec()
    }
}

/// The positions exactly `depth` plies below `b`, in depth-first order;
/// positions decided earlier than the horizon are dropped.
pub open spec fn spec_leafs<T: Game>(b: T, depth: nat) -> Seq<T>
    decreases depth, 1nat, 0nat,
{
    if depth == 0 {
        seq![b]
    } else if b.state_spec() != GameState::InProgress {
        Seq::empty()
    } else {
        leafs_prefix(b, b.legal_spec(), b.legal_spec().len() as int, depth)
    }
}

pub open spec fn leafs_prefix<T: Game>(b: T, acts: Seq<T::Action>, i: int, depth: nat) -> Seq<T>
    decreases depth, 0nat, i,
    when i <= acts.len()
{
    if i <= 0 || depth == 0 {
        Seq::empty()
    } else {
        leafs_prefix(b, acts, i - 1, depth) + spec_leafs(
            b.play_spec(acts[i - 1]), (depth - 1) as nat,
        )
    }
}

/// Horizon positions of a well-formed position are well formed and share the
/// player that the horizon parity dictates.
pub proof fn lemma_leafs_wf<T: Game>(b: T, depth: nat)
    requires
        b.wf(),
    ensures
        forall|j: int|
            0 <= j < spec_leafs(b, depth).len() ==> (#[trigger] spec_leafs(b, depth)[j]).wf()
                && spec_leafs(b, depth)[j].player_spec() == horizon_player(
                b.player_spec(), depth,
            ),
    decreases depth, 1nat, 0nat,
{
    if depth == 0 {
    } else if b.state_spec() != GameState::InProgress {
    } else {
        lemma_leafs_prefix_wf(b, b.legal_spec(), b.legal_spec().len() as int, depth);
    }
}

proof fn lemma_leafs_prefix_wf<T: Game>(b: T, acts: Seq<T::Action>, i: int, depth: nat)
    requires
        b.wf(),
        b.state_spec() == GameState::InProgress,
        depth >= 1,
        acts == b.legal_spec(),
        0 <= i <= acts.len(),
    ensures
        forall|j: int|
            0 <= j < leafs_prefix(b, acts, i, depth).len() ==> (#[trigger] leafs_prefix(
                b, acts, i, depth,
            )[j]).wf() && leafs_prefix(b, acts, i, depth)[j].player_spec() == horizon_player(
                b.player_spec(), depth,
            ),
    decreases depth, 0nat, i,
{
    if i > 0 {
        lemma_leafs_prefix_wf(b, acts, i - 1, depth);
        assert(acts[i - 1] == b.legal_spec()[i - 1]);
        assert(b.legal_spec().contains(acts[i - 1]));
        b.lemma_play_wf(acts[i - 1]);
        let child = b.play_spec(acts[i - 1]);
        lemma_leafs_wf(child, (depth - 1) as nat);
        assert(horizon_player(child.player_spec(), (depth - 1) as nat) == horizon_player(
            b.player_spec(), depth,
        ));
        let s0 = leafs_prefix(b, acts, i - 1, depth);
        let s1 = spec_leafs(child, (depth - 1) as nat);
        assert forall|j: int| 0 <= j < leafs_prefix(b, acts, i, depth).len() implies (
        #[trigger] leafs_prefix(b, acts, i, depth)[j]).wf() && leafs_prefix(
            b, acts, i, depth,
        )[j].player_spec() == horizon_player(b.player_spec(), depth) by {
            if j < s0.len() {
                assert(leafs_prefix(b, acts, i, depth)[j] == s0[j]);
            } else {
                assert(leafs_prefix(b, acts, i, depth)[j] == s1[j - s0.len()]);
            }
        }
    }
}

/// Every horizon position of a reply position is a horizon position of the
/// original position.
proof fn lemma_leafs_sub<T: Game>(b: T, a: T::Action, depth: nat)
    requires
        b.state_spec() == GameState::InProgress,
        depth >= 1,
        b.legal_spec().contains(a),
    ensures
        forall|l: T|
            spec_leafs(b.play_spec(a), (depth - 1) as nat).contains(l) ==> #[trigger] spec_leafs(
                b, depth,
            ).contains(l),
{
    let acts = b.legal_spec();
    let j = choose|j: int| 0 <= j < acts.len() && acts[j] == a;
    assert forall|l: T|
        spec_leafs(b.play_spec(a), (depth - 1) as nat).contains(l) implies #[trigger] spec_leafs(
        b, depth,
    ).contains(l) by {
        lemma_leafs_prefix_sub(b, acts, acts.len() as int, j, depth, l);
    }
}

proof fn lemma_leafs_prefix_sub<T: Game>(
    b: T, acts: Seq<T::Action>, i: int, j: int, depth: nat, l: T,
)
    requires
        depth >= 1,
        0 <= j < i <= acts.len(),
        spec_leafs(b.play_spec(acts[j]), (depth - 1) as nat).contains(l),
    ensures
        leafs_prefix(b, acts, i, depth).contains(l),
    decreases i,
{
    let s0 = leafs_prefix(b, acts, i - 1, depth);
    let s1 = spec_leafs(b.play_spec(acts[i - 1]), (depth - 1) as nat);
    if j == i - 1 {
        let idx = choose|idx: int| 0 <= idx < s1.len() && s1[idx] == l;
        assert(leafs_prefix(b, acts, i, depth)[s0.len() + idx] == l);
    } else {
        lemma_leafs_prefix_sub(b, acts, i - 1, j, depth, l);
        let idx = choose|idx: int| 0 <= idx < s0.len() && s0[idx] == l;
        assert(leafs_prefix(b, acts, i, depth)[idx] == l);
    }
}

/// The boards reachable in exactly `depth` further plies, collected by
/// playing and reversing along every path and cloning at the horizon.
pub fn leafs<T: Game>(board: &mut T, depth: u32) -> (r: Vec<T>)
    requires
        old(board).wf(),
    ensures
        *final(board) == *old(board),
        r@ == spec_leafs(*old(board), depth as nat),
    decreases depth,
{
    if depth == 0 {
        let mut r: Vec<T> = Vec::new();
        r.push(*board);
        proof {
            assert(r@ =~= spec_leafs(*board, 0));
        }
        return r;
    }
    if board.game_state() != GameState::InProgress {
        return Vec::new();
    }
    let ghost b0 = *board;
    let actions = board.legal_actions();
    let mut ret: Vec<T> = Vec::new();
    let mut i: usize = 0;
    while i < actions.len()
        invariant
            *board == b0,
            b0.wf(),
            b0.state_spec() == GameState::InProgress,
            depth >= 1,
            actions@ == b0.legal_spec(),
            i <= actions@.len(),
            ret@ == leafs_prefix(b0, actions@, i as int, depth as nat),
        decreases actions@.len() - i,
    {
        let a = actions[i];
        proof {
            assert(actions@[i as int] == a);
            assert(b0.legal_spec().contains(a));
            b0.lemma_play_wf(a);
        }
        board.play_action(a);
        let mut sub = leafs(board, depth - 1);
        proof {
            assert(b0.play_spec(a) == *board);
        }
        board.reverse_last_action(a);
        proof {
            b0.lemma_unplay_play(a);
        }
        ret.append(&mut sub);
        i = i + 1;
    }
    ret
}

/// The lookup table covers every horizon position of `b` with the
/// evaluator's score for the horizon player.
pub open spec fn map_covers<T: Game, E: Evaluator<T>>(
    e: E, m: Map<u128, i64>, b: T, depth: nat, player: Player,
) -> bool {
    forall|j: int|
        0 <= j < spec_leafs(b, depth).len() ==> {
            let l = #[trigger] spec_leafs(b, depth)[j];
            m.contains_key(l.uid_spec()) && m[l.uid_spec()] as int == e.spec_value(
                l, horizon_player(player, depth),
            )
        }
}

proof fn lemma_covers_child<T: Game, E: Evaluator<T>>(
    e: E, m: Map<u128, i64>, b: T, a: T::Action, depth: nat, player: Player,
)
    requires
        map_covers(e, m, b, depth, player),
        b.state_spec() == GameState::InProgress,
        depth >= 1,
        b.legal_spec().contains(a),
    ensures
        map_covers(e, m, b.play_spec(a), (depth - 1) as nat, player.opponent_spec()),
{
    lemma_leafs_sub(b, a, depth);
    let child = b.play_spec(a);
    let cd = (depth - 1) as nat;
    assert(horizon_player(player.opponent_spec(), cd) == horizon_player(player, depth));
    assert forall|j: int| 0 <= j < spec_leafs(child, cd).len() implies {
        let l = #[trigger] spec_leafs(child, cd)[j];
        m.contains_key(l.uid_spec()) && m[l.uid_spec()] as int == e.spec_value(
            l, horizon_player(player.opponent_spec(), cd),
        )
    } by {
        let l = spec_leafs(child, cd)[j];
        assert(spec_leafs(child, cd).contains(l));
        assert(spec_leafs(b, depth).contains(l));
        let j2 = choose|j2: int| 0 <= j2 < spec_leafs(b, depth).len() && spec_leafs(b, depth)[j2] == l;
        assert(spec_leafs(b, depth)[j2] == l);
    }
}

/// Re-walk the subtree combinatorially, reading horizon values out of the
/// uid-keyed table instead of calling the evaluator.
fn negamax_from_hashmap<T: Game, E: Evaluator<T>>(
    board: &mut T, depth: u32, evaluator: &E, player: Player, hmap: &HashMap<u128, i64>,
) -> (r: i64)
    requires
        old(board).wf(),
        map_covers(*evaluator, hmap@, *old(board), depth as nat, player),
    ensures
        *final(board) == *old(board),
        r as int == spec_negamax(*evaluator, *old(board), depth as nat, player),
        -VAL_MAX <= r <= VAL_MAX,
    decreases depth,
{
    if board.game_state() != GameState::InProgress {
        return evaluator.value(board, player);
    }
    if depth == 0 {
        proof {
            assert(spec_leafs(*board, 0)[0] == *board);
        }
        let uid = board.uid();
        let got = hmap.get(&uid);
        match got {
            Some(v) => {
                proof {
                    evaluator.lemma_value_bounds(*board, player);
                }
                return *v;
            },
            None => {
                proof {
                    assert(false);
                }
                return 0;
            },
        }
    }
    let ghost b0 = *board;
    let actions = board.legal_actions();
    proof {
        b0.lemma_inprogress_has_actions();
    }
    let mut val: i64 = NEG_INF;
    let mut i: usize = 0;
    while i < actions.len()
        invariant
            *board == b0,
            b0.wf(),
            b0.state_spec() == GameState::InProgress,
            depth >= 1,
            map_covers(*evaluator, hmap@, b0, depth as nat, player),
            actions@ == b0.legal_spec(),
            i <= actions@.len(),
            actions@.len() >= 1,
            val as int == prefix_val(*evaluator, b0, actions@, i as int, depth as nat, player),
            val <= VAL_MAX,
            NEG_INF <= val,
            i >= 1 ==> val >= -VAL_MAX,
        decreases actions@.len() - i,
    {
        let a = actions[i];
        proof {
            assert(actions@[i as int] == a);
            assert(b0.legal_spec().contains(a));
            b0.lemma_play_wf(a);
            lemma_covers_child(*evaluator, hmap@, b0, a, depth as nat, player);
        }
        board.play_action(a);
        let v = negamax_from_hashmap(board, depth - 1, evaluator, player.opponent(), hmap);
        let nv = -v;
        proof {
            assert(b0.play_spec(a) == *board);
        }
        board.reverse_last_action(a);
        proof {
            b0.lemma_unplay_play(a);
        }
        if nv > val {
            val = nv;
        }
        i = i + 1;
    }
    val
}

/// Batched negamax: materialize the horizon positions, value the whole batch
/// in one bulk evaluator call, index the values by uid, then re-walk the
/// subtree reading values from the table. Returns exactly the plain negamax
/// value.
pub fn batch_negamax<T: Game, E: Evaluator<T>>(
    board: &T, depth: u32, evaluator: &E, player: Player,
) -> (r: i64)
    requires
        board.wf(),
    ensures
        r as int == spec_negamax(*evaluator, *board, depth as nat, player),
        -VAL_MAX <= r <= VAL_MAX,
{
    let mut b2 = *board;
    let lfs = leafs(&mut b2, depth);
    proof {
        lemma_leafs_wf(*board, depth as nat);
    }
    let hp = if depth % 2 == 0 {
        player
    } else {
        player.opponent()
    };
    proof {
        assert(hp == horizon_player(player, depth as nat));
    }
    let leaf_vals = evaluator.values(&lfs, hp);
    let mut vals: HashMap<u128, i64> = HashMap::new();
    let mut i: usize = 0;
    while i < lfs.len()
        invariant
            i <= lfs@.len(),
            lfs@ == spec_leafs(*board, depth as nat),
            board.wf(),
            hp == horizon_player(player, depth as nat),
            leaf_vals@.len() == lfs@.len(),
            forall|j: int|
                0 <= j < lfs@.len() ==> (#[trigger] leaf_vals@[j]) as int
                    == evaluator.spec_value(lfs@[j], hp),
            forall|j: int|
                0 <= j < lfs@.len() ==> (#[trigger] lfs@[j]).wf() && lfs@[j].player_spec()
                    == horizon_player(board.player_spec(), depth as nat),
            forall|j: int|
                0 <= j < i ==> vals@.contains_key((#[trigger] lfs@[j]).uid_spec())
                    && vals@[lfs@[j].uid_spec()] as int == evaluator.spec_value(lfs@[j], hp),
        decreases lfs@.len() - i,
    {
        let u = lfs[i].uid();
        vals.insert(u, leaf_vals[i]);
        proof {
            assert forall|j: int|
                0 <= j < i + 1 implies vals@.contains_key((#[trigger] lfs@[j]).uid_spec())
                && vals@[lfs@[j].uid_spec()] as int == evaluator.spec_value(lfs@[j], hp) by {
                if j < i && lfs@[j].uid_spec() == lfs@[i as int].uid_spec() {
                    evaluator.lemma_value_uid(lfs@[j], lfs@[i as int], hp);
                }
            }
        }
        i = i + 1;
    }
    proof {
        assert(map_covers(*evaluator, vals@, b2, depth as nat, player));
    }
    negamax_from_hashmap(&mut b2, depth, evaluator, player, &vals)
}

/// Fail-soft alpha-beta negamax with a switch to batched evaluation within
/// `batch_depth` plies of the horizon. With the window open the result is
/// exactly the plain negamax value; a result at or outside a bound is a
/// sound bound on it.
fn abnegamax_rec<T: Game, E: Evaluator<T>>(
    board: &mut T, alpha: i64, beta: i64, depth: u32, batch_depth: u32, evaluator: &E,
    player: Player,
) -> (r: i64)
    requires
        old(board).wf(),
        NEG_INF <= alpha,
        alpha < beta,
        beta <= INF,
    ensures
        *final(board) == *old(board),
        -VAL_MAX <= r <= VAL_MAX,
        ({
            let g = spec_negamax(*evaluator, *old(board), depth as nat, player);
            &&& (g <= alpha ==> g <= r <= alpha)
            &&& (alpha < g < beta ==> r == g)
            &&& (g >= beta ==> beta <= r <= g)
        }),
    decreases depth,
{
    if board.game_state() != GameState::InProgress || depth == 0 {
        return evaluator.value(board, player);
    }
    let ghost b0 = *board;
    let ghost g_all = spec_negamax(*evaluator, b0, depth as nat, player);
    let actions = board.legal_actions();
    proof {
        b0.lemma_inprogress_has_actions();
    }
    let mut val: i64 = NEG_INF;
    let mut a_cur: i64 = alpha;
    let mut i: usize = 0;
    while i < actions.len() && a_cur < beta
        invariant
            *board == b0,
            b0.wf(),
            b0.state_spec() == GameState::InProgress,
            depth >= 1,
            NEG_INF <= alpha,
            alpha < beta,
            beta <= INF,
            actions@ == b0.legal_spec(),
            i <= actions@.len(),
            actions@.len() >= 1,
            a_cur as int == max_int(alpha as int, val as int),
            val <= VAL_MAX,
            NEG_INF <= val,
            i >= 1 ==> val >= -VAL_MAX,
            ({
                let m = prefix_val(*evaluator, b0, actions@, i as int, depth as nat, player);
                &&& (m <= alpha ==> m <= val <= alpha)
                &&& (alpha < m < beta ==> val == m)
                &&& (m >= beta ==> beta <= val <= m)
            }),
        decreases actions@.len() - i,
    {
        let a = actions[i];
        proof {
            assert(actions@[i as int] == a);
            assert(b0.legal_spec().contains(a));
            b0.lemma_play_wf(a);
        }
        board.play_action(a);
        let ghost child = b0.play_spec(a);
        let ghost gj = spec_negamax(
            *evaluator, child, (depth - 1) as nat, player.opponent_spec(),
        );
        let v_raw = if depth - 1 <= batch_depth {
            batch_negamax(board, depth - 1, evaluator, player.opponent())
        } else {
            abnegamax_rec(board, -beta, -a_cur, depth - 1, batch_depth, evaluator,
                player.opponent())
        };
        let v = -v_raw;
        proof {
            assert(b0.play_spec(a) == *board);
        }
        board.reverse_last_action(a);
        proof {
            b0.lemma_unplay_play(a);
            lemma_negamax_bounds(*evaluator, child, (depth - 1) as nat, player.opponent_spec());
            // the negated child relations, from the callee's contract
            let cj = -gj;
            assert(cj <= a_cur ==> cj <= v <= a_cur);
            assert(a_cur < cj < beta ==> v == cj);
            assert(cj >= beta ==> beta <= v <= cj);
        }
        if v > val {
            val = v;
        }
        if val > a_cur {
            a_cur = val;
        }
        i = i + 1;
        proof {
            let m0 = prefix_val(*evaluator, b0, actions@, i - 1, depth as nat, player);
            let m = prefix_val(*evaluator, b0, actions@, i as int, depth as nat, player);
            assert(m == max_int(m0, -gj));
        }
    }
    proof {
        let m = prefix_val(*evaluator, b0, actions@, i as int, depth as nat, player);
        if i == actions@.len() {
            assert(m == g_all);
        } else {
            assert(a_cur >= beta);
            assert(val >= beta);
            assert(m >= beta);
            lemma_prefix_mono(
                *evaluator, b0, actions@, i as int, actions@.len() as int, depth as nat, player,
            );
            assert(g_all >= m);
        }
    }
    val
}

/// Alpha-beta negamax over a clone of the board, with batched evaluation for
/// the lowest `batch_depth` plies. Pruning never changes the result: this
/// returns exactly the plain negamax value.
pub fn abnegamax<T: Game, E: Evaluator<T>>(
    board: &T, depth: u32, batch_depth: u32, evaluator: &E, player: Player,
) -> (r: i64)
    requires
        board.wf(),
    ensures
        r as int == spec_negamax(*evaluator, *board, depth as nat, player),
        -VAL_MAX <= r <= VAL_MAX,
{
    let mut b2 = *board;
    proof {
        lemma_negamax_bounds(*evaluator, *board, depth as nat, player);
    }
    abnegamax_rec(&mut b2, NEG_INF, INF, depth, batch_depth, evaluator, player)
}

/// Relies on fastrand::usize: a uniformly random index drawn from `0..n`;
/// it panics only on an empty range, which the precondition rules out.
#[verifier::external_body]
fn random_index(n: usize) -> (r: usize)
    requires
        1 <= n,
    ensures
        r < n,
{
    fastrand::usize(0..n)
}

/// Running maximum of the values in an action-value list.
pub open spec fn avs_max<A>(s: Seq<(A, i64)>, i: int) -> int
    decreases i,
{
    if i <= 0 {
        NEG_INF as int
    } else {
        max_int(avs_max(s, i - 1), s[i - 1].1 as int)
    }
}

/// Pick one entry whose value is the maximum, uniformly at random among the
/// entries achieving it.
fn pick_max_action<A: Copy>(avs: &Vec<(A, i64)>) -> (r: A)
    requires
        avs@.len() >= 1,
        forall|j: int| 0 <= j < avs@.len() ==> (#[trigger] avs@[j]).1 > NEG_INF,
    ensures
        exists|j: int|
            0 <= j < avs@.len() && r == (#[trigger] avs@[j]).0 && avs@[j].1 as int == avs_max(
                avs@, avs@.len() as int,
            ),
{
    let ghost n = avs@.len() as int;
    let mut mx: i64 = NEG_INF;
    let mut i: usize = 0;
    while i < avs.len()
        invariant
            i <= avs@.len(),
            avs@.len() >= 1,
            forall|j: int| 0 <= j < avs@.len() ==> (#[trigger] avs@[j]).1 > NEG_INF,
            mx as int == avs_max(avs@, i as int),
            i >= 1 ==> exists|j: int| 0 <= j < i && (#[trigger] avs@[j]).1 == mx,
        decreases avs@.len() - i,
    {
        let ghost mx0 = mx;
        let v = avs[i].1;
        if v > mx {
            mx = v;
        }
        proof {
            assert(avs_max(avs@, i + 1) == max_int(avs_max(avs@, i as int), avs@[i as int].1 as int));
            if v > mx0 {
                assert(avs@[i as int].1 == mx);
            } else {
                assert(i >= 1);
            }
        }
        i = i + 1;
    }
    let mut ties: Vec<A> = Vec::new();
    let mut k: usize = 0;
    while k < avs.len()
        invariant
            k <= avs@.len(),
            mx as int == avs_max(avs@, avs@.len() as int),
            forall|t: int|
                0 <= t < ties@.len() ==> exists|j: int|
                    0 <= j < avs@.len() && #[trigger] ties@[t] == avs@[j].0 && avs@[j].1 == mx,
            (exists|j: int| 0 <= j < k && (#[trigger] avs@[j]).1 == mx) ==> ties@.len() >= 1,
        decreases avs@.len() - k,
    {
        if avs[k].1 == mx {
            ties.push(avs[k].0);
            proof {
                let t = ties@.len() - 1;
                assert(ties@[t] == avs@[k as int].0 && avs@[k as int].1 == mx);
            }
        }
        k = k + 1;
    }
    proof {
        assert(exists|j: int| 0 <= j < avs@.len() && (#[trigger] avs@[j]).1 == mx);
    }
    let idx = random_index(ties.len());
    ties[idx]
}

proof fn lemma_avs_prefix<T: Game, E: Evaluator<T>>(
    e: E, b: T, acts: Seq<T::Action>, avs: Seq<(T::Action, i64)>, i: int, depth: nat,
    player: Player,
)
    requires
        depth >= 1,
        0 <= i <= acts.len(),
        avs.len() >= i,
        forall|j: int|
            0 <= j < i ==> (#[trigger] avs[j]).1 as int == action_value(
                e, b, acts[j], depth, player,
            ),
    ensures
        avs_max(avs, i) == prefix_val(e, b, acts, i, depth, player),
    decreases i,
{
    if i > 0 {
        lemma_avs_prefix(e, b, acts, avs, i - 1, depth, player);
    }
}

/// Best action by alpha-beta negamax: evaluate every legal action one ply
/// down, take the maximum, and break ties uniformly at random. The returned
/// action is legal and achieves exactly the search value of the position.
pub fn abnegamax_best_action<T: Game, E: Evaluator<T>>(
    board: &T, depth: u32, evaluator: &E, player: Player,
) -> (r: T::Action)
    requires
        board.wf(),
        board.state_spec() == GameState::InProgress,
        depth >= 1,
    ensures
        board.legal_spec().contains(r),
        action_value(*evaluator, *board, r, depth as nat, player) == spec_negamax(
            *evaluator, *board, depth as nat, player,
        ),
{
    let mut b2 = *board;
    let ghost b0 = *board;
    let actions = b2.legal_actions();
    proof {
        b0.lemma_inprogress_has_actions();
    }
    let mut avs: Vec<(T::Action, i64)> = Vec::new();
    let mut i: usize = 0;
    while i < actions.len()
        invariant
            b2 == b0,
            b0.wf(),
            b0.state_spec() == GameState::InProgress,
            depth >= 1,
            actions@ == b0.legal_spec(),
            i <= actions@.len(),
            actions@.len() >= 1,
            avs@.len() == i,
            forall|j: int|
                0 <= j < i ==> (#[trigger] avs@[j]).0 == actions@[j] && avs@[j].1 as int
                    == action_value(*evaluator, b0, actions@[j], depth as nat, player),
            forall|j: int| 0 <= j < i ==> -VAL_MAX <= (#[trigger] avs@[j]).1 <= VAL_MAX,
        decreases actions@.len() - i,
    {
        let a = actions[i];
        proof {
            assert(actions@[i as int] == a);
            assert(b0.legal_spec().contains(a));
            b0.lemma_play_wf(a);
        }
        b2.play_action(a);
        let v = abnegamax(&b2, depth - 1, depth, evaluator, player.opponent());
        proof {
            assert(b0.play_spec(a) == b2);
        }
        b2.reverse_last_action(a);
        proof {
            b0.lemma_unplay_play(a);
        }
        avs.push((a, -v));
        i = i + 1;
    }
    let r = pick_max_action(&avs);
    proof {
        lemma_avs_prefix(
            *evaluator, b0, actions@, avs@, actions@.len() as int, depth as nat, player,
        );
        let j = choose|j: int|
            0 <= j < avs@.len() && r == (#[trigger] avs@[j]).0 && avs@[j].1 as int == avs_max(
                avs@, avs@.len() as int,
            );
        assert(actions@[j] == r);
        assert(b0.legal_spec().contains(r));
    }
    r
}

/// Best action by batched negamax, with the same contract as
/// `abnegamax_best_action`.
pub fn batch_negamax_best_action<T: Game, E: Evaluator<T>>(
    board: &T, depth: u32, evaluator: &E, player: Player,
) -> (r: T::Action)
    requires
        board.wf(),
        board.state_spec() == GameState::InProgress,
        depth >= 1,
    ensures
        board.legal_spec().contains(r),
        action_value(*evaluator, *board, r, depth as nat, player) == spec_negamax(
            *evaluator, *board, depth as nat, player,
        ),
{
    let mut b2 = *board;
    let ghost b0 = *board;
    let actions = b2.legal_actions();
    proof {
        b0.lemma_inprogress_has_actions();
    }
    let mut avs: Vec<(T::Action, i64)> = Vec::new();
    let mut i: usize = 0;
    while i < actions.len()
        invariant
            b2 == b0,
            b0.wf(),
            b0.state_spec() == GameState::InProgress,
            depth >= 1,
            actions@ == b0.legal_spec(),
            i <= actions@.len(),
            actions@.len() >= 1,
            avs@.len() == i,
            forall|j: int|
                0 <= j < i ==> (#[trigger] avs@[j]).0 == actions@[j] && avs@[j].1 as int
                    == action_value(*evaluator, b0, actions@[j], depth as nat, player),
            forall|j: int| 0 <= j < i ==> -VAL_MAX <= (#[trigger] avs@[j]).1 <= VAL_MAX,
        decreases actions@.len() - i,
    {
        let a = actions[i];
        proof {
            assert(actions@[i as int] == a);
            assert(b0.legal_spec().contains(a));
            b0.lemma_play_wf(a);
        }
        b2.play_action(a);
        let v = batch_negamax(&b2, depth - 1, evaluator, player.opponent());
        proof {
            assert(b0.play_spec(a) == b2);
        }
        b2.reverse_last_action(a);
        proof {
            b0.lemma_unplay_play(a);
        }
        avs.push((a, -v));
        i = i + 1;
    }
    let r = pick_max_action(&avs);
    proof {
        lemma_avs_prefix(
            *evaluator, b0, actions@, avs@, actions@.len() as int, depth as nat, player,
        );
        let j = choose|j: int|
            0 <= j < avs@.len() && r == (#[trigger] avs@[j]).0 && avs@[j].1 as int == avs_max(
                avs@, avs@.len() as int,
            );
        assert(actions@[j] == r);
        assert(b0.legal_spec().contains(r));
    }
    r
}

/// Best action by the alpha-beta and batching hybrid, with the same contract
/// as `abnegamax_best_action`.
pub fn batch_abnegamax_best_action<T: Game, E: Evaluator<T>>(
    board: &T, depth: u32, batch_depth: u32, evaluator: &E, player: Player,
) -> (r: T::Action)
    requires
        board.wf(),
        board.state_spec() == GameState::InProgress,
        depth >= 1,
    ensures
        board.legal_spec().contains(r),
        action_value(*evaluator, *board, r, depth as nat, player) == spec_negamax(
            *evaluator, *board, depth as nat, player,
        ),
{
    let mut b2 = *board;
    let ghost b0 = *board;
    let actions = b2.legal_actions();
    proof {
        b0.lemma_inprogress_has_actions();
    }
    let mut avs: Vec<(T::Action, i64)> = Vec::new();
    let mut i: usize = 0;
    while i < actions.len()
        invariant
            b2 == b0,
            b0.wf(),
            b0.state_spec() == GameState::InProgress,
            depth >= 1,
            actions@ == b0.legal_spec(),
            i <= actions@.len(),
            actions@.len() >= 1,
            avs@.len() == i,
            forall|j: int|
                0 <= j < i ==> (#[trigger] avs@[j]).0 == actions@[j] && avs@[j].1 as int
                    == action_value(*evaluator, b0, actions@[j], depth as nat, player),
            forall|j: int| 0 <= j < i ==> -VAL_MAX <= (#[trigger] avs@[j]).1 <= VAL_MAX,
        decreases actions@.len() - i,
    {
        let a = actions[i];
        proof {
            assert(actions@[i as int] == a);
            assert(b0.legal_spec().contains(a));
            b0.lemma_play_wf(a);
        }
        b2.play_action(a);
        let v = abnegamax(&b2, depth - 1, batch_depth, evaluator, player.opponent());
        proof {
            assert(b0.play_spec(a) == b2);
        }
        b2.reverse_last_action(a);
        proof {
            b0.lemma_unplay_play(a);
        }
        avs.push((a, -v));
        i = i + 1;
    }
    let r = pick_max_action(&avs);
    proof {
        lemma_avs_prefix(
            *evaluator, b0, actions@, avs@, actions@.len() as int, depth as nat, player,
        );
        let j = choose|j: int|
            0 <= j < avs@.len() && r == (#[trigger] avs@[j]).0 && avs@[j].1 as int == avs_max(
                avs@, avs@.len() as int,
            );
        assert(actions@[j] == r);
        assert(b0.legal_spec().contains(r));
    }
    r
}

} // verus!

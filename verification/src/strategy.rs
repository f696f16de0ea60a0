//! The players: a random one, one that averages random rollouts, and the
//! Monte-Carlo tree search.

use crate::game_logic::{lemma_game_over_is_stuck, lemma_wf_fits, Direction, GameState};
use crate::random::random_below;
use crate::tree::{
    actions, best_score, children_visited, expand, expanded, first_best_mean, fresh,
    lemma_on_path_root, lemma_path_to_same, listed, mean_lt, node_wf, observed, on_path, path_to,
    tree_wf, NodeStats, NodeView, SearchTree,
};
use vstd::prelude::*;

verus! {

/// A player: it is shown a game in progress and names its next move.
pub trait GameStrategy {
    fn next_move(&self, state: &GameState) -> Direction
        requires
            state.wf(),
    ;
}

/// Plays any of the four moves, each equally likely, whatever the board.
pub struct RandomStrategy;

impl GameStrategy for RandomStrategy {
    /// Draws a number below four and names the move that `direction_of` gives
    /// for it. Which number comes is left to chance, so no move is promised.
    fn next_move(&self, _state: &GameState) -> Direction {
        direction_of(random_below(4))
    }
}

/// The move that a draw stands for: 0 is up, 1 is down, 2 is left, and any
/// other number is right.
pub fn direction_of(draw: usize) -> (direction: Direction)
    ensures
        direction == actions()[if draw < 3 {
            draw as int
        } else {
            3
        }],
{
    match draw {
        0 => Direction::Up,
        1 => Direction::Down,
        2 => Direction::Left,
        _ => Direction::Right,
    }
}

/// The most moves that one rollout draws. Random play ends a game with
/// certainty only in the limit: a run of draws that never changes the board is
/// possible, however unlikely, and a rollout must return.
pub const ROLLOUT_DRAWS: u64 = 0xffff_ffff_ffff_ffff;

/// `after` can come out of `before` by `n` moves.
pub open spec fn plays_to(before: GameState, after: GameState, n: nat) -> bool
    decreases n,
{
    if n == 0 {
        after == before
    } else {
        exists|mid: GameState, d: Direction|
            plays_to(before, mid, (n - 1) as nat) && #[trigger] mid.moved(d, after)
    }
}

/// `after` is where a rollout can leave the game `before`: it comes out of
/// `before` by moves, and either it is over or `ROLLOUT_DRAWS` moves were made.
pub open spec fn rolled_out(before: GameState, after: GameState) -> bool {
    exists|n: nat|
        n <= ROLLOUT_DRAWS && #[trigger] plays_to(before, after, n) && (after.game_over() || n
            == ROLLOUT_DRAWS)
}

/// Rollout: plays random moves until the game is over, and tells whether it
/// is. It is not only where `ROLLOUT_DRAWS` moves were drawn before the game
/// ended: as long as the game is not over, the rollout goes on drawing.
pub fn simulate(state: &mut GameState) -> (finished: bool)
    requires
        old(state).wf(),
    ensures
        final(state).wf(),
        finished == final(state).game_over(),
        rolled_out(*old(state), *final(state)),
        !finished ==> plays_to(*old(state), *final(state), ROLLOUT_DRAWS as nat),
        final(state).score >= old(state).score,
        old(state).game_over() ==> *final(state) == *old(state),
{
    let ghost start = *state;
    let mut draws: u64 = 0;
    let mut over = state.is_game_over();
    while !over && draws < ROLLOUT_DRAWS
        invariant
            state.wf(),
            over == state.game_over(),
            plays_to(start, *state, draws as nat),
            state.score >= start.score,
            start.game_over() ==> *state == start,
        decreases ROLLOUT_DRAWS - draws,
    {
        let ghost mid = *state;
        let direction = RandomStrategy.next_move(state);
        proof {
            lemma_wf_fits(*state, direction);
        }
        state.move_tiles(direction);
        over = state.is_game_over();
        draws = draws + 1;
        proof {
            assert(plays_to(start, mid, (draws - 1) as nat) && mid.moved(direction, *state));
        }
    }
    proof {
        assert(plays_to(start, *state, draws as nat) && (state.game_over() || draws
            == ROLLOUT_DRAWS));
    }
    over
}

/// In `scores`, entry `k` is the highest, and no entry after it is as high.
pub open spec fn last_max(scores: Seq<u128>, k: int) -> bool {
    &&& 0 <= k < scores.len()
    &&& forall|j: int| 0 <= j < scores.len() ==> scores[j] <= scores[k]
    &&& forall|j: int| k < j < scores.len() ==> scores[j] < scores[k]
}

/// The place of the highest sum; of several that are as high, the last.
pub fn best_sum(scores: &Vec<u128>) -> (best: usize)
    requires
        scores.len() > 0,
    ensures
        last_max(scores@, best as int),
{
    let mut best: usize = 0;
    let mut k: usize = 1;
    while k < scores.len()
        invariant
            1 <= k <= scores.len(),
            best < k,
            forall|j: int| 0 <= j < k ==> scores[j] <= scores[best as int],
            forall|j: int| best < j < k ==> scores[j] < scores[best as int],
        decreases scores.len() - k,
    {
        if scores[k] >= scores[best] {
            best = k;
        }
        k = k + 1;
    }
    best
}

/// No game that is well-formed has a higher score.
pub const SCORE_LIMIT: u32 = 75497472;

/// `end` is where a rollout that begins with the move `d` can leave the game
/// `start`.
pub open spec fn played_out(start: GameState, d: Direction, end: GameState) -> bool {
    exists|first: GameState| #[trigger] start.moved(d, first) && rolled_out(first, end)
}

/// The scores of `games` together.
pub open spec fn total_score(games: Seq<GameState>) -> nat
    decreases games.len(),
{
    if games.len() == 0 {
        0
    } else {
        total_score(games.drop_last()) + games.last().score as nat
    }
}

/// `sum` adds up the final scores of `depth` rollouts of the game `state`
/// that begin with the move `d`.
pub open spec fn rollout_sum(state: GameState, d: Direction, depth: nat, sum: nat) -> bool {
    exists|games: Seq<GameState>| #[trigger]
        rollouts(state, d, depth, games) && sum == total_score(games)
}

/// `games` are the ends of `depth` rollouts of the game `state` that begin
/// with the move `d`.
pub open spec fn rollouts(state: GameState, d: Direction, depth: nat, games: Seq<GameState>) -> bool {
    &&& games.len() == depth
    &&& forall|i: int| 0 <= i < depth ==> played_out(state, d, #[trigger] games[i])
}

/// `sums` are four sums, one for each move in the order up, down, left,
/// right: each adds up the final scores of `depth` rollouts that begin with
/// its move. No such sum passes `depth` times `SCORE_LIMIT`.
pub open spec fn rollout_sums(sums: Seq<u128>, state: GameState, depth: nat) -> bool {
    &&& sums.len() == 4
    &&& forall|j: int|
        0 <= j < 4 ==> rollout_sum(state, actions()[j], depth, #[trigger] sums[j] as nat)
            && sums[j] <= depth * SCORE_LIMIT
}

/// A move never lowers the score, and it leaves a game that is over as it is.
pub proof fn lemma_moved_score(before: GameState, d: Direction, after: GameState)
    requires
        before.moved(d, after),
    ensures
        after.score >= before.score,
        before.game_over() ==> after == before,
{
    lemma_game_over_is_stuck(before);
}

/// Moves never lower the score, and they leave a game that is over as it is.
pub proof fn lemma_plays_to_score(before: GameState, after: GameState, n: nat)
    requires
        plays_to(before, after, n),
    ensures
        after.score >= before.score,
        before.game_over() ==> after == before,
    decreases n,
{
    if n > 0 {
        let (mid, d) = choose|mid: GameState, d: Direction|
            plays_to(before, mid, (n - 1) as nat) && #[trigger] mid.moved(d, after);
        lemma_plays_to_score(before, mid, (n - 1) as nat);
        lemma_moved_score(mid, d, after);
    }
}

/// A rollout ends with a score no lower than that of the game it began with;
/// where that game is over, the rollout leaves it as it is.
pub proof fn lemma_played_out_score(start: GameState, d: Direction, end: GameState)
    requires
        played_out(start, d, end),
    ensures
        end.score >= start.score,
        start.game_over() ==> end == start,
{
    let first = choose|first: GameState| #[trigger] start.moved(d, first) && rolled_out(first, end);
    let n = choose|n: nat|
        n <= ROLLOUT_DRAWS && #[trigger] plays_to(first, end, n) && (end.game_over() || n
            == ROLLOUT_DRAWS);
    lemma_moved_score(start, d, first);
    lemma_plays_to_score(first, end, n);
}

/// The final scores of `depth` rollouts add up to `depth` times the score of
/// the game they began with, or more; where that game is over, to just that.
pub proof fn lemma_rollouts_score(state: GameState, d: Direction, depth: nat, games: Seq<GameState>)
    requires
        rollouts(state, d, depth, games),
    ensures
        total_score(games) >= depth * state.score,
        state.game_over() ==> total_score(games) == depth * state.score,
    decreases depth,
{
    let score = state.score as int;
    if depth == 0 {
        assert(depth * score == 0) by (nonlinear_arith)
            requires
                depth == 0,
        ;
    } else {
        let m = (depth - 1) as nat;
        let rest = games.drop_last();
        assert forall|i: int| 0 <= i < m implies played_out(state, d, #[trigger] rest[i]) by {
            assert(rest[i] == games[i]);
        }
        lemma_rollouts_score(state, d, m, rest);
        lemma_played_out_score(state, d, games.last());
        assert(depth * score == m * score + score) by (nonlinear_arith)
            requires
                depth == m + 1,
        ;
    }
}

/// On a game that is over, every sum of rollouts is `depth` times its score,
/// so the last of the four moves has the best sum: right.
pub proof fn lemma_finished_rollout_sums(sums: Seq<u128>, state: GameState, depth: nat, k: int)
    requires
        rollout_sums(sums, state, depth),
        last_max(sums, k),
        state.game_over(),
    ensures
        forall|j: int| 0 <= j < 4 ==> #[trigger] sums[j] == depth * state.score,
        k == 3,
{
    assert forall|j: int| 0 <= j < 4 implies #[trigger] sums[j] == depth * state.score by {
        let d = actions()[j];
        let games = choose|games: Seq<GameState>| #[trigger]
            rollouts(state, d, depth, games) && sums[j] as nat == total_score(games);
        lemma_rollouts_score(state, d, depth, games);
    }
    if k < 3 {
        assert(sums[3] < sums[k]);
    }
}

/// For each of the four moves, plays `depth` random games that start with it,
/// and names the move whose games scored most in sum; of several such moves
/// the last in the order up, down, left, right.
pub struct SimpleRandomStrategy {
    pub depth: u64,
}

impl SimpleRandomStrategy {
    /// Plays the rollouts: four sums, one for each move in the order up,
    /// down, left, right. Each adds up the final scores of `depth` games that
    /// begin with its move and go on at random until they are over. How the
    /// games go is left to chance.
    pub fn rollout_scores(&self, state: &GameState) -> (sums: Vec<u128>)
        requires
            state.wf(),
        ensures
            rollout_sums(sums@, *state, self.depth as nat),
    {
        let directions = [Direction::Up, Direction::Down, Direction::Left, Direction::Right];
        let mut scores: Vec<u128> = Vec::new();
        let mut i: usize = 0;
        while i < 4
            invariant
                i <= 4,
                scores.len() == i,
                state.wf(),
                directions@ == actions(),
                forall|j: int|
                    0 <= j < i ==> rollout_sum(
                        *state,
                        actions()[j],
                        self.depth as nat,
                        #[trigger] scores[j] as nat,
                    ) && scores[j] <= self.depth * SCORE_LIMIT,
            decreases 4 - i,
        {
            let ghost d = actions()[i as int];
            let ghost mut ends: Seq<GameState> = Seq::empty();
            let mut games: u64 = 0;
            let mut sum: u128 = 0;
            while games < self.depth
                invariant
                    i < 4,
                    games <= self.depth,
                    sum <= games * SCORE_LIMIT,
                    state.wf(),
                    directions@ == actions(),
                    d == actions()[i as int],
                    rollouts(*state, d, games as nat, ends),
                    sum == total_score(ends),
                decreases self.depth - games,
            {
                let mut rollout = state.clone();
                proof {
                    lemma_wf_fits(rollout, directions[i as int]);
                }
                rollout.move_tiles(directions[i]);
                let ghost first = rollout;
                simulate(&mut rollout);
                proof {
                    lemma_wf_fits(rollout, Direction::Left);
                    let high = SCORE_LIMIT as int;
                    assert((games + 1) * high == games * high + high) by (nonlinear_arith);
                    assert(games * high <= 0xffff_ffff_ffff_ffff * high) by (nonlinear_arith)
                        requires
                            games <= 0xffff_ffff_ffff_ffff,
                            high >= 0,
                    ;
                    assert(state.moved(d, first) && rolled_out(first, rollout));
                    let longer = ends.push(rollout);
                    assert(longer.drop_last() == ends);
                    assert forall|n: int| 0 <= n < games + 1 implies played_out(
                        *state,
                        d,
                        #[trigger] longer[n],
                    ) by {
                        if n < games {
                            assert(longer[n] == ends[n]);
                        }
                    }
                    ends = longer;
                }
                sum = sum + rollout.score as u128;
                games = games + 1;
            }
            scores.push(sum);
            i = i + 1;
        }
        scores
    }
}

impl GameStrategy for SimpleRandomStrategy {
    /// The move is the one that `best_direction` names for the four sums of
    /// `rollout_scores`. Without rollouts, and on a game that is over, all
    /// sums are alike and the move is right.
    fn next_move(&self, state: &GameState) -> (direction: Direction)
        ensures
            exists|sums: Seq<u128>, k: int|
                rollout_sums(sums, *state, self.depth as nat) && #[trigger] last_max(sums, k)
                    && direction == actions()[k],
            self.depth == 0 ==> direction == Direction::Right,
            state.game_over() ==> direction == Direction::Right,
    {
        let scores = self.rollout_scores(state);
        let direction = best_direction(&scores);
        proof {
            let k = choose|k: int| #[trigger] last_max(scores@, k) && direction == actions()[k];
            if state.game_over() {
                lemma_finished_rollout_sums(scores@, *state, self.depth as nat, k);
            }
            if self.depth == 0 {
                assert(self.depth * SCORE_LIMIT == 0) by (nonlinear_arith)
                    requires
                        self.depth == 0,
                ;
                if k < 3 {
                    assert(scores@[3] < scores@[k]);
                }
            }
        }
        direction
    }
}

/// The move whose sum is the highest; of several with the same sum, the last
/// in the order up, down, left, right.
pub fn best_direction(sums: &Vec<u128>) -> (direction: Direction)
    requires
        sums.len() == 4,
    ensures
        exists|k: int| #[trigger] last_max(sums@, k) && direction == actions()[k],
{
    let best = best_sum(sums);
    let direction = direction_of(best);
    proof {
        assert(last_max(sums@, best as int) && direction == actions()[best as int]);
    }
    direction
}

/// How the search ranks the children of a node while it walks down the tree.
///
/// The score says how promising a child is: the search follows the child with
/// the highest score, and of several with the same score the one that was
/// added first. Both nodes have been visited when the search asks.
pub trait ExplorationScore {
    fn score(&self, parent: &NodeStats, child: &NodeStats) -> u64
        requires
            parent.visit > 0,
            child.visit > 0,
    ;
}

/// A search cannot be set up as asked.
#[derive(Debug, Clone, Copy, PartialEq, Eq, Structural)]
pub enum ConfigError {
    /// No iteration was asked for: the search would have no move to name.
    NoTries,
}

/// Monte-Carlo tree search with `tries` iterations for each move.
pub struct MctsStrategy<E: ExplorationScore> {
    tries: u64,
    exploration: E,
}

/// Selection: the child of `node` that `exploration` scores highest; of
/// several with the same score, the one that was added first.
pub fn select<E: ExplorationScore>(tree: &SearchTree, node: usize, exploration: &E) -> (chosen:
    usize)
    requires
        tree.wf(),
        node < tree@.len(),
        tree@[node as int].children.len() > 0,
        tree@[node as int].visit > 0,
        children_visited(tree@, tree@[node as int].children),
    ensures
        exists|k: int|
            0 <= k < tree@[node as int].children.len() && #[trigger] tree@[node as int].children[k]
                == chosen,
{
    let parent = tree.node(node).stats();
    let n = tree.child_count(node);
    let mut scores: Vec<u64> = Vec::new();
    let mut k: usize = 0;
    while k < n
        invariant
            node < tree@.len(),
            n == tree@[node as int].children.len(),
            k <= n,
            scores.len() == k,
            parent.visit > 0,
            tree.wf(),
            children_visited(tree@, tree@[node as int].children),
        decreases n - k,
    {
        proof {
            assert(node_wf(tree@, node as int));
        }
        let child = tree.node(tree.child(node, k)).stats();
        scores.push(exploration.score(&parent, &child));
        k = k + 1;
    }
    let best = best_score(&scores);
    tree.child(node, best)
}

impl<E: ExplorationScore> MctsStrategy<E> {
    #[verifier::type_invariant]
    spec fn has_tries(self) -> bool {
        self.tries >= 1
    }

    /// The number of iterations of each search.
    pub closed spec fn budget(self) -> u64 {
        self.tries
    }

    /// How the search ranks children on its way down the tree.
    pub closed spec fn policy(self) -> E {
        self.exploration
    }

    /// Sets up a search of `tries` iterations. A search without an iteration
    /// is refused.
    pub fn new(tries: u64, exploration: E) -> (made: Result<Self, ConfigError>)
        ensures
            tries == 0 ==> made == Err::<Self, ConfigError>(ConfigError::NoTries),
            tries > 0 ==> (made matches Ok(s) && s.budget() == tries && s.policy() == exploration),
    {
        if tries == 0 {
            Err(ConfigError::NoTries)
        } else {
            Ok(MctsStrategy { tries, exploration })
        }
    }

    pub fn tries(&self) -> (tries: u64)
        ensures
            tries == self.budget(),
            tries >= 1,
    {
        proof {
            use_type_invariant(self);
        }
        self.tries
    }
}

/// `after` comes out of `before` by the moves `ds`, made in their order.
pub open spec fn plays_along(before: GameState, ds: Seq<Direction>, after: GameState) -> bool
    decreases ds.len(),
{
    if ds.len() == 0 {
        after == before
    } else {
        exists|mid: GameState|
            plays_along(before, ds.drop_last(), mid) && #[trigger] mid.moved(ds.last(), after)
    }
}

/// `end` is where an iteration of a search can leave a copy of the game
/// `state`, when it has gone through the node to which the moves `ds` lead:
/// the copy was played along `ds` and then played on, until it was over or
/// `ROLLOUT_DRAWS` moves or more were made.
pub open spec fn played_through(state: GameState, ds: Seq<Direction>, end: GameState) -> bool {
    exists|mid: GameState, n: nat|
        plays_along(state, ds, mid) && #[trigger] plays_to(mid, end, n) && (end.game_over() || n
            >= ROLLOUT_DRAWS)
}

/// The highest score among `games`; 0 where there is none.
pub open spec fn highest_score(games: Seq<GameState>) -> nat
    decreases games.len(),
{
    if games.len() == 0 {
        0
    } else {
        let rest = highest_score(games.drop_last());
        if games.last().score > rest {
            games.last().score as nat
        } else {
            rest
        }
    }
}

/// The statistics of the node `n` are those of the games `games`: their
/// number, the sum of their scores, and the highest of their scores.
pub open spec fn node_counts(n: NodeView, games: Seq<GameState>) -> bool {
    &&& n.visit == games.len()
    &&& n.total_value == total_score(games)
    &&& n.max_score == highest_score(games)
}

/// `games` holds, for each node of the tree `t`, the ends of the iterations
/// that went through it, in their order: games that were played from `state`
/// along the path to the node and then played out. The node's statistics are
/// those of its games.
pub open spec fn search_games(t: Seq<NodeView>, state: GameState, games: Seq<Seq<GameState>>) -> bool {
    &&& games.len() == t.len()
    &&& forall|j: int| 0 <= j < t.len() ==> node_counts(t[j], #[trigger] games[j])
    &&& forall|j: int, i: int|
        0 <= j < t.len() && 0 <= i < games[j].len() ==> played_through(
            state,
            path_to(t, j),
            #[trigger] games[j][i],
        )
}

/// What a node's statistics say of the game that the search began with: each
/// rollout through the node ended with a score no lower than that game's, and
/// where that game is over, with that very score.
pub open spec fn values_from(n: NodeView, state: GameState) -> bool {
    &&& n.visit * state.score <= n.total_value
    &&& state.game_over() ==> n.total_value == n.visit * state.score
}

/// `t` is a tree that a search of `budget` iterations from the game `state`
/// can leave. Each iteration has added one node and has gone through the
/// root, so the tree has `budget` nodes besides the root and the root has
/// `budget` visits. The root has tried the last `min(budget, 4)` of its
/// moves, and every other node has been visited. The statistics of each node
/// are those of the games that the iterations through it played out.
pub open spec fn searched(t: Seq<NodeView>, state: GameState, budget: nat) -> bool {
    &&& tree_wf(t)
    &&& forall|j: int| 0 < j < t.len() ==> #[trigger] listed(t, j)
    &&& t.len() == budget + 1
    &&& t[0].visit == budget
    &&& t[0].children.len() == if budget < 4 {
        budget
    } else {
        4
    }
    &&& forall|j: int| 1 <= j < t.len() ==> (#[trigger] t[j]).visit >= 1
    &&& forall|j: int| 0 <= j < t.len() ==> values_from(#[trigger] t[j], state)
    &&& exists|games: Seq<Seq<GameState>>| #[trigger] search_games(t, state, games)
}

/// A move and then `n` moves are `n + 1` moves.
pub proof fn lemma_moved_then_plays(a: GameState, d: Direction, b: GameState, c: GameState, n: nat)
    requires
        a.moved(d, b),
        plays_to(b, c, n),
    ensures
        plays_to(a, c, n + 1),
    decreases n,
{
    if n == 0 {
        assert(plays_to(a, a, 0) && a.moved(d, c));
    } else {
        let (mid, e) = choose|mid: GameState, e: Direction|
            plays_to(b, mid, (n - 1) as nat) && #[trigger] mid.moved(e, c);
        lemma_moved_then_plays(a, d, b, mid, (n - 1) as nat);
        assert(plays_to(a, mid, n) && mid.moved(e, c));
    }
}

/// An iteration that went through a node went through its parent: a game
/// that was played along `ds` and played out was also played along `ds`
/// without its last move and played out.
pub proof fn lemma_played_through_up(state: GameState, ds: Seq<Direction>, end: GameState)
    requires
        ds.len() > 0,
        played_through(state, ds, end),
    ensures
        played_through(state, ds.drop_last(), end),
{
    let (mid, n) = choose|mid: GameState, n: nat|
        plays_along(state, ds, mid) && #[trigger] plays_to(mid, end, n) && (end.game_over() || n
            >= ROLLOUT_DRAWS);
    let prev = choose|prev: GameState|
        plays_along(state, ds.drop_last(), prev) && #[trigger] prev.moved(ds.last(), mid);
    lemma_moved_then_plays(prev, ds.last(), mid, end, n);
    assert(plays_along(state, ds.drop_last(), prev) && plays_to(prev, end, n + 1));
}

/// An iteration that went through a node went through each of its ancestors.
pub proof fn lemma_played_through_ancestors(
    t: Seq<NodeView>,
    state: GameState,
    a: int,
    n: int,
    end: GameState,
)
    requires
        tree_wf(t),
        0 <= n < t.len(),
        on_path(t, a, n),
        played_through(state, path_to(t, n), end),
    ensures
        played_through(state, path_to(t, a), end),
    decreases n,
{
    if a != n {
        assert(node_wf(t, n));
        let p = t[n].parent->0;
        assert(path_to(t, n).drop_last() =~= path_to(t, p));
        lemma_played_through_up(state, path_to(t, n), end);
        lemma_played_through_ancestors(t, state, a, p, end);
    }
}

/// The games of each node after one more iteration, which went through the
/// node `leaf` and its ancestors and ended with `end`.
pub open spec fn recorded(
    t: Seq<NodeView>,
    games: Seq<Seq<GameState>>,
    leaf: int,
    end: GameState,
) -> Seq<Seq<GameState>> {
    Seq::new(
        games.len(),
        |j: int|
            if on_path(t, j, leaf) {
                games[j].push(end)
            } else {
                games[j]
            },
    )
}

/// Expansion adds a node without games whose path is the path to its parent
/// and then its own move; the other nodes keep their paths and their games.
pub proof fn lemma_expansion_games(
    t: Seq<NodeView>,
    state: GameState,
    games: Seq<Seq<GameState>>,
    node: int,
)
    requires
        tree_wf(t),
        search_games(t, state, games),
        0 <= node < t.len(),
        t[node].untried.len() > 0,
    ensures
        ({
            let action = t[node].untried.last();
            let u = t.update(node, expanded(t[node], t.len() as int)).push(
                fresh(action, Some(node)),
            );
            &&& search_games(u, state, games.push(Seq::empty()))
            &&& path_to(u, t.len() as int) == path_to(t, node).push(action)
        }),
{
    let action = t[node].untried.last();
    let leaf = t.len() as int;
    let u = t.update(node, expanded(t[node], leaf)).push(fresh(action, Some(node)));
    let longer = games.push(Seq::empty());
    assert forall|j: int| 0 <= j < t.len() implies path_to(u, j) == path_to(t, j) by {
        lemma_path_to_same(t, u, j);
    }
    assert forall|j: int| 0 <= j < u.len() implies node_counts(u[j], #[trigger] longer[j]) by {
        if j < t.len() {
            assert(node_counts(t[j], games[j]));
        }
    }
    assert forall|j: int, i: int| 0 <= j < u.len() && 0 <= i < longer[j].len() implies played_through(
        state,
        path_to(u, j),
        #[trigger] longer[j][i],
    ) by {
        assert(longer[j] == games[j]);
        assert(played_through(state, path_to(t, j), games[j][i]));
    }
}

/// Backpropagation of the score of the game `end` adds that game to the
/// games of `leaf` and of each of its ancestors.
pub proof fn lemma_update_games(
    t: Seq<NodeView>,
    u: Seq<NodeView>,
    state: GameState,
    games: Seq<Seq<GameState>>,
    leaf: int,
    end: GameState,
)
    requires
        tree_wf(t),
        search_games(t, state, games),
        0 <= leaf < t.len(),
        played_through(state, path_to(t, leaf), end),
        u.len() == t.len(),
        forall|i: int|
            0 <= i < t.len() ==> #[trigger] u[i] == if on_path(t, i, leaf) {
                observed(t[i], end.score as nat)
            } else {
                t[i]
            },
    ensures
        search_games(u, state, recorded(t, games, leaf, end)),
{
    let after = recorded(t, games, leaf, end);
    assert forall|j: int| 0 <= j < t.len() implies path_to(u, j) == path_to(t, j) by {
        lemma_path_to_same(t, u, j);
    }
    assert forall|j: int| 0 <= j < u.len() implies node_counts(u[j], #[trigger] after[j]) by {
        assert(node_counts(t[j], games[j]));
        if on_path(t, j, leaf) {
            assert(after[j].drop_last() =~= games[j]);
        }
    }
    assert forall|j: int, i: int| 0 <= j < u.len() && 0 <= i < after[j].len() implies played_through(
        state,
        path_to(u, j),
        #[trigger] after[j][i],
    ) by {
        if i < games[j].len() {
            assert(after[j][i] == games[j][i]);
            assert(played_through(state, path_to(t, j), games[j][i]));
        } else {
            lemma_played_through_ancestors(t, state, j, leaf, end);
        }
    }
}

/// `direction` is the move that the tree `t` speaks for: the move of the
/// root's child with the highest mean value, and of several with the same
/// mean, of the one that was added first.
pub open spec fn best_move(t: Seq<NodeView>, direction: Direction) -> bool {
    exists|k: int| #[trigger]
        first_best_mean(t, t[0].children, k) && direction == t[t[0].children[k]].from_action
}

/// A rollout that ended with `value` keeps what `values_from` says of a node.
pub proof fn lemma_observed_values(n: NodeView, value: nat, state: GameState)
    requires
        values_from(n, state),
        value >= state.score,
        state.game_over() ==> value == state.score,
    ensures
        values_from(observed(n, value), state),
{
    let score = state.score as int;
    assert((n.visit + 1) * score == n.visit * score + score) by (nonlinear_arith);
}

/// The move that a searched tree speaks for is one that the root has tried.
/// Where the game was over when the search began, all rollouts ended alike,
/// so it is the first move that the root tried: right.
pub proof fn lemma_best_move_of_search(
    t: Seq<NodeView>,
    state: GameState,
    budget: nat,
    direction: Direction,
)
    requires
        searched(t, state, budget),
        best_move(t, direction),
    ensures
        exists|k: int| 0 <= k < 4 && k < budget && direction == #[trigger] actions()[3 - k],
        state.game_over() ==> direction == Direction::Right,
{
    let ch = t[0].children;
    let k = choose|k: int| #[trigger]
        first_best_mean(t, ch, k) && direction == t[ch[k]].from_action;
    assert(node_wf(t, 0));
    assert(t[ch[k]].from_action == actions()[3 - k]);
    if state.game_over() && k > 0 {
        let a = t[ch[0]];
        let b = t[ch[k]];
        assert(mean_lt(a, b));
        assert(values_from(a, state) && values_from(b, state));
        let score = state.score as int;
        assert(a.visit * score * b.visit == b.visit * score * a.visit) by (nonlinear_arith);
    }
}

/// Decision: the move of the root's child with the highest mean value; of
/// several with the same mean, of the one that was added first. The root has
/// a child, and each of its children has been visited.
pub fn decide(tree: &SearchTree) -> (direction: Direction)
    requires
        tree@.len() > 0,
        tree@[0].children.len() > 0,
        children_visited(tree@, tree@[0].children),
    ensures
        best_move(tree@, direction),
{
    let best = tree.node(0).best_child(tree);
    proof {
        let k = choose|k: int|
            first_best_mean(tree@, tree@[0].children, k) && #[trigger] tree@[0].children[k]
                == best;
        assert(first_best_mean(tree@, tree@[0].children, k) && tree@[best as int].from_action
            == tree@[tree@[0].children[k]].from_action);
    }
    tree.node(best).from_action
}

impl<E: ExplorationScore> MctsStrategy<E> {
    /// Grows a search tree from the given game, one node for each iteration.
    ///
    /// Each iteration starts at the root with a copy of the game. While the
    /// node it stands on has tried all its moves, it goes on to the child
    /// that `select` names and makes that child's move. It then expands the
    /// node, makes the new child's move, plays the copy out by `simulate`
    /// and records the final score in the new child and in all its
    /// ancestors.
    pub fn search(&self, state: &GameState) -> (tree: SearchTree)
        requires
            state.wf(),
        ensures
            tree.wf(),
            searched(tree@, *state, self.budget() as nat),
    {
        proof {
            use_type_invariant(self);
        }
        let mut tree = SearchTree::new();
        let mut done: u64 = 0;
        let ghost mut games: Seq<Seq<GameState>> = seq![Seq::empty()];
        proof {
            assert(values_from(tree@[0], *state)) by (nonlinear_arith)
                requires
                    tree@[0].visit == 0,
                    tree@[0].total_value == 0,
            ;
            assert(search_games(tree@, *state, games));
        }
        while done < self.tries
            invariant
                state.wf(),
                tree.wf(),
                done <= self.tries,
                searched(tree@, *state, done as nat),
                search_games(tree@, *state, games),
            decreases self.tries - done,
        {
            let mut scratch = state.clone();
            let mut cursor: usize = 0;
            proof {
                assert(node_wf(tree@, 0));
            }
            while tree.is_fully_expanded(cursor)
                invariant
                    tree.wf(),
                    scratch.wf(),
                    scratch.score >= state.score,
                    state.game_over() ==> scratch == *state,
                    cursor < tree@.len(),
                    done < 4 ==> cursor == 0,
                    searched(tree@, *state, done as nat),
                    plays_along(*state, path_to(tree@, cursor as int), scratch),
                decreases tree@.len() - cursor,
            {
                proof {
                    assert(node_wf(tree@, cursor as int));
                    assert(node_wf(tree@, 0));
                    assert(tree@[cursor as int].children.len() == 4);
                    let first = tree@[cursor as int].children[0];
                    assert(tree@[first].visit >= 1);
                    let ch = tree@[cursor as int].children;
                    assert forall|k: int| 0 <= k < ch.len() implies 0 <= #[trigger] ch[k]
                        < tree@.len() && tree@[ch[k]].visit > 0 by {
                        assert(tree@[ch[k]].visit >= 1);
                    }
                }
                let child = select(&tree, cursor, &self.exploration);
                let action = tree.node(child).from_action;
                let ghost above = scratch;
                proof {
                    lemma_wf_fits(scratch, action);
                    lemma_game_over_is_stuck(scratch);
                }
                scratch.move_tiles(action);
                proof {
                    let path = path_to(tree@, child as int);
                    assert(path.drop_last() =~= path_to(tree@, cursor as int));
                    assert(plays_along(*state, path.drop_last(), above) && above.moved(
                        path.last(),
                        scratch,
                    ));
                }
                cursor = child;
            }
            let ghost before = tree@;
            proof {
                assert(node_wf(before, cursor as int));
                assert(node_wf(before, 0));
            }
            let leaf = expand(&mut tree, cursor);
            let ghost grown = tree@;
            let action = tree.node(leaf).from_action;
            let ghost above = scratch;
            proof {
                lemma_wf_fits(scratch, action);
                lemma_game_over_is_stuck(scratch);
                lemma_expansion_games(before, *state, games, cursor as int);
                games = games.push(Seq::empty());
            }
            scratch.move_tiles(action);
            let ghost below = scratch;
            simulate(&mut scratch);
            proof {
                let path = path_to(grown, leaf as int);
                assert(path.drop_last() =~= path_to(before, cursor as int));
                assert(plays_along(*state, path.drop_last(), above) && above.moved(
                    path.last(),
                    below,
                ));
                let n = choose|n: nat|
                    n <= ROLLOUT_DRAWS && #[trigger] plays_to(below, scratch, n) && (
                    scratch.game_over() || n == ROLLOUT_DRAWS);
                assert(plays_along(*state, path, below) && plays_to(below, scratch, n));
                assert(played_through(*state, path, scratch));
                assert(grown[0].visit == before[0].visit);
                assert forall|j: int| 0 <= j < grown.len() implies values_from(
                    #[trigger] grown[j],
                    *state,
                ) by {
                    if j < before.len() {
                        assert(values_from(before[j], *state));
                        assert(grown[j].visit == before[j].visit);
                        assert(grown[j].total_value == before[j].total_value);
                    } else {
                        assert(values_from(grown[j], *state)) by (nonlinear_arith)
                            requires
                                grown[j].visit == 0,
                                grown[j].total_value == 0,
                        ;
                    }
                }
            }
            tree.update(leaf, scratch.score as u64);
            proof {
                lemma_update_games(grown, tree@, *state, games, leaf as int, scratch);
                games = recorded(grown, games, leaf as int, scratch);
                lemma_on_path_root(grown, leaf as int);
                assert(tree@[0] == observed(grown[0], scratch.score as nat));
                assert forall|j: int| 1 <= j < tree@.len() implies (#[trigger] tree@[j]).visit
                    >= 1 by {
                    if j < before.len() {
                        assert(grown[j].visit == before[j].visit);
                        assert(before[j].visit >= 1);
                    }
                }
                assert forall|j: int| 0 <= j < tree@.len() implies values_from(
                    #[trigger] tree@[j],
                    *state,
                ) by {
                    assert(values_from(grown[j], *state));
                    lemma_observed_values(grown[j], scratch.score as nat, *state);
                }
            }
            done = done + 1;
        }
        tree
    }
}

impl<E: ExplorationScore> GameStrategy for MctsStrategy<E> {
    /// Searches by `search` and names the move that `decide` reads off the
    /// tree: the move of the root's child with the highest mean value. That
    /// is one of the moves that the root has tried, the last `min(tries, 4)`
    /// of up, down, left, right. Where the game is over, it is right.
    fn next_move(&self, state: &GameState) -> (direction: Direction)
        ensures
            exists|t: Seq<NodeView>| #[trigger]
                searched(t, *state, self.budget() as nat) && best_move(t, direction),
            exists|k: int|
                0 <= k < 4 && k < self.budget() && direction == #[trigger] actions()[3 - k],
            state.game_over() ==> direction == Direction::Right,
    {
        proof {
            use_type_invariant(self);
        }
        let tree = self.search(state);
        proof {
            assert(node_wf(tree@, 0));
            let ch = tree@[0].children;
            assert forall|k: int| 0 <= k < ch.len() implies 0 <= #[trigger] ch[k] < tree@.len()
                && tree@[ch[k]].visit > 0 by {
                assert(tree@[ch[k]].visit >= 1);
            }
        }
        let direction = decide(&tree);
        proof {
            lemma_best_move_of_search(tree@, *state, self.budget() as nat, direction);
        }
        direction
    }
}

} // verus!

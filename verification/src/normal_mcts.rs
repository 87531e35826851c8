//! The rollout search: a tree of boards grown by playouts that are played by chance,
//! several such trees merged at the root, and the best move taken from the merged counts.

use crate::game::{
    board_is_over, board_winner, first_alive, game_over, is_joint_move, is_joint_moves,
    is_resolved, lemma_joint_moves_are_pairs, no_joint_move, no_joint_twice, random_below,
    reasonable_moves,
    snake_healths, winner_of, Board, Move, SnakeId, SNAKE_SLOTS,
};
use vstd::prelude::*;

verus! {

/// A node of a rollout search tree. Nodes live in one list and name each other by their
/// index in it.
pub struct MCTSNode {
    pub state: Board,
    pub parent: Option<usize>,
    pub children: Vec<usize>,
    pub moves_made: Option<Vec<(SnakeId, Move)>>,
    pub wins: usize,
    pub visits: usize,
    pub deep: usize,
}

/// The moves of a joint move as a sequence, if there are any.
pub open spec fn moves_view(moves: Option<Vec<(SnakeId, Move)>>) -> Option<Seq<(SnakeId, Move)>> {
    match moves {
        Some(list) => Some(list@),
        None => None,
    }
}

/// The move that the list records for `snake`: that of its first entry for the snake.
pub open spec fn move_of(moves: Seq<(SnakeId, Move)>, snake: SnakeId) -> Option<Move>
    decreases moves.len(),
{
    if moves.len() == 0 {
        None
    } else if moves[0].0 == snake {
        Some(moves[0].1)
    } else {
        move_of(moves.drop_first(), snake)
    }
}

impl MCTSNode {
    pub fn new(
        state: Board,
        parent: Option<usize>,
        moves_made: Option<Vec<(SnakeId, Move)>>,
        deep: usize,
    ) -> (node: MCTSNode)
        ensures
            node.state == state,
            node.parent == parent,
            node.moves_made == moves_made,
            node.children@.len() == 0,
            node.wins == 0,
            node.visits == 0,
            node.deep == deep,
    {
        MCTSNode { state, parent, moves_made, children: Vec::new(), wins: 0, visits: 0, deep }
    }

    /// The move that led to this node for `snake_id`, if the node records one.
    pub fn find_move_made(&self, snake_id: &SnakeId) -> (mv: Option<Move>)
        ensures
            mv == match self.moves_made {
                Some(moves) => move_of(moves@, *snake_id),
                None => None,
            },
    {
        match &self.moves_made {
            Some(moves) => {
                let mut i: usize = 0;
                assert(moves@.skip(0) =~= moves@);
                while i < moves.len()
                    invariant
                        i <= moves@.len(),
                        move_of(moves@, *snake_id) == move_of(moves@.skip(i as int), *snake_id),
                        self.moves_made == Some(*moves),
                    decreases moves@.len() - i,
                {
                    let ghost rest = moves@.skip(i as int);
                    assert(rest[0] == moves@[i as int]);
                    assert(rest.drop_first() =~= moves@.skip(i + 1));
                    if moves[i].0 == *snake_id {
                        return Some(moves[i].1);
                    }
                    i += 1;
                }
                assert(moves@.skip(moves@.len() as int).len() == 0);
                None
            },
            None => None,
        }
    }

    /// The move that led to this node for `snake_id`.
    pub fn get_best_move_made(&self, snake_id: &SnakeId) -> (mv: Move)
        requires
            self.moves_made is Some,
            move_of(self.moves_made->0@, *snake_id) is Some,
        ensures
            Some(mv) == move_of(self.moves_made->0@, *snake_id),
    {
        match self.find_move_made(snake_id) {
            Some(mv) => mv,
            None => Move::Up,
        }
    }
}

impl Clone for MCTSNode {
    fn clone(&self) -> (node: MCTSNode)
        ensures
            node.state == self.state,
            node.parent == self.parent,
            node.children@ == self.children@,
            moves_view(node.moves_made) == moves_view(self.moves_made),
            node.wins == self.wins,
            node.visits == self.visits,
            node.deep == self.deep,
    {
        let mut children: Vec<usize> = Vec::new();
        let mut i: usize = 0;
        while i < self.children.len()
            invariant
                i <= self.children@.len(),
                children@ == self.children@.take(i as int),
            decreases self.children@.len() - i,
        {
            children.push(self.children[i]);
            assert(self.children@.take(i + 1) =~= self.children@.take(i as int).push(
                self.children@[i as int],
            ));
            i += 1;
        }
        assert(self.children@.take(self.children@.len() as int) =~= self.children@);
        let moves_made = match &self.moves_made {
            Some(moves) => {
                let mut copied: Vec<(SnakeId, Move)> = Vec::new();
                let mut j: usize = 0;
                while j < moves.len()
                    invariant
                        j <= moves@.len(),
                        copied@ == moves@.take(j as int),
                    decreases moves@.len() - j,
                {
                    copied.push(moves[j]);
                    assert(moves@.take(j + 1) =~= moves@.take(j as int).push(moves@[j as int]));
                    j += 1;
                }
                assert(moves@.take(moves@.len() as int) =~= moves@);
                Some(copied)
            },
            None => None,
        };
        MCTSNode {
            state: self.state,
            parent: self.parent,
            children,
            moves_made,
            wins: self.wins,
            visits: self.visits,
            deep: self.deep,
        }
    }
}

/// Whether `node` lies on the way from `from` up to the root of a search tree, in which
/// every parent stands before its children: a link that leads to no earlier node ends the
/// way. On a list of any shape `walk_count` says what a walk along the links counts.
pub open spec fn on_path(tree: Seq<MCTSNode>, from: int, node: int) -> bool
    decreases from,
{
    if from < 0 || from >= tree.len() {
        false
    } else if node == from {
        true
    } else {
        match tree[from].parent {
            Some(parent) => parent < from && on_path(tree, parent as int, node),
            None => false,
        }
    }
}

/// Whether two nodes differ at most in their counts of wins and visits.
pub open spec fn same_but_counts(one: MCTSNode, other: MCTSNode) -> bool {
    &&& one.state == other.state
    &&& one.parent == other.parent
    &&& one.children == other.children
    &&& one.moves_made == other.moves_made
    &&& one.deep == other.deep
}

/// One if `counted`, else zero.
pub open spec fn one_if(counted: bool) -> int {
    if counted {
        1
    } else {
        0
    }
}

/// A way up visits only nodes at or before its start.
pub proof fn lemma_path_goes_back(tree: Seq<MCTSNode>, from: int, node: int)
    requires
        on_path(tree, from, node),
    ensures
        0 <= node <= from < tree.len(),
    decreases from,
{
    if node != from {
        lemma_path_goes_back(tree, tree[from].parent->0 as int, node);
    }
}

/// The way up from a node of a way is part of that way.
pub proof fn lemma_path_continues(tree: Seq<MCTSNode>, from: int, middle: int, node: int)
    requires
        on_path(tree, from, middle),
        on_path(tree, middle, node),
    ensures
        on_path(tree, from, node),
    decreases from,
{
    if middle != from {
        lemma_path_continues(tree, tree[from].parent->0 as int, middle, node);
    }
}

/// How often a walk from `from` up the parent links counts `node`, if it makes no more
/// than `steps` steps. The walk counts the node it stands on and goes on to its parent;
/// it ends at a node without a parent, at a node that names itself as its parent, and at
/// a link that leads out of the list.
pub open spec fn walk_count(tree: Seq<MCTSNode>, from: int, node: int, steps: nat) -> int
    decreases steps,
{
    if steps == 0 || from < 0 || from >= tree.len() {
        0
    } else {
        one_if(from == node) + match tree[from].parent {
            Some(parent) => if parent != from {
                walk_count(tree, parent as int, node, (steps - 1) as nat)
            } else {
                0
            },
            None => 0,
        }
    }
}

/// A walk counts no node more often than it makes steps.
pub proof fn lemma_walk_count_bounds(tree: Seq<MCTSNode>, from: int, node: int, steps: nat)
    ensures
        0 <= walk_count(tree, from, node, steps) <= steps,
        0 <= from < tree.len() && steps > 0 ==> walk_count(tree, from, from, steps) >= 1,
    decreases steps,
{
    if steps > 0 && 0 <= from < tree.len() {
        match tree[from].parent {
            Some(parent) => {
                lemma_walk_count_bounds(tree, parent as int, node, (steps - 1) as nat);
                lemma_walk_count_bounds(tree, parent as int, from, (steps - 1) as nat);
            },
            None => {},
        }
    }
}

/// In a search tree a walk that may make as many steps as the tree has nodes counts
/// exactly the nodes on the way up to the root, each once.
pub proof fn lemma_walk_in_a_tree(tree: Seq<MCTSNode>, from: int, node: int, steps: nat)
    requires
        is_tree(tree),
        0 <= from < tree.len(),
        steps > from,
    ensures
        walk_count(tree, from, node, steps) == one_if(on_path(tree, from, node)),
    decreases from,
{
    if from > 0 {
        let parent = tree[from].parent->0 as int;
        lemma_walk_in_a_tree(tree, parent, node, (steps - 1) as nat);
        if node == from {
            if on_path(tree, parent, node) {
                lemma_path_goes_back(tree, parent, node);
            }
        }
    }
}

/// Records one playout that started at `node_index`: every node on the walk up the parent
/// links counts one more visit, and one more win where `winner` is `player_id`. The walk
/// ends at a node without a parent, at a node that names itself as its parent, at a link
/// that leads out of the list, and after as many steps as the list has nodes.
pub fn backpropagate(
    tree: &mut Vec<MCTSNode>,
    node_index: usize,
    winner: Option<SnakeId>,
    player_id: &SnakeId,
)
    requires
        forall|i: int|
            0 <= i < old(tree)@.len() ==> (#[trigger] old(tree)@[i]).visits + walk_count(
                old(tree)@,
                node_index as int,
                i,
                old(tree)@.len(),
            ) <= usize::MAX && old(tree)@[i].wins + walk_count(
                old(tree)@,
                node_index as int,
                i,
                old(tree)@.len(),
            ) <= usize::MAX,
    ensures
        final(tree)@.len() == old(tree)@.len(),
        forall|i: int|
            0 <= i < old(tree)@.len() ==> {
                &&& same_but_counts(#[trigger] final(tree)@[i], old(tree)@[i])
                &&& final(tree)@[i].visits == old(tree)@[i].visits + walk_count(
                    old(tree)@,
                    node_index as int,
                    i,
                    old(tree)@.len(),
                )
                &&& final(tree)@[i].wins == old(tree)@[i].wins + if winner == Some(*player_id) {
                    walk_count(old(tree)@, node_index as int, i, old(tree)@.len())
                } else {
                    0
                }
            },
{
    let ghost before = tree@;
    let won = match winner {
        Some(winner) => winner == *player_id,
        None => false,
    };
    let len = tree.len();
    let mut current = node_index;
    let mut steps_left = len;
    while steps_left > 0 && current < len
        invariant
            len == before.len(),
            tree@.len() == before.len(),
            won == (winner == Some(*player_id)),
            forall|i: int|
                0 <= i < before.len() ==> (#[trigger] before[i]).visits + walk_count(
                    before,
                    node_index as int,
                    i,
                    before.len(),
                ) <= usize::MAX && before[i].wins + walk_count(
                    before,
                    node_index as int,
                    i,
                    before.len(),
                ) <= usize::MAX,
            forall|i: int|
                0 <= i < before.len() ==> {
                    &&& same_but_counts(#[trigger] tree@[i], before[i])
                    &&& tree@[i].visits + walk_count(before, current as int, i, steps_left as nat)
                        == before[i].visits + walk_count(
                        before,
                        node_index as int,
                        i,
                        before.len(),
                    )
                    &&& tree@[i].wins == before[i].wins + if won {
                        tree@[i].visits - before[i].visits
                    } else {
                        0
                    }
                },
        decreases steps_left,
    {
        let ghost earlier = tree@;
        let ghost at = current as int;
        proof {
            lemma_walk_count_bounds(before, at, at, steps_left as nat);
            assert(same_but_counts(earlier[at], before[at]));
        }
        tree[current].visits += 1;
        if won {
            tree[current].wins += 1;
        }
        let next = match tree[current].parent {
            Some(parent) => {
                if parent != current {
                    parent
                } else {
                    len
                }
            },
            None => len,
        };
        proof {
            assert forall|i: int| 0 <= i < before.len() implies {
                &&& same_but_counts(#[trigger] tree@[i], before[i])
                &&& tree@[i].visits + walk_count(before, next as int, i, (steps_left - 1) as nat)
                    == before[i].visits + walk_count(
                    before,
                    node_index as int,
                    i,
                    before.len(),
                )
                &&& tree@[i].wins == before[i].wins + if won {
                    tree@[i].visits - before[i].visits
                } else {
                    0
                }
            } by {
                assert(same_but_counts(earlier[i], before[i]));
                if i != at {
                    assert(tree@[i] == earlier[i]);
                }
            }
        }
        current = next;
        steps_left -= 1;
    }
}

/// The number of visits by which a node's wins are divided: at least one.
pub open spec fn spec_visits_or_one(visits: usize) -> usize {
    if visits == 0 {
        1
    } else {
        visits
    }
}

#[verifier::when_used_as_spec(spec_visits_or_one)]
pub fn visits_or_one(visits: usize) -> (divisor: usize)
    ensures
        divisor == spec_visits_or_one(visits),
{
    if visits == 0 {
        1
    } else {
        visits
    }
}

/// Whether the win rate of `one`, its wins by its visits, is greater than that of
/// `other`.
pub open spec fn wins_more_often(one: MCTSNode, other: MCTSNode) -> bool {
    one.wins * spec_visits_or_one(other.visits) > other.wins * spec_visits_or_one(one.visits)
}

/// Whether every index in `children` names a node of `tree`.
pub open spec fn children_in(children: Seq<usize>, tree: Seq<MCTSNode>) -> bool {
    forall|k: int| 0 <= k < children.len() ==> (#[trigger] children[k]) < tree.len()
}

/// Whether the child at `at` is the first of `children` with the greatest win rate.
pub open spec fn is_first_best_rate(children: Seq<usize>, tree: Seq<MCTSNode>, at: int) -> bool {
    &&& 0 <= at < children.len()
    &&& forall|j: int|
        0 <= j < children.len() ==> !wins_more_often(
            tree[#[trigger] children[j] as int],
            tree[children[at] as int],
        )
    &&& forall|j: int|
        0 <= j < at ==> wins_more_often(
            tree[children[at] as int],
            tree[#[trigger] children[j] as int],
        )
}

/// A rate that is greater than a second rate is greater than every rate that the second is
/// not below. Rates are given as numerator and positive denominator.
proof fn lemma_rate_order(a: int, b: int, c: int, d: int, e: int, f: int)
    requires
        b > 0,
        d > 0,
        f > 0,
        a >= 0,
        c >= 0,
        e >= 0,
        a * d > c * b,
        e * d <= c * f,
    ensures
        a * f > e * b,
{
    assert(a * d * f > c * b * f) by (nonlinear_arith)
        requires
            a * d > c * b,
            f > 0,
    ;
    assert(e * d * b <= c * f * b) by (nonlinear_arith)
        requires
            e * d <= c * f,
            b > 0,
    ;
    assert(c * b * f == c * f * b) by (nonlinear_arith);
    assert(a * d * f == (a * f) * d) by (nonlinear_arith);
    assert(e * d * b == (e * b) * d) by (nonlinear_arith);
    assert(a * f > e * b) by (nonlinear_arith)
        requires
            (a * f) * d > (e * b) * d,
            d > 0,
    ;
}

/// Whether the first rate, `wins` by `visits`, is greater than the second.
fn rate_exceeds(wins: usize, visits: usize, other_wins: usize, other_visits: usize) -> (more: bool)
    requires
        visits > 0,
        other_visits > 0,
    ensures
        more == (wins * other_visits > other_wins * visits),
{
    assert(wins * other_visits <= usize::MAX * usize::MAX) by (nonlinear_arith)
        requires
            wins <= usize::MAX,
            other_visits <= usize::MAX,
    ;
    assert(other_wins * visits <= usize::MAX * usize::MAX) by (nonlinear_arith)
        requires
            other_wins <= usize::MAX,
            visits <= usize::MAX,
    ;
    assert(usize::MAX * usize::MAX <= u128::MAX) by (nonlinear_arith)
        requires
            usize::MAX <= 0xffff_ffff_ffff_ffff,
    ;
    (wins as u128) * (other_visits as u128) > (other_wins as u128) * (visits as u128)
}

/// The child of `node` with the greatest win rate, the first of them where several have
/// it; 0 for a node without children.
pub fn best_child(node: &MCTSNode, tree: &Vec<MCTSNode>) -> (best: usize)
    requires
        children_in(node.children@, tree@),
    ensures
        node.children@.len() == 0 ==> best == 0,
        node.children@.len() > 0 ==> exists|at: int|
            #[trigger] is_first_best_rate(node.children@, tree@, at) && best == node.children@[at],
{
    let children = &node.children;
    if children.len() == 0 {
        return 0;
    }
    let mut best_at: usize = 0;
    let mut i: usize = 1;
    while i < children.len()
        invariant
            1 <= i <= children@.len(),
            children_in(children@, tree@),
            is_first_best_rate(children@.take(i as int), tree@, best_at as int),
        decreases children@.len() - i,
    {
        let child = &tree[children[i]];
        let best = &tree[children[best_at]];
        let ghost seen = children@.take(i as int);
        let ghost next = children@.take(i + 1);
        assert(seen[best_at as int] == children@[best_at as int]);
        if rate_exceeds(
            child.wins,
            visits_or_one(child.visits),
            best.wins,
            visits_or_one(best.visits),
        ) {
            proof {
                assert forall|j: int| 0 <= j < i implies wins_more_often(
                    tree@[children@[i as int] as int],
                    tree@[#[trigger] next[j] as int],
                ) by {
                    let other = tree@[seen[j] as int];
                    assert(!wins_more_often(other, *best));
                    lemma_rate_order(
                        child.wins as int,
                        spec_visits_or_one(child.visits) as int,
                        best.wins as int,
                        spec_visits_or_one(best.visits) as int,
                        other.wins as int,
                        spec_visits_or_one(other.visits) as int,
                    );
                }
                assert(is_first_best_rate(next, tree@, i as int));
            }
            best_at = i;
        } else {
            proof {
                assert forall|j: int| 0 <= j < next.len() implies !wins_more_often(
                    tree@[#[trigger] next[j] as int],
                    *best,
                ) by {
                    if j < i {
                        assert(!wins_more_often(tree@[seen[j] as int], *best));
                    }
                }
                assert forall|j: int| 0 <= j < best_at implies wins_more_often(
                    *best,
                    tree@[#[trigger] next[j] as int],
                ) by {
                    assert(wins_more_often(*best, tree@[seen[j] as int]));
                }
                assert(is_first_best_rate(next, tree@, best_at as int));
            }
        }
        i += 1;
    }
    assert(children@.take(children@.len() as int) =~= children@);
    children[best_at]
}

/// Whether `at` is the first position of `keys` that holds their greatest value.
pub open spec fn is_first_greatest(keys: Seq<i64>, at: int) -> bool {
    &&& 0 <= at < keys.len()
    &&& forall|j: int| 0 <= j < keys.len() ==> keys[j] <= keys[at]
    &&& forall|j: int| 0 <= j < at ==> keys[j] < keys[at]
}

/// Whether `keys` holds, child by child, a score that `score` gave for the child's wins,
/// its visits (at least one) and the visits of `node`.
pub open spec fn is_scored<F: Fn(usize, usize, usize) -> i64>(
    score: F,
    node: MCTSNode,
    tree: Seq<MCTSNode>,
    keys: Seq<i64>,
) -> bool {
    &&& keys.len() == node.children@.len()
    &&& forall|k: int|
        0 <= k < keys.len() ==> call_ensures(
            score,
            (
                tree[node.children@[k] as int].wins,
                spec_visits_or_one(tree[node.children@[k] as int].visits),
                node.visits,
            ),
            #[trigger] keys[k],
        )
}

/// The child of `node` that the search explores next: the one for which `score` gives the
/// greatest value, the first of them where several have it; 0 for a node without
/// children. `score` is asked once for each child, with the child's wins, its visits (at
/// least one) and the visits of `node`; a greater value stands for a greater sum of win
/// rate and exploration bonus.
pub fn best_child_exploring<F: Fn(usize, usize, usize) -> i64>(
    node: &MCTSNode,
    tree: &Vec<MCTSNode>,
    score: &F,
) -> (best: usize)
    requires
        children_in(node.children@, tree@),
        forall|wins: usize, visits: usize, parent_visits: usize|
            call_requires(*score, (wins, visits, parent_visits)),
    ensures
        node.children@.len() == 0 ==> best == 0,
        node.children@.len() > 0 ==> exists|keys: Seq<i64>, at: int|
            #[trigger] is_scored(*score, *node, tree@, keys) && #[trigger] is_first_greatest(
                keys,
                at,
            ) && best == node.children@[at],
{
    let children = &node.children;
    if children.len() == 0 {
        return 0;
    }
    let first = &tree[children[0]];
    let mut best_score = score(first.wins, visits_or_one(first.visits), node.visits);
    let mut best_at: usize = 0;
    let ghost mut keys: Seq<i64> = seq![best_score];
    let mut i: usize = 1;
    while i < children.len()
        invariant
            1 <= i <= children@.len(),
            children@ == node.children@,
            children_in(children@, tree@),
            forall|wins: usize, visits: usize, parent_visits: usize|
                call_requires(*score, (wins, visits, parent_visits)),
            keys.len() == i,
            forall|k: int|
                0 <= k < i ==> call_ensures(
                    *score,
                    (
                        tree@[children@[k] as int].wins,
                        spec_visits_or_one(tree@[children@[k] as int].visits),
                        node.visits,
                    ),
                    #[trigger] keys[k],
                ),
            is_first_greatest(keys, best_at as int),
            best_score == keys[best_at as int],
        decreases children@.len() - i,
    {
        let child = &tree[children[i]];
        let child_score = score(child.wins, visits_or_one(child.visits), node.visits);
        proof {
            keys = keys.push(child_score);
        }
        if child_score > best_score {
            best_score = child_score;
            best_at = i;
        }
        i += 1;
    }
    proof {
        assert(is_scored(*score, *node, tree@, keys));
    }
    children[best_at]
}

/// The number of plies after which a playout is cut off. No game lasts that long.
pub const PLAYOUT_LIMIT: u64 = u64::MAX;

/// A winner that the rules name occupies one of the board's slots.
proof fn lemma_winner_has_a_slot(healths: Seq<u8>, from: int)
    requires
        0 <= from,
    ensures
        first_alive(healths, from) is Some ==> from <= (first_alive(healths, from)->0).0
            < SNAKE_SLOTS,
    decreases SNAKE_SLOTS - from,
{
    if from < SNAKE_SLOTS && healths[from] == 0 {
        lemma_winner_has_a_slot(healths, from + 1);
    }
}

/// Whether `after` may follow `before` in a playout: the game on `before` goes on, both
/// its snakes are alive, and `after` is the board one ply after a joint move that the
/// rules call reasonable.
pub open spec fn is_playout_ply(before: Board, joint: [Move; 2], after: Board) -> bool {
    &&& !game_over(snake_healths(before))
    &&& before.spec_can_simulate()
    &&& is_joint_move(reasonable_moves(before), joint)
    &&& is_resolved(before, joint[0], joint[1], after)
}

/// Whether a playout can lead from `start` to `end` in `plies` plies.
pub open spec fn plays_out(start: Board, end: Board, plies: nat) -> bool
    decreases plies,
{
    if plies == 0 {
        end == start
    } else {
        exists|before: Board, joint: [Move; 2]|
            plays_out(start, before, (plies - 1) as nat) && #[trigger] is_playout_ply(
                before,
                joint,
                end,
            )
    }
}

/// Whether a playout stops on the board `end` after `plies` plies: the rules have ended
/// the game, the limit of plies is reached, or the board cannot be moved on, one of its
/// first two snakes being dead or without a move.
pub open spec fn playout_stops(end: Board, plies: nat) -> bool {
    ||| game_over(snake_healths(end))
    ||| plies == PLAYOUT_LIMIT
    ||| !end.spec_can_simulate()
    ||| no_joint_move(reasonable_moves(end))
}

/// Whether a playout from `state` can name `winner`: it leads in some number of plies to a
/// board on which it stops, and `winner` is the winner there.
pub open spec fn is_played_out(state: Board, winner: Option<SnakeId>) -> bool {
    exists|end: Board, plies: nat|
        #[trigger] plays_out(state, end, plies) && playout_stops(end, plies) && winner
            == winner_of(snake_healths(end))
}

/// Plays joint moves drawn by chance, each with the same chance, until the rules end the
/// game, and names the winner: nobody where no snake is left. The winner of a game that
/// is over at the start is the winner of `state`.
pub fn run_simulation(state: Board) -> (winner: Option<SnakeId>)
    ensures
        winner is Some ==> (winner->0).0 < SNAKE_SLOTS,
        game_over(snake_healths(state)) ==> winner == winner_of(snake_healths(state)),
        is_played_out(state, winner),
{
    let mut current_state = state;
    let mut plies_left = PLAYOUT_LIMIT;
    let mut stuck = false;
    while plies_left > 0 && !stuck && !board_is_over(&current_state)
        invariant
            plays_out(state, current_state, (PLAYOUT_LIMIT - plies_left) as nat),
            game_over(snake_healths(state)) ==> current_state == state,
            stuck ==> !current_state.spec_can_simulate() || no_joint_move(
                reasonable_moves(current_state),
            ),
        decreases
                plies_left + if stuck {
                    0int
                } else {
                    1int
                },
    {
        let moves = current_state.get_available_moves();
        if moves.len() == 0 || !current_state.can_simulate() {
            proof {
                lemma_joint_moves_are_pairs(reasonable_moves(current_state), moves@, 0);
            }
            stuck = true;
        } else {
            let drawn = random_below(moves.len());
            let chosen_moves = moves[drawn];
            let next_state = current_state.simulate_moves(&chosen_moves);
            proof {
                lemma_joint_moves_are_pairs(
                    reasonable_moves(current_state),
                    moves@,
                    drawn as int,
                );
                assert(is_playout_ply(current_state, chosen_moves, next_state));
            }
            current_state = next_state;
            plies_left -= 1;
        }
    }
    proof {
        lemma_winner_has_a_slot(snake_healths(current_state), 0);
        assert(playout_stops(current_state, (PLAYOUT_LIMIT - plies_left) as nat));
    }
    board_winner(&current_state)
}

/// Whether `tree` is a search tree: its first node is the root, every other node has its
/// parent before it and lies one level deeper than its parent, and the children of a node
/// come after it and name it as their parent.
pub open spec fn is_tree(tree: Seq<MCTSNode>) -> bool {
    &&& tree.len() >= 1
    &&& tree[0].parent is None
    &&& forall|i: int|
        1 <= i < tree.len() ==> (#[trigger] tree[i]).parent is Some && tree[i].parent->0 < i
            && tree[i].deep == tree[tree[i].parent->0 as int].deep + 1
    &&& forall|i: int, k: int|
        0 <= i < tree.len() && 0 <= k < tree[i].children@.len() ==> {
            &&& i < (#[trigger] tree[i].children@[k]) < tree.len()
            &&& tree[tree[i].children@[k] as int].parent == Some(i as usize)
        }
}

/// In a search tree the way up from every node passes the root.
pub proof fn lemma_root_on_every_path(tree: Seq<MCTSNode>, from: int)
    requires
        is_tree(tree),
        0 <= from < tree.len(),
    ensures
        on_path(tree, from, 0),
    decreases from,
{
    if from != 0 {
        lemma_root_on_every_path(tree, tree[from].parent->0 as int);
    }
}

/// Whether `child` is the child of `node` that the search explores next: the first of the
/// children of `node` for which `score` gives the greatest value.
pub open spec fn is_explored_next<F: Fn(usize, usize, usize) -> i64>(
    score: F,
    tree: Seq<MCTSNode>,
    node: int,
    child: int,
) -> bool {
    exists|keys: Seq<i64>, at: int|
        #[trigger] is_scored(score, tree[node], tree, keys) && #[trigger] is_first_greatest(
            keys,
            at,
        ) && child == tree[node].children@[at]
}

/// Whether the way from the root down to the node `to` is the descent of the search:
/// every node on it but `to` has a game that goes on, and the next node on the way is
/// the child that the search explores next.
#[verifier::opaque]
pub open spec fn is_descent<F: Fn(usize, usize, usize) -> i64>(
    score: F,
    tree: Seq<MCTSNode>,
    to: int,
) -> bool
    decreases to,
{
    if to <= 0 {
        to == 0
    } else {
        let parent = tree[to].parent->0 as int;
        &&& tree[to].parent is Some
        &&& parent < to
        &&& !game_over(snake_healths(tree[parent].state))
        &&& is_explored_next(score, tree, parent, to)
        &&& is_descent(score, tree, parent)
    }
}

/// Walks down from the root, at each node to the child that `score` ranks first, and stops
/// at a node without children or with a finished game.
fn select_leaf<F: Fn(usize, usize, usize) -> i64>(tree: &Vec<MCTSNode>, score: &F) -> (leaf: usize)
    requires
        is_tree(tree@),
        forall|wins: usize, visits: usize, parent_visits: usize|
            call_requires(*score, (wins, visits, parent_visits)),
    ensures
        leaf < tree@.len(),
        tree@[leaf as int].children@.len() == 0 || game_over(
            snake_healths(tree@[leaf as int].state),
        ),
        is_descent(*score, tree@, leaf as int),
{
    let mut node_index: usize = 0;
    proof {
        reveal(is_descent);
    }
    while tree[node_index].children.len() != 0 && !board_is_over(&tree[node_index].state)
        invariant
            is_tree(tree@),
            node_index < tree@.len(),
            is_descent(*score, tree@, node_index as int),
            forall|wins: usize, visits: usize, parent_visits: usize|
                call_requires(*score, (wins, visits, parent_visits)),
        decreases tree@.len() - node_index,
    {
        let ghost node = tree@[node_index as int];
        assert(children_in(node.children@, tree@)) by {
            assert forall|k: int| 0 <= k < node.children@.len() implies (
            #[trigger] node.children@[k]) < tree@.len() by {
                assert(tree@[node_index as int].children@[k] < tree@.len());
            }
        }
        let next = best_child_exploring(&tree[node_index], tree, score);
        proof {
            let (keys, at) = choose|keys: Seq<i64>, at: int|
                #[trigger] is_scored(*score, node, tree@, keys) && #[trigger] is_first_greatest(
                    keys,
                    at,
                ) && next == node.children@[at];
            assert(node_index < tree@[node_index as int].children@[at] < tree@.len());
            assert(tree@[next as int].parent == Some(node_index));
            assert(is_explored_next(*score, tree@, node_index as int, next as int));
            reveal(is_descent);
        }
        node_index = next;
    }
    node_index
}

/// Whether `child` is what an expansion makes of the joint move `joint` on the board
/// `state`: it holds a board one ply after the move, and the move of each of the two
/// snakes with the snake's slot.
pub open spec fn is_child_by(state: Board, joint: [Move; 2], child: MCTSNode) -> bool {
    &&& is_resolved(state, joint[0], joint[1], child.state)
    &&& child.moves_made is Some
    &&& child.moves_made->0@ == seq![(SnakeId(0), joint[0]), (SnakeId(1), joint[1])]
}

/// Whether the node holds a move for each of the two snakes.
pub open spec fn holds_both_moves(node: MCTSNode) -> bool {
    &&& node.moves_made is Some
    &&& move_of(node.moves_made->0@, SnakeId(0)) is Some
    &&& move_of(node.moves_made->0@, SnakeId(1)) is Some
}

/// Whether the children of the node `node` are its expansion: one child for each joint
/// move that the rules call reasonable on its board, in their order, each holding a board
/// one ply after its move, and the move.
#[verifier::opaque]
pub open spec fn is_expansion_of(tree: Seq<MCTSNode>, node: int) -> bool {
    exists|joint: Seq<[Move; 2]>| #[trigger] expands_by(tree, node, joint)
}

/// Whether the children of the node `node` are its expansion by the joint moves `joint`:
/// these are the joint moves that the rules call reasonable on its board, none of them
/// twice, and the node has one child for each, in their order.
pub open spec fn expands_by(tree: Seq<MCTSNode>, node: int, joint: Seq<[Move; 2]>) -> bool {
    &&& is_joint_moves(reasonable_moves(tree[node].state), joint)
    &&& no_joint_twice(joint)
    &&& tree[node].children@.len() == joint.len()
    &&& forall|k: int|
        0 <= k < joint.len() ==> is_child_by(
            tree[node].state,
            joint[k],
            tree[#[trigger] tree[node].children@[k] as int],
        )
}

/// Whether `tree` is a search tree as the search grows it: a node has children only
/// where its game goes on and both its snakes are alive, and then they are its expansion;
/// a node lists its children in ascending order; and every node but the root is listed
/// by its parent and holds the moves that led to it.
pub open spec fn is_grown(tree: Seq<MCTSNode>) -> bool {
    &&& is_tree(tree)
    &&& forall|i: int|
        0 <= i < tree.len() && (#[trigger] tree[i]).children@.len() > 0 ==> {
            &&& !game_over(snake_healths(tree[i].state))
            &&& tree[i].state.spec_can_simulate()
            &&& is_expansion_of(tree, i)
        }
    &&& forall|i: int, j: int, k: int|
        0 <= i < tree.len() && 0 <= j < k < tree[i].children@.len() ==> (
        #[trigger] tree[i].children@[j]) < (#[trigger] tree[i].children@[k])
    &&& forall|i: int| 1 <= i < tree.len() ==> #[trigger] is_listed_child(tree, i)
    &&& forall|i: int| 1 <= i < tree.len() ==> holds_both_moves(#[trigger] tree[i])
}

/// Whether the parent of the node `node` lists it among its children.
#[verifier::opaque]
pub open spec fn is_listed_child(tree: Seq<MCTSNode>, node: int) -> bool {
    exists|k: int|
        0 <= k < tree[tree[node].parent->0 as int].children@.len() && (
        #[trigger] tree[tree[node].parent->0 as int].children@[k]) == node
}

/// In a tree as the search grows it, the parent of a node lists the node exactly once.
pub proof fn lemma_listed_exactly_once(tree: Seq<MCTSNode>, node: int) -> (at: int)
    requires
        is_grown(tree),
        1 <= node < tree.len(),
    ensures
        0 <= at < tree[tree[node].parent->0 as int].children@.len(),
        tree[tree[node].parent->0 as int].children@[at] == node,
        forall|k: int|
            0 <= k < tree[tree[node].parent->0 as int].children@.len() && k != at ==> (
            #[trigger] tree[tree[node].parent->0 as int].children@[k]) != node,
{
    reveal(is_listed_child);
    assert(is_listed_child(tree, node));
    let parent = tree[node].parent->0 as int;
    let at = choose|k: int|
        0 <= k < tree[parent].children@.len() && (#[trigger] tree[parent].children@[k]) == node;
    assert forall|k: int| 0 <= k < tree[parent].children@.len() && k != at implies (
    #[trigger] tree[parent].children@[k]) != node by {
        if k < at {
            assert(tree[parent].children@[k] < tree[parent].children@[at]);
        } else {
            assert(tree[parent].children@[at] < tree[parent].children@[k]);
        }
    }
    at
}

/// A child of an expansion holds the moves of both snakes.
pub proof fn lemma_child_holds_moves(state: Board, joint: [Move; 2], child: MCTSNode)
    requires
        is_child_by(state, joint, child),
    ensures
        holds_both_moves(child),
        move_of(child.moves_made->0@, SnakeId(0)) == Some(joint[0]),
        move_of(child.moves_made->0@, SnakeId(1)) == Some(joint[1]),
{
    let moves = child.moves_made->0@;
    assert(moves[0] == (SnakeId(0), joint[0]));
    assert(moves.drop_first()[0] == (SnakeId(1), joint[1]));
    assert(move_of(moves.drop_first(), SnakeId(1)) == Some(joint[1]));
}

/// The expansion of a node stays what it is while the node keeps its board and its
/// children, and the children keep their boards and moves.
proof fn lemma_expansion_stays(before: Seq<MCTSNode>, after: Seq<MCTSNode>, node: int)
    requires
        is_tree(before),
        0 <= node < before.len() <= after.len(),
        is_expansion_of(before, node),
        after[node].state == before[node].state,
        after[node].children@ == before[node].children@,
        forall|c: int|
            0 <= c < before.len() ==> (#[trigger] after[c]).state == before[c].state
                && after[c].moves_made == before[c].moves_made,
    ensures
        is_expansion_of(after, node),
{
    reveal(is_expansion_of);
    let joint = choose|joint: Seq<[Move; 2]>| #[trigger] expands_by(before, node, joint);
    assert forall|k: int| 0 <= k < joint.len() implies is_child_by(
        after[node].state,
        joint[k],
        after[#[trigger] after[node].children@[k] as int],
    ) by {
        let child = before[node].children@[k] as int;
        assert(node < child < before.len());
        assert(is_child_by(before[node].state, joint[k], before[child]));
        assert(after[child].state == before[child].state);
    }
    assert(expands_by(after, node, joint));
}

/// A grown tree stays one when counts of wins and visits change.
proof fn lemma_counts_keep_growth(before: Seq<MCTSNode>, after: Seq<MCTSNode>)
    requires
        is_grown(before),
        after.len() == before.len(),
        forall|i: int| 0 <= i < before.len() ==> same_but_counts(#[trigger] after[i], before[i]),
    ensures
        is_grown(after),
{
    assert(same_but_counts(after[0], before[0]));
    assert forall|i: int| 1 <= i < after.len() implies (#[trigger] after[i]).parent is Some
        && after[i].parent->0 < i && after[i].deep == after[after[i].parent->0 as int].deep
        + 1 by {
        assert(same_but_counts(after[i], before[i]));
        assert(before[i].parent is Some && before[i].parent->0 < i);
        assert(same_but_counts(after[before[i].parent->0 as int], before[before[i].parent->0 as int]));
    }
    assert forall|i: int, k: int|
        0 <= i < after.len() && 0 <= k < after[i].children@.len() implies {
        &&& i < (#[trigger] after[i].children@[k]) < after.len()
        &&& after[after[i].children@[k] as int].parent == Some(i as usize)
    } by {
        assert(same_but_counts(after[i], before[i]));
        let child = before[i].children@[k] as int;
        assert(i < child < before.len());
        assert(same_but_counts(after[child], before[child]));
    }
    assert(is_tree(after));
    assert forall|c: int| 0 <= c < before.len() implies (#[trigger] after[c]).state
        == before[c].state && after[c].moves_made == before[c].moves_made by {
        assert(same_but_counts(after[c], before[c]));
    }
    assert forall|i: int|
        0 <= i < after.len() && (#[trigger] after[i]).children@.len() > 0 implies {
        &&& !game_over(snake_healths(after[i].state))
        &&& after[i].state.spec_can_simulate()
        &&& is_expansion_of(after, i)
    } by {
        assert(same_but_counts(after[i], before[i]));
        assert(before[i].children@.len() > 0);
        lemma_expansion_stays(before, after, i);
    }
    assert forall|i: int, j: int, k: int|
        0 <= i < after.len() && 0 <= j < k < after[i].children@.len() implies (
    #[trigger] after[i].children@[j]) < (#[trigger] after[i].children@[k]) by {
        assert(same_but_counts(after[i], before[i]));
        assert(before[i].children@[j] < before[i].children@[k]);
    }
    assert forall|i: int| 1 <= i < after.len() implies holds_both_moves(
        #[trigger] after[i],
    ) by {
        assert(same_but_counts(after[i], before[i]));
        assert(holds_both_moves(before[i]));
    }
    assert forall|i: int| 1 <= i < after.len() implies #[trigger] is_listed_child(after, i) by {
        assert(same_but_counts(after[i], before[i]));
        let parent = before[i].parent->0 as int;
        assert(before[i].parent is Some && parent < i);
        assert(same_but_counts(after[parent], before[parent]));
        assert(is_listed_child(before, i));
        reveal(is_listed_child);
        let k = choose|k: int|
            0 <= k < before[parent].children@.len() && (#[trigger] before[parent].children@[k])
                == i;
        assert(after[parent].children@[k] == i);
    }
}

/// A grown tree stays one when a node without children gets its expansion.
proof fn lemma_expansion_keeps_growth(before: Seq<MCTSNode>, after: Seq<MCTSNode>, node: int)
    requires
        is_grown(before),
        is_tree(after),
        0 <= node < before.len() <= after.len(),
        before[node].children@.len() == 0,
        !game_over(snake_healths(before[node].state)),
        before[node].state.spec_can_simulate(),
        is_expansion_of(after, node),
        forall|i: int| 0 <= i < before.len() && i != node ==> (#[trigger] after[i]) == before[i],
        after[node].state == before[node].state,
        after[node].parent == before[node].parent,
        after[node].moves_made == before[node].moves_made,
        after[node].children@.len() == after.len() - before.len(),
        forall|k: int|
            0 <= k < after.len() - before.len() ==> (#[trigger] after[node].children@[k])
                == before.len() + k,
        forall|i: int|
            before.len() <= i < after.len() ==> (#[trigger] after[i]).parent == Some(
                node as usize,
            ) && after[i].children@.len() == 0,
    ensures
        is_grown(after),
{
    assert forall|c: int| 0 <= c < before.len() implies (#[trigger] after[c]).state
        == before[c].state && after[c].moves_made == before[c].moves_made by {}
    assert forall|i: int|
        0 <= i < after.len() && (#[trigger] after[i]).children@.len() > 0 implies {
        &&& !game_over(snake_healths(after[i].state))
        &&& after[i].state.spec_can_simulate()
        &&& is_expansion_of(after, i)
    } by {
        if i != node {
            assert(i < before.len());
            assert(after[i] == before[i]);
            assert(before[i].children@.len() > 0);
            lemma_expansion_stays(before, after, i);
        }
    }
    assert forall|i: int, j: int, k: int|
        0 <= i < after.len() && 0 <= j < k < after[i].children@.len() implies (
    #[trigger] after[i].children@[j]) < (#[trigger] after[i].children@[k]) by {
        if i != node {
            assert(after[i] == before[i]);
            assert(before[i].children@[j] < before[i].children@[k]);
        }
    }
    assert forall|i: int| 1 <= i < after.len() implies holds_both_moves(
        #[trigger] after[i],
    ) by {
        if i < before.len() {
            lemma_old_node_stays_listed(before, after, node, i);
        } else {
            let k = i - before.len();
            assert(after[node].children@[k] == i);
            lemma_expanded_child_holds_moves(after, node, k);
        }
    }
    assert forall|i: int| 1 <= i < after.len() implies #[trigger] is_listed_child(after, i) by {
        if i < before.len() {
            lemma_old_node_stays_listed(before, after, node, i);
        } else {
            let k = i - before.len();
            assert(after[node].children@[k] == i);
            assert(is_listed_child(after, i)) by {
                reveal(is_listed_child);
            }
        }
    }
}

/// A child of an expansion holds the moves of both snakes.
proof fn lemma_expanded_child_holds_moves(tree: Seq<MCTSNode>, node: int, k: int)
    requires
        is_expansion_of(tree, node),
        0 <= k < tree[node].children@.len(),
    ensures
        holds_both_moves(tree[tree[node].children@[k] as int]),
{
    reveal(is_expansion_of);
    let joint = choose|joint: Seq<[Move; 2]>| #[trigger] expands_by(tree, node, joint);
    assert(is_child_by(tree[node].state, joint[k], tree[tree[node].children@[k] as int]));
    lemma_child_holds_moves(tree[node].state, joint[k], tree[tree[node].children@[k] as int]);
}

/// An expansion has no children exactly where the rules give no joint move.
proof fn lemma_expansion_counts(tree: Seq<MCTSNode>, node: int)
    requires
        is_expansion_of(tree, node),
    ensures
        tree[node].children@.len() == 0 <==> no_joint_move(reasonable_moves(tree[node].state)),
{
    reveal(is_expansion_of);
    let joint = choose|joint: Seq<[Move; 2]>| #[trigger] expands_by(tree, node, joint);
    lemma_joint_moves_are_pairs(reasonable_moves(tree[node].state), joint, 0);
}

/// A node without children is expanded where the rules give no joint move on its board.
proof fn lemma_nothing_to_expand(tree: Seq<MCTSNode>, node: int)
    requires
        tree[node].children@.len() == 0,
        no_joint_move(reasonable_moves(tree[node].state)),
    ensures
        is_expansion_of(tree, node),
{
    reveal(is_expansion_of);
    let nothing = Seq::<[Move; 2]>::empty();
    let lists = reasonable_moves(tree[node].state);
    if lists.len() >= 2 {
        assert(lists[0].1.len() * lists[1].1.len() == 0) by (nonlinear_arith)
            requires
                lists[0].1.len() == 0 || lists[1].1.len() == 0,
        ;
    }
    assert(is_joint_moves(lists, nothing));
    assert(expands_by(tree, node, nothing));
}

/// A node that was there before an expansion is listed by its parent, and holds its
/// moves, after it as before.
proof fn lemma_old_node_stays_listed(
    before: Seq<MCTSNode>,
    after: Seq<MCTSNode>,
    node: int,
    i: int,
)
    requires
        is_grown(before),
        0 <= node < before.len() <= after.len(),
        1 <= i < before.len(),
        before[node].children@.len() == 0,
        forall|j: int| 0 <= j < before.len() && j != node ==> (#[trigger] after[j]) == before[j],
        after[node].parent == before[node].parent,
        after[node].moves_made == before[node].moves_made,
    ensures
        is_listed_child(after, i),
        holds_both_moves(after[i]),
{
    reveal(is_listed_child);
    let parent = before[i].parent->0 as int;
    assert(before[i].parent is Some && parent < i);
    assert(is_listed_child(before, i));
    let k = choose|k: int|
        0 <= k < before[parent].children@.len() && (#[trigger] before[parent].children@[k]) == i;
    assert(parent != node);
    assert(after[parent] == before[parent]);
    assert(after[i].parent == before[i].parent);
    assert(after[parent].children@[k] == i);
    assert(holds_both_moves(before[i]));
}

/// Gives the node `node_index` one child for each joint move that the rules call
/// reasonable on its board, in their order: the child holds the board after the move, the
/// move with the snakes it belongs to, and a depth one greater than the node's.
fn expand(tree: &mut Vec<MCTSNode>, node_index: usize)
    requires
        is_grown(old(tree)@),
        node_index < old(tree)@.len(),
        !game_over(snake_healths(old(tree)@[node_index as int].state)),
        old(tree)@[node_index as int].children@.len() == 0,
        old(tree)@[node_index as int].deep < usize::MAX,
        old(tree)@[node_index as int].state.spec_can_simulate(),
    ensures
        is_grown(final(tree)@),
        is_expansion_of(final(tree)@, node_index as int),
        final(tree)@.len() >= old(tree)@.len(),
        forall|i: int|
            0 <= i < old(tree)@.len() && i != node_index ==> (#[trigger] final(tree)@[i])
                == old(tree)@[i],
        final(tree)@[node_index as int].state == old(tree)@[node_index as int].state,
        final(tree)@[node_index as int].parent == old(tree)@[node_index as int].parent,
        final(tree)@[node_index as int].moves_made == old(tree)@[node_index as int].moves_made,
        final(tree)@[node_index as int].wins == old(tree)@[node_index as int].wins,
        final(tree)@[node_index as int].visits == old(tree)@[node_index as int].visits,
        final(tree)@[node_index as int].deep == old(tree)@[node_index as int].deep,
        final(tree)@[node_index as int].children@.len() == final(tree)@.len() - old(tree)@.len(),
        forall|k: int|
            0 <= k < final(tree)@.len() - old(tree)@.len() ==> #[trigger] final(
                tree
            )@[node_index as int].children@[k] == old(tree)@.len() + k,
        forall|i: int|
            old(tree)@.len() <= i < final(tree)@.len() ==> {
                &&& (#[trigger] final(tree)@[i]).parent == Some(node_index)
                &&& final(tree)@[i].children@.len() == 0
                &&& final(tree)@[i].wins == 0
                &&& final(tree)@[i].visits == 0
                &&& final(tree)@[i].deep == old(tree)@[node_index as int].deep + 1
                &&& final(tree)@[i].moves_made is Some
            },
{
    let ghost before = tree@;
    let state = tree[node_index].state;
    let deep = tree[node_index].deep;
    let moves = state.get_available_moves();
    let mut k: usize = 0;
    while k < moves.len()
        invariant
            k <= moves@.len(),
            is_tree(before),
            node_index < before.len(),
            before[node_index as int].children@.len() == 0,
            state == before[node_index as int].state,
            state.spec_can_simulate(),
            deep == before[node_index as int].deep,
            deep < usize::MAX,
            tree@.len() == before.len() + k,
            is_tree(tree@),
            forall|i: int|
                0 <= i < before.len() && i != node_index ==> (#[trigger] tree@[i]) == before[i],
            tree@[node_index as int].state == before[node_index as int].state,
            tree@[node_index as int].parent == before[node_index as int].parent,
            tree@[node_index as int].moves_made == before[node_index as int].moves_made,
            tree@[node_index as int].wins == before[node_index as int].wins,
            tree@[node_index as int].visits == before[node_index as int].visits,
            tree@[node_index as int].deep == before[node_index as int].deep,
            tree@[node_index as int].children@.len() == k,
            forall|j: int|
                0 <= j < k ==> (#[trigger] tree@[node_index as int].children@[j]) == before.len()
                    + j,
            forall|i: int|
                before.len() <= i < tree@.len() ==> {
                    &&& (#[trigger] tree@[i]).parent == Some(node_index)
                    &&& tree@[i].children@.len() == 0
                    &&& tree@[i].wins == 0
                    &&& tree@[i].visits == 0
                    &&& tree@[i].deep == deep + 1
                    &&& tree@[i].moves_made is Some
                },
            forall|j: int|
                0 <= j < k ==> is_child_by(state, moves@[j], #[trigger] tree@[before.len() + j]),
        decreases moves@.len() - k,
    {
        let node_moves = moves[k];
        let mut node_moves_2: Vec<(SnakeId, Move)> = Vec::new();
        node_moves_2.push((SnakeId(0), node_moves[0]));
        node_moves_2.push((SnakeId(1), node_moves[1]));
        let child = MCTSNode::new(
            state.simulate_moves(&node_moves),
            Some(node_index),
            Some(node_moves_2),
            deep + 1,
        );
        let child_index = tree.len();
        let ghost earlier = tree@;
        assert(is_child_by(state, node_moves, child)) by {
            assert(child.moves_made->0@ =~= seq![
                (SnakeId(0), node_moves[0]),
                (SnakeId(1), node_moves[1]),
            ]);
        }
        tree.push(child);
        tree[node_index].children.push(child_index);
        proof {
            let now = tree@;
            assert forall|j: int| 0 <= j < k + 1 implies is_child_by(
                state,
                moves@[j],
                #[trigger] now[before.len() + j],
            ) by {
                if j < k {
                    assert(now[before.len() + j] == earlier[before.len() + j]);
                }
            }
            assert forall|i: int, c: int|
                0 <= i < now.len() && 0 <= c < now[i].children@.len() implies {
                &&& i < (#[trigger] now[i].children@[c]) < now.len()
                &&& now[now[i].children@[c] as int].parent == Some(i as usize)
            } by {
                if i == node_index {
                    if c < k {
                        assert(now[i].children@[c] == earlier[i].children@[c]);
                    }
                } else if i < earlier.len() {
                    assert(now[i] == earlier[i]);
                    assert(i < earlier[i].children@[c] < earlier.len());
                    assert(earlier[earlier[i].children@[c] as int].parent == Some(i as usize));
                }
            }
            assert forall|i: int| 1 <= i < now.len() implies (#[trigger] now[i]).parent is Some
                && now[i].parent->0 < i by {
                if i < earlier.len() {
                    assert(earlier[i].parent is Some && earlier[i].parent->0 < i);
                }
            }
        }
        k += 1;
    }
    proof {
        reveal(is_expansion_of);
        let grown = tree@;
        assert(is_joint_moves(reasonable_moves(grown[node_index as int].state), moves@));
        assert(no_joint_twice(moves@));
        assert forall|j: int| 0 <= j < moves@.len() implies is_child_by(
            grown[node_index as int].state,
            moves@[j],
            grown[#[trigger] grown[node_index as int].children@[j] as int],
        ) by {
            assert(grown[node_index as int].children@[j] == before.len() + j);
            assert(is_child_by(state, moves@[j], grown[before.len() + j]));
        }
        assert(expands_by(grown, node_index as int, moves@));
        assert(is_expansion_of(grown, node_index as int));
        lemma_expansion_keeps_growth(before, grown, node_index as int);
    }
}

/// Whether no node of `tree` has more wins than visits, or more visits than the root.
pub open spec fn counts_in_order(tree: Seq<MCTSNode>) -> bool {
    forall|i: int|
        0 <= i < tree.len() ==> (#[trigger] tree[i]).wins <= tree[i].visits && tree[i].visits
            <= tree[0].visits
}

/// Whether the children of the root are the nodes right after it, in their order.
pub open spec fn root_children_first(tree: Seq<MCTSNode>) -> bool {
    forall|k: int|
        0 <= k < tree[0].children@.len() ==> (#[trigger] tree[0].children@[k]) == k + 1
}

/// The visits of the first `upto` children of the root, added up.
pub open spec fn children_visits(tree: Seq<MCTSNode>, upto: int) -> int
    decreases upto,
{
    if upto <= 0 {
        0
    } else {
        children_visits(tree, upto - 1) + tree[tree[0].children@[upto - 1] as int].visits
    }
}

/// How many of the first `upto` children of the root lie on the way up from `from`.
pub open spec fn path_hits(tree: Seq<MCTSNode>, from: int, upto: int) -> int
    decreases upto,
{
    if upto <= 0 {
        0
    } else {
        path_hits(tree, from, upto - 1) + one_if(
            on_path(tree, from, tree[0].children@[upto - 1] as int),
        )
    }
}

/// Whether the search can never give the board children: its game is over, one of its two
/// snakes is dead, or the rules give no joint move.
pub open spec fn cannot_grow(state: Board) -> bool {
    ||| game_over(snake_healths(state))
    ||| !state.spec_can_simulate()
    ||| no_joint_move(reasonable_moves(state))
}

/// The visits of the root's children add up to the same while the children and their
/// visits stay the same.
proof fn lemma_children_visits_same(before: Seq<MCTSNode>, after: Seq<MCTSNode>, upto: int)
    requires
        after[0].children@ == before[0].children@,
        0 <= upto <= before[0].children@.len(),
        forall|k: int|
            0 <= k < upto ==> after[(#[trigger] before[0].children@[k]) as int].visits
                == before[before[0].children@[k] as int].visits,
    ensures
        children_visits(after, upto) == children_visits(before, upto),
    decreases upto,
{
    if upto > 0 {
        lemma_children_visits_same(before, after, upto - 1);
        assert(after[before[0].children@[upto - 1] as int].visits
            == before[before[0].children@[upto - 1] as int].visits);
    }
}

/// Children that were never visited add up to no visits.
proof fn lemma_children_visits_none(tree: Seq<MCTSNode>, upto: int)
    requires
        0 <= upto <= tree[0].children@.len(),
        forall|k: int|
            0 <= k < upto ==> tree[(#[trigger] tree[0].children@[k]) as int].visits == 0,
    ensures
        children_visits(tree, upto) == 0,
    decreases upto,
{
    if upto > 0 {
        lemma_children_visits_none(tree, upto - 1);
        assert(tree[tree[0].children@[upto - 1] as int].visits == 0);
    }
}

/// A walk up the tree adds to the visits of the root's children one for each of them that
/// lies on its way.
proof fn lemma_children_visits_after_walk(
    before: Seq<MCTSNode>,
    after: Seq<MCTSNode>,
    from: int,
    upto: int,
)
    requires
        is_tree(before),
        after.len() == before.len(),
        after[0].children@ == before[0].children@,
        0 <= upto <= before[0].children@.len(),
        forall|i: int|
            0 <= i < before.len() ==> (#[trigger] after[i]).visits == before[i].visits + one_if(
                on_path(before, from, i),
            ),
    ensures
        children_visits(after, upto) == children_visits(before, upto) + path_hits(
            before,
            from,
            upto,
        ),
    decreases upto,
{
    if upto > 0 {
        lemma_children_visits_after_walk(before, after, from, upto - 1);
        let child = before[0].children@[upto - 1] as int;
        assert(0 < child < before.len());
        assert(after[child].visits == before[child].visits + one_if(on_path(before, from, child)));
    }
}

/// Two ways up that pass the same children of the root hit as many of them.
proof fn lemma_same_hits(tree: Seq<MCTSNode>, one: int, other: int, upto: int)
    requires
        0 <= upto <= tree[0].children@.len(),
        forall|k: int|
            0 <= k < upto ==> on_path(tree, one, (#[trigger] tree[0].children@[k]) as int)
                == on_path(tree, other, tree[0].children@[k] as int),
    ensures
        path_hits(tree, one, upto) == path_hits(tree, other, upto),
    decreases upto,
{
    if upto > 0 {
        lemma_same_hits(tree, one, other, upto - 1);
        assert(on_path(tree, one, tree[0].children@[upto - 1] as int) == on_path(
            tree,
            other,
            tree[0].children@[upto - 1] as int,
        ));
    }
}

/// The way up from a child of the root hits that child alone.
proof fn lemma_child_hits_itself(tree: Seq<MCTSNode>, child: int, upto: int)
    requires
        is_tree(tree),
        root_children_first(tree),
        1 <= child < tree.len(),
        tree[child].parent == Some(0usize),
        0 <= upto <= tree[0].children@.len(),
    ensures
        path_hits(tree, child, upto) == one_if(child <= upto),
    decreases upto,
{
    if upto > 0 {
        lemma_child_hits_itself(tree, child, upto - 1);
        assert(tree[0].children@[upto - 1] == upto);
        assert(!on_path(tree, 0, upto));
        assert(on_path(tree, child, upto) == (child == upto));
    }
}

/// The way up from any node but the root passes exactly one child of the root.
proof fn lemma_one_root_child_on_path(tree: Seq<MCTSNode>, from: int)
    requires
        is_grown(tree),
        root_children_first(tree),
        1 <= from < tree.len(),
    ensures
        path_hits(tree, from, tree[0].children@.len() as int) == 1,
    decreases from,
{
    let count = tree[0].children@.len() as int;
    let parent = tree[from].parent->0 as int;
    assert(tree[from].parent is Some && parent < from);
    if parent == 0 {
        assert(is_listed_child(tree, from));
        reveal(is_listed_child);
        let at = choose|at: int| 0 <= at < count && (#[trigger] tree[0].children@[at]) == from;
        assert(tree[0].children@[at] == at + 1);
        lemma_child_hits_itself(tree, from, count);
    } else {
        assert forall|k: int| 0 <= k < count implies on_path(
            tree,
            from,
            (#[trigger] tree[0].children@[k]) as int,
        ) == on_path(tree, parent, tree[0].children@[k] as int) by {
            let child = tree[0].children@[k] as int;
            assert(tree[child].parent == Some(0usize));
        }
        lemma_same_hits(tree, from, parent, count);
        lemma_one_root_child_on_path(tree, parent);
    }
}

/// One if the playout that started at the node `playout.0` and named the winner
/// `playout.1` counts for `node`: the node lies on the way up from where it started and,
/// where wins are counted, the winner is `player`.
pub open spec fn playout_counts(
    tree: Seq<MCTSNode>,
    playout: (int, Option<SnakeId>),
    node: int,
    player: SnakeId,
    of_wins: bool,
) -> int {
    if on_path(tree, playout.0, node) && (!of_wins || playout.1 == Some(player)) {
        1
    } else {
        0
    }
}

/// How many of `playouts` count for `node`.
pub open spec fn playouts_through(
    tree: Seq<MCTSNode>,
    playouts: Seq<(int, Option<SnakeId>)>,
    node: int,
    player: SnakeId,
    of_wins: bool,
) -> int
    decreases playouts.len(),
{
    if playouts.len() == 0 {
        0
    } else {
        playouts_through(tree, playouts.drop_last(), node, player, of_wins) + playout_counts(
            tree,
            playouts.last(),
            node,
            player,
            of_wins,
        )
    }
}

/// Whether the counts of `tree` are those of `playouts` on top of what the root held
/// before: each playout started at a node of the tree and named a winner that a playout
/// from that node's board can name; the visits of a node count the playouts that started
/// at or below it, and its wins count those of them that `player` won.
#[verifier::opaque]
pub open spec fn counts_playouts(
    tree: Seq<MCTSNode>,
    root_visits: int,
    root_wins: int,
    playouts: Seq<(int, Option<SnakeId>)>,
    player: SnakeId,
) -> bool {
    &&& forall|k: int|
        0 <= k < playouts.len() ==> 0 <= (#[trigger] playouts[k]).0 < tree.len() && is_played_out(
            tree[playouts[k].0].state,
            playouts[k].1,
        )
    &&& forall|i: int|
        0 <= i < tree.len() ==> (#[trigger] tree[i]).visits == playouts_through(
            tree,
            playouts,
            i,
            player,
            false,
        ) + if i == 0 {
            root_visits
        } else {
            0
        }
    &&& forall|i: int|
        0 <= i < tree.len() ==> (#[trigger] tree[i]).wins == playouts_through(
            tree,
            playouts,
            i,
            player,
            true,
        ) + if i == 0 {
            root_wins
        } else {
            0
        }
}

/// The way up from a node stays the same while the parents of the nodes stay the same.
proof fn lemma_on_path_stays(before: Seq<MCTSNode>, after: Seq<MCTSNode>, from: int, node: int)
    requires
        before.len() <= after.len(),
        from < before.len(),
        forall|i: int| 0 <= i < before.len() ==> (#[trigger] after[i]).parent == before[i].parent,
    ensures
        on_path(after, from, node) == on_path(before, from, node),
    decreases from,
{
    if 0 <= from && node != from && before[from].parent is Some && before[from].parent->0 < from {
        lemma_on_path_stays(before, after, before[from].parent->0 as int, node);
    }
}

/// What playouts count for a node stays the same while the parents of the nodes stay the
/// same.
proof fn lemma_playouts_stay(
    before: Seq<MCTSNode>,
    after: Seq<MCTSNode>,
    playouts: Seq<(int, Option<SnakeId>)>,
    node: int,
    player: SnakeId,
    of_wins: bool,
)
    requires
        before.len() <= after.len(),
        forall|i: int| 0 <= i < before.len() ==> (#[trigger] after[i]).parent == before[i].parent,
        forall|k: int| 0 <= k < playouts.len() ==> (#[trigger] playouts[k]).0 < before.len(),
    ensures
        playouts_through(after, playouts, node, player, of_wins) == playouts_through(
            before,
            playouts,
            node,
            player,
            of_wins,
        ),
    decreases playouts.len(),
{
    if playouts.len() > 0 {
        let earlier = playouts.drop_last();
        assert forall|k: int| 0 <= k < earlier.len() implies (#[trigger] earlier[k]).0
            < before.len() by {
            assert(earlier[k] == playouts[k]);
        }
        lemma_playouts_stay(before, after, earlier, node, player, of_wins);
        assert(playouts.last() == playouts[playouts.len() - 1]);
        lemma_on_path_stays(before, after, playouts.last().0, node);
    }
}

/// Playouts count nothing for a node that comes after all the nodes they started at.
proof fn lemma_playouts_miss_later_nodes(
    tree: Seq<MCTSNode>,
    playouts: Seq<(int, Option<SnakeId>)>,
    node: int,
    player: SnakeId,
    of_wins: bool,
)
    requires
        forall|k: int| 0 <= k < playouts.len() ==> (#[trigger] playouts[k]).0 < node,
    ensures
        playouts_through(tree, playouts, node, player, of_wins) == 0,
    decreases playouts.len(),
{
    if playouts.len() > 0 {
        let earlier = playouts.drop_last();
        assert forall|k: int| 0 <= k < earlier.len() implies (#[trigger] earlier[k]).0 < node by {
            assert(earlier[k] == playouts[k]);
        }
        lemma_playouts_miss_later_nodes(tree, earlier, node, player, of_wins);
        assert(playouts.last() == playouts[playouts.len() - 1]);
        if on_path(tree, playouts.last().0, node) {
            lemma_path_goes_back(tree, playouts.last().0, node);
        }
    }
}

/// A root alone counts no playouts.
proof fn lemma_no_playouts(tree: Seq<MCTSNode>, player: SnakeId)
    requires
        tree.len() == 1,
    ensures
        counts_playouts(
            tree,
            tree[0].visits as int,
            tree[0].wins as int,
            Seq::empty(),
            player,
        ),
{
    reveal(counts_playouts);
    let none = Seq::<(int, Option<SnakeId>)>::empty();
    assert(playouts_through(tree, none, 0, player, false) == 0);
    assert(playouts_through(tree, none, 0, player, true) == 0);
}

/// An expansion keeps what the playouts count: the nodes it adds were never visited.
proof fn lemma_expansion_keeps_playouts(
    before: Seq<MCTSNode>,
    after: Seq<MCTSNode>,
    root_visits: int,
    root_wins: int,
    playouts: Seq<(int, Option<SnakeId>)>,
    player: SnakeId,
)
    requires
        counts_playouts(before, root_visits, root_wins, playouts, player),
        1 <= before.len() <= after.len(),
        forall|i: int|
            0 <= i < before.len() ==> {
                &&& (#[trigger] after[i]).parent == before[i].parent
                &&& after[i].state == before[i].state
                &&& after[i].visits == before[i].visits
                &&& after[i].wins == before[i].wins
            },
        forall|i: int|
            before.len() <= i < after.len() ==> (#[trigger] after[i]).visits == 0 && after[i].wins
                == 0,
    ensures
        counts_playouts(after, root_visits, root_wins, playouts, player),
{
    reveal(counts_playouts);
    assert forall|k: int| 0 <= k < playouts.len() implies 0 <= (#[trigger] playouts[k]).0
        < after.len() && is_played_out(after[playouts[k].0].state, playouts[k].1) by {
        assert(after[playouts[k].0].state == before[playouts[k].0].state);
    }
    assert forall|i: int| 0 <= i < after.len() implies (#[trigger] after[i]).visits
        == playouts_through(after, playouts, i, player, false) + if i == 0 {
        root_visits
    } else {
        0
    } by {
        if i < before.len() {
            lemma_playouts_stay(before, after, playouts, i, player, false);
            assert(after[i].visits == before[i].visits);
        } else {
            lemma_playouts_miss_later_nodes(after, playouts, i, player, false);
        }
    }
    assert forall|i: int| 0 <= i < after.len() implies (#[trigger] after[i]).wins
        == playouts_through(after, playouts, i, player, true) + if i == 0 {
        root_wins
    } else {
        0
    } by {
        if i < before.len() {
            lemma_playouts_stay(before, after, playouts, i, player, true);
            assert(after[i].wins == before[i].wins);
        } else {
            lemma_playouts_miss_later_nodes(after, playouts, i, player, true);
        }
    }
}

/// A walk up the tree after a playout adds that playout to what the tree counts.
proof fn lemma_walk_adds_a_playout(
    before: Seq<MCTSNode>,
    after: Seq<MCTSNode>,
    root_visits: int,
    root_wins: int,
    playouts: Seq<(int, Option<SnakeId>)>,
    player: SnakeId,
    from: int,
    winner: Option<SnakeId>,
)
    requires
        counts_playouts(before, root_visits, root_wins, playouts, player),
        after.len() == before.len(),
        0 <= from < before.len(),
        is_played_out(before[from].state, winner),
        forall|i: int|
            0 <= i < before.len() ==> {
                &&& (#[trigger] after[i]).parent == before[i].parent
                &&& after[i].state == before[i].state
                &&& after[i].visits == before[i].visits + one_if(on_path(before, from, i))
                &&& after[i].wins == before[i].wins + if winner == Some(player) {
                    one_if(on_path(before, from, i))
                } else {
                    0
                }
            },
    ensures
        counts_playouts(after, root_visits, root_wins, playouts.push((from, winner)), player),
{
    reveal(counts_playouts);
    let longer = playouts.push((from, winner));
    assert(longer.drop_last() =~= playouts);
    assert(longer.last() == (from, winner));
    assert forall|k: int| 0 <= k < longer.len() implies 0 <= (#[trigger] longer[k]).0
        < after.len() && is_played_out(after[longer[k].0].state, longer[k].1) by {
        if k < playouts.len() {
            assert(longer[k] == playouts[k]);
            assert(after[playouts[k].0].state == before[playouts[k].0].state);
        } else {
            assert(after[from].state == before[from].state);
        }
    }
    assert forall|i: int| 0 <= i < after.len() implies (#[trigger] after[i]).visits
        == playouts_through(after, longer, i, player, false) + if i == 0 {
        root_visits
    } else {
        0
    } by {
        lemma_playouts_stay(before, after, playouts, i, player, false);
        lemma_on_path_stays(before, after, from, i);
        assert(after[i].visits == before[i].visits + one_if(on_path(before, from, i)));
    }
    assert forall|i: int| 0 <= i < after.len() implies (#[trigger] after[i]).wins
        == playouts_through(after, longer, i, player, true) + if i == 0 {
        root_wins
    } else {
        0
    } by {
        lemma_playouts_stay(before, after, playouts, i, player, true);
        lemma_on_path_stays(before, after, from, i);
        assert(after[i].wins == before[i].wins + if winner == Some(player) {
            one_if(on_path(before, from, i))
        } else {
            0
        });
    }
}

/// Whether `tree` has grown from `earlier`: it holds the nodes of `earlier` first, each
/// with the board, the parent, the moves and the depth it had, and with the children it
/// had unless it had none.
pub open spec fn has_grown_from(tree: Seq<MCTSNode>, earlier: Seq<MCTSNode>) -> bool {
    &&& earlier.len() <= tree.len()
    &&& forall|i: int|
        0 <= i < earlier.len() ==> {
            &&& (#[trigger] tree[i]).state == earlier[i].state
            &&& tree[i].parent == earlier[i].parent
            &&& moves_view(tree[i].moves_made) == moves_view(earlier[i].moves_made)
            &&& tree[i].deep == earlier[i].deep
            &&& tree[i].children@ == earlier[i].children@ || earlier[i].children@.len() == 0
        }
}

/// Whether `walk` is the walk of the playout number `k` of a search that ended with
/// `tree`: `walk.0` is the tree as it stood before that playout, with the counts of the
/// playouts before it, and `walk.1` the leaf that the descent by `score` reached in it;
/// the playout started at that leaf where the search can never give it children, and
/// else at the first node that was added to the tree for it, a child of the leaf.
pub open spec fn is_walk_of<F: Fn(usize, usize, usize) -> i64>(
    score: F,
    tree: Seq<MCTSNode>,
    root_visits: int,
    root_wins: int,
    playouts: Seq<(int, Option<SnakeId>)>,
    player: SnakeId,
    k: int,
    walk: (Seq<MCTSNode>, int),
) -> bool {
    let stage = walk.0;
    let leaf = walk.1;
    let from = playouts[k].0;
    &&& has_grown_from(tree, stage)
    &&& counts_playouts(stage, root_visits, root_wins, playouts.take(k), player)
    &&& 0 <= leaf < stage.len()
    &&& is_descent(score, stage, leaf)
    &&& stage[leaf].children@.len() == 0 || game_over(snake_healths(stage[leaf].state))
    &&& 0 <= from < tree.len()
    &&& from == leaf ==> cannot_grow(tree[from].state)
    &&& from != leaf ==> from == stage.len() && tree[from].parent == Some(leaf as usize)
}

/// Whether `walks` holds the walk of each of `playouts`, in their order.
#[verifier::opaque]
pub open spec fn are_walks_of<F: Fn(usize, usize, usize) -> i64>(
    score: F,
    tree: Seq<MCTSNode>,
    root_visits: int,
    root_wins: int,
    playouts: Seq<(int, Option<SnakeId>)>,
    player: SnakeId,
    walks: Seq<(Seq<MCTSNode>, int)>,
) -> bool {
    &&& walks.len() == playouts.len()
    &&& forall|k: int|
        0 <= k < walks.len() ==> is_walk_of(
            score,
            tree,
            root_visits,
            root_wins,
            playouts,
            player,
            k,
            #[trigger] walks[k],
        )
}

/// A tree that has grown from a tree that has grown from a third has grown from the
/// third.
proof fn lemma_growth_goes_on(first: Seq<MCTSNode>, second: Seq<MCTSNode>, third: Seq<MCTSNode>)
    requires
        has_grown_from(second, first),
        has_grown_from(third, second),
    ensures
        has_grown_from(third, first),
{
    assert forall|i: int| 0 <= i < first.len() implies {
        &&& (#[trigger] third[i]).state == first[i].state
        &&& third[i].parent == first[i].parent
        &&& moves_view(third[i].moves_made) == moves_view(first[i].moves_made)
        &&& third[i].deep == first[i].deep
        &&& third[i].children@ == first[i].children@ || first[i].children@.len() == 0
    } by {
        assert(second[i].state == first[i].state);
    }
}

/// The walks of the playouts made stay their walks while the tree grows.
proof fn lemma_walks_stay<F: Fn(usize, usize, usize) -> i64>(
    score: F,
    before: Seq<MCTSNode>,
    after: Seq<MCTSNode>,
    root_visits: int,
    root_wins: int,
    playouts: Seq<(int, Option<SnakeId>)>,
    player: SnakeId,
    walks: Seq<(Seq<MCTSNode>, int)>,
)
    requires
        are_walks_of(score, before, root_visits, root_wins, playouts, player, walks),
        has_grown_from(after, before),
    ensures
        are_walks_of(score, after, root_visits, root_wins, playouts, player, walks),
{
    reveal(are_walks_of);
    assert forall|k: int| 0 <= k < walks.len() implies is_walk_of(
        score,
        after,
        root_visits,
        root_wins,
        playouts,
        player,
        k,
        #[trigger] walks[k],
    ) by {
        assert(is_walk_of(score, before, root_visits, root_wins, playouts, player, k, walks[k]));
        lemma_growth_goes_on(walks[k].0, before, after);
        let from = playouts[k].0;
        assert(after[from].state == before[from].state);
        assert(after[from].parent == before[from].parent);
    }
}

/// The walk of a playout that was just made joins the walks of those before it.
proof fn lemma_walk_is_added<F: Fn(usize, usize, usize) -> i64>(
    score: F,
    tree: Seq<MCTSNode>,
    root_visits: int,
    root_wins: int,
    playouts: Seq<(int, Option<SnakeId>)>,
    player: SnakeId,
    walks: Seq<(Seq<MCTSNode>, int)>,
    stage: Seq<MCTSNode>,
    leaf: int,
    from: int,
    winner: Option<SnakeId>,
)
    requires
        are_walks_of(score, tree, root_visits, root_wins, playouts, player, walks),
        has_grown_from(tree, stage),
        counts_playouts(stage, root_visits, root_wins, playouts, player),
        0 <= leaf < stage.len(),
        is_descent(score, stage, leaf),
        stage[leaf].children@.len() == 0 || game_over(snake_healths(stage[leaf].state)),
        0 <= from < tree.len(),
        from == leaf ==> cannot_grow(tree[from].state),
        from != leaf ==> from == stage.len() && tree[from].parent == Some(leaf as usize),
    ensures
        are_walks_of(
            score,
            tree,
            root_visits,
            root_wins,
            playouts.push((from, winner)),
            player,
            walks.push((stage, leaf)),
        ),
{
    reveal(are_walks_of);
    let more = playouts.push((from, winner));
    let longer = walks.push((stage, leaf));
    assert forall|k: int| 0 <= k < longer.len() implies is_walk_of(
        score,
        tree,
        root_visits,
        root_wins,
        more,
        player,
        k,
        #[trigger] longer[k],
    ) by {
        assert(more.take(k) =~= playouts.take(k));
        if k < walks.len() {
            assert(longer[k] == walks[k]);
            assert(more[k] == playouts[k]);
            assert(is_walk_of(score, tree, root_visits, root_wins, playouts, player, k, walks[k]));
        } else {
            assert(playouts.take(k) =~= playouts);
        }
    }
}

/// What holds of the tree of a search after `done` playouts: it is a tree as the search
/// grows it, with its counts in order, no node deeper than `deepest`, the children of
/// the root right after it, and the root's visits those of its children on top of what
/// it held before.
pub open spec fn is_searched(
    tree: Seq<MCTSNode>,
    root_state: Board,
    root_visits: int,
    done: int,
    deepest: int,
) -> bool {
    &&& is_grown(tree)
    &&& counts_in_order(tree)
    &&& tree[0].state == root_state
    &&& tree[0].visits == root_visits + done
    &&& forall|i: int| 0 <= i < tree.len() ==> (#[trigger] tree[i]).deep <= deepest
    &&& root_children_first(tree)
    &&& tree[0].children@.len() == 0 ==> tree.len() == 1
    &&& done > 0 && tree[0].children@.len() == 0 ==> cannot_grow(root_state)
    &&& tree[0].children@.len() > 0 ==> tree[0].visits == root_visits + children_visits(
        tree,
        tree[0].children@.len() as int,
    )
}

/// Whether the node `from` is where the next playout of a search starts: the first child
/// of the root or a node below, or the root itself where the search can never give it
/// children.
pub open spec fn starts_playout(tree: Seq<MCTSNode>, from: int) -> bool {
    &&& 0 <= from < tree.len()
    &&& tree[0].children@.len() > 0 ==> from >= 1
    &&& tree[0].children@.len() == 0 ==> cannot_grow(tree[0].state)
}

/// A root without parent and children, alone, is the tree of a search before its first
/// playout.
proof fn lemma_root_alone_is_searched(tree: Seq<MCTSNode>)
    requires
        tree.len() == 1,
        tree[0].parent is None,
        tree[0].children@.len() == 0,
        tree[0].wins <= tree[0].visits,
    ensures
        is_searched(tree, tree[0].state, tree[0].visits as int, 0, tree[0].deep as int),
{
    reveal(is_listed_child);
}

/// An expansion of a leaf keeps the tree the tree of a search, one level deeper at most.
proof fn lemma_expansion_keeps_search(
    before: Seq<MCTSNode>,
    after: Seq<MCTSNode>,
    node: int,
    root_state: Board,
    root_visits: int,
    done: int,
    deepest: int,
)
    requires
        is_searched(before, root_state, root_visits, done, deepest),
        done >= 0,
        0 <= node < before.len(),
        before[node].children@.len() == 0,
        !game_over(snake_healths(before[node].state)),
        before[node].state.spec_can_simulate(),
        is_grown(after),
        is_expansion_of(after, node),
        after.len() >= before.len(),
        forall|i: int| 0 <= i < before.len() && i != node ==> (#[trigger] after[i]) == before[i],
        after[node].state == before[node].state,
        after[node].parent == before[node].parent,
        after[node].moves_made == before[node].moves_made,
        after[node].wins == before[node].wins,
        after[node].visits == before[node].visits,
        after[node].deep == before[node].deep,
        after[node].children@.len() == after.len() - before.len(),
        forall|k: int|
            0 <= k < after.len() - before.len() ==> #[trigger] after[node].children@[k]
                == before.len() + k,
        forall|i: int|
            before.len() <= i < after.len() ==> {
                &&& (#[trigger] after[i]).parent == Some(node as usize)
                &&& after[i].wins == 0
                &&& after[i].visits == 0
                &&& after[i].deep == before[node].deep + 1
            },
    ensures
        is_searched(after, root_state, root_visits, done, deepest + 1),
        has_grown_from(after, before),
        starts_playout(
            after,
            if after[node].children@.len() > 0 {
                after[node].children@[0] as int
            } else {
                node
            },
        ),
        after[node].children@.len() == 0 ==> cannot_grow(after[node].state),
        after[node].children@.len() > 0 ==> after[node].children@[0] == before.len()
            && after[before.len() as int].parent == Some(node as usize),
{
    lemma_expansion_counts(after, node);
    if after[node].children@.len() > 0 {
        assert(after[node].children@[0] == before.len() + 0);
    }
    assert forall|i: int| 0 <= i < before.len() implies {
        &&& (#[trigger] after[i]).state == before[i].state
        &&& after[i].parent == before[i].parent
        &&& moves_view(after[i].moves_made) == moves_view(before[i].moves_made)
        &&& after[i].deep == before[i].deep
        &&& after[i].children@ == before[i].children@ || before[i].children@.len() == 0
    } by {
        if i != node {
            assert(after[i] == before[i]);
        }
    }
    assert forall|i: int| 0 <= i < after.len() implies (#[trigger] after[i]).wins
        <= after[i].visits && after[i].visits <= after[0].visits by {
        if i < before.len() {
            assert(before[i].wins <= before[i].visits && before[i].visits <= before[0].visits);
        }
    }
    assert forall|i: int| 0 <= i < after.len() implies (#[trigger] after[i]).deep <= deepest
        + 1 by {
        if i < before.len() {
            assert(before[i].deep <= deepest);
        } else {
            assert(before[node].deep <= deepest);
        }
    }
    let count = after[0].children@.len() as int;
    if node == 0 {
        lemma_expansion_counts(after, 0);
        if count > 0 {
            assert forall|k: int| 0 <= k < count implies after[(
            #[trigger] after[0].children@[k]) as int].visits == 0 by {
                assert(after[0].children@[k] == before.len() + k);
            }
            lemma_children_visits_none(after, count);
            assert(!cannot_grow(root_state));
            assert(done == 0);
            assert(after[0].children@[0] == before.len() + 0);
        }
    } else {
        assert(after[0] == before[0]);
        assert forall|k: int| 0 <= k < count implies after[(
        #[trigger] before[0].children@[k]) as int].visits
            == before[before[0].children@[k] as int].visits by {
            let child = before[0].children@[k] as int;
            assert(0 < child < before.len());
            if child != node {
                assert(after[child] == before[child]);
            }
        }
        lemma_children_visits_same(before, after, count);
        if after[node].children@.len() > 0 {
            assert(after[node].children@[0] == before.len() + 0);
        }
    }
}

/// Where the leaf that a search has walked to is not expanded, the next playout starts
/// at that leaf.
proof fn lemma_search_without_expansion(
    tree: Seq<MCTSNode>,
    leaf: int,
    root_state: Board,
    root_visits: int,
    done: int,
    deepest: int,
)
    requires
        is_searched(tree, root_state, root_visits, done, deepest),
        0 <= leaf < tree.len(),
        tree[leaf].children@.len() == 0 || game_over(snake_healths(tree[leaf].state)),
        game_over(snake_healths(tree[leaf].state)) || !tree[leaf].state.spec_can_simulate(),
    ensures
        is_searched(tree, root_state, root_visits, done, deepest + 1),
        has_grown_from(tree, tree),
        tree[leaf].children@.len() == 0,
        cannot_grow(tree[leaf].state),
        starts_playout(tree, leaf),
{
}

/// The counts of a tree with its counts in order have room for one more walk up from a
/// node, while the root has room for one more visit.
proof fn lemma_walk_fits(tree: Seq<MCTSNode>, from: int)
    requires
        is_tree(tree),
        counts_in_order(tree),
        0 <= from < tree.len(),
        tree[0].visits < usize::MAX,
    ensures
        forall|i: int|
            0 <= i < tree.len() ==> (#[trigger] tree[i]).visits + walk_count(
                tree,
                from,
                i,
                tree.len(),
            ) <= usize::MAX && tree[i].wins + walk_count(tree, from, i, tree.len())
                <= usize::MAX,
{
    assert forall|i: int| 0 <= i < tree.len() implies (#[trigger] tree[i]).visits + walk_count(
        tree,
        from,
        i,
        tree.len(),
    ) <= usize::MAX && tree[i].wins + walk_count(tree, from, i, tree.len()) <= usize::MAX by {
        lemma_walk_in_a_tree(tree, from, i, tree.len());
        assert(tree[i].wins <= tree[i].visits && tree[i].visits <= tree[0].visits);
    }
}

/// A walk up from where a playout started keeps the tree the tree of a search, with one
/// more playout done. It adds one visit to each node on its way, and one win where the
/// winner is `player`.
proof fn lemma_walk_keeps_search(
    before: Seq<MCTSNode>,
    after: Seq<MCTSNode>,
    from: int,
    winner: Option<SnakeId>,
    player: SnakeId,
    root_state: Board,
    root_visits: int,
    done: int,
    deepest: int,
)
    requires
        is_searched(before, root_state, root_visits, done, deepest),
        starts_playout(before, from),
        after.len() == before.len(),
        forall|i: int|
            0 <= i < before.len() ==> {
                &&& same_but_counts(#[trigger] after[i], before[i])
                &&& after[i].visits == before[i].visits + walk_count(
                    before,
                    from,
                    i,
                    before.len(),
                )
                &&& after[i].wins == before[i].wins + if winner == Some(player) {
                    walk_count(before, from, i, before.len())
                } else {
                    0
                }
            },
    ensures
        is_searched(after, root_state, root_visits, done + 1, deepest),
        has_grown_from(after, before),
        forall|i: int|
            0 <= i < before.len() ==> {
                &&& (#[trigger] after[i]).parent == before[i].parent
                &&& after[i].state == before[i].state
                &&& after[i].visits == before[i].visits + one_if(on_path(before, from, i))
                &&& after[i].wins == before[i].wins + if winner == Some(player) {
                    one_if(on_path(before, from, i))
                } else {
                    0
                }
            },
{
    lemma_root_on_every_path(before, from);
    assert forall|i: int| 0 <= i < before.len() implies {
        &&& (#[trigger] after[i]).state == before[i].state
        &&& after[i].parent == before[i].parent
        &&& moves_view(after[i].moves_made) == moves_view(before[i].moves_made)
        &&& after[i].deep == before[i].deep
        &&& after[i].children@ == before[i].children@ || before[i].children@.len() == 0
    } by {
        assert(same_but_counts(after[i], before[i]));
    }
    assert forall|i: int| 0 <= i < after.len() implies walk_count(before, from, i, before.len())
        == one_if(on_path(before, from, i)) by {
        lemma_walk_in_a_tree(before, from, i, before.len());
    }
    lemma_counts_keep_growth(before, after);
    assert forall|i: int| 0 <= i < before.len() implies {
        &&& (#[trigger] after[i]).parent == before[i].parent
        &&& after[i].state == before[i].state
        &&& after[i].visits == before[i].visits + one_if(on_path(before, from, i))
        &&& after[i].wins == before[i].wins + if winner == Some(player) {
            one_if(on_path(before, from, i))
        } else {
            0
        }
    } by {
        assert(same_but_counts(after[i], before[i]));
    }
    assert(same_but_counts(after[0], before[0]));
    assert forall|i: int| 0 <= i < after.len() implies (#[trigger] after[i]).wins
        <= after[i].visits && after[i].visits <= after[0].visits by {
        assert(same_but_counts(after[i], before[i]));
        assert(before[i].wins <= before[i].visits && before[i].visits <= before[0].visits);
    }
    assert forall|i: int| 0 <= i < after.len() implies (#[trigger] after[i]).deep <= deepest by {
        assert(same_but_counts(after[i], before[i]));
        assert(before[i].deep <= deepest);
    }
    assert forall|k: int| 0 <= k < after[0].children@.len() implies (
    #[trigger] after[0].children@[k]) == k + 1 by {
        assert(before[0].children@[k] == k + 1);
    }
    let count = after[0].children@.len() as int;
    if count > 0 {
        lemma_children_visits_after_walk(before, after, from, count);
        lemma_one_root_child_on_path(before, from);
    }
}

/// Grows a search tree from `root` by `iterations` playouts for the side `player_id`.
/// Each playout walks down to a leaf by `score`, gives the leaf its children unless its
/// game is over, plays from the first child, or from the leaf itself where it got none,
/// to the end by chance, and records the result on the way back up to the root.
pub fn mcts<F: Fn(usize, usize, usize) -> i64>(
    root: MCTSNode,
    player_id: &SnakeId,
    iterations: usize,
    score: &F,
) -> (tree: Vec<MCTSNode>)
    requires
        root.parent is None,
        root.children@.len() == 0,
        root.wins <= root.visits,
        root.visits + iterations <= usize::MAX,
        root.deep + iterations <= usize::MAX,
        forall|wins: usize, visits: usize, parent_visits: usize|
            call_requires(*score, (wins, visits, parent_visits)),
    ensures
        is_grown(tree@),
        counts_in_order(tree@),
        tree@[0].state == root.state,
        tree@[0].moves_made == root.moves_made,
        tree@[0].deep == root.deep,
        tree@[0].visits == root.visits + iterations,
        forall|i: int| 0 <= i < tree@.len() ==> (#[trigger] tree@[i]).deep <= root.deep + iterations,
        root_children_first(tree@),
        iterations >= 1 && !game_over(snake_healths(root.state)) && root.state.spec_can_simulate()
            ==> is_expansion_of(tree@, 0),
        iterations >= 1 && !cannot_grow(root.state) ==> tree@[0].children@.len() > 0,
        tree@[0].children@.len() > 0 ==> children_visits(
            tree@,
            tree@[0].children@.len() as int,
        ) == iterations,
        exists|playouts: Seq<(int, Option<SnakeId>)>, walks: Seq<(Seq<MCTSNode>, int)>|
            playouts.len() == iterations && #[trigger] counts_playouts(
                tree@,
                root.visits as int,
                root.wins as int,
                playouts,
                *player_id,
            ) && #[trigger] are_walks_of(
                *score,
                tree@,
                root.visits as int,
                root.wins as int,
                playouts,
                *player_id,
                walks,
            ),
{
    let ghost root_visits = root.visits;
    let ghost root_wins = root.wins;
    let ghost mut playouts: Seq<(int, Option<SnakeId>)> = Seq::empty();
    let ghost mut walks: Seq<(Seq<MCTSNode>, int)> = Seq::empty();
    let ghost root_deep = root.deep;
    let ghost root_state = root.state;
    let ghost root_moves = root.moves_made;
    let mut tree: Vec<MCTSNode> = Vec::new();
    tree.push(root);
    proof {
        lemma_no_playouts(tree@, *player_id);
        lemma_root_alone_is_searched(tree@);
        assert(are_walks_of(
            *score,
            tree@,
            root_visits as int,
            root_wins as int,
            playouts,
            *player_id,
            walks,
        )) by {
            reveal(are_walks_of);
        }
    }
    let mut done: usize = 0;
    while done < iterations
        invariant
            done <= iterations,
            root_visits + iterations <= usize::MAX,
            root_deep + iterations <= usize::MAX,
            forall|wins: usize, visits: usize, parent_visits: usize|
                call_requires(*score, (wins, visits, parent_visits)),
            is_searched(tree@, root_state, root_visits as int, done as int, root_deep + done),
            tree@[0].moves_made == root_moves,
            tree@[0].deep == root_deep,
            playouts.len() == done,
            counts_playouts(tree@, root_visits as int, root_wins as int, playouts, *player_id),
            are_walks_of(
                *score,
                tree@,
                root_visits as int,
                root_wins as int,
                playouts,
                *player_id,
                walks,
            ),
        decreases iterations - done,
    {
        let ghost started = tree@;
        let mut node_index = select_leaf(&tree, score);
        let ghost leaf = node_index as int;
        if !board_is_over(&tree[node_index].state) && tree[node_index].state.can_simulate() {
            let ghost grown_from = tree@;
            expand(&mut tree, node_index);
            proof {
                lemma_expansion_keeps_playouts(
                    grown_from,
                    tree@,
                    root_visits as int,
                    root_wins as int,
                    playouts,
                    *player_id,
                );
                lemma_expansion_keeps_search(
                    grown_from,
                    tree@,
                    node_index as int,
                    root_state,
                    root_visits as int,
                    done as int,
                    root_deep + done,
                );
            }
        } else {
            proof {
                lemma_search_without_expansion(
                    tree@,
                    node_index as int,
                    root_state,
                    root_visits as int,
                    done as int,
                    root_deep + done,
                );
            }
        }
        if tree[node_index].children.len() != 0 {
            node_index = tree[node_index].children[0];
        }
        let winner = run_simulation(tree[node_index].state);
        let ghost played = tree@;
        proof {
            lemma_walk_fits(played, node_index as int);
            lemma_walks_stay(
                *score,
                started,
                played,
                root_visits as int,
                root_wins as int,
                playouts,
                *player_id,
                walks,
            );
            lemma_walk_is_added(
                *score,
                played,
                root_visits as int,
                root_wins as int,
                playouts,
                *player_id,
                walks,
                started,
                leaf,
                node_index as int,
                winner,
            );
        }
        backpropagate(&mut tree, node_index, winner, player_id);
        proof {
            lemma_walk_keeps_search(
                played,
                tree@,
                node_index as int,
                winner,
                *player_id,
                root_state,
                root_visits as int,
                done as int,
                root_deep + done + 1,
            );
            lemma_walk_adds_a_playout(
                played,
                tree@,
                root_visits as int,
                root_wins as int,
                playouts,
                *player_id,
                node_index as int,
                winner,
            );
            playouts = playouts.push((node_index as int, winner));
            walks = walks.push((started, leaf));
            lemma_walks_stay(
                *score,
                played,
                tree@,
                root_visits as int,
                root_wins as int,
                playouts,
                *player_id,
                walks,
            );
        }
        done += 1;
    }
    proof {
        if iterations >= 1 && !game_over(snake_healths(root_state))
            && root_state.spec_can_simulate() && tree@[0].children@.len() == 0 {
            lemma_nothing_to_expand(tree@, 0);
            assert(is_expansion_of(tree@, 0));
        }
    }
    tree
}

/// Whether two nodes hold the same values.
pub open spec fn same_node(one: MCTSNode, other: MCTSNode) -> bool {
    &&& one.state == other.state
    &&& one.parent == other.parent
    &&& one.children@ == other.children@
    &&& moves_view(one.moves_made) == moves_view(other.moves_made)
    &&& one.wins == other.wins
    &&& one.visits == other.visits
    &&& one.deep == other.deep
}

/// The child of the root with the greatest win rate, the first of them where several have
/// it; the root itself where it has no children. No exploration bonus takes part.
pub fn best_node_from_mcts(tree: &Vec<MCTSNode>) -> (best: MCTSNode)
    requires
        tree@.len() >= 1,
        children_in(tree@[0].children@, tree@),
    ensures
        tree@[0].children@.len() == 0 ==> same_node(best, tree@[0]),
        tree@[0].children@.len() > 0 ==> exists|at: int|
            #[trigger] is_first_best_rate(tree@[0].children@, tree@, at) && same_node(
                best,
                tree@[tree@[0].children@[at] as int],
            ),
{
    let best_move_index = best_child(&tree[0], tree);
    tree[best_move_index].clone()
}

/// The root of `tree` and, after it, its children in their order: what one search tree
/// hands over for merging.
pub fn root_and_children(tree: &Vec<MCTSNode>) -> (kept: Vec<MCTSNode>)
    requires
        tree@.len() >= 1,
        children_in(tree@[0].children@, tree@),
    ensures
        kept@.len() == tree@[0].children@.len() + 1,
        same_node(kept@[0], tree@[0]),
        forall|k: int|
            0 <= k < tree@[0].children@.len() ==> same_node(
                #[trigger] kept@[k + 1],
                tree@[tree@[0].children@[k] as int],
            ),
{
    let mut kept: Vec<MCTSNode> = Vec::new();
    kept.push(tree[0].clone());
    let children = &tree[0].children;
    let mut k: usize = 0;
    while k < children.len()
        invariant
            k <= children@.len(),
            children@ == tree@[0].children@,
            children_in(children@, tree@),
            kept@.len() == k + 1,
            same_node(kept@[0], tree@[0]),
            forall|j: int|
                0 <= j < k ==> same_node(#[trigger] kept@[j + 1], tree@[children@[j] as int]),
        decreases children@.len() - k,
    {
        kept.push(tree[children[k]].clone());
        k += 1;
    }
    kept
}

/// Whether two joint moves are the same list of snakes and moves.
fn same_moves(one: &Option<Vec<(SnakeId, Move)>>, other: &Option<Vec<(SnakeId, Move)>>) -> (same:
    bool)
    ensures
        same == (moves_view(*one) == moves_view(*other)),
{
    match one {
        Some(left) => {
            match other {
                Some(right) => {
                    if left.len() != right.len() {
                        assert(left@.len() != right@.len());
                        return false;
                    }
                    let mut i: usize = 0;
                    while i < left.len()
                        invariant
                            i <= left@.len(),
                            left@.len() == right@.len(),
                            left@.take(i as int) == right@.take(i as int),
                            moves_view(*one) == Some(left@),
                            moves_view(*other) == Some(right@),
                        decreases left@.len() - i,
                    {
                        if !(left[i].0 == right[i].0 && left[i].1 == right[i].1) {
                            assert(left@[i as int] != right@[i as int]);
                            assert(left@ != right@);
                            return false;
                        }
                        assert(left@.take(i + 1) =~= left@.take(i as int).push(left@[i as int]));
                        assert(right@.take(i + 1) =~= right@.take(i as int).push(
                            right@[i as int],
                        ));
                        i += 1;
                    }
                    assert(left@.take(left@.len() as int) =~= left@);
                    assert(right@.take(right@.len() as int) =~= right@);
                    true
                },
                None => false,
            }
        },
        None => other.is_none(),
    }
}

/// The visits, or with `of_wins` the wins, that the first `upto` children of the root of
/// `tree` count under the joint move `label`.
pub open spec fn counted_in_tree(
    tree: Seq<MCTSNode>,
    label: Option<Seq<(SnakeId, Move)>>,
    upto: int,
    of_wins: bool,
) -> int
    decreases upto,
{
    if upto <= 0 {
        0
    } else {
        let child = tree[tree[0].children@[upto - 1] as int];
        counted_in_tree(tree, label, upto - 1, of_wins) + if moves_view(child.moves_made)
            == label {
            if of_wins {
                child.wins as int
            } else {
                child.visits as int
            }
        } else {
            0
        }
    }
}

/// The visits, or wins, that the children of the roots of the trees `1..upto` count under
/// the joint move `label`.
pub open spec fn counted_in_trees(
    trees: Seq<Vec<MCTSNode>>,
    label: Option<Seq<(SnakeId, Move)>>,
    upto: int,
    of_wins: bool,
) -> int
    decreases upto,
{
    if upto <= 1 {
        0
    } else {
        counted_in_trees(trees, label, upto - 1, of_wins) + counted_in_tree(
            trees[upto - 1]@,
            label,
            trees[upto - 1]@[0].children@.len() as int,
            of_wins,
        )
    }
}

/// Counts never go down as more children are counted.
proof fn lemma_counted_in_tree_grows(
    tree: Seq<MCTSNode>,
    label: Option<Seq<(SnakeId, Move)>>,
    fewer: int,
    more: int,
    of_wins: bool,
)
    requires
        fewer <= more,
    ensures
        0 <= counted_in_tree(tree, label, fewer, of_wins) <= counted_in_tree(
            tree,
            label,
            more,
            of_wins,
        ),
    decreases more,
{
    if more > 0 {
        if fewer < more {
            lemma_counted_in_tree_grows(tree, label, fewer, more - 1, of_wins);
        } else {
            lemma_counted_in_tree_grows(tree, label, fewer - 1, more - 1, of_wins);
        }
    }
}

/// Counts never go down as more trees are counted.
proof fn lemma_counted_in_trees_grows(
    trees: Seq<Vec<MCTSNode>>,
    label: Option<Seq<(SnakeId, Move)>>,
    fewer: int,
    more: int,
    of_wins: bool,
)
    requires
        fewer <= more,
    ensures
        0 <= counted_in_trees(trees, label, fewer, of_wins) <= counted_in_trees(
            trees,
            label,
            more,
            of_wins,
        ),
    decreases more,
{
    if more > 1 {
        lemma_counted_in_tree_grows(
            trees[more - 1]@,
            label,
            0,
            trees[more - 1]@[0].children@.len() as int,
            of_wins,
        );
        if fewer < more {
            lemma_counted_in_trees_grows(trees, label, fewer, more - 1, of_wins);
        } else {
            lemma_counted_in_trees_grows(trees, label, fewer - 1, more - 1, of_wins);
        }
    }
}

/// Whether the trees can be merged: each has a root whose children are nodes of the tree,
/// and the first tree names no child twice.
pub open spec fn can_merge(trees: Seq<Vec<MCTSNode>>) -> bool {
    &&& trees.len() >= 1
    &&& forall|t: int|
        0 <= t < trees.len() ==> (#[trigger] trees[t])@.len() >= 1 && children_in(
            trees[t]@[0].children@,
            trees[t]@,
        )
    &&& trees[0]@[0].children@.no_duplicates()
}

/// The count that the node `at` of the first tree has after merging: a child of the root
/// adds what the children of the other roots count under its own joint move.
pub open spec fn merged_count(trees: Seq<Vec<MCTSNode>>, at: int, of_wins: bool) -> int {
    let node = trees[0]@[at];
    let own = if of_wins {
        node.wins as int
    } else {
        node.visits as int
    };
    if trees[0]@[0].children@.contains(at as usize) {
        own + counted_in_trees(trees, moves_view(node.moves_made), trees.len() as int, of_wins)
    } else {
        own
    }
}

/// Whether `merged` is the first tree with the counts of all trees merged into the
/// children of its root.
pub open spec fn is_merged(trees: Seq<Vec<MCTSNode>>, merged: Seq<MCTSNode>) -> bool {
    &&& merged.len() == trees[0]@.len()
    &&& forall|i: int|
        0 <= i < merged.len() ==> {
            &&& (#[trigger] merged[i]).state == trees[0]@[i].state
            &&& merged[i].parent == trees[0]@[i].parent
            &&& merged[i].children@ == trees[0]@[i].children@
            &&& moves_view(merged[i].moves_made) == moves_view(trees[0]@[i].moves_made)
            &&& merged[i].deep == trees[0]@[i].deep
            &&& merged[i].visits == merged_count(trees, i, false)
            &&& merged[i].wins == merged_count(trees, i, true)
        }
}

/// Merges search trees that were grown from the same root: each child of the first root
/// adds the visits and wins of the children of the other roots that were reached by the
/// same joint move. Nothing comes back where a count would not fit the machine's numbers.
pub fn merge_root_children(trees: &Vec<Vec<MCTSNode>>) -> (merged: Option<Vec<MCTSNode>>)
    requires
        can_merge(trees@),
    ensures
        merged is Some ==> is_merged(trees@, merged->0@),
        merged is None ==> exists|i: int, of_wins: bool|
            0 <= i < trees@[0]@.len() && #[trigger] merged_count(trees@, i, of_wins) > usize::MAX,
{
    let first = &trees[0];
    let mut result_tree: Vec<MCTSNode> = Vec::new();
    let mut n: usize = 0;
    while n < first.len()
        invariant
            n <= first@.len(),
            result_tree@.len() == n,
            forall|i: int| 0 <= i < n ==> same_node(#[trigger] result_tree@[i], first@[i]),
        decreases first@.len() - n,
    {
        result_tree.push(first[n].clone());
        n += 1;
    }
    let children_index = &first[0].children;
    let ghost all = trees@;
    let mut a: usize = 0;
    while a < children_index.len()
        invariant
            a <= children_index@.len(),
            can_merge(all),
            all == trees@,
            first@ == all[0]@,
            children_index@ == first@[0].children@,
            result_tree@.len() == first@.len(),
            forall|i: int|
                0 <= i < result_tree@.len() ==> {
                    &&& (#[trigger] result_tree@[i]).state == first@[i].state
                    &&& result_tree@[i].parent == first@[i].parent
                    &&& result_tree@[i].children@ == first@[i].children@
                    &&& moves_view(result_tree@[i].moves_made) == moves_view(first@[i].moves_made)
                    &&& result_tree@[i].deep == first@[i].deep
                    &&& result_tree@[i].visits == if children_index@.take(a as int).contains(
                        i as usize,
                    ) {
                        merged_count(all, i, false)
                    } else {
                        first@[i].visits as int
                    }
                    &&& result_tree@[i].wins == if children_index@.take(a as int).contains(
                        i as usize,
                    ) {
                        merged_count(all, i, true)
                    } else {
                        first@[i].wins as int
                    }
                },
        decreases children_index@.len() - a,
    {
        let child_index = children_index[a];
        let ghost label = moves_view(first@[child_index as int].moves_made);
        let ghost seen = children_index@.take(a as int);
        assert(children_index@.contains(child_index));
        assert(!seen.contains(child_index)) by {
            if seen.contains(child_index) {
                let at = choose|at: int| 0 <= at < seen.len() && seen[at] == child_index;
                assert(children_index@[at] == children_index@[a as int]);
            }
        }
        let mut visits = result_tree[child_index].visits;
        let mut wins = result_tree[child_index].wins;
        let mut t: usize = 1;
        while t < trees.len()
            invariant
                1 <= t <= all.len(),
                can_merge(all),
                all == trees@,
                first@ == all[0]@,
                child_index < first@.len(),
                all[0]@[0].children@.contains(child_index),
                label == moves_view(first@[child_index as int].moves_made),
                label == moves_view(result_tree@[child_index as int].moves_made),
                result_tree@.len() == first@.len(),
                visits == first@[child_index as int].visits + counted_in_trees(
                    all,
                    label,
                    t as int,
                    false,
                ),
                wins == first@[child_index as int].wins + counted_in_trees(
                    all,
                    label,
                    t as int,
                    true,
                ),
            decreases all.len() - t,
        {
            let other_tree = &trees[t];
            let other_children = &other_tree[0].children;
            let mut j: usize = 0;
            while j < other_children.len()
                invariant
                    j <= other_children@.len(),
                    1 <= t < all.len(),
                    all == trees@,
                    other_tree@ == all[t as int]@,
                    other_children@ == other_tree@[0].children@,
                    children_in(other_children@, other_tree@),
                    child_index < result_tree@.len(),
                    first@ == all[0]@,
                    child_index < first@.len(),
                    all[0]@[0].children@.contains(child_index),
                    label == moves_view(first@[child_index as int].moves_made),
                    label == moves_view(result_tree@[child_index as int].moves_made),
                    visits == first@[child_index as int].visits + counted_in_trees(
                        all,
                        label,
                        t as int,
                        false,
                    ) + counted_in_tree(other_tree@, label, j as int, false),
                    wins == first@[child_index as int].wins + counted_in_trees(
                        all,
                        label,
                        t as int,
                        true,
                    ) + counted_in_tree(other_tree@, label, j as int, true),
                decreases other_children@.len() - j,
            {
                let other_child_node = &other_tree[other_children[j]];
                if same_moves(&result_tree[child_index].moves_made, &other_child_node.moves_made) {
                    if other_child_node.visits > usize::MAX - visits || other_child_node.wins
                        > usize::MAX - wins {
                        proof {
                            let of_wins = other_child_node.visits <= usize::MAX - visits;
                            lemma_counted_in_tree_grows(
                                other_tree@,
                                label,
                                j + 1,
                                other_children@.len() as int,
                                of_wins,
                            );
                            lemma_counted_in_trees_grows(
                                all,
                                label,
                                t + 1,
                                all.len() as int,
                                of_wins,
                            );
                            let in_tree = counted_in_tree(other_tree@, label, j + 1, of_wins);
                            let whole_tree = counted_in_tree(
                                other_tree@,
                                label,
                                other_children@.len() as int,
                                of_wins,
                            );
                            let before_tree = counted_in_trees(all, label, t as int, of_wins);
                            let with_tree = counted_in_trees(all, label, t + 1, of_wins);
                            let in_all = counted_in_trees(all, label, all.len() as int, of_wins);
                            let own = if of_wins {
                                first@[child_index as int].wins as int
                            } else {
                                first@[child_index as int].visits as int
                            };
                            assert(moves_view(other_child_node.moves_made) == label);
                            assert(own + before_tree + in_tree > usize::MAX);
                            assert(in_tree <= whole_tree);
                            assert(with_tree == before_tree + whole_tree);
                            assert(with_tree <= in_all);
                            assert(merged_count(all, child_index as int, of_wins) == own + in_all);
                        }
                        return None;
                    }
                    visits += other_child_node.visits;
                    wins += other_child_node.wins;
                }
                j += 1;
            }
            t += 1;
        }
        let ghost earlier = result_tree@;
        assert(visits == merged_count(all, child_index as int, false));
        assert(wins == merged_count(all, child_index as int, true));
        result_tree[child_index].visits = visits;
        result_tree[child_index].wins = wins;
        proof {
            let next = children_index@.take(a + 1);
            assert(next =~= seen.push(child_index));
            assert(next.contains(child_index)) by {
                assert(next[a as int] == child_index);
            }
            assert(result_tree@.len() == result_tree.len());
            assert forall|i: int| 0 <= i < result_tree@.len() implies {
                &&& (#[trigger] result_tree@[i]).visits == if next.contains(i as usize) {
                    merged_count(all, i, false)
                } else {
                    first@[i].visits as int
                }
                &&& result_tree@[i].wins == if next.contains(i as usize) {
                    merged_count(all, i, true)
                } else {
                    first@[i].wins as int
                }
            } by {
                crate::layout::lemma_holds_after_push(seen, child_index, i as usize);
                if i != child_index {
                    assert(result_tree@[i] == earlier[i]);
                } else {
                    assert(merged_count(all, i, false) == first@[i].visits + counted_in_trees(
                        all,
                        label,
                        all.len() as int,
                        false,
                    ));
                    assert(merged_count(all, i, true) == first@[i].wins + counted_in_trees(
                        all,
                        label,
                        all.len() as int,
                        true,
                    ));
                }
            }
        }
        a += 1;
    }
    proof {
        assert(children_index@.take(children_index@.len() as int) =~= children_index@);
    }
    Some(result_tree)
}

/// The moves of a joint move with the snakes they belong to: the label of the child that
/// an expansion makes for it.
pub open spec fn label_of(joint: [Move; 2]) -> Seq<(SnakeId, Move)> {
    seq![(SnakeId(0), joint[0]), (SnakeId(1), joint[1])]
}

/// The visits of a node, or with `of_wins` its wins.
pub open spec fn count_of(node: MCTSNode, of_wins: bool) -> int {
    if of_wins {
        node.wins as int
    } else {
        node.visits as int
    }
}

/// Whether `kept` is what a search hands over for merging after it expanded its root by
/// the joint moves `joint`: the root, and after it one child for each joint move, in
/// their order, labelled with the move.
pub open spec fn is_harvest(kept: Seq<MCTSNode>, joint: Seq<[Move; 2]>) -> bool {
    &&& kept.len() == joint.len() + 1
    &&& kept[0].children@.len() == joint.len()
    &&& forall|k: int|
        0 <= k < joint.len() ==> {
            &&& (#[trigger] kept[0].children@[k]) == k + 1
            &&& moves_view(kept[k + 1].moves_made) == Some(label_of(joint[k]))
        }
}

/// What the trees `0..upto` count together for the child of the joint move number `k`.
pub open spec fn counted_for(trees: Seq<Vec<MCTSNode>>, k: int, upto: int, of_wins: bool) -> int
    decreases upto,
{
    if upto <= 0 {
        0
    } else {
        counted_for(trees, k, upto - 1, of_wins) + count_of(trees[upto - 1]@[k + 1], of_wins)
    }
}

/// What the trees `0..upto` count together for the children of the first `moves` joint
/// moves.
pub open spec fn counted_for_all(trees: Seq<Vec<MCTSNode>>, moves: int, upto: int) -> int
    decreases moves,
{
    if moves <= 0 {
        0
    } else {
        counted_for_all(trees, moves - 1, upto) + counted_for(trees, moves - 1, upto, false)
    }
}

/// Two lists of joint moves of the same lists of moves hold the same moves.
pub proof fn lemma_joint_moves_agree(
    lists: Seq<(u8, Seq<usize>)>,
    one: Seq<[Move; 2]>,
    other: Seq<[Move; 2]>,
    k: int,
)
    requires
        is_joint_moves(lists, one),
        is_joint_moves(lists, other),
    ensures
        one.len() == other.len(),
        0 <= k < one.len() ==> one[k][0] == other[k][0] && one[k][1] == other[k][1],
{
    if lists.len() >= 2 && 0 <= k < one.len() {
        let rows = lists[0].1.len() as int;
        let width = lists[1].1.len() as int;
        assert(width > 0) by (nonlinear_arith)
            requires
                one.len() == rows * width,
                one.len() > 0,
                rows >= 0,
        ;
        let i = k / width;
        let j = k % width;
        assert(0 <= i < rows && 0 <= j < width && k == i * width + j) by (nonlinear_arith)
            requires
                0 <= k < rows * width,
                width > 0,
                i == k / width,
                j == k % width,
        ;
        assert(one[i * width + j][0] == Move::spec_from_index(lists[0].1[i]));
        assert(other[i * width + j][0] == Move::spec_from_index(lists[0].1[i]));
        assert(one[i * width + j][1] == Move::spec_from_index(lists[1].1[j]));
        assert(other[i * width + j][1] == Move::spec_from_index(lists[1].1[j]));
    }
}

/// What a search that expanded its root hands over for merging is a harvest by the joint
/// moves of the root's board, and the visits of the children kept are those of the
/// root's children.
pub proof fn lemma_search_gives_a_harvest(
    tree: Seq<MCTSNode>,
    kept: Seq<MCTSNode>,
    joint: Seq<[Move; 2]>,
)
    requires
        is_grown(tree),
        root_children_first(tree),
        is_expansion_of(tree, 0),
        is_joint_moves(reasonable_moves(tree[0].state), joint),
        kept.len() == tree[0].children@.len() + 1,
        same_node(kept[0], tree[0]),
        forall|k: int|
            0 <= k < tree[0].children@.len() ==> same_node(
                #[trigger] kept[k + 1],
                tree[tree[0].children@[k] as int],
            ),
    ensures
        is_harvest(kept, joint),
        no_joint_twice(joint),
        children_visits(kept, joint.len() as int) == children_visits(tree, joint.len() as int),
{
    reveal(is_expansion_of);
    let found = choose|found: Seq<[Move; 2]>| #[trigger] expands_by(tree, 0, found);
    lemma_joint_moves_agree(reasonable_moves(tree[0].state), found, joint, 0);
    assert forall|k: int| 0 <= k < joint.len() implies {
        &&& (#[trigger] kept[0].children@[k]) == k + 1
        &&& moves_view(kept[k + 1].moves_made) == Some(label_of(joint[k]))
    } by {
        lemma_joint_moves_agree(reasonable_moves(tree[0].state), found, joint, k);
        assert(tree[0].children@[k] == k + 1);
        assert(is_child_by(tree[0].state, found[k], tree[tree[0].children@[k] as int]));
        assert(same_node(kept[k + 1], tree[tree[0].children@[k] as int]));
        assert(label_of(found[k]) =~= label_of(joint[k]));
    }
    assert forall|a: int, b: int| 0 <= a < b < joint.len() implies (#[trigger] joint[a])[0] != (
    #[trigger] joint[b])[0] || joint[a][1] != joint[b][1] by {
        lemma_joint_moves_agree(reasonable_moves(tree[0].state), found, joint, a);
        lemma_joint_moves_agree(reasonable_moves(tree[0].state), found, joint, b);
        assert(found[a][0] != found[b][0] || found[a][1] != found[b][1]);
    }
    lemma_children_visits_of_kept(tree, kept, joint.len() as int);
}

/// The children kept for merging have the visits of the root's children.
proof fn lemma_children_visits_of_kept(tree: Seq<MCTSNode>, kept: Seq<MCTSNode>, upto: int)
    requires
        root_children_first(tree),
        0 <= upto <= tree[0].children@.len(),
        same_node(kept[0], tree[0]),
        forall|k: int|
            0 <= k < tree[0].children@.len() ==> same_node(
                #[trigger] kept[k + 1],
                tree[tree[0].children@[k] as int],
            ),
    ensures
        children_visits(kept, upto) == children_visits(tree, upto),
    decreases upto,
{
    if upto > 0 {
        lemma_children_visits_of_kept(tree, kept, upto - 1);
        assert(tree[0].children@[upto - 1] == upto);
        assert(kept[0].children@[upto - 1] == upto);
        assert(same_node(kept[(upto - 1) + 1], tree[tree[0].children@[upto - 1] as int]));
    }
}

/// In a harvest only the child of a joint move counts under the label of that move.
proof fn lemma_label_counts_one_child(
    kept: Seq<MCTSNode>,
    joint: Seq<[Move; 2]>,
    k: int,
    upto: int,
    of_wins: bool,
)
    requires
        is_harvest(kept, joint),
        no_joint_twice(joint),
        0 <= k < joint.len(),
        0 <= upto <= joint.len(),
    ensures
        counted_in_tree(kept, Some(label_of(joint[k])), upto, of_wins) == if k < upto {
            count_of(kept[k + 1], of_wins)
        } else {
            0
        },
    decreases upto,
{
    if upto > 0 {
        lemma_label_counts_one_child(kept, joint, k, upto - 1, of_wins);
        let at = upto - 1;
        assert(kept[0].children@[at] == at + 1);
        assert(moves_view(kept[at + 1].moves_made) == Some(label_of(joint[at])));
        if at != k {
            if label_of(joint[at]) == label_of(joint[k]) {
                assert(label_of(joint[at])[0] == label_of(joint[k])[0]);
                assert(label_of(joint[at])[1] == label_of(joint[k])[1]);
                if at < k {
                    assert(joint[at][0] != joint[k][0] || joint[at][1] != joint[k][1]);
                } else {
                    assert(joint[k][0] != joint[at][0] || joint[k][1] != joint[at][1]);
                }
            }
        }
    }
}

/// What the trees after the first count under the label of a joint move is what they
/// count for the child of that move.
proof fn lemma_label_counts_in_trees(
    trees: Seq<Vec<MCTSNode>>,
    joint: Seq<[Move; 2]>,
    k: int,
    upto: int,
    of_wins: bool,
)
    requires
        no_joint_twice(joint),
        0 <= k < joint.len(),
        1 <= upto <= trees.len(),
        forall|t: int| 0 <= t < trees.len() ==> is_harvest((#[trigger] trees[t])@, joint),
    ensures
        count_of(trees[0]@[k + 1], of_wins) + counted_in_trees(
            trees,
            Some(label_of(joint[k])),
            upto,
            of_wins,
        ) == counted_for(trees, k, upto, of_wins),
    decreases upto,
{
    if upto > 1 {
        lemma_label_counts_in_trees(trees, joint, k, upto - 1, of_wins);
        assert(is_harvest(trees[upto - 1]@, joint));
        lemma_label_counts_one_child(trees[upto - 1]@, joint, k, joint.len() as int, of_wins);
    } else {
        assert(counted_for(trees, k, 0, of_wins) == 0);
    }
}

/// Adding one more tree adds the visits of its root's children.
proof fn lemma_counted_for_all_grows(
    trees: Seq<Vec<MCTSNode>>,
    joint: Seq<[Move; 2]>,
    moves: int,
    upto: int,
)
    requires
        0 <= moves <= joint.len(),
        1 <= upto <= trees.len(),
        is_harvest(trees[upto - 1]@, joint),
    ensures
        counted_for_all(trees, moves, upto) == counted_for_all(trees, moves, upto - 1)
            + children_visits(trees[upto - 1]@, moves),
    decreases moves,
{
    if moves > 0 {
        lemma_counted_for_all_grows(trees, joint, moves - 1, upto);
        assert(trees[upto - 1]@[0].children@[moves - 1] == moves);
    }
}

/// Trees that each count `playouts` visits below their root count together as many times
/// `playouts` as there are trees.
proof fn lemma_counted_for_all_trees(
    trees: Seq<Vec<MCTSNode>>,
    joint: Seq<[Move; 2]>,
    playouts: int,
    upto: int,
)
    requires
        0 <= upto <= trees.len(),
        forall|t: int|
            0 <= t < trees.len() ==> is_harvest((#[trigger] trees[t])@, joint) && children_visits(
                trees[t]@,
                joint.len() as int,
            ) == playouts,
    ensures
        counted_for_all(trees, joint.len() as int, upto) == upto * playouts,
    decreases upto,
{
    if upto > 0 {
        lemma_counted_for_all_trees(trees, joint, playouts, upto - 1);
        assert(is_harvest(trees[upto - 1]@, joint));
        lemma_counted_for_all_grows(trees, joint, joint.len() as int, upto);
        assert(children_visits(trees[upto - 1]@, joint.len() as int) == playouts);
        assert(upto * playouts == (upto - 1) * playouts + playouts) by (nonlinear_arith);
    } else {
        lemma_counted_for_none(trees, joint.len() as int);
        assert(upto * playouts == 0) by (nonlinear_arith)
            requires
                upto == 0,
        ;
    }
}

/// No trees count nothing.
proof fn lemma_counted_for_none(trees: Seq<Vec<MCTSNode>>, moves: int)
    ensures
        counted_for_all(trees, moves, 0) == 0,
    decreases moves,
{
    if moves > 0 {
        lemma_counted_for_none(trees, moves - 1);
        assert(counted_for(trees, moves - 1, 0, false) == 0);
    }
}

/// The merged tree counts for each child what all trees count for it.
proof fn lemma_merged_child(
    trees: Seq<Vec<MCTSNode>>,
    joint: Seq<[Move; 2]>,
    merged: Seq<MCTSNode>,
    k: int,
    of_wins: bool,
)
    requires
        trees.len() >= 1,
        no_joint_twice(joint),
        0 <= k < joint.len(),
        forall|t: int| 0 <= t < trees.len() ==> is_harvest((#[trigger] trees[t])@, joint),
        is_merged(trees, merged),
    ensures
        count_of(merged[k + 1], of_wins) == counted_for(trees, k, trees.len() as int, of_wins),
        moves_view(merged[k + 1].moves_made) == Some(label_of(joint[k])),
{
    assert(is_harvest(trees[0]@, joint));
    let first = trees[0]@;
    assert(first[0].children@[k] == k + 1);
    assert(first[0].children@.contains((k + 1) as usize));
    assert(moves_view(first[k + 1].moves_made) == Some(label_of(joint[k])));
    assert(merged[k + 1].visits == merged_count(trees, k + 1, false));
    assert(merged[k + 1].wins == merged_count(trees, k + 1, true));
    lemma_label_counts_in_trees(trees, joint, k, trees.len() as int, of_wins);
}

/// Merging adds up: where each of the trees grew from the same root by the same number of
/// playouts and handed over its root and the root's children, the merged tree holds for
/// each joint move what all trees counted for it, its children's visits add up to the
/// playouts of all trees, and each of its children holds the joint move that led to it.
pub proof fn law_merged_playouts_add_up(
    trees: Seq<Vec<MCTSNode>>,
    joint: Seq<[Move; 2]>,
    playouts: nat,
    merged: Seq<MCTSNode>,
)
    requires
        trees.len() >= 1,
        no_joint_twice(joint),
        forall|t: int|
            0 <= t < trees.len() ==> is_harvest((#[trigger] trees[t])@, joint) && children_visits(
                trees[t]@,
                joint.len() as int,
            ) == playouts,
        is_merged(trees, merged),
    ensures
        is_harvest(merged, joint),
        children_visits(merged, joint.len() as int) == trees.len() * playouts,
        forall|k: int|
            0 <= k < joint.len() ==> {
                &&& (#[trigger] merged[k + 1]).visits == counted_for(
                    trees,
                    k,
                    trees.len() as int,
                    false,
                )
                &&& merged[k + 1].wins == counted_for(trees, k, trees.len() as int, true)
                &&& holds_both_moves(merged[k + 1])
            },
{
    assert(is_harvest(trees[0]@, joint));
    assert forall|k: int| 0 <= k < joint.len() implies {
        &&& (#[trigger] merged[k + 1]).visits == counted_for(trees, k, trees.len() as int, false)
        &&& merged[k + 1].wins == counted_for(trees, k, trees.len() as int, true)
        &&& holds_both_moves(merged[k + 1])
        &&& moves_view(merged[k + 1].moves_made) == Some(label_of(joint[k]))
    } by {
        lemma_merged_child(trees, joint, merged, k, false);
        lemma_merged_child(trees, joint, merged, k, true);
        let moves = merged[k + 1].moves_made->0@;
        assert(moves == label_of(joint[k]));
        assert(moves[0] == (SnakeId(0), joint[k][0]));
        assert(moves.drop_first()[0] == (SnakeId(1), joint[k][1]));
        assert(move_of(moves.drop_first(), SnakeId(1)) == Some(joint[k][1]));
    }
    assert(merged[0].children@ == trees[0]@[0].children@);
    assert forall|k: int| 0 <= k < joint.len() implies (#[trigger] merged[0].children@[k]) == k
        + 1 by {
        assert(trees[0]@[0].children@[k] == k + 1);
    }
    lemma_merged_children_visits(trees, joint, merged, joint.len() as int);
    lemma_counted_for_all_trees(trees, joint, playouts as int, trees.len() as int);
}

/// The visits of the merged children add up to what all trees count for them.
proof fn lemma_merged_children_visits(
    trees: Seq<Vec<MCTSNode>>,
    joint: Seq<[Move; 2]>,
    merged: Seq<MCTSNode>,
    upto: int,
)
    requires
        0 <= upto <= joint.len(),
        merged[0].children@.len() == joint.len(),
        forall|k: int| 0 <= k < joint.len() ==> (#[trigger] merged[0].children@[k]) == k + 1,
        forall|k: int|
            0 <= k < joint.len() ==> (#[trigger] merged[k + 1]).visits == counted_for(
                trees,
                k,
                trees.len() as int,
                false,
            ),
    ensures
        children_visits(merged, upto) == counted_for_all(trees, upto, trees.len() as int),
    decreases upto,
{
    if upto > 0 {
        lemma_merged_children_visits(trees, joint, merged, upto - 1);
        assert(merged[0].children@[upto - 1] == upto);
        assert(merged[(upto - 1) + 1].visits == counted_for(
            trees,
            upto - 1,
            trees.len() as int,
            false,
        ));
    }
}

/// Searches side by side add up: where each of several searches grew a tree from the same
/// board by `playouts` playouts and expanded its root, and each handed over its root and
/// the root's children, the visits of the children of the merged root add up to the
/// playouts of all searches, and each of these children names the root as its parent and
/// holds the moves of both snakes.
pub proof fn law_searches_side_by_side_add_up(
    grown: Seq<Seq<MCTSNode>>,
    trees: Seq<Vec<MCTSNode>>,
    playouts: nat,
    merged: Seq<MCTSNode>,
)
    requires
        trees.len() >= 1,
        grown.len() == trees.len(),
        forall|t: int|
            0 <= t < grown.len() ==> {
                &&& is_grown(#[trigger] grown[t])
                &&& root_children_first(grown[t])
                &&& is_expansion_of(grown[t], 0)
                &&& grown[t][0].state == grown[0][0].state
                &&& children_visits(grown[t], grown[t][0].children@.len() as int) == playouts
                &&& trees[t]@.len() == grown[t][0].children@.len() + 1
                &&& same_node(trees[t]@[0], grown[t][0])
            },
        forall|t: int, k: int|
            0 <= t < grown.len() && 0 <= k < grown[t][0].children@.len() ==> same_node(
                #[trigger] trees[t]@[k + 1],
                grown[t][grown[t][0].children@[k] as int],
            ),
        is_merged(trees, merged),
    ensures
        children_visits(merged, merged[0].children@.len() as int) == trees.len() * playouts,
        forall|k: int|
            0 <= k < merged[0].children@.len() ==> holds_both_moves(
                merged[#[trigger] merged[0].children@[k] as int],
            ),
        forall|k: int|
            0 <= k < merged[0].children@.len() ==> merged[
            #[trigger] merged[0].children@[k] as int].parent == Some(0usize),
{
    reveal(is_expansion_of);
    assert(is_grown(grown[0]));
    let joint = choose|joint: Seq<[Move; 2]>| #[trigger] expands_by(grown[0], 0, joint);
    assert forall|t: int| 0 <= t < trees.len() implies is_harvest((#[trigger] trees[t])@, joint)
        && children_visits(trees[t]@, joint.len() as int) == playouts by {
        assert(is_grown(grown[t]));
        assert forall|k: int| 0 <= k < grown[t][0].children@.len() implies same_node(
            #[trigger] trees[t]@[k + 1],
            grown[t][grown[t][0].children@[k] as int],
        ) by {}
        lemma_search_gives_a_harvest(grown[t], trees[t]@, joint);
    }
    law_merged_playouts_add_up(trees, joint, playouts, merged);
    assert forall|k: int| 0 <= k < merged[0].children@.len() implies holds_both_moves(
        merged[#[trigger] merged[0].children@[k] as int],
    ) by {
        assert(merged[0].children@[k] == k + 1);
        assert(holds_both_moves(merged[k + 1]));
    }
    assert forall|k: int| 0 <= k < merged[0].children@.len() implies merged[
    #[trigger] merged[0].children@[k] as int].parent == Some(0usize) by {
        assert(merged[0].children@[k] == k + 1);
        assert(is_harvest(trees[0]@, joint));
        assert(grown[0][0].children@[k] == k + 1);
        assert(same_node(trees[0]@[k + 1], grown[0][grown[0][0].children@[k] as int]));
        assert(merged[k + 1].parent == trees[0]@[k + 1].parent);
    }
}

} // verus!

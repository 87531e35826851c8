//! The tree search that an evaluator guides, as far as it counts: the positions seen, the
//! simulation under way, and the decision made from the counts. The caller runs the loop,
//! asks the evaluator, and keeps the priors and the mean values.

use crate::canonical_board::{CanonicalBoard, Outcome};
use crate::canonical_board::is_listed;
use crate::game::{random_below, reasonable_moves, Move};
use vstd::prelude::*;

verus! {

/// What the search knows of one position: whether the game has ended there, the moves open
/// to the mover, and how often the position and each of its moves were searched. The
/// real-valued estimates of the search, the prior and the mean value of each move, are
/// kept by the caller under the position's index.
pub struct StateStatistics {
    pub key: String,
    pub terminal: Outcome,
    pub expanded: bool,
    pub valid_moves: [bool; 4],
    pub visits: usize,
    pub action_visits: [usize; 4],
}

impl StateStatistics {
    /// What holds of the statistics of every position: its key ends in the character of
    /// its outcome, a finished game is never expanded, nothing is counted before the
    /// expansion, only open moves are counted, and the visits of the position are those
    /// of its moves.
    pub open spec fn wf(&self) -> bool {
        &&& self.key@.len() > 0 && self.key@.last() == self.terminal.spec_letter()
        &&& self.terminal.spec_is_over() ==> !self.expanded
        &&& !self.expanded ==> self.visits == 0
        &&& forall|a: int|
            0 <= a < 4 && (#[trigger] self.action_visits[a]) > 0 ==> self.valid_moves[a]
        &&& self.visits == self.action_visits[0] + self.action_visits[1] + self.action_visits[2]
            + self.action_visits[3]
    }
}

/// What the search needs from its caller to go on with a simulation.
pub enum SearchStep {
    /// The simulation has reached a finished game. `value` is what its last move is worth
    /// to the side that made it; the simulation is ready to be backed up.
    Terminal { node: usize, value: Outcome },
    /// The simulation has reached a position for the first time. The caller evaluates
    /// `board`, keeps the prior for `node`, restricted to `valid_moves` and, at the
    /// root, mixed with noise, and backs the simulation up with the negated value.
    Evaluate { node: usize, board: CanonicalBoard, valid_moves: [bool; 4], at_root: bool },
    /// The simulation stands at a position that was searched before. The caller ranks the
    /// open moves of `node` and has the search descend.
    Select { node: usize, valid_moves: [bool; 4] },
}

/// One move of a simulation as it is backed up: the position, the move, how often the
/// move has now been taken from there, and whether the simulation's value is negated for
/// it.
#[derive(Clone, Copy, Debug, PartialEq, Eq, Structural)]
pub struct BackupEdge {
    pub node: usize,
    pub action: usize,
    pub visits: usize,
    pub negated: bool,
}

/// The integer side of the tree search that is guided by an evaluator: the table of the
/// positions seen, and the simulation under way.
pub struct MCTS {
    states: Vec<StateStatistics>,
    num_mcts_sims: i32,
    max_deep: i32,
    path: Vec<(usize, usize)>,
    cursor: Option<CanonicalBoard>,
    awaiting: Option<usize>,
}

/// The key under which the search files a canonical state.
pub open spec fn search_key(state: CanonicalBoard) -> Seq<char> {
    state.spec_key_text()
}

/// The index of the position filed under `key`, if there is one.
pub open spec fn filed_under(states: Seq<StateStatistics>, key: Seq<char>) -> Option<int> {
    if exists|i: int| 0 <= i < states.len() && (#[trigger] states[i]).key@ == key {
        Some(choose|i: int| 0 <= i < states.len() && (#[trigger] states[i]).key@ == key)
    } else {
        None
    }
}

impl MCTS {
    /// The positions seen so far, in the order in which they were first reached.
    pub closed spec fn states(&self) -> Seq<StateStatistics> {
        self.states@
    }

    /// The moves of the simulation under way, from the root down, each with the index of
    /// the position it was taken from.
    pub closed spec fn path(&self) -> Seq<(usize, usize)> {
        self.path@
    }

    /// The state that the simulation under way has reached, if one is under way.
    pub closed spec fn cursor(&self) -> Option<CanonicalBoard> {
        self.cursor
    }

    /// The position whose moves the caller has been asked to rank, if any.
    pub closed spec fn awaiting(&self) -> Option<usize> {
        self.awaiting
    }

    /// The number of simulations a decision is made from.
    pub closed spec fn spec_num_mcts_sims(&self) -> i32 {
        self.num_mcts_sims
    }

    /// The greatest number of moves any simulation has made.
    pub closed spec fn spec_max_deep(&self) -> i32 {
        self.max_deep
    }

    /// What holds of a search between any two calls: every position is filed once and
    /// has sound statistics, the simulation under way has a sound state, and every move
    /// on its path is an open move of an expanded position.
    pub open spec fn wf(&self) -> bool {
        &&& forall|i: int, j: int|
            0 <= i < j < self.states().len() ==> (#[trigger] self.states()[i]).key@ != (
            #[trigger] self.states()[j]).key@
        &&& forall|i: int| 0 <= i < self.states().len() ==> (#[trigger] self.states()[i]).wf()
        &&& self.cursor() is Some ==> self.cursor()->0.wf()
        &&& self.cursor() is None ==> self.path().len() == 0
        &&& self.awaiting() is Some ==> {
            &&& self.cursor() is Some
            &&& self.awaiting()->0 < self.states().len()
            &&& self.states()[self.awaiting()->0 as int].expanded
            &&& self.states()[self.awaiting()->0 as int].key@ == search_key(self.cursor()->0)
        }
        &&& forall|k: int|
            0 <= k < self.path().len() ==> {
                &&& (#[trigger] self.path()[k]).0 < self.states().len()
                &&& self.path()[k].1 < 4
                &&& self.states()[self.path()[k].0 as int].expanded
                &&& self.states()[self.path()[k].0 as int].valid_moves[self.path()[k].1 as int]
            }
    }

    pub fn new(num_mcts_sims: i32) -> (search: MCTS)
        ensures
            search.wf(),
            search.states().len() == 0,
            search.path().len() == 0,
            search.cursor() is None,
            search.awaiting() is None,
            search.spec_num_mcts_sims() == num_mcts_sims,
            search.spec_max_deep() == 0,
    {
        MCTS {
            states: Vec::new(),
            num_mcts_sims,
            max_deep: 0,
            path: Vec::new(),
            cursor: None,
            awaiting: None,
        }
    }

    #[verifier::when_used_as_spec(spec_num_mcts_sims)]
    pub fn num_mcts_sims(&self) -> (simulations: i32)
        ensures
            simulations == self.spec_num_mcts_sims(),
    {
        self.num_mcts_sims
    }

    #[verifier::when_used_as_spec(spec_max_deep)]
    pub fn max_deep(&self) -> (deep: i32)
        ensures
            deep == self.spec_max_deep(),
    {
        self.max_deep
    }

    /// The number of positions seen so far.
    pub fn len(&self) -> (count: usize)
        ensures
            count == self.states().len(),
    {
        self.states.len()
    }

    /// The statistics of the position with index `node`.
    pub fn statistics(&self, node: usize) -> (found: Option<&StateStatistics>)
        ensures
            found is Some <==> node < self.states().len(),
            found is Some ==> *found->0 == self.states()[node as int],
    {
        if node < self.states.len() {
            Some(&self.states[node])
        } else {
            None
        }
    }

    /// The index of the position filed under `key`.
    pub fn find(&self, key: &String) -> (found: Option<usize>)
        ensures
            match found {
                Some(node) => node < self.states().len() && self.states()[node as int].key@
                    == key@,
                None => forall|i: int|
                    0 <= i < self.states().len() ==> (#[trigger] self.states()[i]).key@ != key@,
            },
    {
        let mut i: usize = 0;
        while i < self.states.len()
            invariant
                i <= self.states@.len(),
                forall|k: int| 0 <= k < i ==> (#[trigger] self.states@[k]).key@ != key@,
            decreases self.states@.len() - i,
        {
            if self.states[i].key == *key {
                return Some(i);
            }
            i += 1;
        }
        None
    }

    /// How often each move of `state` has been taken by the simulations: the counts from
    /// which a decision is made. The search files a state as its mover sees it with no
    /// half-move waiting. A state that was never searched has no counts.
    pub fn visit_counts(&self, state: &CanonicalBoard) -> (counts: [usize; 4])
        requires
            self.wf(),
            state.wf(),
        ensures
            match filed_under(self.states(), search_key(state.spec_reset())) {
                Some(node) => counts == self.states()[node].action_visits,
                None => forall|a: int| 0 <= a < 4 ==> counts[a] == 0,
            },
    {
        self.visit_shares(state).0
    }
}

/// The greater of the depth `deep` reached before and the length `moves` of a path, as far
/// as the machine's numbers go.
pub open spec fn deepest(deep: i32, moves: nat) -> i32 {
    if moves > i32::MAX {
        i32::MAX
    } else if moves > deep {
        moves as i32
    } else {
        deep
    }
}

/// Whether `action` is the move the search descends by: the open move with the greatest
/// key, the first of them in the fixed order of the moves where several have it.
pub open spec fn is_best_open(valid_moves: [bool; 4], keys: [i64; 4], action: int) -> bool {
    &&& 0 <= action < 4
    &&& valid_moves[action]
    &&& forall|b: int| 0 <= b < 4 && valid_moves[b] ==> keys[b] <= keys[action]
    &&& forall|b: int| 0 <= b < action && valid_moves[b] ==> keys[b] < keys[action]
}

/// Whether some move is open.
pub open spec fn any_open(valid_moves: [bool; 4]) -> bool {
    valid_moves[0] || valid_moves[1] || valid_moves[2] || valid_moves[3]
}

/// The open move with the greatest key, the first of them where several have it; nothing
/// where no move is open.
pub fn select_action(valid_moves: &[bool; 4], keys: &[i64; 4]) -> (action: Option<usize>)
    ensures
        action is Some <==> any_open(*valid_moves),
        action is Some ==> is_best_open(*valid_moves, *keys, action->0 as int),
{
    let mut best_act: Option<usize> = None;
    let mut a: usize = 0;
    while a < 4
        invariant
            a <= 4,
            best_act is None ==> forall|b: int| 0 <= b < a ==> !valid_moves[b],
            best_act is Some ==> {
                &&& best_act->0 < a
                &&& valid_moves[best_act->0 as int]
                &&& forall|b: int| 0 <= b < a && valid_moves[b] ==> keys[b] <= keys[best_act->0 as int]
                &&& forall|b: int|
                    0 <= b < best_act->0 && valid_moves[b] ==> keys[b] < keys[best_act->0 as int]
            },
        decreases 4 - a,
    {
        if valid_moves[a] {
            match best_act {
                Some(best) => {
                    if keys[a] > keys[best] {
                        best_act = Some(a);
                    }
                },
                None => {
                    best_act = Some(a);
                },
            }
        }
        a += 1;
    }
    best_act
}

impl MCTS {
    /// Whether every position that `earlier` held is held unchanged.
    pub open spec fn keeps(&self, earlier: MCTS) -> bool {
        &&& self.states().len() >= earlier.states().len()
        &&& forall|i: int|
            0 <= i < earlier.states().len() ==> (#[trigger] self.states()[i])
                == earlier.states()[i]
    }

    /// Starts a simulation at `state`, seen by its side to move. A simulation that was under
    /// way is given up; the positions seen stay as they are.
    pub fn begin(&mut self, state: &CanonicalBoard)
        requires
            old(self).wf(),
            state.wf(),
        ensures
            final(self).wf(),
            final(self).states() == old(self).states(),
            final(self).path().len() == 0,
            final(self).cursor() == Some(state.spec_reset()),
            final(self).awaiting() is None,
            final(self).spec_max_deep() == old(self).spec_max_deep(),
            final(self).spec_num_mcts_sims() == old(self).spec_num_mcts_sims(),
    {
        self.path = Vec::new();
        self.cursor = Some(state.reset_and_clone_as_current_player());
        self.awaiting = None;
    }

    /// Looks at the state that the simulation has reached and says what is needed next.
    /// A state that is seen for the first time is filed, with the outcome of its game for
    /// its first player. Nothing is done, and nothing comes back, where no simulation is
    /// under way or the search waits for a ranking.
    pub fn step(&mut self) -> (next: Option<SearchStep>)
        requires
            old(self).wf(),
        ensures
            final(self).wf(),
            final(self).path() == old(self).path(),
            final(self).cursor() == old(self).cursor(),
            final(self).spec_num_mcts_sims() == old(self).spec_num_mcts_sims(),
            next is None <==> old(self).cursor() is None || old(self).awaiting() is Some,
            next is None ==> final(self).states() == old(self).states() && final(self).awaiting()
                == old(self).awaiting() && final(self).spec_max_deep() == old(
                self
            ).spec_max_deep(),
            next is Some ==> final(self).spec_max_deep() == deepest(
                old(self).spec_max_deep(),
                old(self).path().len(),
            ),
            next is Some ==> final(self).steps_from(*old(self), next->0),
    {
        if self.awaiting.is_some() {
            return None;
        }
        let state = match self.cursor {
            Some(state) => state,
            None => {
                return None;
            },
        };
        let deep = self.path.len();
        if deep > i32::MAX as usize {
            self.max_deep = i32::MAX;
        } else if deep as i32 > self.max_deep {
            self.max_deep = deep as i32;
        }
        let s = state.to_hashmap_string();
        let ghost earlier = self.states@;
        let node = match self.find(&s) {
            Some(node) => node,
            None => {
                let terminal = state.get_game_ended(state.first_player);
                self.states.push(
                    StateStatistics {
                        key: s,
                        terminal,
                        expanded: false,
                        valid_moves: [false;4],
                        visits: 0,
                        action_visits: [0usize;4],
                    },
                );
                self.states.len() - 1
            },
        };
        let terminal = self.states[node].terminal;
        if terminal.is_over() {
            return Some(SearchStep::Terminal { node, value: terminal.negated() });
        }
        if !self.states[node].expanded {
            let valid_moves = state.get_valid_moves();
            self.states[node].expanded = true;
            self.states[node].valid_moves = valid_moves;
            proof {
                assert forall|k: int| 0 <= k < self.path@.len() implies {
                    &&& (#[trigger] self.path@[k]).0 < self.states@.len()
                    &&& self.path@[k].1 < 4
                    &&& self.states@[self.path@[k].0 as int].expanded
                    &&& self.states@[self.path@[k].0 as int].valid_moves[self.path@[k].1 as int]
                } by {
                    let at = self.path@[k].0 as int;
                    assert(at < earlier.len());
                    assert(earlier[at].expanded);
                }
            }
            return Some(SearchStep::Evaluate { node, board: state, valid_moves, at_root: deep == 0 });
        }
        self.awaiting = Some(node);
        Some(SearchStep::Select { node, valid_moves: self.states[node].valid_moves })
    }

    /// What a step does: the state that the simulation has reached is filed under `node`,
    /// new or as before, with the outcome of its game for its first player; a finished
    /// game is reported with its value for the last mover, a
    /// new position is expanded and handed out for evaluation, and a position searched
    /// before waits for the ranking of its moves.
    pub open spec fn steps_from(&self, earlier: MCTS, step: SearchStep) -> bool {
        let state = earlier.cursor()->0;
        let node = match step {
            SearchStep::Terminal { node, .. } => node,
            SearchStep::Evaluate { node, .. } => node,
            SearchStep::Select { node, .. } => node,
        };
        let known = filed_under(earlier.states(), search_key(state));
        let entry = self.states()[node as int];
        &&& node < self.states().len()
        &&& entry.key@ == search_key(state)
        &&& known is Some ==> node == known->0 && self.states().len() == earlier.states().len()
        &&& entry.terminal == state.spec_outcome()
        &&& known is None ==> {
            &&& node == earlier.states().len()
            &&& self.states().len() == earlier.states().len() + 1
        }
        &&& forall|i: int|
            0 <= i < earlier.states().len() && i != node ==> (#[trigger] self.states()[i])
                == earlier.states()[i]
        &&& match step {
            SearchStep::Terminal { value, .. } => {
                &&& entry.terminal.spec_is_over()
                &&& value == entry.terminal.spec_negated()
                &&& known is Some ==> entry == earlier.states()[node as int]
                &&& !entry.expanded && entry.counts_nothing()
                &&& self.awaiting() is None
            },
            SearchStep::Evaluate { board, valid_moves, at_root, .. } => {
                &&& !entry.terminal.spec_is_over()
                &&& known is Some ==> !earlier.states()[node as int].expanded
                    && entry.terminal == earlier.states()[node as int].terminal
                &&& board == state
                &&& at_root == (earlier.path().len() == 0)
                &&& forall|k: int|
                    0 <= k < 4 ==> (#[trigger] valid_moves[k]) == is_listed(
                        reasonable_moves(state.board),
                        state.spec_current_snake().0,
                        k,
                    )
                &&& entry.expanded
                &&& entry.valid_moves == valid_moves
                &&& entry.counts_nothing()
                &&& self.awaiting() is None
            },
            SearchStep::Select { valid_moves, .. } => {
                &&& !entry.terminal.spec_is_over()
                &&& known is Some
                &&& entry.expanded
                &&& valid_moves == entry.valid_moves
                &&& entry == earlier.states()[node as int]
                &&& self.awaiting() == Some(node)
            },
        }
    }
}

impl StateStatistics {
    /// Whether nothing has been counted for the position yet.
    pub open spec fn counts_nothing(&self) -> bool {
        self.visits == 0 && forall|a: int| 0 <= a < 4 ==> (#[trigger] self.action_visits[a]) == 0
    }
}

/// How often the position `node` occurs on `path`.
pub open spec fn node_occurrences(path: Seq<(usize, usize)>, node: int) -> int
    decreases path.len(),
{
    if path.len() == 0 {
        0
    } else {
        node_occurrences(path.drop_last(), node) + if path.last().0 == node {
            1int
        } else {
            0int
        }
    }
}

/// How often the move `action` of the position `node` occurs on `path`.
pub open spec fn edge_occurrences(path: Seq<(usize, usize)>, node: int, action: int) -> int
    decreases path.len(),
{
    if path.len() == 0 {
        0
    } else {
        edge_occurrences(path.drop_last(), node, action) + if path.last().0 == node
            && path.last().1 == action {
            1int
        } else {
            0int
        }
    }
}

/// Occurrences on a path are counted up to its length.
proof fn lemma_occurrences_bounded(path: Seq<(usize, usize)>, node: int, action: int)
    ensures
        0 <= edge_occurrences(path, node, action) <= node_occurrences(path, node) <= path.len(),
    decreases path.len(),
{
    if path.len() > 0 {
        lemma_occurrences_bounded(path.drop_last(), node, action);
    }
}

impl MCTS {
    /// Takes the move that `keys` ranks first among the open moves of the position the
    /// search waits at, and moves the simulation on by it. Nothing is done, and nothing
    /// comes back, where the search does not wait for a ranking, where no move is open, and
    /// where the move would complete a ply on a board that has lost a snake.
    pub fn descend(&mut self, keys: &[i64; 4]) -> (taken: Option<usize>)
        requires
            old(self).wf(),
        ensures
            final(self).wf(),
            final(self).states() == old(self).states(),
            final(self).spec_num_mcts_sims() == old(self).spec_num_mcts_sims(),
            final(self).spec_max_deep() == old(self).spec_max_deep(),
            taken is Some <==> {
                &&& old(self).awaiting() is Some
                &&& any_open(old(self).states()[old(self).awaiting()->0 as int].valid_moves)
                &&& old(self).cursor()->0.prev_action is Some ==> old(self).cursor()->0.spec_can_resolve()
            },
            taken is None ==> {
                &&& final(self).path() == old(self).path()
                &&& final(self).cursor() == old(self).cursor()
                &&& final(self).awaiting() == old(self).awaiting()
            },
            taken is Some ==> {
                &&& is_best_open(
                    old(self).states()[old(self).awaiting()->0 as int].valid_moves,
                    *keys,
                    taken->0 as int,
                )
                &&& final(self).path() == old(self).path().push(
                    (old(self).awaiting()->0, taken->0),
                )
                &&& final(self).cursor() is Some
                &&& old(self).cursor()->0.plays_to(
                    Move::spec_from_index(taken->0),
                    final(self).cursor()->0,
                )
                &&& final(self).awaiting() is None
            },
    {
        let node = match self.awaiting {
            Some(node) => node,
            None => {
                return None;
            },
        };
        let state = match self.cursor {
            Some(state) => state,
            None => {
                return None;
            },
        };
        let action = match select_action(&self.states[node].valid_moves, keys) {
            Some(action) => action,
            None => {
                return None;
            },
        };
        match state.try_next_state(action) {
            Some((next_s, _)) => {
                self.path.push((node, action));
                self.cursor = Some(next_s);
                self.awaiting = None;
                Some(action)
            },
            None => None,
        }
    }

    /// Whether the simulation under way can be backed up: no count of a position on its
    /// path is so great that the path could make it overflow.
    pub open spec fn can_back_up(&self) -> bool {
        &&& self.cursor() is Some
        &&& forall|k: int|
            0 <= k < self.path().len() ==> self.states()[(#[trigger] self.path()[k]).0 as int].visits
                <= usize::MAX - self.path().len()
    }

    /// What backing up a simulation does to the positions and what it reports: every move
    /// of the path is counted once for its position, and reported from the last move up to
    /// the first with the count of the move after it was counted; the value of the
    /// simulation changes its sign from each move to the one before it.
    pub open spec fn backs_up(&self, earlier: MCTS, edges: Seq<BackupEdge>) -> bool {
        let path = earlier.path();
        &&& self.path().len() == 0
        &&& self.cursor() is None
        &&& self.awaiting() is None
        &&& self.states().len() == earlier.states().len()
        &&& forall|i: int|
            0 <= i < self.states().len() ==> {
                &&& (#[trigger] self.states()[i]).key == earlier.states()[i].key
                &&& self.states()[i].terminal == earlier.states()[i].terminal
                &&& self.states()[i].expanded == earlier.states()[i].expanded
                &&& self.states()[i].valid_moves == earlier.states()[i].valid_moves
                &&& self.states()[i].visits == earlier.states()[i].visits + node_occurrences(
                    path,
                    i,
                )
                &&& forall|a: int|
                    0 <= a < 4 ==> (#[trigger] self.states()[i].action_visits[a])
                        == earlier.states()[i].action_visits[a] + edge_occurrences(path, i, a)
            }
        &&& edges.len() == path.len()
        &&& forall|d: int|
            0 <= d < edges.len() ==> {
                let at = path.len() - 1 - d;
                &&& (#[trigger] edges[d]).node == path[at].0
                &&& edges[d].action == path[at].1
                &&& edges[d].negated == (d % 2 == 1)
                &&& edges[d].visits == self.states()[path[at].0 as int].action_visits[path[at].1 as int]
                    - edge_occurrences(path.take(at), path[at].0 as int, path[at].1 as int)
            }
    }

    /// Ends the simulation under way and counts it. Nothing is done, and nothing comes
    /// back, where no simulation is under way or a count would not fit the machine's
    /// numbers.
    pub fn backup(&mut self) -> (edges: Option<Vec<BackupEdge>>)
        requires
            old(self).wf(),
        ensures
            final(self).wf(),
            final(self).spec_num_mcts_sims() == old(self).spec_num_mcts_sims(),
            final(self).spec_max_deep() == old(self).spec_max_deep(),
            edges is Some <==> old(self).can_back_up(),
            edges is Some ==> final(self).backs_up(*old(self), edges->0@),
            edges is None ==> {
                &&& final(self).states() == old(self).states()
                &&& final(self).path() == old(self).path()
                &&& final(self).cursor() == old(self).cursor()
                &&& final(self).awaiting() == old(self).awaiting()
            },
    {
        if self.cursor.is_none() {
            return None;
        }
        let len = self.path.len();
        let mut k: usize = 0;
        while k < len
            invariant
                k <= len,
                len == self.path@.len(),
                self.wf(),
                *self == *old(self),
                forall|j: int|
                    0 <= j < k ==> self.states@[(#[trigger] self.path@[j]).0 as int].visits
                        <= usize::MAX - len,
            decreases len - k,
        {
            if self.states[self.path[k].0].visits > usize::MAX - len {
                return None;
            }
            k += 1;
        }
        let ghost before = self.states@;
        let ghost path = self.path@;
        let mut edges: Vec<BackupEdge> = Vec::new();
        let mut d: usize = 0;
        while d < len
            invariant
                d <= len,
                len == path.len(),
                path == self.path@,
                path == old(self).path(),
                before == old(self).states(),
                old(self).wf(),
                self.cursor == old(self).cursor,
                self.awaiting == old(self).awaiting,
                self.num_mcts_sims == old(self).num_mcts_sims,
                self.max_deep == old(self).max_deep,
                forall|j: int|
                    0 <= j < len ==> before[(#[trigger] path[j]).0 as int].visits <= usize::MAX
                        - len,
                self.states@.len() == before.len(),
                forall|i: int|
                    0 <= i < before.len() ==> {
                        &&& (#[trigger] self.states@[i]).key == before[i].key
                        &&& self.states@[i].terminal == before[i].terminal
                        &&& self.states@[i].expanded == before[i].expanded
                        &&& self.states@[i].valid_moves == before[i].valid_moves
                        &&& self.states@[i].visits == before[i].visits + node_occurrences(
                            path.skip(len - d),
                            i,
                        )
                        &&& forall|a: int|
                            0 <= a < 4 ==> (#[trigger] self.states@[i].action_visits[a])
                                == before[i].action_visits[a] + edge_occurrences(
                                path.skip(len - d),
                                i,
                                a,
                            )
                        &&& self.states@[i].wf()
                    },
                edges@.len() == d,
                forall|e: int|
                    0 <= e < d ==> {
                        let at = len - 1 - e;
                        &&& (#[trigger] edges@[e]).node == path[at].0
                        &&& edges@[e].action == path[at].1
                        &&& edges@[e].negated == (e % 2 == 1)
                        &&& edges@[e].visits == before[path[at].0 as int].action_visits[path[at].1 as int]
                            + edge_occurrences(
                            path.skip(at),
                            path[at].0 as int,
                            path[at].1 as int,
                        )
                    },
            decreases len - d,
        {
            let at = len - 1 - d;
            let (node, action) = self.path[at];
            let ghost counted = path.skip(len - d);
            let ghost counted_next = path.skip(at as int);
            proof {
                lemma_occurrences_bounded(counted, node as int, action as int);
                assert(path[at as int].0 < before.len());
            }
            let ghost earlier = self.states@;
            self.states[node].action_visits[action] += 1;
            self.states[node].visits += 1;
            edges.push(
                BackupEdge {
                    node,
                    action,
                    visits: self.states[node].action_visits[action],
                    negated: d % 2 == 1,
                },
            );
            proof {
                assert forall|i: int| 0 <= i < before.len() implies {
                    &&& (#[trigger] self.states@[i]).visits == before[i].visits + node_occurrences(
                        counted_next,
                        i,
                    )
                    &&& forall|a: int|
                        0 <= a < 4 ==> (#[trigger] self.states@[i].action_visits[a])
                            == before[i].action_visits[a] + edge_occurrences(counted_next, i, a)
                    &&& self.states@[i].wf()
                } by {
                    lemma_skip_counts_at(path, at as int, i);
                    assert(earlier[i].wf());
                    if i != node {
                        assert(self.states@[i] == earlier[i]);
                    }
                    assert forall|a: int| 0 <= a < 4 implies (
                    #[trigger] self.states@[i].action_visits[a]) == before[i].action_visits[a]
                        + edge_occurrences(counted_next, i, a) by {
                        lemma_skip_counts_edge(path, at as int, i, a);
                    }
                }
            }
            d += 1;
        }
        proof {
            assert(path.skip(0) =~= path);
        }
        self.path = Vec::new();
        self.cursor = None;
        self.awaiting = None;
        proof {
            assert forall|e: int| 0 <= e < edges@.len() implies {
                let at = path.len() - 1 - e;
                (#[trigger] edges@[e]).visits == self.states@[path[at].0 as int].action_visits[path[at].1 as int]
                    - edge_occurrences(path.take(at), path[at].0 as int, path[at].1 as int)
            } by {
                let at = path.len() - 1 - e;
                lemma_take_skip_counts(path, at, path[at].0 as int, path[at].1 as int);
            }
        }
        Some(edges)
    }
}

/// The occurrences of a position on the part of a path from `at` on are those on the part
/// after `at`, and one more where the move at `at` is taken from the position.
proof fn lemma_skip_counts_at(path: Seq<(usize, usize)>, at: int, node: int)
    requires
        0 <= at < path.len(),
    ensures
        node_occurrences(path.skip(at), node) == node_occurrences(path.skip(at + 1), node) + if path[at].0
            == node {
            1int
        } else {
            0int
        },
    decreases path.len() - at,
{
    let from_at = path.skip(at);
    let after = path.skip(at + 1);
    if at == path.len() - 1 {
        assert(from_at.drop_last() =~= Seq::<(usize, usize)>::empty());
        assert(after =~= Seq::<(usize, usize)>::empty());
        assert(node_occurrences(from_at.drop_last(), node) == 0);
    } else {
        let shorter = path.drop_last();
        lemma_skip_counts_at(shorter, at, node);
        assert(from_at.drop_last() =~= shorter.skip(at));
        assert(after.drop_last() =~= shorter.skip(at + 1));
        assert(from_at.last() == after.last());
        assert(shorter[at] == path[at]);
    }
}

/// The occurrences of a move on the part of a path from `at` on are those on the part
/// after `at`, and one more where the move at `at` is that move.
proof fn lemma_skip_counts_edge(path: Seq<(usize, usize)>, at: int, node: int, action: int)
    requires
        0 <= at < path.len(),
    ensures
        edge_occurrences(path.skip(at), node, action) == edge_occurrences(
            path.skip(at + 1),
            node,
            action,
        ) + if path[at].0 == node && path[at].1 == action {
            1int
        } else {
            0int
        },
    decreases path.len() - at,
{
    let from_at = path.skip(at);
    let after = path.skip(at + 1);
    if at == path.len() - 1 {
        assert(from_at.drop_last() =~= Seq::<(usize, usize)>::empty());
        assert(after =~= Seq::<(usize, usize)>::empty());
        assert(edge_occurrences(from_at.drop_last(), node, action) == 0);
    } else {
        let shorter = path.drop_last();
        lemma_skip_counts_edge(shorter, at, node, action);
        assert(from_at.drop_last() =~= shorter.skip(at));
        assert(after.drop_last() =~= shorter.skip(at + 1));
        assert(from_at.last() == after.last());
        assert(shorter[at] == path[at]);
    }
}

/// The occurrences of a move on a path are those before `at` and those from `at` on.
proof fn lemma_take_skip_counts(path: Seq<(usize, usize)>, at: int, node: int, action: int)
    requires
        0 <= at <= path.len(),
    ensures
        edge_occurrences(path, node, action) == edge_occurrences(path.take(at), node, action)
            + edge_occurrences(path.skip(at), node, action),
    decreases path.len(),
{
    if at == path.len() {
        assert(path.take(at) =~= path);
        assert(path.skip(at) =~= Seq::<(usize, usize)>::empty());
    } else {
        let shorter = path.drop_last();
        lemma_take_skip_counts(shorter, at, node, action);
        assert(shorter.take(at) =~= path.take(at));
        assert(path.skip(at).drop_last() =~= shorter.skip(at));
        assert(path.skip(at).last() == path.last());
    }
}

/// The greatest of the four counts.
pub open spec fn max_count(counts: [usize; 4]) -> usize {
    let first = if counts[0] >= counts[1] {
        counts[0]
    } else {
        counts[1]
    };
    let second = if counts[2] >= counts[3] {
        counts[2]
    } else {
        counts[3]
    };
    if first >= second {
        first
    } else {
        second
    }
}

/// The moves with the greatest count, in the fixed order of the moves.
pub fn best_actions(counts: &[usize; 4]) -> (best: Vec<usize>)
    ensures
        best@.len() >= 1,
        forall|k: int| 0 <= k < best@.len() ==> (#[trigger] best@[k]) < 4,
        forall|a: int|
            0 <= a < 4 ==> (best@.contains(a as usize) <==> (#[trigger] counts[a]) == max_count(
                *counts,
            )),
        forall|j: int, k: int| 0 <= j < k < best@.len() ==> best@[j] < best@[k],
{
    let mut max = counts[0];
    let mut i: usize = 1;
    while i < 4
        invariant
            1 <= i <= 4,
            forall|a: int| 0 <= a < i ==> counts[a] <= max,
            exists|a: int| 0 <= a < i && counts[a] == max,
        decreases 4 - i,
    {
        if counts[i] > max {
            max = counts[i];
        }
        i += 1;
    }
    assert(max == max_count(*counts));
    let mut best: Vec<usize> = Vec::new();
    let mut a: usize = 0;
    while a < 4
        invariant
            a <= 4,
            max == max_count(*counts),
            forall|k: int| 0 <= k < best@.len() ==> (#[trigger] best@[k]) < a,
            forall|b: int| 0 <= b < a ==> (best@.contains(b as usize) <==> (#[trigger] counts[b]) == max),
            forall|j: int, k: int| 0 <= j < k < best@.len() ==> best@[j] < best@[k],
        decreases 4 - a,
    {
        let ghost earlier = best@;
        if counts[a] == max {
            best.push(a);
        }
        proof {
            assert forall|b: int| 0 <= b < a + 1 implies (best@.contains(b as usize) <==> (
            #[trigger] counts[b]) == max) by {
                if counts[a as int] == max {
                    crate::layout::lemma_holds_after_push(earlier, a, b as usize);
                }
                if b == a && earlier.contains(a) {
                    let at = choose|at: int| 0 <= at < earlier.len() && earlier[at] == a;
                    assert(earlier[at] < a);
                }
            }
        }
        a += 1;
    }
    proof {
        let witness = choose|w: int| 0 <= w < 4 && counts[w] == max;
        assert(best@.contains(witness as usize));
    }
    best
}

/// The move the search decides on when it does not explore: one of the moves with the
/// greatest count, drawn by chance where there are several.
pub fn choose_best_action(counts: &[usize; 4]) -> (action: usize)
    ensures
        action < 4,
        counts[action as int] == max_count(*counts),
{
    let best = best_actions(counts);
    let drawn = random_below(best.len());
    let action = best[drawn];
    assert(best@.contains(action));
    action
}

/// The move that a number drawn below the total of the counts picks: the counts are laid
/// end to end in the fixed order of the moves, and the move is the one in whose stretch the
/// number falls.
pub open spec fn picked_by(counts: [usize; 4], drawn: int) -> int {
    if drawn < counts[0] {
        0
    } else if drawn < counts[0] + counts[1] {
        1
    } else if drawn < counts[0] + counts[1] + counts[2] {
        2
    } else {
        3
    }
}

/// A move drawn by chance, each move with the share of its count in `total`, the sum of
/// the counts; nothing where nothing was counted. A move that was never taken is never
/// drawn.
pub fn sample_action(counts: &[usize; 4], total: usize) -> (action: Option<usize>)
    requires
        total == counts[0] + counts[1] + counts[2] + counts[3],
    ensures
        action is Some <==> total > 0,
        action is Some ==> {
            &&& action->0 < 4
            &&& counts[action->0 as int] > 0
            &&& exists|drawn: int| 0 <= drawn < total && action->0 == #[trigger] picked_by(*counts, drawn)
        },
{
    if total == 0 {
        return None;
    }
    let drawn = random_below(total);
    let action: usize = if drawn < counts[0] {
        0
    } else if drawn - counts[0] < counts[1] {
        1
    } else if drawn - counts[0] - counts[1] < counts[2] {
        2
    } else {
        3
    };
    assert(action == picked_by(*counts, drawn as int));
    Some(action)
}

/// The vector that holds `one` at `action` and `zero` at the three other places: the
/// distribution of a decision that does not explore.
pub fn one_hot<T: Copy>(action: usize, zero: T, one: T) -> (distribution: [T; 4])
    requires
        action < 4,
    ensures
        forall|a: int|
            0 <= a < 4 ==> (#[trigger] distribution[a]) == if a == action {
                one
            } else {
                zero
            },
{
    let mut distribution = [zero;4];
    distribution[action] = one;
    distribution
}

impl MCTS {
    /// The decision for `state` at temperature one, from the simulations made so far:
    /// each move has the share `counts[a] / total` of the decision. The shares add up to
    /// one: the total is the sum of the counts. A state that was never searched has no
    /// counts, and the total 0.
    pub fn visit_shares(&self, state: &CanonicalBoard) -> (shares: ([usize; 4], usize))
        requires
            self.wf(),
            state.wf(),
        ensures
            match filed_under(self.states(), search_key(state.spec_reset())) {
                Some(node) => shares.0 == self.states()[node].action_visits,
                None => forall|a: int| 0 <= a < 4 ==> shares.0[a] == 0,
            },
            shares.1 == shares.0[0] + shares.0[1] + shares.0[2] + shares.0[3],
    {
        let current_state = state.reset_and_clone_as_current_player();
        let s = current_state.to_hashmap_string();
        match self.find(&s) {
            Some(node) => {
                proof {
                    let chosen = filed_under(self.states(), search_key(state.spec_reset()))->0;
                    assert(self.states()[chosen].key@ == s@);
                    assert(chosen == node);
                    assert(self.states()[node as int].wf());
                }
                (self.states[node].action_visits, self.states[node].visits)
            },
            None => ([0usize;4], 0),
        }
    }

    /// A move for `state` drawn by chance from the simulations made so far, each move with
    /// the share of the simulations that took it; nothing for a state that no simulation
    /// has moved on from.
    pub fn sample(&self, state: &CanonicalBoard) -> (action: Option<usize>)
        requires
            self.wf(),
            state.wf(),
        ensures
            action is Some ==> action->0 < 4,
            match filed_under(self.states(), search_key(state.spec_reset())) {
                Some(node) => {
                    &&& action is Some <==> self.states()[node].visits > 0
                    &&& action is Some ==> self.states()[node].action_visits[action->0 as int]
                        > 0 && self.states()[node].valid_moves[action->0 as int]
                },
                None => action is None,
            },
    {
        let (counts, total) = self.visit_shares(state);
        proof {
            match filed_under(self.states(), search_key(state.spec_reset())) {
                Some(node) => {
                    assert(self.states()[node].wf());
                },
                None => {},
            }
        }
        sample_action(&counts, total)
    }

    /// The decision for `state` without exploration, from the simulations made so far: a
    /// move that they took most often, drawn by chance among several.
    pub fn decide(&self, state: &CanonicalBoard) -> (action: usize)
        requires
            self.wf(),
            state.wf(),
        ensures
            action < 4,
            match filed_under(self.states(), search_key(state.spec_reset())) {
                Some(node) => self.states()[node].action_visits[action as int] == max_count(
                    self.states()[node].action_visits,
                ),
                None => true,
            },
    {
        let counts = self.visit_counts(state);
        choose_best_action(&counts)
    }
}

} // verus!

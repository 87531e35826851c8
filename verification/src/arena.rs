//! Games between two players, played move by move, and the tally of their results.

use crate::canonical_board::{is_listed, outcome_for, CanonicalBoard, Outcome};
use crate::game::{reasonable_moves, snake_healths, Board, Move};
use vstd::prelude::*;

verus! {

/// One game between two players that each decide by a search of their own. The arena
/// keeps the game; the players are asked for their decisions one move at a time.
pub struct Arena {
    canonical_board: CanonicalBoard,
    current_player: i32,
}

/// What a game needs next.
pub enum Turn {
    /// The game has ended, with this outcome for player 1.
    Finished(Outcome),
    /// `player` has to decide a move for `board`.
    Move { player: i32, board: CanonicalBoard },
}

/// The move that is played for a decision: the decided move where it is open, the move
/// with index 0 where it is not.
pub open spec fn spec_legal_or_default(best_action_index: usize, valid_moves: [bool; 4]) -> usize {
    if best_action_index < 4 && valid_moves[best_action_index as int] {
        best_action_index
    } else {
        0
    }
}

pub fn legal_or_default(best_action_index: usize, valid_moves: &[bool; 4]) -> (action: usize)
    ensures
        action == spec_legal_or_default(best_action_index, *valid_moves),
        action < 4,
{
    if best_action_index < 4 && valid_moves[best_action_index] {
        best_action_index
    } else {
        0
    }
}

impl Arena {
    /// The state of the game.
    pub closed spec fn board(&self) -> CanonicalBoard {
        self.canonical_board
    }

    /// The player who decides the next move.
    pub closed spec fn spec_current_player(&self) -> i32 {
        self.current_player
    }

    /// What holds of a game between any two calls: the player to decide is the side to
    /// move.
    pub open spec fn wf(&self) -> bool {
        self.board().wf() && self.spec_current_player() == self.board().spec_current_player()
    }

    /// The outcome of the game for player 1.
    pub open spec fn spec_game_ended(&self) -> Outcome {
        outcome_for(snake_healths(self.board().board), self.board().min_health_threshold, 1)
    }

    /// A game that starts from `board` with player 1 to move.
    pub fn new(board: Board, min_health_threshold: u8) -> (arena: Arena)
        ensures
            arena.wf(),
            arena.board() == (CanonicalBoard {
                board,
                first_player: 1,
                prev_action: None,
                min_health_threshold,
            }),
    {
        let current_player: i32 = 1;
        Arena { canonical_board: board.as_canonical(current_player, min_health_threshold), current_player }
    }

    /// A game that starts from a board dealt by chance.
    pub fn new_game(min_health_threshold: u8) -> (arena: Arena)
        ensures
            arena.wf(),
            arena.board().first_player == 1,
            arena.board().prev_action is None,
            arena.board().min_health_threshold == min_health_threshold,
            crate::game::is_random_start(arena.board().board),
    {
        Arena::new(Board::init_random_board(), min_health_threshold)
    }

    #[verifier::when_used_as_spec(spec_current_player)]
    pub fn current_player(&self) -> (player: i32)
        ensures
            player == self.spec_current_player(),
    {
        self.current_player
    }

    /// The outcome of the game for player 1.
    #[verifier::when_used_as_spec(spec_game_ended)]
    pub fn game_ended(&self) -> (outcome: Outcome)
        ensures
            outcome == self.spec_game_ended(),
    {
        self.canonical_board.get_game_ended(1)
    }

    /// What the game needs next: nothing more once it has ended, else the decision of the
    /// player to move.
    pub fn turn(&self) -> (next: Turn)
        ensures
            match next {
                Turn::Finished(outcome) => outcome == self.spec_game_ended()
                    && outcome.spec_is_over(),
                Turn::Move { player, board } => {
                    &&& !self.spec_game_ended().spec_is_over()
                    &&& player == self.spec_current_player()
                    &&& board == self.board()
                },
            },
    {
        let value = self.canonical_board.get_game_ended(1);
        if value.is_over() {
            Turn::Finished(value)
        } else {
            Turn::Move { player: self.current_player, board: self.canonical_board }
        }
    }

    /// Plays the decision `best_action_index` of the player to move: the decided move where
    /// it is open, the move with index 0 where it is not. The move that was played comes
    /// back; nothing is played, and nothing comes back, once the game has ended, and where
    /// a ply would have to be resolved on a board that has lost one of its two snakes.
    pub fn play(&mut self, best_action_index: usize) -> (played: Option<usize>)
        requires
            old(self).wf(),
        ensures
            final(self).wf(),
            played is Some <==> !old(self).spec_game_ended().spec_is_over() && (old(
                self
            ).board().prev_action is Some ==> old(self).board().spec_can_resolve()),
            played is None ==> final(self).board() == old(self).board(),
            played is Some ==> {
                &&& exists|valid_moves: [bool; 4]|
                    {
                        &&& forall|k: int|
                            0 <= k < 4 ==> (#[trigger] valid_moves[k]) == is_listed(
                                reasonable_moves(old(self).board().board),
                                old(self).board().spec_current_snake().0,
                                k,
                            )
                        &&& played->0 == spec_legal_or_default(best_action_index, valid_moves)
                    }
                &&& old(self).board().plays_to(Move::spec_from_index(played->0), final(self).board())
            },
    {
        let value = self.canonical_board.get_game_ended(1);
        if value.is_over() {
            return None;
        }
        let valid_moves = self.canonical_board.get_valid_moves();
        let action = legal_or_default(best_action_index, &valid_moves);
        match self.canonical_board.try_next_state(action) {
            Some((next_board, next_player)) => {
                self.canonical_board = next_board;
                self.current_player = next_player;
                Some(action)
            },
            None => None,
        }
    }
}

/// The results of a series of games: the games that the new player won, those that the
/// previous player won, and the draws.
#[derive(Clone, Copy, Debug, PartialEq, Eq, Structural)]
pub struct Tally {
    pub n_wins: i32,
    pub p_wins: i32,
    pub draws: i32,
}

impl Tally {
    /// The tally of no games.
    pub fn new() -> (tally: Tally)
        ensures
            tally == (Tally { n_wins: 0, p_wins: 0, draws: 0 }),
    {
        Tally { n_wins: 0, p_wins: 0, draws: 0 }
    }

    /// The number of games in the tally.
    pub open spec fn games(&self) -> int {
        self.n_wins + self.p_wins + self.draws
    }

    /// The tally with one more game: a win counts for the new player, a loss for the
    /// previous one, and everything else as a draw.
    pub open spec fn with(&self, game_result: Outcome) -> Tally {
        match game_result {
            Outcome::Win => Tally { n_wins: (self.n_wins + 1) as i32, ..*self },
            Outcome::Loss => Tally { p_wins: (self.p_wins + 1) as i32, ..*self },
            _ => Tally { draws: (self.draws + 1) as i32, ..*self },
        }
    }

    /// Counts the result of one game, seen by the new player.
    pub fn record(&mut self, game_result: Outcome)
        requires
            old(self).n_wins >= 0,
            old(self).p_wins >= 0,
            old(self).draws >= 0,
            old(self).games() < i32::MAX,
        ensures
            *final(self) == old(self).with(game_result),
            final(self).games() == old(self).games() + 1,
            final(self).n_wins >= 0,
            final(self).p_wins >= 0,
            final(self).draws >= 0,
    {
        match game_result {
            Outcome::Win => {
                self.n_wins += 1;
            },
            Outcome::Loss => {
                self.p_wins += 1;
            },
            _ => {
                self.draws += 1;
            },
        }
    }
}

} // verus!

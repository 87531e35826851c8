//! The canonical state: a game of two sides that move at once, seen as a sequence of
//! single decisions, with its outcome, its drawings, its keys and its symmetric variants.

use crate::game::{
    alive, board_body, board_food, board_head, board_health, board_is_over,
    board_reasonable_moves, board_winner, food_cells, game_over, player_to_snake,
    reasonable_moves, snake_bodies, snake_heads, snake_healths, spec_player_to_snake,
    is_resolved, winner_of, Board, Move, Position, SnakeId, BOARD_SIZE, SNAKE_SLOTS,
};
use crate::layout::{
    array_board, hashmap_bytes, hashmap_letters, is_array_board, is_key_bytes,
    law_key_text_tells_layouts_apart, layout_of, letters_of, run_lengths, same_pieces,
    string_of, Cell, Layout,
};
use vstd::prelude::*;

verus! {

/// The cell of a grid from which a quarter-turned grid takes its cell `(row, column)`.
pub open spec fn rotation_source(rotation: usize, row: int, column: int) -> (int, int) {
    if rotation == 0 {
        (row, column)
    } else if rotation == 1 {
        (10 - column, row)
    } else if rotation == 2 {
        (10 - row, 10 - column)
    } else {
        (column, 10 - row)
    }
}

/// Whether `turned` is `board` turned by `rotation` quarter turns.
pub open spec fn is_rotated<T>(board: [[T; 11]; 11], rotation: usize, turned: [[T; 11]; 11]) -> bool {
    forall|r: int, c: int|
        0 <= r < 11 && 0 <= c < 11 ==> (#[trigger] turned[r][c]) == board[rotation_source(
            rotation,
            r,
            c,
        ).0][rotation_source(rotation, r, c).1]
}

/// Whether `flipped` is `board` with each row reversed.
pub open spec fn is_flipped<T>(board: [[T; 11]; 11], flipped: [[T; 11]; 11]) -> bool {
    forall|r: int, c: int|
        0 <= r < 11 && 0 <= c < 11 ==> (#[trigger] flipped[r][c]) == board[r][10 - c]
}

/// Whether `out` is `board` under the symmetry that turns by `rotation` quarter turns and
/// then, where `flip_horizontal` is set, reverses each row.
pub open spec fn is_symmetry_of<T>(
    board: [[T; 11]; 11],
    rotation: usize,
    flip_horizontal: bool,
    out: [[T; 11]; 11],
) -> bool {
    forall|r: int, c: int|
        0 <= r < 11 && 0 <= c < 11 ==> (#[trigger] out[r][c]) == {
            let column = if flip_horizontal {
                10 - c
            } else {
                c
            };
            board[rotation_source(rotation, r, column).0][rotation_source(rotation, r, column).1]
        }
}

/// Whether `out` shows `layout` under the symmetry: the table of rows of the layout,
/// turned by `rotation` quarter turns and then, where `flip_horizontal` is set, with each
/// row reversed.
pub open spec fn is_symmetry_of_layout(
    layout: Layout,
    rotation: usize,
    flip_horizontal: bool,
    out: [[Cell; 11]; 11],
) -> bool {
    forall|r: int, c: int|
        0 <= r < 11 && 0 <= c < 11 ==> (#[trigger] out[r][c]) == {
            let column = if flip_horizontal {
                10 - c
            } else {
                c
            };
            let source = rotation_source(rotation, r, column);
            layout.piece_at(Position { x: source.1 as i32, y: (10 - source.0) as i32 })
        }
}

/// The fixed table of the policy entries under a symmetry: the entry of the given policy
/// that entry `index` of the transformed policy takes.
pub open spec fn policy_source(rotation: usize, flip_horizontal: bool, index: int) -> int {
    let at = if flip_horizontal && index == 2 {
        3
    } else if flip_horizontal && index == 3 {
        2
    } else {
        index
    };
    if rotation == 1 {
        if at == 0 {
            2
        } else if at == 1 {
            3
        } else if at == 2 {
            1
        } else {
            0
        }
    } else if rotation == 2 {
        if at == 0 {
            1
        } else if at == 1 {
            0
        } else if at == 2 {
            3
        } else {
            2
        }
    } else if rotation == 3 {
        if at == 0 {
            3
        } else if at == 1 {
            2
        } else if at == 2 {
            0
        } else {
            1
        }
    } else {
        at
    }
}

/// Whether `turned` is the policy `pi` under the symmetry.
pub open spec fn is_rotated_policy<T>(
    pi: [T; 4],
    rotation: usize,
    flip_horizontal: bool,
    turned: [T; 4],
) -> bool {
    forall|i: int|
        0 <= i < 4 ==> (#[trigger] turned[i]) == pi[policy_source(rotation, flip_horizontal, i)]
}

/// The symmetry that undoes a symmetry: a turn with a flip undoes itself, a plain turn is
/// undone by the turn that completes the full circle.
pub open spec fn inverse_symmetry(rotation: usize, flip_horizontal: bool) -> (usize, bool) {
    if flip_horizontal {
        (rotation, true)
    } else {
        (((4 - rotation) % 4) as usize, false)
    }
}

/// `board` turned by `rotation` quarter turns.
pub fn rotate_board<T: Copy>(board: &[[T; 11]; 11], rotation: usize) -> (new_board: [[T; 11]; 11])
    requires
        rotation < 4,
    ensures
        is_rotated(*board, rotation, new_board),
{
    let mut new_board = *board;
    let mut r: usize = 0;
    while r < 11
        invariant
            r <= 11,
            rotation < 4,
            forall|a: int, c: int|
                0 <= a < r && 0 <= c < 11 ==> (#[trigger] new_board[a][c]) == board[rotation_source(
                    rotation,
                    a,
                    c,
                ).0][rotation_source(rotation, a, c).1],
        decreases 11 - r,
    {
        let mut row = board[r];
        let mut c: usize = 0;
        while c < 11
            invariant
                r < 11,
                c <= 11,
                rotation < 4,
                forall|b: int|
                    0 <= b < c ==> (#[trigger] row[b]) == board[rotation_source(
                        rotation,
                        r as int,
                        b,
                    ).0][rotation_source(rotation, r as int, b).1],
            decreases 11 - c,
        {
            row[c] = if rotation == 0 {
                board[r][c]
            } else if rotation == 1 {
                board[10 - c][r]
            } else if rotation == 2 {
                board[10 - r][10 - c]
            } else {
                board[c][10 - r]
            };
            c += 1;
        }
        new_board[r] = row;
        r += 1;
    }
    new_board
}

/// `board` with each row reversed.
pub fn flip_board_horizontal<T: Copy>(board: &[[T; 11]; 11]) -> (new_board: [[T; 11]; 11])
    ensures
        is_flipped(*board, new_board),
{
    let mut new_board = *board;
    let mut r: usize = 0;
    while r < 11
        invariant
            r <= 11,
            forall|a: int, c: int|
                0 <= a < r && 0 <= c < 11 ==> (#[trigger] new_board[a][c]) == board[a][10 - c],
        decreases 11 - r,
    {
        let mut row = board[r];
        let mut c: usize = 0;
        while c < 11
            invariant
                r < 11,
                c <= 11,
                forall|b: int| 0 <= b < c ==> (#[trigger] row[b]) == board[r as int][10 - b],
            decreases 11 - c,
        {
            row[c] = board[r][10 - c];
            c += 1;
        }
        new_board[r] = row;
        r += 1;
    }
    new_board
}

/// The policy `pi` under a symmetry of the board: each entry is taken from the entry that
/// the fixed table names. A `rotation` above 3 turns nothing.
pub fn rotate_policy<T: Copy>(pi: &[T; 4], rotation: usize, flip_horizontal: bool) -> (new_pis: [T; 4])
    ensures
        is_rotated_policy(*pi, rotation, flip_horizontal, new_pis),
{
    let mut rotation_mapping: [usize; 4] = if rotation == 1 {
        [2, 3, 1, 0]
    } else if rotation == 2 {
        [1, 0, 3, 2]
    } else if rotation == 3 {
        [3, 2, 0, 1]
    } else {
        [0, 1, 2, 3]
    };
    if flip_horizontal {
        let third = rotation_mapping[2];
        rotation_mapping[2] = rotation_mapping[3];
        rotation_mapping[3] = third;
    }
    assert forall|i: int| 0 <= i < 4 implies (#[trigger] rotation_mapping[i]) == policy_source(
        rotation,
        flip_horizontal,
        i,
    ) by {}
    let mut new_pis = *pi;
    let mut i: usize = 0;
    while i < 4
        invariant
            i <= 4,
            forall|k: int|
                0 <= k < 4 ==> (#[trigger] rotation_mapping[k]) == policy_source(
                    rotation,
                    flip_horizontal,
                    k,
                ),
            forall|k: int|
                0 <= k < i ==> (#[trigger] new_pis[k]) == pi[policy_source(
                    rotation,
                    flip_horizontal,
                    k,
                )],
        decreases 4 - i,
    {
        new_pis[i] = pi[rotation_mapping[i]];
        i += 1;
    }
    new_pis
}

/// A quarter-turned board is the symmetry without a flip, and a quarter-turned board with
/// its rows reversed is the symmetry with a flip: what the two functions give, one after
/// the other, is what the round trip below speaks of.
pub proof fn law_turn_and_flip_make_a_symmetry<T>(
    board: [[T; 11]; 11],
    rotation: usize,
    turned: [[T; 11]; 11],
    flipped: [[T; 11]; 11],
)
    requires
        is_rotated(board, rotation, turned),
        is_flipped(turned, flipped),
    ensures
        is_symmetry_of(board, rotation, false, turned),
        is_symmetry_of(board, rotation, true, flipped),
{
    assert forall|r: int, c: int| 0 <= r < 11 && 0 <= c < 11 implies (#[trigger] flipped[r][c])
        == board[rotation_source(rotation, r, 10 - c).0][rotation_source(rotation, r, 10 - c).1] by {
        assert(flipped[r][c] == turned[r][10 - c]);
    }
}

/// A symmetry followed by its inverse gives back the policy it was applied to.
pub proof fn law_policy_symmetry_round_trip<T>(
    pi: [T; 4],
    rotation: usize,
    flip_horizontal: bool,
    there: [T; 4],
    back: [T; 4],
)
    requires
        rotation < 4,
        is_rotated_policy(pi, rotation, flip_horizontal, there),
        is_rotated_policy(
            there,
            inverse_symmetry(rotation, flip_horizontal).0,
            inverse_symmetry(rotation, flip_horizontal).1,
            back,
        ),
    ensures
        back@ == pi@,
{
    assert forall|i: int| 0 <= i < 4 implies back@[i] == pi@[i] by {
        let inverse = inverse_symmetry(rotation, flip_horizontal);
        let via = policy_source(inverse.0, inverse.1, i);
        assert(back[i] == there[via]);
        assert(there[via] == pi[policy_source(rotation, flip_horizontal, via)]);
    }
    assert(back@ =~= pi@);
}

/// A symmetry followed by its inverse gives back the grid it was applied to.
pub proof fn law_board_symmetry_round_trip<T>(
    board: [[T; 11]; 11],
    rotation: usize,
    flip_horizontal: bool,
    there: [[T; 11]; 11],
    back: [[T; 11]; 11],
)
    requires
        rotation < 4,
        is_symmetry_of(board, rotation, flip_horizontal, there),
        is_symmetry_of(
            there,
            inverse_symmetry(rotation, flip_horizontal).0,
            inverse_symmetry(rotation, flip_horizontal).1,
            back,
        ),
    ensures
        forall|r: int, c: int| 0 <= r < 11 && 0 <= c < 11 ==> back[r][c] == board[r][c],
{
    assert forall|r: int, c: int| 0 <= r < 11 && 0 <= c < 11 implies back[r][c] == board[r][c] by {
        let inverse = inverse_symmetry(rotation, flip_horizontal);
        let column = if inverse.1 {
            10 - c
        } else {
            c
        };
        let via = rotation_source(inverse.0, r, column);
        assert(back[r][c] == there[via.0][via.1]);
        let column_there = if flip_horizontal {
            10 - via.1
        } else {
            via.1
        };
        let origin = rotation_source(rotation, via.0, column_there);
        assert(there[via.0][via.1] == board[origin.0][origin.1]);
    }
}

/// A position as it is recorded for training while its game goes on: the grid seen by the
/// mover, the distribution the search gave for it, and the mover.
pub type Recorded<T> = ([[Cell; 11]; 11], [T; 4], i32);

/// Whether `symmetries` holds the eight symmetric variants of `layout`, each with the
/// distribution `pi` turned the same way and with `player`.
pub open spec fn is_augmented<T>(
    layout: Layout,
    pi: [T; 4],
    player: i32,
    symmetries: Seq<Recorded<T>>,
) -> bool {
    &&& symmetries.len() == 8
    &&& forall|k: int|
        0 <= k < 8 ==> {
            &&& is_symmetry_of_layout(
                layout,
                (k / 2) as usize,
                k % 2 == 1,
                (#[trigger] symmetries[k]).0,
            )
            &&& is_rotated_policy(pi, (k / 2) as usize, k % 2 == 1, symmetries[k].1)
            &&& symmetries[k].2 == player
        }
}

/// Every variant of an augmentation leads back: the inverse of its symmetry gives the grid
/// of the position, top row first, and the distribution that was augmented.
pub proof fn law_augmentation_round_trip<T>(
    layout: Layout,
    pi: [T; 4],
    player: i32,
    symmetries: Seq<Recorded<T>>,
    variant: int,
    back_board: [[Cell; 11]; 11],
    back_pi: [T; 4],
)
    requires
        is_augmented(layout, pi, player, symmetries),
        0 <= variant < 8,
        is_symmetry_of(
            symmetries[variant].0,
            inverse_symmetry((variant / 2) as usize, variant % 2 == 1).0,
            inverse_symmetry((variant / 2) as usize, variant % 2 == 1).1,
            back_board,
        ),
        is_rotated_policy(
            symmetries[variant].1,
            inverse_symmetry((variant / 2) as usize, variant % 2 == 1).0,
            inverse_symmetry((variant / 2) as usize, variant % 2 == 1).1,
            back_pi,
        ),
    ensures
        is_array_board(back_board, layout),
        back_pi@ == pi@,
{
    let rotation = (variant / 2) as usize;
    let flip = variant % 2 == 1;
    let there = symmetries[variant].0;
    law_policy_symmetry_round_trip(pi, rotation, flip, symmetries[variant].1, back_pi);
    assert forall|r: int, c: int| 0 <= r < 11 && 0 <= c < 11 implies (#[trigger] back_board[r][c])
        == layout.piece_at(Position { x: c as i32, y: (10 - r) as i32 }) by {
        let inverse = inverse_symmetry(rotation, flip);
        let column = if inverse.1 {
            10 - c
        } else {
            c
        };
        let via = rotation_source(inverse.0, r, column);
        assert(back_board[r][c] == there[via.0][via.1]);
    }
}

/// What a canonical state reads off its board to draw it: the mover's head and body, the
/// opponent's head and body, and the food. A dead snake has neither head nor body.
pub type AllBoardInfo = (
    Option<Position>,
    Option<Vec<Position>>,
    Option<Position>,
    Option<Vec<Position>>,
    Vec<Position>,
);

/// How a game stands for one player. `Draw` is a finished game without a winner, kept
/// apart from `Ongoing`; `DrawAgainst` is the same draw seen from the other side of the
/// table, which is what negating a draw gives.
#[derive(Clone, Copy, Debug, PartialEq, Eq, Hash, Structural)]
pub enum Outcome {
    Ongoing,
    Win,
    Loss,
    Draw,
    DrawAgainst,
}

impl Outcome {
    /// The same result seen by the opponent.
    pub open spec fn spec_negated(self) -> Outcome {
        match self {
            Outcome::Ongoing => Outcome::Ongoing,
            Outcome::Win => Outcome::Loss,
            Outcome::Loss => Outcome::Win,
            Outcome::Draw => Outcome::DrawAgainst,
            Outcome::DrawAgainst => Outcome::Draw,
        }
    }

    #[verifier::when_used_as_spec(spec_negated)]
    pub fn negated(self) -> (flipped: Outcome)
        ensures
            flipped == self.spec_negated(),
    {
        match self {
            Outcome::Ongoing => Outcome::Ongoing,
            Outcome::Win => Outcome::Loss,
            Outcome::Loss => Outcome::Win,
            Outcome::Draw => Outcome::DrawAgainst,
            Outcome::DrawAgainst => Outcome::Draw,
        }
    }

    /// The character that stands for the outcome in a key of text.
    pub open spec fn spec_letter(self) -> char {
        match self {
            Outcome::Ongoing => '?',
            Outcome::Win => '+',
            Outcome::Loss => '-',
            Outcome::Draw => '=',
            Outcome::DrawAgainst => '~',
        }
    }

    #[verifier::when_used_as_spec(spec_letter)]
    pub fn letter(self) -> (letter: char)
        ensures
            letter == self.spec_letter(),
    {
        match self {
            Outcome::Ongoing => '?',
            Outcome::Win => '+',
            Outcome::Loss => '-',
            Outcome::Draw => '=',
            Outcome::DrawAgainst => '~',
        }
    }

    /// Whether the game has ended.
    pub open spec fn spec_is_over(self) -> bool {
        self != Outcome::Ongoing
    }

    #[verifier::when_used_as_spec(spec_is_over)]
    pub fn is_over(self) -> (over: bool)
        ensures
            over == self.spec_is_over(),
    {
        !matches!(self, Outcome::Ongoing)
    }
}

/// The character that stands in a key of text for the half-move that waits for the other
/// side's: `n` where none waits, else the first letter of the move.
pub open spec fn spec_pending_letter(pending: Option<Move>) -> char {
    match pending {
        None => 'n',
        Some(Move::Up) => 'u',
        Some(Move::Down) => 'd',
        Some(Move::Left) => 'l',
        Some(Move::Right) => 'r',
    }
}

#[verifier::when_used_as_spec(spec_pending_letter)]
pub fn pending_letter(pending: Option<Move>) -> (letter: char)
    ensures
        letter == spec_pending_letter(pending),
{
    match pending {
        None => 'n',
        Some(Move::Up) => 'u',
        Some(Move::Down) => 'd',
        Some(Move::Left) => 'l',
        Some(Move::Right) => 'r',
    }
}

/// The outcome for `player` of a game whose snakes have the healths `healths`, where a
/// snake whose health is below `threshold` counts as eliminated although the rules have
/// not ended the game: both eliminated is a draw, one eliminated is a win for the other.
pub open spec fn outcome_for(healths: Seq<u8>, threshold: u8, player: i32) -> Outcome {
    let first_out = healths[0] < threshold;
    let second_out = healths[1] < threshold;
    let over = game_over(healths) || first_out || second_out;
    let winner = if game_over(healths) {
        winner_of(healths)
    } else if first_out && second_out {
        None
    } else if first_out {
        Some(SnakeId(1))
    } else {
        Some(SnakeId(0))
    };
    if !over {
        Outcome::Ongoing
    } else if winner is None {
        Outcome::Draw
    } else if winner == Some(spec_player_to_snake(player)) {
        Outcome::Win
    } else {
        Outcome::Loss
    }
}

/// What a snake shows of itself on `board`: its head and the cells of its body while it is
/// alive, nothing once it is dead.
pub open spec fn snake_on(board: Board, slot: int) -> (Option<Position>, Option<Seq<Position>>) {
    if alive(board, slot) {
        (Some(snake_heads(board)[slot]), Some(snake_bodies(board)[slot]))
    } else {
        (None, None)
    }
}

/// The view of an optional list of cells.
pub open spec fn cells_of(cells: Option<Vec<Position>>) -> Option<Seq<Position>> {
    match cells {
        Some(list) => Some(list@),
        None => None,
    }
}

/// A two-player game seen as a sequence of single decisions: the two sides of one ply
/// choose one after the other, and the board moves on when both have chosen.
#[derive(Clone, Copy)]
pub struct CanonicalBoard {
    pub board: Board,
    pub first_player: i32,
    pub prev_action: Option<Move>,
    pub min_health_threshold: u8,
}

impl CanonicalBoard {
    /// A canonical state names its first player 1 or -1.
    pub open spec fn wf(&self) -> bool {
        self.first_player == 1 || self.first_player == -1
    }

    pub fn new(
        board: Board,
        first_player: i32,
        prev_action: Option<Move>,
        health_kill_threshold: u8,
    ) -> (state: Self)
        ensures
            state == (CanonicalBoard {
                board,
                first_player,
                prev_action,
                min_health_threshold: health_kill_threshold,
            }),
    {
        CanonicalBoard {
            board,
            first_player,
            prev_action,
            min_health_threshold: health_kill_threshold,
        }
    }

    /// The same position with the side to move made the first player and no move pending.
    pub open spec fn spec_reset(&self) -> CanonicalBoard {
        CanonicalBoard {
            board: self.board,
            first_player: self.spec_current_player(),
            prev_action: None,
            min_health_threshold: self.min_health_threshold,
        }
    }

    pub fn reset_and_clone_as_current_player(&self) -> (state: CanonicalBoard)
        requires
            self.wf(),
        ensures
            state == self.spec_reset(),
            state.wf(),
            state.board == self.board,
            state.min_health_threshold == self.min_health_threshold,
            state.prev_action is None,
            state.first_player == self.spec_current_player(),
            state.spec_current_player() == self.spec_current_player(),
    {
        let mut new_board = *self;
        if new_board.prev_action.is_some() {
            new_board.prev_action = None;
            new_board.first_player = -new_board.first_player;
        }
        new_board
    }

    /// The side to move: the first player while no move is pending, the other side once the
    /// first player has chosen.
    pub open spec fn spec_current_player(&self) -> i32 {
        if self.prev_action is None {
            self.first_player
        } else {
            (-self.first_player) as i32
        }
    }

    #[verifier::when_used_as_spec(spec_current_player)]
    pub fn get_current_player(&self) -> (player: i32)
        requires
            self.wf(),
        ensures
            player == self.spec_current_player(),
            player == 1 || player == -1,
    {
        if self.prev_action.is_none() {
            self.first_player
        } else {
            -self.first_player
        }
    }

    /// The snake of the side to move.
    pub open spec fn spec_current_snake(&self) -> SnakeId {
        if self.spec_current_player() == 1 {
            SnakeId(0)
        } else {
            SnakeId(1)
        }
    }

    #[verifier::when_used_as_spec(spec_current_snake)]
    pub fn get_current_snake(&self) -> (snake: SnakeId)
        requires
            self.wf(),
        ensures
            snake == self.spec_current_snake(),
    {
        if self.get_current_player() == 1 {
            SnakeId(0)
        } else {
            SnakeId(1)
        }
    }

    /// The snake of the side that is not to move.
    pub open spec fn spec_opponent_snake(&self) -> SnakeId {
        if self.spec_current_player() == 1 {
            SnakeId(1)
        } else {
            SnakeId(0)
        }
    }

    #[verifier::when_used_as_spec(spec_opponent_snake)]
    pub fn get_opponent_snake(&self) -> (snake: SnakeId)
        requires
            self.wf(),
        ensures
            snake == self.spec_opponent_snake(),
    {
        if self.get_current_player() == 1 {
            SnakeId(1)
        } else {
            SnakeId(0)
        }
    }

    /// The outcome of the game for `player_id`, the early elimination by health included.
    pub fn get_game_ended(&self, player_id: i32) -> (outcome: Outcome)
        ensures
            outcome == outcome_for(
                snake_healths(self.board),
                self.min_health_threshold,
                player_id,
            ),
            outcome != Outcome::DrawAgainst,
    {
        let mut is_over = board_is_over(&self.board);
        let mut winner = board_winner(&self.board);
        if !is_over {
            let snake_0_is_dead = board_health(&self.board, 0) < self.min_health_threshold;
            let snake_1_is_dead = board_health(&self.board, 1) < self.min_health_threshold;
            if snake_0_is_dead || snake_1_is_dead {
                is_over = true;
                winner = if snake_0_is_dead && snake_1_is_dead {
                    None
                } else if snake_0_is_dead {
                    Some(SnakeId(1))
                } else {
                    Some(SnakeId(0))
                };
            }
        }
        if is_over {
            match winner {
                None => Outcome::Draw,
                Some(winner) => {
                    if winner == player_to_snake(player_id) {
                        Outcome::Win
                    } else {
                        Outcome::Loss
                    }
                },
            }
        } else {
            Outcome::Ongoing
        }
    }

    /// The head and the body cells of a snake, or nothing for a dead one.
    pub fn get_snake_head_and_body(&self, snake_id: &SnakeId) -> (found: (
        Option<Position>,
        Option<Vec<Position>>,
    ))
        requires
            snake_id.0 < SNAKE_SLOTS,
        ensures
            (found.0, cells_of(found.1)) == snake_on(self.board, snake_id.0 as int),
            found.0 is Some ==> found.0->0.on_grid(),
            found.1 is Some ==> crate::game::all_on_grid(found.1->0@),
    {
        if board_health(&self.board, snake_id.0) != 0 {
            let head = board_head(&self.board, snake_id.0);
            let body = board_body(&self.board, snake_id.0, BOARD_SIZE as u8);
            (Some(head), Some(body))
        } else {
            (None, None)
        }
    }

    /// Everything that is drawn of the position, the side to move first.
    pub fn get_info_for_repr(&self) -> (info: AllBoardInfo)
        requires
            self.wf(),
        ensures
            (info.0, cells_of(info.1)) == snake_on(self.board, self.spec_current_snake().0 as int),
            (info.2, cells_of(info.3)) == snake_on(
                self.board,
                self.spec_opponent_snake().0 as int,
            ),
            info.4@ == food_cells(self.board),
            info_on_grid(info),
            layout_of(info) == self.layout(),
    {
        let snake_id = self.get_current_snake();
        let (self_head, self_body) = self.get_snake_head_and_body(&snake_id);
        let opponent_snake_id = self.get_opponent_snake();
        let (other_head, other_body) = self.get_snake_head_and_body(&opponent_snake_id);
        let foods = board_food(&self.board);
        (self_head, self_body, other_head, other_body, foods)
    }

    /// The pieces of the position as the side to move sees them.
    pub open spec fn layout(&self) -> Layout {
        let mine = snake_on(self.board, self.spec_current_snake().0 as int);
        let theirs = snake_on(self.board, self.spec_opponent_snake().0 as int);
        Layout {
            self_head: mine.0,
            self_body: if mine.1 is Some {
                mine.1->0
            } else {
                Seq::empty()
            },
            other_head: theirs.0,
            other_body: if theirs.1 is Some {
                theirs.1->0
            } else {
                Seq::empty()
            },
            food: food_cells(self.board),
        }
    }

    /// The position as a table of rows, the top row first, for the records of self-play.
    pub fn to_array_board(&self) -> (board: [[Cell; 11]; 11])
        requires
            self.wf(),
        ensures
            is_array_board(board, self.layout()),
    {
        let info = self.get_info_for_repr();
        array_board(&info)
    }

    /// The position as the evaluator is fed it: the same table of rows that the records of
    /// self-play hold.
    pub fn to_tensor_board(&self) -> (board: [[Cell; 11]; 11])
        requires
            self.wf(),
        ensures
            is_array_board(board, self.layout()),
    {
        self.to_array_board()
    }

    /// The key of bytes under which the records of self-play file the position.
    pub fn to_hashmap_bytes(&self) -> (key: [u8; 121])
        requires
            self.wf(),
        ensures
            is_key_bytes(key, self.layout()),
    {
        let info = self.get_info_for_repr();
        hashmap_bytes(&info)
    }

    /// The outcome of the game for the first player of the state.
    pub open spec fn spec_outcome(&self) -> Outcome {
        outcome_for(snake_healths(self.board), self.min_health_threshold, self.first_player)
    }

    /// The key of text of the state: the run-length encoding of the letters of its
    /// layout, then the character of the half-move that waits, then the character of the
    /// outcome for its first player.
    pub open spec fn spec_key_text(&self) -> Seq<char> {
        run_lengths(letters_of(self.layout())).push(spec_pending_letter(self.prev_action)).push(
            self.spec_outcome().spec_letter(),
        )
    }

    /// The key of text under which the search files the state. It tells apart what the
    /// side to move sees on the grid, the half-move that waits, and the outcome for the
    /// first player.
    pub fn to_hashmap_string(&self) -> (key: String)
        requires
            self.wf(),
        ensures
            key@ == self.spec_key_text(),
    {
        let info = self.get_info_for_repr();
        let mut characters = hashmap_letters(&info);
        characters.push(pending_letter(self.prev_action));
        characters.push(self.get_game_ended(self.first_player).letter());
        string_of(&characters)
    }

    /// The eight symmetric variants of the position together with the policy `pi` turned
    /// the same way and the side to move: for each number of quarter turns, first the plain
    /// variant, then the one with its rows reversed.
    pub fn get_mirroring_and_rotation<T: Copy>(&self, pi: &[T; 4]) -> (symmetries: Vec<Recorded<T>>)
        requires
            self.wf(),
        ensures
            is_augmented(self.layout(), *pi, self.spec_current_player(), symmetries@),
    {
        let mut symmetries: Vec<([[Cell; 11]; 11], [T; 4], i32)> = Vec::new();
        let current_player = self.get_current_player();
        let array_board = self.to_array_board();
        let mut rotation: usize = 0;
        while rotation < 4
            invariant
                rotation <= 4,
                self.wf(),
                current_player == self.spec_current_player(),
                is_array_board(array_board, self.layout()),
                symmetries@.len() == 2 * rotation,
                forall|k: int|
                    0 <= k < 2 * rotation ==> {
                        &&& is_symmetry_of_layout(
                            self.layout(),
                            (k / 2) as usize,
                            k % 2 == 1,
                            (#[trigger] symmetries@[k]).0,
                        )
                        &&& is_rotated_policy(
                            *pi,
                            (k / 2) as usize,
                            k % 2 == 1,
                            symmetries@[k].1,
                        )
                        &&& symmetries@[k].2 == self.spec_current_player()
                    },
            decreases 4 - rotation,
        {
            let turned = rotate_board(&array_board, rotation);
            let plain_pi = rotate_policy(pi, rotation, false);
            symmetries.push((turned, plain_pi, current_player));
            let flipped = flip_board_horizontal(&turned);
            let flipped_pi = rotate_policy(pi, rotation, true);
            symmetries.push((flipped, flipped_pi, current_player));
            proof {
                assert(is_symmetry_of_layout(self.layout(), rotation, false, turned));
                assert(is_symmetry_of_layout(self.layout(), rotation, true, flipped));
            }
            rotation += 1;
        }
        symmetries
    }

    /// The moves open to the side to move: those that the rules engine lists for its
    /// snake.
    pub fn get_valid_moves(&self) -> (valid: [bool; 4])
        requires
            self.wf(),
        ensures
            forall|k: int|
                0 <= k < 4 ==> (#[trigger] valid[k]) == is_listed(
                    reasonable_moves(self.board),
                    self.spec_current_snake().0,
                    k,
                ),
    {
        let snake_id = self.get_current_snake();
        let mut valid_moves = [false;4];
        let lists = board_reasonable_moves(&self.board);
        let ghost listed = reasonable_moves(self.board);
        let mut i: usize = 0;
        while i < lists.len()
            invariant
                i <= lists@.len(),
                lists@.len() == listed.len(),
                forall|a: int|
                    0 <= a < lists@.len() ==> {
                        &&& (#[trigger] lists@[a]).0 == listed[a].0
                        &&& lists@[a].1@ == listed[a].1
                        &&& forall|b: int|
                            0 <= b < lists@[a].1@.len() ==> (#[trigger] lists@[a].1@[b]) < 4
                    },
                forall|k: int|
                    0 <= k < 4 ==> (#[trigger] valid_moves[k]) == is_listed(
                        listed.take(i as int),
                        snake_id.0,
                        k,
                    ),
            decreases lists@.len() - i,
        {
            let ghost seen = listed.take(i as int);
            let ghost seen_next = listed.take(i + 1);
            if lists[i].0 == snake_id.0 {
                let moves = &lists[i].1;
                let ghost entry = listed[i as int].1;
                let mut j: usize = 0;
                while j < moves.len()
                    invariant
                        j <= moves@.len(),
                        moves@ == entry,
                        forall|b: int| 0 <= b < moves@.len() ==> (#[trigger] moves@[b]) < 4,
                        forall|k: int|
                            0 <= k < 4 ==> (#[trigger] valid_moves[k]) == (is_listed(
                                seen,
                                snake_id.0,
                                k,
                            ) || entry.take(j as int).contains(k as usize)),
                    decreases moves@.len() - j,
                {
                    let mv = moves[j];
                    valid_moves[mv] = true;
                    proof {
                        assert(entry.take(j + 1) =~= entry.take(j as int).push(mv));
                        assert forall|k: int| 0 <= k < 4 implies (#[trigger] valid_moves[k]) == (
                        is_listed(seen, snake_id.0, k) || entry.take(j + 1).contains(
                            k as usize,
                        )) by {
                            crate::layout::lemma_holds_after_push(entry.take(j as int), mv, k as usize);
                        }
                    }
                    j += 1;
                }
                proof {
                    assert(entry.take(entry.len() as int) =~= entry);
                }
            }
            proof {
                assert forall|k: int| 0 <= k < 4 implies (#[trigger] valid_moves[k]) == is_listed(
                    seen_next,
                    snake_id.0,
                    k,
                ) by {
                    lemma_is_listed_step(listed, i as int, snake_id.0, k);
                }
            }
            i += 1;
        }
        proof {
            assert(listed.take(listed.len() as int) =~= listed);
        }
        valid_moves
    }

    /// The two half-moves of a ply in the order of the snakes: the pending move belongs to
    /// the first player, `action` to the other side.
    pub fn ordered_moves(&self, action: Move) -> (moves: [Move; 2])
        requires
            self.prev_action is Some,
        ensures
            moves[0] == if self.first_player == 1 {
                self.prev_action->0
            } else {
                action
            },
            moves[1] == if self.first_player == 1 {
                action
            } else {
                self.prev_action->0
            },
    {
        match self.prev_action {
            Some(prev_action) => {
                if self.first_player == 1 {
                    [prev_action, action]
                } else {
                    [action, prev_action]
                }
            },
            None => [action, action],
        }
    }

    /// The state in which `action` is pending: the board is the same, the other side is to
    /// move.
    pub open spec fn with_pending(&self, action: Move) -> CanonicalBoard {
        CanonicalBoard { prev_action: Some(action), ..*self }
    }

    /// The state after a full ply that led to the board `next`: nothing is pending and the
    /// first player is to move again.
    pub open spec fn spec_after_ply(&self, next: Board) -> CanonicalBoard {
        CanonicalBoard { board: next, prev_action: None, ..*self }
    }

    #[verifier::when_used_as_spec(spec_after_ply)]
    pub fn after_ply(&self, next: Board) -> (state: CanonicalBoard)
        ensures
            state == self.spec_after_ply(next),
    {
        CanonicalBoard::new(next, self.first_player, None, self.min_health_threshold)
    }

    /// What `play_action` may return for `action`: with no move pending, the state with
    /// `action` pending; with a move pending, the state after the ply in which each snake
    /// makes the move of its side, on a board that the rules give for that ply.
    pub open spec fn plays_to(&self, action: Move, state: CanonicalBoard) -> bool {
        if self.prev_action is None {
            state == self.with_pending(action)
        } else {
            &&& state == self.spec_after_ply(state.board)
            &&& is_resolved(
                self.board,
                self.spec_first_move(action),
                self.spec_second_move(action),
                state.board,
            )
        }
    }

    /// The move that the first snake makes in the ply that `action` completes: the pending
    /// move where player 1 moved first, `action` where the other side did.
    pub open spec fn spec_first_move(&self, action: Move) -> Move {
        if self.first_player == 1 {
            self.prev_action->0
        } else {
            action
        }
    }

    /// The move that the second snake makes in the ply that `action` completes.
    pub open spec fn spec_second_move(&self, action: Move) -> Move {
        if self.first_player == 1 {
            action
        } else {
            self.prev_action->0
        }
    }

    /// Whether the board can be moved on: both snakes are alive.
    pub open spec fn spec_can_resolve(&self) -> bool {
        alive(self.board, 0) && alive(self.board, 1)
    }

    #[verifier::when_used_as_spec(spec_can_resolve)]
    pub fn can_resolve(&self) -> (able: bool)
        ensures
            able == self.spec_can_resolve(),
    {
        self.board.can_simulate()
    }

    /// Applies the half-move `action`. The first half-move of a ply is only recorded; the
    /// second has the rules engine resolve both, which needs both snakes alive.
    pub fn play_action(&self, action: Move) -> (state: CanonicalBoard)
        requires
            self.prev_action is Some ==> self.spec_can_resolve(),
        ensures
            self.plays_to(action, state),
    {
        if self.prev_action.is_some() {
            let actions = self.ordered_moves(action);
            let next_board = self.board.simulate_moves(&actions);
            self.after_ply(next_board)
        } else {
            let mut new_state = *self;
            new_state.prev_action = Some(action);
            new_state
        }
    }

    /// Applies the half-move with index `action` and names the side that moves next.
    pub fn get_next_state(&self, action: usize) -> (next: (CanonicalBoard, i32))
        requires
            self.wf(),
            action < 4,
            self.prev_action is Some ==> self.spec_can_resolve(),
        ensures
            self.plays_to(Move::spec_from_index(action), next.0),
            next.1 == next.0.spec_current_player(),
    {
        let action = Move::from_index(action);
        let next_board = self.play_action(action);
        let next_player = next_board.get_current_player();
        (next_board, next_player)
    }

    /// `get_next_state` where it applies: nothing for an index that names no move, and
    /// nothing where a ply would have to be resolved on a board that has lost a snake.
    pub fn try_next_state(&self, action: usize) -> (next: Option<(CanonicalBoard, i32)>)
        requires
            self.wf(),
        ensures
            next is Some <==> action < 4 && (self.prev_action is Some
                ==> self.spec_can_resolve()),
            next is Some ==> {
                &&& self.plays_to(Move::spec_from_index(action), (next->0).0)
                &&& (next->0).1 == (next->0).0.spec_current_player()
            },
    {
        if action >= 4 {
            return None;
        }
        if self.prev_action.is_some() && !self.can_resolve() {
            return None;
        }
        Some(self.get_next_state(action))
    }
}

/// Whether the rules engine lists the move with index `index` for the snake in `slot`.
pub open spec fn is_listed(lists: Seq<(u8, Seq<usize>)>, slot: u8, index: int) -> bool {
    exists|i: int|
        0 <= i < lists.len() && (#[trigger] lists[i]).0 == slot && lists[i].1.contains(
            index as usize,
        )
}

/// Looking at one more entry of the lists adds what that entry lists for the slot.
proof fn lemma_is_listed_step(lists: Seq<(u8, Seq<usize>)>, seen: int, slot: u8, index: int)
    requires
        0 <= seen < lists.len(),
    ensures
        is_listed(lists.take(seen + 1), slot, index) == (is_listed(
            lists.take(seen),
            slot,
            index,
        ) || (lists[seen].0 == slot && lists[seen].1.contains(index as usize))),
{
    let shorter = lists.take(seen);
    let longer = lists.take(seen + 1);
    if is_listed(shorter, slot, index) {
        let i = choose|i: int|
            0 <= i < shorter.len() && (#[trigger] shorter[i]).0 == slot && shorter[i].1.contains(
                index as usize,
            );
        assert(longer[i] == shorter[i]);
    }
    if lists[seen].0 == slot && lists[seen].1.contains(index as usize) {
        assert(longer[seen] == lists[seen]);
    }
    if is_listed(longer, slot, index) {
        let i = choose|i: int|
            0 <= i < longer.len() && (#[trigger] longer[i]).0 == slot && longer[i].1.contains(
                index as usize,
            );
        if i < seen {
            assert(shorter[i] == longer[i]);
        } else {
            assert(longer[i] == lists[seen]);
        }
    }
}

/// The key of text tells states apart: two states have the same key exactly when they
/// show the side to move the same pieces, have the same half-move waiting, and have the
/// same outcome for their first player.
pub proof fn law_key_text_tells_states_apart(one: CanonicalBoard, other: CanonicalBoard)
    ensures
        one.spec_key_text() == other.spec_key_text() <==> {
            &&& same_pieces(one.layout(), other.layout())
            &&& one.prev_action == other.prev_action
            &&& one.spec_outcome() == other.spec_outcome()
        },
{
    let grid_one = run_lengths(letters_of(one.layout()));
    let grid_other = run_lengths(letters_of(other.layout()));
    let with_one = grid_one.push(spec_pending_letter(one.prev_action));
    let with_other = grid_other.push(spec_pending_letter(other.prev_action));
    law_key_text_tells_layouts_apart(one.layout(), other.layout());
    if one.spec_key_text() == other.spec_key_text() {
        assert(one.spec_key_text().last() == other.spec_key_text().last());
        assert(one.spec_key_text().drop_last() =~= with_one);
        assert(other.spec_key_text().drop_last() =~= with_other);
        assert(with_one.last() == with_other.last());
        assert(with_one.drop_last() =~= grid_one);
        assert(with_other.drop_last() =~= grid_other);
    }
}

/// The key of text tells the half-moves of a ply apart: after two different first
/// half-moves from the same state the keys differ.
pub proof fn law_key_text_tells_pending_moves_apart(
    state: CanonicalBoard,
    one: Move,
    other: Move,
)
    requires
        one != other,
    ensures
        state.with_pending(one).spec_key_text() != state.with_pending(other).spec_key_text(),
{
    law_key_text_tells_states_apart(state.with_pending(one), state.with_pending(other));
}

/// Two half-moves make one ply: the first leaves the board as it is and hands the move to
/// the other side; after the second nothing is pending, and the side that moved first is
/// to move again.
pub proof fn law_two_half_moves_make_a_ply(
    state: CanonicalBoard,
    first: Move,
    second: Move,
    midway: CanonicalBoard,
    after: CanonicalBoard,
)
    requires
        state.wf(),
        state.prev_action is None,
        state.plays_to(first, midway),
        midway.plays_to(second, after),
    ensures
        midway.board == state.board,
        midway.prev_action == Some(first),
        midway.spec_current_player() == -state.spec_current_player(),
        after.prev_action is None,
        after.first_player == state.first_player,
        after.spec_current_player() == state.spec_current_player(),
        after.wf(),
{
}

impl Board {
    /// The board as a canonical state in which `player` moves first and nothing is
    /// pending.
    pub fn as_canonical(&self, player: i32, health_kill_threshold: u8) -> (state: CanonicalBoard)
        ensures
            state == (CanonicalBoard {
                board: *self,
                first_player: player,
                prev_action: None,
                min_health_threshold: health_kill_threshold,
            }),
    {
        CanonicalBoard::new(*self, player, None, health_kill_threshold)
    }
}

/// Whether every cell that `info` names lies on the grid.
pub open spec fn info_on_grid(info: AllBoardInfo) -> bool {
    &&& info.0 is Some ==> info.0->0.on_grid()
    &&& info.1 is Some ==> crate::game::all_on_grid(info.1->0@)
    &&& info.2 is Some ==> info.2->0.on_grid()
    &&& info.3 is Some ==> crate::game::all_on_grid(info.3->0@)
    &&& crate::game::all_on_grid(info.4@)
}

} // verus!

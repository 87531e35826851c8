//! The game as the rules engine keeps it: boards, what a board holds, the moves open on
//! it, the ply that moves it on, and the starts that games are dealt from.

use battlesnake_game_types::compact_representation::StandardCellBoard4Snakes11x11;
use battlesnake_game_types::types::{
    FoodGettableGame, HeadGettableGame, HealthGettableGame, ReasonableMovesGame, SimulableGame,
    SimulatorInstruments, SnakeBodyGettableGame, StandardFoodPlaceableGame,
    VictorDeterminableGame,
};
use battlesnake_game_types::types::build_snake_id_map;
use battlesnake_game_types::wire_representation::Game;
use rand::seq::SliceRandom;
use rand::Rng;
use vstd::prelude::*;

verus! {

/// Side length of the grid every board of this library is played on.
pub const BOARD_SIZE: i32 = 11;

/// Number of snakes a board has room for.
pub const SNAKE_SLOTS: u8 = 4;

/// A cell of the grid, `x` counted from the left and `y` from the bottom.
#[derive(Clone, Copy, Debug, PartialEq, Eq, Hash, Structural)]
pub struct Position {
    pub x: i32,
    pub y: i32,
}

impl Position {
    /// Whether the cell lies on the grid.
    pub open spec fn on_grid(self) -> bool {
        0 <= self.x < BOARD_SIZE && 0 <= self.y < BOARD_SIZE
    }
}

/// Whether every cell of `cells` lies on the grid.
pub open spec fn all_on_grid(cells: Seq<Position>) -> bool {
    forall|i: int| 0 <= i < cells.len() ==> (#[trigger] cells[i]).on_grid()
}

/// One of the four directions a snake can move in.
#[derive(Clone, Copy, Debug, PartialEq, Eq, Hash, Structural)]
pub enum Move {
    Up,
    Down,
    Left,
    Right,
}

impl Move {
    /// The position of the move in the fixed enumeration up, down, left, right.
    pub open spec fn spec_as_index(&self) -> usize {
        match self {
            Move::Up => 0,
            Move::Down => 1,
            Move::Left => 2,
            Move::Right => 3,
        }
    }

    #[verifier::when_used_as_spec(spec_as_index)]
    pub fn as_index(&self) -> (index: usize)
        ensures
            index == self.spec_as_index(),
            index < 4,
    {
        match self {
            Move::Up => 0,
            Move::Down => 1,
            Move::Left => 2,
            Move::Right => 3,
        }
    }

    /// The move at `index` of the fixed enumeration.
    pub open spec fn spec_from_index(index: usize) -> Move {
        if index == 0 {
            Move::Up
        } else if index == 1 {
            Move::Down
        } else if index == 2 {
            Move::Left
        } else {
            Move::Right
        }
    }

    #[verifier::when_used_as_spec(spec_from_index)]
    pub fn from_index(index: usize) -> (mv: Move)
        requires
            index < 4,
        ensures
            mv == Move::spec_from_index(index),
            mv.as_index() == index,
    {
        if index == 0 {
            Move::Up
        } else if index == 1 {
            Move::Down
        } else if index == 2 {
            Move::Left
        } else {
            Move::Right
        }
    }
}

/// The slot a snake occupies on a board.
#[derive(Clone, Copy, Debug, PartialEq, Eq, Hash, Structural)]
pub struct SnakeId(pub u8);

/// The snake that plays for `player`: the first snake for player 1, the second for any
/// other player.
pub open spec fn spec_player_to_snake(player: i32) -> SnakeId {
    if player == 1 {
        SnakeId(0)
    } else {
        SnakeId(1)
    }
}

#[verifier::when_used_as_spec(spec_player_to_snake)]
pub fn player_to_snake(player: i32) -> (snake: SnakeId)
    ensures
        snake == spec_player_to_snake(player),
{
    if player == 1 {
        SnakeId(0)
    } else {
        SnakeId(1)
    }
}

/// Observer handed to the rules engine when a ply is resolved; it records nothing.
#[derive(Debug)]
pub struct Instruments {}

impl SimulatorInstruments for Instruments {
    /// The rules engine reports here how long it took to resolve a ply; nothing is done
    /// with that.
    #[verifier::external_body]
    fn observe_simulation(&self, elapsed: std::time::Duration) {
    }
}

/// A snapshot of a game, kept in the rules engine's compact cell board. Verus sees none of
/// it: what a board holds is spoken of through `snake_healths`, `snake_heads`,
/// `snake_bodies`, `food_cells` and `reasonable_moves`.
#[verifier::external_body]
pub struct Board {
    cells: StandardCellBoard4Snakes11x11,
}

impl Clone for Board {
    fn clone(&self) -> (copy: Self)
        ensures
            copy == *self,
    {
        *self
    }
}

impl Copy for Board {

}

/// The health of each snake slot of `board`, by slot. A slot with health 0 holds no living
/// snake.
pub uninterp spec fn snake_healths(board: Board) -> Seq<u8>;

/// The cell of each snake's head, by slot.
pub uninterp spec fn snake_heads(board: Board) -> Seq<Position>;

/// The cells each snake covers, by slot, in the order in which the rules engine walks a
/// body: from the tail to the head, the head included, a cell that holds several stacked
/// segments once.
pub uninterp spec fn snake_bodies(board: Board) -> Seq<Seq<Position>>;

/// The cells that hold food, in the order of their cell numbers.
pub uninterp spec fn food_cells(board: Board) -> Seq<Position>;

/// For each living snake, in the order of the slots, its slot and the indices of the moves
/// that the rules engine calls reasonable for it.
pub uninterp spec fn reasonable_moves(board: Board) -> Seq<(u8, Seq<usize>)>;

/// Whether the snake in `slot` is alive.
pub open spec fn alive(board: Board, slot: int) -> bool {
    0 <= slot < SNAKE_SLOTS && snake_healths(board)[slot] != 0
}

/// How many of the slots `0..upto` hold a living snake.
pub open spec fn alive_below(healths: Seq<u8>, upto: int) -> int
    decreases upto,
{
    if upto <= 0 {
        0
    } else {
        alive_below(healths, upto - 1) + if healths[upto - 1] != 0 {
            1int
        } else {
            0int
        }
    }
}

/// The rules engine's own end of a game: the first snake is dead, or at most one snake is
/// alive.
pub open spec fn game_over(healths: Seq<u8>) -> bool {
    healths[0] == 0 || alive_below(healths, SNAKE_SLOTS as int) <= 1
}

/// The lowest slot among `from..` that holds a living snake.
pub open spec fn first_alive(healths: Seq<u8>, from: int) -> Option<SnakeId>
    decreases SNAKE_SLOTS - from,
{
    if from < 0 || from >= SNAKE_SLOTS {
        None
    } else if healths[from] != 0 {
        Some(SnakeId(from as u8))
    } else {
        first_alive(healths, from + 1)
    }
}

/// The rules engine's winner: once the game is over, the living snake in the lowest slot;
/// nobody while the game goes on or when no snake is left.
pub open spec fn winner_of(healths: Seq<u8>) -> Option<SnakeId> {
    if game_over(healths) {
        first_alive(healths, 0)
    } else {
        None
    }
}

/// Calls `HealthGettableGame::get_health`, which reads the slot's entry of the board's
/// health table of four entries.
#[verifier::external_body]
pub(crate) fn board_health(board: &Board, slot: u8) -> (health: u8)
    requires
        slot < SNAKE_SLOTS,
    ensures
        health == snake_healths(*board)[slot as int],
{
    board.cells.get_health(&battlesnake_game_types::types::SnakeId(slot))
}

/// Calls `VictorDeterminableGame::is_over`: true where the first slot's health is 0 or
/// where at most one of the four healths is not 0.
#[verifier::external_body]
pub(crate) fn board_is_over(board: &Board) -> (over: bool)
    ensures
        over == game_over(snake_healths(*board)),
{
    board.cells.is_over()
}

/// Calls `VictorDeterminableGame::get_winner`: on a board that is over, the first slot
/// whose health is not 0, if there is one; nothing otherwise.
#[verifier::external_body]
pub(crate) fn board_winner(board: &Board) -> (winner: Option<SnakeId>)
    ensures
        winner == winner_of(snake_healths(*board)),
{
    board.cells.get_winner().map(|id| SnakeId(id.0))
}

/// Calls `HeadGettableGame::get_head_as_position`, which turns the cell number of the
/// snake's head into coordinates by the board's width. The head of a living snake is a cell
/// of the board, whose width and height are at most 11.
#[verifier::external_body]
pub(crate) fn board_head(board: &Board, slot: u8) -> (head: Position)
    requires
        alive(*board, slot as int),
    ensures
        head == snake_heads(*board)[slot as int],
        head.on_grid(),
{
    let head = board.cells.get_head_as_position(&battlesnake_game_types::types::SnakeId(slot));
    Position { x: head.x, y: head.y }
}

/// Calls `SnakeBodyGettableGame::get_snake_body_iter` and `CellIndex::into_position` on
/// each cell number it yields. The walk starts at the tail that the head's cell records,
/// which a dead slot does not have, and reads each cell it yields from the board's 121
/// cells, so with `width` 11 both coordinates are below 11.
#[verifier::external_body]
pub(crate) fn board_body(board: &Board, slot: u8, width: u8) -> (body: Vec<Position>)
    requires
        alive(*board, slot as int),
        width == BOARD_SIZE,
    ensures
        body@ == snake_bodies(*board)[slot as int],
        all_on_grid(body@),
{
    board.cells.get_snake_body_iter(&battlesnake_game_types::types::SnakeId(slot)).map(
        |cell| {
            let at = cell.into_position(width);
            Position { x: at.x, y: at.y }
        },
    ).collect()
}

/// Calls `FoodGettableGame::get_all_food_as_positions`, which lists the cells marked as
/// food by ascending cell number, as coordinates by the board's width. Food lies on cells
/// of the board, whose width and height are at most 11.
#[verifier::external_body]
pub(crate) fn board_food(board: &Board) -> (food: Vec<Position>)
    ensures
        food@ == food_cells(*board),
        all_on_grid(food@),
{
    board.cells.get_all_food_as_positions().into_iter().map(|at| Position { x: at.x, y: at.y }).collect()
}

/// Whether the list holds indices of moves, and none of them twice.
pub open spec fn moves_differ(list: Seq<usize>) -> bool {
    &&& forall|j: int| 0 <= j < list.len() ==> (#[trigger] list[j]) < 4
    &&& forall|j: int, k: int| 0 <= j < k < list.len() ==> (#[trigger] list[j]) != (#[trigger] list[k])
}

/// Calls `ReasonableMovesGame::reasonable_moves_for_each_snake` and `Move::as_index` on
/// each move. The engine yields one entry for each slot whose health is not 0, by
/// ascending slot; an entry's list is those of the four moves that pass the engine's test,
/// each once, and never empty (a snake with no reasonable move gets "up"); a move's index
/// is below 4.
#[verifier::external_body]
pub(crate) fn board_reasonable_moves(board: &Board) -> (moves: Vec<(u8, Vec<usize>)>)
    ensures
        moves@.len() == reasonable_moves(*board).len(),
        moves@.len() == alive_below(snake_healths(*board), SNAKE_SLOTS as int),
        forall|i: int|
            0 <= i < moves@.len() ==> {
                &&& (#[trigger] moves@[i]).0 == reasonable_moves(*board)[i].0
                &&& moves@[i].1@ == reasonable_moves(*board)[i].1
                &&& alive(*board, moves@[i].0 as int)
                &&& moves@[i].1@.len() >= 1
                &&& moves_differ(moves@[i].1@)
            },
        forall|i: int, j: int|
            0 <= i < j < moves@.len() ==> (#[trigger] moves@[i]).0 < (#[trigger] moves@[j]).0,
{
    board.cells.reasonable_moves_for_each_snake().map(
        |(id, moves)| (id.0, moves.iter().map(|mv| mv.as_index()).collect()),
    ).collect()
}

/// The neighbour of the cell `at` that the move `mv` leads to.
pub open spec fn moved(at: Position, mv: Move) -> Position {
    match mv {
        Move::Up => Position { x: at.x, y: (at.y + 1) as i32 },
        Move::Down => Position { x: at.x, y: (at.y - 1) as i32 },
        Move::Left => Position { x: (at.x - 1) as i32, y: at.y },
        Move::Right => Position { x: (at.x + 1) as i32, y: at.y },
    }
}

/// What a ply does to the snake in `slot` that makes the move `mv`: it is dead on the
/// board `after`, or its head has gone to the neighbouring cell, and its health is full
/// again where that cell held food on the board `before`, and lower than before where it
/// did not.
pub open spec fn snake_moved(before: Board, slot: int, mv: Move, after: Board) -> bool {
    let target = moved(snake_heads(before)[slot], mv);
    let health = snake_healths(after)[slot];
    health == 0 || (snake_heads(after)[slot] == target && if food_cells(before).contains(
        target,
    ) {
        health == 100
    } else {
        health < snake_healths(before)[slot]
    })
}

/// Whether `after` may be the board one ply after `before`, the first snake having made
/// the move `first` and the second the move `second`: both snakes have moved or died, and
/// the two other slots have the health they had.
pub open spec fn is_resolved(before: Board, first: Move, second: Move, after: Board) -> bool {
    &&& snake_moved(before, 0, first, after)
    &&& snake_moved(before, 1, second, after)
    &&& snake_healths(after)[2] == snake_healths(before)[2]
    &&& snake_healths(after)[3] == snake_healths(before)[3]
}

/// Calls `SimulableGame::simulate_with_moves` with one move for each of the first two
/// slots and takes the first board it yields: the board after one ply of the rules, before
/// any food is spawned. Both snakes have to be alive, and each index names a move. The
/// engine moves the head of each of the two snakes to the neighbouring cell that its move
/// names, takes one from its health, or sets the health to 100 where the cell held food,
/// and sets the health of a snake that dies in the ply to 0; it writes no health but
/// those of the two snakes.
#[verifier::external_body]
pub(crate) fn board_simulate(board: &Board, first: usize, second: usize) -> (next: Board)
    requires
        alive(*board, 0),
        alive(*board, 1),
        first < 4,
        second < 4,
    ensures
        is_resolved(*board, Move::spec_from_index(first), Move::spec_from_index(second), next),
{
    let first = [battlesnake_game_types::types::Move::from_index(first)];
    let second = [battlesnake_game_types::types::Move::from_index(second)];
    let moves = [
        (battlesnake_game_types::types::SnakeId(0), first),
        (battlesnake_game_types::types::SnakeId(1), second),
    ];
    Board { cells: board.cells.simulate_with_moves(&Instruments {  }, moves).next().unwrap().1 }
}

/// Calls `StandardFoodPlaceableGame::place_food` with the thread's random number
/// generator. The engine marks at most one empty cell as food, by chance, and one for
/// certain where the board holds no food; it touches no other cell and no snake.
#[verifier::external_body]
pub(crate) fn board_place_food(board: &mut Board)
    ensures
        snake_healths(*final(board)) == snake_healths(*old(board)),
        snake_heads(*final(board)) == snake_heads(*old(board)),
        snake_bodies(*final(board)) == snake_bodies(*old(board)),
        forall|at: Position|
            food_cells(*old(board)).contains(at) ==> food_cells(*final(board)).contains(at),
        food_cells(*final(board)).len() <= food_cells(*old(board)).len() + 1,
{
    board.cells.place_food(&mut rand::thread_rng());
}

/// Calls `Rng::gen_range` on the thread's random number generator with the range
/// `0..bound`: a number below `bound`, by chance.
#[verifier::external_body]
pub(crate) fn random_below(bound: usize) -> (drawn: usize)
    requires
        bound > 0,
    ensures
        drawn < bound,
{
    rand::thread_rng().gen_range(0..bound)
}

/// Calls `SliceRandom::shuffle` with the thread's random number generator, which swaps
/// items of the slice in place: the same items come back, in an order left to chance.
#[verifier::external_body]
pub(crate) fn shuffle<T>(items: &mut Vec<T>)
    ensures
        final(items)@.to_multiset() == old(items)@.to_multiset(),
{
    items.shuffle(&mut rand::thread_rng());
}

/// Writes a game of two snakes on a square grid in the rules engine's wire format, reads
/// it with `serde_json::from_str`, and calls `build_snake_id_map` and
/// `Game::as_cell_board` on it. Each snake lies with all its `segments` on its head. The
/// snake that the game calls "you" is the first one and gets slot 0, the other one slot 1.
/// The conversion copies the healths, marks each head's cell as a stack of segments that
/// ends in itself, and marks the cells of `food`. Cells off the grid, and cells that a
/// food and a snake share, or two snakes, are left out here: on them the conversion fails
/// or spoils the board.
#[verifier::external_body]
pub(crate) fn board_at_start(
    heads: &[Position; 2],
    health: u8,
    segments: usize,
    food: &Vec<Position>,
    side: u32,
) -> (board: Board)
    requires
        heads[0].on_grid(),
        heads[1].on_grid(),
        heads[0] != heads[1],
        0 < health <= 100,
        segments == 3,
        side == BOARD_SIZE,
        all_on_grid(food@),
        !food@.contains(heads[0]),
        !food@.contains(heads[1]),
    ensures
        snake_healths(board) =~= seq![health, health, 0u8, 0u8],
        snake_heads(board)[0] == heads[0],
        snake_heads(board)[1] == heads[1],
        snake_bodies(board)[0] =~= seq![heads[0]],
        snake_bodies(board)[1] =~= seq![heads[1]],
        forall|at: Position| food_cells(board).contains(at) <==> food@.contains(at),
{
    let cell = |at: &Position| format!(r#"{{"x":{},"y":{}}}"#, at.x, at.y);
    let snake = |slot: usize| format!(
        r#"{{"id":"{0}","name":"{0}","health":{1},"head":{2},"body":[{3}]}}"#,
        slot, health, cell(&heads[slot]), vec![cell(&heads[slot]); segments].join(","),
    );
    let text = format!(
        r#"{{"game":{{"id":"","ruleset":{{"name":"standard","version":""}},"timeout":0}},"turn":0,"board":{{"height":{0},"width":{0},"food":[{1}],"hazards":[],"snakes":[{2},{3}]}},"you":{2}}}"#,
        side, food.iter().map(cell).collect::<Vec<String>>().join(","), snake(0), snake(1),
    );
    let game: Game = serde_json::from_str(&text).unwrap();
    Board { cells: game.as_cell_board(&build_snake_id_map(&game)).unwrap() }
}

/// The joint moves of the first two snakes that can move: every pairing of a move of the
/// first with a move of the second, the second snake's move changing fastest. With fewer
/// than two such snakes there is no joint move.
pub open spec fn is_joint_moves(lists: Seq<(u8, Seq<usize>)>, joint: Seq<[Move; 2]>) -> bool {
    if lists.len() < 2 {
        joint.len() == 0
    } else {
        let first = lists[0].1;
        let second = lists[1].1;
        &&& joint.len() == first.len() * second.len()
        &&& forall|i: int, j: int|
            0 <= i < first.len() && 0 <= j < second.len() ==> {
                &&& (#[trigger] joint[i * second.len() + j])[0] == Move::spec_from_index(first[i])
                &&& joint[i * second.len() + j][1] == Move::spec_from_index(second[j])
            }
    }
}

/// Whether no joint move occurs twice in `joint`.
pub open spec fn no_joint_twice(joint: Seq<[Move; 2]>) -> bool {
    forall|a: int, b: int|
        0 <= a < b < joint.len() ==> (#[trigger] joint[a])[0] != (#[trigger] joint[b])[0]
            || joint[a][1] != joint[b][1]
}

/// The joint moves of lists that hold no move twice hold no joint move twice.
pub proof fn lemma_joint_moves_differ(lists: Seq<(u8, Seq<usize>)>, joint: Seq<[Move; 2]>)
    requires
        is_joint_moves(lists, joint),
        lists.len() >= 2 ==> moves_differ(lists[0].1) && moves_differ(lists[1].1),
    ensures
        no_joint_twice(joint),
{
    if lists.len() >= 2 {
        let first = lists[0].1;
        let second = lists[1].1;
        let rows = first.len() as int;
        let width = second.len() as int;
        assert forall|a: int, b: int| 0 <= a < b < joint.len() implies (#[trigger] joint[a])[0] != (
        #[trigger] joint[b])[0] || joint[a][1] != joint[b][1] by {
            assert(width > 0) by (nonlinear_arith)
                requires
                    joint.len() == rows * width,
                    joint.len() > 0,
                    rows >= 0,
            ;
            let i = a / width;
            let j = a % width;
            let k = b / width;
            let l = b % width;
            assert(0 <= i < rows && 0 <= j < width && a == i * width + j) by (nonlinear_arith)
                requires
                    0 <= a < rows * width,
                    width > 0,
                    i == a / width,
                    j == a % width,
            ;
            assert(0 <= k < rows && 0 <= l < width && b == k * width + l) by (nonlinear_arith)
                requires
                    0 <= b < rows * width,
                    width > 0,
                    k == b / width,
                    l == b % width,
            ;
            assert(joint[i * width + j][0] == Move::spec_from_index(first[i]));
            assert(joint[i * width + j][1] == Move::spec_from_index(second[j]));
            assert(joint[k * width + l][0] == Move::spec_from_index(first[k]));
            assert(joint[k * width + l][1] == Move::spec_from_index(second[l]));
            if joint[a][0] == joint[b][0] && joint[a][1] == joint[b][1] {
                assert(first[i] < 4 && first[k] < 4 && second[j] < 4 && second[l] < 4);
                assert(first[i] == first[k]);
                assert(second[j] == second[l]);
                assert(i == k);
                assert(j == l);
                assert(false);
            }
        }
    }
}

/// Whether `joint` pairs a move that the lists hold for the first snake that can move with
/// one that they hold for the second.
pub open spec fn is_joint_move(lists: Seq<(u8, Seq<usize>)>, joint: [Move; 2]) -> bool {
    &&& lists.len() >= 2
    &&& exists|i: int|
        0 <= i < lists[0].1.len() && joint[0] == Move::spec_from_index(#[trigger] lists[0].1[i])
    &&& exists|j: int|
        0 <= j < lists[1].1.len() && joint[1] == Move::spec_from_index(#[trigger] lists[1].1[j])
}

/// Whether the lists give no joint move: fewer than two snakes can move, or one of the
/// first two has no move.
pub open spec fn no_joint_move(lists: Seq<(u8, Seq<usize>)>) -> bool {
    lists.len() < 2 || lists[0].1.len() == 0 || lists[1].1.len() == 0
}

/// Every item of the joint moves pairs a move of the first snake with one of the second,
/// and there is no item exactly where there is no joint move.
pub proof fn lemma_joint_moves_are_pairs(
    lists: Seq<(u8, Seq<usize>)>,
    joint: Seq<[Move; 2]>,
    at: int,
)
    requires
        is_joint_moves(lists, joint),
    ensures
        joint.len() == 0 <==> no_joint_move(lists),
        0 <= at < joint.len() ==> is_joint_move(lists, joint[at]),
{
    if lists.len() >= 2 {
        let rows = lists[0].1.len() as int;
        let width = lists[1].1.len() as int;
        assert(joint.len() == 0 <==> rows == 0 || width == 0) by (nonlinear_arith)
            requires
                joint.len() == rows * width,
                rows >= 0,
                width >= 0,
        ;
        if 0 <= at < joint.len() {
            let i = at / width;
            let j = at % width;
            assert(0 <= i < rows && 0 <= j < width && at == i * width + j) by (nonlinear_arith)
                requires
                    0 <= at < rows * width,
                    width > 0,
                    i == at / width,
                    j == at % width,
            ;
            assert(joint[i * width + j][0] == Move::spec_from_index(lists[0].1[i]));
            assert(joint[i * width + j][1] == Move::spec_from_index(lists[1].1[j]));
        }
    }
}

impl Board {
    /// Every joint move of the two sides that the rules engine calls reasonable.
    pub fn get_available_moves(&self) -> (joint: Vec<[Move; 2]>)
        ensures
            is_joint_moves(reasonable_moves(*self), joint@),
            no_joint_twice(joint@),
    {
        let lists = board_reasonable_moves(self);
        proof {
            if lists@.len() >= 2 {
                assert(moves_differ(lists@[0].1@) && moves_differ(lists@[1].1@));
            }
        }
        let mut joint: Vec<[Move; 2]> = Vec::new();
        if lists.len() < 2 {
            return joint;
        }
        let first = &lists[0].1;
        let second = &lists[1].1;
        let ghost width = second@.len() as int;
        let mut i: usize = 0;
        while i < first.len()
            invariant
                i <= first@.len(),
                width == second@.len(),
                forall|k: int| 0 <= k < first@.len() ==> (#[trigger] first@[k]) < 4,
                forall|k: int| 0 <= k < second@.len() ==> (#[trigger] second@[k]) < 4,
                joint@.len() == i * width,
                forall|a: int, b: int|
                    0 <= a < i && 0 <= b < width ==> {
                        &&& (#[trigger] joint@[a * width + b])[0] == Move::spec_from_index(
                            first@[a],
                        )
                        &&& joint@[a * width + b][1] == Move::spec_from_index(second@[b])
                    },
            decreases first@.len() - i,
        {
            let mut j: usize = 0;
            while j < second.len()
                invariant
                    i < first@.len(),
                    j <= second@.len(),
                    width == second@.len(),
                    forall|k: int| 0 <= k < first@.len() ==> (#[trigger] first@[k]) < 4,
                    forall|k: int| 0 <= k < second@.len() ==> (#[trigger] second@[k]) < 4,
                    joint@.len() == i * width + j,
                    forall|a: int, b: int|
                        0 <= a < i && 0 <= b < width ==> {
                            &&& (#[trigger] joint@[a * width + b])[0] == Move::spec_from_index(
                                first@[a],
                            )
                            &&& joint@[a * width + b][1] == Move::spec_from_index(second@[b])
                        },
                    forall|b: int|
                        0 <= b < j ==> {
                            &&& (#[trigger] joint@[i * width + b])[0] == Move::spec_from_index(
                                first@[i as int],
                            )
                            &&& joint@[i * width + b][1] == Move::spec_from_index(second@[b])
                        },
                decreases second@.len() - j,
            {
                let ghost before = joint@;
                let pair = [Move::from_index(first[i]), Move::from_index(second[j])];
                joint.push(pair);
                proof {
                    assert forall|a: int, b: int| 0 <= a < i && 0 <= b < width implies {
                        &&& (#[trigger] joint@[a * width + b])[0] == Move::spec_from_index(
                            first@[a],
                        )
                        &&& joint@[a * width + b][1] == Move::spec_from_index(second@[b])
                    } by {
                        lemma_cell_index_below(a, b, i as int, width);
                        assert(joint@[a * width + b] == before[a * width + b]);
                    }
                }
                j += 1;
            }
            proof {
                assert((i + 1) * width == i * width + width) by (nonlinear_arith);
            }
            i += 1;
        }
        proof {
            lemma_joint_moves_differ(reasonable_moves(*self), joint@);
        }
        joint
    }

    /// Whether the rules can move the board on: its first two snakes are alive.
    pub open spec fn spec_can_simulate(&self) -> bool {
        alive(*self, 0) && alive(*self, 1)
    }

    #[verifier::when_used_as_spec(spec_can_simulate)]
    pub fn can_simulate(&self) -> (able: bool)
        ensures
            able == self.spec_can_simulate(),
    {
        board_health(self, 0) != 0 && board_health(self, 1) != 0
    }

    /// The board one ply later: both moves resolved by the rules, then, one time in four,
    /// food placed by the rules' own spawning. `moves` holds the move of the first snake,
    /// then that of the second.
    pub fn simulate_moves(&self, moves: &[Move; 2]) -> (next: Board)
        requires
            self.spec_can_simulate(),
        ensures
            is_resolved(*self, moves[0], moves[1], next),
    {
        let mut next_state = board_simulate(self, moves[0].as_index(), moves[1].as_index());
        if random_below(4) == 0 {
            board_place_food(&mut next_state);
        }
        next_state
    }
}

/// In a table of rows of `width` cells, a cell of a row above row `rows` has a number below
/// `rows * width`.
proof fn lemma_cell_index_below(row: int, column: int, rows: int, width: int)
    requires
        0 <= row < rows,
        0 <= column < width,
    ensures
        0 <= row * width + column < rows * width,
{
    assert(row * width + column < rows * width) by (nonlinear_arith)
        requires
            0 <= row < rows,
            0 <= column < width,
    ;
    assert(0 <= row * width) by (nonlinear_arith)
        requires
            0 <= row,
            0 <= width,
    ;
}

/// Health of a snake at the start of a game.
pub const START_HEALTH: u8 = 99;

/// Number of segments of a snake at the start of a game, all of them on its head.
pub const START_SEGMENTS: usize = 3;

/// The middle cell of the grid, which holds food at the start of a game.
pub open spec fn center_cell() -> Position {
    Position { x: 5, y: 5 }
}

/// Whether `at` is one of the eight cells a snake can start on: a corner or the middle of
/// a side of the ring one cell inside the border.
pub open spec fn is_start_point(at: Position) -> bool {
    (at.x == 1 || at.x == 5 || at.x == 9) && (at.y == 1 || at.y == 5 || at.y == 9) && !(at.x == 5
        && at.y == 5)
}

/// Whether a start point is a corner of its ring.
pub open spec fn is_corner_point(at: Position) -> bool {
    at.x != 5 && at.y != 5
}

/// Whether `food` may be the food placed for the snake with head `head`: a diagonal
/// neighbour of the head on the grid that is not the centre, holds no food yet, lies
/// farther from the centre than the head in one direction, and is no corner of the grid.
pub open spec fn is_food_option(
    foods: Seq<(i32, i32)>,
    head: Position,
    center: (i32, i32),
    food: (i32, i32),
) -> bool {
    &&& food.0 == head.x - 1 || food.0 == head.x + 1
    &&& food.1 == head.y - 1 || food.1 == head.y + 1
    &&& food != center
    &&& 0 <= food.0 <= 10 && 0 <= food.1 <= 10
    &&& !foods.contains(food)
    &&& (food.0 < head.x < center.0 || center.0 < head.x < food.0 || food.1 < head.y < center.1
        || center.1 < head.y < food.1)
    &&& !((food.0 == 0 || food.0 == 10) && (food.1 == 0 || food.1 == 10))
}

/// Whether `list` holds `item`.
fn holds(list: &Vec<(i32, i32)>, item: (i32, i32)) -> (found: bool)
    ensures
        found == list@.contains(item),
{
    let mut i: usize = 0;
    while i < list.len()
        invariant
            i <= list@.len(),
            !list@.take(i as int).contains(item),
        decreases list@.len() - i,
    {
        if list[i].0 == item.0 && list[i].1 == item.1 {
            assert(list@[i as int] == item);
            return true;
        }
        proof {
            assert(list@.take(i + 1) =~= list@.take(i as int).push(list@[i as int]));
            crate::layout::lemma_holds_after_push(list@.take(i as int), list@[i as int], item);
        }
        i += 1;
    }
    assert(list@.take(list@.len() as int) =~= list@);
    false
}

/// Picks by chance one of the cells where food may be placed for the snake with head
/// `snake_head`; nothing where there is no such cell.
pub fn place_food_for_snake(
    foods: &Vec<(i32, i32)>,
    snake_head: &Position,
    center_coord: (i32, i32),
) -> (placed: Option<(i32, i32)>)
    ensures
        match placed {
            Some(food) => is_food_option(foods@, *snake_head, center_coord, food),
            None => forall|food: (i32, i32)|
                !is_food_option(foods@, *snake_head, center_coord, food),
        },
{
    if snake_head.x < -1 || snake_head.x > 11 || snake_head.y < -1 || snake_head.y > 11 {
        return None;
    }
    let possible_player_food: [(i32, i32); 4] = [
        (snake_head.x - 1, snake_head.y - 1),
        (snake_head.x - 1, snake_head.y + 1),
        (snake_head.x + 1, snake_head.y - 1),
        (snake_head.x + 1, snake_head.y + 1),
    ];
    let mut available_food: Vec<(i32, i32)> = Vec::new();
    let mut i: usize = 0;
    while i < 4
        invariant
            i <= 4,
            -1 <= snake_head.x <= 11,
            -1 <= snake_head.y <= 11,
            possible_player_food[0].0 == snake_head.x - 1,
            possible_player_food[0].1 == snake_head.y - 1,
            possible_player_food[1].0 == snake_head.x - 1,
            possible_player_food[1].1 == snake_head.y + 1,
            possible_player_food[2].0 == snake_head.x + 1,
            possible_player_food[2].1 == snake_head.y - 1,
            possible_player_food[3].0 == snake_head.x + 1,
            possible_player_food[3].1 == snake_head.y + 1,
            forall|k: int|
                0 <= k < available_food@.len() ==> is_food_option(
                    foods@,
                    *snake_head,
                    center_coord,
                    #[trigger] available_food@[k],
                ),
            forall|k: int|
                0 <= k < i && is_food_option(
                    foods@,
                    *snake_head,
                    center_coord,
                    #[trigger] possible_player_food[k],
                ) ==> available_food@.len() > 0,
        decreases 4 - i,
    {
        let p = possible_player_food[i];
        let off_grid = p.0 < 0 || p.0 > 10 || p.1 < 0 || p.1 > 10;
        let is_center = center_coord.0 == p.0 && center_coord.1 == p.1;
        if !(is_center || off_grid) && !holds(foods, p) {
            if (p.0 < snake_head.x && snake_head.x < center_coord.0) || (center_coord.0
                < snake_head.x && snake_head.x < p.0) || (p.1 < snake_head.y && snake_head.y
                < center_coord.1) || (center_coord.1 < snake_head.y && snake_head.y < p.1) {
                if !((p.0 == 0 || p.0 == 10) && (p.1 == 0 || p.1 == 10)) {
                    available_food.push(p);
                }
            }
        }
        i += 1;
    }
    if available_food.len() == 0 {
        assert forall|food: (i32, i32)| !is_food_option(
            foods@,
            *snake_head,
            center_coord,
            food,
        ) by {
            if is_food_option(foods@, *snake_head, center_coord, food) {
                assert(food == possible_player_food[0] || food == possible_player_food[1] || food
                    == possible_player_food[2] || food == possible_player_food[3]);
            }
        }
        return None;
    }
    let ghost options = available_food@;
    shuffle(&mut available_food);
    proof {
        options.to_multiset_ensures();
        available_food@.to_multiset_ensures();
        let first = available_food@[0];
        assert(available_food@.contains(first));
        assert(available_food@.to_multiset().count(first) > 0);
        assert(options.to_multiset().count(first) > 0);
        assert(options.contains(first));
    }
    Some(available_food[0])
}

/// Whether there is a cell where food may be placed for the snake with head `head`.
pub open spec fn has_food_option(foods: Seq<(i32, i32)>, head: Position, center: (i32, i32)) -> bool {
    exists|food: (i32, i32)| is_food_option(foods, head, center, food)
}

/// Whether `foods` is a start's food for the two heads: the food of the first snake if
/// there is a cell for it, the food of the second if one is left for it, and the centre.
pub open spec fn is_start_food(first: Position, second: Position, foods: Seq<Position>) -> bool {
    let center = (5i32, 5i32);
    let taken = if has_food_option(Seq::empty(), first, center) {
        seq![(foods[0].x, foods[0].y)]
    } else {
        Seq::empty()
    };
    let placed = taken.len() + if has_food_option(taken, second, center) {
        1int
    } else {
        0int
    };
    &&& foods.len() == placed + 1
    &&& foods[placed] == center_cell()
    &&& has_food_option(Seq::empty(), first, center) ==> is_food_option(
        Seq::empty(),
        first,
        center,
        (foods[0].x, foods[0].y),
    )
    &&& has_food_option(taken, second, center) ==> is_food_option(
        taken,
        second,
        center,
        (foods[placed - 1].x, foods[placed - 1].y),
    )
}

/// The food of a start: one cell by chance for each snake that has one, and the centre.
pub fn generate_foods(snake_1_head: &Position, snake_2_head: &Position) -> (foods: Vec<Position>)
    ensures
        is_start_food(*snake_1_head, *snake_2_head, foods@),
{
    let mut foods: Vec<(i32, i32)> = Vec::new();
    let mut placed: Vec<Position> = Vec::new();
    let center_coord: (i32, i32) = ((BOARD_SIZE - 1) / 2, (BOARD_SIZE - 1) / 2);
    assert(foods@ =~= Seq::<(i32, i32)>::empty());
    let first = place_food_for_snake(&foods, snake_1_head, center_coord);
    match first {
        Some(food) => {
            foods.push(food);
            placed.push(Position { x: food.0, y: food.1 });
        },
        None => {},
    }
    let ghost taken = foods@;
    proof {
        if first is Some {
            assert(taken =~= seq![(placed@[0].x, placed@[0].y)]);
        } else {
            assert(taken =~= Seq::<(i32, i32)>::empty());
        }
    }
    let second = place_food_for_snake(&foods, snake_2_head, center_coord);
    match second {
        Some(food) => {
            foods.push(food);
            placed.push(Position { x: food.0, y: food.1 });
        },
        None => {},
    }
    proof {
        assert forall|k: int| 0 <= k < foods@.len() implies foods@[k] != center_coord by {
            if first is Some && k == 0 {
                assert(foods@[k] == first->0);
            } else {
                assert(foods@[k] == second->0);
            }
        }
    }
    if !holds(&foods, center_coord) {
        placed.push(Position { x: center_coord.0, y: center_coord.1 });
    }
    placed
}

/// Whether a game can start from these heads and this food: the heads are two cells of the
/// grid, the health is one a living snake can have, and the food lies on the grid and on
/// no head.
pub open spec fn can_start(heads: [Position; 2], health: u8, food: Seq<Position>) -> bool {
    &&& heads[0].on_grid()
    &&& heads[1].on_grid()
    &&& heads[0] != heads[1]
    &&& 0 < health <= 100
    &&& all_on_grid(food)
    &&& !food.contains(heads[0])
    &&& !food.contains(heads[1])
}

/// Whether `board` is the start of a game from these heads and this food: two living
/// snakes of the given health, each coiled on its head, and the food.
pub open spec fn is_start_of(board: Board, heads: [Position; 2], health: u8, food: Seq<Position>) -> bool {
    &&& snake_healths(board) == seq![health, health, 0u8, 0u8]
    &&& snake_heads(board)[0] == heads[0]
    &&& snake_heads(board)[1] == heads[1]
    &&& snake_bodies(board)[0] == seq![heads[0]]
    &&& snake_bodies(board)[1] == seq![heads[1]]
    &&& forall|at: Position| food_cells(board).contains(at) <==> food.contains(at)
}

/// Whether `board` is a start that `init_random_board` may deal: both snakes on different
/// start points of the same kind, with the start's health, and a start's food.
pub open spec fn is_random_start(board: Board) -> bool {
    exists|heads: [Position; 2], food: Seq<Position>|
        {
            &&& is_start_point(heads[0])
            &&& is_start_point(heads[1])
            &&& heads[0] != heads[1]
            &&& is_corner_point(heads[0]) == is_corner_point(heads[1])
            &&& is_start_food(heads[0], heads[1], food)
            &&& #[trigger] is_start_of(board, heads, START_HEALTH, food)
        }
}

/// Whether `at` is one of the cells of `food`.
fn lies_on(food: &Vec<Position>, at: Position) -> (found: bool)
    ensures
        found == food@.contains(at),
{
    let mut i: usize = 0;
    while i < food.len()
        invariant
            i <= food@.len(),
            !food@.take(i as int).contains(at),
        decreases food@.len() - i,
    {
        if food[i] == at {
            assert(food@[i as int] == at);
            return true;
        }
        proof {
            assert(food@.take(i + 1) =~= food@.take(i as int).push(food@[i as int]));
            crate::layout::lemma_holds_after_push(food@.take(i as int), food@[i as int], at);
        }
        i += 1;
    }
    assert(food@.take(food@.len() as int) =~= food@);
    false
}

/// Whether the cell lies on the grid.
fn is_on_grid(at: Position) -> (on: bool)
    ensures
        on == at.on_grid(),
{
    0 <= at.x && at.x < BOARD_SIZE && 0 <= at.y && at.y < BOARD_SIZE
}

impl Board {
    /// The start of a game with the two snakes coiled on `heads` and the given food;
    /// nothing where no game can start like that.
    pub fn start_board(heads: [Position; 2], health: u8, food: &Vec<Position>) -> (board: Option<
        Board,
    >)
        ensures
            board is Some <==> can_start(heads, health, food@),
            board is Some ==> is_start_of(board->0, heads, health, food@),
    {
        if !is_on_grid(heads[0]) || !is_on_grid(heads[1]) || heads[0] == heads[1] {
            return None;
        }
        if health == 0 || health > 100 {
            return None;
        }
        let mut i: usize = 0;
        while i < food.len()
            invariant
                i <= food@.len(),
                all_on_grid(food@.take(i as int)),
            decreases food@.len() - i,
        {
            if !is_on_grid(food[i]) {
                assert(!food@[i as int].on_grid());
                return None;
            }
            proof {
                let seen = food@.take(i as int);
                let next = food@.take(i + 1);
                assert forall|k: int| 0 <= k < next.len() implies (#[trigger] next[k]).on_grid() by {
                    if k < i {
                        assert(seen[k].on_grid());
                    }
                }
            }
            i += 1;
        }
        assert(food@.take(food@.len() as int) =~= food@);
        if lies_on(food, heads[0]) || lies_on(food, heads[1]) {
            return None;
        }
        Some(board_at_start(&heads, health, START_SEGMENTS, food, BOARD_SIZE as u32))
    }

    /// A start dealt by chance: the snakes on two start points of the same kind, the
    /// corners or the middles of the sides, with their food and the food of the centre.
    pub fn init_random_board() -> (board: Board)
        ensures
            is_random_start(board),
    {
        let (mn, md, mx): (i32, i32, i32) = (1, (BOARD_SIZE - 1) / 2, BOARD_SIZE - 2);
        let mut corners: Vec<Position> = Vec::new();
        corners.push(Position { x: mn, y: mn });
        corners.push(Position { x: mn, y: mx });
        corners.push(Position { x: mx, y: mn });
        corners.push(Position { x: mx, y: mx });
        let mut cardinal_points: Vec<Position> = Vec::new();
        cardinal_points.push(Position { x: mn, y: md });
        cardinal_points.push(Position { x: md, y: mn });
        cardinal_points.push(Position { x: md, y: mx });
        cardinal_points.push(Position { x: mx, y: md });
        let ghost dealt_corners = corners@;
        let ghost dealt_cardinals = cardinal_points@;
        shuffle(&mut corners);
        shuffle(&mut cardinal_points);
        proof {
            lemma_shuffled_pair(dealt_corners, corners@);
            lemma_shuffled_pair(dealt_cardinals, cardinal_points@);
        }
        let start_points = if random_below(2) == 0 {
            corners
        } else {
            cardinal_points
        };
        let player_1_head = start_points[0];
        let player_2_head = start_points[1];
        let foods = generate_foods(&player_1_head, &player_2_head);
        let heads = [player_1_head, player_2_head];
        proof {
            assert forall|k: int| 0 <= k < foods@.len() implies (#[trigger] foods@[k]).on_grid()
                && foods@[k] != player_1_head && foods@[k] != player_2_head by {}
        }
        let board = board_at_start(&heads, START_HEALTH, START_SEGMENTS, &foods, BOARD_SIZE as u32);
        assert(is_start_of(board, heads, START_HEALTH, foods@));
        board
    }
}

/// The first two items of a shuffled list of four different items are two different items
/// of the list.
proof fn lemma_shuffled_pair(dealt: Seq<Position>, shuffled: Seq<Position>)
    requires
        dealt.len() == 4,
        dealt.no_duplicates(),
        shuffled.to_multiset() == dealt.to_multiset(),
    ensures
        shuffled.len() == 4,
        dealt.contains(shuffled[0]),
        dealt.contains(shuffled[1]),
        shuffled[0] != shuffled[1],
{
    dealt.to_multiset_ensures();
    shuffled.to_multiset_ensures();
    dealt.lemma_multiset_has_no_duplicates();
    shuffled.lemma_multiset_has_no_duplicates_conv();
    assert(shuffled.contains(shuffled[0]));
    assert(shuffled.contains(shuffled[1]));
    assert(shuffled.to_multiset().count(shuffled[0]) > 0);
    assert(shuffled.to_multiset().count(shuffled[1]) > 0);
}

} // verus!

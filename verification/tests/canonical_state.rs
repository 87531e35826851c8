use battlesnake_alphazero::canonical_board::{CanonicalBoard, Outcome};
use battlesnake_alphazero::game::{player_to_snake, Board, Move, Position, SnakeId};
use battlesnake_alphazero::layout::Cell;

fn at(x: i32, y: i32) -> Position {
    Position { x, y }
}

fn small_start() -> Board {
    Board::start_board([at(1, 1), at(9, 9)], 99, &vec![at(5, 5), at(0, 2)]).unwrap()
}

#[test]
fn player_one_plays_the_first_snake() {
    assert_eq!(player_to_snake(1), SnakeId(0));
    assert_eq!(player_to_snake(-1), SnakeId(1));
    assert_eq!(player_to_snake(7), SnakeId(1));
}

#[test]
fn moves_keep_their_fixed_indices() {
    assert_eq!(Move::Up.as_index(), 0);
    assert_eq!(Move::Down.as_index(), 1);
    assert_eq!(Move::Left.as_index(), 2);
    assert_eq!(Move::Right.as_index(), 3);
    for index in 0..4 {
        assert_eq!(Move::from_index(index).as_index(), index);
    }
}

#[test]
fn start_board_refuses_what_cannot_start() {
    assert!(Board::start_board([at(1, 1), at(1, 1)], 99, &vec![]).is_none());
    assert!(Board::start_board([at(1, 1), at(11, 1)], 99, &vec![]).is_none());
    assert!(Board::start_board([at(1, 1), at(9, 9)], 0, &vec![]).is_none());
    assert!(Board::start_board([at(1, 1), at(9, 9)], 101, &vec![]).is_none());
    assert!(Board::start_board([at(1, 1), at(9, 9)], 99, &vec![at(1, 1)]).is_none());
    assert!(Board::start_board([at(1, 1), at(9, 9)], 99, &vec![at(3, -1)]).is_none());
    assert!(Board::start_board([at(1, 1), at(9, 9)], 99, &vec![at(3, 4)]).is_some());
}

#[test]
fn current_player_alternates_over_one_ply() {
    let state = small_start().as_canonical(1, 0);
    assert_eq!(state.get_current_player(), 1);
    assert_eq!(state.get_current_snake(), SnakeId(0));
    assert_eq!(state.get_opponent_snake(), SnakeId(1));
    let before = state.to_hashmap_bytes();

    let (midway, next_player) = state.get_next_state(0);
    assert_eq!(next_player, -1);
    assert_eq!(midway.get_current_player(), -1);
    assert_eq!(midway.prev_action, Some(Move::Up));
    assert_eq!(midway.first_player, 1);
    // the board has not moved: seen by the same side it draws the same
    let same_side = CanonicalBoard::new(midway.board, 1, None, 0);
    assert_eq!(same_side.to_hashmap_bytes(), before);

    let (after, next_player) = midway.get_next_state(1);
    assert_eq!(next_player, 1);
    assert_eq!(after.get_current_player(), 1);
    assert_eq!(after.prev_action, None);
    assert_eq!(after.first_player, 1);
    // both snakes have moved: the first up, the second down
    let (head, _) = after.get_snake_head_and_body(&SnakeId(0));
    assert_eq!(head, Some(at(1, 2)));
    let (head, _) = after.get_snake_head_and_body(&SnakeId(1));
    assert_eq!(head, Some(at(9, 8)));
}

#[test]
fn half_moves_are_ordered_by_the_first_player() {
    let board = small_start();
    let first = CanonicalBoard::new(board, 1, Some(Move::Left), 0);
    assert_eq!(first.ordered_moves(Move::Right), [Move::Left, Move::Right]);
    let second = CanonicalBoard::new(board, -1, Some(Move::Left), 0);
    assert_eq!(second.ordered_moves(Move::Right), [Move::Right, Move::Left]);
    // with the second snake first, its pending move is the second snake's
    let (after, _) = second.get_next_state(Move::Up.as_index());
    let (head, _) = after.get_snake_head_and_body(&SnakeId(0));
    assert_eq!(head, Some(at(1, 2)));
    let (head, _) = after.get_snake_head_and_body(&SnakeId(1));
    assert_eq!(head, Some(at(8, 9)));
}

#[test]
fn reset_makes_the_mover_the_first_player() {
    let board = small_start();
    let pending = CanonicalBoard::new(board, 1, Some(Move::Up), 3);
    let reset = pending.reset_and_clone_as_current_player();
    assert_eq!(reset.first_player, -1);
    assert_eq!(reset.prev_action, None);
    assert_eq!(reset.min_health_threshold, 3);
    assert_eq!(reset.get_current_player(), pending.get_current_player());
    let fresh = CanonicalBoard::new(board, 1, None, 3);
    let same = fresh.reset_and_clone_as_current_player();
    assert_eq!(same.first_player, 1);
    assert_eq!(same.prev_action, None);
}

#[test]
fn try_next_state_refuses_bad_indices() {
    let state = small_start().as_canonical(1, 0);
    assert!(state.try_next_state(4).is_none());
    assert!(state.try_next_state(3).is_some());
}

#[test]
fn game_goes_on_while_both_snakes_are_healthy() {
    let state = small_start().as_canonical(1, 50);
    assert_eq!(state.get_game_ended(1), Outcome::Ongoing);
    assert_eq!(state.get_game_ended(-1), Outcome::Ongoing);
    assert!(state.can_resolve());
}

#[test]
fn threshold_eliminates_both_snakes_as_a_draw() {
    // both snakes have health 99: below a threshold of 100 both are out
    let state = small_start().as_canonical(1, 100);
    assert_eq!(state.get_game_ended(1), Outcome::Draw);
    assert_eq!(state.get_game_ended(-1), Outcome::Draw);
}

#[test]
fn a_snake_at_the_threshold_is_not_eliminated() {
    let state = small_start().as_canonical(1, 99);
    assert_eq!(state.get_game_ended(1), Outcome::Ongoing);
    assert_eq!(state.get_game_ended(-1), Outcome::Ongoing);
    // after one ply the second snake is at 59 and the first, which ate, at 100
    let board = Board::start_board([at(1, 1), at(9, 9)], 60, &vec![at(1, 2)]).unwrap();
    let (midway, _) = board.as_canonical(1, 59).get_next_state(Move::Up.as_index());
    let (after, _) = midway.get_next_state(Move::Down.as_index());
    assert_eq!(after.get_game_ended(1), Outcome::Ongoing);
    assert_eq!(after.get_game_ended(-1), Outcome::Ongoing);
    // the first snake at the threshold and the second below it: the first alone is left
    let seen = after.board.as_canonical(1, 100);
    assert_eq!(seen.get_game_ended(1), Outcome::Win);
    assert_eq!(seen.get_game_ended(-1), Outcome::Loss);
}

#[test]
fn threshold_eliminates_the_hungrier_snake() {
    // the first snake eats on its first move and is back at full health
    let board = Board::start_board([at(1, 1), at(9, 9)], 60, &vec![at(1, 2)]).unwrap();
    let state = board.as_canonical(1, 60);
    let (midway, _) = state.get_next_state(Move::Up.as_index());
    let (after, _) = midway.get_next_state(Move::Down.as_index());
    assert_eq!(after.get_game_ended(1), Outcome::Win);
    assert_eq!(after.get_game_ended(-1), Outcome::Loss);
}

#[test]
fn a_snake_that_leaves_the_grid_loses() {
    let board = Board::start_board([at(0, 5), at(9, 9)], 99, &vec![at(5, 5)]).unwrap();
    let state = board.as_canonical(1, 0);
    let (midway, _) = state.get_next_state(Move::Left.as_index());
    let (after, _) = midway.get_next_state(Move::Down.as_index());
    assert_eq!(after.get_game_ended(1), Outcome::Loss);
    assert_eq!(after.get_game_ended(-1), Outcome::Win);
    assert!(!after.can_resolve());
    assert!(after.get_next_state(0).0.prev_action.is_some());
    let pending = after.get_next_state(0).0;
    assert!(pending.try_next_state(0).is_none());
    let (head, body) = after.get_snake_head_and_body(&SnakeId(0));
    assert_eq!(head, None);
    assert_eq!(body, None);
}

#[test]
fn outcomes_negate_to_the_other_side() {
    assert_eq!(Outcome::Win.negated(), Outcome::Loss);
    assert_eq!(Outcome::Loss.negated(), Outcome::Win);
    assert_eq!(Outcome::Draw.negated(), Outcome::DrawAgainst);
    assert_eq!(Outcome::DrawAgainst.negated(), Outcome::Draw);
    assert_eq!(Outcome::Ongoing.negated(), Outcome::Ongoing);
    assert!(Outcome::Draw.is_over());
    assert!(!Outcome::Ongoing.is_over());
}

#[test]
fn valid_moves_are_those_of_the_mover() {
    // the first snake sits in the lower left corner: it can go up or right
    let board = Board::start_board([at(0, 0), at(10, 10)], 99, &vec![at(5, 5)]).unwrap();
    let state = board.as_canonical(1, 0);
    assert_eq!(state.get_valid_moves(), [true, false, false, true]);
    // the second snake sits in the upper right corner: down or left
    let (midway, _) = state.get_next_state(Move::Up.as_index());
    assert_eq!(midway.get_valid_moves(), [false, true, true, false]);
    let second_first = board.as_canonical(-1, 0);
    assert_eq!(second_first.get_valid_moves(), [false, true, true, false]);
}

#[test]
fn joint_moves_pair_every_move_of_both_snakes() {
    let board = Board::start_board([at(0, 0), at(5, 5)], 99, &vec![]).unwrap();
    let joint = board.get_available_moves();
    let expected = vec![
        [Move::Up, Move::Up],
        [Move::Up, Move::Down],
        [Move::Up, Move::Left],
        [Move::Up, Move::Right],
        [Move::Right, Move::Up],
        [Move::Right, Move::Down],
        [Move::Right, Move::Left],
        [Move::Right, Move::Right],
    ];
    assert_eq!(joint, expected);
}

#[test]
fn info_lists_the_mover_first() {
    let state = small_start().as_canonical(-1, 0);
    let (self_head, self_body, other_head, other_body, foods) = state.get_info_for_repr();
    assert_eq!(self_head, Some(at(9, 9)));
    assert_eq!(self_body, Some(vec![at(9, 9)]));
    assert_eq!(other_head, Some(at(1, 1)));
    assert_eq!(other_body, Some(vec![at(1, 1)]));
    assert_eq!(foods, vec![at(0, 2), at(5, 5)]);
}

#[test]
fn array_board_has_the_top_row_first() {
    let state = small_start().as_canonical(1, 0);
    let board = state.to_array_board();
    assert_eq!(board[9][1], Cell::SelfHead);
    assert_eq!(board[1][9], Cell::OtherHead);
    assert_eq!(board[5][5], Cell::Food);
    assert_eq!(board[8][0], Cell::Food);
    let marked = board.iter().flatten().filter(|cell| **cell != Cell::Empty).count();
    assert_eq!(marked, 4);
    // the evaluator is fed the grid that the samples record
    let tensor = state.to_tensor_board();
    assert_eq!(tensor[9][1], Cell::SelfHead);
    assert_eq!(tensor[1][9], Cell::OtherHead);
    assert_eq!(tensor, board);
}

#[test]
fn keys_are_drawn_from_the_movers_side() {
    let board = small_start();
    let first = board.as_canonical(1, 0);
    let key = first.to_hashmap_bytes();
    assert_eq!(key[11 * 1 + 1], 1);
    assert_eq!(key[11 * 9 + 9], 3);
    assert_eq!(key[11 * 5 + 5], 5);
    assert_eq!(key[11 * 2 + 0], 5);
    assert_eq!(key.iter().filter(|code| **code != 0).count(), 4);
    let second = board.as_canonical(-1, 0);
    let key = second.to_hashmap_bytes();
    assert_eq!(key[11 * 1 + 1], 3);
    assert_eq!(key[11 * 9 + 9], 1);
    // letter x + 11 * (10 - y): the opponent (9, 9) is letter 20, the centre's food
    // letter 60, the food (0, 2) letter 88 and the mover (1, 1) letter 100 of 121
    // after the grid: no half-move waits, and the game goes on
    assert_eq!(first.to_hashmap_string(), "a20d1a39f1a27f1a11b1a20n?");
    assert_eq!(second.to_hashmap_string(), "a20b1a39f1a27f1a11d1a20n?");
}

#[test]
fn the_text_key_tells_the_waiting_half_move() {
    let state = small_start().as_canonical(1, 0);
    let grid = "a20b1a39f1a27f1a11d1a20";
    assert_eq!(state.play_action(Move::Up).to_hashmap_string(), format!("{grid}u?"));
    assert_eq!(state.play_action(Move::Down).to_hashmap_string(), format!("{grid}d?"));
    assert_eq!(state.play_action(Move::Left).to_hashmap_string(), format!("{grid}l?"));
    assert_eq!(state.play_action(Move::Right).to_hashmap_string(), format!("{grid}r?"));
    // the same grid with nothing waiting, seen by the second player
    assert_eq!(small_start().as_canonical(-1, 0).to_hashmap_string(), format!("{grid}n?"));
    // the key of bytes files the grid alone
    assert_eq!(
        state.play_action(Move::Up).to_hashmap_bytes(),
        state.play_action(Move::Right).to_hashmap_bytes()
    );
}

#[test]
fn the_text_key_tells_outcomes_apart() {
    let fresh = Board::start_board([at(1, 1), at(9, 9)], 99, &vec![]).unwrap();
    let tired = Board::start_board([at(1, 1), at(9, 9)], 50, &vec![]).unwrap();
    let grid = "a20d1a79b1a20";
    assert_eq!(fresh.as_canonical(1, 75).get_game_ended(1), Outcome::Ongoing);
    assert_eq!(tired.as_canonical(1, 75).get_game_ended(1), Outcome::Draw);
    assert_eq!(fresh.as_canonical(1, 75).to_hashmap_string(), format!("{grid}n?"));
    assert_eq!(tired.as_canonical(1, 75).to_hashmap_string(), format!("{grid}n="));
    assert_eq!(tired.as_canonical(1, 50).to_hashmap_string(), format!("{grid}n?"));
    assert_eq!(
        fresh.as_canonical(1, 75).to_hashmap_bytes(),
        tired.as_canonical(1, 75).to_hashmap_bytes()
    );
}

#[test]
fn init_random_board_deals_a_playable_start() {
    for _ in 0..50 {
        let board = Board::init_random_board();
        let state = board.as_canonical(1, 0);
        assert_eq!(state.get_game_ended(1), Outcome::Ongoing);
        let (first, first_body, second, second_body, foods) = state.get_info_for_repr();
        let first = first.unwrap();
        let second = second.unwrap();
        assert_ne!(first, second);
        for head in [first, second] {
            assert!([1, 5, 9].contains(&head.x) && [1, 5, 9].contains(&head.y));
            assert!(!(head.x == 5 && head.y == 5));
        }
        assert_eq!((first.x == 5 || first.y == 5), (second.x == 5 || second.y == 5));
        assert_eq!(first_body, Some(vec![first]));
        assert_eq!(second_body, Some(vec![second]));
        assert_eq!(foods.len(), 3);
        assert!(foods.contains(&at(5, 5)));
        let near = |head: Position| {
            foods.iter().any(|food| (food.x - head.x).abs() == 1 && (food.y - head.y).abs() == 1)
        };
        assert!(near(first) && near(second));
    }
}

#[test]
fn a_body_is_listed_from_the_tail_to_the_head() {
    let board = Board::start_board([at(1, 1), at(9, 9)], 99, &vec![]).unwrap();
    let mut state = board.as_canonical(1, 0);
    for (first, second) in [(Move::Up, Move::Down), (Move::Right, Move::Left)] {
        state = state.get_next_state(first.as_index()).0;
        state = state.get_next_state(second.as_index()).0;
    }
    let (head, body) = state.get_snake_head_and_body(&SnakeId(0));
    assert_eq!(head, Some(at(2, 2)));
    assert_eq!(body, Some(vec![at(1, 1), at(1, 2), at(2, 2)]));
    let (head, body) = state.get_snake_head_and_body(&SnakeId(1));
    assert_eq!(head, Some(at(8, 8)));
    assert_eq!(body, Some(vec![at(9, 9), at(9, 8), at(8, 8)]));
    // seen by the second snake, its own pieces are the mover's
    let second = state.board.as_canonical(-1, 0);
    let tensor = second.to_tensor_board();
    assert_eq!(tensor[2][8], Cell::SelfHead);
    assert_eq!(tensor[2][9], Cell::SelfBody);
    assert_eq!(tensor[1][9], Cell::SelfBody);
    assert_eq!(tensor[8][2], Cell::OtherHead);
    assert_eq!(tensor[8][1], Cell::OtherBody);
    assert_eq!(tensor[9][1], Cell::OtherBody);
    assert_eq!(tensor, second.to_array_board());
}

#[test]
fn play_action_records_the_first_half_move_and_resolves_the_second() {
    let board = small_start();
    assert!(board.can_simulate());
    let state = board.as_canonical(1, 0);
    let pending = state.play_action(Move::Right);
    assert_eq!(pending.prev_action, Some(Move::Right));
    assert_eq!(pending.first_player, 1);
    assert_eq!(pending.to_hashmap_bytes(), board.as_canonical(-1, 0).to_hashmap_bytes());
    let after = pending.play_action(Move::Left);
    assert_eq!(after.prev_action, None);
    assert_eq!(after.first_player, 1);
    assert_eq!(after.min_health_threshold, 0);
    let (head, _) = after.get_snake_head_and_body(&SnakeId(0));
    assert_eq!(head, Some(at(2, 1)));
    let (head, _) = after.get_snake_head_and_body(&SnakeId(1));
    assert_eq!(head, Some(at(8, 9)));
    // the state after a ply on a given board keeps the first player and the threshold
    let moved_on = pending.after_ply(board);
    assert_eq!(moved_on.prev_action, None);
    assert_eq!(moved_on.first_player, 1);
    assert_eq!(moved_on.to_hashmap_bytes(), state.to_hashmap_bytes());
}

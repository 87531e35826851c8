use battlesnake_alphazero::arena::{legal_or_default, Arena, Tally, Turn};
use battlesnake_alphazero::canonical_board::{
    flip_board_horizontal, rotate_board, rotate_policy, Outcome,
};
use battlesnake_alphazero::coach::{
    accepts, flatten_examples, get_checkpoint_file, merge_examples, self_play_is_due, value_for,
    Coach,
};
use battlesnake_alphazero::game::{Board, Move, Position};

fn at(x: i32, y: i32) -> Position {
    Position { x, y }
}

/// Both snakes sit in a corner, one step from food and one step from elimination.
fn hungry_corners() -> Board {
    Board::start_board([at(0, 0), at(10, 10)], 51, &vec![at(0, 1), at(10, 9)]).unwrap()
}

fn key(first: u8) -> [u8; 121] {
    let mut key = [0u8; 121];
    key[0] = first;
    key
}

#[test]
fn a_sample_is_valued_for_its_own_mover() {
    assert_eq!(value_for(Outcome::Win, 1, 1), Outcome::Win);
    assert_eq!(value_for(Outcome::Win, 1, -1), Outcome::Loss);
    assert_eq!(value_for(Outcome::Loss, -1, 1), Outcome::Win);
    assert_eq!(value_for(Outcome::Loss, -1, -1), Outcome::Loss);
    assert_eq!(value_for(Outcome::Draw, 1, 1), Outcome::Draw);
    assert_eq!(value_for(Outcome::Draw, 1, -1), Outcome::DrawAgainst);
}

#[test]
fn an_episode_with_a_forced_winner_values_both_sides() {
    let mut episode: Coach<f32> = Coach::new(hungry_corners(), 51);
    assert_eq!(episode.current_player(), 1);
    assert_eq!(episode.result(), Outcome::Ongoing);
    assert!(episode.explores(2));
    assert!(!episode.explores(1));

    // player 1 eats
    let first_pi = [0.8f32, 0.0, 0.0, 0.2];
    let first_state = episode.state();
    episode.record(&first_pi);
    assert_eq!(episode.play(Move::Up.as_index()), Some(Outcome::Ongoing));
    assert_eq!(episode.current_player(), -1);
    assert!(!episode.explores(2));
    assert!(episode.explores(3));

    // player -1 turns away from its food and is eliminated
    let second_pi = [0.0f32, 0.4, 0.6, 0.0];
    let second_state = episode.state();
    episode.record(&second_pi);
    assert_eq!(episode.play(Move::Left.as_index()), Some(Outcome::Win));
    assert_eq!(episode.current_player(), 1);
    assert_eq!(episode.result(), Outcome::Win);
    // the game is over: nothing more is played
    assert_eq!(episode.play(0), None);

    let samples = episode.execute_episode();
    assert_eq!(samples.len(), 2);
    assert_eq!(samples[0].0, first_state.to_hashmap_bytes());
    assert_eq!(samples[1].0, second_state.to_hashmap_bytes());
    assert_eq!(samples[0].1.len(), 8);
    assert_eq!(samples[1].1.len(), 8);
    for (_, _, value) in &samples[0].1 {
        assert_eq!(*value, Outcome::Win);
    }
    for (_, _, value) in &samples[1].1 {
        assert_eq!(*value, Outcome::Loss);
    }
    let base = first_state.to_array_board();
    for rotation in 0..4 {
        let turned = rotate_board(&base, rotation);
        assert_eq!(samples[0].1[2 * rotation].0, turned);
        assert_eq!(samples[0].1[2 * rotation].1, rotate_policy(&first_pi, rotation, false));
        assert_eq!(samples[0].1[2 * rotation + 1].0, flip_board_horizontal(&turned));
        assert_eq!(samples[0].1[2 * rotation + 1].1, rotate_policy(&first_pi, rotation, true));
    }
    assert_eq!(samples[1].1[0].0, second_state.to_array_board());
    assert_eq!(samples[1].1[0].1, second_pi);
}

#[test]
fn a_drawn_episode_values_both_sides_as_a_draw() {
    let mut episode: Coach<f32> = Coach::new(hungry_corners(), 51);
    episode.record(&[0.5, 0.0, 0.0, 0.5]);
    assert_eq!(episode.play(Move::Right.as_index()), Some(Outcome::Ongoing));
    episode.record(&[0.0, 0.5, 0.5, 0.0]);
    assert_eq!(episode.play(Move::Left.as_index()), Some(Outcome::Draw));
    let samples = episode.execute_episode();
    assert_eq!(samples[0].1[0].2, Outcome::Draw);
    assert_eq!(samples[1].1[0].2, Outcome::DrawAgainst);
}

#[test]
fn a_layout_is_recorded_once() {
    let mut episode: Coach<u8> = Coach::new(hungry_corners(), 51);
    episode.record(&[1, 2, 3, 4]);
    episode.record(&[9, 9, 9, 9]);
    assert_eq!(episode.play(7), None);
    let samples = episode.execute_episode();
    assert_eq!(samples.len(), 1);
    assert_eq!(samples[0].1[0].1, [1, 2, 3, 4]);
    assert_eq!(samples[0].1[0].2, Outcome::Ongoing);
}

#[test]
fn merging_keeps_the_first_samples_of_a_layout() {
    let mut all: Vec<([u8; 121], Vec<u32>)> = vec![(key(1), vec![10]), (key(2), vec![20, 21])];
    merge_examples(&mut all, vec![(key(2), vec![99]), (key(3), vec![30]), (key(1), vec![98])]);
    assert_eq!(all, vec![(key(1), vec![10]), (key(2), vec![20, 21]), (key(3), vec![30])]);
    merge_examples(&mut all, vec![]);
    assert_eq!(all.len(), 3);
    assert_eq!(flatten_examples(all), vec![10, 20, 21, 30]);
    assert_eq!(flatten_examples(Vec::<([u8; 121], Vec<u32>)>::new()), Vec::<u32>::new());
}

#[test]
fn the_new_evaluator_is_accepted_above_the_threshold_only() {
    // a threshold of 0.55
    assert!(!accepts(55, 45, 55, 100));
    assert!(accepts(56, 44, 55, 100));
    assert!(!accepts(54, 46, 55, 100));
    assert!(!accepts(11, 9, 55, 100));
    assert!(accepts(5501, 4499, 55, 100));
    assert!(!accepts(5499, 4501, 55, 100));
    // draws are not part of the numbers: one win alone is a share of one
    assert!(accepts(1, 0, 55, 100));
    assert!(!accepts(0, 1, 55, 100));
    assert!(!accepts(0, 0, 55, 100));
    assert!(!accepts(0, 0, 0, 1));
    assert!(accepts(1, 1000, 0, 1));
    assert!(!accepts(u32::MAX, 0, 1, 1));
    assert!(accepts(u32::MAX, u32::MAX, u64::MAX / 2 - 1, u64::MAX));
}

#[test]
fn self_play_is_skipped_once_after_loading() {
    assert!(self_play_is_due(false, 1));
    assert!(self_play_is_due(false, 2));
    assert!(!self_play_is_due(true, 1));
    assert!(self_play_is_due(true, 2));
}

#[test]
fn an_illegal_decision_falls_back_to_the_first_move() {
    assert_eq!(legal_or_default(2, &[true, false, true, false]), 2);
    assert_eq!(legal_or_default(1, &[true, false, true, false]), 0);
    assert_eq!(legal_or_default(3, &[false, false, false, false]), 0);
    assert_eq!(legal_or_default(4, &[true, true, true, true]), 0);
}

#[test]
fn an_arena_game_runs_move_by_move_to_its_end() {
    let mut arena = Arena::new(hungry_corners(), 51);
    assert_eq!(arena.current_player(), 1);
    assert_eq!(arena.game_ended(), Outcome::Ongoing);
    match arena.turn() {
        Turn::Move { player, board } => {
            assert_eq!(player, 1);
            assert_eq!(board.get_valid_moves(), [true, false, false, true]);
        }
        Turn::Finished(_) => panic!("the game has just begun"),
    }
    // down is not open to the first snake: up is played for it
    assert_eq!(arena.play(Move::Down.as_index()), Some(Move::Up.as_index()));
    assert_eq!(arena.current_player(), -1);
    assert!(matches!(arena.turn(), Turn::Move { player: -1, .. }));
    assert_eq!(arena.play(Move::Left.as_index()), Some(Move::Left.as_index()));
    // the second snake did not eat: player 1 has won
    assert!(matches!(arena.turn(), Turn::Finished(Outcome::Win)));
    assert_eq!(arena.game_ended(), Outcome::Win);
    assert_eq!(arena.play(0), None);
}

#[test]
fn an_arena_game_can_be_lost_and_drawn() {
    let mut arena = Arena::new(hungry_corners(), 51);
    arena.play(Move::Right.as_index());
    arena.play(Move::Down.as_index());
    assert!(matches!(arena.turn(), Turn::Finished(Outcome::Loss)));
    let mut arena = Arena::new(hungry_corners(), 51);
    arena.play(Move::Right.as_index());
    arena.play(Move::Left.as_index());
    assert!(matches!(arena.turn(), Turn::Finished(Outcome::Draw)));
}

#[test]
fn a_dealt_game_starts_with_player_one() {
    let arena = Arena::new_game(75);
    assert_eq!(arena.current_player(), 1);
    assert_eq!(arena.game_ended(), Outcome::Ongoing);
}

#[test]
fn the_tally_counts_each_result_once() {
    let mut tally = Tally::new();
    for result in [
        Outcome::Win,
        Outcome::Loss,
        Outcome::Win,
        Outcome::Draw,
        Outcome::DrawAgainst,
        Outcome::Ongoing,
        Outcome::Win,
    ] {
        tally.record(result);
    }
    assert_eq!(tally, Tally { n_wins: 3, p_wins: 1, draws: 3 });
}

#[test]
fn checkpoints_are_named_by_their_round() {
    assert_eq!(get_checkpoint_file(1), "checkpoint_1.pth.tar");
    assert_eq!(get_checkpoint_file(19), "checkpoint_19.pth.tar");
    assert_eq!(get_checkpoint_file(0), "checkpoint_0.pth.tar");
    assert_eq!(get_checkpoint_file(-3), "checkpoint_-3.pth.tar");
    assert_eq!(get_checkpoint_file(i32::MAX), "checkpoint_2147483647.pth.tar");
    assert_eq!(get_checkpoint_file(i32::MIN), "checkpoint_-2147483648.pth.tar");
}

use battlesnake_alphazero::canonical_board::Outcome;
use battlesnake_alphazero::game::{
    generate_foods, place_food_for_snake, Board, Move, Position, SnakeId,
};
use battlesnake_alphazero::normal_mcts::run_simulation;

fn at(x: i32, y: i32) -> Position {
    Position { x, y }
}

#[test]
fn food_is_placed_away_from_the_centre() {
    // from (1, 1) the diagonal neighbours are (0, 0), (0, 2), (2, 0) and (2, 2): the
    // corner of the grid and the cell towards the centre are no options
    let mut seen = std::collections::HashSet::new();
    for _ in 0..200 {
        let placed = place_food_for_snake(&vec![], &at(1, 1), (5, 5)).unwrap();
        assert!(placed == (0, 2) || placed == (2, 0));
        seen.insert(placed);
    }
    assert_eq!(seen.len(), 2);
    // a cell that holds food already is no option
    for _ in 0..20 {
        assert_eq!(place_food_for_snake(&vec![(0, 2)], &at(1, 1), (5, 5)), Some((2, 0)));
    }
    assert_eq!(place_food_for_snake(&vec![(0, 2), (2, 0)], &at(1, 1), (5, 5)), None);
}

#[test]
fn food_is_not_placed_on_the_centre_or_off_the_grid() {
    // from (4, 4) only (3, 3), (3, 5) and (5, 3) lie away from the centre
    let mut seen = std::collections::HashSet::new();
    for _ in 0..300 {
        seen.insert(place_food_for_snake(&vec![], &at(4, 4), (5, 5)).unwrap());
    }
    let expected: std::collections::HashSet<(i32, i32)> =
        [(3, 3), (3, 5), (5, 3)].into_iter().collect();
    assert_eq!(seen, expected);
    // the centre itself has no side away from the centre
    assert_eq!(place_food_for_snake(&vec![], &at(5, 5), (5, 5)), None);
    // from the middle of the left border the cells on the grid lie towards the centre
    assert_eq!(place_food_for_snake(&vec![], &at(0, 5), (5, 5)), None);
    // from (0, 3) the cell (1, 2) lies below the head, away from the centre's row
    for _ in 0..50 {
        assert_eq!(place_food_for_snake(&vec![], &at(0, 3), (5, 5)), Some((1, 2)));
    }
    assert_eq!(place_food_for_snake(&vec![], &at(40, 40), (5, 5)), None);
    assert_eq!(place_food_for_snake(&vec![], &at(i32::MAX, i32::MIN), (5, 5)), None);
}

#[test]
fn a_start_has_food_for_both_snakes_and_the_centre() {
    for _ in 0..100 {
        let foods = generate_foods(&at(1, 5), &at(9, 5));
        assert_eq!(foods.len(), 3);
        assert!([at(0, 4), at(0, 6)].contains(&foods[0]));
        assert!([at(10, 4), at(10, 6)].contains(&foods[1]));
        assert_eq!(foods[2], at(5, 5));
    }
    // snakes on the centre get no food of their own
    assert_eq!(generate_foods(&at(5, 5), &at(5, 5)), vec![at(5, 5)]);
}

#[test]
fn starts_are_dealt_differently() {
    let mut heads = std::collections::HashSet::new();
    for _ in 0..200 {
        let state = Board::init_random_board().as_canonical(1, 0);
        let (first, _, second, _, _) = state.get_info_for_repr();
        heads.insert((first.unwrap(), second.unwrap()));
    }
    // eight start points, two of the same kind in order: 2 * 4 * 3 pairs
    assert!(heads.len() > 12 && heads.len() <= 24);
}

#[test]
fn food_appears_on_a_board_without_food() {
    let board = Board::start_board([at(1, 1), at(9, 9)], 99, &vec![]).unwrap();
    let mut with_food = 0;
    for _ in 0..400 {
        let next = board.simulate_moves(&[Move::Up, Move::Down]);
        let (_, _, _, _, foods) = next.as_canonical(1, 0).get_info_for_repr();
        assert!(foods.len() <= 1);
        with_food += foods.len();
    }
    // one time in four the rules are asked to spawn food, and they spawn one where none is
    assert!(with_food > 40 && with_food < 180, "{}", with_food);
}

#[test]
fn a_ply_moves_each_head_by_its_move_and_feeds_or_tires_the_snake() {
    let board = Board::start_board([at(1, 1), at(9, 9)], 60, &vec![at(1, 2)]).unwrap();
    for _ in 0..40 {
        // the first snake eats, the second only moves; food may be spawned or not
        let next = board.simulate_moves(&[Move::Up, Move::Left]);
        let seen = next.as_canonical(1, 0);
        assert_eq!(seen.get_snake_head_and_body(&SnakeId(0)).0, Some(at(1, 2)));
        assert_eq!(seen.get_snake_head_and_body(&SnakeId(1)).0, Some(at(8, 9)));
        // the second snake has health 59, the first 100
        assert_eq!(next.as_canonical(1, 59).get_game_ended(1), Outcome::Ongoing);
        assert_eq!(next.as_canonical(1, 60).get_game_ended(1), Outcome::Win);
        assert_eq!(next.as_canonical(1, 100).get_game_ended(1), Outcome::Win);
        assert_eq!(next.as_canonical(1, 101).get_game_ended(1), Outcome::Draw);
        let (_, _, _, _, foods) = seen.get_info_for_repr();
        assert!(!foods.contains(&at(1, 2)));
        assert!(foods.len() <= 1);
    }
    let moves = [
        (Move::Up, at(1, 2), at(9, 10)),
        (Move::Down, at(1, 0), at(9, 8)),
        (Move::Left, at(0, 1), at(8, 9)),
        (Move::Right, at(2, 1), at(10, 9)),
    ];
    let plain = Board::start_board([at(1, 1), at(9, 9)], 60, &vec![]).unwrap();
    for (first, first_head, _) in moves {
        for (second, _, second_head) in moves {
            let next = plain.simulate_moves(&[first, second]);
            let seen = next.as_canonical(1, 0);
            assert_eq!(seen.get_snake_head_and_body(&SnakeId(0)).0, Some(first_head));
            assert_eq!(seen.get_snake_head_and_body(&SnakeId(1)).0, Some(second_head));
            assert_eq!(next.as_canonical(1, 59).get_game_ended(1), Outcome::Ongoing);
            assert_eq!(next.as_canonical(1, 60).get_game_ended(1), Outcome::Draw);
        }
    }
}

#[test]
fn a_playout_of_a_finished_game_names_its_winner() {
    // the first snake leaves the grid: the game is over and the second snake has won
    let board = Board::start_board([at(0, 5), at(9, 9)], 99, &vec![]).unwrap();
    let over = board.simulate_moves(&[Move::Left, Move::Down]);
    for _ in 0..20 {
        assert_eq!(run_simulation(over), Some(SnakeId(1)));
    }
    // both snakes leave the grid: nobody is left
    let board = Board::start_board([at(0, 5), at(10, 5)], 99, &vec![]).unwrap();
    let over = board.simulate_moves(&[Move::Left, Move::Right]);
    assert_eq!(run_simulation(over), None);
}

use battlesnake_alphazero::canonical_board::AllBoardInfo;
use battlesnake_alphazero::game::{Board, Position};
use battlesnake_alphazero::layout::{
    array_board, draw, hashmap_bytes, hashmap_string, Cell,
};

fn at(x: i32, y: i32) -> Position {
    Position { x, y }
}

fn busy_info() -> AllBoardInfo {
    (
        Some(at(2, 0)),
        Some(vec![at(0, 0), at(1, 0), at(2, 0)]),
        Some(at(10, 10)),
        Some(vec![at(10, 8), at(10, 9), at(10, 10)]),
        vec![at(5, 5)],
    )
}

#[test]
fn draw_marks_every_piece_by_cell_number() {
    let pieces = draw(&busy_info());
    assert_eq!(pieces[0], Cell::SelfBody);
    assert_eq!(pieces[1], Cell::SelfBody);
    assert_eq!(pieces[2], Cell::SelfHead);
    assert_eq!(pieces[11 * 8 + 10], Cell::OtherBody);
    assert_eq!(pieces[11 * 9 + 10], Cell::OtherBody);
    assert_eq!(pieces[11 * 10 + 10], Cell::OtherHead);
    assert_eq!(pieces[11 * 5 + 5], Cell::Food);
    assert_eq!(pieces.iter().filter(|piece| **piece == Cell::Empty).count(), 121 - 7);
}

#[test]
fn key_bytes_hold_the_codes_of_the_pieces() {
    let key = hashmap_bytes(&busy_info());
    let mut expected = [0u8; 121];
    expected[0] = 2;
    expected[1] = 2;
    expected[2] = 1;
    expected[11 * 8 + 10] = 4;
    expected[11 * 9 + 10] = 4;
    expected[11 * 10 + 10] = 3;
    expected[11 * 5 + 5] = 5;
    assert_eq!(key, expected);
}

#[test]
fn key_text_counts_runs_from_the_top_row() {
    // letters 10, 21 and 32 are the opponent in the last column of the three top rows,
    // letter 60 is the food, letters 110 to 112 the mover in the bottom row
    assert_eq!(hashmap_string(&busy_info()), "a10d1a10e1a10e1a27f1a49c2b1a8");
}

#[test]
fn key_text_of_the_empty_grid_is_one_run() {
    let nothing: AllBoardInfo = (None, None, None, None, vec![]);
    assert_eq!(hashmap_string(&nothing), "a121");
    assert_eq!(hashmap_bytes(&nothing), [0u8; 121]);
}

#[test]
fn key_text_writes_long_runs_in_decimal() {
    let info: AllBoardInfo = (None, None, None, None, vec![at(10, 0)]);
    assert_eq!(hashmap_string(&info), "a120f1");
    let info: AllBoardInfo = (None, None, None, None, vec![at(0, 10), at(1, 10), at(2, 10)]);
    assert_eq!(hashmap_string(&info), "f3a118");
    let full_row: Vec<Position> = (0..11).map(|x| at(x, 10)).collect();
    let info: AllBoardInfo = (None, None, None, None, full_row);
    assert_eq!(hashmap_string(&info), "f11a110");
}

#[test]
fn a_body_without_a_head_is_not_drawn() {
    let info: AllBoardInfo = (None, Some(vec![at(3, 3)]), None, Some(vec![at(4, 4)]), vec![]);
    assert_eq!(hashmap_bytes(&info), [0u8; 121]);
}

#[test]
fn later_pieces_cover_earlier_ones() {
    // the opponent's body crosses the mover's head, and food lies on the opponent's head
    let info: AllBoardInfo = (
        Some(at(1, 1)),
        Some(vec![at(1, 1), at(1, 2)]),
        Some(at(2, 2)),
        Some(vec![at(1, 1), at(1, 2), at(2, 2)]),
        vec![at(2, 2)],
    );
    let key = hashmap_bytes(&info);
    assert_eq!(key[11 * 1 + 1], 4);
    assert_eq!(key[11 * 2 + 1], 4);
    assert_eq!(key[11 * 2 + 2], 5);
}

#[test]
fn array_board_has_a_row_for_each_height() {
    let info = busy_info();
    let rows = array_board(&info);
    assert_eq!(rows[10][2], Cell::SelfHead);
    assert_eq!(rows[10][0], Cell::SelfBody);
    assert_eq!(rows[0][10], Cell::OtherHead);
    assert_eq!(rows[1][10], Cell::OtherBody);
    assert_eq!(rows[5][5], Cell::Food);
    let pieces = draw(&info);
    for x in 0..11 {
        for y in 0..11 {
            assert_eq!(rows[10 - y][x], pieces[11 * y + x]);
        }
    }
}

#[test]
fn codes_and_letters_are_fixed() {
    let pieces = [
        Cell::Empty,
        Cell::SelfHead,
        Cell::SelfBody,
        Cell::OtherHead,
        Cell::OtherBody,
        Cell::Food,
    ];
    let codes: Vec<u8> = pieces.iter().map(|piece| piece.code()).collect();
    assert_eq!(codes, vec![0, 1, 2, 3, 4, 5]);
    let letters: String = pieces.iter().map(|piece| piece.letter()).collect();
    assert_eq!(letters, "abcdef");
}

#[test]
fn different_layouts_have_different_keys() {
    let mut seen_text = std::collections::HashSet::new();
    let mut seen_bytes = std::collections::HashSet::new();
    let mut layouts = 0;
    for x in 0..11 {
        for y in 0..11 {
            for (fx, fy) in [(0, 0), (10, 10), (5, 5), (3, 7)] {
                if (fx, fy) == (x, y) {
                    continue;
                }
                let info: AllBoardInfo =
                    (Some(at(x, y)), Some(vec![at(x, y)]), None, None, vec![at(fx, fy)]);
                assert!(seen_text.insert(hashmap_string(&info)));
                assert!(seen_bytes.insert(hashmap_bytes(&info).to_vec()));
                layouts += 1;
            }
        }
    }
    assert_eq!(layouts, 121 * 4 - 4);
}

#[test]
fn the_same_layout_has_the_same_key() {
    // the order of the food and of the body cells does not show in the layout
    let one: AllBoardInfo = (
        Some(at(4, 4)),
        Some(vec![at(4, 2), at(4, 3), at(4, 4)]),
        None,
        None,
        vec![at(1, 1), at(9, 9)],
    );
    let other: AllBoardInfo = (
        Some(at(4, 4)),
        Some(vec![at(4, 4), at(4, 3), at(4, 2)]),
        None,
        None,
        vec![at(9, 9), at(1, 1)],
    );
    assert_eq!(hashmap_string(&one), hashmap_string(&other));
    assert_eq!(hashmap_bytes(&one), hashmap_bytes(&other));
}

#[test]
fn keys_of_a_board_match_the_keys_of_its_info() {
    let board = Board::start_board([at(3, 3), at(7, 7)], 80, &vec![at(0, 0)]).unwrap();
    let state = board.as_canonical(1, 0);
    let info = state.get_info_for_repr();
    assert_eq!(state.to_hashmap_bytes(), hashmap_bytes(&info));
    // the state's key of text adds to the grid what waits and how the game stands
    assert_eq!(state.to_hashmap_string(), format!("{}n?", hashmap_string(&info)));
    assert_eq!(state.to_array_board(), array_board(&info));
    assert_eq!(state.to_tensor_board(), array_board(&info));
}

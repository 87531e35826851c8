use battlesnake_alphazero::canonical_board::{
    flip_board_horizontal, rotate_board, rotate_policy,
};
use battlesnake_alphazero::game::{Board, Position};
use battlesnake_alphazero::layout::Cell;

fn numbered() -> [[f32; 11]; 11] {
    let mut board = [[0.0f32; 11]; 11];
    for r in 0..11 {
        for c in 0..11 {
            board[r][c] = (r * 11 + c) as f32;
        }
    }
    board
}

fn inverse(rotation: usize, flip: bool) -> (usize, bool) {
    if flip {
        (rotation, true)
    } else {
        ((4 - rotation) % 4, false)
    }
}

fn transform(board: &[[f32; 11]; 11], rotation: usize, flip: bool) -> [[f32; 11]; 11] {
    let turned = rotate_board(board, rotation);
    if flip {
        flip_board_horizontal(&turned)
    } else {
        turned
    }
}

#[test]
fn a_quarter_turn_moves_the_first_row_to_the_last_column() {
    let board = numbered();
    let turned = rotate_board(&board, 1);
    for c in 0..11 {
        assert_eq!(turned[c][10], board[0][c]);
    }
    assert_eq!(turned[0][0], board[10][0]);
    let half = rotate_board(&board, 2);
    assert_eq!(half[0][0], board[10][10]);
    assert_eq!(half[10][3], board[0][7]);
    let three = rotate_board(&board, 3);
    assert_eq!(three[10][0], board[0][0]);
    assert_eq!(three[0][0], board[0][10]);
    assert_eq!(rotate_board(&board, 0), board);
}

#[test]
fn a_flip_reverses_each_row() {
    let board = numbered();
    let flipped = flip_board_horizontal(&board);
    for r in 0..11 {
        for c in 0..11 {
            assert_eq!(flipped[r][c], board[r][10 - c]);
        }
    }
}

#[test]
fn the_policy_follows_the_fixed_table() {
    let pi = [0.1f32, 0.2, 0.3, 0.4];
    assert_eq!(rotate_policy(&pi, 0, false), [0.1, 0.2, 0.3, 0.4]);
    assert_eq!(rotate_policy(&pi, 1, false), [0.3, 0.4, 0.2, 0.1]);
    assert_eq!(rotate_policy(&pi, 2, false), [0.2, 0.1, 0.4, 0.3]);
    assert_eq!(rotate_policy(&pi, 3, false), [0.4, 0.3, 0.1, 0.2]);
    assert_eq!(rotate_policy(&pi, 0, true), [0.1, 0.2, 0.4, 0.3]);
    assert_eq!(rotate_policy(&pi, 1, true), [0.3, 0.4, 0.1, 0.2]);
    assert_eq!(rotate_policy(&pi, 2, true), [0.2, 0.1, 0.3, 0.4]);
    assert_eq!(rotate_policy(&pi, 3, true), [0.4, 0.3, 0.2, 0.1]);
    assert_eq!(rotate_policy(&pi, 9, false), [0.1, 0.2, 0.3, 0.4]);
}

#[test]
fn every_symmetry_is_undone_by_its_inverse() {
    let board = numbered();
    let policies = [
        [0.1f32, 0.2, 0.3, 0.4],
        [1.0, 0.0, 0.0, 0.0],
        [0.0, 1.0, 0.0, 0.0],
        [0.0, 0.0, 1.0, 0.0],
        [0.0, 0.0, 0.0, 1.0],
        [0.25, 0.25, 0.25, 0.25],
    ];
    for rotation in 0..4 {
        for flip in [false, true] {
            let (back_rotation, back_flip) = inverse(rotation, flip);
            let there = transform(&board, rotation, flip);
            assert_eq!(transform(&there, back_rotation, back_flip), board);
            for pi in policies {
                let turned = rotate_policy(&pi, rotation, flip);
                assert_eq!(rotate_policy(&turned, back_rotation, back_flip), pi);
            }
        }
    }
}

#[test]
fn augmentation_gives_the_eight_variants_in_order() {
    let board = Board::start_board(
        [Position { x: 1, y: 1 }, Position { x: 9, y: 5 }],
        99,
        &vec![Position { x: 5, y: 5 }],
    )
    .unwrap();
    let state = board.as_canonical(-1, 0);
    let pi = [0.7f32, 0.1, 0.15, 0.05];
    let symmetries = state.get_mirroring_and_rotation(&pi);
    assert_eq!(symmetries.len(), 8);
    let base = state.to_array_board();
    assert_eq!(base[5][9], Cell::SelfHead);
    assert_eq!(base[9][1], Cell::OtherHead);
    for rotation in 0..4 {
        for (offset, flip) in [false, true].into_iter().enumerate() {
            let (grid, policy, player) = &symmetries[2 * rotation + offset];
            let turned = rotate_board(&base, rotation);
            let expected = if flip { flip_board_horizontal(&turned) } else { turned };
            assert_eq!(*grid, expected);
            assert_eq!(*policy, rotate_policy(&pi, rotation, flip));
            assert_eq!(*player, -1);
        }
    }
    let variants: std::collections::HashSet<Vec<u8>> = symmetries
        .iter()
        .map(|(grid, _, _)| grid.iter().flatten().map(|cell| cell.code()).collect())
        .collect();
    assert_eq!(variants.len(), 8);
}

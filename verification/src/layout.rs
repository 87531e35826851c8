//! How a position is drawn: the pieces of the grid as the mover sees them, the grids and
//! the keys made of them, and why the keys tell positions apart.

use crate::canonical_board::{info_on_grid, AllBoardInfo};
use crate::game::{all_on_grid, Position, BOARD_SIZE};
use vstd::prelude::*;

verus! {

/// What a cell of the grid shows, seen by the side to move.
#[derive(Clone, Copy, Debug, PartialEq, Eq, Hash, Structural)]
pub enum Cell {
    Empty,
    SelfHead,
    SelfBody,
    OtherHead,
    OtherBody,
    Food,
}

/// The pieces of a position as they are drawn: a body is drawn only together with its
/// head.
pub struct Layout {
    pub self_head: Option<Position>,
    pub self_body: Seq<Position>,
    pub other_head: Option<Position>,
    pub other_body: Seq<Position>,
    pub food: Seq<Position>,
}

/// The cells of a body that are drawn: none without a head.
pub open spec fn drawn_body(head: Option<Position>, body: Option<Vec<Position>>) -> Seq<Position> {
    if head is Some && body is Some {
        body->0@
    } else {
        Seq::empty()
    }
}

/// The layout that `info` describes.
pub open spec fn layout_of(info: AllBoardInfo) -> Layout {
    Layout {
        self_head: info.0,
        self_body: drawn_body(info.0, info.1),
        other_head: info.2,
        other_body: drawn_body(info.2, info.3),
        food: info.4@,
    }
}

impl Layout {
    /// What the cell `at` shows. Food covers everything; the opponent covers the mover; a
    /// head is never covered by its own body.
    pub open spec fn piece_at(self, at: Position) -> Cell {
        if self.food.contains(at) {
            Cell::Food
        } else if self.other_body.contains(at) && self.other_head != Some(at) {
            Cell::OtherBody
        } else if self.other_head == Some(at) {
            Cell::OtherHead
        } else if self.self_body.contains(at) && self.self_head != Some(at) {
            Cell::SelfBody
        } else if self.self_head == Some(at) {
            Cell::SelfHead
        } else {
            Cell::Empty
        }
    }

}

/// The number of the cell `at`, rows counted from the bottom.
pub open spec fn cell_number(at: Position) -> int {
    at.y * BOARD_SIZE + at.x
}

/// Whether `pieces` shows `layout`, cell by cell.
pub open spec fn shows(pieces: [Cell; 121], layout: Layout) -> bool {
    forall|at: Position| at.on_grid() ==> pieces[#[trigger] cell_number(at)] == layout.piece_at(at)
}

/// A list with one more item holds what it held before, and that item.
pub proof fn lemma_holds_after_push<T>(list: Seq<T>, item: T, wanted: T)
    ensures
        list.push(item).contains(wanted) == (list.contains(wanted) || item == wanted),
{
    let longer = list.push(item);
    if list.contains(wanted) {
        let at = choose|at: int| 0 <= at < list.len() && list[at] == wanted;
        assert(longer[at] == wanted);
    }
    if item == wanted {
        assert(longer[list.len() as int] == wanted);
    }
    if longer.contains(wanted) {
        let at = choose|at: int| 0 <= at < longer.len() && longer[at] == wanted;
        if at < list.len() {
            assert(list[at] == wanted);
        }
    }
}

/// The index of the cell `at` in a table of the grid's 121 cells.
fn number_of(at: Position) -> (number: usize)
    requires
        at.on_grid(),
    ensures
        number == cell_number(at),
        number < 121,
{
    (at.y * BOARD_SIZE + at.x) as usize
}

/// Marks each cell of `cells` but `head` with `mark`.
fn draw_body(
    pieces: &mut [Cell; 121],
    cells: &Vec<Position>,
    head: Position,
    mark: Cell,
    Ghost(before): Ghost<Layout>,
    Ghost(is_self): Ghost<bool>,
)
    requires
        all_on_grid(cells@),
        shows(*old(pieces), before),
        before.food.len() == 0,
        before.other_body.len() == 0,
        is_self ==> before.self_body.len() == 0 && before.other_head is None
            && before.self_head == Some(head) && mark == Cell::SelfBody,
        !is_self ==> before.other_head == Some(head) && mark == Cell::OtherBody,
    ensures
        shows(
            *final(pieces),
            if is_self {
                Layout { self_body: cells@, ..before }
            } else {
                Layout { other_body: cells@, ..before }
            },
        ),
{
    let mut i: usize = 0;
    while i < cells.len()
        invariant
            i <= cells@.len(),
            all_on_grid(cells@),
            before.food.len() == 0,
            before.other_body.len() == 0,
            is_self ==> before.self_body.len() == 0 && before.other_head is None
                && before.self_head == Some(head) && mark == Cell::SelfBody,
            !is_self ==> before.other_head == Some(head) && mark == Cell::OtherBody,
            shows(
                *pieces,
                if is_self {
                    Layout { self_body: cells@.take(i as int), ..before }
                } else {
                    Layout { other_body: cells@.take(i as int), ..before }
                },
            ),
        decreases cells@.len() - i,
    {
        let body = cells[i];
        let ghost drawn = if is_self {
            Layout { self_body: cells@.take(i as int), ..before }
        } else {
            Layout { other_body: cells@.take(i as int), ..before }
        };
        let ghost next = if is_self {
            Layout { self_body: cells@.take(i + 1), ..before }
        } else {
            Layout { other_body: cells@.take(i + 1), ..before }
        };
        let ghost earlier = *pieces;
        assert(cells@[i as int].on_grid());
        if body != head {
            let number = number_of(body);
            pieces[number] = mark;
        }
        proof {
            assert(cells@.take(i + 1) =~= cells@.take(i as int).push(body));
            assert forall|at: Position| at.on_grid() implies pieces[#[trigger] cell_number(at)]
                == next.piece_at(at) by {
                lemma_holds_after_push(cells@.take(i as int), body, at);
                assert(earlier[cell_number(at)] == drawn.piece_at(at));
                if cell_number(at) == cell_number(body) {
                    assert(at == body);
                }
            }
        }
        i += 1;
    }
    proof {
        assert(cells@.take(cells@.len() as int) =~= cells@);
    }
}

/// The grid's cells as `info` has them drawn, by cell number.
pub fn draw(info: &AllBoardInfo) -> (pieces: [Cell; 121])
    requires
        info_on_grid(*info),
    ensures
        shows(pieces, layout_of(*info)),
{
    let mut pieces = [Cell::Empty;121];
    let ghost empty = Layout {
        self_head: None,
        self_body: Seq::empty(),
        other_head: None,
        other_body: Seq::empty(),
        food: Seq::empty(),
    };
    assert(shows(pieces, empty));
    let ghost mut drawn = empty;
    if let Some(self_head) = info.0 {
        let ghost earlier = pieces;
        let number = number_of(self_head);
        pieces[number] = Cell::SelfHead;
        proof {
            let next = Layout { self_head: Some(self_head), ..drawn };
            assert forall|at: Position| at.on_grid() implies pieces[#[trigger] cell_number(at)]
                == next.piece_at(at) by {
                assert(earlier[cell_number(at)] == drawn.piece_at(at));
                if cell_number(at) == cell_number(self_head) {
                    assert(at == self_head);
                }
            }
            drawn = next;
        }
        if let Some(self_body) = &info.1 {
            draw_body(&mut pieces, self_body, self_head, Cell::SelfBody, Ghost(drawn), Ghost(true));
            proof {
                drawn = Layout { self_body: self_body@, ..drawn };
            }
        }
    }
    assert(drawn.self_head == info.0 && drawn.self_body == drawn_body(info.0, info.1));
    if let Some(other_head) = info.2 {
        let ghost earlier = pieces;
        let number = number_of(other_head);
        pieces[number] = Cell::OtherHead;
        proof {
            let next = Layout { other_head: Some(other_head), ..drawn };
            assert forall|at: Position| at.on_grid() implies pieces[#[trigger] cell_number(at)]
                == next.piece_at(at) by {
                assert(earlier[cell_number(at)] == drawn.piece_at(at));
                if cell_number(at) == cell_number(other_head) {
                    assert(at == other_head);
                }
            }
            drawn = next;
        }
        if let Some(other_body) = &info.3 {
            draw_body(
                &mut pieces,
                other_body,
                other_head,
                Cell::OtherBody,
                Ghost(drawn),
                Ghost(false),
            );
            proof {
                drawn = Layout { other_body: other_body@, ..drawn };
            }
        }
    }
    assert(drawn.other_head == info.2 && drawn.other_body == drawn_body(info.2, info.3));
    let foods = &info.4;
    let mut i: usize = 0;
    while i < foods.len()
        invariant
            i <= foods@.len(),
            all_on_grid(foods@),
            drawn.food.len() == 0,
            shows(pieces, Layout { food: foods@.take(i as int), ..drawn }),
        decreases foods@.len() - i,
    {
        let food = foods[i];
        let ghost earlier = pieces;
        let ghost seen = Layout { food: foods@.take(i as int), ..drawn };
        let ghost next = Layout { food: foods@.take(i + 1), ..drawn };
        assert(foods@[i as int].on_grid());
        let number = number_of(food);
        pieces[number] = Cell::Food;
        proof {
            assert(foods@.take(i + 1) =~= foods@.take(i as int).push(food));
            assert forall|at: Position| at.on_grid() implies pieces[#[trigger] cell_number(at)]
                == next.piece_at(at) by {
                lemma_holds_after_push(foods@.take(i as int), food, at);
                assert(earlier[cell_number(at)] == seen.piece_at(at));
                if cell_number(at) == cell_number(food) {
                    assert(at == food);
                }
            }
        }
        i += 1;
    }
    proof {
        assert(foods@.take(foods@.len() as int) =~= foods@);
        assert(Layout { food: foods@, ..drawn } == layout_of(*info));
    }
    pieces
}

impl Cell {
    /// The byte that stands for the piece in a key of bytes.
    pub open spec fn spec_code(self) -> u8 {
        match self {
            Cell::Empty => 0,
            Cell::SelfHead => 1,
            Cell::SelfBody => 2,
            Cell::OtherHead => 3,
            Cell::OtherBody => 4,
            Cell::Food => 5,
        }
    }

    #[verifier::when_used_as_spec(spec_code)]
    pub fn code(self) -> (code: u8)
        ensures
            code == self.spec_code(),
    {
        match self {
            Cell::Empty => 0,
            Cell::SelfHead => 1,
            Cell::SelfBody => 2,
            Cell::OtherHead => 3,
            Cell::OtherBody => 4,
            Cell::Food => 5,
        }
    }

    /// The letter that stands for the piece in a key of text.
    pub open spec fn spec_letter(self) -> char {
        match self {
            Cell::Empty => 'a',
            Cell::SelfHead => 'b',
            Cell::SelfBody => 'c',
            Cell::OtherHead => 'd',
            Cell::OtherBody => 'e',
            Cell::Food => 'f',
        }
    }

    #[verifier::when_used_as_spec(spec_letter)]
    pub fn letter(self) -> (letter: char)
        ensures
            letter == self.spec_letter(),
    {
        match self {
            Cell::Empty => 'a',
            Cell::SelfHead => 'b',
            Cell::SelfBody => 'c',
            Cell::OtherHead => 'd',
            Cell::OtherBody => 'e',
            Cell::Food => 'f',
        }
    }
}

/// The grid of `layout` as a table of rows, the top row first: row `r` shows the cells
/// with `y = 10 - r`, column `c` the cell with `x = c`.
pub open spec fn is_array_board(board: [[Cell; 11]; 11], layout: Layout) -> bool {
    forall|r: int, c: int|
        0 <= r < 11 && 0 <= c < 11 ==> (#[trigger] board[r][c]) == layout.piece_at(
            Position { x: c as i32, y: (10 - r) as i32 },
        )
}

/// The key of bytes of `layout`: byte `11 * y + x` is the code of the cell `(x, y)`.
pub open spec fn is_key_bytes(key: [u8; 121], layout: Layout) -> bool {
    forall|x: int, y: int|
        0 <= x < 11 && 0 <= y < 11 ==> (#[trigger] key[11 * y + x]) == layout.piece_at(
            Position { x: x as i32, y: y as i32 },
        ).spec_code()
}

/// The letters of `layout`, row by row from the top row, each row from the left.
pub open spec fn letters_of(layout: Layout) -> Seq<char> {
    Seq::new(
        121,
        |i: int| layout.piece_at(Position { x: (i % 11) as i32, y: (10 - i / 11) as i32 }).spec_letter(),
    )
}

/// The table of rows of the position that `info` describes.
pub fn array_board(info: &AllBoardInfo) -> (board: [[Cell; 11]; 11])
    requires
        info_on_grid(*info),
    ensures
        is_array_board(board, layout_of(*info)),
{
    let pieces = draw(info);
    let ghost layout = layout_of(*info);
    let mut result = [[Cell::Empty;11];11];
    let mut r: usize = 0;
    while r < 11
        invariant
            r <= 11,
            shows(pieces, layout),
            forall|a: int, c: int|
                0 <= a < r && 0 <= c < 11 ==> (#[trigger] result[a][c]) == layout.piece_at(
                    Position { x: c as i32, y: (10 - a) as i32 },
                ),
        decreases 11 - r,
    {
        let mut row = [Cell::Empty;11];
        let mut c: usize = 0;
        while c < 11
            invariant
                r < 11,
                c <= 11,
                shows(pieces, layout),
                forall|b: int|
                    0 <= b < c ==> (#[trigger] row[b]) == layout.piece_at(
                        Position { x: b as i32, y: (10 - r) as i32 },
                    ),
            decreases 11 - c,
        {
            let ghost at = Position { x: c as i32, y: (10 - r) as i32 };
            assert(pieces[cell_number(at)] == layout.piece_at(at));
            row[c] = pieces[(10 - r) * 11 + c];
            c += 1;
        }
        result[r] = row;
        r += 1;
    }
    result
}

/// The key of bytes of the position that `info` describes.
pub fn hashmap_bytes(info: &AllBoardInfo) -> (key: [u8; 121])
    requires
        info_on_grid(*info),
    ensures
        is_key_bytes(key, layout_of(*info)),
{
    let pieces = draw(info);
    let ghost layout = layout_of(*info);
    let mut result = [0u8;121];
    let mut i: usize = 0;
    while i < 121
        invariant
            i <= 121,
            forall|k: int| 0 <= k < i ==> (#[trigger] result[k]) == pieces[k].spec_code(),
        decreases 121 - i,
    {
        result[i] = pieces[i].code();
        i += 1;
    }
    proof {
        assert forall|x: int, y: int| 0 <= x < 11 && 0 <= y < 11 implies (#[trigger] result[11 * y
            + x]) == layout.piece_at(Position { x: x as i32, y: y as i32 }).spec_code() by {
            let at = Position { x: x as i32, y: y as i32 };
            assert(pieces[cell_number(at)] == layout.piece_at(at));
        }
    }
    result
}

/// The character of the decimal digit `digit`.
pub open spec fn spec_digit_char(digit: usize) -> char {
    if digit == 0 {
        '0'
    } else if digit == 1 {
        '1'
    } else if digit == 2 {
        '2'
    } else if digit == 3 {
        '3'
    } else if digit == 4 {
        '4'
    } else if digit == 5 {
        '5'
    } else if digit == 6 {
        '6'
    } else if digit == 7 {
        '7'
    } else if digit == 8 {
        '8'
    } else {
        '9'
    }
}

#[verifier::when_used_as_spec(spec_digit_char)]
fn digit_char(digit: usize) -> (character: char)
    requires
        digit < 10,
    ensures
        character == spec_digit_char(digit),
{
    if digit == 0 {
        '0'
    } else if digit == 1 {
        '1'
    } else if digit == 2 {
        '2'
    } else if digit == 3 {
        '3'
    } else if digit == 4 {
        '4'
    } else if digit == 5 {
        '5'
    } else if digit == 6 {
        '6'
    } else if digit == 7 {
        '7'
    } else if digit == 8 {
        '8'
    } else {
        '9'
    }
}

/// The decimal numeral of `number`, without leading zeros.
pub open spec fn decimal(number: nat) -> Seq<char>
    decreases number,
{
    if number < 10 {
        seq![spec_digit_char(number as usize)]
    } else {
        decimal(number / 10).push(spec_digit_char((number % 10) as usize))
    }
}

/// How many items at the end of `text` equal its last item.
pub open spec fn last_run(text: Seq<char>) -> nat
    decreases text.len(),
{
    if text.len() <= 1 {
        text.len()
    } else if text[text.len() - 2] == text[text.len() - 1] {
        last_run(text.drop_last()) + 1
    } else {
        1
    }
}

/// The run-length encoding of `text`: for each maximal run of equal characters, in order,
/// the character and then the decimal length of the run.
pub open spec fn run_lengths(text: Seq<char>) -> Seq<char>
    decreases text.len(),
{
    if text.len() == 0 {
        Seq::empty()
    } else {
        let run = last_run(text);
        if 1 <= run <= text.len() {
            run_lengths(text.take(text.len() - run)) + seq![text.last()] + decimal(run)
        } else {
            Seq::empty()
        }
    }
}

/// The last run of a text that is not empty has at least one item, and no more than the
/// text.
pub proof fn lemma_last_run_bounds(text: Seq<char>)
    requires
        text.len() > 0,
    ensures
        1 <= last_run(text) <= text.len(),
    decreases text.len(),
{
    if text.len() > 1 && text[text.len() - 2] == text[text.len() - 1] {
        lemma_last_run_bounds(text.drop_last());
    }
}

/// Appends the decimal numeral of `number` to `out`.
pub(crate) fn push_decimal(out: &mut Vec<char>, number: usize)
    ensures
        final(out)@ == old(out)@ + decimal(number as nat),
    decreases number,
{
    if number >= 10 {
        push_decimal(out, number / 10);
    }
    out.push(digit_char(number % 10));
    assert(out@ =~= old(out)@ + decimal(number as nat));
}

/// The run-length encoding of `letters`.
fn compress(letters: &Vec<char>) -> (out: Vec<char>)
    requires
        letters@.len() >= 1,
    ensures
        out@ == run_lengths(letters@),
{
    let mut out: Vec<char> = Vec::new();
    let mut last_char = letters[0];
    let mut count: usize = 1;
    let mut i: usize = 1;
    assert(letters@.take(0) =~= Seq::<char>::empty());
    while i < letters.len()
        invariant
            1 <= i <= letters@.len(),
            1 <= count <= i,
            count == last_run(letters@.take(i as int)),
            last_char == letters@[i - 1],
            out@ == run_lengths(letters@.take(i - count)),
        decreases letters@.len() - i,
    {
        let current_char = letters[i];
        let ghost seen = letters@.take(i as int);
        let ghost longer = letters@.take(i + 1);
        proof {
            assert(longer.drop_last() =~= seen);
            assert(longer[longer.len() - 2] == last_char);
            assert(longer[longer.len() - 1] == current_char);
        }
        if current_char == last_char {
            count += 1;
        } else {
            out.push(last_char);
            push_decimal(&mut out, count);
            proof {
                assert(seen.take(seen.len() - count) =~= letters@.take(i - count));
                assert(out@ =~= run_lengths(seen));
                assert(letters@.take(i + 1 - 1) =~= seen);
            }
            last_char = current_char;
            count = 1;
        }
        i += 1;
    }
    let ghost all = letters@;
    out.push(last_char);
    push_decimal(&mut out, count);
    proof {
        assert(letters@.take(letters@.len() as int) =~= all);
        assert(all.take(all.len() - count) =~= letters@.take(i - count));
        assert(out@ =~= run_lengths(all));
    }
    out
}

/// Calls `Iterator::collect` on the characters: `String`'s `FromIterator` makes the text
/// that holds them in order.
#[verifier::external_body]
pub(crate) fn string_of(characters: &Vec<char>) -> (text: String)
    ensures
        text@ == characters@,
{
    characters.iter().collect()
}

/// The characters of the key of text of the position that `info` describes: the
/// run-length encoding of its letters.
pub fn hashmap_letters(info: &AllBoardInfo) -> (key: Vec<char>)
    requires
        info_on_grid(*info),
    ensures
        key@ == run_lengths(letters_of(layout_of(*info))),
{
    let pieces = draw(info);
    let ghost layout = layout_of(*info);
    let mut letters: Vec<char> = Vec::new();
    let mut i: usize = 0;
    while i < 121
        invariant
            i <= 121,
            letters@.len() == i,
            shows(pieces, layout),
            forall|k: int| 0 <= k < i ==> (#[trigger] letters@[k]) == letters_of(layout)[k],
        decreases 121 - i,
    {
        let ghost at = Position { x: (i % 11) as i32, y: (10 - i / 11) as i32 };
        assert(pieces[cell_number(at)] == layout.piece_at(at));
        letters.push(pieces[(10 - i / 11) * 11 + i % 11].letter());
        i += 1;
    }
    assert(letters@ =~= letters_of(layout));
    compress(&letters)
}

/// The key of text of the position that `info` describes: the run-length encoding of its
/// letters.
pub fn hashmap_string(info: &AllBoardInfo) -> (key: String)
    requires
        info_on_grid(*info),
    ensures
        key@ == run_lengths(letters_of(layout_of(*info))),
{
    let letters = hashmap_letters(info);
    string_of(&letters)
}

/// Whether two layouts show the same piece on every cell of the grid.
pub open spec fn same_pieces(one: Layout, other: Layout) -> bool {
    forall|at: Position| at.on_grid() ==> #[trigger] one.piece_at(at) == other.piece_at(at)
}

/// Whether `character` is a decimal digit.
pub open spec fn is_digit(character: char) -> bool {
    '0' <= character <= '9'
}

/// Whether no character of `text` is a decimal digit.
pub open spec fn no_digits(text: Seq<char>) -> bool {
    forall|i: int| 0 <= i < text.len() ==> !is_digit(#[trigger] text[i])
}

/// A decimal numeral has at least one character, and only digits.
pub proof fn lemma_decimal_is_digits(number: nat)
    ensures
        decimal(number).len() >= 1,
        number >= 10 ==> decimal(number).len() >= 2,
        forall|i: int| 0 <= i < decimal(number).len() ==> is_digit(#[trigger] decimal(number)[i]),
    decreases number,
{
    if number >= 10 {
        lemma_decimal_is_digits(number / 10);
    }
}

/// Different numbers have different decimal numerals.
pub proof fn lemma_decimal_tells_numbers_apart(one: nat, other: nat)
    requires
        decimal(one) == decimal(other),
    ensures
        one == other,
    decreases one,
{
    lemma_decimal_is_digits(one);
    lemma_decimal_is_digits(other);
    if one < 10 || other < 10 {
        assert(one < 10 && other < 10);
        assert(decimal(one) == seq![spec_digit_char(one as usize)]);
        assert(decimal(other) == seq![spec_digit_char(other as usize)]);
        assert(seq![spec_digit_char(one as usize)][0] == seq![spec_digit_char(other as usize)][0]);
        lemma_digit_chars_differ(one as usize, other as usize);
    } else {
        let shorter_one = decimal(one / 10);
        let shorter_other = decimal(other / 10);
        let last_one = spec_digit_char((one % 10) as usize);
        let last_other = spec_digit_char((other % 10) as usize);
        assert(shorter_one.push(last_one).drop_last() =~= shorter_one);
        assert(shorter_other.push(last_other).drop_last() =~= shorter_other);
        assert(shorter_one.push(last_one).last() == last_one);
        assert(shorter_other.push(last_other).last() == last_other);
        assert(shorter_one == shorter_other);
        assert(last_one == last_other);
        lemma_decimal_tells_numbers_apart(one / 10, other / 10);
        lemma_digit_chars_differ((one % 10) as usize, (other % 10) as usize);
        assert(one == 10 * (one / 10) + one % 10);
        assert(other == 10 * (other / 10) + other % 10);
    }
}

/// Different digits have different characters.
proof fn lemma_digit_chars_differ(one: usize, other: usize)
    requires
        one < 10,
        other < 10,
        spec_digit_char(one) == spec_digit_char(other),
    ensures
        one == other,
{
}

/// The items of the last run of a text all equal its last item.
pub proof fn lemma_last_run_is_constant(text: Seq<char>)
    requires
        text.len() > 0,
    ensures
        forall|i: int| text.len() - last_run(text) <= i < text.len() ==> text[i] == text.last(),
    decreases text.len(),
{
    lemma_last_run_bounds(text);
    if text.len() > 1 && text[text.len() - 2] == text[text.len() - 1] {
        let shorter = text.drop_last();
        lemma_last_run_is_constant(shorter);
        assert forall|i: int| text.len() - last_run(text) <= i < text.len() implies text[i]
            == text.last() by {
            if i < text.len() - 1 {
                assert(shorter[i] == shorter.last());
            }
        }
    }
}

/// Two texts without digits that have the same run-length encoding are the same text.
pub proof fn lemma_run_lengths_tell_texts_apart(one: Seq<char>, other: Seq<char>)
    requires
        no_digits(one),
        no_digits(other),
        run_lengths(one) == run_lengths(other),
    ensures
        one == other,
    decreases one.len(),
{
    if one.len() == 0 || other.len() == 0 {
        if one.len() > 0 {
            lemma_last_run_bounds(one);
            lemma_decimal_is_digits(last_run(one));
        }
        if other.len() > 0 {
            lemma_last_run_bounds(other);
            lemma_decimal_is_digits(last_run(other));
        }
        assert(one.len() == 0 && other.len() == 0);
        assert(one =~= other);
    } else {
        lemma_last_run_bounds(one);
        lemma_last_run_bounds(other);
        let run_one = last_run(one);
        let run_other = last_run(other);
        let head_one = one.take(one.len() - run_one);
        let head_other = other.take(other.len() - run_other);
        let digits_one = decimal(run_one);
        let digits_other = decimal(run_other);
        lemma_decimal_is_digits(run_one);
        lemma_decimal_is_digits(run_other);
        let code = run_lengths(one);
        let front_one = run_lengths(head_one) + seq![one.last()];
        let front_other = run_lengths(head_other) + seq![other.last()];
        assert(code == front_one + digits_one);
        assert(code == front_other + digits_other);
        assert(!is_digit(one.last()));
        assert(!is_digit(other.last()));
        if digits_one.len() < digits_other.len() {
            let at = code.len() - digits_one.len() - 1;
            assert(code[at] == (front_one + digits_one)[at]);
            assert(code[at] == one.last());
            assert(code[at] == (front_other + digits_other)[at]);
            assert(code[at] == digits_other[at - front_other.len()]);
            assert(false);
        }
        if digits_other.len() < digits_one.len() {
            let at = code.len() - digits_other.len() - 1;
            assert(code[at] == (front_other + digits_other)[at]);
            assert(code[at] == other.last());
            assert(code[at] == (front_one + digits_one)[at]);
            assert(code[at] == digits_one[at - front_one.len()]);
            assert(false);
        }
        assert(front_one.len() == front_other.len());
        assert(digits_one =~= code.skip(front_one.len() as int));
        assert(digits_other =~= code.skip(front_other.len() as int));
        assert(front_one =~= code.take(front_one.len() as int));
        assert(front_other =~= code.take(front_other.len() as int));
        lemma_decimal_tells_numbers_apart(run_one, run_other);
        assert(front_one.last() == one.last());
        assert(front_other.last() == other.last());
        assert(run_lengths(head_one) =~= front_one.drop_last());
        assert(run_lengths(head_other) =~= front_other.drop_last());
        assert(no_digits(head_one));
        assert(no_digits(head_other));
        lemma_run_lengths_tell_texts_apart(head_one, head_other);
        lemma_last_run_is_constant(one);
        lemma_last_run_is_constant(other);
        assert(one.len() == head_one.len() + run_one);
        assert(other.len() == head_other.len() + run_other);
        assert forall|i: int| 0 <= i < one.len() implies one[i] == other[i] by {
            if i < head_one.len() {
                assert(one[i] == head_one[i]);
                assert(other[i] == head_other[i]);
            }
        }
        assert(one =~= other);
    }
}

/// The key of bytes tells layouts apart: two layouts have the same key exactly when they
/// show the same pieces.
pub proof fn law_key_bytes_tell_layouts_apart(
    one: Layout,
    other: Layout,
    key_one: [u8; 121],
    key_other: [u8; 121],
)
    requires
        is_key_bytes(key_one, one),
        is_key_bytes(key_other, other),
    ensures
        key_one@ == key_other@ <==> same_pieces(one, other),
{
    if key_one@ == key_other@ {
        assert forall|at: Position| at.on_grid() implies #[trigger] one.piece_at(at)
            == other.piece_at(at) by {
            assert(key_one[11 * (at.y as int) + at.x as int] == one.piece_at(at).spec_code());
            assert(key_other[11 * (at.y as int) + at.x as int] == other.piece_at(at).spec_code());
        }
    }
    if same_pieces(one, other) {
        assert forall|i: int| 0 <= i < 121 implies key_one@[i] == key_other@[i] by {
            let at = Position { x: (i % 11) as i32, y: (i / 11) as i32 };
            assert(at.on_grid());
            assert(one.piece_at(at) == other.piece_at(at));
            assert(key_one[11 * (i / 11) + i % 11] == one.piece_at(at).spec_code());
            assert(key_other[11 * (i / 11) + i % 11] == other.piece_at(at).spec_code());
        }
        assert(key_one@ =~= key_other@);
    }
}

/// The key of text tells layouts apart: two layouts have the same key exactly when they
/// show the same pieces.
pub proof fn law_key_text_tells_layouts_apart(one: Layout, other: Layout)
    ensures
        run_lengths(letters_of(one)) == run_lengths(letters_of(other)) <==> same_pieces(
            one,
            other,
        ),
{
    let letters_one = letters_of(one);
    let letters_other = letters_of(other);
    if same_pieces(one, other) {
        assert forall|i: int| 0 <= i < 121 implies letters_one[i] == letters_other[i] by {
            let at = Position { x: (i % 11) as i32, y: (10 - i / 11) as i32 };
            assert(at.on_grid());
            assert(one.piece_at(at) == other.piece_at(at));
        }
        assert(letters_one =~= letters_other);
    }
    if run_lengths(letters_one) == run_lengths(letters_other) {
        assert(no_digits(letters_one));
        assert(no_digits(letters_other));
        lemma_run_lengths_tell_texts_apart(letters_one, letters_other);
        assert forall|at: Position| at.on_grid() implies #[trigger] one.piece_at(at)
            == other.piece_at(at) by {
            let i = (10 - at.y) * 11 + at.x;
            assert(0 <= i < 121);
            assert(i % 11 == at.x && i / 11 == 10 - at.y);
            assert(letters_one[i] == one.piece_at(at).spec_letter());
            assert(letters_other[i] == other.piece_at(at).spec_letter());
        }
    }
}

} // verus!

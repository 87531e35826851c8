//! The replay buffer: which generations of samples are held, under which names they are
//! stored, and which one goes when a new one comes.

use crate::layout::{decimal, push_decimal, spec_digit_char, string_of};
use crate::utils::newest;
use vstd::prelude::*;
use vstd::string::*;

verus! {

/// The value of a decimal digit.
pub open spec fn spec_digit_of(character: char) -> Option<usize> {
    if character == '0' {
        Some(0)
    } else if character == '1' {
        Some(1)
    } else if character == '2' {
        Some(2)
    } else if character == '3' {
        Some(3)
    } else if character == '4' {
        Some(4)
    } else if character == '5' {
        Some(5)
    } else if character == '6' {
        Some(6)
    } else if character == '7' {
        Some(7)
    } else if character == '8' {
        Some(8)
    } else if character == '9' {
        Some(9)
    } else {
        None
    }
}

#[verifier::when_used_as_spec(spec_digit_of)]
fn digit_of(character: char) -> (digit: Option<usize>)
    ensures
        digit == spec_digit_of(character),
        digit is Some ==> digit->0 < 10,
{
    if character == '0' {
        Some(0)
    } else if character == '1' {
        Some(1)
    } else if character == '2' {
        Some(2)
    } else if character == '3' {
        Some(3)
    } else if character == '4' {
        Some(4)
    } else if character == '5' {
        Some(5)
    } else if character == '6' {
        Some(6)
    } else if character == '7' {
        Some(7)
    } else if character == '8' {
        Some(8)
    } else if character == '9' {
        Some(9)
    } else {
        None
    }
}

/// Whether `text` is made of decimal digits, and of at least one.
pub open spec fn is_number(text: Seq<char>) -> bool {
    text.len() > 0 && forall|i: int| 0 <= i < text.len() ==> spec_digit_of(#[trigger] text[i]) is Some
}

/// The number that the decimal digits `text` write.
pub open spec fn number_of(text: Seq<char>) -> nat
    decreases text.len(),
{
    if text.len() == 0 {
        0
    } else {
        number_of(text.drop_last()) * 10 + match spec_digit_of(text.last()) {
            Some(digit) => digit as nat,
            None => 0,
        }
    }
}

/// The prefix of the names of the files that hold generations of samples.
pub open spec fn examples_prefix() -> Seq<char> {
    seq!['e', 'x', 'a', 'm', 'p', 'l', 'e', 's', '_']
}

/// Where the part of `name` that starts at `from` and runs up to the next underscore ends.
pub open spec fn field_end(name: Seq<char>, from: int) -> int
    decreases name.len() - from,
{
    if from < 0 || from >= name.len() || name[from] == '_' {
        from
    } else {
        field_end(name, from + 1)
    }
}

/// The digits of the index in a file name: what stands between the prefix and the next
/// underscore, without a leading plus sign.
pub open spec fn index_digits(name: Seq<char>) -> Seq<char> {
    let field = name.subrange(9, field_end(name, 9));
    if field.len() > 0 && field[0] == '+' {
        field.skip(1)
    } else {
        field
    }
}

/// The index of the generation that the file `name` holds: the number after the prefix
/// `examples_`, where the name has the prefix, the number is written in decimal digits,
/// and it fits the machine's numbers.
pub open spec fn spec_example_index(name: Seq<char>) -> Option<usize> {
    if name.len() >= 9 && name.take(9) == examples_prefix() && is_number(index_digits(name))
        && number_of(index_digits(name)) <= usize::MAX {
        Some(number_of(index_digits(name)) as usize)
    } else {
        None
    }
}

/// A number written with more digits is no smaller.
proof fn lemma_number_grows(text: Seq<char>, shorter: int)
    requires
        0 <= shorter <= text.len(),
    ensures
        number_of(text.take(shorter)) <= number_of(text),
    decreases text.len(),
{
    if shorter < text.len() {
        lemma_number_grows(text.drop_last(), shorter);
        assert(text.drop_last().take(shorter) =~= text.take(shorter));
        assert(number_of(text.drop_last()) <= number_of(text)) by (nonlinear_arith)
            requires
                number_of(text) >= number_of(text.drop_last()) * 10,
        ;
    } else {
        assert(text.take(shorter) =~= text);
    }
}

/// The index of the generation that a file of this name holds; nothing for the name of
/// another file.
pub fn example_index(file_name: &str) -> (index: Option<usize>)
    ensures
        index == spec_example_index(file_name@),
{
    let len = file_name.unicode_len();
    let prefix: [char; 9] = ['e', 'x', 'a', 'm', 'p', 'l', 'e', 's', '_'];
    if len < 9 {
        return None;
    }
    assert(prefix@ =~= examples_prefix());
    let mut i: usize = 0;
    while i < 9
        invariant
            i <= 9,
            len == file_name@.len(),
            len >= 9,
            prefix@ == examples_prefix(),
            forall|k: int| 0 <= k < i ==> file_name@[k] == examples_prefix()[k],
        decreases 9 - i,
    {
        if file_name.get_char(i) != prefix[i] {
            assert(prefix@[i as int] == examples_prefix()[i as int]);
            assert(file_name@.take(9)[i as int] != examples_prefix()[i as int]);
            return None;
        }
        i += 1;
    }
    assert(file_name@.take(9) =~= examples_prefix());
    let mut start: usize = 9;
    if start < len && file_name.get_char(start) == '+' {
        start = 10;
    }
    let ghost end = field_end(file_name@, 9);
    let ghost digits = index_digits(file_name@);
    proof {
        lemma_field_end_bounds(file_name@, 9);
        if 9 < len && file_name@[9] == '+' {
            assert(field_end(file_name@, 9) == field_end(file_name@, 10));
            lemma_field_end_bounds(file_name@, 10);
            assert(file_name@.subrange(9, end)[0] == '+');
        } else if 9 < len && file_name@[9] != '_' {
            assert(field_end(file_name@, 9) == field_end(file_name@, 10));
            lemma_field_end_bounds(file_name@, 10);
            assert(file_name@.subrange(9, end)[0] == file_name@[9]);
        }
        assert(digits =~= file_name@.subrange(start as int, end));
    }
    let mut value: usize = 0;
    let mut at: usize = start;
    while at < len && file_name.get_char(at) != '_'
        invariant
            start <= at <= len,
            len == file_name@.len(),
            10 >= start >= 9,
            end == field_end(file_name@, at as int),
            at <= end <= len,
            digits == file_name@.subrange(start as int, end),
            digits == index_digits(file_name@),
            forall|k: int| start <= k < at ==> spec_digit_of(#[trigger] file_name@[k]) is Some,
            value == number_of(file_name@.subrange(start as int, at as int)),
        decreases len - at,
    {
        let character = file_name.get_char(at);
        proof {
            assert(field_end(file_name@, at as int) == field_end(file_name@, at + 1));
            lemma_field_end_bounds(file_name@, at + 1);
        }
        let ghost seen = file_name@.subrange(start as int, at as int);
        let ghost next = file_name@.subrange(start as int, at + 1);
        proof {
            assert(next.drop_last() =~= seen);
            assert(next.last() == character);
            assert(digits[at - start] == character);
            lemma_number_grows(digits, at + 1 - start);
            assert(digits.take(at + 1 - start) =~= next);
        }
        match digit_of(character) {
            Some(digit) => {
                assert(number_of(next) == value * 10 + digit);
                if value > (usize::MAX - digit) / 10 {
                    assert(value * 10 + digit > usize::MAX);
                    return None;
                }
                value = value * 10 + digit;
            },
            None => {
                assert(spec_digit_of(digits[at - start]) is None);
                return None;
            },
        }
        at += 1;
    }
    proof {
        assert(at == end);
        assert(file_name@.subrange(start as int, at as int) =~= digits);
    }
    if at == start {
        return None;
    }
    proof {
        assert forall|k: int| 0 <= k < digits.len() implies spec_digit_of(
            #[trigger] digits[k],
        ) is Some by {
            assert(digits[k] == file_name@[start + k]);
        }
    }
    Some(value)
}

/// The end of a field lies between its start and the end of the name.
proof fn lemma_field_end_bounds(name: Seq<char>, from: int)
    requires
        0 <= from <= name.len(),
    ensures
        from <= field_end(name, from) <= name.len(),
        field_end(name, from) < name.len() ==> name[field_end(name, from)] == '_',
        forall|k: int| from <= k < field_end(name, from) ==> name[k] != '_',
    decreases name.len() - from,
{
    if from < name.len() && name[from] != '_' {
        lemma_field_end_bounds(name, from + 1);
    }
}

/// The name of the file that holds the generation with this index: the prefix and the
/// index in decimal digits.
pub fn example_file_name(index: usize) -> (name: String)
    ensures
        name@ == examples_prefix() + decimal(index as nat),
{
    let mut characters: Vec<char> = Vec::new();
    characters.push('e');
    characters.push('x');
    characters.push('a');
    characters.push('m');
    characters.push('p');
    characters.push('l');
    characters.push('e');
    characters.push('s');
    characters.push('_');
    assert(characters@ =~= examples_prefix());
    push_decimal(&mut characters, index);
    string_of(&characters)
}

/// The digits of a decimal numeral write its number.
proof fn lemma_decimal_writes_its_number(number: nat)
    ensures
        is_number(decimal(number)),
        number_of(decimal(number)) == number,
        forall|i: int|
            0 <= i < decimal(number).len() ==> (#[trigger] decimal(number)[i]) != '_' && decimal(
                number,
            )[i] != '+',
    decreases number,
{
    let digits = decimal(number);
    if number < 10 {
        assert(digits =~= seq![spec_digit_char(number as usize)]);
        assert(digits.drop_last() =~= Seq::<char>::empty());
        assert(number_of(digits.drop_last()) == 0);
        assert(spec_digit_of(digits.last()) == Some(number as usize));
    } else {
        let front = decimal(number / 10);
        let last = spec_digit_char((number % 10) as usize);
        lemma_decimal_writes_its_number(number / 10);
        assert(digits =~= front.push(last));
        assert(digits.drop_last() =~= front);
        assert(spec_digit_of(last) == Some((number % 10) as usize));
        assert forall|i: int| 0 <= i < digits.len() implies spec_digit_of(
            #[trigger] digits[i],
        ) is Some && digits[i] != '_' && digits[i] != '+' by {
            if i < front.len() {
                assert(digits[i] == front[i]);
            }
        }
    }
}

/// The end of a field that holds no underscore is the end of the name.
proof fn lemma_field_runs_to_the_end(name: Seq<char>, from: int)
    requires
        0 <= from <= name.len(),
        forall|k: int| from <= k < name.len() ==> name[k] != '_',
    ensures
        field_end(name, from) == name.len(),
    decreases name.len() - from,
{
    if from < name.len() {
        lemma_field_runs_to_the_end(name, from + 1);
    }
}

/// The name that a generation is stored under gives back its index.
pub proof fn law_file_names_give_their_index(index: usize)
    ensures
        spec_example_index(examples_prefix() + decimal(index as nat)) == Some(index),
{
    let digits = decimal(index as nat);
    let name = examples_prefix() + digits;
    lemma_decimal_writes_its_number(index as nat);
    assert(name.take(9) =~= examples_prefix());
    assert forall|k: int| 9 <= k < name.len() implies name[k] != '_' by {
        assert(name[k] == digits[k - 9]);
    }
    lemma_field_runs_to_the_end(name, 9);
    assert(name.subrange(9, name.len() as int) =~= digits);
    assert(digits[0] != '+');
    assert(index_digits(name) == digits);
}

/// Whether `numbers` ascends.
pub open spec fn ascends(numbers: Seq<usize>) -> bool {
    forall|i: int, j: int| 0 <= i < j < numbers.len() ==> numbers[i] <= numbers[j]
}

/// The numbers in ascending order, each as often as it is given.
fn sorted_indexes(indexes: &Vec<usize>) -> (sorted: Vec<usize>)
    ensures
        sorted@.to_multiset() == indexes@.to_multiset(),
        ascends(sorted@),
{
    let mut sorted: Vec<usize> = Vec::new();
    let mut taken: usize = 0;
    assert(indexes@.take(0) =~= Seq::<usize>::empty());
    while taken < indexes.len()
        invariant
            taken <= indexes@.len(),
            sorted@.len() == taken,
            sorted@.to_multiset() == indexes@.take(taken as int).to_multiset(),
            ascends(sorted@),
        decreases indexes@.len() - taken,
    {
        let index = indexes[taken];
        let mut at: usize = 0;
        while at < sorted.len() && sorted[at] <= index
            invariant
                at <= sorted@.len(),
                forall|k: int| 0 <= k < at ==> sorted@[k] <= index,
            decreases sorted@.len() - at,
        {
            at += 1;
        }
        let ghost before = sorted@;
        sorted.insert(at, index);
        proof {
            vstd::seq_lib::to_multiset_insert(before, at as int, index);
            vstd::seq_lib::to_multiset_build(indexes@.take(taken as int), index);
            assert(indexes@.take(taken + 1) =~= indexes@.take(taken as int).push(index));
            assert forall|i: int, j: int| 0 <= i < j < sorted@.len() implies sorted@[i]
                <= sorted@[j] by {
                if j < at {
                    assert(sorted@[i] == before[i] && sorted@[j] == before[j]);
                } else if j == at {
                    assert(sorted@[i] == before[i]);
                } else if i < at {
                    assert(sorted@[i] == before[i] && sorted@[j] == before[j - 1]);
                } else if i == at {
                    assert(sorted@[j] == before[j - 1]);
                    assert(before[at as int] <= before[j - 1] || j - 1 == at);
                } else {
                    assert(sorted@[i] == before[i - 1] && sorted@[j] == before[j - 1]);
                }
            }
        }
        taken += 1;
    }
    assert(indexes@.take(indexes@.len() as int) =~= indexes@);
    sorted
}

/// The generations of samples that training draws on: the newest ones, up to a fixed
/// number of them, each under the index it is stored by. The handler keeps the books; the
/// files are read, written and removed by the caller.
pub struct ExamplesHandler<S> {
    max_examples: usize,
    current_index: Option<usize>,
    base_indexes: Vec<usize>,
    loaded_indexes: Vec<usize>,
    examples: Vec<Vec<S>>,
}

/// What the caller has to do after a generation was added: write the new generation under
/// `index`, and remove the generation stored under `removed`, if there is one.
#[derive(Clone, Copy, Debug, PartialEq, Eq, Structural)]
pub struct Saved {
    pub index: usize,
    pub removed: Option<usize>,
}

impl<S> ExamplesHandler<S> {
    /// The greatest number of generations held.
    pub closed spec fn max_examples(&self) -> usize {
        self.max_examples
    }

    /// The index of the newest generation ever stored.
    pub closed spec fn current_index(&self) -> Option<usize> {
        self.current_index
    }

    /// The indices of all generations stored.
    pub closed spec fn base_indexes(&self) -> Seq<usize> {
        self.base_indexes@
    }

    /// The indices of the generations held, the oldest first.
    pub closed spec fn loaded_indexes(&self) -> Seq<usize> {
        self.loaded_indexes@
    }

    /// The generations held, the oldest first.
    pub closed spec fn spec_examples(&self) -> Seq<Vec<S>> {
        self.examples@
    }

    /// What holds of the handler between any two calls: each generation held has its
    /// index, and no more generations are held than the bound allows.
    pub open spec fn wf(&self) -> bool {
        &&& self.loaded_indexes().len() == self.spec_examples().len()
        &&& self.spec_examples().len() <= self.max_examples()
    }

    /// A handler for the generations stored under `indexes`, none of them held yet.
    pub fn new(indexes: Vec<usize>, max_examples: usize) -> (handler: ExamplesHandler<S>)
        ensures
            handler.wf(),
            handler.max_examples() == max_examples,
            handler.base_indexes().to_multiset() == indexes@.to_multiset(),
            ascends(handler.base_indexes()),
            handler.current_index() == if indexes@.len() == 0 {
                None
            } else {
                Some(handler.base_indexes().last())
            },
            handler.loaded_indexes().len() == 0,
            handler.spec_examples().len() == 0,
    {
        let ghost given = indexes@;
        let indexes = sorted_indexes(&indexes);
        proof {
            given.to_multiset_ensures();
            indexes@.to_multiset_ensures();
        }
        let current_index = if indexes.len() == 0 {
            None
        } else {
            Some(indexes[indexes.len() - 1])
        };
        ExamplesHandler {
            max_examples,
            current_index,
            base_indexes: indexes,
            examples: Vec::new(),
            loaded_indexes: Vec::new(),
        }
    }

    /// The generations held, the oldest first.
    pub fn examples(&self) -> (held: &Vec<Vec<S>>)
        ensures
            held@ == self.spec_examples(),
    {
        &self.examples
    }

    /// The indices of the generations to read from storage: the newest ones, as many as the
    /// bound allows, the oldest of them first.
    pub fn indexes_to_load(&self) -> (to_load: Vec<usize>)
        ensures
            to_load@ == newest(self.base_indexes(), self.max_examples() as nat),
    {
        let len = self.base_indexes.len();
        let skipped = if len > self.max_examples {
            len - self.max_examples
        } else {
            0
        };
        let mut to_load: Vec<usize> = Vec::new();
        let mut i: usize = skipped;
        while i < len
            invariant
                skipped <= i <= len,
                len == self.base_indexes@.len(),
                to_load@ == self.base_indexes@.subrange(skipped as int, i as int),
            decreases len - i,
        {
            to_load.push(self.base_indexes[i]);
            assert(self.base_indexes@.subrange(skipped as int, i + 1)
                =~= self.base_indexes@.subrange(skipped as int, i as int).push(
                self.base_indexes@[i as int],
            ));
            i += 1;
        }
        assert(self.base_indexes@.subrange(skipped as int, len as int) =~= self.base_indexes@.skip(
            skipped as int,
        ));
        assert(self.base_indexes@.skip(0) =~= self.base_indexes@);
        to_load
    }

    /// Takes the generations that were read from storage for `indexes_to_load`, in its
    /// order, in place of those held; says whether it did. Nothing changes where their
    /// number is not that of `indexes_to_load`.
    pub fn load_examples(&mut self, generations: Vec<Vec<S>>) -> (loaded: bool)
        requires
            old(self).wf(),
        ensures
            final(self).wf(),
            final(self).max_examples() == old(self).max_examples(),
            final(self).base_indexes() == old(self).base_indexes(),
            final(self).current_index() == old(self).current_index(),
            loaded == (generations@.len() == newest(
                old(self).base_indexes(),
                old(self).max_examples() as nat,
            ).len()),
            loaded ==> {
                &&& final(self).spec_examples() == generations@
                &&& final(self).loaded_indexes() == newest(
                    old(self).base_indexes(),
                    old(self).max_examples() as nat,
                )
            },
            !loaded ==> {
                &&& final(self).spec_examples() == old(self).spec_examples()
                &&& final(self).loaded_indexes() == old(self).loaded_indexes()
            },
    {
        let to_load_indexes = self.indexes_to_load();
        if generations.len() != to_load_indexes.len() {
            return false;
        }
        self.loaded_indexes = to_load_indexes;
        self.examples = generations;
        true
    }

    /// Adds a generation as the newest one, under the index after the newest index ever
    /// stored, or 0 for the first. Where more generations are then held than the bound
    /// allows, the oldest one is dropped. Nothing is done, and nothing comes back, where
    /// the index would not fit the machine's numbers.
    pub fn save_example(&mut self, example: Vec<S>) -> (saved: Option<Saved>)
        requires
            old(self).wf(),
        ensures
            final(self).wf(),
            final(self).max_examples() == old(self).max_examples(),
            saved is None <==> old(self).current_index() == Some(usize::MAX),
            saved is None ==> {
                &&& final(self).spec_examples() == old(self).spec_examples()
                &&& final(self).loaded_indexes() == old(self).loaded_indexes()
                &&& final(self).base_indexes() == old(self).base_indexes()
                &&& final(self).current_index() == old(self).current_index()
            },
            saved is Some ==> {
                let index = saved->0.index;
                let held = old(self).spec_examples().len();
                let bound = old(self).max_examples() as nat;
                &&& index == match old(self).current_index() {
                    Some(current) => current + 1,
                    None => 0,
                }
                &&& final(self).current_index() == Some(index)
                &&& final(self).base_indexes() == old(self).base_indexes().push(index)
                &&& final(self).spec_examples() == newest(
                    old(self).spec_examples().push(example),
                    old(self).max_examples() as nat,
                )
                &&& final(self).loaded_indexes() == newest(
                    old(self).loaded_indexes().push(index),
                    old(self).max_examples() as nat,
                )
                &&& saved->0.removed == if held == bound {
                    Some(old(self).loaded_indexes().push(index)[0])
                } else {
                    None
                }
                &&& final(self).spec_examples().len() == if held < bound {
                    held + 1
                } else {
                    bound
                }
                &&& final(self).loaded_indexes().len() == final(self).spec_examples().len()
                &&& bound > 0 ==> final(self).spec_examples().last() == example
                &&& bound > 0 ==> final(self).loaded_indexes().last() == index
                &&& held < bound ==> {
                    &&& saved->0.removed is None
                    &&& final(self).spec_examples() == old(self).spec_examples().push(example)
                    &&& final(self).loaded_indexes() == old(self).loaded_indexes().push(index)
                }
                &&& held == bound && bound > 0 ==> {
                    &&& saved->0.removed == Some(old(self).loaded_indexes()[0])
                    &&& final(self).spec_examples() == old(self).spec_examples().skip(1).push(
                        example,
                    )
                    &&& final(self).loaded_indexes() == old(self).loaded_indexes().skip(1).push(
                        index,
                    )
                }
            },
    {
        let new_index = match self.current_index {
            Some(index) => {
                if index == usize::MAX {
                    return None;
                }
                index + 1
            },
            None => 0,
        };
        let ghost held = self.examples@;
        let ghost indexes = self.loaded_indexes@;
        self.examples.push(example);
        self.current_index = Some(new_index);
        self.base_indexes.push(new_index);
        self.loaded_indexes.push(new_index);
        let mut removed = None;
        if self.loaded_indexes.len() > self.max_examples {
            removed = Some(self.loaded_indexes[0]);
            self.examples.remove(0);
            self.loaded_indexes.remove(0);
            proof {
                assert(self.examples@ =~= held.push(example).skip(1));
                assert(self.loaded_indexes@ =~= indexes.push(new_index).skip(1));
            }
        }
        Some(Saved { index: new_index, removed })
    }
}

/// The replay buffer keeps its bound, and gives up its oldest generation first: after a
/// generation was added, no more generations are held than the bound allows, they are the
/// newest ones, and what was dropped is the one that was held longest.
pub proof fn law_replay_buffer_keeps_its_bound<S>(
    held: Seq<Vec<S>>,
    added: Vec<S>,
    bound: nat,
)
    requires
        held.len() <= bound,
    ensures
        newest(held.push(added), bound).len() <= bound,
        bound > 0 ==> newest(held.push(added), bound).last() == added,
        held.len() < bound ==> newest(held.push(added), bound) == held.push(added),
        held.len() == bound ==> newest(held.push(added), bound) == held.push(added).skip(1),
{
}

} // verus!

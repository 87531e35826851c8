//! Self-play: the episode that records positions and values them once the game is over,
//! the samples of a round, and the rule by which a newly trained evaluator is accepted.

use crate::canonical_board::{is_augmented, outcome_for, CanonicalBoard, Outcome, Recorded};
use crate::game::{snake_healths, spec_player_to_snake, Board, Move};
use crate::layout::{decimal, is_key_bytes, push_decimal, string_of, Cell, Layout};
use vstd::prelude::*;

verus! {

/// A training example: the grid seen by the mover, the distribution the search gave for
/// it, and how the game ended for the mover.
pub type Sample<T> = ([[Cell; 11]; 11], [T; 4], Outcome);

/// How a game that ended with `value` for `final_player` ended for `player`.
pub open spec fn spec_value_for(value: Outcome, final_player: i32, player: i32) -> Outcome {
    if final_player != player {
        value.spec_negated()
    } else {
        value
    }
}

#[verifier::when_used_as_spec(spec_value_for)]
pub fn value_for(value: Outcome, final_player: i32, player: i32) -> (seen: Outcome)
    ensures
        seen == spec_value_for(value, final_player, player),
{
    if final_player != player {
        value.negated()
    } else {
        value
    }
}

/// In a game of two snakes a sample is valued by its own mover's result: it is a win
/// exactly when its mover wins the game, a loss exactly when the other side wins, and a
/// draw, seen from one side or the other, exactly when nobody wins.
pub proof fn law_samples_are_valued_for_their_mover(
    healths: Seq<u8>,
    threshold: u8,
    final_player: i32,
    player: i32,
)
    requires
        final_player == 1 || final_player == -1,
        player == 1 || player == -1,
        healths[2] == 0,
        healths[3] == 0,
    ensures
        ({
            let value = outcome_for(healths, threshold, final_player);
            let assigned = spec_value_for(value, final_player, player);
            let own = outcome_for(healths, threshold, player);
            &&& assigned == Outcome::Win <==> own == Outcome::Win
            &&& assigned == Outcome::Loss <==> own == Outcome::Loss
            &&& (assigned == Outcome::Draw || assigned == Outcome::DrawAgainst) <==> own
                == Outcome::Draw
            &&& assigned == Outcome::Ongoing <==> own == Outcome::Ongoing
        }),
{
    reveal_with_fuel(crate::game::first_alive, 5);
    reveal_with_fuel(crate::game::alive_below, 5);
    let value = outcome_for(healths, threshold, final_player);
    let own = outcome_for(healths, threshold, player);
    if final_player != player && (value == Outcome::Win || value == Outcome::Loss) {
        let first_out = healths[0] < threshold;
        let second_out = healths[1] < threshold;
        let winner = if crate::game::game_over(healths) {
            crate::game::winner_of(healths)
        } else if first_out && second_out {
            None
        } else if first_out {
            Some(crate::game::SnakeId(1))
        } else {
            Some(crate::game::SnakeId(0))
        };
        assert(winner is Some);
        assert(spec_player_to_snake(final_player) != spec_player_to_snake(player));
    }
}

/// Whether two keys hold the same bytes.
fn same_key(one: &[u8; 121], other: &[u8; 121]) -> (same: bool)
    ensures
        same == (one@ == other@),
{
    let mut i: usize = 0;
    while i < 121
        invariant
            i <= 121,
            forall|k: int| 0 <= k < i ==> one[k] == other[k],
        decreases 121 - i,
    {
        if one[i] != other[i] {
            assert(one@[i as int] != other@[i as int]);
            return false;
        }
        i += 1;
    }
    assert(one@ =~= other@);
    true
}

/// Whether an entry is filed under `key`.
pub open spec fn filed<V>(entries: Seq<([u8; 121], V)>, key: Seq<u8>) -> bool {
    exists|i: int| 0 <= i < entries.len() && (#[trigger] entries[i]).0@ == key
}

/// Whether no two entries have the same key.
pub open spec fn keys_differ<V>(entries: Seq<([u8; 121], V)>) -> bool {
    forall|i: int, j: int|
        0 <= i < j < entries.len() ==> (#[trigger] entries[i]).0@ != (#[trigger] entries[j]).0@
}

/// Whether an entry is filed under `key`.
fn is_filed<V>(entries: &Vec<([u8; 121], V)>, key: &[u8; 121]) -> (found: bool)
    ensures
        found == filed(entries@, key@),
{
    let mut i: usize = 0;
    while i < entries.len()
        invariant
            i <= entries@.len(),
            forall|k: int| 0 <= k < i ==> (#[trigger] entries@[k]).0@ != key@,
        decreases entries@.len() - i,
    {
        if same_key(&entries[i].0, key) {
            return true;
        }
        i += 1;
    }
    false
}

/// Whether `entry` records the position with the layout `layout` for the mover `player`:
/// its key is the key of the layout, and it holds the eight symmetric variants of the
/// layout, each with the distribution `pi` turned the same way and with the mover.
pub open spec fn records_of<T>(
    entry: ([u8; 121], Vec<Recorded<T>>),
    layout: Layout,
    pi: [T; 4],
    player: i32,
) -> bool {
    &&& player == 1 || player == -1
    &&& is_key_bytes(entry.0, layout)
    &&& is_augmented(layout, pi, player, entry.1@)
}

/// Whether `entry` records a position: some layout for some mover, with the eight
/// variants of one distribution.
pub open spec fn is_recording<T>(entry: ([u8; 121], Vec<Recorded<T>>)) -> bool {
    exists|layout: Layout, pi: [T; 4], player: i32| #[trigger]
        records_of(entry, layout, pi, player)
}

/// Whether a key of the layout is filed among `entries`.
pub open spec fn layout_filed<V>(entries: Seq<([u8; 121], V)>, layout: Layout) -> bool {
    exists|key: [u8; 121]| #[trigger] is_key_bytes(key, layout) && filed(entries, key@)
}

/// Whether `samples` are eight samples of one value.
pub open spec fn eight_of_one_value<T>(samples: Seq<Sample<T>>) -> bool {
    &&& samples.len() == 8
    &&& forall|k: int| 0 <= k < 8 ==> (#[trigger] samples[k]).2 == samples[0].2
}

/// One game of self-play: the game, and the positions recorded from it, each under the
/// key of its layout. A layout is recorded once, the first time it is reached.
pub struct Coach<T> {
    train_examples: Vec<([u8; 121], Vec<Recorded<T>>)>,
    canonical_board: CanonicalBoard,
    current_player: i32,
    episode_step: i32,
    result: Outcome,
}

impl<T: Copy> Coach<T> {
    /// The positions recorded so far, in the order in which they were reached.
    pub closed spec fn examples(&self) -> Seq<([u8; 121], Vec<Recorded<T>>)> {
        self.train_examples@
    }

    /// The state of the game.
    pub closed spec fn board(&self) -> CanonicalBoard {
        self.canonical_board
    }

    /// The player to move.
    pub closed spec fn spec_current_player(&self) -> i32 {
        self.current_player
    }

    /// The number of moves played.
    pub closed spec fn spec_episode_step(&self) -> i32 {
        self.episode_step
    }

    /// How the game stands for the player to move.
    pub closed spec fn spec_result(&self) -> Outcome {
        self.result
    }

    /// What holds of an episode between any two calls: the player to move is the side to
    /// move of the state, the result is that of the state for this player, every layout
    /// is recorded once, every entry records a position, the number of moves is not
    /// negative, and no more positions are recorded than states were reached: one more
    /// than moves were played, the state now reached counted only once it is recorded.
    pub open spec fn wf(&self) -> bool {
        &&& self.board().wf()
        &&& self.spec_current_player() == self.board().spec_current_player()
        &&& self.spec_result() == outcome_for(
            snake_healths(self.board().board),
            self.board().min_health_threshold,
            self.spec_current_player(),
        )
        &&& keys_differ(self.examples())
        &&& forall|i: int|
            0 <= i < self.examples().len() ==> is_recording(#[trigger] self.examples()[i])
        &&& self.spec_episode_step() >= 0
        &&& self.examples().len() <= self.spec_episode_step() + 1
        &&& !layout_filed(self.examples(), self.board().layout()) ==> self.examples().len()
            <= self.spec_episode_step()
    }

    /// An episode that starts from `board` with player 1 to move.
    pub fn new(board: Board, min_health_threshold: u8) -> (episode: Coach<T>)
        ensures
            episode.wf(),
            episode.examples().len() == 0,
            episode.spec_episode_step() == 0,
            episode.board() == (CanonicalBoard {
                board,
                first_player: 1,
                prev_action: None,
                min_health_threshold,
            }),
    {
        let current_player: i32 = 1;
        let canonical_board = board.as_canonical(current_player, min_health_threshold);
        let result = canonical_board.get_game_ended(current_player);
        Coach {
            train_examples: Vec::new(),
            canonical_board,
            current_player,
            episode_step: 0,
            result,
        }
    }

    #[verifier::when_used_as_spec(spec_current_player)]
    pub fn current_player(&self) -> (player: i32)
        ensures
            player == self.spec_current_player(),
    {
        self.current_player
    }

    #[verifier::when_used_as_spec(spec_result)]
    pub fn result(&self) -> (outcome: Outcome)
        ensures
            outcome == self.spec_result(),
    {
        self.result
    }

    /// The state the next move is searched for.
    pub fn state(&self) -> (state: CanonicalBoard)
        ensures
            state == self.board(),
    {
        self.canonical_board
    }

    /// Whether the search for the next move explores: it does while the number of the
    /// move, counted from one, is below `temp_threshold`.
    pub fn explores(&self, temp_threshold: i32) -> (exploring: bool)
        requires
            self.wf(),
        ensures
            exploring == (self.spec_episode_step() + 1 < temp_threshold),
    {
        self.episode_step < i32::MAX && self.episode_step + 1 < temp_threshold
    }

    /// What recording does: where the layout of the state is new, its eight symmetric
    /// variants with the distribution `pi` turned the same way are filed under its key;
    /// where it was recorded before, nothing changes.
    pub open spec fn records(&self, earlier: Coach<T>, pi: [T; 4]) -> bool {
        let layout = earlier.board().layout();
        &&& self.board() == earlier.board()
        &&& self.spec_current_player() == earlier.spec_current_player()
        &&& self.spec_episode_step() == earlier.spec_episode_step()
        &&& self.spec_result() == earlier.spec_result()
        &&& if layout_filed(earlier.examples(), layout) {
            self.examples() == earlier.examples()
        } else {
            &&& self.examples().len() == earlier.examples().len() + 1
            &&& self.examples().drop_last() == earlier.examples()
            &&& records_of(self.examples().last(), layout, pi, earlier.spec_current_player())
        }
    }

    /// Records the state with the distribution `pi` that the search gave for it.
    pub fn record(&mut self, pi: &[T; 4])
        requires
            old(self).wf(),
        ensures
            final(self).wf(),
            final(self).records(*old(self), *pi),
    {
        let canonical_board_hash = self.canonical_board.to_hashmap_bytes();
        let ghost layout = self.canonical_board.layout();
        let ghost earlier = self.train_examples@;
        if !is_filed(&self.train_examples, &canonical_board_hash) {
            let symmetries = self.canonical_board.get_mirroring_and_rotation(pi);
            self.train_examples.push((canonical_board_hash, symmetries));
            proof {
                assert(self.train_examples@.drop_last() =~= earlier);
                assert forall|key: [u8; 121]| #[trigger]
                    is_key_bytes(key, layout) implies !filed(earlier, key@) by {
                    lemma_one_key_per_layout(layout, key, canonical_board_hash);
                }
                let added = self.train_examples@.last();
                assert(records_of(added, layout, *pi, self.current_player));
                assert forall|i: int| 0 <= i < self.train_examples@.len() implies is_recording(
                    #[trigger] self.train_examples@[i],
                ) by {
                    if i < earlier.len() {
                        assert(self.train_examples@[i] == earlier[i]);
                    }
                }
                assert(self.train_examples@[earlier.len() as int].0@ == canonical_board_hash@);
                assert(filed(self.train_examples@, canonical_board_hash@));
                assert(layout_filed(self.train_examples@, layout));
            }
        }
    }

    /// Plays the move with index `action` and says how the game then stands for the side
    /// to move. Nothing is played, and nothing comes back, once the game has ended, where
    /// `action` names no move, where a ply would have to be resolved on a board that has
    /// lost one of its two snakes, and once as many moves were played as the machine
    /// counts.
    pub fn play(&mut self, action: usize) -> (outcome: Option<Outcome>)
        requires
            old(self).wf(),
        ensures
            final(self).wf(),
            final(self).examples() == old(self).examples(),
            outcome is Some <==> action < 4 && !old(self).spec_result().spec_is_over() && (old(
                self
            ).board().prev_action is Some ==> old(self).board().spec_can_resolve()) && old(
                self
            ).spec_episode_step() < i32::MAX,
            outcome is None ==> {
                &&& final(self).board() == old(self).board()
                &&& final(self).spec_episode_step() == old(self).spec_episode_step()
            },
            outcome is Some ==> {
                &&& old(self).board().plays_to(Move::spec_from_index(action), final(self).board())
                &&& outcome->0 == final(self).spec_result()
                &&& final(self).spec_episode_step() == old(self).spec_episode_step() + 1
            },
    {
        if self.result.is_over() || self.episode_step == i32::MAX {
            return None;
        }
        let (next_board, next_player) = match self.canonical_board.try_next_state(action) {
            Some(next) => next,
            None => {
                return None;
            },
        };
        self.episode_step += 1;
        self.canonical_board = next_board;
        self.current_player = next_player;
        self.result = self.canonical_board.get_game_ended(self.current_player);
        Some(self.result)
    }

    /// Ends the episode: every recorded position becomes a sample, valued by how the game
    /// stands for the mover it was recorded for.
    pub fn execute_episode(self) -> (samples: Vec<([u8; 121], Vec<Sample<T>>)>)
        requires
            self.wf(),
        ensures
            keys_differ(samples@),
            samples@.len() == self.examples().len(),
            samples@.len() <= self.spec_episode_step() + 1,
            forall|i: int|
                0 <= i < samples@.len() ==> {
                    &&& (#[trigger] samples@[i]).0 == self.examples()[i].0
                    &&& are_valued(
                        self.examples()[i].1@,
                        self.spec_result(),
                        self.spec_current_player(),
                        samples@[i].1@,
                    )
                },
            forall|i: int|
                0 <= i < samples@.len() ==> eight_of_one_value((#[trigger] samples@[i]).1@),
    {
        let value = self.result;
        let current_player = self.current_player;
        let ghost recorded = self.train_examples@;
        let mut samples: Vec<([u8; 121], Vec<Sample<T>>)> = Vec::new();
        let mut i: usize = 0;
        while i < self.train_examples.len()
            invariant
                i <= recorded.len(),
                recorded == self.train_examples@,
                samples@.len() == i,
                forall|k: int| 0 <= k < recorded.len() ==> is_recording(#[trigger] recorded[k]),
                forall|k: int|
                    0 <= k < i ==> {
                        &&& (#[trigger] samples@[k]).0 == recorded[k].0
                        &&& are_valued(recorded[k].1@, value, current_player, samples@[k].1@)
                    },
                forall|k: int| 0 <= k < i ==> eight_of_one_value((#[trigger] samples@[k]).1@),
            decreases recorded.len() - i,
        {
            let data = &self.train_examples[i].1;
            let mut valued: Vec<Sample<T>> = Vec::new();
            let mut j: usize = 0;
            while j < data.len()
                invariant
                    j <= data@.len(),
                    valued@.len() == j,
                    forall|k: int|
                        0 <= k < j ==> {
                            &&& (#[trigger] valued@[k]).0 == data@[k].0
                            &&& valued@[k].1 == data@[k].1
                            &&& valued@[k].2 == spec_value_for(value, current_player, data@[k].2)
                        },
                decreases data@.len() - j,
            {
                let (board, pi, player) = data[j];
                valued.push((board, pi, value_for(value, current_player, player)));
                j += 1;
            }
            proof {
                lemma_recording_has_one_value(
                    self.train_examples@[i as int],
                    value,
                    current_player,
                    valued@,
                );
            }
            samples.push((self.train_examples[i].0, valued));
            i += 1;
        }
        samples
    }
}

/// The name of the file that keeps the evaluator of a round: `checkpoint_`, the number of
/// the round in decimal digits, with a minus sign before them where it is negative, and
/// `.pth.tar`.
pub open spec fn checkpoint_name(iteration: int) -> Seq<char> {
    let number = if iteration < 0 {
        seq!['-'] + decimal((-iteration) as nat)
    } else {
        decimal(iteration as nat)
    };
    seq!['c', 'h', 'e', 'c', 'k', 'p', 'o', 'i', 'n', 't', '_'] + number + seq![
        '.',
        'p',
        't',
        'h',
        '.',
        't',
        'a',
        'r',
    ]
}

/// The name of the file that keeps the evaluator accepted in round `iteration`.
pub fn get_checkpoint_file(iteration: i32) -> (name: String)
    ensures
        name@ == checkpoint_name(iteration as int),
{
    let mut characters: Vec<char> = Vec::new();
    characters.push('c');
    characters.push('h');
    characters.push('e');
    characters.push('c');
    characters.push('k');
    characters.push('p');
    characters.push('o');
    characters.push('i');
    characters.push('n');
    characters.push('t');
    characters.push('_');
    if iteration < 0 {
        characters.push('-');
        push_decimal(&mut characters, (-(iteration as i64)) as usize);
    } else {
        push_decimal(&mut characters, iteration as usize);
    }
    characters.push('.');
    characters.push('p');
    characters.push('t');
    characters.push('h');
    characters.push('.');
    characters.push('t');
    characters.push('a');
    characters.push('r');
    assert(characters@ =~= checkpoint_name(iteration as int));
    string_of(&characters)
}

/// Whether `samples` holds the recorded positions `recorded`, each valued by how a game
/// that ended with `value` for `final_player` ended for its mover.
pub open spec fn are_valued<T>(
    recorded: Seq<Recorded<T>>,
    value: Outcome,
    final_player: i32,
    samples: Seq<Sample<T>>,
) -> bool {
    &&& samples.len() == recorded.len()
    &&& forall|k: int|
        0 <= k < samples.len() ==> {
            &&& (#[trigger] samples[k]).0 == recorded[k].0
            &&& samples[k].1 == recorded[k].1
            &&& samples[k].2 == spec_value_for(value, final_player, recorded[k].2)
        }
}

/// The samples of a recording are eight, and all have one value.
pub proof fn lemma_recording_has_one_value<T>(
    entry: ([u8; 121], Vec<Recorded<T>>),
    value: Outcome,
    final_player: i32,
    samples: Seq<Sample<T>>,
)
    requires
        is_recording(entry),
        are_valued(entry.1@, value, final_player, samples),
    ensures
        eight_of_one_value(samples),
{
    let (layout, pi, player) = choose|layout: Layout, pi: [T; 4], player: i32| #[trigger]
        records_of(entry, layout, pi, player);
    assert forall|k: int| 0 <= k < 8 implies (#[trigger] samples[k]).2 == samples[0].2 by {
        assert(entry.1@[k].2 == player);
        assert(entry.1@[0].2 == player);
    }
}

/// A layout has one key of bytes.
pub proof fn lemma_one_key_per_layout(layout: Layout, one: [u8; 121], other: [u8; 121])
    requires
        is_key_bytes(one, layout),
        is_key_bytes(other, layout),
    ensures
        one@ == other@,
{
    crate::layout::law_key_bytes_tell_layouts_apart(layout, layout, one, other);
}

/// The entries of `all` followed by those entries of `episode`, in their order, whose key
/// was not filed before them: of two entries with the same key the first stays.
pub open spec fn merged_entries<V>(all: Seq<([u8; 121], V)>, episode: Seq<([u8; 121], V)>) -> Seq<
    ([u8; 121], V),
>
    decreases episode.len(),
{
    if episode.len() == 0 {
        all
    } else {
        let before = merged_entries(all, episode.drop_last());
        if filed(before, episode.last().0@) {
            before
        } else {
            before.push(episode.last())
        }
    }
}

/// Adds the samples of one episode to those of the episodes before it. A layout that is
/// filed already keeps the samples it has.
pub fn merge_examples<V>(all: &mut Vec<([u8; 121], V)>, episode: Vec<([u8; 121], V)>)
    requires
        keys_differ(old(all)@),
    ensures
        final(all)@ == merged_entries(old(all)@, episode@),
        keys_differ(final(all)@),
{
    let ghost before = all@;
    let ghost added = episode@;
    assert(added.take(0) =~= Seq::<([u8; 121], V)>::empty());
    for entry in it: episode
        invariant
            it.seq() == added,
            all@ == merged_entries(before, added.take(it.index() as int)),
            keys_differ(all@),
    {
        let ghost seen = added.take(it.index() as int);
        let ghost next = added.take(it.index() + 1);
        proof {
            assert(next.drop_last() =~= seen);
            assert(next.last() == entry);
        }
        if !is_filed(all, &entry.0) {
            all.push(entry);
        }
    }
    assert(added.take(added.len() as int) =~= added);
}

/// The samples of all entries, in the order of the entries.
pub open spec fn flattened<S>(entries: Seq<([u8; 121], Vec<S>)>) -> Seq<S>
    decreases entries.len(),
{
    if entries.len() == 0 {
        Seq::empty()
    } else {
        flattened(entries.drop_last()) + entries.last().1@
    }
}

/// The samples of one round of self-play as one list: a generation of the replay buffer.
pub fn flatten_examples<S>(entries: Vec<([u8; 121], Vec<S>)>) -> (samples: Vec<S>)
    ensures
        samples@ == flattened(entries@),
{
    let ghost all = entries@;
    let mut samples: Vec<S> = Vec::new();
    assert(all.take(0) =~= Seq::<([u8; 121], Vec<S>)>::empty());
    for entry in it: entries
        invariant
            it.seq() == all,
            samples@ == flattened(all.take(it.index() as int)),
    {
        let ghost seen = all.take(it.index() as int);
        let ghost next = all.take(it.index() + 1);
        let ghost start = samples@;
        let list = entry.1;
        let ghost items = list@;
        proof {
            assert(next.drop_last() =~= seen);
            assert(next.last() == entry);
            assert(items.take(0) =~= Seq::<S>::empty());
        }
        for sample in inner: list
            invariant
                inner.seq() == items,
                samples@ == start + items.take(inner.index() as int),
        {
            samples.push(sample);
            assert(items.take(inner.index() + 1) =~= items.take(inner.index() as int).push(sample));
        }
        assert(items.take(items.len() as int) =~= items);
    }
    assert(all.take(all.len() as int) =~= all);
    samples
}

/// Whether a newly trained evaluator takes the place of the previous one: it does where,
/// of the games that one side won, the share it won is greater than the threshold
/// `threshold_numerator / threshold_denominator`. Draws do not count, and without a
/// decided game the previous evaluator stays.
pub open spec fn spec_accepts(
    n_wins: u32,
    p_wins: u32,
    threshold_numerator: u64,
    threshold_denominator: u64,
) -> bool {
    n_wins + p_wins > 0 && n_wins * threshold_denominator > threshold_numerator * (n_wins
        + p_wins)
}

#[verifier::when_used_as_spec(spec_accepts)]
pub fn accepts(n_wins: u32, p_wins: u32, threshold_numerator: u64, threshold_denominator: u64) -> (accepted:
    bool)
    ensures
        accepted == spec_accepts(n_wins, p_wins, threshold_numerator, threshold_denominator),
{
    let decided: u128 = n_wins as u128 + p_wins as u128;
    if decided == 0 {
        return false;
    }
    assert(n_wins * threshold_denominator <= 0xffff_ffff * 0xffff_ffff_ffff_ffff) by (nonlinear_arith)
        requires
            n_wins <= 0xffff_ffff,
            threshold_denominator <= 0xffff_ffff_ffff_ffff,
    ;
    assert(threshold_numerator * decided <= 0xffff_ffff_ffff_ffff * 0x1_ffff_fffe) by (nonlinear_arith)
        requires
            decided <= 0x1_ffff_fffe,
            threshold_numerator <= 0xffff_ffff_ffff_ffff,
    ;
    (n_wins as u128) * (threshold_denominator as u128) > (threshold_numerator as u128) * decided
}

/// Whether a round of self-play is due before training: always, but for the first round
/// of a run that starts from stored samples.
pub fn self_play_is_due(skip_first_self_play: bool, iteration: i32) -> (due: bool)
    ensures
        due == (!skip_first_self_play || iteration > 1),
{
    !skip_first_self_play || iteration > 1
}

} // verus!

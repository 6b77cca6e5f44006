//! The next-state sampler: one uniform draw picks a destination from the
//! distribution of the current state. A step gives a destination of that
//! state or fails: at a state without a distribution, and at a draw that
//! the probabilities of the distribution do not reach.

use crate::state_map::{as_map, has_key, keys_increase, lemma_entry_found};
use crate::table::{
    last_written, lemma_same_last_writes_same_table, probability, transitions, TransitionProb,
    TransitionTable, PROB_ONE,
};
use vstd::prelude::*;
use vstd::set_lib::{lemma_int_range, set_int_range};

verus! {

/// Why a step of the walk failed.
#[derive(Clone, Copy, Debug, PartialEq, Eq)]
pub enum SampleError {
    /// The walk was asked to leave a state for which the table has no
    /// destination.
    UnknownState { state: char },
    /// The probabilities of the distribution of the state do not reach the
    /// draw, so the draw selects no destination.
    UnmatchedDraw { state: char, draw: u64 },
}

impl SampleError {
    /// The state at which the step failed.
    pub open spec fn state(self) -> char {
        match self {
            SampleError::UnknownState { state } => state,
            SampleError::UnmatchedDraw { state, .. } => state,
        }
    }

    /// The error in words.
    pub fn message(&self) -> (text: String)
        ensures
            text@ == (match *self {
                SampleError::UnknownState { .. } => {
                    "Invalid state provided to transition prob map"@
                },
                SampleError::UnmatchedDraw { .. } => {
                    "No destination of the state matches the draw"@
                },
            }),
    {
        match self {
            SampleError::UnknownState { .. } => {
                "Invalid state provided to transition prob map".to_owned()
            },
            SampleError::UnmatchedDraw { .. } => {
                "No destination of the state matches the draw".to_owned()
            },
        }
    }
}

/// The sum of the probabilities of the entries of `row` up to and with the
/// one at `i`.
pub open spec fn cumulative(row: Seq<(char, u64)>, i: int) -> int
    decreases i + 1,
{
    if i < 0 {
        0
    } else {
        cumulative(row, i - 1) + row[i].1
    }
}

/// The entry at `i` is the first of `row` whose cumulative probability
/// reaches `draw`.
pub open spec fn selects(row: Seq<(char, u64)>, draw: int, i: int) -> bool {
    &&& 0 <= i < row.len()
    &&& draw <= cumulative(row, i)
    &&& forall|j: int| 0 <= j < i ==> #[trigger] cumulative(row, j) < draw
}

/// The destination that `draw` picks from `row`: that of the first entry
/// whose cumulative probability reaches the draw, and none where no entry
/// does.
pub open spec fn pick(row: Seq<(char, u64)>, draw: int) -> Option<char> {
    if exists|i: int| selects(row, draw, i) {
        Some(row[choose|i: int| selects(row, draw, i)].0)
    } else {
        None
    }
}

/// `table` has a distribution for `state`, with a destination in it.
pub open spec fn knows(table: Map<char, Seq<(char, u64)>>, state: char) -> bool {
    table.contains_key(state) && table[state].len() > 0
}

/// The outcome of one step from `start` with the draw `draw`: the
/// destination picked from the distribution of `start`; the error that
/// names `start` as unknown, where the table has no destination for it; or
/// the error that names `start` and the draw, where the distribution does
/// not reach the draw.
pub open spec fn step(table: Map<char, Seq<(char, u64)>>, start: char, draw: u64) -> Result<
    char,
    SampleError,
> {
    if !knows(table, start) {
        Err(SampleError::UnknownState { state: start })
    } else {
        match pick(table[start], draw as int) {
            Some(dest) => Ok(dest),
            None => Err(SampleError::UnmatchedDraw { state: start, draw }),
        }
    }
}

/// No step from a state that `table` knows, with a draw below `PROB_ONE`,
/// fails or leads to a state that it does not know.
pub open spec fn never_fails(table: Map<char, Seq<(char, u64)>>) -> bool {
    forall|state: char, draw: u64|
        knows(table, state) && draw < PROB_ONE ==> ((#[trigger] step(
            table,
            state,
            draw,
        )) matches Ok(next) && knows(table, next))
}

/// `e` tells why a step through `table` failed: at a state that the table
/// does not know, or at a state whose distribution does not reach the
/// draw.
pub open spec fn explains(table: Map<char, Seq<(char, u64)>>, e: SampleError) -> bool {
    match e {
        SampleError::UnknownState { state } => !knows(table, state),
        SampleError::UnmatchedDraw { state, draw } => knows(table, state) && pick(
            table[state],
            draw as int,
        ) is None,
    }
}

/// A draw picks the destination of the entry that it selects.
pub proof fn lemma_pick_selected(row: Seq<(char, u64)>, draw: int, i: int)
    requires
        selects(row, draw, i),
    ensures
        pick(row, draw) == Some(row[i].0),
{
    let k = choose|k: int| selects(row, draw, k);
    if k < i {
        assert(cumulative(row, k) < draw);
    }
    if i < k {
        assert(cumulative(row, i) < draw);
    }
}

/// A draw above every cumulative probability picks nothing.
pub proof fn lemma_pick_unmatched(row: Seq<(char, u64)>, draw: int)
    requires
        forall|j: int| 0 <= j < row.len() ==> #[trigger] cumulative(row, j) < draw,
    ensures
        pick(row, draw) is None,
{
    if exists|i: int| selects(row, draw, i) {
        let k = choose|k: int| selects(row, draw, k);
        assert(cumulative(row, k) < draw);
    }
}

/// Cumulative probabilities are not negative and do not decrease along a
/// row.
pub proof fn lemma_cumulative_grows(row: Seq<(char, u64)>, i: int, j: int)
    requires
        -1 <= i <= j,
    ensures
        0 <= cumulative(row, i) <= cumulative(row, j),
    decreases j + 1,
{
    if i < j {
        lemma_cumulative_grows(row, i, j - 1);
    } else if 0 <= i {
        lemma_cumulative_grows(row, i - 1, j - 1);
    }
}

/// The draws that select an entry are those that its cumulative
/// probability reaches and that of the entry before it does not; the first
/// entry has none before it.
pub proof fn lemma_selecting_draws(row: Seq<(char, u64)>, draw: int, i: int)
    requires
        0 <= i < row.len(),
    ensures
        selects(row, draw, i) <==> (draw <= cumulative(row, i) && (i > 0 ==> cumulative(row, i - 1)
            < draw)),
{
    if draw <= cumulative(row, i) && (i > 0 ==> cumulative(row, i - 1) < draw) {
        assert forall|j: int| 0 <= j < i implies #[trigger] cumulative(row, j) < draw by {
            lemma_cumulative_grows(row, j, i - 1);
        }
    }
}

/// The draws below `PROB_ONE` that select the entry at `i` of `row`.
pub open spec fn draws_selecting(row: Seq<(char, u64)>, i: int) -> Set<int> {
    Set::new(|draw: int| 0 <= draw < PROB_ONE && selects(row, draw, i))
}

/// A cumulative probability, held below `PROB_ONE`.
pub open spec fn capped(cumulative: int) -> int {
    if cumulative < PROB_ONE {
        cumulative
    } else {
        PROB_ONE - 1
    }
}

/// The share of an entry among the `PROB_ONE` draws: as many draws select
/// it as lie above the cumulative probability before it and not above its
/// own. That is the entry's probability where the cumulative
/// probabilities stay below `PROB_ONE`, and one more for the first entry,
/// which the draw zero selects too.
pub proof fn lemma_share_of_draws(row: Seq<(char, u64)>, i: int)
    requires
        0 <= i < row.len(),
    ensures
        draws_selecting(row, i).finite(),
        draws_selecting(row, i).len() == capped(cumulative(row, i)) - (if i == 0 {
            -1
        } else {
            capped(cumulative(row, i - 1))
        }),
{
    lemma_cumulative_grows(row, i - 1, i);
    let low = if i == 0 {
        0
    } else {
        capped(cumulative(row, i - 1)) + 1
    };
    let high = capped(cumulative(row, i)) + 1;
    assert forall|draw: int|
        draws_selecting(row, i).contains(draw) <==> set_int_range(low, high).contains(draw) by {
        lemma_selecting_draws(row, draw, i);
    }
    assert(draws_selecting(row, i) =~= set_int_range(low, high));
    lemma_int_range(low, high);
}

/// A draw that the cumulative probability at `n` reaches selects an entry
/// up to `n`, and picks its destination.
pub proof fn lemma_pick_within(row: Seq<(char, u64)>, draw: int, n: int) -> (i: int)
    requires
        0 <= n < row.len(),
        draw <= cumulative(row, n),
    ensures
        0 <= i <= n,
        selects(row, draw, i),
        pick(row, draw) == Some(row[i].0),
    decreases n,
{
    let i = if n > 0 && draw <= cumulative(row, n - 1) {
        lemma_pick_within(row, draw, n - 1)
    } else {
        lemma_selecting_draws(row, draw, n);
        n
    };
    lemma_pick_selected(row, draw, i);
    i
}

/// What a draw picks from a row is a destination of the row, and on a
/// positive draw one that the row gives a positive probability.
pub proof fn lemma_pick_listed(row: Seq<(char, u64)>, draw: int)
    requires
        pick(row, draw) is Some,
    ensures
        has_key(row, pick(row, draw)->0),
        keys_increase(row) ==> as_map(row).contains_key(pick(row, draw)->0),
        keys_increase(row) && draw > 0 ==> as_map(row)[pick(row, draw)->0] > 0,
{
    let i = choose|i: int| selects(row, draw, i);
    assert(row[i].0 == pick(row, draw)->0);
    lemma_selecting_draws(row, draw, i);
    assert(cumulative(row, i) == cumulative(row, i - 1) + row[i].1);
    assert(cumulative(row, -1) == 0);
    if keys_increase(row) {
        lemma_entry_found(row, i);
    }
}

/// The probabilities of `row` leave no draw below `PROB_ONE` unmatched.
pub open spec fn complete(row: Seq<(char, u64)>) -> bool {
    row.len() > 0 && cumulative(row, row.len() - 1) >= PROB_ONE - 1
}

/// Each distribution of `table` is complete, and its destinations are
/// origins of `table`.
pub open spec fn closed(table: Map<char, Seq<(char, u64)>>) -> bool {
    forall|origin: char| #[trigger]
        table.contains_key(origin) ==> {
            &&& complete(table[origin])
            &&& forall|i: int|
                0 <= i < table[origin].len() ==> table.contains_key((#[trigger] table[origin][i]).0)
        }
}

/// A step from a state with a complete distribution, with a draw below
/// `PROB_ONE`, does not fail.
pub proof fn lemma_complete_never_unmatched(
    table: Map<char, Seq<(char, u64)>>,
    start: char,
    draw: u64,
) -> (i: int)
    requires
        table.contains_key(start),
        complete(table[start]),
        draw < PROB_ONE,
    ensures
        0 <= i < table[start].len(),
        step(table, start, draw) == Ok::<char, SampleError>(table[start][i].0),
{
    lemma_pick_within(table[start], draw as int, table[start].len() - 1)
}

/// A walk through a closed table never fails.
pub proof fn lemma_closed_never_fails(table: Map<char, Seq<(char, u64)>>)
    requires
        closed(table),
    ensures
        never_fails(table),
{
    assert forall|state: char, draw: u64| knows(table, state) && draw < PROB_ONE implies ((
    #[trigger] step(table, state, draw)) matches Ok(next) && knows(table, next)) by {
        let i = lemma_complete_never_unmatched(table, state, draw);
        assert(table.contains_key(table[state][i].0));
    }
}

/// Lists of records whose last writes agree on every jump sample alike:
/// from each state, each draw has the same outcome in both tables. So do
/// two tables built from one list.
pub proof fn lemma_same_last_writes_same_steps(
    first: Seq<TransitionProb>,
    second: Seq<TransitionProb>,
    start: char,
    draw: u64,
)
    requires
        forall|origin: char, dest: char|
            last_written(first, origin, dest) == last_written(second, origin, dest),
    ensures
        step(transitions(first), start, draw) == step(transitions(second), start, draw),
{
    lemma_same_last_writes_same_table(first, second);
}

/// Picks the destination of `draw` from `row`: scans the entries in order,
/// takes each probability off the draw, and stops at the first entry that
/// leaves nothing of it. Where the entries run out first, it picks none.
pub fn pick_destination(row: &[(char, u64)], draw: u64) -> (end: Option<char>)
    ensures
        end == pick(row@, draw as int),
{
    let mut remaining: u64 = draw;
    let mut i: usize = 0;
    while i < row.len()
        invariant
            i <= row@.len(),
            remaining == draw - cumulative(row@, i - 1),
            forall|j: int| 0 <= j < i ==> #[trigger] cumulative(row@, j) < draw,
        decreases row@.len() - i,
    {
        let (dest, prob) = row[i];
        if remaining <= prob {
            proof {
                lemma_pick_selected(row@, draw as int, i as int);
            }
            return Some(dest);
        }
        remaining -= prob;
        i += 1;
    }
    proof {
        lemma_pick_unmatched(row@, draw as int);
    }
    None
}

/// The state that follows `start` when the draw is `draw`: a destination
/// of `start`, and on a positive draw one of positive probability. The
/// step fails where the table does not know `start`, and where the
/// probabilities of its distribution do not reach the draw.
pub fn next_state_for_draw(start: char, prob_map: &TransitionTable, draw: u64) -> (res: Result<
    char,
    SampleError,
>)
    ensures
        res == step(prob_map@, start, draw),
        !prob_map@.contains_key(start) <==> res == Err::<char, SampleError>(
            SampleError::UnknownState { state: start },
        ),
        res matches Ok(dest) ==> (probability(prob_map@, start, dest) matches Some(p) && (draw > 0
            ==> p > 0)),
{
    match prob_map.row(&start) {
        Some(row) => match pick_destination(row, draw) {
            Some(dest) => {
                proof {
                    lemma_pick_listed(row@, draw as int);
                }
                Ok(dest)
            },
            None => Err(SampleError::UnmatchedDraw { state: start, draw }),
        },
        None => Err(SampleError::UnknownState { state: start }),
    }
}

/// `rand::random` at `u64`: the next number of the thread's generator,
/// uniform over all of `u64`. Nothing is claimed of its value. The call
/// panics where the system gives the generator no seed, at its first use
/// in a thread or when it seeds itself anew.
#[verifier::external_body]
fn random_u64() -> (drawn: u64) {
    rand::random::<u64>()
}

/// Samples the state that follows `start`: takes a random number, reduces
/// it to a draw below `PROB_ONE`, and picks from the distribution of
/// `start`. The draw is the remainder of a uniform 64-bit number, which
/// favours no draw by more than one part in ten thousand million.
///
/// The result is a destination of `start` or an error, never another
/// state. The step fails where the table does not know `start`, and where
/// the probabilities of its distribution do not reach the draw; with a
/// complete distribution it does not fail.
pub fn next_state(start: char, prob_map: &TransitionTable) -> (res: Result<char, SampleError>)
    ensures
        exists|draw: u64| draw < PROB_ONE && res == #[trigger] step(prob_map@, start, draw),
        !prob_map@.contains_key(start) <==> res == Err::<char, SampleError>(
            SampleError::UnknownState { state: start },
        ),
        prob_map@.contains_key(start) && complete(prob_map@[start]) ==> res is Ok,
        res matches Ok(dest) ==> probability(prob_map@, start, dest) is Some,
        res matches Err(SampleError::UnmatchedDraw { state, draw }) ==> {
            &&& state == start
            &&& draw < PROB_ONE
            &&& prob_map@.contains_key(start)
            &&& pick(prob_map@[start], draw as int) is None
        },
{
    let draw = random_u64() % PROB_ONE;
    let res = next_state_for_draw(start, prob_map, draw);
    proof {
        assert(res == step(prob_map@, start, draw));
        if prob_map@.contains_key(start) && complete(prob_map@[start]) {
            lemma_complete_never_unmatched(prob_map@, start, draw);
        }
    }
    res
}

} // verus!

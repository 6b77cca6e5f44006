//! The walk driver: it records each state it visits in a trace and a
//! histogram, and samples the next one.

use crate::sampler::{
    explains, knows, lemma_pick_listed, never_fails, next_state, next_state_for_draw, step,
    SampleError,
};
use crate::state_map::{
    as_map, has_key, keys_increase, lemma_entry_found, lemma_rank_bounds, put, rank, StateMap,
};
use crate::table::{transition_prob_list_to_map, transitions, TransitionProb, PROB_ONE};
use vstd::prelude::*;

verus! {

/// What a walk leaves behind: for each step its index and the ordinal of
/// the state it visited, and for each visited state the number of visits.
#[derive(Debug)]
pub struct MonteCarloRunOutput {
    pub random_walk: Vec<(i64, i32)>,
    pub histogram: StateMap<i64>,
}

/// The position of `state` in the alphabet that starts at `'a'`.
pub open spec fn ordinal(state: char) -> i32 {
    (state as int - 'a' as int) as i32
}

/// How often `state` occurs in `states`.
pub open spec fn occurrences(states: Seq<char>, state: char) -> int
    decreases states.len(),
{
    if states.len() == 0 {
        0
    } else {
        occurrences(states.drop_last(), state) + if states.last() == state {
            1int
        } else {
            0int
        }
    }
}

/// `histogram` holds the states of `states`, each with the number of its
/// occurrences.
pub open spec fn counts_visits(histogram: Map<char, i64>, states: Seq<char>) -> bool {
    &&& forall|state: char| #[trigger] histogram.contains_key(state) <==> states.contains(state)
    &&& forall|state: char| #[trigger]
        histogram.contains_key(state) ==> histogram[state] == occurrences(states, state)
}

/// The sum of the counts of `entries`.
pub open spec fn total_visits(entries: Seq<(char, i64)>) -> int
    decreases entries.len(),
{
    if entries.len() == 0 {
        0
    } else {
        total_visits(entries.drop_last()) + entries.last().1
    }
}

/// The trace of a walk through `states`: each step's index with the ordinal
/// of its state.
pub open spec fn trace_of(states: Seq<char>) -> Seq<(i64, i32)> {
    Seq::new(states.len(), |i: int| (i as i64, ordinal(states[i])))
}

/// `out` records the walk through `states`: its trace, the count of each
/// state, and as many visits in all as there are states.
pub open spec fn records(out: MonteCarloRunOutput, states: Seq<char>) -> bool {
    &&& out.random_walk@ == trace_of(states)
    &&& counts_visits(out.histogram@, states)
    &&& total_visits(out.histogram.entries()) == states.len()
}

/// The state that a result of the sampler speaks of: the next state, or the
/// state that it failed on.
pub open spec fn state_of(res: Result<char, SampleError>) -> char {
    match res {
        Ok(state) => state,
        Err(e) => e.state(),
    }
}

/// Where the walk from `start` stands after `n` steps that use the first
/// `n` of `draws`: at a state, or at the error of the first step that
/// failed.
pub open spec fn state_after(
    table: Map<char, Seq<(char, u64)>>,
    start: char,
    draws: Seq<u64>,
    n: int,
) -> Result<char, SampleError>
    decreases n,
{
    if n <= 0 {
        Ok(start)
    } else {
        match state_after(table, start, draws, n - 1) {
            Ok(state) => step(table, state, draws[n - 1]),
            Err(e) => Err(e),
        }
    }
}

/// The states that the first `n` steps of the walk visit.
pub open spec fn visited(
    table: Map<char, Seq<(char, u64)>>,
    start: char,
    draws: Seq<u64>,
    n: int,
) -> Seq<char> {
    Seq::new(n as nat, |i: int| state_of(state_after(table, start, draws, i)))
}

/// `states` is a chain through `table` from `start`: it starts there, it
/// holds only states that the table knows, and each state but the first
/// is a destination of the one before.
pub open spec fn follows_table(
    table: Map<char, Seq<(char, u64)>>,
    start: char,
    states: Seq<char>,
) -> bool {
    &&& states.len() > 0 ==> states[0] == start
    &&& forall|i: int| 0 <= i < states.len() ==> knows(table, #[trigger] states[i])
    &&& forall|i: int|
        0 <= i < states.len() - 1 ==> has_key(table[#[trigger] states[i]], states[i + 1])
}

/// `res` is the outcome of the walk from `start` that takes one step for
/// each of `draws`: the error of the first step that fails, or else the
/// trace and the histogram of the states visited.
pub open spec fn walk_outcome(
    res: Result<MonteCarloRunOutput, SampleError>,
    table: Map<char, Seq<(char, u64)>>,
    start: char,
    draws: Seq<u64>,
) -> bool {
    let n = draws.len() as int;
    match state_after(table, start, draws, n) {
        Ok(_) => res matches Ok(out) && records(out, visited(table, start, draws, n)),
        Err(e) => res matches Err(err) && err == e,
    }
}

/// The number of steps of a walk of the distance `walk_distance`: none for
/// a distance below one.
pub open spec fn steps(walk_distance: i64) -> nat {
    if walk_distance > 0 {
        walk_distance as nat
    } else {
        0
    }
}

/// `draws` holds `n` draws, each below `PROB_ONE`.
pub open spec fn draws_below_one(draws: Seq<u64>, n: nat) -> bool {
    &&& draws.len() == n
    &&& forall|i: int| 0 <= i < n ==> #[trigger] draws[i] < PROB_ONE
}

/// The count that `histogram` has for `state`: none for a state it does
/// not hold.
pub open spec fn visits(histogram: Map<char, i64>, state: char) -> i64 {
    if histogram.contains_key(state) {
        histogram[state]
    } else {
        0
    }
}

/// A new entry adds its count to the sum.
proof fn lemma_total_insert(entries: Seq<(char, i64)>, i: int, entry: (char, i64))
    requires
        0 <= i <= entries.len(),
    ensures
        total_visits(entries.insert(i, entry)) == total_visits(entries) + entry.1,
    decreases entries.len(),
{
    let after = entries.insert(i, entry);
    if i == entries.len() {
        assert(after.drop_last() == entries);
    } else {
        assert(after.drop_last() == entries.drop_last().insert(i, entry));
        lemma_total_insert(entries.drop_last(), i, entry);
    }
}

/// A replaced entry changes the sum by the difference of the counts.
proof fn lemma_total_update(entries: Seq<(char, i64)>, i: int, entry: (char, i64))
    requires
        0 <= i < entries.len(),
    ensures
        total_visits(entries.update(i, entry)) == total_visits(entries) - entries[i].1 + entry.1,
    decreases entries.len(),
{
    let after = entries.update(i, entry);
    if i == entries.len() - 1 {
        assert(after.drop_last() == entries.drop_last());
    } else {
        assert(after.drop_last() == entries.drop_last().update(i, entry));
        lemma_total_update(entries.drop_last(), i, entry);
    }
}

/// Binding a state to a count changes the sum of the counts by the
/// difference to the count that the state had.
pub proof fn lemma_total_put(entries: Seq<(char, i64)>, state: char, count: i64)
    requires
        keys_increase(entries),
    ensures
        total_visits(put(entries, state, count)) == total_visits(entries) - visits(
            as_map(entries),
            state,
        ) + count,
{
    lemma_rank_bounds(entries, state);
    let r = rank(entries, state);
    if has_key(entries, state) {
        lemma_entry_found(entries, r);
        lemma_total_update(entries, r, (state, count));
    } else {
        lemma_total_insert(entries, r, (state, count));
    }
}

/// A state occurs in a sequence at most as often as the sequence is long,
/// and at least once where the sequence holds it.
pub proof fn lemma_occurrences_bounds(states: Seq<char>, state: char)
    ensures
        0 <= occurrences(states, state) <= states.len(),
        states.contains(state) <==> occurrences(states, state) > 0,
    decreases states.len(),
{
    if states.len() > 0 {
        let init = states.drop_last();
        lemma_occurrences_bounds(init, state);
        if states.contains(state) && states.last() != state {
            let i = choose|i: int| 0 <= i < states.len() && states[i] == state;
            assert(init[i] == state);
        }
        if init.contains(state) {
            let i = choose|i: int| 0 <= i < init.len() && init[i] == state;
            assert(states[i] == state);
        }
        if states.last() == state {
            assert(states[states.len() - 1] == state);
        }
    }
}

/// One more visit of `state` turns the histogram of `states` into that of
/// `states` followed by `state`.
pub proof fn lemma_counts_push(histogram: Map<char, i64>, states: Seq<char>, state: char)
    requires
        counts_visits(histogram, states),
        states.len() < i64::MAX,
    ensures
        visits(histogram, state) == occurrences(states, state),
        counts_visits(
            histogram.insert(state, (visits(histogram, state) + 1) as i64),
            states.push(state),
        ),
{
    let longer = states.push(state);
    let after = histogram.insert(state, (visits(histogram, state) + 1) as i64);
    assert(longer.drop_last() == states);
    lemma_occurrences_bounds(states, state);
    assert forall|other: char| #[trigger] after.contains_key(other) <==> longer.contains(other) by {
        lemma_occurrences_bounds(states, other);
        lemma_occurrences_bounds(longer, other);
    }
}

/// The ordinal of `state`.
pub fn state_ordinal(state: char) -> (n: i32)
    ensures
        n == ordinal(state),
{
    state as i32 - 'a' as i32
}

/// Counts one more visit of `state`. The count of the state must have room
/// for it.
pub fn record_visit(histogram: &mut StateMap<i64>, state: char)
    requires
        visits(old(histogram)@, state) < i64::MAX,
    ensures
        final(histogram)@ == old(histogram)@.insert(
            state,
            (visits(old(histogram)@, state) + 1) as i64,
        ),
        total_visits(final(histogram).entries()) == total_visits(old(histogram).entries()) + 1,
{
    proof {
        use_type_invariant(&*histogram);
        lemma_total_put(
            histogram.entries(),
            state,
            (visits(histogram@, state) + 1) as i64,
        );
    }
    let count = match histogram.get(&state) {
        Some(count) => *count,
        None => 0,
    };
    histogram.insert(state, count + 1);
}

/// The first `n` steps of a walk depend on the first `n` draws alone.
pub proof fn lemma_walk_prefix(
    table: Map<char, Seq<(char, u64)>>,
    start: char,
    draws: Seq<u64>,
    other: Seq<u64>,
    n: int,
)
    requires
        0 <= n <= draws.len(),
        n <= other.len(),
        forall|i: int| 0 <= i < n ==> draws[i] == other[i],
    ensures
        state_after(table, start, draws, n) == state_after(table, start, other, n),
        visited(table, start, draws, n) == visited(table, start, other, n),
    decreases n,
{
    if n > 0 {
        lemma_walk_prefix(table, start, draws, other, n - 1);
        assert forall|i: int| 0 <= i < n implies state_after(table, start, draws, i)
            == state_after(table, start, other, i) by {
            lemma_walk_prefix(table, start, draws, other, i);
        }
    }
    assert(visited(table, start, draws, n) =~= visited(table, start, other, n));
}

/// A walk that has failed stays at its error.
pub proof fn lemma_error_stays(
    table: Map<char, Seq<(char, u64)>>,
    start: char,
    draws: Seq<u64>,
    n: int,
    m: int,
)
    requires
        0 <= n <= m,
        state_after(table, start, draws, n) is Err,
    ensures
        state_after(table, start, draws, m) == state_after(table, start, draws, n),
    decreases m,
{
    if n < m {
        lemma_error_stays(table, start, draws, n, m - 1);
    }
}

/// In a walk that has not failed after `n` steps, each of these steps left
/// a state that the table knows for one of its destinations.
pub proof fn lemma_steps_listed(
    table: Map<char, Seq<(char, u64)>>,
    start: char,
    draws: Seq<u64>,
    n: int,
    i: int,
)
    requires
        0 <= i < n,
        state_after(table, start, draws, n) is Ok,
    ensures
        state_after(table, start, draws, i) matches Ok(state) && knows(table, state) && (
        state_after(table, start, draws, i + 1) matches Ok(next) && has_key(table[state], next)),
    decreases n,
{
    if i < n - 1 {
        lemma_steps_listed(table, start, draws, n - 1, i);
    } else {
        let state = state_after(table, start, draws, i)->Ok_0;
        lemma_pick_listed(table[state], draws[i] as int);
    }
}

/// The states that a walk has visited when it has not failed are a chain
/// through the table from the start.
pub proof fn lemma_walk_follows_table(
    table: Map<char, Seq<(char, u64)>>,
    start: char,
    draws: Seq<u64>,
    n: int,
)
    requires
        0 <= n,
        state_after(table, start, draws, n) is Ok,
    ensures
        follows_table(table, start, visited(table, start, draws, n)),
{
    let states = visited(table, start, draws, n);
    assert forall|i: int| 0 <= i < states.len() implies knows(table, #[trigger] states[i]) by {
        lemma_steps_listed(table, start, draws, n, i);
    }
    assert forall|i: int| 0 <= i < states.len() - 1 implies has_key(
        table[#[trigger] states[i]],
        states[i + 1],
    ) by {
        lemma_steps_listed(table, start, draws, n, i);
    }
}

/// A walk through a table that never fails, from a state that the table
/// knows and with draws below `PROB_ONE`, does not fail.
pub proof fn lemma_walk_never_fails(
    table: Map<char, Seq<(char, u64)>>,
    start: char,
    draws: Seq<u64>,
    n: int,
)
    requires
        never_fails(table),
        knows(table, start),
        0 <= n <= draws.len(),
        forall|i: int| 0 <= i < n ==> #[trigger] draws[i] < PROB_ONE,
    ensures
        state_after(table, start, draws, n) matches Ok(state) && knows(table, state),
    decreases n,
{
    if n > 0 {
        lemma_walk_never_fails(table, start, draws, n - 1);
        let state = state_after(table, start, draws, n - 1)->Ok_0;
        assert(step(table, state, draws[n - 1]) is Ok);
    }
}

/// The error of a failed walk tells why a step failed, and the draw that
/// it names is one of the draws.
pub proof fn lemma_error_explained(
    table: Map<char, Seq<(char, u64)>>,
    start: char,
    draws: Seq<u64>,
    n: int,
)
    requires
        state_after(table, start, draws, n) is Err,
    ensures
        explains(table, state_after(table, start, draws, n)->Err_0),
        state_after(table, start, draws, n)->Err_0 matches SampleError::UnmatchedDraw {
            draw,
            ..
        } ==> exists|i: int| 0 <= i < n && #[trigger] draws[i] == draw,
    decreases n,
{
    if n > 0 {
        if state_after(table, start, draws, n - 1) is Err {
            lemma_error_explained(table, start, draws, n - 1);
        } else {
            assert(draws[n - 1] == draws[n - 1]);
        }
    }
}

/// The outcome of a walk that has not failed holds one entry of the trace
/// for each step, with the steps counted from zero, and as many visits as
/// steps; the states visited are a chain through the table from the start.
/// The error of a walk that has failed tells why.
pub proof fn lemma_walk_outcome(
    res: Result<MonteCarloRunOutput, SampleError>,
    table: Map<char, Seq<(char, u64)>>,
    start: char,
    draws: Seq<u64>,
)
    requires
        walk_outcome(res, table, start, draws),
        draws.len() <= i64::MAX,
    ensures
        res matches Ok(out) ==> {
            &&& out.random_walk@.len() == draws.len()
            &&& forall|i: int|
                0 <= i < draws.len() ==> (#[trigger] out.random_walk@[i]).0 == i
            &&& draws.len() > 0 ==> out.random_walk@[0].1 == ordinal(start)
            &&& total_visits(out.histogram.entries()) == draws.len()
            &&& forall|state: char| #[trigger]
                out.histogram@.contains_key(state) ==> knows(table, state)
            &&& follows_table(table, start, visited(table, start, draws, draws.len() as int))
        },
        res matches Err(e) ==> explains(table, e),
{
    let n = draws.len() as int;
    let states = visited(table, start, draws, n);
    match res {
        Ok(out) => {
            lemma_walk_follows_table(table, start, draws, n);
            assert forall|state: char| #[trigger]
                out.histogram@.contains_key(state) implies knows(table, state) by {
                let i = choose|i: int| 0 <= i < states.len() && states[i] == state;
                assert(knows(table, states[i]));
            }
        },
        Err(e) => {
            lemma_error_explained(table, start, draws, n);
        },
    }
}

/// Records the visit of `state` as the step `count`.
fn record_step(
    out: &mut MonteCarloRunOutput,
    count: i64,
    state: char,
    Ghost(states): Ghost<Seq<char>>,
)
    requires
        records(*old(out), states),
        count == states.len(),
        count < i64::MAX,
    ensures
        records(*final(out), states.push(state)),
{
    proof {
        lemma_counts_push(out.histogram@, states, state);
        lemma_occurrences_bounds(states, state);
    }
    record_visit(&mut out.histogram, state);
    out.random_walk.push((count, state_ordinal(state)));
    assert(out.random_walk@ =~= trace_of(states.push(state)));
}

/// Walks from `start` through the table of `transition_probabilities`, one
/// step for each of `draws`: each step records the current state and then
/// moves to the destination that its draw picks. The walk fails at the
/// first step that fails: at a state that the table does not know, or at a
/// draw that the distribution of the state does not reach. The steps are
/// counted in `i64`, so there can be no more draws than that.
pub fn walk_with_draws(
    start: char,
    transition_probabilities: &[TransitionProb],
    draws: &[u64],
) -> (res: Result<MonteCarloRunOutput, SampleError>)
    requires
        draws@.len() <= i64::MAX,
    ensures
        walk_outcome(res, transitions(transition_probabilities@), start, draws@),
        res matches Ok(out) ==> {
            &&& out.random_walk@.len() == draws@.len()
            &&& forall|i: int|
                0 <= i < draws@.len() ==> (#[trigger] out.random_walk@[i]).0 == i
            &&& total_visits(out.histogram.entries()) == draws@.len()
            &&& follows_table(
                transitions(transition_probabilities@),
                start,
                visited(
                    transitions(transition_probabilities@),
                    start,
                    draws@,
                    draws@.len() as int,
                ),
            )
        },
        res matches Err(e) ==> explains(transitions(transition_probabilities@), e),
{
    let prob_map = transition_prob_list_to_map(transition_probabilities);
    let mut out = MonteCarloRunOutput { random_walk: Vec::new(), histogram: StateMap::new() };
    let mut count: usize = 0;
    let mut curr_state = start;
    assert(out.random_walk@ =~= trace_of(visited(prob_map@, start, draws@, 0)));
    while count < draws.len()
        invariant
            count <= draws@.len() <= i64::MAX,
            prob_map@ == transitions(transition_probabilities@),
            state_after(prob_map@, start, draws@, count as int) == Ok::<char, SampleError>(
                curr_state,
            ),
            records(out, visited(prob_map@, start, draws@, count as int)),
        decreases draws@.len() - count,
    {
        let ghost states = visited(prob_map@, start, draws@, count as int);
        record_step(&mut out, count as i64, curr_state, Ghost(states));
        assert(visited(prob_map@, start, draws@, count + 1) =~= states.push(curr_state));
        match next_state_for_draw(curr_state, &prob_map, draws[count]) {
            Ok(state) => {
                curr_state = state;
            },
            Err(e) => {
                proof {
                    lemma_error_stays(prob_map@, start, draws@, count + 1, draws@.len() as int);
                    lemma_walk_outcome(
                        Err::<MonteCarloRunOutput, SampleError>(e),
                        prob_map@,
                        start,
                        draws@,
                    );
                }
                return Err(e);
            },
        }
        count += 1;
    }
    proof {
        lemma_walk_outcome(
            Ok::<MonteCarloRunOutput, SampleError>(out),
            prob_map@,
            start,
            draws@,
        );
    }
    Ok(out)
}

/// Walks `walk_distance` steps from `start` through the table of
/// `transition_probabilities`: each step records the current state and
/// then samples the next one. The walk fails at the first step that fails:
/// at a state that the table does not know, or at a draw that the
/// distribution of the state does not reach. A distance below one gives an
/// empty walk.
///
/// Whatever is drawn, the result is that of `walk_with_draws` for some
/// draws below `PROB_ONE`, one for each step. The states of a walk that
/// has not failed are a chain through the table: each follows the one
/// before by a transition that the table lists.
pub fn monte_carlo_run(
    start: char,
    transition_probabilities: &[TransitionProb],
    walk_distance: i64,
) -> (res: Result<MonteCarloRunOutput, SampleError>)
    ensures
        exists|draws: Seq<u64>|
            draws_below_one(draws, steps(walk_distance)) && #[trigger] walk_outcome(
                res,
                transitions(transition_probabilities@),
                start,
                draws,
            ),
        res matches Ok(out) ==> {
            &&& out.random_walk@.len() == steps(walk_distance)
            &&& forall|i: int|
                0 <= i < steps(walk_distance) ==> (#[trigger] out.random_walk@[i]).0 == i
            &&& walk_distance > 0 ==> out.random_walk@[0].1 == ordinal(start)
            &&& total_visits(out.histogram.entries()) == steps(walk_distance)
            &&& exists|states: Seq<char>|
                {
                    &&& out.random_walk@ == trace_of(states)
                    &&& counts_visits(out.histogram@, states)
                    &&& #[trigger] follows_table(
                        transitions(transition_probabilities@),
                        start,
                        states,
                    )
                }
        },
        res matches Err(e) ==> {
            &&& explains(transitions(transition_probabilities@), e)
            &&& e matches SampleError::UnmatchedDraw { draw, .. } ==> draw < PROB_ONE
        },
        walk_distance <= 0 ==> res is Ok,
        walk_distance > 0 && !knows(transitions(transition_probabilities@), start) ==> res
            == Err::<MonteCarloRunOutput, SampleError>(SampleError::UnknownState { state: start }),
        knows(transitions(transition_probabilities@), start) && never_fails(
            transitions(transition_probabilities@),
        ) ==> res is Ok,
{
    let prob_map = transition_prob_list_to_map(transition_probabilities);
    let mut out = MonteCarloRunOutput { random_walk: Vec::new(), histogram: StateMap::new() };
    let mut count: i64 = 0;
    let mut curr_state = start;
    let ghost mut draws: Seq<u64> = Seq::empty();
    assert(out.random_walk@ =~= trace_of(visited(prob_map@, start, draws, 0)));
    while count < walk_distance
        invariant
            count == 0 || 0 < count <= walk_distance,
            prob_map@ == transitions(transition_probabilities@),
            draws_below_one(draws, count as nat),
            state_after(prob_map@, start, draws, count as int) == Ok::<char, SampleError>(
                curr_state,
            ),
            records(out, visited(prob_map@, start, draws, count as int)),
            count == 0 ==> curr_state == start,
            count > 0 ==> knows(prob_map@, start),
            knows(prob_map@, start) && never_fails(prob_map@) ==> knows(prob_map@, curr_state),
        decreases walk_distance - count,
    {
        let ghost states = visited(prob_map@, start, draws, count as int);
        record_step(&mut out, count, curr_state, Ghost(states));
        let next = next_state(curr_state, &prob_map);
        proof {
            let draw = choose|draw: u64|
                draw < PROB_ONE && next == #[trigger] step(prob_map@, curr_state, draw);
            let longer = draws.push(draw);
            lemma_walk_prefix(prob_map@, start, draws, longer, count as int);
            assert(visited(prob_map@, start, longer, count + 1) =~= states.push(curr_state));
            assert(state_after(prob_map@, start, longer, count + 1) == next);
            draws = longer;
        }
        match next {
            Ok(state) => {
                curr_state = state;
            },
            Err(e) => {
                proof {
                    let n = steps(walk_distance);
                    let full = draws + Seq::new((n - draws.len()) as nat, |i: int| 0u64);
                    lemma_walk_prefix(prob_map@, start, draws, full, count + 1);
                    lemma_error_stays(prob_map@, start, full, count + 1, n as int);
                    lemma_error_explained(prob_map@, start, full, n as int);
                    assert(draws_below_one(full, n));
                    assert(walk_outcome(
                        Err::<MonteCarloRunOutput, SampleError>(e),
                        prob_map@,
                        start,
                        full,
                    ));
                }
                return Err(e);
            },
        }
        count += 1;
    }
    proof {
        assert(walk_outcome(
            Ok::<MonteCarloRunOutput, SampleError>(out),
            prob_map@,
            start,
            draws,
        ));
        lemma_walk_outcome(
            Ok::<MonteCarloRunOutput, SampleError>(out),
            prob_map@,
            start,
            draws,
        );
        assert(follows_table(prob_map@, start, visited(prob_map@, start, draws, count as int)));
    }
    Ok(out)
}

} // verus!

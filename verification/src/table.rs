//! Transition records and the table of per-origin distributions built from
//! them.
//!
//! A probability is a whole number of parts out of [`PROB_ONE`]. The
//! distribution of an origin lists its destinations in increasing order,
//! each with the probability last recorded for it.

use crate::state_map::{
    as_map, has_key, index_of, keys_increase, lemma_entries_determined, lemma_entry_found,
    lemma_holds_map, lemma_put, put, StateMap,
};
use vstd::prelude::*;

verus! {

/// The probability of a certain event: a probability `p` stands for
/// `p / PROB_ONE`.
pub const PROB_ONE: u64 = 1_000_000_000;

/// One transition of the chain: from `origin` the walk jumps to `dest` with
/// probability `jump_prob / PROB_ONE`.
#[derive(Clone, Copy, Debug, PartialEq, Eq)]
pub struct TransitionProb {
    pub origin: char,
    pub dest: char,
    pub jump_prob: u64,
}

/// The distribution of `origin` in `table`, empty where `table` has none.
pub open spec fn row_or_empty(table: Map<char, Seq<(char, u64)>>, origin: char) -> Seq<
    (char, u64),
> {
    if table.contains_key(origin) {
        table[origin]
    } else {
        Seq::empty()
    }
}

/// `table` after the record `t`: the distribution of `t.origin` binds
/// `t.dest` to `t.jump_prob`, and the other origins keep theirs.
pub open spec fn with_transition(
    table: Map<char, Seq<(char, u64)>>,
    t: TransitionProb,
) -> Map<char, Seq<(char, u64)>> {
    table.insert(t.origin, put(row_or_empty(table, t.origin), t.dest, t.jump_prob))
}

/// The table that a list of records stands for: the records applied in
/// order to the empty table.
pub open spec fn transitions(records: Seq<TransitionProb>) -> Map<char, Seq<(char, u64)>>
    decreases records.len(),
{
    if records.len() == 0 {
        Map::empty()
    } else {
        with_transition(transitions(records.drop_last()), records.last())
    }
}

/// The probability that `table` gives to the jump from `origin` to `dest`,
/// if it has one.
pub open spec fn probability(
    table: Map<char, Seq<(char, u64)>>,
    origin: char,
    dest: char,
) -> Option<u64> {
    if table.contains_key(origin) && has_key(table[origin], dest) {
        Some(as_map(table[origin])[dest])
    } else {
        None
    }
}

/// The probability that the last record of the jump from `origin` to
/// `dest` gives it, if a record names that jump.
pub open spec fn last_written(records: Seq<TransitionProb>, origin: char, dest: char) -> Option<
    u64,
>
    decreases records.len(),
{
    if records.len() == 0 {
        None
    } else if records.last().origin == origin && records.last().dest == dest {
        Some(records.last().jump_prob)
    } else {
        last_written(records.drop_last(), origin, dest)
    }
}

/// Each distribution of `table` has an entry, and its destinations
/// strictly increase.
pub open spec fn rows_increase(table: Map<char, Seq<(char, u64)>>) -> bool {
    forall|origin: char| #[trigger]
        table.contains_key(origin) ==> table[origin].len() > 0 && keys_increase(table[origin])
}

/// A record keeps the distributions in order.
pub proof fn lemma_with_transition_in_order(table: Map<char, Seq<(char, u64)>>, t: TransitionProb)
    requires
        rows_increase(table),
    ensures
        rows_increase(with_transition(table, t)),
{
    let row = row_or_empty(table, t.origin);
    lemma_put(row, t.dest, t.jump_prob);
    let after = put(row, t.dest, t.jump_prob);
    assert(as_map(after).contains_key(t.dest));
    assert(after.len() > 0) by {
        let i = index_of(after, t.dest);
        assert(0 <= i < after.len());
    }
}

/// A record changes the probability of its own jump alone.
pub proof fn lemma_with_transition(
    table: Map<char, Seq<(char, u64)>>,
    t: TransitionProb,
    origin: char,
    dest: char,
)
    requires
        rows_increase(table),
    ensures
        probability(with_transition(table, t), origin, dest) == (if origin == t.origin && dest
            == t.dest {
            Some(t.jump_prob)
        } else {
            probability(table, origin, dest)
        }),
{
    let row = row_or_empty(table, t.origin);
    lemma_put(row, t.dest, t.jump_prob);
    let after = put(row, t.dest, t.jump_prob);
    assert(has_key(after, dest) == as_map(after).contains_key(dest));
    assert(has_key(row, dest) == as_map(row).contains_key(dest));
}

/// The table of a list of records keeps its distributions in order.
pub proof fn lemma_transitions_in_order(records: Seq<TransitionProb>)
    ensures
        rows_increase(transitions(records)),
    decreases records.len(),
{
    if records.len() > 0 {
        let init = records.drop_last();
        lemma_transitions_in_order(init);
        lemma_with_transition_in_order(transitions(init), records.last());
    }
}

/// The origins of the table of a list of records are those of the records.
pub proof fn lemma_transitions_origins(records: Seq<TransitionProb>, origin: char)
    ensures
        transitions(records).contains_key(origin) <==> exists|i: int|
            0 <= i < records.len() && (#[trigger] records[i]).origin == origin,
    decreases records.len(),
{
    if records.len() > 0 {
        let init = records.drop_last();
        lemma_transitions_origins(init, origin);
        if transitions(init).contains_key(origin) {
            let i = choose|i: int| 0 <= i < init.len() && (#[trigger] init[i]).origin == origin;
            assert(records[i].origin == origin);
        }
        if exists|i: int| 0 <= i < records.len() && (#[trigger] records[i]).origin == origin {
            let i = choose|i: int|
                0 <= i < records.len() && (#[trigger] records[i]).origin == origin;
            if i < init.len() {
                assert(init[i].origin == origin);
            }
        }
    }
}

/// Last write wins: the table of a list of records gives each jump the
/// probability of the last record that names it, and none to a jump that
/// no record names.
pub proof fn lemma_transitions_last_written(
    records: Seq<TransitionProb>,
    origin: char,
    dest: char,
)
    ensures
        probability(transitions(records), origin, dest) == last_written(records, origin, dest),
    decreases records.len(),
{
    if records.len() > 0 {
        let init = records.drop_last();
        lemma_transitions_in_order(init);
        lemma_with_transition(transitions(init), records.last(), origin, dest);
        lemma_transitions_last_written(init, origin, dest);
    }
}

/// A record that no later record repeats, by origin and destination, gives
/// its jump its probability.
pub proof fn lemma_last_write_wins(records: Seq<TransitionProb>, i: int)
    requires
        0 <= i < records.len(),
        forall|j: int|
            i < j < records.len() ==> !((#[trigger] records[j]).origin == records[i].origin
                && records[j].dest == records[i].dest),
    ensures
        probability(transitions(records), records[i].origin, records[i].dest) == Some(
            records[i].jump_prob,
        ),
    decreases records.len(),
{
    let init = records.drop_last();
    lemma_transitions_in_order(init);
    lemma_with_transition(transitions(init), records.last(), records[i].origin, records[i].dest);
    if i < records.len() - 1 {
        assert(!(records[records.len() - 1].origin == records[i].origin && records[records.len()
            - 1].dest == records[i].dest));
        assert(init[i] == records[i]);
        assert forall|j: int| i < j < init.len() implies !((#[trigger] init[j]).origin
            == init[i].origin && init[j].dest == init[i].dest) by {
            assert(init[j] == records[j]);
        }
        lemma_last_write_wins(init, i);
    }
}

/// A jump that no record names has no probability.
pub proof fn lemma_never_written(records: Seq<TransitionProb>, origin: char, dest: char)
    requires
        forall|i: int|
            0 <= i < records.len() ==> !((#[trigger] records[i]).origin == origin
                && records[i].dest == dest),
    ensures
        probability(transitions(records), origin, dest) is None,
    decreases records.len(),
{
    if records.len() > 0 {
        let init = records.drop_last();
        lemma_transitions_in_order(init);
        lemma_with_transition(transitions(init), records.last(), origin, dest);
        assert(!(records[records.len() - 1].origin == origin && records[records.len() - 1].dest
            == dest));
        assert forall|i: int| 0 <= i < init.len() implies !((#[trigger] init[i]).origin == origin
            && init[i].dest == dest) by {
            assert(init[i] == records[i]);
        }
        lemma_never_written(init, origin, dest);
    }
}

/// Two tables with distributions in order that give every jump the same
/// probability are the same table.
pub proof fn lemma_table_determined(
    first: Map<char, Seq<(char, u64)>>,
    second: Map<char, Seq<(char, u64)>>,
)
    requires
        rows_increase(first),
        rows_increase(second),
        forall|origin: char, dest: char|
            probability(first, origin, dest) == probability(second, origin, dest),
    ensures
        first == second,
{
    assert forall|origin: char| first.contains_key(origin) implies second.contains_key(origin)
        && first[origin] == second[origin] by {
        lemma_entry_found(first[origin], 0);
        assert(probability(first, origin, first[origin][0].0) is Some);
        assert(probability(second, origin, first[origin][0].0) is Some);
        let row = first[origin];
        let other = as_map(second[origin]);
        assert forall|i: int| 0 <= i < row.len() implies other.contains_key((#[trigger] row[i]).0)
            && other[row[i].0] == row[i].1 by {
            lemma_entry_found(row, i);
            assert(probability(first, origin, row[i].0) == probability(second, origin, row[i].0));
        }
        assert forall|dest: char| other.contains_key(dest) implies has_key(row, dest) by {
            assert(probability(first, origin, dest) == probability(second, origin, dest));
        }
        lemma_holds_map(row, other);
        lemma_entries_determined(first[origin], second[origin]);
    }
    assert forall|origin: char| second.contains_key(origin) implies first.contains_key(origin) by {
        lemma_entry_found(second[origin], 0);
        assert(probability(second, origin, second[origin][0].0) is Some);
        assert(probability(first, origin, second[origin][0].0) is Some);
    }
    assert(first =~= second);
}

/// Lists of records whose last writes agree on every jump stand for the
/// same table: a list taken twice, and lists that differ in the order of
/// their records or in records that later ones overwrite.
pub proof fn lemma_same_last_writes_same_table(
    first: Seq<TransitionProb>,
    second: Seq<TransitionProb>,
)
    requires
        forall|origin: char, dest: char|
            last_written(first, origin, dest) == last_written(second, origin, dest),
    ensures
        transitions(first) == transitions(second),
{
    lemma_transitions_in_order(first);
    lemma_transitions_in_order(second);
    assert forall|origin: char, dest: char|
        probability(transitions(first), origin, dest) == probability(
            transitions(second),
            origin,
            dest,
        ) by {
        lemma_transitions_last_written(first, origin, dest);
        lemma_transitions_last_written(second, origin, dest);
    }
    lemma_table_determined(transitions(first), transitions(second));
}

/// For each origin, the distribution of its destinations in increasing
/// order. No origin has an empty distribution.
#[derive(Debug)]
pub struct TransitionTable {
    rows: StateMap<StateMap<u64>>,
}

impl View for TransitionTable {
    type V = Map<char, Seq<(char, u64)>>;

    /// Each origin with its distribution.
    closed spec fn view(&self) -> Map<char, Seq<(char, u64)>> {
        Map::new(
            |origin: char| self.rows@.contains_key(origin),
            |origin: char| self.rows@[origin].entries(),
        )
    }
}

impl TransitionTable {
    /// Each distribution has an entry, and its destinations strictly
    /// increase.
    #[verifier::type_invariant]
    pub closed spec fn wf(&self) -> bool {
        forall|origin: char|
            self.rows@.contains_key(origin) ==> (#[trigger] self.rows@[origin]).wf()
                && self.rows@[origin].entries().len() > 0
    }

    /// What the invariant says of the view.
    pub proof fn lemma_rows_increase(&self)
        requires
            self.wf(),
        ensures
            rows_increase(self@),
    {
        assert forall|origin: char| #[trigger]
            self@.contains_key(origin) implies self@[origin].len() > 0 && keys_increase(
            self@[origin],
        ) by {
            assert(self.rows@[origin].wf());
        }
    }

    /// A table without origins.
    pub fn new() -> (table: Self)
        ensures
            table@ == Map::<char, Seq<(char, u64)>>::empty(),
    {
        let table = TransitionTable { rows: StateMap::new() };
        assert(table@ =~= Map::<char, Seq<(char, u64)>>::empty());
        table
    }

    /// Whether `origin` has a distribution.
    pub fn contains_key(&self, origin: &char) -> (found: bool)
        ensures
            found == self@.contains_key(*origin),
    {
        self.rows.contains_key(origin)
    }

    /// The distribution of `origin`, if it has one: its destinations in
    /// increasing order, at least one.
    pub fn row(&self, origin: &char) -> (row: Option<&[(char, u64)]>)
        ensures
            match row {
                Some(entries) => {
                    &&& self@.contains_key(*origin)
                    &&& entries@ == self@[*origin]
                    &&& entries@.len() > 0
                    &&& keys_increase(entries@)
                },
                None => !self@.contains_key(*origin),
            },
    {
        proof {
            use_type_invariant(self);
            self.lemma_rows_increase();
        }
        match self.rows.get(origin) {
            Some(entries) => Some(entries.as_slice()),
            None => None,
        }
    }

    /// The probability of the jump from `origin` to `dest`, if the table
    /// has one.
    pub fn probability(&self, origin: char, dest: char) -> (p: Option<u64>)
        ensures
            p == probability(self@, origin, dest),
    {
        match self.rows.get(&origin) {
            Some(row) => match row.get(&dest) {
                Some(p) => Some(*p),
                None => None,
            },
            None => None,
        }
    }

    /// Records the transition `t`, in place of an earlier one with the same
    /// origin and destination, if any.
    pub fn record(&mut self, t: &TransitionProb)
        ensures
            final(self)@ == with_transition(old(self)@, *t),
    {
        proof {
            use_type_invariant(&*self);
        }
        // The rows leave the table while they change.
        let mut rows: StateMap<StateMap<u64>> = StateMap::new();
        core::mem::swap(&mut self.rows, &mut rows);
        let mut row = match rows.remove(&t.origin) {
            Some(row) => row,
            None => StateMap::new(),
        };
        proof {
            use_type_invariant(&row);
            lemma_put(row.entries(), t.dest, t.jump_prob);
            let after = put(row.entries(), t.dest, t.jump_prob);
            assert(as_map(after).contains_key(t.dest));
            assert(0 <= index_of(after, t.dest) < after.len());
        }
        row.insert(t.dest, t.jump_prob);
        rows.insert(t.origin, row);
        core::mem::swap(&mut self.rows, &mut rows);
        assert(self@ =~= with_transition(old(self)@, *t));
    }
}

/// Builds the table of a list of records. Of two records with the same
/// origin and destination the later one counts; the probabilities are
/// taken as they are, whatever they sum to.
pub fn transition_prob_list_to_map(transition_list: &[TransitionProb]) -> (table: TransitionTable)
    ensures
        table@ == transitions(transition_list@),
        rows_increase(table@),
        forall|origin: char, dest: char|
            probability(table@, origin, dest) == #[trigger] last_written(
                transition_list@,
                origin,
                dest,
            ),
        forall|origin: char|
            table@.contains_key(origin) <==> exists|i: int|
                0 <= i < transition_list@.len() && (#[trigger] transition_list@[i]).origin
                    == origin,
{
    let mut table = TransitionTable::new();
    let mut i: usize = 0;
    while i < transition_list.len()
        invariant
            i <= transition_list@.len(),
            table@ == transitions(transition_list@.take(i as int)),
        decreases transition_list@.len() - i,
    {
        table.record(&transition_list[i]);
        proof {
            assert(transition_list@.take(i + 1).drop_last() == transition_list@.take(i as int));
        }
        i += 1;
    }
    proof {
        assert(transition_list@.take(i as int) == transition_list@);
        assert forall|origin: char, dest: char|
            probability(table@, origin, dest) == #[trigger] last_written(
                transition_list@,
                origin,
                dest,
            ) by {
            lemma_transitions_last_written(transition_list@, origin, dest);
        }
        assert forall|origin: char|
            table@.contains_key(origin) <==> exists|i: int|
                0 <= i < transition_list@.len() && (#[trigger] transition_list@[i]).origin
                    == origin by {
            lemma_transitions_origins(transition_list@, origin);
        }
        lemma_transitions_in_order(transition_list@);
    }
    table
}

} // verus!

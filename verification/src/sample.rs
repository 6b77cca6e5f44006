//! The sample chain over the states `a`, `b` and `c`.

use crate::sampler::{
    closed, complete, cumulative, knows, lemma_closed_never_fails, never_fails,
};
use crate::state_map::{has_key, index_of, lemma_entry_found};
use crate::table::{
    lemma_last_write_wins, lemma_never_written, lemma_table_determined,
    lemma_transitions_in_order, probability, transitions, TransitionProb, PROB_ONE,
};
use vstd::prelude::*;

verus! {

/// The records of the sample chain over the states `a`, `b` and `c`.
pub open spec fn sample_transition_probs() -> Seq<TransitionProb> {
    seq![
        TransitionProb { origin: 'a', dest: 'a', jump_prob: 500_000_000 },
        TransitionProb { origin: 'a', dest: 'b', jump_prob: 275_000_000 },
        TransitionProb { origin: 'a', dest: 'c', jump_prob: 225_000_000 },
        TransitionProb { origin: 'b', dest: 'a', jump_prob: 150_000_000 },
        TransitionProb { origin: 'b', dest: 'b', jump_prob: 800_000_000 },
        TransitionProb { origin: 'b', dest: 'c', jump_prob: 50_000_000 },
        TransitionProb { origin: 'c', dest: 'a', jump_prob: 250_000_000 },
        TransitionProb { origin: 'c', dest: 'b', jump_prob: 250_000_000 },
        TransitionProb { origin: 'c', dest: 'c', jump_prob: 500_000_000 },
    ]
}

/// The records of the sample chain: from `a` the walk stays with
/// probability 0.5, goes to `b` with 0.275 and to `c` with 0.225; from `b`
/// it goes to `a` with 0.15, stays with 0.8 and goes to `c` with 0.05; from
/// `c` it goes to `a` and to `b` with 0.25 each and stays with 0.5.
pub fn get_sample_transition_probs() -> (list: Vec<TransitionProb>)
    ensures
        list@ == sample_transition_probs(),
{
    let list = vec![
        TransitionProb { origin: 'a', dest: 'a', jump_prob: 500_000_000 },
        TransitionProb { origin: 'a', dest: 'b', jump_prob: 275_000_000 },
        TransitionProb { origin: 'a', dest: 'c', jump_prob: 225_000_000 },
        TransitionProb { origin: 'b', dest: 'a', jump_prob: 150_000_000 },
        TransitionProb { origin: 'b', dest: 'b', jump_prob: 800_000_000 },
        TransitionProb { origin: 'b', dest: 'c', jump_prob: 50_000_000 },
        TransitionProb { origin: 'c', dest: 'a', jump_prob: 250_000_000 },
        TransitionProb { origin: 'c', dest: 'b', jump_prob: 250_000_000 },
        TransitionProb { origin: 'c', dest: 'c', jump_prob: 500_000_000 },
    ];
    assert(list@ =~= sample_transition_probs());
    list
}

/// The table of the sample chain.
pub open spec fn sample_table() -> Map<char, Seq<(char, u64)>> {
    map![
        'a' => seq![('a', 500_000_000u64), ('b', 275_000_000u64), ('c', 225_000_000u64)],
        'b' => seq![('a', 150_000_000u64), ('b', 800_000_000u64), ('c', 50_000_000u64)],
        'c' => seq![('a', 250_000_000u64), ('b', 250_000_000u64), ('c', 500_000_000u64)],
    ]
}

/// The jump that the sample record at `i` names has that record's
/// probability in the sample table.
proof fn lemma_sample_jump(i: int)
    requires
        0 <= i < 9,
    ensures
        probability(
            sample_table(),
            sample_transition_probs()[i].origin,
            sample_transition_probs()[i].dest,
        ) == Some(sample_transition_probs()[i].jump_prob),
{
    let t = sample_transition_probs()[i];
    let row = sample_table()[t.origin];
    let at = i % 3;
    assert(row[at].0 == t.dest);
    lemma_entry_found(row, at);
}

/// The sample records stand for the sample table.
pub proof fn lemma_sample_table()
    ensures
        transitions(sample_transition_probs()) == sample_table(),
{
    let records = sample_transition_probs();
    let built = transitions(records);
    let table = sample_table();
    lemma_transitions_in_order(records);
    assert forall|origin: char, dest: char|
        probability(built, origin, dest) == probability(table, origin, dest) by {
        if exists|i: int|
            0 <= i < 9 && (#[trigger] records[i]).origin == origin && records[i].dest == dest {
            let i = choose|i: int|
                0 <= i < 9 && (#[trigger] records[i]).origin == origin && records[i].dest == dest;
            lemma_last_write_wins(records, i);
            lemma_sample_jump(i);
        } else {
            lemma_never_written(records, origin, dest);
            if table.contains_key(origin) && has_key(table[origin], dest) {
                let at = index_of(table[origin], dest);
                let i = if origin == 'a' {
                    at
                } else if origin == 'b' {
                    3 + at
                } else {
                    6 + at
                };
                assert(records[i].origin == origin && records[i].dest == dest);
            }
        }
    }
    lemma_table_determined(built, table);
}

/// The sample table is closed: each of its distributions is complete, and
/// leads to `a`, `b` or `c`.
pub proof fn lemma_sample_closed()
    ensures
        closed(sample_table()),
        sample_table().dom() == set!['a', 'b', 'c'],
{
    let table = sample_table();
    assert forall|origin: char| #[trigger] table.contains_key(origin) implies {
        &&& complete(table[origin])
        &&& forall|i: int|
            0 <= i < table[origin].len() ==> table.contains_key((#[trigger] table[origin][i]).0)
    } by {
        reveal_with_fuel(cumulative, 4);
        assert(cumulative(table[origin], 2) == PROB_ONE);
    }
    assert(table.dom() =~= set!['a', 'b', 'c']);
}

/// The table of the sample records knows `a`, `b` and `c` and never
/// fails: a walk through it from one of them does not fail, whatever is
/// drawn.
pub proof fn lemma_sample_never_fails()
    ensures
        forall|state: char| #[trigger]
            knows(transitions(sample_transition_probs()), state) <==> state == 'a' || state == 'b'
                || state == 'c',
        never_fails(transitions(sample_transition_probs())),
{
    lemma_sample_table();
    lemma_sample_closed();
    lemma_closed_never_fails(sample_table());
}

} // verus!

//! The histogram as text: one line for each visited state.

use crate::state_map::StateMap;
use vstd::prelude::*;

verus! {

/// `String::push` of std: the string afterwards is the string before with
/// `ch` at its end.
pub assume_specification[ String::push ](s: &mut String, ch: char)
    ensures
        final(s)@ == old(s)@.push(ch),
;

/// The character of the decimal digit `d`.
pub open spec fn digit(d: int) -> char {
    ('0' as int + d) as char
}

/// The decimal digits of `n`, the most significant first.
pub open spec fn natural(n: nat) -> Seq<char>
    decreases n,
{
    if n < 10 {
        seq![digit(n as int)]
    } else {
        natural(n / 10).push(digit((n % 10) as int))
    }
}

/// `n` in decimal, with a minus sign before the digits of a negative
/// number.
pub open spec fn decimal(n: int) -> Seq<char> {
    if n < 0 {
        seq!['-'] + natural((-n) as nat)
    } else {
        natural(n as nat)
    }
}

/// The line of one state: the state, `" - "`, its count, and a line feed.
pub open spec fn line(state: char, count: i64) -> Seq<char> {
    seq![state, ' ', '-', ' '] + decimal(count as int) + seq!['\n']
}

/// The lines of `entries`, in their order.
pub open spec fn lines(entries: Seq<(char, i64)>) -> Seq<char>
    decreases entries.len(),
{
    if entries.len() == 0 {
        Seq::empty()
    } else {
        lines(entries.drop_last()) + line(entries.last().0, entries.last().1)
    }
}

/// The character of the digit `d`.
fn digit_char(d: u64) -> (c: char)
    requires
        d < 10,
    ensures
        c == digit(d as int),
{
    (48u8 + d as u8) as char
}

/// Appends the decimal digits of `n` to `out`.
fn push_natural(out: &mut String, n: u64)
    ensures
        final(out)@ == old(out)@ + natural(n as nat),
    decreases n,
{
    if n >= 10 {
        push_natural(out, n / 10);
    }
    out.push(digit_char(n % 10));
    assert(out@ =~= old(out)@ + natural(n as nat));
}

/// Appends `n` in decimal to `out`.
pub fn push_decimal(out: &mut String, n: i64)
    ensures
        final(out)@ == old(out)@ + decimal(n as int),
{
    if n < 0 {
        out.push('-');
        push_natural(out, (-(n + 1)) as u64 + 1);
    } else {
        push_natural(out, n as u64);
    }
    assert(out@ =~= old(out)@ + decimal(n as int));
}

/// Renders the histogram: for each state, in increasing order of the
/// states, the line `"<state> - <count>"`.
pub fn visits_histogram_to_string(visits_hist: &StateMap<i64>) -> (output: String)
    ensures
        output@ == lines(visits_hist.entries()),
{
    let entries = visits_hist.as_slice();
    let mut output = String::new();
    let mut i: usize = 0;
    while i < entries.len()
        invariant
            i <= entries@.len(),
            output@ == lines(entries@.take(i as int)),
        decreases entries@.len() - i,
    {
        let (state, number_of_visits) = entries[i];
        let ghost before = output@;
        output.push(state);
        output.push(' ');
        output.push('-');
        output.push(' ');
        push_decimal(&mut output, number_of_visits);
        output.push('\n');
        proof {
            assert(entries@.take(i + 1).drop_last() == entries@.take(i as int));
            assert(output@ =~= before + line(state, number_of_visits));
        }
        i += 1;
    }
    proof {
        assert(entries@.take(i as int) == entries@);
    }
    output
}

} // verus!

//! The decisions of a quiz session: reading a mode, a menu choice and an
//! answer, and what an answer does to the score and the ledger.

use vstd::prelude::*;
use crate::text::{chars_of, decimal_value, is_u64_decimal, parse_decimal};
use crate::question::{Question, identity_of, hash_question};
use crate::ledger::{Ledger, count_in, next_count};
use crate::selection::Policy;

verus! {

/// The positive integer that `s` writes in decimal, if it writes one that
/// fits in a `u64`.
pub open spec fn positive_number(s: Seq<char>) -> Option<nat> {
    if is_u64_decimal(s) && decimal_value(s) > 0 {
        Some(decimal_value(s))
    } else {
        None
    }
}

/// Reads an answer: `Some` of the number when the (trimmed) input is a
/// positive decimal integer, `None` otherwise.
pub fn parse_choice(input: &str) -> (r: Option<u64>)
    ensures
        match positive_number(input@) {
            Some(n) => r == Some(n as u64),
            None => r is None,
        },
{
    let v = chars_of(input);
    assert(v@.subrange(0, v@.len() as int) =~= v@);
    match parse_decimal(&v, 0, v.len()) {
        Some(n) => if n > 0 {
            Some(n)
        } else {
            None
        },
        None => None,
    }
}

/// Reads the mode prompt: the number 2 chooses the miss-weighted policy,
/// anything else the random one.
pub fn parse_policy(input: &str) -> (r: Policy)
    ensures
        r is MissWeighted <==> positive_number(input@) == Some(2nat),
{
    match parse_choice(input) {
        Some(n) => if n == 2 {
            Policy::MissWeighted
        } else {
            Policy::Random
        },
        None => Policy::Random,
    }
}

/// Reads a 1-based menu choice among `count` entries: the 0-based position,
/// or `None` for a non-numeric or out-of-range choice.
pub fn select_file(input: &str, count: usize) -> (r: Option<usize>)
    ensures
        match positive_number(input@) {
            Some(n) => if n <= count {
                r == Some((n - 1) as usize)
            } else {
                r is None
            },
            None => r is None,
        },
{
    match parse_choice(input) {
        Some(n) => if n <= count as u64 {
            Some((n - 1) as usize)
        } else {
            None
        },
        None => None,
    }
}

/// What one answer to a question came to.
pub enum AnswerOutcome {
    /// The input was not a positive integer: nothing changed, and the same
    /// question is to be asked again.
    Invalid,
    /// The chosen option was the correct one.
    Correct,
    /// Another number was chosen; the correct option was `answer`.
    Wrong { answer: usize },
}

/// Takes one line of (trimmed) input as the answer to `question`. A
/// non-numeric input changes nothing. A number equal to the 1-based correct
/// option adds one to `score` and records a correct answer in the ledger;
/// any other number, in range or not, records a wrong one.
pub fn answer(ledger: &mut Ledger, score: &mut u64, question: &Question, input: &str) -> (r:
    AnswerOutcome)
    requires
        old(ledger).wf(),
        *old(score) < u64::MAX,
    ensures
        final(ledger).wf(),
        match positive_number(input@) {
            None => r is Invalid && *final(score) == *old(score) && final(ledger)@ == old(ledger)@,
            Some(n) => {
                let correct = n == question.answer as nat;
                let id = identity_of(question@);
                &&& final(ledger)@ == old(ledger)@.insert(
                    id,
                    (next_count(count_in(old(ledger)@, id), correct), question.question@),
                )
                &&& if correct {
                    r is Correct && *final(score) == *old(score) + 1
                } else {
                    r == (AnswerOutcome::Wrong { answer: question.answer }) && *final(score)
                        == *old(score)
                }
            },
        },
{
    match parse_choice(input) {
        None => AnswerOutcome::Invalid,
        Some(n) => {
            let id = hash_question(question);
            let correct = n == question.answer as u64;
            ledger.record_result(id, question.question.clone(), correct);
            if correct {
                *score = *score + 1;
                AnswerOutcome::Correct
            } else {
                AnswerOutcome::Wrong { answer: question.answer }
            }
        },
    }
}

} // verus!

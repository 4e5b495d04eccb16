//! Rock-paper-scissors rounds: scoring, strategy parsing, and the choice a
//! recommended outcome implies.
use vstd::prelude::*;

use crate::text::{chars_of, split_raw, split_fields};

verus! {

#[derive(PartialEq, Eq, Structural, Clone, Copy, Debug)]
pub enum Choice {
    Rock,
    Paper,
    Scissor,
}

#[derive(PartialEq, Eq, Structural, Clone, Copy, Debug)]
pub enum RoundResult {
    Win,
    Draw,
    Loss,
}

/// The score of a choice: rock 1, paper 2, scissors 3.
pub open spec fn choice_value(c: Choice) -> u32 {
    match c {
        Choice::Rock => 1,
        Choice::Paper => 2,
        Choice::Scissor => 3,
    }
}

/// The score of an outcome: win 6, draw 3, loss 0.
pub open spec fn result_value(r: RoundResult) -> u32 {
    match r {
        RoundResult::Win => 6,
        RoundResult::Draw => 3,
        RoundResult::Loss => 0,
    }
}

impl Choice {
    pub fn value(self) -> (r: u32)
        ensures
            r == choice_value(self),
    {
        match self {
            Choice::Rock => 1,
            Choice::Paper => 2,
            Choice::Scissor => 3,
        }
    }
}

impl RoundResult {
    pub fn value(self) -> (r: u32)
        ensures
            r == result_value(self),
    {
        match self {
            RoundResult::Win => 6,
            RoundResult::Draw => 3,
            RoundResult::Loss => 0,
        }
    }
}

/// The opponent's choice named by the first field: A rock, B paper, C
/// scissors.
pub open spec fn their_choice(t: Seq<char>) -> Option<Choice> {
    if t == "A"@ {
        Some(Choice::Rock)
    } else if t == "B"@ {
        Some(Choice::Paper)
    } else if t == "C"@ {
        Some(Choice::Scissor)
    } else {
        None
    }
}

/// The choice read from the last field under the first interpretation: X
/// rock, Y paper, Z scissors.
pub open spec fn our_choice(t: Seq<char>) -> Option<Choice> {
    if t == "X"@ {
        Some(Choice::Rock)
    } else if t == "Y"@ {
        Some(Choice::Paper)
    } else if t == "Z"@ {
        Some(Choice::Scissor)
    } else {
        None
    }
}

/// The outcome read from the last field under the second interpretation: X
/// lose, Y draw, Z win.
pub open spec fn recommended_result(t: Seq<char>) -> Option<RoundResult> {
    if t == "X"@ {
        Some(RoundResult::Loss)
    } else if t == "Y"@ {
        Some(RoundResult::Draw)
    } else if t == "Z"@ {
        Some(RoundResult::Win)
    } else {
        None
    }
}

/// What parsing one strategy line yields: the first blank-separated field
/// names the opponent's choice and the last field both our misread choice and
/// the recommended outcome; any unreadable field makes the line invalid.
pub open spec fn spec_parse_recommendation(s: Seq<char>) -> Option<(
    Choice,
    Choice,
    RoundResult,
)> {
    let fields = split_raw(s, ' ');
    let first = fields[0];
    let last = fields[fields.len() - 1];
    if their_choice(first) is Some && our_choice(last) is Some && recommended_result(
        last,
    ) is Some {
        Some(
            (
                their_choice(first)->Some_0,
                our_choice(last)->Some_0,
                recommended_result(last)->Some_0,
            ),
        )
    } else {
        None
    }
}

/// Reads one strategy line such as `A Y`.
pub fn parse_recommendation(input: &str) -> (r: Option<(Choice, Choice, RoundResult)>)
    ensures
        r == spec_parse_recommendation(input@),
{
    proof {
        reveal_strlit("A");
        reveal_strlit("B");
        reveal_strlit("C");
        reveal_strlit("X");
        reveal_strlit("Y");
        reveal_strlit("Z");
    }
    let cs = chars_of(input);
    let fields = split_fields(&cs, ' ');
    let first = &fields[0];
    let last = &fields[fields.len() - 1];
    let theirs = if first.len() == 1 && first[0] == 'A' {
        Some(Choice::Rock)
    } else if first.len() == 1 && first[0] == 'B' {
        Some(Choice::Paper)
    } else if first.len() == 1 && first[0] == 'C' {
        Some(Choice::Scissor)
    } else {
        None
    };
    let ours = if last.len() == 1 && last[0] == 'X' {
        Some(Choice::Rock)
    } else if last.len() == 1 && last[0] == 'Y' {
        Some(Choice::Paper)
    } else if last.len() == 1 && last[0] == 'Z' {
        Some(Choice::Scissor)
    } else {
        None
    };
    let outcome = if last.len() == 1 && last[0] == 'X' {
        Some(RoundResult::Loss)
    } else if last.len() == 1 && last[0] == 'Y' {
        Some(RoundResult::Draw)
    } else if last.len() == 1 && last[0] == 'Z' {
        Some(RoundResult::Win)
    } else {
        None
    };
    proof {
        let f = fields@[0]@;
        let l = fields@[fields@.len() - 1]@;
        assert(f.len() == 1 && f[0] == 'A' ==> f =~= "A"@);
        assert(f.len() == 1 && f[0] == 'B' ==> f =~= "B"@);
        assert(f.len() == 1 && f[0] == 'C' ==> f =~= "C"@);
        assert(l.len() == 1 && l[0] == 'X' ==> l =~= "X"@);
        assert(l.len() == 1 && l[0] == 'Y' ==> l =~= "Y"@);
        assert(l.len() == 1 && l[0] == 'Z' ==> l =~= "Z"@);
    }
    match (theirs, ours, outcome) {
        (Some(t), Some(o), Some(rec)) => Some((t, o, rec)),
        _ => None,
    }
}

/// The choice that forces the recommended outcome against the opponent's
/// choice; a recommended draw means copying them.
pub open spec fn spec_implied_choice(other: Choice, outcome: RoundResult) -> Choice {
    match (other, outcome) {
        (Choice::Rock, RoundResult::Loss) => Choice::Scissor,
        (Choice::Rock, RoundResult::Win) => Choice::Paper,
        (Choice::Paper, RoundResult::Loss) => Choice::Rock,
        (Choice::Paper, RoundResult::Win) => Choice::Scissor,
        (Choice::Scissor, RoundResult::Loss) => Choice::Paper,
        (Choice::Scissor, RoundResult::Win) => Choice::Rock,
        _ => other,
    }
}

pub fn implied_choice(other_choice: Choice, recommended_outcome: RoundResult) -> (r: Choice)
    ensures
        r == spec_implied_choice(other_choice, recommended_outcome),
{
    match (other_choice, recommended_outcome) {
        (Choice::Rock, RoundResult::Loss) => Choice::Scissor,
        (Choice::Rock, RoundResult::Win) => Choice::Paper,
        (Choice::Paper, RoundResult::Loss) => Choice::Rock,
        (Choice::Paper, RoundResult::Win) => Choice::Scissor,
        (Choice::Scissor, RoundResult::Loss) => Choice::Paper,
        (Choice::Scissor, RoundResult::Win) => Choice::Rock,
        _ => other_choice,
    }
}

pub struct Round {
    pub ours: Choice,
    pub theirs: Choice,
}

/// The outcome of a round from our side.
pub open spec fn spec_round_result(ours: Choice, theirs: Choice) -> RoundResult {
    match (ours, theirs) {
        (Choice::Paper, Choice::Scissor) => RoundResult::Loss,
        (Choice::Paper, Choice::Rock) => RoundResult::Win,
        (Choice::Rock, Choice::Paper) => RoundResult::Loss,
        (Choice::Rock, Choice::Scissor) => RoundResult::Win,
        (Choice::Scissor, Choice::Rock) => RoundResult::Loss,
        (Choice::Scissor, Choice::Paper) => RoundResult::Win,
        _ => RoundResult::Draw,
    }
}

impl Round {
    pub fn result(self) -> (r: RoundResult)
        ensures
            r == spec_round_result(self.ours, self.theirs),
    {
        match (&self.ours, &self.theirs) {
            (Choice::Paper, Choice::Scissor) => RoundResult::Loss,
            (Choice::Paper, Choice::Rock) => RoundResult::Win,
            (Choice::Rock, Choice::Paper) => RoundResult::Loss,
            (Choice::Rock, Choice::Scissor) => RoundResult::Win,
            (Choice::Scissor, Choice::Rock) => RoundResult::Loss,
            (Choice::Scissor, Choice::Paper) => RoundResult::Win,
            _ => RoundResult::Draw,
        }
    }

    /// The round's score: the value of our choice plus the value of the
    /// outcome.
    pub fn points(self) -> (r: u32)
        ensures
            r == choice_value(self.ours) + result_value(
                spec_round_result(self.ours, self.theirs),
            ),
    {
        self.ours.value() + self.result().value()
    }

    pub fn new(ours: Choice, theirs: Choice) -> (r: Round)
        ensures
            r == (Round { ours, theirs }),
    {
        Round { ours, theirs }
    }
}

} // verus!

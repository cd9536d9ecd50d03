//! Rock paper scissors, read in two steps: first the two letters of each line, then the
//! rounds that the letters stand for under either reading of the guide.

use vstd::prelude::*;
use crate::day02::{
    defeats, outcome_of, shape_for, shape_of, wanted_outcome, Outcome, Round, Shape,
};
use crate::text::{chars_of, gather, lines, lines_seq, texts};

verus! {

impl Shape {
    /// The shape that a letter stands for: `A` or `X` rock, `B` or `Y` paper, `C` or `Z`
    /// scissors.
    pub fn from_char(c: char) -> (r: Option<Shape>)
        ensures
            r == shape_of(c),
    {
        match c {
            'A' | 'X' => Some(Shape::Rock),
            'B' | 'Y' => Some(Shape::Paper),
            'C' | 'Z' => Some(Shape::Scissors),
            _ => None,
        }
    }

    /// The shape to show against `self` so that the round ends with `outcome`.
    pub fn for_outcome(&self, outcome: Outcome) -> (r: Shape)
        ensures
            r == shape_for(*self, outcome),
            outcome_of(r, *self) == outcome,
    {
        match outcome {
            Outcome::Draw => *self,
            Outcome::Lost => match self {
                Shape::Rock => Shape::Scissors,
                Shape::Paper => Shape::Rock,
                Shape::Scissors => Shape::Paper,
            },
            Outcome::Won => match self {
                Shape::Rock => Shape::Paper,
                Shape::Paper => Shape::Scissors,
                Shape::Scissors => Shape::Rock,
            },
        }
    }
}

/// The first and the third character of a line.
pub open spec fn letters(line: Seq<char>) -> Option<(char, char)> {
    if line.len() < 3 {
        None
    } else {
        Some((line[0], line[2]))
    }
}

/// The letters of each line of the guide.
pub open spec fn letter_pairs(input: Seq<char>) -> Option<Seq<(char, char)>> {
    let ls = lines_seq(input);
    gather(Seq::new(ls.len(), |i: int| letters(ls[i])))
}

/// The round that two letters tell when the second is what the player shows.
pub open spec fn round_shown(pair: (char, char)) -> Option<Round> {
    match (shape_of(pair.0), shape_of(pair.1)) {
        (Some(opponent), Some(player)) => Some(Round(player, opponent)),
        _ => None,
    }
}

/// The round that two letters tell when the second is how the round must end.
pub open spec fn round_wanted(pair: (char, char)) -> Option<Round> {
    match (shape_of(pair.0), wanted_outcome(pair.1)) {
        (Some(opponent), Some(outcome)) => Some(Round(shape_for(opponent, outcome), opponent)),
        _ => None,
    }
}

/// Reads the first and the third character of each line; `None` where a line is shorter
/// than three characters.
pub fn parse(input: &str) -> (r: Option<Vec<(char, char)>>)
    ensures
        match r {
            Some(pairs) => letter_pairs(input@) == Some(pairs@),
            None => letter_pairs(input@) is None,
        },
{
    let ls = lines(input);
    let ghost items = Seq::new(texts(ls@).len(), |i: int| letters(texts(ls@)[i]));
    let mut pairs: Vec<(char, char)> = Vec::new();
    let mut i: usize = 0;
    while i < ls.len()
        invariant
            i <= ls.len(),
            texts(ls@) == lines_seq(input@),
            items == Seq::new(texts(ls@).len(), |i: int| letters(texts(ls@)[i])),
            pairs.len() == i,
            forall|j: int| 0 <= j < i ==> (#[trigger] items[j]) == Some(pairs[j]),
        decreases ls.len() - i,
    {
        assert(texts(ls@)[i as int] == ls[i as int]@);
        let chars = chars_of(ls[i]);
        if chars.len() < 3 {
            assert(items[i as int] is None);
            return None;
        }
        pairs.push((chars[0], chars[2]));
        i += 1;
    }
    proof {
        assert(items.len() == pairs.len());
        assert forall|j: int| 0 <= j < items.len() implies (#[trigger] items[j]) is Some by {
            assert(items[j] == Some(pairs[j]));
        }
        assert(gather(items)->0 =~= pairs@);
    }
    Some(pairs)
}

/// The rounds when the second letter is what the player shows; `None` where a letter
/// stands for no shape.
pub fn part_one_rounds(input: &[(char, char)]) -> (r: Option<Vec<Round>>)
    ensures
        match r {
            Some(rounds) => gather(Seq::new(input@.len(), |i: int| round_shown(input@[i])))
                == Some(rounds@),
            None => gather(Seq::new(input@.len(), |i: int| round_shown(input@[i]))) is None,
        },
{
    let ghost items = Seq::new(input@.len(), |i: int| round_shown(input@[i]));
    let mut rounds: Vec<Round> = Vec::new();
    let mut i: usize = 0;
    while i < input.len()
        invariant
            i <= input.len(),
            items == Seq::new(input@.len(), |i: int| round_shown(input@[i])),
            rounds.len() == i,
            forall|j: int| 0 <= j < i ==> (#[trigger] items[j]) == Some(rounds[j]),
        decreases input.len() - i,
    {
        let (opponent_c, player_c) = input[i];
        match (Shape::from_char(opponent_c), Shape::from_char(player_c)) {
            (Some(opponent), Some(player)) => {
                rounds.push(Round(player, opponent));
            },
            _ => {
                assert(items[i as int] is None);
                return None;
            },
        }
        i += 1;
    }
    proof {
        assert(items.len() == rounds.len());
        assert forall|j: int| 0 <= j < items.len() implies (#[trigger] items[j]) is Some by {
            assert(items[j] == Some(rounds[j]));
        }
        assert(gather(items)->0 =~= rounds@);
    }
    Some(rounds)
}

/// The rounds when the second letter is how the round must end; `None` where the first
/// letter stands for no shape or the second for no outcome.
pub fn part_two_rounds(input: &[(char, char)]) -> (r: Option<Vec<Round>>)
    ensures
        match r {
            Some(rounds) => gather(Seq::new(input@.len(), |i: int| round_wanted(input@[i])))
                == Some(rounds@),
            None => gather(Seq::new(input@.len(), |i: int| round_wanted(input@[i]))) is None,
        },
{
    let ghost items = Seq::new(input@.len(), |i: int| round_wanted(input@[i]));
    let mut rounds: Vec<Round> = Vec::new();
    let mut i: usize = 0;
    while i < input.len()
        invariant
            i <= input.len(),
            items == Seq::new(input@.len(), |i: int| round_wanted(input@[i])),
            rounds.len() == i,
            forall|j: int| 0 <= j < i ==> (#[trigger] items[j]) == Some(rounds[j]),
        decreases input.len() - i,
    {
        let (opponent_c, outcome_c) = input[i];
        match (Shape::from_char(opponent_c), Outcome::from_char(outcome_c)) {
            (Some(opponent), Some(desired_outcome)) => {
                let player = opponent.for_outcome(desired_outcome);
                rounds.push(Round(player, opponent));
            },
            _ => {
                assert(items[i as int] is None);
                return None;
            },
        }
        i += 1;
    }
    proof {
        assert(items.len() == rounds.len());
        assert forall|j: int| 0 <= j < items.len() implies (#[trigger] items[j]) is Some by {
            assert(items[j] == Some(rounds[j]));
        }
        assert(gather(items)->0 =~= rounds@);
    }
    Some(rounds)
}

} // verus!

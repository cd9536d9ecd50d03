//! Rock paper scissors: a strategy guide, a round to a line.

use vstd::prelude::*;
use crate::text::{chars_of, gather, lines, lines_seq, texts};

verus! {

/// What has a score.
pub trait HasScore {
    /// The score, as specifications see it.
    spec fn points(&self) -> nat;

    /// The score.
    fn score(&self) -> (s: u32)
        ensures
            s == self.points(),
    ;
}

/// What a player shows.
#[derive(PartialEq, Eq, Structural, Debug, Copy, Clone)]
pub enum Shape {
    Rock,
    Paper,
    Scissors,
}

/// How a round ends for the player.
#[derive(PartialEq, Eq, Structural, Debug, Copy, Clone)]
pub enum Outcome {
    Lost,
    Draw,
    Won,
}

/// A round: what the player shows, then what the opponent shows.
#[derive(PartialEq, Eq, Debug)]
pub struct Round(pub Shape, pub Shape);

/// The shape that `shape` defeats.
pub open spec fn defeats(shape: Shape) -> Shape {
    match shape {
        Shape::Rock => Shape::Scissors,
        Shape::Paper => Shape::Rock,
        Shape::Scissors => Shape::Paper,
    }
}

/// How a round ends for a player who shows `player` against `opponent`.
pub open spec fn outcome_of(player: Shape, opponent: Shape) -> Outcome {
    if player == opponent {
        Outcome::Draw
    } else if defeats(player) == opponent {
        Outcome::Won
    } else {
        Outcome::Lost
    }
}

/// The shape that a letter of the guide stands for.
pub open spec fn shape_of(c: char) -> Option<Shape> {
    if c == 'A' || c == 'X' {
        Some(Shape::Rock)
    } else if c == 'B' || c == 'Y' {
        Some(Shape::Paper)
    } else if c == 'C' || c == 'Z' {
        Some(Shape::Scissors)
    } else {
        None
    }
}

/// The outcome that a letter of the guide stands for.
pub open spec fn wanted_outcome(c: char) -> Option<Outcome> {
    if c == 'X' {
        Some(Outcome::Lost)
    } else if c == 'Y' {
        Some(Outcome::Draw)
    } else if c == 'Z' {
        Some(Outcome::Won)
    } else {
        None
    }
}

/// The shape that ends a round with `outcome` for the player who shows it against
/// `opponent`.
pub open spec fn shape_for(opponent: Shape, outcome: Outcome) -> Shape {
    match outcome {
        Outcome::Draw => opponent,
        Outcome::Lost => defeats(opponent),
        Outcome::Won => defeats(defeats(opponent)),
    }
}

impl HasScore for Shape {
    open spec fn points(&self) -> nat {
        match *self {
            Shape::Rock => 1,
            Shape::Paper => 2,
            Shape::Scissors => 3,
        }
    }

    fn score(&self) -> (s: u32) {
        match self {
            Shape::Rock => 1,
            Shape::Paper => 2,
            Shape::Scissors => 3,
        }
    }
}

impl Shape {
    /// The shape that a letter stands for: `A` or `X` rock, `B` or `Y` paper, `C` or `Z`
    /// scissors.
    pub fn new(c: char) -> (r: Option<Shape>)
        ensures
            r == shape_of(c),
    {
        match c {
            'A' | 'X' => Some(Shape::Rock),
            'B' | 'Y' => Some(Shape::Paper),
            'C' | 'Z' => Some(Shape::Scissors),
            _ => None,
        }
    }
}

impl HasScore for Outcome {
    open spec fn points(&self) -> nat {
        match *self {
            Outcome::Lost => 0,
            Outcome::Draw => 3,
            Outcome::Won => 6,
        }
    }

    fn score(&self) -> (s: u32) {
        match self {
            Outcome::Lost => 0,
            Outcome::Draw => 3,
            Outcome::Won => 6,
        }
    }
}

impl Outcome {
    /// The outcome that a letter stands for: `X` lost, `Y` draw, `Z` won.
    pub fn from_char(c: char) -> (r: Option<Outcome>)
        ensures
            r == wanted_outcome(c),
    {
        match c {
            'X' => Some(Outcome::Lost),
            'Y' => Some(Outcome::Draw),
            'Z' => Some(Outcome::Won),
            _ => None,
        }
    }
}

impl Round {
    /// How the round ends for the player.
    pub fn outcome(&self) -> (r: Outcome)
        ensures
            r == outcome_of(self.0, self.1),
    {
        if self.0 == self.1 {
            return Outcome::Draw;
        }
        match self.0 {
            Shape::Rock => {
                if self.1 == Shape::Scissors {
                    Outcome::Won
                } else {
                    Outcome::Lost
                }
            },
            Shape::Paper => {
                if self.1 == Shape::Rock {
                    Outcome::Won
                } else {
                    Outcome::Lost
                }
            },
            Shape::Scissors => {
                if self.1 == Shape::Paper {
                    Outcome::Won
                } else {
                    Outcome::Lost
                }
            },
        }
    }
}

impl HasScore for Round {
    open spec fn points(&self) -> nat {
        self.0.points() + outcome_of(self.0, self.1).points()
    }

    fn score(&self) -> (s: u32) {
        self.0.score() + self.outcome().score()
    }
}

/// The round that a line tells when its third character is what the player shows.
pub open spec fn round_shown(line: Seq<char>) -> Option<Round> {
    if line.len() < 3 {
        None
    } else {
        match (shape_of(line[0]), shape_of(line[2])) {
            (Some(opponent), Some(player)) => Some(Round(player, opponent)),
            _ => None,
        }
    }
}

/// The round that a line tells when its third character is how the round must end.
pub open spec fn round_wanted(line: Seq<char>) -> Option<Round> {
    if line.len() < 3 {
        None
    } else {
        match (shape_of(line[0]), wanted_outcome(line[2])) {
            (Some(opponent), Some(outcome)) => Some(Round(shape_for(opponent, outcome), opponent)),
            _ => None,
        }
    }
}

/// The rounds of a guide whose third column is what the player shows.
pub open spec fn rounds_shown(input: Seq<char>) -> Option<Seq<Round>> {
    let ls = lines_seq(input);
    gather(Seq::new(ls.len(), |i: int| round_shown(ls[i])))
}

/// The rounds of a guide whose third column is how the round must end.
pub open spec fn rounds_wanted(input: Seq<char>) -> Option<Seq<Round>> {
    let ls = lines_seq(input);
    gather(Seq::new(ls.len(), |i: int| round_wanted(ls[i])))
}

/// Reads the guide, taking the third column for what the player shows; `None` where a
/// line does not hold two shapes with a character between them.
pub fn parse(input: &str) -> (r: Option<Vec<Round>>)
    ensures
        match r {
            Some(rounds) => rounds_shown(input@) == Some(rounds@),
            None => rounds_shown(input@) is None,
        },
{
    let ls = lines(input);
    let ghost items = Seq::new(texts(ls@).len(), |i: int| round_shown(texts(ls@)[i]));
    let mut rounds: Vec<Round> = Vec::new();
    let mut i: usize = 0;
    while i < ls.len()
        invariant
            i <= ls.len(),
            texts(ls@) == lines_seq(input@),
            items == Seq::new(texts(ls@).len(), |i: int| round_shown(texts(ls@)[i])),
            rounds.len() == i,
            forall|j: int| 0 <= j < i ==> (#[trigger] items[j]) == Some(rounds[j]),
        decreases ls.len() - i,
    {
        assert(texts(ls@)[i as int] == ls[i as int]@);
        let chars = chars_of(ls[i]);
        if chars.len() < 3 {
            assert(items[i as int] is None);
            return None;
        }
        match (Shape::new(chars[0]), Shape::new(chars[2])) {
            (Some(opponent), Some(player)) => {
                rounds.push(Round(player, opponent));
            },
            _ => {
                assert(items[i as int] is None);
                return None;
            },
        }
        i += 1;
    }
    proof {
        assert(items.len() == rounds.len());
        assert forall|j: int| 0 <= j < items.len() implies (#[trigger] items[j]) is Some by {
            assert(items[j] == Some(rounds[j]));
        }
        assert(gather(items)->0 =~= rounds@);
    }
    Some(rounds)
}

/// Reads the guide, taking the third column for how the round must end, and gives the
/// player the shape that ends it so; `None` where a line does not hold a shape and an
/// outcome with a character between them.
pub fn alt_parse(input: &str) -> (r: Option<Vec<Round>>)
    ensures
        match r {
            Some(rounds) => rounds_wanted(input@) == Some(rounds@),
            None => rounds_wanted(input@) is None,
        },
{
    let ls = lines(input);
    let ghost items = Seq::new(texts(ls@).len(), |i: int| round_wanted(texts(ls@)[i]));
    let mut rounds: Vec<Round> = Vec::new();
    let mut i: usize = 0;
    while i < ls.len()
        invariant
            i <= ls.len(),
            texts(ls@) == lines_seq(input@),
            items == Seq::new(texts(ls@).len(), |i: int| round_wanted(texts(ls@)[i])),
            rounds.len() == i,
            forall|j: int| 0 <= j < i ==> (#[trigger] items[j]) == Some(rounds[j]),
        decreases ls.len() - i,
    {
        assert(texts(ls@)[i as int] == ls[i as int]@);
        let chars = chars_of(ls[i]);
        if chars.len() < 3 {
            assert(items[i as int] is None);
            return None;
        }
        match (Shape::new(chars[0]), Outcome::from_char(chars[2])) {
            (Some(opponent), Some(desired_outcome)) => {
                let player = match desired_outcome {
                    Outcome::Draw => opponent,
                    Outcome::Lost => match opponent {
                        Shape::Rock => Shape::Scissors,
                        Shape::Paper => Shape::Rock,
                        Shape::Scissors => Shape::Paper,
                    },
                    Outcome::Won => match opponent {
                        Shape::Rock => Shape::Paper,
                        Shape::Paper => Shape::Scissors,
                        Shape::Scissors => Shape::Rock,
                    },
                };
                rounds.push(Round(player, opponent));
            },
            _ => {
                assert(items[i as int] is None);
                return None;
            },
        }
        i += 1;
    }
    proof {
        assert(items.len() == rounds.len());
        assert forall|j: int| 0 <= j < items.len() implies (#[trigger] items[j]) is Some by {
            assert(items[j] == Some(rounds[j]));
        }
        assert(gather(items)->0 =~= rounds@);
    }
    Some(rounds)
}

/// The player's score over a sequence of rounds.
pub open spec fn total_score(rounds: Seq<Round>) -> nat
    decreases rounds.len(),
{
    if rounds.len() == 0 {
        0
    } else {
        total_score(rounds.drop_last()) + rounds.last().points()
    }
}

/// The score over the first rounds is no larger than the score over all of them.
pub proof fn lemma_total_score_prefix(rounds: Seq<Round>, k: int)
    requires
        0 <= k <= rounds.len(),
    ensures
        total_score(rounds.take(k)) <= total_score(rounds),
    decreases rounds.len() - k,
{
    if k < rounds.len() {
        assert(rounds.take(k + 1).drop_last() =~= rounds.take(k));
        lemma_total_score_prefix(rounds, k + 1);
    } else {
        assert(rounds.take(k) =~= rounds);
    }
}

/// No round scores more than 9, so no sequence of rounds scores more than 9 a round.
pub proof fn lemma_total_score_bound(rounds: Seq<Round>)
    ensures
        total_score(rounds) <= 9 * rounds.len(),
    decreases rounds.len(),
{
    if rounds.len() > 0 {
        lemma_total_score_bound(rounds.drop_last());
    }
}

/// The player's score over all rounds.
pub fn player_score(rounds: Vec<Round>) -> (total: u32)
    requires
        total_score(rounds@) <= u32::MAX,
    ensures
        total == total_score(rounds@),
{
    let mut total: u32 = 0;
    let mut i: usize = 0;
    assert(rounds@.take(0) =~= Seq::empty());
    while i < rounds.len()
        invariant
            i <= rounds.len(),
            total == total_score(rounds@.take(i as int)),
            total_score(rounds@) <= u32::MAX,
        decreases rounds.len() - i,
    {
        proof {
            assert(rounds@.take(i + 1).drop_last() =~= rounds@.take(i as int));
            lemma_total_score_prefix(rounds@, i + 1);
        }
        total = total + rounds[i].score();
        i += 1;
    }
    assert(rounds@.take(i as int) =~= rounds@);
    total
}

} // verus!

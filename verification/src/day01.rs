//! Calorie counting: the food that each elf carries, one number to a line, the elves
//! parted by empty lines.

use vstd::prelude::*;
use vstd::relations::{sorted_by, total_ordering};
use vstd::seq_lib::{lemma_sorted_unique, to_multiset_len};
use crate::text::{parse_usize, split, split_seq, texts, usize_value};
use crate::trusted::sort;

verus! {

/// Why a list of calories could not be read.
#[derive(Debug, PartialEq, Eq, Clone, Copy)]
pub enum ParseError {
    /// A line that is not empty holds no number that a `usize` can hold.
    InvalidNumber,
    /// What one elf carries is more than a `usize` can hold.
    TooLarge,
}

/// The elves whose lists have ended, and the sum of the list that is being read.
pub struct Tally {
    pub elves: Seq<usize>,
    pub sum: usize,
}

/// The tally after the first `n` lines.
pub open spec fn tally(ls: Seq<Seq<char>>, n: int) -> Result<Tally, ParseError>
    decreases n,
{
    if n <= 0 {
        Ok(Tally { elves: Seq::empty(), sum: 0 })
    } else {
        match tally(ls, n - 1) {
            Err(e) => Err(e),
            Ok(t) => if ls[n - 1].len() == 0 {
                Ok(Tally { elves: t.elves.push(t.sum), sum: 0 })
            } else {
                match usize_value(ls[n - 1]) {
                    None => Err(ParseError::InvalidNumber),
                    Some(x) => if t.sum + x <= usize::MAX {
                        Ok(Tally { elves: t.elves, sum: (t.sum + x) as usize })
                    } else {
                        Err(ParseError::TooLarge)
                    },
                }
            },
        }
    }
}

/// What each elf carries, in the order of the list. An empty line ends an elf's list; a
/// last list that no empty line ends counts unless its sum is 0.
pub open spec fn calories(input: Seq<char>) -> Result<Seq<usize>, ParseError> {
    let ls = split_seq(input, seq!['\n']);
    match tally(ls, ls.len() as int) {
        Err(e) => Err(e),
        Ok(t) => Ok(
            if t.sum != 0 {
                t.elves.push(t.sum)
            } else {
                t.elves
            },
        ),
    }
}

/// Once the tally has failed, it stays failed.
proof fn lemma_tally_stays_failed(ls: Seq<Seq<char>>, k: int, n: int)
    requires
        0 <= k <= n,
        tally(ls, k) is Err,
    ensures
        tally(ls, n) == tally(ls, k),
    decreases n - k,
{
    if k < n {
        lemma_tally_stays_failed(ls, k, n - 1);
    }
}

/// Reads the list and sums what each elf carries.
pub fn parse(input: &str) -> (r: Result<Vec<usize>, ParseError>)
    ensures
        match r {
            Ok(elves) => calories(input@) == Ok::<Seq<usize>, ParseError>(elves@),
            Err(e) => calories(input@) == Err::<Seq<usize>, ParseError>(e),
        },
{
    proof {
        reveal_strlit("\n");
        assert("\n"@ =~= seq!['\n']);
    }
    let ls = split(input, "\n");
    let ghost lines = split_seq(input@, seq!['\n']);
    let mut elves: Vec<usize> = Vec::new();
    let mut sum: usize = 0;
    let mut i: usize = 0;
    while i < ls.len()
        invariant
            i <= ls.len(),
            lines == split_seq(input@, seq!['\n']),
            texts(ls@) == lines,
            tally(lines, i as int) == Ok::<Tally, ParseError>(Tally { elves: elves@, sum: sum }),
        decreases ls.len() - i,
    {
        assert(texts(ls@).len() == ls.len());
        assert(lines[i as int] == ls[i as int]@) by {
            assert(texts(ls@)[i as int] == ls[i as int]@);
        }
        let line = ls[i];
        if line.is_empty() {
            elves.push(sum);
            sum = 0;
        } else {
            match parse_usize(line) {
                None => {
                    proof {
                        lemma_tally_stays_failed(lines, i + 1, lines.len() as int);
                    }
                    return Err(ParseError::InvalidNumber);
                },
                Some(x) => {
                    if x > usize::MAX - sum {
                        proof {
                            lemma_tally_stays_failed(lines, i + 1, lines.len() as int);
                        }
                        return Err(ParseError::TooLarge);
                    }
                    sum = sum + x;
                },
            }
        }
        i += 1;
    }
    assert(texts(ls@).len() == ls.len());
    if sum != 0 {
        elves.push(sum);
    }
    Ok(elves)
}

/// The most that any elf carries; `None` where there is no elf.
pub fn top_elf(elves: &[usize]) -> (r: Option<usize>)
    ensures
        match r {
            Some(m) => elves@.contains(m) && forall|i: int| 0 <= i < elves.len() ==> elves[i] <= m,
            None => elves.len() == 0,
        },
{
    if elves.len() == 0 {
        return None;
    }
    let mut m: usize = elves[0];
    let mut i: usize = 1;
    while i < elves.len()
        invariant
            1 <= i <= elves.len(),
            elves@.contains(m),
            forall|j: int| 0 <= j < i ==> elves[j] <= m,
        decreases elves.len() - i,
    {
        if elves[i] > m {
            m = elves[i];
        }
        i += 1;
    }
    Some(m)
}

/// The order of numbers by size.
pub open spec fn by_size() -> spec_fn(usize, usize) -> bool {
    |a: usize, b: usize| a <= b
}

/// The sum of a sequence of numbers.
pub open spec fn sum_of(s: Seq<usize>) -> nat
    decreases s.len(),
{
    if s.len() == 0 {
        0
    } else {
        sum_of(s.drop_last()) + s.last() as nat
    }
}

/// What the `count` elves that carry the most carry between them.
pub open spec fn top_sum(elves: Seq<usize>, count: int) -> nat {
    let sorted = elves.sort_by(by_size());
    sum_of(sorted.subrange(sorted.len() - count, sorted.len() as int))
}

/// The sum of the first numbers of a sequence is no larger than the sum of all of them.
proof fn lemma_sum_of_prefix(s: Seq<usize>, k: int)
    requires
        0 <= k <= s.len(),
    ensures
        sum_of(s.take(k)) <= sum_of(s),
    decreases s.len() - k,
{
    if k < s.len() {
        assert(s.take(k + 1).drop_last() =~= s.take(k));
        lemma_sum_of_prefix(s, k + 1);
    } else {
        assert(s.take(k) =~= s);
    }
}

/// What the `count` elves that carry the most carry between them.
pub fn top_elves(elves: Vec<usize>, count: usize) -> (total: usize)
    requires
        count <= elves.len(),
        top_sum(elves@, count as int) <= usize::MAX,
    ensures
        total == top_sum(elves@, count as int),
{
    let ghost given = elves@;
    let mut elves = elves;
    sort(&mut elves);
    proof {
        assert(total_ordering(by_size()));
        given.lemma_sort_by_ensures(by_size());
        assert(sorted_by(elves@, by_size()));
        lemma_sorted_unique(elves@, given.sort_by(by_size()), by_size());
        to_multiset_len(given);
        to_multiset_len(elves@);
    }
    let start = elves.len() - count;
    let ghost top = elves@.subrange(start as int, elves.len() as int);
    let mut total: usize = 0;
    let mut i: usize = start;
    assert(top.take(0) =~= Seq::empty());
    while i < elves.len()
        invariant
            start <= i <= elves.len(),
            top == elves@.subrange(start as int, elves.len() as int),
            total == sum_of(top.take(i - start)),
            sum_of(top) <= usize::MAX,
        decreases elves.len() - i,
    {
        proof {
            assert(top.take(i - start + 1).drop_last() =~= top.take(i - start));
            lemma_sum_of_prefix(top, i - start + 1);
        }
        total = total + elves[i];
        i += 1;
    }
    assert(top.take(i - start) =~= top);
    total
}

} // verus!

//! Camp cleanup: pairs of section ranges assigned to two workers.

use vstd::prelude::*;
use crate::text::{gather, lines, lines_seq, parse_usize, split, split_seq, texts, usize_value};

verus! {

/// An inclusive range of section numbers, `(first, last)`.
pub type Range = (usize, usize);

/// The ranges of the two workers of a pair.
pub type WorkerPair = (Range, Range);

/// What a range says: numbers between hyphens, of which the first two count.
pub open spec fn parse_range(part: Seq<char>) -> Option<Range> {
    let pieces = split_seq(part, seq!['-']);
    match gather(Seq::new(pieces.len(), |i: int| usize_value(pieces[i]))) {
        Some(xs) => if xs.len() >= 2 {
            Some((xs[0], xs[1]))
        } else {
            None
        },
        None => None,
    }
}

/// What a line says: ranges between commas, of which the first two count.
pub open spec fn parse_pair(line: Seq<char>) -> Option<WorkerPair> {
    let parts = split_seq(line, seq![',']);
    match gather(Seq::new(parts.len(), |i: int| parse_range(parts[i]))) {
        Some(ranges) => if ranges.len() >= 2 {
            Some((ranges[0], ranges[1]))
        } else {
            None
        },
        None => None,
    }
}

/// What the whole assignment list says, a pair for each line.
pub open spec fn parse_pairs(input: Seq<char>) -> Option<Seq<WorkerPair>> {
    let ls = lines_seq(input);
    gather(Seq::new(ls.len(), |i: int| parse_pair(ls[i])))
}

fn read_range(part: &str) -> (r: Option<Range>)
    ensures
        r == parse_range(part@),
{
    proof {
        reveal_strlit("-");
        assert("-"@ =~= seq!['-']);
    }
    let pieces = split(part, "-");
    let ghost items = Seq::new(texts(pieces@).len(), |i: int| usize_value(texts(pieces@)[i]));
    let mut xs: Vec<usize> = Vec::new();
    let mut i: usize = 0;
    while i < pieces.len()
        invariant
            i <= pieces.len(),
            texts(pieces@) == split_seq(part@, seq!['-']),
            items == Seq::new(texts(pieces@).len(), |i: int| usize_value(texts(pieces@)[i])),
            xs.len() == i,
            forall|j: int| 0 <= j < i ==> (#[trigger] items[j]) == Some(xs[j]),
        decreases pieces.len() - i,
    {
        assert(texts(pieces@)[i as int] == pieces[i as int]@);
        match parse_usize(pieces[i]) {
            Some(x) => {
                xs.push(x);
            },
            None => {
                assert(items[i as int] is None);
                return None;
            },
        }
        i += 1;
    }
    proof {
        assert(items.len() == xs.len());
        assert forall|j: int| 0 <= j < items.len() implies (#[trigger] items[j]) is Some by {
            assert(items[j] == Some(xs[j]));
        }
        assert(gather(items)->0 =~= xs@);
    }
    if xs.len() >= 2 {
        Some((xs[0], xs[1]))
    } else {
        None
    }
}

fn read_pair(line: &str) -> (r: Option<WorkerPair>)
    ensures
        r == parse_pair(line@),
{
    proof {
        reveal_strlit(",");
        assert(","@ =~= seq![',']);
    }
    let parts = split(line, ",");
    let ghost items = Seq::new(texts(parts@).len(), |i: int| parse_range(texts(parts@)[i]));
    let mut ranges: Vec<Range> = Vec::new();
    let mut i: usize = 0;
    while i < parts.len()
        invariant
            i <= parts.len(),
            texts(parts@) == split_seq(line@, seq![',']),
            items == Seq::new(texts(parts@).len(), |i: int| parse_range(texts(parts@)[i])),
            ranges.len() == i,
            forall|j: int| 0 <= j < i ==> (#[trigger] items[j]) == Some(ranges[j]),
        decreases parts.len() - i,
    {
        assert(texts(parts@)[i as int] == parts[i as int]@);
        match read_range(parts[i]) {
            Some(range) => {
                ranges.push(range);
            },
            None => {
                assert(items[i as int] is None);
                return None;
            },
        }
        i += 1;
    }
    proof {
        assert(items.len() == ranges.len());
        assert forall|j: int| 0 <= j < items.len() implies (#[trigger] items[j]) is Some by {
            assert(items[j] == Some(ranges[j]));
        }
        assert(gather(items)->0 =~= ranges@);
    }
    if ranges.len() >= 2 {
        Some((ranges[0], ranges[1]))
    } else {
        None
    }
}

/// Reads the assignment list, a pair of ranges from each line; `None` where a line does
/// not hold two ranges of two numbers.
pub fn parse(input: &str) -> (r: Option<Vec<WorkerPair>>)
    ensures
        match r {
            Some(pairs) => parse_pairs(input@) == Some(pairs@),
            None => parse_pairs(input@) is None,
        },
{
    let ls = lines(input);
    let ghost items = Seq::new(texts(ls@).len(), |i: int| parse_pair(texts(ls@)[i]));
    let mut pairs: Vec<WorkerPair> = Vec::new();
    let mut i: usize = 0;
    while i < ls.len()
        invariant
            i <= ls.len(),
            texts(ls@) == lines_seq(input@),
            items == Seq::new(texts(ls@).len(), |i: int| parse_pair(texts(ls@)[i])),
            pairs.len() == i,
            forall|j: int| 0 <= j < i ==> (#[trigger] items[j]) == Some(pairs[j]),
        decreases ls.len() - i,
    {
        assert(texts(ls@)[i as int] == ls[i as int]@);
        match read_pair(ls[i]) {
            Some(pair) => {
                pairs.push(pair);
            },
            None => {
                assert(items[i as int] is None);
                return None;
            },
        }
        i += 1;
    }
    proof {
        assert(items.len() == pairs.len());
        assert forall|j: int| 0 <= j < items.len() implies (#[trigger] items[j]) is Some by {
            assert(items[j] == Some(pairs[j]));
        }
        assert(gather(items)->0 =~= pairs@);
    }
    Some(pairs)
}

/// One of the two ranges lies wholly inside the other.
pub open spec fn contains_other(wp: WorkerPair) -> bool {
    let ((a, b), (x, y)) = wp;
    (a <= x && y <= b) || (x <= a && b <= y)
}

/// An end of one range lies inside the other range.
pub open spec fn overlaps(wp: WorkerPair) -> bool {
    let ((a, b), (x, y)) = wp;
    (x <= a <= y) || (x <= b <= y) || (a <= x <= b) || (a <= y <= b)
}

/// The number of pairs in which one range lies wholly inside the other.
pub open spec fn contained_among(pairs: Seq<WorkerPair>) -> nat
    decreases pairs.len(),
{
    if pairs.len() == 0 {
        0
    } else {
        contained_among(pairs.drop_last()) + if contains_other(pairs.last()) {
            1nat
        } else {
            0nat
        }
    }
}

/// The number of pairs whose ranges overlap.
pub open spec fn overlapping_among(pairs: Seq<WorkerPair>) -> nat
    decreases pairs.len(),
{
    if pairs.len() == 0 {
        0
    } else {
        overlapping_among(pairs.drop_last()) + if overlaps(pairs.last()) {
            1nat
        } else {
            0nat
        }
    }
}

/// Whether one range of the pair lies wholly inside the other.
pub fn fully_contained(wp: WorkerPair) -> (r: bool)
    ensures
        r == contains_other(wp),
{
    let ((a, b), (x, y)) = wp;
    (a <= x && b >= y) || (x <= a && y >= b)
}

/// Whether the ranges of the pair share a section.
pub fn overlap(wp: WorkerPair) -> (r: bool)
    ensures
        r == overlaps(wp),
{
    let ((a, b), (x, y)) = wp;
    (a <= y && a >= x) || (b <= y && b >= x) || (x <= b && x >= a) || (y <= b && y >= a)
}

/// How many pairs have one range wholly inside the other.
pub fn contained_count(worker_pairs: &[WorkerPair]) -> (n: usize)
    ensures
        n == contained_among(worker_pairs@),
{
    let mut n: usize = 0;
    let mut i: usize = 0;
    assert(worker_pairs@.take(0) =~= Seq::empty());
    while i < worker_pairs.len()
        invariant
            i <= worker_pairs.len(),
            n <= i,
            n == contained_among(worker_pairs@.take(i as int)),
        decreases worker_pairs.len() - i,
    {
        assert(worker_pairs@.take(i + 1).drop_last() =~= worker_pairs@.take(i as int));
        if fully_contained(worker_pairs[i]) {
            n += 1;
        }
        i += 1;
    }
    assert(worker_pairs@.take(i as int) =~= worker_pairs@);
    n
}

/// How many pairs have ranges that overlap.
pub fn overlap_count(worker_pairs: &[WorkerPair]) -> (n: usize)
    ensures
        n == overlapping_among(worker_pairs@),
{
    let mut n: usize = 0;
    let mut i: usize = 0;
    assert(worker_pairs@.take(0) =~= Seq::empty());
    while i < worker_pairs.len()
        invariant
            i <= worker_pairs.len(),
            n <= i,
            n == overlapping_among(worker_pairs@.take(i as int)),
        decreases worker_pairs.len() - i,
    {
        assert(worker_pairs@.take(i + 1).drop_last() =~= worker_pairs@.take(i as int));
        if overlap(worker_pairs[i]) {
            n += 1;
        }
        i += 1;
    }
    assert(worker_pairs@.take(i as int) =~= worker_pairs@);
    n
}

} // verus!

//! Supply stacks: stacks of crates and the moves of a crane that lifts one crate at a time.

use vstd::prelude::*;
use vstd::string::StringSliceAdditionalSpecFns;
use vstd::utf8::encode_utf8;
use crate::text::{
    chars_of, gather, is_digit, lines, lines_seq, matches_at, number_value, occurs_at,
    parse_digits, split_once, split_once_seq, texts,
};
use crate::trusted::join;

verus! {

/// A stack of crates, the lowest first.
pub type Stack = Vec<char>;

/// The stacks, from left to right.
#[derive(PartialEq, Debug)]
pub struct Stacks {
    pub stacks: Vec<Stack>,
}

/// A move: so many crates, one at a time, from one stack to another. Stacks are counted
/// from 1.
#[derive(Debug, PartialEq)]
pub struct Direction {
    pub num_crates: usize,
    pub from: usize,
    pub to: usize,
}

impl View for Stacks {
    type V = Seq<Seq<char>>;

    open spec fn view(&self) -> Seq<Seq<char>> {
        Seq::new(self.stacks@.len(), |i: int| self.stacks@[i]@)
    }
}

/// Whether the crane can follow `d` on `stacks`: both stacks are there, and the one to
/// take from holds enough crates.
pub open spec fn can_move(stacks: Seq<Seq<char>>, d: Direction) -> bool {
    &&& 1 <= d.from <= stacks.len()
    &&& 1 <= d.to <= stacks.len()
    &&& if d.from == d.to {
        d.num_crates == 0 || stacks[d.from - 1].len() > 0
    } else {
        d.num_crates <= stacks[d.from - 1].len()
    }
}

/// The stacks after the crane has followed `d`: the crates taken arrive in reverse order.
pub open spec fn after_move(stacks: Seq<Seq<char>>, d: Direction) -> Seq<Seq<char>> {
    if d.from == d.to {
        stacks
    } else {
        let source = stacks[d.from - 1];
        let kept = source.len() - d.num_crates;
        stacks.update(d.from - 1, source.subrange(0, kept)).update(
            d.to - 1,
            stacks[d.to - 1] + source.subrange(kept, source.len() as int).reverse(),
        )
    }
}

/// The stacks after the first `k` of the moves `ds`, if the crane can follow each of them.
pub open spec fn rearranged(stacks: Seq<Seq<char>>, ds: Seq<Direction>, k: int) -> Option<
    Seq<Seq<char>>,
>
    decreases k,
{
    if k <= 0 {
        Some(stacks)
    } else {
        match rearranged(stacks, ds, k - 1) {
            Some(s) => if can_move(s, ds[k - 1]) {
                Some(after_move(s, ds[k - 1]))
            } else {
                None
            },
            None => None,
        }
    }
}

/// The crates on top of the stacks, if no stack is empty.
pub open spec fn tops(stacks: Seq<Seq<char>>) -> Option<Seq<char>> {
    if forall|i: int| 0 <= i < stacks.len() ==> (#[trigger] stacks[i]).len() > 0 {
        Some(Seq::new(stacks.len(), |i: int| stacks[i].last()))
    } else {
        None
    }
}

/// The crates on top after all the moves `ds`.
pub open spec fn tops_after(stacks: Seq<Seq<char>>, ds: Seq<Direction>) -> Option<Seq<char>> {
    match rearranged(stacks, ds, ds.len() as int) {
        Some(s) => tops(s),
        None => None,
    }
}

/// Once a move cannot be followed, the later moves are never reached.
proof fn lemma_rearranged_stays_none(stacks: Seq<Seq<char>>, ds: Seq<Direction>, k: int, n: int)
    requires
        0 <= k <= n,
        rearranged(stacks, ds, k) is None,
    ensures
        rearranged(stacks, ds, n) is None,
    decreases n - k,
{
    if k < n {
        lemma_rearranged_stays_none(stacks, ds, k, n - 1);
    }
}

/// As many steps as `n` counts.
pub fn times(n: usize) -> (r: core::ops::Range<usize>)
    ensures
        r.start == 0,
        r.end == n,
{
    0..n
}

impl Stacks {
    /// Whether the crane can follow `d`.
    pub fn can_execute(&self, d: &Direction) -> (r: bool)
        ensures
            r == can_move(self@, *d),
    {
        if d.from < 1 || d.from > self.stacks.len() || d.to < 1 || d.to > self.stacks.len() {
            return false;
        }
        assert(self@[d.from - 1] == self.stacks[d.from - 1]@);
        if d.from == d.to {
            d.num_crates == 0 || self.stacks[d.from - 1].len() > 0
        } else {
            d.num_crates <= self.stacks[d.from - 1].len()
        }
    }

    /// Follows `d`: lifts the crates from one stack to the other, one at a time.
    pub fn execute(&mut self, d: Direction)
        requires
            can_move(old(self)@, d),
        ensures
            final(self)@ == after_move(old(self)@, d),
    {
        let ghost before = self@;
        let ghost source = before[d.from - 1];
        let ghost target = before[d.to - 1];
        let steps = times(d.num_crates);
        let mut n: usize = steps.start;
        proof {
            if d.from != d.to {
                assert(source.subrange(0, source.len() - n) =~= source);
                assert(target + source.subrange(
                    source.len() - n,
                    source.len() as int,
                ).reverse() =~= target);
                assert(self@ =~= before.update(d.from - 1, source).update(d.to - 1, target));
            }
        }
        while n < steps.end
            invariant
                steps.end == d.num_crates,
                n <= d.num_crates,
                before.len() == self.stacks.len(),
                1 <= d.from <= before.len(),
                1 <= d.to <= before.len(),
                source == before[d.from - 1],
                target == before[d.to - 1],
                d.from == d.to ==> self@ == before && (d.num_crates == 0 || source.len() > 0),
                d.from != d.to ==> d.num_crates <= source.len() && self@ == before.update(
                    d.from - 1,
                    source.subrange(0, source.len() - n),
                ).update(
                    d.to - 1,
                    target + source.subrange(source.len() - n, source.len() as int).reverse(),
                ),
            decreases d.num_crates - n,
        {
            let ghost now = self@;
            assert(now[d.from - 1] == self.stacks[d.from - 1]@);
            assert(now[d.to - 1] == self.stacks[d.to - 1]@);
            let c = self.stacks[d.from - 1].pop().unwrap();
            self.stacks[d.to - 1].push(c);
            proof {
                if d.from == d.to {
                    assert(self.stacks[d.from - 1]@ =~= now[d.from - 1]);
                    assert(self@ =~= now);
                } else {
                    let taken = source.subrange(source.len() - n, source.len() as int);
                    let more = source.subrange(source.len() - (n + 1), source.len() as int);
                    assert(c == source[source.len() - n - 1]);
                    assert(more.reverse() =~= taken.reverse().push(c));
                    assert(self.stacks[d.from - 1]@ =~= source.subrange(
                        0,
                        source.len() - (n + 1),
                    ));
                    assert(self.stacks[d.to - 1]@ =~= target + more.reverse());
                    assert(self@.len() == before.len());
                    assert forall|j: int|
                        0 <= j < before.len() && j != d.from - 1 && j != d.to - 1 implies self@[j]
                        == before[j] by {
                        assert(self@[j] == self.stacks[j]@);
                        assert(now[j] == before[j]);
                    }
                    assert(self@[d.from - 1] == self.stacks[d.from - 1]@);
                    assert(self@[d.to - 1] == self.stacks[d.to - 1]@);
                    assert(self@ =~= before.update(
                        d.from - 1,
                        source.subrange(0, source.len() - (n + 1)),
                    ).update(d.to - 1, target + more.reverse()));
                }
            }
            n += 1;
        }
        proof {
            if d.from != d.to {
                assert(source.subrange(0, source.len() - n) =~= source.subrange(
                    0,
                    source.len() - d.num_crates,
                ));
            }
        }
    }

    /// The crates on top of the stacks, from left to right.
    pub fn peek_all(&self) -> (r: String)
        requires
            tops(self@) is Some,
        ensures
            Some(r@) == tops(self@),
    {
        let mut crates: Vec<char> = Vec::new();
        let mut i: usize = 0;
        while i < self.stacks.len()
            invariant
                i <= self.stacks.len(),
                tops(self@) is Some,
                crates.len() == i,
                forall|j: int| 0 <= j < i ==> crates[j] == self@[j].last(),
            decreases self.stacks.len() - i,
        {
            assert(self@[i as int] == self.stacks[i as int]@);
            let stack = &self.stacks[i];
            crates.push(stack[stack.len() - 1]);
            i += 1;
        }
        assert(crates@ =~= tops(self@)->0);
        join(&crates)
    }

    /// Whether every stack holds a crate.
    pub fn all_hold(&self) -> (r: bool)
        ensures
            r == tops(self@) is Some,
    {
        let mut i: usize = 0;
        while i < self.stacks.len()
            invariant
                i <= self.stacks.len(),
                forall|j: int| 0 <= j < i ==> (#[trigger] self@[j]).len() > 0,
            decreases self.stacks.len() - i,
        {
            assert(self@[i as int] == self.stacks[i as int]@);
            if self.stacks[i].len() == 0 {
                return false;
            }
            i += 1;
        }
        true
    }
}

/// The crates on top after the crane has followed all the moves; `None` where it cannot
/// follow one of them, or where a stack is empty in the end.
pub fn part_one(stacks: Stacks, directions: Vec<Direction>) -> (r: Option<String>)
    ensures
        match r {
            Some(s) => tops_after(stacks@, directions@) == Some(s@),
            None => tops_after(stacks@, directions@) is None,
        },
{
    let ghost start = stacks@;
    let ghost ds = directions@;
    let mut piles = stacks;
    let mut rest = directions;
    let mut k: usize = 0;
    let count = rest.len();
    let mut stuck = false;
    assert(rest@ =~= ds.subrange(0, count as int));
    // The moves are taken from the front; `rest` holds those still to follow.
    while !stuck && k < count
        invariant
            k <= count,
            count == ds.len(),
            rest@ == ds.subrange(k as int, count as int),
            !stuck ==> rearranged(start, ds, k as int) == Some(piles@),
            stuck ==> rearranged(start, ds, count as int) is None,
        decreases count - k + if stuck { 0int } else { 1int },
    {
        let d = rest.remove(0);
        assert(d == ds[k as int]);
        assert(rest@ =~= ds.subrange(k + 1, count as int));
        if piles.can_execute(&d) {
            piles.execute(d);
        } else {
            proof {
                lemma_rearranged_stays_none(start, ds, k + 1, count as int);
            }
            stuck = true;
        }
        k += 1;
    }
    if !stuck && piles.all_hold() {
        Some(piles.peek_all())
    } else {
        None
    }
}

/// The number of crates that a drawn row has room for: a crate takes four characters, the
/// last one three.
pub open spec fn places(row: Seq<u8>) -> int {
    (row.len() + 3) as int / 4
}

/// A drawn row can be read into `n` stacks: each of its places shows its crate, and the
/// places beyond the `n`-th are empty.
pub open spec fn row_fits(row: Seq<u8>, n: int) -> bool {
    forall|i: int| 0 <= i < places(row) ==> place_fits(row, n, i)
}

/// Place `i` of a drawn row shows its crate, which is a space if there is no stack `i`.
pub open spec fn place_fits(row: Seq<u8>, n: int, i: int) -> bool {
    4 * i + 1 < row.len() && (n <= i ==> row[4 * i + 1] == 32)
}

/// The crates of stack `i` that the first `k` of the rows show; the rows are given from
/// the lowest up.
pub open spec fn pile(rows: Seq<Seq<u8>>, i: int, k: int) -> Seq<char>
    decreases k,
{
    if k <= 0 {
        Seq::empty()
    } else {
        let row = rows[k - 1];
        if 4 * i + 1 < row.len() && row[4 * i + 1] != 32 {
            pile(rows, i, k - 1).push(row[4 * i + 1] as char)
        } else {
            pile(rows, i, k - 1)
        }
    }
}

/// The rows of a drawing from the lowest up, as bytes; the last line of the drawing
/// numbers the stacks and is no row.
pub open spec fn rows_of(ls: Seq<Seq<char>>) -> Seq<Seq<u8>> {
    Seq::new((ls.len() - 1) as nat, |r: int| encode_utf8(ls[ls.len() - 2 - r]))
}

/// The stacks that a drawing shows. Its last line tells how many stacks there are; in the
/// lines above, the second character of every four is a crate, or a space where there is
/// none.
pub open spec fn drawn_stacks(input: Seq<char>) -> Option<Seq<Seq<char>>> {
    let ls = lines_seq(input);
    if ls.len() == 0 {
        None
    } else {
        let n = places(encode_utf8(ls.last()));
        let rows = rows_of(ls);
        if forall|r: int| 0 <= r < rows.len() ==> row_fits(#[trigger] rows[r], n) {
            Some(Seq::new(n as nat, |i: int| pile(rows, i, rows.len() as int)))
        } else {
            None
        }
    }
}

/// Reads a drawing of stacks; `None` where there is no drawing, where a row breaks off
/// before its last crate, or where a crate stands beyond the last numbered stack.
pub fn parse_stacks(input: &str) -> (r: Option<Stacks>)
    ensures
        match r {
            Some(stacks) => drawn_stacks(input@) == Some(stacks@),
            None => drawn_stacks(input@) is None,
        },
{
    let ls = lines(input);
    if ls.len() == 0 {
        return None;
    }
    let ghost lseq = lines_seq(input@);
    let ghost rows = rows_of(lseq);
    assert(texts(ls@).len() == ls.len());
    assert(lseq.last() == ls[ls.len() - 1]@) by {
        assert(texts(ls@)[ls.len() - 1] == ls[ls.len() - 1]@);
    }
    let header = ls[ls.len() - 1].as_bytes();
    let num_stacks = header.len() / 4 + if header.len() % 4 == 0 {
        0
    } else {
        1
    };
    let ghost n = places(encode_utf8(lseq.last()));
    assert(num_stacks == n);
    let mut stacks: Vec<Stack> = Vec::new();
    let mut i: usize = 0;
    while i < num_stacks
        invariant
            i <= num_stacks,
            stacks.len() == i,
            forall|j: int| 0 <= j < i ==> (#[trigger] stacks[j])@ == pile(rows, j, 0),
        decreases num_stacks - i,
    {
        let stack: Stack = Vec::new();
        assert(stack@ =~= pile(rows, i as int, 0));
        stacks.push(stack);
        i += 1;
    }
    let mut r: usize = 0;
    while r < ls.len() - 1
        invariant
            r <= ls.len() - 1,
            ls.len() > 0,
            lseq == lines_seq(input@),
            texts(ls@) == lseq,
            rows == rows_of(lseq),
            n == places(encode_utf8(lseq.last())),
            stacks.len() == num_stacks,
            num_stacks == n,
            forall|q: int| 0 <= q < r ==> row_fits(#[trigger] rows[q], n),
            forall|j: int| 0 <= j < num_stacks ==> (#[trigger] stacks[j])@ == pile(
                rows,
                j,
                r as int,
            ),
        decreases ls.len() - 1 - r,
    {
        assert(texts(ls@).len() == ls.len());
        let line = ls[ls.len() - 2 - r].as_bytes();
        assert(rows[r as int] == line@) by {
            assert(texts(ls@)[ls.len() - 2 - r] == ls[ls.len() - 2 - r]@);
        }
        let row_places = line.len() / 4 + if line.len() % 4 == 0 {
            0
        } else {
            1
        };
        assert(row_places == places(line@));
        let mut i: usize = 0;
        while i < row_places
            invariant
                i <= row_places,
                row_places == places(line@),
                rows[r as int] == line@,
                r < rows.len(),
                lseq == lines_seq(input@),
                lseq.len() > 0,
                rows == rows_of(lseq),
                n == places(encode_utf8(lseq.last())),
                stacks.len() == num_stacks,
                num_stacks == n,
                forall|p: int| 0 <= p < i ==> place_fits(line@, n, p),
                forall|j: int|
                    0 <= j < num_stacks ==> (#[trigger] stacks[j])@ == pile(
                        rows,
                        j,
                        if j < i {
                            r + 1
                        } else {
                            r as int
                        },
                    ),
            decreases row_places - i,
        {
            if line.len() - 4 * i < 2 {
                assert(!row_fits(rows[r as int], n)) by {
                    assert(!place_fits(line@, n, i as int));
                }
                return None;
            }
            let c = line[4 * i + 1];
            if c != 32 {
                if i >= num_stacks {
                    assert(!row_fits(rows[r as int], n)) by {
                        assert(!place_fits(line@, n, i as int));
                    }
                    return None;
                }
                let ghost old_stacks = stacks@;
                stacks[i].push(c as char);
                assert(forall|j: int|
                    0 <= j < num_stacks && j != i ==> (#[trigger] stacks[j]) == old_stacks[j]);
            }
            i += 1;
        }
        proof {
            assert(row_fits(rows[r as int], n));
            assert forall|j: int| 0 <= j < num_stacks implies (#[trigger] stacks[j])@ == pile(
                rows,
                j,
                r + 1,
            ) by {
                if j >= row_places {
                    assert(!(4 * j + 1 < line@.len()));
                }
            }
        }
        r += 1;
    }
    let result = Stacks { stacks };
    proof {
        assert(rows.len() == ls.len() - 1);
        assert(result@ =~= Seq::new(n as nat, |i: int| pile(rows, i, rows.len() as int)));
    }
    Some(result)
}

/// Where the run of digits that begins at position `from` ends.
pub open spec fn run_end(s: Seq<char>, from: int) -> int
    decreases s.len() - from,
{
    if from < 0 || from >= s.len() || !is_digit(s[from]) {
        from
    } else {
        run_end(s, from + 1)
    }
}

/// The three numbers of the move that is written in `s` from position `i` on: `move`, a
/// number, `from`, a number, `to`, a number, with single spaces between them. A number is
/// a run of digits, taken as far as it goes.
pub open spec fn move_at(s: Seq<char>, i: int) -> Option<(Seq<char>, Seq<char>, Seq<char>)> {
    let a = i + 5;
    let b = run_end(s, a);
    let c = b + 6;
    let d = run_end(s, c);
    let e = d + 4;
    let f = run_end(s, e);
    if occurs_at(s, seq!['m', 'o', 'v', 'e', ' '], i) && a < b && occurs_at(
        s,
        seq![' ', 'f', 'r', 'o', 'm', ' '],
        b,
    ) && c < d && occurs_at(s, seq![' ', 't', 'o', ' '], d) && e < f {
        Some((s.subrange(a, b), s.subrange(c, d), s.subrange(e, f)))
    } else {
        None
    }
}

/// The numbers of the first move that is written in `s` at position `from` or later.
pub open spec fn first_move(s: Seq<char>, from: int) -> Option<(Seq<char>, Seq<char>, Seq<char>)>
    decreases s.len() - from,
{
    if from < 0 || from >= s.len() {
        None
    } else {
        match move_at(s, from) {
            Some(m) => Some(m),
            None => first_move(s, from + 1),
        }
    }
}

/// What a line of the crane's list says: the first move that is written in it, whatever
/// stands before and after. `None` where no move is written in the line, or where one of
/// the numbers of the first is more than a `usize` holds.
pub open spec fn parse_direction(line: Seq<char>) -> Option<Direction> {
    match first_move(line, 0) {
        None => None,
        Some((count, from, to)) => match (
            number_value(count),
            number_value(from),
            number_value(to),
        ) {
            (Some(n), Some(f), Some(t)) => Some(Direction { num_crates: n, from: f, to: t }),
            _ => None,
        },
    }
}

/// The moves that the lines of the crane's list say.
pub open spec fn listed_directions(input: Seq<char>) -> Option<Seq<Direction>> {
    let ls = lines_seq(input);
    gather(Seq::new(ls.len(), |i: int| parse_direction(ls[i])))
}

/// Where the run of digits that begins at position `from` ends.
fn digits_end(cs: &Vec<char>, from: usize) -> (end: usize)
    requires
        from <= cs.len(),
    ensures
        end == run_end(cs@, from as int),
        from <= end <= cs.len(),
{
    let mut end: usize = from;
    while end < cs.len() && cs[end] >= '0' && cs[end] <= '9'
        invariant
            from <= end <= cs.len(),
            run_end(cs@, from as int) == run_end(cs@, end as int),
        decreases cs.len() - end,
    {
        end += 1;
    }
    end
}

fn read_direction(line: &str) -> (r: Option<Direction>)
    ensures
        r == parse_direction(line@),
{
    proof {
        reveal_strlit("move ");
        reveal_strlit(" from ");
        reveal_strlit(" to ");
        assert("move "@ =~= seq!['m', 'o', 'v', 'e', ' ']);
        assert(" from "@ =~= seq![' ', 'f', 'r', 'o', 'm', ' ']);
        assert(" to "@ =~= seq![' ', 't', 'o', ' ']);
    }
    let cs = chars_of(line);
    let word_move = chars_of("move ");
    let word_from = chars_of(" from ");
    let word_to = chars_of(" to ");
    let mut i: usize = 0;
    while i < cs.len()
        invariant
            i <= cs.len(),
            cs@ == line@,
            word_move@ == seq!['m', 'o', 'v', 'e', ' '],
            word_from@ == seq![' ', 'f', 'r', 'o', 'm', ' '],
            word_to@ == seq![' ', 't', 'o', ' '],
            first_move(line@, 0) == first_move(line@, i as int),
        decreases cs.len() - i,
    {
        if matches_at(&cs, &word_move, i) {
            let a = i + 5;
            let b = digits_end(&cs, a);
            if a < b && matches_at(&cs, &word_from, b) {
                let c = b + 6;
                let d = digits_end(&cs, c);
                if c < d && matches_at(&cs, &word_to, d) {
                    let e = d + 4;
                    let f = digits_end(&cs, e);
                    if e < f {
                        assert(move_at(line@, i as int) is Some);
                        return match (
                            parse_digits(&cs, a, b, usize::MAX as u64),
                            parse_digits(&cs, c, d, usize::MAX as u64),
                            parse_digits(&cs, e, f, usize::MAX as u64),
                        ) {
                            (Some(n), Some(f), Some(t)) => Some(
                                Direction {
                                    num_crates: n as usize,
                                    from: f as usize,
                                    to: t as usize,
                                },
                            ),
                            _ => None,
                        };
                    }
                }
            }
        }
        assert(move_at(line@, i as int) is None);
        i += 1;
    }
    None
}

/// Reads the crane's list, a move from each line; `None` where a line holds no move or a
/// number that is too large.
pub fn parse_directions(input: &str) -> (r: Option<Vec<Direction>>)
    ensures
        match r {
            Some(ds) => listed_directions(input@) == Some(ds@),
            None => listed_directions(input@) is None,
        },
{
    let ls = lines(input);
    let ghost items = Seq::new(texts(ls@).len(), |i: int| parse_direction(texts(ls@)[i]));
    let mut res: Vec<Direction> = Vec::new();
    let mut i: usize = 0;
    while i < ls.len()
        invariant
            i <= ls.len(),
            texts(ls@) == lines_seq(input@),
            items == Seq::new(texts(ls@).len(), |i: int| parse_direction(texts(ls@)[i])),
            res.len() == i,
            forall|j: int| 0 <= j < i ==> (#[trigger] items[j]) == Some(res[j]),
        decreases ls.len() - i,
    {
        assert(texts(ls@)[i as int] == ls[i as int]@);
        match read_direction(ls[i]) {
            Some(d) => {
                res.push(d);
            },
            None => {
                assert(items[i as int] is None);
                return None;
            },
        }
        i += 1;
    }
    proof {
        assert(items.len() == res.len());
        assert forall|j: int| 0 <= j < items.len() implies (#[trigger] items[j]) is Some by {
            assert(items[j] == Some(res[j]));
        }
        assert(gather(items)->0 =~= res@);
    }
    Some(res)
}

/// What the whole input says: a drawing of stacks, an empty line, the crane's list.
pub open spec fn drawn_and_listed(input: Seq<char>) -> Option<(Seq<Seq<char>>, Seq<Direction>)> {
    match split_once_seq(input, seq!['\n', '\n']) {
        None => None,
        Some((drawing, list)) => match (drawn_stacks(drawing), listed_directions(list)) {
            (Some(stacks), Some(ds)) => Some((stacks, ds)),
            _ => None,
        },
    }
}

/// Reads the stacks and the moves; `None` where no empty line parts them or where either
/// cannot be read.
pub fn parse(input: &str) -> (r: Option<(Stacks, Vec<Direction>)>)
    ensures
        match r {
            Some((stacks, ds)) => drawn_and_listed(input@) == Some((stacks@, ds@)),
            None => drawn_and_listed(input@) is None,
        },
{
    proof {
        reveal_strlit("\n\n");
        assert("\n\n"@ =~= seq!['\n', '\n']);
    }
    match split_once(input, "\n\n") {
        None => None,
        Some((stacks, directions)) => match (parse_stacks(stacks), parse_directions(directions)) {
            (Some(stacks), Some(ds)) => Some((stacks, ds)),
            _ => None,
        },
    }
}

} // verus!

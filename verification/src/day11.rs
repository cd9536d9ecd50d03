//! Monkey in the middle: monkeys that inspect items and throw them to one another.

use std::collections::VecDeque;
use vstd::prelude::*;
use vstd::relations::{sorted_by, total_ordering};
use vstd::seq_lib::{lemma_sorted_unique, to_multiset_len};
use crate::text::{
    gather, last_word, last_word_seq, lines, lines_seq, occurs_at, parse_u64, parse_usize, split,
    split_once, split_once_seq, split_seq, str_eq, strip_prefix, strip_prefix_seq, texts,
    u64_value, usize_value,
};
use crate::trusted::sort;

verus! {

/// What a monkey does to the worry about an item.
#[derive(Debug, PartialEq, Eq, Clone, Copy)]
pub enum Operation {
    Square,
    Add(u64),
    Mult(u64),
}

/// A monkey.
#[derive(Debug, PartialEq)]
pub struct Monkey {
    pub starting_items: Vec<u64>,
    pub operation: Operation,
    pub div_test: u64,
    pub throw_true: usize,
    pub throw_false: usize,
}

/// A monkey as specifications see it.
pub struct MonkeyModel {
    pub starting_items: Seq<u64>,
    pub operation: Operation,
    pub div_test: u64,
    pub throw_true: usize,
    pub throw_false: usize,
}

impl View for Monkey {
    type V = MonkeyModel;

    open spec fn view(&self) -> MonkeyModel {
        MonkeyModel {
            starting_items: self.starting_items@,
            operation: self.operation,
            div_test: self.div_test,
            throw_true: self.throw_true,
            throw_false: self.throw_false,
        }
    }
}

/// The models of a sequence of monkeys.
pub open spec fn models(monkeys: Seq<Monkey>) -> Seq<MonkeyModel> {
    Seq::new(monkeys.len(), |i: int| monkeys[i]@)
}

/// The worry about an item after the operation.
pub open spec fn worry_after(op: Operation, item: u64) -> nat {
    match op {
        Operation::Square => (item * item) as nat,
        Operation::Add(x) => (item + x) as nat,
        Operation::Mult(x) => (item * x) as nat,
    }
}

/// Where a monkey throws an item and with what worry: the worry after the operation is
/// divided by `divisor` if there is one; the monkey tests the result, and what it throws is
/// the result, reduced by `modulo` if there is one. `None` where the worry after the
/// operation is more than a `u64` holds, or where a divisor is 0.
pub open spec fn inspected(m: MonkeyModel, item: u64, divisor: Option<u64>, modulo: Option<u64>) -> Option<
    (usize, u64),
> {
    let worry = worry_after(m.operation, item);
    if worry > u64::MAX || divisor == Some(0u64) || modulo == Some(0u64) || m.div_test == 0 {
        None
    } else {
        let calm = match divisor {
            Some(d) => worry / (d as nat),
            None => worry,
        };
        let thrown = match modulo {
            Some(md) => calm % (md as nat),
            None => calm,
        };
        if calm % (m.div_test as nat) == 0 {
            Some((m.throw_true, thrown as u64))
        } else {
            Some((m.throw_false, thrown as u64))
        }
    }
}

/// What a monkey does with each of `items`, in their order.
pub open spec fn all_inspected(
    m: MonkeyModel,
    items: Seq<u64>,
    divisor: Option<u64>,
    modulo: Option<u64>,
) -> Option<Seq<(usize, u64)>> {
    gather(Seq::new(items.len(), |i: int| inspected(m, items[i], divisor, modulo)))
}

impl Monkey {
    /// Inspects the items: where each goes, and with what worry. `None` where the worry
    /// about an item grows beyond a `u64`, or where a divisor is 0.
    pub fn inspect_items(&self, items: &[u64], divisor: Option<u64>, modulo: Option<u64>) -> (r:
        Option<Vec<(usize, u64)>>)
        ensures
            match r {
                Some(thrown) => all_inspected(self@, items@, divisor, modulo) == Some(thrown@),
                None => all_inspected(self@, items@, divisor, modulo) is None,
            },
    {
        let ghost each = Seq::new(
            items@.len(),
            |i: int| inspected(self@, items@[i], divisor, modulo),
        );
        let mut thrown: Vec<(usize, u64)> = Vec::new();
        let mut i: usize = 0;
        while i < items.len()
            invariant
                i <= items.len(),
                each == Seq::new(items@.len(), |i: int| inspected(self@, items@[i], divisor, modulo)),
                thrown.len() == i,
                forall|j: int| 0 <= j < i ==> (#[trigger] each[j]) == Some(thrown[j]),
            decreases items.len() - i,
        {
            let item = items[i];
            let worry = match self.operation {
                Operation::Square => item.checked_mul(item),
                Operation::Add(x) => item.checked_add(x),
                Operation::Mult(x) => item.checked_mul(x),
            };
            let mut inspect_val = match worry {
                Some(w) => w,
                None => {
                    assert(each[i as int] is None);
                    return None;
                },
            };
            if let Some(divisor) = divisor {
                if divisor == 0 {
                    assert(each[i as int] is None);
                    return None;
                }
                inspect_val = inspect_val / divisor;
            }
            let mut throw_val = inspect_val;
            if let Some(modulo) = modulo {
                if modulo == 0 {
                    assert(each[i as int] is None);
                    return None;
                }
                throw_val = throw_val % modulo;
            }
            if self.div_test == 0 {
                assert(each[i as int] is None);
                return None;
            }
            if inspect_val % self.div_test == 0 {
                thrown.push((self.throw_true, throw_val));
            } else {
                thrown.push((self.throw_false, throw_val));
            }
            i += 1;
        }
        proof {
            assert(each.len() == thrown.len());
            assert forall|j: int| 0 <= j < each.len() implies (#[trigger] each[j]) is Some by {
                assert(each[j] == Some(thrown[j]));
            }
            assert(gather(each)->0 =~= thrown@);
        }
        Some(thrown)
    }

    /// Reads the description of a monkey; `None` where a line of it cannot be read.
    pub fn from_str_block(input: &str) -> (r: Option<Monkey>)
        ensures
            match r {
                Some(m) => parse_monkey(input@) == Some(m@),
                None => parse_monkey(input@) is None,
            },
    {
        proof {
            reveal_strlit(": ");
            reveal_strlit("= ");
            reveal_strlit("by ");
            reveal_strlit("monkey ");
            assert(": "@ =~= seq![':', ' ']);
            assert("= "@ =~= seq!['=', ' ']);
            assert("by "@ =~= seq!['b', 'y', ' ']);
            assert("monkey "@ =~= seq!['m', 'o', 'n', 'k', 'e', 'y', ' ']);
        }
        let ls = lines(input);
        if ls.len() < 6 {
            return None;
        }
        assert(texts(ls@).len() == ls.len());
        assert(texts(ls@)[1] == ls[1]@);
        assert(texts(ls@)[2] == ls[2]@);
        assert(texts(ls@)[3] == ls[3]@);
        assert(texts(ls@)[4] == ls[4]@);
        assert(texts(ls@)[5] == ls[5]@);
        let starting_items = match split_once(ls[1], ": ") {
            Some((_, list)) => match read_items(list) {
                Some(items) => items,
                None => {
                    return None;
                },
            },
            None => {
                return None;
            },
        };
        let operation = match split_once(ls[2], "= ") {
            Some((_, expr)) => match read_operation(expr) {
                Some(operation) => operation,
                None => {
                    return None;
                },
            },
            None => {
                return None;
            },
        };
        let div_test = match split_once(ls[3], "by ") {
            Some((_, test)) => match parse_u64(test) {
                Some(d) => d,
                None => {
                    return None;
                },
            },
            None => {
                return None;
            },
        };
        let throw_true = match split_once(ls[4], "monkey ") {
            Some((_, if_true)) => match parse_usize(if_true) {
                Some(t) => t,
                None => {
                    return None;
                },
            },
            None => {
                return None;
            },
        };
        let throw_false = match split_once(ls[5], "monkey ") {
            Some((_, if_false)) => match parse_usize(if_false) {
                Some(f) => f,
                None => {
                    return None;
                },
            },
            None => {
                return None;
            },
        };
        Some(Monkey { starting_items, operation, div_test, throw_true, throw_false })
    }
}

/// What follows the first `pat` of a line.
pub open spec fn after(line: Seq<char>, pat: Seq<char>) -> Option<Seq<char>> {
    match split_once_seq(line, pat) {
        Some((_, tail)) => Some(tail),
        None => None,
    }
}

/// The items that a list says: numbers with a comma and a space between them.
pub open spec fn parse_items(list: Seq<char>) -> Option<Seq<u64>> {
    let pieces = split_seq(list, seq![',', ' ']);
    gather(Seq::new(pieces.len(), |i: int| u64_value(pieces[i])))
}

/// The operation that an expression says: `old * old` squares; any other expression that
/// begins with `old *` multiplies by its last word, and every other one adds its last
/// word.
pub open spec fn parse_operation(expr: Seq<char>) -> Option<Operation> {
    if expr == seq!['o', 'l', 'd', ' ', '*', ' ', 'o', 'l', 'd'] {
        Some(Operation::Square)
    } else {
        let number = match last_word_seq(expr) {
            Some(word) => u64_value(word),
            None => None,
        };
        match number {
            Some(x) => if occurs_at(expr, seq!['o', 'l', 'd', ' ', '*'], 0) {
                Some(Operation::Mult(x))
            } else {
                Some(Operation::Add(x))
            },
            None => None,
        }
    }
}

/// The monkey that a description says. The first line is not read; of the five that
/// follow, the first lists the items after `: `, the second gives the operation after
/// `= `, the third the divisor of the test after `by `, the fourth and the fifth the
/// monkeys to throw to after `monkey `.
pub open spec fn parse_monkey(block: Seq<char>) -> Option<MonkeyModel> {
    let ls = lines_seq(block);
    if ls.len() < 6 {
        None
    } else {
        match (
            after(ls[1], seq![':', ' ']),
            after(ls[2], seq!['=', ' ']),
            after(ls[3], seq!['b', 'y', ' ']),
            after(ls[4], seq!['m', 'o', 'n', 'k', 'e', 'y', ' ']),
            after(ls[5], seq!['m', 'o', 'n', 'k', 'e', 'y', ' ']),
        ) {
            (Some(list), Some(expr), Some(test), Some(if_true), Some(if_false)) => match (
                parse_items(list),
                parse_operation(expr),
                u64_value(test),
                usize_value(if_true),
                usize_value(if_false),
            ) {
                (Some(items), Some(operation), Some(div_test), Some(t), Some(f)) => Some(
                    MonkeyModel {
                        starting_items: items,
                        operation: operation,
                        div_test: div_test,
                        throw_true: t,
                        throw_false: f,
                    },
                ),
                _ => None,
            },
            _ => None,
        }
    }
}

/// The monkeys that the descriptions say; an empty line parts them.
pub open spec fn parse_monkeys(input: Seq<char>) -> Option<Seq<MonkeyModel>> {
    let blocks = split_seq(input, seq!['\n', '\n']);
    gather(Seq::new(blocks.len(), |i: int| parse_monkey(blocks[i])))
}

fn read_items(list: &str) -> (r: Option<Vec<u64>>)
    ensures
        match r {
            Some(items) => parse_items(list@) == Some(items@),
            None => parse_items(list@) is None,
        },
{
    proof {
        reveal_strlit(", ");
        assert(", "@ =~= seq![',', ' ']);
    }
    let pieces = split(list, ", ");
    let ghost each = Seq::new(texts(pieces@).len(), |i: int| u64_value(texts(pieces@)[i]));
    let mut items: Vec<u64> = Vec::new();
    let mut i: usize = 0;
    while i < pieces.len()
        invariant
            i <= pieces.len(),
            texts(pieces@) == split_seq(list@, seq![',', ' ']),
            each == Seq::new(texts(pieces@).len(), |i: int| u64_value(texts(pieces@)[i])),
            items.len() == i,
            forall|j: int| 0 <= j < i ==> (#[trigger] each[j]) == Some(items[j]),
        decreases pieces.len() - i,
    {
        assert(texts(pieces@)[i as int] == pieces[i as int]@);
        match parse_u64(pieces[i]) {
            Some(x) => {
                items.push(x);
            },
            None => {
                assert(each[i as int] is None);
                return None;
            },
        }
        i += 1;
    }
    proof {
        assert(each.len() == items.len());
        assert forall|j: int| 0 <= j < each.len() implies (#[trigger] each[j]) is Some by {
            assert(each[j] == Some(items[j]));
        }
        assert(gather(each)->0 =~= items@);
    }
    Some(items)
}

fn read_operation(expr: &str) -> (r: Option<Operation>)
    ensures
        r == parse_operation(expr@),
{
    proof {
        reveal_strlit("old * old");
        reveal_strlit("old *");
        assert("old * old"@ =~= seq!['o', 'l', 'd', ' ', '*', ' ', 'o', 'l', 'd']);
        assert("old *"@ =~= seq!['o', 'l', 'd', ' ', '*']);
    }
    if str_eq(expr, "old * old") {
        Some(Operation::Square)
    } else {
        let number = match last_word(expr) {
            Some(word) => parse_u64(word),
            None => None,
        };
        match number {
            Some(x) => {
                if strip_prefix(expr, "old *").is_some() {
                    Some(Operation::Mult(x))
                } else {
                    Some(Operation::Add(x))
                }
            },
            None => None,
        }
    }
}

/// Reads the descriptions of the monkeys; `None` where one of them cannot be read.
pub fn parse(input: &str) -> (r: Option<Vec<Monkey>>)
    ensures
        match r {
            Some(monkeys) => parse_monkeys(input@) == Some(models(monkeys@)),
            None => parse_monkeys(input@) is None,
        },
{
    proof {
        reveal_strlit("\n\n");
        assert("\n\n"@ =~= seq!['\n', '\n']);
    }
    let blocks = split(input, "\n\n");
    let ghost each = Seq::new(texts(blocks@).len(), |i: int| parse_monkey(texts(blocks@)[i]));
    let mut monkeys: Vec<Monkey> = Vec::new();
    let mut i: usize = 0;
    while i < blocks.len()
        invariant
            i <= blocks.len(),
            texts(blocks@) == split_seq(input@, seq!['\n', '\n']),
            each == Seq::new(texts(blocks@).len(), |i: int| parse_monkey(texts(blocks@)[i])),
            monkeys.len() == i,
            forall|j: int| 0 <= j < i ==> (#[trigger] each[j]) == Some(monkeys[j]@),
        decreases blocks.len() - i,
    {
        assert(texts(blocks@)[i as int] == blocks[i as int]@);
        match Monkey::from_str_block(blocks[i]) {
            Some(monkey) => {
                monkeys.push(monkey);
            },
            None => {
                assert(each[i as int] is None);
                return None;
            },
        }
        i += 1;
    }
    proof {
        assert(each.len() == monkeys.len());
        assert forall|j: int| 0 <= j < each.len() implies (#[trigger] each[j]) is Some by {
            assert(each[j] == Some(monkeys[j]@));
        }
        assert(gather(each)->0 =~= models(monkeys@));
    }
    Some(monkeys)
}

/// The items that the monkeys hold, and how many items each has inspected.
pub struct Troop {
    pub queues: Seq<Seq<u64>>,
    pub counts: Seq<usize>,
}

/// The items of a vector of queues.
pub open spec fn held(queues: Seq<VecDeque<u64>>) -> Seq<Seq<u64>> {
    Seq::new(queues.len(), |i: int| queues[i]@)
}

/// The troop before the first round: each monkey holds its starting items.
pub open spec fn gathered(monkeys: Seq<MonkeyModel>) -> Troop {
    Troop {
        queues: Seq::new(monkeys.len(), |i: int| monkeys[i].starting_items),
        counts: Seq::new(monkeys.len(), |i: int| 0usize),
    }
}

/// The queues after the first `k` of the throws `thrown` have arrived; `None` where one of
/// them goes to a monkey that is not there.
pub open spec fn delivered(queues: Seq<Seq<u64>>, thrown: Seq<(usize, u64)>, k: int) -> Option<
    Seq<Seq<u64>>,
>
    decreases k,
{
    if k <= 0 {
        Some(queues)
    } else {
        match delivered(queues, thrown, k - 1) {
            None => None,
            Some(qs) => {
                let (to, item) = thrown[k - 1];
                if to < qs.len() {
                    Some(qs.update(to as int, qs[to as int].push(item)))
                } else {
                    None
                }
            },
        }
    }
}

/// The troop after monkey `i` has had its turn: it inspects all items that it holds, in
/// their order, and throws each. `None` where a count grows beyond a `usize`, where an
/// item cannot be inspected, or where a throw goes to a monkey that is not there.
pub open spec fn turn(
    t: Troop,
    monkeys: Seq<MonkeyModel>,
    i: int,
    divisor: Option<u64>,
    modulo: Option<u64>,
) -> Option<Troop> {
    let items = t.queues[i];
    if t.counts[i] + items.len() > usize::MAX {
        None
    } else {
        match all_inspected(monkeys[i], items, divisor, modulo) {
            None => None,
            Some(thrown) => match delivered(
                t.queues.update(i, Seq::empty()),
                thrown,
                thrown.len() as int,
            ) {
                None => None,
                Some(qs) => Some(
                    Troop {
                        queues: qs,
                        counts: t.counts.update(i, (t.counts[i] + items.len()) as usize),
                    },
                ),
            },
        }
    }
}

/// The troop after the first `i` monkeys have had their turns.
pub open spec fn turns(
    t: Troop,
    monkeys: Seq<MonkeyModel>,
    i: int,
    divisor: Option<u64>,
    modulo: Option<u64>,
) -> Option<Troop>
    decreases i,
{
    if i <= 0 {
        Some(t)
    } else {
        match turns(t, monkeys, i - 1, divisor, modulo) {
            None => None,
            Some(before) => turn(before, monkeys, i - 1, divisor, modulo),
        }
    }
}

/// The troop after `r` rounds; in a round each monkey has a turn.
pub open spec fn rounds(
    monkeys: Seq<MonkeyModel>,
    r: int,
    divisor: Option<u64>,
    modulo: Option<u64>,
) -> Option<Troop>
    decreases r,
{
    if r <= 0 {
        Some(gathered(monkeys))
    } else {
        match rounds(monkeys, r - 1, divisor, modulo) {
            None => None,
            Some(before) => turns(before, monkeys, monkeys.len() as int, divisor, modulo),
        }
    }
}

/// The order of numbers by size.
pub open spec fn by_size() -> spec_fn(usize, usize) -> bool {
    |a: usize, b: usize| a <= b
}

/// The product of the two largest counts; `None` where there are fewer than two monkeys or
/// the product is more than a `usize` holds.
pub open spec fn business(counts: Seq<usize>) -> Option<usize> {
    let sorted = counts.sort_by(by_size());
    if counts.len() < 2 {
        None
    } else if sorted[sorted.len() - 1] * sorted[sorted.len() - 2] > usize::MAX {
        None
    } else {
        Some((sorted[sorted.len() - 1] * sorted[sorted.len() - 2]) as usize)
    }
}

/// The monkey business after so many rounds.
pub open spec fn monkey_business(
    monkeys: Seq<MonkeyModel>,
    r: int,
    divisor: Option<u64>,
    modulo: Option<u64>,
) -> Option<usize> {
    match rounds(monkeys, r, divisor, modulo) {
        None => None,
        Some(t) => business(t.counts),
    }
}

/// The product of the divisors of the tests of the first `n` monkeys, multiplied one after
/// the other; `None` once a product is more than a `u64` holds.
pub open spec fn test_product(monkeys: Seq<MonkeyModel>, n: int) -> Option<u64>
    decreases n,
{
    if n <= 0 {
        Some(1u64)
    } else {
        match test_product(monkeys, n - 1) {
            None => None,
            Some(p) => if p * monkeys[n - 1].div_test <= u64::MAX {
                Some((p * monkeys[n - 1].div_test) as u64)
            } else {
                None
            },
        }
    }
}

/// Once the product has grown too large, it stays so.
proof fn lemma_test_product_stays_none(monkeys: Seq<MonkeyModel>, k: int, n: int)
    requires
        0 <= k <= n,
        test_product(monkeys, k) is None,
    ensures
        test_product(monkeys, n) is None,
    decreases n - k,
{
    if k < n {
        lemma_test_product_stays_none(monkeys, k, n - 1);
    }
}

/// Once a throw has gone astray, the later throws are never made.
proof fn lemma_delivered_stays_none(queues: Seq<Seq<u64>>, thrown: Seq<(usize, u64)>, k: int, n: int)
    requires
        0 <= k <= n,
        delivered(queues, thrown, k) is None,
    ensures
        delivered(queues, thrown, n) is None,
    decreases n - k,
{
    if k < n {
        lemma_delivered_stays_none(queues, thrown, k, n - 1);
    }
}

/// Once a turn has failed, the later turns are never taken.
proof fn lemma_turns_stay_none(
    t: Troop,
    monkeys: Seq<MonkeyModel>,
    k: int,
    n: int,
    divisor: Option<u64>,
    modulo: Option<u64>,
)
    requires
        0 <= k <= n,
        turns(t, monkeys, k, divisor, modulo) is None,
    ensures
        turns(t, monkeys, n, divisor, modulo) is None,
    decreases n - k,
{
    if k < n {
        lemma_turns_stay_none(t, monkeys, k, n - 1, divisor, modulo);
    }
}

/// Once a round has failed, the later rounds are never played.
proof fn lemma_rounds_stay_none(
    monkeys: Seq<MonkeyModel>,
    k: int,
    n: int,
    divisor: Option<u64>,
    modulo: Option<u64>,
)
    requires
        0 <= k <= n,
        rounds(monkeys, k, divisor, modulo) is None,
    ensures
        rounds(monkeys, n, divisor, modulo) is None,
    decreases n - k,
{
    if k < n {
        lemma_rounds_stay_none(monkeys, k, n - 1, divisor, modulo);
    }
}

/// Takes all items out of a queue, the first first.
fn drain(queue: &mut VecDeque<u64>) -> (items: Vec<u64>)
    ensures
        items@ == old(queue)@,
        final(queue)@ == Seq::<u64>::empty(),
{
    let ghost all = queue@;
    let mut items: Vec<u64> = Vec::new();
    assert(items@ + queue@ =~= all);
    loop
        invariant
            all == old(queue)@,
            items@ + queue@ == all,
        decreases queue@.len(),
    {
        let ghost before = queue@;
        match queue.pop_front() {
            Some(item) => {
                items.push(item);
                assert(items@ + queue@ =~= items@.drop_last() + before);
            },
            None => {
                assert(items@ + queue@ =~= items@);
                assert(queue@ =~= Seq::<u64>::empty());
                return items;
            },
        }
    }
}

/// Hands the thrown items to the monkeys they are thrown to; tells whether every one of
/// them has arrived.
fn deliver(queues: &mut Vec<VecDeque<u64>>, thrown: &Vec<(usize, u64)>) -> (ok: bool)
    ensures
        final(queues).len() == old(queues).len(),
        match delivered(held(old(queues)@), thrown@, thrown.len() as int) {
            Some(qs) => ok && held(final(queues)@) == qs,
            None => !ok,
        },
{
    let ghost start = held(queues@);
    let mut k: usize = 0;
    while k < thrown.len()
        invariant
            k <= thrown.len(),
            start == held(old(queues)@),
            queues.len() == old(queues).len(),
            delivered(start, thrown@, k as int) == Some(held(queues@)),
        decreases thrown.len() - k,
    {
        let (m_index, val) = thrown[k];
        if m_index >= queues.len() {
            proof {
                lemma_delivered_stays_none(start, thrown@, k + 1, thrown.len() as int);
            }
            return false;
        }
        let ghost before = held(queues@);
        assert(before[m_index as int] == queues[m_index as int]@);
        queues[m_index].push_back(val);
        assert(held(queues@) =~= before.update(m_index as int, before[m_index as int].push(val)));
        k += 1;
    }
    true
}

/// Lets monkey `i` have its turn; tells whether the turn could be taken.
fn take_turn(
    monkeys: &[Monkey],
    i: usize,
    queues: &mut Vec<VecDeque<u64>>,
    counts: &mut Vec<usize>,
    divisor: Option<u64>,
    modulo: Option<u64>,
) -> (ok: bool)
    requires
        i < monkeys.len(),
        old(queues).len() == monkeys.len(),
        old(counts).len() == monkeys.len(),
    ensures
        final(queues).len() == monkeys.len(),
        final(counts).len() == monkeys.len(),
        match turn(
            Troop { queues: held(old(queues)@), counts: old(counts)@ },
            models(monkeys@),
            i as int,
            divisor,
            modulo,
        ) {
            Some(t) => ok && t == (Troop { queues: held(final(queues)@), counts: final(counts)@ }),
            None => !ok,
        },
{
    let ghost before = Troop { queues: held(queues@), counts: counts@ };
    assert(before.queues[i as int] == queues[i as int]@);
    assert(models(monkeys@)[i as int] == monkeys[i as int]@);
    let q = drain(&mut queues[i]);
    assert(held(queues@) =~= before.queues.update(i as int, Seq::empty()));
    let count = match counts[i].checked_add(q.len()) {
        Some(count) => count,
        None => {
            return false;
        },
    };
    counts.set(i, count);
    let changes = match monkeys[i].inspect_items(q.as_slice(), divisor, modulo) {
        Some(changes) => changes,
        None => {
            return false;
        },
    };
    deliver(queues, &changes)
}

/// The monkey business after `rounds` rounds: the product of the two largest numbers of
/// inspections. `None` where a turn cannot be taken, where there are fewer than two
/// monkeys, or where the product is more than a `usize` holds.
pub fn process(monkeys: &[Monkey], rounds: usize, divisor: Option<u64>, modulo: Option<u64>) -> (r:
    Option<usize>)
    ensures
        r == monkey_business(models(monkeys@), rounds as int, divisor, modulo),
{
    let ghost ms = models(monkeys@);
    let mut counts: Vec<usize> = Vec::new();
    let mut queues: Vec<VecDeque<u64>> = Vec::new();
    let mut i: usize = 0;
    while i < monkeys.len()
        invariant
            i <= monkeys.len(),
            ms == models(monkeys@),
            counts.len() == i,
            queues.len() == i,
            forall|j: int| 0 <= j < i ==> counts[j] == 0,
            forall|j: int| 0 <= j < i ==> (#[trigger] queues[j])@ == ms[j].starting_items,
        decreases monkeys.len() - i,
    {
        let mut queue: VecDeque<u64> = VecDeque::new();
        let mut k: usize = 0;
        assert(ms[i as int] == monkeys[i as int]@);
        while k < monkeys[i as usize].starting_items.len()
            invariant
                i < monkeys.len(),
                k <= monkeys[i as int].starting_items.len(),
                queue@ == monkeys[i as int].starting_items@.take(k as int),
            decreases monkeys[i as int].starting_items.len() - k,
        {
            queue.push_back(monkeys[i].starting_items[k]);
            assert(queue@ =~= monkeys[i as int].starting_items@.take(k + 1));
            k += 1;
        }
        assert(queue@ =~= monkeys[i as int].starting_items@);
        queues.push(queue);
        counts.push(0);
        i += 1;
    }
    assert(held(queues@) =~= gathered(ms).queues);
    assert(counts@ =~= gathered(ms).counts);

    let mut round: usize = 0;
    while round < rounds
        invariant
            round <= rounds,
            ms == models(monkeys@),
            queues.len() == monkeys.len(),
            counts.len() == monkeys.len(),
            crate::day11::rounds(ms, round as int, divisor, modulo) == Some(
                Troop { queues: held(queues@), counts: counts@ },
            ),
        decreases rounds - round,
    {
        let ghost start = Troop { queues: held(queues@), counts: counts@ };
        let mut i: usize = 0;
        while i < monkeys.len()
            invariant
                i <= monkeys.len(),
                round < rounds,
                ms == models(monkeys@),
                queues.len() == monkeys.len(),
                counts.len() == monkeys.len(),
                crate::day11::rounds(ms, round as int, divisor, modulo) == Some(start),
                turns(start, ms, i as int, divisor, modulo) == Some(
                    Troop { queues: held(queues@), counts: counts@ },
                ),
            decreases monkeys.len() - i,
        {
            if !take_turn(monkeys, i, &mut queues, &mut counts, divisor, modulo) {
                proof {
                    lemma_turns_stay_none(start, ms, i + 1, ms.len() as int, divisor, modulo);
                    lemma_rounds_stay_none(ms, round + 1, rounds as int, divisor, modulo);
                }
                return None;
            }
            i += 1;
        }
        round += 1;
    }
    let ghost final_counts = counts@;
    if counts.len() < 2 {
        return None;
    }
    sort(&mut counts);
    proof {
        assert(total_ordering(by_size()));
        final_counts.lemma_sort_by_ensures(by_size());
        assert(sorted_by(counts@, by_size()));
        lemma_sorted_unique(counts@, final_counts.sort_by(by_size()), by_size());
        to_multiset_len(final_counts);
        to_multiset_len(counts@);
    }
    let x = counts[monkeys.len() - 1];
    let y = counts[monkeys.len() - 2];
    x.checked_mul(y)
}

/// The monkey business after 20 rounds in which the worry about each inspected item is
/// divided by 3.
pub fn part_one(monkeys: &[Monkey]) -> (r: Option<usize>)
    ensures
        r == monkey_business(models(monkeys@), 20, Some(3u64), None),
{
    process(monkeys, 20, Some(3), None)
}

/// The monkey business after 10000 rounds in which the worry is kept small by reducing it
/// by the product of the divisors of all tests. `None` also where that product is more
/// than a `u64` holds.
pub fn part_two(monkeys: &[Monkey]) -> (r: Option<usize>)
    ensures
        r == match test_product(models(monkeys@), monkeys@.len() as int) {
            Some(m) => monkey_business(models(monkeys@), 10000, None, Some(m)),
            None => None,
        },
{
    let ghost ms = models(monkeys@);
    let mut m: u64 = 1;
    let mut i: usize = 0;
    while i < monkeys.len()
        invariant
            i <= monkeys.len(),
            ms == models(monkeys@),
            test_product(ms, i as int) == Some(m),
        decreases monkeys.len() - i,
    {
        assert(ms[i as int] == monkeys[i as int]@);
        m = match m.checked_mul(monkeys[i].div_test) {
            Some(m) => m,
            None => {
                proof {
                    lemma_test_product_stays_none(ms, i + 1, ms.len() as int);
                }
                return None;
            },
        };
        i += 1;
    }
    process(monkeys, 10000, None, Some(m))
}

} // verus!

//! Rucksack reorganisation again: the badge of a group is looked for among the items of
//! its smallest rucksack, and priorities are computed from the letters themselves.

use vstd::prelude::*;
use vstd::seq_lib::{to_multiset_contains, to_multiset_len};
use vstd::slice::slice_subrange;
use crate::day03::{
    as_usize, badge, contents, first_shared, group_at, holds, holds_item, in_all, is_badge,
    lemma_badge_unique, Rucksack,
};
use crate::trusted::sorted_by_len;

verus! {

/// The characters that have a priority here: the small letters, and every character from
/// `A` on.
pub open spec fn has_priority(c: char) -> bool {
    ('a' <= c <= 'z') || 'A' <= c
}

/// The priority of a character: 1 to 26 from `a` to `z`; for any other character its
/// distance from `A`, and 27 more, which is 27 to 52 from `A` to `Z`.
pub open spec fn priority_of(c: char) -> nat {
    if 'a' <= c <= 'z' {
        (c as u32 - 'a' as u32 + 1) as nat
    } else {
        (c as u32 - 'A' as u32 + 27) as nat
    }
}

/// The priority of an item, where there is an item and it has one.
pub open spec fn item_priority(item: Option<char>) -> Option<nat> {
    match item {
        Some(c) => if has_priority(c) {
            Some(priority_of(c))
        } else {
            None
        },
        None => None,
    }
}

/// The sum of the priorities of the items that the compartments of each rucksack share,
/// over the rucksacks from position `from` on.
pub open spec fn shared_total(rs: Seq<(Seq<char>, Seq<char>)>, from: int) -> Option<nat>
    decreases rs.len() - from,
{
    if from < 0 || from >= rs.len() {
        Some(0nat)
    } else {
        match (
            item_priority(first_shared(rs[from].0, rs[from].1, 0)),
            shared_total(rs, from + 1),
        ) {
            (Some(p), Some(total)) => Some(p + total),
            _ => None,
        }
    }
}

/// The sum of the priorities of the badges of the groups of three that begin at position
/// `from` and after; the last group may be smaller.
pub open spec fn badge_total(rs: Seq<(Seq<char>, Seq<char>)>, from: int) -> Option<nat>
    decreases rs.len() - from,
{
    if from < 0 || from >= rs.len() {
        Some(0nat)
    } else {
        let next = if from + 3 <= rs.len() {
            from + 3
        } else {
            rs.len() as int
        };
        match (item_priority(badge(group_at(rs, from))), badge_total(rs, next)) {
            (Some(p), Some(total)) => Some(p + total),
            _ => None,
        }
    }
}

/// `items` holds exactly the items of the rucksack `r`.
pub open spec fn lists(items: Seq<char>, r: (Seq<char>, Seq<char>)) -> bool {
    forall|c: char| #[trigger] items.contains(c) <==> holds_item(r, c)
}

/// Whether each of the lists from position `from` on holds `c`.
fn rest_hold(sets: &Vec<Vec<char>>, from: usize, c: char) -> (r: bool)
    ensures
        r == forall|k: int| from <= k < sets.len() ==> (#[trigger] sets[k])@.contains(c),
{
    let mut k: usize = from;
    while k < sets.len()
        invariant
            from <= k || k == from,
            forall|j: int| from <= j < k ==> (#[trigger] sets[j])@.contains(c),
        decreases sets.len() - k,
    {
        if !holds(&sets[k], c) {
            return false;
        }
        k += 1;
    }
    true
}

/// The badge of a group of rucksacks, if the group has one.
pub fn common_item(rucksacks: &[Rucksack]) -> (r: Option<char>)
    ensures
        r == badge(contents(rucksacks@)),
{
    let ghost rs = contents(rucksacks@);
    if rucksacks.len() == 0 {
        return None;
    }
    let mut sets: Vec<Vec<char>> = Vec::new();
    let mut i: usize = 0;
    while i < rucksacks.len()
        invariant
            i <= rucksacks.len(),
            rs == contents(rucksacks@),
            sets.len() == i,
            forall|j: int| 0 <= j < i ==> lists((#[trigger] sets[j])@, rs[j]),
        decreases rucksacks.len() - i,
    {
        let items = rucksacks[i].unique_items();
        assert(rs[i as int] == rucksacks[i as int]@);
        sets.push(items);
        i += 1;
    }
    let ghost unsorted = sets@;
    let char_sets = sorted_by_len(sets);
    proof {
        to_multiset_len(unsorted);
        to_multiset_len(char_sets@);
    }
    assert forall|c: char|
        in_all(rs, c) <==> (forall|k: int|
            0 <= k < char_sets.len() ==> (#[trigger] char_sets[k])@.contains(c)) by {
        if in_all(rs, c) {
            assert forall|k: int| 0 <= k < char_sets.len() implies (#[trigger] char_sets[k])@.contains(
                c,
            ) by {
                assert(char_sets@.contains(char_sets[k]));
                to_multiset_contains(char_sets@, char_sets[k]);
                to_multiset_contains(unsorted, char_sets[k]);
                let j = choose|j: int| 0 <= j < unsorted.len() && unsorted[j] == char_sets[k];
                assert(lists(unsorted[j]@, rs[j]));
                assert(holds_item(rs[j], c));
            }
        }
        if forall|k: int| 0 <= k < char_sets.len() ==> (#[trigger] char_sets[k])@.contains(c) {
            assert forall|j: int| 0 <= j < rs.len() implies holds_item(#[trigger] rs[j], c) by {
                assert(unsorted.contains(unsorted[j]));
                to_multiset_contains(char_sets@, unsorted[j]);
                to_multiset_contains(unsorted, unsorted[j]);
                let k = choose|k: int| 0 <= k < char_sets.len() && char_sets[k] == unsorted[j];
                assert(char_sets[k]@.contains(c));
                assert(lists(unsorted[j]@, rs[j]));
            }
        }
    }
    let mut best: Option<char> = None;
    let mut m: usize = 0;
    while m < char_sets[0].len()
        invariant
            char_sets.len() > 0,
            m <= char_sets[0].len(),
            forall|c: char|
                in_all(rs, c) <==> (forall|k: int|
                    0 <= k < char_sets.len() ==> (#[trigger] char_sets[k])@.contains(c)),
            match best {
                Some(b) => in_all(rs, b) && forall|j: int|
                    0 <= j < m && in_all(rs, #[trigger] char_sets[0][j]) ==> b <= char_sets[0][j],
                None => forall|j: int| 0 <= j < m ==> !in_all(rs, #[trigger] char_sets[0][j]),
            },
        decreases char_sets[0].len() - m,
    {
        let c = char_sets[0][m];
        assert(char_sets[0]@.contains(c));
        if rest_hold(&char_sets, 1, c) {
            assert forall|k: int| 0 <= k < char_sets.len() implies (#[trigger] char_sets[k])@.contains(
                c,
            ) by {}
            assert(in_all(rs, c));
            match best {
                Some(b) => {
                    if c < b {
                        best = Some(c);
                    }
                },
                None => {
                    best = Some(c);
                },
            }
        } else {
            assert(!in_all(rs, c));
        }
        m += 1;
    }
    proof {
        match best {
            Some(b) => {
                assert forall|d: char| in_all(rs, d) implies b <= d by {
                    assert(char_sets[0]@.contains(d));
                    let j = choose|j: int| 0 <= j < char_sets[0].len() && char_sets[0][j] == d;
                    assert(in_all(rs, char_sets[0][j]));
                }
                lemma_badge_unique(rs, b);
            },
            None => {
                if exists|c: char| is_badge(rs, c) {
                    let c = choose|c: char| is_badge(rs, c);
                    assert(char_sets[0]@.contains(c));
                    let j = choose|j: int| 0 <= j < char_sets[0].len() && char_sets[0][j] == c;
                    assert(!in_all(rs, char_sets[0][j]));
                }
            },
        }
    }
    best
}

/// The priority of a character, computed from its place in the alphabet.
pub fn priority(c: char) -> (p: usize)
    requires
        has_priority(c),
    ensures
        p == priority_of(c),
{
    if c >= 'a' && c <= 'z' {
        c as usize - 'a' as usize + 1
    } else {
        c as usize - 'A' as usize + 27
    }
}

/// The sum of the priorities of the items that the compartments of each rucksack share;
/// `None` where a rucksack has no such item, where the item has no priority, or where the
/// sum is more than a `usize` holds.
pub fn part_one(rucksacks: &[Rucksack]) -> (r: Option<usize>)
    ensures
        r == as_usize(shared_total(contents(rucksacks@), 0)),
{
    let ghost rs = contents(rucksacks@);
    let mut total: usize = 0;
    let mut i: usize = 0;
    while i < rucksacks.len()
        invariant
            i <= rucksacks.len(),
            rs == contents(rucksacks@),
            match shared_total(rs, i as int) {
                Some(rest) => shared_total(rs, 0) == Some((total + rest) as nat),
                None => shared_total(rs, 0) is None,
            },
        decreases rucksacks.len() - i,
    {
        assert(rs[i as int] == rucksacks[i as int]@);
        match rucksacks[i].common_item() {
            Some(c) => {
                if !((c >= 'a' && c <= 'z') || c >= 'A') {
                    return None;
                }
                let p = priority(c);
                if total > usize::MAX - p {
                    return None;
                }
                total = total + p;
            },
            None => {
                return None;
            },
        }
        i += 1;
    }
    Some(total)
}

/// The sum of the priorities of the badges of the groups of three rucksacks; `None` where
/// a group has no badge, where the badge has no priority, or where the sum is more than a
/// `usize` holds.
pub fn part_two(rucksacks: &[Rucksack]) -> (r: Option<usize>)
    ensures
        r == as_usize(badge_total(contents(rucksacks@), 0)),
{
    let ghost rs = contents(rucksacks@);
    let mut total: usize = 0;
    let mut i: usize = 0;
    while i < rucksacks.len()
        invariant
            i <= rucksacks.len(),
            rs == contents(rucksacks@),
            match badge_total(rs, i as int) {
                Some(rest) => badge_total(rs, 0) == Some((total + rest) as nat),
                None => badge_total(rs, 0) is None,
            },
        decreases rucksacks.len() - i,
    {
        let end = if rucksacks.len() - i >= 3 {
            i + 3
        } else {
            rucksacks.len()
        };
        let group = slice_subrange(rucksacks, i, end);
        assert(contents(group@) =~= group_at(rs, i as int));
        match common_item(group) {
            Some(c) => {
                if !((c >= 'a' && c <= 'z') || c >= 'A') {
                    return None;
                }
                let p = priority(c);
                if total > usize::MAX - p {
                    return None;
                }
                total = total + p;
            },
            None => {
                return None;
            },
        }
        i = end;
    }
    Some(total)
}

} // verus!

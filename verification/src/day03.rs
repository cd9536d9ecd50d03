//! Rucksack reorganisation: items packed into two compartments, each item a letter.

use vstd::prelude::*;
use vstd::slice::slice_subrange;
use vstd::string::StringSliceAdditionalSpecFns;
use vstd::utf8::encode_utf8;
use crate::text::{chars_of, gather, lines, lines_seq, texts};

verus! {

/// A rucksack: the items of its first and of its second compartment.
#[derive(PartialEq, Debug, Clone)]
pub struct Rucksack(pub Vec<char>, pub Vec<char>);

impl View for Rucksack {
    type V = (Seq<char>, Seq<char>);

    open spec fn view(&self) -> (Seq<char>, Seq<char>) {
        (self.0@, self.1@)
    }
}

/// The contents of a sequence of rucksacks.
pub open spec fn contents(rs: Seq<Rucksack>) -> Seq<(Seq<char>, Seq<char>)> {
    Seq::new(rs.len(), |i: int| rs[i]@)
}

/// The two compartments that a line fills: the line is cut after as many characters as
/// half its length in bytes, which is its middle when every item is one byte long.
pub open spec fn compartments(line: Seq<char>) -> Option<(Seq<char>, Seq<char>)> {
    let middle = encode_utf8(line).len() / 2;
    if middle <= line.len() {
        Some((line.subrange(0, middle as int), line.subrange(middle as int, line.len() as int)))
    } else {
        None
    }
}

/// The first item of `a`, from position `from` on, that `b` holds too.
pub open spec fn first_shared(a: Seq<char>, b: Seq<char>, from: int) -> Option<char>
    decreases a.len() - from,
{
    if from < 0 || from >= a.len() {
        None
    } else if b.contains(a[from]) {
        Some(a[from])
    } else {
        first_shared(a, b, from + 1)
    }
}

/// The different items of `s`, each at the place where it first occurs.
pub open spec fn distinct(s: Seq<char>) -> Seq<char>
    decreases s.len(),
{
    if s.len() == 0 {
        Seq::empty()
    } else if distinct(s.drop_last()).contains(s.last()) {
        distinct(s.drop_last())
    } else {
        distinct(s.drop_last()).push(s.last())
    }
}

/// One of the compartments of `r` holds `c`.
pub open spec fn holds_item(r: (Seq<char>, Seq<char>), c: char) -> bool {
    r.0.contains(c) || r.1.contains(c)
}

/// Every rucksack of `rs` holds `c`.
pub open spec fn in_all(rs: Seq<(Seq<char>, Seq<char>)>, c: char) -> bool {
    forall|i: int| 0 <= i < rs.len() ==> holds_item(#[trigger] rs[i], c)
}

/// `c` is the badge of the group `rs`: the least of the items that every rucksack of the
/// group holds.
pub open spec fn is_badge(rs: Seq<(Seq<char>, Seq<char>)>, c: char) -> bool {
    &&& rs.len() > 0
    &&& in_all(rs, c)
    &&& forall|d: char| in_all(rs, d) ==> c <= d
}

/// The badge of a group, if the group has one.
pub open spec fn badge(rs: Seq<(Seq<char>, Seq<char>)>) -> Option<char> {
    if exists|c: char| is_badge(rs, c) {
        Some(choose|c: char| is_badge(rs, c))
    } else {
        None
    }
}

/// A group has one badge at most.
pub proof fn lemma_badge_unique(rs: Seq<(Seq<char>, Seq<char>)>, c: char)
    requires
        is_badge(rs, c),
    ensures
        badge(rs) == Some(c),
{
    let d = choose|d: char| is_badge(rs, d);
    assert(c <= d && d <= c);
}

/// Whether `c` is a letter of the English alphabet.
pub open spec fn is_letter(c: char) -> bool {
    ('a' <= c <= 'z') || ('A' <= c <= 'Z')
}

/// The priority of a letter: 1 to 26 from `a` to `z`, 27 to 52 from `A` to `Z`.
pub open spec fn priority_of(c: char) -> nat {
    if 'a' <= c <= 'z' {
        (c as u32 - 'a' as u32 + 1) as nat
    } else {
        (c as u32 - 'A' as u32 + 27) as nat
    }
}

/// The priority of an item, where there is an item and it is a letter.
pub open spec fn letter_priority(item: Option<char>) -> Option<nat> {
    match item {
        Some(c) => if is_letter(c) {
            Some(priority_of(c))
        } else {
            None
        },
        None => None,
    }
}

/// The sum of the priorities of the items that the compartments of each rucksack share,
/// over the rucksacks from position `from` on.
pub open spec fn shared_total(rs: Seq<(Seq<char>, Seq<char>)>, from: int) -> Option<nat>
    decreases rs.len() - from,
{
    if from < 0 || from >= rs.len() {
        Some(0nat)
    } else {
        match (
            letter_priority(first_shared(rs[from].0, rs[from].1, 0)),
            shared_total(rs, from + 1),
        ) {
            (Some(p), Some(total)) => Some(p + total),
            _ => None,
        }
    }
}

/// The group of at most three rucksacks that begins at position `from`.
pub open spec fn group_at(rs: Seq<(Seq<char>, Seq<char>)>, from: int) -> Seq<
    (Seq<char>, Seq<char>),
> {
    rs.subrange(
        from,
        if from + 3 <= rs.len() {
            from + 3
        } else {
            rs.len() as int
        },
    )
}

/// The sum of the priorities of the badges of the groups of three that begin at position
/// `from` and after; the last group may be smaller.
pub open spec fn badge_total(rs: Seq<(Seq<char>, Seq<char>)>, from: int) -> Option<nat>
    decreases rs.len() - from,
{
    if from < 0 || from >= rs.len() {
        Some(0nat)
    } else {
        let next = if from + 3 <= rs.len() {
            from + 3
        } else {
            rs.len() as int
        };
        match (letter_priority(badge(group_at(rs, from))), badge_total(rs, next)) {
            (Some(p), Some(total)) => Some(p + total),
            _ => None,
        }
    }
}

/// A total, where there is one and a `usize` can hold it.
pub open spec fn as_usize(total: Option<nat>) -> Option<usize> {
    match total {
        Some(t) => if t <= usize::MAX {
            Some(t as usize)
        } else {
            None
        },
        None => None,
    }
}

/// `distinct` keeps every item once.
pub proof fn lemma_distinct(s: Seq<char>)
    ensures
        distinct(s).no_duplicates(),
        forall|c: char| #[trigger] distinct(s).contains(c) <==> s.contains(c),
    decreases s.len(),
{
    if s.len() > 0 {
        let front = s.drop_last();
        let d = distinct(front);
        lemma_distinct(front);
        assert forall|c: char| #[trigger] distinct(s).contains(c) <==> s.contains(c) by {
            if s.contains(c) {
                let i = choose|i: int| 0 <= i < s.len() && s[i] == c;
                if i < s.len() - 1 {
                    assert(front[i] == c);
                    assert(front.contains(c));
                    assert(d.contains(c));
                }
                if !d.contains(s.last()) {
                    assert(d.push(s.last())[d.len() as int] == s.last());
                }
                if d.contains(c) {
                    let j = choose|j: int| 0 <= j < d.len() && d[j] == c;
                    assert(distinct(s)[j] == c);
                }
            }
            if distinct(s).contains(c) {
                let j = choose|j: int| 0 <= j < distinct(s).len() && distinct(s)[j] == c;
                if j < d.len() {
                    assert(d[j] == c);
                    assert(d.contains(c));
                    assert(front.contains(c));
                    let i = choose|i: int| 0 <= i < front.len() && front[i] == c;
                    assert(s[i] == c);
                } else {
                    assert(s[s.len() - 1] == c);
                }
            }
        }
    }
}

/// Whether `v` holds `c`.
pub fn holds(v: &Vec<char>, c: char) -> (r: bool)
    ensures
        r == v@.contains(c),
{
    let mut i: usize = 0;
    while i < v.len()
        invariant
            i <= v.len(),
            forall|j: int| 0 <= j < i ==> v[j] != c,
        decreases v.len() - i,
    {
        if v[i] == c {
            return true;
        }
        i += 1;
    }
    false
}

/// The items of `a` that `b` holds too, in the order of `a`.
fn intersection(a: &Vec<char>, b: &Vec<char>) -> (r: Vec<char>)
    ensures
        forall|c: char| #[trigger] r@.contains(c) <==> a@.contains(c) && b@.contains(c),
{
    let mut r: Vec<char> = Vec::new();
    let mut i: usize = 0;
    while i < a.len()
        invariant
            i <= a.len(),
            forall|c: char| #[trigger]
                r@.contains(c) <==> a@.take(i as int).contains(c) && b@.contains(c),
        decreases a.len() - i,
    {
        let x = a[i];
        let ghost before = r@;
        let keep = holds(b, x);
        if keep {
            r.push(x);
        }
        let ghost pre = a@.take(i as int);
        let ghost post = a@.take(i + 1);
        assert forall|c: char| #[trigger] r@.contains(c) <==> post.contains(c) && b@.contains(
            c,
        ) by {
            if post.contains(c) {
                let j = choose|j: int| 0 <= j < post.len() && post[j] == c;
                if j < i {
                    assert(pre[j] == c);
                    assert(pre.contains(c));
                }
            }
            if pre.contains(c) {
                let j = choose|j: int| 0 <= j < pre.len() && pre[j] == c;
                assert(post[j] == c);
            }
            assert(post[i as int] == x);
            if before.contains(c) {
                let j = choose|j: int| 0 <= j < before.len() && before[j] == c;
                assert(r@[j] == c);
            }
            if r@.contains(c) {
                let j = choose|j: int| 0 <= j < r@.len() && r@[j] == c;
                if j < before.len() {
                    assert(before[j] == c);
                }
            }
            if keep {
                assert(r@[before.len() as int] == x);
            }
        }
        i += 1;
    }
    assert(a@.take(i as int) =~= a@);
    r
}

/// The least item of `v`; `None` where `v` is empty.
pub fn least(v: &Vec<char>) -> (r: Option<char>)
    ensures
        match r {
            Some(m) => v@.contains(m) && forall|c: char| v@.contains(c) ==> m <= c,
            None => v.len() == 0,
        },
{
    if v.len() == 0 {
        return None;
    }
    let mut m: char = v[0];
    let mut i: usize = 1;
    while i < v.len()
        invariant
            1 <= i <= v.len(),
            v@.contains(m),
            forall|j: int| 0 <= j < i ==> m <= v[j],
        decreases v.len() - i,
    {
        if v[i] < m {
            m = v[i];
        }
        i += 1;
    }
    Some(m)
}

impl Rucksack {
    /// The rucksack that a line describes.
    pub fn from_input(s: &str) -> (r: Rucksack)
        requires
            compartments(s@) is Some,
        ensures
            Some(r@) == compartments(s@),
    {
        let middle = s.as_bytes().len() / 2;
        let chars = chars_of(s);
        let mut first: Vec<char> = Vec::new();
        let mut second: Vec<char> = Vec::new();
        let mut i: usize = 0;
        assert(first@ =~= chars@.subrange(0, 0));
        assert(second@ =~= chars@.subrange(middle as int, middle as int));
        while i < chars.len()
            invariant
                i <= chars.len(),
                middle <= chars.len(),
                first@ == chars@.subrange(
                    0,
                    if i < middle {
                        i as int
                    } else {
                        middle as int
                    },
                ),
                second@ == chars@.subrange(
                    middle as int,
                    if i < middle {
                        middle as int
                    } else {
                        i as int
                    },
                ),
            decreases chars.len() - i,
        {
            if i < middle {
                first.push(chars[i]);
                assert(first@ =~= chars@.subrange(0, i + 1));
            } else {
                second.push(chars[i]);
                assert(second@ =~= chars@.subrange(middle as int, i + 1));
            }
            i += 1;
        }
        Rucksack(first, second)
    }

    /// The first item of the first compartment that the second compartment holds too.
    pub fn common_item(&self) -> (r: Option<char>)
        ensures
            r == first_shared(self.0@, self.1@, 0),
    {
        let mut i: usize = 0;
        while i < self.0.len()
            invariant
                i <= self.0.len(),
                first_shared(self.0@, self.1@, 0) == first_shared(self.0@, self.1@, i as int),
            decreases self.0.len() - i,
        {
            let c = self.0[i];
            if holds(&self.1, c) {
                return Some(c);
            }
            i += 1;
        }
        None
    }

    /// The different items of the rucksack, each at the place where it first occurs.
    pub fn unique_items(&self) -> (items: Vec<char>)
        ensures
            items@ == distinct(self.0@ + self.1@),
            items@.no_duplicates(),
            forall|c: char| #[trigger] items@.contains(c) <==> holds_item(self@, c),
    {
        let ghost all = self.0@ + self.1@;
        let mut items: Vec<char> = Vec::new();
        let mut i: usize = 0;
        assert(all.take(0) =~= Seq::empty());
        while i < self.0.len()
            invariant
                i <= self.0.len(),
                all == self.0@ + self.1@,
                items@ == distinct(all.take(i as int)),
            decreases self.0.len() - i,
        {
            assert(all.take(i + 1).drop_last() =~= all.take(i as int));
            assert(all.take(i + 1).last() == self.0[i as int]);
            if !holds(&items, self.0[i]) {
                items.push(self.0[i]);
            }
            i += 1;
        }
        let mut j: usize = 0;
        while j < self.1.len()
            invariant
                j <= self.1.len(),
                all == self.0@ + self.1@,
                items@ == distinct(all.take(self.0.len() + j)),
            decreases self.1.len() - j,
        {
            assert(all.take(self.0.len() + j + 1).drop_last() =~= all.take(self.0.len() + j));
            assert(all.take(self.0.len() + j + 1).last() == self.1[j as int]);
            if !holds(&items, self.1[j]) {
                items.push(self.1[j]);
            }
            j += 1;
        }
        proof {
            assert(all.take(self.0.len() + j) =~= all);
            lemma_distinct(all);
            assert forall|c: char| all.contains(c) <==> holds_item(self@, c) by {
                if all.contains(c) {
                    let k = choose|k: int| 0 <= k < all.len() && all[k] == c;
                    if k < self.0.len() {
                        assert(self.0@[k] == c);
                    } else {
                        assert(self.1@[k - self.0.len()] == c);
                    }
                }
                if self.0@.contains(c) {
                    let k = choose|k: int| 0 <= k < self.0.len() && self.0@[k] == c;
                    assert(all[k] == c);
                }
                if self.1@.contains(c) {
                    let k = choose|k: int| 0 <= k < self.1.len() && self.1@[k] == c;
                    assert(all[self.0.len() + k] == c);
                }
            }
        }
        items
    }
}

/// The items that every rucksack of a group holds.
fn shared_items(rucksacks: &[Rucksack]) -> (items: Vec<char>)
    requires
        rucksacks.len() > 0,
    ensures
        forall|c: char| #[trigger] items@.contains(c) <==> in_all(contents(rucksacks@), c),
{
    let ghost rs = contents(rucksacks@);
    let mut items = rucksacks[0].unique_items();
    assert(rs[0] == rucksacks[0]@);
    assert forall|c: char| #[trigger] items@.contains(c) <==> in_all(rs.take(1), c) by {
        assert(rs.take(1)[0] == rs[0]);
    }
    let mut i: usize = 1;
    while i < rucksacks.len()
        invariant
            1 <= i <= rucksacks.len(),
            rs == contents(rucksacks@),
            forall|c: char| #[trigger] items@.contains(c) <==> in_all(rs.take(i as int), c),
        decreases rucksacks.len() - i,
    {
        let other = rucksacks[i].unique_items();
        let ghost before = items@;
        items = intersection(&items, &other);
        assert(rs[i as int] == rucksacks[i as int]@);
        assert forall|c: char| #[trigger] items@.contains(c) <==> in_all(rs.take(i + 1), c) by {
            if in_all(rs.take(i + 1), c) {
                assert(rs.take(i + 1)[i as int] == rs[i as int]);
                assert forall|j: int| 0 <= j < i implies holds_item(
                    #[trigger] rs.take(i as int)[j],
                    c,
                ) by {
                    assert(rs.take(i + 1)[j] == rs.take(i as int)[j]);
                }
            }
            if in_all(rs.take(i as int), c) && holds_item(rs[i as int], c) {
                assert forall|j: int| 0 <= j < i + 1 implies holds_item(
                    #[trigger] rs.take(i + 1)[j],
                    c,
                ) by {
                    if j < i {
                        assert(rs.take(i + 1)[j] == rs.take(i as int)[j]);
                    }
                }
            }
        }
        i += 1;
    }
    assert(rs.take(i as int) =~= rs);
    items
}

/// The badge of a group of rucksacks, if the group has one.
pub fn find_badge(rucksacks: &[Rucksack]) -> (r: Option<char>)
    ensures
        r == badge(contents(rucksacks@)),
{
    let ghost rs = contents(rucksacks@);
    if rucksacks.len() == 0 {
        return None;
    }
    let items = shared_items(rucksacks);
    match least(&items) {
        Some(c) => {
            proof {
                assert forall|d: char| in_all(rs, d) implies c <= d by {
                    assert(items@.contains(d));
                }
                lemma_badge_unique(rs, c);
            }
            Some(c)
        },
        None => {
            proof {
                if exists|c: char| is_badge(rs, c) {
                    let c = choose|c: char| is_badge(rs, c);
                    assert(items@.contains(c));
                }
            }
            None
        },
    }
}

/// The badge of a group of rucksacks that has one.
pub fn common_item(rucksacks: &[Rucksack]) -> (c: char)
    requires
        badge(contents(rucksacks@)) is Some,
    ensures
        is_badge(contents(rucksacks@), c),
        badge(contents(rucksacks@)) == Some(c),
{
    match find_badge(rucksacks) {
        Some(c) => c,
        None => 'a',
    }
}

/// Whether `c` is a letter of the English alphabet.
pub fn letter(c: char) -> (r: bool)
    ensures
        r == is_letter(c),
{
    (c >= 'a' && c <= 'z') || (c >= 'A' && c <= 'Z')
}

/// The priority of a letter, looked up in the alphabet.
pub fn priority(c: char) -> (p: usize)
    requires
        is_letter(c),
    ensures
        p == priority_of(c),
{
    let mut chars: Vec<char> = Vec::new();
    let mut k: u8 = 0;
    while k < 26
        invariant
            k <= 26,
            chars.len() == k,
            forall|j: int| 0 <= j < k ==> chars[j] as u32 == 'a' as u32 + j,
        decreases 26 - k,
    {
        chars.push((97u8 + k) as char);
        k += 1;
    }
    let mut k: u8 = 0;
    while k < 26
        invariant
            k <= 26,
            chars.len() == 26 + k,
            forall|j: int| 0 <= j < 26 ==> chars[j] as u32 == 'a' as u32 + j,
            forall|j: int| 26 <= j < 26 + k ==> chars[j] as u32 == 'A' as u32 + j - 26,
        decreases 26 - k,
    {
        chars.push((65u8 + k) as char);
        k += 1;
    }
    let mut i: usize = 0;
    while i < chars.len()
        invariant
            i <= chars.len(),
            chars.len() == 52,
            is_letter(c),
            forall|j: int| 0 <= j < 26 ==> chars[j] as u32 == 'a' as u32 + j,
            forall|j: int| 26 <= j < 52 ==> chars[j] as u32 == 'A' as u32 + j - 26,
            forall|j: int| 0 <= j < i ==> chars[j] != c,
        decreases chars.len() - i,
    {
        if chars[i] == c {
            return i + 1;
        }
        i += 1;
    }
    proof {
        let at = if 'a' <= c <= 'z' {
            c as u32 - 'a' as u32
        } else {
            26 + (c as u32 - 'A' as u32)
        };
        assert(chars[at] as u32 == c as u32);
        vstd::utf8::char_u32_cast(c, c as u32);
        vstd::utf8::char_u32_cast(chars[at], chars[at] as u32);
        assert(chars[at] != c);
    }
    0
}

/// The sum of the priorities of the items that the compartments of each rucksack share;
/// `None` where a rucksack has no such item, where the item is no letter, or where the sum
/// is more than a `usize` holds.
pub fn part_one(rucksacks: Vec<Rucksack>) -> (r: Option<usize>)
    ensures
        r == as_usize(shared_total(contents(rucksacks@), 0)),
{
    let ghost rs = contents(rucksacks@);
    let mut total: usize = 0;
    let mut i: usize = 0;
    while i < rucksacks.len()
        invariant
            i <= rucksacks.len(),
            rs == contents(rucksacks@),
            match shared_total(rs, i as int) {
                Some(rest) => shared_total(rs, 0) == Some((total + rest) as nat),
                None => shared_total(rs, 0) is None,
            },
        decreases rucksacks.len() - i,
    {
        assert(rs[i as int] == rucksacks[i as int]@);
        match rucksacks[i].common_item() {
            Some(c) => {
                if !letter(c) {
                    return None;
                }
                let p = priority(c);
                if total > usize::MAX - p {
                    return None;
                }
                total = total + p;
            },
            None => {
                return None;
            },
        }
        i += 1;
    }
    Some(total)
}

/// The sum of the priorities of the badges of the groups of three rucksacks; `None` where
/// a group has no badge, where the badge is no letter, or where the sum is more than a
/// `usize` holds.
pub fn part_two(rucksacks: Vec<Rucksack>) -> (r: Option<usize>)
    ensures
        r == as_usize(badge_total(contents(rucksacks@), 0)),
{
    let ghost rs = contents(rucksacks@);
    let mut total: usize = 0;
    let mut i: usize = 0;
    while i < rucksacks.len()
        invariant
            i <= rucksacks.len(),
            rs == contents(rucksacks@),
            match badge_total(rs, i as int) {
                Some(rest) => badge_total(rs, 0) == Some((total + rest) as nat),
                None => badge_total(rs, 0) is None,
            },
        decreases rucksacks.len() - i,
    {
        let end = if rucksacks.len() - i >= 3 {
            i + 3
        } else {
            rucksacks.len()
        };
        let group = slice_subrange(rucksacks.as_slice(), i, end);
        assert(contents(group@) =~= group_at(rs, i as int));
        match find_badge(group) {
            Some(c) => {
                if !letter(c) {
                    return None;
                }
                let p = priority(c);
                if total > usize::MAX - p {
                    return None;
                }
                total = total + p;
            },
            None => {
                return None;
            },
        }
        i = end;
    }
    Some(total)
}

/// The rucksacks that the lines of a packing list describe.
pub open spec fn rucksacks_of(input: Seq<char>) -> Option<Seq<(Seq<char>, Seq<char>)>> {
    let ls = lines_seq(input);
    gather(Seq::new(ls.len(), |i: int| compartments(ls[i])))
}

/// Reads a packing list, a rucksack from each line; `None` where a line cannot be cut in
/// two at half its length in bytes.
pub fn parse(input: &str) -> (r: Option<Vec<Rucksack>>)
    ensures
        match r {
            Some(rucksacks) => rucksacks_of(input@) == Some(contents(rucksacks@)),
            None => rucksacks_of(input@) is None,
        },
{
    let ls = lines(input);
    let ghost items = Seq::new(texts(ls@).len(), |i: int| compartments(texts(ls@)[i]));
    let mut rucksacks: Vec<Rucksack> = Vec::new();
    let mut i: usize = 0;
    while i < ls.len()
        invariant
            i <= ls.len(),
            texts(ls@) == lines_seq(input@),
            items == Seq::new(texts(ls@).len(), |i: int| compartments(texts(ls@)[i])),
            rucksacks.len() == i,
            forall|j: int| 0 <= j < i ==> (#[trigger] items[j]) == Some(rucksacks[j]@),
        decreases ls.len() - i,
    {
        assert(texts(ls@)[i as int] == ls[i as int]@);
        let line = ls[i];
        if line.as_bytes().len() / 2 > line.unicode_len() {
            assert(items[i as int] is None);
            return None;
        }
        rucksacks.push(Rucksack::from_input(line));
        i += 1;
    }
    proof {
        assert(items.len() == rucksacks.len());
        assert forall|j: int| 0 <= j < items.len() implies (#[trigger] items[j]) is Some by {
            assert(items[j] == Some(rucksacks[j]@));
        }
        assert(gather(items)->0 =~= contents(rucksacks@));
    }
    Some(rucksacks)
}

} // verus!

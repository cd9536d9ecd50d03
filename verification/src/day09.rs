//! Rope bridge: a rope of knots whose head is moved step by step, each knot following the
//! one before it.

use vstd::prelude::*;
use crate::text::{gather, lines, lines_seq, parse_usize, split_once, split_once_seq, str_eq, texts,
    usize_value};

verus! {

/// A direction in which the head moves.
#[derive(Debug, PartialEq, Eq, Clone, Copy)]
pub enum Direction {
    Right,
    Left,
    Up,
    Down,
}

/// A command: a direction and the number of steps to take in it.
#[derive(Debug, PartialEq)]
pub struct Cmd(pub Direction, pub usize);

/// A place on the plane.
pub type Point = (i32, i32);

/// A place on the plane, in unbounded coordinates.
pub type Spot = (int, int);

/// The spot of a point.
pub open spec fn spot(p: Point) -> Spot {
    (p.0 as int, p.1 as int)
}

/// The spots of a sequence of points.
pub open spec fn spots(ps: Seq<Point>) -> Seq<Spot> {
    Seq::new(ps.len(), |i: int| spot(ps[i]))
}

/// The direction that a letter stands for.
pub open spec fn direction_of(s: Seq<char>) -> Option<Direction> {
    if s == seq!['R'] {
        Some(Direction::Right)
    } else if s == seq!['L'] {
        Some(Direction::Left)
    } else if s == seq!['U'] {
        Some(Direction::Up)
    } else if s == seq!['D'] {
        Some(Direction::Down)
    } else {
        None
    }
}

/// What a line says: a letter for the direction, a space, the number of steps.
pub open spec fn parse_cmd(line: Seq<char>) -> Option<Cmd> {
    match split_once_seq(line, seq![' ']) {
        None => None,
        Some((d, n)) => match (direction_of(d), usize_value(n)) {
            (Some(d), Some(n)) => Some(Cmd(d, n)),
            _ => None,
        },
    }
}

/// The commands that the lines say.
pub open spec fn parse_cmds(input: Seq<char>) -> Option<Seq<Cmd>> {
    let ls = lines_seq(input);
    gather(Seq::new(ls.len(), |i: int| parse_cmd(ls[i])))
}

/// The spot one step from `p` in the direction `d`.
pub open spec fn moved(p: Spot, d: Direction) -> Spot {
    match d {
        Direction::Right => (p.0 + 1, p.1),
        Direction::Left => (p.0 - 1, p.1),
        Direction::Up => (p.0, p.1 + 1),
        Direction::Down => (p.0, p.1 - 1),
    }
}

/// Two spots are the same or neighbours, diagonal neighbours too.
pub open spec fn touching(a: Spot, b: Spot) -> bool {
    -1 <= a.0 - b.0 <= 1 && -1 <= a.1 - b.1 <= 1
}

/// The coordinate one step from `from` towards `to`.
pub open spec fn toward(from: int, to: int) -> int {
    if to > from {
        from + 1
    } else if to < from {
        from - 1
    } else {
        from
    }
}

/// Where a knot at `tail` goes when the knot before it stands at `head`: nowhere while they
/// touch, else one step towards it along each axis on which they differ.
pub open spec fn follow(head: Spot, tail: Spot) -> Spot {
    if touching(head, tail) {
        tail
    } else {
        (toward(tail.0, head.0), toward(tail.1, head.1))
    }
}

/// Where knot `i` of a rope stands after the head has taken one step in the direction `d`.
pub open spec fn pulled(rope: Seq<Spot>, d: Direction, i: int) -> Spot
    decreases i,
{
    if i <= 0 {
        moved(rope[0], d)
    } else {
        follow(pulled(rope, d, i - 1), rope[i])
    }
}

/// The rope after the head has taken one step in the direction `d`.
pub open spec fn step(rope: Seq<Spot>, d: Direction) -> Seq<Spot> {
    Seq::new(rope.len(), |i: int| pulled(rope, d, i))
}

/// The single steps that a sequence of commands asks for.
pub open spec fn unit_steps(cmds: Seq<Cmd>) -> Seq<Direction>
    decreases cmds.len(),
{
    if cmds.len() == 0 {
        Seq::empty()
    } else {
        unit_steps(cmds.drop_last()) + Seq::new(cmds.last().1 as nat, |i: int| cmds.last().0)
    }
}

/// A rope of `len` knots after its head has taken the steps `steps` from the origin, where
/// all its knots lay at first.
pub open spec fn rope_of(len: nat, steps: Seq<Direction>) -> Seq<Spot>
    decreases steps.len(),
{
    if steps.len() == 0 {
        Seq::new(len, |i: int| (0int, 0int))
    } else {
        step(rope_of(len, steps.drop_last()), steps.last())
    }
}

/// The spots of the last knot of the rope: at first and after each step.
pub open spec fn trail(len: nat, steps: Seq<Direction>) -> Seq<Spot>
    decreases steps.len(),
{
    if steps.len() == 0 {
        seq![(0int, 0int)]
    } else {
        trail(len, steps.drop_last()).push(rope_of(len, steps).last())
    }
}

/// The number of different spots that the last knot of a rope of `len` knots visits.
pub open spec fn visited_count(len: nat, cmds: Seq<Cmd>) -> nat {
    trail(len, unit_steps(cmds)).to_set().len()
}

/// Each knot touches the next.
pub open spec fn taut(rope: Seq<Spot>) -> bool {
    forall|i: int| 0 <= i < rope.len() - 1 ==> touching(#[trigger] rope[i], rope[i + 1])
}

/// No knot lies further than `k` from the origin along either axis.
pub open spec fn within(rope: Seq<Spot>, k: int) -> bool {
    forall|i: int|
        0 <= i < rope.len() ==> -k <= (#[trigger] rope[i]).0 <= k && -k <= rope[i].1 <= k
}

/// When the head of a taut rope takes a step, each knot moves to a neighbouring spot at
/// most, and touches the knot before it again.
pub proof fn lemma_pulled(rope: Seq<Spot>, d: Direction, i: int)
    requires
        taut(rope),
        0 <= i < rope.len(),
    ensures
        touching(pulled(rope, d, i), rope[i]),
        i > 0 ==> touching(pulled(rope, d, i - 1), pulled(rope, d, i)),
    decreases i,
{
    if i > 0 {
        lemma_pulled(rope, d, i - 1);
        assert(touching(rope[i - 1], rope[i]));
    }
}

/// A taut rope within `k` of the origin is taut after a step, and within `k + 1`.
pub proof fn lemma_step_keeps_taut(rope: Seq<Spot>, d: Direction, k: int)
    requires
        taut(rope),
        within(rope, k),
        rope.len() > 0,
    ensures
        taut(step(rope, d)),
        within(step(rope, d), k + 1),
{
    let next = step(rope, d);
    assert forall|i: int| 0 <= i < next.len() - 1 implies touching(
        #[trigger] next[i],
        next[i + 1],
    ) by {
        lemma_pulled(rope, d, i + 1);
    }
    assert forall|i: int| 0 <= i < next.len() implies -(k + 1) <= (#[trigger] next[i]).0 <= k + 1
        && -(k + 1) <= next[i].1 <= k + 1 by {
        lemma_pulled(rope, d, i);
        assert(-k <= rope[i].0 <= k);
    }
}

/// The commands so far ask for no more steps than all commands.
pub proof fn lemma_unit_steps_prefix(cmds: Seq<Cmd>, c: int)
    requires
        0 <= c <= cmds.len(),
    ensures
        unit_steps(cmds.take(c)).len() <= unit_steps(cmds).len(),
    decreases cmds.len() - c,
{
    if c < cmds.len() {
        assert(cmds.take(c + 1).drop_last() =~= cmds.take(c));
        lemma_unit_steps_prefix(cmds, c + 1);
    } else {
        assert(cmds.take(c) =~= cmds);
    }
}

fn read_cmd(line: &str) -> (r: Option<Cmd>)
    ensures
        r == parse_cmd(line@),
{
    proof {
        reveal_strlit(" ");
        reveal_strlit("R");
        reveal_strlit("L");
        reveal_strlit("U");
        reveal_strlit("D");
        assert(" "@ =~= seq![' ']);
        assert("R"@ =~= seq!['R']);
        assert("L"@ =~= seq!['L']);
        assert("U"@ =~= seq!['U']);
        assert("D"@ =~= seq!['D']);
    }
    match split_once(line, " ") {
        None => None,
        Some((d, n)) => {
            let d = if str_eq(d, "R") {
                Some(Direction::Right)
            } else if str_eq(d, "L") {
                Some(Direction::Left)
            } else if str_eq(d, "U") {
                Some(Direction::Up)
            } else if str_eq(d, "D") {
                Some(Direction::Down)
            } else {
                None
            };
            match (d, parse_usize(n)) {
                (Some(d), Some(n)) => Some(Cmd(d, n)),
                _ => None,
            }
        },
    }
}

/// Reads the commands, one from each line; `None` where a line is no command.
pub fn parse(input: &str) -> (r: Option<Vec<Cmd>>)
    ensures
        match r {
            Some(cmds) => parse_cmds(input@) == Some(cmds@),
            None => parse_cmds(input@) is None,
        },
{
    let ls = lines(input);
    let ghost items = Seq::new(texts(ls@).len(), |i: int| parse_cmd(texts(ls@)[i]));
    let mut cmds: Vec<Cmd> = Vec::new();
    let mut i: usize = 0;
    while i < ls.len()
        invariant
            i <= ls.len(),
            texts(ls@) == lines_seq(input@),
            items == Seq::new(texts(ls@).len(), |i: int| parse_cmd(texts(ls@)[i])),
            cmds.len() == i,
            forall|j: int| 0 <= j < i ==> (#[trigger] items[j]) == Some(cmds[j]),
        decreases ls.len() - i,
    {
        assert(texts(ls@)[i as int] == ls[i as int]@);
        match read_cmd(ls[i]) {
            Some(cmd) => {
                cmds.push(cmd);
            },
            None => {
                assert(items[i as int] is None);
                return None;
            },
        }
        i += 1;
    }
    proof {
        assert(items.len() == cmds.len());
        assert forall|j: int| 0 <= j < items.len() implies (#[trigger] items[j]) is Some by {
            assert(items[j] == Some(cmds[j]));
        }
        assert(gather(items)->0 =~= cmds@);
    }
    Some(cmds)
}

/// The point one step from `p` in the direction `d`.
pub fn mv(p: Point, d: &Direction) -> (r: Point)
    requires
        i32::MIN <= moved(spot(p), *d).0 <= i32::MAX,
        i32::MIN <= moved(spot(p), *d).1 <= i32::MAX,
    ensures
        spot(r) == moved(spot(p), *d),
{
    let (x, y) = p;

    match d {
        Direction::Right => (x + 1, y),
        Direction::Left => (x - 1, y),
        Direction::Up => (x, y + 1),
        Direction::Down => (x, y - 1),
    }
}

/// Where a knot at `tail` goes when the knot before it stands at `head`.
pub fn mv_tail(head: &Point, tail: Point) -> (r: Point)
    requires
        i32::MIN < head.0 - tail.0 <= i32::MAX,
        i32::MIN < head.1 - tail.1 <= i32::MAX,
    ensures
        spot(r) == follow(spot(*head), spot(tail)),
{
    let (x1, y1) = *head;
    let (x2, y2) = tail;

    let dx = x1 - x2;
    let dy = y1 - y2;
    let delta_x = if dx < 0 {
        -dx
    } else {
        dx
    };
    let delta_y = if dy < 0 {
        -dy
    } else {
        dy
    };

    if delta_x <= 1 && delta_y <= 1 {
        //touching
        return tail;
    }
    let mut ret = tail;

    if delta_y != 0 {
        if y1 > y2 {
            //head is higher
            ret = mv(ret, &Direction::Up);
        } else {
            ret = mv(ret, &Direction::Down);
        }
    }
    if delta_x != 0 {
        if x1 > x2 {
            //head is to the right
            ret = mv(ret, &Direction::Right);
        } else {
            ret = mv(ret, &Direction::Left);
        }
    }
    ret
}

/// Whether `visited` holds `p`.
fn holds_point(visited: &Vec<Point>, p: Point) -> (r: bool)
    ensures
        r == spots(visited@).contains(spot(p)),
{
    let mut i: usize = 0;
    while i < visited.len()
        invariant
            i <= visited.len(),
            forall|j: int| 0 <= j < i ==> spots(visited@)[j] != spot(p),
        decreases visited.len() - i,
    {
        if visited[i].0 == p.0 && visited[i].1 == p.1 {
            assert(spots(visited@)[i as int] == spot(p));
            return true;
        }
        i += 1;
    }
    false
}

/// The number of different spots that the last knot of a rope of `knots` knots visits
/// while the head follows the commands.
pub fn tail_positions(cmds: &Vec<Cmd>, knots: usize) -> (n: usize)
    requires
        knots >= 1,
        unit_steps(cmds@).len() <= i32::MAX,
    ensures
        n == visited_count(knots as nat, cmds@),
{
    let ghost len = knots as nat;
    let mut visited: Vec<Point> = Vec::new();
    visited.push((0, 0));
    let mut rope: Vec<Point> = Vec::new();
    let mut k: usize = 0;
    while k < knots
        invariant
            k <= knots,
            rope.len() == k,
            forall|j: int| 0 <= j < k ==> rope[j] == (0i32, 0i32),
        decreases knots - k,
    {
        rope.push((0, 0));
        k += 1;
    }
    let ghost mut done: Seq<Direction> = Seq::empty();
    proof {
        assert(spots(rope@) =~= rope_of(len, done));
        assert(spots(visited@) =~= trail(len, done));
        assert(cmds@.take(0) =~= Seq::empty());
    }
    let mut c: usize = 0;
    while c < cmds.len()
        invariant
            c <= cmds.len(),
            knots >= 1,
            len == knots,
            rope.len() == knots,
            unit_steps(cmds@).len() <= i32::MAX,
            done == unit_steps(cmds@.take(c as int)),
            spots(rope@) == rope_of(len, done),
            taut(spots(rope@)),
            within(spots(rope@), done.len() as int),
            spots(visited@).no_duplicates(),
            spots(visited@).to_set() == trail(len, done).to_set(),
        decreases cmds.len() - c,
    {
        let dir = cmds[c].0;
        let times = cmds[c].1;
        let ghost before = done;
        proof {
            assert(cmds@.take(c + 1).drop_last() =~= cmds@.take(c as int));
            assert(cmds@.take(c + 1).last() == cmds@[c as int]);
            lemma_unit_steps_prefix(cmds@, c + 1);
            assert(done =~= before + Seq::new(0nat, |i: int| dir));
        }
        let mut t: usize = 0;
        while t < times
            invariant
                t <= times,
                knots >= 1,
                len == knots,
                rope.len() == knots,
                before.len() + times <= i32::MAX,
                done == before + Seq::new(t as nat, |i: int| dir),
                spots(rope@) == rope_of(len, done),
                taut(spots(rope@)),
                within(spots(rope@), done.len() as int),
                spots(visited@).no_duplicates(),
                spots(visited@).to_set() == trail(len, done).to_set(),
            decreases times - t,
        {
            let ghost old_rope = spots(rope@);
            let ghost old_done = done;
            proof {
                done = done.push(dir);
                assert(done.drop_last() =~= old_done);
                assert(done =~= before + Seq::new((t + 1) as nat, |i: int| dir));
                lemma_step_keeps_taut(old_rope, dir, old_done.len() as int);
                assert(old_rope[0] == spot(rope[0]));
            }
            let head = mv(rope[0], &dir);
            rope.set(0, head);
            let mut i: usize = 1;
            while i < rope.len()
                invariant
                    1 <= i <= rope.len(),
                    rope.len() == knots,
                    old_rope.len() == knots,
                    taut(old_rope),
                    within(old_rope, old_done.len() as int),
                    old_done.len() < i32::MAX,
                    forall|j: int| 0 <= j < i ==> spot(#[trigger] rope[j]) == pulled(old_rope, dir, j),
                    forall|j: int| i <= j < rope.len() ==> spot(#[trigger] rope[j]) == old_rope[j],
                decreases rope.len() - i,
            {
                proof {
                    lemma_pulled(old_rope, dir, i - 1);
                    assert(touching(old_rope[i - 1], old_rope[i as int]));
                    assert(-old_done.len() <= old_rope[i - 1].0 <= old_done.len());
                    assert(-old_done.len() <= old_rope[i as int].0 <= old_done.len());
                }
                let before_it = rope[i - 1];
                let knot = rope[i];
                let moved_knot = mv_tail(&before_it, knot);
                rope.set(i, moved_knot);
                i += 1;
            }
            proof {
                assert(spots(rope@) =~= step(old_rope, dir));
            }
            let last = rope[rope.len() - 1];
            let ghost seen = spots(visited@);
            proof {
                assert(spot(last) == rope_of(len, done).last());
                trail(len, old_done).lemma_push_to_set_commute(spot(last));
            }
            if !holds_point(&visited, last) {
                visited.push(last);
                proof {
                    assert(spots(visited@) =~= seen.push(spot(last)));
                    seen.lemma_push_to_set_commute(spot(last));
                }
            } else {
                proof {
                    assert(seen.to_set().insert(spot(last)) =~= seen.to_set());
                }
            }
            t += 1;
        }
        c += 1;
    }
    proof {
        assert(cmds@.take(c as int) =~= cmds@);
        spots(visited@).unique_seq_to_set();
    }
    visited.len()
}

/// The number of different spots that the tail of a rope of two knots visits.
pub fn part_one(cmds: Vec<Cmd>) -> (n: usize)
    requires
        unit_steps(cmds@).len() <= i32::MAX,
    ensures
        n == visited_count(2, cmds@),
{
    tail_positions(&cmds, 2)
}

/// The number of different spots that the tail of a rope of ten knots visits.
pub fn part_two(cmds: Vec<Cmd>) -> (n: usize)
    requires
        unit_steps(cmds@).len() <= i32::MAX,
    ensures
        n == visited_count(10, cmds@),
{
    tail_positions(&cmds, 10)
}

} // verus!

//! Treetop tree house: a square grid of tree heights, seen along its rows and columns.

use vstd::prelude::*;
use vstd::string::StringSliceAdditionalSpecFns;
use vstd::utf8::encode_utf8;
use crate::text::{gather, lines, lines_seq, texts};

verus! {

/// The heights of the trees, row by row.
pub type Grid = Vec<Vec<u8>>;

/// A place in the grid: its row, then its column.
#[derive(Debug)]
pub struct Point(pub usize, pub usize);

/// The rows of a grid.
pub open spec fn rows(g: Grid) -> Seq<Seq<u8>> {
    Seq::new(g@.len(), |i: int| g@[i]@)
}

/// A grid with as many columns in each row as it has rows, and with one row at least.
pub open spec fn square(g: Seq<Seq<u8>>) -> bool {
    g.len() > 0 && forall|i: int| 0 <= i < g.len() ==> (#[trigger] g[i]).len() == g.len()
}

/// The heights that a line of digits gives: each character counts from `0`; `None` where a
/// byte of the line stands before `0`.
pub open spec fn heights(line: Seq<char>) -> Option<Seq<u8>> {
    let bytes = encode_utf8(line);
    if forall|i: int| 0 <= i < bytes.len() ==> #[trigger] bytes[i] >= 48 {
        Some(Seq::new(bytes.len(), |i: int| (bytes[i] - 48) as u8))
    } else {
        None
    }
}

/// The grid that the lines of a map give.
pub open spec fn grid_of(input: Seq<char>) -> Option<Seq<Seq<u8>>> {
    let ls = lines_seq(input);
    gather(Seq::new(ls.len(), |i: int| heights(ls[i])))
}

/// The trees north of a place, the nearest first.
pub open spec fn north(g: Seq<Seq<u8>>, x: int, y: int) -> Seq<u8> {
    Seq::new(x as nat, |k: int| g[x - 1 - k][y])
}

/// The trees south of a place, the nearest first.
pub open spec fn south(g: Seq<Seq<u8>>, x: int, y: int) -> Seq<u8> {
    Seq::new((g.len() - 1 - x) as nat, |k: int| g[x + 1 + k][y])
}

/// The trees west of a place, the nearest first.
pub open spec fn west(g: Seq<Seq<u8>>, x: int, y: int) -> Seq<u8> {
    Seq::new(y as nat, |k: int| g[x][y - 1 - k])
}

/// The trees east of a place, the nearest first.
pub open spec fn east(g: Seq<Seq<u8>>, x: int, y: int) -> Seq<u8> {
    Seq::new((g.len() - 1 - y) as nat, |k: int| g[x][y + 1 + k])
}

/// Every tree of the line is lower than `v`.
pub open spec fn all_lower(line: Seq<u8>, v: u8) -> bool {
    forall|k: int| 0 <= k < line.len() ==> #[trigger] line[k] < v
}

/// The place stands in the first or last row or column.
pub open spec fn on_edge(g: Seq<Seq<u8>>, x: int, y: int) -> bool {
    x == 0 || y == 0 || x == g.len() - 1 || y == g.len() - 1
}

/// The tree at a place can be seen from outside the grid: it stands on the edge, or all
/// trees between it and one of the edges are lower.
pub open spec fn visible_at(g: Seq<Seq<u8>>, x: int, y: int) -> bool {
    let v = g[x][y];
    ||| on_edge(g, x, y)
    ||| all_lower(north(g, x, y), v)
    ||| all_lower(south(g, x, y), v)
    ||| all_lower(west(g, x, y), v)
    ||| all_lower(east(g, x, y), v)
}

/// How many trees of a line one sees over trees of height `v`, from the `from`-th on: the
/// view ends with the first tree that is not lower than `v`, which is seen too.
pub open spec fn seen(line: Seq<u8>, v: u8, from: int) -> nat
    decreases line.len() - from,
{
    if from < 0 || from >= line.len() {
        0
    } else if line[from] >= v {
        1
    } else {
        1 + seen(line, v, from + 1)
    }
}

/// The scenic score of a place: the product of the numbers of trees seen in the four
/// directions; 0 on the edge.
pub open spec fn scenic_score(g: Seq<Seq<u8>>, x: int, y: int) -> nat {
    let v = g[x][y];
    if on_edge(g, x, y) {
        0
    } else {
        seen(north(g, x, y), v, 0) * seen(south(g, x, y), v, 0) * seen(east(g, x, y), v, 0)
            * seen(west(g, x, y), v, 0)
    }
}

/// The number of visible trees among the first `j` of row `x`.
pub open spec fn visible_in_row(g: Seq<Seq<u8>>, x: int, j: int) -> nat
    decreases j,
{
    if j <= 0 {
        0
    } else {
        visible_in_row(g, x, j - 1) + if visible_at(g, x, j - 1) {
            1nat
        } else {
            0nat
        }
    }
}

/// The number of visible trees in the first `i` rows.
pub open spec fn visible_in_rows(g: Seq<Seq<u8>>, i: int) -> nat
    decreases i,
{
    if i <= 0 {
        0
    } else {
        visible_in_rows(g, i - 1) + visible_in_row(g, i - 1, g.len() as int)
    }
}

/// No row holds more visible trees than trees.
pub proof fn lemma_visible_in_row_bound(g: Seq<Seq<u8>>, x: int, j: int)
    requires
        0 <= j,
    ensures
        visible_in_row(g, x, j) <= j,
    decreases j,
{
    if j > 0 {
        lemma_visible_in_row_bound(g, x, j - 1);
    }
}

/// Reads a map of heights, a row from each line; `None` where a line holds a byte that
/// stands before `0`.
pub fn parse(input: &str) -> (r: Option<Grid>)
    ensures
        match r {
            Some(g) => grid_of(input@) == Some(rows(g)),
            None => grid_of(input@) is None,
        },
{
    let ls = lines(input);
    let ghost items = Seq::new(texts(ls@).len(), |i: int| heights(texts(ls@)[i]));
    let mut g: Grid = Vec::new();
    let mut i: usize = 0;
    while i < ls.len()
        invariant
            i <= ls.len(),
            texts(ls@) == lines_seq(input@),
            items == Seq::new(texts(ls@).len(), |i: int| heights(texts(ls@)[i])),
            g.len() == i,
            forall|j: int| 0 <= j < i ==> (#[trigger] items[j]) == Some(g[j]@),
        decreases ls.len() - i,
    {
        assert(texts(ls@)[i as int] == ls[i as int]@);
        let bytes = ls[i].as_bytes();
        let mut row: Vec<u8> = Vec::new();
        let mut k: usize = 0;
        while k < bytes.len()
            invariant
                k <= bytes.len(),
                i < ls.len(),
                bytes@ == encode_utf8(ls[i as int]@),
                texts(ls@)[i as int] == ls[i as int]@,
                texts(ls@) == lines_seq(input@),
                items == Seq::new(texts(ls@).len(), |i: int| heights(texts(ls@)[i])),
                row.len() == k,
                forall|j: int| 0 <= j < k ==> #[trigger] bytes@[j] >= 48,
                forall|j: int| 0 <= j < k ==> #[trigger] row@[j] == (bytes@[j] - 48) as u8,
            decreases bytes.len() - k,
        {
            let b = bytes[k];
            if b < 48 {
                assert(items[i as int] is None);
                return None;
            }
            row.push(b - 48);
            k += 1;
        }
        assert(items[i as int] == Some(row@)) by {
            assert(items[i as int] == heights(ls[i as int]@));
            assert(heights(ls[i as int]@) is Some);
            assert(row@ =~= heights(ls[i as int]@)->0);
        }
        g.push(row);
        i += 1;
    }
    proof {
        assert(items.len() == g.len());
        assert forall|j: int| 0 <= j < items.len() implies (#[trigger] items[j]) is Some by {
            assert(items[j] == Some(g[j]@));
        }
        assert(gather(items)->0 =~= rows(g));
    }
    Some(g)
}

/// The trees north of a place, the nearest first.
fn sight_north(g: &Grid, x: usize, y: usize) -> (line: Vec<u8>)
    requires
        square(rows(*g)),
        x < g.len(),
        y < g.len(),
    ensures
        line@ == north(rows(*g), x as int, y as int),
{
    let mut line: Vec<u8> = Vec::new();
    let mut k: usize = 0;
    while k < x
        invariant
            k <= x,
            square(rows(*g)),
            x < g.len(),
            y < g.len(),
            line.len() == k,
            forall|j: int| 0 <= j < k ==> line[j] == rows(*g)[x - 1 - j][y as int],
        decreases x - k,
    {
        assert(rows(*g)[x - 1 - k] == g[x - 1 - k]@);
        line.push(g[x - 1 - k][y]);
        k += 1;
    }
    assert(line@ =~= north(rows(*g), x as int, y as int));
    line
}

/// The trees south of a place, the nearest first.
fn sight_south(g: &Grid, x: usize, y: usize) -> (line: Vec<u8>)
    requires
        square(rows(*g)),
        x < g.len(),
        y < g.len(),
    ensures
        line@ == south(rows(*g), x as int, y as int),
{
    let mut line: Vec<u8> = Vec::new();
    let mut k: usize = 0;
    while k < g.len() - 1 - x
        invariant
            k <= g.len() - 1 - x,
            square(rows(*g)),
            x < g.len(),
            y < g.len(),
            line.len() == k,
            forall|j: int| 0 <= j < k ==> line[j] == rows(*g)[x + 1 + j][y as int],
        decreases g.len() - 1 - x - k,
    {
        assert(rows(*g)[x + 1 + k] == g[x + 1 + k]@);
        line.push(g[x + 1 + k][y]);
        k += 1;
    }
    assert(line@ =~= south(rows(*g), x as int, y as int));
    line
}

/// The trees west of a place, the nearest first.
fn sight_west(g: &Grid, x: usize, y: usize) -> (line: Vec<u8>)
    requires
        square(rows(*g)),
        x < g.len(),
        y < g.len(),
    ensures
        line@ == west(rows(*g), x as int, y as int),
{
    let mut line: Vec<u8> = Vec::new();
    let mut k: usize = 0;
    assert(rows(*g)[x as int] == g[x as int]@);
    while k < y
        invariant
            k <= y,
            square(rows(*g)),
            x < g.len(),
            y < g.len(),
            rows(*g)[x as int] == g[x as int]@,
            line.len() == k,
            forall|j: int| 0 <= j < k ==> line[j] == rows(*g)[x as int][y - 1 - j],
        decreases y - k,
    {
        line.push(g[x][y - 1 - k]);
        k += 1;
    }
    assert(line@ =~= west(rows(*g), x as int, y as int));
    line
}

/// The trees east of a place, the nearest first.
fn sight_east(g: &Grid, x: usize, y: usize) -> (line: Vec<u8>)
    requires
        square(rows(*g)),
        x < g.len(),
        y < g.len(),
    ensures
        line@ == east(rows(*g), x as int, y as int),
{
    let mut line: Vec<u8> = Vec::new();
    let mut k: usize = 0;
    assert(rows(*g)[x as int] == g[x as int]@);
    while k < g.len() - 1 - y
        invariant
            k <= g.len() - 1 - y,
            square(rows(*g)),
            x < g.len(),
            y < g.len(),
            rows(*g)[x as int] == g[x as int]@,
            line.len() == k,
            forall|j: int| 0 <= j < k ==> line[j] == rows(*g)[x as int][y + 1 + j],
        decreases g.len() - 1 - y - k,
    {
        line.push(g[x][y + 1 + k]);
        k += 1;
    }
    assert(line@ =~= east(rows(*g), x as int, y as int));
    line
}

/// Whether every tree of the line is lower than `v`.
fn lower(line: &Vec<u8>, v: u8) -> (r: bool)
    ensures
        r == all_lower(line@, v),
{
    let mut k: usize = 0;
    while k < line.len()
        invariant
            k <= line.len(),
            forall|j: int| 0 <= j < k ==> #[trigger] line[j] < v,
        decreases line.len() - k,
    {
        if line[k] >= v {
            return false;
        }
        k += 1;
    }
    true
}

/// How many trees of the line one sees over trees of height `v`.
fn count_seen(line: &Vec<u8>, v: u8) -> (n: usize)
    ensures
        n == seen(line@, v, 0),
        n <= line.len(),
{
    let mut n: usize = 0;
    let mut k: usize = 0;
    while k < line.len()
        invariant
            k <= line.len(),
            n == k,
            seen(line@, v, 0) == n + seen(line@, v, k as int),
        decreases line.len() - k,
    {
        n += 1;
        if line[k] >= v {
            return n;
        }
        k += 1;
    }
    n
}

/// Whether the tree at `p` can be seen from outside the grid.
pub fn visible(g: &Grid, p: Point) -> (r: bool)
    requires
        square(rows(*g)),
        p.0 < g.len(),
        p.1 < g.len(),
    ensures
        r == visible_at(rows(*g), p.0 as int, p.1 as int),
{
    let Point(x, y) = p;
    let num_rows = g.len();
    assert(rows(*g)[0] == g[0]@);
    let num_cols = g[0].len();

    if x == 0 || y == 0 || x == num_rows - 1 || y == num_cols - 1 {
        return true;
    }
    assert(rows(*g)[x as int] == g[x as int]@);
    let val = g[x][y];

    if lower(&sight_north(g, x, y), val) {
        return true;
    }
    if lower(&sight_south(g, x, y), val) {
        return true;
    }
    if lower(&sight_west(g, x, y), val) {
        return true;
    }
    if lower(&sight_east(g, x, y), val) {
        return true;
    }
    false
}

/// The scenic score of the place `p`.
pub fn scenic(g: &Grid, p: Point) -> (score: usize)
    requires
        square(rows(*g)),
        p.0 < g.len(),
        p.1 < g.len(),
        scenic_score(rows(*g), p.0 as int, p.1 as int) <= usize::MAX,
    ensures
        score == scenic_score(rows(*g), p.0 as int, p.1 as int),
{
    let Point(x, y) = p;
    let num_rows = g.len();
    assert(rows(*g)[0] == g[0]@);
    let num_cols = g[0].len();

    if x == 0 || y == 0 || x == num_rows - 1 || y == num_cols - 1 {
        return 0;
    }
    assert(rows(*g)[x as int] == g[x as int]@);
    let val = g[x][y];

    let north = count_seen(&sight_north(g, x, y), val);
    let south = count_seen(&sight_south(g, x, y), val);
    let west = count_seen(&sight_west(g, x, y), val);
    let east = count_seen(&sight_east(g, x, y), val);
    proof {
        let gs = rows(*g);
        assert(north >= 1 && south >= 1 && east >= 1 && west >= 1);
        assert(north * south <= north * south * east) by (nonlinear_arith)
            requires
                east >= 1,
        ;
        assert(north * south * east <= north * south * east * west) by (nonlinear_arith)
            requires
                west >= 1,
        ;
    }
    north * south * east * west
}

/// The number of trees that can be seen from outside the grid.
pub fn part_one(g: &Grid) -> (n: usize)
    requires
        square(rows(*g)),
        g.len() * g.len() <= usize::MAX,
    ensures
        n == visible_in_rows(rows(*g), g.len() as int),
{
    let mut n: usize = 0;
    let num_rows = g.len();
    assert(rows(*g)[0] == g[0]@);
    let num_cols = g[0].len();
    let ghost gs = rows(*g);

    let mut i: usize = 0;
    while i < num_rows
        invariant
            i <= num_rows,
            num_rows == g.len(),
            num_cols == g.len(),
            gs == rows(*g),
            square(gs),
            g.len() * g.len() <= usize::MAX,
            n == visible_in_rows(gs, i as int),
            n <= i * num_cols,
        decreases num_rows - i,
    {
        let ghost before = n;
        let mut j: usize = 0;
        while j < num_cols
            invariant
                j <= num_cols,
                i < num_rows,
                num_rows == g.len(),
                num_cols == g.len(),
                gs == rows(*g),
                square(gs),
                g.len() * g.len() <= usize::MAX,
                before <= i * num_cols,
                n == before + visible_in_row(gs, i as int, j as int),
            decreases num_cols - j,
        {
            proof {
                lemma_visible_in_row_bound(gs, i as int, j as int);
                assert(i * num_cols + num_cols <= g.len() * g.len()) by (nonlinear_arith)
                    requires
                        i < num_rows,
                        num_rows == g.len(),
                        num_cols == g.len(),
                ;
            }
            if visible(g, Point(i, j)) {
                n += 1;
            }
            j += 1;
        }
        proof {
            lemma_visible_in_row_bound(gs, i as int, num_cols as int);
            assert((i + 1) * num_cols == i * num_cols + num_cols) by (nonlinear_arith);
        }
        i += 1;
    }
    n
}

/// Every scenic score of the grid fits in a `usize`.
pub open spec fn scores_fit(g: Seq<Seq<u8>>) -> bool {
    forall|x: int, y: int|
        0 <= x < g.len() && 0 <= y < g.len() ==> #[trigger] scenic_score(g, x, y) <= usize::MAX
}

/// `best` is the highest scenic score of the grid.
pub open spec fn is_best_score(g: Seq<Seq<u8>>, best: nat) -> bool {
    &&& exists|x: int, y: int| 0 <= x < g.len() && 0 <= y < g.len() && scenic_score(g, x, y) == best
    &&& forall|x: int, y: int|
        0 <= x < g.len() && 0 <= y < g.len() ==> #[trigger] scenic_score(g, x, y) <= best
}

/// The highest scenic score of the grid.
pub fn part_two(g: &Grid) -> (n: usize)
    requires
        square(rows(*g)),
        scores_fit(rows(*g)),
    ensures
        is_best_score(rows(*g), n as nat),
{
    let mut n: usize = 0;
    let num_rows = g.len();
    assert(rows(*g)[0] == g[0]@);
    let num_cols = g[0].len();
    let ghost gs = rows(*g);
    assert(scenic_score(gs, 0, 0) == 0);

    let mut i: usize = 0;
    while i < num_rows
        invariant
            i <= num_rows,
            num_rows == g.len(),
            num_cols == g.len(),
            gs == rows(*g),
            square(gs),
            scores_fit(gs),
            exists|x: int, y: int|
                0 <= x < gs.len() && 0 <= y < gs.len() && scenic_score(gs, x, y) == n,
            forall|x: int, y: int|
                0 <= x < i && 0 <= y < gs.len() ==> #[trigger] scenic_score(gs, x, y) <= n,
        decreases num_rows - i,
    {
        let mut j: usize = 0;
        while j < num_cols
            invariant
                j <= num_cols,
                i < num_rows,
                num_rows == g.len(),
                num_cols == g.len(),
                gs == rows(*g),
                square(gs),
                scores_fit(gs),
                exists|x: int, y: int|
                    0 <= x < gs.len() && 0 <= y < gs.len() && scenic_score(gs, x, y) == n,
                forall|x: int, y: int|
                    0 <= x < i && 0 <= y < gs.len() ==> #[trigger] scenic_score(gs, x, y) <= n,
                forall|y: int| 0 <= y < j ==> #[trigger] scenic_score(gs, i as int, y) <= n,
            decreases num_cols - j,
        {
            assert(scenic_score(gs, i as int, j as int) <= usize::MAX);
            let scenic_score = scenic(g, Point(i, j));
            if scenic_score > n {
                n = scenic_score;
            }
            j += 1;
        }
        i += 1;
    }
    n
}

} // verus!

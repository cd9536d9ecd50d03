//! Hill climbing: the fewest steps from a start to a goal on a map of heights, where a
//! step leads to a neighbouring square that is higher by one at most.

use vstd::prelude::*;
use vstd::seq_lib::lemma_seq_contains_after_push;
use vstd::slice::slice_to_vec;
use vstd::string::StringSliceAdditionalSpecFns;
use vstd::utf8::encode_utf8;
use crate::text::{lines, lines_seq, texts};
use crate::trusted::find_position;

verus! {

/// A square of a map: its row, then its column.
pub type Point = (usize, usize);

/// The rows of a grid of cells.
pub open spec fn cells_of<T>(m: Vec<Vec<T>>) -> Seq<Seq<T>> {
    Seq::new(m@.len(), |i: int| m@[i]@)
}

/// The square `p` lies on a grid with these rows; the first row gives the width.
pub open spec fn on_grid<T>(cells: Seq<Seq<T>>, p: Point) -> bool {
    cells.len() > 0 && p.0 < cells.len() && p.1 < cells[0].len()
}

/// The squares next to `p` on a grid of the given height and width: below, above, right
/// and left, in this order, as far as they lie on the grid.
pub open spec fn neighbors_of(height: int, width: int, p: Point) -> Seq<Point> {
    (if p.0 < height - 1 {
        seq![((p.0 + 1) as usize, p.1)]
    } else {
        Seq::empty()
    }) + (if p.0 > 0 {
        seq![((p.0 - 1) as usize, p.1)]
    } else {
        Seq::empty()
    }) + (if p.1 < width - 1 {
        seq![(p.0, (p.1 + 1) as usize)]
    } else {
        Seq::empty()
    }) + (if p.1 > 0 {
        seq![(p.0, (p.1 - 1) as usize)]
    } else {
        Seq::empty()
    })
}

/// A map: a grid of cells.
pub trait GridMap {
    type Item;

    /// The rows of the map, as specifications see them.
    spec fn cells(&self) -> Seq<Seq<Self::Item>>;

    /// The rows of the map.
    fn map(&self) -> (m: &Vec<Vec<Self::Item>>)
        ensures
            cells_of(*m) == self.cells(),
    ;

    /// The number of rows.
    fn height(&self) -> (h: usize)
        ensures
            h == self.cells().len(),
    {
        self.map().len()
    }

    /// The number of columns, which is the length of the first row.
    fn width(&self) -> (w: usize)
        requires
            self.cells().len() > 0,
        ensures
            w == self.cells()[0].len(),
    {
        let m = self.map();
        assert(cells_of(*m)[0] == m[0]@);
        m[0].len()
    }

    /// Whether a square lies on the map.
    fn on_map(&self, point: &Point) -> (r: bool)
        requires
            self.cells().len() > 0,
        ensures
            r == on_grid(self.cells(), *point),
    {
        let (i, j) = *point;
        i < self.height() && j < self.width()
    }

    /// What the map holds at a square.
    fn val_at(&self, point: &Point) -> (v: &Self::Item)
        requires
            point.0 < self.cells().len(),
            point.1 < self.cells()[point.0 as int].len(),
        default_ensures
            *v == self.cells()[point.0 as int][point.1 as int],
    {
        let (i, j) = *point;
        let m = self.map();
        assert(cells_of(*m)[i as int] == m[i as int]@);
        &m[i][j]
    }

    /// The squares next to a square, as far as they lie on the map.
    fn neighbors(&self, point: &Point) -> (points: Vec<Point>)
        requires
            self.cells().len() > 0,
            self.cells()[0].len() > 0,
        ensures
            points@ == neighbors_of(
                self.cells().len() as int,
                self.cells()[0].len() as int,
                *point,
            ),
    {
        let (i, j) = *point;

        let mut points: Vec<Point> = Vec::new();

        if i < self.height() - 1 {
            points.push((i + 1, j));
        }
        if i > 0 {
            points.push((i - 1, j));
        }
        if j < self.width() - 1 {
            points.push((i, j + 1));
        }
        if j > 0 {
            points.push((i, j - 1));
        }
        assert(points@ =~= neighbors_of(
            self.cells().len() as int,
            self.cells()[0].len() as int,
            *point,
        ));
        points
    }
}

/// A map of heights with a start and a goal. The squares of the start and of the goal
/// count as `a` and `z`, whatever the map holds there.
pub struct HeightMap {
    pub map: Vec<Vec<u8>>,
    pub start: Point,
    pub finish: Point,
}

/// The height of a square: `a` at the start, `z` at the goal, else what the map holds.
pub open spec fn height_at(h: HeightMap, p: Point) -> u8 {
    if p == h.start {
        97
    } else if p == h.finish {
        122
    } else {
        cells_of(h.map)[p.0 as int][p.1 as int]
    }
}

impl GridMap for HeightMap {
    type Item = u8;

    open spec fn cells(&self) -> Seq<Seq<u8>> {
        cells_of(self.map)
    }

    fn map(&self) -> (m: &Vec<Vec<Self::Item>>) {
        &self.map
    }

    fn val_at(&self, point: &Point) -> (v: &Self::Item)
        ensures
            *v == height_at(*self, *point),
    {
        if point.0 == self.start.0 && point.1 == self.start.1 {
            return &97;
        }
        if point.0 == self.finish.0 && point.1 == self.finish.1 {
            return &122;
        }
        let (i, j) = *point;
        assert(cells_of(self.map)[i as int] == self.map[i as int]@);
        &self.map()[i][j]
    }
}

/// The squares that have been visited.
pub struct VisitedMap {
    pub map: Vec<Vec<bool>>,
}

impl GridMap for VisitedMap {
    type Item = bool;

    open spec fn cells(&self) -> Seq<Seq<bool>> {
        cells_of(self.map)
    }

    fn map(&self) -> (m: &Vec<Vec<Self::Item>>) {
        &self.map
    }
}

/// Every row of a grid is as long as its first.
pub open spec fn rectangular<T>(cells: Seq<Seq<T>>) -> bool {
    forall|i: int| 0 <= i < cells.len() ==> (#[trigger] cells[i]).len() == cells[0].len()
}

impl VisitedMap {
    /// A map of the given height and width on which no square has been visited.
    pub fn new(height: usize, width: usize) -> (v: Self)
        ensures
            v.cells() == Seq::new(height as nat, |i: int| Seq::new(width as nat, |j: int| false)),
    {
        let mut map: Vec<Vec<bool>> = Vec::new();
        let mut i: usize = 0;
        while i < height
            invariant
                i <= height,
                map.len() == i,
                forall|k: int| 0 <= k < i ==> (#[trigger] map[k])@ == Seq::new(
                    width as nat,
                    |j: int| false,
                ),
            decreases height - i,
        {
            let mut row: Vec<bool> = Vec::new();
            let mut j: usize = 0;
            while j < width
                invariant
                    j <= width,
                    row.len() == j,
                    forall|k: int| 0 <= k < j ==> !row[k],
                decreases width - j,
            {
                row.push(false);
                j += 1;
            }
            assert(row@ =~= Seq::new(width as nat, |j: int| false));
            map.push(row);
            i += 1;
        }
        let v = Self { map };
        assert(v.cells() =~= Seq::new(
            height as nat,
            |i: int| Seq::new(width as nat, |j: int| false),
        ));
        v
    }

    /// Marks a square as visited.
    pub fn visit(&mut self, point: &Point)
        requires
            point.0 < old(self).cells().len(),
            point.1 < old(self).cells()[point.0 as int].len(),
        ensures
            final(self).cells() == old(self).cells().update(
                point.0 as int,
                old(self).cells()[point.0 as int].update(point.1 as int, true),
            ),
    {
        let (i, j) = *point;
        let ghost before = self.cells();
        assert(before[i as int] == self.map[i as int]@);
        self.map[i][j] = true;
        assert(self.cells() =~= before.update(i as int, before[i as int].update(j as int, true)));
    }

    /// Whether a square has been visited; a square that is not on the map counts as
    /// visited.
    pub fn has_visited(&self, point: &Point) -> (r: bool)
        requires
            self.cells().len() > 0,
            rectangular(self.cells()),
        ensures
            r == (on_grid(self.cells(), *point) ==> self.cells()[point.0 as int][point.1 as int]),
    {
        let (i, j) = *point;
        if self.on_map(point) {
            assert(self.cells()[i as int] == self.map[i as int]@);
            self.map[i][j]
        } else {
            true
        }
    }
}

/// The first position, from `from` on, at which `bytes` holds `target`.
pub open spec fn first_of(bytes: Seq<u8>, target: u8, from: int) -> Option<int>
    decreases bytes.len() - from,
{
    if from < 0 || from >= bytes.len() {
        None
    } else if bytes[from] == target {
        Some(from)
    } else {
        first_of(bytes, target, from + 1)
    }
}

/// The square that `target` marks among the first `n` rows: its first place in the last
/// row that holds it; the first square of the map where no row holds it.
pub open spec fn marked(rows: Seq<Seq<u8>>, target: u8, n: int) -> Point
    decreases n,
{
    if n <= 0 {
        (0usize, 0usize)
    } else {
        match first_of(rows[n - 1], target, 0) {
            Some(j) => ((n - 1) as usize, j as usize),
            None => marked(rows, target, n - 1),
        }
    }
}

/// A map as specifications see it.
pub struct HeightModel {
    pub rows: Seq<Seq<u8>>,
    pub start: Point,
    pub finish: Point,
}

impl View for HeightMap {
    type V = HeightModel;

    open spec fn view(&self) -> HeightModel {
        HeightModel { rows: cells_of(self.map), start: self.start, finish: self.finish }
    }
}

/// The map that a drawing gives: each line is a row of heights, `S` marks the start and
/// `E` the goal. `None` where the drawing has no line.
pub open spec fn drawn_map(input: Seq<char>) -> Option<HeightModel> {
    let ls = lines_seq(input);
    if ls.len() == 0 {
        None
    } else {
        let rows = Seq::new(ls.len(), |i: int| encode_utf8(ls[i]));
        Some(
            HeightModel {
                rows: rows,
                start: marked(rows, 83, rows.len() as int),
                finish: marked(rows, 69, rows.len() as int),
            },
        )
    }
}

/// What `find_position` gives is what `first_of` describes.
proof fn lemma_first_of(bytes: Seq<u8>, target: u8, from: int, found: Option<int>)
    requires
        0 <= from <= bytes.len(),
        match found {
            Some(j) => from <= j < bytes.len() && bytes[j] == target && forall|k: int|
                from <= k < j ==> bytes[k] != target,
            None => forall|k: int| from <= k < bytes.len() ==> bytes[k] != target,
        },
    ensures
        first_of(bytes, target, from) == found,
    decreases bytes.len() - from,
{
    if from < bytes.len() && bytes[from] != target {
        lemma_first_of(bytes, target, from + 1, found);
    }
}

/// Reads a drawing of a map; `None` where the drawing has no line.
pub fn parse(input: &str) -> (r: Option<HeightMap>)
    ensures
        match r {
            Some(h) => drawn_map(input@) == Some(h@),
            None => drawn_map(input@) is None,
        },
{
    let ls = lines(input);
    let height = ls.len();
    if height == 0 {
        return None;
    }
    let ghost rows = Seq::new(texts(ls@).len(), |i: int| encode_utf8(texts(ls@)[i]));

    let mut map: Vec<Vec<u8>> = Vec::new();
    let mut start: Point = (0, 0);
    let mut finish: Point = (0, 0);

    let mut i: usize = 0;
    while i < height
        invariant
            i <= height,
            height == ls.len(),
            texts(ls@) == lines_seq(input@),
            rows == Seq::new(texts(ls@).len(), |i: int| encode_utf8(texts(ls@)[i])),
            map.len() == i,
            forall|k: int| 0 <= k < i ==> (#[trigger] map[k])@ == rows[k],
            start == marked(rows, 83, i as int),
            finish == marked(rows, 69, i as int),
        decreases height - i,
    {
        assert(texts(ls@)[i as int] == ls[i as int]@);
        let bytes = ls[i].as_bytes();
        assert(bytes@ == rows[i as int]);
        let found_start = find_position(bytes, 83);
        let found_finish = find_position(bytes, 69);
        proof {
            lemma_first_of(
                bytes@,
                83,
                0,
                match found_start {
                    Some(j) => Some(j as int),
                    None => None,
                },
            );
            lemma_first_of(
                bytes@,
                69,
                0,
                match found_finish {
                    Some(j) => Some(j as int),
                    None => None,
                },
            );
        }
        if let Some(j) = found_start {
            start = (i, j);
        }
        if let Some(j) = found_finish {
            finish = (i, j);
        }
        map.push(slice_to_vec(bytes));
        i += 1;
    }
    let h = HeightMap { map, start, finish };
    assert(h@.rows =~= rows);
    Some(h)
}

/// Whether the square `p` is marked on a grid of marks.
pub open spec fn seen(marks: Seq<Seq<bool>>, p: Point) -> bool {
    marks[p.0 as int][p.1 as int]
}

/// The grid of marks has the height and the width of the grid of heights.
pub open spec fn same_shape(marks: Seq<Seq<bool>>, cells: Seq<Seq<u8>>) -> bool {
    marks.len() == cells.len() && rectangular(marks) && marks[0].len() == cells[0].len()
}

/// Two squares lie side by side in a row or in a column.
pub open spec fn adjacent(a: Point, b: Point) -> bool {
    ||| (b.0 == a.0 + 1 && b.1 == a.1)
    ||| (a.0 == b.0 + 1 && b.1 == a.1)
    ||| (b.1 == a.1 + 1 && b.0 == a.0)
    ||| (a.1 == b.1 + 1 && b.0 == a.0)
}

/// One can step from `a` to `b`: both lie on the map side by side, and `b` is higher by
/// one at most.
pub open spec fn climb(h: HeightMap, a: Point, b: Point) -> bool {
    &&& on_grid(h.cells(), a)
    &&& on_grid(h.cells(), b)
    &&& adjacent(a, b)
    &&& height_at(h, b) <= height_at(h, a) + 1
}

/// A walk: a sequence of squares that begins at the start and goes on by steps.
pub open spec fn is_walk(h: HeightMap, w: Seq<Point>) -> bool {
    &&& w.len() >= 1
    &&& w[0] == h.start
    &&& forall|i: int| 0 <= i < w.len() - 1 ==> climb(h, #[trigger] w[i], w[i + 1])
}

/// Some walk of exactly `k` steps ends at `p`.
pub open spec fn reach_in(h: HeightMap, p: Point, k: int) -> bool {
    exists|w: Seq<Point>| #[trigger] is_walk(h, w) && w.len() == k + 1 && w.last() == p
}

/// Some walk of fewer than `k` steps ends at `p`.
pub open spec fn nearer(h: HeightMap, p: Point, k: int) -> bool {
    exists|j: int| 0 <= j < k && #[trigger] reach_in(h, p, j)
}

impl HeightMap {
    /// The map is a rectangle with a square at least, the start lies on it, no height is
    /// the largest that a byte holds, and the squares can be counted in a `usize`.
    pub open spec fn wf(&self) -> bool {
        let cells = cells_of(self.map);
        &&& cells.len() > 0
        &&& cells[0].len() > 0
        &&& rectangular(cells)
        &&& on_grid(cells, self.start)
        &&& forall|p: Point| on_grid(cells, p) ==> #[trigger] height_at(*self, p) < 255
        &&& cells.len() * cells[0].len() < usize::MAX
    }
}

/// The number of squares without a mark among the first `n` of a row.
pub open spec fn unmarked_in_row(row: Seq<bool>, n: int) -> nat
    decreases n,
{
    if n <= 0 {
        0
    } else {
        unmarked_in_row(row, n - 1) + if row[n - 1] {
            0nat
        } else {
            1nat
        }
    }
}

/// The number of squares without a mark in the first `n` rows.
pub open spec fn unmarked(marks: Seq<Seq<bool>>, n: int) -> nat
    decreases n,
{
    if n <= 0 {
        0
    } else {
        unmarked(marks, n - 1) + unmarked_in_row(marks[n - 1], marks[n - 1].len() as int)
    }
}

proof fn lemma_unmarked_in_row_bound(row: Seq<bool>, n: int)
    requires
        0 <= n,
    ensures
        unmarked_in_row(row, n) <= n,
    decreases n,
{
    if n > 0 {
        lemma_unmarked_in_row_bound(row, n - 1);
    }
}

proof fn lemma_unmarked_bound(marks: Seq<Seq<bool>>, n: int, width: int)
    requires
        0 <= n <= marks.len(),
        0 <= width,
        forall|i: int| 0 <= i < marks.len() ==> (#[trigger] marks[i]).len() == width,
    ensures
        unmarked(marks, n) <= n * width,
    decreases n,
{
    if n > 0 {
        lemma_unmarked_bound(marks, n - 1, width);
        lemma_unmarked_in_row_bound(marks[n - 1], width);
        assert(n * width == (n - 1) * width + width) by (nonlinear_arith);
    } else {
        assert(n * width == 0) by (nonlinear_arith)
            requires
                n == 0,
        ;
    }
}

proof fn lemma_mark_in_row(row: Seq<bool>, j: int, n: int)
    requires
        0 <= j < row.len(),
        0 <= n <= row.len(),
    ensures
        unmarked_in_row(row.update(j, true), n) == unmarked_in_row(row, n) - if j < n && !row[j] {
            1int
        } else {
            0int
        },
    decreases n,
{
    if n > 0 {
        lemma_mark_in_row(row, j, n - 1);
    }
}

/// A new mark lowers the number of squares without a mark by one; a mark on a marked
/// square changes nothing.
proof fn lemma_mark(marks: Seq<Seq<bool>>, i: int, j: int, n: int)
    requires
        0 <= i < marks.len(),
        0 <= j < marks[i].len(),
        0 <= n <= marks.len(),
    ensures
        unmarked(marks.update(i, marks[i].update(j, true)), n) == unmarked(marks, n) - if i < n
            && !marks[i][j] {
            1int
        } else {
            0int
        },
    decreases n,
{
    if n > 0 {
        lemma_mark(marks, i, j, n - 1);
        if i == n - 1 {
            lemma_mark_in_row(marks[i], j, marks[i].len() as int);
        }
    }
}

/// The squares next to a square of the map are those that lie side by side with it on the
/// map.
proof fn lemma_neighbors(height: int, width: int, p: Point)
    requires
        p.0 < height <= usize::MAX,
        p.1 < width <= usize::MAX,
    ensures
        forall|n: Point| #[trigger]
            neighbors_of(height, width, p).contains(n) <==> adjacent(p, n) && n.0 < height && n.1
                < width,
{
    let below: Seq<Point> = if p.0 < height - 1 {
        seq![((p.0 + 1) as usize, p.1)]
    } else {
        Seq::empty()
    };
    let above: Seq<Point> = if p.0 > 0 {
        seq![((p.0 - 1) as usize, p.1)]
    } else {
        Seq::empty()
    };
    let right: Seq<Point> = if p.1 < width - 1 {
        seq![(p.0, (p.1 + 1) as usize)]
    } else {
        Seq::empty()
    };
    let left: Seq<Point> = if p.1 > 0 {
        seq![(p.0, (p.1 - 1) as usize)]
    } else {
        Seq::empty()
    };
    let s = neighbors_of(height, width, p);
    assert(s == below + above + right + left);
    assert forall|n: Point| #[trigger] s.contains(n) <==> adjacent(p, n) && n.0 < height && n.1
        < width by {
        if s.contains(n) {
            let i = choose|i: int| 0 <= i < s.len() && s[i] == n;
            if i < below.len() {
                assert(s[i] == below[i]);
            } else if i < below.len() + above.len() {
                assert(s[i] == above[i - below.len()]);
            } else if i < below.len() + above.len() + right.len() {
                assert(s[i] == right[i - below.len() - above.len()]);
            } else {
                assert(s[i] == left[i - below.len() - above.len() - right.len()]);
            }
        }
        if adjacent(p, n) && n.0 < height && n.1 < width {
            if n.0 == p.0 + 1 {
                assert(s[0] == n);
            } else if p.0 == n.0 + 1 {
                assert(s[below.len() as int] == n);
            } else if n.1 == p.1 + 1 {
                assert(s[(below.len() + above.len()) as int] == n);
            } else {
                assert(s[(below.len() + above.len() + right.len()) as int] == n);
            }
        }
    }
}

/// The start is reached in no step.
proof fn lemma_start(h: HeightMap)
    ensures
        reach_in(h, h.start, 0),
{
    let w = seq![h.start];
    assert(is_walk(h, w));
    assert(w.last() == h.start);
}

/// Only the start is reached in no step.
proof fn lemma_reach_zero(h: HeightMap, p: Point)
    requires
        reach_in(h, p, 0),
    ensures
        p == h.start,
{
    let w = choose|w: Seq<Point>| #[trigger] is_walk(h, w) && w.len() == 1 && w.last() == p;
}

/// A walk can be carried on by a step.
proof fn lemma_walk_on(h: HeightMap, p: Point, n: Point, k: int)
    requires
        reach_in(h, p, k),
        climb(h, p, n),
    ensures
        reach_in(h, n, k + 1),
{
    let w = choose|w: Seq<Point>| #[trigger] is_walk(h, w) && w.len() == k + 1 && w.last() == p;
    let longer = w.push(n);
    assert forall|i: int| 0 <= i < longer.len() - 1 implies climb(
        h,
        #[trigger] longer[i],
        longer[i + 1],
    ) by {
        if i < w.len() - 1 {
            assert(climb(h, w[i], w[i + 1]));
        }
    }
    assert(is_walk(h, longer));
    assert(longer.last() == n);
}

/// A walk of one step or more comes from the square before its last.
proof fn lemma_walk_before(h: HeightMap, n: Point, k: int) -> (p: Point)
    requires
        reach_in(h, n, k),
        k >= 1,
    ensures
        reach_in(h, p, k - 1),
        climb(h, p, n),
{
    let w = choose|w: Seq<Point>| #[trigger] is_walk(h, w) && w.len() == k + 1 && w.last() == n;
    let shorter = w.drop_last();
    assert forall|i: int| 0 <= i < shorter.len() - 1 implies climb(
        h,
        #[trigger] shorter[i],
        shorter[i + 1],
    ) by {
        assert(climb(h, w[i], w[i + 1]));
    }
    assert(is_walk(h, shorter));
    assert(climb(h, w[k - 1], w[k]));
    assert(shorter.last() == w[k - 1]);
    w[k - 1]
}

/// Where every square that `k` steps reach is reached by fewer, every square that any
/// number of steps reaches is reached by fewer than `k`.
proof fn lemma_exhausted(h: HeightMap, k: int, p: Point, j: int)
    requires
        forall|q: Point| #[trigger] reach_in(h, q, k) ==> nearer(h, q, k),
        reach_in(h, p, j),
        j >= 0,
        k >= 0,
    ensures
        nearer(h, p, k),
    decreases j,
{
    if j < k {
    } else if j == k {
    } else {
        let q = lemma_walk_before(h, p, j);
        lemma_exhausted(h, k, q, j - 1);
        let i = choose|i: int| 0 <= i < k && #[trigger] reach_in(h, q, i);
        lemma_walk_on(h, q, p, i);
        if i + 1 < k {
            assert(reach_in(h, p, i + 1));
        }
    }
}

/// Whether `points` holds `p`.
fn holds_point(points: &Vec<Point>, p: Point) -> (r: bool)
    ensures
        r == points@.contains(p),
{
    let mut i: usize = 0;
    while i < points.len()
        invariant
            i <= points.len(),
            forall|j: int| 0 <= j < i ==> points[j] != p,
        decreases points.len() - i,
    {
        if points[i].0 == p.0 && points[i].1 == p.1 {
            return true;
        }
        i += 1;
    }
    false
}

/// Those of the squares `candidates` that are not marked and to which one can step up
/// from `p`, in the order of `candidates`.
pub open spec fn open_steps(
    h: HeightMap,
    marks: Seq<Seq<bool>>,
    p: Point,
    candidates: Seq<Point>,
) -> Seq<Point>
    decreases candidates.len(),
{
    if candidates.len() == 0 {
        Seq::empty()
    } else {
        let n = candidates.last();
        let before = open_steps(h, marks, p, candidates.drop_last());
        if !seen(marks, n) && height_at(h, n) <= height_at(h, p) + 1 {
            before.push(n)
        } else {
            before
        }
    }
}

/// The squares next to `point` that have not been visited and are higher than `point` by
/// one at most: those to which one can step from `point`.
pub fn possible(h_map: &HeightMap, visited: &VisitedMap, point: &Point) -> (r: Vec<Point>)
    requires
        h_map.wf(),
        same_shape(visited.cells(), h_map.cells()),
        on_grid(h_map.cells(), *point),
    ensures
        r@ == open_steps(
            *h_map,
            visited.cells(),
            *point,
            neighbors_of(h_map.cells().len() as int, h_map.cells()[0].len() as int, *point),
        ),
        forall|n: Point| #[trigger]
            r@.contains(n) <==> climb(*h_map, *point, n) && !seen(visited.cells(), n),
{
    let ghost cells = h_map.cells();
    let neighbors = h_map.neighbors(point);
    assert(cells[point.0 as int].len() == cells[0].len());
    let point_val = *h_map.val_at(point);
    let height = h_map.height();
    let width = h_map.width();
    proof {
        lemma_neighbors(height as int, width as int, *point);
    }
    let mut r: Vec<Point> = Vec::new();
    let mut k: usize = 0;
    assert(neighbors@.take(0) =~= Seq::empty());
    while k < neighbors.len()
        invariant
            k <= neighbors.len(),
            h_map.wf(),
            r@ == open_steps(*h_map, visited.cells(), *point, neighbors@.take(k as int)),
            cells == h_map.cells(),
            same_shape(visited.cells(), cells),
            on_grid(cells, *point),
            point_val == height_at(*h_map, *point),
            forall|n: Point| #[trigger]
                neighbors@.contains(n) <==> adjacent(*point, n) && n.0 < cells.len() && n.1
                    < cells[0].len(),
            forall|n: Point| #[trigger]
                r@.contains(n) <==> neighbors@.take(k as int).contains(n) && climb(
                    *h_map,
                    *point,
                    n,
                ) && !seen(visited.cells(), n),
        decreases neighbors.len() - k,
    {
        let neighbor = neighbors[k];
        assert(neighbors@.contains(neighbor));
        assert(cells[neighbor.0 as int].len() == cells[0].len());
        let has_visited = visited.has_visited(&neighbor);
        let neighbor_val = *h_map.val_at(&neighbor);
        let can_climb = neighbor_val <= point_val + 1;
        let ghost before = r@;
        let ghost tried = neighbors@.take(k as int);
        if !has_visited && can_climb {
            r.push(neighbor);
        }
        proof {
            assert(neighbors@.take(k + 1) =~= tried.push(neighbor));
            assert(neighbors@.take(k + 1).drop_last() =~= tried);
            assert forall|n: Point| #[trigger]
                r@.contains(n) <==> neighbors@.take(k + 1).contains(n) && climb(
                    *h_map,
                    *point,
                    n,
                ) && !seen(visited.cells(), n) by {
                lemma_seq_contains_after_push(tried, neighbor, n);
                lemma_seq_contains_after_push(before, neighbor, n);
            }
        }
        k += 1;
    }
    assert(neighbors@.take(k as int) =~= neighbors@);
    r
}

/// Every square of the frontier lies on the map and ends a walk of `k` steps.
pub open spec fn frontier_reached(h: HeightMap, points: Seq<Point>, k: int) -> bool {
    forall|i: int|
        0 <= i < points.len() ==> on_grid(h.cells(), #[trigger] points[i]) && reach_in(
            h,
            points[i],
            k,
        )
}

/// The frontier holds every square that `k` steps reach and fewer steps do not.
pub open spec fn frontier_complete(h: HeightMap, points: Seq<Point>, k: int) -> bool {
    forall|p: Point| #[trigger] reach_in(h, p, k) && !nearer(h, p, k) ==> points.contains(p)
}

/// The marked squares are those that fewer than `k` steps reach.
pub open spec fn marks_nearer(h: HeightMap, marks: Seq<Seq<bool>>, k: int) -> bool {
    forall|p: Point| on_grid(h.cells(), p) ==> (#[trigger] seen(marks, p) <==> nearer(h, p, k))
}

/// The marked squares are those of `marks0` and the first `idx` squares of the frontier.
pub open spec fn marks_grown(
    h: HeightMap,
    marks0: Seq<Seq<bool>>,
    marks: Seq<Seq<bool>>,
    points: Seq<Point>,
    idx: int,
) -> bool {
    forall|p: Point|
        on_grid(h.cells(), p) ==> (#[trigger] seen(marks, p) <==> seen(marks0, p) || points.take(
            idx,
        ).contains(p))
}

/// The next frontier holds every square to which a step leads from one of the first `idx`
/// squares of the frontier, unless `k` steps or fewer reach it.
pub open spec fn steps_covered(
    h: HeightMap,
    points: Seq<Point>,
    idx: int,
    next: Seq<Point>,
    k: int,
) -> bool {
    forall|i: int, n: Point|
        0 <= i < idx && #[trigger] climb(h, points[i], n) && !nearer(h, n, k + 1) ==> next.contains(
            n,
        )
}

/// Some walk ends at the goal.
pub open spec fn goal_reachable(h: HeightMap) -> bool {
    exists|j: int| #[trigger] reach_in(h, h.finish, j)
}

/// `r` is the number of steps of the shortest walk to the goal.
pub open spec fn is_fewest_steps(h: HeightMap, r: int) -> bool {
    reach_in(h, h.finish, r) && !nearer(h, h.finish, r)
}

/// Fewer than `r` steps reach every square that any walk reaches.
pub open spec fn all_nearer(h: HeightMap, r: int) -> bool {
    forall|p: Point, j: int| #[trigger] reach_in(h, p, j) ==> nearer(h, p, r)
}

/// No walk has fewer than no steps.
proof fn lemma_reach_not_negative(h: HeightMap, p: Point, j: int)
    requires
        reach_in(h, p, j),
    ensures
        j >= 0,
{
    let w = choose|w: Seq<Point>| #[trigger] is_walk(h, w) && w.len() == j + 1 && w.last() == p;
}

/// Before the first step the frontier is the start, and nothing is marked.
proof fn lemma_begin(h: HeightMap, marks: Seq<Seq<bool>>)
    requires
        h.wf(),
        same_shape(marks, h.cells()),
        forall|p: Point| on_grid(h.cells(), p) ==> !#[trigger] seen(marks, p),
    ensures
        frontier_reached(h, seq![h.start], 0),
        frontier_complete(h, seq![h.start], 0),
        marks_nearer(h, marks, 0),
        !nearer(h, h.finish, 0),
{
    lemma_start(h);
    assert forall|p: Point| #[trigger] reach_in(h, p, 0) && !nearer(h, p, 0) implies seq![
        h.start,
    ].contains(p) by {
        lemma_reach_zero(h, p);
        assert(seq![h.start][0] == p);
    }
}

/// A step from a square that was marked when the round began leads to a marked square or
/// to a square of the frontier.
proof fn lemma_old_point_steps(
    h: HeightMap,
    k: int,
    points: Seq<Point>,
    marks0: Seq<Seq<bool>>,
    p: Point,
    n: Point,
)
    requires
        h.wf(),
        frontier_complete(h, points, k),
        marks_nearer(h, marks0, k),
        seen(marks0, p),
        climb(h, p, n),
        !seen(marks0, n),
    ensures
        points.contains(n),
{
    let j = choose|j: int| 0 <= j < k && #[trigger] reach_in(h, p, j);
    lemma_walk_on(h, p, n, j);
    if j + 1 < k {
        assert(nearer(h, n, k));
    }
}

/// What holds of the marks and of the next frontier after one more square of the frontier
/// has been dealt with.
proof fn lemma_point_done(
    h: HeightMap,
    k: int,
    points: Seq<Point>,
    idx: int,
    marks0: Seq<Seq<bool>>,
    marks_before: Seq<Seq<bool>>,
    marks_after: Seq<Seq<bool>>,
    next_before: Seq<Point>,
    next_after: Seq<Point>,
    poss: Seq<Point>,
)
    requires
        h.wf(),
        k >= 0,
        0 <= idx < points.len(),
        same_shape(marks_before, h.cells()),
        frontier_reached(h, points, k),
        marks_nearer(h, marks0, k),
        marks_grown(h, marks0, marks_before, points, idx),
        frontier_reached(h, next_before, k + 1),
        steps_covered(h, points, idx, next_before, k),
        marks_after == marks_before.update(
            points[idx].0 as int,
            marks_before[points[idx].0 as int].update(points[idx].1 as int, true),
        ),
        forall|n: Point| #[trigger]
            poss.contains(n) <==> climb(h, points[idx], n) && !seen(marks_after, n),
        forall|n: Point| #[trigger]
            next_after.contains(n) <==> next_before.contains(n) || poss.contains(n),
    ensures
        same_shape(marks_after, h.cells()),
        marks_grown(h, marks0, marks_after, points, idx + 1),
        frontier_reached(h, next_after, k + 1),
        steps_covered(h, points, idx + 1, next_after, k),
{
    let p = points[idx];
    let done = points.take(idx);
    let more = points.take(idx + 1);
    assert(more =~= done.push(p));
    assert(on_grid(h.cells(), p));
    assert(marks_before[p.0 as int].len() == marks_before[0].len());
    assert forall|q: Point| on_grid(h.cells(), q) implies (#[trigger] seen(marks_after, q)
        <==> seen(marks0, q) || more.contains(q)) by {
        lemma_seq_contains_after_push(done, p, q);
        assert(seen(marks_before, q) <==> seen(marks0, q) || done.contains(q));
        if q == p {
        } else if q.0 == p.0 {
            assert(seen(marks_after, q) == seen(marks_before, q));
        } else {
            assert(seen(marks_after, q) == seen(marks_before, q));
        }
    }
    assert forall|i: int| 0 <= i < next_after.len() implies on_grid(
        h.cells(),
        #[trigger] next_after[i],
    ) && reach_in(h, next_after[i], k + 1) by {
        let n = next_after[i];
        assert(next_after.contains(n));
        if next_before.contains(n) {
            let j = choose|j: int| 0 <= j < next_before.len() && next_before[j] == n;
            assert(on_grid(h.cells(), next_before[j]));
        } else {
            assert(poss.contains(n));
            lemma_walk_on(h, p, n, k);
        }
    }
    assert forall|i: int, n: Point|
        0 <= i < idx + 1 && #[trigger] climb(h, points[i], n) && !nearer(
            h,
            n,
            k + 1,
        ) implies next_after.contains(n) by {
        if i < idx {
            assert(next_before.contains(n));
        } else {
            if seen(marks_after, n) {
                if seen(marks0, n) {
                    let j = choose|j: int| 0 <= j < k && #[trigger] reach_in(h, n, j);
                    assert(nearer(h, n, k + 1));
                } else {
                    assert(more.contains(n));
                    let j = choose|j: int| 0 <= j < more.len() && more[j] == n;
                    assert(points[j] == n);
                    assert(reach_in(h, n, k));
                    assert(nearer(h, n, k + 1));
                }
            }
            assert(poss.contains(n));
        }
    }
}

/// What holds when a whole frontier has been dealt with and the goal was not in it: the
/// next frontier and the marks are those of the next round.
proof fn lemma_level_done(
    h: HeightMap,
    k: int,
    points: Seq<Point>,
    marks0: Seq<Seq<bool>>,
    marks: Seq<Seq<bool>>,
    next: Seq<Point>,
)
    requires
        h.wf(),
        k >= 0,
        frontier_reached(h, points, k),
        frontier_complete(h, points, k),
        marks_nearer(h, marks0, k),
        !nearer(h, h.finish, k),
        marks_grown(h, marks0, marks, points, points.len() as int),
        steps_covered(h, points, points.len() as int, next, k),
        forall|i: int| 0 <= i < points.len() ==> #[trigger] points[i] != h.finish,
    ensures
        frontier_complete(h, next, k + 1),
        marks_nearer(h, marks, k + 1),
        !nearer(h, h.finish, k + 1),
{
    assert(points.take(points.len() as int) =~= points);
    assert forall|p: Point| #[trigger] reach_in(h, p, k + 1) && !nearer(
        h,
        p,
        k + 1,
    ) implies next.contains(p) by {
        let q = lemma_walk_before(h, p, k + 1);
        if nearer(h, q, k) {
            let j = choose|j: int| 0 <= j < k && #[trigger] reach_in(h, q, j);
            lemma_walk_on(h, q, p, j);
            assert(reach_in(h, p, j + 1));
            assert(nearer(h, p, k + 1));
        }
        assert(points.contains(q));
        let i = choose|i: int| 0 <= i < points.len() && points[i] == q;
        assert(climb(h, points[i], p));
    }
    assert forall|p: Point| on_grid(h.cells(), p) implies (#[trigger] seen(marks, p) <==> nearer(
        h,
        p,
        k + 1,
    )) by {
        assert(seen(marks0, p) <==> nearer(h, p, k));
        if seen(marks0, p) {
            let j = choose|j: int| 0 <= j < k && #[trigger] reach_in(h, p, j);
            assert(nearer(h, p, k + 1));
        }
        if points.contains(p) {
            let i = choose|i: int| 0 <= i < points.len() && points[i] == p;
            assert(reach_in(h, points[i], k));
            assert(nearer(h, p, k + 1));
        }
        if nearer(h, p, k + 1) {
            let j = choose|j: int| 0 <= j < k + 1 && #[trigger] reach_in(h, p, j);
            if j < k {
                assert(nearer(h, p, k));
            } else if !nearer(h, p, k) {
                assert(points.contains(p));
            }
        }
    }
    if nearer(h, h.finish, k + 1) {
        let j = choose|j: int| 0 <= j < k + 1 && #[trigger] reach_in(h, h.finish, j);
        if j < k {
            assert(nearer(h, h.finish, k));
        } else {
            assert(points.contains(h.finish));
            let i = choose|i: int| 0 <= i < points.len() && points[i] == h.finish;
            assert(points[i] != h.finish);
        }
    }
}

/// What holds when the frontier is empty: no walk leads to the goal, and every square
/// that a walk reaches is reached in fewer than `k` steps.
proof fn lemma_no_more(h: HeightMap, k: int)
    requires
        k >= 0,
        frontier_complete(h, Seq::empty(), k),
        !nearer(h, h.finish, k),
    ensures
        !goal_reachable(h),
        all_nearer(h, k),
{
    assert forall|q: Point| #[trigger] reach_in(h, q, k) implies nearer(h, q, k) by {
        if !nearer(h, q, k) {
            assert(Seq::<Point>::empty().contains(q));
        }
    }
    assert forall|p: Point, j: int| #[trigger] reach_in(h, p, j) implies nearer(h, p, k) by {
        lemma_reach_not_negative(h, p, j);
        lemma_exhausted(h, k, p, j);
    }
    if goal_reachable(h) {
        let j = choose|j: int| #[trigger] reach_in(h, h.finish, j);
        assert(nearer(h, h.finish, k));
    }
}

/// The fewest steps that lead from the start to the goal. Where no walk leads to the
/// goal, a number of steps that no shortest walk to any square reaches.
pub fn part_one(h_map: &HeightMap) -> (steps: usize)
    requires
        h_map.wf(),
    ensures
        goal_reachable(*h_map) ==> is_fewest_steps(*h_map, steps as int),
        !goal_reachable(*h_map) ==> all_nearer(*h_map, steps as int),
{
    let ghost h = *h_map;
    let height = h_map.height();
    let width = h_map.width();
    let mut visited = VisitedMap::new(height, width);
    let mut steps: usize = 0;

    let mut points: Vec<Point> = Vec::new();

    points.push(h_map.start);
    proof {
        assert(points@ =~= seq![h.start]);
        assert(same_shape(visited.cells(), h.cells()));
        lemma_begin(h, visited.cells());
        lemma_unmarked_bound(visited.cells(), height as int, width as int);
    }
    while points.len() > 0
        invariant
            h == *h_map,
            h.wf(),
            height == h.cells().len(),
            width == h.cells()[0].len(),
            same_shape(visited.cells(), h.cells()),
            frontier_reached(h, points@, steps as int),
            frontier_complete(h, points@, steps as int),
            marks_nearer(h, visited.cells(), steps as int),
            !nearer(h, h.finish, steps as int),
            steps + unmarked(visited.cells(), height as int) + (if points.len() > 0 {
                1nat
            } else {
                0nat
            }) <= height * width + 1,
        decreases
            unmarked(visited.cells(), height as int) + (if points.len() > 0 {
                1nat
            } else {
                0nat
            }),
    {
        let ghost marks0 = visited.cells();
        let ghost k = steps as int;
        let ghost mut fresh = false;
        let mut next_points: Vec<Point> = Vec::new();
        let mut idx: usize = 0;
        assert(points@.take(0) =~= Seq::empty());
        while idx < points.len()
            invariant
                idx <= points.len(),
                h == *h_map,
                h.wf(),
                k == steps as int,
                height == h.cells().len(),
                width == h.cells()[0].len(),
                same_shape(marks0, h.cells()),
                same_shape(visited.cells(), h.cells()),
                frontier_reached(h, points@, k),
                frontier_complete(h, points@, k),
                marks_nearer(h, marks0, k),
                !nearer(h, h.finish, k),
                marks_grown(h, marks0, visited.cells(), points@, idx as int),
                frontier_reached(h, next_points@, k + 1),
                steps_covered(h, points@, idx as int, next_points@, k),
                forall|i: int| 0 <= i < idx ==> #[trigger] points[i] != h.finish,
                unmarked(visited.cells(), height as int) <= unmarked(marks0, height as int),
                fresh ==> unmarked(visited.cells(), height as int) < unmarked(
                    marks0,
                    height as int,
                ),
                !fresh ==> visited.cells() == marks0,
                !fresh ==> forall|i: int| 0 <= i < idx ==> seen(marks0, #[trigger] points[i]),
                !fresh ==> forall|n: Point| #[trigger]
                    next_points@.contains(n) ==> points@.contains(n) && !seen(marks0, n),
            decreases points.len() - idx,
        {
            let p = points[idx];
            let ghost marks_before = visited.cells();
            let ghost was = seen(marks_before, p);
            assert(on_grid(h.cells(), p));
            assert(marks_before[p.0 as int].len() == marks_before[0].len());
            visited.visit(&p);
            proof {
                lemma_mark(marks_before, p.0 as int, p.1 as int, height as int);
                if was {
                    assert(marks_before[p.0 as int].update(p.1 as int, true)
                        =~= marks_before[p.0 as int]);
                    assert(visited.cells() =~= marks_before);
                } else {
                    fresh = true;
                }
                assert(same_shape(visited.cells(), h.cells())) by {
                    assert forall|i: int| 0 <= i < visited.cells().len() implies (
                    #[trigger] visited.cells()[i]).len() == visited.cells()[0].len() by {
                        assert(marks_before[i].len() == marks_before[0].len());
                    }
                }
            }

            if h_map.finish.0 == p.0 && h_map.finish.1 == p.1 {
                proof {
                    assert(reach_in(h, points[idx as int], k));
                    assert(goal_reachable(h));
                }
                return steps;
            }
            let possible_points = possible(h_map, &visited, &p);
            let ghost next_before = next_points@;
            let mut t: usize = 0;
            assert(possible_points@.take(0) =~= Seq::empty());
            while t < possible_points.len()
                invariant
                    t <= possible_points.len(),
                    forall|n: Point| #[trigger]
                        next_points@.contains(n) <==> next_before.contains(n)
                            || possible_points@.take(t as int).contains(n),
                decreases possible_points.len() - t,
            {
                let pp = possible_points[t];
                let ghost so_far = next_points@;
                let ghost tried = possible_points@.take(t as int);
                if !holds_point(&next_points, pp) {
                    next_points.push(pp);
                }
                proof {
                    assert(possible_points@.take(t + 1) =~= tried.push(pp));
                    assert forall|n: Point| #[trigger]
                        next_points@.contains(n) <==> next_before.contains(n)
                            || possible_points@.take(t + 1).contains(n) by {
                        lemma_seq_contains_after_push(tried, pp, n);
                        lemma_seq_contains_after_push(so_far, pp, n);
                    }
                }
                t += 1;
            }
            proof {
                assert(possible_points@.take(t as int) =~= possible_points@);
                lemma_point_done(
                    h,
                    k,
                    points@,
                    idx as int,
                    marks0,
                    marks_before,
                    visited.cells(),
                    next_before,
                    next_points@,
                    possible_points@,
                );
                if !fresh {
                    assert forall|n: Point| #[trigger] next_points@.contains(n) implies points@.contains(
                        n,
                    ) && !seen(marks0, n) by {
                        if !next_before.contains(n) {
                            assert(possible_points@.contains(n));
                            lemma_old_point_steps(h, k, points@, marks0, p, n);
                        }
                    }
                }
            }
            idx += 1;
        }
        proof {
            lemma_level_done(h, k, points@, marks0, visited.cells(), next_points@);
            if !fresh && next_points.len() > 0 {
                let n = next_points[0];
                assert(next_points@.contains(n));
                let i = choose|i: int| 0 <= i < points.len() && points[i] == n;
                assert(seen(marks0, points[i]));
            }
        }
        points = next_points;

        steps += 1;
    }
    proof {
        assert(points@ =~= Seq::empty());
        lemma_no_more(h, steps as int);
    }
    steps
}

} // verus!

//! The mathematical model of the directory tree and of the transcript that builds it.
//!
//! The tree is a sequence of nodes addressed by position. The root stands at position 0 and
//! every other node stands after its parent, so the parent relation has no cycle.

use vstd::prelude::*;
use super::{FSType, NavigationError};

verus! {

/// A node of the tree as specifications see it.
pub struct NodeModel {
    pub name: Seq<char>,
    pub fs_type: FSType,
    /// The size of a file; 0 for a directory, whose size is always derived.
    pub fs_size: nat,
    /// Position of the parent directory; `None` only for the root.
    pub parent: Option<int>,
    /// Positions of the children, in the order in which they were first listed.
    pub children: Seq<int>,
}

/// One line of a directory listing.
pub struct EntryModel {
    pub name: Seq<char>,
    pub fs_type: FSType,
    pub fs_size: nat,
}

/// One record of the transcript.
pub enum RecordModel {
    ChangeDirectory(Seq<char>),
    ListDirectory(Seq<EntryModel>),
}

/// The tree before any record is read: a root directory named `/` with nothing in it.
pub open spec fn initial_tree() -> Seq<NodeModel> {
    seq![
        NodeModel {
            name: seq!['/'],
            fs_type: FSType::Dir,
            fs_size: 0,
            parent: None,
            children: Seq::empty(),
        },
    ]
}

pub open spec fn is_dir(t: Seq<NodeModel>, i: int) -> bool {
    0 <= i < t.len() && t[i].fs_type == FSType::Dir
}

/// Node `i` has a parent directory that stands before it and lists it.
pub open spec fn parent_ok(t: Seq<NodeModel>, i: int) -> bool {
    &&& t[i].parent is Some
    &&& 0 <= t[i].parent->0 < i
    &&& t[t[i].parent->0].fs_type == FSType::Dir
    &&& t[t[i].parent->0].children.contains(i)
}

/// The children of node `i` stand after it, name it as their parent, are listed once each
/// and carry different names.
pub open spec fn children_ok(t: Seq<NodeModel>, i: int) -> bool {
    let cs = t[i].children;
    &&& forall|k: int|
        0 <= k < cs.len() ==> i < #[trigger] cs[k] < t.len() && t[cs[k]].parent == Some(i)
    &&& forall|k1: int, k2: int| 0 <= k1 < k2 < cs.len() ==> cs[k1] < cs[k2]
    &&& forall|k1: int, k2: int|
        0 <= k1 < k2 < cs.len() ==> t[cs[k1]].name != t[cs[k2]].name
    &&& t[i].fs_type == FSType::Dir ==> t[i].fs_size == 0
}

/// The invariant of the tree.
pub open spec fn well_formed(t: Seq<NodeModel>) -> bool {
    &&& t.len() > 0
    &&& t[0].fs_type == FSType::Dir
    &&& t[0].parent is None
    &&& forall|i: int| 0 < i < t.len() ==> parent_ok(t, i)
    &&& forall|i: int| 0 <= i < t.len() ==> children_ok(t, i)
}

/// The first child of `dir`, from its `k`-th on, that is called `name`.
pub open spec fn child_named_from(t: Seq<NodeModel>, dir: int, name: Seq<char>, k: int) -> Option<int>
    decreases t[dir].children.len() - k,
{
    let cs = t[dir].children;
    if k < 0 || k >= cs.len() {
        None
    } else if t[cs[k]].name == name {
        Some(cs[k])
    } else {
        child_named_from(t, dir, name, k + 1)
    }
}

/// The child of `dir` that is called `name`, if there is one.
pub open spec fn child_named(t: Seq<NodeModel>, dir: int, name: Seq<char>) -> Option<int> {
    child_named_from(t, dir, name, 0)
}

/// The node that a listing line adds.
pub open spec fn new_node(dir: int, e: EntryModel) -> NodeModel {
    NodeModel {
        name: e.name,
        fs_type: e.fs_type,
        fs_size: if e.fs_type == FSType::File { e.fs_size } else { 0 },
        parent: Some(dir),
        children: Seq::empty(),
    }
}

/// The tree after one line of a listing of `dir`: a name that `dir` already holds changes
/// nothing, whatever the line says of it; a new name becomes the last child of `dir`.
pub open spec fn add_entry(t: Seq<NodeModel>, dir: int, e: EntryModel) -> Seq<NodeModel> {
    if child_named(t, dir, e.name) is Some {
        t
    } else {
        t.update(
            dir,
            NodeModel { children: t[dir].children.push(t.len() as int), ..t[dir] },
        ).push(new_node(dir, e))
    }
}

/// The tree after a whole listing of `dir`.
pub open spec fn list_dir(t: Seq<NodeModel>, dir: int, es: Seq<EntryModel>) -> Seq<NodeModel>
    decreases es.len(),
{
    if es.len() == 0 {
        t
    } else {
        add_entry(list_dir(t, dir, es.drop_last()), dir, es.last())
    }
}

/// Where a change of directory leads from `cwd`: `/` to the root, `..` to the parent, any
/// other name to the child directory of that name.
pub open spec fn change_dir(t: Seq<NodeModel>, cwd: int, target: Seq<char>) -> Result<int, NavigationError> {
    if target == seq!['/'] {
        Ok(0)
    } else if target == seq!['.', '.'] {
        match t[cwd].parent {
            Some(p) => Ok(p),
            None => Err(NavigationError::NoParent),
        }
    } else {
        match child_named(t, cwd, target) {
            Some(c) => if t[c].fs_type == FSType::Dir {
                Ok(c)
            } else {
                Err(NavigationError::NoSuchDirectory)
            },
            None => Err(NavigationError::NoSuchDirectory),
        }
    }
}

/// The interpreter's state: the tree and the position of the current directory.
pub struct State {
    pub tree: Seq<NodeModel>,
    pub cwd: int,
}

/// The state after one record.
pub open spec fn step(s: State, r: RecordModel) -> Result<State, NavigationError> {
    match r {
        RecordModel::ChangeDirectory(target) => match change_dir(s.tree, s.cwd, target) {
            Ok(d) => Ok(State { tree: s.tree, cwd: d }),
            Err(e) => Err(e),
        },
        RecordModel::ListDirectory(es) => Ok(State { tree: list_dir(s.tree, s.cwd, es), cwd: s.cwd }),
    }
}

/// The state after a whole transcript, read from the root of the initial tree; the first
/// record that cannot be followed ends the run with its error.
pub open spec fn run(rs: Seq<RecordModel>) -> Result<State, NavigationError>
    decreases rs.len(),
{
    if rs.len() == 0 {
        Ok(State { tree: initial_tree(), cwd: 0 })
    } else {
        match run(rs.drop_last()) {
            Ok(s) => step(s, rs.last()),
            Err(e) => Err(e),
        }
    }
}

/// The tree that a whole transcript builds, or the error that ends it.
pub open spec fn built(rs: Seq<RecordModel>) -> Result<Seq<NodeModel>, NavigationError> {
    match run(rs) {
        Ok(s) => Ok(s.tree),
        Err(e) => Err(e),
    }
}

/// A state whose tree is well formed and whose cursor stands on a directory.
pub open spec fn state_ok(s: State) -> bool {
    well_formed(s.tree) && is_dir(s.tree, s.cwd)
}

/// What `child_named_from` finds is a child with that name, and where it finds nothing no
/// child from the `k`-th on has that name.
pub proof fn lemma_child_named_from(t: Seq<NodeModel>, dir: int, name: Seq<char>, k: int)
    requires
        0 <= k,
    ensures
        match child_named_from(t, dir, name, k) {
            Some(c) => exists|j: int|
                k <= j < t[dir].children.len() && t[dir].children[j] == c && t[c].name == name,
            None => forall|j: int|
                k <= j < t[dir].children.len() ==> t[#[trigger] t[dir].children[j]].name != name,
        },
    decreases t[dir].children.len() - k,
{
    let cs = t[dir].children;
    if k >= cs.len() {
    } else if t[cs[k]].name == name {
    } else {
        lemma_child_named_from(t, dir, name, k + 1);
    }
}

/// Adding a listing line to a directory of a well-formed tree leaves the tree well formed.
pub proof fn lemma_add_entry_well_formed(t: Seq<NodeModel>, dir: int, e: EntryModel)
    requires
        well_formed(t),
        is_dir(t, dir),
    ensures
        well_formed(add_entry(t, dir, e)),
        is_dir(add_entry(t, dir, e), dir),
        add_entry(t, dir, e).len() >= t.len(),
        forall|i: int| is_dir(t, i) ==> is_dir(add_entry(t, dir, e), i),
{
    let t2 = add_entry(t, dir, e);
    if child_named(t, dir, e.name) is None {
        lemma_child_named_from(t, dir, e.name, 0);
        let n = t.len() as int;
        assert(t2.len() == n + 1);
        assert(t2[n] == new_node(dir, e));
        assert(t2[dir].children == t[dir].children.push(n));
        assert forall|i: int| 0 < i < t2.len() implies parent_ok(t2, i) by {
            if i < n {
                assert(parent_ok(t, i));
                let p = t[i].parent->0;
                assert(t[p].children.contains(i));
                let j = choose|j: int| 0 <= j < t[p].children.len() && t[p].children[j] == i;
                if p == dir {
                    assert(t2[p].children[j] == i);
                } else {
                    assert(t2[p] == t[p]);
                }
            } else {
                assert(t2[dir].children[t[dir].children.len() as int] == n);
            }
        }
        assert forall|i: int| 0 <= i < t2.len() implies children_ok(t2, i) by {
            if i < n {
                assert(children_ok(t, i));
                let cs = t[i].children;
                assert forall|k: int| 0 <= k < cs.len() implies t2[cs[k]].name == t[cs[k]].name
                    && t2[cs[k]].parent == t[cs[k]].parent by {}
            }
        }
    }
}

/// Once a prefix of the transcript has failed, the whole transcript fails with that error.
pub proof fn lemma_run_stops_at_error(rs: Seq<RecordModel>, k: int)
    requires
        0 <= k <= rs.len(),
        run(rs.take(k)) is Err,
    ensures
        run(rs) == run(rs.take(k)),
    decreases rs.len() - k,
{
    if k < rs.len() {
        assert(rs.take(k + 1).drop_last() =~= rs.take(k));
        lemma_run_stops_at_error(rs, k + 1);
    } else {
        assert(rs.take(k) =~= rs);
    }
}

/// The size of node `i`: what a file holds, or the sum of the sizes of a directory's children.
pub open spec fn size_of(t: Seq<NodeModel>, i: int) -> nat
    decreases t.len() - i, 1int, 0int,
{
    if 0 <= i < t.len() {
        if t[i].fs_type == FSType::File {
            t[i].fs_size
        } else {
            children_size(t, i, 0)
        }
    } else {
        0
    }
}

/// The sum of the sizes of the children of node `i`, from its `k`-th child on.
pub open spec fn children_size(t: Seq<NodeModel>, i: int, k: int) -> nat
    decreases t.len() - i, 0int, t[i].children.len() - k,
{
    if 0 <= i < t.len() && 0 <= k < t[i].children.len() {
        let c = t[i].children[k];
        (if i < c < t.len() {
            size_of(t, c)
        } else {
            0
        }) + children_size(t, i, k + 1)
    } else {
        0
    }
}

/// What node `j` holds itself: its size if it is a file, nothing if it is a directory.
pub open spec fn file_size(t: Seq<NodeModel>, j: int) -> nat {
    if t[j].fs_type == FSType::File {
        t[j].fs_size
    } else {
        0
    }
}

/// The sum of the sizes of the files that stand at position `k` or later.
pub open spec fn files_from(t: Seq<NodeModel>, k: int) -> nat
    decreases t.len() - k,
{
    if 0 <= k < t.len() {
        file_size(t, k) + files_from(t, k + 1)
    } else {
        0
    }
}

/// The sum of the sizes of all files of the tree.
pub open spec fn files_total(t: Seq<NodeModel>) -> nat {
    files_from(t, 0)
}

/// The sum of the sizes of the nodes at position `from` or later whose parent is `p`.
pub open spec fn by_parent_from(t: Seq<NodeModel>, p: int, from: int) -> nat
    decreases t.len() - from,
{
    if 0 <= from < t.len() {
        (if t[from].parent == Some(p) {
            size_of(t, from)
        } else {
            0
        }) + by_parent_from(t, p, from + 1)
    } else {
        0
    }
}

/// Node `j` has no parent at position `k` or later.
pub open spec fn hangs_below(t: Seq<NodeModel>, k: int, j: int) -> bool {
    match t[j].parent {
        Some(p) => p < k,
        None => true,
    }
}

/// The sum of the sizes of the nodes at position `from` or later whose parent, if they have
/// one, stands before position `k`.
pub open spec fn roots_from(t: Seq<NodeModel>, k: int, from: int) -> nat
    decreases t.len() - from,
{
    if 0 <= from < t.len() {
        (if hangs_below(t, k, from) {
            size_of(t, from)
        } else {
            0
        }) + roots_from(t, k, from + 1)
    } else {
        0
    }
}

/// Summing over the child list of `p` from its `k`-th entry is summing over the nodes from
/// `from` on that have `p` as parent, when `from` stands between the entries `k - 1` and `k`.
proof fn lemma_children_by_parent(t: Seq<NodeModel>, p: int, k: int, from: int)
    requires
        well_formed(t),
        0 <= p < from <= t.len(),
        0 <= k <= t[p].children.len(),
        k > 0 ==> t[p].children[k - 1] < from,
        k < t[p].children.len() ==> from <= t[p].children[k],
    ensures
        children_size(t, p, k) == by_parent_from(t, p, from),
    decreases t.len() - from,
{
    let cs = t[p].children;
    assert(children_ok(t, p));
    if from == t.len() {
        if k < cs.len() {
            assert(cs[k] < t.len());
        }
    } else if k < cs.len() && cs[k] == from {
        if k + 1 < cs.len() {
            assert(cs[k] < cs[k + 1]);
        }
        lemma_children_by_parent(t, p, k + 1, from + 1);
    } else {
        if t[from].parent == Some(p) {
            assert(parent_ok(t, from));
            let j = choose|j: int| 0 <= j < cs.len() && cs[j] == from;
            if j < k {
                if j < k - 1 {
                    assert(cs[j] < cs[k - 1]);
                }
            } else if j > k {
                assert(cs[k] < cs[j]);
            }
            assert(false);
        }
        lemma_children_by_parent(t, p, k, from + 1);
    }
}

/// The nodes that hang below `k + 1` are those that hang below `k` and the children of `k`.
proof fn lemma_roots_split(t: Seq<NodeModel>, k: int, from: int)
    requires
        0 <= from,
    ensures
        roots_from(t, k + 1, from) == roots_from(t, k, from) + by_parent_from(t, k, from),
    decreases t.len() - from,
{
    if from < t.len() {
        lemma_roots_split(t, k, from + 1);
    }
}

/// A file is no node's parent.
proof fn lemma_file_has_no_children(t: Seq<NodeModel>, k: int, from: int)
    requires
        well_formed(t),
        0 <= k < t.len(),
        t[k].fs_type == FSType::File,
        0 < from,
    ensures
        by_parent_from(t, k, from) == 0,
    decreases t.len() - from,
{
    if from < t.len() {
        assert(parent_ok(t, from));
        lemma_file_has_no_children(t, k, from + 1);
    }
}

/// The nodes from `k` on whose parents stand before `k` hold between them exactly the
/// files from `k` on.
proof fn lemma_cut(t: Seq<NodeModel>, k: int)
    requires
        well_formed(t),
        0 <= k <= t.len(),
    ensures
        roots_from(t, k, k) == files_from(t, k),
    decreases t.len() - k,
{
    if k < t.len() {
        lemma_cut(t, k + 1);
        lemma_roots_split(t, k, k + 1);
        if k > 0 {
            assert(parent_ok(t, k));
        }
        assert(hangs_below(t, k, k));
        assert(children_ok(t, k));
        if t[k].fs_type == FSType::File {
            lemma_file_has_no_children(t, k, k + 1);
        } else {
            lemma_children_by_parent(t, k, 0, k + 1);
        }
    }
}

/// Only the root has no parent.
proof fn lemma_only_root_hangs_free(t: Seq<NodeModel>, from: int)
    requires
        well_formed(t),
        0 < from,
    ensures
        roots_from(t, 0, from) == 0,
    decreases t.len() - from,
{
    if from < t.len() {
        assert(parent_ok(t, from));
        lemma_only_root_hangs_free(t, from + 1);
    }
}

/// The files from a later position on hold no more than those from an earlier one.
pub proof fn lemma_files_from_monotonic(t: Seq<NodeModel>, j: int, k: int)
    requires
        0 <= j <= k,
    ensures
        files_from(t, k) <= files_from(t, j),
    decreases k - j,
{
    if j < k {
        lemma_files_from_monotonic(t, j + 1, k);
    }
}

/// Where no file is larger than `m`, the files from `k` on hold at most `m` each.
pub proof fn lemma_files_from_bounded(t: Seq<NodeModel>, k: int, m: nat)
    requires
        0 <= k <= t.len(),
        forall|j: int| 0 <= j < t.len() ==> (#[trigger] t[j]).fs_size <= m,
    ensures
        files_from(t, k) <= (t.len() - k) * m,
    decreases t.len() - k,
{
    if k < t.len() {
        lemma_files_from_bounded(t, k + 1, m);
        assert((t.len() - k) * m == (t.len() - (k + 1)) * m + m) by (nonlinear_arith);
    }
}

/// Size additivity, for a directory: its size is the sum of the sizes of its children.
pub proof fn lemma_directory_size_is_sum_of_children(t: Seq<NodeModel>, d: int)
    requires
        is_dir(t, d),
    ensures
        size_of(t, d) == children_size(t, d, 0),
{
}

/// Size additivity, for the whole tree: the size of the root is the sum of the sizes of
/// all files, wherever they stand.
pub proof fn lemma_root_size_is_files_total(t: Seq<NodeModel>)
    requires
        well_formed(t),
    ensures
        size_of(t, 0) == files_total(t),
{
    lemma_cut(t, 0);
    lemma_only_root_hangs_free(t, 1);
    assert(hangs_below(t, 0, 0));
}

/// No node is larger than the files that stand at its position or later, and so none is
/// larger than the root.
pub proof fn lemma_size_le_root(t: Seq<NodeModel>, i: int)
    requires
        well_formed(t),
        0 <= i < t.len(),
    ensures
        size_of(t, i) <= files_from(t, i),
        size_of(t, i) <= size_of(t, 0),
{
    lemma_cut(t, i);
    if i > 0 {
        assert(parent_ok(t, i));
    }
    assert(hangs_below(t, i, i));
    lemma_files_from_monotonic(t, 0, i);
    lemma_root_size_is_files_total(t);
}

/// The directories among the first `n` nodes, by position, in ascending order.
pub open spec fn dirs_before(t: Seq<NodeModel>, n: int) -> Seq<int>
    decreases n,
{
    if n <= 0 {
        Seq::empty()
    } else if is_dir(t, n - 1) {
        dirs_before(t, n - 1).push(n - 1)
    } else {
        dirs_before(t, n - 1)
    }
}

/// All directories of the tree, the root first.
pub open spec fn directories(t: Seq<NodeModel>) -> Seq<int> {
    dirs_before(t, t.len() as int)
}

/// `dirs_before(t, n)` holds exactly the directories before position `n`, in ascending
/// order.
pub proof fn lemma_dirs_before(t: Seq<NodeModel>, n: int)
    ensures
        forall|d: int| #[trigger] dirs_before(t, n).contains(d) <==> is_dir(t, d) && d < n,
        forall|j: int, k: int|
            0 <= j < k < dirs_before(t, n).len() ==> dirs_before(t, n)[j] < dirs_before(t, n)[k],
        dirs_before(t, n).len() <= if n < 0 { 0 } else { n },
    decreases n,
{
    let s = dirs_before(t, n);
    if n > 0 {
        let r = dirs_before(t, n - 1);
        lemma_dirs_before(t, n - 1);
        if is_dir(t, n - 1) {
            assert(s[r.len() as int] == n - 1);
            assert forall|d: int| s.contains(d) <==> is_dir(t, d) && d < n by {
                if s.contains(d) {
                    let j = choose|j: int| 0 <= j < s.len() && s[j] == d;
                    if j < r.len() {
                        assert(r[j] == d);
                        assert(r.contains(d));
                    }
                }
                if is_dir(t, d) && d < n {
                    if d < n - 1 {
                        assert(r.contains(d));
                        let j = choose|j: int| 0 <= j < r.len() && r[j] == d;
                        assert(s[j] == d);
                    }
                }
            }
            assert(s == r.push(n - 1));
            assert forall|j: int, k: int| 0 <= j < k < s.len() implies s[j] < s[k] by {
                assert(s[j] == r[j]);
                if k < r.len() {
                    assert(s[k] == r[k]);
                    assert(r[j] < r[k]);
                } else {
                    assert(s[k] == n - 1);
                    assert(r.contains(r[j]));
                    assert(r[j] < n - 1);
                }
            }
        }
    }
}

/// Traversal completeness: the directories listed are exactly the directories of the tree,
/// each listed once.
pub proof fn lemma_directories_complete(t: Seq<NodeModel>)
    ensures
        forall|d: int| #[trigger] directories(t).contains(d) <==> is_dir(t, d),
        directories(t).no_duplicates(),
{
    lemma_dirs_before(t, t.len() as int);
}

/// The sum of the sizes of those of the nodes `ids` that are no larger than `max`.
pub open spec fn small_sum(t: Seq<NodeModel>, ids: Seq<int>, max: nat) -> nat
    decreases ids.len(),
{
    if ids.len() == 0 {
        0
    } else {
        small_sum(t, ids.drop_last(), max) + if size_of(t, ids.last()) <= max {
            size_of(t, ids.last())
        } else {
            0
        }
    }
}

/// The sum of the sizes of all directories that are no larger than `max`.
pub open spec fn under_threshold(t: Seq<NodeModel>, max: nat) -> nat {
    small_sum(t, directories(t), max)
}

/// A sum of sizes that are no larger than `max` each is no larger than their number times
/// `max`.
pub proof fn lemma_small_sum_bounded(t: Seq<NodeModel>, ids: Seq<int>, max: nat)
    ensures
        small_sum(t, ids, max) <= ids.len() * max,
    decreases ids.len(),
{
    if ids.len() > 0 {
        lemma_small_sum_bounded(t, ids.drop_last(), max);
        assert(ids.len() * max == (ids.len() - 1) * max + max) by (nonlinear_arith);
    }
}

/// A larger threshold lets no smaller sum through.
pub proof fn lemma_small_sum_monotonic(t: Seq<NodeModel>, ids: Seq<int>, lo: nat, hi: nat)
    requires
        lo <= hi,
    ensures
        small_sum(t, ids, lo) <= small_sum(t, ids, hi),
    decreases ids.len(),
{
    if ids.len() > 0 {
        lemma_small_sum_monotonic(t, ids.drop_last(), lo, hi);
    }
}

/// Threshold monotonicity: the total of the directories under a threshold does not
/// decrease when the threshold grows.
pub proof fn lemma_under_threshold_monotonic(t: Seq<NodeModel>, lo: nat, hi: nat)
    requires
        lo <= hi,
    ensures
        under_threshold(t, lo) <= under_threshold(t, hi),
{
    lemma_small_sum_monotonic(t, directories(t), lo, hi);
}

/// `v` is the size of a directory that is at least `min` large.
pub open spec fn is_candidate(t: Seq<NodeModel>, min: nat, v: nat) -> bool {
    v >= min && exists|d: int| is_dir(t, d) && size_of(t, d) == v
}

/// Some directory is at least `min` large.
pub open spec fn has_candidate(t: Seq<NodeModel>, min: nat) -> bool {
    exists|d: int| is_dir(t, d) && size_of(t, d) >= min
}

/// `v` is the size of the smallest directory among those that are at least `min` large.
pub open spec fn is_smallest_at_least(t: Seq<NodeModel>, min: nat, v: nat) -> bool {
    &&& is_candidate(t, min, v)
    &&& forall|d: int| is_dir(t, d) && size_of(t, d) >= min ==> v <= size_of(t, d)
}

/// The root is the largest directory, so a threshold has a candidate exactly when the root
/// reaches it.
pub proof fn lemma_candidate_iff_root_reaches(t: Seq<NodeModel>, min: nat)
    requires
        well_formed(t),
    ensures
        has_candidate(t, min) <==> size_of(t, 0) >= min,
{
    if has_candidate(t, min) {
        let d = choose|d: int| is_dir(t, d) && size_of(t, d) >= min;
        lemma_size_le_root(t, d);
    }
    if size_of(t, 0) >= min {
        assert(is_dir(t, 0));
    }
}

/// Listing a directory of a well-formed tree leaves the tree well formed.
pub proof fn lemma_list_dir_well_formed(t: Seq<NodeModel>, dir: int, es: Seq<EntryModel>)
    requires
        well_formed(t),
        is_dir(t, dir),
    ensures
        well_formed(list_dir(t, dir, es)),
        is_dir(list_dir(t, dir, es), dir),
    decreases es.len(),
{
    if es.len() > 0 {
        lemma_list_dir_well_formed(t, dir, es.drop_last());
        lemma_add_entry_well_formed(list_dir(t, dir, es.drop_last()), dir, es.last());
    }
}

/// Every state that a transcript reaches is well formed, with the cursor on a directory.
pub proof fn lemma_run_well_formed(rs: Seq<RecordModel>)
    ensures
        match run(rs) {
            Ok(s) => state_ok(s),
            Err(_) => true,
        },
    decreases rs.len(),
{
    if rs.len() > 0 {
        lemma_run_well_formed(rs.drop_last());
        match run(rs.drop_last()) {
            Ok(s) => {
                match rs.last() {
                    RecordModel::ChangeDirectory(target) => {
                        if s.cwd > 0 {
                            assert(parent_ok(s.tree, s.cwd));
                        }
                        lemma_child_named_from(s.tree, s.cwd, target, 0);
                        assert(children_ok(s.tree, s.cwd));
                    },
                    RecordModel::ListDirectory(es) => {
                        lemma_list_dir_well_formed(s.tree, s.cwd, es);
                    },
                }
            },
            Err(_) => {},
        }
    }
}

/// A name that a directory holds is still held after one more listing line.
proof fn lemma_add_entry_keeps_names(t: Seq<NodeModel>, dir: int, e: EntryModel, name: Seq<char>)
    requires
        well_formed(t),
        is_dir(t, dir),
        child_named(t, dir, name) is Some,
    ensures
        child_named(add_entry(t, dir, e), dir, name) is Some,
{
    let t2 = add_entry(t, dir, e);
    if child_named(t, dir, e.name) is None {
        let cs = t[dir].children;
        lemma_child_named_from(t, dir, name, 0);
        let c = child_named(t, dir, name)->0;
        let j = choose|j: int| 0 <= j < cs.len() && cs[j] == c && t[c].name == name;
        lemma_child_named_from(t2, dir, name, 0);
        assert(children_ok(t, dir));
        assert(t2[dir].children[j] == c);
        assert(t2[c].name == t[c].name);
    }
}

/// After a listing line the directory holds the name of that line.
proof fn lemma_add_entry_has_name(t: Seq<NodeModel>, dir: int, e: EntryModel)
    requires
        well_formed(t),
        is_dir(t, dir),
    ensures
        child_named(add_entry(t, dir, e), dir, e.name) is Some,
{
    let t2 = add_entry(t, dir, e);
    if child_named(t, dir, e.name) is None {
        let n = t.len() as int;
        lemma_child_named_from(t2, dir, e.name, 0);
        assert(t2[dir].children[t[dir].children.len() as int] == n);
        assert(t2[n].name == e.name);
    }
}

/// After a listing the directory holds the name of each of its lines.
proof fn lemma_listed_names_present(t: Seq<NodeModel>, dir: int, es: Seq<EntryModel>, i: int)
    requires
        well_formed(t),
        is_dir(t, dir),
        0 <= i < es.len(),
    ensures
        child_named(list_dir(t, dir, es), dir, es[i].name) is Some,
    decreases es.len(),
{
    let before = list_dir(t, dir, es.drop_last());
    lemma_list_dir_well_formed(t, dir, es.drop_last());
    if i == es.len() - 1 {
        lemma_add_entry_has_name(before, dir, es.last());
    } else {
        lemma_listed_names_present(t, dir, es.drop_last(), i);
        lemma_add_entry_keeps_names(before, dir, es.last(), es[i].name);
    }
}

/// A listing whose names the directory already holds changes nothing.
proof fn lemma_list_dir_of_present(t: Seq<NodeModel>, dir: int, es: Seq<EntryModel>)
    requires
        forall|i: int| 0 <= i < es.len() ==> child_named(t, dir, (#[trigger] es[i]).name) is Some,
    ensures
        list_dir(t, dir, es) == t,
    decreases es.len(),
{
    if es.len() > 0 {
        assert forall|i: int| 0 <= i < es.drop_last().len() implies child_named(
            t,
            dir,
            (#[trigger] es.drop_last()[i]).name,
        ) is Some by {
            assert(es.drop_last()[i] == es[i]);
        }
        lemma_list_dir_of_present(t, dir, es.drop_last());
        assert(es.last() == es[es.len() - 1]);
    }
}

/// Idempotent re-listing: listing a directory a second time with the same lines gives the
/// tree that the first listing gave.
pub proof fn lemma_relisting_changes_nothing(t: Seq<NodeModel>, dir: int, es: Seq<EntryModel>)
    requires
        well_formed(t),
        is_dir(t, dir),
    ensures
        list_dir(list_dir(t, dir, es), dir, es) == list_dir(t, dir, es),
{
    let once = list_dir(t, dir, es);
    assert forall|i: int| 0 <= i < es.len() implies child_named(once, dir, (#[trigger] es[i]).name)
        is Some by {
        lemma_listed_names_present(t, dir, es, i);
    }
    lemma_list_dir_of_present(once, dir, es);
}

/// Idempotent re-listing, for transcripts: a transcript that repeats its last listing ends
/// as it would without the repetition.
pub proof fn lemma_repeated_listing(rs: Seq<RecordModel>, es: Seq<EntryModel>)
    ensures
        run(rs.push(RecordModel::ListDirectory(es)).push(RecordModel::ListDirectory(es))) == run(
            rs.push(RecordModel::ListDirectory(es)),
        ),
{
    let once = rs.push(RecordModel::ListDirectory(es));
    let twice = once.push(RecordModel::ListDirectory(es));
    assert(once.drop_last() =~= rs);
    assert(twice.drop_last() =~= once);
    lemma_run_well_formed(rs);
    match run(rs) {
        Ok(s) => {
            lemma_relisting_changes_nothing(s.tree, s.cwd, es);
        },
        Err(_) => {},
    }
}

} // verus!

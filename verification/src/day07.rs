//! A directory tree rebuilt from a transcript of `cd` and `ls` commands, and the size
//! queries that are asked of it.

use vstd::prelude::*;
use vstd::seq_lib::{to_multiset_contains, to_multiset_len};
use crate::text::{
    chars_of, gather, lines, lines_seq, parse_usize, rest, split, split_once, split_once_seq,
    split_seq, str_eq, usize_value,
};
use crate::trusted::sorted;
use crate::day07::model::{
    add_entry, built, child_named, child_named_from, children_ok, children_size, directories,
    dirs_before, files_from, has_candidate, is_candidate, is_dir, is_smallest_at_least,
    lemma_add_entry_well_formed, lemma_dirs_before, lemma_files_from_bounded,
    lemma_run_stops_at_error, lemma_size_le_root, lemma_small_sum_bounded, list_dir, new_node, run,
    size_of, small_sum, step, under_threshold, well_formed, EntryModel, NodeModel, RecordModel,
    State,
};

pub mod model;

verus! {

/// What a node of the tree is.
#[derive(PartialEq, Eq, Debug, Clone, Copy)]
pub enum FSType {
    File,
    Dir,
}

/// Why a change of directory could not be followed.
#[derive(PartialEq, Eq, Debug, Clone, Copy)]
pub enum NavigationError {
    /// `..` was asked of the root.
    NoParent,
    /// The current directory holds no directory of the name asked for.
    NoSuchDirectory,
}

/// One line of a listing: a directory by its name, or a file by its name and size.
#[derive(Debug, PartialEq)]
pub enum Entry<'a> {
    Dir(&'a str),
    File(&'a str, usize),
}

/// One record of the transcript.
#[derive(Debug, PartialEq)]
pub enum Instruction<'a> {
    CD(&'a str),
    LS(Vec<Entry<'a>>),
}

/// A node of the tree. Nodes name each other by their position in the tree.
#[derive(Debug)]
pub struct Node<'a> {
    pub name: &'a str,
    pub fs_type: FSType,
    pub fs_size: usize,
    pub parent: Option<usize>,
    pub children: Vec<usize>,
}

/// The tree: its nodes, the root first.
#[derive(Debug)]
pub struct Tree<'a> {
    pub nodes: Vec<Node<'a>>,
}

impl<'a> View for Entry<'a> {
    type V = EntryModel;

    open spec fn view(&self) -> EntryModel {
        match *self {
            Entry::Dir(name) => EntryModel { name: name@, fs_type: FSType::Dir, fs_size: 0 },
            Entry::File(name, size) => EntryModel {
                name: name@,
                fs_type: FSType::File,
                fs_size: size as nat,
            },
        }
    }
}

/// The models of a listing's lines.
pub open spec fn entries_view<'a>(es: Seq<Entry<'a>>) -> Seq<EntryModel> {
    Seq::new(es.len(), |i: int| es[i]@)
}

impl<'a> View for Instruction<'a> {
    type V = RecordModel;

    open spec fn view(&self) -> RecordModel {
        match *self {
            Instruction::CD(target) => RecordModel::ChangeDirectory(target@),
            Instruction::LS(es) => RecordModel::ListDirectory(entries_view(es@)),
        }
    }
}

/// The models of a transcript's records.
pub open spec fn records_view<'a>(rs: Seq<Instruction<'a>>) -> Seq<RecordModel> {
    Seq::new(rs.len(), |i: int| rs[i]@)
}

/// A sequence of positions as integers.
pub open spec fn positions(ids: Seq<usize>) -> Seq<int> {
    Seq::new(ids.len(), |i: int| ids[i] as int)
}

impl<'a> View for Node<'a> {
    type V = NodeModel;

    open spec fn view(&self) -> NodeModel {
        NodeModel {
            name: self.name@,
            fs_type: self.fs_type,
            fs_size: self.fs_size as nat,
            parent: match self.parent {
                Some(p) => Some(p as int),
                None => None,
            },
            children: positions(self.children@),
        }
    }
}

/// The models of a vector of nodes.
pub open spec fn nodes_view<'a>(ns: Seq<Node<'a>>) -> Seq<NodeModel> {
    Seq::new(ns.len(), |i: int| ns[i]@)
}

impl<'a> View for Tree<'a> {
    type V = Seq<NodeModel>;

    open spec fn view(&self) -> Seq<NodeModel> {
        nodes_view(self.nodes@)
    }
}

impl<'a> Node<'a> {
    /// A node that stands alone: no parent, no children, size 0.
    pub fn new(name: &'a str, fs_type: FSType) -> (node: Node<'a>)
        ensures
            node@ == (NodeModel {
                name: name@,
                fs_type: fs_type,
                fs_size: 0,
                parent: None,
                children: Seq::empty(),
            }),
    {
        let node = Node { name, fs_type, fs_size: 0, parent: None, children: Vec::new() };
        assert(node@.children =~= Seq::empty());
        node
    }
}

/// The child of `dir` called `name`, if `dir` has one.
fn find_child<'a>(nodes: &Vec<Node<'a>>, dir: usize, name: &str) -> (r: Option<usize>)
    requires
        well_formed(nodes_view(nodes@)),
        dir < nodes.len(),
    ensures
        match r {
            Some(c) => child_named(nodes_view(nodes@), dir as int, name@) == Some(c as int) && c
                < nodes.len(),
            None => child_named(nodes_view(nodes@), dir as int, name@) is None,
        },
{
    let ghost t = nodes_view(nodes@);
    let mut k: usize = 0;
    while k < nodes[dir].children.len()
        invariant
            t == nodes_view(nodes@),
            well_formed(t),
            dir < nodes.len(),
            k <= nodes[dir as int].children.len(),
            child_named(t, dir as int, name@) == child_named_from(t, dir as int, name@, k as int),
        decreases nodes[dir as int].children.len() - k,
    {
        let c = nodes[dir].children[k];
        assert(children_ok(t, dir as int));
        assert(t[dir as int].children[k as int] == c as int);
        if str_eq(nodes[c].name, name) {
            return Some(c);
        }
        k += 1;
    }
    None
}

/// What a line of a listing says: `dir` and a name, or a size and a name.
pub open spec fn parse_entry(line: Seq<char>) -> Option<EntryModel> {
    match split_once_seq(line, seq![' ']) {
        None => None,
        Some((kind, name)) => if kind == seq!['d', 'i', 'r'] {
            Some(EntryModel { name: name, fs_type: FSType::Dir, fs_size: 0 })
        } else {
            match usize_value(kind) {
                Some(size) => Some(
                    EntryModel { name: name, fs_type: FSType::File, fs_size: size as nat },
                ),
                None => None,
            }
        },
    }
}

/// What a command with its output says. A command that begins with `cd` names its target
/// from its fourth character on; any other command is a listing, whose output follows its
/// first line.
pub open spec fn parse_command(cmd: Seq<char>) -> Option<RecordModel> {
    if cmd.len() < 2 {
        None
    } else if cmd[0] == 'c' && cmd[1] == 'd' {
        if cmd.len() < 3 {
            None
        } else {
            Some(RecordModel::ChangeDirectory(cmd.subrange(3, cmd.len() as int)))
        }
    } else {
        let output = rest(lines_seq(cmd));
        match gather(Seq::new(output.len(), |i: int| parse_entry(output[i]))) {
            Some(es) => Some(RecordModel::ListDirectory(es)),
            None => None,
        }
    }
}

/// What a terminal transcript says. Commands begin after a line feed, `$` and a space; what
/// stands before the first of these counts as a change to the root.
pub open spec fn parse_transcript(input: Seq<char>) -> Option<Seq<RecordModel>> {
    let cmds = split_seq(input, seq!['\n', '$', ' ']);
    gather(
        Seq::new(
            cmds.len(),
            |i: int|
                if i == 0 {
                    Some(RecordModel::ChangeDirectory(seq!['/']))
                } else {
                    parse_command(cmds[i])
                },
        ),
    )
}

/// Reads one line of a listing.
fn read_entry<'a>(line: &'a str) -> (r: Option<Entry<'a>>)
    ensures
        match r {
            Some(e) => parse_entry(line@) == Some(e@),
            None => parse_entry(line@) is None,
        },
{
    proof {
        reveal_strlit(" ");
        reveal_strlit("dir");
        assert(" "@ =~= seq![' ']);
        assert("dir"@ =~= seq!['d', 'i', 'r']);
    }
    match split_once(line, " ") {
        None => None,
        Some((kind, name)) => {
            if str_eq(kind, "dir") {
                Some(Entry::Dir(name))
            } else {
                match parse_usize(kind) {
                    Some(size) => Some(Entry::File(name, size)),
                    None => None,
                }
            }
        },
    }
}

/// Reads one command with its output.
fn read_command<'a>(cmd: &'a str) -> (r: Option<Instruction<'a>>)
    ensures
        match r {
            Some(i) => parse_command(cmd@) == Some(i@),
            None => parse_command(cmd@) is None,
        },
{
    let cs = chars_of(cmd);
    if cs.len() < 2 {
        return None;
    }
    if cs[0] == 'c' && cs[1] == 'd' {
        if cs.len() < 3 {
            None
        } else {
            Some(Instruction::CD(cmd.substring_char(3, cs.len())))
        }
    } else {
        let ls = lines(cmd);
        let ghost output = rest(lines_seq(cmd@));
        let ghost items = Seq::new(output.len(), |i: int| parse_entry(output[i]));
        let mut entries: Vec<Entry<'a>> = Vec::new();
        let mut i: usize = 1;
        while i < ls.len()
            invariant
                1 <= i,
                i <= ls.len() || i == 1,
                cmd@.len() >= 2,
                !(cmd@[0] == 'c' && cmd@[1] == 'd'),
                crate::text::texts(ls@) == lines_seq(cmd@),
                output == rest(lines_seq(cmd@)),
                items == Seq::new(output.len(), |i: int| parse_entry(output[i])),
                entries.len() == i - 1,
                forall|j: int|
                    0 <= j < entries.len() ==> (#[trigger] items[j]) == Some(entries[j]@),
            decreases ls.len() - i,
        {
            assert(crate::text::texts(ls@).len() == ls.len());
            assert(output[i - 1] == ls[i as int]@) by {
                assert(crate::text::texts(ls@)[i as int] == ls[i as int]@);
            }
            assert(items[i - 1] == parse_entry(output[i - 1]));
            match read_entry(ls[i]) {
                Some(e) => {
                    entries.push(e);
                },
                None => {
                    assert(items[i - 1] is None);
                    return None;
                },
            }
            i += 1;
        }
        proof {
            assert(crate::text::texts(ls@).len() == ls.len());
            assert(items.len() == entries.len());
            assert forall|j: int| 0 <= j < items.len() implies (#[trigger] items[j]) is Some by {
                assert(items[j] == Some(entries[j]@));
            }
            assert(entries_view(entries@) =~= gather(items)->0);
        }
        Some(Instruction::LS(entries))
    }
}

/// Reads a terminal transcript; `None` where a command or a line of a listing cannot be
/// read.
pub fn parse<'a>(input: &'a str) -> (r: Option<Vec<Instruction<'a>>>)
    ensures
        match r {
            Some(records) => parse_transcript(input@) == Some(records_view(records@)),
            None => parse_transcript(input@) is None,
        },
{
    proof {
        reveal_strlit("\n$ ");
        reveal_strlit("/");
        assert("\n$ "@ =~= seq!['\n', '$', ' ']);
        assert("/"@ =~= seq!['/']);
    }
    let cmds = split(input, "\n$ ");
    let ghost pieces = split_seq(input@, seq!['\n', '$', ' ']);
    let ghost items = Seq::new(
        pieces.len(),
        |i: int|
            if i == 0 {
                Some(RecordModel::ChangeDirectory(seq!['/']))
            } else {
                parse_command(pieces[i])
            },
    );
    let mut records: Vec<Instruction<'a>> = Vec::new();
    let mut i: usize = 0;
    while i < cmds.len()
        invariant
            i <= cmds.len(),
            "/"@ == seq!['/'],
            pieces == split_seq(input@, seq!['\n', '$', ' ']),
            crate::text::texts(cmds@) == pieces,
            items == Seq::new(
                pieces.len(),
                |i: int|
                    if i == 0 {
                        Some(RecordModel::ChangeDirectory(seq!['/']))
                    } else {
                        parse_command(pieces[i])
                    },
            ),
            records.len() == i,
            forall|j: int| 0 <= j < records.len() ==> (#[trigger] items[j]) == Some(records[j]@),
        decreases cmds.len() - i,
    {
        assert(crate::text::texts(cmds@).len() == cmds.len());
        assert(pieces[i as int] == cmds[i as int]@) by {
            assert(crate::text::texts(cmds@)[i as int] == cmds[i as int]@);
        }
        if i == 0 {
            records.push(Instruction::CD("/"));
        } else {
            match read_command(cmds[i]) {
                Some(record) => {
                    records.push(record);
                },
                None => {
                    assert(items[i as int] is None);
                    return None;
                },
            }
        }
        i += 1;
    }
    proof {
        assert(crate::text::texts(cmds@).len() == cmds.len());
        assert(items.len() == records.len());
        assert forall|j: int| 0 <= j < items.len() implies (#[trigger] items[j]) is Some by {
            assert(items[j] == Some(records[j]@));
        }
        assert(records_view(records@) =~= gather(items)->0);
    }
    Some(records)
}

/// Adds one line of a listing to the directory `dir`.
fn add_child<'a>(nodes: &mut Vec<Node<'a>>, dir: usize, entry: &Entry<'a>)
    requires
        well_formed(nodes_view(old(nodes)@)),
        is_dir(nodes_view(old(nodes)@), dir as int),
    ensures
        nodes_view(final(nodes)@) == add_entry(nodes_view(old(nodes)@), dir as int, entry@),
        well_formed(nodes_view(final(nodes)@)),
        is_dir(nodes_view(final(nodes)@), dir as int),
{
    let ghost t = nodes_view(nodes@);
    proof {
        lemma_add_entry_well_formed(t, dir as int, entry@);
    }
    let (name, fs_type, fs_size) = match entry {
        Entry::Dir(name) => (*name, FSType::Dir, 0usize),
        Entry::File(name, size) => (*name, FSType::File, *size),
    };
    match find_child(nodes, dir, name) {
        Some(_) => {},
        None => {
            let id = nodes.len();
            nodes.push(Node { name, fs_type, fs_size, parent: Some(dir), children: Vec::new() });
            nodes[dir].children.push(id);
            assert(nodes[id as int]@.children =~= Seq::empty());
            assert(nodes[id as int]@ == new_node(dir as int, entry@));
            assert(nodes[dir as int]@.children =~= t[dir as int].children.push(id as int));
            assert(nodes_view(nodes@) =~= add_entry(t, dir as int, entry@));
        },
    }
}

/// No directory reaches the size that was asked for.
#[derive(PartialEq, Eq, Debug, Clone, Copy)]
pub struct NoCandidateError;

/// The space of the whole disk.
pub const TOTAL_SPACE: usize = 70000000;

/// The free space that an update needs.
pub const NEEDED_SPACE: usize = 30000000;

/// The largest size that counts as small.
pub const SMALL_DIRECTORY: usize = 100000;

impl<'a> Tree<'a> {
    /// The tree's invariant: its model is well formed.
    pub open spec fn wf(&self) -> bool {
        well_formed(self@)
    }

    /// The position of the root.
    pub fn root(&self) -> (id: usize)
        ensures
            id == 0,
    {
        0
    }

    /// The number of nodes.
    pub fn len(&self) -> (n: usize)
        ensures
            n == self@.len(),
    {
        self.nodes.len()
    }

    /// The node at position `id`.
    pub fn node(&self, id: usize) -> (node: &Node<'a>)
        requires
            id < self@.len(),
        ensures
            node@ == self@[id as int],
    {
        &self.nodes[id]
    }

    /// The size of the node at position `id`, computed afresh from the files below it.
    pub fn fs_size(&self, id: usize) -> (size: u128)
        requires
            self.wf(),
            id < self@.len(),
        ensures
            size == size_of(self@, id as int),
        decreases self@.len() - id,
    {
        let ghost t = self@;
        let count = self.nodes.len();
        proof {
            assert(t.len() == count);
            lemma_size_le_root(t, id as int);
            lemma_files_from_bounded(t, id as int, usize::MAX as nat);
            assert((t.len() - id) * usize::MAX <= usize::MAX * usize::MAX) by (nonlinear_arith)
                requires
                    0 <= t.len() - id <= usize::MAX,
            ;
            assert(usize::MAX * usize::MAX <= u128::MAX) by (nonlinear_arith)
                requires
                    usize::MAX <= 0xffff_ffff_ffff_ffff,
                    u128::MAX == 0xffff_ffff_ffff_ffff_ffff_ffff_ffff_ffff,
            ;
        }
        match self.nodes[id].fs_type {
            FSType::File => self.nodes[id].fs_size as u128,
            FSType::Dir => {
                let mut total: u128 = 0;
                let mut k: usize = 0;
                while k < self.nodes[id].children.len()
                    invariant
                        t == self@,
                        self.wf(),
                        id < self@.len(),
                        k <= self.nodes[id as int].children.len(),
                        total + children_size(t, id as int, k as int) == children_size(
                            t,
                            id as int,
                            0,
                        ),
                        children_size(t, id as int, 0) <= u128::MAX,
                    decreases self.nodes[id as int].children.len() - k,
                {
                    let c = self.nodes[id].children[k];
                    assert(children_ok(t, id as int));
                    assert(t[id as int].children[k as int] == c as int);
                    let size = self.fs_size(c);
                    total = total + size;
                    k += 1;
                }
                total
            },
        }
    }
}

/// Builds the tree that a transcript describes, starting at the root of a tree that holds
/// only its root. Stops at the first change of directory that cannot be followed: a change
/// of directory never makes a directory, only a listing does. A listing adds the names that
/// the current directory does not hold yet; a name that it holds stays as it was first
/// listed.
pub fn process<'a>(instructions: Vec<Instruction<'a>>) -> (r: Result<Tree<'a>, NavigationError>)
    ensures
        match r {
            Ok(tree) => tree.wf() && built(records_view(instructions@)) == Ok::<
                Seq<NodeModel>,
                NavigationError,
            >(tree@),
            Err(e) => built(records_view(instructions@)) == Err::<Seq<NodeModel>, NavigationError>(
                e,
            ),
        },
{
    let ghost rs = records_view(instructions@);
    let mut nodes: Vec<Node<'a>> = Vec::new();
    nodes.push(Node::new("/", FSType::Dir));
    let mut cwd: usize = 0;
    proof {
        reveal_strlit("/");
        reveal_strlit("..");
        assert("/"@ =~= seq!['/']);
        assert(".."@ =~= seq!['.', '.']);
        assert(nodes_view(nodes@) =~= crate::day07::model::initial_tree());
        assert(rs.take(0) =~= Seq::empty());
    }
    let mut i: usize = 0;
    while i < instructions.len()
        invariant
            i <= instructions.len(),
            rs == records_view(instructions@),
            "/"@ == seq!['/'],
            ".."@ == seq!['.', '.'],
            run(rs.take(i as int)) == Ok::<State, NavigationError>(
                State { tree: nodes_view(nodes@), cwd: cwd as int },
            ),
            well_formed(nodes_view(nodes@)),
            is_dir(nodes_view(nodes@), cwd as int),
        decreases instructions.len() - i,
    {
        let ghost before = State { tree: nodes_view(nodes@), cwd: cwd as int };
        proof {
            assert(rs.take(i + 1).drop_last() =~= rs.take(i as int));
            assert(rs.take(i + 1).last() == instructions[i as int]@);
            assert(run(rs.take(i + 1)) == step(before, instructions[i as int]@));
        }
        let mut failed: Option<NavigationError> = None;
        match &instructions[i] {
            Instruction::CD(path) => {
                if str_eq(path, "/") {
                    cwd = 0;
                } else if str_eq(path, "..") {
                    match nodes[cwd].parent {
                        Some(p) => {
                            assert(crate::day07::model::parent_ok(before.tree, cwd as int));
                            cwd = p;
                        },
                        None => {
                            failed = Some(NavigationError::NoParent);
                        },
                    }
                } else {
                    match find_child(&nodes, cwd, path) {
                        Some(c) => match nodes[c].fs_type {
                            FSType::Dir => {
                                cwd = c;
                            },
                            FSType::File => {
                                failed = Some(NavigationError::NoSuchDirectory);
                            },
                        },
                        None => {
                            failed = Some(NavigationError::NoSuchDirectory);
                        },
                    }
                }
            },
            Instruction::LS(entries) => {
                let ghost es = entries_view(entries@);
                let mut j: usize = 0;
                while j < entries.len()
                    invariant
                        j <= entries.len(),
                        es == entries_view(entries@),
                        nodes_view(nodes@) == list_dir(before.tree, cwd as int, es.take(j as int)),
                        well_formed(nodes_view(nodes@)),
                        is_dir(nodes_view(nodes@), cwd as int),
                    decreases entries.len() - j,
                {
                    proof {
                        assert(es.take(j + 1).drop_last() =~= es.take(j as int));
                    }
                    add_child(&mut nodes, cwd, &entries[j]);
                    j += 1;
                }
                proof {
                    assert(es.take(j as int) =~= es);
                }
            },
        }
        if let Some(e) = failed {
            proof {
                lemma_run_stops_at_error(rs, i + 1);
            }
            return Err(e);
        }
        i += 1;
    }
    proof {
        assert(rs.take(i as int) =~= rs);
    }
    Ok(Tree { nodes })
}

/// Every directory of the tree, the root included, each once, by position.
pub fn all_dirs<'a>(tree: &Tree<'a>) -> (dirs: Vec<usize>)
    ensures
        positions(dirs@) == directories(tree@),
        forall|d: int| #[trigger] positions(dirs@).contains(d) <==> is_dir(tree@, d),
        positions(dirs@).no_duplicates(),
{
    let ghost t = tree@;
    let mut dirs: Vec<usize> = Vec::new();
    let mut i: usize = 0;
    assert(positions(dirs@) =~= dirs_before(t, 0));
    while i < tree.nodes.len()
        invariant
            t == tree@,
            i <= tree.nodes.len(),
            positions(dirs@) == dirs_before(t, i as int),
        decreases tree.nodes.len() - i,
    {
        match tree.nodes[i].fs_type {
            FSType::Dir => {
                dirs.push(i);
                assert(positions(dirs@) =~= dirs_before(t, i as int).push(i as int));
            },
            FSType::File => {},
        }
        i += 1;
    }
    proof {
        lemma_dirs_before(t, t.len() as int);
    }
    dirs
}

/// The sum of the sizes of all directories that are no larger than `max_size`.
pub fn select_under_threshold<'a>(tree: &Tree<'a>, max_size: usize) -> (total: u128)
    requires
        tree.wf(),
    ensures
        total == under_threshold(tree@, max_size as nat),
{
    let ghost t = tree@;
    let dirs = all_dirs(tree);
    let ghost ids = positions(dirs@);
    let mut total: u128 = 0;
    let mut k: usize = 0;
    proof {
        lemma_dirs_before(t, t.len() as int);
        assert(ids.take(0) =~= Seq::empty());
    }
    while k < dirs.len()
        invariant
            t == tree@,
            tree.wf(),
            ids == positions(dirs@),
            ids == directories(t),
            forall|d: int| #[trigger] ids.contains(d) <==> is_dir(t, d),
            k <= dirs.len(),
            total == small_sum(t, ids.take(k as int), max_size as nat),
        decreases dirs.len() - k,
    {
        let d = dirs[k];
        assert(ids[k as int] == d as int);
        assert(ids.contains(d as int));
        proof {
            assert(ids.take(k + 1).drop_last() =~= ids.take(k as int));
            lemma_small_sum_bounded(t, ids.take(k + 1), max_size as nat);
            assert((k + 1) * max_size <= usize::MAX * usize::MAX) by (nonlinear_arith)
                requires
                    0 <= k + 1 <= usize::MAX,
                    0 <= max_size <= usize::MAX,
            ;
            assert(usize::MAX * usize::MAX <= u128::MAX) by (nonlinear_arith)
                requires
                    usize::MAX <= 0xffff_ffff_ffff_ffff,
                    u128::MAX == 0xffff_ffff_ffff_ffff_ffff_ffff_ffff_ffff,
            ;
        }
        let size = tree.fs_size(d);
        if size <= max_size as u128 {
            total = total + size;
        }
        k += 1;
    }
    proof {
        assert(ids.take(k as int) =~= ids);
    }
    total
}

/// The size of the smallest directory among those that are at least `min_size` large, or
/// the error when there is none.
pub fn select_smallest_at_least<'a>(tree: &Tree<'a>, min_size: usize) -> (r: Result<
    u128,
    NoCandidateError,
>)
    requires
        tree.wf(),
    ensures
        match r {
            Ok(v) => is_smallest_at_least(tree@, min_size as nat, v as nat),
            Err(_) => !has_candidate(tree@, min_size as nat),
        },
{
    let ghost t = tree@;
    let ghost min = min_size as nat;
    let dirs = all_dirs(tree);
    let ghost ids = positions(dirs@);
    let mut candidates: Vec<u128> = Vec::new();
    let mut k: usize = 0;
    while k < dirs.len()
        invariant
            t == tree@,
            tree.wf(),
            min == min_size as nat,
            ids == positions(dirs@),
            forall|d: int| #[trigger] ids.contains(d) <==> is_dir(t, d),
            k <= dirs.len(),
            forall|c: int|
                0 <= c < candidates.len() ==> is_candidate(t, min, (#[trigger] candidates[c]) as nat),
            forall|j: int|
                0 <= j < k && size_of(t, #[trigger] ids[j]) >= min ==> candidates@.contains(
                    size_of(t, ids[j]) as u128,
                ),
        decreases dirs.len() - k,
    {
        let d = dirs[k];
        assert(ids[k as int] == d as int);
        assert(ids.contains(d as int));
        let size = tree.fs_size(d);
        if size >= min_size as u128 {
            let ghost before = candidates@;
            candidates.push(size);
            assert(candidates[before.len() as int] == size);
            assert forall|j: int| 0 <= j < k && size_of(t, #[trigger] ids[j]) >= min implies candidates@.contains(
                size_of(t, ids[j]) as u128,
            ) by {
                let w = choose|w: int|
                    0 <= w < before.len() && before[w] == size_of(t, ids[j]) as u128;
                assert(candidates[w] == size_of(t, ids[j]) as u128);
            }
        }
        k += 1;
    }
    let ghost unsorted = candidates@;
    let ordered = sorted(candidates);
    proof {
        to_multiset_len(unsorted);
        to_multiset_len(ordered@);
    }
    if ordered.len() == 0 {
        proof {
            if has_candidate(t, min) {
                let d = choose|d: int| is_dir(t, d) && size_of(t, d) >= min;
                assert(ids.contains(d));
                let j = choose|j: int| 0 <= j < ids.len() && ids[j] == d;
                assert(unsorted.contains(size_of(t, ids[j]) as u128));
            }
        }
        Err(NoCandidateError)
    } else {
        let v = ordered[0];
        proof {
            assert(ordered@.contains(v));
            to_multiset_contains(ordered@, v);
            to_multiset_contains(unsorted, v);
            assert(unsorted.contains(v));
            let c = choose|c: int| 0 <= c < unsorted.len() && unsorted[c] == v;
            assert(is_candidate(t, min, unsorted[c] as nat));
            assert forall|d: int| is_dir(t, d) && size_of(t, d) >= min implies v <= size_of(
                t,
                d,
            ) by {
                assert(ids.contains(d));
                let j = choose|j: int| 0 <= j < ids.len() && ids[j] == d;
                let x = size_of(t, ids[j]) as u128;
                assert(unsorted.contains(x));
                to_multiset_contains(ordered@, x);
                to_multiset_contains(unsorted, x);
                assert(ordered@.contains(x));
                let w = choose|w: int| 0 <= w < ordered.len() && ordered[w] == x;
                assert(ordered[0] <= ordered[w]);
                lemma_size_le_root(t, d);
            }
        }
        Ok(v)
    }
}

/// The sum of the sizes of all directories of at most 100000.
pub fn part_one<'a>(tree: &Tree<'a>) -> (total: u128)
    requires
        tree.wf(),
    ensures
        total == under_threshold(tree@, 100000),
{
    select_under_threshold(tree, SMALL_DIRECTORY)
}

/// The size of the smallest directory whose removal leaves 30000000 free on a disk of
/// 70000000.
pub fn part_two<'a>(tree: &Tree<'a>) -> (size: u128)
    requires
        tree.wf(),
        40000000 <= size_of(tree@, 0) <= 70000000,
    ensures
        is_smallest_at_least(tree@, (size_of(tree@, 0) - 40000000) as nat, size as nat),
{
    let root_size = tree.fs_size(0);
    let avail = TOTAL_SPACE as u128 - root_size;
    let adtl_needed = NEEDED_SPACE as u128 - avail;
    match select_smallest_at_least(tree, adtl_needed as usize) {
        Ok(size) => size,
        Err(_) => {
            proof {
                assert(is_dir(tree@, 0));
                assert(false);
            }
            root_size
        },
    }
}

} // verus!

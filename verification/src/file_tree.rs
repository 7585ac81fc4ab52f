//! The tree of a scanned directory: its entries, how a scan builds it, and
//! what can be asked of it.

use crate::path::{PathView, TreePath};
use crate::scan::{scanning, Scan};
use crate::size::Size;
use vstd::prelude::*;

verus! {

/// Why a tree could not be built.
#[derive(PartialEq, Eq, Clone, Copy, Debug, Structural)]
pub enum TreeError {
    /// A path is neither a file nor a directory.
    InvalidPath,
    /// A directory could not be listed, or a file's length could not be read.
    IOError,
}

/// What one look at the disk found at a path.
#[derive(PartialEq, Eq, Clone, Debug)]
pub enum Probe {
    /// A directory, with the names of the entries that its listing gave.
    Directory { names: Vec<String> },
    /// A file of `length` bytes.
    File { length: u64 },
    /// A file or a directory that could not be read.
    Unreadable,
    /// Neither a file nor a directory.
    Missing,
}

/// One entry of a tree as contracts speak of it.
pub enum Node {
    /// A file: its path and its length in bytes.
    File { path: PathView, bytes: nat },
    /// A directory: its path and the paths that it lists, in the order of
    /// its listing.
    Directory { path: PathView, children: Seq<PathView> },
}

impl Node {
    /// The path of the entry.
    pub open spec fn path(self) -> PathView {
        match self {
            Node::File { path, .. } => path,
            Node::Directory { path, .. } => path,
        }
    }

    /// The paths that a directory lists; none for a file.
    pub open spec fn children(self) -> Seq<PathView> {
        match self {
            Node::File { .. } => Seq::empty(),
            Node::Directory { children, .. } => children,
        }
    }

    /// The bytes that the entry itself holds: a file's length, nothing for a
    /// directory.
    pub open spec fn bytes(self) -> nat {
        match self {
            Node::File { bytes, .. } => bytes,
            Node::Directory { .. } => 0,
        }
    }
}

/// The views of a list of paths.
pub open spec fn paths(list: Seq<TreePath>) -> Seq<PathView> {
    Seq::new(list.len(), |k: int| list[k]@)
}

/// The paths one step below `path`, one for each name.
pub open spec fn below(path: PathView, names: Seq<String>) -> Seq<PathView> {
    Seq::new(names.len(), |k: int| path.push(names[k]@))
}

/// The entry that a probe makes of a path, or the reason why it makes none.
pub open spec fn classify(path: PathView, probe: Probe) -> Result<Node, TreeError> {
    match probe {
        Probe::Directory { names } => Ok(Node::Directory { path, children: below(path, names@) }),
        Probe::File { length } => Ok(Node::File { path, bytes: length as nat }),
        Probe::Unreadable => Err(TreeError::IOError),
        Probe::Missing => Err(TreeError::InvalidPath),
    }
}

/// An entry of a tree: a file with its size, or a directory with the paths of
/// its immediate entries.
#[derive(PartialEq, Eq, PartialOrd, Ord, Clone, Debug)]
pub enum EntryNode {
    /// A file: its path and its size.
    Fichier { nom: TreePath, taille: Size },
    /// A directory: its path and the paths of its entries, in the order of
    /// its listing.
    Dossier { nom: TreePath, enfant: Vec<TreePath> },
}

impl View for EntryNode {
    type V = Node;

    open spec fn view(&self) -> Node {
        match self {
            EntryNode::Fichier { nom, taille } => Node::File { path: nom@, bytes: taille@ },
            EntryNode::Dossier { nom, enfant } => Node::Directory {
                path: nom@,
                children: paths(enfant@),
            },
        }
    }
}

impl EntryNode {
    /// The entry for `path`, given what a look at the disk found there. A
    /// directory's children are the paths one step below it, in the order of
    /// the listing. What could not be read is an `IOError`; what is neither
    /// file nor directory is an `InvalidPath`.
    pub fn new(path: &TreePath, probe: &Probe) -> (entry: Result<EntryNode, TreeError>)
        ensures
            entry matches Ok(node) ==> classify(path@, *probe) == Ok::<Node, TreeError>(node@),
            entry matches Err(error) ==> classify(path@, *probe) == Err::<Node, TreeError>(error),
    {
        match probe {
            Probe::Directory { names } => {
                let mut enfant: Vec<TreePath> = Vec::new();
                let mut k: usize = 0;
                while k < names.len()
                    invariant
                        k <= names.len(),
                        paths(enfant@) == below(path@, names@).take(k as int),
                    decreases names.len() - k,
                {
                    let ghost before = paths(enfant@);
                    enfant.push(path.join(names[k].as_str()));
                    k += 1;
                    assert(paths(enfant@) =~= before.push(path@.push(names@[k - 1]@)));
                    assert(paths(enfant@) =~= below(path@, names@).take(k as int));
                }
                assert(below(path@, names@).take(k as int) =~= below(path@, names@));
                Ok(EntryNode::Dossier { nom: path.clone(), enfant })
            },
            Probe::File { length } => Ok(
                EntryNode::Fichier { nom: path.clone(), taille: Size::new(*length) },
            ),
            Probe::Unreadable => Err(TreeError::IOError),
            Probe::Missing => Err(TreeError::InvalidPath),
        }
    }

    /// The path of the entry.
    pub fn path(&self) -> (path: &TreePath)
        ensures
            path@ == self@.path(),
    {
        match self {
            EntryNode::Fichier { nom, .. } => nom,
            EntryNode::Dossier { nom, .. } => nom,
        }
    }
}

/// The views of a list of entries.
pub open spec fn nodes_of(map: Seq<EntryNode>) -> Seq<Node> {
    Seq::new(map.len(), |i: int| map[i]@)
}

/// Whether some entry has this path.
pub open spec fn has_key(nodes: Seq<Node>, path: PathView) -> bool {
    exists|i: int| 0 <= i < nodes.len() && (#[trigger] nodes[i]).path() == path
}

/// Whether one of the first `upto` entries lists this path as a child.
pub open spec fn listed(nodes: Seq<Node>, upto: int, path: PathView) -> bool {
    exists|j: int| 0 <= j < upto && j < nodes.len() && (#[trigger] nodes[j]).children().contains(path)
}

/// Whether `child` is one step below `parent`.
pub open spec fn child_of(child: PathView, parent: PathView) -> bool {
    child.len() > 0 && child.drop_last() == parent
}

/// The bytes of all the files among the entries.
pub open spec fn total_bytes(nodes: Seq<Node>) -> nat
    decreases nodes.len(),
{
    if nodes.len() == 0 {
        0
    } else {
        total_bytes(nodes.drop_last()) + nodes.last().bytes()
    }
}

/// What holds of the entries of every tree: all that holds during a scan,
/// with nothing left pending, at least the root's entry, and the files' bytes
/// adding up within 64 bits.
pub open spec fn well_formed(root: PathView, nodes: Seq<Node>) -> bool {
    &&& nodes.len() > 0
    &&& scanning(root, nodes, Seq::empty())
    &&& total_bytes(nodes) <= u64::MAX
}

/// Where the entry of a path stands, if it has one.
pub(crate) fn find(map: &Vec<EntryNode>, path: &TreePath) -> (at: Option<usize>)
    ensures
        at matches Some(i) ==> i < map.len() && map[i as int]@.path() == path@,
        at is None ==> !has_key(nodes_of(map@), path@),
{
    let mut i: usize = 0;
    while i < map.len()
        invariant
            i <= map.len(),
            forall|j: int| 0 <= j < i ==> (#[trigger] nodes_of(map@)[j]).path() != path@,
        decreases map.len() - i,
    {
        if map[i].path().same(path) {
            return Some(i);
        }
        i += 1;
    }
    None
}

/// The entry that stands under a path, if one does.
pub open spec fn entry_of(nodes: Seq<Node>, path: PathView) -> Option<Node> {
    if has_key(nodes, path) {
        Some(nodes[choose|i: int| 0 <= i < nodes.len() && (#[trigger] nodes[i]).path() == path])
    } else {
        None
    }
}

/// The bytes of the files that are `base` or lie under it.
pub open spec fn aggregate(nodes: Seq<Node>, base: PathView) -> nat
    decreases nodes.len(),
{
    if nodes.len() == 0 {
        0
    } else if base.is_prefix_of(nodes.last().path()) {
        aggregate(nodes.drop_last(), base) + nodes.last().bytes()
    } else {
        aggregate(nodes.drop_last(), base)
    }
}

/// The paths of the files among the entries, in the entries' order.
pub open spec fn file_paths(nodes: Seq<Node>) -> Seq<PathView>
    decreases nodes.len(),
{
    if nodes.len() == 0 {
        Seq::empty()
    } else if nodes.last() is File {
        file_paths(nodes.drop_last()).push(nodes.last().path())
    } else {
        file_paths(nodes.drop_last())
    }
}

/// The directories among the first entries of `nodes`, in the entries'
/// order, each with the bytes of the files under it in all of `all`.
pub open spec fn directory_sizes(nodes: Seq<Node>, all: Seq<Node>) -> Seq<(nat, PathView)>
    decreases nodes.len(),
{
    if nodes.len() == 0 {
        Seq::empty()
    } else if nodes.last() is Directory {
        directory_sizes(nodes.drop_last(), all).push(
            (aggregate(all, nodes.last().path()), nodes.last().path()),
        )
    } else {
        directory_sizes(nodes.drop_last(), all)
    }
}

/// The views of a list of sizes with paths.
pub open spec fn sized_paths(list: Seq<(Size, TreePath)>) -> Seq<(nat, PathView)> {
    Seq::new(list.len(), |k: int| (list[k].0@, list[k].1@))
}

/// Where no two entries share a path, the entry under the path of the
/// `i`-th entry is the `i`-th entry.
pub proof fn lemma_entry_of(nodes: Seq<Node>, i: int)
    requires
        0 <= i < nodes.len(),
        forall|a: int, b: int|
            0 <= a < b < nodes.len() ==> (#[trigger] nodes[a]).path() != (#[trigger] nodes[b]).path(),
    ensures
        entry_of(nodes, nodes[i].path()) == Some(nodes[i]),
{
    let path = nodes[i].path();
    assert(has_key(nodes, path));
    let c = choose|c: int| 0 <= c < nodes.len() && (#[trigger] nodes[c]).path() == path;
    if c < i {
        assert(nodes[c].path() != nodes[i].path());
    } else if i < c {
        assert(nodes[i].path() != nodes[c].path());
    }
}

/// The files among the first entries hold no more bytes than all files.
proof fn lemma_total_take(nodes: Seq<Node>, n: int)
    requires
        0 <= n <= nodes.len(),
    ensures
        total_bytes(nodes.take(n)) <= total_bytes(nodes),
    decreases nodes.len(),
{
    if n == nodes.len() {
        assert(nodes.take(n) =~= nodes);
    } else {
        lemma_total_take(nodes.drop_last(), n);
        assert(nodes.drop_last().take(n) =~= nodes.take(n));
    }
}

/// The files under a path hold no more bytes than all files.
proof fn lemma_aggregate_bound(nodes: Seq<Node>, base: PathView)
    ensures
        aggregate(nodes, base) <= total_bytes(nodes),
    decreases nodes.len(),
{
    if nodes.len() > 0 {
        lemma_aggregate_bound(nodes.drop_last(), base);
    }
}

/// What a record of a disk says: the records are pairs of a path and what
/// was found there, and of two records for one path the later one counts. A
/// path without a record is `Missing`.
pub open spec fn probe_at(disk: Seq<(TreePath, Probe)>, path: PathView) -> Probe
    decreases disk.len(),
{
    if disk.len() == 0 {
        Probe::Missing
    } else if disk.last().0@ == path {
        disk.last().1
    } else {
        probe_at(disk.drop_last(), path)
    }
}

/// Whether a disk has a record for this path.
pub open spec fn in_disk(disk: Seq<(TreePath, Probe)>, path: PathView) -> bool {
    exists|i: int| 0 <= i < disk.len() && (#[trigger] disk[i]).0@ == path
}

/// Whether a probe is a directory whose listing holds `name`.
pub open spec fn lists(probe: Probe, name: Seq<char>) -> bool {
    probe matches Probe::Directory { names } && crate::path::texts(names@).contains(name)
}

/// Whether a walk from `root` comes to `path`: `path` is `root` or lies under
/// it, and each step from `root` down to `path` is a name in the listing of
/// the directory where the step begins.
pub open spec fn reachable(disk: Seq<(TreePath, Probe)>, root: PathView, path: PathView) -> bool {
    &&& root.is_prefix_of(path)
    &&& forall|k: int|
        root.len() <= k < path.len() ==> lists(probe_at(disk, #[trigger] path.take(k)), path[k])
}

/// The length of a file; nothing for any other probe.
pub open spec fn file_length(probe: Probe) -> nat {
    match probe {
        Probe::File { length } => length as nat,
        _ => 0,
    }
}

/// The lengths of all the file records of a disk.
pub open spec fn disk_bytes(disk: Seq<(TreePath, Probe)>) -> nat
    decreases disk.len(),
{
    if disk.len() == 0 {
        0
    } else {
        disk_bytes(disk.drop_last()) + file_length(disk.last().1)
    }
}

/// Whether the entries are what a walk of the disk from `root` finds: the
/// paths with an entry are the paths that the walk comes to, and each entry
/// is what the record of its path makes of it.
pub open spec fn built_from(disk: Seq<(TreePath, Probe)>, root: PathView, nodes: Seq<Node>) -> bool {
    &&& forall|p: PathView| has_key(nodes, p) <==> #[trigger] reachable(disk, root, p)
    &&& forall|i: int|
        0 <= i < nodes.len() ==> classify(nodes[i].path(), probe_at(disk, nodes[i].path())) == Ok::<
            Node,
            TreeError,
        >(#[trigger] nodes[i])
}

/// What a record counts for: its file length where bytes are counted, one
/// where records are.
pub open spec fn weight(probe: Probe, bytes: bool) -> nat {
    if bytes {
        file_length(probe)
    } else {
        1
    }
}

/// What the records count for whose paths have no entry yet.
pub open spec fn left(disk: Seq<(TreePath, Probe)>, nodes: Seq<Node>, bytes: bool) -> nat
    decreases disk.len(),
{
    if disk.len() == 0 {
        0
    } else if has_key(nodes, disk.last().0@) {
        left(disk.drop_last(), nodes, bytes)
    } else {
        left(disk.drop_last(), nodes, bytes) + weight(disk.last().1, bytes)
    }
}

/// What holds between a disk and a walk of it at every step.
spec fn walking(
    disk: Seq<(TreePath, Probe)>,
    root: PathView,
    nodes: Seq<Node>,
    pending: Seq<PathView>,
) -> bool {
    &&& forall|i: int|
        0 <= i < nodes.len() ==> classify(nodes[i].path(), probe_at(disk, nodes[i].path())) == Ok::<
            Node,
            TreeError,
        >(#[trigger] nodes[i])
    &&& forall|i: int| 0 <= i < nodes.len() ==> reachable(disk, root, (#[trigger] nodes[i]).path())
    &&& forall|q: int| 0 <= q < pending.len() ==> reachable(disk, root, #[trigger] pending[q])
    &&& total_bytes(nodes) + left(disk, nodes, true) <= disk_bytes(disk)
}

/// With one more entry, the paths that have an entry are those that had
/// one and the path of the new entry.
pub proof fn lemma_has_key_push(nodes: Seq<Node>, node: Node, path: PathView)
    ensures
        has_key(nodes.push(node), path) <==> has_key(nodes, path) || node.path() == path,
{
    let after = nodes.push(node);
    if has_key(nodes, path) {
        let i = choose|i: int| 0 <= i < nodes.len() && (#[trigger] nodes[i]).path() == path;
        assert(after[i].path() == path);
    }
    if node.path() == path {
        assert(after[nodes.len() as int].path() == path);
    }
    if has_key(after, path) {
        let i = choose|i: int| 0 <= i < after.len() && (#[trigger] after[i]).path() == path;
        if i < nodes.len() {
            assert(nodes[i].path() == path);
        }
    }
}

proof fn lemma_left_all(disk: Seq<(TreePath, Probe)>)
    ensures
        left(disk, Seq::empty(), true) == disk_bytes(disk),
    decreases disk.len(),
{
    if disk.len() > 0 {
        lemma_left_all(disk.drop_last());
    }
}

/// One more entry leaves no more records without an entry.
pub proof fn lemma_left_less(disk: Seq<(TreePath, Probe)>, nodes: Seq<Node>, node: Node, bytes: bool)
    ensures
        left(disk, nodes.push(node), bytes) <= left(disk, nodes, bytes),
    decreases disk.len(),
{
    if disk.len() > 0 {
        lemma_left_less(disk.drop_last(), nodes, node, bytes);
        lemma_has_key_push(nodes, node, disk.last().0@);
    }
}

/// The entry of a path that has a record and had no entry takes what its
/// record counts for from the records without an entry.
pub proof fn lemma_left_step(disk: Seq<(TreePath, Probe)>, nodes: Seq<Node>, node: Node, bytes: bool)
    requires
        !has_key(nodes, node.path()),
        in_disk(disk, node.path()),
    ensures
        left(disk, nodes.push(node), bytes) + weight(probe_at(disk, node.path()), bytes) <= left(
            disk,
            nodes,
            bytes,
        ),
    decreases disk.len(),
{
    let path = node.path();
    let rest = disk.drop_last();
    lemma_has_key_push(nodes, node, disk.last().0@);
    if disk.last().0@ == path {
        lemma_left_less(rest, nodes, node, bytes);
    } else {
        let i = choose|i: int| 0 <= i < disk.len() && (#[trigger] disk[i]).0@ == path;
        assert(rest[i].0@ == path);
        lemma_left_step(rest, nodes, node, bytes);
    }
}

proof fn lemma_total_push(nodes: Seq<Node>, node: Node)
    ensures
        total_bytes(nodes.push(node)) == total_bytes(nodes) + node.bytes(),
{
    assert(nodes.push(node).drop_last() =~= nodes);
}

/// A name in the listing of a path that a walk comes to is one step further
/// on the walk.
proof fn lemma_reachable_child(
    disk: Seq<(TreePath, Probe)>,
    root: PathView,
    path: PathView,
    name: Seq<char>,
)
    requires
        reachable(disk, root, path),
        lists(probe_at(disk, path), name),
    ensures
        reachable(disk, root, path.push(name)),
{
    let child = path.push(name);
    assert forall|k: int| root.len() <= k < child.len() implies lists(
        probe_at(disk, #[trigger] child.take(k)),
        child[k],
    ) by {
        if k < path.len() {
            assert(child.take(k) =~= path.take(k));
        } else {
            assert(child.take(k) =~= path);
        }
    }
}

/// Once nothing is pending, every path that a walk comes to has its entry.
proof fn lemma_reachable_entered(
    disk: Seq<(TreePath, Probe)>,
    root: PathView,
    nodes: Seq<Node>,
    path: PathView,
)
    requires
        nodes.len() > 0,
        scanning(root, nodes, Seq::empty()),
        walking(disk, root, nodes, Seq::empty()),
        reachable(disk, root, path),
    ensures
        has_key(nodes, path),
    decreases path.len(),
{
    if path.len() == root.len() {
        assert(path =~= root);
        assert(nodes[0].path() == root);
    } else {
        let k = path.len() - 1;
        let parent = path.drop_last();
        assert(parent =~= path.take(k));
        assert forall|m: int| root.len() <= m < parent.len() implies lists(
            probe_at(disk, #[trigger] parent.take(m)),
            parent[m],
        ) by {
            assert(parent.take(m) =~= path.take(m));
        }
        lemma_reachable_entered(disk, root, nodes, parent);
        let i = choose|i: int| 0 <= i < nodes.len() && (#[trigger] nodes[i]).path() == parent;
        assert(lists(probe_at(disk, path.take(k)), path[k]));
        let names = probe_at(disk, parent)->Directory_names;
        let m = choose|m: int|
            0 <= m < crate::path::texts(names@).len() && crate::path::texts(names@)[m] == path[k];
        let child = nodes[i].children()[m];
        assert(child =~= path);
        assert(!Seq::<PathView>::empty().contains(child));
    }
}

/// A path whose record makes an entry has a record.
pub proof fn lemma_classified_in_disk(disk: Seq<(TreePath, Probe)>, path: PathView)
    requires
        classify(path, probe_at(disk, path)) is Ok,
    ensures
        in_disk(disk, path),
    decreases disk.len(),
{
    if disk.len() > 0 {
        let at = disk.len() - 1;
        if disk[at].0@ != path {
            lemma_classified_in_disk(disk.drop_last(), path);
            let i = choose|i: int|
                0 <= i < disk.drop_last().len() && (#[trigger] disk.drop_last()[i]).0@ == path;
            assert(disk[i].0@ == path);
        }
    }
}

/// The walk of a disk, step by step: what becomes of the entries made so
/// far once the pending paths are worked off, the last one first. A pending
/// path that has its entry is dropped. Any other is entered with what its
/// record makes of it, and its children become pending in its place; where
/// its record makes no entry, the walk ends with the reason.
pub open spec fn walk(disk: Seq<(TreePath, Probe)>, nodes: Seq<Node>, pending: Seq<PathView>) -> Result<
    Seq<Node>,
    TreeError,
>
    decreases left(disk, nodes, false), pending.len(),
{
    if pending.len() == 0 {
        Ok(nodes)
    } else if has_key(nodes, pending.last()) {
        walk(disk, nodes, pending.drop_last())
    } else {
        match classify(pending.last(), probe_at(disk, pending.last())) {
            Err(error) => Err(error),
            Ok(node) => {
                proof {
                    lemma_classified_in_disk(disk, pending.last());
                    lemma_left_step(disk, nodes, node, false);
                }
                walk(disk, nodes.push(node), pending.drop_last() + node.children())
            },
        }
    }
}

/// Pending paths that have their entries change nothing in a walk.
proof fn lemma_walk_skip(
    disk: Seq<(TreePath, Probe)>,
    nodes: Seq<Node>,
    pending: Seq<PathView>,
    kept: int,
)
    requires
        0 <= kept <= pending.len(),
        forall|q: int| kept <= q < pending.len() ==> has_key(nodes, #[trigger] pending[q]),
    ensures
        walk(disk, nodes, pending) == walk(disk, nodes, pending.take(kept)),
    decreases pending.len(),
{
    if kept == pending.len() {
        assert(pending.take(kept) =~= pending);
    } else {
        let rest = pending.drop_last();
        assert(has_key(nodes, pending[pending.len() - 1]));
        assert forall|q: int| kept <= q < rest.len() implies has_key(nodes, #[trigger] rest[q]) by {
            assert(rest[q] == pending[q]);
        }
        lemma_walk_skip(disk, nodes, rest, kept);
        assert(rest.take(kept) =~= pending.take(kept));
    }
}

/// Whether the lengths of all the file records of a disk add up within 64
/// bits, as `FileTree::new` asks of the disk that it walks.
pub fn disk_fits(disk: &Vec<(TreePath, Probe)>) -> (fits: bool)
    ensures
        fits == (disk_bytes(disk@) <= u64::MAX),
{
    let mut sum: u128 = 0;
    let mut i: usize = 0;
    while i < disk.len()
        invariant
            i <= disk.len(),
            sum == disk_bytes(disk@.take(i as int)),
            sum <= i * 0xffff_ffff_ffff_ffff,
        decreases disk.len() - i,
    {
        assert(disk@.take(i + 1).drop_last() =~= disk@.take(i as int));
        let length: u64 = match &disk[i].1 {
            Probe::File { length } => *length,
            _ => 0,
        };
        sum = sum + length as u128;
        i += 1;
    }
    assert(disk@.take(i as int) =~= disk@);
    sum <= 0xffff_ffff_ffff_ffff
}

/// Where the record of a path stands on a disk.
fn locate(disk: &Vec<(TreePath, Probe)>, path: &TreePath) -> (at: Option<usize>)
    ensures
        at matches Some(i) ==> i < disk.len() && disk[i as int].0@ == path@ && probe_at(
            disk@,
            path@,
        ) == disk[i as int].1,
        at is None ==> probe_at(disk@, path@) == Probe::Missing,
{
    let mut i: usize = disk.len();
    assert(disk@.take(i as int) =~= disk@);
    while i > 0
        invariant
            i <= disk.len(),
            probe_at(disk@, path@) == probe_at(disk@.take(i as int), path@),
        decreases i,
    {
        assert(disk@.take(i as int).drop_last() =~= disk@.take(i - 1));
        i -= 1;
        if disk[i].0.same(path) {
            return Some(i);
        }
    }
    None
}

/// The sizes that the files among the first entries have in all of `all`,
/// added up over the files that are `base` or lie under it.
pub open spec fn sizes_of_files_under(part: Seq<Node>, all: Seq<Node>, base: PathView) -> nat
    decreases part.len(),
{
    if part.len() == 0 {
        0
    } else if part.last() is File && base.is_prefix_of(part.last().path()) {
        sizes_of_files_under(part.drop_last(), all, base) + aggregate(all, part.last().path())
    } else {
        sizes_of_files_under(part.drop_last(), all, base)
    }
}

/// Every entry of a tree is the root or lies under it.
pub proof fn lemma_under_root(root: PathView, nodes: Seq<Node>, i: int)
    requires
        well_formed(root, nodes),
        0 <= i < nodes.len(),
    ensures
        root.is_prefix_of(nodes[i].path()),
    decreases i,
{
    if i == 0 {
        assert(root.subrange(0, root.len() as int) =~= root);
    } else {
        assert(listed(nodes, i, nodes[i].path()));
        let j = choose|j: int|
            0 <= j < i && j < nodes.len() && (#[trigger] nodes[j]).children().contains(
                nodes[i].path(),
            );
        let k = choose|k: int|
            0 <= k < nodes[j].children().len() && nodes[j].children()[k] == nodes[i].path();
        assert(child_of(nodes[j].children()[k], nodes[j].path()));
        lemma_under_root(root, nodes, j);
        let parent = nodes[j].path();
        let child = nodes[i].path();
        assert(parent =~= child.drop_last());
        assert(root =~= child.subrange(0, root.len() as int)) by {
            assert(root =~= parent.subrange(0, root.len() as int));
        }
    }
}

/// Nothing lies under a file: an entry whose path is the path of a file, or
/// goes on from it, is that file's entry.
pub proof fn lemma_nothing_under_file(root: PathView, nodes: Seq<Node>, i: int, k: int)
    requires
        well_formed(root, nodes),
        0 <= i < nodes.len(),
        0 <= k < nodes.len(),
        nodes[i] is File,
        nodes[i].path().is_prefix_of(nodes[k].path()),
    ensures
        k == i,
    decreases k,
{
    let file = nodes[i].path();
    let path = nodes[k].path();
    if k != i {
        if i < k {
            assert(nodes[i].path() != nodes[k].path());
        } else {
            assert(nodes[k].path() != nodes[i].path());
        }
        assert(file.len() < path.len()) by {
            if file.len() == path.len() {
                assert(file =~= path.subrange(0, file.len() as int));
                assert(path.subrange(0, path.len() as int) =~= path);
            }
        }
        if k == 0 {
            lemma_under_root(root, nodes, i);
        } else {
            assert(listed(nodes, k, nodes[k].path()));
            let j = choose|j: int|
                0 <= j < k && j < nodes.len() && (#[trigger] nodes[j]).children().contains(path);
            let m = choose|m: int|
                0 <= m < nodes[j].children().len() && nodes[j].children()[m] == path;
            assert(child_of(nodes[j].children()[m], nodes[j].path()));
            let parent = nodes[j].path();
            assert(parent =~= path.drop_last());
            assert(file =~= parent.subrange(0, file.len() as int)) by {
                assert(file =~= path.subrange(0, file.len() as int));
            }
            lemma_nothing_under_file(root, nodes, i, j);
        }
    }
}

/// The size of a file of a tree is its own length.
pub proof fn lemma_file_size(root: PathView, nodes: Seq<Node>, i: int)
    requires
        well_formed(root, nodes),
        0 <= i < nodes.len(),
        nodes[i] is File,
    ensures
        aggregate(nodes, nodes[i].path()) == nodes[i].bytes(),
{
    lemma_file_size_within(root, nodes, i, nodes.len() as int);
    assert(nodes.take(nodes.len() as int) =~= nodes);
}

proof fn lemma_file_size_within(root: PathView, nodes: Seq<Node>, i: int, n: int)
    requires
        well_formed(root, nodes),
        0 <= i < nodes.len(),
        0 <= n <= nodes.len(),
        nodes[i] is File,
    ensures
        aggregate(nodes.take(n), nodes[i].path()) == if i < n {
            nodes[i].bytes()
        } else {
            0
        },
    decreases n,
{
    if n > 0 {
        lemma_file_size_within(root, nodes, i, n - 1);
        assert(nodes.take(n).drop_last() =~= nodes.take(n - 1));
        assert(nodes.take(n).last() == nodes[n - 1]);
        if nodes[i].path().is_prefix_of(nodes[n - 1].path()) {
            lemma_nothing_under_file(root, nodes, i, n - 1);
        }
    }
}

/// The size of a path of a tree is the sum of the sizes of the files that
/// are the path or lie under it, and nothing where there is no such file.
pub proof fn lemma_size_is_sum_of_files(root: PathView, nodes: Seq<Node>, base: PathView)
    requires
        well_formed(root, nodes),
    ensures
        aggregate(nodes, base) == sizes_of_files_under(nodes, nodes, base),
        (forall|i: int|
            0 <= i < nodes.len() && (#[trigger] nodes[i]) is File ==> !base.is_prefix_of(
                nodes[i].path(),
            )) ==> aggregate(nodes, base) == 0,
{
    lemma_size_is_sum_within(root, nodes, base, nodes.len() as int);
    assert(nodes.take(nodes.len() as int) =~= nodes);
}

proof fn lemma_size_is_sum_within(root: PathView, nodes: Seq<Node>, base: PathView, n: int)
    requires
        well_formed(root, nodes),
        0 <= n <= nodes.len(),
    ensures
        aggregate(nodes.take(n), base) == sizes_of_files_under(nodes.take(n), nodes, base),
        (forall|i: int|
            0 <= i < n && (#[trigger] nodes[i]) is File ==> !base.is_prefix_of(nodes[i].path()))
            ==> aggregate(nodes.take(n), base) == 0,
    decreases n,
{
    if n > 0 {
        lemma_size_is_sum_within(root, nodes, base, n - 1);
        assert(nodes.take(n).drop_last() =~= nodes.take(n - 1));
        assert(nodes.take(n).last() == nodes[n - 1]);
        if nodes[n - 1] is File {
            lemma_file_size(root, nodes, n - 1);
        }
    }
}

/// Whether a chain of children leads from `base` down to `path`: whether
/// `path` is `base`, or is listed by the directory one step above it, to
/// which such a chain leads in its turn.
pub open spec fn descends(nodes: Seq<Node>, base: PathView, path: PathView) -> bool
    decreases path.len(),
{
    if path == base {
        true
    } else if path.len() <= base.len() {
        false
    } else {
        &&& entry_of(nodes, path.drop_last()) matches Some(Node::Directory { children, .. })
        &&& children.contains(path)
        &&& descends(nodes, base, path.drop_last())
    }
}

/// In a tree, an entry lies under another exactly when a chain of children
/// leads from the one down to the other.
pub proof fn lemma_descends(root: PathView, nodes: Seq<Node>, a: int, b: int)
    requires
        well_formed(root, nodes),
        0 <= a < nodes.len(),
        0 <= b < nodes.len(),
    ensures
        nodes[a].path().is_prefix_of(nodes[b].path()) <==> descends(
            nodes,
            nodes[a].path(),
            nodes[b].path(),
        ),
    decreases nodes[b].path().len(),
{
    let base = nodes[a].path();
    let path = nodes[b].path();
    if path == base {
        assert(base.subrange(0, base.len() as int) =~= base);
    } else if path.len() <= base.len() {
        if base.is_prefix_of(path) {
            assert(path.subrange(0, path.len() as int) =~= path);
        }
    } else {
        lemma_under_root(root, nodes, a);
        if b == 0 {
            assert(path == root);
        } else {
            assert(listed(nodes, b, path));
            let j = choose|j: int|
                0 <= j < b && j < nodes.len() && (#[trigger] nodes[j]).children().contains(path);
            let m = choose|m: int|
                0 <= m < nodes[j].children().len() && nodes[j].children()[m] == path;
            assert(child_of(nodes[j].children()[m], nodes[j].path()));
            let parent = nodes[j].path();
            assert(parent =~= path.drop_last());
            lemma_entry_of(nodes, j);
            lemma_descends(root, nodes, a, j);
            if base.is_prefix_of(path) {
                assert(base =~= parent.subrange(0, base.len() as int)) by {
                    assert(base =~= path.subrange(0, base.len() as int));
                }
            }
            if base.is_prefix_of(parent) {
                assert(base =~= path.subrange(0, base.len() as int)) by {
                    assert(base =~= parent.subrange(0, base.len() as int));
                }
            }
        }
    }
}

/// A tree whose root is a file has that one entry: its files are the root
/// alone, and it has no directory.
pub proof fn lemma_single_file(root: PathView, nodes: Seq<Node>)
    requires
        well_formed(root, nodes),
        nodes[0] is File,
    ensures
        nodes.len() == 1,
        file_paths(nodes) == seq![root],
        directory_sizes(nodes, nodes) == Seq::<(nat, PathView)>::empty(),
{
    if nodes.len() > 1 {
        assert(listed(nodes, 1, nodes[1].path()));
    }
    assert(nodes.drop_last() =~= Seq::<Node>::empty());
    assert(nodes.last() == nodes[0] && nodes[0].path() == root);
    assert(file_paths(nodes.drop_last()) =~= Seq::<PathView>::empty());
    assert(directory_sizes(nodes.drop_last(), nodes) =~= Seq::<(nat, PathView)>::empty());
    assert(file_paths(nodes) =~= seq![root]);
    assert(directory_sizes(nodes, nodes) =~= Seq::<(nat, PathView)>::empty());
}

/// The entries of a scanned directory, each under its path, with the root
/// that the scan started from.
pub struct FileTree {
    pub(crate) root: TreePath,
    pub(crate) map: Vec<EntryNode>,
}

impl FileTree {
    /// The root of the tree.
    pub closed spec fn root(&self) -> PathView {
        self.root@
    }

    /// The entries of the tree, the root's first.
    pub closed spec fn nodes(&self) -> Seq<Node> {
        nodes_of(self.map@)
    }

    /// The tree of a root and its entries.
    pub(crate) fn assemble(root: TreePath, map: Vec<EntryNode>) -> (tree: FileTree)
        requires
            well_formed(root@, nodes_of(map@)),
        ensures
            tree.root() == root@,
            tree.nodes() == nodes_of(map@),
    {
        FileTree { root, map }
    }

    /// What the root and the entries are made of.
    pub(crate) proof fn lemma_view(&self)
        ensures
            self.nodes() == nodes_of(self.map@),
            self.root() == self.root@,
    {
    }

    /// What holds of every tree.
    #[verifier::type_invariant]
    pub open spec fn wf(&self) -> bool {
        well_formed(self.root(), self.nodes())
    }

    /// The tree that a walk of `disk` from `root` finds.
    ///
    /// The disk is given by its records, pairs of a path and what a look at
    /// that path found; a path without a record counts as `Missing`. The walk
    /// enters `root`, then every name of every directory that it enters. It
    /// succeeds where each path that it comes to makes an entry; otherwise it
    /// returns the reason why one of those paths makes none, and where the
    /// root itself makes none, that reason.
    pub fn new(root: &TreePath, disk: &Vec<(TreePath, Probe)>) -> (tree: Result<
        FileTree,
        TreeError,
    >)
        requires
            disk_bytes(disk@) <= u64::MAX,
        ensures
            tree matches Ok(t) ==> walk(disk@, Seq::empty(), seq![root@]) == Ok::<
                Seq<Node>,
                TreeError,
            >(t.nodes()),
            tree matches Err(error) ==> walk(disk@, Seq::empty(), seq![root@]) == Err::<
                Seq<Node>,
                TreeError,
            >(error),
            tree matches Ok(t) ==> t.wf() && t.root() == root@ && built_from(
                disk@,
                root@,
                t.nodes(),
            ),
            tree matches Err(error) ==> exists|p: PathView|
                #[trigger] reachable(disk@, root@, p) && classify(p, probe_at(disk@, p)) == Err::<
                    Node,
                    TreeError,
                >(error),
            classify(root@, probe_at(disk@, root@)) matches Err(error) ==> tree matches Err(e)
                && e == error,
            tree is Ok <==> forall|p: PathView| #[trigger]
                reachable(disk@, root@, p) ==> classify(p, probe_at(disk@, p)) is Ok,
    {
        let mut scan = Scan::start(root);
        proof {
            lemma_left_all(disk@);
            assert(root@.take(root@.len() as int) =~= root@);
        }
        loop
            invariant
                scan.inv(),
                scan.root() == root@,
                walking(disk@, root@, scan.nodes(), scan.pending()),
                walk(disk@, Seq::empty(), seq![root@]) == walk(
                    disk@,
                    scan.nodes(),
                    scan.pending(),
                ),
            ensures
                scan.inv(),
                scan.root() == root@,
                walking(disk@, root@, scan.nodes(), scan.pending()),
                walk(disk@, Seq::empty(), seq![root@]) == walk(
                    disk@,
                    scan.nodes(),
                    scan.pending(),
                ),
                scan.pending().len() == 0,
            decreases left(disk@, scan.nodes(), false), scan.pending().len(),
        {
            let ghost nodes = scan.nodes();
            let ghost waiting = scan.pending();
            let path = match scan.next_path() {
                None => {
                    proof {
                        assert(scan.pending() =~= waiting.take(0));
                        lemma_walk_skip(disk@, nodes, waiting, 0);
                    }
                    break ;
                },
                Some(path) => path,
            };
            let ghost pending = scan.pending();
            proof {
                assert(pending =~= waiting.take(pending.len() as int));
                lemma_walk_skip(disk@, nodes, waiting, pending.len() as int);
            }
            assert(reachable(disk@, root@, path@) && pending.last() == path@) by {
                assert(pending[pending.len() - 1] == path@);
            }
            assert(nodes.len() == 0 ==> path@ == root@);
            let done = match locate(disk, &path) {
                Some(at) => {
                    assert(in_disk(disk@, path@));
                    scan.visit_dir(&disk[at].1)
                },
                None => scan.visit_dir(&Probe::Missing),
            };
            match done {
                Err(error) => {
                    return Err(error);
                },
                Ok(_) => {},
            }
            proof {
                let probe = probe_at(disk@, path@);
                let node = classify(path@, probe)->Ok_0;
                assert(in_disk(disk@, path@));
                assert(scan.nodes() == nodes.push(node));
                lemma_left_step(disk@, nodes, node, true);
                lemma_left_step(disk@, nodes, node, false);
                lemma_total_push(nodes, node);
                assert forall|q: int| 0 <= q < scan.pending().len() implies reachable(
                    disk@,
                    root@,
                    #[trigger] scan.pending()[q],
                ) by {
                    if q < pending.len() - 1 {
                        assert(scan.pending()[q] == pending[q]);
                    } else {
                        let m = q - (pending.len() - 1);
                        assert(scan.pending()[q] == node.children()[m]);
                        let names = probe->Directory_names;
                        assert(crate::path::texts(names@)[m] == names@[m]@);
                        lemma_reachable_child(disk@, root@, path@, names@[m]@);
                    }
                }
            }
        }
        let ghost nodes = scan.nodes();
        proof {
            assert(scan.pending() =~= Seq::<PathView>::empty());
            assert forall|p: PathView| has_key(nodes, p) <==> #[trigger] reachable(
                disk@,
                root@,
                p,
            ) by {
                if reachable(disk@, root@, p) {
                    lemma_reachable_entered(disk@, root@, nodes, p);
                }
                if has_key(nodes, p) {
                    let i = choose|i: int| 0 <= i < nodes.len() && (#[trigger] nodes[i]).path() == p;
                    assert(reachable(disk@, root@, nodes[i].path()));
                }
            }
            assert forall|p: PathView| #[trigger] reachable(disk@, root@, p) implies classify(
                p,
                probe_at(disk@, p),
            ) is Ok by {
                let i = choose|i: int| 0 <= i < nodes.len() && (#[trigger] nodes[i]).path() == p;
                assert(classify(nodes[i].path(), probe_at(disk@, nodes[i].path())) is Ok);
            }
            assert(nodes[0].path() == root@);
        }
        match scan.finish() {
            Some(tree) => Ok(tree),
            None => {
                assert(false);
                Err(TreeError::InvalidPath)
            },
        }
    }

    /// The root that the tree was built from.
    pub fn get_root(&self) -> (root: &TreePath)
        ensures
            root@ == self.root(),
            has_key(self.nodes(), root@),
    {
        proof {
            use_type_invariant(self);
            assert(self.nodes()[0].path() == self.root());
        }
        &self.root
    }

    /// `Ok` where the tree has an entry under `path`, `InvalidPath` where it
    /// has none.
    pub fn is_valid_path(&self, path: &TreePath) -> (valid: Result<(), TreeError>)
        ensures
            valid is Ok <==> has_key(self.nodes(), path@),
            valid matches Err(error) ==> error == TreeError::InvalidPath,
    {
        match find(&self.map, path) {
            Some(at) => {
                assert(self.nodes()[at as int].path() == path@);
                Ok(())
            },
            None => Err(TreeError::InvalidPath),
        }
    }

    /// The children of the directory under `path`, in the order of its
    /// listing; `None` where `path` has no entry and where its entry is a
    /// file. Every child has an entry of its own.
    pub fn get_children(&self, path: &TreePath) -> (children: Option<&[TreePath]>)
        ensures
            match children {
                Some(list) => entry_of(self.nodes(), path@) == Some(
                    Node::Directory { path: path@, children: paths(list@) },
                ) && forall|k: int| 0 <= k < list@.len() ==> has_key(self.nodes(), #[trigger] list@[k]@),
                None => !(entry_of(self.nodes(), path@) matches Some(Node::Directory { .. })),
            },
    {
        proof {
            use_type_invariant(self);
        }
        match self.is_valid_path(path) {
            Ok(_) => match find(&self.map, path) {
                Some(at) => {
                    proof {
                        lemma_entry_of(self.nodes(), at as int);
                    }
                    match &self.map[at] {
                        EntryNode::Dossier { enfant, .. } => {
                            let list = enfant.as_slice();
                            assert forall|k: int| 0 <= k < list@.len() implies has_key(
                                self.nodes(),
                                #[trigger] list@[k]@,
                            ) by {
                                let child = self.nodes()[at as int].children()[k];
                                assert(child == list@[k]@);
                                assert(!Seq::<PathView>::empty().contains(child));
                            }
                            Some(list)
                        },
                        EntryNode::Fichier { .. } => None,
                    }
                },
                None => None,
            },
            Err(_) => None,
        }
    }

    /// The bytes of the files that are `path` or lie under it; `None` where
    /// `path` has no entry.
    pub fn get_size(&self, path: &TreePath) -> (size: Option<Size>)
        ensures
            match size {
                Some(bytes) => has_key(self.nodes(), path@) && bytes@ == aggregate(
                    self.nodes(),
                    path@,
                ),
                None => !has_key(self.nodes(), path@),
            },
    {
        proof {
            use_type_invariant(self);
        }
        match self.is_valid_path(path) {
            Ok(_) => {
                let mut size = Size::new(0);
                let mut i: usize = 0;
                while i < self.map.len()
                    invariant
                        i <= self.map.len(),
                        size@ == aggregate(self.nodes().take(i as int), path@),
                        total_bytes(self.nodes()) <= u64::MAX,
                    decreases self.map.len() - i,
                {
                    proof {
                        let head = self.nodes().take(i + 1);
                        assert(head.drop_last() =~= self.nodes().take(i as int));
                        assert(head.last() == self.map@[i as int]@);
                        lemma_aggregate_bound(head, path@);
                        lemma_total_take(self.nodes(), i + 1);
                    }
                    if self.map[i].path().starts_with(path) {
                        match &self.map[i] {
                            EntryNode::Dossier { .. } => {},
                            EntryNode::Fichier { taille, .. } => {
                                size = size + *taille;
                            },
                        }
                    }
                    i += 1;
                }
                assert(self.nodes().take(i as int) =~= self.nodes());
                Some(size)
            },
            Err(_) => None,
        }
    }

    /// The paths of the files of the tree, in the order of its entries.
    pub fn files(&self) -> (files: Vec<TreePath>)
        ensures
            paths(files@) == file_paths(self.nodes()),
    {
        let mut files: Vec<TreePath> = Vec::new();
        let mut i: usize = 0;
        while i < self.map.len()
            invariant
                i <= self.map.len(),
                paths(files@) == file_paths(self.nodes().take(i as int)),
            decreases self.map.len() - i,
        {
            proof {
                let head = self.nodes().take(i + 1);
                assert(head.drop_last() =~= self.nodes().take(i as int));
                assert(head.last() == self.map@[i as int]@);
            }
            let ghost before = paths(files@);
            match &self.map[i] {
                EntryNode::Dossier { .. } => {},
                EntryNode::Fichier { nom, .. } => {
                    files.push(nom.clone());
                    assert(paths(files@) =~= before.push(nom@));
                },
            }
            i += 1;
        }
        assert(self.nodes().take(i as int) =~= self.nodes());
        files
    }

    /// The directories of the tree, in the order of its entries, each with
    /// the bytes of the files under it.
    pub fn directory(&self) -> (directories: Vec<(Size, TreePath)>)
        ensures
            sized_paths(directories@) == directory_sizes(self.nodes(), self.nodes()),
    {
        let mut directories: Vec<(Size, TreePath)> = Vec::new();
        let mut i: usize = 0;
        while i < self.map.len()
            invariant
                i <= self.map.len(),
                sized_paths(directories@) == directory_sizes(
                    self.nodes().take(i as int),
                    self.nodes(),
                ),
            decreases self.map.len() - i,
        {
            proof {
                let head = self.nodes().take(i + 1);
                assert(head.drop_last() =~= self.nodes().take(i as int));
                assert(head.last() == self.map@[i as int]@);
            }
            let ghost before = sized_paths(directories@);
            match &self.map[i] {
                EntryNode::Dossier { nom, .. } => {
                    assert(self.nodes()[i as int].path() == nom@);
                    match self.get_size(nom) {
                        Some(taille) => {
                            directories.push((taille, nom.clone()));
                            assert(sized_paths(directories@) =~= before.push((taille@, nom@)));
                        },
                        None => {
                            assert(false);
                        },
                    }
                },
                EntryNode::Fichier { .. } => {},
            }
            i += 1;
        }
        assert(self.nodes().take(i as int) =~= self.nodes());
        directories
    }
}

} // verus!

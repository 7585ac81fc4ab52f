//! Reports of a tree: one line for each entry, children below their
//! directory and one tab further in, ordered by size or by path, and
//! narrowed to the files of one extension where a filter is given.

use crate::file_tree::{aggregate, child_of, entry_of, has_key, well_formed, FileTree, Node};
use crate::path::{joined, matches_filter, text_chars, texts, PathView, TreePath};
use crate::size::{size_text, Size};
use vstd::prelude::*;
use vstd::string::*;

verus! {

/// How the children of a directory follow each other in a report.
#[derive(PartialEq, Eq, Clone, Copy, Debug, Structural)]
pub enum Order {
    /// The child that holds more bytes first; children that hold the same
    /// stay in the order of the listing.
    SizeDescending,
    /// By the text of the path, ascending.
    Lexicographic,
}

/// `depth` tab characters.
pub open spec fn tabs(depth: nat) -> Seq<char> {
    Seq::new(depth, |i: int| '\t')
}

/// The line of an entry: one tab for each level below the root, the text of
/// its size, a tab, the text of its path.
pub open spec fn line(depth: nat, bytes: nat, path: PathView) -> Seq<char> {
    tabs(depth) + size_text(bytes) + seq!['\t'] + joined(path)
}

/// The order of texts: at the first place where two texts differ, the one
/// with the lower character is lower; a text is lower than each of its
/// proper continuations.
pub open spec fn text_lt(a: Seq<char>, b: Seq<char>) -> bool
    decreases a.len(),
{
    if b.len() == 0 {
        false
    } else if a.len() == 0 {
        true
    } else if a[0] != b[0] {
        (a[0] as u32) < (b[0] as u32)
    } else {
        text_lt(a.skip(1), b.skip(1))
    }
}

/// Whether a child, given by its bytes and its path, has to stand before
/// another.
pub open spec fn goes_before(order: Order, a: (nat, PathView), b: (nat, PathView)) -> bool {
    match order {
        Order::SizeDescending => a.0 > b.0,
        Order::Lexicographic => text_lt(joined(a.1), joined(b.1)),
    }
}

/// An ordered list with one more child: the child stands behind the last one
/// that it does not have to stand before.
pub open spec fn insert_sorted(order: Order, done: Seq<(nat, PathView)>, item: (nat, PathView)) -> Seq<
    (nat, PathView),
>
    decreases done.len(),
{
    if done.len() == 0 {
        seq![item]
    } else if goes_before(order, item, done.last()) {
        insert_sorted(order, done.drop_last(), item).push(done.last())
    } else {
        done.push(item)
    }
}

/// The children in the order of a report.
pub open spec fn sorted(order: Order, items: Seq<(nat, PathView)>) -> Seq<(nat, PathView)>
    decreases items.len(),
{
    if items.len() == 0 {
        Seq::empty()
    } else {
        insert_sorted(order, sorted(order, items.drop_last()), items.last())
    }
}

/// Whether no child of a list has to stand before an earlier one.
pub open spec fn ordered(order: Order, items: Seq<(nat, PathView)>) -> bool {
    forall|i: int, j: int|
        0 <= i < j < items.len() ==> !goes_before(order, #[trigger] items[j], #[trigger] items[i])
}

/// The children that the entry under a path lists; none where the path has no
/// entry or its entry is a file.
pub open spec fn kids_of(nodes: Seq<Node>, path: PathView) -> Seq<PathView> {
    match entry_of(nodes, path) {
        Some(Node::Directory { children, .. }) => children,
        _ => Seq::empty(),
    }
}

/// Each path with the bytes of the files under it.
pub open spec fn items(nodes: Seq<Node>, list: Seq<PathView>) -> Seq<(nat, PathView)> {
    Seq::new(list.len(), |k: int| (aggregate(nodes, list[k]), list[k]))
}

/// Whether an entry counts for a filter: whether it is a file with the
/// filter's extension that is `path` or lies under it.
pub open spec fn counts(node: Node, filter: Seq<char>, path: PathView) -> bool {
    node is File && path.is_prefix_of(node.path()) && matches_filter(node.path(), filter)
}

/// Whether a report shows the entry under `path`: always without a filter;
/// with one, where a file with the filter's extension is `path` or lies
/// under it.
pub open spec fn shown(nodes: Seq<Node>, filter: Option<Seq<char>>, path: PathView) -> bool {
    match filter {
        None => true,
        Some(wanted) => exists|i: int|
            0 <= i < nodes.len() && counts(#[trigger] nodes[i], wanted, path),
    }
}

/// The lines of an entry and of all that lies under it, down to `levels`
/// levels below it: nothing where the entry is not shown; otherwise its own
/// line, then the lines of its children in the order of the report, one
/// level further in.
pub open spec fn subtree_lines(
    nodes: Seq<Node>,
    order: Order,
    filter: Option<Seq<char>>,
    path: PathView,
    depth: nat,
    levels: nat,
) -> Seq<Seq<char>>
    decreases levels, 0nat,
{
    if !shown(nodes, filter, path) {
        Seq::empty()
    } else if levels == 0 {
        seq![line(depth, aggregate(nodes, path), path)]
    } else {
        seq![line(depth, aggregate(nodes, path), path)] + list_lines(
            nodes,
            order,
            filter,
            sorted(order, items(nodes, kids_of(nodes, path))),
            depth + 1,
            (levels - 1) as nat,
        )
    }
}

/// The lines of a list of entries, one subtree after the other.
pub open spec fn list_lines(
    nodes: Seq<Node>,
    order: Order,
    filter: Option<Seq<char>>,
    list: Seq<(nat, PathView)>,
    depth: nat,
    levels: nat,
) -> Seq<Seq<char>>
    decreases levels, list.len() + 1,
{
    if list.len() == 0 {
        Seq::empty()
    } else {
        list_lines(nodes, order, filter, list.drop_last(), depth, levels) + subtree_lines(
            nodes,
            order,
            filter,
            list.last().1,
            depth,
            levels,
        )
    }
}

/// The greatest number of segments that the path of an entry has.
pub open spec fn deepest(nodes: Seq<Node>) -> nat
    decreases nodes.len(),
{
    if nodes.len() == 0 {
        0
    } else if nodes.last().path().len() > deepest(nodes.drop_last()) {
        nodes.last().path().len()
    } else {
        deepest(nodes.drop_last())
    }
}

/// The report of a tree: the lines of the root and of all that lies under it,
/// the root's line without a tab.
pub open spec fn report(
    nodes: Seq<Node>,
    root: PathView,
    order: Order,
    filter: Option<Seq<char>>,
) -> Seq<Seq<char>> {
    subtree_lines(nodes, order, filter, root, 0, (deepest(nodes) - root.len()) as nat)
}

/// The filter that contracts speak of.
pub open spec fn filter_view(filter: Option<&str>) -> Option<Seq<char>> {
    match filter {
        Some(wanted) => Some(wanted@),
        None => None,
    }
}

/// Whether one text is lower than another in the order of texts.
fn text_before(a: &Vec<char>, b: &Vec<char>) -> (lower: bool)
    ensures
        lower == text_lt(a@, b@),
{
    let mut i: usize = 0;
    assert(a@.skip(0) =~= a@ && b@.skip(0) =~= b@);
    while i < a.len() && i < b.len()
        invariant
            i <= a.len(),
            i <= b.len(),
            text_lt(a@, b@) == text_lt(a@.skip(i as int), b@.skip(i as int)),
        decreases a.len() - i,
    {
        if a[i] != b[i] {
            return (a[i] as u32) < (b[i] as u32);
        }
        assert(a@.skip(i as int).skip(1) =~= a@.skip(i + 1));
        assert(b@.skip(i as int).skip(1) =~= b@.skip(i + 1));
        i += 1;
    }
    i < b.len()
}

/// A child of a directory on its way into a report: its path, the bytes under
/// it, and the characters of the path's text.
struct Child {
    size: Size,
    text: Vec<char>,
    path: TreePath,
}

impl Child {
    spec fn item(&self) -> (nat, PathView) {
        (self.size@, self.path@)
    }

    spec fn inv(&self) -> bool {
        self.text@ == joined(self.path@)
    }

    fn before(&self, order: Order, other: &Child) -> (first: bool)
        requires
            self.inv(),
            other.inv(),
        ensures
            first == goes_before(order, self.item(), other.item()),
    {
        match order {
            Order::SizeDescending => self.size > other.size,
            Order::Lexicographic => text_before(&self.text, &other.text),
        }
    }
}

spec fn child_items(list: Seq<Child>) -> Seq<(nat, PathView)> {
    Seq::new(list.len(), |k: int| list[k].item())
}

fn line_of(ecart: usize, size: Size, path: &TreePath) -> (text: String)
    ensures
        text@ == line(ecart as nat, size@, path@),
{
    let mut text = String::new();
    let mut i: usize = 0;
    while i < ecart
        invariant
            i <= ecart,
            text@ == tabs(i as nat),
        decreases ecart - i,
    {
        text.append("\t");
        i += 1;
        proof {
            reveal_strlit("\t");
            assert(text@ =~= tabs(i as nat));
        }
    }
    text.append(size.format().as_str());
    text.append("\t");
    text.append(path.display().as_str());
    proof {
        reveal_strlit("\t");
        assert(text@ =~= line(ecart as nat, size@, path@));
    }
    text
}

impl FileTree {
    /// The report with the larger children first.
    pub fn show(&self) -> (lines: Vec<String>)
        ensures
            texts(lines@) == report(self.nodes(), self.root(), Order::SizeDescending, None),
    {
        self.render(Order::SizeDescending, None)
    }

    /// The report with the children in the order of their paths.
    pub fn show_lexicographic(&self) -> (lines: Vec<String>)
        ensures
            texts(lines@) == report(self.nodes(), self.root(), Order::Lexicographic, None),
    {
        self.render(Order::Lexicographic, None)
    }

    /// The report of the files with the extension that `filter` names, dot
    /// included, and of the directories that hold such files, with the larger
    /// children first. Where no file has the extension, the report is empty.
    pub fn show_filter(&self, filter: &str) -> (lines: Vec<String>)
        ensures
            texts(lines@) == report(
                self.nodes(),
                self.root(),
                Order::SizeDescending,
                Some(filter@),
            ),
    {
        self.render(Order::SizeDescending, Some(filter))
    }

    /// The report of the files with the extension that `filter` names, dot
    /// included, and of the directories that hold such files, with the
    /// children in the order of their paths. Where no file has the extension,
    /// the report is empty.
    pub fn show_filter_lexicographic(&self, filter: &str) -> (lines: Vec<String>)
        ensures
            texts(lines@) == report(
                self.nodes(),
                self.root(),
                Order::Lexicographic,
                Some(filter@),
            ),
    {
        self.render(Order::Lexicographic, Some(filter))
    }

    /// The report in the given order, of all entries or of those that a
    /// filter keeps.
    fn render(&self, order: Order, filter: Option<&str>) -> (lines: Vec<String>)
        ensures
            texts(lines@) == report(self.nodes(), self.root(), order, filter_view(filter)),
    {
        let mut lines: Vec<String> = Vec::new();
        let mut deepest_path: usize = 0;
        let mut i: usize = 0;
        proof {
            self.lemma_view();
        }
        while i < self.map.len()
            invariant
                i <= self.map.len(),
                self.nodes() == crate::file_tree::nodes_of(self.map@),
                deepest_path == deepest(self.nodes().take(i as int)),
            decreases self.map.len() - i,
        {
            assert(self.nodes().take(i + 1).drop_last() =~= self.nodes().take(i as int));
            let n = self.map[i].path().len();
            if n > deepest_path {
                deepest_path = n;
            }
            i += 1;
        }
        proof {
            use_type_invariant(self);
            assert(self.nodes().take(i as int) =~= self.nodes());
            assert(self.nodes()[0].path() == self.root());
            lemma_deepest(self.nodes(), 0);
            assert(texts(lines@) =~= Seq::<Seq<char>>::empty());
        }
        let levels = deepest_path - self.root.len();
        self.afficher(order, filter, &self.root, 0, levels, &mut lines);
        lines
    }

    /// Whether a report shows the entry under `path`.
    fn retained(&self, filter: Option<&str>, path: &TreePath) -> (kept: bool)
        ensures
            kept == shown(self.nodes(), filter_view(filter), path@),
    {
        match filter {
            None => true,
            Some(wanted) => {
                let mut i: usize = 0;
                proof {
                    self.lemma_view();
                }
                while i < self.map.len()
                    invariant
                        i <= self.map.len(),
                        filter == Some(wanted),
                        self.nodes() == crate::file_tree::nodes_of(self.map@),
                        forall|j: int|
                            0 <= j < i ==> !counts(#[trigger] self.nodes()[j], wanted@, path@),
                    decreases self.map.len() - i,
                {
                    match &self.map[i] {
                        crate::file_tree::EntryNode::Fichier { nom, .. } => {
                            if nom.starts_with(path) && nom.has_extension(wanted) {
                                assert(self.nodes()[i as int] == self.map@[i as int]@);
                                assert(counts(self.nodes()[i as int], wanted@, path@));
                                return true;
                            }
                        },
                        _ => {},
                    }
                    i += 1;
                }
                false
            },
        }
    }

    /// The children in `list` in the order of a report, each with the bytes
    /// under it.
    fn sorted_children(&self, order: Order, list: &[TreePath]) -> (out: Vec<Child>)
        requires
            forall|k: int| 0 <= k < list@.len() ==> has_key(self.nodes(), #[trigger] list@[k]@),
        ensures
            child_items(out@) == sorted(order, items(self.nodes(), crate::file_tree::paths(list@))),
            forall|k: int| 0 <= k < out@.len() ==> (#[trigger] out@[k]).inv(),
    {
        let ghost all = items(self.nodes(), crate::file_tree::paths(list@));
        let mut out: Vec<Child> = Vec::new();
        let mut k: usize = 0;
        assert(child_items(out@) =~= sorted(order, all.take(0)));
        while k < list.len()
            invariant
                k <= list.len(),
                all == items(self.nodes(), crate::file_tree::paths(list@)),
                forall|m: int| 0 <= m < list@.len() ==> has_key(self.nodes(), #[trigger] list@[m]@),
                child_items(out@) == sorted(order, all.take(k as int)),
                forall|m: int| 0 <= m < out@.len() ==> (#[trigger] out@[m]).inv(),
            decreases list.len() - k,
        {
            assert(has_key(self.nodes(), list@[k as int]@));
            let size = match self.get_size(&list[k]) {
                Some(size) => size,
                None => {
                    assert(false);
                    Size::new(0)
                },
            };
            let child = Child {
                size,
                text: text_chars(list[k].display().as_str()),
                path: list[k].clone(),
            };
            let ghost done = child_items(out@);
            let ghost item = child.item();
            assert(all.take(k + 1).drop_last() =~= all.take(k as int));
            assert(all.take(k + 1).last() == item);
            let mut at: usize = out.len();
            assert(done.take(at as int) =~= done && done.skip(at as int) =~= Seq::empty());
            while at > 0 && child.before(order, &out[at - 1])
                invariant
                    at <= out.len(),
                    done == child_items(out@),
                    item == child.item(),
                    child.inv(),
                    forall|m: int| 0 <= m < out@.len() ==> (#[trigger] out@[m]).inv(),
                    insert_sorted(order, done, item) == insert_sorted(
                        order,
                        done.take(at as int),
                        item,
                    ) + done.skip(at as int),
                decreases at,
            {
                assert(done.take(at as int).drop_last() =~= done.take(at - 1));
                assert(done.take(at as int).last() == out@[at - 1].item());
                assert(insert_sorted(order, done.take(at - 1), item).push(done[at - 1]) + done.skip(
                    at as int,
                ) =~= insert_sorted(order, done.take(at - 1), item) + done.skip(at - 1));
                at -= 1;
            }
            proof {
                if at > 0 {
                    assert(done.take(at as int).last() == out@[at - 1].item());
                }
                assert(insert_sorted(order, done.take(at as int), item) =~= done.take(
                    at as int,
                ).push(item));
                assert(done.take(at as int).push(item) + done.skip(at as int) =~= done.insert(
                    at as int,
                    item,
                ));
            }
            out.insert(at, child);
            assert(child_items(out@) =~= done.insert(at as int, item));
            k += 1;
        }
        assert(all.take(k as int) =~= all);
        out
    }

    /// Adds the lines of the entry under `path` and of all that lies under
    /// it, `ecart` tabs in.
    fn afficher(
        &self,
        order: Order,
        filter: Option<&str>,
        path: &TreePath,
        ecart: usize,
        levels: usize,
        lines: &mut Vec<String>,
    )
        requires
            has_key(self.nodes(), path@),
            ecart + levels <= usize::MAX,
        ensures
            texts(final(lines)@) == texts(old(lines)@) + subtree_lines(
                self.nodes(),
                order,
                filter_view(filter),
                path@,
                ecart as nat,
                levels as nat,
            ),
        decreases levels,
    {
        let ghost before = texts(lines@);
        if !self.retained(filter, path) {
            assert(texts(lines@) =~= before + Seq::<Seq<char>>::empty());
            return ;
        }
        let size = match self.get_size(path) {
            Some(size) => size,
            None => {
                assert(false);
                Size::new(0)
            },
        };
        lines.push(line_of(ecart, size, path));
        let ghost own = seq![line(ecart as nat, aggregate(self.nodes(), path@), path@)];
        assert(texts(lines@) =~= before + own);
        if levels == 0 {
            return ;
        }
        let ghost wanted = sorted(order, items(self.nodes(), kids_of(self.nodes(), path@)));
        match self.get_children(path) {
            None => {
                assert(wanted =~= Seq::empty());
            },
            Some(list) => {
                let children = self.sorted_children(order, list);
                assert(child_items(children@) == wanted);
                let mut k: usize = 0;
                assert(wanted.take(0) =~= Seq::empty());
                while k < children.len()
                    invariant
                        k <= children.len(),
                        child_items(children@) == wanted,
                        levels > 0,
                        ecart + levels <= usize::MAX,
                        forall|m: int|
                            0 <= m < list@.len() ==> has_key(self.nodes(), #[trigger] list@[m]@),
                        wanted == sorted(order, items(self.nodes(), crate::file_tree::paths(list@))),
                        texts(lines@) == before + own + list_lines(
                            self.nodes(),
                            order,
                            filter_view(filter),
                            wanted.take(k as int),
                            (ecart + 1) as nat,
                            (levels - 1) as nat,
                        ),
                    decreases children.len() - k,
                {
                    proof {
                        assert(wanted.take(k + 1).drop_last() =~= wanted.take(k as int));
                        assert(wanted.take(k + 1).last() == children@[k as int].item());
                        lemma_sorted_members(
                            order,
                            items(self.nodes(), crate::file_tree::paths(list@)),
                            k as int,
                        );
                        let m = choose|m: int|
                            0 <= m < list@.len() && items(
                                self.nodes(),
                                crate::file_tree::paths(list@),
                            )[m] == wanted[k as int];
                        assert(list@[m]@ == children@[k as int].path@);
                    }
                    self.afficher(order, filter, &children[k].path, ecart + 1, levels - 1, lines);
                    k += 1;
                    assert(texts(lines@) =~= before + own + list_lines(
                        self.nodes(),
                        order,
                        filter_view(filter),
                        wanted.take(k as int),
                        (ecart + 1) as nat,
                        (levels - 1) as nat,
                    ));
                }
                assert(wanted.take(k as int) =~= wanted);
            },
        }
        assert(texts(lines@) =~= before + (own + list_lines(
            self.nodes(),
            order,
            filter_view(filter),
            wanted,
            (ecart + 1) as nat,
            (levels - 1) as nat,
        )));
    }
}

/// Whether a text is the line of an entry that a report shows, at some
/// depth.
pub open spec fn line_of_shown(nodes: Seq<Node>, filter: Option<Seq<char>>, text: Seq<char>) -> bool {
    exists|depth: nat, path: PathView|
        shown(nodes, filter, path) && text == #[trigger] line(depth, aggregate(nodes, path), path)
}

/// A report holds no other lines than those of entries that it shows: with
/// a filter, each line is the line of a file with the filter's extension or
/// of a path under which such a file lies.
pub proof fn lemma_report_shows(
    nodes: Seq<Node>,
    order: Order,
    filter: Option<Seq<char>>,
    path: PathView,
    depth: nat,
    levels: nat,
)
    ensures
        forall|k: int|
            0 <= k < subtree_lines(nodes, order, filter, path, depth, levels).len()
                ==> line_of_shown(
                nodes,
                filter,
                #[trigger] subtree_lines(nodes, order, filter, path, depth, levels)[k],
            ),
    decreases levels, 0nat,
{
    let lines = subtree_lines(nodes, order, filter, path, depth, levels);
    if shown(nodes, filter, path) {
        if levels > 0 {
            let list = sorted(order, items(nodes, kids_of(nodes, path)));
            lemma_list_shows(nodes, order, filter, list, depth + 1, (levels - 1) as nat);
            let below = list_lines(nodes, order, filter, list, depth + 1, (levels - 1) as nat);
            assert forall|k: int| 0 <= k < lines.len() implies line_of_shown(
                nodes,
                filter,
                #[trigger] lines[k],
            ) by {
                if k > 0 {
                    assert(lines[k] == below[k - 1]);
                }
            }
        }
    }
}

/// The lines of a list of entries are lines of entries that a report shows.
proof fn lemma_list_shows(
    nodes: Seq<Node>,
    order: Order,
    filter: Option<Seq<char>>,
    list: Seq<(nat, PathView)>,
    depth: nat,
    levels: nat,
)
    ensures
        forall|k: int|
            0 <= k < list_lines(nodes, order, filter, list, depth, levels).len() ==> line_of_shown(
                nodes,
                filter,
                #[trigger] list_lines(nodes, order, filter, list, depth, levels)[k],
            ),
    decreases levels, list.len() + 1,
{
    if list.len() > 0 {
        lemma_list_shows(nodes, order, filter, list.drop_last(), depth, levels);
        lemma_report_shows(nodes, order, filter, list.last().1, depth, levels);
        let lines = list_lines(nodes, order, filter, list, depth, levels);
        let before = list_lines(nodes, order, filter, list.drop_last(), depth, levels);
        let last = subtree_lines(nodes, order, filter, list.last().1, depth, levels);
        assert forall|k: int| 0 <= k < lines.len() implies line_of_shown(
            nodes,
            filter,
            #[trigger] lines[k],
        ) by {
            if k < before.len() {
                assert(lines[k] == before[k]);
            } else {
                assert(lines[k] == last[k - before.len()]);
            }
        }
    }
}

/// The report without a filter leaves no entry out: each entry of a tree
/// has its line in it, with one tab for each step from the root down to
/// the entry.
pub proof fn lemma_every_entry_has_its_line(root: PathView, nodes: Seq<Node>, order: Order, i: int)
    requires
        well_formed(root, nodes),
        0 <= i < nodes.len(),
    ensures
        root.len() <= nodes[i].path().len(),
        report(nodes, root, order, None).contains(
            line(
                (nodes[i].path().len() - root.len()) as nat,
                aggregate(nodes, nodes[i].path()),
                nodes[i].path(),
            ),
        ),
{
    let path = nodes[i].path();
    crate::file_tree::lemma_under_root(root, nodes, i);
    lemma_deepest(nodes, i);
    let depth = (path.len() - root.len()) as nat;
    let levels = (deepest(nodes) - root.len()) as nat;
    let own = line(depth, aggregate(nodes, path), path);
    let lines = subtree_lines(nodes, order, None, path, depth, (levels - depth) as nat);
    assert(lines[0] == own);
    assert(nodes[0].path() == root);
    lemma_subtree_holds(root, nodes, order, 0, i, 0, levels, own);
}

/// The lines of an entry are among the lines of each entry that it lies
/// under.
proof fn lemma_subtree_holds(
    root: PathView,
    nodes: Seq<Node>,
    order: Order,
    a: int,
    b: int,
    depth: nat,
    levels: nat,
    text: Seq<char>,
)
    requires
        well_formed(root, nodes),
        0 <= a < nodes.len(),
        0 <= b < nodes.len(),
        nodes[a].path().is_prefix_of(nodes[b].path()),
        levels >= nodes[b].path().len() - nodes[a].path().len(),
        subtree_lines(
            nodes,
            order,
            None,
            nodes[b].path(),
            (depth + nodes[b].path().len() - nodes[a].path().len()) as nat,
            (levels - (nodes[b].path().len() - nodes[a].path().len())) as nat,
        ).contains(text),
    ensures
        subtree_lines(nodes, order, None, nodes[a].path(), depth, levels).contains(text),
    decreases nodes[b].path().len(),
{
    let base = nodes[a].path();
    let path = nodes[b].path();
    if path.len() == base.len() {
        assert(base =~= path) by {
            assert(path.subrange(0, path.len() as int) =~= path);
        }
    } else {
        crate::file_tree::lemma_under_root(root, nodes, a);
        if b == 0 {
            assert(path == root);
        } else {
            assert(crate::file_tree::listed(nodes, b, path));
            let j = choose|j: int|
                0 <= j < b && j < nodes.len() && (#[trigger] nodes[j]).children().contains(path);
            let k = choose|k: int|
                0 <= k < nodes[j].children().len() && nodes[j].children()[k] == path;
            assert(child_of(nodes[j].children()[k], nodes[j].path()));
            let parent = nodes[j].path();
            assert(parent =~= path.drop_last());
            assert(base =~= parent.subrange(0, base.len() as int)) by {
                assert(base =~= path.subrange(0, base.len() as int));
            }
            let above = (depth + parent.len() - base.len()) as nat;
            let left = (levels - (parent.len() - base.len())) as nat;
            lemma_child_holds(root, nodes, order, j, k, above, (left - 1) as nat, text);
            lemma_subtree_holds(root, nodes, order, a, j, depth, levels, text);
        }
    }
}

/// The lines of a child are among the lines of the directory that lists it.
proof fn lemma_child_holds(
    root: PathView,
    nodes: Seq<Node>,
    order: Order,
    j: int,
    k: int,
    depth: nat,
    levels: nat,
    text: Seq<char>,
)
    requires
        well_formed(root, nodes),
        0 <= j < nodes.len(),
        0 <= k < nodes[j].children().len(),
        subtree_lines(nodes, order, None, nodes[j].children()[k], depth + 1, levels).contains(text),
    ensures
        subtree_lines(nodes, order, None, nodes[j].path(), depth, levels + 1).contains(text),
{
    broadcast use vstd::seq_lib::group_to_multiset_ensures;

    let parent = nodes[j].path();
    let child = nodes[j].children()[k];
    crate::file_tree::lemma_entry_of(nodes, j);
    let kids = kids_of(nodes, parent);
    assert(kids == nodes[j].children());
    let all = items(nodes, kids);
    let list = sorted(order, all);
    lemma_sorted(order, all);
    assert(all[k] == (aggregate(nodes, child), child));
    assert(all.to_multiset().count(all[k]) > 0);
    assert(list.contains(all[k]));
    let m = choose|m: int| 0 <= m < list.len() && list[m] == all[k];
    lemma_list_holds(nodes, order, list, m, depth + 1, levels, text);
    let below = list_lines(nodes, order, None, list, depth + 1, levels);
    let at = choose|at: int| 0 <= at < below.len() && below[at] == text;
    let lines = subtree_lines(nodes, order, None, parent, depth, levels + 1);
    assert(lines[at + 1] == text);
}

/// The lines of an entry of a list are among the lines of the list.
proof fn lemma_list_holds(
    nodes: Seq<Node>,
    order: Order,
    list: Seq<(nat, PathView)>,
    m: int,
    depth: nat,
    levels: nat,
    text: Seq<char>,
)
    requires
        0 <= m < list.len(),
        subtree_lines(nodes, order, None, list[m].1, depth, levels).contains(text),
    ensures
        list_lines(nodes, order, None, list, depth, levels).contains(text),
    decreases list.len(),
{
    let before = list_lines(nodes, order, None, list.drop_last(), depth, levels);
    let last = subtree_lines(nodes, order, None, list.last().1, depth, levels);
    let lines = list_lines(nodes, order, None, list, depth, levels);
    if m == list.len() - 1 {
        let at = choose|at: int| 0 <= at < last.len() && last[at] == text;
        assert(lines[before.len() + at] == text);
    } else {
        assert(list.drop_last()[m] == list[m]);
        lemma_list_holds(nodes, order, list.drop_last(), m, depth, levels, text);
        let at = choose|at: int| 0 <= at < before.len() && before[at] == text;
        assert(lines[at] == text);
    }
}

/// Where no file has the filter's extension, the report is empty.
pub proof fn lemma_no_match_no_line(
    nodes: Seq<Node>,
    root: PathView,
    order: Order,
    filter: Seq<char>,
)
    requires
        forall|i: int|
            0 <= i < nodes.len() && (#[trigger] nodes[i]) is File ==> !matches_filter(
                nodes[i].path(),
                filter,
            ),
    ensures
        report(nodes, root, order, Some(filter)) == Seq::<Seq<char>>::empty(),
{
}

/// The levels of a report reach every entry: in a tree, a directory that
/// lists a child does not lie deepest.
pub proof fn lemma_levels_suffice(root: PathView, nodes: Seq<Node>, i: int)
    requires
        well_formed(root, nodes),
        0 <= i < nodes.len(),
        nodes[i].children().len() > 0,
    ensures
        nodes[i].path().len() < deepest(nodes),
{
    let child = nodes[i].children()[0];
    assert(child_of(child, nodes[i].path()));
    assert(!Seq::<PathView>::empty().contains(child));
    let w = choose|w: int| 0 <= w < nodes.len() && (#[trigger] nodes[w]).path() == child;
    lemma_deepest(nodes, w);
}

/// More levels than the depth of a tree add nothing to its report: where
/// the levels reach from an entry down to the deepest entry, one more level
/// gives the same lines.
pub proof fn lemma_more_levels(
    root: PathView,
    nodes: Seq<Node>,
    order: Order,
    filter: Option<Seq<char>>,
    i: int,
    depth: nat,
    levels: nat,
)
    requires
        well_formed(root, nodes),
        0 <= i < nodes.len(),
        nodes[i].path().len() + levels >= deepest(nodes),
    ensures
        subtree_lines(nodes, order, filter, nodes[i].path(), depth, levels) == subtree_lines(
            nodes,
            order,
            filter,
            nodes[i].path(),
            depth,
            levels + 1,
        ),
    decreases levels, 0nat,
{
    let path = nodes[i].path();
    crate::file_tree::lemma_entry_of(nodes, i);
    let kids = kids_of(nodes, path);
    assert(kids == nodes[i].children());
    let list = sorted(order, items(nodes, kids));
    if kids.len() > 0 {
        lemma_levels_suffice(root, nodes, i);
    }
    if shown(nodes, filter, path) {
        if levels == 0 {
            assert(items(nodes, kids) =~= Seq::<(nat, PathView)>::empty());
            assert(list_lines(nodes, order, filter, list, depth + 1, 0) =~= Seq::<
                Seq<char>,
            >::empty());
            assert(subtree_lines(nodes, order, filter, path, depth, levels) =~= subtree_lines(
                nodes,
                order,
                filter,
                path,
                depth,
                levels + 1,
            ));
        } else {
            assert forall|m: int| 0 <= m < list.len() implies has_key(
                nodes,
                (#[trigger] list[m]).1,
            ) && list[m].1.len() + (levels - 1) >= deepest(nodes) by {
                lemma_sorted_members(order, items(nodes, kids), m);
                let k = choose|k: int| 0 <= k < kids.len() && items(nodes, kids)[k] == list[m];
                let child = nodes[i].children()[k];
                assert(child_of(child, path));
                assert(!Seq::<PathView>::empty().contains(child));
            }
            lemma_more_levels_list(root, nodes, order, filter, list, depth + 1, (levels - 1) as nat);
        }
    }
}

proof fn lemma_more_levels_list(
    root: PathView,
    nodes: Seq<Node>,
    order: Order,
    filter: Option<Seq<char>>,
    list: Seq<(nat, PathView)>,
    depth: nat,
    levels: nat,
)
    requires
        well_formed(root, nodes),
        forall|m: int|
            0 <= m < list.len() ==> has_key(nodes, (#[trigger] list[m]).1) && list[m].1.len()
                + levels >= deepest(nodes),
    ensures
        list_lines(nodes, order, filter, list, depth, levels) == list_lines(
            nodes,
            order,
            filter,
            list,
            depth,
            levels + 1,
        ),
    decreases levels, list.len() + 1,
{
    if list.len() > 0 {
        let rest = list.drop_last();
        assert forall|m: int| 0 <= m < rest.len() implies has_key(nodes, (#[trigger] rest[m]).1)
            && rest[m].1.len() + levels >= deepest(nodes) by {
            assert(rest[m] == list[m]);
        }
        lemma_more_levels_list(root, nodes, order, filter, rest, depth, levels);
        let last = list[list.len() - 1];
        assert(has_key(nodes, last.1));
        let w = choose|w: int| 0 <= w < nodes.len() && (#[trigger] nodes[w]).path() == last.1;
        lemma_more_levels(root, nodes, order, filter, w, depth, levels);
    }
}

/// No entry lies deeper than the deepest.
proof fn lemma_deepest(nodes: Seq<Node>, i: int)
    requires
        0 <= i < nodes.len(),
    ensures
        nodes[i].path().len() <= deepest(nodes),
    decreases nodes.len(),
{
    if i < nodes.len() - 1 {
        lemma_deepest(nodes.drop_last(), i);
    }
}

/// Each child of an ordered list is one of the children that were put in.
proof fn lemma_sorted_members(order: Order, list: Seq<(nat, PathView)>, k: int)
    requires
        0 <= k < sorted(order, list).len(),
    ensures
        list.contains(sorted(order, list)[k]),
{
    lemma_sorted(order, list);
    broadcast use vstd::seq_lib::group_to_multiset_ensures;

    let out = sorted(order, list);
    assert(out.to_multiset().count(out[k]) > 0);
}

/// Two characters that differ have different codes.
proof fn lemma_distinct_codes(c: char, d: char)
    ensures
        c != d ==> c as u32 != d as u32,
{
}

/// Of two texts at most one is lower than the other.
pub proof fn lemma_text_lt_asymmetric(a: Seq<char>, b: Seq<char>)
    requires
        text_lt(a, b),
    ensures
        !text_lt(b, a),
    decreases a.len(),
{
    if a.len() > 0 && b.len() > 0 && a[0] == b[0] {
        lemma_text_lt_asymmetric(a.skip(1), b.skip(1));
    }
}

/// Where a first text is not lower than a second, nor the second lower than
/// a third, the first is not lower than the third.
pub proof fn lemma_text_lt_chain(a: Seq<char>, b: Seq<char>, c: Seq<char>)
    requires
        !text_lt(a, b),
        !text_lt(b, c),
    ensures
        !text_lt(a, c),
    decreases a.len(),
{
    if a.len() > 0 && b.len() > 0 && c.len() > 0 {
        lemma_distinct_codes(a[0], b[0]);
        lemma_distinct_codes(b[0], c[0]);
        lemma_distinct_codes(a[0], c[0]);
        if a[0] == b[0] && b[0] == c[0] {
            lemma_text_lt_chain(a.skip(1), b.skip(1), c.skip(1));
        }
    }
}

/// Whether neither of two children has to stand before the other.
pub open spec fn level(order: Order, a: (nat, PathView), b: (nat, PathView)) -> bool {
    !goes_before(order, a, b) && !goes_before(order, b, a)
}

/// The children of a list that are level with `with`, in the order of the
/// list.
pub open spec fn level_with(order: Order, with: (nat, PathView), list: Seq<(nat, PathView)>) -> Seq<
    (nat, PathView),
>
    decreases list.len(),
{
    if list.len() == 0 {
        Seq::empty()
    } else if level(order, with, list.last()) {
        level_with(order, with, list.drop_last()).push(list.last())
    } else {
        level_with(order, with, list.drop_last())
    }
}

/// Where a first child does not have to stand before a second, nor the
/// second before a third, the first does not have to stand before the third.
pub proof fn lemma_goes_before_chain(
    order: Order,
    a: (nat, PathView),
    b: (nat, PathView),
    c: (nat, PathView),
)
    requires
        !goes_before(order, a, b),
        !goes_before(order, b, c),
    ensures
        !goes_before(order, a, c),
{
    if order == Order::Lexicographic {
        lemma_text_lt_chain(joined(a.1), joined(b.1), joined(c.1));
    }
}

proof fn lemma_insert_keeps_level(
    order: Order,
    with: (nat, PathView),
    done: Seq<(nat, PathView)>,
    item: (nat, PathView),
)
    ensures
        level_with(order, with, insert_sorted(order, done, item)) == level_with(
            order,
            with,
            done.push(item),
        ),
    decreases done.len(),
{
    if done.len() > 0 && goes_before(order, item, done.last()) {
        let rest = done.drop_last();
        let last = done.last();
        let inner = insert_sorted(order, rest, item);
        lemma_insert_keeps_level(order, with, rest, item);
        assert(inner.push(last).drop_last() =~= inner);
        assert(inner.push(last).last() == last);
        assert(rest.push(item).drop_last() =~= rest);
        assert(rest.push(item).last() == item);
        assert(done.push(item).drop_last() =~= done);
        assert(done.push(item).last() == item);
        if level(order, with, item) && level(order, with, last) {
            lemma_goes_before_chain(order, item, with, last);
        }
        let kept = level_with(order, with, rest);
        if level(order, with, item) {
            assert(level_with(order, with, inner) == kept.push(item));
            assert(level_with(order, with, inner.push(last)) == kept.push(item));
            assert(level_with(order, with, done) == kept);
        } else {
            assert(level_with(order, with, inner) == kept);
            assert(level_with(order, with, done.push(item)) == level_with(order, with, done));
        }
    } else if done.len() == 0 {
        assert(insert_sorted(order, done, item) =~= done.push(item));
    }
}

/// The order of a report is stable: the children that are level with each
/// other, by size where sizes order them and by the text of the path where
/// paths do, stand in the order of the listing.
pub proof fn lemma_sorted_stable(order: Order, with: (nat, PathView), list: Seq<(nat, PathView)>)
    ensures
        level_with(order, with, sorted(order, list)) == level_with(order, with, list),
    decreases list.len(),
{
    if list.len() > 0 {
        let rest = list.drop_last();
        lemma_sorted_stable(order, with, rest);
        lemma_insert_keeps_level(order, with, sorted(order, rest), list.last());
        assert(sorted(order, rest).push(list.last()).drop_last() =~= sorted(order, rest));
    }
}

/// Putting one more child into an ordered list gives an ordered list of the
/// same children and the new one.
proof fn lemma_insert_sorted(order: Order, done: Seq<(nat, PathView)>, item: (nat, PathView))
    requires
        ordered(order, done),
    ensures
        ordered(order, insert_sorted(order, done, item)),
        insert_sorted(order, done, item).to_multiset() == done.to_multiset().insert(item),
    decreases done.len(),
{
    broadcast use vstd::seq_lib::group_to_multiset_ensures;

    let out = insert_sorted(order, done, item);
    if done.len() == 0 {
        assert(out =~= Seq::<(nat, PathView)>::empty().push(item));
        assert(out.to_multiset() =~= done.to_multiset().insert(item));
    } else if goes_before(order, item, done.last()) {
        let rest = done.drop_last();
        let inner = insert_sorted(order, rest, item);
        assert(ordered(order, rest)) by {
            assert forall|i: int, j: int| 0 <= i < j < rest.len() implies !goes_before(
                order,
                #[trigger] rest[j],
                #[trigger] rest[i],
            ) by {
                assert(rest[i] == done[i] && rest[j] == done[j]);
            }
        }
        lemma_insert_sorted(order, rest, item);
        assert(done =~= rest.push(done.last()));
        assert(out.to_multiset() =~= done.to_multiset().insert(item));
        assert forall|i: int, j: int| 0 <= i < j < out.len() implies !goes_before(
            order,
            #[trigger] out[j],
            #[trigger] out[i],
        ) by {
            if j < inner.len() {
                assert(out[i] == inner[i] && out[j] == inner[j]);
            } else {
                assert(out[i] == inner[i]);
                assert(inner.to_multiset().count(inner[i]) > 0);
                if inner[i] == item {
                    if order == Order::Lexicographic {
                        lemma_text_lt_asymmetric(joined(item.1), joined(done.last().1));
                    }
                } else {
                    assert(rest.to_multiset().count(inner[i]) > 0);
                    let w = choose|w: int| 0 <= w < rest.len() && rest[w] == inner[i];
                    assert(done[w] == inner[i]);
                    assert(!goes_before(order, done[done.len() - 1], done[w]));
                }
            }
        }
    } else {
        assert(out.to_multiset() =~= done.to_multiset().insert(item));
        assert forall|i: int, j: int| 0 <= i < j < out.len() implies !goes_before(
            order,
            #[trigger] out[j],
            #[trigger] out[i],
        ) by {
            if j < done.len() {
                assert(out[i] == done[i] && out[j] == done[j]);
            } else if i < done.len() - 1 {
                assert(!goes_before(order, done[done.len() - 1], done[i]));
                if order == Order::Lexicographic {
                    lemma_text_lt_chain(joined(item.1), joined(done.last().1), joined(done[i].1));
                }
            }
        }
    }
}

/// The order of a report: no child stands behind one that it has to stand
/// before, so sizes never grow along a list ordered by size and path texts
/// never fall along one ordered by path; and the ordered list holds the
/// children that were put in, each as often as it was put in.
pub proof fn lemma_sorted(order: Order, list: Seq<(nat, PathView)>)
    ensures
        ordered(order, sorted(order, list)),
        sorted(order, list).to_multiset() == list.to_multiset(),
        sorted(order, list).len() == list.len(),
        order == Order::SizeDescending ==> forall|i: int, j: int|
            0 <= i < j < list.len() ==> (#[trigger] sorted(order, list)[i]).0 >= (
            #[trigger] sorted(order, list)[j]).0,
        order == Order::Lexicographic ==> forall|i: int, j: int|
            0 <= i < j < list.len() ==> !text_lt(
                joined((#[trigger] sorted(order, list)[j]).1),
                joined((#[trigger] sorted(order, list)[i]).1),
            ),
    decreases list.len(),
{
    broadcast use vstd::seq_lib::group_to_multiset_ensures;

    if list.len() == 0 {
        assert(sorted(order, list).to_multiset() =~= list.to_multiset());
    } else {
        lemma_sorted(order, list.drop_last());
        lemma_insert_sorted(order, sorted(order, list.drop_last()), list.last());
        assert(list =~= list.drop_last().push(list.last()));
        assert(sorted(order, list).to_multiset() =~= list.to_multiset());
    }
    let out = sorted(order, list);
    assert(out.to_multiset().len() == out.len());
    assert(list.to_multiset().len() == list.len());
    assert forall|i: int, j: int| 0 <= i < j < list.len() implies !goes_before(
        order,
        #[trigger] out[j],
        #[trigger] out[i],
    ) by {}
}

} // verus!

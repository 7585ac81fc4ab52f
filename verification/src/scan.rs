//! Scanning a directory step by step.
//!
//! A scan never reads the disk. It says which path to look at next, takes
//! what the caller found there, and keeps the entries made so far in an order
//! from which a tree can be taken once no path is left.

use crate::file_tree::{
    child_of, classify, find, has_key, listed, nodes_of, paths, total_bytes, well_formed,
    EntryNode, FileTree, Node, Probe, TreeError,
};
use crate::path::{PathView, TreePath};
use vstd::prelude::*;

verus! {

/// What holds of the entries and the pending paths of a scan at every step.
///
/// No path has two entries. The first entry is the root's, and every later
/// one is listed by a directory that stands before it. Each child of a
/// directory is one step below it, and is either an entry already or still
/// pending. Each pending path is listed by a directory, or is the root where
/// nothing has been entered yet.
pub open spec fn scanning(root: PathView, nodes: Seq<Node>, pending: Seq<PathView>) -> bool {
    &&& forall|i: int, j: int|
        0 <= i < j < nodes.len() ==> (#[trigger] nodes[i]).path() != (#[trigger] nodes[j]).path()
    &&& nodes.len() > 0 ==> nodes[0].path() == root
    &&& forall|i: int| 0 < i < nodes.len() ==> #[trigger] listed(nodes, i, nodes[i].path())
    &&& forall|i: int, k: int|
        0 <= i < nodes.len() && 0 <= k < nodes[i].children().len() ==> {
            let child = #[trigger] nodes[i].children()[k];
            &&& child_of(child, nodes[i].path())
            &&& has_key(nodes, child) || pending.contains(child)
        }
    &&& nodes.len() == 0 ==> pending == seq![root]
    &&& nodes.len() > 0 ==> forall|q: int|
        0 <= q < pending.len() ==> listed(nodes, nodes.len() as int, #[trigger] pending[q])
}

/// A scan under way: the entries made so far and the paths still to look at.
///
/// The caller reads the disk. It asks `next_path` where to look, looks,
/// and hands what it found to `visit_dir`; when `next_path` has no more,
/// `finish` gives the tree.
pub struct Scan {
    root: TreePath,
    map: Vec<EntryNode>,
    pending: Vec<TreePath>,
}

impl Scan {
    /// The root that the scan started from.
    pub closed spec fn root(&self) -> PathView {
        self.root@
    }

    /// The entries made so far, in the order in which they were made.
    pub closed spec fn nodes(&self) -> Seq<Node> {
        nodes_of(self.map@)
    }

    /// The paths still to look at; the last one comes first.
    pub closed spec fn pending(&self) -> Seq<PathView> {
        paths(self.pending@)
    }

    /// What holds of a scan at every step.
    pub open spec fn inv(&self) -> bool {
        scanning(self.root(), self.nodes(), self.pending())
    }

    /// A scan of `root` with nothing looked at yet.
    pub fn start(root: &TreePath) -> (scan: Scan)
        ensures
            scan.inv(),
            scan.root() == root@,
            scan.nodes() == Seq::<Node>::empty(),
            scan.pending() == seq![root@],
    {
        let mut pending: Vec<TreePath> = Vec::new();
        pending.push(root.clone());
        let scan = Scan { root: root.clone(), map: Vec::new(), pending };
        assert(scan.nodes() =~= Seq::<Node>::empty());
        assert(scan.pending() =~= seq![root@]);
        scan
    }

    /// The path to look at next, or `None` when the scan is complete. Paths
    /// that were entered since they became pending are dropped on the way.
    pub fn next_path(&mut self) -> (path: Option<TreePath>)
        requires
            old(self).inv(),
        ensures
            final(self).inv(),
            final(self).root() == old(self).root(),
            final(self).nodes() == old(self).nodes(),
            final(self).pending().is_prefix_of(old(self).pending()),
            forall|q: int|
                final(self).pending().len() <= q < old(self).pending().len() ==> has_key(
                    old(self).nodes(),
                    #[trigger] old(self).pending()[q],
                ),
            match path {
                Some(p) => final(self).pending().len() > 0 && p@ == final(self).pending().last()
                    && !has_key(final(self).nodes(), p@),
                None => final(self).pending().len() == 0,
            },
    {
        while self.pending.len() > 0
            invariant
                self.inv(),
                self.root() == old(self).root(),
                self.nodes() == old(self).nodes(),
                self.pending().is_prefix_of(old(self).pending()),
                forall|q: int|
                    self.pending().len() <= q < old(self).pending().len() ==> has_key(
                        old(self).nodes(),
                        #[trigger] old(self).pending()[q],
                    ),
            decreases self.pending.len(),
        {
            let top = self.pending.len() - 1;
            let ghost before = self.pending();
            match find(&self.map, &self.pending[top]) {
                None => {
                    let path = self.pending[top].clone();
                    assert(self.pending().last() == self.pending@[top as int]@);
                    return Some(path);
                },
                Some(at) => {
                    assert(self.nodes()[at as int].path() == before[top as int]);
                },
            }
            self.pending.pop();
            proof {
                assert(self.pending() =~= before.drop_last());
                lemma_scan_drop(self.root(), self.nodes(), before);
            }
        }
        None
    }

    /// Enters what a look at the last pending path found: the path's entry,
    /// with a directory's children made pending in their turn. A path that
    /// has an entry already is only dropped. Where the probe makes no entry,
    /// the scan stays as it was and the reason is returned; where nothing is
    /// pending, nothing changes.
    pub fn visit_dir(&mut self, probe: &Probe) -> (done: Result<(), TreeError>)
        requires
            old(self).inv(),
        ensures
            final(self).inv(),
            final(self).root() == old(self).root(),
            old(self).pending().len() == 0 ==> done is Ok && final(self).nodes() == old(
                self,
            ).nodes() && final(self).pending() == old(self).pending(),
            old(self).pending().len() > 0 ==> match classify(old(self).pending().last(), *probe) {
                Err(error) => done == Err::<(), TreeError>(error) && final(self).nodes() == old(
                    self,
                ).nodes() && final(self).pending() == old(self).pending(),
                Ok(node) => done is Ok && if has_key(old(self).nodes(), node.path()) {
                    final(self).nodes() == old(self).nodes() && final(self).pending() == old(
                        self,
                    ).pending().drop_last()
                } else {
                    final(self).nodes() == old(self).nodes().push(node) && final(self).pending()
                        == old(self).pending().drop_last() + node.children()
                },
            },
    {
        if self.pending.len() == 0 {
            return Ok(());
        }
        let top = self.pending.len() - 1;
        assert(self.pending().last() == self.pending@[top as int]@);
        let entry = match EntryNode::new(&self.pending[top], probe) {
            Ok(entry) => entry,
            Err(error) => {
                return Err(error);
            },
        };
        let ghost node = entry@;
        let ghost nodes = self.nodes();
        let ghost before = self.pending();
        let known = match find(&self.map, &self.pending[top]) {
            None => false,
            Some(at) => {
                assert(nodes[at as int].path() == before[top as int]);
                true
            },
        };
        self.pending.pop();
        assert(self.pending() =~= before.drop_last());
        if known {
            proof {
                lemma_scan_drop(self.root(), nodes, before);
            }
            return Ok(());
        }
        match entry {
            EntryNode::Fichier { nom, taille } => {
                self.map.push(EntryNode::Fichier { nom, taille });
            },
            EntryNode::Dossier { nom, enfant } => {
                let mut k: usize = 0;
                while k < enfant.len()
                    invariant
                        k <= enfant.len(),
                        self.root() == old(self).root(),
                        self.nodes() == nodes,
                        self.pending() == before.drop_last() + paths(enfant@).take(k as int),
                    decreases enfant.len() - k,
                {
                    let ghost sofar = self.pending();
                    self.pending.push(enfant[k].clone());
                    k += 1;
                    assert(self.pending() =~= sofar.push(enfant@[k - 1]@));
                    assert(self.pending() =~= before.drop_last() + paths(enfant@).take(k as int));
                }
                assert(paths(enfant@).take(k as int) =~= paths(enfant@));
                self.map.push(EntryNode::Dossier { nom, enfant });
            },
        }
        proof {
            assert(self.nodes() =~= nodes.push(node));
            assert forall|k: int| 0 <= k < node.children().len() implies child_of(
                #[trigger] node.children()[k],
                node.path(),
            ) by {
                assert(node.children()[k].drop_last() =~= node.path());
            }
            lemma_scan_step(self.root(), nodes, before, node);
        }
        Ok(())
    }

    /// The tree that the scan has built: `None` while paths are pending,
    /// before the root has been entered, and where the files' bytes do not
    /// add up within 64 bits.
    pub fn finish(self) -> (tree: Option<FileTree>)
        requires
            self.inv(),
        ensures
            tree is Some <==> well_formed(self.root(), self.nodes()) && self.pending().len() == 0,
            tree matches Some(t) ==> t.root() == self.root() && t.nodes() == self.nodes(),
    {
        if self.pending.len() > 0 || self.map.len() == 0 {
            return None;
        }
        assert(self.pending() =~= Seq::<PathView>::empty());
        let mut sum: u128 = 0;
        let mut i: usize = 0;
        while i < self.map.len()
            invariant
                i <= self.map.len(),
                sum == total_bytes(self.nodes().take(i as int)),
                sum <= i * 0xffff_ffff_ffff_ffff,
            decreases self.map.len() - i,
        {
            let bytes: u64 = match &self.map[i] {
                EntryNode::Fichier { taille, .. } => taille.bytes(),
                EntryNode::Dossier { .. } => 0,
            };
            assert(self.nodes().take(i + 1).drop_last() =~= self.nodes().take(i as int));
            sum = sum + bytes as u128;
            i += 1;
        }
        assert(self.nodes().take(i as int) =~= self.nodes());
        if sum > 0xffff_ffff_ffff_ffff {
            return None;
        }
        Some(FileTree::assemble(self.root, self.map))
    }
}

/// Dropping a last pending path that has an entry already keeps a scan in
/// order.
proof fn lemma_scan_drop(root: PathView, nodes: Seq<Node>, pending: Seq<PathView>)
    requires
        scanning(root, nodes, pending),
        pending.len() > 0,
        has_key(nodes, pending.last()),
    ensures
        scanning(root, nodes, pending.drop_last()),
{
    let rest = pending.drop_last();
    assert forall|i: int, k: int|
        0 <= i < nodes.len() && 0 <= k < nodes[i].children().len() implies {
        let child = #[trigger] nodes[i].children()[k];
        &&& child_of(child, nodes[i].path())
        &&& has_key(nodes, child) || rest.contains(child)
    } by {
        let child = nodes[i].children()[k];
        if !has_key(nodes, child) {
            let q = choose|q: int| 0 <= q < pending.len() && pending[q] == child;
            assert(rest[q] == child);
        }
    }
    assert forall|q: int| 0 <= q < rest.len() implies listed(
        nodes,
        nodes.len() as int,
        #[trigger] rest[q],
    ) by {
        assert(rest[q] == pending[q]);
    }
}

/// Entering the last pending path keeps a scan in order: the path's entry
/// joins the entries, and its children take its place among the pending
/// paths.
proof fn lemma_scan_step(
    root: PathView,
    nodes: Seq<Node>,
    pending: Seq<PathView>,
    node: Node,
)
    requires
        scanning(root, nodes, pending),
        pending.len() > 0,
        node.path() == pending.last(),
        !has_key(nodes, node.path()),
        forall|k: int|
            0 <= k < node.children().len() ==> child_of(
                #[trigger] node.children()[k],
                node.path(),
            ),
    ensures
        scanning(root, nodes.push(node), pending.drop_last() + node.children()),
{
    let after = nodes.push(node);
    let rest = pending.drop_last() + node.children();
    let n = nodes.len() as int;
    assert(after[n] == node);
    assert forall|i: int, j: int| 0 <= i < j < after.len() implies (#[trigger] after[i]).path() != (
    #[trigger] after[j]).path() by {
        if j == n {
            assert(after[i] == nodes[i]);
        }
    }
    if n == 0 {
        assert(pending.last() == root);
    }
    assert forall|i: int| 0 < i < after.len() implies #[trigger] listed(
        after,
        i,
        after[i].path(),
    ) by {
        if i == n {
            assert(pending[pending.len() - 1] == node.path());
            let j = choose|j: int|
                0 <= j < n && j < nodes.len() && (#[trigger] nodes[j]).children().contains(
                    node.path(),
                );
            assert(after[j] == nodes[j]);
        } else {
            assert(listed(nodes, i, nodes[i].path()));
            let j = choose|j: int|
                0 <= j < i && j < nodes.len() && (#[trigger] nodes[j]).children().contains(
                    nodes[i].path(),
                );
            assert(after[j] == nodes[j]);
        }
    }
    assert forall|i: int, k: int|
        0 <= i < after.len() && 0 <= k < after[i].children().len() implies {
        let child = #[trigger] after[i].children()[k];
        &&& child_of(child, after[i].path())
        &&& has_key(after, child) || rest.contains(child)
    } by {
        let child = after[i].children()[k];
        if i == n {
            assert(rest[pending.len() - 1 + k] == child);
        } else {
            assert(after[i] == nodes[i]);
            if has_key(nodes, child) {
                let w = choose|w: int| 0 <= w < nodes.len() && (#[trigger] nodes[w]).path() == child;
                assert(after[w] == nodes[w]);
            } else {
                let q = choose|q: int| 0 <= q < pending.len() && pending[q] == child;
                if q == pending.len() - 1 {
                    assert(after[n].path() == child);
                } else {
                    assert(rest[q] == child);
                }
            }
        }
    }
    assert forall|q: int| 0 <= q < rest.len() implies listed(
        after,
        after.len() as int,
        #[trigger] rest[q],
    ) by {
        if q < pending.len() - 1 {
            assert(rest[q] == pending[q]);
            assert(n > 0);
            let j = choose|j: int|
                0 <= j < n && j < nodes.len() && (#[trigger] nodes[j]).children().contains(
                    pending[q],
                );
            assert(after[j] == nodes[j]);
        } else {
            assert(node.children()[q - (pending.len() - 1)] == rest[q]);
            assert(after[n].children().contains(rest[q]));
        }
    }
}

} // verus!

//! The scanner as a state machine: the arena built so far and the stack of
//! folders whose entries are still being read. The file-system walk hands it
//! one event at a time (an entry found, a folder finished), and it keeps the
//! tree consistent throughout, so that a finished scan is a consistent tree.

use vstd::prelude::*;
use crate::order::{arrange, is_desc_order, lemma_desc_order_covers, precedes};
use crate::scan::{
    at_depth, attached, begin_node, child_sizes, children_linked, depth, finish_dir, lemma_rooted_step,
    lemma_sum_same, record_entry, rooted, sizes_add_up, sum_sizes, EntryKind, Node, Tree,
};
use crate::tree_laws::lemma_completion_keeps_consistency;

verus! {

/// A folder whose entries are still being read: its node, the entries
/// finished so far, and their total size.
pub struct OpenFolder {
    pub idx: usize,
    pub children: Vec<usize>,
    pub total: u64,
}

/// The arena built so far, and the open folders from the root down.
pub struct Scanner {
    pub nodes: Vec<Node>,
    pub open: Vec<OpenFolder>,
}

/// Every node's parent was created before it.
pub open spec fn parents_first(nodes: Seq<Node>) -> bool {
    forall|j: int| 0 <= j < nodes.len() ==> (#[trigger] nodes[j].parent matches Some(p) ==> (p as int) < j)
}

/// Every child list runs from the largest child to the smallest.
pub open spec fn sorted_children(nodes: Seq<Node>) -> bool {
    forall|j: int, a: int, b: int|
        #![trigger nodes[j].children@[a], nodes[j].children@[b]]
        0 <= j < nodes.len() && 0 <= a < b < nodes[j].children@.len()
            ==> nodes[nodes[j].children@[a] as int].size >= nodes[nodes[j].children@[b] as int].size
}

/// The `k`-th open folder: a folder node with no children yet, whose parent
/// is the open folder above it (none for the first), with its finished
/// entries, distinct children of it, and their total size.
pub open spec fn open_ok(nodes: Seq<Node>, open: Seq<OpenFolder>, k: int) -> bool {
    let f = open[k];
    &&& (f.idx as int) < nodes.len()
    &&& nodes[f.idx as int].children@.len() == 0
    &&& nodes[f.idx as int].is_dir
    &&& nodes[f.idx as int].parent == (if k == 0 {
        None
    } else {
        Some(open[k - 1].idx)
    })
    &&& f.children@.no_duplicates()
    &&& forall|m: int|
        0 <= m < f.children@.len() ==> (#[trigger] f.children@[m] as int) < nodes.len()
            && nodes[f.children@[m] as int].parent == Some(f.idx)
    &&& f.total == sum_sizes(nodes, f.children@)
}

/// Node `j` is among the finished entries of the open folder `p`.
pub open spec fn in_pending(open: Seq<OpenFolder>, p: int, j: int) -> bool {
    exists|k: int| 0 <= k < open.len() && open[k].idx as int == p && #[trigger] open[k].children@.contains(j as usize)
}

/// Node `j` is an open folder.
pub open spec fn is_open(open: Seq<OpenFolder>, j: int) -> bool {
    exists|k: int| 0 <= k < open.len() && #[trigger] open[k].idx as int == j
}

/// Node `j` is listed by its parent, finished or open; only node 0, the
/// root, has no parent.
pub open spec fn listed(nodes: Seq<Node>, open: Seq<OpenFolder>, j: int) -> bool {
    match nodes[j].parent {
        Some(p) => nodes[p as int].children@.contains(j as usize) || in_pending(open, p as int, j),
        None => j == 0,
    }
}

/// How many bytes an entry of this kind holds before its own entries are read.
pub open spec fn entry_size(kind: EntryKind) -> u64 {
    match kind {
        EntryKind::File(len) => len,
        _ => 0,
    }
}

impl Scanner {
    /// The scan's invariant: a consistent tree whose open folders form the
    /// chain from the root to the folder being read, and where every other
    /// node is listed by its parent exactly once.
    pub open spec fn wf(&self) -> bool {
        let nodes = self.nodes@;
        let open = self.open@;
        &&& parents_first(nodes)
        &&& children_linked(nodes)
        &&& sizes_add_up(nodes)
        &&& sorted_children(nodes)
        &&& forall|k: int| 0 <= k < open.len() ==> #[trigger] open_ok(nodes, open, k)
        &&& forall|j: int, k: int|
            0 <= j < nodes.len() && 0 <= k < open.len() ==> !(#[trigger] nodes[j].children@.contains(#[trigger] open[k].idx))
        &&& forall|k1: int, k2: int|
            0 <= k1 < open.len() && 0 <= k2 < open.len() ==> !(#[trigger] open[k1].children@.contains(#[trigger] open[k2].idx))
        &&& forall|j: int| 0 <= j < nodes.len() && !is_open(open, j) ==> #[trigger] listed(nodes, open, j)
        &&& open.len() > 0 ==> open[0].idx == 0
    }

    /// An empty scan.
    pub fn new() -> (s: Scanner)
        ensures
            s.wf(),
            s.nodes@.len() == 0,
            s.open@.len() == 0,
    {
        Scanner { nodes: Vec::new(), open: Vec::new() }
    }
}

/// Sums over lists of old nodes do not see nodes pushed later.
proof fn lemma_sum_push(nodes: Seq<Node>, n: Node, cs: Seq<usize>)
    requires
        forall|m: int| 0 <= m < cs.len() ==> (#[trigger] cs[m] as int) < nodes.len(),
    ensures
        sum_sizes(nodes.push(n), cs) == sum_sizes(nodes, cs),
{
    assert forall|m: int| 0 <= m < cs.len() implies nodes.push(n)[#[trigger] cs[m] as int].size == nodes[cs[m] as int].size by {}
    lemma_sum_same(nodes, nodes.push(n), cs);
}

/// A list arranged in descending order is sorted by size.
proof fn lemma_arranged_sorted(nodes: Seq<Node>, cs: Seq<usize>, order: Seq<usize>)
    requires
        is_desc_order(child_sizes(nodes, cs), order),
    ensures
        forall|a: int, b: int|
            #![trigger arrange(cs, order)[a], arrange(cs, order)[b]]
            0 <= a < b < order.len()
                ==> nodes[arrange(cs, order)[a] as int].size >= nodes[arrange(cs, order)[b] as int].size,
{
    assert forall|a: int, b: int| 0 <= a < b < order.len() implies
        nodes[#[trigger] arrange(cs, order)[a] as int].size >= nodes[#[trigger] arrange(cs, order)[b] as int].size by {
        assert(precedes(child_sizes(nodes, cs), order[a] as int, order[b] as int));
    }
}

impl Scanner {
    /// Records an entry found while scanning: a new node, named `name`,
    /// child of the open folder being read (or the root when nothing was
    /// scanned yet). A folder becomes the folder being read; anything else
    /// is finished at once and counted into the open folder with its size.
    /// `None`, with nothing changed, when the scan is already complete or
    /// the open folder's total would overflow a `u64`.
    pub fn add_entry(&mut self, name: String, kind: EntryKind) -> (added: Option<usize>)
        requires
            old(self).wf(),
        ensures
            final(self).wf(),
            (added is None) == ((old(self).nodes@.len() > 0 && old(self).open@.len() == 0) || (old(self).open@.len() > 0
                && !(kind is Folder) && old(self).open@.last().total + entry_size(kind) > u64::MAX)),
            added is None ==> final(self).nodes@ == old(self).nodes@ && final(self).open@ == old(self).open@,
            added matches Some(i) ==> {
                &&& i == old(self).nodes@.len()
                &&& final(self).nodes@.drop_last() == old(self).nodes@
                &&& final(self).nodes@.len() == i + 1
                &&& final(self).nodes@[i as int].name@ == name@
                &&& final(self).nodes@[i as int].is_dir == (kind is Folder)
                &&& final(self).nodes@[i as int].size == entry_size(kind)
                &&& final(self).nodes@[i as int].children@.len() == 0
                &&& final(self).nodes@[i as int].parent == (if old(self).open@.len() == 0 {
                    None
                } else {
                    Some(old(self).open@.last().idx)
                })
                &&& if kind is Folder {
                    &&& final(self).open@.len() == old(self).open@.len() + 1
                    &&& final(self).open@.drop_last() == old(self).open@
                    &&& final(self).open@.last().idx == i
                    &&& final(self).open@.last().children@.len() == 0
                    &&& final(self).open@.last().total == 0
                } else if old(self).open@.len() == 0 {
                    final(self).open@.len() == 0
                } else {
                    &&& final(self).open@.len() == old(self).open@.len()
                    &&& final(self).open@.drop_last() == old(self).open@.drop_last()
                    &&& final(self).open@.last().idx == old(self).open@.last().idx
                    &&& final(self).open@.last().children@ == old(self).open@.last().children@.push(i)
                    &&& final(self).open@.last().total == old(self).open@.last().total + entry_size(kind)
                }
            },
    {
        let ghost old_nodes = self.nodes@;
        let ghost old_open = self.open@;
        let nopen = self.open.len();
        if self.nodes.len() > 0 && nopen == 0 {
            return None;
        }
        let size: u64 = match kind {
            EntryKind::File(len) => len,
            _ => 0,
        };
        let is_folder = match kind {
            EntryKind::Folder => true,
            _ => false,
        };
        let parent: Option<usize> = if nopen == 0 { None } else { Some(self.open[nopen - 1].idx) };
        if nopen > 0 && !is_folder {
            if self.open[nopen - 1].total.checked_add(size).is_none() {
                return None;
            }
        }
        let idx = begin_node(&mut self.nodes, parent, name);
        record_entry(&mut self.nodes, idx, kind);
        let ghost new_node = self.nodes@[idx as int];
        assert(self.nodes@ =~= old_nodes.push(new_node));
        proof {
            if nopen > 0 {
                assert(open_ok(old_nodes, old_open, nopen - 1));
            }
            assert forall|j: int| 0 <= j < self.nodes@.len() implies (#[trigger] self.nodes@[j].parent matches Some(p) ==> (p as int) < j) by {
                if j < old_nodes.len() {
                    assert(self.nodes@[j] == old_nodes[j]);
                }
            }
            assert forall|j: int| 0 <= j < old_nodes.len() implies #[trigger] self.nodes@[j] == old_nodes[j] by {}
            // Old child lists and pending lists name old nodes only, whose sizes are unchanged.
            assert forall|j: int| 0 <= j < old_nodes.len() && old_nodes[j].children@.len() > 0
                implies sum_sizes(self.nodes@, old_nodes[j].children@) == sum_sizes(old_nodes, old_nodes[j].children@) by {
                assert(old_nodes[j] == old_nodes[j]);
                lemma_sum_push(old_nodes, new_node, old_nodes[j].children@);
            }
            assert forall|k: int| 0 <= k < old_open.len() implies
                sum_sizes(self.nodes@, #[trigger] old_open[k].children@) == sum_sizes(old_nodes, old_open[k].children@) by {
                assert(open_ok(old_nodes, old_open, k));
                lemma_sum_push(old_nodes, new_node, old_open[k].children@);
            }
        }
        if is_folder {
            self.open.push(OpenFolder { idx, children: Vec::new(), total: 0 });
            proof {
                let nodes = self.nodes@;
                let open = self.open@;
                assert(open.drop_last() =~= old_open);
                assert forall|k: int| 0 <= k < open.len() implies #[trigger] open_ok(nodes, open, k) by {
                    if k < old_open.len() {
                        assert(open[k] == old_open[k]);
                        assert(open_ok(old_nodes, old_open, k));
                        if k > 0 {
                            assert(open[k - 1] == old_open[k - 1]);
                        }
                    } else {
                        assert(sum_sizes(nodes, open[k].children@) == 0);
                        if k > 0 {
                            assert(open[k - 1] == old_open[k - 1]);
                        }
                    }
                }
                assert forall|j: int| 0 <= j < nodes.len() && !is_open(open, j) implies #[trigger] listed(nodes, open, j) by {
                    if j == idx {
                        assert(open[open.len() - 1].idx as int == j);
                    } else {
                        assert(nodes[j] == old_nodes[j]);
                        if is_open(old_open, j) {
                            let k = choose|k: int| 0 <= k < old_open.len() && old_open[k].idx as int == j;
                            assert(open[k].idx as int == j);
                        }
                        assert(listed(old_nodes, old_open, j));
                        if let Some(p) = nodes[j].parent {
                            if in_pending(old_open, p as int, j) {
                                let k = choose|k: int| 0 <= k < old_open.len() && old_open[k].idx as int == p as int
                                    && old_open[k].children@.contains(j as usize);
                                assert(open[k] == old_open[k]);
                            }
                        }
                    }
                }
                assert forall|j: int, k: int| 0 <= j < nodes.len() && 0 <= k < open.len() implies
                    !(#[trigger] nodes[j].children@.contains(#[trigger] open[k].idx)) by {
                    if j < old_nodes.len() {
                        assert(nodes[j] == old_nodes[j]);
                        if k < old_open.len() {
                            assert(open[k] == old_open[k]);
                        } else if nodes[j].children@.contains(open[k].idx) {
                            let m = choose|m: int| 0 <= m < nodes[j].children@.len() && nodes[j].children@[m] == open[k].idx;
                            assert(old_nodes[j] == old_nodes[j]);
                        }
                    }
                }
                assert forall|k1: int, k2: int| 0 <= k1 < open.len() && 0 <= k2 < open.len() implies
                    !(#[trigger] open[k1].children@.contains(#[trigger] open[k2].idx)) by {
                    if k1 < old_open.len() {
                        assert(open[k1] == old_open[k1]);
                        assert(open_ok(old_nodes, old_open, k1));
                        if k2 < old_open.len() {
                            assert(open[k2] == old_open[k2]);
                        } else if open[k1].children@.contains(open[k2].idx) {
                            let m = choose|m: int| 0 <= m < open[k1].children@.len() && open[k1].children@[m] == open[k2].idx;
                        }
                    }
                }
            }
        } else if nopen > 0 {
            let ghost old_top = old_open[nopen - 1];
            let mut top = self.open.pop().unwrap();
            top.children.push(idx);
            top.total = top.total + size;
            self.open.push(top);
            proof {
                let nodes = self.nodes@;
                let open = self.open@;
                let last = nopen - 1;
                assert(open.drop_last() =~= old_open.drop_last());
                assert(open_ok(old_nodes, old_open, last as int));
                assert(open[last as int].children@.drop_last() == old_top.children@);
                assert forall|k: int| 0 <= k < open.len() implies #[trigger] open_ok(nodes, open, k) by {
                    assert(open_ok(old_nodes, old_open, k));
                    if k > 0 {
                        assert(open[k - 1].idx == old_open[k - 1].idx);
                    }
                    if k < last {
                        assert(open[k] == old_open[k]);
                    } else {
                        let cs = open[k].children@;
                        assert(cs.no_duplicates()) by {
                            assert forall|a: int, b: int| 0 <= a < b < cs.len() implies cs[a] != cs[b] by {
                                if b == cs.len() - 1 {
                                    assert(cs[a] == old_top.children@[a]);
                                    assert((old_top.children@[a] as int) < old_nodes.len());
                                } else {
                                    assert(cs[a] == old_top.children@[a] && cs[b] == old_top.children@[b]);
                                }
                            }
                        }
                        assert forall|m: int| 0 <= m < cs.len() implies (#[trigger] cs[m] as int) < nodes.len()
                            && nodes[cs[m] as int].parent == Some(open[k].idx) by {
                            if m < cs.len() - 1 {
                                assert(cs[m] == old_top.children@[m]);
                            }
                        }
                        assert(cs.drop_last() == old_top.children@);
                    }
                }
                assert forall|j: int| 0 <= j < nodes.len() && !is_open(open, j) implies #[trigger] listed(nodes, open, j) by {
                    if j == idx {
                        assert(open[last as int].children@[open[last as int].children@.len() - 1] == idx);
                        assert(open[last as int].children@.contains(idx));
                        assert(open[last as int].idx == old_top.idx);
                        assert(j as usize == idx);
                        assert(open[last as int].children@.contains(j as usize));
                        assert(in_pending(open, old_top.idx as int, j));
                    } else {
                        assert(nodes[j] == old_nodes[j]);
                        if is_open(old_open, j) {
                            let k = choose|k: int| 0 <= k < old_open.len() && old_open[k].idx as int == j;
                            assert(open[k].idx as int == j);
                        }
                        assert(listed(old_nodes, old_open, j));
                        if let Some(p) = nodes[j].parent {
                            if in_pending(old_open, p as int, j) {
                                let k = choose|k: int| 0 <= k < old_open.len() && old_open[k].idx as int == p as int
                                    && old_open[k].children@.contains(j as usize);
                                assert(open[k].idx == old_open[k].idx);
                                let m = choose|m: int| 0 <= m < old_open[k].children@.len() && old_open[k].children@[m] == j as usize;
                                assert(open[k].children@[m] == j as usize);
                                assert(open[k].children@.contains(j as usize));
                                assert(in_pending(open, p as int, j));
                            } else {
                                assert(nodes[p as int] == old_nodes[p as int]);
                            }
                        }
                    }
                }
                assert forall|j: int, k: int| 0 <= j < nodes.len() && 0 <= k < open.len() implies
                    !(#[trigger] nodes[j].children@.contains(#[trigger] open[k].idx)) by {
                    assert(open[k].idx == old_open[k].idx);
                    if j < old_nodes.len() {
                        assert(nodes[j] == old_nodes[j]);
                    }
                }
                assert forall|k1: int, k2: int| 0 <= k1 < open.len() && 0 <= k2 < open.len() implies
                    !(#[trigger] open[k1].children@.contains(#[trigger] open[k2].idx)) by {
                    assert(open[k2].idx == old_open[k2].idx);
                    assert(open_ok(old_nodes, old_open, k2));
                    if k1 < last {
                        assert(open[k1] == old_open[k1]);
                    } else if open[k1].children@.contains(open[k2].idx) {
                        let m = choose|m: int| 0 <= m < open[k1].children@.len() && open[k1].children@[m] == open[k2].idx;
                        assert(!old_open[k1].children@.contains(old_open[k2].idx));
                        if m < open[k1].children@.len() - 1 {
                            assert(old_open[k1].children@[m] == open[k2].idx);
                            assert(old_open[k1].children@.contains(old_open[k2].idx));
                        }
                    }
                }
            }
        } else {
            proof {
                let nodes = self.nodes@;
                assert forall|j: int| 0 <= j < nodes.len() && !is_open(self.open@, j) implies #[trigger] listed(nodes, self.open@, j) by {}
            }
        }
        Some(idx)
    }
}

/// Open folders lie deeper and deeper: each one's node was created after
/// the one above it.
proof fn lemma_open_increasing(nodes: Seq<Node>, open: Seq<OpenFolder>, a: int, b: int)
    requires
        parents_first(nodes),
        forall|k: int| 0 <= k < open.len() ==> #[trigger] open_ok(nodes, open, k),
        0 <= a < b < open.len(),
    ensures
        open[a].idx < open[b].idx,
    decreases b - a,
{
    assert(open_ok(nodes, open, b));
    assert(nodes[open[b].idx as int].parent == Some(open[b - 1].idx));
    if a < b - 1 {
        lemma_open_increasing(nodes, open, a, b - 1);
    }
}

/// Every entry of a completed folder is among its arranged children.
proof fn lemma_arranged_covers(keys: Seq<u64>, cs: Seq<usize>, order: Seq<usize>, m: int)
    requires
        is_desc_order(keys, order),
        keys.len() == cs.len(),
        0 <= m < cs.len(),
    ensures
        arrange(cs, order).contains(cs[m]),
{
    lemma_desc_order_covers(keys, order, m);
    let i = choose|i: int| 0 <= i < order.len() && order[i] as int == m;
    assert(arrange(cs, order)[i] == cs[m]);
}

/// With no folder left open, every node is rooted and attached.
proof fn lemma_finished_rooted(nodes: Seq<Node>, open: Seq<OpenFolder>, j: int)
    requires
        parents_first(nodes),
        open.len() == 0,
        forall|i: int| 0 <= i < nodes.len() && !is_open(open, i) ==> #[trigger] listed(nodes, open, i),
        0 <= j < nodes.len(),
    ensures
        rooted(nodes, j),
        attached(nodes, j),
    decreases j,
{
    assert(listed(nodes, open, j));
    match nodes[j].parent {
        Some(p) => {
            lemma_finished_rooted(nodes, open, p as int);
            lemma_rooted_step(nodes, p as int);
            assert(at_depth(nodes, j, depth(nodes, p as int) + 1));
            lemma_rooted_step(nodes, j);
        },
        None => {
            assert(at_depth(nodes, j, 0));
            lemma_rooted_step(nodes, j);
        },
    }
}

impl Scanner {
    /// Finishes the folder being read: its children become its finished
    /// entries, largest first (ties in scan order), its size their total,
    /// and it is counted into the folder above it. `false`, with nothing
    /// changed, when no folder is open or the folder above's total would
    /// overflow a `u64`.
    pub fn close_folder(&mut self) -> (closed: bool)
        requires
            old(self).wf(),
        ensures
            final(self).wf(),
            closed == (old(self).open@.len() > 0 && (old(self).open@.len() >= 2 ==> old(self).open@[old(self).open@.len() - 2].total
                + old(self).open@.last().total <= u64::MAX)),
            !closed ==> final(self).nodes@ == old(self).nodes@ && final(self).open@ == old(self).open@,
            closed ==> ({
                let f = old(self).open@.last();
                let n = old(self).open@.len();
                &&& final(self).nodes@.len() == old(self).nodes@.len()
                &&& forall|j: int| 0 <= j < old(self).nodes@.len() && j != f.idx ==> #[trigger] final(self).nodes@[j] == old(self).nodes@[j]
                &&& final(self).nodes@[f.idx as int].name == old(self).nodes@[f.idx as int].name
                &&& final(self).nodes@[f.idx as int].is_dir == old(self).nodes@[f.idx as int].is_dir
                &&& final(self).nodes@[f.idx as int].parent == old(self).nodes@[f.idx as int].parent
                &&& final(self).nodes@[f.idx as int].size == f.total
                &&& exists|order: Seq<usize>|
                    #[trigger] is_desc_order(child_sizes(old(self).nodes@, f.children@), order)
                        && final(self).nodes@[f.idx as int].children@ == arrange(f.children@, order)
                &&& final(self).open@.len() == n - 1
                &&& n >= 2 ==> {
                    &&& final(self).open@.drop_last() == old(self).open@.drop_last().drop_last()
                    &&& final(self).open@.last().idx == old(self).open@[n - 2].idx
                    &&& final(self).open@.last().children@ == old(self).open@[n - 2].children@.push(f.idx)
                    &&& final(self).open@.last().total == old(self).open@[n - 2].total + f.total
                }
            }),
    {
        let ghost old_nodes = self.nodes@;
        let ghost old_open = self.open@;
        let n = self.open.len();
        if n == 0 {
            return false;
        }
        if n >= 2 {
            if self.open[n - 2].total.checked_add(self.open[n - 1].total).is_none() {
                return false;
            }
        }
        let f = self.open.pop().unwrap();
        let ghost fc = f.children@;
        let fidx = f.idx;
        let ftotal = f.total;
        assert(f == old_open[n - 1]);
        proof {
            assert(open_ok(old_nodes, old_open, n - 1));
            if n >= 2 {
                assert(open_ok(old_nodes, old_open, n - 2));
            }
            assert(!fc.contains(fidx)) by {
                if fc.contains(fidx) {
                    let m = choose|m: int| 0 <= m < fc.len() && fc[m] == fidx;
                    assert(old_nodes[fidx as int].parent == Some(fidx));
                }
            }
        }
        let children = f.children;
        finish_dir(&mut self.nodes, fidx, children);
        let ghost nodes = self.nodes@;
        let ghost order = choose|order: Seq<usize>|
            is_desc_order(child_sizes(old_nodes, fc), order) && nodes[fidx as int].children@ == arrange(fc, order);
        proof {
            assert forall|j: int| 0 <= j < old_nodes.len() implies !(#[trigger] old_nodes[j].children@.contains(fidx as usize)) by {
                assert(!old_nodes[j].children@.contains(old_open[n - 1].idx));
            }
            assert forall|k: int| 0 <= k < fc.len() implies (#[trigger] fc[k] as int) < old_nodes.len()
                && old_nodes[fc[k] as int].parent == Some(fidx as usize) by {}
            lemma_completion_keeps_consistency(old_nodes, nodes, fidx as int, fc, order);
            lemma_arranged_sorted(old_nodes, fc, order);
            let ac = arrange(fc, order);
            assert forall|m: int| 0 <= m < ac.len() implies fc.contains(#[trigger] ac[m]) by {
                assert(ac[m] == fc[order[m] as int]);
            }
            assert forall|j: int, a: int, b: int|
                0 <= j < nodes.len() && 0 <= a < b < nodes[j].children@.len()
                    implies nodes[#[trigger] nodes[j].children@[a] as int].size >= nodes[#[trigger] nodes[j].children@[b] as int].size by {
                let l = nodes[j].children@;
                if j == fidx {
                    assert(fc.contains(ac[a]) && fc.contains(ac[b]));
                    assert(ac[a] != fidx && ac[b] != fidx);
                } else {
                    assert(old_nodes[j] == nodes[j]);
                    assert(old_nodes[j].children@.contains(l[a]) && old_nodes[j].children@.contains(l[b]));
                    assert(l[a] != fidx && l[b] != fidx);
                }
            }
            assert forall|j: int| 0 <= j < nodes.len() implies (#[trigger] nodes[j].parent matches Some(p) ==> (p as int) < j) by {
                if j != fidx {
                    assert(nodes[j] == old_nodes[j]);
                }
            }
        }
        if self.open.len() > 0 {
            let mut top = self.open.pop().unwrap();
            top.children.push(fidx);
            top.total = top.total + ftotal;
            self.open.push(top);
        }
        proof {
            let open = self.open@;
            assert(open.len() == n - 1);
            if n >= 2 {
                assert(open.drop_last() =~= old_open.drop_last().drop_last());
                assert(open[n - 2].children@.drop_last() == old_open[n - 2].children@);
            }
            assert forall|k: int| 0 <= k < open.len() implies #[trigger] open_ok(nodes, open, k) by {
                assert(open_ok(old_nodes, old_open, k));
                lemma_open_increasing(old_nodes, old_open, k, n - 1);
                assert(open[k].idx == old_open[k].idx);
                assert(nodes[open[k].idx as int] == old_nodes[open[k].idx as int]);
                if k > 0 {
                    assert(open[k - 1].idx == old_open[k - 1].idx);
                }
                let cs = old_open[k].children@;
                assert forall|m: int| 0 <= m < cs.len() implies nodes[#[trigger] cs[m] as int].size == old_nodes[cs[m] as int].size by {
                    assert(!old_open[k].children@.contains(old_open[n - 1].idx));
                    assert(cs.contains(cs[m]));
                }
                lemma_sum_same(old_nodes, nodes, cs);
                if k < n - 2 {
                    assert(open[k] == old_open[k]);
                } else {
                    let l = open[k].children@;
                    assert(l.drop_last() == cs);
                    assert(!cs.contains(fidx)) by {
                        assert(!old_open[k].children@.contains(old_open[n - 1].idx));
                    }
                    assert(l.no_duplicates()) by {
                        assert forall|a: int, b: int| 0 <= a < b < l.len() implies l[a] != l[b] by {
                            if b == l.len() - 1 {
                                assert(l[a] == cs[a]);
                                assert(cs.contains(cs[a]));
                            } else {
                                assert(l[a] == cs[a] && l[b] == cs[b]);
                            }
                        }
                    }
                    assert forall|m: int| 0 <= m < l.len() implies (#[trigger] l[m] as int) < nodes.len()
                        && nodes[l[m] as int].parent == Some(open[k].idx) by {
                        if m < l.len() - 1 {
                            assert(l[m] == cs[m]);
                        }
                    }
                }
            }
            assert forall|j: int, k: int| 0 <= j < nodes.len() && 0 <= k < open.len() implies
                !(#[trigger] nodes[j].children@.contains(#[trigger] open[k].idx)) by {
                assert(open[k].idx == old_open[k].idx);
                if j == fidx {
                    if nodes[j].children@.contains(open[k].idx) {
                        let m = choose|m: int| 0 <= m < nodes[j].children@.len() && nodes[j].children@[m] == open[k].idx;
                        assert(fc.contains(arrange(fc, order)[m]));
                        assert(!old_open[n - 1].children@.contains(old_open[k].idx));
                    }
                } else {
                    assert(nodes[j] == old_nodes[j]);
                }
            }
            assert forall|k1: int, k2: int| 0 <= k1 < open.len() && 0 <= k2 < open.len() implies
                !(#[trigger] open[k1].children@.contains(#[trigger] open[k2].idx)) by {
                assert(open[k2].idx == old_open[k2].idx);
                assert(!old_open[k1].children@.contains(old_open[k2].idx));
                if k1 < n - 2 {
                    assert(open[k1] == old_open[k1]);
                } else if open[k1].children@.contains(open[k2].idx) {
                    let m = choose|m: int| 0 <= m < open[k1].children@.len() && open[k1].children@[m] == open[k2].idx;
                    if m < open[k1].children@.len() - 1 {
                        assert(old_open[k1].children@[m] == open[k2].idx);
                        assert(old_open[k1].children@.contains(old_open[k2].idx));
                    } else {
                        lemma_open_increasing(old_nodes, old_open, k2, n - 1);
                    }
                }
            }
            assert forall|j: int| 0 <= j < nodes.len() && !is_open(open, j) implies #[trigger] listed(nodes, open, j) by {
                assert(nodes[j].parent == old_nodes[j].parent);
                if j == fidx {
                    if n >= 2 {
                        let l = open[n - 2].children@;
                        assert(l[l.len() - 1] == fidx);
                        assert(j as usize == fidx);
                        assert(l.contains(j as usize));
                        assert(in_pending(open, old_open[n - 2].idx as int, j));
                    } else {
                        assert(old_open[0].idx == 0);
                    }
                } else {
                    assert(!is_open(old_open, j)) by {
                        if is_open(old_open, j) {
                            let k = choose|k: int| 0 <= k < old_open.len() && old_open[k].idx as int == j;
                            if k < n - 1 {
                                assert(open[k].idx == old_open[k].idx);
                            }
                        }
                    }
                    assert(listed(old_nodes, old_open, j));
                    if let Some(p) = nodes[j].parent {
                        if old_nodes[p as int].children@.contains(j as usize) {
                            if p as int == fidx as int {
                                assert(old_nodes[fidx as int].children@.len() == 0);
                            }
                            assert(nodes[p as int] == old_nodes[p as int]);
                        } else {
                            let k = choose|k: int| 0 <= k < old_open.len() && old_open[k].idx as int == p as int
                                && old_open[k].children@.contains(j as usize);
                            let m = choose|m: int| 0 <= m < old_open[k].children@.len() && old_open[k].children@[m] == j as usize;
                            if k == n - 1 {
                                lemma_arranged_covers(child_sizes(old_nodes, fc), fc, order, m);
                                assert(nodes[p as int].children@.contains(j as usize));
                            } else if k == n - 2 {
                                assert(open[k].children@[m] == j as usize);
                                assert(open[k].children@.contains(j as usize));
                                assert(open[k].idx == old_open[k].idx);
                                assert(in_pending(open, p as int, j));
                            } else {
                                assert(open[k] == old_open[k]);
                                assert(in_pending(open, p as int, j));
                            }
                        }
                    }
                }
            }
        }
        true
    }

    /// The scanned tree, once every folder is closed: every node is rooted
    /// and listed by its parent, child lists name their children's parent
    /// once each and run largest first, and every node with children is as
    /// large as they are together.
    pub fn into_tree(self, root_path: String) -> (tree: Tree)
        requires
            self.wf(),
            self.open@.len() == 0,
            self.nodes@.len() > 0,
        ensures
            tree.nodes@ == self.nodes@,
            tree.root == 0,
            tree.root_path == root_path,
            children_linked(tree.nodes@),
            sizes_add_up(tree.nodes@),
            sorted_children(tree.nodes@),
            forall|j: int| 0 <= j < tree.nodes@.len() ==> rooted(tree.nodes@, j) && attached(tree.nodes@, j),
    {
        proof {
            assert forall|j: int| 0 <= j < self.nodes@.len() implies rooted(self.nodes@, j) && attached(self.nodes@, j) by {
                lemma_finished_rooted(self.nodes@, self.open@, j);
            }
        }
        Tree { nodes: self.nodes, root: 0, root_path }
    }
}

/// How reading one entry ended, as the progress counters see it.
pub enum ScanOutcome {
    /// The scan was cancelled before the entry was looked at.
    Cancelled,
    /// The entry's metadata could not be read.
    Unreadable,
    /// A symbolic link, not followed.
    Symlink,
    /// A folder whose entries could not be listed.
    FolderUnreadable,
    /// A folder whose entries were read.
    Folder,
    /// A file of this many bytes.
    File(u64),
}

/// What one outcome adds to the counters of items scanned, bytes found and
/// entries skipped for an error: every entry read counts as an item, a file
/// adds its bytes, an unreadable entry or folder counts as an error, and a
/// cancelled entry counts as nothing.
pub fn progress_step(outcome: ScanOutcome) -> (step: (u64, u64, u64))
    ensures
        step == (match outcome {
            ScanOutcome::Cancelled => (0u64, 0u64, 0u64),
            ScanOutcome::Unreadable => (0u64, 0u64, 1u64),
            ScanOutcome::Symlink => (1u64, 0u64, 0u64),
            ScanOutcome::FolderUnreadable => (0u64, 0u64, 1u64),
            ScanOutcome::Folder => (1u64, 0u64, 0u64),
            ScanOutcome::File(len) => (1u64, len, 0u64),
        }),
{
    match outcome {
        ScanOutcome::Cancelled => (0, 0, 0),
        ScanOutcome::Unreadable => (0, 0, 1),
        ScanOutcome::Symlink => (1, 0, 0),
        ScanOutcome::FolderUnreadable => (0, 0, 1),
        ScanOutcome::Folder => (1, 0, 0),
        ScanOutcome::File(len) => (1, len, 0),
    }
}

} // verus!

//! The scanned file tree, kept in a flat arena so that going to a parent is an
//! index lookup.

use vstd::prelude::*;
use crate::order::{arrange, desc_order, is_desc_order, sum_at, sum_range};
use crate::text::same_text;

verus! {

/// A single file or directory in the scanned tree.
pub struct Node {
    pub name: String,
    pub size: u64,
    pub is_dir: bool,
    pub parent: Option<usize>,
    /// Populated once the subtree has finished scanning, sorted by size (desc).
    pub children: Vec<usize>,
}

/// The arena of nodes, the index of the root and the path that the root stands for.
pub struct Tree {
    pub nodes: Vec<Node>,
    pub root: usize,
    pub root_path: String,
}

/// Following parents from `i` takes exactly `d` steps, inside the arena, to
/// reach a node without a parent.
pub open spec fn at_depth(nodes: Seq<Node>, i: int, d: nat) -> bool
    decreases d,
{
    &&& 0 <= i < nodes.len()
    &&& match nodes[i].parent {
        None => d == 0,
        Some(p) => d > 0 && at_depth(nodes, p as int, (d - 1) as nat),
    }
}

/// Walking up parents from `i` stays in the arena and ends at a node without
/// a parent: no index is out of bounds and there is no cycle.
pub open spec fn rooted(nodes: Seq<Node>, i: int) -> bool {
    exists|d: nat| at_depth(nodes, i, d)
}

/// How many parent links lead up from a rooted node `i`.
pub open spec fn depth(nodes: Seq<Node>, i: int) -> nat {
    choose|d: nat| at_depth(nodes, i, d)
}

/// `a` is met within `d` steps up from `i`.
pub open spec fn ancestor_within(nodes: Seq<Node>, a: int, i: int, d: nat) -> bool
    decreases d,
{
    if d == 0 || !(0 <= i < nodes.len()) {
        false
    } else {
        match nodes[i].parent {
            Some(p) => p as int == a || ancestor_within(nodes, a, p as int, (d - 1) as nat),
            None => false,
        }
    }
}

/// `a` is a strict ancestor of the rooted node `i`: its parent, or an
/// ancestor of its parent.
pub open spec fn is_ancestor(nodes: Seq<Node>, a: int, i: int) -> bool {
    ancestor_within(nodes, a, i, depth(nodes, i))
}

/// Appends `name` to `base` as `PathBuf::push` does with `/` as separator: an
/// absolute name replaces the path; otherwise a separator is put between
/// them unless `base` is empty or already ends with one.
pub open spec fn join_path(base: Seq<char>, name: Seq<char>) -> Seq<char> {
    if name.len() > 0 && name[0] == '/' {
        name
    } else if base.len() == 0 || base.last() == '/' {
        base + name
    } else {
        base.push('/') + name
    }
}

/// The path `d` steps below the top: `root_path` joined with the names on
/// the way down.
pub open spec fn path_within(nodes: Seq<Node>, root_path: Seq<char>, i: int, d: nat) -> Seq<char>
    decreases d,
{
    if d > 0 && 0 <= i < nodes.len() {
        match nodes[i].parent {
            Some(p) => join_path(path_within(nodes, root_path, p as int, (d - 1) as nat), nodes[i].name@),
            None => root_path,
        }
    } else {
        root_path
    }
}

/// The path of the rooted node `i`: `root_path` for a node without a parent,
/// else its parent's path joined with its name.
pub open spec fn path_of(nodes: Seq<Node>, root_path: Seq<char>, i: int) -> Seq<char> {
    path_within(nodes, root_path, i, depth(nodes, i))
}

/// The names met `d` steps down from the top to `i`, the topmost node's own
/// name left out.
pub open spec fn names_within(nodes: Seq<Node>, i: int, d: nat) -> Seq<Seq<char>>
    decreases d,
{
    if d > 0 && 0 <= i < nodes.len() {
        match nodes[i].parent {
            Some(p) => names_within(nodes, p as int, (d - 1) as nat).push(nodes[i].name@),
            None => Seq::empty(),
        }
    } else {
        Seq::empty()
    }
}

/// The names that lead from the top of the tree down to the rooted node `i`.
pub open spec fn names_of(nodes: Seq<Node>, i: int) -> Seq<Seq<char>> {
    names_within(nodes, i, depth(nodes, i))
}

/// The names of `chain`, its last element first.
pub open spec fn chain_names(nodes: Seq<Node>, chain: Seq<usize>) -> Seq<Seq<char>> {
    Seq::new(chain.len(), |k: int| nodes[chain[chain.len() - 1 - k] as int].name@)
}

/// Joins the names of `chain` onto `base`, the last element of `chain` first.
pub open spec fn join_chain(nodes: Seq<Node>, base: Seq<char>, chain: Seq<usize>) -> Seq<char>
    decreases chain.len(),
{
    if chain.len() == 0 {
        base
    } else {
        join_chain(nodes, join_path(base, nodes[chain.last() as int].name@), chain.drop_last())
    }
}

/// Node `idx` can be removed: its chain of parents is rooted and no ancestor
/// is smaller than it, so no size goes below zero.
pub open spec fn removable(nodes: Seq<Node>, idx: int) -> bool {
    &&& rooted(nodes, idx)
    &&& forall|a: int| #[trigger] is_ancestor(nodes, a, idx) ==> nodes[a].size >= nodes[idx].size
}

/// The total size of the nodes listed in `cs`.
pub open spec fn sum_sizes(nodes: Seq<Node>, cs: Seq<usize>) -> int
    decreases cs.len(),
{
    if cs.len() == 0 {
        0
    } else {
        sum_sizes(nodes, cs.drop_last()) + nodes[cs.last() as int].size
    }
}

/// Every child list names nodes of the arena, each at most once, and each
/// child names the node that lists it as its parent.
pub open spec fn children_linked(nodes: Seq<Node>) -> bool {
    forall|i: int|
        #![trigger nodes[i]]
        0 <= i < nodes.len() ==> {
            &&& nodes[i].children@.no_duplicates()
            &&& forall|k: int|
                0 <= k < nodes[i].children@.len() ==> {
                    &&& (#[trigger] nodes[i].children@[k] as int) < nodes.len()
                    &&& nodes[nodes[i].children@[k] as int].parent == Some(i as usize)
                }
        }
}

/// Every node that lists children is as large as its children together.
pub open spec fn sizes_add_up(nodes: Seq<Node>) -> bool {
    forall|i: int|
        #![trigger nodes[i]]
        0 <= i < nodes.len() && nodes[i].children@.len() > 0
            ==> nodes[i].size == sum_sizes(nodes, nodes[i].children@)
}

/// Within `d` steps up from `i`, every node is listed by its parent.
pub open spec fn attached_within(nodes: Seq<Node>, i: int, d: nat) -> bool
    decreases d,
{
    if d > 0 && 0 <= i < nodes.len() {
        match nodes[i].parent {
            Some(p) => nodes[p as int].children@.contains(i as usize) && attached_within(nodes, p as int, (d - 1) as nat),
            None => true,
        }
    } else {
        true
    }
}

/// The rooted node `i` is still listed by its parent, its parent by its own
/// parent, and so on up to the top.
pub open spec fn attached(nodes: Seq<Node>, i: int) -> bool {
    attached_within(nodes, i, depth(nodes, i))
}

/// The total of a list whose nodes all kept their sizes is unchanged.
pub proof fn lemma_sum_same(old: Seq<Node>, new: Seq<Node>, cs: Seq<usize>)
    requires
        forall|k: int| 0 <= k < cs.len() ==> new[#[trigger] cs[k] as int].size == old[cs[k] as int].size,
    ensures
        sum_sizes(new, cs) == sum_sizes(old, cs),
    decreases cs.len(),
{
    if cs.len() > 0 {
        lemma_sum_same(old, new, cs.drop_last());
    }
}

/// A node has one depth.
pub proof fn lemma_depth_unique(nodes: Seq<Node>, i: int, d1: nat, d2: nat)
    requires
        at_depth(nodes, i, d1),
        at_depth(nodes, i, d2),
    ensures
        d1 == d2,
    decreases d1,
{
    if let Some(p) = nodes[i].parent {
        lemma_depth_unique(nodes, p as int, (d1 - 1) as nat, (d2 - 1) as nat);
    }
}

/// One step up from a rooted node: its parent is rooted one level higher,
/// and ancestors, paths and attachment unfold through the parent.
pub proof fn lemma_rooted_step(nodes: Seq<Node>, i: int)
    requires
        rooted(nodes, i),
    ensures
        at_depth(nodes, i, depth(nodes, i)),
        0 <= i < nodes.len(),
        match nodes[i].parent {
            Some(p) => {
                &&& rooted(nodes, p as int)
                &&& depth(nodes, p as int) + 1 == depth(nodes, i)
                &&& forall|a: int| #[trigger] is_ancestor(nodes, a, i) == (p as int == a || is_ancestor(nodes, a, p as int))
                &&& forall|r: Seq<char>| #[trigger] path_of(nodes, r, i) == join_path(path_of(nodes, r, p as int), nodes[i].name@)
                &&& attached(nodes, i) == (nodes[p as int].children@.contains(i as usize) && attached(nodes, p as int))
                &&& names_of(nodes, i) == names_of(nodes, p as int).push(nodes[i].name@)
            },
            None => {
                &&& depth(nodes, i) == 0
                &&& forall|a: int| !#[trigger] is_ancestor(nodes, a, i)
                &&& forall|r: Seq<char>| #[trigger] path_of(nodes, r, i) == r
                &&& attached(nodes, i)
                &&& names_of(nodes, i) == Seq::<Seq<char>>::empty()
            },
        },
{
    let d = depth(nodes, i);
    if let Some(p) = nodes[i].parent {
        assert(at_depth(nodes, p as int, (d - 1) as nat));
        let dp = depth(nodes, p as int);
        lemma_depth_unique(nodes, p as int, dp, (d - 1) as nat);
    }
}

/// An ancestor of a rooted node is rooted and lies fewer steps from the top.
pub proof fn lemma_ancestor_shallower(nodes: Seq<Node>, a: int, i: int)
    requires
        rooted(nodes, i),
        is_ancestor(nodes, a, i),
    ensures
        rooted(nodes, a),
        depth(nodes, a) < depth(nodes, i),
    decreases depth(nodes, i),
{
    lemma_rooted_step(nodes, i);
    let p = nodes[i].parent->0 as int;
    if p != a {
        lemma_ancestor_shallower(nodes, a, p);
    }
}

/// The parent of an ancestor is an ancestor too.
pub proof fn lemma_ancestor_parent(nodes: Seq<Node>, a: int, i: int)
    requires
        rooted(nodes, i),
        is_ancestor(nodes, a, i),
        nodes[a].parent is Some,
    ensures
        is_ancestor(nodes, nodes[a].parent->0 as int, i),
    decreases depth(nodes, i),
{
    lemma_rooted_step(nodes, i);
    let p = nodes[i].parent->0 as int;
    if p != a {
        lemma_ancestor_parent(nodes, a, p);
    } else {
        lemma_rooted_step(nodes, a);
    }
}

/// The node ids met walking up `d` steps from `i`, `i` first.
pub open spec fn up_chain(nodes: Seq<Node>, i: int, d: nat) -> Seq<int>
    decreases d,
{
    if d == 0 {
        seq![i]
    } else {
        seq![i] + up_chain(nodes, nodes[i].parent->0 as int, (d - 1) as nat)
    }
}

proof fn lemma_up_chain(nodes: Seq<Node>, i: int)
    requires
        rooted(nodes, i),
    ensures
        up_chain(nodes, i, depth(nodes, i)).len() == depth(nodes, i) + 1,
        forall|m: int|
            0 <= m < up_chain(nodes, i, depth(nodes, i)).len() ==> {
                &&& rooted(nodes, #[trigger] up_chain(nodes, i, depth(nodes, i))[m])
                &&& depth(nodes, up_chain(nodes, i, depth(nodes, i))[m]) == depth(nodes, i) - m
                &&& 0 <= up_chain(nodes, i, depth(nodes, i))[m] < nodes.len()
            },
    decreases depth(nodes, i),
{
    lemma_rooted_step(nodes, i);
    let d = depth(nodes, i);
    if d > 0 {
        let p = nodes[i].parent->0 as int;
        lemma_up_chain(nodes, p);
        let s = up_chain(nodes, i, d);
        let t = up_chain(nodes, p, depth(nodes, p));
        assert(s == seq![i] + t);
        assert forall|m: int| 0 <= m < s.len() implies {
            &&& rooted(nodes, #[trigger] s[m])
            &&& depth(nodes, s[m]) == d - m
            &&& 0 <= s[m] < nodes.len()
        } by {
            if m > 0 {
                assert(s[m] == t[m - 1]);
            }
        }
    }
}

/// A rooted node lies fewer steps from the top than the arena has nodes:
/// the nodes on its way up are all different.
pub proof fn lemma_depth_bound(nodes: Seq<Node>, i: int)
    requires
        rooted(nodes, i),
    ensures
        depth(nodes, i) < nodes.len(),
{
    lemma_up_chain(nodes, i);
    let s = up_chain(nodes, i, depth(nodes, i));
    assert(s.no_duplicates()) by {
        assert forall|m1: int, m2: int| 0 <= m1 < s.len() && 0 <= m2 < s.len() && m1 != m2 implies s[m1] != s[m2] by {
            assert(depth(nodes, s[m1]) == depth(nodes, i) - m1);
            assert(depth(nodes, s[m2]) == depth(nodes, i) - m2);
        }
    }
    s.unique_seq_to_set();
    let range = vstd::set_lib::set_int_range(0, nodes.len() as int);
    vstd::set_lib::lemma_int_range(0, nodes.len() as int);
    assert(s.to_set().subset_of(range)) by {
        assert forall|x: int| s.to_set().contains(x) implies range.contains(x) by {
            let m = choose|m: int| 0 <= m < s.len() && s[m] == x;
            assert(0 <= s[m] < nodes.len());
        }
    }
    vstd::set_lib::lemma_len_subset(s.to_set(), range);
}

/// Whether `path` is empty or ends with `/`.
fn ends_with_separator(path: &String) -> (res: bool)
    ensures
        res == (path@.len() == 0 || path@.last() == '/'),
{
    let n = path.as_str().unicode_len();
    if n == 0 {
        true
    } else {
        path.as_str().get_char(n - 1) == '/'
    }
}

/// Appends `name` to `path` as `join_path` says.
fn push_name(path: &mut String, name: &String)
    ensures
        final(path)@ == join_path(old(path)@, name@),
{
    let n = name.as_str().unicode_len();
    if n > 0 && name.as_str().get_char(0) == '/' {
        *path = name.clone();
    } else {
        if !ends_with_separator(path) {
            let sep = "/";
            proof {
                reveal_strlit("/");
            }
            path.append(sep);
            assert(sep@ =~= seq!['/']);
        }
        path.append(name.as_str());
    }
}

/// The `&&` of the facts about the chain that `full_path` collects.
spec fn chain_inv(nodes: Seq<Node>, root_path: Seq<char>, idx: int, cur: int, chain: Seq<usize>) -> bool {
    &&& 0 <= cur < nodes.len()
    &&& forall|k: int| 0 <= k < chain.len() ==> 0 <= #[trigger] chain[k] < nodes.len()
    &&& path_of(nodes, root_path, idx) == join_chain(nodes, path_of(nodes, root_path, cur), chain)
}

/// Keeps every index but `x`.
pub open spec fn other_than(x: usize) -> spec_fn(usize) -> bool {
    |c: usize| c != x
}

/// `new` is `old` after removing node `idx`: the node keeps its name, kind
/// and parent but has size 0 and no children; its parent no longer lists it;
/// every strict ancestor's size drops by the node's old size; nothing else
/// changes.
pub open spec fn is_removal(old: Seq<Node>, new: Seq<Node>, idx: int) -> bool {
    &&& new.len() == old.len()
    &&& forall|j: int|
        #![trigger new[j]]
        0 <= j < old.len() ==> {
            &&& new[j].name == old[j].name
            &&& new[j].is_dir == old[j].is_dir
            &&& new[j].parent == old[j].parent
            &&& new[j].size == (if j == idx {
                0
            } else if is_ancestor(old, j, idx) {
                old[j].size - old[idx].size
            } else {
                old[j].size as int
            })
            &&& new[j].children@ == (if j == idx {
                Seq::<usize>::empty()
            } else if old[idx].parent matches Some(p) && p as int == j {
                old[j].children@.filter(other_than(idx as usize))
            } else {
                old[j].children@
            })
        }
}

/// The ancestors of `idx` still waiting for their size to drop: `cur` and
/// its ancestors.
spec fn pending(nodes: Seq<Node>, cur: Option<usize>, j: int) -> bool {
    match cur {
        Some(c) => j == c || is_ancestor(nodes, j, c as int),
        None => false,
    }
}

/// The elements of `v` other than `x`, in order.
fn without(v: &Vec<usize>, x: usize) -> (res: Vec<usize>)
    ensures
        res@ == v@.filter(other_than(x)),
{
    let mut res: Vec<usize> = Vec::new();
    let n = v.len();
    let mut k: usize = 0;
    while k < n
        invariant
            n == v.len(),
            k <= n,
            res@ == v@.take(k as int).filter(other_than(x)),
        decreases n - k,
    {
        proof {
            reveal_with_fuel(Seq::<_>::filter, 1);
            assert(v@.take(k + 1).drop_last() =~= v@.take(k as int));
        }
        if v[k] != x {
            res.push(v[k]);
        }
        k = k + 1;
    }
    assert(v@.take(n as int) =~= v@);
    res
}

impl Tree {
    /// Whether walking up parents from `idx` stays in the arena and ends at
    /// a node without a parent. Takes at most as many steps as there are
    /// nodes: a longer walk must have met a cycle.
    pub fn is_rooted(&self, idx: usize) -> (res: bool)
        ensures
            res == rooted(self.nodes@, idx as int),
    {
        let ghost nodes = self.nodes@;
        let n = self.nodes.len();
        if idx >= n {
            return false;
        }
        let mut cur = idx;
        let mut k: usize = 0;
        while k < n
            invariant
                nodes == self.nodes@,
                n == nodes.len(),
                cur < n,
                k <= n,
                rooted(nodes, idx as int) == rooted(nodes, cur as int),
                rooted(nodes, idx as int) ==> depth(nodes, cur as int) + k == depth(nodes, idx as int),
            decreases n - k,
        {
            match self.nodes[cur].parent {
                None => {
                    assert(at_depth(nodes, cur as int, 0));
                    return true;
                },
                Some(p) => {
                    if p >= n {
                        proof {
                            if rooted(nodes, cur as int) {
                                lemma_rooted_step(nodes, cur as int);
                            }
                        }
                        return false;
                    }
                    proof {
                        if rooted(nodes, cur as int) {
                            lemma_rooted_step(nodes, cur as int);
                        }
                        if rooted(nodes, p as int) {
                            lemma_rooted_step(nodes, p as int);
                            assert(at_depth(nodes, cur as int, depth(nodes, p as int) + 1));
                        }
                    }
                    cur = p;
                    k = k + 1;
                },
            }
        }
        match self.nodes[cur].parent {
            None => {
                assert(at_depth(nodes, cur as int, 0));
                true
            },
            Some(_) => {
                proof {
                    if rooted(nodes, idx as int) {
                        lemma_rooted_step(nodes, cur as int);
                        lemma_depth_bound(nodes, idx as int);
                    }
                }
                false
            },
        }
    }

    /// The path of node `idx`: `root_path` joined with the names of the nodes
    /// from the top of the tree down to `idx`.
    pub fn full_path(&self, idx: usize) -> (path: String)
        requires
            rooted(self.nodes@, idx as int),
        ensures
            path@ == path_of(self.nodes@, self.root_path@, idx as int),
    {
        let ghost nodes = self.nodes@;
        let ghost root = self.root_path@;
        let mut chain: Vec<usize> = Vec::new();
        let mut cur = idx;
        proof {
            lemma_rooted_step(nodes, idx as int);
        }
        assert(join_chain(nodes, path_of(nodes, root, idx as int), chain@) == path_of(nodes, root, idx as int));
        loop
            invariant
                nodes == self.nodes@,
                root == self.root_path@,
                rooted(nodes, cur as int),
                chain_inv(nodes, root, idx as int, cur as int, chain@),
            ensures
                rooted(nodes, cur as int),
                chain_inv(nodes, root, idx as int, cur as int, chain@),
                nodes[cur as int].parent is None,
            decreases depth(nodes, cur as int),
        {
            proof {
                lemma_rooted_step(nodes, cur as int);
            }
            match self.nodes[cur].parent {
                Some(p) => {
                    proof {
                        lemma_rooted_step(nodes, p as int);
                        let c2 = chain@.push(cur);
                        assert(c2.drop_last() =~= chain@);
                    }
                    chain.push(cur);
                    cur = p;
                },
                None => {
                    break;
                },
            }
        }
        proof {
            lemma_rooted_step(nodes, cur as int);
        }
        assert(path_of(nodes, root, cur as int) == root);
        let mut path = self.root_path.clone();
        let mut k = chain.len();
        assert(chain@.take(k as int) =~= chain@);
        while k > 0
            invariant
                nodes == self.nodes@,
                k <= chain.len(),
                forall|j: int| 0 <= j < chain.len() ==> 0 <= #[trigger] chain[j] < nodes.len(),
                path_of(nodes, root, idx as int) == join_chain(nodes, path@, chain@.take(k as int)),
            decreases k,
        {
            let c = chain[k - 1];
            proof {
                assert(chain@.take(k as int).drop_last() =~= chain@.take(k - 1));
            }
            push_name(&mut path, &self.nodes[c].name);
            k = k - 1;
        }
        assert(chain@.take(0) =~= Seq::<usize>::empty());
        path
    }

    /// The names that lead from the top of the tree down to `idx`, in that
    /// order: pushed one by one onto `root_path` they give the node's path.
    pub fn path_names(&self, idx: usize) -> (names: Vec<String>)
        requires
            rooted(self.nodes@, idx as int),
        ensures
            names@.map_values(|s: String| s@) == names_of(self.nodes@, idx as int),
    {
        let ghost nodes = self.nodes@;
        let mut chain: Vec<usize> = Vec::new();
        let mut cur = idx;
        assert(names_of(nodes, idx as int) =~= names_of(nodes, cur as int) + chain_names(nodes, chain@));
        loop
            invariant
                nodes == self.nodes@,
                rooted(nodes, cur as int),
                forall|k: int| 0 <= k < chain.len() ==> 0 <= #[trigger] chain[k] < nodes.len(),
                names_of(nodes, idx as int) == names_of(nodes, cur as int) + chain_names(nodes, chain@),
            ensures
                forall|k: int| 0 <= k < chain.len() ==> 0 <= #[trigger] chain[k] < nodes.len(),
                names_of(nodes, idx as int) == chain_names(nodes, chain@),
            decreases depth(nodes, cur as int),
        {
            proof {
                lemma_rooted_step(nodes, cur as int);
            }
            match self.nodes[cur].parent {
                Some(p) => {
                    proof {
                        lemma_rooted_step(nodes, p as int);
                        assert(names_of(nodes, p as int) + chain_names(nodes, chain@.push(cur))
                            =~= names_of(nodes, cur as int) + chain_names(nodes, chain@));
                    }
                    chain.push(cur);
                    cur = p;
                },
                None => {
                    assert(names_of(nodes, cur as int) + chain_names(nodes, chain@) =~= chain_names(nodes, chain@));
                    break;
                },
            }
        }
        let ghost all = chain_names(nodes, chain@);
        let n = chain.len();
        let mut names: Vec<String> = Vec::new();
        let mut k = n;
        while k > 0
            invariant
                nodes == self.nodes@,
                n == chain.len(),
                k <= n,
                forall|j: int| 0 <= j < chain.len() ==> 0 <= #[trigger] chain[j] < nodes.len(),
                all == chain_names(nodes, chain@),
                names@.map_values(|s: String| s@) == all.take(n - k),
            decreases k,
        {
            let c = chain[k - 1];
            let name = self.nodes[c].name.clone();
            let ghost before = names@.map_values(|s: String| s@);
            assert(all[n - k] == name@);
            names.push(name);
            assert(names@.map_values(|s: String| s@) =~= before.push(all[n - k]));
            assert(all.take(n - k + 1) =~= all.take(n - k).push(all[n - k]));
            k = k - 1;
        }
        assert(all.take(n as int) =~= all);
        names
    }

    /// Removes `idx` from its parent's children and subtracts its size from
    /// every ancestor. The node itself is left as an orphaned, zero-size leaf
    /// in the arena (existing indices elsewhere must stay valid).
    pub fn remove(&mut self, idx: usize)
        requires
            removable(old(self).nodes@, idx as int),
        ensures
            final(self).root == old(self).root,
            final(self).root_path == old(self).root_path,
            is_removal(old(self).nodes@, final(self).nodes@, idx as int),
    {
        let ghost old_nodes = self.nodes@;
        proof {
            lemma_rooted_step(old_nodes, idx as int);
        }
        let size = self.nodes[idx].size;
        if let Some(parent) = self.nodes[idx].parent {
            let kept = without(&self.nodes[parent].children, idx);
            self.nodes[parent].children = kept;
            let mut cur: Option<usize> = Some(parent);
            assert(is_ancestor(old_nodes, parent as int, idx as int));
            loop
                invariant
                    removable(old_nodes, idx as int),
                    size == old_nodes[idx as int].size,
                    old_nodes[idx as int].parent == Some(parent),
                    self.nodes@.len() == old_nodes.len(),
                    self.root == old(self).root,
                    self.root_path == old(self).root_path,
                    cur matches Some(c) ==> is_ancestor(old_nodes, c as int, idx as int),
                    forall|j: int|
                        #![trigger self.nodes@[j]]
                        0 <= j < old_nodes.len() ==> {
                            &&& self.nodes@[j].name == old_nodes[j].name
                            &&& self.nodes@[j].is_dir == old_nodes[j].is_dir
                            &&& self.nodes@[j].parent == old_nodes[j].parent
                            &&& self.nodes@[j].size == (if is_ancestor(old_nodes, j, idx as int)
                                && !pending(old_nodes, cur, j) {
                                old_nodes[j].size - size
                            } else {
                                old_nodes[j].size as int
                            })
                            &&& self.nodes@[j].children@ == (if j == parent {
                                old_nodes[j].children@.filter(other_than(idx))
                            } else {
                                old_nodes[j].children@
                            })
                        },
                ensures
                    self.nodes@.len() == old_nodes.len(),
                    self.root == old(self).root,
                    self.root_path == old(self).root_path,
                    forall|j: int|
                        #![trigger self.nodes@[j]]
                        0 <= j < old_nodes.len() ==> {
                            &&& self.nodes@[j].name == old_nodes[j].name
                            &&& self.nodes@[j].is_dir == old_nodes[j].is_dir
                            &&& self.nodes@[j].parent == old_nodes[j].parent
                            &&& self.nodes@[j].size == (if is_ancestor(old_nodes, j, idx as int) {
                                old_nodes[j].size - size
                            } else {
                                old_nodes[j].size as int
                            })
                            &&& self.nodes@[j].children@ == (if j == parent {
                                old_nodes[j].children@.filter(other_than(idx))
                            } else {
                                old_nodes[j].children@
                            })
                        },
                decreases (match cur {
                    Some(c) => depth(old_nodes, c as int) + 1,
                    None => 0,
                }),
            {
                match cur {
                    Some(p) => {
                        proof {
                            lemma_ancestor_shallower(old_nodes, p as int, idx as int);
                            lemma_rooted_step(old_nodes, p as int);
                        }
                        assert(pending(old_nodes, cur, p as int));
                        self.nodes[p].size = self.nodes[p].size - size;
                        let next = self.nodes[p].parent;
                        proof {
                            if let Some(q) = next {
                                lemma_rooted_step(old_nodes, q as int);
                                if is_ancestor(old_nodes, p as int, q as int) {
                                    lemma_ancestor_shallower(old_nodes, p as int, q as int);
                                }
                                lemma_ancestor_parent(old_nodes, p as int, idx as int);
                            }
                            assert forall|j: int| 0 <= j < old_nodes.len() implies
                                (pending(old_nodes, cur, j) && j != p) == pending(old_nodes, next, j) by {
                                assert(is_ancestor(old_nodes, j, p as int) == (match next {
                                    Some(q) => q as int == j || is_ancestor(old_nodes, j, q as int),
                                    None => false,
                                }));
                            }
                        }
                        cur = next;
                    },
                    None => {
                        break;
                    },
                }
            }
        }
        proof {
            if is_ancestor(old_nodes, idx as int, idx as int) {
                lemma_ancestor_shallower(old_nodes, idx as int, idx as int);
            }
        }
        self.nodes[idx].size = 0;
        self.nodes[idx].children = Vec::new();
    }

    /// Whether `remove(idx)` can run: the parent chain of `idx` is rooted and
    /// no ancestor is smaller than the node.
    pub fn can_remove(&self, idx: usize) -> (ok: bool)
        ensures
            ok == removable(self.nodes@, idx as int),
    {
        if !self.is_rooted(idx) {
            return false;
        }
        let ghost nodes = self.nodes@;
        proof {
            lemma_rooted_step(nodes, idx as int);
        }
        let size = self.nodes[idx].size;
        let mut cur: Option<usize> = self.nodes[idx].parent;
        assert forall|a: int| is_ancestor(nodes, a, idx as int) implies pending(nodes, cur, a) by {}
        loop
            invariant
                nodes == self.nodes@,
                rooted(nodes, idx as int),
                size == nodes[idx as int].size,
                cur matches Some(c) ==> is_ancestor(nodes, c as int, idx as int),
                forall|a: int|
                    #[trigger] is_ancestor(nodes, a, idx as int) && !pending(nodes, cur, a)
                        ==> nodes[a].size >= size,
            decreases (match cur {
                Some(c) => depth(nodes, c as int) + 1,
                None => 0,
            }),
        {
            match cur {
                Some(p) => {
                    proof {
                        lemma_ancestor_shallower(nodes, p as int, idx as int);
                        lemma_rooted_step(nodes, p as int);
                    }
                    if self.nodes[p].size < size {
                        return false;
                    }
                    let next = self.nodes[p].parent;
                    proof {
                        if let Some(q) = next {
                            lemma_rooted_step(nodes, q as int);
                            if is_ancestor(nodes, p as int, q as int) {
                                lemma_ancestor_shallower(nodes, p as int, q as int);
                            }
                            lemma_ancestor_parent(nodes, p as int, idx as int);
                        }
                        assert forall|j: int| 0 <= j < nodes.len() implies
                            (pending(nodes, cur, j) && j != p) == pending(nodes, next, j) by {
                            assert(is_ancestor(nodes, j, p as int) == (match next {
                                Some(q) => q as int == j || is_ancestor(nodes, j, q as int),
                                None => false,
                            }));
                        }
                        assert forall|a: int|
                            #[trigger] is_ancestor(nodes, a, idx as int) && !pending(nodes, next, a)
                                implies nodes[a].size >= size by {
                            lemma_ancestor_shallower(nodes, a, idx as int);
                        }
                    }
                    cur = next;
                },
                None => {
                    return true;
                },
            }
        }
    }
}

/// `states` runs from one arena to the next through the removal of
/// `ids[0]`, `ids[1]`, ..., `ids[k - 1]`, each removable when its turn came.
pub open spec fn removal_chain(states: Seq<Seq<Node>>, ids: Seq<usize>, k: int) -> bool {
    &&& 0 <= k <= ids.len()
    &&& states.len() == k + 1
    &&& forall|m: int|
        0 <= m < k ==> removable(#[trigger] states[m], ids[m] as int) && is_removal(states[m], states[m + 1], ids[m] as int)
}

impl Tree {
    /// Removes the deleted nodes `ids` one after the other, stopping at the
    /// first that cannot be removed. Returns how many were removed.
    pub fn remove_deleted(&mut self, ids: &Vec<usize>) -> (done: usize)
        ensures
            final(self).root == old(self).root,
            final(self).root_path == old(self).root_path,
            exists|states: Seq<Seq<Node>>|
                #[trigger] removal_chain(states, ids@, done as int)
                    && states[0] == old(self).nodes@
                    && states[done as int] == final(self).nodes@,
            done < ids.len() ==> !removable(final(self).nodes@, ids@[done as int] as int),
    {
        let ghost mut states: Seq<Seq<Node>> = seq![self.nodes@];
        let n = ids.len();
        let mut k: usize = 0;
        while k < n
            invariant
                n == ids.len(),
                k <= n,
                self.root == old(self).root,
                self.root_path == old(self).root_path,
                removal_chain(states, ids@, k as int),
                states[0] == old(self).nodes@,
                states[k as int] == self.nodes@,
            decreases n - k,
        {
            let id = ids[k];
            if !self.can_remove(id) {
                return k;
            }
            let ghost before = self.nodes@;
            self.remove(id);
            proof {
                let s2 = states.push(self.nodes@);
                assert forall|m: int| 0 <= m < k + 1 implies removable(#[trigger] s2[m], ids@[m] as int)
                    && is_removal(s2[m], s2[m + 1], ids@[m] as int) by {
                    if m < k {
                        assert(s2[m] == states[m] && s2[m + 1] == states[m + 1]);
                    }
                }
                states = s2;
            }
            k = k + 1;
        }
        k
    }
}

/// Well-known virtual / system mount points that are not useful (and can be
/// dangerous, e.g. /proc) to walk into during a *quick* root scan. A "full
/// scan" skips this filter entirely.
pub const BANNED_ROOT_ENTRIES: [&'static str; 10] = [
    "dev", "proc", "sys", "run", "mnt", "cdrom", "media", "Volumes", "System", "snap",
];

/// Whether `name` is one of `BANNED_ROOT_ENTRIES`.
pub fn is_banned_root_entry(name: &str) -> (res: bool)
    ensures
        res == exists|k: int| 0 <= k < 10 && name@ == (#[trigger] BANNED_ROOT_ENTRIES@[k])@,
{
    let mut k: usize = 0;
    while k < 10
        invariant
            k <= 10,
            forall|j: int| 0 <= j < k ==> name@ != (#[trigger] BANNED_ROOT_ENTRIES@[j])@,
        decreases 10 - k,
    {
        if same_text(name, BANNED_ROOT_ENTRIES[k]) {
            return true;
        }
        k = k + 1;
    }
    false
}

/// Whether the scanner leaves out the entry `name` of the folder it reads:
/// only a quick scan of a disk root (a root scan that is not full) leaves
/// anything out, and only the banned top-level entries.
pub fn skips_entry(name: &str, is_top_level: bool, is_root_scan: bool, full: bool) -> (res: bool)
    ensures
        res == (is_top_level && is_root_scan && !full
            && exists|k: int| 0 <= k < 10 && name@ == (#[trigger] BANNED_ROOT_ENTRIES@[k])@),
{
    is_top_level && is_root_scan && !full && is_banned_root_entry(name)
}

/// What the scanner learns of an entry from its metadata.
pub enum EntryKind {
    /// Nothing is known: the scan was cancelled or the metadata could not be read.
    Unread,
    /// A symbolic link: not followed, to avoid cycles and double counting.
    Symlink,
    /// A folder: its entries are scanned next.
    Folder,
    /// Anything else, with its length in bytes.
    File(u64),
}

/// Records what the metadata says of entry `idx` and tells whether its
/// entries are to be scanned: a folder is marked as one and scanned; a file
/// takes its length as size; a link, or an entry not read, is left as it is. Nothing else changes.
pub fn record_entry(arena: &mut Vec<Node>, idx: usize, kind: EntryKind) -> (descend: bool)
    requires
        idx < old(arena)@.len(),
    ensures
        descend == (kind is Folder),
        final(arena)@.len() == old(arena)@.len(),
        forall|j: int| 0 <= j < old(arena)@.len() && j != idx ==> #[trigger] final(arena)@[j] == old(arena)@[j],
        final(arena)@[idx as int].name == old(arena)@[idx as int].name,
        final(arena)@[idx as int].parent == old(arena)@[idx as int].parent,
        final(arena)@[idx as int].children == old(arena)@[idx as int].children,
        final(arena)@[idx as int].is_dir == (old(arena)@[idx as int].is_dir || kind is Folder),
        final(arena)@[idx as int].size == (match kind {
            EntryKind::File(len) => len,
            _ => old(arena)@[idx as int].size,
        }),
{
    match kind {
        EntryKind::Unread | EntryKind::Symlink => false,
        EntryKind::Folder => {
            arena[idx].is_dir = true;
            true
        },
        EntryKind::File(len) => {
            arena[idx].size = len;
            false
        },
    }
}

/// The sizes of the nodes listed in `cs`, in order.
pub open spec fn child_sizes(nodes: Seq<Node>, cs: Seq<usize>) -> Seq<u64> {
    Seq::new(cs.len(), |k: int| nodes[cs[k] as int].size)
}

/// The total of a prefix of a list is at most the total of the list.
proof fn lemma_sum_prefix_le(nodes: Seq<Node>, cs: Seq<usize>, m: int)
    requires
        0 <= m <= cs.len(),
    ensures
        sum_sizes(nodes, cs.take(m)) <= sum_sizes(nodes, cs),
    decreases cs.len(),
{
    if m < cs.len() {
        assert(cs.drop_last().take(m) =~= cs.take(m));
        lemma_sum_prefix_le(nodes, cs.drop_last(), m);
    } else {
        assert(cs.take(m) =~= cs);
    }
}

/// Summing the sizes of a list's first `m` nodes one key at a time.
proof fn lemma_sum_range_sizes(nodes: Seq<Node>, cs: Seq<usize>, m: int)
    requires
        0 <= m <= cs.len(),
    ensures
        sum_range(child_sizes(nodes, cs), 0, m) == sum_sizes(nodes, cs.take(m)),
    decreases m,
{
    if m > 0 {
        lemma_sum_range_sizes(nodes, cs, m - 1);
        assert(cs.take(m).drop_last() =~= cs.take(m - 1));
    }
}

/// The total of a rearranged list, key by key.
proof fn lemma_sum_arranged(nodes: Seq<Node>, cs: Seq<usize>, order: Seq<usize>)
    requires
        forall|i: int| 0 <= i < order.len() ==> (#[trigger] order[i] as int) < cs.len(),
    ensures
        sum_sizes(nodes, arrange(cs, order)) == sum_at(child_sizes(nodes, cs), order),
    decreases order.len(),
{
    if order.len() > 0 {
        lemma_sum_arranged(nodes, cs, order.drop_last());
        assert(arrange(cs, order).drop_last() =~= arrange(cs, order.drop_last()));
    }
}

/// Pushes a fresh node for an entry about to be scanned: size 0, not yet a
/// folder, no children. Returns its index.
pub fn begin_node(arena: &mut Vec<Node>, parent: Option<usize>, name: String) -> (idx: usize)
    ensures
        idx == old(arena).len(),
        final(arena)@.len() == old(arena)@.len() + 1,
        final(arena)@.drop_last() == old(arena)@,
        final(arena)@[idx as int].name@ == name@,
        final(arena)@[idx as int].size == 0,
        !final(arena)@[idx as int].is_dir,
        final(arena)@[idx as int].parent == parent,
        final(arena)@[idx as int].children@.len() == 0,
{
    let idx = arena.len();
    arena.push(Node { name, size: 0, is_dir: false, parent, children: Vec::new() });
    assert(arena@.drop_last() =~= old(arena)@);
    idx
}

/// Completes folder `idx` once its entries are scanned: its children become
/// `children` ordered from the largest to the smallest (ties in scan order),
/// and its size their total. Nothing else changes.
pub fn finish_dir(arena: &mut Vec<Node>, idx: usize, children: Vec<usize>)
    requires
        idx < old(arena)@.len(),
        forall|k: int| 0 <= k < children@.len() ==> (#[trigger] children@[k] as int) < old(arena)@.len(),
        sum_sizes(old(arena)@, children@) <= u64::MAX,
    ensures
        final(arena)@.len() == old(arena)@.len(),
        forall|j: int| 0 <= j < old(arena)@.len() && j != idx ==> #[trigger] final(arena)@[j] == old(arena)@[j],
        final(arena)@[idx as int].name == old(arena)@[idx as int].name,
        final(arena)@[idx as int].is_dir == old(arena)@[idx as int].is_dir,
        final(arena)@[idx as int].parent == old(arena)@[idx as int].parent,
        final(arena)@[idx as int].size == sum_sizes(old(arena)@, children@),
        exists|order: Seq<usize>|
            is_desc_order(child_sizes(old(arena)@, children@), order)
                && final(arena)@[idx as int].children@ == arrange(children@, order),
        !children@.contains(idx) ==> final(arena)@[idx as int].size
            == sum_sizes(final(arena)@, final(arena)@[idx as int].children@),
{
    let ghost old_nodes = arena@;
    let n = children.len();
    let mut keys: Vec<u64> = Vec::new();
    let mut total: u64 = 0;
    let mut k: usize = 0;
    while k < n
        invariant
            arena@ == old_nodes,
            n == children.len(),
            k <= n,
            forall|j: int| 0 <= j < children@.len() ==> (#[trigger] children@[j] as int) < old_nodes.len(),
            sum_sizes(old_nodes, children@) <= u64::MAX,
            keys@.len() == k,
            forall|j: int| 0 <= j < k ==> #[trigger] keys@[j] == old_nodes[children@[j] as int].size,
            total == sum_sizes(old_nodes, children@.take(k as int)),
        decreases n - k,
    {
        let size = arena[children[k]].size;
        proof {
            assert(children@.take(k + 1).drop_last() =~= children@.take(k as int));
            lemma_sum_prefix_le(old_nodes, children@, k + 1);
        }
        keys.push(size);
        total = total + size;
        k = k + 1;
    }
    let ghost ks = child_sizes(old_nodes, children@);
    assert(keys@ =~= ks);
    let order = desc_order(&keys);
    let mut sorted: Vec<usize> = Vec::new();
    let mut i: usize = 0;
    while i < n
        invariant
            n == children.len(),
            n == order.len(),
            i <= n,
            is_desc_order(ks, order@),
            sorted@ == arrange(children@, order@.take(i as int)),
        decreases n - i,
    {
        proof {
            assert(arrange(children@, order@.take(i + 1)) =~= arrange(children@, order@.take(i as int)).push(children@[order@[i as int] as int]));
        }
        sorted.push(children[order[i]]);
        i = i + 1;
    }
    assert(order@.take(n as int) =~= order@);
    proof {
        lemma_sum_arranged(old_nodes, children@, order@);
        lemma_sum_range_sizes(old_nodes, children@, n as int);
        assert(children@.take(n as int) =~= children@);
    }
    arena[idx].children = sorted;
    arena[idx].size = total;
    proof {
        let srt = arena@[idx as int].children@;
        if !children@.contains(idx) {
            assert forall|j: int| 0 <= j < srt.len() implies arena@[#[trigger] srt[j] as int].size == old_nodes[srt[j] as int].size by {
                assert(srt[j] == children@[order@[j] as int]);
            }
            lemma_sum_same(old_nodes, arena@, srt);
        }
    }
}

} // verus!

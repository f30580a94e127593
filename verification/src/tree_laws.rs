//! Laws of the scanned tree: what `remove` keeps, when it can run, and how
//! removals combine.

use vstd::prelude::*;
use crate::order::{arrange, is_desc_order};
use crate::scan::{child_sizes, 
    ancestor_within, at_depth, attached, children_linked, depth, is_ancestor, is_removal,
    lemma_ancestor_parent, lemma_ancestor_shallower, lemma_depth_unique, lemma_rooted_step,
    lemma_sum_same, names_of, join_path, other_than, path_of, path_within, removable, rooted, sizes_add_up, sum_sizes, Node,
};

verus! {

/// A child is below its parent: the parent is its ancestor, one step nearer
/// the top, and the child is neither the parent nor an ancestor of it.
proof fn lemma_parent_above(nodes: Seq<Node>, c: int, i: int)
    requires
        rooted(nodes, c),
        nodes[c].parent matches Some(p) && p as int == i,
    ensures
        is_ancestor(nodes, i, c),
        rooted(nodes, i),
        depth(nodes, i) + 1 == depth(nodes, c),
        c != i,
        !is_ancestor(nodes, c, i),
{
    lemma_rooted_step(nodes, c);
    if is_ancestor(nodes, c, i) {
        lemma_ancestor_shallower(nodes, c, i);
    }
}

/// Ancestors of one node lie on one chain: of two of them, one is an
/// ancestor of the other.
proof fn lemma_ancestors_linear(nodes: Seq<Node>, a: int, b: int, x: int)
    requires
        rooted(nodes, x),
        is_ancestor(nodes, a, x),
        is_ancestor(nodes, b, x),
    ensures
        a == b || is_ancestor(nodes, a, b) || is_ancestor(nodes, b, a),
    decreases depth(nodes, x),
{
    lemma_rooted_step(nodes, x);
    let p = nodes[x].parent->0 as int;
    if a != p && b != p {
        lemma_ancestors_linear(nodes, a, b, p);
    }
}

/// An ancestor of an ancestor is an ancestor.
proof fn lemma_ancestor_trans(nodes: Seq<Node>, a: int, b: int, x: int)
    requires
        rooted(nodes, x),
        is_ancestor(nodes, a, b),
        is_ancestor(nodes, b, x),
    ensures
        is_ancestor(nodes, a, x),
    decreases depth(nodes, x),
{
    lemma_rooted_step(nodes, x);
    let p = nodes[x].parent->0 as int;
    if p != b {
        lemma_ancestor_trans(nodes, a, b, p);
    }
}

/// If `i` is an ancestor of `x` but not its parent, some ancestor of `x`
/// has `i` as its parent.
proof fn lemma_path_child(nodes: Seq<Node>, i: int, x: int) -> (b: int)
    requires
        nodes.len() <= usize::MAX,
        rooted(nodes, x),
        is_ancestor(nodes, i, x),
        !(nodes[x].parent matches Some(p) && p as int == i),
    ensures
        is_ancestor(nodes, b, x),
        nodes[b].parent matches Some(p) && p as int == i,
    decreases depth(nodes, x),
{
    lemma_rooted_step(nodes, x);
    let p = nodes[x].parent->0 as int;
    lemma_rooted_step(nodes, p);
    if nodes[p].parent matches Some(q) && q as int == i {
        p
    } else {
        let b = lemma_path_child(nodes, i, p);
        lemma_ancestor_trans(nodes, b, p, x);
        b
    }
}

/// Every ancestor of an attached node is attached.
proof fn lemma_attached_up(nodes: Seq<Node>, b: int, x: int)
    requires
        rooted(nodes, x),
        attached(nodes, x),
        is_ancestor(nodes, b, x),
    ensures
        attached(nodes, b),
    decreases depth(nodes, x),
{
    lemma_rooted_step(nodes, x);
    let p = nodes[x].parent->0 as int;
    if p != b {
        lemma_attached_up(nodes, b, p);
    }
}

/// A list's total is at least the size of any node it lists.
proof fn lemma_sum_ge_member(nodes: Seq<Node>, cs: Seq<usize>, k: int)
    requires
        0 <= k < cs.len(),
    ensures
        sum_sizes(nodes, cs) >= nodes[cs[k] as int].size,
        sum_sizes(nodes, cs) >= 0,
    decreases cs.len(),
{
    if k < cs.len() - 1 {
        assert(cs.drop_last()[k] == cs[k]);
        lemma_sum_ge_member(nodes, cs.drop_last(), k);
    } else if cs.len() > 1 {
        lemma_sum_ge_member(nodes, cs.drop_last(), 0);
    } else {
        assert(cs.drop_last().len() == 0);
        assert(sum_sizes(nodes, cs.drop_last()) == 0);
    }
}

/// The total of a duplicate-free list drops by `d` when one listed node
/// shrinks by `d` and the others keep their sizes.
proof fn lemma_sum_one_changed(old: Seq<Node>, new: Seq<Node>, cs: Seq<usize>, b: usize, d: int)
    requires
        cs.no_duplicates(),
        cs.contains(b),
        new[b as int].size == old[b as int].size - d,
        forall|k: int| 0 <= k < cs.len() && cs[k] != b ==> new[#[trigger] cs[k] as int].size == old[cs[k] as int].size,
    ensures
        sum_sizes(new, cs) == sum_sizes(old, cs) - d,
    decreases cs.len(),
{
    let init = cs.drop_last();
    if cs.last() == b {
        assert forall|k: int| 0 <= k < init.len() implies new[#[trigger] init[k] as int].size == old[init[k] as int].size by {
            assert(init[k] == cs[k]);
            assert(cs[k] != cs[cs.len() - 1]);
        }
        lemma_sum_same(old, new, init);
    } else {
        let j = choose|j: int| 0 <= j < cs.len() && cs[j] == b;
        assert(init[j] == b);
        assert(init.no_duplicates());
        lemma_sum_one_changed(old, new, init, b, d);
    }
}

/// Every element of a filtered list is in the list.
proof fn lemma_filter_subset(cs: Seq<usize>, x: usize)
    ensures
        forall|k: int| 0 <= k < cs.filter(other_than(x)).len()
            ==> cs.contains(#[trigger] cs.filter(other_than(x))[k]),
        cs.no_duplicates() ==> cs.filter(other_than(x)).no_duplicates(),
    decreases cs.len(),
{
    reveal_with_fuel(Seq::<_>::filter, 1);
    if cs.len() > 0 {
        let init = cs.drop_last();
        lemma_filter_subset(init, x);
        let f = cs.filter(other_than(x));
        let fi = init.filter(other_than(x));
        assert forall|k: int| 0 <= k < f.len() implies cs.contains(#[trigger] f[k]) by {
            if k < fi.len() {
                let j = choose|j: int| 0 <= j < init.len() && init[j] == fi[k];
                assert(cs[j] == f[k]);
            } else {
                assert(cs[cs.len() - 1] == f[k]);
            }
        }
        if cs.no_duplicates() {
            assert(init.no_duplicates());
            if other_than(x)(cs.last()) {
                assert forall|k: int| 0 <= k < fi.len() implies fi[k] != cs.last() by {
                    let j = choose|j: int| 0 <= j < init.len() && init[j] == fi[k];
                    assert(cs[j] == init[j]);
                }
            }
        }
    }
}

/// Leaving `x` out of a duplicate-free list that holds it takes `x`'s size
/// off the total.
proof fn lemma_sum_filter(nodes: Seq<Node>, cs: Seq<usize>, x: usize)
    requires
        cs.no_duplicates(),
    ensures
        sum_sizes(nodes, cs.filter(other_than(x))) == sum_sizes(nodes, cs) - (if cs.contains(x) {
            nodes[x as int].size as int
        } else {
            0
        }),
    decreases cs.len(),
{
    reveal_with_fuel(Seq::<_>::filter, 1);
    if cs.len() > 0 {
        let init = cs.drop_last();
        assert(init.no_duplicates());
        lemma_sum_filter(nodes, init, x);
        if cs.last() == x {
            assert(!init.contains(x)) by {
                if init.contains(x) {
                    let j = choose|j: int| 0 <= j < init.len() && init[j] == x;
                    assert(cs[j] == cs[cs.len() - 1]);
                }
            }
        } else {
            assert(cs.contains(x) == init.contains(x)) by {
                if cs.contains(x) {
                    let j = choose|j: int| 0 <= j < cs.len() && cs[j] == x;
                    assert(init[j] == x);
                }
            }
            assert(cs.filter(other_than(x)).drop_last() == init.filter(other_than(x)));
        }
    }
}

/// Removing one node keeps, in the other, every reading of the chains of
/// parents: which nodes are rooted, at what depth, with which ancestors and
/// which paths.
pub proof fn lemma_same_links(old: Seq<Node>, new: Seq<Node>, i: int)
    requires
        new.len() == old.len(),
        forall|j: int| 0 <= j < old.len() ==> #[trigger] new[j].parent == old[j].parent && new[j].name == old[j].name,
    ensures
        rooted(new, i) == rooted(old, i),
        rooted(old, i) ==> depth(new, i) == depth(old, i),
        rooted(old, i) ==> forall|a: int| #[trigger] is_ancestor(new, a, i) == is_ancestor(old, a, i),
        rooted(old, i) ==> forall|r: Seq<char>| #[trigger] path_of(new, r, i) == path_of(old, r, i),
{
    assert forall|d: nat| at_depth(new, i, d) == at_depth(old, i, d) by {
        lemma_same_at_depth(old, new, i, d);
    }
    if rooted(old, i) {
        let d = depth(old, i);
        assert(at_depth(new, i, d));
        lemma_depth_unique(new, i, depth(new, i), d);
        assert forall|a: int| #[trigger] is_ancestor(new, a, i) == is_ancestor(old, a, i) by {
            lemma_same_within(old, new, a, i, d);
        }
        assert forall|r: Seq<char>| #[trigger] path_of(new, r, i) == path_of(old, r, i) by {
            lemma_same_path_within(old, new, r, i, d);
        }
    } else if rooted(new, i) {
        assert(at_depth(old, i, depth(new, i)));
    }
}

proof fn lemma_same_at_depth(old: Seq<Node>, new: Seq<Node>, i: int, d: nat)
    requires
        new.len() == old.len(),
        forall|j: int| 0 <= j < old.len() ==> #[trigger] new[j].parent == old[j].parent && new[j].name == old[j].name,
    ensures
        at_depth(new, i, d) == at_depth(old, i, d),
    decreases d,
{
    if 0 <= i < old.len() {
        assert(new[i].parent == old[i].parent);
        if let Some(p) = old[i].parent {
            if d > 0 {
                lemma_same_at_depth(old, new, p as int, (d - 1) as nat);
            }
        }
    }
}

proof fn lemma_same_within(old: Seq<Node>, new: Seq<Node>, a: int, i: int, d: nat)
    requires
        new.len() == old.len(),
        forall|j: int| 0 <= j < old.len() ==> #[trigger] new[j].parent == old[j].parent && new[j].name == old[j].name,
    ensures
        ancestor_within(new, a, i, d) == ancestor_within(old, a, i, d),
    decreases d,
{
    if d > 0 && 0 <= i < old.len() {
        assert(new[i].parent == old[i].parent);
        if let Some(p) = old[i].parent {
            lemma_same_within(old, new, a, p as int, (d - 1) as nat);
        }
    }
}

proof fn lemma_same_path_within(old: Seq<Node>, new: Seq<Node>, r: Seq<char>, i: int, d: nat)
    requires
        new.len() == old.len(),
        forall|j: int| 0 <= j < old.len() ==> #[trigger] new[j].parent == old[j].parent && new[j].name == old[j].name,
    ensures
        path_within(new, r, i, d) == path_within(old, r, i, d),
    decreases d,
{
    if d > 0 && 0 <= i < old.len() {
        assert(new[i].parent == old[i].parent && new[i].name == old[i].name);
        if let Some(p) = old[i].parent {
            lemma_same_path_within(old, new, r, p as int, (d - 1) as nat);
        }
    }
}

/// In a tree where every node with children is as large as they are
/// together, a rooted node that its parent and every further ancestor still
/// list is no larger than any ancestor, so it can be removed.
pub proof fn lemma_attached_removable(nodes: Seq<Node>, idx: int)
    requires
        children_linked(nodes),
        sizes_add_up(nodes),
        nodes.len() <= usize::MAX,
        rooted(nodes, idx),
        attached(nodes, idx),
    ensures
        removable(nodes, idx),
    decreases depth(nodes, idx),
{
    lemma_rooted_step(nodes, idx);
    assert forall|a: int| #[trigger] is_ancestor(nodes, a, idx) implies nodes[a].size >= nodes[idx].size by {
        let p = nodes[idx].parent->0 as int;
        let cs = nodes[p].children@;
        assert(cs.contains(idx as usize));
        let k = choose|k: int| 0 <= k < cs.len() && cs[k] == idx as usize;
        assert(nodes[p] == nodes[p]);
        lemma_sum_ge_member(nodes, cs, k);
        assert(nodes[p].size >= nodes[idx].size);
        if a != p {
            lemma_attached_removable(nodes, p);
            assert(nodes[a].size >= nodes[p].size);
        }
    }
}

/// Removing a rooted, attached node keeps the tree consistent: child lists
/// still name their children's parent without repeats, and every node with
/// children is still exactly as large as its children together.
pub proof fn lemma_remove_keeps_consistency(old: Seq<Node>, new: Seq<Node>, idx: int)
    requires
        children_linked(old),
        sizes_add_up(old),
        old.len() <= usize::MAX,
        rooted(old, idx),
        attached(old, idx),
        is_removal(old, new, idx),
    ensures
        children_linked(new),
        sizes_add_up(new),
{
    let ghost size = old[idx].size as int;
    lemma_rooted_step(old, idx);
    assert forall|i: int| #![trigger new[i]] 0 <= i < new.len() implies {
        &&& new[i].children@.no_duplicates()
        &&& forall|k: int|
            0 <= k < new[i].children@.len() ==> {
                &&& (#[trigger] new[i].children@[k] as int) < new.len()
                &&& new[new[i].children@[k] as int].parent == Some(i as usize)
            }
    } by {
        assert(old[i] == old[i]);
        lemma_filter_subset(old[i].children@, idx as usize);
        assert forall|k: int| 0 <= k < new[i].children@.len() implies {
            &&& (#[trigger] new[i].children@[k] as int) < new.len()
            &&& new[new[i].children@[k] as int].parent == Some(i as usize)
        } by {
            let c = new[i].children@[k];
            assert(old[i].children@.contains(c));
            let j = choose|j: int| 0 <= j < old[i].children@.len() && old[i].children@[j] == c;
            assert(old[i].children@[j] == c);
            assert(new[c as int].parent == old[c as int].parent);
        }
    }
    assert forall|i: int|
        #![trigger new[i]]
        0 <= i < new.len() && new[i].children@.len() > 0
            implies new[i].size == sum_sizes(new, new[i].children@) by {
        assert(old[i] == old[i]);
        let cs = old[i].children@;
        if i != idx {
            assert(cs.len() > 0) by {
                assert(cs.filter(other_than(idx as usize)).len() <= cs.len());
            }
            assert(old[i].size == sum_sizes(old, cs));
            if old[idx].parent matches Some(p) && p as int == i {
                let f = cs.filter(other_than(idx as usize));
                lemma_filter_subset(cs, idx as usize);
                assert forall|k: int| 0 <= k < f.len() implies new[#[trigger] f[k] as int].size == old[f[k] as int].size by {
                    let c = f[k];
                    assert(cs.contains(c));
                    let j = choose|j: int| 0 <= j < cs.len() && cs[j] == c;
                    assert(old[cs[j] as int].parent == Some(i as usize));
                    assert(other_than(idx as usize)(c));
                    if is_ancestor(old, c as int, idx) {
                        lemma_ancestor_shallower(old, c as int, idx);
                        lemma_parent_above(old, c as int, i);
                        lemma_ancestors_linear(old, c as int, i, idx);
                        if is_ancestor(old, i, c as int) {
                            lemma_ancestor_shallower(old, i, c as int);
                        }
                    }
                }
                lemma_sum_same(old, new, f);
                lemma_sum_filter(old, cs, idx as usize);
            } else if is_ancestor(old, i, idx) {
                // Exactly one child of `i` is on the way up from `idx`.
                let b = lemma_path_child(old, i, idx);
                lemma_ancestor_shallower(old, b, idx);
                lemma_attached_up(old, b, idx);
                lemma_rooted_step(old, b);
                assert(cs.contains(b as usize));
                assert forall|k: int| 0 <= k < cs.len() && cs[k] != b as usize implies
                    new[#[trigger] cs[k] as int].size == old[cs[k] as int].size by {
                    let c = cs[k] as int;
                    assert(old[c].parent == Some(i as usize));
                    if c == idx {
                    } else if is_ancestor(old, c, idx) {
                        lemma_ancestor_shallower(old, c, idx);
                        lemma_parent_above(old, c, i);
                        lemma_parent_above(old, b, i);
                        lemma_rooted_step(old, c);
                        lemma_ancestors_linear(old, c, b, idx);
                    }
                }
                lemma_sum_one_changed(old, new, cs, b as usize, size);
            } else {
                assert forall|k: int| 0 <= k < cs.len() implies new[#[trigger] cs[k] as int].size == old[cs[k] as int].size by {
                    let c = cs[k];
                    assert(old[c as int].parent == Some(i as usize));
                    if c as int == idx {
                    } else if is_ancestor(old, c as int, idx) {
                        lemma_ancestor_parent(old, c as int, idx);
                    }
                }
                lemma_sum_same(old, new, cs);
            }
        }
    }
}

/// Removing a node changes no chain of parents: every node stays rooted or
/// not as it was, and every rooted node keeps its path.
pub proof fn lemma_remove_keeps_paths(old: Seq<Node>, new: Seq<Node>, idx: int, root_path: Seq<char>, i: int)
    requires
        is_removal(old, new, idx),
    ensures
        rooted(new, i) == rooted(old, i),
        rooted(old, i) ==> path_of(new, root_path, i) == path_of(old, root_path, i),
{
    assert forall|j: int| 0 <= j < old.len() implies #[trigger] new[j].parent == old[j].parent && new[j].name == old[j].name by {
        assert(new[j].parent == old[j].parent);
    }
    lemma_same_links(old, new, i);
}

/// Two arenas hold the same nodes: same names, kinds, parents, sizes and
/// child lists.
pub open spec fn same_nodes(a: Seq<Node>, b: Seq<Node>) -> bool {
    &&& a.len() == b.len()
    &&& forall|j: int|
        #![trigger a[j], b[j]]
        0 <= j < a.len() ==> {
            &&& a[j].name == b[j].name
            &&& a[j].is_dir == b[j].is_dir
            &&& a[j].parent == b[j].parent
            &&& a[j].size == b[j].size
            &&& a[j].children@ == b[j].children@
        }
}

proof fn lemma_filter_empty(x: usize)
    ensures
        Seq::<usize>::empty().filter(other_than(x)) == Seq::<usize>::empty(),
{
    reveal_with_fuel(Seq::<_>::filter, 1);
}

/// Leaving out `x` twice leaves out the same as once; leaving out `x` and
/// `y` does not depend on the order.
proof fn lemma_filter_twice(cs: Seq<usize>, x: usize, y: usize)
    ensures
        cs.filter(other_than(x)).filter(other_than(x)) == cs.filter(other_than(x)),
        cs.filter(other_than(x)).filter(other_than(y)) == cs.filter(other_than(y)).filter(other_than(x)),
    decreases cs.len(),
{
    reveal_with_fuel(Seq::<_>::filter, 1);
    if cs.len() > 0 {
        let init = cs.drop_last();
        lemma_filter_twice(init, x, y);
        let l = cs.last();
        let fx = cs.filter(other_than(x));
        let fy = cs.filter(other_than(y));
        if l != x {
            assert(fx.drop_last() == init.filter(other_than(x)));
            assert(fx.last() == l);
        }
        if l != y {
            assert(fy.drop_last() == init.filter(other_than(y)));
            assert(fy.last() == l);
        }
    }
}

/// Removing a node a second time changes nothing more: its ancestors lose
/// its size again, which is now 0, and its parent's list no longer holds it.
pub proof fn lemma_remove_twice(t0: Seq<Node>, t1: Seq<Node>, t2: Seq<Node>, idx: int)
    requires
        rooted(t0, idx),
        is_removal(t0, t1, idx),
        is_removal(t1, t2, idx),
    ensures
        same_nodes(t1, t2),
{
    assert forall|j: int| 0 <= j < t0.len() implies #[trigger] t1[j].parent == t0[j].parent && t1[j].name == t0[j].name by {
        assert(t1[j].parent == t0[j].parent);
    }
    lemma_same_links(t0, t1, idx);
    assert forall|j: int| 0 <= j < t1.len() implies {
        &&& #[trigger] t1[j].name == t2[j].name
        &&& t1[j].is_dir == t2[j].is_dir
        &&& t1[j].parent == t2[j].parent
        &&& t1[j].size == t2[j].size
        &&& t1[j].children@ == t2[j].children@
    } by {
        assert(t2[j] == t2[j]);
        assert(t1[idx] == t1[idx]);
        if j != idx {
            if t0[idx].parent matches Some(p) && p as int == j {
                lemma_filter_twice(t0[j].children@, idx as usize, idx as usize);
            }
        }
    }
}

/// Removing two nodes, neither an ancestor of the other, gives the same tree
/// in either order.
pub proof fn lemma_removals_commute(
    t0: Seq<Node>,
    ti: Seq<Node>,
    tij: Seq<Node>,
    tj: Seq<Node>,
    tji: Seq<Node>,
    i: int,
    j: int,
)
    requires
        rooted(t0, i),
        rooted(t0, j),
        i != j,
        !is_ancestor(t0, i, j),
        !is_ancestor(t0, j, i),
        is_removal(t0, ti, i),
        is_removal(ti, tij, j),
        is_removal(t0, tj, j),
        is_removal(tj, tji, i),
    ensures
        same_nodes(tij, tji),
{
    assert forall|k: int| 0 <= k < t0.len() implies #[trigger] ti[k].parent == t0[k].parent && ti[k].name == t0[k].name by {
        assert(ti[k].parent == t0[k].parent);
    }
    assert forall|k: int| 0 <= k < t0.len() implies #[trigger] tj[k].parent == t0[k].parent && tj[k].name == t0[k].name by {
        assert(tj[k].parent == t0[k].parent);
    }
    lemma_same_links(t0, ti, j);
    lemma_same_links(t0, tj, i);
    assert(ti[j] == ti[j] && tj[i] == tj[i]);
    assert forall|x: int| 0 <= x < tij.len() implies {
        &&& #[trigger] tij[x].name == tji[x].name
        &&& tij[x].is_dir == tji[x].is_dir
        &&& tij[x].parent == tji[x].parent
        &&& tij[x].size == tji[x].size
        &&& tij[x].children@ == tji[x].children@
    } by {
        assert(tij[x] == tij[x] && tji[x] == tji[x] && ti[x] == ti[x] && tj[x] == tj[x]);
        lemma_filter_empty(i as usize);
        lemma_filter_empty(j as usize);
        if x != i && x != j {
            lemma_filter_twice(t0[x].children@, i as usize, j as usize);
        }
    }
}

/// Joins `names` onto `base` one by one, first name first.
pub open spec fn join_all(base: Seq<char>, names: Seq<Seq<char>>) -> Seq<char>
    decreases names.len(),
{
    if names.len() == 0 {
        base
    } else {
        join_path(join_all(base, names.drop_last()), names.last())
    }
}

/// A node's path is its root path with the names leading down to it joined
/// on one by one: `full_path` and `path_names` tell the same path.
pub proof fn lemma_path_is_joined_names(nodes: Seq<Node>, root_path: Seq<char>, i: int)
    requires
        rooted(nodes, i),
    ensures
        path_of(nodes, root_path, i) == join_all(root_path, names_of(nodes, i)),
    decreases depth(nodes, i),
{
    lemma_rooted_step(nodes, i);
    if let Some(p) = nodes[i].parent {
        lemma_path_is_joined_names(nodes, root_path, p as int);
        assert(names_of(nodes, i).drop_last() =~= names_of(nodes, p as int));
    }
}

/// Pushing a fresh node, as `begin_node` does, keeps the tree consistent.
pub proof fn lemma_begin_keeps_consistency(old: Seq<Node>, new: Seq<Node>)
    requires
        children_linked(old),
        sizes_add_up(old),
        new.len() == old.len() + 1,
        new.drop_last() == old,
        new.last().children@.len() == 0,
    ensures
        children_linked(new),
        sizes_add_up(new),
{
    assert forall|j: int| 0 <= j < old.len() implies #[trigger] new[j] == old[j] by {
        assert(new.drop_last()[j] == new[j]);
    }
    assert forall|j: int| 0 <= j < old.len() && old[j].children@.len() > 0
        implies sum_sizes(new, old[j].children@) == sum_sizes(old, old[j].children@) by {
        assert(old[j] == old[j]);
        lemma_sum_same(old, new, old[j].children@);
    }
    assert(new[old.len() as int] == new.last());
}

/// Completing a folder, as `finish_dir` does, keeps the tree consistent
/// when the folder is not yet listed anywhere and its children are distinct
/// nodes whose parent it is.
pub proof fn lemma_completion_keeps_consistency(
    old: Seq<Node>,
    new: Seq<Node>,
    idx: int,
    children: Seq<usize>,
    order: Seq<usize>,
)
    requires
        children_linked(old),
        sizes_add_up(old),
        0 <= idx < old.len(),
        children.no_duplicates(),
        forall|k: int| 0 <= k < children.len() ==> (#[trigger] children[k] as int) < old.len()
            && old[children[k] as int].parent == Some(idx as usize),
        !children.contains(idx as usize),
        forall|j: int| 0 <= j < old.len() ==> !(#[trigger] old[j].children@.contains(idx as usize)),
        new.len() == old.len(),
        forall|j: int| 0 <= j < old.len() && j != idx ==> #[trigger] new[j] == old[j],
        is_desc_order(child_sizes(old, children), order),
        new[idx].children@ == arrange(children, order),
        new[idx].size == sum_sizes(new, new[idx].children@),
    ensures
        children_linked(new),
        sizes_add_up(new),
{
    let cs = new[idx].children@;
    assert forall|k: int| 0 <= k < cs.len() implies children.contains(#[trigger] cs[k]) by {
        assert(cs[k] == children[order[k] as int]);
    }
    assert(cs.no_duplicates()) by {
        assert forall|a: int, b: int| 0 <= a < cs.len() && 0 <= b < cs.len() && a != b implies cs[a] != cs[b] by {
            if a < b {
                assert(crate::order::precedes(child_sizes(old, children), order[a] as int, order[b] as int));
            } else {
                assert(crate::order::precedes(child_sizes(old, children), order[b] as int, order[a] as int));
            }
            assert(cs[a] == children[order[a] as int]);
            assert(cs[b] == children[order[b] as int]);
        }
    }
    assert forall|i: int| #![trigger new[i]] 0 <= i < new.len() implies {
        &&& new[i].children@.no_duplicates()
        &&& forall|k: int|
            0 <= k < new[i].children@.len() ==> {
                &&& (#[trigger] new[i].children@[k] as int) < new.len()
                &&& new[new[i].children@[k] as int].parent == Some(i as usize)
            }
    } by {
        assert(old[i] == old[i]);
        if i == idx {
            assert forall|k: int| 0 <= k < cs.len() implies {
                &&& (#[trigger] cs[k] as int) < new.len()
                &&& new[cs[k] as int].parent == Some(i as usize)
            } by {
                assert(children.contains(cs[k]));
                let m = choose|m: int| 0 <= m < children.len() && children[m] == cs[k];
                assert(children[m] as int != idx);
            }
        } else {
            assert forall|k: int| 0 <= k < new[i].children@.len() implies {
                &&& (#[trigger] new[i].children@[k] as int) < new.len()
                &&& new[new[i].children@[k] as int].parent == Some(i as usize)
            } by {
                let c = new[i].children@[k];
                assert(old[i].children@[k] == c);
                if c as int == idx {
                    assert(old[i].children@.contains(idx as usize));
                }
            }
        }
    }
    assert forall|i: int|
        #![trigger new[i]]
        0 <= i < new.len() && new[i].children@.len() > 0
            implies new[i].size == sum_sizes(new, new[i].children@) by {
        if i != idx {
            assert(old[i] == old[i]);
            let l = old[i].children@;
            assert forall|k: int| 0 <= k < l.len() implies new[#[trigger] l[k] as int].size == old[l[k] as int].size by {
                if l[k] as int == idx {
                    assert(l.contains(idx as usize));
                }
            }
            lemma_sum_same(old, new, l);
        }
    }
}

} // verus!

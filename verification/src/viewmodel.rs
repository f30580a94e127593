//! The entries shown for a focused folder: one per child large enough to be
//! worth its own cell, plus one bucket for all smaller children.

use vstd::prelude::*;
use crate::order::{arrange, desc_order, is_desc_order, lemma_desc_order_covers, sum_at, sum_range};
use crate::scan::{sum_sizes, Node, Tree};

verus! {

/// One entry shown in either the treemap or the sidebar file list.
/// `node_id` is a real arena index, or `-1` for the synthetic "Smaller
/// items" bucket that aggregates children too small to be worth their own
/// cell.
pub struct DisplayEntry {
    pub node_id: i32,
    pub name: String,
    pub size: u64,
    pub is_dir: bool,
}

/// What an entry shows: node id, name, size and whether it is a folder.
pub type EntryView = (i32, Seq<char>, u64, bool);

impl View for DisplayEntry {
    type V = EntryView;

    open spec fn view(&self) -> EntryView {
        (self.node_id, self.name@, self.size, self.is_dir)
    }
}

/// The size that a child is measured against: the focused folder's size, or
/// 1 for an empty folder.
pub open spec fn focus_total(nodes: Seq<Node>, focus: int) -> int {
    if nodes[focus].size == 0 {
        1
    } else {
        nodes[focus].size as int
    }
}

/// A child gets a cell of its own when it is non-empty and more than one
/// hundredth of the folder.
pub open spec fn gets_own_cell(size: u64, total: int) -> bool {
    size > 0 && 100 * size > total
}

/// A child goes into the bucket when it is non-empty but at most one
/// hundredth of the folder.
pub open spec fn goes_to_bucket(size: u64, total: int) -> bool {
    size > 0 && 100 * size <= total
}

/// The entry for node `c`.
pub open spec fn entry_of(nodes: Seq<Node>, c: usize) -> EntryView {
    (c as i32, nodes[c as int].name@, nodes[c as int].size, nodes[c as int].is_dir)
}

/// The entries of the children in `cs` that get a cell of their own, in order.
pub open spec fn own_cells(nodes: Seq<Node>, cs: Seq<usize>, total: int) -> Seq<EntryView>
    decreases cs.len(),
{
    if cs.len() == 0 {
        Seq::empty()
    } else {
        let rest = own_cells(nodes, cs.drop_last(), total);
        if gets_own_cell(nodes[cs.last() as int].size, total) {
            rest.push(entry_of(nodes, cs.last()))
        } else {
            rest
        }
    }
}

/// How many children in `cs` go into the bucket.
pub open spec fn bucket_count(nodes: Seq<Node>, cs: Seq<usize>, total: int) -> nat
    decreases cs.len(),
{
    if cs.len() == 0 {
        0
    } else {
        bucket_count(nodes, cs.drop_last(), total) + if goes_to_bucket(nodes[cs.last() as int].size, total) {
            1nat
        } else {
            0nat
        }
    }
}

/// The total size of the children in `cs` that go into the bucket.
pub open spec fn bucket_size(nodes: Seq<Node>, cs: Seq<usize>, total: int) -> int
    decreases cs.len(),
{
    if cs.len() == 0 {
        0
    } else {
        bucket_size(nodes, cs.drop_last(), total) + if goes_to_bucket(nodes[cs.last() as int].size, total) {
            nodes[cs.last() as int].size as int
        } else {
            0
        }
    }
}

/// The digit character for `d < 10`.
pub open spec fn digit_char(d: nat) -> char {
    if d == 0 { '0' }
    else if d == 1 { '1' }
    else if d == 2 { '2' }
    else if d == 3 { '3' }
    else if d == 4 { '4' }
    else if d == 5 { '5' }
    else if d == 6 { '6' }
    else if d == 7 { '7' }
    else if d == 8 { '8' }
    else { '9' }
}

/// `n` in decimal, without leading zeros.
pub open spec fn decimal(n: nat) -> Seq<char>
    decreases n,
{
    if n < 10 {
        seq![digit_char(n)]
    } else {
        decimal(n / 10).push(digit_char(n % 10))
    }
}

/// The bucket's name: `Smaller items (count)`.
pub open spec fn bucket_name(count: nat) -> Seq<char> {
    "Smaller items ("@ + decimal(count) + ")"@
}

/// The entries of folder `focus` before ordering: the children with a cell of
/// their own in child order, then the bucket if any child went into it.
pub open spec fn unordered_entries(nodes: Seq<Node>, focus: int) -> Seq<EntryView> {
    let cs = nodes[focus].children@;
    let total = focus_total(nodes, focus);
    let count = bucket_count(nodes, cs, total);
    own_cells(nodes, cs, total) + if count > 0 {
        seq![(-1i32, bucket_name(count), bucket_size(nodes, cs, total) as u64, false)]
    } else {
        Seq::empty()
    }
}

/// The sizes of the entries, in order.
pub open spec fn entry_sizes(es: Seq<EntryView>) -> Seq<u64> {
    Seq::new(es.len(), |i: int| es[i].2)
}

/// A one-digit text for `d < 10`.
fn digit_text(d: u32) -> (s: &'static str)
    requires
        d < 10,
    ensures
        s@ == seq![digit_char(d as nat)],
{
    proof {
        reveal_strlit("0");
        reveal_strlit("1");
        reveal_strlit("2");
        reveal_strlit("3");
        reveal_strlit("4");
        reveal_strlit("5");
        reveal_strlit("6");
        reveal_strlit("7");
        reveal_strlit("8");
        reveal_strlit("9");
    }
    let s = if d == 0 { "0" }
    else if d == 1 { "1" }
    else if d == 2 { "2" }
    else if d == 3 { "3" }
    else if d == 4 { "4" }
    else if d == 5 { "5" }
    else if d == 6 { "6" }
    else if d == 7 { "7" }
    else if d == 8 { "8" }
    else { "9" };
    assert(s@ =~= seq![digit_char(d as nat)]);
    s
}

/// `n` written in decimal.
pub fn decimal_text(n: u32) -> (s: String)
    ensures
        s@ == decimal(n as nat),
    decreases n,
{
    if n < 10 {
        String::from_str(digit_text(n))
    } else {
        let mut s = decimal_text(n / 10);
        s.append(digit_text(n % 10));
        s
    }
}

/// Facts about the sums over a longer prefix of the children.
proof fn lemma_step(nodes: Seq<Node>, cs: Seq<usize>, total: int, k: int)
    requires
        0 <= k < cs.len(),
    ensures
        own_cells(nodes, cs.take(k + 1), total) == (if gets_own_cell(nodes[cs[k] as int].size, total) {
            own_cells(nodes, cs.take(k), total).push(entry_of(nodes, cs[k]))
        } else {
            own_cells(nodes, cs.take(k), total)
        }),
        bucket_count(nodes, cs.take(k + 1), total) == bucket_count(nodes, cs.take(k), total) + (if goes_to_bucket(nodes[cs[k] as int].size, total) { 1nat } else { 0nat }),
        bucket_size(nodes, cs.take(k + 1), total) == bucket_size(nodes, cs.take(k), total) + (if goes_to_bucket(nodes[cs[k] as int].size, total) { nodes[cs[k] as int].size as int } else { 0 }),
        sum_sizes(nodes, cs.take(k + 1)) == sum_sizes(nodes, cs.take(k)) + nodes[cs[k] as int].size,
{
    assert(cs.take(k + 1).drop_last() =~= cs.take(k));
}

/// A prefix goes into the bucket no more, in count and size, than the whole.
proof fn lemma_bucket_prefix(nodes: Seq<Node>, cs: Seq<usize>, total: int, k: int)
    requires
        0 <= k <= cs.len(),
    ensures
        bucket_count(nodes, cs.take(k), total) <= bucket_count(nodes, cs, total),
        bucket_size(nodes, cs.take(k), total) <= bucket_size(nodes, cs, total),
        0 <= bucket_size(nodes, cs.take(k), total),
    decreases cs.len() - k,
{
    lemma_bucket_nonneg(nodes, cs.take(k), total);
    if k < cs.len() {
        lemma_step(nodes, cs, total, k);
        lemma_bucket_prefix(nodes, cs, total, k + 1);
    } else {
        assert(cs.take(k) =~= cs);
        lemma_bucket_nonneg(nodes, cs, total);
    }
}

/// Nothing went into the bucket, so it holds no bytes.
proof fn lemma_bucket_empty(nodes: Seq<Node>, cs: Seq<usize>, total: int)
    requires
        bucket_count(nodes, cs, total) == 0,
    ensures
        bucket_size(nodes, cs, total) == 0,
    decreases cs.len(),
{
    if cs.len() > 0 {
        lemma_bucket_empty(nodes, cs.drop_last(), total);
    }
}

proof fn lemma_bucket_nonneg(nodes: Seq<Node>, cs: Seq<usize>, total: int)
    ensures
        0 <= bucket_size(nodes, cs, total),
    decreases cs.len(),
{
    if cs.len() > 0 {
        lemma_bucket_nonneg(nodes, cs.drop_last(), total);
    }
}

/// Sum of the sizes of a list of entries.
proof fn lemma_entry_sizes_push(es: Seq<EntryView>, e: EntryView)
    ensures
        sum_range(entry_sizes(es.push(e)), 0, es.len() as int + 1) == sum_range(entry_sizes(es), 0, es.len() as int) + e.2,
{
    lemma_sum_range_prefix(entry_sizes(es.push(e)), entry_sizes(es), es.len() as int);
}

/// Sums over a range see only the keys in it.
proof fn lemma_sum_range_prefix(a: Seq<u64>, b: Seq<u64>, n: int)
    requires
        0 <= n <= a.len(),
        n <= b.len(),
        forall|i: int| 0 <= i < n ==> a[i] == b[i],
    ensures
        sum_range(a, 0, n) == sum_range(b, 0, n),
    decreases n,
{
    if n > 0 {
        lemma_sum_range_prefix(a, b, n - 1);
    }
}

/// A child that gets a cell of its own has its entry among `own_cells`.
proof fn lemma_own_cells_has(nodes: Seq<Node>, cs: Seq<usize>, total: int, k: int)
    requires
        0 <= k < cs.len(),
        gets_own_cell(nodes[cs[k] as int].size, total),
    ensures
        exists|i: int|
            0 <= i < own_cells(nodes, cs, total).len() && own_cells(nodes, cs, total)[i] == entry_of(nodes, cs[k]),
    decreases cs.len(),
{
    let rest = own_cells(nodes, cs.drop_last(), total);
    if k == cs.len() - 1 {
        assert(own_cells(nodes, cs, total)[rest.len() as int] == entry_of(nodes, cs[k]));
    } else {
        assert(cs.drop_last()[k] == cs[k]);
        lemma_own_cells_has(nodes, cs.drop_last(), total, k);
        let i = choose|i: int| 0 <= i < rest.len() && rest[i] == entry_of(nodes, cs[k]);
        assert(own_cells(nodes, cs, total)[i] == entry_of(nodes, cs[k]));
    }
}

/// The children's entries and the bucket see of each child only its name,
/// size and kind.
proof fn lemma_same_children_fields(nodes: Seq<Node>, nodes2: Seq<Node>, cs: Seq<usize>, total: int)
    requires
        forall|k: int|
            0 <= k < cs.len() ==> {
                let c = #[trigger] cs[k] as int;
                &&& nodes2[c].name@ == nodes[c].name@
                &&& nodes2[c].size == nodes[c].size
                &&& nodes2[c].is_dir == nodes[c].is_dir
            },
    ensures
        own_cells(nodes2, cs, total) == own_cells(nodes, cs, total),
        bucket_count(nodes2, cs, total) == bucket_count(nodes, cs, total),
        bucket_size(nodes2, cs, total) == bucket_size(nodes, cs, total),
    decreases cs.len(),
{
    if cs.len() > 0 {
        let c = cs[cs.len() - 1] as int;
        assert(nodes2[c].size == nodes[c].size);
        assert forall|k: int| 0 <= k < cs.drop_last().len() implies {
            let d = #[trigger] cs.drop_last()[k] as int;
            &&& nodes2[d].name@ == nodes[d].name@
            &&& nodes2[d].size == nodes[d].size
            &&& nodes2[d].is_dir == nodes[d].is_dir
        } by {
            assert(cs.drop_last()[k] == cs[k]);
        }
        lemma_same_children_fields(nodes, nodes2, cs.drop_last(), total);
        assert(entry_of(nodes2, cs.last()) == entry_of(nodes, cs.last()));
    }
}

/// Every non-empty child of the focused folder that is more than one
/// hundredth of the folder's own size (or of 1 byte, for an empty folder)
/// has an entry of its own, with its node id, name, size and kind.
pub proof fn lemma_large_child_has_entry(nodes: Seq<Node>, focus: int, k: int)
    requires
        0 <= focus < nodes.len(),
        0 <= k < nodes[focus].children@.len(),
        nodes[nodes[focus].children@[k] as int].size > 0,
        100 * nodes[nodes[focus].children@[k] as int].size > (if nodes[focus].size == 0 {
            1int
        } else {
            nodes[focus].size as int
        }),
    ensures
        ({
            let c = nodes[focus].children@[k];
            exists|i: int|
                0 <= i < unordered_entries(nodes, focus).len() && unordered_entries(nodes, focus)[i] == (
                    c as i32,
                    nodes[c as int].name@,
                    nodes[c as int].size,
                    nodes[c as int].is_dir,
                )
        }),
{
    let cs = nodes[focus].children@;
    let total = focus_total(nodes, focus);
    lemma_own_cells_has(nodes, cs, total, k);
    let own = own_cells(nodes, cs, total);
    let i = choose|i: int| 0 <= i < own.len() && own[i] == entry_of(nodes, cs[k]);
    assert(unordered_entries(nodes, focus)[i] == own[i]);
}

/// The entries of a folder depend on nothing but the folder's own size and
/// list of children, and the name, size and kind of each child: any other
/// node of the arena may change without changing them.
pub proof fn lemma_entries_local(nodes: Seq<Node>, nodes2: Seq<Node>, focus: int)
    requires
        0 <= focus < nodes.len(),
        0 <= focus < nodes2.len(),
        nodes2[focus].size == nodes[focus].size,
        nodes2[focus].children@ == nodes[focus].children@,
        forall|k: int|
            0 <= k < nodes[focus].children@.len() ==> {
                let c = #[trigger] nodes[focus].children@[k] as int;
                &&& nodes2[c].name@ == nodes[c].name@
                &&& nodes2[c].size == nodes[c].size
                &&& nodes2[c].is_dir == nodes[c].is_dir
            },
    ensures
        unordered_entries(nodes2, focus) == unordered_entries(nodes, focus),
{
    let cs = nodes[focus].children@;
    let total = focus_total(nodes, focus);
    assert(focus_total(nodes2, focus) == total);
    lemma_same_children_fields(nodes, nodes2, cs, total);
}

/// Every entry among `own_cells` is that of a child that gets a cell of its own.
proof fn lemma_own_cells_from(nodes: Seq<Node>, cs: Seq<usize>, total: int, i: int)
    requires
        0 <= i < own_cells(nodes, cs, total).len(),
    ensures
        exists|k: int|
            0 <= k < cs.len() && gets_own_cell(nodes[cs[k] as int].size, total)
                && own_cells(nodes, cs, total)[i] == entry_of(nodes, #[trigger] cs[k]),
    decreases cs.len(),
{
    let rest = own_cells(nodes, cs.drop_last(), total);
    if i < rest.len() {
        lemma_own_cells_from(nodes, cs.drop_last(), total, i);
        let k = choose|k: int|
            0 <= k < cs.drop_last().len() && gets_own_cell(nodes[cs.drop_last()[k] as int].size, total)
                && rest[i] == entry_of(nodes, #[trigger] cs.drop_last()[k]);
        assert(cs.drop_last()[k] == cs[k]);
        assert(own_cells(nodes, cs, total)[i] == entry_of(nodes, cs[k]));
    } else {
        let k = cs.len() - 1;
        assert(own_cells(nodes, cs, total)[i] == entry_of(nodes, cs[k]));
    }
}

/// The bucket counts a child exactly when some child goes into it.
proof fn lemma_bucket_count_positive(nodes: Seq<Node>, cs: Seq<usize>, total: int)
    ensures
        bucket_count(nodes, cs, total) > 0 <==> exists|k: int|
            0 <= k < cs.len() && goes_to_bucket(nodes[#[trigger] cs[k] as int].size, total),
    decreases cs.len(),
{
    if cs.len() > 0 {
        let rest = cs.drop_last();
        lemma_bucket_count_positive(nodes, rest, total);
        if bucket_count(nodes, rest, total) > 0 {
            let k = choose|k: int| 0 <= k < rest.len() && goes_to_bucket(nodes[#[trigger] rest[k] as int].size, total);
            assert(rest[k] == cs[k]);
        }
        if exists|k: int| 0 <= k < cs.len() && goes_to_bucket(nodes[#[trigger] cs[k] as int].size, total) {
            let k = choose|k: int| 0 <= k < cs.len() && goes_to_bucket(nodes[#[trigger] cs[k] as int].size, total);
            if k < cs.len() - 1 {
                assert(rest[k] == cs[k]);
            }
        }
    }
}

/// Each entry of a folder is either that of a non-empty child that is more
/// than one hundredth of the folder's own size (or of 1 byte, for an empty
/// folder), or the last one: the bucket, with node id -1, for a folder that
/// has a non-empty child of at most that hundredth.
pub proof fn lemma_entry_is_large_child_or_bucket(nodes: Seq<Node>, focus: int, i: int)
    requires
        0 <= focus < nodes.len(),
        0 <= i < unordered_entries(nodes, focus).len(),
    ensures
        ({
            let cs = nodes[focus].children@;
            let t = if nodes[focus].size == 0 { 1int } else { nodes[focus].size as int };
            let es = unordered_entries(nodes, focus);
            ||| exists|k: int|
                0 <= k < cs.len() && nodes[#[trigger] cs[k] as int].size > 0 && 100 * nodes[cs[k] as int].size > t
                    && es[i] == (cs[k] as i32, nodes[cs[k] as int].name@, nodes[cs[k] as int].size, nodes[cs[k] as int].is_dir)
            ||| i == es.len() - 1 && es[i].0 == -1 && !es[i].3 && exists|k: int|
                0 <= k < cs.len() && nodes[#[trigger] cs[k] as int].size > 0 && 100 * nodes[cs[k] as int].size <= t
        }),
{
    let cs = nodes[focus].children@;
    let total = focus_total(nodes, focus);
    let own = own_cells(nodes, cs, total);
    lemma_bucket_count_positive(nodes, cs, total);
    if i < own.len() {
        lemma_own_cells_from(nodes, cs, total, i);
        let k = choose|k: int|
            0 <= k < cs.len() && gets_own_cell(nodes[cs[k] as int].size, total) && own[i] == entry_of(nodes, #[trigger] cs[k]);
        assert(unordered_entries(nodes, focus)[i] == own[i]);
        assert(nodes[cs[k] as int].size > 0);
    } else {
        let k = choose|k: int| 0 <= k < cs.len() && goes_to_bucket(nodes[#[trigger] cs[k] as int].size, total);
        assert(nodes[cs[k] as int].size > 0);
    }
}

/// A folder with a non-empty child of at most one hundredth of its own size
/// (or of 1 byte, for an empty folder) ends its entries with the bucket:
/// node id -1, not a folder.
pub proof fn lemma_small_child_makes_bucket(nodes: Seq<Node>, focus: int, k: int)
    requires
        0 <= focus < nodes.len(),
        0 <= k < nodes[focus].children@.len(),
        nodes[nodes[focus].children@[k] as int].size > 0,
        100 * nodes[nodes[focus].children@[k] as int].size <= (if nodes[focus].size == 0 {
            1int
        } else {
            nodes[focus].size as int
        }),
    ensures
        unordered_entries(nodes, focus).len() > 0,
        unordered_entries(nodes, focus).last().0 == -1,
        !unordered_entries(nodes, focus).last().3,
{
    let cs = nodes[focus].children@;
    let total = focus_total(nodes, focus);
    lemma_bucket_count_positive(nodes, cs, total);
    assert(goes_to_bucket(nodes[cs[k] as int].size, total));
}

/// The entries shown for folder `focus` of `tree`: each non-empty child that
/// is more than one hundredth of the folder gets an entry of its own; the
/// other non-empty children are aggregated into one bucket with node id -1
/// named `Smaller items (count)`; empty children are left out. The entries
/// come from the largest to the smallest, ties in child order, and together
/// they are exactly as large as the folder's children.
pub fn build_display_entries(tree: &Tree, focus: usize) -> (entries: Vec<DisplayEntry>)
    requires
        focus < tree.nodes@.len(),
        forall|k: int|
            0 <= k < tree.nodes@[focus as int].children@.len()
                ==> (#[trigger] tree.nodes@[focus as int].children@[k] as int) < tree.nodes@.len(),
        bucket_size(tree.nodes@, tree.nodes@[focus as int].children@, focus_total(tree.nodes@, focus as int)) <= u64::MAX,
        bucket_count(tree.nodes@, tree.nodes@[focus as int].children@, focus_total(tree.nodes@, focus as int)) <= u32::MAX,
    ensures
        exists|order: Seq<usize>|
            is_desc_order(entry_sizes(unordered_entries(tree.nodes@, focus as int)), order)
                && entries@.map_values(|e: DisplayEntry| e@) == arrange(unordered_entries(tree.nodes@, focus as int), order),
        sum_range(entry_sizes(entries@.map_values(|e: DisplayEntry| e@)), 0, entries@.len() as int)
            == sum_sizes(tree.nodes@, tree.nodes@[focus as int].children@),
        forall|k: int|
            0 <= k < tree.nodes@[focus as int].children@.len()
                && tree.nodes@[#[trigger] tree.nodes@[focus as int].children@[k] as int].size > 0
                && 100 * tree.nodes@[tree.nodes@[focus as int].children@[k] as int].size > (if tree.nodes@[focus as int].size == 0 {
                    1int
                } else {
                    tree.nodes@[focus as int].size as int
                })
                ==> exists|i: int|
                    0 <= i < entries@.len() && entries@[i]@ == (
                        tree.nodes@[focus as int].children@[k] as i32,
                        tree.nodes@[tree.nodes@[focus as int].children@[k] as int].name@,
                        tree.nodes@[tree.nodes@[focus as int].children@[k] as int].size,
                        tree.nodes@[tree.nodes@[focus as int].children@[k] as int].is_dir,
                    ),
{
    let ghost nodes = tree.nodes@;
    let ghost cs = nodes[focus as int].children@;
    let node = &tree.nodes[focus];
    let total: u64 = if node.size == 0 { 1 } else { node.size };
    let ghost t = focus_total(nodes, focus as int);
    assert(total == t);

    let mut unordered: Vec<DisplayEntry> = Vec::new();
    let mut small_total: u64 = 0;
    let mut small_count: u32 = 0;
    let n = node.children.len();
    let mut k: usize = 0;
    while k < n
        invariant
            nodes == tree.nodes@,
            focus < nodes.len(),
            cs == nodes[focus as int].children@,
            n == cs.len(),
            total == t,
            k <= n,
            forall|j: int| 0 <= j < cs.len() ==> (#[trigger] cs[j] as int) < nodes.len(),
            bucket_size(nodes, cs, t) <= u64::MAX,
            bucket_count(nodes, cs, t) <= u32::MAX,
            unordered@.map_values(|e: DisplayEntry| e@) == own_cells(nodes, cs.take(k as int), t),
            small_total == bucket_size(nodes, cs.take(k as int), t),
            small_count == bucket_count(nodes, cs.take(k as int), t),
            sum_range(entry_sizes(unordered@.map_values(|e: DisplayEntry| e@)), 0, unordered@.len() as int)
                + small_total == sum_sizes(nodes, cs.take(k as int)),
        decreases n - k,
    {
        let child = tree.nodes[focus].children[k];
        let child_node = &tree.nodes[child];
        proof {
            lemma_step(nodes, cs, t, k as int);
            lemma_bucket_prefix(nodes, cs, t, k + 1);
        }
        if child_node.size == 0 {
        } else if (child_node.size as u128) * 100 > total as u128 {
            let ghost before = unordered@.map_values(|e: DisplayEntry| e@);
            let e = DisplayEntry {
                node_id: child as i32,
                name: child_node.name.clone(),
                size: child_node.size,
                is_dir: child_node.is_dir,
            };
            unordered.push(e);
            proof {
                assert(unordered@.map_values(|e: DisplayEntry| e@) =~= before.push(entry_of(nodes, child)));
                lemma_entry_sizes_push(before, entry_of(nodes, child));
            }
        } else {
            small_total = small_total + child_node.size;
            small_count = small_count + 1;
        }
        k = k + 1;
    }
    assert(cs.take(n as int) =~= cs);
    if small_count == 0 {
        proof {
            lemma_bucket_empty(nodes, cs, t);
        }
    }
    if small_count > 0 {
        let ghost before = unordered@.map_values(|e: DisplayEntry| e@);
        let mut name = String::from_str("Smaller items (");
        name.append(decimal_text(small_count).as_str());
        name.append(")");
        let e = DisplayEntry { node_id: -1, name, size: small_total, is_dir: false };
        unordered.push(e);
        proof {
            assert(unordered@.map_values(|e: DisplayEntry| e@) =~= before.push(
                (-1i32, bucket_name(small_count as nat), small_total, false),
            ));
            lemma_entry_sizes_push(before, (-1i32, bucket_name(small_count as nat), small_total, false));
        }
    }
    let ghost un = unordered_entries(nodes, focus as int);
    assert(unordered@.map_values(|e: DisplayEntry| e@) =~= un);

    let m = unordered.len();
    let mut keys: Vec<u64> = Vec::new();
    let mut i: usize = 0;
    while i < m
        invariant
            m == unordered.len(),
            unordered@.map_values(|e: DisplayEntry| e@) == un,
            i <= m,
            keys@.len() == i,
            forall|j: int| 0 <= j < i ==> #[trigger] keys@[j] == un[j].2,
        decreases m - i,
    {
        assert(un[i as int] == unordered@[i as int]@);
        keys.push(unordered[i].size);
        i = i + 1;
    }
    assert(keys@ =~= entry_sizes(un));
    let order = desc_order(&keys);

    let mut entries: Vec<DisplayEntry> = Vec::new();
    let mut i: usize = 0;
    while i < m
        invariant
            m == unordered.len(),
            m == order.len(),
            unordered@.map_values(|e: DisplayEntry| e@) == un,
            is_desc_order(entry_sizes(un), order@),
            i <= m,
            entries@.map_values(|e: DisplayEntry| e@) == arrange(un, order@.take(i as int)),
        decreases m - i,
    {
        let p = order[i];
        let src = &unordered[p];
        assert(un[p as int] == unordered@[p as int]@);
        let e = DisplayEntry { node_id: src.node_id, name: src.name.clone(), size: src.size, is_dir: src.is_dir };
        let ghost before = entries@.map_values(|e: DisplayEntry| e@);
        assert(e@ == un[p as int]);
        entries.push(e);
        assert(arrange(un, order@.take(i + 1)) =~= arrange(un, order@.take(i as int)).push(un[p as int]));
        assert(entries@.map_values(|e: DisplayEntry| e@) =~= before.push(e@));
        i = i + 1;
    }
    assert(order@.take(m as int) =~= order@);
    proof {
        let ev = entries@.map_values(|e: DisplayEntry| e@);
        lemma_sum_at_arranged(entry_sizes(un), un, order@);
        lemma_sum_range_prefix(entry_sizes(ev), entry_sizes(arrange(un, order@)), m as int);
        assert forall|k: int|
            0 <= k < cs.len()
                && nodes[#[trigger] cs[k] as int].size > 0
                && 100 * nodes[cs[k] as int].size > (if nodes[focus as int].size == 0 {
                    1int
                } else {
                    nodes[focus as int].size as int
                })
            implies exists|i: int|
                0 <= i < entries@.len() && entries@[i]@ == (
                    cs[k] as i32,
                    nodes[cs[k] as int].name@,
                    nodes[cs[k] as int].size,
                    nodes[cs[k] as int].is_dir,
                ) by {
            let c = cs[k];
            let want = (c as i32, nodes[c as int].name@, nodes[c as int].size, nodes[c as int].is_dir);
            lemma_large_child_has_entry(nodes, focus as int, k);
            let j = choose|j: int| 0 <= j < un.len() && un[j] == want;
            lemma_desc_order_covers(entry_sizes(un), order@, j);
            let i = choose|i: int| 0 <= i < order@.len() && order@[i] as int == j;
            assert(ev[i] == entries@[i]@);
            assert(entries@[i]@ == want);
        }
    }
    entries
}

/// The total of the arranged entries, key by key.
proof fn lemma_sum_at_arranged(keys: Seq<u64>, es: Seq<EntryView>, order: Seq<usize>)
    requires
        keys == entry_sizes(es),
        forall|i: int| 0 <= i < order.len() ==> (#[trigger] order[i] as int) < es.len(),
    ensures
        sum_range(entry_sizes(arrange(es, order)), 0, order.len() as int) == sum_at(keys, order),
    decreases order.len(),
{
    if order.len() > 0 {
        let o2 = order.drop_last();
        lemma_sum_at_arranged(keys, es, o2);
        lemma_sum_range_prefix(entry_sizes(arrange(es, order)), entry_sizes(arrange(es, o2)), o2.len() as int);
    }
}

/// The treemap's palette of ten colours.
pub open spec fn palette(i: int) -> (u8, u8, u8) {
    if i == 0 { (99, 102, 241) }
    else if i == 1 { (16, 185, 129) }
    else if i == 2 { (245, 158, 11) }
    else if i == 3 { (239, 68, 68) }
    else if i == 4 { (59, 130, 246) }
    else if i == 5 { (168, 85, 247) }
    else if i == 6 { (236, 72, 153) }
    else if i == 7 { (20, 184, 166) }
    else if i == 8 { (132, 204, 22) }
    else { (234, 179, 8) }
}

/// A colour component darkened to seven tenths, rounded down.
pub open spec fn dimmed(c: u8) -> u8 {
    (c as int * 7 / 10) as u8
}

fn palette_color(i: usize) -> (rgb: (u8, u8, u8))
    requires
        i < 10,
    ensures
        rgb == palette(i as int),
{
    if i == 0 { (99, 102, 241) }
    else if i == 1 { (16, 185, 129) }
    else if i == 2 { (245, 158, 11) }
    else if i == 3 { (239, 68, 68) }
    else if i == 4 { (59, 130, 246) }
    else if i == 5 { (168, 85, 247) }
    else if i == 6 { (236, 72, 153) }
    else if i == 7 { (20, 184, 166) }
    else if i == 8 { (132, 204, 22) }
    else { (234, 179, 8) }
}

fn dim(c: u8) -> (d: u8)
    ensures
        d == dimmed(c),
{
    ((c as u16) * 7 / 10) as u8
}

/// The colour of the treemap cell for the entry at `index`: grey for the
/// bucket, otherwise the palette colour for `index`, darkened for files.
pub fn cell_color(node_id: i32, index: usize, is_dir: bool) -> (rgb: (u8, u8, u8))
    ensures
        node_id < 0 ==> rgb == (75u8, 85u8, 99u8),
        node_id >= 0 && is_dir ==> rgb == palette((index % 10) as int),
        node_id >= 0 && !is_dir ==> rgb == (
            dimmed(palette((index % 10) as int).0),
            dimmed(palette((index % 10) as int).1),
            dimmed(palette((index % 10) as int).2),
        ),
{
    if node_id < 0 {
        return (75, 85, 99);
    }
    let (r, g, b) = palette_color(index % 10);
    if is_dir {
        (r, g, b)
    } else {
        (dim(r), dim(g), dim(b))
    }
}

/// Whether mark `id` names a node of the arena.
pub open spec fn names_node(nodes: Seq<Node>, id: i32) -> bool {
    id >= 0 && (id as int) < nodes.len()
}

/// How many of the marks name nodes of the arena.
pub open spec fn marked_count(nodes: Seq<Node>, marks: Seq<i32>) -> int
    decreases marks.len(),
{
    if marks.len() == 0 {
        0
    } else {
        marked_count(nodes, marks.drop_last()) + if names_node(nodes, marks.last()) { 1int } else { 0int }
    }
}

/// The total size of the nodes that the marks name.
pub open spec fn marked_size(nodes: Seq<Node>, marks: Seq<i32>) -> int
    decreases marks.len(),
{
    if marks.len() == 0 {
        0
    } else {
        marked_size(nodes, marks.drop_last()) + if names_node(nodes, marks.last()) {
            nodes[marks.last() as int].size as int
        } else {
            0
        }
    }
}

proof fn lemma_marked_prefix(nodes: Seq<Node>, marks: Seq<i32>, k: int)
    requires
        0 <= k <= marks.len(),
    ensures
        0 <= marked_count(nodes, marks.take(k)) <= marked_count(nodes, marks),
        0 <= marked_size(nodes, marks.take(k)) <= marked_size(nodes, marks),
    decreases marks.len() - k,
{
    lemma_marked_nonneg(nodes, marks.take(k));
    if k < marks.len() {
        assert(marks.take(k + 1).drop_last() =~= marks.take(k));
        lemma_marked_prefix(nodes, marks, k + 1);
    } else {
        assert(marks.take(k) =~= marks);
        lemma_marked_nonneg(nodes, marks);
    }
}

proof fn lemma_marked_nonneg(nodes: Seq<Node>, marks: Seq<i32>)
    ensures
        0 <= marked_count(nodes, marks),
        0 <= marked_size(nodes, marks),
    decreases marks.len(),
{
    if marks.len() > 0 {
        lemma_marked_nonneg(nodes, marks.drop_last());
    }
}

/// How many of the nodes marked for deletion exist, and how large they are
/// together; marks that name no node are ignored. `None` when the count
/// does not fit in an `i32` or the size in a `u64`.
pub fn delete_totals(tree: &Tree, marks: &Vec<i32>) -> (totals: Option<(i32, u64)>)
    ensures
        totals is Some <==> (marked_count(tree.nodes@, marks@) <= i32::MAX && marked_size(tree.nodes@, marks@) <= u64::MAX),
        totals matches Some(t) ==> t.0 == marked_count(tree.nodes@, marks@) && t.1 == marked_size(tree.nodes@, marks@),
{
    let ghost nodes = tree.nodes@;
    let mut count: i32 = 0;
    let mut size: u64 = 0;
    let n = marks.len();
    let mut k: usize = 0;
    while k < n
        invariant
            nodes == tree.nodes@,
            n == marks.len(),
            k <= n,
            count == marked_count(nodes, marks@.take(k as int)),
            size == marked_size(nodes, marks@.take(k as int)),
        decreases n - k,
    {
        let id = marks[k];
        proof {
            assert(marks@.take(k + 1).drop_last() =~= marks@.take(k as int));
            lemma_marked_prefix(nodes, marks@, k + 1);
        }
        if id >= 0 && (id as usize) < tree.nodes.len() {
            if count == i32::MAX {
                return None;
            }
            match size.checked_add(tree.nodes[id as usize].size) {
                Some(s) => {
                    size = s;
                },
                None => {
                    proof {
                        lemma_marked_prefix(nodes, marks@, k + 1);
                    }
                    return None;
                },
            }
            count = count + 1;
        }
        k = k + 1;
    }
    assert(marks@.take(n as int) =~= marks@);
    Some((count, size))
}

/// Whether `build_display_entries(tree, focus)` can run: `focus` and its
/// children are in the arena, and the bucket's count fits in a `u32` and its
/// size in a `u64`.
pub fn display_entries_fit(tree: &Tree, focus: usize) -> (ok: bool)
    ensures
        ok == (focus < tree.nodes@.len()
            && (forall|k: int|
                0 <= k < tree.nodes@[focus as int].children@.len()
                    ==> (#[trigger] tree.nodes@[focus as int].children@[k] as int) < tree.nodes@.len())
            && bucket_size(tree.nodes@, tree.nodes@[focus as int].children@, focus_total(tree.nodes@, focus as int)) <= u64::MAX
            && bucket_count(tree.nodes@, tree.nodes@[focus as int].children@, focus_total(tree.nodes@, focus as int)) <= u32::MAX),
{
    if focus >= tree.nodes.len() {
        return false;
    }
    let ghost nodes = tree.nodes@;
    let ghost cs = nodes[focus as int].children@;
    let ghost t = focus_total(nodes, focus as int);
    let node = &tree.nodes[focus];
    let total: u64 = if node.size == 0 { 1 } else { node.size };
    let n = node.children.len();
    let mut small_total: u64 = 0;
    let mut small_count: u32 = 0;
    let mut k: usize = 0;
    while k < n
        invariant
            nodes == tree.nodes@,
            focus < nodes.len(),
            cs == nodes[focus as int].children@,
            n == cs.len(),
            total == t,
            t == focus_total(nodes, focus as int),
            k <= n,
            forall|j: int| 0 <= j < k ==> (#[trigger] cs[j] as int) < nodes.len(),
            small_total == bucket_size(nodes, cs.take(k as int), t),
            small_count == bucket_count(nodes, cs.take(k as int), t),
        decreases n - k,
    {
        let child = tree.nodes[focus].children[k];
        if child >= tree.nodes.len() {
            return false;
        }
        proof {
            lemma_step(nodes, cs, t, k as int);
            lemma_bucket_prefix(nodes, cs, t, k + 1);
        }
        let size = tree.nodes[child].size;
        if size > 0 && !((size as u128) * 100 > total as u128) {
            if small_count == u32::MAX {
                assert(bucket_count(nodes, cs, t) > u32::MAX);
                return false;
            }
            match small_total.checked_add(size) {
                Some(s) => {
                    small_total = s;
                },
                None => {
                    assert(bucket_size(nodes, cs.take(k + 1), t) == small_total + size);
                    assert(bucket_size(nodes, cs, t) > u64::MAX);
                    return false;
                },
            }
            small_count = small_count + 1;
        }
        k = k + 1;
    }
    assert(cs.take(n as int) =~= cs);
    true
}

impl Tree {
    /// Whether the entry `id` can become the focused folder: it names a
    /// node of the arena, and that node is a folder.
    pub fn is_folder(&self, id: i32) -> (res: bool)
        ensures
            res == (names_node(self.nodes@, id) && self.nodes@[id as int].is_dir),
    {
        id >= 0 && (id as usize) < self.nodes.len() && self.nodes[id as usize].is_dir
    }
}

} // verus!

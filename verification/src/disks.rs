//! Choosing and ordering the mounted disks that are worth showing, and how
//! full a disk is.

use vstd::prelude::*;
use vstd::utf8::encode_utf8;
use crate::order::{arrange, lemma_distinct_covers};
use crate::text::same_text;

verus! {

/// A mounted disk/volume, decoupled from the UI layer.
pub struct RawDisk {
    pub mount_point: String,
    pub total_space: u64,
    pub available_space: u64,
    pub is_removable: bool,
}

/// What a disk holds: mount point, total space, available space, removable.
pub type DiskView = (Seq<char>, u64, u64, bool);

impl View for RawDisk {
    type V = DiskView;

    open spec fn view(&self) -> DiskView {
        (self.mount_point@, self.total_space, self.available_space, self.is_removable)
    }
}

/// The views of a list of disks.
pub open spec fn disk_views(ds: Seq<RawDisk>) -> Seq<DiskView> {
    ds.map_values(|d: RawDisk| d@)
}

/// Mount points that are never shown to users.
pub const IGNORED_MOUNTS: [&'static str; 3] = [
    "/System/Volumes/Data",
    "/var/snap/firefox/common/host-hunspell",
    "/boot/efi",
];

/// `mount_point` is one of `IGNORED_MOUNTS`.
pub open spec fn is_ignored(mount_point: Seq<char>) -> bool {
    exists|k: int| 0 <= k < 3 && mount_point == (#[trigger] IGNORED_MOUNTS@[k])@
}

/// Whether `mount_point` is one of the noisy mount points that are not
/// useful to show to end users.
pub fn is_ignored_mount(mount_point: &str) -> (res: bool)
    ensures
        res == is_ignored(mount_point@),
{
    let mut k: usize = 0;
    while k < 3
        invariant
            k <= 3,
            forall|j: int| 0 <= j < k ==> mount_point@ != (#[trigger] IGNORED_MOUNTS@[j])@,
        decreases 3 - k,
    {
        if same_text(mount_point, IGNORED_MOUNTS[k]) {
            return true;
        }
        k = k + 1;
    }
    false
}

/// A disk is shown when its mount point is not ignored and it has space.
pub open spec fn is_shown(d: DiskView) -> bool {
    !is_ignored(d.0) && d.1 > 0
}

/// The disks of `ds` that are shown, in order.
pub open spec fn shown_disks(ds: Seq<DiskView>) -> Seq<DiskView>
    decreases ds.len(),
{
    if ds.len() == 0 {
        Seq::empty()
    } else if is_shown(ds.last()) {
        shown_disks(ds.drop_last()).push(ds.last())
    } else {
        shown_disks(ds.drop_last())
    }
}

/// `a` comes strictly before `b` in byte order: at the first byte where they
/// differ `a`'s is smaller, or `a` is a proper prefix of `b`.
pub open spec fn bytes_lt(a: Seq<u8>, b: Seq<u8>) -> bool
    decreases a.len(),
{
    if a.len() == 0 {
        b.len() > 0
    } else if b.len() == 0 {
        false
    } else if a[0] != b[0] {
        a[0] < b[0]
    } else {
        bytes_lt(a.drop_first(), b.drop_first())
    }
}

/// The byte key by which disks are ordered: the UTF-8 bytes of the mount
/// point, as `String`'s own ordering compares them.
pub open spec fn mount_key(d: DiskView) -> Seq<u8> {
    encode_utf8(d.0)
}

/// Position `a` of `ds` comes before position `b`: its key is smaller, or
/// the keys are equal and `a` came first.
pub open spec fn mount_precedes(ds: Seq<DiskView>, a: int, b: int) -> bool {
    bytes_lt(mount_key(ds[a]), mount_key(ds[b])) || (mount_key(ds[a]) == mount_key(ds[b]) && a < b)
}

/// `order` lists every position of `ds` once, by mount point in byte order,
/// ties in their input order.
pub open spec fn is_mount_order(ds: Seq<DiskView>, order: Seq<usize>) -> bool {
    &&& order.len() == ds.len()
    &&& forall|i: int| 0 <= i < order.len() ==> (#[trigger] order[i] as int) < ds.len()
    &&& forall|i: int, j: int|
        0 <= i < j < order.len() ==> mount_precedes(ds, #[trigger] order[i] as int, #[trigger] order[j] as int)
}

proof fn lemma_bytes_lt_total(a: Seq<u8>, b: Seq<u8>)
    ensures
        bytes_lt(a, b) || a == b || bytes_lt(b, a),
    decreases a.len(),
{
    if a.len() > 0 && b.len() > 0 && a[0] == b[0] {
        lemma_bytes_lt_total(a.drop_first(), b.drop_first());
        if a.drop_first() == b.drop_first() {
            assert(a =~= seq![a[0]] + a.drop_first());
            assert(b =~= seq![b[0]] + b.drop_first());
        }
    } else if a.len() == 0 && b.len() == 0 {
        assert(a =~= b);
    }
}

proof fn lemma_bytes_lt_trans(a: Seq<u8>, b: Seq<u8>, c: Seq<u8>)
    requires
        bytes_lt(a, b),
        bytes_lt(b, c),
    ensures
        bytes_lt(a, c),
    decreases a.len(),
{
    if a.len() > 0 && b.len() > 0 && c.len() > 0 && a[0] == b[0] && b[0] == c[0] {
        lemma_bytes_lt_trans(a.drop_first(), b.drop_first(), c.drop_first());
    }
}

proof fn lemma_bytes_lt_irreflexive(a: Seq<u8>)
    ensures
        !bytes_lt(a, a),
    decreases a.len(),
{
    if a.len() > 0 {
        lemma_bytes_lt_irreflexive(a.drop_first());
    }
}

/// Byte order decides at the first byte where two keys differ, whatever
/// their lengths: the key whose byte there is smaller comes first.
pub proof fn lemma_bytes_lt_first_difference(a: Seq<u8>, b: Seq<u8>, i: int)
    requires
        0 <= i < a.len(),
        i < b.len(),
        forall|j: int| 0 <= j < i ==> a[j] == b[j],
        a[i] < b[i],
    ensures
        bytes_lt(a, b),
        !bytes_lt(b, a),
    decreases i,
{
    if i > 0 {
        assert forall|j: int| 0 <= j < i - 1 implies a.drop_first()[j] == b.drop_first()[j] by {
            assert(a[j + 1] == b[j + 1]);
        }
        assert(a[0] == b[0]);
        lemma_bytes_lt_first_difference(a.drop_first(), b.drop_first(), i - 1);
    }
}

/// A key that is a proper prefix of another comes before it.
pub proof fn lemma_bytes_lt_proper_prefix(a: Seq<u8>, b: Seq<u8>)
    requires
        a.len() < b.len(),
        forall|j: int| 0 <= j < a.len() ==> a[j] == b[j],
    ensures
        bytes_lt(a, b),
        !bytes_lt(b, a),
    decreases a.len(),
{
    if a.len() > 0 {
        assert forall|j: int| 0 <= j < a.len() - 1 implies a.drop_first()[j] == b.drop_first()[j] by {
            assert(a[j + 1] == b[j + 1]);
        }
        assert(a[0] == b[0]);
        lemma_bytes_lt_proper_prefix(a.drop_first(), b.drop_first());
    }
}

/// In a mount order, no later disk's mount point comes before an earlier
/// one's in byte order: at the first byte where the two keys differ the
/// earlier key's is smaller, and a later key is never a proper prefix of an
/// earlier one.
pub proof fn lemma_mount_order_bytes(ds: Seq<DiskView>, order: Seq<usize>, i: int, j: int, p: int)
    requires
        is_mount_order(ds, order),
        0 <= i < j < order.len(),
    ensures
        ({
            let a = encode_utf8(arrange(ds, order)[i].0);
            let b = encode_utf8(arrange(ds, order)[j].0);
            &&& (0 <= p < a.len() && p < b.len() && (forall|q: int| 0 <= q < p ==> a[q] == b[q])) ==> a[p] <= b[p]
            &&& !(b.len() < a.len() && (forall|q: int| 0 <= q < b.len() ==> a[q] == b[q]))
        }),
{
    let a = encode_utf8(arrange(ds, order)[i].0);
    let b = encode_utf8(arrange(ds, order)[j].0);
    assert(mount_precedes(ds, order[i] as int, order[j] as int));
    assert(a == mount_key(ds[order[i] as int]));
    assert(b == mount_key(ds[order[j] as int]));
    if 0 <= p < a.len() && p < b.len() && (forall|q: int| 0 <= q < p ==> a[q] == b[q]) && b[p] < a[p] {
        assert forall|q: int| 0 <= q < p implies b[q] == a[q] by {
            assert(a[q] == b[q]);
        }
        lemma_bytes_lt_first_difference(b, a, p);
        assert(a != b) by {
            assert(a[p] != b[p]);
        }
    }
    if b.len() < a.len() && (forall|q: int| 0 <= q < b.len() ==> a[q] == b[q]) {
        assert forall|q: int| 0 <= q < b.len() implies b[q] == a[q] by {
            assert(a[q] == b[q]);
        }
        lemma_bytes_lt_proper_prefix(b, a);
    }
}

proof fn lemma_shown_disks_contains(ds: Seq<DiskView>, d: DiskView)
    ensures
        shown_disks(ds).contains(d) <==> (ds.contains(d) && is_shown(d)),
    decreases ds.len(),
{
    if ds.len() > 0 {
        let rest = ds.drop_last();
        lemma_shown_disks_contains(rest, d);
        if ds.contains(d) && is_shown(d) {
            let i = choose|i: int| 0 <= i < ds.len() && ds[i] == d;
            if i < ds.len() - 1 {
                assert(rest[i] == d);
                if is_shown(ds.last()) {
                    let j = choose|j: int| 0 <= j < shown_disks(rest).len() && shown_disks(rest)[j] == d;
                    assert(shown_disks(ds)[j] == d);
                }
            } else {
                assert(shown_disks(ds).last() == d);
            }
        }
        if shown_disks(ds).contains(d) {
            let j = choose|j: int| 0 <= j < shown_disks(ds).len() && shown_disks(ds)[j] == d;
            if is_shown(ds.last()) && j == shown_disks(ds).len() - 1 {
                assert(ds[ds.len() - 1] == d);
            } else {
                assert(shown_disks(rest)[j] == d);
                let i = choose|i: int| 0 <= i < rest.len() && rest[i] == d;
                assert(ds[i] == d);
            }
        }
    }
}

/// The disks shown are exactly those listed whose mount point is none of
/// `IGNORED_MOUNTS` and whose total space is not zero, however much of it is
/// free.
pub proof fn lemma_shown_disks_exactly(ds: Seq<DiskView>, d: DiskView)
    ensures
        shown_disks(ds).contains(d) <==> (ds.contains(d) && d.1 > 0 && (forall|m: int|
            0 <= m < 3 ==> d.0 != (#[trigger] IGNORED_MOUNTS@[m])@)),
{
    lemma_shown_disks_contains(ds, d);
}

/// Whether `a` comes strictly before `b` in byte order.
fn bytes_less(a: &[u8], b: &[u8]) -> (res: bool)
    ensures
        res == bytes_lt(a@, b@),
{
    let n = a.len();
    let m = b.len();
    let mut i: usize = 0;
    assert(a@.skip(0) =~= a@);
    assert(b@.skip(0) =~= b@);
    while i < n && i < m
        invariant
            n == a@.len(),
            m == b@.len(),
            i <= n,
            i <= m,
            bytes_lt(a@, b@) == bytes_lt(a@.skip(i as int), b@.skip(i as int)),
        decreases n - i,
    {
        assert(a@.skip(i as int)[0] == a@[i as int]);
        assert(b@.skip(i as int)[0] == b@[i as int]);
        if a[i] != b[i] {
            return a[i] < b[i];
        }
        assert(a@.skip(i as int).drop_first() =~= a@.skip(i + 1));
        assert(b@.skip(i as int).drop_first() =~= b@.skip(i + 1));
        i = i + 1;
    }
    i == n && i < m
}

/// Whether disk `a`'s mount point comes strictly before disk `b`'s.
fn mount_less(a: &RawDisk, b: &RawDisk) -> (res: bool)
    ensures
        res == bytes_lt(mount_key(a@), mount_key(b@)),
{
    bytes_less(a.mount_point.as_str().as_bytes(), b.mount_point.as_str().as_bytes())
}

/// A copy of `d`.
fn copy_disk(d: &RawDisk) -> (res: RawDisk)
    ensures
        res@ == d@,
{
    RawDisk {
        mount_point: d.mount_point.clone(),
        total_space: d.total_space,
        available_space: d.available_space,
        is_removable: d.is_removable,
    }
}

/// The disks worth showing: those whose mount point is not ignored and
/// whose total space is not zero, ordered by mount point (byte order of the
/// text, ties keeping their order).
pub fn select_disks(disks: &Vec<RawDisk>) -> (out: Vec<RawDisk>)
    ensures
        exists|order: Seq<usize>|
            #[trigger] is_mount_order(shown_disks(disk_views(disks@)), order)
                && disk_views(out@) == arrange(shown_disks(disk_views(disks@)), order),
        forall|k: int|
            0 <= k < disks@.len() && (#[trigger] disks@[k]).total_space > 0 && (forall|m: int|
                0 <= m < 3 ==> disks@[k].mount_point@ != (#[trigger] IGNORED_MOUNTS@[m])@)
                ==> disk_views(out@).contains(disks@[k]@),
        forall|i: int|
            0 <= i < out@.len() ==> {
                &&& disk_views(disks@).contains((#[trigger] out@[i])@)
                &&& out@[i].total_space > 0
                &&& forall|m: int| 0 <= m < 3 ==> out@[i].mount_point@ != (#[trigger] IGNORED_MOUNTS@[m])@
            },
{
    let ghost all = disks@.map_values(|d: RawDisk| d@);
    let mut kept: Vec<RawDisk> = Vec::new();
    let n = disks.len();
    let mut k: usize = 0;
    while k < n
        invariant
            n == disks.len(),
            all == disks@.map_values(|d: RawDisk| d@),
            k <= n,
            kept@.map_values(|d: RawDisk| d@) == shown_disks(all.take(k as int)),
        decreases n - k,
    {
        assert(all.take(k + 1).drop_last() =~= all.take(k as int));
        assert(all.take(k + 1).last() == disks@[k as int]@);
        let d = &disks[k];
        let ignored = is_ignored_mount(d.mount_point.as_str());
        if !ignored && d.total_space > 0 {
            let ghost before = kept@.map_values(|d: RawDisk| d@);
            kept.push(copy_disk(d));
            assert(kept@.map_values(|d: RawDisk| d@) =~= before.push(disks@[k as int]@));
        }
        k = k + 1;
    }
    assert(all.take(n as int) =~= all);
    let ghost shown = shown_disks(all);

    // Insertion sort of positions: few disks are mounted at once.
    let m = kept.len();
    let mut order: Vec<usize> = Vec::new();
    let mut k: usize = 0;
    while k < m
        invariant
            m == kept.len(),
            kept@.map_values(|d: RawDisk| d@) == shown,
            k <= m,
            order.len() == k,
            forall|i: int| 0 <= i < order.len() ==> (#[trigger] order@[i] as int) < k,
            forall|i: int, j: int|
                0 <= i < j < order.len() ==> mount_precedes(shown, #[trigger] order@[i] as int, #[trigger] order@[j] as int),
        decreases m - k,
    {
        assert(shown[k as int] == kept@[k as int]@);
        let mut pos: usize = 0;
        while pos < order.len() && !mount_less(&kept[k], &kept[order[pos]])
            invariant
                m == kept.len(),
                kept@.map_values(|d: RawDisk| d@) == shown,
                k < m,
                order.len() == k,
                forall|i: int| 0 <= i < order.len() ==> (#[trigger] order@[i] as int) < k,
                pos <= order.len(),
                forall|i: int| 0 <= i < pos ==> !bytes_lt(mount_key(shown[k as int]), mount_key(shown[#[trigger] order@[i] as int])),
            decreases order.len() - pos,
        {
            assert(shown[order@[pos as int] as int] == kept@[order@[pos as int] as int]@);
            pos = pos + 1;
        }
        let ghost old_order = order@;
        proof {
            if pos < order.len() {
                assert(shown[order@[pos as int] as int] == kept@[order@[pos as int] as int]@);
            }
        }
        order.insert(pos, k);
        proof {
            let key_k = mount_key(shown[k as int]);
            assert forall|i: int, j: int|
                0 <= i < j < order.len() implies mount_precedes(shown, #[trigger] order@[i] as int, #[trigger] order@[j] as int) by {
                if j < pos {
                    assert(order@[i] == old_order[i] && order@[j] == old_order[j]);
                } else if j == pos {
                    let o = old_order[i];
                    assert(order@[i] == o);
                    lemma_bytes_lt_total(key_k, mount_key(shown[o as int]));
                } else if i > pos {
                    assert(order@[i] == old_order[i - 1] && order@[j] == old_order[j - 1]);
                } else if i == pos {
                    let first = old_order[pos as int];
                    let o = old_order[j - 1];
                    assert(order@[j] == o);
                    if j - 1 > pos {
                        assert(mount_precedes(shown, first as int, o as int));
                        if bytes_lt(mount_key(shown[first as int]), mount_key(shown[o as int])) {
                            lemma_bytes_lt_trans(key_k, mount_key(shown[first as int]), mount_key(shown[o as int]));
                        }
                    }
                } else {
                    assert(order@[i] == old_order[i] && order@[j] == old_order[j - 1]);
                }
            }
        }
        k = k + 1;
    }

    let mut out: Vec<RawDisk> = Vec::new();
    let mut i: usize = 0;
    while i < m
        invariant
            m == kept.len(),
            m == order.len(),
            kept@.map_values(|d: RawDisk| d@) == shown,
            forall|j: int| 0 <= j < order.len() ==> (#[trigger] order@[j] as int) < m,
            i <= m,
            out@.map_values(|d: RawDisk| d@) == arrange(shown, order@.take(i as int)),
        decreases m - i,
    {
        let p = order[i];
        let ghost before = out@.map_values(|d: RawDisk| d@);
        let d = copy_disk(&kept[p]);
        assert(d@ == shown[p as int]);
        out.push(d);
        assert(arrange(shown, order@.take(i + 1)) =~= arrange(shown, order@.take(i as int)).push(shown[p as int]));
        assert(out@.map_values(|d: RawDisk| d@) =~= before.push(d@));
        i = i + 1;
    }
    assert(order@.take(m as int) =~= order@);
    assert(disk_views(out@) == arrange(shown, order@));
    assert(is_mount_order(shown, order@));
    assert(all =~= disk_views(disks@));
    assert(disk_views(out@) =~= out@.map_values(|d: RawDisk| d@));
    proof {
        let ov = disk_views(out@);
        assert forall|i: int, j: int| 0 <= i < j < order@.len() implies #[trigger] order@[i] != #[trigger] order@[j] by {
            assert(mount_precedes(shown, order@[i] as int, order@[j] as int));
            lemma_bytes_lt_irreflexive(mount_key(shown[order@[i] as int]));
        }
        assert forall|k: int|
            0 <= k < disks@.len() && (#[trigger] disks@[k]).total_space > 0 && (forall|m: int|
                0 <= m < 3 ==> disks@[k].mount_point@ != (#[trigger] IGNORED_MOUNTS@[m])@)
            implies ov.contains(disks@[k]@) by {
            let d = disks@[k]@;
            assert(all[k] == d);
            lemma_shown_disks_exactly(all, d);
            let p = choose|p: int| 0 <= p < shown.len() && shown[p] == d;
            lemma_distinct_covers(order@, m as int, p);
            let i = choose|i: int| 0 <= i < order@.len() && order@[i] as int == p;
            assert(ov[i] == d);
        }
        assert forall|i: int| 0 <= i < out@.len() implies {
            &&& disk_views(disks@).contains((#[trigger] out@[i])@)
            &&& out@[i].total_space > 0
            &&& forall|m: int| 0 <= m < 3 ==> out@[i].mount_point@ != (#[trigger] IGNORED_MOUNTS@[m])@
        } by {
            let d = out@[i]@;
            assert(ov[i] == d);
            assert(shown[order@[i] as int] == d);
            lemma_shown_disks_exactly(all, d);
        }
    }
    out
}

/// How full a disk is, as its usage bar shows it.
pub enum UsageLevel {
    /// At most 60% used.
    Low,
    /// More than 60% and at most 70% used.
    Medium,
    /// More than 70% used.
    High,
}

/// How full a disk with `total` bytes, `available` of them free, is: the used
/// share (`total - available`, or 0 when more is free than there is) compared
/// with 70% and 60% of the total. An empty disk counts as unused.
pub fn usage_level(total: u64, available: u64) -> (level: UsageLevel)
    ensures
        ({
            let used: int = if available >= total { 0 } else { total - available };
            &&& (level is High) == (100 * used > 70 * total)
            &&& (level is Medium) == (100 * used <= 70 * total && 100 * used > 60 * total)
            &&& (level is Low) == (100 * used <= 60 * total)
        }),
{
    let used: u64 = if available >= total { 0 } else { total - available };
    let used100 = (used as u128) * 100;
    if used100 > (total as u128) * 70 {
        UsageLevel::High
    } else if used100 > (total as u128) * 60 {
        UsageLevel::Medium
    } else {
        UsageLevel::Low
    }
}

} // verus!

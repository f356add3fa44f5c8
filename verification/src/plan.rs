//! Pruning: within each group the entry that was modified last is kept
//! (between equal timestamps, the one discovered last), every other
//! member is slated for deletion, and the slated sizes are summed.

use vstd::prelude::*;

use vstd::arithmetic::mul::lemma_mul_inequality;

use crate::entry::FileEntry;
use crate::group::{group_entries, group_keys, group_members, keys_of_groups};

verus! {

/// The index of the member a group keeps: the last one that carries the
/// greatest modification time.
pub open spec fn keep_index(g: Seq<FileEntry>) -> int
    decreases g.len(),
{
    if g.len() <= 1 {
        0
    } else {
        let m = keep_index(g.drop_last());
        if g.last().modified >= g[m].modified {
            g.len() - 1
        } else {
            m
        }
    }
}

/// The members a group loses: all of them except the one at its keep
/// index, in discovery order.
pub open spec fn group_deletions(g: Seq<FileEntry>) -> Seq<FileEntry> {
    if g.len() == 0 {
        Seq::empty()
    } else {
        g.remove(keep_index(g))
    }
}

/// The deletions of the groups keyed by `keys`, group after group.
pub open spec fn dels_for_keys(entries: Seq<FileEntry>, keys: Seq<Seq<char>>) -> Seq<FileEntry>
    decreases keys.len(),
{
    if keys.len() == 0 {
        Seq::empty()
    } else {
        group_deletions(group_members(entries, keys.first())) + dels_for_keys(
            entries,
            keys.drop_first(),
        )
    }
}

/// The kept member of each group keyed by `keys`, in key order.
pub open spec fn keeps_for_keys(entries: Seq<FileEntry>, keys: Seq<Seq<char>>) -> Seq<FileEntry>
    decreases keys.len(),
{
    if keys.len() == 0 {
        Seq::empty()
    } else {
        let g = group_members(entries, keys.first());
        seq![g[keep_index(g)]] + keeps_for_keys(entries, keys.drop_first())
    }
}

/// Every file the whole run deletes, group after group in key order.
pub open spec fn plan_delete(entries: Seq<FileEntry>) -> Seq<FileEntry> {
    dels_for_keys(entries, group_keys(entries))
}

/// The file each group retains, in key order.
pub open spec fn plan_keep(entries: Seq<FileEntry>) -> Seq<FileEntry> {
    keeps_for_keys(entries, group_keys(entries))
}

/// The sum of the sizes of `s`, in bytes.
pub open spec fn sum_sizes(s: Seq<FileEntry>) -> int
    decreases s.len(),
{
    if s.len() == 0 {
        0
    } else {
        sum_sizes(s.drop_last()) + s.last().size
    }
}

/// A sum of sizes is bounded by the count of files times the largest
/// size a file can report.
pub proof fn lemma_sum_sizes_bound(s: Seq<FileEntry>)
    ensures
        0 <= sum_sizes(s) <= s.len() * 0xffff_ffff_ffff_ffff,
    decreases s.len(),
{
    if s.len() > 0 {
        lemma_sum_sizes_bound(s.drop_last());
        assert(s.len() * 0xffff_ffff_ffff_ffff == (s.len() - 1) * 0xffff_ffff_ffff_ffff
            + 0xffff_ffff_ffff_ffff) by (nonlinear_arith);
    }
}

/// The result of one run: the files to delete, the file each group
/// keeps, and the number of bytes the deletions free.
pub struct PrunePlan {
    pub delete: Vec<FileEntry>,
    pub keep: Vec<FileEntry>,
    pub total_bytes: u128,
}

/// Picks the member a group keeps and the members it loses: the kept
/// entry carries the group's greatest modification time, and between
/// equal timestamps the one discovered last wins.
pub fn prune_group(members: Vec<FileEntry>) -> (r: (FileEntry, Vec<FileEntry>))
    requires
        members@.len() > 0,
    ensures
        r.0 == members@[keep_index(members@)],
        r.1@ == group_deletions(members@),
{
    let mut members = members;
    let mut best: usize = 0;
    let mut i: usize = 1;
    proof {
        assert(members@.take(1).len() == 1);
    }
    while i < members.len()
        invariant
            1 <= i <= members@.len(),
            best < i,
            best == keep_index(members@.take(i as int)),
        decreases members@.len() - i,
    {
        proof {
            assert(members@.take(i + 1).drop_last() =~= members@.take(i as int));
            assert(members@.take(i + 1).last() == members@[i as int]);
        }
        if members[i].modified >= members[best].modified {
            best = i;
        }
        i += 1;
    }
    proof {
        assert(members@.take(members@.len() as int) =~= members@);
    }
    let kept = members.remove(best);
    (kept, members)
}

/// Sums the sizes of `v` in bytes; a 128-bit total cannot overflow.
fn sum_of(v: &Vec<FileEntry>) -> (s: u128)
    ensures
        s == sum_sizes(v@),
{
    let mut total: u128 = 0;
    let mut i: usize = 0;
    proof {
        assert(v@.take(0) =~= Seq::<FileEntry>::empty());
    }
    while i < v.len()
        invariant
            i <= v@.len(),
            total == sum_sizes(v@.take(i as int)),
        decreases v@.len() - i,
    {
        proof {
            assert(v@.take(i + 1).drop_last() =~= v@.take(i as int));
            assert(v@.take(i + 1).last() == v@[i as int]);
            lemma_sum_sizes_bound(v@.take(i as int));
            assert(usize::MAX as int <= 0xffff_ffff_ffff_ffff as int);
            lemma_mul_inequality(i as int, 0xffff_ffff_ffff_ffff, 0xffff_ffff_ffff_ffff);
            assert(0xffff_ffff_ffff_ffff * 0xffff_ffff_ffff_ffff + 0xffff_ffff_ffff_ffff
                < u128::MAX as int);
        }
        total = total + (v[i].size as u128);
        i += 1;
    }
    proof {
        assert(v@.take(v@.len() as int) =~= v@);
    }
    total
}

/// Plans a whole run over the scanned entries: groups them by logical
/// key, keeps the newest member of each group, slates the rest for
/// deletion, and sums the slated sizes. The plan is a function of the
/// entries alone.
pub fn plan_prune(entries: Vec<FileEntry>) -> (p: PrunePlan)
    ensures
        p.delete@ == plan_delete(entries@),
        p.keep@ == plan_keep(entries@),
        p.total_bytes == sum_sizes(plan_delete(entries@)),
{
    let ghost orig = entries@;
    let ghost keys = group_keys(orig);
    let mut groups = group_entries(entries);
    let ghost all_groups = groups@;
    let mut delete: Vec<FileEntry> = Vec::new();
    let mut keep: Vec<FileEntry> = Vec::new();
    let ghost mut j: int = 0;
    proof {
        assert(all_groups.skip(0) =~= all_groups);
        assert(keys.skip(0) =~= keys);
        assert(delete@ + dels_for_keys(orig, keys.skip(0)) =~= dels_for_keys(orig, keys));
        assert(keep@ + keeps_for_keys(orig, keys.skip(0)) =~= keeps_for_keys(orig, keys));
    }
    while groups.len() > 0
        invariant
            0 <= j <= keys.len(),
            keys == keys_of_groups(all_groups),
            keys.len() == all_groups.len(),
            groups@ == all_groups.skip(j),
            forall|t: int|
                0 <= t < all_groups.len() ==> (#[trigger] all_groups[t]).members@ == group_members(
                    orig,
                    all_groups[t].key@,
                ),
            forall|t: int| 0 <= t < all_groups.len() ==> (#[trigger] all_groups[t]).members@.len() > 0,
            delete@ + dels_for_keys(orig, keys.skip(j)) == dels_for_keys(orig, keys),
            keep@ + keeps_for_keys(orig, keys.skip(j)) == keeps_for_keys(orig, keys),
        decreases groups@.len(),
    {
        proof {
            assert(j < keys.len()) by {
                assert(groups@.len() == all_groups.len() - j);
            }
            assert(keys.skip(j).first() == keys[j]);
            assert(keys.skip(j).drop_first() =~= keys.skip(j + 1));
            assert(keys[j] == all_groups[j].key@);
        }
        let g = groups.remove(0);
        proof {
            assert(g == all_groups[j]);
            assert(groups@ =~= all_groups.skip(j + 1));
            assert(g.members@ == group_members(orig, keys[j]));
        }
        let (kept, mut dels) = prune_group(g.members);
        let ghost old_delete = delete@;
        let ghost old_keep = keep@;
        delete.append(&mut dels);
        keep.push(kept);
        proof {
            let gd = group_deletions(group_members(orig, keys[j]));
            assert(dels_for_keys(orig, keys.skip(j)) == gd + dels_for_keys(
                orig,
                keys.skip(j + 1),
            ));
            assert(delete@ + dels_for_keys(orig, keys.skip(j + 1)) =~= old_delete + (gd
                + dels_for_keys(orig, keys.skip(j + 1))));
            assert(delete@ + dels_for_keys(orig, keys.skip(j + 1)) == dels_for_keys(orig, keys));
            let gm = group_members(orig, keys[j]);
            assert(keeps_for_keys(orig, keys.skip(j)) == seq![gm[keep_index(gm)]]
                + keeps_for_keys(orig, keys.skip(j + 1)));
            assert(keep@ + keeps_for_keys(orig, keys.skip(j + 1)) =~= old_keep + (seq![gm[
                keep_index(gm)]] + keeps_for_keys(orig, keys.skip(j + 1))));
            assert(keep@ + keeps_for_keys(orig, keys.skip(j + 1)) == keeps_for_keys(orig, keys));
            j = j + 1;
        }
    }
    proof {
        assert(keys.skip(j) =~= Seq::<Seq<char>>::empty());
        assert(delete@ + dels_for_keys(orig, keys.skip(j)) =~= delete@);
        assert(keep@ + keeps_for_keys(orig, keys.skip(j)) =~= keep@);
    }
    let total = sum_of(&delete);
    PrunePlan { delete, keep, total_bytes: total }
}

/// The sum of a concatenation is the sum of the parts.
pub proof fn lemma_sum_concat(a: Seq<FileEntry>, b: Seq<FileEntry>)
    ensures
        sum_sizes(a + b) == sum_sizes(a) + sum_sizes(b),
    decreases b.len(),
{
    if b.len() == 0 {
        assert(a + b =~= a);
    } else {
        lemma_sum_concat(a, b.drop_last());
        assert((a + b).drop_last() =~= a + b.drop_last());
        assert((a + b).last() == b.last());
    }
}

/// The keep index always lands inside its group, on a member whose
/// modification time no other member exceeds.
pub proof fn lemma_keep_index_max(g: Seq<FileEntry>)
    requires
        g.len() > 0,
    ensures
        0 <= keep_index(g) < g.len(),
        forall|i: int| 0 <= i < g.len() ==> (#[trigger] g[i]).modified <= g[keep_index(g)].modified,
    decreases g.len(),
{
    if g.len() > 1 {
        lemma_keep_index_max(g.drop_last());
        let m = keep_index(g.drop_last());
        assert forall|i: int| 0 <= i < g.len() implies (#[trigger] g[i]).modified <= g[keep_index(
            g,
        )].modified by {
            if i < g.len() - 1 {
                assert(g.drop_last()[i] == g[i]);
                assert(g.drop_last()[m] == g[m]);
            }
        }
    }
}

/// Law: pruning a group of N members slates exactly N - 1 of them for
/// deletion and keeps exactly one; no member's modification time
/// exceeds the kept member's, and the deletions together with the kept
/// member are exactly the group.
pub proof fn lemma_prune_keeps_one_newest(g: Seq<FileEntry>)
    requires
        g.len() >= 1,
    ensures
        group_deletions(g).len() == g.len() - 1,
        0 <= keep_index(g) < g.len(),
        forall|i: int| 0 <= i < g.len() ==> (#[trigger] g[i]).modified <= g[keep_index(g)].modified,
        group_deletions(g).to_multiset().insert(g[keep_index(g)]) == g.to_multiset(),
{
    broadcast use vstd::multiset::group_multiset_axioms;
    broadcast use vstd::seq_lib::group_to_multiset_ensures;

    lemma_keep_index_max(g);
    let k = keep_index(g);
    assert(group_deletions(g).to_multiset() =~= g.to_multiset().remove(g[k]));
    assert(g.contains(g[k]));
    assert(g.to_multiset().count(g[k]) > 0);
    assert(g.to_multiset().remove(g[k]).insert(g[k]) =~= g.to_multiset());
}

/// Law: a group with a single member loses nothing.
pub proof fn lemma_singleton_group_no_deletions(g: Seq<FileEntry>)
    requires
        g.len() == 1,
    ensures
        group_deletions(g).len() == 0,
{
}

/// Law: the plan is a function of the scanned entries alone. A dry run
/// and a real run over the same entries slate the same files in the
/// same order and report the same total size; the two runs differ only
/// in whether the slated files are then removed.
pub proof fn lemma_plan_deterministic(e1: Seq<FileEntry>, e2: Seq<FileEntry>)
    requires
        e1 == e2,
    ensures
        plan_delete(e1) == plan_delete(e2),
        plan_keep(e1) == plan_keep(e2),
        sum_sizes(plan_delete(e1)) == sum_sizes(plan_delete(e2)),
{
}

/// The whole number of mebibytes in `bytes`, the remainder discarded.
pub fn mib_of(bytes: u128) -> (r: u128)
    ensures
        r == bytes / 0x100000,
{
    bytes / 0x100000
}

} // verus!

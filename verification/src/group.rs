//! Grouping: every scanned entry whose name carries a hash suffix is
//! appended to the group of its logical key; groups stand in the order
//! in which their keys were first seen, and members keep discovery order.

use vstd::prelude::*;

use crate::classify::{classify_name, key_of_name};
use crate::entry::FileEntry;

verus! {

/// One artifact group: a logical key and the entries that carry it,
/// in discovery order.
pub struct Group {
    pub key: String,
    pub members: Vec<FileEntry>,
}

/// The members of the group keyed `key`: the entries of `entries` whose
/// names classify to that logical key, in their original order.
pub open spec fn group_members(entries: Seq<FileEntry>, key: Seq<char>) -> Seq<FileEntry> {
    entries.filter(|e: FileEntry| key_of_name(e.name@) == Some(key))
}

/// The distinct logical keys of `entries`, each at the place of its
/// first occurrence.
pub open spec fn group_keys(entries: Seq<FileEntry>) -> Seq<Seq<char>>
    decreases entries.len(),
{
    if entries.len() == 0 {
        Seq::empty()
    } else {
        let prior = group_keys(entries.drop_last());
        match key_of_name(entries.last().name@) {
            Option::None => prior,
            Option::Some(k) => if prior.contains(k) {
                prior
            } else {
                prior.push(k)
            },
        }
    }
}

/// The keys of a sequence of groups, in order.
pub open spec fn keys_of_groups(groups: Seq<Group>) -> Seq<Seq<char>> {
    groups.map_values(|g: Group| g.key@)
}

/// A key that never occurs among `entries` has no members there.
pub proof fn lemma_absent_key_no_members(entries: Seq<FileEntry>, key: Seq<char>)
    requires
        !group_keys(entries).contains(key),
    ensures
        group_members(entries, key) =~= Seq::<FileEntry>::empty(),
    decreases entries.len(),
{
    reveal(Seq::filter);
    if entries.len() > 0 {
        let prior = group_keys(entries.drop_last());
        assert(!prior.contains(key)) by {
            if prior.contains(key) {
                let t = choose|t: int| 0 <= t < prior.len() && prior[t] == key;
                match key_of_name(entries.last().name@) {
                    Option::None => {
                        assert(group_keys(entries)[t] == key);
                    },
                    Option::Some(k) => {
                        if prior.contains(k) {
                            assert(group_keys(entries)[t] == key);
                        } else {
                            assert(group_keys(entries)[t] == key);
                        }
                    },
                }
            }
        }
        lemma_absent_key_no_members(entries.drop_last(), key);
        assert(key_of_name(entries.last().name@) != Some(key)) by {
            if key_of_name(entries.last().name@) == Some(key) {
                match key_of_name(entries.last().name@) {
                    Option::None => {},
                    Option::Some(k) => {
                        if prior.contains(k) {
                            assert(group_keys(entries).contains(key));
                        } else {
                            assert(group_keys(entries).last() == key);
                            assert(group_keys(entries).contains(key));
                        }
                    },
                }
            }
        }
    }
}

/// The index of the group keyed like `key`, if one stands in `groups`.
fn find_group(groups: &Vec<Group>, key: &String) -> (r: Option<usize>)
    ensures
        match r {
            Some(j) => 0 <= j < groups@.len() && groups@[j as int].key@ == key@,
            None => forall|t: int|
                0 <= t < groups@.len() ==> (#[trigger] groups@[t]).key@ != key@,
        },
{
    let mut idx: usize = 0;
    while idx < groups.len()
        invariant
            idx <= groups@.len(),
            forall|t: int| 0 <= t < idx ==> (#[trigger] groups@[t]).key@ != key@,
        decreases groups@.len() - idx,
    {
        if groups[idx].key == *key {
            return Some(idx);
        }
        idx += 1;
    }
    None
}

/// Builds the artifact groups of `entries`: one group per distinct
/// logical key, keys in first-occurrence order, members in discovery
/// order; entries whose names carry no hash suffix are ignored.
pub fn group_entries(entries: Vec<FileEntry>) -> (groups: Vec<Group>)
    ensures
        keys_of_groups(groups@) == group_keys(entries@),
        forall|j: int|
            0 <= j < groups@.len() ==> (#[trigger] groups@[j]).members@ == group_members(
                entries@,
                groups@[j].key@,
            ),
        forall|j: int| 0 <= j < groups@.len() ==> (#[trigger] groups@[j]).members@.len() > 0,
        forall|t1: int, t2: int|
            0 <= t1 < t2 < groups@.len() ==> (#[trigger] groups@[t1]).key@ != (
            #[trigger] groups@[t2]).key@,
{
    let ghost orig = entries@;
    let mut rest = entries;
    let mut groups: Vec<Group> = Vec::new();
    let ghost mut k: int = 0;
    proof {
        assert(orig.skip(0) =~= orig);
        assert(orig.take(0) =~= Seq::<FileEntry>::empty());
    }
    while rest.len() > 0
        invariant
            0 <= k <= orig.len(),
            rest@ == orig.skip(k),
            keys_of_groups(groups@) == group_keys(orig.take(k)),
            forall|j: int|
                0 <= j < groups@.len() ==> (#[trigger] groups@[j]).members@ == group_members(
                    orig.take(k),
                    groups@[j].key@,
                ),
            forall|j: int| 0 <= j < groups@.len() ==> (#[trigger] groups@[j]).members@.len() > 0,
            forall|t1: int, t2: int|
                0 <= t1 < t2 < groups@.len() ==> (#[trigger] groups@[t1]).key@ != (
                #[trigger] groups@[t2]).key@,
        decreases rest@.len(),
    {
        proof {
            assert(k < orig.len()) by {
                assert(rest@.len() == orig.len() - k);
            }
        }
        let e = rest.remove(0);
        proof {
            assert(e == orig[k]);
            assert(rest@ =~= orig.skip(k + 1));
            assert(orig.take(k + 1).drop_last() =~= orig.take(k));
            assert(orig.take(k + 1).last() == orig[k]);
        }
        let ghost prior = group_keys(orig.take(k));
        match classify_name(e.name.as_str()) {
            Option::None => {
                proof {
                    reveal(Seq::filter);
                    assert(group_keys(orig.take(k + 1)) == prior);
                    assert forall|j: int| 0 <= j < groups@.len() implies (
                    #[trigger] groups@[j]).members@ == group_members(
                        orig.take(k + 1),
                        groups@[j].key@,
                    ) by {
                        assert(group_members(orig.take(k + 1), groups@[j].key@)
                            == group_members(orig.take(k), groups@[j].key@));
                    }
                }
            },
            Option::Some(key) => {
                proof {
                    assert(key_of_name(orig[k].name@) == Some(key@));
                }
                match find_group(&groups, &key) {
                    Option::Some(j) => {
                        let ghost old_groups = groups@;
                        let mut g = groups.remove(j);
                        g.members.push(e);
                        groups.insert(j, g);
                        proof {
                            reveal(Seq::filter);
                            assert forall|t: int| 0 <= t < groups@.len() implies #[trigger]
                            groups@[t] == (if t == j as int {
                                g
                            } else {
                                old_groups[t]
                            }) by {
                                assert(groups@ == old_groups.remove(j as int).insert(
                                    j as int,
                                    g,
                                ));
                            }
                            assert(groups@.len() == old_groups.len());
                            assert(keys_of_groups(groups@) =~= keys_of_groups(old_groups));
                            assert(prior.contains(key@)) by {
                                assert(keys_of_groups(old_groups)[j as int] == key@);
                            }
                            assert(group_keys(orig.take(k + 1)) == prior);
                            assert forall|t: int| 0 <= t < groups@.len() implies (
                            #[trigger] groups@[t]).members@ == group_members(
                                orig.take(k + 1),
                                groups@[t].key@,
                            ) by {
                                if t == j as int {
                                    assert(group_members(orig.take(k + 1), key@)
                                        == group_members(orig.take(k), key@).push(orig[k]));
                                } else {
                                    assert(old_groups[t].key@ != key@);
                                    assert(group_members(orig.take(k + 1), old_groups[t].key@)
                                        == group_members(orig.take(k), old_groups[t].key@));
                                }
                            }
                        }
                    },
                    Option::None => {
                        let ghost old_groups = groups@;
                        let mut members: Vec<FileEntry> = Vec::new();
                        members.push(e);
                        groups.push(Group { key, members });
                        proof {
                            reveal(Seq::filter);
                            let g = groups@.last();
                            assert(!prior.contains(key@)) by {
                                if prior.contains(key@) {
                                    let t = choose|t: int|
                                        0 <= t < prior.len() && prior[t] == key@;
                                    assert(keys_of_groups(old_groups)[t] == key@);
                                    assert(old_groups[t].key@ == key@);
                                }
                            }
                            assert(group_keys(orig.take(k + 1)) == prior.push(key@));
                            assert(keys_of_groups(groups@) =~= prior.push(key@));
                            lemma_absent_key_no_members(orig.take(k), key@);
                            assert forall|t: int| 0 <= t < groups@.len() implies (
                            #[trigger] groups@[t]).members@ == group_members(
                                orig.take(k + 1),
                                groups@[t].key@,
                            ) by {
                                if t == groups@.len() - 1 {
                                    assert(group_members(orig.take(k + 1), key@)
                                        == group_members(orig.take(k), key@).push(orig[k]));
                                    assert(groups@[t].members@ =~= group_members(
                                        orig.take(k + 1),
                                        key@,
                                    ));
                                } else {
                                    assert(groups@[t] == old_groups[t]);
                                    assert(old_groups[t].key@ != key@);
                                    assert(group_members(orig.take(k + 1), old_groups[t].key@)
                                        == group_members(orig.take(k), old_groups[t].key@));
                                }
                            }
                        }
                    },
                }
            },
        }
        proof {
            k = k + 1;
        }
    }
    proof {
        assert(orig.take(k) =~= orig);
    }
    groups
}

} // verus!

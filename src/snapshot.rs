//! Snapshots and the updates that carry one snapshot to the next.
use vstd::prelude::*;
use crate::entry::{Entry, EntryView};
use crate::path::RelPath;
use crate::store::{EntryStore, entry_views};

verus! {

pub type EntryMap = Map<Seq<Seq<u8>>, EntryView>;

/// Takes the paths out of a map, one after the other.
pub open spec fn remove_all(m: EntryMap, paths: Seq<Seq<Seq<u8>>>) -> EntryMap
    decreases paths.len(),
{
    if paths.len() == 0 {
        m
    } else {
        remove_all(m, paths.drop_last()).remove(paths.last())
    }
}

/// Puts the entries into a map under their paths, one after the other.
pub open spec fn insert_all(m: EntryMap, entries: Seq<EntryView>) -> EntryMap
    decreases entries.len(),
{
    if entries.len() == 0 {
        m
    } else {
        insert_all(m, entries.drop_last()).insert(entries.last().path, entries.last())
    }
}

/// The effect of an update on the entries: the removed paths go, then the
/// updated entries are put in.
pub open spec fn apply_changes(m: EntryMap, removed: Seq<Seq<Seq<u8>>>, updated: Seq<EntryView>) -> EntryMap {
    insert_all(remove_all(m, removed), updated)
}

/// The entries after a sequence of updates, each a pair of removed paths and
/// updated entries, applied in turn.
pub open spec fn replay(m: EntryMap, updates: Seq<(Seq<Seq<Seq<u8>>>, Seq<EntryView>)>) -> EntryMap
    decreases updates.len(),
{
    if updates.len() == 0 {
        m
    } else {
        let u = updates.last();
        apply_changes(replay(m, updates.drop_last()), u.0, u.1)
    }
}

proof fn lemma_remove_all(m: EntryMap, paths: Seq<Seq<Seq<u8>>>)
    ensures
        remove_all(m, paths) == m.remove_keys(paths.to_set()),
    decreases paths.len(),
{
    if paths.len() == 0 {
        assert(m.remove_keys(paths.to_set()) =~= m);
    } else {
        lemma_remove_all(m, paths.drop_last());
        assert(paths.to_set() =~= paths.drop_last().to_set().insert(paths.last())) by {
            assert(paths =~= paths.drop_last().push(paths.last()));
            paths.drop_last().lemma_push_to_set_commute(paths.last());
        }
        assert(remove_all(m, paths) =~= m.remove_keys(paths.to_set()));
    }
}

/// An update: the paths taken out and the entries put in since the snapshot
/// with id `base_scan_id`, leading to the one with id `scan_id`.
pub struct Update {
    pub scan_id: u64,
    pub base_scan_id: u64,
    pub removed_paths: Vec<RelPath>,
    pub updated_entries: Vec<Entry>,
}

impl Update {
    pub open spec fn removed_view(&self) -> Seq<Seq<Seq<u8>>> {
        path_views(self.removed_paths@)
    }

    pub open spec fn updated_view(&self) -> Seq<EntryView> {
        entry_views(self.updated_entries@)
    }
}

#[derive(Clone, Copy, Debug, PartialEq, Eq, Structural)]
pub enum UpdateError {
    /// The update does not start from this snapshot's scan.
    OutOfOrder,
}

/// The entries of the tree as of one scan.
pub struct Snapshot {
    pub scan_id: u64,
    pub store: EntryStore,
}

impl Snapshot {
    pub open spec fn wf(&self) -> bool {
        self.store.wf()
    }

    pub open spec fn entries(&self) -> EntryMap {
        self.store.map()
    }

    pub fn new(scan_id: u64) -> (r: Snapshot)
        ensures
            r.wf(),
            r.scan_id == scan_id,
            r.entries() == EntryMap::empty(),
    {
        Snapshot { scan_id, store: EntryStore::new() }
    }

    /// A copy of the snapshot; it lists the same entries in the same order.
    pub fn copy(&self) -> (r: Snapshot)
        requires
            self.wf(),
        ensures
            r.wf(),
            r.scan_id == self.scan_id,
            r.entries() == self.entries(),
            r.store@ == self.store@,
    {
        Snapshot { scan_id: self.scan_id, store: self.store.copy() }
    }

    /// Brings the snapshot forward by one update. An update that is not newer
    /// than the snapshot changes nothing; a newer one that does not start
    /// from this snapshot's scan is refused.
    pub fn apply_remote_update(&mut self, update: &Update) -> (r: Result<(), UpdateError>)
        requires
            old(self).wf(),
        ensures
            final(self).wf(),
            update.scan_id <= old(self).scan_id ==> r is Ok && final(self).scan_id == old(self).scan_id
                && final(self).entries() == old(self).entries() && final(self).store@ == old(self).store@,
            update.scan_id > old(self).scan_id && update.base_scan_id != old(self).scan_id ==> r
                == Err::<(), UpdateError>(UpdateError::OutOfOrder) && final(self).scan_id == old(self).scan_id && final(self).entries() == old(self).entries() && final(self).store@ == old(self).store@,
            update.scan_id > old(self).scan_id && update.base_scan_id == old(self).scan_id ==> r is Ok
                && final(self).scan_id == update.scan_id && final(self).entries() == apply_changes(
                old(self).entries(),
                update.removed_view(),
                update.updated_view(),
            ),
    {
        if update.scan_id <= self.scan_id {
            return Ok(());
        }
        if update.base_scan_id != self.scan_id {
            return Err(UpdateError::OutOfOrder);
        }
        let ghost m0 = self.store.map();
        let mut i: usize = 0;
        while i < update.removed_paths.len()
            invariant
                self.store.wf(),
                i <= update.removed_paths.len(),
                self.store.map() == remove_all(m0, update.removed_view().subrange(0, i as int)),
            decreases update.removed_paths.len() - i,
        {
            self.store.remove(&update.removed_paths[i]);
            proof {
                let rs = update.removed_view().subrange(0, i as int + 1);
                assert(rs.drop_last() =~= update.removed_view().subrange(0, i as int));
            }
            i = i + 1;
        }
        assert(update.removed_view().subrange(0, i as int) =~= update.removed_view());
        let ghost m1 = self.store.map();
        let mut j: usize = 0;
        while j < update.updated_entries.len()
            invariant
                self.store.wf(),
                j <= update.updated_entries.len(),
                self.store.map() == insert_all(m1, update.updated_view().subrange(0, j as int)),
            decreases update.updated_entries.len() - j,
        {
            let e = update.updated_entries[j].copy();
            self.store.insert_or_replace(e);
            proof {
                let us = update.updated_view().subrange(0, j as int + 1);
                assert(us.drop_last() =~= update.updated_view().subrange(0, j as int));
            }
            j = j + 1;
        }
        assert(update.updated_view().subrange(0, j as int) =~= update.updated_view());
        self.scan_id = update.scan_id;
        Ok(())
    }

    /// The update that carries `old` to `new`: the paths that `new` lacks, and
    /// the entries of `new` that `old` lacks or holds otherwise, in order.
    pub fn build_update(old: &Snapshot, new: &Snapshot) -> (r: Update)
        requires
            old.wf(),
            new.wf(),
        ensures
            r.scan_id == new.scan_id,
            r.base_scan_id == old.scan_id,
            apply_changes(old.entries(), r.removed_view(), r.updated_view()) == new.entries(),
    {
        let ghost om = old.entries();
        let ghost nm = new.entries();
        proof {
            old.store.lemma_wf();
            new.store.lemma_wf();
        }
        let mut removed: Vec<RelPath> = Vec::new();
        let mut i: usize = 0;
        while i < old.store.len()
            invariant
                old.wf(),
                new.wf(),
                om == old.entries(),
                nm == new.entries(),
                i <= old.store@.len(),
                forall|p: Seq<Seq<u8>>|
                    #[trigger] path_views(removed@).contains(p) ==> gone_before(old.store@, i as int, nm, p),
                forall|p: Seq<Seq<u8>>|
                    #[trigger] gone_before(old.store@, i as int, nm, p) ==> path_views(removed@).contains(p),
            decreases old.store@.len() - i,
        {
            let e = old.store.entry_at(i);
            let ghost before = path_views(removed@);
            if new.store.get(&e.path).is_none() {
                removed.push(e.path.copy());
                proof {
                    let rv = path_views(removed@);
                    assert(rv =~= before.push(e.path@));
                    assert forall|p: Seq<Seq<u8>>| #[trigger] rv.contains(p) implies gone_before(
                        old.store@,
                        i + 1,
                        nm,
                        p,
                    ) by {
                        if p == e.path@ {
                            assert(old.store@[i as int].path == p);
                        } else {
                            let l = choose|l: int| 0 <= l < rv.len() && #[trigger] rv[l] == p;
                            assert(before[l] == p);
                            assert(before.contains(p));
                            let k = choose|k: int|
                                0 <= k < i && (#[trigger] old.store@[k]).path == p && !nm.contains_key(p);
                            assert(0 <= k < i + 1);
                        }
                    }
                    assert forall|p: Seq<Seq<u8>>| #[trigger] gone_before(old.store@, i + 1, nm, p) implies rv.contains(
                        p,
                    ) by {
                        let k = choose|k: int|
                            0 <= k < i + 1 && (#[trigger] old.store@[k]).path == p && !nm.contains_key(p);
                        if k == i {
                            assert(rv[rv.len() - 1] == p);
                        } else {
                            assert(gone_before(old.store@, i as int, nm, p));
                            assert(before.contains(p));
                            let l = choose|l: int| 0 <= l < before.len() && #[trigger] before[l] == p;
                            assert(rv[l] == p);
                        }
                    }
                }
            } else {
                proof {
                    assert forall|p: Seq<Seq<u8>>|
                        #[trigger] gone_before(old.store@, i + 1, nm, p) implies before.contains(p) by {
                        let k = choose|k: int|
                            0 <= k < i + 1 && (#[trigger] old.store@[k]).path == p && !nm.contains_key(p);
                        assert(k != i);
                        assert(gone_before(old.store@, i as int, nm, p));
                    }
                    assert forall|p: Seq<Seq<u8>>| #[trigger] before.contains(p) implies gone_before(
                        old.store@,
                        i + 1,
                        nm,
                        p,
                    ) by {
                        let k = choose|k: int|
                            0 <= k < i && (#[trigger] old.store@[k]).path == p && !nm.contains_key(p);
                        assert(0 <= k < i + 1);
                    }
                }
            }
            i = i + 1;
        }
        let mut updated: Vec<Entry> = Vec::new();
        let mut j: usize = 0;
        while j < new.store.len()
            invariant
                old.wf(),
                new.wf(),
                om == old.entries(),
                nm == new.entries(),
                j <= new.store@.len(),
                forall|p: Seq<Seq<u8>>| #[trigger]
                    insert_all(EntryMap::empty(), entry_views(updated@)).contains_key(p) ==> nm.contains_key(p)
                        && insert_all(EntryMap::empty(), entry_views(updated@))[p] == nm[p],
                forall|k: int|
                    0 <= k < j && (!om.contains_key(#[trigger] new.store@[k].path) || om[new.store@[k].path]
                        != nm[new.store@[k].path]) ==> insert_all(EntryMap::empty(), entry_views(updated@)).contains_key(
                        new.store@[k].path,
                    ),
            decreases new.store@.len() - j,
        {
            let e = new.store.entry_at(j);
            proof {
                old.store.lemma_wf();
                new.store.lemma_wf();
            }
            let changed = match old.store.get(&e.path) {
                Some(o) => !o.same_as(e),
                None => true,
            };
            if changed {
                let ghost before = updated@;
                updated.push(e.copy());
                proof {
                    assert(entry_views(updated@) =~= entry_views(before).push(e@));
                    assert(entry_views(updated@).drop_last() =~= entry_views(before));
                    assert(nm.contains_key(new.store@[j as int].path));
                    assert(nm[e@.path] == e@);
                    let um0 = insert_all(EntryMap::empty(), entry_views(before));
                    let um = insert_all(EntryMap::empty(), entry_views(updated@));
                    assert(um == um0.insert(e@.path, e@));
                    assert forall|p: Seq<Seq<u8>>| #[trigger] um.contains_key(p) implies nm.contains_key(p)
                        && um[p] == nm[p] by {
                        if p != e@.path {
                            assert(um0.contains_key(p));
                        }
                    }
                }
            }
            j = j + 1;
        }
        proof {
            lemma_remove_all(om, path_views(removed@));
            let rv = path_views(removed@);
            let um = insert_all(EntryMap::empty(), entry_views(updated@));
            lemma_insert_all_union(om.remove_keys(rv.to_set()), entry_views(updated@));
            let res = om.remove_keys(rv.to_set()).union_prefer_right(um);
            assert forall|p: Seq<Seq<u8>>| res.contains_key(p) <==> nm.contains_key(p) by {
                if nm.contains_key(p) {
                    let k = choose|k: int| 0 <= k < new.store@.len() && new.store@[k].path == p;
                    assert(new.store@[k].path == p);
                    if !um.contains_key(p) {
                        assert(om.contains_key(p));
                        if rv.to_set().contains(p) {
                            assert(rv.contains(p));
                            assert(gone_before(old.store@, old.store@.len() as int, nm, p));
                        }
                    }
                } else if om.contains_key(p) {
                    let k = choose|k: int| 0 <= k < old.store@.len() && old.store@[k].path == p;
                    assert(old.store@[k].path == p);
                    assert(gone_before(old.store@, old.store@.len() as int, nm, p));
                    assert(rv.contains(p));
                    assert(rv.to_set().contains(p));
                }
            }
            assert forall|p: Seq<Seq<u8>>| res.contains_key(p) implies res[p] == nm[p] by {
                if !um.contains_key(p) {
                    let k = choose|k: int| 0 <= k < new.store@.len() && new.store@[k].path == p;
                    assert(new.store@[k].path == p);
                }
            }
            assert(res =~= nm);
        }
        Update { scan_id: new.scan_id, base_scan_id: old.scan_id, removed_paths: removed, updated_entries: updated }
    }
}

pub open spec fn path_views(v: Seq<RelPath>) -> Seq<Seq<Seq<u8>>> {
    v.map_values(|p: RelPath| p@)
}

/// Some entry before position `i` has path `p`, and `p` is gone from `nm`.
pub open spec fn gone_before(s: Seq<EntryView>, i: int, nm: EntryMap, p: Seq<Seq<u8>>) -> bool {
    exists|k: int| 0 <= k < i && (#[trigger] s[k]).path == p && !nm.contains_key(p)
}

proof fn lemma_insert_all_union(m: EntryMap, es: Seq<EntryView>)
    ensures
        insert_all(m, es) == m.union_prefer_right(insert_all(EntryMap::empty(), es)),
    decreases es.len(),
{
    if es.len() == 0 {
        assert(m.union_prefer_right(EntryMap::empty()) =~= m);
    } else {
        lemma_insert_all_union(m, es.drop_last());
        assert(insert_all(m, es) =~= m.union_prefer_right(insert_all(EntryMap::empty(), es)));
    }
}

/// Replaying updates on any copy of a snapshot reaches the writer's state:
/// when each update carries the writer's entries of one scan to those of the
/// next, applying all of them in turn to the first entries gives the last.
pub proof fn lemma_replay_reaches_writer(
    states: Seq<EntryMap>,
    updates: Seq<(Seq<Seq<Seq<u8>>>, Seq<EntryView>)>,
)
    requires
        states.len() == updates.len() + 1,
        forall|k: int|
            0 <= k < updates.len() ==> apply_changes(states[k], (#[trigger] updates[k]).0, updates[k].1)
                == states[k + 1],
    ensures
        replay(states[0], updates) == states.last(),
    decreases updates.len(),
{
    if updates.len() > 0 {
        let n = updates.len() - 1;
        assert forall|k: int| 0 <= k < updates.drop_last().len() implies apply_changes(
            states.drop_last()[k],
            (#[trigger] updates.drop_last()[k]).0,
            updates.drop_last()[k].1,
        ) == states.drop_last()[k + 1] by {
            assert(updates.drop_last()[k] == updates[k]);
            assert(apply_changes(states[k], updates[k].0, updates[k].1) == states[k + 1]);
        }
        lemma_replay_reaches_writer(states.drop_last(), updates.drop_last());
        assert(apply_changes(states[n], updates[n].0, updates[n].1) == states[n + 1]);
    }
}

/// A copy that took the writer's updates lists the writer's entries in the
/// writer's order: once the entries agree, so does the order.
pub proof fn lemma_replica_matches_writer(replica: &Snapshot, writer: &Snapshot, states: Seq<EntryMap>, updates: Seq<(Seq<Seq<Seq<u8>>>, Seq<EntryView>)>)
    requires
        replica.wf(),
        writer.wf(),
        states.len() == updates.len() + 1,
        forall|k: int|
            0 <= k < updates.len() ==> apply_changes(states[k], (#[trigger] updates[k]).0, updates[k].1)
                == states[k + 1],
        states.last() == writer.entries(),
        replica.entries() == replay(states[0], updates),
    ensures
        replica.store@ == writer.store@,
{
    lemma_replay_reaches_writer(states, updates);
    EntryStore::lemma_same_map_same_order(&replica.store, &writer.store);
}

} // verus!

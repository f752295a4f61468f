//! The change events between two snapshots, in path order.
use vstd::prelude::*;
use crate::entry::{EntryKind, EntryView};
use crate::path::{lemma_path_order, parent_of, path_lt, RelPath};
use crate::snapshot::{EntryMap, Snapshot};

verus! {

#[derive(Clone, Copy, Debug, PartialEq, Eq, Structural)]
pub enum PathChange {
    Added,
    Removed,
    Updated,
    AddedOrUpdated,
    /// Present now because its unread directory was read.
    Loaded,
}

/// One event: a path, the id of its entry, and what happened to it.
pub struct Change {
    pub path: RelPath,
    pub id: u64,
    pub kind: PathChange,
}

pub struct ChangeView {
    pub path: Seq<Seq<u8>>,
    pub id: u64,
    pub kind: PathChange,
}

impl View for Change {
    type V = ChangeView;

    open spec fn view(&self) -> ChangeView {
        ChangeView { path: self.path@, id: self.id, kind: self.kind }
    }
}

pub open spec fn change_views(v: Seq<Change>) -> Seq<ChangeView> {
    v.map_values(|c: Change| c@)
}

/// The entry at `p` went away, or another entry took its path.
pub open spec fn is_removal(old: EntryMap, new: EntryMap, p: Seq<Seq<u8>>) -> bool {
    old.contains_key(p) && (!new.contains_key(p) || new[p].id != old[p].id)
}

/// The entry at `p` is new at its path.
pub open spec fn is_addition(old: EntryMap, new: EntryMap, p: Seq<Seq<u8>>) -> bool {
    new.contains_key(p) && (!old.contains_key(p) || new[p].id != old[p].id)
}

/// A directory that was not read and is read now.
pub open spec fn unread_kind(k: EntryKind) -> bool {
    k == EntryKind::UnloadedDir || k == EntryKind::PendingDir
}

/// The same entry is at `p`, a directory read in this cycle.
pub open spec fn is_load(old: EntryMap, new: EntryMap, p: Seq<Seq<u8>>) -> bool {
    &&& old.contains_key(p)
    &&& new.contains_key(p)
    &&& new[p].id == old[p].id
    &&& unread_kind(old[p].kind)
    &&& new[p].kind == EntryKind::Dir
}

/// The same entry is at `p`, changed otherwise than by being read.
pub open spec fn is_update(old: EntryMap, new: EntryMap, p: Seq<Seq<u8>>) -> bool {
    old.contains_key(p) && new.contains_key(p) && new[p].id == old[p].id && new[p] != old[p] && !is_load(
        old,
        new,
        p,
    )
}

/// Some ancestor of `p` was an unread directory in `old`.
pub open spec fn below_unread(old: EntryMap, p: Seq<Seq<u8>>) -> bool {
    exists|k: int|
        0 <= k < p.len() && old.contains_key(#[trigger] p.subrange(0, k)) && unread_kind(old[p.subrange(0, k)].kind)
}

/// An addition is reported as loaded where it lies below a directory that
/// was not read before, so that it appears because that directory was read.
pub open spec fn addition_kind(old: EntryMap, p: Seq<Seq<u8>>) -> PathChange {
    if below_unread(old, p) {
        PathChange::Loaded
    } else {
        PathChange::Added
    }
}

/// Each event is one of the kinds of change, with the right id.
pub open spec fn change_sound(old: EntryMap, new: EntryMap, c: ChangeView) -> bool {
    match c.kind {
        PathChange::Removed => is_removal(old, new, c.path) && c.id == old[c.path].id,
        PathChange::Updated => is_update(old, new, c.path) && c.id == new[c.path].id,
        PathChange::Added => is_addition(old, new, c.path) && c.id == new[c.path].id && addition_kind(old, c.path)
            == PathChange::Added,
        PathChange::Loaded => c.id == new[c.path].id && (is_load(old, new, c.path) || (is_addition(old, new, c.path)
            && addition_kind(old, c.path) == PathChange::Loaded)),
        PathChange::AddedOrUpdated => false,
    }
}

pub open spec fn has_change(cs: Seq<ChangeView>, p: Seq<Seq<u8>>, kind: PathChange) -> bool {
    exists|k: int| 0 <= k < cs.len() && (#[trigger] cs[k]).path == p && cs[k].kind == kind
}

/// Paths strictly increase, but for a removal directly followed by an
/// addition at the same path.
pub open spec fn event_order(cs: Seq<ChangeView>) -> bool {
    forall|a: int, b: int|
        0 <= a < b < cs.len() ==> path_lt(#[trigger] cs[a].path, #[trigger] cs[b].path) || (b == a + 1 && cs[a].path
            == cs[b].path && cs[a].kind == PathChange::Removed && cs[b].kind != PathChange::Removed)
}

/// The events between the entries `old` and `new`: every one is sound, every
/// change has its event, and they come in path order.
pub open spec fn changes_between(old: EntryMap, new: EntryMap, cs: Seq<ChangeView>) -> bool {
    &&& forall|k: int| 0 <= k < cs.len() ==> change_sound(old, new, #[trigger] cs[k])
    &&& forall|p: Seq<Seq<u8>>| #[trigger] is_removal(old, new, p) ==> has_change(cs, p, PathChange::Removed)
    &&& forall|p: Seq<Seq<u8>>| #[trigger] is_addition(old, new, p) ==> has_change(cs, p, addition_kind(old, p))
    &&& forall|p: Seq<Seq<u8>>| #[trigger] is_update(old, new, p) ==> has_change(cs, p, PathChange::Updated)
    &&& forall|p: Seq<Seq<u8>>| #[trigger] is_load(old, new, p) ==> has_change(cs, p, PathChange::Loaded)
    &&& event_order(cs)
}

fn addition_kind_of(old: &Snapshot, path: &RelPath) -> (r: PathChange)
    requires
        old.wf(),
    ensures
        r == addition_kind(old.entries(), path@),
{
    let mut k: usize = 0;
    while k < path.depth()
        invariant
            old.wf(),
            k <= path@.len(),
            forall|j: int|
                0 <= j < k ==> !(old.entries().contains_key(#[trigger] path@.subrange(0, j)) && unread_kind(
                    old.entries()[path@.subrange(0, j)].kind,
                )),
        decreases path@.len() - k,
    {
        let a = path.prefix(k);
        match old.store.get(&a) {
            Some(e) => {
                if e.kind == EntryKind::UnloadedDir || e.kind == EntryKind::PendingDir {
                    assert(old.entries().contains_key(path@.subrange(0, k as int)));
                    return PathChange::Loaded;
                }
            },
            None => {},
        }
        k = k + 1;
    }
    PathChange::Added
}

/// The events that lead from `old` to `new`, in path order; where another
/// entry took a path, its removal comes before its addition.
pub fn changes(old: &Snapshot, new: &Snapshot) -> (r: Vec<Change>)
    requires
        old.wf(),
        new.wf(),
    ensures
        changes_between(old.entries(), new.entries(), change_views(r@)),
{
    let ghost om = old.entries();
    let ghost nm = new.entries();
    let ghost os = old.store@;
    let ghost ns = new.store@;
    proof {
        old.store.lemma_wf();
        new.store.lemma_wf();
        lemma_path_order();
    }
    let n_old = old.store.len();
    let n_new = new.store.len();
    let mut out: Vec<Change> = Vec::new();
    let mut i: usize = 0;
    let mut j: usize = 0;
    while i < n_old || j < n_new
        invariant
            old.wf(),
            new.wf(),
            om == old.entries(),
            nm == new.entries(),
            os == old.store@,
            ns == new.store@,
            n_old == os.len(),
            n_new == ns.len(),
            i <= n_old,
            j <= n_new,
            crate::store::sorted_by_path(os),
            crate::store::sorted_by_path(ns),
            forall|k: int| 0 <= k < os.len() ==> om.contains_key(#[trigger] os[k].path) && om[os[k].path] == os[k],
            forall|k: int| 0 <= k < ns.len() ==> nm.contains_key(#[trigger] ns[k].path) && nm[ns[k].path] == ns[k],
            forall|p: Seq<Seq<u8>>| #[trigger]
                om.contains_key(p) ==> exists|k: int| 0 <= k < os.len() && os[k].path == p,
            forall|p: Seq<Seq<u8>>| #[trigger]
                nm.contains_key(p) ==> exists|k: int| 0 <= k < ns.len() && ns[k].path == p,
            forall|a: int, b: int| 0 <= a < j && i <= b < n_old ==> path_lt(#[trigger] ns[a].path, #[trigger] os[b].path),
            forall|a: int, b: int| 0 <= a < i && j <= b < n_new ==> path_lt(#[trigger] os[a].path, #[trigger] ns[b].path),
            forall|k: int| 0 <= k < change_views(out@).len() ==> change_sound(om, nm, #[trigger] change_views(out@)[k]),
            forall|k: int|
                0 <= k < i && is_removal(om, nm, #[trigger] os[k].path) ==> has_change(
                    change_views(out@),
                    os[k].path,
                    PathChange::Removed,
                ),
            forall|k: int|
                0 <= k < j && is_addition(om, nm, #[trigger] ns[k].path) ==> has_change(
                    change_views(out@),
                    ns[k].path,
                    addition_kind(om, ns[k].path),
                ),
            forall|k: int|
                0 <= k < j && is_update(om, nm, #[trigger] ns[k].path) ==> has_change(
                    change_views(out@),
                    ns[k].path,
                    PathChange::Updated,
                ),
            forall|k: int|
                0 <= k < j && is_load(om, nm, #[trigger] ns[k].path) ==> has_change(
                    change_views(out@),
                    ns[k].path,
                    PathChange::Loaded,
                ),
            event_order(change_views(out@)),
            forall|c: int, b: int|
                0 <= c < change_views(out@).len() && i <= b < n_old ==> path_lt(
                    #[trigger] change_views(out@)[c].path,
                    #[trigger] os[b].path,
                ),
            forall|c: int, b: int|
                0 <= c < change_views(out@).len() && j <= b < n_new ==> path_lt(
                    #[trigger] change_views(out@)[c].path,
                    #[trigger] ns[b].path,
                ),
        decreases n_old - i + n_new - j,
    {
        let ghost before = change_views(out@);
        proof {
            lemma_path_order();
        }
        let take_old = if i == n_old {
            false
        } else if j == n_new {
            true
        } else {
            old.store.entry_at(i).path.path_lt(&new.store.entry_at(j).path)
        };
        let take_new = if take_old {
            false
        } else if j == n_new {
            false
        } else if i == n_old {
            true
        } else {
            new.store.entry_at(j).path.path_lt(&old.store.entry_at(i).path)
        };
        if take_old {
            let e = old.store.entry_at(i);
            proof {
                assert(!nm.contains_key(e@.path)) by {
                    if nm.contains_key(e@.path) {
                        let k = choose|k: int| 0 <= k < ns.len() && ns[k].path == e@.path;
                        if k < j {
                            assert(path_lt(ns[k].path, os[i as int].path));
                        } else {
                            assert(path_lt(os[i as int].path, ns[j as int].path));
                            if k > j {
                                assert(path_lt(ns[j as int].path, ns[k].path));
                            }
                        }
                    }
                }
            }
            proof {
                assert forall|b: int| j <= b < ns.len() implies path_lt(os[i as int].path, #[trigger] ns[b].path) by {
                    if b > j {
                        assert(path_lt(ns[j as int].path, ns[b].path));
                    }
                }
                assert forall|b: int| i + 1 <= b < os.len() implies path_lt(os[i as int].path, #[trigger] os[b].path) by {
                }
            }
            out.push(Change { path: e.path.copy(), id: e.id, kind: PathChange::Removed });
            proof {
                let cv = ChangeView { path: e@.path, id: e.id, kind: PathChange::Removed };
                assert(change_views(out@) =~= before.push(cv));
                assert(change_sound(om, nm, cv));
                lemma_has_change_push(before, cv);
                lemma_push_strict(before, cv);
            }
            i = i + 1;
        } else if take_new {
            let e = new.store.entry_at(j);
            let kind = addition_kind_of(old, &e.path);
            proof {
                assert(!om.contains_key(e@.path)) by {
                    if om.contains_key(e@.path) {
                        let k = choose|k: int| 0 <= k < os.len() && os[k].path == e@.path;
                        if k < i {
                            assert(path_lt(os[k].path, ns[j as int].path));
                        } else {
                            assert(path_lt(ns[j as int].path, os[i as int].path));
                            if k > i {
                                assert(path_lt(os[i as int].path, os[k].path));
                            }
                        }
                    }
                }
            }
            proof {
                assert forall|b: int| i <= b < os.len() implies path_lt(ns[j as int].path, #[trigger] os[b].path) by {
                    if b > i {
                        assert(path_lt(os[i as int].path, os[b].path));
                    }
                }
                assert forall|b: int| j + 1 <= b < ns.len() implies path_lt(ns[j as int].path, #[trigger] ns[b].path) by {
                }
            }
            out.push(Change { path: e.path.copy(), id: e.id, kind });
            proof {
                let cv = ChangeView { path: e@.path, id: e.id, kind };
                assert(change_views(out@) =~= before.push(cv));
                assert(change_sound(om, nm, cv));
                lemma_has_change_push(before, cv);
                lemma_push_strict(before, cv);
            }
            j = j + 1;
        } else {
            let o = old.store.entry_at(i);
            let e = new.store.entry_at(j);
            proof {
                assert(os[i as int].path == ns[j as int].path);
                assert forall|b: int| i + 1 <= b < os.len() implies path_lt(ns[j as int].path, #[trigger] os[b].path) by {
                }
                assert forall|b: int| j + 1 <= b < ns.len() implies path_lt(os[i as int].path, #[trigger] ns[b].path) by {
                }
            }
            if o.id != e.id {
                out.push(Change { path: o.path.copy(), id: o.id, kind: PathChange::Removed });
                let ghost mid = change_views(out@);
                proof {
                    let cv = ChangeView { path: o@.path, id: o.id, kind: PathChange::Removed };
                    assert(mid =~= before.push(cv));
                    assert(change_sound(om, nm, cv));
                    lemma_has_change_push(before, cv);
                    lemma_push_strict(before, cv);
                }
                let kind = addition_kind_of(old, &e.path);
                out.push(Change { path: e.path.copy(), id: e.id, kind });
                proof {
                    let cv = ChangeView { path: e@.path, id: e.id, kind };
                    assert(change_views(out@) =~= mid.push(cv));
                    assert(change_sound(om, nm, cv));
                    lemma_has_change_push(mid, cv);
                    lemma_push_pair(before, mid.last(), cv);
                }
            } else if (o.kind == EntryKind::UnloadedDir || o.kind == EntryKind::PendingDir) && e.kind == EntryKind::Dir {
                out.push(Change { path: e.path.copy(), id: e.id, kind: PathChange::Loaded });
                proof {
                    let cv = ChangeView { path: e@.path, id: e.id, kind: PathChange::Loaded };
                    assert(change_views(out@) =~= before.push(cv));
                    assert(is_load(om, nm, e@.path));
                    assert(change_sound(om, nm, cv));
                    lemma_has_change_push(before, cv);
                    lemma_push_strict(before, cv);
                }
            } else if !o.same_as(e) {
                out.push(Change { path: e.path.copy(), id: e.id, kind: PathChange::Updated });
                proof {
                    let cv = ChangeView { path: e@.path, id: e.id, kind: PathChange::Updated };
                    assert(change_views(out@) =~= before.push(cv));
                    assert(change_sound(om, nm, cv));
                    lemma_has_change_push(before, cv);
                    lemma_push_strict(before, cv);
                }
            }
            i = i + 1;
            j = j + 1;
        }
    }
    proof {
        let cs = change_views(out@);
        assert forall|p: Seq<Seq<u8>>| #[trigger] is_removal(om, nm, p) implies has_change(cs, p, PathChange::Removed) by {
            let k = choose|k: int| 0 <= k < os.len() && os[k].path == p;
            assert(is_removal(om, nm, os[k].path));
        }
        assert forall|p: Seq<Seq<u8>>| #[trigger] is_addition(om, nm, p) implies has_change(
            cs,
            p,
            addition_kind(om, p),
        ) by {
            let k = choose|k: int| 0 <= k < ns.len() && ns[k].path == p;
            assert(is_addition(om, nm, ns[k].path));
        }
        assert forall|p: Seq<Seq<u8>>| #[trigger] is_load(om, nm, p) implies has_change(cs, p, PathChange::Loaded) by {
            let k = choose|k: int| 0 <= k < ns.len() && ns[k].path == p;
            assert(is_load(om, nm, ns[k].path));
        }
        assert forall|p: Seq<Seq<u8>>| #[trigger] is_update(om, nm, p) implies has_change(cs, p, PathChange::Updated) by {
            let k = choose|k: int| 0 <= k < ns.len() && ns[k].path == p;
            assert(is_update(om, nm, ns[k].path));
        }
    }
    out
}

proof fn lemma_has_change_push(before: Seq<ChangeView>, c: ChangeView)
    ensures
        forall|p: Seq<Seq<u8>>, kind: PathChange| has_change(before, p, kind) ==> #[trigger] has_change(before.push(c), p, kind),
        has_change(before.push(c), c.path, c.kind),
{
    assert forall|p: Seq<Seq<u8>>, kind: PathChange| has_change(before, p, kind) implies #[trigger] has_change(
        before.push(c),
        p,
        kind,
    ) by {
        let k = choose|k: int| 0 <= k < before.len() && (#[trigger] before[k]).path == p && before[k].kind == kind;
        assert(before.push(c)[k] == before[k]);
    }
    assert(before.push(c)[before.len() as int] == c);
}

/// An event at a path after every earlier event's keeps the order.
proof fn lemma_push_strict(before: Seq<ChangeView>, c: ChangeView)
    requires
        event_order(before),
        forall|k: int| 0 <= k < before.len() ==> path_lt(#[trigger] before[k].path, c.path),
    ensures
        event_order(before.push(c)),
{
    let after = before.push(c);
    assert forall|a: int, b: int| 0 <= a < b < after.len() implies path_lt(#[trigger] after[a].path, #[trigger] after[b].path)
        || (b == a + 1 && after[a].path == after[b].path && after[a].kind == PathChange::Removed && after[b].kind
        != PathChange::Removed) by {
        assert(after[a] == before[a]);
        if b < before.len() {
            assert(after[b] == before[b]);
        }
    }
}

/// A removal and then an addition at one path, after every earlier event's,
/// keep the order.
proof fn lemma_push_pair(before: Seq<ChangeView>, c1: ChangeView, c2: ChangeView)
    requires
        event_order(before),
        forall|k: int| 0 <= k < before.len() ==> path_lt(#[trigger] before[k].path, c1.path),
        c1.path == c2.path,
        c1.kind == PathChange::Removed,
        c2.kind != PathChange::Removed,
    ensures
        event_order(before.push(c1).push(c2)),
{
    lemma_push_strict(before, c1);
    let mid = before.push(c1);
    let after = mid.push(c2);
    assert forall|a: int, b: int| 0 <= a < b < after.len() implies path_lt(#[trigger] after[a].path, #[trigger] after[b].path)
        || (b == a + 1 && after[a].path == after[b].path && after[a].kind == PathChange::Removed && after[b].kind
        != PathChange::Removed) by {
        assert(after[a] == mid[a]);
        if b < mid.len() {
            assert(after[b] == mid[b]);
        } else if a < before.len() {
            assert(mid[a] == before[a]);
        }
    }
}

} // verus!

//! The ordered entry store: entries keyed by path, kept in depth-first order.
use vstd::prelude::*;
use crate::entry::{Entry, EntryView};
use crate::path::{is_prefix, lemma_path_order, path_lt, RelPath};

verus! {

/// Strictly increasing by path.
pub open spec fn sorted_by_path(s: Seq<EntryView>) -> bool {
    forall|i: int, j: int| 0 <= i < j < s.len() ==> path_lt(#[trigger] s[i].path, #[trigger] s[j].path)
}

/// What is left of a map when a path and everything below it are taken out.
pub open spec fn without_subtree(
    m: Map<Seq<Seq<u8>>, EntryView>,
    prefix: Seq<Seq<u8>>,
) -> Map<Seq<Seq<u8>>, EntryView> {
    m.restrict(m.dom().filter(|p: Seq<Seq<u8>>| !is_prefix(prefix, p)))
}

/// The paths of the entries, in order, leaving out ignored ones unless asked.
pub open spec fn listed_paths(s: Seq<EntryView>, include_ignored: bool) -> Seq<Seq<Seq<u8>>>
    decreases s.len(),
{
    if s.len() == 0 {
        seq![]
    } else {
        let rest = listed_paths(s.drop_last(), include_ignored);
        if include_ignored || !s.last().is_ignored {
            rest.push(s.last().path)
        } else {
            rest
        }
    }
}

pub open spec fn entry_views(v: Seq<Entry>) -> Seq<EntryView> {
    v.map_values(|e: Entry| e@)
}

proof fn lemma_entry_views_index(v: Seq<Entry>, i: int)
    requires
        0 <= i < v.len(),
    ensures
        entry_views(v).len() == v.len(),
        entry_views(v)[i] == v[i]@,
{
}

/// Entries keyed by path, in depth-first order.
pub struct EntryStore {
    entries: Vec<Entry>,
    model: Ghost<Map<Seq<Seq<u8>>, EntryView>>,
}

impl View for EntryStore {
    type V = Seq<EntryView>;

    /// The entries in order.
    closed spec fn view(&self) -> Seq<EntryView> {
        entry_views(self.entries@)
    }
}

impl EntryStore {
    /// The entries keyed by path.
    pub closed spec fn map(&self) -> Map<Seq<Seq<u8>>, EntryView> {
        self.model@
    }

    pub closed spec fn wf(&self) -> bool {
        &&& sorted_by_path(self@)
        &&& forall|i: int|
            0 <= i < self@.len() ==> #[trigger] self.model@.contains_key(self@[i].path)
                && self.model@[self@[i].path] == self@[i]
        &&& forall|p: Seq<Seq<u8>>| #[trigger]
            self.model@.contains_key(p) ==> exists|i: int| 0 <= i < self@.len() && self@[i].path == p
    }

    /// The order of the entries is the path order, and the map holds exactly
    /// the entries of the sequence.
    pub proof fn lemma_wf(&self)
        requires
            self.wf(),
        ensures
            sorted_by_path(self@),
            forall|i: int|
                0 <= i < self@.len() ==> self.map().contains_key(#[trigger] self@[i].path)
                    && self.map()[self@[i].path] == self@[i],
            forall|p: Seq<Seq<u8>>| #[trigger]
                self.map().contains_key(p) ==> exists|i: int| 0 <= i < self@.len() && self@[i].path == p,
            self.map().dom().finite(),
            self.map().dom().len() == self@.len(),
            forall|p: Seq<Seq<u8>>| #[trigger] self.map().contains_key(p) ==> self.map()[p].path == p,
    {
        self.lemma_dom_len();
        assert forall|p: Seq<Seq<u8>>| #[trigger] self.map().contains_key(p) implies self.map()[p].path == p by {
            let i = choose|i: int| 0 <= i < self@.len() && self@[i].path == p;
            assert(self.model@.contains_key(self@[i].path));
        }
        assert forall|i: int| 0 <= i < self@.len() implies self.map().contains_key(#[trigger] self@[i].path)
            && self.map()[self@[i].path] == self@[i] by {
            assert(self.model@.contains_key(self@[i].path));
        }
    }

    proof fn lemma_dom_len(&self)
        requires
            self.wf(),
        ensures
            self.map().dom().finite(),
            self.map().dom().len() == self@.len(),
    {
        lemma_path_order();
        let s = self@;
        let paths = s.map_values(|e: EntryView| e.path);
        assert(paths.no_duplicates()) by {
            assert forall|i: int, j: int| 0 <= i < paths.len() && 0 <= j < paths.len() && i != j implies paths[i]
                != paths[j] by {
                if i < j {
                    assert(path_lt(s[i].path, s[j].path));
                } else {
                    assert(path_lt(s[j].path, s[i].path));
                }
            }
        }
        assert(self.map().dom() =~= paths.to_set()) by {
            assert forall|p| self.map().dom().contains(p) implies paths.to_set().contains(p) by {
                let i = choose|i: int| 0 <= i < s.len() && s[i].path == p;
                assert(paths[i] == p);
            }
            assert forall|p| paths.to_set().contains(p) implies self.map().dom().contains(p) by {
                let i = choose|i: int| 0 <= i < paths.len() && paths[i] == p;
                assert(self.model@.contains_key(s[i].path));
            }
        }
        paths.unique_seq_to_set();
    }

    /// Two well-formed stores that hold the same entries list them in the same
    /// order.
    pub proof fn lemma_same_map_same_order(a: &EntryStore, b: &EntryStore)
        requires
            a.wf(),
            b.wf(),
            a.map() == b.map(),
        ensures
            a@ == b@,
    {
        lemma_path_order();
        a.lemma_dom_len();
        b.lemma_dom_len();
        let s = a@;
        let t = b@;
        assert forall|k: int| 0 <= k < s.len() implies s[k] == t[k] by {
            lemma_same_index(s, t, a.map(), k);
        }
        assert(s =~= t);
    }

    pub fn new() -> (r: EntryStore)
        ensures
            r.wf(),
            r.map() == Map::<Seq<Seq<u8>>, EntryView>::empty(),
            r@.len() == 0,
    {
        EntryStore { entries: Vec::new(), model: Ghost(Map::empty()) }
    }

    pub fn len(&self) -> (r: usize)
        ensures
            r == self@.len(),
    {
        self.entries.len()
    }

    /// The entry at position `i` of the order.
    pub fn entry_at(&self, i: usize) -> (r: &Entry)
        requires
            i < self@.len(),
        ensures
            r@ == self@[i as int],
    {
        proof {
            lemma_entry_views_index(self.entries@, i as int);
        }
        &self.entries[i]
    }

    /// The position of the first entry that does not sort before `path`, and
    /// whether that entry has this path.
    pub fn position(&self, path: &RelPath) -> (r: (usize, bool))
        requires
            self.wf(),
        ensures
            r.0 <= self@.len(),
            forall|j: int| 0 <= j < r.0 ==> path_lt(#[trigger] self@[j].path, path@),
            forall|j: int| r.0 <= j < self@.len() ==> !path_lt(#[trigger] self@[j].path, path@),
            r.1 == (r.0 < self@.len() && self@[r.0 as int].path == path@),
            r.1 == self.map().contains_key(path@),
    {
        proof {
            lemma_path_order();
        }
        let mut i: usize = 0;
        while i < self.entries.len()
            invariant
                self.wf(),
                i <= self@.len(),
                forall|j: int| 0 <= j < i ==> path_lt(#[trigger] self@[j].path, path@),
            decreases self@.len() - i,
        {
            proof {
                lemma_entry_views_index(self.entries@, i as int);
            }
            if !self.entries[i].path.path_lt(path) {
                let eq = self.entries[i].path.path_eq(path);
                proof {
                    lemma_path_order();
                    assert(self@[i as int].path == self.entries@[i as int].path@);
                    assert forall|j: int| i <= j < self@.len() implies !path_lt(
                        #[trigger] self@[j].path,
                        path@,
                    ) by {
                        if j > i && path_lt(self@[j].path, path@) {
                            assert(path_lt(self@[i as int].path, self@[j].path));
                        }
                    }
                    if !eq {
                        assert(path_lt(path@, self@[i as int].path));
                        assert forall|j: int| 0 <= j < self@.len() implies self@[j].path != path@ by {
                            if j > i {
                                assert(path_lt(self@[i as int].path, self@[j].path));
                            }
                        }
                    }
                }
                return (i, eq);
            }
            i = i + 1;
        }
        proof {
            assert forall|j: int| 0 <= j < self@.len() implies self@[j].path != path@ by {
                assert(path_lt(self@[j].path, path@));
            }
        }
        (i, false)
    }

    /// The entry at `path`, if there is one.
    pub fn get(&self, path: &RelPath) -> (r: Option<&Entry>)
        requires
            self.wf(),
        ensures
            r.is_some() == self.map().contains_key(path@),
            r.is_some() ==> r.unwrap()@ == self.map()[path@],
    {
        let (i, found) = self.position(path);
        if found {
            proof {
                lemma_entry_views_index(self.entries@, i as int);
            }
            Some(&self.entries[i])
        } else {
            None
        }
    }

    /// Puts `entry` under its path, in place of the entry that was there.
    pub fn insert_or_replace(&mut self, entry: Entry)
        requires
            old(self).wf(),
        ensures
            final(self).wf(),
            final(self).map() == old(self).map().insert(entry@.path, entry@),
    {
        proof {
            lemma_path_order();
        }
        let (i, found) = self.position(&entry.path);
        let ghost x = entry@;
        let ghost s = self@;
        let ghost m = self.model@;
        if found {
            self.entries.set(i, entry);
            proof {
                assert(self@ =~= s.update(i as int, x)) by {
                    assert forall|k: int| 0 <= k < s.len() implies #[trigger] self@[k] == s.update(
                        i as int,
                        x,
                    )[k] by {
                        lemma_entry_views_index(self.entries@, k);
                    }
                }
            }
        } else {
            self.entries.insert(i, entry);
            proof {
                assert(self@ =~= s.insert(i as int, x)) by {
                    assert forall|k: int| 0 <= k < s.len() + 1 implies #[trigger] self@[k] == s.insert(
                        i as int,
                        x,
                    )[k] by {
                        lemma_entry_views_index(self.entries@, k);
                    }
                }
                assert forall|j: int| i <= j < s.len() implies path_lt(x.path, #[trigger] s[j].path) by {
                    assert(s[i as int].path != x.path);
                    assert(!path_lt(s[i as int].path, x.path));
                    if j > i {
                        assert(path_lt(s[i as int].path, s[j].path));
                    }
                }
            }
        }
        self.model = Ghost(m.insert(x.path, x));
        proof {
            let t = self@;
            let m2 = self.model@;
            assert forall|k: int| 0 <= k < t.len() implies #[trigger] m2.contains_key(t[k].path)
                && m2[t[k].path] == t[k] by {
                if k != i {
                    let j = if found || k < i {
                        k
                    } else {
                        k - 1
                    };
                    assert(t[k] == s[j]);
                    assert(m.contains_key(s[j].path));
                    if found {
                        if j < i {
                            assert(path_lt(s[j].path, s[i as int].path));
                        } else {
                            assert(path_lt(s[i as int].path, s[j].path));
                        }
                    }
                    assert(s[j].path != x.path);
                }
            }
            assert forall|p: Seq<Seq<u8>>| #[trigger] m2.contains_key(p) implies exists|k: int|
                0 <= k < t.len() && t[k].path == p by {
                if p == x.path {
                    assert(t[i as int].path == p);
                } else {
                    let j = choose|j: int| 0 <= j < s.len() && s[j].path == p;
                    if found || j < i {
                        assert(t[j].path == p);
                    } else {
                        assert(t[j + 1].path == p);
                    }
                }
            }
        }
    }

    /// Takes out the entry at `path`, if there is one.
    pub fn remove(&mut self, path: &RelPath) -> (r: bool)
        requires
            old(self).wf(),
        ensures
            final(self).wf(),
            final(self).map() == old(self).map().remove(path@),
            r == old(self).map().contains_key(path@),
    {
        proof {
            lemma_path_order();
        }
        let (i, found) = self.position(path);
        if !found {
            proof {
                assert(self.model@.remove(path@) =~= self.model@);
            }
            return false;
        }
        let ghost s = self@;
        let ghost m = self.model@;
        self.entries.remove(i);
        self.model = Ghost(m.remove(path@));
        proof {
            assert(self@ =~= s.remove(i as int)) by {
                assert forall|k: int| 0 <= k < s.len() - 1 implies #[trigger] self@[k] == s.remove(
                    i as int,
                )[k] by {
                    lemma_entry_views_index(self.entries@, k);
                }
            }
            let t = self@;
            assert forall|k: int| 0 <= k < t.len() implies #[trigger] self.model@.contains_key(t[k].path)
                && self.model@[t[k].path] == t[k] by {
                let j = if k < i {
                    k
                } else {
                    k + 1
                };
                assert(t[k] == s[j]);
                assert(m.contains_key(s[j].path));
                if j < i {
                    assert(path_lt(s[j].path, s[i as int].path));
                } else {
                    assert(path_lt(s[i as int].path, s[j].path));
                }
            }
            assert forall|p: Seq<Seq<u8>>| #[trigger] self.model@.contains_key(p) implies exists|k: int|
                0 <= k < t.len() && t[k].path == p by {
                let j = choose|j: int| 0 <= j < s.len() && s[j].path == p;
                if j < i {
                    assert(t[j].path == p);
                } else {
                    assert(t[j - 1].path == p);
                }
            }
        }
        true
    }

    /// A copy of the store.
    pub fn copy(&self) -> (r: EntryStore)
        requires
            self.wf(),
        ensures
            r.wf(),
            r.map() == self.map(),
            r@ == self@,
    {
        let mut v: Vec<Entry> = Vec::new();
        let mut i: usize = 0;
        while i < self.entries.len()
            invariant
                i <= self@.len(),
                entry_views(v@) == self@.subrange(0, i as int),
            decreases self@.len() - i,
        {
            proof {
                lemma_entry_views_index(self.entries@, i as int);
            }
            let ghost before = v@;
            v.push(self.entries[i].copy());
            assert(entry_views(v@) =~= entry_views(before).push(self@[i as int]));
            assert(self@.subrange(0, i as int + 1) =~= self@.subrange(0, i as int).push(self@[i as int]));
            i = i + 1;
        }
        assert(self@.subrange(0, i as int) =~= self@);
        EntryStore { entries: v, model: Ghost(self.model@) }
    }

    /// Takes out the entry at `prefix` and every entry below it, and says how
    /// many were taken out.
    pub fn remove_subtree(&mut self, prefix: &RelPath) -> (r: usize)
        requires
            old(self).wf(),
        ensures
            final(self).wf(),
            final(self).map() == without_subtree(old(self).map(), prefix@),
            r == old(self)@.len() - final(self)@.len(),
    {
        proof {
            lemma_path_order();
        }
        let ghost s = self@;
        let ghost m = self.model@;
        let mut kept: Vec<Entry> = Vec::new();
        let mut i: usize = 0;
        while i < self.entries.len()
            invariant
                self.wf(),
                self@ == s,
                self.model@ == m,
                i <= s.len(),
                kept@.len() <= i,
                sorted_by_path(entry_views(kept@)),
                forall|k: int, j: int|
                    0 <= k < kept@.len() && i <= j < s.len() ==> path_lt(
                        #[trigger] entry_views(kept@)[k].path,
                        #[trigger] s[j].path,
                    ),
                forall|k: int|
                    0 <= k < kept@.len() ==> !is_prefix(prefix@, #[trigger] entry_views(kept@)[k].path)
                        && m.contains_key(entry_views(kept@)[k].path) && m[entry_views(
                        kept@,
                    )[k].path] == entry_views(kept@)[k],
                forall|j: int|
                    0 <= j < i && !is_prefix(prefix@, #[trigger] s[j].path) ==> exists|k: int|
                        0 <= k < kept@.len() && entry_views(kept@)[k].path == s[j].path,
            decreases s.len() - i,
        {
            proof {
                lemma_entry_views_index(self.entries@, i as int);
            }
            if !self.entries[i].path.starts_with(prefix) {
                let ghost before = kept@;
                kept.push(self.entries[i].copy());
                proof {
                    let kv = entry_views(kept@);
                    assert(kv =~= entry_views(before).push(s[i as int]));
                    assert forall|k: int, j: int| 0 <= k < kv.len() && i + 1 <= j < s.len() implies path_lt(
                        #[trigger] kv[k].path,
                        #[trigger] s[j].path,
                    ) by {
                        if k < kv.len() - 1 {
                            assert(path_lt(entry_views(before)[k].path, s[j].path));
                        } else {
                            assert(path_lt(s[i as int].path, s[j].path));
                        }
                    }
                    assert forall|j: int| 0 <= j < i + 1 && !is_prefix(prefix@, #[trigger] s[j].path) implies exists|
                        k: int,
                    | 0 <= k < kv.len() && kv[k].path == s[j].path by {
                        if j == i {
                            assert(kv[kv.len() - 1].path == s[j].path);
                        } else {
                            let k = choose|k: int|
                                0 <= k < before.len() && entry_views(before)[k].path == s[j].path;
                            assert(kv[k].path == s[j].path);
                        }
                    }
                }
            }
            i = i + 1;
        }
        let removed = self.entries.len() - kept.len();
        self.entries = kept;
        self.model = Ghost(without_subtree(m, prefix@));
        proof {
            let t = self@;
            let m2 = self.model@;
            assert forall|p: Seq<Seq<u8>>| #[trigger] m2.contains_key(p) implies exists|k: int|
                0 <= k < t.len() && t[k].path == p by {
                let j = choose|j: int| 0 <= j < s.len() && s[j].path == p;
                assert(!is_prefix(prefix@, s[j].path));
            }
        }
        removed
    }

    /// Copies of the entry at `prefix` and of every entry below it, in order.
    pub fn subtree_entries(&self, prefix: &RelPath) -> (r: Vec<Entry>)
        requires
            self.wf(),
        ensures
            sorted_by_path(entry_views(r@)),
            forall|k: int|
                0 <= k < r@.len() ==> is_prefix(prefix@, #[trigger] entry_views(r@)[k].path) && self.map().contains_key(
                    entry_views(r@)[k].path,
                ) && self.map()[entry_views(r@)[k].path] == entry_views(r@)[k],
            forall|p: Seq<Seq<u8>>|
                #[trigger] self.map().contains_key(p) && is_prefix(prefix@, p) ==> exists|k: int|
                    0 <= k < r@.len() && entry_views(r@)[k].path == p,
    {
        proof {
            lemma_path_order();
        }
        let ghost s = self@;
        let ghost m = self.model@;
        let mut kept: Vec<Entry> = Vec::new();
        let mut i: usize = 0;
        while i < self.entries.len()
            invariant
                self.wf(),
                self@ == s,
                self.model@ == m,
                i <= s.len(),
                sorted_by_path(entry_views(kept@)),
                forall|k: int, j: int|
                    0 <= k < kept@.len() && i <= j < s.len() ==> path_lt(
                        #[trigger] entry_views(kept@)[k].path,
                        #[trigger] s[j].path,
                    ),
                forall|k: int|
                    0 <= k < kept@.len() ==> is_prefix(prefix@, #[trigger] entry_views(kept@)[k].path)
                        && m.contains_key(entry_views(kept@)[k].path) && m[entry_views(
                        kept@,
                    )[k].path] == entry_views(kept@)[k],
                forall|j: int|
                    0 <= j < i && is_prefix(prefix@, #[trigger] s[j].path) ==> exists|k: int|
                        0 <= k < kept@.len() && entry_views(kept@)[k].path == s[j].path,
            decreases s.len() - i,
        {
            proof {
                lemma_entry_views_index(self.entries@, i as int);
            }
            if self.entries[i].path.starts_with(prefix) {
                let ghost before = kept@;
                kept.push(self.entries[i].copy());
                proof {
                    let kv = entry_views(kept@);
                    assert(kv =~= entry_views(before).push(s[i as int]));
                    assert forall|k: int, j: int| 0 <= k < kv.len() && i + 1 <= j < s.len() implies path_lt(
                        #[trigger] kv[k].path,
                        #[trigger] s[j].path,
                    ) by {
                        if k < kv.len() - 1 {
                            assert(path_lt(entry_views(before)[k].path, s[j].path));
                        } else {
                            assert(path_lt(s[i as int].path, s[j].path));
                        }
                    }
                    assert forall|j: int| 0 <= j < i + 1 && is_prefix(prefix@, #[trigger] s[j].path) implies exists|
                        k: int,
                    | 0 <= k < kv.len() && kv[k].path == s[j].path by {
                        if j == i {
                            assert(kv[kv.len() - 1].path == s[j].path);
                        } else {
                            let k = choose|k: int|
                                0 <= k < before.len() && entry_views(before)[k].path == s[j].path;
                            assert(kv[k].path == s[j].path);
                        }
                    }
                }
            }
            i = i + 1;
        }
        proof {
            assert forall|p: Seq<Seq<u8>>| #[trigger] m.contains_key(p) && is_prefix(prefix@, p) implies exists|
                k: int,
            | 0 <= k < kept@.len() && entry_views(kept@)[k].path == p by {
                let j = choose|j: int| 0 <= j < s.len() && s[j].path == p;
                assert(is_prefix(prefix@, s[j].path));
            }
        }
        kept
    }

    /// The paths of the entries in order; ignored entries only when asked.
    pub fn paths(&self, include_ignored: bool) -> (r: Vec<RelPath>)
        ensures
            r@.map_values(|p: RelPath| p@) == listed_paths(self@, include_ignored),
    {
        let mut r: Vec<RelPath> = Vec::new();
        let mut i: usize = 0;
        while i < self.entries.len()
            invariant
                i <= self@.len(),
                r@.map_values(|p: RelPath| p@) == listed_paths(self@.subrange(0, i as int), include_ignored),
            decreases self@.len() - i,
        {
            proof {
                lemma_entry_views_index(self.entries@, i as int);
                assert(self@.subrange(0, i as int + 1).drop_last() =~= self@.subrange(0, i as int));
            }
            let e = &self.entries[i];
            if include_ignored || !e.is_ignored {
                let ghost before = r@;
                r.push(e.path.copy());
                assert(r@.map_values(|p: RelPath| p@) =~= before.map_values(|p: RelPath| p@).push(e.path@));
            }
            i = i + 1;
        }
        assert(self@.subrange(0, i as int) =~= self@);
        r
    }
}

proof fn lemma_same_index(s: Seq<EntryView>, t: Seq<EntryView>, m: Map<Seq<Seq<u8>>, EntryView>, k: int)
    requires
        sorted_by_path(s),
        sorted_by_path(t),
        s.len() == t.len(),
        0 <= k < s.len(),
        forall|i: int| 0 <= i < s.len() ==> #[trigger] m.contains_key(s[i].path) && m[s[i].path] == s[i],
        forall|i: int| 0 <= i < t.len() ==> #[trigger] m.contains_key(t[i].path) && m[t[i].path] == t[i],
        forall|p: Seq<Seq<u8>>| #[trigger]
            m.contains_key(p) ==> exists|i: int| 0 <= i < s.len() && s[i].path == p,
        forall|p: Seq<Seq<u8>>| #[trigger]
            m.contains_key(p) ==> exists|i: int| 0 <= i < t.len() && t[i].path == p,
    ensures
        s[k] == t[k],
    decreases k,
{
    lemma_path_order();
    if k > 0 {
        lemma_same_index(s, t, m, k - 1);
    }
    // The entry at k in s sits somewhere in t, and the other way round.
    assert(m.contains_key(s[k].path));
    let j = choose|j: int| 0 <= j < t.len() && t[j].path == s[k].path;
    assert(m.contains_key(t[k].path));
    let l = choose|l: int| 0 <= l < s.len() && s[l].path == t[k].path;
    if j < k {
        lemma_same_index(s, t, m, j);
        assert(s[j].path == t[j].path);
        assert(path_lt(s[j].path, s[k].path));
    } else if j > k {
        if l < k {
            lemma_same_index(s, t, m, l);
            assert(t[l].path == s[l].path);
            assert(path_lt(t[l].path, t[k].path));
        } else if l > k {
            assert(path_lt(s[k].path, s[l].path));
            assert(path_lt(t[k].path, t[j].path));
        }
    }
}

} // verus!

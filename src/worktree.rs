//! The local worktree: a snapshot kept consistent with the disk, under the
//! scan settings, with the invariants that hold after every operation.
use vstd::prelude::*;
use crate::entry::{Entry, EntryKind, EntryView};
use crate::glob::{set_matches, set_may_match_below, GlobSet, SegmentView};
use crate::ignore::{stack_decision, IgnoreStack, LayerView};
use crate::path::{bytes_eq, is_prefix, parent_of, RelPath};
use crate::store::entry_views;
use crate::snapshot::{EntryMap, Snapshot};
use crate::store::without_subtree;

verus! {

/// The configured glob sets.
pub struct ScanSettings {
    /// Matching paths are left out of the tree.
    pub exclusions: GlobSet,
    /// Matching entries are never reported ignored. A gitignored directory
    /// below which some inclusion may match is read all the same, so that
    /// matching entries come in.
    pub inclusions: GlobSet,
    /// Matching entries are marked private.
    pub private_files: GlobSet,
}

/// Every entry but the root has its parent in the map, as a read directory.
pub open spec fn parent_closed(m: EntryMap) -> bool {
    forall|p: Seq<Seq<u8>>|
        #[trigger] m.contains_key(p) && p.len() > 0 ==> m.contains_key(parent_of(p)) && m[parent_of(p)].kind
            == EntryKind::Dir
}

pub open spec fn keys_match(m: EntryMap) -> bool {
    forall|p: Seq<Seq<u8>>| #[trigger] m.contains_key(p) ==> m[p].path == p
}

pub open spec fn included_not_ignored(m: EntryMap) -> bool {
    forall|p: Seq<Seq<u8>>| #[trigger] m.contains_key(p) && m[p].is_always_included ==> !m[p].is_ignored
}

/// No entry but the root is matched by an exclusion.
pub open spec fn none_excluded(m: EntryMap, exclusions: Seq<Seq<SegmentView>>) -> bool {
    forall|p: Seq<Seq<u8>>| #[trigger] m.contains_key(p) && p.len() > 0 ==> !set_matches(exclusions, p)
}

pub open spec fn ids_unique(m: EntryMap) -> bool {
    forall|p: Seq<Seq<u8>>, q: Seq<Seq<u8>>|
        #[trigger] m.contains_key(p) && #[trigger] m.contains_key(q) && p != q ==> m[p].id != m[q].id
}

pub open spec fn ids_below(m: EntryMap, next: u64) -> bool {
    forall|p: Seq<Seq<u8>>| #[trigger] m.contains_key(p) ==> m[p].id < next
}

pub open spec fn id_unused(m: EntryMap, id: u64) -> bool {
    forall|p: Seq<Seq<u8>>| #[trigger] m.contains_key(p) ==> m[p].id != id
}

/// Each entry's always-included and private flags are what the settings say
/// of its path.
pub open spec fn flags_follow(
    m: EntryMap,
    inclusions: Seq<Seq<SegmentView>>,
    private_files: Seq<Seq<SegmentView>>,
) -> bool {
    forall|p: Seq<Seq<u8>>|
        #[trigger] m.contains_key(p) ==> m[p].is_always_included == set_matches(inclusions, p) && m[p].is_private
            == set_matches(private_files, p)
}

/// An entry with its always-included and private flags recomputed from the
/// settings; always included means not ignored.
pub open spec fn refreshed(
    e: EntryView,
    inclusions: Seq<Seq<SegmentView>>,
    private_files: Seq<Seq<SegmentView>>,
) -> EntryView {
    EntryView {
        is_always_included: set_matches(inclusions, e.path),
        is_private: set_matches(private_files, e.path),
        is_ignored: e.is_ignored && !set_matches(inclusions, e.path),
        ..e
    }
}

proof fn lemma_refreshed_invariants(
    ms: EntryMap,
    m: EntryMap,
    exclusions: Seq<Seq<SegmentView>>,
    next: u64,
    inclusions: Seq<Seq<SegmentView>>,
    private_files: Seq<Seq<SegmentView>>,
)
    requires
        tree_invariants(ms, exclusions, next),
        m.dom() == ms.dom(),
        forall|q: Seq<Seq<u8>>| #[trigger] m.contains_key(q) ==> m[q] == refreshed(ms[q], inclusions, private_files),
    ensures
        tree_invariants(m, exclusions, next),
        flags_follow(m, inclusions, private_files),
{
    assert(m.contains_key(Seq::<Seq<u8>>::empty()));
    assert forall|p: Seq<Seq<u8>>| #[trigger] m.contains_key(p) && p.len() > 0 implies m.contains_key(parent_of(p))
        && m[parent_of(p)].kind == EntryKind::Dir by {
        assert(ms.contains_key(p));
        assert(ms.contains_key(parent_of(p)));
    }
    assert forall|p: Seq<Seq<u8>>, q: Seq<Seq<u8>>|
        #[trigger] m.contains_key(p) && #[trigger] m.contains_key(q) && p != q implies m[p].id != m[q].id by {
        assert(ms.contains_key(p) && ms.contains_key(q));
    }
    assert forall|p: Seq<Seq<u8>>| #[trigger] m.contains_key(p) implies m[p].path == p && m[p].id < next by {
        assert(ms.contains_key(p));
    }
    assert forall|p: Seq<Seq<u8>>| #[trigger] m.contains_key(p) && p.len() > 0 implies !set_matches(exclusions, p) by {
        assert(ms.contains_key(p));
    }
    assert forall|p: Seq<Seq<u8>>| #[trigger] m.contains_key(p) implies m[p].is_always_included == set_matches(
        inclusions,
        p,
    ) && m[p].is_private == set_matches(private_files, p) by {
        assert(ms.contains_key(p));
    }
}

/// The invariants of a worktree's entries.
pub open spec fn tree_invariants(m: EntryMap, exclusions: Seq<Seq<SegmentView>>, next: u64) -> bool {
    &&& m.contains_key(Seq::<Seq<u8>>::empty())
    &&& parent_closed(m)
    &&& keys_match(m)
    &&& included_not_ignored(m)
    &&& none_excluded(m, exclusions)
    &&& ids_unique(m)
    &&& ids_below(m, next)
}

/// Errors of worktree operations.
#[derive(Clone, Copy, Debug, PartialEq, Eq, Structural)]
pub enum WorktreeError {
    /// No entry has this path or id.
    NotFound,
    /// The entry is not a directory.
    NotADirectory,
    /// The directory's contents are not loaded.
    NotLoaded,
    /// An entry already has the path.
    AlreadyExists,
    /// The operation would act on the root itself.
    IsRoot,
    /// The destination lies inside the source.
    IntoItself,
    /// The path is excluded by the settings.
    Excluded,
    /// Every entry id has been handed out.
    IdsExhausted,
    /// Every scan id has been handed out.
    ScanIdsExhausted,
}

/// What a directory read reports of one child.
pub struct ChildStat {
    pub name: Vec<u8>,
    pub is_dir: bool,
    pub inode: u64,
    pub mtime: u64,
    pub size: u64,
    pub is_symlink: bool,
    /// A symlink whose target lies outside the worktree.
    pub is_external: bool,
}

/// Each name occurs once in a directory listing.
pub open spec fn names_distinct(children: Seq<ChildStat>) -> bool {
    forall|i: int, j: int|
        0 <= i < children.len() && 0 <= j < children.len() && i != j ==> (#[trigger] children[i]).name@
            != (#[trigger] children[j]).name@
}

/// `p` lies strictly below `dir`.
pub open spec fn strictly_below(dir: Seq<Seq<u8>>, p: Seq<Seq<u8>>) -> bool {
    is_prefix(dir, p) && p.len() > dir.len()
}

pub open spec fn gitignored(ignores: Seq<LayerView>, p: Seq<Seq<u8>>, is_dir: bool) -> bool {
    stack_decision(ignores, p, is_dir) == Some(true)
}

/// A prior entry that a listed child keeps, with its id: same inode and both
/// directories or both files.
pub open spec fn keeps_prior(prior: Option<EntryView>, c: ChildStat) -> bool {
    prior is Some && prior->Some_0.inode == c.inode && prior->Some_0.kind.spec_is_dir() == c.is_dir
}

/// The kind a listed child gets. A directory already read stays read; any
/// other is left unread when it lies outside the root, or when it is ignored
/// and no inclusion may match below it; it is pending otherwise.
pub open spec fn child_kind(
    prior: Option<EntryView>,
    c: ChildStat,
    ignored: bool,
    external: bool,
    include_below: bool,
) -> EntryKind {
    if !c.is_dir {
        EntryKind::File
    } else if keeps_prior(prior, c) && prior->Some_0.kind == EntryKind::Dir {
        EntryKind::Dir
    } else if (ignored && !include_below) || external {
        EntryKind::UnloadedDir
    } else {
        EntryKind::PendingDir
    }
}

/// A directory reached through a symlink that leaves the root is not read
/// by a scan: it stays unread unless it was read before.
pub proof fn lemma_external_dirs_unread(
    prior: Option<EntryView>,
    c: ChildStat,
    ignored: bool,
    external: bool,
    include_below: bool,
)
    requires
        c.is_dir,
        external,
        !(prior is Some && prior->Some_0.kind == EntryKind::Dir),
    ensures
        child_kind(prior, c, ignored, external, include_below) == EntryKind::UnloadedDir,
{
}

/// An event at or below a directory that is not read calls for no read.
pub proof fn lemma_no_read_below_unread(m: EntryMap, d: Seq<Seq<u8>>, p: Seq<Seq<u8>>)
    requires
        parent_closed(m),
        m.contains_key(d),
        m[d].kind == EntryKind::UnloadedDir,
        is_prefix(d, p),
    ensures
        !(m.contains_key(p) && (m[p].kind == EntryKind::Dir || m[p].kind == EntryKind::PendingDir)),
{
    if p.len() > d.len() {
        lemma_nothing_below_unread(m, d, p);
    } else {
        assert(p =~= d) by {
            assert(p.subrange(0, d.len() as int) =~= p);
        }
    }
}

/// The name of git's directory, which is always reported ignored.
pub open spec fn is_git_dir_name(name: Seq<u8>) -> bool {
    name == seq![46u8, 103u8, 105u8, 116u8]
}

/// The entry a listed child gets, but for its id. Everything below a
/// directory outside the root is outside the root too.
pub open spec fn child_entry(
    p: Seq<Seq<u8>>,
    c: ChildStat,
    prior: Option<EntryView>,
    parent_ignored: bool,
    parent_external: bool,
    ignores: Seq<LayerView>,
    inclusions: Seq<Seq<SegmentView>>,
    private_files: Seq<Seq<SegmentView>>,
    id: u64,
) -> EntryView {
    let always = set_matches(inclusions, p);
    let ignored = !always && (parent_ignored || gitignored(ignores, p, c.is_dir) || is_git_dir_name(c.name@));
    let external = c.is_external || parent_external;
    EntryView {
        path: p,
        id,
        kind: child_kind(prior, c, ignored, external, set_may_match_below(inclusions, p)),
        mtime: c.mtime,
        size: c.size,
        inode: c.inode,
        is_symlink: c.is_symlink,
        is_ignored: ignored,
        is_external: external,
        is_always_included: always,
        is_private: set_matches(private_files, p),
    }
}

pub open spec fn prior_of(m: EntryMap, p: Seq<Seq<u8>>) -> Option<EntryView> {
    if m.contains_key(p) {
        Some(m[p])
    } else {
        None
    }
}

pub open spec fn with_kind(e: EntryView, kind: EntryKind) -> EntryView {
    EntryView { kind, ..e }
}

pub struct Worktree {
    snapshot: Snapshot,
    next_entry_id: u64,
    settings: ScanSettings,
}

proof fn lemma_child_prefix(dir: Seq<Seq<u8>>, name: Seq<u8>, q: Seq<Seq<u8>>)
    ensures
        is_prefix(dir.push(name), q) ==> strictly_below(dir, q),
{
    if is_prefix(dir.push(name), q) {
        assert(q.subrange(0, dir.len() as int) =~= dir.push(name).subrange(0, dir.len() as int));
        assert(dir.push(name).subrange(0, dir.len() as int) =~= dir);
    }
}

proof fn lemma_sibling_prefix(dir: Seq<Seq<u8>>, a: Seq<u8>, b: Seq<u8>)
    ensures
        is_prefix(dir.push(a), dir.push(b)) ==> a == b,
{
    if is_prefix(dir.push(a), dir.push(b)) {
        assert(dir.push(b).subrange(0, dir.len() + 1 as int) =~= dir.push(b));
        assert(dir.push(a)[dir.len() as int] == a);
    }
}

/// A listed child stands in `m` as a directory read says, against the
/// entries `m0` from before the read.
pub open spec fn placed_as_listed(
    m: EntryMap,
    m0: EntryMap,
    dir: Seq<Seq<u8>>,
    c: ChildStat,
    dir_ignored: bool,
    dir_external: bool,
    fresh: u64,
    ignores: Seq<LayerView>,
    inclusions: Seq<Seq<SegmentView>>,
    private_files: Seq<Seq<SegmentView>>,
) -> bool {
    let p = dir.push(c.name@);
    &&& m.contains_key(p)
    &&& m[p] == child_entry(p, c, prior_of(m0, p), dir_ignored, dir_external, ignores, inclusions, private_files, m[p].id)
    &&& keeps_prior(prior_of(m0, p), c) ==> m[p].id == m0[p].id
    &&& !keeps_prior(prior_of(m0, p), c) ==> m[p].id >= fresh
}

/// What a read of `dir` listing `children` leaves, from the entries `m0`:
/// the directory is read, nothing outside it changed, every listed child that
/// is not excluded stands as listed, and no unlisted child is left.
pub open spec fn listing_applied(
    m0: EntryMap,
    m: EntryMap,
    dir: Seq<Seq<u8>>,
    children: Seq<ChildStat>,
    ignores: Seq<LayerView>,
    exclusions: Seq<Seq<SegmentView>>,
    inclusions: Seq<Seq<SegmentView>>,
    private_files: Seq<Seq<SegmentView>>,
    fresh: u64,
) -> bool {
    &&& m0.contains_key(dir)
    &&& m.contains_key(dir)
    &&& m[dir] == with_kind(m0[dir], EntryKind::Dir)
    &&& forall|q: Seq<Seq<u8>>|
        !strictly_below(dir, q) && q != dir ==> (#[trigger] m.contains_key(q) == m0.contains_key(q)) && (
        m.contains_key(q) ==> m[q] == m0[q])
    &&& forall|k: int|
        0 <= k < children.len() && !set_matches(exclusions, dir.push(#[trigger] children[k].name@)) ==> placed_as_listed(
            m,
            m0,
            dir,
            children[k],
            m0[dir].is_ignored,
            m0[dir].is_external,
            fresh,
            ignores,
            inclusions,
            private_files,
        )
    &&& forall|q: Seq<Seq<u8>>|
        #[trigger] m.contains_key(q) && strictly_below(dir, q) && q.len() == dir.len() + 1 ==> exists|k: int|
            0 <= k < children.len() && children[k].name@ == q.last()
}

proof fn lemma_placed_kept(
    before: EntryMap,
    now: EntryMap,
    m0: EntryMap,
    dir: Seq<Seq<u8>>,
    c: ChildStat,
    pk: Seq<Seq<u8>>,
    dir_ignored: bool,
    dir_external: bool,
    fresh: u64,
    ignores: Seq<LayerView>,
    inclusions: Seq<Seq<SegmentView>>,
    private_files: Seq<Seq<SegmentView>>,
)
    requires
        placed_as_listed(before, m0, dir, c, dir_ignored, dir_external, fresh, ignores, inclusions, private_files),
        !is_prefix(pk, dir.push(c.name@)),
        forall|q: Seq<Seq<u8>>| !is_prefix(pk, q) ==> (#[trigger] now.contains_key(q) == before.contains_key(q)),
        forall|q: Seq<Seq<u8>>| !is_prefix(pk, q) && #[trigger] now.contains_key(q) ==> now[q] == before[q],
    ensures
        placed_as_listed(now, m0, dir, c, dir_ignored, dir_external, fresh, ignores, inclusions, private_files),
{
    let p = dir.push(c.name@);
    assert(now.contains_key(p) == before.contains_key(p));
}

proof fn lemma_placed_self(
    before: EntryMap,
    now: EntryMap,
    m0: EntryMap,
    dir: Seq<Seq<u8>>,
    c: ChildStat,
    dir_ignored: bool,
    dir_external: bool,
    fresh: u64,
    ignores: Seq<LayerView>,
    inclusions: Seq<Seq<SegmentView>>,
    private_files: Seq<Seq<SegmentView>>,
)
    requires
        placed_as_listed(now, before, dir, c, dir_ignored, dir_external, fresh, ignores, inclusions, private_files),
        before.contains_key(dir.push(c.name@)) == m0.contains_key(dir.push(c.name@)),
        before.contains_key(dir.push(c.name@)) ==> before[dir.push(c.name@)] == m0[dir.push(c.name@)],
    ensures
        placed_as_listed(now, m0, dir, c, dir_ignored, dir_external, fresh, ignores, inclusions, private_files),
{
    let p = dir.push(c.name@);
    assert(prior_of(before, p) == prior_of(m0, p));
}

proof fn lemma_place_step(
    before: EntryMap,
    now: EntryMap,
    m0: EntryMap,
    dir: Seq<Seq<u8>>,
    children: Seq<ChildStat>,
    k: int,
    dir_ignored: bool,
    dir_external: bool,
    fresh: u64,
    ignores: Seq<LayerView>,
    exclusions: Seq<Seq<SegmentView>>,
    inclusions: Seq<Seq<SegmentView>>,
    private_files: Seq<Seq<SegmentView>>,
)
    requires
        names_distinct(children),
        0 <= k < children.len(),
        before.contains_key(dir),
        forall|q: Seq<Seq<u8>>|
            !strictly_below(dir, q) && q != dir ==> (#[trigger] before.contains_key(q) == m0.contains_key(q)) && (
            before.contains_key(q) ==> before[q] == m0[q]),
        forall|j: int|
            k <= j < children.len() ==> (#[trigger] before.contains_key(dir.push(children[j].name@)) == m0.contains_key(
                dir.push(children[j].name@),
            )) && (before.contains_key(dir.push(children[j].name@)) ==> before[dir.push(children[j].name@)]
                == m0[dir.push(children[j].name@)]),
        forall|j: int|
            0 <= j < k && !set_matches(exclusions, dir.push(#[trigger] children[j].name@)) ==> placed_as_listed(
                before,
                m0,
                dir,
                children[j],
                dir_ignored,
                dir_external,
                fresh,
                ignores,
                inclusions,
                private_files,
            ),
        forall|q: Seq<Seq<u8>>|
            #[trigger] before.contains_key(q) && strictly_below(dir, q) && q.len() == dir.len() + 1 ==> exists|j: int|
                0 <= j < children.len() && children[j].name@ == q.last(),
        !set_matches(exclusions, dir.push(children[k].name@)) ==> placed_as_listed(
            now,
            before,
            dir,
            children[k],
            dir_ignored,
            dir_external,
            fresh,
            ignores,
            inclusions,
            private_files,
        ),
        set_matches(exclusions, dir.push(children[k].name@)) ==> now == before,
        forall|q: Seq<Seq<u8>>|
            !is_prefix(dir.push(children[k].name@), q) ==> (#[trigger] now.contains_key(q) == before.contains_key(q)),
        forall|q: Seq<Seq<u8>>|
            !is_prefix(dir.push(children[k].name@), q) && #[trigger] now.contains_key(q) ==> now[q] == before[q],
    ensures
        now.contains_key(dir),
        now[dir] == before[dir],
        forall|q: Seq<Seq<u8>>|
            !strictly_below(dir, q) && q != dir ==> (#[trigger] now.contains_key(q) == m0.contains_key(q)) && (
            now.contains_key(q) ==> now[q] == m0[q]),
        forall|j: int|
            k + 1 <= j < children.len() ==> (#[trigger] now.contains_key(dir.push(children[j].name@)) == m0.contains_key(
                dir.push(children[j].name@),
            )) && (now.contains_key(dir.push(children[j].name@)) ==> now[dir.push(children[j].name@)]
                == m0[dir.push(children[j].name@)]),
        forall|j: int|
            0 <= j < k + 1 && !set_matches(exclusions, dir.push(#[trigger] children[j].name@)) ==> placed_as_listed(
                now,
                m0,
                dir,
                children[j],
                dir_ignored,
                dir_external,
                fresh,
                ignores,
                inclusions,
                private_files,
            ),
        forall|q: Seq<Seq<u8>>|
            #[trigger] now.contains_key(q) && strictly_below(dir, q) && q.len() == dir.len() + 1 ==> exists|j: int|
                0 <= j < children.len() && children[j].name@ == q.last(),
{
    let c = children[k];
    let p = dir.push(c.name@);
    assert(p.len() != dir.len());
    assert(!is_prefix(p, dir));
    assert(now.contains_key(dir) == before.contains_key(dir));
    assert(now.contains_key(dir));
    assert forall|q: Seq<Seq<u8>>| is_prefix(p, q) implies strictly_below(dir, q) by {
        lemma_child_prefix(dir, c.name@, q);
    }
    assert forall|j: int| 0 <= j < children.len() && j != k implies !is_prefix(
        p,
        dir.push(#[trigger] children[j].name@),
    ) by {
        lemma_sibling_prefix(dir, c.name@, children[j].name@);
    }
    assert forall|q: Seq<Seq<u8>>|
        #[trigger] now.contains_key(q) && strictly_below(dir, q) && q.len() == dir.len() + 1 implies exists|j: int|
        0 <= j < children.len() && children[j].name@ == q.last() by {
        if is_prefix(p, q) {
            assert(q =~= p) by {
                assert(q.subrange(0, p.len() as int) =~= q);
            }
            assert(children[k].name@ == q.last());
        } else {
            assert(before.contains_key(q));
        }
    }
    assert forall|j: int|
        0 <= j < k + 1 && !set_matches(exclusions, dir.push(#[trigger] children[j].name@)) implies placed_as_listed(
        now,
        m0,
        dir,
        children[j],
        dir_ignored,
        dir_external,
        fresh,
        ignores,
        inclusions,
        private_files,
    ) by {
        if j != k {
            lemma_sibling_prefix(dir, c.name@, children[j].name@);
            lemma_placed_kept(before, now, m0, dir, children[j], p, dir_ignored, dir_external, fresh, ignores, inclusions, private_files);
        } else {
            lemma_placed_self(before, now, m0, dir, c, dir_ignored, dir_external, fresh, ignores, inclusions, private_files);
        }
    }
}

/// `r` lists exactly the listed children of `dir` that are directories
/// still to be read in `m`.
pub open spec fn lists_pending(m: EntryMap, dir: Seq<Seq<u8>>, children: Seq<ChildStat>, r: Seq<RelPath>) -> bool {
    &&& forall|i: int|
        0 <= i < r.len() ==> exists|k: int|
            0 <= k < children.len() && (#[trigger] r[i])@ == dir.push(children[k].name@) && m.contains_key(r[i]@)
                && m[r[i]@].kind == EntryKind::PendingDir
    &&& forall|k: int|
        0 <= k < children.len() && m.contains_key(dir.push(#[trigger] children[k].name@)) && m[dir.push(
            children[k].name@,
        )].kind == EntryKind::PendingDir ==> exists|i: int| 0 <= i < r.len() && r[i]@ == dir.push(children[k].name@)
}

/// The listed children of `dir` that are directories still to be read.
#[verifier::rlimit(40)]
fn pending_children(t: &Worktree, dir: &RelPath, children: &Vec<ChildStat>) -> (r: Vec<RelPath>)
    requires
        t.wf(),
    ensures
        lists_pending(t.entry_map(), dir@, children@, r@),
{
    let mut r: Vec<RelPath> = Vec::new();
    let mut k: usize = 0;
    while k < children.len()
        invariant
            t.snapshot.store.wf(),
            k <= children@.len(),
            forall|i: int|
                0 <= i < r@.len() ==> exists|j: int|
                    0 <= j < k && (#[trigger] r@[i])@ == dir@.push(children@[j].name@) && t.entry_map().contains_key(
                        r@[i]@,
                    ) && t.entry_map()[r@[i]@].kind == EntryKind::PendingDir,
            forall|j: int|
                0 <= j < k && t.entry_map().contains_key(dir@.push(#[trigger] children@[j].name@))
                    && t.entry_map()[dir@.push(children@[j].name@)].kind == EntryKind::PendingDir ==> exists|i: int|
                    0 <= i < r@.len() && r@[i]@ == dir@.push(children@[j].name@),
        decreases children@.len() - k,
    {
        let p = dir.join(&children[k].name);
        let pending = match t.snapshot.store.get(&p) {
            Some(e) => e.kind == EntryKind::PendingDir,
            None => false,
        };
        let ghost before = r@;
        if pending {
            r.push(p);
            proof {
                assert forall|i: int| 0 <= i < r@.len() implies exists|j: int|
                    0 <= j < k + 1 && (#[trigger] r@[i])@ == dir@.push(children@[j].name@) && t.entry_map().contains_key(
                        r@[i]@,
                    ) && t.entry_map()[r@[i]@].kind == EntryKind::PendingDir by {
                    if i < before.len() {
                        assert(r@[i] == before[i]);
                    }
                }
                assert(r@[r@.len() - 1]@ == dir@.push(children@[k as int].name@));
            }
        }
        proof {
            assert forall|j: int|
                0 <= j < k + 1 && t.entry_map().contains_key(dir@.push(#[trigger] children@[j].name@))
                    && t.entry_map()[dir@.push(children@[j].name@)].kind == EntryKind::PendingDir implies exists|i: int|
                    0 <= i < r@.len() && r@[i]@ == dir@.push(children@[j].name@) by {
                if j < k {
                    let i = choose|i: int| 0 <= i < before.len() && before[i]@ == dir@.push(children@[j].name@);
                    assert(r@[i] == before[i]);
                }
            }
        }
        k = k + 1;
    }
    r
}

/// `m` holds everything `m0` holds, unchanged, and besides only `path` and
/// some of its ancestors.
pub open spec fn grown_along(m0: EntryMap, m: EntryMap, path: Seq<Seq<u8>>) -> bool {
    &&& forall|q: Seq<Seq<u8>>| #[trigger] m0.contains_key(q) ==> m.contains_key(q) && m[q] == m0[q]
    &&& forall|q: Seq<Seq<u8>>| #[trigger] m.contains_key(q) && !m0.contains_key(q) ==> is_prefix(q, path)
}

/// Creating an entry whose parent directory is there, then deleting it,
/// gives back the entries from before.
pub proof fn lemma_create_then_delete(m0: EntryMap, m1: EntryMap, path: Seq<Seq<u8>>)
    requires
        parent_closed(m0),
        path.len() > 0,
        m0.contains_key(parent_of(path)),
        !m0.contains_key(path),
        grown_along(m0, m1, path),
    ensures
        without_subtree(m1, path) == m0,
{
    let w = without_subtree(m1, path);
    assert forall|q: Seq<Seq<u8>>| #[trigger] w.contains_key(q) <==> m0.contains_key(q) by {
        if m0.contains_key(q) && is_prefix(path, q) {
            if q.len() == path.len() {
                assert(q =~= path) by {
                    assert(q.subrange(0, path.len() as int) =~= q);
                }
            } else {
                lemma_nothing_below_missing(m0, path, q);
            }
        }
        if m1.contains_key(q) && !m0.contains_key(q) && !is_prefix(path, q) {
            assert(is_prefix(q, path));
            if q.len() == path.len() {
                assert(q =~= path) by {
                    assert(path.subrange(0, q.len() as int) =~= path);
                }
                assert(path.subrange(0, path.len() as int) =~= path);
            } else {
                assert(is_prefix(q, parent_of(path))) by {
                    assert(parent_of(path).subrange(0, q.len() as int) =~= path.subrange(0, q.len() as int));
                }
                lemma_ancestors_present(m0, parent_of(path), q);
            }
        }
    }
    assert(w =~= m0);
}

/// Every ancestor of an entry is an entry too.
pub proof fn lemma_ancestors_present(m: EntryMap, p: Seq<Seq<u8>>, a: Seq<Seq<u8>>)
    requires
        parent_closed(m),
        m.contains_key(p),
        is_prefix(a, p),
    ensures
        m.contains_key(a),
    decreases p.len(),
{
    if a.len() == p.len() {
        assert(a =~= p) by {
            assert(p.subrange(0, a.len() as int) =~= p);
        }
    } else {
        assert(is_prefix(a, parent_of(p))) by {
            assert(parent_of(p).subrange(0, a.len() as int) =~= p.subrange(0, a.len() as int));
        }
        lemma_ancestors_present(m, parent_of(p), a);
    }
}

proof fn lemma_prefix_of_parent(path: Seq<Seq<u8>>, k: int)
    requires
        0 <= k < path.len(),
    ensures
        is_prefix(path.subrange(0, k), parent_of(path)),
        k + 1 < path.len() ==> is_prefix(path.subrange(0, k + 1), parent_of(path)),
        k + 1 == path.len() ==> path.subrange(0, k) == parent_of(path),
        parent_of(path.subrange(0, k + 1)) == path.subrange(0, k),
{
    assert(parent_of(path).subrange(0, k) =~= path.subrange(0, k));
    if k + 1 < path.len() {
        assert(parent_of(path).subrange(0, k + 1) =~= path.subrange(0, k + 1));
    }
    if k + 1 == path.len() {
        assert(path.subrange(0, k) =~= parent_of(path));
    }
    assert(parent_of(path.subrange(0, k + 1)) =~= path.subrange(0, k));
}

/// Nothing lies below a path that is not an entry.
pub proof fn lemma_nothing_below_missing(m: EntryMap, p: Seq<Seq<u8>>, q: Seq<Seq<u8>>)
    requires
        parent_closed(m),
        !m.contains_key(p),
        is_prefix(p, q),
    ensures
        !m.contains_key(q),
{
    if m.contains_key(q) {
        lemma_ancestors_present(m, q, p);
    }
}

/// What a rename of the entry at `from` to `to` returns, the first failing
/// check deciding.
pub open spec fn rename_outcome(
    m: EntryMap,
    exclusions: Seq<Seq<SegmentView>>,
    from: Seq<Seq<u8>>,
    to: Seq<Seq<u8>>,
    r: Result<(), WorktreeError>,
) -> bool {
    if from.len() == 0 {
        r == Err::<(), WorktreeError>(WorktreeError::IsRoot)
    } else if is_prefix(from, to) {
        r == Err::<(), WorktreeError>(WorktreeError::IntoItself)
    } else if m.contains_key(to) {
        r == Err::<(), WorktreeError>(WorktreeError::AlreadyExists)
    } else if !m.contains_key(parent_of(to)) {
        r == Err::<(), WorktreeError>(WorktreeError::NotFound)
    } else if m[parent_of(to)].kind == EntryKind::File {
        r == Err::<(), WorktreeError>(WorktreeError::NotADirectory)
    } else if m[parent_of(to)].kind != EntryKind::Dir {
        r == Err::<(), WorktreeError>(WorktreeError::NotLoaded)
    } else if set_matches(exclusions, to) {
        r == Err::<(), WorktreeError>(WorktreeError::Excluded)
    } else {
        r is Ok
    }
}

/// No prefix of the moved part `s`, put below `to`, is excluded, so the entry
/// at `from` followed by `s` moves along.
pub open spec fn moves_along(exclusions: Seq<Seq<SegmentView>>, to: Seq<Seq<u8>>, s: Seq<Seq<u8>>) -> bool {
    forall|i: int| 0 < i <= s.len() ==> !set_matches(exclusions, #[trigger] (to + s.subrange(0, i)))
}

/// Where the `k`-th moved entry goes.
pub open spec fn moved_to(to: Seq<Seq<u8>>, from_len: int, p: Seq<Seq<u8>>) -> Seq<Seq<u8>> {
    to + p.skip(from_len)
}

/// When an entry below the moved one moves along, its new parent is there as
/// a read directory.
#[verifier::rlimit(60)]
proof fn lemma_move_parent(
    cur: EntryMap,
    m0: EntryMap,
    mv: Seq<EntryView>,
    k: int,
    from: Seq<Seq<u8>>,
    to: Seq<Seq<u8>>,
    exclusions: Seq<Seq<SegmentView>>,
)
    requires
        parent_closed(m0),
        0 <= k < mv.len(),
        crate::store::sorted_by_path(mv),
        forall|j: int| 0 <= j < mv.len() ==> is_prefix(from, #[trigger] mv[j].path) && m0.contains_key(mv[j].path)
            && m0[mv[j].path] == mv[j],
        forall|q: Seq<Seq<u8>>| #[trigger] m0.contains_key(q) && is_prefix(from, q) ==> exists|j: int|
            0 <= j < mv.len() && mv[j].path == q,
        cur.contains_key(to),
        cur[to].kind == m0[from].kind,
        forall|j: int|
            0 <= j < k && moves_along(exclusions, to, (#[trigger] mv[j]).path.skip(from.len() as int)) ==> cur.contains_key(
                moved_to(to, from.len() as int, mv[j].path),
            ) && cur[moved_to(to, from.len() as int, mv[j].path)].kind == mv[j].kind,
        moves_along(exclusions, to, mv[k].path.skip(from.len() as int)),
        mv[k].path.len() > from.len(),
    ensures
        cur.contains_key(parent_of(moved_to(to, from.len() as int, mv[k].path))),
        cur[parent_of(moved_to(to, from.len() as int, mv[k].path))].kind == EntryKind::Dir,
{
    let f = from.len() as int;
    let p = mv[k].path;
    let s = p.skip(f);
    let np = moved_to(to, f, p);
    assert(p =~= from + s) by {
        assert(p.subrange(0, f) == from);
    }
    let pp = parent_of(p);
    assert(m0.contains_key(pp) && m0[pp].kind == EntryKind::Dir);
    assert(parent_of(np) =~= to + s.drop_last());
    if s.len() == 1 {
        assert(pp =~= from);
        assert(parent_of(np) =~= to);
    } else {
        assert(is_prefix(from, pp)) by {
            assert(pp.subrange(0, f) =~= p.subrange(0, f));
        }
        let j = choose|j: int| 0 <= j < mv.len() && mv[j].path == pp;
        assert(is_prefix(pp, p)) by {
            assert(p.subrange(0, pp.len() as int) =~= pp);
        }
        crate::path::lemma_prefix_sorts_first(pp, p);
        if j >= k {
            crate::path::lemma_path_order();
            if j > k {
                assert(crate::path::path_lt(mv[k].path, mv[j].path));
            }
        }
        assert(mv[j].path.skip(f) =~= s.drop_last());
        assert(moves_along(exclusions, to, s.drop_last())) by {
            assert forall|i: int| 0 < i <= s.drop_last().len() implies !set_matches(
                exclusions,
                #[trigger] (to + s.drop_last().subrange(0, i)),
            ) by {
                assert(s.drop_last().subrange(0, i) =~= s.subrange(0, i));
            }
        }
        assert(moved_to(to, f, mv[j].path) =~= parent_of(np));
    }
}

/// When an entry below the moved one moves, its new path is free.
#[verifier::rlimit(60)]
proof fn lemma_move_free(
    cur: EntryMap,
    m0: EntryMap,
    m1: EntryMap,
    mv: Seq<EntryView>,
    k: int,
    from: Seq<Seq<u8>>,
    to: Seq<Seq<u8>>,
)
    requires
        parent_closed(m0),
        0 <= k < mv.len(),
        crate::store::sorted_by_path(mv),
        forall|j: int| 0 <= j < mv.len() ==> is_prefix(from, #[trigger] mv[j].path),
        forall|q: Seq<Seq<u8>>| #[trigger] m1.contains_key(q) ==> m0.contains_key(q),
        !m0.contains_key(to),
        forall|q: Seq<Seq<u8>>|
            #[trigger] cur.contains_key(q) && !m1.contains_key(q) && q != to ==> exists|j: int|
                0 <= j < k && q == moved_to(to, from.len() as int, (#[trigger] mv[j]).path),
        mv[k].path.len() > from.len(),
    ensures
        !cur.contains_key(moved_to(to, from.len() as int, mv[k].path)),
{
    let f = from.len() as int;
    let p = mv[k].path;
    let s = p.skip(f);
    let np = moved_to(to, f, p);
    if cur.contains_key(np) {
        if m1.contains_key(np) {
            assert(is_prefix(to, np)) by {
                assert(np.subrange(0, to.len() as int) =~= to);
            }
            lemma_nothing_below_missing(m0, to, np);
        } else {
            assert(np.len() != to.len());
            let j = choose|j: int| 0 <= j < k && np == moved_to(to, f, (#[trigger] mv[j]).path);
            assert(mv[j].path.skip(f) =~= s) by {
                assert(np.skip(to.len() as int) =~= s);
                assert(np.skip(to.len() as int) =~= mv[j].path.skip(f));
            }
            assert(mv[j].path =~= p) by {
                assert(mv[j].path.subrange(0, f) == from);
                assert(p.subrange(0, f) == from);
                assert(mv[j].path =~= from + s);
                assert(p =~= from + s);
            }
            crate::path::lemma_path_order();
            assert(crate::path::path_lt(mv[j].path, mv[k].path));
        }
    }
}

/// After a rename, the entry at `to` carries the id the entry at `from` had.
pub open spec fn renamed_keeping_id(m0: EntryMap, m1: EntryMap, from: Seq<Seq<u8>>, to: Seq<Seq<u8>>) -> bool {
    m0.contains_key(from) && m1.contains_key(to) && m1[to].id == m0[from].id
}

/// Renaming `a` to `b` and then `b` back to `a` keeps the entry's id.
pub proof fn lemma_rename_back_keeps_id(m0: EntryMap, m1: EntryMap, m2: EntryMap, a: Seq<Seq<u8>>, b: Seq<Seq<u8>>)
    requires
        renamed_keeping_id(m0, m1, a, b),
        renamed_keeping_id(m1, m2, b, a),
    ensures
        m2.contains_key(a),
        m2[a].id == m0[a].id,
{
}

pub open spec fn read_dir(m: EntryMap, p: Seq<Seq<u8>>) -> bool {
    m.contains_key(p) && m[p].kind == EntryKind::Dir
}

/// A directory whose contents are not read.
pub open spec fn unread_dir(m: EntryMap, p: Seq<Seq<u8>>) -> bool {
    m.contains_key(p) && m[p].kind.spec_is_dir() && m[p].kind != EntryKind::Dir
}

/// Where the first `k` components lead to read directories and the next
/// prefix is not a read directory, no prefix of `path` is an unread
/// directory but possibly that one.
proof fn lemma_none_unread_past(m: EntryMap, path: Seq<Seq<u8>>, k: int)
    requires
        parent_closed(m),
        0 <= k <= path.len(),
        forall|j: int| 0 <= j < k ==> #[trigger] read_dir(m, path.subrange(0, j)),
        !read_dir(m, path.subrange(0, k)),
        !unread_dir(m, path.subrange(0, k)),
    ensures
        forall|j: int| 0 <= j <= path.len() ==> !#[trigger] unread_dir(m, path.subrange(0, j)),
{
    let a = path.subrange(0, k);
    assert forall|j: int| 0 <= j <= path.len() implies !#[trigger] unread_dir(m, path.subrange(0, j)) by {
        if j > k {
            assert(path.subrange(0, j).subrange(0, k) =~= a);
            if m.contains_key(a) {
                lemma_nothing_below_unread(m, a, path.subrange(0, j));
            } else {
                lemma_nothing_below_missing(m, a, path.subrange(0, j));
            }
        } else if j < k {
            assert(read_dir(m, path.subrange(0, j)));
        }
    }
}

/// The read directories of the tree, in order.
fn read_dirs(t: &Worktree) -> (r: Vec<RelPath>)
    requires
        t.wf(),
    ensures
        forall|i: int| 0 <= i < r@.len() ==> read_dir(t.entry_map(), (#[trigger] r@[i])@),
        forall|q: Seq<Seq<u8>>|
            #[trigger] read_dir(t.entry_map(), q) ==> exists|i: int| 0 <= i < r@.len() && r@[i]@ == q,
{
    proof {
        t.snapshot.store.lemma_wf();
    }
    let n = t.snapshot.store.len();
    let mut r: Vec<RelPath> = Vec::new();
    let mut k: usize = 0;
    while k < n
        invariant
            t.wf(),
            n == t.ordered().len(),
            k <= n,
            forall|i: int| 0 <= i < r@.len() ==> read_dir(t.entry_map(), (#[trigger] r@[i])@),
            forall|j: int|
                0 <= j < k && (#[trigger] t.ordered()[j]).kind == EntryKind::Dir ==> exists|i: int|
                    0 <= i < r@.len() && r@[i]@ == t.ordered()[j].path,
        decreases n - k,
    {
        let e = t.snapshot.store.entry_at(k);
        proof {
            t.snapshot.store.lemma_wf();
            assert(t.entry_map().contains_key(t.ordered()[k as int].path));
        }
        if e.kind == EntryKind::Dir {
            let ghost before = r@;
            r.push(e.path.copy());
            proof {
                assert forall|j: int|
                    0 <= j < k + 1 && (#[trigger] t.ordered()[j]).kind == EntryKind::Dir implies exists|i: int|
                        0 <= i < r@.len() && r@[i]@ == t.ordered()[j].path by {
                    if j < k {
                        let i = choose|i: int| 0 <= i < before.len() && before[i]@ == t.ordered()[j].path;
                        assert(r@[i] == before[i]);
                    } else {
                        assert(r@[r@.len() - 1]@ == t.ordered()[j].path);
                    }
                }
                assert forall|i: int| 0 <= i < r@.len() implies read_dir(t.entry_map(), (#[trigger] r@[i])@) by {
                    if i < before.len() {
                        assert(r@[i] == before[i]);
                    }
                }
            }
        }
        k = k + 1;
    }
    proof {
        t.snapshot.store.lemma_wf();
        assert forall|q: Seq<Seq<u8>>|
            #[trigger] read_dir(t.entry_map(), q) implies exists|i: int| 0 <= i < r@.len() && r@[i]@ == q by {
            let j = choose|j: int| 0 <= j < t.ordered().len() && t.ordered()[j].path == q;
            assert(t.entry_map().contains_key(t.ordered()[j].path));
        }
    }
    r
}

/// Whether a name is `.git`.
fn is_dot_git(name: &Vec<u8>) -> (r: bool)
    ensures
        r == is_git_dir_name(name@),
{
    let r = name.len() == 4 && name[0] == 46u8 && name[1] == 103u8 && name[2] == 105u8 && name[3] == 116u8;
    proof {
        if r {
            assert(name@ =~= seq![46u8, 103u8, 105u8, 116u8]);
        } else if is_git_dir_name(name@) {
            assert(name@[1] == 103u8);
        }
    }
    r
}

/// Some prefix of `p` other than the root is excluded.
pub open spec fn excluded_along(exclusions: Seq<Seq<SegmentView>>, p: Seq<Seq<u8>>) -> bool {
    exists|k: int| 0 < k <= p.len() && set_matches(exclusions, #[trigger] p.subrange(0, k))
}

/// The directory whose listing an event at `p` may change.
pub open spec fn event_dir(p: Seq<Seq<u8>>) -> Seq<Seq<u8>> {
    if p.len() == 0 {
        p
    } else {
        parent_of(p)
    }
}

pub open spec fn is_gitignore_name(name: Seq<u8>) -> bool {
    name == seq![46u8, 103u8, 105u8, 116u8, 105u8, 103u8, 110u8, 111u8, 114u8, 101u8]
}

/// What to do on a file system event at a path.
pub struct EventPlan {
    /// The directory to read again, if any.
    pub read: Option<RelPath>,
    /// The event is at a `.gitignore`, whose rules are to be read again, and
    /// the directory holding it is to be read again with its subtree.
    pub rules_changed: bool,
}

/// Whether a name is `.gitignore`.
fn is_dot_gitignore(name: &Vec<u8>) -> (r: bool)
    ensures
        r == is_gitignore_name(name@),
{
    let want: [u8; 10] = [46u8, 103u8, 105u8, 116u8, 105u8, 103u8, 110u8, 111u8, 114u8, 101u8];
    if name.len() != 10 {
        proof {
            if is_gitignore_name(name@) {
                assert(name@.len() == 10);
            }
        }
        return false;
    }
    let mut i: usize = 0;
    while i < 10
        invariant
            i <= 10,
            name@.len() == 10,
            want@ == seq![46u8, 103u8, 105u8, 116u8, 105u8, 103u8, 110u8, 111u8, 114u8, 101u8],
            forall|j: int| 0 <= j < i ==> name@[j] == want@[j],
        decreases 10 - i,
    {
        if name[i] != want[i] {
            proof {
                if is_gitignore_name(name@) {
                    assert(name@[i as int] == want@[i as int]);
                }
            }
            return false;
        }
        i = i + 1;
    }
    assert(name@ =~= want@);
    true
}

/// Whether the entry at `p` is ignored, given whether its parent is: an
/// included path never is; otherwise it is when its parent is, when the rules
/// ignore it, or when it is git's own directory.
pub open spec fn ignored_under(
    parent_ignored: bool,
    ignores: Seq<LayerView>,
    inclusions: Seq<Seq<SegmentView>>,
    p: Seq<Seq<u8>>,
    is_dir: bool,
) -> bool {
    !set_matches(inclusions, p) && (parent_ignored || gitignored(ignores, p, is_dir) || is_git_dir_name(p.last()))
}

/// An entry with a new ignored flag; an unread directory that is no longer
/// ignored, or below which an inclusion may match, and that is not outside
/// the root, becomes one to read.
pub open spec fn reflagged(e: EntryView, ignored: bool, include_below: bool) -> EntryView {
    EntryView {
        is_ignored: ignored,
        kind: if e.kind == EntryKind::UnloadedDir && (!ignored || include_below) && !e.is_external {
            EntryKind::PendingDir
        } else {
            e.kind
        },
        ..e
    }
}

/// After the rules of `dir` changed: everything strictly below `dir` has its
/// ignored flag recomputed from its parent's new flag and the rules, and
/// nothing else changed.
pub open spec fn rules_applied(
    m0: EntryMap,
    m: EntryMap,
    dir: Seq<Seq<u8>>,
    ignores: Seq<LayerView>,
    inclusions: Seq<Seq<SegmentView>>,
) -> bool {
    &&& m.dom() == m0.dom()
    &&& forall|q: Seq<Seq<u8>>| #[trigger] m.contains_key(q) && !strictly_below(dir, q) ==> m[q] == m0[q]
    &&& forall|q: Seq<Seq<u8>>|
        #[trigger] m.contains_key(q) && strictly_below(dir, q) ==> m[q] == reflagged(
            m0[q],
            ignored_under(m[parent_of(q)].is_ignored, ignores, inclusions, q, m0[q].kind.spec_is_dir()),
            set_may_match_below(inclusions, q),
        )
}

/// `r` lists, in path order, exactly the directories strictly below `dir`
/// that are to be read.
pub open spec fn lists_pending_below(m: EntryMap, dir: Seq<Seq<u8>>, r: Seq<RelPath>) -> bool {
    &&& forall|i: int|
        0 <= i < r.len() ==> m.contains_key((#[trigger] r[i])@) && m[r[i]@].kind == EntryKind::PendingDir
            && strictly_below(dir, r[i]@)
    &&& forall|q: Seq<Seq<u8>>|
        #[trigger] m.contains_key(q) && m[q].kind == EntryKind::PendingDir && strictly_below(dir, q) ==> exists|i: int|
            0 <= i < r.len() && r[i]@ == q
    &&& forall|i: int, j: int| 0 <= i < j < r.len() ==> crate::path::path_lt((#[trigger] r[i])@, (#[trigger] r[j])@)
}

/// The directories strictly below `dir` that are to be read, in path order.
fn pending_below(t: &Worktree, dir: &RelPath) -> (r: Vec<RelPath>)
    requires
        t.wf(),
    ensures
        lists_pending_below(t.entry_map(), dir@, r@),
{
    proof {
        t.snapshot.store.lemma_wf();
    }
    let n = t.snapshot.store.len();
    let mut r: Vec<RelPath> = Vec::new();
    let mut k: usize = 0;
    while k < n
        invariant
            t.snapshot.store.wf(),
            crate::store::sorted_by_path(t.ordered()),
            forall|i: int|
                0 <= i < t.ordered().len() ==> t.entry_map().contains_key(#[trigger] t.ordered()[i].path)
                    && t.entry_map()[t.ordered()[i].path] == t.ordered()[i],
            n == t.ordered().len(),
            k <= n,
            forall|i: int|
                0 <= i < r@.len() ==> exists|j: int|
                    0 <= j < k && (#[trigger] r@[i])@ == t.ordered()[j].path && t.ordered()[j].kind
                        == EntryKind::PendingDir && strictly_below(dir@, t.ordered()[j].path),
            forall|j: int|
                0 <= j < k && (#[trigger] t.ordered()[j]).kind == EntryKind::PendingDir && strictly_below(
                    dir@,
                    t.ordered()[j].path,
                ) ==> exists|i: int| 0 <= i < r@.len() && r@[i]@ == t.ordered()[j].path,
            forall|i: int, i2: int| 0 <= i < i2 < r@.len() ==> crate::path::path_lt((#[trigger] r@[i])@, (#[trigger] r@[i2])@),
            forall|i: int, j: int|
                0 <= i < r@.len() && k <= j < n ==> crate::path::path_lt((#[trigger] r@[i])@, (#[trigger] t.ordered()[j]).path),
        decreases n - k,
    {
        let e = t.snapshot.store.entry_at(k);
        proof {
            crate::path::lemma_path_order();
        }
        if e.kind == EntryKind::PendingDir && e.path.depth() > dir.depth() && e.path.starts_with(dir) {
            let ghost before = r@;
            r.push(e.path.copy());
            proof {
                assert forall|i: int| 0 <= i < r@.len() implies exists|j: int|
                    0 <= j < k + 1 && (#[trigger] r@[i])@ == t.ordered()[j].path && t.ordered()[j].kind
                        == EntryKind::PendingDir && strictly_below(dir@, t.ordered()[j].path) by {
                    if i < before.len() {
                        assert(r@[i] == before[i]);
                    }
                }
                assert forall|j: int|
                    0 <= j < k + 1 && (#[trigger] t.ordered()[j]).kind == EntryKind::PendingDir && strictly_below(
                        dir@,
                        t.ordered()[j].path,
                    ) implies exists|i: int| 0 <= i < r@.len() && r@[i]@ == t.ordered()[j].path by {
                    if j < k {
                        let i = choose|i: int| 0 <= i < before.len() && before[i]@ == t.ordered()[j].path;
                        assert(r@[i] == before[i]);
                    } else {
                        assert(r@[r@.len() - 1]@ == t.ordered()[j].path);
                    }
                }
                assert forall|i: int, i2: int| 0 <= i < i2 < r@.len() implies crate::path::path_lt(
                    (#[trigger] r@[i])@,
                    (#[trigger] r@[i2])@,
                ) by {
                    assert(r@[i] == before[i]);
                    if i2 < before.len() {
                        assert(r@[i2] == before[i2]);
                    }
                }
                assert forall|i: int, j: int|
                    0 <= i < r@.len() && k + 1 <= j < n implies crate::path::path_lt(
                        (#[trigger] r@[i])@,
                        (#[trigger] t.ordered()[j]).path,
                    ) by {
                    assert(crate::path::path_lt(t.ordered()[k as int].path, t.ordered()[j].path));
                    if i < before.len() {
                        assert(r@[i] == before[i]);
                    }
                }
            }
        }
        k = k + 1;
    }
    proof {
        assert forall|q: Seq<Seq<u8>>|
            #[trigger] t.entry_map().contains_key(q) && t.entry_map()[q].kind == EntryKind::PendingDir && strictly_below(
                dir@,
                q,
            ) implies exists|i: int| 0 <= i < r@.len() && r@[i]@ == q by {
            t.snapshot.store.lemma_wf();
            let j = choose|j: int| 0 <= j < t.ordered().len() && t.ordered()[j].path == q;
            assert(t.entry_map()[t.ordered()[j].path] == t.ordered()[j]);
        }
        assert forall|i: int| 0 <= i < r@.len() implies t.entry_map().contains_key((#[trigger] r@[i])@)
            && t.entry_map()[r@[i]@].kind == EntryKind::PendingDir && strictly_below(dir@, r@[i]@) by {
            let j = choose|j: int|
                0 <= j < k && (#[trigger] r@[i])@ == t.ordered()[j].path && t.ordered()[j].kind == EntryKind::PendingDir
                    && strictly_below(dir@, t.ordered()[j].path);
        }
    }
    r
}

/// Whether some listed child has this name.
fn has_name(children: &Vec<ChildStat>, name: &Vec<u8>) -> (r: bool)
    ensures
        r == exists|k: int| 0 <= k < children@.len() && children@[k].name@ == name@,
{
    let mut k: usize = 0;
    while k < children.len()
        invariant
            k <= children@.len(),
            forall|j: int| 0 <= j < k ==> children@[j].name@ != name@,
        decreases children@.len() - k,
    {
        if bytes_eq(&children[k].name, name) {
            return true;
        }
        k = k + 1;
    }
    false
}

/// Without the root, the rest of a parent-closed map stays parent-closed when
/// a subtree is taken out.
proof fn lemma_without_subtree_closed(m: EntryMap, q: Seq<Seq<u8>>)
    requires
        parent_closed(m),
        q.len() > 0,
    ensures
        parent_closed(without_subtree(m, q)),
        without_subtree(m, q).contains_key(Seq::<Seq<u8>>::empty()) == m.contains_key(
            Seq::<Seq<u8>>::empty(),
        ),
        forall|p: Seq<Seq<u8>>| #[trigger]
            without_subtree(m, q).contains_key(p) <==> m.contains_key(p) && !is_prefix(q, p),
        forall|p: Seq<Seq<u8>>| #[trigger] without_subtree(m, q).contains_key(p) ==> without_subtree(m, q)[p] == m[p],
{
    let w = without_subtree(m, q);
    assert forall|p: Seq<Seq<u8>>| #[trigger] w.contains_key(p) <==> m.contains_key(p) && !is_prefix(q, p) by {
    }
    assert forall|p: Seq<Seq<u8>>| #[trigger] w.contains_key(p) && p.len() > 0 implies w.contains_key(parent_of(p))
        && w[parent_of(p)].kind == EntryKind::Dir by {
        let pp = parent_of(p);
        if is_prefix(q, pp) {
            assert(p.subrange(0, q.len() as int) =~= pp.subrange(0, q.len() as int));
        }
    }
    if is_prefix(q, Seq::<Seq<u8>>::empty()) {
        assert(false);
    }
}

/// Below a directory that is not read there is nothing.
pub proof fn lemma_nothing_below_unread(m: EntryMap, d: Seq<Seq<u8>>, p: Seq<Seq<u8>>)
    requires
        parent_closed(m),
        m.contains_key(d),
        m[d].kind != EntryKind::Dir,
        is_prefix(d, p),
        d.len() < p.len(),
    ensures
        !m.contains_key(p),
    decreases p.len(),
{
    if m.contains_key(p) {
        let pp = parent_of(p);
        assert(m.contains_key(pp));
        if pp.len() == d.len() {
            assert(pp =~= d) by {
                assert(pp =~= p.subrange(0, d.len() as int));
            }
        } else {
            assert(is_prefix(d, pp)) by {
                assert(pp.subrange(0, d.len() as int) =~= p.subrange(0, d.len() as int));
            }
            lemma_nothing_below_unread(m, d, pp);
        }
    }
}

impl Worktree {
    /// The entries, keyed by path.
    pub closed spec fn entry_map(&self) -> EntryMap {
        self.snapshot.entries()
    }

    pub closed spec fn exclusions(&self) -> Seq<Seq<SegmentView>> {
        self.settings.exclusions@
    }

    pub closed spec fn inclusions(&self) -> Seq<Seq<SegmentView>> {
        self.settings.inclusions@
    }

    pub closed spec fn private_files(&self) -> Seq<Seq<SegmentView>> {
        self.settings.private_files@
    }

    pub closed spec fn next_id(&self) -> u64 {
        self.next_entry_id
    }

    pub closed spec fn scan_id(&self) -> u64 {
        self.snapshot.scan_id
    }

    pub closed spec fn wf(&self) -> bool {
        &&& self.snapshot.wf()
        &&& tree_invariants(self.snapshot.entries(), self.settings.exclusions@, self.next_entry_id)
        &&& flags_follow(self.snapshot.entries(), self.settings.inclusions@, self.settings.private_files@)
    }

    /// The invariants hold in every state a worktree can reach.
    pub proof fn lemma_invariants(&self)
        requires
            self.wf(),
        ensures
            tree_invariants(self.entry_map(), self.exclusions(), self.next_id()),
            flags_follow(self.entry_map(), self.inclusions(), self.private_files()),
    {
    }

    /// A worktree holding only its root; a directory root is not read yet.
    pub fn new(root_is_dir: bool, inode: u64, mtime: u64, size: u64, settings: ScanSettings) -> (r: Worktree)
        ensures
            r.wf(),
            r.exclusions() == settings.exclusions@,
            r.inclusions() == settings.inclusions@,
            r.private_files() == settings.private_files@,
            r.entry_map().dom() == set![Seq::<Seq<u8>>::empty()],
            r.entry_map()[Seq::<Seq<u8>>::empty()].kind == (if root_is_dir {
                EntryKind::PendingDir
            } else {
                EntryKind::File
            }),
            r.entry_map()[Seq::<Seq<u8>>::empty()].id == 0,
            r.entry_map()[Seq::<Seq<u8>>::empty()].is_private == set_matches(
                settings.private_files@,
                Seq::<Seq<u8>>::empty(),
            ),
            r.scan_id() == 0,
    {
        let root = RelPath::root();
        let kind = if root_is_dir {
            EntryKind::PendingDir
        } else {
            EntryKind::File
        };
        let mut e = Entry::new(root, 0, kind, inode, mtime, size);
        e.is_private = settings.private_files.is_match(&e.path);
        e.is_always_included = settings.inclusions.is_match(&e.path);
        let mut snapshot = Snapshot::new(0);
        let ghost ev = e@;
        snapshot.store.insert_or_replace(e);
        let r = Worktree { snapshot, next_entry_id: 1, settings };
        proof {
            let m = r.snapshot.entries();
            assert(m == EntryMap::empty().insert(Seq::<Seq<u8>>::empty(), ev));
            assert(m.dom() =~= set![Seq::<Seq<u8>>::empty()]);
        }
        r
    }

    /// Hands out a fresh id.
    fn take_id(&mut self) -> (r: Result<u64, WorktreeError>)
        requires
            old(self).wf(),
        ensures
            final(self).wf(),
            final(self).entry_map() == old(self).entry_map(),
            final(self).exclusions() == old(self).exclusions(),
            final(self).inclusions() == old(self).inclusions(),
            final(self).private_files() == old(self).private_files(),
            final(self).scan_id() == old(self).scan_id(),
            r is Ok ==> id_unused(old(self).entry_map(), r->Ok_0) && r->Ok_0 == old(self).next_id()
                && final(self).next_id() == old(self).next_id() + 1,
            r is Err ==> r == Err::<u64, WorktreeError>(WorktreeError::IdsExhausted) && old(self).next_id()
                == u64::MAX && final(self).next_id() == old(self).next_id(),
    {
        if self.next_entry_id == u64::MAX {
            return Err(WorktreeError::IdsExhausted);
        }
        let id = self.next_entry_id;
        self.next_entry_id = self.next_entry_id + 1;
        Ok(id)
    }

    /// Puts an entry at a path that has none, below a read directory.
    fn add_entry(
        &mut self,
        path: RelPath,
        kind: EntryKind,
        id: u64,
        stat: (u64, u64, u64),
        is_symlink: bool,
        is_external: bool,
        ignored: bool,
    )
        requires
            old(self).wf(),
            path@.len() > 0,
            !old(self).entry_map().contains_key(path@),
            old(self).entry_map().contains_key(parent_of(path@)),
            old(self).entry_map()[parent_of(path@)].kind == EntryKind::Dir,
            !set_matches(old(self).exclusions(), path@),
            id_unused(old(self).entry_map(), id),
            id < old(self).next_id(),
        ensures
            final(self).wf(),
            final(self).exclusions() == old(self).exclusions(),
            final(self).inclusions() == old(self).inclusions(),
            final(self).private_files() == old(self).private_files(),
            final(self).next_id() == old(self).next_id(),
            final(self).scan_id() == old(self).scan_id(),
            final(self).entry_map() == old(self).entry_map().insert(
                path@,
                EntryView {
                    path: path@,
                    id,
                    kind,
                    mtime: stat.1,
                    size: stat.2,
                    inode: stat.0,
                    is_symlink,
                    is_ignored: ignored && !set_matches(old(self).inclusions(), path@),
                    is_external,
                    is_always_included: set_matches(old(self).inclusions(), path@),
                    is_private: set_matches(old(self).private_files(), path@),
                },
            ),
    {
        let always = self.settings.inclusions.is_match(&path);
        let private = self.settings.private_files.is_match(&path);
        let mut e = Entry::new(path, id, kind, stat.0, stat.1, stat.2);
        e.is_symlink = is_symlink;
        e.is_external = is_external;
        e.is_always_included = always;
        e.is_private = private;
        e.is_ignored = ignored && !always;
        let ghost ev = e@;
        let ghost m = self.snapshot.entries();
        self.snapshot.store.insert_or_replace(e);
        proof {
            let m2 = self.snapshot.entries();
            assert forall|p: Seq<Seq<u8>>| #[trigger] m2.contains_key(p) && p.len() > 0 implies m2.contains_key(
                parent_of(p),
            ) && m2[parent_of(p)].kind == EntryKind::Dir by {
                if p != ev.path {
                    assert(m.contains_key(p));
                    if parent_of(p) == ev.path {
                        assert(false);
                    }
                }
            }
            assert forall|p: Seq<Seq<u8>>, q: Seq<Seq<u8>>|
                #[trigger] m2.contains_key(p) && #[trigger] m2.contains_key(q) && p != q implies m2[p].id != m2[q].id by {
                if p != ev.path && q != ev.path {
                    assert(m.contains_key(p) && m.contains_key(q));
                } else if p == ev.path {
                    assert(m.contains_key(q));
                } else {
                    assert(m.contains_key(p));
                }
            }
        }
    }

    /// Takes out a path other than the root, and everything below it.
    fn remove_below(&mut self, path: &RelPath) -> (r: usize)
        requires
            old(self).wf(),
            path@.len() > 0,
        ensures
            final(self).wf(),
            final(self).exclusions() == old(self).exclusions(),
            final(self).inclusions() == old(self).inclusions(),
            final(self).private_files() == old(self).private_files(),
            final(self).next_id() == old(self).next_id(),
            final(self).scan_id() == old(self).scan_id(),
            final(self).entry_map() == without_subtree(old(self).entry_map(), path@),
            forall|q: Seq<Seq<u8>>| #[trigger]
                final(self).entry_map().contains_key(q) <==> old(self).entry_map().contains_key(q) && !is_prefix(path@, q),
            forall|q: Seq<Seq<u8>>| #[trigger]
                final(self).entry_map().contains_key(q) ==> final(self).entry_map()[q] == old(self).entry_map()[q],
    {
        let ghost m = self.snapshot.entries();
        let r = self.snapshot.store.remove_subtree(path);
        proof {
            lemma_without_subtree_closed(m, path@);
        }
        r
    }

    /// Puts `e` in place of the entry at its path, keeping that entry's id; a
    /// read directory stays one.
    fn replace_entry(&mut self, e: Entry)
        requires
            old(self).wf(),
            old(self).entry_map().contains_key(e.path@),
            old(self).entry_map()[e.path@].id == e.id,
            old(self).entry_map()[e.path@].kind == EntryKind::Dir ==> e.kind == EntryKind::Dir,
            e.is_always_included ==> !e.is_ignored,
            e.is_always_included == set_matches(old(self).inclusions(), e.path@),
            e.is_private == set_matches(old(self).private_files(), e.path@),
        ensures
            final(self).wf(),
            final(self).exclusions() == old(self).exclusions(),
            final(self).inclusions() == old(self).inclusions(),
            final(self).private_files() == old(self).private_files(),
            final(self).next_id() == old(self).next_id(),
            final(self).scan_id() == old(self).scan_id(),
            final(self).entry_map() == old(self).entry_map().insert(e.path@, e@),
    {
        let ghost ev = e@;
        let ghost m = self.snapshot.entries();
        self.snapshot.store.insert_or_replace(e);
        proof {
            let m2 = self.snapshot.entries();
            assert forall|p: Seq<Seq<u8>>| #[trigger] m2.contains_key(p) && p.len() > 0 implies m2.contains_key(
                parent_of(p),
            ) && m2[parent_of(p)].kind == EntryKind::Dir by {
                assert(m.contains_key(p));
            }
            assert forall|p: Seq<Seq<u8>>, q: Seq<Seq<u8>>|
                #[trigger] m2.contains_key(p) && #[trigger] m2.contains_key(q) && p != q implies m2[p].id != m2[q].id by {
                assert(m.contains_key(p) && m.contains_key(q));
            }
            assert forall|p: Seq<Seq<u8>>| #[trigger] m2.contains_key(p) && p.len() > 0 implies !set_matches(
                self.settings.exclusions@,
                p,
            ) by {
                assert(m.contains_key(p));
            }
            assert forall|p: Seq<Seq<u8>>| #[trigger] m2.contains_key(p) implies m2[p].id < self.next_entry_id by {
                assert(m.contains_key(p));
            }
        }
    }

    /// Takes out every direct child of `dir` whose name is not listed, with
    /// everything below it.
    fn drop_unlisted_children(&mut self, dir: &RelPath, children: &Vec<ChildStat>)
        requires
            old(self).wf(),
        ensures
            final(self).wf(),
            final(self).exclusions() == old(self).exclusions(),
            final(self).inclusions() == old(self).inclusions(),
            final(self).private_files() == old(self).private_files(),
            final(self).next_id() == old(self).next_id(),
            final(self).scan_id() == old(self).scan_id(),
            forall|p: Seq<Seq<u8>>| #[trigger]
                final(self).entry_map().contains_key(p) ==> old(self).entry_map().contains_key(p) && final(self).entry_map()[p] == old(self).entry_map()[p],
            forall|p: Seq<Seq<u8>>|
                #[trigger] old(self).entry_map().contains_key(p) && !strictly_below(dir@, p) ==> final(self).entry_map().contains_key(p),
            forall|k: int|
                0 <= k < children@.len() && old(self).entry_map().contains_key(dir@.push(#[trigger] children@[k].name@))
                    ==> final(self).entry_map().contains_key(dir@.push(children@[k].name@)),
            forall|p: Seq<Seq<u8>>|
                #[trigger] final(self).entry_map().contains_key(p) && strictly_below(dir@, p) && p.len() == dir@.len()
                    + 1 ==> exists|k: int| 0 <= k < children@.len() && children@[k].name@ == p.last(),
    {
        let current = self.snapshot.store.subtree_entries(dir);
        let ghost m0 = self.snapshot.entries();
        let mut i: usize = 0;
        while i < current.len()
            invariant
                self.wf(),
                self.exclusions() == old(self).exclusions(),
                self.inclusions() == old(self).inclusions(),
                self.private_files() == old(self).private_files(),
                self.next_id() == old(self).next_id(),
                self.scan_id() == old(self).scan_id(),
                m0 == old(self).entry_map(),
                i <= current@.len(),
                forall|k: int|
                    0 <= k < current@.len() ==> is_prefix(dir@, #[trigger] entry_views(current@)[k].path)
                        && m0.contains_key(entry_views(current@)[k].path),
                forall|p: Seq<Seq<u8>>|
                    #[trigger] m0.contains_key(p) && is_prefix(dir@, p) ==> exists|k: int|
                        0 <= k < current@.len() && entry_views(current@)[k].path == p,
                forall|p: Seq<Seq<u8>>| #[trigger]
                    self.entry_map().contains_key(p) ==> m0.contains_key(p) && self.entry_map()[p] == m0[p],
                forall|p: Seq<Seq<u8>>|
                    #[trigger] m0.contains_key(p) && !strictly_below(dir@, p) ==> self.entry_map().contains_key(p),
                forall|k: int|
                    0 <= k < children@.len() && m0.contains_key(dir@.push(#[trigger] children@[k].name@))
                        ==> self.entry_map().contains_key(dir@.push(children@[k].name@)),
                forall|j: int|
                    0 <= j < i && (#[trigger] entry_views(current@)[j]).path.len() == dir@.len() + 1 && !(exists|k: int|
                        0 <= k < children@.len() && children@[k].name@ == entry_views(current@)[j].path.last())
                        ==> !self.entry_map().contains_key(entry_views(current@)[j].path),
            decreases current@.len() - i,
        {
            let ghost cv = entry_views(current@)[i as int];
            assert(cv == current@[i as int]@);
            let p = &current[i].path;
            assert(is_prefix(dir@, entry_views(current@)[i as int].path));
            assert(cv.path == p@);
            if p.depth() > dir.depth() && p.depth() - 1 == dir.depth() {
                let name = &p.components[p.components.len() - 1];
                proof {
                    crate::path::lemma_views_index(p.components@, p.components@.len() - 1);
                }
                let listed = has_name(children, name);
                assert(name@ == p@.last());
                if !listed {
                    let ghost before = self.entry_map();
                    self.remove_below(p);
                    proof {
                        assert(p@.subrange(0, p@.len() as int) =~= p@);
                        assert(!self.entry_map().contains_key(p@));
                        assert forall|q: Seq<Seq<u8>>|
                            #[trigger] m0.contains_key(q) && !strictly_below(dir@, q) implies self.entry_map().contains_key(
                            q,
                        ) by {
                            assert(before.contains_key(q));
                            if is_prefix(p@, q) {
                                assert(q.subrange(0, dir@.len() as int) =~= p@.subrange(0, dir@.len() as int));
                                assert(strictly_below(dir@, q));
                            }
                        }
                        assert forall|k: int|
                            0 <= k < children@.len() && m0.contains_key(dir@.push(#[trigger] children@[k].name@))
                                implies self.entry_map().contains_key(dir@.push(children@[k].name@)) by {
                            let q = dir@.push(children@[k].name@);
                            assert(before.contains_key(q));
                            if is_prefix(p@, q) {
                                assert(q =~= p@.subrange(0, q.len() as int));
                                assert(q.last() == p@.last());
                            }
                        }
                    }
                }
            }
            i = i + 1;
        }
        proof {
            let m = self.entry_map();
            assert forall|p: Seq<Seq<u8>>|
                #[trigger] m.contains_key(p) && strictly_below(dir@, p) && p.len() == dir@.len() + 1 implies exists|
                k: int,
            | 0 <= k < children@.len() && children@[k].name@ == p.last() by {
                assert(m0.contains_key(p));
                let j = choose|j: int| 0 <= j < current@.len() && entry_views(current@)[j].path == p;
                assert(entry_views(current@)[j].path == p);
            }
        }
    }

    /// Applies what a directory read says of one child of `dir`.
    fn place_child(
        &mut self,
        dir: &RelPath,
        dir_ignored: bool,
        dir_external: bool,
        c: &ChildStat,
        ignores: &IgnoreStack,
        Ghost(fresh): Ghost<u64>,
    ) -> (r: Result<
        bool,
        WorktreeError,
    >)
        requires
            old(self).wf(),
            old(self).entry_map().contains_key(dir@),
            old(self).entry_map()[dir@].kind == EntryKind::Dir,
            fresh <= old(self).next_id(),
        ensures
            old(self).next_id() <= final(self).next_id() <= old(self).next_id() + 1,
            r is Err ==> old(self).next_id() == u64::MAX,
            final(self).wf(),
            final(self).exclusions() == old(self).exclusions(),
            final(self).inclusions() == old(self).inclusions(),
            final(self).private_files() == old(self).private_files(),
            final(self).scan_id() == old(self).scan_id(),
            set_matches(old(self).exclusions(), dir@.push(c.name@)) ==> r == Ok::<bool, WorktreeError>(false)
                && final(self).entry_map() == old(self).entry_map(),
            r is Ok && !set_matches(old(self).exclusions(), dir@.push(c.name@)) ==> placed_as_listed(
                final(self).entry_map(),
                old(self).entry_map(),
                dir@,
                *c,
                dir_ignored,
                dir_external,
                fresh,
                ignores@,
                old(self).inclusions(),
                old(self).private_files(),
            ),
            r is Ok && !set_matches(old(self).exclusions(), dir@.push(c.name@)) ==> r->Ok_0 == (final(self).entry_map()[dir@.push(c.name@)].kind == EntryKind::PendingDir),
            forall|q: Seq<Seq<u8>>|
                !is_prefix(dir@.push(c.name@), q) ==> (#[trigger] final(self).entry_map().contains_key(q)
                    == old(self).entry_map().contains_key(q)),
            forall|q: Seq<Seq<u8>>|
                !is_prefix(dir@.push(c.name@), q) && #[trigger] final(self).entry_map().contains_key(q) ==> final(self).entry_map()[q] == old(self).entry_map()[q],
            r is Err ==> r == Err::<bool, WorktreeError>(WorktreeError::IdsExhausted),
    {
        let path = dir.join(&c.name);
        assert(parent_of(path@) =~= dir@);
        if self.settings.exclusions.is_match(&path) {
            return Ok(false);
        }
        let always = self.settings.inclusions.is_match(&path);
        let private = self.settings.private_files.is_match(&path);
        let gi = ignores.is_ignored(&path, c.is_dir) || is_dot_git(&c.name);
        let ignored = !always && (dir_ignored || gi);
        let external = c.is_external || dir_external;
        let include_below = self.settings.inclusions.may_match_below(&path);
        let existing: Option<Entry> = match self.snapshot.store.get(&path) {
            Some(e) => Some(e.copy()),
            None => None,
        };
        match existing {
            Some(e) => {
                if e.inode == c.inode && e.is_dir() == c.is_dir {
                    let kind = if !c.is_dir {
                        EntryKind::File
                    } else if e.kind == EntryKind::Dir {
                        EntryKind::Dir
                    } else if (ignored && !include_below) || external {
                        EntryKind::UnloadedDir
                    } else {
                        EntryKind::PendingDir
                    };
                    let mut ne = e;
                    ne.kind = kind;
                    ne.mtime = c.mtime;
                    ne.size = c.size;
                    ne.is_symlink = c.is_symlink;
                    ne.is_external = external;
                    ne.is_ignored = ignored;
                    ne.is_always_included = always;
                    ne.is_private = private;
                    let ghost m = self.entry_map();
                    proof {
                        assert(ne.path@ == path@);
                        assert(path@.subrange(0, path@.len() as int) =~= path@);
                    }
                    self.replace_entry(ne);
                    return Ok(kind == EntryKind::PendingDir);
                }
                self.remove_below(&path);
                proof {
                    assert(path@.subrange(0, path@.len() as int) =~= path@);
                }
            },
            None => {},
        }
        let id = match self.take_id() {
            Ok(id) => id,
            Err(err) => {
                return Err(err);
            },
        };
        let kind = if !c.is_dir {
            EntryKind::File
        } else if (ignored && !include_below) || external {
            EntryKind::UnloadedDir
        } else {
            EntryKind::PendingDir
        };
        let ghost pv = path@;
        self.add_entry(path, kind, id, (c.inode, c.mtime, c.size), c.is_symlink, external, dir_ignored || gi);
        proof {
            assert(pv.subrange(0, pv.len() as int) =~= pv);
        }
        Ok(kind == EntryKind::PendingDir)
    }

    /// The changes of a directory read, without the list of what to read next.
    fn apply_listing(&mut self, dir: &RelPath, children: &Vec<ChildStat>, ignores: &IgnoreStack) -> (r: Result<(), WorktreeError>)
        requires
            old(self).wf(),
            names_distinct(children@),
        ensures
            final(self).wf(),
            final(self).exclusions() == old(self).exclusions(),
            final(self).inclusions() == old(self).inclusions(),
            final(self).private_files() == old(self).private_files(),
            final(self).scan_id() == old(self).scan_id(),
            !old(self).entry_map().contains_key(dir@) ==> r == Err::<(), WorktreeError>(
                WorktreeError::NotFound,
            ) && final(self).entry_map() == old(self).entry_map(),
            old(self).entry_map().contains_key(dir@) && old(self).entry_map()[dir@].kind == EntryKind::File ==> r
                == Err::<(), WorktreeError>(WorktreeError::NotADirectory) && final(self).entry_map() == old(self).entry_map(),
            r is Err && old(self).entry_map().contains_key(dir@) && old(self).entry_map()[dir@].kind != EntryKind::File
                ==> r == Err::<(), WorktreeError>(WorktreeError::IdsExhausted),
            r is Ok ==> listing_applied(
                old(self).entry_map(),
                final(self).entry_map(),
                dir@,
                children@,
                ignores@,
                old(self).exclusions(),
                old(self).inclusions(),
                old(self).private_files(),
                old(self).next_id(),
            ),
            final(self).next_id() >= old(self).next_id(),
            old(self).entry_map().contains_key(dir@) && old(self).entry_map()[dir@].kind != EntryKind::File
                && old(self).next_id() + children@.len() <= u64::MAX ==> r is Ok,
    {
        let found: Option<Entry> = match self.snapshot.store.get(dir) {
            Some(e) => Some(e.copy()),
            None => None,
        };
        let mut d = match found {
            Some(e) => e,
            None => {
                return Err(WorktreeError::NotFound);
            },
        };
        if !d.is_dir() {
            return Err(WorktreeError::NotADirectory);
        }
        let ghost m0 = self.entry_map();
        let dir_ignored = d.is_ignored;
        let dir_external = d.is_external;
        let ghost fresh = self.next_id();
        d.kind = EntryKind::Dir;
        proof {
            assert(d.path@ == dir@);
        }
        let ghost dv = d@;
        assert(dv == with_kind(m0[dir@], EntryKind::Dir));
        self.replace_entry(d);
        let ghost m1 = self.entry_map();
        assert(m1.contains_key(dir@) && m1[dir@] == dv);
        self.drop_unlisted_children(dir, children);
        let ghost m2 = self.entry_map();
        proof {
            assert(!strictly_below(dir@, dir@));
            assert(m2.contains_key(dir@));
            assert forall|q: Seq<Seq<u8>>|
                !strictly_below(dir@, q) && q != dir@ implies (#[trigger] m2.contains_key(q) == m0.contains_key(q))
                    && (m2.contains_key(q) ==> m2[q] == m0[q]) by {
                if m0.contains_key(q) {
                    assert(m1.contains_key(q));
                }
                if m2.contains_key(q) {
                    assert(m1.contains_key(q));
                }
            }
            assert forall|k: int| 0 <= k < children@.len() implies (#[trigger] m2.contains_key(
                dir@.push(children@[k].name@),
            ) == m0.contains_key(dir@.push(children@[k].name@))) && (m2.contains_key(dir@.push(children@[k].name@))
                ==> m2[dir@.push(children@[k].name@)] == m0[dir@.push(children@[k].name@)]) by {
                let p = dir@.push(children@[k].name@);
                assert(p != dir@) by {
                    assert(p.len() != dir@.len());
                }
                assert(m1.contains_key(p) == m0.contains_key(p));
                if m2.contains_key(p) {
                    assert(m1.contains_key(p));
                }
            }
        }
        let mut k: usize = 0;
        while k < children.len()
            invariant
                self.wf(),
                self.exclusions() == old(self).exclusions(),
                self.inclusions() == old(self).inclusions(),
                self.private_files() == old(self).private_files(),
                self.scan_id() == old(self).scan_id(),
                m0 == old(self).entry_map(),
                names_distinct(children@),
                k <= children@.len(),
                m0.contains_key(dir@),
                m0[dir@].kind != EntryKind::File,
                dir_ignored == m0[dir@].is_ignored,
                dir_external == m0[dir@].is_external,
                fresh == old(self).next_id(),
                fresh <= self.next_id() <= fresh + k,
                self.entry_map().contains_key(dir@),
                self.entry_map()[dir@] == with_kind(m0[dir@], EntryKind::Dir),
                forall|q: Seq<Seq<u8>>|
                    !strictly_below(dir@, q) && q != dir@ ==> (#[trigger] self.entry_map().contains_key(q)
                        == m0.contains_key(q)) && (self.entry_map().contains_key(q) ==> self.entry_map()[q] == m0[q]),
                forall|j: int|
                    k <= j < children@.len() ==> (#[trigger] self.entry_map().contains_key(dir@.push(children@[j].name@))
                        == m0.contains_key(dir@.push(children@[j].name@))) && (self.entry_map().contains_key(
                        dir@.push(children@[j].name@),
                    ) ==> self.entry_map()[dir@.push(children@[j].name@)] == m0[dir@.push(children@[j].name@)]),
                forall|j: int|
                    0 <= j < k && !set_matches(old(self).exclusions(), dir@.push(#[trigger] children@[j].name@))
                        ==> placed_as_listed(self.entry_map(), m0, dir@, children@[j], dir_ignored, dir_external, fresh, ignores@, old(self).inclusions(), old(self).private_files()),
                forall|q: Seq<Seq<u8>>|
                    #[trigger] self.entry_map().contains_key(q) && strictly_below(dir@, q) && q.len() == dir@.len() + 1
                        ==> exists|j: int| 0 <= j < children@.len() && children@[j].name@ == q.last(),
            decreases children@.len() - k,
        {
            let ghost before = self.entry_map();
            let c = &children[k];
            let placed = self.place_child(dir, dir_ignored, dir_external, c, ignores, Ghost(fresh));
            if let Err(err) = placed {
                return Err(err);
            }
            proof {
                lemma_place_step(before, self.entry_map(), m0, dir@, children@, k as int, dir_ignored, dir_external, fresh, ignores@, old(self).exclusions(), old(self).inclusions(), old(self).private_files());
            }
            k = k + 1;
        }
        Ok(())
    }

    /// Applies a read of the directory `dir`: the directory becomes read, its
    /// unlisted children go with everything below them, and each listed child
    /// that is not excluded is put in or brought up to date. Returns the
    /// children that are directories still to be read.
    pub fn populate_dir(&mut self, dir: &RelPath, children: &Vec<ChildStat>, ignores: &IgnoreStack) -> (r: Result<
        Vec<RelPath>,
        WorktreeError,
    >)
        requires
            old(self).wf(),
            names_distinct(children@),
        ensures
            final(self).wf(),
            final(self).exclusions() == old(self).exclusions(),
            final(self).inclusions() == old(self).inclusions(),
            final(self).private_files() == old(self).private_files(),
            final(self).scan_id() == old(self).scan_id(),
            !old(self).entry_map().contains_key(dir@) ==> r == Err::<Vec<RelPath>, WorktreeError>(
                WorktreeError::NotFound,
            ) && final(self).entry_map() == old(self).entry_map(),
            old(self).entry_map().contains_key(dir@) && old(self).entry_map()[dir@].kind == EntryKind::File ==> r
                == Err::<Vec<RelPath>, WorktreeError>(WorktreeError::NotADirectory) && final(self).entry_map() == old(self).entry_map(),
            r is Err && old(self).entry_map().contains_key(dir@) && old(self).entry_map()[dir@].kind != EntryKind::File
                ==> r == Err::<Vec<RelPath>, WorktreeError>(WorktreeError::IdsExhausted),
            r is Ok ==> listing_applied(
                old(self).entry_map(),
                final(self).entry_map(),
                dir@,
                children@,
                ignores@,
                old(self).exclusions(),
                old(self).inclusions(),
                old(self).private_files(),
                old(self).next_id(),
            ),
            final(self).next_id() >= old(self).next_id(),
            old(self).entry_map().contains_key(dir@) && old(self).entry_map()[dir@].kind != EntryKind::File
                && old(self).next_id() + children@.len() <= u64::MAX ==> r is Ok,
            r is Ok ==> lists_pending(final(self).entry_map(), dir@, children@, r->Ok_0@),
    {
        let done = self.apply_listing(dir, children, ignores);
        if let Err(err) = done {
            return Err(err);
        }
        let ghost m = self.entry_map();
        let to_read = pending_children(self, dir, children);
        assert(self.entry_map() == m);
        Ok(to_read)
    }

    /// The entries in depth-first order.
    pub closed spec fn ordered(&self) -> Seq<EntryView> {
        self.snapshot.store@
    }

    /// The entry at `path`, if any.
    pub fn entry_for_path(&self, path: &RelPath) -> (r: Option<&Entry>)
        requires
            self.wf(),
        ensures
            r.is_some() == self.entry_map().contains_key(path@),
            r.is_some() ==> r.unwrap()@ == self.entry_map()[path@],
    {
        self.snapshot.store.get(path)
    }

    /// The paths of the entries in depth-first order, ignored ones only when
    /// asked.
    pub fn entries(&self, include_ignored: bool) -> (r: Vec<RelPath>)
        requires
            self.wf(),
        ensures
            r@.map_values(|p: RelPath| p@) == crate::store::listed_paths(self.ordered(), include_ignored),
    {
        self.snapshot.store.paths(include_ignored)
    }

    /// The entry at position `i` of the depth-first order.
    pub fn entry_at(&self, i: usize) -> (r: &Entry)
        requires
            self.wf(),
            i < self.ordered().len(),
        ensures
            r@ == self.ordered()[i as int],
    {
        self.snapshot.store.entry_at(i)
    }

    /// The number of entries.
    pub fn entry_count(&self) -> (r: usize)
        requires
            self.wf(),
        ensures
            r == self.ordered().len(),
    {
        self.snapshot.store.len()
    }

    /// The depth-first order lists exactly the entries.
    pub proof fn lemma_ordered(&self)
        requires
            self.wf(),
        ensures
            crate::store::sorted_by_path(self.ordered()),
            forall|i: int|
                0 <= i < self.ordered().len() ==> self.entry_map().contains_key(#[trigger] self.ordered()[i].path)
                    && self.entry_map()[self.ordered()[i].path] == self.ordered()[i],
            forall|p: Seq<Seq<u8>>| #[trigger]
                self.entry_map().contains_key(p) ==> exists|i: int|
                    0 <= i < self.ordered().len() && self.ordered()[i].path == p,
    {
        self.snapshot.store.lemma_wf();
    }

    /// A copy of the current entries under the current scan id. Taken right
    /// after `complete_scan`, it is the state of a whole cycle, which the
    /// next cycle's update carries forward.
    pub fn snapshot(&self) -> (r: Snapshot)
        requires
            self.wf(),
        ensures
            r.wf(),
            r.scan_id == self.scan_id(),
            r.entries() == self.entry_map(),
            r.store@ == self.ordered(),
    {
        self.snapshot.copy()
    }

    /// Ends a scan cycle: the scan id goes up by one and the update from
    /// `previous` to the new state is returned.
    pub fn complete_scan(&mut self, previous: &Snapshot) -> (r: Result<crate::snapshot::Update, WorktreeError>)
        requires
            old(self).wf(),
            previous.wf(),
        ensures
            final(self).next_id() == old(self).next_id(),
            final(self).wf(),
            final(self).entry_map() == old(self).entry_map(),
            final(self).exclusions() == old(self).exclusions(),
            final(self).inclusions() == old(self).inclusions(),
            final(self).private_files() == old(self).private_files(),
            old(self).scan_id() == u64::MAX ==> r == Err::<crate::snapshot::Update, WorktreeError>(
                WorktreeError::ScanIdsExhausted,
            ) && final(self).scan_id() == old(self).scan_id(),
            old(self).scan_id() < u64::MAX ==> r is Ok && final(self).scan_id() == old(self).scan_id() + 1
                && r->Ok_0.scan_id == final(self).scan_id() && r->Ok_0.base_scan_id == previous.scan_id
                && crate::snapshot::apply_changes(
                previous.entries(),
                r->Ok_0.removed_view(),
                r->Ok_0.updated_view(),
            ) == final(self).entry_map(),
    {
        if self.snapshot.scan_id == u64::MAX {
            return Err(WorktreeError::ScanIdsExhausted);
        }
        self.snapshot.scan_id = self.snapshot.scan_id + 1;
        let u = Snapshot::build_update(previous, &self.snapshot);
        Ok(u)
    }

    /// Whether an event at `path` calls for reading a directory: only a
    /// directory whose contents are kept is read again.
    pub fn needs_read(&self, path: &RelPath) -> (r: bool)
        requires
            self.wf(),
        ensures
            r == (self.entry_map().contains_key(path@) && (self.entry_map()[path@].kind == EntryKind::Dir
                || self.entry_map()[path@].kind == EntryKind::PendingDir)),
    {
        match self.snapshot.store.get(path) {
            Some(e) => e.kind == EntryKind::Dir || e.kind == EntryKind::PendingDir,
            None => false,
        }
    }

    /// Applies an event saying that `path` is gone: it and everything below
    /// it are taken out. The root cannot go.
    pub fn remove_path(&mut self, path: &RelPath) -> (r: Result<usize, WorktreeError>)
        requires
            old(self).wf(),
        ensures
            final(self).next_id() == old(self).next_id(),
            final(self).wf(),
            final(self).exclusions() == old(self).exclusions(),
            final(self).inclusions() == old(self).inclusions(),
            final(self).private_files() == old(self).private_files(),
            final(self).scan_id() == old(self).scan_id(),
            path@.len() == 0 ==> r == Err::<usize, WorktreeError>(WorktreeError::IsRoot) && final(self).entry_map()
                == old(self).entry_map(),
            path@.len() > 0 ==> r is Ok && final(self).entry_map() == without_subtree(old(self).entry_map(), path@),
    {
        if path.is_root() {
            return Err(WorktreeError::IsRoot);
        }
        Ok(self.remove_below(path))
    }

    /// The path of the entry with this id, if any.
    pub fn path_for_id(&self, id: u64) -> (r: Option<RelPath>)
        requires
            self.wf(),
        ensures
            r.is_some() ==> self.entry_map().contains_key(r.unwrap()@) && self.entry_map()[r.unwrap()@].id == id,
            r.is_none() ==> id_unused(self.entry_map(), id),
    {
        proof {
            self.snapshot.store.lemma_wf();
        }
        let n = self.snapshot.store.len();
        let mut i: usize = 0;
        while i < n
            invariant
                self.wf(),
                n == self.ordered().len(),
                i <= n,
                forall|j: int| 0 <= j < i ==> (#[trigger] self.ordered()[j]).id != id,
            decreases n - i,
        {
            let e = self.snapshot.store.entry_at(i);
            if e.id == id {
                proof {
                    self.snapshot.store.lemma_wf();
                    assert(self.entry_map().contains_key(self.ordered()[i as int].path));
                }
                return Some(e.path.copy());
            }
            i = i + 1;
        }
        proof {
            self.snapshot.store.lemma_wf();
            assert forall|p: Seq<Seq<u8>>| #[trigger] self.entry_map().contains_key(p) implies self.entry_map()[p].id
                != id by {
                let j = choose|j: int| 0 <= j < self.ordered().len() && self.ordered()[j].path == p;
                assert(self.entry_map().contains_key(self.ordered()[j].path));
            }
        }
        None
    }

    /// Deletes the entry with this id and everything below it.
    pub fn delete_entry(&mut self, id: u64) -> (r: Result<(), WorktreeError>)
        requires
            old(self).wf(),
        ensures
            final(self).next_id() == old(self).next_id(),
            final(self).wf(),
            final(self).exclusions() == old(self).exclusions(),
            final(self).inclusions() == old(self).inclusions(),
            final(self).private_files() == old(self).private_files(),
            final(self).scan_id() == old(self).scan_id(),
            id_unused(old(self).entry_map(), id) ==> r == Err::<(), WorktreeError>(WorktreeError::NotFound)
                && final(self).entry_map() == old(self).entry_map(),
            !id_unused(old(self).entry_map(), id) ==> exists|p: Seq<Seq<u8>>|
                #[trigger] old(self).entry_map().contains_key(p) && old(self).entry_map()[p].id == id && (if p.len() == 0 {
                    r == Err::<(), WorktreeError>(WorktreeError::IsRoot) && final(self).entry_map() == old(self).entry_map()
                } else {
                    r is Ok && final(self).entry_map() == without_subtree(old(self).entry_map(), p)
                }),
    {
        match self.path_for_id(id) {
            None => Err(WorktreeError::NotFound),
            Some(p) => {
                proof {
                    assert(old(self).entry_map().contains_key(p@));
                }
                if p.is_root() {
                    return Err(WorktreeError::IsRoot);
                }
                self.remove_below(&p);
                Ok(())
            },
        }
    }

    /// Creates an entry at `path`, and each missing ancestor as an empty read
    /// directory. Returns the new entry's id, or `None` where `path` or an
    /// ancestor to create is excluded.
    pub fn create_entry(
        &mut self,
        path: &RelPath,
        is_dir: bool,
        inode: u64,
        mtime: u64,
        ignores: &IgnoreStack,
    ) -> (r: Result<Option<u64>, WorktreeError>)
        requires
            old(self).wf(),
        ensures
            final(self).wf(),
            final(self).exclusions() == old(self).exclusions(),
            final(self).inclusions() == old(self).inclusions(),
            final(self).private_files() == old(self).private_files(),
            final(self).scan_id() == old(self).scan_id(),
            grown_along(old(self).entry_map(), final(self).entry_map(), path@),
            old(self).entry_map().contains_key(path@) ==> r == Err::<Option<u64>, WorktreeError>(
                WorktreeError::AlreadyExists,
            ) && final(self).entry_map() == old(self).entry_map(),
            r matches Ok(Some(id)) ==> final(self).entry_map().contains_key(path@) && final(self).entry_map()[path@].id
                == id && final(self).entry_map()[path@].kind == (if is_dir {
                EntryKind::Dir
            } else {
                EntryKind::File
            }) && id_unused(old(self).entry_map(), id),
            r matches Ok(None) ==> exists|q: Seq<Seq<u8>>|
                is_prefix(q, path@) && q.len() > 0 && set_matches(old(self).exclusions(), q),
            !old(self).entry_map().contains_key(path@) && path@.len() > 0 && old(self).entry_map().contains_key(
                parent_of(path@),
            ) && old(self).entry_map()[parent_of(path@)].kind == EntryKind::Dir && !set_matches(
                old(self).exclusions(),
                path@,
            ) && old(self).next_id() < u64::MAX ==> r is Ok && r->Ok_0 is Some,
            r == Err::<Option<u64>, WorktreeError>(WorktreeError::IdsExhausted) ==> old(self).next_id() + path@.len()
                > u64::MAX,
            final(self).next_id() >= old(self).next_id(),
            r matches Ok(Some(id)) ==> id >= old(self).next_id(),
            forall|q: Seq<Seq<u8>>|
                #[trigger] final(self).entry_map().contains_key(q) && !old(self).entry_map().contains_key(q)
                    ==> final(self).entry_map()[q].id >= old(self).next_id(),
    {
        let ghost m0 = self.entry_map();
        proof {
            assert(self.entry_map() == m0);
        }
        if self.snapshot.store.get(path).is_some() {
            return Err(WorktreeError::AlreadyExists);
        }
        let n = path.depth();
        let mut k: usize = 0;
        let mut parent_ignored: bool = false;
        while k < n
            invariant
                self.wf(),
                self.exclusions() == old(self).exclusions(),
                self.inclusions() == old(self).inclusions(),
                self.private_files() == old(self).private_files(),
                self.scan_id() == old(self).scan_id(),
                m0 == old(self).entry_map(),
                parent_closed(m0),
                !m0.contains_key(path@),
                n == path@.len(),
                k <= n,
                grown_along(m0, self.entry_map(), path@),
                !self.entry_map().contains_key(path@),
                k > 0 ==> self.entry_map().contains_key(path@.subrange(0, k - 1))
                    && self.entry_map()[path@.subrange(0, k - 1)].kind == EntryKind::Dir
                    && self.entry_map()[path@.subrange(0, k - 1)].is_ignored == parent_ignored,
                k == 0 ==> self.entry_map() == m0,
                k > 0 && m0.contains_key(parent_of(path@)) ==> forall|q: Seq<Seq<u8>>|
                    #[trigger] self.entry_map().contains_key(q) ==> m0.contains_key(q),
                old(self).next_id() <= self.next_id(),
                k == 0 ==> self.next_id() == old(self).next_id(),
                k > 0 ==> self.next_id() < old(self).next_id() + k,
                m0.contains_key(parent_of(path@)) ==> self.next_id() == old(self).next_id(),
                forall|q: Seq<Seq<u8>>|
                    #[trigger] self.entry_map().contains_key(q) && !m0.contains_key(q) ==> self.entry_map()[q].id
                        >= old(self).next_id(),
            decreases n - k,
        {
            let a = path.prefix(k);
            proof {
                assert(a@ =~= path@.subrange(0, k as int));
            }
            let found: Option<Entry> = match self.snapshot.store.get(&a) {
                Some(e) => Some(e.copy()),
                None => None,
            };
            match found {
                Some(e) => {
                    proof {
                        if m0.contains_key(parent_of(path@)) && m0[parent_of(path@)].kind == EntryKind::Dir {
                            lemma_prefix_of_parent(path@, k as int);
                            lemma_ancestors_present(m0, parent_of(path@), a@);
                            assert(self.entry_map()[a@] == m0[a@]);
                            if k + 1 < n {
                                let b = path@.subrange(0, k + 1);
                                lemma_ancestors_present(m0, parent_of(path@), b);
                                assert(m0.contains_key(b));
                                assert(b.len() > 0);
                            }
                            assert(e.kind == EntryKind::Dir);
                        }
                    }
                    if e.kind == EntryKind::File {
                        return Err(WorktreeError::NotADirectory);
                    }
                    if e.kind != EntryKind::Dir {
                        return Err(WorktreeError::NotLoaded);
                    }
                    parent_ignored = e.is_ignored;
                },
                None => {
                    proof {
                        assert(k > 0) by {
                            if k == 0 {
                                assert(a@ =~= Seq::<Seq<u8>>::empty());
                            }
                        }
                        if m0.contains_key(parent_of(path@)) {
                            lemma_prefix_of_parent(path@, k as int);
                            lemma_ancestors_present(m0, parent_of(path@), a@);
                            assert(self.entry_map().contains_key(a@));
                        }
                    }
                    if self.settings.exclusions.is_match(&a) {
                        proof {
                            assert(path@.subrange(0, a@.len() as int) =~= a@);
                            assert(is_prefix(a@, path@) && a@.len() > 0 && set_matches(old(self).exclusions(), a@));
                        }
                        return Ok(None);
                    }
                    let gi = ignores.is_ignored(&a, true);
                    let always = self.settings.inclusions.is_match(&a);
                    let id = match self.take_id() {
                        Ok(id) => id,
                        Err(err) => {
                            return Err(err);
                        },
                    };
                    let ghost before = self.entry_map();
                    let ghost av = a@;
                    proof {
                        assert(parent_of(av) =~= path@.subrange(0, k - 1));
                    }
                    self.add_entry(a, EntryKind::Dir, id, (0, mtime, 0), false, false, parent_ignored || gi);
                    proof {
                        assert(path@.subrange(0, av.len() as int) =~= av);
                        assert(av != path@) by {
                            assert(av.len() != path@.len());
                        }
                    }
                    parent_ignored = (parent_ignored || gi) && !always;
                },
            }
            k = k + 1;
        }
        proof {
            assert(path@.subrange(0, k as int) =~= path@);
        }
        if n == 0 {
            return Err(WorktreeError::AlreadyExists);
        }
        proof {
            assert(parent_of(path@) =~= path@.subrange(0, n - 1));
        }
        if self.settings.exclusions.is_match(path) {
            proof {
                assert(path@.subrange(0, path@.len() as int) =~= path@);
                assert(is_prefix(path@, path@) && path@.len() > 0 && set_matches(old(self).exclusions(), path@));
            }
            return Ok(None);
        }
        let gi = ignores.is_ignored(path, is_dir);
        let id = match self.take_id() {
            Ok(id) => id,
            Err(err) => {
                return Err(err);
            },
        };
        let kind = if is_dir {
            EntryKind::Dir
        } else {
            EntryKind::File
        };
        proof {
            assert(path@.subrange(0, path@.len() as int) =~= path@);
        }
        self.add_entry(path.copy(), kind, id, (inode, mtime, 0), false, false, parent_ignored || gi);
        Ok(Some(id))
    }

    #[verifier::rlimit(100)]
    /// Moves the entry with this id, and everything below it, to `new_path`;
    /// every moved entry keeps its id. The destination must be free, outside
    /// the source, not excluded, and under a read directory. A moved entry
    /// below the destination that would be excluded is left out, with what
    /// lies below it.
    pub fn rename_entry(&mut self, id: u64, new_path: &RelPath) -> (r: Result<(), WorktreeError>)
        requires
            old(self).wf(),
        ensures
            final(self).wf(),
            final(self).exclusions() == old(self).exclusions(),
            final(self).inclusions() == old(self).inclusions(),
            final(self).private_files() == old(self).private_files(),
            final(self).scan_id() == old(self).scan_id(),
            r is Err ==> final(self).entry_map() == old(self).entry_map(),
            id_unused(old(self).entry_map(), id) ==> r == Err::<(), WorktreeError>(WorktreeError::NotFound),
            forall|from: Seq<Seq<u8>>|
                #[trigger] old(self).entry_map().contains_key(from) && old(self).entry_map()[from].id == id
                    ==> rename_outcome(old(self).entry_map(), old(self).exclusions(), from, new_path@, r),
            final(self).next_id() == old(self).next_id(),
            r is Ok ==> exists|from: Seq<Seq<u8>>|
                #[trigger] old(self).entry_map().contains_key(from) && old(self).entry_map()[from].id == id && from.len()
                    > 0 && !is_prefix(from, new_path@) && renamed_keeping_id(
                    old(self).entry_map(),
                    final(self).entry_map(),
                    from,
                    new_path@,
                ) && final(self).entry_map()[new_path@].kind == old(self).entry_map()[from].kind
                    && !final(self).entry_map().contains_key(from) && (forall|t: Seq<Seq<u8>>|
                    #[trigger] old(self).entry_map().contains_key(from + t) && moves_along(
                        old(self).exclusions(),
                        new_path@,
                        t,
                    ) ==> final(self).entry_map().contains_key(new_path@ + t) && final(self).entry_map()[new_path@
                        + t].id == old(self).entry_map()[from + t].id && final(self).entry_map()[new_path@ + t].kind
                        == old(self).entry_map()[from + t].kind) && (forall|q: Seq<Seq<u8>>|
                    !is_prefix(from, q) && !is_prefix(new_path@, q) ==> (#[trigger] final(self).entry_map().contains_key(q)
                        == old(self).entry_map().contains_key(q)) && (final(self).entry_map().contains_key(q)
                        ==> final(self).entry_map()[q] == old(self).entry_map()[q])),
    {
        let ghost m0 = self.entry_map();
        let from = match self.path_for_id(id) {
            None => {
                return Err(WorktreeError::NotFound);
            },
            Some(p) => p,
        };
        proof {
            assert forall|f: Seq<Seq<u8>>| #[trigger] m0.contains_key(f) && m0[f].id == id implies f == from@ by {
                assert(m0.contains_key(from@));
            }
        }
        if from.is_root() {
            return Err(WorktreeError::IsRoot);
        }
        if new_path.starts_with(&from) {
            return Err(WorktreeError::IntoItself);
        }
        if self.snapshot.store.get(new_path).is_some() {
            return Err(WorktreeError::AlreadyExists);
        }
        proof {
            assert(new_path@.len() > 0) by {
                if new_path@.len() == 0 {
                    assert(new_path@ =~= Seq::<Seq<u8>>::empty());
                }
            }
        }
        let parent = new_path.parent();
        match self.snapshot.store.get(&parent) {
            None => {
                return Err(WorktreeError::NotFound);
            },
            Some(pe) => {
                if pe.kind == EntryKind::File {
                    return Err(WorktreeError::NotADirectory);
                }
                if pe.kind != EntryKind::Dir {
                    return Err(WorktreeError::NotLoaded);
                }
            },
        }
        if self.settings.exclusions.is_match(new_path) {
            return Err(WorktreeError::Excluded);
        }
        let top = match self.snapshot.store.get(&from) {
            Some(e) => e.copy(),
            None => {
                return Err(WorktreeError::NotFound);
            },
        };
        let moved = self.snapshot.store.subtree_entries(&from);
        proof {
            assert(!is_prefix(from@, parent_of(new_path@))) by {
                if is_prefix(from@, parent_of(new_path@)) {
                    assert(new_path@.subrange(0, from@.len() as int) =~= parent_of(new_path@).subrange(
                        0,
                        from@.len() as int,
                    ));
                }
            }
            crate::path::lemma_path_order();
        }
        self.remove_below(&from);
        let ghost m1 = self.entry_map();
        let ghost top_id = top.id;
        proof {
            assert(from@.subrange(0, from@.len() as int) =~= from@);
            assert(top@ == m0[from@]);
            assert forall|q: Seq<Seq<u8>>| #[trigger] m1.contains_key(q) implies m1[q].id != top.id by {
                assert(m0.contains_key(q) && q != from@);
            }
        }
        self.add_entry(
            new_path.copy(),
            top.kind,
            top.id,
            (top.inode, top.mtime, top.size),
            top.is_symlink,
            top.is_external,
            top.is_ignored,
        );
        let ghost v0 = self.entry_map()[new_path@];
        let ghost mv = entry_views(moved@);
        let ghost f = from@.len() as int;
        proof {
            assert(new_path@.subrange(0, new_path@.len() as int) =~= new_path@);
        }
        let mut k: usize = 0;
        while k < moved.len()
            invariant
                self.wf(),
                self.exclusions() == old(self).exclusions(),
                self.inclusions() == old(self).inclusions(),
                self.private_files() == old(self).private_files(),
                self.scan_id() == old(self).scan_id(),
                self.next_id() == old(self).next_id(),
                tree_invariants(m0, old(self).exclusions(), old(self).next_id()),
                mv == entry_views(moved@),
                k <= mv.len(),
                m0.contains_key(from@),
                m0[from@].id == top_id,
                from@.len() > 0,
                new_path@.len() > 0,
                !is_prefix(from@, new_path@),
                !m0.contains_key(new_path@),
                crate::store::sorted_by_path(mv),
                forall|j: int|
                    0 <= j < mv.len() ==> is_prefix(from@, #[trigger] mv[j].path) && m0.contains_key(mv[j].path)
                        && m0[mv[j].path] == mv[j],
                forall|q: Seq<Seq<u8>>| #[trigger]
                    m1.contains_key(q) <==> m0.contains_key(q) && !is_prefix(from@, q),
                forall|q: Seq<Seq<u8>>| #[trigger] m1.contains_key(q) ==> m1[q] == m0[q],
                self.entry_map().contains_key(new_path@),
                self.entry_map()[new_path@] == v0,
                v0.id == top_id,
                v0.kind == m0[from@].kind,
                f == from@.len(),
                forall|q: Seq<Seq<u8>>| #[trigger] m0.contains_key(q) && is_prefix(from@, q) ==> exists|j: int|
                    0 <= j < mv.len() && mv[j].path == q,
                forall|j: int|
                    0 <= j < k && moves_along(old(self).exclusions(), new_path@, (#[trigger] mv[j]).path.skip(f))
                        ==> self.entry_map().contains_key(moved_to(new_path@, f, mv[j].path)) && self.entry_map()[moved_to(
                        new_path@,
                        f,
                        mv[j].path,
                    )].id == mv[j].id && self.entry_map()[moved_to(new_path@, f, mv[j].path)].kind == mv[j].kind,
                forall|q: Seq<Seq<u8>>| #[trigger]
                    m1.contains_key(q) ==> self.entry_map().contains_key(q) && self.entry_map()[q] == m1[q],
                forall|q: Seq<Seq<u8>>|
                    #[trigger] self.entry_map().contains_key(q) ==> m1.contains_key(q) || is_prefix(new_path@, q),
                forall|q: Seq<Seq<u8>>|
                    #[trigger] self.entry_map().contains_key(q) && !m1.contains_key(q) && q != new_path@ ==> exists|
                        j: int,
                    | 0 <= j < k && self.entry_map()[q].id == (#[trigger] mv[j]).id && mv[j].path != from@ && q
                        == moved_to(new_path@, f, mv[j].path),
            decreases mv.len() - k,
        {
            let e = &moved[k];
            assert(e@ == mv[k as int]);
            assert(is_prefix(from@, mv[k as int].path));
            let rest = e.path.suffix(from.depth());
            let np = new_path.append(&rest);
            let par = np.parent();
            let parent_ok = match self.snapshot.store.get(&par) {
                Some(pe) => pe.kind == EntryKind::Dir,
                None => false,
            };
            let ok = parent_ok && !self.settings.exclusions.is_match(&np) && self.snapshot.store.get(&np).is_none();
            proof {
                assert(np@ =~= moved_to(new_path@, f, mv[k as int].path));
                if mv[k as int].path.len() == f {
                    assert(mv[k as int].path =~= from@) by {
                        assert(mv[k as int].path.subrange(0, f) == from@);
                    }
                }
                if moves_along(old(self).exclusions(), new_path@, mv[k as int].path.skip(f)) && mv[k as int].path.len() > f {
                    let cur = self.entry_map();
                    assert forall|q: Seq<Seq<u8>>|
                        #[trigger] cur.contains_key(q) && !m1.contains_key(q) && q != new_path@ implies exists|j: int|
                            0 <= j < k && q == moved_to(new_path@, f, (#[trigger] mv[j]).path) by {
                        let j = choose|j: int|
                            0 <= j < k && cur[q].id == (#[trigger] mv[j]).id && mv[j].path != from@ && q == moved_to(
                                new_path@,
                                f,
                                mv[j].path,
                            );
                    }
                    assert forall|q: Seq<Seq<u8>>| #[trigger] m1.contains_key(q) implies m0.contains_key(q) by {
                        assert(m0.contains_key(q) && !is_prefix(from@, q));
                    }
                    lemma_move_parent(cur, m0, mv, k as int, from@, new_path@, old(self).exclusions());
                    lemma_move_free(cur, m0, m1, mv, k as int, from@, new_path@);
                    let t = mv[k as int].path.skip(f);
                    assert(t.subrange(0, t.len() as int) =~= t);
                    assert(!set_matches(old(self).exclusions(), new_path@ + t.subrange(0, t.len() as int)));
                    assert(ok);
                }
            }
            if ok {
                let ghost before = self.entry_map();
                proof {
                    if e@.path == from@ {
                        assert(rest@ =~= Seq::<Seq<u8>>::empty());
                        assert(np@ =~= new_path@);
                    }
                    assert(e@.path != from@);
                    crate::path::lemma_path_order();
                    assert forall|q: Seq<Seq<u8>>| #[trigger] before.contains_key(q) implies before[q].id != e.id by {
                        if m1.contains_key(q) {
                            assert(m0.contains_key(q) && !is_prefix(from@, q));
                            assert(q != e@.path);
                        } else if q == new_path@ {
                            assert(m0.contains_key(from@));
                        } else {
                            let j = choose|j: int|
                                0 <= j < k && before[q].id == (#[trigger] mv[j]).id && mv[j].path != from@;
                            assert(crate::path::path_lt(mv[j].path, mv[k as int].path));
                            assert(mv[j].path != mv[k as int].path);
                            assert(m0.contains_key(mv[j].path) && m0.contains_key(mv[k as int].path));
                        }
                    }
                    assert(np@.len() > 0);
                    assert(is_prefix(new_path@, np@)) by {
                        assert(np@.subrange(0, new_path@.len() as int) =~= new_path@);
                    }
                }
                self.add_entry(np, e.kind, e.id, (e.inode, e.mtime, e.size), e.is_symlink, e.is_external, e.is_ignored);
                proof {
                    let now = self.entry_map();
                    assert forall|q: Seq<Seq<u8>>|
                        #[trigger] now.contains_key(q) && !m1.contains_key(q) && q != new_path@ implies exists|j: int|
                        0 <= j < k + 1 && now[q].id == (#[trigger] mv[j]).id && mv[j].path != from@ && q == moved_to(
                            new_path@,
                            f,
                            mv[j].path,
                        ) by {
                        if before.contains_key(q) {
                            let j = choose|j: int|
                                0 <= j < k && before[q].id == (#[trigger] mv[j]).id && mv[j].path != from@ && q
                                    == moved_to(new_path@, f, mv[j].path);
                            assert(now[q].id == mv[j].id);
                        } else {
                            assert(now[q].id == mv[k as int].id);
                        }
                    }
                }
            }
            proof {
                let cur = self.entry_map();
                assert forall|j: int|
                    0 <= j < k + 1 && moves_along(old(self).exclusions(), new_path@, (#[trigger] mv[j]).path.skip(f))
                        implies cur.contains_key(moved_to(new_path@, f, mv[j].path)) && cur[moved_to(
                        new_path@,
                        f,
                        mv[j].path,
                    )].id == mv[j].id && cur[moved_to(new_path@, f, mv[j].path)].kind == mv[j].kind by {
                    if j == k && mv[j].path.len() == f {
                        assert(mv[j].path.skip(f) =~= Seq::<Seq<u8>>::empty());
                        assert(moved_to(new_path@, f, mv[j].path) =~= new_path@);
                    }
                }
            }
            k = k + 1;
        }
        proof {
            let fin = self.entry_map();
            assert forall|t: Seq<Seq<u8>>|
                #[trigger] m0.contains_key(from@ + t) && moves_along(old(self).exclusions(), new_path@, t) implies fin.contains_key(
                new_path@ + t,
            ) && fin[new_path@ + t].id == m0[from@ + t].id && fin[new_path@ + t].kind == m0[from@ + t].kind by {
                assert(is_prefix(from@, from@ + t)) by {
                    assert((from@ + t).subrange(0, f) =~= from@);
                }
                let j = choose|j: int| 0 <= j < mv.len() && mv[j].path == from@ + t;
                assert(mv[j].path.skip(f) =~= t);
                assert(moved_to(new_path@, f, mv[j].path) == new_path@ + t);
            }
            assert(!fin.contains_key(from@)) by {
                if fin.contains_key(from@) {
                    assert(!m1.contains_key(from@)) by {
                        assert(from@.subrange(0, from@.len() as int) =~= from@);
                    }
                    assert(is_prefix(new_path@, from@));
                    lemma_nothing_below_missing(m0, new_path@, from@);
                }
            }
            assert forall|q: Seq<Seq<u8>>| !is_prefix(from@, q) && !is_prefix(new_path@, q) implies (
            #[trigger] fin.contains_key(q) == m0.contains_key(q)) && (fin.contains_key(q) ==> fin[q] == m0[q]) by {
                if m0.contains_key(q) {
                    assert(m1.contains_key(q));
                }
            }
            assert(m0.contains_key(from@) && m0[from@].id == id);
        }
        Ok(())
    }

    /// Whether the directory at `path` is one of its own ancestors reached
    /// again through a symlink: some ancestor has the same inode. Such a
    /// directory is not read, so that a walk through symlink cycles ends.
    pub fn repeats_ancestor(&self, path: &RelPath) -> (r: bool)
        requires
            self.wf(),
        ensures
            r == (self.entry_map().contains_key(path@) && exists|k: int|
                0 <= k < path@.len() && self.entry_map().contains_key(#[trigger] path@.subrange(0, k))
                    && self.entry_map()[path@.subrange(0, k)].inode == self.entry_map()[path@].inode),
    {
        let inode = match self.snapshot.store.get(path) {
            Some(e) => e.inode,
            None => {
                return false;
            },
        };
        let mut k: usize = 0;
        while k < path.depth()
            invariant
                self.wf(),
                k <= path@.len(),
                self.entry_map().contains_key(path@),
                inode == self.entry_map()[path@].inode,
                forall|j: int|
                    0 <= j < k ==> !(self.entry_map().contains_key(#[trigger] path@.subrange(0, j))
                        && self.entry_map()[path@.subrange(0, j)].inode == inode),
            decreases path@.len() - k,
        {
            let a = path.prefix(k);
            match self.snapshot.store.get(&a) {
                Some(e) => {
                    if e.inode == inode {
                        return true;
                    }
                },
                None => {},
            }
            k = k + 1;
        }
        false
    }

    /// The next directory to read so that the entry at `path` comes into
    /// the tree: the shortest ancestor of `path`, or `path` itself, that is a
    /// directory not yet read, provided every shorter one is read. Reading
    /// it and asking again reads the ancestors of `path` one by one, and
    /// nothing beside them.
    pub fn next_dir_to_load(&self, path: &RelPath) -> (r: Option<RelPath>)
        requires
            self.wf(),
        ensures
            r is Some ==> is_prefix(r->Some_0@, path@) && unread_dir(self.entry_map(), r->Some_0@) && forall|k: int|
                0 <= k < r->Some_0@.len() ==> #[trigger] read_dir(self.entry_map(), path@.subrange(0, k)),
            r is None ==> forall|k: int|
                0 <= k <= path@.len() ==> !#[trigger] unread_dir(self.entry_map(), path@.subrange(0, k)),
    {
        let ghost m = self.entry_map();
        proof {
            assert(parent_closed(m));
        }
        let mut k: usize = 0;
        loop
            invariant
                self.snapshot.store.wf(),
                m == self.entry_map(),
                parent_closed(m),
                k <= path@.len(),
                forall|j: int| 0 <= j < k ==> #[trigger] read_dir(m, path@.subrange(0, j)),
            decreases path@.len() - k,
        {
            let a = path.prefix(k);
            proof {
                assert(path@.subrange(0, a@.len() as int) =~= a@);
            }
            let read = match self.snapshot.store.get(&a) {
                Some(e) => {
                    if e.kind != EntryKind::Dir {
                        if e.is_dir() {
                            proof {
                                assert(is_prefix(a@, path@));
                                assert(unread_dir(m, a@));
                            }
                            return Some(a);
                        }
                        false
                    } else {
                        true
                    }
                },
                None => false,
            };
            if !read {
                proof {
                    lemma_none_unread_past(m, path@, k as int);
                }
                return None;
            }
            if k == path.depth() {
                proof {
                    assert forall|j: int| 0 <= j <= path@.len() implies !#[trigger] unread_dir(
                        m,
                        path@.subrange(0, j),
                    ) by {
                        assert(read_dir(m, path@.subrange(0, j)));
                    }
                }
                return None;
            }
            k = k + 1;
        }
    }

    /// Applies a change of the gitignore rules of `dir`: every entry strictly
    /// below it, parents first, gets its ignored flag from its parent's and
    /// the rules, without any read. Returns, in path order and each once, the
    /// unread directories that are no longer ignored: these are to be read.
    /// Directories newly ignored are marked so and not read.
    #[verifier::rlimit(100)]
    #[verifier::spinoff_prover]
    pub fn apply_rules_change(&mut self, dir: &RelPath, ignores: &IgnoreStack) -> (r: Vec<RelPath>)
        requires
            old(self).wf(),
        ensures
            final(self).wf(),
            final(self).exclusions() == old(self).exclusions(),
            final(self).inclusions() == old(self).inclusions(),
            final(self).private_files() == old(self).private_files(),
            final(self).next_id() == old(self).next_id(),
            final(self).scan_id() == old(self).scan_id(),
            rules_applied(old(self).entry_map(), final(self).entry_map(), dir@, ignores@, old(self).inclusions()),
            lists_pending_below(final(self).entry_map(), dir@, r@),
    {
        let ghost m0 = self.entry_map();
        let ghost incl = self.inclusions();
        proof {
            self.snapshot.store.lemma_wf();
            crate::path::lemma_path_order();
        }
        let all = self.snapshot.store.subtree_entries(dir);
        let ghost av = entry_views(all@);
        let mut k: usize = 0;
        while k < all.len()
            invariant
                self.wf(),
                self.exclusions() == old(self).exclusions(),
                self.inclusions() == old(self).inclusions(),
                self.private_files() == old(self).private_files(),
                self.next_id() == old(self).next_id(),
                self.scan_id() == old(self).scan_id(),
                m0 == old(self).entry_map(),
                incl == old(self).inclusions(),
                av == entry_views(all@),
                k <= av.len(),
                tree_invariants(m0, old(self).exclusions(), old(self).next_id()),
                flags_follow(m0, incl, old(self).private_files()),
                crate::store::sorted_by_path(av),
                forall|j: int| 0 <= j < av.len() ==> is_prefix(dir@, #[trigger] av[j].path) && m0.contains_key(av[j].path)
                    && m0[av[j].path] == av[j],
                forall|q: Seq<Seq<u8>>| #[trigger] m0.contains_key(q) && is_prefix(dir@, q) ==> exists|j: int|
                    0 <= j < av.len() && av[j].path == q,
                self.entry_map().dom() == m0.dom(),
                forall|q: Seq<Seq<u8>>|
                    #[trigger] self.entry_map().contains_key(q) && !strictly_below(dir@, q) ==> self.entry_map()[q] == m0[q],
                forall|j: int|
                    k <= j < av.len() ==> self.entry_map()[(#[trigger] av[j]).path] == m0[av[j].path],
                forall|j: int|
                    0 <= j < k && strictly_below(dir@, (#[trigger] av[j]).path) ==> self.entry_map()[av[j].path] == reflagged(
                        m0[av[j].path],
                        ignored_under(
                            self.entry_map()[parent_of(av[j].path)].is_ignored,
                            ignores@,
                            incl,
                            av[j].path,
                            m0[av[j].path].kind.spec_is_dir(),
                        ),
                        set_may_match_below(incl, av[j].path),
                    ),
            decreases av.len() - k,
        {
            let ghost before = self.entry_map();
            assert(all@[k as int]@ == av[k as int]);
            let e = all[k].copy();
            proof {
                crate::path::lemma_path_order();
            }
            if e.path.depth() > dir.depth() {
                let ghost p = e@.path;
                assert(strictly_below(dir@, p));
                let parent = e.path.parent();
                let parent_ignored = match self.snapshot.store.get(&parent) {
                    Some(pe) => pe.is_ignored,
                    None => false,
                };
                proof {
                    assert(m0.contains_key(parent_of(p)));
                    assert(before.contains_key(parent_of(p)));
                }
                let is_dir = e.is_dir();
                let name_is_git = match e.path.file_name() {
                    Some(name) => is_dot_git(&name),
                    None => false,
                };
                let ig = !e.is_always_included && (parent_ignored || ignores.is_ignored(&e.path, is_dir)
                    || name_is_git);
                let include_below = self.settings.inclusions.may_match_below(&e.path);
                let pending = e.kind == EntryKind::UnloadedDir && (!ig || include_below) && !e.is_external;
                let mut ne = e;
                ne.is_ignored = ig;
                if pending {
                    ne.kind = EntryKind::PendingDir;
                }
                let ghost nev = ne@;
                proof {
                    assert(m0[p] == av[k as int]);
                    assert(nev == reflagged(
                        m0[p],
                        ignored_under(before[parent_of(p)].is_ignored, ignores@, incl, p, m0[p].kind.spec_is_dir()),
                        set_may_match_below(incl, p),
                    ));
                }
                self.replace_entry(ne);
                proof {
                    let now = self.entry_map();
                    assert(now == before.insert(p, nev));
                    assert(now.dom() =~= m0.dom());
                    // The parent of p sorts before p, so it is not touched later.
                    assert(is_prefix(parent_of(p), p)) by {
                        assert(p.subrange(0, p.len() - 1) =~= parent_of(p));
                    }
                    crate::path::lemma_prefix_sorts_first(parent_of(p), p);
                    assert forall|j: int|
                        0 <= j < k + 1 && strictly_below(dir@, (#[trigger] av[j]).path) implies now[av[j].path] == reflagged(
                            m0[av[j].path],
                            ignored_under(now[parent_of(av[j].path)].is_ignored, ignores@, incl, av[j].path, m0[av[j].path].kind.spec_is_dir()),
                            set_may_match_below(incl, av[j].path),
                        ) by {
                        let q = av[j].path;
                        assert(is_prefix(parent_of(q), q)) by {
                            assert(q.subrange(0, q.len() - 1) =~= parent_of(q));
                        }
                        crate::path::lemma_prefix_sorts_first(parent_of(q), q);
                        if j < k {
                            assert(crate::path::path_lt(q, p));
                            assert(q != p);
                            assert(parent_of(q) != p);
                        }
                    }
                    assert forall|j: int| k + 1 <= j < av.len() implies now[(#[trigger] av[j]).path] == m0[av[j].path] by {
                        assert(crate::path::path_lt(p, av[j].path));
                    }
                    assert forall|q: Seq<Seq<u8>>|
                        #[trigger] now.contains_key(q) && !strictly_below(dir@, q) implies now[q] == m0[q] by {
                        assert(q != p);
                    }
                }
            } else {
                proof {
                    assert(av[k as int].path =~= dir@) by {
                        assert(av[k as int].path.subrange(0, dir@.len() as int) == dir@);
                    }
                    assert forall|j: int| k + 1 <= j < av.len() implies self.entry_map()[(#[trigger] av[j]).path]
                        == m0[av[j].path] by {
                    }
                }
            }
            k = k + 1;
        }
        proof {
            let m = self.entry_map();
            assert forall|q: Seq<Seq<u8>>| #[trigger] m.contains_key(q) && strictly_below(dir@, q) implies m[q] == reflagged(
                m0[q],
                ignored_under(m[parent_of(q)].is_ignored, ignores@, incl, q, m0[q].kind.spec_is_dir()),
                set_may_match_below(incl, q),
            ) by {
                let j = choose|j: int| 0 <= j < av.len() && av[j].path == q;
                assert(strictly_below(dir@, av[j].path));
            }
        }
        pending_below(self, dir)
    }

    /// Puts new scan settings in place. Entries that the new exclusions match
    /// go, with everything below them. Returns the read directories, which
    /// are to be read again so that flags follow the new settings and entries
    /// no longer excluded come in.
    pub fn update_settings(&mut self, settings: ScanSettings) -> (r: Vec<RelPath>)
        requires
            old(self).wf(),
        ensures
            final(self).next_id() == old(self).next_id(),
            final(self).wf(),
            final(self).exclusions() == settings.exclusions@,
            final(self).inclusions() == settings.inclusions@,
            final(self).private_files() == settings.private_files@,
            final(self).scan_id() == old(self).scan_id(),
            forall|q: Seq<Seq<u8>>| #[trigger]
                final(self).entry_map().contains_key(q) ==> old(self).entry_map().contains_key(q)
                    && final(self).entry_map()[q] == refreshed(
                    old(self).entry_map()[q],
                    settings.inclusions@,
                    settings.private_files@,
                ),
            forall|q: Seq<Seq<u8>>|
                #[trigger] old(self).entry_map().contains_key(q) && (forall|k: int|
                    0 < k <= q.len() ==> !set_matches(settings.exclusions@, #[trigger] q.subrange(0, k)))
                    ==> final(self).entry_map().contains_key(q),
            forall|i: int| 0 <= i < r@.len() ==> read_dir(final(self).entry_map(), (#[trigger] r@[i])@),
            forall|q: Seq<Seq<u8>>|
                #[trigger] read_dir(final(self).entry_map(), q) ==> exists|i: int| 0 <= i < r@.len() && r@[i]@ == q,
    {
        let ghost m0 = self.entry_map();
        let all = self.snapshot.store.subtree_entries(&RelPath::root());
        let ghost av = entry_views(all@);
        proof {
            assert forall|q: Seq<Seq<u8>>| is_prefix(Seq::<Seq<u8>>::empty(), q) by {
                assert(q.subrange(0, 0) =~= Seq::<Seq<u8>>::empty());
            }
        }
        let mut k: usize = 0;
        while k < all.len()
            invariant
                self.wf(),
                self.exclusions() == old(self).exclusions(),
                self.inclusions() == old(self).inclusions(),
                self.private_files() == old(self).private_files(),
                self.scan_id() == old(self).scan_id(),
                self.next_id() == old(self).next_id(),
                m0 == old(self).entry_map(),
                av == entry_views(all@),
                k <= av.len(),
                forall|q: Seq<Seq<u8>>| #[trigger] m0.contains_key(q) ==> exists|j: int| 0 <= j < av.len() && av[j].path == q,
                forall|q: Seq<Seq<u8>>| #[trigger]
                    self.entry_map().contains_key(q) ==> m0.contains_key(q) && self.entry_map()[q] == m0[q],
                forall|q: Seq<Seq<u8>>|
                    #[trigger] m0.contains_key(q) && (forall|i: int|
                        0 < i <= q.len() ==> !set_matches(settings.exclusions@, #[trigger] q.subrange(0, i)))
                        ==> self.entry_map().contains_key(q),
                forall|j: int|
                    0 <= j < k && (#[trigger] av[j]).path.len() > 0 && set_matches(settings.exclusions@, av[j].path)
                        ==> !self.entry_map().contains_key(av[j].path),
            decreases av.len() - k,
        {
            let q = &all[k].path;
            assert(all@[k as int]@ == av[k as int]);
            if !q.is_root() && settings.exclusions.is_match(q) {
                let ghost before = self.entry_map();
                self.remove_below(q);
                proof {
                    assert(q@.subrange(0, q@.len() as int) =~= q@);
                    assert forall|x: Seq<Seq<u8>>|
                        #[trigger] m0.contains_key(x) && (forall|i: int|
                            0 < i <= x.len() ==> !set_matches(settings.exclusions@, #[trigger] x.subrange(0, i)))
                            implies self.entry_map().contains_key(x) by {
                        assert(before.contains_key(x));
                        if is_prefix(q@, x) {
                            assert(x.subrange(0, q@.len() as int) == q@);
                        }
                    }
                }
            }
            k = k + 1;
        }
        self.settings = settings;
        proof {
            let m = self.entry_map();
            assert forall|q: Seq<Seq<u8>>| #[trigger] m.contains_key(q) && q.len() > 0 implies !set_matches(
                self.settings.exclusions@,
                q,
            ) by {
                let j = choose|j: int| 0 <= j < av.len() && av[j].path == q;
                assert(av[j].path == q);
            }
            assert forall|p: Seq<Seq<u8>>, q: Seq<Seq<u8>>|
                #[trigger] m.contains_key(p) && #[trigger] m.contains_key(q) && p != q implies m[p].id != m[q].id by {
                assert(m0.contains_key(p) && m0.contains_key(q));
            }
            assert forall|p: Seq<Seq<u8>>| #[trigger] m.contains_key(p) && p.len() > 0 implies m.contains_key(
                parent_of(p),
            ) && m[parent_of(p)].kind == EntryKind::Dir by {
                assert(m0.contains_key(p));
            }
            assert(tree_invariants(m, self.settings.exclusions@, self.next_entry_id));
        }
        let ghost m2 = self.entry_map();
        self.refresh_flags();
        proof {
            assert forall|q: Seq<Seq<u8>>| #[trigger] self.entry_map().contains_key(q) implies m0.contains_key(q)
                && self.entry_map()[q] == refreshed(m0[q], self.settings.inclusions@, self.settings.private_files@) by {
                assert(m2.contains_key(q));
            }
            assert forall|q: Seq<Seq<u8>>|
                #[trigger] m0.contains_key(q) && (forall|k: int|
                    0 < k <= q.len() ==> !set_matches(self.settings.exclusions@, #[trigger] q.subrange(0, k)))
                    implies self.entry_map().contains_key(q) by {
                assert(m2.contains_key(q));
            }
        }
        read_dirs(self)
    }

    /// Brings every entry's always-included and private flags in line with
    /// the settings; an entry always included is not ignored.
    fn refresh_flags(&mut self)
        requires
            old(self).snapshot.wf(),
            tree_invariants(old(self).entry_map(), old(self).exclusions(), old(self).next_id()),
        ensures
            final(self).wf(),
            final(self).settings == old(self).settings,
            final(self).next_id() == old(self).next_id(),
            final(self).scan_id() == old(self).scan_id(),
            final(self).entry_map().dom() == old(self).entry_map().dom(),
            forall|q: Seq<Seq<u8>>| #[trigger]
                final(self).entry_map().contains_key(q) ==> final(self).entry_map()[q] == refreshed(
                    old(self).entry_map()[q],
                    old(self).inclusions(),
                    old(self).private_files(),
                ),
    {
        let ghost ms = self.entry_map();
        let ghost incl = self.settings.inclusions@;
        let ghost privs = self.settings.private_files@;
        let all = self.snapshot.store.subtree_entries(&RelPath::root());
        let ghost av = entry_views(all@);
        proof {
            assert forall|q: Seq<Seq<u8>>| is_prefix(Seq::<Seq<u8>>::empty(), q) by {
                assert(q.subrange(0, 0) =~= Seq::<Seq<u8>>::empty());
            }
        }
        let mut k: usize = 0;
        while k < all.len()
            invariant
                self.snapshot.store.wf(),
                self.settings == old(self).settings,
                self.next_entry_id == old(self).next_entry_id,
                self.snapshot.scan_id == old(self).snapshot.scan_id,
                ms == old(self).entry_map(),
                incl == self.settings.inclusions@,
                privs == self.settings.private_files@,
                av == entry_views(all@),
                k <= av.len(),
                keys_match(ms),
                forall|j: int| 0 <= j < av.len() ==> ms.contains_key(#[trigger] av[j].path) && ms[av[j].path] == av[j],
                forall|q: Seq<Seq<u8>>| #[trigger] ms.contains_key(q) ==> exists|j: int|
                    0 <= j < av.len() && av[j].path == q,
                self.entry_map().dom() == ms.dom(),
                forall|q: Seq<Seq<u8>>| #[trigger]
                    self.entry_map().contains_key(q) ==> self.entry_map()[q] == ms[q] || self.entry_map()[q]
                        == refreshed(ms[q], incl, privs),
                forall|j: int| 0 <= j < k ==> self.entry_map()[(#[trigger] av[j]).path] == refreshed(av[j], incl, privs),
            decreases av.len() - k,
        {
            assert(all@[k as int]@ == av[k as int]);
            let mut e = all[k].copy();
            let always = self.settings.inclusions.is_match(&e.path);
            let private = self.settings.private_files.is_match(&e.path);
            e.is_always_included = always;
            e.is_private = private;
            e.is_ignored = e.is_ignored && !always;
            let ghost before = self.entry_map();
            let ghost ev = e@;
            assert(ev == refreshed(av[k as int], incl, privs));
            self.snapshot.store.insert_or_replace(e);
            proof {
                let now = self.entry_map();
                assert(now == before.insert(ev.path, ev));
                assert(now.dom() =~= ms.dom());
                assert forall|j: int| 0 <= j < k + 1 implies now[(#[trigger] av[j]).path] == refreshed(av[j], incl, privs) by {
                    if av[j].path != ev.path {
                        assert(now[av[j].path] == before[av[j].path]);
                    } else {
                        assert(ms[av[j].path] == av[j]);
                        assert(ms[av[k as int].path] == av[k as int]);
                    }
                }
            }
            k = k + 1;
        }
        proof {
            let m = self.entry_map();
            assert forall|q: Seq<Seq<u8>>| #[trigger] m.contains_key(q) implies m[q] == refreshed(ms[q], incl, privs) by {
                let j = choose|j: int| 0 <= j < av.len() && av[j].path == q;
                assert(m[av[j].path] == refreshed(av[j], incl, privs));
            }
            lemma_refreshed_invariants(ms, m, self.settings.exclusions@, self.next_entry_id, incl, privs);
        }
    }

    /// Decides what an event at `path` calls for: nothing where the path or
    /// an ancestor is excluded, or where its directory is not read (nothing
    /// below an unread directory is read on events); otherwise its directory
    /// is read again, and a `.gitignore` asks for its rules too.
    pub fn plan_event(&self, path: &RelPath) -> (r: EventPlan)
        requires
            self.wf(),
        ensures
            r.read is Some <==> !excluded_along(self.exclusions(), path@) && read_dir(
                self.entry_map(),
                event_dir(path@),
            ),
            r.read is Some ==> r.read->Some_0@ == event_dir(path@),
            r.rules_changed == (r.read is Some && path@.len() > 0 && is_gitignore_name(path@.last())),
    {
        let mut k: usize = 0;
        while k < path.depth()
            invariant
                self.wf(),
                k <= path@.len(),
                forall|j: int| 0 < j <= k ==> !set_matches(self.exclusions(), #[trigger] path@.subrange(0, j)),
            decreases path@.len() - k,
        {
            let a = path.prefix(k + 1);
            if self.settings.exclusions.is_match(&a) {
                return EventPlan { read: None, rules_changed: false };
            }
            k = k + 1;
        }
        let target = if path.is_root() {
            RelPath::root()
        } else {
            path.parent()
        };
        proof {
            if path@.len() == 0 {
                assert(target@ =~= path@);
            }
        }
        let is_read = match self.snapshot.store.get(&target) {
            Some(e) => e.kind == EntryKind::Dir,
            None => false,
        };
        if !is_read {
            return EventPlan { read: None, rules_changed: false };
        }
        let rules_changed = match path.file_name() {
            Some(name) => is_dot_gitignore(&name),
            None => false,
        };
        EventPlan { read: Some(target), rules_changed }
    }
}

} // verus!

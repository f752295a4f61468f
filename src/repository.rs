//! Git repositories of the tree: where their work directories lie, the status
//! of each file, and summaries of statuses that stop at repository bounds.
use vstd::prelude::*;
use crate::entry::{EntryKind, EntryView};
use crate::path::{copy_bytes, is_prefix, RelPath};
use crate::worktree::Worktree;

verus! {

#[derive(Clone, Copy, Debug, PartialEq, Eq, Structural)]
pub enum StatusCode {
    Modified,
    TypeChanged,
    Added,
    Deleted,
    Renamed,
    Copied,
    Unmodified,
}

#[derive(Clone, Copy, Debug, PartialEq, Eq, Structural)]
pub enum UnmergedStatusCode {
    Added,
    Deleted,
    Updated,
}

#[derive(Clone, Copy, Debug, PartialEq, Eq, Structural)]
pub struct TrackedStatus {
    pub index_status: StatusCode,
    pub worktree_status: StatusCode,
}

#[derive(Clone, Copy, Debug, PartialEq, Eq, Structural)]
pub struct UnmergedStatus {
    pub first_head: UnmergedStatusCode,
    pub second_head: UnmergedStatusCode,
}

#[derive(Clone, Copy, Debug, PartialEq, Eq, Structural)]
pub enum FileStatus {
    Untracked,
    Ignored,
    Unmerged(UnmergedStatus),
    /// A file git records, with its index and working-copy changes.
    Known(TrackedStatus),
}

/// Counts of added, modified and deleted files on one side (index or
/// working copy).
#[derive(Clone, Copy, Debug, PartialEq, Eq, Structural)]
pub struct TrackedSummary {
    pub added: u64,
    pub modified: u64,
    pub deleted: u64,
}

/// Counts of file statuses over a subtree.
#[derive(Clone, Copy, Debug, PartialEq, Eq, Structural)]
pub struct GitSummary {
    pub index: TrackedSummary,
    pub worktree: TrackedSummary,
    pub conflict: u64,
    pub untracked: u64,
    pub count: u64,
}

pub open spec fn tracked_fits(t: TrackedSummary, n: int) -> bool {
    t.added <= n && t.modified <= n && t.deleted <= n
}

/// Every count is at most `n`.
pub open spec fn summary_fits(s: GitSummary, n: int) -> bool {
    tracked_fits(s.index, n) && tracked_fits(s.worktree, n) && s.conflict <= n && s.untracked <= n && s.count <= n
}

/// Every field-wise sum of the two summaries fits in a `u64`.
pub open spec fn sum_fits(a: GitSummary, b: GitSummary) -> bool {
    &&& a.index.added + b.index.added <= u64::MAX
    &&& a.index.modified + b.index.modified <= u64::MAX
    &&& a.index.deleted + b.index.deleted <= u64::MAX
    &&& a.worktree.added + b.worktree.added <= u64::MAX
    &&& a.worktree.modified + b.worktree.modified <= u64::MAX
    &&& a.worktree.deleted + b.worktree.deleted <= u64::MAX
    &&& a.conflict + b.conflict <= u64::MAX
    &&& a.untracked + b.untracked <= u64::MAX
    &&& a.count + b.count <= u64::MAX
}

pub open spec fn tracked_sum(a: TrackedSummary, b: TrackedSummary) -> TrackedSummary {
    TrackedSummary {
        added: (a.added + b.added) as u64,
        modified: (a.modified + b.modified) as u64,
        deleted: (a.deleted + b.deleted) as u64,
    }
}

/// Field-wise sum.
pub open spec fn summary_sum(a: GitSummary, b: GitSummary) -> GitSummary {
    GitSummary {
        index: tracked_sum(a.index, b.index),
        worktree: tracked_sum(a.worktree, b.worktree),
        conflict: (a.conflict + b.conflict) as u64,
        untracked: (a.untracked + b.untracked) as u64,
        count: (a.count + b.count) as u64,
    }
}

pub open spec fn zero_tracked() -> TrackedSummary {
    TrackedSummary { added: 0, modified: 0, deleted: 0 }
}

pub open spec fn unchanged_summary() -> GitSummary {
    GitSummary { index: zero_tracked(), worktree: zero_tracked(), conflict: 0, untracked: 0, count: 0 }
}

pub open spec fn code_summary(c: StatusCode) -> TrackedSummary {
    match c {
        StatusCode::Modified | StatusCode::TypeChanged => TrackedSummary { added: 0, modified: 1, deleted: 0 },
        StatusCode::Added => TrackedSummary { added: 1, modified: 0, deleted: 0 },
        StatusCode::Deleted => TrackedSummary { added: 0, modified: 0, deleted: 1 },
        _ => zero_tracked(),
    }
}

/// What one file with this status counts for.
pub open spec fn status_summary(s: FileStatus) -> GitSummary {
    match s {
        FileStatus::Untracked => GitSummary { untracked: 1, count: 1, ..unchanged_summary() },
        FileStatus::Ignored => unchanged_summary(),
        FileStatus::Unmerged(_) => GitSummary { conflict: 1, count: 1, ..unchanged_summary() },
        FileStatus::Known(t) => GitSummary {
            index: code_summary(t.index_status),
            worktree: code_summary(t.worktree_status),
            conflict: 0,
            untracked: 0,
            count: 1,
        },
    }
}

impl TrackedSummary {
    pub fn zero() -> (r: TrackedSummary)
        ensures
            r == zero_tracked(),
    {
        TrackedSummary { added: 0, modified: 0, deleted: 0 }
    }

    pub fn added() -> (r: TrackedSummary)
        ensures
            r == code_summary(StatusCode::Added),
    {
        TrackedSummary { added: 1, modified: 0, deleted: 0 }
    }

    pub fn modified() -> (r: TrackedSummary)
        ensures
            r == code_summary(StatusCode::Modified),
    {
        TrackedSummary { added: 0, modified: 1, deleted: 0 }
    }

    pub fn deleted() -> (r: TrackedSummary)
        ensures
            r == code_summary(StatusCode::Deleted),
    {
        TrackedSummary { added: 0, modified: 0, deleted: 1 }
    }

    fn add(&self, o: &TrackedSummary) -> (r: TrackedSummary)
        requires
            self.added + o.added <= u64::MAX,
            self.modified + o.modified <= u64::MAX,
            self.deleted + o.deleted <= u64::MAX,
        ensures
            r == tracked_sum(*self, *o),
    {
        TrackedSummary {
            added: self.added + o.added,
            modified: self.modified + o.modified,
            deleted: self.deleted + o.deleted,
        }
    }
}

impl StatusCode {
    pub fn summary(&self) -> (r: TrackedSummary)
        ensures
            r == code_summary(*self),
    {
        match self {
            StatusCode::Modified | StatusCode::TypeChanged => TrackedSummary::modified(),
            StatusCode::Added => TrackedSummary::added(),
            StatusCode::Deleted => TrackedSummary::deleted(),
            _ => TrackedSummary::zero(),
        }
    }

    /// The status of a file changed this way in the index only.
    pub fn index(&self) -> (r: FileStatus)
        ensures
            r == FileStatus::Known(TrackedStatus { index_status: *self, worktree_status: StatusCode::Unmodified }),
    {
        FileStatus::Known(TrackedStatus { index_status: *self, worktree_status: StatusCode::Unmodified })
    }

    /// The status of a file changed this way in the working copy only.
    pub fn worktree(&self) -> (r: FileStatus)
        ensures
            r == FileStatus::Known(TrackedStatus { index_status: StatusCode::Unmodified, worktree_status: *self }),
    {
        FileStatus::Known(TrackedStatus { index_status: StatusCode::Unmodified, worktree_status: *self })
    }
}

impl FileStatus {
    pub fn summary(&self) -> (r: GitSummary)
        ensures
            r == status_summary(*self),
    {
        match self {
            FileStatus::Untracked => GitSummary { untracked: 1, count: 1, ..GitSummary::unchanged() },
            FileStatus::Ignored => GitSummary::unchanged(),
            FileStatus::Unmerged(_) => GitSummary::conflict(),
            FileStatus::Known(t) => GitSummary {
                index: t.index_status.summary(),
                worktree: t.worktree_status.summary(),
                conflict: 0,
                untracked: 0,
                count: 1,
            },
        }
    }
}

impl GitSummary {
    pub fn unchanged() -> (r: GitSummary)
        ensures
            r == unchanged_summary(),
    {
        GitSummary {
            index: TrackedSummary::zero(),
            worktree: TrackedSummary::zero(),
            conflict: 0,
            untracked: 0,
            count: 0,
        }
    }

    pub fn conflict() -> (r: GitSummary)
        ensures
            r == status_summary(
                FileStatus::Unmerged(
                    UnmergedStatus { first_head: UnmergedStatusCode::Updated, second_head: UnmergedStatusCode::Updated },
                ),
            ),
    {
        GitSummary { conflict: 1, count: 1, ..GitSummary::unchanged() }
    }

    pub fn untracked() -> (r: GitSummary)
        ensures
            r == status_summary(FileStatus::Untracked),
    {
        GitSummary { untracked: 1, count: 1, ..GitSummary::unchanged() }
    }

    /// Field-wise sum of two summaries.
    pub fn add(&self, o: &GitSummary) -> (r: GitSummary)
        requires
            sum_fits(*self, *o),
        ensures
            r == summary_sum(*self, *o),
    {
        GitSummary {
            index: self.index.add(&o.index),
            worktree: self.worktree.add(&o.worktree),
            conflict: self.conflict + o.conflict,
            untracked: self.untracked + o.untracked,
            count: self.count + o.count,
        }
    }
}

/// Where a repository's working copy lies relative to the worktree.
pub enum WorkDirectory {
    /// The `.git` lies in the worktree, in this directory.
    InProject { relative_path: RelPath },
    /// The worktree is a folder inside the repository's working copy.
    AboveProject { absolute_path: Vec<u8>, location_in_repo: RelPath },
}

pub enum WorkDirectoryView {
    InProject { relative_path: Seq<Seq<u8>> },
    AboveProject { absolute_path: Seq<u8>, location_in_repo: Seq<Seq<u8>> },
}

impl View for WorkDirectory {
    type V = WorkDirectoryView;

    open spec fn view(&self) -> WorkDirectoryView {
        match self {
            WorkDirectory::InProject { relative_path } => WorkDirectoryView::InProject {
                relative_path: relative_path@,
            },
            WorkDirectory::AboveProject { absolute_path, location_in_repo } => WorkDirectoryView::AboveProject {
                absolute_path: absolute_path@,
                location_in_repo: location_in_repo@,
            },
        }
    }
}

/// The work directory holds the worktree path `p`.
pub open spec fn wd_contains(wd: WorkDirectoryView, p: Seq<Seq<u8>>) -> bool {
    match wd {
        WorkDirectoryView::InProject { relative_path } => is_prefix(relative_path, p),
        WorkDirectoryView::AboveProject { .. } => true,
    }
}

/// How deep the work directory lies: a repository above the worktree lies
/// above every one inside it.
pub open spec fn wd_depth(wd: WorkDirectoryView) -> int {
    match wd {
        WorkDirectoryView::InProject { relative_path } => relative_path.len() as int,
        WorkDirectoryView::AboveProject { .. } => -1,
    }
}

/// The repository path of the worktree path `p`, which the work directory
/// holds.
pub open spec fn wd_relativize(wd: WorkDirectoryView, p: Seq<Seq<u8>>) -> Seq<Seq<u8>> {
    match wd {
        WorkDirectoryView::InProject { relative_path } => p.skip(relative_path.len() as int),
        WorkDirectoryView::AboveProject { location_in_repo, .. } => location_in_repo + p,
    }
}

pub open spec fn common_prefix_len(a: Seq<Seq<u8>>, b: Seq<Seq<u8>>) -> int
    decreases a.len(),
{
    if a.len() == 0 || b.len() == 0 || a[0] != b[0] {
        0
    } else {
        1 + common_prefix_len(a.drop_first(), b.drop_first())
    }
}

pub open spec fn dot_dot() -> Seq<u8> {
    seq![46u8, 46u8]
}

/// The worktree path of a repository path, going up with `..` where the
/// repository path lies outside the worktree.
pub open spec fn wd_unrelativize(wd: WorkDirectoryView, rp: Seq<Seq<u8>>) -> Seq<Seq<u8>> {
    match wd {
        WorkDirectoryView::InProject { relative_path } => relative_path + rp,
        WorkDirectoryView::AboveProject { location_in_repo, .. } => {
            let c = common_prefix_len(location_in_repo, rp);
            Seq::new((location_in_repo.len() - c) as nat, |i: int| dot_dot()) + rp.skip(c)
        },
    }
}

proof fn lemma_common_prefix(a: Seq<Seq<u8>>, b: Seq<Seq<u8>>)
    ensures
        0 <= common_prefix_len(a, b) <= a.len(),
        common_prefix_len(a, b) <= b.len(),
        a.subrange(0, common_prefix_len(a, b)) == b.subrange(0, common_prefix_len(a, b)),
        common_prefix_len(a, b) < a.len() && common_prefix_len(a, b) < b.len() ==> a[common_prefix_len(a, b)]
            != b[common_prefix_len(a, b)],
    decreases a.len(),
{
    if !(a.len() == 0 || b.len() == 0 || a[0] != b[0]) {
        lemma_common_prefix(a.drop_first(), b.drop_first());
        let c = common_prefix_len(a, b);
        assert(a.subrange(0, c) =~= seq![a[0]] + a.drop_first().subrange(0, c - 1));
        assert(b.subrange(0, c) =~= seq![b[0]] + b.drop_first().subrange(0, c - 1));
    } else {
        assert(a.subrange(0, 0) =~= b.subrange(0, 0));
    }
}

proof fn lemma_common_prefix_max(a: Seq<Seq<u8>>, b: Seq<Seq<u8>>, k: int)
    requires
        0 <= k <= a.len(),
        k <= b.len(),
        a.subrange(0, k) == b.subrange(0, k),
        k == a.len() || k == b.len() || a[k] != b[k],
    ensures
        common_prefix_len(a, b) == k,
    decreases a.len(),
{
    if k > 0 {
        assert(a[0] == a.subrange(0, k)[0]);
        assert(b[0] == b.subrange(0, k)[0]);
        assert(a.drop_first().subrange(0, k - 1) =~= a.subrange(0, k).drop_first());
        assert(b.drop_first().subrange(0, k - 1) =~= b.subrange(0, k).drop_first());
        lemma_common_prefix_max(a.drop_first(), b.drop_first(), k - 1);
    }
}

impl WorkDirectory {
    /// A repository whose `.git` lies in the worktree directory `path`.
    pub fn in_project(path: &[u8]) -> (r: WorkDirectory)
        ensures
            r@ == (WorkDirectoryView::InProject { relative_path: crate::path::split_nonempty(path@, 47u8) }),
    {
        WorkDirectory::InProject { relative_path: RelPath::parse(path) }
    }

    /// A repository whose working copy is at `absolute_path`, holding the
    /// worktree at `location_in_repo`.
    pub fn above_project(absolute_path: &[u8], location_in_repo: &[u8]) -> (r: WorkDirectory)
        ensures
            r@ == (WorkDirectoryView::AboveProject {
                absolute_path: absolute_path@,
                location_in_repo: crate::path::split_nonempty(location_in_repo@, 47u8),
            }),
    {
        let abs = bytes_of(absolute_path);
        WorkDirectory::AboveProject { absolute_path: abs, location_in_repo: RelPath::parse(location_in_repo) }
    }

    pub fn copy(&self) -> (r: WorkDirectory)
        ensures
            r@ == self@,
    {
        match self {
            WorkDirectory::InProject { relative_path } => WorkDirectory::InProject {
                relative_path: relative_path.copy(),
            },
            WorkDirectory::AboveProject { absolute_path, location_in_repo } => WorkDirectory::AboveProject {
                absolute_path: copy_bytes(absolute_path),
                location_in_repo: location_in_repo.copy(),
            },
        }
    }

    /// Whether the worktree path `p` lies in this working copy.
    pub fn contains(&self, p: &RelPath) -> (r: bool)
        ensures
            r == wd_contains(self@, p@),
    {
        match self {
            WorkDirectory::InProject { relative_path } => p.starts_with(relative_path),
            WorkDirectory::AboveProject { .. } => true,
        }
    }

    /// The repository path of a worktree path, if the working copy holds it.
    pub fn relativize(&self, p: &RelPath) -> (r: Option<RelPath>)
        ensures
            wd_contains(self@, p@) ==> r is Some && r->Some_0@ == wd_relativize(self@, p@),
            !wd_contains(self@, p@) ==> r is None,
    {
        match self {
            WorkDirectory::InProject { relative_path } => {
                if p.starts_with(relative_path) {
                    Some(p.suffix(relative_path.depth()))
                } else {
                    None
                }
            },
            WorkDirectory::AboveProject { location_in_repo, .. } => Some(location_in_repo.append(p)),
        }
    }

    /// The worktree path of a repository path, if it lies in the worktree.
    pub fn try_unrelativize(&self, rp: &RelPath) -> (r: Option<RelPath>)
        ensures
            match self@ {
                WorkDirectoryView::InProject { relative_path } => r is Some && r->Some_0@ == relative_path + rp@,
                WorkDirectoryView::AboveProject { location_in_repo, .. } => if is_prefix(location_in_repo, rp@) {
                    r is Some && r->Some_0@ == rp@.skip(location_in_repo.len() as int)
                } else {
                    r is None
                },
            },
    {
        match self {
            WorkDirectory::InProject { relative_path } => Some(relative_path.append(rp)),
            WorkDirectory::AboveProject { location_in_repo, .. } => {
                if rp.starts_with(location_in_repo) {
                    Some(rp.suffix(location_in_repo.depth()))
                } else {
                    None
                }
            },
        }
    }

    /// The worktree path of a repository path, with `..` components where it
    /// lies outside the worktree.
    pub fn unrelativize(&self, rp: &RelPath) -> (r: RelPath)
        ensures
            r@ == wd_unrelativize(self@, rp@),
    {
        match self {
            WorkDirectory::InProject { relative_path } => relative_path.append(rp),
            WorkDirectory::AboveProject { location_in_repo, .. } => {
                let loc = &location_in_repo.components;
                let c = common_components(loc, &rp.components);
                proof {
                    lemma_common_prefix_max(location_in_repo@, rp@, c as int);
                }
                let mut out: Vec<Vec<u8>> = Vec::new();
                let mut i: usize = c;
                assert(location_in_repo@.len() == loc@.len());
                while i < loc.len()
                    invariant
                        c <= i <= loc@.len(),
                        crate::path::views_of(out@) == Seq::new((i - c) as nat, |j: int| dot_dot()),
                    decreases loc@.len() - i,
                {
                    let ghost before = out@;
                    let mut dd: Vec<u8> = Vec::new();
                    dd.push(46u8);
                    dd.push(46u8);
                    assert(dd@ =~= dot_dot());
                    let ghost ddv = dd@;
                    out.push(dd);
                    assert(crate::path::views_of(out@) =~= crate::path::views_of(before).push(ddv));
                    assert(crate::path::views_of(out@) =~= Seq::new((i + 1 - c) as nat, |j: int| dot_dot()));
                    i = i + 1;
                }
                let up = RelPath { components: out };
                let rest = rp.suffix(c);
                up.append(&rest)
            },
        }
    }
}

/// The name of git's directory.
pub open spec fn git_dir_name() -> Seq<u8> {
    seq![46u8, 103u8, 105u8, 116u8]
}

/// The work directory of a repository discovered at the worktree path
/// `dot_git`, which must name a `.git`: the directory holding it.
pub fn work_directory_for_dot_git(dot_git: &RelPath) -> (r: Option<WorkDirectory>)
    ensures
        dot_git@.len() > 0 && dot_git@.last() == git_dir_name() ==> r is Some && r->Some_0@ == (
        WorkDirectoryView::InProject { relative_path: dot_git@.drop_last() }),
        !(dot_git@.len() > 0 && dot_git@.last() == git_dir_name()) ==> r is None,
{
    match dot_git.file_name() {
        None => None,
        Some(name) => {
            let is_git = name.len() == 4 && name[0] == 46u8 && name[1] == 103u8 && name[2] == 105u8 && name[3]
                == 116u8;
            proof {
                if is_git {
                    assert(name@ =~= git_dir_name());
                } else if name@ == git_dir_name() {
                    assert(name@[1] == 103u8);
                }
            }
            if is_git {
                Some(WorkDirectory::InProject { relative_path: dot_git.parent() })
            } else {
                None
            }
        },
    }
}

/// The work directory of a repository around the worktree: `repo_dir` is the
/// absolute path of the directory that holds `.git`, `root` the worktree's.
/// `None` where the repository does not hold the worktree.
pub fn work_directory_above(repo_dir: &[u8], root: &[u8]) -> (r: Option<WorkDirectory>)
    ensures
        ({
            let rp = crate::path::split_nonempty(repo_dir@, 47u8);
            let tp = crate::path::split_nonempty(root@, 47u8);
            &&& is_prefix(rp, tp) ==> r is Some && r->Some_0@ == (WorkDirectoryView::AboveProject {
                absolute_path: repo_dir@,
                location_in_repo: tp.skip(rp.len() as int),
            })
            &&& !is_prefix(rp, tp) ==> r is None
        }),
{
    let rp = RelPath::parse(repo_dir);
    let tp = RelPath::parse(root);
    if !tp.starts_with(&rp) {
        return None;
    }
    let location = tp.suffix(rp.depth());
    Some(WorkDirectory::AboveProject { absolute_path: bytes_of(repo_dir), location_in_repo: location })
}

fn bytes_of(s: &[u8]) -> (r: Vec<u8>)
    ensures
        r@ == s@,
{
    let mut v: Vec<u8> = Vec::new();
    let mut i: usize = 0;
    while i < s.len()
        invariant
            i <= s.len(),
            v@ == s@.subrange(0, i as int),
        decreases s.len() - i,
    {
        v.push(s[i]);
        assert(v@ =~= s@.subrange(0, i as int + 1));
        i = i + 1;
    }
    assert(v@ =~= s@);
    v
}

/// How many leading components two paths share.
fn common_components(a: &Vec<Vec<u8>>, b: &Vec<Vec<u8>>) -> (k: usize)
    ensures
        k <= a.len(),
        k <= b.len(),
        crate::path::views_of(a@).subrange(0, k as int) == crate::path::views_of(b@).subrange(0, k as int),
        k < a.len() && k < b.len() ==> a@[k as int]@ != b@[k as int]@,
{
    let mut i: usize = 0;
    while i < a.len() && i < b.len()
        invariant
            i <= a.len(),
            i <= b.len(),
            crate::path::views_of(a@).subrange(0, i as int) == crate::path::views_of(b@).subrange(0, i as int),
        decreases a.len() - i,
    {
        if !crate::path::bytes_eq(&a[i], &b[i]) {
            return i;
        }
        proof {
            crate::path::lemma_views_index(a@, i as int);
            crate::path::lemma_views_index(b@, i as int);
        }
        assert(crate::path::views_of(a@).subrange(0, i as int + 1) =~= crate::path::views_of(a@).subrange(
            0,
            i as int,
        ).push(a@[i as int]@));
        assert(crate::path::views_of(b@).subrange(0, i as int + 1) =~= crate::path::views_of(b@).subrange(
            0,
            i as int,
        ).push(b@[i as int]@));
        i = i + 1;
    }
    i
}

/// A file's status, keyed by its path in the repository.
pub struct StatusEntry {
    pub repo_path: RelPath,
    pub status: FileStatus,
}

pub struct Repository {
    pub work_directory: WorkDirectory,
    pub statuses: Vec<StatusEntry>,
    /// Repository paths with merge conflicts.
    pub merge_conflicts: Vec<RelPath>,
}

pub struct RepositoryView {
    pub work_directory: WorkDirectoryView,
    pub statuses: Seq<(Seq<Seq<u8>>, FileStatus)>,
}

impl View for Repository {
    type V = RepositoryView;

    open spec fn view(&self) -> RepositoryView {
        RepositoryView {
            work_directory: self.work_directory@,
            statuses: self.statuses@.map_values(|e: StatusEntry| (e.repo_path@, e.status)),
        }
    }
}

pub open spec fn repo_views(v: Seq<Repository>) -> Seq<RepositoryView> {
    v.map_values(|r: Repository| r@)
}

/// The status recorded for a repository path; a later record wins.
pub open spec fn status_lookup(st: Seq<(Seq<Seq<u8>>, FileStatus)>, rp: Seq<Seq<u8>>) -> Option<FileStatus>
    decreases st.len(),
{
    if st.len() == 0 {
        None
    } else if st.last().0 == rp {
        Some(st.last().1)
    } else {
        status_lookup(st.drop_last(), rp)
    }
}

/// The repository a worktree path belongs to: the one with the deepest work
/// directory holding it; of equally deep ones, the first.
pub open spec fn nearest_repo(repos: Seq<RepositoryView>, p: Seq<Seq<u8>>) -> Option<int>
    decreases repos.len(),
{
    if repos.len() == 0 {
        None
    } else {
        let rest = nearest_repo(repos.drop_last(), p);
        let last = repos.last().work_directory;
        if wd_contains(last, p) && (rest is None || wd_depth(last) > wd_depth(repos[rest->Some_0].work_directory)) {
            Some(repos.len() - 1)
        } else {
            rest
        }
    }
}

/// The status of the file at worktree path `p`, from its repository.
pub open spec fn file_status(repos: Seq<RepositoryView>, p: Seq<Seq<u8>>) -> Option<FileStatus> {
    match nearest_repo(repos, p) {
        Some(i) => status_lookup(repos[i].statuses, wd_relativize(repos[i].work_directory, p)),
        None => None,
    }
}

/// What an entry counts for by itself: a file its status, a directory
/// nothing.
pub open spec fn entry_summary(repos: Seq<RepositoryView>, e: EntryView) -> GitSummary {
    if e.kind == EntryKind::File {
        match file_status(repos, e.path) {
            Some(s) => status_summary(s),
            None => unchanged_summary(),
        }
    } else {
        unchanged_summary()
    }
}

/// The sum over the entries at or below `p` that belong to repository `r`.
pub open spec fn subtree_summary(s: Seq<EntryView>, repos: Seq<RepositoryView>, p: Seq<Seq<u8>>, r: Option<int>) -> GitSummary
    decreases s.len(),
{
    if s.len() == 0 {
        unchanged_summary()
    } else {
        let rest = subtree_summary(s.drop_last(), repos, p, r);
        if is_prefix(p, s.last().path) && nearest_repo(repos, s.last().path) == r {
            summary_sum(rest, entry_summary(repos, s.last()))
        } else {
            rest
        }
    }
}

/// The summary shown for the entry at `p`: the statuses of the files at or
/// below it in its own repository; nothing where no repository holds it.
pub open spec fn git_summary_spec(s: Seq<EntryView>, repos: Seq<RepositoryView>, p: Seq<Seq<u8>>) -> GitSummary {
    if nearest_repo(repos, p) is None {
        unchanged_summary()
    } else {
        subtree_summary(s, repos, p, nearest_repo(repos, p))
    }
}

proof fn lemma_status_summary_fits(st: FileStatus)
    ensures
        summary_fits(status_summary(st), 1),
{
}

proof fn lemma_subtree_summary_fits(s: Seq<EntryView>, repos: Seq<RepositoryView>, p: Seq<Seq<u8>>, r: Option<int>)
    ensures
        summary_fits(subtree_summary(s, repos, p, r), s.len() as int),
    decreases s.len(),
{
    if s.len() > 0 {
        lemma_subtree_summary_fits(s.drop_last(), repos, p, r);
        let e = s.last();
        match file_status(repos, e.path) {
            Some(st) => lemma_status_summary_fits(st),
            None => {},
        }
    }
}

proof fn lemma_nearest_contains(repos: Seq<RepositoryView>, p: Seq<Seq<u8>>)
    ensures
        nearest_repo(repos, p) is Some ==> wd_contains(repos[nearest_repo(repos, p)->Some_0].work_directory, p),
    decreases repos.len(),
{
    if repos.len() > 0 {
        lemma_nearest_contains(repos.drop_last(), p);
        lemma_nearest_in_range(repos.drop_last(), p);
    }
}

proof fn lemma_nearest_in_range(repos: Seq<RepositoryView>, p: Seq<Seq<u8>>)
    ensures
        nearest_repo(repos, p) is Some ==> 0 <= nearest_repo(repos, p)->Some_0 < repos.len(),
    decreases repos.len(),
{
    if repos.len() > 0 {
        lemma_nearest_in_range(repos.drop_last(), p);
    }
}

/// The repository that the worktree path `p` belongs to, by its index.
pub fn repository_for_path(repos: &Vec<Repository>, p: &RelPath) -> (r: Option<usize>)
    ensures
        r is Some <==> nearest_repo(repo_views(repos@), p@) is Some,
        r is Some ==> r->Some_0 as int == nearest_repo(repo_views(repos@), p@)->Some_0 && r->Some_0 < repos@.len(),
{
    let mut best: Option<usize> = None;
    let mut i: usize = 0;
    while i < repos.len()
        invariant
            i <= repos.len(),
            best is Some <==> nearest_repo(repo_views(repos@).subrange(0, i as int), p@) is Some,
            best is Some ==> best->Some_0 as int == nearest_repo(repo_views(repos@).subrange(0, i as int), p@)->Some_0
                && best->Some_0 < i,
        decreases repos.len() - i,
    {
        let ghost sub = repo_views(repos@).subrange(0, i as int + 1);
        assert(sub.drop_last() =~= repo_views(repos@).subrange(0, i as int));
        assert(sub.last() == repos@[i as int]@);
        let wd = &repos[i].work_directory;
        if wd.contains(p) {
            let deeper = match best {
                None => true,
                Some(b) => {
                    assert(sub[b as int] == repos@[b as int]@);
                    wd_deeper(wd, &repos[b].work_directory)
                },
            };
            if deeper {
                best = Some(i);
            }
        }
        i = i + 1;
    }
    assert(repo_views(repos@).subrange(0, i as int) =~= repo_views(repos@));
    proof {
        lemma_nearest_in_range(repo_views(repos@), p@);
    }
    best
}

fn wd_deeper(a: &WorkDirectory, b: &WorkDirectory) -> (r: bool)
    ensures
        r == (wd_depth(a@) > wd_depth(b@)),
{
    match (a, b) {
        (WorkDirectory::InProject { relative_path: x }, WorkDirectory::InProject { relative_path: y }) => x.depth()
            > y.depth(),
        (WorkDirectory::InProject { .. }, WorkDirectory::AboveProject { .. }) => true,
        (WorkDirectory::AboveProject { .. }, _) => false,
    }
}

impl Repository {
    /// The status recorded for a repository path.
    pub fn status_for_repo_path(&self, rp: &RelPath) -> (r: Option<FileStatus>)
        ensures
            r == status_lookup(self@.statuses, rp@),
    {
        let mut found: Option<FileStatus> = None;
        let mut i: usize = 0;
        while i < self.statuses.len()
            invariant
                i <= self.statuses.len(),
                found == status_lookup(self@.statuses.subrange(0, i as int), rp@),
            decreases self.statuses.len() - i,
        {
            let ghost sub = self@.statuses.subrange(0, i as int + 1);
            assert(sub.drop_last() =~= self@.statuses.subrange(0, i as int));
            if self.statuses[i].repo_path.path_eq(rp) {
                found = Some(self.statuses[i].status);
            }
            i = i + 1;
        }
        assert(self@.statuses.subrange(0, i as int) =~= self@.statuses);
        found
    }
}

/// The status of the file at worktree path `p`.
pub fn status_for_file(repos: &Vec<Repository>, p: &RelPath) -> (r: Option<FileStatus>)
    ensures
        r == file_status(repo_views(repos@), p@),
{
    let ghost rv = repo_views(repos@);
    match repository_for_path(repos, p) {
        None => None,
        Some(i) => {
            proof {
                lemma_nearest_contains(rv, p@);
                assert(nearest_repo(rv, p@) == Some(i as int));
                assert(rv[i as int] == repos@[i as int]@);
            }
            let repo = &repos[i];
            match repo.work_directory.relativize(p) {
                Some(rp) => {
                    let st = repo.status_for_repo_path(&rp);
                    assert(st == status_lookup(rv[i as int].statuses, wd_relativize(rv[i as int].work_directory, p@)));
                    st
                },
                None => None,
            }
        },
    }
}

fn entry_summary_of(repos: &Vec<Repository>, e: &crate::entry::Entry) -> (r: GitSummary)
    ensures
        r == entry_summary(repo_views(repos@), e@),
{
    if e.kind == EntryKind::File {
        match status_for_file(repos, &e.path) {
            Some(s) => s.summary(),
            None => GitSummary::unchanged(),
        }
    } else {
        GitSummary::unchanged()
    }
}

/// The git summary of the entry at `p`: the statuses of the files at or below
/// it that belong to its own repository, so that a nested repository's files
/// do not count for the outer one.
pub fn git_summary(tree: &Worktree, repos: &Vec<Repository>, p: &RelPath) -> (r: GitSummary)
    requires
        tree.wf(),
    ensures
        r == git_summary_spec(tree.ordered(), repo_views(repos@), p@),
{
    let own = repository_for_path(repos, p);
    if own.is_none() {
        return GitSummary::unchanged();
    }
    let ghost rv = repo_views(repos@);
    let ghost target = nearest_repo(rv, p@);
    let n = tree.entry_count();
    let mut acc = GitSummary::unchanged();
    let mut i: usize = 0;
    while i < n
        invariant
            tree.wf(),
            n == tree.ordered().len(),
            i <= n,
            rv == repo_views(repos@),
            target == nearest_repo(rv, p@),
            target is Some,
            own is Some && own->Some_0 as int == target->Some_0,
            acc == subtree_summary(tree.ordered().subrange(0, i as int), rv, p@, target),
        decreases n - i,
    {
        let ghost sub = tree.ordered().subrange(0, i as int + 1);
        assert(sub.drop_last() =~= tree.ordered().subrange(0, i as int));
        let e = tree.entry_at(i);
        proof {
            lemma_subtree_summary_fits(tree.ordered().subrange(0, i as int), rv, p@, target);
            assert(sub.last() == e@);
            lemma_nearest_in_range(rv, p@);
            lemma_nearest_in_range(rv, e@.path);
        }
        if e.path.starts_with(p) {
            let er = repository_for_path(repos, &e.path);
            let same = match (er, own) {
                (Some(a), Some(b)) => a == b,
                _ => false,
            };
            assert(same == (nearest_repo(rv, e@.path) == target));
            if same {
                let es = entry_summary_of(repos, e);
                proof {
                    match file_status(rv, e@.path) {
                        Some(st) => lemma_status_summary_fits(st),
                        None => {},
                    }
                }
                acc = acc.add(&es);
            }
        }
        i = i + 1;
    }
    assert(tree.ordered().subrange(0, i as int) =~= tree.ordered());
    acc
}

} // verus!

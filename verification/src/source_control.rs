//! Source-control workspace logic: staging preferences, commit decisions and
//! the detection of pending changes between the committed index and the
//! working index.

use vstd::prelude::*;
use vstd::relations::{sorted_by, total_ordering};
use vstd::string::StringSliceAdditionalSpecFns;

verus! {

broadcast use {vstd::seq_lib::group_seq_properties, vstd::multiset::group_multiset_axioms};

/// Which changes a status query reports.
#[derive(Debug, Clone, Copy, PartialEq, Eq, Structural)]
pub enum Staging {
    StagedAndUnstaged,
    StagedOnly,
    UnstagedOnly,
}

impl Staging {
    /// Builds the staging preference from two flags that cannot both be set.
    pub fn from_bool(staged_only: bool, unstaged_only: bool) -> (r: Self)
        requires
            !(staged_only && unstaged_only),
        ensures
            staged_only ==> r == Staging::StagedOnly,
            unstaged_only ==> r == Staging::UnstagedOnly,
            !staged_only && !unstaged_only ==> r == Staging::StagedAndUnstaged,
    {
        if staged_only {
            Staging::StagedOnly
        } else if unstaged_only {
            Staging::UnstagedOnly
        } else {
            Staging::StagedAndUnstaged
        }
    }
}

/// How a commit treats staged files without changes.
#[derive(Debug, Clone, Copy, PartialEq, Eq, Structural)]
pub enum CommitMode {
    /// Committing no changes is an error.
    Strict,
    /// Committing no changes does nothing.
    Lenient,
}

/// A branch of the repository: its name, the commit at its head, the
/// branch it descends from if it is attached to one, and the lock domain it
/// takes its locks in.
#[derive(Debug, Clone, PartialEq, Eq)]
pub struct Branch {
    pub name: String,
    pub head: u64,
    pub parent: Option<String>,
    pub lock_domain_id: String,
}

/// A commit: its identifier and the trees of its main and path indices.
#[derive(Debug, Clone, Copy, PartialEq, Eq, Structural)]
pub struct Commit {
    pub id: u64,
    pub main_index_tree_id: u64,
    pub path_index_tree_id: u64,
}

/// Errors of workspace operations.
#[derive(Debug, Clone, PartialEq, Eq)]
pub enum WorkspaceError {
    InvalidPath(String),
    StaleBranch(String),
    EmptyCommitNotAllowed,
    AlreadyOnBranch(String),
    Unspecified(String),
}

/// What a commit does, once the current branch and its head commit are
/// known.
#[derive(Debug, Clone, Copy, PartialEq, Eq, Structural)]
pub enum CommitPlan {
    /// The branch moved since the workspace read it.
    Stale,
    /// Nothing changed and the mode forbids empty commits.
    EmptyNotAllowed,
    /// Nothing changed: the head commit is returned as it is.
    KeepHead,
    /// A new commit of the workspace's indices, child of the head commit.
    CreateCommit { parent: u64, main_index_tree_id: u64, path_index_tree_id: u64 },
}

/// A workspace: a repository, the active branch and the trees of the
/// working main and path indices.
pub struct Workspace {
    repository_name: String,
    branch_name: String,
    main_index_id: u64,
    path_index_id: u64,
}

impl Workspace {
    pub closed spec fn spec_repository_name(&self) -> Seq<char> {
        self.repository_name@
    }

    pub closed spec fn spec_branch_name(&self) -> Seq<char> {
        self.branch_name@
    }

    pub closed spec fn spec_main_index_id(&self) -> u64 {
        self.main_index_id
    }

    pub closed spec fn spec_path_index_id(&self) -> u64 {
        self.path_index_id
    }

    /// Opens a workspace on `branch_name`, whose indices start from the
    /// trees of the branch's head commit.
    pub fn new(repository_name: String, branch_name: &str, head: &Commit) -> (r: Self)
        ensures
            r.spec_repository_name() == repository_name@,
            r.spec_branch_name() == branch_name@,
            r.spec_main_index_id() == head.main_index_tree_id,
            r.spec_path_index_id() == head.path_index_tree_id,
    {
        Workspace {
            repository_name,
            branch_name: branch_name.to_owned(),
            main_index_id: head.main_index_tree_id,
            path_index_id: head.path_index_tree_id,
        }
    }

    /// The repository name of the workspace.
    pub fn repository_name(&self) -> (r: &String)
        ensures
            r@ == self.spec_repository_name(),
    {
        &self.repository_name
    }

    /// The name of the branch that is active in the workspace.
    pub fn branch_name(&self) -> (r: &str)
        ensures
            r@ == self.spec_branch_name(),
    {
        self.branch_name.as_str()
    }

    /// The trees of the main and path indices.
    pub fn indices(&self) -> (r: (u64, u64))
        ensures
            r == (self.spec_main_index_id(), self.spec_path_index_id()),
    {
        (self.main_index_id, self.path_index_id)
    }

    /// The tree of the main index, to be shared.
    pub fn clone_main_index_id(&self) -> (r: u64)
        ensures
            r == self.spec_main_index_id(),
    {
        self.main_index_id
    }

    /// Whether the working indices equal the trees of `commit`.
    pub open spec fn spec_is_empty_commit(&self, commit: Commit) -> bool {
        commit.main_index_tree_id == self.spec_main_index_id() && commit.path_index_tree_id
            == self.spec_path_index_id()
    }

    /// Decides what committing does: a branch whose head moved is stale;
    /// working indices equal to the head commit's trees make an empty commit,
    /// an error in strict mode and the head commit itself otherwise; any
    /// other state makes a new commit whose parent is the head.
    pub fn plan_commit(&self, current_branch: &Branch, branch: &Branch, head: &Commit, mode: CommitMode) -> (r: CommitPlan)
        ensures
            branch.head != current_branch.head ==> r == CommitPlan::Stale,
            branch.head == current_branch.head && self.spec_is_empty_commit(*head) ==> r == (
                if mode == CommitMode::Strict {
                    CommitPlan::EmptyNotAllowed
                } else {
                    CommitPlan::KeepHead
                }),
            branch.head == current_branch.head && !self.spec_is_empty_commit(*head) ==> r
                == (CommitPlan::CreateCommit {
                    parent: head.id,
                    main_index_tree_id: self.spec_main_index_id(),
                    path_index_tree_id: self.spec_path_index_id(),
                }),
    {
        if branch.head != current_branch.head {
            return CommitPlan::Stale;
        }
        let empty_commit = head.main_index_tree_id == self.main_index_id && head.path_index_tree_id
            == self.path_index_id;
        if empty_commit {
            match mode {
                CommitMode::Strict => CommitPlan::EmptyNotAllowed,
                CommitMode::Lenient => CommitPlan::KeepHead,
            }
        } else {
            CommitPlan::CreateCommit {
                parent: head.id,
                main_index_tree_id: self.main_index_id,
                path_index_tree_id: self.path_index_id,
            }
        }
    }

    /// Checks a resource path before it is looked up: paths of at most one
    /// byte are invalid.
    pub fn check_resource_path(path: &str) -> (r: Result<(), WorkspaceError>)
        ensures
            path.len() > 1 <==> r is Ok,
            r is Err ==> (r matches Err(WorkspaceError::InvalidPath(p)) && p@ == path@),
    {
        if path.len() > 1 {
            Ok(())
        } else {
            Err(WorkspaceError::InvalidPath(path.to_owned()))
        }
    }

    /// Switching to a branch: refused when it is the current branch; else
    /// the new branch starts at the current branch's head, descends from the
    /// current branch and shares its lock domain.
    pub fn plan_create_branch(current_branch: &Branch, branch_name: &str) -> (r: Result<Branch, WorkspaceError>)
        ensures
            branch_name@ == current_branch.name@ ==> (r matches Err(WorkspaceError::AlreadyOnBranch(n)) && n@
                == current_branch.name@),
            branch_name@ != current_branch.name@ ==> (r matches Ok(b) && b.name@ == branch_name@
                && b.head == current_branch.head && (b.parent matches Some(p) && p@ == current_branch.name@)
                && b.lock_domain_id@ == current_branch.lock_domain_id@),
    {
        let name = branch_name.to_owned();
        if name == current_branch.name {
            Err(WorkspaceError::AlreadyOnBranch(current_branch.name.clone()))
        } else {
            Ok(Branch {
                name,
                head: current_branch.head,
                parent: Some(current_branch.name.clone()),
                lock_domain_id: current_branch.lock_domain_id.clone(),
            })
        }
    }

    /// Creates a branch named `branch_name` out of the current branch and
    /// makes it the workspace's active branch; refused, with the workspace
    /// left as it is, when it is the current branch.
    pub fn create_branch(&mut self, current_branch: &Branch, branch_name: &str) -> (r: Result<Branch, WorkspaceError>)
        ensures
            branch_name@ == current_branch.name@ ==> (r matches Err(WorkspaceError::AlreadyOnBranch(n)) && n@
                == current_branch.name@),
            branch_name@ != current_branch.name@ ==> (r matches Ok(b) && b.name@ == branch_name@
                && b.head == current_branch.head && (b.parent matches Some(p) && p@ == current_branch.name@)
                && b.lock_domain_id@ == current_branch.lock_domain_id@),
            final(self).spec_branch_name() == branch_after_create(
                old(self).spec_branch_name(),
                current_branch.name@,
                branch_name@,
            ),
            final(self).spec_repository_name() == old(self).spec_repository_name(),
            final(self).spec_main_index_id() == old(self).spec_main_index_id(),
            final(self).spec_path_index_id() == old(self).spec_path_index_id(),
    {
        let r = Self::plan_create_branch(current_branch, branch_name);
        match &r {
            Ok(b) => {
                self.branch_name = b.name.clone();
            },
            Err(_) => {},
        }
        r
    }
}

/// The active branch after asking, on branch `active` whose current branch
/// is named `current`, to create `asked`: `asked` when the creation
/// succeeds, which it does when it differs from `current`; else unchanged.
pub open spec fn branch_after_create(active: Seq<char>, current: Seq<char>, asked: Seq<char>) -> Seq<char> {
    if asked != current {
        asked
    } else {
        active
    }
}

/// The active branch after a series of branch creations, each given as the
/// name of the current branch and the name asked, applied in order.
pub open spec fn branch_after_creates(initial: Seq<char>, attempts: Seq<(Seq<char>, Seq<char>)>) -> Seq<char>
    decreases attempts.len(),
{
    if attempts.len() == 0 {
        initial
    } else {
        branch_after_create(branch_after_creates(initial, attempts.drop_last()), attempts.last().0, attempts.last().1)
    }
}

/// Whether the creation asked at `k` succeeds.
pub open spec fn creation_succeeds(attempts: Seq<(Seq<char>, Seq<char>)>, k: int) -> bool {
    attempts[k].1 != attempts[k].0
}

/// The index of the last creation that succeeds, if any.
pub open spec fn last_success(attempts: Seq<(Seq<char>, Seq<char>)>) -> Option<int>
    decreases attempts.len(),
{
    if attempts.len() == 0 {
        None
    } else if creation_succeeds(attempts, attempts.len() - 1) {
        Some(attempts.len() - 1)
    } else {
        last_success(attempts.drop_last())
    }
}

/// After any series of branch creations, the active branch is the one asked
/// by the last creation that succeeded, or the branch the workspace was
/// opened on when none did; failed creations change nothing.
pub proof fn lemma_branch_name_follows_last_success(initial: Seq<char>, attempts: Seq<(Seq<char>, Seq<char>)>)
    ensures
        last_success(attempts) matches Some(k) ==> {
            &&& 0 <= k < attempts.len()
            &&& creation_succeeds(attempts, k)
            &&& forall|j: int| k < j < attempts.len() ==> !creation_succeeds(attempts, j)
            &&& branch_after_creates(initial, attempts) == attempts[k].1
        },
        last_success(attempts) is None ==> {
            &&& forall|j: int| 0 <= j < attempts.len() ==> !creation_succeeds(attempts, j)
            &&& branch_after_creates(initial, attempts) == initial
        },
    decreases attempts.len(),
{
    if attempts.len() > 0 {
        let init = attempts.drop_last();
        lemma_branch_name_follows_last_success(initial, init);
        let n = attempts.len() - 1;
        assert(attempts.last() == attempts[n]);
        assert forall|j: int| 0 <= j < init.len() implies #[trigger] creation_succeeds(init, j) == creation_succeeds(
            attempts,
            j,
        ) by {
            assert(init[j] == attempts[j]);
        }
        if creation_succeeds(attempts, n) {
            assert(last_success(attempts) == Some(n));
            assert(branch_after_creates(initial, attempts) == attempts[n].1);
        } else {
            assert(last_success(attempts) == last_success(init));
            assert(branch_after_creates(initial, attempts) == branch_after_creates(initial, init));
            match last_success(init) {
                Some(k) => {
                    assert(init[k] == attempts[k]);
                    assert forall|j: int| k < j < attempts.len() implies !creation_succeeds(attempts, j) by {
                        if j < n {
                            assert(!creation_succeeds(init, j));
                        }
                    }
                },
                None => {
                    assert forall|j: int| 0 <= j < attempts.len() implies !creation_succeeds(attempts, j) by {
                        if j < n {
                            assert(!creation_succeeds(init, j));
                        }
                    }
                },
            }
        }
    }
}

/// Side of a tree diff on which a leaf was found: `Left` is the committed
/// index, `Right` the working index.
#[derive(Debug, Clone, Copy, PartialEq, Eq, Structural)]
pub enum TreeDiffSide {
    Left,
    Right,
}

/// A leaf reported by a diff of two index trees: an index key, the side on
/// which it was found and the resource identifier stored there.
#[derive(Debug, Clone, Copy, PartialEq, Eq, Structural)]
pub struct DiffLeaf {
    pub key: u64,
    pub side: TreeDiffSide,
    pub resource_id: u64,
}

/// A change of one resource between the committed and the working index.
#[derive(Debug, Clone, Copy, PartialEq, Eq, Structural)]
pub enum ChangeType {
    Add { new_id: u64 },
    Edit { old_id: u64, new_id: u64 },
    Delete { old_id: u64 },
}

/// A change together with the index key it applies to.
#[derive(Debug, Clone, Copy, PartialEq, Eq, Structural)]
pub struct PendingChange {
    pub key: u64,
    pub change: ChangeType,
}

pub open spec fn side_rank(s: TreeDiffSide) -> int {
    match s {
        TreeDiffSide::Left => 0,
        TreeDiffSide::Right => 1,
    }
}

/// The order in which diff leaves are sorted: by key, then side (left
/// first), then resource identifier.
pub open spec fn leaf_le(a: DiffLeaf, b: DiffLeaf) -> bool {
    ||| a.key < b.key
    ||| a.key == b.key && side_rank(a.side) < side_rank(b.side)
    ||| a.key == b.key && a.side == b.side && a.resource_id <= b.resource_id
}

pub open spec fn leaf_order() -> spec_fn(DiffLeaf, DiffLeaf) -> bool {
    |a: DiffLeaf, b: DiffLeaf| leaf_le(a, b)
}

/// The diff leaves in sorted order.
pub open spec fn sorted_leaves(leaves: Seq<DiffLeaf>) -> Seq<DiffLeaf> {
    leaves.sort_by(leaf_order())
}

/// The order on leaves is total.
pub proof fn lemma_leaf_order_total()
    ensures
        total_ordering(leaf_order()),
{
    assert forall|a: DiffLeaf, b: DiffLeaf|
        #[trigger] leaf_order()(a, b) && #[trigger] leaf_order()(b, a) implies a == b by {
        assert(a.side == b.side) by {
            match a.side {
                TreeDiffSide::Left => {},
                TreeDiffSide::Right => {},
            }
            match b.side {
                TreeDiffSide::Left => {},
                TreeDiffSide::Right => {},
            }
        }
    }
    assert forall|a: DiffLeaf, b: DiffLeaf|
        #[trigger] leaf_order()(a, b) || #[trigger] leaf_order()(b, a) by {
        match a.side {
            TreeDiffSide::Left => {},
            TreeDiffSide::Right => {},
        }
        match b.side {
            TreeDiffSide::Left => {},
            TreeDiffSide::Right => {},
        }
    }
}

/// Two sorted sequences with the same elements are equal.
pub proof fn lemma_sorted_unique(a: Seq<DiffLeaf>, b: Seq<DiffLeaf>)
    requires
        sorted_by(a, leaf_order()),
        sorted_by(b, leaf_order()),
        a.to_multiset() =~= b.to_multiset(),
    ensures
        a =~= b,
    decreases a.len(),
{
    lemma_leaf_order_total();
    a.to_multiset_ensures();
    b.to_multiset_ensures();
    if a.len() == 0 {
        assert(b.len() == 0);
    } else {
        assert(b.len() == a.len());
        let x = a[0];
        let y = b[0];
        assert(a.contains(x));
        assert(b.to_multiset().count(x) > 0);
        assert(b.contains(x));
        let j = choose|j: int| 0 <= j < b.len() && b[j] == x;
        if j > 0 {
            assert(leaf_order()(b[0], b[j]));
        }
        assert(leaf_order()(y, x));
        assert(b.to_multiset().count(y) > 0);
        assert(a.contains(y));
        let i = choose|i: int| 0 <= i < a.len() && a[i] == y;
        if i > 0 {
            assert(leaf_order()(a[0], a[i]));
        }
        assert(leaf_order()(x, y));
        assert(x == y);
        assert(a.remove(0).to_multiset() =~= a.to_multiset().remove(x));
        assert(b.remove(0).to_multiset() =~= b.to_multiset().remove(x));
        let a1 = a.remove(0);
        let b1 = b.remove(0);
        assert(sorted_by(a1, leaf_order())) by {
            assert forall|p: int, q: int| 0 <= p < q < a1.len() implies #[trigger] leaf_order()(
                a1[p],
                a1[q],
            ) by {
                assert(a1[p] == a[p + 1]);
                assert(a1[q] == a[q + 1]);
            }
        }
        assert(sorted_by(b1, leaf_order())) by {
            assert forall|p: int, q: int| 0 <= p < q < b1.len() implies #[trigger] leaf_order()(
                b1[p],
                b1[q],
            ) by {
                assert(b1[p] == b[p + 1]);
                assert(b1[q] == b[q + 1]);
            }
        }
        lemma_sorted_unique(a1, b1);
        assert(a =~= seq![x] + a1);
        assert(b =~= seq![x] + b1);
    }
}

fn leaf_le_exec(a: &DiffLeaf, b: &DiffLeaf) -> (r: bool)
    ensures
        r == leaf_le(*a, *b),
{
    if a.key != b.key {
        a.key < b.key
    } else {
        match (a.side, b.side) {
            (TreeDiffSide::Left, TreeDiffSide::Right) => true,
            (TreeDiffSide::Right, TreeDiffSide::Left) => false,
            _ => a.resource_id <= b.resource_id,
        }
    }
}

/// Sorts diff leaves by key, then side, then resource identifier.
pub fn sort_leaves(leaves: &Vec<DiffLeaf>) -> (r: Vec<DiffLeaf>)
    ensures
        r@ == sorted_leaves(leaves@),
{
    proof {
        lemma_leaf_order_total();
    }
    let mut out: Vec<DiffLeaf> = Vec::new();
    let n = leaves.len();
    for i in 0..n
        invariant
            n == leaves.len(),
            total_ordering(leaf_order()),
            sorted_by(out@, leaf_order()),
            out@.to_multiset() =~= leaves@.take(i as int).to_multiset(),
    {
        let x = leaves[i];
        let mut pos: usize = 0;
        while pos < out.len() && leaf_le_exec(&out[pos], &x)
            invariant
                0 <= pos <= out.len(),
                sorted_by(out@, leaf_order()),
                total_ordering(leaf_order()),
                forall|k: int| 0 <= k < pos ==> #[trigger] leaf_le(out@[k], x),
            decreases out.len() - pos,
        {
            pos = pos + 1;
        }
        let ghost old_out = out@;
        proof {
            if pos < old_out.len() {
                assert(!leaf_le(old_out[pos as int], x));
                assert(leaf_order()(x, old_out[pos as int]) || leaf_order()(old_out[pos as int], x));
            }
        }
        out.insert(pos, x);
        proof {
            assert(out@ =~= old_out.insert(pos as int, x));
            vstd::seq_lib::to_multiset_insert(old_out, pos as int, x);
            assert(leaves@.take(i + 1) =~= leaves@.take(i as int).push(x));
            leaves@.take(i as int).to_multiset_ensures();
            assert forall|p: int, q: int| 0 <= p < q < out@.len() implies #[trigger] leaf_order()(
                out@[p],
                out@[q],
            ) by {
                if q < pos {
                    assert(leaf_order()(old_out[p], old_out[q]));
                } else if q == pos {
                    assert(leaf_le(old_out[p], x));
                } else if p < pos {
                    assert(out@[q] == old_out[q - 1]);
                    assert(leaf_le(old_out[p], x));
                    assert(leaf_order()(x, old_out[pos as int]));
                    if q - 1 > pos {
                        assert(leaf_order()(old_out[pos as int], old_out[q - 1]));
                    }
                } else if p == pos {
                    assert(out@[q] == old_out[q - 1]);
                    assert(leaf_order()(x, old_out[pos as int]));
                    if q - 1 > pos {
                        assert(leaf_order()(old_out[pos as int], old_out[q - 1]));
                    }
                } else {
                    assert(leaf_order()(old_out[p - 1], old_out[q - 1]));
                }
            }
        }
    }
    proof {
        assert(leaves@.take(n as int) =~= leaves@);
        leaves@.lemma_sort_by_ensures(leaf_order());
        lemma_sorted_unique(out@, sorted_leaves(leaves@));
    }
    out
}


/// The change reported for a leaf that is not paired with its neighbour.
pub open spec fn single_change(x: DiffLeaf) -> PendingChange {
    match x.side {
        TreeDiffSide::Left => PendingChange { key: x.key, change: ChangeType::Delete { old_id: x.resource_id } },
        TreeDiffSide::Right => PendingChange { key: x.key, change: ChangeType::Add { new_id: x.resource_id } },
    }
}

/// Whether a leaf of the committed index is directly followed by a leaf of
/// the working index with the same key: together they are an edit.
pub open spec fn is_edit_pair(a: DiffLeaf, b: DiffLeaf) -> bool {
    a.side == TreeDiffSide::Left && b.side == TreeDiffSide::Right && a.key == b.key
}

pub open spec fn edit_change(a: DiffLeaf, b: DiffLeaf) -> PendingChange {
    PendingChange { key: a.key, change: ChangeType::Edit { old_id: a.resource_id, new_id: b.resource_id } }
}

/// The changes described by a sequence of sorted diff leaves: a committed
/// leaf directly followed by a working leaf of the same key is an edit;
/// any other committed leaf is a deletion and any other working leaf an
/// addition.
pub open spec fn classify(s: Seq<DiffLeaf>) -> Seq<PendingChange>
    decreases s.len(),
{
    if s.len() == 0 {
        Seq::empty()
    } else if s.len() >= 2 && is_edit_pair(s[0], s[1]) {
        seq![edit_change(s[0], s[1])] + classify(s.skip(2))
    } else {
        seq![single_change(s[0])] + classify(s.skip(1))
    }
}

/// The pending changes of a diff: its leaves sorted, then classified.
pub open spec fn pending_changes_spec(leaves: Seq<DiffLeaf>) -> Seq<PendingChange> {
    classify(sorted_leaves(leaves))
}

/// Appending a leaf only affects the classification of the last leaf.
#[verifier::spinoff_prover]
#[verifier::rlimit(40)]
proof fn lemma_classify_push(s: Seq<DiffLeaf>, x: DiffLeaf)
    ensures
        classify(s.push(x)) =~= if s.len() > 0 && is_edit_pair(s.last(), x) {
            classify(s).drop_last().push(edit_change(s.last(), x))
        } else {
            classify(s).push(single_change(x))
        },
    decreases s.len(),
{
    if s.len() == 0 {
        assert(s.push(x).skip(1) =~= Seq::<DiffLeaf>::empty());
    } else if s.len() == 1 {
        assert(s.push(x).skip(2) =~= Seq::<DiffLeaf>::empty());
        assert(s.push(x).skip(1) =~= seq![x]);
        assert(seq![x].skip(1) =~= Seq::<DiffLeaf>::empty());
        assert(classify(seq![x].skip(1)) =~= Seq::<PendingChange>::empty());
        assert(s.skip(1) =~= Seq::<DiffLeaf>::empty());
        assert(classify(seq![x]) =~= seq![single_change(x)]);
    } else if is_edit_pair(s[0], s[1]) {
        let r = s.skip(2);
        lemma_classify_push(r, x);
        assert(s.push(x).skip(2) =~= r.push(x));
        if r.len() == 0 {
            assert(s.last() == s[1]);
        } else {
            assert(r.last() == s.last());
            assert(r.drop_last() =~= s.drop_last().skip(2));
        }
    } else {
        let r = s.skip(1);
        lemma_classify_push(r, x);
        assert(s.push(x).skip(1) =~= r.push(x));
        assert(r.last() == s.last());
        if r.len() >= 1 {
            assert(r.drop_last() =~= s.drop_last().skip(1));
        }
    }
}

/// A sorted diff in which each key occurs at most once on each side: keys
/// strictly increase, except from a committed leaf to a working leaf of the
/// same key.
pub open spec fn well_formed_diff(s: Seq<DiffLeaf>) -> bool {
    forall|i: int, j: int|
        0 <= i < j < s.len() ==> #[trigger] s[i].key < #[trigger] s[j].key || is_edit_pair(s[i], s[j])
}

pub open spec fn has_key(s: Seq<DiffLeaf>, k: u64) -> bool {
    exists|i: int| 0 <= i < s.len() && #[trigger] s[i].key == k
}

pub open spec fn has_leaf(s: Seq<DiffLeaf>, k: u64, side: TreeDiffSide) -> bool {
    exists|i: int| 0 <= i < s.len() && #[trigger] s[i].key == k && s[i].side == side
}

pub open spec fn reports_key(out: Seq<PendingChange>, k: u64) -> bool {
    exists|m: int| 0 <= m < out.len() && #[trigger] out[m].key == k
}

/// A reported change is backed by the diff: an addition by a working leaf
/// whose key the committed index lacks, a deletion by a committed leaf whose
/// key the working index lacks, an edit by both leaves.
pub open spec fn change_justified(s: Seq<DiffLeaf>, c: PendingChange) -> bool {
    match c.change {
        ChangeType::Add { new_id } => s.contains(
            DiffLeaf { key: c.key, side: TreeDiffSide::Right, resource_id: new_id },
        ) && !has_leaf(s, c.key, TreeDiffSide::Left),
        ChangeType::Delete { old_id } => s.contains(
            DiffLeaf { key: c.key, side: TreeDiffSide::Left, resource_id: old_id },
        ) && !has_leaf(s, c.key, TreeDiffSide::Right),
        ChangeType::Edit { old_id, new_id } => s.contains(
            DiffLeaf { key: c.key, side: TreeDiffSide::Left, resource_id: old_id },
        ) && s.contains(DiffLeaf { key: c.key, side: TreeDiffSide::Right, resource_id: new_id }),
    }
}

/// The number of leaves the first change of a classification consumes.
pub open spec fn first_step(s: Seq<DiffLeaf>) -> int {
    if s.len() >= 2 && is_edit_pair(s[0], s[1]) {
        2
    } else {
        1
    }
}

proof fn lemma_classify_unfold(s: Seq<DiffLeaf>)
    requires
        s.len() > 0,
    ensures
        classify(s) =~= seq![classify(s)[0]] + classify(s.skip(first_step(s))),
        classify(s)[0].key == s[0].key,
        first_step(s) == 2 ==> classify(s)[0] == edit_change(s[0], s[1]),
        first_step(s) == 1 ==> classify(s)[0] == single_change(s[0]),
{
}

/// In a well-formed diff, the leaves after those consumed by the first
/// change form a well-formed diff whose keys are all larger.
proof fn lemma_well_formed_rest(s: Seq<DiffLeaf>)
    requires
        s.len() > 0,
        well_formed_diff(s),
    ensures
        well_formed_diff(s.skip(first_step(s))),
        forall|j: int|
            0 <= j < s.skip(first_step(s)).len() ==> s[0].key < #[trigger] s.skip(first_step(s))[j].key,
{
    let step = first_step(s);
    let rest = s.skip(step);
    assert forall|i: int, j: int| 0 <= i < j < rest.len() implies #[trigger] rest[i].key
        < #[trigger] rest[j].key || is_edit_pair(rest[i], rest[j]) by {
        assert(rest[i] == s[i + step]);
        assert(rest[j] == s[j + step]);
    }
    assert forall|j: int| 0 <= j < rest.len() implies s[0].key < #[trigger] rest[j].key by {
        assert(rest[j] == s[j + step]);
        assert(s[0].key < s[j + step].key || is_edit_pair(s[0], s[j + step]));
        if step == 2 {
            assert(s[1].key < s[j + 2].key || is_edit_pair(s[1], s[j + 2]));
        } else if j + 1 < s.len() && j > 0 {
            assert(s[0].key < s[1].key || is_edit_pair(s[0], s[1]));
            assert(s[1].key < s[j + 1].key || is_edit_pair(s[1], s[j + 1]));
        }
    }
}

/// The classification reports exactly the keys of the diff.
pub proof fn lemma_classify_keys(s: Seq<DiffLeaf>)
    ensures
        forall|m: int| 0 <= m < classify(s).len() ==> has_key(s, #[trigger] classify(s)[m].key),
        forall|i: int| 0 <= i < s.len() ==> reports_key(classify(s), #[trigger] s[i].key),
    decreases s.len(),
{
    if s.len() > 0 {
        let out = classify(s);
        let step = first_step(s);
        let rest = s.skip(step);
        let tail = classify(rest);
        lemma_classify_unfold(s);
        lemma_classify_keys(rest);
        assert forall|m: int| 0 <= m < out.len() implies has_key(s, #[trigger] out[m].key) by {
            if m == 0 {
                assert(s[0].key == out[m].key);
            } else {
                assert(out[m] == tail[m - 1]);
                assert(has_key(rest, tail[m - 1].key));
                let i = choose|i: int| 0 <= i < rest.len() && #[trigger] rest[i].key == tail[m - 1].key;
                assert(s[i + step].key == out[m].key);
            }
        }
        assert forall|i: int| 0 <= i < s.len() implies reports_key(out, #[trigger] s[i].key) by {
            if i < step {
                assert(out[0].key == s[i].key);
            } else {
                assert(rest[i - step] == s[i]);
                assert(reports_key(tail, rest[i - step].key));
                let m = choose|m: int| 0 <= m < tail.len() && #[trigger] tail[m].key == rest[i - step].key;
                assert(out[m + 1].key == s[i].key);
            }
        }
    }
}

/// On a well-formed diff, the reported keys strictly increase: no key is
/// reported twice.
pub proof fn lemma_classify_ordered(s: Seq<DiffLeaf>)
    requires
        well_formed_diff(s),
    ensures
        forall|m: int, n: int|
            0 <= m < n < classify(s).len() ==> #[trigger] classify(s)[m].key < #[trigger] classify(s)[n].key,
    decreases s.len(),
{
    if s.len() > 0 {
        let out = classify(s);
        let step = first_step(s);
        let rest = s.skip(step);
        let tail = classify(rest);
        lemma_classify_unfold(s);
        lemma_well_formed_rest(s);
        lemma_classify_ordered(rest);
        lemma_classify_keys(rest);
        assert forall|m: int, n: int| 0 <= m < n < out.len() implies #[trigger] out[m].key
            < #[trigger] out[n].key by {
            assert(out[n] == tail[n - 1]);
            assert(has_key(rest, tail[n - 1].key));
            let j = choose|j: int| 0 <= j < rest.len() && #[trigger] rest[j].key == tail[n - 1].key;
            assert(s[0].key < rest[j].key);
            if m > 0 {
                assert(out[m] == tail[m - 1]);
            }
        }
    }
}

proof fn lemma_first_change_justified(s: Seq<DiffLeaf>)
    requires
        s.len() > 0,
        well_formed_diff(s),
    ensures
        change_justified(s, classify(s)[0]),
{
    let step = first_step(s);
    let c = classify(s)[0];
    lemma_classify_unfold(s);
    assert(s.contains(s[0]));
    if step == 2 {
        assert(s.contains(s[1]));
        assert(s[0] == DiffLeaf { key: c.key, side: TreeDiffSide::Left, resource_id: s[0].resource_id });
        assert(s[1] == DiffLeaf { key: c.key, side: TreeDiffSide::Right, resource_id: s[1].resource_id });
    } else {
        assert forall|i: int| 0 <= i < s.len() && i > 0 implies #[trigger] s[i].key != s[0].key
            || s[i].side == s[0].side by {
            assert(s[0].key < s[i].key || is_edit_pair(s[0], s[i]));
            if i > 1 && is_edit_pair(s[0], s[i]) {
                assert(s[0].key < s[1].key || is_edit_pair(s[0], s[1]));
                assert(s[1].key < s[i].key || is_edit_pair(s[1], s[i]));
            }
        }
        match s[0].side {
            TreeDiffSide::Left => {
                assert(s[0] == DiffLeaf { key: c.key, side: TreeDiffSide::Left, resource_id: s[0].resource_id });
                assert forall|i: int| 0 <= i < s.len() implies !(#[trigger] s[i].key == c.key
                    && s[i].side == TreeDiffSide::Right) by {}
            },
            TreeDiffSide::Right => {
                assert(s[0] == DiffLeaf { key: c.key, side: TreeDiffSide::Right, resource_id: s[0].resource_id });
                assert forall|i: int| 0 <= i < s.len() implies !(#[trigger] s[i].key == c.key
                    && s[i].side == TreeDiffSide::Left) by {}
            },
        }
    }
}

/// On a well-formed diff, each reported change is backed by the leaves of
/// its key.
pub proof fn lemma_classify_justified(s: Seq<DiffLeaf>)
    requires
        well_formed_diff(s),
    ensures
        forall|m: int| 0 <= m < classify(s).len() ==> change_justified(s, #[trigger] classify(s)[m]),
    decreases s.len(),
{
    if s.len() > 0 {
        let out = classify(s);
        let step = first_step(s);
        let rest = s.skip(step);
        let tail = classify(rest);
        lemma_classify_unfold(s);
        lemma_well_formed_rest(s);
        lemma_classify_justified(rest);
        lemma_classify_keys(rest);
        lemma_first_change_justified(s);
        assert forall|m: int| 0 <= m < out.len() implies change_justified(s, #[trigger] out[m]) by {
            if m > 0 {
                let c = out[m];
                assert(c == tail[m - 1]);
                assert(change_justified(rest, c));
                assert(has_key(rest, c.key));
                let j = choose|j: int| 0 <= j < rest.len() && #[trigger] rest[j].key == c.key;
                assert(s[0].key < c.key);
                if step == 2 {
                    assert(s[1].key == s[0].key);
                }
                assert forall|x: DiffLeaf| rest.contains(x) implies s.contains(x) by {
                    let p = choose|p: int| 0 <= p < rest.len() && rest[p] == x;
                    assert(s[p + step] == x);
                }
                assert forall|side: TreeDiffSide| !has_leaf(rest, c.key, side) implies !has_leaf(
                    s,
                    c.key,
                    side,
                ) by {
                    assert forall|i: int| 0 <= i < s.len() implies !(#[trigger] s[i].key == c.key
                        && s[i].side == side) by {
                        if i >= step {
                            assert(rest[i - step] == s[i]);
                        }
                    }
                }
            }
        }
    }
}

/// Each key occurs at most once on each side of the diff.
pub open spec fn distinct_key_sides(s: Seq<DiffLeaf>) -> bool {
    forall|i: int, j: int|
        0 <= i < j < s.len() ==> !(#[trigger] s[i].key == #[trigger] s[j].key && s[i].side == s[j].side)
}

/// Sequences with the same elements agree on membership, keys and leaves.
proof fn lemma_same_elements(a: Seq<DiffLeaf>, b: Seq<DiffLeaf>)
    requires
        a.to_multiset() =~= b.to_multiset(),
    ensures
        forall|x: DiffLeaf| a.contains(x) <==> b.contains(x),
        forall|k: u64| has_key(a, k) <==> has_key(b, k),
        forall|k: u64, side: TreeDiffSide| has_leaf(a, k, side) <==> has_leaf(b, k, side),
{
    a.to_multiset_ensures();
    b.to_multiset_ensures();
    assert forall|x: DiffLeaf| a.contains(x) <==> b.contains(x) by {
        assert(a.contains(x) <==> a.to_multiset().count(x) > 0);
        assert(b.contains(x) <==> b.to_multiset().count(x) > 0);
    }
    assert forall|k: u64| has_key(a, k) implies has_key(b, k) by {
        let i = choose|i: int| 0 <= i < a.len() && #[trigger] a[i].key == k;
        assert(a.contains(a[i]));
        assert(a.to_multiset().count(a[i]) > 0);
        assert(b.contains(a[i]));
        let j = choose|j: int| 0 <= j < b.len() && b[j] == a[i];
        assert(b[j].key == k);
    }
    assert forall|k: u64| has_key(b, k) implies has_key(a, k) by {
        let i = choose|i: int| 0 <= i < b.len() && #[trigger] b[i].key == k;
        assert(b.contains(b[i]));
        assert(b.to_multiset().count(b[i]) > 0);
        assert(a.contains(b[i]));
        let j = choose|j: int| 0 <= j < a.len() && a[j] == b[i];
        assert(a[j].key == k);
    }
    assert forall|k: u64, side: TreeDiffSide| has_leaf(a, k, side) implies has_leaf(b, k, side) by {
        let i = choose|i: int| 0 <= i < a.len() && #[trigger] a[i].key == k && a[i].side == side;
        assert(a.contains(a[i]));
        assert(a.to_multiset().count(a[i]) > 0);
        assert(b.contains(a[i]));
        let j = choose|j: int| 0 <= j < b.len() && b[j] == a[i];
        assert(b[j].key == k);
    }
    assert forall|k: u64, side: TreeDiffSide| has_leaf(b, k, side) implies has_leaf(a, k, side) by {
        let i = choose|i: int| 0 <= i < b.len() && #[trigger] b[i].key == k && b[i].side == side;
        assert(b.contains(b[i]));
        assert(b.to_multiset().count(b[i]) > 0);
        assert(a.contains(b[i]));
        let j = choose|j: int| 0 <= j < a.len() && a[j] == b[i];
        assert(a[j].key == k);
    }
}

/// An element occurring at two positions occurs at least twice.
proof fn lemma_two_positions_count(s: Seq<DiffLeaf>, i: int, j: int)
    requires
        0 <= i < j < s.len(),
        s[i] == s[j],
    ensures
        s.to_multiset().count(s[i]) >= 2,
{
    s.to_multiset_ensures();
    let r = s.remove(i);
    r.to_multiset_ensures();
    assert(r[j - 1] == s[j]);
    assert(r.contains(s[i]));
    assert(r.to_multiset().count(s[i]) > 0);
    assert(r.to_multiset() =~= s.to_multiset().remove(s[i]));
    assert(s.to_multiset().count(s[i]) > 0);
}

/// An element occurring at least twice occurs at two positions.
proof fn lemma_count_two_positions(s: Seq<DiffLeaf>, x: DiffLeaf) -> (r: (int, int))
    requires
        s.to_multiset().count(x) >= 2,
    ensures
        0 <= r.0 < r.1 < s.len(),
        s[r.0] == x,
        s[r.1] == x,
{
    s.to_multiset_ensures();
    assert(s.to_multiset().count(x) > 0);
    assert(s.contains(x));
    let p = choose|p: int| 0 <= p < s.len() && s[p] == x;
    let t = s.remove(p);
    t.to_multiset_ensures();
    assert(t.to_multiset() =~= s.to_multiset().remove(x));
    assert(t.to_multiset().count(x) > 0);
    assert(t.contains(x));
    let q = choose|q: int| 0 <= q < t.len() && t[q] == x;
    if q < p {
        assert(s[q] == x);
        (q, p)
    } else {
        assert(s[q + 1] == x);
        (p, q + 1)
    }
}

/// Sorting a diff in which each key occurs at most once per side yields a
/// well-formed diff.
proof fn lemma_sorted_well_formed(leaves: Seq<DiffLeaf>)
    requires
        distinct_key_sides(leaves),
    ensures
        well_formed_diff(sorted_leaves(leaves)),
{
    lemma_leaf_order_total();
    leaves.lemma_sort_by_ensures(leaf_order());
    let s = sorted_leaves(leaves);
    leaves.to_multiset_ensures();
    s.to_multiset_ensures();
    assert forall|i: int, j: int| 0 <= i < j < s.len() implies #[trigger] s[i].key < #[trigger] s[j].key
        || is_edit_pair(s[i], s[j]) by {
        assert(leaf_order()(s[i], s[j]));
        if s[i].key == s[j].key && s[i].side == s[j].side {
            if s[i] == s[j] {
                lemma_two_positions_count(s, i, j);
                let (p, q) = lemma_count_two_positions(leaves, s[i]);
                assert(leaves[p].key == leaves[q].key);
            } else {
                assert(s.contains(s[i]) && s.contains(s[j]));
                let p = choose|p: int| 0 <= p < leaves.len() && leaves[p] == s[i];
                let q = choose|q: int| 0 <= q < leaves.len() && leaves[q] == s[j];
                if p < q {
                    assert(leaves[p].key == leaves[q].key);
                } else {
                    assert(leaves[q].key == leaves[p].key);
                }
            }
        }
    }
}

/// The pending changes of a diff in which each key occurs at most once per
/// side report every key of the diff exactly once, in increasing key order:
/// an edit where the key is on both sides, an addition where it is only in
/// the working index, a deletion where it is only in the committed index;
/// and they report no key that the diff lacks.
pub proof fn lemma_pending_changes_correct(leaves: Seq<DiffLeaf>)
    requires
        distinct_key_sides(leaves),
    ensures
        forall|m: int|
            0 <= m < pending_changes_spec(leaves).len() ==> has_key(
                leaves,
                #[trigger] pending_changes_spec(leaves)[m].key,
            ),
        forall|i: int| 0 <= i < leaves.len() ==> reports_key(pending_changes_spec(leaves), #[trigger] leaves[i].key),
        forall|m: int, n: int|
            0 <= m < n < pending_changes_spec(leaves).len() ==> #[trigger] pending_changes_spec(leaves)[m].key
                < #[trigger] pending_changes_spec(leaves)[n].key,
        forall|m: int|
            0 <= m < pending_changes_spec(leaves).len() ==> change_justified(
                leaves,
                #[trigger] pending_changes_spec(leaves)[m],
            ),
{
    lemma_leaf_order_total();
    leaves.lemma_sort_by_ensures(leaf_order());
    let s = sorted_leaves(leaves);
    let out = pending_changes_spec(leaves);
    lemma_sorted_well_formed(leaves);
    lemma_classify_keys(s);
    lemma_classify_ordered(s);
    lemma_classify_justified(s);
    lemma_same_elements(s, leaves);
    assert forall|i: int| 0 <= i < leaves.len() implies reports_key(out, #[trigger] leaves[i].key) by {
        assert(has_key(leaves, leaves[i].key));
        assert(has_key(s, leaves[i].key));
        let j = choose|j: int| 0 <= j < s.len() && #[trigger] s[j].key == leaves[i].key;
        assert(reports_key(out, s[j].key));
    }
    assert forall|m: int| 0 <= m < out.len() implies change_justified(leaves, #[trigger] out[m]) by {
        assert(change_justified(s, out[m]));
    }
}

/// Computes the pending changes from diff leaves already in sorted order,
/// in one pass that remembers the previous leaf.
pub fn changes_from_sorted_leaves(leaves: &Vec<DiffLeaf>) -> (r: Vec<PendingChange>)
    ensures
        r@ == classify(leaves@),
{
    let mut changes: Vec<PendingChange> = Vec::new();
    let n = leaves.len();
    if n == 0 {
        return changes;
    }
    let mut previous = leaves[0];
    if previous.side == TreeDiffSide::Right {
        changes.push(PendingChange { key: previous.key, change: ChangeType::Add { new_id: previous.resource_id } });
    }
    proof {
        assert(leaves@.take(1) =~= Seq::<DiffLeaf>::empty().push(leaves@[0]));
        lemma_classify_push(Seq::<DiffLeaf>::empty(), leaves@[0]);
    }
    let mut i: usize = 1;
    while i < n
        invariant
            1 <= i <= n,
            n == leaves.len(),
            previous == leaves@[i - 1],
            previous.side == TreeDiffSide::Left ==> classify(leaves@.take(i as int)) =~= changes@.push(single_change(previous)),
            previous.side == TreeDiffSide::Right ==> classify(leaves@.take(i as int)) =~= changes@,
        decreases n - i,
    {
        let current = leaves[i];
        let ghost prefix = leaves@.take(i as int);
        proof {
            assert(leaves@.take(i + 1) =~= prefix.push(current));
            lemma_classify_push(prefix, current);
            assert(prefix.last() == previous);
        }
        if current.side == TreeDiffSide::Right {
            if previous.side == TreeDiffSide::Left {
                if current.key == previous.key {
                    changes.push(PendingChange {
                        key: previous.key,
                        change: ChangeType::Edit { old_id: previous.resource_id, new_id: current.resource_id },
                    });
                } else {
                    changes.push(PendingChange { key: previous.key, change: ChangeType::Delete { old_id: previous.resource_id } });
                    changes.push(PendingChange { key: current.key, change: ChangeType::Add { new_id: current.resource_id } });
                }
            } else {
                changes.push(PendingChange { key: current.key, change: ChangeType::Add { new_id: current.resource_id } });
            }
        } else {
            if previous.side == TreeDiffSide::Left {
                changes.push(PendingChange { key: previous.key, change: ChangeType::Delete { old_id: previous.resource_id } });
            }
        }
        previous = current;
        i = i + 1;
    }
    if previous.side == TreeDiffSide::Left {
        changes.push(PendingChange { key: previous.key, change: ChangeType::Delete { old_id: previous.resource_id } });
    }
    proof {
        assert(leaves@.take(n as int) =~= leaves@);
    }
    changes
}

/// Lists the changes between the committed index and the working index from
/// the leaves of their diff, in key order: an index key found on both sides
/// is an edit, one found only in the working index an addition and one found
/// only in the committed index a deletion.
pub fn get_pending_changes(leaves: &Vec<DiffLeaf>) -> (r: Vec<PendingChange>)
    ensures
        r@ == pending_changes_spec(leaves@),
{
    let sorted = sort_leaves(leaves);
    changes_from_sorted_leaves(&sorted)
}

/// A leaf node of an index tree: a resource, or the root of another tree,
/// which a diff of two indices must not meet.
#[derive(Debug, Clone, Copy, PartialEq, Eq, Structural)]
pub enum TreeLeafNode {
    Resource(u64),
    TreeRoot(u64),
}

/// Errors of the indexer.
#[derive(Debug, Clone, PartialEq, Eq)]
pub enum IndexingError {
    /// The tree does not have the shape of an index.
    CorruptedTree(String),
    /// Any other failure, with its message.
    Other(String),
}

/// A leaf as the diff of two index trees hands it out: its key and side,
/// and the node read there or the error reading it.
#[derive(Debug)]
pub struct RawDiffLeaf {
    pub key: u64,
    pub side: TreeDiffSide,
    pub leaf: Result<TreeLeafNode, IndexingError>,
}

/// Whether a raw leaf holds a resource.
pub open spec fn holds_resource(l: RawDiffLeaf) -> bool {
    l.leaf matches Ok(TreeLeafNode::Resource(_))
}

/// The index of the first raw leaf that holds no resource, if any.
pub open spec fn first_bad_leaf(raw: Seq<RawDiffLeaf>) -> Option<int>
    decreases raw.len(),
{
    if raw.len() == 0 {
        None
    } else {
        match first_bad_leaf(raw.drop_last()) {
            Some(i) => Some(i),
            None => if holds_resource(raw.last()) {
                None
            } else {
                Some(raw.len() - 1)
            },
        }
    }
}

/// The error a raw leaf that holds no resource gives: an error read there
/// is passed on, and a tree root is a corrupted tree.
pub open spec fn leaf_error_is(l: RawDiffLeaf, e: IndexingError) -> bool {
    match l.leaf {
        Ok(TreeLeafNode::TreeRoot(_)) => e matches IndexingError::CorruptedTree(m) && m@
            == "found unexpected tree-root node"@,
        Ok(TreeLeafNode::Resource(_)) => false,
        Err(IndexingError::CorruptedTree(m0)) => e matches IndexingError::CorruptedTree(m) && m@ == m0@,
        Err(IndexingError::Other(m0)) => e matches IndexingError::Other(m) && m@ == m0@,
    }
}

/// The diff leaf of a raw leaf that holds a resource.
pub open spec fn diff_leaf_of(l: RawDiffLeaf) -> DiffLeaf {
    DiffLeaf {
        key: l.key,
        side: l.side,
        resource_id: match l.leaf {
            Ok(TreeLeafNode::Resource(id)) => id,
            _ => 0,
        },
    }
}

fn leaf_error(l: &RawDiffLeaf) -> (r: IndexingError)
    requires
        !holds_resource(*l),
    ensures
        leaf_error_is(*l, r),
{
    match &l.leaf {
        Ok(TreeLeafNode::TreeRoot(_)) => IndexingError::CorruptedTree(
            String::from_str("found unexpected tree-root node"),
        ),
        Ok(TreeLeafNode::Resource(_)) => IndexingError::Other(String::new()),
        Err(IndexingError::CorruptedTree(m)) => IndexingError::CorruptedTree(m.clone()),
        Err(IndexingError::Other(m)) => IndexingError::Other(m.clone()),
    }
}

/// The diff leaves of the raw leaves of a diff, in their order; the first
/// leaf that holds no resource stops it with its error.
pub fn resource_leaves(raw: &Vec<RawDiffLeaf>) -> (r: Result<Vec<DiffLeaf>, IndexingError>)
    ensures
        first_bad_leaf(raw@) is None ==> (r matches Ok(v) && v@ == raw@.map_values(|l: RawDiffLeaf| diff_leaf_of(l))),
        first_bad_leaf(raw@) matches Some(i) ==> (r matches Err(e) && leaf_error_is(raw@[i], e)),
{
    let mut leaves: Vec<DiffLeaf> = Vec::new();
    let n = raw.len();
    for i in 0..n
        invariant
            n == raw@.len(),
            first_bad_leaf(raw@.take(i as int)) is None,
            leaves@ == raw@.take(i as int).map_values(|l: RawDiffLeaf| diff_leaf_of(l)),
    {
        proof {
            assert(raw@.take(i + 1).drop_last() =~= raw@.take(i as int));
            assert(raw@.take(i + 1).last() == raw@[i as int]);
        }
        let l = &raw[i];
        match &l.leaf {
            Ok(TreeLeafNode::Resource(id)) => {
                leaves.push(DiffLeaf { key: l.key, side: l.side, resource_id: *id });
                proof {
                    assert(leaves@ =~= raw@.take(i + 1).map_values(|l: RawDiffLeaf| diff_leaf_of(l)));
                }
            },
            _ => {
                proof {
                    assert(first_bad_leaf(raw@.take(i + 1)) == Some(i as int));
                    lemma_first_bad_prefix(raw@, i + 1);
                }
                return Err(leaf_error(l));
            },
        }
    }
    proof {
        assert(raw@.take(n as int) =~= raw@);
    }
    Ok(leaves)
}

proof fn lemma_first_bad_prefix(raw: Seq<RawDiffLeaf>, k: int)
    requires
        0 <= k <= raw.len(),
        first_bad_leaf(raw.take(k)) is Some,
    ensures
        first_bad_leaf(raw) == first_bad_leaf(raw.take(k)),
    decreases raw.len() - k,
{
    if k < raw.len() {
        assert(raw.take(k + 1).drop_last() =~= raw.take(k));
        lemma_first_bad_prefix(raw, k + 1);
    } else {
        assert(raw.take(k) =~= raw);
    }
}

/// The pending changes from the raw leaves of the diff of the committed and
/// the working main index: the error of the first leaf that holds no
/// resource (a tree root makes the tree corrupted), else the changes of
/// `get_pending_changes`.
pub fn pending_changes_from_diff(raw: &Vec<RawDiffLeaf>) -> (r: Result<Vec<PendingChange>, IndexingError>)
    ensures
        first_bad_leaf(raw@) is None ==> (r matches Ok(v) && v@ == pending_changes_spec(
            raw@.map_values(|l: RawDiffLeaf| diff_leaf_of(l)),
        )),
        first_bad_leaf(raw@) matches Some(i) ==> (r matches Err(e) && leaf_error_is(raw@[i], e)),
{
    let leaves = resource_leaves(raw)?;
    Ok(get_pending_changes(&leaves))
}

} // verus!

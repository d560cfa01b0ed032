use vstd::prelude::*;
use vstd::string::StrSliceExecFns;

use crate::error::BranchError;
use crate::fs_path::str_eq;

verus! {

/// Lifecycle state of one branch.
#[derive(Debug, Clone, Copy, PartialEq, Eq, Structural)]
pub enum BranchState {
    /// Live and mutable.
    Active,
    /// Changes folded into the parent or otherwise finalized; no further
    /// writes expected.
    Committed,
    /// Unusable, e.g. the underlying copy failed.
    Invalid,
}

/// Everything recorded about one branch.
#[derive(Debug, Clone, PartialEq, Eq)]
pub struct BranchInfo {
    /// Name of the branch this one was created from; the branch holds only
    /// the identifier, never a live handle. Absent only for the default
    /// branch.
    pub parent: Option<String>,
    pub state: BranchState,
}

/// `BranchInfo` with the parent name as a character sequence.
pub struct BranchInfoView {
    pub parent: Option<Seq<char>>,
    pub state: BranchState,
}

impl View for BranchInfo {
    type V = BranchInfoView;

    open spec fn view(&self) -> BranchInfoView {
        BranchInfoView {
            parent: match self.parent {
                Option::Some(p) => Option::Some(p@),
                Option::None => Option::None,
            },
            state: self.state,
        }
    }
}

/// The root aggregate: the whole persisted branch universe. Mutated only by
/// the lifecycle operations below; loaded and saved as an atomic whole.
#[derive(Debug, Clone, PartialEq)]
pub struct State {
    /// Real on-disk root the whole branch universe is rooted at.
    pub base_path: String,
    /// Real on-disk root of the currently-active default view.
    pub workspace_path: String,
    /// Every branch by name. Names are unique; their order carries no
    /// meaning.
    pub branches: Vec<(String, BranchInfo)>,
    /// Monotonic counter, incremented on every structural change, used to
    /// detect staleness across restarts and concurrent writers.
    pub epoch: u64,
}

/// `State` over character sequences.
pub struct StateView {
    pub base_path: Seq<char>,
    pub workspace_path: Seq<char>,
    pub branches: Seq<(Seq<char>, BranchInfoView)>,
    pub epoch: u64,
}

/// The branch table of an executable `State`, over character sequences.
pub open spec fn br_view(b: Seq<(String, BranchInfo)>) -> Seq<(Seq<char>, BranchInfoView)> {
    b.map_values(|p: (String, BranchInfo)| (p.0@, p.1@))
}

impl View for State {
    type V = StateView;

    open spec fn view(&self) -> StateView {
        StateView {
            base_path: self.base_path@,
            workspace_path: self.workspace_path@,
            branches: br_view(self.branches@),
            epoch: self.epoch,
        }
    }
}

/// Name of the conventional default branch.
pub open spec fn default_branch() -> Seq<char> {
    "main"@
}

/// Is `name` a key of `br`?
pub open spec fn br_has(br: Seq<(Seq<char>, BranchInfoView)>, name: Seq<char>) -> bool {
    exists|i: int| 0 <= i < br.len() && br[i].0 == name
}

/// The index of `name` in `br`; meaningful only when the keys are unique
/// and `br_has(br, name)` holds.
pub open spec fn br_index(br: Seq<(Seq<char>, BranchInfoView)>, name: Seq<char>) -> int {
    choose|i: int| 0 <= i < br.len() && br[i].0 == name
}

/// No branch name occurs twice.
pub open spec fn keys_unique(br: Seq<(Seq<char>, BranchInfoView)>) -> bool {
    forall|i: int, j: int| 0 <= i < j < br.len() ==> br[i].0 != br[j].0
}

/// Every parent reference names a present branch.
pub open spec fn parents_resolve(br: Seq<(Seq<char>, BranchInfoView)>) -> bool {
    forall|i: int| #![trigger br[i]] 0 <= i < br.len() ==> match br[i].1.parent {
        Option::Some(p) => br_has(br, p),
        Option::None => true,
    }
}

/// Well-formedness of the branch table: unique names, the default branch
/// present and parentless, and no dangling parent reference.
pub open spec fn branches_wf(br: Seq<(Seq<char>, BranchInfoView)>) -> bool {
    &&& keys_unique(br)
    &&& br_has(br, default_branch())
    &&& br[br_index(br, default_branch())].1.parent is None
    &&& parents_resolve(br)
}

impl StateView {
    /// Invariant of the whole aggregate.
    pub open spec fn wf(self) -> bool {
        branches_wf(self.branches)
    }
}

/// What `create` does: a fresh Active branch derived from `parent`, refused
/// when the name is taken or the parent is unknown.
pub open spec fn spec_create(v: StateView, name: Seq<char>, parent: Seq<char>) -> Result<
    StateView,
    BranchError,
> {
    if br_has(v.branches, name) {
        Err(BranchError::AlreadyExists)
    } else if !br_has(v.branches, parent) {
        Err(BranchError::UnknownParent)
    } else {
        Ok(
            StateView {
                branches: v.branches.push(
                    (
                        name,
                        BranchInfoView {
                            parent: Option::Some(parent),
                            state: BranchState::Active,
                        },
                    ),
                ),
                epoch: (v.epoch + 1) as u64,
                ..v
            },
        )
    }
}

/// What `commit` does: Active becomes Committed; refused as `NotFound` for
/// an unknown name and as `InvalidState` from any state but Active.
pub open spec fn spec_commit(v: StateView, name: Seq<char>) -> Result<StateView, BranchError> {
    if !br_has(v.branches, name) {
        Err(BranchError::NotFound)
    } else {
        let i = br_index(v.branches, name);
        if v.branches[i].1.state != BranchState::Active {
            Err(BranchError::InvalidState)
        } else {
            Ok(
                StateView {
                    branches: v.branches.update(
                        i,
                        (
                            name,
                            BranchInfoView {
                                parent: v.branches[i].1.parent,
                                state: BranchState::Committed,
                            },
                        ),
                    ),
                    epoch: (v.epoch + 1) as u64,
                    ..v
                },
            )
        }
    }
}

/// What `invalidate` does: any state becomes Invalid, except that the
/// default branch is protected (`InvalidState`) and an unknown name is
/// `NotFound`.
pub open spec fn spec_invalidate(v: StateView, name: Seq<char>) -> Result<StateView, BranchError> {
    if !br_has(v.branches, name) {
        Err(BranchError::NotFound)
    } else if name == default_branch() {
        Err(BranchError::InvalidState)
    } else {
        let i = br_index(v.branches, name);
        Ok(
            StateView {
                branches: v.branches.update(
                    i,
                    (
                        name,
                        BranchInfoView {
                            parent: v.branches[i].1.parent,
                            state: BranchState::Invalid,
                        },
                    ),
                ),
                epoch: (v.epoch + 1) as u64,
                ..v
            },
        )
    }
}

/// What `delete` does: the entry is removed entirely; refused as `NotFound`
/// for an unknown name, as `DanglingReference` while any branch still names
/// it as parent, and as `InvalidState` for the default branch.
pub open spec fn spec_delete(v: StateView, name: Seq<char>) -> Result<StateView, BranchError> {
    if !br_has(v.branches, name) {
        Err(BranchError::NotFound)
    } else if exists|i: int|
        #![trigger v.branches[i]]
        0 <= i < v.branches.len() && v.branches[i].1.parent == Option::Some(name) {
        Err(BranchError::DanglingReference)
    } else if name == default_branch() {
        Err(BranchError::InvalidState)
    } else {
        Ok(
            StateView {
                branches: v.branches.remove(br_index(v.branches, name)),
                epoch: (v.epoch + 1) as u64,
                ..v
            },
        )
    }
}

/// `delete` refuses, with `DanglingReference`, any branch that some branch
/// still references as its parent — dangling-parent prevention, whichever
/// branch is asked for and whatever its own state.
pub proof fn lemma_delete_dangling(v: StateView, name: Seq<char>, child: int)
    requires
        v.wf(),
        0 <= child < v.branches.len(),
        v.branches[child].1.parent == Option::Some(name),
    ensures
        spec_delete(v, name) == Err::<StateView, BranchError>(BranchError::DanglingReference),
{
    assert(br_has(v.branches, name));
}

impl State {
    /// A fresh universe: only the default branch, parentless and Active,
    /// at epoch zero.
    pub fn new(base_path: String, workspace_path: String) -> (r: State)
        ensures
            r@.base_path == base_path@,
            r@.workspace_path == workspace_path@,
            r@.epoch == 0,
            r@.branches =~= seq![
                (
                    default_branch(),
                    BranchInfoView { parent: Option::None, state: BranchState::Active },
                ),
            ],
            r@.wf(),
    {
        let mut branches: Vec<(String, BranchInfo)> = Vec::new();
        branches.push(
            ("main".to_owned(), BranchInfo { parent: Option::None, state: BranchState::Active }),
        );
        let r = State { base_path, workspace_path, branches, epoch: 0 };
        proof {
            assert(r@.branches =~= seq![
                (
                    default_branch(),
                    BranchInfoView { parent: Option::None, state: BranchState::Active },
                ),
            ]);
            assert(r@.branches[0].0 == default_branch());
            assert(br_index(r@.branches, default_branch()) == 0);
        }
        r
    }

    /// Index of `name` in the branch table, if present.
    pub fn find_branch(&self, name: &str) -> (r: Option<usize>)
        ensures
            match r {
                Some(i) => i < self@.branches.len() && self@.branches[i as int].0 == name@,
                None => !br_has(self@.branches, name@),
            },
    {
        let n = self.branches.len();
        let mut i: usize = 0;
        while i < n
            invariant
                i <= n,
                n == self@.branches.len(),
                forall|j: int| 0 <= j < i ==> self@.branches[j].0 != name@,
            decreases n - i,
        {
            if str_eq(self.branches[i].0.as_str(), name) {
                return Some(i);
            }
            i += 1;
        }
        None
    }

    /// Create branch `name` derived from `parent`.
    pub fn create(&mut self, name: &str, parent: &str) -> (r: Result<(), BranchError>)
        requires
            old(self)@.wf(),
            old(self).epoch < u64::MAX,
        ensures
            final(self)@.wf(),
            match spec_create(old(self)@, name@, parent@) {
                Ok(v) => r == Ok::<(), BranchError>(()) && final(self)@ == v,
                Err(e) => r == Err::<(), BranchError>(e) && final(self)@ == old(self)@,
            },
    {
        if self.find_branch(name).is_some() {
            return Err(BranchError::AlreadyExists);
        }
        if self.find_branch(parent).is_none() {
            return Err(BranchError::UnknownParent);
        }
        self.branches.push(
            (
                name.to_owned(),
                BranchInfo { parent: Option::Some(parent.to_owned()), state: BranchState::Active },
            ),
        );
        self.epoch = self.epoch + 1;
        proof {
            let old_br = old(self)@.branches;
            let new_br = self@.branches;
            assert(new_br =~= old_br.push(
                (
                    name@,
                    BranchInfoView { parent: Option::Some(parent@), state: BranchState::Active },
                ),
            ));
            lemma_wf_push(old_br, name@, parent@);
            assert(self@ == spec_create(old(self)@, name@, parent@).unwrap());
        }
        Ok(())
    }

    /// Commit branch `name`.
    pub fn commit(&mut self, name: &str) -> (r: Result<(), BranchError>)
        requires
            old(self)@.wf(),
            old(self).epoch < u64::MAX,
        ensures
            final(self)@.wf(),
            match spec_commit(old(self)@, name@) {
                Ok(v) => r == Ok::<(), BranchError>(()) && final(self)@ == v,
                Err(e) => r == Err::<(), BranchError>(e) && final(self)@ == old(self)@,
            },
    {
        let i = match self.find_branch(name) {
            Some(i) => i,
            None => {
                return Err(BranchError::NotFound);
            },
        };
        proof {
            lemma_found_is_index(old(self)@.branches, name@, i as int);
        }
        if !matches!(self.branches[i].1.state, BranchState::Active) {
            return Err(BranchError::InvalidState);
        }
        self.branches[i].1.state = BranchState::Committed;
        self.epoch = self.epoch + 1;
        proof {
            let old_br = old(self)@.branches;
            let upd = (
                name@,
                BranchInfoView {
                    parent: old_br[i as int].1.parent,
                    state: BranchState::Committed,
                },
            );
            assert(self@.branches =~= old_br.update(i as int, upd));
            lemma_wf_update(old_br, i as int, upd);
            assert(self@ == spec_commit(old(self)@, name@).unwrap());
        }
        Ok(())
    }

    /// Invalidate branch `name`.
    pub fn invalidate(&mut self, name: &str) -> (r: Result<(), BranchError>)
        requires
            old(self)@.wf(),
            old(self).epoch < u64::MAX,
        ensures
            final(self)@.wf(),
            match spec_invalidate(old(self)@, name@) {
                Ok(v) => r == Ok::<(), BranchError>(()) && final(self)@ == v,
                Err(e) => r == Err::<(), BranchError>(e) && final(self)@ == old(self)@,
            },
    {
        let i = match self.find_branch(name) {
            Some(i) => i,
            None => {
                return Err(BranchError::NotFound);
            },
        };
        if str_eq(name, "main") {
            return Err(BranchError::InvalidState);
        }
        proof {
            lemma_found_is_index(old(self)@.branches, name@, i as int);
        }
        self.branches[i].1.state = BranchState::Invalid;
        self.epoch = self.epoch + 1;
        proof {
            let old_br = old(self)@.branches;
            let upd = (
                name@,
                BranchInfoView { parent: old_br[i as int].1.parent, state: BranchState::Invalid },
            );
            assert(self@.branches =~= old_br.update(i as int, upd));
            lemma_wf_update(old_br, i as int, upd);
            assert(self@ == spec_invalidate(old(self)@, name@).unwrap());
        }
        Ok(())
    }

    /// Delete branch `name` outright.
    pub fn delete(&mut self, name: &str) -> (r: Result<(), BranchError>)
        requires
            old(self)@.wf(),
            old(self).epoch < u64::MAX,
        ensures
            final(self)@.wf(),
            match spec_delete(old(self)@, name@) {
                Ok(v) => r == Ok::<(), BranchError>(()) && final(self)@ == v,
                Err(e) => r == Err::<(), BranchError>(e) && final(self)@ == old(self)@,
            },
    {
        let i = match self.find_branch(name) {
            Some(i) => i,
            None => {
                return Err(BranchError::NotFound);
            },
        };
        if self.some_parent_is(name) {
            return Err(BranchError::DanglingReference);
        }
        if str_eq(name, "main") {
            return Err(BranchError::InvalidState);
        }
        proof {
            lemma_found_is_index(old(self)@.branches, name@, i as int);
        }
        self.branches.remove(i);
        self.epoch = self.epoch + 1;
        proof {
            let old_br = old(self)@.branches;
            assert(self@.branches =~= old_br.remove(i as int));
            lemma_wf_remove(old_br, i as int);
            assert(self@ == spec_delete(old(self)@, name@).unwrap());
        }
        Ok(())
    }

    /// Does any branch name `name` as its parent?
    fn some_parent_is(&self, name: &str) -> (r: bool)
        ensures
            r == exists|i: int|
                #![trigger self@.branches[i]]
                0 <= i < self@.branches.len() && self@.branches[i].1.parent == Option::Some(
                    name@,
                ),
    {
        let n = self.branches.len();
        let mut i: usize = 0;
        while i < n
            invariant
                i <= n,
                n == self@.branches.len(),
                forall|j: int|
                    #![trigger self@.branches[j]]
                    0 <= j < i ==> self@.branches[j].1.parent != Option::Some(name@),
            decreases n - i,
        {
            match &self.branches[i].1.parent {
                Option::Some(p) => {
                    if str_eq(p.as_str(), name) {
                        proof {
                            assert(self@.branches[i as int].1.parent == Option::Some(name@));
                        }
                        return true;
                    }
                },
                Option::None => {},
            }
            i += 1;
        }
        false
    }

    /// Does this aggregate satisfy its invariant? `decode` relies on this
    /// to refuse a malformed document.
    pub fn is_wf(&self) -> (r: bool)
        ensures
            r == self@.wf(),
    {
        let n = self.branches.len();
        let mut i: usize = 0;
        while i < n
            invariant
                i <= n,
                n == self@.branches.len(),
                forall|x: int, y: int|
                    0 <= x < y < n && x < i ==> self@.branches[x].0 != self@.branches[y].0,
            decreases n - i,
        {
            let mut j: usize = i + 1;
            while j < n
                invariant
                    i < j <= n,
                    n == self@.branches.len(),
                    forall|y: int| i < y < j ==> self@.branches[i as int].0 != self@.branches[y].0,
                decreases n - j,
            {
                if str_eq(self.branches[i].0.as_str(), self.branches[j].0.as_str()) {
                    proof {
                        assert(self@.branches[i as int].0 == self@.branches[j as int].0);
                        assert(!keys_unique(self@.branches));
                    }
                    return false;
                }
                j += 1;
            }
            i += 1;
        }
        assert(keys_unique(self@.branches));
        let d = match self.find_branch("main") {
            Some(d) => d,
            None => {
                return false;
            },
        };
        proof {
            lemma_found_is_index(self@.branches, default_branch(), d as int);
        }
        if self.branches[d].1.parent.is_some() {
            return false;
        }
        let mut i: usize = 0;
        while i < n
            invariant
                i <= n,
                n == self@.branches.len(),
                forall|j: int|
                    #![trigger self@.branches[j]]
                    0 <= j < i ==> match self@.branches[j].1.parent {
                        Option::Some(p) => br_has(self@.branches, p),
                        Option::None => true,
                    },
            decreases n - i,
        {
            match &self.branches[i].1.parent {
                Option::Some(p) => {
                    if self.find_branch(p.as_str()).is_none() {
                        proof {
                            assert(self@.branches[i as int].1.parent == Option::Some(p@));
                            assert(!parents_resolve(self@.branches));
                        }
                        return false;
                    }
                },
                Option::None => {},
            }
            i += 1;
        }
        true
    }
}

/// With unique keys, any position holding `name` is the chosen index.
pub proof fn lemma_found_is_index(br: Seq<(Seq<char>, BranchInfoView)>, name: Seq<char>, i: int)
    requires
        keys_unique(br),
        0 <= i < br.len(),
        br[i].0 == name,
    ensures
        br_index(br, name) == i,
{
    assert(br_has(br, name));
    let c = br_index(br, name);
    if c < i {
        assert(br[c].0 != br[i].0);
    } else if c > i {
        assert(br[i].0 != br[c].0);
    }
}

/// Appending a fresh Active branch whose parent is present keeps the table
/// well-formed.
proof fn lemma_wf_push(br: Seq<(Seq<char>, BranchInfoView)>, name: Seq<char>, parent: Seq<char>)
    requires
        branches_wf(br),
        !br_has(br, name),
        br_has(br, parent),
    ensures
        branches_wf(
            br.push(
                (name, BranchInfoView { parent: Option::Some(parent), state: BranchState::Active }),
            ),
        ),
{
    let info = BranchInfoView { parent: Option::Some(parent), state: BranchState::Active };
    let br2 = br.push((name, info));
    assert forall|i: int, j: int| 0 <= i < j < br2.len() implies br2[i].0 != br2[j].0 by {
        if j < br.len() {
        } else {
            assert(br2[j].0 == name);
            assert(br2[i].0 == br[i].0);
            if br[i].0 == name {
                assert(br_has(br, name));
            }
        }
    }
    let d = br_index(br, default_branch());
    assert(br2[d].0 == default_branch());
    assert(br_has(br2, default_branch()));
    lemma_found_is_index(br2, default_branch(), d);
    assert forall|i: int| #![trigger br2[i]] 0 <= i < br2.len() implies match br2[i].1.parent {
        Option::Some(p) => br_has(br2, p),
        Option::None => true,
    } by {
        if i < br.len() {
            match br[i].1.parent {
                Option::Some(p) => {
                    let w = choose|w: int| 0 <= w < br.len() && br[w].0 == p;
                    assert(br2[w].0 == p);
                },
                Option::None => {},
            }
        } else {
            let w = choose|w: int| 0 <= w < br.len() && br[w].0 == parent;
            assert(br2[w].0 == parent);
        }
    }
}

/// Changing one branch's lifecycle state (name and parent kept) keeps the
/// table well-formed.
proof fn lemma_wf_update(br: Seq<(Seq<char>, BranchInfoView)>, i: int, upd: (Seq<char>, BranchInfoView))
    requires
        branches_wf(br),
        0 <= i < br.len(),
        upd.0 == br[i].0,
        upd.1.parent == br[i].1.parent,
    ensures
        branches_wf(br.update(i, upd)),
{
    let br2 = br.update(i, upd);
    assert forall|x: int, y: int| 0 <= x < y < br2.len() implies br2[x].0 != br2[y].0 by {
        assert(br2[x].0 == br[x].0);
        assert(br2[y].0 == br[y].0);
    }
    let d = br_index(br, default_branch());
    assert(br2[d].0 == default_branch());
    assert(br_has(br2, default_branch()));
    lemma_found_is_index(br2, default_branch(), d);
    assert(br2[d].1.parent == br[d].1.parent);
    assert forall|x: int| #![trigger br2[x]] 0 <= x < br2.len() implies match br2[x].1.parent {
        Option::Some(p) => br_has(br2, p),
        Option::None => true,
    } by {
        assert(br2[x].1.parent == br[x].1.parent);
        match br[x].1.parent {
            Option::Some(p) => {
                let w = choose|w: int| 0 <= w < br.len() && br[w].0 == p;
                assert(br2[w].0 == p);
            },
            Option::None => {},
        }
    }
}

/// Removing a branch that nothing references as parent, and that is not the
/// default branch, keeps the table well-formed.
proof fn lemma_wf_remove(br: Seq<(Seq<char>, BranchInfoView)>, i: int)
    requires
        branches_wf(br),
        0 <= i < br.len(),
        br[i].0 != default_branch(),
        forall|j: int| 0 <= j < br.len() ==> br[j].1.parent != Option::Some(br[i].0),
    ensures
        branches_wf(br.remove(i)),
{
    let br2 = br.remove(i);
    assert forall|x: int, y: int| 0 <= x < y < br2.len() implies br2[x].0 != br2[y].0 by {
        let x0 = if x < i { x } else { x + 1 };
        let y0 = if y < i { y } else { y + 1 };
        assert(br2[x].0 == br[x0].0);
        assert(br2[y].0 == br[y0].0);
    }
    let d = br_index(br, default_branch());
    assert(br[d].0 == default_branch());
    assert(d != i);
    let d2 = if d < i { d } else { d - 1 };
    assert(br2[d2].0 == default_branch());
    assert(br_has(br2, default_branch()));
    lemma_found_is_index(br2, default_branch(), d2);
    assert(br2[d2].1.parent == br[d].1.parent);
    assert forall|x: int| #![trigger br2[x]] 0 <= x < br2.len() implies match br2[x].1.parent {
        Option::Some(p) => br_has(br2, p),
        Option::None => true,
    } by {
        let x0 = if x < i { x } else { x + 1 };
        assert(br2[x].1 == br[x0].1);
        match br[x0].1.parent {
            Option::Some(p) => {
                let w = choose|w: int| 0 <= w < br.len() && br[w].0 == p;
                assert(p != br[i].0);
                assert(w != i);
                let w2 = if w < i { w } else { w - 1 };
                assert(br2[w2].0 == p);
            },
            Option::None => {},
        }
    }
}

} // verus!

//! The commit store: a branch table over an arena of immutable commits.
//!
//! A commit stays alive while it is owned: by a branch whose head it is, or
//! by a live commit whose parent it is. When its last owner goes, it is
//! destroyed, which is reported once, and its parent may follow.
use vstd::prelude::*;

verus! {

/// One commit of the history. Its data and parent never change.
pub struct Commit {
    data: Vec<u8>,
    parent: Option<usize>,
}

/// A branch name bound to the commit that is its head.
pub struct Branch {
    name: Vec<u8>,
    head: usize,
}

/// The branch table and the commits it reaches.
pub struct Database {
    commits: Vec<Commit>,
    /// `alive[c]` turns false once, when commit `c` is destroyed.
    alive: Vec<bool>,
    branches: Vec<Branch>,
}

/// The two ways a command can fail against the table.
pub enum DatabaseError {
    /// The named branch is not in the table.
    BranchDoesntExist(Vec<u8>),
    /// The branch does not go back the requested number of commits; carries
    /// the branch and the offset that was asked for.
    CommitNotDeepEnough(Vec<u8>, usize),
}

/// What a command reports, in the order in which it happened.
pub enum Event {
    /// `name` now denotes the commit carrying `payload`.
    Bound { name: Vec<u8>, payload: Vec<u8> },
    /// The branch `name` was removed from the table.
    BranchDeleted { name: Vec<u8> },
    /// The commit `id`, carrying `payload`, lost its last owner.
    CommitDestroyed { id: usize, payload: Vec<u8> },
    /// The branch `name` and the payloads from its head back to the root.
    Listing { name: Vec<u8>, history: Vec<Vec<u8>> },
}

/// An event as plain values.
pub enum EventView {
    Bound(Seq<u8>, Seq<u8>),
    BranchDeleted(Seq<u8>),
    CommitDestroyed(nat, Seq<u8>),
    Listing(Seq<u8>, Seq<Seq<u8>>),
}

impl View for Event {
    type V = EventView;

    open spec fn view(&self) -> EventView {
        match self {
            Event::Bound { name, payload } => EventView::Bound(name@, payload@),
            Event::BranchDeleted { name } => EventView::BranchDeleted(name@),
            Event::CommitDestroyed { id, payload } => EventView::CommitDestroyed(
                *id as nat,
                payload@,
            ),
            Event::Listing { name, history } => EventView::Listing(
                name@,
                history@.map_values(|h: Vec<u8>| h@),
            ),
        }
    }
}

impl DatabaseError {
    /// The branch named, and the requested offset where there is one.
    pub open spec fn spec_view(&self) -> (Seq<u8>, Option<nat>) {
        match self {
            DatabaseError::BranchDoesntExist(n) => (n@, None),
            DatabaseError::CommitNotDeepEnough(n, k) => (n@, Some(*k as nat)),
        }
    }
}

/// The name of the branch that the store is seeded with: `master`.
pub open spec fn root_branch_name() -> Seq<u8> {
    seq![109u8, 97u8, 115u8, 116u8, 101u8, 114u8]
}

/// The same bytes, `a@ == b@`.
fn bytes_eq(a: &Vec<u8>, b: &Vec<u8>) -> (r: bool)
    ensures
        r == (a@ == b@),
{
    if a.len() != b.len() {
        return false;
    }
    let mut k: usize = 0;
    while k < a.len()
        invariant
            a@.len() == b@.len(),
            k <= a@.len(),
            forall|m: int| 0 <= m < k ==> a@[m] == b@[m],
        decreases a@.len() - k,
    {
        if a[k] != b[k] {
            return false;
        }
        k = k + 1;
    }
    assert(a@ =~= b@);
    true
}

/// A copy of `a`.
fn copy_bytes(a: &Vec<u8>) -> (r: Vec<u8>)
    ensures
        r@ == a@,
{
    let mut r: Vec<u8> = Vec::new();
    let mut k: usize = 0;
    while k < a.len()
        invariant
            k <= a@.len(),
            r@ == a@.subrange(0, k as int),
        decreases a@.len() - k,
    {
        r.push(a[k]);
        k = k + 1;
        assert(r@ =~= a@.subrange(0, k as int));
    }
    assert(r@ =~= a@);
    r
}

impl Database {
    /// How many commits were ever made.
    pub closed spec fn n_commits(self) -> nat {
        self.commits@.len()
    }

    /// The payload of commit `c`.
    pub closed spec fn data(self, c: nat) -> Seq<u8> {
        self.commits@[c as int].data@
    }

    /// The parent of commit `c`.
    pub closed spec fn parent(self, c: nat) -> Option<nat> {
        if c < self.commits@.len() {
            match self.commits@[c as int].parent {
                Some(p) => Some(p as nat),
                None => None,
            }
        } else {
            None
        }
    }

    /// Commit `c` has not been destroyed.
    pub closed spec fn live(self, c: nat) -> bool {
        c < self.commits@.len() && self.alive@[c as int]
    }

    spec fn has_branch(self, n: Seq<u8>) -> bool {
        exists|i: int| 0 <= i < self.branches@.len() && self.branches@[i].name@ == n
    }

    spec fn branch_index(self, n: Seq<u8>) -> int {
        choose|i: int| 0 <= i < self.branches@.len() && self.branches@[i].name@ == n
    }

    /// The branch table: each name to the commit that is its head.
    pub closed spec fn table(self) -> Map<Seq<u8>, nat> {
        Map::new(
            |n: Seq<u8>| self.has_branch(n),
            |n: Seq<u8>| self.branches@[self.branch_index(n)].head as nat,
        )
    }

    /// The commit `k` parents back from `c`, where the history goes that far.
    pub open spec fn ancestor(self, c: nat, k: nat) -> Option<nat>
        decreases k,
    {
        if k == 0 {
            Some(c)
        } else {
            match self.parent(c) {
                Some(p) => self.ancestor(p, (k - 1) as nat),
                None => None,
            }
        }
    }

    /// The commit that `offset` parents back from the head of `base` denotes.
    pub open spec fn resolve(self, base: Seq<u8>, offset: nat) -> Option<nat> {
        if self.table().contains_key(base) {
            self.ancestor(self.table()[base], offset)
        } else {
            None
        }
    }

    /// The payloads from commit `c` back to the root.
    pub open spec fn history(self, c: nat) -> Seq<Seq<u8>>
        decreases c,
    {
        match self.parent(c) {
            Some(p) => if p < c {
                seq![self.data(c)] + self.history(p)
            } else {
                seq![self.data(c)]
            },
            None => seq![self.data(c)],
        }
    }

    /// Some branch has `c` as its head.
    pub closed spec fn held_by_branch(self, c: nat) -> bool {
        exists|i: int| 0 <= i < self.branches@.len() && self.branches@[i].head == c
    }

    /// Some live commit has `c` as its parent.
    pub closed spec fn held_by_child(self, c: nat) -> bool {
        exists|d: int|
            0 <= d < self.commits@.len() && #[trigger] self.alive@[d] && self.parent(d as nat)
                == Some(c)
    }

    /// Commit `c` has an owner.
    pub closed spec fn owned(self, c: nat) -> bool {
        self.held_by_branch(c) || self.held_by_child(c)
    }

    spec fn shape_ok(self) -> bool {
        &&& self.alive@.len() == self.commits@.len()
        &&& forall|c: int|
            0 <= c < self.commits@.len() && (#[trigger] self.commits@[c]).parent is Some
                ==> self.commits@[c].parent->0 < c
        &&& forall|i: int|
            0 <= i < self.branches@.len() ==> (#[trigger] self.branches@[i]).head
                < self.commits@.len()
        &&& forall|i: int, j: int|
            0 <= i < self.branches@.len() && 0 <= j < self.branches@.len()
                && (#[trigger] self.branches@[i]).name@ == (#[trigger] self.branches@[j]).name@
                ==> i == j
    }

    /// Well-formed, but for commit `x`, which is live and may have lost its
    /// last owner.
    spec fn wf_but(self, x: nat) -> bool {
        &&& self.shape_ok()
        &&& self.live(x)
        &&& forall|c: nat| c < self.commits@.len() && c != x ==> (self.live(c) <==> #[trigger] self.owned(c))
    }

    /// Well-formed: heads and parents are commits made earlier, names are
    /// unique, and a commit is live exactly when it is owned.
    pub closed spec fn wf(self) -> bool {
        &&& self.shape_ok()
        &&& forall|c: nat| c < self.commits@.len() ==> (self.live(c) <==> #[trigger] self.owned(c))
    }

    proof fn lemma_table_at(self, i: int)
        requires
            self.shape_ok(),
            0 <= i < self.branches@.len(),
        ensures
            self.table().contains_key(self.branches@[i].name@),
            self.table()[self.branches@[i].name@] == self.branches@[i].head as nat,
    {
        let n = self.branches@[i].name@;
        assert(self.has_branch(n));
        let j = self.branch_index(n);
        assert(self.branches@[j].name@ == self.branches@[i].name@);
    }

    proof fn lemma_table_has(self, n: Seq<u8>) -> (i: int)
        requires
            self.shape_ok(),
            self.table().contains_key(n),
        ensures
            0 <= i < self.branches@.len(),
            self.branches@[i].name@ == n,
    {
        self.branch_index(n)
    }

    /// A store whose one branch, `master`, points at a root commit carrying
    /// `root_payload`.
    pub fn new(root_payload: Vec<u8>) -> (r: Database)
        ensures
            r.wf(),
            r.table() == map![root_branch_name() => 0nat],
            r.n_commits() == 1,
            r.data(0) == root_payload@,
            r.parent(0) is None,
            r.live(0),
    {
        let root = Commit { data: root_payload, parent: None };
        let mut commits: Vec<Commit> = Vec::new();
        commits.push(root);
        let mut alive: Vec<bool> = Vec::new();
        alive.push(true);
        let name: Vec<u8> = vec![109u8, 97u8, 115u8, 116u8, 101u8, 114u8];
        assert(name@ =~= root_branch_name());
        let mut branches: Vec<Branch> = Vec::new();
        branches.push(Branch { name, head: 0 });
        let r = Database { commits, alive, branches };
        proof {
            r.lemma_table_at(0);
            assert(r.held_by_branch(0));
            assert(r.table() =~= map![root_branch_name() => 0nat]);
        }
        r
    }

    /// `master -> 'payload'` for the root commit.
    pub fn root_event(&self) -> (r: Event)
        requires
            self.n_commits() >= 1,
        ensures
            r@ == EventView::Bound(root_branch_name(), self.data(0)),
    {
        let name: Vec<u8> = vec![109u8, 97u8, 115u8, 116u8, 101u8, 114u8];
        assert(name@ =~= root_branch_name());
        Event::Bound { name, payload: copy_bytes(&self.commits[0].data) }
    }

    /// Where `name` stands in the branch list, if it does.
    fn find(&self, name: &Vec<u8>) -> (r: Option<usize>)
        requires
            self.shape_ok(),
        ensures
            match r {
                Some(i) => i < self.branches@.len() && self.branches@[i as int].name@ == name@,
                None => !self.table().contains_key(name@),
            },
    {
        let mut i: usize = 0;
        while i < self.branches.len()
            invariant
                i <= self.branches@.len(),
                forall|j: int| 0 <= j < i ==> self.branches@[j].name@ != name@,
            decreases self.branches@.len() - i,
        {
            if bytes_eq(&self.branches[i].name, name) {
                return Some(i);
            }
            i = i + 1;
        }
        None
    }

    /// Binds `name` to the live commit `t`, releasing what it left.
    fn bind(&mut self, name: &Vec<u8>, t: usize, events: &mut Vec<Event>)
        requires
            old(self).wf(),
            old(self).live(t as nat),
        ensures
            final(self).wf(),
            final(self).table() == old(self).table().insert(name@, t as nat),
            final(self).commits@ == old(self).commits@,
            forall|c: nat| #[trigger] final(self).live(c) ==> old(self).live(c),
            final(events)@.len() >= old(events)@.len(),
            final(events)@.subrange(0, old(events)@.len() as int) == old(events)@,
            reports_destroyed(
                *old(self),
                *final(self),
                final(events)@.subrange(old(events)@.len() as int, final(events)@.len() as int),
            ),
    {
        let ghost pre = *self;
        match self.find(name) {
            Some(j) => {
                let left = self.branches[j].head;
                self.branches.set(j, Branch { name: copy_bytes(name), head: t });
                proof {
                    lemma_rebind(pre, *self, j as int, t as nat);
                }
                self.release(left, events);
            },
            None => {
                let b = Branch { name: copy_bytes(name), head: t };
                let ghost gb = b;
                self.branches.push(b);
                proof {
                    lemma_add_branch(pre, *self, gb);
                    assert(events@.subrange(0, events@.len() as int) =~= events@);
                    assert(events@.subrange(events@.len() as int, events@.len() as int) =~= Seq::<Event>::empty());
                }
            },
        }
    }

    /// The head of every branch is live.
    proof fn lemma_head_live(self, i: int)
        requires
            self.wf(),
            0 <= i < self.branches@.len(),
        ensures
            self.live(self.branches@[i].head as nat),
    {
        assert(self.held_by_branch(self.branches@[i].head as nat));
        assert(self.owned(self.branches@[i].head as nat));
    }

    /// The parent of a live commit is live.
    proof fn lemma_parent_live(self, c: nat)
        requires
            self.wf(),
            self.live(c),
            self.parent(c) is Some,
        ensures
            self.live(self.parent(c)->0),
    {
        let p = self.parent(c)->0;
        assert(self.alive@[c as int]);
        assert(self.held_by_child(p));
        assert(self.owned(p));
    }

    /// `new branch name base~offset`: binds `name` to the commit `offset`
    /// parents back from the head of `base`.
    pub fn new_branch(&mut self, name: &Vec<u8>, base: &Vec<u8>, offset: usize) -> (r: Result<
        Vec<Event>,
        DatabaseError,
    >)
        requires
            old(self).wf(),
        ensures
            final(self).wf(),
            new_branch_done(*old(self), *final(self), name@, base@, offset as nat, outcome(r)),
    {
        let i = match self.find(base) {
            None => {
                return Err(DatabaseError::BranchDoesntExist(copy_bytes(base)));
            },
            Some(i) => i,
        };
        let ghost pre = *self;
        proof {
            self.lemma_table_at(i as int);
            self.lemma_head_live(i as int);
        }
        let mut cur: usize = self.branches[i].head;
        let mut k: usize = 0;
        while k < offset
            invariant
                self.wf(),
                *self == pre,
                k <= offset,
                self.live(cur as nat),
                pre.table().contains_key(base@),
                self.ancestor(pre.table()[base@], offset as nat) == self.ancestor(
                    cur as nat,
                    (offset - k) as nat,
                ),
            decreases offset - k,
        {
            match self.commits[cur].parent {
                None => {
                    return Err(DatabaseError::CommitNotDeepEnough(copy_bytes(base), offset));
                },
                Some(p) => {
                    proof {
                        self.lemma_parent_live(cur as nat);
                    }
                    cur = p;
                },
            }
            k = k + 1;
        }
        let mut events: Vec<Event> = Vec::new();
        events.push(
            Event::Bound { name: copy_bytes(name), payload: copy_bytes(&self.commits[cur].data) },
        );
        let ghost first = events@[0];
        self.bind(name, cur, &mut events);
        proof {
            assert(events@.subrange(0, 1) == seq![first]);
            assert(events@.subrange(0, 1)[0] == events@[0]);
            assert(events@.drop_first() =~= events@.subrange(1, events@.len() as int));
        }
        Ok(events)
    }

    /// `new commit 'payload' branch`: a new commit on top of the head of
    /// `branch` becomes its head.
    pub fn new_commit(&mut self, payload: &Vec<u8>, branch: &Vec<u8>) -> (r: Result<
        Vec<Event>,
        DatabaseError,
    >)
        requires
            old(self).wf(),
        ensures
            final(self).wf(),
            new_commit_done(*old(self), *final(self), payload@, branch@, outcome(r)),
    {
        let i = match self.find(branch) {
            None => {
                return Err(DatabaseError::BranchDoesntExist(copy_bytes(branch)));
            },
            Some(i) => i,
        };
        let ghost pre = *self;
        proof {
            self.lemma_table_at(i as int);
            self.lemma_head_live(i as int);
        }
        let parent = self.branches[i].head;
        let id = self.commits.len();
        self.commits.push(Commit { data: copy_bytes(payload), parent: Some(parent) });
        self.alive.push(true);
        self.branches.set(i, Branch { name: copy_bytes(branch), head: id });
        proof {
            assert(self.commits@.subrange(0, pre.commits@.len() as int) =~= pre.commits@);
            lemma_grow(pre, *self, i as int);
        }
        let mut events: Vec<Event> = Vec::new();
        events.push(Event::Bound { name: copy_bytes(branch), payload: copy_bytes(payload) });
        Ok(events)
    }

    /// `delete branch name`: removes `name` from the table.
    pub fn delete_branch(&mut self, name: &Vec<u8>) -> (r: Result<Vec<Event>, DatabaseError>)
        requires
            old(self).wf(),
        ensures
            final(self).wf(),
            delete_branch_done(*old(self), *final(self), name@, outcome(r)),
    {
        let j = match self.find(name) {
            None => {
                return Err(DatabaseError::BranchDoesntExist(copy_bytes(name)));
            },
            Some(j) => j,
        };
        let ghost pre = *self;
        let left = self.branches[j].head;
        proof {
            self.lemma_table_at(j as int);
        }
        self.branches.remove(j);
        proof {
            lemma_remove_branch(pre, *self, j as int);
        }
        let mut events: Vec<Event> = Vec::new();
        events.push(Event::BranchDeleted { name: copy_bytes(name) });
        let ghost first = events@[0];
        let ghost mid = *self;
        self.release(left, &mut events);
        proof {
            assert forall|c: nat| mid.live(c) == pre.live(c) && mid.data(c) == pre.data(c) by {}
            assert(reports_destroyed(mid, *self, events@.drop_first()));
            assert(reports_destroyed(pre, *self, events@.drop_first()));
            assert(self.table() == pre.table().remove(name@));
            assert(keeps_history(pre, *self));
            assert(events@[0]@ == EventView::BranchDeleted(name@));
            assert(events@.subrange(0, 1) == seq![first]);
            assert(events@.subrange(0, 1)[0] == events@[0]);
            assert(events@.drop_first() =~= events@.subrange(1, events@.len() as int));
        }
        Ok(events)
    }

    /// The payloads from commit `c` back to the root.
    fn history_of(&self, c: usize) -> (r: Vec<Vec<u8>>)
        requires
            self.shape_ok(),
            c < self.commits@.len(),
        ensures
            r@.map_values(|h: Vec<u8>| h@) == self.history(c as nat),
    {
        let mut r: Vec<Vec<u8>> = Vec::new();
        let mut cur: usize = c;
        let mut done = false;
        while !done
            invariant
                self.shape_ok(),
                cur < self.commits@.len(),
                !done ==> r@.map_values(|h: Vec<u8>| h@) + self.history(cur as nat) == self.history(
                    c as nat,
                ),
                done ==> r@.map_values(|h: Vec<u8>| h@) == self.history(c as nat),
            decreases cur + (if done { 0int } else { 1int }),
        {
            let ghost before = r@.map_values(|h: Vec<u8>| h@);
            r.push(copy_bytes(&self.commits[cur].data));
            proof {
                assert(r@.map_values(|h: Vec<u8>| h@) =~= before.push(self.data(cur as nat)));
            }
            match self.commits[cur].parent {
                Some(p) => {
                    proof {
                        assert(self.history(cur as nat) == seq![self.data(cur as nat)]
                            + self.history(p as nat));
                        assert(before + self.history(cur as nat) =~= before.push(
                            self.data(cur as nat),
                        ) + self.history(p as nat));
                    }
                    cur = p;
                },
                None => {
                    proof {
                        assert(before + self.history(cur as nat) =~= before.push(
                            self.data(cur as nat),
                        ));
                    }
                    done = true;
                },
            }
        }
        r
    }

    /// The branch names, in the order in which the store holds them.
    pub closed spec fn branch_names(self) -> Seq<Seq<u8>> {
        self.branches@.map_values(|b: Branch| b.name@)
    }

    /// `examine`: each branch with the payloads of its history.
    pub fn examine(&self) -> (r: Vec<Event>)
        requires
            self.wf(),
        ensures
            lists(*self, r@),
    {
        let mut r: Vec<Event> = Vec::new();
        let mut i: usize = 0;
        while i < self.branches.len()
            invariant
                self.wf(),
                i <= self.branches@.len(),
                r@.len() == i,
                forall|j: int|
                    0 <= j < i ==> (#[trigger] r@[j])@ == EventView::Listing(
                        self.branch_names()[j],
                        self.history(self.table()[self.branch_names()[j]]),
                    ),
            decreases self.branches@.len() - i,
        {
            proof {
                self.lemma_table_at(i as int);
            }
            let history = self.history_of(self.branches[i].head);
            r.push(Event::Listing { name: copy_bytes(&self.branches[i].name), history });
            i = i + 1;
        }
        proof {
            assert forall|j: int| 0 <= j < self.branch_names().len() implies self.table().contains_key(
                #[trigger] self.branch_names()[j],
            ) by {
                self.lemma_table_at(j);
            }
            assert forall|n: Seq<u8>| #[trigger] self.table().contains_key(n) implies exists|j: int|
                0 <= j < self.branch_names().len() && self.branch_names()[j] == n by {
                let j = self.lemma_table_has(n);
                assert(self.branch_names()[j] == n);
            }
        }
        r
    }

    /// Commit `c` has an owner.
    fn is_owned(&self, c: usize) -> (r: bool)
        requires
            self.shape_ok(),
            c < self.commits@.len(),
        ensures
            r == self.owned(c as nat),
    {
        let mut i: usize = 0;
        while i < self.branches.len()
            invariant
                i <= self.branches@.len(),
                forall|j: int| 0 <= j < i ==> self.branches@[j].head != c,
            decreases self.branches@.len() - i,
        {
            if self.branches[i].head == c {
                return true;
            }
            i = i + 1;
        }
        let mut d: usize = 0;
        while d < self.commits.len()
            invariant
                self.shape_ok(),
                d <= self.commits@.len(),
                !self.held_by_branch(c as nat),
                forall|e: int|
                    0 <= e < d ==> !(#[trigger] self.alive@[e] && self.parent(e as nat) == Some(
                        c as nat,
                    )),
            decreases self.commits@.len() - d,
        {
            if self.alive[d] {
                match self.commits[d].parent {
                    Some(p) => {
                        if p == c {
                            return true;
                        }
                    },
                    None => {},
                }
            }
            d = d + 1;
        }
        false
    }

    /// Destroys `x` if it has lost its last owner, then its parent likewise,
    /// and so on up the history; each destruction is reported in `events`.
    fn release(&mut self, x: usize, events: &mut Vec<Event>)
        requires
            old(self).wf_but(x as nat),
        ensures
            final(self).wf(),
            final(self).branches@ == old(self).branches@,
            final(self).commits@ == old(self).commits@,
            forall|c: nat| #[trigger] final(self).live(c) ==> old(self).live(c),
            final(events)@.len() >= old(events)@.len(),
            final(events)@.subrange(0, old(events)@.len() as int) == old(events)@,
            reports_destroyed(
                *old(self),
                *final(self),
                final(events)@.subrange(old(events)@.len() as int, final(events)@.len() as int),
            ),
    {
        let ghost pre = *self;
        let ghost pre_events = events@;
        let mut cur: usize = x;
        let mut done = false;
        while !done
            invariant
                done ==> self.wf(),
                !done ==> self.wf_but(cur as nat),
                self.branches@ == pre.branches@,
                self.commits@ == pre.commits@,
                self.alive@.len() == pre.alive@.len(),
                forall|c: nat| #[trigger] self.live(c) ==> pre.live(c),
                events@.len() >= pre_events.len(),
                events@.subrange(0, pre_events.len() as int) == pre_events,
                reports_destroyed(
                    pre,
                    *self,
                    events@.subrange(pre_events.len() as int, events@.len() as int),
                ),
            decreases cur + (if done { 0int } else { 1int }),
        {
            if self.is_owned(cur) {
                done = true;
            } else {
                let ghost before = *self;
                let ghost tail = events@.subrange(pre_events.len() as int, events@.len() as int);
                self.alive.set(cur, false);
                let payload = copy_bytes(&self.commits[cur].data);
                events.push(Event::CommitDestroyed { id: cur, payload });
                proof {
                    let ntail = events@.subrange(pre_events.len() as int, events@.len() as int);
                    assert(ntail =~= tail.push(events@.last()));
                    assert(events@.subrange(0, pre_events.len() as int) =~= pre_events);
                    lemma_kill_step(before, *self, cur as nat);
                    lemma_report_step(pre, before, *self, tail, events@.last(), cur as nat);
                }
                match self.commits[cur].parent {
                    Some(p) => {
                        cur = p;
                    },
                    None => {
                        done = true;
                    },
                }
            }
        }
    }
}

/// What `new branch name base~offset` does: it fails, changing nothing, where
/// `base` is not in the table or does not go back `offset` commits;
/// otherwise `name` is bound to that commit, which is reported, followed by
/// a report of each commit that lost its last owner.
pub open spec fn new_branch_done(
    pre: Database,
    post: Database,
    name: Seq<u8>,
    base: Seq<u8>,
    offset: nat,
    r: Result<Seq<Event>, (Seq<u8>, Option<nat>)>,
) -> bool {
    match r {
        Err(e) => post == pre && if !pre.table().contains_key(base) {
            e == (base, None::<nat>)
        } else {
            pre.resolve(base, offset) is None && e == (base, Some(offset))
        },
        Ok(evs) => {
            &&& pre.resolve(base, offset) is Some
            &&& post.table() == pre.table().insert(name, pre.resolve(base, offset)->0)
            &&& post.n_commits() == pre.n_commits()
            &&& keeps_history(pre, post)
            &&& forall|c: nat| #[trigger] post.live(c) ==> pre.live(c)
            &&& evs.len() >= 1
            &&& evs[0]@ == EventView::Bound(name, pre.data(pre.resolve(base, offset)->0))
            &&& reports_destroyed(pre, post, evs.drop_first())
        },
    }
}

/// What `new commit 'payload' branch` does: it fails, changing nothing,
/// where `branch` is not in the table; otherwise a new live commit carrying
/// `payload`, whose parent is the old head, becomes the head of `branch`,
/// and nothing is destroyed.
pub open spec fn new_commit_done(
    pre: Database,
    post: Database,
    payload: Seq<u8>,
    branch: Seq<u8>,
    r: Result<Seq<Event>, (Seq<u8>, Option<nat>)>,
) -> bool {
    match r {
        Err(e) => post == pre && !pre.table().contains_key(branch) && e == (branch, None::<nat>),
        Ok(evs) => {
            &&& pre.table().contains_key(branch)
            &&& post.n_commits() == pre.n_commits() + 1
            &&& keeps_history(pre, post)
            &&& post.data(pre.n_commits()) == payload
            &&& post.parent(pre.n_commits()) == Some(pre.table()[branch])
            &&& post.table() == pre.table().insert(branch, pre.n_commits())
            &&& forall|c: nat| #[trigger] post.live(c) <==> (pre.live(c) || c == pre.n_commits())
            &&& evs.len() == 1
            &&& evs[0]@ == EventView::Bound(branch, payload)
        },
    }
}

/// What `delete branch name` does: it fails, changing nothing, where `name`
/// is not in the table; otherwise `name` leaves the table, which is
/// reported, followed by a report of each commit that lost its last owner.
pub open spec fn delete_branch_done(
    pre: Database,
    post: Database,
    name: Seq<u8>,
    r: Result<Seq<Event>, (Seq<u8>, Option<nat>)>,
) -> bool {
    match r {
        Err(e) => post == pre && !pre.table().contains_key(name) && e == (name, None::<nat>),
        Ok(evs) => {
            &&& pre.table().contains_key(name)
            &&& post.table() == pre.table().remove(name)
            &&& post.n_commits() == pre.n_commits()
            &&& keeps_history(pre, post)
            &&& forall|c: nat| #[trigger] post.live(c) ==> pre.live(c)
            &&& evs.len() >= 1
            &&& evs[0]@ == EventView::BranchDeleted(name)
            &&& reports_destroyed(pre, post, evs.drop_first())
        },
    }
}

/// A result with its values as plain values.
pub open spec fn outcome(r: Result<Vec<Event>, DatabaseError>) -> Result<
    Seq<Event>,
    (Seq<u8>, Option<nat>),
> {
    match r {
        Ok(evs) => Ok(evs@),
        Err(e) => Err(e.spec_view()),
    }
}

/// `evs` lists each branch of `db` once, with the payloads from its head
/// back to the root.
pub open spec fn lists(db: Database, evs: Seq<Event>) -> bool {
    &&& evs.len() == db.branch_names().len()
    &&& forall|j: int|
        0 <= j < evs.len() ==> (#[trigger] evs[j])@ == EventView::Listing(
            db.branch_names()[j],
            db.history(db.table()[db.branch_names()[j]]),
        )
    &&& forall|j: int|
        0 <= j < db.branch_names().len() ==> db.table().contains_key(#[trigger] db.branch_names()[j])
    &&& forall|n: Seq<u8>| #[trigger]
        db.table().contains_key(n) ==> exists|j: int|
            0 <= j < db.branch_names().len() && db.branch_names()[j] == n
}

/// A new commit on top of the head of branch `i`, made its head, keeps the
/// invariant.
proof fn lemma_grow(pre: Database, post: Database, i: int)
    requires
        pre.wf(),
        0 <= i < pre.branches@.len(),
        post.commits@.len() == pre.commits@.len() + 1,
        post.commits@.subrange(0, pre.commits@.len() as int) == pre.commits@,
        post.commits@.last().parent == Some(pre.branches@[i].head),
        post.alive@ == pre.alive@.push(true),
        post.branches@.len() == pre.branches@.len(),
        forall|k: int| 0 <= k < pre.branches@.len() && k != i ==> post.branches@[k] == pre.branches@[k],
        post.branches@[i].name@ == pre.branches@[i].name@,
        post.branches@[i].head == pre.commits@.len(),
    ensures
        post.wf(),
        post.table() == pre.table().insert(pre.branches@[i].name@, pre.n_commits()),
        keeps_history(pre, post),
        forall|c: nat| #[trigger] post.live(c) <==> (pre.live(c) || c == pre.n_commits()),
{
    let id = pre.commits@.len() as nat;
    let h = pre.branches@[i].head as nat;
    assert forall|c: int| 0 <= c < pre.commits@.len() implies post.commits@[c] == pre.commits@[c] by {
        assert(post.commits@.subrange(0, pre.commits@.len() as int)[c] == pre.commits@[c]);
    }
    assert(pre.held_by_branch(h));
    assert(pre.owned(h));
    assert(post.alive@[id as int]);
    assert(post.held_by_child(h));
    assert(post.held_by_branch(id));
    assert forall|c: nat| c < post.commits@.len() implies (post.live(c)
        <==> #[trigger] post.owned(c)) by {
        if c < id && c != h {
            assert(pre.live(c) <==> pre.owned(c));
            if pre.held_by_branch(c) {
                let k = choose|k: int| 0 <= k < pre.branches@.len() && pre.branches@[k].head == c;
                assert(post.branches@[k].head == c);
            }
            if post.held_by_branch(c) {
                let k = choose|k: int| 0 <= k < post.branches@.len() && post.branches@[k].head == c;
                assert(pre.branches@[k].head == c);
            }
            if pre.held_by_child(c) {
                let d = choose|d: int|
                    0 <= d < pre.commits@.len() && #[trigger] pre.alive@[d] && pre.parent(d as nat)
                        == Some(c);
                assert(post.alive@[d] && post.parent(d as nat) == Some(c));
            }
            if post.held_by_child(c) {
                let d = choose|d: int|
                    0 <= d < post.commits@.len() && #[trigger] post.alive@[d] && post.parent(
                        d as nat,
                    ) == Some(c);
                assert(d != id);
                assert(pre.alive@[d] && pre.parent(d as nat) == Some(c));
            }
        }
    }
    assert(post.shape_ok());
    post.lemma_table_at(i);
    let name = pre.branches@[i].name@;
    assert forall|n: Seq<u8>| #[trigger] post.table().contains_key(n) <==> pre.table().insert(
        name,
        id,
    ).contains_key(n) by {
        if post.table().contains_key(n) {
            let k = post.lemma_table_has(n);
            if k != i {
                pre.lemma_table_at(k);
            }
        }
        if pre.table().contains_key(n) {
            let k = pre.lemma_table_has(n);
            if k != i {
                post.lemma_table_at(k);
            }
        }
    }
    assert forall|n: Seq<u8>| #[trigger] post.table().contains_key(n) implies post.table()[n]
        == pre.table().insert(name, id)[n] by {
        let k = post.lemma_table_has(n);
        post.lemma_table_at(k);
        if k != i {
            pre.lemma_table_at(k);
        }
    }
    assert(post.table() =~= pre.table().insert(name, id));
}

/// `post` keeps every commit of `pre` as it was.
pub open spec fn keeps_history(pre: Database, post: Database) -> bool {
    &&& pre.n_commits() <= post.n_commits()
    &&& forall|c: nat|
        #![trigger post.data(c)]
        #![trigger post.parent(c)]
        c < pre.n_commits() ==> post.data(c) == pre.data(c) && post.parent(c) == pre.parent(c)
}

/// Rebinding branch `j` to the live commit `t` keeps the invariant, but for
/// the commit that `j` left.
proof fn lemma_rebind(pre: Database, post: Database, j: int, t: nat)
    requires
        pre.wf(),
        0 <= j < pre.branches@.len(),
        pre.live(t),
        post.commits@ == pre.commits@,
        post.alive@ == pre.alive@,
        post.branches@.len() == pre.branches@.len(),
        forall|k: int| 0 <= k < pre.branches@.len() && k != j ==> post.branches@[k] == pre.branches@[k],
        post.branches@[j].name@ == pre.branches@[j].name@,
        post.branches@[j].head == t,
    ensures
        post.wf_but(pre.branches@[j].head as nat),
        post.table() == pre.table().insert(pre.branches@[j].name@, t),
{
    let h = pre.branches@[j].head as nat;
    let name = pre.branches@[j].name@;
    assert(pre.held_by_branch(h));
    assert(pre.owned(h));
    assert forall|c: nat| c < post.commits@.len() && c != h implies (post.live(c)
        <==> #[trigger] post.owned(c)) by {
        assert(pre.live(c) <==> pre.owned(c));
        assert(post.held_by_child(c) == pre.held_by_child(c));
        if c == t {
            assert(post.held_by_branch(c));
        } else {
            if pre.held_by_branch(c) {
                let k = choose|k: int| 0 <= k < pre.branches@.len() && pre.branches@[k].head == c;
                assert(post.branches@[k].head == c);
            }
            if post.held_by_branch(c) {
                let k = choose|k: int| 0 <= k < post.branches@.len() && post.branches@[k].head == c;
                assert(pre.branches@[k].head == c);
            }
        }
    }
    post.lemma_table_at(j);
    assert forall|n: Seq<u8>| #[trigger] post.table().contains_key(n) <==> pre.table().insert(
        name,
        t,
    ).contains_key(n) by {
        if post.table().contains_key(n) {
            let k = post.lemma_table_has(n);
            if k != j {
                pre.lemma_table_at(k);
            }
        }
        if pre.table().contains_key(n) {
            let k = pre.lemma_table_has(n);
            if k != j {
                post.lemma_table_at(k);
            }
        }
    }
    assert forall|n: Seq<u8>| #[trigger] post.table().contains_key(n) implies post.table()[n]
        == pre.table().insert(name, t)[n] by {
        let k = post.lemma_table_has(n);
        post.lemma_table_at(k);
        if k != j {
            pre.lemma_table_at(k);
        }
    }
    assert(post.table() =~= pre.table().insert(name, t));
}

/// Adding a branch under a new name, bound to the live commit `t`, keeps
/// the invariant.
proof fn lemma_add_branch(pre: Database, post: Database, b: Branch)
    requires
        pre.wf(),
        !pre.table().contains_key(b.name@),
        pre.live(b.head as nat),
        post.commits@ == pre.commits@,
        post.alive@ == pre.alive@,
        post.branches@ == pre.branches@.push(b),
    ensures
        post.wf(),
        post.table() == pre.table().insert(b.name@, b.head as nat),
{
    let j = pre.branches@.len() as int;
    assert forall|i: int, k: int|
        0 <= i < post.branches@.len() && 0 <= k < post.branches@.len()
            && (#[trigger] post.branches@[i]).name@ == (#[trigger] post.branches@[k]).name@
            implies i == k by {
        if i < j && k == j {
            pre.lemma_table_at(i);
        }
        if k < j && i == j {
            pre.lemma_table_at(k);
        }
    }
    assert forall|c: nat| c < post.commits@.len() implies (post.live(c)
        <==> #[trigger] post.owned(c)) by {
        assert(pre.live(c) <==> pre.owned(c));
        assert(post.held_by_child(c) == pre.held_by_child(c));
        if c == b.head {
            assert(post.branches@[j] == b);
            assert(post.held_by_branch(c));
        } else {
            if pre.held_by_branch(c) {
                let k = choose|k: int| 0 <= k < pre.branches@.len() && pre.branches@[k].head == c;
                assert(post.branches@[k].head == c);
            }
            if post.held_by_branch(c) {
                let k = choose|k: int| 0 <= k < post.branches@.len() && post.branches@[k].head == c;
                assert(pre.branches@[k].head == c);
            }
        }
    }
    post.lemma_table_at(j);
    assert forall|n: Seq<u8>| #[trigger] post.table().contains_key(n) <==> pre.table().insert(
        b.name@,
        b.head as nat,
    ).contains_key(n) by {
        if post.table().contains_key(n) {
            let k = post.lemma_table_has(n);
            if k != j {
                pre.lemma_table_at(k);
            }
        }
        if pre.table().contains_key(n) {
            let k = pre.lemma_table_has(n);
            post.lemma_table_at(k);
        }
    }
    assert forall|n: Seq<u8>| #[trigger] post.table().contains_key(n) implies post.table()[n]
        == pre.table().insert(b.name@, b.head as nat)[n] by {
        let k = post.lemma_table_has(n);
        post.lemma_table_at(k);
        if k != j {
            pre.lemma_table_at(k);
        }
    }
    assert(post.table() =~= pre.table().insert(b.name@, b.head as nat));
}

/// Removing branch `j` keeps the invariant, but for the commit it left.
proof fn lemma_remove_branch(pre: Database, post: Database, j: int)
    requires
        pre.wf(),
        0 <= j < pre.branches@.len(),
        post.commits@ == pre.commits@,
        post.alive@ == pre.alive@,
        post.branches@ == pre.branches@.remove(j),
    ensures
        post.wf_but(pre.branches@[j].head as nat),
        post.table() == pre.table().remove(pre.branches@[j].name@),
{
    let h = pre.branches@[j].head as nat;
    let name = pre.branches@[j].name@;
    assert(pre.held_by_branch(h));
    assert(pre.owned(h));
    assert forall|i: int, k: int|
        0 <= i < post.branches@.len() && 0 <= k < post.branches@.len()
            && (#[trigger] post.branches@[i]).name@ == (#[trigger] post.branches@[k]).name@
            implies i == k by {
        let pi = if i < j { i } else { i + 1 };
        let pk = if k < j { k } else { k + 1 };
        assert(pre.branches@[pi] == post.branches@[i]);
        assert(pre.branches@[pk] == post.branches@[k]);
    }
    assert forall|c: nat| c < post.commits@.len() && c != h implies (post.live(c)
        <==> #[trigger] post.owned(c)) by {
        assert(pre.live(c) <==> pre.owned(c));
        assert(post.held_by_child(c) == pre.held_by_child(c));
        if pre.held_by_branch(c) {
            let k = choose|k: int| 0 <= k < pre.branches@.len() && pre.branches@[k].head == c;
            assert(k != j);
            if k < j {
                assert(post.branches@[k].head == c);
            } else {
                assert(post.branches@[k - 1].head == c);
            }
        }
        if post.held_by_branch(c) {
            let k = choose|k: int| 0 <= k < post.branches@.len() && post.branches@[k].head == c;
            if k < j {
                assert(pre.branches@[k].head == c);
            } else {
                assert(pre.branches@[k + 1].head == c);
            }
        }
    }
    assert forall|n: Seq<u8>| #[trigger] post.table().contains_key(n) <==> pre.table().remove(
        name,
    ).contains_key(n) by {
        if post.table().contains_key(n) {
            let k = post.lemma_table_has(n);
            let pk = if k < j { k } else { k + 1 };
            assert(pre.branches@[pk] == post.branches@[k]);
            pre.lemma_table_at(pk);
        }
        if pre.table().contains_key(n) && n != name {
            let k = pre.lemma_table_has(n);
            let qk = if k < j { k } else { k - 1 };
            assert(pre.branches@[k] == post.branches@[qk]);
            post.lemma_table_at(qk);
        }
    }
    assert forall|n: Seq<u8>| #[trigger] post.table().contains_key(n) implies post.table()[n]
        == pre.table().remove(name)[n] by {
        let k = post.lemma_table_has(n);
        post.lemma_table_at(k);
        let pk = if k < j { k } else { k + 1 };
        assert(pre.branches@[pk] == post.branches@[k]);
        pre.lemma_table_at(pk);
    }
    assert(post.table() =~= pre.table().remove(name));
}

/// Commit `c` is reached from some branch by following parents.
pub open spec fn reachable(db: Database, c: nat) -> bool {
    exists|m: Seq<u8>, k: nat|
        db.table().contains_key(m) && #[trigger] db.ancestor(db.table()[m], k) == Some(c)
}

impl Database {
    /// How many parents back from commit `c` the history goes.
    pub open spec fn depth(self, c: nat) -> nat
        decreases c,
    {
        match self.parent(c) {
            Some(p) => if p < c {
                self.depth(p) + 1
            } else {
                0
            },
            None => 0,
        }
    }
}

/// Every commit that a branch denotes is one of the store's commits.
pub proof fn lemma_table_in_range(db: Database, m: Seq<u8>)
    requires
        db.wf(),
        db.table().contains_key(m),
    ensures
        db.table()[m] < db.n_commits(),
        db.live(db.table()[m]),
{
    let i = db.lemma_table_has(m);
    db.lemma_table_at(i);
    db.lemma_head_live(i);
}

/// Ancestors of a live commit are live.
proof fn lemma_ancestor_live(db: Database, c: nat, k: nat)
    requires
        db.wf(),
        db.live(c),
        db.ancestor(c, k) is Some,
    ensures
        db.live(db.ancestor(c, k)->0),
    decreases k,
{
    if k > 0 {
        db.lemma_parent_live(c);
        lemma_ancestor_live(db, db.parent(c)->0, (k - 1) as nat);
    }
}

/// One more step back from the `k`-th ancestor reaches its parent.
proof fn lemma_ancestor_step(db: Database, c: nat, k: nat)
    requires
        db.ancestor(c, k) is Some,
    ensures
        db.ancestor(c, k + 1) == db.parent(db.ancestor(c, k)->0),
    decreases k,
{
    if k > 0 {
        let p = db.parent(c)->0;
        lemma_ancestor_step(db, p, (k - 1) as nat);
        assert(db.ancestor(c, k + 1) == db.ancestor(p, k));
    } else {
        assert(db.ancestor(c, 1) == db.parent(c)) by {
            if db.parent(c) is Some {
                assert(db.ancestor(db.parent(c)->0, 0) == db.parent(c));
            }
        }
    }
}

/// Walking back from a commit that `pre` had gives the same commits in a
/// store that keeps the history of `pre`.
pub proof fn lemma_ancestor_kept(pre: Database, post: Database, c: nat, k: nat)
    requires
        pre.wf(),
        keeps_history(pre, post),
        c < pre.n_commits(),
    ensures
        post.ancestor(c, k) == pre.ancestor(c, k),
    decreases k,
{
    if k > 0 {
        assert(post.data(c) == pre.data(c));
        assert(post.parent(c) == pre.parent(c));
        if pre.parent(c) is Some {
            lemma_ancestor_kept(pre, post, pre.parent(c)->0, (k - 1) as nat);
        }
    }
}

/// A commit is live exactly when some branch reaches it: ownership frees a
/// commit precisely when its last owner goes.
pub proof fn law_live_iff_reachable(db: Database, c: nat)
    requires
        db.wf(),
    ensures
        db.live(c) <==> reachable(db, c),
    decreases db.n_commits() - c,
{
    if reachable(db, c) {
        let (m, k) = choose|m: Seq<u8>, k: nat|
            db.table().contains_key(m) && #[trigger] db.ancestor(db.table()[m], k) == Some(c);
        lemma_table_in_range(db, m);
        lemma_ancestor_live(db, db.table()[m], k);
    }
    if db.live(c) {
        assert(db.owned(c));
        if db.held_by_branch(c) {
            let i = choose|i: int| 0 <= i < db.branches@.len() && db.branches@[i].head == c;
            db.lemma_table_at(i);
            assert(db.ancestor(db.table()[db.branches@[i].name@], 0) == Some(c));
        } else {
            let d = choose|d: int|
                0 <= d < db.commits@.len() && #[trigger] db.alive@[d] && db.parent(d as nat)
                    == Some(c);
            assert(c < d);
            law_live_iff_reachable(db, d as nat);
            let (m, k) = choose|m: Seq<u8>, k: nat|
                db.table().contains_key(m) && #[trigger] db.ancestor(db.table()[m], k) == Some(
                    d as nat,
                );
            lemma_ancestor_step(db, db.table()[m], k);
            assert(db.ancestor(db.table()[m], k + 1) == Some(c));
        }
    }
}

/// A new branch at offset 0 from `b` denotes the same commit as `b`.
pub proof fn law_new_branch_at_head(
    pre: Database,
    post: Database,
    n: Seq<u8>,
    b: Seq<u8>,
    r: Result<Seq<Event>, (Seq<u8>, Option<nat>)>,
)
    requires
        pre.wf(),
        pre.table().contains_key(b),
        new_branch_done(pre, post, n, b, 0, r),
    ensures
        r is Ok,
        post.table()[n] == pre.table()[b],
        post.table()[n] == post.table()[b],
{
    assert(pre.ancestor(pre.table()[b], 0) == Some(pre.table()[b]));
}

/// Past the depth of its history, a branch cannot be walked back.
proof fn lemma_ancestor_depth(db: Database, c: nat, k: nat)
    requires
        db.shape_ok(),
        c < db.n_commits(),
    ensures
        db.ancestor(c, k) is None <==> k > db.depth(c),
    decreases k,
{
    if k > 0 {
        match db.parent(c) {
            Some(p) => {
                assert(p < c);
                lemma_ancestor_depth(db, p, (k - 1) as nat);
            },
            None => {},
        }
    }
}

/// An offset beyond the depth of the history of `b` fails with the branch
/// and the requested offset, and changes nothing.
pub proof fn law_too_deep(
    pre: Database,
    post: Database,
    n: Seq<u8>,
    b: Seq<u8>,
    k: nat,
    r: Result<Seq<Event>, (Seq<u8>, Option<nat>)>,
)
    requires
        pre.wf(),
        pre.table().contains_key(b),
        k > pre.depth(pre.table()[b]),
        new_branch_done(pre, post, n, b, k, r),
    ensures
        r == Err::<Seq<Event>, (Seq<u8>, Option<nat>)>((b, Some(k))),
        post == pre,
{
    lemma_table_in_range(pre, b);
    lemma_ancestor_depth(pre, pre.table()[b], k);
}

/// After `k` commits on `b`, offset `k` from `b` denotes the commit that was
/// its head before them.
pub proof fn law_commits_then_branch_back(
    states: Seq<Database>,
    payloads: Seq<Seq<u8>>,
    rs: Seq<Result<Seq<Event>, (Seq<u8>, Option<nat>)>>,
    b: Seq<u8>,
    n: Seq<u8>,
    post: Database,
    r: Result<Seq<Event>, (Seq<u8>, Option<nat>)>,
)
    requires
        states.len() == payloads.len() + 1,
        rs.len() == payloads.len(),
        forall|i: int| 0 <= i < states.len() ==> (#[trigger] states[i]).wf(),
        states[0].table().contains_key(b),
        forall|i: int|
            0 <= i < payloads.len() ==> new_commit_done(
                states[i],
                #[trigger] states[i + 1],
                payloads[i],
                b,
                rs[i],
            ),
        new_branch_done(states[payloads.len() as int], post, n, b, payloads.len(), r),
    ensures
        r is Ok,
        post.table()[n] == states[0].table()[b],
{
    lemma_chain(states, payloads, rs, b, payloads.len() as int);
}

proof fn lemma_chain(
    states: Seq<Database>,
    payloads: Seq<Seq<u8>>,
    rs: Seq<Result<Seq<Event>, (Seq<u8>, Option<nat>)>>,
    b: Seq<u8>,
    i: int,
)
    requires
        states.len() == payloads.len() + 1,
        rs.len() == payloads.len(),
        forall|i: int| 0 <= i < states.len() ==> (#[trigger] states[i]).wf(),
        states[0].table().contains_key(b),
        forall|i: int|
            0 <= i < payloads.len() ==> new_commit_done(
                states[i],
                #[trigger] states[i + 1],
                payloads[i],
                b,
                rs[i],
            ),
        0 <= i <= payloads.len(),
    ensures
        states[i].table().contains_key(b),
        states[i].ancestor(states[i].table()[b], i as nat) == Some(states[0].table()[b]),
    decreases i,
{
    if i == 0 {
        assert(states[0].ancestor(states[0].table()[b], 0) == Some(states[0].table()[b]));
    } else {
        lemma_chain(states, payloads, rs, b, i - 1);
        let pre = states[i - 1];
        let post = states[i];
        let j = i - 1;
        assert(new_commit_done(states[j], states[j + 1], payloads[j], b, rs[j]));
        let h = pre.table()[b];
        lemma_table_in_range(pre, b);
        lemma_ancestor_kept(pre, post, h, (i - 1) as nat);
        assert(post.ancestor(post.table()[b], i as nat) == post.ancestor(h, (i - 1) as nat));
    }
}

/// A deleted branch is no longer in the table.
pub proof fn law_deleted_branch_is_gone(
    pre: Database,
    post: Database,
    n: Seq<u8>,
    r: Result<Seq<Event>, (Seq<u8>, Option<nat>)>,
)
    requires
        delete_branch_done(pre, post, n, r),
    ensures
        !post.table().contains_key(n),
{
}

/// Deleting the one branch that reaches its head destroys that head, with
/// exactly one report; and a commit is reported exactly when it was live and
/// no branch reaches it any longer, so the destruction runs up the history
/// as far as it orphans commits.
pub proof fn law_delete_sole_owner(
    pre: Database,
    post: Database,
    n: Seq<u8>,
    r: Result<Seq<Event>, (Seq<u8>, Option<nat>)>,
)
    requires
        pre.wf(),
        post.wf(),
        pre.table().contains_key(n),
        forall|m: Seq<u8>, k: nat|
            m != n && pre.table().contains_key(m) ==> #[trigger] pre.ancestor(pre.table()[m], k)
                != Some(pre.table()[n]),
        delete_branch_done(pre, post, n, r),
    ensures
        r is Ok,
        r is Ok ==> exists|j: int|
            0 <= j < r->Ok_0.drop_first().len() && destroyed_id(
                #[trigger] r->Ok_0.drop_first()[j],
            ) == pre.table()[n] && forall|j2: int|
                0 <= j2 < r->Ok_0.drop_first().len() && destroyed_id(
                    #[trigger] r->Ok_0.drop_first()[j2],
                ) == pre.table()[n] ==> j2 == j,
        r is Ok ==> forall|c: nat|
            (exists|j: int|
                0 <= j < r->Ok_0.drop_first().len() && destroyed_id(
                    #[trigger] r->Ok_0.drop_first()[j],
                ) == c) <==> (pre.live(c) && !reachable(post, c)),
{
    let h = pre.table()[n];
    let tail = r->Ok_0.drop_first();
    lemma_table_in_range(pre, n);
    law_live_iff_reachable(post, h);
    if reachable(post, h) {
        let (m, k) = choose|m: Seq<u8>, k: nat|
            post.table().contains_key(m) && #[trigger] post.ancestor(post.table()[m], k) == Some(h);
        lemma_table_in_range(pre, m);
        lemma_ancestor_kept(pre, post, pre.table()[m], k);
        assert(pre.ancestor(pre.table()[m], k) == Some(h));
    }
    assert(!post.live(h));
    let j = choose|j: int| 0 <= j < tail.len() && destroyed_id(#[trigger] tail[j]) == h;
    assert forall|c: nat|
        (exists|j: int| 0 <= j < tail.len() && destroyed_id(#[trigger] tail[j]) == c) <==> (
        pre.live(c) && !reachable(post, c)) by {
        law_live_iff_reachable(post, c);
    }
}

/// Walking back never reaches a later commit.
proof fn lemma_ancestor_le(db: Database, c: nat, k: nat)
    requires
        db.wf(),
        db.ancestor(c, k) is Some,
    ensures
        db.ancestor(c, k)->0 <= c,
    decreases k,
{
    if k > 0 {
        let p = db.parent(c)->0;
        assert(db.commits@[c as int].parent is Some);
        lemma_ancestor_le(db, p, (k - 1) as nat);
    }
}

/// Branching `x` off `b`, committing on `x` and deleting `x` again destroys
/// exactly the new commit, reported once with its payload, and leaves `b`
/// where it was.
pub proof fn law_branch_commit_delete(
    s0: Database,
    s1: Database,
    s2: Database,
    s3: Database,
    x: Seq<u8>,
    b: Seq<u8>,
    payload: Seq<u8>,
    r1: Result<Seq<Event>, (Seq<u8>, Option<nat>)>,
    r2: Result<Seq<Event>, (Seq<u8>, Option<nat>)>,
    r3: Result<Seq<Event>, (Seq<u8>, Option<nat>)>,
)
    requires
        s0.wf(),
        s1.wf(),
        s2.wf(),
        s3.wf(),
        s0.table().contains_key(b),
        x != b,
        new_branch_done(s0, s1, x, b, 0, r1),
        new_commit_done(s1, s2, payload, x, r2),
        delete_branch_done(s2, s3, x, r3),
    ensures
        r1 is Ok,
        r2 is Ok,
        r3 is Ok,
        r3->Ok_0.len() == 2,
        r3->Ok_0[1]@ == EventView::CommitDestroyed(s1.n_commits(), payload),
        s3.table().contains_key(b),
        s3.table()[b] == s0.table()[b],
{
    law_new_branch_at_head(s0, s1, x, b, r1);
    let h = s0.table()[b];
    let n = s1.n_commits();
    assert(s2.table()[b] == h);
    let evs = r3->Ok_0;
    let tail = evs.drop_first();
    assert(s2.live(n));
    law_live_iff_reachable(s3, n);
    if reachable(s3, n) {
        let (m, k) = choose|m: Seq<u8>, k: nat|
            s3.table().contains_key(m) && #[trigger] s3.ancestor(s3.table()[m], k) == Some(n);
        assert(m != x);
        lemma_table_in_range(s1, m);
        lemma_ancestor_le(s3, s3.table()[m], k);
    }
    assert forall|c: nat| c != n && s2.live(c) implies s3.live(c) by {
        law_live_iff_reachable(s2, c);
        law_live_iff_reachable(s3, c);
        let (m, k) = choose|m: Seq<u8>, k: nat|
            s2.table().contains_key(m) && #[trigger] s2.ancestor(s2.table()[m], k) == Some(c);
        if m != x {
            lemma_table_in_range(s2, m);
            lemma_ancestor_kept(s2, s3, s2.table()[m], k);
            assert(s3.ancestor(s3.table()[m], k) == Some(c));
        } else {
            assert(k > 0);
            assert(s2.parent(n) == Some(h));
            assert(s2.ancestor(h, (k - 1) as nat) == Some(c));
            lemma_table_in_range(s2, b);
            lemma_ancestor_kept(s2, s3, h, (k - 1) as nat);
            assert(s3.ancestor(s3.table()[b], (k - 1) as nat) == Some(c));
        }
    }
    let j = choose|j: int| 0 <= j < tail.len() && destroyed_id(#[trigger] tail[j]) == n;
    assert forall|i: int| 0 <= i < tail.len() implies destroyed_id(#[trigger] tail[i]) == n by {
        assert(s2.live(destroyed_id(tail[i])) && !s3.live(destroyed_id(tail[i])));
    }
    if tail.len() > 1 {
        assert(destroyed_id(tail[0]) == destroyed_id(tail[1]));
    }
    assert(tail.len() == 1);
    assert(evs[1] == tail[0]);
}

/// Destroying `cur`, which had lost its last owner, leaves the ownership
/// invariant intact but for the parent of `cur`, which is still live.
proof fn lemma_kill_step(before: Database, after: Database, cur: nat)
    requires
        before.wf_but(cur),
        !before.owned(cur),
        after.commits@ == before.commits@,
        after.branches@ == before.branches@,
        after.alive@ == before.alive@.update(cur as int, false),
    ensures
        after.shape_ok(),
        !after.live(cur),
        !after.owned(cur),
        forall|c: nat| c != cur ==> after.live(c) == before.live(c),
        forall|c: nat|
            c < after.commits@.len() && c != cur && Some(c) != after.parent(cur) ==> (after.live(c)
                <==> #[trigger] after.owned(c)),
        after.parent(cur) is Some ==> after.live(after.parent(cur)->0),
{
    assert forall|c: nat|
        c < after.commits@.len() && c != cur && Some(c) != after.parent(cur) implies (after.live(c)
        <==> #[trigger] after.owned(c)) by {
        assert(before.live(c) <==> before.owned(c));
        assert(after.held_by_branch(c) == before.held_by_branch(c));
        if before.held_by_child(c) {
            let d = choose|d: int|
                0 <= d < before.commits@.len() && #[trigger] before.alive@[d]
                    && before.parent(d as nat) == Some(c);
            assert(after.alive@[d]);
        }
        if after.held_by_child(c) {
            let d = choose|d: int|
                0 <= d < after.commits@.len() && #[trigger] after.alive@[d]
                    && after.parent(d as nat) == Some(c);
            assert(before.alive@[d]);
        }
    }
    if after.held_by_child(cur) {
        let d = choose|d: int|
            0 <= d < after.commits@.len() && #[trigger] after.alive@[d]
                && after.parent(d as nat) == Some(cur);
        assert(before.alive@[d]);
    }
    if after.parent(cur) is Some {
        let p = after.parent(cur)->0;
        assert(before.alive@[cur as int]);
        assert(before.held_by_child(p));
        assert(before.owned(p));
    }
}

/// Appending the report of `cur`, destroyed from `before` to `after`, keeps
/// the reports exact.
proof fn lemma_report_step(
    pre: Database,
    before: Database,
    after: Database,
    tail: Seq<Event>,
    ev: Event,
    cur: nat,
)
    requires
        reports_destroyed(pre, before, tail),
        before.live(cur),
        !after.live(cur),
        forall|c: nat| c != cur ==> after.live(c) == before.live(c),
        forall|c: nat| #[trigger] before.live(c) ==> pre.live(c),
        before.commits@ == pre.commits@,
        ev@ == EventView::CommitDestroyed(cur, pre.data(cur)),
    ensures
        reports_destroyed(pre, after, tail.push(ev)),
{
    let ntail = tail.push(ev);
    assert(destroyed_id(ev) == cur);
    assert forall|j: int| 0 <= j < ntail.len() implies (#[trigger] ntail[j])@
        == EventView::CommitDestroyed(destroyed_id(ntail[j]), pre.data(destroyed_id(ntail[j])))
        && pre.live(destroyed_id(ntail[j])) && !after.live(destroyed_id(ntail[j])) by {
        if j < tail.len() {
            assert(ntail[j] == tail[j]);
        }
    }
    assert forall|j1: int, j2: int|
        0 <= j1 < ntail.len() && 0 <= j2 < ntail.len() && destroyed_id(#[trigger] ntail[j1])
            == destroyed_id(#[trigger] ntail[j2]) implies j1 == j2 by {
        if j1 < tail.len() {
            assert(ntail[j1] == tail[j1]);
            assert(!before.live(destroyed_id(tail[j1])));
        }
        if j2 < tail.len() {
            assert(ntail[j2] == tail[j2]);
            assert(!before.live(destroyed_id(tail[j2])));
        }
    }
    assert forall|c: nat| pre.live(c) && !after.live(c) implies exists|j: int|
        0 <= j < ntail.len() && destroyed_id(#[trigger] ntail[j]) == c by {
        if c == cur {
            assert(destroyed_id(ntail[tail.len() as int]) == c);
        } else {
            assert(!before.live(c));
            let j = choose|j: int| 0 <= j < tail.len() && destroyed_id(#[trigger] tail[j]) == c;
            assert(ntail[j] == tail[j]);
        }
    }
}

/// The commit that a destruction report names.
pub open spec fn destroyed_id(e: Event) -> nat {
    match e {
        Event::CommitDestroyed { id, .. } => id as nat,
        _ => 0,
    }
}

/// `tail` reports, once each and with its payload, exactly the commits that
/// were live in `pre` and are no longer live in `post`.
pub open spec fn reports_destroyed(pre: Database, post: Database, tail: Seq<Event>) -> bool {
    &&& forall|j: int|
        0 <= j < tail.len() ==> (#[trigger] tail[j])@ == EventView::CommitDestroyed(
            destroyed_id(tail[j]),
            pre.data(destroyed_id(tail[j])),
        ) && pre.live(destroyed_id(tail[j])) && !post.live(destroyed_id(tail[j]))
    &&& forall|j1: int, j2: int|
        0 <= j1 < tail.len() && 0 <= j2 < tail.len() && destroyed_id(#[trigger] tail[j1])
            == destroyed_id(#[trigger] tail[j2]) ==> j1 == j2
    &&& forall|c: nat|
        pre.live(c) && !post.live(c) ==> exists|j: int|
            0 <= j < tail.len() && destroyed_id(#[trigger] tail[j]) == c
}

} // verus!

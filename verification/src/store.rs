//! In-memory model of the relational store and its persistence rules.
//!
//! Tables are vectors of rows; the well-formedness invariant carries the
//! schema's guarantees: row identifiers are unique and below the next
//! free identifier, repository keys `(owner, name)` and pull keys
//! `(repo_id, number)` are unique, and every child row's parent exists
//! (no orphans). Insertion methods enforce the per-entity idempotency
//! policy: pull requests are rejected on re-collection of the same key,
//! timeline events de-duplicate by their remote identifier when one is
//! present, reviews always append.

use vstd::prelude::*;
use vstd::string::StrSliceExecFns;
use crate::errors::CollectError;
use crate::records::{
    RemotePull, RemoteReview, RemoteEvent, spec_text_or_empty, spec_opt_view, text_or_empty,
    pull_state_or_empty, review_state_or_empty, association_or_empty,
};

verus! {

/// Index of the first `/` in `s`, or `s.len()` when none occurs.
pub open spec fn find_slash(s: Seq<char>) -> int
    decreases s.len(),
{
    if s.len() == 0 {
        0
    } else if s[0] == '/' {
        0
    } else {
        1 + find_slash(s.subrange(1, s.len() as int))
    }
}

/// Index of the last `/` in `s`, or `-1` when none occurs.
pub open spec fn rfind_slash(s: Seq<char>) -> int
    decreases s.len(),
{
    if s.len() == 0 {
        -1
    } else if s.last() == '/' {
        s.len() - 1
    } else {
        rfind_slash(s.drop_last())
    }
}

/// The owner part of a repository path: the text before the first `/`,
/// or the whole path when it has none.
pub open spec fn spec_owner_of(path: Seq<char>) -> Seq<char> {
    path.subrange(0, find_slash(path))
}

/// The name part of a repository path: the text after the last `/`,
/// or the whole path when it has none.
pub open spec fn spec_name_of(path: Seq<char>) -> Seq<char> {
    if rfind_slash(path) == -1 {
        path
    } else {
        path.subrange(rfind_slash(path) + 1, path.len() as int)
    }
}

proof fn lemma_find_slash_is(s: Seq<char>, k: int)
    requires
        0 <= k <= s.len(),
        forall|j: int| 0 <= j < k ==> s[j] != '/',
        k < s.len() ==> s[k] == '/',
    ensures
        find_slash(s) == k,
    decreases s.len(),
{
    if s.len() == 0 {
    } else if s[0] == '/' {
        assert(k == 0);
    } else {
        let t = s.subrange(1, s.len() as int);
        assert(k >= 1);
        assert forall|j: int| 0 <= j < k - 1 implies t[j] != '/' by {
            assert(t[j] == s[j + 1]);
        }
        assert(k - 1 < t.len() ==> t[k - 1] == s[k]);
        lemma_find_slash_is(t, k - 1);
    }
}

proof fn lemma_rfind_slash_is(s: Seq<char>, k: int)
    requires
        -1 <= k < s.len(),
        k >= 0 ==> s[k] == '/',
        forall|j: int| k < j < s.len() ==> s[j] != '/',
    ensures
        rfind_slash(s) == k,
    decreases s.len(),
{
    if s.len() == 0 {
    } else if s.last() == '/' {
        assert(k == s.len() - 1);
    } else {
        assert(k < s.len() - 1);
        let t = s.drop_last();
        lemma_rfind_slash_is(t, k);
    }
}

/// Splits a repository path into its owner (before the first `/`) and
/// its name (after the last `/`); a path without a `/` is both.
pub fn repo_path_parts(path: &str) -> (r: (String, String))
    ensures
        r.0@ == spec_owner_of(path@),
        r.1@ == spec_name_of(path@),
{
    let n = path.unicode_len();
    let mut a: usize = 0;
    while a < n && path.get_char(a) != '/'
        invariant
            0 <= a <= n,
            n == path@.len(),
            forall|j: int| 0 <= j < a ==> path@[j] != '/',
        decreases n - a,
    {
        a = a + 1;
    }
    proof {
        lemma_find_slash_is(path@, a as int);
    }
    let owner = path.substring_char(0, a).to_owned();
    let mut b: usize = n;
    while b > 0 && path.get_char(b - 1) != '/'
        invariant
            0 <= b <= n,
            n == path@.len(),
            forall|j: int| b <= j < n ==> path@[j] != '/',
        decreases b,
    {
        b = b - 1;
    }
    let name = if b == 0 {
        proof {
            lemma_rfind_slash_is(path@, -1);
        }
        path.to_owned()
    } else {
        proof {
            lemma_rfind_slash_is(path@, b as int - 1);
        }
        path.substring_char(b, n).to_owned()
    };
    (owner, name)
}

/// A tracked repository row.
#[derive(Debug)]
pub struct Repository {
    pub id: u32,
    pub owner: String,
    pub name: String,
}

/// A stored pull-request row. Optional remote fields are stored as the
/// empty string when absent, never as a missing value.
#[derive(Debug)]
pub struct PullRequest {
    pub id: u32,
    pub repo_id: u32,
    pub number: u32,
    pub title: String,
    pub state: String,
    pub created_at: String,
    pub updated_at: String,
    pub closed_at: String,
    pub merged_at: String,
    pub author: String,
    pub author_association: String,
}

/// A stored timeline-event row.
#[derive(Debug)]
pub struct PullRequestEvent {
    pub id: u32,
    pub issue_pull_id: u32,
    pub event_type: String,
    pub actor: String,
    pub author_association: String,
    pub created_at: String,
}

/// A stored review row.
#[derive(Debug)]
pub struct PullRequestReview {
    pub id: u32,
    pub issue_pull_id: u32,
    pub reviewer: String,
    pub state: String,
    pub author_association: String,
    pub submitted_at: String,
}

impl Repository {
    /// An owned copy of the row.
    pub fn duplicate(&self) -> (r: Self)
        ensures
            r == *self,
    {
        Repository { id: self.id, owner: self.owner.clone(), name: self.name.clone() }
    }
}

impl PullRequest {
    /// An owned copy of the row.
    pub fn duplicate(&self) -> (r: Self)
        ensures
            r == *self,
    {
        PullRequest {
            id: self.id,
            repo_id: self.repo_id,
            number: self.number,
            title: self.title.clone(),
            state: self.state.clone(),
            created_at: self.created_at.clone(),
            updated_at: self.updated_at.clone(),
            closed_at: self.closed_at.clone(),
            merged_at: self.merged_at.clone(),
            author: self.author.clone(),
            author_association: self.author_association.clone(),
        }
    }
}

impl PullRequestEvent {
    /// An owned copy of the row.
    pub fn duplicate(&self) -> (r: Self)
        ensures
            r == *self,
    {
        PullRequestEvent {
            id: self.id,
            issue_pull_id: self.issue_pull_id,
            event_type: self.event_type.clone(),
            actor: self.actor.clone(),
            author_association: self.author_association.clone(),
            created_at: self.created_at.clone(),
        }
    }
}

impl PullRequestReview {
    /// An owned copy of the row.
    pub fn duplicate(&self) -> (r: Self)
        ensures
            r == *self,
    {
        PullRequestReview {
            id: self.id,
            issue_pull_id: self.issue_pull_id,
            reviewer: self.reviewer.clone(),
            state: self.state.clone(),
            author_association: self.author_association.clone(),
            submitted_at: self.submitted_at.clone(),
        }
    }
}

/// The in-memory relational store.
pub struct Store {
    pub repositories: Vec<Repository>,
    pub pulls: Vec<PullRequest>,
    pub events: Vec<PullRequestEvent>,
    pub reviews: Vec<PullRequestReview>,
    pub next_repo_id: u32,
    pub next_pull_id: u32,
    pub next_event_id: u64,
    pub next_review_id: u32,
}

impl Store {
    /// Some repository row has identifier `id`.
    pub open spec fn spec_has_repo_id(self, id: u32) -> bool {
        exists|j: int|
            0 <= j < self.repositories@.len() && (#[trigger] self.repositories@[j]).id == id
    }

    /// Some repository row has key `(owner, name)`.
    pub open spec fn spec_has_repo_key(self, owner: Seq<char>, name: Seq<char>) -> bool {
        exists|j: int|
            0 <= j < self.repositories@.len() && (#[trigger] self.repositories@[j]).owner@ == owner
                && self.repositories@[j].name@ == name
    }

    /// Some pull row has identifier `id`.
    pub open spec fn spec_has_pull_id(self, id: u32) -> bool {
        exists|j: int| 0 <= j < self.pulls@.len() && (#[trigger] self.pulls@[j]).id == id
    }

    /// Some pull row has key `(repo_id, number)`.
    pub open spec fn spec_has_pull_key(self, repo_id: u32, number: u32) -> bool {
        exists|j: int|
            0 <= j < self.pulls@.len() && (#[trigger] self.pulls@[j]).repo_id == repo_id
                && self.pulls@[j].number == number
    }

    /// Some event row has identifier `id`.
    pub open spec fn spec_has_event_id(self, id: u32) -> bool {
        exists|j: int| 0 <= j < self.events@.len() && (#[trigger] self.events@[j]).id == id
    }

    /// The schema's guarantees: unique identifiers below the next free
    /// one, unique natural keys, and no orphan child rows.
    pub open spec fn wf(self) -> bool {
        &&& forall|i: int|
            0 <= i < self.repositories@.len() ==> (#[trigger] self.repositories@[i]).id
                < self.next_repo_id
        &&& forall|i: int, j: int|
            0 <= i < self.repositories@.len() && 0 <= j < self.repositories@.len() && i != j ==> (
            #[trigger] self.repositories@[i]).id != (#[trigger] self.repositories@[j]).id
        &&& forall|i: int, j: int|
            0 <= i < self.repositories@.len() && 0 <= j < self.repositories@.len() && i != j
                ==> !((#[trigger] self.repositories@[i]).owner@ == (
            #[trigger] self.repositories@[j]).owner@ && self.repositories@[i].name@
                == self.repositories@[j].name@)
        &&& forall|i: int|
            0 <= i < self.pulls@.len() ==> (#[trigger] self.pulls@[i]).id < self.next_pull_id
        &&& forall|i: int, j: int|
            0 <= i < self.pulls@.len() && 0 <= j < self.pulls@.len() && i != j ==> (
            #[trigger] self.pulls@[i]).id != (#[trigger] self.pulls@[j]).id
        &&& forall|i: int, j: int|
            0 <= i < self.pulls@.len() && 0 <= j < self.pulls@.len() && i != j ==> !((
            #[trigger] self.pulls@[i]).repo_id == (#[trigger] self.pulls@[j]).repo_id
                && self.pulls@[i].number == self.pulls@[j].number)
        &&& forall|i: int|
            0 <= i < self.pulls@.len() ==> self.spec_has_repo_id(
                (#[trigger] self.pulls@[i]).repo_id,
            )
        &&& forall|i: int|
            0 <= i < self.events@.len() ==> ((#[trigger] self.events@[i]).id as u64)
                < self.next_event_id
        &&& forall|i: int, j: int|
            0 <= i < self.events@.len() && 0 <= j < self.events@.len() && i != j ==> (
            #[trigger] self.events@[i]).id != (#[trigger] self.events@[j]).id
        &&& forall|i: int|
            0 <= i < self.events@.len() ==> self.spec_has_pull_id(
                (#[trigger] self.events@[i]).issue_pull_id,
            )
        &&& forall|i: int|
            0 <= i < self.reviews@.len() ==> (#[trigger] self.reviews@[i]).id
                < self.next_review_id
        &&& forall|i: int, j: int|
            0 <= i < self.reviews@.len() && 0 <= j < self.reviews@.len() && i != j ==> (
            #[trigger] self.reviews@[i]).id != (#[trigger] self.reviews@[j]).id
        &&& forall|i: int|
            0 <= i < self.reviews@.len() ==> self.spec_has_pull_id(
                (#[trigger] self.reviews@[i]).issue_pull_id,
            )
    }

    /// An empty store; row identifiers start at one, as the backing
    /// relational engine assigns them.
    pub fn new() -> (r: Store)
        ensures
            r.wf(),
            r.repositories@.len() == 0,
            r.pulls@.len() == 0,
            r.events@.len() == 0,
            r.reviews@.len() == 0,
            r.next_repo_id == 1,
            r.next_pull_id == 1,
            r.next_event_id == 1,
            r.next_review_id == 1,
    {
        Store {
            repositories: Vec::new(),
            pulls: Vec::new(),
            events: Vec::new(),
            reviews: Vec::new(),
            next_repo_id: 1,
            next_pull_id: 1,
            next_event_id: 1,
            next_review_id: 1,
        }
    }

    /// Whether a repository with identifier `id` exists.
    pub fn has_repo_id(&self, id: u32) -> (r: bool)
        ensures
            r == self.spec_has_repo_id(id),
    {
        let mut i: usize = 0;
        while i < self.repositories.len()
            invariant
                0 <= i <= self.repositories@.len(),
                forall|j: int| 0 <= j < i ==> (#[trigger] self.repositories@[j]).id != id,
            decreases self.repositories@.len() - i,
        {
            if self.repositories[i].id == id {
                return true;
            }
            i = i + 1;
        }
        false
    }

    /// Whether a pull row with identifier `id` exists.
    pub fn has_pull_id(&self, id: u32) -> (r: bool)
        ensures
            r == self.spec_has_pull_id(id),
    {
        let mut i: usize = 0;
        while i < self.pulls.len()
            invariant
                0 <= i <= self.pulls@.len(),
                forall|j: int| 0 <= j < i ==> (#[trigger] self.pulls@[j]).id != id,
            decreases self.pulls@.len() - i,
        {
            if self.pulls[i].id == id {
                return true;
            }
            i = i + 1;
        }
        false
    }

    /// The index of the pull row with key `(repo_id, number)`, if any.
    pub fn find_pull(&self, repo_id: u32, number: u32) -> (r: Option<usize>)
        ensures
            match r {
                Some(i) => 0 <= i < self.pulls@.len() && self.pulls@[i as int].repo_id == repo_id
                    && self.pulls@[i as int].number == number,
                None => !self.spec_has_pull_key(repo_id, number),
            },
    {
        let mut i: usize = 0;
        while i < self.pulls.len()
            invariant
                0 <= i <= self.pulls@.len(),
                forall|j: int|
                    0 <= j < i ==> !((#[trigger] self.pulls@[j]).repo_id == repo_id
                        && self.pulls@[j].number == number),
            decreases self.pulls@.len() - i,
        {
            if self.pulls[i].repo_id == repo_id && self.pulls[i].number == number {
                return Some(i);
            }
            i = i + 1;
        }
        None
    }

    /// The index of the event row with identifier `id`, if any.
    pub fn find_event(&self, id: u32) -> (r: Option<usize>)
        ensures
            match r {
                Some(i) => 0 <= i < self.events@.len() && self.events@[i as int].id == id,
                None => !self.spec_has_event_id(id),
            },
    {
        let mut i: usize = 0;
        while i < self.events.len()
            invariant
                0 <= i <= self.events@.len(),
                forall|j: int| 0 <= j < i ==> (#[trigger] self.events@[j]).id != id,
            decreases self.events@.len() - i,
        {
            if self.events[i].id == id {
                return Some(i);
            }
            i = i + 1;
        }
        None
    }

    /// The index of the repository row with key `(owner, name)`, if any.
    pub fn find_repo(&self, owner: &String, name: &String) -> (r: Option<usize>)
        ensures
            match r {
                Some(i) => 0 <= i < self.repositories@.len() && self.repositories@[i as int].owner@
                    == owner@ && self.repositories@[i as int].name@ == name@,
                None => !self.spec_has_repo_key(owner@, name@),
            },
    {
        let mut i: usize = 0;
        while i < self.repositories.len()
            invariant
                0 <= i <= self.repositories@.len(),
                forall|j: int|
                    0 <= j < i ==> !((#[trigger] self.repositories@[j]).owner@ == owner@
                        && self.repositories@[j].name@ == name@),
            decreases self.repositories@.len() - i,
        {
            if self.repositories[i].owner == *owner && self.repositories[i].name == *name {
                return Some(i);
            }
            i = i + 1;
        }
        None
    }
}

/// A pull row stays findable by its identifier while the pulls table is
/// untouched, whatever happens to the other tables.
pub proof fn lemma_has_pull_id_stable(pre: Store, post: Store, id: u32)
    requires
        pre.spec_has_pull_id(id),
        post.pulls@ == pre.pulls@,
    ensures
        post.spec_has_pull_id(id),
{
    let j = choose|j: int| 0 <= j < pre.pulls@.len() && (#[trigger] pre.pulls@[j]).id == id;
    assert(post.pulls@[j] == pre.pulls@[j]);
}

/// Two stores with the same pulls table agree on which pull
/// identifiers exist.
pub proof fn lemma_has_pull_id_same(a: Store, b: Store, id: u32)
    requires
        a.pulls@ == b.pulls@,
    ensures
        a.spec_has_pull_id(id) == b.spec_has_pull_id(id),
{
    if a.spec_has_pull_id(id) {
        let j = choose|j: int| 0 <= j < a.pulls@.len() && (#[trigger] a.pulls@[j]).id == id;
        assert(b.pulls@[j] == a.pulls@[j]);
    }
    if b.spec_has_pull_id(id) {
        let j = choose|j: int| 0 <= j < b.pulls@.len() && (#[trigger] b.pulls@[j]).id == id;
        assert(a.pulls@[j] == b.pulls@[j]);
    }
}

/// A repository row stays findable by its identifier while the
/// repositories table is untouched.
pub proof fn lemma_has_repo_id_stable(pre: Store, post: Store, id: u32)
    requires
        pre.spec_has_repo_id(id),
        post.repositories@ == pre.repositories@,
    ensures
        post.spec_has_repo_id(id),
{
    let j = choose|j: int|
        0 <= j < pre.repositories@.len() && (#[trigger] pre.repositories@[j]).id == id;
    assert(post.repositories@[j] == pre.repositories@[j]);
}

/// A pull key stays present while the pulls table only grows at the
/// end.
pub proof fn lemma_has_pull_key_extends(pre: Store, post: Store, repo_id: u32, n: u32)
    requires
        pre.spec_has_pull_key(repo_id, n),
        post.pulls@.len() >= pre.pulls@.len(),
        post.pulls@.subrange(0, pre.pulls@.len() as int) == pre.pulls@,
    ensures
        post.spec_has_pull_key(repo_id, n),
{
    let j = choose|j: int|
        0 <= j < pre.pulls@.len() && (#[trigger] pre.pulls@[j]).repo_id == repo_id
            && pre.pulls@[j].number == n;
    assert(post.pulls@[j] == post.pulls@.subrange(0, pre.pulls@.len() as int)[j]);
}

/// How a remote pull request is stored: optional fields become the
/// empty string, enumerated fields their canonical label.
pub open spec fn spec_pull_fields_ok(row: PullRequest, repo_id: u32, p: RemotePull) -> bool {
    &&& row.repo_id == repo_id
    &&& row.number == p.number
    &&& row.title@ == spec_text_or_empty(spec_opt_view(p.title))
    &&& row.state@ == (match p.state {
        Option::Some(s) => s.spec_label(),
        Option::None => Seq::<char>::empty(),
    })
    &&& row.created_at@ == spec_text_or_empty(spec_opt_view(p.created_at))
    &&& row.updated_at@ == spec_text_or_empty(spec_opt_view(p.updated_at))
    &&& row.closed_at@ == spec_text_or_empty(spec_opt_view(p.closed_at))
    &&& row.merged_at@ == spec_text_or_empty(spec_opt_view(p.merged_at))
    &&& row.author@ == spec_text_or_empty(spec_opt_view(p.author))
    &&& row.author_association@ == (match p.author_association {
        Option::Some(a) => a.spec_label(),
        Option::None => Seq::<char>::empty(),
    })
}

/// How a remote review is stored.
pub open spec fn spec_review_fields_ok(row: PullRequestReview, pid: u32, v: RemoteReview) -> bool {
    &&& row.issue_pull_id == pid
    &&& row.reviewer@ == spec_text_or_empty(spec_opt_view(v.reviewer))
    &&& row.state@ == (match v.state {
        Option::Some(s) => s.spec_label(),
        Option::None => Seq::<char>::empty(),
    })
    &&& row.author_association@ == (match v.author_association {
        Option::Some(a) => a.spec_label(),
        Option::None => Seq::<char>::empty(),
    })
    &&& row.submitted_at@ == spec_text_or_empty(spec_opt_view(v.submitted_at))
}

/// How a remote timeline event is stored.
pub open spec fn spec_event_fields_ok(row: PullRequestEvent, pid: u32, e: RemoteEvent) -> bool {
    &&& row.issue_pull_id == pid
    &&& row.event_type@ == e.event_type@
    &&& row.actor@ == spec_text_or_empty(spec_opt_view(e.actor))
    &&& row.author_association@ == spec_text_or_empty(spec_opt_view(e.author_association))
    &&& row.created_at@ == spec_text_or_empty(spec_opt_view(e.created_at))
}

/// The de-duplication key of a remote timeline event: its remote id,
/// when present and small enough to be a local identifier.
pub open spec fn spec_event_key(e: RemoteEvent) -> Option<u32> {
    match e.id {
        Option::Some(n) => if n <= u32::MAX as u64 {
            Option::Some(n as u32)
        } else {
            Option::None
        },
        Option::None => Option::None,
    }
}

/// Whether some event row carries identifier `k`.
pub open spec fn events_contain_id(events: Seq<PullRequestEvent>, k: u32) -> bool {
    exists|j: int| 0 <= j < events.len() && (#[trigger] events[j]).id == k
}

/// The event table after an insert-or-ignore of `row` keyed on `k`:
/// unchanged when a row with identifier `k` is already present,
/// extended by `row` otherwise.
pub open spec fn spec_events_after(
    events: Seq<PullRequestEvent>,
    k: u32,
    row: PullRequestEvent,
) -> Seq<PullRequestEvent> {
    if events_contain_id(events, k) {
        events
    } else {
        events.push(row)
    }
}

/// The number of event rows carrying identifier `k`.
pub open spec fn count_rows_with_id(events: Seq<PullRequestEvent>, k: u32) -> int {
    events.filter(|e: PullRequestEvent| e.id == k).len() as int
}

proof fn lemma_count_id_zero(events: Seq<PullRequestEvent>, k: u32)
    requires
        !events_contain_id(events, k),
    ensures
        count_rows_with_id(events, k) == 0,
    decreases events.len(),
{
    reveal(Seq::filter);
    if events.len() > 0 {
        assert(!events_contain_id(events.drop_last(), k)) by {
            if events_contain_id(events.drop_last(), k) {
                let j = choose|j: int|
                    0 <= j < events.drop_last().len() && (#[trigger] events.drop_last()[j]).id
                        == k;
                assert(events[j] == events.drop_last()[j]);
            }
        }
        lemma_count_id_zero(events.drop_last(), k);
    }
}

/// Law: a timeline event keyed by remote identifier `k` is stored at
/// most once within one store. Inserting it a second time leaves the
/// table unchanged, and a table that lacked the identifier holds
/// exactly one row with it after the first insert.
pub proof fn lemma_event_insert_idempotent(
    events: Seq<PullRequestEvent>,
    k: u32,
    first: PullRequestEvent,
    again: PullRequestEvent,
)
    requires
        first.id == k,
    ensures
        spec_events_after(spec_events_after(events, k, first), k, again) == spec_events_after(
            events,
            k,
            first,
        ),
        !events_contain_id(events, k) ==> count_rows_with_id(
            spec_events_after(events, k, first),
            k,
        ) == 1,
{
    let once = spec_events_after(events, k, first);
    if events_contain_id(events, k) {
        assert(events_contain_id(once, k));
    } else {
        assert(once == events.push(first));
        assert(once[once.len() - 1].id == k);
        assert(events_contain_id(once, k));
        assert(count_rows_with_id(once, k) == 1) by {
            reveal(Seq::filter);
            assert(once.drop_last() =~= events);
            assert(once.last() == first);
            lemma_count_id_zero(events, k);
        }
    }
}

/// The de-duplication key of a remote timeline event, as executed.
pub fn event_key(e: &RemoteEvent) -> (r: Option<u32>)
    ensures
        r == spec_event_key(*e),
{
    match e.id {
        Option::Some(n) => if n <= u32::MAX as u64 {
            Some(n as u32)
        } else {
            None
        },
        Option::None => None,
    }
}

impl Repository {
    /// Inserts the repository named by `path` (`owner/name`) and returns
    /// the stored row; a repository with the same owner and name is
    /// rejected as a uniqueness violation.
    pub fn create(store: &mut Store, path: &str) -> (r: Result<Repository, CollectError>)
        requires
            old(store).wf(),
            old(store).next_repo_id < u32::MAX,
        ensures
            final(store).wf(),
            old(store).spec_has_repo_key(spec_owner_of(path@), spec_name_of(path@)) ==> r == Err::<
                Repository,
                CollectError,
            >(CollectError::Uniqueness) && *final(store) == *old(store),
            !old(store).spec_has_repo_key(spec_owner_of(path@), spec_name_of(path@)) ==> (r matches
            Ok(row) && row.id == old(store).next_repo_id && row.owner@ == spec_owner_of(path@)
                && row.name@ == spec_name_of(path@) && final(store).repositories@ == old(store).repositories@.push(row) && final(store).next_repo_id == old(store).next_repo_id + 1
                && final(store).pulls@ == old(store).pulls@ && final(store).events@ == old(store).events@ && final(store).reviews@ == old(store).reviews@ && final(store).next_pull_id
                == old(store).next_pull_id && final(store).next_event_id == old(store).next_event_id && final(store).next_review_id == old(store).next_review_id),
    {
        let (owner, name) = repo_path_parts(path);
        match store.find_repo(&owner, &name) {
            Some(_) => Err(CollectError::Uniqueness),
            None => {
                let row = Repository { id: store.next_repo_id, owner, name };
                let ret = row.duplicate();
                let ghost pre = *store;
                store.repositories.push(row);
                store.next_repo_id = store.next_repo_id + 1;
                proof {
                    assert forall|i: int| 0 <= i < store.pulls@.len() implies store.spec_has_repo_id(
                        (#[trigger] store.pulls@[i]).repo_id,
                    ) by {
                        assert(pre.spec_has_repo_id(pre.pulls@[i].repo_id));
                        let j = choose|j: int|
                            0 <= j < pre.repositories@.len() && (#[trigger] pre.repositories@[j]).id
                                == pre.pulls@[i].repo_id;
                        assert(store.repositories@[j] == pre.repositories@[j]);
                    }
                }
                Ok(ret)
            },
        }
    }

    /// Looks the repository named by `path` up by its `(owner, name)`
    /// key.
    pub fn from(store: &Store, path: &str) -> (r: Result<Repository, CollectError>)
        ensures
            match r {
                Ok(row) => store.repositories@.contains(row) && row.owner@ == spec_owner_of(path@)
                    && row.name@ == spec_name_of(path@),
                Err(e) => e == CollectError::NotFound && !store.spec_has_repo_key(
                    spec_owner_of(path@),
                    spec_name_of(path@),
                ),
            },
    {
        let (owner, name) = repo_path_parts(path);
        match store.find_repo(&owner, &name) {
            Some(i) => {
                let row = store.repositories[i].duplicate();
                proof {
                    assert(store.repositories@[i as int] == row);
                }
                Ok(row)
            },
            None => Err(CollectError::NotFound),
        }
    }
}

impl PullRequest {
    /// Inserts a fetched pull request under `repo_id` and returns the
    /// stored row. The parent repository must exist; re-collecting an
    /// already-stored `(repo_id, number)` key is rejected as a
    /// uniqueness violation.
    pub fn create(store: &mut Store, pull: &RemotePull, repo_id: u32) -> (r: Result<
        PullRequest,
        CollectError,
    >)
        requires
            old(store).wf(),
            old(store).next_pull_id < u32::MAX,
        ensures
            final(store).wf(),
            !old(store).spec_has_repo_id(repo_id) ==> r == Err::<PullRequest, CollectError>(
                CollectError::DataIntegrity,
            ) && *final(store) == *old(store),
            old(store).spec_has_repo_id(repo_id) && old(store).spec_has_pull_key(
                repo_id,
                pull.number,
            ) ==> r == Err::<PullRequest, CollectError>(CollectError::Uniqueness) && *final(store)
                == *old(store),
            old(store).spec_has_repo_id(repo_id) && !old(store).spec_has_pull_key(
                repo_id,
                pull.number,
            ) ==> (r matches Ok(row) && row.id == old(store).next_pull_id && spec_pull_fields_ok(
                row,
                repo_id,
                *pull,
            ) && final(store).pulls@ == old(store).pulls@.push(row) && final(store).next_pull_id
                == old(store).next_pull_id + 1 && final(store).repositories@ == old(store).repositories@ && final(store).events@ == old(store).events@ && final(store).reviews@
                == old(store).reviews@ && final(store).next_repo_id == old(store).next_repo_id
                && final(store).next_event_id == old(store).next_event_id && final(store).next_review_id == old(store).next_review_id),
    {
        if !store.has_repo_id(repo_id) {
            return Err(CollectError::DataIntegrity);
        }
        match store.find_pull(repo_id, pull.number) {
            Some(_) => Err(CollectError::Uniqueness),
            None => {
                let row = PullRequest {
                    id: store.next_pull_id,
                    repo_id,
                    number: pull.number,
                    title: text_or_empty(&pull.title),
                    state: pull_state_or_empty(&pull.state),
                    created_at: text_or_empty(&pull.created_at),
                    updated_at: text_or_empty(&pull.updated_at),
                    closed_at: text_or_empty(&pull.closed_at),
                    merged_at: text_or_empty(&pull.merged_at),
                    author: text_or_empty(&pull.author),
                    author_association: association_or_empty(&pull.author_association),
                };
                let ret = row.duplicate();
                let ghost pre = *store;
                store.pulls.push(row);
                store.next_pull_id = store.next_pull_id + 1;
                proof {
                    assert forall|i: int| 0 <= i < store.pulls@.len() implies store.spec_has_repo_id(
                        (#[trigger] store.pulls@[i]).repo_id,
                    ) by {
                        let target: u32 = if i < pre.pulls@.len() {
                            pre.pulls@[i].repo_id
                        } else {
                            repo_id
                        };
                        assert(pre.spec_has_repo_id(target));
                        let j = choose|j: int|
                            0 <= j < pre.repositories@.len() && (#[trigger] pre.repositories@[j]).id
                                == target;
                        assert(store.repositories@[j] == pre.repositories@[j]);
                    }
                    assert forall|i: int|
                        0 <= i < store.events@.len() implies store.spec_has_pull_id(
                        (#[trigger] store.events@[i]).issue_pull_id,
                    ) by {
                        assert(pre.spec_has_pull_id(pre.events@[i].issue_pull_id));
                        let j = choose|j: int|
                            0 <= j < pre.pulls@.len() && (#[trigger] pre.pulls@[j]).id
                                == pre.events@[i].issue_pull_id;
                        assert(store.pulls@[j] == pre.pulls@[j]);
                    }
                    assert forall|i: int|
                        0 <= i < store.reviews@.len() implies store.spec_has_pull_id(
                        (#[trigger] store.reviews@[i]).issue_pull_id,
                    ) by {
                        assert(pre.spec_has_pull_id(pre.reviews@[i].issue_pull_id));
                        let j = choose|j: int|
                            0 <= j < pre.pulls@.len() && (#[trigger] pre.pulls@[j]).id
                                == pre.reviews@[i].issue_pull_id;
                        assert(store.pulls@[j] == pre.pulls@[j]);
                    }
                }
                Ok(ret)
            },
        }
    }

    /// Reads the stored pull with key `(repo_id, number)` back.
    pub fn fetch(store: &Store, repo_id: u32, number: u32) -> (r: Result<
        PullRequest,
        CollectError,
    >)
        ensures
            match r {
                Ok(row) => store.pulls@.contains(row) && row.repo_id == repo_id && row.number
                    == number,
                Err(e) => e == CollectError::NotFound && !store.spec_has_pull_key(repo_id, number),
            },
    {
        match store.find_pull(repo_id, number) {
            Some(i) => {
                let row = store.pulls[i].duplicate();
                proof {
                    assert(store.pulls@[i as int] == row);
                }
                Ok(row)
            },
            None => Err(CollectError::NotFound),
        }
    }

    /// The stored pulls of `repo_id` whose numbers are among `numbers`,
    /// in storage order; an empty `numbers` selects them all.
    pub fn fetch_many(store: &Store, repo_id: u32, numbers: &Vec<u32>) -> (r: Vec<PullRequest>)
        ensures
            r@ == store.pulls@.filter(
                |p: PullRequest|
                    p.repo_id == repo_id && (numbers@.len() == 0 || numbers@.contains(p.number)),
            ),
    {
        let ghost pred = |p: PullRequest|
            p.repo_id == repo_id && (numbers@.len() == 0 || numbers@.contains(p.number));
        let mut r: Vec<PullRequest> = Vec::new();
        let mut i: usize = 0;
        proof {
            reveal(Seq::filter);
            assert(store.pulls@.subrange(0, 0).filter(pred) =~= Seq::<PullRequest>::empty());
        }
        while i < store.pulls.len()
            invariant
                0 <= i <= store.pulls@.len(),
                pred == (|p: PullRequest|
                    p.repo_id == repo_id && (numbers@.len() == 0 || numbers@.contains(p.number))),
                r@ == store.pulls@.subrange(0, i as int).filter(pred),
            decreases store.pulls@.len() - i,
        {
            let keep = store.pulls[i].repo_id == repo_id && (numbers.len() == 0 || contains_number(
                numbers,
                store.pulls[i].number,
            ));
            proof {
                reveal(Seq::filter);
                let t = store.pulls@.subrange(0, i as int + 1);
                assert(t.drop_last() =~= store.pulls@.subrange(0, i as int));
                assert(t.last() == store.pulls@[i as int]);
                assert(keep == pred(store.pulls@[i as int]));
            }
            if keep {
                let row = store.pulls[i].duplicate();
                r.push(row);
            }
            i = i + 1;
        }
        proof {
            assert(store.pulls@.subrange(0, store.pulls@.len() as int) =~= store.pulls@);
        }
        r
    }
}

/// Whether `x` occurs in `numbers`.
pub fn contains_number(numbers: &Vec<u32>, x: u32) -> (r: bool)
    ensures
        r == numbers@.contains(x),
{
    let mut i: usize = 0;
    while i < numbers.len()
        invariant
            0 <= i <= numbers@.len(),
            forall|j: int| 0 <= j < i ==> numbers@[j] != x,
        decreases numbers@.len() - i,
    {
        if numbers[i] == x {
            return true;
        }
        i = i + 1;
    }
    false
}

impl PullRequestReview {
    /// Inserts a fetched review under the stored pull `issue_pull_id`
    /// and returns the stored row. Reviews carry no remote identifier,
    /// so every insert appends a row: re-collection duplicates, by
    /// design.
    pub fn create(store: &mut Store, issue_pull_id: u32, review: &RemoteReview) -> (r: Result<
        PullRequestReview,
        CollectError,
    >)
        requires
            old(store).wf(),
            old(store).next_review_id < u32::MAX,
        ensures
            final(store).wf(),
            !old(store).spec_has_pull_id(issue_pull_id) ==> r == Err::<
                PullRequestReview,
                CollectError,
            >(CollectError::DataIntegrity) && *final(store) == *old(store),
            old(store).spec_has_pull_id(issue_pull_id) ==> (r matches Ok(row) && row.id == old(store).next_review_id && spec_review_fields_ok(row, issue_pull_id, *review) && final(store).reviews@ == old(store).reviews@.push(row) && final(store).next_review_id == old(store).next_review_id + 1 && final(store).repositories@ == old(store).repositories@ && final(store).pulls@ == old(store).pulls@ && final(store).events@ == old(store).events@ && final(store).next_repo_id == old(store).next_repo_id && final(store).next_pull_id == old(store).next_pull_id && final(store).next_event_id == old(store).next_event_id),
    {
        if !store.has_pull_id(issue_pull_id) {
            return Err(CollectError::DataIntegrity);
        }
        let row = PullRequestReview {
            id: store.next_review_id,
            issue_pull_id,
            reviewer: text_or_empty(&review.reviewer),
            state: review_state_or_empty(&review.state),
            author_association: association_or_empty(&review.author_association),
            submitted_at: text_or_empty(&review.submitted_at),
        };
        let ret = row.duplicate();
        let ghost pre = *store;
        store.reviews.push(row);
        store.next_review_id = store.next_review_id + 1;
        proof {
            assert forall|i: int| 0 <= i < store.pulls@.len() implies store.spec_has_repo_id(
                (#[trigger] store.pulls@[i]).repo_id,
            ) by {
                assert(pre.spec_has_repo_id(pre.pulls@[i].repo_id));
                let j = choose|j: int|
                    0 <= j < pre.repositories@.len() && (#[trigger] pre.repositories@[j]).id
                        == pre.pulls@[i].repo_id;
                assert(store.repositories@[j] == pre.repositories@[j]);
            }
            assert forall|i: int| 0 <= i < store.reviews@.len() implies store.spec_has_pull_id(
                (#[trigger] store.reviews@[i]).issue_pull_id,
            ) by {
                let target: u32 = if i < pre.reviews@.len() {
                    pre.reviews@[i].issue_pull_id
                } else {
                    issue_pull_id
                };
                assert(pre.spec_has_pull_id(target));
                let j = choose|j: int|
                    0 <= j < pre.pulls@.len() && (#[trigger] pre.pulls@[j]).id == target;
                assert(store.pulls@[j] == pre.pulls@[j]);
            }
        }
        Ok(ret)
    }
}

impl PullRequestEvent {
    /// Inserts a fetched timeline event under the stored pull
    /// `issue_pull_id` and returns the stored row. When the remote
    /// record carries an id that fits a local identifier, the insert is
    /// keyed on it and a second collection of the same event leaves the
    /// table unchanged; otherwise the insert appends unconditionally.
    pub fn create(store: &mut Store, issue_pull_id: u32, event: &RemoteEvent) -> (r: Result<
        PullRequestEvent,
        CollectError,
    >)
        requires
            old(store).wf(),
            spec_event_key(*event) is None ==> old(store).next_event_id <= u32::MAX as u64,
        ensures
            final(store).wf(),
            !old(store).spec_has_pull_id(issue_pull_id) ==> r == Err::<
                PullRequestEvent,
                CollectError,
            >(CollectError::DataIntegrity) && *final(store) == *old(store),
            old(store).spec_has_pull_id(issue_pull_id) && spec_event_key(*event) is Some ==> (r
            matches Ok(row) && {
                let k = spec_event_key(*event)->Some_0;
                &&& row.id == k
                &&& final(store).events@ == spec_events_after(old(store).events@, k, row)
                &&& events_contain_id(old(store).events@, k) ==> old(store).events@.contains(row)
                    && *final(store) == *old(store)
                &&& !events_contain_id(old(store).events@, k) ==> spec_event_fields_ok(
                    row,
                    issue_pull_id,
                    *event,
                ) && final(store).next_event_id == (if old(store).next_event_id > k as u64 + 1 {
                    old(store).next_event_id as int
                } else {
                    k as int + 1
                }) && final(store).repositories@ == old(store).repositories@ && final(store).pulls@
                    == old(store).pulls@ && final(store).reviews@ == old(store).reviews@ && final(store).next_repo_id == old(store).next_repo_id && final(store).next_pull_id == old(store).next_pull_id && final(store).next_review_id == old(store).next_review_id
            }),
            old(store).spec_has_pull_id(issue_pull_id) && spec_event_key(*event) is None ==> (r
            matches Ok(row) && row.id as u64 == old(store).next_event_id && spec_event_fields_ok(
                row,
                issue_pull_id,
                *event,
            ) && final(store).events@ == old(store).events@.push(row) && final(store).next_event_id
                == old(store).next_event_id + 1 && final(store).repositories@ == old(store).repositories@ && final(store).pulls@ == old(store).pulls@ && final(store).reviews@
                == old(store).reviews@ && final(store).next_repo_id == old(store).next_repo_id
                && final(store).next_pull_id == old(store).next_pull_id && final(store).next_review_id == old(store).next_review_id),
    {
        if !store.has_pull_id(issue_pull_id) {
            return Err(CollectError::DataIntegrity);
        }
        match event_key(event) {
            Some(k) => {
                match store.find_event(k) {
                    Some(i) => {
                        let row = store.events[i].duplicate();
                        proof {
                            assert(store.events@[i as int] == row);
                            assert(events_contain_id(store.events@, k));
                        }
                        Ok(row)
                    },
                    None => {
                        let row = PullRequestEvent {
                            id: k,
                            issue_pull_id,
                            event_type: event.event_type.clone(),
                            actor: text_or_empty(&event.actor),
                            author_association: text_or_empty(&event.author_association),
                            created_at: text_or_empty(&event.created_at),
                        };
                        let ret = row.duplicate();
                        let ghost pre = *store;
                        store.events.push(row);
                        let cand: u64 = k as u64 + 1;
                        if store.next_event_id < cand {
                            store.next_event_id = cand;
                        }
                        proof {
                            assert forall|i: int|
                                0 <= i < store.events@.len() implies store.spec_has_pull_id(
                                (#[trigger] store.events@[i]).issue_pull_id,
                            ) by {
                                let target: u32 = if i < pre.events@.len() {
                                    pre.events@[i].issue_pull_id
                                } else {
                                    issue_pull_id
                                };
                                assert(pre.spec_has_pull_id(target));
                                let j = choose|j: int|
                                    0 <= j < pre.pulls@.len() && (#[trigger] pre.pulls@[j]).id
                                        == target;
                                assert(store.pulls@[j] == pre.pulls@[j]);
                            }
                        }
                        Ok(ret)
                    },
                }
            },
            None => {
                let id32: u32 = store.next_event_id as u32;
                let row = PullRequestEvent {
                    id: id32,
                    issue_pull_id,
                    event_type: event.event_type.clone(),
                    actor: text_or_empty(&event.actor),
                    author_association: text_or_empty(&event.author_association),
                    created_at: text_or_empty(&event.created_at),
                };
                let ret = row.duplicate();
                let ghost pre = *store;
                store.events.push(row);
                store.next_event_id = store.next_event_id + 1;
                proof {
                    assert forall|i: int|
                        0 <= i < store.events@.len() implies store.spec_has_pull_id(
                        (#[trigger] store.events@[i]).issue_pull_id,
                    ) by {
                        let target: u32 = if i < pre.events@.len() {
                            pre.events@[i].issue_pull_id
                        } else {
                            issue_pull_id
                        };
                        assert(pre.spec_has_pull_id(target));
                        let j = choose|j: int|
                            0 <= j < pre.pulls@.len() && (#[trigger] pre.pulls@[j]).id == target;
                        assert(store.pulls@[j] == pre.pulls@[j]);
                    }
                }
                Ok(ret)
            },
        }
    }
}

} // verus!

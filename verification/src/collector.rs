//! Collection drivers: the bounded page orchestrator and the per-item
//! sub-collector.
//!
//! Network fetches happen outside the library; these drivers take the
//! fetched data as plain values and make every decision: scheduling
//! under the concurrency ceiling, persistence through the store's
//! idempotency rules, and failure accounting. A failed page or a failed
//! secondary list is recorded in the summary and never aborts sibling
//! units; the job always returns a summary, so a caller must inspect it
//! to detect partial completeness.

use vstd::prelude::*;
use crate::records::{RemotePull, RemoteReview, RemoteEvent};
use crate::scheduler::Scheduler;
use crate::store::{
    Store, PullRequest, PullRequestReview, PullRequestEvent, lemma_has_pull_id_stable,
    lemma_has_pull_key_extends, lemma_has_repo_id_stable, lemma_has_pull_id_same, spec_event_key,
    events_contain_id, spec_review_fields_ok, spec_event_fields_ok,
};

verus! {

/// The outcome of one page fetch: the items of the page, or nothing
/// when the request failed at the transport or status level.
pub struct PageFetch {
    pub items: Option<Vec<PullItem>>,
}

/// One pull request of a page, with the outcomes of its two secondary
/// fetches; a missing list means that fetch failed.
pub struct PullItem {
    pub pull: RemotePull,
    pub reviews: Option<Vec<RemoteReview>>,
    pub events: Option<Vec<RemoteEvent>>,
}

/// One pull request selected for on-demand re-collection, already
/// stored, with the outcomes of its two secondary fetches.
pub struct SubsetItem {
    pub issue_pull_id: u32,
    pub number: u32,
    pub reviews: Option<Vec<RemoteReview>>,
    pub events: Option<Vec<RemoteEvent>>,
}

/// A per-unit failure recorded in the collection summary.
#[derive(Clone, Copy, Debug, PartialEq, Eq, Structural)]
pub enum UnitFailure {
    /// The fetch of this page failed; its items were skipped.
    PageFetch(u32),
    /// The pull request with this number could not be stored.
    ItemPersist(u32),
    /// A secondary list of the pull request with this number could not
    /// be fetched.
    SubFetch(u32),
    /// A child record of the pull request with this number could not be
    /// stored.
    RecordPersist(u32),
}

/// What a collection pass accomplished: rows persisted per entity kind,
/// and every per-unit failure. A summary with no failures means full
/// coverage of the given input, not of the remote total.
pub struct CollectionSummary {
    pub pulls_persisted: usize,
    pub reviews_persisted: usize,
    pub events_persisted: usize,
    pub failures: Vec<UnitFailure>,
}

/// A recorded failure stays recorded while the failure list only grows
/// at the end.
pub proof fn lemma_failure_recorded_extends(
    pre: Seq<UnitFailure>,
    post: Seq<UnitFailure>,
    x: UnitFailure,
)
    requires
        pre.contains(x),
        post.len() >= pre.len(),
        post.subrange(0, pre.len() as int) == pre,
    ensures
        post.contains(x),
{
    let j = choose|j: int| 0 <= j < pre.len() && pre[j] == x;
    assert(post[j] == post.subrange(0, pre.len() as int)[j]);
}

/// A collected item is accounted for: its pull row is stored under its
/// number, or its failure to persist is recorded.
pub open spec fn item_covered(store: Store, repo_id: u32, fails: Seq<UnitFailure>, n: u32) -> bool {
    store.spec_has_pull_key(repo_id, n) || fails.contains(UnitFailure::ItemPersist(n))
}

/// How many records of a list of `n` reviews the store accepts when
/// the next free review identifier is `next`: all of them, unless the
/// identifier space runs out first.
pub open spec fn spec_reviews_accepted(next: u32, n: int) -> int {
    if n <= u32::MAX - next {
        n
    } else {
        u32::MAX - next
    }
}

/// The identifiers present in an event table.
pub open spec fn spec_event_ids(events: Seq<PullRequestEvent>) -> Set<u32> {
    Set::new(|k: u32| events_contain_id(events, k))
}

/// State of the event phase over the first `j` records of a list,
/// starting from the identifiers `ids` and the next free identifier
/// `next`: the identifiers present afterwards, the next free
/// identifier afterwards, the indices of the records that inserted a
/// row (in insertion order), and the number of records dropped for
/// want of identifier space. A keyed record inserts exactly when its
/// key is not yet present; an unkeyed record inserts whenever an
/// identifier is free.
pub open spec fn spec_event_phase(ids: Set<u32>, next: int, es: Seq<RemoteEvent>, j: int) -> (
    Set<u32>,
    int,
    Seq<int>,
    int,
)
    decreases j,
{
    if j <= 0 {
        (ids, next, Seq::<int>::empty(), 0)
    } else {
        let prev = spec_event_phase(ids, next, es, j - 1);
        match spec_event_key(es[j - 1]) {
            Option::Some(k) => if prev.0.contains(k) {
                prev
            } else {
                (
                    prev.0.insert(k),
                    if prev.1 > k + 1 {
                        prev.1
                    } else {
                        k + 1
                    },
                    prev.2.push(j - 1),
                    prev.3,
                )
            },
            Option::None => if prev.1 <= u32::MAX {
                (prev.0.insert(prev.1 as u32), prev.1 + 1, prev.2.push(j - 1), prev.3)
            } else {
                (prev.0, prev.1, prev.2, prev.3 + 1)
            },
        }
    }
}

/// Appending a row adds exactly its identifier to the table's
/// identifier set.
proof fn lemma_event_ids_push(events: Seq<PullRequestEvent>, r: PullRequestEvent)
    ensures
        spec_event_ids(events.push(r)) == spec_event_ids(events).insert(r.id),
{
    let a = spec_event_ids(events.push(r));
    let b = spec_event_ids(events).insert(r.id);
    assert forall|k: u32| a.contains(k) implies b.contains(k) by {
        let i = choose|i: int|
            0 <= i < events.push(r).len() && (#[trigger] events.push(r)[i]).id == k;
        if i < events.len() {
            assert(events[i] == events.push(r)[i]);
            assert(events_contain_id(events, k));
        } else {
            assert(events.push(r)[i] == r);
        }
    }
    assert forall|k: u32| b.contains(k) implies a.contains(k) by {
        if k == r.id {
            assert(events.push(r)[events.len() as int] == r);
            assert(events_contain_id(events.push(r), k));
        } else {
            let i = choose|i: int| 0 <= i < events.len() && (#[trigger] events[i]).id == k;
            assert(events.push(r)[i] == events[i]);
        }
    }
    assert(a =~= b);
}

/// Law: a list of events all keyed by identifiers that are absent from
/// `ids` and pairwise distinct inserts one row per record and drops
/// none; afterwards the identifiers present are exactly `ids` plus the
/// list's keys.
pub proof fn lemma_event_phase_keyed_fresh(ids: Set<u32>, next: int, es: Seq<RemoteEvent>, j: int)
    requires
        0 <= j <= es.len(),
        forall|i: int| 0 <= i < es.len() ==> (#[trigger] spec_event_key(es[i])) is Some,
        forall|i: int|
            0 <= i < es.len() ==> !ids.contains(spec_event_key(#[trigger] es[i])->Some_0),
        forall|i1: int, i2: int|
            0 <= i1 < i2 < es.len() ==> spec_event_key(#[trigger] es[i1])->Some_0
                != spec_event_key(#[trigger] es[i2])->Some_0,
    ensures
        spec_event_phase(ids, next, es, j).2.len() == j,
        spec_event_phase(ids, next, es, j).3 == 0,
        forall|k: u32|
            #[trigger] spec_event_phase(ids, next, es, j).0.contains(k) <==> (ids.contains(k)
                || exists|i: int| 0 <= i < j && spec_event_key(#[trigger] es[i]) == Some(k)),
    decreases j,
{
    if j > 0 {
        lemma_event_phase_keyed_fresh(ids, next, es, j - 1);
        let prev = spec_event_phase(ids, next, es, j - 1);
        let cur = spec_event_phase(ids, next, es, j);
        let k = spec_event_key(es[j - 1])->Some_0;
        assert(spec_event_key(es[j - 1]) is Some);
        assert(!prev.0.contains(k)) by {
            if prev.0.contains(k) {
                assert(!ids.contains(k));
                let i = choose|i: int|
                    0 <= i < j - 1 && spec_event_key(#[trigger] es[i]) == Some(k);
                assert(spec_event_key(es[i])->Some_0 == spec_event_key(es[j - 1])->Some_0);
            }
        }
        assert(cur.0 == prev.0.insert(k));
        assert forall|x: u32| #[trigger] cur.0.contains(x) implies (ids.contains(x) || exists|
            i: int,
        | 0 <= i < j && spec_event_key(#[trigger] es[i]) == Some(x)) by {
            if x == k {
                assert(spec_event_key(es[j - 1]) == Some(x));
            } else {
                assert(prev.0.contains(x));
            }
        }
        assert forall|x: u32|
            ids.contains(x) || (exists|i: int|
                0 <= i < j && spec_event_key(#[trigger] es[i]) == Some(x)) implies (
        #[trigger] cur.0.contains(x)) by {
            if !ids.contains(x) {
                let i = choose|i: int| 0 <= i < j && spec_event_key(#[trigger] es[i]) == Some(x);
                if i < j - 1 {
                    assert(prev.0.contains(x));
                }
            }
        }
    }
}

/// Persists one item's secondary lists: every fetched review and
/// timeline event goes to the store, in listing order; a missing list
/// is recorded as a sub-fetch failure and a record the store refused as
/// a record failure, without stopping the remaining records. With the
/// parent row stored, the outcome of every record is pinned down: each
/// review is stored while review identifiers remain, and each event
/// follows the insert-or-ignore phase semantics of `spec_event_phase`.
pub fn collect_item(
    store: &mut Store,
    issue_pull_id: u32,
    number: u32,
    reviews: &Option<Vec<RemoteReview>>,
    events: &Option<Vec<RemoteEvent>>,
    failures: &mut Vec<UnitFailure>,
) -> (counts: (usize, usize))
    requires
        old(store).wf(),
    ensures
        final(store).wf(),
        final(store).repositories@ == old(store).repositories@,
        final(store).pulls@ == old(store).pulls@,
        final(store).next_repo_id == old(store).next_repo_id,
        final(store).next_pull_id == old(store).next_pull_id,
        final(store).reviews@.len() - old(store).reviews@.len() == counts.0,
        final(store).events@.len() - old(store).events@.len() == counts.1,
        final(store).next_review_id == old(store).next_review_id + counts.0,
        final(store).reviews@.subrange(0, old(store).reviews@.len() as int) == old(store).reviews@,
        final(store).events@.subrange(0, old(store).events@.len() as int) == old(store).events@,
        final(failures)@.len() >= old(failures)@.len(),
        final(failures)@.subrange(0, old(failures)@.len() as int) == old(failures)@,
        forall|j: int|
            old(failures)@.len() <= j < final(failures)@.len() ==> (#[trigger] final(failures)@[j])
                == UnitFailure::SubFetch(number) || final(failures)@[j] == UnitFailure::RecordPersist(
                number,
            ),
        *reviews is None ==> final(failures)@.contains(UnitFailure::SubFetch(number)),
        *events is None ==> final(failures)@.contains(UnitFailure::SubFetch(number)),
        *events is None ==> final(store).next_event_id == old(store).next_event_id,
        // With the parent stored, the accepted reviews are exactly the
        // list's records, in listing order, under the gateway's field
        // mapping, with consecutive identifiers.
        (*reviews is Some && old(store).spec_has_pull_id(issue_pull_id)) ==> ({
            let rsv = (*reviews)->Some_0@;
            let accepted = spec_reviews_accepted(old(store).next_review_id, rsv.len() as int);
            &&& counts.0 == accepted
            &&& forall|i: int|
                0 <= i < accepted ==> spec_review_fields_ok(
                    #[trigger] final(store).reviews@[old(store).reviews@.len() + i],
                    issue_pull_id,
                    rsv[i],
                ) && final(store).reviews@[old(store).reviews@.len() + i].id == old(
                    store,
                ).next_review_id + i
        }),
        // With the parent stored, the event phase follows the fold: one
        // appended row per inserting record, in order, under the
        // gateway's field mapping.
        (*events is Some && old(store).spec_has_pull_id(issue_pull_id)) ==> ({
            let esv = (*events)->Some_0@;
            let phase = spec_event_phase(
                spec_event_ids(old(store).events@),
                old(store).next_event_id as int,
                esv,
                esv.len() as int,
            );
            &&& counts.1 == phase.2.len()
            &&& final(store).next_event_id as int == phase.1
            &&& spec_event_ids(final(store).events@) == phase.0
            &&& forall|i: int|
                0 <= i < phase.2.len() ==> 0 <= #[trigger] phase.2[i] < esv.len()
                    && spec_event_fields_ok(
                    final(store).events@[old(store).events@.len() + i],
                    issue_pull_id,
                    esv[phase.2[i]],
                )
        }),
        // With the parent stored and both lists fetched, the only
        // failures are the records the identifier space refused.
        (*reviews is Some && *events is Some && old(store).spec_has_pull_id(issue_pull_id))
            ==> final(failures)@.len() == old(failures)@.len() + ((*reviews)->Some_0@.len()
            - spec_reviews_accepted(
            old(store).next_review_id,
            (*reviews)->Some_0@.len() as int,
        )) + spec_event_phase(
            spec_event_ids(old(store).events@),
            old(store).next_event_id as int,
            (*events)->Some_0@,
            (*events)->Some_0@.len() as int,
        ).3,
        !old(store).spec_has_pull_id(issue_pull_id) ==> final(store).reviews@ == old(
            store,
        ).reviews@ && final(store).events@ == old(store).events@ && final(store).next_event_id
            == old(store).next_event_id,
{
    let ghost entry_store = *store;
    let ghost entry_fails = failures@;
    let ghost has_pid = entry_store.spec_has_pull_id(issue_pull_id);
    let mut rcount: usize = 0;
    let mut ecount: usize = 0;
    match reviews {
        Some(rs) => {
            let rlen0 = store.reviews.len();
            let ghost rnext0 = entry_store.next_review_id;
            let mut j: usize = 0;
            while j < rs.len()
                invariant
                    0 <= j <= rs@.len(),
                    store.wf(),
                    store.repositories@ == entry_store.repositories@,
                    store.pulls@ == entry_store.pulls@,
                    store.events@ == entry_store.events@,
                    store.next_repo_id == entry_store.next_repo_id,
                    store.next_pull_id == entry_store.next_pull_id,
                    store.next_event_id == entry_store.next_event_id,
                    rlen0 == entry_store.reviews@.len(),
                    rnext0 == entry_store.next_review_id,
                    has_pid == entry_store.spec_has_pull_id(issue_pull_id),
                    has_pid == store.spec_has_pull_id(issue_pull_id),
                    store.reviews@.len() >= rlen0,
                    store.next_review_id - rnext0 == store.reviews@.len() - rlen0,
                    store.reviews@.subrange(0, rlen0 as int) == entry_store.reviews@,
                    failures@.len() >= entry_fails.len(),
                    failures@.subrange(0, entry_fails.len() as int) == entry_fails,
                    forall|i: int|
                        entry_fails.len() <= i < failures@.len() ==> (#[trigger] failures@[i])
                            == UnitFailure::SubFetch(number) || failures@[i]
                            == UnitFailure::RecordPersist(number),
                    has_pid ==> store.reviews@.len() - rlen0 == spec_reviews_accepted(
                        rnext0,
                        j as int,
                    ),
                    has_pid ==> failures@.len() - entry_fails.len() == j - spec_reviews_accepted(
                        rnext0,
                        j as int,
                    ),
                    has_pid ==> (forall|i: int|
                        0 <= i < store.reviews@.len() - rlen0 ==> spec_review_fields_ok(
                            #[trigger] store.reviews@[rlen0 + i],
                            issue_pull_id,
                            rs@[i],
                        ) && store.reviews@[rlen0 + i].id == rnext0 + i),
                    !has_pid ==> store.reviews@.len() == rlen0,
                decreases rs@.len() - j,
            {
                let ghost pre = *store;
                if store.next_review_id < u32::MAX {
                    match PullRequestReview::create(store, issue_pull_id, &rs[j]) {
                        Ok(_) => {
                            proof {
                                assert(store.reviews@.subrange(0, rlen0 as int) =~= pre.reviews@
                                    .subrange(0, rlen0 as int));
                            }
                        },
                        Err(_) => {
                            failures.push(UnitFailure::RecordPersist(number));
                        },
                    }
                } else {
                    failures.push(UnitFailure::RecordPersist(number));
                }
                proof {
                    crate::store::lemma_has_pull_id_same(pre, *store, issue_pull_id);
                    assert(failures@.subrange(0, entry_fails.len() as int) =~= entry_fails);
                }
                j = j + 1;
            }
            rcount = store.reviews.len() - rlen0;
        },
        None => {
            failures.push(UnitFailure::SubFetch(number));
            proof {
                assert(failures@.subrange(0, entry_fails.len() as int) =~= entry_fails);
            }
        },
    }
    let ghost mid_store = *store;
    let ghost mid_fails = failures@;
    proof {
        crate::store::lemma_has_pull_id_same(entry_store, mid_store, issue_pull_id);
    }
    match events {
        Some(es) => {
            let elen0 = store.events.len();
            let ghost ids0 = spec_event_ids(entry_store.events@);
            let ghost enext0 = entry_store.next_event_id;
            proof {
                assert(mid_store.events@ == entry_store.events@);
                assert(spec_event_ids(mid_store.events@) == ids0);
            }
            let mut j: usize = 0;
            while j < es.len()
                invariant
                    0 <= j <= es@.len(),
                    store.wf(),
                    store.repositories@ == mid_store.repositories@,
                    store.pulls@ == mid_store.pulls@,
                    store.reviews@ == mid_store.reviews@,
                    store.next_repo_id == mid_store.next_repo_id,
                    store.next_pull_id == mid_store.next_pull_id,
                    store.next_review_id == mid_store.next_review_id,
                    elen0 == mid_store.events@.len(),
                    mid_store.events@ == entry_store.events@,
                    ids0 == spec_event_ids(entry_store.events@),
                    enext0 == entry_store.next_event_id,
                    mid_store.next_event_id == enext0,
                    has_pid == entry_store.spec_has_pull_id(issue_pull_id),
                    has_pid == store.spec_has_pull_id(issue_pull_id),
                    store.events@.len() >= elen0,
                    store.events@.subrange(0, elen0 as int) == mid_store.events@,
                    failures@.len() >= mid_fails.len(),
                    failures@.subrange(0, mid_fails.len() as int) == mid_fails,
                    forall|i: int|
                        mid_fails.len() <= i < failures@.len() ==> (#[trigger] failures@[i])
                            == UnitFailure::SubFetch(number) || failures@[i]
                            == UnitFailure::RecordPersist(number),
                    has_pid ==> ({
                        let ph = spec_event_phase(ids0, enext0 as int, es@, j as int);
                        &&& spec_event_ids(store.events@) == ph.0
                        &&& store.next_event_id as int == ph.1
                        &&& store.events@.len() - elen0 == ph.2.len()
                        &&& failures@.len() - mid_fails.len() == ph.3
                        &&& forall|i: int|
                            0 <= i < ph.2.len() ==> 0 <= #[trigger] ph.2[i] < j
                                && spec_event_fields_ok(
                                store.events@[elen0 + i],
                                issue_pull_id,
                                es@[ph.2[i]],
                            )
                    }),
                    !has_pid ==> store.events@.len() == elen0 && store.next_event_id == enext0,
                decreases es@.len() - j,
            {
                let ghost pre = *store;
                let ghost ph_pre = spec_event_phase(ids0, enext0 as int, es@, j as int);
                let key = crate::store::event_key(&es[j]);
                let can_assign: bool = match key {
                    Some(_) => true,
                    None => store.next_event_id <= u32::MAX as u64,
                };
                if can_assign {
                    match PullRequestEvent::create(store, issue_pull_id, &es[j]) {
                        Ok(_) => {
                            proof {
                                assert(store.events@.subrange(0, elen0 as int) =~= pre.events@
                                    .subrange(0, elen0 as int));
                            }
                        },
                        Err(_) => {
                            failures.push(UnitFailure::RecordPersist(number));
                        },
                    }
                } else {
                    failures.push(UnitFailure::RecordPersist(number));
                }
                proof {
                    crate::store::lemma_has_pull_id_same(pre, *store, issue_pull_id);
                    assert(failures@.subrange(0, mid_fails.len() as int) =~= mid_fails);
                    if has_pid {
                        let ph = spec_event_phase(ids0, enext0 as int, es@, j as int + 1);
                        match spec_event_key(es@[j as int]) {
                            Option::Some(k) => {
                                if ph_pre.0.contains(k) {
                                    // insert-or-ignore left the table as it was
                                    assert(events_contain_id(pre.events@, k));
                                    assert(ph == ph_pre);
                                } else {
                                    assert(!events_contain_id(pre.events@, k));
                                    let row = store.events@.last();
                                    assert(store.events@ == pre.events@.push(row));
                                    lemma_event_ids_push(pre.events@, row);
                                    assert(ph.0 == ph_pre.0.insert(k));
                                }
                            },
                            Option::None => {
                                if ph_pre.1 <= u32::MAX {
                                    let row = store.events@.last();
                                    assert(store.events@ == pre.events@.push(row));
                                    lemma_event_ids_push(pre.events@, row);
                                    assert(row.id as int == ph_pre.1);
                                } else {
                                    assert(ph.0 == ph_pre.0 && ph.1 == ph_pre.1 && ph.2
                                        == ph_pre.2 && ph.3 == ph_pre.3 + 1);
                                }
                            },
                        }
                        assert forall|i: int|
                            0 <= i < ph.2.len() implies 0 <= #[trigger] ph.2[i] < j + 1
                            && spec_event_fields_ok(
                            store.events@[elen0 + i],
                            issue_pull_id,
                            es@[ph.2[i]],
                        ) by {
                            if i < ph_pre.2.len() {
                                assert(ph.2[i] == ph_pre.2[i]);
                                assert(store.events@[elen0 + i] == pre.events@[elen0 + i]);
                            }
                        }
                    }
                }
                j = j + 1;
            }
            ecount = store.events.len() - elen0;
        },
        None => {
            failures.push(UnitFailure::SubFetch(number));
            proof {
                assert(failures@.subrange(0, mid_fails.len() as int) =~= mid_fails);
            }
        },
    }
    proof {
        assert(failures@.subrange(0, entry_fails.len() as int) =~= entry_fails);
        assert(failures@.subrange(0, mid_fails.len() as int) =~= mid_fails);
        assert(store.reviews@.subrange(0, entry_store.reviews@.len() as int) =~= entry_store
            .reviews@);
        assert(store.events@.subrange(0, entry_store.events@.len() as int) =~= entry_store.events@);
        assert forall|j: int|
            entry_fails.len() <= j < failures@.len() implies ((#[trigger] failures@[j])
            == UnitFailure::SubFetch(number) || failures@[j] == UnitFailure::RecordPersist(
            number,
        )) by {
            if j < mid_fails.len() {
                assert(failures@[j] == failures@.subrange(0, mid_fails.len() as int)[j]);
            }
        }
        if reviews is None {
            assert(mid_fails[entry_fails.len() as int] == UnitFailure::SubFetch(number));
            assert(failures@[entry_fails.len() as int] == failures@.subrange(
                0,
                mid_fails.len() as int,
            )[entry_fails.len() as int]);
            assert(failures@.contains(UnitFailure::SubFetch(number)));
        }
        if events is None {
            assert(failures@[mid_fails.len() as int] == UnitFailure::SubFetch(number));
            assert(failures@.contains(UnitFailure::SubFetch(number)));
        }
    }
    (rcount, ecount)
}

/// The items of a fetched page.
pub open spec fn spec_page_items(pages: Seq<PageFetch>, p: int) -> Seq<PullItem> {
    pages[p].items->Some_0@
}

/// Whether `(p, t)` names an item of a fetched page.
pub open spec fn page_item_valid(pages: Seq<PageFetch>, p: int, t: int) -> bool {
    0 <= p < pages.len() && pages[p].items is Some && 0 <= t < spec_page_items(pages, p).len()
}

/// The pull number of one fetched item.
pub open spec fn spec_page_item_number(pages: Seq<PageFetch>, p: int, t: int) -> u32 {
    spec_page_items(pages, p)[t].pull.number
}

/// Whether `(p, t, j)` names an event of a fetched item's fetched list.
pub open spec fn page_event_valid(pages: Seq<PageFetch>, p: int, t: int, j: int) -> bool {
    page_item_valid(pages, p, t) && spec_page_items(pages, p)[t].events is Some && 0 <= j
        < spec_page_items(pages, p)[t].events->Some_0@.len()
}

/// The de-duplication key of one event of one fetched item.
pub open spec fn spec_page_event_key(pages: Seq<PageFetch>, p: int, t: int, j: int) -> Option<
    u32,
> {
    spec_event_key(spec_page_items(pages, p)[t].events->Some_0@[j])
}

/// Items fetched across the first `p` pages; a failed page contributes
/// none.
pub open spec fn total_pulls_fetched(pages: Seq<PageFetch>, p: int) -> int
    decreases p,
{
    if p <= 0 {
        0
    } else {
        total_pulls_fetched(pages, p - 1) + (match pages[p - 1].items {
            Option::Some(v) => v@.len() as int,
            Option::None => 0,
        })
    }
}

/// Review records across the first `t` items of a page.
pub open spec fn page_total_reviews(items: Seq<PullItem>, t: int) -> int
    decreases t,
{
    if t <= 0 {
        0
    } else {
        page_total_reviews(items, t - 1) + (match items[t - 1].reviews {
            Option::Some(rs) => rs@.len() as int,
            Option::None => 0,
        })
    }
}

/// Timeline-event records across the first `t` items of a page.
pub open spec fn page_total_events(items: Seq<PullItem>, t: int) -> int
    decreases t,
{
    if t <= 0 {
        0
    } else {
        page_total_events(items, t - 1) + (match items[t - 1].events {
            Option::Some(es) => es@.len() as int,
            Option::None => 0,
        })
    }
}

/// Review records fetched across the first `p` pages.
pub open spec fn total_reviews_fetched(pages: Seq<PageFetch>, p: int) -> int
    decreases p,
{
    if p <= 0 {
        0
    } else {
        total_reviews_fetched(pages, p - 1) + (match pages[p - 1].items {
            Option::Some(v) => page_total_reviews(v@, v@.len() as int),
            Option::None => 0,
        })
    }
}

/// Timeline-event records fetched across the first `p` pages.
pub open spec fn total_events_fetched(pages: Seq<PageFetch>, p: int) -> int
    decreases p,
{
    if p <= 0 {
        0
    } else {
        total_events_fetched(pages, p - 1) + (match pages[p - 1].items {
            Option::Some(v) => page_total_events(v@, v@.len() as int),
            Option::None => 0,
        })
    }
}

/// Pages among the first `p` whose fetch failed.
pub open spec fn count_failed_pages(pages: Seq<PageFetch>, p: int) -> int
    decreases p,
{
    if p <= 0 {
        0
    } else {
        count_failed_pages(pages, p - 1) + (if pages[p - 1].items is None {
            1int
        } else {
            0int
        })
    }
}

proof fn lemma_total_pulls_fetched_mono(pages: Seq<PageFetch>, i: int, j: int)
    requires
        0 <= i <= j,
    ensures
        total_pulls_fetched(pages, i) <= total_pulls_fetched(pages, j),
    decreases j - i,
{
    if i < j {
        lemma_total_pulls_fetched_mono(pages, i, j - 1);
    }
}

proof fn lemma_page_total_reviews_nonneg(items: Seq<PullItem>, t: int)
    ensures
        page_total_reviews(items, t) >= 0,
    decreases t,
{
    if t > 0 {
        lemma_page_total_reviews_nonneg(items, t - 1);
    }
}

proof fn lemma_page_total_reviews_mono(items: Seq<PullItem>, i: int, j: int)
    requires
        0 <= i <= j,
    ensures
        page_total_reviews(items, i) <= page_total_reviews(items, j),
    decreases j - i,
{
    if i < j {
        lemma_page_total_reviews_mono(items, i, j - 1);
    }
}

proof fn lemma_total_reviews_fetched_mono(pages: Seq<PageFetch>, i: int, j: int)
    requires
        0 <= i <= j,
    ensures
        total_reviews_fetched(pages, i) <= total_reviews_fetched(pages, j),
    decreases j - i,
{
    if i < j {
        lemma_total_reviews_fetched_mono(pages, i, j - 1);
        if pages[j - 1].items is Some {
            lemma_page_total_reviews_nonneg(
                spec_page_items(pages, j - 1),
                spec_page_items(pages, j - 1).len() as int,
            );
        }
    }
}

/// A job whose fetched items can all be stored: the repository exists,
/// pull identifiers suffice, and the fetched numbers are fresh and
/// pairwise distinct across the whole job.
pub open spec fn spec_pages_items_clean(
    store0: Store,
    repo_id: u32,
    pages: Seq<PageFetch>,
) -> bool {
    &&& store0.spec_has_repo_id(repo_id)
    &&& store0.next_pull_id + total_pulls_fetched(pages, pages.len() as int) <= u32::MAX
    &&& forall|p: int, t: int|
        page_item_valid(pages, p, t) ==> !store0.spec_has_pull_key(
            repo_id,
            #[trigger] spec_page_item_number(pages, p, t),
        )
    &&& forall|p1: int, t1: int, p2: int, t2: int|
        page_item_valid(pages, p1, t1) && page_item_valid(pages, p2, t2) && (p1 != p2 || t1
            != t2) ==> #[trigger] spec_page_item_number(pages, p1, t1)
            != #[trigger] spec_page_item_number(pages, p2, t2)
}

/// A job whose fetched items' secondary lists can all be stored: every
/// list fetched, review identifiers sufficient, and every event keyed
/// by an identifier that is fresh and unique across the whole job.
pub open spec fn spec_pages_subs_clean(store0: Store, pages: Seq<PageFetch>) -> bool {
    &&& forall|p: int, t: int|
        page_item_valid(pages, p, t) ==> (#[trigger] spec_page_items(pages, p)[t]).reviews
            is Some && spec_page_items(pages, p)[t].events is Some
    &&& store0.next_review_id + total_reviews_fetched(pages, pages.len() as int) <= u32::MAX
    &&& forall|p: int, t: int, j: int|
        page_event_valid(pages, p, t, j) ==> (#[trigger] spec_page_event_key(pages, p, t, j))
            is Some
    &&& forall|p: int, t: int, j: int|
        page_event_valid(pages, p, t, j) ==> !store0.spec_has_event_id(
            (#[trigger] spec_page_event_key(pages, p, t, j))->Some_0,
        )
    &&& forall|p1: int, t1: int, j1: int, p2: int, t2: int, j2: int|
        page_event_valid(pages, p1, t1, j1) && page_event_valid(pages, p2, t2, j2) && (p1 != p2
            || t1 != t2 || j1 != j2) ==> #[trigger] spec_page_event_key(pages, p1, t1, j1)
            != #[trigger] spec_page_event_key(pages, p2, t2, j2)
}

/// Whether `n` is the number of a fetched item that the pass has
/// already handled: one on a page before `pi`, or one before position
/// `ti` on page `pi`.
pub open spec fn row_from_processed(pages: Seq<PageFetch>, n: u32, pi: int, ti: int) -> bool {
    exists|p: int, t: int|
        page_item_valid(pages, p, t) && (p < pi || (p == pi && t < ti)) && n
            == #[trigger] spec_page_item_number(pages, p, t)
}

proof fn lemma_row_from_processed_widen(
    pages: Seq<PageFetch>,
    n: u32,
    pi1: int,
    ti1: int,
    pi2: int,
    ti2: int,
)
    requires
        row_from_processed(pages, n, pi1, ti1),
        pi1 < pi2 || (pi1 == pi2 && ti1 <= ti2),
    ensures
        row_from_processed(pages, n, pi2, ti2),
{
    let (p, t) = choose|p: int, t: int|
        page_item_valid(pages, p, t) && (p < pi1 || (p == pi1 && t < ti1)) && n
            == #[trigger] spec_page_item_number(pages, p, t);
    assert(page_item_valid(pages, p, t) && (p < pi2 || (p == pi2 && t < ti2)) && n
        == spec_page_item_number(pages, p, t));
}

/// Runs a full collection pass over fetched pages: one unit of work per
/// page under the scheduler's concurrency ceiling. A failed page is
/// recorded and skipped; the items of a fetched page are stored and
/// each item's secondary lists are handed to the sub-collector. The
/// pass always returns a summary; page `p` failed exactly when the
/// summary holds a page failure for `p`. On a clean job — repository
/// stored, fetched numbers fresh and distinct, identifier space
/// sufficient, secondary lists fetched with fresh unique event keys —
/// every fetched record is persisted and the only failures are the
/// pages that did not fetch.
#[verifier::rlimit(50)]
pub fn collect_all(store: &mut Store, repo_id: u32, pages: &Vec<PageFetch>, concurrency: u32) -> (r:
    CollectionSummary)
    requires
        old(store).wf(),
        concurrency >= 1,
        pages@.len() < u32::MAX,
    ensures
        final(store).wf(),
        final(store).repositories@ == old(store).repositories@,
        r.pulls_persisted == final(store).pulls@.len() - old(store).pulls@.len(),
        r.reviews_persisted == final(store).reviews@.len() - old(store).reviews@.len(),
        r.events_persisted == final(store).events@.len() - old(store).events@.len(),
        final(store).pulls@.subrange(0, old(store).pulls@.len() as int) == old(store).pulls@,
        forall|i: int|
            old(store).pulls@.len() <= i < final(store).pulls@.len() ==> (#[trigger] final(store).pulls@[i]).repo_id == repo_id,
        forall|j: int|
            0 <= j < r.failures@.len() ==> ((#[trigger] r.failures@[j]) matches
                UnitFailure::PageFetch(q) ==> 1 <= q <= pages@.len() && pages@[q - 1].items
                is None),
        forall|p: int|
            0 <= p < pages@.len() && (#[trigger] pages@[p].items) is None
                ==> r.failures@.contains(UnitFailure::PageFetch((p + 1) as u32)),
        old(store).spec_has_repo_id(repo_id) ==> (forall|p: int, t: int|
            0 <= p < pages@.len() && pages@[p].items is Some && 0 <= t
                < pages@[p].items->Some_0@.len() ==> item_covered(
                *final(store),
                repo_id,
                r.failures@,
                (#[trigger] pages@[p].items->Some_0@[t]).pull.number,
            )),
        spec_pages_items_clean(*old(store), repo_id, pages@) ==> r.pulls_persisted
            == total_pulls_fetched(pages@, pages@.len() as int) && (forall|j: int|
            0 <= j < r.failures@.len() ==> !((#[trigger] r.failures@[j]) matches
                UnitFailure::ItemPersist(n))),
        (spec_pages_items_clean(*old(store), repo_id, pages@) && spec_pages_subs_clean(
            *old(store),
            pages@,
        )) ==> r.reviews_persisted == total_reviews_fetched(pages@, pages@.len() as int)
            && r.events_persisted == total_events_fetched(pages@, pages@.len() as int)
            && r.failures@.len() == count_failed_pages(pages@, pages@.len() as int),
        pages@.len() == 0 ==> *final(store) == *old(store) && r.failures@.len() == 0,
{
    let ghost entry_store = *store;
    let ghost iclean = spec_pages_items_clean(entry_store, repo_id, pages@);
    let ghost sclean = iclean && spec_pages_subs_clean(entry_store, pages@);
    let total: u32 = pages.len() as u32;
    let mut sched = Scheduler::new(total, concurrency);
    let mut failures: Vec<UnitFailure> = Vec::new();
    let plen0 = store.pulls.len();
    let rlen0 = store.reviews.len();
    let elen0 = store.events.len();
    proof {
        if sclean {
            assert forall|p2: int, t2: int, j2: int|
                page_event_valid(pages@, p2, t2, j2) implies !spec_event_ids(
                store.events@,
            ).contains((#[trigger] spec_page_event_key(pages@, p2, t2, j2))->Some_0) by {
                lemma_event_id_bridge(
                    entry_store,
                    spec_page_event_key(pages@, p2, t2, j2)->Some_0,
                );
            }
        }
    }
    let mut i: usize = 0;
    while i < pages.len()
        invariant
            0 <= i <= pages@.len(),
            pages@.len() < u32::MAX,
            total == pages@.len(),
            concurrency >= 1,
            sched.wf(),
            sched.in_flight == 0,
            sched.next_page == i + 1,
            sched.total_pages == total,
            sched.capacity == concurrency,
            store.wf(),
            store.repositories@ == entry_store.repositories@,
            plen0 == entry_store.pulls@.len(),
            rlen0 == entry_store.reviews@.len(),
            elen0 == entry_store.events@.len(),
            store.pulls@.len() >= plen0,
            store.reviews@.len() >= rlen0,
            store.events@.len() >= elen0,
            store.pulls@.subrange(0, plen0 as int) == entry_store.pulls@,
            forall|k: int|
                plen0 <= k < store.pulls@.len() ==> (#[trigger] store.pulls@[k]).repo_id == repo_id,
            forall|j: int|
                0 <= j < failures@.len() ==> ((#[trigger] failures@[j]) matches
                    UnitFailure::PageFetch(q) ==> 1 <= q <= i && pages@[q - 1].items is None),
            forall|p: int|
                0 <= p < i && (#[trigger] pages@[p].items) is None ==> failures@.contains(
                    UnitFailure::PageFetch((p + 1) as u32),
                ),
            entry_store.spec_has_repo_id(repo_id) ==> store.spec_has_repo_id(repo_id),
            entry_store.spec_has_repo_id(repo_id) ==> (forall|p: int, t: int|
                0 <= p < i && pages@[p].items is Some && 0 <= t < pages@[p].items->Some_0@.len()
                    ==> item_covered(
                    *store,
                    repo_id,
                    failures@,
                    (#[trigger] pages@[p].items->Some_0@[t]).pull.number,
                )),
            iclean == spec_pages_items_clean(entry_store, repo_id, pages@),
            sclean == (iclean && spec_pages_subs_clean(entry_store, pages@)),
            iclean ==> store.pulls@.len() - plen0 == total_pulls_fetched(pages@, i as int),
            iclean ==> store.next_pull_id == entry_store.next_pull_id + total_pulls_fetched(
                pages@,
                i as int,
            ),
            iclean ==> (forall|k: int|
                plen0 <= k < store.pulls@.len() ==> row_from_processed(
                    pages@,
                    (#[trigger] store.pulls@[k]).number,
                    i as int,
                    0,
                )),
            iclean ==> (forall|j: int|
                0 <= j < failures@.len() ==> !((#[trigger] failures@[j]) matches
                    UnitFailure::ItemPersist(n))),
            sclean ==> store.reviews@.len() - rlen0 == total_reviews_fetched(pages@, i as int),
            sclean ==> store.next_review_id == entry_store.next_review_id + total_reviews_fetched(
                pages@,
                i as int,
            ),
            sclean ==> store.events@.len() - elen0 == total_events_fetched(pages@, i as int),
            sclean ==> failures@.len() == count_failed_pages(pages@, i as int),
            sclean ==> (forall|p2: int, t2: int, j2: int|
                page_event_valid(pages@, p2, t2, j2) && p2 >= i ==> !spec_event_ids(
                    store.events@,
                ).contains((#[trigger] spec_page_event_key(pages@, p2, t2, j2))->Some_0)),
            i == 0 ==> *store == entry_store && failures@.len() == 0,
        decreases pages@.len() - i,
    {
        let launched = sched.launch();
        let page_no: u32 = match launched {
            Some(p) => p,
            None => {
                proof {
                    assert(false);
                }
                0
            },
        };
        let ghost loop_store = *store;
        let ghost loop_fails = failures@;
        match &pages[i].items {
            None => {
                failures.push(UnitFailure::PageFetch(page_no));
                proof {
                    assert forall|p: int|
                        0 <= p < i + 1 && (#[trigger] pages@[p].items) is None implies failures@
                        .contains(UnitFailure::PageFetch((p + 1) as u32)) by {
                        if p < i {
                            let w = choose|w: int|
                                0 <= w < loop_fails.len() && loop_fails[w]
                                    == UnitFailure::PageFetch((p + 1) as u32);
                            assert(failures@[w] == UnitFailure::PageFetch((p + 1) as u32));
                        } else {
                            assert(failures@[failures@.len() - 1] == UnitFailure::PageFetch(
                                (p + 1) as u32,
                            ));
                        }
                    }
                    if iclean {
                        assert(total_pulls_fetched(pages@, i as int + 1) == total_pulls_fetched(
                            pages@,
                            i as int,
                        ));
                        assert forall|k: int|
                            plen0 <= k < store.pulls@.len() implies row_from_processed(
                            pages@,
                            (#[trigger] store.pulls@[k]).number,
                            i as int + 1,
                            0,
                        ) by {
                            lemma_row_from_processed_widen(
                                pages@,
                                store.pulls@[k].number,
                                i as int,
                                0,
                                i as int + 1,
                                0,
                            );
                        }
                    }
                    if sclean {
                        assert(total_reviews_fetched(pages@, i as int + 1)
                            == total_reviews_fetched(pages@, i as int));
                        assert(total_events_fetched(pages@, i as int + 1) == total_events_fetched(
                            pages@,
                            i as int,
                        ));
                        assert(count_failed_pages(pages@, i as int + 1) == count_failed_pages(
                            pages@,
                            i as int,
                        ) + 1);
                    }
                }
            },
            Some(items) => {
                let mut t: usize = 0;
                proof {
                    assert(items@ == pages@[i as int].items->Some_0@);
                    assert(items@ == spec_page_items(pages@, i as int));
                }
                while t < items.len()
                    invariant
                        0 <= t <= items@.len(),
                        0 <= i < pages@.len(),
                        pages@[i as int].items is Some,
                        store.wf(),
                        items@ == pages@[i as int].items->Some_0@,
                        items@ == spec_page_items(pages@, i as int),
                        store.repositories@ == loop_store.repositories@,
                        store.pulls@.len() >= loop_store.pulls@.len(),
                        loop_store.pulls@.len() >= plen0,
                        plen0 == entry_store.pulls@.len(),
                        rlen0 == entry_store.reviews@.len(),
                        elen0 == entry_store.events@.len(),
                        store.pulls@.subrange(0, loop_store.pulls@.len() as int) == loop_store
                            .pulls@,
                        store.pulls@.subrange(0, plen0 as int) == entry_store.pulls@,
                        loop_store.pulls@.subrange(0, plen0 as int) == entry_store.pulls@,
                        forall|k: int|
                            plen0 <= k < loop_store.pulls@.len() ==> (#[trigger] loop_store
                                .pulls@[k]).repo_id == repo_id,
                        forall|k: int|
                            plen0 <= k < store.pulls@.len() ==> (#[trigger] store.pulls@[k]).repo_id
                                == repo_id,
                        store.reviews@.len() >= rlen0,
                        store.events@.len() >= elen0,
                        failures@.len() >= loop_fails.len(),
                        failures@.subrange(0, loop_fails.len() as int) == loop_fails,
                        forall|j: int|
                            loop_fails.len() <= j < failures@.len() ==> !((
                            #[trigger] failures@[j]) matches UnitFailure::PageFetch(q)),
                        forall|j: int|
                            0 <= j < loop_fails.len() ==> failures@[j] == loop_fails[j],
                        entry_store.spec_has_repo_id(repo_id) ==> store.spec_has_repo_id(repo_id),
                        entry_store.spec_has_repo_id(repo_id) ==> (forall|t2: int|
                            0 <= t2 < t ==> item_covered(
                                *store,
                                repo_id,
                                failures@,
                                (#[trigger] items@[t2]).pull.number,
                            )),
                        iclean == spec_pages_items_clean(entry_store, repo_id, pages@),
                        sclean == (iclean && spec_pages_subs_clean(entry_store, pages@)),
                        iclean ==> store.pulls@.len() - plen0 == total_pulls_fetched(
                            pages@,
                            i as int,
                        ) + t,
                        iclean ==> store.next_pull_id == entry_store.next_pull_id
                            + total_pulls_fetched(pages@, i as int) + t,
                        iclean ==> (forall|k: int|
                            plen0 <= k < store.pulls@.len() ==> row_from_processed(
                                pages@,
                                (#[trigger] store.pulls@[k]).number,
                                i as int,
                                t as int,
                            )),
                        iclean ==> (forall|j: int|
                            0 <= j < failures@.len() ==> !((#[trigger] failures@[j]) matches
                                UnitFailure::ItemPersist(n))),
                        sclean ==> store.reviews@.len() - rlen0 == total_reviews_fetched(
                            pages@,
                            i as int,
                        ) + page_total_reviews(items@, t as int),
                        sclean ==> store.next_review_id == entry_store.next_review_id
                            + total_reviews_fetched(pages@, i as int) + page_total_reviews(
                            items@,
                            t as int,
                        ),
                        sclean ==> store.events@.len() - elen0 == total_events_fetched(
                            pages@,
                            i as int,
                        ) + page_total_events(items@, t as int),
                        sclean ==> failures@.len() == count_failed_pages(pages@, i as int),
                        sclean ==> (forall|p2: int, t2: int, j2: int|
                            page_event_valid(pages@, p2, t2, j2) && (p2 > i || (p2 == i && t2
                                >= t)) ==> !spec_event_ids(store.events@).contains(
                                (#[trigger] spec_page_event_key(pages@, p2, t2, j2))->Some_0,
                            )),
                    decreases items@.len() - t,
                {
                    let ghost iter_store = *store;
                    let ghost iter_fails = failures@;
                    let item = &items[t];
                    proof {
                        if iclean {
                            let n = spec_page_item_number(pages@, i as int, t as int);
                            assert(page_item_valid(pages@, i as int, t as int));
                            assert(item.pull.number == n);
                            assert(total_pulls_fetched(pages@, i as int + 1)
                                == total_pulls_fetched(pages@, i as int) + items@.len());
                            lemma_total_pulls_fetched_mono(
                                pages@,
                                i as int + 1,
                                pages@.len() as int,
                            );
                            assert(store.next_pull_id < u32::MAX);
                            assert(!store.spec_has_pull_key(repo_id, n)) by {
                                if store.spec_has_pull_key(repo_id, n) {
                                    let k = choose|k: int|
                                        0 <= k < store.pulls@.len() && (
                                        #[trigger] store.pulls@[k]).repo_id == repo_id
                                            && store.pulls@[k].number == n;
                                    if k < plen0 {
                                        assert(store.pulls@[k] == store.pulls@.subrange(
                                            0,
                                            plen0 as int,
                                        )[k]);
                                        assert(entry_store.pulls@[k].repo_id == repo_id
                                            && entry_store.pulls@[k].number == n);
                                        assert(entry_store.spec_has_pull_key(repo_id, n));
                                    } else {
                                        assert(row_from_processed(
                                            pages@,
                                            store.pulls@[k].number,
                                            i as int,
                                            t as int,
                                        ));
                                        let (p2, t2) = choose|p2: int, t2: int|
                                            page_item_valid(pages@, p2, t2) && (p2 < i || (p2 == i
                                                && t2 < t)) && store.pulls@[k].number
                                                == #[trigger] spec_page_item_number(
                                                pages@,
                                                p2,
                                                t2,
                                            );
                                        assert(spec_page_item_number(pages@, p2, t2)
                                            != spec_page_item_number(pages@, i as int, t as int));
                                    }
                                }
                            }
                        }
                    }
                    if store.next_pull_id < u32::MAX {
                        match PullRequest::create(store, &item.pull, repo_id) {
                            Ok(row) => {
                                proof {
                                    assert(store.pulls@.subrange(
                                        0,
                                        loop_store.pulls@.len() as int,
                                    ) =~= iter_store.pulls@.subrange(
                                        0,
                                        loop_store.pulls@.len() as int,
                                    ));
                                    assert(store.pulls@.subrange(0, plen0 as int) =~= iter_store
                                        .pulls@.subrange(0, plen0 as int));
                                    assert(store.pulls@[iter_store.pulls@.len() as int] == row);
                                    assert(store.spec_has_pull_id(row.id));
                                }
                                let ghost post_create = *store;
                                let (_rc, _ec) = collect_item(
                                    store,
                                    row.id,
                                    item.pull.number,
                                    &item.reviews,
                                    &item.events,
                                    &mut failures,
                                );
                                proof {
                                    assert(store.pulls@[iter_store.pulls@.len() as int] == row);
                                    assert(store.spec_has_pull_key(repo_id, item.pull.number));
                                    if sclean {
                                        let rsv = items@[t as int].reviews->Some_0@;
                                        let esv = items@[t as int].events->Some_0@;
                                        assert((#[trigger] spec_page_items(pages@, i as int)[t as int]).reviews
                                            is Some);
                                        // the accepted count is the whole review list
                                        assert(page_total_reviews(items@, t as int + 1)
                                            == page_total_reviews(items@, t as int) + rsv.len());
                                        lemma_page_total_reviews_mono(
                                            items@,
                                            t as int + 1,
                                            items@.len() as int,
                                        );
                                        assert(total_reviews_fetched(pages@, i as int + 1)
                                            == total_reviews_fetched(pages@, i as int)
                                            + page_total_reviews(items@, items@.len() as int));
                                        lemma_total_reviews_fetched_mono(
                                            pages@,
                                            i as int + 1,
                                            pages@.len() as int,
                                        );
                                        assert(post_create.next_review_id as int + rsv.len()
                                            <= u32::MAX);
                                        assert(spec_reviews_accepted(
                                            post_create.next_review_id,
                                            rsv.len() as int,
                                        ) == rsv.len());
                                        // this item's events meet the keyed-fresh-distinct law
                                        assert(spec_event_ids(post_create.events@)
                                            == spec_event_ids(iter_store.events@));
                                        assert forall|j: int|
                                            0 <= j < esv.len() implies (
                                        #[trigger] spec_event_key(esv[j])) is Some by {
                                            assert(page_event_valid(
                                                pages@,
                                                i as int,
                                                t as int,
                                                j,
                                            ));
                                            assert(spec_page_event_key(pages@, i as int, t as int, j)
                                                == spec_event_key(esv[j]));
                                        }
                                        assert forall|j: int|
                                            0 <= j < esv.len() implies !spec_event_ids(
                                            post_create.events@,
                                        ).contains(spec_event_key(#[trigger] esv[j])->Some_0) by {
                                            assert(page_event_valid(
                                                pages@,
                                                i as int,
                                                t as int,
                                                j,
                                            ));
                                            assert(spec_page_event_key(pages@, i as int, t as int, j)
                                                == spec_event_key(esv[j]));
                                        }
                                        assert forall|j1: int, j2: int|
                                            0 <= j1 < j2 < esv.len() implies spec_event_key(
                                            #[trigger] esv[j1],
                                        )->Some_0 != spec_event_key(#[trigger] esv[j2])->Some_0 by {
                                            assert(page_event_valid(
                                                pages@,
                                                i as int,
                                                t as int,
                                                j1,
                                            ));
                                            assert(page_event_valid(
                                                pages@,
                                                i as int,
                                                t as int,
                                                j2,
                                            ));
                                            assert(spec_page_event_key(pages@, i as int, t as int, j1)
                                                == spec_event_key(esv[j1]));
                                            assert(spec_page_event_key(pages@, i as int, t as int, j2)
                                                == spec_event_key(esv[j2]));
                                        }
                                        lemma_event_phase_keyed_fresh(
                                            spec_event_ids(post_create.events@),
                                            post_create.next_event_id as int,
                                            esv,
                                            esv.len() as int,
                                        );
                                        let ph = spec_event_phase(
                                            spec_event_ids(post_create.events@),
                                            post_create.next_event_id as int,
                                            esv,
                                            esv.len() as int,
                                        );
                                        assert(page_total_events(items@, t as int + 1)
                                            == page_total_events(items@, t as int) + esv.len());
                                        // later keys stay absent
                                        assert forall|p2: int, t2: int, j2: int|
                                            page_event_valid(pages@, p2, t2, j2) && (p2 > i || (p2
                                                == i && t2 >= t + 1)) implies !spec_event_ids(
                                            store.events@,
                                        ).contains(
                                            (#[trigger] spec_page_event_key(
                                                pages@,
                                                p2,
                                                t2,
                                                j2,
                                            ))->Some_0,
                                        ) by {
                                            let k2 = spec_page_event_key(pages@, p2, t2, j2)->Some_0;
                                            if spec_event_ids(store.events@).contains(k2) {
                                                assert(ph.0.contains(k2));
                                                if !spec_event_ids(post_create.events@).contains(
                                                    k2,
                                                ) {
                                                    let jj = choose|jj: int|
                                                        0 <= jj < esv.len() && spec_event_key(
                                                            #[trigger] esv[jj],
                                                        ) == Some(k2);
                                                    assert(page_event_valid(
                                                        pages@,
                                                        i as int,
                                                        t as int,
                                                        jj,
                                                    ));
                                                    assert(spec_page_event_key(
                                                        pages@,
                                                        i as int,
                                                        t as int,
                                                        jj,
                                                    ) == Some(k2));
                                                    assert(spec_page_event_key(pages@, p2, t2, j2)
                                                        == Some(k2));
                                                }
                                            }
                                        }
                                    }
                                }
                            },
                            Err(_) => {
                                failures.push(UnitFailure::ItemPersist(item.pull.number));
                                proof {
                                    assert(failures@[failures@.len() - 1]
                                        == UnitFailure::ItemPersist(item.pull.number));
                                    assert(failures@.contains(UnitFailure::ItemPersist(
                                        item.pull.number,
                                    )));
                                }
                            },
                        }
                    } else {
                        failures.push(UnitFailure::ItemPersist(item.pull.number));
                        proof {
                            assert(failures@[failures@.len() - 1] == UnitFailure::ItemPersist(
                                item.pull.number,
                            ));
                            assert(failures@.contains(UnitFailure::ItemPersist(item.pull.number)));
                        }
                    }
                    proof {
                        assert(failures@.subrange(0, loop_fails.len() as int) =~= loop_fails);
                        assert(failures@.subrange(0, iter_fails.len() as int) =~= iter_fails);
                        assert(store.pulls@.subrange(0, plen0 as int) =~= entry_store.pulls@);
                        assert forall|j: int|
                            loop_fails.len() <= j < failures@.len() implies !((
                        #[trigger] failures@[j]) matches UnitFailure::PageFetch(q)) by {
                            if j < iter_fails.len() {
                                assert(failures@[j] == failures@.subrange(
                                    0,
                                    iter_fails.len() as int,
                                )[j]);
                            }
                        }
                        if iclean {
                            assert forall|j: int|
                                0 <= j < failures@.len() implies !((#[trigger] failures@[j]) matches
                            UnitFailure::ItemPersist(n)) by {
                                if j < iter_fails.len() {
                                    assert(failures@[j] == failures@.subrange(
                                        0,
                                        iter_fails.len() as int,
                                    )[j]);
                                }
                            }
                            assert forall|k: int|
                                plen0 <= k < store.pulls@.len() implies row_from_processed(
                                pages@,
                                (#[trigger] store.pulls@[k]).number,
                                i as int,
                                t as int + 1,
                            ) by {
                                if k < iter_store.pulls@.len() {
                                    assert(store.pulls@[k] == store.pulls@.subrange(
                                        0,
                                        iter_store.pulls@.len() as int,
                                    )[k]);
                                    lemma_row_from_processed_widen(
                                        pages@,
                                        store.pulls@[k].number,
                                        i as int,
                                        t as int,
                                        i as int,
                                        t as int + 1,
                                    );
                                } else {
                                    assert(store.pulls@[k].number == spec_page_item_number(
                                        pages@,
                                        i as int,
                                        t as int,
                                    ));
                                    assert(page_item_valid(pages@, i as int, t as int));
                                }
                            }
                        }
                        if entry_store.spec_has_repo_id(repo_id) {
                            assert(store.repositories@ == iter_store.repositories@);
                            lemma_has_repo_id_stable(iter_store, *store, repo_id);
                            assert(store.pulls@.subrange(0, iter_store.pulls@.len() as int)
                                =~= iter_store.pulls@);
                            assert forall|t2: int|
                                0 <= t2 < t + 1 implies item_covered(
                                *store,
                                repo_id,
                                failures@,
                                (#[trigger] items@[t2]).pull.number,
                            ) by {
                                if t2 < t {
                                    let n = items@[t2].pull.number;
                                    assert(item_covered(iter_store, repo_id, iter_fails, n));
                                    if iter_store.spec_has_pull_key(repo_id, n) {
                                        lemma_has_pull_key_extends(iter_store, *store, repo_id, n);
                                    } else {
                                        lemma_failure_recorded_extends(
                                            iter_fails,
                                            failures@,
                                            UnitFailure::ItemPersist(n),
                                        );
                                    }
                                } else {
                                    assert(items@[t2] == *item);
                                }
                            }
                        }
                    }
                    t = t + 1;
                }
                proof {
                    assert forall|p: int|
                        0 <= p < i + 1 && (#[trigger] pages@[p].items) is None implies failures@
                        .contains(UnitFailure::PageFetch((p + 1) as u32)) by {
                        if p < i {
                            let w = choose|w: int|
                                0 <= w < loop_fails.len() && loop_fails[w]
                                    == UnitFailure::PageFetch((p + 1) as u32);
                            assert(failures@[w] == UnitFailure::PageFetch((p + 1) as u32));
                        }
                    }
                    if entry_store.spec_has_repo_id(repo_id) {
                        assert forall|t2: int|
                            0 <= t2 < pages@[i as int].items->Some_0@.len() implies item_covered(
                            *store,
                            repo_id,
                            failures@,
                            (#[trigger] pages@[i as int].items->Some_0@[t2]).pull.number,
                        ) by {
                            assert(pages@[i as int].items->Some_0@[t2] == items@[t2]);
                        }
                    }
                    if iclean {
                        assert(total_pulls_fetched(pages@, i as int + 1) == total_pulls_fetched(
                            pages@,
                            i as int,
                        ) + items@.len());
                        assert forall|k: int|
                            plen0 <= k < store.pulls@.len() implies row_from_processed(
                            pages@,
                            (#[trigger] store.pulls@[k]).number,
                            i as int + 1,
                            0,
                        ) by {
                            lemma_row_from_processed_widen(
                                pages@,
                                store.pulls@[k].number,
                                i as int,
                                items@.len() as int,
                                i as int + 1,
                                0,
                            );
                        }
                    }
                    if sclean {
                        assert(total_reviews_fetched(pages@, i as int + 1)
                            == total_reviews_fetched(pages@, i as int) + page_total_reviews(
                            items@,
                            items@.len() as int,
                        ));
                        assert(total_events_fetched(pages@, i as int + 1) == total_events_fetched(
                            pages@,
                            i as int,
                        ) + page_total_events(items@, items@.len() as int));
                        assert(count_failed_pages(pages@, i as int + 1) == count_failed_pages(
                            pages@,
                            i as int,
                        ));
                    }
                }
            },
        }
        proof {
            assert(failures@.subrange(0, loop_fails.len() as int) =~= loop_fails);
            assert forall|j: int|
                0 <= j < failures@.len() implies ((#[trigger] failures@[j]) matches
            UnitFailure::PageFetch(q) ==> 1 <= q <= i + 1 && pages@[q - 1].items is None) by {
                if j < loop_fails.len() {
                    assert(failures@[j] == failures@.subrange(0, loop_fails.len() as int)[j]);
                }
            }
            if entry_store.spec_has_repo_id(repo_id) {
                assert(store.repositories@ == loop_store.repositories@);
                lemma_has_repo_id_stable(loop_store, *store, repo_id);
                assert(store.pulls@.subrange(0, loop_store.pulls@.len() as int) =~= loop_store
                    .pulls@);
                assert forall|p: int, t: int|
                    0 <= p < i + 1 && pages@[p].items is Some && 0 <= t
                        < pages@[p].items->Some_0@.len() implies item_covered(
                    *store,
                    repo_id,
                    failures@,
                    (#[trigger] pages@[p].items->Some_0@[t]).pull.number,
                ) by {
                    if p < i {
                        let n = pages@[p].items->Some_0@[t].pull.number;
                        assert(item_covered(loop_store, repo_id, loop_fails, n));
                        if loop_store.spec_has_pull_key(repo_id, n) {
                            lemma_has_pull_key_extends(loop_store, *store, repo_id, n);
                        } else {
                            lemma_failure_recorded_extends(
                                loop_fails,
                                failures@,
                                UnitFailure::ItemPersist(n),
                            );
                        }
                    }
                }
            }
        }
        sched.complete();
        i = i + 1;
    }
    let pulls_persisted = store.pulls.len() - plen0;
    let reviews_persisted = store.reviews.len() - rlen0;
    let events_persisted = store.events.len() - elen0;
    CollectionSummary { pulls_persisted, reviews_persisted, events_persisted, failures }
}

/// Checks a caller-specified subset of pull-request numbers against the
/// store before any remote call is made: every requested number must
/// already be stored under `repo_id`; an empty request selects every
/// stored pull of the repository. On success the stored rows come back
/// in storage order.
pub fn plan_subset(store: &Store, repo_id: u32, numbers: &Vec<u32>) -> (r: Result<
    Vec<PullRequest>,
    crate::errors::CollectError,
>)
    ensures
        match r {
            Ok(rows) => rows@ == store.pulls@.filter(
                |p: PullRequest|
                    p.repo_id == repo_id && (numbers@.len() == 0 || numbers@.contains(p.number)),
            ) && (numbers@.len() != 0 ==> rows@.len() == numbers@.len()),
            Err(e) => e == crate::errors::CollectError::CountMismatch && numbers@.len() != 0
                && store.pulls@.filter(
                |p: PullRequest|
                    p.repo_id == repo_id && (numbers@.len() == 0 || numbers@.contains(p.number)),
            ).len() != numbers@.len(),
        },
{
    let rows = PullRequest::fetch_many(store, repo_id, numbers);
    if numbers.len() != 0 && rows.len() != numbers.len() {
        return Err(crate::errors::CollectError::CountMismatch);
    }
    Ok(rows)
}

/// Total review records across the first `i` items of a subset's
/// fetched lists.
pub open spec fn subset_total_reviews(items: Seq<SubsetItem>, i: int) -> int
    decreases i,
{
    if i <= 0 {
        0
    } else {
        subset_total_reviews(items, i - 1) + (match items[i - 1].reviews {
            Option::Some(rs) => rs@.len() as int,
            Option::None => 0,
        })
    }
}

/// Total timeline-event records across the first `i` items of a
/// subset's fetched lists.
pub open spec fn subset_total_events(items: Seq<SubsetItem>, i: int) -> int
    decreases i,
{
    if i <= 0 {
        0
    } else {
        subset_total_events(items, i - 1) + (match items[i - 1].events {
            Option::Some(es) => es@.len() as int,
            Option::None => 0,
        })
    }
}

proof fn lemma_subset_total_reviews_mono(items: Seq<SubsetItem>, i: int, j: int)
    requires
        0 <= i <= j,
    ensures
        subset_total_reviews(items, i) <= subset_total_reviews(items, j),
    decreases j - i,
{
    if i < j {
        lemma_subset_total_reviews_mono(items, i, j - 1);
    }
}

/// The fetched events of one subset item.
pub open spec fn spec_subset_events(items: Seq<SubsetItem>, i: int) -> Seq<RemoteEvent> {
    items[i].events->Some_0@
}

/// The de-duplication key of one event of one subset item.
pub open spec fn spec_subset_event_key(items: Seq<SubsetItem>, i: int, j: int) -> Option<u32> {
    spec_event_key(spec_subset_events(items, i)[j])
}

/// A subset input on which every record must land: every parent row is
/// stored, both secondary lists of every item were fetched, the review
/// identifier space suffices for the whole pass, and every event
/// carries a key that is fresh and unique across the pass.
pub open spec fn spec_subset_clean(store0: Store, items: Seq<SubsetItem>) -> bool {
    &&& forall|i: int|
        0 <= i < items.len() ==> store0.spec_has_pull_id((#[trigger] items[i]).issue_pull_id)
    &&& forall|i: int|
        0 <= i < items.len() ==> (#[trigger] items[i]).reviews is Some && items[i].events is Some
    &&& store0.next_review_id + subset_total_reviews(items, items.len() as int) <= u32::MAX
    &&& forall|i: int, j: int|
        0 <= i < items.len() && 0 <= j < spec_subset_events(items, i).len() ==> (
        #[trigger] spec_subset_event_key(items, i, j)) is Some
    &&& forall|i: int, j: int|
        0 <= i < items.len() && 0 <= j < spec_subset_events(items, i).len()
            ==> !store0.spec_has_event_id((#[trigger] spec_subset_event_key(items, i, j))->Some_0)
    &&& forall|i1: int, j1: int, i2: int, j2: int|
        0 <= i1 < items.len() && 0 <= j1 < spec_subset_events(items, i1).len() && 0 <= i2
            < items.len() && 0 <= j2 < spec_subset_events(items, i2).len() && (i1 != i2 || j1
            != j2) ==> #[trigger] spec_subset_event_key(items, i1, j1)
            != #[trigger] spec_subset_event_key(items, i2, j2)
}

/// A table's identifier set names exactly the identifiers the store
/// reports present.
proof fn lemma_event_id_bridge(s: Store, k: u32)
    ensures
        spec_event_ids(s.events@).contains(k) == s.spec_has_event_id(k),
{
    if events_contain_id(s.events@, k) {
        let j = choose|j: int| 0 <= j < s.events@.len() && (#[trigger] s.events@[j]).id == k;
        assert(s.events@[j].id == k);
    }
    if s.spec_has_event_id(k) {
        let j = choose|j: int| 0 <= j < s.events@.len() && (#[trigger] s.events@[j]).id == k;
        assert(events_contain_id(s.events@, k));
    }
}

/// Runs the sequential re-collection pass over a planned subset: each
/// item's secondary lists go through the sub-collector, one item at a
/// time. The caller paces the fetches; the store already holds every
/// parent row. On a clean pass — every list fetched, parents stored,
/// identifier space sufficient, event keys fresh and unique — every
/// record of every list is persisted and nothing is recorded as
/// failed.
pub fn collect_subset(store: &mut Store, items: &Vec<SubsetItem>) -> (r: CollectionSummary)
    requires
        old(store).wf(),
    ensures
        final(store).wf(),
        final(store).repositories@ == old(store).repositories@,
        final(store).pulls@ == old(store).pulls@,
        r.pulls_persisted == 0,
        r.reviews_persisted == final(store).reviews@.len() - old(store).reviews@.len(),
        r.events_persisted == final(store).events@.len() - old(store).events@.len(),
        forall|j: int|
            0 <= j < r.failures@.len() ==> !((#[trigger] r.failures@[j]) matches
                UnitFailure::PageFetch(q)),
        forall|j: int|
            0 <= j < items@.len() && (#[trigger] items@[j]).reviews is None
                ==> r.failures@.contains(UnitFailure::SubFetch(items@[j].number)),
        forall|j: int|
            0 <= j < items@.len() && (#[trigger] items@[j]).events is None
                ==> r.failures@.contains(UnitFailure::SubFetch(items@[j].number)),
        spec_subset_clean(*old(store), items@) ==> r.reviews_persisted == subset_total_reviews(
            items@,
            items@.len() as int,
        ) && r.events_persisted == subset_total_events(items@, items@.len() as int)
            && r.failures@.len() == 0,
        items@.len() == 0 ==> *final(store) == *old(store) && r.failures@.len() == 0,
{
    let ghost entry_store = *store;
    let ghost sclean = spec_subset_clean(entry_store, items@);
    let mut failures: Vec<UnitFailure> = Vec::new();
    let rlen0 = store.reviews.len();
    let elen0 = store.events.len();
    proof {
        if sclean {
            assert forall|i2: int, j2: int|
                0 <= i2 < items@.len() && 0 <= j2 < spec_subset_events(items@, i2).len()
                    implies !spec_event_ids(store.events@).contains(
                (#[trigger] spec_subset_event_key(items@, i2, j2))->Some_0,
            ) by {
                lemma_event_id_bridge(entry_store, spec_subset_event_key(items@, i2, j2)->Some_0);
            }
        }
    }
    let mut i: usize = 0;
    while i < items.len()
        invariant
            0 <= i <= items@.len(),
            store.wf(),
            store.repositories@ == entry_store.repositories@,
            store.pulls@ == entry_store.pulls@,
            rlen0 == entry_store.reviews@.len(),
            elen0 == entry_store.events@.len(),
            store.reviews@.len() >= rlen0,
            store.events@.len() >= elen0,
            sclean == spec_subset_clean(entry_store, items@),
            forall|j: int|
                0 <= j < failures@.len() ==> !((#[trigger] failures@[j]) matches
                    UnitFailure::PageFetch(q)),
            forall|j: int|
                0 <= j < i && (#[trigger] items@[j]).reviews is None ==> failures@.contains(
                    UnitFailure::SubFetch(items@[j].number),
                ),
            forall|j: int|
                0 <= j < i && (#[trigger] items@[j]).events is None ==> failures@.contains(
                    UnitFailure::SubFetch(items@[j].number),
                ),
            sclean ==> store.reviews@.len() - rlen0 == subset_total_reviews(items@, i as int),
            sclean ==> store.next_review_id == entry_store.next_review_id + subset_total_reviews(
                items@,
                i as int,
            ),
            sclean ==> store.events@.len() - elen0 == subset_total_events(items@, i as int),
            sclean ==> failures@.len() == 0,
            sclean ==> (forall|i2: int, j2: int|
                i <= i2 < items@.len() && 0 <= j2 < spec_subset_events(items@, i2).len()
                    ==> !spec_event_ids(store.events@).contains(
                    (#[trigger] spec_subset_event_key(items@, i2, j2))->Some_0,
                )),
            i == 0 ==> *store == entry_store && failures@.len() == 0,
        decreases items@.len() - i,
    {
        let ghost iter_store = *store;
        let ghost iter_fails = failures@;
        let item = &items[i];
        proof {
            if sclean {
                lemma_has_pull_id_same(entry_store, iter_store, item.issue_pull_id);
            }
        }
        let (_rc, _ec) = collect_item(
            store,
            item.issue_pull_id,
            item.number,
            &item.reviews,
            &item.events,
            &mut failures,
        );
        proof {
            assert(failures@.subrange(0, iter_fails.len() as int) =~= iter_fails);
            assert forall|j: int|
                0 <= j < failures@.len() implies !((#[trigger] failures@[j]) matches
            UnitFailure::PageFetch(q)) by {
                if j < iter_fails.len() {
                    assert(failures@[j] == failures@.subrange(0, iter_fails.len() as int)[j]);
                }
            }
            assert(items@[i as int] == *item);
            assert forall|j: int|
                0 <= j < i + 1 && (#[trigger] items@[j]).reviews is None implies failures@
                .contains(UnitFailure::SubFetch(items@[j].number)) by {
                if j < i {
                    lemma_failure_recorded_extends(
                        iter_fails,
                        failures@,
                        UnitFailure::SubFetch(items@[j].number),
                    );
                }
            }
            assert forall|j: int|
                0 <= j < i + 1 && (#[trigger] items@[j]).events is None implies failures@
                .contains(UnitFailure::SubFetch(items@[j].number)) by {
                if j < i {
                    lemma_failure_recorded_extends(
                        iter_fails,
                        failures@,
                        UnitFailure::SubFetch(items@[j].number),
                    );
                }
            }
            if sclean {
                let rsv = items@[i as int].reviews->Some_0@;
                let esv = items@[i as int].events->Some_0@;
                assert(spec_subset_events(items@, i as int) == esv);
                // Review headroom for this item's whole list.
                assert(subset_total_reviews(items@, i as int + 1) == subset_total_reviews(
                    items@,
                    i as int,
                ) + rsv.len());
                lemma_subset_total_reviews_mono(items@, i as int + 1, items@.len() as int);
                assert(iter_store.next_review_id + rsv.len() <= u32::MAX);
                assert(spec_reviews_accepted(iter_store.next_review_id, rsv.len() as int)
                    == rsv.len());
                // This item's events meet the keyed-fresh-distinct law.
                assert forall|j: int|
                    0 <= j < esv.len() implies (#[trigger] spec_event_key(esv[j])) is Some by {
                    assert(spec_subset_event_key(items@, i as int, j) == spec_event_key(esv[j]));
                }
                assert forall|j: int|
                    0 <= j < esv.len() implies !spec_event_ids(iter_store.events@).contains(
                    spec_event_key(#[trigger] esv[j])->Some_0,
                ) by {
                    assert(spec_subset_event_key(items@, i as int, j) == spec_event_key(esv[j]));
                }
                assert forall|j1: int, j2: int|
                    0 <= j1 < j2 < esv.len() implies spec_event_key(#[trigger] esv[j1])->Some_0
                    != spec_event_key(#[trigger] esv[j2])->Some_0 by {
                    assert(spec_subset_event_key(items@, i as int, j1) == spec_event_key(
                        esv[j1],
                    ));
                    assert(spec_subset_event_key(items@, i as int, j2) == spec_event_key(
                        esv[j2],
                    ));
                }
                lemma_event_phase_keyed_fresh(
                    spec_event_ids(iter_store.events@),
                    iter_store.next_event_id as int,
                    esv,
                    esv.len() as int,
                );
                let ph = spec_event_phase(
                    spec_event_ids(iter_store.events@),
                    iter_store.next_event_id as int,
                    esv,
                    esv.len() as int,
                );
                assert(subset_total_events(items@, i as int + 1) == subset_total_events(
                    items@,
                    i as int,
                ) + esv.len());
                // Later items' keys stay absent: they were absent before
                // and differ from every key this item inserted.
                assert forall|i2: int, j2: int|
                    i + 1 <= i2 < items@.len() && 0 <= j2 < spec_subset_events(items@, i2).len()
                        implies !spec_event_ids(store.events@).contains(
                    (#[trigger] spec_subset_event_key(items@, i2, j2))->Some_0,
                ) by {
                    let k2 = spec_subset_event_key(items@, i2, j2)->Some_0;
                    if spec_event_ids(store.events@).contains(k2) {
                        assert(ph.0.contains(k2));
                        if !spec_event_ids(iter_store.events@).contains(k2) {
                            let jj = choose|jj: int|
                                0 <= jj < esv.len() && spec_event_key(#[trigger] esv[jj]) == Some(
                                    k2,
                                );
                            assert(spec_subset_event_key(items@, i as int, jj) == Some(k2));
                            assert(spec_subset_event_key(items@, i2, j2) == Some(k2));
                        }
                    }
                }
            }
        }
        i = i + 1;
    }
    let reviews_persisted = store.reviews.len() - rlen0;
    let events_persisted = store.events.len() - elen0;
    CollectionSummary { pulls_persisted: 0, reviews_persisted, events_persisted, failures }
}

} // verus!

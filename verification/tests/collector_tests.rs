use gdfm::{
    collect_all, collect_subset, plan_subset, Association, CollectError, PageFetch, PullItem,
    PullRequest, PullState, RemoteEvent, RemotePull, RemoteReview, Repository, ReviewState, Store,
    SubsetItem, UnitFailure,
};

fn remote_pull(number: u32) -> RemotePull {
    RemotePull {
        number,
        title: Some(format!("title {}", number)),
        state: Some(PullState::Closed),
        created_at: Some("2024-01-01T00:00:00Z".to_string()),
        updated_at: None,
        closed_at: None,
        merged_at: None,
        author: Some("octocat".to_string()),
        author_association: Some(Association::Contributor),
    }
}

fn remote_review() -> RemoteReview {
    RemoteReview {
        reviewer: Some("hubot".to_string()),
        state: Some(ReviewState::Commented),
        author_association: None,
        submitted_at: Some("2024-02-01T00:00:00Z".to_string()),
    }
}

fn remote_event(id: u64) -> RemoteEvent {
    RemoteEvent {
        id: Some(id),
        event_type: "closed".to_string(),
        actor: None,
        author_association: None,
        created_at: Some("2024-02-02T00:00:00Z".to_string()),
    }
}

fn item(number: u32, event_id: u64) -> PullItem {
    PullItem {
        pull: remote_pull(number),
        reviews: Some(vec![remote_review()]),
        events: Some(vec![remote_event(event_id)]),
    }
}

fn store_with_repo() -> (Store, u32) {
    let mut store = Store::new();
    let repo = Repository::create(&mut store, "octo/hello").unwrap();
    (store, repo.id)
}

#[test]
fn empty_job_reports_zero_and_no_errors() {
    let (mut store, repo_id) = store_with_repo();
    let pages: Vec<PageFetch> = vec![];
    let summary = collect_all(&mut store, repo_id, &pages, 5);
    assert_eq!(summary.pulls_persisted, 0);
    assert_eq!(summary.reviews_persisted, 0);
    assert_eq!(summary.events_persisted, 0);
    assert!(summary.failures.is_empty());
    assert_eq!(store.pulls.len(), 0);
}

#[test]
fn five_clean_pages_of_hundred_items_persist_five_hundred_pulls() {
    let (mut store, repo_id) = store_with_repo();
    let mut pages: Vec<PageFetch> = Vec::new();
    let mut number: u32 = 0;
    for _ in 0..5 {
        let mut items = Vec::new();
        for _ in 0..100 {
            number += 1;
            items.push(item(number, number as u64));
        }
        pages.push(PageFetch { items: Some(items) });
    }
    let summary = collect_all(&mut store, repo_id, &pages, 5);
    assert_eq!(summary.pulls_persisted, 500);
    assert_eq!(summary.reviews_persisted, 500);
    assert_eq!(summary.events_persisted, 500);
    assert!(summary.failures.is_empty());
    assert_eq!(store.pulls.len(), 500);
    assert_eq!(store.reviews.len(), 500);
    assert_eq!(store.events.len(), 500);
}

#[test]
fn a_failed_page_is_skipped_and_recorded() {
    let (mut store, repo_id) = store_with_repo();
    let mut pages: Vec<PageFetch> = Vec::new();
    let mut number: u32 = 0;
    for page in 1..=5 {
        if page == 3 {
            number += 100;
            pages.push(PageFetch { items: None });
            continue;
        }
        let mut items = Vec::new();
        for _ in 0..100 {
            number += 1;
            items.push(item(number, number as u64));
        }
        pages.push(PageFetch { items: Some(items) });
    }
    let summary = collect_all(&mut store, repo_id, &pages, 5);
    assert_eq!(summary.pulls_persisted, 400);
    assert_eq!(summary.failures, vec![UnitFailure::PageFetch(3)]);
    assert_eq!(store.pulls.len(), 400);
}

#[test]
fn recollecting_a_page_reports_item_failures() {
    let (mut store, repo_id) = store_with_repo();
    let pages = vec![PageFetch { items: Some(vec![item(1, 1), item(2, 2)]) }];
    let first = collect_all(&mut store, repo_id, &pages, 5);
    assert_eq!(first.pulls_persisted, 2);
    let second = collect_all(&mut store, repo_id, &pages, 5);
    assert_eq!(second.pulls_persisted, 0);
    assert_eq!(
        second.failures,
        vec![UnitFailure::ItemPersist(1), UnitFailure::ItemPersist(2)]
    );
    assert_eq!(store.pulls.len(), 2);
}

#[test]
fn duplicate_timeline_events_across_pages_stay_single() {
    let (mut store, repo_id) = store_with_repo();
    // Two different pulls whose timeline events carry the same remote id.
    let pages = vec![PageFetch { items: Some(vec![item(1, 77), item(2, 77)]) }];
    let summary = collect_all(&mut store, repo_id, &pages, 5);
    assert_eq!(summary.pulls_persisted, 2);
    assert_eq!(summary.events_persisted, 1);
    assert_eq!(store.events.len(), 1);
    assert_eq!(store.events[0].id, 77);
}

#[test]
fn failed_secondary_fetch_keeps_the_parent_row() {
    let (mut store, repo_id) = store_with_repo();
    let broken = PullItem { pull: remote_pull(9), reviews: None, events: None };
    let pages = vec![PageFetch { items: Some(vec![broken]) }];
    let summary = collect_all(&mut store, repo_id, &pages, 5);
    assert_eq!(summary.pulls_persisted, 1);
    assert_eq!(store.pulls.len(), 1);
    assert_eq!(
        summary.failures,
        vec![UnitFailure::SubFetch(9), UnitFailure::SubFetch(9)]
    );
}

#[test]
fn subset_with_a_missing_number_fails_before_any_remote_call() {
    let (mut store, repo_id) = store_with_repo();
    PullRequest::create(&mut store, &remote_pull(10), repo_id).unwrap();
    let err = plan_subset(&store, repo_id, &vec![10, 20]);
    assert_eq!(err.unwrap_err(), CollectError::CountMismatch);
}

#[test]
fn subset_plan_returns_the_stored_rows() {
    let (mut store, repo_id) = store_with_repo();
    PullRequest::create(&mut store, &remote_pull(10), repo_id).unwrap();
    PullRequest::create(&mut store, &remote_pull(20), repo_id).unwrap();
    let rows = plan_subset(&store, repo_id, &vec![10]).unwrap();
    assert_eq!(rows.len(), 1);
    assert_eq!(rows[0].number, 10);
    let all = plan_subset(&store, repo_id, &vec![]).unwrap();
    assert_eq!(all.len(), 2);
}

#[test]
fn subset_collection_persists_secondary_records() {
    let (mut store, repo_id) = store_with_repo();
    let pull = PullRequest::create(&mut store, &remote_pull(10), repo_id).unwrap();
    let items = vec![SubsetItem {
        issue_pull_id: pull.id,
        number: pull.number,
        reviews: Some(vec![remote_review(), remote_review()]),
        events: Some(vec![remote_event(5)]),
    }];
    let summary = collect_subset(&mut store, &items);
    assert_eq!(summary.pulls_persisted, 0);
    assert_eq!(summary.reviews_persisted, 2);
    assert_eq!(summary.events_persisted, 1);
    assert!(summary.failures.is_empty());
}

#[test]
fn subset_collection_records_failed_secondary_fetches() {
    let (mut store, repo_id) = store_with_repo();
    let pull = PullRequest::create(&mut store, &remote_pull(10), repo_id).unwrap();
    let items = vec![SubsetItem {
        issue_pull_id: pull.id,
        number: pull.number,
        reviews: None,
        events: Some(vec![remote_event(5)]),
    }];
    let summary = collect_subset(&mut store, &items);
    assert_eq!(summary.failures, vec![UnitFailure::SubFetch(10)]);
    assert_eq!(summary.events_persisted, 1);
}

#[test]
fn recollecting_the_same_event_in_one_subset_pass_stores_it_once() {
    let (mut store, repo_id) = store_with_repo();
    let pull = PullRequest::create(&mut store, &remote_pull(10), repo_id).unwrap();
    let items = vec![SubsetItem {
        issue_pull_id: pull.id,
        number: pull.number,
        reviews: Some(vec![]),
        events: Some(vec![remote_event(5), remote_event(5)]),
    }];
    let summary = collect_subset(&mut store, &items);
    assert_eq!(summary.events_persisted, 1);
    assert_eq!(store.events.len(), 1);
}

#[test]
fn mixed_keyed_and_unkeyed_events_all_persist() {
    let (mut store, repo_id) = store_with_repo();
    let pull = PullRequest::create(&mut store, &remote_pull(10), repo_id).unwrap();
    let unkeyed = RemoteEvent {
        id: None,
        event_type: "commented".to_string(),
        actor: None,
        author_association: None,
        created_at: None,
    };
    let oversized = RemoteEvent {
        id: Some(5_000_000_000),
        event_type: "commented".to_string(),
        actor: None,
        author_association: None,
        created_at: None,
    };
    let items = vec![SubsetItem {
        issue_pull_id: pull.id,
        number: pull.number,
        reviews: Some(vec![]),
        events: Some(vec![remote_event(90), unkeyed, remote_event(95), oversized]),
    }];
    let summary = collect_subset(&mut store, &items);
    assert_eq!(summary.events_persisted, 4);
    assert_eq!(store.events.len(), 4);
    assert!(summary.failures.is_empty());
    // the keyed rows carry their remote identifiers; the others got
    // fresh local ones
    let ids: Vec<u32> = store.events.iter().map(|e| e.id).collect();
    assert!(ids.contains(&90));
    assert!(ids.contains(&95));
}

#[test]
fn reviews_are_stored_in_listing_order() {
    let (mut store, repo_id) = store_with_repo();
    let pull = PullRequest::create(&mut store, &remote_pull(10), repo_id).unwrap();
    let mut first = remote_review();
    first.reviewer = Some("alpha".to_string());
    let mut second = remote_review();
    second.reviewer = Some("beta".to_string());
    let items = vec![SubsetItem {
        issue_pull_id: pull.id,
        number: pull.number,
        reviews: Some(vec![first, second]),
        events: Some(vec![]),
    }];
    let summary = collect_subset(&mut store, &items);
    assert_eq!(summary.reviews_persisted, 2);
    assert_eq!(store.reviews[0].reviewer, "alpha");
    assert_eq!(store.reviews[1].reviewer, "beta");
    assert!(store.reviews[0].id < store.reviews[1].id);
}

use gdfm::{
    Association, CollectError, PullRequest, PullRequestEvent, PullRequestReview, PullState,
    RemoteEvent, RemotePull, RemoteReview, Repository, ReviewState, Store,
};

fn remote_pull(number: u32) -> RemotePull {
    RemotePull {
        number,
        title: Some(format!("title {}", number)),
        state: Some(PullState::Closed),
        created_at: Some("2024-01-01T00:00:00Z".to_string()),
        updated_at: Some("2024-01-02T00:00:00Z".to_string()),
        closed_at: Some("2024-01-03T00:00:00Z".to_string()),
        merged_at: Some("2024-01-03T00:00:00Z".to_string()),
        author: Some("octocat".to_string()),
        author_association: Some(Association::Member),
    }
}

fn remote_review() -> RemoteReview {
    RemoteReview {
        reviewer: Some("hubot".to_string()),
        state: Some(ReviewState::Approved),
        author_association: Some(Association::Collaborator),
        submitted_at: Some("2024-02-01T00:00:00Z".to_string()),
    }
}

fn remote_event(id: Option<u64>) -> RemoteEvent {
    RemoteEvent {
        id,
        event_type: "labeled".to_string(),
        actor: Some("octocat".to_string()),
        author_association: Some("MEMBER".to_string()),
        created_at: Some("2024-02-02T00:00:00Z".to_string()),
    }
}

#[test]
fn repository_path_splits_on_slashes() {
    let mut store = Store::new();
    let repo = Repository::create(&mut store, "octo/hello").unwrap();
    assert_eq!(repo.owner, "octo");
    assert_eq!(repo.name, "hello");
    assert_eq!(repo.id, 1);
}

#[test]
fn repository_path_without_slash_is_owner_and_name() {
    let mut store = Store::new();
    let repo = Repository::create(&mut store, "solo").unwrap();
    assert_eq!(repo.owner, "solo");
    assert_eq!(repo.name, "solo");
}

#[test]
fn duplicate_repository_is_rejected() {
    let mut store = Store::new();
    Repository::create(&mut store, "octo/hello").unwrap();
    let again = Repository::create(&mut store, "octo/hello");
    assert_eq!(again.unwrap_err(), CollectError::Uniqueness);
    assert_eq!(store.repositories.len(), 1);
}

#[test]
fn repository_lookup_by_path() {
    let mut store = Store::new();
    let created = Repository::create(&mut store, "octo/hello").unwrap();
    let found = Repository::from(&store, "octo/hello").unwrap();
    assert_eq!(found.id, created.id);
    let missing = Repository::from(&store, "octo/other");
    assert_eq!(missing.unwrap_err(), CollectError::NotFound);
}

#[test]
fn pull_fields_are_stored_canonically() {
    let mut store = Store::new();
    let repo = Repository::create(&mut store, "octo/hello").unwrap();
    let row = PullRequest::create(&mut store, &remote_pull(7), repo.id).unwrap();
    assert_eq!(row.number, 7);
    assert_eq!(row.title, "title 7");
    assert_eq!(row.state, "Closed");
    assert_eq!(row.author, "octocat");
    assert_eq!(row.author_association, "Member");
}

#[test]
fn absent_merged_at_is_stored_as_empty_string() {
    let mut store = Store::new();
    let repo = Repository::create(&mut store, "octo/hello").unwrap();
    let mut remote = remote_pull(7);
    remote.merged_at = None;
    remote.closed_at = None;
    let row = PullRequest::create(&mut store, &remote, repo.id).unwrap();
    assert_eq!(row.merged_at, "");
    assert_eq!(row.closed_at, "");
    assert_eq!(store.pulls[0].merged_at, "");
}

#[test]
fn recollecting_a_pull_is_a_uniqueness_violation() {
    let mut store = Store::new();
    let repo = Repository::create(&mut store, "octo/hello").unwrap();
    PullRequest::create(&mut store, &remote_pull(7), repo.id).unwrap();
    let again = PullRequest::create(&mut store, &remote_pull(7), repo.id);
    assert_eq!(again.unwrap_err(), CollectError::Uniqueness);
    assert_eq!(store.pulls.len(), 1);
}

#[test]
fn pull_under_missing_repository_is_a_data_integrity_error() {
    let mut store = Store::new();
    let r = PullRequest::create(&mut store, &remote_pull(7), 99);
    assert_eq!(r.unwrap_err(), CollectError::DataIntegrity);
}

#[test]
fn fetch_reads_a_stored_pull_back() {
    let mut store = Store::new();
    let repo = Repository::create(&mut store, "octo/hello").unwrap();
    let created = PullRequest::create(&mut store, &remote_pull(7), repo.id).unwrap();
    let fetched = PullRequest::fetch(&store, repo.id, 7).unwrap();
    assert_eq!(fetched.id, created.id);
    assert_eq!(fetched.title, "title 7");
    let missing = PullRequest::fetch(&store, repo.id, 8);
    assert_eq!(missing.unwrap_err(), CollectError::NotFound);
}

#[test]
fn fetch_many_filters_by_number_and_empty_selects_all() {
    let mut store = Store::new();
    let repo = Repository::create(&mut store, "octo/hello").unwrap();
    for n in [10, 20, 30] {
        PullRequest::create(&mut store, &remote_pull(n), repo.id).unwrap();
    }
    let some = PullRequest::fetch_many(&store, repo.id, &vec![10, 30]);
    let numbers: Vec<u32> = some.iter().map(|p| p.number).collect();
    assert_eq!(numbers, vec![10, 30]);
    let all = PullRequest::fetch_many(&store, repo.id, &vec![]);
    assert_eq!(all.len(), 3);
    let other_repo = PullRequest::fetch_many(&store, repo.id + 1, &vec![]);
    assert_eq!(other_repo.len(), 0);
}

#[test]
fn review_under_missing_pull_is_a_data_integrity_error() {
    let mut store = Store::new();
    let r = PullRequestReview::create(&mut store, 5, &remote_review());
    assert_eq!(r.unwrap_err(), CollectError::DataIntegrity);
}

#[test]
fn reviews_always_append_so_recollection_duplicates() {
    let mut store = Store::new();
    let repo = Repository::create(&mut store, "octo/hello").unwrap();
    let pull = PullRequest::create(&mut store, &remote_pull(7), repo.id).unwrap();
    let first = PullRequestReview::create(&mut store, pull.id, &remote_review()).unwrap();
    let second = PullRequestReview::create(&mut store, pull.id, &remote_review()).unwrap();
    assert_eq!(store.reviews.len(), 2);
    assert_ne!(first.id, second.id);
    assert_eq!(first.reviewer, "hubot");
    assert_eq!(first.state, "Approved");
    assert_eq!(first.author_association, "Collaborator");
}

#[test]
fn keyed_event_recollection_yields_exactly_one_row() {
    let mut store = Store::new();
    let repo = Repository::create(&mut store, "octo/hello").unwrap();
    let pull = PullRequest::create(&mut store, &remote_pull(7), repo.id).unwrap();
    let first = PullRequestEvent::create(&mut store, pull.id, &remote_event(Some(42))).unwrap();
    let again = PullRequestEvent::create(&mut store, pull.id, &remote_event(Some(42))).unwrap();
    assert_eq!(store.events.len(), 1);
    assert_eq!(first.id, 42);
    assert_eq!(again.id, 42);
    assert_eq!(store.events[0].event_type, "labeled");
    assert_eq!(store.events[0].actor, "octocat");
    assert_eq!(store.events[0].author_association, "MEMBER");
}

#[test]
fn unkeyed_event_recollection_duplicates() {
    let mut store = Store::new();
    let repo = Repository::create(&mut store, "octo/hello").unwrap();
    let pull = PullRequest::create(&mut store, &remote_pull(7), repo.id).unwrap();
    PullRequestEvent::create(&mut store, pull.id, &remote_event(None)).unwrap();
    PullRequestEvent::create(&mut store, pull.id, &remote_event(None)).unwrap();
    assert_eq!(store.events.len(), 2);
    assert_ne!(store.events[0].id, store.events[1].id);
}

#[test]
fn oversized_remote_event_id_is_treated_as_unkeyed() {
    let mut store = Store::new();
    let repo = Repository::create(&mut store, "octo/hello").unwrap();
    let pull = PullRequest::create(&mut store, &remote_pull(7), repo.id).unwrap();
    PullRequestEvent::create(&mut store, pull.id, &remote_event(Some(5_000_000_000))).unwrap();
    PullRequestEvent::create(&mut store, pull.id, &remote_event(Some(5_000_000_000))).unwrap();
    assert_eq!(store.events.len(), 2);
}

#[test]
fn event_under_missing_pull_is_a_data_integrity_error() {
    let mut store = Store::new();
    let r = PullRequestEvent::create(&mut store, 5, &remote_event(Some(1)));
    assert_eq!(r.unwrap_err(), CollectError::DataIntegrity);
}

#[test]
fn error_labels_are_canonical() {
    assert_eq!(CollectError::Parse.label(), "parse error");
    assert_eq!(CollectError::Uniqueness.label(), "uniqueness violation");
    assert_eq!(CollectError::DataIntegrity.label(), "data integrity error");
    assert_eq!(CollectError::CountMismatch.label(), "count mismatch");
    assert_eq!(CollectError::NotFound.label(), "row not found");
    assert_eq!(CollectError::TransientFetch.label(), "transient fetch error");
    assert_eq!(CollectError::Configuration.label(), "configuration error");
}

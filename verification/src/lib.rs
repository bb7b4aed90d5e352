//! Verified core of a repository-activity collector.
//!
//! The library holds the logic of a paginated collection pipeline: a
//! pagination resolver that turns a continuation-link header or a total
//! item count into an amount of remote work, a bounded scheduler that
//! keeps the number of in-flight page fetches under a fixed ceiling, a
//! sub-collector that feeds per-item review and timeline records to the
//! persistence layer, and an idempotency-aware in-memory model of the
//! relational store. Network transport and the on-disk store live
//! outside the library and hand it plain values.

pub mod bytes;
pub mod collector;
pub mod errors;
pub mod link;
pub mod records;
pub mod resolver;
pub mod scheduler;
pub mod store;

pub use collector::{
    collect_all, collect_item, collect_subset, CollectionSummary, PageFetch, PullItem, SubsetItem,
    UnitFailure, plan_subset,
};
pub use errors::CollectError;
pub use link::last_page_from_link;
pub use records::{Association, PullState, RemoteEvent, RemotePull, RemoteReview, ReviewState};
pub use resolver::{is_valid_number, pages_for_count, resolve_total, ResolveInput, ResolvedTotal};
pub use scheduler::Scheduler;
pub use store::{PullRequest, PullRequestEvent, PullRequestReview, Repository, Store};

//! Remote records as plain values, and the canonical storage strings of
//! their enumerated fields.
//!
//! The remote API hands back rich typed records; the collection logic
//! reads only a few plain fields of each. These types hold exactly those
//! fields. Enumerated fields are stored under one fixed textual
//! representation per variant, used both when writing rows and in any
//! later comparison.

use vstd::prelude::*;

verus! {

/// State of a remote pull request.
#[derive(Clone, Copy, Debug, PartialEq, Eq, Structural)]
pub enum PullState {
    Open,
    Closed,
    Other,
}

impl PullState {
    /// Canonical storage string of the variant.
    pub open spec fn spec_label(self) -> Seq<char> {
        match self {
            PullState::Open => "Open"@,
            PullState::Closed => "Closed"@,
            PullState::Other => "Other"@,
        }
    }

    /// Canonical storage string of the variant.
    pub fn label(&self) -> (r: String)
        ensures
            r@ == self.spec_label(),
    {
        match self {
            PullState::Open => "Open".to_owned(),
            PullState::Closed => "Closed".to_owned(),
            PullState::Other => "Other".to_owned(),
        }
    }
}

/// State of a remote review.
#[derive(Clone, Copy, Debug, PartialEq, Eq, Structural)]
pub enum ReviewState {
    Approved,
    Pending,
    ChangesRequested,
    Commented,
    Dismissed,
    Other,
}

impl ReviewState {
    /// Canonical storage string of the variant.
    pub open spec fn spec_label(self) -> Seq<char> {
        match self {
            ReviewState::Approved => "Approved"@,
            ReviewState::Pending => "Pending"@,
            ReviewState::ChangesRequested => "ChangesRequested"@,
            ReviewState::Commented => "Commented"@,
            ReviewState::Dismissed => "Dismissed"@,
            ReviewState::Other => "Other"@,
        }
    }

    /// Canonical storage string of the variant.
    pub fn label(&self) -> (r: String)
        ensures
            r@ == self.spec_label(),
    {
        match self {
            ReviewState::Approved => "Approved".to_owned(),
            ReviewState::Pending => "Pending".to_owned(),
            ReviewState::ChangesRequested => "ChangesRequested".to_owned(),
            ReviewState::Commented => "Commented".to_owned(),
            ReviewState::Dismissed => "Dismissed".to_owned(),
            ReviewState::Other => "Other".to_owned(),
        }
    }
}

/// The remote platform's classification of an author's association with
/// the repository.
#[derive(Clone, Copy, Debug, PartialEq, Eq, Structural)]
pub enum Association {
    Collaborator,
    Contributor,
    FirstTimer,
    FirstTimeContributor,
    Mannequin,
    Member,
    NoAssociation,
    Owner,
    Other,
}

impl Association {
    /// Canonical storage string of the variant.
    pub open spec fn spec_label(self) -> Seq<char> {
        match self {
            Association::Collaborator => "Collaborator"@,
            Association::Contributor => "Contributor"@,
            Association::FirstTimer => "FirstTimer"@,
            Association::FirstTimeContributor => "FirstTimeContributor"@,
            Association::Mannequin => "Mannequin"@,
            Association::Member => "Member"@,
            Association::NoAssociation => "None"@,
            Association::Owner => "Owner"@,
            Association::Other => "Other"@,
        }
    }

    /// Canonical storage string of the variant.
    pub fn label(&self) -> (r: String)
        ensures
            r@ == self.spec_label(),
    {
        match self {
            Association::Collaborator => "Collaborator".to_owned(),
            Association::Contributor => "Contributor".to_owned(),
            Association::FirstTimer => "FirstTimer".to_owned(),
            Association::FirstTimeContributor => "FirstTimeContributor".to_owned(),
            Association::Mannequin => "Mannequin".to_owned(),
            Association::Member => "Member".to_owned(),
            Association::NoAssociation => "None".to_owned(),
            Association::Owner => "Owner".to_owned(),
            Association::Other => "Other".to_owned(),
        }
    }
}

/// A pull request as fetched from a listing page.
pub struct RemotePull {
    pub number: u32,
    pub title: Option<String>,
    pub state: Option<PullState>,
    pub created_at: Option<String>,
    pub updated_at: Option<String>,
    pub closed_at: Option<String>,
    pub merged_at: Option<String>,
    pub author: Option<String>,
    pub author_association: Option<Association>,
}

/// A review as fetched from an item's review list.
pub struct RemoteReview {
    pub reviewer: Option<String>,
    pub state: Option<ReviewState>,
    pub author_association: Option<Association>,
    pub submitted_at: Option<String>,
}

/// A timeline event as fetched from an item's event list. The remote
/// id, when present and small enough to be a local identifier, keys the
/// insert-or-ignore de-duplication.
pub struct RemoteEvent {
    pub id: Option<u64>,
    pub event_type: String,
    pub actor: Option<String>,
    pub author_association: Option<String>,
    pub created_at: Option<String>,
}

/// The view of an optional text field as stored: the text itself, or
/// the empty string when absent.
pub open spec fn spec_text_or_empty(o: Option<Seq<char>>) -> Seq<char> {
    match o {
        Option::Some(s) => s,
        Option::None => Seq::empty(),
    }
}

/// The view of an optional `String` field.
pub open spec fn spec_opt_view(o: Option<String>) -> Option<Seq<char>> {
    match o {
        Option::Some(s) => Option::Some(s@),
        Option::None => Option::None,
    }
}

/// The stored text of an optional field: its value, or empty when
/// absent.
pub fn text_or_empty(o: &Option<String>) -> (r: String)
    ensures
        r@ == spec_text_or_empty(spec_opt_view(*o)),
{
    match o {
        Option::Some(s) => s.clone(),
        Option::None => String::new(),
    }
}

/// The stored text of an optional pull state.
pub fn pull_state_or_empty(o: &Option<PullState>) -> (r: String)
    ensures
        r@ == (match *o {
            Option::Some(s) => s.spec_label(),
            Option::None => Seq::<char>::empty(),
        }),
{
    match o {
        Option::Some(s) => s.label(),
        Option::None => String::new(),
    }
}

/// The stored text of an optional review state.
pub fn review_state_or_empty(o: &Option<ReviewState>) -> (r: String)
    ensures
        r@ == (match *o {
            Option::Some(s) => s.spec_label(),
            Option::None => Seq::<char>::empty(),
        }),
{
    match o {
        Option::Some(s) => s.label(),
        Option::None => String::new(),
    }
}

/// The stored text of an optional author association.
pub fn association_or_empty(o: &Option<Association>) -> (r: String)
    ensures
        r@ == (match *o {
            Option::Some(a) => a.spec_label(),
            Option::None => Seq::<char>::empty(),
        }),
{
    match o {
        Option::Some(a) => a.label(),
        Option::None => String::new(),
    }
}

} // verus!

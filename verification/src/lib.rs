//! Mining of merge-bot commit history: a parser for bot-formatted commit-log
//! lines, an analyzer that builds author/approver indices over a history, and
//! a caching coordinator that memoizes analyses with time-based invalidation.

pub mod coordinator;
pub mod parse;
pub mod render;
pub mod repo;
pub mod strutil;

use vstd::prelude::*;

verus! {

/// Identifier of a repository: owner and repository name.
///
/// Two identities are equal iff both fields match exactly (case-sensitive).
#[derive(Debug)]
pub struct RepoId {
    pub user: String,
    pub repo: String,
}

/// Mathematical value of a [`RepoId`]: both fields as character sequences.
pub struct RepoIdView {
    pub user: Seq<char>,
    pub repo: Seq<char>,
}

impl View for RepoId {
    type V = RepoIdView;

    open spec fn view(&self) -> RepoIdView {
        RepoIdView { user: self.user@, repo: self.repo@ }
    }
}

impl Clone for RepoId {
    fn clone(&self) -> (r: Self)
        ensures
            r@ == self@,
    {
        RepoId { user: self.user.clone(), repo: self.repo.clone() }
    }
}

impl PartialEq for RepoId {
    fn eq(&self, other: &Self) -> (r: bool) {
        self.user == other.user && self.repo == other.repo
    }
}

impl vstd::std_specs::cmp::PartialEqSpecImpl for RepoId {
    open spec fn obeys_eq_spec() -> bool {
        true
    }

    open spec fn eq_spec(&self, other: &Self) -> bool {
        self@ == other@
    }
}

impl From<(String, String)> for RepoId {
    fn from(pair: (String, String)) -> (r: Self) {
        RepoId { user: pair.0, repo: pair.1 }
    }
}

impl vstd::std_specs::convert::FromSpecImpl<(String, String)> for RepoId {
    open spec fn obeys_from_spec() -> bool {
        true
    }

    open spec fn from_spec(pair: (String, String)) -> Self {
        RepoId { user: pair.0, repo: pair.1 }
    }
}

} // verus!

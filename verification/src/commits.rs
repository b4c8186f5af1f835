//! The rows that tie a commit to its author and to a release.

use crate::authors::{Author, AuthorId};
use vstd::prelude::*;
use vstd::string::*;

verus! {

/// The number of a release in the store.
pub type ReleaseId = i32;

/// A release of a project. Its version is free text: `master` is one.
#[derive(Debug)]
pub struct Release {
    pub id: ReleaseId,
    pub version: String,
    pub project_id: i32,
    pub visible: bool,
}

/// A commit that is to be stored.
#[derive(Debug)]
pub struct NewCommit {
    pub sha: String,
    pub release_id: ReleaseId,
    pub author_id: AuthorId,
}

/// A commit row as plain values.
pub ghost struct CommitRow {
    pub sha: Seq<char>,
    pub release_id: ReleaseId,
    pub author_id: AuthorId,
}

impl View for NewCommit {
    type V = CommitRow;

    open spec fn view(&self) -> CommitRow {
        CommitRow { sha: self.sha@, release_id: self.release_id, author_id: self.author_id }
    }
}

/// The row that assigns the commit `sha` to `author` and `release`.
pub fn new(sha: &str, author: &Author, release: &Release) -> (row: NewCommit)
    ensures
        row@ == (CommitRow { sha: sha@, release_id: release.id, author_id: author.id }),
{
    NewCommit { sha: sha.to_owned(), release_id: release.id, author_id: author.id }
}

} // verus!

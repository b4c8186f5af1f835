//! What the library expects of the store of commits, as a model on plain
//! values, and what follows from it for an assignment.
//!
//! The store holds at most one row for a commit id. It is asked two things
//! for a release: to point the rows of the given commits to the release, and
//! to insert rows where a commit has none, passing over the others.

use crate::authors::AuthorId;
use crate::commits::{CommitRow, ReleaseId};
use crate::releases::shas_of;
use vstd::prelude::*;

verus! {

/// What the store holds for one commit.
pub ghost struct StoredCommit {
    pub author_id: AuthorId,
    pub release_id: ReleaseId,
}

/// The rows of the store, by commit id.
pub type Commits = Map<Seq<char>, StoredCommit>;

/// The store after the rows of the commits `shas` were pointed to
/// `release_id`. No row comes or goes.
pub open spec fn after_update(store: Commits, shas: Seq<Seq<char>>, release_id: ReleaseId) -> Commits {
    Map::new(
        |sha: Seq<char>| store.contains_key(sha),
        |sha: Seq<char>|
            if shas.contains(sha) {
                StoredCommit { author_id: store[sha].author_id, release_id }
            } else {
                store[sha]
            },
    )
}

/// The number of rows that such an update touches, for commit ids that are
/// all different: one for each id that has a row.
pub open spec fn updated_count(store: Commits, shas: Seq<Seq<char>>) -> nat
    decreases shas.len(),
{
    if shas.len() == 0 {
        0
    } else {
        updated_count(store, shas.drop_last()) + if store.contains_key(shas.last()) {
            1nat
        } else {
            0nat
        }
    }
}

/// The store after `rows` were inserted in order, a row whose commit has one
/// already being passed over.
pub open spec fn after_insert(store: Commits, rows: Seq<CommitRow>) -> Commits
    decreases rows.len(),
{
    if rows.len() == 0 {
        store
    } else {
        let before = after_insert(store, rows.drop_last());
        let row = rows.last();
        if before.contains_key(row.sha) {
            before
        } else {
            before.insert(
                row.sha,
                StoredCommit { author_id: row.author_id, release_id: row.release_id },
            )
        }
    }
}

/// The number of rows that such an insert adds.
pub open spec fn inserted_count(store: Commits, rows: Seq<CommitRow>) -> nat
    decreases rows.len(),
{
    if rows.len() == 0 {
        0
    } else {
        inserted_count(store, rows.drop_last()) + if after_insert(
            store,
            rows.drop_last(),
        ).contains_key(rows.last().sha) {
            0nat
        } else {
            1nat
        }
    }
}

/// The store after an assignment of `rows` to `release_id`: the update first,
/// then the insert.
pub open spec fn after_assign(store: Commits, rows: Seq<CommitRow>, release_id: ReleaseId) -> Commits {
    after_insert(after_update(store, shas_of(rows), release_id), rows)
}

/// Whether every row is one of the release `release_id`.
pub open spec fn rows_for(rows: Seq<CommitRow>, release_id: ReleaseId) -> bool {
    forall|i: int| 0 <= i < rows.len() ==> (#[trigger] rows[i]).release_id == release_id
}

/// After an insert the store holds exactly the commits it held before and
/// those of the rows; a row it held before is as it was.
pub proof fn lemma_after_insert(store: Commits, rows: Seq<CommitRow>, sha: Seq<char>)
    ensures
        after_insert(store, rows).contains_key(sha) <==> store.contains_key(sha) || shas_of(
            rows,
        ).contains(sha),
        store.contains_key(sha) ==> after_insert(store, rows)[sha] == store[sha],
    decreases rows.len(),
{
    if rows.len() > 0 {
        let front = rows.drop_last();
        lemma_after_insert(store, front, sha);
        assert(shas_of(front) =~= shas_of(rows).drop_last());
        if shas_of(rows).contains(sha) {
            let i = choose|i: int| 0 <= i < shas_of(rows).len() && shas_of(rows)[i] == sha;
            if i < front.len() {
                assert(shas_of(front)[i] == sha);
            }
        }
        if shas_of(front).contains(sha) {
            let i = choose|i: int| 0 <= i < shas_of(front).len() && shas_of(front)[i] == sha;
            assert(shas_of(rows)[i] == sha);
        }
        if rows.last().sha == sha {
            assert(shas_of(rows)[rows.len() - 1] == sha);
        }
    }
}

/// The completeness of an assignment: where the commit ids of the rows are
/// all different, and the insert meets a store that holds the same commits as
/// the update did, the two counts add up to the number of rows.
pub proof fn lemma_counts_add_up(store: Commits, updated: Commits, rows: Seq<CommitRow>)
    requires
        shas_of(rows).no_duplicates(),
        forall|sha: Seq<char>| store.contains_key(sha) <==> updated.contains_key(sha),
    ensures
        updated_count(store, shas_of(rows)) + inserted_count(updated, rows) == rows.len(),
    decreases rows.len(),
{
    if rows.len() > 0 {
        let front = rows.drop_last();
        let last = rows.last().sha;
        assert(shas_of(front) =~= shas_of(rows).drop_last());
        assert(shas_of(rows).last() == last);
        lemma_counts_add_up(store, updated, front);
        lemma_after_insert(updated, front, last);
        if shas_of(front).contains(last) {
            let i = choose|i: int| 0 <= i < shas_of(front).len() && shas_of(front)[i] == last;
            assert(shas_of(rows)[i] == shas_of(rows)[rows.len() - 1]);
        }
    }
}

/// An assignment is complete: the rows that the update touches and the rows
/// that the insert adds are together as many as the commits handed in.
pub proof fn lemma_assignment_complete(store: Commits, rows: Seq<CommitRow>, release_id: ReleaseId)
    requires
        shas_of(rows).no_duplicates(),
    ensures
        updated_count(store, shas_of(rows)) + inserted_count(
            after_update(store, shas_of(rows), release_id),
            rows,
        ) == rows.len(),
{
    lemma_counts_add_up(store, after_update(store, shas_of(rows), release_id), rows);
}

/// Where the store holds all the commits of the rows, an update touches every
/// one of them and an insert adds none.
pub proof fn lemma_all_held(store: Commits, rows: Seq<CommitRow>)
    requires
        forall|i: int| 0 <= i < rows.len() ==> store.contains_key(#[trigger] shas_of(rows)[i]),
    ensures
        updated_count(store, shas_of(rows)) == rows.len(),
        inserted_count(store, rows) == 0,
        after_insert(store, rows) == store,
    decreases rows.len(),
{
    if rows.len() > 0 {
        let front = rows.drop_last();
        assert(shas_of(front) =~= shas_of(rows).drop_last());
        assert forall|i: int| 0 <= i < front.len() implies store.contains_key(
            #[trigger] shas_of(front)[i],
        ) by {
            assert(shas_of(front)[i] == shas_of(rows)[i]);
        }
        lemma_all_held(store, front);
        assert(shas_of(rows)[rows.len() - 1] == rows.last().sha);
    }
}

/// Assigning the same commits to the same release once more changes nothing
/// and is complete again: the update touches every commit, and the insert
/// adds none.
pub proof fn lemma_assign_again(store: Commits, rows: Seq<CommitRow>, release_id: ReleaseId)
    requires
        shas_of(rows).no_duplicates(),
    ensures
        ({
            let first = after_assign(store, rows, release_id);
            let updated = after_update(first, shas_of(rows), release_id);
            &&& updated_count(first, shas_of(rows)) == rows.len()
            &&& inserted_count(updated, rows) == 0
            &&& updated_count(first, shas_of(rows)) + inserted_count(updated, rows) == rows.len()
            &&& after_insert(updated, rows) == updated
        }),
{
    let first = after_assign(store, rows, release_id);
    let updated = after_update(first, shas_of(rows), release_id);
    assert forall|i: int| 0 <= i < rows.len() implies first.contains_key(
        #[trigger] shas_of(rows)[i],
    ) && updated.contains_key(shas_of(rows)[i]) by {
        lemma_after_insert(
            after_update(store, shas_of(rows), release_id),
            rows,
            shas_of(rows)[i],
        );
    }
    lemma_all_held(first, rows);
    lemma_all_held(updated, rows);
}

/// After an assignment every commit of the batch points to the release.
pub proof fn lemma_assigned_to_release(
    store: Commits,
    rows: Seq<CommitRow>,
    release_id: ReleaseId,
    i: int,
)
    requires
        rows_for(rows, release_id),
        0 <= i < rows.len(),
    ensures
        after_assign(store, rows, release_id).contains_key(rows[i].sha),
        after_assign(store, rows, release_id)[rows[i].sha].release_id == release_id,
{
    let updated = after_update(store, shas_of(rows), release_id);
    let sha = rows[i].sha;
    assert(shas_of(rows)[i] == sha);
    lemma_after_insert(updated, rows, sha);
    if !updated.contains_key(sha) {
        lemma_inserted_rows_point(updated, rows, release_id, sha);
    }
}

/// A commit that the insert added points to the release of the rows.
proof fn lemma_inserted_rows_point(
    store: Commits,
    rows: Seq<CommitRow>,
    release_id: ReleaseId,
    sha: Seq<char>,
)
    requires
        rows_for(rows, release_id),
        !store.contains_key(sha),
        after_insert(store, rows).contains_key(sha),
    ensures
        after_insert(store, rows)[sha].release_id == release_id,
    decreases rows.len(),
{
    if rows.len() > 0 {
        let front = rows.drop_last();
        assert forall|i: int| 0 <= i < front.len() implies (#[trigger] front[i]).release_id
            == release_id by {
            assert(front[i] == rows[i]);
        }
        if after_insert(store, front).contains_key(sha) {
            lemma_inserted_rows_point(store, front, release_id, sha);
        } else {
            assert(rows.last() == rows[rows.len() - 1]);
        }
    }
}

} // verus!

//! Assigning the commits of a release: from the identities recorded in the
//! commits to the rows that the store is asked to hold, and the check that
//! the store took every one of them.

use crate::authors::{AuthorId, AuthorView, Identity, IdentityCache, NewAuthor};
use crate::commits::{CommitRow, NewCommit, ReleaseId};
use crate::mailmap::{canonical, remembered, Mailmap, Rules};
use crate::text::strings_view;
use vstd::prelude::*;
use vstd::string::*;

verus! {

/// What a commit records: its id and the name and email of its author.
#[derive(Debug)]
pub struct CommitFact {
    pub sha: String,
    pub name: String,
    pub email: String,
}

/// A commit fact as plain values.
pub ghost struct FactView {
    pub sha: Seq<char>,
    pub name: Seq<char>,
    pub email: Seq<char>,
}

impl View for CommitFact {
    type V = FactView;

    open spec fn view(&self) -> FactView {
        FactView { sha: self.sha@, name: self.name@, email: self.email@ }
    }
}

/// A list of commit facts as plain values.
pub open spec fn facts_view(facts: Seq<CommitFact>) -> Seq<FactView> {
    Seq::new(facts.len(), |i: int| facts[i]@)
}

/// Why an assignment was given up.
#[derive(Clone, Copy, Debug, PartialEq, Eq, Structural)]
pub enum AssignmentError {
    /// The commit at `index` has an author that the cache does not hold.
    UnknownAuthor { index: usize },
    /// The store updated and inserted another number of rows than it was
    /// handed.
    Incomplete { expected: usize, updated: usize, inserted: usize },
}

/// The alias map after the identities of `facts` were looked up in order.
pub open spec fn rules_after_lookups(rules: Rules, facts: Seq<FactView>) -> Rules
    decreases facts.len(),
{
    if facts.len() == 0 {
        rules
    } else {
        remembered(
            rules_after_lookups(rules, facts.drop_last()),
            facts.last().name,
            facts.last().email,
        )
    }
}

/// The facts with each identity in its canonical form, looked up in order.
pub open spec fn canonical_facts(rules: Rules, facts: Seq<FactView>) -> Seq<FactView>
    decreases facts.len(),
{
    if facts.len() == 0 {
        Seq::empty()
    } else {
        let last = facts.last();
        let identity = canonical(
            rules_after_lookups(rules, facts.drop_last()),
            last.name,
            last.email,
        );
        canonical_facts(rules, facts.drop_last()).push(
            FactView { sha: last.sha, name: identity.0, email: identity.1 },
        )
    }
}

/// Gives every commit of a batch its canonical author identity.
pub fn canonicalize_all(mailmap: &mut Mailmap, facts: &Vec<CommitFact>) -> (out: Vec<CommitFact>)
    ensures
        facts_view(out@) == canonical_facts(old(mailmap)@, facts_view(facts@)),
        final(mailmap)@ == rules_after_lookups(old(mailmap)@, facts_view(facts@)),
{
    let ghost all = facts_view(facts@);
    let mut out: Vec<CommitFact> = Vec::new();
    let mut i: usize = 0;
    assert(all.take(0) =~= Seq::<FactView>::empty());
    assert(facts_view(out@) =~= Seq::<FactView>::empty());
    while i < facts.len()
        invariant
            i <= facts@.len(),
            all == facts_view(facts@),
            facts_view(out@) == canonical_facts(old(mailmap)@, all.take(i as int)),
            mailmap@ == rules_after_lookups(old(mailmap)@, all.take(i as int)),
        decreases facts@.len() - i,
    {
        let fact = &facts[i];
        proof {
            let read = all.take(i + 1);
            assert(read.drop_last() =~= all.take(i as int));
            assert(read.last() == fact@);
        }
        let identity = mailmap.map(fact.name.as_str(), fact.email.as_str());
        let ghost before = facts_view(out@);
        let mapped = CommitFact { sha: fact.sha.clone(), name: identity.0, email: identity.1 };
        out.push(mapped);
        assert(facts_view(out@) =~= before.push(mapped@));
        i = i + 1;
    }
    assert(all.take(i as int) =~= all);
    out
}

/// The identity of each fact, in order.
pub open spec fn fact_identities(facts: Seq<FactView>) -> Seq<Identity> {
    Seq::new(facts.len(), |i: int| (facts[i].name, facts[i].email))
}

/// The candidates for which the authors of a batch are looked up: one for
/// each commit, in order.
pub fn candidates(facts: &Vec<CommitFact>) -> (out: Vec<NewAuthor>)
    ensures
        crate::authors::identities(out@) == fact_identities(facts_view(facts@)),
{
    let mut out: Vec<NewAuthor> = Vec::new();
    let mut i: usize = 0;
    while i < facts.len()
        invariant
            i <= facts@.len(),
            out@.len() == i,
            forall|j: int| 0 <= j < i ==> out@[j]@ == (facts@[j].name@, facts@[j].email@),
        decreases facts@.len() - i,
    {
        out.push(NewAuthor { name: facts[i].name.clone(), email: facts[i].email.clone() });
        i = i + 1;
    }
    assert(crate::authors::identities(out@) =~= fact_identities(facts_view(facts@)));
    out
}

/// Whether `known` holds an author for the first `n` facts.
pub open spec fn all_known(known: Map<Identity, AuthorView>, facts: Seq<FactView>, n: int) -> bool {
    forall|j: int| 0 <= j < n ==> known.contains_key(#[trigger] fact_identities(facts)[j])
}

/// Pairs the id of each commit with the id of its author. The cache must hold
/// every author: a commit whose author it does not hold ends the work, and
/// the first such commit is reported.
pub fn authors_by_sha(cache: &IdentityCache, git_log: &Vec<CommitFact>) -> (result: Result<
    Vec<(String, AuthorId)>,
    AssignmentError,
>)
    ensures
        match result {
            Ok(pairs) => {
                &&& all_known(cache@, facts_view(git_log@), git_log@.len() as int)
                &&& pairs@.len() == git_log@.len()
                &&& forall|j: int|
                    0 <= j < pairs@.len() ==> (#[trigger] pairs@[j]).0@ == git_log@[j].sha@
                        && pairs@[j].1 == cache@[(git_log@[j].name@, git_log@[j].email@)].id
            },
            Err(e) => exists|index: usize|
                {
                    &&& e == (AssignmentError::UnknownAuthor { index })
                    &&& index < git_log@.len()
                    &&& all_known(cache@, facts_view(git_log@), index as int)
                    &&& !cache@.contains_key((git_log@[index as int].name@, git_log@[index as int].email@))
                },
        },
{
    let mut pairs: Vec<(String, AuthorId)> = Vec::new();
    let mut i: usize = 0;
    while i < git_log.len()
        invariant
            i <= git_log@.len(),
            pairs@.len() == i,
            all_known(cache@, facts_view(git_log@), i as int),
            forall|j: int|
                0 <= j < i ==> (#[trigger] pairs@[j]).0@ == git_log@[j].sha@ && pairs@[j].1
                    == cache@[(git_log@[j].name@, git_log@[j].email@)].id,
        decreases git_log@.len() - i,
    {
        let fact = &git_log[i];
        match cache.get(&fact.name, &fact.email) {
            Some(author) => {
                pairs.push((fact.sha.clone(), author.id));
            },
            None => {
                return Err(AssignmentError::UnknownAuthor { index: i });
            },
        }
        i = i + 1;
    }
    Ok(pairs)
}

/// The rows of a release: one for each pair, in order.
pub open spec fn rows_of(pairs: Seq<(String, AuthorId)>, release_id: ReleaseId) -> Seq<CommitRow> {
    Seq::new(
        pairs.len(),
        |i: int| CommitRow { sha: pairs[i].0@, release_id, author_id: pairs[i].1 },
    )
}

/// A list of rows as plain values.
pub open spec fn rows_view(rows: Seq<NewCommit>) -> Seq<CommitRow> {
    Seq::new(rows.len(), |i: int| rows[i]@)
}

/// The ids of the commits of a list of rows.
pub open spec fn shas_of(rows: Seq<CommitRow>) -> Seq<Seq<char>> {
    Seq::new(rows.len(), |i: int| rows[i].sha)
}

/// Builds what the store is handed for a release: the ids of the commits,
/// whose rows are to point to the release, and the rows to insert where a
/// commit has none yet.
pub fn new_commits(by_sha: &Vec<(String, AuthorId)>, release_id: ReleaseId) -> (out: (
    Vec<String>,
    Vec<NewCommit>,
))
    ensures
        rows_view(out.1@) == rows_of(by_sha@, release_id),
        strings_view(out.0@) == shas_of(rows_of(by_sha@, release_id)),
{
    let mut shas: Vec<String> = Vec::new();
    let mut rows: Vec<NewCommit> = Vec::new();
    let mut i: usize = 0;
    while i < by_sha.len()
        invariant
            i <= by_sha@.len(),
            shas@.len() == i,
            rows@.len() == i,
            forall|j: int| 0 <= j < i ==> (#[trigger] shas@[j])@ == by_sha@[j].0@,
            forall|j: int|
                0 <= j < i ==> (#[trigger] rows@[j])@ == (CommitRow {
                    sha: by_sha@[j].0@,
                    release_id,
                    author_id: by_sha@[j].1,
                }),
        decreases by_sha@.len() - i,
    {
        shas.push(by_sha[i].0.clone());
        rows.push(NewCommit { sha: by_sha[i].0.clone(), release_id, author_id: by_sha[i].1 });
        i = i + 1;
    }
    assert(rows_view(rows@) =~= rows_of(by_sha@, release_id));
    assert(strings_view(shas@) =~= shas_of(rows_of(by_sha@, release_id)));
    (shas, rows)
}

/// Holds the store's two counts against the number of rows it was handed:
/// every commit must have been either updated or inserted.
pub fn check_complete(updated: usize, inserted: usize, expected: usize) -> (result: Result<
    (),
    AssignmentError,
>)
    ensures
        result is Ok <==> updated + inserted == expected,
        result is Err ==> result == Err::<(), AssignmentError>(
            AssignmentError::Incomplete { expected, updated, inserted },
        ),
{
    if inserted <= expected && updated == expected - inserted {
        Ok(())
    } else {
        Err(AssignmentError::Incomplete { expected, updated, inserted })
    }
}

/// The row that an assignment to `release_id` holds for a canonical fact,
/// given the authors that are known.
pub open spec fn row_of(known: Map<Identity, AuthorView>, fact: FactView, release_id: ReleaseId) -> CommitRow {
    CommitRow { sha: fact.sha, release_id, author_id: known[(fact.name, fact.email)].id }
}

/// What the store is asked to do for a release.
#[derive(Debug)]
pub struct Assignment {
    /// The commits whose rows are to point to the release.
    pub shas: Vec<String>,
    /// The rows to insert where a commit has none.
    pub rows: Vec<NewCommit>,
}

/// Decides what the store is asked for a release, from the commits with their
/// canonical identities and the authors that the cache holds. A release
/// without commits asks nothing. Else every commit gets one row, in order,
/// with the id of its author; a commit whose author the cache does not hold
/// ends the work, and the first such commit is reported.
pub fn assign_commits(
    cache: &IdentityCache,
    release_id: ReleaseId,
    parsed_commits: &Vec<CommitFact>,
) -> (result: Result<Option<Assignment>, AssignmentError>)
    ensures
        match result {
            Ok(None) => parsed_commits@.len() == 0,
            Ok(Some(asked)) => {
                &&& parsed_commits@.len() > 0
                &&& all_known(cache@, facts_view(parsed_commits@), parsed_commits@.len() as int)
                &&& rows_view(asked.rows@) == Seq::new(
                    parsed_commits@.len(),
                    |i: int| row_of(cache@, parsed_commits@[i]@, release_id),
                )
                &&& strings_view(asked.shas@) == shas_of(rows_view(asked.rows@))
            },
            Err(e) => exists|index: usize|
                {
                    &&& e == (AssignmentError::UnknownAuthor { index })
                    &&& index < parsed_commits@.len()
                    &&& all_known(cache@, facts_view(parsed_commits@), index as int)
                    &&& !cache@.contains_key(
                        (parsed_commits@[index as int].name@, parsed_commits@[index as int].email@),
                    )
                },
        },
{
    if parsed_commits.len() == 0 {
        return Ok(None);
    }
    match authors_by_sha(cache, parsed_commits) {
        Ok(by_sha) => {
            let (shas, rows) = new_commits(&by_sha, release_id);
            assert(rows_view(rows@) =~= Seq::new(
                parsed_commits@.len(),
                |i: int| row_of(cache@, parsed_commits@[i]@, release_id),
            ));
            Ok(Some(Assignment { shas, rows }))
        },
        Err(e) => Err(e),
    }
}

/// Which walks of the history give the commits of a release.
#[derive(Debug)]
pub enum RangePlan {
    /// The first release of a project: everything that its marker reaches.
    Everything { from: String },
    /// A later release: the two one-sided ranges between the markers.
    Between { forward: String, backward: String },
    /// Both markers are the same: there is nothing between them.
    Nothing,
}

/// A plan as plain values.
pub ghost enum RangePlanView {
    Everything { from: Seq<char> },
    Between { forward: Seq<char>, backward: Seq<char> },
    Nothing,
}

impl View for RangePlan {
    type V = RangePlanView;

    open spec fn view(&self) -> RangePlanView {
        match *self {
            RangePlan::Everything { from } => RangePlanView::Everything { from: from@ },
            RangePlan::Between { forward, backward } => RangePlanView::Between {
                forward: forward@,
                backward: backward@,
            },
            RangePlan::Nothing => RangePlanView::Nothing,
        }
    }
}

/// The range `from..to`: what `to` reaches and `from` does not.
pub open spec fn range_text(from: Seq<char>, to: Seq<char>) -> Seq<char> {
    from + ".."@ + to
}

/// The marker of an optional previous release.
pub open spec fn marker_of(previous: Option<&str>) -> Option<Seq<char>> {
    match previous {
        Some(p) => Some(p@),
        None => None,
    }
}

/// The walks for the release at `release` that follows the one at `previous`.
/// The history offers no range of what either marker reaches alone, so the
/// two one-sided ranges stand for it.
pub open spec fn plan_of(release: Seq<char>, previous: Option<Seq<char>>) -> RangePlanView {
    match previous {
        None => RangePlanView::Everything { from: release },
        Some(p) => if p == release {
            RangePlanView::Nothing
        } else {
            RangePlanView::Between {
                forward: range_text(p, release),
                backward: range_text(release, p),
            }
        },
    }
}

/// Writes the range `from..to`.
pub fn range(from: &str, to: &str) -> (text: String)
    ensures
        text@ == range_text(from@, to@),
{
    let mut text = from.to_owned();
    text.append("..");
    text.append(to);
    text
}

/// Decides which walks give the commits of a release.
pub fn plan_ranges(release_name: &str, previous_release: Option<&str>) -> (plan: RangePlan)
    ensures
        plan@ == plan_of(release_name@, marker_of(previous_release)),
{
    match previous_release {
        None => RangePlan::Everything { from: release_name.to_owned() },
        Some(previous) => {
            if previous.to_owned() == release_name.to_owned() {
                RangePlan::Nothing
            } else {
                RangePlan::Between {
                    forward: range(previous, release_name),
                    backward: range(release_name, previous),
                }
            }
        },
    }
}

/// The commits of a later release: those of the forward range, then those of
/// the backward range. Nothing is dropped or added.
pub fn get_commits(forward: Vec<String>, backward: Vec<String>) -> (commits: Vec<String>)
    ensures
        commits@ == forward@ + backward@,
{
    let mut commits = forward;
    let mut rest = backward;
    commits.append(&mut rest);
    commits
}

/// It does not matter which of two markers is called the previous one: the
/// plans name the same two ranges, forward and backward exchanged, and the
/// walks joined in either order hold the same commits.
pub proof fn lemma_markers_exchange(
    a: Seq<char>,
    b: Seq<char>,
    from_a_to_b: Seq<String>,
    from_b_to_a: Seq<String>,
)
    ensures
        plan_of(a, Some(b)) is Nothing <==> plan_of(b, Some(a)) is Nothing,
        plan_of(a, Some(b)) matches RangePlanView::Between { forward, backward } ==> plan_of(
            b,
            Some(a),
        ) == (RangePlanView::Between { forward: backward, backward: forward }),
        (from_a_to_b + from_b_to_a).to_set() == (from_b_to_a + from_a_to_b).to_set(),
        (from_a_to_b + from_b_to_a).to_multiset() == (from_b_to_a + from_a_to_b).to_multiset(),
{
    let x = from_a_to_b + from_b_to_a;
    let y = from_b_to_a + from_a_to_b;
    assert forall|c: String| x.contains(c) <==> y.contains(c) by {
        if x.contains(c) {
            let i = choose|i: int| 0 <= i < x.len() && x[i] == c;
            if i < from_a_to_b.len() {
                assert(y[from_b_to_a.len() + i] == c);
            } else {
                assert(y[i - from_a_to_b.len()] == c);
            }
        }
        if y.contains(c) {
            let i = choose|i: int| 0 <= i < y.len() && y[i] == c;
            if i < from_b_to_a.len() {
                assert(x[from_a_to_b.len() + i] == c);
            } else {
                assert(x[i - from_b_to_a.len()] == c);
            }
        }
    }
    assert(x.to_set() =~= y.to_set());
    vstd::seq_lib::lemma_multiset_commutative(from_a_to_b, from_b_to_a);
    vstd::seq_lib::lemma_multiset_commutative(from_b_to_a, from_a_to_b);
    assert(x.to_multiset() =~= y.to_multiset()) by {
        assert(from_a_to_b.to_multiset().add(from_b_to_a.to_multiset()) =~= from_b_to_a.to_multiset().add(
            from_a_to_b.to_multiset(),
        ));
    }
}

} // verus!

//! The ranking of authors by the number of their commits.

use vstd::prelude::*;
use vstd::string::*;

verus! {

/// One line of the ranking.
#[derive(Debug)]
pub struct Score {
    pub rank: u64,
    pub author: String,
    pub commits: i64,
}

/// The rank of the entry at `i` in a list of commit counts: its place in the
/// list, counted from one, unless its count is that of the entry before, whose
/// rank it then shares. The list is read against a count of zero before its
/// first entry, so a first entry without commits has the rank zero.
pub open spec fn rank_at(counts: Seq<i64>, i: int) -> int
    decreases i,
{
    if i <= 0 {
        if counts[0] != 0 {
            1
        } else {
            0
        }
    } else if counts[i] != counts[i - 1] {
        i + 1
    } else {
        rank_at(counts, i - 1)
    }
}

/// The commit counts of a counted list.
pub open spec fn counts_of(counted: Seq<(String, i64)>) -> Seq<i64> {
    Seq::new(counted.len(), |i: int| counted[i].1)
}

/// Ranks authors that come ordered by their commit counts: every entry moves
/// the place on by one, and entries with one count in a row share the rank of
/// the first of them.
pub fn scores(counted: &Vec<(String, i64)>) -> (ranking: Vec<Score>)
    ensures
        ranking@.len() == counted@.len(),
        forall|i: int|
            0 <= i < ranking@.len() ==> {
                &&& (#[trigger] ranking@[i]).rank == rank_at(counts_of(counted@), i)
                &&& ranking@[i].author@ == counted@[i].0@
                &&& ranking@[i].commits == counted@[i].1
            },
{
    let mut ranking: Vec<Score> = Vec::new();
    let mut last_rank: u64 = 0;
    let mut last_score: i64 = 0;
    let mut i: usize = 0;
    while i < counted.len()
        invariant
            i <= counted@.len(),
            ranking@.len() == i,
            i > 0 ==> last_score == counted@[i - 1].1 && last_rank == rank_at(
                counts_of(counted@),
                i - 1,
            ),
            i == 0 ==> last_score == 0 && last_rank == 0,
            forall|j: int|
                0 <= j < i ==> {
                    &&& (#[trigger] ranking@[j]).rank == rank_at(counts_of(counted@), j)
                    &&& ranking@[j].author@ == counted@[j].0@
                    &&& ranking@[j].commits == counted@[j].1
                },
        decreases counted@.len() - i,
    {
        let score: i64 = counted[i].1;
        if last_score != score {
            last_rank = (i as u64) + 1;
            last_score = score;
        }
        ranking.push(Score { rank: last_rank, author: counted[i].0.clone(), commits: score });
        i = i + 1;
    }
    ranking
}

/// Entries that are tied share the rank of the first of them.
pub proof fn lemma_tied_share_rank(counts: Seq<i64>, first: int, i: int)
    requires
        0 <= first <= i < counts.len(),
        forall|k: int| first < k <= i ==> #[trigger] counts[k] == counts[k - 1],
    ensures
        rank_at(counts, i) == rank_at(counts, first),
    decreases i - first,
{
    if first < i {
        lemma_tied_share_rank(counts, first, i - 1);
    }
}

/// An entry whose count differs from the one before it has its own place as
/// its rank.
pub proof fn lemma_new_count_new_rank(counts: Seq<i64>, i: int)
    requires
        0 < i < counts.len(),
        counts[i] != counts[i - 1],
    ensures
        rank_at(counts, i) == i + 1,
{
}

} // verus!

use std::collections::HashMap;
use thanks::authors::{Author, IdentityCache};
use thanks::commits::{new, NewCommit, Release};
use thanks::mailmap::Mailmap;
use thanks::releases::{
    assign_commits, authors_by_sha, candidates, canonicalize_all, check_complete, get_commits,
    new_commits, plan_ranges, range, AssignmentError, CommitFact, RangePlan,
};
use thanks::scores::scores;

fn fact(sha: &str, name: &str, email: &str) -> CommitFact {
    CommitFact { sha: sha.to_owned(), name: name.to_owned(), email: email.to_owned() }
}

fn author(id: i32, name: &str, email: &str) -> Author {
    Author { id, name: name.to_owned(), email: email.to_owned(), visible: true }
}

fn triple(f: &CommitFact) -> (String, String, String) {
    (f.sha.clone(), f.name.clone(), f.email.clone())
}

#[test]
fn batch_is_canonicalized_in_order() {
    let mut map = Mailmap::new(
        "Other Name <othername@example.com>\nJohn Doe <johndoe@example.com> That Guy <thatguy@example.com>",
    );
    let raw = vec![
        fact("s1", "Wrong name", "othername@example.com"),
        fact("s2", "That Guy", "thatguy@example.com"),
        fact("s3", "Not Here", "nothere@gmail.com"),
        fact("s4", "Other Guy", "thatguy@example.com"),
    ];
    let out = canonicalize_all(&mut map, &raw);
    let got: Vec<(String, String, String)> = out.iter().map(triple).collect();
    assert_eq!(
        got,
        vec![
            ("s1".to_owned(), "Other Name".to_owned(), "othername@example.com".to_owned()),
            ("s2".to_owned(), "John Doe".to_owned(), "johndoe@example.com".to_owned()),
            ("s3".to_owned(), "Not Here".to_owned(), "nothere@gmail.com".to_owned()),
            ("s4".to_owned(), "Other Guy".to_owned(), "thatguy@example.com".to_owned()),
        ]
    );
    assert!(canonicalize_all(&mut map, &Vec::new()).is_empty());
}

#[test]
fn one_candidate_for_each_commit() {
    let facts = vec![fact("s1", "A", "a@example.com"), fact("s2", "A", "a@example.com")];
    let got: Vec<(String, String)> =
        candidates(&facts).iter().map(|c| (c.name.clone(), c.email.clone())).collect();
    assert_eq!(
        got,
        vec![
            ("A".to_owned(), "a@example.com".to_owned()),
            ("A".to_owned(), "a@example.com".to_owned())
        ]
    );
}

#[test]
fn commits_are_paired_with_author_ids() {
    let mut cache = IdentityCache::new();
    cache.remember(author(1, "A", "a@example.com"));
    cache.remember(author(2, "B", "b@example.com"));
    let log = vec![
        fact("s1", "B", "b@example.com"),
        fact("s2", "A", "a@example.com"),
        fact("s3", "B", "b@example.com"),
    ];
    assert_eq!(
        authors_by_sha(&cache, &log),
        Ok(vec![("s1".to_owned(), 2), ("s2".to_owned(), 1), ("s3".to_owned(), 2)])
    );
}

#[test]
fn unknown_author_is_a_typed_failure() {
    let mut cache = IdentityCache::new();
    cache.remember(author(1, "A", "a@example.com"));
    let log = vec![
        fact("s1", "A", "a@example.com"),
        fact("s2", "A", "other@example.com"),
        fact("s3", "Z", "z@example.com"),
    ];
    assert_eq!(authors_by_sha(&cache, &log), Err(AssignmentError::UnknownAuthor { index: 1 }));
    assert_eq!(
        assign_commits(&cache, 3, &log).err(),
        Some(AssignmentError::UnknownAuthor { index: 1 })
    );
}

fn rows_as_tuples(rows: &Vec<NewCommit>) -> Vec<(String, i32, i32)> {
    rows.iter().map(|r| (r.sha.clone(), r.release_id, r.author_id)).collect()
}

#[test]
fn rows_point_to_the_release() {
    let (shas, rows) = new_commits(&vec![("s1".to_owned(), 4), ("s2".to_owned(), 9)], 12);
    assert_eq!(shas, vec!["s1".to_owned(), "s2".to_owned()]);
    assert_eq!(rows_as_tuples(&rows), vec![("s1".to_owned(), 12, 4), ("s2".to_owned(), 12, 9)]);
    let release = Release { id: 3, version: "1.0.0".to_owned(), project_id: 1, visible: true };
    let row = new("abc", &author(8, "A", "a@example.com"), &release);
    assert_eq!((row.sha, row.release_id, row.author_id), ("abc".to_owned(), 3, 8));
}

#[test]
fn empty_batch_asks_nothing() {
    let cache = IdentityCache::new();
    assert!(matches!(assign_commits(&cache, 1, &Vec::new()), Ok(None)));
}

#[test]
fn assignment_holds_one_row_for_each_commit() {
    let mut cache = IdentityCache::new();
    cache.remember(author(1, "A", "a@example.com"));
    let log = vec![fact("s1", "A", "a@example.com"), fact("s2", "A", "a@example.com")];
    let asked = assign_commits(&cache, 5, &log).unwrap().unwrap();
    assert_eq!(asked.shas, vec!["s1".to_owned(), "s2".to_owned()]);
    assert_eq!(rows_as_tuples(&asked.rows), vec![("s1".to_owned(), 5, 1), ("s2".to_owned(), 5, 1)]);
}

#[test]
fn counts_must_add_up() {
    assert_eq!(check_complete(2, 3, 5), Ok(()));
    assert_eq!(check_complete(0, 0, 0), Ok(()));
    assert_eq!(check_complete(5, 0, 5), Ok(()));
    assert_eq!(
        check_complete(2, 2, 5),
        Err(AssignmentError::Incomplete { expected: 5, updated: 2, inserted: 2 })
    );
    assert_eq!(
        check_complete(3, 3, 5),
        Err(AssignmentError::Incomplete { expected: 5, updated: 3, inserted: 3 })
    );
    assert_eq!(
        check_complete(usize::MAX, 2, 1),
        Err(AssignmentError::Incomplete { expected: 1, updated: usize::MAX, inserted: 2 })
    );
    assert_eq!(
        check_complete(1, 7, 5),
        Err(AssignmentError::Incomplete { expected: 5, updated: 1, inserted: 7 })
    );
}

fn run_against(store: &mut HashMap<String, (i32, i32)>, shas: &Vec<String>, rows: &Vec<NewCommit>, release: i32) -> (usize, usize) {
    let mut updated = 0;
    for sha in shas.iter() {
        if let Some(row) = store.get_mut(sha) {
            row.1 = release;
            updated += 1;
        }
    }
    let mut inserted = 0;
    for row in rows.iter() {
        if !store.contains_key(&row.sha) {
            store.insert(row.sha.clone(), (row.author_id, row.release_id));
            inserted += 1;
        }
    }
    (updated, inserted)
}

#[test]
fn second_assignment_inserts_nothing() {
    let mut cache = IdentityCache::new();
    cache.remember(author(1, "A", "a@example.com"));
    let log = vec![
        fact("s1", "A", "a@example.com"),
        fact("s2", "A", "a@example.com"),
        fact("s3", "A", "a@example.com"),
    ];
    let mut store: HashMap<String, (i32, i32)> = HashMap::new();
    store.insert("s2".to_owned(), (1, 1));
    let asked = assign_commits(&cache, 2, &log).unwrap().unwrap();
    let (updated, inserted) = run_against(&mut store, &asked.shas, &asked.rows, 2);
    assert_eq!((updated, inserted), (1, 2));
    assert_eq!(check_complete(updated, inserted, asked.rows.len()), Ok(()));
    let again = assign_commits(&cache, 2, &log).unwrap().unwrap();
    let (updated, inserted) = run_against(&mut store, &again.shas, &again.rows, 2);
    assert_eq!((updated, inserted), (3, 0));
    assert_eq!(check_complete(updated, inserted, again.rows.len()), Ok(()));
    assert_eq!(store.get("s2"), Some(&(1, 2)));
}

#[test]
fn ranges_of_a_later_release() {
    assert_eq!(range("0.1", "0.2"), "0.1..0.2");
    assert_eq!(range("", ""), "..");
    match plan_ranges("0.2", Some("0.1")) {
        RangePlan::Between { forward, backward } => {
            assert_eq!(forward, "0.1..0.2");
            assert_eq!(backward, "0.2..0.1");
        }
        other => panic!("unexpected plan {:?}", other),
    }
    match plan_ranges("0.1", Some("0.2")) {
        RangePlan::Between { forward, backward } => {
            assert_eq!(forward, "0.2..0.1");
            assert_eq!(backward, "0.1..0.2");
        }
        other => panic!("unexpected plan {:?}", other),
    }
}

#[test]
fn first_release_takes_everything() {
    match plan_ranges("0.1", None) {
        RangePlan::Everything { from } => assert_eq!(from, "0.1"),
        other => panic!("unexpected plan {:?}", other),
    }
}

#[test]
fn equal_markers_give_nothing() {
    assert!(matches!(plan_ranges("1.0.0", Some("1.0.0")), RangePlan::Nothing));
}

#[test]
fn walks_are_joined_forward_first() {
    let forward = vec!["c3".to_owned(), "c2".to_owned()];
    let backward = vec!["b1".to_owned()];
    assert_eq!(
        get_commits(forward.clone(), backward.clone()),
        vec!["c3".to_owned(), "c2".to_owned(), "b1".to_owned()]
    );
    let mut one = get_commits(forward.clone(), backward.clone());
    let mut other = get_commits(backward, forward);
    one.sort();
    other.sort();
    assert_eq!(one, other);
    assert!(get_commits(Vec::new(), Vec::new()).is_empty());
}

fn ranks(counted: &Vec<(String, i64)>) -> Vec<(u64, String, i64)> {
    scores(counted).into_iter().map(|s| (s.rank, s.author, s.commits)).collect()
}

#[test]
fn tied_authors_share_a_rank() {
    let counted = vec![
        ("a".to_owned(), 5),
        ("b".to_owned(), 5),
        ("c".to_owned(), 3),
        ("d".to_owned(), 1),
        ("e".to_owned(), 1),
        ("f".to_owned(), 1),
    ];
    assert_eq!(
        ranks(&counted),
        vec![
            (1, "a".to_owned(), 5),
            (1, "b".to_owned(), 5),
            (3, "c".to_owned(), 3),
            (4, "d".to_owned(), 1),
            (4, "e".to_owned(), 1),
            (4, "f".to_owned(), 1),
        ]
    );
    assert!(ranks(&Vec::new()).is_empty());
}

#[test]
fn first_entry_without_commits_has_rank_zero() {
    let counted = vec![("a".to_owned(), 0), ("b".to_owned(), 0), ("c".to_owned(), -1)];
    assert_eq!(
        ranks(&counted),
        vec![(0, "a".to_owned(), 0), (0, "b".to_owned(), 0), (3, "c".to_owned(), -1)]
    );
}

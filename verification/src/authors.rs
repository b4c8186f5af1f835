//! Canonical authors and the cache that gives every identity one author for
//! the length of a run.

use crate::text::{last_match, lemma_last_match, lemma_last_match_push};
use vstd::prelude::*;
use vstd::string::*;

verus! {

/// The number of an author in the store.
pub type AuthorId = i32;

/// A name and an email: what an author is known by.
pub type Identity = (Seq<char>, Seq<char>);

/// An author as the store holds it.
#[derive(Debug)]
pub struct Author {
    pub id: AuthorId,
    pub name: String,
    pub email: String,
    pub visible: bool,
}

/// An author as plain values.
pub ghost struct AuthorView {
    pub id: AuthorId,
    pub name: Seq<char>,
    pub email: Seq<char>,
    pub visible: bool,
}

impl AuthorView {
    /// The identity under which the author is kept.
    pub open spec fn identity(self) -> Identity {
        (self.name, self.email)
    }
}

impl View for Author {
    type V = AuthorView;

    open spec fn view(&self) -> AuthorView {
        AuthorView { id: self.id, name: self.name@, email: self.email@, visible: self.visible }
    }
}

impl Author {
    /// A copy of the author.
    pub fn duplicate(&self) -> (copy: Author)
        ensures
            copy@ == self@,
    {
        Author {
            id: self.id,
            name: self.name.clone(),
            email: self.email.clone(),
            visible: self.visible,
        }
    }
}

/// An identity for which an author is wanted.
#[derive(Debug)]
pub struct NewAuthor {
    pub name: String,
    pub email: String,
}

impl View for NewAuthor {
    type V = Identity;

    open spec fn view(&self) -> Identity {
        (self.name@, self.email@)
    }
}

/// The identities of a list of candidates.
pub open spec fn identities(candidates: Seq<NewAuthor>) -> Seq<Identity> {
    Seq::new(candidates.len(), |i: int| candidates[i]@)
}

/// A list of authors as plain values.
pub open spec fn authors_view(authors: Seq<Author>) -> Seq<AuthorView> {
    Seq::new(authors.len(), |i: int| authors[i]@)
}

/// The candidates that `known` does not hold, in their order.
pub open spec fn missing_of(known: Map<Identity, AuthorView>, wanted: Seq<Identity>) -> Seq<
    Identity,
>
    decreases wanted.len(),
{
    if wanted.len() == 0 {
        wanted
    } else if known.contains_key(wanted.last()) {
        missing_of(known, wanted.drop_last())
    } else {
        missing_of(known, wanted.drop_last()).push(wanted.last())
    }
}

/// The authors that `known` holds for the candidates, in the candidates'
/// order.
pub open spec fn found_of(known: Map<Identity, AuthorView>, wanted: Seq<Identity>) -> Seq<
    AuthorView,
>
    decreases wanted.len(),
{
    if wanted.len() == 0 {
        Seq::empty()
    } else if known.contains_key(wanted.last()) {
        found_of(known, wanted.drop_last()).push(known[wanted.last()])
    } else {
        found_of(known, wanted.drop_last())
    }
}

/// `known` after taking in what the store returned, row by row: a row whose
/// identity is held already changes nothing, so an identity keeps the author
/// it was first given.
pub open spec fn absorbed(known: Map<Identity, AuthorView>, rows: Seq<AuthorView>) -> Map<
    Identity,
    AuthorView,
>
    decreases rows.len(),
{
    if rows.len() == 0 {
        known
    } else {
        let before = absorbed(known, rows.drop_last());
        if before.contains_key(rows.last().identity()) {
            before
        } else {
            before.insert(rows.last().identity(), rows.last())
        }
    }
}

/// The keys of the cached authors, oldest first.
spec fn cached_keys(entries: Seq<Author>) -> Seq<Identity> {
    Seq::new(entries.len(), |i: int| entries[i]@.identity())
}

/// The authors seen so far in a run, by identity. Nothing ever leaves it.
pub struct IdentityCache {
    entries: Vec<Author>,
}

impl View for IdentityCache {
    type V = Map<Identity, AuthorView>;

    closed spec fn view(&self) -> Map<Identity, AuthorView> {
        let entries = self.entries@;
        Map::new(
            |k: Identity| last_match(cached_keys(entries), k) is Some,
            |k: Identity| entries[last_match(cached_keys(entries), k).unwrap()]@,
        )
    }
}

/// What the cache settles for a batch of candidates: the authors it holds
/// already, and the candidates that the store has to be asked for.
pub struct Lookup {
    pub found: Vec<Author>,
    pub missing: Vec<NewAuthor>,
}

impl IdentityCache {
    /// Every author is kept under its own identity.
    pub proof fn lemma_keyed_by_identity(&self, key: Identity)
        requires
            self@.contains_key(key),
        ensures
            self@[key].identity() == key,
    {
        lemma_last_match(cached_keys(self.entries@), key);
    }

    /// A cache that holds nothing.
    pub fn new() -> (cache: IdentityCache)
        ensures
            cache@ == Map::<Identity, AuthorView>::empty(),
    {
        let cache = IdentityCache { entries: Vec::new() };
        assert(cache@ =~= Map::<Identity, AuthorView>::empty());
        cache
    }

    /// The position of the author kept under `name` and `email`.
    fn find(&self, name: &String, email: &String) -> (found: Option<usize>)
        ensures
            match found {
                Some(i) => i < self.entries@.len() && self@.contains_key((name@, email@))
                    && self@[(name@, email@)] == self.entries@[i as int]@,
                None => !self@.contains_key((name@, email@)),
            },
    {
        let ghost keys = cached_keys(self.entries@);
        let ghost key = (name@, email@);
        let mut i: usize = self.entries.len();
        assert(keys.take(i as int) =~= keys);
        while i > 0
            invariant
                i <= self.entries@.len(),
                keys == cached_keys(self.entries@),
                key == (name@, email@),
                last_match(keys, key) == last_match(keys.take(i as int), key),
            decreases i,
        {
            proof {
                let head = keys.take(i as int);
                assert(head.drop_last() =~= keys.take(i - 1));
                assert(head.last() == self.entries@[i - 1]@.identity());
            }
            if self.entries[i - 1].name == *name && self.entries[i - 1].email == *email {
                return Some(i - 1);
            }
            i = i - 1;
        }
        None
    }

    /// Whether the cache holds an author for `name` and `email`.
    pub fn contains(&self, name: &String, email: &String) -> (held: bool)
        ensures
            held == self@.contains_key((name@, email@)),
    {
        self.find(name, email).is_some()
    }

    /// The author kept under `name` and `email`, if there is one.
    pub fn get(&self, name: &String, email: &String) -> (author: Option<Author>)
        ensures
            match author {
                Some(a) => self@.contains_key((name@, email@)) && a@ == self@[(name@, email@)],
                None => !self@.contains_key((name@, email@)),
            },
    {
        match self.find(name, email) {
            Some(i) => Some(self.entries[i].duplicate()),
            None => None,
        }
    }

    /// Takes in one author, unless its identity is held already. Tells
    /// whether the author was taken in.
    pub fn remember(&mut self, author: Author) -> (added: bool)
        ensures
            added == !old(self)@.contains_key(author@.identity()),
            final(self)@ == if added {
                old(self)@.insert(author@.identity(), author@)
            } else {
                old(self)@
            },
    {
        if self.find(&author.name, &author.email).is_some() {
            return false;
        }
        let ghost keys = cached_keys(self.entries@);
        let ghost key = author@.identity();
        let ghost value = author@;
        self.entries.push(author);
        proof {
            assert(cached_keys(self.entries@) =~= keys.push(key));
            assert forall|k: Identity| #[trigger]
                last_match(keys.push(key), k) == if k == key {
                    Some(keys.len() as int)
                } else {
                    last_match(keys, k)
                } by {
                lemma_last_match_push(keys, key, k);
            }
            assert forall|k: Identity| last_match(keys, k) is Some implies 0 <= (
            #[trigger] last_match(keys, k)).unwrap() < keys.len() by {
                lemma_last_match(keys, k);
            }
            assert(final(self)@ =~= old(self)@.insert(key, value));
        }
        true
    }

    /// Takes in the rows that the store returned for the missing candidates.
    pub fn absorb(&mut self, rows: &Vec<Author>)
        ensures
            final(self)@ == absorbed(old(self)@, authors_view(rows@)),
    {
        let ghost all = authors_view(rows@);
        assert(all.take(0) =~= Seq::<AuthorView>::empty());
        let mut i: usize = 0;
        while i < rows.len()
            invariant
                i <= rows@.len(),
                all == authors_view(rows@),
                self@ == absorbed(old(self)@, all.take(i as int)),
            decreases rows@.len() - i,
        {
            let row = rows[i].duplicate();
            proof {
                let read = all.take(i + 1);
                assert(read.drop_last() =~= all.take(i as int));
                assert(read.last() == row@);
            }
            self.remember(row);
            i = i + 1;
        }
        assert(all.take(i as int) =~= all);
    }

    /// Splits a batch of candidates into the authors that the cache holds and
    /// the candidates for which the store has to be asked.
    pub fn find_or_create_all(&self, new_authors: &Vec<NewAuthor>) -> (lookup: Lookup)
        ensures
            authors_view(lookup.found@) == found_of(self@, identities(new_authors@)),
            identities(lookup.missing@) == missing_of(self@, identities(new_authors@)),
    {
        let ghost wanted = identities(new_authors@);
        let mut found: Vec<Author> = Vec::new();
        let mut missing: Vec<NewAuthor> = Vec::new();
        let mut i: usize = 0;
        assert(wanted.take(0) =~= Seq::<Identity>::empty());
        assert(authors_view(found@) =~= Seq::<AuthorView>::empty());
        assert(identities(missing@) =~= Seq::<Identity>::empty());
        while i < new_authors.len()
            invariant
                i <= new_authors@.len(),
                wanted == identities(new_authors@),
                authors_view(found@) == found_of(self@, wanted.take(i as int)),
                identities(missing@) == missing_of(self@, wanted.take(i as int)),
            decreases new_authors@.len() - i,
        {
            let candidate = &new_authors[i];
            proof {
                let read = wanted.take(i + 1);
                assert(read.drop_last() =~= wanted.take(i as int));
                assert(read.last() == candidate@);
            }
            match self.find(&candidate.name, &candidate.email) {
                Some(at) => {
                    let ghost before = authors_view(found@);
                    let author = self.entries[at].duplicate();
                    found.push(author);
                    assert(authors_view(found@) =~= before.push(author@));
                },
                None => {
                    let ghost before = identities(missing@);
                    let wanted_author = NewAuthor {
                        name: candidate.name.clone(),
                        email: candidate.email.clone(),
                    };
                    missing.push(wanted_author);
                    assert(identities(missing@) =~= before.push(candidate@));
                },
            }
            i = i + 1;
        }
        assert(wanted.take(i as int) =~= wanted);
        Lookup { found, missing }
    }
}

/// Whether `known` holds an author for each of the first `n` candidates.
pub open spec fn holds_first(known: Map<Identity, AuthorView>, wanted: Seq<Identity>, n: int) -> bool {
    forall|j: int| 0 <= j < n ==> known.contains_key(#[trigger] wanted[j])
}

impl IdentityCache {
    /// The id of the author of each candidate, in the candidates' order. The
    /// cache answers alone, so it must hold them all: the position of the
    /// first candidate that it does not hold comes back as the error. Equal
    /// identities always get the same id.
    pub fn resolve_many(&self, candidates: &Vec<NewAuthor>) -> (result: Result<Vec<AuthorId>, usize>)
        ensures
            match result {
                Ok(ids) => {
                    &&& holds_first(self@, identities(candidates@), candidates@.len() as int)
                    &&& ids@.len() == candidates@.len()
                    &&& forall|j: int|
                        0 <= j < ids@.len() ==> #[trigger] ids@[j] == self@[candidates@[j]@].id
                    &&& forall|j: int, k: int|
                        0 <= j < ids@.len() && 0 <= k < ids@.len() && candidates@[j]@
                            == candidates@[k]@ ==> ids@[j] == ids@[k]
                },
                Err(at) => {
                    &&& at < candidates@.len()
                    &&& holds_first(self@, identities(candidates@), at as int)
                    &&& !self@.contains_key(candidates@[at as int]@)
                },
            },
    {
        let mut ids: Vec<AuthorId> = Vec::new();
        let mut i: usize = 0;
        while i < candidates.len()
            invariant
                i <= candidates@.len(),
                ids@.len() == i,
                holds_first(self@, identities(candidates@), i as int),
                forall|j: int| 0 <= j < i ==> #[trigger] ids@[j] == self@[candidates@[j]@].id,
            decreases candidates@.len() - i,
        {
            match self.find(&candidates[i].name, &candidates[i].email) {
                Some(at) => {
                    ids.push(self.entries[at].id);
                },
                None => {
                    return Err(i);
                },
            }
            i = i + 1;
        }
        Ok(ids)
    }
}

/// Settles the author of one identity, given the row that the store holds
/// for it: the author that the cache keeps under the row's identity, and the
/// row itself where the cache kept none, which it keeps from then on.
pub fn load_or_create(cache: &mut IdentityCache, stored: Author) -> (author: Author)
    ensures
        author@ == if old(cache)@.contains_key(stored@.identity()) {
            old(cache)@[stored@.identity()]
        } else {
            stored@
        },
        final(cache)@ == if old(cache)@.contains_key(stored@.identity()) {
            old(cache)@
        } else {
            old(cache)@.insert(stored@.identity(), stored@)
        },
{
    match cache.get(&stored.name, &stored.email) {
        Some(kept) => kept,
        None => {
            let copy = stored.duplicate();
            cache.remember(stored);
            copy
        },
    }
}

/// Within a run an identity never changes its author: whatever rows the cache
/// takes in, every identity it held before is still held, with the same
/// author and so the same id.
pub proof fn lemma_absorb_keeps(known: Map<Identity, AuthorView>, rows: Seq<AuthorView>, key: Identity)
    requires
        known.contains_key(key),
    ensures
        absorbed(known, rows).contains_key(key),
        absorbed(known, rows)[key] == known[key],
    decreases rows.len(),
{
    if rows.len() > 0 {
        lemma_absorb_keeps(known, rows.drop_last(), key);
    }
}

/// Every row that the store returned has an author in the cache afterwards,
/// under the row's identity.
pub proof fn lemma_absorb_holds_rows(known: Map<Identity, AuthorView>, rows: Seq<AuthorView>, i: int)
    requires
        0 <= i < rows.len(),
    ensures
        absorbed(known, rows).contains_key(rows[i].identity()),
    decreases rows.len(),
{
    let before = absorbed(known, rows.drop_last());
    if i < rows.len() - 1 {
        lemma_absorb_holds_rows(known, rows.drop_last(), i);
        assert(rows.drop_last()[i] == rows[i]);
    }
}

/// Every candidate that `known` does not hold is among the missing ones.
pub proof fn lemma_missing_holds_unknown(known: Map<Identity, AuthorView>, wanted: Seq<Identity>, j: int)
    requires
        0 <= j < wanted.len(),
        !known.contains_key(wanted[j]),
    ensures
        missing_of(known, wanted).contains(wanted[j]),
    decreases wanted.len(),
{
    let front = wanted.drop_last();
    if j < wanted.len() - 1 {
        lemma_missing_holds_unknown(known, front, j);
        let at = choose|at: int|
            0 <= at < missing_of(known, front).len() && missing_of(known, front)[at] == front[j];
        assert(missing_of(known, wanted)[at] == wanted[j]);
    } else {
        let missing = missing_of(known, wanted);
        assert(missing[missing.len() - 1] == wanted[j]);
    }
}

/// Where the store returns a row for every missing candidate, the cache holds
/// an author for every candidate of the batch afterwards.
pub proof fn lemma_batch_resolves(
    known: Map<Identity, AuthorView>,
    wanted: Seq<Identity>,
    rows: Seq<AuthorView>,
)
    requires
        forall|m: int|
            0 <= m < missing_of(known, wanted).len() ==> exists|r: int|
                0 <= r < rows.len() && rows[r].identity() == #[trigger] missing_of(known, wanted)[m],
    ensures
        holds_first(absorbed(known, rows), wanted, wanted.len() as int),
{
    assert forall|j: int| 0 <= j < wanted.len() implies absorbed(known, rows).contains_key(
        #[trigger] wanted[j],
    ) by {
        if known.contains_key(wanted[j]) {
            lemma_absorb_keeps(known, rows, wanted[j]);
        } else {
            lemma_missing_holds_unknown(known, wanted, j);
            let missing = missing_of(known, wanted);
            let m = choose|m: int| 0 <= m < missing.len() && missing[m] == wanted[j];
            let r = choose|r: int| 0 <= r < rows.len() && rows[r].identity() == missing[m];
            lemma_absorb_holds_rows(known, rows, r);
        }
    }
}

} // verus!

//! The list of a project's releases, newest first: the releases are ordered
//! as semantic versions, and `master`, which is none, stands at the top.

use crate::text::{strings_view, text_of};
use semver::Version;
use std::cmp::Ordering;
use vstd::prelude::*;
use vstd::string::*;

verus! {

/// How two texts stand to each other as semantic versions: nothing where one
/// of them is no semantic version; else -1, 0 or 1, as the first is less
/// than, equal to or greater than the second.
pub uninterp spec fn version_order(a: Seq<char>, b: Seq<char>) -> Option<i8>;

/// Reads both texts with `semver::Version::parse` and compares the versions
/// by the order that `Version` has. The contract only gives the outcome its
/// name.
#[verifier::external_body]
fn compare_versions(a: &str, b: &str) -> (order: Option<i8>)
    ensures
        order == version_order(a@, b@),
{
    let left = Version::parse(a).ok()?;
    let right = Version::parse(b).ok()?;
    Some(
        match left.cmp(&right) {
            Ordering::Less => -1i8,
            Ordering::Equal => 0i8,
            Ordering::Greater => 1i8,
        },
    )
}

/// Whether a text is a semantic version.
pub open spec fn is_version(text: Seq<char>) -> bool {
    version_order(text, text) is Some
}

/// The semantic version that a release's version stands for. Early versions
/// lack the patch number: they are read with `.0` added.
pub open spec fn semver_text(version: Seq<char>) -> Option<Seq<char>> {
    if is_version(version) {
        Some(version)
    } else if is_version(version + ".0"@) {
        Some(version + ".0"@)
    } else {
        None
    }
}

/// Gives the semantic version that `version` stands for, if it stands for
/// one.
pub fn semver_version(version: &str) -> (text: Option<String>)
    ensures
        text_of(text) == semver_text(version@),
{
    if compare_versions(version, version).is_some() {
        return Some(version.to_owned());
    }
    let mut longer = version.to_owned();
    longer.append(".0");
    if compare_versions(longer.as_str(), longer.as_str()).is_some() {
        Some(longer)
    } else {
        None
    }
}

/// How two releases stand to each other: as the semantic versions that they
/// stand for, and not at all where one of them stands for none.
pub open spec fn release_order(a: Seq<char>, b: Seq<char>) -> Option<i8> {
    match (semver_text(a), semver_text(b)) {
        (Some(x), Some(y)) => version_order(x, y),
        _ => None,
    }
}

/// Compares two releases by their versions.
pub fn order_releases(a: &str, b: &str) -> (order: Option<i8>)
    ensures
        order == release_order(a@, b@),
{
    match (semver_version(a), semver_version(b)) {
        (Some(x), Some(y)) => compare_versions(x.as_str(), y.as_str()),
        _ => None,
    }
}

/// Whether release `a` is known to be newer than release `b`.
pub open spec fn must_follow(a: Seq<char>, b: Seq<char>) -> bool {
    release_order(a, b) == Some(1i8)
}

/// A list in ascending order with one more release: it goes before the
/// releases at the end that are newer than it, and after all others.
pub open spec fn placed(sorted: Seq<Seq<char>>, version: Seq<char>) -> Seq<Seq<char>>
    decreases sorted.len(),
{
    if sorted.len() > 0 && must_follow(sorted.last(), version) {
        placed(sorted.drop_last(), version).push(sorted.last())
    } else {
        sorted.push(version)
    }
}

/// The releases oldest first, each placed in turn; releases of one version
/// stay in the order they came in.
pub open spec fn ascending(versions: Seq<Seq<char>>) -> Seq<Seq<char>>
    decreases versions.len(),
{
    if versions.len() == 0 {
        versions
    } else {
        placed(ascending(versions.drop_last()), versions.last())
    }
}

/// Placing a release keeps the others and adds it once.
pub proof fn lemma_placed_holds(sorted: Seq<Seq<char>>, version: Seq<char>)
    ensures
        placed(sorted, version).to_multiset() == sorted.to_multiset().insert(version),
        placed(sorted, version).len() == sorted.len() + 1,
    decreases sorted.len(),
{
    broadcast use vstd::multiset::group_multiset_axioms;

    if sorted.len() > 0 && must_follow(sorted.last(), version) {
        let front = sorted.drop_last();
        lemma_placed_holds(front, version);
        vstd::seq_lib::to_multiset_build(placed(front, version), sorted.last());
        vstd::seq_lib::to_multiset_build(front, sorted.last());
        assert(sorted =~= front.push(sorted.last()));
        assert(placed(sorted, version).to_multiset() =~= sorted.to_multiset().insert(version));
    } else {
        vstd::seq_lib::to_multiset_build(sorted, version);
    }
}

/// Ordering the releases neither drops nor adds one.
pub proof fn lemma_ascending_holds(versions: Seq<Seq<char>>)
    ensures
        ascending(versions).to_multiset() == versions.to_multiset(),
        ascending(versions).len() == versions.len(),
    decreases versions.len(),
{
    if versions.len() > 0 {
        let front = versions.drop_last();
        lemma_ascending_holds(front);
        lemma_placed_holds(ascending(front), versions.last());
        vstd::seq_lib::to_multiset_build(front, versions.last());
        assert(versions =~= front.push(versions.last()));
    }
}

/// Puts one more release into a list in ascending order.
pub fn place(sorted: &mut Vec<String>, version: String)
    ensures
        strings_view(final(sorted)@) == placed(strings_view(old(sorted)@), version@),
{
    let ghost names = strings_view(sorted@);
    let mut at: usize = sorted.len();
    assert(names.take(at as int) =~= names);
    assert(placed(names, version@) =~= placed(names.take(at as int), version@) + names.skip(
        at as int,
    ));
    let mut settled: bool = false;
    while at > 0 && !settled
        invariant
            at <= sorted@.len(),
            *sorted == *old(sorted),
            names == strings_view(sorted@),
            placed(names, version@) == placed(names.take(at as int), version@) + names.skip(
                at as int,
            ),
            settled ==> at > 0 && !must_follow(names[at - 1], version@),
        decreases at + if settled { 0int } else { 1int },
    {
        let order = order_releases(sorted[at - 1].as_str(), version.as_str());
        let newer = order == Some(1i8);
        proof {
            let head = names.take(at as int);
            assert(head.last() == names[at - 1]);
            assert(head.drop_last() =~= names.take(at - 1));
            assert(seq![names[at - 1]] + names.skip(at as int) =~= names.skip(at - 1));
        }
        if newer {
            proof {
                let head = names.take(at as int);
                assert(placed(head, version@) + names.skip(at as int) =~= placed(
                    names.take(at - 1),
                    version@,
                ) + names.skip(at - 1));
            }
            at = at - 1;
        } else {
            settled = true;
        }
    }
    proof {
        let head = names.take(at as int);
        if at > 0 {
            assert(head.last() == names[at - 1]);
        }
        assert(placed(head, version@) == head.push(version@));
        assert(head.push(version@) + names.skip(at as int) =~= names.insert(at as int, version@));
    }
    sorted.insert(at, version);
    assert(strings_view(sorted@) =~= names.insert(at as int, version@));
}

/// Orders releases by their versions, oldest first.
pub fn sort_ascending(versions: &Vec<String>) -> (sorted: Vec<String>)
    ensures
        strings_view(sorted@) == ascending(strings_view(versions@)),
{
    let ghost names = strings_view(versions@);
    let mut sorted: Vec<String> = Vec::new();
    let mut i: usize = 0;
    assert(names.take(0) =~= Seq::<Seq<char>>::empty());
    assert(strings_view(sorted@) =~= Seq::<Seq<char>>::empty());
    while i < versions.len()
        invariant
            i <= versions@.len(),
            names == strings_view(versions@),
            strings_view(sorted@) == ascending(names.take(i as int)),
        decreases versions@.len() - i,
    {
        proof {
            let read = names.take(i + 1);
            assert(read.drop_last() =~= names.take(i as int));
            assert(read.last() == versions@[i as int]@);
        }
        place(&mut sorted, versions[i].clone());
        i = i + 1;
    }
    assert(names.take(i as int) =~= names);
    sorted
}

/// The first position of `wanted` in a list.
pub open spec fn position_of(list: Seq<Seq<char>>, wanted: Seq<char>) -> Option<int>
    decreases list.len(),
{
    if list.len() == 0 {
        None
    } else {
        match position_of(list.drop_last(), wanted) {
            Some(i) => Some(i),
            None => if list.last() == wanted {
                Some(list.len() - 1)
            } else {
                None
            },
        }
    }
}

/// Whether every release of a list stands for a semantic version.
pub open spec fn all_readable(versions: Seq<Seq<char>>) -> bool {
    forall|k: int| 0 <= k < versions.len() ==> semver_text(#[trigger] versions[k]) is Some
}

/// The releases as they are listed: `master` first, then the others from the
/// newest to the oldest. There is no such list without `master`, nor where
/// two or more other releases are to be ordered and one of them stands for no
/// semantic version.
pub open spec fn listed(versions: Seq<Seq<char>>) -> Option<Seq<Seq<char>>> {
    match position_of(versions, "master"@) {
        None => None,
        Some(i) => {
            let rest = versions.remove(i);
            if rest.len() >= 2 && !all_readable(rest) {
                None
            } else {
                Some(ascending(rest).push("master"@).reverse())
            }
        },
    }
}

/// The characters of an optional list of strings.
pub open spec fn list_view(list: Option<Vec<String>>) -> Option<Seq<Seq<char>>> {
    match list {
        Some(l) => Some(strings_view(l@)),
        None => None,
    }
}

/// Finds the first position of `wanted`.
pub fn find_version(versions: &Vec<String>, wanted: &str) -> (found: Option<usize>)
    ensures
        match found {
            Some(i) => position_of(strings_view(versions@), wanted@) == Some(i as int) && i
                < versions@.len(),
            None => position_of(strings_view(versions@), wanted@) is None,
        },
{
    let ghost names = strings_view(versions@);
    let key = wanted.to_owned();
    let mut found: Option<usize> = None;
    let mut i: usize = 0;
    assert(names.take(0) =~= Seq::<Seq<char>>::empty());
    while i < versions.len()
        invariant
            i <= versions@.len(),
            names == strings_view(versions@),
            key@ == wanted@,
            match found {
                Some(at) => position_of(names.take(i as int), wanted@) == Some(at as int) && at < i,
                None => position_of(names.take(i as int), wanted@) is None,
            },
        decreases versions@.len() - i,
    {
        proof {
            let read = names.take(i + 1);
            assert(read.drop_last() =~= names.take(i as int));
            assert(read.last() == versions@[i as int]@);
        }
        if found.is_none() && versions[i] == key {
            found = Some(i);
        }
        i = i + 1;
    }
    assert(names.take(i as int) =~= names);
    found
}

/// Tells whether every release of a list stands for a semantic version.
pub fn readable(versions: &Vec<String>) -> (ok: bool)
    ensures
        ok == all_readable(strings_view(versions@)),
{
    let mut i: usize = 0;
    while i < versions.len()
        invariant
            i <= versions@.len(),
            forall|k: int| 0 <= k < i ==> semver_text(#[trigger] strings_view(versions@)[k]) is Some,
        decreases versions@.len() - i,
    {
        if semver_version(versions[i].as_str()).is_none() {
            assert(semver_text(strings_view(versions@)[i as int]) is None);
            return false;
        }
        i = i + 1;
    }
    true
}

/// Lists the releases of a project: `master` first, then the others from the
/// newest to the oldest.
pub fn all(versions: Vec<String>) -> (list: Option<Vec<String>>)
    ensures
        list_view(list) == listed(strings_view(versions@)),
{
    let mut rest = versions;
    let ghost names = strings_view(rest@);
    let at = match find_version(&rest, "master") {
        Some(at) => at,
        None => {
            return None;
        },
    };
    let master = rest.remove(at);
    assert(strings_view(rest@) =~= names.remove(at as int));
    assert(master@ == "master"@) by {
        lemma_position_holds(names, "master"@);
    }
    if rest.len() >= 2 && !readable(&rest) {
        return None;
    }
    let sorted = sort_ascending(&rest);
    let ghost oldest_first = strings_view(sorted@);
    let ghost whole = oldest_first.push(master@);
    let mut list: Vec<String> = Vec::new();
    list.push(master);
    let mut k: usize = sorted.len();
    while k > 0
        invariant
            k <= sorted@.len(),
            oldest_first == strings_view(sorted@),
            whole == oldest_first.push("master"@),
            list@.len() == 1 + sorted@.len() - k,
            forall|j: int| 0 <= j < list@.len() ==> (#[trigger] list@[j])@ == whole[whole.len() - 1 - j],
        decreases k,
    {
        list.push(sorted[k - 1].clone());
        k = k - 1;
    }
    assert(strings_view(list@) =~= whole.reverse());
    Some(list)
}

/// The position that `position_of` gives holds what was looked for.
pub proof fn lemma_position_holds(list: Seq<Seq<char>>, wanted: Seq<char>)
    ensures
        match position_of(list, wanted) {
            Some(i) => 0 <= i < list.len() && list[i] == wanted,
            None => true,
        },
    decreases list.len(),
{
    if list.len() > 0 {
        lemma_position_holds(list.drop_last(), wanted);
    }
}

/// The list holds every release once more, with `master` at its top.
pub proof fn lemma_listed_holds(versions: Seq<Seq<char>>)
    requires
        listed(versions) is Some,
    ensures
        listed(versions).unwrap().len() == versions.len(),
        listed(versions).unwrap()[0] == "master"@,
        listed(versions).unwrap().to_multiset() == versions.to_multiset(),
{
    broadcast use vstd::multiset::group_multiset_axioms;

    let master = "master"@;
    let at = position_of(versions, master).unwrap();
    lemma_position_holds(versions, master);
    let rest = versions.remove(at);
    let oldest_first = ascending(rest);
    let whole = oldest_first.push(master);
    lemma_ascending_holds(rest);
    whole.lemma_reverse_to_multiset();
    vstd::seq_lib::to_multiset_build(oldest_first, master);
    vstd::seq_lib::to_multiset_remove(versions, at);
    assert(versions.contains(versions[at]));
    vstd::seq_lib::to_multiset_contains(versions, master);
    assert(whole.reverse()[0] == whole[whole.len() - 1]);
    assert(whole.reverse().to_multiset() =~= versions.to_multiset());
}

} // verus!

//! Alias maps: the rules that rewrite the name and email recorded in a commit
//! to the identity a contributor wants to be known by.

use crate::text::{
    last_match, lemma_last_match, lemma_last_match_push, lines, slices_view, split_lines, text_of,
};
use regex::Regex;
use vstd::prelude::*;
use vstd::string::*;

verus! {

/// The fields that a rule keyed by email puts in place of the recorded ones.
pub ghost struct Override {
    pub name: Option<Seq<char>>,
    pub email: Option<Seq<char>>,
}

/// What an email-keyed rule replaces: a name, an email, or both.
#[derive(Debug)]
pub struct Replacement {
    pub name: Option<String>,
    pub email: Option<String>,
}

impl View for Replacement {
    type V = Override;

    open spec fn view(&self) -> Override {
        Override { name: text_of(self.name), email: text_of(self.email) }
    }
}

impl Replacement {
    /// Replaces the name and keeps the email.
    pub fn name(name: String) -> (r: Replacement)
        ensures
            r@ == (Override { name: Some(name@), email: None }),
    {
        Replacement { name: Some(name), email: None }
    }

    /// Replaces the email and keeps the name.
    pub fn email(email: String) -> (r: Replacement)
        ensures
            r@ == (Override { name: None, email: Some(email@) }),
    {
        Replacement { name: None, email: Some(email) }
    }

    /// Replaces both fields.
    pub fn both(name: String, email: String) -> (r: Replacement)
        ensures
            r@ == (Override { name: Some(name@), email: Some(email@) }),
    {
        Replacement { name: Some(name), email: Some(email) }
    }
}

/// The four forms of a line of an alias map.
#[derive(Clone, Copy, Debug, PartialEq, Eq, Structural)]
pub enum Shape {
    /// `Name <commit-email>`
    Name,
    /// `<proper-email> <commit-email>`
    Email,
    /// `Name <proper-email> <commit-email>`
    Both,
    /// `Name <proper-email> Commit Name <commit-email>`
    Pair,
}

/// The regular expression of each form. The first three must cover the whole
/// line, up to a trailing comment; the last one only has to start the line.
pub open spec fn pattern(shape: Shape) -> Seq<char> {
    match shape {
        Shape::Name => "^\\s*([^<>]+) <([^<>]+)>\\s*(#.*)?$"@,
        Shape::Email => "^\\s*<([^<>]+)> <([^<>]+)>\\s*(#.*)?$"@,
        Shape::Both => "^\\s*([^<>]+) <([^<>]+)> <([^<>]+)>\\s*(#.*)?$"@,
        Shape::Pair => "^\\s*([^<>]+) <([^<>]+)> ([^<>]+) <([^<>]+)>\\s*(#.*)?"@,
    }
}

/// The text of `pattern`.
pub fn pattern_text(shape: Shape) -> (p: &'static str)
    ensures
        p@ == pattern(shape),
{
    match shape {
        Shape::Name => "^\\s*([^<>]+) <([^<>]+)>\\s*(#.*)?$",
        Shape::Email => "^\\s*<([^<>]+)> <([^<>]+)>\\s*(#.*)?$",
        Shape::Both => "^\\s*([^<>]+) <([^<>]+)> <([^<>]+)>\\s*(#.*)?$",
        Shape::Pair => "^\\s*([^<>]+) <([^<>]+)> ([^<>]+) <([^<>]+)>\\s*(#.*)?",
    }
}

/// What the regular expression `pattern` captures in `text`: nothing where
/// `pattern` is no regular expression or finds no match in `text`; else, for
/// the leftmost match, the text of each group in the order of the opening
/// brackets, the whole match first, and `None` for a group that took no part.
pub uninterp spec fn regex_captures(pattern: Seq<char>, text: Seq<char>) -> Option<
    Seq<Option<Seq<char>>>,
>;

/// What a list of captured groups holds.
pub open spec fn groups_view(groups: Seq<Option<String>>) -> Seq<Option<Seq<char>>> {
    Seq::new(groups.len(), |i: int| text_of(groups[i]))
}

/// What an optional list of captured groups holds.
pub open spec fn captures_view(found: Option<Vec<Option<String>>>) -> Option<
    Seq<Option<Seq<char>>>,
> {
    match found {
        Some(groups) => Some(groups_view(groups@)),
        None => None,
    }
}

/// Compiles `pattern` with `regex::Regex::new` and searches `text` with
/// `Regex::captures`. Nothing is proved of the search: the contract only gives
/// its outcome the name `regex_captures`, a pattern that does not compile
/// counting as one that finds nothing.
#[verifier::external_body]
fn captures(pattern: &str, text: &str) -> (found: Option<Vec<Option<String>>>)
    ensures
        captures_view(found) == regex_captures(pattern@, text@),
{
    let compiled = Regex::new(pattern).ok()?;
    let found = compiled.captures(text)?;
    Some(found.iter().map(|group| group.map(|m| m.as_str().to_owned())).collect())
}

/// One rule of an alias map.
#[derive(Debug)]
pub enum Rule {
    /// Applies to every commit recorded under `commit_email`.
    ByEmail { commit_email: String, replacement: Replacement },
    /// Applies to the commits recorded under exactly this name and email.
    ByPair { commit_name: String, commit_email: String, name: String, email: String },
}

/// A rule as plain values.
pub ghost enum RuleView {
    ByEmail { commit_email: Seq<char>, replacement: Override },
    ByPair { commit_name: Seq<char>, commit_email: Seq<char>, name: Seq<char>, email: Seq<char> },
}

impl View for Rule {
    type V = RuleView;

    open spec fn view(&self) -> RuleView {
        match *self {
            Rule::ByEmail { commit_email, replacement } => RuleView::ByEmail {
                commit_email: commit_email@,
                replacement: replacement@,
            },
            Rule::ByPair { commit_name, commit_email, name, email } => RuleView::ByPair {
                commit_name: commit_name@,
                commit_email: commit_email@,
                name: name@,
                email: email@,
            },
        }
    }
}

/// An optional rule as plain values.
pub open spec fn rule_view(rule: Option<Rule>) -> Option<RuleView> {
    match rule {
        Some(r) => Some(r@),
        None => None,
    }
}

/// The text of group `n`, where the match has such a group and it took part.
pub open spec fn group(groups: Seq<Option<Seq<char>>>, n: int) -> Option<Seq<char>> {
    if 0 <= n < groups.len() {
        groups[n]
    } else {
        None
    }
}

/// The rule that a line of form `shape` states, given the groups that the
/// form's pattern captured in it. The commit's email is always the last
/// bracketed group; a match that lacks a group states no rule.
pub open spec fn rule_of(shape: Shape, groups: Seq<Option<Seq<char>>>) -> Option<RuleView> {
    match shape {
        Shape::Name => match (group(groups, 1), group(groups, 2)) {
            (Some(name), Some(commit_email)) => Some(
                RuleView::ByEmail {
                    commit_email,
                    replacement: Override { name: Some(name), email: None },
                },
            ),
            _ => None,
        },
        Shape::Email => match (group(groups, 1), group(groups, 2)) {
            (Some(email), Some(commit_email)) => Some(
                RuleView::ByEmail {
                    commit_email,
                    replacement: Override { name: None, email: Some(email) },
                },
            ),
            _ => None,
        },
        Shape::Both => match (group(groups, 1), group(groups, 2), group(groups, 3)) {
            (Some(name), Some(email), Some(commit_email)) => Some(
                RuleView::ByEmail {
                    commit_email,
                    replacement: Override { name: Some(name), email: Some(email) },
                },
            ),
            _ => None,
        },
        Shape::Pair => match (
            group(groups, 1),
            group(groups, 2),
            group(groups, 3),
            group(groups, 4),
        ) {
            (Some(name), Some(email), Some(commit_name), Some(commit_email)) => Some(
                RuleView::ByPair { commit_name, commit_email, name, email },
            ),
            _ => None,
        },
    }
}

/// The rule that one line states, if any. A line that starts with `#` is a
/// comment. Any other line is tried against the four forms in order, and the
/// first form whose pattern matches decides.
pub open spec fn line_rule(line: Seq<char>) -> Option<RuleView> {
    if line.len() > 0 && line[0] == '#' {
        None
    } else if let Some(groups) = regex_captures(pattern(Shape::Name), line) {
        rule_of(Shape::Name, groups)
    } else if let Some(groups) = regex_captures(pattern(Shape::Email), line) {
        rule_of(Shape::Email, groups)
    } else if let Some(groups) = regex_captures(pattern(Shape::Both), line) {
        rule_of(Shape::Both, groups)
    } else if let Some(groups) = regex_captures(pattern(Shape::Pair), line) {
        rule_of(Shape::Pair, groups)
    } else {
        None
    }
}

/// The two tables of an alias map.
pub ghost struct Rules {
    /// Rules that apply to an email, whatever the name.
    pub by_email: Map<Seq<char>, Override>,
    /// Rules that apply to one exact name and email, and give both anew.
    pub by_pair: Map<(Seq<char>, Seq<char>), (Seq<char>, Seq<char>)>,
}

/// The alias map without rules.
pub open spec fn no_rules() -> Rules {
    Rules { by_email: Map::empty(), by_pair: Map::empty() }
}

/// `rules` with one more rule, which takes the place of an earlier rule under
/// the same key.
pub open spec fn with_rule(rules: Rules, rule: RuleView) -> Rules {
    match rule {
        RuleView::ByEmail { commit_email, replacement } => Rules {
            by_email: rules.by_email.insert(commit_email, replacement),
            by_pair: rules.by_pair,
        },
        RuleView::ByPair { commit_name, commit_email, name, email } => Rules {
            by_email: rules.by_email,
            by_pair: rules.by_pair.insert((commit_name, commit_email), (name, email)),
        },
    }
}

/// `rules` after reading `lines` from first to last.
pub open spec fn rules_after(rules: Rules, lines: Seq<Seq<char>>) -> Rules
    decreases lines.len(),
{
    if lines.len() == 0 {
        rules
    } else {
        let before = rules_after(rules, lines.drop_last());
        match line_rule(lines.last()) {
            Some(rule) => with_rule(before, rule),
            None => before,
        }
    }
}

/// The alias map that a text states.
pub open spec fn parse(text: Seq<char>) -> Rules {
    rules_after(no_rules(), split_lines(text))
}

/// The identity that `rules` give to a commit recorded under `name` and
/// `email`. A rule for the email decides alone, each field it leaves open
/// staying as recorded; only without one is the exact pair looked up.
pub open spec fn canonical(rules: Rules, name: Seq<char>, email: Seq<char>) -> (
    Seq<char>,
    Seq<char>,
) {
    if rules.by_email.contains_key(email) {
        let over = rules.by_email[email];
        (
            match over.name {
                Some(n) => n,
                None => name,
            },
            match over.email {
                Some(e) => e,
                None => email,
            },
        )
    } else if rules.by_pair.contains_key((name, email)) {
        rules.by_pair[(name, email)]
    } else {
        (name, email)
    }
}

/// The tables after a lookup of `name` and `email`: a lookup that found no
/// rule leaves an entry for the email that replaces nothing.
pub open spec fn remembered(rules: Rules, name: Seq<char>, email: Seq<char>) -> Rules {
    if rules.by_email.contains_key(email) || rules.by_pair.contains_key((name, email)) {
        rules
    } else {
        Rules {
            by_email: rules.by_email.insert(email, Override { name: None, email: None }),
            by_pair: rules.by_pair,
        }
    }
}

/// The text of group `n` of a match.
fn group_text(groups: &Vec<Option<String>>, n: usize) -> (text: Option<String>)
    ensures
        text_of(text) == group(groups_view(groups@), n as int),
{
    if n < groups.len() {
        match &groups[n] {
            Some(s) => Some(s.clone()),
            None => None,
        }
    } else {
        None
    }
}

/// Builds the rule of a line of form `shape` from the groups that the form's
/// pattern captured.
pub fn rule_of_captures(shape: Shape, groups: &Vec<Option<String>>) -> (rule: Option<Rule>)
    ensures
        rule_view(rule) == rule_of(shape, groups_view(groups@)),
{
    let first = group_text(groups, 1);
    let second = group_text(groups, 2);
    let third = group_text(groups, 3);
    let fourth = group_text(groups, 4);
    match shape {
        Shape::Name => match (first, second) {
            (Some(name), Some(commit_email)) => Some(
                Rule::ByEmail { commit_email, replacement: Replacement::name(name) },
            ),
            _ => None,
        },
        Shape::Email => match (first, second) {
            (Some(email), Some(commit_email)) => Some(
                Rule::ByEmail { commit_email, replacement: Replacement::email(email) },
            ),
            _ => None,
        },
        Shape::Both => match (first, second, third) {
            (Some(name), Some(email), Some(commit_email)) => Some(
                Rule::ByEmail { commit_email, replacement: Replacement::both(name, email) },
            ),
            _ => None,
        },
        Shape::Pair => match (first, second, third, fourth) {
            (Some(name), Some(email), Some(commit_name), Some(commit_email)) => Some(
                Rule::ByPair { commit_name, commit_email, name, email },
            ),
            _ => None,
        },
    }
}

/// Reads one line of an alias map.
pub fn parse_line(line: &str) -> (rule: Option<Rule>)
    ensures
        rule_view(rule) == line_rule(line@),
{
    if line.unicode_len() > 0 && line.get_char(0) == '#' {
        return None;
    }
    if let Some(groups) = captures(pattern_text(Shape::Name), line) {
        rule_of_captures(Shape::Name, &groups)
    } else if let Some(groups) = captures(pattern_text(Shape::Email), line) {
        rule_of_captures(Shape::Email, &groups)
    } else if let Some(groups) = captures(pattern_text(Shape::Both), line) {
        rule_of_captures(Shape::Both, &groups)
    } else if let Some(groups) = captures(pattern_text(Shape::Pair), line) {
        rule_of_captures(Shape::Pair, &groups)
    } else {
        None
    }
}

/// A stored rule keyed by the commit's email.
struct EmailEntry {
    commit_email: String,
    replacement: Replacement,
}

/// A stored rule keyed by the commit's name and email.
struct PairEntry {
    commit_name: String,
    commit_email: String,
    name: String,
    email: String,
}

/// The keys of the stored email rules, oldest first.
spec fn email_keys(entries: Seq<EmailEntry>) -> Seq<Seq<char>> {
    Seq::new(entries.len(), |i: int| entries[i].commit_email@)
}

/// The keys of the stored pair rules, oldest first.
spec fn pair_keys(entries: Seq<PairEntry>) -> Seq<(Seq<char>, Seq<char>)> {
    Seq::new(entries.len(), |i: int| (entries[i].commit_name@, entries[i].commit_email@))
}

/// An alias map: it is read once from a text, and then gives each commit
/// identity its canonical form.
pub struct Mailmap {
    email_rules: Vec<EmailEntry>,
    pair_rules: Vec<PairEntry>,
}

impl View for Mailmap {
    type V = Rules;

    /// The two tables. In each list a later entry shadows an earlier one with
    /// the same key.
    closed spec fn view(&self) -> Rules {
        let emails = self.email_rules@;
        let pairs = self.pair_rules@;
        Rules {
            by_email: Map::new(
                |k: Seq<char>| last_match(email_keys(emails), k) is Some,
                |k: Seq<char>| emails[last_match(email_keys(emails), k).unwrap()].replacement@,
            ),
            by_pair: Map::new(
                |k: (Seq<char>, Seq<char>)| last_match(pair_keys(pairs), k) is Some,
                |k: (Seq<char>, Seq<char>)|
                    {
                        let entry = pairs[last_match(pair_keys(pairs), k).unwrap()];
                        (entry.name@, entry.email@)
                    },
            ),
        }
    }
}

impl Mailmap {
    /// Reads an alias map from `data`, line by line.
    pub fn new(data: &str) -> (map: Mailmap)
        ensures
            map@ == parse(data@),
    {
        let mut map = Mailmap { email_rules: Vec::new(), pair_rules: Vec::new() };
        assert(map@.by_email =~= Map::empty());
        assert(map@.by_pair =~= Map::empty());
        map.parse_map(data);
        map
    }

    /// Adds one rule; it takes the place of an earlier rule under its key.
    pub fn register(&mut self, rule: Rule)
        ensures
            final(self)@ == with_rule(old(self)@, rule@),
    {
        match rule {
            Rule::ByEmail { commit_email, replacement } => {
                self.add_email_entry(commit_email, replacement);
            },
            Rule::ByPair { commit_name, commit_email, name, email } => {
                let ghost keys = pair_keys(self.pair_rules@);
                let ghost key = (commit_name@, commit_email@);
                self.pair_rules.push(PairEntry { commit_name, commit_email, name, email });
                proof {
                    assert(pair_keys(self.pair_rules@) =~= keys.push(key));
                    assert forall|k: (Seq<char>, Seq<char>)|
                        #[trigger] last_match(keys.push(key), k) == if k == key {
                            Some(keys.len() as int)
                        } else {
                            last_match(keys, k)
                        } by {
                        lemma_last_match_push(keys, key, k);
                        lemma_last_match(keys, k);
                    }
                    assert forall|k: (Seq<char>, Seq<char>)| last_match(keys, k) is Some implies 0
                        <= (#[trigger] last_match(keys, k)).unwrap() < keys.len() by {
                        lemma_last_match(keys, k);
                    }
                    assert(final(self)@.by_pair =~= old(self)@.by_pair.insert(key, (name@, email@)));
                }
            },
        }
    }

    /// Stores `replacement` under `commit_email`.
    fn add_email_entry(&mut self, commit_email: String, replacement: Replacement)
        ensures
            final(self)@.by_email == old(self)@.by_email.insert(commit_email@, replacement@),
            final(self)@.by_pair == old(self)@.by_pair,
    {
        let ghost keys = email_keys(self.email_rules@);
        let ghost key = commit_email@;
        let ghost value = replacement@;
        self.email_rules.push(EmailEntry { commit_email, replacement });
        proof {
            assert(email_keys(self.email_rules@) =~= keys.push(key));
            assert forall|k: Seq<char>| #[trigger]
                last_match(keys.push(key), k) == if k == key {
                    Some(keys.len() as int)
                } else {
                    last_match(keys, k)
                } by {
                lemma_last_match_push(keys, key, k);
            }
            assert forall|k: Seq<char>| last_match(keys, k) is Some implies 0 <= (
            #[trigger] last_match(keys, k)).unwrap() < keys.len() by {
                lemma_last_match(keys, k);
            }
            assert(final(self)@.by_email =~= old(self)@.by_email.insert(key, value));
        }
    }

    /// Adds the rules that `data` states, in the order of its lines.
    pub fn parse_map(&mut self, data: &str)
        ensures
            final(self)@ == rules_after(old(self)@, split_lines(data@)),
    {
        let all = lines(data);
        let ghost texts = slices_view(all@);
        let mut i: usize = 0;
        assert(texts.take(0) =~= Seq::<Seq<char>>::empty());
        while i < all.len()
            invariant
                i <= all.len(),
                texts == slices_view(all@),
                texts == split_lines(data@),
                self@ == rules_after(old(self)@, texts.take(i as int)),
            decreases all.len() - i,
        {
            let rule = parse_line(all[i]);
            proof {
                let read = texts.take(i + 1);
                assert(read.drop_last() =~= texts.take(i as int));
                assert(read.last() == all@[i as int]@);
            }
            match rule {
                Some(rule) => {
                    self.register(rule);
                },
                None => {},
            }
            i = i + 1;
        }
        assert(texts.take(i as int) =~= texts);
    }

    /// The position of the rule that decides for `email`.
    fn find_email(&self, email: &String) -> (found: Option<usize>)
        ensures
            match found {
                Some(i) => last_match(email_keys(self.email_rules@), email@) == Some(i as int)
                    && i < self.email_rules@.len(),
                None => last_match(email_keys(self.email_rules@), email@) is None,
            },
    {
        let ghost keys = email_keys(self.email_rules@);
        let mut i: usize = self.email_rules.len();
        assert(keys.take(i as int) =~= keys);
        while i > 0
            invariant
                i <= self.email_rules@.len(),
                keys == email_keys(self.email_rules@),
                last_match(keys, email@) == last_match(keys.take(i as int), email@),
            decreases i,
        {
            proof {
                let head = keys.take(i as int);
                assert(head.drop_last() =~= keys.take(i - 1));
                assert(head.last() == self.email_rules@[i - 1].commit_email@);
            }
            if self.email_rules[i - 1].commit_email == *email {
                return Some(i - 1);
            }
            i = i - 1;
        }
        None
    }

    /// The position of the rule that decides for the pair `name`, `email`.
    fn find_pair(&self, name: &String, email: &String) -> (found: Option<usize>)
        ensures
            match found {
                Some(i) => last_match(pair_keys(self.pair_rules@), (name@, email@)) == Some(
                    i as int,
                ) && i < self.pair_rules@.len(),
                None => last_match(pair_keys(self.pair_rules@), (name@, email@)) is None,
            },
    {
        let ghost keys = pair_keys(self.pair_rules@);
        let ghost key = (name@, email@);
        let mut i: usize = self.pair_rules.len();
        assert(keys.take(i as int) =~= keys);
        while i > 0
            invariant
                i <= self.pair_rules@.len(),
                keys == pair_keys(self.pair_rules@),
                key == (name@, email@),
                last_match(keys, key) == last_match(keys.take(i as int), key),
            decreases i,
        {
            proof {
                let head = keys.take(i as int);
                assert(head.drop_last() =~= keys.take(i - 1));
                assert(head.last() == (
                    self.pair_rules@[i - 1].commit_name@,
                    self.pair_rules@[i - 1].commit_email@,
                ));
            }
            if self.pair_rules[i - 1].commit_name == *name && self.pair_rules[i - 1].commit_email
                == *email {
                return Some(i - 1);
            }
            i = i - 1;
        }
        None
    }

    /// Gives the canonical identity of a commit recorded under `name` and
    /// `email`. Where no rule applies, the identity stays as it is and the map
    /// remembers that for the email, so that a later lookup of the same email
    /// is answered from the email table alone.
    pub fn map(&mut self, name: &str, email: &str) -> (identity: (String, String))
        ensures
            (identity.0@, identity.1@) == canonical(old(self)@, name@, email@),
            final(self)@ == remembered(old(self)@, name@, email@),
    {
        let name_owned = name.to_owned();
        let email_owned = email.to_owned();
        match self.find_email(&email_owned) {
            Some(i) => {
                let entry = &self.email_rules[i];
                let new_name = match &entry.replacement.name {
                    Some(n) => n.clone(),
                    None => name_owned,
                };
                let new_email = match &entry.replacement.email {
                    Some(e) => e.clone(),
                    None => email_owned,
                };
                return (new_name, new_email);
            },
            None => {},
        }
        match self.find_pair(&name_owned, &email_owned) {
            Some(i) => {
                let entry = &self.pair_rules[i];
                (entry.name.clone(), entry.email.clone())
            },
            None => {
                self.add_email_entry(email_owned.clone(), Replacement { name: None, email: None });
                (name_owned, email_owned)
            },
        }
    }
}

/// A rule read from a line decides for the commits it covers: it gives them
/// exactly the fields that the line names and leaves the others as recorded.
/// A rule keyed by email covers every name under that email; a rule keyed by
/// a pair covers that pair, as long as no entry stands under its email.
pub proof fn lemma_rule_overrides(
    rules: Rules,
    shape: Shape,
    groups: Seq<Option<Seq<char>>>,
    name: Seq<char>,
)
    requires
        rule_of(shape, groups) is Some,
        shape == Shape::Pair ==> !rules.by_email.contains_key(groups[4].unwrap()),
    ensures
        ({
            let after = with_rule(rules, rule_of(shape, groups).unwrap());
            match shape {
                Shape::Name => canonical(after, name, groups[2].unwrap()) == (
                    groups[1].unwrap(),
                    groups[2].unwrap(),
                ),
                Shape::Email => canonical(after, name, groups[2].unwrap()) == (
                    name,
                    groups[1].unwrap(),
                ),
                Shape::Both => canonical(after, name, groups[3].unwrap()) == (
                    groups[1].unwrap(),
                    groups[2].unwrap(),
                ),
                Shape::Pair => canonical(after, groups[3].unwrap(), groups[4].unwrap()) == (
                    groups[1].unwrap(),
                    groups[2].unwrap(),
                ),
            }
        }),
{
}

/// An identity that neither table holds stays as it is.
pub proof fn lemma_absent_unchanged(rules: Rules, name: Seq<char>, email: Seq<char>)
    requires
        !rules.by_email.contains_key(email),
        !rules.by_pair.contains_key((name, email)),
    ensures
        canonical(rules, name, email) == (name, email),
{
}

/// A rule keyed by an email wins over every rule keyed by a pair: where the
/// email table holds the email, the pair table has no say in the outcome.
pub proof fn lemma_email_rule_wins(
    rules: Rules,
    other_pairs: Map<(Seq<char>, Seq<char>), (Seq<char>, Seq<char>)>,
    name: Seq<char>,
    email: Seq<char>,
)
    requires
        rules.by_email.contains_key(email),
    ensures
        canonical(rules, name, email) == canonical(
            Rules { by_email: rules.by_email, by_pair: other_pairs },
            name,
            email,
        ),
        canonical(rules, name, email).0 == match rules.by_email[email].name {
            Some(n) => n,
            None => name,
        },
        canonical(rules, name, email).1 == match rules.by_email[email].email {
            Some(e) => e,
            None => email,
        },
{
}

/// Asking again gives the same answer: the tables that a lookup leaves behind
/// answer the same question as the tables before it did, and a second lookup
/// changes nothing more.
pub proof fn lemma_lookup_repeatable(rules: Rules, name: Seq<char>, email: Seq<char>)
    ensures
        canonical(remembered(rules, name, email), name, email) == canonical(rules, name, email),
        remembered(remembered(rules, name, email), name, email) == remembered(rules, name, email),
{
}

} // verus!

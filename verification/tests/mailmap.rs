use thanks::mailmap::{
    parse_line, pattern_text, rule_of_captures, Mailmap, Replacement, Rule, Shape,
};
use thanks::text::lines;

fn check_map(map: &mut Mailmap, name: &str, email: &str, expected_name: &str, expected_email: &str) {
    let result: (String, String) = map.map(name, email);
    assert_eq!(
        (expected_name.to_owned(), expected_email.to_owned()),
        result,
        "Expected to map '{},{}' to '{},{}', but instead mapped to '{},{}'",
        name,
        email,
        expected_name,
        expected_email,
        result.0,
        result.1
    );
}

#[test]
fn test_mailmap() {
    let map_data = "Other Name <othername@example.com>
Three Four <threefour@example.com> # This is a comment
<properemail@example.com> <commitemail@example.com>
Bob Jones <bobjones@example.com> <fakejones@example.com>
# Comment line!
# Another comment
John Doe <johndoe@example.com> That Guy <thatguy@example.com>
Am Valid <valid@example.com> Also Valid <alsovalid@example.com> Not Valid <notvalid@example.com>";

    let mut m = Mailmap::new(map_data);

    // Authors not in the mailmap should be unchanged
    check_map(&mut m, "Not Here", "nothere@gmail.com", "Not Here", "nothere@gmail.com");

    // Ensure that non-mailmapped people with multiple names for one email work properly
    check_map(&mut m, "Kinda Here", "nothere@gmail.com", "Kinda Here", "nothere@gmail.com");

    // PNAME_CEMAIL rule
    check_map(&mut m, "Wrong name", "othername@example.com", "Other Name", "othername@example.com");
    check_map(&mut m, "One Two", "threefour@example.com", "Three Four", "threefour@example.com");

    // EMAIL_CEMAIL rule
    check_map(&mut m, "Aaron Hill", "commitemail@example.com", "Aaron Hill", "properemail@example.com");
    check_map(&mut m, "Random Name", "commitemail@example.com", "Random Name", "properemail@example.com");

    // PNAME_PEMAIL_CEMAIL
    check_map(&mut m, "Some Person", "fakejones@example.com", "Bob Jones", "bobjones@example.com");
    check_map(&mut m, "Someone Else", "fakejones@example.com", "Bob Jones", "bobjones@example.com");

    // PNAME_PEMAIL_CNAME_CMAIL
    check_map(&mut m, "That Guy", "thatguy@example.com", "John Doe", "johndoe@example.com");

    // Requires name and email to both match
    check_map(&mut m, "Other Guy", "thatguy@example.com", "Other Guy", "thatguy@example.com");
    check_map(&mut m, "That Guy", "blablah@example.com", "That Guy", "blablah@example.com");

    // Any name/email pairs after the second one should be ignored (for compatibility with git)
    check_map(&mut m, "Also Valid", "alsovalid@example.com", "Am Valid", "valid@example.com");
    check_map(&mut m, "Not Valid", "notvalid@example.com", "Not Valid", "notvalid@example.com");
}

#[test]
fn lines_are_cut_at_line_feeds() {
    assert_eq!(lines("a\nbc\n\nd"), vec!["a", "bc", "", "d"]);
    assert_eq!(lines(""), vec![""]);
    assert_eq!(lines("x\n"), vec!["x", ""]);
    assert_eq!(lines("caf\u{e9}\n\u{4e2d}"), vec!["caf\u{e9}", "\u{4e2d}"]);
}

#[test]
fn empty_map_changes_nothing() {
    let mut m = Mailmap::new("");
    assert_eq!(m.map("A B", "ab@example.com"), ("A B".to_owned(), "ab@example.com".to_owned()));
}

#[test]
fn comment_lines_state_no_rule() {
    assert!(parse_line("# Name <a@example.com>").is_none());
    assert!(parse_line("no brackets here").is_none());
    assert!(parse_line("").is_none());
}

#[test]
fn each_shape_gives_its_rule() {
    match parse_line("Other Name <othername@example.com>") {
        Some(Rule::ByEmail { commit_email, replacement }) => {
            assert_eq!(commit_email, "othername@example.com");
            assert_eq!(replacement.name.as_deref(), Some("Other Name"));
            assert_eq!(replacement.email, None);
        }
        other => panic!("unexpected rule {:?}", other),
    }
    match parse_line("  <proper@example.com> <commit@example.com>   # why") {
        Some(Rule::ByEmail { commit_email, replacement }) => {
            assert_eq!(commit_email, "commit@example.com");
            assert_eq!(replacement.name, None);
            assert_eq!(replacement.email.as_deref(), Some("proper@example.com"));
        }
        other => panic!("unexpected rule {:?}", other),
    }
    match parse_line("Bob Jones <bobjones@example.com> <fakejones@example.com>") {
        Some(Rule::ByEmail { commit_email, replacement }) => {
            assert_eq!(commit_email, "fakejones@example.com");
            assert_eq!(replacement.name.as_deref(), Some("Bob Jones"));
            assert_eq!(replacement.email.as_deref(), Some("bobjones@example.com"));
        }
        other => panic!("unexpected rule {:?}", other),
    }
    match parse_line("John Doe <johndoe@example.com> That Guy <thatguy@example.com>") {
        Some(Rule::ByPair { commit_name, commit_email, name, email }) => {
            assert_eq!(commit_name, "That Guy");
            assert_eq!(commit_email, "thatguy@example.com");
            assert_eq!(name, "John Doe");
            assert_eq!(email, "johndoe@example.com");
        }
        other => panic!("unexpected rule {:?}", other),
    }
}

#[test]
fn captures_with_a_missing_group_state_no_rule() {
    let groups = vec![Some("x".to_owned()), Some("Name".to_owned()), None];
    assert!(rule_of_captures(Shape::Name, &groups).is_none());
    let short = vec![Some("x".to_owned())];
    assert!(rule_of_captures(Shape::Pair, &short).is_none());
    let full = vec![Some("N <e>".to_owned()), Some("N".to_owned()), Some("e".to_owned()), None];
    match rule_of_captures(Shape::Name, &full) {
        Some(Rule::ByEmail { commit_email, replacement }) => {
            assert_eq!(commit_email, "e");
            assert_eq!(replacement.name.as_deref(), Some("N"));
        }
        other => panic!("unexpected rule {:?}", other),
    }
}

#[test]
fn email_rule_wins_over_pair_rule() {
    let mut m = Mailmap::new(
        "John Doe <johndoe@example.com> That Guy <thatguy@example.com>\nRight Name <thatguy@example.com>",
    );
    assert_eq!(
        m.map("That Guy", "thatguy@example.com"),
        ("Right Name".to_owned(), "thatguy@example.com".to_owned())
    );
}

#[test]
fn later_line_replaces_earlier_rule() {
    let mut m = Mailmap::new("First <a@example.com>\nSecond <a@example.com>");
    assert_eq!(m.map("x", "a@example.com"), ("Second".to_owned(), "a@example.com".to_owned()));
}

#[test]
fn lookup_is_repeatable() {
    let mut m = Mailmap::new("John Doe <johndoe@example.com> That Guy <thatguy@example.com>");
    let first = m.map("That Guy", "thatguy@example.com");
    let second = m.map("That Guy", "thatguy@example.com");
    assert_eq!(first, second);
    assert_eq!(first, ("John Doe".to_owned(), "johndoe@example.com".to_owned()));
    let miss = m.map("No One", "noone@example.com");
    assert_eq!(miss, m.map("No One", "noone@example.com"));
}

#[test]
fn a_miss_is_remembered_for_the_email() {
    let mut m = Mailmap::new("John Doe <johndoe@example.com> That Guy <thatguy@example.com>");
    assert_eq!(
        m.map("Other Guy", "thatguy@example.com"),
        ("Other Guy".to_owned(), "thatguy@example.com".to_owned())
    );
    // The email now has an entry of its own, which replaces nothing.
    assert_eq!(
        m.map("That Guy", "thatguy@example.com"),
        ("That Guy".to_owned(), "thatguy@example.com".to_owned())
    );
}

#[test]
fn registered_rule_applies() {
    let mut m = Mailmap::new("");
    m.register(Rule::ByEmail {
        commit_email: "c@example.com".to_owned(),
        replacement: Replacement::both("N".to_owned(), "p@example.com".to_owned()),
    });
    assert_eq!(m.map("x", "c@example.com"), ("N".to_owned(), "p@example.com".to_owned()));
}

#[test]
fn replacements_name_what_they_replace() {
    let name = Replacement::name("N".to_owned());
    assert_eq!((name.name.as_deref(), name.email.as_deref()), (Some("N"), None));
    let email = Replacement::email("e@example.com".to_owned());
    assert_eq!((email.name.as_deref(), email.email.as_deref()), (None, Some("e@example.com")));
    let both = Replacement::both("N".to_owned(), "e@example.com".to_owned());
    assert_eq!((both.name.as_deref(), both.email.as_deref()), (Some("N"), Some("e@example.com")));
}

#[test]
fn more_lines_add_to_a_map() {
    let mut m = Mailmap::new("First <a@example.com>");
    m.parse_map("Second <b@example.com>\n<c@example.com> <a@example.com>");
    assert_eq!(m.map("x", "b@example.com"), ("Second".to_owned(), "b@example.com".to_owned()));
    // The later rule for the email takes the place of the earlier one.
    assert_eq!(m.map("x", "a@example.com"), ("x".to_owned(), "c@example.com".to_owned()));
}

#[test]
fn registered_pair_rule_needs_the_exact_pair() {
    let mut m = Mailmap::new("");
    m.register(Rule::ByPair {
        commit_name: "C".to_owned(),
        commit_email: "c@example.com".to_owned(),
        name: "N".to_owned(),
        email: "n@example.com".to_owned(),
    });
    assert_eq!(m.map("C", "c@example.com"), ("N".to_owned(), "n@example.com".to_owned()));
    assert_eq!(m.map("C", "d@example.com"), ("C".to_owned(), "d@example.com".to_owned()));
}

#[test]
fn malformed_lines_are_passed_over() {
    let mut m = Mailmap::new("Name <unclosed@example.com\n<only@example.com>\nGood <g@example.com>\n\n   ");
    assert_eq!(m.map("x", "g@example.com"), ("Good".to_owned(), "g@example.com".to_owned()));
    assert_eq!(m.map("x", "only@example.com"), ("x".to_owned(), "only@example.com".to_owned()));
    assert_eq!(
        m.map("x", "unclosed@example.com"),
        ("x".to_owned(), "unclosed@example.com".to_owned())
    );
}

#[test]
fn patterns_of_the_four_shapes() {
    assert_eq!(pattern_text(Shape::Name), r"^\s*([^<>]+) <([^<>]+)>\s*(#.*)?$");
    assert_eq!(pattern_text(Shape::Email), r"^\s*<([^<>]+)> <([^<>]+)>\s*(#.*)?$");
    assert_eq!(pattern_text(Shape::Both), r"^\s*([^<>]+) <([^<>]+)> <([^<>]+)>\s*(#.*)?$");
    assert_eq!(
        pattern_text(Shape::Pair),
        r"^\s*([^<>]+) <([^<>]+)> ([^<>]+) <([^<>]+)>\s*(#.*)?"
    );
}

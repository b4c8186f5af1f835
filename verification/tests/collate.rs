use std::cmp::Ordering;
use thanks::collate::{
    char_cmp, compare_code_points, compare_keys, inaccurate_sort, is_combining_mark, key_of,
    order_folded, str_cmp, without_marks,
};

fn chars(s: &str) -> Vec<char> {
    s.chars().collect()
}

#[test]
fn accents_are_set_aside() {
    assert_eq!(key_of("caf\u{e9}"), chars("cafe"));
    assert_eq!(key_of("cafe\u{301}"), chars("cafe"));
    assert_eq!(key_of("\u{fb01}n"), chars("fin"));
    assert_eq!(key_of(""), chars(""));
    assert_eq!(str_cmp("e\u{301}", "e"), Ordering::Equal);
    assert_eq!(str_cmp("\u{e9}", "e"), Ordering::Equal);
}

#[test]
fn marks_block_has_exact_bounds() {
    assert!(is_combining_mark('\u{300}'));
    assert!(is_combining_mark('\u{36f}'));
    assert!(is_combining_mark('\u{301}'));
    assert!(!is_combining_mark('\u{2ff}'));
    assert!(!is_combining_mark('\u{370}'));
    assert!(!is_combining_mark('a'));
    assert_eq!(without_marks(&chars("a\u{300}b\u{36f}\u{370}")), chars("ab\u{370}"));
}

#[test]
fn lower_case_comes_before_upper_case() {
    assert_eq!(char_cmp('a', 'A'), Ordering::Less);
    assert_eq!(char_cmp('A', 'a'), Ordering::Greater);
    assert_eq!(char_cmp('a', 'a'), Ordering::Equal);
    assert_eq!(char_cmp('Z', 'Z'), Ordering::Equal);
    assert_eq!(char_cmp('z', 'Z'), Ordering::Less);
}

#[test]
fn letters_compare_without_case() {
    assert_eq!(char_cmp('a', 'B'), Ordering::Less);
    assert_eq!(char_cmp('B', 'a'), Ordering::Greater);
    assert_eq!(char_cmp('Z', 'a'), Ordering::Greater);
    assert_eq!(char_cmp('1', 'a'), Ordering::Less);
    assert_eq!(char_cmp('1', '1'), Ordering::Equal);
}

#[test]
fn folds_of_several_characters_compare_as_texts() {
    // The sharp s folds to two letters.
    assert_eq!(char_cmp('\u{df}', 's'), Ordering::Greater);
    assert_eq!(char_cmp('s', '\u{df}'), Ordering::Less);
    assert_eq!(char_cmp('\u{df}', '\u{df}'), Ordering::Equal);
    // Capital and small sigma fold alike, and are no plain letters.
    assert_eq!(char_cmp('\u{3a3}', '\u{3c3}'), Ordering::Equal);
}

#[test]
fn folded_forms_decide() {
    let a = chars("k");
    assert_eq!(order_folded('k', 'K', &a, &a), Ordering::Less);
    assert_eq!(order_folded('K', 'k', &a, &a), Ordering::Greater);
    assert_eq!(order_folded('k', 'k', &a, &a), Ordering::Equal);
    let two = chars("ss");
    assert_eq!(order_folded('x', 'y', &two, &two), Ordering::Equal);
    assert_eq!(order_folded('x', 'y', &a, &two), Ordering::Less);
    let digit = chars("1");
    assert_eq!(order_folded('x', 'y', &digit, &digit), Ordering::Equal);
}

#[test]
fn code_points_order_texts() {
    assert_eq!(compare_code_points(&chars("abc"), &chars("abd")), Ordering::Less);
    assert_eq!(compare_code_points(&chars("abc"), &chars("ab")), Ordering::Greater);
    assert_eq!(compare_code_points(&chars(""), &chars("")), Ordering::Equal);
    assert_eq!(compare_code_points(&chars(""), &chars("a")), Ordering::Less);
    assert_eq!(compare_code_points(&chars("b"), &chars("abc")), Ordering::Greater);
}

#[test]
fn shorter_key_comes_first() {
    assert_eq!(compare_keys(&chars("ab"), &chars("abc")), Ordering::Less);
    assert_eq!(compare_keys(&chars("abc"), &chars("ab")), Ordering::Greater);
    assert_eq!(compare_keys(&chars("abc"), &chars("abc")), Ordering::Equal);
    assert_eq!(str_cmp("", "a"), Ordering::Less);
    assert_eq!(str_cmp("", ""), Ordering::Equal);
}

#[test]
fn names_with_and_without_accents() {
    assert_eq!(str_cmp("caf\u{e9}", "Cafe"), Ordering::Less);
    assert_eq!(str_cmp("Cafe", "caf\u{e9}"), Ordering::Greater);
    assert_eq!(str_cmp("caf\u{e9}", "cafz"), Ordering::Less);
    assert_eq!(str_cmp("cafz", "caf\u{e9}"), Ordering::Greater);
    assert_eq!(str_cmp("cafe", "cafz"), Ordering::Less);
    assert_eq!(str_cmp("Cafe", "Cafz"), Ordering::Less);
    // The first place where the characters are not equal decides, and a
    // capital letter comes after its small form.
    assert_eq!(str_cmp("Cafe", "cafz"), Ordering::Greater);
}

#[test]
fn sort_orders_names() {
    let mut names = vec!["cafz".to_owned(), "Cafe".to_owned(), "caf\u{e9}".to_owned()];
    inaccurate_sort(&mut names);
    assert_eq!(names, vec!["caf\u{e9}".to_owned(), "cafz".to_owned(), "Cafe".to_owned()]);

    let mut more = vec![
        "bob".to_owned(),
        "Alice".to_owned(),
        "alice".to_owned(),
        "\u{c9}mile".to_owned(),
        "Zed".to_owned(),
        "bob".to_owned(),
        "".to_owned(),
    ];
    inaccurate_sort(&mut more);
    assert_eq!(
        more,
        vec![
            "".to_owned(),
            "alice".to_owned(),
            "Alice".to_owned(),
            "bob".to_owned(),
            "bob".to_owned(),
            "\u{c9}mile".to_owned(),
            "Zed".to_owned(),
        ]
    );
}

#[test]
fn sort_of_nothing_and_of_one() {
    let mut none: Vec<String> = Vec::new();
    inaccurate_sort(&mut none);
    assert!(none.is_empty());
    let mut one = vec!["x".to_owned()];
    inaccurate_sort(&mut one);
    assert_eq!(one, vec!["x".to_owned()]);
}

#[test]
fn order_reads_the_same_from_both_sides() {
    let names = ["caf\u{e9}", "Cafe", "cafz", "", "a", "A", "\u{df}", "ss", "Zed"];
    for a in names.iter() {
        assert_eq!(str_cmp(a, a), Ordering::Equal);
        for b in names.iter() {
            assert_eq!(str_cmp(a, b), str_cmp(b, a).reverse());
        }
    }
}

#[test]
fn equal_names_keep_their_order() {
    let mut names = vec![
        "Jos\u{e9}".to_owned(),
        "b".to_owned(),
        "Jose".to_owned(),
        "a".to_owned(),
        "Jose\u{301}".to_owned(),
    ];
    inaccurate_sort(&mut names);
    assert_eq!(
        names,
        vec![
            "a".to_owned(),
            "b".to_owned(),
            "Jos\u{e9}".to_owned(),
            "Jose".to_owned(),
            "Jose\u{301}".to_owned(),
        ]
    );
}

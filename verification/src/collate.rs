//! An approximate collation of display names: accents are set aside, letters
//! are compared without regard to case, and among the plain letters of one
//! sound the lower-case one comes first.

use crate::text::strings_view;
use caseless::default_case_fold_str;
use std::cmp::Ordering;
use unicode_normalization::UnicodeNormalization;
use vstd::prelude::*;

verus! {

/// The compatibility decomposition (normalization form KD) of a text.
pub uninterp spec fn nfkd_of(text: Seq<char>) -> Seq<char>;

/// The default case folding of one character, which may be several
/// characters long.
pub uninterp spec fn case_fold_of(c: char) -> Seq<char>;

/// Decomposes `text` with `UnicodeNormalization::nfkd` of the crate
/// `unicode-normalization`. The contract only gives the outcome its name.
#[verifier::external_body]
fn decompose(text: &str) -> (out: Vec<char>)
    ensures
        out@ == nfkd_of(text@),
{
    text.nfkd().collect()
}

/// Folds the case of `c` with `caseless::default_case_fold_str`, applied to
/// the one-character string. The contract only gives the outcome its name.
#[verifier::external_body]
fn fold_case(c: char) -> (out: Vec<char>)
    ensures
        out@ == case_fold_of(c),
{
    default_case_fold_str(c.to_string().as_str()).chars().collect()
}

/// The code point of a character.
pub open spec fn code(c: char) -> int {
    c as int
}

/// Whether `c` lies in the block of combining diacritical marks.
pub open spec fn is_mark(c: char) -> bool {
    0x300 <= code(c) <= 0x36f
}

/// `text` without its combining diacritical marks.
pub open spec fn strip_marks(text: Seq<char>) -> Seq<char>
    decreases text.len(),
{
    if text.len() == 0 {
        text
    } else if is_mark(text.last()) {
        strip_marks(text.drop_last())
    } else {
        strip_marks(text.drop_last()).push(text.last())
    }
}

/// What a name is compared by: its decomposition without the marks.
pub open spec fn collation_key(name: Seq<char>) -> Seq<char> {
    strip_marks(nfkd_of(name))
}

/// The first `n` characters of `text`.
pub open spec fn head(text: Seq<char>, n: usize) -> Seq<char> {
    text.take(n as int)
}

/// `text` from position `n` on.
pub open spec fn tail(text: Seq<char>, n: usize) -> Seq<char> {
    text.skip(n as int)
}

/// `text` from the position after `n` on.
pub open spec fn tail_after(text: Seq<char>, n: usize) -> Seq<char> {
    text.skip(n + 1)
}

/// Tells whether `c` is a combining diacritical mark.
pub fn is_combining_mark(c: char) -> (mark: bool)
    ensures
        mark == is_mark(c),
{
    let n: u32 = c as u32;
    0x300 <= n && n <= 0x36f
}

/// Drops the combining diacritical marks from `text`.
pub fn without_marks(text: &Vec<char>) -> (out: Vec<char>)
    ensures
        out@ == strip_marks(text@),
{
    let mut out: Vec<char> = Vec::new();
    let mut i: usize = 0;
    assert(head(text@, 0) =~= Seq::<char>::empty());
    while i < text.len()
        invariant
            i <= text.len(),
            out@ == strip_marks(head(text@, i)),
        decreases text.len() - i,
    {
        proof {
            let next = head(text@, (i + 1) as usize);
            assert(next.drop_last() =~= head(text@, i));
            assert(next.last() == text@[i as int]);
        }
        if !is_combining_mark(text[i]) {
            out.push(text[i]);
        }
        i = i + 1;
    }
    assert(head(text@, i) =~= text@);
    out
}

/// The key by which `name` is compared.
pub fn key_of(name: &str) -> (key: Vec<char>)
    ensures
        key@ == collation_key(name@),
{
    let whole = decompose(name);
    without_marks(&whole)
}

/// Whether a folded character is one plain lower-case letter, `a` to `z`.
pub open spec fn is_plain_letter(folded: Seq<char>) -> bool {
    folded.len() == 1 && code('a') <= code(folded[0]) <= code('z')
}

/// The order of two texts by code points: the first place where they differ
/// decides, and a text comes before each of its extensions.
pub open spec fn code_point_order(a: Seq<char>, b: Seq<char>) -> Ordering
    decreases a.len(),
{
    if a.len() == 0 {
        if b.len() == 0 {
            Ordering::Equal
        } else {
            Ordering::Less
        }
    } else if b.len() == 0 {
        Ordering::Greater
    } else if code(a[0]) < code(b[0]) {
        Ordering::Less
    } else if code(a[0]) > code(b[0]) {
        Ordering::Greater
    } else {
        code_point_order(a.drop_first(), b.drop_first())
    }
}

/// The order of two characters. Their case-folded forms are compared by code
/// points. Where both fold to the same plain letter, the characters
/// themselves decide, the one with the greater code point first: `a` comes
/// before `A`.
pub open spec fn char_order(a: char, b: char) -> Ordering {
    let fa = case_fold_of(a);
    let fb = case_fold_of(b);
    if fa == fb && is_plain_letter(fa) {
        if code(a) > code(b) {
            Ordering::Less
        } else if code(a) < code(b) {
            Ordering::Greater
        } else {
            Ordering::Equal
        }
    } else {
        code_point_order(fa, fb)
    }
}

/// The order of two keys: the first place where the characters are not equal
/// under `char_order` decides, and a key comes before each of its extensions.
pub open spec fn key_order(a: Seq<char>, b: Seq<char>) -> Ordering
    decreases a.len(),
{
    if a.len() == 0 {
        if b.len() == 0 {
            Ordering::Equal
        } else {
            Ordering::Less
        }
    } else if b.len() == 0 {
        Ordering::Greater
    } else {
        match char_order(a[0], b[0]) {
            Ordering::Less => Ordering::Less,
            Ordering::Greater => Ordering::Greater,
            Ordering::Equal => key_order(a.drop_first(), b.drop_first()),
        }
    }
}

/// The order of two display names.
pub open spec fn name_order(a: Seq<char>, b: Seq<char>) -> Ordering {
    key_order(collation_key(a), collation_key(b))
}

/// Two texts are in the order `Equal` by code points only if they are the
/// same text.
pub proof fn lemma_code_point_order_equal(a: Seq<char>, b: Seq<char>)
    ensures
        code_point_order(a, b) == Ordering::Equal <==> a == b,
    decreases a.len(),
{
    if a.len() > 0 && b.len() > 0 {
        lemma_code_point_order_equal(a.drop_first(), b.drop_first());
        if code(a[0]) == code(b[0]) {
            assert(a[0] == b[0]);
            if a.drop_first() == b.drop_first() {
                assert(a =~= seq![a[0]] + a.drop_first());
                assert(b =~= seq![b[0]] + b.drop_first());
            }
        }
    } else if a.len() == 0 && b.len() == 0 {
        assert(a =~= b);
    }
}

/// Compares two texts by code points.
pub fn compare_code_points(a: &Vec<char>, b: &Vec<char>) -> (order: Ordering)
    ensures
        order == code_point_order(a@, b@),
{
    let mut i: usize = 0;
    assert(tail(a@, 0) =~= a@ && tail(b@, 0) =~= b@);
    while i < a.len() && i < b.len()
        invariant
            i <= a.len(),
            i <= b.len(),
            code_point_order(a@, b@) == code_point_order(tail(a@, i), tail(b@, i)),
        decreases a.len() - i,
    {
        proof {
            assert(tail(a@, i).drop_first() =~= tail_after(a@, i));
            assert(tail(b@, i).drop_first() =~= tail_after(b@, i));
        }
        if a[i] < b[i] {
            return Ordering::Less;
        }
        if a[i] > b[i] {
            return Ordering::Greater;
        }
        i = i + 1;
    }
    if i < b.len() {
        Ordering::Less
    } else if i < a.len() {
        Ordering::Greater
    } else {
        Ordering::Equal
    }
}

/// Orders two characters, given the case-folded form of each.
pub fn order_folded(a_char: char, b_char: char, a: &Vec<char>, b: &Vec<char>) -> (order: Ordering)
    ensures
        order == (if a@ == b@ && is_plain_letter(a@) {
            if code(a_char) > code(b_char) {
                Ordering::Less
            } else if code(a_char) < code(b_char) {
                Ordering::Greater
            } else {
                Ordering::Equal
            }
        } else {
            code_point_order(a@, b@)
        }),
{
    let by_fold = compare_code_points(a, b);
    proof {
        lemma_code_point_order_equal(a@, b@);
    }
    let same = match by_fold {
        Ordering::Equal => true,
        _ => false,
    };
    if same && a.len() == 1 && 'a' <= a[0] && a[0] <= 'z' {
        if a_char > b_char {
            Ordering::Less
        } else if a_char < b_char {
            Ordering::Greater
        } else {
            Ordering::Equal
        }
    } else {
        by_fold
    }
}

/// Orders two characters.
pub fn char_cmp(a_char: char, b_char: char) -> (order: Ordering)
    ensures
        order == char_order(a_char, b_char),
{
    let a = fold_case(a_char);
    let b = fold_case(b_char);
    order_folded(a_char, b_char, &a, &b)
}

/// Orders two keys.
pub fn compare_keys(a: &Vec<char>, b: &Vec<char>) -> (order: Ordering)
    ensures
        order == key_order(a@, b@),
{
    let mut i: usize = 0;
    assert(tail(a@, 0) =~= a@ && tail(b@, 0) =~= b@);
    while i < a.len() && i < b.len()
        invariant
            i <= a.len(),
            i <= b.len(),
            key_order(a@, b@) == key_order(tail(a@, i), tail(b@, i)),
        decreases a.len() - i,
    {
        proof {
            assert(tail(a@, i).drop_first() =~= tail_after(a@, i));
            assert(tail(b@, i).drop_first() =~= tail_after(b@, i));
        }
        match char_cmp(a[i], b[i]) {
            Ordering::Less => {
                return Ordering::Less;
            },
            Ordering::Greater => {
                return Ordering::Greater;
            },
            Ordering::Equal => {},
        }
        i = i + 1;
    }
    if i < b.len() {
        Ordering::Less
    } else if i < a.len() {
        Ordering::Greater
    } else {
        Ordering::Equal
    }
}

/// Orders two display names.
pub fn str_cmp(a_raw: &str, b_raw: &str) -> (order: Ordering)
    ensures
        order == name_order(a_raw@, b_raw@),
{
    let a = key_of(a_raw);
    let b = key_of(b_raw);
    compare_keys(&a, &b)
}

/// The same order read from the other side.
pub open spec fn flipped(order: Ordering) -> Ordering {
    match order {
        Ordering::Less => Ordering::Greater,
        Ordering::Equal => Ordering::Equal,
        Ordering::Greater => Ordering::Less,
    }
}

/// Whether `whole` may be the order of a first and a third thing, where
/// `left` is that of the first and the second and `right` that of the second
/// and the third: equal things stand for each other, and two steps in one
/// direction make a step in that direction.
pub open spec fn chained(left: Ordering, right: Ordering, whole: Ordering) -> bool {
    &&& left == Ordering::Equal ==> whole == right
    &&& right == Ordering::Equal ==> whole == left
    &&& left == Ordering::Less && right == Ordering::Less ==> whole == Ordering::Less
    &&& left == Ordering::Greater && right == Ordering::Greater ==> whole == Ordering::Greater
}

/// The order by code points reads the same from both sides.
pub proof fn lemma_code_point_order_flips(a: Seq<char>, b: Seq<char>)
    ensures
        code_point_order(b, a) == flipped(code_point_order(a, b)),
    decreases a.len(),
{
    if a.len() > 0 && b.len() > 0 {
        lemma_code_point_order_flips(a.drop_first(), b.drop_first());
    }
}

/// The order by code points is transitive.
pub proof fn lemma_code_point_order_chains(a: Seq<char>, b: Seq<char>, c: Seq<char>)
    ensures
        chained(code_point_order(a, b), code_point_order(b, c), code_point_order(a, c)),
    decreases a.len(),
{
    if a.len() > 0 && b.len() > 0 && c.len() > 0 {
        lemma_code_point_order_chains(a.drop_first(), b.drop_first(), c.drop_first());
    }
}

/// The order of characters reads the same from both sides.
pub proof fn lemma_char_order_flips(a: char, b: char)
    ensures
        char_order(b, a) == flipped(char_order(a, b)),
{
    lemma_code_point_order_flips(case_fold_of(a), case_fold_of(b));
}

/// The order of characters is transitive.
pub proof fn lemma_char_order_chains(a: char, b: char, c: char)
    ensures
        chained(char_order(a, b), char_order(b, c), char_order(a, c)),
{
    let fa = case_fold_of(a);
    let fb = case_fold_of(b);
    let fc = case_fold_of(c);
    lemma_code_point_order_chains(fa, fb, fc);
    lemma_code_point_order_equal(fa, fb);
    lemma_code_point_order_equal(fb, fc);
    lemma_code_point_order_equal(fa, fc);
}

/// The order of keys reads the same from both sides.
pub proof fn lemma_key_order_flips(a: Seq<char>, b: Seq<char>)
    ensures
        key_order(b, a) == flipped(key_order(a, b)),
    decreases a.len(),
{
    if a.len() > 0 && b.len() > 0 {
        lemma_char_order_flips(a[0], b[0]);
        lemma_key_order_flips(a.drop_first(), b.drop_first());
    }
}

/// The order of keys is transitive.
pub proof fn lemma_key_order_chains(a: Seq<char>, b: Seq<char>, c: Seq<char>)
    ensures
        chained(key_order(a, b), key_order(b, c), key_order(a, c)),
    decreases a.len(),
{
    if a.len() > 0 && b.len() > 0 && c.len() > 0 {
        lemma_char_order_chains(a[0], b[0], c[0]);
        lemma_key_order_chains(a.drop_first(), b.drop_first(), c.drop_first());
    }
}

/// Whether `a` may stand before `b`.
pub open spec fn in_order(a: Seq<char>, b: Seq<char>) -> bool {
    name_order(a, b) != Ordering::Greater
}

/// The order of names is a total preorder: every name is equal to itself, two
/// names compare the same from both sides, and the order is transitive.
pub proof fn lemma_name_order_total(a: Seq<char>, b: Seq<char>, c: Seq<char>)
    ensures
        name_order(a, a) == Ordering::Equal,
        name_order(b, a) == flipped(name_order(a, b)),
        chained(name_order(a, b), name_order(b, c), name_order(a, c)),
        in_order(a, b) || in_order(b, a),
        in_order(a, b) && in_order(b, c) ==> in_order(a, c),
{
    lemma_key_order_flips(collation_key(a), collation_key(a));
    lemma_key_order_flips(collation_key(a), collation_key(b));
    lemma_key_order_chains(collation_key(a), collation_key(b), collation_key(c));
}

/// Whether each name of a list may stand before all that follow it.
pub open spec fn sorted(names: Seq<Seq<char>>) -> bool {
    forall|i: int, j: int| 0 <= i < j < names.len() ==> in_order(names[i], names[j])
}

/// The list with the strings at `i` and at the position before it exchanged.
pub open spec fn exchanged(strings: Seq<String>, i: usize) -> Seq<String> {
    strings.update(i - 1, strings[i as int]).update(i as int, strings[i - 1])
}

/// Exchanging two strings of a list keeps what the list holds.
pub proof fn lemma_exchanged_holds_same(strings: Seq<String>, i: usize)
    requires
        0 < i < strings.len(),
    ensures
        strings_view(exchanged(strings, i)).to_multiset() == strings_view(strings).to_multiset(),
{
    broadcast use vstd::multiset::group_multiset_axioms;

    let names = strings_view(strings);
    let first = names.update(i - 1, names[i as int]);
    let second = first.update(i as int, names[i - 1]);
    assert(strings_view(exchanged(strings, i)) =~= second);
    vstd::seq_lib::to_multiset_update(names, i - 1, names[i as int]);
    vstd::seq_lib::to_multiset_update(first, i as int, names[i - 1]);
    assert(first[i as int] == names[i as int]);
    assert(names.contains(names[i - 1]));
    vstd::seq_lib::to_multiset_contains(names, names[i - 1]);
    assert(second.to_multiset() =~= names.to_multiset());
}

/// The list with the entries at `j` and at the position before it exchanged.
pub open spec fn swapped<A>(list: Seq<A>, j: int) -> Seq<A> {
    list.update(j - 1, list[j]).update(j, list[j - 1])
}

/// Whether `after` holds the names of `before` in another arrangement, the
/// name at each position `i` having come from position `from[i]`.
pub open spec fn rearranged(before: Seq<Seq<char>>, after: Seq<Seq<char>>, from: Seq<int>) -> bool {
    &&& from.len() == before.len()
    &&& after.len() == before.len()
    &&& forall|k: int|
        0 <= k < from.len() ==> 0 <= #[trigger] from[k] < before.len() && after[k] == before[from[k]]
    &&& forall|k: int, l: int| 0 <= k < l < from.len() ==> #[trigger] from[k] != #[trigger] from[l]
}

/// Whether names that are equal in the order stand as they stood before.
pub open spec fn equal_names_in_place(after: Seq<Seq<char>>, from: Seq<int>) -> bool {
    forall|k: int, l: int|
        0 <= k < l < after.len() && name_order(#[trigger] after[k], #[trigger] after[l])
            == Ordering::Equal ==> from[k] < from[l]
}

/// Whether `after` is `before` sorted: it holds the same names, every name
/// may stand before all that follow it, and names that are equal in the order
/// stand as they stood before.
pub open spec fn stably_sorted(before: Seq<Seq<char>>, after: Seq<Seq<char>>) -> bool {
    &&& sorted(after)
    &&& exists|from: Seq<int>| rearranged(before, after, from) && equal_names_in_place(after, from)
}

/// Every position taken as its own origin.
pub open spec fn own_places(len: nat) -> Seq<int> {
    Seq::new(len, |k: int| k)
}

/// What holds while the first `done` names are sorted and the others wait
/// where they were.
pub open spec fn prefix_sorted(
    before: Seq<Seq<char>>,
    names: Seq<Seq<char>>,
    from: Seq<int>,
    done: int,
) -> bool {
    &&& rearranged(before, names, from)
    &&& forall|k: int| done <= k < from.len() ==> #[trigger] from[k] == k
    &&& forall|k: int| 0 <= k < done ==> #[trigger] from[k] < done
    &&& forall|k: int, l: int|
        0 <= k < l < done ==> in_order(#[trigger] names[k], #[trigger] names[l]) && (name_order(
            names[k],
            names[l],
        ) == Ordering::Equal ==> from[k] < from[l])
}

/// What holds while the name that stood at `done` moves down through the
/// sorted names before it and has come to `hole`.
pub open spec fn prefix_sorted_around(
    before: Seq<Seq<char>>,
    names: Seq<Seq<char>>,
    from: Seq<int>,
    done: int,
    hole: int,
) -> bool {
    &&& rearranged(before, names, from)
    &&& forall|k: int| done < k < from.len() ==> #[trigger] from[k] == k
    &&& from[hole] == done
    &&& forall|k: int| 0 <= k <= done && k != hole ==> #[trigger] from[k] < done
    &&& forall|k: int, l: int|
        0 <= k < l <= done && k != hole && l != hole ==> in_order(
            #[trigger] names[k],
            #[trigger] names[l],
        ) && (name_order(names[k], names[l]) == Ordering::Equal ==> from[k] < from[l])
    &&& forall|l: int|
        hole < l <= done ==> name_order(names[hole], #[trigger] names[l]) == Ordering::Less
}

/// The next name starts to move from where it stands.
proof fn lemma_sort_begin(before: Seq<Seq<char>>, names: Seq<Seq<char>>, from: Seq<int>, done: int)
    requires
        prefix_sorted(before, names, from, done),
        0 <= done < names.len(),
    ensures
        prefix_sorted_around(before, names, from, done, done),
{
}

/// A name moves one place down past a name that must stand after it.
proof fn lemma_sort_step(
    before: Seq<Seq<char>>,
    names: Seq<Seq<char>>,
    from: Seq<int>,
    done: int,
    hole: int,
)
    requires
        prefix_sorted_around(before, names, from, done, hole),
        0 < hole <= done < names.len(),
        name_order(names[hole - 1], names[hole]) == Ordering::Greater,
    ensures
        prefix_sorted_around(before, swapped(names, hole), swapped(from, hole), done, hole - 1),
{
    let names2 = swapped(names, hole);
    let from2 = swapped(from, hole);
    lemma_name_order_total(names[hole - 1], names[hole], names[hole]);
    assert forall|k: int| 0 <= k < from2.len() implies 0 <= #[trigger] from2[k] < before.len()
        && names2[k] == before[from2[k]] by {
        let kk = if k == hole { hole - 1 } else if k == hole - 1 { hole } else { k };
        assert(from2[k] == from[kk]);
        assert(names2[k] == names[kk]);
    }
    assert forall|k: int, l: int| 0 <= k < l < from2.len() implies #[trigger] from2[k]
        != #[trigger] from2[l] by {
        let kk = if k == hole { hole - 1 } else if k == hole - 1 { hole } else { k };
        let ll = if l == hole { hole - 1 } else if l == hole - 1 { hole } else { l };
        assert(from2[k] == from[kk]);
        assert(from2[l] == from[ll]);
        if kk < ll {
            assert(from[kk] != from[ll]);
        } else {
            assert(from[ll] != from[kk]);
        }
    }
    assert forall|k: int| done < k < from2.len() implies #[trigger] from2[k] == k by {
        assert(from2[k] == from[k]);
    }
    assert forall|k: int| 0 <= k <= done && k != hole - 1 implies #[trigger] from2[k] < done by {
        let kk = if k == hole { hole - 1 } else { k };
        assert(from2[k] == from[kk]);
    }
    assert forall|k: int, l: int| 0 <= k < l <= done && k != hole - 1 && l != hole - 1 implies in_order(
        #[trigger] names2[k],
        #[trigger] names2[l],
    ) && (name_order(names2[k], names2[l]) == Ordering::Equal ==> from2[k] < from2[l]) by {
        let kk = if k == hole { hole - 1 } else { k };
        let ll = if l == hole { hole - 1 } else { l };
        assert(names2[k] == names[kk] && from2[k] == from[kk]);
        assert(names2[l] == names[ll] && from2[l] == from[ll]);
        assert(in_order(names[kk], names[ll]));
    }
    assert forall|l: int| hole - 1 < l <= done implies name_order(
        names2[hole - 1],
        #[trigger] names2[l],
    ) == Ordering::Less by {
        assert(names2[hole - 1] == names[hole]);
        if l == hole {
            assert(names2[l] == names[hole - 1]);
            lemma_name_order_total(names[hole - 1], names[hole], names[hole]);
        } else {
            assert(names2[l] == names[l]);
        }
    }
}

/// A name has come to rest: nothing stands before it that must stand after
/// it.
proof fn lemma_sort_settle(
    before: Seq<Seq<char>>,
    names: Seq<Seq<char>>,
    from: Seq<int>,
    done: int,
    hole: int,
)
    requires
        prefix_sorted_around(before, names, from, done, hole),
        0 <= hole <= done < names.len(),
        hole > 0 ==> name_order(names[hole - 1], names[hole]) != Ordering::Greater,
    ensures
        prefix_sorted(before, names, from, done + 1),
{
    assert forall|k: int, l: int| 0 <= k < l < done + 1 implies in_order(
        #[trigger] names[k],
        #[trigger] names[l],
    ) && (name_order(names[k], names[l]) == Ordering::Equal ==> from[k] < from[l]) by {
        if l == hole {
            if k < hole - 1 {
                assert(in_order(names[k], names[hole - 1]));
            }
            lemma_name_order_total(names[k], names[hole - 1], names[hole]);
            assert(from[k] < done);
        } else if k == hole {
            assert(name_order(names[hole], names[l]) == Ordering::Less);
        } else {
        }
    }
    assert forall|k: int| 0 <= k < done + 1 implies #[trigger] from[k] < done + 1 by {
        if k != hole {
            assert(from[k] < done);
        }
    }
}

/// Sorts display names for presentation. The list holds afterwards what it
/// held before, each name as often; every name may stand before all that
/// follow it; and names that are equal in the order stand as they stood
/// before.
pub fn inaccurate_sort(strings: &mut Vec<String>)
    ensures
        strings_view(final(strings)@).to_multiset() == strings_view(old(strings)@).to_multiset(),
        stably_sorted(strings_view(old(strings)@), strings_view(final(strings)@)),
{
    let n: usize = strings.len();
    let ghost before = strings_view(strings@);
    let ghost mut from: Seq<int> = own_places(before.len());
    let mut i: usize = 0;
    while i < n
        invariant
            n == strings@.len(),
            i <= n,
            before == strings_view(old(strings)@),
            strings_view(strings@).to_multiset() == before.to_multiset(),
            prefix_sorted(before, strings_view(strings@), from, i + 0),
        decreases n - i,
    {
        let mut j: usize = i;
        let mut settled: bool = false;
        proof {
            lemma_sort_begin(before, strings_view(strings@), from, i + 0);
        }
        while j > 0 && !settled
            invariant
                n == strings@.len(),
                j <= i < n,
                strings_view(strings@).to_multiset() == before.to_multiset(),
                prefix_sorted_around(before, strings_view(strings@), from, i + 0, j + 0),
                settled ==> j > 0 && name_order(
                    strings_view(strings@)[j - 1],
                    strings_view(strings@)[j + 0],
                ) != Ordering::Greater,
            decreases j + if settled { 0int } else { 1int },
        {
            let lower = strings[j - 1].clone();
            let upper = strings[j].clone();
            match str_cmp(lower.as_str(), upper.as_str()) {
                Ordering::Greater => {
                    let ghost was = strings@;
                    strings.set(j - 1, upper);
                    strings.set(j, lower);
                    proof {
                        assert(strings@ =~= exchanged(was, j));
                        lemma_exchanged_holds_same(was, j);
                        assert(strings_view(strings@) =~= swapped(strings_view(was), j + 0));
                        lemma_sort_step(before, strings_view(was), from, i + 0, j + 0);
                        from = swapped(from, j + 0);
                    }
                    j = j - 1;
                },
                _ => {
                    settled = true;
                },
            }
        }
        proof {
            lemma_sort_settle(before, strings_view(strings@), from, i + 0, j + 0);
        }
        i = i + 1;
    }
    proof {
        let names = strings_view(strings@);
        assert(sorted(names)) by {
            assert forall|k: int, l: int| 0 <= k < l < names.len() implies in_order(
                names[k],
                names[l],
            ) by {
                assert(in_order(names[k], names[l]));
            }
        }
        assert(rearranged(before, names, from) && equal_names_in_place(names, from));
    }
}

} // verus!

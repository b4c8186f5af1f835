//! Lines of a text and keyed lookup in a list, the two tools the other
//! modules share.

use vstd::prelude::*;
use vstd::std_specs::iter::IteratorSpec;
use vstd::string::*;

verus! {

/// The lines of `text`: the pieces between its line feeds, in order. A text
/// with `n` line feeds has `n + 1` lines, the last of which may be empty.
pub open spec fn split_lines(text: Seq<char>) -> Seq<Seq<char>>
    decreases text.len(),
{
    if text.len() == 0 {
        seq![Seq::empty()]
    } else {
        let before = split_lines(text.drop_last());
        if text.last() == '\n' {
            before.push(Seq::empty())
        } else {
            before.drop_last().push(before.last().push(text.last()))
        }
    }
}

/// What a list of string slices holds.
pub open spec fn slices_view(lines: Seq<&str>) -> Seq<Seq<char>> {
    Seq::new(lines.len(), |i: int| lines[i]@)
}

/// The characters of an optional string.
pub open spec fn text_of(s: Option<String>) -> Option<Seq<char>> {
    match s {
        Some(t) => Some(t@),
        None => None,
    }
}

/// What a list of strings holds.
pub open spec fn strings_view(strings: Seq<String>) -> Seq<Seq<char>> {
    Seq::new(strings.len(), |i: int| strings[i]@)
}

/// Every text has at least one line.
pub proof fn lemma_split_lines_nonempty(text: Seq<char>)
    ensures
        split_lines(text).len() >= 1,
    decreases text.len(),
{
    if text.len() > 0 {
        lemma_split_lines_nonempty(text.drop_last());
    }
}

/// The lines put together again, with a line feed between each two.
pub open spec fn join_lines(lines: Seq<Seq<char>>) -> Seq<char>
    decreases lines.len(),
{
    if lines.len() == 0 {
        Seq::empty()
    } else if lines.len() == 1 {
        lines[0]
    } else {
        join_lines(lines.drop_last()) + seq!['\n'] + lines.last()
    }
}

/// The lines of a text are the text: put together again they give it back,
/// and none of them holds a line feed.
pub proof fn lemma_split_lines_exact(text: Seq<char>)
    ensures
        join_lines(split_lines(text)) == text,
        forall|i: int|
            0 <= i < split_lines(text).len() ==> !(#[trigger] split_lines(text)[i]).contains('\n'),
    decreases text.len(),
{
    if text.len() == 0 {
        assert forall|i: int| 0 <= i < split_lines(text).len() implies !(#[trigger] split_lines(
            text,
        )[i]).contains('\n') by {
            assert(split_lines(text)[i] =~= Seq::<char>::empty());
        }
    } else {
        let front = text.drop_last();
        let c = text.last();
        let before = split_lines(front);
        let now = split_lines(text);
        lemma_split_lines_exact(front);
        lemma_split_lines_nonempty(front);
        assert(text =~= front.push(c));
        if c == '\n' {
            assert(now.drop_last() =~= before);
            assert(join_lines(now) =~= join_lines(before) + seq!['\n'] + Seq::<char>::empty());
            assert(join_lines(now) =~= text);
            assert forall|i: int| 0 <= i < now.len() implies !(#[trigger] now[i]).contains(
                '\n',
            ) by {
                if i < before.len() {
                    assert(now[i] == before[i]);
                } else {
                    assert(now[i] =~= Seq::<char>::empty());
                }
            }
        } else {
            let grown = before.last().push(c);
            assert(now.last() == grown);
            if before.len() == 1 {
                assert(before.last() == before[0]);
                assert(join_lines(now) =~= text);
            } else {
                assert(now.drop_last() =~= before.drop_last());
                assert(join_lines(now) =~= (join_lines(before.drop_last()) + seq!['\n']
                    + before.last()).push(c));
                assert(join_lines(now) =~= text);
            }
            assert forall|i: int| 0 <= i < now.len() implies !(#[trigger] now[i]).contains(
                '\n',
            ) by {
                if i < before.len() - 1 {
                    assert(now[i] == before[i]);
                } else {
                    assert(now[i] == grown);
                    assert(!before[before.len() - 1].contains('\n'));
                    if grown.contains('\n') {
                        let k = choose|k: int| 0 <= k < grown.len() && grown[k] == '\n';
                        assert(before.last()[k] == '\n');
                    }
                }
            }
        }
    }
}

/// Cuts `data` at its line feeds.
pub fn lines<'a>(data: &'a str) -> (out: Vec<&'a str>)
    ensures
        slices_view(out@) == split_lines(data@),
{
    broadcast use vstd::string::next_postcondition, vstd::string::axiom_spec_iter;
    let n: usize = data.unicode_len();
    let mut out: Vec<&'a str> = Vec::new();
    let mut it = data.chars();
    let mut i: usize = 0;
    let mut start: usize = 0;
    assert(data@.skip(0) =~= data@);
    assert(data@.take(0) =~= Seq::<char>::empty());
    assert(slices_view(out@).push(data@.subrange(0, 0)) =~= seq![Seq::<char>::empty()]);
    loop
        invariant
            n == data@.len(),
            start <= i <= n,
            it.obeys_prophetic_iter_laws(),
            it.remaining() == data@.skip(i as int),
            split_lines(data@.take(i as int)) == slices_view(out@).push(
                data@.subrange(start as int, i as int),
            ),
        ensures
            i == n,
        decreases n - i,
    {
        let ghost before = it;
        let next = it.next();
        match next {
            Some(c) => {
                proof {
                    assert(before.remaining().len() > 0);
                    assert(c == data@[i as int]);
                    assert(data@.skip(i as int).drop_first() =~= data@.skip(i + 1));
                    let t = data@.take(i + 1);
                    assert(t.drop_last() =~= data@.take(i as int));
                    assert(t.last() == c);
                    lemma_split_lines_nonempty(data@.take(i as int));
                }
                if c == '\n' {
                    let piece = data.substring_char(start, i);
                    let ghost done = slices_view(out@);
                    out.push(piece);
                    proof {
                        assert(slices_view(out@) =~= done.push(piece@));
                        assert(data@.subrange(i + 1, i + 1) =~= Seq::<char>::empty());
                    }
                    start = i + 1;
                } else {
                    proof {
                        let s = slices_view(out@).push(data@.subrange(start as int, i as int));
                        assert(s.drop_last() =~= slices_view(out@));
                        assert(s.last().push(c) =~= data@.subrange(start as int, i + 1));
                    }
                }
                i = i + 1;
            },
            None => {
                assert(before.remaining().len() == 0);
                break ;
            },
        }
    }
    assert(i == n);
    assert(data@.take(n as int) =~= data@);
    let piece = data.substring_char(start, n);
    let ghost done = slices_view(out@);
    out.push(piece);
    assert(slices_view(out@) =~= done.push(piece@));
    out
}

/// The last position at which `key` stands in `keys`, if it stands there at
/// all: a later entry of a list shadows an earlier one with the same key.
pub open spec fn last_match<K>(keys: Seq<K>, key: K) -> Option<int>
    decreases keys.len(),
{
    if keys.len() == 0 {
        None
    } else if keys.last() == key {
        Some(keys.len() - 1)
    } else {
        last_match(keys.drop_last(), key)
    }
}

/// `last_match` finds a position that holds the key, and nothing after that
/// position holds it; it finds nothing only where no position holds the key.
pub proof fn lemma_last_match<K>(keys: Seq<K>, key: K)
    ensures
        match last_match(keys, key) {
            Some(i) => 0 <= i < keys.len() && keys[i] == key && forall|j: int|
                i < j < keys.len() ==> keys[j] != key,
            None => forall|j: int| 0 <= j < keys.len() ==> keys[j] != key,
        },
    decreases keys.len(),
{
    if keys.len() > 0 && keys.last() != key {
        let front = keys.drop_last();
        lemma_last_match(front, key);
        assert forall|j: int| 0 <= j < front.len() implies front[j] == keys[j] by {}
        match last_match(front, key) {
            Some(i) => {
                assert forall|j: int| i < j < keys.len() implies keys[j] != key by {
                    if j < front.len() {
                        assert(front[j] != key);
                    }
                }
            },
            None => {
                assert forall|j: int| 0 <= j < keys.len() implies keys[j] != key by {
                    if j < front.len() {
                        assert(front[j] != key);
                    }
                }
            },
        }
    }
}

/// After one more entry, the new key is found at the new position and every
/// other key where it was.
pub proof fn lemma_last_match_push<K>(keys: Seq<K>, added: K, key: K)
    ensures
        last_match(keys.push(added), key) == if key == added {
            Some(keys.len() as int)
        } else {
            last_match(keys, key)
        },
{
    assert(keys.push(added).drop_last() =~= keys);
}

} // verus!

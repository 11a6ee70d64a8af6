//! One line of an embedding table: the text of a candidate, a tab, and the
//! components of its vector as written out, separated by commas.

use vstd::prelude::*;
use vstd::string::StringExecFns;
use crate::lexical::{find_char_from, index_from, lemma_index_from};
use crate::text::{chars_of, string_of, texts};

verus! {

/// Stands between the text and the components.
pub const FIELD_SEPARATOR: char = '\t';

/// Stands between one component and the next.
pub const COMPONENT_SEPARATOR: char = ',';

/// Ends a record.
pub const RECORD_END: char = '\n';

/// The pieces of `s` between the occurrences of `sep`, read from left to
/// right: a separator closes the piece before it and opens an empty one,
/// any other character goes to the end of the open piece. There is always
/// at least one piece.
pub open spec fn pieces(s: Seq<char>, sep: char) -> Seq<Seq<char>>
    decreases s.len(),
{
    if s.len() == 0 {
        seq![Seq::empty()]
    } else {
        let before = pieces(s.drop_last(), sep);
        if s.last() == sep {
            before.push(Seq::empty())
        } else {
            before.drop_last().push(before.last().push(s.last()))
        }
    }
}

/// The pieces written one after the other with `sep` between them.
pub open spec fn joined(list: Seq<Seq<char>>, sep: char) -> Seq<char>
    decreases list.len(),
{
    if list.len() == 0 {
        Seq::empty()
    } else if list.len() == 1 {
        list[0]
    } else {
        joined(list.drop_last(), sep).push(sep) + list.last()
    }
}

/// `sep` does not stand in `s`.
pub open spec fn free_of(s: Seq<char>, sep: char) -> bool {
    forall|i: int| 0 <= i < s.len() ==> s[i] != sep
}

/// The components written in `rest`: none where nothing is written, and
/// otherwise the pieces between the commas.
pub open spec fn components_of(rest: Seq<char>) -> Seq<Seq<char>> {
    if rest.len() == 0 {
        Seq::empty()
    } else {
        pieces(rest, COMPONENT_SEPARATOR)
    }
}

/// What a line holds: nothing where it has no tab; otherwise the text
/// before the first tab and the components written after it.
pub open spec fn record_of(line: Seq<char>) -> Option<(Seq<char>, Seq<Seq<char>>)> {
    match index_from(line, FIELD_SEPARATOR, 0) {
        None => None,
        Some(p) => Some((line.take(p), components_of(line.skip(p + 1)))),
    }
}

/// The line for a text and its components, without the end of the record.
pub open spec fn record_text(text: Seq<char>, components: Seq<Seq<char>>) -> Seq<char> {
    text.push(FIELD_SEPARATOR) + joined(components, COMPONENT_SEPARATOR)
}

/// The view of a record that may be missing.
pub open spec fn record_view(found: Option<(String, Vec<String>)>) -> Option<
    (Seq<char>, Seq<Seq<char>>),
> {
    match found {
        Some(r) => Some((r.0@, texts(r.1@))),
        None => None,
    }
}

/// Splits a line into the text and the components as they are written.
/// A line without a tab holds no record; a line with nothing after the tab
/// holds a record without components.
pub fn split_record(line: &str) -> (found: Option<(String, Vec<String>)>)
    ensures
        record_view(found) == record_of(line@),
{
    let chars = chars_of(line);
    let tab = match find_char_from(chars.as_slice(), FIELD_SEPARATOR, 0) {
        None => {
            return None;
        },
        Some(p) => p,
    };
    proof {
        lemma_index_from(chars@, FIELD_SEPARATOR, 0);
    }
    let text = string_of(chars.as_slice(), 0, tab);
    let first: usize = tab + 1;
    let ghost rest = chars@.skip(first as int);
    let mut components: Vec<String> = Vec::new();
    if first == chars.len() {
        proof {
            assert(chars@.take(tab as int) =~= chars@.subrange(0, tab as int));
            assert(texts(components@) =~= Seq::<Seq<char>>::empty());
        }
        return Some((text, components));
    }
    let mut start: usize = first;
    let mut i: usize = first;
    proof {
        assert(rest.take(0) =~= Seq::<char>::empty());
        assert(texts(components@) =~= Seq::<Seq<char>>::empty());
        assert(chars@.subrange(start as int, i as int) =~= Seq::<char>::empty());
        assert(pieces(rest.take(0), COMPONENT_SEPARATOR) =~= seq![Seq::<char>::empty()]);
        assert(texts(components@).push(chars@.subrange(start as int, i as int)) =~= pieces(
            rest.take(0),
            COMPONENT_SEPARATOR,
        ));
    }
    while i < chars.len()
        invariant
            first <= start <= i <= chars.len(),
            rest == chars@.skip(first as int),
            pieces(rest.take(i - first), COMPONENT_SEPARATOR) == texts(components@).push(
                chars@.subrange(start as int, i as int),
            ),
        decreases chars.len() - i,
    {
        let ghost open = chars@.subrange(start as int, i as int);
        let ghost closed = texts(components@);
        proof {
            assert(rest.take(i + 1 - first).drop_last() =~= rest.take(i - first));
            assert(rest.take(i + 1 - first).last() == chars@[i as int]);
            assert(closed.push(open).drop_last() =~= closed);
        }
        if chars[i] == COMPONENT_SEPARATOR {
            let piece = string_of(chars.as_slice(), start, i);
            components.push(piece);
            start = i + 1;
            proof {
                assert(texts(components@) =~= closed.push(open));
                assert(chars@.subrange(start as int, i + 1) =~= Seq::<char>::empty());
            }
        } else {
            proof {
                assert(chars@.subrange(start as int, i + 1) =~= open.push(chars@[i as int]));
            }
        }
        i += 1;
    }
    let ghost closed = texts(components@);
    let piece = string_of(chars.as_slice(), start, i);
    components.push(piece);
    proof {
        assert(rest.take(i - first) =~= rest);
        assert(texts(components@) =~= closed.push(piece@));
        assert(chars@.take(tab as int) =~= chars@.subrange(0, tab as int));
    }
    Some((text, components))
}

/// Writes a record: the text, a tab, the components with commas between
/// them, and the end of the line.
pub fn join_record(text: &str, components: &[String]) -> (line: String)
    ensures
        line@ == record_text(text@, texts(components@)).push(RECORD_END),
{
    let mut line = String::from_str(text);
    line.push(FIELD_SEPARATOR);
    let ghost head = text@.push(FIELD_SEPARATOR);
    let mut i: usize = 0;
    assert(texts(components@).take(0) =~= Seq::<Seq<char>>::empty());
    assert(head + Seq::<char>::empty() =~= head);
    while i < components.len()
        invariant
            i <= components.len(),
            head == text@.push(FIELD_SEPARATOR),
            line@ == head + joined(texts(components@).take(i as int), COMPONENT_SEPARATOR),
        decreases components.len() - i,
    {
        let ghost before = joined(texts(components@).take(i as int), COMPONENT_SEPARATOR);
        proof {
            assert(texts(components@).take(i + 1).drop_last() =~= texts(components@).take(
                i as int,
            ));
            assert(texts(components@).take(i + 1).last() == components@[i as int]@);
        }
        if i > 0 {
            line.push(COMPONENT_SEPARATOR);
        }
        line.append(components[i].as_str());
        proof {
            if i > 0 {
                assert(line@ =~= head + (before.push(COMPONENT_SEPARATOR) + components@[i as int]@));
            } else {
                assert(before =~= Seq::<char>::empty());
                assert(line@ =~= head + components@[i as int]@);
            }
        }
        i += 1;
    }
    assert(texts(components@).take(i as int) =~= texts(components@));
    line.push(RECORD_END);
    line
}

/// A piece without the separator goes to the end of the last piece, or
/// stands alone behind a separator.
proof fn lemma_pieces_append(a: Seq<char>, b: Seq<char>, sep: char)
    requires
        free_of(b, sep),
    ensures
        pieces(a.push(sep) + b, sep) == pieces(a, sep).push(b),
        pieces(b, sep) == seq![b],
    decreases b.len(),
{
    if b.len() == 0 {
        assert(a.push(sep) + b =~= a.push(sep));
        assert(a.push(sep).drop_last() =~= a);
        assert(b =~= Seq::<char>::empty());
    } else {
        lemma_pieces_append(a, b.drop_last(), sep);
        assert((a.push(sep) + b).drop_last() =~= a.push(sep) + b.drop_last());
        assert(pieces(a, sep).push(b.drop_last()).drop_last() =~= pieces(a, sep));
        assert(b.drop_last().push(b.last()) =~= b);
        assert(seq![b.drop_last()].drop_last().push(b) =~= seq![b]);
    }
}

/// Joining pieces that are free of the separator and splitting the result
/// gives the pieces back.
pub proof fn lemma_pieces_of_joined(list: Seq<Seq<char>>, sep: char)
    requires
        list.len() >= 1,
        forall|i: int| 0 <= i < list.len() ==> free_of(#[trigger] list[i], sep),
    ensures
        pieces(joined(list, sep), sep) == list,
    decreases list.len(),
{
    if list.len() == 1 {
        lemma_pieces_append(Seq::empty(), list[0], sep);
        assert(seq![list[0]] =~= list);
    } else {
        lemma_pieces_of_joined(list.drop_last(), sep);
        lemma_pieces_append(joined(list.drop_last(), sep), list.last(), sep);
        assert(list.drop_last().push(list.last()) =~= list);
    }
}

/// A record that was written is read back as it was: the text, where it
/// holds no tab, and the components, where each holds something and none
/// holds a comma.
pub proof fn lemma_record_round_trip(text: Seq<char>, components: Seq<Seq<char>>)
    requires
        free_of(text, FIELD_SEPARATOR),
        forall|i: int|
            0 <= i < components.len() ==> (#[trigger] components[i]).len() > 0 && free_of(
                components[i],
                COMPONENT_SEPARATOR,
            ),
    ensures
        record_of(record_text(text, components)) == Some((text, components)),
{
    let line = record_text(text, components);
    let tab = text.len() as int;
    lemma_index_from(line, FIELD_SEPARATOR, 0);
    assert(line[tab] == FIELD_SEPARATOR);
    assert forall|r: int| 0 <= r < tab implies line[r] != FIELD_SEPARATOR by {
        assert(line[r] == text[r]);
    }
    assert(index_from(line, FIELD_SEPARATOR, 0) == Some(tab));
    assert(line.take(tab) =~= text);
    assert(line.skip(tab + 1) =~= joined(components, COMPONENT_SEPARATOR));
    if components.len() > 0 {
        assert(components.last().len() > 0);
        lemma_pieces_of_joined(components, COMPONENT_SEPARATOR);
    } else {
        assert(components =~= Seq::<Seq<char>>::empty());
    }
}

} // verus!

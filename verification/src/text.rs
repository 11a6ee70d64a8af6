//! Strings as sequences of characters.

use vstd::prelude::*;
use crate::suggestion::{as_positions, lemma_as_positions_push, never_falls, within};

verus! {

/// What `str::to_lowercase` makes of a sequence of characters.
pub uninterp spec fn lowercased(s: Seq<char>) -> Seq<char>;

/// Calls `str::to_lowercase`. The result depends on the characters of `s`
/// alone; `lowercased` is the name of that dependency.
#[verifier::external_body]
pub(crate) fn lowercase(s: &str) -> (r: String)
    ensures
        r@ == lowercased(s@),
{
    s.to_lowercase()
}

/// The characters of `s`, in order.
pub fn chars_of(s: &str) -> (v: Vec<char>)
    ensures
        v@ == s@,
{
    let mut v: Vec<char> = Vec::new();
    for c in it: s.chars()
        invariant
            it.seq() == s@,
            v@ == it.seq().take(it.index() as int),
    {
        v.push(c);
    }
    v
}

/// `String::push` appends one character to the end of the string.
pub assume_specification[ String::push ](s: &mut String, ch: char)
    ensures
        final(s)@ == old(s)@.push(ch),
;

/// `String::pop` takes the last character off the string and returns it,
/// and returns nothing where the string is empty.
pub assume_specification[ String::pop ](s: &mut String) -> (last: Option<char>)
    ensures
        old(s)@.len() == 0 ==> last is None && final(s)@ == old(s)@,
        old(s)@.len() > 0 ==> last == Some(old(s)@.last()) && final(s)@ == old(s)@.drop_last(),
;

/// The characters of `chars` from `from` up to `to`, as a string.
pub fn string_of(chars: &[char], from: usize, to: usize) -> (s: String)
    requires
        from <= to <= chars.len(),
    ensures
        s@ == chars@.subrange(from as int, to as int),
{
    let mut s = String::new();
    let mut i: usize = from;
    while i < to
        invariant
            from <= i <= to <= chars.len(),
            s@ == chars@.subrange(from as int, i as int),
        decreases to - i,
    {
        s.push(chars[i]);
        assert(chars@.subrange(from as int, i + 1) =~= chars@.subrange(from as int, i as int).push(
            chars@[i as int],
        ));
        i += 1;
    }
    s
}

/// The lowercase form of one character: what `str::to_lowercase` makes of
/// the string that holds it alone.
pub open spec fn folded_char(c: char) -> Seq<char> {
    lowercased(seq![c])
}

/// A text with case folded away: the lowercase forms of its characters,
/// one after the other.
pub open spec fn folded(s: Seq<char>) -> Seq<char>
    decreases s.len(),
{
    if s.len() == 0 {
        Seq::empty()
    } else {
        folded(s.drop_last()) + folded_char(s.last())
    }
}

/// For each character of `folded(s)`, the position in `s` of the character
/// whose lowercase form it belongs to.
pub open spec fn origins(s: Seq<char>) -> Seq<int>
    decreases s.len(),
{
    if s.len() == 0 {
        Seq::empty()
    } else {
        origins(s.drop_last()) + Seq::new(folded_char(s.last()).len(), |j: int| s.len() - 1)
    }
}

/// Each folded character has an origin; the origins are positions of the
/// text and never fall.
pub proof fn lemma_origins(s: Seq<char>)
    ensures
        origins(s).len() == folded(s).len(),
        within(origins(s), s.len()),
        never_falls(origins(s)),
    decreases s.len(),
{
    if s.len() > 0 {
        lemma_origins(s.drop_last());
    }
}

/// A folded text: its characters, and for each of them the position, in
/// the text it was folded from, of the character it came from.
pub struct Folded {
    pub chars: Vec<char>,
    pub origins: Vec<usize>,
}

impl Folded {
    /// Every folded character has an origin among the first `len`
    /// positions, and the origins never fall.
    pub open spec fn maps_into(&self, len: nat) -> bool {
        &&& self.origins@.len() == self.chars@.len()
        &&& within(as_positions(self.origins@), len)
        &&& never_falls(as_positions(self.origins@))
    }
}

/// The form in which a text is matched: its lowercase form, where that
/// has as many characters as the lowercase forms of its characters taken
/// one by one, so that each has an origin; those forms joined otherwise.
pub open spec fn case_form(s: Seq<char>) -> Seq<char> {
    if lowercased(s).len() == folded(s).len() {
        lowercased(s)
    } else {
        folded(s)
    }
}

/// An empty text has an empty form.
pub proof fn lemma_case_form_empty(s: Seq<char>)
    requires
        s.len() == 0,
    ensures
        case_form(s) == Seq::<char>::empty(),
{
    assert(case_form(s) =~= Seq::<char>::empty());
}

/// Folds the case of `s` away and keeps for each character of the result
/// the position of the character of `s` it came from. The characters are
/// those of the lowercase form of the whole of `s`; the origins are
/// counted from the lowercase forms of its characters one by one.
pub fn fold(s: &str) -> (f: Folded)
    ensures
        f.chars@ == case_form(s@),
        as_positions(f.origins@) == origins(s@),
        f.maps_into(s@.len()),
{
    let chars = chars_of(s);
    let mut out: Vec<char> = Vec::new();
    let mut from: Vec<usize> = Vec::new();
    let mut i: usize = 0;
    proof {
        assert(as_positions(from@) =~= Seq::<int>::empty());
    }
    while i < chars.len()
        invariant
            i <= chars.len(),
            out@ == folded(chars@.take(i as int)),
            as_positions(from@) == origins(chars@.take(i as int)),
        decreases chars.len() - i,
    {
        let mut one = String::new();
        one.push(chars[i]);
        let lower = lowercase(one.as_str());
        let piece = chars_of(lower.as_str());
        let ghost out_before = out@;
        let ghost from_before = as_positions(from@);
        proof {
            assert(one@ =~= seq![chars@[i as int]]);
            assert(chars@.take(i + 1).drop_last() =~= chars@.take(i as int));
            assert(out_before + piece@.take(0) =~= out_before);
            assert(from_before + Seq::new(0, |j: int| i as int) =~= from_before);
        }
        let mut k: usize = 0;
        while k < piece.len()
            invariant
                k <= piece.len(),
                out@ == out_before + piece@.take(k as int),
                as_positions(from@) == from_before + Seq::new(k as nat, |j: int| i as int),
            decreases piece.len() - k,
        {
            let ghost from_now = from@;
            out.push(piece[k]);
            from.push(i);
            proof {
                lemma_as_positions_push(from_now, i);
                assert(out@ =~= out_before + piece@.take(k + 1));
                assert(as_positions(from@) =~= from_before + Seq::new(
                    (k + 1) as nat,
                    |j: int| i as int,
                ));
            }
            k += 1;
        }
        proof {
            assert(piece@.take(k as int) =~= piece@);
            assert(Seq::new(k as nat, |j: int| i as int) =~= Seq::new(
                piece@.len(),
                |j: int| chars@.take(i + 1).len() - 1,
            ));
        }
        i += 1;
    }
    proof {
        assert(chars@.take(i as int) =~= chars@);
        lemma_origins(s@);
        assert(from@.len() == as_positions(from@).len());
    }
    let lower = lowercase(s);
    let whole = chars_of(lower.as_str());
    if whole.len() == out.len() {
        Folded { chars: whole, origins: from }
    } else {
        Folded { chars: out, origins: from }
    }
}

/// The texts of a list of strings, as sequences of characters.
pub open spec fn texts(list: Seq<String>) -> Seq<Seq<char>> {
    list.map_values(|s: String| s@)
}

} // verus!

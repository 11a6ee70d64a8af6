//! Edit distance between two sequences of characters.

use vstd::prelude::*;
use crate::text::chars_of;

verus! {

/// The smallest of three numbers.
pub open spec fn min3(x: nat, y: nat, z: nat) -> nat {
    if x <= y && x <= z {
        x
    } else if y <= z {
        y
    } else {
        z
    }
}

/// What replacing `x` by `y` costs: nothing where they are the same
/// character, one edit otherwise.
pub open spec fn substitution_cost(x: char, y: char) -> nat {
    if x == y {
        0
    } else {
        1
    }
}

/// The Levenshtein distance: the least number of insertions, deletions and
/// substitutions of single characters that turn `a` into `b`.
///
/// The last step of a cheapest edit either deletes the last character of
/// `a`, inserts the last character of `b`, or lines the two last characters
/// up with one another.
pub open spec fn edit_distance(a: Seq<char>, b: Seq<char>) -> nat
    decreases a.len() + b.len(),
{
    if a.len() == 0 {
        b.len()
    } else if b.len() == 0 {
        a.len()
    } else {
        min3(
            edit_distance(a.drop_last(), b) + 1,
            edit_distance(a, b.drop_last()) + 1,
            edit_distance(a.drop_last(), b.drop_last()) + substitution_cost(a.last(), b.last()),
        )
    }
}

/// The distance does not depend on the direction of the edit.
pub proof fn lemma_edit_distance_symmetric(a: Seq<char>, b: Seq<char>)
    ensures
        edit_distance(a, b) == edit_distance(b, a),
    decreases a.len() + b.len(),
{
    if a.len() > 0 && b.len() > 0 {
        lemma_edit_distance_symmetric(a.drop_last(), b);
        lemma_edit_distance_symmetric(a, b.drop_last());
        lemma_edit_distance_symmetric(a.drop_last(), b.drop_last());
    }
}

/// A sequence is at distance zero from itself.
pub proof fn lemma_edit_distance_reflexive(a: Seq<char>)
    ensures
        edit_distance(a, a) == 0,
    decreases a.len(),
{
    if a.len() > 0 {
        lemma_edit_distance_reflexive(a.drop_last());
    }
}

/// From the empty sequence every character of `b` has to be inserted, and
/// to the empty sequence every character has to be deleted.
pub proof fn lemma_edit_distance_empty(b: Seq<char>)
    ensures
        edit_distance(Seq::<char>::empty(), b) == b.len(),
        edit_distance(b, Seq::<char>::empty()) == b.len(),
{
}

/// No edit needs more steps than the longer sequence has characters, and
/// none gets by with fewer than the difference of the two lengths.
pub proof fn lemma_edit_distance_bounds(a: Seq<char>, b: Seq<char>)
    ensures
        edit_distance(a, b) <= a.len() || edit_distance(a, b) <= b.len(),
        a.len() - b.len() <= edit_distance(a, b),
        b.len() - a.len() <= edit_distance(a, b),
    decreases a.len() + b.len(),
{
    if a.len() > 0 && b.len() > 0 {
        lemma_edit_distance_bounds(a.drop_last(), b);
        lemma_edit_distance_bounds(a, b.drop_last());
        lemma_edit_distance_bounds(a.drop_last(), b.drop_last());
    }
}

/// The distance between the first `i` characters of `a` and the first `j`
/// characters of `b`: one cell of the dynamic-programming table.
pub open spec fn prefix_distance(a: Seq<char>, b: Seq<char>, i: int, j: int) -> nat {
    edit_distance(a.take(i), b.take(j))
}

proof fn lemma_prefix_distance_step(a: Seq<char>, b: Seq<char>, i: int, j: int)
    requires
        0 <= i < a.len(),
        0 <= j < b.len(),
    ensures
        prefix_distance(a, b, i + 1, j + 1) == min3(
            prefix_distance(a, b, i, j + 1) + 1,
            prefix_distance(a, b, i + 1, j) + 1,
            prefix_distance(a, b, i, j) + substitution_cost(a[i], b[j]),
        ),
        prefix_distance(a, b, i, j) <= i || prefix_distance(a, b, i, j) <= j,
{
    assert(a.take(i + 1).drop_last() =~= a.take(i));
    assert(b.take(j + 1).drop_last() =~= b.take(j));
    lemma_edit_distance_bounds(a.take(i), b.take(j));
}

/// The first row of the table: from nothing to each prefix of `b`. The
/// entry at `k` is the cell of column `k + 1`; column 0 of row `i` holds
/// `i` and is not stored.
fn first_row(b: &[char], Ghost(a): Ghost<Seq<char>>) -> (row: Vec<usize>)
    ensures
        row.len() == b.len(),
        forall|k: int| 0 <= k < b.len() ==> row[k] == prefix_distance(a, b@, 0, k + 1),
{
    let n: usize = b.len();
    let mut row: Vec<usize> = Vec::new();
    let mut j: usize = 0;
    while j < n
        invariant
            j <= n,
            row.len() == j,
            forall|k: int| 0 <= k < j ==> row[k] == k + 1,
        decreases n - j,
    {
        row.push(j + 1);
        j += 1;
    }
    assert forall|k: int| 0 <= k < n implies row[k] == prefix_distance(a, b@, 0, k + 1) by {
        assert(a.take(0).len() == 0);
    }
    row
}

/// Turns row `i` of the table into row `i + 1`, where `ca` is the
/// character of `a` at `i`.
fn next_row(row: &mut Vec<usize>, ca: char, b: &[char], i: usize, Ghost(a): Ghost<Seq<char>>)
    requires
        i < a.len(),
        i < usize::MAX,
        a[i as int] == ca,
        old(row).len() == b.len(),
        forall|k: int|
            0 <= k < b.len() ==> old(row)[k] == prefix_distance(a, b@, i as int, k + 1),
    ensures
        final(row).len() == b.len(),
        forall|k: int| 0 <= k < b.len() ==> final(row)[k] == prefix_distance(a, b@, i + 1, k + 1),
{
    let n: usize = b.len();
    let mut diagonal: usize = i;
    let mut left: usize = i + 1;
    assert(b@.take(0).len() == 0);
    let mut j: usize = 0;
    while j < n
        invariant
            n == b.len(),
            i < a.len(),
            i < usize::MAX,
            a[i as int] == ca,
            j <= n,
            row.len() == n,
            diagonal == prefix_distance(a, b@, i as int, j as int),
            left == prefix_distance(a, b@, i + 1, j as int),
            forall|k: int| 0 <= k < j ==> row[k] == prefix_distance(a, b@, i + 1, k + 1),
            forall|k: int| j <= k < n ==> row[k] == prefix_distance(a, b@, i as int, k + 1),
        decreases n - j,
    {
        proof {
            lemma_prefix_distance_step(a, b@, i as int, j as int);
        }
        let up: usize = row[j];
        let side: usize = if up <= left {
            up
        } else {
            left
        };
        let best: usize = if diagonal <= side {
            if ca == b[j] {
                diagonal
            } else {
                diagonal + 1
            }
        } else {
            side + 1
        };
        row[j] = best;
        diagonal = up;
        left = best;
        j += 1;
    }
}

/// The last cell of row `m`: the distance between `a`, of `m` characters,
/// and `b`.
fn last_cell(row: &Vec<usize>, m: usize, b: &[char], Ghost(a): Ghost<Seq<char>>) -> (d: usize)
    requires
        m == a.len(),
        row.len() == b.len(),
        forall|k: int| 0 <= k < b.len() ==> row[k] == prefix_distance(a, b@, m as int, k + 1),
    ensures
        d == edit_distance(a, b@),
{
    let n: usize = b.len();
    assert(a.take(m as int) =~= a);
    assert(b@.take(n as int) =~= b@);
    if n == 0 {
        m
    } else {
        row[n - 1]
    }
}

/// Fills the table row by row, keeping one row, which runs over `b`.
fn distance_by_rows(a: &[char], b: &[char]) -> (d: usize)
    ensures
        d == edit_distance(a@, b@),
{
    let m: usize = a.len();
    let mut row = first_row(b, Ghost(a@));
    let mut i: usize = 0;
    while i < m
        invariant
            m == a.len(),
            i <= m,
            row.len() == b.len(),
            forall|k: int| 0 <= k < b.len() ==> row[k] == prefix_distance(a@, b@, i as int, k + 1),
        decreases m - i,
    {
        next_row(&mut row, a[i], b, i, Ghost(a@));
        i += 1;
    }
    last_cell(&row, m, b, Ghost(a@))
}

/// Fills the table row by row while it reads `a`, keeping one row, which
/// runs over `b`.
fn distance_while_reading(a: &str, m: usize, b: &[char]) -> (d: usize)
    requires
        m == a@.len(),
    ensures
        d == edit_distance(a@, b@),
{
    let mut row = first_row(b, Ghost(a@));
    let mut i: usize = 0;
    for ca in it: a.chars()
        invariant
            it.seq() == a@,
            m == a@.len(),
            i == it.index(),
            i <= m,
            row.len() == b.len(),
            forall|k: int| 0 <= k < b.len() ==> row[k] == prefix_distance(a@, b@, i as int, k + 1),
    {
        next_row(&mut row, ca, b, i, Ghost(a@));
        i += 1;
    }
    last_cell(&row, m, b, Ghost(a@))
}

/// The edit distance between `a` and `b`, in time proportional to the
/// product of the two lengths and with one table row over the shorter of the
/// two.
pub fn edit_distance_of(a: &[char], b: &[char]) -> (d: usize)
    ensures
        d == edit_distance(a@, b@),
{
    if a.len() < b.len() {
        proof {
            lemma_edit_distance_symmetric(a@, b@);
        }
        distance_by_rows(b, a)
    } else {
        distance_by_rows(a, b)
    }
}

/// The edit distance between two strings, counted in characters. Case
/// matters: a caller that wants it ignored folds both strings first. Only
/// the shorter string is copied, for the one table row to run over it; the
/// longer is read as it stands.
pub fn levenshtein(a: &str, b: &str) -> (d: usize)
    ensures
        d == edit_distance(a@, b@),
{
    let a_len: usize = a.unicode_len();
    let b_len: usize = b.unicode_len();
    if a_len < b_len {
        proof {
            lemma_edit_distance_symmetric(a@, b@);
        }
        let shorter = chars_of(a);
        distance_while_reading(b, b_len, shorter.as_slice())
    } else {
        let shorter = chars_of(b);
        distance_while_reading(a, a_len, shorter.as_slice())
    }
}

} // verus!

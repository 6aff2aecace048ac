//! Levenshtein edit distance over sequences of Unicode scalar values.

use vstd::prelude::*;
use crate::chars::chars_of;

verus! {

/// The least of three integers.
pub open spec fn min3(x: int, y: int, z: int) -> int {
    if x <= y && x <= z {
        x
    } else if y <= z {
        y
    } else {
        z
    }
}

/// The larger of two integers.
pub open spec fn max2(x: int, y: int) -> int {
    if x >= y {
        x
    } else {
        y
    }
}

/// The edit distance between `a` and `b`: the least number of single-character
/// insertions, deletions and substitutions that turn one into the other.
///
/// Against the empty sequence the distance is the other's length. When the
/// last characters agree they cost nothing; otherwise one edit is spent on
/// the cheapest of substituting, deleting from `a`, or inserting into `a`.
pub open spec fn edit_distance(a: Seq<char>, b: Seq<char>) -> nat
    decreases a.len() + b.len(),
{
    if a.len() == 0 {
        b.len()
    } else if b.len() == 0 {
        a.len()
    } else if a.last() == b.last() {
        edit_distance(a.drop_last(), b.drop_last())
    } else {
        (1 + min3(
            edit_distance(a.drop_last(), b.drop_last()) as int,
            edit_distance(a.drop_last(), b) as int,
            edit_distance(a, b.drop_last()) as int,
        )) as nat
    }
}

/// The distance from the empty sequence to `s`, in either direction, is the
/// length of `s`.
pub proof fn lemma_distance_from_empty(s: Seq<char>)
    ensures
        edit_distance(Seq::<char>::empty(), s) == s.len(),
        edit_distance(s, Seq::<char>::empty()) == s.len(),
{
}

/// Every sequence is at distance zero from itself.
pub proof fn lemma_distance_reflexive(a: Seq<char>)
    ensures
        edit_distance(a, a) == 0,
    decreases a.len(),
{
    if a.len() > 0 {
        lemma_distance_reflexive(a.drop_last());
    }
}

/// The distance does not depend on the order of its arguments.
pub proof fn lemma_distance_symmetric(a: Seq<char>, b: Seq<char>)
    ensures
        edit_distance(a, b) == edit_distance(b, a),
    decreases a.len() + b.len(),
{
    if a.len() > 0 && b.len() > 0 {
        lemma_distance_symmetric(a.drop_last(), b.drop_last());
        lemma_distance_symmetric(a.drop_last(), b);
        lemma_distance_symmetric(a, b.drop_last());
    }
}

/// The distance is at least the difference of the lengths and at most the
/// longer length.
pub proof fn lemma_distance_bounds(a: Seq<char>, b: Seq<char>)
    ensures
        a.len() - b.len() <= edit_distance(a, b),
        b.len() - a.len() <= edit_distance(a, b),
        edit_distance(a, b) <= max2(a.len() as int, b.len() as int),
    decreases a.len() + b.len(),
{
    if a.len() > 0 && b.len() > 0 {
        lemma_distance_bounds(a.drop_last(), b.drop_last());
        lemma_distance_bounds(a.drop_last(), b);
        lemma_distance_bounds(a, b.drop_last());
    }
}

/// Two sequences are at distance zero exactly when they are equal.
pub proof fn lemma_distance_zero_iff_equal(a: Seq<char>, b: Seq<char>)
    ensures
        edit_distance(a, b) == 0 <==> a == b,
    decreases a.len() + b.len(),
{
    if a == b {
        lemma_distance_reflexive(a);
    } else if a.len() == 0 || b.len() == 0 {
        assert(a.len() == 0 && b.len() == 0 ==> a =~= b);
    } else {
        if a.last() == b.last() {
            lemma_distance_zero_iff_equal(a.drop_last(), b.drop_last());
            if a.drop_last() == b.drop_last() {
                assert(a =~= a.drop_last().push(a.last()));
                assert(b =~= b.drop_last().push(b.last()));
            }
        }
    }
}

/// Whether two character vectors hold the same sequence.
pub fn same_chars(a: &Vec<char>, b: &Vec<char>) -> (r: bool)
    ensures
        r == (a@ == b@),
{
    if a.len() != b.len() {
        return false;
    }
    let mut i: usize = 0;
    while i < a.len()
        invariant
            i <= a.len(),
            a.len() == b.len(),
            forall|k: int| 0 <= k < i ==> a@[k] == b@[k],
        decreases a.len() - i,
    {
        if a[i] != b[i] {
            return false;
        }
        i += 1;
    }
    assert(a@ =~= b@);
    true
}

proof fn lemma_take_step(s: Seq<char>, i: int)
    requires
        0 <= i < s.len(),
    ensures
        s.take(i + 1).drop_last() == s.take(i),
        s.take(i + 1).last() == s[i],
        s.take(i + 1).len() == i + 1,
{
    assert(s.take(i + 1).drop_last() =~= s.take(i));
}

/// The first row of the table: the cost of building each prefix of `b` from
/// the empty sequence.
fn first_row(b: &Vec<char>) -> (row: Vec<usize>)
    ensures
        row@.len() == b@.len() + 1,
        forall|j: int| 0 <= j <= b@.len() ==> row@[j] == edit_distance(
            Seq::<char>::empty(),
            #[trigger] b@.take(j),
        ),
{
    let m = b.len();
    let mut row: Vec<usize> = Vec::new();
    let mut j: usize = 0;
    while j < m
        invariant
            j <= m,
            m == b@.len(),
            row@.len() == j,
            forall|k: int| 0 <= k < j ==> row@[k] == k,
        decreases m - j,
    {
        row.push(j);
        j += 1;
    }
    row.push(m);
    row
}

/// The row of the table for the prefix of `a` of length `i + 1`, given the
/// row for the prefix of length `i`.
fn next_row(a: &Vec<char>, b: &Vec<char>, i: usize, above: &Vec<usize>) -> (row: Vec<usize>)
    requires
        i < a@.len(),
        above@.len() == b@.len() + 1,
        forall|j: int| 0 <= j <= b@.len() ==> above@[j] == edit_distance(
            a@.take(i as int),
            #[trigger] b@.take(j),
        ),
    ensures
        row@.len() == b@.len() + 1,
        forall|j: int| 0 <= j <= b@.len() ==> row@[j] == edit_distance(
            a@.take(i + 1),
            #[trigger] b@.take(j),
        ),
{
    let n = a.len();
    let m = b.len();
    let mut row: Vec<usize> = Vec::new();
    row.push(i + 1);
    let mut j: usize = 0;
    while j < m
        invariant
            j <= m,
            m == b@.len(),
            n == a@.len(),
            i < n,
            above@.len() == m + 1,
            row@.len() == j + 1,
            forall|k: int| 0 <= k <= m ==> above@[k] == edit_distance(
                a@.take(i as int),
                #[trigger] b@.take(k),
            ),
            forall|k: int| 0 <= k <= j ==> row@[k] == edit_distance(
                a@.take(i + 1),
                #[trigger] b@.take(k),
            ),
        decreases m - j,
    {
        proof {
            lemma_take_step(a@, i as int);
            lemma_take_step(b@, j as int);
            lemma_distance_bounds(a@.take(i as int), b@.take(j as int));
            lemma_distance_bounds(a@.take(i as int), b@.take(j + 1));
            lemma_distance_bounds(a@.take(i + 1), b@.take(j as int));
        }
        let diagonal = above[j];
        let up = above[j + 1];
        let left = row[j];
        let cost = if a[i] == b[j] {
            diagonal
        } else if diagonal <= up && diagonal <= left {
            diagonal + 1
        } else if up <= left {
            up + 1
        } else {
            left + 1
        };
        row.push(cost);
        j += 1;
    }
    row
}

/// The edit distance between two character vectors, by the full
/// dynamic-programming table over their prefixes.
pub fn levenshtein_chars(a: &Vec<char>, b: &Vec<char>) -> (d: usize)
    ensures
        d == edit_distance(a@, b@),
{
    let n = a.len();
    let m = b.len();
    if n == 0 {
        return m;
    }
    if m == 0 {
        return n;
    }
    if same_chars(a, b) {
        proof {
            lemma_distance_reflexive(a@);
        }
        return 0;
    }
    let mut table: Vec<Vec<usize>> = Vec::new();
    table.push(first_row(b));
    let mut i: usize = 0;
    while i < n
        invariant
            i <= n,
            n == a@.len(),
            m == b@.len(),
            table@.len() == i + 1,
            forall|r: int| 0 <= r <= i ==> (#[trigger] table@[r])@.len() == m + 1,
            forall|r: int, j: int|
                0 <= r <= i && 0 <= j <= m ==> (#[trigger] table@[r])@[j] == edit_distance(
                    a@.take(r),
                    #[trigger] b@.take(j),
                ),
        decreases n - i,
    {
        let row = next_row(a, b, i, &table[i]);
        table.push(row);
        i += 1;
    }
    assert(a@.take(n as int) =~= a@);
    assert(b@.take(m as int) =~= b@);
    table[n][m]
}

/// The Levenshtein edit distance between two strings, counted in Unicode
/// scalar values.
pub fn levenshtein(str1: &str, str2: &str) -> (d: usize)
    ensures
        d == edit_distance(str1@, str2@),
{
    let a = chars_of(str1);
    let b = chars_of(str2);
    levenshtein_chars(&a, &b)
}

} // verus!

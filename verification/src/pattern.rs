//! Literal patterns in a text: where one occurs first, and how often.

use vstd::prelude::*;

verus! {

/// Whether `pattern` stands in `text` at position `at`.
pub open spec fn occurs_at(text: Seq<char>, pattern: Seq<char>, at: int) -> bool {
    0 <= at && at + pattern.len() <= text.len() && text.subrange(at, at + pattern.len())
        == pattern
}

/// The first position at or after `from` at which `pattern` stands in
/// `text`, if there is one.
pub open spec fn find_from(text: Seq<char>, pattern: Seq<char>, from: int) -> Option<int>
    decreases text.len() + 1 - from,
{
    if from < 0 || from + pattern.len() > text.len() {
        None
    } else if occurs_at(text, pattern, from) {
        Some(from)
    } else {
        find_from(text, pattern, from + 1)
    }
}

/// What `find_from` finds is an occurrence with none before it, and it
/// finds nothing only where there is no occurrence.
pub proof fn lemma_find_from(text: Seq<char>, pattern: Seq<char>, from: int)
    requires
        0 <= from,
    ensures
        match find_from(text, pattern, from) {
            Some(at) => from <= at && occurs_at(text, pattern, at) && forall|i: int|
                from <= i < at ==> !occurs_at(text, pattern, i),
            None => forall|i: int| from <= i ==> !occurs_at(text, pattern, i),
        },
    decreases text.len() + 1 - from,
{
    if from + pattern.len() <= text.len() && !occurs_at(text, pattern, from) {
        lemma_find_from(text, pattern, from + 1);
    }
}

/// The number of occurrences of `pattern` in `text` at or after `from`,
/// counted from the left without overlap. The empty pattern occurs once at
/// every position, the end included.
pub open spec fn count_from(text: Seq<char>, pattern: Seq<char>, from: int) -> nat
    decreases text.len() + 1 - from,
{
    if from < 0 || from + pattern.len() > text.len() {
        0
    } else if pattern.len() == 0 {
        (text.len() - from + 1) as nat
    } else if occurs_at(text, pattern, from) {
        1 + count_from(text, pattern, from + pattern.len())
    } else {
        count_from(text, pattern, from + 1)
    }
}

/// The number of occurrences of `pattern` in `text`.
pub open spec fn count_spec(text: Seq<char>, pattern: Seq<char>) -> nat {
    count_from(text, pattern, 0)
}

/// No text holds more occurrences than it has positions, and of a pattern
/// that is not empty no more than it has scalar values.
pub proof fn lemma_count_bound(text: Seq<char>, pattern: Seq<char>, from: int)
    requires
        0 <= from <= text.len(),
    ensures
        count_from(text, pattern, from) <= text.len() - from + 1,
        pattern.len() > 0 ==> count_from(text, pattern, from) <= text.len() - from,
    decreases text.len() + 1 - from,
{
    if pattern.len() > 0 && from + pattern.len() <= text.len() {
        if occurs_at(text, pattern, from) {
            lemma_count_bound(text, pattern, from + pattern.len());
        } else {
            lemma_count_bound(text, pattern, from + 1);
        }
    }
}

/// Whether `pattern` stands in `text` at position `at`.
fn matches_at(text: &Vec<char>, pattern: &Vec<char>, at: usize) -> (r: bool)
    requires
        at + pattern@.len() <= text@.len(),
    ensures
        r == occurs_at(text@, pattern@, at as int),
{
    let m = pattern.len();
    let mut j: usize = 0;
    while j < m
        invariant
            j <= m,
            m == pattern@.len(),
            at + m <= text.len(),
            forall|k: int| 0 <= k < j ==> text@[at + k] == pattern@[k],
        decreases m - j,
    {
        if text[at + j] != pattern[j] {
            assert(text@.subrange(at as int, at + m)[j as int] != pattern@[j as int]);
            return false;
        }
        j += 1;
    }
    assert(text@.subrange(at as int, at + m) =~= pattern@);
    true
}

/// The first position at or after `from` at which `pattern` stands in
/// `text`.
pub fn find(text: &Vec<char>, pattern: &Vec<char>, from: usize) -> (r: Option<usize>)
    ensures
        match r {
            Some(at) => find_from(text@, pattern@, from as int) == Some(at as int),
            None => find_from(text@, pattern@, from as int) is None,
        },
{
    let n = text.len();
    let m = pattern.len();
    if from > n || n - from < m {
        return None;
    }
    let mut i: usize = from;
    while n - i >= m
        invariant
            from <= i <= n,
            n == text@.len(),
            m == pattern@.len(),
            find_from(text@, pattern@, from as int) == find_from(text@, pattern@, i as int),
        decreases n - i,
    {
        if matches_at(text, pattern, i) {
            return Some(i);
        }
        if i == n {
            assert(find_from(text@, pattern@, i + 1) is None);
            return None;
        }
        i += 1;
    }
    None
}

/// The number of occurrences of `pattern` in `text`, counted from the left
/// without overlap. The count must fit: the empty pattern occurs once more
/// than the text has scalar values.
pub fn count_occurrences(text: &Vec<char>, pattern: &Vec<char>) -> (count: usize)
    requires
        pattern@.len() == 0 ==> text@.len() < usize::MAX,
    ensures
        count == count_spec(text@, pattern@),
{
    let n = text.len();
    let m = pattern.len();
    if m == 0 {
        return n + 1;
    }
    let mut count: usize = 0;
    let mut from: usize = 0;
    while n - from >= m
        invariant
            from <= n,
            m > 0,
            n == text@.len(),
            m == pattern@.len(),
            count + count_from(text@, pattern@, from as int) == count_spec(text@, pattern@),
        decreases n - from,
    {
        proof {
            lemma_count_bound(text@, pattern@, 0);
        }
        if matches_at(text, pattern, from) {
            count += 1;
            from += m;
        } else {
            from += 1;
        }
    }
    count
}

} // verus!

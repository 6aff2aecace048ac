//! Word normalisation and the splitting of text into lines and words.
//!
//! Index keys and query terms are made by the same function, [`normalize`],
//! so that a word is found however it was written.

use vstd::prelude::*;
use crate::chars::{
    alphanumeric, chars_of, is_space, lowercase, lowercase_of, separates_words, string_of,
};

verus! {

/// The alphanumeric scalar values of `s`, in order.
pub open spec fn keep_alphanumeric(s: Seq<char>) -> Seq<char> {
    s.filter(|c: char| alphanumeric(c))
}

/// The canonical lookup key of a raw word: its lower-case form with every
/// scalar value that is not alphanumeric removed. The key of the empty word
/// is empty.
pub open spec fn normalize_spec(word: Seq<char>) -> Seq<char> {
    if word.len() == 0 {
        Seq::empty()
    } else {
        keep_alphanumeric(lowercase_of(word))
    }
}

/// Every scalar value of a lookup key is alphanumeric.
pub proof fn lemma_key_is_alphanumeric(word: Seq<char>)
    ensures
        forall|i: int|
            0 <= i < normalize_spec(word).len() ==> alphanumeric(
                #[trigger] normalize_spec(word)[i],
            ),
{
    let p = |c: char| alphanumeric(c);
    assert forall|i: int| 0 <= i < normalize_spec(word).len() implies alphanumeric(
        #[trigger] normalize_spec(word)[i],
    ) by {
        if word.len() > 0 {
            lowercase_of(word).lemma_filter_pred(p, i);
        }
    }
}

/// Removing what is not alphanumeric changes nothing in a sequence that
/// holds only alphanumeric scalar values.
pub proof fn lemma_keep_alphanumeric_fixed(s: Seq<char>)
    requires
        forall|i: int| 0 <= i < s.len() ==> alphanumeric(#[trigger] s[i]),
    ensures
        keep_alphanumeric(s) == s,
    decreases s.len(),
{
    reveal(Seq::filter);
    if s.len() > 0 {
        lemma_keep_alphanumeric_fixed(s.drop_last());
        assert(s =~= s.drop_last().push(s.last()));
    }
}

/// A word that is its own lower-case form and holds only alphanumeric
/// scalar values is its own lookup key.
pub proof fn lemma_normalize_fixed_point(word: Seq<char>)
    requires
        lowercase_of(word) == word,
        forall|i: int| 0 <= i < word.len() ==> alphanumeric(#[trigger] word[i]),
    ensures
        normalize_spec(word) == word,
{
    lemma_keep_alphanumeric_fixed(word);
    if word.len() == 0 {
        assert(word =~= Seq::<char>::empty());
    }
}

/// Normalising a lookup key again gives the same key, provided lower-casing
/// leaves the key as it is.
pub proof fn lemma_normalize_again(word: Seq<char>)
    requires
        lowercase_of(normalize_spec(word)) == normalize_spec(word),
    ensures
        normalize_spec(normalize_spec(word)) == normalize_spec(word),
{
    lemma_key_is_alphanumeric(word);
    lemma_normalize_fixed_point(normalize_spec(word));
}

/// The alphanumeric scalar values of `chars`, in order.
pub fn alphanumeric_only(chars: &Vec<char>) -> (r: Vec<char>)
    ensures
        r@ == keep_alphanumeric(chars@),
{
    let mut out: Vec<char> = Vec::new();
    let mut i: usize = 0;
    proof {
        reveal(Seq::filter);
    }
    while i < chars.len()
        invariant
            i <= chars.len(),
            out@ == keep_alphanumeric(chars@.take(i as int)),
        decreases chars.len() - i,
    {
        let c = chars[i];
        proof {
            reveal(Seq::filter);
            assert(chars@.take(i + 1).drop_last() =~= chars@.take(i as int));
        }
        if c.is_alphanumeric() {
            out.push(c);
        }
        i += 1;
    }
    assert(chars@.take(chars.len() as int) =~= chars@);
    out
}

/// The lookup key of a raw word.
pub fn normalize(word: &str) -> (r: String)
    ensures
        r@ == normalize_spec(word@),
{
    if word.is_empty() {
        return String::new();
    }
    let lower = lowercase(word);
    let kept = alphanumeric_only(&chars_of(lower.as_str()));
    string_of(&kept)
}

/// The lookup key of a word given as scalar values.
pub fn normalize_chars(word: &Vec<char>) -> (r: Vec<char>)
    ensures
        r@ == normalize_spec(word@),
{
    if word.len() == 0 {
        return Vec::new();
    }
    let raw = string_of(word);
    let lower = lowercase(raw.as_str());
    alphanumeric_only(&chars_of(lower.as_str()))
}

/// The sequences that a vector of character vectors holds.
pub open spec fn views(v: Seq<Vec<char>>) -> Seq<Seq<char>> {
    v.map_values(|w: Vec<char>| w@)
}

/// The length of the leading part of `s` that holds no line break.
pub open spec fn line_len(s: Seq<char>) -> nat
    decreases s.len(),
{
    if s.len() == 0 || s[0] == '\n' {
        0
    } else {
        1 + line_len(s.skip(1))
    }
}

/// The lines of a text: the parts between its line breaks, in order. A text
/// with `k` line breaks has `k + 1` lines, some of which may be empty.
pub open spec fn lines_of(s: Seq<char>) -> Seq<Seq<char>>
    decreases s.len(),
{
    let n = line_len(s);
    if n >= s.len() {
        seq![s]
    } else {
        seq![s.take(n as int)] + lines_of(s.skip(n as int + 1))
    }
}

/// The length of the leading part of `s` that holds no separator.
pub open spec fn word_len(s: Seq<char>) -> nat
    decreases s.len(),
{
    if s.len() == 0 || is_space(s[0]) {
        0
    } else {
        1 + word_len(s.skip(1))
    }
}

/// The words of a text: its maximal runs of scalar values that are not
/// separators, in order. No word is empty.
pub open spec fn words_of(s: Seq<char>) -> Seq<Seq<char>>
    decreases s.len(),
{
    if s.len() == 0 {
        Seq::empty()
    } else if is_space(s[0]) {
        words_of(s.skip(1))
    } else {
        let n = word_len(s);
        proof {
            lemma_word_len_bound(s);
        }
        seq![s.take(n as int)] + words_of(s.skip(n as int))
    }
}

/// A run of `k` scalar values without a line break, followed by a line break
/// or the end of the text, is the leading line.
pub proof fn lemma_line_len(s: Seq<char>, k: int)
    requires
        0 <= k <= s.len(),
        forall|i: int| 0 <= i < k ==> s[i] != '\n',
        k == s.len() || s[k] == '\n',
    ensures
        line_len(s) == k,
    decreases k,
{
    if k > 0 {
        lemma_line_len(s.skip(1), k - 1);
    }
}

/// A run of `k` scalar values without a separator, followed by a separator
/// or the end of the text, is the leading word.
pub proof fn lemma_word_len(s: Seq<char>, k: int)
    requires
        0 <= k <= s.len(),
        forall|i: int| 0 <= i < k ==> !is_space(s[i]),
        k == s.len() || is_space(s[k]),
    ensures
        word_len(s) == k,
    decreases k,
{
    if k > 0 {
        lemma_word_len(s.skip(1), k - 1);
    }
}

/// The leading line is never longer than the text, and holds no line break.
pub proof fn lemma_line_len_bound(s: Seq<char>)
    ensures
        line_len(s) <= s.len(),
        forall|i: int| 0 <= i < line_len(s) ==> s[i] != '\n',
        line_len(s) < s.len() ==> s[line_len(s) as int] == '\n',
    decreases s.len(),
{
    if s.len() > 0 && s[0] != '\n' {
        lemma_line_len_bound(s.skip(1));
        assert forall|i: int| 0 <= i < line_len(s) implies s[i] != '\n' by {
            if i > 0 {
                assert(s.skip(1)[i - 1] == s[i]);
            }
        }
    }
}

/// The lines put together again, with a line break between each two.
pub open spec fn join_lines(lines: Seq<Seq<char>>) -> Seq<char>
    decreases lines.len(),
{
    if lines.len() == 0 {
        Seq::empty()
    } else if lines.len() == 1 {
        lines[0]
    } else {
        lines[0] + seq!['\n'] + join_lines(lines.skip(1))
    }
}

/// A text has at least one line, no line holds a line break, and the lines
/// joined by line breaks are the text.
pub proof fn lemma_lines_of(s: Seq<char>)
    ensures
        lines_of(s).len() >= 1,
        forall|l: int, i: int|
            0 <= l < lines_of(s).len() && 0 <= i < lines_of(s)[l].len() ==> (
            #[trigger] lines_of(s)[l][i]) != '\n',
        join_lines(lines_of(s)) == s,
    decreases s.len(),
{
    let n = line_len(s);
    lemma_line_len_bound(s);
    if n < s.len() {
        let rest = s.skip(n as int + 1);
        lemma_lines_of(rest);
        let first = s.take(n as int);
        let all = lines_of(s);
        assert(all == seq![first] + lines_of(rest));
        assert(all.skip(1) =~= lines_of(rest));
        assert(all[0] == first);
        assert(first + seq!['\n'] + rest =~= s);
        assert forall|l: int, i: int| 0 <= l < all.len() && 0 <= i < all[l].len() implies (
        #[trigger] all[l][i]) != '\n' by {
            if l > 0 {
                assert(all[l] == lines_of(rest)[l - 1]);
            }
        }
    } else {
        assert(lines_of(s) =~= seq![s]);
    }
}

/// The leading word is never longer than the text.
pub proof fn lemma_word_len_bound(s: Seq<char>)
    ensures
        word_len(s) <= s.len(),
        s.len() > 0 && !is_space(s[0]) ==> word_len(s) >= 1,
    decreases s.len(),
{
    if s.len() > 0 && !is_space(s[0]) {
        lemma_word_len_bound(s.skip(1));
    }
}

/// The leading word holds no separator.
pub proof fn lemma_word_len_run(s: Seq<char>)
    ensures
        forall|i: int| 0 <= i < word_len(s) ==> !is_space(s[i]),
    decreases s.len(),
{
    if s.len() > 0 && !is_space(s[0]) {
        lemma_word_len_run(s.skip(1));
        lemma_word_len_bound(s);
        assert forall|i: int| 0 <= i < word_len(s) implies !is_space(s[i]) by {
            if i > 0 {
                assert(s.skip(1)[i - 1] == s[i]);
            }
        }
    }
}

/// No word is empty, and no word holds a separator.
pub proof fn lemma_words_of(s: Seq<char>)
    ensures
        forall|w: int| 0 <= w < words_of(s).len() ==> (#[trigger] words_of(s)[w]).len() > 0,
        forall|w: int, i: int|
            0 <= w < words_of(s).len() && 0 <= i < words_of(s)[w].len() ==> !is_space(
                #[trigger] words_of(s)[w][i],
            ),
    decreases s.len(),
{
    if s.len() == 0 {
        assert(words_of(s).len() == 0);
    } else if is_space(s[0]) {
        lemma_words_of(s.skip(1));
        assert(words_of(s) == words_of(s.skip(1)));
    } else {
        let n = word_len(s);
        lemma_word_len_bound(s);
        lemma_word_len_run(s);
        let rest = s.skip(n as int);
        lemma_words_of(rest);
        let all = words_of(s);
        assert(all == seq![s.take(n as int)] + words_of(rest));
        assert forall|w: int| 0 <= w < all.len() implies (#[trigger] all[w]).len() > 0 by {
            if w > 0 {
                assert(all[w] == words_of(rest)[w - 1]);
            } else {
                assert(all[0] == s.take(n as int));
            }
        }
        assert forall|w: int, i: int| 0 <= w < all.len() && 0 <= i < all[w].len() implies !is_space(
            #[trigger] all[w][i],
        ) by {
            if w > 0 {
                assert(all[w] == words_of(rest)[w - 1]);
            } else {
                assert(all[0] == s.take(n as int));
                assert(all[0][i] == s[i]);
            }
        }
    }
}

/// A separator after `a` ends the leading word of `a` where it ended
/// before.
pub proof fn lemma_word_len_before_separator(a: Seq<char>, c: char, b: Seq<char>)
    requires
        is_space(c),
    ensures
        word_len(a + seq![c] + b) == word_len(a),
    decreases a.len(),
{
    let joined = a + seq![c] + b;
    if a.len() == 0 {
        assert(joined[0] == c);
    } else {
        assert(joined[0] == a[0]);
        if !is_space(a[0]) {
            assert(joined.skip(1) =~= a.skip(1) + seq![c] + b);
            lemma_word_len_before_separator(a.skip(1), c, b);
        }
    }
}

/// The words of two texts joined by a separator are the words of the first
/// followed by the words of the second.
pub proof fn lemma_words_of_joined(a: Seq<char>, c: char, b: Seq<char>)
    requires
        is_space(c),
    ensures
        words_of(a + seq![c] + b) == words_of(a) + words_of(b),
    decreases a.len(),
{
    let joined = a + seq![c] + b;
    if a.len() == 0 {
        assert(joined[0] == c);
        assert(joined.skip(1) =~= b);
        assert(words_of(a) + words_of(b) =~= words_of(b));
    } else if is_space(a[0]) {
        assert(joined[0] == a[0]);
        assert(joined.skip(1) =~= a.skip(1) + seq![c] + b);
        lemma_words_of_joined(a.skip(1), c, b);
    } else {
        assert(joined[0] == a[0]);
        let n = word_len(a);
        lemma_word_len_bound(a);
        lemma_word_len_before_separator(a, c, b);
        assert(joined.take(n as int) =~= a.take(n as int));
        assert(joined.skip(n as int) =~= a.skip(n as int) + seq![c] + b);
        lemma_words_of_joined(a.skip(n as int), c, b);
        assert(seq![a.take(n as int)] + (words_of(a.skip(n as int)) + words_of(b)) =~= (seq![
            a.take(n as int),
        ] + words_of(a.skip(n as int))) + words_of(b));
    }
}

/// The scalar values of `text` from `from` up to `to`.
pub fn copy_range(text: &Vec<char>, from: usize, to: usize) -> (r: Vec<char>)
    requires
        from <= to <= text@.len(),
    ensures
        r@ == text@.subrange(from as int, to as int),
{
    let mut out: Vec<char> = Vec::new();
    let mut i: usize = from;
    while i < to
        invariant
            from <= i <= to <= text@.len(),
            out@ == text@.subrange(from as int, i as int),
        decreases to - i,
    {
        out.push(text[i]);
        assert(text@.subrange(from as int, i + 1) =~= text@.subrange(from as int, i as int).push(
            text@[i as int],
        ));
        i += 1;
    }
    out
}

/// Splits a text into its lines.
pub fn split_lines(text: &Vec<char>) -> (r: Vec<Vec<char>>)
    ensures
        views(r@) == lines_of(text@),
{
    let n = text.len();
    let mut out: Vec<Vec<char>> = Vec::new();
    let mut start: usize = 0;
    assert(text@.skip(0) =~= text@);
    loop
        invariant_except_break
            start <= n,
            n == text@.len(),
            views(out@) + lines_of(text@.skip(start as int)) == lines_of(text@),
        ensures
            views(out@) == lines_of(text@),
        decreases n - start,
    {
        let mut end: usize = start;
        while end < n && text[end] != '\n'
            invariant
                start <= end <= n,
                n == text@.len(),
                forall|i: int| start <= i < end ==> text@[i] != '\n',
            decreases n - end,
        {
            end += 1;
        }
        let line = copy_range(text, start, end);
        proof {
            let rest = text@.skip(start as int);
            lemma_line_len(rest, end - start);
            assert(rest.take(end - start) =~= line@);
            assert(views(out@.push(line)) =~= views(out@).push(line@));
            if end < n {
                assert(rest.skip(end - start + 1) =~= text@.skip(end + 1));
                assert(views(out@).push(line@) + lines_of(text@.skip(end + 1)) =~= views(out@)
                    + lines_of(rest));
            } else {
                assert(rest =~= line@);
                assert(views(out@).push(line@) =~= views(out@) + lines_of(rest));
            }
        }
        out.push(line);
        if end >= n {
            break;
        }
        start = end + 1;
    }
    out
}

/// Splits a text into its words.
pub fn split_words(text: &Vec<char>) -> (r: Vec<Vec<char>>)
    ensures
        views(r@) == words_of(text@),
{
    let n = text.len();
    let mut out: Vec<Vec<char>> = Vec::new();
    let mut start: usize = 0;
    assert(text@.skip(0) =~= text@);
    assert(views(out@) =~= Seq::<Seq<char>>::empty());
    while start < n
        invariant
            start <= n,
            n == text@.len(),
            views(out@) + words_of(text@.skip(start as int)) == words_of(text@),
        decreases n - start,
    {
        let ghost rest = text@.skip(start as int);
        if separates_words(text[start]) {
            assert(rest.skip(1) =~= text@.skip(start + 1));
            start += 1;
        } else {
            let mut end: usize = start + 1;
            while end < n && !separates_words(text[end])
                invariant
                    start < end <= n,
                    n == text@.len(),
                    forall|i: int| start <= i < end ==> !is_space(text@[i]),
                decreases n - end,
            {
                end += 1;
            }
            let word = copy_range(text, start, end);
            proof {
                lemma_word_len(rest, end - start);
                assert(rest.take(end - start) =~= word@);
                assert(rest.skip(end - start) =~= text@.skip(end as int));
                assert(views(out@.push(word)) =~= views(out@).push(word@));
                assert(views(out@).push(word@) + words_of(text@.skip(end as int)) =~= views(out@)
                    + words_of(rest));
            }
            out.push(word);
            start = end;
        }
    }
    assert(words_of(text@.skip(n as int)) =~= Seq::<Seq<char>>::empty());
    assert(views(out@) + Seq::<Seq<char>>::empty() =~= views(out@));
    out
}

} // verus!

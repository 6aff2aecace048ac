//! From file names and file contents to songs: the title between the
//! delimiters of a file name, and identifiers in the order of arrival.

use vstd::prelude::*;
use vstd::string::StringExecFns;
use vstd::string::StrSliceExecFns;
use crate::chars::{chars_of, is_space, separates_words, string_of};
use crate::index::Song;
use crate::pattern::{find, find_from, lemma_find_from};
use crate::text::copy_range;

verus! {

/// The delimiter that encloses the title in a file name.
pub open spec fn delimiter() -> Seq<char> {
    seq!['#', '_', '#']
}

/// The part of a file name between its first delimiter and the next one
/// after it, if it has two.
pub open spec fn extract_between_spec(s: Seq<char>) -> Option<Seq<char>> {
    match find_from(s, delimiter(), 0) {
        Some(open) => match find_from(s, delimiter(), open + 3) {
            Some(close) => Some(s.subrange(open + 3, close)),
            None => None,
        },
        None => None,
    }
}

/// The part of `s` between its first `#_#` and the next `#_#` after it.
/// Without two delimiters there is no such part.
pub fn extract_between(s: &str) -> (r: Option<&str>)
    ensures
        match r {
            Some(part) => extract_between_spec(s@) == Some(part@),
            None => extract_between_spec(s@) is None,
        },
{
    let text = chars_of(s);
    let mut mark: Vec<char> = Vec::new();
    mark.push('#');
    mark.push('_');
    mark.push('#');
    assert(mark@ =~= delimiter());
    match find(&text, &mark, 0) {
        Some(open) => {
            proof {
                lemma_find_from(text@, mark@, 0);
            }
            assert(open + 3 <= text.len());
            match find(&text, &mark, open + 3) {
                Some(close) => {
                    proof {
                        lemma_find_from(text@, mark@, open + 3);
                    }
                    Some(s.substring_char(open + 3, close))
                },
                None => None,
            }
        },
        None => None,
    }
}

/// `s` without the separators at its start.
pub open spec fn trim_start(s: Seq<char>) -> Seq<char>
    decreases s.len(),
{
    if s.len() > 0 && is_space(s[0]) {
        trim_start(s.skip(1))
    } else {
        s
    }
}

/// `s` without the separators at its end.
pub open spec fn trim_end(s: Seq<char>) -> Seq<char>
    decreases s.len(),
{
    if s.len() > 0 && is_space(s.last()) {
        trim_end(s.drop_last())
    } else {
        s
    }
}

/// `s` without the separators at its start and at its end.
pub open spec fn trim_spec(s: Seq<char>) -> Seq<char> {
    trim_end(trim_start(s))
}

proof fn lemma_trim_start(s: Seq<char>, k: int)
    requires
        0 <= k <= s.len(),
        forall|i: int| 0 <= i < k ==> is_space(s[i]),
        k == s.len() || !is_space(s[k]),
    ensures
        trim_start(s) == s.skip(k),
    decreases k,
{
    if k > 0 {
        lemma_trim_start(s.skip(1), k - 1);
        assert(s.skip(1).skip(k - 1) =~= s.skip(k));
    } else {
        assert(s.skip(0) =~= s);
    }
}

proof fn lemma_trim_end(s: Seq<char>, k: int)
    requires
        0 <= k <= s.len(),
        forall|i: int| k <= i < s.len() ==> is_space(s[i]),
        k == 0 || !is_space(s[k - 1]),
    ensures
        trim_end(s) == s.take(k),
    decreases s.len() - k,
{
    if k < s.len() {
        lemma_trim_end(s.drop_last(), k);
        assert(s.drop_last().take(k) =~= s.take(k));
    } else {
        assert(s.take(k) =~= s);
    }
}

/// The text without the separators at its start and at its end.
pub fn trim(text: &Vec<char>) -> (r: Vec<char>)
    ensures
        r@ == trim_spec(text@),
{
    let n = text.len();
    let mut start: usize = 0;
    while start < n && separates_words(text[start])
        invariant
            start <= n,
            n == text@.len(),
            forall|i: int| 0 <= i < start ==> is_space(text@[i]),
        decreases n - start,
    {
        start += 1;
    }
    let mut end: usize = n;
    while end > start && separates_words(text[end - 1])
        invariant
            start <= end <= n,
            n == text@.len(),
            forall|i: int| end <= i < n ==> is_space(text@[i]),
        decreases end,
    {
        end -= 1;
    }
    let out = copy_range(text, start, end);
    proof {
        lemma_trim_start(text@, start as int);
        let rest = text@.skip(start as int);
        assert(forall|i: int| end - start <= i < rest.len() ==> rest[i] == text@[i + start]);
        lemma_trim_end(rest, end - start);
        assert(rest.take(end - start) =~= text@.subrange(start as int, end as int));
    }
    out
}

/// The title given to a song whose file name holds none.
pub open spec fn unknown_title() -> Seq<char> {
    seq!['U', 'n', 'k', 'n', 'o', 'w', 'n']
}

/// The title of a song, from its file name: the part between the
/// delimiters, trimmed; without delimiters, the placeholder.
pub open spec fn song_title_spec(file_name: Seq<char>) -> Seq<char> {
    match extract_between_spec(file_name) {
        Some(part) => trim_spec(part),
        None => unknown_title(),
    }
}

/// The title of a song, from its file name. A file name from which no
/// title can be taken gives the placeholder `Unknown`.
pub fn song_title(file_name: &str) -> (title: String)
    ensures
        title@ == song_title_spec(file_name@),
{
    match extract_between(file_name) {
        Some(part) => {
            let chars = chars_of(part);
            let trimmed = trim(&chars);
            string_of(&trimmed)
        },
        None => {
            proof {
                reveal_strlit("Unknown");
            }
            let title = String::from_str("Unknown");
            assert(title@ =~= unknown_title());
            title
        },
    }
}

/// The songs made from files, each file given as its name and its content:
/// the identifiers count up from zero in the order of the files, the title
/// comes from the file name, and the lyrics are the content.
pub fn songs_from_files(files: &Vec<(String, String)>) -> (songs: Vec<Song>)
    requires
        files@.len() <= u32::MAX,
    ensures
        songs@.len() == files@.len(),
        forall|i: int|
            0 <= i < files@.len() ==> {
                &&& (#[trigger] songs@[i]).id == i
                &&& songs@[i].title@ == song_title_spec(files@[i].0@)
                &&& songs@[i].lyrics == files@[i].1
            },
{
    let mut songs: Vec<Song> = Vec::new();
    let mut next_id: u32 = 0;
    let mut i: usize = 0;
    while i < files.len()
        invariant
            i <= files.len() <= u32::MAX,
            next_id == i,
            songs@.len() == i,
            forall|j: int|
                0 <= j < i ==> {
                    &&& (#[trigger] songs@[j]).id == j
                    &&& songs@[j].title@ == song_title_spec(files@[j].0@)
                    &&& songs@[j].lyrics == files@[j].1
                },
        decreases files.len() - i,
    {
        let title = song_title(files[i].0.as_str());
        let lyrics = files[i].1.clone();
        songs.push(Song { id: next_id, lyrics, title });
        next_id += 1;
        i += 1;
    }
    songs
}

} // verus!

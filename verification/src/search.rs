//! Query resolution: exact and fuzzy lookup per term, intersection across
//! terms, and the songs that match.

use vstd::prelude::*;
use crate::chars::chars_of;
use crate::distance::{edit_distance, lemma_distance_bounds, levenshtein_chars};
use crate::index::{
    copy_song, index_of, lemma_held_word_is_indexed, song_holds, Index, IndexView, Posting, Song,
};
use crate::chars::is_space;
use crate::text::{
    lemma_word_len, lemma_words_of_joined, normalize_chars, normalize_spec, split_words, views,
    words_of,
};

verus! {

/// A term with fewer exact postings than this is also looked up fuzzily.
pub const FUZZY_THRESHOLD: usize = 5;

/// The song identifiers that occur among the postings.
pub open spec fn song_ids(postings: Seq<Posting>) -> Set<u32> {
    Set::new(
        |id: u32| exists|j: int| 0 <= j < postings.len() && (#[trigger] postings[j]).song_id == id,
    )
}

/// The songs in which `key` itself occurs.
pub open spec fn exact_ids(index: IndexView, key: Seq<char>) -> Set<u32> {
    song_ids(index.postings_of(key))
}

/// The songs in which some word of the vocabulary within one edit of `key`
/// occurs.
pub open spec fn fuzzy_ids(index: IndexView, key: Seq<char>) -> Set<u32> {
    Set::new(
        |id: u32|
            exists|k: Seq<char>|
                index.postings.dom().contains(k) && edit_distance(key, k) <= 1 && #[trigger] song_ids(
                    index.postings[k],
                ).contains(id),
    )
}

/// The songs that match one normalised term: those in which it occurs, and,
/// when it has fewer than `threshold` postings, those that hold a word
/// within one edit of it.
pub open spec fn term_ids(index: IndexView, key: Seq<char>, threshold: nat) -> Set<u32> {
    if index.postings_of(key).len() < threshold {
        exact_ids(index, key) + fuzzy_ids(index, key)
    } else {
        exact_ids(index, key)
    }
}

/// The terms of a query: its words.
pub open spec fn query_terms(query: Seq<char>) -> Seq<Seq<char>> {
    words_of(query)
}

/// Whether `id` matches each of the first `upto` terms.
pub open spec fn matches_terms(
    index: IndexView,
    terms: Seq<Seq<char>>,
    threshold: nat,
    upto: int,
    id: u32,
) -> bool {
    forall|i: int|
        0 <= i < upto ==> term_ids(index, normalize_spec(#[trigger] terms[i]), threshold).contains(
            id,
        )
}

/// The songs that match every term. Without a term nothing matches.
pub open spec fn matching_ids(index: IndexView, terms: Seq<Seq<char>>, threshold: nat) -> Set<u32> {
    Set::new(
        |id: u32| terms.len() > 0 && matches_terms(index, terms, threshold, terms.len() as int, id),
    )
}

/// The result of a search: the songs of the collection, in its order, that
/// match every term of the query.
pub open spec fn search_spec(index: IndexView, query: Seq<char>, threshold: nat) -> Seq<Song> {
    index.songs.filter(
        |song: Song| matching_ids(index, query_terms(query), threshold).contains(song.id),
    )
}

/// A query without terms matches no song.
pub proof fn lemma_empty_query_matches_nothing(index: IndexView, query: Seq<char>, threshold: nat)
    requires
        query_terms(query).len() == 0,
    ensures
        matching_ids(index, query_terms(query), threshold) == Set::<u32>::empty(),
        search_spec(index, query, threshold) == Seq::<Song>::empty(),
{
    let wanted = |song: Song| matching_ids(index, query_terms(query), threshold).contains(song.id);
    assert(matching_ids(index, query_terms(query), threshold) =~= Set::<u32>::empty());
    index.songs.lemma_filter_len(wanted);
    if index.songs.filter(wanted).len() > 0 {
        index.songs.lemma_filter_pred(wanted, 0);
    }
    assert(index.songs.filter(wanted) =~= Seq::<Song>::empty());
}

/// A song is in the result of a search exactly when it is in the collection
/// and matches every term.
pub proof fn lemma_search_result(index: IndexView, query: Seq<char>, threshold: nat, song: Song)
    ensures
        search_spec(index, query, threshold).contains(song) <==> index.songs.contains(song)
            && matching_ids(index, query_terms(query), threshold).contains(song.id),
{
    let wanted = |song: Song| matching_ids(index, query_terms(query), threshold).contains(song.id);
    if search_spec(index, query, threshold).contains(song) {
        index.songs.lemma_filter_contains_rev(wanted, song);
    }
    if index.songs.contains(song) && wanted(song) {
        let i = choose|i: int| 0 <= i < index.songs.len() && index.songs[i] == song;
        index.songs.lemma_filter_contains(wanted, i);
    }
}

/// Two queries joined by a space match the songs that match both: a song
/// must hold every term of either. Each query has at least one term.
pub proof fn lemma_search_conjunction(
    index: IndexView,
    first: Seq<char>,
    second: Seq<char>,
    threshold: nat,
)
    requires
        query_terms(first).len() > 0,
        query_terms(second).len() > 0,
    ensures
        matching_ids(index, query_terms(first + seq![' '] + second), threshold) == matching_ids(
            index,
            query_terms(first),
            threshold,
        ).intersect(matching_ids(index, query_terms(second), threshold)),
        forall|song: Song|
            search_spec(index, first + seq![' '] + second, threshold).contains(song) <==> (
            #[trigger] search_spec(index, first, threshold).contains(song) && search_spec(
                index,
                second,
                threshold,
            ).contains(song)),
{
    let a = query_terms(first);
    let b = query_terms(second);
    let joined = query_terms(first + seq![' '] + second);
    assert(is_space(' '));
    lemma_words_of_joined(first, ' ', second);
    assert(joined == a + b);
    let both = matching_ids(index, a, threshold).intersect(matching_ids(index, b, threshold));
    assert forall|id: u32| matching_ids(index, joined, threshold).contains(id) <==> both.contains(
        id,
    ) by {
        if matching_ids(index, joined, threshold).contains(id) {
            assert forall|i: int| 0 <= i < a.len() implies term_ids(
                index,
                normalize_spec(#[trigger] a[i]),
                threshold,
            ).contains(id) by {
                assert(joined[i] == a[i]);
            }
            assert forall|i: int| 0 <= i < b.len() implies term_ids(
                index,
                normalize_spec(#[trigger] b[i]),
                threshold,
            ).contains(id) by {
                assert(joined[a.len() + i] == b[i]);
            }
        }
        if both.contains(id) {
            assert forall|i: int| 0 <= i < joined.len() implies term_ids(
                index,
                normalize_spec(#[trigger] joined[i]),
                threshold,
            ).contains(id) by {
                if i < a.len() {
                    assert(joined[i] == a[i]);
                } else {
                    assert(joined[i] == b[i - a.len()]);
                }
            }
        }
    }
    assert(matching_ids(index, joined, threshold) =~= both);
    assert forall|song: Song|
        search_spec(index, first + seq![' '] + second, threshold).contains(song) <==> (
        #[trigger] search_spec(index, first, threshold).contains(song) && search_spec(
            index,
            second,
            threshold,
        ).contains(song)) by {
        lemma_search_result(index, first + seq![' '] + second, threshold, song);
        lemma_search_result(index, first, threshold, song);
        lemma_search_result(index, second, threshold, song);
    }
}

/// A text without separators that is not empty is a query of one term:
/// itself.
pub proof fn lemma_single_term(word: Seq<char>)
    requires
        word.len() > 0,
        forall|i: int| 0 <= i < word.len() ==> !is_space(word[i]),
    ensures
        query_terms(word) == seq![word],
{
    lemma_word_len(word, word.len() as int);
    assert(word.take(word.len() as int) =~= word);
    assert(words_of(word.skip(word.len() as int)) =~= Seq::<Seq<char>>::empty());
    assert(seq![word] + Seq::<Seq<char>>::empty() =~= seq![word]);
}

/// A song of the collection that holds a word is found by every query of
/// one term with the lookup key of that word, whatever the threshold.
pub proof fn lemma_held_word_is_found(songs: Seq<Song>, s: int, query: Seq<char>, threshold: nat)
    requires
        0 <= s < songs.len(),
        query_terms(query).len() == 1,
        song_holds(songs[s], normalize_spec(query_terms(query)[0])),
    ensures
        matching_ids(index_of(songs), query_terms(query), threshold).contains(songs[s].id),
        search_spec(index_of(songs), query, threshold).contains(songs[s]),
{
    let index = index_of(songs);
    let key = normalize_spec(query_terms(query)[0]);
    lemma_held_word_is_indexed(songs, s, key);
    assert(exact_ids(index, key).contains(songs[s].id));
    assert(term_ids(index, key, threshold).contains(songs[s].id));
    assert(matches_terms(index, query_terms(query), threshold, 1, songs[s].id));
    lemma_search_result(index, query, threshold, songs[s]);
}

/// Whether `id` is among `ids`.
fn contains_id(ids: &Vec<u32>, id: u32) -> (r: bool)
    ensures
        r == ids@.contains(id),
{
    let mut i: usize = 0;
    while i < ids.len()
        invariant
            i <= ids.len(),
            forall|j: int| 0 <= j < i ==> ids@[j] != id,
        decreases ids.len() - i,
    {
        if ids[i] == id {
            return true;
        }
        i += 1;
    }
    false
}

/// Whether the identifiers ascend, none twice.
pub open spec fn ascending(ids: Seq<u32>) -> bool {
    forall|a: int, b: int| 0 <= a < b < ids.len() ==> ids[a] < ids[b]
}

/// Puts `id` in its place among the ascending `ids`, unless it is there.
fn insert_id(ids: &mut Vec<u32>, id: u32)
    requires
        ascending(old(ids)@),
    ensures
        ascending(final(ids)@),
        final(ids)@.to_set() == old(ids)@.to_set().insert(id),
{
    let mut at: usize = 0;
    while at < ids.len() && ids[at] < id
        invariant
            at <= ids@.len(),
            *ids == *old(ids),
            forall|a: int| 0 <= a < at ==> ids@[a] < id,
        decreases ids.len() - at,
    {
        at += 1;
    }
    let ghost before = ids@;
    if at < ids.len() && ids[at] == id {
        assert(before.contains(id));
        assert(before.to_set() =~= before.to_set().insert(id));
        return;
    }
    ids.insert(at, id);
    proof {
        let after = ids@;
        assert forall|a: int, b: int| 0 <= a < b < after.len() implies after[a] < after[b] by {
            if b < at {
                assert(after[a] == before[a] && after[b] == before[b]);
            } else if b == at {
                assert(after[a] == before[a]);
            } else if a < at {
                assert(after[a] == before[a] && after[b] == before[b - 1]);
            } else if a == at {
                assert(after[b] == before[b - 1]);
                assert(before[at as int] <= before[b - 1]);
            } else {
                assert(after[a] == before[a - 1] && after[b] == before[b - 1]);
            }
        }
        assert forall|x: u32| after.to_set().contains(x) <==> before.to_set().insert(id).contains(
            x,
        ) by {
            if after.contains(x) {
                let w = choose|w: int| 0 <= w < after.len() && after[w] == x;
                if w < at {
                    assert(before[w] == x);
                } else if w > at {
                    assert(before[w - 1] == x);
                }
            }
            if before.contains(x) {
                let w = choose|w: int| 0 <= w < before.len() && before[w] == x;
                if w < at {
                    assert(after[w] == x);
                } else {
                    assert(after[w + 1] == x);
                }
            }
            if x == id {
                assert(after[at as int] == x);
            }
        }
        assert(after.to_set() =~= before.to_set().insert(id));
    }
}

/// Adds the song identifiers of the postings to the ascending `ids`.
fn add_song_ids(ids: &mut Vec<u32>, postings: &Vec<Posting>)
    requires
        ascending(old(ids)@),
    ensures
        ascending(final(ids)@),
        final(ids)@.to_set() == old(ids)@.to_set() + song_ids(postings@),
{
    let mut j: usize = 0;
    assert(ids@.to_set() =~= old(ids)@.to_set() + song_ids(postings@.take(0)));
    while j < postings.len()
        invariant
            j <= postings.len(),
            ascending(ids@),
            ids@.to_set() == old(ids)@.to_set() + song_ids(postings@.take(j as int)),
        decreases postings.len() - j,
    {
        let id = postings[j].song_id;
        let ghost before = ids@;
        insert_id(ids, id);
        proof {
            let done = postings@.take(j as int);
            let next = postings@.take(j + 1);
            assert(next[j as int].song_id == id);
            assert forall|x: u32| song_ids(next).contains(x) <==> (song_ids(done).contains(x) || x
                == id) by {
                if song_ids(done).contains(x) {
                    let w = choose|w: int| 0 <= w < done.len() && (#[trigger] done[w]).song_id == x;
                    assert(next[w].song_id == x);
                }
                if song_ids(next).contains(x) && x != id {
                    let w = choose|w: int| 0 <= w < next.len() && (#[trigger] next[w]).song_id == x;
                    assert(done[w].song_id == x);
                }
            }
            assert(ids@.to_set() =~= old(ids)@.to_set() + song_ids(next));
        }
        j += 1;
    }
    assert(postings@.take(postings.len() as int) =~= postings@);
}

/// The songs found through the first `upto` words of the vocabulary that
/// are within one edit of `key`.
pub open spec fn fuzzy_ids_upto(index: IndexView, key: Seq<char>, upto: int) -> Set<u32> {
    Set::new(
        |id: u32|
            exists|i: int|
                0 <= i < upto && edit_distance(key, #[trigger] index.words[i]) <= 1 && song_ids(
                    index.postings[index.words[i]],
                ).contains(id),
    )
}

/// In a valid index, going through the whole vocabulary finds every song
/// that a word within one edit of `key` leads to.
pub proof fn lemma_fuzzy_ids_upto_all(index: IndexView, key: Seq<char>)
    requires
        index.valid(),
    ensures
        fuzzy_ids_upto(index, key, index.words.len() as int) == fuzzy_ids(index, key),
{
    let words = index.words;
    assert forall|x: u32|
        fuzzy_ids_upto(index, key, words.len() as int).contains(x) <==> fuzzy_ids(
            index,
            key,
        ).contains(x) by {
        if fuzzy_ids_upto(index, key, words.len() as int).contains(x) {
            let w = choose|w: int|
                0 <= w < words.len() && edit_distance(key, #[trigger] words[w]) <= 1 && song_ids(
                    index.postings[words[w]],
                ).contains(x);
            assert(words.contains(words[w]));
            assert(index.postings.dom().contains(words[w]));
        }
        if fuzzy_ids(index, key).contains(x) {
            let k = choose|k: Seq<char>|
                index.postings.dom().contains(k) && edit_distance(key, k) <= 1
                    && #[trigger] song_ids(index.postings[k]).contains(x);
            assert(words.contains(k));
            let w = choose|w: int| 0 <= w < words.len() && words[w] == k;
            assert(edit_distance(key, words[w]) <= 1);
        }
    }
    assert(fuzzy_ids_upto(index, key, words.len() as int) =~= fuzzy_ids(index, key));
}

/// Whether the lengths differ by at most two.
fn lengths_are_close(a: &Vec<char>, b: &Vec<char>) -> (r: bool)
    ensures
        r == (a@.len() - b@.len() <= 2 && b@.len() - a@.len() <= 2),
{
    let n = a.len();
    let m = b.len();
    if n >= m {
        n - m <= 2
    } else {
        m - n <= 2
    }
}

/// The songs that match one normalised term, in ascending order of their
/// identifiers, each once.
pub fn term_matches(index: &Index, key: &Vec<char>, threshold: usize) -> (ids: Vec<u32>)
    ensures
        ascending(ids@),
        ids@.to_set() == term_ids(index@, key@, threshold as nat),
{
    let mut ids: Vec<u32> = Vec::new();
    let mut exact: usize = 0;
    match index.find(key) {
        Some(i) => {
            let postings = index.postings_at(i);
            exact = postings.len();
            add_song_ids(&mut ids, postings);
        },
        None => {},
    }
    assert(ids@.to_set() =~= exact_ids(index@, key@));
    assert(exact == index@.postings_of(key@).len());
    if exact < threshold {
        let count = index.word_count();
        let mut i: usize = 0;
        assert(ids@.to_set() =~= exact_ids(index@, key@) + fuzzy_ids_upto(index@, key@, 0));
        while i < count
            invariant
                i <= count,
                count == index@.words.len(),
                ascending(ids@),
                ids@.to_set() == exact_ids(index@, key@) + fuzzy_ids_upto(index@, key@, i as int),
            decreases count - i,
        {
            let word = index.word(i);
            let ghost before = ids@.to_set();
            let ghost near = edit_distance(key@, word@) <= 1;
            proof {
                lemma_distance_bounds(key@, word@);
            }
            if lengths_are_close(key, word) && levenshtein_chars(key, word) <= 1 {
                add_song_ids(&mut ids, index.postings_at(i));
            }
            proof {
                let words = index@.words;
                let fresh = if near {
                    song_ids(index@.postings[words[i as int]])
                } else {
                    Set::<u32>::empty()
                };
                assert(ids@.to_set() =~= before + fresh);
                assert forall|x: u32|
                    fuzzy_ids_upto(index@, key@, i + 1).contains(x) <==> (fuzzy_ids_upto(
                        index@,
                        key@,
                        i as int,
                    ).contains(x) || fresh.contains(x)) by {
                    if fuzzy_ids_upto(index@, key@, i + 1).contains(x) {
                        let w = choose|w: int|
                            0 <= w < i + 1 && edit_distance(key@, #[trigger] words[w]) <= 1
                                && song_ids(index@.postings[words[w]]).contains(x);
                        if w < i {
                            assert(fuzzy_ids_upto(index@, key@, i as int).contains(x));
                        }
                    }
                    if fuzzy_ids_upto(index@, key@, i as int).contains(x) {
                        let w = choose|w: int|
                            0 <= w < i && edit_distance(key@, #[trigger] words[w]) <= 1 && song_ids(
                                index@.postings[words[w]],
                            ).contains(x);
                        assert(0 <= w < i + 1);
                    }
                    if fresh.contains(x) {
                        assert(edit_distance(key@, words[i as int]) <= 1);
                    }
                }
                assert(ids@.to_set() =~= exact_ids(index@, key@) + fuzzy_ids_upto(
                    index@,
                    key@,
                    i + 1,
                ));
            }
            i += 1;
        }
        proof {
            lemma_fuzzy_ids_upto_all(index@, key@);
        }
    }
    ids
}

/// The identifiers that are in both ascending vectors.
fn intersect(a: &Vec<u32>, b: &Vec<u32>) -> (r: Vec<u32>)
    requires
        ascending(a@),
    ensures
        ascending(r@),
        r@.to_set() == a@.to_set().intersect(b@.to_set()),
{
    let mut out: Vec<u32> = Vec::new();
    let mut i: usize = 0;
    while i < a.len()
        invariant
            i <= a.len(),
            ascending(a@),
            ascending(out@),
            forall|x: u32|
                out@.contains(x) <==> (exists|j: int| 0 <= j < i && a@[j] == x) && b@.contains(x),
        decreases a.len() - i,
    {
        let id = a[i];
        let ghost before = out@;
        if contains_id(b, id) {
            out.push(id);
            proof {
                assert forall|w: int| 0 <= w < before.len() implies before[w] < id by {
                    assert(before.contains(before[w]));
                    let j = choose|j: int| 0 <= j < i && a@[j] == before[w];
                    assert(a@[j] < a@[i as int]);
                }
                assert forall|x: u32| out@.contains(x) <==> (before.contains(x) || x == id) by {
                    if before.contains(x) {
                        let w = choose|w: int| 0 <= w < before.len() && before[w] == x;
                        assert(out@[w] == x);
                    }
                    if x == id {
                        assert(out@[before.len() as int] == x);
                    }
                }
            }
        }
        proof {
            assert forall|x: u32|
                out@.contains(x) <==> (exists|j: int| 0 <= j < i + 1 && a@[j] == x) && b@.contains(
                    x,
                ) by {
                if (exists|j: int| 0 <= j < i + 1 && a@[j] == x) && b@.contains(x) {
                    let j = choose|j: int| 0 <= j < i + 1 && a@[j] == x;
                    if j < i {
                        assert(before.contains(x));
                    }
                }
                if before.contains(x) {
                    let j = choose|j: int| 0 <= j < i && a@[j] == x;
                    assert(0 <= j < i + 1 && a@[j] == x);
                }
            }
        }
        i += 1;
    }
    assert(out@.to_set() =~= a@.to_set().intersect(b@.to_set()));
    out
}

/// The songs of the collection whose identifier is among `ids`, in the
/// order of the collection.
fn resolve(songs: &Vec<Song>, ids: &Vec<u32>) -> (r: Vec<Song>)
    ensures
        r@ == songs@.filter(|song: Song| ids@.to_set().contains(song.id)),
{
    let ghost wanted = |song: Song| ids@.to_set().contains(song.id);
    let mut out: Vec<Song> = Vec::new();
    let mut i: usize = 0;
    proof {
        reveal(Seq::filter);
    }
    while i < songs.len()
        invariant
            i <= songs.len(),
            wanted == |song: Song| ids@.to_set().contains(song.id),
            out@ == songs@.take(i as int).filter(wanted),
        decreases songs.len() - i,
    {
        proof {
            reveal(Seq::filter);
            assert(songs@.take(i + 1).drop_last() =~= songs@.take(i as int));
        }
        if contains_id(ids, songs[i].id) {
            out.push(copy_song(&songs[i]));
        }
        i += 1;
    }
    assert(songs@.take(songs.len() as int) =~= songs@);
    out
}

/// Searches with a chosen fuzzy threshold: a term with fewer than
/// `threshold` exact postings is also matched against the words within one
/// edit of it.
pub fn search_with_threshold(index: &Index, query: &str, threshold: usize) -> (r: Vec<Song>)
    ensures
        r@ == search_spec(index@, query@, threshold as nat),
        query_terms(query@).len() == 0 ==> r@.len() == 0,
{
    let text = chars_of(query);
    let terms = split_words(&text);
    let songs = index.songs();
    let ghost all = query_terms(query@);
    if terms.len() == 0 {
        proof {
            lemma_empty_query_matches_nothing(index@, query@, threshold as nat);
        }
        return Vec::new();
    }
    let first = normalize_chars(&terms[0]);
    let mut ids = term_matches(index, &first, threshold);
    let mut t: usize = 1;
    proof {
        assert(views(terms@)[0] == terms@[0]@);
        assert forall|id: u32|
            ids@.to_set().contains(id) <==> matches_terms(
                index@,
                all,
                threshold as nat,
                1,
                id,
            ) by {}
    }
    while t < terms.len()
        invariant
            1 <= t <= terms.len(),
            views(terms@) == all,
            ascending(ids@),
            forall|id: u32|
                ids@.to_set().contains(id) <==> matches_terms(
                    index@,
                    all,
                    threshold as nat,
                    t as int,
                    id,
                ),
        decreases terms.len() - t,
    {
        let key = normalize_chars(&terms[t]);
        let next = term_matches(index, &key, threshold);
        let ghost before = ids@.to_set();
        ids = intersect(&ids, &next);
        proof {
            assert(views(terms@)[t as int] == terms@[t as int]@);
            assert forall|id: u32|
                ids@.to_set().contains(id) <==> matches_terms(
                    index@,
                    all,
                    threshold as nat,
                    t + 1,
                    id,
                ) by {
                assert(before.contains(id) <==> matches_terms(
                    index@,
                    all,
                    threshold as nat,
                    t as int,
                    id,
                ));
                assert(next@.to_set().contains(id) <==> term_ids(
                    index@,
                    normalize_spec(all[t as int]),
                    threshold as nat,
                ).contains(id));
            }
        }
        t += 1;
    }
    assert(ids@.to_set() =~= matching_ids(index@, all, threshold as nat));
    assert(all.len() > 0);
    resolve(songs, &ids)
}

/// Searches the index for the songs that hold every term of the query,
/// exactly or, for a term with few exact postings, within one edit.
pub fn search(index: &Index, query: &str) -> (r: Vec<Song>)
    ensures
        r@ == search_spec(index@, query@, FUZZY_THRESHOLD as nat),
        query_terms(query@).len() == 0 ==> r@.len() == 0,
{
    search_with_threshold(index, query, FUZZY_THRESHOLD)
}

} // verus!

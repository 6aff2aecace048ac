//! The song collection and its inverted index.

use vstd::prelude::*;
use crate::chars::chars_of;
use crate::distance::same_chars;
use crate::text::{
    line_len, lines_of, normalize_chars, normalize_spec, split_lines, split_words, views, words_of,
};

verus! {

/// A song: its identifier, its lyrics and its title.
#[derive(Debug, Clone)]
pub struct Song {
    pub id: u32,
    pub lyrics: String,
    pub title: String,
}

/// A copy of a song.
pub fn copy_song(song: &Song) -> (r: Song)
    ensures
        r == *song,
{
    Song { id: song.id, lyrics: song.lyrics.clone(), title: song.title.clone() }
}

/// One occurrence of a word: the song it stands in, the line within the
/// song's text, and the position of the word within that line.
#[derive(Debug, Clone, Copy, PartialEq, Eq, Structural)]
pub struct Posting {
    pub song_id: u32,
    pub line: usize,
    pub offset: usize,
}

/// A word of the vocabulary with its postings, in the order in which the
/// occurrences were met.
struct Entry {
    word: Vec<char>,
    postings: Vec<Posting>,
}

/// One occurrence of a word in the corpus: its lookup key and where it
/// stands.
pub struct Occurrence {
    pub key: Seq<char>,
    pub posting: Posting,
}

/// The text of a song that is indexed: the title, a space, and the lyrics,
/// so that the words of the title can be searched for too.
pub open spec fn song_text(song: Song) -> Seq<char> {
    song.title@ + seq![' '] + song.lyrics@
}

/// The occurrences in one line, word by word. Each word is recorded under
/// its lookup key, with its position among the words of the line. A word
/// without an alphanumeric scalar value is recorded too, under the empty
/// key.
pub open spec fn line_occurrences(id: u32, line: int, words: Seq<Seq<char>>) -> Seq<Occurrence> {
    Seq::new(
        words.len(),
        |j: int|
            Occurrence {
                key: normalize_spec(words[j]),
                posting: Posting { song_id: id, line: line as usize, offset: j as usize },
            },
    )
}

/// The occurrences in the first `upto` lines, line by line.
pub open spec fn lines_occurrences(id: u32, lines: Seq<Seq<char>>, upto: int) -> Seq<Occurrence>
    decreases upto,
{
    if upto <= 0 {
        Seq::empty()
    } else {
        lines_occurrences(id, lines, upto - 1) + line_occurrences(
            id,
            upto - 1,
            words_of(lines[upto - 1]),
        )
    }
}

/// The occurrences in one song, in reading order.
pub open spec fn song_occurrences(song: Song) -> Seq<Occurrence> {
    let lines = lines_of(song_text(song));
    lines_occurrences(song.id, lines, lines.len() as int)
}

/// The occurrences in a collection, song by song.
pub open spec fn corpus_occurrences(songs: Seq<Song>) -> Seq<Occurrence>
    decreases songs.len(),
{
    if songs.len() == 0 {
        Seq::empty()
    } else {
        corpus_occurrences(songs.drop_last()) + song_occurrences(songs.last())
    }
}

/// The postings of the occurrences of `key`, in order.
pub open spec fn postings_for(occurrences: Seq<Occurrence>, key: Seq<char>) -> Seq<Posting>
    decreases occurrences.len(),
{
    if occurrences.len() == 0 {
        Seq::empty()
    } else {
        let rest = postings_for(occurrences.drop_last(), key);
        if occurrences.last().key == key {
            rest.push(occurrences.last().posting)
        } else {
            rest
        }
    }
}

/// The postings of a concatenation are the postings of its parts, in order.
pub proof fn lemma_postings_for_add(a: Seq<Occurrence>, b: Seq<Occurrence>, key: Seq<char>)
    ensures
        postings_for(a + b, key) == postings_for(a, key) + postings_for(b, key),
    decreases b.len(),
{
    if b.len() == 0 {
        assert(a + b =~= a);
        assert(postings_for(a, key) + postings_for(b, key) =~= postings_for(a, key));
    } else {
        lemma_postings_for_add(a, b.drop_last(), key);
        assert((a + b).drop_last() =~= a + b.drop_last());
        assert((a + b).last() == b.last());
        if b.last().key == key {
            assert((postings_for(a, key) + postings_for(b.drop_last(), key)).push(b.last().posting)
                =~= postings_for(a, key) + postings_for(b.drop_last(), key).push(
                b.last().posting,
            ));
        }
    }
}

/// The vocabulary `base` extended by the keys of the occurrences: each key
/// that is not yet a word is added at the end when it is first met.
pub open spec fn extend_vocabulary(base: Seq<Seq<char>>, occurrences: Seq<Occurrence>) -> Seq<
    Seq<char>,
>
    decreases occurrences.len(),
{
    if occurrences.len() == 0 {
        base
    } else {
        let rest = extend_vocabulary(base, occurrences.drop_last());
        if rest.contains(occurrences.last().key) {
            rest
        } else {
            rest.push(occurrences.last().key)
        }
    }
}

/// The vocabulary of the occurrences: their keys, each once, in the order
/// in which they are first met.
pub open spec fn vocabulary_of(occurrences: Seq<Occurrence>) -> Seq<Seq<char>> {
    extend_vocabulary(Seq::empty(), occurrences)
}

/// Extending by a concatenation is extending by its parts in turn.
pub proof fn lemma_extend_vocabulary_add(
    base: Seq<Seq<char>>,
    a: Seq<Occurrence>,
    b: Seq<Occurrence>,
)
    ensures
        extend_vocabulary(base, a + b) == extend_vocabulary(extend_vocabulary(base, a), b),
    decreases b.len(),
{
    if b.len() == 0 {
        assert(a + b =~= a);
    } else {
        lemma_extend_vocabulary_add(base, a, b.drop_last());
        assert((a + b).drop_last() =~= a + b.drop_last());
        assert((a + b).last() == b.last());
    }
}

/// Extending a vocabulary keeps its words, adds exactly the keys of the
/// occurrences, and brings in no word twice.
pub proof fn lemma_extend_vocabulary(base: Seq<Seq<char>>, occurrences: Seq<Occurrence>)
    requires
        base.no_duplicates(),
    ensures
        extend_vocabulary(base, occurrences).no_duplicates(),
        forall|k: Seq<char>|
            extend_vocabulary(base, occurrences).contains(k) <==> base.contains(k)
                || postings_for(occurrences, k).len() > 0,
    decreases occurrences.len(),
{
    if occurrences.len() > 0 {
        let rest = extend_vocabulary(base, occurrences.drop_last());
        let key = occurrences.last().key;
        lemma_extend_vocabulary(base, occurrences.drop_last());
        let all = extend_vocabulary(base, occurrences);
        assert forall|k: Seq<char>|
            all.contains(k) <==> base.contains(k) || postings_for(occurrences, k).len() > 0 by {
            assert(rest.contains(k) <==> base.contains(k) || postings_for(
                occurrences.drop_last(),
                k,
            ).len() > 0);
            if !rest.contains(key) {
                assert(all.last() == key);
                if rest.contains(k) {
                    let i = choose|i: int| 0 <= i < rest.len() && rest[i] == k;
                    assert(all[i] == k);
                }
                if all.contains(k) && k != key {
                    let i = choose|i: int| 0 <= i < all.len() && all[i] == k;
                    assert(rest[i] == k);
                }
            }
        }
    }
}

/// The position of the first entry for `key`, if there is one.
spec fn position(entries: Seq<Entry>, key: Seq<char>) -> Option<int>
    decreases entries.len(),
{
    if entries.len() == 0 {
        None
    } else {
        match position(entries.drop_last(), key) {
            Some(i) => Some(i),
            None => if entries.last().word@ == key {
                Some(entries.len() - 1)
            } else {
                None
            },
        }
    }
}

/// The postings that the entries hold for `key`: none if no entry has it.
spec fn postings_in(entries: Seq<Entry>, key: Seq<char>) -> Seq<Posting> {
    match position(entries, key) {
        Some(i) => entries[i].postings@,
        None => Seq::empty(),
    }
}

/// The words of the entries, in order.
spec fn words_in(entries: Seq<Entry>) -> Seq<Seq<char>> {
    entries.map_values(|e: Entry| e.word@)
}

/// No word has two entries, and no entry is without postings.
spec fn entries_wf(entries: Seq<Entry>) -> bool {
    &&& forall|i: int, j: int|
        0 <= i < j < entries.len() ==> (#[trigger] entries[i]).word@ != (#[trigger] entries[j]).word@
    &&& forall|i: int| 0 <= i < entries.len() ==> (#[trigger] entries[i]).postings@.len() > 0
}

proof fn lemma_position(entries: Seq<Entry>, key: Seq<char>)
    ensures
        match position(entries, key) {
            Some(i) => 0 <= i < entries.len() && entries[i].word@ == key,
            None => forall|i: int| 0 <= i < entries.len() ==> (#[trigger] entries[i]).word@ != key,
        },
    decreases entries.len(),
{
    if entries.len() > 0 {
        lemma_position(entries.drop_last(), key);
        if position(entries, key) is None {
            assert forall|i: int| 0 <= i < entries.len() implies (#[trigger] entries[i]).word@
                != key by {
                if i < entries.len() - 1 {
                    assert(entries.drop_last()[i] == entries[i]);
                }
            }
        }
    }
}

proof fn lemma_position_unique(entries: Seq<Entry>, i: int)
    requires
        entries_wf(entries),
        0 <= i < entries.len(),
    ensures
        position(entries, entries[i].word@) == Some(i),
{
    lemma_position(entries, entries[i].word@);
}

/// Records one occurrence of `key`: appends the posting to the entry for
/// `key`, or opens a new entry at the end.
fn record(entries: &mut Vec<Entry>, key: Vec<char>, posting: Posting)
    requires
        entries_wf(old(entries)@),
    ensures
        entries_wf(final(entries)@),
        words_in(final(entries)@) == if words_in(old(entries)@).contains(key@) {
            words_in(old(entries)@)
        } else {
            words_in(old(entries)@).push(key@)
        },
        forall|k: Seq<char>|
            #![trigger postings_in(final(entries)@, k)]
            postings_in(final(entries)@, k) == if k == key@ {
                postings_in(old(entries)@, k).push(posting)
            } else {
                postings_in(old(entries)@, k)
            },
{
    let mut i: usize = 0;
    while i < entries.len()
        invariant
            i <= entries.len(),
            *entries == *old(entries),
            entries_wf(entries@),
            forall|j: int| 0 <= j < i ==> (#[trigger] entries@[j]).word@ != key@,
        decreases entries.len() - i,
    {
        if same_chars(&entries[i].word, &key) {
            entries[i].postings.push(posting);
            proof {
                let before = old(entries)@;
                let after = entries@;
                assert(after.len() == before.len());
                assert(after[i as int].word@ == key@);
                assert(after[i as int].postings@ == before[i as int].postings@.push(posting));
                assert(forall|j: int| 0 <= j < after.len() && j != i ==> after[j] == before[j]);
                assert(forall|j: int| 0 <= j < after.len() ==> after[j].word@ == before[j].word@);
                assert(entries_wf(after));
                assert(words_in(before)[i as int] == key@);
                assert(words_in(after) =~= words_in(before));
                assert forall|k: Seq<char>| #![trigger postings_in(after, k)]
                    postings_in(after, k) == if k == key@ {
                        postings_in(before, k).push(posting)
                    } else {
                        postings_in(before, k)
                    } by {
                    lemma_position(before, k);
                    lemma_position(after, k);
                    if position(before, k) is Some {
                        lemma_position_unique(before, position(before, k).unwrap());
                    }
                    if position(after, k) is Some {
                        lemma_position_unique(after, position(after, k).unwrap());
                    }
                }
            }
            return;
        }
        i += 1;
    }
    let mut postings: Vec<Posting> = Vec::new();
    postings.push(posting);
    entries.push(Entry { word: key, postings });
    proof {
        let before = old(entries)@;
        let after = entries@;
        assert(after.drop_last() =~= before);
        assert(words_in(after) =~= words_in(before).push(key@));
        if words_in(before).contains(key@) {
            let w = choose|w: int| 0 <= w < words_in(before).len() && words_in(before)[w] == key@;
            assert(before[w].word@ == key@);
        }
        assert forall|k: Seq<char>| #![trigger postings_in(after, k)]
            postings_in(after, k) == if k == key@ {
                postings_in(before, k).push(posting)
            } else {
                postings_in(before, k)
            } by {
            lemma_position(before, k);
            if k == key@ {
                assert(postings_in(after, k) =~= Seq::<Posting>::empty().push(posting));
            }
        }
    }
}

/// Records the occurrences in one line of a song.
fn index_line(entries: &mut Vec<Entry>, id: u32, line_no: usize, line: &Vec<char>)
    requires
        entries_wf(old(entries)@),
    ensures
        entries_wf(final(entries)@),
        words_in(final(entries)@) == extend_vocabulary(
            words_in(old(entries)@),
            line_occurrences(id, line_no as int, words_of(line@)),
        ),
        forall|k: Seq<char>|
            #![trigger postings_in(final(entries)@, k)]
            postings_in(final(entries)@, k) == postings_in(old(entries)@, k) + postings_for(
                line_occurrences(id, line_no as int, words_of(line@)),
                k,
            ),
{
    let words = split_words(line);
    let ghost occ = line_occurrences(id, line_no as int, words_of(line@));
    let mut j: usize = 0;
    assert forall|k: Seq<char>| #![trigger postings_in(entries@, k)]
        postings_in(entries@, k) == postings_in(old(entries)@, k) + postings_for(occ.take(0), k) by {
        assert(postings_in(old(entries)@, k) + Seq::<Posting>::empty() =~= postings_in(
            old(entries)@,
            k,
        ));
    }
    while j < words.len()
        invariant
            j <= words.len(),
            views(words@) == words_of(line@),
            occ == line_occurrences(id, line_no as int, words_of(line@)),
            entries_wf(entries@),
            words_in(entries@) == extend_vocabulary(words_in(old(entries)@), occ.take(j as int)),
            forall|k: Seq<char>|
                #![trigger postings_in(entries@, k)]
                postings_in(entries@, k) == postings_in(old(entries)@, k) + postings_for(
                    occ.take(j as int),
                    k,
                ),
        decreases words.len() - j,
    {
        let key = normalize_chars(&words[j]);
        let posting = Posting { song_id: id, line: line_no, offset: j };
        let ghost before = entries@;
        record(entries, key, posting);
        proof {
            assert(views(words@)[j as int] == words@[j as int]@);
            assert(occ[j as int].key == key@);
            assert(occ[j as int].posting == posting);
            assert(occ.take(j + 1).drop_last() =~= occ.take(j as int));
            assert(occ.take(j + 1).last() == occ[j as int]);
            assert forall|k: Seq<char>| #![trigger postings_in(entries@, k)]
                postings_in(entries@, k) == postings_in(old(entries)@, k) + postings_for(
                    occ.take(j + 1),
                    k,
                ) by {
                assert(postings_in(before, k) == postings_in(old(entries)@, k) + postings_for(
                    occ.take(j as int),
                    k,
                ));
                if k == key@ {
                    assert((postings_in(old(entries)@, k) + postings_for(occ.take(j as int), k)).push(
                        posting,
                    ) =~= postings_in(old(entries)@, k) + postings_for(occ.take(j as int), k).push(
                        posting,
                    ));
                }
            }
        }
        j += 1;
    }
    assert(occ.take(words.len() as int) =~= occ);
}

/// The text of a song that is indexed, as scalar values.
fn text_of(song: &Song) -> (text: Vec<char>)
    ensures
        text@ == song_text(*song),
{
    let mut text = chars_of(song.title.as_str());
    text.push(' ');
    let mut lyrics = chars_of(song.lyrics.as_str());
    text.append(&mut lyrics);
    assert(text@ =~= song_text(*song));
    text
}

/// Records the occurrences in one song.
fn index_song(entries: &mut Vec<Entry>, song: &Song)
    requires
        entries_wf(old(entries)@),
    ensures
        entries_wf(final(entries)@),
        words_in(final(entries)@) == extend_vocabulary(
            words_in(old(entries)@),
            song_occurrences(*song),
        ),
        forall|k: Seq<char>|
            #![trigger postings_in(final(entries)@, k)]
            postings_in(final(entries)@, k) == postings_in(old(entries)@, k) + postings_for(
                song_occurrences(*song),
                k,
            ),
{
    let text = text_of(song);
    let lines = split_lines(&text);
    let ghost all = lines_of(song_text(*song));
    let mut l: usize = 0;
    assert forall|k: Seq<char>| #![trigger postings_in(entries@, k)]
        postings_in(entries@, k) == postings_in(old(entries)@, k) + postings_for(
            lines_occurrences(song.id, all, 0),
            k,
        ) by {
        assert(postings_in(old(entries)@, k) + Seq::<Posting>::empty() =~= postings_in(
            old(entries)@,
            k,
        ));
    }
    while l < lines.len()
        invariant
            l <= lines.len(),
            views(lines@) == all,
            all == lines_of(song_text(*song)),
            entries_wf(entries@),
            words_in(entries@) == extend_vocabulary(
                words_in(old(entries)@),
                lines_occurrences(song.id, all, l as int),
            ),
            forall|k: Seq<char>|
                #![trigger postings_in(entries@, k)]
                postings_in(entries@, k) == postings_in(old(entries)@, k) + postings_for(
                    lines_occurrences(song.id, all, l as int),
                    k,
                ),
        decreases lines.len() - l,
    {
        let ghost before = entries@;
        index_line(entries, song.id, l, &lines[l]);
        proof {
            assert(all[l as int] == lines@[l as int]@);
            let done = lines_occurrences(song.id, all, l as int);
            let fresh = line_occurrences(song.id, l as int, words_of(all[l as int]));
            assert(lines_occurrences(song.id, all, l + 1) == done + fresh);
            lemma_extend_vocabulary_add(words_in(old(entries)@), done, fresh);
            assert forall|k: Seq<char>| #![trigger postings_in(entries@, k)]
                postings_in(entries@, k) == postings_in(old(entries)@, k) + postings_for(
                    lines_occurrences(song.id, all, l + 1),
                    k,
                ) by {
                lemma_postings_for_add(done, fresh, k);
                assert(postings_in(before, k) == postings_in(old(entries)@, k) + postings_for(
                    done,
                    k,
                ));
                assert((postings_in(old(entries)@, k) + postings_for(done, k)) + postings_for(
                    fresh,
                    k,
                ) =~= postings_in(old(entries)@, k) + (postings_for(done, k) + postings_for(
                    fresh,
                    k,
                )));
            }
        }
        l += 1;
    }
}

/// What an index holds: the songs as they were given, the words of the
/// vocabulary in the order in which they were first met, and for each word
/// its postings in reading order.
pub struct IndexView {
    pub songs: Seq<Song>,
    pub words: Seq<Seq<char>>,
    pub postings: Map<Seq<char>, Seq<Posting>>,
}

impl IndexView {
    /// The postings recorded under `key`: none if the vocabulary lacks it.
    pub open spec fn postings_of(self, key: Seq<char>) -> Seq<Posting> {
        if self.postings.dom().contains(key) {
            self.postings[key]
        } else {
            Seq::empty()
        }
    }

    /// Whether some song of the collection has the identifier `id`.
    pub open spec fn has_song(self, id: u32) -> bool {
        exists|t: int| 0 <= t < self.songs.len() && (#[trigger] self.songs[t]).id == id
    }

    /// Whether the song at position `t` is the first with the identifier
    /// `id`.
    pub open spec fn is_first_with_id(self, t: int, id: u32) -> bool {
        &&& 0 <= t < self.songs.len()
        &&& self.songs[t].id == id
        &&& forall|u: int| 0 <= u < t ==> (#[trigger] self.songs[u]).id != id
    }

    /// The vocabulary lists each word once, the words are the keys of the
    /// postings, every word has at least one posting, and every posting
    /// refers to a song of the collection.
    pub open spec fn valid(self) -> bool {
        &&& self.words.no_duplicates()
        &&& forall|k: Seq<char>| #[trigger]
            self.postings.dom().contains(k) <==> self.words.contains(k)
        &&& forall|k: Seq<char>| #[trigger]
            self.postings.dom().contains(k) ==> self.postings[k].len() > 0
        &&& forall|k: Seq<char>, j: int|
            self.postings.dom().contains(k) && 0 <= j < self.postings[k].len() ==> self.has_song(
                (#[trigger] self.postings[k][j]).song_id,
            )
    }
}

/// The index of a collection: the songs unchanged, the keys that occur as
/// the vocabulary, and under each key the postings of its occurrences. A
/// key is in the vocabulary exactly when it occurs.
pub open spec fn index_of(songs: Seq<Song>) -> IndexView {
    let occurrences = corpus_occurrences(songs);
    IndexView {
        songs,
        words: vocabulary_of(occurrences),
        postings: Map::new(
            |k: Seq<char>| postings_for(occurrences, k).len() > 0,
            |k: Seq<char>| postings_for(occurrences, k),
        ),
    }
}

/// Whether the song holds, in its title or lyrics, a word with lookup key
/// `key`.
pub open spec fn song_holds(song: Song, key: Seq<char>) -> bool {
    let lines = lines_of(song_text(song));
    exists|l: int, j: int|
        0 <= l < lines.len() && 0 <= j < words_of(lines[l]).len() && normalize_spec(
            #[trigger] words_of(lines[l])[j],
        ) == key
}

/// A song without title and without lyrics has no occurrences.
pub proof fn lemma_empty_song_has_no_occurrences(song: Song)
    requires
        song.title@.len() == 0,
        song.lyrics@.len() == 0,
    ensures
        song_occurrences(song) == Seq::<Occurrence>::empty(),
{
    let text = song_text(song);
    assert(text =~= seq![' ']);
    assert(text.skip(1) =~= Seq::<char>::empty());
    assert(line_len(text) == 1) by {
        reveal_with_fuel(line_len, 2);
    }
    assert(lines_of(text) =~= seq![text]);
    assert(words_of(text) =~= Seq::<Seq<char>>::empty()) by {
        reveal_with_fuel(words_of, 2);
    }
    assert(lines_occurrences(song.id, lines_of(text), 1) =~= Seq::<Occurrence>::empty()) by {
        reveal_with_fuel(lines_occurrences, 2);
    }
}

/// Every occurrence in the first `upto` lines of a song carries the song's
/// identifier.
pub proof fn lemma_lines_occurrences_id(id: u32, lines: Seq<Seq<char>>, upto: int, i: int)
    requires
        0 <= i < lines_occurrences(id, lines, upto).len(),
    ensures
        lines_occurrences(id, lines, upto)[i].posting.song_id == id,
    decreases upto,
{
    if upto > 0 {
        let done = lines_occurrences(id, lines, upto - 1);
        if i < done.len() {
            lemma_lines_occurrences_id(id, lines, upto - 1, i);
        }
    }
}

/// Every occurrence in a collection carries the identifier of one of its
/// songs.
pub proof fn lemma_corpus_occurrence_id(songs: Seq<Song>, i: int)
    requires
        0 <= i < corpus_occurrences(songs).len(),
    ensures
        exists|t: int|
            0 <= t < songs.len() && (#[trigger] songs[t]).id == corpus_occurrences(
                songs,
            )[i].posting.song_id,
    decreases songs.len(),
{
    if songs.len() > 0 {
        let done = corpus_occurrences(songs.drop_last());
        if i < done.len() {
            lemma_corpus_occurrence_id(songs.drop_last(), i);
            let t = choose|t: int|
                0 <= t < songs.drop_last().len() && (#[trigger] songs.drop_last()[t]).id
                    == done[i].posting.song_id;
            assert(songs[t].id == done[i].posting.song_id);
        } else {
            let last = songs.last();
            let lines = lines_of(song_text(last));
            lemma_lines_occurrences_id(last.id, lines, lines.len() as int, i - done.len());
            assert(songs[songs.len() - 1].id == last.id);
        }
    }
}

/// Every posting for `key` is the posting of an occurrence of `key`.
pub proof fn lemma_posting_origin(occurrences: Seq<Occurrence>, key: Seq<char>, j: int)
    requires
        0 <= j < postings_for(occurrences, key).len(),
    ensures
        exists|i: int|
            0 <= i < occurrences.len() && (#[trigger] occurrences[i]).key == key
                && occurrences[i].posting == postings_for(occurrences, key)[j],
    decreases occurrences.len(),
{
    if occurrences.len() > 0 {
        let rest = occurrences.drop_last();
        if j < postings_for(rest, key).len() {
            lemma_posting_origin(rest, key, j);
            let i = choose|i: int|
                0 <= i < rest.len() && (#[trigger] rest[i]).key == key && rest[i].posting
                    == postings_for(rest, key)[j];
            assert(occurrences[i] == rest[i]);
        } else {
            assert(occurrences[occurrences.len() - 1].key == key);
        }
    }
}

/// Every occurrence has its posting among the postings for its key.
pub proof fn lemma_posting_recorded(occurrences: Seq<Occurrence>, i: int)
    requires
        0 <= i < occurrences.len(),
    ensures
        postings_for(occurrences, occurrences[i].key).contains(occurrences[i].posting),
    decreases occurrences.len(),
{
    let key = occurrences[i].key;
    let rest = occurrences.drop_last();
    if i < occurrences.len() - 1 {
        lemma_posting_recorded(rest, i);
        let j = choose|j: int|
            0 <= j < postings_for(rest, key).len() && postings_for(rest, key)[j]
                == rest[i].posting;
        assert(postings_for(occurrences, key)[j] == occurrences[i].posting);
    } else {
        let all = postings_for(occurrences, key);
        assert(all[all.len() - 1] == occurrences[i].posting);
    }
}

/// The index of a collection is valid: no word of its vocabulary is without
/// postings, and every posting refers to a song of the collection.
pub proof fn lemma_index_of_valid(songs: Seq<Song>)
    ensures
        index_of(songs).valid(),
        index_of(songs).songs == songs,
{
    let index = index_of(songs);
    let occurrences = corpus_occurrences(songs);
    lemma_extend_vocabulary(Seq::empty(), occurrences);
    assert forall|k: Seq<char>| #[trigger]
        index.postings.dom().contains(k) <==> index.words.contains(k) by {
        assert(!Seq::<Seq<char>>::empty().contains(k));
    }
    assert forall|k: Seq<char>, j: int|
        index.postings.dom().contains(k) && 0 <= j < index.postings[k].len() implies index.has_song(
        (#[trigger] index.postings[k][j]).song_id,
    ) by {
        lemma_posting_origin(occurrences, k, j);
        let i = choose|i: int|
            0 <= i < occurrences.len() && (#[trigger] occurrences[i]).key == k
                && occurrences[i].posting == postings_for(occurrences, k)[j];
        lemma_corpus_occurrence_id(songs, i);
        let t = choose|t: int|
            0 <= t < songs.len() && (#[trigger] songs[t]).id == occurrences[i].posting.song_id;
        assert(index.songs[t].id == index.postings[k][j].song_id);
    }
}

/// A word that a song of the collection holds is in the vocabulary of the
/// index, with a posting that refers to that song.
pub proof fn lemma_held_word_is_indexed(songs: Seq<Song>, s: int, key: Seq<char>)
    requires
        0 <= s < songs.len(),
        song_holds(songs[s], key),
    ensures
        index_of(songs).postings.dom().contains(key),
        exists|j: int|
            0 <= j < index_of(songs).postings[key].len() && (#[trigger] index_of(
                songs,
            ).postings[key][j]).song_id == songs[s].id,
{
    let song = songs[s];
    let lines = lines_of(song_text(song));
    let (l, w) = choose|l: int, w: int|
        0 <= l < lines.len() && 0 <= w < words_of(lines[l]).len() && normalize_spec(
            #[trigger] words_of(lines[l])[w],
        ) == key;
    let in_line = line_occurrences(song.id, l, words_of(lines[l]));
    let o = in_line[w];
    assert(o.key == key && o.posting.song_id == song.id);
    lemma_line_in_lines(song.id, lines, lines.len() as int, l, w);
    lemma_song_in_corpus(songs, s, o);
    let occurrences = corpus_occurrences(songs);
    let i = choose|i: int| 0 <= i < occurrences.len() && occurrences[i] == o;
    lemma_posting_recorded(occurrences, i);
    let found = postings_for(occurrences, key);
    let j = choose|j: int| 0 <= j < found.len() && found[j] == o.posting;
    assert(index_of(songs).postings[key][j].song_id == song.id);
}

proof fn lemma_line_in_lines(id: u32, lines: Seq<Seq<char>>, upto: int, l: int, w: int)
    requires
        0 <= l < upto <= lines.len(),
        0 <= w < words_of(lines[l]).len(),
    ensures
        lines_occurrences(id, lines, upto).contains(
            line_occurrences(id, l, words_of(lines[l]))[w],
        ),
    decreases upto,
{
    let done = lines_occurrences(id, lines, upto - 1);
    let fresh = line_occurrences(id, upto - 1, words_of(lines[upto - 1]));
    let o = line_occurrences(id, l, words_of(lines[l]))[w];
    if l < upto - 1 {
        lemma_line_in_lines(id, lines, upto - 1, l, w);
        let i = choose|i: int| 0 <= i < done.len() && done[i] == o;
        assert((done + fresh)[i] == o);
    } else {
        assert((done + fresh)[done.len() + w] == o);
    }
}

proof fn lemma_song_in_corpus(songs: Seq<Song>, s: int, o: Occurrence)
    requires
        0 <= s < songs.len(),
        song_occurrences(songs[s]).contains(o),
    ensures
        corpus_occurrences(songs).contains(o),
    decreases songs.len(),
{
    let done = corpus_occurrences(songs.drop_last());
    let fresh = song_occurrences(songs.last());
    if s < songs.len() - 1 {
        assert(songs.drop_last()[s] == songs[s]);
        lemma_song_in_corpus(songs.drop_last(), s, o);
        let i = choose|i: int| 0 <= i < done.len() && done[i] == o;
        assert((done + fresh)[i] == o);
    } else {
        let i = choose|i: int| 0 <= i < fresh.len() && fresh[i] == o;
        assert((done + fresh)[done.len() + i] == o);
    }
}

/// An inverted index over a song collection. It is built once, by
/// [`create_index`], and only read afterwards.
pub struct Index {
    songs: Vec<Song>,
    entries: Vec<Entry>,
}

/// What the songs and the entries hold together.
spec fn view_of(songs: Seq<Song>, entries: Seq<Entry>) -> IndexView {
    IndexView {
        songs,
        words: words_in(entries),
        postings: Map::new(
            |k: Seq<char>| position(entries, k) is Some,
            |k: Seq<char>| postings_in(entries, k),
        ),
    }
}

impl View for Index {
    type V = IndexView;

    closed spec fn view(&self) -> IndexView {
        view_of(self.songs@, self.entries@)
    }
}

impl Index {
    /// The entries hold, word by word, the index of the songs.
    #[verifier::type_invariant]
    closed spec fn inv(self) -> bool {
        &&& entries_wf(self.entries@)
        &&& words_in(self.entries@) == vocabulary_of(corpus_occurrences(self.songs@))
        &&& forall|k: Seq<char>| #[trigger]
            postings_in(self.entries@, k) == postings_for(corpus_occurrences(self.songs@), k)
    }
}

/// An entry's word has a position among the entries, and only such a word
/// has one.
proof fn lemma_entries_keys(entries: Seq<Entry>)
    ensures
        forall|k: Seq<char>| #[trigger]
            words_in(entries).contains(k) <==> position(entries, k) is Some,
{
    assert forall|k: Seq<char>| #[trigger]
        words_in(entries).contains(k) <==> position(entries, k) is Some by {
        lemma_position(entries, k);
        if position(entries, k) is Some {
            let i = position(entries, k).unwrap();
            assert(words_in(entries)[i] == k);
        }
        if words_in(entries).contains(k) {
            let i = choose|i: int| 0 <= i < words_in(entries).len() && words_in(entries)[i] == k;
            assert(entries[i].word@ == k);
        }
    }
}

impl Index {
    /// The songs of the collection, as they were given. The index is the
    /// index of these songs.
    pub fn songs(&self) -> (r: &Vec<Song>)
        ensures
            r@ == self@.songs,
            self@ == index_of(self@.songs),
            self@.valid(),
    {
        proof {
            use_type_invariant(self);
            lemma_view_is_index(self.songs@, self.entries@);
            lemma_index_of_valid(self.songs@);
        }
        &self.songs
    }

    /// The number of songs in the collection.
    pub fn song_count(&self) -> (n: usize)
        ensures
            n == self@.songs.len(),
    {
        self.songs.len()
    }

    /// The first song of the collection with the identifier `id`.
    pub fn song(&self, id: u32) -> (r: Option<&Song>)
        ensures
            match r {
                Some(song) => song.id == id && exists|t: int| #[trigger]
                    self@.is_first_with_id(t, id) && self@.songs[t] == *song,
                None => !self@.has_song(id),
            },
    {
        let mut i: usize = 0;
        while i < self.songs.len()
            invariant
                i <= self.songs.len(),
                forall|u: int| 0 <= u < i ==> (#[trigger] self.songs@[u]).id != id,
            decreases self.songs.len() - i,
        {
            if self.songs[i].id == id {
                assert(self@.is_first_with_id(i as int, id));
                return Some(&self.songs[i]);
            }
            i += 1;
        }
        None
    }

    /// Whether the vocabulary is empty.
    pub fn is_empty(&self) -> (r: bool)
        ensures
            r == (self@.words.len() == 0),
            r == (self@.postings.dom() == Set::<Seq<char>>::empty()),
    {
        proof {
            lemma_entries_keys(self.entries@);
            if self@.words.len() > 0 {
                assert(self@.words.contains(self@.words[0]));
                assert(self@.postings.dom().contains(self@.words[0]));
            } else {
                assert(self@.postings.dom() =~= Set::<Seq<char>>::empty());
            }
        }
        self.entries.len() == 0
    }

    /// Whether `word` is a word of the vocabulary, taken as it is.
    pub fn contains_key(&self, word: &str) -> (r: bool)
        ensures
            r == self@.postings.dom().contains(word@),
    {
        let key = chars_of(word);
        match self.find(&key) {
            Some(i) => {
                assert(self@.words.contains(self@.words[i as int]));
                true
            },
            None => false,
        }
    }

    /// The postings recorded under `word`, taken as it is: none if the
    /// vocabulary lacks it.
    pub fn lookup(&self, word: &str) -> (r: Vec<Posting>)
        ensures
            r@ == self@.postings_of(word@),
    {
        let key = chars_of(word);
        let mut out: Vec<Posting> = Vec::new();
        match self.find(&key) {
            Some(i) => {
                let found = self.postings_at(i);
                let mut j: usize = 0;
                while j < found.len()
                    invariant
                        j <= found.len(),
                        out@ == found@.take(j as int),
                    decreases found.len() - j,
                {
                    out.push(found[j]);
                    assert(found@.take(j + 1) =~= found@.take(j as int).push(found@[j as int]));
                    j += 1;
                }
                assert(found@.take(found.len() as int) =~= found@);
            },
            None => {},
        }
        out
    }

    /// The number of words in the vocabulary.
    pub fn word_count(&self) -> (n: usize)
        ensures
            n == self@.words.len(),
            self@ == index_of(self@.songs),
            self@.valid(),
    {
        proof {
            use_type_invariant(self);
            lemma_view_is_index(self.songs@, self.entries@);
            lemma_index_of_valid(self.songs@);
        }
        self.entries.len()
    }

    /// The word at position `i` of the vocabulary.
    pub fn word(&self, i: usize) -> (r: &Vec<char>)
        requires
            i < self@.words.len(),
        ensures
            r@ == self@.words[i as int],
    {
        &self.entries[i].word
    }

    /// The postings of the word at position `i` of the vocabulary.
    pub fn postings_at(&self, i: usize) -> (r: &Vec<Posting>)
        requires
            i < self@.words.len(),
        ensures
            self@.postings.dom().contains(self@.words[i as int]),
            r@ == self@.postings[self@.words[i as int]],
    {
        proof {
            use_type_invariant(self);
            lemma_position_unique(self.entries@, i as int);
        }
        &self.entries[i].postings
    }

    /// The position of `key` in the vocabulary, if it is a word of it.
    pub fn find(&self, key: &Vec<char>) -> (r: Option<usize>)
        ensures
            match r {
                Some(i) => i < self@.words.len() && self@.words[i as int] == key@
                    && self@.postings.dom().contains(key@),
                None => !self@.words.contains(key@) && !self@.postings.dom().contains(key@),
            },
    {
        let mut i: usize = 0;
        while i < self.entries.len()
            invariant
                i <= self.entries.len(),
                forall|j: int| 0 <= j < i ==> (#[trigger] self.entries@[j]).word@ != key@,
            decreases self.entries.len() - i,
        {
            if same_chars(&self.entries[i].word, key) {
                proof {
                    lemma_entries_keys(self.entries@);
                    assert(words_in(self.entries@)[i as int] == key@);
                    assert(words_in(self.entries@).contains(key@));
                }
                return Some(i);
            }
            i += 1;
        }
        proof {
            lemma_entries_keys(self.entries@);
            lemma_position(self.entries@, key@);
        }
        None
    }
}

proof fn lemma_view_is_index(songs: Seq<Song>, entries: Seq<Entry>)
    requires
        entries_wf(entries),
        words_in(entries) == vocabulary_of(corpus_occurrences(songs)),
        forall|k: Seq<char>| #[trigger]
            postings_in(entries, k) == postings_for(corpus_occurrences(songs), k),
    ensures
        view_of(songs, entries) == index_of(songs),
{
    let left = Map::new(
        |k: Seq<char>| position(entries, k) is Some,
        |k: Seq<char>| postings_in(entries, k),
    );
    let right = index_of(songs).postings;
    assert forall|k: Seq<char>| left.dom().contains(k) <==> right.dom().contains(k) by {
        lemma_position(entries, k);
        assert(postings_in(entries, k) == postings_for(corpus_occurrences(songs), k));
    }
    assert forall|k: Seq<char>| left.dom().contains(k) implies left[k] == right[k] by {
        assert(postings_in(entries, k) == postings_for(corpus_occurrences(songs), k));
    }
    assert(left =~= right);
}

/// Builds the index of a song collection in one pass over its songs, lines
/// and words.
pub fn create_index(songs: Vec<Song>) -> (index: Index)
    ensures
        index@ == index_of(songs@),
{
    let mut entries: Vec<Entry> = Vec::new();
    let mut s: usize = 0;
    assert(words_in(entries@) =~= Seq::<Seq<char>>::empty());
    while s < songs.len()
        invariant
            s <= songs.len(),
            entries_wf(entries@),
            words_in(entries@) == vocabulary_of(corpus_occurrences(songs@.take(s as int))),
            forall|k: Seq<char>|
                #![trigger postings_in(entries@, k)]
                postings_in(entries@, k) == postings_for(
                    corpus_occurrences(songs@.take(s as int)),
                    k,
                ),
        decreases songs.len() - s,
    {
        let ghost before = entries@;
        index_song(&mut entries, &songs[s]);
        proof {
            let done = corpus_occurrences(songs@.take(s as int));
            let fresh = song_occurrences(songs@[s as int]);
            assert(songs@.take(s + 1).drop_last() =~= songs@.take(s as int));
            assert(songs@.take(s + 1).last() == songs@[s as int]);
            assert(corpus_occurrences(songs@.take(s + 1)) == done + fresh);
            lemma_extend_vocabulary_add(Seq::empty(), done, fresh);
            assert forall|k: Seq<char>| #![trigger postings_in(entries@, k)]
                postings_in(entries@, k) == postings_for(
                    corpus_occurrences(songs@.take(s + 1)),
                    k,
                ) by {
                lemma_postings_for_add(done, fresh, k);
                assert(postings_in(before, k) == postings_for(done, k));
            }
        }
        s += 1;
    }
    proof {
        assert(songs@.take(songs.len() as int) =~= songs@);
        lemma_view_is_index(songs@, entries@);
    }
    Index { songs, entries }
}

} // verus!

//! Ranking of search results by how often the raw query occurs in the
//! lyrics.

use vstd::prelude::*;
use crate::chars::chars_of;
use crate::index::{copy_song, Song};
use crate::pattern::{count_occurrences, count_spec};

verus! {

/// A song with the number of times the query occurs in its lyrics.
pub struct Ranked {
    pub frequency: usize,
    pub song: Song,
}

/// The score of a song for a query: the number of occurrences of the query,
/// as it was typed, in the lyrics.
pub open spec fn score_spec(song: Song, query: Seq<char>) -> nat {
    count_spec(song.lyrics@, query)
}

/// Whether the song at position `i` is ranked before the one at position
/// `j`: it has the higher score, or the same score and the earlier place.
pub open spec fn ranks_before(scores: Seq<nat>, i: int, j: int) -> bool {
    scores[i] > scores[j] || (scores[i] == scores[j] && i < j)
}

/// Whether `order` lists the positions `0..scores.len()`, each once, so
/// that scores descend and equal scores keep the order of their positions.
pub open spec fn is_ranking(scores: Seq<nat>, order: Seq<int>) -> bool {
    &&& order.len() == scores.len()
    &&& forall|a: int| 0 <= a < order.len() ==> 0 <= #[trigger] order[a] < scores.len()
    &&& forall|a: int, b: int|
        0 <= a < b < order.len() ==> ranks_before(scores, #[trigger] order[a], #[trigger] order[b])
    &&& forall|i: int| 0 <= i < scores.len() ==> order.contains(i)
}

/// Two rankings of the same scores agree at every place: the scores decide
/// the ranking.
pub proof fn lemma_ranking_is_unique(scores: Seq<nat>, first: Seq<int>, second: Seq<int>, at: int)
    requires
        is_ranking(scores, first),
        is_ranking(scores, second),
        0 <= at < scores.len(),
    ensures
        first[at] == second[at],
    decreases at,
{
    assert forall|a: int| 0 <= a < at implies first[a] == second[a] by {
        lemma_ranking_is_unique(scores, first, second, a);
    }
    let x = first[at];
    let y = second[at];
    assert(second.contains(x));
    let b = choose|b: int| 0 <= b < second.len() && second[b] == x;
    assert(first.contains(y));
    let c = choose|c: int| 0 <= c < first.len() && first[c] == y;
    if b < at {
        assert(first[b] == second[b]);
        assert(ranks_before(scores, first[b], first[at]));
    } else if c < at {
        assert(first[c] == second[c]);
        assert(ranks_before(scores, second[c], second[at]));
    } else if b > at && c > at {
        assert(ranks_before(scores, second[at], second[b]));
        assert(ranks_before(scores, first[at], first[c]));
    }
}

/// The scores of the songs for a query, song by song.
pub open spec fn scores_of(songs: Seq<Song>, query: Seq<char>) -> Seq<nat> {
    Seq::new(songs.len(), |i: int| score_spec(songs[i], query))
}

/// The order in which the songs are ranked: positions into `songs`, by
/// descending score, songs of equal score in the order in which they came.
fn ranking_order(scores: &Vec<usize>) -> (order: Vec<usize>)
    ensures
        is_ranking(scores@.map_values(|s: usize| s as nat), order@.map_values(|p: usize| p as int)),
{
    let n = scores.len();
    let ghost all = scores@.map_values(|s: usize| s as nat);
    let mut order: Vec<usize> = Vec::new();
    let mut k: usize = 0;
    while k < n
        invariant
            k <= n,
            n == scores@.len(),
            all == scores@.map_values(|s: usize| s as nat),
            order@.len() == k,
            forall|a: int| 0 <= a < k ==> 0 <= #[trigger] order@[a] < k,
            forall|a: int, b: int|
                0 <= a < b < k ==> ranks_before(
                    all,
                    (#[trigger] order@[a]) as int,
                    (#[trigger] order@[b]) as int,
                ),
            forall|i: usize| i < k ==> order@.contains(i),
        decreases n - k,
    {
        let mut at: usize = 0;
        while at < order.len() && scores[order[at]] >= scores[k]
            invariant
                at <= order@.len() == k < n,
                n == scores@.len(),
                forall|a: int| 0 <= a < k ==> 0 <= #[trigger] order@[a] < k,
                forall|a: int| 0 <= a < at ==> scores@[(#[trigger] order@[a]) as int] >= scores@[k as int],
            decreases order.len() - at,
        {
            at += 1;
        }
        let ghost before = order@;
        order.insert(at, k);
        proof {
            let after = order@;
            assert forall|a: int| 0 <= a < k + 1 implies 0 <= #[trigger] after[a] < k + 1 by {
                if a < at {
                    assert(after[a] == before[a]);
                } else if a > at {
                    assert(after[a] == before[a - 1]);
                }
            }
            assert forall|a: int, b: int| 0 <= a < b < k + 1 implies ranks_before(
                all,
                (#[trigger] after[a]) as int,
                (#[trigger] after[b]) as int,
            ) by {
                if b < at {
                    assert(after[a] == before[a] && after[b] == before[b]);
                } else if b == at {
                    assert(after[a] == before[a]);
                    assert(scores@[before[a] as int] >= scores@[k as int]);
                } else if a < at {
                    assert(after[a] == before[a] && after[b] == before[b - 1]);
                } else if a == at {
                    assert(after[b] == before[b - 1]);
                    assert(scores@[before[at as int] as int] < scores@[k as int]);
                    if b - 1 > at {
                        assert(ranks_before(
                            all,
                            before[at as int] as int,
                            before[b - 1] as int,
                        ));
                    }
                } else {
                    assert(after[a] == before[a - 1] && after[b] == before[b - 1]);
                }
            }
            assert forall|i: usize| i < k + 1 implies after.contains(i) by {
                if i < k {
                    assert(before.contains(i));
                    let a = choose|a: int| 0 <= a < before.len() && before[a] == i;
                    if a < at {
                        assert(after[a] == i);
                    } else {
                        assert(after[a + 1] == i);
                    }
                } else {
                    assert(after[at as int] == i);
                }
            }
        }
        k += 1;
    }
    proof {
        let positions = order@.map_values(|p: usize| p as int);
        assert forall|i: int| 0 <= i < all.len() implies positions.contains(i) by {
            assert(order@.contains(i as usize));
            let a = choose|a: int| 0 <= a < order@.len() && order@[a] == i as usize;
            assert(positions[a] == i);
        }
    }
    order
}

/// Ranks the songs by how often the query, as it was typed, occurs in their
/// lyrics: the most frequent first, songs of equal frequency in the order
/// in which they came. Every count must fit: the empty query occurs once
/// more than the lyrics have scalar values.
pub fn rank(songs: &Vec<Song>, query: &str) -> (ranked: Vec<Ranked>)
    requires
        query@.len() == 0 ==> forall|i: int|
            0 <= i < songs@.len() ==> (#[trigger] songs@[i]).lyrics@.len() < usize::MAX,
    ensures
        ranked@.len() == songs@.len(),
        exists|order: Seq<int>|
            {
                &&& is_ranking(scores_of(songs@, query@), order)
                &&& forall|a: int|
                    0 <= a < ranked@.len() ==> {
                        &&& (#[trigger] ranked@[a]).song == songs@[order[a]]
                        &&& ranked@[a].frequency == score_spec(songs@[order[a]], query@)
                    }
            },
{
    let pattern = chars_of(query);
    let mut scores: Vec<usize> = Vec::new();
    let mut i: usize = 0;
    while i < songs.len()
        invariant
            i <= songs.len(),
            pattern@ == query@,
            scores@.len() == i,
            query@.len() == 0 ==> forall|j: int|
                0 <= j < songs@.len() ==> (#[trigger] songs@[j]).lyrics@.len() < usize::MAX,
            forall|j: int| 0 <= j < i ==> scores@[j] == score_spec(songs@[j], query@),
        decreases songs.len() - i,
    {
        let lyrics = chars_of(songs[i].lyrics.as_str());
        scores.push(count_occurrences(&lyrics, &pattern));
        i += 1;
    }
    let order = ranking_order(&scores);
    let ghost positions = order@.map_values(|p: usize| p as int);
    assert(scores@.map_values(|s: usize| s as nat) =~= scores_of(songs@, query@));
    let mut ranked: Vec<Ranked> = Vec::new();
    let mut a: usize = 0;
    while a < order.len()
        invariant
            a <= order@.len() == songs@.len() == scores@.len(),
            positions == order@.map_values(|p: usize| p as int),
            is_ranking(scores_of(songs@, query@), positions),
            forall|j: int| 0 <= j < scores@.len() ==> scores@[j] == score_spec(songs@[j], query@),
            ranked@.len() == a,
            forall|b: int|
                0 <= b < a ==> {
                    &&& (#[trigger] ranked@[b]).song == songs@[positions[b]]
                    &&& ranked@[b].frequency == score_spec(songs@[positions[b]], query@)
                },
        decreases order.len() - a,
    {
        let at = order[a];
        assert(positions[a as int] == at);
        ranked.push(Ranked { frequency: scores[at], song: copy_song(&songs[at]) });
        a += 1;
    }
    ranked
}

} // verus!

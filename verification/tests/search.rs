use lyric_search::index::{create_index, Song};
use lyric_search::search::{search, search_with_threshold, term_matches, FUZZY_THRESHOLD};

fn song(id: u32, title: &str, lyrics: &str) -> Song {
    Song { id, title: title.to_string(), lyrics: lyrics.to_string() }
}

fn ids(songs: &[Song]) -> Vec<u32> {
    songs.iter().map(|s| s.id).collect()
}

#[test]
fn test_search_single_word() {
    let songs = vec![
        Song {
            id: 0,
            title: "Song A".to_string(),
            lyrics: "hello world".to_string(),
        },
        Song {
            id: 1,
            title: "Song B".to_string(),
            lyrics: "goodbye world".to_string(),
        },
    ];
    let index = create_index(songs);
    let results = search(&index, "world");

    assert_eq!(results.len(), 2);
}

#[test]
fn test_search_multiple_words_and() {
    let songs = vec![
        Song {
            id: 0,
            title: "Song A".to_string(),
            lyrics: "hello beautiful world".to_string(),
        },
        Song {
            id: 1,
            title: "Song B".to_string(),
            lyrics: "hello world".to_string(),
        },
    ];
    let index = create_index(songs);
    let results = search(&index, "hello world");

    assert_eq!(results.len(), 2);
}

#[test]
fn test_search_no_results() {
    let songs = vec![Song {
        id: 0,
        title: "Song A".to_string(),
        lyrics: "hello world".to_string(),
    }];
    let index = create_index(songs);
    let results = search(&index, "nonexistent");

    assert_eq!(results.len(), 0);
}

#[test]
fn test_search_empty_query() {
    let songs = vec![Song {
        id: 0,
        title: "Song A".to_string(),
        lyrics: "hello world".to_string(),
    }];
    let index = create_index(songs);
    let results = search(&index, "");

    assert_eq!(results.len(), 0);
}

#[test]
fn test_search_case_insensitive() {
    let songs = vec![Song {
        id: 0,
        title: "Song A".to_string(),
        lyrics: "Hello World".to_string(),
    }];
    let index = create_index(songs);
    let results = search(&index, "HELLO");

    assert_eq!(results.len(), 1);
}

#[test]
fn the_default_threshold_is_five() {
    assert_eq!(FUZZY_THRESHOLD, 5);
}

#[test]
fn two_terms_match_only_songs_with_both() {
    let index = create_index(vec![
        song(0, "Song A", "hello world"),
        song(1, "Song B", "goodbye world"),
    ]);

    assert_eq!(ids(&search(&index, "world")), vec![0, 1]);
    assert_eq!(ids(&search(&index, "hello world")), vec![0]);
    assert_eq!(ids(&search(&index, "world hello")), vec![0]);
    assert_eq!(ids(&search(&index, "hello goodbye")), Vec::<u32>::new());
}

#[test]
fn results_are_whole_songs_in_collection_order() {
    let index = create_index(vec![
        song(4, "Later", "moon river"),
        song(2, "Sooner", "river deep"),
    ]);
    let results = search(&index, "river");

    assert_eq!(results.len(), 2);
    assert_eq!(results[0].id, 4);
    assert_eq!(results[0].title, "Later");
    assert_eq!(results[0].lyrics, "moon river");
    assert_eq!(results[1].id, 2);
    assert_eq!(results[1].title, "Sooner");
    assert_eq!(results[1].lyrics, "river deep");
}

#[test]
fn a_query_of_white_space_matches_nothing() {
    let index = create_index(vec![song(0, "Song A", "hello world")]);

    assert!(search(&index, "").is_empty());
    assert!(search(&index, "   ").is_empty());
    assert!(search(&index, "\t\n").is_empty());
    assert!(search_with_threshold(&index, " ", 0).is_empty());
}

#[test]
fn a_word_within_one_edit_is_found() {
    let index = create_index(vec![
        song(0, "Nazar", "teri ankhon ki namkeen mastiyan"),
        song(1, "Other", "dil se re"),
    ]);

    assert_eq!(ids(&search(&index, "aankhon")), vec![0]);
    assert_eq!(ids(&search(&index, "ankhon")), vec![0]);
    assert_eq!(ids(&search(&index, "ankhoon")), vec![0]);
    assert_eq!(ids(&search(&index, "ankho")), vec![0]);
    assert_eq!(ids(&search(&index, "unkhon")), vec![0]);
    assert_eq!(ids(&search(&index, "aankhoon")), Vec::<u32>::new());
}

#[test]
fn fuzzy_matches_join_exact_matches_when_those_are_few() {
    let index = create_index(vec![
        song(0, "A", "tum"),
        song(1, "B", "tuum"),
        song(2, "C", "tun"),
        song(3, "D", "tommy"),
    ]);

    assert_eq!(ids(&search(&index, "tum")), vec![0, 1, 2]);
    assert_eq!(ids(&search(&index, "tuum")), vec![0, 1]);
    assert_eq!(ids(&search(&index, "tu")), vec![0, 2]);
}

#[test]
fn fuzzy_lookup_stops_at_the_threshold() {
    let index = create_index(vec![
        song(0, "A", "tum tum tum tum tum"),
        song(1, "B", "tuum"),
    ]);

    assert_eq!(ids(&search(&index, "tum")), vec![0]);
    assert_eq!(ids(&search(&index, "tuum")), vec![0, 1]);
    assert_eq!(ids(&search_with_threshold(&index, "tum", 6)), vec![0, 1]);
    assert_eq!(ids(&search_with_threshold(&index, "tuum", 1)), vec![1]);
    assert_eq!(ids(&search_with_threshold(&index, "tuum", 0)), vec![1]);
    assert_eq!(ids(&search_with_threshold(&index, "tuun", 0)), Vec::<u32>::new());
}

#[test]
fn the_threshold_counts_postings_not_songs() {
    let index = create_index(vec![
        song(0, "A", "tum tum"),
        song(1, "B", "tum tum"),
        song(2, "C", "tuum"),
    ]);

    assert_eq!(ids(&search(&index, "tum")), vec![0, 1, 2]);
    assert_eq!(ids(&search_with_threshold(&index, "tum", 4)), vec![0, 1]);
}

#[test]
fn query_terms_are_normalized() {
    let index = create_index(vec![song(0, "Song A", "Hello, World!")]);

    assert_eq!(ids(&search(&index, "HELLO")), vec![0]);
    assert_eq!(ids(&search(&index, "\"world\"")), vec![0]);
    assert_eq!(ids(&search(&index, "  hello\tWORLD  ")), vec![0]);
}

#[test]
fn a_held_word_finds_its_song() {
    let songs = vec![
        song(0, "Song A", "hello beautiful world"),
        song(1, "Song B", "goodbye cruel world"),
        song(2, "Third", "nothing here"),
    ];
    let index = create_index(songs.clone());

    for held in &songs {
        let text = format!("{} {}", held.title, held.lyrics);
        for word in text.split_whitespace() {
            let found = search(&index, word);
            assert!(found.iter().any(|s| s.id == held.id));
        }
    }
}

#[test]
fn joined_queries_match_within_both_results() {
    let index = create_index(vec![
        song(0, "Song A", "hello beautiful world"),
        song(1, "Song B", "goodbye cruel world"),
        song(2, "Third", "hello cruel words"),
    ]);
    let terms = ["hello", "world", "cruel", "words", "absent", "song", "hello world"];

    for first in terms {
        for second in terms {
            let joined = ids(&search(&index, &format!("{} {}", first, second)));
            let left = ids(&search(&index, first));
            let right = ids(&search(&index, second));
            let both: Vec<u32> = left.iter().copied().filter(|id| right.contains(id)).collect();
            assert_eq!(joined, both);
        }
    }
}

#[test]
fn title_words_are_searchable() {
    let index = create_index(vec![
        song(0, "Moonlight", "la la la"),
        song(1, "Sunrise", "la la la"),
    ]);

    assert_eq!(ids(&search(&index, "moonlight")), vec![0]);
    assert_eq!(ids(&search(&index, "sunrise la")), vec![1]);
}

#[test]
fn term_matches_ascend_without_repeats() {
    let index = create_index(vec![
        song(8, "A", "tun"),
        song(3, "B", "tum tum tuum"),
        song(5, "C", "tum"),
        song(1, "D", "other"),
    ]);
    let key: Vec<char> = "tum".chars().collect();

    assert_eq!(term_matches(&index, &key, FUZZY_THRESHOLD), vec![3, 5, 8]);
    assert_eq!(term_matches(&index, &key, 0), vec![3, 5]);
    let absent: Vec<char> = "zzzzzz".chars().collect();
    assert_eq!(term_matches(&index, &absent, FUZZY_THRESHOLD), Vec::<u32>::new());
}

#[test]
fn searching_an_empty_collection_finds_nothing() {
    let index = create_index(vec![]);

    assert!(search(&index, "hello").is_empty());
}

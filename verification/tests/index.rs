use lyric_search::index::{copy_song, create_index, Posting, Song};

#[test]
fn test_create_index_basic() {
    let songs = vec![Song {
        id: 0,
        title: "Test Song".to_string(),
        lyrics: "hello world\nhello again".to_string(),
    }];
    let index = create_index(songs);

    assert!(!index.is_empty());
    assert!(index.contains_key("hello"));
    assert!(index.contains_key("world"));
}

#[test]
fn test_create_index_empty_songs() {
    let songs: Vec<Song> = vec![];
    let index = create_index(songs);

    assert!(index.is_empty());
    assert!(index.songs().is_empty());
}

#[test]
fn test_create_index_word_positions() {
    let songs = vec![Song {
        id: 0,
        title: "Test".to_string(),
        lyrics: "hello world hello".to_string(),
    }];
    let index = create_index(songs);

    let hello_hits = index.lookup("hello");
    assert!(index.contains_key("hello"));
    assert_eq!(hello_hits.len(), 2);
}

#[test]
fn postings_carry_song_line_and_offset() {
    let songs = vec![Song {
        id: 7,
        title: "Test Song".to_string(),
        lyrics: "hello world\nhello again".to_string(),
    }];
    let index = create_index(songs);

    assert_eq!(
        index.lookup("hello"),
        vec![
            Posting { song_id: 7, line: 0, offset: 2 },
            Posting { song_id: 7, line: 1, offset: 0 },
        ]
    );
    assert_eq!(index.lookup("test"), vec![Posting { song_id: 7, line: 0, offset: 0 }]);
    assert_eq!(index.lookup("song"), vec![Posting { song_id: 7, line: 0, offset: 1 }]);
    assert_eq!(index.lookup("world"), vec![Posting { song_id: 7, line: 0, offset: 3 }]);
    assert_eq!(index.lookup("again"), vec![Posting { song_id: 7, line: 1, offset: 1 }]);
}

#[test]
fn every_occurrence_has_a_posting_for_its_song() {
    let songs = vec![Song {
        id: 0,
        title: "".to_string(),
        lyrics: "hello world hello".to_string(),
    }];
    let index = create_index(songs);

    let hits = index.lookup("hello");
    assert_eq!(hits.len(), 2);
    assert!(hits.iter().all(|p| p.song_id == 0));
    assert_eq!(hits[0], Posting { song_id: 0, line: 0, offset: 0 });
    assert_eq!(hits[1], Posting { song_id: 0, line: 0, offset: 2 });
}

#[test]
fn postings_follow_the_order_of_the_songs() {
    let songs = vec![
        Song { id: 3, title: "One".to_string(), lyrics: "la la".to_string() },
        Song { id: 1, title: "Two".to_string(), lyrics: "x\n\nla".to_string() },
    ];
    let index = create_index(songs);

    assert_eq!(
        index.lookup("la"),
        vec![
            Posting { song_id: 3, line: 0, offset: 1 },
            Posting { song_id: 3, line: 0, offset: 2 },
            Posting { song_id: 1, line: 2, offset: 0 },
        ]
    );
}

#[test]
fn index_keys_are_normalized_words() {
    let songs = vec![Song {
        id: 0,
        title: "Don't Stop".to_string(),
        lyrics: "Hello, WORLD!  (hello)".to_string(),
    }];
    let index = create_index(songs);

    assert!(index.contains_key("dont"));
    assert!(index.contains_key("stop"));
    assert!(index.contains_key("hello"));
    assert!(index.contains_key("world"));
    assert!(!index.contains_key("Hello,"));
    assert!(!index.contains_key("WORLD!"));
    assert_eq!(index.lookup("hello").len(), 2);
    assert_eq!(index.word_count(), 4);
}

#[test]
fn words_are_split_on_any_white_space() {
    let songs = vec![Song {
        id: 0,
        title: "T".to_string(),
        lyrics: "a\tb  c\u{a0}d".to_string(),
    }];
    let index = create_index(songs);

    assert_eq!(index.lookup("a"), vec![Posting { song_id: 0, line: 0, offset: 1 }]);
    assert_eq!(index.lookup("b"), vec![Posting { song_id: 0, line: 0, offset: 2 }]);
    assert_eq!(index.lookup("c"), vec![Posting { song_id: 0, line: 0, offset: 3 }]);
    assert_eq!(index.lookup("d"), vec![Posting { song_id: 0, line: 0, offset: 4 }]);
}

#[test]
fn empty_songs_have_no_postings() {
    let songs = vec![
        Song { id: 0, title: "".to_string(), lyrics: "".to_string() },
        Song { id: 1, title: "  ".to_string(), lyrics: "\n \n".to_string() },
    ];
    let index = create_index(songs);

    assert!(index.is_empty());
    assert_eq!(index.word_count(), 0);
    assert_eq!(index.song_count(), 2);
    assert!(index.lookup("").is_empty());
}

#[test]
fn the_collection_is_kept_as_given() {
    let songs = vec![
        Song { id: 5, title: "Song A".to_string(), lyrics: "hello world".to_string() },
        Song { id: 9, title: "Song B".to_string(), lyrics: "goodbye world".to_string() },
    ];
    let index = create_index(songs);

    assert_eq!(index.song_count(), 2);
    assert_eq!(index.songs()[0].id, 5);
    assert_eq!(index.songs()[0].title, "Song A");
    assert_eq!(index.songs()[0].lyrics, "hello world");
    assert_eq!(index.songs()[1].id, 9);
    assert_eq!(index.songs()[1].title, "Song B");
    assert_eq!(index.songs()[1].lyrics, "goodbye world");
    assert_eq!(index.song(9).map(|s| s.title.as_str()), Some("Song B"));
    assert!(index.song(6).is_none());
}

#[test]
fn every_posting_refers_to_a_song_of_the_collection() {
    let songs = vec![
        Song { id: 5, title: "Song A".to_string(), lyrics: "hello world".to_string() },
        Song { id: 9, title: "Song B".to_string(), lyrics: "goodbye world".to_string() },
    ];
    let index = create_index(songs);

    for i in 0..index.word_count() {
        let postings = index.postings_at(i);
        assert!(!postings.is_empty());
        for posting in postings {
            assert!(index.song(posting.song_id).is_some());
        }
    }
}

#[test]
fn vocabulary_words_are_found_at_their_position() {
    let songs = vec![Song {
        id: 0,
        title: "Test".to_string(),
        lyrics: "hello world hello".to_string(),
    }];
    let index = create_index(songs);

    assert_eq!(index.word_count(), 3);
    assert_eq!(index.word(0).iter().collect::<String>(), "test");
    assert_eq!(index.word(1).iter().collect::<String>(), "hello");
    assert_eq!(index.word(2).iter().collect::<String>(), "world");
    let hello: Vec<char> = "hello".chars().collect();
    assert_eq!(index.find(&hello), Some(1));
    let absent: Vec<char> = "absent".chars().collect();
    assert_eq!(index.find(&absent), None);
}

#[test]
fn a_copy_of_a_song_has_its_fields() {
    let song = Song { id: 12, title: "Title".to_string(), lyrics: "la\nla".to_string() };
    let copy = copy_song(&song);

    assert_eq!(copy.id, 12);
    assert_eq!(copy.title, "Title");
    assert_eq!(copy.lyrics, "la\nla");
}

#[test]
fn a_word_of_punctuation_is_recorded_under_the_empty_key() {
    let songs = vec![Song {
        id: 0,
        title: "T".to_string(),
        lyrics: "hello -- world".to_string(),
    }];
    let index = create_index(songs);

    assert_eq!(index.lookup(""), vec![Posting { song_id: 0, line: 0, offset: 2 }]);
    assert_eq!(index.lookup("world"), vec![Posting { song_id: 0, line: 0, offset: 3 }]);
}

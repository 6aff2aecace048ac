use lyric_search::ingest::{extract_between, song_title, songs_from_files};

#[test]
fn test_extract_between_normal() {
    assert_eq!(
        extract_between("prefix#_#Song Title#_#suffix"),
        Some("Song Title")
    );
}

#[test]
fn test_extract_between_missing_delimiter() {
    assert_eq!(extract_between("prefix suffix"), None);
}

#[test]
fn test_extract_between_only_one_delimiter() {
    assert_eq!(extract_between("prefix#_#suffix"), None);
}

#[test]
fn test_extract_between_multiple_delimiters() {
    assert_eq!(extract_between("a#_#b#_#c#_#d"), Some("b"));
}

#[test]
fn extract_between_edge_cases() {
    assert_eq!(extract_between(""), None);
    assert_eq!(extract_between("#_#"), None);
    assert_eq!(extract_between("#_##_#"), Some(""));
    assert_eq!(extract_between("#_#x#_#"), Some("x"));
    assert_eq!(extract_between("#_#_#"), None);
    assert_eq!(extract_between("#_#_#_#"), Some("_"));
    assert_eq!(extract_between("é#_#ü ö#_#ñ"), Some("ü ö"));
}

#[test]
fn song_title_is_trimmed_or_the_placeholder() {
    assert_eq!(song_title("prefix#_#Test Song#_#suffix.txt"), "Test Song");
    assert_eq!(song_title("2016#_#  Spaced Out \t#_#x.txt"), "Spaced Out");
    assert_eq!(song_title("2016#_# #_#x.txt"), "");
    assert_eq!(song_title("plain.txt"), "Unknown");
    assert_eq!(song_title("one#_#delimiter.txt"), "Unknown");
}

#[test]
fn songs_from_files_numbers_the_songs_in_order() {
    let files = vec![
        ("a#_#First#_#.txt".to_string(), "la la".to_string()),
        ("untitled.txt".to_string(), "na na".to_string()),
        ("c#_# Third #_#.txt".to_string(), "".to_string()),
    ];
    let songs = songs_from_files(&files);
    assert_eq!(songs.len(), 3);
    assert_eq!(songs[0].id, 0);
    assert_eq!(songs[0].title, "First");
    assert_eq!(songs[0].lyrics, "la la");
    assert_eq!(songs[1].id, 1);
    assert_eq!(songs[1].title, "Unknown");
    assert_eq!(songs[1].lyrics, "na na");
    assert_eq!(songs[2].id, 2);
    assert_eq!(songs[2].title, "Third");
    assert_eq!(songs[2].lyrics, "");
}

#[test]
fn songs_from_no_files() {
    let files: Vec<(String, String)> = vec![];
    assert!(songs_from_files(&files).is_empty());
}

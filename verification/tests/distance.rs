use lyric_search::distance::levenshtein;

#[test]
fn test_identical() {
    assert_eq!(levenshtein("tum", "tum"), 0);
    assert_eq!(levenshtein("", ""), 0);
}

#[test]
fn test_empty() {
    assert_eq!(levenshtein("", "tum"), 3);
    assert_eq!(levenshtein("pyaar", ""), 5);
}

#[test]
fn test_one_edit() {
    assert_eq!(levenshtein("tum", "tuum"), 1); // insert
    assert_eq!(levenshtein("tum", "tu"), 1); // delete
    assert_eq!(levenshtein("tum", "tun"), 1); // replace
}

#[test]
fn test_multiple_edits() {
    assert_eq!(levenshtein("pyaar", "piyar"), 2);
    assert_eq!(levenshtein("abc", "xyz"), 3);
    assert_eq!(levenshtein("kitten", "sitting"), 3);
}

#[test]
fn distance_to_itself_is_zero() {
    for word in ["", "a", "tum", "kitten", "आँखों", "ünïcödé"] {
        assert_eq!(levenshtein(word, word), 0);
    }
}

#[test]
fn distance_from_empty_is_the_length_in_scalar_values() {
    assert_eq!(levenshtein("", "sitting"), 7);
    assert_eq!(levenshtein("sitting", ""), 7);
    assert_eq!(levenshtein("", "naïve"), 5);
    assert_eq!(levenshtein("", "日本語"), 3);
}

#[test]
fn distance_is_symmetric_on_samples() {
    let words = ["", "tum", "tuum", "kitten", "sitting", "pyaar", "piyar", "naïve", "naive"];
    for a in words {
        for b in words {
            assert_eq!(levenshtein(a, b), levenshtein(b, a));
        }
    }
}

#[test]
fn distance_counts_scalar_values_not_bytes() {
    assert_eq!(levenshtein("naïve", "naive"), 1);
    assert_eq!(levenshtein("日本語", "日本"), 1);
    assert_eq!(levenshtein("é", "e"), 1);
}

#[test]
fn distance_of_known_pairs() {
    assert_eq!(levenshtein("flaw", "lawn"), 2);
    assert_eq!(levenshtein("saturday", "sunday"), 3);
    assert_eq!(levenshtein("ankhon", "aankhon"), 1);
    assert_eq!(levenshtein("a", "b"), 1);
    assert_eq!(levenshtein("ab", "ba"), 2);
}

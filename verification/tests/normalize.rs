use lyric_search::text::normalize;

#[test]
fn test_normalize_basic() {
    assert_eq!(normalize("Hello"), "hello");
}

#[test]
fn test_normalize_with_punctuation() {
    assert_eq!(normalize("Hello, World!"), "helloworld");
}

#[test]
fn test_normalize_with_spaces() {
    assert_eq!(normalize("  hello  "), "hello");
}

#[test]
fn test_normalize_with_mixed_case() {
    assert_eq!(normalize("HeLLo WoRLD"), "helloworld");
}

#[test]
fn test_normalize_with_numbers() {
    assert_eq!(normalize("Hello123"), "hello123");
}

#[test]
fn test_normalize_empty() {
    assert_eq!(normalize(""), "");
}

#[test]
fn normalize_is_idempotent_on_samples() {
    let samples = [
        "Hello",
        "Hello, World!",
        "  hello  ",
        "HeLLo WoRLD",
        "Hello123",
        "",
        "ÀÉÎÕÜ",
        "Straße",
        "ΟΔΟΣ",
        "İstanbul",
        "आँखों",
        "don't-stop",
        "...",
    ];
    for sample in samples {
        let once = normalize(sample);
        let twice = normalize(&once);
        assert_eq!(twice, once);
    }
}

#[test]
fn normalize_keeps_letters_and_digits_of_any_script() {
    assert_eq!(normalize("ÀÉÎ"), "àéî");
    assert_eq!(normalize("Ünïcödé42"), "ünïcödé42");
    assert_eq!(normalize("日本語"), "日本語");
    assert_eq!(normalize("٣٤٥"), "٣٤٥");
}

#[test]
fn normalize_drops_punctuation_and_white_space() {
    assert_eq!(normalize("a-b_c.d"), "abcd");
    assert_eq!(normalize("tab\there"), "tabhere");
    assert_eq!(normalize("new\nline"), "newline");
    assert_eq!(normalize("!?#"), "");
    assert_eq!(normalize("it's"), "its");
}

#[test]
fn normalize_lowers_the_whole_word() {
    assert_eq!(normalize("ABC"), "abc");
    assert_eq!(normalize("ΟΔΟΣ"), "οδος");
}

use dict_lookup::entry::{Definition, Meaning, Phonetic, Word};
use dict_lookup::resolver::{
    collect_audio_urls, file_name_of, select_candidate, str_ends_with, DownloadError,
    DownloadOutcome,
};

fn word_with_audio(word: &str, audio: &[&str]) -> Word {
    Word {
        word: word.to_string(),
        phonetics: audio
            .iter()
            .map(|a| Phonetic {
                text: None,
                audio: a.to_string(),
            })
            .collect(),
        meanings: vec![Meaning {
            part_of_speech: "noun".to_string(),
            definitions: vec![Definition {
                definition: "a definition".to_string(),
                synonyms: vec![],
                antonyms: vec![],
            }],
        }],
    }
}

fn ok_outcome(url: &str) -> DownloadOutcome {
    DownloadOutcome {
        url: url.to_string(),
        result: Ok(()),
    }
}

fn failed_outcome(url: &str, e: DownloadError) -> DownloadOutcome {
    DownloadOutcome {
        url: url.to_string(),
        result: Err(e),
    }
}

#[test]
fn dedup_collapses_duplicate_locators() {
    let words = vec![
        word_with_audio("greet", &["https://x/a-us.mp3", "https://x/a-uk.mp3"]),
        word_with_audio("greet", &["https://x/a-us.mp3", "https://x/b-us.mp3"]),
    ];
    let plan = collect_audio_urls(&words);
    assert_eq!(
        plan,
        vec![
            "https://x/a-us.mp3".to_string(),
            "https://x/a-uk.mp3".to_string(),
            "https://x/b-us.mp3".to_string(),
        ]
    );
}

#[test]
fn dedup_keeps_first_occurrence_order() {
    let words = vec![
        word_with_audio("w", &["u1", "u2", "u1"]),
        word_with_audio("w", &["u3", "u2"]),
    ];
    let plan = collect_audio_urls(&words);
    assert_eq!(
        plan,
        vec!["u1".to_string(), "u2".to_string(), "u3".to_string()]
    );
}

#[test]
fn empty_entry_list_yields_empty_plan() {
    let words: Vec<Word> = vec![];
    assert!(collect_audio_urls(&words).is_empty());
}

#[test]
fn entry_without_audio_yields_empty_plan_and_no_candidate() {
    let words = vec![word_with_audio("silent", &[])];
    let plan = collect_audio_urls(&words);
    assert!(plan.is_empty());
    let outcomes: Vec<DownloadOutcome> = vec![];
    assert_eq!(select_candidate(&outcomes), None);
}

#[test]
fn failure_on_one_locator_never_hides_a_later_winner() {
    let outcomes = vec![
        failed_outcome("https://x/a-us.mp3", DownloadError::Network),
        ok_outcome("https://x/b-us.mp3"),
    ];
    assert_eq!(select_candidate(&outcomes), Some(1));
}

#[test]
fn io_failure_is_isolated_like_network_failure() {
    let outcomes = vec![
        failed_outcome("https://x/a-us.mp3", DownloadError::Io),
        ok_outcome("https://x/b-us.mp3"),
    ];
    assert_eq!(select_candidate(&outcomes), Some(1));
}

#[test]
fn no_preferred_suffix_yields_no_candidate() {
    let outcomes = vec![
        ok_outcome("https://x/hello-uk.mp3"),
        ok_outcome("https://x/hello-au.mp3"),
    ];
    assert_eq!(select_candidate(&outcomes), None);
}

#[test]
fn all_failures_yield_no_candidate() {
    let outcomes = vec![
        failed_outcome("https://x/hello-us.mp3", DownloadError::Network),
        failed_outcome("https://x/other-us.mp3", DownloadError::Io),
    ];
    assert_eq!(select_candidate(&outcomes), None);
}

#[test]
fn selection_is_deterministic_and_takes_the_first_match() {
    let outcomes = vec![
        ok_outcome("https://x/hello-uk.mp3"),
        ok_outcome("https://x/first-us.mp3"),
        ok_outcome("https://x/second-us.mp3"),
    ];
    let first = select_candidate(&outcomes);
    let second = select_candidate(&outcomes);
    assert_eq!(first, Some(1));
    assert_eq!(second, Some(1));
}

#[test]
fn lookup_for_hello_picks_the_us_pronunciation() {
    let words = vec![word_with_audio(
        "hello",
        &["https://x/hello-uk.mp3", "https://x/hello-us.mp3"],
    )];
    let plan = collect_audio_urls(&words);
    assert_eq!(
        plan,
        vec![
            "https://x/hello-uk.mp3".to_string(),
            "https://x/hello-us.mp3".to_string(),
        ]
    );
    let outcomes: Vec<DownloadOutcome> = plan.iter().map(|u| ok_outcome(u)).collect();
    let winner = select_candidate(&outcomes).expect("a winner was expected");
    assert_eq!(outcomes[winner].url, "https://x/hello-us.mp3");
    assert_eq!(file_name_of(&outcomes[winner].url), "hello-us.mp3");
}

#[test]
fn file_name_is_the_trailing_path_segment() {
    assert_eq!(file_name_of("https://x/y/hello-us.mp3"), "hello-us.mp3");
    assert_eq!(file_name_of("plain.mp3"), "plain.mp3");
    assert_eq!(file_name_of("https://x/dir/"), "");
    assert_eq!(file_name_of(""), "");
}

#[test]
fn suffix_check_matches_string_ends() {
    assert!(str_ends_with("hello-us.mp3", "us.mp3"));
    assert!(!str_ends_with("hello-uk.mp3", "us.mp3"));
    assert!(!str_ends_with("p3", "us.mp3"));
    assert!(str_ends_with("anything", ""));
}

use async_tqsm::{SegmentOptions, Segmenter, SegmenterError};

fn options(lookahead: usize, max_buffer: usize, language: &str) -> SegmentOptions {
    SegmentOptions { lookahead, max_buffer, language: language.to_string() }
}

fn english(lookahead: usize) -> Segmenter {
    Segmenter::new(options(lookahead, 8192, "en")).unwrap()
}

#[test]
fn new_accepts_a_registered_language() {
    assert!(Segmenter::new(SegmentOptions::default()).is_ok());
    assert!(Segmenter::new(options(0, 1, "de")).is_ok());
}

#[test]
fn new_rejects_an_unknown_language() {
    match Segmenter::new(options(10, 8192, "xx")) {
        Err(SegmenterError::UnsupportedLanguage(code)) => assert_eq!(code, "xx"),
        _ => panic!("rules for xx"),
    }
}

#[test]
fn a_new_segmenter_holds_nothing() {
    let mut segmenter = english(10);
    assert_eq!(segmenter.flush().unwrap(), None);
}

#[test]
fn feed_emits_a_sentence_once_enough_text_follows() {
    let mut segmenter = english(10);
    assert_eq!(segmenter.feed("First sentence.").unwrap(), Vec::<String>::new());
    assert_eq!(segmenter.feed(" Second ").unwrap(), Vec::<String>::new());
    assert_eq!(segmenter.feed("se").unwrap(), vec!["First sentence."]);
    assert_eq!(segmenter.flush().unwrap(), Some("Second se".to_string()));
}

#[test]
fn feed_counts_the_lookahead_from_the_boundary() {
    // Exactly ten characters behind the full stop are enough, nine are not.
    let mut segmenter = english(10);
    assert_eq!(segmenter.feed("One. 12345678").unwrap(), Vec::<String>::new());
    assert_eq!(segmenter.feed("9").unwrap(), vec!["One."]);
}

#[test]
fn feed_without_lookahead_still_needs_a_character_behind_the_boundary() {
    let mut segmenter = english(0);
    assert_eq!(segmenter.feed("One.").unwrap(), Vec::<String>::new());
    assert_eq!(segmenter.feed(" ").unwrap(), vec!["One."]);
    assert_eq!(segmenter.flush().unwrap(), Some("".to_string()));
}

#[test]
fn feed_emits_several_sentences_from_one_chunk() {
    let mut segmenter = english(5);
    let completed = segmenter
        .feed("One two three. Four five six! Seven eight nine? Ten eleven twelve")
        .unwrap();
    assert_eq!(completed, vec!["One two three.", "Four five six!", "Seven eight nine?"]);
    assert_eq!(segmenter.flush().unwrap(), Some("Ten eleven twelve".to_string()));
}

#[test]
fn feed_scans_afresh_after_every_sentence() {
    // The second boundary lies at offset 29 of the chunk, and at offset 14 of
    // what is left once the first sentence is gone.
    let mut segmenter = english(0);
    let completed = segmenter.feed("Hello Mr. Smith. How are you? Fine").unwrap();
    assert_eq!(completed, vec!["Hello Mr. Smith.", "How are you?"]);
    assert_eq!(segmenter.feed(". And you? I").unwrap(), vec!["Fine.", "And you?"]);
    assert_eq!(segmenter.flush().unwrap(), Some("I".to_string()));
}

#[test]
fn feed_keeps_a_quotation_whole() {
    let mut segmenter = english(0);
    let completed = segmenter.feed("He said \"Stop. Now\" and left. Then he came back").unwrap();
    assert_eq!(completed, vec!["He said \"Stop. Now\" and left."]);
}

#[test]
fn feed_keeps_a_bracketed_span_whole() {
    let mut segmenter = english(0);
    let completed = segmenter
        .feed("He teaches science (He worked for 5 years. As an engineer) here. And more")
        .unwrap();
    assert_eq!(
        completed,
        vec!["He teaches science (He worked for 5 years. As an engineer) here."]
    );
}

#[test]
fn feed_accepts_a_numbered_reference_without_lookahead() {
    let mut segmenter = english(1000);
    let completed = segmenter.feed("It was announced.[17][18] The radicals").unwrap();
    assert_eq!(completed, vec!["It was announced.[17][18]"]);
    assert_eq!(segmenter.flush().unwrap(), Some("The radicals".to_string()));
}

#[test]
fn feed_stops_at_a_boundary_that_must_wait() {
    let mut segmenter = english(20);
    assert_eq!(segmenter.feed("One. Two.[1] Three").unwrap(), Vec::<String>::new());
    assert_eq!(
        segmenter.feed(" and four and five").unwrap(),
        vec!["One.", "Two.[1]"]
    );
}

#[test]
fn feed_trims_spaces_only() {
    let mut segmenter = english(0);
    let completed = segmenter.feed("  One.  \tTwo. \n Three. Four").unwrap();
    assert_eq!(completed, vec!["One.", "\tTwo.", "\n Three."]);
    assert_eq!(segmenter.flush().unwrap(), Some("Four".to_string()));
}

#[test]
fn feed_follows_the_rules_of_the_language() {
    let text = "Das war am 3. Oktober so. Und dann";
    let mut german = Segmenter::new(options(0, 8192, "de")).unwrap();
    assert_eq!(german.feed(text).unwrap(), vec!["Das war am 3. Oktober so."]);
    let mut english = english(0);
    assert_eq!(english.feed(text).unwrap(), vec!["Das war am 3.", "Oktober so."]);
}

#[test]
fn feed_overflow_is_atomic() {
    let mut segmenter = Segmenter::new(options(10, 10, "en")).unwrap();
    assert_eq!(segmenter.feed("12345").unwrap(), Vec::<String>::new());
    match segmenter.feed("678901") {
        Err(SegmenterError::BufferOverflow(limit)) => assert_eq!(limit, 10),
        _ => panic!("eleven characters in a buffer of ten"),
    }
    // The chunk that was turned down left no trace.
    assert_eq!(segmenter.feed("67890").unwrap(), Vec::<String>::new());
    assert_eq!(segmenter.flush().unwrap(), Some("1234567890".to_string()));
}

#[test]
fn feed_overflow_turns_down_even_what_would_drain() {
    // The chunk holds a whole sentence, but is measured before it is scanned.
    let mut segmenter = Segmenter::new(options(0, 8, "en")).unwrap();
    assert_eq!(segmenter.feed("abc").unwrap(), Vec::<String>::new());
    assert!(matches!(segmenter.feed(". Def gh"), Err(SegmenterError::BufferOverflow(8))));
    assert_eq!(segmenter.feed(". De").unwrap(), vec!["abc."]);
    assert_eq!(segmenter.flush().unwrap(), Some("De".to_string()));
}

#[test]
fn feed_fills_the_buffer_to_the_brim() {
    let mut segmenter = Segmenter::new(options(10, 4, "en")).unwrap();
    assert_eq!(segmenter.feed("abcd").unwrap(), Vec::<String>::new());
    assert!(matches!(segmenter.feed("e"), Err(SegmenterError::BufferOverflow(4))));
    assert_eq!(segmenter.feed("").unwrap(), Vec::<String>::new());
    assert_eq!(segmenter.flush().unwrap(), Some("abcd".to_string()));
    let mut none = Segmenter::new(options(10, 0, "en")).unwrap();
    assert_eq!(none.feed("").unwrap(), Vec::<String>::new());
    assert!(matches!(none.feed("a"), Err(SegmenterError::BufferOverflow(0))));
}

#[test]
fn feed_measures_the_buffer_in_characters() {
    // Five characters in ten bytes.
    let mut segmenter = Segmenter::new(options(10, 5, "en")).unwrap();
    assert_eq!(segmenter.feed("ééééé").unwrap(), Vec::<String>::new());
    assert!(matches!(segmenter.feed("é"), Err(SegmenterError::BufferOverflow(5))));
    assert_eq!(segmenter.flush().unwrap(), Some("ééééé".to_string()));
}

#[test]
fn feed_of_nothing_changes_nothing() {
    let mut segmenter = english(10);
    assert_eq!(segmenter.feed("").unwrap(), Vec::<String>::new());
    assert_eq!(segmenter.feed("First sentence. Sec").unwrap(), Vec::<String>::new());
    assert_eq!(segmenter.feed("").unwrap(), Vec::<String>::new());
    assert_eq!(segmenter.feed("").unwrap(), Vec::<String>::new());
    assert_eq!(segmenter.feed("ond one").unwrap(), vec!["First sentence."]);
    assert_eq!(segmenter.feed("").unwrap(), Vec::<String>::new());
    assert_eq!(segmenter.flush().unwrap(), Some("Second one".to_string()));
}

#[test]
fn flush_returns_what_is_pending_and_empties_the_buffer() {
    let mut segmenter = english(10);
    segmenter.feed("  No end in sight ").unwrap();
    assert_eq!(segmenter.flush().unwrap(), Some("No end in sight".to_string()));
    assert_eq!(segmenter.flush().unwrap(), None);
    segmenter.feed("again").unwrap();
    assert_eq!(segmenter.flush().unwrap(), Some("again".to_string()));
}

#[test]
fn flush_does_not_ask_for_lookahead() {
    let mut segmenter = english(1000);
    assert_eq!(segmenter.feed("One. Two. Three.").unwrap(), Vec::<String>::new());
    assert_eq!(segmenter.flush().unwrap(), Some("One. Two. Three.".to_string()));
}

#[test]
fn flush_of_spaces_is_an_empty_sentence() {
    let mut segmenter = english(10);
    segmenter.feed("   ").unwrap();
    assert_eq!(segmenter.flush().unwrap(), Some(String::new()));
}

#[test]
fn feeds_and_flush_lose_no_text() {
    let chunks = ["Hello Mr. Smith", ". How are", " you today? Good! ", "And th", "en. The end"];
    let mut segmenter = english(3);
    let mut emitted = Vec::new();
    for chunk in chunks {
        emitted.extend(segmenter.feed(chunk).unwrap());
    }
    emitted.extend(segmenter.flush().unwrap());
    assert_eq!(
        emitted,
        vec!["Hello Mr. Smith.", "How are you today?", "Good!", "And then.", "The end"]
    );
    assert_eq!(emitted.join(" "), chunks.concat().trim());
}

#[test]
fn feed_turns_down_a_chunk_that_tangles_the_pending_text() {
    let mut segmenter = english(0);
    assert_eq!(segmenter.feed("One. Two three").unwrap(), vec!["One."]);
    let tangled = format!(". Four. {}", "(".repeat(3000));
    assert!(matches!(segmenter.feed(&tangled), Err(SegmenterError::SegmentationError(_))));
    // The chunk left no trace, and the segmenter goes on.
    assert_eq!(segmenter.feed(". Four. Five").unwrap(), vec!["Two three.", "Four."]);
    assert_eq!(segmenter.flush().unwrap(), Some("Five".to_string()));
}

#[test]
fn feed_reports_an_overflow_before_a_tangle() {
    let mut segmenter = Segmenter::new(options(0, 2000, "en")).unwrap();
    assert!(matches!(
        segmenter.feed(&"(".repeat(3000)),
        Err(SegmenterError::BufferOverflow(2000))
    ));
    assert!(matches!(
        segmenter.feed(&"(".repeat(2000)),
        Err(SegmenterError::SegmentationError(_))
    ));
    assert_eq!(segmenter.flush().unwrap(), None);
}

#[test]
fn feed_cuts_text_full_of_closed_brackets() {
    let mut segmenter = english(10);
    let chunk = format!("{}and so on. {}", "(a) ".repeat(30), "More (b) text ".repeat(500));
    assert!(chunk.len() < 8192);
    let completed = segmenter.feed(&chunk).unwrap();
    assert_eq!(completed, vec![format!("{}and so on.", "(a) ".repeat(30))]);
    // Sixty-one brackets in a chunk of 4096 bytes.
    let mut segmenter = english(10);
    let chunk = format!("{}. {}", "[x] ".repeat(61), "y".repeat(4096 - 246));
    assert_eq!(chunk.len(), 4096);
    assert_eq!(segmenter.feed(&chunk).unwrap(), vec![format!("{}.", "[x] ".repeat(61))]);
}

#[test]
fn feed_handles_text_of_more_than_one_byte_per_character() {
    let mut segmenter = Segmenter::new(options(3, 8192, "ru")).unwrap();
    let completed = segmenter.feed("Это первое предложение. Это второе").unwrap();
    assert_eq!(completed, vec!["Это первое предложение."]);
    assert_eq!(segmenter.flush().unwrap(), Some("Это второе".to_string()));
}

#[test]
fn process_buffer_returns_the_sentences_and_the_rest() {
    let rules = async_tqsm::boundary::RuleSet::resolve("en").unwrap();
    let (completed, rest) =
        async_tqsm::segmenter::process_buffer(&rules, 0, " One. Two two. Three".to_string())
            .unwrap();
    assert_eq!(completed, vec!["One.", "Two two."]);
    assert_eq!(rest, " Three");
    let (completed, rest) =
        async_tqsm::segmenter::process_buffer(&rules, 7, " One. Two two. Three".to_string())
            .unwrap();
    assert_eq!(completed, vec!["One."]);
    assert_eq!(rest, " Two two. Three");
    let (completed, rest) =
        async_tqsm::segmenter::process_buffer(&rules, 0, String::new()).unwrap();
    assert_eq!(completed, Vec::<String>::new());
    assert_eq!(rest, "");
    assert!(async_tqsm::segmenter::process_buffer(&rules, 0, "<".repeat(998)).is_none());
}

use async_tqsm::config::CliArgs;
use async_tqsm::SegmentOptions;
use std::path::PathBuf;

#[test]
fn default_options() {
    let options = SegmentOptions::default();
    assert_eq!(options.lookahead, 10);
    assert_eq!(options.max_buffer, 8192);
    assert_eq!(options.language, "en");
}

#[test]
fn options_from_cli_args() {
    let args = CliArgs {
        lookahead: 3,
        max_buffer: 100,
        language: "de".to_string(),
        input_file: Some(PathBuf::from("in.txt")),
        output_file: None,
    };
    let options = SegmentOptions::from(args.clone());
    assert_eq!(options.lookahead, 3);
    assert_eq!(options.max_buffer, 100);
    assert_eq!(options.language, "de");
    assert_eq!(args.input_file, Some(PathBuf::from("in.txt")));
}

#[test]
fn options_can_be_cloned() {
    let options = SegmentOptions { lookahead: 0, max_buffer: 1, language: "fr".to_string() };
    let copy = options.clone();
    assert_eq!(copy.lookahead, 0);
    assert_eq!(copy.max_buffer, 1);
    assert_eq!(copy.language, "fr");
}

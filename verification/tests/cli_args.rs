use build_tools::cli::{expand_with_replies, process_raw_args, response_file_arguments, ArgsError, ReadFailure, ResponseFileReader};
use std::collections::HashMap;

#[derive(Default)]
struct MockFileReader {
    files: HashMap<String, String>,
}

impl MockFileReader {
    fn add_file(&mut self, path: &str, content: &str) {
        self.files.insert(path.to_string(), content.to_string());
    }
}

impl ResponseFileReader for MockFileReader {
    fn read_lines(&self, path: &str) -> Result<Vec<String>, ReadFailure> {
        match self.files.get(path) {
            Some(content) => Ok(content.lines().map(|l| l.to_string()).collect()),
            None => Err(ReadFailure::Open),
        }
    }
}

fn create_os_command(command: &str) -> Vec<String> {
    command.split_whitespace().map(String::from).collect()
}

#[test]
fn test_process_args_with_response_file() {
    let mut reader = MockFileReader::default();
    reader.add_file("args.txt", "--option1 value1\n#comment\n--flag value2");

    let raw_args = create_os_command("aconfig dump @args.txt --other value3");
    let expected_args: Vec<String> = vec![
        "aconfig".into(),
        "dump".into(),
        "--option1".into(),
        "value1".into(),
        "--flag".into(),
        "value2".into(),
        "--other".into(),
        "value3".into(),
    ];

    let processed = process_raw_args(raw_args, &reader).unwrap();

    assert_eq!(processed, expected_args);
}

#[test]
fn response_file_expansion_skips_comments_and_blank_lines() {
    let file_content = r#"
        --package
        com.via.respfile
        # This is a comment

        --container
        vendor
        --cache
        cache.pb
        "#;
    let mut reader = MockFileReader::default();
    reader.add_file("response", file_content);

    let mut input_args: Vec<String> = vec!["aconfig".into(), "create-cache".into(), "@response".into()];
    input_args.append(&mut create_os_command("--declarations test.aconfig --values flag.val"));

    let processed = process_raw_args(input_args, &reader).unwrap();
    assert_eq!(
        processed,
        create_os_command(
            "aconfig create-cache --package com.via.respfile --container vendor --cache cache.pb --declarations test.aconfig --values flag.val"
        )
    );
}

#[test]
fn an_empty_response_file_adds_nothing() {
    let mut reader = MockFileReader::default();
    reader.add_file("response", "");
    let mut input_args: Vec<String> = vec!["aconfig".into(), "create-cache".into(), "@response".into()];
    input_args.append(&mut create_os_command("--package com.via.respfile --container vendor"));
    let processed = process_raw_args(input_args, &reader).unwrap();
    assert_eq!(processed, create_os_command("aconfig create-cache --package com.via.respfile --container vendor"));
}

#[test]
fn a_bare_at_sign_is_refused() {
    let reader = MockFileReader::default();
    let error = process_raw_args(create_os_command("aconfig @ dump"), &reader).unwrap_err();
    assert!(matches!(error, ArgsError::MissingResponseFile));
    assert_eq!("missing response file after @", error.message());
}

#[test]
fn a_missing_response_file_is_named() {
    let reader = MockFileReader::default();
    let error = process_raw_args(create_os_command("aconfig @nowhere"), &reader).unwrap_err();
    assert_eq!("Failed to open response file: nowhere", error.message());
}

#[test]
fn the_program_name_is_kept_as_it_is() {
    let reader = MockFileReader::default();
    let processed = process_raw_args(create_os_command("@aconfig x y"), &reader).unwrap();
    assert_eq!(processed, create_os_command("@aconfig x y"));
    assert!(process_raw_args(vec![], &reader).unwrap().is_empty());
}

#[test]
fn response_file_lines_are_split_at_white_space() {
    let lines = vec!["  a\tb  ".to_string(), "#c d".to_string(), "".to_string(), "e".to_string()];
    assert_eq!(response_file_arguments(&lines), vec!["a".to_string(), "b".to_string(), "e".to_string()]);
}

#[test]
fn a_bare_at_sign_after_a_response_file_is_refused() {
    let mut reader = MockFileReader::default();
    reader.add_file("args.txt", "--flag value");
    let error = process_raw_args(create_os_command("aconfig @args.txt @ dump"), &reader).unwrap_err();
    assert!(matches!(error, ArgsError::MissingResponseFile));
}

#[test]
fn a_failed_read_stops_before_a_later_bare_at_sign() {
    let reader = MockFileReader::default();
    let error = process_raw_args(create_os_command("aconfig @nowhere @"), &reader).unwrap_err();
    assert_eq!("Failed to open response file: nowhere", error.message());
}

#[test]
fn replies_replace_their_response_files_in_order() {
    let args = create_os_command("aconfig @one x @two");
    let replies = vec![
        Ok(vec!["a b".to_string(), "# c".to_string()]),
        Ok(vec!["d".to_string()]),
    ];
    let expanded = expand_with_replies(&args, &replies).unwrap().unwrap();
    assert_eq!(expanded, create_os_command("aconfig a b x d"));
}

#[test]
fn a_failed_reply_names_its_file() {
    let args = create_os_command("aconfig @one @two");
    let replies = vec![Ok(vec!["a".to_string()]), Err(ReadFailure::Line)];
    let error = expand_with_replies(&args, &replies).unwrap().unwrap_err();
    assert_eq!("Failed to read line from response file reader: two", error.message());
}

#[test]
fn replies_must_match_the_files_read() {
    let args = create_os_command("aconfig @one");
    assert!(expand_with_replies(&args, &vec![]).is_none());
    let two: Vec<Result<Vec<String>, ReadFailure>> = vec![Ok(vec![]), Ok(vec![])];
    assert!(expand_with_replies(&args, &two).is_none());
    let after_error: Vec<Result<Vec<String>, ReadFailure>> = vec![Err(ReadFailure::Open), Ok(vec![])];
    assert!(expand_with_replies(&create_os_command("aconfig @one @two"), &after_error).is_none());
}

use tax_lots::utils::read_all_lines;

#[test]
fn lines_end_at_line_feeds() {
    assert_eq!(read_all_lines("one\ntwo\n"), vec!["one".to_string(), "two".to_string()]);
}

#[test]
fn last_line_needs_no_line_feed() {
    assert_eq!(read_all_lines("one\ntwo"), vec!["one".to_string(), "two".to_string()]);
}

#[test]
fn carriage_return_goes_with_the_line_feed() {
    assert_eq!(
        read_all_lines("one\r\ntwo\r\r\nthree\r"),
        vec!["one".to_string(), "two\r".to_string(), "three\r".to_string()]
    );
}

#[test]
fn empty_lines_are_kept() {
    assert_eq!(read_all_lines("\n\nx\n"), vec!["".to_string(), "".to_string(), "x".to_string()]);
    assert!(read_all_lines("").is_empty());
}

#[test]
fn lines_agree_with_the_standard_reader() {
    let text = "[a] 1 b\r\n--- note\n\n\rlast\r\n\r";
    let expected: Vec<String> =
        std::io::BufRead::lines(std::io::Cursor::new(text)).map(|line| line.unwrap()).collect();
    assert_eq!(read_all_lines(text), expected);
}

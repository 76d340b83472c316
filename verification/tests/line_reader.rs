use sorting_game::line_reader::{LineReader, MockLineReader};

#[test]
fn test_mock_line_reader() {
    let mut mock = MockLineReader::default();
    let mut input = String::new();
    mock.read_line(&mut input);
    assert!(input.eq("2 3"));
    mock.read_line(&mut input);
    assert!(input.eq("1 2"));
}

#[test]
fn mock_line_reader_reads_empty_lines_after_its_script() {
    let mut mock = MockLineReader::default();
    let mut input = "left over".to_string();
    mock.read_line(&mut input);
    mock.read_line(&mut input);
    mock.read_line(&mut input);
    assert_eq!(input, "");
    mock.read_line(&mut input);
    assert_eq!(input, "");
}

#[test]
fn mock_line_reader_clone_reads_on_its_own() {
    let mut mock = MockLineReader::default();
    let mut input = String::new();
    mock.read_line(&mut input);
    let mut copy = mock.clone();
    mock.read_line(&mut input);
    assert_eq!(input, "1 2");
    mock.read_line(&mut input);
    assert_eq!(input, "");
    copy.read_line(&mut input);
    assert_eq!(input, "1 2");
}

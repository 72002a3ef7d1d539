use inf_rs::LineReader;

#[test]
fn test_line_reader_basic() {
    let mut reader = LineReader::default();
    assert!(reader.read_to_line("Hello\r\nWorld\r\n").is_ok());
    let lines = reader.take_lines();
    assert_eq!(lines, vec!["Hello", "World"]);
}

#[test]
fn test_line_reader_incomplete_line() {
    let mut reader = LineReader::default();
    assert!(reader.read_to_line("Hello\r\nWor").is_ok());
    let lines = reader.take_lines();
    assert_eq!(lines, vec!["Hello"]);
    assert_eq!(reader.remaining_string, "Wor");
}

#[test]
fn test_line_reader_invalid_crlf() {
    let mut reader = LineReader::default();
    assert!(reader.read_to_line("Hello\rWorld").is_err());
}

#[test]
fn test_line_reader_finalize() {
    let mut reader = LineReader::default();
    assert!(reader.read_to_line("Hello\r\nWorld").is_ok());
    reader.finalize();
    let lines = reader.take_lines();
    assert_eq!(lines, vec!["Hello", "World"]);
}

#[test]
fn incomplete_line_is_yielded_by_finalize() {
    let mut reader = LineReader::default();
    assert!(reader.read_to_line("Hello\r\nWor").is_ok());
    assert_eq!(reader.take_lines(), vec!["Hello"]);
    assert_eq!(reader.remaining_string, "Wor");
    reader.finalize();
    assert_eq!(reader.take_lines(), vec!["Wor"]);
}

#[test]
fn bare_line_feed_terminates_a_line() {
    let mut reader = LineReader::default();
    assert!(reader.read_to_line("a\nb\n").is_ok());
    assert_eq!(reader.take_lines(), vec!["a", "b"]);
    assert_eq!(reader.remaining_string, "");
}

#[test]
fn empty_lines_are_not_emitted() {
    let mut reader = LineReader::default();
    assert!(reader.read_to_line("\r\na\r\n\r\n\n\nb\n\n").is_ok());
    assert_eq!(reader.take_lines(), vec!["a", "b"]);
}

#[test]
fn terminator_split_across_chunks() {
    let mut reader = LineReader::default();
    assert!(reader.read_to_line("a\r").is_ok());
    assert!(reader.take_lines().is_empty());
    assert_eq!(reader.remaining_string, "a");
    assert!(reader.read_to_line("\nb").is_ok());
    assert_eq!(reader.take_lines(), vec!["a"]);
    assert_eq!(reader.remaining_string, "b");
}

#[test]
fn lone_carriage_return_is_found_across_chunks() {
    let mut reader = LineReader::default();
    assert!(reader.read_to_line("a\r").is_ok());
    assert!(reader.read_to_line("").is_ok());
    assert_eq!(reader.remaining_string, "a");
    assert!(reader.read_to_line("b").is_err());
    assert_eq!(reader.remaining_string, "a");

    let mut reader = LineReader::default();
    assert!(reader.read_to_line("a\r").is_ok());
    assert!(reader.read_to_line("\r\n").is_err());
}

#[test]
fn carriage_return_at_the_end_of_the_stream_is_dropped() {
    let mut reader = LineReader::default();
    assert!(reader.read_to_line("a\nb\r").is_ok());
    reader.finalize();
    assert_eq!(reader.take_lines(), vec!["a", "b"]);
    assert_eq!(reader.remaining_string, "b");

    let mut reader = LineReader::default();
    assert!(reader.read_to_line("a\n\r").is_ok());
    reader.finalize();
    assert_eq!(reader.take_lines(), vec!["a"]);
}

#[test]
fn buffer_never_holds_a_terminator_character() {
    let mut reader = LineReader::default();
    for chunk in ["ab\r", "\ncd\r", "\n\r", "\nef\r"] {
        assert!(reader.read_to_line(chunk).is_ok());
        assert!(!reader.remaining_string.contains('\r'));
        assert!(!reader.remaining_string.contains('\n'));
    }
    assert_eq!(reader.lines, vec!["ab", "cd"]);
    assert_eq!(reader.remaining_string, "ef");
    reader.finalize();
    assert_eq!(reader.take_lines(), vec!["ab", "cd", "ef"]);
}

#[test]
fn any_split_in_two_gives_the_same_reader() {
    let text = "ab\r\n\r\ncd\n\nef\r\ng\r";
    let mut whole = LineReader::default();
    assert!(whole.read_to_line(text).is_ok());
    for cut in 0..=text.len() {
        let mut split = LineReader::default();
        assert!(split.read_to_line(&text[..cut]).is_ok());
        assert!(split.read_to_line(&text[cut..]).is_ok());
        assert_eq!(split, whole);
    }
    let bad = "ab\rcd\n";
    for cut in 0..=bad.len() {
        let mut split = LineReader::default();
        let first = split.read_to_line(&bad[..cut]);
        assert!(first.is_err() || split.read_to_line(&bad[cut..]).is_err());
    }
}

#[test]
fn lone_carriage_return_keeps_buffer_and_earlier_lines() {
    let mut reader = LineReader::default();
    assert!(reader.read_to_line("pre").is_ok());
    let result = reader.read_to_line("fix\ny\rz\nw");
    let error = result.unwrap_err();
    assert_eq!(
        error,
        inf_rs::LineReaderError::InvalidCrlf("found \\r but not \\n immediately".to_string())
    );
    assert_eq!(error.message(), "Invalid CRLF sequence: found \\r but not \\n immediately");
    assert_eq!(reader.lines, vec!["prefix"]);
    assert_eq!(reader.remaining_string, "pre");
}

#[test]
fn take_lines_twice_yields_nothing_the_second_time() {
    let mut reader = LineReader::default();
    assert!(reader.read_to_line("one\ntwo\n").is_ok());
    assert_eq!(reader.take_lines(), vec!["one", "two"]);
    assert!(reader.take_lines().is_empty());
}

#[test]
fn finalize_without_buffered_text_adds_nothing() {
    let mut reader = LineReader::default();
    assert!(reader.read_to_line("one\n").is_ok());
    reader.finalize();
    assert_eq!(reader.take_lines(), vec!["one"]);
}

#[test]
fn one_character_at_a_time_gives_the_same_lines() {
    let text = "Hello\r\nWorld\r\n\r\nlast line";
    let mut whole = LineReader::default();
    assert!(whole.read_to_line(text).is_ok());

    let mut chunked = LineReader::default();
    for c in text.chars() {
        assert!(chunked.read_to_line(&c.to_string()).is_ok());
    }
    assert_eq!(whole.lines, vec!["Hello", "World"]);
    assert_eq!(whole.remaining_string, "last line");
    assert_eq!(chunked, whole);
}

#[test]
fn crlf_and_lf_give_the_same_line() {
    let mut crlf = LineReader::default();
    assert!(crlf.read_to_line("key=value\r\n").is_ok());
    let mut lf = LineReader::default();
    assert!(lf.read_to_line("key=value\n").is_ok());
    assert_eq!(crlf, lf);
    assert_eq!(crlf.take_lines(), vec!["key=value"]);
}

#[test]
fn emitted_lines_hold_the_text_without_terminators() {
    let text = "ab\r\n\ncd\nef";
    let mut reader = LineReader::default();
    assert!(reader.read_to_line(text).is_ok());
    let mut joined = reader.lines.concat();
    joined.push_str(&reader.remaining_string);
    assert_eq!(joined, "abcdef");
}

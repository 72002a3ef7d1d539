use inf_rs::{
    InfEntry, InfValue, LineReader, LineReaderError, SectionReaderError, TextDecoder, WinInfFile,
    WinInfFileError, CHUNK_SIZE,
};

const SAMPLE: &str = "; sample\r\n[Version]\r\nSignature=\"$Windows NT$\"\r\nClass = Display ; class\r\nDriverVer=03/15/2011, 0.03.15.0011\r\n\r\n[SourceDisksFiles]\r\nSampleDisplay.sys=1\r\n[Files]\r\nSampleDisplay.sys\r\n[Strings]\r\nLong=first\\\r\n  second\r\nName=\"Sample \\\"\\\r\nDevice\r\nREG_DWORD = 0x00010001";

fn key_value(key: &str, value: &str) -> InfEntry {
    InfEntry::KeyValue(key.to_string(), Some(InfValue::Raw(value.to_string())))
}

fn utf16le_with_mark(text: &str) -> Vec<u8> {
    let mut bytes = vec![0xff, 0xfe];
    for unit in text.encode_utf16() {
        bytes.push((unit & 0xff) as u8);
        bytes.push((unit >> 8) as u8);
    }
    bytes
}

fn check_sample(inf: &WinInfFile) {
    assert_eq!(
        inf.sections.names(),
        vec!["Version", "SourceDisksFiles", "Files", "Strings"]
    );
    assert_eq!(
        inf.sections.get("Version").unwrap().entries,
        vec![
            key_value("Signature", "$Windows NT$"),
            key_value("Class", "Display"),
            key_value("DriverVer", "03/15/2011, 0.03.15.0011"),
        ]
    );
    assert_eq!(
        inf.sections.get("SourceDisksFiles").unwrap().entries,
        vec![key_value("SampleDisplay.sys", "1")]
    );
    assert_eq!(
        inf.sections.get("Files").unwrap().entries,
        vec![InfEntry::OnlyValue(InfValue::Raw("SampleDisplay.sys".to_string()))]
    );
    assert_eq!(
        inf.sections.get("Strings").unwrap().entries,
        vec![
            key_value("Long", "firstsecond"),
            key_value("Name", "Sample \\Device"),
            key_value("REG_DWORD", "0x00010001"),
        ]
    );
    assert!(inf.sections.get("[Non Existent Section]").is_none());
}

fn parse_in_chunks(chunks: &[&[u8]]) -> Result<WinInfFile, WinInfFileError> {
    let mut inf = WinInfFile::default();
    let mut decoder = TextDecoder::new();
    let mut lines = LineReader::default();
    for (i, chunk) in chunks.iter().enumerate() {
        inf.parse_chunk(&mut decoder, &mut lines, chunk, i + 1 == chunks.len())?;
    }
    inf.finish(&mut lines)?;
    Ok(inf)
}

#[test]
fn chunk_size_is_one_kibibyte() {
    assert_eq!(CHUNK_SIZE, 1024);
}

#[test]
fn utf8_file_is_parsed() {
    let mut inf = WinInfFile::default();
    assert_eq!(inf.parse_bytes(SAMPLE.as_bytes()), Ok(()));
    check_sample(&inf);
    assert_eq!(inf.section_reader.last_section_name(), "Strings");
}

#[test]
fn utf16le_file_is_parsed() {
    let mut inf = WinInfFile::default();
    assert_eq!(inf.parse_bytes(&utf16le_with_mark(SAMPLE)), Ok(()));
    check_sample(&inf);
}

#[test]
fn empty_input_gives_an_empty_document() {
    let mut inf = WinInfFile::default();
    assert_eq!(inf.parse_bytes(b""), Ok(()));
    assert_eq!(inf, WinInfFile::default());
}

#[test]
fn last_line_without_terminator_is_read() {
    let mut inf = WinInfFile::default();
    assert_eq!(inf.parse_bytes(b"[S]\nkey=value"), Ok(()));
    assert_eq!(inf.sections.get("S").unwrap().entries, vec![key_value("key", "value")]);
}

#[test]
fn parsing_the_same_bytes_twice_gives_equal_documents() {
    let mut first = WinInfFile::default();
    let mut second = WinInfFile::default();
    assert_eq!(first.parse_bytes(SAMPLE.as_bytes()), Ok(()));
    assert_eq!(second.parse_bytes(SAMPLE.as_bytes()), Ok(()));
    assert_eq!(first, second);
    assert_eq!(first.sections, second.sections);

    let bytes = utf16le_with_mark(SAMPLE);
    let mut third = WinInfFile::default();
    let mut fourth = WinInfFile::default();
    assert_eq!(third.parse_bytes(&bytes), Ok(()));
    assert_eq!(fourth.parse_bytes(&bytes), Ok(()));
    assert_eq!(third, fourth);
    assert_eq!(third.sections, first.sections);
}

#[test]
fn text_one_character_at_a_time_gives_the_same_document() {
    let mut whole = WinInfFile::default();
    let mut whole_lines = LineReader::default();
    assert_eq!(whole.parse_text(&mut whole_lines, SAMPLE), Ok(()));

    let mut chunked = WinInfFile::default();
    let mut chunked_lines = LineReader::default();
    for c in SAMPLE.chars() {
        assert_eq!(chunked.parse_text(&mut chunked_lines, &c.to_string()), Ok(()));
    }
    assert_eq!(chunked, whole);
    assert_eq!(chunked_lines, whole_lines);
    assert_eq!(whole_lines.remaining_string, "REG_DWORD = 0x00010001");

    assert_eq!(whole.finish(&mut whole_lines), Ok(()));
    assert_eq!(chunked.finish(&mut chunked_lines), Ok(()));
    assert_eq!(chunked, whole);
    check_sample(&whole);
}

#[test]
fn utf8_bytes_one_at_a_time_give_the_same_document() {
    let bytes = SAMPLE.as_bytes();
    let chunks: Vec<&[u8]> = bytes.chunks(1).collect();
    let chunked = parse_in_chunks(&chunks).unwrap();
    let whole = parse_in_chunks(&[bytes]).unwrap();
    assert_eq!(chunked, whole);
    check_sample(&chunked);
}

#[test]
fn utf16le_bytes_in_odd_chunks_give_the_same_document() {
    let bytes = utf16le_with_mark(SAMPLE);
    let mut chunks: Vec<&[u8]> = vec![&bytes[..3]];
    chunks.extend(bytes[3..].chunks(5));
    let chunked = parse_in_chunks(&chunks).unwrap();
    let whole = parse_in_chunks(&[&bytes]).unwrap();
    assert_eq!(chunked, whole);
    check_sample(&chunked);
}

#[test]
fn input_longer_than_a_chunk_is_parsed() {
    let mut text = String::from("[Big]\r\n");
    let mut expected = Vec::new();
    for i in 0..400 {
        text.push_str(&format!("key{}=value number {}\r\n", i, i));
        expected.push(key_value(&format!("key{}", i), &format!("value number {}", i)));
    }
    assert!(text.len() > 4 * CHUNK_SIZE);
    let mut inf = WinInfFile::default();
    assert_eq!(inf.parse_bytes(text.as_bytes()), Ok(()));
    assert_eq!(inf.sections.get("Big").unwrap().entries, expected);

    let mut wide = WinInfFile::default();
    assert_eq!(wide.parse_bytes(&utf16le_with_mark(&text)), Ok(()));
    assert_eq!(wide, inf);
}

#[test]
fn input_of_exactly_one_chunk_is_parsed() {
    let mut text = String::from("[S]\n");
    while text.len() < CHUNK_SIZE - 4 {
        text.push_str("k=v\n");
    }
    text.push_str("end");
    while text.len() < CHUNK_SIZE {
        text.push('.');
    }
    assert_eq!(text.len(), CHUNK_SIZE);
    let mut inf = WinInfFile::default();
    assert_eq!(inf.parse_bytes(text.as_bytes()), Ok(()));
    let entries = &inf.sections.get("S").unwrap().entries;
    assert_eq!(entries.len(), 255);
    assert!(matches!(entries.last(), Some(InfEntry::OnlyValue(InfValue::Raw(v))) if v.starts_with("end.")));
}

#[test]
fn lone_carriage_return_fails_line_assembly() {
    let mut inf = WinInfFile::default();
    let error = inf.parse_bytes(b"[S]\r\nHello\rWorld\r\n").unwrap_err();
    assert_eq!(
        error,
        WinInfFileError::ReadLineError(LineReaderError::InvalidCrlf(
            "found \\r but not \\n immediately".to_string()
        ))
    );
    assert_eq!(
        error.message(),
        "Failed to read line: Invalid CRLF sequence: found \\r but not \\n immediately"
    );
}

#[test]
fn grammar_error_aborts_the_parse() {
    let mut inf = WinInfFile::default();
    let error = inf.parse_bytes(b"[A]\nk=v\n[Invalid Section]\n[B]\n").unwrap_err();
    assert_eq!(
        error,
        WinInfFileError::SectionParseError(SectionReaderError::InvalidSectionName(
            "contains invalid chars in unquoted section name".to_string()
        ))
    );
    assert_eq!(
        error.message(),
        "Failed to parse section: Invalid section name: contains invalid chars in unquoted section name"
    );
    assert!(!inf.sections.contains_key("B"));
}

#[test]
fn parse_lines_stops_at_the_first_rejected_line() {
    let mut inf = WinInfFile::default();
    let lines = vec![
        "[A]".to_string(),
        "one=1".to_string(),
        "two=\"2".to_string(),
        "three=3".to_string(),
    ];
    let error = inf.parse_lines(lines).unwrap_err();
    assert_eq!(
        error,
        WinInfFileError::SectionParseError(SectionReaderError::InvalidQuotedValue(
            "no ending double quote found, key: two, section: A".to_string()
        ))
    );
    assert_eq!(inf.sections.get("A").unwrap().entries, vec![key_value("one", "1")]);
}

#[test]
fn other_errors_have_their_messages() {
    assert_eq!(WinInfFileError::FileDoNotExist.message(), "File does not exist");
    assert_eq!(WinInfFileError::FileReadError.message(), "Failed to read file");
    assert_eq!(
        WinInfFileError::FileOpenError("denied".to_string()).message(),
        "Failed to open file: denied"
    );
    assert_eq!(
        SectionReaderError::InvalidContinuation("x".to_string()).message(),
        "Invalid continuation: x"
    );
}

#[test]
fn reading_the_same_bytes_again_changes_nothing() {
    let mut once = WinInfFile::default();
    assert_eq!(once.parse_bytes(SAMPLE.as_bytes()), Ok(()));
    let mut twice = once.clone();
    assert_eq!(twice.parse_bytes(SAMPLE.as_bytes()), Ok(()));
    assert_eq!(twice, once);

    let stray = b"stray=1\n[A]\nk=v\\\n";
    let mut once = WinInfFile::default();
    assert_eq!(once.parse_bytes(stray), Ok(()));
    let mut twice = once.clone();
    assert_eq!(twice.parse_bytes(stray), Ok(()));
    assert_eq!(twice, once);
    assert!(twice.sections.get("A").unwrap().entries.is_empty());
    assert_eq!(twice.section_reader.last_entry_value_contd(), "v");
}

#[test]
fn rejected_text_does_not_reach_the_grammar() {
    let mut inf = WinInfFile::default();
    let mut lines = LineReader::default();
    assert_eq!(inf.parse_text(&mut lines, "[A]\nheld"), Ok(()));
    let before = inf.clone();
    assert!(inf.parse_text(&mut lines, " back\n[B]\nx\ry\n").is_err());
    assert_eq!(inf, before);
    assert_eq!(lines.remaining_string, "held");
    assert_eq!(lines.lines, vec!["held back", "[B]"]);
}

#[test]
fn grammar_error_leaves_the_lines_before_it_read() {
    let mut inf = WinInfFile::default();
    let mut lines = LineReader::default();
    assert!(inf.parse_text(&mut lines, "[A]\nk=v\n[B C]\n[D]\nrest").is_err());
    assert_eq!(inf.sections.names(), vec!["A"]);
    assert_eq!(inf.sections.get("A").unwrap().entries, vec![key_value("k", "v")]);
    assert!(lines.lines.is_empty());
    assert_eq!(lines.remaining_string, "rest");
}

#[test]
fn utf8_characters_cut_by_chunk_edges_are_kept() {
    let text = "[Str\u{e9}ngs]\r\nN\u{e4}me=\"\u{20ac}uro \u{1f600}\"\r\n\u{4e2d}\u{6587}=\u{fc}ber\r\n";
    let bytes = text.as_bytes();
    let whole = parse_in_chunks(&[bytes]).unwrap();
    assert_eq!(
        whole.sections.get("Str\u{e9}ngs").unwrap().entries,
        vec![
            key_value("N\u{e4}me", "\u{20ac}uro \u{1f600}"),
            key_value("\u{4e2d}\u{6587}", "\u{fc}ber"),
        ]
    );
    for size in 1..=7 {
        let chunks: Vec<&[u8]> = bytes.chunks(size).collect();
        assert_eq!(parse_in_chunks(&chunks).unwrap(), whole);
    }
}

#[test]
fn character_across_the_chunk_size_is_kept() {
    let mut text = String::from("[S]\nkey=");
    while text.len() < CHUNK_SIZE - 1 {
        text.push('x');
    }
    text.push('\u{e9}');
    text.push_str("y\n");
    assert_eq!(text.as_bytes()[CHUNK_SIZE - 1], 0xc3);
    let mut inf = WinInfFile::default();
    assert_eq!(inf.parse_bytes(text.as_bytes()), Ok(()));
    let expected = &text["[S]\nkey=".len()..text.len() - 1];
    assert_eq!(inf.sections.get("S").unwrap().entries, vec![key_value("key", expected)]);
}

#[test]
fn sequence_cut_short_at_the_end_of_a_full_chunk_is_replaced() {
    let mut bytes = b"[S]\nkey=".to_vec();
    while bytes.len() < CHUNK_SIZE - 1 {
        bytes.push(b'x');
    }
    bytes.push(0xc3);
    assert_eq!(bytes.len(), CHUNK_SIZE);
    let mut inf = WinInfFile::default();
    assert_eq!(inf.parse_bytes(&bytes), Ok(()));
    let mut expected = "x".repeat(CHUNK_SIZE - 1 - "[S]\nkey=".len());
    expected.push('\u{fffd}');
    assert_eq!(inf.sections.get("S").unwrap().entries, vec![key_value("key", &expected)]);
}

#[test]
fn names_hold_each_section_once() {
    let mut inf = WinInfFile::default();
    assert_eq!(inf.parse_bytes(b"[A]\n[B]\n[A]\nx=1\n[C]\n[B]\n"), Ok(()));
    assert_eq!(inf.sections.names(), vec!["A", "B", "C"]);
}

use lzjd_batch::codec::{
    decode_line, decode_lines, encode_line, encode_record, encode_records, record_from_parts,
    split_line,
};
use lzjd_batch::digest::DigestRecord;
use lzjd_batch::error::{Error, ParseFault};
use malwaredb_lzjd::{LZDict, LZJDError};

fn record(name: &str, entries: Vec<i32>) -> DigestRecord {
    DigestRecord::new(LZDict::from(entries), String::from(name)).unwrap()
}

fn entries_of(record: &DigestRecord) -> Vec<i32> {
    record.digest().iter().cloned().collect()
}

#[test]
fn record_needs_a_name() {
    assert!(DigestRecord::new(LZDict::from(vec![1]), String::new()).is_none());
    let named = DigestRecord::new(LZDict::from(vec![3, 1, 2]), String::from("x")).unwrap();
    assert_eq!(named.name(), "x");
    assert_eq!(entries_of(&named), vec![1, 2, 3]);
}

#[test]
fn encode_line_joins_prefix_name_and_payload() {
    assert_eq!(encode_line("a.bin", "AAAA"), "lzjd:a.bin:AAAA");
    assert_eq!(encode_line("dir/b:c", ""), "lzjd:dir/b:c:");
}

#[test]
fn encode_record_writes_the_digest_as_base64() {
    let line = encode_record(&record("sample.bin", vec![1, 2, 3, 4]));
    assert_eq!(line, "lzjd:sample.bin:AQAAAAIAAAADAAAABAAAAA==");
    assert!(!line.contains('\n'));
}

#[test]
fn encode_record_writes_no_line_break() {
    let line = encode_record(&record("many", (0..1000).collect()));
    assert!(!line.contains('\n'));
    assert!(!line.contains('\r'));
    let text = split_line(&line).unwrap().1;
    assert_eq!(text.len(), 5336);
    assert!(text
        .chars()
        .all(|c| c.is_ascii_alphanumeric() || c == '+' || c == '/' || c == '='));
}

#[test]
fn encode_record_of_empty_digest() {
    assert_eq!(encode_record(&record("empty", vec![])), "lzjd:empty:");
}

#[test]
fn encode_records_keeps_the_order() {
    let records = vec![
        record("first", vec![1, 2]),
        record("second", vec![]),
        record("third", vec![-1]),
    ];
    let lines = encode_records(&records);
    assert_eq!(
        lines,
        vec![
            String::from("lzjd:first:AQAAAAIAAAA="),
            String::from("lzjd:second:"),
            String::from("lzjd:third://///w=="),
        ]
    );
    assert!(encode_records(&Vec::new()).is_empty());
}

#[test]
fn split_line_finds_name_and_payload() {
    assert_eq!(split_line("lzjd:a.bin:AAAA"), Some(("a.bin", "AAAA")));
    assert_eq!(split_line("lzjd:x:"), Some(("x", "")));
}

#[test]
fn split_line_cuts_at_the_last_colon() {
    assert_eq!(
        split_line("lzjd:C:\\dir:file.exe:QUJD"),
        Some(("C:\\dir:file.exe", "QUJD"))
    );
    assert_eq!(split_line("lzjd::a:b"), Some((":a", "b")));
}

#[test]
fn split_line_refuses_an_empty_name() {
    assert_eq!(split_line("lzjd::AQAAAAIAAAA="), None);
    assert_eq!(split_line("lzjd::"), None);
}

#[test]
fn split_line_refuses_a_line_without_colon_behind_the_prefix() {
    assert_eq!(split_line("lzjd:nameAQAAAAIAAAA="), None);
    assert_eq!(split_line("lzjd:"), None);
    assert_eq!(split_line("lzjd"), None);
    assert_eq!(split_line("a:b"), None);
    assert_eq!(split_line(""), None);
    assert_eq!(split_line("no colon at all"), None);
}

#[test]
fn split_line_refuses_a_line_without_the_prefix() {
    assert_eq!(split_line("abcdefg:AAAA"), None);
    assert_eq!(split_line("abcde:AAAA"), None);
    assert_eq!(split_line("abcdef:AAAA"), None);
    assert_eq!(split_line("LZJD:name:AAAA"), None);
    assert_eq!(split_line("lzjd;name:AAAA"), None);
    assert_eq!(split_line("lzj:dname:AAAA"), None);
    assert_eq!(split_line(" lzjd:name:AAAA"), None);
    assert_eq!(split_line("xlzjd:name:AAAA"), None);
    assert_eq!(split_line("sdbf:name:AAAA"), None);
    assert_eq!(split_line("lzjd:name:AAAA"), Some(("name", "AAAA")));
}

#[test]
fn split_line_keeps_names_that_are_not_ascii() {
    assert_eq!(
        split_line("lzjd:données/été.bin:QUJD"),
        Some(("données/été.bin", "QUJD"))
    );
}

#[test]
fn split_line_refuses_a_prefix_that_is_not_ascii() {
    assert_eq!(split_line("abcdé:AAAA"), None);
    assert_eq!(split_line("abcdéf:AAAA"), None);
    assert_eq!(split_line("abcéf:AAAA"), None);
    assert_eq!(split_line("lzjdé:f:AAAA"), None);
    assert_eq!(split_line("lzjd:é:AAAA"), Some(("é", "AAAA")));
}

#[test]
fn record_from_parts_maps_each_outcome() {
    let made = record_from_parts("n", Ok(LZDict::from(vec![7]))).unwrap();
    assert_eq!(made.name(), "n");
    assert_eq!(entries_of(&made), vec![7]);
    assert_eq!(
        record_from_parts("n", Err(LZJDError::from("refused"))).err(),
        Some(ParseFault::Payload)
    );
    assert_eq!(
        record_from_parts("", Ok(LZDict::from(vec![7]))).err(),
        Some(ParseFault::Name)
    );
    assert_eq!(
        record_from_parts("", Err(LZJDError::from("refused"))).err(),
        Some(ParseFault::Name)
    );
}

#[test]
fn decode_line_reads_name_and_digest() {
    let read = decode_line("lzjd:sample.bin:AQAAAAIAAAADAAAABAAAAA==").unwrap();
    assert_eq!(read.name(), "sample.bin");
    assert_eq!(entries_of(&read), vec![1, 3]);
    let expected = LZDict::from_base64_string("AQAAAAIAAAADAAAABAAAAA==").unwrap();
    assert_eq!(entries_of(&read), expected.iter().cloned().collect::<Vec<i32>>());
}

#[test]
fn decode_line_refuses_a_bad_payload() {
    assert_eq!(decode_line("lzjd:name:!!!").err(), Some(ParseFault::Payload));
    assert_eq!(decode_line("lzjd:name:AQAAAA").err(), Some(ParseFault::Payload));
}

#[test]
fn decode_line_refuses_an_empty_name() {
    assert_eq!(
        decode_line("lzjd::AQAAAAIAAAADAAAABAAAAA==").err(),
        Some(ParseFault::Name)
    );
}

#[test]
fn decode_line_refuses_a_line_without_separator() {
    assert_eq!(decode_line("lzjd:AQAAAAIAAAA=").err(), Some(ParseFault::Name));
    assert_eq!(decode_line("garbage").err(), Some(ParseFault::Name));
}

#[test]
fn decode_line_refuses_a_line_without_the_prefix() {
    let text = LZDict::from(vec![1, 2, 3, 4]).to_string();
    assert!(decode_line(&format!("lzjd:fg:{text}")).is_ok());
    assert_eq!(decode_line(&format!("abcdefg:{text}")).err(), Some(ParseFault::Name));
    assert_eq!(decode_line(&format!("abcde:fg:{text}")).err(), Some(ParseFault::Name));
    assert_eq!(
        decode_lines(&vec![format!("abcdefg:{text}")]).err(),
        Some(Error::Parse { line: 1, fault: ParseFault::Name })
    );
}

#[test]
fn decode_line_checks_the_name_before_the_payload() {
    assert_eq!(decode_line("lzjd::!!!").err(), Some(ParseFault::Name));
}

#[test]
fn round_trip_keeps_the_name() {
    let names = ["a", "dir/file.bin", "C:\\x:y", "with space", "été", ":", "a|b"];
    for name in names {
        let written = record(name, vec![5, 9, 11, 40]);
        let line = encode_record(&written);
        let read = decode_line(&line).unwrap();
        assert_eq!(read.name(), name);
    }
}

#[test]
fn round_trip_keeps_the_digest_text() {
    let written = record("f", vec![-7, 0, 3, 8, 21]);
    let text = written.digest().to_string();
    let line = encode_record(&written);
    assert_eq!(split_line(&line), Some(("f", text.as_str())));
    let read = decode_line(&line).unwrap();
    let expected = LZDict::from_base64_string(&text).unwrap();
    assert_eq!(entries_of(&read), expected.iter().cloned().collect::<Vec<i32>>());
}

#[test]
fn round_trip_through_a_list_of_lines() {
    let records = vec![record("one", vec![1, 2]), record("two: 2", vec![3, 4, 5, 6])];
    let lines = encode_records(&records);
    let read = decode_lines(&lines).unwrap();
    assert_eq!(read.len(), 2);
    assert_eq!(read[0].name(), "one");
    assert_eq!(read[1].name(), "two: 2");
}

#[test]
fn decode_lines_skips_blank_lines_and_trims() {
    let lines = vec![
        String::new(),
        String::from("  lzjd:a:AQAAAAIAAAA=  "),
        String::from(" \t "),
        String::from("\u{a0}lzjd:b:AQAAAAIAAAADAAAABAAAAA==\r"),
        String::from("\u{3000}"),
    ];
    let read = decode_lines(&lines).unwrap();
    assert_eq!(read.len(), 2);
    assert_eq!(read[0].name(), "a");
    assert_eq!(entries_of(&read[0]), vec![1]);
    assert_eq!(read[1].name(), "b");
    assert_eq!(entries_of(&read[1]), vec![1, 3]);
}

fn is_listed_white_space(c: char) -> bool {
    matches!(
        c,
        '\u{9}'..='\u{d}'
            | ' '
            | '\u{85}'
            | '\u{a0}'
            | '\u{1680}'
            | '\u{2000}'..='\u{200a}'
            | '\u{2028}'
            | '\u{2029}'
            | '\u{202f}'
            | '\u{205f}'
            | '\u{3000}'
    )
}

#[test]
fn a_line_of_one_character_is_blank_if_the_character_is_white_space() {
    for c in '\0'..=char::MAX {
        let read = decode_lines(&vec![c.to_string()]);
        assert_eq!(read.is_ok(), is_listed_white_space(c), "character {:?}", c);
    }
}

#[test]
fn every_white_space_character_is_trimmed_at_both_ends() {
    for c in ('\0'..=char::MAX).filter(|c| is_listed_white_space(*c)) {
        let line = format!("{c}{c}lzjd:a{c}b:AQAAAAIAAAA={c}");
        let read = decode_lines(&vec![line]).unwrap();
        assert_eq!(read.len(), 1);
        assert_eq!(read[0].name(), &format!("a{c}b"));
    }
}

#[test]
fn decode_lines_keeps_white_space_inside_a_name() {
    let read = decode_lines(&vec![String::from(" lzjd: a b :AQAAAAIAAAA=")]).unwrap();
    assert_eq!(read[0].name(), " a b ");
}

#[test]
fn decode_lines_of_nothing() {
    assert!(decode_lines(&Vec::new()).unwrap().is_empty());
    assert!(decode_lines(&vec![String::from("   ")]).unwrap().is_empty());
}

#[test]
fn decode_lines_fails_on_one_malformed_line() {
    let lines = vec![
        String::from("lzjd:a:AQAAAAIAAAA="),
        String::from("lzjd:b:AQAAAAIAAAA="),
        String::from("this is no record"),
        String::from("lzjd:c:AQAAAAIAAAA="),
    ];
    assert_eq!(
        decode_lines(&lines).err(),
        Some(Error::Parse { line: 3, fault: ParseFault::Name })
    );
}

#[test]
fn decode_lines_reports_the_first_malformed_line() {
    let lines = vec![
        String::new(),
        String::from("lzjd:a:AQAAAAIAAAA="),
        String::from("lzjd:b:***"),
        String::from("lzjd::AQAAAAIAAAA="),
    ];
    assert_eq!(
        decode_lines(&lines).err(),
        Some(Error::Parse { line: 3, fault: ParseFault::Payload })
    );
    assert_eq!(
        decode_lines(&vec![String::from("lzjd::AQAAAAIAAAA=")]).err(),
        Some(Error::Parse { line: 1, fault: ParseFault::Name })
    );
}

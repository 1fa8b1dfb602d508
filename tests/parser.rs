use repo_manifest::primitives::ParseError;
use repo_manifest::section::{
    desc_end, desc_separator, desc_start, desc_title, extract_section, extract_topic_description,
};
use repo_manifest::stanza::{
    extract_all_names, extract_field, extract_field_all, extract_name, key_name, key_value,
    separator, single_line, single_package,
};

#[test]
fn test_desc_title() {
    let test = &b"<!-- test title -->\nTopic Description"[..];
    assert_eq!(
        desc_title(&test),
        Ok((&b"Topic Description"[..], &b"<!-- test title -->\n"[..]))
    );
}

#[test]
fn test_desc_separator() {
    let test = &b"Topic Description\n-------\n"[..];
    assert_eq!(
        desc_separator(&test),
        Ok((&b"-------\n"[..], &b"Topic Description\n"[..]))
    );
}

#[test]
fn test_desc_start() {
    let test = &b"Topic Description\n-------\ncontent"[..];
    assert_eq!(desc_start(&test), Ok((&b"content"[..], ())));
}

#[test]
fn test_extract_topic_description() {
    let test = &b"<!-- test title -->\nTopic Description\n-------\n\ncontent\ncontent\n\nPackage(s) Affected\n"[..];
    assert_eq!(
        extract_topic_description(&test),
        Ok((&b"\nPackage(s) Affected\n"[..], &b"content\ncontent\n"[..]))
    );
}

#[test]
fn test_key_name() {
    let test = &b"name: value"[..];
    assert_eq!(key_name(&test), Ok((&b": value"[..], &b"name"[..])));
}

#[test]
fn test_seperator() {
    let test = &b": value"[..];
    let test_2 = &b": \tvalue"[..];
    assert_eq!(separator(&test), Ok((&b"value"[..], ())));
    assert_eq!(separator(&test_2), Ok((&b"value"[..], ())));
}

#[test]
fn test_single_line() {
    let test = &b"value\n"[..];
    let test_2 = &b"value\t\r\n"[..];
    let test_3 = &b"value \x23\xff\n"[..];
    assert_eq!(single_line(&test), Ok((&b"\n"[..], &b"value"[..])));
    assert_eq!(single_line(&test_2), Ok((&b"\n"[..], &b"value\t\r"[..])));
    assert_eq!(
        single_line(&test_3),
        Ok((&b"\n"[..], &b"value \x23\xff"[..]))
    );
}

#[test]
fn test_key_value() {
    let test = &b"name1: value\n"[..];
    let test_2 = &b"name2: value\t\r\n"[..];
    let test_3 = &b"name3: value \x23\xff\n"[..];
    assert_eq!(
        key_value(&test),
        Ok((&b"\n"[..], (&b"name1"[..], &b"value"[..])))
    );
    assert_eq!(
        key_value(&test_2),
        Ok((&b"\n"[..], (&b"name2"[..], &b"value\t\r"[..])))
    );
    assert_eq!(
        key_value(&test_3),
        Ok((&b"\n"[..], (&b"name3"[..], &b"value \x23\xff"[..])))
    );
}

#[test]
fn test_package() {
    let test = &b"Package: zsync\nVersion: 0.6.2-1\nSection: net\nArchitecture: amd64\nInstalled-Size: 256\n\n"[..];
    assert_eq!(
        single_package(&test),
        Ok((
            &b"\n"[..],
            vec![
                (&b"Package"[..], &b"zsync"[..]),
                (&b"Version"[..], &b"0.6.2-1"[..]),
                (&b"Section"[..], &b"net"[..]),
                (&b"Architecture"[..], &b"amd64"[..]),
                (&b"Installed-Size"[..], &b"256"[..])
            ]
        ))
    );
    assert_eq!(extract_name(&test), Ok((&b"\n"[..], (&b"zsync"[..]))));
}

#[test]
fn test_multi_package() {
    let test = &b"Package: zsync\na: b\n\nPackage: rsync\na: c\n\n"[..];
    assert_eq!(
        extract_all_names(test),
        (&b""[..], vec![&b"zsync"[..], &b"rsync"[..]])
    );
}

#[test]
fn two_records_give_names_in_order() {
    let test = &b"Package: zsync\nVersion: 0.6.2-1\n\nPackage: rsync\nVersion: 3.1.3\n\n"[..];
    assert_eq!(
        extract_field_all(test, b"Package"),
        (&b""[..], vec![&b"zsync"[..], &b"rsync"[..]])
    );
}

#[test]
fn no_record_leaves_whole_input() {
    for input in [&b""[..], &b"no colon at all\n"[..], &b"\nPackage: a\n\n"[..], &b"Package: a\n"[..]] {
        let (rest, values) = extract_field_all(input, b"Package");
        assert!(values.is_empty());
        assert_eq!(rest, input);
    }
}

#[test]
fn three_records_give_three_values() {
    let test = &b"Package: a\nX: 1\n\nVersion: 2\nPackage: b\n\nPackage: c\n\n"[..];
    assert_eq!(
        extract_all_names(test),
        (&b""[..], vec![&b"a"[..], &b"b"[..], &b"c"[..]])
    );
}

#[test]
fn extraction_stops_at_malformed_record() {
    let test = &b"Package: a\n\nVersion: 1\n\nPackage: c\n\n"[..];
    assert_eq!(
        extract_all_names(test),
        (&b"Version: 1\n\nPackage: c\n\n"[..], vec![&b"a"[..]])
    );
    let unterminated = &b"Package: a\n\nPackage: b\n"[..];
    assert_eq!(
        extract_all_names(unterminated),
        (&b"Package: b\n"[..], vec![&b"a"[..]])
    );
}

#[test]
fn missing_field_differs_from_syntax_error() {
    assert_eq!(
        extract_field(b"Version: 1\nSection: net\n\n", b"Package"),
        Err(ParseError::MissingField)
    );
    assert_eq!(
        extract_field(b"no colon here\n\n", b"Package"),
        Err(ParseError::Syntax(15))
    );
    assert_eq!(extract_name(b""), Err(ParseError::Syntax(0)));
}

#[test]
fn stanza_failure_is_that_of_its_first_line() {
    assert_eq!(single_package(b"key: no newline"), Err(ParseError::Syntax(10)));
    assert_eq!(single_package(b"\n"), Err(ParseError::Syntax(1)));
}

#[test]
fn first_matching_key_wins() {
    assert_eq!(
        extract_field(b"Package: one\nPackage: two\n\n", b"Package"),
        Ok((&b"\n"[..], &b"one"[..]))
    );
}

#[test]
fn separator_whitespace_amount_does_not_matter() {
    for line in [&b"key:v\n"[..], &b"key: v\n"[..], &b"key:   v\n"[..], &b"key:\t \tv\n"[..]] {
        assert_eq!(key_value(line), Ok((&b"\n"[..], (&b"key"[..], &b"v"[..]))));
    }
    assert_eq!(
        key_value(b"key:  v  w \n"),
        Ok((&b"\n"[..], (&b"key"[..], &b"v  w "[..])))
    );
    assert_eq!(separator(b"value"), Err(ParseError::Syntax(5)));
}

#[test]
fn key_must_not_start_with_newline() {
    assert_eq!(key_name(b"\nname: value"), Err(ParseError::Syntax(12)));
    assert_eq!(key_name(b": value"), Err(ParseError::Syntax(7)));
    assert_eq!(key_name(b"no separator"), Err(ParseError::Syntax(12)));
    assert_eq!(single_line(b"no newline"), Err(ParseError::Syntax(10)));
}

#[test]
fn fields_round_trip_through_lines() {
    let fields: Vec<(&[u8], &[u8])> = vec![
        (b"Package", b"zsync"),
        (b"Description", b"a: b c"),
        (b"Empty", b""),
        (b"Raw", b"\xff\x00x"),
    ];
    let mut text: Vec<u8> = Vec::new();
    for (k, v) in &fields {
        text.extend_from_slice(k);
        text.extend_from_slice(b": ");
        text.extend_from_slice(v);
        text.push(b'\n');
    }
    let (rest, parsed) = single_package(&text).unwrap();
    assert_eq!(rest, &b""[..]);
    assert_eq!(parsed, fields);
}

#[test]
fn section_body_between_markers() {
    let test = &b"...Topic Description\n-----\n\nbody line 1\nbody line 2\n\nPackage(s) Affected\n"[..];
    let (rest, body) = extract_topic_description(test).unwrap();
    assert_eq!(body, &b"body line 1\nbody line 2\n"[..]);
    assert_eq!(rest, &b"\nPackage(s) Affected\n"[..]);
}

#[test]
fn section_not_found() {
    let end_first = &b"\nPackage(s) Affected\nTopic Description\n---\n\nbody\n"[..];
    assert_eq!(extract_topic_description(end_first), Err(ParseError::Syntax(5)));
    let no_start = &b"Description\n---\n\nbody\n\nPackage(s) Affected\n"[..];
    assert_eq!(extract_topic_description(no_start), Err(ParseError::Syntax(43)));
    let no_end = &b"Topic Description\n---\n\nbody\n"[..];
    assert_eq!(extract_topic_description(no_end), Err(ParseError::Syntax(5)));
    let no_underline = &b"Topic Description\n\nbody\n\nPackage(s) Affected\n"[..];
    assert_eq!(extract_topic_description(no_underline), Err(ParseError::Syntax(45)));
    assert_eq!(extract_topic_description(b""), Err(ParseError::Syntax(0)));
}

#[test]
fn section_keeps_leading_spaces_of_body() {
    let test = &b"Topic Description\n===\n\n\n  indented\nEND"[..];
    assert_eq!(
        extract_section(test, b"Topic Description", b'=', b"END"),
        Ok((&b"END"[..], &b"  indented\n"[..]))
    );
}

#[test]
fn desc_end_keeps_marker_in_rest() {
    assert_eq!(
        desc_end(b"text\n\nPackage(s) Affected"),
        Ok((&b"\nPackage(s) Affected"[..], &b"text\n"[..]))
    );
}

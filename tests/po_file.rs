use fish_input::fluent_ids::{extra_ids, first_unsorted_id, show_id_errors_per_language};
use fish_input::po::{parse_po_file, InvalidLine, LiteralError, PoError, Unsupported};

fn table(v: &[(&str, &str)]) -> Vec<(String, String)> {
    v.iter().map(|(a, b)| (a.to_string(), b.to_string())).collect()
}

#[test]
fn po_reads_entries_in_order() {
    let src = b"# comment\nmsgid \"hello\"\nmsgstr \"hallo\"\n\nmsgid \"a\"\n\"b\"\nmsgstr \"\"\n\"c\\n\"\n";
    assert_eq!(parse_po_file(src), Ok(table(&[("hello", "hallo"), ("ab", "c\n")])));
}

#[test]
fn po_drops_untranslated_entries() {
    let src = b"msgid \"x\"\nmsgstr \"\"\nmsgid \"y\"\nmsgstr \"Y\"";
    assert_eq!(parse_po_file(src), Ok(table(&[("y", "Y")])));
}

#[test]
fn po_empty_file_is_empty_table() {
    assert_eq!(parse_po_file(b""), Ok(Vec::new()));
}

#[test]
fn po_crlf_lines() {
    let src = b"msgid \"k\"\r\nmsgstr \"v\"\r\n";
    assert_eq!(parse_po_file(src), Ok(table(&[("k", "v")])));
}

#[test]
fn po_escapes() {
    let src = b"msgid \"e\"\nmsgstr \"\\a\\b\\f\\t\\v\\\"\\\\\"\n";
    assert_eq!(
        parse_po_file(src),
        Ok(table(&[("e", "\u{7}\u{8}\u{c}\t\u{b}\"\\")]))
    );
}

#[test]
fn po_errors() {
    assert_eq!(parse_po_file(b"msgid \"a\"\n\n"), Err(PoError::MsgidWithoutMsgstr { line: 2 }));
    assert_eq!(parse_po_file(b"msgid \"a\"\nmsgid \"b\"\n"), Err(PoError::ConsecutiveMsgids { line: 2 }));
    assert_eq!(parse_po_file(b"msgstr \"a\"\n"), Err(PoError::MsgstrWithoutMsgid { line: 1 }));
    assert_eq!(
        parse_po_file(b"msgid \"a\"\nmsgstr \"b\"\nmsgstr \"c\"\n"),
        Err(PoError::ConsecutiveMsgstrs { line: 3 })
    );
    assert_eq!(parse_po_file(b"\"a\"\n"), Err(PoError::StrayString { line: 1 }));
    assert_eq!(
        parse_po_file(b"msgid \"a\"\nmsgstr \"b\"\nmsgid \"a\"\nmsgstr \"c\"\n\n"),
        Err(PoError::DuplicateMsgid { line: 5 })
    );
    assert_eq!(
        parse_po_file(b"msgid \"a\"\nmsgstr \"b\"\nmsgid \"a\"\nmsgstr \"c\"\n"),
        Err(PoError::TrailingDuplicateMsgid)
    );
    assert_eq!(parse_po_file(b"msgid \"a\"\n"), Err(PoError::TrailingMsgid));
    assert_eq!(
        parse_po_file(b"msgctxt \"a\"\n"),
        Err(PoError::Unsupported { line: 1, kind: Unsupported::Msgctxt })
    );
    assert_eq!(
        parse_po_file(b"msgid_plural \"a\"\n"),
        Err(PoError::Unsupported { line: 1, kind: Unsupported::MsgidPlural })
    );
    assert_eq!(
        parse_po_file(b"msgstr[0] \"a\"\n"),
        Err(PoError::Unsupported { line: 1, kind: Unsupported::IndexedMsgstr })
    );
    assert_eq!(
        parse_po_file(b"bogus\n"),
        Err(PoError::Invalid { line: 1, reason: InvalidLine::Unrecognized })
    );
    assert_eq!(parse_po_file(b"msgid \"\xff\"\n"), Err(PoError::InvalidUtf8 { line: 1 }));
}

#[test]
fn po_literal_errors() {
    let inv = |src: &[u8], r: InvalidLine| assert_eq!(parse_po_file(src), Err(PoError::Invalid { line: 1, reason: r }));
    inv(b"msgid ", InvalidLine::Msgid(LiteralError::Empty));
    inv(b"msgid x\"", InvalidLine::Msgid(LiteralError::NoOpeningQuote('x')));
    inv(b"msgid \"", InvalidLine::Msgid(LiteralError::NoClosingQuote));
    inv(b"msgstr \"ab", InvalidLine::Msgstr(LiteralError::BadClosingQuote('b')));
    inv(b"\"a\\q\"", InvalidLine::Quoted(LiteralError::UnsupportedEscape('q')));
    inv(b"\"a\"b\"", InvalidLine::Quoted(LiteralError::UnescapedQuote));
    inv(b"\"a\\\"", InvalidLine::Quoted(LiteralError::UnterminatedEscape));
}

#[test]
fn fluent_id_checks() {
    use_fluent_ids();
}

fn use_fluent_ids() {
    let s = |v: &[&str]| v.iter().map(|x| x.to_string()).collect::<Vec<String>>();
    assert_eq!(first_unsorted_id(&s(&["a", "b", "b", "c"])), None);
    assert_eq!(first_unsorted_id(&s(&["a", "c", "b"])), Some(2));
    assert_eq!(first_unsorted_id(&s(&["ab", "a"])), Some(1));
    assert_eq!(first_unsorted_id(&Vec::new()), None);
    assert_eq!(extra_ids(&s(&["x", "y", "z"]), &s(&["y"])), s(&["x", "z"]));
    let msg = show_id_errors_per_language(
        "Missing IDs",
        &vec![("en".to_string(), s(&["a", "b"])), ("de".to_string(), s(&["c"]))],
    );
    assert_eq!(msg, "Missing IDs:\n\nFor language en:\na\nb\nFor language de:\nc\n");
}

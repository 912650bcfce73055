use portal_mappings::{
    classify_entries, extract_gw_id, find_ext_options_block, find_string_end, parse_mappings,
    parse_portal_entry_at, parse_portal_frag_from_text, scan_step, EditError, MappingEntry, Mode,
    ScanState, Status, Token,
};

fn text(bytes: &[u8]) -> String {
    String::from_utf8(bytes.to_vec()).unwrap()
}

fn entry(local_id: &str, gw_id: Option<&str>) -> MappingEntry {
    MappingEntry {
        local_id: local_id.as_bytes().to_vec(),
        gw_id: gw_id.map(|id| id.as_bytes().to_vec()),
        raw_value: Vec::new(),
        same_id: false,
        status: Status::Normal,
    }
}

const SAMPLE: &str = "{\n  \"name\": \"theme\",\n  \"sExtOptions\": {\n    \"portal_frag_a\":\"com.x|intent://?es_tabId=A&es_title=\"\n  }\n}\n";

#[test]
fn decoder_reads_identifier_up_to_ampersand() {
    assert_eq!(extract_gw_id(b"es_tabId=42&es_title="), Some(b"42".to_vec()));
}

#[test]
fn decoder_without_marker_gives_none() {
    assert_eq!(extract_gw_id(b"com.x|intent://?es_title="), None);
    assert_eq!(extract_gw_id(b""), None);
}

#[test]
fn decoder_with_empty_identifier_gives_none() {
    assert_eq!(extract_gw_id(b"es_tabId=&es_title="), None);
    assert_eq!(extract_gw_id(b"es_tabId="), None);
    assert_eq!(extract_gw_id(b"es_tabId=  \t&x"), None);
}

#[test]
fn decoder_stops_at_each_delimiter_and_at_the_end() {
    assert_eq!(extract_gw_id(b"a|es_tabId=7|rest"), Some(b"7".to_vec()));
    assert_eq!(extract_gw_id(b"es_tabId=7\"rest"), Some(b"7".to_vec()));
    assert_eq!(extract_gw_id(b"es_tabId=789"), Some(b"789".to_vec()));
    assert_eq!(extract_gw_id(b"es_tabId=1&es_tabId=2"), Some(b"1".to_vec()));
}

#[test]
fn decoder_trims_whitespace_characters() {
    assert_eq!(extract_gw_id(b"es_tabId=  x y \t&z"), Some(b"x y".to_vec()));
    assert_eq!(
        extract_gw_id("es_tabId=\u{a0}\u{3000}id\u{2028}\u{85}&".as_bytes()),
        Some(b"id".to_vec())
    );
    assert_eq!(extract_gw_id("es_tabId=\u{2003}&".as_bytes()), None);
    assert_eq!(
        extract_gw_id("es_tabId=\u{200b}&".as_bytes()),
        Some("\u{200b}".as_bytes().to_vec())
    );
}

#[test]
fn scanner_step_follows_the_transition_rules() {
    let normal = ScanState { mode: Mode::Normal, escape: false };
    let bytes = b"{\"a\\\"}\" // }\n/* } */}";
    let open = scan_step(bytes, 0, normal);
    assert_eq!(open.token, Token::OpenBrace);
    assert_eq!(open.width, 1);
    let quote = scan_step(bytes, 1, normal);
    assert_eq!(quote.token, Token::StringOpen);
    assert_eq!(quote.next, ScanState { mode: Mode::InString, escape: false });
    let backslash = scan_step(bytes, 3, quote.next);
    assert_eq!(backslash.next, ScanState { mode: Mode::InString, escape: true });
    let escaped = scan_step(bytes, 4, backslash.next);
    assert_eq!(escaped.next, ScanState { mode: Mode::InString, escape: false });
    let brace_in_string = scan_step(bytes, 5, escaped.next);
    assert_eq!(brace_in_string.token, Token::Inert);
    let close_quote = scan_step(bytes, 6, brace_in_string.next);
    assert_eq!(close_quote.next, normal);
    let line_comment = scan_step(bytes, 8, normal);
    assert_eq!(line_comment.width, 2);
    assert_eq!(line_comment.next.mode, Mode::InLineComment);
    assert_eq!(scan_step(bytes, 11, line_comment.next).token, Token::Inert);
    assert_eq!(scan_step(bytes, 12, line_comment.next).next, normal);
    let block_comment = scan_step(bytes, 13, normal);
    assert_eq!(block_comment.width, 2);
    assert_eq!(block_comment.next.mode, Mode::InBlockComment);
    assert_eq!(scan_step(bytes, 16, block_comment.next).token, Token::Inert);
    let leave = scan_step(bytes, 18, block_comment.next);
    assert_eq!(leave.width, 2);
    assert_eq!(leave.next, normal);
    assert_eq!(scan_step(bytes, 20, normal).token, Token::CloseBrace);
}

#[test]
fn scanner_block_comment_opener_is_not_its_own_closer() {
    let normal = ScanState { mode: Mode::Normal, escape: false };
    let bytes = b"/*/ } */";
    let open = scan_step(bytes, 0, normal);
    assert_eq!(open.width, 2);
    let slash = scan_step(bytes, 2, open.next);
    assert_eq!(slash.next.mode, Mode::InBlockComment);
    assert_eq!(slash.width, 1);
}

#[test]
fn locator_finds_span_of_sample() {
    let (open, close) = find_ext_options_block(SAMPLE.as_bytes()).unwrap();
    assert_eq!(open, SAMPLE.find("\"sExtOptions\": {").unwrap() + 15);
    assert_eq!(close, SAMPLE.rfind("  }\n}").unwrap() + 2);
    assert_eq!(SAMPLE.as_bytes()[open], b'{');
    assert_eq!(SAMPLE.as_bytes()[close], b'}');
}

#[test]
fn locator_ignores_braces_in_strings_and_comments() {
    let doc = "{\"sExtOptions\" \t\r\n:\n {\"a\":\"}\\\"}\", // }\n /* } */ \"b\":{\"c\":\"{\"} }, \"z\":{}}";
    let (open, close) = find_ext_options_block(doc.as_bytes()).unwrap();
    assert_eq!(&doc[open..=close], "{\"a\":\"}\\\"}\", // }\n /* } */ \"b\":{\"c\":\"{\"} }");
}

#[test]
fn locator_takes_the_first_occurrence_of_the_key() {
    let doc = "{\"sExtOptions\":{\"x\":1},\"sExtOptions\":{\"y\":2}}";
    assert_eq!(find_ext_options_block(doc.as_bytes()), Ok((15, 21)));
}

#[test]
fn locator_reports_block_not_found() {
    assert_eq!(find_ext_options_block(b"{\"other\":{}}"), Err(EditError::BlockNotFound));
    assert_eq!(find_ext_options_block(b""), Err(EditError::BlockNotFound));
    assert_eq!(find_ext_options_block(b"{sExtOptions:{}}"), Err(EditError::BlockNotFound));
}

#[test]
fn locator_reports_malformed_header() {
    assert_eq!(
        find_ext_options_block(b"{\"sExtOptions\" {}}"),
        Err(EditError::MalformedBlockHeader)
    );
    assert_eq!(find_ext_options_block(b"{\"sExtOptions\""), Err(EditError::MalformedBlockHeader));
    assert_eq!(
        find_ext_options_block(b"{\"sExtOptions\" \x0b:{}}"),
        Err(EditError::MalformedBlockHeader)
    );
}

#[test]
fn locator_reports_block_not_object() {
    assert_eq!(find_ext_options_block(b"{\"sExtOptions\": []}"), Err(EditError::BlockNotObject));
    assert_eq!(find_ext_options_block(b"{\"sExtOptions\":"), Err(EditError::BlockNotObject));
    assert_eq!(
        find_ext_options_block(b"{\"sExtOptions\": /* c */ {}}"),
        Err(EditError::BlockNotObject)
    );
}

#[test]
fn locator_reports_unterminated_block() {
    assert_eq!(
        find_ext_options_block(b"{\"sExtOptions\": {\"a\":\"}\""),
        Err(EditError::UnterminatedBlock)
    );
    assert_eq!(
        find_ext_options_block(b"{\"sExtOptions\": { /* } "),
        Err(EditError::UnterminatedBlock)
    );
    assert_eq!(
        find_ext_options_block(b"{\"sExtOptions\": { // }"),
        Err(EditError::UnterminatedBlock)
    );
    assert_eq!(
        find_ext_options_block(b"{\"sExtOptions\": {{}"),
        Err(EditError::UnterminatedBlock)
    );
}

#[test]
fn string_end_honours_escapes() {
    assert_eq!(find_string_end(b"abc\"", 0), Some(3));
    assert_eq!(find_string_end(b"a\\\"c\"", 0), Some(4));
    assert_eq!(find_string_end(b"a\\\\\"c\"", 0), Some(3));
    assert_eq!(find_string_end(b"\"", 0), Some(0));
    assert_eq!(find_string_end(b"abc", 0), None);
    assert_eq!(find_string_end(b"abc\\\"", 0), None);
    assert_eq!(find_string_end(b"abc\"", 4), None);
    assert_eq!(find_string_end(b"abc\"", 9), None);
    assert_eq!(find_string_end(b"\\\"x\"", 1), Some(1));
}

#[test]
fn entry_at_reads_key_and_value() {
    let content = b"{\"portal_frag_news\" : \"app|intent://?es_tabId=news&es_title=\"}";
    let entry = parse_portal_entry_at(content, 1).unwrap();
    assert_eq!(entry.local_id, b"news".to_vec());
    assert_eq!(entry.raw_value, b"app|intent://?es_tabId=news&es_title=".to_vec());
    assert_eq!(entry.gw_id, Some(b"news".to_vec()));
    assert!(entry.same_id);
    assert_eq!(entry.status, Status::Normal);
}

#[test]
fn entry_at_rejects_what_is_no_entry() {
    assert_eq!(parse_portal_entry_at(b"\"portal_frag_a\":1", 0), None);
    assert_eq!(parse_portal_entry_at(b"\"portal_frag_a\":", 0), None);
    assert_eq!(parse_portal_entry_at(b"\"portal_frag_a\":\"open", 0), None);
    assert_eq!(parse_portal_entry_at(b"\"portal_frag_a", 0), None);
    assert_eq!(parse_portal_entry_at(b"\"other\":\"v\"", 0), None);
    assert_eq!(parse_portal_entry_at(b"\"portal_frag_a\":\"v\"", 19), None);
    assert_eq!(parse_portal_entry_at(b"\"portal_frag_a\":\"v\"", 1000), None);
    assert_eq!(parse_portal_entry_at(b"", 0), None);
}

#[test]
fn entry_at_accepts_an_empty_local_id() {
    let entry = parse_portal_entry_at(b"\"portal_frag_\":\"v\"", 0).unwrap();
    assert_eq!(entry.local_id, Vec::<u8>::new());
    assert_eq!(entry.raw_value, b"v".to_vec());
    assert_eq!(entry.gw_id, None);
    assert!(!entry.same_id);
}

#[test]
fn entry_at_takes_the_prefix_off_once() {
    let entry = parse_portal_entry_at(b"\"portal_frag_portal_frag_x\"::  :\"es_tabId=y\"", 0).unwrap();
    assert_eq!(entry.local_id, b"portal_frag_x".to_vec());
    assert_eq!(entry.gw_id, Some(b"y".to_vec()));
    assert!(!entry.same_id);
}

#[test]
fn scan_reports_entries_of_sample() {
    let mut acc = Vec::new();
    assert_eq!(parse_portal_frag_from_text(SAMPLE.as_bytes(), &mut acc), Ok(()));
    assert_eq!(acc.len(), 1);
    assert_eq!(text(&acc[0].local_id), "a");
    assert_eq!(text(&acc[0].raw_value), "com.x|intent://?es_tabId=A&es_title=");
    assert_eq!(acc[0].gw_id, Some(b"A".to_vec()));
    assert!(!acc[0].same_id);
}

#[test]
fn scan_appends_to_what_is_there_and_keeps_it_on_failure() {
    let mut acc = vec![entry("kept", None)];
    assert_eq!(parse_portal_frag_from_text(SAMPLE.as_bytes(), &mut acc), Ok(()));
    assert_eq!(acc.len(), 2);
    assert_eq!(text(&acc[0].local_id), "kept");
    assert_eq!(text(&acc[1].local_id), "a");
    assert_eq!(
        parse_portal_frag_from_text(b"no block", &mut acc),
        Err(EditError::BlockNotFound)
    );
    assert_eq!(acc.len(), 2);
}

#[test]
fn scan_reports_every_occurrence_of_a_repeated_key() {
    let doc = "{\"sExtOptions\":{\n\"portal_frag_a\":\"es_tabId=1\",\n\"portal_frag_a\":\"es_tabId=2\",\n\"portal_frag_a\":\"es_tabId=1\"\n}}";
    let mut acc = Vec::new();
    parse_portal_frag_from_text(doc.as_bytes(), &mut acc).unwrap();
    let seen: Vec<(String, String)> =
        acc.iter().map(|e| (text(&e.local_id), text(&e.raw_value))).collect();
    assert_eq!(
        seen,
        vec![
            ("a".to_string(), "es_tabId=1".to_string()),
            ("a".to_string(), "es_tabId=2".to_string()),
            ("a".to_string(), "es_tabId=1".to_string()),
        ]
    );
}

#[test]
fn scan_skips_comments_strings_and_malformed_entries() {
    let doc = "{\"sExtOptions\":{\n// \"portal_frag_c1\":\"v\"\n/* \"portal_frag_c2\":\"v\" */\n\"note\":\"\\\"portal_frag_s\\\":\\\"v\\\"\",\n\"portal_frag_n\":12,\n\"portal_frag_o\":{\"k\":\"v\"},\n\"portal_frag_ok\" : \"v\",\n\"nested\":{\"portal_frag_in\":\"w\"}\n},\"portal_frag_out\":\"v\"}";
    let mut acc = Vec::new();
    parse_portal_frag_from_text(doc.as_bytes(), &mut acc).unwrap();
    let ids: Vec<String> = acc.iter().map(|e| text(&e.local_id)).collect();
    assert_eq!(ids, vec!["ok".to_string(), "in".to_string()]);
}

#[test]
fn scan_checks_value_strings_for_the_prefix_too() {
    let doc = "{\"sExtOptions\":{\"k\":\"portal_frag_v\" \"w\"}}";
    let mut acc = Vec::new();
    parse_portal_frag_from_text(doc.as_bytes(), &mut acc).unwrap();
    assert_eq!(acc.len(), 1);
    assert_eq!(text(&acc[0].local_id), "v");
    assert_eq!(text(&acc[0].raw_value), "w");
}

#[test]
fn scan_does_not_read_past_the_closing_brace() {
    let doc = "{\"sExtOptions\":{\"portal_frag_a\":}\"v\"}";
    let mut acc = Vec::new();
    assert_eq!(parse_portal_frag_from_text(doc.as_bytes(), &mut acc), Ok(()));
    assert_eq!(acc.len(), 0);
}

#[test]
fn classification_of_repeated_identifiers() {
    let mut entries = vec![entry("a", Some("x")), entry("a", Some("y")), entry("b", Some("x"))];
    classify_entries(&mut entries);
    let statuses: Vec<Status> = entries.iter().map(|e| e.status).collect();
    assert_eq!(
        statuses,
        vec![Status::DuplicateLocal, Status::DuplicateLocal, Status::DuplicateGw]
    );
    assert_eq!(entries.len(), 3);
    assert_eq!(text(&entries[0].local_id), "a");
    assert_eq!(entries[1].gw_id, Some(b"y".to_vec()));
    assert_eq!(text(&entries[2].local_id), "b");
}

#[test]
fn classification_without_repeats_is_normal() {
    let mut entries = vec![entry("a", Some("x")), entry("b", None), entry("c", None)];
    classify_entries(&mut entries);
    assert!(entries.iter().all(|e| e.status == Status::Normal));
    let mut none: Vec<MappingEntry> = Vec::new();
    classify_entries(&mut none);
    assert!(none.is_empty());
}

#[test]
fn classification_overwrites_an_earlier_status() {
    let mut entries = vec![entry("a", Some("x")), entry("b", Some("x"))];
    entries[0].status = Status::DuplicateLocal;
    classify_entries(&mut entries);
    assert_eq!(entries[0].status, Status::DuplicateGw);
    assert_eq!(entries[1].status, Status::DuplicateGw);
}

#[test]
fn parse_mappings_labels_entries_of_a_document() {
    let doc = "{\"sExtOptions\":{\n\"portal_frag_a\":\"p|es_tabId=x&\",\n\"portal_frag_a\":\"p|es_tabId=y&\",\n\"portal_frag_b\":\"p|es_tabId=x&\",\n\"portal_frag_c\":\"p|es_tabId=c&\",\n\"portal_frag_d\":\"plain\"\n}}";
    let entries = parse_mappings(doc.as_bytes()).unwrap();
    let seen: Vec<(String, Option<String>, bool, Status)> = entries
        .iter()
        .map(|e| (text(&e.local_id), e.gw_id.as_ref().map(|g| text(g)), e.same_id, e.status))
        .collect();
    assert_eq!(
        seen,
        vec![
            ("a".to_string(), Some("x".to_string()), false, Status::DuplicateLocal),
            ("a".to_string(), Some("y".to_string()), false, Status::DuplicateLocal),
            ("b".to_string(), Some("x".to_string()), false, Status::DuplicateGw),
            ("c".to_string(), Some("c".to_string()), true, Status::Normal),
            ("d".to_string(), None, false, Status::Normal),
        ]
    );
}

#[test]
fn parse_mappings_passes_on_the_locator_error() {
    assert_eq!(parse_mappings(b"{}"), Err(EditError::BlockNotFound));
    assert_eq!(parse_mappings(b"\"sExtOptions\"={}"), Err(EditError::MalformedBlockHeader));
    assert_eq!(parse_mappings(b"\"sExtOptions\":1"), Err(EditError::BlockNotObject));
    assert_eq!(parse_mappings(b"\"sExtOptions\":{"), Err(EditError::UnterminatedBlock));
}

#[test]
fn status_and_error_texts() {
    assert_eq!(Status::Normal.as_str(), "normal");
    assert_eq!(Status::DuplicateLocal.as_str(), "duplicate_local");
    assert_eq!(Status::DuplicateGw.as_str(), "duplicate_gw");
    assert_eq!(EditError::BlockNotFound.message(), "未找到 sExtOptions 段落");
    assert_eq!(EditError::MalformedBlockHeader.message(), "sExtOptions 定义格式不正确");
    assert_eq!(EditError::BlockNotObject.message(), "sExtOptions 不是对象类型");
    assert_eq!(EditError::UnterminatedBlock.message(), "未能定位 sExtOptions 的结束位置");
    assert_eq!(EditError::KeyNotFound.message(), "未找到本地栏目ID");
    assert_eq!(EditError::DuplicateLocalId.message(), "本地栏目ID重复");
}

#[test]
fn braces_in_strings_and_comments_leave_the_block_where_it_was() {
    let doc = "{\"sExtOptions\": {\"a\":\"x\", // c\n /* d */ \"b\":{\"c\":\"y\"}}, \"z\":1}";
    let (open, close) = find_ext_options_block(doc.as_bytes()).unwrap();
    let places = [
        doc.find("x\"").unwrap(),
        doc.find("x\"").unwrap() + 1,
        doc.find(" c\n").unwrap(),
        doc.find(" c\n").unwrap() + 2,
        doc.find(" d ").unwrap(),
        doc.find("y\"").unwrap(),
    ];
    for place in places {
        for brace in ["{", "}"] {
            let mut changed = doc.to_string();
            changed.insert_str(place, brace);
            assert_eq!(find_ext_options_block(changed.as_bytes()), Ok((open, close + 1)));
        }
    }
    let mut nested = doc.to_string();
    nested.insert_str(doc.find(" d ").unwrap(), "{{}{");
    nested.insert_str(doc.find("x\"").unwrap(), "}}");
    assert_eq!(find_ext_options_block(nested.as_bytes()), Ok((open, close + 6)));
}

#[test]
fn a_brace_behind_a_backslash_may_move_the_end_of_the_block() {
    let doc = "{\"sExtOptions\": {\"a\":\"x\\\"\"}, \"z\":\"}\"}";
    assert_eq!(find_ext_options_block(doc.as_bytes()), Ok((16, 26)));
    let mut changed = doc.to_string();
    changed.insert_str(doc.find("\\\"").unwrap() + 1, "}");
    assert_ne!(find_ext_options_block(changed.as_bytes()), Ok((16, 27)));
}

use portal_mappings::{
    detect_base_indent, detect_line_ending, find_ext_options_block, format_entry, insert_entries,
    insert_new_entries, parse_mappings, parse_portal_frag_from_text, plan_insert,
    remove_mapping_from_file, remove_mappings_from_file, replace_mappings_in_file,
    trim_trailing_whitespace_start, EditError, MappingEntry, MappingInput, MappingTable, Status,
};

fn text(bytes: &[u8]) -> String {
    String::from_utf8(bytes.to_vec()).unwrap()
}

fn input(local_id: &str, gw_id: &str) -> MappingInput {
    MappingInput { local_id: local_id.as_bytes().to_vec(), gw_id: gw_id.as_bytes().to_vec() }
}

fn table(pairs: &[(&str, &str)]) -> MappingTable {
    let mut table = MappingTable::new();
    for (key, value) in pairs {
        table.insert(key.as_bytes().to_vec(), value.as_bytes().to_vec());
    }
    table
}

fn inserted(doc: &str, inputs: &[MappingInput]) -> String {
    text(&insert_entries(doc.as_bytes(), inputs).unwrap())
}

fn replaced(doc: &str, pairs: &[(&str, &str)]) -> String {
    text(&replace_mappings_in_file(doc.as_bytes(), &table(pairs)).unwrap())
}

fn removed(doc: &str, local_id: &str) -> String {
    text(&remove_mapping_from_file(doc.as_bytes(), local_id.as_bytes()).unwrap())
}

fn scanned(doc: &str) -> Vec<(String, String)> {
    let mut acc: Vec<MappingEntry> = Vec::new();
    parse_portal_frag_from_text(doc.as_bytes(), &mut acc).unwrap();
    acc.iter().map(|e| (text(&e.local_id), text(&e.raw_value))).collect()
}

fn template(gw_id: &str) -> String {
    format!(
        "com.ipanel.join.gw_ui_sdk.GwPortalFragment|intent://?es_tabId={}&es_title=&es_focusStartColor=&es_focusEndColor=&es_focusImg=",
        gw_id
    )
}

const SAMPLE: &str = "{\n  \"name\": \"theme\",\n  \"sExtOptions\": {\n    \"portal_frag_a\":\"com.x|intent://?es_tabId=A&es_title=\"\n  }\n}\n";

const THREE: &str = "{\n  \"sExtOptions\": {\n    \"portal_frag_a\":\"va\",\n    \"portal_frag_b\":\"vb\",\n    \"portal_frag_c\":\"vc\"\n  }\n}";

#[test]
fn format_entry_fills_the_template() {
    assert_eq!(
        text(&format_entry(&input("news", "42"))),
        "\"portal_frag_news\":\"com.ipanel.join.gw_ui_sdk.GwPortalFragment|intent://?es_tabId=42&es_title=&es_focusStartColor=&es_focusEndColor=&es_focusImg=\""
    );
    assert_eq!(
        text(&format_entry(&input("", ""))),
        "\"portal_frag_\":\"com.ipanel.join.gw_ui_sdk.GwPortalFragment|intent://?es_tabId=&es_title=&es_focusStartColor=&es_focusEndColor=&es_focusImg=\""
    );
    assert_eq!(
        text(&format_entry(&input("x", "{id}"))),
        format!("\"portal_frag_x\":\"{}\"", template("{id}"))
    );
}

#[test]
fn line_ending_is_crlf_if_one_occurs_anywhere() {
    assert_eq!(detect_line_ending(b"a\nb\n"), b"\n".to_vec());
    assert_eq!(detect_line_ending(b""), b"\n".to_vec());
    assert_eq!(detect_line_ending(b"a\rb\n"), b"\n".to_vec());
    assert_eq!(detect_line_ending(b"a\nb\r\nc\n"), b"\r\n".to_vec());
}

#[test]
fn base_indent_is_the_whitespace_at_the_start_of_the_line() {
    let doc = b"{\n \t \"sExtOptions\": {}\n}";
    assert_eq!(detect_base_indent(doc, 20), b" \t ".to_vec());
    assert_eq!(detect_base_indent(doc, 2), Vec::<u8>::new());
    assert_eq!(detect_base_indent(doc, 3), b" ".to_vec());
    assert_eq!(detect_base_indent(doc, 0), Vec::<u8>::new());
    assert_eq!(detect_base_indent(b"\t\t{", 2), b"\t\t".to_vec());
    assert_eq!(detect_base_indent(b"x\n\r\n  {", 6), b"  ".to_vec());
    assert_eq!(detect_base_indent("\n\u{3000} {".as_bytes(), 5), "\u{3000} ".as_bytes().to_vec());
}

#[test]
fn trailing_whitespace_start_skips_blank_bytes_only() {
    assert_eq!(trim_trailing_whitespace_start(b"ab \t\r\n "), 2);
    assert_eq!(trim_trailing_whitespace_start(b"ab"), 2);
    assert_eq!(trim_trailing_whitespace_start(b" \n"), 0);
    assert_eq!(trim_trailing_whitespace_start(b""), 0);
    assert_eq!(trim_trailing_whitespace_start(b"a\x0c "), 2);
    assert_eq!(trim_trailing_whitespace_start(b"a b"), 3);
}

#[test]
fn insert_after_an_existing_entry() {
    let out = inserted(SAMPLE, &[input("b", "B")]);
    assert_eq!(
        out,
        format!(
            "{{\n  \"name\": \"theme\",\n  \"sExtOptions\": {{\n    \"portal_frag_a\":\"com.x|intent://?es_tabId=A&es_title=\",\n    \"portal_frag_b\":\"{}\"\n  }}\n}}\n",
            template("B")
        )
    );
    let entries = parse_mappings(out.as_bytes()).unwrap();
    assert_eq!(entries.len(), 2);
    assert_eq!(text(&entries[0].local_id), "a");
    assert_eq!(text(&entries[1].local_id), "b");
    assert_eq!(entries[1].gw_id, Some(b"B".to_vec()));
    assert_eq!(entries[0].status, Status::Normal);
    assert_eq!(entries[1].status, Status::Normal);
}

#[test]
fn insert_refuses_a_local_id_that_exists() {
    assert_eq!(
        insert_new_entries(SAMPLE.as_bytes(), &[input("a", "Z")]),
        Err(EditError::DuplicateLocalId)
    );
    assert_eq!(
        insert_new_entries(SAMPLE.as_bytes(), &[input("a", "Z"), input("a", "Y")]),
        Err(EditError::DuplicateLocalId)
    );
    assert_eq!(insert_new_entries(SAMPLE.as_bytes(), &[]), Ok(SAMPLE.as_bytes().to_vec()));
    assert_eq!(insert_new_entries(b"no block", &[]), Err(EditError::BlockNotFound));
    assert_eq!(
        insert_new_entries(b"no block", &[input("a", "Z")]),
        Err(EditError::BlockNotFound)
    );
}

#[test]
fn insert_leaves_out_only_the_local_ids_that_exist() {
    let wanted = [input("a", "Z"), input("b", "B"), input("a", "Y"), input("c", "C")];
    let out = insert_new_entries(SAMPLE.as_bytes(), &wanted).unwrap();
    assert_eq!(text(&out), inserted(SAMPLE, &[input("b", "B"), input("c", "C")]));
    assert_eq!(
        text(&insert_new_entries(SAMPLE.as_bytes(), &[input("b", "B")]).unwrap()),
        inserted(SAMPLE, &[input("b", "B")])
    );
}

#[test]
fn plan_tells_new_inputs_from_known_ones() {
    let existing = parse_mappings(SAMPLE.as_bytes()).unwrap();
    let wanted = [input("a", "Z"), input("b", "B"), input("a", "Y"), input("c", "C")];
    let plan = plan_insert(&existing, &wanted);
    assert_eq!(plan.pending, vec![input("b", "B"), input("c", "C")]);
    assert_eq!(plan.duplicate_ids, vec![b"a".to_vec(), b"a".to_vec()]);
    let none = plan_insert(&existing, &[]);
    assert!(none.pending.is_empty());
    assert!(none.duplicate_ids.is_empty());
}

#[test]
fn insert_keeps_crlf_and_indents_two_spaces_deeper() {
    let doc = "{\r\n\t\"sExtOptions\": {\r\n\t\t\"portal_frag_a\":\"es_tabId=A\"\r\n\t}\r\n}\r\n";
    let out = inserted(doc, &[input("b", "B"), input("c", "C")]);
    assert_eq!(
        out,
        format!(
            "{{\r\n\t\"sExtOptions\": {{\r\n\t\t\"portal_frag_a\":\"es_tabId=A\",\r\n\t  \"portal_frag_b\":\"{}\",\r\n\t  \"portal_frag_c\":\"{}\"\r\n\t}}\r\n}}\r\n",
            template("B"),
            template("C")
        )
    );
    let (open, close) = find_ext_options_block(doc.as_bytes()).unwrap();
    let (new_open, new_close) = find_ext_options_block(out.as_bytes()).unwrap();
    assert_eq!(new_open, open);
    assert_eq!(&out[..=new_open], &doc[..=open]);
    assert_eq!(&out[new_close..], &doc[close..]);
}

#[test]
fn insert_into_an_empty_block() {
    assert_eq!(
        inserted("{\"sExtOptions\": {}}", &[input("b", "B")]),
        format!("{{\"sExtOptions\": {{\n  \"portal_frag_b\":\"{}\"\n}}}}", template("B"))
    );
    assert_eq!(
        inserted("{\n  \"sExtOptions\": {\n  }\n}", &[input("b", "B")]),
        format!(
            "{{\n  \"sExtOptions\": {{\n    \"portal_frag_b\":\"{}\"\n  }}\n}}",
            template("B")
        )
    );
}

#[test]
fn insert_of_no_entry_leaves_the_document_as_it_is() {
    assert_eq!(inserted(SAMPLE, &[]), SAMPLE);
    assert_eq!(inserted("{\"sExtOptions\": {}}", &[]), "{\"sExtOptions\": {}}");
    assert_eq!(insert_entries(b"{}", &[]), Err(EditError::BlockNotFound));
}

#[test]
fn insert_reads_the_indent_of_a_block_on_the_first_line() {
    assert_eq!(
        inserted("\t\"sExtOptions\":{}", &[input("b", "B")]),
        format!("\t\"sExtOptions\":{{\n\t  \"portal_frag_b\":\"{}\"\n\t}}", template("B"))
    );
}

#[test]
fn insert_passes_on_the_locator_error() {
    assert_eq!(insert_entries(b"{}", &[input("b", "B")]), Err(EditError::BlockNotFound));
    assert_eq!(
        insert_entries(b"\"sExtOptions\" {}", &[input("b", "B")]),
        Err(EditError::MalformedBlockHeader)
    );
    assert_eq!(
        insert_entries(b"\"sExtOptions\": 3", &[input("b", "B")]),
        Err(EditError::BlockNotObject)
    );
    assert_eq!(
        insert_entries(b"\"sExtOptions\": {", &[input("b", "B")]),
        Err(EditError::UnterminatedBlock)
    );
}

#[test]
fn table_keeps_keys_in_ascending_order() {
    let t = table(&[("b", "1"), ("a", "2"), ("ab", "3"), ("", "4"), ("B", "5")]);
    assert_eq!(t.len(), 5);
    assert!(!t.is_empty());
    let keys: Vec<String> = (0..t.len()).map(|i| text(t.key(i))).collect();
    assert_eq!(keys, vec!["", "B", "a", "ab", "b"]);
    let values: Vec<String> = (0..t.len()).map(|i| text(t.value(i))).collect();
    assert_eq!(values, vec!["4", "5", "2", "3", "1"]);
    assert!(MappingTable::new().is_empty());
    assert_eq!(MappingTable::new().len(), 0);
}

#[test]
fn table_replaces_the_value_of_a_key_it_holds() {
    let t = table(&[("a", "old"), ("b", "x"), ("a", "new")]);
    assert_eq!(t.len(), 2);
    assert_eq!(text(t.key(0)), "a");
    assert_eq!(text(t.value(0)), "new");
    assert_eq!(text(t.value(1)), "x");
}

#[test]
fn replace_removes_prefixed_lines_and_writes_the_mapping_sorted() {
    let doc = "{\n  \"sExtOptions\": {\n    \"keep\": 1,\n    \"portal_frag_a\":\"va\",\n    // \"portal_frag_old\":\"x\"\n    // portal_frag_note\n    // plain note\n\n    \"portal_frag_b\":\"vb\"\n  }\n}";
    assert_eq!(
        replaced(doc, &[("z", "vz"), ("b", "v2")]),
        "{\n  \"sExtOptions\": {\n    \"keep\": 1,\n    // plain note,\n    \"portal_frag_b\":\"v2\",\n    \"portal_frag_z\":\"vz\"\n  }\n}"
    );
    assert_eq!(
        replaced(doc, &[]),
        "{\n  \"sExtOptions\": {\n    \"keep\": 1,\n    // plain note,\n  }\n}"
    );
}

#[test]
fn replace_adds_no_second_comma_to_the_kept_text() {
    assert_eq!(
        replaced("{\"sExtOptions\":{\n  \"k\":1,\n  \"portal_frag_a\":\"v\"\n}}", &[("a", "n")]),
        "{\"sExtOptions\":{\n  \"k\":1,\n  \"portal_frag_a\":\"n\"\n}}"
    );
}

#[test]
fn replace_in_a_block_of_entries_only() {
    assert_eq!(
        replaced(THREE, &[("b", "2"), ("a", "1")]),
        "{\n  \"sExtOptions\": {\n    \"portal_frag_a\":\"1\",\n    \"portal_frag_b\":\"2\"\n  }\n}"
    );
    assert_eq!(replaced(THREE, &[]), "{\n  \"sExtOptions\": {\n  }\n}");
}

#[test]
fn replace_keeps_crlf() {
    let doc = "{\r\n  \"sExtOptions\": {\r\n    \"k\": 1,\r\n    \"portal_frag_a\":\"v\"\r\n  }\r\n}";
    assert_eq!(
        replaced(doc, &[("a", "n")]),
        "{\r\n  \"sExtOptions\": {\r\n    \"k\": 1,\r\n    \"portal_frag_a\":\"n\"\r\n  }\r\n}"
    );
}

#[test]
fn replace_is_line_oriented_and_may_take_an_unrelated_key_along() {
    let doc = "{\"sExtOptions\":{\n  \"title\":\"about \\\"portal_frag_x\",\n  \"other\":2, \"portal_frag_a\":\"v\"\n}}";
    assert_eq!(replaced(doc, &[]), "{\"sExtOptions\":{\n}}");
}

#[test]
fn replace_passes_on_the_locator_error() {
    let t = table(&[("a", "1")]);
    assert_eq!(replace_mappings_in_file(b"{}", &t), Err(EditError::BlockNotFound));
    assert_eq!(
        replace_mappings_in_file(b"\"sExtOptions\"", &t),
        Err(EditError::MalformedBlockHeader)
    );
    assert_eq!(replace_mappings_in_file(b"\"sExtOptions\":[", &t), Err(EditError::BlockNotObject));
    assert_eq!(
        replace_mappings_in_file(b"\"sExtOptions\":{\"", &t),
        Err(EditError::UnterminatedBlock)
    );
}

#[test]
fn round_trip_through_replace_gives_the_same_entries() {
    let doc = "{\n  \"sExtOptions\": {\n    \"keep\": {\"x\": 1},\n    \"portal_frag_b\":\"p|es_tabId=2&t\",\n    // note\n    \"portal_frag_a\":\"p|es_tabId=1&t\",\n    \"portal_frag_c\" : \"es\\\"caped\"\n  },\n  \"after\": 1\n}";
    let before = scanned(doc);
    assert_eq!(before.len(), 3);
    let emptied = replaced(doc, &[]);
    assert!(scanned(&emptied).is_empty());
    let pairs: Vec<(&str, &str)> = before.iter().map(|(k, v)| (k.as_str(), v.as_str())).collect();
    let restored = replaced(&emptied, &pairs);
    let mut expected = before.clone();
    expected.sort();
    assert_eq!(scanned(&restored), expected);
}

#[test]
fn delete_of_the_last_entry_takes_the_comma_off_the_new_last() {
    assert_eq!(
        removed(THREE, "c"),
        "{\n  \"sExtOptions\": {\n    \"portal_frag_a\":\"va\",\n    \"portal_frag_b\":\"vb\"\n  }\n}"
    );
}

#[test]
fn delete_of_an_entry_leaves_the_others_as_they_were() {
    let out = removed(THREE, "a");
    assert_eq!(
        out,
        "{\n  \"sExtOptions\": {\n    \"portal_frag_b\":\"vb\",\n    \"portal_frag_c\":\"vc\"\n  }\n}"
    );
    assert_eq!(
        scanned(&out),
        vec![("b".to_string(), "vb".to_string()), ("c".to_string(), "vc".to_string())]
    );
    assert_eq!(
        scanned(&removed(THREE, "b")),
        vec![("a".to_string(), "va".to_string()), ("c".to_string(), "vc".to_string())]
    );
}

#[test]
fn delete_of_an_unknown_local_id_fails() {
    assert_eq!(
        remove_mapping_from_file(THREE.as_bytes(), b"d"),
        Err(EditError::KeyNotFound)
    );
    assert_eq!(
        remove_mapping_from_file(THREE.as_bytes(), b""),
        Err(EditError::KeyNotFound)
    );
    assert_eq!(
        remove_mapping_from_file(b"{\"sExtOptions\":{}}", b"a"),
        Err(EditError::KeyNotFound)
    );
}

#[test]
fn delete_passes_on_the_locator_error() {
    assert_eq!(remove_mapping_from_file(b"{}", b"a"), Err(EditError::BlockNotFound));
    assert_eq!(
        remove_mapping_from_file(b"\"sExtOptions\" 1", b"a"),
        Err(EditError::MalformedBlockHeader)
    );
    assert_eq!(remove_mapping_from_file(b"\"sExtOptions\":1", b"a"), Err(EditError::BlockNotObject));
    assert_eq!(
        remove_mapping_from_file(b"\"sExtOptions\":{", b"a"),
        Err(EditError::UnterminatedBlock)
    );
}

#[test]
fn delete_of_the_only_entry_empties_the_block() {
    assert_eq!(removed(SAMPLE, "a"), "{\n  \"name\": \"theme\",\n  \"sExtOptions\": {}\n}\n");
}

#[test]
fn delete_takes_comment_lines_that_mention_the_id_along() {
    let doc = "{\"sExtOptions\":{\r\n  // about news\r\n  \"portal_frag_news\":\"v\",\r\n  /* news */\r\n  \"k\": [1, 2],,  \r\n\r\n  \"portal_frag_b\":\"w\" ,\r\n\r\n}}";
    assert_eq!(
        removed(doc, "news"),
        "{\"sExtOptions\":{\r\n  /* news */,\r\n  \"k\": [1, 2],\r\n\r\n  \"portal_frag_b\":\"w\"\r\n}}"
    );
}

#[test]
fn delete_puts_a_comma_after_every_line_but_the_last() {
    let doc = "{\"sExtOptions\":{\n  \"portal_frag_a\":\"va\"\n\n  \"portal_frag_b\":\"vb\",\n  \"portal_frag_c\":\"vc\"\n}}";
    assert_eq!(
        removed(doc, "c"),
        "{\"sExtOptions\":{\n  \"portal_frag_a\":\"va\",\n\n  \"portal_frag_b\":\"vb\"\n}}"
    );
}

#[test]
fn delete_is_line_oriented_and_may_take_another_entry_along() {
    let doc = "{\"sExtOptions\":{\n  \"portal_frag_a\":\"va\", \"portal_frag_b\":\"vb\",\n  \"portal_frag_c\":\"vc\"\n}}";
    let out = removed(doc, "a");
    assert_eq!(out, "{\"sExtOptions\":{\n  \"portal_frag_c\":\"vc\"\n}}");
    assert_eq!(scanned(&out), vec![("c".to_string(), "vc".to_string())]);
}

#[test]
fn delete_needs_the_whole_key() {
    let doc = "{\"sExtOptions\":{\n  \"portal_frag_ab\":\"v\"\n}}";
    assert_eq!(remove_mapping_from_file(doc.as_bytes(), b"a"), Err(EditError::KeyNotFound));
    assert_eq!(removed(doc, "ab"), "{\"sExtOptions\":{}}");
}

#[test]
fn batch_delete_goes_on_after_a_failure() {
    let ids = [b"a".to_vec(), b"missing".to_vec(), b"c".to_vec(), b"a".to_vec()];
    let outcome = remove_mappings_from_file(THREE.as_bytes(), &ids);
    assert_eq!(outcome.removed, vec![true, false, true, false]);
    assert_eq!(text(&outcome.text), removed(&removed(THREE, "a"), "c"));
    let nothing = remove_mappings_from_file(b"no block", &ids);
    assert_eq!(nothing.removed, vec![false, false, false, false]);
    assert_eq!(nothing.text, b"no block".to_vec());
    let untouched = remove_mappings_from_file(THREE.as_bytes(), &[]);
    assert_eq!(text(&untouched.text), THREE);
    assert!(untouched.removed.is_empty());
}

#[test]
fn insert_behind_a_line_comment_reads_back() {
    let doc = "{\"sExtOptions\":{\r\n  \"portal_frag_a\":\"va\" // note\r\n  \r\n}}";
    let out = inserted(doc, &[input("b", "B"), input("c", "C")]);
    assert_eq!(
        out,
        format!(
            "{{\"sExtOptions\":{{\r\n  \"portal_frag_a\":\"va\" // note,\r\n  \"portal_frag_b\":\"{}\",\r\n  \"portal_frag_c\":\"{}\"\r\n}}}}",
            template("B"),
            template("C")
        )
    );
    assert_eq!(
        scanned(&out),
        vec![
            ("a".to_string(), "va".to_string()),
            ("b".to_string(), template("B")),
            ("c".to_string(), template("C")),
        ]
    );
}

#[test]
fn insert_keeps_the_entries_that_were_there() {
    let doc = "{\"sExtOptions\": {\"portal_frag_a\":\"x\\\"y\",\"k\":{\"portal_frag_n\" : \"w\"}, \"portal_frag_a\":\"z\"\n\t}}";
    let before = scanned(doc);
    assert_eq!(before.len(), 3);
    let out = inserted(doc, &[input("q", "7")]);
    let mut expected = before.clone();
    expected.push(("q".to_string(), template("7")));
    assert_eq!(scanned(&out), expected);
}

#[test]
fn replace_writes_values_that_look_like_keys_without_reading_them_as_keys() {
    let doc = "{\"sExtOptions\": {\n}}";
    let out = replaced(doc, &[("a", "portal_frag_x"), ("b", "portal_frag_y\\\"")]);
    assert_eq!(
        out,
        "{\"sExtOptions\": {\n  \"portal_frag_a\":\"portal_frag_x\",\n  \"portal_frag_b\":\"portal_frag_y\\\"\"\n}}"
    );
    assert_eq!(
        scanned(&out),
        vec![
            ("a".to_string(), "portal_frag_x".to_string()),
            ("b".to_string(), "portal_frag_y\\\"".to_string()),
        ]
    );
}

#[test]
fn round_trip_through_insert_gives_the_same_entries() {
    let doc = format!(
        "{{\n  \"sExtOptions\": {{\n    \"k\": 1,\n    \"portal_frag_b\":\"{}\",\n    \"portal_frag_a\":\"{}\"\n  }}\n}}",
        template("2"),
        template("1")
    );
    let entries = parse_mappings(doc.as_bytes()).unwrap();
    let mut inputs: Vec<MappingInput> = entries
        .iter()
        .map(|e| MappingInput { local_id: e.local_id.clone(), gw_id: e.gw_id.clone().unwrap() })
        .collect();
    inputs.sort_by(|x, y| x.local_id.cmp(&y.local_id));
    let emptied = replaced(&doc, &[]);
    assert!(scanned(&emptied).is_empty());
    let restored = inserted(&emptied, &inputs);
    let mut expected = scanned(&doc);
    expected.sort();
    assert_eq!(scanned(&restored), expected);
}

#[test]
fn delete_keeps_the_text_of_the_other_lines() {
    let doc = "{\"sExtOptions\":{\n\t\"portal_frag_a\":\"va\",\n\t\"other\": [1, \"x\"] ,\n\t\"portal_frag_b\":\"v\\\"b\" , \n \n}}";
    let out = removed(doc, "a");
    assert!(out.contains("\"portal_frag_b\":\"v\\\"b\""));
    assert!(out.contains("\"other\": [1, \"x\"]"));
    assert_eq!(
        out,
        "{\"sExtOptions\":{\n\t\"other\": [1, \"x\"],\n\t\"portal_frag_b\":\"v\\\"b\"\n}}"
    );
    assert_eq!(scanned(&out), vec![("b".to_string(), "v\\\"b".to_string())]);
}

#[test]
fn delete_finds_every_entry_that_the_scanner_reports() {
    let doc = "{\"sExtOptions\":{\"portal_frag_a\":\"1\",\n\"portal_frag_portal_frag_b\" : \"2\",\n\"portal_frag_\":\"3\"\n}}";
    for (local_id, _) in scanned(doc) {
        let out = removed(doc, &local_id);
        assert_eq!(scanned(&out).len(), 2);
        assert!(scanned(&out).iter().all(|(id, _)| *id != local_id));
    }
}

#[test]
fn table_order_does_not_hang_on_the_order_of_filling() {
    let one = table(&[("b", "2"), ("a", "1"), ("c", "3")]);
    let other = table(&[("c", "3"), ("b", "0"), ("a", "1"), ("b", "2")]);
    assert_eq!(one.len(), other.len());
    for i in 0..one.len() {
        assert_eq!(one.key(i), other.key(i));
        assert_eq!(one.value(i), other.value(i));
    }
    let doc = "{\"sExtOptions\":{}}";
    assert_eq!(
        replace_mappings_in_file(doc.as_bytes(), &one),
        replace_mappings_in_file(doc.as_bytes(), &other)
    );
}

#[test]
fn round_trip_needs_kept_lines_that_are_balanced() {
    let doc = "{\"sExtOptions\":{\n/* c\n\"portal_frag_a\":\"1\" */\n\"portal_frag_b\":\"2\"\n}}";
    assert_eq!(scanned(doc), vec![("b".to_string(), "2".to_string())]);
    let emptied = replaced(doc, &[]);
    assert_eq!(emptied, "{\"sExtOptions\":{\n/* c,\n}}");
    assert_eq!(
        replace_mappings_in_file(emptied.as_bytes(), &table(&[("b", "2")])),
        Err(EditError::UnterminatedBlock)
    );
}

#[test]
fn delete_goes_through_where_only_a_comment_mentions_the_id() {
    let doc = "{\"sExtOptions\":{\n  // about\n  \"portal_frag_b\":\"w\"\n}}";
    assert!(scanned(doc).iter().all(|(id, _)| id != "a"));
    assert_eq!(removed(doc, "a"), "{\"sExtOptions\":{\n  \"portal_frag_b\":\"w\"\n}}");
}

#[test]
fn delete_leaves_a_comma_that_stood_in_front_of_whitespace_and_commas() {
    let doc = "{\"sExtOptions\":{\n  \"k\": 1, ,\n  \"portal_frag_b\":\"w\"\n}}";
    assert_eq!(removed(doc, "b"), "{\"sExtOptions\":{\n  \"k\": 1,\n}}");
}

#[test]
fn replace_keeps_the_other_lines_with_their_indentation() {
    let doc = "{\n\"sExtOptions\": {\n    \"keep\":1,\n    \"portal_frag_a\":\"v\"\n}\n}";
    let out = replaced(doc, &[("n", "w")]);
    assert!(out.contains("{\n    \"keep\":1,"));
    assert_eq!(
        out,
        "{\n\"sExtOptions\": {\n    \"keep\":1,\n  \"portal_frag_n\":\"w\"\n}\n}"
    );
    let more = "{\n  \"sExtOptions\": {\n\n\t\"x\": {\n\t\t\"y\": 1\n\t}\n    \"portal_frag_a\":\"v\",\n  \n  }\n}";
    assert_eq!(
        replaced(more, &[("a", "v")]),
        "{\n  \"sExtOptions\": {\n\n\t\"x\": {\n\t\t\"y\": 1\n\t},\n    \"portal_frag_a\":\"v\"\n  }\n}"
    );
}

#[test]
fn delete_keeps_the_line_ending_of_the_document() {
    let doc = "{\"sExtOptions\":{\r\n  \"portal_frag_a\":\"1\",\r\n  \"portal_frag_b\":\"2\",\r\n  \"portal_frag_c\":\"3\"\r\n}}";
    let out = removed(doc, "c");
    assert_eq!(
        out,
        "{\"sExtOptions\":{\r\n  \"portal_frag_a\":\"1\",\r\n  \"portal_frag_b\":\"2\"\r\n}}"
    );
    assert!(out.contains("\"portal_frag_a\":\"1\",\r\n  \"portal_frag_b\":\"2\"\r\n"));
    let bytes = out.as_bytes();
    for i in 0..bytes.len() {
        if bytes[i] == b'\n' {
            assert!(i > 0 && bytes[i - 1] == b'\r');
        }
    }
}

#[test]
fn delete_keeps_the_closing_brace_where_it_stood() {
    let doc = "{\r\n\t\"sExtOptions\": {\r\n\t  \"portal_frag_a\":\"1\",\r\n\t  \"portal_frag_b\":\"2\"\r\n\t}\r\n}";
    assert_eq!(
        removed(doc, "b"),
        "{\r\n\t\"sExtOptions\": {\r\n\t  \"portal_frag_a\":\"1\"\r\n\t}\r\n}"
    );
}

#[test]
fn insert_reads_back_the_identifiers_that_went_in() {
    let doc = "{\"sExtOptions\":{\n  \"k\": 1, // note\n  \"portal_frag_a\":\"old|es_tabId= 7 &\"\n}}";
    let out = inserted(doc, &[input("b", "B-2"), input("same", "same")]);
    let entries = parse_mappings(out.as_bytes()).unwrap();
    let seen: Vec<(String, Option<String>, String, bool)> = entries
        .iter()
        .map(|e| {
            (text(&e.local_id), e.gw_id.as_ref().map(|g| text(g)), text(&e.raw_value), e.same_id)
        })
        .collect();
    assert_eq!(
        seen,
        vec![
            ("a".to_string(), Some("7".to_string()), "old|es_tabId= 7 &".to_string(), false),
            ("b".to_string(), Some("B-2".to_string()), template("B-2"), false),
            ("same".to_string(), Some("same".to_string()), template("same"), true),
        ]
    );
}

#[test]
fn replace_by_nothing_leaves_no_prefixed_key() {
    let doc = "{\"sExtOptions\":{\n  \"k\": 1,\n  \"portal_frag_a\":\"1\",\n  // \"portal_frag_b\":\"2\"\n  \"portal_frag_c\" : \"3\"\n}}";
    let out = replaced(doc, &[]);
    assert_eq!(out, "{\"sExtOptions\":{\n  \"k\": 1,\n}}");
    assert!(!out.contains("\"portal_frag_"));
    assert!(scanned(&out).is_empty());
}

use genhat::script::{
    build_script_prompt, extract_json_array, parse_script_response, script_from_json,
    script_lines, try_parse_script_response, ScriptEntry,
};

#[test]
fn test_extract_json_array_raw() {
    let input = r#"[{"speaker":"A","text":"Hello"},{"speaker":"B","text":"Hi"}]"#;
    let result = extract_json_array(input).unwrap();
    assert!(result.starts_with('['));
    assert!(result.ends_with(']'));
}

#[test]
fn test_extract_json_array_with_markdown() {
    let input = "Here is the script:\n```json\n[{\"speaker\":\"A\",\"text\":\"Hello\"}]\n```\nDone.";
    let result = extract_json_array(input).unwrap();
    assert!(result.starts_with('['));
    assert!(result.ends_with(']'));
}

#[test]
fn test_parse_script_response() {
    let raw = r#"[{"speaker":"Alex","text":"Welcome!"},{"speaker":"Sam","text":"Thanks for having me."}]"#;
    let lines = parse_script_response(raw, "Alex", "Sam", "Leo", "Bella").unwrap();
    assert_eq!(lines.len(), 2);
    assert_eq!(lines[0].speaker, "Alex");
    assert_eq!(lines[0].voice, "Leo");
    assert_eq!(lines[1].speaker, "Sam");
    assert_eq!(lines[1].voice, "Bella");
}

#[test]
fn extract_takes_the_outermost_balanced_array() {
    let input = "noise [[1,2],[3]] trailing ] text";
    assert_eq!(extract_json_array(input).unwrap(), "[[1,2],[3]]");
}

#[test]
fn extract_falls_back_to_the_last_closing_bracket() {
    assert_eq!(extract_json_array("x [[a] ] y").unwrap(), "[[a] ]");
    // the first '[' is never closed, so the span runs to the last ']'
    let unbalanced = "[[[a] b]";
    assert_eq!(extract_json_array(unbalanced).unwrap(), "[[[a] b]");
}

#[test]
fn extract_reports_empty_input() {
    assert_eq!(extract_json_array(" \n\t ").unwrap_err(), "LLM returned empty response");
}

#[test]
fn extract_reports_missing_array() {
    assert_eq!(
        extract_json_array("  no array here  ").unwrap_err(),
        "No JSON array found in LLM response (first 200 chars): no array here"
    );
}

#[test]
fn extract_reports_missing_closing_bracket() {
    assert_eq!(
        extract_json_array("] [ open").unwrap_err(),
        "No closing bracket found in LLM response (first 200 chars): ] [ open"
    );
}

#[test]
fn extract_error_quotes_first_200_bytes() {
    let long = "x".repeat(250);
    let err = extract_json_array(&long).unwrap_err();
    assert_eq!(
        err,
        format!("No JSON array found in LLM response (first 200 chars): {}", "x".repeat(200))
    );
    // two-byte characters: byte 200 is a boundary after 100 of them
    let wide = "é".repeat(150);
    let err = extract_json_array(&wide).unwrap_err();
    assert!(err.ends_with(&"é".repeat(100)));
    assert!(!err.ends_with(&"é".repeat(101)));
}

#[test]
fn prompt_embeds_all_parts() {
    let p = build_script_prompt("Rust", "CTX", "Alex", "Sam", 12);
    let expected = "Write a podcast dialogue between two hosts: Alex and Sam.\n\n\
Alex is the curious interviewer. Sam is the knowledgeable expert.\n\
Write exactly 12 lines, alternating between Alex and Sam.\n\
Base ALL content on the CONTEXT below. Do not invent facts.\n\
Keep each line conversational, 1-3 sentences.\n\
Start with Alex introducing the topic. End with Sam wrapping up.\n\n\
CONTEXT:\nCTX\n\nTOPIC: Rust\n\n\
Respond with ONLY a JSON array, no other text:\n\
[{\"speaker\":\"Alex\",\"text\":\"...\"},{\"speaker\":\"Sam\",\"text\":\"...\"}]";
    assert_eq!(p, expected);
    let zero = build_script_prompt("q", "c", "A", "B", 0);
    assert!(zero.contains("Write exactly 0 lines"));
}

#[test]
fn parse_maps_unknown_speakers_to_voice_a() {
    let raw = "```json\n[{\"speaker\":\"Zed\",\"text\":\"Hi\"}]\n```";
    let lines = parse_script_response(raw, "Alex", "Sam", "Leo", "Bella").unwrap();
    assert_eq!(lines.len(), 1);
    assert_eq!(lines[0].speaker, "Zed");
    assert_eq!(lines[0].voice, "Leo");
    assert_eq!(lines[0].text, "Hi");
    assert_eq!(lines[0].index, 0);
}

#[test]
fn parse_reports_empty_script() {
    let err = parse_script_response("[]", "A", "B", "va", "vb").unwrap_err();
    assert_eq!(err, "LLM returned an empty script");
}

#[test]
fn parse_reports_missing_fields() {
    let err = parse_script_response(r#"[{"speaker":"A","text":"x"},{"text":"y"}]"#, "A", "B", "va", "vb")
        .unwrap_err();
    assert_eq!(err, "Missing 'speaker' at line 1");
    let err = parse_script_response(r#"[{"speaker":"A","text":7}]"#, "A", "B", "va", "vb").unwrap_err();
    assert_eq!(err, "Missing 'text' at line 0");
}

#[test]
fn parse_reports_invalid_json() {
    let err = parse_script_response("[not json]", "A", "B", "va", "vb").unwrap_err();
    assert!(err.starts_with("Failed to parse script JSON: "));
    assert!(err.ends_with("\nExtracted: [not json]"));
}

#[test]
fn try_parse_agrees_with_parse() {
    let raw = r#"[{"speaker":"B","text":"t"}]"#;
    let a = try_parse_script_response(raw, "A", "B", "va", "vb").unwrap().unwrap();
    assert_eq!(a[0].voice, "vb");
    // a parse error whose 200-byte cut would split a character
    let mut bad = String::from("[");
    bad.push_str(&"x".repeat(198));
    bad.push_str("é]");
    assert!(try_parse_script_response(&bad, "A", "B", "va", "vb").is_none());
}

#[test]
fn script_lines_from_entries() {
    let entries = vec![
        ScriptEntry { speaker: Some("A".to_string()), text: Some("one".to_string()) },
        ScriptEntry { speaker: Some("B".to_string()), text: Some("two".to_string()) },
    ];
    let lines = script_lines(&entries, "A", "B", "va", "vb").unwrap();
    assert_eq!(lines[1].voice, "vb");
    assert_eq!(lines[1].index, 1);
    let parsed = Err("boom".to_string());
    let err = script_from_json("[x]", parsed, "A", "B", "va", "vb").unwrap_err();
    assert_eq!(err, "Failed to parse script JSON: boom\nExtracted: [x]");
}

#[test]
fn extracting_twice_changes_nothing() {
    for raw in ["Sure! ```json\n[{\"a\":[1,2]}]\n``` bye", "  [[[a] b] tail", "x [1] [2]"] {
        let once = extract_json_array(raw).unwrap();
        assert_eq!(extract_json_array(&once).unwrap(), once);
    }
}

#[test]
fn surrounding_whitespace_changes_no_extraction() {
    let raw = "Sure: [{\"speaker\":\"A\",\"text\":\"x\"}] done";
    assert_eq!(extract_json_array(&format!(" \n\t{raw}\r\n ")), extract_json_array(raw));
    assert_eq!(extract_json_array("  no array  "), extract_json_array("no array"));
}

#[test]
fn the_prompt_example_is_what_gets_extracted() {
    let p = build_script_prompt("Rust", "Rust is a language.", "Alex", "Sam", 6);
    assert_eq!(
        extract_json_array(&p),
        Ok(r#"[{"speaker":"Alex","text":"..."},{"speaker":"Sam","text":"..."}]"#.to_string())
    );
}

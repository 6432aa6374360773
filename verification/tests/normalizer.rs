use docfix::stages::extract_json;
use docfix::stages::extract_xml;
use docfix::stages::normalize_response;
use docfix::stages::strip_fences;
use docfix::stages::strip_reasoning;
use docfix::stages::FormatKind;
use docfix::text::trim_bytes;

fn v(s: &str) -> Vec<u8> {
    s.as_bytes().to_vec()
}

#[test]
fn stage_a_strips_after_last_marker() {
    let out = strip_reasoning(&v("<think>plan</think>content"));
    assert_eq!(out, v("content"));
}

#[test]
fn stage_a_anchors_on_last_marker() {
    let out = strip_reasoning(&v("<think>a</think>mid</think>tail"));
    assert_eq!(out, v("tail"));
}

#[test]
fn stage_a_without_marker_is_identity() {
    let out = strip_reasoning(&v("no reasoning here"));
    assert_eq!(out, v("no reasoning here"));
}

#[test]
fn stage_a_keeps_nothing_when_marker_ends_text() {
    let out = strip_reasoning(&v("<think>only reasoning</think>"));
    assert_eq!(out, v(""));
}

#[test]
fn stage_b_keeps_fenced_lines_only() {
    let out = strip_fences(&v("prose before\n```json\n{\"a\": 1}\n```\nprose after"));
    assert_eq!(out, v("{\"a\": 1}"));
}

#[test]
fn stage_b_joins_multiline_fenced_content() {
    let out = strip_fences(&v("```\nline one\nline two\n```"));
    assert_eq!(out, v("line one\nline two"));
}

#[test]
fn stage_b_without_fence_markers_is_identity() {
    let out = strip_fences(&v("plain\ntext\nlines"));
    assert_eq!(out, v("plain\ntext\nlines"));
}

#[test]
fn stage_b_drops_trailing_stray_fence_line() {
    // the lone fence marker toggles at the very end and nothing is
    // collected, so the fallback drops the marker line and keeps the rest
    let out = strip_fences(&v("keep me\nalso kept\n```"));
    assert_eq!(out, v("keep me\nalso kept"));
}

#[test]
fn stage_b_unpaired_fence_keeps_what_follows_it() {
    // everything after an unclosed fence counts as fenced content
    let out = strip_fences(&v("prose\n``` \nthe answer"));
    assert_eq!(out, v("the answer"));
}

#[test]
fn json_extraction_drops_noise_around_object() {
    let out = extract_json(&trim_bytes(&v("noise {\"a\":[1,2]} trailing")));
    assert_eq!(out, v("{\"a\":[1,2]}"));
}

#[test]
fn json_extraction_tracks_nested_brackets() {
    let out = extract_json(&trim_bytes(&v("pre [1,[2,3],4] post")));
    assert_eq!(out, v("[1,[2,3],4]"));
}

#[test]
fn json_extraction_unmatched_opener_is_identity() {
    let out = extract_json(&trim_bytes(&v("{ unterminated")));
    assert_eq!(out, v("{ unterminated"));
}

#[test]
fn json_extraction_without_opener_is_identity() {
    let out = extract_json(&trim_bytes(&v("no brackets at all")));
    assert_eq!(out, v("no brackets at all"));
}

#[test]
fn xml_extraction_spans_first_lt_to_last_gt() {
    let out = extract_xml(&trim_bytes(&v("garbage <root><a/></root> more")));
    assert_eq!(out, v("<root><a/></root>"));
}

#[test]
fn xml_extraction_without_angles_is_identity() {
    let out = extract_xml(&trim_bytes(&v("nothing angular")));
    assert_eq!(out, v("nothing angular"));
}

#[test]
fn xml_extraction_needs_gt_after_lt() {
    // the only > comes before the first <, so nothing is extracted
    let out = extract_xml(&trim_bytes(&v("a > b < c")));
    assert_eq!(out, v("a > b < c"));
}

#[test]
fn json_extraction_matches_array_opener_only() {
    // the scan tracks the bracket type of the first opener; braces inside
    // are ordinary bytes
    let out = extract_json(&trim_bytes(&v("x [1, {2] y}")));
    assert_eq!(out, v("[1, {2]"));
}

#[test]
fn trim_removes_surrounding_whitespace() {
    let out = trim_bytes(&v(" \t\r\n payload \n"));
    assert_eq!(out, v("payload"));
}

#[test]
fn normalize_end_to_end_json() {
    let input = v("<think>plan</think>```json\n{\"x\":1}\n```");
    let out = normalize_response(&input, FormatKind::Json);
    assert_eq!(out, v("{\"x\":1}"));
}

#[test]
fn normalize_end_to_end_xml() {
    let input = v("Sure! Here is the fix:\n```xml\n<a><b/></a>\n```\nHope it helps.");
    let out = normalize_response(&input, FormatKind::Xml);
    assert_eq!(out, v("<a><b/></a>"));
}

#[test]
fn normalize_is_idempotent_on_its_output() {
    let inputs: Vec<Vec<u8>> = vec![
        v("<think>plan</think>```json\n{\"x\":1}\n```"),
        v("noise {\"a\":[1,2]} trailing"),
        v("{ unterminated"),
        v("plain text, no markers"),
        v(""),
    ];
    for input in &inputs {
        let once = normalize_response(input, FormatKind::Json);
        let twice = normalize_response(&once, FormatKind::Json);
        assert_eq!(twice, once);
    }
    let xml_input = v("garbage <root><a/></root> more");
    let once = normalize_response(&xml_input, FormatKind::Xml);
    let twice = normalize_response(&once, FormatKind::Xml);
    assert_eq!(twice, once);
}

#[test]
fn stage_b_handles_crlf_line_endings() {
    let out = strip_fences(&v("```json\r\n{\"a\":1}\r\n```\r\n"));
    assert_eq!(out, v("{\"a\":1}"));
}

#[test]
fn normalize_is_idempotent_with_backticks_inside_a_line() {
    let input = v("{\"a\":\"x ``` y\"}");
    let once = normalize_response(&input, FormatKind::Json);
    let twice = normalize_response(&once, FormatKind::Json);
    assert_eq!(twice, once);
    assert_eq!(once, input);
}

#[test]
fn normalize_empty_input_gives_empty_output() {
    assert_eq!(normalize_response(&v(""), FormatKind::Json), v(""));
    assert_eq!(normalize_response(&v(""), FormatKind::Xml), v(""));
}

#[test]
fn normalize_worst_case_returns_cleaned_text() {
    // no marker, no fence, no bracket: the result is just the trimmed input
    let out = normalize_response(&v("  model said something odd  "), FormatKind::Json);
    assert_eq!(out, v("model said something odd"));
}

use docfix::models::model_listed;
use docfix::models::parse_model_list;
use docfix::prompt::build_error_list;
use docfix::prompt::build_prompt;
use docfix::prompt::ErrorItem;
use docfix::prompt::ErrorReport;
use docfix::stages::FormatKind;

fn v(s: &str) -> Vec<u8> {
    s.as_bytes().to_vec()
}

#[test]
fn error_list_formats_line_numbers() {
    let report = ErrorReport {
        kind: FormatKind::Json,
        summary: v("unused summary"),
        items: Some(vec![
            ErrorItem { line: Some(3), column: Some(7), message: v("missing comma") },
            ErrorItem { line: None, column: None, message: v("bad token") },
            ErrorItem { line: Some(120), column: None, message: v("unexpected end") },
        ]),
    };
    let out = build_error_list(&report);
    assert_eq!(out, v("Line 3: missing comma\nbad token\nLine 120: unexpected end"));
}

#[test]
fn error_list_falls_back_to_summary() {
    let report = ErrorReport {
        kind: FormatKind::Xml,
        summary: v("mismatched tag"),
        items: None,
    };
    let out = build_error_list(&report);
    assert_eq!(out, v("mismatched tag"));
}

#[test]
fn error_list_of_empty_items_is_empty() {
    let report = ErrorReport {
        kind: FormatKind::Json,
        summary: v("ignored"),
        items: Some(vec![]),
    };
    let out = build_error_list(&report);
    assert_eq!(out, v(""));
}

#[test]
fn prompt_embeds_format_errors_and_content() {
    let report = ErrorReport {
        kind: FormatKind::Json,
        summary: v("unused"),
        items: Some(vec![ErrorItem {
            line: Some(3),
            column: None,
            message: v("missing comma"),
        }]),
    };
    let content = v("{\"a\":1}");
    let out = build_prompt(&report, &content);
    let expected = "Fix the syntax errors in this JSON. Output ONLY the corrected JSON with NO explanations.\n\nErrors to fix:\nLine 3: missing comma\n\nIMPORTANT: You MUST output the ENTIRE corrected content from start to finish. Do not truncate or summarize.\n\nContent:\n{\"a\":1}\n\nOutput the complete fixed JSON now:";
    assert_eq!(out, v(expected));
}

#[test]
fn prompt_names_xml_for_xml_reports() {
    let report = ErrorReport {
        kind: FormatKind::Xml,
        summary: v("mismatched tag"),
        items: None,
    };
    let out = build_prompt(&report, &v("<a></b>"));
    let expected = "Fix the syntax errors in this XML. Output ONLY the corrected XML with NO explanations.\n\nErrors to fix:\nmismatched tag\n\nIMPORTANT: You MUST output the ENTIRE corrected content from start to finish. Do not truncate or summarize.\n\nContent:\n<a></b>\n\nOutput the complete fixed XML now:";
    assert_eq!(out, v(expected));
}

#[test]
fn model_list_skips_header_and_takes_first_token() {
    let stdout = v("NAME            ID      SIZE\nllama3:latest   abc123  4.7 GB\nmistral:7b      def456  4.1 GB\n");
    let out = parse_model_list(&stdout);
    assert_eq!(out, vec![v("llama3:latest"), v("mistral:7b")]);
}

#[test]
fn model_list_ignores_blank_lines() {
    let stdout = v("NAME\nfirst one\n   \n\nsecond\n");
    let out = parse_model_list(&stdout);
    assert_eq!(out, vec![v("first"), v("second")]);
}

#[test]
fn model_list_of_empty_output_is_empty() {
    let out = parse_model_list(&v(""));
    assert_eq!(out, Vec::<Vec<u8>>::new());
}

#[test]
fn model_listed_is_a_substring_test() {
    let stdout = v("NAME\nllama3:latest abc\n");
    assert!(model_listed(&stdout, &v("llama3")));
    assert!(model_listed(&stdout, &v("llama3:latest")));
    assert!(!model_listed(&stdout, &v("mistral")));
    assert!(model_listed(&stdout, &v("")));
}

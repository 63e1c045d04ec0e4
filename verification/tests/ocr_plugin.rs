use markhor::ocr::{check_target, combine_pages, image_payload, ocr_input_kind, OcrInputKind};
use markhor::plugin::{plugin_outcome, plugin_request_body, PluginError, PluginReply};

#[test]
fn input_kind_follows_the_extension() {
    assert_eq!(ocr_input_kind("pdf"), OcrInputKind::Document);
    assert_eq!(ocr_input_kind("PNG"), OcrInputKind::Image);
    assert_eq!(ocr_input_kind("jpeg"), OcrInputKind::Image);
    assert_eq!(ocr_input_kind("WebP"), OcrInputKind::Image);
    assert_eq!(ocr_input_kind("docx"), OcrInputKind::Document);
    assert_eq!(ocr_input_kind(""), OcrInputKind::Document);
}

#[test]
fn target_must_be_markdown() {
    assert_eq!(check_target("out/report.md"), Ok(()));
    assert_eq!(check_target("out/report.txt"), Err("Target path must end with .md".to_string()));
    assert_eq!(check_target("md"), Err("Target path must end with .md".to_string()));
}

#[test]
fn pages_are_sorted_and_separated() {
    let pages = vec![(2, "C".to_string()), (0, "A".to_string()), (1, "B".to_string()), (1, "B2".to_string())];
    assert_eq!(combine_pages(pages), "A\n\n---\n\nB\n\n---\n\nB2\n\n---\n\nC");
    assert_eq!(combine_pages(vec![(5, "only".to_string())]), "only");
    assert_eq!(combine_pages(vec![]), "");
}

#[test]
fn image_payloads_are_decoded() {
    assert_eq!(image_payload("aGk=").unwrap(), b"hi".to_vec());
    assert_eq!(image_payload("data:image/png;base64,aGk=").unwrap(), b"hi".to_vec());
    assert!(image_payload("data:image/png;base64").is_err());
    assert!(image_payload("not base64!").is_err());
}

fn parse_error() -> serde_json::Error {
    serde_json::from_str::<serde_json::Value>("{").unwrap_err()
}

#[test]
fn plugin_outcomes() {
    let ok: Result<u32, PluginError> =
        plugin_outcome(true, Some(0), false, PluginReply::Success(7), String::new(), "{}".to_string());
    assert_eq!(ok.unwrap(), 7);
    match plugin_outcome::<u32>(true, Some(0), false, PluginReply::Error("bad".into()), String::new(), String::new()) {
        Err(PluginError::PluginReportedError(m)) => assert_eq!(m, "bad"),
        other => panic!("unexpected {:?}", other),
    }
    match plugin_outcome::<u32>(true, Some(0), false, PluginReply::Unparsed(parse_error()), String::new(), "{".into()) {
        Err(PluginError::ResponseDeserializationError(_, out)) => assert_eq!(out, "{"),
        other => panic!("unexpected {:?}", other),
    }
    match plugin_outcome::<u32>(false, Some(1), false, PluginReply::Error("crashed".into()), "trace".into(), String::new()) {
        Err(PluginError::PluginReportedError(m)) => assert_eq!(m, "crashed"),
        other => panic!("unexpected {:?}", other),
    }
    match plugin_outcome::<u32>(false, Some(1), false, PluginReply::Success(3), "trace".into(), String::new()) {
        Err(PluginError::ProcessFailed(code, err)) => {
            assert_eq!(code, Some(1));
            assert_eq!(err, "trace");
        }
        other => panic!("unexpected {:?}", other),
    }
    match plugin_outcome::<u32>(false, None, true, PluginReply::Unparsed(parse_error()), "killed".into(), String::new()) {
        Err(PluginError::ProcessFailed(code, err)) => {
            assert_eq!(code, None);
            assert_eq!(err, "killed");
        }
        other => panic!("unexpected {:?}", other),
    }
}

#[test]
fn plugin_request_is_method_and_params() {
    assert_eq!(plugin_request_body("chat", "[1,2]").unwrap(), "{\"method\":\"chat\",\"params\":[1,2]}");
    assert_eq!(plugin_request_body("a\"b", "null").unwrap(), "{\"method\":\"a\\\"b\",\"params\":null}");
}

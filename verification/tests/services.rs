use markhor::references::bracket_document_references;
use markhor::prompter::{DocNameCompleter, Suggestion};
use markhor::gemini::{
    api_error_message, classify_api_status, embed_error_message, embed_precheck, embedding_count_mismatch,
    map_task_type_to_use_case, ApiErrorKind, EmbedPrecheck, EmbeddingUseCase, GeminiApiErrorDetail,
    GeminiApiErrorResponse, GeminiErrorDetail, BATCH_LIMIT,
};
use markhor::plugin::{get_venv_pip_path, get_venv_python_path, parse_role, role_name, unknown_role_message, ChatMessage, MessageRole};
use markhor::prompter::{highlight_segments, isolate_document_names, isolate_document_names_with_prefix_suffix};
use markhor::scope::{PrelimFilter, Scope};

#[test]
fn test_map_task_type_to_use_case() {
    assert_eq!(map_task_type_to_use_case(Some("RETRIEVAL_QUERY")), EmbeddingUseCase::RetrievalQuery);
    assert_eq!(map_task_type_to_use_case(Some("RETRIEVAL_DOCUMENT")), EmbeddingUseCase::RetrievalDocument);
    assert_eq!(map_task_type_to_use_case(Some("SEMANTIC_SIMILARITY")), EmbeddingUseCase::Similarity);
    assert_eq!(map_task_type_to_use_case(Some("SIMILARITY")), EmbeddingUseCase::Similarity);
    assert_eq!(map_task_type_to_use_case(Some("CLASSIFICATION")), EmbeddingUseCase::Classification);
    assert_eq!(map_task_type_to_use_case(Some("CLUSTERING")), EmbeddingUseCase::Clustering);
    assert_eq!(map_task_type_to_use_case(Some("QUESTION_ANSWERING")), EmbeddingUseCase::QuestionAnswering);
    assert_eq!(map_task_type_to_use_case(Some("FACT_VERIFICATION")), EmbeddingUseCase::FactVerification);
    assert_eq!(map_task_type_to_use_case(Some("CODE_SEARCH_QUERY")), EmbeddingUseCase::CodeRetrievalQuery);
    assert_eq!(map_task_type_to_use_case(Some("UNKNOWN_TASK")), EmbeddingUseCase::Other("UNKNOWN_TASK".to_string()));
    assert_eq!(map_task_type_to_use_case(None), EmbeddingUseCase::General);
}

#[test]
fn batch_precheck() {
    assert_eq!(embed_precheck(0), EmbedPrecheck::NoTexts);
    assert_eq!(embed_precheck(1), EmbedPrecheck::Send);
    assert_eq!(embed_precheck(BATCH_LIMIT), EmbedPrecheck::Send);
    assert_eq!(embed_precheck(101), EmbedPrecheck::TooLarge { limit: 100, actual: 101 });
}

#[test]
fn embedding_error_texts() {
    let parsed = Some(GeminiApiErrorResponse {
        error: GeminiApiErrorDetail { code: 400, message: "Bad".to_string(), status: "INVALID_ARGUMENT".to_string() },
    });
    assert_eq!(embed_error_message(&parsed, &"raw".to_string()), "Bad (Code: 400, Status: INVALID_ARGUMENT)");
    let negative = Some(GeminiApiErrorResponse {
        error: GeminiApiErrorDetail { code: -7, message: "Odd".to_string(), status: "X".to_string() },
    });
    assert_eq!(embed_error_message(&negative, &"raw".to_string()), "Odd (Code: -7, Status: X)");
    assert_eq!(embed_error_message(&None, &"raw body".to_string()), "raw body");
    assert_eq!(embedding_count_mismatch(3, 3), None);
    assert_eq!(embedding_count_mismatch(2, 3), Some("API returned 2 embeddings, expected 3".to_string()));
}

#[test]
fn api_status_classification() {
    assert_eq!(classify_api_status(400), ApiErrorKind::InvalidRequest);
    assert_eq!(classify_api_status(401), ApiErrorKind::Authentication);
    assert_eq!(classify_api_status(403), ApiErrorKind::Authentication);
    assert_eq!(classify_api_status(404), ApiErrorKind::ModelNotFound);
    assert_eq!(classify_api_status(429), ApiErrorKind::RateLimited);
    assert_eq!(classify_api_status(500), ApiErrorKind::Api);
    assert_eq!(classify_api_status(418), ApiErrorKind::Api);
    let d = Some(GeminiErrorDetail { code: 404, message: "No model".to_string(), status: "NOT_FOUND".to_string() });
    assert_eq!(api_error_message(&d, &"body".to_string()), "No model (Status: NOT_FOUND, Code: 404)");
    assert_eq!(api_error_message(&None, &"body".to_string()), "body");
}

#[test]
fn plugin_roles_round_trip() {
    for role in [MessageRole::Developer, MessageRole::User, MessageRole::Assistant] {
        assert_eq!(parse_role(&role_name(role)), Some(role));
    }
    assert_eq!(role_name(MessageRole::Developer), "system");
    assert_eq!(role_name(MessageRole::Assistant), "model");
    assert_eq!(parse_role(&"robot".to_string()), None);
    assert_eq!(unknown_role_message(&"robot".to_string()), "Unknown role: robot");
    let m = ChatMessage::from_message(MessageRole::User, &"hi".to_string());
    assert_eq!(m.role, "user");
    assert_eq!(m.content, "hi");
}

#[test]
fn venv_paths() {
    let venv = vec!["home".to_string(), "venv".to_string()];
    assert_eq!(get_venv_python_path(&venv), vec!["home", "venv", "bin", "python"]);
    assert_eq!(get_venv_pip_path(&venv), vec!["home", "venv", "bin", "pip"]);
}

#[test]
fn scope_contains_documents_under_folder_with_tags() {
    let s = Scope::new(vec!["notes".to_string()], vec!["work".to_string()]);
    let path = vec!["notes".to_string(), "a.md".to_string()];
    assert!(s.contains(&path, &vec!["work".to_string(), "x".to_string()]));
    assert!(!s.contains(&path, &vec!["x".to_string()]));
    assert!(!s.contains(&vec!["other".to_string(), "a.md".to_string()], &vec!["work".to_string()]));
    assert!(!s.contains(&vec![], &vec!["work".to_string()]));
    assert!(PrelimFilter::new().maybe_matches(&s));
}

#[test]
fn document_names_in_input() {
    let input = "see /doc1 and /\"my doc\" please";
    let names = isolate_document_names(input);
    assert_eq!(names, vec![5..9, 16..22]);
    assert_eq!(&input[names[0].clone()], "doc1");
    assert_eq!(&input[names[1].clone()], "my doc");
    let with = isolate_document_names_with_prefix_suffix(input);
    assert_eq!(with, vec![(4..5, 5..9, 9..9), (14..16, 16..22, 22..23)]);
    // A quote left open ends the scan; a lone slash names nothing.
    assert_eq!(isolate_document_names("/a /\"open"), vec![1..2]);
    assert_eq!(isolate_document_names("a / b"), Vec::<std::ops::Range<usize>>::new());
}

#[test]
fn highlight_tiles_line() {
    let line = "x /doc y";
    let segs = highlight_segments(line);
    assert_eq!(segs, vec![(false, 0..2), (true, 2..3), (true, 3..6), (true, 6..6), (false, 6..8)]);
    let quoted = "/\"a b\"";
    assert_eq!(
        highlight_segments(quoted),
        vec![(false, 0..0), (true, 0..2), (true, 2..5), (true, 5..6), (false, 6..6)]
    );
}

#[test]
fn completer_suggests_document_names_after_slash() {
    let mut c = DocNameCompleter {
        doc_names: vec!["report".to_string(), "road map".to_string(), "say \"hi\" now".to_string(), "notes".to_string()],
    };
    let line = "see /R";
    let r = c.complete(line, line.len());
    assert_eq!(
        r,
        vec![
            Suggestion { value: "report".to_string(), span: 5..6, append_whitespace: true },
            Suggestion { value: "\"road map\"".to_string(), span: 5..6, append_whitespace: true },
        ]
    );
    let r = c.complete("see /Ro", 7);
    assert_eq!(r, vec![Suggestion { value: "\"road map\"".to_string(), span: 5..7, append_whitespace: true }]);
    assert!(c.complete("no slash", 8).is_empty());
    // Names holding both a space and a quote cannot be offered.
    assert!(c.complete("/say", 4).is_empty());
    // Only what is before the cursor counts.
    let r = c.complete("/n and more", 2);
    assert_eq!(r, vec![Suggestion { value: "notes".to_string(), span: 1..2, append_whitespace: true }]);
}

#[test]
fn references_are_bracketed() {
    let (line, names) = bracket_document_references("compare /report with /\"old notes\" please");
    assert_eq!(line, "compare [[report]] with [[old notes]] please");
    assert_eq!(names, vec!["report".to_string(), "old notes".to_string()]);
    let (line, names) = bracket_document_references("no references / here");
    assert_eq!(line, "no references / here");
    assert!(names.is_empty());
    let (line, names) = bracket_document_references("/été/x");
    assert_eq!(line, "[[été/x]]");
    assert_eq!(names, vec!["été/x".to_string()]);
    let (line, names) = bracket_document_references("open /\"unclosed");
    assert_eq!(line, "open /\"unclosed");
    assert!(names.is_empty());
}

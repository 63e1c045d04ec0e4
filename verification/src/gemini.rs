use vstd::prelude::*;

use crate::text::{decimal, decimal_string, i32_decimal_string, push_str, signed_decimal, str_eq, str_starts_with};

verus! {

/// What embeddings are meant for.
#[derive(Debug, Clone, PartialEq, Eq)]
pub enum EmbeddingUseCase {
    General,
    RetrievalQuery,
    RetrievalDocument,
    Similarity,
    Classification,
    Clustering,
    QuestionAnswering,
    FactVerification,
    CodeRetrievalQuery,
    Other(String),
}

/// The use case that a Gemini task type names.
pub open spec fn use_case_of(task_type: Option<Seq<char>>) -> EmbeddingUseCase {
    match task_type {
        None => EmbeddingUseCase::General,
        Some(t) => if t == "RETRIEVAL_QUERY"@ {
            EmbeddingUseCase::RetrievalQuery
        } else if t == "RETRIEVAL_DOCUMENT"@ {
            EmbeddingUseCase::RetrievalDocument
        } else if t == "SEMANTIC_SIMILARITY"@ || t == "SIMILARITY"@ {
            EmbeddingUseCase::Similarity
        } else if t == "CLASSIFICATION"@ {
            EmbeddingUseCase::Classification
        } else if t == "CLUSTERING"@ {
            EmbeddingUseCase::Clustering
        } else if t == "QUESTION_ANSWERING"@ {
            EmbeddingUseCase::QuestionAnswering
        } else if t == "FACT_VERIFICATION"@ {
            EmbeddingUseCase::FactVerification
        } else if "CODE_"@.is_prefix_of(t) {
            EmbeddingUseCase::CodeRetrievalQuery
        } else {
            EmbeddingUseCase::General
        },
    }
}

/// Whether `r` is the use case that `task_type` names, an unknown task type kept as `Other`.
pub open spec fn names_use_case(task_type: Option<Seq<char>>, r: EmbeddingUseCase) -> bool {
    match task_type {
        None => r == EmbeddingUseCase::General,
        Some(t) => {
            let known = use_case_of(Some(t));
            if known == EmbeddingUseCase::General {
                r matches EmbeddingUseCase::Other(s) && s@ == t
            } else {
                r == known
            }
        },
    }
}

/// Maps a Gemini task type to a use case; an unknown task type is kept as `Other`.
pub fn map_task_type_to_use_case(task_type: Option<&str>) -> (r: EmbeddingUseCase)
    ensures
        names_use_case(
            match task_type {
                Some(t) => Some(t@),
                None => None,
            },
            r,
        ),
        task_type is None ==> r == EmbeddingUseCase::General,
        task_type matches Some(t) ==> {
            let known = use_case_of(Some(t@));
            if known == EmbeddingUseCase::General {
                r matches EmbeddingUseCase::Other(s) && s@ == t@
            } else {
                r == known
            }
        },
{
    match task_type {
        None => EmbeddingUseCase::General,
        Some(t) => {
            if str_eq(t, "RETRIEVAL_QUERY") {
                EmbeddingUseCase::RetrievalQuery
            } else if str_eq(t, "RETRIEVAL_DOCUMENT") {
                EmbeddingUseCase::RetrievalDocument
            } else if str_eq(t, "SEMANTIC_SIMILARITY") || str_eq(t, "SIMILARITY") {
                EmbeddingUseCase::Similarity
            } else if str_eq(t, "CLASSIFICATION") {
                EmbeddingUseCase::Classification
            } else if str_eq(t, "CLUSTERING") {
                EmbeddingUseCase::Clustering
            } else if str_eq(t, "QUESTION_ANSWERING") {
                EmbeddingUseCase::QuestionAnswering
            } else if str_eq(t, "FACT_VERIFICATION") {
                EmbeddingUseCase::FactVerification
            } else if str_starts_with(t, "CODE_") {
                EmbeddingUseCase::CodeRetrievalQuery
            } else {
                EmbeddingUseCase::Other(t.to_owned())
            }
        },
    }
}

/// Most texts one embedding request may carry.
pub const BATCH_LIMIT: usize = 100;

/// Characters a text to embed should not exceed.
pub const MAX_CHUNK_LENGTH_HINT: usize = 8000;

/// What to do with a batch of texts before calling the API.
#[derive(Debug, Clone, Copy, PartialEq, Eq, Structural)]
pub enum EmbedPrecheck {
    /// No text: the answer is no embedding, without a request.
    NoTexts,
    /// More texts than one request may carry.
    TooLarge { limit: usize, actual: usize },
    /// Send the request.
    Send,
}

pub fn embed_precheck(count: usize) -> (r: EmbedPrecheck)
    ensures
        count == 0 ==> r == EmbedPrecheck::NoTexts,
        count > BATCH_LIMIT ==> r == (EmbedPrecheck::TooLarge { limit: BATCH_LIMIT, actual: count }),
        0 < count <= BATCH_LIMIT ==> r == EmbedPrecheck::Send,
{
    if count == 0 {
        EmbedPrecheck::NoTexts
    } else if count > BATCH_LIMIT {
        EmbedPrecheck::TooLarge { limit: BATCH_LIMIT, actual: count }
    } else {
        EmbedPrecheck::Send
    }
}

/// Detail of an error that the Gemini embedding API reports.
#[derive(Debug, Clone)]
pub struct GeminiApiErrorDetail {
    pub code: i32,
    pub message: String,
    /// Such as "INVALID_ARGUMENT".
    pub status: String,
}

/// The body of an error response of the Gemini embedding API.
#[derive(Debug, Clone)]
pub struct GeminiApiErrorResponse {
    pub error: GeminiApiErrorDetail,
}

pub open spec fn embed_error_text(parsed: Option<GeminiApiErrorResponse>, raw: Seq<char>) -> Seq<char> {
    match parsed {
        Some(r) => r.error.message@ + " (Code: "@ + signed_decimal(r.error.code as int) + ", Status: "@
            + r.error.status@ + ")"@,
        None => raw,
    }
}

/// The message of an embedding API error: the parsed detail, or else the raw body.
pub fn embed_error_message(parsed: &Option<GeminiApiErrorResponse>, raw_body: &String) -> (r: String)
    ensures
        r@ == embed_error_text(*parsed, raw_body@),
{
    match parsed {
        Some(resp) => {
            let mut m = resp.error.message.clone();
            push_str(&mut m, " (Code: ");
            let c = i32_decimal_string(resp.error.code);
            push_str(&mut m, c.as_str());
            push_str(&mut m, ", Status: ");
            push_str(&mut m, resp.error.status.as_str());
            push_str(&mut m, ")");
            m
        },
        None => raw_body.clone(),
    }
}

/// The error text when the API returns another number of embeddings than texts sent.
pub fn embedding_count_mismatch(received: usize, expected: usize) -> (r: Option<String>)
    ensures
        received == expected ==> r is None,
        received != expected ==> (r matches Some(m) && m@ == "API returned "@ + decimal(received as nat)
            + " embeddings, expected "@ + decimal(expected as nat)),
{
    if received == expected {
        return None;
    }
    let mut m = String::from_str("API returned ");
    let a = decimal_string(received);
    push_str(&mut m, a.as_str());
    push_str(&mut m, " embeddings, expected ");
    let b = decimal_string(expected);
    push_str(&mut m, b.as_str());
    Some(m)
}

/// Detail of an error that the Gemini API reports.
#[derive(Debug, Clone)]
pub struct GeminiErrorDetail {
    /// HTTP status code of the error.
    pub code: u16,
    /// Developer-facing message.
    pub message: String,
    /// Such as "INVALID_ARGUMENT" or "UNAUTHENTICATED".
    pub status: String,
}

/// The body of an error response of the Gemini API.
#[derive(Debug, Clone)]
pub struct GeminiErrorResponse {
    pub error: GeminiErrorDetail,
}

/// How an API error status is reported to callers.
#[derive(Debug, Clone, Copy, PartialEq, Eq, Structural)]
pub enum ApiErrorKind {
    InvalidRequest,
    Authentication,
    ModelNotFound,
    RateLimited,
    /// Any other status, reported with its code.
    Api,
}

/// The kind of error reported for HTTP status `status`.
pub fn classify_api_status(status: u16) -> (r: ApiErrorKind)
    ensures
        status == 400 ==> r == ApiErrorKind::InvalidRequest,
        status == 401 || status == 403 ==> r == ApiErrorKind::Authentication,
        status == 404 ==> r == ApiErrorKind::ModelNotFound,
        status == 429 ==> r == ApiErrorKind::RateLimited,
        status != 400 && status != 401 && status != 403 && status != 404 && status != 429 ==> r
            == ApiErrorKind::Api,
{
    if status == 400 {
        ApiErrorKind::InvalidRequest
    } else if status == 401 || status == 403 {
        ApiErrorKind::Authentication
    } else if status == 404 {
        ApiErrorKind::ModelNotFound
    } else if status == 429 {
        ApiErrorKind::RateLimited
    } else {
        ApiErrorKind::Api
    }
}

pub open spec fn api_error_text(detail: Option<GeminiErrorDetail>, body_text: Seq<char>) -> Seq<char> {
    match detail {
        Some(d) => d.message@ + " (Status: "@ + d.status@ + ", Code: "@ + decimal(d.code as nat) + ")"@,
        None => body_text,
    }
}

/// The message of an API error: the parsed detail, or else the raw body.
pub fn api_error_message(detail: &Option<GeminiErrorDetail>, body_text: &String) -> (r: String)
    ensures
        r@ == api_error_text(*detail, body_text@),
{
    match detail {
        Some(d) => {
            let mut m = d.message.clone();
            push_str(&mut m, " (Status: ");
            push_str(&mut m, d.status.as_str());
            push_str(&mut m, ", Code: ");
            let c = decimal_string(d.code as usize);
            push_str(&mut m, c.as_str());
            push_str(&mut m, ")");
            m
        },
        None => body_text.clone(),
    }
}

} // verus!

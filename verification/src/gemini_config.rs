//! Configuration of the Gemini clients: the API key, the base URL, the request timeout,
//! the endpoint URLs, and the settings of the embedder.

use vstd::prelude::*;

use crate::gemini::{
    map_task_type_to_use_case, names_use_case, EmbeddingUseCase, GeminiErrorDetail, BATCH_LIMIT,
    MAX_CHUNK_LENGTH_HINT,
};
use crate::text::{chars_of, push_char, push_str, str_eq, string_is_empty};
use crate::text_parts::lines_view;

verus! {

#[verifier::external_type_specification]
#[verifier::external_body]
pub struct ExHttpClient(reqwest::Client);

#[verifier::external_type_specification]
#[verifier::external_body]
pub struct ExHttpError(reqwest::Error);

#[verifier::external_type_specification]
#[verifier::external_body]
pub struct ExJsonError(serde_json::Error);

/// Everything that can go wrong in a Gemini client.
#[derive(Debug)]
pub enum GeminiError {
    /// Sending a request or reading its response failed.
    Network(reqwest::Error),
    /// The request body could not be serialised.
    RequestSerialization(serde_json::Error),
    /// A successful response could not be parsed.
    ResponseParsing { context: String, source: serde_json::Error },
    /// The API answered with an error status (its HTTP code).
    ApiError { status: u16, detail: Option<GeminiErrorDetail>, body_text: String },
    /// The client was configured with something unusable.
    InvalidConfiguration(String),
    /// The input was refused before any request.
    InvalidInput(String),
    /// A successful response did not hold what was expected.
    UnexpectedResponse(String),
    Streaming(String),
    /// More texts than one request may carry.
    BatchTooLarge { limit: Option<usize>, actual: usize },
}

/// Whether `e` is a configuration error with message `msg`.
pub open spec fn config_error(e: GeminiError, msg: Seq<char>) -> bool {
    e matches GeminiError::InvalidConfiguration(m) && m@ == msg
}

/// Whether `url::Url::parse` accepts `input` as an absolute URL.
pub uninterp spec fn url_parses(input: Seq<char>) -> bool;

/// The text of the `url::ParseError` that `url::Url::parse` gives for `input`.
pub uninterp spec fn url_parse_error_text(input: Seq<char>) -> Seq<char>;

/// Calls `url::Url::parse`. Claims that it succeeds exactly on the inputs that `url_parses`
/// names, and that a failure hands back the text of the `ParseError` for that same input
/// (parsing reads nothing but its input). The URL made is dropped.
#[verifier::external_body]
fn check_url(input: &str) -> (r: Result<(), String>)
    ensures
        r is Ok <==> url_parses(input@),
        r matches Err(m) ==> m@ == url_parse_error_text(input@),
{
    match url::Url::parse(input) {
        Ok(_) => Ok(()),
        Err(e) => Err(e.to_string()),
    }
}

/// The text of the URL that `url::Url::parse(base)` followed by
/// `path_segments_mut().extend(segments)` makes; `None` when `base` does not parse or
/// cannot be a base.
pub uninterp spec fn url_joined(base: Seq<char>, segments: Seq<Seq<char>>) -> Option<Seq<char>>;

/// Calls `core::time::Duration::from_secs`; the value is only carried to the HTTP client.
#[verifier::external_body]
fn seconds(secs: u64) -> (d: core::time::Duration) {
    core::time::Duration::from_secs(secs)
}

/// Parses `base` with `url::Url::parse`, appends `segments` through
/// `url::Url::path_segments_mut` and `url::PathSegmentsMut::extend`, and gives the text of
/// the URL (`url::Url::as_str`); `None` where `base` does not parse or cannot be a base.
/// Claims that this is `url_joined` of the arguments: all three calls read nothing else.
#[verifier::external_body]
fn join_url(base: &str, segments: &Vec<String>) -> (r: Option<String>)
    ensures
        match r {
            Some(u) => url_joined(base@, lines_view(segments@)) == Some(u@),
            None => url_joined(base@, lines_view(segments@)) is None,
        },
{
    let mut url = match url::Url::parse(base) {
        Ok(u) => u,
        Err(_) => return None,
    };
    match url.path_segments_mut() {
        Ok(mut path) => {
            path.extend(segments.iter());
        },
        Err(()) => return None,
    }
    Some(url.as_str().to_owned())
}

/// Calls `reqwest::ClientBuilder::build` on `reqwest::Client::builder().timeout(timeout)`,
/// handing back the error's text on failure. Whether it fails depends on the machine (its
/// TLS set-up), so nothing is stated.
#[verifier::external_body]
fn build_http_client(timeout: core::time::Duration) -> (r: Result<reqwest::Client, String>) {
    reqwest::Client::builder().timeout(timeout).build().map_err(|e| e.to_string())
}

/// The Generative Language API's address.
pub open spec fn default_base_url() -> Seq<char> {
    "https://generativelanguage.googleapis.com"@
}

/// Seconds a request may take, unless configured otherwise.
pub const DEFAULT_TIMEOUT_SECS: u64 = 60;

/// Configuration shared by the Gemini clients.
#[derive(Debug)]
pub struct GeminiConfig {
    /// Google AI API key.
    pub api_key: String,
    /// Base URL of the Generative Language API, as given; it parses as a URL.
    pub base_url: String,
    /// Timeout of the HTTP requests.
    pub timeout: core::time::Duration,
}

impl GeminiConfig {
    /// A configuration with the default base URL and timeout; the key must not be empty.
    pub fn new(api_key: String) -> (r: Result<Self, GeminiError>)
        ensures
            api_key@.len() == 0 ==> (r matches Err(e) && config_error(e, "API key cannot be empty"@)),
            api_key@.len() > 0 && !url_parses(default_base_url()) ==> (r matches Err(e) && config_error(
                e,
                "Internal error: Failed to parse default base URL: "@ + url_parse_error_text(
                    default_base_url(),
                ),
            )),
            api_key@.len() > 0 && url_parses(default_base_url()) ==> (r matches Ok(c) && c.api_key@
                == api_key@ && c.base_url@ == default_base_url()),
    {
        if string_is_empty(api_key.as_str()) {
            return Err(GeminiError::InvalidConfiguration(String::from_str("API key cannot be empty")));
        }
        let base_url = String::from_str("https://generativelanguage.googleapis.com");
        match check_url(base_url.as_str()) {
            Ok(()) => {},
            Err(e) => {
                let mut m = String::from_str("Internal error: Failed to parse default base URL: ");
                push_str(&mut m, e.as_str());
                return Err(GeminiError::InvalidConfiguration(m));
            },
        }
        Ok(GeminiConfig { api_key, base_url, timeout: seconds(DEFAULT_TIMEOUT_SECS) })
    }

    /// The same configuration with another base URL, if `url` parses.
    pub fn base_url(self, url: &str) -> (r: Result<Self, GeminiError>)
        ensures
            url_parses(url@) ==> (r matches Ok(c) && c.api_key == self.api_key && c.timeout
                == self.timeout && c.base_url@ == url@),
            !url_parses(url@) ==> (r matches Err(e) && config_error(
                e,
                "Invalid base URL '"@ + url@ + "': "@ + url_parse_error_text(url@),
            )),
    {
        match check_url(url) {
            Ok(()) => Ok(GeminiConfig { api_key: self.api_key, base_url: url.to_owned(), timeout: self.timeout }),
            Err(e) => {
                let mut m = String::from_str("Invalid base URL '");
                push_str(&mut m, url);
                push_str(&mut m, "': ");
                push_str(&mut m, e.as_str());
                Err(GeminiError::InvalidConfiguration(m))
            },
        }
    }

    /// The same configuration with another request timeout.
    pub fn timeout(self, timeout: core::time::Duration) -> (r: Self)
        ensures
            r.api_key == self.api_key,
            r.base_url == self.base_url,
            r.timeout == timeout,
    {
        GeminiConfig { api_key: self.api_key, base_url: self.base_url, timeout }
    }
}

/// `s` cut at each `sep`: the pieces so far, and the piece being read.
pub open spec fn split_acc(s: Seq<char>, sep: char) -> (Seq<Seq<char>>, Seq<char>)
    decreases s.len(),
{
    if s.len() == 0 {
        (Seq::empty(), Seq::empty())
    } else {
        let (ps, cur) = split_acc(s.drop_last(), sep);
        if s.last() == sep {
            (ps.push(cur), Seq::empty())
        } else {
            (ps, cur.push(s.last()))
        }
    }
}

/// The pieces of `s` between the occurrences of `sep`, empty ones included, as `str::split`
/// gives them.
pub open spec fn split_on(s: Seq<char>, sep: char) -> Seq<Seq<char>> {
    split_acc(s, sep).0.push(split_acc(s, sep).1)
}

/// The path segments of an API call: `v1beta/` and then `relative_path`, cut at each `/`.
pub fn api_path_segments(relative_path: &str) -> (r: Vec<String>)
    ensures
        lines_view(r@) == split_on("v1beta/"@ + relative_path@, '/'),
{
    let mut full = String::from_str("v1beta/");
    push_str(&mut full, relative_path);
    let chars = chars_of(full.as_str());
    let mut pieces: Vec<String> = Vec::new();
    let mut cur = String::new();
    let mut i: usize = 0;
    assert(chars@.take(0) =~= Seq::<char>::empty());
    while i < chars.len()
        invariant
            i <= chars.len(),
            (lines_view(pieces@), cur@) == split_acc(chars@.take(i as int), '/'),
        decreases chars.len() - i,
    {
        assert(chars@.take(i + 1).drop_last() =~= chars@.take(i as int));
        let c = chars[i];
        if c == '/' {
            let ghost before = pieces@;
            pieces.push(cur);
            cur = String::new();
            assert(lines_view(pieces@) =~= lines_view(before).push(
                split_acc(chars@.take(i as int), '/').1,
            ));
        } else {
            push_char(&mut cur, c);
        }
        i = i + 1;
    }
    assert(chars@.take(chars.len() as int) =~= chars@);
    let ghost before = pieces@;
    pieces.push(cur);
    assert(lines_view(pieces@) =~= lines_view(before).push(split_acc(chars@, '/').1));
    pieces
}

/// The HTTP client and the configuration that the Gemini clients share.
#[derive(Debug)]
pub struct SharedGeminiClient {
    pub config: GeminiConfig,
    pub http_client: reqwest::Client,
}

impl SharedGeminiClient {
    /// Uses `client_override` where given, else builds a client with the configured timeout.
    pub fn new(config: GeminiConfig, client_override: Option<reqwest::Client>) -> (r: Result<
        Self,
        GeminiError,
    >)
        ensures
            r matches Ok(s) ==> s.config == config,
            client_override matches Some(c) ==> (r matches Ok(s) && s.http_client == c),
            r matches Err(e) ==> (client_override is None && (e matches GeminiError::InvalidConfiguration(
                m,
            ) && "Failed to build default HTTP client: "@.is_prefix_of(m@))),
    {
        let http_client = match client_override {
            Some(c) => c,
            None => match build_http_client(config.timeout) {
                Ok(c) => c,
                Err(e) => {
                    let mut m = String::from_str("Failed to build default HTTP client: ");
                    push_str(&mut m, e.as_str());
                    return Err(GeminiError::InvalidConfiguration(m));
                },
            },
        };
        Ok(SharedGeminiClient { config, http_client })
    }

    /// The HTTP client.
    pub fn http_client(&self) -> (r: &reqwest::Client)
        ensures
            *r == self.http_client,
    {
        &self.http_client
    }

    /// The configuration.
    pub fn config(&self) -> (r: &GeminiConfig)
        ensures
            *r == self.config,
    {
        &self.config
    }

    /// The URL of an API call: the base URL with the segments of `api_path_segments`
    /// appended. Fails where the base URL cannot be a base.
    pub fn build_url(&self, relative_path: &str) -> (r: Result<String, GeminiError>)
        ensures
            match url_joined(self.config.base_url@, split_on("v1beta/"@ + relative_path@, '/')) {
                Some(u) => r matches Ok(s) && s@ == u,
                None => r matches Err(e) && config_error(e, "Base URL cannot be a 'cannot-be-a-base' URL."@),
            },
    {
        let segments = api_path_segments(relative_path);
        match join_url(self.config.base_url.as_str(), &segments) {
            Some(u) => Ok(u),
            None => Err(
                GeminiError::InvalidConfiguration(
                    String::from_str("Base URL cannot be a 'cannot-be-a-base' URL."),
                ),
            ),
        }
    }
}

/// The dimension of the embeddings of a model, where it is known.
pub open spec fn known_dimensions(model_name: Seq<char>) -> Option<usize> {
    if model_name == "embedding-001"@ {
        Some(768)
    } else {
        None
    }
}

/// The view of an optional string.
pub open spec fn opt_string_view(o: Option<String>) -> Option<Seq<char>> {
    match o {
        Some(s) => Some(s@),
        None => None,
    }
}

/// Whether `b` is a copy of `a`.
pub open spec fn same_use_case(a: EmbeddingUseCase, b: EmbeddingUseCase) -> bool {
    match a {
        EmbeddingUseCase::Other(s) => b matches EmbeddingUseCase::Other(t) && t@ == s@,
        _ => b == a,
    }
}

fn copy_use_case(u: &EmbeddingUseCase) -> (r: EmbeddingUseCase)
    ensures
        same_use_case(*u, r),
{
    match u {
        EmbeddingUseCase::General => EmbeddingUseCase::General,
        EmbeddingUseCase::RetrievalQuery => EmbeddingUseCase::RetrievalQuery,
        EmbeddingUseCase::RetrievalDocument => EmbeddingUseCase::RetrievalDocument,
        EmbeddingUseCase::Similarity => EmbeddingUseCase::Similarity,
        EmbeddingUseCase::Classification => EmbeddingUseCase::Classification,
        EmbeddingUseCase::Clustering => EmbeddingUseCase::Clustering,
        EmbeddingUseCase::QuestionAnswering => EmbeddingUseCase::QuestionAnswering,
        EmbeddingUseCase::FactVerification => EmbeddingUseCase::FactVerification,
        EmbeddingUseCase::CodeRetrievalQuery => EmbeddingUseCase::CodeRetrievalQuery,
        EmbeddingUseCase::Other(s) => EmbeddingUseCase::Other(s.clone()),
    }
}

/// Embedder settings for a Gemini embedding model.
#[derive(Debug)]
pub struct GeminiEmbedder {
    pub shared_client: SharedGeminiClient,
    /// The model's name, such as "embedding-001".
    pub model_name: String,
    /// The model's path in API calls, such as "models/embedding-001".
    pub model_path_segment: String,
    /// The task type sent with each request.
    pub task_type: Option<String>,
    pub use_case: EmbeddingUseCase,
    /// The dimension of the embeddings, where known.
    pub dimensions: Option<usize>,
}

/// Whether `e` holds the settings made from `model_name` and `task_type`.
pub open spec fn embedder_settings(
    e: GeminiEmbedder,
    model_name: Seq<char>,
    task_type: Option<Seq<char>>,
) -> bool {
    &&& e.model_name@ == model_name
    &&& e.model_path_segment@ == "models/"@ + model_name
    &&& opt_string_view(e.task_type) == task_type
    &&& names_use_case(task_type, e.use_case)
    &&& e.dimensions == known_dimensions(model_name)
}

impl GeminiEmbedder {
    /// An embedder with the default settings.
    pub fn new(api_key: String, model_name: String) -> (r: Result<Self, GeminiError>)
        ensures
            model_name@.len() == 0 ==> (r matches Err(e) && config_error(e, "Model name cannot be empty"@)),
            model_name@.len() > 0 && api_key@.len() == 0 ==> (r matches Err(e) && config_error(
                e,
                "API key cannot be empty"@,
            )),
            r matches Ok(e) ==> embedder_settings(e, model_name@, None)
                && e.shared_client.config.api_key@ == api_key@,
    {
        Self::new_with_options(api_key, model_name, None, None, None)
    }

    /// An embedder with a task type, another base URL or an HTTP client of the caller's.
    pub fn new_with_options(
        api_key: String,
        model_name: String,
        task_type: Option<String>,
        api_base_url: Option<String>,
        client_override: Option<reqwest::Client>,
    ) -> (r: Result<Self, GeminiError>)
        ensures
            model_name@.len() == 0 ==> (r matches Err(e) && config_error(e, "Model name cannot be empty"@)),
            model_name@.len() > 0 && api_key@.len() == 0 ==> (r matches Err(e) && config_error(
                e,
                "API key cannot be empty"@,
            )),
            api_base_url matches Some(u) ==> (model_name@.len() > 0 && api_key@.len() > 0
                && url_parses(default_base_url()) && !url_parses(u@) ==> (r matches Err(e)
                && config_error(e, "Invalid base URL '"@ + u@ + "': "@ + url_parse_error_text(u@)))),
            model_name@.len() > 0 && api_key@.len() > 0 && url_parses(default_base_url()) && (
            api_base_url matches Some(u) ==> url_parses(u@)) && client_override is Some ==> r is Ok,
            r matches Ok(e) ==> embedder_settings(e, model_name@, opt_string_view(task_type))
                && e.shared_client.config.api_key@ == api_key@,
    {
        if string_is_empty(model_name.as_str()) {
            return Err(GeminiError::InvalidConfiguration(String::from_str("Model name cannot be empty")));
        }
        let mut config = match GeminiConfig::new(api_key) {
            Ok(c) => c,
            Err(e) => return Err(e),
        };
        match api_base_url {
            Some(u) => {
                config = match config.base_url(u.as_str()) {
                    Ok(c) => c,
                    Err(e) => return Err(e),
                };
            },
            None => {},
        }
        Self::from_config(config, model_name, task_type, client_override)
    }

    /// An embedder over a configuration made beforehand.
    pub fn from_config(
        config: GeminiConfig,
        model_name: String,
        task_type: Option<String>,
        client_override: Option<reqwest::Client>,
    ) -> (r: Result<Self, GeminiError>)
        ensures
            r matches Ok(e) ==> embedder_settings(e, model_name@, opt_string_view(task_type))
                && e.shared_client.config == config,
            client_override matches Some(c) ==> (r matches Ok(e) && e.shared_client.http_client == c),
            r matches Err(e) ==> (client_override is None && (e matches GeminiError::InvalidConfiguration(
                m,
            ) && "Failed to build default HTTP client: "@.is_prefix_of(m@))),
    {
        let shared_client = match SharedGeminiClient::new(config, client_override) {
            Ok(s) => s,
            Err(e) => return Err(e),
        };
        let mut model_path_segment = String::from_str("models/");
        push_str(&mut model_path_segment, model_name.as_str());
        let use_case = match &task_type {
            Some(t) => map_task_type_to_use_case(Some(t.as_str())),
            None => map_task_type_to_use_case(None),
        };
        let dimensions = if str_eq(model_name.as_str(), "embedding-001") {
            Some(768)
        } else {
            None
        };
        Ok(GeminiEmbedder { shared_client, model_name, model_path_segment, task_type, use_case, dimensions })
    }

    /// The path of the batch embedding call for this model.
    pub fn batch_embed_path(&self) -> (r: String)
        ensures
            r@ == self.model_path_segment@ + ":batchEmbedContents"@,
    {
        let mut p = self.model_path_segment.clone();
        push_str(&mut p, ":batchEmbedContents");
        p
    }

    /// The URL of the batch embedding call for this model.
    pub fn build_batch_embed_url(&self) -> (r: Result<String, GeminiError>)
        ensures
            match url_joined(
                self.shared_client.config.base_url@,
                split_on("v1beta/"@ + self.model_path_segment@ + ":batchEmbedContents"@, '/'),
            ) {
                Some(u) => r matches Ok(s) && s@ == u,
                None => r matches Err(e) && config_error(e, "Base URL cannot be a 'cannot-be-a-base' URL."@),
            },
    {
        let path = self.batch_embed_path();
        assert("v1beta/"@ + path@ =~= "v1beta/"@ + self.model_path_segment@ + ":batchEmbedContents"@);
        self.shared_client.build_url(path.as_str())
    }

    /// The dimension of the embeddings, where known.
    pub fn dimensions(&self) -> (r: Option<usize>)
        ensures
            r == self.dimensions,
    {
        self.dimensions
    }

    /// The model's name.
    pub fn model_name(&self) -> (r: &str)
        ensures
            r@ == self.model_name@,
    {
        self.model_name.as_str()
    }

    /// What the embeddings are meant for.
    pub fn intended_use_case(&self) -> (r: EmbeddingUseCase)
        ensures
            same_use_case(self.use_case, r),
    {
        copy_use_case(&self.use_case)
    }

    /// Most texts one call may embed.
    pub fn max_batch_size_hint(&self) -> (r: Option<usize>)
        ensures
            r == Some(BATCH_LIMIT),
    {
        Some(BATCH_LIMIT)
    }

    /// Characters a text to embed should not exceed.
    pub fn max_chunk_length_hint(&self) -> (r: Option<usize>)
        ensures
            r == Some(MAX_CHUNK_LENGTH_HINT),
    {
        Some(MAX_CHUNK_LENGTH_HINT)
    }
}

} // verus!

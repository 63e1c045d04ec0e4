use pulldown_cmark::{CodeBlockKind, Event, Options, Parser, Tag, TagEnd};
use tiktoken_rs::{cl100k_base, CoreBPE};
use vstd::prelude::*;

verus! {

#[verifier::external_type_specification]
#[verifier::external_body]
pub struct ExMarkdownEvent<'a>(Event<'a>);

#[verifier::external_type_specification]
#[verifier::external_body]
pub struct ExMarkdownTag<'a>(Tag<'a>);

#[verifier::external_type_specification]
#[verifier::external_body]
pub struct ExMarkdownTagEnd(TagEnd);

#[verifier::external_type_specification]
#[verifier::external_body]
pub struct ExCoreBpe(CoreBPE);

/// The parts of a CommonMark parser event that chunking reads.
#[derive(Debug, Clone, PartialEq, Eq)]
pub enum MdEvent {
    /// Start of a heading of the given level (1 to 6).
    StartHeading(u32),
    /// Start of a code block with the given info string (empty when indented).
    StartCodeBlock(String),
    StartList,
    StartItem,
    StartOther,
    /// End of a heading of the given level.
    EndHeading(u32),
    EndParagraph,
    EndItem,
    EndCodeBlock,
    EndList,
    EndTable,
    EndBlockQuote,
    EndOther,
    /// Text, with entities and escapes resolved.
    Text(String),
    /// Inline code.
    Code(String),
    HardBreak,
    SoftBreak,
    Rule,
    Other,
}

/// The events, with their byte ranges, that pulldown-cmark produces for `text` with
/// default options.
pub uninterp spec fn markdown_events(text: Seq<char>) -> Seq<(MdEvent, usize, usize)>;

/// What encoding `text` under `cl100k_base`, special tokens allowed, gives: the tokens,
/// or the error message when the pre-tokenizing pattern fails to match.
pub uninterp spec fn cl100k_encoding(text: Seq<char>) -> Result<Seq<u32>, Seq<char>>;

/// The encoder's message for a text it cannot encode.
pub open spec fn encode_error_of(s: Seq<char>) -> Seq<char> {
    match cl100k_encoding(s) {
        Ok(_) => Seq::empty(),
        Err(m) => m,
    }
}

/// Whether `text` can be encoded.
pub open spec fn cl100k_encodes(text: Seq<char>) -> bool {
    cl100k_encoding(text) is Ok
}

/// Tokens of `text` under `cl100k_base`; none when it cannot be encoded.
pub open spec fn cl100k_tokens(text: Seq<char>) -> Seq<u32> {
    match cl100k_encoding(text) {
        Ok(t) => t,
        Err(_) => Seq::empty(),
    }
}

/// What decoding `tokens` under `cl100k_base` gives: the text, or the error message.
pub uninterp spec fn cl100k_decode(tokens: Seq<u32>) -> Result<Seq<char>, Seq<char>>;

#[verifier::external_body]
fn md_start_event(tag: Tag) -> MdEvent {
    match tag {
        Tag::Heading { level, .. } => MdEvent::StartHeading(level as u32),
        Tag::CodeBlock(CodeBlockKind::Fenced(lang)) => MdEvent::StartCodeBlock(lang.into_string()),
        Tag::CodeBlock(CodeBlockKind::Indented) => MdEvent::StartCodeBlock(String::new()),
        Tag::List(_) => MdEvent::StartList,
        Tag::Item => MdEvent::StartItem,
        _ => MdEvent::StartOther,
    }
}

#[verifier::external_body]
fn md_end_event(tag: TagEnd) -> MdEvent {
    match tag {
        TagEnd::Heading(level) => MdEvent::EndHeading(level as u32),
        TagEnd::Paragraph => MdEvent::EndParagraph,
        TagEnd::Item => MdEvent::EndItem,
        TagEnd::CodeBlock => MdEvent::EndCodeBlock,
        TagEnd::List(_) => MdEvent::EndList,
        TagEnd::Table => MdEvent::EndTable,
        TagEnd::BlockQuote(_) => MdEvent::EndBlockQuote,
        _ => MdEvent::EndOther,
    }
}

#[verifier::external_body]
fn md_event(event: Event) -> MdEvent {
    match event {
        Event::Start(tag) => md_start_event(tag),
        Event::End(tag) => md_end_event(tag),
        Event::Text(text) => MdEvent::Text(text.into_string()),
        Event::Code(text) => MdEvent::Code(text.into_string()),
        Event::HardBreak => MdEvent::HardBreak,
        Event::SoftBreak => MdEvent::SoftBreak,
        Event::Rule => MdEvent::Rule,
        _ => MdEvent::Other,
    }
}

/// Runs pulldown-cmark's `Parser::new_ext` with no extension enabled over `text` and
/// keeps, for each event of `into_offset_iter`, its kind (`md_event` reads it) and its
/// byte range. The contract claims only that the result is a function of `text`.
#[verifier::external_body]
pub(crate) fn parse_markdown(text: &str) -> (r: Vec<(MdEvent, usize, usize)>)
    ensures
        r@ == markdown_events(text@),
{
    let mut out = Vec::new();
    for (event, range) in Parser::new_ext(text, Options::empty()).into_offset_iter() {
        out.push((md_event(event), range.start, range.end));
    }
    out
}

/// The `cl100k_base` byte-pair encoder of tiktoken-rs; no other encoder can be put here.
pub struct Cl100k {
    bpe: CoreBPE,
}

impl Cl100k {
    /// Loads the encoder with tiktoken-rs's `cl100k_base`, which reads the ranks compiled
    /// into the crate with a fixed pattern: it reads nothing else and succeeds.
    #[verifier::external_body]
    pub(crate) fn load() -> (r: Result<Cl100k, String>)
        ensures
            r is Ok,
    {
        match cl100k_base() {
            Ok(bpe) => Ok(Cl100k { bpe }),
            Err(e) => Err(e.to_string()),
        }
    }

    /// Calls `CoreBPE::encode` with all special tokens allowed (`CoreBPE::special_tokens`):
    /// the tokens of `text`, or the error's text when the pre-tokenizing pattern fails; a
    /// function of `text` alone since the encoder is always `cl100k_base`.
    #[verifier::external_body]
    pub(crate) fn encode(&self, text: &str) -> (r: Result<Vec<u32>, String>)
        ensures
            match r {
                Ok(t) => cl100k_encoding(text@) == Ok::<Seq<u32>, Seq<char>>(t@),
                Err(m) => cl100k_encoding(text@) == Err::<Seq<u32>, Seq<char>>(m@),
            },
    {
        match self.bpe.encode(text, &self.bpe.special_tokens()) {
            Ok((tokens, _)) => Ok(tokens),
            Err(e) => Err(e.to_string()),
        }
    }

    /// Calls `CoreBPE::decode`: the text of `tokens`, or tiktoken-rs's error message when
    /// a token is unknown or the bytes are not UTF-8; a function of `tokens` alone.
    #[verifier::external_body]
    pub(crate) fn decode(&self, tokens: &[u32]) -> (r: Result<String, String>)
        ensures
            match r {
                Ok(s) => cl100k_decode(tokens@) == Ok::<Seq<char>, Seq<char>>(s@),
                Err(m) => cl100k_decode(tokens@) == Err::<Seq<char>, Seq<char>>(m@),
            },
    {
        match self.bpe.decode(tokens) {
            Ok(s) => Ok(s),
            Err(e) => Err(e.to_string()),
        }
    }

    /// Number of `cl100k_base` tokens of `text`, or the encoder's error message.
    pub fn count_tokens(&self, text: &str) -> (r: Result<usize, String>)
        ensures
            match r {
                Ok(n) => cl100k_encodes(text@) && n == cl100k_tokens(text@).len(),
                Err(m) => cl100k_encoding(text@) == Err::<Seq<u32>, Seq<char>>(m@),
            },
    {
        match self.encode(text) {
            Ok(t) => Ok(t.len()),
            Err(m) => Err(m),
        }
    }
}

} // verus!

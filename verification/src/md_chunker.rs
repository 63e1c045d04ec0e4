use vstd::prelude::*;

use crate::chunking::{ChunkData, ChunkerError};
use crate::markdown::{cl100k_encodes, cl100k_tokens, encode_error_of, markdown_events, parse_markdown, Cl100k, MdEvent};
use crate::text::{
    all_ws, byte_slice, lemma_trim_empty_iff_all_ws, push_str, str_eq, str_get, string_is_empty, trim,
    trim_string,
};

verus! {

/// Configuration of the Markdown chunker.
#[derive(Debug, Clone)]
pub struct MarkdownChunkerConfig {
    /// Name of the tokenizer model used to count the tokens of each chunk.
    pub tokenizer_model: String,
}

impl MarkdownChunkerConfig {
    /// The default configuration: the `cl100k_base` tokenizer.
    pub fn default_config() -> (r: Self)
        ensures
            r.tokenizer_model@ == "cl100k_base"@,
    {
        MarkdownChunkerConfig { tokenizer_model: String::from_str("cl100k_base") }
    }
}

impl Default for MarkdownChunkerConfig {
    fn default() -> (r: Self)
        ensures
            r.tokenizer_model@ == "cl100k_base"@,
    {
        Self::default_config()
    }
}

/// A chunk as the scan sees it: byte range, heading path, token count.
pub type ChunkSpan = (int, int, Option<Seq<char>>, Option<int>);

pub open spec fn opt_chars(o: Option<String>) -> Option<Seq<char>> {
    match o {
        Some(s) => Some(s@),
        None => None,
    }
}

pub open spec fn chunk_span(c: ChunkData) -> ChunkSpan {
    (
        c.text_range.start as int,
        c.text_range.end as int,
        opt_chars(c.heading_path),
        match c.token_count {
            Some(n) => Some(n as int),
            None => None,
        },
    )
}

pub open spec fn chunk_spans(v: Seq<ChunkData>) -> Seq<ChunkSpan> {
    v.map_values(|c: ChunkData| chunk_span(c))
}

pub open spec fn stack_view(s: Seq<(u32, String)>) -> Seq<(u32, Seq<char>)> {
    s.map_values(|p: (u32, String)| (p.0, p.1@))
}

/// The state of a scan over the events of a Markdown text.
pub struct ScanState {
    pub chunks: Seq<ChunkSpan>,
    pub stack: Seq<(u32, Seq<char>)>,
    pub path: Option<Seq<char>>,
    pub block_start: Option<int>,
    pub last_end: int,
    pub heading_buf: Seq<char>,
}

pub open spec fn initial_scan() -> ScanState {
    ScanState {
        chunks: Seq::empty(),
        stack: Seq::empty(),
        path: None,
        block_start: None,
        last_end: 0,
        heading_buf: Seq::empty(),
    }
}

/// Removes from the top of the heading stack every heading of level `level` or deeper.
pub open spec fn pop_levels(stack: Seq<(u32, Seq<char>)>, level: u32) -> Seq<(u32, Seq<char>)>
    decreases stack.len(),
{
    if stack.len() > 0 && stack.last().0 >= level {
        pop_levels(stack.drop_last(), level)
    } else {
        stack
    }
}

/// The titles of the heading stack, outermost first, separated by `" > "`.
pub open spec fn join_titles(stack: Seq<(u32, Seq<char>)>) -> Seq<char>
    decreases stack.len(),
{
    if stack.len() == 0 {
        Seq::empty()
    } else if stack.len() == 1 {
        stack[0].1
    } else {
        join_titles(stack.drop_last()) + seq![' ', '>', ' '] + stack.last().1
    }
}

pub open spec fn opens_block(e: MdEvent) -> bool {
    e is Text || e is Code || e is StartItem
}

pub open spec fn closes_block(e: MdEvent) -> bool {
    e is EndParagraph || e is EndCodeBlock || e is EndItem || e is EndTable || e is EndBlockQuote
}

/// Events on which the pending block is closed: block ends, headings, rules, and the
/// start of a list item, so that each item makes its own chunk.
pub open spec fn finalizes(e: MdEvent) -> bool {
    closes_block(e) || e is StartHeading || e is EndHeading || e is Rule || e is StartItem
}

pub open spec fn event_text(e: MdEvent) -> Seq<char> {
    match e {
        MdEvent::Text(t) => t@,
        MdEvent::Code(t) => t@,
        _ => Seq::empty(),
    }
}

/// The span a closing event ends: a closing tag ends the block where the previous event
/// ended, a heading start, a rule or an item start where the event starts.
pub open spec fn closed_span(last_end: int, bs: Option<int>, e: MdEvent, start: int) -> Option<(int, int)> {
    let to = if closes_block(e) || e is EndHeading { last_end } else { start };
    if finalizes(e) && bs is Some && bs->0 < to {
        Some((bs->0, to))
    } else {
        None
    }
}

/// Adds the block `a..b` of `src` as a chunk unless it is no valid slice or only
/// whitespace.
pub open spec fn push_block_spec(
    src: Seq<char>,
    chunks: Seq<ChunkSpan>,
    a: int,
    b: int,
    path: Option<Seq<char>>,
) -> Seq<ChunkSpan> {
    match byte_slice(src, a, b) {
        Some(t) => if !all_ws(t) {
            chunks.push((a, b, path, Some(cl100k_tokens(t).len() as int)))
        } else {
            chunks
        },
        None => chunks,
    }
}

pub open spec fn scan_stack(st: ScanState, e: MdEvent, hb: Seq<char>) -> Seq<(u32, Seq<char>)> {
    match e {
        MdEvent::StartHeading(level) => pop_levels(st.stack, level).push((level, Seq::empty())),
        MdEvent::EndHeading(_) => if st.stack.len() > 0 {
            st.stack.update(st.stack.len() - 1, (st.stack.last().0, trim(hb)))
        } else {
            st.stack
        },
        _ => st.stack,
    }
}

/// One event of the scan, spanning bytes `start..end` of `src`.
pub open spec fn scan_step(src: Seq<char>, st: ScanState, e: MdEvent, start: int, end: int) -> ScanState {
    let bs = if opens_block(e) && st.block_start is None {
        Some(start)
    } else {
        st.block_start
    };
    let hb = if st.stack.len() > 0 && (e is Text || e is Code) {
        st.heading_buf + event_text(e)
    } else {
        st.heading_buf
    };
    let stack = scan_stack(st, e, hb);
    let path = if e is EndHeading {
        Some(join_titles(stack))
    } else {
        st.path
    };
    let chunks = match closed_span(st.last_end, bs, e, start) {
        Some((a, b)) => push_block_spec(src, st.chunks, a, b, path),
        None => st.chunks,
    };
    ScanState {
        chunks,
        stack,
        path,
        block_start: if e is StartItem {
            Some(start)
        } else if finalizes(e) {
            None
        } else {
            bs
        },
        last_end: end,
        heading_buf: if e is StartHeading || e is EndHeading {
            Seq::empty()
        } else {
            hb
        },
    }
}

pub open spec fn scan_events(src: Seq<char>, events: Seq<(MdEvent, usize, usize)>) -> ScanState
    decreases events.len(),
{
    if events.len() == 0 {
        initial_scan()
    } else {
        let (e, start, end) = events.last();
        scan_step(src, scan_events(src, events.drop_last()), e, start as int, end as int)
    }
}

/// The chunks once every event is scanned: a block still open ends where the last event
/// ended.
pub open spec fn scan_finish(src: Seq<char>, st: ScanState) -> Seq<ChunkSpan> {
    match st.block_start {
        Some(a) => if a < st.last_end {
            push_block_spec(src, st.chunks, a, st.last_end, st.path)
        } else {
            st.chunks
        },
        None => st.chunks,
    }
}

/// The chunks of Markdown text `src` given its parser events.
pub open spec fn markdown_chunk_spans(src: Seq<char>, events: Seq<(MdEvent, usize, usize)>) -> Seq<ChunkSpan> {
    scan_finish(src, scan_events(src, events))
}

/// Splits Markdown into one chunk per block (paragraph, list item, code block, table,
/// block quote, heading), each with the heading path in force and its token count.
pub struct MarkdownChunker {
    config: MarkdownChunkerConfig,
    tokenizer: Cl100k,
}

/// The text of a chunk.
pub open spec fn span_text(src: Seq<char>, c: ChunkSpan) -> Seq<char> {
    byte_slice(src, c.0, c.1)->0
}

/// Whether the text of every chunk can be encoded.
pub open spec fn spans_encode(src: Seq<char>, spans: Seq<ChunkSpan>) -> bool {
    forall|i: int| 0 <= i < spans.len() ==> cl100k_encodes(#[trigger] span_text(src, spans[i]))
}

/// Whether `m` is the encoder's message for the first chunk whose text it cannot encode.
pub open spec fn first_failure(src: Seq<char>, spans: Seq<ChunkSpan>, m: Seq<char>) -> bool {
    exists|i: int|
        0 <= i < spans.len() && spans_encode(src, spans.take(i)) && !cl100k_encodes(
            #[trigger] span_text(src, spans[i]),
        ) && m == encode_error_of(span_text(src, spans[i]))
}

/// Chunking the source `src` whose chunks would be `spans`: they, when every chunk's text
/// can be encoded; otherwise the encoder's error for the first chunk whose text cannot.
pub open spec fn chunking_result(src: Seq<char>, spans: Seq<ChunkSpan>, r: Result<Vec<ChunkData>, ChunkerError>) -> bool {
    &&& spans_encode(src, spans) ==> (r matches Ok(v) && chunk_spans(v@) == spans)
    &&& !spans_encode(src, spans) ==> (r matches Err(ChunkerError::Processing(m)) && first_failure(src, spans, m@))
}

proof fn lemma_push_block_grows(src: Seq<char>, c: Seq<ChunkSpan>, a: int, b: int, path: Option<Seq<char>>)
    ensures
        c.is_prefix_of(push_block_spec(src, c, a, b, path)),
{
    assert(c.is_prefix_of(c));
    match byte_slice(src, a, b) {
        Some(t) => if !all_ws(t) {
            let n = c.push((a, b, path, Some(cl100k_tokens(t).len() as int)));
            assert(n.subrange(0, c.len() as int) =~= c);
        },
        None => {},
    }
}

proof fn lemma_scan_grows(src: Seq<char>, events: Seq<(MdEvent, usize, usize)>, j: int)
    requires
        0 <= j <= events.len(),
    ensures
        scan_events(src, events.take(j)).chunks.is_prefix_of(scan_events(src, events).chunks),
    decreases events.len() - j,
{
    if j == events.len() {
        assert(events.take(j) =~= events);
        assert(scan_events(src, events).chunks.is_prefix_of(scan_events(src, events).chunks));
    } else {
        lemma_scan_grows(src, events, j + 1);
        assert(events.take(j + 1).drop_last() =~= events.take(j));
        let st = scan_events(src, events.take(j));
        let (e, start, end) = events.take(j + 1).last();
        let bs = if opens_block(e) && st.block_start is None {
            Some(start as int)
        } else {
            st.block_start
        };
        let hb = if st.stack.len() > 0 && (e is Text || e is Code) {
            st.heading_buf + event_text(e)
        } else {
            st.heading_buf
        };
        let stack = scan_stack(st, e, hb);
        let path = if e is EndHeading {
            Some(join_titles(stack))
        } else {
            st.path
        };
        match closed_span(st.last_end, bs, e, start as int) {
            Some((a, b)) => lemma_push_block_grows(src, st.chunks, a, b, path),
            None => {},
        }
        let mid = scan_events(src, events.take(j + 1)).chunks;
        let all = scan_events(src, events).chunks;
        assert(st.chunks.is_prefix_of(mid));
        assert(all.subrange(0, st.chunks.len() as int) =~= mid.subrange(0, st.chunks.len() as int));
    }
}

proof fn lemma_finish_grows(src: Seq<char>, st: ScanState)
    ensures
        st.chunks.is_prefix_of(scan_finish(src, st)),
{
    assert(st.chunks.is_prefix_of(st.chunks));
    match st.block_start {
        Some(a) => if a < st.last_end {
            lemma_push_block_grows(src, st.chunks, a, st.last_end, st.path);
        },
        None => {},
    }
}

proof fn lemma_witness(src: Seq<char>, spans: Seq<ChunkSpan>, c: Seq<ChunkSpan>, span: ChunkSpan)
    requires
        c.push(span).is_prefix_of(spans),
        spans_encode(src, c),
        !cl100k_encodes(span_text(src, span)),
    ensures
        first_failure(src, spans, encode_error_of(span_text(src, span))),
        !spans_encode(src, spans),
{
    let i = c.len() as int;
    assert(spans[i] == c.push(span)[i]);
    assert(spans.take(i) =~= c);
    assert(!cl100k_encodes(span_text(src, spans[i])));
}

/// Where the scan of a prefix of the events has made `c` and its next step adds `span`,
/// a chunk that cannot be encoded: chunking fails with its error.
proof fn lemma_step_failure(src: Seq<char>, events: Seq<(MdEvent, usize, usize)>, j: int, c: Seq<ChunkSpan>, span: ChunkSpan)
    requires
        0 <= j <= events.len(),
        scan_events(src, events.take(j)).chunks == c.push(span),
        spans_encode(src, c),
        !cl100k_encodes(span_text(src, span)),
    ensures
        first_failure(src, markdown_chunk_spans(src, events), encode_error_of(span_text(src, span))),
        !spans_encode(src, markdown_chunk_spans(src, events)),
{
    lemma_scan_grows(src, events, j);
    lemma_finish_grows(src, scan_events(src, events));
    let spans = markdown_chunk_spans(src, events);
    let mid = scan_events(src, events).chunks;
    assert(spans.subrange(0, c.len() + 1 as int) =~= mid.subrange(0, c.len() + 1 as int));
    lemma_witness(src, spans, c, span);
}

/// Closes the block `a..b` of `src`: a chunk is added unless the slice is invalid or
/// holds only whitespace.
fn push_block(
    tokenizer: &Cl100k,
    results: &mut Vec<ChunkData>,
    src: &str,
    a: usize,
    b: usize,
    path: &Option<String>,
) -> (r: Result<(), String>)
    ensures
        r is Ok ==> chunk_spans(final(results)@) == push_block_spec(
            src@,
            chunk_spans(old(results)@),
            a as int,
            b as int,
            opt_chars(*path),
        ),
        r is Ok ==> forall|j: int|
            old(results)@.len() <= j < final(results)@.len() ==> cl100k_encodes(
                #[trigger] span_text(src@, chunk_spans(final(results)@)[j]),
            ),
        r is Ok ==> old(results)@.len() <= final(results)@.len(),
        r matches Err(m) ==> (byte_slice(src@, a as int, b as int) matches Some(t) && !all_ws(t) && !cl100k_encodes(t)
            && m@ == encode_error_of(t)),
{
    match str_get(src, a, b) {
        Some(t) => {
            let trimmed = trim_string(t.as_str());
            proof {
                lemma_trim_empty_iff_all_ws(t@);
            }
            if !string_is_empty(trimmed.as_str()) {
                let count = match tokenizer.count_tokens(t.as_str()) {
                    Ok(n) => n,
                    Err(m) => return Err(m),
                };
                let heading_path = match path {
                    Some(p) => Some(p.clone()),
                    None => None,
                };
                results.push(ChunkData { text_range: a..b, heading_path, token_count: Some(count) });
                proof {
                    assert(chunk_spans(results@) =~= chunk_spans(old(results)@).push(
                        chunk_span(results@.last()),
                    ));
                }
            }
        },
        None => {},
    }
    Ok(())
}

pub(crate) fn push_heading(stack: &mut Vec<(u32, String)>, level: u32)
    ensures
        stack_view(final(stack)@) == pop_levels(stack_view(old(stack)@), level).push(
            (level, Seq::<char>::empty()),
        ),
{
    while stack.len() > 0 && stack[stack.len() - 1].0 >= level
        invariant
            pop_levels(stack_view(stack@), level) == pop_levels(stack_view(old(stack)@), level),
        decreases stack.len(),
    {
        let ghost before = stack@;
        stack.pop();
        proof {
            assert(stack_view(before).drop_last() =~= stack_view(stack@));
        }
    }
    assert(pop_levels(stack_view(stack@), level) == stack_view(stack@));
    stack.push((level, String::new()));
    assert(stack_view(stack@) =~= stack_view(old(stack)@.take(0)).take(0) + pop_levels(
        stack_view(old(stack)@),
        level,
    ).push((level, Seq::<char>::empty())));
}

pub(crate) fn set_last_title(stack: &mut Vec<(u32, String)>, title: String)
    ensures
        stack_view(final(stack)@) == (if old(stack)@.len() > 0 {
            stack_view(old(stack)@).update(
                old(stack)@.len() - 1,
                (stack_view(old(stack)@).last().0, title@),
            )
        } else {
            stack_view(old(stack)@)
        }),
{
    if stack.len() > 0 {
        let (level, _old_title) = stack.pop().unwrap();
        stack.push((level, title));
        assert(stack_view(stack@) =~= stack_view(old(stack)@).update(
            old(stack)@.len() - 1,
            (stack_view(old(stack)@).last().0, title@),
        ));
    }
}

/// The heading path `"A > B > C"` of the stack.
fn join_path(stack: &Vec<(u32, String)>) -> (r: String)
    ensures
        r@ == join_titles(stack_view(stack@)),
{
    let mut r = String::new();
    let mut i: usize = 0;
    while i < stack.len()
        invariant
            i <= stack.len(),
            r@ == join_titles(stack_view(stack@).take(i as int)),
        decreases stack.len() - i,
    {
        let ghost pre = stack_view(stack@).take(i as int);
        let ghost next = stack_view(stack@).take(i + 1);
        assert(next.drop_last() =~= pre);
        if i > 0 {
            push_str(&mut r, " > ");
            proof {
                reveal_strlit(" > ");
            }
        }
        push_str(&mut r, stack[i].1.as_str());
        proof {
            if i == 0 {
                assert(r@ =~= next[0].1);
            } else {
                assert(r@ =~= join_titles(pre) + seq![' ', '>', ' '] + next.last().1);
            }
        }
        i = i + 1;
    }
    assert(stack_view(stack@).take(stack.len() as int) =~= stack_view(stack@));
    r
}

impl MarkdownChunker {
    /// Creates a chunker whose tokenizer is `config.tokenizer_model`; only `cl100k_base`
    /// is supported.
    pub fn new(config: MarkdownChunkerConfig) -> (r: Result<Self, ChunkerError>)
        ensures
            config.tokenizer_model@ != "cl100k_base"@ ==> (r matches Err(ChunkerError::Configuration(m))
                && m@ == "Unsupported tokenizer model: "@ + config.tokenizer_model@),
            config.tokenizer_model@ == "cl100k_base"@ ==> r is Ok,
            r matches Ok(c) ==> c.spec_config() == config,
    {
        match Self::get_tokenizer(config.tokenizer_model.as_str()) {
            Ok(tokenizer) => Ok(MarkdownChunker { config, tokenizer }),
            Err(e) => Err(e),
        }
    }

    /// The tokenizer named `model`; only `cl100k_base` is supported, and it always loads.
    pub fn get_tokenizer(model: &str) -> (r: Result<Cl100k, ChunkerError>)
        ensures
            model@ != "cl100k_base"@ ==> (r matches Err(ChunkerError::Configuration(m)) && m@
                == "Unsupported tokenizer model: "@ + model@),
            model@ == "cl100k_base"@ ==> r is Ok,
    {
        if !str_eq(model, "cl100k_base") {
            let mut m = String::from_str("Unsupported tokenizer model: ");
            push_str(&mut m, model);
            return Err(ChunkerError::Configuration(m));
        }
        match Cl100k::load() {
            Ok(tokenizer) => Ok(tokenizer),
            Err(e) => {
                let mut m = String::from_str("Failed to initialize tokenizer '");
                push_str(&mut m, model);
                push_str(&mut m, "': ");
                push_str(&mut m, e.as_str());
                Err(ChunkerError::Configuration(m))
            },
        }
    }

    pub closed spec fn spec_config(self) -> MarkdownChunkerConfig {
        self.config
    }

    /// Number of tokens of `text`; `None` when the encoder cannot encode it.
    pub fn count_tokens_optional(&self, text: &str) -> (r: Option<usize>)
        ensures
            cl100k_encodes(text@) ==> r == Some(cl100k_tokens(text@).len() as usize),
            !cl100k_encodes(text@) ==> r is None,
    {
        match self.tokenizer.count_tokens(text) {
            Ok(n) => Some(n),
            Err(_) => None,
        }
    }

    /// Chunks `source_text`: parses it as CommonMark and makes a chunk of each block.
    pub fn chunk(&self, source_text: &str) -> (r: Result<Vec<ChunkData>, ChunkerError>)
        ensures
            chunking_result(source_text@, markdown_chunk_spans(source_text@, markdown_events(source_text@)), r),
    {
        let events = parse_markdown(source_text);
        self.chunk_events(source_text, &events)
    }

    /// Chunks `source_text` given its parser events, each with its byte range.
    pub fn chunk_events(&self, source_text: &str, events: &Vec<(MdEvent, usize, usize)>) -> (r: Result<
        Vec<ChunkData>,
        ChunkerError,
    >)
        ensures
            chunking_result(source_text@, markdown_chunk_spans(source_text@, events@), r),
    {
        let ghost src = source_text@;
        let mut results: Vec<ChunkData> = Vec::new();
        let mut heading_stack: Vec<(u32, String)> = Vec::new();
        let mut current_heading_path: Option<String> = None;
        let mut current_block_start: Option<usize> = None;
        let mut last_event_end: usize = 0;
        let mut heading_text_buffer = String::new();
        let mut i: usize = 0;
        assert(events@.take(0) =~= Seq::<(MdEvent, usize, usize)>::empty());
        while i < events.len()
            invariant
                i <= events.len(),
                src == source_text@,
                ({
                    let st = scan_events(src, events@.take(i as int));
                    &&& chunk_spans(results@) == st.chunks
                    &&& stack_view(heading_stack@) == st.stack
                    &&& opt_chars(current_heading_path) == st.path
                    &&& (match current_block_start {
                        Some(b) => st.block_start == Some(b as int),
                        None => st.block_start is None,
                    })
                    &&& last_event_end == st.last_end
                    &&& heading_text_buffer@ == st.heading_buf
                }),
                spans_encode(src, chunk_spans(results@)),
            decreases events.len() - i,
        {
            let ghost st = scan_events(src, events@.take(i as int));
            let ghost pre_path = opt_chars(current_heading_path);
            assert(events@.take(i + 1).drop_last() =~= events@.take(i as int));
            let (event, start, end) = &events[i];
            let start = *start;
            let end = *end;
            // A text-bearing event opens a block.
            let opens = match event {
                MdEvent::Text(_) | MdEvent::Code(_) | MdEvent::StartItem => true,
                _ => false,
            };
            if opens && current_block_start.is_none() {
                current_block_start = Some(start);
            }
            // Text inside a heading makes its title.
            if heading_stack.len() > 0 {
                match event {
                    MdEvent::Text(t) => push_str(&mut heading_text_buffer, t.as_str()),
                    MdEvent::Code(t) => push_str(&mut heading_text_buffer, t.as_str()),
                    _ => {},
                }
            }
            let ghost hb = heading_text_buffer@;
            let mut finalize: Option<(usize, usize)> = None;
            match event {
                MdEvent::EndParagraph | MdEvent::EndCodeBlock | MdEvent::EndItem | MdEvent::EndTable
                | MdEvent::EndBlockQuote => {
                    if let Some(s) = current_block_start {
                        if s < last_event_end {
                            finalize = Some((s, last_event_end));
                        }
                    }
                    current_block_start = None;
                },
                MdEvent::StartHeading(level) => {
                    if let Some(s) = current_block_start {
                        if s < start {
                            finalize = Some((s, start));
                        }
                    }
                    current_block_start = None;
                    heading_text_buffer = String::new();
                    push_heading(&mut heading_stack, *level);
                },
                MdEvent::EndHeading(_) => {
                    let title = trim_string(heading_text_buffer.as_str());
                    set_last_title(&mut heading_stack, title);
                    current_heading_path = Some(join_path(&heading_stack));
                    if let Some(s) = current_block_start {
                        if s < last_event_end {
                            finalize = Some((s, last_event_end));
                        }
                    }
                    current_block_start = None;
                    heading_text_buffer = String::new();
                },
                MdEvent::Rule => {
                    if let Some(s) = current_block_start {
                        if s < start {
                            finalize = Some((s, start));
                        }
                    }
                    current_block_start = None;
                },
                MdEvent::StartItem => {
                    // A new item closes the block of the item before it.
                    if let Some(s) = current_block_start {
                        if s < start {
                            finalize = Some((s, start));
                        }
                    }
                },
                _ => {},
            }
            if let Some((a, b)) = finalize {
                let ghost before = chunk_spans(results@);
                match push_block(&self.tokenizer, &mut results, source_text, a, b, &current_heading_path) {
                    Ok(()) => {},
                    Err(m) => {
                        proof {
                            let e = events@[i as int].0;
                            let next = scan_step(src, st, e, start as int, end as int);
                            assert(scan_events(src, events@.take(i + 1)) == next);
                            let t = byte_slice(src, a as int, b as int)->0;
                            let span = (a as int, b as int, opt_chars(current_heading_path), Some(cl100k_tokens(t).len() as int));
                            assert(next.chunks == before.push(span));
                            lemma_step_failure(src, events@, i + 1, before, span);
                        }
                        return Err(ChunkerError::Processing(m));
                    },
                }
                current_block_start = None;
            }
            if let MdEvent::StartItem = event {
                current_block_start = Some(start);
            }
            last_event_end = end;
            proof {
                let e = events@[i as int].0;
                let next = scan_step(src, st, e, start as int, end as int);
                assert(scan_events(src, events@.take(i + 1)) == next);
                assert(stack_view(heading_stack@) == next.stack);
                assert(opt_chars(current_heading_path) == next.path);
                assert(chunk_spans(results@) == next.chunks);
            }
            i = i + 1;
        }
        assert(events@.take(events.len() as int) =~= events@);
        if let Some(s) = current_block_start {
            if s < last_event_end {
                let ghost before = chunk_spans(results@);
                match push_block(&self.tokenizer, &mut results, source_text, s, last_event_end, &current_heading_path) {
                    Ok(()) => {},
                    Err(m) => {
                        proof {
                            let st = scan_events(src, events@);
                            let t = byte_slice(src, s as int, last_event_end as int)->0;
                            let span = (s as int, last_event_end as int, opt_chars(current_heading_path), Some(cl100k_tokens(t).len() as int));
                            assert(scan_finish(src, st) == before.push(span));
                            lemma_witness(src, markdown_chunk_spans(src, events@), before, span);
                        }
                        return Err(ChunkerError::Processing(m));
                    },
                }
            }
        }
        Ok(results)
    }
}

/// Every span is a non-blank slice of the source, counted in tokens.
pub open spec fn spans_valid(src: Seq<char>, chunks: Seq<ChunkSpan>) -> bool {
    forall|i: int|
        0 <= i < chunks.len() ==> {
            let c = #[trigger] chunks[i];
            &&& c.0 < c.1
            &&& byte_slice(src, c.0, c.1) is Some
            &&& !all_ws(byte_slice(src, c.0, c.1)->0)
            &&& c.3 == Some(cl100k_tokens(byte_slice(src, c.0, c.1)->0).len() as int)
        }
}

proof fn lemma_push_block_valid(src: Seq<char>, chunks: Seq<ChunkSpan>, a: int, b: int, path: Option<Seq<char>>)
    requires
        spans_valid(src, chunks),
        a < b,
    ensures
        spans_valid(src, push_block_spec(src, chunks, a, b, path)),
{
    let r = push_block_spec(src, chunks, a, b, path);
    assert forall|i: int| 0 <= i < r.len() implies {
        let c = #[trigger] r[i];
        &&& c.0 < c.1
        &&& byte_slice(src, c.0, c.1) is Some
        &&& !all_ws(byte_slice(src, c.0, c.1)->0)
        &&& c.3 == Some(cl100k_tokens(byte_slice(src, c.0, c.1)->0).len() as int)
    } by {
        if i < chunks.len() {
            assert(r[i] == chunks[i]);
        }
    }
}

proof fn lemma_scan_valid(src: Seq<char>, events: Seq<(MdEvent, usize, usize)>)
    ensures
        spans_valid(src, scan_events(src, events).chunks),
    decreases events.len(),
{
    if events.len() > 0 {
        lemma_scan_valid(src, events.drop_last());
        let st = scan_events(src, events.drop_last());
        let (e, start, end) = events.last();
        let bs = if opens_block(e) && st.block_start is None {
            Some(start as int)
        } else {
            st.block_start
        };
        let hb = if st.stack.len() > 0 && (e is Text || e is Code) {
            st.heading_buf + event_text(e)
        } else {
            st.heading_buf
        };
        let path = if e is EndHeading {
            Some(join_titles(scan_stack(st, e, hb)))
        } else {
            st.path
        };
        match closed_span(st.last_end, bs, e, start as int) {
            Some((a, b)) => lemma_push_block_valid(src, st.chunks, a, b, path),
            None => {},
        }
    }
}

/// Every chunk that the Markdown chunker makes is a valid byte range of the source, in
/// order (start before end), whose text is not all whitespace, and its token count is
/// the number of tokens of that text.
pub proof fn law_markdown_chunks_are_blocks(src: Seq<char>, events: Seq<(MdEvent, usize, usize)>)
    ensures
        spans_valid(src, markdown_chunk_spans(src, events)),
{
    lemma_scan_valid(src, events);
    let st = scan_events(src, events);
    match st.block_start {
        Some(a) => if a < st.last_end {
            lemma_push_block_valid(src, st.chunks, a, st.last_end, st.path);
        },
        None => {},
    }
}


/// How many bytes of a heading path are shown in full.
pub const HEADING_LENGTH_CUTOFF: usize = 70;

/// The characters that end a heading path shown shortened: from the last character
/// boundary at or before `cut` bytes.
pub open spec fn boundary_at_or_before(s: Seq<char>, cut: int) -> int
    decreases s.len(),
{
    if s.len() == 0 || crate::text::byte_offset(s, s.len() as int) <= cut {
        s.len() as int
    } else {
        boundary_at_or_before(s.drop_last(), cut)
    }
}

/// A heading path as a listing shows it: in full up to the cutoff, else its last part
/// (from a character boundary at most the cutoff from the end) after `...`, closed by `.`.
pub open spec fn heading_display(h: Seq<char>) -> Seq<char> {
    let n = crate::text::utf8_len(h);
    if n <= HEADING_LENGTH_CUTOFF {
        h
    } else {
        "..."@ + h.skip(boundary_at_or_before(h, n - HEADING_LENGTH_CUTOFF)) + "."@
    }
}

/// The heading path `h` as a chunk listing shows it.
pub fn heading_for_display(h: &str) -> (r: String)
    ensures
        r@ == heading_display(h@),
{
    let (v, n) = crate::text::chars_and_len(h);
    if n <= HEADING_LENGTH_CUTOFF {
        return h.to_owned();
    }
    let cut = n - HEADING_LENGTH_CUTOFF;
    let offs = crate::text::char_offsets(&v);
    let mut k = v.len();
    proof {
        assert(v@.take(k as int) =~= v@);
    }
    while k > 0 && offs[k] > cut
        invariant
            k <= v.len(),
            v@ == h@,
            offs.len() == v.len() + 1,
            forall|i: int| 0 <= i <= v.len() ==> offs[i] == crate::text::byte_offset(h@, i),
            boundary_at_or_before(h@, cut as int) == boundary_at_or_before(h@.take(k as int), cut as int),
        decreases k,
    {
        proof {
            let t = h@.take(k as int);
            assert(t.take(k as int) =~= t);
            assert(crate::text::byte_offset(t, k as int) == crate::text::byte_offset(h@, k as int));
            assert(t.drop_last() =~= h@.take(k - 1));
        }
        k = k - 1;
    }
    proof {
        let t = h@.take(k as int);
        assert(t.take(k as int) =~= t);
        if k == 0 {
            assert(t.len() == 0);
        } else {
            assert(crate::text::byte_offset(t, k as int) == crate::text::byte_offset(h@, k as int));
        }
    }
    let mut r = String::from_str("...");
    let tail = crate::text::string_of_range(&v, k, v.len());
    push_str(&mut r, tail.as_str());
    push_str(&mut r, ".");
    proof {
        crate::text::lemma_str_len(h);
        assert(h@.subrange(k as int, h@.len() as int) =~= h@.skip(k as int));
    }
    r
}

/// The heading levels on a stack strictly increase from the outermost heading inwards.
pub open spec fn levels_increase(stack: Seq<(u32, Seq<char>)>) -> bool {
    forall|i: int, j: int| 0 <= i < j < stack.len() ==> stack[i].0 < stack[j].0
}

/// A heading of level `level` closes every open heading of that level or deeper and no
/// other: what stays of the stack is the part before the first such heading, every heading
/// kept is strictly shallower than `level`, and with the new heading on top the levels
/// still strictly increase. So a sibling heading replaces its sibling, and the path under a
/// heading lists its strictly shallower ancestors and then itself.
pub proof fn law_heading_closes_deeper(stack: Seq<(u32, Seq<char>)>, level: u32)
    requires
        levels_increase(stack),
    ensures
        pop_levels(stack, level) =~= stack.take(pop_levels(stack, level).len() as int),
        pop_levels(stack, level).len() <= stack.len(),
        forall|i: int| 0 <= i < pop_levels(stack, level).len() ==> (#[trigger] pop_levels(stack, level)[i]).0 < level,
        forall|i: int| pop_levels(stack, level).len() <= i < stack.len() ==> (#[trigger] stack[i]).0 >= level,
        levels_increase(pop_levels(stack, level).push((level, Seq::empty()))),
        pop_levels(stack, level).push((level, Seq::empty())).last() == (level, Seq::<char>::empty()),
    decreases stack.len(),
{
    if stack.len() > 0 && stack.last().0 >= level {
        let d = stack.drop_last();
        assert(levels_increase(d));
        law_heading_closes_deeper(d, level);
        let p = pop_levels(d, level);
        assert(pop_levels(stack, level) == p);
        assert forall|i: int| p.len() <= i < stack.len() implies (#[trigger] stack[i]).0 >= level by {
            if i < d.len() {
                assert(d[i] == stack[i]);
            }
        }
        assert(p =~= stack.take(p.len() as int)) by {
            assert(d.take(p.len() as int) =~= stack.take(p.len() as int));
        }
    } else {
        assert(pop_levels(stack, level) == stack);
        assert(stack.take(stack.len() as int) =~= stack);
        if stack.len() > 0 {
            assert forall|i: int| 0 <= i < stack.len() implies (#[trigger] stack[i]).0 < level by {
                if i < stack.len() - 1 {
                    assert(stack[i].0 < stack[stack.len() - 1].0);
                }
            }
        }
    }
    let p = pop_levels(stack, level);
    let q = p.push((level, Seq::<char>::empty()));
    assert forall|i: int, j: int| 0 <= i < j < q.len() implies q[i].0 < q[j].0 by {
        if j < p.len() {
            assert(p[i] == stack[i] && p[j] == stack[j]);
        } else {
            assert(q[i] == p[i]);
        }
    }
}

/// Throughout a scan the heading stack has strictly increasing levels.
pub proof fn law_scan_levels_increase(src: Seq<char>, events: Seq<(MdEvent, usize, usize)>)
    ensures
        levels_increase(scan_events(src, events).stack),
    decreases events.len(),
{
    if events.len() > 0 {
        let prev = scan_events(src, events.drop_last());
        law_scan_levels_increase(src, events.drop_last());
        let (e, start, end) = events.last();
        match e {
            MdEvent::StartHeading(level) => {
                law_heading_closes_deeper(prev.stack, level);
            },
            MdEvent::EndHeading(_) => {
                let st = scan_events(src, events).stack;
                assert(st.len() == prev.stack.len());
                assert forall|i: int, j: int| 0 <= i < j < st.len() implies st[i].0 < st[j].0 by {
                    assert(st[i].0 == prev.stack[i].0 && st[j].0 == prev.stack[j].0);
                }
            },
            _ => {},
        }
    }
}

} // verus!

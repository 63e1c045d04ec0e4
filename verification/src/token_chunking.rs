use vstd::prelude::*;

use crate::markdown::{cl100k_decode, cl100k_encodes, cl100k_tokens, encode_error_of, markdown_events, parse_markdown, Cl100k, MdEvent};
use crate::md_chunker::{pop_levels, push_heading, set_last_title, stack_view};
use crate::text::{
    byte_offset, char_offsets, char_width, chars_and_len, ends_with_char, is_whitespace, is_ws,
    lemma_byte_offset_mono, lemma_utf8_len_concat, push_char, push_str, string_ends_with, string_is_empty, string_of_range,
    trim, trim_start, trim_start_string, trim_string, utf8_len, utf8_width,
};

verus! {

/// A chunk as the token-bounded chunker sees it.
#[verifier::ext_equal]
pub struct TokChunk {
    pub index: int,
    pub text: Seq<char>,
    pub tokens: int,
    pub path: Seq<char>,
}

/// What the token-bounded chunker has gathered so far.
#[verifier::ext_equal]
pub struct TokState {
    /// Chunks made so far.
    pub chunks: Seq<TokChunk>,
    /// Text of the chunk being filled.
    pub text: Seq<char>,
    /// Tokens counted for the chunk being filled.
    pub tokens: int,
    /// Text of the block being read.
    pub buf: Seq<char>,
    /// Open headings, outermost first: level and title.
    pub stack: Seq<(u32, Seq<char>)>,
    /// Heading path in force.
    pub path: Seq<char>,
    /// Index the next chunk gets.
    pub index: int,
    /// Text of the last chunk made.
    pub last: Option<Seq<char>>,
}

/// Why token-bounded chunking stops.
pub enum TokError {
    /// Decoding tokens failed, with this message.
    Token(Seq<char>),
    /// A split point fell inside a multi-byte whitespace character.
    Split,
    /// Encoding a text failed, with the encoder's message.
    Encode(Seq<char>),
}

/// Whether an overlap text is counted without failing: it is empty (not counted) or
/// encodes.
pub open spec fn overlap_counts(o: Seq<char>) -> bool {
    o.len() == 0 || cl100k_encodes(o)
}

/// The chunk state with overlap `o`, once `o` is counted.
pub open spec fn with_overlap_checked(st: TokState, o: Seq<char>, max: int) -> Result<TokState, TokError> {
    if overlap_counts(o) {
        Ok(with_overlap(st, o, max))
    } else {
        Err(TokError::Encode(encode_error_of(o)))
    }
}

pub open spec fn initial_tok_state() -> TokState {
    TokState {
        chunks: Seq::empty(),
        text: Seq::empty(),
        tokens: 0,
        buf: Seq::empty(),
        stack: Seq::empty(),
        path: Seq::empty(),
        index: 0,
        last: None,
    }
}

pub open spec fn ntok(s: Seq<char>) -> int {
    cl100k_tokens(s).len() as int
}

pub open spec fn sat_add(a: int, b: int) -> int {
    if a + b > usize::MAX {
        usize::MAX as int
    } else {
        a + b
    }
}

/// The text with which a chunk following `last` starts: the decoded last `k` tokens of
/// `last`, trimmed, or all of `last` when it has no more than `k` tokens.
pub open spec fn overlap_text(last: Seq<char>, k: int) -> Result<Seq<char>, TokError> {
    let toks = cl100k_tokens(last);
    if k == 0 || last.len() == 0 {
        Ok(Seq::empty())
    } else if !cl100k_encodes(last) {
        Err(TokError::Encode(encode_error_of(last)))
    } else if toks.len() == 0 {
        Ok(Seq::empty())
    } else if toks.len() <= k {
        Ok(last)
    } else {
        match cl100k_decode(toks.subrange(toks.len() - k, toks.len() as int)) {
            Ok(s) => Ok(trim(s)),
            Err(m) => Err(TokError::Token("Token decoding failed: "@ + m)),
        }
    }
}

/// The current chunk begins with overlap `o` unless `o` is empty or holds `max` tokens
/// or more.
pub open spec fn with_overlap(st: TokState, o: Seq<char>, max: int) -> TokState {
    if o.len() > 0 && ntok(o) < max {
        TokState {
            text: st.text + o + (if ends_with_char(o, '\n') || ends_with_char(o, ' ') {
                Seq::empty()
            } else {
                seq!['\n']
            }),
            tokens: ntok(o),
            ..st
        }
    } else {
        st
    }
}

pub open spec fn push_chunk(st: TokState, t: Seq<char>, tokens: int, path: Seq<char>) -> TokState {
    TokState {
        chunks: st.chunks.push(TokChunk { index: st.index, text: t, tokens, path }),
        index: st.index + 1,
        last: Some(t),
        ..st
    }
}

/// Closes the current chunk, if it counts tokens and holds text, and empties it.
pub open spec fn emit(st: TokState, path: Seq<char>) -> TokState {
    let t = trim(st.text);
    let st2 = if st.tokens > 0 && t.len() > 0 {
        push_chunk(st, t, st.tokens, path)
    } else {
        st
    };
    TokState { text: Seq::empty(), tokens: 0, ..st2 }
}

/// Closes the current chunk, however many tokens it has, and empties it.
pub open spec fn emit_oversized(st: TokState, path: Seq<char>) -> TokState {
    let t = trim(st.text);
    let st2 = if t.len() > 0 {
        push_chunk(st, t, st.tokens, path)
    } else {
        st
    };
    TokState { text: Seq::empty(), tokens: 0, ..st2 }
}

/// The overlap that a new chunk takes from the last chunk made.
pub open spec fn next_overlap(st: TokState, k: int) -> Result<Seq<char>, TokError> {
    if k > 0 {
        match st.last {
            Some(l) => overlap_text(l, k),
            None => Ok(Seq::empty()),
        }
    } else {
        Ok(Seq::empty())
    }
}

/// Characters wanted to fill a chunk that has room for `max - tokens` more tokens,
/// taking four characters a token.
pub open spec fn target_chars(max: int, tokens: int) -> int {
    let room = if tokens <= max {
        max - tokens
    } else {
        0
    };
    if room == 0 {
        1
    } else if room * 4 > usize::MAX {
        usize::MAX as int
    } else {
        room * 4
    }
}

/// The first character at index `k` or later (but before the end) whose byte offset
/// reaches `target`, or the end.
pub open spec fn find_from(rem: Seq<char>, target: int, k: int) -> int
    decreases rem.len() - k,
{
    if k >= rem.len() {
        rem.len() as int
    } else if byte_offset(rem, k) >= target {
        k
    } else {
        find_from(rem, target, k + 1)
    }
}

/// The last whitespace character before character `b`.
pub open spec fn last_ws_before(rem: Seq<char>, b: int) -> Option<int>
    decreases b,
{
    if b <= 0 {
        None
    } else if is_ws(rem[b - 1]) {
        Some(b - 1)
    } else {
        last_ws_before(rem, b - 1)
    }
}

/// Where the next segment of `rem` ends (in characters): near `target` bytes, moved back
/// past a whitespace character when one is close. `None` when that character is wider
/// than one byte, so that the byte after its start is no character boundary.
pub open spec fn seg_end(rem: Seq<char>, target: int) -> Option<int> {
    let b = find_from(rem, target, 1);
    if b < rem.len() {
        match last_ws_before(rem, b) {
            Some(w) => if byte_offset(rem, b) - byte_offset(rem, w) < target / 4 {
                if utf8_width(rem[w]) == 1 {
                    Some(w + 1)
                } else {
                    None
                }
            } else {
                Some(b)
            },
            None => Some(b),
        }
    } else {
        Some(b)
    }
}

proof fn lemma_find_from(rem: Seq<char>, target: int, k: int)
    requires
        1 <= k,
        rem.len() >= 1,
    ensures
        k <= find_from(rem, target, k) <= rem.len() || (k > rem.len() && find_from(rem, target, k)
            == rem.len()),
        1 <= find_from(rem, target, k) <= rem.len(),
    decreases rem.len() - k,
{
    if k < rem.len() && byte_offset(rem, k) < target {
        lemma_find_from(rem, target, k + 1);
    }
}

proof fn lemma_last_ws_before(rem: Seq<char>, b: int)
    ensures
        last_ws_before(rem, b) matches Some(w) ==> 0 <= w < b && is_ws(rem[w]),
    decreases b,
{
    if b > 0 && !is_ws(rem[b - 1]) {
        lemma_last_ws_before(rem, b - 1);
    }
}

pub proof fn lemma_seg_end(rem: Seq<char>, target: int)
    requires
        rem.len() >= 1,
    ensures
        seg_end(rem, target) matches Some(e) ==> 1 <= e <= rem.len(),
{
    lemma_find_from(rem, target, 1);
    lemma_last_ws_before(rem, find_from(rem, target, 1));
}

/// Feeds the characters of block `b` from `pos` on into chunks of at most `max` tokens
/// where segments allow, with `k` tokens of overlap.
pub open spec fn split_from(
    b: Seq<char>,
    pos: int,
    st: TokState,
    path: Seq<char>,
    max: int,
    k: int,
) -> Result<TokState, TokError>
    decreases b.len() - pos,
{
    if pos < 0 || pos >= b.len() {
        Ok(st)
    } else {
        let rem = b.subrange(pos, b.len() as int);
        let target = target_chars(max, st.tokens);
        proof {
            lemma_seg_end(rem, target);
        }
        match seg_end(rem, target) {
            None => Err(TokError::Split),
            Some(e) => {
                let seg = rem.subrange(0, e);
                let stoks = ntok(seg);
                if !cl100k_encodes(seg) {
                    Err(TokError::Encode(encode_error_of(seg)))
                } else if st.tokens + stoks <= max {
                    split_from(
                        b,
                        pos + e,
                        TokState { text: st.text + seg, tokens: st.tokens + stoks, ..st },
                        path,
                        max,
                        k,
                    )
                } else {
                    let s1 = emit(st, path);
                    match next_overlap(s1, k) {
                        Err(er) => Err(er),
                        Ok(o) => if !overlap_counts(o) {
                            Err(TokError::Encode(encode_error_of(o)))
                        } else {
                            let s2 = with_overlap(s1, o, max);
                            if s2.tokens + stoks <= max {
                                split_from(
                                    b,
                                    pos + e,
                                    TokState { text: s2.text + seg, tokens: s2.tokens + stoks, ..s2 },
                                    path,
                                    max,
                                    k,
                                )
                            } else {
                                let s3 = TokState {
                                    text: s2.text + seg,
                                    tokens: sat_add(s2.tokens, stoks),
                                    ..s2
                                };
                                split_from(b, pos + e, emit_oversized(s3, path), path, max, k)
                            }
                        },
                    }
                }
            },
        }
    }
}

/// Handles a block too large for the current chunk: starts with overlap `o`, then
/// splits the block into segments.
pub open spec fn split_block(
    b: Seq<char>,
    o: Seq<char>,
    st: TokState,
    path: Seq<char>,
    max: int,
    k: int,
) -> Result<TokState, TokError> {
    match with_overlap_checked(st, o, max) {
        Ok(s) => split_from(b, 0, s, path, max, k),
        Err(e) => Err(e),
    }
}

/// Whether a block of `bt` tokens is tried in the current chunk.
pub open spec fn may_fit(st: TokState, bt: int, max: int) -> bool {
    st.tokens == 0 || st.tokens + bt <= max
}

/// The state after the overlap that a block tried in an empty chunk brings.
pub open spec fn prefit(st: TokState, bt: int, max: int, k: int) -> Result<TokState, TokError> {
    if may_fit(st, bt, max) && st.tokens == 0 && k > 0 && st.last is Some {
        match overlap_text(st.last->0, k) {
            Ok(o) => with_overlap_checked(st, o, max),
            Err(e) => Err(e),
        }
    } else {
        Ok(st)
    }
}

/// Moves the pending block into chunks, under heading path `path`.
pub open spec fn finalize(st: TokState, path: Seq<char>, max: int, k: int) -> Result<TokState, TokError> {
    if st.buf.len() == 0 {
        Ok(st)
    } else {
        let block = trim_start(st.buf);
        if block.len() == 0 {
            Ok(TokState { buf: Seq::empty(), ..st })
        } else if !cl100k_encodes(block) {
            Err(TokError::Encode(encode_error_of(block)))
        } else {
            let bt = ntok(block);
            match prefit(st, bt, max, k) {
                Err(e) => Err(e),
                Ok(s1) => if may_fit(st, bt, max) && s1.tokens + bt <= max {
                    Ok(TokState { text: s1.text + block, tokens: s1.tokens + bt, buf: Seq::empty(), ..s1 })
                } else {
                    let s2 = emit(s1, path);
                    match next_overlap(s2, k) {
                        Err(e) => Err(e),
                        Ok(o) => match split_block(block, o, s2, path, max, k) {
                            Err(e) => Err(e),
                            Ok(s3) => Ok(TokState { buf: Seq::empty(), ..s3 }),
                        },
                    }
                },
            }
        }
    }
}

/// Titles of the heading stack that are not empty, separated by `" > "`.
pub open spec fn heading_path(stack: Seq<(u32, Seq<char>)>) -> Seq<char>
    decreases stack.len(),
{
    if stack.len() == 0 {
        Seq::empty()
    } else {
        let prev = heading_path(stack.drop_last());
        let t = stack.last().1;
        if t.len() == 0 {
            prev
        } else if prev.len() == 0 {
            t
        } else {
            prev + seq![' ', '>', ' '] + t
        }
    }
}

pub open spec fn ends_with_two_newlines(s: Seq<char>) -> bool {
    s.len() >= 2 && s[s.len() - 1] == '\n' && s[s.len() - 2] == '\n'
}

/// Adds a newline to a non-empty buffer that does not end with one.
pub open spec fn newline_before(buf: Seq<char>) -> Seq<char> {
    if buf.len() > 0 && !ends_with_char(buf, '\n') {
        buf.push('\n')
    } else {
        buf
    }
}

/// The buffer once a paragraph, item, code block or list ends.
pub open spec fn close_buf(buf: Seq<char>, code: bool) -> Seq<char> {
    if code {
        buf + seq!['`', '`', '`', '\n']
    } else if buf.len() > 0 && !ends_with_two_newlines(buf) {
        newline_before(buf).push('\n')
    } else {
        buf
    }
}

pub open spec fn then_clear(r: Result<TokState, TokError>) -> Result<TokState, TokError> {
    match r {
        Ok(s) => Ok(TokState { buf: Seq::empty(), ..s }),
        Err(e) => Err(e),
    }
}

/// One parser event. A heading closes the chunk being filled, so that sections start
/// new chunks.
pub open spec fn tok_step(st: TokState, e: MdEvent, max: int, k: int) -> Result<TokState, TokError> {
    match e {
        MdEvent::StartHeading(level) => match finalize(st, st.path, max, k) {
            Ok(s) => {
                let s2 = emit(s, s.path);
                Ok(TokState { stack: pop_levels(s2.stack, level).push((level, Seq::empty())), ..s2 })
            },
            Err(x) => Err(x),
        },
        MdEvent::StartCodeBlock(lang) => match finalize(st, st.path, max, k) {
            Ok(s) => Ok(TokState { buf: s.buf + seq!['\n', '`', '`', '`'] + lang@ + seq!['\n'], ..s }),
            Err(x) => Err(x),
        },
        MdEvent::StartList => match finalize(st, st.path, max, k) {
            Ok(s) => Ok(TokState { buf: newline_before(s.buf), ..s }),
            Err(x) => Err(x),
        },
        MdEvent::StartItem => Ok(TokState { buf: newline_before(st.buf), ..st }),
        MdEvent::EndHeading(_) => {
            let stack = if st.stack.len() > 0 {
                st.stack.update(st.stack.len() - 1, (st.stack.last().0, trim(st.buf)))
            } else {
                st.stack
            };
            let path = heading_path(stack);
            then_clear(finalize(TokState { stack, path, ..st }, path, max, k))
        },
        MdEvent::EndParagraph | MdEvent::EndItem | MdEvent::EndList => then_clear(
            finalize(TokState { buf: close_buf(st.buf, false), ..st }, st.path, max, k),
        ),
        MdEvent::EndCodeBlock => then_clear(
            finalize(TokState { buf: close_buf(st.buf, true), ..st }, st.path, max, k),
        ),
        MdEvent::Text(t) => Ok(TokState { buf: st.buf + t@, ..st }),
        MdEvent::Code(t) => Ok(TokState { buf: st.buf + seq!['`'] + t@ + seq!['`'], ..st }),
        MdEvent::HardBreak => Ok(
            if ends_with_char(st.buf, ' ') || ends_with_char(st.buf, '\n') {
                st
            } else {
                TokState { buf: st.buf.push('\n'), ..st }
            },
        ),
        MdEvent::SoftBreak => Ok(
            if ends_with_char(st.buf, ' ') || ends_with_char(st.buf, '\n') {
                st
            } else {
                TokState { buf: st.buf.push(' '), ..st }
            },
        ),
        MdEvent::Rule => then_clear(finalize(st, st.path, max, k)),
        _ => Ok(st),
    }
}

pub open spec fn tok_events(events: Seq<(MdEvent, usize, usize)>, max: int, k: int) -> Result<TokState, TokError>
    decreases events.len(),
{
    if events.len() == 0 {
        Ok(initial_tok_state())
    } else {
        match tok_events(events.drop_last(), max, k) {
            Ok(s) => tok_step(s, events.last().0, max, k),
            Err(e) => Err(e),
        }
    }
}

/// The chunks once every event is read: the pending block is moved into chunks, then the
/// current chunk closes if it has text that counts tokens.
pub open spec fn tok_finish(st: TokState, max: int, k: int) -> Result<Seq<TokChunk>, TokError> {
    match finalize(st, st.path, max, k) {
        Err(e) => Err(e),
        Ok(s) => if s.text.len() > 0 && !cl100k_encodes(s.text) {
            Err(TokError::Encode(encode_error_of(s.text)))
        } else if s.text.len() > 0 && ntok(s.text) > 0 {
            Ok(s.chunks.push(TokChunk { index: s.index, text: trim(s.text), tokens: ntok(s.text), path: s.path }))
        } else {
            Ok(s.chunks)
        },
    }
}

/// The chunks of a Markdown text with parser events `events`, at most `max` tokens a chunk
/// where blocks allow, with `k` tokens of overlap.
pub open spec fn token_chunks(events: Seq<(MdEvent, usize, usize)>, max: int, k: int) -> Result<Seq<TokChunk>, TokError> {
    match tok_events(events, max, k) {
        Err(e) => Err(e),
        Ok(s) => tok_finish(s, max, k),
    }
}


/// Chunks are numbered from 0 in the order made, and each holds text.
pub open spec fn numbered(st: TokState) -> bool {
    &&& st.index == st.chunks.len()
    &&& forall|i: int|
        0 <= i < st.chunks.len() ==> (#[trigger] st.chunks[i]).index == i && st.chunks[i].text.len() > 0
}

proof fn lemma_emit_numbered(st: TokState, path: Seq<char>)
    requires
        numbered(st),
    ensures
        numbered(emit(st, path)),
        numbered(emit_oversized(st, path)),
{
    let t = trim(st.text);
    if t.len() > 0 {
        let p = push_chunk(st, t, st.tokens, path);
        assert forall|i: int| 0 <= i < p.chunks.len() implies (#[trigger] p.chunks[i]).index == i
            && p.chunks[i].text.len() > 0 by {
            if i < st.chunks.len() {
                assert(p.chunks[i] == st.chunks[i]);
            }
        }
    }
}

proof fn lemma_split_numbered(b: Seq<char>, pos: int, st: TokState, path: Seq<char>, max: int, k: int)
    requires
        numbered(st),
    ensures
        split_from(b, pos, st, path, max, k) matches Ok(s) ==> numbered(s),
    decreases b.len() - pos,
{
    if 0 <= pos < b.len() {
        let rem = b.subrange(pos, b.len() as int);
        let target = target_chars(max, st.tokens);
        lemma_seg_end(rem, target);
        match seg_end(rem, target) {
            None => {},
            Some(e) => {
                let seg = rem.subrange(0, e);
                let stoks = ntok(seg);
                if st.tokens + stoks <= max {
                    lemma_split_numbered(b, pos + e, TokState { text: st.text + seg, tokens: st.tokens + stoks, ..st }, path, max, k);
                } else {
                    let s1 = emit(st, path);
                    lemma_emit_numbered(st, path);
                    match next_overlap(s1, k) {
                        Err(er) => {},
                        Ok(o) => {
                            let s2 = with_overlap(s1, o, max);
                            if s2.tokens + stoks <= max {
                                lemma_split_numbered(b, pos + e, TokState { text: s2.text + seg, tokens: s2.tokens + stoks, ..s2 }, path, max, k);
                            } else {
                                let s3 = TokState { text: s2.text + seg, tokens: sat_add(s2.tokens, stoks), ..s2 };
                                lemma_emit_numbered(s3, path);
                                lemma_split_numbered(b, pos + e, emit_oversized(s3, path), path, max, k);
                            }
                        },
                    }
                }
            },
        }
    }
}

proof fn lemma_finalize_numbered(st: TokState, path: Seq<char>, max: int, k: int)
    requires
        numbered(st),
    ensures
        finalize(st, path, max, k) matches Ok(s) ==> numbered(s),
{
    if st.buf.len() > 0 {
        let block = trim_start(st.buf);
        if block.len() > 0 {
            let bt = ntok(block);
            match prefit(st, bt, max, k) {
                Err(e) => {},
                Ok(s1) => {
                    if !(may_fit(st, bt, max) && s1.tokens + bt <= max) {
                        let s2 = emit(s1, path);
                        lemma_emit_numbered(s1, path);
                        match next_overlap(s2, k) {
                            Err(e) => {},
                            Ok(o) => lemma_split_numbered(block, 0, with_overlap(s2, o, max), path, max, k),
                        }
                    }
                },
            }
        }
    }
}

proof fn lemma_events_numbered(events: Seq<(MdEvent, usize, usize)>, max: int, k: int)
    ensures
        tok_events(events, max, k) matches Ok(s) ==> numbered(s),
    decreases events.len(),
{
    if events.len() > 0 {
        lemma_events_numbered(events.drop_last(), max, k);
        match tok_events(events.drop_last(), max, k) {
            Ok(st) => {
                let e = events.last().0;
                match e {
                    MdEvent::EndHeading(_) => {
                        let stack = if st.stack.len() > 0 {
                            st.stack.update(st.stack.len() - 1, (st.stack.last().0, trim(st.buf)))
                        } else {
                            st.stack
                        };
                        let path = heading_path(stack);
                        lemma_finalize_numbered(TokState { stack, path, ..st }, path, max, k);
                    },
                    MdEvent::EndParagraph | MdEvent::EndItem | MdEvent::EndList => {
                        lemma_finalize_numbered(TokState { buf: close_buf(st.buf, false), ..st }, st.path, max, k);
                    },
                    MdEvent::EndCodeBlock => {
                        lemma_finalize_numbered(TokState { buf: close_buf(st.buf, true), ..st }, st.path, max, k);
                    },
                    _ => {
                        lemma_finalize_numbered(st, st.path, max, k);
                        match finalize(st, st.path, max, k) {
                            Ok(s) => lemma_emit_numbered(s, s.path),
                            Err(_) => {},
                        }
                    },
                }
            },
            Err(_) => {},
        }
    }
}

/// The chunks of the token-bounded chunker are numbered 0, 1, 2, ... in order, and every
/// chunk but the last holds text.
pub proof fn law_token_chunks_numbered(events: Seq<(MdEvent, usize, usize)>, max: int, k: int)
    ensures
        token_chunks(events, max, k) matches Ok(cs) ==> {
            &&& forall|i: int| 0 <= i < cs.len() ==> (#[trigger] cs[i]).index == i
            &&& forall|i: int| 0 <= i < cs.len() - 1 ==> (#[trigger] cs[i]).text.len() > 0
        },
{
    lemma_events_numbered(events, max, k);
    match tok_events(events, max, k) {
        Ok(st) => {
            lemma_finalize_numbered(st, st.path, max, k);
            match finalize(st, st.path, max, k) {
                Ok(s) => {
                    if s.text.len() > 0 && ntok(s.text) > 0 {
                        let cs = s.chunks.push(TokChunk { index: s.index, text: trim(s.text), tokens: ntok(s.text), path: s.path });
                        assert forall|i: int| 0 <= i < cs.len() implies (#[trigger] cs[i]).index == i by {
                            if i < s.chunks.len() {
                                assert(cs[i] == s.chunks[i]);
                            }
                        }
                        assert forall|i: int| 0 <= i < cs.len() - 1 implies (#[trigger] cs[i]).text.len() > 0 by {
                            assert(cs[i] == s.chunks[i]);
                        }
                    }
                },
                Err(_) => {},
            }
        },
        Err(_) => {},
    }
}

#[verifier::external_type_specification]
#[verifier::external_body]
pub struct ExIoError(std::io::Error);

/// Limits of the token-bounded chunker.
#[derive(Debug, Clone)]
pub struct ChunkerConfig {
    /// Most tokens a chunk should hold.
    pub max_tokens: usize,
    /// Tokens of the previous chunk repeated at the start of the next.
    pub token_overlap: usize,
}

impl Default for ChunkerConfig {
    fn default() -> (r: Self)
        ensures
            r.max_tokens == 512,
            r.token_overlap == 50,
    {
        ChunkerConfig { max_tokens: 512, token_overlap: 50 }
    }
}

/// A chunk of a Markdown document.
#[derive(Debug, Clone)]
pub struct Chunk {
    pub source_id: String,
    pub chunk_index: usize,
    pub chunk_text: String,
    pub token_count: usize,
    pub heading_path: String,
}

/// Errors of the token-bounded chunker.
#[derive(Debug)]
pub enum ChunkerError {
    TokenizationError(String),
    MarkdownParsing(String),
    Io(std::io::Error),
    Config(String),
}

/// Calls `Display` of `std::io::Error`. Nothing is claimed of the text.
#[verifier::external_body]
fn io_error_text(e: &std::io::Error) -> String {
    e.to_string()
}

impl ChunkerError {
    /// The human-readable description of the error.
    pub fn message(&self) -> (r: String)
        ensures
            self matches ChunkerError::TokenizationError(m) ==> r@ == "Tokenization operation failed: "@ + m@,
            self matches ChunkerError::MarkdownParsing(m) ==> r@ == "Markdown parsing issue: "@ + m@,
            self matches ChunkerError::Config(m) ==> r@ == "Configuration error: "@ + m@,
            self is Io ==> "I/O error: "@.is_prefix_of(r@),
    {
        let (mut r, m) = match self {
            ChunkerError::TokenizationError(m) => (String::from_str("Tokenization operation failed: "), m.clone()),
            ChunkerError::MarkdownParsing(m) => (String::from_str("Markdown parsing issue: "), m.clone()),
            ChunkerError::Io(e) => (String::from_str("I/O error: "), io_error_text(e)),
            ChunkerError::Config(m) => (String::from_str("Configuration error: "), m.clone()),
        };
        let ghost head = r@;
        push_str(&mut r, m.as_str());
        assert(r@.subrange(0, head.len() as int) =~= head);
        r
    }
}

pub open spec fn split_message() -> Seq<char> {
    "Split point falls inside a multi-byte whitespace character"@
}

/// The error reported for a stop of the spec.
pub open spec fn error_is(e: ChunkerError, te: TokError) -> bool {
    match te {
        TokError::Token(m) => e matches ChunkerError::TokenizationError(x) && x@ == m,
        TokError::Split => e matches ChunkerError::MarkdownParsing(x) && x@ == split_message(),
        TokError::Encode(m) => e matches ChunkerError::TokenizationError(x) && x@ == m,
    }
}

pub open spec fn tok_chunk(c: Chunk) -> TokChunk {
    TokChunk {
        index: c.chunk_index as int,
        text: c.chunk_text@,
        tokens: c.token_count as int,
        path: c.heading_path@,
    }
}

pub open spec fn tok_chunks(v: Seq<Chunk>) -> Seq<TokChunk> {
    v.map_values(|c: Chunk| tok_chunk(c))
}

pub open spec fn all_from(v: Seq<Chunk>, sid: Seq<char>) -> bool {
    forall|i: int| 0 <= i < v.len() ==> (#[trigger] v[i]).source_id@ == sid
}

/// `a + b <= max`, without overflow.
fn fits(a: usize, b: usize, max: usize) -> (r: bool)
    ensures
        r == (a + b <= max),
{
    a <= max && b <= max - a
}

fn target_chars_exec(max: usize, tokens: usize) -> (r: usize)
    ensures
        r == target_chars(max as int, tokens as int),
{
    let room = if tokens <= max {
        max - tokens
    } else {
        0
    };
    if room == 0 {
        1
    } else if room > usize::MAX / 4 {
        assert(room * 4 > usize::MAX) by (nonlinear_arith)
            requires
                room > usize::MAX / 4,
        ;
        usize::MAX
    } else {
        assert(room * 4 <= usize::MAX) by (nonlinear_arith)
            requires
                room <= usize::MAX / 4,
        ;
        room * 4
    }
}

/// Byte offsets within a suffix are offsets within the whole, shifted.
proof fn lemma_byte_offset_suffix(b: Seq<char>, pos: int, j: int)
    requires
        0 <= pos <= b.len(),
        0 <= j <= b.len() - pos,
    ensures
        byte_offset(b.subrange(pos, b.len() as int), j) == byte_offset(b, pos + j) - byte_offset(b, pos),
{
    let rem = b.subrange(pos, b.len() as int);
    assert(b.take(pos + j) =~= b.take(pos) + rem.take(j));
    lemma_utf8_len_concat(b.take(pos), rem.take(j));
}

/// The text with which a chunk following `last` starts.
pub fn calculate_overlap_text(tok: &Cl100k, last: &str, k: usize) -> (r: Result<String, ChunkerError>)
    ensures
        match overlap_text(last@, k as int) {
            Ok(s) => r is Ok && r->Ok_0@ == s,
            Err(te) => r is Err && error_is(r->Err_0, te),
        },
{
    if k == 0 || string_is_empty(last) {
        return Ok(String::new());
    }
    let toks = match tok.encode(last) {
        Ok(t) => t,
        Err(m) => return Err(ChunkerError::TokenizationError(m)),
    };
    if toks.len() == 0 {
        return Ok(String::new());
    }
    if toks.len() <= k {
        return Ok(last.to_owned());
    }
    let mut tail: Vec<u32> = Vec::new();
    let mut i = toks.len() - k;
    while i < toks.len()
        invariant
            k < toks.len(),
            toks.len() - k <= i <= toks.len(),
            tail@ == toks@.subrange(toks.len() - k, i as int),
        decreases toks.len() - i,
    {
        tail.push(toks[i]);
        assert(toks@.subrange(toks.len() - k, i + 1) =~= toks@.subrange(toks.len() - k, i as int).push(toks@[i as int]));
        i = i + 1;
    }
    match tok.decode(tail.as_slice()) {
        Ok(text) => Ok(trim_string(text.as_str())),
        Err(m) => {
            let mut msg = String::from_str("Token decoding failed: ");
            push_str(&mut msg, m.as_str());
            Err(ChunkerError::TokenizationError(msg))
        },
    }
}

/// Where the next segment of `chars` from `pos` on ends, counted from `pos`.
fn segment_end(chars: &Vec<char>, offs: &Vec<usize>, pos: usize, target: usize) -> (r: Option<usize>)
    requires
        pos < chars.len(),
        offs.len() == chars.len() + 1,
        forall|i: int| 0 <= i <= chars.len() ==> offs[i] == byte_offset(chars@, i),
    ensures
        match seg_end(chars@.subrange(pos as int, chars.len() as int), target as int) {
            Some(e) => r == Some(e as usize),
            None => r is None,
        },
{
    let ghost b = chars@;
    let n = chars.len();
    let ghost rem = b.subrange(pos as int, n as int);
    proof {
        lemma_seg_end(rem, target as int);
        assert forall|j: int| pos <= j <= n implies offs[pos as int] <= #[trigger] offs[j] by {
            lemma_byte_offset_mono(b, pos as int, j);
        }
    }
    let mut bnd: usize = 1;
    while bnd < n - pos && offs[pos + bnd] - offs[pos] < target
        invariant
            1 <= bnd <= n - pos,
            pos < n,
            b == chars@,
            b.len() == n,
            rem == b.subrange(pos as int, n as int),
            offs.len() == n + 1,
            forall|i: int| 0 <= i <= n ==> offs[i] == byte_offset(b, i),
            forall|j: int| pos <= j <= n ==> offs[pos as int] <= #[trigger] offs[j],
            find_from(rem, target as int, 1) == find_from(rem, target as int, bnd as int),
        decreases n - pos - bnd,
    {
        proof {
            lemma_byte_offset_suffix(b, pos as int, bnd as int);
        }
        bnd = bnd + 1;
    }
    proof {
        if bnd < n - pos {
            lemma_byte_offset_suffix(b, pos as int, bnd as int);
        }
    }
    assert(find_from(rem, target as int, 1) == bnd as int);
    if bnd < n - pos {
        let mut w = bnd;
        while w > 0 && !is_whitespace(chars[pos + w - 1])
            invariant
                w <= bnd < n - pos,
                b == chars@,
                n == chars.len(),
                rem == b.subrange(pos as int, n as int),
                last_ws_before(rem, bnd as int) == last_ws_before(rem, w as int),
            decreases w,
        {
            w = w - 1;
        }
        if w > 0 {
            let wi = w - 1;
            proof {
                lemma_byte_offset_suffix(b, pos as int, bnd as int);
                lemma_byte_offset_suffix(b, pos as int, wi as int);
                lemma_byte_offset_mono(b, pos + wi, pos + bnd);
            }
            assert(last_ws_before(rem, bnd as int) == Some(wi as int));
            if offs[pos + bnd] - offs[pos + wi] < target / 4 {
                if char_width(chars[pos + wi]) == 1 {
                    return Some(wi + 1);
                } else {
                    return None;
                }
            }
        } else {
            assert(last_ws_before(rem, bnd as int) is None);
        }
    }
    Some(bnd)
}

struct TokAcc {
    chunks: Vec<Chunk>,
    text: String,
    tokens: usize,
    buf: String,
    stack: Vec<(u32, String)>,
    path: String,
    index: usize,
    last: Option<String>,
}

impl TokAcc {
    spec fn view(&self) -> TokState {
        TokState {
            chunks: tok_chunks(self.chunks@),
            text: self.text@,
            tokens: self.tokens as int,
            buf: self.buf@,
            stack: stack_view(self.stack@),
            path: self.path@,
            index: self.index as int,
            last: match self.last {
                Some(l) => Some(l@),
                None => None,
            },
        }
    }

    spec fn wf(&self, sid: Seq<char>) -> bool {
        self.index == self.chunks.len() && all_from(self.chunks@, sid)
    }

    fn new() -> (r: Self)
        ensures
            r.view() == initial_tok_state(),
            forall|sid: Seq<char>| r.wf(sid),
    {
        let r = TokAcc {
            chunks: Vec::new(),
            text: String::new(),
            tokens: 0,
            buf: String::new(),
            stack: Vec::new(),
            path: String::new(),
            index: 0,
            last: None,
        };
        assert(r.view() =~= initial_tok_state());
        r
    }

    fn with_overlap_exec(&mut self, tok: &Cl100k, o: &str, max: usize) -> (r: Result<(), ChunkerError>)
        ensures
            r is Ok ==> final(self).view() == with_overlap(old(self).view(), o@, max as int),
            r is Err ==> error_is(r->Err_0, TokError::Encode(encode_error_of(o@))) && *final(self) == *old(self),
            r is Err <==> o@.len() > 0 && !cl100k_encodes(o@),
            final(self).chunks == old(self).chunks,
            final(self).index == old(self).index,
            final(self).path == old(self).path,
    {
        if !string_is_empty(o) {
            let ot = match tok.count_tokens(o) {
                Ok(n) => n,
                Err(m) => return Err(ChunkerError::TokenizationError(m)),
            };
            if ot < max {
                push_str(&mut self.text, o);
                if !string_ends_with(o, '\n') && !string_ends_with(o, ' ') {
                    push_char(&mut self.text, '\n');
                }
                self.tokens = ot;
            }
        }
        assert(self.view() =~= with_overlap(old(self).view(), o@, max as int));
        Ok(())
    }

    fn push_chunk_exec(&mut self, t: String, tokens: usize, sid: &str)
        requires
            old(self).wf(sid@),
        ensures
            final(self).view() == push_chunk(old(self).view(), t@, tokens as int, old(self).path@),
            final(self).wf(sid@),
    {
        let c = Chunk {
            source_id: sid.to_owned(),
            chunk_index: self.index,
            chunk_text: t.clone(),
            token_count: tokens,
            heading_path: self.path.clone(),
        };
        self.chunks.push(c);
        self.index = self.chunks.len();
        self.last = Some(t);
        assert(tok_chunks(self.chunks@) =~= tok_chunks(old(self).chunks@).push(tok_chunk(c)));
        assert(self.view() =~= push_chunk(old(self).view(), t@, tokens as int, old(self).path@));
    }

    fn emit_exec(&mut self, sid: &str, oversized: bool)
        requires
            old(self).wf(sid@),
        ensures
            final(self).view() == (if oversized {
                emit_oversized(old(self).view(), old(self).path@)
            } else {
                emit(old(self).view(), old(self).path@)
            }),
            final(self).wf(sid@),
    {
        let t = trim_string(self.text.as_str());
        if (oversized || self.tokens > 0) && !string_is_empty(t.as_str()) {
            let tokens = self.tokens;
            self.push_chunk_exec(t, tokens, sid);
        }
        self.text = String::new();
        self.tokens = 0;
        proof {
            let v = old(self).view();
            let e = if oversized { emit_oversized(v, v.path) } else { emit(v, v.path) };
            assert(self.view() =~= e);
        }
    }

    fn next_overlap_exec(&self, tok: &Cl100k, k: usize) -> (r: Result<String, ChunkerError>)
        ensures
            match next_overlap(self.view(), k as int) {
                Ok(s) => r is Ok && r->Ok_0@ == s,
                Err(te) => r is Err && error_is(r->Err_0, te),
            },
    {
        if k > 0 {
            match &self.last {
                Some(l) => calculate_overlap_text(tok, l.as_str(), k),
                None => Ok(String::new()),
            }
        } else {
            Ok(String::new())
        }
    }

    /// Feeds the next segment of `b`, starting at character `pos`, into chunks; returns
    /// its length in characters.
    fn split_segment(
        &mut self,
        tok: &Cl100k,
        chars: &Vec<char>,
        offs: &Vec<usize>,
        pos: usize,
        max: usize,
        k: usize,
        sid: &str,
    ) -> (r: Result<usize, ChunkerError>)
        requires
            old(self).wf(sid@),
            pos < chars.len(),
            offs.len() == chars.len() + 1,
            forall|i: int| 0 <= i <= chars.len() ==> offs[i] == byte_offset(chars@, i),
        ensures
            final(self).wf(sid@),
            final(self).path@ == old(self).path@,
            match r {
                Ok(e) => 1 <= e <= chars.len() - pos && split_from(
                    chars@,
                    pos as int,
                    old(self).view(),
                    old(self).path@,
                    max as int,
                    k as int,
                ) == split_from(chars@, pos + e, final(self).view(), old(self).path@, max as int, k as int),
                Err(er) => (split_from(
                    chars@,
                    pos as int,
                    old(self).view(),
                    old(self).path@,
                    max as int,
                    k as int,
                ) matches Err(te) && error_is(er, te)),
            },
    {
        let ghost b = chars@;
        let ghost path = self.path@;
        let ghost st = self.view();
        let n = chars.len();
        let ghost rem = b.subrange(pos as int, n as int);
        let target = target_chars_exec(max, self.tokens);
        let se = segment_end(chars, offs, pos, target);
        proof {
            lemma_seg_end(rem, target as int);
        }
        let e = match se {
            Some(e) => e,
            None => {
                let msg = String::from_str("Split point falls inside a multi-byte whitespace character");
                assert(msg@ == split_message());
                return Err(ChunkerError::MarkdownParsing(msg));
            },
        };
        let seg = string_of_range(chars, pos, pos + e);
        assert(seg@ =~= rem.subrange(0, e as int));
        let stoks = match tok.count_tokens(seg.as_str()) {
            Ok(n) => n,
            Err(m) => return Err(ChunkerError::TokenizationError(m)),
        };
        if fits(self.tokens, stoks, max) {
            push_str(&mut self.text, seg.as_str());
            self.tokens = self.tokens + stoks;
            assert(self.view() =~= TokState { text: st.text + seg@, tokens: st.tokens + stoks, ..st });
        } else {
            self.emit_exec(sid, false);
            let o2 = match self.next_overlap_exec(tok, k) {
                Ok(o2) => o2,
                Err(er) => {
                    return Err(er);
                },
            };
            match self.with_overlap_exec(tok, o2.as_str(), max) {
                Ok(()) => {},
                Err(er) => {
                    return Err(er);
                },
            }
            let ghost s2 = self.view();
            if fits(self.tokens, stoks, max) {
                push_str(&mut self.text, seg.as_str());
                self.tokens = self.tokens + stoks;
                assert(self.view() =~= TokState { text: s2.text + seg@, tokens: s2.tokens + stoks, ..s2 });
            } else {
                push_str(&mut self.text, seg.as_str());
                self.tokens = self.tokens.saturating_add(stoks);
                assert(self.view() =~= TokState {
                    text: s2.text + seg@,
                    tokens: sat_add(s2.tokens, stoks as int),
                    ..s2
                });
                self.emit_exec(sid, true);
            }
        }
        Ok(e)
    }

    /// Splits `block` into segments that fill chunks of at most `max` tokens.
    fn split_exec(&mut self, tok: &Cl100k, block: &str, o: &str, max: usize, k: usize, sid: &str) -> (r: Result<(), ChunkerError>)
        requires
            old(self).wf(sid@),
        ensures
            final(self).wf(sid@),
            match split_block(block@, o@, old(self).view(), old(self).path@, max as int, k as int) {
                Ok(s) => r is Ok && final(self).view() == s,
                Err(te) => r is Err && error_is(r->Err_0, te),
            },
    {
        let ghost path = self.path@;
        let ghost goal = split_block(block@, o@, self.view(), path, max as int, k as int);
        assert(goal == split_block(block@, o@, old(self).view(), old(self).path@, max as int, k as int));
        match self.with_overlap_exec(tok, o, max) {
            Ok(()) => {},
            Err(er) => {
                return Err(er);
            },
        }
        let (chars, _len) = chars_and_len(block);
        let offs = char_offsets(&chars);
        let n = chars.len();
        let mut pos: usize = 0;
        while pos < n
            invariant
                chars@ == block@,
                n == chars.len(),
                offs.len() == n + 1,
                forall|i: int| 0 <= i <= n ==> offs[i] == byte_offset(chars@, i),
                pos <= n,
                self.path@ == path,
                self.wf(sid@),
                split_from(chars@, pos as int, self.view(), path, max as int, k as int) == goal,
                goal == split_block(block@, o@, old(self).view(), old(self).path@, max as int, k as int),
            decreases n - pos,
        {
            let ghost before = self.view();
            assert(split_from(chars@, pos as int, before, path, max as int, k as int) == goal);
            match self.split_segment(tok, &chars, &offs, pos, max, k, sid) {
                Ok(e) => {
                    pos = pos + e;
                },
                Err(er) => {
                    return Err(er);
                },
            }
        }
        Ok(())
    }

    /// Moves the pending block into chunks.
    fn finalize_exec(&mut self, tok: &Cl100k, max: usize, k: usize, sid: &str) -> (r: Result<(), ChunkerError>)
        requires
            old(self).wf(sid@),
        ensures
            final(self).wf(sid@),
            match finalize(old(self).view(), old(self).path@, max as int, k as int) {
                Ok(s) => r is Ok && final(self).view() == s,
                Err(te) => r is Err && error_is(r->Err_0, te),
            },
    {
        if string_is_empty(self.buf.as_str()) {
            return Ok(());
        }
        let block = trim_start_string(self.buf.as_str());
        if string_is_empty(block.as_str()) {
            self.buf = String::new();
            assert(self.view() =~= TokState { buf: Seq::empty(), ..old(self).view() });
            return Ok(());
        }
        let ghost st = self.view();
        let bt = match tok.count_tokens(block.as_str()) {
            Ok(n) => n,
            Err(m) => return Err(ChunkerError::TokenizationError(m)),
        };
        let may = self.tokens == 0 || fits(self.tokens, bt, max);
        if may && self.tokens == 0 && k > 0 {
            let o = match &self.last {
                Some(l) => calculate_overlap_text(tok, l.as_str(), k),
                None => Ok(String::new()),
            };
            match o {
                Ok(o) => {
                    if self.last.is_some() {
                        match self.with_overlap_exec(tok, o.as_str(), max) {
                            Ok(()) => {},
                            Err(er) => {
                                return Err(er);
                            },
                        }
                    }
                },
                Err(e) => {
                    return Err(e);
                },
            }
        }
        let ghost s1 = self.view();
        assert(prefit(st, bt as int, max as int, k as int) == Ok::<TokState, TokError>(s1));
        if may && fits(self.tokens, bt, max) {
            push_str(&mut self.text, block.as_str());
            self.tokens = self.tokens + bt;
            self.buf = String::new();
            assert(self.view() =~= TokState {
                text: s1.text + block@,
                tokens: s1.tokens + bt,
                buf: Seq::empty(),
                ..s1
            });
            return Ok(());
        }
        self.emit_exec(sid, false);
        let o = match self.next_overlap_exec(tok, k) {
            Ok(o) => o,
            Err(e) => {
                return Err(e);
            },
        };
        match self.split_exec(tok, block.as_str(), o.as_str(), max, k, sid) {
            Ok(()) => {},
            Err(e) => {
                return Err(e);
            },
        }
        let ghost s3 = self.view();
        self.buf = String::new();
        assert(self.view() =~= TokState { buf: Seq::empty(), ..s3 });
        Ok(())
    }
}

/// The heading path of the stack: non-empty titles joined by `" > "`.
pub fn generate_heading_path_string(stack: &Vec<(u32, String)>) -> (r: String)
    ensures
        r@ == heading_path(stack_view(stack@)),
{
    let mut r = String::new();
    let mut i: usize = 0;
    while i < stack.len()
        invariant
            i <= stack.len(),
            r@ == heading_path(stack_view(stack@).take(i as int)),
        decreases stack.len() - i,
    {
        let ghost pre = stack_view(stack@).take(i as int);
        assert(stack_view(stack@).take(i + 1).drop_last() =~= pre);
        let t = &stack[i].1;
        if !string_is_empty(t.as_str()) {
            if !string_is_empty(r.as_str()) {
                push_str(&mut r, " > ");
                proof {
                    reveal_strlit(" > ");
                }
            }
            push_str(&mut r, t.as_str());
        }
        proof {
            assert(r@ =~= heading_path(stack_view(stack@).take(i + 1)));
        }
        i = i + 1;
    }
    assert(stack_view(stack@).take(stack.len() as int) =~= stack_view(stack@));
    r
}

fn newline_before_exec(buf: &mut String)
    ensures
        final(buf)@ == newline_before(old(buf)@),
{
    if !string_is_empty(buf.as_str()) && !string_ends_with(buf.as_str(), '\n') {
        push_char(buf, '\n');
    }
}

fn ends_with_two_newlines_exec(s: &str) -> (r: bool)
    ensures
        r == ends_with_two_newlines(s@),
{
    let v = crate::text::chars_of(s);
    let n = v.len();
    n >= 2 && v[n - 1] == '\n' && v[n - 2] == '\n'
}

fn close_buf_exec(buf: &mut String, code: bool)
    ensures
        final(buf)@ == close_buf(old(buf)@, code),
{
    if code {
        push_char(buf, '`');
        push_char(buf, '`');
        push_char(buf, '`');
        push_char(buf, '\n');
        assert(buf@ =~= old(buf)@ + seq!['`', '`', '`', '\n']);
    } else if !string_is_empty(buf.as_str()) && !ends_with_two_newlines_exec(buf.as_str()) {
        newline_before_exec(buf);
        push_char(buf, '\n');
    }
}

impl TokAcc {
    /// Reads one parser event.
    fn step_exec(&mut self, tok: &Cl100k, e: &MdEvent, max: usize, k: usize, sid: &str) -> (r: Result<(), ChunkerError>)
        requires
            old(self).wf(sid@),
        ensures
            final(self).wf(sid@),
            match tok_step(old(self).view(), *e, max as int, k as int) {
                Ok(s) => r is Ok && final(self).view() == s,
                Err(te) => r is Err && error_is(r->Err_0, te),
            },
    {
        let ghost st = self.view();
        match e {
            MdEvent::StartHeading(level) => {
                match self.finalize_exec(tok, max, k, sid) {
                    Ok(()) => {},
                    Err(x) => {
                        return Err(x);
                    },
                }
                self.emit_exec(sid, false);
                let ghost s1 = self.view();
                push_heading(&mut self.stack, *level);
                assert(self.view() =~= TokState {
                    stack: pop_levels(s1.stack, *level).push((*level, Seq::empty())),
                    ..s1
                });
            },
            MdEvent::StartCodeBlock(lang) => {
                match self.finalize_exec(tok, max, k, sid) {
                    Ok(()) => {},
                    Err(x) => {
                        return Err(x);
                    },
                }
                let ghost s1 = self.view();
                push_char(&mut self.buf, '\n');
                push_char(&mut self.buf, '`');
                push_char(&mut self.buf, '`');
                push_char(&mut self.buf, '`');
                push_str(&mut self.buf, lang.as_str());
                push_char(&mut self.buf, '\n');
                assert(self.view() =~= TokState {
                    buf: s1.buf + seq!['\n', '`', '`', '`'] + lang@ + seq!['\n'],
                    ..s1
                });
            },
            MdEvent::StartList => {
                match self.finalize_exec(tok, max, k, sid) {
                    Ok(()) => {},
                    Err(x) => {
                        return Err(x);
                    },
                }
                let ghost s1 = self.view();
                newline_before_exec(&mut self.buf);
                assert(self.view() =~= TokState { buf: newline_before(s1.buf), ..s1 });
            },
            MdEvent::StartItem => {
                newline_before_exec(&mut self.buf);
                assert(self.view() =~= TokState { buf: newline_before(st.buf), ..st });
            },
            MdEvent::EndHeading(_) => {
                if self.stack.len() > 0 {
                    let title = trim_string(self.buf.as_str());
                    set_last_title(&mut self.stack, title);
                }
                self.path = generate_heading_path_string(&self.stack);
                let ghost s1 = self.view();
                assert(s1 =~= TokState {
                    stack: (if st.stack.len() > 0 {
                        st.stack.update(st.stack.len() - 1, (st.stack.last().0, trim(st.buf)))
                    } else {
                        st.stack
                    }),
                    path: s1.path,
                    ..st
                });
                match self.finalize_exec(tok, max, k, sid) {
                    Ok(()) => {},
                    Err(x) => {
                        return Err(x);
                    },
                }
                let ghost s2 = self.view();
                self.buf = String::new();
                assert(self.view() =~= TokState { buf: Seq::empty(), ..s2 });
            },
            MdEvent::EndParagraph | MdEvent::EndItem | MdEvent::EndList | MdEvent::EndCodeBlock => {
                let code = match e {
                    MdEvent::EndCodeBlock => true,
                    _ => false,
                };
                close_buf_exec(&mut self.buf, code);
                assert(self.view() =~= TokState { buf: close_buf(st.buf, code), ..st });
                match self.finalize_exec(tok, max, k, sid) {
                    Ok(()) => {},
                    Err(x) => {
                        return Err(x);
                    },
                }
                let ghost s2 = self.view();
                self.buf = String::new();
                assert(self.view() =~= TokState { buf: Seq::empty(), ..s2 });
            },
            MdEvent::Text(t) => {
                push_str(&mut self.buf, t.as_str());
                assert(self.view() =~= TokState { buf: st.buf + t@, ..st });
            },
            MdEvent::Code(t) => {
                push_char(&mut self.buf, '`');
                push_str(&mut self.buf, t.as_str());
                push_char(&mut self.buf, '`');
                assert(self.view() =~= TokState { buf: st.buf + seq!['`'] + t@ + seq!['`'], ..st });
            },
            MdEvent::HardBreak | MdEvent::SoftBreak => {
                if !string_ends_with(self.buf.as_str(), ' ') && !string_ends_with(self.buf.as_str(), '\n') {
                    let c = match e {
                        MdEvent::HardBreak => '\n',
                        _ => ' ',
                    };
                    push_char(&mut self.buf, c);
                    assert(self.view() =~= TokState { buf: st.buf.push(c), ..st });
                }
            },
            MdEvent::Rule => {
                match self.finalize_exec(tok, max, k, sid) {
                    Ok(()) => {},
                    Err(x) => {
                        return Err(x);
                    },
                }
                let ghost s2 = self.view();
                self.buf = String::new();
                assert(self.view() =~= TokState { buf: Seq::empty(), ..s2 });
            },
            _ => {},
        }
        Ok(())
    }
}

/// Chunks a Markdown document, given its parser events, into chunks of at most
/// `config.max_tokens` tokens where blocks allow, consecutive chunks sharing
/// `config.token_overlap` tokens.
#[verifier::rlimit(40)]
pub fn chunk_markdown_events(
    source_id: &str,
    events: &Vec<(MdEvent, usize, usize)>,
    config: &ChunkerConfig,
    tokenizer: &Cl100k,
) -> (r: Result<Vec<Chunk>, ChunkerError>)
    ensures
        r matches Ok(v) ==> all_from(v@, source_id@),
        match token_chunks(events@, config.max_tokens as int, config.token_overlap as int) {
            Ok(cs) => r is Ok && tok_chunks(r->Ok_0@) == cs,
            Err(te) => r is Err && error_is(r->Err_0, te),
        },
{
    let max = config.max_tokens;
    let k = config.token_overlap;
    let mut acc = TokAcc::new();
    let mut i: usize = 0;
    assert(events@.take(0) =~= Seq::<(MdEvent, usize, usize)>::empty());
    while i < events.len()
        invariant
            i <= events.len(),
            max == config.max_tokens,
            k == config.token_overlap,
            acc.wf(source_id@),
            tok_events(events@.take(i as int), max as int, k as int) == Ok::<TokState, TokError>(acc.view()),
        decreases events.len() - i,
    {
        assert(events@.take(i + 1).drop_last() =~= events@.take(i as int));
        match acc.step_exec(tokenizer, &events[i].0, max, k, source_id) {
            Ok(()) => {},
            Err(x) => {
                assert(events@.take(events.len() as int) =~= events@);
                proof {
                    lemma_tok_events_stop(events@, i as int, max as int, k as int);
                }
                return Err(x);
            },
        }
        i = i + 1;
    }
    assert(events@.take(events.len() as int) =~= events@);
    match acc.finalize_exec(tokenizer, max, k, source_id) {
        Ok(()) => {},
        Err(x) => {
            return Err(x);
        },
    }
    if !string_is_empty(acc.text.as_str()) {
        let ft = match tokenizer.count_tokens(acc.text.as_str()) {
            Ok(n) => n,
            Err(m) => return Err(ChunkerError::TokenizationError(m)),
        };
        if ft > 0 {
            let c = Chunk {
                source_id: source_id.to_owned(),
                chunk_index: acc.index,
                chunk_text: trim_string(acc.text.as_str()),
                token_count: ft,
                heading_path: acc.path.clone(),
            };
            let ghost before = acc.chunks@;
            acc.chunks.push(c);
            assert(tok_chunks(acc.chunks@) =~= tok_chunks(before).push(tok_chunk(c)));
        }
    }
    Ok(acc.chunks)
}

/// Once a prefix of the events stops the chunker, so do all the events.
proof fn lemma_tok_events_stop(events: Seq<(MdEvent, usize, usize)>, i: int, max: int, k: int)
    requires
        0 <= i < events.len(),
        tok_events(events.take(i), max, k) is Ok,
        tok_step(tok_events(events.take(i), max, k)->Ok_0, events[i].0, max, k) is Err,
    ensures
        tok_events(events.take(i + 1), max, k) == tok_step(
            tok_events(events.take(i), max, k)->Ok_0,
            events[i].0,
            max,
            k,
        ),
        token_chunks(events, max, k) == Err::<Seq<TokChunk>, TokError>(
            tok_step(tok_events(events.take(i), max, k)->Ok_0, events[i].0, max, k)->Err_0,
        ),
{
    assert(events.take(i + 1).drop_last() =~= events.take(i));
    lemma_tok_events_err_prefix(events, i + 1, max, k);
    assert(events.take(events.len() as int) =~= events);
}

proof fn lemma_tok_events_err_prefix(events: Seq<(MdEvent, usize, usize)>, j: int, max: int, k: int)
    requires
        0 <= j <= events.len(),
        tok_events(events.take(j), max, k) is Err,
    ensures
        tok_events(events, max, k) == tok_events(events.take(j), max, k),
    decreases events.len() - j,
{
    if j < events.len() {
        assert(events.take(j + 1).drop_last() =~= events.take(j));
        lemma_tok_events_err_prefix(events, j + 1, max, k);
    } else {
        assert(events.take(j) =~= events);
    }
}

/// Chunks Markdown text `markdown_text` of document `source_id` into chunks of at most
/// `config.max_tokens` `cl100k_base` tokens where blocks allow, consecutive chunks
/// sharing `config.token_overlap` tokens, each with the heading path in force.
pub fn chunk_markdown(source_id: &str, markdown_text: &str, config: &ChunkerConfig) -> (r: Result<
    Vec<Chunk>,
    ChunkerError,
>)
    ensures
        config.max_tokens > 0 && config.token_overlap >= config.max_tokens ==> (r matches Err(
            ChunkerError::Config(m),
        ) && m@ == "Token overlap cannot be larger than or equal to max tokens"@),
        config.max_tokens == 0 ==> (r matches Err(ChunkerError::Config(m)) && m@
            == "Max tokens must be greater than 0"@),
        config.max_tokens > 0 && config.token_overlap < config.max_tokens ==> match token_chunks(
            markdown_events(markdown_text@),
            config.max_tokens as int,
            config.token_overlap as int,
        ) {
            Ok(cs) => r is Ok && tok_chunks(r->Ok_0@) == cs && all_from(r->Ok_0@, source_id@),
            Err(te) => r is Err && error_is(r->Err_0, te),
        },
{
    if config.token_overlap >= config.max_tokens && config.max_tokens > 0 {
        return Err(
            ChunkerError::Config(
                String::from_str("Token overlap cannot be larger than or equal to max tokens"),
            ),
        );
    }
    if config.max_tokens == 0 {
        return Err(ChunkerError::Config(String::from_str("Max tokens must be greater than 0")));
    }
    let tokenizer = match Cl100k::load() {
        Ok(t) => t,
        Err(e) => {
            let mut m = String::from_str("Tokenizer initialization failed: ");
            push_str(&mut m, e.as_str());
            return Err(ChunkerError::TokenizationError(m));
        },
    };
    let events = parse_markdown(markdown_text);
    chunk_markdown_events(source_id, &events, config, &tokenizer)
}

/// `s` itself when it has at most `max_len` bytes, else its first `max_len - 3` bytes
/// (none when `max_len < 3`) followed by `...`.
pub open spec fn ellipsized(s: Seq<char>, max_len: int) -> Seq<char> {
    if utf8_len(s) <= max_len {
        s
    } else {
        crate::text::byte_slice(s, 0, if max_len >= 3 { max_len - 3 } else { 0 })->0 + "..."@
    }
}

/// Shortens `s` for logs to at most `max_len` bytes, marking the cut with `...`.
pub fn ellipsize(s: &str, max_len: usize) -> (r: String)
    requires
        utf8_len(s@) > max_len ==> crate::text::byte_slice(
            s@,
            0,
            if max_len >= 3 { max_len - 3 } else { 0 },
        ) is Some,
    ensures
        r@ == ellipsized(s@, max_len as int),
{
    let (_chars, len) = chars_and_len(s);
    if len <= max_len {
        return s.to_owned();
    }
    let cut = max_len.saturating_sub(3);
    let mut r = match crate::text::str_get(s, 0, cut) {
        Some(p) => p,
        None => String::new(),
    };
    push_str(&mut r, "...");
    r
}

/// A line break never joins two words: after a soft break the block being read ends in a
/// space or a newline, the break adding one space when it did not already; after a hard
/// break it ends in a space or newline, the break adding one newline when it did not.
/// Nothing else of the state changes.
pub proof fn law_line_break_separates(st: TokState, max: int, k: int)
    ensures
        tok_step(st, MdEvent::SoftBreak, max, k) matches Ok(s) && s.buf.len() > 0 && (s.buf.last() == ' '
            || s.buf.last() == '\n') && (s.buf == st.buf || s.buf == st.buf.push(' ')) && s.chunks == st.chunks
            && s.text == st.text,
        st.buf.len() == 0 || (st.buf.last() != ' ' && st.buf.last() != '\n') ==> tok_step(st, MdEvent::SoftBreak, max, k)
            == Ok::<TokState, TokError>(TokState { buf: st.buf.push(' '), ..st }),
        tok_step(st, MdEvent::HardBreak, max, k) matches Ok(s) && s.buf.len() > 0 && (s.buf.last() == ' '
            || s.buf.last() == '\n') && (s.buf == st.buf || s.buf == st.buf.push('\n')) && s.chunks == st.chunks
            && s.text == st.text,
{
}

/// Two lines of a paragraph read as text, a soft break and text come out with one space
/// between them, when the first line does not already end in a space or newline.
pub proof fn law_soft_break_joins_lines_with_space(st: TokState, a: String, b: String, max: int, k: int)
    requires
        a@.len() > 0,
        a@.last() != ' ',
        a@.last() != '\n',
    ensures
        tok_step(st, MdEvent::Text(a), max, k) matches Ok(s1) && tok_step(s1, MdEvent::SoftBreak, max, k) matches Ok(s2)
            && tok_step(s2, MdEvent::Text(b), max, k) matches Ok(s3) && s3.buf == st.buf + a@ + seq![' '] + b@,
{
    let s1 = TokState { buf: st.buf + a@, ..st };
    assert((st.buf + a@).last() == a@.last());
    let s2 = TokState { buf: s1.buf.push(' '), ..s1 };
    assert(s1.buf.push(' ') + b@ =~= st.buf + a@ + seq![' '] + b@);
}

} // verus!

use std::ops::Range;
use vstd::prelude::*;
use vstd::string::StringSliceAdditionalSpecFns;

verus! {

/// The first index at or after `from` where `b` holds byte `c`.
pub open spec fn find_byte(b: Seq<u8>, from: int, c: u8) -> Option<int>
    decreases b.len() - from,
{
    if from < 0 || from >= b.len() {
        None
    } else if b[from] == c {
        Some(from)
    } else {
        find_byte(b, from + 1, c)
    }
}

pub proof fn lemma_find_byte(b: Seq<u8>, from: int, c: u8)
    ensures
        find_byte(b, from, c) matches Some(i) ==> from <= i < b.len() && b[i] == c,
        0 <= from && find_byte(b, from, c) is None ==> forall|i: int| from <= i < b.len() ==> b[i] != c,
    decreases b.len() - from,
{
    if 0 <= from < b.len() && b[from] != c {
        lemma_find_byte(b, from + 1, c);
    }
}

/// A document reference in an input line: the marker before the name (`/` or `/"`), the
/// name, and what closes it (`"`, or nothing). Byte ranges.
pub type DocRef = (int, int, int, int, int, int);

/// The document references from byte `from` on: each starts with `/`; a name in quotes
/// runs to the closing quote (a quote left open ends the scan), any other to the next
/// space or the end of the line; an empty unquoted name is skipped.
pub open spec fn doc_refs(b: Seq<u8>, from: int) -> Seq<DocRef>
    decreases b.len() - from,
{
    match find_byte(b, from, 0x2Fu8) {
        None => Seq::empty(),
        Some(start) => {
            proof {
                lemma_find_byte(b, from, 0x2Fu8);
            }
            if start + 1 < b.len() && b[start + 1] == 0x22u8 {
                match find_byte(b, start + 2, 0x22u8) {
                    Some(end) => {
                        proof {
                            lemma_find_byte(b, start + 2, 0x22u8);
                        }
                        seq![(start, start + 2, start + 2, end, end, end + 1)] + doc_refs(b, end)
                    },
                    None => Seq::empty(),
                }
            } else {
                let end = match find_byte(b, start, 0x20u8) {
                    Some(e) => e,
                    None => b.len() as int,
                };
                proof {
                    lemma_find_byte(b, start, 0x20u8);
                }
                if end > start + 1 {
                    seq![(start, start + 1, start + 1, end, end, end)] + doc_refs(b, end)
                } else {
                    doc_refs(b, end)
                }
            }
        },
    }
}

fn find_byte_exec(b: &[u8], from: usize, c: u8) -> (r: Option<usize>)
    ensures
        match find_byte(b@, from as int, c) {
            Some(i) => r == Some(i as usize),
            None => r is None,
        },
{
    let mut i = from;
    while i < b.len()
        invariant
            from <= i,
            find_byte(b@, from as int, c) == find_byte(b@, i as int, c),
        decreases b.len() - i,
    {
        if b[i] == c {
            return Some(i);
        }
        i = i + 1;
    }
    None
}

/// Marker, name and closing of each document reference in `input`, as byte ranges.
pub fn isolate_document_names_with_prefix_suffix(input: &str) -> (r: Vec<(Range<usize>, Range<usize>, Range<usize>)>)
    ensures
        refs_match(r@, doc_refs(input.spec_bytes(), 0)),
{
    let b = input.as_bytes();
    let ghost bs = b@;
    let mut result: Vec<(Range<usize>, Range<usize>, Range<usize>)> = Vec::new();
    let mut from: usize = 0;
    let ghost mut done: Seq<DocRef> = Seq::empty();
    while from <= b.len()
        invariant
            bs == b@,
            bs == input.spec_bytes(),
            refs_match(result@, done),
            done + doc_refs(bs, from as int) == doc_refs(bs, 0),
        ensures
            refs_match(result@, doc_refs(bs, 0)),
        decreases b.len() + 1 - from,
    {
        let start = match find_byte_exec(b, from, 0x2F) {
            None => {
                assert(doc_refs(bs, from as int) =~= Seq::<DocRef>::empty());
                assert(done =~= doc_refs(bs, 0));
                break;
            },
            Some(s) => s,
        };
        proof {
            lemma_find_byte(bs, from as int, 0x2Fu8);
        }
        if start + 1 < b.len() && b[start + 1] == 0x22 {
            match find_byte_exec(b, start + 2, 0x22) {
                Some(end) => {
                    proof {
                        lemma_find_byte(bs, start + 2, 0x22u8);
                    }
                    let ghost item: DocRef = (start as int, start + 2, start + 2, end as int, end as int, end + 1);
                    result.push((start..start + 2, start + 2..end, end..end + 1));
                    proof {
                        done = done.push(item);
                        assert(seq![item] + doc_refs(bs, end as int) == doc_refs(bs, from as int));
                        assert(done + doc_refs(bs, end as int) =~= doc_refs(bs, 0));
                    }
                    from = end;
                },
                None => {
                    assert(doc_refs(bs, from as int) =~= Seq::<DocRef>::empty());
                    assert(done =~= doc_refs(bs, 0));
                    break;
                },
            }
        } else {
            let end = match find_byte_exec(b, start, 0x20) {
                Some(e) => e,
                None => b.len(),
            };
            proof {
                lemma_find_byte(bs, start as int, 0x20u8);
            }
            if end > start + 1 {
                let ghost item: DocRef = (start as int, start + 1, start + 1, end as int, end as int, end as int);
                result.push((start..start + 1, start + 1..end, end..end));
                proof {
                    done = done.push(item);
                    assert(done + doc_refs(bs, end as int) =~= doc_refs(bs, 0));
                }
            }
            from = end;
        }
    }
    result
}

pub open spec fn refs_match(v: Seq<(Range<usize>, Range<usize>, Range<usize>)>, refs: Seq<DocRef>) -> bool {
    &&& v.len() == refs.len()
    &&& forall|i: int|
        0 <= i < v.len() ==> {
            let (p, n, s) = #[trigger] v[i];
            &&& p.start == refs[i].0 && p.end == refs[i].1
            &&& n.start == refs[i].2 && n.end == refs[i].3
            &&& s.start == refs[i].4 && s.end == refs[i].5
        }
}

/// Byte ranges of the document names referenced in `input` (`/name` or `/"a name"`).
pub fn isolate_document_names(input: &str) -> (r: Vec<Range<usize>>)
    ensures
        r@.len() == doc_refs(input.spec_bytes(), 0).len(),
        forall|i: int|
            0 <= i < r@.len() ==> (#[trigger] r@[i]).start == doc_refs(input.spec_bytes(), 0)[i].2
                && r@[i].end == doc_refs(input.spec_bytes(), 0)[i].3,
{
    let all = isolate_document_names_with_prefix_suffix(input);
    let mut r: Vec<Range<usize>> = Vec::new();
    let mut i: usize = 0;
    while i < all.len()
        invariant
            i <= all.len(),
            refs_match(all@, doc_refs(input.spec_bytes(), 0)),
            r@.len() == i,
            forall|k: int| 0 <= k < i ==> (#[trigger] r@[k]).start == all@[k].1.start && r@[k].end == all@[k].1.end,
        decreases all.len() - i,
    {
        let n = &all[i].1;
        r.push(n.start..n.end);
        i = i + 1;
    }
    r
}

/// Shape of the references found from `from` on: each lies within the line after the
/// previous one, its marker starting with `/`, a quote following it when it is two bytes.
pub open spec fn refs_well_placed(b: Seq<u8>, refs: Seq<DocRef>, from: int) -> bool {
    &&& forall|i: int|
        0 <= i < refs.len() ==> {
            let r = #[trigger] refs[i];
            &&& from <= r.0 < r.1 == r.2 <= r.3 == r.4 <= r.5 <= b.len()
            &&& b[r.0] == 0x2Fu8
            &&& (r.1 == r.0 + 1 && r.5 == r.4) || (r.1 == r.0 + 2 && b[r.0 + 1] == 0x22u8 && r.5
                == r.4 + 1)
        }
    &&& forall|i: int| 0 <= i < refs.len() - 1 ==> (#[trigger] refs[i]).5 <= refs[i + 1].0
}

pub proof fn lemma_refs_well_placed(b: Seq<u8>, from: int)
    requires
        0 <= from,
    ensures
        refs_well_placed(b, doc_refs(b, from), from),
    decreases b.len() - from,
{
    lemma_find_byte(b, from, 0x2Fu8);
    match find_byte(b, from, 0x2Fu8) {
        None => {},
        Some(start) => {
            if start + 1 < b.len() && b[start + 1] == 0x22u8 {
                lemma_find_byte(b, start + 2, 0x22u8);
                match find_byte(b, start + 2, 0x22u8) {
                    Some(end) => {
                        lemma_refs_well_placed(b, end);
                        let rest = doc_refs(b, end);
                        let refs = doc_refs(b, from);
                        assert(refs == seq![(start, start + 2, start + 2, end, end, end + 1)] + rest);
                        lemma_rest_after(b, end, rest);
                        assert forall|i: int| 0 <= i < refs.len() - 1 implies (#[trigger] refs[i]).5 <= refs[i + 1].0 by {
                            if i > 0 {
                                let j = i - 1;
                                assert(refs[i] == rest[j]);
                                assert(refs[i + 1] == rest[j + 1]);
                            } else {
                                assert(refs[1] == rest[0]);
                            }
                        }
                        assert forall|i: int| 0 <= i < refs.len() implies {
                            let r = #[trigger] refs[i];
                            &&& from <= r.0 < r.1 == r.2 <= r.3 == r.4 <= r.5 <= b.len()
                            &&& b[r.0] == 0x2Fu8
                            &&& (r.1 == r.0 + 1 && r.5 == r.4) || (r.1 == r.0 + 2 && b[r.0 + 1] == 0x22u8
                                && r.5 == r.4 + 1)
                        } by {
                            if i > 0 {
                                assert(refs[i] == rest[i - 1]);
                            }
                        }
                    },
                    None => {},
                }
            } else {
                lemma_find_byte(b, start, 0x20u8);
                let end = match find_byte(b, start, 0x20u8) {
                    Some(e) => e,
                    None => b.len() as int,
                };
                lemma_refs_well_placed(b, end);
                let rest = doc_refs(b, end);
                let refs = doc_refs(b, from);
                if end > start + 1 {
                    assert(refs == seq![(start, start + 1, start + 1, end, end, end)] + rest);
                    lemma_rest_after(b, end, rest);
                    assert forall|i: int| 0 <= i < refs.len() - 1 implies (#[trigger] refs[i]).5 <= refs[i + 1].0 by {
                        if i > 0 {
                            let j = i - 1;
                            assert(refs[i] == rest[j]);
                            assert(refs[i + 1] == rest[j + 1]);
                        } else {
                            assert(refs[1] == rest[0]);
                        }
                    }
                    assert forall|i: int| 0 <= i < refs.len() implies {
                        let r = #[trigger] refs[i];
                        &&& from <= r.0 < r.1 == r.2 <= r.3 == r.4 <= r.5 <= b.len()
                        &&& b[r.0] == 0x2Fu8
                        &&& (r.1 == r.0 + 1 && r.5 == r.4) || (r.1 == r.0 + 2 && b[r.0 + 1] == 0x22u8
                            && r.5 == r.4 + 1)
                    } by {
                        if i > 0 {
                            assert(refs[i] == rest[i - 1]);
                        }
                    }
                } else {
                    assert(refs == rest);
                }
            }
        },
    }
}

proof fn lemma_rest_after(b: Seq<u8>, end: int, rest: Seq<DocRef>)
    requires
        refs_well_placed(b, rest, end),
    ensures
        rest.len() > 0 ==> end <= rest[0].0,
{
}

/// Highlighted segments of a line: plain text, then each reference's marker, name and
/// closing in colour, then the rest in plain text. `(coloured, start, end)`, in bytes.
pub open spec fn highlight_from(refs: Seq<DocRef>, last: int, len: int) -> Seq<(bool, int, int)>
    decreases refs.len(),
{
    if refs.len() == 0 {
        seq![(false, last, len)]
    } else {
        let r = refs[0];
        seq![(false, last, r.0), (true, r.0, r.1), (true, r.2, r.3), (true, r.4, r.5)]
            + highlight_from(refs.drop_first(), r.5, len)
    }
}

pub open spec fn highlight_spec(b: Seq<u8>) -> Seq<(bool, int, int)> {
    highlight_from(doc_refs(b, 0), 0, b.len() as int)
}

pub open spec fn segments_match(v: Seq<(bool, Range<usize>)>, s: Seq<(bool, int, int)>) -> bool {
    &&& v.len() == s.len()
    &&& forall|i: int|
        0 <= i < v.len() ==> (#[trigger] v[i]).0 == s[i].0 && v[i].1.start == s[i].1 && v[i].1.end
            == s[i].2
}

/// The highlighting of `line`: which byte ranges are shown plain and which in colour.
pub fn highlight_segments(line: &str) -> (r: Vec<(bool, Range<usize>)>)
    ensures
        segments_match(r@, highlight_spec(line.spec_bytes())),
{
    let b = line.as_bytes();
    let ghost bs = b@;
    let ranges = isolate_document_names(line);
    let ghost refs = doc_refs(bs, 0);
    proof {
        lemma_refs_well_placed(bs, 0);
    }
    let mut buffer: Vec<(bool, Range<usize>)> = Vec::new();
    let mut last_end: usize = 0;
    let mut i: usize = 0;
    let ghost mut done: Seq<(bool, int, int)> = Seq::empty();
    assert(refs.skip(0) =~= refs);
    assert(done + highlight_from(refs.skip(0), 0, bs.len() as int) =~= highlight_spec(bs));
    while i < ranges.len()
        invariant
            bs == b@,
            bs == line.spec_bytes(),
            refs == doc_refs(bs, 0),
            refs_well_placed(bs, refs, 0),
            ranges@.len() == refs.len(),
            forall|k: int| 0 <= k < ranges@.len() ==> (#[trigger] ranges@[k]).start == refs[k].2 && ranges@[k].end == refs[k].3,
            i <= ranges.len(),
            i > 0 ==> last_end == refs[i - 1].5,
            i == 0 ==> last_end == 0,
            segments_match(buffer@, done),
            done + highlight_from(refs.skip(i as int), last_end as int, bs.len() as int) == highlight_spec(bs),
        decreases ranges.len() - i,
    {
        let ghost rf = refs[i as int];
        proof {
            if i > 0 {
                assert(refs[i - 1].5 <= refs[(i - 1) + 1].0);
            }
        }
        let (open, name, close) = marker_ranges(b, &ranges[i], last_end, Ghost(rf));
        let ghost before = buffer@;
        buffer.push((false, last_end..open.start));
        buffer.push((true, open));
        buffer.push((true, name));
        buffer.push((true, close.start..close.end));
        proof {
            let head = seq![(false, last_end as int, rf.0), (true, rf.0, rf.1), (true, rf.2, rf.3), (true, rf.4, rf.5)];
            lemma_highlight_step(refs, i as int, last_end as int, bs.len() as int);
            assert(segments_match(buffer@, done + head));
            assert((done + head) + highlight_from(refs.skip(i + 1), rf.5, bs.len() as int) =~= done + highlight_from(
                refs.skip(i as int),
                last_end as int,
                bs.len() as int,
            ));
            done = done + head;
        }
        last_end = close.end;
        i = i + 1;
    }
    buffer.push((false, last_end..b.len()));
    proof {
        assert(refs.skip(i as int) =~= Seq::<DocRef>::empty());
        done = done.push((false, last_end as int, bs.len() as int));
    }
    buffer
}

proof fn lemma_highlight_step(refs: Seq<DocRef>, i: int, last: int, len: int)
    requires
        0 <= i < refs.len(),
    ensures
        highlight_from(refs.skip(i), last, len) == seq![
            (false, last, refs[i].0),
            (true, refs[i].0, refs[i].1),
            (true, refs[i].2, refs[i].3),
            (true, refs[i].4, refs[i].5),
        ] + highlight_from(refs.skip(i + 1), refs[i].5, len),
{
    assert(refs.skip(i).drop_first() =~= refs.skip(i + 1));
    assert(refs.skip(i)[0] == refs[i]);
}

/// Marker, name and closing of the reference whose name is `r`, read as the line
/// highlighter reads them: a `/` just before the name is the whole marker, else the
/// marker is `/"` and a quote closes the name.
fn marker_ranges(b: &[u8], r: &Range<usize>, last_end: usize, Ghost(rf): Ghost<DocRef>) -> (res: (Range<usize>, Range<usize>, Range<usize>))
    requires
        r.start == rf.2,
        r.end == rf.3,
        last_end <= rf.0 < rf.1 == rf.2 <= rf.3 == rf.4 <= rf.5 <= b@.len(),
        b@[rf.0] == 0x2Fu8,
        (rf.1 == rf.0 + 1 && rf.5 == rf.4) || (rf.1 == rf.0 + 2 && b@[rf.0 + 1] == 0x22u8 && rf.5 == rf.4 + 1),
    ensures
        res.0.start == rf.0 && res.0.end == rf.1,
        res.1.start == rf.2 && res.1.end == rf.3,
        res.2.start == rf.4 && res.2.end == rf.5,
{
    let start = if r.start > last_end {
        r.start
    } else {
        last_end
    };
    let end = r.end;
    if b[start - 1] == 0x2F {
        (start - 1..start, start..end, end..end)
    } else {
        (start - 2..start, start..end, end..end + 1)
    }
}

/// The highlighted segments tile the line: the first starts at its beginning, each ends
/// where the next starts, none runs backwards, and the last ends at its end.
pub proof fn law_highlight_tiles_line(b: Seq<u8>)
    ensures
        ({
            let s = highlight_spec(b);
            &&& s.len() > 0
            &&& s[0].1 == 0
            &&& s[s.len() - 1].2 == b.len()
            &&& forall|i: int| 0 <= i < s.len() ==> (#[trigger] s[i]).1 <= s[i].2
            &&& forall|i: int| 0 <= i < s.len() - 1 ==> (#[trigger] s[i]).2 == s[i + 1].1
        }),
{
    lemma_refs_well_placed(b, 0);
    lemma_highlight_tiles(b, doc_refs(b, 0), 0);
}

proof fn lemma_highlight_tiles(b: Seq<u8>, refs: Seq<DocRef>, last: int)
    requires
        refs_well_placed(b, refs, last),
        0 <= last <= b.len(),
    ensures
        ({
            let s = highlight_from(refs, last, b.len() as int);
            &&& s.len() > 0
            &&& s[0].1 == last
            &&& s[s.len() - 1].2 == b.len()
            &&& forall|i: int| 0 <= i < s.len() ==> (#[trigger] s[i]).1 <= s[i].2
            &&& forall|i: int| 0 <= i < s.len() - 1 ==> (#[trigger] s[i]).2 == s[i + 1].1
        }),
    decreases refs.len(),
{
    if refs.len() > 0 {
        let r = refs[0];
        let rest = refs.drop_first();
        assert(refs_well_placed(b, rest, r.5)) by {
            assert forall|i: int| 0 <= i < rest.len() implies {
                let x = #[trigger] rest[i];
                &&& r.5 <= x.0 < x.1 == x.2 <= x.3 == x.4 <= x.5 <= b.len()
                &&& b[x.0] == 0x2Fu8
                &&& (x.1 == x.0 + 1 && x.5 == x.4) || (x.1 == x.0 + 2 && b[x.0 + 1] == 0x22u8 && x.5
                    == x.4 + 1)
            } by {
                assert(rest[i] == refs[i + 1]);
                lemma_refs_chain(refs, 0, i + 1);
            }
            assert forall|i: int| 0 <= i < rest.len() - 1 implies (#[trigger] rest[i]).5 <= rest[i + 1].0 by {
                assert(rest[i] == refs[i + 1]);
                assert(rest[i + 1] == refs[(i + 1) + 1]);
            }
        }
        lemma_highlight_tiles(b, rest, r.5);
        let tail = highlight_from(rest, r.5, b.len() as int);
        let s = highlight_from(refs, last, b.len() as int);
        let head = seq![(false, last, r.0), (true, r.0, r.1), (true, r.2, r.3), (true, r.4, r.5)];
        assert(s == head + tail);
        assert forall|i: int| 0 <= i < s.len() implies (#[trigger] s[i]).1 <= s[i].2 by {
            if i >= 4 {
                assert(s[i] == tail[i - 4]);
            }
        }
        assert forall|i: int| 0 <= i < s.len() - 1 implies (#[trigger] s[i]).2 == s[i + 1].1 by {
            if i >= 4 {
                let j = i - 4;
                assert(s[i] == tail[j]);
                assert(s[i + 1] == tail[j + 1]);
            } else if i == 3 {
                assert(s[4] == tail[0]);
            }
        }
    }
}

/// Positions of later references do not go back.
proof fn lemma_refs_chain(refs: Seq<DocRef>, i: int, j: int)
    requires
        0 <= i < j < refs.len(),
        forall|k: int| 0 <= k < refs.len() - 1 ==> (#[trigger] refs[k]).5 <= refs[k + 1].0,
        forall|k: int| 0 <= k < refs.len() ==> (#[trigger] refs[k]).0 < refs[k].5 || refs[k].0 <= refs[k].5,
        forall|k: int| 0 <= k < refs.len() ==> (#[trigger] refs[k]).0 <= refs[k].5,
    ensures
        refs[i].5 <= refs[j].0,
    decreases j - i,
{
    if j > i + 1 {
        lemma_refs_chain(refs, i, j - 1);
        assert(refs[(j - 1)].5 <= refs[(j - 1) + 1].0);
    } else {
        assert(refs[i].5 <= refs[i + 1].0);
    }
}


/// The lower-case form of `s`, as `str::to_lowercase` gives it.
pub uninterp spec fn lowercased(s: Seq<char>) -> Seq<char>;

/// Calls `str::to_lowercase`; a function of `s`.
#[verifier::external_body]
pub(crate) fn to_lowercase(s: &str) -> (r: String)
    ensures
        r@ == lowercased(s@),
{
    s.to_lowercase()
}

/// A completion offered while typing: the text that replaces the span, and whether a space
/// follows it.
#[derive(Debug, PartialEq, Eq)]
pub struct Suggestion {
    pub value: String,
    pub span: Range<usize>,
    pub append_whitespace: bool,
}

/// Suggests the names of documents after a `/`.
#[derive(Debug, Clone)]
pub struct DocNameCompleter {
    /// The names offered, in lower case.
    pub doc_names: Vec<String>,
}

pub open spec fn has_char(s: Seq<char>, c: char) -> bool {
    exists|i: int| 0 <= i < s.len() && s[i] == c
}

/// What document `name` is offered as, after prefix `prefix`: the name, quoted when it
/// holds a space; nothing when it does not start with the prefix, or holds both a space
/// and a quote.
pub open spec fn suggestion_for(name: Seq<char>, prefix: Seq<char>) -> Option<Seq<char>> {
    if !prefix.is_prefix_of(name) {
        None
    } else if has_char(name, ' ') {
        if has_char(name, '"') {
            None
        } else {
            Some(seq!['"'] + name + seq!['"'])
        }
    } else {
        Some(name)
    }
}

/// The suggestions for `names`, in order.
pub open spec fn suggestions(names: Seq<Seq<char>>, prefix: Seq<char>) -> Seq<Seq<char>>
    decreases names.len(),
{
    if names.len() == 0 {
        Seq::empty()
    } else {
        let prev = suggestions(names.drop_last(), prefix);
        match suggestion_for(names.last(), prefix) {
            Some(v) => prev.push(v),
            None => prev,
        }
    }
}

/// Position of the last `c` among the first `k` characters of `s`, or -1.
pub open spec fn last_before(s: Seq<char>, k: int, c: char) -> int
    decreases k,
{
    if k <= 0 {
        -1
    } else if s[k - 1] == c {
        k - 1
    } else {
        last_before(s, k - 1, c)
    }
}

fn has_char_exec(v: &Vec<char>, c: char) -> (r: bool)
    ensures
        r == has_char(v@, c),
{
    let mut i: usize = 0;
    while i < v.len()
        invariant
            i <= v.len(),
            forall|j: int| 0 <= j < i ==> v@[j] != c,
        decreases v.len() - i,
    {
        if v[i] == c {
            return true;
        }
        i = i + 1;
    }
    false
}

fn suggestion_exec(name: &String, prefix: &str) -> (r: Option<String>)
    ensures
        match suggestion_for(name@, prefix@) {
            Some(v) => r is Some && r->0@ == v,
            None => r is None,
        },
{
    if !crate::text::str_starts_with(name.as_str(), prefix) {
        return None;
    }
    let v = crate::text::chars_of(name.as_str());
    if has_char_exec(&v, ' ') {
        if has_char_exec(&v, '"') {
            None
        } else {
            let mut q = String::new();
            crate::text::push_char(&mut q, '"');
            crate::text::push_str(&mut q, name.as_str());
            crate::text::push_char(&mut q, '"');
            Some(q)
        }
    } else {
        Some(name.clone())
    }
}

impl DocNameCompleter {
    /// The completions for `line` with the cursor at byte `pos`: after the last `/` before
    /// the cursor, the names that start with what was typed since, in lower case; each
    /// replaces what was typed. None without a `/` before the cursor.
    pub fn complete(&mut self, line: &str, pos: usize) -> (r: Vec<Suggestion>)
        requires
            crate::text::byte_slice(line@, 0, pos as int) is Some,
        ensures
            ({
                let k = choose|k: int| 0 <= k <= line@.len() && crate::text::byte_offset(line@, k) == pos;
                let j = last_before(line@, k, '/');
                if j < 0 {
                    r@.len() == 0
                } else {
                    &&& r@.map_values(|x: Suggestion| x.value@) == suggestions(
                        old(self).doc_names@.map_values(|n: String| n@),
                        lowercased(line@.subrange(j + 1, k)),
                    )
                    &&& forall|i: int|
                        0 <= i < r@.len() ==> (#[trigger] r@[i]).span.start == crate::text::byte_offset(line@, j) + 1
                            && r@[i].span.end == pos && r@[i].append_whitespace
                }
            }),
    {
        let (v, len) = crate::text::chars_and_len(line);
        let offs = crate::text::char_offsets(&v);
        // The character at which the cursor stands.
        let mut k: usize = 0;
        while k < v.len() && offs[k] < pos
            invariant
                k <= v.len(),
                offs.len() == v.len() + 1,
                forall|i: int| 0 <= i <= v.len() ==> offs[i] == crate::text::byte_offset(line@, i),
                v@ == line@,
                forall|i: int| 0 <= i < k ==> offs[i] < pos,
            decreases v.len() - k,
        {
            k = k + 1;
        }
        let ghost kk = choose|x: int| 0 <= x <= line@.len() && crate::text::byte_offset(line@, x) == pos;
        proof {
            assert(0 <= kk <= line@.len() && crate::text::byte_offset(line@, kk) == pos);
            if kk < k {
                assert(offs[kk] < pos);
            }
            if kk > k {
                crate::text::lemma_byte_offset_mono(line@, k as int, kk);
                if k < v.len() {
                    assert(offs[k as int] >= pos);
                    crate::text::lemma_byte_offset_mono(line@, k as int + 1, kk);
                    crate::text::lemma_byte_offset_step(line@, k as int);
                } else {
                    assert(kk <= line@.len());
                }
            }
            assert(kk == k);
        }
        // The last slash before it.
        let mut j = k;
        while j > 0 && v[j - 1] != '/'
            invariant
                j <= k <= v.len(),
                v@ == line@,
                last_before(line@, k as int, '/') == last_before(line@, j as int, '/'),
            decreases j,
        {
            j = j - 1;
        }
        let mut out: Vec<Suggestion> = Vec::new();
        if j == 0 {
            assert(out@.map_values(|x: Suggestion| x.value@) =~= Seq::<Seq<char>>::empty());
            return out;
        }
        let slash = j - 1;
        assert(last_before(line@, k as int, '/') == slash);
        let typed = crate::text::string_of_range(&v, j, k);
        let prefix = to_lowercase(typed.as_str());
        let start = offs[slash] + 1;
        let ghost names = self.doc_names@.map_values(|n: String| n@);
        let mut i: usize = 0;
        assert(names.take(0) =~= Seq::<Seq<char>>::empty());
        while i < self.doc_names.len()
            invariant
                i <= self.doc_names.len(),
                names == self.doc_names@.map_values(|n: String| n@),
                out@.map_values(|x: Suggestion| x.value@) == suggestions(names.take(i as int), prefix@),
                forall|x: int| 0 <= x < out@.len() ==> (#[trigger] out@[x]).span.start == start && out@[x].span.end == pos
                    && out@[x].append_whitespace,
            decreases self.doc_names.len() - i,
        {
            let ghost before = out@;
            assert(names.take(i + 1).drop_last() =~= names.take(i as int));
            assert(names.take(i + 1).last() == self.doc_names@[i as int]@);
            match suggestion_exec(&self.doc_names[i], prefix.as_str()) {
                Some(value) => {
                    out.push(Suggestion { value, span: start..pos, append_whitespace: true });
                    assert(out@.map_values(|x: Suggestion| x.value@) =~= before.map_values(|x: Suggestion| x.value@).push(out@.last().value@));
                },
                None => {},
            }
            i = i + 1;
        }
        assert(names.take(self.doc_names.len() as int) =~= names);
        proof {
            crate::text::lemma_byte_offset_step(line@, slash as int);
        }
        out
    }
}

} // verus!

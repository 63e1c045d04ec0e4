//! The decisions of turning a scanned document into Markdown: what kind of input a file
//! is, where the Markdown may be written, how the recognised pages are put together, and
//! what bytes an extracted image holds.

use vstd::prelude::*;

use crate::gemini_chat::{base64_decode, base64_decoded};
use crate::prompter::{lowercased, to_lowercase};
use crate::text::{chars_of, push_str, str_eq, str_starts_with, string_of_range};

verus! {

/// How a source file is sent for recognition.
#[derive(Debug, Clone, Copy, PartialEq, Eq, Structural)]
pub enum OcrInputKind {
    /// Sent as a document (PDF, and any file of unknown kind).
    Document,
    /// Sent as an image.
    Image,
}

/// Whether `ext`, already in lower case, names an image format the service reads.
pub open spec fn is_image_extension(ext: Seq<char>) -> bool {
    ext == "png"@ || ext == "jpg"@ || ext == "jpeg"@ || ext == "webp"@ || ext == "bmp"@
}

/// The kind of input a file with extension `ext` (without the dot, in any case) is:
/// an image for the image formats, a document for everything else.
pub fn ocr_input_kind(ext: &str) -> (r: OcrInputKind)
    ensures
        is_image_extension(lowercased(ext@)) ==> r == OcrInputKind::Image,
        !is_image_extension(lowercased(ext@)) ==> r == OcrInputKind::Document,
{
    let e = to_lowercase(ext);
    let s = e.as_str();
    if str_eq(s, "png") || str_eq(s, "jpg") || str_eq(s, "jpeg") || str_eq(s, "webp") || str_eq(s, "bmp") {
        OcrInputKind::Image
    } else {
        OcrInputKind::Document
    }
}

/// Checks the path the Markdown is written to: it must end with `.md`.
pub fn check_target(path: &str) -> (r: Result<(), String>)
    ensures
        r is Ok <==> ".md"@.is_suffix_of(path@),
        r matches Err(m) ==> m@ == "Target path must end with .md"@,
{
    let v = chars_of(path);
    let n = v.len();
    if n >= 3 && v[n - 3] == '.' && v[n - 2] == 'm' && v[n - 1] == 'd' {
        proof {
            reveal_strlit(".md");
            assert(path@.subrange(n - 3, n as int) =~= ".md"@);
        }
        Ok(())
    } else {
        proof {
            reveal_strlit(".md");
            if ".md"@.is_suffix_of(path@) {
                assert(path@.subrange(n - 3, n as int) =~= ".md"@);
                assert(path@[n - 3] == ".md"@[0]);
                assert(path@[n - 2] == ".md"@[1]);
                assert(path@[n - 1] == ".md"@[2]);
            }
        }
        Err(String::from_str("Target path must end with .md"))
    }
}

/// Where page `p` goes among pages sorted by index: after every page whose index is not
/// greater, so that pages with equal indices keep their order.
pub open spec fn insert_at(sorted: Seq<(u32, Seq<char>)>, p: (u32, Seq<char>)) -> int
    decreases sorted.len(),
{
    if sorted.len() == 0 {
        0
    } else if sorted.last().0 <= p.0 {
        sorted.len() as int
    } else {
        insert_at(sorted.drop_last(), p)
    }
}

/// The pages sorted by index, stably: each page placed after those before it with an
/// index not greater than its own.
pub open spec fn sorted_pages(pages: Seq<(u32, Seq<char>)>) -> Seq<(u32, Seq<char>)>
    decreases pages.len(),
{
    if pages.len() == 0 {
        Seq::empty()
    } else {
        let s = sorted_pages(pages.drop_last());
        s.insert(insert_at(s, pages.last()), pages.last())
    }
}

/// The Markdown of the pages, in order, separated by a rule between blank lines.
pub open spec fn joined_pages(pages: Seq<(u32, Seq<char>)>) -> Seq<char>
    decreases pages.len(),
{
    if pages.len() == 0 {
        Seq::empty()
    } else if pages.len() == 1 {
        pages[0].1
    } else {
        joined_pages(pages.drop_last()) + "\n\n---\n\n"@ + pages.last().1
    }
}

pub open spec fn pages_view(pages: Seq<(u32, String)>) -> Seq<(u32, Seq<char>)> {
    pages.map_values(|p: (u32, String)| (p.0, p.1@))
}

proof fn lemma_insert_at(sorted: Seq<(u32, Seq<char>)>, p: (u32, Seq<char>))
    ensures
        0 <= insert_at(sorted, p) <= sorted.len(),
    decreases sorted.len(),
{
    if sorted.len() > 0 && sorted.last().0 > p.0 {
        lemma_insert_at(sorted.drop_last(), p);
    }
}

/// Where to insert `p` into `sorted`: the first place after which no index is greater.
fn insert_position(sorted: &Vec<(u32, String)>, p: u32, Ghost(text): Ghost<Seq<char>>) -> (r: usize)
    ensures
        r == insert_at(pages_view(sorted@), (p, text)),
{
    let ghost sv = pages_view(sorted@);
    let mut j = sorted.len();
    assert(sv.take(j as int) =~= sv);
    while j > 0 && sorted[j - 1].0 > p
        invariant
            j <= sorted.len(),
            sv == pages_view(sorted@),
            insert_at(sv.take(j as int), (p, text)) == insert_at(sv, (p, text)),
        decreases j,
    {
        assert(sv.take(j - 1) =~= sv.take(j as int).drop_last());
        j = j - 1;
    }
    assert(sv.take(sorted.len() as int) =~= sv);
    proof {
        if j > 0 {
            assert(sv.take(j as int).last().0 == sorted@[j - 1].0);
        }
    }
    j
}

/// The Markdown of all pages: sorted by index (pages with equal indices in the order
/// given), joined by `"\n\n---\n\n"`.
pub fn combine_pages(pages: Vec<(u32, String)>) -> (r: String)
    ensures
        r@ == joined_pages(sorted_pages(pages_view(pages@))),
{
    let ghost pv = pages_view(pages@);
    let mut pages = pages;
    let mut rest: Vec<(u32, String)> = Vec::new();
    // Take the pages from the end, so that `pages` keeps the front still to sort.
    while pages.len() > 0
        invariant
            pages_view(pages@) + pages_view(rest@) == pv,
        decreases pages.len(),
    {
        let ghost before = pages@;
        let p = pages.pop().unwrap();
        let ghost r0 = rest@;
        rest.insert(0, p);
        proof {
            assert(pages_view(before) =~= pages_view(pages@).push((p.0, p.1@)));
            assert(pages_view(rest@) =~= seq![(p.0, p.1@)] + pages_view(r0));
            assert(pages_view(pages@) + pages_view(rest@) =~= pages_view(before) + pages_view(r0));
        }
    }
    assert(pages_view(rest@) =~= pv);
    let mut sorted: Vec<(u32, String)> = Vec::new();
    let mut i: usize = 0;
    assert(pv.take(0) =~= Seq::<(u32, Seq<char>)>::empty());
    while i < rest.len()
        invariant
            pages_view(rest@) == pv,
            i <= rest.len(),
            pages_view(sorted@) == sorted_pages(pv.take(i as int)),
        decreases rest.len() - i,
    {
        let key = rest[i].0;
        let text = rest[i].1.clone();
        let ghost item = (key, text@);
        assert(pv[i as int] == item);
        let at = insert_position(&sorted, key, Ghost(text@));
        let ghost s0 = pages_view(sorted@);
        proof {
            lemma_insert_at(s0, item);
        }
        sorted.insert(at, (key, text));
        proof {
            assert(pv.take(i + 1).drop_last() =~= pv.take(i as int));
            assert(pv.take(i + 1).last() == item);
            assert(pages_view(sorted@) =~= s0.insert(at as int, item));
        }
        i = i + 1;
    }
    assert(pv.take(rest.len() as int) =~= pv);
    let ghost sv = pages_view(sorted@);
    let mut out = String::new();
    let mut j: usize = 0;
    assert(sv.take(0) =~= Seq::<(u32, Seq<char>)>::empty());
    while j < sorted.len()
        invariant
            sv == pages_view(sorted@),
            j <= sorted.len(),
            out@ == joined_pages(sv.take(j as int)),
        decreases sorted.len() - j,
    {
        assert(sv.take(j + 1).drop_last() =~= sv.take(j as int));
        if j > 0 {
            push_str(&mut out, "\n\n---\n\n");
        }
        push_str(&mut out, sorted[j].1.as_str());
        proof {
            if j == 0 {
                assert(sv.take(1)[0] == sv[0]);
                assert(out@ =~= sv.take(1)[0].1);
            }
        }
        j = j + 1;
    }
    assert(sv.take(sorted.len() as int) =~= sv);
    out
}

/// The first index of `c` in `s`, if any.
pub open spec fn first_index(s: Seq<char>, c: char, from: int) -> Option<int>
    decreases s.len() - from,
{
    if from < 0 || from >= s.len() {
        None
    } else if s[from] == c {
        Some(from)
    } else {
        first_index(s, c, from + 1)
    }
}

/// The base64 text of an extracted image: after the first comma of a `data:` URL, or the
/// whole text when it is no such URL or has no comma.
pub open spec fn payload_text(s: Seq<char>) -> Seq<char> {
    if "data:"@.is_prefix_of(s) {
        match first_index(s, ',', 0) {
            Some(i) => s.subrange(i + 1, s.len() as int),
            None => s,
        }
    } else {
        s
    }
}

/// The bytes of an extracted image given as base64 text, possibly as a `data:` URL:
/// standard base64 decoding of `payload_text`, or the decoder's error.
pub fn image_payload(b64: &str) -> (r: Result<Vec<u8>, String>)
    ensures
        match base64_decoded(payload_text(b64@)) {
            Ok(b) => r matches Ok(v) && v@ == b,
            Err(m) => r matches Err(e) && e@ == m,
        },
{
    let v = chars_of(b64);
    let payload = if str_starts_with(b64, "data:") {
        let mut i: usize = 0;
        while i < v.len() && v[i] != ','
            invariant
                i <= v.len(),
                first_index(v@, ',', 0) == first_index(v@, ',', i as int),
            decreases v.len() - i,
        {
            i = i + 1;
        }
        if i < v.len() {
            string_of_range(&v, i + 1, v.len())
        } else {
            b64.to_owned()
        }
    } else {
        b64.to_owned()
    };
    assert(payload@ == payload_text(b64@));
    base64_decode(payload.as_str())
}

} // verus!

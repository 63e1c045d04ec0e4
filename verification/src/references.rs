//! Document references in a prompt line, rewritten from the typed `/name` or `/"a name"`
//! form into `[[name]]`, which tells a model more plainly that a document is meant.

use vstd::prelude::*;
use vstd::string::StringSliceAdditionalSpecFns;
use vstd::utf8::*;

use crate::prompter::{
    doc_refs, isolate_document_names_with_prefix_suffix, lemma_find_byte, lemma_refs_well_placed, refs_match,
    refs_well_placed, DocRef,
};
use crate::text::push_str;
use crate::text_parts::lines_view;

verus! {

/// The text of the bytes `lo..hi` of a line.
pub open spec fn piece(b: Seq<u8>, lo: int, hi: int) -> Seq<char> {
    decode_utf8(b.subrange(lo, hi))
}

/// The line from byte `last` on, each reference in `refs` written `[[name]]`: its marker
/// and its closing replaced, all else kept.
pub open spec fn bracketed_from(b: Seq<u8>, refs: Seq<DocRef>, last: int) -> Seq<char>
    decreases refs.len(),
{
    if refs.len() == 0 {
        piece(b, last, b.len() as int)
    } else {
        let r = refs[0];
        piece(b, last, r.0) + "[["@ + piece(b, r.2, r.3) + "]]"@ + bracketed_from(b, refs.drop_first(), r.5)
    }
}

/// The names of the references in `refs`.
pub open spec fn ref_names(b: Seq<u8>, refs: Seq<DocRef>) -> Seq<Seq<char>> {
    refs.map_values(|r: DocRef| piece(b, r.2, r.3))
}

/// Where each name of `refs` ends: at the end of the line, or at a space or a quote.
pub open spec fn names_end_marked(b: Seq<u8>, refs: Seq<DocRef>) -> bool {
    forall|i: int|
        0 <= i < refs.len() ==> ((#[trigger] refs[i]).3 == b.len() || b[refs[i].3] == 0x20u8 || b[refs[i].3]
            == 0x22u8) && (refs[i].5 == refs[i].4 + 1 ==> b[refs[i].3] == 0x22u8)
}

proof fn lemma_names_end_marked(b: Seq<u8>, from: int)
    requires
        0 <= from,
    ensures
        names_end_marked(b, doc_refs(b, from)),
    decreases b.len() - from,
{
    lemma_find_byte(b, from, 0x2Fu8);
    match crate::prompter::find_byte(b, from, 0x2Fu8) {
        None => {},
        Some(start) => {
            let refs = doc_refs(b, from);
            if start + 1 < b.len() && b[start + 1] == 0x22u8 {
                lemma_find_byte(b, start + 2, 0x22u8);
                match crate::prompter::find_byte(b, start + 2, 0x22u8) {
                    Some(end) => {
                        lemma_names_end_marked(b, end);
                        let rest = doc_refs(b, end);
                        assert(refs == seq![(start, start + 2, start + 2, end, end, end + 1)] + rest);
                        assert forall|i: int| 0 <= i < refs.len() implies ((#[trigger] refs[i]).3 == b.len()
                            || b[refs[i].3] == 0x20u8 || b[refs[i].3] == 0x22u8) && (refs[i].5 == refs[i].4 + 1
                            ==> b[refs[i].3] == 0x22u8) by {
                            if i > 0 {
                                assert(refs[i] == rest[i - 1]);
                            }
                        }
                    },
                    None => {},
                }
            } else {
                lemma_find_byte(b, start, 0x20u8);
                let end = match crate::prompter::find_byte(b, start, 0x20u8) {
                    Some(e) => e,
                    None => b.len() as int,
                };
                lemma_names_end_marked(b, end);
                let rest = doc_refs(b, end);
                if end > start + 1 {
                    assert(refs == seq![(start, start + 1, start + 1, end, end, end)] + rest);
                    assert forall|i: int| 0 <= i < refs.len() implies ((#[trigger] refs[i]).3 == b.len()
                        || b[refs[i].3] == 0x20u8 || b[refs[i].3] == 0x22u8) && (refs[i].5 == refs[i].4 + 1
                        ==> b[refs[i].3] == 0x22u8) by {
                        if i > 0 {
                            assert(refs[i] == rest[i - 1]);
                        }
                    }
                } else {
                    assert(refs == rest);
                }
            }
        },
    }
}

/// An ASCII byte starts a character, and so does the byte after it.
proof fn lemma_ascii_boundary(b: Seq<u8>, i: int)
    requires
        valid_utf8(b),
        0 <= i < b.len(),
        b[i] <= 0x7f,
    ensures
        is_char_boundary(b, i),
        is_char_boundary(b, i + 1),
{
    is_char_boundary_iff_not_is_continuation_byte(b, i);
    if i + 1 == b.len() {
        is_char_boundary_start_end_of_seq(b);
    } else {
        valid_utf8_split(b, i);
        let s = b.subrange(i, b.len() as int);
        assert(s[0] == b[i]);
        assert(valid_first_scalar(s) && valid_utf8(pop_first_scalar(s)));
        let t = pop_first_scalar(s);
        assert(t =~= b.subrange(i + 1, b.len() as int));
        assert(t.len() > 0);
        assert(valid_first_scalar(t));
        assert(t[0] == b[i + 1]);
        is_char_boundary_iff_not_is_continuation_byte(b, i + 1);
    }
}

/// Where each reference's pieces start and end, a character starts or the line ends.
pub open spec fn refs_on_boundaries(b: Seq<u8>, refs: Seq<DocRef>) -> bool {
    forall|i: int|
        0 <= i < refs.len() ==> {
            let r = #[trigger] refs[i];
            &&& is_char_boundary(b, r.0)
            &&& is_char_boundary(b, r.2)
            &&& is_char_boundary(b, r.3)
            &&& is_char_boundary(b, r.5)
        }
}

proof fn lemma_refs_on_boundaries(b: Seq<u8>)
    requires
        valid_utf8(b),
    ensures
        refs_on_boundaries(b, doc_refs(b, 0)),
        refs_well_placed(b, doc_refs(b, 0), 0),
{
    let refs = doc_refs(b, 0);
    lemma_refs_well_placed(b, 0);
    lemma_names_end_marked(b, 0);
    is_char_boundary_start_end_of_seq(b);
    assert forall|i: int| 0 <= i < refs.len() implies {
        let r = #[trigger] refs[i];
        &&& is_char_boundary(b, r.0)
        &&& is_char_boundary(b, r.2)
        &&& is_char_boundary(b, r.3)
        &&& is_char_boundary(b, r.5)
    } by {
        let r = refs[i];
        lemma_ascii_boundary(b, r.0);
        if r.1 == r.0 + 2 {
            lemma_ascii_boundary(b, r.0 + 1);
        }
        if r.3 < b.len() {
            lemma_ascii_boundary(b, r.3);
        }
    }
}

/// A character boundary of a line is one of its prefixes too.
proof fn lemma_boundary_in_prefix(b: Seq<u8>, hi: int, lo: int)
    requires
        valid_utf8(b),
        is_char_boundary(b, hi),
        is_char_boundary(b, lo),
        0 <= lo <= hi <= b.len(),
    ensures
        valid_utf8(b.subrange(0, hi)),
        is_char_boundary(b.subrange(0, hi), lo),
{
    valid_utf8_split(b, hi);
    let p = b.subrange(0, hi);
    is_char_boundary_start_end_of_seq(p);
    if lo < hi {
        is_char_boundary_iff_not_is_continuation_byte(b, lo);
        is_char_boundary_iff_not_is_continuation_byte(p, lo);
    }
}

/// The text of bytes `lo..hi` of `s`, both character boundaries.
fn slice_text(s: &str, lo: usize, hi: usize) -> (r: String)
    requires
        lo <= hi <= s.spec_bytes().len(),
        is_char_boundary(s.spec_bytes(), lo as int),
        is_char_boundary(s.spec_bytes(), hi as int),
    ensures
        r@ == piece(s.spec_bytes(), lo as int, hi as int),
{
    proof {
        encode_utf8_valid_utf8(s@);
        lemma_boundary_in_prefix(s.spec_bytes(), hi as int, lo as int);
    }
    let (p, _) = s.split_at(hi);
    let (_, m) = p.split_at(lo);
    proof {
        assert(m.spec_bytes() =~= s.spec_bytes().subrange(lo as int, hi as int));
        encode_utf8_decode_utf8(m@);
    }
    m.to_owned()
}

proof fn lemma_ref_facts(b: Seq<u8>, refs: Seq<DocRef>, i: int, last: int)
    requires
        refs_well_placed(b, refs, 0),
        refs_on_boundaries(b, refs),
        0 <= i < refs.len(),
        i > 0 ==> last == refs[i - 1].5,
        i == 0 ==> last == 0,
    ensures
        0 <= last <= refs[i].0 <= refs[i].2 <= refs[i].3 <= refs[i].5 <= b.len(),
        is_char_boundary(b, refs[i].0),
        is_char_boundary(b, refs[i].2),
        is_char_boundary(b, refs[i].3),
        is_char_boundary(b, refs[i].5),
{
    let r = refs[i];
    if i > 0 {
        assert(refs[i - 1].5 <= refs[(i - 1) + 1].0);
    }
}

proof fn lemma_names_step(b: Seq<u8>, refs: Seq<DocRef>, i: int)
    requires
        0 <= i < refs.len(),
    ensures
        ref_names(b, refs.take(i + 1)) == ref_names(b, refs.take(i)).push(piece(b, refs[i].2, refs[i].3)),
{
    assert(refs.take(i + 1) =~= refs.take(i).push(refs[i]));
    assert(ref_names(b, refs.take(i + 1)) =~= ref_names(b, refs.take(i)).push(piece(b, refs[i].2, refs[i].3)));
}

proof fn lemma_bracket_step(b: Seq<u8>, refs: Seq<DocRef>, i: int, last: int)
    requires
        0 <= i < refs.len(),
    ensures
        bracketed_from(b, refs.skip(i), last) == piece(b, last, refs[i].0) + "[["@ + piece(b, refs[i].2, refs[i].3)
            + "]]"@ + bracketed_from(b, refs.skip(i + 1), refs[i].5),
{
    assert(refs.skip(i).drop_first() =~= refs.skip(i + 1));
    assert(refs.skip(i)[0] == refs[i]);
}

/// The line with each document reference written `[[name]]` in place of `/name` or
/// `/"name"`, and the names referred to, in order.
pub fn bracket_document_references(input: &str) -> (r: (String, Vec<String>))
    ensures
        r.0@ == bracketed_from(input.spec_bytes(), doc_refs(input.spec_bytes(), 0), 0),
        lines_view(r.1@) == ref_names(input.spec_bytes(), doc_refs(input.spec_bytes(), 0)),
{
    let ghost b = input.spec_bytes();
    let ghost refs = doc_refs(b, 0);
    let all = isolate_document_names_with_prefix_suffix(input);
    proof {
        encode_utf8_valid_utf8(input@);
        lemma_refs_on_boundaries(b);
        is_char_boundary_start_end_of_seq(b);
        assert(refs.skip(0) =~= refs);
    }
    let len = input.as_bytes().len();
    let mut out = String::new();
    let mut names: Vec<String> = Vec::new();
    let mut last: usize = 0;
    let mut i: usize = 0;
    while i < all.len()
        invariant
            b == input.spec_bytes(),
            len == b.len(),
            valid_utf8(b),
            refs == doc_refs(b, 0),
            refs_match(all@, refs),
            refs_well_placed(b, refs, 0),
            refs_on_boundaries(b, refs),
            is_char_boundary(b, len as int),
            i <= all.len(),
            i > 0 ==> last == refs[i - 1].5,
            i == 0 ==> last == 0,
            is_char_boundary(b, last as int),
            out@ + bracketed_from(b, refs.skip(i as int), last as int) == bracketed_from(b, refs, 0),
            lines_view(names@) == ref_names(b, refs.take(i as int)),
        decreases all.len() - i,
    {
        let ghost rf = refs[i as int];
        proof {
            lemma_ref_facts(b, refs, i as int, last as int);
            lemma_bracket_step(b, refs, i as int, last as int);
            lemma_names_step(b, refs, i as int);
        }
        let prefix_start = all[i].0.start;
        let name_start = all[i].1.start;
        let name_end = all[i].1.end;
        let suffix_end = all[i].2.end;
        let before = slice_text(input, last, prefix_start);
        let name = slice_text(input, name_start, name_end);
        let ghost out0 = out@;
        push_str(&mut out, before.as_str());
        push_str(&mut out, "[[");
        push_str(&mut out, name.as_str());
        push_str(&mut out, "]]");
        let ghost names0 = names@;
        names.push(name);
        proof {
            assert(lines_view(names@) =~= lines_view(names0).push(piece(b, rf.2, rf.3)));
            let head = piece(b, last as int, rf.0) + "[["@ + piece(b, rf.2, rf.3) + "]]"@;
            assert(out@ =~= out0 + head);
            assert(out@ + bracketed_from(b, refs.skip(i + 1), rf.5) =~= out0 + bracketed_from(
                b,
                refs.skip(i as int),
                last as int,
            ));
        }
        last = suffix_end;
        i = i + 1;
    }
    let rest = slice_text(input, last, len);
    let ghost out0 = out@;
    push_str(&mut out, rest.as_str());
    proof {
        assert(refs.skip(i as int) =~= Seq::<DocRef>::empty());
        assert(refs.take(i as int) =~= refs);
        assert(out@ == out0 + piece(b, last as int, b.len() as int));
    }
    (out, names)
}

/// Each document reference is written `/name` or `/"name"`: its marker is a slash,
/// right before the name, or a slash and a quote; its closing is empty after an unquoted
/// name and the closing quote after a quoted one; references follow one another in order.
pub proof fn law_reference_shape(b: Seq<u8>)
    ensures
        ({
            let refs = doc_refs(b, 0);
            &&& forall|i: int|
                0 <= i < refs.len() ==> {
                    let r = #[trigger] refs[i];
                    &&& 0 <= r.0 < r.1 == r.2 <= r.3 == r.4 <= r.5 <= b.len()
                    &&& b[r.0] == 0x2Fu8
                    &&& (r.1 == r.0 + 1 && r.5 == r.4) || (r.1 == r.0 + 2 && b[r.0 + 1] == 0x22u8 && r.5
                        == r.4 + 1 && b[r.4] == 0x22u8)
                }
            &&& forall|i: int| 0 <= i < refs.len() - 1 ==> (#[trigger] refs[i]).5 <= refs[i + 1].0
        }),
{
    lemma_refs_well_placed(b, 0);
    lemma_names_end_marked(b, 0);
}

} // verus!

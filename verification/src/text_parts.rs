use vstd::prelude::*;

use crate::hashing::{concat_bytes, sha256, TextHash};
use crate::text::{chars_of, push_char, push_str, string_of_range};
use vstd::string::StringSliceAdditionalSpecFns;

verus! {

/// A named part of a document's text.
#[derive(Debug, Clone, PartialEq, Eq, Hash)]
pub struct Part {
    id: String,
    content: String,
}

/// The text of a document: its parts, in order.
#[derive(Debug, Clone, PartialEq, Eq)]
pub struct Text {
    parts: Vec<Part>,
}

pub open spec fn part_view(p: Part) -> (Seq<char>, Seq<char>) {
    (p.spec_id(), p.spec_content())
}

impl Part {
    pub closed spec fn spec_id(self) -> Seq<char> {
        self.id@
    }

    pub closed spec fn spec_content(self) -> Seq<char> {
        self.content@
    }

    pub fn new(id: String, content: String) -> (r: Self)
        ensures
            r.spec_id() == id@,
            r.spec_content() == content@,
    {
        Part { id, content }
    }

    pub fn id(&self) -> (r: &str)
        ensures
            r@ == self.spec_id(),
    {
        self.id.as_str()
    }

    /// The part's text, to be changed in place; the id stays.
    pub fn content_mut(&mut self) -> (r: &mut String)
        ensures
            r@ == old(self).spec_content(),
            final(self).spec_id() == old(self).spec_id(),
            final(self).spec_content() == final(r)@,
    {
        &mut self.content
    }

    /// The part's text.
    pub fn content(&self) -> (r: &str)
        ensures
            r@ == self.spec_content(),
    {
        self.content.as_str()
    }
}

// ---------------------------------------------------------------------------------------
// The format: parts after one another, each a milestone line naming it, then its text.
// ---------------------------------------------------------------------------------------

pub open spec fn ms_open() -> Seq<char> {
    "<milestone unit=\"part\" n=\""@
}

pub open spec fn ms_close() -> Seq<char> {
    "\" />"@
}

/// The milestone line that opens part `id`.
pub open spec fn tag_line(id: Seq<char>) -> Seq<char> {
    ms_open() + id + ms_close()
}

pub open spec fn no_char(s: Seq<char>, c: char) -> bool {
    forall|i: int| 0 <= i < s.len() ==> s[i] != c
}

/// A milestone line: the opening, an id without `"`, the closing.
pub open spec fn is_tag_line(l: Seq<char>) -> bool {
    &&& l.len() >= ms_open().len() + ms_close().len()
    &&& l.take(ms_open().len() as int) == ms_open()
    &&& l.skip(l.len() - ms_close().len()) == ms_close()
    &&& no_char(tag_id(l), '"')
}

pub open spec fn tag_id(l: Seq<char>) -> Seq<char> {
    l.subrange(ms_open().len() as int, l.len() - ms_close().len())
}

/// How `s` reads line by line: the finished lines and the line being read.
pub open spec fn lines_acc(s: Seq<char>) -> (Seq<Seq<char>>, Seq<char>)
    decreases s.len(),
{
    if s.len() == 0 {
        (Seq::empty(), Seq::empty())
    } else {
        let (ls, cur) = lines_acc(s.drop_last());
        if s.last() == '\n' {
            (ls.push(cur), Seq::empty())
        } else {
            (ls, cur.push(s.last()))
        }
    }
}

/// The lines of `s`; a final newline ends the last line rather than opening an empty one.
pub open spec fn split_lines(s: Seq<char>) -> Seq<Seq<char>> {
    let (ls, cur) = lines_acc(s);
    if cur.len() > 0 {
        ls.push(cur)
    } else {
        ls
    }
}

/// The pieces of `s` between newlines, the last one included even when empty.
pub open spec fn all_pieces(s: Seq<char>) -> Seq<Seq<char>> {
    lines_acc(s).0.push(lines_acc(s).1)
}

/// Lines joined by newlines.
pub open spec fn join_lines(ls: Seq<Seq<char>>) -> Seq<char>
    decreases ls.len(),
{
    if ls.len() == 0 {
        Seq::empty()
    } else if ls.len() == 1 {
        ls[0]
    } else {
        join_lines(ls.drop_last()) + seq!['\n'] + ls.last()
    }
}

/// Each milestone line opens a region, which takes the lines up to the next one; lines
/// before the first milestone belong to none.
pub open spec fn regions(lines: Seq<Seq<char>>) -> Seq<(Seq<char>, Seq<Seq<char>>)>
    decreases lines.len(),
{
    if lines.len() == 0 {
        Seq::empty()
    } else {
        let prev = regions(lines.drop_last());
        let l = lines.last();
        if is_tag_line(l) {
            prev.push((tag_id(l), Seq::empty()))
        } else if prev.len() == 0 {
            prev
        } else {
            prev.update(prev.len() - 1, (prev.last().0, prev.last().1.push(l)))
        }
    }
}

pub open spec fn has_id(ps: Seq<(Seq<char>, Seq<char>)>, id: Seq<char>) -> bool {
    exists|j: int| 0 <= j < ps.len() && (#[trigger] ps[j]).0 == id
}

/// Regions as parts; a region whose id came before is dropped.
pub open spec fn region_parts(rs: Seq<(Seq<char>, Seq<Seq<char>>)>) -> Seq<(Seq<char>, Seq<char>)>
    decreases rs.len(),
{
    if rs.len() == 0 {
        Seq::empty()
    } else {
        let prev = region_parts(rs.drop_last());
        if has_id(prev, rs.last().0) {
            prev
        } else {
            prev.push((rs.last().0, join_lines(rs.last().1)))
        }
    }
}

/// The parts that importing `text` gives: one unnamed part holding all of it when
/// `multipart` is unset, else the parts its milestones delimit.
pub open spec fn import_spec(text: Option<Seq<char>>, multipart: bool) -> Seq<(Seq<char>, Seq<char>)> {
    match text {
        None => Seq::empty(),
        Some(t) => if multipart {
            region_parts(regions(split_lines(t)))
        } else {
            seq![(Seq::<char>::empty(), t)]
        },
    }
}

/// The text of parts `ps`, each introduced by its milestone line and ended by a newline.
pub open spec fn parts_text(ps: Seq<(Seq<char>, Seq<char>)>) -> Seq<char>
    decreases ps.len(),
{
    if ps.len() == 0 {
        Seq::empty()
    } else {
        parts_text(ps.drop_last()) + tag_line(ps.last().0) + seq!['\n'] + ps.last().1 + seq!['\n']
    }
}

/// The text that exporting parts `ps` gives: none for no part, the content alone for a
/// single unnamed part, the milestone format otherwise.
pub open spec fn export_spec(ps: Seq<(Seq<char>, Seq<char>)>) -> Option<Seq<char>> {
    if ps.len() == 0 {
        None
    } else if ps.len() == 1 && ps[0].0.len() == 0 {
        Some(ps[0].1)
    } else {
        Some(parts_text(ps))
    }
}

// ---------------------------------------------------------------------------------------
// Lemmas
// ---------------------------------------------------------------------------------------

proof fn lemma_lines_acc_append(a: Seq<char>, b: Seq<char>)
    requires
        lines_acc(a).1.len() == 0,
    ensures
        lines_acc(a + b) == (lines_acc(a).0 + lines_acc(b).0, lines_acc(b).1),
    decreases b.len(),
{
    if b.len() == 0 {
        assert(a + b =~= a);
        assert(lines_acc(a).0 + lines_acc(b).0 =~= lines_acc(a).0);
    } else {
        lemma_lines_acc_append(a, b.drop_last());
        assert((a + b).drop_last() =~= a + b.drop_last());
        let (ls, cur) = lines_acc(b.drop_last());
        assert(lines_acc(a).0 + ls.push(cur) =~= (lines_acc(a).0 + ls).push(cur));
    }
}

proof fn lemma_lines_acc_no_newline(s: Seq<char>)
    requires
        no_char(s, '\n'),
    ensures
        lines_acc(s) == (Seq::<Seq<char>>::empty(), s),
    decreases s.len(),
{
    if s.len() > 0 {
        lemma_lines_acc_no_newline(s.drop_last());
        assert(s.drop_last().push(s.last()) =~= s);
    }
}

proof fn lemma_tag_line_shape(id: Seq<char>)
    requires
        no_char(id, '"'),
        no_char(id, '\n'),
    ensures
        is_tag_line(tag_line(id)),
        tag_id(tag_line(id)) == id,
        no_char(tag_line(id), '\n'),
{
    reveal_strlit("<milestone unit=\"part\" n=\"");
    reveal_strlit("\" />");
    let t = tag_line(id);
    assert(t.take(ms_open().len() as int) =~= ms_open());
    assert(t.skip(t.len() - ms_close().len()) =~= ms_close());
    assert(tag_id(t) =~= id);
    assert forall|i: int| 0 <= i < t.len() implies t[i] != '\n' by {
        if i < ms_open().len() {
            assert(t[i] == ms_open()[i]);
        } else if i < ms_open().len() + id.len() {
            assert(t[i] == id[i - ms_open().len()]);
        } else {
            assert(t[i] == ms_close()[i - ms_open().len() - id.len()]);
        }
    }
}

/// The lines of one exported part: its milestone line, then the pieces of its content.
proof fn lemma_block_lines(id: Seq<char>, c: Seq<char>)
    requires
        no_char(id, '"'),
        no_char(id, '\n'),
    ensures
        lines_acc(tag_line(id) + seq!['\n'] + c + seq!['\n']) == (
            seq![tag_line(id)] + all_pieces(c),
            Seq::<char>::empty(),
        ),
{
    lemma_tag_line_shape(id);
    let t = tag_line(id);
    lemma_lines_acc_no_newline(t);
    assert((t + seq!['\n']).drop_last() =~= t);
    assert(lines_acc(t + seq!['\n']) == (seq![t], Seq::<char>::empty()));
    let x = t + seq!['\n'] + c;
    lemma_lines_acc_append(t + seq!['\n'], c);
    assert((x + seq!['\n']).drop_last() =~= x);
    assert(seq![t] + lines_acc(c).0.push(lines_acc(c).1) =~= (seq![t] + lines_acc(c).0).push(lines_acc(c).1));
}

proof fn lemma_parts_text_lines(ps: Seq<(Seq<char>, Seq<char>)>)
    requires
        forall|i: int| 0 <= i < ps.len() ==> no_char(#[trigger] ps[i].0, '"') && no_char(ps[i].0, '\n'),
    ensures
        lines_acc(parts_text(ps)) == (part_lines(ps), Seq::<char>::empty()),
    decreases ps.len(),
{
    if ps.len() > 0 {
        let prev = ps.drop_last();
        assert forall|i: int| 0 <= i < prev.len() implies no_char(#[trigger] prev[i].0, '"') && no_char(prev[i].0, '\n') by {
            assert(prev[i] == ps[i]);
        }
        lemma_parts_text_lines(prev);
        let (id, c) = ps.last();
        lemma_block_lines(id, c);
        let blk = tag_line(id) + seq!['\n'] + c + seq!['\n'];
        lemma_lines_acc_append(parts_text(prev), blk);
        assert(parts_text(ps) =~= parts_text(prev) + blk);
    }
}

/// The lines of the text of `ps`, part after part.
pub open spec fn part_lines(ps: Seq<(Seq<char>, Seq<char>)>) -> Seq<Seq<char>>
    decreases ps.len(),
{
    if ps.len() == 0 {
        Seq::empty()
    } else {
        part_lines(ps.drop_last()) + (seq![tag_line(ps.last().0)] + all_pieces(ps.last().1))
    }
}

pub open spec fn no_tag_lines(ls: Seq<Seq<char>>) -> bool {
    forall|i: int| 0 <= i < ls.len() ==> !is_tag_line(#[trigger] ls[i])
}

proof fn lemma_regions_body(pre: Seq<Seq<char>>, id: Seq<char>, body: Seq<Seq<char>>)
    requires
        is_tag_line(tag_line(id)),
        tag_id(tag_line(id)) == id,
        no_tag_lines(body),
    ensures
        regions(pre + seq![tag_line(id)] + body) == regions(pre).push((id, body)),
    decreases body.len(),
{
    if body.len() == 0 {
        assert(pre + seq![tag_line(id)] + body =~= pre.push(tag_line(id)));
        assert(pre.push(tag_line(id)).drop_last() =~= pre);
        assert(body =~= Seq::<Seq<char>>::empty());
    } else {
        let b2 = body.drop_last();
        assert(no_tag_lines(b2)) by {
            assert forall|i: int| 0 <= i < b2.len() implies !is_tag_line(#[trigger] b2[i]) by {
                assert(b2[i] == body[i]);
            }
        }
        lemma_regions_body(pre, id, b2);
        let all = pre + seq![tag_line(id)] + body;
        assert(all.drop_last() =~= pre + seq![tag_line(id)] + b2);
        assert(!is_tag_line(body[body.len() - 1]));
        assert(all.last() == body.last());
        let prev = regions(pre).push((id, b2));
        assert(b2.push(body.last()) =~= body);
        assert(prev.last() == (id, b2));
        assert(prev.update(prev.len() - 1, (prev.last().0, prev.last().1.push(body.last())))
            =~= regions(pre).push((id, body)));
        assert(regions(all) == prev.update(prev.len() - 1, (prev.last().0, prev.last().1.push(all.last()))));
    }
}

pub open spec fn content_ok(c: Seq<char>) -> bool {
    no_tag_lines(all_pieces(c))
}

/// What exporting needs of parts for importing to give them back.
pub open spec fn exportable(ps: Seq<(Seq<char>, Seq<char>)>) -> bool {
    &&& forall|i: int| 0 <= i < ps.len() ==> no_char(#[trigger] ps[i].0, '"') && no_char(ps[i].0, '\n')
    &&& forall|i: int| 0 <= i < ps.len() ==> content_ok(#[trigger] ps[i].1)
    &&& forall|i: int, j: int| 0 <= i < j < ps.len() ==> (#[trigger] ps[i]).0 != (#[trigger] ps[j]).0
}

proof fn lemma_regions_of_parts(ps: Seq<(Seq<char>, Seq<char>)>)
    requires
        exportable(ps),
    ensures
        regions(part_lines(ps)) == ps.map_values(
            |p: (Seq<char>, Seq<char>)| (p.0, all_pieces(p.1)),
        ),
    decreases ps.len(),
{
    if ps.len() > 0 {
        let prev = ps.drop_last();
        assert(exportable(prev)) by {
            assert forall|i: int| 0 <= i < prev.len() implies no_char(#[trigger] prev[i].0, '"') && no_char(prev[i].0, '\n') by {
                assert(prev[i] == ps[i]);
            }
            assert forall|i: int| 0 <= i < prev.len() implies content_ok(#[trigger] prev[i].1) by {
                assert(prev[i] == ps[i]);
            }
            assert forall|i: int, j: int| 0 <= i < j < prev.len() implies (#[trigger] prev[i]).0 != (#[trigger] prev[j]).0 by {
                assert(prev[i] == ps[i]);
                assert(prev[j] == ps[j]);
            }
        }
        lemma_regions_of_parts(prev);
        let (id, c) = ps.last();
        assert(no_char(ps[ps.len() - 1].0, '"'));
        assert(content_ok(ps[ps.len() - 1].1));
        lemma_tag_line_shape(id);
        lemma_regions_body(part_lines(prev), id, all_pieces(c));
        assert(part_lines(ps) =~= part_lines(prev) + seq![tag_line(id)] + all_pieces(c));
        assert(ps.map_values(|p: (Seq<char>, Seq<char>)| (p.0, all_pieces(p.1))) =~= prev.map_values(
            |p: (Seq<char>, Seq<char>)| (p.0, all_pieces(p.1)),
        ).push((id, all_pieces(c))));
    }
}

proof fn lemma_join_pieces(c: Seq<char>)
    ensures
        join_lines(all_pieces(c)) == c,
    decreases c.len(),
{
    if c.len() > 0 {
        let c2 = c.drop_last();
        lemma_join_pieces(c2);
        let (ls, cur) = lines_acc(c2);
        assert(c2.push(c.last()) =~= c);
        if c.last() == '\n' {
            assert(all_pieces(c) =~= ls.push(cur).push(Seq::empty()));
            assert(all_pieces(c).drop_last() =~= ls.push(cur));
            assert(join_lines(all_pieces(c)) =~= c2 + seq!['\n'] + Seq::<char>::empty());
        } else {
            assert(all_pieces(c) =~= ls.push(cur.push(c.last())));
            assert(all_pieces(c).drop_last() =~= ls);
            assert(all_pieces(c2).drop_last() =~= ls);
            if ls.len() == 0 {
                assert(join_lines(all_pieces(c)) =~= cur.push(c.last()));
                assert(c2 =~= cur);
            } else {
                assert(join_lines(all_pieces(c2)) == join_lines(ls) + seq!['\n'] + cur);
                assert(join_lines(all_pieces(c)) =~= join_lines(ls) + seq!['\n'] + cur.push(c.last()));
            }
        }
    } else {
        assert(all_pieces(c) =~= seq![Seq::<char>::empty()]);
    }
}

proof fn lemma_region_parts_distinct(ps: Seq<(Seq<char>, Seq<char>)>)
    requires
        exportable(ps),
    ensures
        region_parts(ps.map_values(|p: (Seq<char>, Seq<char>)| (p.0, all_pieces(p.1)))) == ps,
    decreases ps.len(),
{
    if ps.len() > 0 {
        let prev = ps.drop_last();
        assert(exportable(prev)) by {
            assert forall|i: int| 0 <= i < prev.len() implies no_char(#[trigger] prev[i].0, '"') && no_char(prev[i].0, '\n') by {
                assert(prev[i] == ps[i]);
            }
            assert forall|i: int| 0 <= i < prev.len() implies content_ok(#[trigger] prev[i].1) by {
                assert(prev[i] == ps[i]);
            }
            assert forall|i: int, j: int| 0 <= i < j < prev.len() implies (#[trigger] prev[i]).0 != (#[trigger] prev[j]).0 by {
                assert(prev[i] == ps[i]);
                assert(prev[j] == ps[j]);
            }
        }
        lemma_region_parts_distinct(prev);
        let rs = ps.map_values(|p: (Seq<char>, Seq<char>)| (p.0, all_pieces(p.1)));
        assert(rs.drop_last() =~= prev.map_values(|p: (Seq<char>, Seq<char>)| (p.0, all_pieces(p.1))));
        let (id, c) = ps.last();
        lemma_join_pieces(c);
        assert(!has_id(prev, id)) by {
            if has_id(prev, id) {
                let j = choose|j: int| 0 <= j < prev.len() && (#[trigger] prev[j]).0 == id;
                assert(ps[j] == prev[j]);
                assert(ps[j].0 != ps[ps.len() - 1].0);
            }
        }
        assert(prev.push((id, c)) =~= ps);
    }
}

/// What one exports, one imports: parts without the milestone format's pitfalls (an id
/// holding `"` or a newline, a content line that reads as a milestone, an id used twice)
/// come back from their exported text as they were.
pub proof fn law_import_export_roundtrip(ps: Seq<(Seq<char>, Seq<char>)>)
    requires
        exportable(ps),
    ensures
        export_spec(ps) is None ==> import_spec(None, true) == ps,
        export_spec(ps) matches Some(t) ==> import_spec(Some(t), !(ps.len() == 1 && ps[0].0.len() == 0))
            == ps,
{
    if ps.len() == 0 {
        assert(import_spec(None, true) =~= ps);
    } else if ps.len() == 1 && ps[0].0.len() == 0 {
        assert(ps[0].0 =~= Seq::<char>::empty());
        assert(seq![(Seq::<char>::empty(), ps[0].1)] =~= ps);
    } else {
        lemma_parts_text_lines(ps);
        assert(split_lines(parts_text(ps)) == part_lines(ps));
        lemma_regions_of_parts(ps);
        lemma_region_parts_distinct(ps);
    }
}

// ---------------------------------------------------------------------------------------
// Implementation
// ---------------------------------------------------------------------------------------

pub open spec fn parts_view(v: Seq<Part>) -> Seq<(Seq<char>, Seq<char>)> {
    v.map_values(|p: Part| part_view(p))
}

pub open spec fn lines_view(v: Seq<String>) -> Seq<Seq<char>> {
    v.map_values(|s: String| s@)
}

pub open spec fn regions_view(v: Seq<(String, Vec<String>)>) -> Seq<(Seq<char>, Seq<Seq<char>>)> {
    v.map_values(|r: (String, Vec<String>)| (r.0@, lines_view(r.1@)))
}

pub open spec fn opt_view(o: Option<&str>) -> Option<Seq<char>> {
    match o {
        Some(s) => Some(s@),
        None => None,
    }
}

fn split_lines_exec(text: &str) -> (r: Vec<String>)
    ensures
        lines_view(r@) == split_lines(text@),
{
    let chars = chars_of(text);
    let mut ls: Vec<String> = Vec::new();
    let mut cur = String::new();
    let mut i: usize = 0;
    assert(chars@.take(0) =~= Seq::<char>::empty());
    while i < chars.len()
        invariant
            i <= chars.len(),
            (lines_view(ls@), cur@) == lines_acc(chars@.take(i as int)),
        decreases chars.len() - i,
    {
        assert(chars@.take(i + 1).drop_last() =~= chars@.take(i as int));
        let c = chars[i];
        if c == '\n' {
            let ghost before = ls@;
            ls.push(cur);
            cur = String::new();
            assert(lines_view(ls@) =~= lines_view(before).push(lines_acc(chars@.take(i as int)).1));
        } else {
            push_char(&mut cur, c);
        }
        i = i + 1;
    }
    assert(chars@.take(chars.len() as int) =~= text@);
    if !crate::text::string_is_empty(cur.as_str()) {
        let ghost before = ls@;
        ls.push(cur);
        assert(lines_view(ls@) =~= lines_view(before).push(lines_acc(text@).1));
    }
    ls
}

fn chars_equal_at(v: &Vec<char>, start: usize, w: &Vec<char>) -> (r: bool)
    requires
        start + w.len() <= v.len(),
    ensures
        r == (v@.subrange(start as int, start + w.len()) == w@),
{
    let mut i: usize = 0;
    while i < w.len()
        invariant
            i <= w.len(),
            start + w.len() <= v.len(),
            forall|k: int| 0 <= k < i ==> v@[start + k] == w@[k],
        decreases w.len() - i,
    {
        if v[start + i] != w[i] {
            assert(v@.subrange(start as int, start + w.len())[i as int] != w@[i as int]);
            return false;
        }
        i = i + 1;
    }
    assert(v@.subrange(start as int, start + w.len()) =~= w@);
    true
}

/// The id that line `l` names, if it is a milestone line.
fn milestone_id(l: &str) -> (r: Option<String>)
    ensures
        r is Some == is_tag_line(l@),
        r matches Some(id) ==> id@ == tag_id(l@),
{
    let v = chars_of(l);
    let o = chars_of("<milestone unit=\"part\" n=\"");
    let c = chars_of("\" />");
    if v.len() < o.len() || v.len() - o.len() < c.len() {
        return None;
    }
    let start_ok = chars_equal_at(&v, 0, &o);
    let end_ok = chars_equal_at(&v, v.len() - c.len(), &c);
    assert(v@.take(o.len() as int) =~= v@.subrange(0, o.len() as int));
    assert(v@.skip(v.len() - c.len()) =~= v@.subrange(v.len() - c.len(), v.len() as int));
    if !start_ok || !end_ok {
        return None;
    }
    let hi = v.len() - c.len();
    let mut i = o.len();
    while i < hi
        invariant
            o.len() <= i <= hi <= v.len(),
            v@ == l@,
            o@ == ms_open(),
            c@ == ms_close(),
            hi == v.len() - c.len(),
            forall|k: int| o.len() <= k < i ==> v@[k] != '"',
        decreases hi - i,
    {
        if v[i] == '"' {
            assert(tag_id(l@)[i - o.len()] == '"');
            return None;
        }
        i = i + 1;
    }
    let id = string_of_range(&v, o.len(), hi);
    assert forall|k: int| 0 <= k < id@.len() implies id@[k] != '"' by {
        assert(id@[k] == v@[k + o.len()]);
    }
    Some(id)
}

fn regions_exec(lines: &Vec<String>) -> (r: Vec<(String, Vec<String>)>)
    ensures
        regions_view(r@) == regions(lines_view(lines@)),
{
    let mut rs: Vec<(String, Vec<String>)> = Vec::new();
    let mut i: usize = 0;
    assert(lines_view(lines@).take(0) =~= Seq::<Seq<char>>::empty());
    while i < lines.len()
        invariant
            i <= lines.len(),
            regions_view(rs@) == regions(lines_view(lines@).take(i as int)),
        decreases lines.len() - i,
    {
        let ghost lv = lines_view(lines@);
        assert(lv.take(i + 1).drop_last() =~= lv.take(i as int));
        assert(lv.take(i + 1).last() == lines@[i as int]@);
        let ghost before = rs@;
        match milestone_id(lines[i].as_str()) {
            Some(id) => {
                rs.push((id, Vec::new()));
                let ghost l = lines@[i as int]@;
                assert(lines_view(rs@.last().1@) =~= Seq::<Seq<char>>::empty());
                assert(regions_view(rs@) =~= regions_view(before).push((tag_id(l), Seq::<Seq<char>>::empty())));
            },
            None => {
                if rs.len() > 0 {
                    let (id, mut body) = rs.pop().unwrap();
                    let ghost old_body = body@;
                    body.push(lines[i].clone());
                    rs.push((id, body));
                    proof {
                        let pv = regions_view(before);
                        assert(lines_view(body@) =~= lines_view(old_body).push(lines@[i as int]@));
                        assert(regions_view(rs@) =~= pv.update(
                            pv.len() - 1,
                            (pv.last().0, pv.last().1.push(lines@[i as int]@)),
                        ));
                    }
                }
            },
        }
        i = i + 1;
    }
    assert(lines_view(lines@).take(lines.len() as int) =~= lines_view(lines@));
    rs
}

fn join_lines_exec(ls: &Vec<String>) -> (r: String)
    ensures
        r@ == join_lines(lines_view(ls@)),
{
    let mut r = String::new();
    let mut i: usize = 0;
    while i < ls.len()
        invariant
            i <= ls.len(),
            r@ == join_lines(lines_view(ls@).take(i as int)),
        decreases ls.len() - i,
    {
        let ghost lv = lines_view(ls@);
        assert(lv.take(i + 1).drop_last() =~= lv.take(i as int));
        if i > 0 {
            push_char(&mut r, '\n');
        }
        push_str(&mut r, ls[i].as_str());
        proof {
            if i == 0 {
                assert(r@ =~= lv.take(1)[0]);
            } else {
                assert(r@ =~= join_lines(lv.take(i as int)) + seq!['\n'] + lv.take(i + 1).last());
            }
        }
        i = i + 1;
    }
    assert(lines_view(ls@).take(ls.len() as int) =~= lines_view(ls@));
    r
}

fn has_id_exec(ps: &Vec<Part>, id: &String) -> (r: bool)
    ensures
        r == has_id(parts_view(ps@), id@),
{
    let mut j: usize = 0;
    while j < ps.len()
        invariant
            j <= ps.len(),
            forall|k: int| 0 <= k < j ==> parts_view(ps@)[k].0 != id@,
        decreases ps.len() - j,
    {
        if ps[j].id == *id {
            assert(parts_view(ps@)[j as int].0 == id@);
            return true;
        }
        j = j + 1;
    }
    false
}

fn region_parts_exec(rs: &Vec<(String, Vec<String>)>) -> (r: Vec<Part>)
    ensures
        parts_view(r@) == region_parts(regions_view(rs@)),
{
    let mut ps: Vec<Part> = Vec::new();
    let mut i: usize = 0;
    assert(regions_view(rs@).take(0) =~= Seq::<(Seq<char>, Seq<Seq<char>>)>::empty());
    while i < rs.len()
        invariant
            i <= rs.len(),
            parts_view(ps@) == region_parts(regions_view(rs@).take(i as int)),
        decreases rs.len() - i,
    {
        let ghost rv = regions_view(rs@);
        assert(rv.take(i + 1).drop_last() =~= rv.take(i as int));
        let (id, body) = &rs[i];
        if !has_id_exec(&ps, id) {
            let ghost before = ps@;
            let content = join_lines_exec(body);
            ps.push(Part { id: id.clone(), content });
            assert(parts_view(ps@) =~= parts_view(before).push((id@, join_lines(lines_view(body@)))));
        }
        i = i + 1;
    }
    assert(regions_view(rs@).take(rs.len() as int) =~= regions_view(rs@));
    ps
}

/// The bytes hashed for parts `ps`: each part's id, then its content.
pub open spec fn parts_bytes(ps: Seq<(Seq<char>, Seq<char>)>) -> Seq<u8>
    decreases ps.len(),
{
    if ps.len() == 0 {
        Seq::empty()
    } else {
        parts_bytes(ps.drop_last()) + vstd::utf8::encode_utf8(ps.last().0) + vstd::utf8::encode_utf8(ps.last().1)
    }
}

impl Default for Text {
    /// A text with no part.
    fn default() -> (r: Self)
        ensures
            r.spec_parts() == Seq::<(Seq<char>, Seq<char>)>::empty(),
    {
        Text::new()
    }
}

impl Text {
    pub closed spec fn spec_parts(self) -> Seq<(Seq<char>, Seq<char>)> {
        parts_view(self.parts@)
    }

    /// The hash of the text: of each part's id and content, in order.
    pub fn hash(&self) -> (r: TextHash)
        ensures
            r.spec_value() == sha256(parts_bytes(self.spec_parts())),
    {
        let mut pieces: Vec<&str> = Vec::new();
        let mut i: usize = 0;
        let ghost pv = self.spec_parts();
        assert(pv.take(0) =~= Seq::<(Seq<char>, Seq<char>)>::empty());
        assert(pieces@.map_values(|p: &str| p.spec_bytes()) =~= Seq::<Seq<u8>>::empty());
        while i < self.parts.len()
            invariant
                i <= self.parts.len(),
                pv == self.spec_parts(),
                concat_bytes(pieces@.map_values(|p: &str| p.spec_bytes())) == parts_bytes(pv.take(i as int)),
            decreases self.parts.len() - i,
        {
            let ghost before = pieces@;
            let id = self.parts[i].id.as_str();
            let content = self.parts[i].content.as_str();
            pieces.push(id);
            let ghost mid = pieces@;
            pieces.push(content);
            assert(mid.map_values(|p: &str| p.spec_bytes()) =~= before.map_values(|p: &str| p.spec_bytes()).push(id.spec_bytes()));
            assert(pieces@.map_values(|p: &str| p.spec_bytes()) =~= mid.map_values(|p: &str| p.spec_bytes()).push(content.spec_bytes()));
            assert(pv.take(i + 1).drop_last() =~= pv.take(i as int));
            assert(pv[i as int] == (id@, content@));
            proof {
                let b0 = before.map_values(|p: &str| p.spec_bytes());
                let b1 = b0.push(id.spec_bytes());
                let b2 = b1.push(content.spec_bytes());
                assert(b2.drop_last() =~= b1);
                assert(b1.drop_last() =~= b0);
                assert(concat_bytes(b2) == concat_bytes(b1) + content.spec_bytes());
                assert(concat_bytes(b1) == concat_bytes(b0) + id.spec_bytes());
            }
            i = i + 1;
        }
        assert(pv.take(self.parts.len() as int) =~= pv);
        TextHash::of_strs(&pieces)
    }

    /// The content of part `i`, to be changed in place; ids and other parts stay.
    pub fn part_content_mut(&mut self, i: usize) -> (r: &mut String)
        requires
            i < old(self).spec_parts().len(),
        ensures
            r@ == old(self).spec_parts()[i as int].1,
            final(self).spec_parts() == old(self).spec_parts().update(i as int, (old(self).spec_parts()[i as int].0, final(r)@)),
    {
        self.parts[i].content_mut()
    }

    /// A text with no part.
    pub fn new() -> (r: Self)
        ensures
            r.spec_parts() == Seq::<(Seq<char>, Seq<char>)>::empty(),
    {
        let r = Text { parts: Vec::new() };
        assert(r.spec_parts() =~= Seq::<(Seq<char>, Seq<char>)>::empty());
        r
    }

    /// A text made of `parts`, in order.
    pub fn from_parts(parts: Vec<Part>) -> (r: Self)
        ensures
            r.spec_parts() == parts_view(parts@),
    {
        Text { parts }
    }

    pub fn parts(&self) -> (r: &[Part])
        ensures
            parts_view(r@) == self.spec_parts(),
    {
        self.parts.as_slice()
    }

    pub fn parts_mut(&mut self) -> (r: &mut [Part])
        ensures
            parts_view(r@) == old(self).spec_parts(),
            final(self).spec_parts() == parts_view(final(r)@),
    {
        self.parts.as_mut_slice()
    }

    /// Replaces the parts: none for no text; one unnamed part holding the whole text when
    /// no keyword marks it as made of parts; else the parts its milestone lines delimit,
    /// a part whose id came before being dropped.
    pub fn import(&mut self, source_str: Option<&str>, keyword: Option<&str>)
        ensures
            final(self).spec_parts() == import_spec(opt_view(source_str), keyword is Some),
    {
        match source_str {
            None => {
                self.parts = Vec::new();
                assert(self.spec_parts() =~= Seq::<(Seq<char>, Seq<char>)>::empty());
            },
            Some(text) => {
                match keyword {
                    None => {
                        let mut v: Vec<Part> = Vec::new();
                        v.push(Part { id: String::new(), content: text.to_owned() });
                        self.parts = v;
                        assert(self.spec_parts() =~= seq![(Seq::<char>::empty(), text@)]);
                    },
                    Some(_) => {
                        let lines = split_lines_exec(text);
                        let rs = regions_exec(&lines);
                        self.parts = region_parts_exec(&rs);
                    },
                }
            },
        }
    }

    /// The text of the parts: none without parts, the content of a single unnamed part,
    /// else each part introduced by its milestone line and ended by a newline.
    pub fn export(&self, keyword: &mut Option<String>) -> (r: Option<String>)
        ensures
            opt_string_view(r) == export_spec(self.spec_parts()),
            *final(keyword) == *old(keyword),
    {
        let n = self.parts.len();
        if n == 0 {
            return None;
        }
        if n == 1 && crate::text::string_is_empty(self.parts[0].id.as_str()) {
            return Some(self.parts[0].content.clone());
        }
        proof {
            if n == 1 {
                assert(self.spec_parts()[0].0 == self.parts@[0].id@);
            }
        }
        let mut text = String::new();
        let mut i: usize = 0;
        assert(parts_view(self.parts@).take(0) =~= Seq::<(Seq<char>, Seq<char>)>::empty());
        while i < n
            invariant
                i <= n == self.parts.len(),
                text@ == parts_text(parts_view(self.parts@).take(i as int)),
            decreases n - i,
        {
            let ghost pv = parts_view(self.parts@);
            assert(pv.take(i + 1).drop_last() =~= pv.take(i as int));
            let p = &self.parts[i];
            push_str(&mut text, "<milestone unit=\"part\" n=\"");
            push_str(&mut text, p.id.as_str());
            push_str(&mut text, "\" />");
            push_char(&mut text, '\n');
            push_str(&mut text, p.content.as_str());
            push_char(&mut text, '\n');
            assert(text@ =~= parts_text(pv.take(i as int)) + tag_line(p.id@) + seq!['\n'] + p.content@
                + seq!['\n']);
            i = i + 1;
        }
        assert(parts_view(self.parts@).take(n as int) =~= parts_view(self.parts@));
        Some(text)
    }
}

pub open spec fn opt_string_view(o: Option<String>) -> Option<Seq<char>> {
    match o {
        Some(s) => Some(s@),
        None => None,
    }
}

} // verus!

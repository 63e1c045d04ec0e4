use vstd::prelude::*;

use crate::chunk_cache::{cache_refreshed, ranges_valid, ChunkCache};
use crate::chunking::{ChunkData, ChunkerError};
use crate::keyed::{find_key, key_index, lemma_key_index, lemma_lookup_push_any, lemma_lookup_set, lookup};
use crate::document::{ChunkIdx, GetChunkError, MetadataLocation};
use crate::hashing::{sha256, TextHash};
use crate::md_chunker::opt_chars;
use crate::text::{
    byte_slice, chars_of, push_str, str_eq, str_get, str_starts_with, string_is_empty, string_of_range, trim_start,
    trim_start_string,
};
use crate::text_parts::{export_spec, import_spec, opt_string_view, opt_view, parts_bytes, parts_view, Part, Text};
use vstd::string::StringSliceAdditionalSpecFns;

verus! {

#[verifier::external_type_specification]
#[verifier::external_body]
pub struct ExYamlValue(serde_yaml_ng::Value);

#[verifier::external_type_specification]
#[verifier::external_body]
pub struct ExYamlError(serde_yaml_ng::Error);

/// A media type, as its parts read: the whole text, the top-level type, the subtype and
/// the `+suffix`, if any.
#[derive(Debug, Clone)]
pub struct MimeInfo {
    pub source: String,
    pub type_: String,
    pub subtype: String,
    pub suffix: Option<String>,
}

pub open spec fn mime_view(m: MimeInfo) -> (Seq<char>, Seq<char>, Seq<char>, Option<Seq<char>>) {
    (m.source@, m.type_@, m.subtype@, opt_chars(m.suffix))
}

/// The media type that `mime_guess2` guesses from the extension of `path`
/// (`application/octet-stream` when it knows none).
pub uninterp spec fn guessed_mime(path: Seq<char>) -> (Seq<char>, Seq<char>, Seq<char>, Option<Seq<char>>);

/// Whether two media type texts name the same media type, as `mime::Mime`'s `==` says.
pub uninterp spec fn mime_equal(a: Seq<char>, b: Seq<char>) -> bool;

/// Calls `mime_guess2::from_path(path).first_or_octet_stream()` and reads the parts of
/// the `mime::Mime` it gives; a function of `path`. Also claims that the guessed text,
/// parsed again, is `==` to itself: the guesses are parsed from `mime_guess2`'s table,
/// whose entries carry no parameters, so the text is the lower-cased `type/subtype` that
/// parses again and compares by its characters.
#[verifier::external_body]
fn guess_mime(path: &str) -> (r: MimeInfo)
    ensures
        mime_view(r) == guessed_mime(path@),
        mime_equal(r.source@, r.source@),
{
    let m = mime_guess2::from_path(path).first_or_octet_stream();
    let suffix = match m.suffix() {
        Some(n) => Some(n.as_str().to_string()),
        None => None,
    };
    MimeInfo {
        source: m.as_ref().to_string(),
        type_: m.type_().as_str().to_string(),
        subtype: m.subtype().as_str().to_string(),
        suffix,
    }
}

/// Parses both texts as `mime::Mime` and compares them with its `==`; two texts that do
/// not both parse are taken as different.
#[verifier::external_body]
fn same_mime(a: &str, b: &str) -> (r: bool)
    ensures
        r == mime_equal(a@, b@),
{
    match (a.parse::<mime::Mime>(), b.parse::<mime::Mime>()) {
        (Ok(x), Ok(y)) => x == y,
        _ => false,
    }
}

/// Calls `uuid::Uuid::new_v4` for a fresh document id.
#[verifier::external_body]
fn new_document_id() -> (r: u128) {
    uuid::Uuid::new_v4().as_u128()
}

/// The metadata of a document.
#[derive(Debug, Clone)]
pub struct DocumentMetadata {
    pub id: u128,
    pub mime: MimeInfo,
    pub metadata_location: MetadataLocation,
    pub doc_parts: Option<String>,
    /// Fields this library does not read, kept as they were found.
    pub other_fields: Vec<(serde_yaml_ng::Value, serde_yaml_ng::Value)>,
}

pub open spec fn is_text_mime(m: MimeInfo) -> bool {
    ||| m.type_@ == "text"@
    ||| opt_chars(m.suffix) == Some("json"@)
    ||| opt_chars(m.suffix) == Some("xml"@)
}

pub open spec fn is_markdown_mime(m: MimeInfo) -> bool {
    m.type_@ == "text"@ && m.subtype@ == "markdown"@
}

fn suffix_is(m: &MimeInfo, s: &str) -> (r: bool)
    ensures
        r == (opt_chars(m.suffix) == Some(s@)),
{
    match &m.suffix {
        Some(x) => str_eq(x.as_str(), s),
        None => false,
    }
}

impl DocumentMetadata {
    /// Whether this metadata is what opening the document at `path` would infer, the id
    /// aside: the guessed media type, location not known, no parts, no other field.
    pub open spec fn spec_inferrable(self, path: Seq<char>) -> bool {
        &&& mime_equal(guessed_mime(path).0, self.mime.source@)
        &&& self.metadata_location == MetadataLocation::Unknown
        &&& self.doc_parts is None
        &&& self.other_fields@.len() == 0
    }

    /// Fresh metadata for a document of media type `mime`, with a new id; where it is
    /// stored is not known yet.
    pub fn new(mime: MimeInfo) -> (r: Self)
        ensures
            mime_view(r.mime) == mime_view(mime),
            r.metadata_location == MetadataLocation::Unknown,
            r.doc_parts is None,
            r.other_fields@.len() == 0,
    {
        DocumentMetadata {
            id: new_document_id(),
            mime,
            metadata_location: MetadataLocation::Unknown,
            doc_parts: None,
            other_fields: Vec::new(),
        }
    }

    /// Fresh metadata for the document at `path`, its media type guessed from its
    /// extension.
    pub fn from_path(path: &str) -> (r: Self)
        ensures
            mime_view(r.mime) == guessed_mime(path@),
            r.metadata_location == MetadataLocation::Unknown,
            r.doc_parts is None,
            r.other_fields@.len() == 0,
            r.spec_inferrable(path@),
    {
        Self::new(guess_mime(path))
    }

    /// Whether the source file is text: a `text/*` type, or one with a `+json` or `+xml`
    /// suffix.
    pub fn source_is_text(&self) -> (r: bool)
        ensures
            r == is_text_mime(self.mime),
    {
        str_eq(self.mime.type_.as_str(), "text") || suffix_is(&self.mime, "json") || suffix_is(&self.mime, "xml")
    }

    /// Whether the source file is Markdown (`text/markdown`).
    pub fn source_is_markdown(&self) -> (r: bool)
        ensures
            r == is_markdown_mime(self.mime),
    {
        str_eq(self.mime.type_.as_str(), "text") && str_eq(self.mime.subtype.as_str(), "markdown")
    }

    /// Whether this metadata is what opening the document at `path` would infer, the id
    /// aside: the guessed media type, location not known, no parts, no other field. Such
    /// metadata need not be saved.
    pub fn inferrable(&self, path: &str) -> (r: bool)
        ensures
            r == self.spec_inferrable(path@),
    {
        let inferred = guess_mime(path);
        same_mime(inferred.source.as_str(), self.mime.source.as_str())
            && self.metadata_location == MetadataLocation::Unknown && self.doc_parts.is_none()
            && self.other_fields.len() == 0
    }
}


// ---------------------------------------------------------------------------------------
// Paths: absolute, canonical, separated by '/'.
// ---------------------------------------------------------------------------------------

/// The extension added to a document's path for its metadata file.
pub const METADATA_EXTENSION: &'static str = "mark";

/// The directory, beside a document, that holds its attachments.
pub const ATTACHMENTS_DIR: &'static str = "attachments";

/// Position of the last `c` in `s`, or -1.
pub open spec fn last_index_of(s: Seq<char>, c: char) -> int
    decreases s.len(),
{
    if s.len() == 0 {
        -1
    } else if s.last() == c {
        s.len() - 1
    } else {
        last_index_of(s.drop_last(), c)
    }
}

proof fn lemma_last_index_of(s: Seq<char>, c: char)
    ensures
        -1 <= last_index_of(s, c) < s.len(),
        last_index_of(s, c) >= 0 ==> s[last_index_of(s, c)] == c,
        forall|j: int| last_index_of(s, c) < j < s.len() ==> s[j] != c,
    decreases s.len(),
{
    if s.len() > 0 && s.last() != c {
        lemma_last_index_of(s.drop_last(), c);
        assert forall|j: int| last_index_of(s, c) < j < s.len() implies s[j] != c by {
            if j < s.len() - 1 {
                assert(s[j] == s.drop_last()[j]);
            }
        }
    }
}

fn last_index_exec(v: &Vec<char>, c: char) -> (r: Option<usize>)
    ensures
        match r {
            Some(i) => i == last_index_of(v@, c),
            None => last_index_of(v@, c) == -1,
        },
{
    let mut i = v.len();
    assert(v@.take(i as int) =~= v@);
    while i > 0
        invariant
            i <= v.len(),
            last_index_of(v@, c) == last_index_of(v@.take(i as int), c),
        decreases i,
    {
        assert(v@.take(i as int).drop_last() =~= v@.take(i - 1));
        if v[i - 1] == c {
            return Some(i - 1);
        }
        i = i - 1;
    }
    None
}

/// Path `p` lies within directory `base`, component by component.
pub open spec fn path_within(p: Seq<char>, base: Seq<char>) -> bool {
    ||| p == base
    ||| (base.len() > 0 && base.last() == '/' && base.is_prefix_of(p))
    ||| (base + seq!['/']).is_prefix_of(p)
}

/// The path of `p` relative to directory `base`, which holds it.
pub open spec fn relative_path(p: Seq<char>, base: Seq<char>) -> Seq<char> {
    if p == base {
        Seq::empty()
    } else if base.len() > 0 && base.last() == '/' {
        p.skip(base.len() as int)
    } else {
        p.skip(base.len() as int + 1)
    }
}

/// The last component of `p`.
pub open spec fn file_name(p: Seq<char>) -> Seq<char> {
    p.skip(last_index_of(p, '/') + 1)
}

/// `p` without its last component and the separator before it.
pub open spec fn parent_dir(p: Seq<char>) -> Seq<char> {
    if last_index_of(p, '/') < 0 {
        Seq::empty()
    } else {
        p.take(last_index_of(p, '/'))
    }
}

/// A file name without its last extension; a name with no dot but a leading one is kept.
pub open spec fn file_stem(n: Seq<char>) -> Seq<char> {
    if last_index_of(n, '.') <= 0 {
        n
    } else {
        n.take(last_index_of(n, '.'))
    }
}

fn path_within_exec(p: &str, base: &str) -> (r: bool)
    ensures
        r == path_within(p@, base@),
{
    if str_eq(p, base) {
        return true;
    }
    if !str_starts_with(p, base) {
        proof {
            if (base@ + seq!['/']).is_prefix_of(p@) {
                assert(base@.is_prefix_of(p@)) by {
                    assert forall|i: int| 0 <= i < base@.len() implies base@[i] == p@[i] by {
                        assert((base@ + seq!['/'])[i] == base@[i]);
                    }
                }
            }
        }
        return false;
    }
    let b = chars_of(base);
    let v = chars_of(p);
    if b.len() > 0 && b[b.len() - 1] == '/' {
        return true;
    }
    if v.len() > b.len() && v[b.len()] == '/' {
        proof {
            assert forall|i: int| 0 <= i < base@.len() + 1 implies (base@ + seq!['/'])[i] == p@[i] by {}
        }
        return true;
    }
    proof {
        if (base@ + seq!['/']).is_prefix_of(p@) {
            assert((base@ + seq!['/'])[base@.len() as int] == '/');
        }
    }
    false
}

/// Why a document, folder or workspace could not be accessed.
#[derive(Debug)]
pub enum AccessStorageError {
    Io(std::io::Error),
    FileNotFound(String),
    DirectoryNotFound(String),
    NotADirectory(String),
    NotInWorkspace(String),
    InWorkspace(String),
    Metadata(serde_yaml_ng::Error),
    InvalidId(String),
    /// The metadata location does not allow the operation (location, reason).
    MetadataLocation(MetadataLocation, String),
    /// The metadata read is not valid (the parser's message).
    MetadataFormat(String),
}

/// What a document caches for one extension: the hash of the text it last saw, and its
/// data (`None` for YAML's null).
#[derive(Debug, Clone)]
pub struct ExtensionCache {
    pub hash: Option<TextHash>,
    pub data: Option<serde_yaml_ng::Value>,
}

/// A document of a workspace: its metadata, its text parts and what is cached of them.
/// `E` is the type of the embeddings cached for its chunks.
#[derive(Debug)]
pub struct Document<E> {
    pub(crate) absolute_path: String,
    pub(crate) workspace_path: String,
    pub(crate) metadata: DocumentMetadata,
    pub(crate) text: Text,
    pub(crate) extensions: Vec<(String, ExtensionCache)>,
    pub(crate) chunker_cache: Vec<(String, Vec<(String, Vec<ChunkCache<E>>)>)>,
}

impl<E> Document<E> {
    pub closed spec fn spec_path(self) -> Seq<char> {
        self.absolute_path@
    }

    pub closed spec fn spec_workspace(self) -> Seq<char> {
        self.workspace_path@
    }

    pub closed spec fn spec_metadata(self) -> DocumentMetadata {
        self.metadata
    }

    pub closed spec fn spec_parts(self) -> Seq<(Seq<char>, Seq<char>)> {
        self.text.spec_parts()
    }

    pub closed spec fn spec_extensions(self) -> Seq<(String, ExtensionCache)> {
        self.extensions@
    }

    pub closed spec fn spec_chunker_cache(self) -> Seq<(String, Vec<(String, Vec<ChunkCache<E>>)>)> {
        self.chunker_cache@
    }

    /// The document at `absolute_path`, in the workspace at `workspace_path`, before
    /// anything is read: its media type guessed from its name, no text, no cache. A path
    /// outside the workspace is refused.
    pub fn new(absolute_path: String, workspace_path: String) -> (r: Result<Self, AccessStorageError>)
        ensures
            path_within(absolute_path@, workspace_path@) <==> r is Ok,
            r matches Err(e) ==> (e matches AccessStorageError::NotInWorkspace(p) && p@ == absolute_path@),
            r matches Ok(d) ==> {
                &&& d.spec_path() == absolute_path@
                &&& d.spec_workspace() == workspace_path@
                &&& mime_view(d.spec_metadata().mime) == guessed_mime(absolute_path@)
                &&& d.spec_metadata().metadata_location == MetadataLocation::Unknown
                &&& d.spec_metadata().doc_parts is None
                &&& d.spec_metadata().other_fields@.len() == 0
                &&& d.spec_parts().len() == 0
                &&& ids_distinct(d.spec_parts())
                &&& d.spec_extensions().len() == 0
                &&& d.spec_chunker_cache().len() == 0
            },
    {
        if !path_within_exec(absolute_path.as_str(), workspace_path.as_str()) {
            return Err(AccessStorageError::NotInWorkspace(absolute_path));
        }
        let metadata = DocumentMetadata::from_path(absolute_path.as_str());
        Ok(Document {
            absolute_path,
            workspace_path,
            metadata,
            text: Text::new(),
            extensions: Vec::new(),
            chunker_cache: Vec::new(),
        })
    }

    /// The document's absolute path.
    pub fn absolute_path(&self) -> (r: &str)
        ensures
            r@ == self.spec_path(),
    {
        self.absolute_path.as_str()
    }

    /// The document's path relative to its workspace.
    pub fn path(&self) -> (r: String)
        requires
            path_within(self.spec_path(), self.spec_workspace()),
        ensures
            r@ == relative_path(self.spec_path(), self.spec_workspace()),
    {
        let v = chars_of(self.absolute_path.as_str());
        let b = chars_of(self.workspace_path.as_str());
        if str_eq(self.absolute_path.as_str(), self.workspace_path.as_str()) {
            return String::new();
        }
        proof {
            if !(b@.len() > 0 && b@.last() == '/' && b@.is_prefix_of(v@)) {
                assert((b@ + seq!['/']).is_prefix_of(v@));
                assert(v@.len() >= b@.len() + 1);
            }
        }
        if b.len() > 0 && b[b.len() - 1] == '/' {
            string_of_range(&v, b.len(), v.len())
        } else {
            string_of_range(&v, b.len() + 1, v.len())
        }
    }

    /// The document's name: its file name without the last extension.
    pub fn name(&self) -> (r: String)
        ensures
            r@ == file_stem(file_name(self.spec_path())),
    {
        let v = chars_of(self.absolute_path.as_str());
        proof {
            lemma_last_index_of(v@, '/');
        }
        let start = match last_index_exec(&v, '/') {
            Some(i) => i + 1,
            None => 0,
        };
        let name = string_of_range(&v, start, v.len());
        let n = chars_of(name.as_str());
        match last_index_exec(&n, '.') {
            Some(i) => {
                if i == 0 {
                    name
                } else {
                    proof {
                        lemma_last_index_of(n@, '.');
                    }
                    string_of_range(&n, 0, i)
                }
            },
            None => name,
        }
    }

    pub fn metadata(&self) -> (r: &DocumentMetadata)
        ensures
            *r == self.spec_metadata(),
    {
        &self.metadata
    }

    pub fn id(&self) -> (r: u128)
        ensures
            r == self.spec_metadata().id,
    {
        self.metadata.id
    }

    /// Replaces the metadata; text and caches stay.
    pub fn set_metadata(&mut self, metadata: DocumentMetadata)
        ensures
            final(self).spec_metadata() == metadata,
            final(self).spec_path() == old(self).spec_path(),
            final(self).spec_workspace() == old(self).spec_workspace(),
            final(self).spec_parts() == old(self).spec_parts(),
            final(self).spec_extensions() == old(self).spec_extensions(),
            final(self).spec_chunker_cache() == old(self).spec_chunker_cache(),
    {
        self.metadata = metadata;
    }

    /// The text parts, in order.
    pub fn text_parts(&self) -> (r: &[Part])
        ensures
            crate::text_parts::parts_view(r@) == self.spec_parts(),
    {
        self.text.parts()
    }

    /// The content of text part `i`, to be changed in place; ids, metadata and caches stay
    /// (the cached chunks are brought up to date by the next re-chunking).
    pub fn text_part_content_mut(&mut self, i: usize) -> (r: &mut String)
        requires
            i < old(self).spec_parts().len(),
        ensures
            r@ == old(self).spec_parts()[i as int].1,
            final(self).spec_parts() == old(self).spec_parts().update(i as int, (old(self).spec_parts()[i as int].0, final(r)@)),
            final(self).spec_metadata() == old(self).spec_metadata(),
            final(self).spec_path() == old(self).spec_path(),
            final(self).spec_workspace() == old(self).spec_workspace(),
            final(self).spec_extensions() == old(self).spec_extensions(),
            final(self).spec_chunker_cache() == old(self).spec_chunker_cache(),
    {
        self.text.part_content_mut(i)
    }

    /// The text of the document: none without parts, the content of a single unnamed part,
    /// else each part introduced by its milestone line.
    pub fn text(&self) -> (r: Option<String>)
        ensures
            opt_string_view(r) == export_spec(self.spec_parts()),
    {
        let mut keyword: Option<String> = None;
        self.text.export(&mut keyword)
    }

    /// Replaces the text parts by those of `new_text`: none without text; one unnamed part
    /// when the metadata does not say the document has parts; else the parts that its
    /// milestone lines delimit.
    pub fn update_text(&mut self, new_text: Option<String>)
        ensures
            final(self).spec_parts() == import_spec(opt_string_view(new_text), old(self).spec_metadata().doc_parts is Some),
            ids_distinct(final(self).spec_parts()),
            final(self).spec_metadata() == old(self).spec_metadata(),
            final(self).spec_path() == old(self).spec_path(),
            final(self).spec_workspace() == old(self).spec_workspace(),
            final(self).spec_extensions() == old(self).spec_extensions(),
            final(self).spec_chunker_cache() == old(self).spec_chunker_cache(),
    {
        let keyword: Option<&str> = match &self.metadata.doc_parts {
            Some(k) => Some(k.as_str()),
            None => None,
        };
        match &new_text {
            Some(t) => self.text.import(Some(t.as_str()), keyword),
            None => self.text.import(None, keyword),
        }
        proof {
            lemma_import_distinct(opt_string_view(new_text), old(self).metadata.doc_parts is Some);
        }
    }

    /// The hash of the text: of each part's id and content, in order.
    pub fn text_hash(&self) -> (r: TextHash)
        ensures
            r.spec_value() == sha256(parts_bytes(self.spec_parts())),
    {
        self.text.hash()
    }

    /// The hash of text and metadata: of the text hash followed by `metadata_yaml`, the
    /// metadata as YAML.
    pub fn doc_hash(&self, metadata_yaml: &str) -> (r: TextHash)
        ensures
            r.spec_value() == sha256(sha256(parts_bytes(self.spec_parts())) + metadata_yaml.spec_bytes()),
    {
        self.text_hash().chained(metadata_yaml)
    }

    /// The path of the metadata file: the document's path with the metadata extension added.
    pub fn metadata_path(&self) -> (r: String)
        ensures
            r@ == self.spec_path() + "."@ + "mark"@,
    {
        let mut r = self.absolute_path.clone();
        push_str(&mut r, ".");
        push_str(&mut r, METADATA_EXTENSION);
        r
    }

    /// The path of attachment `name`: in the attachments directory beside the document, in
    /// the directory named after the document's file.
    pub fn attachment_path_raw(&self, name: &str) -> (r: String)
        ensures
            r@ == parent_dir(self.spec_path()) + "/"@ + "attachments"@ + "/"@ + file_name(self.spec_path()) + "/"@ + name@,
    {
        let v = chars_of(self.absolute_path.as_str());
        proof {
            lemma_last_index_of(v@, '/');
        }
        let (parent, file) = match last_index_exec(&v, '/') {
            Some(i) => (string_of_range(&v, 0, i), string_of_range(&v, i + 1, v.len())),
            None => (String::new(), string_of_range(&v, 0, v.len())),
        };
        let mut r = parent;
        push_str(&mut r, "/");
        push_str(&mut r, ATTACHMENTS_DIR);
        push_str(&mut r, "/");
        push_str(&mut r, file.as_str());
        push_str(&mut r, "/");
        push_str(&mut r, name);
        r
    }
}

// ---------------------------------------------------------------------------------------
// Chunk caches of a document
// ---------------------------------------------------------------------------------------


/// The cache of one chunker: the cached chunks of each text part, by part id.
pub type PartChunks<E> = Vec<(String, Vec<ChunkCache<E>>)>;

/// No two parts share an id.
pub open spec fn ids_distinct(ps: Seq<(Seq<char>, Seq<char>)>) -> bool {
    forall|i: int, j: int| 0 <= i < j < ps.len() ==> ps[i].0 != ps[j].0
}

/// Some part has id `id`.
pub open spec fn has_part(ps: Seq<(Seq<char>, Seq<char>)>, id: Seq<char>) -> bool {
    exists|m: int| 0 <= m < ps.len() && ps[m].0 == id
}

proof fn lemma_region_parts_distinct(rs: Seq<(Seq<char>, Seq<Seq<char>>)>)
    ensures
        ids_distinct(crate::text_parts::region_parts(rs)),
    decreases rs.len(),
{
    if rs.len() > 0 {
        let prev = crate::text_parts::region_parts(rs.drop_last());
        lemma_region_parts_distinct(rs.drop_last());
        if !crate::text_parts::has_id(prev, rs.last().0) {
            let cur = prev.push((rs.last().0, crate::text_parts::join_lines(rs.last().1)));
            assert forall|i: int, j: int| 0 <= i < j < cur.len() implies cur[i].0 != cur[j].0 by {
                if j == prev.len() {
                    assert(cur[i] == prev[i]);
                    if cur[i].0 == rs.last().0 {
                        assert(crate::text_parts::has_id(prev, rs.last().0));
                    }
                } else {
                    assert(cur[i] == prev[i] && cur[j] == prev[j]);
                }
            }
        }
    }
}

/// Importing a text gives parts with distinct ids.
pub proof fn lemma_import_distinct(text: Option<Seq<char>>, multipart: bool)
    ensures
        ids_distinct(import_spec(text, multipart)),
{
    match text {
        Some(t) => {
            if multipart {
                lemma_region_parts_distinct(crate::text_parts::regions(crate::text_parts::split_lines(t)));
            }
        },
        None => {},
    }
}

/// The cached chunks, or none.
pub open spec fn or_empty<E>(o: Option<Vec<ChunkCache<E>>>) -> Seq<ChunkCache<E>> {
    match o {
        Some(v) => v@,
        None => Seq::empty(),
    }
}

/// Position of the first failed chunking, or the number of results when none failed.
pub open spec fn first_err(rs: Seq<Result<Vec<ChunkData>, ChunkerError>>) -> int
    decreases rs.len(),
{
    if rs.len() == 0 {
        0
    } else if rs[0] is Err {
        0
    } else {
        1 + first_err(rs.drop_first())
    }
}

proof fn lemma_first_err(rs: Seq<Result<Vec<ChunkData>, ChunkerError>>)
    ensures
        0 <= first_err(rs) <= rs.len(),
        first_err(rs) < rs.len() ==> rs[first_err(rs)] is Err,
        forall|m: int| 0 <= m < first_err(rs) ==> #[trigger] rs[m] is Ok,
    decreases rs.len(),
{
    if rs.len() > 0 && rs[0] is Ok {
        lemma_first_err(rs.drop_first());
        assert forall|m: int| 0 <= m < first_err(rs) implies #[trigger] rs[m] is Ok by {
            if m > 0 {
                assert(rs[m] == rs.drop_first()[m - 1]);
            }
        }
    }
}

fn has_part_exec(parts: &[Part], id: &str) -> (r: bool)
    ensures
        r == has_part(parts_view(parts@), id@),
{
    let mut m: usize = 0;
    while m < parts.len()
        invariant
            m <= parts.len(),
            forall|j: int| 0 <= j < m ==> parts_view(parts@)[j].0 != id@,
        decreases parts.len() - m,
    {
        if str_eq(parts[m].id(), id) {
            assert(parts_view(parts@)[m as int].0 == id@);
            return true;
        }
        m = m + 1;
    }
    false
}

impl<E> Document<E> {
    /// Whether the cache of chunker `chunker_id` is loaded.
    pub fn has_chunker_cache(&self, chunker_id: &str) -> (r: bool)
        ensures
            r == (lookup(self.spec_chunker_cache(), chunker_id@) is Some),
    {
        find_key(&self.chunker_cache, chunker_id).is_some()
    }

    /// Loads the cache of chunker `chunker_id` from `read`, what was read of it (an empty
    /// cache when nothing was); a cache already loaded stays.
    pub fn load_chunker_cache(&mut self, chunker_id: String, read: Option<PartChunks<E>>)
        ensures
            lookup(final(self).spec_chunker_cache(), chunker_id@) is Some,
            lookup(old(self).spec_chunker_cache(), chunker_id@) is Some ==> lookup(final(self).spec_chunker_cache(), chunker_id@)
                == lookup(old(self).spec_chunker_cache(), chunker_id@),
            lookup(old(self).spec_chunker_cache(), chunker_id@) is None ==> lookup(final(self).spec_chunker_cache(), chunker_id@)->0@
                == match read {
                Some(v) => v@,
                None => Seq::empty(),
            },
            forall|k: Seq<char>|
                k != chunker_id@ ==> #[trigger] lookup(final(self).spec_chunker_cache(), k) == lookup(
                    old(self).spec_chunker_cache(),
                    k,
                ),
            final(self).spec_metadata() == old(self).spec_metadata(),
            final(self).spec_path() == old(self).spec_path(),
            final(self).spec_workspace() == old(self).spec_workspace(),
            final(self).spec_parts() == old(self).spec_parts(),
            final(self).spec_extensions() == old(self).spec_extensions(),
    {
        if find_key(&self.chunker_cache, chunker_id.as_str()).is_some() {
            return;
        }
        let loaded: PartChunks<E> = match read {
            Some(v) => v,
            None => Vec::new(),
        };
        let ghost before = self.chunker_cache@;
        let ghost id = chunker_id@;
        let ghost entry = (chunker_id, loaded);
        self.chunker_cache.push((chunker_id, loaded));
        proof {
            lemma_lookup_push_any(before, entry, id);
            assert forall|k: Seq<char>| k != id implies #[trigger] lookup(self.chunker_cache@, k) == lookup(before, k) by {
                lemma_lookup_push_any(before, entry, k);
            }
        }
    }

    /// Whether the cache of chunker `chunker_id` was made from the current text: the
    /// chunker's extension cache holds the current text hash.
    pub fn chunker_cache_is_valid(&self, chunker_id: &str) -> (r: bool)
        ensures
            r == (lookup(self.spec_extensions(), chunker_id@) matches Some(x) && x.hash matches Some(h)
                && h.spec_value() == sha256(parts_bytes(self.spec_parts()))),
    {
        let text_hash = self.text_hash();
        match find_key(&self.extensions, chunker_id) {
            Some(i) => match &self.extensions[i].1.hash {
                Some(h) => h.same(&text_hash),
                None => false,
            },
            None => false,
        }
    }
}


/// The chunk cache of a chunker after re-chunking: parts that are gone are dropped; the
/// parts before the first failed chunking `f` are brought up to date; part `f`, if any,
/// has an entry, unchanged or empty; later parts keep what they had.
pub open spec fn part_chunks_rechunked<E>(
    po: Seq<(String, Vec<ChunkCache<E>>)>,
    pn: Seq<(String, Vec<ChunkCache<E>>)>,
    parts: Seq<(Seq<char>, Seq<char>)>,
    chunked: Seq<Result<Vec<ChunkData>, ChunkerError>>,
    f: int,
) -> bool {
    &&& forall|id: Seq<char>| #[trigger] lookup(pn, id) is Some ==> has_part(parts, id)
    &&& forall|m: int|
        #![trigger parts[m]]
        0 <= m < f && m < parts.len() ==> lookup(pn, parts[m].0) is Some && cache_refreshed(
            or_empty(lookup(po, parts[m].0)),
            lookup(pn, parts[m].0)->0@,
            parts[m].1,
            chunked[m]->Ok_0@,
        )
    &&& 0 <= f < parts.len() ==> lookup(pn, parts[f].0) is Some && lookup(pn, parts[f].0)->0@ == or_empty(
        lookup(po, parts[f].0),
    )
    &&& forall|m: int| #![trigger parts[m]] f < m < parts.len() ==> lookup(pn, parts[m].0) == lookup(po, parts[m].0)
}

/// The chunker caches after re-chunking for chunker `cid`: only its cache changed.
pub open spec fn rechunked<E>(
    old_cc: Seq<(String, PartChunks<E>)>,
    new_cc: Seq<(String, PartChunks<E>)>,
    cid: Seq<char>,
    parts: Seq<(Seq<char>, Seq<char>)>,
    chunked: Seq<Result<Vec<ChunkData>, ChunkerError>>,
) -> bool {
    &&& lookup(new_cc, cid) is Some
    &&& forall|k: Seq<char>| k != cid ==> #[trigger] lookup(new_cc, k) == lookup(old_cc, k)
    &&& part_chunks_rechunked(lookup(old_cc, cid)->0@, lookup(new_cc, cid)->0@, parts, chunked, first_err(chunked))
}

/// The extension caches after recording hash `h` for extension `cid`: its data stays
/// (none for a new entry), every other entry stays.
pub open spec fn hash_recorded(
    old_ext: Seq<(String, ExtensionCache)>,
    new_ext: Seq<(String, ExtensionCache)>,
    cid: Seq<char>,
    h: Seq<u8>,
) -> bool {
    &&& lookup(new_ext, cid) is Some
    &&& lookup(new_ext, cid)->0.hash is Some
    &&& lookup(new_ext, cid)->0.hash->0.spec_value() == h
    &&& lookup(old_ext, cid) is Some ==> lookup(new_ext, cid)->0.data == lookup(old_ext, cid)->0.data
    &&& lookup(old_ext, cid) is None ==> lookup(new_ext, cid)->0.data is None
    &&& forall|k: Seq<char>| k != cid ==> #[trigger] lookup(new_ext, k) == lookup(old_ext, k)
}

impl<E> Document<E> {
    /// Re-chunks the text parts for chunker `chunker_id`, whose cache is loaded;
    /// `chunked[k]` is what chunking part `k` gave. The cache drops the parts that are
    /// gone; then, part after part, an entry is made for the part if it has none and its
    /// cached chunks are brought up to date; the first failed chunking stops the work and
    /// is returned. When every chunking succeeded, the chunker's extension cache records
    /// the text hash.
    pub fn rechunk(&mut self, chunker_id: &str, chunked: Vec<Result<Vec<ChunkData>, ChunkerError>>) -> (r: Result<(), ChunkerError>)
        requires
            lookup(old(self).spec_chunker_cache(), chunker_id@) is Some,
            ids_distinct(old(self).spec_parts()),
            chunked@.len() == old(self).spec_parts().len(),
            forall|k: int|
                0 <= k < chunked@.len() && (#[trigger] chunked@[k]) is Ok ==> ranges_valid(
                    old(self).spec_parts()[k].1,
                    chunked@[k]->Ok_0@,
                ),
        ensures
            rechunked(
                old(self).spec_chunker_cache(),
                final(self).spec_chunker_cache(),
                chunker_id@,
                old(self).spec_parts(),
                chunked@,
            ),
            r is Ok <==> first_err(chunked@) == chunked@.len(),
            r is Err ==> chunked@[first_err(chunked@)] is Err && chunked@[first_err(chunked@)]->Err_0 == r->Err_0,
            r is Ok ==> hash_recorded(
                old(self).spec_extensions(),
                final(self).spec_extensions(),
                chunker_id@,
                sha256(parts_bytes(old(self).spec_parts())),
            ),
            r is Err ==> final(self).spec_extensions() == old(self).spec_extensions(),
            final(self).spec_metadata() == old(self).spec_metadata(),
            final(self).spec_path() == old(self).spec_path(),
            final(self).spec_workspace() == old(self).spec_workspace(),
            final(self).spec_parts() == old(self).spec_parts(),
    {
        let text_hash = self.text_hash();
        let ghost parts = self.spec_parts();
        let ghost old_cc = self.chunker_cache@;
        let ghost all = chunked@;
        let ghost cid = chunker_id@;
        proof {
            lemma_first_err(all);
            lemma_key_index(old_cc, cid);
        }
        let ci = match find_key(&self.chunker_cache, chunker_id) {
            Some(i) => i,
            None => {
                proof {
                    assert(false);
                }
                return Ok(());
            },
        };
        let ghost ext0 = self.extensions@;
        let (cid_s, old_pc) = self.chunker_cache.remove(ci);
        let ghost po = old_pc@;
        let ghost cc_rest = self.chunker_cache@;
        assert(po == lookup(old_cc, cid)->0@);
        let parts_slice = self.text.parts();
        assert(parts_view(parts_slice@) == parts);
        // Drop the entries of parts that are gone.
        let mut pc: PartChunks<E> = Vec::new();
        let mut rest = old_pc;
        let n0 = rest.len();
        let mut j: usize = 0;
        assert(po.skip(0) =~= po);
        assert(po.take(0) =~= Seq::<(String, Vec<ChunkCache<E>>)>::empty());
        while j < n0
            invariant
                cc_rest == old_cc.remove(ci as int),
                self.chunker_cache@ == cc_rest,
                self.extensions@ == ext0,
                ci < old_cc.len(),
                cid_s == old_cc[ci as int].0,
                old_cc[ci as int].0@ == cid,
                ci == key_index(old_cc, cid),
                po == lookup(old_cc, cid)->0@,
                old_cc == old(self).chunker_cache@,
                ext0 == old(self).extensions@,
                parts == old(self).spec_parts(),
                cid == chunker_id@,
                self.metadata == old(self).metadata,
                self.absolute_path == old(self).absolute_path,
                self.workspace_path == old(self).workspace_path,
                self.text == old(self).text,
                n0 == po.len(),
                j <= n0,
                rest@ == po.skip(j as int),
                parts == parts_view(parts_slice@),
                forall|k: Seq<char>|
                    #[trigger] lookup(pc@, k) == if has_part(parts, k) {
                        lookup(po.take(j as int), k)
                    } else {
                        None
                    },
            decreases n0 - j,
        {
            let entry = rest.remove(0);
            assert(rest@ =~= po.skip(j as int + 1));
            assert(po.take(j + 1) =~= po.take(j as int).push(entry));
            let ghost before = pc@;
            let keep = has_part_exec(parts_slice, entry.0.as_str());
            let ghost ev = entry;
            if keep {
                pc.push(entry);
            }
            proof {
                assert forall|k: Seq<char>|
                    #[trigger] lookup(pc@, k) == if has_part(parts, k) {
                        lookup(po.take(j + 1), k)
                    } else {
                        None
                    } by {
                    lemma_lookup_push_any(po.take(j as int), ev, k);
                    lemma_key_index(po.take(j as int), k);
                    lemma_key_index(before, k);
                    if keep {
                        lemma_lookup_push_any(before, ev, k);
                    }
                }
            }
            j = j + 1;
        }
        assert(po.take(n0 as int) =~= po);
        // Bring each part's cached chunks up to date.
        let n = parts_slice.len();
        let mut remaining = chunked;
        let mut k: usize = 0;
        assert(all.skip(0) =~= all);
        while k < n
            invariant
                cc_rest == old_cc.remove(ci as int),
                self.chunker_cache@ == cc_rest,
                self.extensions@ == ext0,
                ci < old_cc.len(),
                cid_s == old_cc[ci as int].0,
                old_cc[ci as int].0@ == cid,
                ci == key_index(old_cc, cid),
                po == lookup(old_cc, cid)->0@,
                old_cc == old(self).chunker_cache@,
                ext0 == old(self).extensions@,
                parts == old(self).spec_parts(),
                cid == chunker_id@,
                self.metadata == old(self).metadata,
                self.absolute_path == old(self).absolute_path,
                self.workspace_path == old(self).workspace_path,
                self.text == old(self).text,
                n == parts.len(),
                all.len() == n,
                k <= n,
                parts == parts_view(parts_slice@),
                ids_distinct(parts),
                remaining@ == all.skip(k as int),
                all == chunked@,
                forall|m: int|
                    0 <= m < all.len() && (#[trigger] all[m]) is Ok ==> ranges_valid(parts[m].1, all[m]->Ok_0@),
                forall|m: int| 0 <= m < k ==> #[trigger] all[m] is Ok,
                forall|id: Seq<char>| #[trigger] lookup(pc@, id) is Some ==> has_part(parts, id),
                forall|m: int|
                    #![trigger parts[m]]
                    0 <= m < k ==> lookup(pc@, parts[m].0) is Some && cache_refreshed(
                        or_empty(lookup(po, parts[m].0)),
                        lookup(pc@, parts[m].0)->0@,
                        parts[m].1,
                        all[m]->Ok_0@,
                    ),
                forall|m: int| #![trigger parts[m]] k <= m < n ==> lookup(pc@, parts[m].0) == lookup(po, parts[m].0),
            decreases n - k,
        {
            let part = &parts_slice[k];
            let id = part.id();
            let ghost idv = id@;
            assert(idv == parts[k as int].0);
            let ghost before = pc@;
            let j = match find_key(&pc, id) {
                Some(j) => j,
                None => {
                    pc.push((id.to_owned(), Vec::new()));
                    proof {
                        assert forall|x: Seq<char>| x != idv implies #[trigger] lookup(pc@, x) == lookup(before, x) by {
                            lemma_lookup_push_any(before, pc@.last(), x);
                        }
                        lemma_lookup_push_any(before, pc@.last(), idv);
                        lemma_key_index(before, idv);
                        lemma_key_index(pc@, idv);
                        assert(pc@[before.len() as int].0@ == idv);
                        assert forall|x: int| 0 <= x < before.len() implies #[trigger] pc@[x].0@ != idv by {
                            assert(pc@[x] == before[x]);
                        }
                        crate::keyed::lemma_key_index_at(pc@, idv, before.len() as int);
                    }
                    pc.len() - 1
                },
            };
            proof {
                lemma_key_index(pc@, idv);
                assert(lookup(pc@, idv) is Some);
                assert(lookup(pc@, idv)->0@ == or_empty(lookup(po, idv)));
                assert forall|m: int| #![trigger parts[m]] 0 <= m < n && m != k implies lookup(pc@, parts[m].0) == lookup(before, parts[m].0) by {
                    assert(parts[m].0 != idv);
                }
                assert forall|x: Seq<char>| #[trigger] lookup(pc@, x) is Some implies has_part(parts, x) by {
                    if x != idv {
                        assert(lookup(pc@, x) == lookup(before, x));
                    }
                }
            }
            let res = remaining.remove(0);
            assert(remaining@ =~= all.skip(k as int + 1));
            assert(res == all[k as int]);
            match res {
                Err(e) => {
                    let ghost entv = (cid_s, pc);
                    self.chunker_cache.insert(ci, (cid_s, pc));
                    proof {
                        assert(self.chunker_cache@ =~= old_cc.update(ci as int, entv));
                        assert forall|x: Seq<char>| x != cid implies #[trigger] lookup(self.chunker_cache@, x) == lookup(old_cc, x) by {
                            lemma_lookup_set(old_cc, ci as int, entv, x);
                            lemma_key_index(old_cc, x);
                        }
                        lemma_lookup_set(old_cc, ci as int, entv, cid);
                        lemma_first_err(all);
                        assert(first_err(all) == k);
                    }
                    return Err(e);
                },
                Ok(chunks) => {
                    let ghost before2 = pc@;
                    let (pid, mut cc) = pc.remove(j);
                    part.validate_cached_chunks(chunks, &mut cc);
                    let ghost ent = (pid, cc);
                    pc.insert(j, (pid, cc));
                    proof {
                        assert(pc@ =~= before2.update(j as int, ent));
                        assert forall|x: Seq<char>| x != idv implies #[trigger] lookup(pc@, x) == lookup(before2, x) by {
                            lemma_lookup_set(before2, j as int, ent, x);
                            lemma_key_index(before2, x);
                        }
                        lemma_lookup_set(before2, j as int, ent, idv);
                        assert forall|m: int| #![trigger parts[m]] 0 <= m < n && m != k implies lookup(pc@, parts[m].0) == lookup(before2, parts[m].0) by {
                            assert(parts[m].0 != idv);
                        }
                        assert forall|x: Seq<char>| #[trigger] lookup(pc@, x) is Some implies has_part(parts, x) by {
                            if x != idv {
                                assert(lookup(pc@, x) == lookup(before2, x));
                            }
                        }
                    }
                },
            }
            k = k + 1;
        }
        // Record the text hash for the chunker.
        let ghost old_ext = self.extensions@;
        proof {
            lemma_key_index(old_ext, cid);
        }
        match find_key(&self.extensions, chunker_id) {
            Some(i) => {
                let (key, mut ec) = self.extensions.remove(i);
                ec.hash = Some(text_hash);
                let ghost ent = (key, ec);
                self.extensions.insert(i, (key, ec));
                proof {
                    assert(self.extensions@ =~= old_ext.update(i as int, ent));
                    lemma_lookup_set(old_ext, i as int, ent, cid);
                    assert forall|x: Seq<char>| x != cid implies #[trigger] lookup(self.extensions@, x) == lookup(old_ext, x) by {
                        lemma_lookup_set(old_ext, i as int, ent, x);
                        lemma_key_index(old_ext, x);
                    }
                }
            },
            None => {
                let ent = (chunker_id.to_owned(), ExtensionCache { hash: Some(text_hash), data: None });
                let ghost entv = ent;
                self.extensions.push(ent);
                proof {
                    crate::keyed::lemma_lookup_push(old_ext, entv, cid);
                    assert forall|x: Seq<char>| x != cid implies #[trigger] lookup(self.extensions@, x) == lookup(old_ext, x) by {
                        crate::keyed::lemma_lookup_push(old_ext, entv, x);
                    }
                }
            },
        }
        let ghost entv = (cid_s, pc);
        self.chunker_cache.insert(ci, (cid_s, pc));
        proof {
            assert(self.chunker_cache@ =~= old_cc.update(ci as int, entv));
            assert forall|x: Seq<char>| x != cid implies #[trigger] lookup(self.chunker_cache@, x) == lookup(old_cc, x) by {
                lemma_lookup_set(old_cc, ci as int, entv, x);
                lemma_key_index(old_cc, x);
            }
            lemma_lookup_set(old_cc, ci as int, entv, cid);
            lemma_first_err(all);
            assert(first_err(all) == n);
        }
        Ok(())
    }
}


/// Position of the first part with id `id`, or -1.
pub open spec fn part_pos(ps: Seq<(Seq<char>, Seq<char>)>, id: Seq<char>) -> int
    decreases ps.len(),
{
    if ps.len() == 0 {
        -1
    } else if ps[0].0 == id {
        0
    } else {
        let r = part_pos(ps.drop_first(), id);
        if r < 0 {
            -1
        } else {
            r + 1
        }
    }
}

proof fn lemma_part_pos(ps: Seq<(Seq<char>, Seq<char>)>, id: Seq<char>)
    ensures
        -1 <= part_pos(ps, id) < ps.len(),
        part_pos(ps, id) >= 0 ==> ps[part_pos(ps, id)].0 == id,
        part_pos(ps, id) < 0 <==> !has_part(ps, id),
        forall|j: int| 0 <= j < part_pos(ps, id) ==> #[trigger] ps[j].0 != id,
    decreases ps.len(),
{
    if ps.len() > 0 {
        lemma_part_pos(ps.drop_first(), id);
        if ps[0].0 != id {
            assert forall|j: int| 0 <= j < part_pos(ps, id) implies #[trigger] ps[j].0 != id by {
                if j > 0 {
                    assert(ps[j] == ps.drop_first()[j - 1]);
                }
            }
            if has_part(ps, id) {
                let m = choose|m: int| 0 <= m < ps.len() && ps[m].0 == id;
                assert(ps.drop_first()[m - 1] == ps[m]);
            }
            if has_part(ps.drop_first(), id) {
                let m = choose|m: int| 0 <= m < ps.drop_first().len() && ps.drop_first()[m].0 == id;
                assert(ps[m + 1] == ps.drop_first()[m]);
            }
        }
    }
}

fn find_part(parts: &[Part], id: &str) -> (r: Option<usize>)
    ensures
        match r {
            Some(i) => i == part_pos(parts_view(parts@), id@),
            None => part_pos(parts_view(parts@), id@) < 0,
        },
{
    let ghost ps = parts_view(parts@);
    proof {
        lemma_part_pos(ps, id@);
    }
    let mut m: usize = 0;
    while m < parts.len()
        invariant
            m <= parts.len(),
            ps == parts_view(parts@),
            -1 <= part_pos(ps, id@) < ps.len(),
            part_pos(ps, id@) >= 0 ==> ps[part_pos(ps, id@)].0 == id@,
            part_pos(ps, id@) < 0 <==> !has_part(ps, id@),
            forall|j: int| 0 <= j < part_pos(ps, id@) ==> #[trigger] ps[j].0 != id@,
            forall|j: int| 0 <= j < m ==> #[trigger] ps[j].0 != id@,
        decreases parts.len() - m,
    {
        if str_eq(parts[m].id(), id) {
            assert(ps[m as int].0 == id@);
            assert(has_part(ps, id@));
            return Some(m);
        }
        m = m + 1;
    }
    None
}

/// The indices of chunker `cid`'s chunks, part after part from part `k` on, stopping at the
/// first part that has no cached chunks.
pub open spec fn order_from<E>(
    pc: Seq<(String, Vec<ChunkCache<E>>)>,
    parts: Seq<(Seq<char>, Seq<char>)>,
    cid: Seq<char>,
    k: int,
) -> Seq<(Seq<char>, Seq<char>, int)>
    decreases parts.len() - k,
{
    if k < 0 || k >= parts.len() {
        Seq::empty()
    } else {
        match lookup(pc, parts[k].0) {
            None => Seq::empty(),
            Some(v) => Seq::new(v@.len(), |j: int| (cid, parts[k].0, j)) + order_from(pc, parts, cid, k + 1),
        }
    }
}

/// The indices of every chunk of chunker `cid`, in the order they are visited.
pub open spec fn chunk_order<E>(
    cc: Seq<(String, PartChunks<E>)>,
    parts: Seq<(Seq<char>, Seq<char>)>,
    cid: Seq<char>,
) -> Seq<(Seq<char>, Seq<char>, int)> {
    match lookup(cc, cid) {
        None => Seq::empty(),
        Some(pc) => order_from(pc@, parts, cid, 0),
    }
}

pub open spec fn idx_view(i: ChunkIdx) -> (Seq<char>, Seq<char>, int) {
    (i.spec_chunker_id(), i.spec_text_part_id(), i.spec_chunk_idx() as int)
}

/// The chunk cached at `i` for part `pid` by chunker `cid`, if any.
pub open spec fn chunk_at<E>(cc: Seq<(String, PartChunks<E>)>, cid: Seq<char>, pid: Seq<char>, i: int) -> Option<ChunkCache<E>> {
    match lookup(cc, cid) {
        None => None,
        Some(pc) => match lookup(pc@, pid) {
            None => None,
            Some(v) => if 0 <= i < v@.len() {
                Some(v@[i])
            } else {
                None
            },
        },
    }
}

/// What looking chunk `idx` up gives, as an error or success: first the part, then the
/// chunker's cache, then the part's cached chunks, then the position.
pub open spec fn chunk_lookup_error<E>(
    cc: Seq<(String, PartChunks<E>)>,
    parts: Seq<(Seq<char>, Seq<char>)>,
    cid: Seq<char>,
    pid: Seq<char>,
    i: int,
    e: GetChunkError,
) -> bool {
    if !has_part(parts, pid) {
        e matches GetChunkError::NoSuchTextPart(p) && p@ == pid
    } else if lookup(cc, cid) is None {
        e matches GetChunkError::CacheNotLoaded(c) && c@ == cid
    } else if lookup(lookup(cc, cid)->0@, pid) is None {
        e matches GetChunkError::TextPartNotChunked(c, p) && c@ == cid && p@ == pid
    } else {
        e matches GetChunkError::ChunkIdxOutOfBounds(c, p, n) && c@ == cid && p@ == pid && n == i
    }
}

/// A chunk of a document: its cached data, the text of its part, and its index.
#[derive(Debug)]
pub struct Chunk<'a, E> {
    data: &'a ChunkCache<E>,
    text: &'a str,
    idx: ChunkIdx,
}

impl<'a, E> Chunk<'a, E> {
    pub closed spec fn spec_data(self) -> ChunkCache<E> {
        *self.data
    }

    pub closed spec fn spec_part_text(self) -> Seq<char> {
        self.text@
    }

    pub closed spec fn spec_idx(self) -> ChunkIdx {
        self.idx
    }

    /// The chunk's text; none when its range no longer fits the part's text.
    pub fn text(&self) -> (r: Option<String>)
        ensures
            r is Some == byte_slice(self.spec_part_text(), self.spec_data().chunk.text_range.start as int, self.spec_data().chunk.text_range.end as int) is Some,
            r is Some ==> r->0@ == byte_slice(self.spec_part_text(), self.spec_data().chunk.text_range.start as int, self.spec_data().chunk.text_range.end as int)->0,
    {
        str_get(self.text, self.data.chunk.text_range.start, self.data.chunk.text_range.end)
    }

    /// The chunk: its range in the part's text, heading path and token count.
    pub fn data(&self) -> (r: &ChunkData)
        ensures
            *r == self.spec_data().chunk,
    {
        &self.data.chunk
    }

    pub fn hash(&self) -> (r: &TextHash)
        ensures
            *r == self.spec_data().hash,
    {
        &self.data.hash
    }

    pub fn chunk_idx(&self) -> (r: &ChunkIdx)
        ensures
            *r == self.spec_idx(),
    {
        &self.idx
    }

    /// The embedding computed for this chunk by embedder `embedder_id`, if any.
    pub fn embedding(&self, embedder_id: &str) -> (r: Option<&E>)
        ensures
            match lookup(self.spec_data().embeddings@, embedder_id@) {
                Some(v) => r == Some(&v),
                None => r is None,
            },
    {
        match find_key(&self.data.embeddings, embedder_id) {
            Some(i) => Some(&self.data.embeddings[i].1),
            None => None,
        }
    }
}

impl<E> Document<E> {
    /// The indices of the chunks of chunker `chunker_id`, part after part, in order; the
    /// first part without cached chunks ends the list.
    pub fn chunk_indices(&self, chunker_id: &str) -> (r: Vec<ChunkIdx>)
        ensures
            r@.map_values(|i: ChunkIdx| idx_view(i)) == chunk_order(self.spec_chunker_cache(), self.spec_parts(), chunker_id@),
    {
        let mut out: Vec<ChunkIdx> = Vec::new();
        let ci = match find_key(&self.chunker_cache, chunker_id) {
            Some(i) => i,
            None => {
                assert(out@.map_values(|i: ChunkIdx| idx_view(i)) =~= Seq::<(Seq<char>, Seq<char>, int)>::empty());
                return out;
            },
        };
        let pc = &self.chunker_cache[ci].1;
        let parts = self.text.parts();
        let ghost ps = parts_view(parts@);
        let ghost cid = chunker_id@;
        let ghost full = order_from(pc@, ps, cid, 0);
        let mut k: usize = 0;
        assert(out@.map_values(|i: ChunkIdx| idx_view(i)) =~= Seq::<(Seq<char>, Seq<char>, int)>::empty());
        assert(Seq::<(Seq<char>, Seq<char>, int)>::empty() + order_from(pc@, ps, cid, 0) =~= full);
        while k < parts.len()
            invariant_except_break
                out@.map_values(|i: ChunkIdx| idx_view(i)) + order_from(pc@, ps, cid, k as int) == full,
            invariant
                k <= parts.len(),
                ps == parts_view(parts@),
                cid == chunker_id@,
                full == order_from(pc@, ps, cid, 0),
            ensures
                out@.map_values(|i: ChunkIdx| idx_view(i)) == full,
            decreases parts.len() - k,
        {
            let id = parts[k].id();
            assert(id@ == ps[k as int].0);
            match find_key(pc, id) {
                None => {
                    assert(order_from(pc@, ps, cid, k as int) =~= Seq::<(Seq<char>, Seq<char>, int)>::empty());
                    assert(out@.map_values(|i: ChunkIdx| idx_view(i)) =~= full);
                    break;
                },
                Some(j) => {
                    let v = &pc[j].1;
                    let ghost base = out@.map_values(|i: ChunkIdx| idx_view(i));
                    let ghost block = Seq::new(v@.len(), |x: int| (cid, ps[k as int].0, x));
                    assert(order_from(pc@, ps, cid, k as int) == block + order_from(pc@, ps, cid, k + 1));
                    let mut x: usize = 0;
                    while x < v.len()
                        invariant
                            x <= v.len(),
                            cid == chunker_id@,
                            id@ == ps[k as int].0,
                            block == Seq::new(v@.len(), |y: int| (cid, ps[k as int].0, y)),
                            out@.map_values(|i: ChunkIdx| idx_view(i)) == base + block.take(x as int),
                        decreases v.len() - x,
                    {
                        let ghost before = out@;
                        out.push(ChunkIdx::new(chunker_id.to_owned(), id.to_owned(), x));
                        assert(out@.map_values(|i: ChunkIdx| idx_view(i)) =~= before.map_values(|i: ChunkIdx| idx_view(i)).push(idx_view(out@.last())));
                        assert(block.take(x + 1) =~= block.take(x as int).push(block[x as int]));
                        x = x + 1;
                    }
                    assert(block.take(v.len() as int) =~= block);
                    assert(out@.map_values(|i: ChunkIdx| idx_view(i)) + order_from(pc@, ps, cid, k + 1) =~= full);
                },
            }
            k = k + 1;
        }
        proof {
            if k >= parts.len() {
                assert(order_from(pc@, ps, cid, k as int) =~= Seq::<(Seq<char>, Seq<char>, int)>::empty());
            }
        }
        out
    }

    /// The chunk at `idx`: an error names what is missing, looked up in this order: the
    /// text part, the chunker's cache, the part's chunks, the position.
    pub fn chunk(&self, idx: ChunkIdx) -> (r: Result<Chunk<'_, E>, GetChunkError>)
        ensures
            match r {
                Ok(c) => {
                    &&& chunk_at(self.spec_chunker_cache(), idx.spec_chunker_id(), idx.spec_text_part_id(), idx.spec_chunk_idx() as int) == Some(c.spec_data())
                    &&& has_part(self.spec_parts(), idx.spec_text_part_id())
                    &&& c.spec_part_text() == self.spec_parts()[part_pos(self.spec_parts(), idx.spec_text_part_id())].1
                    &&& c.spec_idx() == idx
                },
                Err(e) => {
                    &&& chunk_at(self.spec_chunker_cache(), idx.spec_chunker_id(), idx.spec_text_part_id(), idx.spec_chunk_idx() as int) is None
                        || !has_part(self.spec_parts(), idx.spec_text_part_id())
                    &&& chunk_lookup_error(self.spec_chunker_cache(), self.spec_parts(), idx.spec_chunker_id(), idx.spec_text_part_id(), idx.spec_chunk_idx() as int, e)
                },
            },
    {
        let parts = self.text.parts();
        let ghost ps = parts_view(parts@);
        proof {
            lemma_part_pos(ps, idx.spec_text_part_id());
        }
        let pi = match find_part(parts, idx.text_part_id()) {
            Some(i) => i,
            None => return Err(GetChunkError::NoSuchTextPart(idx.text_part_id().to_owned())),
        };
        let ci = match find_key(&self.chunker_cache, idx.chunker_id()) {
            Some(i) => i,
            None => return Err(GetChunkError::CacheNotLoaded(idx.chunker_id().to_owned())),
        };
        let pc = &self.chunker_cache[ci].1;
        let pj = match find_key(pc, idx.text_part_id()) {
            Some(j) => j,
            None => return Err(GetChunkError::TextPartNotChunked(idx.chunker_id().to_owned(), idx.text_part_id().to_owned())),
        };
        let v = &pc[pj].1;
        let n = idx.chunk_idx();
        if n >= v.len() {
            return Err(GetChunkError::ChunkIdxOutOfBounds(idx.chunker_id().to_owned(), idx.text_part_id().to_owned(), n));
        }
        Ok(Chunk { data: &v[n], text: parts[pi].content(), idx })
    }
}


/// `new` is `old` with embedding `emb` recorded for embedder `eid` on chunk `x` of part
/// `pid` of chunker `cid`: that chunk keeps its data and other embeddings, every other
/// chunk is unchanged, and no chunk appears or disappears.
pub open spec fn embedding_recorded<E>(
    old_cc: Seq<(String, PartChunks<E>)>,
    new_cc: Seq<(String, PartChunks<E>)>,
    cid: Seq<char>,
    pid: Seq<char>,
    x: int,
    eid: Seq<char>,
    emb: E,
) -> bool {
    &&& forall|c: Seq<char>, p: Seq<char>, y: int|
        #![trigger chunk_at(new_cc, c, p, y)]
        !(c == cid && p == pid && y == x) ==> chunk_at(new_cc, c, p, y) == chunk_at(old_cc, c, p, y)
    &&& chunk_at(old_cc, cid, pid, x) is Some
    &&& chunk_at(new_cc, cid, pid, x) is Some
    &&& chunk_at(new_cc, cid, pid, x)->0.chunk == chunk_at(old_cc, cid, pid, x)->0.chunk
    &&& chunk_at(new_cc, cid, pid, x)->0.hash == chunk_at(old_cc, cid, pid, x)->0.hash
    &&& forall|k: Seq<char>|
        #[trigger] lookup(chunk_at(new_cc, cid, pid, x)->0.embeddings@, k) == if k == eid {
            Some(emb)
        } else {
            lookup(chunk_at(old_cc, cid, pid, x)->0.embeddings@, k)
        }
}

/// An embedding recorded for a cached chunk is what that chunk's embedding lookup gives
/// afterwards, the chunk's text and hash stay, and every other cached chunk is as before.
/// (`set_embedding` also leaves the text parts and the extension caches alone, so whether
/// the chunker's cache is valid does not change.)
pub proof fn law_embedding_read_back<E>(
    old_cc: Seq<(String, PartChunks<E>)>,
    new_cc: Seq<(String, PartChunks<E>)>,
    cid: Seq<char>,
    pid: Seq<char>,
    x: int,
    eid: Seq<char>,
    emb: E,
)
    requires
        embedding_recorded(old_cc, new_cc, cid, pid, x, eid, emb),
    ensures
        chunk_at(new_cc, cid, pid, x) matches Some(c) && lookup(c.embeddings@, eid) == Some(emb),
        chunk_at(new_cc, cid, pid, x)->0.chunk == chunk_at(old_cc, cid, pid, x)->0.chunk,
        forall|p: Seq<char>, y: int| !(p == pid && y == x) ==> #[trigger] chunk_at(new_cc, cid, p, y) == chunk_at(old_cc, cid, p, y),
{
    assert(lookup(chunk_at(new_cc, cid, pid, x)->0.embeddings@, eid) == Some(emb));
    assert forall|p: Seq<char>, y: int| !(p == pid && y == x) implies #[trigger] chunk_at(new_cc, cid, p, y) == chunk_at(old_cc, cid, p, y) by {
        assert(chunk_at(new_cc, cid, p, y) == chunk_at(old_cc, cid, p, y));
    }
}

/// Records `v` for key `k` in `e`: the first entry with key `k` gets it, or a new entry is
/// appended.
fn set_keyed<V>(e: &mut Vec<(String, V)>, k: String, v: V)
    ensures
        forall|x: Seq<char>|
            #[trigger] lookup(final(e)@, x) == if x == k@ {
                Some(v)
            } else {
                lookup(old(e)@, x)
            },
{
    let ghost old_e = e@;
    let ghost kv = k@;
    match find_key(e, k.as_str()) {
        Some(i) => {
            let ghost ent = (k, v);
            e.set(i, (k, v));
            proof {
                assert forall|x: Seq<char>|
                    #[trigger] lookup(e@, x) == if x == kv {
                        Some(ent.1)
                    } else {
                        lookup(old_e, x)
                    } by {
                    lemma_lookup_set(old_e, i as int, ent, x);
                    lemma_key_index(old_e, x);
                }
            }
        },
        None => {
            let ghost ent = (k, v);
            e.push((k, v));
            proof {
                assert forall|x: Seq<char>|
                    #[trigger] lookup(e@, x) == if x == kv {
                        Some(ent.1)
                    } else {
                        lookup(old_e, x)
                    } by {
                    crate::keyed::lemma_lookup_push(old_e, ent, x);
                }
            }
        },
    }
}

impl<E> Document<E> {
    /// Records embedding `emb` by embedder `embedder_id` for the chunk at `idx`, replacing
    /// one it had; an error, with nothing changed, when there is no such chunk, the same
    /// as looking it up gives.
    pub fn set_embedding(&mut self, idx: &ChunkIdx, embedder_id: String, emb: E) -> (r: Result<(), GetChunkError>)
        ensures
            final(self).spec_metadata() == old(self).spec_metadata(),
            final(self).spec_path() == old(self).spec_path(),
            final(self).spec_workspace() == old(self).spec_workspace(),
            final(self).spec_parts() == old(self).spec_parts(),
            final(self).spec_extensions() == old(self).spec_extensions(),
            match r {
                Ok(_) => {
                    &&& has_part(old(self).spec_parts(), idx.spec_text_part_id())
                    &&& embedding_recorded(old(self).spec_chunker_cache(), final(self).spec_chunker_cache(), idx.spec_chunker_id(), idx.spec_text_part_id(), idx.spec_chunk_idx() as int, embedder_id@, emb)
                },
                Err(e) => {
                    &&& final(self).spec_chunker_cache() == old(self).spec_chunker_cache()
                    &&& chunk_at(old(self).spec_chunker_cache(), idx.spec_chunker_id(), idx.spec_text_part_id(), idx.spec_chunk_idx() as int) is None
                        || !has_part(old(self).spec_parts(), idx.spec_text_part_id())
                    &&& chunk_lookup_error(old(self).spec_chunker_cache(), old(self).spec_parts(), idx.spec_chunker_id(), idx.spec_text_part_id(), idx.spec_chunk_idx() as int, e)
                },
            },
    {
        let ghost old_cc = self.chunker_cache@;
        let ghost cid = idx.spec_chunker_id();
        let ghost pid = idx.spec_text_part_id();
        proof {
            lemma_part_pos(self.spec_parts(), pid);
            lemma_key_index(old_cc, cid);
        }
        if find_part(self.text.parts(), idx.text_part_id()).is_none() {
            return Err(GetChunkError::NoSuchTextPart(idx.text_part_id().to_owned()));
        }
        let ci = match find_key(&self.chunker_cache, idx.chunker_id()) {
            Some(i) => i,
            None => return Err(GetChunkError::CacheNotLoaded(idx.chunker_id().to_owned())),
        };
        let ghost old_pc = self.chunker_cache@[ci as int].1@;
        proof {
            lemma_key_index(old_pc, pid);
        }
        let pj = match find_key(&self.chunker_cache[ci].1, idx.text_part_id()) {
            Some(j) => j,
            None => return Err(GetChunkError::TextPartNotChunked(idx.chunker_id().to_owned(), idx.text_part_id().to_owned())),
        };
        let n = idx.chunk_idx();
        if n >= self.chunker_cache[ci].1[pj].1.len() {
            return Err(GetChunkError::ChunkIdxOutOfBounds(idx.chunker_id().to_owned(), idx.text_part_id().to_owned(), n));
        }
        let (ckey, mut pc) = self.chunker_cache.remove(ci);
        let (pkey, mut v) = pc.remove(pj);
        let ghost old_v = v@;
        let mut cache = v.remove(n);
        let ghost old_cache = cache;
        set_keyed(&mut cache.embeddings, embedder_id, emb);
        let ghost new_cache = cache;
        v.insert(n, cache);
        let ghost new_v = v;
        assert(v@ =~= old_v.update(n as int, new_cache));
        let ghost pent = (pkey, new_v);
        pc.insert(pj, (pkey, v));
        assert(pc@ =~= old_pc.update(pj as int, pent));
        let ghost new_pc = pc;
        let ghost cent = (ckey, new_pc);
        self.chunker_cache.insert(ci, (ckey, pc));
        assert(self.chunker_cache@ =~= old_cc.update(ci as int, cent));
        proof {
            let new_cc = self.chunker_cache@;
            lemma_lookup_set(old_cc, ci as int, cent, cid);
            lemma_lookup_set(old_pc, pj as int, pent, pid);
            assert forall|c: Seq<char>, p: Seq<char>, y: int|
                #![trigger chunk_at(new_cc, c, p, y)]
                !(c == cid && p == pid && y == n) implies chunk_at(new_cc, c, p, y) == chunk_at(old_cc, c, p, y) by {
                lemma_lookup_set(old_cc, ci as int, cent, c);
                lemma_key_index(old_cc, c);
                if c == cid {
                    lemma_lookup_set(old_pc, pj as int, pent, p);
                    lemma_key_index(old_pc, p);
                }
            }
        }
        Ok(())
    }
}


// ---------------------------------------------------------------------------------------
// Saving and loading
// ---------------------------------------------------------------------------------------

/// The file that a piece of a document is written to.
#[derive(Debug, Clone, Copy, PartialEq, Eq, Structural)]
pub enum SaveTarget {
    SourceFile,
    MetadataFile,
}

/// The block that opens a Markdown file holding metadata `yaml`.
pub open spec fn metadata_block(yaml: Seq<char>) -> Seq<char> {
    "---\n"@ + yaml + "---\n"@
}

fn metadata_block_exec(yaml: &str) -> (r: String)
    ensures
        r@ == metadata_block(yaml@),
{
    let mut r = String::from_str("---\n");
    push_str(&mut r, yaml);
    push_str(&mut r, "---\n");
    r
}

/// The text, or nothing.
pub open spec fn text_or_empty(t: Option<Seq<char>>) -> Seq<char> {
    match t {
        Some(x) => x,
        None => Seq::empty(),
    }
}

/// The files that saving a document writes, in order, with their contents; `yaml` is the
/// metadata as YAML, `text` the document's text.
pub open spec fn save_writes(
    location: MetadataLocation,
    is_text: bool,
    is_markdown: bool,
    yaml: Seq<char>,
    text: Option<Seq<char>>,
) -> Result<Seq<(SaveTarget, Seq<char>)>, (MetadataLocation, Seq<char>)> {
    match location {
        MetadataLocation::SourceFile => if !is_markdown {
            Err((MetadataLocation::SourceFile, "Cannot save metadata in source file that is not markdown"@))
        } else {
            Ok(seq![(SaveTarget::SourceFile, metadata_block(yaml) + text_or_empty(text))])
        },
        MetadataLocation::MetadataFile => if is_text {
            Ok(seq![(SaveTarget::SourceFile, text_or_empty(text)), (SaveTarget::MetadataFile, metadata_block(yaml))])
        } else {
            Ok(seq![(SaveTarget::MetadataFile, metadata_block(yaml) + text_or_empty(text))])
        },
        MetadataLocation::Nowhere => if text is Some && is_text {
            Ok(seq![(SaveTarget::SourceFile, text->0)])
        } else {
            Ok(Seq::empty())
        },
        MetadataLocation::Unknown => Err((MetadataLocation::Unknown, "Invalid when saving"@)),
    }
}

pub open spec fn writes_view(v: Seq<(SaveTarget, String)>) -> Seq<(SaveTarget, Seq<char>)> {
    v.map_values(|w: (SaveTarget, String)| (w.0, w.1@))
}

/// The name of the file that caches the chunks of chunker `chunker_id`.
pub open spec fn chunk_cache_file_name(chunker_id: Seq<char>) -> Seq<char> {
    ".chunks_"@ + chunker_id + ".yaml"@
}

pub fn chunk_cache_file(chunker_id: &str) -> (r: String)
    ensures
        r@ == chunk_cache_file_name(chunker_id@),
{
    let mut r = String::from_str(".chunks_");
    push_str(&mut r, chunker_id);
    push_str(&mut r, ".yaml");
    r
}

/// The name of the file that caches what the extensions keep for a document.
pub const CACHE_FILE: &'static str = ".cache.yaml";

/// What reading a Markdown file gave: its text after the metadata block, and the metadata
/// that the block held, or why there was none to read.
#[derive(Debug)]
pub struct MarkdownRead {
    pub text: String,
    pub metadata: Result<DocumentMetadata, String>,
}

/// What reading a metadata file gave.
#[derive(Debug)]
pub enum MetadataFileRead {
    Found(MarkdownRead),
    NotFound,
    Failed(std::io::Error),
}

/// What loading a document asks for next.
#[derive(Debug, Clone, Copy, PartialEq, Eq, Structural)]
pub enum LoadStep {
    /// Read the metadata file as Markdown; hand it to `load_metadata_file`.
    ReadMetadataFile,
    /// Read the source file as Markdown; hand it to `load_source_markdown`.
    ReadSourceMarkdown,
    /// Read the source file as text; hand it to `load_source_text`.
    ReadSourceText,
    /// Loading is complete.
    Done,
}

/// What loading does once the metadata file was dealt with, given the metadata then.
pub open spec fn source_step(m: DocumentMetadata) -> LoadStep {
    if m.metadata_location == MetadataLocation::SourceFile || (m.metadata_location == MetadataLocation::Unknown
        && is_markdown_mime(m.mime)) {
        LoadStep::ReadSourceMarkdown
    } else if is_text_mime(m.mime) {
        LoadStep::ReadSourceText
    } else {
        LoadStep::Done
    }
}

/// The metadata location once the metadata file was dealt with, when the source file is
/// not read as Markdown: an unknown location becomes none.
pub open spec fn location_after_source_step(m: DocumentMetadata) -> MetadataLocation {
    if source_step(m) != LoadStep::ReadSourceMarkdown && m.metadata_location == MetadataLocation::Unknown {
        MetadataLocation::Nowhere
    } else {
        m.metadata_location
    }
}

impl<E> Document<E> {
    /// What saving the document writes: each file with its contents, in order, given
    /// `metadata_yaml`, the metadata as YAML. Metadata in the source file needs a Markdown
    /// source; an unknown location cannot be saved. Without a metadata location, text is
    /// written only to a text source file.
    pub fn save_plan(&self, metadata_yaml: &str) -> (r: Result<Vec<(SaveTarget, String)>, AccessStorageError>)
        ensures
            match save_writes(
                self.spec_metadata().metadata_location,
                is_text_mime(self.spec_metadata().mime),
                is_markdown_mime(self.spec_metadata().mime),
                metadata_yaml@,
                export_spec(self.spec_parts()),
            ) {
                Ok(w) => r is Ok && writes_view(r->Ok_0@) == w,
                Err((l, m)) => r is Err && (r->Err_0 matches AccessStorageError::MetadataLocation(l2, m2) && l2 == l && m2@ == m),
            },
    {
        let mut out: Vec<(SaveTarget, String)> = Vec::new();
        let text = self.text();
        let is_text = self.metadata.source_is_text();
        match self.metadata.metadata_location {
            MetadataLocation::SourceFile => {
                if !self.metadata.source_is_markdown() {
                    return Err(AccessStorageError::MetadataLocation(
                        MetadataLocation::SourceFile,
                        String::from_str("Cannot save metadata in source file that is not markdown"),
                    ));
                }
                let mut content = metadata_block_exec(metadata_yaml);
                match &text {
                    Some(t) => push_str(&mut content, t.as_str()),
                    None => {},
                }
                out.push((SaveTarget::SourceFile, content));
            },
            MetadataLocation::MetadataFile => {
                if is_text {
                    let t = match text {
                        Some(t) => t,
                        None => String::new(),
                    };
                    out.push((SaveTarget::SourceFile, t));
                    out.push((SaveTarget::MetadataFile, metadata_block_exec(metadata_yaml)));
                } else {
                    let mut content = metadata_block_exec(metadata_yaml);
                    match &text {
                        Some(t) => push_str(&mut content, t.as_str()),
                        None => {},
                    }
                    out.push((SaveTarget::MetadataFile, content));
                }
            },
            MetadataLocation::Nowhere => {
                match text {
                    Some(t) => {
                        if is_text {
                            out.push((SaveTarget::SourceFile, t));
                        }
                    },
                    None => {},
                }
            },
            MetadataLocation::Unknown => {
                return Err(AccessStorageError::MetadataLocation(MetadataLocation::Unknown, String::from_str("Invalid when saving")));
            },
        }
        proof {
            let w = writes_view(out@);
            assert(w =~= save_writes(
                self.spec_metadata().metadata_location,
                is_text_mime(self.spec_metadata().mime),
                is_markdown_mime(self.spec_metadata().mime),
                metadata_yaml@,
                export_spec(self.spec_parts()),
            )->Ok_0);
        }
        Ok(out)
    }

    fn source_step_exec(&mut self) -> (r: LoadStep)
        ensures
            r == source_step(old(self).spec_metadata()),
            final(self).spec_metadata() == (DocumentMetadata {
                metadata_location: location_after_source_step(old(self).spec_metadata()),
                ..old(self).spec_metadata()
            }),
            final(self).spec_parts() == old(self).spec_parts(),
            final(self).spec_path() == old(self).spec_path(),
            final(self).spec_workspace() == old(self).spec_workspace(),
            final(self).spec_extensions() == old(self).spec_extensions(),
            final(self).spec_chunker_cache() == old(self).spec_chunker_cache(),
    {
        let loc = self.metadata.metadata_location;
        if loc == MetadataLocation::SourceFile || (loc == MetadataLocation::Unknown && self.metadata.source_is_markdown()) {
            LoadStep::ReadSourceMarkdown
        } else {
            self.metadata.metadata_location.update_unknown(MetadataLocation::Nowhere);
            if self.metadata.source_is_text() {
                LoadStep::ReadSourceText
            } else {
                LoadStep::Done
            }
        }
    }

    /// Starts loading the document: the text is dropped; the metadata file is read first
    /// when the metadata may be there, else the source file as the metadata says.
    pub fn load_start(&mut self) -> (r: LoadStep)
        ensures
            final(self).spec_parts().len() == 0,
            old(self).spec_metadata().metadata_location == MetadataLocation::MetadataFile
                || old(self).spec_metadata().metadata_location == MetadataLocation::Unknown ==> {
                &&& r == LoadStep::ReadMetadataFile
                &&& final(self).spec_metadata() == old(self).spec_metadata()
            },
            !(old(self).spec_metadata().metadata_location == MetadataLocation::MetadataFile
                || old(self).spec_metadata().metadata_location == MetadataLocation::Unknown) ==> {
                &&& r == source_step(old(self).spec_metadata())
                &&& final(self).spec_metadata() == (DocumentMetadata {
                    metadata_location: location_after_source_step(old(self).spec_metadata()),
                    ..old(self).spec_metadata()
                })
            },
            final(self).spec_path() == old(self).spec_path(),
            final(self).spec_workspace() == old(self).spec_workspace(),
            final(self).spec_extensions() == old(self).spec_extensions(),
            final(self).spec_chunker_cache() == old(self).spec_chunker_cache(),
    {
        self.update_text(None);
        let loc = self.metadata.metadata_location;
        if loc == MetadataLocation::MetadataFile || loc == MetadataLocation::Unknown {
            LoadStep::ReadMetadataFile
        } else {
            self.source_step_exec()
        }
    }

    /// Takes what reading the metadata file gave. Metadata that declares itself stored in
    /// the metadata file is adopted, with the text after it when the source is not text and
    /// that text is not blank; other metadata is ignored. A missing metadata file is an
    /// error only when the metadata is known to be there. Then the source file is read as
    /// the metadata says.
    pub fn load_metadata_file(&mut self, read: MetadataFileRead) -> (r: Result<LoadStep, AccessStorageError>)
        ensures
            final(self).spec_path() == old(self).spec_path(),
            final(self).spec_workspace() == old(self).spec_workspace(),
            final(self).spec_extensions() == old(self).spec_extensions(),
            final(self).spec_chunker_cache() == old(self).spec_chunker_cache(),
            match read {
                MetadataFileRead::Failed(e) => r is Err && r->Err_0 == AccessStorageError::Io(e),
                MetadataFileRead::NotFound => if old(self).spec_metadata().metadata_location == MetadataLocation::MetadataFile {
                    &&& r is Err
                    &&& r->Err_0 matches AccessStorageError::MetadataLocation(l, m) && l == MetadataLocation::MetadataFile && m@ == "Metadata file not found"@
                } else {
                    &&& r == Ok::<LoadStep, AccessStorageError>(source_step(old(self).spec_metadata()))
                    &&& final(self).spec_metadata() == (DocumentMetadata {
                        metadata_location: location_after_source_step(old(self).spec_metadata()),
                        ..old(self).spec_metadata()
                    })
                    &&& final(self).spec_parts() == old(self).spec_parts()
                },
                MetadataFileRead::Found(md) => match md.metadata {
                    Ok(m) => if m.metadata_location == MetadataLocation::MetadataFile {
                        &&& r == Ok::<LoadStep, AccessStorageError>(source_step(m))
                        &&& final(self).spec_metadata() == (DocumentMetadata {
                            metadata_location: location_after_source_step(m),
                            ..m
                        })
                        &&& final(self).spec_parts() == if !is_text_mime(m.mime) && trim_start(md.text@).len() > 0 {
                            import_spec(Some(md.text@), old(self).spec_metadata().doc_parts is Some)
                        } else {
                            old(self).spec_parts()
                        }
                    } else {
                        &&& r == Ok::<LoadStep, AccessStorageError>(source_step(old(self).spec_metadata()))
                        &&& final(self).spec_metadata() == (DocumentMetadata {
                            metadata_location: location_after_source_step(old(self).spec_metadata()),
                            ..old(self).spec_metadata()
                        })
                        &&& final(self).spec_parts() == old(self).spec_parts()
                    },
                    Err(_) => {
                        &&& r == Ok::<LoadStep, AccessStorageError>(source_step(old(self).spec_metadata()))
                        &&& final(self).spec_metadata() == (DocumentMetadata {
                            metadata_location: location_after_source_step(old(self).spec_metadata()),
                            ..old(self).spec_metadata()
                        })
                        &&& final(self).spec_parts() == old(self).spec_parts()
                    },
                },
            },
    {
        match read {
            MetadataFileRead::Failed(e) => Err(AccessStorageError::Io(e)),
            MetadataFileRead::NotFound => {
                if self.metadata.metadata_location == MetadataLocation::MetadataFile {
                    return Err(AccessStorageError::MetadataLocation(
                        MetadataLocation::MetadataFile,
                        String::from_str("Metadata file not found"),
                    ));
                }
                Ok(self.source_step_exec())
            },
            MetadataFileRead::Found(md) => {
                match md.metadata {
                    Ok(m) => {
                        if m.metadata_location == MetadataLocation::MetadataFile {
                            if !m.source_is_text() {
                                let rest = trim_start_string(md.text.as_str());
                                if !string_is_empty(rest.as_str()) {
                                    self.update_text(Some(md.text));
                                }
                            }
                            self.metadata = m;
                            self.metadata.metadata_location.update_unknown(MetadataLocation::MetadataFile);
                        }
                        Ok(self.source_step_exec())
                    },
                    Err(_) => Ok(self.source_step_exec()),
                }
            },
        }
    }

    /// Takes what reading the source file as Markdown gave: its metadata is adopted and
    /// then its text. Without valid metadata, the document gets the metadata its path
    /// implies, with no location, unless the metadata was known to be in the source file,
    /// which is an error.
    pub fn load_source_markdown(&mut self, read: Result<MarkdownRead, std::io::Error>) -> (r: Result<LoadStep, AccessStorageError>)
        ensures
            final(self).spec_path() == old(self).spec_path(),
            final(self).spec_workspace() == old(self).spec_workspace(),
            final(self).spec_extensions() == old(self).spec_extensions(),
            final(self).spec_chunker_cache() == old(self).spec_chunker_cache(),
            match read {
                Err(e) => r is Err && r->Err_0 == AccessStorageError::Io(e),
                Ok(md) => match md.metadata {
                    Ok(m) => {
                        &&& r == Ok::<LoadStep, AccessStorageError>(LoadStep::Done)
                        &&& final(self).spec_metadata() == m
                        &&& final(self).spec_parts() == import_spec(Some(md.text@), m.doc_parts is Some)
                    },
                    Err(msg) => if old(self).spec_metadata().metadata_location == MetadataLocation::SourceFile {
                        r is Err && (r->Err_0 matches AccessStorageError::MetadataFormat(x) && x@ == msg@)
                    } else {
                        &&& r == Ok::<LoadStep, AccessStorageError>(LoadStep::Done)
                        &&& mime_view(final(self).spec_metadata().mime) == guessed_mime(old(self).spec_path())
                        &&& final(self).spec_metadata().metadata_location == MetadataLocation::Nowhere
                        &&& final(self).spec_metadata().doc_parts is None
                        &&& final(self).spec_metadata().other_fields@.len() == 0
                        &&& final(self).spec_parts() == import_spec(Some(md.text@), false)
                    },
                },
            },
    {
        match read {
            Err(e) => Err(AccessStorageError::Io(e)),
            Ok(md) => {
                match md.metadata {
                    Ok(m) => {
                        self.metadata = m;
                        self.update_text(Some(md.text));
                        Ok(LoadStep::Done)
                    },
                    Err(msg) => {
                        if self.metadata.metadata_location == MetadataLocation::SourceFile {
                            return Err(AccessStorageError::MetadataFormat(msg));
                        }
                        let mut m = DocumentMetadata::from_path(self.absolute_path.as_str());
                        m.metadata_location = MetadataLocation::Nowhere;
                        self.metadata = m;
                        self.update_text(Some(md.text));
                        Ok(LoadStep::Done)
                    },
                }
            },
        }
    }

    /// Takes what reading the source file as text gave: its text.
    pub fn load_source_text(&mut self, read: Result<String, std::io::Error>) -> (r: Result<LoadStep, AccessStorageError>)
        ensures
            final(self).spec_metadata() == old(self).spec_metadata(),
            final(self).spec_path() == old(self).spec_path(),
            final(self).spec_workspace() == old(self).spec_workspace(),
            final(self).spec_extensions() == old(self).spec_extensions(),
            final(self).spec_chunker_cache() == old(self).spec_chunker_cache(),
            match read {
                Err(e) => r is Err && r->Err_0 == AccessStorageError::Io(e) && final(self).spec_parts() == old(self).spec_parts(),
                Ok(t) => r == Ok::<LoadStep, AccessStorageError>(LoadStep::Done) && final(self).spec_parts() == import_spec(
                    Some(t@),
                    old(self).spec_metadata().doc_parts is Some,
                ),
            },
    {
        match read {
            Err(e) => Err(AccessStorageError::Io(e)),
            Ok(t) => {
                self.update_text(Some(t));
                Ok(LoadStep::Done)
            },
        }
    }

    /// Takes the extension caches read from the cache file; none read leaves them empty.
    pub fn load_cache(&mut self, read: Option<Vec<(String, ExtensionCache)>>)
        ensures
            final(self).spec_extensions() == match read {
                Some(v) => v@,
                None => Seq::empty(),
            },
            final(self).spec_metadata() == old(self).spec_metadata(),
            final(self).spec_path() == old(self).spec_path(),
            final(self).spec_workspace() == old(self).spec_workspace(),
            final(self).spec_parts() == old(self).spec_parts(),
            final(self).spec_chunker_cache() == old(self).spec_chunker_cache(),
    {
        self.extensions = match read {
            Some(v) => v,
            None => Vec::new(),
        };
    }

    /// The extension caches, by extension id.
    pub fn extension_caches(&self) -> (r: &Vec<(String, ExtensionCache)>)
        ensures
            r@ == self.spec_extensions(),
    {
        &self.extensions
    }

    /// The cache of each chunker, by chunker id.
    pub fn chunker_caches(&self) -> (r: &Vec<(String, PartChunks<E>)>)
        ensures
            r@ == self.spec_chunker_cache(),
    {
        &self.chunker_cache
    }
}


// ---------------------------------------------------------------------------------------
// Metadata blocks in Markdown files
// ---------------------------------------------------------------------------------------

/// `s` has a line `---` starting at `i`: three dashes, then a newline or the end.
pub open spec fn dashes_at(s: Seq<char>, i: int) -> bool {
    &&& 0 <= i
    &&& i + 3 <= s.len()
    &&& s[i] == '-' && s[i + 1] == '-' && s[i + 2] == '-'
    &&& (i + 3 == s.len() || s[i + 3] == '\n')
}

/// A line `---` closes the metadata block at `q`: the newline that ends the line before it.
pub open spec fn closes_at(s: Seq<char>, q: int) -> bool {
    &&& 3 <= q < s.len()
    &&& s[q] == '\n'
    &&& dashes_at(s, q + 1)
}

/// Where the metadata block of `s` closes, searching from `q` on; -1 when it does not.
pub open spec fn close_from(s: Seq<char>, q: int) -> int
    decreases s.len() - q,
{
    if q < 0 || q >= s.len() {
        -1
    } else if closes_at(s, q) {
        q
    } else {
        close_from(s, q + 1)
    }
}

/// `s` opens with a line `---`.
pub open spec fn opens_block(s: Seq<char>) -> bool {
    s.len() >= 4 && s[0] == '-' && s[1] == '-' && s[2] == '-' && s[3] == '\n'
}

/// A Markdown file's metadata block and the text after it: the file opens with a line
/// `---`, and the block runs to the next line `---`. `None` when there is no such block.
pub open spec fn front_matter(s: Seq<char>) -> Option<(Seq<char>, Seq<char>)> {
    if opens_block(s) && close_from(s, 3) >= 0 {
        let q = close_from(s, 3);
        Some((s.subrange(4, q + 1), if q + 4 == s.len() {
            Seq::empty()
        } else {
            s.skip(q + 5)
        }))
    } else {
        None
    }
}

proof fn lemma_close_from(s: Seq<char>, q: int)
    requires
        q >= 0,
    ensures
        close_from(s, q) == -1 || (q <= close_from(s, q) && closes_at(s, close_from(s, q))),
        forall|j: int| q <= j && (close_from(s, q) == -1 || j < close_from(s, q)) ==> !closes_at(s, j),
    decreases s.len() - q,
{
    if q < s.len() && !closes_at(s, q) {
        lemma_close_from(s, q + 1);
    }
}

/// Splits a Markdown file into the YAML of its metadata block, if it opens with one, and
/// the text after the block (the whole file when there is no block).
pub fn split_front_matter(content: &str) -> (r: (Option<String>, String))
    ensures
        match front_matter(content@) {
            Some((m, t)) => r.0 is Some && r.0->0@ == m && r.1@ == t,
            None => r.0 is None && r.1@ == content@,
        },
{
    let v = chars_of(content);
    let ghost sv = v@;
    if !(v.len() >= 4 && v[0] == '-' && v[1] == '-' && v[2] == '-' && v[3] == '\n') {
        return (None, content.to_owned());
    }
    proof {
        lemma_close_from(sv, 3);
    }
    let mut q: usize = 3;
    while q < v.len()
        invariant
            3 <= q <= v.len(),
            sv == v@,
            sv == content@,
            opens_block(sv),
            forall|j: int| 3 <= j < q ==> !closes_at(sv, j),
            close_from(sv, 3) == -1 || (3 <= close_from(sv, 3) && closes_at(sv, close_from(sv, 3))),
            forall|j: int| 3 <= j && (close_from(sv, 3) == -1 || j < close_from(sv, 3)) ==> !closes_at(sv, j),
        decreases v.len() - q,
    {
        let hit = v[q] == '\n' && v.len() - q >= 4 && v[q + 1] == '-' && v[q + 2] == '-' && v[q + 3] == '-' && (v.len() - q == 4
            || v[q + 4] == '\n');
        if hit {
            assert(closes_at(sv, q as int));
            assert(close_from(sv, 3) == q);
            let meta = string_of_range(&v, 4, q + 1);
            let body = if v.len() - q == 4 {
                String::new()
            } else {
                string_of_range(&v, q + 5, v.len())
            };
            proof {
                if v.len() - q != 4 {
                    assert(sv.subrange(q + 5, sv.len() as int) =~= sv.skip(q + 5));
                }
            }
            return (Some(meta), body);
        }
        q = q + 1;
    }
    proof {
        if close_from(sv, 3) >= 0 {
            assert(!closes_at(sv, close_from(sv, 3)));
        }
    }
    (None, content.to_owned())
}

/// No line of `yaml` is `---`.
pub open spec fn no_marker_line(yaml: Seq<char>) -> bool {
    forall|i: int| (i == 0 || (0 < i && yaml[i - 1] == '\n')) ==> !#[trigger] dashes_at(yaml, i)
}

/// What is written as a Markdown file with a metadata block reads back as the same
/// metadata and text, when the metadata is YAML made of whole lines, none of them `---`.
pub proof fn law_metadata_block_roundtrip(yaml: Seq<char>, text: Seq<char>)
    requires
        yaml.len() == 0 || yaml.last() == '\n',
        no_marker_line(yaml),
    ensures
        front_matter(metadata_block(yaml) + text) == Some((yaml, text)),
{
    reveal_strlit("---\n");
    let s = metadata_block(yaml) + text;
    let q: int = 3 + yaml.len() as int;
    assert("---\n"@ =~= seq!['-', '-', '-', '\n']);
    assert(s =~= seq!['-', '-', '-', '\n'] + yaml + seq!['-', '-', '-', '\n'] + text);
    assert(opens_block(s));
    assert(s[q] == '\n') by {
        if yaml.len() > 0 {
            assert(s[q] == yaml[yaml.len() - 1]);
        }
    }
    assert(closes_at(s, q));
    assert forall|j: int| 3 <= j < q implies !closes_at(s, j) by {
        if closes_at(s, j) {
            let i = j - 3;
            assert(i == 0 || yaml[i - 1] == '\n') by {
                if i > 0 {
                    assert(s[j] == yaml[i - 1]);
                }
            }
            if i + 3 <= yaml.len() {
                assert(yaml[i] == s[j + 1]);
                assert(yaml[i + 1] == s[j + 2]);
                assert(yaml[i + 2] == s[j + 3]);
                if i + 3 < yaml.len() {
                    assert(yaml[i + 3] == s[j + 4]);
                }
                assert(dashes_at(yaml, i));
            } else {
                // The dashes would run into the closing line, whose fourth character is a
                // newline, not a dash, past the end of the metadata.
                assert(s[q + 1] == '-' && s[q + 2] == '-' && s[q + 3] == '-' && s[q + 4] == '\n');
                assert(j + 4 > q && j + 4 <= q + 3);
                if j + 4 < s.len() {
                    assert(s[j + 4] == '-');
                }
            }
        }
    }
    lemma_close_from(s, 3);
    if close_from(s, 3) != q {
        if close_from(s, 3) == -1 {
            assert(!closes_at(s, q));
        } else if close_from(s, 3) < q {
            assert(!closes_at(s, close_from(s, 3)));
        } else {
            assert(!closes_at(s, q));
        }
    }
    assert(s.subrange(4, q + 1) =~= yaml);
    if q + 4 == s.len() {
        assert(text =~= Seq::<char>::empty());
    } else {
        assert(s.skip(q + 5) =~= text);
    }
}


// ---------------------------------------------------------------------------------------
// Attachment names: a leading dot marks a cache file, so an attachment whose name starts
// with a dot is stored with one more.
// ---------------------------------------------------------------------------------------

/// The directory that holds the attachments of the document at `p`.
pub open spec fn attachments_dir(p: Seq<char>) -> Seq<char> {
    parent_dir(p) + "/"@ + "attachments"@ + "/"@ + file_name(p)
}

/// The name an attachment is stored under.
pub open spec fn escaped_name(name: Seq<char>) -> Seq<char> {
    if name.len() > 0 && name[0] == '.' {
        seq!['.'] + name
    } else {
        name
    }
}

/// The attachment stored under file name `stored`; none for a cache file.
pub open spec fn unescaped_name(stored: Seq<char>) -> Option<Seq<char>> {
    if stored.len() >= 2 && stored[0] == '.' && stored[1] == '.' {
        Some(stored.drop_first())
    } else if stored.len() >= 1 && stored[0] == '.' {
        None
    } else {
        Some(stored)
    }
}

/// An attachment name comes back from the name it is stored under.
pub proof fn law_attachment_name_roundtrip(name: Seq<char>)
    requires
        name.len() > 0,
    ensures
        unescaped_name(escaped_name(name)) == Some(name),
{
    if name[0] == '.' {
        assert((seq!['.'] + name).drop_first() =~= name);
    }
}

impl<E> Document<E> {
    /// The path that attachment `name` is stored at: in the document's attachments
    /// directory, one more dot before a name that starts with a dot.
    pub fn attachment_path_escaped(&self, name: &str) -> (r: String)
        requires
            name@.len() > 0,
        ensures
            r@ == attachments_dir(self.spec_path()) + "/"@ + escaped_name(name@),
    {
        let mut r = self.attachment_path_raw("");
        proof {
            reveal_strlit("");
            reveal_strlit(".");
            assert(r@ =~= attachments_dir(self.spec_path()) + "/"@);
        }
        let v = chars_of(name);
        if v[0] == '.' {
            push_str(&mut r, ".");
        }
        push_str(&mut r, name);
        proof {
            if name@[0] == '.' {
                assert(r@ =~= attachments_dir(self.spec_path()) + "/"@ + escaped_name(name@));
            } else {
                assert(r@ =~= attachments_dir(self.spec_path()) + "/"@ + escaped_name(name@));
            }
        }
        r
    }

    /// The attachment stored at `path`, a file of the document's attachments directory;
    /// none for a cache file.
    pub fn attachment_name(&self, path: &str) -> (r: Option<String>)
        requires
            (attachments_dir(self.spec_path()) + "/"@).is_prefix_of(path@),
        ensures
            match unescaped_name(path@.skip(attachments_dir(self.spec_path()).len() as int + 1)) {
                Some(n) => r is Some && r->0@ == n,
                None => r is None,
            },
    {
        let dir = self.attachment_path_raw("");
        proof {
            reveal_strlit("");
            reveal_strlit("/");
        }
        let v = chars_of(path);
        assert(dir@ =~= attachments_dir(self.spec_path()) + "/"@);
        let d = chars_of(dir.as_str());
        let stored = string_of_range(&v, d.len(), v.len());
        assert(stored@ =~= path@.skip(attachments_dir(self.spec_path()).len() as int + 1));
        let n = v.len() - d.len();
        if n >= 2 && v[d.len()] == '.' && v[d.len() + 1] == '.' {
            Some(string_of_range(&v, d.len() + 1, v.len()))
        } else if n >= 1 && v[d.len()] == '.' {
            None
        } else {
            Some(stored)
        }
    }
}

/// Saving keeps the text. A document whose metadata is stored nowhere and whose source is
/// text gets exactly its text written to the source file. Whenever a save goes ahead
/// (and, for metadata stored nowhere, the source is text), some write ends with the text:
/// for a text source a write to the source file; a write to the metadata file carries the
/// metadata block first.
pub proof fn law_save_writes_text(
    location: MetadataLocation,
    is_text: bool,
    is_markdown: bool,
    yaml: Seq<char>,
    t: Seq<char>,
)
    ensures
        location == MetadataLocation::Nowhere && is_text ==> save_writes(location, is_text, is_markdown, yaml, Some(t))
            == Ok::<Seq<(SaveTarget, Seq<char>)>, (MetadataLocation, Seq<char>)>(seq![(SaveTarget::SourceFile, t)]),
        (location != MetadataLocation::Nowhere || is_text) ==> (save_writes(location, is_text, is_markdown, yaml, Some(t)) matches Ok(w)
            ==> exists|i: int|
            0 <= i < w.len() && (is_text ==> (#[trigger] w[i]).0 == SaveTarget::SourceFile) && w[i].1.len() >= t.len()
                && w[i].1.subrange(w[i].1.len() - t.len(), w[i].1.len() as int) == t),
        save_writes(location, is_text, is_markdown, yaml, Some(t)) matches Ok(w) ==> forall|i: int|
            0 <= i < w.len() && (#[trigger] w[i]).0 == SaveTarget::MetadataFile ==> metadata_block(yaml).is_prefix_of(w[i].1),
{
    match save_writes(location, is_text, is_markdown, yaml, Some(t)) {
        Ok(w) => {
            if w.len() > 0 {
                let c = w[0].1;
                assert(c.subrange(c.len() - t.len(), c.len() as int) =~= t);
                assert forall|i: int| 0 <= i < w.len() && (#[trigger] w[i]).0 == SaveTarget::MetadataFile implies metadata_block(yaml).is_prefix_of(w[i].1) by {
                    assert(w[i].1.subrange(0, metadata_block(yaml).len() as int) =~= metadata_block(yaml));
                }
            }
        },
        Err(_) => {},
    }
}

} // verus!

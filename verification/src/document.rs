//! Documents open in the editor: the size limits they are held to, how a
//! text is opened (strictly, else through dialect recovery; as a tree when
//! small, as source text read lazily when large), the record each keeps of
//! where it came from and where it is saved and of its version against the
//! saved one, its summary, and what a save writes.
use vstd::prelude::*;

use vstd::string::StringSliceAdditionalSpecFns;

use crate::format::{
    hint_for, hint_from_path, path_ext, plain_path, recover, recovered, InputFormat,
};
use crate::scan::{describe, described, root_index, root_kind_spec, LazyDoc, NodeKind, ScanError};
use crate::lookup::{element_at, into_element, invalid_path, lazy_lookup, lookup_raw, sonic_lookup};
use crate::search::{budget_count, copy_path, kind_of_value, path_view, Step, StepView};
use crate::lookup::Slice;
use crate::window::{
    child_count_spec, child_view, children_window, count_uncapped, indexed_window, slice_children,
    triples_view, ChildSpan,
};
use crate::tree::{clone_tree, tree_compact, 
    tree_element_compact, tree_kind, tree_len, tree_pretty, value_parse_error, Tree,
};

verus! {

/// From this size on a document is kept as source text and read lazily.
pub const LAZY_THRESHOLD_BYTES: u64 = 10485760;

/// Above this size a lazily read document is not turned into a tree for editing.
pub const EDIT_SIZE_LIMIT: u64 = 209715200;

/// No document larger than this is opened.
pub const MAX_DOC_BYTES: u64 = 2147483648;

/// Above this size the whole value of a document is not handed out.
pub const GET_VALUE_ROOT_LIMIT: u64 = 209715200;

/// Why a document operation was refused.
#[derive(Debug, Clone, PartialEq, Eq)]
pub enum DocError {
    /// The text is not JSON, with the parser's message.
    Parse(String),
    /// The document has `actual` bytes, over `limit`.
    TooLarge { actual: u64, limit: u64 },
    /// An edit or save that cannot be made, with the reason.
    Edit(String),
    /// The document could not be written out, with the reason.
    Export(String),
    /// The root is not an array with an element at this position.
    NoElement(usize),
    /// No value lies at this path.
    InvalidPath(Vec<Step>),
}

/// Refuses a document of more than `MAX_DOC_BYTES` bytes.
pub fn ensure_within_max(size: u64) -> (r: Result<(), DocError>)
    ensures
        r is Ok <==> size <= MAX_DOC_BYTES,
        r matches Err(e) ==> e == (DocError::TooLarge { actual: size, limit: MAX_DOC_BYTES }),
{
    if size > MAX_DOC_BYTES {
        return Err(DocError::TooLarge { actual: size, limit: MAX_DOC_BYTES });
    }
    Ok(())
}

/// Refuses a replacement text of more than `EDIT_SIZE_LIMIT` bytes.
pub fn ensure_within_edit_limit(size: u64) -> (r: Result<(), DocError>)
    ensures
        r is Ok <==> size <= EDIT_SIZE_LIMIT,
        r matches Err(e) ==> e == (DocError::TooLarge { actual: size, limit: EDIT_SIZE_LIMIT }),
{
    if size > EDIT_SIZE_LIMIT {
        return Err(DocError::TooLarge { actual: size, limit: EDIT_SIZE_LIMIT });
    }
    Ok(())
}

/// Whether a text of `len` bytes is kept as source and read lazily rather
/// than parsed into a tree.
pub fn reads_lazily(len: u64) -> (r: bool)
    ensures
        r == (len >= LAZY_THRESHOLD_BYTES),
{
    len >= LAZY_THRESHOLD_BYTES
}

/// Whether saving to `target` writes one record per line: it does when the
/// path names an NDJSON file.
pub fn saves_as_ndjson(target: &str) -> (r: bool)
    ensures
        !target@.contains('.') ==> !r,
        plain_path(target@) ==> r == (path_ext(target@) matches Some(e) && hint_for(e) == Some(
            InputFormat::Ndjson,
        )),
{
    match hint_from_path(target) {
        Some(InputFormat::Ndjson) => true,
        _ => false,
    }
}

/// How many bytes of JSON a preview of `max_chars` characters is built
/// from: four per character, and at least 1024.
pub fn preview_byte_budget(max_chars: usize) -> (r: usize)
    ensures
        r == (if max_chars * 4 > usize::MAX {
            usize::MAX as int
        } else if max_chars * 4 < 1024 {
            1024
        } else {
            max_chars * 4
        }),
{
    let b = if max_chars > usize::MAX / 4 {
        usize::MAX
    } else {
        max_chars * 4
    };
    if b < 1024 {
        1024
    } else {
        b
    }
}

/// A preview cut to its first `max_chars` characters, and whether it was
/// cut (or already was).
pub fn clip_preview(text: &str, max_chars: usize, truncated: bool) -> (r: (String, bool))
    ensures
        text@.len() > max_chars ==> r.0@ == text@.take(max_chars as int) && r.1,
        text@.len() <= max_chars ==> r.0@ == text@ && r.1 == truncated,
{
    let chars = crate::text::chars_of(text);
    if chars.len() > max_chars {
        let head = crate::text::slice_chars(&chars, 0, max_chars);
        assert(head@ =~= text@.take(max_chars as int));
        (crate::text::string_of(&head), true)
    } else {
        (text.to_owned(), truncated)
    }
}

/// What the editor shows for an open document.
#[derive(Debug, Clone)]
pub struct Summary {
    pub root_kind: NodeKind,
    pub root_child_count: Option<u32>,
    pub source_path: Option<String>,
    pub source_size: u64,
    pub lazy: bool,
    pub version: u64,
    pub dirty: bool,
    pub file_backed: bool,
    pub recovery_note: Option<String>,
}

/// Where a document was saved, and the version that was saved.
#[derive(Debug, Clone)]
pub struct SaveResult {
    pub path: String,
    pub version: u64,
}

/// A document's record of itself: where it was read from, the file it is
/// bound to, its size when read, the note left by dialect recovery, its
/// version and the version last saved.
#[derive(Debug, Clone)]
pub struct DocState {
    pub source_path: Option<String>,
    pub file_path: Option<String>,
    pub source_size: u64,
    pub recovery_note: Option<String>,
    pub version: u64,
    pub saved_version: u64,
}

impl DocState {
    /// Dirty: past the saved version, and either read lazily or with content
    /// other than the saved content.
    pub open spec fn dirty_spec(self, same_content: bool) -> bool {
        self.version != self.saved_version && (self.source_size > LAZY_THRESHOLD_BYTES
            || !same_content)
    }

    /// The record of a document just read: version 0, saved as such, bound
    /// to no file yet.
    pub fn opened(source_path: Option<String>, source_size: u64, recovery_note: Option<String>) -> (r: DocState)
        ensures
            r.source_path == source_path,
            r.file_path is None,
            r.source_size == source_size,
            r.recovery_note == recovery_note,
            r.version == 0,
            r.saved_version == 0,
    {
        DocState {
            source_path,
            file_path: None,
            source_size,
            recovery_note,
            version: 0,
            saved_version: 0,
        }
    }

    /// Binds the document to `path`, which also becomes where it comes from.
    pub fn set_file_path(&mut self, path: String)
        ensures
            final(self).file_path == Some(path),
            final(self).source_path == Some(path),
            final(self).source_size == old(self).source_size,
            final(self).recovery_note == old(self).recovery_note,
            final(self).version == old(self).version,
            final(self).saved_version == old(self).saved_version,
    {
        self.file_path = Some(path.clone());
        self.source_path = Some(path);
    }

    /// Counts one more edit and returns the new version.
    pub fn bump_version(&mut self) -> (v: u64)
        requires
            old(self).version < u64::MAX,
        ensures
            v == old(self).version + 1,
            *final(self) == (DocState { version: v, ..*old(self) }),
    {
        self.version = self.version + 1;
        self.version
    }

    /// Where a save goes: the path given, else the file the document is
    /// bound to; with neither, the save is refused.
    pub fn save_target(&self, path: Option<String>) -> (r: Result<String, DocError>)
        ensures
            path matches Some(p) ==> r == Ok::<String, DocError>(p),
            path is None ==> match self.file_path {
                Some(f) => r == Ok::<String, DocError>(f),
                None => r matches Err(DocError::Edit(_)),
            },
    {
        match path {
            Some(p) => Ok(p),
            None => match &self.file_path {
                Some(f) => Ok(f.clone()),
                None => Err(DocError::Edit("no file path \u{2014} use Save As".to_string())),
            },
        }
    }

    /// Records that the current version was written to `target`: the
    /// document is bound to it, comes from it, and is saved at its version.
    pub fn mark_saved(&mut self, target: String) -> (r: SaveResult)
        ensures
            final(self).file_path == Some(target),
            final(self).source_path == Some(target),
            final(self).saved_version == old(self).version,
            final(self).version == old(self).version,
            final(self).source_size == old(self).source_size,
            final(self).recovery_note == old(self).recovery_note,
            r.path == target,
            r.version == old(self).version,
    {
        self.file_path = Some(target.clone());
        self.source_path = Some(target.clone());
        self.saved_version = self.version;
        SaveResult { path: target, version: self.version }
    }

    /// Whether the document differs from what was saved. At the saved
    /// version it does not; past it, a document read lazily (larger than
    /// the lazy threshold) does; otherwise it does when its content differs
    /// from the saved content (`same_content` is that comparison).
    pub fn is_dirty(&self, same_content: bool) -> (r: bool)
        ensures
            r == self.dirty_spec(same_content),
    {
        if self.version == self.saved_version {
            return false;
        }
        if self.source_size > LAZY_THRESHOLD_BYTES {
            return true;
        }
        !same_content
    }

    /// Refuses to turn a lazily read document into a tree for editing when
    /// it is larger than `EDIT_SIZE_LIMIT`.
    pub fn ensure_editable(&self, lazy: bool) -> (r: Result<(), DocError>)
        ensures
            r is Ok <==> !lazy || self.source_size <= EDIT_SIZE_LIMIT,
            r matches Err(e) ==> e == (DocError::TooLarge {
                actual: self.source_size,
                limit: EDIT_SIZE_LIMIT,
            }),
    {
        if lazy && self.source_size > EDIT_SIZE_LIMIT {
            return Err(DocError::TooLarge { actual: self.source_size, limit: EDIT_SIZE_LIMIT });
        }
        Ok(())
    }

    /// The summary of the document, given the kind and child count of its
    /// root, whether it is read lazily, and whether it is dirty.
    pub fn summary(&self, root_kind: NodeKind, root_child_count: Option<u32>, lazy: bool, dirty: bool) -> (r: Summary)
        ensures
            r.root_kind == root_kind,
            r.root_child_count == root_child_count,
            r.source_path == self.source_path,
            r.source_size == self.source_size,
            r.lazy == lazy,
            r.version == self.version,
            r.dirty == dirty,
            r.file_backed == self.file_path is Some,
            r.recovery_note == self.recovery_note,
    {
        Summary {
            root_kind,
            root_child_count,
            source_path: self.source_path.clone(),
            source_size: self.source_size,
            lazy,
            version: self.version,
            dirty,
            file_backed: self.file_path.is_some(),
            recovery_note: self.recovery_note.clone(),
        }
    }
}

// ---------------------------------------------------------------------------
// Documents
// ---------------------------------------------------------------------------

/// How a document holds its content: as a tree, or, when large, as source
/// text read lazily.
pub enum Content {
    Eager(Tree),
    Lazy(LazyDoc),
}

/// The text a content was read from.
pub open spec fn content_text_of(c: Content) -> Seq<char> {
    match c {
        Content::Eager(t) => t@,
        Content::Lazy(d) => d.source_text(),
    }
}

/// Whether a text opens as it is: a large one when `sonic_rs` accepts it and
/// the structural scan succeeds, a small one when `serde_json` builds a tree
/// from it.
pub open spec fn opens_strictly(text: Seq<char>) -> bool {
    let b = vstd::utf8::encode_utf8(text);
    if b.len() >= LAZY_THRESHOLD_BYTES {
        crate::scan::sonic_parse(text) is None && (root_kind_spec(b) != NodeKind::Array
            || root_index(b) is Ok)
    } else {
        value_parse_error(text) is None
    }
}

/// Whether `e` is the error that opening `text` as it is gives.
pub open spec fn strict_error(text: Seq<char>, e: DocError) -> bool {
    let b = vstd::utf8::encode_utf8(text);
    if b.len() >= LAZY_THRESHOLD_BYTES {
        match e {
            DocError::Parse(m) => crate::scan::sonic_parse(text) == Some(m@) || (
            crate::scan::sonic_parse(text) is None && root_kind_spec(b) == NodeKind::Array
                && root_index(b) is Err && crate::scan::described(root_index(b)->Err_0, b) == m@),
            _ => false,
        }
    } else {
        match e {
            DocError::Parse(m) => value_parse_error(text) == Some(m@),
            _ => false,
        }
    }
}

/// Whether `h` is the dialect that the path a document comes from announces
/// (known for no path, and for a plain path).
pub open spec fn hint_known(source_path: Option<String>, h: Option<InputFormat>) -> bool {
    match source_path {
        None => h is None,
        Some(p) => plain_path(p@) && h == match path_ext(p@) {
            Some(e) => hint_for(e),
            None => None,
        },
    }
}

/// What opening `text` with dialect hint `h` gives: the text the document
/// holds and the recovery note; `None` when it cannot be opened. A text
/// over `MAX_DOC_BYTES` is refused; one that opens as it is is kept; any
/// other is recovered, and its recovered JSON must be within the limit and
/// open as it is.
pub open spec fn opened(text: Seq<char>, h: Option<InputFormat>) -> Option<
    (Seq<char>, Option<&'static str>),
> {
    if vstd::utf8::encode_utf8(text).len() > MAX_DOC_BYTES {
        None
    } else if opens_strictly(text) {
        Some((text, None))
    } else {
        match recovered(text, h) {
            Some((j, m)) => if vstd::utf8::encode_utf8(j).len() <= MAX_DOC_BYTES
                && opens_strictly(j) {
                Some((j, m))
            } else {
                None
            },
            None => None,
        }
    }
}

/// The records of a tree's root array, one per line: each element written
/// compactly, followed by a line feed; `None` when one cannot be written.
pub open spec fn tree_records(text: Seq<char>, k: nat) -> Option<Seq<char>>
    decreases k,
{
    if k == 0 {
        Some(Seq::empty())
    } else {
        match tree_records(text, (k - 1) as nat) {
            Some(prev) => match tree_element_compact(text, (k - 1) as usize) {
                Some(e) => Some(prev + e + seq!['\n']),
                None => None,
            },
            None => None,
        }
    }
}

/// A JSON document open in the editor: its content and its record.
pub struct Document {
    content: Content,
    state: DocState,
}

/// Reads `text` as content: lazily from `LAZY_THRESHOLD_BYTES` bytes on,
/// else as a tree.
fn parse(text: &str) -> (r: Result<Content, DocError>)
    requires
        text.spec_bytes().len() <= MAX_DOC_BYTES,
    ensures
        r is Ok <==> opens_strictly(text@),
        r matches Err(e) ==> strict_error(text@, e),
        r matches Ok(c) ==> content_text_of(c) == text@ && (c is Lazy <==> text.spec_bytes().len()
            >= LAZY_THRESHOLD_BYTES),
{
    let len = text.as_bytes().len() as u64;
    if reads_lazily(len) {
        proof {
            crate::scan::lemma_root_index_not_invalid(text.spec_bytes());
        }
        return match LazyDoc::new(text) {
            Ok(d) => Ok(Content::Lazy(d)),
            Err(ScanError::Invalid(m)) => Err(DocError::Parse(m)),
            Err(e) => Err(DocError::Parse(crate::scan::describe(&e, text.as_bytes()))),
        };
    }
    match Tree::parse(text) {
        Ok(t) => Ok(Content::Eager(t)),
        Err(m) => Err(DocError::Parse(m)),
    }
}

/// Whether a recovery note kept as text is the note recovery gave.
pub open spec fn note_is(kept: Option<String>, given: Option<&'static str>) -> bool {
    match given {
        Some(g) => kept is Some && kept.unwrap()@ == g@,
        None => kept is None,
    }
}

/// The record of a document just opened from `text`, coming from
/// `source_path`: bound to no file, at version 0 and saved as such, its
/// size that of its content, read lazily exactly from the lazy threshold
/// on, holding the text or what recovery made of it.
pub open spec fn fresh_from(text: Seq<char>, source_path: Option<String>, d: Document) -> bool {
    &&& d.state_spec().source_path == source_path
    &&& d.state_spec().file_path is None
    &&& d.state_spec().version == 0
    &&& d.state_spec().saved_version == 0
    &&& d.state_spec().source_size <= MAX_DOC_BYTES
    &&& d.state_spec().source_size == vstd::utf8::encode_utf8(d.content_text()).len()
    &&& (d.lazy_spec() is Some <==> d.state_spec().source_size >= LAZY_THRESHOLD_BYTES)
    &&& ({
        ||| d.state_spec().recovery_note is None && d.content_text() == text
        ||| exists|h: Option<InputFormat>, m: Option<&'static str>|
            #![trigger recovered(text, h), note_is(d.state_spec().recovery_note, m)]
            recovered(text, h) == Some((d.content_text(), m)) && note_is(
                d.state_spec().recovery_note,
                m,
            )
    })
}

/// Law: a document opened from a text that opens as it is reports, in
/// its summary, that text's size, reads lazily exactly from the lazy
/// threshold on, is at version 0, clean, bound to no file, known by where
/// it came from, and carries no recovery note.
pub proof fn lemma_fresh_summary(text: Seq<char>, p: Option<String>, d: Document, h: Option<InputFormat>)
    requires
        fresh_from(text, p, d),
        opened_as(text, h, Ok::<Document, DocError>(d)),
        opens_strictly(text),
        vstd::utf8::encode_utf8(text).len() <= MAX_DOC_BYTES,
    ensures
        ({
            let s = d.summary_spec();
            &&& s.lazy == (vstd::utf8::encode_utf8(text).len() >= LAZY_THRESHOLD_BYTES)
            &&& s.source_size == vstd::utf8::encode_utf8(text).len()
            &&& s.version == 0
            &&& !s.dirty
            &&& !s.file_backed
            &&& s.source_path == p
            &&& s.recovery_note is None
        }),
{
}

/// What `save_plan` gives for a save to `path` (or, without one, to the
/// file the document is bound to): see [`Document::save_plan`].
pub open spec fn save_plan_outcome(d: Document, path: Option<String>, r: Result<(String, String), DocError>) -> bool {
    &&& (path is None && d.state_spec().file_path is None ==> (r matches Err(DocError::Edit(_))))
    &&& ({
        let target = match path {
            Some(p) => Some(p),
            None => d.state_spec().file_path,
        };
        target matches Some(t) ==> {
            &&& r matches Ok(pair) ==> pair.0 == t
            &&& plain_path(t@) ==> match r {
                Ok(pair) => d.save_text(t@) == Ok::<Seq<char>, Seq<char>>(pair.1@),
                Err(e) => e is Export && d.save_text(t@) == Err::<Seq<char>, Seq<char>>(
                    e->Export_0@,
                ),
            }
            &&& r matches Ok(pair) ==> (Ok::<Seq<char>, Seq<char>>(pair.1@) == d.json_text()
                || Some(pair.1@) == d.ndjson_spec())
            &&& r matches Err(e) ==> e is Export
        }
    })
}

/// How `mark_saved` changes a document bound to `target`: see
/// [`Document::mark_saved`].
pub open spec fn marked_saved(before: Document, after: Document, target: String, r: SaveResult) -> bool {
    &&& after.state_spec().file_path == Some(target)
    &&& after.state_spec().source_path == Some(target)
    &&& after.state_spec().saved_version == before.state_spec().version
    &&& after.state_spec().version == before.state_spec().version
    &&& after.state_spec().source_size == before.state_spec().source_size
    &&& after.state_spec().recovery_note == before.state_spec().recovery_note
    &&& after.lazy_spec() == before.lazy_spec()
    &&& after.content_text() == before.content_text()
    &&& r.path == target
    &&& r.version == before.state_spec().version
}

/// Law: a save that is planned and then marked done went to the path asked
/// for, or else to the file the document is bound to; it wrote the
/// records of an array bound for an NDJSON file, and the document's JSON
/// otherwise; and it leaves the document bound to that file, at the saved
/// version, with its content unchanged and clean.
pub proof fn lemma_save(
    before: Document,
    after: Document,
    path: Option<String>,
    target: String,
    written: String,
    r: SaveResult,
)
    requires
        save_plan_outcome(before, path, Ok::<(String, String), DocError>((target, written))),
        marked_saved(before, after, target, r),
    ensures
        Some(target) == (match path {
            Some(p) => Some(p),
            None => before.state_spec().file_path,
        }),
        r.path == target,
        r.version == after.state_spec().version,
        after.state_spec().version == after.state_spec().saved_version,
        after.state_spec().file_path == Some(target),
        after.state_spec().source_path == Some(target),
        !after.summary_spec().dirty,
        after.content_text() == before.content_text(),
        plain_path(target@) ==> before.save_text(target@) == Ok::<Seq<char>, Seq<char>>(written@),
{
}

impl Document {
    pub closed spec fn state_spec(&self) -> DocState {
        self.state
    }

    /// The record of the document: paths, size, versions, recovery note.
    pub fn state(&self) -> (r: &DocState)
        ensures
            *r == self.state_spec(),
    {
        &self.state
    }

    pub closed spec fn lazy_spec(&self) -> Option<LazyDoc> {
        match self.content {
            Content::Lazy(d) => Some(d),
            Content::Eager(_) => None,
        }
    }

    /// The text the content was read from: the source of a lazily read
    /// document, the text its tree was parsed from otherwise.
    pub closed spec fn content_text(&self) -> Seq<char> {
        content_text_of(self.content)
    }

    /// The document as JSON text: its source when read lazily, its tree
    /// written indented otherwise (or the serializer's message).
    pub open spec fn json_text(&self) -> Result<Seq<char>, Seq<char>> {
        match self.lazy_spec() {
            Some(d) => Ok(d.source_text()),
            None => tree_pretty(self.content_text()),
        }
    }

    /// The document as NDJSON when its root is an array: the text of each
    /// element of a lazily read array as it was read, each element of a
    /// tree written compactly; each followed by a line feed.
    pub open spec fn ndjson_spec(&self) -> Option<Seq<char>> {
        match self.lazy_spec() {
            Some(d) => match d.index_spec() {
                Some(ix) => Some(crate::scan::ndjson_of(d.source_bytes(), ix)),
                None => None,
            },
            None => if tree_kind(self.content_text()) == NodeKind::Array {
                match tree_len(self.content_text()) {
                    Some(n) => tree_records(self.content_text(), n as nat),
                    None => None,
                }
            } else {
                None
            },
        }
    }

    /// What a save to `target` writes: the records when `target` names an
    /// NDJSON file and the root is an array, the JSON text otherwise.
    pub open spec fn save_text(&self, target: Seq<char>) -> Result<Seq<char>, Seq<char>> {
        if (path_ext(target) matches Some(e) && hint_for(e) == Some(InputFormat::Ndjson))
            && self.ndjson_spec() is Some {
            Ok(self.ndjson_spec().unwrap())
        } else {
            self.json_text()
        }
    }

    /// Opens a document from text. A text of more than `MAX_DOC_BYTES`
    /// bytes is refused. A text that does not parse is handed to dialect
    /// recovery, with the dialect that `source_path` announces; when that
    /// recovers it, the recovered JSON is the document (and must itself be
    /// within the limit), else the strict parse error stands.
    pub fn from_text(text: &str, source_path: Option<String>) -> (r: Result<Document, DocError>)
        ensures
            text.spec_bytes().len() > MAX_DOC_BYTES ==> r == Err::<Document, DocError>(
                DocError::TooLarge { actual: text.spec_bytes().len() as u64, limit: MAX_DOC_BYTES },
            ),
            forall|h: Option<InputFormat>|
                #![trigger hint_known(source_path, h)]
                hint_known(source_path, h) ==> opened_as(text@, h, r),
            exists|h: Option<InputFormat>| #[trigger] opened_as(text@, h, r),
            r matches Ok(d) ==> fresh_from(text@, source_path, d),
    {
        let len = text.as_bytes().len() as u64;
        if let Err(e) = ensure_within_max(len) {
            proof {
                assert(opened_as(text@, None, Err::<Document, DocError>(e)));
            }
            return Err(e);
        }
        let ghost mut used: Option<InputFormat> = None;
        let (content, size, note) = match parse(text) {
            Ok(c) => (c, len, None),
            Err(strict) => {
                let hint = match &source_path {
                    Some(p) => hint_from_path(p.as_str()),
                    None => None,
                };
                proof {
                    used = hint;
                }
                assert(forall|h: Option<InputFormat>| #[trigger]
                    hint_known(source_path, h) ==> h == hint);
                let rec = match recover(text, hint) {
                    Some(rec) => rec,
                    None => {
                        proof {
                            assert(opened_as(text@, hint, Err::<Document, DocError>(strict)));
                        }
                        return Err(strict);
                    },
                };
                let rlen = rec.json.as_str().as_bytes().len() as u64;
                if let Err(e) = ensure_within_max(rlen) {
                    proof {
                        assert(opened_as(text@, hint, Err::<Document, DocError>(e)));
                    }
                    return Err(e);
                }
                let c = match parse(rec.json.as_str()) {
                    Ok(c) => c,
                    Err(e) => {
                        proof {
                            assert(opened_as(text@, hint, Err::<Document, DocError>(e)));
                        }
                        return Err(e);
                    },
                };
                let note = match rec.note {
                    Some(n) => Some(n.to_owned()),
                    None => None,
                };
                proof {
                    assert(note_is(note, rec.note));
                    assert(recovered(text@, hint) == Some((rec.json@, rec.note)));
                    assert(vstd::utf8::encode_utf8(rec.json@).len() == rlen);
                }
                (c, rlen, note)
            },
        };
        let d = Document { content, state: DocState::opened(source_path, size, note) };
        proof {
            assert(opened_as(text@, used, Ok::<Document, DocError>(d)));
        }
        Ok(d)
    }

    /// Opens the text read from the file at `path`: as [`Document::from_text`]
    /// with `path` as where it comes from, and bound to that file.
    pub fn from_file_text(path: String, text: &str) -> (r: Result<Document, DocError>)
        ensures
            text.spec_bytes().len() > MAX_DOC_BYTES ==> r == Err::<Document, DocError>(
                DocError::TooLarge { actual: text.spec_bytes().len() as u64, limit: MAX_DOC_BYTES },
            ),
            forall|h: Option<InputFormat>|
                #![trigger hint_known(Some(path), h)]
                hint_known(Some(path), h) ==> opened_as(text@, h, r),
            exists|h: Option<InputFormat>| #[trigger] opened_as(text@, h, r),
            r matches Ok(d) ==> {
                &&& d.state_spec().source_path == Some(path)
                &&& d.state_spec().file_path == Some(path)
                &&& d.state_spec().version == 0
                &&& d.state_spec().saved_version == 0
                &&& d.state_spec().source_size == vstd::utf8::encode_utf8(d.content_text()).len()
                &&& (d.lazy_spec() is Some <==> d.state_spec().source_size >= LAZY_THRESHOLD_BYTES)
            },
    {
        let opened = Document::from_text(text, Some(path.clone()));
        let ghost h = choose|h: Option<InputFormat>| opened_as(text@, h, opened);
        match opened {
            Ok(d) => {
                let mut d = d;
                d.state.file_path = Some(path);
                proof {
                    assert(opened_as(text@, h, Ok::<Document, DocError>(d)));
                }
                Ok(d)
            },
            Err(e) => Err(e),
        }
    }

    /// Whether the content is read lazily from source text.
    pub fn is_lazy(&self) -> (r: bool)
        ensures
            r == self.lazy_spec() is Some,
    {
        match &self.content {
            Content::Lazy(_) => true,
            Content::Eager(_) => false,
        }
    }

    /// The summary of the document. For lazily read content the root's kind
    /// and child count come from the scan; for a tree, from its root value.
    /// The content of a document never changes here, so it is the content
    /// last saved.
    /// The summary (see [`Document::summary`]).
    pub open spec fn summary_spec(&self) -> Summary {
        let kc = root_kind_count(*self);
        Summary {
            root_kind: kc.0,
            root_child_count: kc.1,
            source_path: self.state_spec().source_path,
            source_size: self.state_spec().source_size,
            lazy: self.lazy_spec() is Some,
            version: self.state_spec().version,
            dirty: self.state_spec().dirty_spec(true),
            file_backed: self.state_spec().file_path is Some,
            recovery_note: self.state_spec().recovery_note,
        }
    }

    pub fn summary(&self) -> (r: Summary)
        ensures
            r == self.summary_spec(),
            r.source_path == self.state_spec().source_path,
            r.source_size == self.state_spec().source_size,
            r.lazy == self.lazy_spec() is Some,
            r.version == self.state_spec().version,
            r.dirty == self.state_spec().dirty_spec(true),
            r.file_backed == self.state_spec().file_path is Some,
            r.recovery_note == self.state_spec().recovery_note,
            self.lazy_spec() matches Some(d) ==> r.root_kind == d.kind_spec()
                && r.root_child_count == d.child_count_spec(),
            self.lazy_spec() is None ==> r.root_kind == tree_kind(self.content_text())
                && r.root_child_count == match tree_len(self.content_text()) {
                Some(n) => Some(n as u32),
                None => None,
            },
    {
        let (root_kind, root_child_count) = match &self.content {
            Content::Eager(t) => {
                let n = match t.len() {
                    Some(n) => {
                        #[verifier::truncate]
                        let c = n as u32;
                        Some(c)
                    },
                    None => None,
                };
                (t.kind(), n)
            },
            Content::Lazy(d) => (d.root_kind(), d.root_child_count()),
        };
        let lazy = self.is_lazy();
        let dirty = self.state.is_dirty(true);
        self.state.summary(root_kind, root_child_count, lazy, dirty)
    }

    /// Binds the document to `path` (see [`DocState::set_file_path`]).
    pub fn set_file_path(&mut self, path: String)
        ensures
            final(self).state_spec().file_path == Some(path),
            final(self).state_spec().source_path == Some(path),
            final(self).state_spec().source_size == old(self).state_spec().source_size,
            final(self).state_spec().version == old(self).state_spec().version,
            final(self).lazy_spec() == old(self).lazy_spec(),
            final(self).content_text() == old(self).content_text(),
    {
        self.state.set_file_path(path);
    }

    /// The whole value of the document, refused above
    /// `GET_VALUE_ROOT_LIMIT` bytes: the tree of the document's text.
    pub fn root_value(&self) -> (r: Result<Tree, DocError>)
        ensures
            self.state_spec().source_size > GET_VALUE_ROOT_LIMIT ==> r == Err::<Tree, DocError>(
                DocError::TooLarge {
                    actual: self.state_spec().source_size,
                    limit: GET_VALUE_ROOT_LIMIT,
                },
            ),
            self.state_spec().source_size <= GET_VALUE_ROOT_LIMIT ==> match r {
                Ok(t) => t@ == self.content_text() && value_parse_error(self.content_text()) is None,
                Err(e) => self.lazy_spec() is Some && e is Parse && value_parse_error(
                    self.content_text(),
                ) == Some(e->Parse_0@),
            },
            self.state_spec().source_size <= GET_VALUE_ROOT_LIMIT && self.lazy_spec() is None
                ==> r is Ok,
    {
        if self.state.source_size > GET_VALUE_ROOT_LIMIT {
            return Err(
                DocError::TooLarge { actual: self.state.source_size, limit: GET_VALUE_ROOT_LIMIT },
            );
        }
        match &self.content {
            Content::Eager(t) => {
                t.text_parses();
                Ok(clone_tree(t))
            },
            Content::Lazy(d) => match Tree::parse(d.source()) {
                Ok(t) => Ok(t),
                Err(m) => Err(DocError::Parse(m)),
            },
        }
    }

    /// Element `i` of an array root: parsed from the element's own text
    /// when the document is read lazily; otherwise written out compactly
    /// from the tree and parsed back, so that the tree returned is known by
    /// that text.
    pub fn element_value(&self, i: usize) -> (r: Result<Tree, DocError>)
        ensures
            self.lazy_spec() matches Some(d) ==> match d.index_spec() {
                Some(ix) => if i < ix.len() {
                    let et = vstd::utf8::decode_utf8(
                        d.source_bytes().subrange(ix[i as int].0, ix[i as int].1),
                    );
                    match r {
                        Ok(t) => value_parse_error(et) is None && t@ == et,
                        Err(e) => e is Parse && value_parse_error(et) == Some(e->Parse_0@),
                    }
                } else {
                    r == Err::<Tree, DocError>(DocError::NoElement(i))
                },
                None => r == Err::<Tree, DocError>(DocError::NoElement(i)),
            },
            self.lazy_spec() is None ==> {
                let ct = self.content_text();
                if tree_kind(ct) == NodeKind::Array && tree_len(ct) is Some && i < tree_len(
                    ct,
                ).unwrap() {
                    match tree_element_compact(ct, i) {
                        Some(s) => match r {
                            Ok(t) => value_parse_error(s) is None && t@ == s,
                            Err(e) => e is Parse && value_parse_error(s) == Some(e->Parse_0@),
                        },
                        None => r matches Err(e) && e is Export,
                    }
                } else {
                    r == Err::<Tree, DocError>(DocError::NoElement(i))
                }
            },
    {
        match &self.content {
            Content::Lazy(d) => match d.element_text(i) {
                Some(t) => match Tree::parse(t) {
                    Ok(t) => Ok(t),
                    Err(m) => Err(DocError::Parse(m)),
                },
                None => Err(DocError::NoElement(i)),
            },
            Content::Eager(t) => {
                if t.kind() != NodeKind::Array {
                    return Err(DocError::NoElement(i));
                }
                match t.len() {
                    Some(n) => if i < n {
                        match t.element_compact(i) {
                            Some(s) => match Tree::parse(s.as_str()) {
                                Ok(e) => Ok(e),
                                Err(m) => Err(DocError::Parse(m)),
                            },
                            None => Err(DocError::Export("the element cannot be written as JSON".to_string())),
                        }
                    } else {
                        Err(DocError::NoElement(i))
                    },
                    None => Err(DocError::NoElement(i)),
                }
            },
        }
    }

    /// The document as JSON text (see [`Document::json_text`]).
    pub fn serialize(&self) -> (r: Result<String, DocError>)
        ensures
            match r {
                Ok(s) => self.json_text() == Ok::<Seq<char>, Seq<char>>(s@),
                Err(e) => e is Export && self.json_text() == Err::<Seq<char>, Seq<char>>(
                    e->Export_0@,
                ),
            },
    {
        match &self.content {
            Content::Eager(t) => match t.to_pretty() {
                Ok(s) => Ok(s),
                Err(m) => Err(DocError::Export(m)),
            },
            Content::Lazy(d) => Ok(d.source().to_owned()),
        }
    }

    /// The document as NDJSON (see [`Document::ndjson_spec`]).
    pub fn serialize_ndjson(&self) -> (r: Option<String>)
        ensures
            match r {
                Some(s) => self.ndjson_spec() == Some(s@),
                None => self.ndjson_spec() is None,
            },
    {
        match &self.content {
            Content::Lazy(d) => d.ndjson_text(),
            Content::Eager(t) => {
                if t.kind() != NodeKind::Array {
                    return None;
                }
                let n = match t.len() {
                    Some(n) => n,
                    None => {
                        return None;
                    },
                };
                let ghost text = t@;
                let mut out = String::new();
                let mut k: usize = 0;
                while k < n
                    invariant
                        k <= n,
                        text == t@,
                        text == self.content_text(),
                        self.lazy_spec() is None,
                        tree_kind(text) == NodeKind::Array,
                        tree_len(text) == Some(n),
                        tree_records(text, k as nat) == Some(out@),
                    decreases n - k,
                {
                    let e = match t.element_compact(k) {
                        Some(e) => e,
                        None => {
                            proof {
                                lemma_tree_records_stays_none(text, (k + 1) as nat, n as nat);
                            }
                            return None;
                        },
                    };
                    crate::text::push_text(&mut out, e.as_str());
                    crate::text::push_char(&mut out, '\n');
                    k += 1;
                }
                Some(out)
            },
        }
    }

    /// Where a save goes and the text it writes: to the path given, else to
    /// the bound file (refused with neither); the records when that path
    /// names an NDJSON file and the root is an array, the JSON text
    /// otherwise (see [`Document::save_text`]).
    pub fn save_plan(&self, path: Option<String>) -> (r: Result<(String, String), DocError>)
        ensures
            save_plan_outcome(*self, path, r),
    {
        let target = self.state.save_target(path)?;
        let text = if saves_as_ndjson(target.as_str()) {
            match self.serialize_ndjson() {
                Some(t) => t,
                None => self.serialize()?,
            }
        } else {
            self.serialize()?
        };
        Ok((target, text))
    }

    /// Records a save to `target` (see [`DocState::mark_saved`]).
    pub fn mark_saved(&mut self, target: String) -> (r: SaveResult)
        ensures
            marked_saved(*old(self), *final(self), target, r),
    {
        self.state.mark_saved(target)
    }

    /// Turns lazily read content into a tree, as an edit needs; refused
    /// above `EDIT_SIZE_LIMIT` bytes, and when the source does not parse.
    pub fn materialize(&mut self) -> (r: Result<(), DocError>)
        ensures
            final(self).state_spec() == old(self).state_spec(),
            final(self).content_text() == old(self).content_text(),
            r is Ok ==> final(self).lazy_spec() is None,
            old(self).lazy_spec() is None ==> r is Ok,
            old(self).lazy_spec() is Some && old(self).state_spec().source_size <= EDIT_SIZE_LIMIT
                ==> (r is Ok <==> value_parse_error(old(self).lazy_spec().unwrap().source_text())
                is None),
            r is Err ==> final(self).lazy_spec() == old(self).lazy_spec(),
            old(self).lazy_spec() is Some && old(self).state_spec().source_size > EDIT_SIZE_LIMIT
                ==> r == Err::<(), DocError>(
                DocError::TooLarge {
                    actual: old(self).state_spec().source_size,
                    limit: EDIT_SIZE_LIMIT,
                },
            ),
            r matches Err(e) ==> (e is TooLarge || (e is Parse && value_parse_error(
                old(self).content_text(),
            ) == Some(e->Parse_0@))),
    {
        let lazy = self.is_lazy();
        self.state.ensure_editable(lazy)?;
        let parsed = match &self.content {
            Content::Eager(_) => {
                return Ok(());
            },
            Content::Lazy(d) => Tree::parse(d.source()),
        };
        match parsed {
            Ok(t) => {
                self.content = Content::Eager(t);
                Ok(())
            },
            Err(m) => Err(DocError::Parse(m)),
        }
    }
}

/// Whether `r` is what opening `text` with dialect hint `h` gives (see
/// [`opened`]): the document holding the opened text with its note, or,
/// when opening fails, the strict error of the text (when recovery finds
/// nothing), the size refusal of the recovered JSON, or the strict error of
/// the recovered JSON.
pub open spec fn opened_as(text: Seq<char>, h: Option<InputFormat>, r: Result<Document, DocError>) -> bool {
    match opened(text, h) {
        Some((j, m)) => r matches Ok(d) && d.content_text() == j && note_is(
            d.state_spec().recovery_note,
            m,
        ),
        None => vstd::utf8::encode_utf8(text).len() > MAX_DOC_BYTES || match recovered(text, h) {
            None => r matches Err(e) && strict_error(text, e),
            Some((j, _)) => if vstd::utf8::encode_utf8(j).len() > MAX_DOC_BYTES {
                r == Err::<Document, DocError>(
                    DocError::TooLarge {
                        actual: vstd::utf8::encode_utf8(j).len() as u64,
                        limit: MAX_DOC_BYTES,
                    },
                )
            } else {
                r matches Err(e) && strict_error(j, e)
            },
        },
    }
}

proof fn lemma_tree_records_stays_none(text: Seq<char>, k: nat, n: nat)
    requires
        k <= n,
        tree_records(text, k) is None,
    ensures
        tree_records(text, n) is None,
    decreases n - k,
{
    if k < n {
        lemma_tree_records_stays_none(text, k + 1, n);
    }
}

/// Law: a document just opened is clean, and so is one just saved, whatever
/// its content; one edit past the save makes a lazily read document dirty.
pub proof fn lemma_saved_is_clean(opened: DocState, before: DocState, saved: DocState, same_content: bool)
    requires
        opened.version == 0,
        opened.saved_version == 0,
        saved.saved_version == before.version,
        saved.version == before.version,
        saved.source_size == before.source_size,
    ensures
        !opened.dirty_spec(same_content),
        !saved.dirty_spec(same_content),
        saved.version < u64::MAX && saved.source_size > LAZY_THRESHOLD_BYTES ==> (DocState {
            version: (saved.version + 1) as u64,
            ..saved
        }).dirty_spec(same_content),
{
}

/// The raw text of the value at `path` of a document: found as
/// [`lazy_lookup`] says when it is read lazily; in its tree written as
/// compact JSON otherwise.
pub open spec fn doc_lookup(d: Document, path: Seq<StepView>) -> Option<Seq<char>> {
    match d.lazy_spec() {
        Some(l) => lazy_lookup(l, path),
        None => match tree_compact(d.content_text()) {
            Some(c) => sonic_lookup(c, path),
            None => None,
        },
    }
}

/// The text whose tree the value at `path` is: the document's text for the
/// root; for one step into an indexed root array, the element's text
/// (none past its end); otherwise what [`doc_lookup`] finds.
pub open spec fn value_text_at(d: Document, path: Seq<StepView>) -> Option<Seq<char>> {
    if path.len() == 0 {
        Some(d.content_text())
    } else if d.lazy_spec() is Some && path.len() == 1 && into_element(d.lazy_spec().unwrap(), path) {
        let l = d.lazy_spec().unwrap();
        let i = path[0]->Index_0;
        if i < l.index_spec().unwrap().len() {
            Some(element_at(l, i as int))
        } else {
            None
        }
    } else {
        doc_lookup(d, path)
    }
}

/// Whether `r` is the outcome of reading the tree at `path` (see
/// [`value_text_at`]): the tree of that text, or the parser's refusal of
/// it, or the refusal of the path; a root above `GET_VALUE_ROOT_LIMIT`
/// bytes is refused for its size.
pub open spec fn value_outcome(d: Document, path: Seq<Step>, r: Result<Tree, DocError>) -> bool {
    if path.len() == 0 && d.state_spec().source_size > GET_VALUE_ROOT_LIMIT {
        r == Err::<Tree, DocError>(
            DocError::TooLarge { actual: d.state_spec().source_size, limit: GET_VALUE_ROOT_LIMIT },
        )
    } else {
        match value_text_at(d, path_view(path)) {
            Some(t) => match r {
                Ok(tree) => tree@ == t && value_parse_error(t) is None,
                Err(e) => e is Parse && value_parse_error(t) == Some(e->Parse_0@),
            },
            None => (r matches Err(e) && invalid_path(e, path)),
        }
    }
}

/// The kind of the root and its child count, as the summary gives them.
pub open spec fn root_kind_count(d: Document) -> (NodeKind, Option<u32>) {
    match d.lazy_spec() {
        Some(l) => (l.kind_spec(), l.child_count_spec()),
        None => (
            tree_kind(d.content_text()),
            match tree_len(d.content_text()) {
                Some(n) => Some(n as u32),
                None => None,
            },
        ),
    }
}

/// The kind of the value at `path` and its child count: the summary's for
/// the root; counted within the budget when read lazily, in full for a
/// tree; none when nothing lies there.
pub open spec fn kind_count_at(d: Document, path: Seq<StepView>) -> Option<(NodeKind, Option<u32>)> {
    if path.len() == 0 {
        Some(root_kind_count(d))
    } else {
        match doc_lookup(d, path) {
            Some(v) => Some(
                (
                    kind_of_value(v),
                    if d.lazy_spec() is Some {
                        budget_count(v, kind_of_value(v))
                    } else {
                        child_count_spec(v, kind_of_value(v))
                    },
                ),
            ),
            None => None,
        }
    }
}

/// The path `path` extended by the element at `i`.
pub open spec fn element_path(path: Seq<Step>, i: u32) -> Seq<Step> {
    path.push(Step::Index(i))
}

/// Whether `r` reads the trees at `path` followed by each of `indices`, in
/// order, stopping at the first that cannot be read.
pub open spec fn rows_outcome(d: Document, path: Seq<Step>, indices: Seq<u32>, r: Result<Vec<Tree>, DocError>) -> bool {
    match r {
        Ok(v) => v@.len() == indices.len() && forall|k: int|
            0 <= k < indices.len() ==> value_outcome(
                d,
                element_path(path, indices[k]),
                Ok::<Tree, DocError>(#[trigger] v@[k]),
            ),
        Err(e) => exists|k: int|
            0 <= k < indices.len() && value_outcome(
                d,
                #[trigger] element_path(path, indices[k]),
                Err::<Tree, DocError>(e),
            ) && forall|j: int|
                0 <= j < k ==> !value_fails(d, #[trigger] element_path(path, indices[j])),
    }
}

/// Whether reading the tree at `path` fails.
pub open spec fn value_fails(d: Document, path: Seq<Step>) -> bool {
    (path.len() == 0 && d.state_spec().source_size > GET_VALUE_ROOT_LIMIT) || match value_text_at(
        d,
        path_view(path),
    ) {
        Some(t) => value_parse_error(t) is Some,
        None => true,
    }
}

impl Document {
    fn lookup_text(&self, path: &[Step]) -> (r: Result<String, DocError>)
        ensures
            match doc_lookup(*self, path_view(path@)) {
                Some(v) => (r matches Ok(s) && s@ == v),
                None => (r matches Err(e) && invalid_path(e, path@)),
            },
    {
        match &self.content {
            Content::Lazy(d) => d.lookup(path),
            Content::Eager(t) => match t.to_compact() {
                Some(c) => match lookup_raw(c.as_str(), path) {
                    Some(v) => Ok(v),
                    None => Err(DocError::InvalidPath(copy_path(path))),
                },
                None => Err(DocError::InvalidPath(copy_path(path))),
            },
        }
    }

    /// The tree of the value at `path` (see [`value_outcome`]).
    pub fn get_value(&self, path: &[Step]) -> (r: Result<Tree, DocError>)
        ensures
            value_outcome(*self, path@, r),
    {
        if path.len() == 0 {
            let r = self.root_value();
            assert(path_view(path@) =~= Seq::<StepView>::empty());
            return r;
        }
        match &self.content {
            Content::Lazy(d) => {
                let r = d.get_value(path);
                proof {
                    if !(path@.len() == 1 && into_element(*d, path_view(path@))) {
                        assert(doc_lookup(*self, path_view(path@)) == lazy_lookup(*d, path_view(path@)));
                    }
                }
                r
            },
            Content::Eager(_) => {
                let v = self.lookup_text(path)?;
                match Tree::parse(v.as_str()) {
                    Ok(tree) => Ok(tree),
                    Err(m) => Err(DocError::Parse(m)),
                }
            },
        }
    }

    /// The kind of the value at `path` and its child count (see
    /// [`kind_count_at`]).
    pub fn kind_at(&self, path: &[Step]) -> (r: Result<(NodeKind, Option<u32>), DocError>)
        ensures
            match kind_count_at(*self, path_view(path@)) {
                Some(kc) => r == Ok::<(NodeKind, Option<u32>), DocError>(kc),
                None => (r matches Err(e) && invalid_path(e, path@)),
            },
    {
        if path.len() == 0 {
            let s = self.summary();
            assert(path_view(path@) =~= Seq::<StepView>::empty());
            return Ok((s.root_kind, s.root_child_count));
        }
        match &self.content {
            Content::Lazy(d) => d.kind_at(path),
            Content::Eager(_) => {
                let v = self.lookup_text(path)?;
                let kind = match crate::search::kind_of_text(v.as_str()) {
                    Some(k) => k,
                    None => NodeKind::Null,
                };
                Ok((kind, count_uncapped(v.as_str(), kind)))
            },
        }
    }

    /// The trees at `path` followed by each of `indices` (see
    /// [`rows_outcome`]).
    pub fn get_rows_at(&self, path: &[Step], indices: &[u32]) -> (r: Result<Vec<Tree>, DocError>)
        ensures
            rows_outcome(*self, path@, indices@, r),
    {
        let mut out: Vec<Tree> = Vec::new();
        let mut k: usize = 0;
        while k < indices.len()
            invariant
                k <= indices@.len(),
                out@.len() == k,
                forall|m: int|
                    0 <= m < k ==> value_outcome(
                        *self,
                        element_path(path@, indices@[m]),
                        Ok::<Tree, DocError>(#[trigger] out@[m]),
                    ),
            decreases indices@.len() - k,
        {
            let mut p = copy_path(path);
            let ghost q = p@;
            p.push(Step::Index(indices[k]));
            proof {
                assert(path_view(p@) =~= path_view(q).push(StepView::Index(indices@[k as int])));
                assert(path_view(element_path(path@, indices@[k as int])) =~= path_view(path@).push(
                    StepView::Index(indices@[k as int]),
                ));
                assert(path_view(p@) =~= path_view(element_path(path@, indices@[k as int])));
            }
            let r1 = self.get_value(p.as_slice());
            assert(value_outcome(*self, p@, r1) ==> value_outcome(
                *self,
                element_path(path@, indices@[k as int]),
                r1,
            ));
            match r1 {
                Ok(t) => {
                    out.push(t);
                },
                Err(e) => {
                    proof {
                        assert forall|j: int| 0 <= j < k implies !value_fails(
                            *self,
                            #[trigger] element_path(path@, indices@[j]),
                        ) by {
                            assert(value_outcome(
                                *self,
                                element_path(path@, indices@[j]),
                                Ok::<Tree, DocError>(out@[j]),
                            ));
                        }
                        assert(value_outcome(
                            *self,
                            element_path(path@, indices@[k as int]),
                            Err::<Tree, DocError>(e),
                        ));
                    }
                    return Err(e);
                },
            }
            k += 1;
        }
        Ok(out)
    }
}

/// Positions `start..end` of the first `total`, both ends clamped.
pub open spec fn clamped_positions(start: u32, end: u32, total: u32) -> Seq<u32> {
    let s = if start < total {
        start
    } else {
        total
    };
    let e = if end < total {
        end
    } else {
        total
    };
    if s < e {
        Seq::new((e - s) as nat, |i: int| (s + i) as u32)
    } else {
        Seq::empty()
    }
}

/// The child count at `path`: the summary's for the root, otherwise the
/// full count of the value [`doc_lookup`] finds.
pub open spec fn count_at(d: Document, path: Seq<StepView>) -> Option<Option<u32>> {
    if path.len() == 0 {
        Some(root_kind_count(d).1)
    } else {
        match doc_lookup(d, path) {
            Some(v) => Some(child_count_spec(v, kind_of_value(v))),
            None => None,
        }
    }
}

impl Document {
    /// How many children the value at `path` has (see [`count_at`]).
    pub fn child_count_at(&self, path: &[Step]) -> (r: Result<Option<u32>, DocError>)
        ensures
            match count_at(*self, path_view(path@)) {
                Some(c) => r == Ok::<Option<u32>, DocError>(c),
                None => (r matches Err(e) && invalid_path(e, path@)),
            },
    {
        if path.len() == 0 {
            let s = self.summary();
            assert(path_view(path@) =~= Seq::<StepView>::empty());
            return Ok(s.root_child_count);
        }
        match &self.content {
            Content::Lazy(d) => {
                let r = d.child_count_uncapped(path);
                r
            },
            Content::Eager(_) => {
                let v = self.lookup_text(path)?;
                let kind = match crate::search::kind_of_text(v.as_str()) {
                    Some(k) => k,
                    None => NodeKind::Null,
                };
                Ok(count_uncapped(v.as_str(), kind))
            },
        }
    }

    /// The children in `start..end` of the collection at `path`: from the
    /// root index for the root of an indexed array, otherwise those the
    /// scan finds in the raw text [`doc_lookup`] gives.
    pub fn get_slice(&self, path: &[Step], start: u32, end: u32) -> (r: Result<Slice, DocError>)
        ensures
            path@.len() == 0 && self.lazy_spec() is Some
                && self.lazy_spec().unwrap().index_spec() is Some ==> (r matches Ok(Slice::Indexed(v)) && triples_view(v@) == indexed_window(
                self.lazy_spec().unwrap().index_spec().unwrap(),
                start as int,
                end as int,
            )),
            !(path@.len() == 0 && self.lazy_spec() is Some
                && self.lazy_spec().unwrap().index_spec() is Some) ==> match doc_lookup(
                *self,
                path_view(path@),
            ) {
                Some(v) => {
                    let b = vstd::utf8::encode_utf8(v);
                    match children_window(b, kind_of_value(v), start as int, end as int) {
                        Ok(cs) => (r matches Ok(Slice::Scanned { raw, children }) && raw@ == v
                            && children@.map_values(|c: ChildSpan| child_view(c)) == cs),
                        Err(e) => (r matches Err(DocError::Parse(m)) && m@ == described(e, b)),
                    }
                },
                None => (r matches Err(e) && invalid_path(e, path@)),
            },
    {
        match &self.content {
            Content::Lazy(d) => d.slice(path, start, end),
            Content::Eager(_) => {
                let v = self.lookup_text(path)?;
                let kind = match crate::search::kind_of_text(v.as_str()) {
                    Some(k) => k,
                    None => NodeKind::Null,
                };
                let bytes = v.as_str().as_bytes();
                match slice_children(bytes, kind, start as usize, end as usize) {
                    Ok(children) => Ok(Slice::Scanned { raw: v, children }),
                    Err(e) => Err(DocError::Parse(describe(&e, bytes))),
                }
            },
        }
    }

    /// The trees of the elements in `start..end` of the array at `path`,
    /// both ends clamped to its child count (none when it is not counted);
    /// nothing when the value there is not an array.
    pub fn get_rows(&self, path: &[Step], start: u32, end: u32) -> (r: Result<Vec<Tree>, DocError>)
        ensures
            match kind_count_at(*self, path_view(path@)) {
                None => (r matches Err(e) && invalid_path(e, path@)),
                Some(kc) => if kc.0 != NodeKind::Array {
                    (r matches Ok(v) && v@.len() == 0)
                } else {
                    rows_outcome(
                        *self,
                        path@,
                        clamped_positions(
                            start,
                            end,
                            match kc.1 {
                                Some(n) => n,
                                None => 0,
                            },
                        ),
                        r,
                    )
                },
            },
    {
        let (kind, count) = self.kind_at(path)?;
        if kind != NodeKind::Array {
            return Ok(Vec::new());
        }
        let total: u32 = match count {
            Some(n) => n,
            None => 0,
        };
        let s: u32 = if start < total {
            start
        } else {
            total
        };
        let e: u32 = if end < total {
            end
        } else {
            total
        };
        let mut indices: Vec<u32> = Vec::new();
        let e: u32 = if e < s {
            s
        } else {
            e
        };
        let mut i: u32 = s;
        while i < e
            invariant
                s <= i <= e,
                indices@ == Seq::new((i - s) as nat, |m: int| (s + m) as u32),
            decreases e - i,
        {
            indices.push(i);
            assert(indices@ =~= Seq::new((i + 1 - s) as nat, |m: int| (s + m) as u32));
            i += 1;
        }
        assert(indices@ =~= clamped_positions(start, end, total));
        self.get_rows_at(path, indices.as_slice())
    }
}

} // verus!

//! Recovery of JSON dialects: newline-delimited records, JSONC / JSON5
//! relaxations, leading invisible characters and documents wrapped in quotes;
//! and the file extensions the editor opens and the dialects they announce.
//!
//! The scanners here walk a text one `char` at a time.
use vstd::prelude::*;

pub mod number;
pub mod relaxed;
pub mod spans;

use crate::format::relaxed::{relaxed, relaxed_chars};
use crate::format::spans::{ndjson_array, ndjson_chars};
use crate::json::{is_valid_json, json_valid};
use crate::text::{
    chars_of, is_white_space, skip_white_space, slice_chars, string_of, trim, trim_end_len, ws_prefix_end,
    ws_suffix_start,
};

verus! {

/// A dialect that a file's extension announces.
#[derive(Debug, Clone, Copy, PartialEq, Eq, Structural)]
pub enum InputFormat {
    Ndjson,
    Relaxed,
}

/// A text turned into strict JSON, with a note on what was done when the
/// user should be told.
#[derive(Debug, Clone, PartialEq, Eq)]
pub struct Recovered {
    pub json: String,
    pub note: Option<&'static str>,
}

pub const NOTE_INVISIBLE: &'static str = "Removed an invisible character before the first value";

pub const NOTE_UNQUOTED: &'static str =
    "Removed the quotes wrapping the document — it was quoted text, not JSON";

pub const NOTE_STRAY_OPEN: &'static str = "Removed a stray quote before the first value";

pub const NOTE_STRAY_CLOSE: &'static str = "Removed a stray quote after the last value";

impl Recovered {
    fn plain(json: String) -> (r: Self)
        ensures
            r.json == json,
            r.note is None,
    {
        Self { json, note: None }
    }

    fn noted(json: String, note: &'static str) -> (r: Self)
        ensures
            r.json == json,
            r.note == Some(note),
    {
        Self { json, note: Some(note) }
    }
}

// ---------------------------------------------------------------------------
// File extensions
// ---------------------------------------------------------------------------

/// ASCII lower case of one character.
pub open spec fn ascii_lower(c: char) -> char {
    if 'A' <= c && c <= 'Z' {
        ((c as u32) + 32) as char
    } else {
        c
    }
}

pub open spec fn ascii_lowercase(s: Seq<char>) -> Seq<char> {
    s.map_values(|c: char| ascii_lower(c))
}

/// The dialect that an extension announces, in any ASCII letter case:
/// `ndjson` / `jsonl` for newline-delimited records, `jsonc` / `json5` for
/// the relaxed syntaxes.
pub open spec fn hint_for(ext: Seq<char>) -> Option<InputFormat> {
    let e = ascii_lowercase(ext);
    if e == seq!['n', 'd', 'j', 's', 'o', 'n'] || e == seq!['j', 's', 'o', 'n', 'l'] {
        Some(InputFormat::Ndjson)
    } else if e == seq!['j', 's', 'o', 'n', 'c'] || e == seq!['j', 's', 'o', 'n', '5'] {
        Some(InputFormat::Relaxed)
    } else {
        None
    }
}

fn lower_char(c: char) -> (r: char)
    ensures
        r == ascii_lower(c),
{
    if 'A' <= c && c <= 'Z' {
        ((c as u8) + 32) as char
    } else {
        c
    }
}

/// `str::to_ascii_lowercase`, on characters.
pub fn to_ascii_lowercase(s: &[char]) -> (r: Vec<char>)
    ensures
        r@ == ascii_lowercase(s@),
{
    let mut r: Vec<char> = Vec::new();
    let mut k: usize = 0;
    while k < s.len()
        invariant
            k <= s@.len(),
            r@ == ascii_lowercase(s@.take(k as int)),
        decreases s@.len() - k,
    {
        r.push(lower_char(s[k]));
        assert(ascii_lowercase(s@.take(k + 1)) =~= ascii_lowercase(s@.take(k as int)).push(
            ascii_lower(s@[k as int]),
        ));
        k += 1;
    }
    assert(s@.take(k as int) =~= s@);
    r
}

/// The dialect an extension announces (see [`hint_for`]).
pub fn hint_for_extension(ext: &str) -> (r: Option<InputFormat>)
    ensures
        r == hint_for(ext@),
{
    let e = chars_of(ext);
    let l = to_ascii_lowercase(&e);
    let n = l.len();
    if crate::text::range_is(&l, 0, n, &['n', 'd', 'j', 's', 'o', 'n']) || crate::text::range_is(
        &l,
        0,
        n,
        &['j', 's', 'o', 'n', 'l'],
    ) {
        assert(l@.subrange(0, n as int) =~= l@);
        Some(InputFormat::Ndjson)
    } else if crate::text::range_is(&l, 0, n, &['j', 's', 'o', 'n', 'c']) || crate::text::range_is(
        &l,
        0,
        n,
        &['j', 's', 'o', 'n', '5'],
    ) {
        assert(l@.subrange(0, n as int) =~= l@);
        Some(InputFormat::Relaxed)
    } else {
        assert(l@.subrange(0, n as int) =~= l@);
        None
    }
}

/// Index of the last `c` in `s` before index `i`; -1 when there is none.
pub open spec fn last_index_before(s: Seq<char>, c: char, i: int) -> int
    decreases i,
{
    if i <= 0 || i > s.len() {
        -1
    } else if s[i - 1] == c {
        i - 1
    } else {
        last_index_before(s, c, i - 1)
    }
}

/// The file name of a path, as `Path::file_name` finds it when `/` is the
/// only separator: the last component, where empty and `.` components do
/// not count; none when that component is `..` or there is none.
pub open spec fn file_name_of(path: Seq<char>) -> Option<Seq<char>>
    decreases path.len(),
{
    let k = last_index_before(path, '/', path.len() as int);
    let seg = path.skip(k + 1);
    if seg.len() == 0 || seg == seq!['.'] {
        if k < 0 {
            None
        } else {
            proof {
                lemma_last_index_before(path, '/', path.len() as int);
            }
            file_name_of(path.take(k))
        }
    } else if seg == seq!['.', '.'] {
        None
    } else {
        Some(seg)
    }
}

pub proof fn lemma_last_index_before(s: Seq<char>, c: char, i: int)
    ensures
        -1 <= last_index_before(s, c, i),
        last_index_before(s, c, i) >= 0 ==> last_index_before(s, c, i) < i <= s.len() && s[last_index_before(s, c, i)] == c,
    decreases i,
{
    if 0 < i <= s.len() && s[i - 1] != c {
        lemma_last_index_before(s, c, i - 1);
    }
}

/// A path that every platform's path rules split the same way: no `\\`,
/// no leading `//` and no drive prefix (a `:` second), so that `/` is the
/// only separator. Paths such as `..`, `a/`, `.json`, `dir/.` or
/// `logs.ndjson/readme` are plain.
pub open spec fn plain_path(path: Seq<char>) -> bool {
    &&& !path.contains('\\')
    &&& !(path.len() >= 2 && path[0] == '/' && path[1] == '/')
    &&& !(path.len() >= 2 && path[1] == ':')
}

/// The extension of a file name: the text after its last `.`; none when it
/// has no `.`, or its only `.` is its first character.
pub open spec fn name_extension(name: Seq<char>) -> Option<Seq<char>> {
    let k = last_index_before(name, '.', name.len() as int);
    if k <= 0 {
        None
    } else {
        Some(name.skip(k + 1))
    }
}

/// The extension of the file a plain path names (see [`plain_path`]).
pub open spec fn path_ext(path: Seq<char>) -> Option<Seq<char>> {
    match file_name_of(path) {
        Some(name) => name_extension(name),
        None => None,
    }
}

/// `Path::extension` of a path, as text. The documentation of `extension`
/// and `file_name` gives: the extension of the file name (the last
/// component, trailing `/` and `.` components aside, none when it is `..`),
/// which is the text after its last `.`, with none when there is no `.` or
/// the only one starts the name. On a plain path (see [`plain_path`]) every
/// platform splits at `/` alone, and this is stated; on other paths
/// (holding `\\`, or starting with `//` or a drive) which part counts as
/// the file name is left to the platform's rules, and only what holds on
/// every platform is stated: no `.` in the path means no extension, and an
/// extension holds no `.`.
#[verifier::external_body]
fn path_extension(path: &str) -> (r: Option<String>)
    ensures
        !path@.contains('.') ==> r is None,
        r matches Some(e) ==> !e@.contains('.'),
        plain_path(path@) ==> match r {
            Some(e) => path_ext(path@) == Some(e@),
            None => path_ext(path@) is None,
        },
{
    std::path::Path::new(path).extension().and_then(|e| e.to_str()).map(|e| e.to_string())
}

/// The dialect the file name of `path` announces through its extension
/// (see [`hint_for`] for which extensions count).
pub fn hint_from_path(path: &str) -> (r: Option<InputFormat>)
    ensures
        !path@.contains('.') ==> r is None,
        plain_path(path@) ==> r == match path_ext(path@) {
            Some(e) => hint_for(e),
            None => None,
        },
{
    match path_extension(path) {
        Some(ext) => hint_for_extension(ext.as_str()),
        None => None,
    }
}

/// The extensions of the files the editor opens.
pub open spec fn is_supported_extension(e: Seq<char>) -> bool {
    e == seq!['j', 's', 'o', 'n'] || e == seq!['j', 's', 'o', 'n', 'c'] || e == seq![
        'j',
        's',
        'o',
        'n',
        '5',
    ] || e == seq!['g', 'e', 'o', 'j', 's', 'o', 'n'] || e == seq!['j', 's', 'o', 'n', 'l']
        || e == seq!['n', 'd', 'j', 's', 'o', 'n']
}

/// What `str::to_lowercase` makes of a text (Unicode lowercase mapping).
pub uninterp spec fn unicode_lowercase(s: Seq<char>) -> Seq<char>;

/// `str::to_lowercase`. Its documentation presents it as lowercasing ASCII
/// characters as `to_ascii_lowercase` does, and non-ASCII ones besides, so
/// on an ASCII text the result is its ASCII lower case.
#[verifier::external_body]
pub(crate) fn lowercase(s: &str) -> (r: String)
    ensures
        r@ == unicode_lowercase(s@),
        vstd::utf8::is_ascii_chars(s@) ==> r@ == ascii_lowercase(s@),
{
    s.to_lowercase()
}

fn supported_extension(e: &str) -> (r: bool)
    ensures
        r == is_supported_extension(e@),
{
    let c = chars_of(e);
    let n = c.len();
    if n == 4 {
        let r = c[0] == 'j' && c[1] == 's' && c[2] == 'o' && c[3] == 'n';
        if r {
            assert(c@ =~= seq!['j', 's', 'o', 'n']);
        }
        r
    } else if n == 5 {
        let r = c[0] == 'j' && c[1] == 's' && c[2] == 'o' && c[3] == 'n' && (c[4] == 'c' || c[4]
            == '5' || c[4] == 'l');
        if r {
            if c[4] == 'c' {
                assert(c@ =~= seq!['j', 's', 'o', 'n', 'c']);
            } else if c[4] == '5' {
                assert(c@ =~= seq!['j', 's', 'o', 'n', '5']);
            } else {
                assert(c@ =~= seq!['j', 's', 'o', 'n', 'l']);
            }
        }
        r
    } else if n == 6 {
        let r = c[0] == 'n' && c[1] == 'd' && c[2] == 'j' && c[3] == 's' && c[4] == 'o' && c[5]
            == 'n';
        if r {
            assert(c@ =~= seq!['n', 'd', 'j', 's', 'o', 'n']);
        }
        r
    } else if n == 7 {
        let r = c[0] == 'g' && c[1] == 'e' && c[2] == 'o' && c[3] == 'j' && c[4] == 's' && c[5]
            == 'o' && c[6] == 'n';
        if r {
            assert(c@ =~= seq!['g', 'e', 'o', 'j', 's', 'o', 'n']);
        }
        r
    } else {
        false
    }
}

/// Whether the editor opens the file at `path`: its extension, lowercased,
/// is one of `json`, `jsonc`, `json5`, `geojson`, `jsonl`, `ndjson`.
pub fn is_supported_file(path: &str) -> (r: bool)
    ensures
        !path@.contains('.') ==> !r,
        plain_path(path@) ==> r == match path_ext(path@) {
            Some(e) => is_supported_extension(unicode_lowercase(e)),
            None => false,
        },
        plain_path(path@) && path_ext(path@) is Some && vstd::utf8::is_ascii_chars(
            path_ext(path@).unwrap(),
        ) ==> r == is_supported_extension(ascii_lowercase(path_ext(path@).unwrap())),
{
    match path_extension(path) {
        Some(ext) => {
            let lower = lowercase(ext.as_str());
            supported_extension(lower.as_str())
        },
        None => false,
    }
}

// ---------------------------------------------------------------------------
// Leading invisible characters
// ---------------------------------------------------------------------------

/// Characters that arrive before a pasted document without being part of
/// it: byte order mark, zero-width characters, direction marks, no-break
/// space and NUL.
pub open spec fn is_leading_junk(c: char) -> bool {
    c == '\u{feff}' || c == '\u{200b}' || c == '\u{200c}' || c == '\u{200d}' || c == '\u{2060}'
        || c == '\u{200e}' || c == '\u{200f}' || c == '\u{a0}' || c == '\u{0}'
}

fn leading_junk(c: char) -> (r: bool)
    ensures
        r == is_leading_junk(c),
{
    c == '\u{feff}' || c == '\u{200b}' || c == '\u{200c}' || c == '\u{200d}' || c == '\u{2060}'
        || c == '\u{200e}' || c == '\u{200f}' || c == '\u{a0}' || c == '\u{0}'
}

/// Index of the first character at or after `i` that is not leading junk.
pub open spec fn junk_end(t: Seq<char>, i: int) -> int
    decreases t.len() - i,
{
    if 0 <= i < t.len() && is_leading_junk(t[i]) {
        junk_end(t, i + 1)
    } else {
        i
    }
}

pub proof fn lemma_junk_end(t: Seq<char>, i: int)
    requires
        0 <= i <= t.len(),
    ensures
        i <= junk_end(t, i) <= t.len(),
        forall|k: int| i <= k < junk_end(t, i) ==> is_leading_junk(#[trigger] t[k]),
        junk_end(t, i) < t.len() ==> !is_leading_junk(t[junk_end(t, i)]),
    decreases t.len() - i,
{
    if i < t.len() && is_leading_junk(t[i]) {
        lemma_junk_end(t, i + 1);
    }
}

/// The text with its leading junk removed, and a note when there was any.
pub open spec fn stripped(t: Seq<char>) -> (Seq<char>, Option<&'static str>) {
    let k = junk_end(t, 0);
    if k == 0 {
        (t, None)
    } else {
        (t.skip(k), Some(NOTE_INVISIBLE))
    }
}

/// Where the body starts once leading junk is skipped, and the note.
fn strip_leading_junk(t: &[char]) -> (r: (usize, Option<&'static str>))
    ensures
        r.0 as int == junk_end(t@, 0),
        t@.skip(r.0 as int) == stripped(t@).0,
        r.1 == stripped(t@).1,
{
    let mut k: usize = 0;
    while k < t.len() && leading_junk(t[k])
        invariant
            k <= t@.len(),
            junk_end(t@, k as int) == junk_end(t@, 0),
        decreases t@.len() - k,
    {
        k += 1;
    }
    assert(t@.skip(0) =~= t@);
    if k == 0 {
        (k, None)
    } else {
        (k, Some(NOTE_INVISIBLE))
    }
}

// ---------------------------------------------------------------------------
// Documents wrapped in quotes
// ---------------------------------------------------------------------------

/// The closing quote that matches an opening one.
pub open spec fn closing_quote(open: char) -> Option<char> {
    if open == '\'' {
        Some('\'')
    } else if open == '"' {
        Some('"')
    } else if open == '`' {
        Some('`')
    } else if open == '\u{2018}' {
        Some('\u{2019}')
    } else if open == '\u{201c}' {
        Some('\u{201d}')
    } else {
        None
    }
}

pub open spec fn is_closing(c: char) -> bool {
    c == '\'' || c == '"' || c == '`' || c == '\u{2019}' || c == '\u{201d}'
}

fn closing_quote_for(open: char) -> (r: Option<char>)
    ensures
        r == closing_quote(open),
{
    if open == '\'' {
        Some('\'')
    } else if open == '"' {
        Some('"')
    } else if open == '`' {
        Some('`')
    } else if open == '\u{2018}' {
        Some('\u{2019}')
    } else if open == '\u{201c}' {
        Some('\u{201d}')
    } else {
        None
    }
}

fn is_closing_quote(c: char) -> (r: bool)
    ensures
        r == is_closing(c),
{
    c == '\'' || c == '"' || c == '`' || c == '\u{2019}' || c == '\u{201d}'
}

/// The escape a backslash starts inside a JSON string, for the escapes that
/// stand for one character.
pub open spec fn escaped_char(n: char) -> Option<char> {
    if n == '"' {
        Some('"')
    } else if n == '\\' {
        Some('\\')
    } else if n == '/' {
        Some('/')
    } else if n == 'n' {
        Some('\n')
    } else if n == 't' {
        Some('\t')
    } else if n == 'r' {
        Some('\r')
    } else if n == 'b' {
        Some('\u{8}')
    } else if n == 'f' {
        Some('\u{c}')
    } else {
        None
    }
}

/// The text of a JSON string body once its one-character escapes are
/// resolved; any other backslash is kept.
pub open spec fn unescaped(s: Seq<char>, i: int, out: Seq<char>) -> Seq<char>
    decreases s.len() - i,
{
    if i < 0 || i >= s.len() {
        out
    } else if s[i] == '\\' && i + 1 < s.len() && escaped_char(s[i + 1]) is Some {
        unescaped(s, i + 2, out.push(escaped_char(s[i + 1]).unwrap()))
    } else {
        unescaped(s, i + 1, out.push(s[i]))
    }
}

fn escaped(n: char) -> (r: Option<char>)
    ensures
        r == escaped_char(n),
{
    if n == '"' {
        Some('"')
    } else if n == '\\' {
        Some('\\')
    } else if n == '/' {
        Some('/')
    } else if n == 'n' {
        Some('\n')
    } else if n == 't' {
        Some('\t')
    } else if n == 'r' {
        Some('\r')
    } else if n == 'b' {
        Some('\u{8}')
    } else if n == 'f' {
        Some('\u{c}')
    } else {
        None
    }
}

/// Resolves the escapes of a document that was stored as a JSON string.
pub fn unescape(s: &[char]) -> (r: Vec<char>)
    ensures
        r@ == unescaped(s@, 0, Seq::empty()),
{
    let mut out: Vec<char> = Vec::new();
    let mut i: usize = 0;
    let n = s.len();
    while i < n
        invariant
            n == s@.len(),
            i <= n,
            unescaped(s@, i as int, out@) == unescaped(s@, 0, Seq::empty()),
        decreases n - i,
    {
        if s[i] == '\\' && n - i > 1 {
            if let Some(c) = escaped(s[i + 1]) {
                out.push(c);
                i += 2;
                continue;
            }
        }
        out.push(s[i]);
        i += 1;
    }
    out
}

pub open spec fn has_escaped_quote(s: Seq<char>) -> bool {
    exists|k: int| 0 <= k && k + 1 < s.len() && s[k] == '\\' && #[trigger] s[k + 1] == '"'
}

fn contains_escaped_quote(s: &[char]) -> (r: bool)
    ensures
        r == has_escaped_quote(s@),
{
    let n = s.len();
    let mut k: usize = 0;
    while n > 0 && k < n - 1
        invariant
            n == s@.len(),
            forall|m: int| 0 <= m < k && m + 1 < n ==> !(s@[m] == '\\' && #[trigger] s@[m + 1] == '"'),
        decreases n - k,
    {
        if s[k] == '\\' && s[k + 1] == '"' {
            return true;
        }
        k += 1;
    }
    false
}

/// A document with the quotes around it removed: both quotes of a matching
/// pair, or a single stray quote before the first or after the last value.
/// `None` when there is no quote to remove or nothing is left inside.
pub open spec fn unwrapped(text: Seq<char>) -> Option<(Seq<char>, &'static str)> {
    let tr = trim(text);
    if tr.len() < 2 {
        None
    } else {
        let first = tr[0];
        let last = tr.last();
        let cut: Option<(Seq<char>, &'static str, bool)> = match closing_quote(first) {
            Some(expected) => if is_closing(last) && last == expected {
                Some((tr.subrange(1, tr.len() - 1), NOTE_UNQUOTED, first == '"'))
            } else {
                Some((tr.skip(1), NOTE_STRAY_OPEN, false))
            },
            None => if is_closing(last) {
                Some((tr.take(tr.len() - 1), NOTE_STRAY_CLOSE, false))
            } else {
                None
            },
        };
        match cut {
            None => None,
            Some((inner0, note, was_double)) => {
                let inner = trim(inner0);
                if inner.len() == 0 {
                    None
                } else if was_double && has_escaped_quote(inner) {
                    Some((unescaped(inner, 0, Seq::empty()), note))
                } else {
                    Some((inner, note))
                }
            },
        }
    }
}

/// `str::trim`, on characters.
fn trimmed(v: &[char]) -> (r: Vec<char>)
    ensures
        r@ == trim(v@),
{
    let a = skip_white_space(v, 0);
    let b = trim_end_len(v);
    proof {
        crate::text::lemma_ws_prefix_end_bounds(v@, 0);
        crate::text::lemma_ws_suffix_start_bounds(v@, v@.len() as int);
    }
    if a >= b {
        Vec::new()
    } else {
        slice_chars(v, a, b)
    }
}

/// See [`unwrapped`].
fn unwrap_quoted(text: &[char]) -> (r: Option<(Vec<char>, &'static str)>)
    ensures
        match r {
            Some((v, note)) => unwrapped(text@) == Some((v@, note)),
            None => unwrapped(text@) is None,
        },
{
    let tr = trimmed(text);
    let n = tr.len();
    if n < 2 {
        return None;
    }
    let first = tr[0];
    let last = tr[n - 1];
    let (inner0, note, was_double) = match closing_quote_for(first) {
        Some(expected) => if is_closing_quote(last) && last == expected {
            (slice_chars(&tr, 1, n - 1), NOTE_UNQUOTED, first == '"')
        } else {
            (slice_chars(&tr, 1, n), NOTE_STRAY_OPEN, false)
        },
        None => if is_closing_quote(last) {
            (slice_chars(&tr, 0, n - 1), NOTE_STRAY_CLOSE, false)
        } else {
            return None;
        },
    };
    assert(tr@.subrange(1, n as int) =~= tr@.skip(1));
    assert(tr@.subrange(0, n - 1) =~= tr@.take(n - 1));
    let inner = trimmed(&inner0);
    if inner.len() == 0 {
        return None;
    }
    if was_double && contains_escaped_quote(&inner) {
        Some((unescape(&inner), note))
    } else {
        Some((inner, note))
    }
}

// ---------------------------------------------------------------------------
// Recovery
// ---------------------------------------------------------------------------

/// One way of reading a text as JSON.
#[derive(Debug, Clone, Copy, PartialEq, Eq, Structural)]
pub enum Attempt {
    Ndjson,
    Relaxed,
    RelaxedNdjson,
}

/// The candidate an attempt makes of a text.
pub open spec fn attempt(body: Seq<char>, a: Attempt) -> Option<Seq<char>> {
    match a {
        Attempt::Ndjson => ndjson_array(body),
        Attempt::Relaxed => relaxed(body),
        Attempt::RelaxedNdjson => match relaxed(body) {
            Some(r) => ndjson_array(r),
            None => None,
        },
    }
}

/// The order in which the attempts are made: a relaxed extension puts the
/// relaxed reading first.
pub open spec fn attempt_order(hint: Option<InputFormat>) -> Seq<Attempt> {
    if hint == Some(InputFormat::Relaxed) {
        seq![Attempt::Relaxed, Attempt::Ndjson, Attempt::RelaxedNdjson]
    } else {
        seq![Attempt::Ndjson, Attempt::Relaxed, Attempt::RelaxedNdjson]
    }
}

/// The first candidate, in `order`, that is valid JSON.
pub open spec fn first_valid(body: Seq<char>, order: Seq<Attempt>) -> Option<Seq<char>>
    decreases order.len(),
{
    if order.len() == 0 {
        None
    } else {
        match attempt(body, order[0]) {
            Some(c) if json_valid(c) => Some(c),
            _ => first_valid(body, order.drop_first()),
        }
    }
}

/// What [`recover`] makes of a text: the JSON text and the note.
///
/// In order: the text with leading junk removed, when that alone makes it
/// valid; the text with its wrapping quotes removed, when that makes it
/// valid; the first valid candidate of the dialect attempts; and last the
/// relaxed (or else newline-delimited) reading of the unquoted text.
pub open spec fn recovered(text: Seq<char>, hint: Option<InputFormat>) -> Option<
    (Seq<char>, Option<&'static str>),
> {
    let (body, note) = stripped(text);
    if note is Some && json_valid(body) {
        Some((body, note))
    } else if unwrapped(body) is Some && json_valid(unwrapped(body).unwrap().0) {
        Some((unwrapped(body).unwrap().0, Some(unwrapped(body).unwrap().1)))
    } else {
        match first_valid(body, attempt_order(hint)) {
            Some(json) => Some((json, note)),
            None => match unwrapped(body) {
                None => None,
                Some((inner, n)) => {
                    let cand = match relaxed(inner) {
                        Some(c) => Some(c),
                        None => ndjson_array(inner),
                    };
                    match cand {
                        Some(c) if json_valid(c) => Some((c, Some(n))),
                        _ => None,
                    }
                },
            },
        }
    }
}

/// Law: whatever recovery gives back is valid JSON; and it leaves a note
/// only when it removed something the user should be told of, so a text
/// with no leading invisible character and no wrapping quotes is recovered,
/// if at all, without a note.
pub proof fn lemma_recovered_is_valid_and_noted(text: Seq<char>, hint: Option<InputFormat>)
    ensures
        recovered(text, hint) matches Some(r) ==> json_valid(r.0),
        stripped(text).1 is None && unwrapped(stripped(text).0) is None ==> (recovered(
            text,
            hint,
        ) matches Some(r) ==> r.1 is None),
{
    let body = stripped(text).0;
    lemma_first_valid_is_valid(body, attempt_order(hint));
}

proof fn lemma_first_valid_is_valid(body: Seq<char>, order: Seq<Attempt>)
    ensures
        first_valid(body, order) matches Some(c) ==> json_valid(c),
    decreases order.len(),
{
    if order.len() > 0 {
        lemma_first_valid_is_valid(body, order.drop_first());
    }
}

/// Law: when a file's extension announces a relaxed dialect, the relaxed
/// reading wins whenever it is valid, even if the text also reads as
/// newline-delimited records.
pub proof fn lemma_relaxed_hint_prefers_relaxed(text: Seq<char>)
    requires
        stripped(text).1 is None,
        !(unwrapped(stripped(text).0) is Some && json_valid(
            unwrapped(stripped(text).0).unwrap().0,
        )),
        relaxed(stripped(text).0) matches Some(c) && json_valid(c),
    ensures
        recovered(text, Some(InputFormat::Relaxed)) == Some(
            (relaxed(stripped(text).0).unwrap(), None::<&'static str>),
        ),
{
    let body = stripped(text).0;
    let order = attempt_order(Some(InputFormat::Relaxed));
    assert(order[0] == Attempt::Relaxed);
}

/// The candidate of attempt `a`, when it is valid JSON.
fn try_attempt(body: &[char], a: Attempt) -> (r: Option<String>)
    ensures
        match r {
            Some(s) => attempt(body@, a) == Some(s@) && json_valid(s@),
            None => !(attempt(body@, a) matches Some(c) && json_valid(c)),
        },
{
    let cand = match a {
        Attempt::Ndjson => ndjson_chars(body),
        Attempt::Relaxed => relaxed_chars(body),
        Attempt::RelaxedNdjson => match relaxed_chars(body) {
            Some(r) => ndjson_chars(&r),
            None => None,
        },
    };
    match cand {
        Some(c) => {
            let s = string_of(&c);
            if is_valid_json(s.as_str()) {
                Some(s)
            } else {
                None
            }
        },
        None => None,
    }
}

/// Turns a text that strict JSON parsing refused into JSON, when it is one
/// of the dialects this module knows (see [`recovered`]). Whatever comes
/// back is accepted by `serde_json`.
pub fn recover(text: &str, hint: Option<InputFormat>) -> (r: Option<Recovered>)
    ensures
        match r {
            Some(rec) => recovered(text@, hint) == Some((rec.json@, rec.note)),
            None => recovered(text@, hint) is None,
        },
        r matches Some(rec) ==> json_valid(rec.json@),
{
    let t = chars_of(text);
    let (start, note) = strip_leading_junk(&t);
    proof {
        lemma_junk_end(t@, 0);
    }
    let body = slice_chars(&t, start, t.len());
    assert(body@ =~= t@.skip(start as int));
    if note.is_some() {
        let s = string_of(&body);
        if is_valid_json(s.as_str()) {
            return Some(Recovered::noted(s, note.unwrap()));
        }
    }
    let unq = unwrap_quoted(&body);
    if let Some((u, n)) = &unq {
        let s = string_of(u);
        if is_valid_json(s.as_str()) {
            return Some(Recovered::noted(s, *n));
        }
    }
    let order: [Attempt; 3] = if hint == Some(InputFormat::Relaxed) {
        [Attempt::Relaxed, Attempt::Ndjson, Attempt::RelaxedNdjson]
    } else {
        [Attempt::Ndjson, Attempt::Relaxed, Attempt::RelaxedNdjson]
    };
    assert(order@ =~= attempt_order(hint));
    assert(order@.skip(0) =~= order@);
    let mut k: usize = 0;
    while k < 3
        invariant
            k <= 3,
            order@.len() == 3,
            first_valid(body@, order@.skip(k as int)) == first_valid(body@, attempt_order(hint)),
            body@ == stripped(text@).0,
            note == stripped(text@).1,
            !(note is Some && json_valid(body@)),
            !(unwrapped(body@) is Some && json_valid(unwrapped(body@).unwrap().0)),
            match unq {
                Some((u, n)) => unwrapped(body@) == Some((u@, n)),
                None => unwrapped(body@) is None,
            },
        decreases 3 - k,
    {
        assert(order@.skip(k as int).drop_first() =~= order@.skip(k + 1));
        assert(order@.skip(k as int)[0] == order@[k as int]);
        if let Some(json) = try_attempt(&body, order[k]) {
            assert(first_valid(body@, order@.skip(k as int)) == Some(json@));
            return Some(match note {
                Some(nt) => Recovered::noted(json, nt),
                None => Recovered::plain(json),
            });
        }
        k += 1;
    }
    assert(order@.skip(3) =~= Seq::<Attempt>::empty());
    let (inner, n) = match unq {
        Some(p) => p,
        None => {
            return None;
        },
    };
    let cand = match relaxed_chars(&inner) {
        Some(c) => Some(c),
        None => ndjson_chars(&inner),
    };
    match cand {
        Some(c) => {
            let s = string_of(&c);
            if is_valid_json(s.as_str()) {
                Some(Recovered { json: s, note: Some(n) })
            } else {
                None
            }
        },
        None => None,
    }
}

proof fn lemma_trim_keeps(s: Seq<char>)
    requires
        s.len() > 0,
        !is_white_space(s[0]),
        !is_white_space(s[s.len() - 1]),
    ensures
        trim(s) == s,
{
    assert(ws_prefix_end(s, 0) == 0);
    assert(ws_suffix_start(s, s.len() as int) == s.len());
    assert(s.subrange(0, s.len() as int) =~= s);
}

/// Law: a document pasted inside a pair of matching quotes (`'…'`, `` `…` ``,
/// `‘…’`, `“…”`, or `"…"` when nothing inside is an escaped quote) is
/// recovered as what is inside, when that is valid JSON, with the note
/// that the wrapping quotes were removed.
pub proof fn lemma_quoted_document_recovered(q: char, close: char, inner: Seq<char>, hint: Option<InputFormat>)
    requires
        (q == '\'' && close == '\'') || (q == '`' && close == '`') || (q == '\u{2018}' && close
            == '\u{2019}') || (q == '\u{201c}' && close == '\u{201d}') || (q == '"' && close == '"'
            && !has_escaped_quote(inner)),
        inner.len() > 0,
        !is_white_space(inner[0]),
        !is_white_space(inner[inner.len() - 1]),
        json_valid(inner),
    ensures
        recovered(seq![q] + inner + seq![close], hint) == Some((inner, Some(NOTE_UNQUOTED))),
{
    let text = seq![q] + inner + seq![close];
    assert(junk_end(text, 0) == 0);
    assert(stripped(text) == (text, None::<&'static str>));
    lemma_trim_keeps(text);
    lemma_trim_keeps(inner);
    assert(text.subrange(1, text.len() - 1) =~= inner);
    assert(unwrapped(text) == Some((inner, NOTE_UNQUOTED)));
}

} // verus!

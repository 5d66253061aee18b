//! Plain-language diagnosis of a text that does not parse as JSON: a title,
//! a detail, an excerpt of the failing line with a caret, and a fix when one
//! is on offer.
//!
//! Positions are counted in characters.
use vstd::prelude::*;

use crate::format::number::{decimal, push_decimal};
use crate::json::{check_json, json_parse, ErrorCategory, JsonError};
use crate::text::{
    chars_of, is_white_space, push_all, range_starts_with, skip_white_space, slice_chars,
    string_of, trim, trim_end_len, ws_prefix_end, ws_suffix_start,
};

verus! {

/// How many characters an excerpt shows on each side of the caret.
pub const EXCERPT_RADIUS: usize = 34;

/// What went wrong, said for a person.
#[derive(Debug, Clone)]
pub struct Diagnosis {
    pub title: String,
    pub detail: String,
    pub excerpt: Option<Excerpt>,
    pub fix: Option<Fix>,
}

/// The failing line around the failing character, with the caret's index
/// into `text`.
#[derive(Debug, Clone)]
pub struct Excerpt {
    pub text: String,
    pub caret: u32,
    pub line: u32,
    pub column: u32,
    pub clipped_start: bool,
    pub clipped_end: bool,
}

/// A replacement text on offer, with a label for its button.
#[derive(Debug, Clone)]
pub struct Fix {
    pub label: String,
    pub text: String,
    pub warnings: Vec<String>,
}

/// The formats that format detection tells apart.
#[derive(Debug, Clone, Copy, PartialEq, Eq, Structural)]
pub enum DetectKind {
    Json,
    Yaml,
    Xml,
    Csv,
    Curl,
    Unknown,
}

/// The outcome of format detection on a text: the kind found, the text
/// converted to JSON, and whether the conversion failed.
#[derive(Debug, Clone)]
pub struct Detected {
    pub kind: DetectKind,
    pub json: String,
    pub failed: bool,
}

/// The outcome of the repair pass on a text.
#[derive(Debug, Clone)]
pub struct Repaired {
    pub success: bool,
    pub repaired_json: String,
    pub warnings: Vec<String>,
}

impl View for Excerpt {
    type V = (Seq<char>, u32, u32, u32, bool, bool);

    open spec fn view(&self) -> Self::V {
        (self.text@, self.caret, self.line, self.column, self.clipped_start, self.clipped_end)
    }
}

// ---------------------------------------------------------------------------
// Character classes
// ---------------------------------------------------------------------------

/// The Unicode `Alphabetic` property (`char::is_alphabetic`).
pub uninterp spec fn unicode_alphabetic(c: char) -> bool;

/// The Unicode `Alphabetic` or `Numeric` properties (`char::is_alphanumeric`).
pub uninterp spec fn unicode_alphanumeric(c: char) -> bool;

/// An ASCII letter.
pub open spec fn is_ascii_letter(c: char) -> bool {
    ('a' <= c && c <= 'z') || ('A' <= c && c <= 'Z')
}

/// `char::is_alphabetic`; among ASCII characters exactly the letters are
/// alphabetic.
#[verifier::external_body]
fn alphabetic(c: char) -> (r: bool)
    ensures
        r == unicode_alphabetic(c),
        c <= '\u{7f}' ==> (r <==> is_ascii_letter(c)),
{
    c.is_alphabetic()
}

/// `char::is_alphanumeric`, which the documentation defines as alphabetic or
/// numeric; among ASCII characters exactly the letters and digits are.
#[verifier::external_body]
fn alphanumeric(c: char) -> (r: bool)
    ensures
        r == unicode_alphanumeric(c),
        unicode_alphabetic(c) ==> r,
        c <= '\u{7f}' ==> (r <==> is_ascii_letter(c) || ('0' <= c && c <= '9')),
{
    c.is_alphanumeric()
}

/// The Unicode general category `Cc` (`char::is_control`).
pub open spec fn is_control(c: char) -> bool {
    c <= '\u{1f}' || ('\u{7f}' <= c && c <= '\u{9f}')
}

fn control(c: char) -> (r: bool)
    ensures
        r == is_control(c),
{
    c <= '\u{1f}' || ('\u{7f}' <= c && c <= '\u{9f}')
}

/// Characters that take no room on screen but break a parse.
pub open spec fn is_invisible(c: char) -> bool {
    c == '\u{feff}' || ('\u{200b}' <= c && c <= '\u{200f}') || c == '\u{2060}' || c == '\u{a0}'
        || c == '\u{2028}' || c == '\u{2029}'
}

pub fn invisible(c: char) -> (r: bool)
    ensures
        r == is_invisible(c),
{
    c == '\u{feff}' || ('\u{200b}' <= c && c <= '\u{200f}') || c == '\u{2060}' || c == '\u{a0}'
        || c == '\u{2028}' || c == '\u{2029}'
}

/// How a character is shown in an excerpt: a tab as an arrow, a control or
/// invisible character as a middle dot.
pub open spec fn shown(c: char) -> char {
    if c == '\t' {
        '→'
    } else if is_control(c) || is_invisible(c) {
        '·'
    } else {
        c
    }
}

pub fn visible(c: char) -> (r: char)
    ensures
        r == shown(c),
{
    if c == '\t' {
        return '→';
    }
    if control(c) || invisible(c) {
        return '·';
    }
    c
}

// ---------------------------------------------------------------------------
// Positions
// ---------------------------------------------------------------------------

/// Index just after the line that starts at `pos` (after its line feed, or
/// the end of the text).
pub open spec fn line_after(t: Seq<char>, pos: int) -> int
    decreases t.len() - pos,
{
    if pos < 0 || pos >= t.len() {
        pos
    } else if t[pos] == '\n' {
        pos + 1
    } else {
        line_after(t, pos + 1)
    }
}

/// Offset of column `col` (zero-based) on the `n`-th line after the one that
/// starts at `pos`; a column past the line's end lands on its end.
pub open spec fn offset_from(t: Seq<char>, pos: int, n: nat, col: int) -> int
    decreases t.len() - pos,
{
    if pos < 0 || pos >= t.len() {
        t.len() as int
    } else {
        let end = line_after(t, pos);
        proof {
            lemma_line_after(t, pos);
        }
        if n == 0 {
            let len = end - pos;
            let content = if t[end - 1] == '\n' {
                len - 1
            } else {
                len
            };
            pos + if col < len {
                col
            } else {
                content
            }
        } else {
            offset_from(t, end, (n - 1) as nat, col)
        }
    }
}

/// Character offset of a one-based line and column, as a parser reports
/// them; a position past the text is its end.
pub open spec fn offset_at(t: Seq<char>, line: usize, column: usize) -> int {
    if line < 1 {
        t.len() as int
    } else {
        offset_from(t, 0, (line - 1) as nat, if column >= 1 {
            column - 1
        } else {
            0
        })
    }
}

pub proof fn lemma_line_after(t: Seq<char>, pos: int)
    requires
        0 <= pos < t.len(),
    ensures
        pos < line_after(t, pos) <= t.len(),
        forall|k: int| pos <= k < line_after(t, pos) - 1 ==> #[trigger] t[k] != '\n',
    decreases t.len() - pos,
{
    if t[pos] != '\n' {
        if pos + 1 < t.len() {
            lemma_line_after(t, pos + 1);
            assert forall|k: int| pos <= k < line_after(t, pos) - 1 implies #[trigger] t[k]
                != '\n' by {
                if k > pos {
                    assert(t[k] != '\n');
                }
            }
        } else {
            assert(line_after(t, pos + 1) == pos + 1);
        }
    }
}

pub proof fn lemma_offset_from(t: Seq<char>, pos: int, n: nat, col: int)
    requires
        0 <= pos <= t.len(),
        0 <= col,
    ensures
        pos <= offset_from(t, pos, n, col) <= t.len(),
    decreases t.len() - pos,
{
    if pos < t.len() {
        lemma_line_after(t, pos);
        if n > 0 {
            lemma_offset_from(t, line_after(t, pos), (n - 1) as nat, col);
        }
    }
}

/// The character offset that a reported line and column point at.
pub fn offset_of(t: &[char], line: usize, column: usize) -> (r: usize)
    ensures
        r as int == offset_at(t@, line, column),
        r <= t@.len(),
{
    let len = t.len();
    if line < 1 {
        return len;
    }
    let col: usize = if column >= 1 {
        column - 1
    } else {
        0
    };
    let mut pos: usize = 0;
    let mut n: usize = line - 1;
    proof {
        lemma_offset_from(t@, 0, n as nat, col as int);
    }
    while pos < len
        invariant
            len == t@.len(),
            pos <= len,
            offset_from(t@, pos as int, n as nat, col as int) == offset_at(t@, line, column),
        decreases len - pos,
    {
        let mut end = pos;
        while end < len && t[end] != '\n'
            invariant
                len == t@.len(),
                pos <= end <= len,
                line_after(t@, end as int) == line_after(t@, pos as int),
            decreases len - end,
        {
            end += 1;
        }
        if end < len {
            end += 1;
        }
        proof {
            lemma_line_after(t@, pos as int);
        }
        if n == 0 {
            let l = end - pos;
            let content = if t[end - 1] == '\n' {
                l - 1
            } else {
                l
            };
            return pos + if col < l {
                col
            } else {
                content
            };
        }
        n -= 1;
        pos = end;
    }
    len
}

// ---------------------------------------------------------------------------
// Words
// ---------------------------------------------------------------------------

pub open spec fn is_word(c: char) -> bool {
    unicode_alphanumeric(c) || c == '_'
}

fn word_char(c: char) -> (r: bool)
    ensures
        r == is_word(c),
        unicode_alphabetic(c) ==> r,
{
    alphanumeric(c) || c == '_'
}

/// Start of the run of word characters that ends at `j`.
pub open spec fn word_start(t: Seq<char>, j: int) -> int
    decreases j,
{
    if 0 < j <= t.len() && is_word(t[j - 1]) {
        word_start(t, j - 1)
    } else {
        j
    }
}

/// End of the run of word characters that starts at `j`.
pub open spec fn word_end(t: Seq<char>, j: int) -> int
    decreases t.len() - j,
{
    if 0 <= j < t.len() && is_word(t[j]) {
        word_end(t, j + 1)
    } else {
        j
    }
}

/// The word around `offset`: its start, and its first 16 characters.
pub open spec fn word_at(t: Seq<char>, offset: int) -> (int, Seq<char>) {
    let s = word_start(t, offset);
    let e = word_end(t, s);
    (s, t.subrange(s, if e - s > 16 {
        s + 16
    } else {
        e
    }))
}

proof fn lemma_word_start(t: Seq<char>, j: int)
    requires
        0 <= j <= t.len(),
    ensures
        0 <= word_start(t, j) <= j,
    decreases j,
{
    if j > 0 && is_word(t[j - 1]) {
        lemma_word_start(t, j - 1);
    }
}

proof fn lemma_word_end(t: Seq<char>, j: int)
    requires
        0 <= j <= t.len(),
    ensures
        j <= word_end(t, j) <= t.len(),
        forall|k: int| j <= k < word_end(t, j) ==> is_word(#[trigger] t[k]),
    decreases t.len() - j,
{
    if j < t.len() && is_word(t[j]) {
        lemma_word_end(t, j + 1);
    }
}

/// The word around `offset`, as its start and text (see [`word_at`]).
pub fn word_around(t: &[char], offset: usize) -> (r: (usize, Vec<char>))
    requires
        offset <= t@.len(),
    ensures
        r.0 as int == word_at(t@, offset as int).0,
        r.1@ == word_at(t@, offset as int).1,
{
    let mut s = offset;
    while s > 0 && word_char(t[s - 1])
        invariant
            s <= offset <= t@.len(),
            word_start(t@, s as int) == word_start(t@, offset as int),
        decreases s,
    {
        s -= 1;
    }
    let mut e = s;
    while e < t.len() && word_char(t[e])
        invariant
            s <= e <= t@.len(),
            word_end(t@, e as int) == word_end(t@, s as int),
        decreases t@.len() - e,
    {
        e += 1;
    }
    let stop = if e - s > 16 {
        s + 16
    } else {
        e
    };
    (s, slice_chars(t, s, stop))
}

// ---------------------------------------------------------------------------
// Excerpts
// ---------------------------------------------------------------------------

/// Start of the line that holds `offset`.
pub open spec fn line_start_before(t: Seq<char>, offset: int) -> int
    decreases offset,
{
    if offset <= 0 || offset > t.len() {
        0
    } else if t[offset - 1] == '\n' {
        offset
    } else {
        line_start_before(t, offset - 1)
    }
}

/// End of the line that holds `offset` (its line feed, or the text's end).
pub open spec fn line_end_after(t: Seq<char>, offset: int) -> int
    decreases t.len() - offset,
{
    if offset < 0 || offset >= t.len() {
        t.len() as int
    } else if t[offset] == '\n' {
        offset
    } else {
        line_end_after(t, offset + 1)
    }
}

proof fn lemma_line_start_before(t: Seq<char>, offset: int)
    requires
        0 <= offset <= t.len(),
    ensures
        0 <= line_start_before(t, offset) <= offset,
    decreases offset,
{
    if offset > 0 && t[offset - 1] != '\n' {
        lemma_line_start_before(t, offset - 1);
    }
}

proof fn lemma_line_end_after(t: Seq<char>, offset: int)
    requires
        0 <= offset <= t.len(),
    ensures
        offset <= line_end_after(t, offset) <= t.len(),
    decreases t.len() - offset,
{
    if offset < t.len() && t[offset] != '\n' {
        lemma_line_end_after(t, offset + 1);
    }
}

/// The excerpt for a failing position: the failing line, at most
/// [`EXCERPT_RADIUS`] characters each side of the caret, each shown as
/// [`shown`] says. `None` for an empty text.
pub open spec fn excerpt_of(t: Seq<char>, offset: int, line: u32, column: u32) -> Option<
    (Seq<char>, u32, u32, u32, bool, bool),
> {
    if t.len() == 0 {
        None
    } else {
        let off = if offset < t.len() {
            offset
        } else {
            t.len() as int
        };
        let ls = line_start_before(t, off);
        let le = line_end_after(t, off);
        let caret = off - ls;
        let start = if caret > EXCERPT_RADIUS {
            caret - EXCERPT_RADIUS
        } else {
            0
        };
        let end = if caret + EXCERPT_RADIUS < le - ls {
            caret + EXCERPT_RADIUS
        } else {
            le - ls
        };
        Some(
            (
                t.subrange(ls + start, ls + end).map_values(|c: char| shown(c)),
                (caret - start) as u32,
                line,
                column,
                start > 0,
                end < le - ls,
            ),
        )
    }
}

/// The excerpt of the failing line around `offset` (see [`excerpt_of`]).
pub fn build_excerpt(t: &[char], offset: usize, line: u32, column: u32) -> (r: Option<Excerpt>)
    ensures
        match r {
            Some(e) => excerpt_of(t@, offset as int, line, column) == Some(e@),
            None => excerpt_of(t@, offset as int, line, column) is None,
        },
{
    let len = t.len();
    if len == 0 {
        return None;
    }
    let off = if offset < len {
        offset
    } else {
        len
    };
    let mut ls = off;
    while ls > 0 && t[ls - 1] != '\n'
        invariant
            ls <= off <= len,
            len == t@.len(),
            line_start_before(t@, ls as int) == line_start_before(t@, off as int),
        decreases ls,
    {
        ls -= 1;
    }
    let mut le = off;
    while le < len && t[le] != '\n'
        invariant
            off <= le <= len,
            len == t@.len(),
            line_end_after(t@, le as int) == line_end_after(t@, off as int),
        decreases len - le,
    {
        le += 1;
    }
    let caret = off - ls;
    let line_len = le - ls;
    let start = if caret > EXCERPT_RADIUS {
        caret - EXCERPT_RADIUS
    } else {
        0
    };
    let end = if caret < line_len && line_len - caret > EXCERPT_RADIUS {
        caret + EXCERPT_RADIUS
    } else {
        line_len
    };
    let mut shown_chars: Vec<char> = Vec::new();
    let mut k = ls + start;
    while k < ls + end
        invariant
            ls + start <= k <= ls + end,
            ls + end <= len,
            len == t@.len(),
            shown_chars@ == t@.subrange(ls + start, k as int).map_values(|c: char| shown(c)),
        decreases ls + end - k,
    {
        shown_chars.push(visible(t[k]));
        assert(t@.subrange(ls + start, k + 1).map_values(|c: char| shown(c)) =~= t@.subrange(
            ls + start,
            k as int,
        ).map_values(|c: char| shown(c)).push(shown(t@[k as int])));
        k += 1;
    }
    Some(
        Excerpt {
            text: string_of(&shown_chars),
            caret: (caret - start) as u32,
            line,
            column,
            clipped_start: start > 0,
            clipped_end: end < line_len,
        },
    )
}

/// Law: the caret of an excerpt points at the failing character, shown as
/// [`shown`] says, and an excerpt is never wider than twice the radius.
pub proof fn lemma_excerpt_caret(t: Seq<char>, offset: int, line: u32, column: u32)
    requires
        0 <= offset < t.len(),
        t[offset] != '\n',
    ensures
        excerpt_of(t, offset, line, column) matches Some(e) && e.0.len() <= 2 * EXCERPT_RADIUS
            && e.1 < e.0.len() && e.0[e.1 as int] == shown(t[offset]),
        ({
            let k = offset - line_start_before(t, offset);
            let e = excerpt_of(t, offset, line, column).unwrap();
            &&& e.1 == (if k > EXCERPT_RADIUS {
                EXCERPT_RADIUS as int
            } else {
                k
            })
            &&& e.4 == (k > EXCERPT_RADIUS)
            &&& e.2 == line
            &&& e.3 == column
        }),
{
    lemma_line_start_before(t, offset);
    lemma_line_end_after(t, offset);
    assert(line_end_after(t, offset) == line_end_after(t, offset + 1));
    lemma_line_end_after(t, offset + 1);
    let ls = line_start_before(t, offset);
    let caret = offset - ls;
    let start = if caret > EXCERPT_RADIUS {
        caret - EXCERPT_RADIUS
    } else {
        0
    };
    let e = excerpt_of(t, offset, line, column).unwrap();
    assert(e.0[caret - start] == shown(t[ls + start + (caret - start)]));
}

// ---------------------------------------------------------------------------
// Explanations
// ---------------------------------------------------------------------------

pub open spec fn starts_with(s: Seq<char>, prefix: Seq<char>) -> bool {
    prefix.len() <= s.len() && s.take(prefix.len() as int) == prefix
}

/// Upper-case hexadecimal digits of `n`, without leading zeros.
pub open spec fn hex_upper(n: nat) -> Seq<char>
    decreases n,
{
    if n < 16 {
        seq![hex_digit_upper(n)]
    } else {
        hex_upper(n / 16).push(hex_digit_upper(n % 16))
    }
}

pub open spec fn hex_digit_upper(d: nat) -> char {
    if d < 10 {
        crate::format::number::digit_char(d)
    } else if d == 10 {
        'A'
    } else if d == 11 {
        'B'
    } else if d == 12 {
        'C'
    } else if d == 13 {
        'D'
    } else if d == 14 {
        'E'
    } else {
        'F'
    }
}

/// `n` in upper-case hexadecimal, zero-padded to at least four digits
/// (`{:04X}`).
pub open spec fn hex4(n: nat) -> Seq<char> {
    let h = hex_upper(n);
    Seq::new(if h.len() < 4 {
        (4 - h.len()) as nat
    } else {
        0
    }, |_k: int| '0') + h
}

fn hex_digit_exec(d: u32) -> (c: char)
    requires
        d < 16,
    ensures
        c == hex_digit_upper(d as nat),
{
    if d == 0 {
        '0'
    } else if d == 1 {
        '1'
    } else if d == 2 {
        '2'
    } else if d == 3 {
        '3'
    } else if d == 4 {
        '4'
    } else if d == 5 {
        '5'
    } else if d == 6 {
        '6'
    } else if d == 7 {
        '7'
    } else if d == 8 {
        '8'
    } else if d == 9 {
        '9'
    } else if d == 10 {
        'A'
    } else if d == 11 {
        'B'
    } else if d == 12 {
        'C'
    } else if d == 13 {
        'D'
    } else if d == 14 {
        'E'
    } else {
        'F'
    }
}

fn push_hex_upper(out: &mut Vec<char>, n: u32)
    ensures
        final(out)@ == old(out)@ + hex_upper(n as nat),
    decreases n,
{
    if n >= 16 {
        push_hex_upper(out, n / 16);
    }
    out.push(hex_digit_exec(n % 16));
}

proof fn lemma_hex_upper_len(n: nat)
    ensures
        hex_upper(n).len() >= 1,
        n < 16 ==> hex_upper(n).len() == 1,
        n < 256 ==> hex_upper(n).len() <= 2,
        n < 4096 ==> hex_upper(n).len() <= 3,
    decreases n,
{
    if n >= 16 {
        lemma_hex_upper_len(n / 16);
    }
}

fn push_hex4(out: &mut Vec<char>, n: u32)
    ensures
        final(out)@ == old(out)@ + hex4(n as nat),
{
    proof {
        lemma_hex_upper_len(n as nat);
    }
    let ghost before = out@;
    let pad: usize = if n < 16 {
        3
    } else if n < 256 {
        2
    } else if n < 4096 {
        1
    } else {
        0
    };
    let mut k: usize = 0;
    while k < pad
        invariant
            k <= pad,
            out@ == before + Seq::new(k as nat, |_m: int| '0'),
        decreases pad - k,
    {
        out.push('0');
        assert(before + Seq::new((k + 1) as nat, |_m: int| '0') =~= before + Seq::new(
            k as nat,
            |_m: int| '0',
        ).push('0'));
        k += 1;
    }
    push_hex_upper(out, n);
    proof {
        let h = hex_upper(n as nat);
        if n >= 16 {
            lemma_hex_upper_2(n as nat);
        }
        if n >= 256 {
            lemma_hex_upper_3(n as nat);
        }
        if n >= 4096 {
            assert(h.len() >= 4) by {
                lemma_hex_upper_ge4(n as nat);
            }
        }
        assert(out@ =~= before + hex4(n as nat));
    }
}

proof fn lemma_hex_upper_ge4(n: nat)
    requires
        n >= 4096,
    ensures
        hex_upper(n).len() >= 4,
    decreases n,
{
    if n / 16 >= 4096 {
        lemma_hex_upper_ge4(n / 16);
    } else {
        lemma_hex_upper_len(n / 16);
        if n / 16 >= 256 {
            lemma_hex_upper_3(n / 16);
        } else {
            assert(n / 16 >= 256);
        }
    }
}

proof fn lemma_hex_upper_2(n: nat)
    requires
        n >= 16,
    ensures
        hex_upper(n).len() >= 2,
{
    lemma_hex_upper_len(n / 16);
}

proof fn lemma_hex_upper_3(n: nat)
    requires
        n >= 256,
    ensures
        hex_upper(n).len() >= 3,
    decreases n,
{
    if n / 16 >= 256 {
        lemma_hex_upper_3(n / 16);
    } else {
        assert(n / 16 >= 16);
        assert(hex_upper(n / 16).len() >= 2) by {
            lemma_hex_upper_len(n / 16 / 16);
        }
    }
}

pub open spec fn is_quote_like(c: char) -> bool {
    c == '\'' || c == '`' || c == '\u{2018}' || c == '\u{2019}' || c == '\u{201c}' || c
        == '\u{201d}'
}

pub open spec fn is_key_quote(c: char) -> bool {
    c == '\'' || c == '`' || c == '\u{2018}' || c == '\u{201c}'
}

/// The last character before `offset` that is not white space.
pub open spec fn last_before(t: Seq<char>, offset: int) -> Option<char> {
    let k = ws_suffix_start(t.take(offset), offset);
    if k > 0 {
        Some(t[k - 1])
    } else {
        None
    }
}

pub open spec fn char_at(t: Seq<char>, offset: int) -> Option<char> {
    if 0 <= offset < t.len() {
        Some(t[offset])
    } else {
        None
    }
}

/// Title and detail for a text that the parser refused with `err` at
/// character `offset`.
pub open spec fn explained(
    t: Seq<char>,
    err: (usize, usize, ErrorCategory, Seq<char>),
    offset: int,
) -> (Seq<char>, Seq<char>) {
    let at = char_at(t, offset);
    let msg = err.3;
    if err.2 == ErrorCategory::Eof {
        ("The document is cut off"@, "It ends part-way through a value — an opening { [ or \" was never closed. \
             This usually means the copy was truncated."@)
    } else if starts_with(msg, "trailing characters"@) {
        (
            "Extra content after the JSON ends"@,
            "The document is complete by line "@ + decimal(err.0 as nat)
                + ", but there is more text after it."@,
        )
    } else if starts_with(msg, "key must be a string"@) {
        match at {
            Some(c) => if c == '}' || c == ']' {
                (
                    "One comma too many"@,
                    "There is a comma just before "@ + seq![c]
                        + ". JSON does not allow a trailing comma."@,
                )
            } else if is_key_quote(c) {
                ("Property names are wrapped in "@ + seq![c], "JSON only accepts double quotes. This looks like a Python dict or a JavaScript \
                 object literal rather than JSON."@)
            } else {
                ("A property name is not quoted"@, "JSON needs double quotes around every property name, including numeric ones."@)
            },
            None => ("A property name is not quoted"@, "JSON needs double quotes around every property name, including numeric ones."@),
        }
    } else if starts_with(msg, "invalid escape"@) {
        ("Invalid escape inside a string"@, "A backslash must be followed by one of \" \\ / b f n r t or u."@)
    } else if starts_with(msg, "control character"@) {
        ("A line break inside a string"@, "Strings cannot span lines. Use \\n for a newline and \\t for a tab."@)
    } else {
        match at {
            None => ("The document is cut off"@, "It ends where a value was expected."@),
            Some(c) => if is_quote_like(c) {
                ("Unexpected "@ + seq![c] + " here"@, "JSON only uses double quotes (\"). This looks like text copied out of code or a \
             spreadsheet, which wraps it in the wrong quote."@)
            } else if unicode_alphabetic(c) {
                let w = word_at(t, offset);
                if w.0 == 0 && !t.contains('{') && !t.contains('[') {
                    ("This does not look like JSON"@, "Pandia also reads YAML, XML, CSV and cURL commands — paste one of those, or \
                     open a file instead."@)
                } else {
                    ("`"@ + w.1 + "` is not a JSON value"@, "Text has to be in double quotes. Only true, false and null are allowed bare."@)
                }
            } else if c == '}' || c == ']' {
                match last_before(t, offset) {
                    Some(p) => if p == ',' {
                        (
                            "One comma too many"@,
                            "There is a comma with nothing after it, just before "@ + seq![c]
                                + "."@,
                        )
                    } else if p == ':' {
                        ("A property has no value"@, "There is a name and a colon here, but nothing after them."@)
                    } else {
                        (
                            "Unexpected "@ + seq![c] + " here"@,
                            seq![c] + " arrives where a value was expected."@,
                        )
                    },
                    None => (
                        "Unexpected "@ + seq![c] + " here"@,
                        seq![c] + " arrives where a value was expected."@,
                    ),
                }
            } else if c == ',' {
                ("One comma too many"@, "There is a comma where a value should be — usually a spare one before } or ]."@)
            } else if is_control(c) || is_invisible(c) {
                (
                    "An invisible character is in the way"@,
                    "There is a hidden character (U+"@ + hex4((c as u32) as nat) + ") here. It usually arrives with a copy \
                 from a browser, chat window or PDF."@,
                )
            } else {
                ("Unexpected "@ + seq![c] + " here"@, "A JSON value starts with {, [, a double quote, a digit, true, false or null."@)
            },
        }
    }
}

fn lit(s: &str) -> (r: Vec<char>)
    ensures
        r@ == s@,
{
    chars_of(s)
}

fn cat(a: &str, c: char, b: &str) -> (r: Vec<char>)
    ensures
        r@ == a@ + seq![c] + b@,
{
    let mut v = chars_of(a);
    v.push(c);
    let tail = chars_of(b);
    push_all(&mut v, &tail);
    v
}

fn has_char(t: &[char], c: char) -> (r: bool)
    ensures
        r == t@.contains(c),
{
    let mut k: usize = 0;
    while k < t.len()
        invariant
            k <= t@.len(),
            forall|m: int| 0 <= m < k ==> t@[m] != c,
        decreases t@.len() - k,
    {
        if t[k] == c {
            assert(t@[k as int] == c);
            return true;
        }
        k += 1;
    }
    false
}

fn msg_starts_with(msg: &[char], prefix: &str) -> (r: bool)
    ensures
        r == starts_with(msg@, prefix@),
{
    let p = chars_of(prefix);
    let r = range_starts_with(msg, 0, msg.len(), &p);
    assert(msg@.subrange(0, p@.len() as int) =~= msg@.take(p@.len() as int));
    r
}

/// Title and detail for the refusal `err` at `offset` (see [`explained`]).
/// A refusal at the end of the input reads as a cut-off document; one at a
/// closing `}` or `]` that no known message claims reads as a comma too
/// many after a comma, as a missing value after a colon, and otherwise as
/// that bracket arriving unexpectedly.
pub fn explain(t: &[char], err: &JsonError, offset: usize) -> (r: (Vec<char>, Vec<char>))
    requires
        offset <= t@.len(),
    ensures
        (r.0@, r.1@) == explained(t@, err@, offset as int),
        err@.2 == ErrorCategory::Eof ==> r.0@ == "The document is cut off"@,
        ({
            let m = err@.3;
            &&& err@.2 != ErrorCategory::Eof
            &&& !starts_with(m, "trailing characters"@)
            &&& !starts_with(m, "key must be a string"@)
            &&& !starts_with(m, "invalid escape"@)
            &&& !starts_with(m, "control character"@)
            &&& offset < t@.len()
            &&& (t@[offset as int] == '}' || t@[offset as int] == ']')
        }) ==> r.0@ == match last_before(t@, offset as int) {
            Some(p) => if p == ',' {
                "One comma too many"@
            } else if p == ':' {
                "A property has no value"@
            } else {
                "Unexpected "@ + seq![t@[offset as int]] + " here"@
            },
            None => "Unexpected "@ + seq![t@[offset as int]] + " here"@,
        },
{
    let at: Option<char> = if offset < t.len() {
        Some(t[offset])
    } else {
        None
    };
    let msg = chars_of(err.message.as_str());
    if err.category == ErrorCategory::Eof {
        return (lit("The document is cut off"), lit("It ends part-way through a value — an opening { [ or \" was never closed. \
             This usually means the copy was truncated."));
    }
    if msg_starts_with(&msg, "trailing characters") {
        let mut d = lit("The document is complete by line ");
        push_decimal(&mut d, err.line as u128);
        let tail = lit(", but there is more text after it.");
        push_all(&mut d, &tail);
        return (lit("Extra content after the JSON ends"), d);
    }
    if msg_starts_with(&msg, "key must be a string") {
        if let Some(c) = at {
            if c == '}' || c == ']' {
                return (
                    lit("One comma too many"),
                    cat("There is a comma just before ", c, ". JSON does not allow a trailing comma."),
                );
            }
            if c == '\'' || c == '`' || c == '\u{2018}' || c == '\u{201c}' {
                let mut title = lit("Property names are wrapped in ");
                title.push(c);
                return (title, lit("JSON only accepts double quotes. This looks like a Python dict or a JavaScript \
                 object literal rather than JSON."));
            }
        }
        return (lit("A property name is not quoted"), lit("JSON needs double quotes around every property name, including numeric ones."));
    }
    if msg_starts_with(&msg, "invalid escape") {
        return (lit("Invalid escape inside a string"), lit("A backslash must be followed by one of \" \\ / b f n r t or u."));
    }
    if msg_starts_with(&msg, "control character") {
        return (lit("A line break inside a string"), lit("Strings cannot span lines. Use \\n for a newline and \\t for a tab."));
    }
    let c = match at {
        None => {
            return (lit("The document is cut off"), lit("It ends where a value was expected."));
        },
        Some(c) => c,
    };
    if c == '\'' || c == '`' || c == '\u{2018}' || c == '\u{2019}' || c == '\u{201c}' || c
        == '\u{201d}' {
        return (cat("Unexpected ", c, " here"), lit("JSON only uses double quotes (\"). This looks like text copied out of code or a \
             spreadsheet, which wraps it in the wrong quote."));
    }
    if alphabetic(c) {
        let (start, word) = word_around(t, offset);
        if start == 0 && !has_char(t, '{') && !has_char(t, '[') {
            return (lit("This does not look like JSON"), lit("Pandia also reads YAML, XML, CSV and cURL commands — paste one of those, or \
                     open a file instead."));
        }
        let mut title = lit("`");
        push_all(&mut title, &word);
        let tail = lit("` is not a JSON value");
        push_all(&mut title, &tail);
        return (title, lit("Text has to be in double quotes. Only true, false and null are allowed bare."));
    }
    if c == '}' || c == ']' {
        let before = slice_chars(t, 0, offset);
        let k = trim_end_len(&before);
        assert(before@ =~= t@.take(offset as int));
        proof {
            crate::text::lemma_ws_suffix_start_bounds(before@, before@.len() as int);
        }
        if k > 0 && before[k - 1] == ',' {
            return (lit("One comma too many"), cat("There is a comma with nothing after it, just before ", c, "."));
        }
        if k > 0 && before[k - 1] == ':' {
            return (lit("A property has no value"), lit("There is a name and a colon here, but nothing after them."));
        }
        let mut d: Vec<char> = Vec::new();
        d.push(c);
        let tail = lit(" arrives where a value was expected.");
        push_all(&mut d, &tail);
        return (cat("Unexpected ", c, " here"), d);
    }
    if c == ',' {
        return (lit("One comma too many"), lit("There is a comma where a value should be — usually a spare one before } or ]."));
    }
    if control(c) || invisible(c) {
        let mut d = lit("There is a hidden character (U+");
        push_hex4(&mut d, c as u32);
        let tail = lit(") here. It usually arrives with a copy \
                 from a browser, chat window or PDF.");
        push_all(&mut d, &tail);
        return (lit("An invisible character is in the way"), d);
    }
    (cat("Unexpected ", c, " here"), lit("A JSON value starts with {, [, a double quote, a digit, true, false or null."))
}

// ---------------------------------------------------------------------------
// Diagnosis
// ---------------------------------------------------------------------------

/// The name and the action label for a format that can be converted.
pub open spec fn convertible(kind: DetectKind) -> Option<(Seq<char>, Seq<char>)> {
    match kind {
        DetectKind::Yaml => Some(("YAML"@, "Convert from YAML"@)),
        DetectKind::Xml => Some(("XML"@, "Convert from XML"@)),
        DetectKind::Csv => Some(("CSV"@, "Convert from CSV"@)),
        DetectKind::Curl => Some(("a cURL command"@, "Convert the request"@)),
        DetectKind::Json | DetectKind::Unknown => None,
    }
}

/// The diagnosis that offers a format conversion, when detection found a
/// format other than JSON and converted it.
fn convertible_format(detected: Detected) -> (r: Option<Diagnosis>)
    ensures
        match r {
            Some(d) => {
                &&& !detected.failed
                &&& convertible(detected.kind) is Some
                &&& d.title@ == "This looks like "@ + convertible(detected.kind).unwrap().0
                    + ", not JSON"@
                &&& d.detail@ == "Pandia can convert it — the result opens as JSON."@
                &&& d.excerpt is None
                &&& d.fix is Some
                &&& d.fix.unwrap().label@ == convertible(detected.kind).unwrap().1
                &&& d.fix.unwrap().text@ == detected.json@
                &&& d.fix.unwrap().warnings@.len() == 0
            },
            None => detected.failed || convertible(detected.kind) is None,
        },
{
    if detected.failed {
        return None;
    }
    let (name, action) = match detected.kind {
        DetectKind::Yaml => ("YAML", "Convert from YAML"),
        DetectKind::Xml => ("XML", "Convert from XML"),
        DetectKind::Csv => ("CSV", "Convert from CSV"),
        DetectKind::Curl => ("a cURL command", "Convert the request"),
        DetectKind::Json | DetectKind::Unknown => {
            return None;
        },
    };
    let mut title = lit("This looks like ");
    let n = lit(name);
    push_all(&mut title, &n);
    let tail = lit(", not JSON");
    push_all(&mut title, &tail);
    Some(
        Diagnosis {
            title: string_of(&title),
            detail: "Pandia can convert it — the result opens as JSON.".to_owned(),
            excerpt: None,
            fix: Some(Fix { label: action.to_owned(), text: detected.json, warnings: Vec::new() }),
        },
    )
}

/// The fix that the repair pass offers, when it succeeded.
fn repair_fix(repaired: Repaired) -> (r: Option<Fix>)
    ensures
        match r {
            Some(f) => repaired.success && f.label@ == "Repair and load"@ && f.text@
                == repaired.repaired_json@ && f.warnings@ == repaired.warnings@,
            None => !repaired.success,
        },
{
    if !repaired.success {
        return None;
    }
    Some(
        Fix {
            label: "Repair and load".to_owned(),
            text: repaired.repaired_json,
            warnings: repaired.warnings,
        },
    )
}

/// Diagnoses `text`, given what format detection and the repair pass made of
/// it.
///
/// A text of white space only has nothing to load; a valid text is said to
/// be valid; a text that detection converted is offered the conversion;
/// otherwise the parser's refusal is explained (see [`explained`]) with an
/// excerpt at the failing character (see [`excerpt_of`]), and the repair is
/// offered when it succeeded.
pub fn diagnose(text: &str, detected: Detected, repaired: Repaired) -> (d: Diagnosis)
    ensures
        trim(text@).len() == 0 ==> d.title@ == "Nothing to load"@ && d.detail@
            == "The text is empty."@ && d.excerpt is None && d.fix is None,
        trim(text@).len() != 0 && json_parse(text@) is None ==> d.title@
            == "This is valid JSON"@ && d.detail@ == "Nothing to fix — try loading it again."@
            && d.excerpt is None && d.fix is None,
        trim(text@).len() != 0 && json_parse(text@) is Some && !detected.failed && convertible(
            detected.kind,
        ) is Some ==> {
            &&& d.title@ == "This looks like "@ + convertible(detected.kind).unwrap().0
                + ", not JSON"@
            &&& d.detail@ == "Pandia can convert it — the result opens as JSON."@
            &&& d.excerpt is None
            &&& d.fix is Some
            &&& d.fix.unwrap().label@ == convertible(detected.kind).unwrap().1
            &&& d.fix.unwrap().text@ == detected.json@
            &&& d.fix.unwrap().warnings@.len() == 0
        },
        trim(text@).len() != 0 && json_parse(text@) is Some && (detected.failed || convertible(
            detected.kind,
        ) is None) ==> ({
            let err = json_parse(text@).unwrap();
            let offset = offset_at(text@, err.0, err.1);
            &&& (d.title@, d.detail@) == explained(text@, err, offset)
            &&& match d.excerpt {
                Some(e) => excerpt_of(text@, offset, err.0 as u32, err.1 as u32) == Some(e@),
                None => excerpt_of(text@, offset, err.0 as u32, err.1 as u32) is None,
            }
            &&& match d.fix {
                Some(f) => repaired.success && f.label@ == "Repair and load"@ && f.text@
                    == repaired.repaired_json@ && f.warnings@ == repaired.warnings@,
                None => !repaired.success,
            }
        }),
{
    let t = chars_of(text);
    let a = skip_white_space(&t, 0);
    let b = trim_end_len(&t);
    proof {
        crate::text::lemma_ws_prefix_end_bounds(t@, 0);
        crate::text::lemma_ws_suffix_start_bounds(t@, t@.len() as int);
    }
    if a >= b {
        return Diagnosis {
            title: "Nothing to load".to_owned(),
            detail: "The text is empty.".to_owned(),
            excerpt: None,
            fix: None,
        };
    }
    assert(trim(t@).len() != 0);
    let err = match check_json(text) {
        None => {
            return Diagnosis {
                title: "This is valid JSON".to_owned(),
                detail: "Nothing to fix — try loading it again.".to_owned(),
                excerpt: None,
                fix: None,
            };
        },
        Some(e) => e,
    };
    let ghost detected_view = (detected.kind, detected.json@, detected.failed);
    if let Some(d) = convertible_format(detected) {
        return d;
    }
    let offset = offset_of(&t, err.line, err.column);
    let (title, detail) = explain(&t, &err, offset);
    #[verifier::truncate]
    let line = err.line as u32;
    #[verifier::truncate]
    let column = err.column as u32;
    Diagnosis {
        title: string_of(&title),
        detail: string_of(&detail),
        excerpt: build_excerpt(&t, offset, line, column),
        fix: repair_fix(repaired),
    }
}

/// Law: a refusal with "key must be a string" (neither at the end of the
/// input nor after a complete document) is explained by the character it
/// stands at: a closing `}` or `]` as one comma too many, and only such a
/// character; a character that is neither a closing bracket nor a quote
/// used for keys (or no character) as a property name that is not quoted.
pub proof fn lemma_key_refusal_explained(
    t: Seq<char>,
    err: (usize, usize, ErrorCategory, Seq<char>),
    offset: int,
)
    requires
        err.2 != ErrorCategory::Eof,
        !starts_with(err.3, "trailing characters"@),
        starts_with(err.3, "key must be a string"@),
    ensures
        (char_at(t, offset) matches Some(c) && (c == '}' || c == ']')) ==> explained(t, err, offset).0
            == "One comma too many"@,
        (char_at(t, offset) matches Some(c) && c != '}' && c != ']' && c != '\'' && c != '`' && c
            != '\u{2018}' && c != '\u{201c}') ==> explained(t, err, offset).0
            == "A property name is not quoted"@,
        char_at(t, offset) is None ==> explained(t, err, offset).0 == "A property name is not quoted"@,
        (char_at(t, offset) matches Some(c) && (c == '\'' || c == '`' || c == '\u{2018}' || c
            == '\u{201c}')) ==> explained(t, err, offset).0 == "Property names are wrapped in "@
            + seq![char_at(t, offset).unwrap()],
        explained(t, err, offset).0 == "One comma too many"@ ==> (char_at(t, offset) matches Some(c)
            && (c == '}' || c == ']')),
{
    reveal_strlit("One comma too many");
    reveal_strlit("A property name is not quoted");
    reveal_strlit("Property names are wrapped in ");
    assert("One comma too many"@.len() == 18);
    assert("A property name is not quoted"@.len() == 29);
    assert("Property names are wrapped in "@.len() == 30);
    assert("One comma too many"@ != "A property name is not quoted"@);
    if let Some(c) = char_at(t, offset) {
        let w = "Property names are wrapped in "@ + seq![c];
        assert(w.len() != "One comma too many"@.len());
    }
}

} // verus!

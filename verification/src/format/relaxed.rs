//! The JSONC / JSON5 pass: comments go, trailing commas go, single-quoted
//! strings and bare object keys get double quotes, JSON5 escapes and numbers
//! are rewritten, and non-finite numbers become `null`.
//!
//! The pass is a single left-to-right scan. Its meaning is given by [`relax`],
//! which runs [`step`] from one position to the next; each `step` is one arm of
//! the scanner.
use vstd::prelude::*;

use crate::format::number::{normalize_number, normalized};
use crate::text::{
    ascii_digit, ascii_hexdigit, ascii_ws, chars_of, is_ascii_digit, is_ascii_hexdigit,
    is_ascii_ws, push_all, range_is, slice_chars, string_of, trim_end_len, ws_suffix_start,
};

verus! {

/// What the pass knows about the enclosing container.
#[derive(Debug, Clone, Copy, PartialEq, Eq, Structural)]
pub enum Ctx {
    /// Inside an object; `key_pos` is set where a key is expected.
    Obj { key_pos: bool },
    Arr,
}

// ---------------------------------------------------------------------------
// The meaning of the pass
// ---------------------------------------------------------------------------

/// Index of the line feed that ends a `//` comment whose text starts at `j`
/// (or the end of the text).
pub open spec fn line_end(t: Seq<char>, j: int) -> int
    decreases t.len() - j,
{
    if 0 <= j < t.len() && t[j] != '\n' {
        line_end(t, j + 1)
    } else {
        j
    }
}

/// Where the `*/` of a block comment whose text starts at `j` begins (or the
/// last index, when the comment is not closed).
pub open spec fn block_stop(t: Seq<char>, j: int) -> int
    decreases t.len() - j,
{
    if 0 <= j && j + 1 < t.len() && !(t[j] == '*' && t[j + 1] == '/') {
        block_stop(t, j + 1)
    } else {
        j
    }
}

/// The line feeds of `t[a..b]`: a block comment keeps its line breaks.
pub open spec fn newlines(t: Seq<char>, a: int, b: int) -> Seq<char>
    decreases b - a,
{
    if a < b {
        (if t[a] == '\n' {
            seq!['\n']
        } else {
            Seq::empty()
        }) + newlines(t, a + 1, b)
    } else {
        Seq::empty()
    }
}

/// A backslash escape at `i` (with a character after it): where the scan goes
/// on, what it writes, and whether that differs from the input.
pub open spec fn escape(t: Seq<char>, i: int) -> (int, Seq<char>, bool) {
    let len = t.len();
    let n = t[i + 1];
    if n == '\n' {
        (i + 2, Seq::empty(), true)
    } else if n == '\r' {
        (if i + 2 < t.len() && t[i + 2] == '\n' {
            i + 3
        } else {
            i + 2
        }, Seq::empty(), true)
    } else if n == '\'' {
        (i + 2, seq!['\''], true)
    } else if n == 'v' {
        (i + 2, seq!['\\', 'u', '0', '0', '0', 'b'], true)
    } else if n == '0' && !(i + 2 < t.len() && is_ascii_digit(t[i + 2])) {
        (i + 2, seq!['\\', 'u', '0', '0', '0', '0'], true)
    } else if n == 'x' && i + 3 < t.len() && is_ascii_hexdigit(t[i + 2]) && is_ascii_hexdigit(
        t[i + 3],
    ) {
        (i + 4, seq!['\\', 'u', '0', '0', t[i + 2], t[i + 3]], true)
    } else {
        (i + 2, seq![t[i], t[i + 1]], false)
    }
}

/// The rest of a double-quoted string from `i`: the index after it, the
/// output so far and whether anything changed.
pub open spec fn dq(t: Seq<char>, i: int, out: Seq<char>, ch: bool) -> (int, Seq<char>, bool)
    decreases t.len() - i,
{
    if i < 0 || i >= t.len() {
        (i, out, ch)
    } else if t[i] == '"' {
        (i + 1, out.push('"'), ch)
    } else if t[i] == '\\' && i + 1 < t.len() {
        let e = escape(t, i);
        dq(t, e.0, out + e.1, ch || e.2)
    } else {
        dq(t, i + 1, out.push(t[i]), ch)
    }
}

/// The rest of a single-quoted string from `i`, written with double quotes.
pub open spec fn sq(t: Seq<char>, i: int, out: Seq<char>, ch: bool) -> (int, Seq<char>, bool)
    decreases t.len() - i,
{
    if i < 0 || i >= t.len() {
        (i, out, ch)
    } else if t[i] == '\'' {
        (i + 1, out.push('"'), ch)
    } else if t[i] == '"' {
        sq(t, i + 1, out + seq!['\\', '"'], ch)
    } else if t[i] == '\\' && i + 1 < t.len() {
        let e = escape(t, i);
        sq(t, e.0, out + e.1, ch || e.2)
    } else {
        sq(t, i + 1, out.push(t[i]), ch)
    }
}

/// Characters that end a bare token.
pub open spec fn is_token_delim(c: char) -> bool {
    is_ascii_ws(c) || c == '{' || c == '}' || c == '[' || c == ']' || c == ':' || c == ','
        || c == '"' || c == '\'' || c == '/'
}

/// End of the bare token that starts at `j`.
pub open spec fn token_stop(t: Seq<char>, j: int) -> int
    decreases t.len() - j,
{
    if 0 <= j < t.len() && !is_token_delim(t[j]) {
        token_stop(t, j + 1)
    } else {
        j
    }
}

/// A lower-case hexadecimal digit.
pub open spec fn hex_lower(n: nat) -> char {
    if n < 10 {
        crate::format::number::digit_char(n)
    } else if n == 10 {
        'a'
    } else if n == 11 {
        'b'
    } else if n == 12 {
        'c'
    } else if n == 13 {
        'd'
    } else if n == 14 {
        'e'
    } else {
        'f'
    }
}

/// How `serde_json` writes one character inside a string literal: `"` and
/// `\\` behind a backslash; backspace, tab, line feed, form feed and carriage
/// return as `\\b`, `\\t`, `\\n`, `\\f`, `\\r`; any other control character below
/// U+0020 as `\\u00` and two lower-case hexadecimal digits; any other
/// character as it is.
pub open spec fn json_escaped(c: char) -> Seq<char> {
    if c == '"' {
        seq!['\\', '"']
    } else if c == '\\' {
        seq!['\\', '\\']
    } else if c == '\x08' {
        seq!['\\', 'b']
    } else if c == '\t' {
        seq!['\\', 't']
    } else if c == '\n' {
        seq!['\\', 'n']
    } else if c == '\x0C' {
        seq!['\\', 'f']
    } else if c == '\r' {
        seq!['\\', 'r']
    } else if '\x1f' >= c {
        let code = c as nat;
        let hi = hex_lower(code / 16);
        let lo = hex_lower(code % 16);
        seq!['\\', 'u', '0', '0', hi, lo]
    } else {
        seq![c]
    }
}

/// The characters of a string, each as `serde_json` writes it.
pub open spec fn json_escaped_all(s: Seq<char>) -> Seq<char>
    decreases s.len(),
{
    if s.len() == 0 {
        Seq::empty()
    } else {
        json_escaped_all(s.drop_last()) + json_escaped(s.last())
    }
}

/// A string as `serde_json::to_string` writes it: its characters escaped
/// (see [`json_escaped`]) between double quotes.
pub open spec fn json_quote(s: Seq<char>) -> Seq<char> {
    seq!['"'] + json_escaped_all(s) + seq!['"']
}

/// A bare key, as a JSON string.
pub open spec fn quoted_key(tok: Seq<char>) -> Seq<char> {
    json_quote(tok)
}

pub open spec fn is_literal(tok: Seq<char>) -> bool {
    tok == seq!['t', 'r', 'u', 'e'] || tok == seq!['f', 'a', 'l', 's', 'e'] || tok == seq![
        'n',
        'u',
        'l',
        'l',
    ]
}

/// The JSON5 / JavaScript spellings of values that JSON cannot hold.
pub open spec fn is_non_finite(tok: Seq<char>) -> bool {
    tok == seq!['I', 'n', 'f', 'i', 'n', 'i', 't', 'y'] || tok == seq![
        '-',
        'I',
        'n',
        'f',
        'i',
        'n',
        'i',
        't',
        'y',
    ] || tok == seq!['+', 'I', 'n', 'f', 'i', 'n', 'i', 't', 'y'] || tok == seq!['N', 'a', 'N']
        || tok == seq!['-', 'N', 'a', 'N'] || tok == seq!['+', 'N', 'a', 'N'] || tok == seq![
        'u',
        'n',
        'd',
        'e',
        'f',
        'i',
        'n',
        'e',
        'd',
    ]
}

pub open spec fn at_key(stack: Seq<Ctx>) -> bool {
    stack.len() > 0 && stack.last() == (Ctx::Obj { key_pos: true })
}

/// A bare token written out: a key gets quoted, `true` / `false` / `null`
/// stay, non-finite numbers become `null`, numbers are normalised.
pub open spec fn emitted(tok: Seq<char>, stack: Seq<Ctx>) -> (Seq<char>, bool) {
    if at_key(stack) {
        (quoted_key(tok), true)
    } else if is_literal(tok) {
        (tok, false)
    } else if is_non_finite(tok) {
        (seq!['n', 'u', 'l', 'l'], true)
    } else {
        normalized(tok)
    }
}

/// The output with the comma dropped that ends it (white space aside), if
/// there is one.
pub open spec fn drop_comma(out: Seq<char>) -> (Seq<char>, bool) {
    let end = ws_suffix_start(out, out.len() as int);
    if end >= 1 && out[end - 1] == ',' {
        (out.remove(end - 1), true)
    } else {
        (out, false)
    }
}

pub open spec fn popped(stack: Seq<Ctx>) -> Seq<Ctx> {
    if stack.len() > 0 {
        stack.drop_last()
    } else {
        stack
    }
}

pub open spec fn with_key_pos(stack: Seq<Ctx>, v: bool) -> Seq<Ctx> {
    if stack.len() > 0 && stack.last() is Obj {
        stack.update(stack.len() - 1, Ctx::Obj { key_pos: v })
    } else {
        stack
    }
}

/// State of the pass: position, output, container stack, and whether the
/// output differs from the input.
pub struct Relax {
    pub i: int,
    pub out: Seq<char>,
    pub stack: Seq<Ctx>,
    pub changed: bool,
}

/// One step of the pass at position `st.i`.
pub open spec fn step(t: Seq<char>, st: Relax) -> Relax {
    let i = st.i;
    let c = t[i];
    if c == '/' && i + 1 < t.len() && t[i + 1] == '/' {
        Relax { i: line_end(t, i + 2), changed: true, ..st }
    } else if c == '/' && i + 1 < t.len() && t[i + 1] == '*' {
        let stop = block_stop(t, i + 2);
        Relax {
            i: if stop + 2 < t.len() {
                stop + 2
            } else {
                t.len() as int
            },
            out: st.out + newlines(t, i + 2, stop),
            changed: true,
            ..st
        }
    } else if c == '"' {
        let r = dq(t, i + 1, st.out.push('"'), st.changed);
        Relax { i: r.0, out: r.1, changed: r.2, ..st }
    } else if c == '\'' {
        let r = sq(t, i + 1, st.out.push('"'), true);
        Relax { i: r.0, out: r.1, changed: r.2, ..st }
    } else if c == '{' {
        Relax {
            i: i + 1,
            out: st.out.push('{'),
            stack: st.stack.push(Ctx::Obj { key_pos: true }),
            ..st
        }
    } else if c == '[' {
        Relax { i: i + 1, out: st.out.push('['), stack: st.stack.push(Ctx::Arr), ..st }
    } else if c == '}' || c == ']' {
        let d = drop_comma(st.out);
        Relax { i: i + 1, out: d.0.push(c), stack: popped(st.stack), changed: st.changed || d.1 }
    } else if c == ':' {
        Relax { i: i + 1, out: st.out.push(':'), stack: with_key_pos(st.stack, false), ..st }
    } else if c == ',' {
        Relax { i: i + 1, out: st.out.push(','), stack: with_key_pos(st.stack, true), ..st }
    } else if is_ascii_ws(c) {
        Relax { i: i + 1, out: st.out.push(c), ..st }
    } else {
        let e = token_stop(t, i);
        if e == i {
            Relax { i: i + 1, out: st.out.push(c), ..st }
        } else {
            let em = emitted(t.subrange(i, e), st.stack);
            Relax { i: e, out: st.out + em.0, changed: st.changed || em.1, ..st }
        }
    }
}

proof fn lemma_line_end(t: Seq<char>, j: int)
    requires
        0 <= j <= t.len(),
    ensures
        j <= line_end(t, j) <= t.len(),
    decreases t.len() - j,
{
    if j < t.len() && t[j] != '\n' {
        lemma_line_end(t, j + 1);
    }
}

proof fn lemma_block_stop(t: Seq<char>, j: int)
    requires
        0 <= j <= t.len(),
    ensures
        j <= block_stop(t, j),
        block_stop(t, j) <= t.len(),
    decreases t.len() - j,
{
    if j + 1 < t.len() && !(t[j] == '*' && t[j + 1] == '/') {
        lemma_block_stop(t, j + 1);
    }
}

proof fn lemma_dq(t: Seq<char>, i: int, out: Seq<char>, ch: bool)
    requires
        0 <= i <= t.len(),
    ensures
        i <= dq(t, i, out, ch).0 <= t.len(),
    decreases t.len() - i,
{
    if i < t.len() && t[i] != '"' {
        if t[i] == '\\' && i + 1 < t.len() {
            let e = escape(t, i);
            lemma_dq(t, e.0, out + e.1, ch || e.2);
        } else {
            lemma_dq(t, i + 1, out.push(t[i]), ch);
        }
    }
}

proof fn lemma_sq(t: Seq<char>, i: int, out: Seq<char>, ch: bool)
    requires
        0 <= i <= t.len(),
    ensures
        i <= sq(t, i, out, ch).0 <= t.len(),
    decreases t.len() - i,
{
    if i < t.len() && t[i] != '\'' {
        if t[i] == '"' {
            lemma_sq(t, i + 1, out + seq!['\\', '"'], ch);
        } else if t[i] == '\\' && i + 1 < t.len() {
            let e = escape(t, i);
            lemma_sq(t, e.0, out + e.1, ch || e.2);
        } else {
            lemma_sq(t, i + 1, out.push(t[i]), ch);
        }
    }
}

proof fn lemma_token_stop(t: Seq<char>, j: int)
    requires
        0 <= j <= t.len(),
    ensures
        j <= token_stop(t, j) <= t.len(),
    decreases t.len() - j,
{
    if j < t.len() && !is_token_delim(t[j]) {
        lemma_token_stop(t, j + 1);
    }
}

/// Each step moves forward and stays inside the text.
pub proof fn lemma_step_advances(t: Seq<char>, st: Relax)
    requires
        0 <= st.i < t.len(),
    ensures
        st.i < step(t, st).i <= t.len(),
{
    let i = st.i;
    lemma_line_end(t, i + 1);
    if i + 2 <= t.len() {
        lemma_line_end(t, i + 2);
        lemma_block_stop(t, i + 2);
    }
    lemma_dq(t, i + 1, st.out.push('"'), st.changed);
    lemma_sq(t, i + 1, st.out.push('"'), true);
    lemma_token_stop(t, i);
}

/// The pass from state `st` to the end of the text.
pub open spec fn relax(t: Seq<char>, st: Relax) -> Relax
    decreases t.len() - st.i,
{
    if st.i < 0 || st.i >= t.len() {
        st
    } else {
        proof {
            lemma_step_advances(t, st);
        }
        relax(t, step(t, st))
    }
}

pub open spec fn relax_start() -> Relax {
    Relax { i: 0, out: Seq::empty(), stack: Seq::empty(), changed: false }
}

/// The text rewritten as JSON, or `None` when the pass changed nothing (so
/// the text has no JSONC / JSON5 feature to repair).
pub open spec fn relaxed(t: Seq<char>) -> Option<Seq<char>> {
    let r = relax(t, relax_start());
    if r.changed {
        Some(r.out)
    } else {
        None
    }
}

// ---------------------------------------------------------------------------
// The scanner
// ---------------------------------------------------------------------------

fn line_end_exec(t: &[char], j: usize) -> (r: usize)
    requires
        j <= t@.len(),
    ensures
        r as int == line_end(t@, j as int),
{
    let mut k = j;
    while k < t.len() && t[k] != '\n'
        invariant
            j <= k <= t@.len(),
            line_end(t@, k as int) == line_end(t@, j as int),
        decreases t@.len() - k,
    {
        k += 1;
    }
    k
}

/// Skips a block comment whose text starts at `j`, keeping its line feeds;
/// returns where its `*/` begins.
fn block_comment(t: &[char], j: usize, out: &mut Vec<char>) -> (r: usize)
    requires
        j <= t@.len(),
    ensures
        r as int == block_stop(t@, j as int),
        final(out)@ == old(out)@ + newlines(t@, j as int, r as int),
{
    let n = t.len();
    let mut k = j;
    while k < n && n - k > 1 && !(t[k] == '*' && t[k + 1] == '/')
        invariant
            n == t@.len(),
            j <= k <= t@.len(),
            block_stop(t@, k as int) == block_stop(t@, j as int),
            out@ == old(out)@ + newlines(t@, j as int, k as int),
        decreases t@.len() - k,
    {
        if t[k] == '\n' {
            out.push('\n');
        }
        proof {
            lemma_newlines_push(t@, j as int, k as int);
        }
        k += 1;
    }
    k
}

proof fn lemma_newlines_push(t: Seq<char>, a: int, b: int)
    requires
        0 <= a <= b < t.len(),
    ensures
        newlines(t, a, b + 1) == newlines(t, a, b) + (if t[b] == '\n' {
            seq!['\n']
        } else {
            Seq::empty()
        }),
    decreases b - a,
{
    if a < b {
        lemma_newlines_push(t, a + 1, b);
        assert(newlines(t, a, b + 1) =~= (if t[a] == '\n' {
            seq!['\n']
        } else {
            Seq::empty()
        }) + newlines(t, a + 1, b + 1));
    } else {
        assert(newlines(t, b + 1, b + 1) =~= Seq::<char>::empty());
        assert(newlines(t, a, b) =~= Seq::<char>::empty());
    }
}

/// Rewrites the escape at `i` (a backslash with a character after it).
fn copy_escape(t: &[char], i: usize, out: &mut Vec<char>, changed: &mut bool) -> (r: usize)
    requires
        i + 1 < t@.len(),
        t@[i as int] == '\\',
    ensures
        r as int == escape(t@, i as int).0,
        final(out)@ == old(out)@ + escape(t@, i as int).1,
        *final(changed) == (*old(changed) || escape(t@, i as int).2),
        r <= t@.len(),
{
    let len = t.len();
    let n = t[i + 1];
    if n == '\n' {
        *changed = true;
        assert(old(out)@ + Seq::<char>::empty() =~= old(out)@);
        i + 2
    } else if n == '\r' {
        *changed = true;
        assert(old(out)@ + Seq::<char>::empty() =~= old(out)@);
        if i + 2 < t.len() && t[i + 2] == '\n' {
            i + 3
        } else {
            i + 2
        }
    } else if n == '\'' {
        *changed = true;
        out.push('\'');
        assert(out@ =~= old(out)@ + seq!['\'']);
        i + 2
    } else if n == 'v' {
        *changed = true;
        push_all(out, &['\\', 'u', '0', '0', '0', 'b']);
        assert(out@ =~= old(out)@ + seq!['\\', 'u', '0', '0', '0', 'b']);
        i + 2
    } else if n == '0' && !(i + 2 < t.len() && ascii_digit(t[i + 2])) {
        *changed = true;
        push_all(out, &['\\', 'u', '0', '0', '0', '0']);
        assert(out@ =~= old(out)@ + seq!['\\', 'u', '0', '0', '0', '0']);
        i + 2
    } else if n == 'x' && len - i > 3 && ascii_hexdigit(t[i + 2]) && ascii_hexdigit(t[i + 3]) {
        *changed = true;
        push_all(out, &['\\', 'u', '0', '0']);
        out.push(t[i + 2]);
        out.push(t[i + 3]);
        assert(out@ =~= old(out)@ + seq!['\\', 'u', '0', '0', t@[i + 2], t@[i + 3]]);
        i + 4
    } else {
        out.push(t[i]);
        out.push(n);
        assert(out@ =~= old(out)@ + seq![t@[i as int], t@[i + 1]]);
        i + 2
    }
}

/// Copies the double-quoted string that starts at `start`; returns the index
/// after it (the end of the text when it is not closed).
fn copy_double_quoted(t: &[char], start: usize, out: &mut Vec<char>, changed: &mut bool) -> (r:
    usize)
    requires
        start < t@.len(),
    ensures
        (r as int, final(out)@, *final(changed)) == dq(
            t@,
            start + 1,
            old(out)@.push('"'),
            *old(changed),
        ),
{
    let len = t.len();
    out.push('"');
    let mut i = start + 1;
    while i < t.len()
        invariant
            start < i <= t@.len(),
            dq(t@, i as int, out@, *changed) == dq(
                t@,
                start + 1,
                old(out)@.push('"'),
                *old(changed),
            ),
        decreases t@.len() - i,
    {
        let c = t[i];
        if c == '"' {
            out.push('"');
            return i + 1;
        } else if c == '\\' && i + 1 < t.len() {
            i = copy_escape(t, i, out, changed);
        } else {
            out.push(c);
            i += 1;
        }
    }
    i
}

/// Copies the single-quoted string that starts at `start` as a double-quoted
/// one; returns the index after it.
fn copy_single_quoted(t: &[char], start: usize, out: &mut Vec<char>, changed: &mut bool) -> (r:
    usize)
    requires
        start < t@.len(),
    ensures
        (r as int, final(out)@, *final(changed)) == sq(
            t@,
            start + 1,
            old(out)@.push('"'),
            *old(changed),
        ),
{
    let len = t.len();
    out.push('"');
    let mut i = start + 1;
    while i < t.len()
        invariant
            start < i <= t@.len(),
            sq(t@, i as int, out@, *changed) == sq(
                t@,
                start + 1,
                old(out)@.push('"'),
                *old(changed),
            ),
        decreases t@.len() - i,
    {
        let c = t[i];
        if c == '\'' {
            out.push('"');
            return i + 1;
        } else if c == '"' {
            let ghost before = out@;
            out.push('\\');
            out.push('"');
            assert(out@ =~= before + seq!['\\', '"']);
            i += 1;
        } else if c == '\\' && i + 1 < t.len() {
            i = copy_escape(t, i, out, changed);
        } else {
            out.push(c);
            i += 1;
        }
    }
    i
}

fn token_delim(c: char) -> (r: bool)
    ensures
        r == is_token_delim(c),
{
    ascii_ws(c) || c == '{' || c == '}' || c == '[' || c == ']' || c == ':' || c == ',' || c
        == '"' || c == '\'' || c == '/'
}

fn token_stop_exec(t: &[char], j: usize) -> (r: usize)
    requires
        j <= t@.len(),
    ensures
        r as int == token_stop(t@, j as int),
{
    let mut k = j;
    while k < t.len() && !token_delim(t[k])
        invariant
            j <= k <= t@.len(),
            token_stop(t@, k as int) == token_stop(t@, j as int),
        decreases t@.len() - k,
    {
        k += 1;
    }
    k
}

/// `serde_json::to_string` on a string: its JSON string literal.
#[verifier::external_body]
fn serde_quote(s: &str) -> (r: Option<String>)
    ensures
        r is Some && r.unwrap()@ == json_quote(s@),
{
    serde_json::to_string(s).ok()
}

/// Appends `tok` as a JSON string.
fn push_json_string(tok: &[char], out: &mut Vec<char>)
    ensures
        final(out)@ == old(out)@ + quoted_key(tok@),
{
    let s = string_of(tok);
    match serde_quote(s.as_str()) {
        Some(q) => {
            let qc = chars_of(q.as_str());
            push_all(out, &qc);
        },
        None => {
            out.push('"');
            push_all(out, tok);
            out.push('"');
            assert(out@ =~= old(out)@ + (seq!['"'] + tok@ + seq!['"']));
        },
    }
}

fn literal_token(tok: &[char]) -> (r: bool)
    ensures
        r == is_literal(tok@),
{
    let n = tok.len();
    assert(tok@.subrange(0, n as int) =~= tok@);
    range_is(tok, 0, n, &['t', 'r', 'u', 'e']) || range_is(tok, 0, n, &['f', 'a', 'l', 's', 'e'])
        || range_is(tok, 0, n, &['n', 'u', 'l', 'l'])
}

fn non_finite_token(tok: &[char]) -> (r: bool)
    ensures
        r == is_non_finite(tok@),
{
    let n = tok.len();
    assert(tok@.subrange(0, n as int) =~= tok@);
    range_is(tok, 0, n, &['I', 'n', 'f', 'i', 'n', 'i', 't', 'y']) || range_is(
        tok,
        0,
        n,
        &['-', 'I', 'n', 'f', 'i', 'n', 'i', 't', 'y'],
    ) || range_is(tok, 0, n, &['+', 'I', 'n', 'f', 'i', 'n', 'i', 't', 'y']) || range_is(
        tok,
        0,
        n,
        &['N', 'a', 'N'],
    ) || range_is(tok, 0, n, &['-', 'N', 'a', 'N']) || range_is(tok, 0, n, &['+', 'N', 'a', 'N'])
        || range_is(tok, 0, n, &['u', 'n', 'd', 'e', 'f', 'i', 'n', 'e', 'd'])
}

/// Writes a bare token (see [`emitted`]); says whether it had to change.
fn emit_bare_token(tok: &[char], stack: &[Ctx], out: &mut Vec<char>) -> (changed: bool)
    ensures
        final(out)@ == old(out)@ + emitted(tok@, stack@).0,
        changed == emitted(tok@, stack@).1,
{
    let n = stack.len();
    if n > 0 && stack[n - 1] == (Ctx::Obj { key_pos: true }) {
        push_json_string(tok, out);
        return true;
    }
    assert(tok@.subrange(0, tok@.len() as int) =~= tok@);
    if literal_token(tok) {
        push_all(out, tok);
        return false;
    }
    if non_finite_token(tok) {
        push_all(out, &['n', 'u', 'l', 'l']);
        return true;
    }
    normalize_number(tok, out)
}

/// Drops the comma that ends `out` (trailing white space aside); says
/// whether there was one.
fn drop_trailing_comma(out: &mut Vec<char>) -> (dropped: bool)
    ensures
        (final(out)@, dropped) == drop_comma(old(out)@),
{
    let end = trim_end_len(out.as_slice());
    proof {
        crate::text::lemma_ws_suffix_start_bounds(out@, out@.len() as int);
    }
    if end >= 1 && out[end - 1] == ',' {
        out.remove(end - 1);
        true
    } else {
        false
    }
}

/// The pass on the characters of a text (see [`relaxed`]).
pub fn relaxed_chars(t: &[char]) -> (r: Option<Vec<char>>)
    ensures
        match r {
            Some(v) => relaxed(t@) == Some(v@),
            None => relaxed(t@) is None,
        },
{
    let mut out: Vec<char> = Vec::new();
    let mut stack: Vec<Ctx> = Vec::new();
    let mut changed = false;
    let mut i: usize = 0;
    while i < t.len()
        invariant
            i <= t@.len(),
            relax(t@, Relax { i: i as int, out: out@, stack: stack@, changed }) == relax(
                t@,
                relax_start(),
            ),
        decreases t@.len() - i,
    {
        let ghost st = Relax { i: i as int, out: out@, stack: stack@, changed };
        proof {
            lemma_step_advances(t@, st);
        }
        let c = t[i];
        let n = t.len();
        if c == '/' && i + 1 < n && t[i + 1] == '/' {
            changed = true;
            i = line_end_exec(t, i + 2);
        } else if c == '/' && i + 1 < n && t[i + 1] == '*' {
            changed = true;
            let stop = block_comment(t, i + 2, &mut out);
            proof {
                lemma_block_stop(t@, i + 2);
            }
            i = if n - stop > 2 {
                stop + 2
            } else {
                n
            };
        } else if c == '"' {
            i = copy_double_quoted(t, i, &mut out, &mut changed);
        } else if c == '\'' {
            changed = true;
            i = copy_single_quoted(t, i, &mut out, &mut changed);
        } else if c == '{' {
            out.push('{');
            stack.push(Ctx::Obj { key_pos: true });
            i += 1;
        } else if c == '[' {
            out.push('[');
            stack.push(Ctx::Arr);
            i += 1;
        } else if c == '}' || c == ']' {
            let d = drop_trailing_comma(&mut out);
            changed = changed || d;
            out.push(c);
            stack.pop();
            i += 1;
        } else if c == ':' || c == ',' {
            out.push(c);
            let k = stack.len();
            if k > 0 {
                if let Ctx::Obj { .. } = stack[k - 1] {
                    stack.set(k - 1, Ctx::Obj { key_pos: c == ',' });
                }
            }
            i += 1;
        } else if ascii_ws(c) {
            out.push(c);
            i += 1;
        } else {
            let e = token_stop_exec(t, i);
            if e == i {
                out.push(c);
                i += 1;
            } else {
                let tok = slice_chars(t, i, e);
                let ch = emit_bare_token(&tok, stack.as_slice(), &mut out);
                changed = changed || ch;
                i = e;
            }
        }
        assert(Relax { i: i as int, out: out@, stack: stack@, changed } == step(t@, st));
    }
    if changed {
        Some(out)
    } else {
        None
    }
}

/// The JSONC / JSON5 pass on a text: `Some` with the rewritten text when
/// anything had to change, `None` when nothing did.
pub fn relaxed_to_json(text: &str) -> (r: Option<String>)
    ensures
        match r {
            Some(s) => relaxed(text@) == Some(s@),
            None => relaxed(text@) is None,
        },
{
    let t = chars_of(text);
    match relaxed_chars(&t) {
        Some(v) => Some(string_of(&v)),
        None => None,
    }
}

} // verus!

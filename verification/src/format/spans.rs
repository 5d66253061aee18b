//! The top-level values of a newline-delimited document (NDJSON, JSON Lines,
//! RFC 7464 JSON text sequences) and their joining into one JSON array.
use vstd::prelude::*;

use crate::text::{ascii_ws, chars_of, is_ascii_ws, push_range, string_of};

verus! {

// ---------------------------------------------------------------------------
// Top-level values of a newline-delimited document
// ---------------------------------------------------------------------------

/// Separators between records: ASCII white space and the RFC 7464 record
/// separator U+001E.
pub open spec fn is_sep(c: char) -> bool {
    is_ascii_ws(c) || c == '\u{1e}'
}

fn sep(c: char) -> (r: bool)
    ensures
        r == is_sep(c),
{
    ascii_ws(c) || c == '\u{1e}'
}

/// First index at or after `i` that is not a separator.
pub open spec fn sep_end(t: Seq<char>, i: int) -> int
    decreases t.len() - i,
{
    if 0 <= i < t.len() && is_sep(t[i]) {
        sep_end(t, i + 1)
    } else {
        i
    }
}

/// End of a double-quoted string whose body starts at `j`; `esc` is set when
/// the previous character was an unconsumed backslash.
pub open spec fn quoted_end(t: Seq<char>, j: int, esc: bool) -> int
    decreases t.len() - j,
{
    if j >= t.len() {
        t.len() as int
    } else if j < 0 {
        j
    } else if esc {
        quoted_end(t, j + 1, false)
    } else if t[j] == '\\' {
        quoted_end(t, j + 1, true)
    } else if t[j] == '"' {
        j + 1
    } else {
        quoted_end(t, j + 1, false)
    }
}

/// End of a bracketed value, scanning from `j` with nesting `depth`, inside a
/// string or not, and after a backslash or not.
pub open spec fn container_end(t: Seq<char>, j: int, depth: int, in_str: bool, esc: bool) -> int
    decreases t.len() - j,
{
    if j >= t.len() {
        t.len() as int
    } else if j < 0 {
        j
    } else if in_str {
        if esc {
            container_end(t, j + 1, depth, true, false)
        } else if t[j] == '\\' {
            container_end(t, j + 1, depth, true, true)
        } else if t[j] == '"' {
            container_end(t, j + 1, depth, false, false)
        } else {
            container_end(t, j + 1, depth, true, false)
        }
    } else if t[j] == '"' {
        container_end(t, j + 1, depth, true, esc)
    } else if t[j] == '{' || t[j] == '[' {
        container_end(t, j + 1, depth + 1, false, esc)
    } else if t[j] == '}' || t[j] == ']' {
        if depth - 1 == 0 {
            j + 1
        } else {
            container_end(t, j + 1, depth - 1, false, esc)
        }
    } else {
        container_end(t, j + 1, depth, false, esc)
    }
}

/// End of a bare token: the first separator at or after `j`.
pub open spec fn bare_end(t: Seq<char>, j: int) -> int
    decreases t.len() - j,
{
    if 0 <= j < t.len() && !is_sep(t[j]) {
        bare_end(t, j + 1)
    } else {
        j
    }
}

/// End of the top-level value that starts at `s`.
pub open spec fn value_end(t: Seq<char>, s: int) -> int {
    if t[s] == '{' || t[s] == '[' {
        container_end(t, s, 0, false, false)
    } else if t[s] == '"' {
        quoted_end(t, s + 1, false)
    } else {
        bare_end(t, s)
    }
}

pub proof fn lemma_sep_end(t: Seq<char>, i: int)
    requires
        0 <= i <= t.len(),
    ensures
        i <= sep_end(t, i) <= t.len(),
        forall|k: int| i <= k < sep_end(t, i) ==> is_sep(#[trigger] t[k]),
        sep_end(t, i) < t.len() ==> !is_sep(t[sep_end(t, i)]),
    decreases t.len() - i,
{
    if i < t.len() && is_sep(t[i]) {
        lemma_sep_end(t, i + 1);
    }
}

proof fn lemma_quoted_end(t: Seq<char>, j: int, esc: bool)
    requires
        0 <= j <= t.len(),
    ensures
        j <= quoted_end(t, j, esc) <= t.len(),
    decreases t.len() - j,
{
    if j < t.len() {
        if esc || t[j] != '"' {
            lemma_quoted_end(t, j + 1, t[j] == '\\' && !esc);
        }
    }
}

proof fn lemma_container_end(t: Seq<char>, j: int, depth: int, in_str: bool, esc: bool)
    requires
        0 <= j < t.len(),
    ensures
        j < container_end(t, j, depth, in_str, esc) <= t.len(),
    decreases t.len() - j,
{
    let c = t[j];
    let (d2, s2, e2) = if in_str {
        if esc {
            (depth, true, false)
        } else if c == '\\' {
            (depth, true, true)
        } else if c == '"' {
            (depth, false, false)
        } else {
            (depth, true, false)
        }
    } else if c == '"' {
        (depth, true, esc)
    } else if c == '{' || c == '[' {
        (depth + 1, false, esc)
    } else if c == '}' || c == ']' {
        (depth - 1, false, esc)
    } else {
        (depth, false, esc)
    };
    if !in_str && (c == '}' || c == ']') && depth - 1 == 0 {
    } else {
        assert(container_end(t, j, depth, in_str, esc) == container_end(t, j + 1, d2, s2, e2));
        if j + 1 < t.len() {
            lemma_container_end(t, j + 1, d2, s2, e2);
        }
    }
}

proof fn lemma_bare_end(t: Seq<char>, j: int)
    requires
        0 <= j <= t.len(),
    ensures
        j <= bare_end(t, j) <= t.len(),
        forall|k: int| j <= k < bare_end(t, j) ==> !is_sep(#[trigger] t[k]),
        bare_end(t, j) < t.len() ==> is_sep(t[bare_end(t, j)]),
    decreases t.len() - j,
{
    if j < t.len() && !is_sep(t[j]) {
        lemma_bare_end(t, j + 1);
    }
}

pub proof fn lemma_value_end(t: Seq<char>, s: int)
    requires
        0 <= s < t.len(),
        !is_sep(t[s]),
    ensures
        s < value_end(t, s) <= t.len(),
{
    if t[s] == '{' || t[s] == '[' {
        lemma_container_end(t, s, 0, false, false);
    } else if t[s] == '"' {
        lemma_quoted_end(t, s + 1, false);
    } else {
        lemma_bare_end(t, s);
    }
}

/// The top-level values of `t` from index `i` on, as `(start, end)` pairs.
pub open spec fn spans_from(t: Seq<char>, i: int) -> Seq<(int, int)>
    decreases t.len() - i,
{
    if i < 0 || i > t.len() {
        Seq::empty()
    } else {
        let s = sep_end(t, i);
        if s >= t.len() {
            Seq::empty()
        } else {
            let e = value_end(t, s);
            proof {
                lemma_sep_end(t, i);
                lemma_value_end(t, s);
            }
            seq![(s, e)] + spans_from(t, e)
        }
    }
}

/// The top-level values of `t`.
pub open spec fn spans(t: Seq<char>) -> Seq<(int, int)> {
    spans_from(t, 0)
}

pub open spec fn pairs_view(v: Seq<(usize, usize)>) -> Seq<(int, int)> {
    v.map_values(|p: (usize, usize)| (p.0 as int, p.1 as int))
}

fn sep_end_exec(t: &[char], i: usize) -> (r: usize)
    requires
        i <= t@.len(),
    ensures
        r as int == sep_end(t@, i as int),
{
    let mut k = i;
    while k < t.len() && sep(t[k])
        invariant
            i <= k <= t@.len(),
            sep_end(t@, k as int) == sep_end(t@, i as int),
        decreases t@.len() - k,
    {
        k += 1;
    }
    k
}

fn container_end_exec(t: &[char], start: usize) -> (r: usize)
    requires
        start < t@.len(),
        t@[start as int] == '{' || t@[start as int] == '[',
    ensures
        r as int == container_end(t@, start as int, 0, false, false),
{
    let n = t.len();
    let mut depth: usize = 1;
    let mut in_str = false;
    let mut esc = false;
    let mut i = start + 1;
    while i < t.len()
        invariant
            start < i <= t@.len(),
            1 <= depth <= i - start,
            container_end(t@, i as int, depth as int, in_str, esc) == container_end(
                t@,
                start as int,
                0,
                false,
                false,
            ),
        decreases t@.len() - i,
    {
        let c = t[i];
        if in_str {
            if esc {
                esc = false;
            } else if c == '\\' {
                esc = true;
            } else if c == '"' {
                in_str = false;
            }
        } else {
            if c == '"' {
                in_str = true;
            } else if c == '{' || c == '[' {
                depth += 1;
            } else if c == '}' || c == ']' {
                depth -= 1;
                if depth == 0 {
                    return i + 1;
                }
            }
        }
        i += 1;
    }
    i
}

fn quoted_end_exec(t: &[char], start: usize) -> (r: usize)
    requires
        start <= t@.len(),
    ensures
        r as int == quoted_end(t@, start as int, false),
{
    let mut i = start;
    let mut esc = false;
    while i < t.len()
        invariant
            start <= i <= t@.len(),
            quoted_end(t@, i as int, esc) == quoted_end(t@, start as int, false),
        decreases t@.len() - i,
    {
        let c = t[i];
        if esc {
            esc = false;
        } else if c == '\\' {
            esc = true;
        } else if c == '"' {
            return i + 1;
        }
        i += 1;
    }
    i
}

fn bare_end_exec(t: &[char], start: usize) -> (r: usize)
    requires
        start <= t@.len(),
    ensures
        r as int == bare_end(t@, start as int),
{
    let mut i = start;
    while i < t.len() && !sep(t[i])
        invariant
            start <= i <= t@.len(),
            bare_end(t@, i as int) == bare_end(t@, start as int),
        decreases t@.len() - i,
    {
        i += 1;
    }
    i
}

fn value_end_exec(t: &[char], s: usize) -> (r: usize)
    requires
        s < t@.len(),
    ensures
        r as int == value_end(t@, s as int),
{
    if t[s] == '{' || t[s] == '[' {
        container_end_exec(t, s)
    } else if t[s] == '"' {
        quoted_end_exec(t, s + 1)
    } else {
        bare_end_exec(t, s)
    }
}

/// The `(start, end)` character ranges of the top-level values of `t`.
pub fn top_level_spans(t: &[char]) -> (r: Vec<(usize, usize)>)
    ensures
        pairs_view(r@) == spans(t@),
{
    let mut out: Vec<(usize, usize)> = Vec::new();
    let mut i: usize = 0;
    while i < t.len()
        invariant
            i <= t@.len(),
            pairs_view(out@) + spans_from(t@, i as int) == spans(t@),
        decreases t@.len() - i,
    {
        let s = sep_end_exec(t, i);
        proof {
            lemma_sep_end(t@, i as int);
        }
        if s >= t.len() {
            assert(spans_from(t@, i as int) =~= Seq::<(int, int)>::empty());
            assert(pairs_view(out@) =~= spans(t@));
            return out;
        }
        let e = value_end_exec(t, s);
        proof {
            lemma_value_end(t@, s as int);
            assert(spans_from(t@, i as int) =~= seq![(s as int, e as int)] + spans_from(
                t@,
                e as int,
            ));
        }
        let ghost prev = out@;
        out.push((s, e));
        assert(pairs_view(out@) =~= pairs_view(prev) + seq![(s as int, e as int)]);
        i = e;
    }
    assert(spans_from(t@, i as int) =~= Seq::<(int, int)>::empty());
    assert(pairs_view(out@) =~= spans(t@));
    out
}

/// Every span lies inside the text, starts on a non-separator and ends no
/// later than the next one starts.
pub proof fn lemma_spans_from_bounds(t: Seq<char>, i: int)
    requires
        0 <= i <= t.len(),
    ensures
        forall|k: int|
            0 <= k < spans_from(t, i).len() ==> i <= (#[trigger] spans_from(t, i)[k]).0 < spans_from(
                t,
                i,
            )[k].1 <= t.len() && !is_sep(t[spans_from(t, i)[k].0]),
        forall|k: int|
            0 <= k < spans_from(t, i).len() - 1 ==> (#[trigger] spans_from(t, i)[k]).1
                <= spans_from(t, i)[k + 1].0,
    decreases t.len() - i,
{
    lemma_sep_end(t, i);
    let s = sep_end(t, i);
    if s < t.len() {
        lemma_value_end(t, s);
        let e = value_end(t, s);
        lemma_spans_from_bounds(t, e);
        let rest = spans_from(t, e);
        assert(spans_from(t, i) == seq![(s, e)] + rest);
        assert forall|k: int| 0 <= k < spans_from(t, i).len() - 1 implies (#[trigger] spans_from(
            t,
            i,
        )[k]).1 <= spans_from(t, i)[k + 1].0 by {
            if k > 0 {
                assert(spans_from(t, i)[k] == rest[k - 1]);
                assert(spans_from(t, i)[k + 1] == rest[k]);
            } else {
                assert(spans_from(t, i)[1] == rest[0]);
            }
        }
        assert forall|k: int| 0 <= k < spans_from(t, i).len() implies i <= (
        #[trigger] spans_from(t, i)[k]).0 < spans_from(t, i)[k].1 <= t.len() && !is_sep(
            t[spans_from(t, i)[k].0],
        ) by {
            if k > 0 {
                assert(spans_from(t, i)[k] == rest[k - 1]);
            }
        }
    }
}

/// Law: between and around the spans there is nothing but separators, so
/// splitting a text into its top-level values drops no content.
pub proof fn lemma_spans_from_cover(t: Seq<char>, i: int, p: int)
    requires
        0 <= i <= p < t.len(),
        forall|k: int|
            0 <= k < spans_from(t, i).len() ==> !((#[trigger] spans_from(t, i)[k]).0 <= p
                < spans_from(t, i)[k].1),
    ensures
        is_sep(t[p]),
    decreases t.len() - i,
{
    lemma_sep_end(t, i);
    let s = sep_end(t, i);
    if s < t.len() {
        lemma_value_end(t, s);
        let e = value_end(t, s);
        assert(spans_from(t, i)[0] == (s, e));
        if p >= e {
            let rest = spans_from(t, e);
            assert forall|k: int| 0 <= k < rest.len() implies !((#[trigger] rest[k]).0 <= p
                < rest[k].1) by {
                assert(spans_from(t, i)[k + 1] == rest[k]);
            }
            lemma_spans_from_cover(t, e, p);
        }
    }
}

/// Law: every character of a text outside its top-level values is a
/// separator (white space or U+001E).
pub proof fn lemma_outside_spans_is_separator(t: Seq<char>, p: int)
    requires
        0 <= p < t.len(),
        forall|k: int|
            0 <= k < spans(t).len() ==> !((#[trigger] spans(t)[k]).0 <= p < spans(t)[k].1),
    ensures
        is_sep(t[p]),
{
    assert(spans(t) == spans_from(t, 0));
    lemma_spans_from_cover(t, 0, p);
}

/// The values of `sp`, cut out of `t` and joined with commas.
pub open spec fn joined(t: Seq<char>, sp: Seq<(int, int)>) -> Seq<char>
    decreases sp.len(),
{
    if sp.len() == 0 {
        Seq::empty()
    } else if sp.len() == 1 {
        t.subrange(sp[0].0, sp[0].1)
    } else {
        joined(t, sp.drop_last()) + seq![','] + t.subrange(sp.last().0, sp.last().1)
    }
}

/// Newline-delimited records as one JSON array: `None` unless the text holds
/// at least two top-level values.
pub open spec fn ndjson_array(t: Seq<char>) -> Option<Seq<char>> {
    let sp = spans(t);
    if sp.len() < 2 {
        None
    } else {
        Some(seq!['['] + joined(t, sp) + seq![']'])
    }
}

pub fn ndjson_chars(t: &[char]) -> (r: Option<Vec<char>>)
    ensures
        match r {
            Some(v) => ndjson_array(t@) == Some(v@),
            None => ndjson_array(t@) is None,
        },
{
    let sp = top_level_spans(t);
    proof {
        lemma_spans_from_bounds(t@, 0);
    }
    if sp.len() < 2 {
        return None;
    }
    let ghost spv = spans(t@);
    let mut out: Vec<char> = Vec::new();
    out.push('[');
    let mut n: usize = 0;
    while n < sp.len()
        invariant
            n <= sp@.len(),
            sp@.len() >= 2,
            pairs_view(sp@) == spv,
            spv == spans(t@),
            forall|k: int|
                0 <= k < spv.len() ==> 0 <= (#[trigger] spv[k]).0 < spv[k].1 <= t@.len(),
            out@ == seq!['['] + joined(t@, spv.take(n as int)),
        decreases sp@.len() - n,
    {
        let (a, b) = sp[n];
        assert(spv[n as int] == (a as int, b as int));
        let ghost before = out@;
        if n > 0 {
            out.push(',');
        }
        push_range(&mut out, t, a, b);
        proof {
            let tk = spv.take(n + 1);
            assert(tk.last() == (a as int, b as int));
            if n > 0 {
                assert(tk.drop_last() =~= spv.take(n as int));
                assert(out@ =~= seq!['['] + joined(t@, tk));
            } else {
                assert(tk.len() == 1);
                assert(out@ =~= seq!['['] + joined(t@, tk));
            }
        }
        n += 1;
    }
    assert(spv.take(n as int) =~= spv);
    out.push(']');
    Some(out)
}

/// Newline-delimited JSON (and the RFC 7464 form) as one array, or `None`
/// when the text holds fewer than two top-level values.
pub fn ndjson_to_array(text: &str) -> (r: Option<String>)
    ensures
        match r {
            Some(s) => ndjson_array(text@) == Some(s@),
            None => ndjson_array(text@) is None,
        },
{
    let t = chars_of(text);
    match ndjson_chars(&t) {
        Some(v) => Some(string_of(&v)),
        None => None,
    }
}

/// Whether `s` is the body of a JSON string as the scan reads it: no bare
/// `"`, and every backslash followed by the character it escapes.
pub open spec fn escaped_body(s: Seq<char>) -> bool
    decreases s.len(),
{
    if s.len() == 0 {
        true
    } else if s[0] == '\\' {
        s.len() >= 2 && escaped_body(s.skip(2))
    } else {
        s[0] != '"' && escaped_body(s.skip(1))
    }
}

proof fn lemma_string_body_skipped(t: Seq<char>, k: int, s: Seq<char>, depth: int)
    requires
        0 <= k,
        k + s.len() < t.len(),
        forall|i: int| 0 <= i < s.len() ==> t[k + i] == #[trigger] s[i],
        t[k + s.len()] == '"',
        escaped_body(s),
    ensures
        container_end(t, k, depth, true, false) == container_end(t, k + s.len() + 1, depth, false, false),
        quoted_end(t, k, false) == k + s.len() + 1,
    decreases s.len(),
{
    if s.len() == 0 {
    } else if s[0] == '\\' {
        assert(t[k] == s[0]);
        assert(container_end(t, k + 1, depth, true, true) == container_end(t, k + 2, depth, true, false));
        assert(quoted_end(t, k + 1, true) == quoted_end(t, k + 2, false));
        let r = s.skip(2);
        assert forall|i: int| 0 <= i < r.len() implies t[k + 2 + i] == #[trigger] r[i] by {
            assert(r[i] == s[i + 2]);
        }
        lemma_string_body_skipped(t, k + 2, r, depth);
    } else {
        assert(t[k] == s[0]);
        let r = s.skip(1);
        assert forall|i: int| 0 <= i < r.len() implies t[k + 1 + i] == #[trigger] r[i] by {
            assert(r[i] == s[i + 1]);
        }
        lemma_string_body_skipped(t, k + 1, r, depth);
    }
}

/// Law: inside a value, a string is passed over whole, whatever escaped
/// quotes and backslashes it holds: scanning on from its opening quote
/// gives what scanning on from just after its closing quote gives; and a
/// string standing alone ends just after its closing quote.
pub proof fn lemma_strings_pass_whole(t: Seq<char>, j: int, s: Seq<char>, depth: int)
    requires
        0 <= j,
        j + s.len() + 1 < t.len(),
        t[j] == '"',
        forall|i: int| 0 <= i < s.len() ==> t[j + 1 + i] == #[trigger] s[i],
        t[j + 1 + s.len()] == '"',
        escaped_body(s),
    ensures
        container_end(t, j, depth, false, false) == container_end(t, j + s.len() + 2, depth, false, false),
        quoted_end(t, j + 1, false) == j + s.len() + 2,
{
    lemma_string_body_skipped(t, j + 1, s, depth);
}

} // verus!

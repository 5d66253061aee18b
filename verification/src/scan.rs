//! The structural scan behind large documents: the kind of the root value,
//! and for an array root the byte range of every element, found by skipping
//! over values without building them.
use vstd::prelude::*;
use vstd::string::StringSliceAdditionalSpecFns;

use crate::format::number::{decimal, push_decimal};
use crate::text::{chars_of, push_all, push_char, push_text, string_of};

verus! {

/// The kind of a JSON value.
#[derive(Debug, Clone, Copy, PartialEq, Eq, Structural)]
pub enum NodeKind {
    Object,
    Array,
    String,
    Number,
    Bool,
    Null,
}

/// Why a scan stopped.
#[derive(Debug, Clone, PartialEq, Eq)]
pub enum ScanError {
    /// A value was expected where the input ends.
    UnexpectedEnd,
    /// No value starts with `byte` (at index `at`).
    UnexpectedByte { byte: u8, at: usize },
    /// A string ends in a backslash.
    TrailingEscape,
    /// A string is not closed.
    UnterminatedString,
    /// An object or array is not closed.
    Unbalanced,
    /// `true`, `false` or `null` was expected at `at`.
    ExpectedLiteral { at: usize },
    /// The root is not an array.
    ExpectedArrayRoot,
    /// The root array is not closed.
    UnterminatedArray,
    /// After an element, neither `,` nor `]` but `found` (at index `at`).
    ExpectedSeparator { at: usize, found: u8 },
    /// The validating parser refused the text, with this message.
    Invalid(String),
    /// A window over an array was asked of a text that is not one.
    ExpectedArray,
    /// A window over an object was asked of a text that is not one.
    ExpectedObject,
    /// A member of an object does not start with a key.
    ExpectedKey,
    /// A key of an object is not followed by `:`.
    ExpectedColon,
    /// An element of an array is followed by neither `,` nor `]`.
    ExpectedArraySeparator,
    /// A member of an object is followed by neither `,` nor `}`.
    ExpectedObjectSeparator,
}

/// What `format!("{:?}", c)` writes for a character.
pub uninterp spec fn char_debug(c: char) -> Seq<char>;

/// `<char as Debug>::fmt`, through `format!`.
#[verifier::external_body]
fn debug_char(c: char) -> (r: String)
    ensures
        r@ == char_debug(c),
{
    format!("{:?}", c)
}

/// The literal a value starting with byte `c` must be.
pub open spec fn literal_text(c: u8) -> Seq<char> {
    if c == 0x74u8 {
        "\"true\""@
    } else if c == 0x66u8 {
        "\"false\""@
    } else {
        "\"null\""@
    }
}

/// The message for a scan error of the text `b`, as the editor reports it.
pub open spec fn described(e: ScanError, b: Seq<u8>) -> Seq<char> {
    match e {
        ScanError::UnexpectedEnd => "unexpected end of input"@,
        ScanError::UnexpectedByte { byte, at } => "unexpected byte "@ + char_debug(byte as char)
            + " at "@ + decimal(at as nat),
        ScanError::TrailingEscape => "trailing escape"@,
        ScanError::UnterminatedString => "unterminated string"@,
        ScanError::Unbalanced => "unbalanced object/array"@,
        ScanError::ExpectedLiteral { at } => "expected literal "@ + (if at < b.len() {
            literal_text(b[at as int])
        } else {
            literal_text(0)
        }) + " at "@ + decimal(at as nat),
        ScanError::ExpectedArrayRoot => "expected array root"@,
        ScanError::UnterminatedArray => "unterminated array"@,
        ScanError::ExpectedSeparator { at, found } => "expected ',' or ']' at byte "@ + decimal(
            at as nat,
        ) + ", found "@ + char_debug(found as char),
        ScanError::Invalid(m) => m@,
        ScanError::ExpectedArray => "expected array"@,
        ScanError::ExpectedObject => "expected object"@,
        ScanError::ExpectedKey => "expected object key"@,
        ScanError::ExpectedColon => "expected ':' after object key"@,
        ScanError::ExpectedArraySeparator => "expected ',' or ']' in array"@,
        ScanError::ExpectedObjectSeparator => "expected ',' or '}' in object"@,
    }
}

fn push_str_chars(out: &mut Vec<char>, t: &str)
    ensures
        final(out)@ == old(out)@ + t@,
{
    let c = chars_of(t);
    push_all(out, &c);
}

/// The message for a scan error of the text `b` (see [`described`]).
pub fn describe(e: &ScanError, b: &[u8]) -> (r: String)
    ensures
        r@ == described(*e, b@),
{
    let mut out: Vec<char> = Vec::new();
    match e {
        ScanError::UnexpectedEnd => push_str_chars(&mut out, "unexpected end of input"),
        ScanError::UnexpectedByte { byte, at } => {
            push_str_chars(&mut out, "unexpected byte ");
            let d = debug_char(*byte as char);
            push_str_chars(&mut out, d.as_str());
            push_str_chars(&mut out, " at ");
            push_decimal(&mut out, *at as u128);
        },
        ScanError::TrailingEscape => push_str_chars(&mut out, "trailing escape"),
        ScanError::UnterminatedString => push_str_chars(&mut out, "unterminated string"),
        ScanError::Unbalanced => push_str_chars(&mut out, "unbalanced object/array"),
        ScanError::ExpectedLiteral { at } => {
            push_str_chars(&mut out, "expected literal ");
            let c = if *at < b.len() {
                b[*at]
            } else {
                0
            };
            if c == 0x74u8 {
                push_str_chars(&mut out, "\"true\"");
            } else if c == 0x66u8 {
                push_str_chars(&mut out, "\"false\"");
            } else {
                push_str_chars(&mut out, "\"null\"");
            }
            push_str_chars(&mut out, " at ");
            push_decimal(&mut out, *at as u128);
        },
        ScanError::ExpectedArrayRoot => push_str_chars(&mut out, "expected array root"),
        ScanError::UnterminatedArray => push_str_chars(&mut out, "unterminated array"),
        ScanError::ExpectedSeparator { at, found } => {
            push_str_chars(&mut out, "expected ',' or ']' at byte ");
            push_decimal(&mut out, *at as u128);
            push_str_chars(&mut out, ", found ");
            let d = debug_char(*found as char);
            push_str_chars(&mut out, d.as_str());
        },
        ScanError::Invalid(m) => push_str_chars(&mut out, m.as_str()),
        ScanError::ExpectedArray => push_str_chars(&mut out, "expected array"),
        ScanError::ExpectedObject => push_str_chars(&mut out, "expected object"),
        ScanError::ExpectedKey => push_str_chars(&mut out, "expected object key"),
        ScanError::ExpectedColon => push_str_chars(&mut out, "expected ':' after object key"),
        ScanError::ExpectedArraySeparator => push_str_chars(
            &mut out,
            "expected ',' or ']' in array",
        ),
        ScanError::ExpectedObjectSeparator => push_str_chars(
            &mut out,
            "expected ',' or '}' in object",
        ),
    }
    proof {
        match *e {
            ScanError::UnexpectedByte { byte, at } => {
                assert(out@ =~= described(*e, b@));
            },
            ScanError::ExpectedLiteral { at } => {
                assert(out@ =~= described(*e, b@));
            },
            ScanError::ExpectedSeparator { at, found } => {
                assert(out@ =~= described(*e, b@));
            },
            _ => {
                assert(out@ =~= described(*e, b@));
            },
        }
    }
    string_of(&out)
}

// ---------------------------------------------------------------------------
// Root kind
// ---------------------------------------------------------------------------

/// JSON white space: space, tab, line feed, carriage return.
pub open spec fn is_json_ws(c: u8) -> bool {
    c == 0x20u8 || c == 0x09u8 || c == 0x0Au8 || c == 0x0Du8
}

/// The kind a value has, read from its first byte.
pub open spec fn kind_of_first(c: u8) -> NodeKind {
    if c == 0x7Bu8 {
        NodeKind::Object
    } else if c == 0x5Bu8 {
        NodeKind::Array
    } else if c == 0x22u8 {
        NodeKind::String
    } else if c == 0x74u8 || c == 0x66u8 {
        NodeKind::Bool
    } else if c == 0x6Eu8 {
        NodeKind::Null
    } else {
        NodeKind::Number
    }
}

/// First index at or after `i` that is not JSON white space.
pub open spec fn ws_end(b: Seq<u8>, i: int) -> int
    decreases b.len() - i,
{
    if 0 <= i < b.len() && is_json_ws(b[i]) {
        ws_end(b, i + 1)
    } else {
        i
    }
}

/// The kind of the root value of a text, read from its first byte that is
/// not white space; `Null` for a text of white space only.
pub open spec fn root_kind_spec(b: Seq<u8>) -> NodeKind {
    let i = ws_end(b, 0);
    if i < b.len() {
        kind_of_first(b[i])
    } else {
        NodeKind::Null
    }
}

pub proof fn lemma_ws_end(b: Seq<u8>, i: int)
    requires
        0 <= i <= b.len(),
    ensures
        i <= ws_end(b, i) <= b.len(),
        forall|k: int| i <= k < ws_end(b, i) ==> is_json_ws(#[trigger] b[k]),
        ws_end(b, i) < b.len() ==> !is_json_ws(b[ws_end(b, i)]),
    decreases b.len() - i,
{
    if i < b.len() && is_json_ws(b[i]) {
        lemma_ws_end(b, i + 1);
    }
}

/// Index of the first byte at or after `i` that is not JSON white space.
pub fn skip_ws(bytes: &[u8], i: usize) -> (r: usize)
    requires
        i <= bytes@.len(),
    ensures
        r as int == ws_end(bytes@, i as int),
        i <= r <= bytes@.len(),
{
    proof {
        lemma_ws_end(bytes@, i as int);
    }
    let mut k = i;
    while k < bytes.len() && (bytes[k] == 0x20u8 || bytes[k] == 0x09u8 || bytes[k] == 0x0Au8
        || bytes[k] == 0x0Du8)
        invariant
            i <= k <= bytes@.len(),
            ws_end(bytes@, k as int) == ws_end(bytes@, i as int),
        decreases bytes@.len() - k,
    {
        k += 1;
    }
    k
}

/// The kind of the root value of `text` (see [`root_kind_spec`]).
pub fn root_kind_of(text: &str) -> (r: NodeKind)
    ensures
        r == root_kind_spec(text.spec_bytes()),
{
    let b = text.as_bytes();
    let i = skip_ws(b, 0);
    if i >= b.len() {
        return NodeKind::Null;
    }
    let c = b[i];
    if c == 0x7Bu8 {
        NodeKind::Object
    } else if c == 0x5Bu8 {
        NodeKind::Array
    } else if c == 0x22u8 {
        NodeKind::String
    } else if c == 0x74u8 || c == 0x66u8 {
        NodeKind::Bool
    } else if c == 0x6Eu8 {
        NodeKind::Null
    } else {
        NodeKind::Number
    }
}

// ---------------------------------------------------------------------------
// Skipping values
// ---------------------------------------------------------------------------

/// End of a string whose body starts at `j`: the index after its closing
/// quote.
pub open spec fn string_end(b: Seq<u8>, j: int) -> Result<int, ScanError>
    decreases b.len() - j,
{
    if j < 0 || j >= b.len() {
        Err(ScanError::UnterminatedString)
    } else if b[j] == 0x22u8 {
        Ok(j + 1)
    } else if b[j] == 0x5Cu8 {
        if j + 1 >= b.len() {
            Err(ScanError::TrailingEscape)
        } else {
            string_end(b, j + 2)
        }
    } else {
        string_end(b, j + 1)
    }
}

pub proof fn lemma_string_end(b: Seq<u8>, j: int)
    requires
        0 <= j,
    ensures
        string_end(b, j) matches Ok(k) ==> j < k <= b.len(),
    decreases b.len() - j,
{
    if j < b.len() && b[j] != 0x22u8 {
        if b[j] == 0x5Cu8 {
            if j + 1 < b.len() {
                lemma_string_end(b, j + 2);
            }
        } else {
            lemma_string_end(b, j + 1);
        }
    }
}

/// End of an object or array, scanning from `j` at nesting `depth`.
pub open spec fn balanced_end(b: Seq<u8>, j: int, depth: int) -> Result<int, ScanError>
    decreases b.len() - j,
{
    if j < 0 || j >= b.len() {
        Err(ScanError::Unbalanced)
    } else if b[j] == 0x22u8 {
        match string_end(b, j + 1) {
            Err(e) => Err(e),
            Ok(k) => {
                proof {
                    lemma_string_end(b, j + 1);
                }
                balanced_end(b, k, depth)
            },
        }
    } else if b[j] == 0x7Bu8 || b[j] == 0x5Bu8 {
        balanced_end(b, j + 1, depth + 1)
    } else if b[j] == 0x7Du8 || b[j] == 0x5Du8 {
        if depth - 1 == 0 {
            Ok(j + 1)
        } else {
            balanced_end(b, j + 1, depth - 1)
        }
    } else {
        balanced_end(b, j + 1, depth)
    }
}

pub proof fn lemma_balanced_end(b: Seq<u8>, j: int, depth: int)
    requires
        0 <= j,
    ensures
        balanced_end(b, j, depth) matches Ok(k) ==> j < k <= b.len(),
    decreases b.len() - j,
{
    if j < b.len() {
        if b[j] == 0x22u8 {
            lemma_string_end(b, j + 1);
            if let Ok(k) = string_end(b, j + 1) {
                lemma_balanced_end(b, k, depth);
            }
        } else if b[j] == 0x7Bu8 || b[j] == 0x5Bu8 {
            lemma_balanced_end(b, j + 1, depth + 1);
        } else if b[j] == 0x7Du8 || b[j] == 0x5Du8 {
            if depth - 1 != 0 {
                lemma_balanced_end(b, j + 1, depth - 1);
            }
        } else {
            lemma_balanced_end(b, j + 1, depth);
        }
    }
}

/// End of the literal `lit` at `i`.
pub open spec fn literal_end(b: Seq<u8>, i: int, lit: Seq<u8>) -> Result<int, ScanError> {
    if i + lit.len() > b.len() || b.subrange(i, i + lit.len()) != lit {
        Err(ScanError::ExpectedLiteral { at: i as usize })
    } else {
        Ok(i + lit.len())
    }
}

pub open spec fn is_number_byte(c: u8) -> bool {
    (0x30u8 <= c && c <= 0x39u8) || c == 0x2Du8 || c == 0x2Bu8 || c == 0x2Eu8 || c == 0x65u8
        || c == 0x45u8
}

/// End of a number token: the first byte at or after `i` that cannot be part
/// of one.
pub open spec fn number_end(b: Seq<u8>, i: int) -> int
    decreases b.len() - i,
{
    if 0 <= i < b.len() && is_number_byte(b[i]) {
        number_end(b, i + 1)
    } else {
        i
    }
}

proof fn lemma_number_end(b: Seq<u8>, i: int)
    requires
        0 <= i <= b.len(),
    ensures
        i <= number_end(b, i) <= b.len(),
        i < b.len() && is_number_byte(b[i]) ==> i < number_end(b, i),
    decreases b.len() - i,
{
    if i < b.len() && is_number_byte(b[i]) {
        lemma_number_end(b, i + 1);
    }
}

/// The bytes a JSON number is written with: the digits, the signs, the
/// decimal point and both exponent markers.
pub open spec fn json_number_bytes() -> Seq<u8> {
    seq![
        0x30u8, 0x31u8, 0x32u8, 0x33u8, 0x34u8, 0x35u8, 0x36u8, 0x37u8, 0x38u8, 0x39u8,
        0x2Du8, 0x2Bu8, 0x2Eu8, 0x65u8, 0x45u8,
    ]
}

/// Law: a number token runs from where it starts over every byte a JSON
/// number can hold (`0`-`9`, `-`, `+`, `.`, `e`, `E`) and stops at the
/// first byte that is none of them, so that a number followed by a
/// separator, a closing bracket or the end is taken whole.
pub proof fn lemma_number_end_covers_numbers(b: Seq<u8>, i: int)
    requires
        0 <= i <= b.len(),
    ensures
        forall|k: int| i <= k < number_end(b, i) ==> json_number_bytes().contains(#[trigger] b[k]),
        number_end(b, i) == b.len() || !json_number_bytes().contains(b[number_end(b, i)]),
        i <= number_end(b, i) <= b.len(),
    decreases b.len() - i,
{
    let a = json_number_bytes();
    assert forall|c: u8| is_number_byte(c) <==> a.contains(c) by {
        if is_number_byte(c) {
            if c == 0x2Du8 {
                assert(a[10] == c);
            } else if c == 0x2Bu8 {
                assert(a[11] == c);
            } else if c == 0x2Eu8 {
                assert(a[12] == c);
            } else if c == 0x65u8 {
                assert(a[13] == c);
            } else if c == 0x45u8 {
                assert(a[14] == c);
            } else {
                assert(a[(c - 0x30u8) as int] == c);
            }
        }
        if a.contains(c) {
            let k = choose|k: int| 0 <= k < a.len() && a[k] == c;
            assert(is_number_byte(a[k]));
        }
    }
    lemma_number_end(b, i);
    if i < b.len() && is_number_byte(b[i]) {
        lemma_number_end_covers_numbers(b, i + 1);
    }
}

pub open spec fn lit_true() -> Seq<u8> {
    seq![0x74u8, 0x72u8, 0x75u8, 0x65u8]
}

pub open spec fn lit_false() -> Seq<u8> {
    seq![0x66u8, 0x61u8, 0x6Cu8, 0x73u8, 0x65u8]
}

pub open spec fn lit_null() -> Seq<u8> {
    seq![0x6Eu8, 0x75u8, 0x6Cu8, 0x6Cu8]
}

/// End of the value that starts at `i`, found by its first byte.
pub open spec fn value_end(b: Seq<u8>, i: int) -> Result<int, ScanError> {
    if i < 0 || i >= b.len() {
        Err(ScanError::UnexpectedEnd)
    } else {
        let c = b[i];
        if c == 0x22u8 {
            string_end(b, i + 1)
        } else if c == 0x7Bu8 || c == 0x5Bu8 {
            balanced_end(b, i + 1, 1)
        } else if c == 0x74u8 {
            literal_end(b, i, lit_true())
        } else if c == 0x66u8 {
            literal_end(b, i, lit_false())
        } else if c == 0x6Eu8 {
            literal_end(b, i, lit_null())
        } else if c == 0x2Du8 || (0x30u8 <= c && c <= 0x39u8) {
            Ok(number_end(b, i))
        } else {
            Err(ScanError::UnexpectedByte { byte: c, at: i as usize })
        }
    }
}

pub proof fn lemma_value_end(b: Seq<u8>, i: int)
    requires
        0 <= i,
    ensures
        value_end(b, i) matches Ok(k) ==> i < k <= b.len(),
{
    if i < b.len() {
        lemma_string_end(b, i + 1);
        lemma_balanced_end(b, i + 1, 1);
        lemma_number_end(b, i);
    }
}

/// Index after the string that starts at `i`.
pub fn skip_string(bytes: &[u8], i: usize) -> (r: Result<usize, ScanError>)
    requires
        i < bytes@.len(),
    ensures
        match r {
            Ok(k) => string_end(bytes@, i + 1) == Ok::<int, ScanError>(k as int),
            Err(e) => string_end(bytes@, i + 1) == Err::<int, ScanError>(e),
        },
{
    let n = bytes.len();
    let mut j = i + 1;
    while j < n
        invariant
            n == bytes@.len(),
            i < j <= n + 1,
            string_end(bytes@, j as int) == string_end(bytes@, i + 1),
        decreases n + 1 - j,
    {
        let c = bytes[j];
        if c == 0x22u8 {
            return Ok(j + 1);
        } else if c == 0x5Cu8 {
            if n - j <= 1 {
                return Err(ScanError::TrailingEscape);
            }
            j += 2;
        } else {
            j += 1;
        }
    }
    Err(ScanError::UnterminatedString)
}

/// Index after the object or array that starts at `i`.
pub fn skip_balanced(bytes: &[u8], i: usize) -> (r: Result<usize, ScanError>)
    requires
        i < bytes@.len(),
    ensures
        match r {
            Ok(k) => balanced_end(bytes@, i + 1, 1) == Ok::<int, ScanError>(k as int),
            Err(e) => balanced_end(bytes@, i + 1, 1) == Err::<int, ScanError>(e),
        },
{
    let n = bytes.len();
    let mut depth: usize = 1;
    let mut j = i + 1;
    while j < n
        invariant
            n == bytes@.len(),
            i < j <= n,
            1 <= depth <= j - i,
            balanced_end(bytes@, j as int, depth as int) == balanced_end(bytes@, i + 1, 1),
        decreases n - j,
    {
        let c = bytes[j];
        if c == 0x22u8 {
            proof {
                lemma_string_end(bytes@, j + 1);
            }
            match skip_string(bytes, j) {
                Ok(k) => {
                    j = k;
                },
                Err(e) => {
                    return Err(e);
                },
            }
        } else if c == 0x7Bu8 || c == 0x5Bu8 {
            depth += 1;
            j += 1;
        } else if c == 0x7Du8 || c == 0x5Du8 {
            depth -= 1;
            j += 1;
            if depth == 0 {
                return Ok(j);
            }
        } else {
            j += 1;
        }
    }
    Err(ScanError::Unbalanced)
}

/// Index after the literal `lit` at `i`, when it is there.
pub fn check_literal(bytes: &[u8], i: usize, lit: &[u8]) -> (r: Result<usize, ScanError>)
    requires
        i <= bytes@.len(),
    ensures
        match r {
            Ok(k) => literal_end(bytes@, i as int, lit@) == Ok::<int, ScanError>(k as int),
            Err(e) => literal_end(bytes@, i as int, lit@) == Err::<int, ScanError>(e),
        },
{
    let n = bytes.len();
    if lit.len() > n - i {
        return Err(ScanError::ExpectedLiteral { at: i });
    }
    let mut k: usize = 0;
    while k < lit.len()
        invariant
            n == bytes@.len(),
            lit@.len() <= n - i,
            k <= lit@.len(),
            forall|m: int| 0 <= m < k ==> bytes@[i + m] == lit@[m],
        decreases lit@.len() - k,
    {
        if bytes[i + k] != lit[k] {
            assert(bytes@.subrange(i as int, i + lit@.len())[k as int] != lit@[k as int]);
            return Err(ScanError::ExpectedLiteral { at: i });
        }
        k += 1;
    }
    assert(bytes@.subrange(i as int, i + lit@.len()) =~= lit@);
    Ok(i + lit.len())
}

/// Index after the number token at `i`.
pub fn skip_number(bytes: &[u8], i: usize) -> (r: usize)
    requires
        i <= bytes@.len(),
    ensures
        r as int == number_end(bytes@, i as int),
{
    let mut k = i;
    while k < bytes.len() && ((0x30u8 <= bytes[k] && bytes[k] <= 0x39u8) || bytes[k] == 0x2Du8
        || bytes[k] == 0x2Bu8 || bytes[k] == 0x2Eu8 || bytes[k] == 0x65u8 || bytes[k] == 0x45u8)
        invariant
            i <= k <= bytes@.len(),
            number_end(bytes@, k as int) == number_end(bytes@, i as int),
        decreases bytes@.len() - k,
    {
        k += 1;
    }
    k
}

/// Index after the value that starts at `i` (see [`value_end`]).
pub fn skip_value(bytes: &[u8], i: usize) -> (r: Result<usize, ScanError>)
    requires
        i <= bytes@.len(),
    ensures
        match r {
            Ok(k) => value_end(bytes@, i as int) == Ok::<int, ScanError>(k as int),
            Err(e) => value_end(bytes@, i as int) == Err::<int, ScanError>(e),
        },
{
    if i >= bytes.len() {
        return Err(ScanError::UnexpectedEnd);
    }
    let c = bytes[i];
    if c == 0x22u8 {
        skip_string(bytes, i)
    } else if c == 0x7Bu8 || c == 0x5Bu8 {
        skip_balanced(bytes, i)
    } else if c == 0x74u8 {
        let r = check_literal(bytes, i, &[0x74u8, 0x72u8, 0x75u8, 0x65u8]);
        assert(lit_true() =~= seq![0x74u8, 0x72u8, 0x75u8, 0x65u8]);
        r
    } else if c == 0x66u8 {
        let r = check_literal(bytes, i, &[0x66u8, 0x61u8, 0x6Cu8, 0x73u8, 0x65u8]);
        assert(lit_false() =~= seq![0x66u8, 0x61u8, 0x6Cu8, 0x73u8, 0x65u8]);
        r
    } else if c == 0x6Eu8 {
        let r = check_literal(bytes, i, &[0x6Eu8, 0x75u8, 0x6Cu8, 0x6Cu8]);
        assert(lit_null() =~= seq![0x6Eu8, 0x75u8, 0x6Cu8, 0x6Cu8]);
        r
    } else if c == 0x2Du8 || (0x30u8 <= c && c <= 0x39u8) {
        Ok(skip_number(bytes, i))
    } else {
        Err(ScanError::UnexpectedByte { byte: c, at: i })
    }
}

// ---------------------------------------------------------------------------
// The root array's element index
// ---------------------------------------------------------------------------

/// The elements of the root array from the one that starts at `i` on,
/// appended to `acc`.
pub open spec fn index_from(b: Seq<u8>, i: int, acc: Seq<(int, int)>) -> Result<
    Seq<(int, int)>,
    ScanError,
>
    decreases b.len() - i,
{
    match value_end(b, i) {
        Err(e) => Err(e),
        Ok(e) => {
            let acc2 = acc.push((i, e));
            let j = ws_end(b, e);
            if j >= b.len() {
                Err(ScanError::UnterminatedArray)
            } else if b[j] == 0x2Cu8 {
                proof {
                    lemma_value_end(b, i);
                    lemma_ws_end(b, e);
                    lemma_ws_end(b, j + 1);
                }
                index_from(b, ws_end(b, j + 1), acc2)
            } else if b[j] == 0x5Du8 {
                Ok(acc2)
            } else {
                Err(ScanError::ExpectedSeparator { at: j as usize, found: b[j] })
            }
        },
    }
}

/// The byte range of every element of the root array of `b`.
pub open spec fn root_index(b: Seq<u8>) -> Result<Seq<(int, int)>, ScanError> {
    let i = ws_end(b, 0);
    if i >= b.len() || b[i] != 0x5Bu8 {
        Err(ScanError::ExpectedArrayRoot)
    } else {
        let i2 = ws_end(b, i + 1);
        if i2 < b.len() && b[i2] == 0x5Du8 {
            Ok(Seq::empty())
        } else {
            index_from(b, i2, Seq::empty())
        }
    }
}

pub open spec fn spans_view(v: Seq<(u32, u32)>) -> Seq<(int, int)> {
    v.map_values(|p: (u32, u32)| (p.0 as int, p.1 as int))
}

/// The byte range of every element of the root array (see [`root_index`]).
pub fn build_root_index(bytes: &[u8]) -> (r: Result<Vec<(u32, u32)>, ScanError>)
    requires
        bytes@.len() <= u32::MAX,
    ensures
        match r {
            Ok(v) => root_index(bytes@) == Ok::<Seq<(int, int)>, ScanError>(spans_view(v@)),
            Err(e) => root_index(bytes@) == Err::<Seq<(int, int)>, ScanError>(e),
        },
{
    let n = bytes.len();
    let mut i = skip_ws(bytes, 0);
    if i >= n || bytes[i] != 0x5Bu8 {
        return Err(ScanError::ExpectedArrayRoot);
    }
    i = skip_ws(bytes, i + 1);
    let mut index: Vec<(u32, u32)> = Vec::new();
    if i < n && bytes[i] == 0x5Du8 {
        assert(spans_view(index@) =~= Seq::<(int, int)>::empty());
        return Ok(index);
    }
    assert(spans_view(index@) =~= Seq::<(int, int)>::empty());
    loop
        invariant
            n == bytes@.len(),
            n <= u32::MAX,
            i <= n,
            index_from(bytes@, i as int, spans_view(index@)) == root_index(bytes@),
        decreases n - i,
    {
        let start = i;
        proof {
            lemma_value_end(bytes@, i as int);
        }
        let e = match skip_value(bytes, i) {
            Ok(e) => e,
            Err(err) => {
                return Err(err);
            },
        };
        let ghost before = spans_view(index@);
        assert(start < e);
        index.push((start as u32, e as u32));
        assert(spans_view(index@) =~= before.push((start as int, e as int)));
        let j = skip_ws(bytes, e);
        if j >= n {
            return Err(ScanError::UnterminatedArray);
        }
        if bytes[j] == 0x2Cu8 {
            i = skip_ws(bytes, j + 1);
        } else if bytes[j] == 0x5Du8 {
            return Ok(index);
        } else {
            return Err(ScanError::ExpectedSeparator { at: j, found: bytes[j] });
        }
    }
}

/// Law: every element range of the root index lies inside the text, and
/// the ranges come in order without overlapping.
pub proof fn lemma_index_from_ordered(b: Seq<u8>, i: int, acc: Seq<(int, int)>)
    requires
        0 <= i,
        forall|k: int| 0 <= k < acc.len() ==> 0 <= (#[trigger] acc[k]).0 < acc[k].1 <= i,
        forall|k: int| 0 <= k < acc.len() - 1 ==> (#[trigger] acc[k]).1 <= acc[k + 1].0,
    ensures
        index_from(b, i, acc) matches Ok(v) ==> {
            &&& forall|k: int| 0 <= k < v.len() ==> 0 <= (#[trigger] v[k]).0 < v[k].1 <= b.len()
            &&& forall|k: int| 0 <= k < v.len() - 1 ==> (#[trigger] v[k]).1 <= v[k + 1].0
        },
    decreases b.len() - i,
{
    lemma_value_end(b, i);
    if let Ok(e) = value_end(b, i) {
        let acc2 = acc.push((i, e));
        let j = ws_end(b, e);
        lemma_ws_end(b, e);
        if j < b.len() && e > i {
            assert forall|k: int| 0 <= k < acc2.len() - 1 implies (#[trigger] acc2[k]).1 <= acc2[k
                + 1].0 by {
                if k < acc.len() - 1 {
                    assert(acc2[k] == acc[k]);
                    assert(acc2[k + 1] == acc[k + 1]);
                }
            }
            if b[j] == 0x2Cu8 {
                lemma_ws_end(b, j + 1);
                lemma_index_from_ordered(b, ws_end(b, j + 1), acc2);
            }
        }
    }
}

// ---------------------------------------------------------------------------
// What the scan reports
// ---------------------------------------------------------------------------

proof fn lemma_string_end_not_invalid(b: Seq<u8>, j: int)
    ensures
        string_end(b, j) matches Err(e) ==> !(e is Invalid),
    decreases b.len() - j,
{
    if 0 <= j < b.len() && b[j] != 0x22u8 {
        if b[j] == 0x5Cu8 {
            if j + 1 < b.len() {
                lemma_string_end_not_invalid(b, j + 2);
            }
        } else {
            lemma_string_end_not_invalid(b, j + 1);
        }
    }
}

proof fn lemma_balanced_end_not_invalid(b: Seq<u8>, j: int, depth: int)
    ensures
        balanced_end(b, j, depth) matches Err(e) ==> !(e is Invalid),
    decreases b.len() - j,
{
    if 0 <= j < b.len() {
        if b[j] == 0x22u8 {
            lemma_string_end_not_invalid(b, j + 1);
            lemma_string_end(b, j + 1);
            if let Ok(k) = string_end(b, j + 1) {
                lemma_balanced_end_not_invalid(b, k, depth);
            }
        } else if b[j] == 0x7Bu8 || b[j] == 0x5Bu8 {
            lemma_balanced_end_not_invalid(b, j + 1, depth + 1);
        } else if b[j] == 0x7Du8 || b[j] == 0x5Du8 {
            if depth - 1 != 0 {
                lemma_balanced_end_not_invalid(b, j + 1, depth - 1);
            }
        } else {
            lemma_balanced_end_not_invalid(b, j + 1, depth);
        }
    }
}

proof fn lemma_index_from_not_invalid(b: Seq<u8>, i: int, acc: Seq<(int, int)>)
    requires
        0 <= i,
    ensures
        index_from(b, i, acc) matches Err(e) ==> !(e is Invalid),
    decreases b.len() - i,
{
    lemma_value_end(b, i);
    if i < b.len() {
        lemma_string_end_not_invalid(b, i + 1);
        lemma_balanced_end_not_invalid(b, i + 1, 1);
    }
    if let Ok(e) = value_end(b, i) {
        let j = ws_end(b, e);
        lemma_ws_end(b, e);
        if j < b.len() && b[j] == 0x2Cu8 {
            lemma_ws_end(b, j + 1);
            lemma_index_from_not_invalid(b, ws_end(b, j + 1), acc.push((i, e)));
        }
    }
}

/// The structural scan never reports a refusal of the validating parser:
/// its errors are its own.
pub proof fn lemma_root_index_not_invalid(b: Seq<u8>)
    ensures
        root_index(b) matches Err(e) ==> !(e is Invalid),
{
    let i = ws_end(b, 0);
    lemma_ws_end(b, 0);
    if i < b.len() && b[i] == 0x5Bu8 {
        lemma_ws_end(b, i + 1);
        lemma_index_from_not_invalid(b, ws_end(b, i + 1), Seq::empty());
    }
}

// ---------------------------------------------------------------------------
// Element ranges are character boundaries
// ---------------------------------------------------------------------------

proof fn lemma_string_end_quote(b: Seq<u8>, j: int)
    requires
        0 <= j,
    ensures
        string_end(b, j) matches Ok(k) ==> 0 < k <= b.len() && b[k - 1] == 0x22u8,
    decreases b.len() - j,
{
    if j < b.len() && b[j] != 0x22u8 {
        if b[j] == 0x5Cu8 {
            if j + 1 < b.len() {
                lemma_string_end_quote(b, j + 2);
            }
        } else {
            lemma_string_end_quote(b, j + 1);
        }
    }
}

proof fn lemma_balanced_end_close(b: Seq<u8>, j: int, depth: int)
    requires
        0 <= j,
    ensures
        balanced_end(b, j, depth) matches Ok(k) ==> 0 < k <= b.len() && (b[k - 1] == 0x7Du8
            || b[k - 1] == 0x5Du8),
    decreases b.len() - j,
{
    if j < b.len() {
        if b[j] == 0x22u8 {
            lemma_string_end(b, j + 1);
            if let Ok(k) = string_end(b, j + 1) {
                lemma_balanced_end_close(b, k, depth);
            }
        } else if b[j] == 0x7Bu8 || b[j] == 0x5Bu8 {
            lemma_balanced_end_close(b, j + 1, depth + 1);
        } else if b[j] == 0x7Du8 || b[j] == 0x5Du8 {
            if depth - 1 != 0 {
                lemma_balanced_end_close(b, j + 1, depth - 1);
            }
        } else {
            lemma_balanced_end_close(b, j + 1, depth);
        }
    }
}

proof fn lemma_number_end_last(b: Seq<u8>, i: int)
    requires
        0 <= i < b.len(),
        is_number_byte(b[i]),
    ensures
        i < number_end(b, i) <= b.len(),
        is_number_byte(b[number_end(b, i) - 1]),
    decreases b.len() - i,
{
    assert(number_end(b, i) == number_end(b, i + 1));
    if i + 1 < b.len() && is_number_byte(b[i + 1]) {
        lemma_number_end_last(b, i + 1);
    } else {
        assert(number_end(b, i + 1) == i + 1);
    }
}

/// A value starts and ends with an ASCII byte.
pub proof fn lemma_value_ascii_ends(b: Seq<u8>, i: int)
    requires
        0 <= i,
    ensures
        value_end(b, i) matches Ok(e) ==> i < e <= b.len() && b[i] < 0x80u8 && b[e - 1] < 0x80u8,
{
    lemma_value_end(b, i);
    if i < b.len() {
        let c = b[i];
        if c == 0x22u8 {
            lemma_string_end_quote(b, i + 1);
        } else if c == 0x7Bu8 || c == 0x5Bu8 {
            lemma_balanced_end_close(b, i + 1, 1);
        } else if c == 0x74u8 || c == 0x66u8 || c == 0x6Eu8 {
            let lit = if c == 0x74u8 {
                lit_true()
            } else if c == 0x66u8 {
                lit_false()
            } else {
                lit_null()
            };
            if let Ok(e) = literal_end(b, i, lit) {
                assert(b[e - 1] == b.subrange(i, i + lit.len())[lit.len() - 1]);
            }
        } else if c == 0x2Du8 || (0x30u8 <= c && c <= 0x39u8) {
            lemma_number_end_last(b, i);
        }
    }
}

/// In valid UTF-8, the position after an ASCII byte is a character boundary.
pub proof fn lemma_after_ascii_is_boundary(bytes: Seq<u8>, i: int)
    requires
        vstd::utf8::valid_utf8(bytes),
        0 <= i < bytes.len(),
        bytes[i] < 0x80u8,
    ensures
        vstd::utf8::is_char_boundary(bytes, i),
        vstd::utf8::is_char_boundary(bytes, i + 1),
    decreases bytes.len(),
{
    vstd::utf8::is_char_boundary_iff_not_is_continuation_byte(bytes, i);
    let l = vstd::utf8::length_of_first_scalar(bytes);
    let rest = vstd::utf8::pop_first_scalar(bytes);
    assert(rest.len() == bytes.len() - l);
    if i < l {
        if i > 0 {
            assert(!vstd::utf8::is_char_boundary(rest, i - l));
        }
        assert(i == 0);
        assert(l == 1);
        assert(vstd::utf8::is_char_boundary(bytes, 1) == vstd::utf8::is_char_boundary(rest, 0));
    } else {
        assert(rest[i - l] == bytes[i]);
        lemma_after_ascii_is_boundary(rest, i - l);
    }
}

/// The elements found from `i` on are each a value: its range is where
/// [`value_end`] takes it.
pub proof fn lemma_index_from_values(b: Seq<u8>, i: int, acc: Seq<(int, int)>)
    requires
        0 <= i,
        forall|k: int| 0 <= k < acc.len() ==> value_end(b, (#[trigger] acc[k]).0) == Ok::<
            int,
            ScanError,
        >(acc[k].1),
    ensures
        index_from(b, i, acc) matches Ok(v) ==> forall|k: int|
            0 <= k < v.len() ==> value_end(b, (#[trigger] v[k]).0) == Ok::<int, ScanError>(
                v[k].1,
            ),
    decreases b.len() - i,
{
    lemma_value_end(b, i);
    if let Ok(e) = value_end(b, i) {
        let acc2 = acc.push((i, e));
        assert forall|k: int| 0 <= k < acc2.len() implies value_end(b, (#[trigger] acc2[k]).0)
            == Ok::<int, ScanError>(acc2[k].1) by {
            if k < acc.len() {
                assert(acc2[k] == acc[k]);
            }
        }
        let j = ws_end(b, e);
        lemma_ws_end(b, e);
        if j < b.len() && b[j] == 0x2Cu8 {
            lemma_ws_end(b, j + 1);
            lemma_index_from_values(b, ws_end(b, j + 1), acc2);
        }
    }
}

/// Every element range of the root index of a valid UTF-8 text starts and
/// ends on character boundaries.
pub proof fn lemma_root_index_boundaries(b: Seq<u8>)
    requires
        vstd::utf8::valid_utf8(b),
    ensures
        root_index(b) matches Ok(v) ==> forall|k: int|
            0 <= k < v.len() ==> vstd::utf8::is_char_boundary(b, (#[trigger] v[k]).0)
                && vstd::utf8::is_char_boundary(b, v[k].1) && 0 <= v[k].0 < v[k].1 <= b.len(),
{
    if let Ok(v) = root_index(b) {
        let i = ws_end(b, 0);
        lemma_ws_end(b, 0);
        lemma_ws_end(b, i + 1);
        let i2 = ws_end(b, i + 1);
        if !(i2 < b.len() && b[i2] == 0x5Du8) {
            lemma_index_from_values(b, i2, Seq::empty());
            assert forall|k: int| 0 <= k < v.len() implies vstd::utf8::is_char_boundary(
                b,
                (#[trigger] v[k]).0,
            ) && vstd::utf8::is_char_boundary(b, v[k].1) && 0 <= v[k].0 < v[k].1 <= b.len() by {
                lemma_index_from_ordered(b, i2, Seq::empty());
                lemma_value_ascii_ends(b, v[k].0);
                lemma_after_ascii_is_boundary(b, v[k].0);
                lemma_after_ascii_is_boundary(b, v[k].1 - 1);
            }
        }
    }
}

// ---------------------------------------------------------------------------
// Documents read lazily
// ---------------------------------------------------------------------------

/// How many bytes of a collection are counted for a preview.
pub const COUNT_BUDGET_BYTES: usize = 65536;

/// What `sonic_rs::from_str::<IgnoredAny>` makes of a text: `None` when it
/// accepts it, otherwise its error message.
pub uninterp spec fn sonic_parse(text: Seq<char>) -> Option<Seq<char>>;

/// `sonic_rs::from_str::<IgnoredAny>`: validates a text as one JSON value.
#[verifier::external_body]
fn sonic_check(text: &str) -> (r: Option<String>)
    ensures
        match r {
            Some(m) => sonic_parse(text@) == Some(m@),
            None => sonic_parse(text@) is None,
        },
{
    match sonic_rs::from_str::<serde::de::IgnoredAny>(text) {
        Ok(_) => None,
        Err(e) => Some(e.to_string()),
    }
}

/// An error of `sonic_rs`.
#[verifier::external_type_specification]
#[verifier::external_body]
pub struct ExSonicError(sonic_rs::Error);

/// A value of `sonic_rs` read lazily from a text.
#[verifier::external_type_specification]
#[verifier::external_body]
pub struct ExLazyValue<'a>(sonic_rs::LazyValue<'a>);

/// An iterator of `sonic_rs` over the elements of an array text.
#[verifier::external_type_specification]
#[verifier::external_body]
pub struct ExArrayJsonIter<'a>(sonic_rs::ArrayJsonIter<'a>);

/// An iterator of `sonic_rs` over the members of an object text.
#[verifier::external_type_specification]
#[verifier::external_body]
pub struct ExObjectJsonIter<'a>(sonic_rs::ObjectJsonIter<'a>);

/// What an element iterator has still to hand out, step by step: the raw
/// text of an element it reads, or `None` for an error (after which it
/// ends). The iterators made here hand out values inside the text they
/// iterate, so each is shorter than that text, and nothing follows an
/// error.
pub uninterp spec fn array_items(it: sonic_rs::ArrayJsonIter<'_>) -> Seq<Option<Seq<char>>>;

/// What a member iterator has still to hand out: the key (escapes
/// resolved) and the raw text of the value of each member it reads, or
/// `None` for an error (after which it ends).
pub uninterp spec fn object_items(it: sonic_rs::ObjectJsonIter<'_>) -> Seq<
    Option<(Seq<char>, Seq<char>)>,
>;

/// What `sonic_rs` hands out iterating the array that a text holds; `None`
/// when it does not read the text or the value is not an array.
pub uninterp spec fn sonic_elements(text: Seq<char>) -> Option<Seq<Option<Seq<char>>>>;

/// What `sonic_rs` hands out iterating the object that a text holds; `None`
/// when it does not read the text or the value is not an object.
pub uninterp spec fn sonic_members(text: Seq<char>) -> Option<
    Seq<Option<(Seq<char>, Seq<char>)>>,
>;

/// The text of an item handed out, if any.
pub open spec fn raw_view(o: Option<String>) -> Option<Seq<char>> {
    match o {
        Some(t) => Some(t@),
        None => None,
    }
}

/// The key and value text of a member handed out, if any.
pub open spec fn member_view(o: Option<(String, String)>) -> Option<(Seq<char>, Seq<char>)> {
    match o {
        Some(m) => Some((m.0@, m.1@)),
        None => None,
    }
}

/// The raw text of the value `sonic_rs::get_from_str` finds at the empty
/// path of a text: the raw text of its root value.
pub uninterp spec fn sonic_value(text: Seq<char>) -> Option<Seq<char>>;

/// `sonic_rs::get_from_str` with the empty path, then
/// `LazyValue::as_raw_str`.
#[verifier::external_body]
pub(crate) fn value_raw(text: &str) -> (r: Option<String>)
    ensures
        raw_view(r) == sonic_value(text@),
{
    let empty: &[&str] = &[];
    sonic_rs::get_from_str(text, empty).ok().map(|v| v.as_raw_str().to_string())
}

/// `sonic_rs::get_from_str` with the empty path, then
/// `LazyValue::into_array_iter`.
#[verifier::external_body]
pub(crate) fn array_iter(text: &str) -> (r: Option<sonic_rs::ArrayJsonIter<'_>>)
    ensures
        match r {
            Some(it) => sonic_elements(text@) == Some(array_items(it)),
            None => sonic_elements(text@) is None,
        },
        r matches Some(it) ==> forall|k: int|
            0 <= k < array_items(it).len() && #[trigger] array_items(it)[k] is Some
                ==> array_items(it)[k].unwrap().len() < text@.len(),
        r matches Some(it) ==> forall|k: int|
            0 <= k < array_items(it).len() && #[trigger] array_items(it)[k] is None ==> k
                == array_items(it).len() - 1,
{
    let empty: &[&str] = &[];
    sonic_rs::get_from_str(text, empty).ok()?.into_array_iter()
}

/// `sonic_rs::get_from_str` with the empty path, then
/// `LazyValue::into_object_iter`.
#[verifier::external_body]
pub(crate) fn object_iter(text: &str) -> (r: Option<sonic_rs::ObjectJsonIter<'_>>)
    ensures
        match r {
            Some(it) => sonic_members(text@) == Some(object_items(it)),
            None => sonic_members(text@) is None,
        },
        r matches Some(it) ==> forall|k: int|
            0 <= k < object_items(it).len() && #[trigger] object_items(it)[k] is Some
                ==> object_items(it)[k].unwrap().1.len() < text@.len(),
        r matches Some(it) ==> forall|k: int|
            0 <= k < object_items(it).len() && #[trigger] object_items(it)[k] is None ==> k
                == object_items(it).len() - 1,
{
    let empty: &[&str] = &[];
    sonic_rs::get_from_str(text, empty).ok()?.into_object_iter()
}

/// `ArrayJsonIter::next`, with `LazyValue::as_raw_str` of an element it
/// reads; `None` at the end, `Some(None)` for an error.
#[verifier::external_body]
pub(crate) fn array_next(it: &mut sonic_rs::ArrayJsonIter<'_>) -> (r: Option<Option<String>>)
    ensures
        array_items(*old(it)).len() == 0 ==> r is None,
        array_items(*old(it)).len() > 0 ==> (r is Some && array_items(*old(it))[0] == raw_view(
            r.unwrap(),
        ) && array_items(*final(it)) == array_items(*old(it)).drop_first()),
{
    match it.next() {
        Some(Ok(v)) => Some(Some(v.as_raw_str().to_string())),
        Some(Err(_)) => Some(None),
        None => None,
    }
}

/// `ObjectJsonIter::next`, with the key and `LazyValue::as_raw_str` of the
/// value of a member it reads; `None` at the end, `Some(None)` for an
/// error.
#[verifier::external_body]
pub(crate) fn object_next(it: &mut sonic_rs::ObjectJsonIter<'_>) -> (r: Option<
    Option<(String, String)>,
>)
    ensures
        object_items(*old(it)).len() == 0 ==> r is None,
        object_items(*old(it)).len() > 0 ==> (r is Some && object_items(*old(it))[0]
            == member_view(r.unwrap()) && object_items(*final(it)) == object_items(
            *old(it),
        ).drop_first()),
{
    match it.next() {
        Some(Ok((k, v))) => Some(Some((k.into_owned(), v.as_raw_str().to_string()))),
        Some(Err(_)) => Some(None),
        None => None,
    }
}

/// How many steps read something.
pub open spec fn count_read<T>(steps: Seq<Option<T>>) -> nat
    decreases steps.len(),
{
    if steps.len() == 0 {
        0
    } else {
        count_read(steps.drop_last()) + if steps.last() is Some {
            1nat
        } else {
            0nat
        }
    }
}

/// A count kept to its low 32 bits.
pub open spec fn low32(n: nat) -> u32 {
    (n % 0x1_0000_0000) as u32
}

/// How many members `sonic_rs` reads from the object a text holds
/// (members it cannot read are not counted), to the low 32 bits; `None`
/// when the value is not an object.
pub open spec fn sonic_member_count(text: Seq<char>) -> Option<u32> {
    match sonic_members(text) {
        Some(st) => Some(low32(count_read(st))),
        None => None,
    }
}

/// How many elements `sonic_rs` reads from the array a text holds, to the
/// low 32 bits; `None` when the value is not an array.
pub open spec fn sonic_element_count(text: Seq<char>) -> Option<u32> {
    match sonic_elements(text) {
        Some(st) => Some(low32(count_read(st))),
        None => None,
    }
}

proof fn lemma_count_read_step<T>(steps: Seq<Option<T>>, k: int)
    requires
        0 <= k < steps.len(),
    ensures
        count_read(steps.take(k + 1)) == count_read(steps.take(k)) + if steps[k] is Some {
            1nat
        } else {
            0nat
        },
{
    assert(steps.take(k + 1).drop_last() =~= steps.take(k));
}

/// Adds one to a count kept to its low 32 bits.
pub(crate) fn bump_low32(c: u32, Ghost(n): Ghost<nat>) -> (r: u32)
    requires
        c == low32(n),
    ensures
        r == low32(n + 1),
{
    if c == u32::MAX {
        0
    } else {
        c + 1
    }
}

/// The elements of the array a text holds, as `sonic_rs` iterates them,
/// counted (see [`sonic_element_count`]).
pub(crate) fn sonic_root_elements(text: &str) -> (r: Option<u32>)
    ensures
        r == sonic_element_count(text@),
{
    let mut it = match array_iter(text) {
        Some(it) => it,
        None => {
            return None;
        },
    };
    let ghost all = array_items(it);
    let mut c: u32 = 0;
    let ghost mut k: int = 0;
    loop
        invariant
            0 <= k <= all.len(),
            array_items(it) == all.skip(k),
            c == low32(count_read(all.take(k))),
            sonic_elements(text@) == Some(all),
        decreases all.len() - k,
    {
        match array_next(&mut it) {
            Some(o) => {
                proof {
                    assert(all.skip(k)[0] == all[k]);
                    assert(all.skip(k).drop_first() =~= all.skip(k + 1));
                    lemma_count_read_step(all, k);
                }
                if o.is_some() {
                    c = bump_low32(c, Ghost(count_read(all.take(k))));
                }
                proof {
                    k = k + 1;
                }
            },
            None => {
                proof {
                    assert(all.take(k) =~= all);
                }
                return Some(c);
            },
        }
    }
}

/// The members of the object a text holds, as `sonic_rs` iterates them,
/// counted (see [`sonic_member_count`]).
pub(crate) fn sonic_root_members(text: &str) -> (r: Option<u32>)
    ensures
        r == sonic_member_count(text@),
{
    let mut it = match object_iter(text) {
        Some(it) => it,
        None => {
            return None;
        },
    };
    let ghost all = object_items(it);
    let mut c: u32 = 0;
    let ghost mut k: int = 0;
    loop
        invariant
            0 <= k <= all.len(),
            object_items(it) == all.skip(k),
            c == low32(count_read(all.take(k))),
            sonic_members(text@) == Some(all),
        decreases all.len() - k,
    {
        match object_next(&mut it) {
            Some(o) => {
                proof {
                    assert(all.skip(k)[0] == all[k]);
                    assert(all.skip(k).drop_first() =~= all.skip(k + 1));
                    lemma_count_read_step(all, k);
                }
                if o.is_some() {
                    c = bump_low32(c, Ghost(count_read(all.take(k))));
                }
                proof {
                    k = k + 1;
                }
            },
            None => {
                proof {
                    assert(all.take(k) =~= all);
                }
                return Some(c);
            },
        }
    }
}

/// The records of an array, one per line: the text of each element range of
/// `b` in order, each followed by a line feed.
pub open spec fn ndjson_of(b: Seq<u8>, spans: Seq<(int, int)>) -> Seq<char>
    decreases spans.len(),
{
    if spans.len() == 0 {
        Seq::empty()
    } else {
        let last = spans.last();
        ndjson_of(b, spans.drop_last()) + vstd::utf8::decode_utf8(b.subrange(last.0, last.1))
            + seq!['\n']
    }
}

/// In valid UTF-8, a boundary at or after boundary `a` is still one in the
/// bytes from `a` on.
proof fn lemma_boundary_in_suffix(b: Seq<u8>, a: int, e: int)
    requires
        vstd::utf8::valid_utf8(b),
        0 <= a <= e <= b.len(),
        vstd::utf8::is_char_boundary(b, a),
        vstd::utf8::is_char_boundary(b, e),
    ensures
        vstd::utf8::valid_utf8(b.subrange(a, b.len() as int)),
        vstd::utf8::is_char_boundary(b.subrange(a, b.len() as int), e - a),
{
    let rest = b.subrange(a, b.len() as int);
    vstd::utf8::valid_utf8_split(b, a);
    if e < b.len() {
        vstd::utf8::is_char_boundary_iff_not_is_continuation_byte(b, e);
        assert(rest[e - a] == b[e]);
        vstd::utf8::is_char_boundary_iff_not_is_continuation_byte(rest, e - a);
    } else {
        vstd::utf8::is_char_boundary_start_end_of_seq(rest);
    }
}

/// A document kept as its source text: the root's kind, and for an array
/// root the byte range of every element.
#[derive(Debug)]
pub struct LazyDoc {
    source: String,
    root_kind: NodeKind,
    root_index: Option<Vec<(u32, u32)>>,
}

impl LazyDoc {
    /// The text the document was made from.
    pub closed spec fn source_text(&self) -> Seq<char> {
        self.source@
    }

    pub closed spec fn kind_spec(&self) -> NodeKind {
        self.root_kind
    }

    pub closed spec fn index_spec(&self) -> Option<Seq<(int, int)>> {
        match self.root_index {
            Some(v) => Some(spans_view(v@)),
            None => None,
        }
    }

    /// The bytes of the source text.
    pub closed spec fn source_bytes(&self) -> Seq<u8> {
        vstd::utf8::encode_utf8(self.source@)
    }

    /// What a document read lazily keeps true: the root kind is read from
    /// the source, and an array root, and only that, has the element index
    /// that [`root_index`] gives.
    #[verifier::type_invariant]
    closed spec fn inv(&self) -> bool {
        let b = vstd::utf8::encode_utf8(self.source@);
        &&& b.len() <= u32::MAX
        &&& self.root_kind == root_kind_spec(b)
        &&& (self.root_kind == NodeKind::Array) == (self.root_index is Some)
        &&& self.root_index matches Some(v) ==> root_index(b) == Ok::<
            Seq<(int, int)>,
            ScanError,
        >(spans_view(v@))
    }

    /// Reads `text` as a document: `sonic_rs` validates it, then its root
    /// kind is read and, for an array root, its element index is built.
    pub fn new(text: &str) -> (r: Result<LazyDoc, ScanError>)
        requires
            text.spec_bytes().len() <= u32::MAX,
        ensures
            match r {
                Ok(d) => {
                    &&& sonic_parse(text@) is None
                    &&& d.source_text() == text@
                    &&& d.kind_spec() == root_kind_spec(text.spec_bytes())
                    &&& d.kind_spec() == NodeKind::Array ==> root_index(text.spec_bytes()) == Ok::<
                        Seq<(int, int)>,
                        ScanError,
                    >(d.index_spec().unwrap()) && d.index_spec() is Some
                    &&& d.kind_spec() != NodeKind::Array ==> d.index_spec() is None
                },
                Err(e) => {
                    ||| e is Invalid && sonic_parse(text@) == Some(e->0@)
                    ||| sonic_parse(text@) is None && root_kind_spec(text.spec_bytes())
                        == NodeKind::Array && root_index(text.spec_bytes()) == Err::<
                        Seq<(int, int)>,
                        ScanError,
                    >(e)
                },
            },
    {
        if let Some(m) = sonic_check(text) {
            return Err(ScanError::Invalid(m));
        }
        let root_kind = root_kind_of(text);
        let root_index = if root_kind == NodeKind::Array {
            match build_root_index(text.as_bytes()) {
                Ok(v) => Some(v),
                Err(e) => {
                    return Err(e);
                },
            }
        } else {
            None
        };
        let source = text.to_owned();
        Ok(LazyDoc { source, root_kind, root_index })
    }

    pub fn root_kind(&self) -> (r: NodeKind)
        ensures
            r == self.kind_spec(),
    {
        self.root_kind
    }

    pub fn source(&self) -> (r: &str)
        ensures
            r@ == self.source_text(),
    {
        self.source.as_str()
    }

    /// The places a search of the document looks at: its member keys and
    /// string values in depth-first order (see [`crate::search::search_places`]).
    pub fn search_places(&self) -> (r: Vec<crate::search::Place>)
        ensures
            crate::search::places_view(r@) == crate::search::search_places(self.source_text()),
    {
        crate::search::places_of(self.source.as_str())
    }

    /// The byte range of every element, for an array root.
    pub fn root_element_spans(&self) -> (r: Option<&[(u32, u32)]>)
        ensures
            match r {
                Some(s) => self.index_spec() == Some(spans_view(s@)),
                None => self.index_spec() is None,
            },
    {
        match &self.root_index {
            Some(v) => Some(v.as_slice()),
            None => None,
        }
    }

    /// The text of element `i` of an array root; `None` when the root is
    /// not an array or has no element `i`.
    pub fn element_text(&self, i: usize) -> (r: Option<&str>)
        ensures
            match self.index_spec() {
                Some(ix) => if i < ix.len() {
                    r is Some && r.unwrap()@ == vstd::utf8::decode_utf8(
                        self.source_bytes().subrange(ix[i as int].0, ix[i as int].1),
                    )
                } else {
                    r is None
                },
                None => r is None,
            },
    {
        proof {
            use_type_invariant(self);
        }
        let spans = match &self.root_index {
            Some(v) => v,
            None => {
                return None;
            },
        };
        if i >= spans.len() {
            return None;
        }
        let src = self.source.as_str();
        let ghost b = src.spec_bytes();
        let (a, e) = spans[i];
        proof {
            vstd::utf8::encode_utf8_valid_utf8(src@);
            assert(b == self.source_bytes());
            assert(root_index(b) == Ok::<Seq<(int, int)>, ScanError>(spans_view(spans@)));
            lemma_root_index_boundaries(b);
            let sv = spans_view(spans@);
            assert(root_index(b) matches Ok(v) && v == sv);
            assert(sv[i as int] == (a as int, e as int));
            lemma_boundary_in_suffix(b, a as int, e as int);
        }
        let (_, rest) = src.split_at(a as usize);
        let (piece, _) = rest.split_at((e - a) as usize);
        proof {
            assert(piece.spec_bytes() =~= b.subrange(a as int, e as int));
            vstd::utf8::encode_utf8_decode_utf8(piece@);
        }
        Some(piece)
    }

    /// For an array root, its elements one per line: the text of each, in
    /// order, followed by a line feed; `None` for any other root.
    pub fn ndjson_text(&self) -> (r: Option<String>)
        ensures
            match self.index_spec() {
                Some(ix) => r is Some && r.unwrap()@ == ndjson_of(self.source_bytes(), ix),
                None => r is None,
            },
    {
        proof {
            use_type_invariant(self);
        }
        let spans = match &self.root_index {
            Some(v) => v,
            None => {
                return None;
            },
        };
        let src = self.source.as_str();
        let ghost b = src.spec_bytes();
        proof {
            vstd::utf8::encode_utf8_valid_utf8(src@);
            assert(b == self.source_bytes());
            assert(root_index(b) == Ok::<Seq<(int, int)>, ScanError>(spans_view(spans@)));
            lemma_root_index_boundaries(b);
            let sv = spans_view(spans@);
            assert forall|m: int| 0 <= m < sv.len() implies vstd::utf8::is_char_boundary(
                b,
                (#[trigger] sv[m]).0,
            ) && vstd::utf8::is_char_boundary(b, sv[m].1) && 0 <= sv[m].0 < sv[m].1 <= b.len() by {
                assert(root_index(b) matches Ok(v) && v == sv);
            }
        }
        let mut out = String::new();
        let mut k: usize = 0;
        while k < spans.len()
            invariant
                k <= spans@.len(),
                b == src.spec_bytes(),
                vstd::utf8::valid_utf8(b),
                forall|m: int|
                    0 <= m < spans_view(spans@).len() ==> vstd::utf8::is_char_boundary(
                        b,
                        (#[trigger] spans_view(spans@)[m]).0,
                    ) && vstd::utf8::is_char_boundary(b, spans_view(spans@)[m].1) && 0
                        <= spans_view(spans@)[m].0 < spans_view(spans@)[m].1 <= b.len(),
                out@ == ndjson_of(b, spans_view(spans@).take(k as int)),
            decreases spans@.len() - k,
        {
            let (a, e) = spans[k];
            assert(spans_view(spans@)[k as int] == (a as int, e as int));
            proof {
                lemma_boundary_in_suffix(b, a as int, e as int);
            }
            let (_, rest) = src.split_at(a as usize);
            let (piece, _) = rest.split_at((e - a) as usize);
            proof {
                assert(piece.spec_bytes() =~= b.subrange(a as int, e as int));
                vstd::utf8::encode_utf8_decode_utf8(piece@);
            }
            push_text(&mut out, piece);
            push_char(&mut out, '\n');
            assert(spans_view(spans@).take(k + 1).drop_last() =~= spans_view(spans@).take(
                k as int,
            ));
            k += 1;
        }
        assert(spans_view(spans@).take(spans@.len() as int) =~= spans_view(spans@));
        Some(out)
    }

    /// The root's number of children: the element count of an array root;
    /// for an object root whose text is at most 16 counting budgets long, the
    /// members `sonic_rs` reads; otherwise `None`. Counts keep their low 32
    /// bits.
    pub open spec fn child_count_spec(&self) -> Option<u32> {
        match self.index_spec() {
            Some(ix) => Some(ix.len() as u32),
            None => if self.kind_spec() != NodeKind::Object {
                None
            } else if vstd::utf8::encode_utf8(self.source_text()).len() > COUNT_BUDGET_BYTES * 16 {
                None
            } else {
                sonic_member_count(self.source_text())
            },
        }
    }

    /// The number of children of the root: the element count of an array
    /// root; for an object root whose text is at most 16 counting budgets
    /// long, the members `sonic_rs` reads; otherwise `None`.
    pub fn root_child_count(&self) -> (r: Option<u32>)
        ensures
            r == self.child_count_spec(),
    {
        if let Some(idx) = &self.root_index {
            #[verifier::truncate]
            let n = idx.len() as u32;
            return Some(n);
        }
        if self.root_kind != NodeKind::Object {
            return None;
        }
        let src = self.source.as_str();
        if src.as_bytes().len() > COUNT_BUDGET_BYTES * 16 {
            return None;
        }
        sonic_root_members(src)
    }
}

} // verus!

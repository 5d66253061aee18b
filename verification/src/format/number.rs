//! JSON5 number tokens rewritten as JSON numbers: hexadecimal literals become
//! decimal, a leading `+` is dropped, and `.5` / `5.` get their missing zero.
use vstd::prelude::*;

use crate::text::{ascii_hexdigit, is_ascii_hexdigit};

verus! {

/// Value of one hexadecimal digit.
pub open spec fn hex_digit_value(c: char) -> nat {
    if '0' <= c && c <= '9' {
        (c as int - '0' as int) as nat
    } else if 'a' <= c && c <= 'f' {
        (c as int - 'a' as int + 10) as nat
    } else {
        (c as int - 'A' as int + 10) as nat
    }
}

/// Value of a string of hexadecimal digits, most significant first.
pub open spec fn hex_value(d: Seq<char>) -> nat
    decreases d.len(),
{
    if d.len() == 0 {
        0
    } else {
        hex_value(d.drop_last()) * 16 + hex_digit_value(d.last())
    }
}

pub open spec fn all_hex(d: Seq<char>) -> bool {
    forall|k: int| 0 <= k < d.len() ==> is_ascii_hexdigit(#[trigger] d[k])
}

/// What `u128::from_str_radix(s, 16)` accepts and returns: an optional `+`,
/// then one or more hexadecimal digits whose value fits in a `u128`.
pub open spec fn parse_hex_u128(s: Seq<char>) -> Option<nat> {
    let d = if s.len() > 0 && s[0] == '+' {
        s.drop_first()
    } else {
        s
    };
    if d.len() == 0 || !all_hex(d) || hex_value(d) > u128::MAX {
        None
    } else {
        Some(hex_value(d))
    }
}

pub open spec fn digit_char(d: nat) -> char {
    if d == 0 {
        '0'
    } else if d == 1 {
        '1'
    } else if d == 2 {
        '2'
    } else if d == 3 {
        '3'
    } else if d == 4 {
        '4'
    } else if d == 5 {
        '5'
    } else if d == 6 {
        '6'
    } else if d == 7 {
        '7'
    } else if d == 8 {
        '8'
    } else {
        '9'
    }
}

/// Decimal digits of `n`, without leading zeros (how integers print).
pub open spec fn decimal(n: nat) -> Seq<char>
    decreases n,
{
    if n < 10 {
        seq![digit_char(n)]
    } else {
        decimal(n / 10).push(digit_char(n % 10))
    }
}

/// Value of a string of decimal digits.
pub open spec fn decimal_value(d: Seq<char>) -> int
    decreases d.len(),
{
    if d.len() == 0 {
        0
    } else {
        decimal_value(d.drop_last()) * 10 + (d.last() as int - '0' as int)
    }
}

proof fn lemma_digit_char(d: nat)
    requires
        d < 10,
    ensures
        digit_char(d) as int - '0' as int == d,
{
}

/// Law: the decimal rendering of `n` reads back as `n`.
pub proof fn lemma_decimal_value(n: nat)
    ensures
        decimal_value(decimal(n)) == n,
        decimal(n).len() >= 1,
    decreases n,
{
    lemma_digit_char(n % 10);
    let d = decimal(n);
    if n >= 10 {
        lemma_decimal_value(n / 10);
        assert(d.drop_last() =~= decimal(n / 10));
        assert(d.last() == digit_char(n % 10));
        assert(n == (n / 10) * 10 + n % 10);
        assert(decimal_value(d) == decimal_value(decimal(n / 10)) * 10 + (digit_char(n % 10) as int
            - '0' as int));
    } else {
        assert(d.drop_last() =~= Seq::<char>::empty());
        assert(decimal_value(Seq::<char>::empty()) == 0);
        assert(n % 10 == n);
    }
}

proof fn lemma_hex_value_prefix(d: Seq<char>, k: int, m: int)
    requires
        0 <= k <= m <= d.len(),
    ensures
        hex_value(d.take(k)) <= hex_value(d.take(m)),
    decreases m - k,
{
    if k < m {
        lemma_hex_value_prefix(d, k, m - 1);
        assert(d.take(m).drop_last() =~= d.take(m - 1));
    }
}

fn hex_digit(c: char) -> (v: u128)
    requires
        is_ascii_hexdigit(c),
    ensures
        v as nat == hex_digit_value(c),
        v < 16,
{
    if '0' <= c && c <= '9' {
        (c as u32 - '0' as u32) as u128
    } else if 'a' <= c && c <= 'f' {
        (c as u32 - 'a' as u32 + 10) as u128
    } else {
        (c as u32 - 'A' as u32 + 10) as u128
    }
}

/// `u128::from_str_radix(s, 16)`, on the characters of `s`.
pub fn parse_hex(s: &[char]) -> (r: Option<u128>)
    ensures
        match r {
            Some(n) => parse_hex_u128(s@) == Some(n as nat),
            None => parse_hex_u128(s@) is None,
        },
{
    let start: usize = if s.len() > 0 && s[0] == '+' {
        1
    } else {
        0
    };
    let ghost d = if s@.len() > 0 && s@[0] == '+' {
        s@.drop_first()
    } else {
        s@
    };
    assert(d =~= s@.skip(start as int));
    if s.len() == start {
        return None;
    }
    let mut acc: u128 = 0;
    let mut k = start;
    while k < s.len()
        invariant
            start <= k <= s@.len(),
            d == (if s@.len() > 0 && s@[0] == '+' {
                s@.drop_first()
            } else {
                s@
            }),
            d =~= s@.skip(start as int),
            d.len() > 0,
            all_hex(d.take(k - start)),
            acc as nat == hex_value(d.take(k - start)),
        decreases s@.len() - k,
    {
        let c = s[k];
        let ghost dk = d.take(k - start + 1);
        assert(dk.drop_last() =~= d.take(k - start));
        assert(dk.last() == c);
        if !ascii_hexdigit(c) {
            assert(!all_hex(d)) by {
                assert(d[k - start] == c);
            }
            return None;
        }
        let v = hex_digit(c);
        let next = match acc.checked_mul(16) {
            Some(m) => m.checked_add(v),
            None => None,
        };
        match next {
            Some(n) => {
                acc = n;
                assert forall|m: int| 0 <= m < dk.len() implies is_ascii_hexdigit(#[trigger] dk[m]) by {
                    if m < dk.len() - 1 {
                        assert(dk[m] == d.take(k - start)[m]);
                    }
                }
            },
            None => {
                proof {
                    lemma_hex_value_prefix(d, k - start + 1, d.len() as int);
                    assert(d.take(d.len() as int) =~= d);
                }
                return None;
            },
        }
        k += 1;
    }
    assert(d.take(k - start) =~= d);
    Some(acc)
}

fn digit(d: u128) -> (c: char)
    requires
        d < 10,
    ensures
        c == digit_char(d as nat),
{
    if d == 0 {
        '0'
    } else if d == 1 {
        '1'
    } else if d == 2 {
        '2'
    } else if d == 3 {
        '3'
    } else if d == 4 {
        '4'
    } else if d == 5 {
        '5'
    } else if d == 6 {
        '6'
    } else if d == 7 {
        '7'
    } else if d == 8 {
        '8'
    } else {
        '9'
    }
}

/// Appends the decimal digits of `n` (as `n.to_string()` prints them).
pub fn push_decimal(out: &mut Vec<char>, n: u128)
    ensures
        final(out)@ == old(out)@ + decimal(n as nat),
    decreases n,
{
    if n >= 10 {
        push_decimal(out, n / 10);
    }
    out.push(digit(n % 10));
}

/// A token split into its sign and body, as `strip_prefix('-')` then
/// `strip_prefix('+')` split it.
pub open spec fn sign_split(tok: Seq<char>) -> (bool, Seq<char>) {
    if tok.len() > 0 && tok[0] == '-' {
        (true, tok.drop_first())
    } else if tok.len() > 0 && tok[0] == '+' {
        (false, tok.drop_first())
    } else {
        (false, tok)
    }
}

/// The digits after a `0x` / `0X` prefix, when there are any.
pub open spec fn hex_digits_of(body: Seq<char>) -> Option<Seq<char>> {
    if body.len() > 2 && body[0] == '0' && (body[1] == 'x' || body[1] == 'X') {
        Some(body.skip(2))
    } else {
        None
    }
}

pub open spec fn minus(neg: bool) -> Seq<char> {
    if neg {
        seq!['-']
    } else {
        Seq::empty()
    }
}

/// A bare token rewritten as a JSON number, and whether it changed: a
/// hexadecimal literal that fits in a `u128` becomes its decimal value; a
/// leading `+` goes; a leading or trailing `.` gets a `0`. Anything else is
/// kept as it is.
pub open spec fn normalized(tok: Seq<char>) -> (Seq<char>, bool) {
    let (neg, body) = sign_split(tok);
    let hex = match hex_digits_of(body) {
        Some(h) => parse_hex_u128(h),
        None => None,
    };
    match hex {
        Some(v) => (minus(neg) + decimal(v), true),
        None => {
            let lead = body.len() > 0 && body[0] == '.';
            let tail = body.len() > 0 && body.last() == '.';
            if !lead && !tail && !(tok.len() > 0 && tok[0] == '+') {
                (tok, false)
            } else {
                (minus(neg) + (if lead {
                    seq!['0']
                } else {
                    Seq::empty()
                }) + body + (if tail {
                    seq!['0']
                } else {
                    Seq::empty()
                }), true)
            }
        },
    }
}

/// Appends `tok` as a JSON number (see [`normalized`]) and says whether the
/// token had to change.
pub fn normalize_number(tok: &[char], out: &mut Vec<char>) -> (changed: bool)
    ensures
        final(out)@ == old(out)@ + normalized(tok@).0,
        changed == normalized(tok@).1,
{
    let n = tok.len();
    let neg = n > 0 && tok[0] == '-';
    let signed = n > 0 && (tok[0] == '-' || tok[0] == '+');
    let b: usize = if signed {
        1
    } else {
        0
    };
    let ghost body = sign_split(tok@).1;
    assert(body =~= tok@.skip(b as int));
    if n - b > 2 && tok[b] == '0' && (tok[b + 1] == 'x' || tok[b + 1] == 'X') {
        let h = crate::text::slice_chars(tok, b + 2, n);
        assert(h@ =~= body.skip(2));
        if let Some(v) = parse_hex(&h) {
            if neg {
                out.push('-');
            }
            push_decimal(out, v);
            assert(out@ =~= old(out)@ + normalized(tok@).0);
            return true;
        }
    }
    let lead = n - b > 0 && tok[b] == '.';
    let tail = n - b > 0 && tok[n - 1] == '.';
    if !lead && !tail && !(n > 0 && tok[0] == '+') {
        crate::text::push_all(out, tok);
        return false;
    }
    if neg {
        out.push('-');
    }
    if lead {
        out.push('0');
    }
    crate::text::push_range(out, tok, b, n);
    if tail {
        out.push('0');
    }
    assert(out@ =~= old(out)@ + normalized(tok@).0);
    true
}

/// Law: a hexadecimal token that is rewritten reads back, as a decimal
/// number, as the value of its hexadecimal digits (with its sign).
pub proof fn lemma_hex_rewrite_keeps_value(tok: Seq<char>)
    requires
        ({
            let body = sign_split(tok).1;
            hex_digits_of(body) matches Some(h) && parse_hex_u128(h) is Some
        }),
    ensures
        ({
            let (neg, body) = sign_split(tok);
            let v = parse_hex_u128(hex_digits_of(body).unwrap()).unwrap();
            let out = normalized(tok).0;
            &&& normalized(tok).1
            &&& out == minus(neg) + decimal(v)
            &&& decimal_value(decimal(v)) == v
        }),
{
    let body = sign_split(tok).1;
    lemma_decimal_value(parse_hex_u128(hex_digits_of(body).unwrap()).unwrap());
}

/// Law: an integer token (decimal digits, after an optional `-`) is kept
/// exactly as it is, however many digits it has: no integer is rounded or
/// reformatted.
pub proof fn lemma_integer_tokens_kept(tok: Seq<char>)
    requires
        tok.len() > 0,
        forall|k: int|
            0 <= k < tok.len() ==> ('0' <= #[trigger] tok[k] <= '9') || (k == 0 && tok[k] == '-'),
    ensures
        normalized(tok) == (tok, false),
{
    let (neg, body) = sign_split(tok);
    if body.len() > 1 {
        assert(body[1] == tok[if neg { 2int } else { 1int }]);
    }
    if body.len() > 0 {
        assert(body[0] == tok[if neg { 1int } else { 0int }]);
        assert(body.last() == tok.last());
    }
}

/// The hexadecimal digits in order of value, lower case.
pub open spec fn hex_digits_lower() -> Seq<char> {
    seq!['0', '1', '2', '3', '4', '5', '6', '7', '8', '9', 'a', 'b', 'c', 'd', 'e', 'f']
}

/// The hexadecimal digits in order of value, upper case.
pub open spec fn hex_digits_upper() -> Seq<char> {
    seq!['0', '1', '2', '3', '4', '5', '6', '7', '8', '9', 'A', 'B', 'C', 'D', 'E', 'F']
}

/// Law: each hexadecimal digit stands for its place in `0123456789abcdef`
/// (upper-case letters as the lower-case ones), and a string of them reads
/// as base sixteen: one more digit `c` multiplies by sixteen and adds the
/// value of `c`.
pub proof fn lemma_hex_digit_values()
    ensures
        forall|i: int| 0 <= i < 16 ==> hex_digit_value(#[trigger] hex_digits_lower()[i]) == i,
        forall|i: int| 0 <= i < 16 ==> hex_digit_value(#[trigger] hex_digits_upper()[i]) == i,
        forall|c: char| is_ascii_hexdigit(c) ==> (hex_digits_lower().contains(c)
            || hex_digits_upper().contains(c)),
        forall|d: Seq<char>, c: char| #[trigger] hex_value(d.push(c)) == hex_value(d) * 16 + hex_digit_value(c),
{
    assert(hex_digit_value('0') == 0);
    assert(hex_digit_value('1') == 1);
    assert(hex_digit_value('2') == 2);
    assert(hex_digit_value('3') == 3);
    assert(hex_digit_value('4') == 4);
    assert(hex_digit_value('5') == 5);
    assert(hex_digit_value('6') == 6);
    assert(hex_digit_value('7') == 7);
    assert(hex_digit_value('8') == 8);
    assert(hex_digit_value('9') == 9);
    assert(hex_digit_value('a') == 10);
    assert(hex_digit_value('b') == 11);
    assert(hex_digit_value('c') == 12);
    assert(hex_digit_value('d') == 13);
    assert(hex_digit_value('e') == 14);
    assert(hex_digit_value('f') == 15);
    assert(hex_digit_value('A') == 10);
    assert(hex_digit_value('B') == 11);
    assert(hex_digit_value('C') == 12);
    assert(hex_digit_value('D') == 13);
    assert(hex_digit_value('E') == 14);
    assert(hex_digit_value('F') == 15);
    assert forall|i: int| 0 <= i < 16 implies hex_digit_value(#[trigger] hex_digits_lower()[i]) == i by {
        let l = hex_digits_lower();
        assert(l[0] == '0' && l[1] == '1' && l[2] == '2' && l[3] == '3' && l[4] == '4' && l[5] == '5'
            && l[6] == '6' && l[7] == '7' && l[8] == '8' && l[9] == '9' && l[10] == 'a' && l[11] == 'b'
            && l[12] == 'c' && l[13] == 'd' && l[14] == 'e' && l[15] == 'f');
    }
    assert forall|i: int| 0 <= i < 16 implies hex_digit_value(#[trigger] hex_digits_upper()[i]) == i by {
        let u = hex_digits_upper();
        assert(u[0] == '0' && u[1] == '1' && u[2] == '2' && u[3] == '3' && u[4] == '4' && u[5] == '5'
            && u[6] == '6' && u[7] == '7' && u[8] == '8' && u[9] == '9' && u[10] == 'A' && u[11] == 'B'
            && u[12] == 'C' && u[13] == 'D' && u[14] == 'E' && u[15] == 'F');
    }
    assert forall|c: char| is_ascii_hexdigit(c) implies (hex_digits_lower().contains(c)
        || hex_digits_upper().contains(c)) by {
        let l = hex_digits_lower();
        let u = hex_digits_upper();
        let v = hex_digit_value(c) as int;
        assert(0 <= v < 16);
        if 'A' <= c && c <= 'F' {
            assert(u[v] == c);
        } else {
            assert(l[v] == c);
        }
    }
    assert forall|d: Seq<char>, c: char| #[trigger] hex_value(d.push(c)) == hex_value(d) * 16
        + hex_digit_value(c) by {
        assert(d.push(c).drop_last() =~= d);
    }
}

} // verus!

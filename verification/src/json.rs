//! The envelope wire form: a JSON document over character sequences.
//!
//! `enc_value` is the canonical text of a value: compact, with quote,
//! backslash and control characters escaped and every other character
//! standing as itself. `parse_value` reads one value back, accepting
//! inter-token whitespace, raw characters or the standard escapes
//! inside strings, and 64-bit integers. Parsing the canonical text of
//! any representable value returns exactly that value.

use vstd::prelude::*;

use crate::value::SpecValue;
use crate::value::wf_value;
use crate::value::Value;

verus! {

// ---------------------------------------------------------------------------
// Characters and digits
// ---------------------------------------------------------------------------

/// Decimal digit characters.
pub open spec fn is_digit(c: char) -> bool {
    48 <= c as u32 <= 57
}

/// The numeric value of a decimal digit character.
pub open spec fn digit_val(c: char) -> int {
    c as u32 - 48
}

/// The character for a decimal digit value.
pub open spec fn digit_char(d: int) -> char {
    ((48 + d) as u8) as char
}

/// Lower-case hexadecimal digit characters, upper case accepted.
pub open spec fn is_hex(c: char) -> bool {
    is_digit(c) || (97 <= c as u32 <= 102) || (65 <= c as u32 <= 70)
}

/// The numeric value of a hexadecimal digit character.
pub open spec fn hex_val(c: char) -> int {
    if is_digit(c) {
        digit_val(c)
    } else if 97 <= c as u32 <= 102 {
        c as u32 - 87
    } else {
        c as u32 - 55
    }
}

/// The lower-case character for a hexadecimal digit value.
pub open spec fn hex_char(d: int) -> char {
    if d < 10 {
        digit_char(d)
    } else {
        ((87 + d) as u8) as char
    }
}

// ---------------------------------------------------------------------------
// Canonical encoding
// ---------------------------------------------------------------------------

/// The decimal digits of a natural number, most significant first.
pub open spec fn dec_digits(n: nat) -> Seq<char>
    decreases n,
{
    if n < 10 {
        seq![digit_char(n as int)]
    } else {
        dec_digits(n / 10).push(digit_char((n % 10) as int))
    }
}

/// The canonical text of an integer.
pub open spec fn enc_int(i: int) -> Seq<char> {
    if i < 0 {
        seq!['-'] + dec_digits((-i) as nat)
    } else {
        dec_digits(i as nat)
    }
}

/// The canonical text of one character inside a string literal:
/// quote and backslash are escaped, control characters take the
/// `\u00..` form, everything else stands as itself.
pub open spec fn enc_char(c: char) -> Seq<char> {
    if c == '"' {
        seq!['\\', '"']
    } else if c == '\\' {
        seq!['\\', '\\']
    } else if (c as u32) < 32 {
        seq![
            '\\',
            'u',
            '0',
            '0',
            hex_char(c as u32 as int / 16),
            hex_char(c as u32 as int % 16),
        ]
    } else {
        seq![c]
    }
}

/// The canonical text of a string literal's body.
pub open spec fn enc_str_body(s: Seq<char>) -> Seq<char>
    decreases s.len(),
{
    if s.len() == 0 {
        Seq::empty()
    } else {
        enc_char(s[0]) + enc_str_body(s.drop_first())
    }
}

/// The canonical text of a string literal, quotes included.
pub open spec fn enc_string(s: Seq<char>) -> Seq<char> {
    seq!['"'] + enc_str_body(s) + seq!['"']
}

/// The canonical text of a value.
pub open spec fn enc_value(v: SpecValue) -> Seq<char>
    decreases v, 0int,
{
    match v {
        SpecValue::Null => seq!['n', 'u', 'l', 'l'],
        SpecValue::Bool(b) => if b {
            seq!['t', 'r', 'u', 'e']
        } else {
            seq!['f', 'a', 'l', 's', 'e']
        },
        SpecValue::Int(i) => enc_int(i),
        SpecValue::Str(s) => enc_string(s),
        SpecValue::Arr(a) => seq!['['] + enc_elems(a) + seq![']'],
        SpecValue::Obj(o) => seq!['{'] + enc_members(o) + seq!['}'],
    }
}

/// The canonical text between an array's brackets.
pub open spec fn enc_elems(a: Seq<SpecValue>) -> Seq<char>
    decreases a, 1int,
{
    if a.len() == 0 {
        Seq::empty()
    } else if a.len() == 1 {
        enc_value(a[0])
    } else {
        enc_value(a[0]) + seq![','] + enc_elems(a.drop_first())
    }
}

/// The canonical text between an object's braces.
pub open spec fn enc_members(o: Seq<(Seq<char>, SpecValue)>) -> Seq<char>
    decreases o, 1int,
{
    if o.len() == 0 {
        Seq::empty()
    } else if o.len() == 1 {
        enc_string(o[0].0) + seq![':'] + enc_value(o[0].1)
    } else {
        enc_string(o[0].0) + seq![':'] + enc_value(o[0].1) + seq![','] + enc_members(
            o.drop_first(),
        )
    }
}

// ---------------------------------------------------------------------------
// Parsing
// ---------------------------------------------------------------------------

/// JSON inter-token whitespace.
pub open spec fn is_ws(c: char) -> bool {
    c == ' ' || c == '\t' || c == '\n' || c == '\r'
}

/// The first position at or after `i` holding no whitespace.
pub open spec fn skip_ws(s: Seq<char>, i: int) -> int
    decreases s.len() - i,
{
    if 0 <= i < s.len() && is_ws(s[i]) {
        skip_ws(s, i + 1)
    } else {
        i
    }
}

/// The length of the run of decimal digits starting at `i`.
pub open spec fn digit_run(s: Seq<char>, i: int) -> int
    decreases s.len() - i,
{
    if 0 <= i < s.len() && is_digit(s[i]) {
        1 + digit_run(s, i + 1)
    } else {
        0
    }
}

/// The numeric value of a sequence of decimal digit characters.
pub open spec fn digits_val(t: Seq<char>) -> int
    decreases t.len(),
{
    if t.len() == 0 {
        0
    } else {
        digits_val(t.drop_last()) * 10 + digit_val(t.last())
    }
}

/// Parse an integer at `i`: an optional minus sign and a digit run of
/// at most nineteen digits with no leading zero, within the 64-bit
/// signed range.
pub open spec fn parse_int(s: Seq<char>, i: int) -> Option<(SpecValue, int)> {
    let neg = 0 <= i < s.len() && s[i] == '-';
    let d0 = if neg {
        i + 1
    } else {
        i
    };
    let run = digit_run(s, d0);
    if run == 0 || run > 19 {
        None
    } else if run > 1 && s[d0] == '0' {
        None
    } else {
        let m = digits_val(s.subrange(d0, d0 + run));
        if neg {
            if m > 0x8000_0000_0000_0000 {
                None
            } else {
                Some((SpecValue::Int(-m), d0 + run))
            }
        } else {
            if m > 0x7FFF_FFFF_FFFF_FFFF {
                None
            } else {
                Some((SpecValue::Int(m), d0 + run))
            }
        }
    }
}

/// Parse a string literal's body starting just after the opening
/// quote; the returned index is just past the closing quote.
pub open spec fn parse_str_body(s: Seq<char>, i: int) -> Option<(Seq<char>, int)>
    decreases s.len() - i,
{
    if i < 0 || i >= s.len() {
        None
    } else if s[i] == '"' {
        Some((Seq::empty(), i + 1))
    } else if s[i] == '\\' {
        if i + 1 >= s.len() {
            None
        } else {
            let e = s[i + 1];
            if e == 'u' {
                if i + 6 <= s.len() && is_hex(s[i + 2]) && is_hex(s[i + 3]) && is_hex(s[i + 4])
                    && is_hex(s[i + 5]) {
                    let code = hex_val(s[i + 2]) * 4096 + hex_val(s[i + 3]) * 256 + hex_val(
                        s[i + 4],
                    ) * 16 + hex_val(s[i + 5]);
                    if 0xD800 <= code < 0xE000 {
                        None
                    } else {
                        match parse_str_body(s, i + 6) {
                            Some((t, k)) => Some((seq![(code as u32) as char] + t, k)),
                            None => None,
                        }
                    }
                } else {
                    None
                }
            } else if e == '"' || e == '\\' || e == '/' || e == 'n' || e == 't' || e == 'r' || e
                == 'b' || e == 'f' {
                let c = if e == 'n' {
                    '\n'
                } else if e == 't' {
                    '\t'
                } else if e == 'r' {
                    '\r'
                } else if e == 'b' {
                    (8u8) as char
                } else if e == 'f' {
                    (12u8) as char
                } else {
                    e
                };
                match parse_str_body(s, i + 2) {
                    Some((t, k)) => Some((seq![c] + t, k)),
                    None => None,
                }
            } else {
                None
            }
        }
    } else if (s[i] as u32) < 32 {
        None
    } else {
        match parse_str_body(s, i + 1) {
            Some((t, k)) => Some((seq![s[i]] + t, k)),
            None => None,
        }
    }
}

/// Parse one value starting at `i`, leading whitespace allowed.
pub open spec fn parse_value(s: Seq<char>, i: int) -> Option<(SpecValue, int)>
    decreases s.len() - i, 1int,
{
    let w = skip_ws(s, i);
    if w < i || w >= s.len() {
        None
    } else if s[w] == 'n' {
        if w + 4 <= s.len() && s[w + 1] == 'u' && s[w + 2] == 'l' && s[w + 3] == 'l' {
            Some((SpecValue::Null, w + 4))
        } else {
            None
        }
    } else if s[w] == 't' {
        if w + 4 <= s.len() && s[w + 1] == 'r' && s[w + 2] == 'u' && s[w + 3] == 'e' {
            Some((SpecValue::Bool(true), w + 4))
        } else {
            None
        }
    } else if s[w] == 'f' {
        if w + 5 <= s.len() && s[w + 1] == 'a' && s[w + 2] == 'l' && s[w + 3] == 's' && s[w + 4]
            == 'e' {
            Some((SpecValue::Bool(false), w + 5))
        } else {
            None
        }
    } else if s[w] == '-' || is_digit(s[w]) {
        parse_int(s, w)
    } else if s[w] == '"' {
        match parse_str_body(s, w + 1) {
            Some((t, j)) => Some((SpecValue::Str(t), j)),
            None => None,
        }
    } else if s[w] == '[' {
        let w2 = skip_ws(s, w + 1);
        if w < w2 && w2 < s.len() && s[w2] == ']' {
            Some((SpecValue::Arr(Seq::empty()), w2 + 1))
        } else {
            match parse_elems(s, w + 1) {
                Some((a, j)) => Some((SpecValue::Arr(a), j)),
                None => None,
            }
        }
    } else if s[w] == '{' {
        let w2 = skip_ws(s, w + 1);
        if w < w2 && w2 < s.len() && s[w2] == '}' {
            Some((SpecValue::Obj(Seq::empty()), w2 + 1))
        } else {
            match parse_members(s, w + 1) {
                Some((o, j)) => Some((SpecValue::Obj(o), j)),
                None => None,
            }
        }
    } else {
        None
    }
}

/// Parse the elements of a non-empty array starting just after `[` or
/// a `,`; the returned index is just past the closing `]`.
pub open spec fn parse_elems(s: Seq<char>, i: int) -> Option<(Seq<SpecValue>, int)>
    decreases s.len() - i, 2int,
{
    match parse_value(s, i) {
        None => None,
        Some((v, j)) => if !(i < j <= s.len()) {
            None
        } else {
            let j2 = skip_ws(s, j);
            if !(j <= j2) {
                None
            } else if j2 < s.len() && s[j2] == ',' {
                match parse_elems(s, j2 + 1) {
                    Some((a, k)) => Some((seq![v] + a, k)),
                    None => None,
                }
            } else if j2 < s.len() && s[j2] == ']' {
                Some((seq![v], j2 + 1))
            } else {
                None
            }
        },
    }
}

/// Parse the members of a non-empty object starting just after `{` or
/// a `,`; the returned index is just past the closing `}`.
pub open spec fn parse_members(s: Seq<char>, i: int) -> Option<
    (Seq<(Seq<char>, SpecValue)>, int),
>
    decreases s.len() - i, 2int,
{
    let w = skip_ws(s, i);
    if !(i <= w && w < s.len() && s[w] == '"') {
        None
    } else {
        match parse_str_body(s, w + 1) {
            None => None,
            Some((key, j)) => if !(w < j) {
                None
            } else {
                let jc = skip_ws(s, j);
                if !(j <= jc) {
                    None
                } else if jc < s.len() && s[jc] == ':' {
                    match parse_value(s, jc + 1) {
                        None => None,
                        Some((v, j2)) => if !(jc < j2 <= s.len()) {
                            None
                        } else {
                            let j3 = skip_ws(s, j2);
                            if !(j2 <= j3) {
                                None
                            } else if j3 < s.len() && s[j3] == ',' {
                                match parse_members(s, j3 + 1) {
                                    Some((o, k)) => Some((seq![(key, v)] + o, k)),
                                    None => None,
                                }
                            } else if j3 < s.len() && s[j3] == '}' {
                                Some((seq![(key, v)], j3 + 1))
                            } else {
                                None
                            }
                        },
                    }
                } else {
                    None
                }
            },
        }
    }
}

} // verus!

verus! {

// ---------------------------------------------------------------------------
// The parser inverts the canonical encoding
// ---------------------------------------------------------------------------

/// Powers of ten.
pub open spec fn pow10(k: nat) -> nat
    decreases k,
{
    if k == 0 {
        1
    } else {
        10 * pow10((k - 1) as nat)
    }
}

proof fn lemma_digit_char_val(d: int)
    requires
        0 <= d < 10,
    ensures
        is_digit(digit_char(d)),
        digit_val(digit_char(d)) == d,
        digit_char(d) != '-',
{
}

proof fn lemma_hex_char_val(d: int)
    requires
        0 <= d < 16,
    ensures
        is_hex(hex_char(d)),
        hex_val(hex_char(d)) == d,
{
}

/// The decimal text of `n` is a non-empty digit run whose value is `n`.
proof fn lemma_dec_digits_props(n: nat)
    ensures
        dec_digits(n).len() >= 1,
        forall|k: int| 0 <= k < dec_digits(n).len() ==> is_digit(#[trigger] dec_digits(n)[k]),
        digits_val(dec_digits(n)) == n,
    decreases n,
{
    if n < 10 {
        lemma_digit_char_val(n as int);
        let t = dec_digits(n);
        assert(t == seq![digit_char(n as int)]);
        assert(t.drop_last() =~= Seq::<char>::empty());
        assert(t.last() == digit_char(n as int));
        assert(digits_val(t) == digits_val(t.drop_last()) * 10 + digit_val(t.last()));
        assert(digits_val(Seq::<char>::empty()) == 0);
    } else {
        lemma_dec_digits_props(n / 10);
        lemma_digit_char_val((n % 10) as int);
        let t = dec_digits(n);
        assert(t == dec_digits(n / 10).push(digit_char((n % 10) as int)));
        assert(t.drop_last() =~= dec_digits(n / 10));
        assert(t.last() == digit_char((n % 10) as int));
        assert(digits_val(t) == digits_val(dec_digits(n / 10)) * 10 + (n % 10));
    }
}

proof fn lemma_dec_digits_len(n: nat, k: nat)
    requires
        k >= 1,
        n < pow10(k),
    ensures
        dec_digits(n).len() <= k,
    decreases n,
{
    if n < 10 {
    } else {
        assert(pow10(k) == 10 * pow10((k - 1) as nat));
        if k == 1 {
            assert(pow10(0nat) == 1);
            assert(false);
        }
        assert(n / 10 < pow10((k - 1) as nat)) by (nonlinear_arith)
            requires
                n < 10 * pow10((k - 1) as nat),
                n >= 10,
        ;
        lemma_dec_digits_len(n / 10, (k - 1) as nat);
    }
}

/// Nineteen digits cover the whole 64-bit range.
proof fn lemma_dec_digits_len_19(n: nat)
    requires
        n <= 0x8000_0000_0000_0000,
    ensures
        dec_digits(n).len() <= 19,
{
    assert(pow10(19) == 10_000_000_000_000_000_000) by {
        reveal_with_fuel(pow10, 20);
    }
    lemma_dec_digits_len(n, 19);
}

/// The decimal text of a positive number does not start with zero.
proof fn lemma_dec_digits_no_leading_zero(n: nat)
    requires
        n >= 1,
    ensures
        dec_digits(n)[0] != '0',
    decreases n,
{
    if n < 10 {
        lemma_digit_char_val(n as int);
        assert(digit_val(dec_digits(n)[0]) == n);
        assert(digit_val('0') == 0);
    } else {
        lemma_dec_digits_no_leading_zero(n / 10);
        lemma_dec_digits_props(n / 10);
        assert(dec_digits(n)[0] == dec_digits(n / 10)[0]);
    }
}

/// A run of digit characters closed off by a non-digit has that exact length.
proof fn lemma_digit_run_exact(s: Seq<char>, a: int, b: int)
    requires
        0 <= a <= b <= s.len(),
        forall|j: int| a <= j < b ==> is_digit(#[trigger] s[j]),
        b == s.len() || !is_digit(s[b]),
    ensures
        digit_run(s, a) == b - a,
    decreases b - a,
{
    if a < b {
        lemma_digit_run_exact(s, a + 1, b);
    }
}

/// Parsing the canonical text of an in-range integer returns it.
proof fn lemma_inv_int(n: int, pre: Seq<char>, rest: Seq<char>)
    requires
        -0x8000_0000_0000_0000 <= n <= 0x7FFF_FFFF_FFFF_FFFF,
        rest.len() == 0 || !is_digit(rest[0]),
    ensures
        parse_int(pre + enc_int(n) + rest, pre.len() as int) == Some(
            (SpecValue::Int(n), pre.len() + enc_int(n).len() as int),
        ),
{
    let s = pre + enc_int(n) + rest;
    let i = pre.len() as int;
    let e = enc_int(n);
    assert forall|k: int| 0 <= k < e.len() implies s[i + k] == e[k] by {}
    if n >= 0 {
        let mag = n as nat;
        lemma_dec_digits_props(mag);
        lemma_dec_digits_len_19(mag);
        let ln = dec_digits(mag).len() as int;
        assert(!is_digit('-')) by {}
        assert(s[i] == dec_digits(mag)[0]);
        assert(is_digit(s[i]));
        assert(s[i] != '-');
        assert forall|j: int| i <= j < i + ln implies is_digit(#[trigger] s[j]) by {
            assert(s[j] == e[j - i]);
        }
        assert(i + ln == s.len() || !is_digit(s[i + ln]));
        lemma_digit_run_exact(s, i, i + ln);
        assert(s.subrange(i, i + ln) =~= dec_digits(mag));
        if ln > 1 {
            lemma_dec_digits_no_leading_zero(mag);
            assert(s[i] != '0');
        }
    } else {
        let mag = (-n) as nat;
        lemma_dec_digits_props(mag);
        lemma_dec_digits_len_19(mag);
        let ln = dec_digits(mag).len() as int;
        assert(s[i] == '-');
        assert forall|j: int| i + 1 <= j < i + 1 + ln implies is_digit(#[trigger] s[j]) by {
            assert(s[j] == e[j - i]);
            assert(e[j - i] == dec_digits(mag)[j - i - 1]);
        }
        assert(i + 1 + ln == s.len() || !is_digit(s[i + 1 + ln]));
        lemma_digit_run_exact(s, i + 1, i + 1 + ln);
        assert(s.subrange(i + 1, i + 1 + ln) =~= dec_digits(mag));
        if ln > 1 {
            lemma_dec_digits_no_leading_zero(mag);
            assert(s[i + 1] != '0');
        }
    }
}


/// Parsing the canonical text of a string body, up to and including
/// the closing quote, returns exactly the characters it encodes.
proof fn lemma_inv_str_body(t: Seq<char>, pre: Seq<char>, rest: Seq<char>)
    ensures
        parse_str_body(pre + enc_str_body(t) + seq!['"'] + rest, pre.len() as int) == Some(
            (t, pre.len() + enc_str_body(t).len() + 1int),
        ),
    decreases t.len(),
{
    let s = pre + enc_str_body(t) + seq!['"'] + rest;
    let i = pre.len() as int;
    if t.len() == 0 {
        assert(enc_str_body(t) =~= Seq::<char>::empty());
        assert(s[i] == '"');
        assert(t =~= Seq::<char>::empty());
    } else {
        let c = t[0];
        let tt = t.drop_first();
        let ec = enc_char(c);
        assert(enc_str_body(t) == ec + enc_str_body(tt));
        let pre2 = pre + ec;
        lemma_inv_str_body(tt, pre2, rest);
        assert(pre2 + enc_str_body(tt) + seq!['"'] + rest =~= s);
        let j2 = pre2.len() + enc_str_body(tt).len() + 1int;
        assert(parse_str_body(s, pre2.len() as int) == Some((tt, j2)));
        assert forall|k: int| 0 <= k < ec.len() implies s[i + k] == ec[k] by {}
        if c == '"' {
            assert(s[i] == '\\' && s[i + 1] == '"');
            assert(seq![c] + tt =~= t);
        } else if c == '\\' {
            assert(s[i] == '\\' && s[i + 1] == '\\');
            assert(seq![c] + tt =~= t);
        } else if (c as u32) < 32 {
            let hi = c as u32 as int / 16;
            let lo = c as u32 as int % 16;
            lemma_hex_char_val(hi);
            lemma_hex_char_val(lo);
            assert(s[i] == '\\' && s[i + 1] == 'u' && s[i + 2] == '0' && s[i + 3] == '0');
            assert(s[i + 4] == hex_char(hi) && s[i + 5] == hex_char(lo));
            assert(is_hex('0') && hex_val('0') == 0);
            let code = hex_val(s[i + 2]) * 4096 + hex_val(s[i + 3]) * 256 + hex_val(s[i + 4]) * 16
                + hex_val(s[i + 5]);
            assert(code == hi * 16 + lo);
            assert(code == c as u32) by {
                assert(hi * 16 + lo == c as u32 as int);
            }
            assert(!(0xD800 <= code < 0xE000));
            vstd::utf8::char_u32_cast(c, code as u32);
            assert((code as u32) as char == c);
            assert(seq![c] + tt =~= t);
        } else {
            assert(s[i] == c);
            assert(c != '"' && c != '\\' && (c as u32) >= 32);
            assert(seq![c] + tt =~= t);
        }
    }
}

/// Skipping whitespace at a non-whitespace position, or at the end of
/// the text, stays put.
proof fn lemma_skip_ws_here(s: Seq<char>, i: int)
    requires
        0 <= i <= s.len(),
        i == s.len() || !is_ws(s[i]),
    ensures
        skip_ws(s, i) == i,
{
}

/// The canonical text of a value is non-empty and never starts with
/// whitespace, a closing bracket, a closing brace, or a comma.
proof fn lemma_enc_value_first(v: SpecValue)
    ensures
        enc_value(v).len() >= 1,
        enc_value(v)[0] != ']',
        enc_value(v)[0] != '}',
        enc_value(v)[0] != ',',
        !is_ws(enc_value(v)[0]),
{
    match v {
        SpecValue::Int(i) => {
            if i < 0 {
                assert(enc_value(v)[0] == '-');
            } else {
                lemma_dec_digits_props(i as nat);
                assert(enc_value(v)[0] == dec_digits(i as nat)[0]);
                assert(is_digit(enc_value(v)[0]));
            }
        },
        _ => {},
    }
}


/// Parsing the canonical text of a well-formed value, followed by
/// anything that does not extend a trailing number, returns exactly
/// that value and stops exactly at its end.
#[verifier::rlimit(100)]
#[verifier::spinoff_prover]
pub proof fn lemma_inv_value(v: SpecValue, pre: Seq<char>, rest: Seq<char>)
    requires
        wf_value(v),
        rest.len() == 0 || !is_digit(rest[0]),
    ensures
        parse_value(pre + enc_value(v) + rest, pre.len() as int) == Some(
            (v, pre.len() + enc_value(v).len() as int),
        ),
    decreases v, 0int,
{
    let s = pre + enc_value(v) + rest;
    let i = pre.len() as int;
    let e = enc_value(v);
    assert forall|k: int| 0 <= k < e.len() implies s[i + k] == e[k] by {}
    lemma_enc_value_first(v);
    lemma_skip_ws_here(s, i);
    match v {
        SpecValue::Null => {
            assert(s[i] == 'n' && s[i + 1] == 'u' && s[i + 2] == 'l' && s[i + 3] == 'l');
        },
        SpecValue::Bool(b) => {
            if b {
                assert(s[i] == 't' && s[i + 1] == 'r' && s[i + 2] == 'u' && s[i + 3] == 'e');
            } else {
                assert(s[i] == 'f' && s[i + 1] == 'a' && s[i + 2] == 'l' && s[i + 3] == 's' && s[i
                    + 4] == 'e');
            }
        },
        SpecValue::Int(n) => {
            lemma_inv_int(n, pre, rest);
            if n < 0 {
                assert(s[i] == '-');
            } else {
                lemma_dec_digits_props(n as nat);
                assert(s[i] == dec_digits(n as nat)[0]);
                assert(is_digit(s[i]));
            }
        },
        SpecValue::Str(t) => {
            assert(s[i] == '"');
            let pre2 = pre + seq!['"'];
            lemma_inv_str_body(t, pre2, rest);
            assert(pre2 + enc_str_body(t) + seq!['"'] + rest =~= s);
        },
        SpecValue::Arr(a) => {
            assert(s[i] == '[');
            if a.len() == 0 {
                assert(enc_elems(a) =~= Seq::<char>::empty());
                assert(e.len() == 2);
                assert(s[i + 1] == ']');
                lemma_skip_ws_here(s, i + 1);
                assert(a =~= Seq::<SpecValue>::empty());
            } else {
                assert(wf_value(a[0]));
                lemma_enc_value_first(a[0]);
                assert(enc_elems(a)[0] == enc_value(a[0])[0]);
                assert(s[i + 1] == e[1]);
                assert(e[1] == enc_elems(a)[0]);
                assert(s[i + 1] != ']');
                lemma_skip_ws_here(s, i + 1);
                let pre2 = pre + seq!['['];
                lemma_inv_elems(a, pre2, rest);
                assert(pre2 + enc_elems(a) + seq![']'] + rest =~= s);
            }
        },
        SpecValue::Obj(o) => {
            assert(s[i] == '{');
            if o.len() == 0 {
                assert(enc_members(o) =~= Seq::<char>::empty());
                assert(e.len() == 2);
                assert(s[i + 1] == '}');
                lemma_skip_ws_here(s, i + 1);
                assert(o =~= Seq::<(Seq<char>, SpecValue)>::empty());
            } else {
                assert(enc_members(o)[0] == enc_string(o[0].0)[0]);
                assert(enc_string(o[0].0)[0] == '"');
                assert(s[i + 1] == e[1]);
                assert(e[1] == enc_members(o)[0]);
                assert(s[i + 1] != '}');
                lemma_skip_ws_here(s, i + 1);
                let pre2 = pre + seq!['{'];
                lemma_inv_members(o, pre2, rest);
                assert(pre2 + enc_members(o) + seq!['}'] + rest =~= s);
            }
        },
    }
}

/// Parsing the canonical element list of a non-empty array, followed
/// by the closing bracket, returns exactly those elements.
#[verifier::rlimit(50)]
proof fn lemma_inv_elems(a: Seq<SpecValue>, pre: Seq<char>, rest: Seq<char>)
    requires
        a.len() >= 1,
        forall|k: int| 0 <= k < a.len() ==> wf_value(#[trigger] a[k]),
    ensures
        parse_elems(pre + enc_elems(a) + seq![']'] + rest, pre.len() as int) == Some(
            (a, pre.len() + enc_elems(a).len() + 1int),
        ),
    decreases a, 1int,
{
    let s = pre + enc_elems(a) + seq![']'] + rest;
    let i = pre.len() as int;
    assert(wf_value(a[0]));
    lemma_enc_value_first(a[0]);
    if a.len() == 1 {
        assert(enc_elems(a) == enc_value(a[0]));
        lemma_inv_value(a[0], pre, seq![']'] + rest);
        assert(pre + enc_value(a[0]) + (seq![']'] + rest) =~= s);
        let j = i + enc_value(a[0]).len() as int;
        assert(parse_value(s, i) == Some((a[0], j)));
        assert(s[j] == ']');
        lemma_skip_ws_here(s, j);
        assert(s[j] != ',');
        assert(seq![a[0]] =~= a);
    } else {
        let at = a.drop_first();
        assert(enc_elems(a) == enc_value(a[0]) + seq![','] + enc_elems(at));
        let rest1 = seq![','] + enc_elems(at) + seq![']'] + rest;
        assert(rest1[0] == ',');
        assert(!is_digit(','));
        lemma_inv_value(a[0], pre, rest1);
        assert(pre + enc_value(a[0]) + rest1 =~= s);
        let j = i + enc_value(a[0]).len() as int;
        assert(parse_value(s, i) == Some((a[0], j)));
        assert(s[j] == ',');
        lemma_skip_ws_here(s, j);
        let pre2 = pre + enc_value(a[0]) + seq![','];
        assert forall|k: int| 0 <= k < at.len() implies wf_value(
            #[trigger] at[k],
        ) by {
            assert(at[k] == a[k + 1]);
        }
        lemma_inv_elems(at, pre2, rest);
        assert(pre2 + enc_elems(at) + seq![']'] + rest =~= s);
        assert(parse_elems(s, j + 1) == Some((at, pre2.len() + enc_elems(at).len() + 1int)));
        assert(seq![a[0]] + at =~= a);
    }
}

/// Parsing one canonical `"key":value` head, followed by a comma or
/// a closing brace, yields the key, the colon, and the value in turn.
#[verifier::rlimit(100)]
proof fn lemma_inv_member_head(key: Seq<char>, val: SpecValue, pre: Seq<char>, tail: Seq<char>)
    requires
        wf_value(val),
        tail.len() > 0,
        tail[0] == ',' || tail[0] == '}',
    ensures
        ({
            let s = pre + enc_string(key) + seq![':'] + enc_value(val) + tail;
            let i = pre.len() as int;
            let j = i + enc_string(key).len() as int;
            let j2 = j + 1 + enc_value(val).len() as int;
            &&& s[i] == '"'
            &&& skip_ws(s, i) == i
            &&& parse_str_body(s, i + 1) == Some((key, j))
            &&& s[j] == ':'
            &&& skip_ws(s, j) == j
            &&& parse_value(s, j + 1) == Some((val, j2))
            &&& j2 < s.len()
            &&& s[j2] == tail[0]
            &&& skip_ws(s, j2) == j2
        }),
    decreases val, 1int,
{
    let s = pre + enc_string(key) + seq![':'] + enc_value(val) + tail;
    let i = pre.len() as int;
    let j = i + enc_string(key).len() as int;
    let j2 = j + 1 + enc_value(val).len() as int;
    assert(s[i] == '"') by {
        assert(enc_string(key)[0] == '"');
    }
    lemma_skip_ws_here(s, i);
    let pre2 = pre + seq!['"'];
    let rest2 = seq![':'] + enc_value(val) + tail;
    lemma_inv_str_body(key, pre2, rest2);
    assert(pre2 + enc_str_body(key) + seq!['"'] + rest2 =~= s);
    assert(parse_str_body(s, i + 1) == Some((key, j)));
    assert(s[j] == ':');
    lemma_skip_ws_here(s, j);
    let pre3 = pre + enc_string(key) + seq![':'];
    assert(!is_digit(',') && !is_digit('}'));
    lemma_inv_value(val, pre3, tail);
    assert(pre3 + enc_value(val) + tail =~= s);
    assert(parse_value(s, j + 1) == Some((val, j2)));
    assert(s[j2] == tail[0]);
    lemma_skip_ws_here(s, j2);
}

/// Parsing the canonical member list of a non-empty object, followed
/// by the closing brace, returns exactly those members.
#[verifier::rlimit(100)]
proof fn lemma_inv_members(o: Seq<(Seq<char>, SpecValue)>, pre: Seq<char>, rest: Seq<char>)
    requires
        o.len() >= 1,
        forall|k: int| 0 <= k < o.len() ==> wf_value(#[trigger] o[k].1),
    ensures
        parse_members(pre + enc_members(o) + seq!['}'] + rest, pre.len() as int) == Some(
            (o, pre.len() + enc_members(o).len() + 1int),
        ),
    decreases o, 2int,
{
    let s = pre + enc_members(o) + seq!['}'] + rest;
    let i = pre.len() as int;
    let key = o[0].0;
    let val = o[0].1;
    assert(wf_value(o[0].1));
    if o.len() == 1 {
        assert(enc_members(o) == enc_string(key) + seq![':'] + enc_value(val));
        let tail = seq!['}'] + rest;
        lemma_inv_member_head(key, val, pre, tail);
        assert(pre + enc_string(key) + seq![':'] + enc_value(val) + tail =~= s);
        let j = i + enc_string(key).len() as int;
        let j2 = j + 1 + enc_value(val).len() as int;
        assert(s[j2] == '}');
        assert(s[j2] != ',');
        assert(o[0] == (key, val));
        assert(seq![(key, val)] =~= o);
    } else {
        let ot = o.drop_first();
        assert(enc_members(o) == enc_string(key) + seq![':'] + enc_value(val) + seq![',']
            + enc_members(ot));
        let tail = seq![','] + enc_members(ot) + seq!['}'] + rest;
        lemma_inv_member_head(key, val, pre, tail);
        assert(pre + enc_string(key) + seq![':'] + enc_value(val) + tail =~= s);
        let j = i + enc_string(key).len() as int;
        let j2 = j + 1 + enc_value(val).len() as int;
        assert(s[j2] == ',');
        let pre4 = pre + enc_string(key) + seq![':'] + enc_value(val) + seq![','];
        assert forall|k: int| 0 <= k < ot.len() implies wf_value(#[trigger] ot[k].1) by {
            assert(ot[k] == o[k + 1]);
        }
        lemma_inv_members(ot, pre4, rest);
        assert(pre4 + enc_members(ot) + seq!['}'] + rest =~= s);
        assert(parse_members(s, j2 + 1) == Some((ot, pre4.len() + enc_members(ot).len() + 1int)));
        assert(o[0] == (key, val));
        assert(seq![(key, val)] + ot =~= o);
    }
}


// ---------------------------------------------------------------------------
// Executable encoder
// ---------------------------------------------------------------------------

/// The lower-case character for a hexadecimal digit value.
fn hex_char_exec(d: u8) -> (c: char)
    requires
        d < 16,
    ensures
        c == hex_char(d as int),
{
    if d < 10 {
        (48 + d) as char
    } else {
        (87 + d) as char
    }
}

/// Append the decimal digits of `n`.
fn push_digits(n: u64, out: &mut Vec<char>)
    ensures
        final(out)@ == old(out)@ + dec_digits(n as nat),
    decreases n,
{
    if n < 10 {
        let d: u8 = 48 + (n as u8);
        out.push(d as char);
        proof {
            assert(d as char == digit_char(n as int));
            assert(out@ =~= old(out)@ + dec_digits(n as nat));
        }
    } else {
        push_digits(n / 10, out);
        let d: u8 = 48 + ((n % 10) as u8);
        out.push(d as char);
        proof {
            assert(d as char == digit_char((n as nat % 10) as int));
            assert(out@ =~= old(out)@ + dec_digits(n as nat));
        }
    }
}

/// Append the canonical text of an integer.
fn push_int(v: i64, out: &mut Vec<char>)
    ensures
        final(out)@ == old(out)@ + enc_int(v as int),
{
    if v >= 0 {
        push_digits(v as u64, out);
    } else {
        out.push('-');
        let wide: i128 = v as i128;
        let m: u64 = (-wide) as u64;
        proof {
            assert(m as nat == (-(v as int)) as nat);
        }
        push_digits(m, out);
        proof {
            assert(out@ =~= old(out)@ + enc_int(v as int));
        }
    }
}

/// Append the canonical text of the characters of `s` from `from` on,
/// escaped as a string literal body.
fn push_str_chars(s: &Vec<char>, from: usize, out: &mut Vec<char>)
    requires
        from <= s@.len(),
    ensures
        final(out)@ == old(out)@ + enc_str_body(s@.subrange(from as int, s@.len() as int)),
    decreases s@.len() - from,
{
    let ghost sub = s@.subrange(from as int, s@.len() as int);
    if from == s.len() {
        proof {
            assert(sub =~= Seq::<char>::empty());
            assert(out@ =~= old(out)@ + enc_str_body(sub));
        }
    } else {
        let c = s[from];
        proof {
            assert(sub[0] == c);
        }
        if c == '"' {
            out.push('\\');
            out.push('"');
        } else if c == '\\' {
            out.push('\\');
            out.push('\\');
        } else if (c as u32) < 32 {
            let x = c as u32;
            out.push('\\');
            out.push('u');
            out.push('0');
            out.push('0');
            out.push(hex_char_exec((x / 16) as u8));
            out.push(hex_char_exec((x % 16) as u8));
        } else {
            out.push(c);
        }
        proof {
            assert(out@ =~= old(out)@ + enc_char(c));
        }
        push_str_chars(s, from + 1, out);
        proof {
            assert(sub.drop_first() =~= s@.subrange(from + 1, s@.len() as int));
            assert(out@ =~= old(out)@ + enc_str_body(sub));
        }
    }
}

/// Append the canonical text of a string literal, quotes included.
pub fn push_string(s: &str, out: &mut Vec<char>)
    ensures
        final(out)@ == old(out)@ + enc_string(s@),
{
    let cv = crate::text::chars_of(s);
    out.push('"');
    push_str_chars(&cv, 0, out);
    out.push('"');
    proof {
        assert(cv@.subrange(0, cv@.len() as int) =~= s@);
        assert(out@ =~= old(out)@ + enc_string(s@));
    }
}

/// Append the canonical text of a value.
pub fn push_value(v: &Value, out: &mut Vec<char>)
    ensures
        final(out)@ == old(out)@ + enc_value(v@),
    decreases v, 0int,
{
    match v {
        Value::Null => {
            out.push('n');
            out.push('u');
            out.push('l');
            out.push('l');
            proof {
                assert(out@ =~= old(out)@ + enc_value(v@));
            }
        },
        Value::Bool(b) => {
            if *b {
                out.push('t');
                out.push('r');
                out.push('u');
                out.push('e');
            } else {
                out.push('f');
                out.push('a');
                out.push('l');
                out.push('s');
                out.push('e');
            }
            proof {
                assert(out@ =~= old(out)@ + enc_value(v@));
            }
        },
        Value::Int(i) => {
            push_int(*i, out);
        },
        Value::Str(st) => {
            push_string(st.as_str(), out);
        },
        Value::Arr(a) => {
            out.push('[');
            if a.len() > 0 {
                push_elems(a, 0, out);
            }
            out.push(']');
            proof {
                crate::value::lemma_seq_views_index(a@);
                if a@.len() == 0 {
                    assert(enc_elems(crate::value::seq_views(a@)) =~= Seq::<char>::empty());
                } else {
                    assert(crate::value::seq_views(a@).subrange(
                        0,
                        crate::value::seq_views(a@).len() as int,
                    ) =~= crate::value::seq_views(a@));
                }
                assert(out@ =~= old(out)@ + enc_value(v@));
            }
        },
        Value::Obj(o) => {
            out.push('{');
            if o.len() > 0 {
                push_members(o, 0, out);
            }
            out.push('}');
            proof {
                crate::value::lemma_pair_views_index(o@);
                if o@.len() == 0 {
                    assert(enc_members(crate::value::pair_views(o@)) =~= Seq::<char>::empty());
                } else {
                    assert(crate::value::pair_views(o@).subrange(
                        0,
                        crate::value::pair_views(o@).len() as int,
                    ) =~= crate::value::pair_views(o@));
                }
                assert(out@ =~= old(out)@ + enc_value(v@));
            }
        },
    }
}

/// Append the canonical texts of the elements of `a` from `from` on,
/// separated by commas.
fn push_elems(a: &Vec<Value>, from: usize, out: &mut Vec<char>)
    requires
        from < a@.len(),
    ensures
        final(out)@ == old(out)@ + enc_elems(
            crate::value::seq_views(a@).subrange(from as int, a@.len() as int),
        ),
    decreases a, a@.len() - from,
{
    let ghost sub = crate::value::seq_views(a@).subrange(from as int, a@.len() as int);
    proof {
        crate::value::lemma_seq_views_index(a@);
        assert(sub[0] == a@[from as int]@);
    }
    let n = a.len();
    push_value(&a[from], out);
    if from + 1 < n {
        out.push(',');
        push_elems(a, from + 1, out);
        proof {
            assert(sub.drop_first() =~= crate::value::seq_views(a@).subrange(
                from + 1,
                a@.len() as int,
            ));
            assert(sub.len() >= 2);
            assert(out@ =~= old(out)@ + enc_elems(sub));
        }
    } else {
        proof {
            assert(sub.len() == 1);
            assert(out@ =~= old(out)@ + enc_elems(sub));
        }
    }
}

/// Append the canonical texts of the members of `o` from `from` on,
/// separated by commas.
fn push_members(o: &Vec<(String, Value)>, from: usize, out: &mut Vec<char>)
    requires
        from < o@.len(),
    ensures
        final(out)@ == old(out)@ + enc_members(
            crate::value::pair_views(o@).subrange(from as int, o@.len() as int),
        ),
    decreases o, o@.len() - from,
{
    let ghost sub = crate::value::pair_views(o@).subrange(from as int, o@.len() as int);
    proof {
        crate::value::lemma_pair_views_index(o@);
        assert(sub[0] == (o@[from as int].0@, o@[from as int].1@));
    }
    let n = o.len();
    push_string(o[from].0.as_str(), out);
    out.push(':');
    push_value(&o[from].1, out);
    if from + 1 < n {
        out.push(',');
        push_members(o, from + 1, out);
        proof {
            assert(sub.drop_first() =~= crate::value::pair_views(o@).subrange(
                from + 1,
                o@.len() as int,
            ));
            assert(sub.len() >= 2);
            assert(out@ =~= old(out)@ + enc_members(sub));
        }
    } else {
        proof {
            assert(sub.len() == 1);
            assert(out@ =~= old(out)@ + enc_members(sub));
        }
    }
}


// ---------------------------------------------------------------------------
// Executable parser
// ---------------------------------------------------------------------------

/// Every character inside a digit run is a digit, and the run stays
/// inside the text.
proof fn lemma_digit_run_facts(s: Seq<char>, i: int)
    requires
        0 <= i <= s.len(),
    ensures
        0 <= digit_run(s, i),
        i + digit_run(s, i) <= s.len(),
        forall|k: int| i <= k < i + digit_run(s, i) ==> is_digit(#[trigger] s[k]),
    decreases s.len() - i,
{
    if i < s.len() && is_digit(s[i]) {
        lemma_digit_run_facts(s, i + 1);
    }
}

proof fn lemma_pow10_mono(a: nat, b: nat)
    requires
        a <= b,
    ensures
        pow10(a) <= pow10(b),
    decreases b,
{
    if a < b {
        lemma_pow10_mono(a, (b - 1) as nat);
        assert(pow10(b) == 10 * pow10((b - 1) as nat));
    }
}

/// The length of the digit run starting at `i`.
fn digit_run_exec(s: &Vec<char>, i: usize) -> (r: usize)
    requires
        i <= s@.len(),
    ensures
        r as int == digit_run(s@, i as int),
        i + r <= s@.len(),
    decreases s@.len() - i,
{
    if i < s.len() {
        let x = s[i] as u32;
        if 48 <= x && x <= 57 {
            let rr = digit_run_exec(s, i + 1);
            rr + 1
        } else {
            0
        }
    } else {
        0
    }
}

/// Parse an integer at `i`, as `parse_int` describes.
fn parse_int_at(s: &Vec<char>, i: usize) -> (r: Option<(i64, usize)>)
    requires
        i < s@.len(),
    ensures
        match r {
            Some(p) => parse_int(s@, i as int) == Some((SpecValue::Int(p.0 as int), p.1 as int))
                && i < p.1 <= s@.len(),
            None => parse_int(s@, i as int) is None,
        },
{
    let len = s.len();
    let neg = s[i] == '-';
    let d0 = if neg {
        i + 1
    } else {
        i
    };
    if d0 > len {
        return None;
    }
    let run = digit_run_exec(s, d0);
    if run == 0 || run > 19 {
        return None;
    }
    if run > 1 && s[d0] == '0' {
        return None;
    }
    proof {
        lemma_digit_run_facts(s@, d0 as int);
        assert(pow10(19) == 10_000_000_000_000_000_000) by {
            reveal_with_fuel(pow10, 20);
        }
    }
    let ghost digs = s@.subrange(d0 as int, d0 + run as int);
    let mut acc: u64 = 0;
    let mut k: usize = 0;
    while k < run
        invariant
            0 <= k <= run,
            run <= 19,
            i < d0 + run,
            d0 + run <= len,
            len == s@.len(),
            forall|j: int| d0 <= j < d0 + run ==> is_digit(#[trigger] s@[j]),
            acc as int == digits_val(s@.subrange(d0 as int, d0 + k as int)),
            (acc as int) < pow10(k as nat),
            pow10(19) == 10_000_000_000_000_000_000,
        decreases run - k,
    {
        let x = s[d0 + k] as u32;
        proof {
            assert(is_digit(s@[d0 + k]));
            lemma_pow10_mono(k as nat, 18);
            lemma_pow10_mono(19, 19);
            assert(pow10((k + 1) as nat) == 10 * pow10(k as nat));
            assert(pow10(18) * 10 == pow10(19)) by {
                reveal_with_fuel(pow10, 20);
            }
        }
        let d = (x - 48) as u64;
        acc = acc * 10 + d;
        k = k + 1;
        proof {
            let t = s@.subrange(d0 as int, d0 + k as int);
            assert(t.drop_last() =~= s@.subrange(d0 as int, d0 + (k - 1) as int));
            assert(t.last() == s@[d0 + k - 1]);
        }
    }
    proof {
        assert(digs =~= s@.subrange(d0 as int, d0 + run as int));
    }
    let j = d0 + run;
    if neg {
        if acc > 0x8000_0000_0000_0000u64 {
            None
        } else {
            let n: i64 = if acc == 0x8000_0000_0000_0000u64 {
                i64::MIN
            } else {
                -(acc as i64)
            };
            Some((n, j))
        }
    } else {
        if acc > 0x7FFF_FFFF_FFFF_FFFFu64 {
            None
        } else {
            Some((acc as i64, j))
        }
    }
}

/// The numeric value of one hexadecimal digit character.
fn hex_digit_val(c: char) -> (r: Option<u8>)
    ensures
        match r {
            Some(d) => is_hex(c) && d as int == hex_val(c) && d < 16,
            None => !is_hex(c),
        },
{
    let x = c as u32;
    if 48 <= x && x <= 57 {
        Some((x - 48) as u8)
    } else if 97 <= x && x <= 102 {
        Some((x - 87) as u8)
    } else if 65 <= x && x <= 70 {
        Some((x - 55) as u8)
    } else {
        None
    }
}

/// Parse a string literal's body at `i`, as `parse_str_body` describes.
fn parse_str_at(s: &Vec<char>, i: usize) -> (r: Option<(Vec<char>, usize)>)
    requires
        i <= s@.len(),
    ensures
        match r {
            Some(p) => parse_str_body(s@, i as int) == Some((p.0@, p.1 as int)) && i < p.1
                <= s@.len(),
            None => parse_str_body(s@, i as int) is None,
        },
    decreases s@.len() - i,
{
    let len = s.len();
    if i >= len {
        return None;
    }
    let c = s[i];
    if c == '"' {
        let t: Vec<char> = Vec::new();
        proof {
            assert(t@ =~= Seq::<char>::empty());
        }
        return Some((t, i + 1));
    }
    if c == '\\' {
        if i + 1 >= len {
            return None;
        }
        let e = s[i + 1];
        if e == 'u' {
            if len - i < 6 {
                return None;
            }
            let d2 = match hex_digit_val(s[i + 2]) {
                Some(d) => d,
                None => {
                    return None;
                },
            };
            let d3 = match hex_digit_val(s[i + 3]) {
                Some(d) => d,
                None => {
                    return None;
                },
            };
            let d4 = match hex_digit_val(s[i + 4]) {
                Some(d) => d,
                None => {
                    return None;
                },
            };
            let d5 = match hex_digit_val(s[i + 5]) {
                Some(d) => d,
                None => {
                    return None;
                },
            };
            let code: u32 = (d2 as u32) * 4096 + (d3 as u32) * 256 + (d4 as u32) * 16 + (d5
                as u32);
            if 0xD800 <= code && code < 0xE000 {
                return None;
            }
            let c2 = match char::from_u32(code) {
                Some(c2) => c2,
                None => {
                    proof {
                        assert(false);
                    }
                    return None;
                },
            };
            proof {
                vstd::utf8::char_u32_cast(c2, code);
            }
            match parse_str_at(s, i + 6) {
                Some((mut t, k)) => {
                    t.insert(0, c2);
                    proof {
                        assert(t@ =~= seq![(code as u32) as char] + t@.drop_first());
                    }
                    Some((t, k))
                },
                None => None,
            }
        } else if e == '"' || e == '\\' || e == '/' || e == 'n' || e == 't' || e == 'r' || e == 'b'
            || e == 'f' {
            let c2 = if e == 'n' {
                '\n'
            } else if e == 't' {
                '\t'
            } else if e == 'r' {
                '\r'
            } else if e == 'b' {
                (8u8) as char
            } else if e == 'f' {
                (12u8) as char
            } else {
                e
            };
            match parse_str_at(s, i + 2) {
                Some((mut t, k)) => {
                    t.insert(0, c2);
                    proof {
                        assert(t@ =~= seq![c2] + t@.drop_first());
                    }
                    Some((t, k))
                },
                None => None,
            }
        } else {
            None
        }
    } else if (c as u32) < 32 {
        None
    } else {
        match parse_str_at(s, i + 1) {
            Some((mut t, k)) => {
                t.insert(0, c);
                proof {
                    assert(t@ =~= seq![c] + t@.drop_first());
                }
                Some((t, k))
            },
            None => None,
        }
    }
}


/// The first position at or after `i` holding no whitespace.
pub fn skip_ws_at(s: &Vec<char>, i: usize) -> (r: usize)
    requires
        i <= s@.len(),
    ensures
        r as int == skip_ws(s@, i as int),
        i <= r <= s@.len(),
    decreases s@.len() - i,
{
    if i < s.len() {
        let c = s[i];
        if c == ' ' || c == '\t' || c == '\n' || c == '\r' {
            return skip_ws_at(s, i + 1);
        }
    }
    i
}

/// Parse one value at `i`, as `parse_value` describes.
pub fn parse_value_at(s: &Vec<char>, i: usize) -> (r: Option<(Value, usize)>)
    requires
        i <= s@.len(),
    ensures
        match r {
            Some(p) => parse_value(s@, i as int) == Some((p.0@, p.1 as int)) && i < p.1
                <= s@.len(),
            None => parse_value(s@, i as int) is None,
        },
    decreases s@.len() - i, 1int,
{
    let len = s.len();
    let w = skip_ws_at(s, i);
    if w >= len {
        return None;
    }
    let c = s[w];
    if c == 'n' {
        if len - w >= 4 && s[w + 1] == 'u' && s[w + 2] == 'l' && s[w + 3] == 'l' {
            Some((Value::Null, w + 4))
        } else {
            None
        }
    } else if c == 't' {
        if len - w >= 4 && s[w + 1] == 'r' && s[w + 2] == 'u' && s[w + 3] == 'e' {
            Some((Value::Bool(true), w + 4))
        } else {
            None
        }
    } else if c == 'f' {
        if len - w >= 5 && s[w + 1] == 'a' && s[w + 2] == 'l' && s[w + 3] == 's' && s[w + 4]
            == 'e' {
            Some((Value::Bool(false), w + 5))
        } else {
            None
        }
    } else if c == '-' || (48 <= c as u32 && c as u32 <= 57) {
        match parse_int_at(s, w) {
            Some((n, j)) => Some((Value::Int(n), j)),
            None => None,
        }
    } else if c == '"' {
        match parse_str_at(s, w + 1) {
            Some((t, j)) => {
                let st = crate::text::string_from_chars(&t);
                Some((Value::Str(st), j))
            },
            None => None,
        }
    } else if c == '[' {
        let w2 = skip_ws_at(s, w + 1);
        if w2 < len && s[w2] == ']' {
            let a: Vec<Value> = Vec::new();
            proof {
                assert(crate::value::seq_views(a@) =~= Seq::<SpecValue>::empty());
            }
            Some((Value::Arr(a), w2 + 1))
        } else {
            match parse_elems_at(s, w + 1) {
                Some((a, j)) => Some((Value::Arr(a), j)),
                None => None,
            }
        }
    } else if c == '{' {
        let w2 = skip_ws_at(s, w + 1);
        if w2 < len && s[w2] == '}' {
            let o: Vec<(String, Value)> = Vec::new();
            proof {
                assert(crate::value::pair_views(o@) =~= Seq::<(Seq<char>, SpecValue)>::empty());
            }
            Some((Value::Obj(o), w2 + 1))
        } else {
            match parse_members_at(s, w + 1) {
                Some((o, j)) => Some((Value::Obj(o), j)),
                None => None,
            }
        }
    } else {
        None
    }
}

/// Parse the elements of a non-empty array at `i`, as `parse_elems`
/// describes.
fn parse_elems_at(s: &Vec<char>, i: usize) -> (r: Option<(Vec<Value>, usize)>)
    requires
        i <= s@.len(),
    ensures
        match r {
            Some(p) => parse_elems(s@, i as int) == Some(
                (crate::value::seq_views(p.0@), p.1 as int),
            ) && i < p.1 <= s@.len(),
            None => parse_elems(s@, i as int) is None,
        },
    decreases s@.len() - i, 2int,
{
    let len = s.len();
    match parse_value_at(s, i) {
        None => None,
        Some((v, j)) => {
            let j2 = skip_ws_at(s, j);
            if j2 < len && s[j2] == ',' {
                match parse_elems_at(s, j2 + 1) {
                    Some((mut a, k)) => {
                        let ghost a0 = a@;
                        a.insert(0, v);
                        proof {
                            assert(a@ =~= seq![v] + a0);
                            crate::value::lemma_seq_views_cons(v, a0);
                        }
                        Some((a, k))
                    },
                    None => None,
                }
            } else if j2 < len && s[j2] == ']' {
                let mut a: Vec<Value> = Vec::new();
                a.push(v);
                proof {
                    assert(a@ =~= seq![v] + Seq::<Value>::empty());
                    crate::value::lemma_seq_views_cons(v, Seq::<Value>::empty());
                    assert(crate::value::seq_views(Seq::<Value>::empty())
                        =~= Seq::<SpecValue>::empty());
                    assert(crate::value::seq_views(a@) =~= seq![v@]);
                }
                Some((a, j2 + 1))
            } else {
                None
            }
        },
    }
}

/// Parse the members of a non-empty object at `i`, as `parse_members`
/// describes.
fn parse_members_at(s: &Vec<char>, i: usize) -> (r: Option<(Vec<(String, Value)>, usize)>)
    requires
        i <= s@.len(),
    ensures
        match r {
            Some(p) => parse_members(s@, i as int) == Some(
                (crate::value::pair_views(p.0@), p.1 as int),
            ) && i < p.1 <= s@.len(),
            None => parse_members(s@, i as int) is None,
        },
    decreases s@.len() - i, 2int,
{
    let len = s.len();
    let w = skip_ws_at(s, i);
    if !(w < len && s[w] == '"') {
        return None;
    }
    match parse_str_at(s, w + 1) {
        None => None,
        Some((kt, j)) => {
            let key = crate::text::string_from_chars(&kt);
            let jc = skip_ws_at(s, j);
            if jc < len && s[jc] == ':' {
                match parse_value_at(s, jc + 1) {
                    None => None,
                    Some((v, j2)) => {
                        let j3 = skip_ws_at(s, j2);
                        if j3 < len && s[j3] == ',' {
                            match parse_members_at(s, j3 + 1) {
                                Some((mut o, k)) => {
                                    let ghost o0 = o@;
                                    let ghost kv = key@;
                                    let ghost vv = v@;
                                    let e = (key, v);
                                    o.insert(0, e);
                                    proof {
                                        assert(o@ =~= seq![e] + o0);
                                        crate::value::lemma_pair_views_cons(e, o0);
                                        assert(e.0@ == kv && e.1@ == vv);
                                    }
                                    Some((o, k))
                                },
                                None => None,
                            }
                        } else if j3 < len && s[j3] == '}' {
                            let mut o: Vec<(String, Value)> = Vec::new();
                            let e = (key, v);
                            o.push(e);
                            proof {
                                assert(o@ =~= seq![e] + Seq::<(String, Value)>::empty());
                                crate::value::lemma_pair_views_cons(
                                    e,
                                    Seq::<(String, Value)>::empty(),
                                );
                                assert(crate::value::pair_views(Seq::<(String, Value)>::empty())
                                    =~= Seq::<(Seq<char>, SpecValue)>::empty());
                                assert(crate::value::pair_views(o@) =~= seq![(e.0@, e.1@)]);
                            }
                            Some((o, j3 + 1))
                        } else {
                            None
                        }
                    },
                }
            } else {
                None
            }
        },
    }
}

} // verus!

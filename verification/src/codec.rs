//! Text codec of the sidecar files: decimal numbers as used by the
//! last-opened stamp, JSON strings, and the two JSON documents that
//! hold a book's marks and the reader style.
//!
//! The printers produce exactly the compact form the application
//! writes; the parsers accept that form and fail on anything
//! malformed, as the sidecar read contract demands.

use vstd::prelude::*;
use crate::model::BookMark;
use crate::model::BookMarkView;
use crate::model::LibError;
use crate::model::Mark;
use crate::model::MarkView;
use crate::model::ReaderStyle;
use crate::model::ReaderStyleView;
use crate::model::default_style;
use crate::text::chars_to_string;
use crate::text::string_to_chars;

verus! {

/// The decimal digit character of a value below ten.
pub open spec fn dec_digit_char(v: nat) -> char {
    if v == 0 { '0' } else if v == 1 { '1' } else if v == 2 { '2' } else if v == 3 { '3' }
    else if v == 4 { '4' } else if v == 5 { '5' } else if v == 6 { '6' } else if v == 7 { '7' }
    else if v == 8 { '8' } else { '9' }
}

/// Decimal rendering of a number: most significant digit first, no
/// leading zeros.
pub open spec fn dec_rep(n: nat) -> Seq<char>
    decreases n,
{
    if n < 10 {
        seq![dec_digit_char(n)]
    } else {
        dec_rep(n / 10).push(dec_digit_char(n % 10))
    }
}

/// Whether `c` is a decimal digit.
pub open spec fn is_dec_digit(c: char) -> bool {
    48 <= c as u32 <= 57
}

/// The value of a digit character.
pub open spec fn dec_digit_val(c: char) -> nat {
    (c as u32 - 48) as nat
}

/// The value of a digit sequence read in base ten.
pub open spec fn digits_val(s: Seq<char>) -> nat
    decreases s.len(),
{
    if s.len() == 0 {
        0
    } else {
        digits_val(s.drop_last()) * 10 + dec_digit_val(s.last())
    }
}

/// End of the run of digits starting at `i`.
pub open spec fn digits_end(s: Seq<char>, i: int) -> int
    decreases s.len() - i,
{
    if i < 0 || i >= s.len() {
        i
    } else if is_dec_digit(s[i]) {
        digits_end(s, i + 1)
    } else {
        i
    }
}

/// Parse of an unsigned decimal number at `i`: the whole digit run,
/// read in base ten, accepted when there is at least one digit and
/// the value fits the type.
pub open spec fn spec_parse_u64(s: Seq<char>, i: int) -> Option<(u64, int)> {
    let e = digits_end(s, i);
    if e == i {
        None
    } else {
        let v = digits_val(s.subrange(i, e));
        if v <= u64::MAX {
            Some((v as u64, e))
        } else {
            None
        }
    }
}

/// As `spec_parse_u64`, for values that must fit 32 bits.
pub open spec fn spec_parse_u32(s: Seq<char>, i: int) -> Option<(u32, int)> {
    let e = digits_end(s, i);
    if e == i {
        None
    } else {
        let v = digits_val(s.subrange(i, e));
        if v <= u32::MAX {
            Some((v as u32, e))
        } else {
            None
        }
    }
}

fn dec_digit(v: u64) -> (c: char)
    requires
        v < 10,
    ensures
        c == dec_digit_char(v as nat),
{
    if v == 0 { '0' } else if v == 1 { '1' } else if v == 2 { '2' } else if v == 3 { '3' }
    else if v == 4 { '4' } else if v == 5 { '5' } else if v == 6 { '6' } else if v == 7 { '7' }
    else if v == 8 { '8' } else { '9' }
}

/// Append the decimal rendering of `n`.
pub fn push_dec_u64(out: &mut Vec<char>, n: u64)
    ensures
        final(out)@ == old(out)@ + dec_rep(n as nat),
    decreases n,
{
    if n < 10 {
        out.push(dec_digit(n));
        proof {
            assert(out@ =~= old(out)@ + dec_rep(n as nat));
        }
    } else {
        push_dec_u64(out, n / 10);
        out.push(dec_digit(n % 10));
        proof {
            assert(out@ =~= old(out)@ + dec_rep(n as nat));
        }
    }
}

/// Every character of a decimal rendering is a digit, and reading the
/// rendering back yields the number.
pub proof fn lemma_dec_rep_digits(n: nat)
    ensures
        dec_rep(n).len() >= 1,
        forall|k: int| 0 <= k < dec_rep(n).len() ==> is_dec_digit(#[trigger] dec_rep(n)[k]),
        digits_val(dec_rep(n)) == n,
    decreases n,
{
    if n < 10 {
        assert(dec_rep(n) == seq![dec_digit_char(n)]);
        assert(seq![dec_digit_char(n)].drop_last() =~= Seq::<char>::empty());
        assert(seq![dec_digit_char(n)].last() == dec_digit_char(n));
        assert(digits_val(Seq::<char>::empty()) == 0);
        assert(dec_digit_val(dec_digit_char(n)) == n);
        assert(digits_val(dec_rep(n)) == dec_digit_val(dec_digit_char(n)));
    } else {
        lemma_dec_rep_digits(n / 10);
        let p = dec_rep(n / 10);
        let d = dec_digit_char(n % 10);
        assert(p.push(d).drop_last() =~= p);
        assert(p.push(d).last() == d);
        assert(digits_val(p.push(d)) == digits_val(p) * 10 + dec_digit_val(d));
        assert(dec_digit_val(dec_digit_char(n % 10)) == n % 10);
        assert(forall|k: int|
            0 <= k < p.push(d).len() ==> is_dec_digit(#[trigger] p.push(d)[k])) by {
            assert(forall|k: int| 0 <= k < p.len() ==> p.push(d)[k] == p[k]);
            assert(p.push(d)[p.len() as int] == d);
        }
    }
}

/// A digit run bounded by a non-digit (or the end) is exactly what
/// `digits_end` spans.
proof fn lemma_digits_end_run(s: Seq<char>, i: int, e: int)
    requires
        0 <= i <= e <= s.len(),
        forall|k: int| i <= k < e ==> is_dec_digit(#[trigger] s[k]),
        e == s.len() || !is_dec_digit(s[e]),
    ensures
        digits_end(s, i) == e,
    decreases e - i,
{
    if i < e {
        lemma_digits_end_run(s, i + 1, e);
    }
}

/// Reading more digits never shrinks the value.
proof fn lemma_digits_val_prefix(s: Seq<char>, i: int, k: int, e: int)
    requires
        0 <= i <= k <= e <= s.len(),
    ensures
        digits_val(s.subrange(i, e)) >= digits_val(s.subrange(i, k)),
    decreases e - k,
{
    if k < e {
        lemma_digits_val_prefix(s, i, k, e - 1);
        assert(s.subrange(i, e).drop_last() =~= s.subrange(i, e - 1));
        assert(digits_val(s.subrange(i, e)) == digits_val(s.subrange(i, e - 1)) * 10
            + dec_digit_val(s.subrange(i, e).last()));
    }
}

/// Parse an unsigned decimal number from position `i`.
pub fn parse_u64_at(s: &Vec<char>, i: usize) -> (r: Option<(u64, usize)>)
    requires
        i <= s@.len(),
    ensures
        match r {
            Some(p) => spec_parse_u64(s@, i as int) == Some((p.0, p.1 as int)) && i < p.1
                <= s@.len(),
            None => spec_parse_u64(s@, i as int) is None,
        },
{
    let n = s.len();
    let mut e = i;
    while e < n
        invariant
            i <= e <= n,
            forall|k: int| i <= k < e ==> is_dec_digit(#[trigger] s@[k]),
        decreases n - e,
    {
        let x = s[e] as u32;
        if !(48 <= x && x <= 57) {
            break;
        }
        e = e + 1;
    }
    proof {
        lemma_digits_end_run(s@, i as int, e as int);
    }
    if e == i {
        return None;
    }
    let mut acc: u64 = 0;
    let mut k = i;
    while k < e
        invariant
            i <= k <= e <= n,
            forall|j: int| i <= j < e ==> is_dec_digit(#[trigger] s@[j]),
            acc as nat == digits_val(s@.subrange(i as int, k as int)),
        decreases e - k,
    {
        let x = s[k] as u32;
        proof {
            assert(is_dec_digit(s@[k as int]));
        }
        let d = (x - 48) as u64;
        proof {
            assert(s@.subrange(i as int, k as int + 1).drop_last() =~= s@.subrange(
                i as int,
                k as int,
            ));
            assert(s@.subrange(i as int, k as int + 1).last() == s@[k as int]);
            assert(digits_val(s@.subrange(i as int, k as int + 1)) == acc as nat * 10 + d as nat);
        }
        if acc > (u64::MAX - d) / 10 {
            proof {
                assert(acc as nat * 10 + d as nat > u64::MAX as nat) by (nonlinear_arith)
                    requires
                        acc as nat > ((u64::MAX - d) as nat) / 10,
                        d as nat <= 9,
                ;
                lemma_digits_val_prefix(s@, i as int, k as int + 1, e as int);
            }
            return None;
        }
        proof {
            assert(acc as nat * 10 + d as nat <= u64::MAX as nat) by (nonlinear_arith)
                requires
                    acc as nat <= ((u64::MAX - d) as nat) / 10,
                    d as nat <= 9,
            ;
        }
        acc = acc * 10 + d;
        k = k + 1;
    }
    Some((acc, e))
}

/// Parse a decimal number that must fit 32 bits.
pub fn parse_u32_at(s: &Vec<char>, i: usize) -> (r: Option<(u32, usize)>)
    requires
        i <= s@.len(),
    ensures
        match r {
            Some(p) => spec_parse_u32(s@, i as int) == Some((p.0, p.1 as int)) && i < p.1
                <= s@.len(),
            None => spec_parse_u32(s@, i as int) is None,
        },
{
    match parse_u64_at(s, i) {
        Some((v, j)) => {
            if v <= 0xFFFF_FFFF {
                Some((v as u32, j))
            } else {
                None
            }
        },
        None => None,
    }
}

/// Whether `c` is a hexadecimal digit of either case.
pub open spec fn is_hex_digit(c: char) -> bool {
    ||| 48 <= c as u32 <= 57
    ||| 97 <= c as u32 <= 102
    ||| 65 <= c as u32 <= 70
}

/// The value of a hexadecimal digit character.
pub open spec fn hex_digit_val(c: char) -> u32 {
    if 48 <= c as u32 <= 57 {
        (c as u32 - 48) as u32
    } else if 97 <= c as u32 <= 102 {
        (c as u32 - 87) as u32
    } else {
        (c as u32 - 55) as u32
    }
}

/// The escape a character gets inside a JSON string: quote and
/// backslash are escaped with a backslash, control characters as a
/// four-digit code, everything else stands as itself.
pub open spec fn esc_char(c: char) -> Seq<char> {
    if c == '"' {
        seq!['\\', '"']
    } else if c == '\\' {
        seq!['\\', '\\']
    } else if (c as u32) < 32 {
        seq![
            '\\',
            'u',
            '0',
            '0',
            crate::hash::hex_digit_char((c as u32 / 16) as u8),
            crate::hash::hex_digit_char((c as u32 % 16) as u8),
        ]
    } else {
        seq![c]
    }
}

/// The body of a JSON string holding the characters of `s`.
pub open spec fn json_escape(s: Seq<char>) -> Seq<char>
    decreases s.len(),
{
    if s.len() == 0 {
        Seq::empty()
    } else {
        esc_char(s[0]) + json_escape(s.drop_first())
    }
}

/// A JSON string literal holding the characters of `s`.
pub open spec fn json_str(s: Seq<char>) -> Seq<char> {
    seq!['"'] + json_escape(s) + seq!['"']
}

/// Parse of a JSON string body starting at `i` (after the opening
/// quote): the decoded characters and the position after the closing
/// quote. Fails on an unterminated string, a bare control character,
/// an unknown escape, or a code that is no scalar value.
pub open spec fn spec_parse_str_body(s: Seq<char>, i: int) -> Option<(Seq<char>, int)>
    decreases s.len() - i,
{
    if i < 0 || i >= s.len() {
        None
    } else if s[i] == '"' {
        Some((Seq::empty(), i + 1))
    } else if s[i] == '\\' {
        if i + 1 >= s.len() {
            None
        } else {
            let c1 = s[i + 1];
            if c1 == 'u' {
                if i + 6 > s.len() {
                    None
                } else if is_hex_digit(s[i + 2]) && is_hex_digit(s[i + 3]) && is_hex_digit(
                    s[i + 4],
                ) && is_hex_digit(s[i + 5]) {
                    let v = ((hex_digit_val(s[i + 2]) * 4096 + hex_digit_val(s[i + 3]) * 256
                        + hex_digit_val(s[i + 4]) * 16 + hex_digit_val(s[i + 5])) as u32);
                    if v < 0xD800 || v >= 0xE000 {
                        match spec_parse_str_body(s, i + 6) {
                            Some(p) => Some((seq![v as char] + p.0, p.1)),
                            None => None,
                        }
                    } else {
                        None
                    }
                } else {
                    None
                }
            } else if c1 == '"' || c1 == '\\' || c1 == '/' || c1 == 'b' || c1 == 'f' || c1 == 'n'
                || c1 == 'r' || c1 == 't' {
                let ch = if c1 == '"' {
                    '"'
                } else if c1 == '\\' {
                    '\\'
                } else if c1 == '/' {
                    '/'
                } else if c1 == 'b' {
                    '\u{8}'
                } else if c1 == 'f' {
                    '\u{c}'
                } else if c1 == 'n' {
                    '\n'
                } else if c1 == 'r' {
                    '\r'
                } else {
                    '\t'
                };
                match spec_parse_str_body(s, i + 2) {
                    Some(p) => Some((seq![ch] + p.0, p.1)),
                    None => None,
                }
            } else {
                None
            }
        }
    } else if (s[i] as u32) >= 32 {
        match spec_parse_str_body(s, i + 1) {
            Some(p) => Some((seq![s[i]] + p.0, p.1)),
            None => None,
        }
    } else {
        None
    }
}

/// Parse of a complete JSON string literal at `i`.
pub open spec fn spec_parse_string(s: Seq<char>, i: int) -> Option<(Seq<char>, int)> {
    if 0 <= i < s.len() && s[i] == '"' {
        spec_parse_str_body(s, i + 1)
    } else {
        None
    }
}

/// Append the escaped body of a JSON string holding `v`.
pub fn push_escaped(out: &mut Vec<char>, v: &Vec<char>)
    ensures
        final(out)@ == old(out)@ + json_escape(v@),
{
    let mut i: usize = 0;
    while i < v.len()
        invariant
            i <= v@.len(),
            out@ == old(out)@ + json_escape(v@.subrange(0, i as int)),
        decreases v@.len() - i,
    {
        let ghost pre = out@;
        let c = v[i];
        if c == '"' {
            out.push('\\');
            out.push('"');
        } else if c == '\\' {
            out.push('\\');
            out.push('\\');
        } else {
            let x = c as u32;
            if x < 32 {
                out.push('\\');
                out.push('u');
                out.push('0');
                out.push('0');
                out.push(crate::hash::hex_digit((x / 16) as u8));
                out.push(crate::hash::hex_digit((x % 16) as u8));
            } else {
                out.push(c);
            }
        }
        proof {
            lemma_json_escape_snoc(v@, i as int);
            assert(out@ =~= pre + esc_char(v@[i as int]));
            assert(out@ =~= old(out)@ + json_escape(v@.subrange(0, i as int + 1)));
        }
        i = i + 1;
    }
    proof {
        assert(v@.subrange(0, v@.len() as int) =~= v@);
    }
}

/// Escaping restated over a prefix growing by one character.
proof fn lemma_json_escape_snoc(v: Seq<char>, j: int)
    requires
        0 <= j < v.len(),
    ensures
        json_escape(v.subrange(0, j + 1)) == json_escape(v.subrange(0, j)) + esc_char(v[j]),
    decreases j,
{
    if j == 0 {
        assert(v.subrange(0, 1) =~= seq![v[0]]);
        assert(seq![v[0]].drop_first() =~= Seq::<char>::empty());
        assert(v.subrange(0, 0) =~= Seq::<char>::empty());
        assert(json_escape(Seq::<char>::empty()) == Seq::<char>::empty());
        assert(json_escape(v.subrange(0, 1)) =~= Seq::<char>::empty() + esc_char(v[0]));
    } else {
        let t = v.drop_first();
        lemma_json_escape_snoc(t, j - 1);
        assert(v.subrange(0, j + 1).drop_first() =~= t.subrange(0, j));
        assert(v.subrange(0, j).drop_first() =~= t.subrange(0, j - 1));
        assert(v.subrange(0, j + 1)[0] == v[0]);
        assert(v.subrange(0, j)[0] == v[0]);
        assert(t[j - 1] == v[j]);
        assert(esc_char(v[0]) + (json_escape(t.subrange(0, j - 1)) + esc_char(v[j])) =~= (esc_char(
            v[0],
        ) + json_escape(t.subrange(0, j - 1))) + esc_char(v[j]));
    }
}

fn hex_val_char(c: char) -> (r: Option<u32>)
    ensures
        match r {
            Some(v) => is_hex_digit(c) && v == hex_digit_val(c) && v < 16,
            None => !is_hex_digit(c),
        },
{
    let x = c as u32;
    if 48 <= x && x <= 57 {
        Some(x - 48)
    } else if 97 <= x && x <= 102 {
        Some(x - 87)
    } else if 65 <= x && x <= 70 {
        Some(x - 55)
    } else {
        None
    }
}

/// Parse a JSON string body from `i` (after the opening quote).
pub fn parse_str_body(s: &Vec<char>, i: usize) -> (r: Option<(Vec<char>, usize)>)
    requires
        i <= s@.len(),
    ensures
        match r {
            Some(p) => spec_parse_str_body(s@, i as int) == Some((p.0@, p.1 as int)) && i < p.1
                <= s@.len(),
            None => spec_parse_str_body(s@, i as int) is None,
        },
    decreases s@.len() - i,
{
    if i >= s.len() {
        return None;
    }
    let c = s[i];
    if c == '"' {
        return Some((Vec::new(), i + 1));
    }
    if c == '\\' {
        if i + 1 >= s.len() {
            return None;
        }
        let c1 = s[i + 1];
        let ch: char;
        let ni: usize;
        if c1 == 'u' {
            if s.len() - i < 6 {
                return None;
            }
            let h2 = hex_val_char(s[i + 2]);
            let h3 = hex_val_char(s[i + 3]);
            let h4 = hex_val_char(s[i + 4]);
            let h5 = hex_val_char(s[i + 5]);
            match (h2, h3, h4, h5) {
                (Some(a), Some(b), Some(cc), Some(dd)) => {
                    let v: u32 = a * 4096 + b * 256 + cc * 16 + dd;
                    if !(v < 0xD800 || v >= 0xE000) {
                        return None;
                    }
                    match crate::text::char_from_u32(v) {
                        Some(decoded) => {
                            proof {
                                vstd::utf8::char_u32_cast(decoded, v);
                            }
                            ch = decoded;
                            ni = i + 6;
                        },
                        None => {
                            proof {
                                assert(false);
                            }
                            return None;
                        },
                    }
                },
                _ => {
                    return None;
                },
            }
        } else if c1 == '"' {
            ch = '"';
            ni = i + 2;
        } else if c1 == '\\' {
            ch = '\\';
            ni = i + 2;
        } else if c1 == '/' {
            ch = '/';
            ni = i + 2;
        } else if c1 == 'b' {
            ch = '\u{8}';
            ni = i + 2;
        } else if c1 == 'f' {
            ch = '\u{c}';
            ni = i + 2;
        } else if c1 == 'n' {
            ch = '\n';
            ni = i + 2;
        } else if c1 == 'r' {
            ch = '\r';
            ni = i + 2;
        } else if c1 == 't' {
            ch = '\t';
            ni = i + 2;
        } else {
            return None;
        }
        match parse_str_body(s, ni) {
            Some((mut v, j)) => {
                v.insert(0, ch);
                proof {
                    assert(v@ =~= seq![ch] + v@.subrange(1, v@.len() as int));
                }
                return Some((v, j));
            },
            None => {
                return None;
            },
        }
    }
    if (c as u32) < 32 {
        return None;
    }
    match parse_str_body(s, i + 1) {
        Some((mut v, j)) => {
            v.insert(0, c);
            proof {
                assert(v@ =~= seq![c] + v@.subrange(1, v@.len() as int));
            }
            Some((v, j))
        },
        None => None,
    }
}

/// An escaped body followed by its closing quote parses back to the
/// characters it was written from.
pub proof fn lemma_parse_escaped(s: Seq<char>, i: int, x: Seq<char>)
    requires
        0 <= i,
        i + json_escape(x).len() + 1 <= s.len(),
        s.subrange(i, i + json_escape(x).len()) == json_escape(x),
        s[i + json_escape(x).len()] == '"',
    ensures
        spec_parse_str_body(s, i) == Some((x, i + json_escape(x).len() + 1)),
    decreases x.len(),
{
    let l = json_escape(x).len() as int;
    if x.len() == 0 {
        assert(s[i] == '"');
    } else {
        let c = x[0];
        let ec = esc_char(c);
        let rest = json_escape(x.drop_first());
        assert(json_escape(x) == ec + rest);
        assert forall|k: int| i <= k < i + ec.len() implies #[trigger] s[k] == ec[k - i] by {
            assert(s.subrange(i, i + l)[k - i] == s[k]);
            assert((ec + rest)[k - i] == ec[k - i]);
        }
        let i2 = i + ec.len() as int;
        assert forall|k: int|
            0 <= k < rest.len() implies #[trigger] s.subrange(i2, i2 + rest.len())[k]
            == rest[k] by {
            assert(s.subrange(i2, i2 + rest.len())[k] == s[i2 + k]);
            assert(s.subrange(i, i + l)[ec.len() + k] == s[i2 + k]);
            assert((ec + rest)[ec.len() + k] == rest[k]);
        }
        assert(s.subrange(i2, i2 + rest.len()) =~= rest);
        assert(s[i2 + rest.len()] == '"');
        lemma_parse_escaped(s, i2, x.drop_first());
        if c == '"' {
            assert(s[i] == '\\' && s[i + 1] == '"');
            assert(spec_parse_str_body(s, i) == Some((seq![c] + x.drop_first(), i + l + 1)));
        } else if c == '\\' {
            assert(s[i] == '\\' && s[i + 1] == '\\');
            assert(spec_parse_str_body(s, i) == Some((seq![c] + x.drop_first(), i + l + 1)));
        } else if (c as u32) < 32 {
            assert(s[i] == '\\' && s[i + 1] == 'u' && s[i + 2] == '0' && s[i + 3] == '0');
            let hi = crate::hash::hex_digit_char((c as u32 / 16) as u8);
            let lo = crate::hash::hex_digit_char((c as u32 % 16) as u8);
            assert(s[i + 4] == hi && s[i + 5] == lo);
            assert(is_hex_digit('0') && hex_digit_val('0') == 0);
            assert(is_hex_digit(hi) && hex_digit_val(hi) == c as u32 / 16);
            assert(is_hex_digit(lo) && hex_digit_val(lo) == c as u32 % 16);
            let v = ((hex_digit_val(s[i + 2]) * 4096 + hex_digit_val(s[i + 3]) * 256
                + hex_digit_val(s[i + 4]) * 16 + hex_digit_val(s[i + 5])) as u32);
            assert(v == c as u32);
            vstd::utf8::char_u32_cast(c, v);
            assert(v as char == c);
            assert(spec_parse_str_body(s, i) == Some((seq![c] + x.drop_first(), i + l + 1)));
        } else {
            assert(s[i] == c);
            assert(spec_parse_str_body(s, i) == Some((seq![c] + x.drop_first(), i + l + 1)));
        }
        assert(seq![c] + x.drop_first() =~= x);
    }
}

/// A decimal rendering standing at `i`, bounded by a non-digit, parses
/// back to the number it renders.
pub proof fn lemma_parse_dec_rep(s: Seq<char>, i: int, n: u64)
    requires
        0 <= i,
        i + dec_rep(n as nat).len() <= s.len(),
        s.subrange(i, i + dec_rep(n as nat).len()) == dec_rep(n as nat),
        i + dec_rep(n as nat).len() == s.len() || !is_dec_digit(s[i + dec_rep(n as nat).len()]),
    ensures
        spec_parse_u64(s, i) == Some((n, i + dec_rep(n as nat).len())),
        spec_parse_u32(s, i) == if n <= u32::MAX {
            Some((n as u32, i + dec_rep(n as nat).len()))
        } else {
            None::<(u32, int)>
        },
{
    lemma_dec_rep_digits(n as nat);
    let l = dec_rep(n as nat).len();
    assert forall|k: int| i <= k < i + l implies is_dec_digit(#[trigger] s[k]) by {
        assert(s[k] == s.subrange(i, i + l)[k - i]);
        assert(is_dec_digit(dec_rep(n as nat)[k - i]));
    }
    lemma_digits_end_run(s, i, i + l);
    assert(digits_val(s.subrange(i, i + l)) == n);
}


/// Whether the fixed token stands at position `i`.
pub open spec fn spec_expect(s: Seq<char>, i: int, tok: Seq<char>) -> Option<int> {
    if 0 <= i && i + tok.len() <= s.len() && s.subrange(i, i + tok.len()) == tok {
        Some(i + tok.len())
    } else {
        None
    }
}

/// Check the fixed token at position `i`.
fn expect_lit(s: &Vec<char>, i: usize, tok: &str) -> (r: Option<usize>)
    requires
        i <= s@.len(),
    ensures
        match r {
            Some(j) => spec_expect(s@, i as int, tok@) == Some(j as int) && i <= j <= s@.len(),
            None => spec_expect(s@, i as int, tok@) is None,
        },
{
    let m = tok.unicode_len();
    if s.len() - i < m {
        return None;
    }
    let mut k: usize = 0;
    while k < m
        invariant
            k <= m,
            i + m <= s@.len(),
            forall|j: int| 0 <= j < k ==> s@[i + j] == tok@[j],
        decreases m - k,
    {
        if s[i + k] != tok.get_char(k) {
            proof {
                assert(s@.subrange(i as int, i + m) != tok@) by {
                    assert(s@.subrange(i as int, i as int + m)[k as int] == s@[i + k]);
                }
            }
            return None;
        }
        k = k + 1;
    }
    proof {
        assert(s@.subrange(i as int, i + m) =~= tok@);
    }
    Some(i + m)
}

/// Append the characters of a fixed token.
fn push_lit(out: &mut Vec<char>, tok: &str)
    ensures
        final(out)@ == old(out)@ + tok@,
{
    let m = tok.unicode_len();
    let mut k: usize = 0;
    while k < m
        invariant
            k <= m,
            out@ =~= old(out)@ + tok@.subrange(0, k as int),
        decreases m - k,
    {
        out.push(tok.get_char(k));
        k = k + 1;
    }
    proof {
        assert(tok@.subrange(0, m as int) =~= tok@);
    }
}

/// Append a JSON string literal holding the characters of `v`.
fn push_json_string(out: &mut Vec<char>, v: &String)
    ensures
        final(out)@ == old(out)@ + json_str(v@),
{
    let cv = string_to_chars(v.as_str());
    out.push('"');
    push_escaped(out, &cv);
    out.push('"');
    proof {
        assert(out@ =~= old(out)@ + json_str(v@));
    }
}

/// Parse a JSON string literal at `i`.
fn parse_string_at(s: &Vec<char>, i: usize) -> (r: Option<(String, usize)>)
    requires
        i <= s@.len(),
    ensures
        match r {
            Some(p) => spec_parse_string(s@, i as int) == Some((p.0@, p.1 as int)) && i < p.1
                <= s@.len(),
            None => spec_parse_string(s@, i as int) is None,
        },
{
    if i >= s.len() {
        return None;
    }
    if s[i] != '"' {
        return None;
    }
    match parse_str_body(s, i + 1) {
        Some((v, j)) => Some((chars_to_string(&v), j)),
        None => None,
    }
}

/// The compact JSON rendering of one mark.
pub open spec fn spec_encode_mark(m: MarkView) -> Seq<char> {
    "{\"page\":"@ + (dec_rep(m.page as nat) + (",\"content\":"@ + (json_str(m.content) + (
    ",\"width\":"@ + (dec_rep(m.width as nat) + (",\"height\":"@ + (dec_rep(m.height as nat) + (
    ",\"cfi\":"@ + (json_str(m.cfi) + "}"@)))))))))
}

/// Parse of one mark object at `i`.
pub open spec fn spec_parse_mark(s: Seq<char>, i: int) -> Option<(MarkView, int)> {
    match spec_expect(s, i, "{\"page\":"@) {
        None => None,
        Some(i1) => match spec_parse_u32(s, i1) {
            None => None,
            Some((page, i2)) => match spec_expect(s, i2, ",\"content\":"@) {
                None => None,
                Some(i3) => match spec_parse_string(s, i3) {
                    None => None,
                    Some((content, i4)) => match spec_expect(s, i4, ",\"width\":"@) {
                        None => None,
                        Some(i5) => match spec_parse_u32(s, i5) {
                            None => None,
                            Some((width, i6)) => match spec_expect(s, i6, ",\"height\":"@) {
                                None => None,
                                Some(i7) => match spec_parse_u32(s, i7) {
                                    None => None,
                                    Some((height, i8)) => match spec_expect(s, i8, ",\"cfi\":"@) {
                                        None => None,
                                        Some(i9) => match spec_parse_string(s, i9) {
                                            None => None,
                                            Some((cfi, i10)) => match spec_expect(s, i10, "}"@) {
                                                None => None,
                                                Some(i11) => Some(
                                                    (
                                                        MarkView {
                                                            page,
                                                            content,
                                                            width,
                                                            height,
                                                            cfi,
                                                        },
                                                        i11,
                                                    ),
                                                ),
                                            },
                                        },
                                    },
                                },
                            },
                        },
                    },
                },
            },
        },
    }
}

/// Append the JSON rendering of one mark.
#[verifier::rlimit(100)]
fn encode_mark_into(out: &mut Vec<char>, m: &Mark)
    ensures
        final(out)@ == old(out)@ + spec_encode_mark(m@),
{
    push_lit(out, "{\"page\":");
    push_dec_u64(out, m.page as u64);
    push_lit(out, ",\"content\":");
    push_json_string(out, &m.content);
    push_lit(out, ",\"width\":");
    push_dec_u64(out, m.width as u64);
    push_lit(out, ",\"height\":");
    push_dec_u64(out, m.height as u64);
    push_lit(out, ",\"cfi\":");
    push_json_string(out, &m.cfi);
    push_lit(out, "}");
    proof {
        assert(out@ =~= old(out)@ + spec_encode_mark(m@));
    }
}

/// Parse one mark object at `i`.
fn parse_mark_at(s: &Vec<char>, i: usize) -> (r: Option<(Mark, usize)>)
    requires
        i <= s@.len(),
    ensures
        match r {
            Some(p) => spec_parse_mark(s@, i as int) == Some((p.0@, p.1 as int)) && i < p.1
                <= s@.len(),
            None => spec_parse_mark(s@, i as int) is None,
        },
{
    let i1 = match expect_lit(s, i, "{\"page\":") {
        Some(j) => j,
        None => {
            return None;
        },
    };
    let (page, i2) = match parse_u32_at(s, i1) {
        Some(p) => p,
        None => {
            return None;
        },
    };
    let i3 = match expect_lit(s, i2, ",\"content\":") {
        Some(j) => j,
        None => {
            return None;
        },
    };
    let (content, i4) = match parse_string_at(s, i3) {
        Some(p) => p,
        None => {
            return None;
        },
    };
    let i5 = match expect_lit(s, i4, ",\"width\":") {
        Some(j) => j,
        None => {
            return None;
        },
    };
    let (width, i6) = match parse_u32_at(s, i5) {
        Some(p) => p,
        None => {
            return None;
        },
    };
    let i7 = match expect_lit(s, i6, ",\"height\":") {
        Some(j) => j,
        None => {
            return None;
        },
    };
    let (height, i8) = match parse_u32_at(s, i7) {
        Some(p) => p,
        None => {
            return None;
        },
    };
    let i9 = match expect_lit(s, i8, ",\"cfi\":") {
        Some(j) => j,
        None => {
            return None;
        },
    };
    let (cfi, i10) = match parse_string_at(s, i9) {
        Some(p) => p,
        None => {
            return None;
        },
    };
    let i11 = match expect_lit(s, i10, "}") {
        Some(j) => j,
        None => {
            return None;
        },
    };
    Some((Mark { page, content, width, height, cfi }, i11))
}

/// Splitting a known concatenation at a position.
proof fn lemma_split_prefix(s: Seq<char>, i: int, x: Seq<char>, y: Seq<char>)
    requires
        0 <= i,
        i + x.len() + y.len() <= s.len(),
        s.subrange(i, i + x.len() + y.len()) == x + y,
    ensures
        s.subrange(i, i + x.len()) == x,
        s.subrange(i + x.len(), i + x.len() + y.len()) == y,
{
    assert forall|k: int| 0 <= k < x.len() implies #[trigger] s.subrange(i, i + x.len())[k]
        == x[k] by {
        assert(s.subrange(i, i + x.len())[k] == s[i + k]);
        assert(s.subrange(i, i + x.len() + y.len())[k] == s[i + k]);
        assert((x + y)[k] == x[k]);
    }
    assert(s.subrange(i, i + x.len()) =~= x);
    let b = i + x.len();
    assert forall|k: int| 0 <= k < y.len() implies #[trigger] s.subrange(b, b + y.len())[k]
        == y[k] by {
        assert(s.subrange(b, b + y.len())[k] == s[b + k]);
        assert(s.subrange(i, i + x.len() + y.len())[x.len() + k] == s[b + k]);
        assert((x + y)[x.len() + k] == y[k]);
    }
    assert(s.subrange(b, b + y.len()) =~= y);
}

/// A token standing at `i` meets its expectation.
proof fn lemma_expect_at(s: Seq<char>, i: int, tok: Seq<char>)
    requires
        0 <= i,
        i + tok.len() <= s.len(),
        s.subrange(i, i + tok.len()) == tok,
    ensures
        spec_expect(s, i, tok) == Some(i + tok.len()),
{
}

/// A JSON string literal standing at `i` parses back to what it holds.
proof fn lemma_parse_json_str_at(s: Seq<char>, i: int, x: Seq<char>)
    requires
        0 <= i,
        i + json_str(x).len() <= s.len(),
        s.subrange(i, i + json_str(x).len()) == json_str(x),
    ensures
        spec_parse_string(s, i) == Some((x, i + json_str(x).len())),
{
    let jl = json_str(x).len() as int;
    let el = json_escape(x).len() as int;
    assert(jl == el + 2);
    assert forall|k: int| 0 <= k < jl implies #[trigger] s[i + k] == json_str(x)[k] by {
        assert(s.subrange(i, i + jl)[k] == s[i + k]);
    }
    assert(s[i + 0] == json_str(x)[0]);
    assert(json_str(x)[0] == '"');
    assert(s[i] == '"');
    assert forall|k: int| 0 <= k < el implies #[trigger] s.subrange(i + 1, i + 1 + el)[k]
        == json_escape(x)[k] by {
        assert(s.subrange(i + 1, i + 1 + el)[k] == s[i + 1 + k]);
        assert(json_str(x)[1 + k] == (seq!['"'] + json_escape(x) + seq!['"'])[1 + k]);
        assert((seq!['"'] + json_escape(x) + seq!['"'])[1 + k] == json_escape(x)[k]);
    }
    assert(s.subrange(i + 1, i + 1 + el) =~= json_escape(x));
    assert(s[i + (1 + el)] == json_str(x)[1 + el]);
    assert(json_str(x)[1 + el] == '"');
    lemma_parse_escaped(s, i + 1, x);
    assert(spec_parse_str_body(s, i + 1) == Some((x, i + 1 + el + 1)));
}

/// A mark rendering standing at `i` parses back to the mark.
proof fn lemma_parse_encode_mark(s: Seq<char>, i: int, m: MarkView)
    requires
        0 <= i,
        i + spec_encode_mark(m).len() <= s.len(),
        s.subrange(i, i + spec_encode_mark(m).len()) == spec_encode_mark(m),
    ensures
        spec_parse_mark(s, i) == Some((m, i + spec_encode_mark(m).len())),
{
    reveal_strlit("{\"page\":");
    reveal_strlit(",\"content\":");
    reveal_strlit(",\"width\":");
    reveal_strlit(",\"height\":");
    reveal_strlit(",\"cfi\":");
    reveal_strlit("}");
    lemma_dec_rep_digits(m.page as nat);
    lemma_dec_rep_digits(m.width as nat);
    lemma_dec_rep_digits(m.height as nat);
    let t1 = "{\"page\":"@;
    let t2 = ",\"content\":"@;
    let t3 = ",\"width\":"@;
    let t4 = ",\"height\":"@;
    let t5 = ",\"cfi\":"@;
    let t6 = "}"@;
    let d1 = dec_rep(m.page as nat);
    let j1 = json_str(m.content);
    let d2 = dec_rep(m.width as nat);
    let d3 = dec_rep(m.height as nat);
    let j2 = json_str(m.cfi);
    let r9 = j2 + t6;
    let r8 = t5 + r9;
    let r7 = d3 + r8;
    let r6 = t4 + r7;
    let r5 = d2 + r6;
    let r4 = t3 + r5;
    let r3 = j1 + r4;
    let r2 = t2 + r3;
    let r1 = d1 + r2;
    assert(spec_encode_mark(m) == t1 + r1);
    let p0 = i;
    lemma_split_prefix(s, p0, t1, r1);
    let p1 = p0 + t1.len();
    lemma_split_prefix(s, p1, d1, r2);
    let p2 = p1 + d1.len();
    lemma_split_prefix(s, p2, t2, r3);
    let p3 = p2 + t2.len();
    lemma_split_prefix(s, p3, j1, r4);
    let p4 = p3 + j1.len();
    lemma_split_prefix(s, p4, t3, r5);
    let p5 = p4 + t3.len();
    lemma_split_prefix(s, p5, d2, r6);
    let p6 = p5 + d2.len();
    lemma_split_prefix(s, p6, t4, r7);
    let p7 = p6 + t4.len();
    lemma_split_prefix(s, p7, d3, r8);
    let p8 = p7 + d3.len();
    lemma_split_prefix(s, p8, t5, r9);
    let p9 = p8 + t5.len();
    lemma_split_prefix(s, p9, j2, t6);
    let p10 = p9 + j2.len();
    lemma_expect_at(s, p0, t1);
    assert(s.subrange(p2, p2 + t2.len())[0] == s[p2]);
    assert(s[p2] == t2[0] && t2[0] == ',');
    assert(!is_dec_digit(','));
    lemma_parse_dec_rep(s, p1, m.page as u64);
    lemma_expect_at(s, p2, t2);
    lemma_parse_json_str_at(s, p3, m.content);
    lemma_expect_at(s, p4, t3);
    assert(s.subrange(p6, p6 + t4.len())[0] == s[p6]);
    assert(s[p6] == t4[0] && t4[0] == ',');
    lemma_parse_dec_rep(s, p5, m.width as u64);
    lemma_expect_at(s, p6, t4);
    assert(s.subrange(p8, p8 + t5.len())[0] == s[p8]);
    assert(s[p8] == t5[0] && t5[0] == ',');
    lemma_parse_dec_rep(s, p7, m.height as u64);
    lemma_expect_at(s, p8, t5);
    lemma_parse_json_str_at(s, p9, m.cfi);
    lemma_expect_at(s, p10, t6);
    assert(spec_parse_mark(s, i) == Some(
        (MarkView { page: m.page, content: m.content, width: m.width, height: m.height, cfi: m.cfi }, p10 + t6.len()),
    ));
    assert(MarkView { page: m.page, content: m.content, width: m.width, height: m.height, cfi: m.cfi } == m);
}


/// The abstract marks a vector of marks stands for.
pub open spec fn deep_marks(l: Seq<Mark>) -> Seq<MarkView> {
    Seq::new(l.len(), |i: int| l[i]@)
}

/// The compact JSON rendering of a mark list, comma separated.
pub open spec fn spec_encode_marks(list: Seq<MarkView>) -> Seq<char>
    decreases list.len(),
{
    if list.len() == 0 {
        Seq::empty()
    } else if list.len() == 1 {
        spec_encode_mark(list[0])
    } else {
        spec_encode_mark(list[0]) + (seq![','] + spec_encode_marks(list.drop_first()))
    }
}

/// Parse of a mark list, up to and including its closing bracket.
pub open spec fn spec_parse_marks(s: Seq<char>, i: int) -> Option<(Seq<MarkView>, int)>
    decreases s.len() - i,
{
    if i < 0 || i >= s.len() {
        None
    } else if s[i] == ']' {
        Some((Seq::empty(), i + 1))
    } else {
        match spec_parse_mark(s, i) {
            None => None,
            Some((m, j)) => {
                if j >= s.len() {
                    None
                } else if s[j] == ']' {
                    Some((seq![m], j + 1))
                } else if s[j] == ',' && i < j + 1 {
                    match spec_parse_marks(s, j + 1) {
                        None => None,
                        Some((tl, e)) => Some((seq![m] + tl, e)),
                    }
                } else {
                    None
                }
            },
        }
    }
}

/// The compact JSON rendering of a whole bookmark.
pub open spec fn spec_encode_bookmark(b: BookMarkView) -> Seq<char> {
    "{\"book_path\":"@ + (json_str(b.book_path) + (",\"list\":["@ + (spec_encode_marks(b.list)
        + "]}"@)))
}

/// Parse of a bookmark object at `i`.
pub open spec fn spec_parse_bookmark(s: Seq<char>, i: int) -> Option<(BookMarkView, int)> {
    match spec_expect(s, i, "{\"book_path\":"@) {
        None => None,
        Some(i1) => match spec_parse_string(s, i1) {
            None => None,
            Some((bp, i2)) => match spec_expect(s, i2, ",\"list\":["@) {
                None => None,
                Some(i3) => match spec_parse_marks(s, i3) {
                    None => None,
                    Some((list, i4)) => match spec_expect(s, i4, "}"@) {
                        None => None,
                        Some(i5) => Some((BookMarkView { book_path: bp, list }, i5)),
                    },
                },
            },
        },
    }
}

/// Parse of a whole bookmark document: the text must hold exactly one
/// bookmark object and nothing more.
pub open spec fn spec_parse_bookmark_doc(s: Seq<char>) -> Option<BookMarkView> {
    match spec_parse_bookmark(s, 0) {
        Some((b, e)) => if e == s.len() {
            Some(b)
        } else {
            None
        },
        None => None,
    }
}

/// Parse a mark list at `i`.
fn parse_marks_at(s: &Vec<char>, i: usize) -> (r: Option<(Vec<Mark>, usize)>)
    requires
        i <= s@.len(),
    ensures
        match r {
            Some(p) => spec_parse_marks(s@, i as int) == Some((deep_marks(p.0@), p.1 as int))
                && i < p.1 <= s@.len(),
            None => spec_parse_marks(s@, i as int) is None,
        },
    decreases s@.len() - i,
{
    if i >= s.len() {
        return None;
    }
    if s[i] == ']' {
        let v: Vec<Mark> = Vec::new();
        proof {
            assert(deep_marks(v@) =~= Seq::<MarkView>::empty());
        }
        return Some((v, i + 1));
    }
    match parse_mark_at(s, i) {
        None => None,
        Some((m, j)) => {
            if j >= s.len() {
                return None;
            }
            if s[j] == ']' {
                let ghost mv = m@;
                let mut v: Vec<Mark> = Vec::new();
                v.push(m);
                proof {
                    assert(deep_marks(v@) =~= seq![mv]);
                }
                return Some((v, j + 1));
            }
            if s[j] == ',' {
                match parse_marks_at(s, j + 1) {
                    None => None,
                    Some((mut tl, e)) => {
                        let ghost tlv = deep_marks(tl@);
                        let ghost mv = m@;
                        tl.insert(0, m);
                        proof {
                            assert(deep_marks(tl@) =~= seq![mv] + tlv);
                        }
                        Some((tl, e))
                    },
                }
            } else {
                None
            }
        },
    }
}

/// Mark-list rendering restated over a prefix growing by one mark.
proof fn lemma_encode_marks_snoc(p: Seq<MarkView>, x: MarkView)
    ensures
        spec_encode_marks(p.push(x)) == if p.len() == 0 {
            spec_encode_mark(x)
        } else {
            spec_encode_marks(p) + (seq![','] + spec_encode_mark(x))
        },
    decreases p.len(),
{
    if p.len() == 0 {
        assert(p.push(x).len() == 1);
        assert(p.push(x)[0] == x);
    } else {
        let t = p.drop_first();
        lemma_encode_marks_snoc(t, x);
        assert(p.push(x).drop_first() =~= t.push(x));
        assert(p.push(x)[0] == p[0]);
        assert(p.push(x).len() == p.len() + 1);
        if p.len() == 1 {
            assert(t.push(x).len() == 1);
            assert(spec_encode_marks(p.push(x)) == spec_encode_mark(p[0]) + (seq![',']
                + spec_encode_mark(x)));
            assert(spec_encode_marks(p) == spec_encode_mark(p[0]));
        } else {
            assert(spec_encode_marks(p.push(x)) == spec_encode_mark(p[0]) + (seq![',']
                + spec_encode_marks(t.push(x))));
            assert(spec_encode_marks(p) == spec_encode_mark(p[0]) + (seq![',']
                + spec_encode_marks(t)));
            assert(spec_encode_mark(p[0]) + (seq![','] + (spec_encode_marks(t) + (seq![',']
                + spec_encode_mark(x)))) =~= (spec_encode_mark(p[0]) + (seq![',']
                + spec_encode_marks(t))) + (seq![','] + spec_encode_mark(x)));
        }
    }
}

/// Serialize a bookmark to the sidecar text that holds it.
pub fn encode_bookmark(bm: &BookMark) -> (s: String)
    ensures
        s@ == spec_encode_bookmark(bm@),
{
    let mut out: Vec<char> = Vec::new();
    push_lit(&mut out, "{\"book_path\":");
    push_json_string(&mut out, &bm.book_path);
    push_lit(&mut out, ",\"list\":[");
    let ghost pre = out@;
    let mut i: usize = 0;
    while i < bm.list.len()
        invariant
            i <= bm.list@.len(),
            out@ == pre + spec_encode_marks(bm@.list.subrange(0, i as int)),
        decreases bm.list@.len() - i,
    {
        let ghost lpre = bm@.list.subrange(0, i as int);
        if i > 0 {
            push_lit(&mut out, ",");
        }
        encode_mark_into(&mut out, &bm.list[i]);
        proof {
            reveal_strlit(",");
            assert(","@ =~= seq![',']);
            assert(bm@.list[i as int] == bm.list@[i as int]@);
            lemma_encode_marks_snoc(lpre, bm@.list[i as int]);
            assert(bm@.list.subrange(0, i as int + 1) =~= lpre.push(bm@.list[i as int]));
            assert(out@ =~= pre + spec_encode_marks(bm@.list.subrange(0, i as int + 1)));
        }
        i = i + 1;
    }
    proof {
        assert(bm@.list.subrange(0, bm@.list.len() as int) =~= bm@.list);
    }
    push_lit(&mut out, "]}");
    proof {
        assert(out@ =~= spec_encode_bookmark(bm@));
    }
    chars_to_string(&out)
}

/// Read a bookmark back from its sidecar text. A malformed text is a
/// deserialization error.
pub fn parse_bookmark(text: &str) -> (r: Result<BookMark, LibError>)
    ensures
        match r {
            Ok(bm) => spec_parse_bookmark_doc(text@) == Some(bm@),
            Err(e) => spec_parse_bookmark_doc(text@) is None && e == LibError::Deserialization,
        },
{
    let s = string_to_chars(text);
    let i1 = match expect_lit(&s, 0, "{\"book_path\":") {
        Some(j) => j,
        None => {
            return Err(LibError::Deserialization);
        },
    };
    let (book_path, i2) = match parse_string_at(&s, i1) {
        Some(p) => p,
        None => {
            return Err(LibError::Deserialization);
        },
    };
    let i3 = match expect_lit(&s, i2, ",\"list\":[") {
        Some(j) => j,
        None => {
            return Err(LibError::Deserialization);
        },
    };
    let (list, i4) = match parse_marks_at(&s, i3) {
        Some(p) => p,
        None => {
            return Err(LibError::Deserialization);
        },
    };
    let i5 = match expect_lit(&s, i4, "}") {
        Some(j) => j,
        None => {
            return Err(LibError::Deserialization);
        },
    };
    if i5 != s.len() {
        return Err(LibError::Deserialization);
    }
    let bm = BookMark { book_path, list };
    proof {
        assert(bm@.list =~= deep_marks(bm.list@));
    }
    Ok(bm)
}

/// A mark-list rendering standing at `i`, closed by a bracket, parses
/// back to the marks it was written from.
proof fn lemma_parse_encode_marks(s: Seq<char>, i: int, list: Seq<MarkView>)
    requires
        0 <= i,
        i + spec_encode_marks(list).len() + 1 <= s.len(),
        s.subrange(i, i + spec_encode_marks(list).len()) == spec_encode_marks(list),
        s[i + spec_encode_marks(list).len()] == ']',
    ensures
        spec_parse_marks(s, i) == Some((list, i + spec_encode_marks(list).len() + 1)),
    decreases list.len(),
{
    reveal_strlit("{\"page\":");
    let bl = spec_encode_marks(list).len() as int;
    if list.len() == 0 {
        assert(s[i] == ']');
    } else {
        let m0 = spec_encode_mark(list[0]);
        assert(m0.len() > 0 && m0[0] == '{') by {
            assert(m0[0] == "{\"page\":"@[0]);
        }
        if list.len() == 1 {
            assert(spec_encode_marks(list) == m0);
            lemma_parse_encode_mark(s, i, list[0]);
            assert(s[i] == s.subrange(i, i + bl)[0]);
            assert(s[i] == '{');
            assert(s[i + bl] == ']');
            assert(seq![list[0]] =~= list);
        } else {
            let rest = spec_encode_marks(list.drop_first());
            assert(spec_encode_marks(list) == m0 + (seq![','] + rest));
            lemma_split_prefix(s, i, m0, seq![','] + rest);
            let j = i + m0.len() as int;
            lemma_split_prefix(s, j, seq![','], rest);
            lemma_parse_encode_mark(s, i, list[0]);
            assert(s[i] == s.subrange(i, i + m0.len() as int)[0]);
            assert(s[i] == '{');
            assert(s[j] == s.subrange(j, j + 1)[0]);
            assert(s[j] == ',');
            assert(s[i + bl] == ']');
            lemma_parse_encode_marks(s, j + 1, list.drop_first());
            assert(seq![list[0]] + list.drop_first() =~= list);
        }
    }
}

/// Law: a bookmark written to its sidecar text and read back is
/// reproduced exactly: same book path, same marks, same order.
/// The pieces of an encoded bookmark, each standing at its position.
#[verifier::rlimit(100)]
#[verifier::spinoff_prover]
proof fn lemma_bookmark_pieces(b: BookMarkView)
    ensures
        ({
            let s = spec_encode_bookmark(b);
            let t1 = "{\"book_path\":"@;
            let t2 = ",\"list\":["@;
            let js = json_str(b.book_path);
            let em = spec_encode_marks(b.list);
            let p1 = t1.len() as int;
            let p2 = p1 + js.len() as int;
            let p3 = p2 + t2.len() as int;
            let p4 = p3 + em.len() as int;
            &&& s.len() == p4 + 2
            &&& s.subrange(0, p1) == t1
            &&& s.subrange(p1, p2) == js
            &&& s.subrange(p2, p3) == t2
            &&& s.subrange(p3, p4) == em
            &&& s[p4] == ']'
            &&& s[p4 + 1] == '}'
        }),
{
    let s = spec_encode_bookmark(b);
    reveal_strlit("{\"book_path\":");
    reveal_strlit(",\"list\":[");
    reveal_strlit("]}");
    let t1 = "{\"book_path\":"@;
    let t2 = ",\"list\":["@;
    let t3 = "]}"@;
    let js = json_str(b.book_path);
    let em = spec_encode_marks(b.list);
    let r3 = em + t3;
    let r2 = t2 + r3;
    let r1 = js + r2;
    assert(s == t1 + r1);
    assert(s.subrange(0, s.len() as int) =~= s);
    lemma_split_prefix(s, 0, t1, r1);
    let p1 = t1.len() as int;
    lemma_split_prefix(s, p1, js, r2);
    let p2 = p1 + js.len() as int;
    lemma_split_prefix(s, p2, t2, r3);
    let p3 = p2 + t2.len() as int;
    lemma_split_prefix(s, p3, em, t3);
    let p4 = p3 + em.len() as int;
    assert(s[p4] == s.subrange(p4, p4 + 2)[0]);
    assert(s[p4 + 1] == s.subrange(p4, p4 + 2)[1]);
}

/// A text shaped like an encoded bookmark parses back to its parts.
#[verifier::spinoff_prover]
proof fn lemma_parse_bookmark_shape(s: Seq<char>, bp: Seq<char>, list: Seq<MarkView>)
    requires
        ({
            let t1 = "{\"book_path\":"@;
            let t2 = ",\"list\":["@;
            let js = json_str(bp);
            let em = spec_encode_marks(list);
            let p1 = t1.len() as int;
            let p2 = p1 + js.len() as int;
            let p3 = p2 + t2.len() as int;
            let p4 = p3 + em.len() as int;
            &&& s.len() == p4 + 2
            &&& s.subrange(0, p1) == t1
            &&& s.subrange(p1, p2) == js
            &&& s.subrange(p2, p3) == t2
            &&& s.subrange(p3, p4) == em
            &&& s[p4] == ']'
            &&& s[p4 + 1] == '}'
        }),
    ensures
        spec_parse_bookmark_doc(s) == Some(BookMarkView { book_path: bp, list }),
{
    reveal_strlit("}");
    let t1 = "{\"book_path\":"@;
    let t2 = ",\"list\":["@;
    let js = json_str(bp);
    let em = spec_encode_marks(list);
    let p1 = t1.len() as int;
    let p2 = p1 + js.len() as int;
    let p3 = p2 + t2.len() as int;
    let p4 = p3 + em.len() as int;
    lemma_expect_at(s, 0, t1);
    lemma_parse_json_str_at(s, p1, bp);
    lemma_expect_at(s, p2, t2);
    lemma_parse_encode_marks(s, p3, list);
    assert(s.subrange(p4 + 1, p4 + 2) =~= "}"@);
    lemma_expect_at(s, p4 + 1, "}"@);
    assert(spec_parse_bookmark(s, 0) == Some(
        (BookMarkView { book_path: bp, list }, p4 + 2),
    ));
}

/// Law: a bookmark written to its sidecar text and read back is
/// reproduced exactly: same book path, same marks, same order.
#[verifier::spinoff_prover]
pub proof fn lemma_bookmark_round_trip(b: BookMarkView)
    ensures
        spec_parse_bookmark_doc(spec_encode_bookmark(b)) == Some(b),
{
    lemma_bookmark_pieces(b);
    lemma_parse_bookmark_shape(spec_encode_bookmark(b), b.book_path, b.list);
    assert(BookMarkView { book_path: b.book_path, list: b.list } == b);
}


/// The rendering of a line height held in tenths: the whole part, a
/// dot, and one tenths digit.
pub open spec fn tenths_rep(t: nat) -> Seq<char> {
    dec_rep(t / 10) + seq!['.', dec_digit_char(t % 10)]
}

/// Append the rendering of a line height held in tenths.
fn push_tenths(out: &mut Vec<char>, t: u32)
    ensures
        final(out)@ == old(out)@ + tenths_rep(t as nat),
{
    push_dec_u64(out, (t / 10) as u64);
    out.push('.');
    out.push(dec_digit((t % 10) as u64));
    proof {
        assert(out@ =~= old(out)@ + tenths_rep(t as nat));
    }
}

/// Parse of a line height at `i`: a whole part, a dot and exactly one
/// tenths digit, read back into tenths. This is the only form the
/// writer produces; a text with finer precision is rejected as
/// malformed rather than silently rounded.
pub open spec fn spec_parse_tenths(s: Seq<char>, i: int) -> Option<(u32, int)> {
    match spec_parse_u64(s, i) {
        None => None,
        Some((whole, j)) => if j + 2 <= s.len() && s[j] == '.' && is_dec_digit(s[j + 1]) {
            let v = whole * 10 + dec_digit_val(s[j + 1]);
            if v <= u32::MAX {
                Some((v as u32, j + 2))
            } else {
                None
            }
        } else {
            None
        },
    }
}

/// Parse a line height at `i`.
fn parse_tenths_at(s: &Vec<char>, i: usize) -> (r: Option<(u32, usize)>)
    requires
        i <= s@.len(),
    ensures
        match r {
            Some(p) => spec_parse_tenths(s@, i as int) == Some((p.0, p.1 as int)) && i < p.1
                <= s@.len(),
            None => spec_parse_tenths(s@, i as int) is None,
        },
{
    let (whole, j) = match parse_u64_at(s, i) {
        Some(p) => p,
        None => {
            return None;
        },
    };
    if s.len() - j < 2 {
        return None;
    }
    if s[j] != '.' {
        return None;
    }
    let x = s[j + 1] as u32;
    if !(48 <= x && x <= 57) {
        return None;
    }
    let d = (x - 48) as u64;
    if whole > (0xFFFF_FFFFu64 - d) / 10 {
        proof {
            assert(whole as nat * 10 + d as nat > u32::MAX as nat) by (nonlinear_arith)
                requires
                    whole as nat > ((0xFFFF_FFFFu64 - d) as nat) / 10,
                    d as nat <= 9,
            ;
        }
        return None;
    }
    proof {
        assert(whole as nat * 10 + d as nat <= u32::MAX as nat) by (nonlinear_arith)
            requires
                whole as nat <= ((0xFFFF_FFFFu64 - d) as nat) / 10,
                d as nat <= 9,
        ;
    }
    let v = whole * 10 + d;
    Some(((v as u32), j + 2))
}

/// A line-height rendering standing at `i` parses back to its tenths.
proof fn lemma_parse_tenths_rep(s: Seq<char>, i: int, t: u32)
    requires
        0 <= i,
        i + tenths_rep(t as nat).len() <= s.len(),
        s.subrange(i, i + tenths_rep(t as nat).len()) == tenths_rep(t as nat),
    ensures
        spec_parse_tenths(s, i) == Some((t, i + tenths_rep(t as nat).len())),
{
    let w = dec_rep((t as nat) / 10);
    let tail = seq!['.', dec_digit_char((t as nat) % 10)];
    assert(tenths_rep(t as nat) == w + tail);
    lemma_split_prefix(s, i, w, tail);
    let j = i + w.len() as int;
    assert(s[j] == s.subrange(j, j + 2)[0]);
    assert(s[j + 1] == s.subrange(j, j + 2)[1]);
    assert(s[j] == '.');
    assert(s[j + 1] == dec_digit_char((t as nat) % 10));
    assert(!is_dec_digit('.'));
    lemma_parse_dec_rep(s, i, (t / 10) as u64);
    assert(is_dec_digit(dec_digit_char((t as nat) % 10)));
    assert(dec_digit_val(dec_digit_char((t as nat) % 10)) == (t as nat) % 10);
    assert(((t / 10) as u64) * 10 + (t as nat) % 10 == t);
}

/// The compact JSON rendering of the reader style.
pub open spec fn spec_encode_style(st: ReaderStyleView) -> Seq<char> {
    "{\"font_family\":"@ + (json_str(st.font_family) + (",\"font_size\":"@ + (dec_rep(
        st.font_size as nat,
    ) + (",\"line_height\":"@ + (tenths_rep(st.line_height_tenths as nat) + (",\"theme\":"@ + (
    json_str(st.theme) + "}"@)))))))
}

/// Parse of a style object at `i`.
pub open spec fn spec_parse_style(s: Seq<char>, i: int) -> Option<(ReaderStyleView, int)> {
    match spec_expect(s, i, "{\"font_family\":"@) {
        None => None,
        Some(i1) => match spec_parse_string(s, i1) {
            None => None,
            Some((family, i2)) => match spec_expect(s, i2, ",\"font_size\":"@) {
                None => None,
                Some(i3) => match spec_parse_u32(s, i3) {
                    None => None,
                    Some((size, i4)) => match spec_expect(s, i4, ",\"line_height\":"@) {
                        None => None,
                        Some(i5) => match spec_parse_tenths(s, i5) {
                            None => None,
                            Some((tenths, i6)) => match spec_expect(s, i6, ",\"theme\":"@) {
                                None => None,
                                Some(i7) => match spec_parse_string(s, i7) {
                                    None => None,
                                    Some((theme, i8)) => match spec_expect(s, i8, "}"@) {
                                        None => None,
                                        Some(i9) => Some(
                                            (
                                                ReaderStyleView {
                                                    font_family: family,
                                                    font_size: size,
                                                    line_height_tenths: tenths,
                                                    theme,
                                                },
                                                i9,
                                            ),
                                        ),
                                    },
                                },
                            },
                        },
                    },
                },
            },
        },
    }
}

/// Parse of a whole style document.
pub open spec fn spec_parse_style_doc(s: Seq<char>) -> Option<ReaderStyleView> {
    match spec_parse_style(s, 0) {
        Some((st, e)) => if e == s.len() {
            Some(st)
        } else {
            None
        },
        None => None,
    }
}

/// Serialize the reader style to the text of its configuration file.
#[verifier::rlimit(100)]
pub fn encode_style(st: &ReaderStyle) -> (s: String)
    ensures
        s@ == spec_encode_style(st@),
{
    let mut out: Vec<char> = Vec::new();
    push_lit(&mut out, "{\"font_family\":");
    push_json_string(&mut out, &st.font_family);
    push_lit(&mut out, ",\"font_size\":");
    push_dec_u64(&mut out, st.font_size as u64);
    push_lit(&mut out, ",\"line_height\":");
    push_tenths(&mut out, st.line_height_tenths);
    push_lit(&mut out, ",\"theme\":");
    push_json_string(&mut out, &st.theme);
    push_lit(&mut out, "}");
    proof {
        assert(out@ =~= spec_encode_style(st@));
    }
    chars_to_string(&out)
}

/// Read the reader style back from its configuration text. A
/// malformed text is a deserialization error.
pub fn parse_style(text: &str) -> (r: Result<ReaderStyle, LibError>)
    ensures
        match r {
            Ok(st) => spec_parse_style_doc(text@) == Some(st@),
            Err(e) => spec_parse_style_doc(text@) is None && e == LibError::Deserialization,
        },
{
    let s = string_to_chars(text);
    let i1 = match expect_lit(&s, 0, "{\"font_family\":") {
        Some(j) => j,
        None => {
            return Err(LibError::Deserialization);
        },
    };
    let (font_family, i2) = match parse_string_at(&s, i1) {
        Some(p) => p,
        None => {
            return Err(LibError::Deserialization);
        },
    };
    let i3 = match expect_lit(&s, i2, ",\"font_size\":") {
        Some(j) => j,
        None => {
            return Err(LibError::Deserialization);
        },
    };
    let (font_size, i4) = match parse_u32_at(&s, i3) {
        Some(p) => p,
        None => {
            return Err(LibError::Deserialization);
        },
    };
    let i5 = match expect_lit(&s, i4, ",\"line_height\":") {
        Some(j) => j,
        None => {
            return Err(LibError::Deserialization);
        },
    };
    let (line_height_tenths, i6) = match parse_tenths_at(&s, i5) {
        Some(p) => p,
        None => {
            return Err(LibError::Deserialization);
        },
    };
    let i7 = match expect_lit(&s, i6, ",\"theme\":") {
        Some(j) => j,
        None => {
            return Err(LibError::Deserialization);
        },
    };
    let (theme, i8) = match parse_string_at(&s, i7) {
        Some(p) => p,
        None => {
            return Err(LibError::Deserialization);
        },
    };
    let i9 = match expect_lit(&s, i8, "}") {
        Some(j) => j,
        None => {
            return Err(LibError::Deserialization);
        },
    };
    if i9 != s.len() {
        return Err(LibError::Deserialization);
    }
    Ok(ReaderStyle { font_family, font_size, line_height_tenths, theme })
}

/// The pieces of an encoded style, each standing at its position.
#[verifier::rlimit(100)]
#[verifier::spinoff_prover]
proof fn lemma_style_pieces(st: ReaderStyleView)
    ensures
        ({
            let s = spec_encode_style(st);
            let t1 = "{\"font_family\":"@;
            let t2 = ",\"font_size\":"@;
            let t3 = ",\"line_height\":"@;
            let t4 = ",\"theme\":"@;
            let j1 = json_str(st.font_family);
            let d1 = dec_rep(st.font_size as nat);
            let h1 = tenths_rep(st.line_height_tenths as nat);
            let j2 = json_str(st.theme);
            let p1 = t1.len() as int;
            let p2 = p1 + j1.len() as int;
            let p3 = p2 + t2.len() as int;
            let p4 = p3 + d1.len() as int;
            let p5 = p4 + t3.len() as int;
            let p6 = p5 + h1.len() as int;
            let p7 = p6 + t4.len() as int;
            let p8 = p7 + j2.len() as int;
            &&& s.len() == p8 + 1
            &&& s.subrange(0, p1) == t1
            &&& s.subrange(p1, p2) == j1
            &&& s.subrange(p2, p3) == t2
            &&& s.subrange(p3, p4) == d1
            &&& s.subrange(p4, p5) == t3
            &&& s.subrange(p5, p6) == h1
            &&& s.subrange(p6, p7) == t4
            &&& s.subrange(p7, p8) == j2
            &&& s[p8] == '}'
            &&& s[p4] == ','
            &&& s[p6] == ','
        }),
{
    let s = spec_encode_style(st);
    reveal_strlit("{\"font_family\":");
    reveal_strlit(",\"font_size\":");
    reveal_strlit(",\"line_height\":");
    reveal_strlit(",\"theme\":");
    reveal_strlit("}");
    let t1 = "{\"font_family\":"@;
    let t2 = ",\"font_size\":"@;
    let t3 = ",\"line_height\":"@;
    let t4 = ",\"theme\":"@;
    let t5 = "}"@;
    let j1 = json_str(st.font_family);
    let d1 = dec_rep(st.font_size as nat);
    let h1 = tenths_rep(st.line_height_tenths as nat);
    let j2 = json_str(st.theme);
    let r7 = j2 + t5;
    let r6 = t4 + r7;
    let r5 = h1 + r6;
    let r4 = t3 + r5;
    let r3 = d1 + r4;
    let r2 = t2 + r3;
    let r1 = j1 + r2;
    assert(s == t1 + r1);
    assert(s.subrange(0, s.len() as int) =~= s);
    lemma_split_prefix(s, 0, t1, r1);
    let p1 = t1.len() as int;
    lemma_split_prefix(s, p1, j1, r2);
    let p2 = p1 + j1.len() as int;
    lemma_split_prefix(s, p2, t2, r3);
    let p3 = p2 + t2.len() as int;
    lemma_split_prefix(s, p3, d1, r4);
    let p4 = p3 + d1.len() as int;
    lemma_split_prefix(s, p4, t3, r5);
    let p5 = p4 + t3.len() as int;
    lemma_split_prefix(s, p5, h1, r6);
    let p6 = p5 + h1.len() as int;
    lemma_split_prefix(s, p6, t4, r7);
    let p7 = p6 + t4.len() as int;
    lemma_split_prefix(s, p7, j2, t5);
    let p8 = p7 + j2.len() as int;
    assert(s[p8] == s.subrange(p8, p8 + 1)[0]);
    assert(s[p4] == s.subrange(p4, p5)[0]);
    assert(s[p6] == s.subrange(p6, p7)[0]);
}

/// A text shaped like an encoded style parses back to its parts.
#[verifier::rlimit(100)]
#[verifier::spinoff_prover]
proof fn lemma_parse_style_shape(s: Seq<char>, st: ReaderStyleView)
    requires
        ({
            let t1 = "{\"font_family\":"@;
            let t2 = ",\"font_size\":"@;
            let t3 = ",\"line_height\":"@;
            let t4 = ",\"theme\":"@;
            let j1 = json_str(st.font_family);
            let d1 = dec_rep(st.font_size as nat);
            let h1 = tenths_rep(st.line_height_tenths as nat);
            let j2 = json_str(st.theme);
            let p1 = t1.len() as int;
            let p2 = p1 + j1.len() as int;
            let p3 = p2 + t2.len() as int;
            let p4 = p3 + d1.len() as int;
            let p5 = p4 + t3.len() as int;
            let p6 = p5 + h1.len() as int;
            let p7 = p6 + t4.len() as int;
            let p8 = p7 + j2.len() as int;
            &&& s.len() == p8 + 1
            &&& s.subrange(0, p1) == t1
            &&& s.subrange(p1, p2) == j1
            &&& s.subrange(p2, p3) == t2
            &&& s.subrange(p3, p4) == d1
            &&& s.subrange(p4, p5) == t3
            &&& s.subrange(p5, p6) == h1
            &&& s.subrange(p6, p7) == t4
            &&& s.subrange(p7, p8) == j2
            &&& s[p8] == '}'
            &&& s[p4] == ','
            &&& s[p6] == ','
        }),
    ensures
        spec_parse_style_doc(s) == Some(st),
{
    reveal_strlit("}");
    let t1 = "{\"font_family\":"@;
    let t2 = ",\"font_size\":"@;
    let t3 = ",\"line_height\":"@;
    let t4 = ",\"theme\":"@;
    let j1 = json_str(st.font_family);
    let d1 = dec_rep(st.font_size as nat);
    let h1 = tenths_rep(st.line_height_tenths as nat);
    let j2 = json_str(st.theme);
    let p1 = t1.len() as int;
    let p2 = p1 + j1.len() as int;
    let p3 = p2 + t2.len() as int;
    let p4 = p3 + d1.len() as int;
    let p5 = p4 + t3.len() as int;
    let p6 = p5 + h1.len() as int;
    let p7 = p6 + t4.len() as int;
    let p8 = p7 + j2.len() as int;
    lemma_expect_at(s, 0, t1);
    lemma_parse_json_str_at(s, p1, st.font_family);
    lemma_expect_at(s, p2, t2);
    assert(!is_dec_digit(','));
    lemma_parse_dec_rep(s, p3, st.font_size as u64);
    lemma_expect_at(s, p4, t3);
    lemma_parse_tenths_rep(s, p5, st.line_height_tenths);
    lemma_expect_at(s, p6, t4);
    lemma_parse_json_str_at(s, p7, st.theme);
    assert(s.subrange(p8, p8 + 1) =~= "}"@);
    lemma_expect_at(s, p8, "}"@);
    assert(spec_parse_style(s, 0) == Some(
        (
            ReaderStyleView {
                font_family: st.font_family,
                font_size: st.font_size,
                line_height_tenths: st.line_height_tenths,
                theme: st.theme,
            },
            p8 + 1,
        ),
    ));
    assert(ReaderStyleView {
        font_family: st.font_family,
        font_size: st.font_size,
        line_height_tenths: st.line_height_tenths,
        theme: st.theme,
    } == st);
}

/// Law: the reader style written to its configuration text and read
/// back is reproduced exactly.
#[verifier::spinoff_prover]
pub proof fn lemma_style_round_trip(st: ReaderStyleView)
    ensures
        spec_parse_style_doc(spec_encode_style(st)) == Some(st),
{
    lemma_style_pieces(st);
    lemma_parse_style_shape(spec_encode_style(st), st);
}

/// Load a bookmark from what stands in the sidecar file: no file
/// means a fresh, empty bookmark for the book; a file must parse.
pub fn load_bookmark_from_local_storage(book_path: String, content: Option<&str>) -> (r: Result<
    BookMark,
    LibError,
>)
    ensures
        match content {
            None => match r {
                Ok(bm) => bm@.book_path == book_path@ && bm@.list == Seq::<MarkView>::empty(),
                Err(_) => false,
            },
            Some(text) => match r {
                Ok(bm) => spec_parse_bookmark_doc(text@) == Some(bm@),
                Err(e) => spec_parse_bookmark_doc(text@) is None && e
                    == LibError::Deserialization,
            },
        },
{
    match content {
        None => Ok(BookMark::new(book_path)),
        Some(text) => parse_bookmark(text),
    }
}

/// Load the reader style from what stands in the configuration file:
/// no file means the built-in default; a file must parse.
pub fn load_style_from_local_storage(content: Option<&str>) -> (r: Result<ReaderStyle, LibError>)
    ensures
        match content {
            None => match r {
                Ok(st) => st@ == default_style(),
                Err(_) => false,
            },
            Some(text) => match r {
                Ok(st) => spec_parse_style_doc(text@) == Some(st@),
                Err(e) => spec_parse_style_doc(text@) is None && e == LibError::Deserialization,
            },
        },
{
    match content {
        None => Ok(ReaderStyle::default()),
        Some(text) => parse_style(text),
    }
}

/// The last-opened stamp the sidecar stands for: no file means no
/// stamp; a file must hold exactly one decimal number, and anything
/// else is a deserialization error, never silently dropped.
pub open spec fn spec_last_opened(content: Option<Seq<char>>) -> Result<Option<u64>, LibError> {
    match content {
        None => Ok(None),
        Some(s) => match spec_parse_u64(s, 0) {
            Some((v, e)) => if e == s.len() {
                Ok(Some(v))
            } else {
                Err(LibError::Deserialization)
            },
            None => Err(LibError::Deserialization),
        },
    }
}

/// The text written into the last-opened sidecar: the timestamp in
/// decimal.
pub fn encode_last_opened(ts: u64) -> (s: String)
    ensures
        s@ == dec_rep(ts as nat),
{
    let mut out: Vec<char> = Vec::new();
    push_dec_u64(&mut out, ts);
    proof {
        assert(out@ =~= dec_rep(ts as nat));
    }
    chars_to_string(&out)
}

/// Read a last-opened stamp back from what stands in the sidecar
/// file: no file means no stamp; a file holding anything but a plain
/// decimal number is a deserialization error.
pub fn parse_last_opened(content: Option<&str>) -> (r: Result<Option<u64>, LibError>)
    ensures
        r == spec_last_opened(content.deep_view()),
{
    let text = match content {
        Some(t) => t,
        None => {
            return Ok(None);
        },
    };
    let s = string_to_chars(text);
    match parse_u64_at(&s, 0) {
        Some((v, e)) => {
            if e == s.len() {
                Ok(Some(v))
            } else {
                Err(LibError::Deserialization)
            }
        },
        None => Err(LibError::Deserialization),
    }
}

/// Law: a last-opened stamp written and read back is the same
/// timestamp.
pub proof fn lemma_last_opened_round_trip(ts: u64)
    ensures
        spec_last_opened(Some(dec_rep(ts as nat))) == Ok::<Option<u64>, LibError>(Some(ts)),
{
    let s = dec_rep(ts as nat);
    assert(s.subrange(0, s.len() as int) =~= s);
    lemma_parse_dec_rep(s, 0, ts);
}

} // verus!

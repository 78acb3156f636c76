//! The server's reply to a login request, and its wire format.
//!
//! A reply is one JSON object with a single key: either `{"token": "..."}`,
//! carrying a freshly minted access token, or `{"errors": [{"detail": "..."},
//! ...]}`, carrying a list of human-readable error messages. The grammar
//! accepted here is that subset of JSON: arbitrary whitespace between tokens;
//! strings with the single-character escapes `\" \\ \/ \b \f \n \r \t` and
//! `\uXXXX` escapes (surrogate pairs combined, lone surrogates rejected);
//! error entries that may carry members besides `detail`, whose values —
//! any well-formed JSON value, up to a fixed nesting limit — are skipped;
//! and nothing after the closing brace but whitespace. The parser works on
//! raw bytes; non-ASCII bytes pass through strings unchanged.

use vstd::prelude::*;

verus! {

use crate::flow::LoginError;

pub const QUOTE: u8 = 34;

pub const BACKSLASH: u8 = 92;

pub const SLASH: u8 = 47;

pub const LBRACE: u8 = 123;

pub const RBRACE: u8 = 125;

pub const LBRACKET: u8 = 91;

pub const RBRACKET: u8 = 93;

pub const COLON: u8 = 58;

pub const COMMA: u8 = 44;

pub const SPACE: u8 = 32;

/// One error entry of an `errors` reply: its human-readable message.
#[derive(Debug, Clone, PartialEq, Eq)]
pub struct KtraError {
    pub detail: Vec<u8>,
}

/// A parsed login reply: either the minted token or the server's errors.
#[derive(Debug, Clone, PartialEq, Eq)]
pub enum KtraResponse {
    Errors(Vec<KtraError>),
    Token(Vec<u8>),
}

/// The mathematical shape of a reply: the token's bytes, or the sequence
/// of error detail messages.
pub enum ResponseModel {
    Errors(Seq<Seq<u8>>),
    Token(Seq<u8>),
}

impl View for KtraError {
    type V = Seq<u8>;

    open spec fn view(&self) -> Seq<u8> {
        self.detail@
    }
}

impl View for KtraResponse {
    type V = ResponseModel;

    open spec fn view(&self) -> ResponseModel {
        match self {
            KtraResponse::Errors(es) => ResponseModel::Errors(
                es@.map(|i: int, e: KtraError| e@),
            ),
            KtraResponse::Token(t) => ResponseModel::Token(t@),
        }
    }
}

/// JSON insignificant whitespace: space, tab, line feed, carriage return.
pub open spec fn is_ws(b: u8) -> bool {
    b == 32 || b == 9 || b == 10 || b == 13
}

/// The first position at or after `i` holding no whitespace byte.
pub open spec fn spec_skip_ws(s: Seq<u8>, i: int) -> int
    decreases s.len() - i,
{
    if 0 <= i < s.len() && is_ws(s[i]) {
        spec_skip_ws(s, i + 1)
    } else {
        i
    }
}

fn skip_ws(s: &[u8], i: usize) -> (r: usize)
    requires
        i <= s@.len(),
    ensures
        r == spec_skip_ws(s@, i as int),
        i <= r <= s@.len(),
{
    let mut k: usize = i;
    while k < s.len() && (s[k] == 32 || s[k] == 9 || s[k] == 10 || s[k] == 13)
        invariant
            i <= k <= s@.len(),
            spec_skip_ws(s@, i as int) == spec_skip_ws(s@, k as int),
        decreases s@.len() - k,
    {
        k += 1;
    }
    k
}

/// The byte a single-character JSON escape stands for, if the byte after
/// the backslash begins a recognized escape.
pub open spec fn spec_escape(b: u8) -> Option<u8> {
    if b == QUOTE {
        Some(QUOTE)
    } else if b == BACKSLASH {
        Some(BACKSLASH)
    } else if b == SLASH {
        Some(SLASH)
    } else if b == 98 {
        Some(8)
    } else if b == 102 {
        Some(12)
    } else if b == 110 {
        Some(10)
    } else if b == 114 {
        Some(13)
    } else if b == 116 {
        Some(9)
    } else {
        None
    }
}

fn escape_byte(b: u8) -> (r: Option<u8>)
    ensures
        r == spec_escape(b),
{
    if b == QUOTE {
        Some(QUOTE)
    } else if b == BACKSLASH {
        Some(BACKSLASH)
    } else if b == SLASH {
        Some(SLASH)
    } else if b == 98 {
        Some(8)
    } else if b == 102 {
        Some(12)
    } else if b == 110 {
        Some(10)
    } else if b == 114 {
        Some(13)
    } else if b == 116 {
        Some(9)
    } else {
        None
    }
}

/// The value of one hex digit, in either case.
pub open spec fn spec_hex_val(b: u8) -> Option<u8> {
    if 48 <= b && b <= 57 {
        Some((b - 48) as u8)
    } else if 97 <= b && b <= 102 {
        Some((b - 87) as u8)
    } else if 65 <= b && b <= 70 {
        Some((b - 55) as u8)
    } else {
        None
    }
}

fn hex_val(b: u8) -> (r: Option<u8>)
    ensures
        r == spec_hex_val(b),
{
    if 48 <= b && b <= 57 {
        Some(b - 48)
    } else if 97 <= b && b <= 102 {
        Some(b - 87)
    } else if 65 <= b && b <= 70 {
        Some(b - 55)
    } else {
        None
    }
}

/// The value of the four hex digits standing at `i`.
pub open spec fn spec_hex16(s: Seq<u8>, i: int) -> Option<int> {
    if 0 <= i && i + 4 <= s.len() {
        if spec_hex_val(s[i]) is Some && spec_hex_val(s[i + 1]) is Some && spec_hex_val(
            s[i + 2],
        ) is Some && spec_hex_val(s[i + 3]) is Some {
            Some(
                spec_hex_val(s[i]).unwrap() * 4096 + spec_hex_val(s[i + 1]).unwrap() * 256
                    + spec_hex_val(s[i + 2]).unwrap() * 16 + spec_hex_val(s[i + 3]).unwrap(),
            )
        } else {
            None
        }
    } else {
        None
    }
}

fn hex16(s: &[u8], i: usize) -> (r: Option<u32>)
    requires
        i <= s@.len(),
    ensures
        r matches Some(h) ==> spec_hex16(s@, i as int) == Some(h as int) && h < 0x10000 && i + 4
            <= s@.len(),
        r is None ==> spec_hex16(s@, i as int) is None,
{
    if s.len() - i < 4 {
        return None;
    }
    let h0 = match hex_val(s[i]) {
        Some(v) => v,
        None => {
            return None;
        },
    };
    let h1 = match hex_val(s[i + 1]) {
        Some(v) => v,
        None => {
            return None;
        },
    };
    let h2 = match hex_val(s[i + 2]) {
        Some(v) => v,
        None => {
            return None;
        },
    };
    let h3 = match hex_val(s[i + 3]) {
        Some(v) => v,
        None => {
            return None;
        },
    };
    Some((h0 as u32) * 4096 + (h1 as u32) * 256 + (h2 as u32) * 16 + (h3 as u32))
}

/// The UTF-8 bytes of a code point below 0x110000.
pub open spec fn spec_utf8(cp: int) -> Seq<u8> {
    if cp < 0x80 {
        seq![cp as u8]
    } else if cp < 0x800 {
        seq![(192 + cp / 64) as u8, (128 + cp % 64) as u8]
    } else if cp < 0x10000 {
        seq![(224 + cp / 4096) as u8, (128 + (cp / 64) % 64) as u8, (128 + cp % 64) as u8]
    } else {
        seq![
            (240 + cp / 262144) as u8,
            (128 + (cp / 4096) % 64) as u8,
            (128 + (cp / 64) % 64) as u8,
            (128 + cp % 64) as u8,
        ]
    }
}

fn utf8_push(acc: &mut Vec<u8>, cp: u32)
    requires
        cp < 0x110000,
    ensures
        final(acc)@ == old(acc)@ + spec_utf8(cp as int),
{
    if cp < 0x80 {
        acc.push(cp as u8);
    } else if cp < 0x800 {
        acc.push((192 + cp / 64) as u8);
        acc.push((128 + cp % 64) as u8);
    } else if cp < 0x10000 {
        acc.push((224 + cp / 4096) as u8);
        acc.push((128 + (cp / 64) % 64) as u8);
        acc.push((128 + cp % 64) as u8);
    } else {
        acc.push((240 + cp / 262144) as u8);
        acc.push((128 + (cp / 4096) % 64) as u8);
        acc.push((128 + (cp / 64) % 64) as u8);
        acc.push((128 + cp % 64) as u8);
    }
    proof {
        assert(acc@ =~= old(acc)@ + spec_utf8(cp as int));
    }
}

/// One `\uXXXX` escape whose first hex digit stands at `i` (just after the
/// `\u`): the UTF-8 bytes it denotes and the position after its last hex
/// digit. A high surrogate must be followed by a `\uXXXX` low surrogate,
/// the pair standing for one code point; a lone surrogate is rejected.
pub open spec fn spec_unicode_escape(s: Seq<u8>, i: int) -> Option<(Seq<u8>, int)> {
    match spec_hex16(s, i) {
        Some(h) => if 0xD800 <= h && h <= 0xDBFF {
            if i + 6 <= s.len() && s[i + 4] == BACKSLASH && s[i + 5] == 117 {
                match spec_hex16(s, i + 6) {
                    Some(l) => if 0xDC00 <= l && l <= 0xDFFF {
                        Some((spec_utf8(0x10000 + (h - 0xD800) * 0x400 + (l - 0xDC00)), i + 10))
                    } else {
                        None
                    },
                    None => None,
                }
            } else {
                None
            }
        } else if 0xDC00 <= h && h <= 0xDFFF {
            None
        } else {
            Some((spec_utf8(h), i + 4))
        },
        None => None,
    }
}

fn unicode_escape(s: &[u8], i: usize, acc: &mut Vec<u8>) -> (r: Option<usize>)
    requires
        i <= s@.len(),
    ensures
        r matches Some(j) ==> (spec_unicode_escape(s@, i as int) matches Some(u) && final(acc)@
            == old(acc)@ + u.0 && j as int == u.1 && i < j <= s@.len()),
        r is None ==> spec_unicode_escape(s@, i as int) is None && final(acc)@ == old(acc)@,
{
    let h = match hex16(s, i) {
        Some(h) => h,
        None => {
            return None;
        },
    };
    if 0xD800 <= h && h <= 0xDBFF {
        if s.len() - i >= 6 && s[i + 4] == BACKSLASH && s[i + 5] == 117 {
            let l = match hex16(s, i + 6) {
                Some(l) => l,
                None => {
                    return None;
                },
            };
            if 0xDC00 <= l && l <= 0xDFFF {
                let cp = 0x10000 + (h - 0xD800) * 0x400 + (l - 0xDC00);
                utf8_push(acc, cp);
                Some(i + 10)
            } else {
                None
            }
        } else {
            None
        }
    } else if 0xDC00 <= h && h <= 0xDFFF {
        None
    } else {
        let n = s.len();
        proof {
            assert(i + 4 <= n);
        }
        utf8_push(acc, h);
        Some(i + 4)
    }
}

/// The content and end position of a JSON string whose opening quote stands
/// just before `i`: the unescaped bytes up to the closing quote, and the
/// position after that quote. `None` where no well-formed string starts here.
pub open spec fn spec_string_chars(s: Seq<u8>, i: int) -> Option<(Seq<u8>, int)>
    decreases s.len() - i,
{
    if i < 0 || i >= s.len() {
        None
    } else if s[i] == QUOTE {
        Some((seq![], i + 1))
    } else if s[i] == BACKSLASH {
        if i + 1 < s.len() {
            if s[i + 1] == 117 {
                match spec_unicode_escape(s, i + 2) {
                    Some(u) => if u.1 <= i + 2 || u.1 > s.len() {
                        None
                    } else {
                        match spec_string_chars(s, u.1) {
                            Some(p) => Some((u.0 + p.0, p.1)),
                            None => None,
                        }
                    },
                    None => None,
                }
            } else {
                match spec_escape(s[i + 1]) {
                    Some(c) => match spec_string_chars(s, i + 2) {
                        Some(p) => Some((seq![c] + p.0, p.1)),
                        None => None,
                    },
                    None => None,
                }
            }
        } else {
            None
        }
    } else if s[i] < 32 {
        None
    } else {
        match spec_string_chars(s, i + 1) {
            Some(p) => Some((seq![s[i]] + p.0, p.1)),
            None => None,
        }
    }
}

/// What the whole string is once `prefix` has been read and position `i`
/// is next: the already-unescaped prefix followed by the rest.
spec fn spec_string_suffix(prefix: Seq<u8>, s: Seq<u8>, i: int) -> Option<(Seq<u8>, int)> {
    match spec_string_chars(s, i) {
        Some(p) => Some((prefix + p.0, p.1)),
        None => None,
    }
}

fn string_chars(s: &[u8], i: usize) -> (r: Option<(Vec<u8>, usize)>)
    requires
        i <= s@.len(),
    ensures
        r matches Some(p) ==> spec_string_chars(s@, i as int) == Some((p.0@, p.1 as int)) && i
            < p.1 <= s@.len(),
        r is None ==> spec_string_chars(s@, i as int) is None,
{
    let mut acc: Vec<u8> = Vec::new();
    let mut k: usize = i;
    proof {
        match spec_string_chars(s@, i as int) {
            Some(p) => {
                assert(Seq::<u8>::empty() + p.0 =~= p.0);
            },
            None => {},
        }
        assert(acc@ =~= Seq::<u8>::empty());
    }
    loop
        invariant
            i <= k <= s@.len(),
            spec_string_chars(s@, i as int) == spec_string_suffix(acc@, s@, k as int),
        decreases s@.len() - k,
    {
        if k >= s.len() {
            return None;
        }
        let b = s[k];
        if b == QUOTE {
            proof {
                assert(acc@ + Seq::<u8>::empty() =~= acc@);
            }
            return Some((acc, k + 1));
        } else if b == BACKSLASH {
            if s.len() - k < 2 {
                return None;
            }
            let e = s[k + 1];
            if e == 117 {
                let ghost acc0 = acc@;
                match unicode_escape(s, k + 2, &mut acc) {
                    Some(j) => {
                        proof {
                            let u = spec_unicode_escape(s@, k + 2 as int).unwrap();
                            match spec_string_chars(s@, j as int) {
                                Some(p) => {
                                    assert(acc0 + (u.0 + p.0) =~= (acc0 + u.0) + p.0);
                                },
                                None => {},
                            }
                        }
                        k = j;
                    },
                    None => {
                        return None;
                    },
                }
            } else {
                match escape_byte(e) {
                    Some(c) => {
                        let ghost acc0 = acc@;
                        acc.push(c);
                        proof {
                            match spec_string_chars(s@, k + 2 as int) {
                                Some(p) => {
                                    assert(acc0 + (seq![c] + p.0) =~= acc0.push(c) + p.0);
                                },
                                None => {},
                            }
                        }
                        k = k + 2;
                    },
                    None => {
                        return None;
                    },
                }
            }
        } else if b < 32 {
            return None;
        } else {
            let ghost acc0 = acc@;
            acc.push(b);
            proof {
                match spec_string_chars(s@, k + 1 as int) {
                    Some(p) => {
                        assert(acc0 + (seq![b] + p.0) =~= acc0.push(b) + p.0);
                    },
                    None => {},
                }
            }
            k = k + 1;
        }
    }
}

/// A whole JSON string starting at `i`: `i` must hold the opening quote.
pub open spec fn spec_string(s: Seq<u8>, i: int) -> Option<(Seq<u8>, int)> {
    if 0 <= i < s.len() && s[i] == QUOTE {
        spec_string_chars(s, i + 1)
    } else {
        None
    }
}

fn parse_string(s: &[u8], i: usize) -> (r: Option<(Vec<u8>, usize)>)
    requires
        i <= s@.len(),
    ensures
        r matches Some(p) ==> spec_string(s@, i as int) == Some((p.0@, p.1 as int)) && i < p.1
            <= s@.len(),
        r is None ==> spec_string(s@, i as int) is None,
{
    if i < s.len() && s[i] == QUOTE {
        string_chars(s, i + 1)
    } else {
        None
    }
}

/// The bytes of the key `token`.
pub open spec fn token_key() -> Seq<u8> {
    seq![116u8, 111u8, 107u8, 101u8, 110u8]
}

/// The bytes of the key `errors`.
pub open spec fn errors_key() -> Seq<u8> {
    seq![101u8, 114u8, 114u8, 111u8, 114u8, 115u8]
}

/// The bytes of the key `detail`.
pub open spec fn detail_key() -> Seq<u8> {
    seq![100u8, 101u8, 116u8, 97u8, 105u8, 108u8]
}

fn is_token_key(v: &Vec<u8>) -> (r: bool)
    ensures
        r == (v@ == token_key()),
{
    let r = v.len() == 5 && v[0] == 116 && v[1] == 111 && v[2] == 107 && v[3] == 101 && v[4]
        == 110;
    proof {
        if r {
            assert(v@ =~= token_key());
        }
        if v@ == token_key() {
            assert(v@.len() == 5);
            assert(v@[0] == 116 && v@[1] == 111 && v@[2] == 107 && v@[3] == 101 && v@[4] == 110);
        }
    }
    r
}

fn is_errors_key(v: &Vec<u8>) -> (r: bool)
    ensures
        r == (v@ == errors_key()),
{
    let r = v.len() == 6 && v[0] == 101 && v[1] == 114 && v[2] == 114 && v[3] == 111 && v[4]
        == 114 && v[5] == 115;
    proof {
        if r {
            assert(v@ =~= errors_key());
        }
        if v@ == errors_key() {
            assert(v@.len() == 6);
            assert(v@[0] == 101 && v@[1] == 114 && v@[2] == 114 && v@[3] == 111 && v@[4] == 114
                && v@[5] == 115);
        }
    }
    r
}

fn is_detail_key(v: &Vec<u8>) -> (r: bool)
    ensures
        r == (v@ == detail_key()),
{
    let r = v.len() == 6 && v[0] == 100 && v[1] == 101 && v[2] == 116 && v[3] == 97 && v[4]
        == 105 && v[5] == 108;
    proof {
        if r {
            assert(v@ =~= detail_key());
        }
        if v@ == detail_key() {
            assert(v@.len() == 6);
            assert(v@[0] == 100 && v@[1] == 101 && v@[2] == 116 && v@[3] == 97 && v@[4] == 105
                && v@[5] == 108);
        }
    }
    r
}

/// How deep objects and arrays may nest inside a skipped member value
/// before the body is rejected, so that unbounded nesting cannot exhaust
/// the stack.
pub const NESTING_LIMIT: u32 = 128;

/// A decimal digit.
pub open spec fn is_digit(b: u8) -> bool {
    48 <= b && b <= 57
}

/// The first position at or after `i` holding no decimal digit.
pub open spec fn spec_skip_digits(s: Seq<u8>, i: int) -> int
    decreases s.len() - i,
{
    if 0 <= i < s.len() && is_digit(s[i]) {
        spec_skip_digits(s, i + 1)
    } else {
        i
    }
}

fn skip_digits(s: &[u8], i: usize) -> (r: usize)
    requires
        i <= s@.len(),
    ensures
        r == spec_skip_digits(s@, i as int),
        i <= r <= s@.len(),
{
    let mut k: usize = i;
    while k < s.len() && 48 <= s[k] && s[k] <= 57
        invariant
            i <= k <= s@.len(),
            spec_skip_digits(s@, i as int) == spec_skip_digits(s@, k as int),
        decreases s@.len() - k,
    {
        k += 1;
    }
    k
}

/// The end of a JSON number's optional fraction part standing at `i`.
pub open spec fn spec_skip_frac(s: Seq<u8>, i: int) -> Option<int> {
    if 0 <= i < s.len() && s[i] == 46 {
        if i + 1 < s.len() && is_digit(s[i + 1]) {
            Some(spec_skip_digits(s, i + 1))
        } else {
            None
        }
    } else {
        Some(i)
    }
}

/// The end of a JSON number's optional exponent part standing at `i`.
pub open spec fn spec_skip_exp(s: Seq<u8>, i: int) -> Option<int> {
    if 0 <= i < s.len() && (s[i] == 101 || s[i] == 69) {
        let j = if i + 1 < s.len() && (s[i + 1] == 43 || s[i + 1] == 45) {
            i + 2
        } else {
            i + 1
        };
        if j < s.len() && is_digit(s[j]) {
            Some(spec_skip_digits(s, j))
        } else {
            None
        }
    } else {
        Some(i)
    }
}

/// The end of the JSON number starting at `i`, if one stands there.
pub open spec fn spec_skip_number(s: Seq<u8>, i: int) -> Option<int> {
    let j = if 0 <= i < s.len() && s[i] == 45 {
        i + 1
    } else {
        i
    };
    if 0 <= j < s.len() && is_digit(s[j]) {
        let k = if s[j] == 48 {
            j + 1
        } else {
            spec_skip_digits(s, j)
        };
        match spec_skip_frac(s, k) {
            Some(m) => spec_skip_exp(s, m),
            None => None,
        }
    } else {
        None
    }
}

fn skip_number(s: &[u8], i: usize) -> (r: Option<usize>)
    requires
        i <= s@.len(),
    ensures
        r matches Some(j) ==> spec_skip_number(s@, i as int) == Some(j as int) && i < j
            <= s@.len(),
        r is None ==> spec_skip_number(s@, i as int) is None,
{
    let j = if i < s.len() && s[i] == 45 {
        i + 1
    } else {
        i
    };
    if !(j < s.len() && 48 <= s[j] && s[j] <= 57) {
        return None;
    }
    let k = if s[j] == 48 {
        j + 1
    } else {
        skip_digits(s, j + 1)
    };
    let m = if k < s.len() && s[k] == 46 {
        if k + 1 < s.len() && 48 <= s[k + 1] && s[k + 1] <= 57 {
            skip_digits(s, k + 1)
        } else {
            return None;
        }
    } else {
        k
    };
    if m < s.len() && (s[m] == 101 || s[m] == 69) {
        let e = if m + 1 < s.len() && (s[m + 1] == 43 || s[m + 1] == 45) {
            m + 2
        } else {
            m + 1
        };
        if e < s.len() && 48 <= s[e] && s[e] <= 57 {
            Some(skip_digits(s, e))
        } else {
            None
        }
    } else {
        Some(m)
    }
}

/// The end of the JSON value starting at `i`, if a well-formed one stands
/// there with objects and arrays nested at most `depth` deep. The value is
/// validated and discarded: this is how members other than `detail` are
/// passed over.
pub open spec fn spec_skip_value(s: Seq<u8>, i: int, depth: nat) -> Option<int>
    decreases depth, s.len() - i, 0int,
{
    if i < 0 || i >= s.len() {
        None
    } else if s[i] == QUOTE {
        match spec_string(s, i) {
            Some(p) => Some(p.1),
            None => None,
        }
    } else if s[i] == LBRACE {
        if depth == 0 {
            None
        } else {
            let j = spec_skip_ws(s, i + 1);
            if j <= i || j > s.len() {
                None
            } else {
                spec_skip_members(s, j, (depth - 1) as nat)
            }
        }
    } else if s[i] == LBRACKET {
        if depth == 0 {
            None
        } else {
            let j = spec_skip_ws(s, i + 1);
            if j <= i || j > s.len() {
                None
            } else {
                spec_skip_elements(s, j, (depth - 1) as nat)
            }
        }
    } else if s[i] == 116 {
        if i + 4 <= s.len() && s[i + 1] == 114 && s[i + 2] == 117 && s[i + 3] == 101 {
            Some(i + 4)
        } else {
            None
        }
    } else if s[i] == 102 {
        if i + 5 <= s.len() && s[i + 1] == 97 && s[i + 2] == 108 && s[i + 3] == 115 && s[i + 4]
            == 101 {
            Some(i + 5)
        } else {
            None
        }
    } else if s[i] == 110 {
        if i + 4 <= s.len() && s[i + 1] == 117 && s[i + 2] == 108 && s[i + 3] == 108 {
            Some(i + 4)
        } else {
            None
        }
    } else if s[i] == 45 || is_digit(s[i]) {
        spec_skip_number(s, i)
    } else {
        None
    }
}

/// The rest of a skipped object from just after its `{` and any
/// whitespace: its closing brace, or its members.
pub open spec fn spec_skip_members(s: Seq<u8>, i: int, depth: nat) -> Option<int>
    decreases depth, s.len() - i, 2int,
{
    if 0 <= i < s.len() && s[i] == RBRACE {
        Some(i + 1)
    } else {
        spec_skip_member_list(s, i, depth)
    }
}

/// One or more `"key": value` members of a skipped object, from the start
/// of a key up to and past the closing brace.
pub open spec fn spec_skip_member_list(s: Seq<u8>, i: int, depth: nat) -> Option<int>
    decreases depth, s.len() - i, 1int,
{
    match spec_string(s, i) {
        Some(key) => if key.1 <= i || key.1 > s.len() {
            None
        } else {
            let l = spec_skip_ws(s, key.1);
            if l < key.1 || l > s.len() {
                None
            } else if l < s.len() && s[l] == COLON {
                let m = spec_skip_ws(s, l + 1);
                if m < l + 1 || m > s.len() {
                    None
                } else {
                    match spec_skip_value(s, m, depth) {
                        Some(j) => if j <= m || j > s.len() {
                            None
                        } else {
                            let k = spec_skip_ws(s, j);
                            if k < j || k > s.len() {
                                None
                            } else if k < s.len() && s[k] == COMMA {
                                let n = spec_skip_ws(s, k + 1);
                                if n < k + 1 || n > s.len() {
                                    None
                                } else {
                                    spec_skip_member_list(s, n, depth)
                                }
                            } else if k < s.len() && s[k] == RBRACE {
                                Some(k + 1)
                            } else {
                                None
                            }
                        },
                        None => None,
                    }
                }
            } else {
                None
            }
        },
        None => None,
    }
}

/// The rest of a skipped array from just after its `[` and any whitespace:
/// its closing bracket, or its elements.
pub open spec fn spec_skip_elements(s: Seq<u8>, i: int, depth: nat) -> Option<int>
    decreases depth, s.len() - i, 2int,
{
    if 0 <= i < s.len() && s[i] == RBRACKET {
        Some(i + 1)
    } else {
        spec_skip_element_list(s, i, depth)
    }
}

/// One or more elements of a skipped array, from the start of a value up
/// to and past the closing bracket.
pub open spec fn spec_skip_element_list(s: Seq<u8>, i: int, depth: nat) -> Option<int>
    decreases depth, s.len() - i, 1int,
{
    match spec_skip_value(s, i, depth) {
        Some(j) => if j <= i || j > s.len() {
            None
        } else {
            let k = spec_skip_ws(s, j);
            if k < j || k > s.len() {
                None
            } else if k < s.len() && s[k] == COMMA {
                let n = spec_skip_ws(s, k + 1);
                if n < k + 1 || n > s.len() {
                    None
                } else {
                    spec_skip_element_list(s, n, depth)
                }
            } else if k < s.len() && s[k] == RBRACKET {
                Some(k + 1)
            } else {
                None
            }
        },
        None => None,
    }
}

fn skip_value(s: &[u8], i: usize, depth: u32) -> (r: Option<usize>)
    requires
        i <= s@.len(),
    ensures
        r matches Some(j) ==> spec_skip_value(s@, i as int, depth as nat) == Some(j as int) && i
            < j <= s@.len(),
        r is None ==> spec_skip_value(s@, i as int, depth as nat) is None,
    decreases depth, 0int,
{
    if i >= s.len() {
        return None;
    }
    let b = s[i];
    if b == QUOTE {
        match parse_string(s, i) {
            Some(p) => Some(p.1),
            None => None,
        }
    } else if b == LBRACE {
        if depth == 0 {
            return None;
        }
        let j = skip_ws(s, i + 1);
        skip_members(s, j, depth - 1)
    } else if b == LBRACKET {
        if depth == 0 {
            return None;
        }
        let j = skip_ws(s, i + 1);
        skip_elements(s, j, depth - 1)
    } else if b == 116 {
        if s.len() - i >= 4 && s[i + 1] == 114 && s[i + 2] == 117 && s[i + 3] == 101 {
            Some(i + 4)
        } else {
            None
        }
    } else if b == 102 {
        if s.len() - i >= 5 && s[i + 1] == 97 && s[i + 2] == 108 && s[i + 3] == 115 && s[i + 4]
            == 101 {
            Some(i + 5)
        } else {
            None
        }
    } else if b == 110 {
        if s.len() - i >= 4 && s[i + 1] == 117 && s[i + 2] == 108 && s[i + 3] == 108 {
            Some(i + 4)
        } else {
            None
        }
    } else if b == 45 || (48 <= b && b <= 57) {
        skip_number(s, i)
    } else {
        None
    }
}

fn skip_members(s: &[u8], i: usize, depth: u32) -> (r: Option<usize>)
    requires
        i <= s@.len(),
    ensures
        r matches Some(j) ==> spec_skip_members(s@, i as int, depth as nat) == Some(j as int)
            && i < j <= s@.len(),
        r is None ==> spec_skip_members(s@, i as int, depth as nat) is None,
    decreases depth, 1int,
{
    if i < s.len() && s[i] == RBRACE {
        return Some(i + 1);
    }
    let mut k: usize = i;
    loop
        invariant
            i <= k <= s@.len(),
            spec_skip_members(s@, i as int, depth as nat) == spec_skip_member_list(
                s@,
                k as int,
                depth as nat,
            ),
        decreases s@.len() - k,
    {
        let key = match parse_string(s, k) {
            Some(p) => p,
            None => {
                return None;
            },
        };
        let l = skip_ws(s, key.1);
        if !(l < s.len() && s[l] == COLON) {
            return None;
        }
        let m = skip_ws(s, l + 1);
        let j = match skip_value(s, m, depth) {
            Some(j) => j,
            None => {
                return None;
            },
        };
        let k2 = skip_ws(s, j);
        if k2 < s.len() && s[k2] == COMMA {
            k = skip_ws(s, k2 + 1);
        } else if k2 < s.len() && s[k2] == RBRACE {
            return Some(k2 + 1);
        } else {
            return None;
        }
    }
}

fn skip_elements(s: &[u8], i: usize, depth: u32) -> (r: Option<usize>)
    requires
        i <= s@.len(),
    ensures
        r matches Some(j) ==> spec_skip_elements(s@, i as int, depth as nat) == Some(j as int)
            && i < j <= s@.len(),
        r is None ==> spec_skip_elements(s@, i as int, depth as nat) is None,
    decreases depth, 1int,
{
    if i < s.len() && s[i] == RBRACKET {
        return Some(i + 1);
    }
    let mut k: usize = i;
    loop
        invariant
            i <= k <= s@.len(),
            spec_skip_elements(s@, i as int, depth as nat) == spec_skip_element_list(
                s@,
                k as int,
                depth as nat,
            ),
        decreases s@.len() - k,
    {
        let j = match skip_value(s, k, depth) {
            Some(j) => j,
            None => {
                return None;
            },
        };
        let k2 = skip_ws(s, j);
        if k2 < s.len() && s[k2] == COMMA {
            k = skip_ws(s, k2 + 1);
        } else if k2 < s.len() && s[k2] == RBRACKET {
            return Some(k2 + 1);
        } else {
            return None;
        }
    }
}

/// The view of an optional detail value that an entry's members have
/// yielded so far.
spec fn opt_view(o: Option<Vec<u8>>) -> Option<Seq<u8>> {
    match o {
        Some(v) => Some(v@),
        None => None,
    }
}

/// One entry of the `errors` array: an object starting at `i` (which must
/// hold its opening brace) with exactly one `detail` member, whose value is
/// a string, and any other members, whose values are skipped. Yields the
/// unescaped detail bytes and the position after the closing brace.
pub open spec fn spec_detail_object(s: Seq<u8>, i: int) -> Option<(Seq<u8>, int)> {
    if 0 <= i < s.len() && s[i] == LBRACE {
        let j = spec_skip_ws(s, i + 1);
        if j < s.len() && s[j] == RBRACE {
            None
        } else {
            spec_detail_members(s, j, None)
        }
    } else {
        None
    }
}

/// The members of an error entry from the start of a key, given the
/// `detail` value seen so far: a second `detail` member is rejected, and
/// the entry ends at a closing brace only once `detail` has been seen.
pub open spec fn spec_detail_members(s: Seq<u8>, i: int, found: Option<Seq<u8>>) -> Option<
    (Seq<u8>, int),
>
    decreases s.len() - i, 0int,
{
    match spec_string(s, i) {
        Some(key) => if key.1 <= i || key.1 > s.len() {
            None
        } else {
            let l = spec_skip_ws(s, key.1);
            if l < key.1 || l > s.len() {
                None
            } else if l < s.len() && s[l] == COLON {
                let m = spec_skip_ws(s, l + 1);
                if m < l + 1 || m > s.len() {
                    None
                } else if key.0 == detail_key() {
                    if found is Some {
                        None
                    } else {
                        match spec_string(s, m) {
                            Some(v) => if v.1 <= m || v.1 > s.len() {
                                None
                            } else {
                                spec_detail_after(s, v.1, Some(v.0))
                            },
                            None => None,
                        }
                    }
                } else {
                    match spec_skip_value(s, m, NESTING_LIMIT as nat) {
                        Some(j) => if j <= m || j > s.len() {
                            None
                        } else {
                            spec_detail_after(s, j, found)
                        },
                        None => None,
                    }
                }
            } else {
                None
            }
        },
        None => None,
    }
}

/// What follows a member's value: a comma and another member, or the
/// closing brace, accepted only once `detail` has been seen.
pub open spec fn spec_detail_after(s: Seq<u8>, i: int, found: Option<Seq<u8>>) -> Option<
    (Seq<u8>, int),
>
    decreases s.len() - i, 1int,
{
    let k = spec_skip_ws(s, i);
    if k < i || k > s.len() {
        None
    } else if k < s.len() && s[k] == COMMA {
        let n = spec_skip_ws(s, k + 1);
        if n < k + 1 || n > s.len() {
            None
        } else {
            spec_detail_members(s, n, found)
        }
    } else if k < s.len() && s[k] == RBRACE {
        match found {
            Some(d) => Some((d, k + 1)),
            None => None,
        }
    } else {
        None
    }
}

fn detail_object(s: &[u8], i: usize) -> (r: Option<(Vec<u8>, usize)>)
    requires
        i <= s@.len(),
    ensures
        r matches Some(p) ==> spec_detail_object(s@, i as int) == Some((p.0@, p.1 as int)) && i
            < p.1 <= s@.len(),
        r is None ==> spec_detail_object(s@, i as int) is None,
{
    if !(i < s.len() && s[i] == LBRACE) {
        return None;
    }
    let j = skip_ws(s, i + 1);
    if j < s.len() && s[j] == RBRACE {
        return None;
    }
    let mut found: Option<Vec<u8>> = None;
    let mut k: usize = j;
    loop
        invariant
            i < j <= k <= s@.len(),
            spec_detail_object(s@, i as int) == spec_detail_members(
                s@,
                k as int,
                opt_view(found),
            ),
        decreases s@.len() - k,
    {
        let key = match parse_string(s, k) {
            Some(p) => p,
            None => {
                return None;
            },
        };
        let l = skip_ws(s, key.1);
        if !(l < s.len() && s[l] == COLON) {
            return None;
        }
        let m = skip_ws(s, l + 1);
        let next: usize = if is_detail_key(&key.0) {
            if found.is_some() {
                return None;
            }
            let v = match parse_string(s, m) {
                Some(p) => p,
                None => {
                    return None;
                },
            };
            found = Some(v.0);
            v.1
        } else {
            match skip_value(s, m, NESTING_LIMIT) {
                Some(j2) => j2,
                None => {
                    return None;
                },
            }
        };
        let k2 = skip_ws(s, next);
        if k2 < s.len() && s[k2] == COMMA {
            k = skip_ws(s, k2 + 1);
        } else if k2 < s.len() && s[k2] == RBRACE {
            match found {
                Some(d) => {
                    return Some((d, k2 + 1));
                },
                None => {
                    return None;
                },
            }
        } else {
            return None;
        }
    }
}

/// The entries of a non-empty `errors` array from position `i` (the start
/// of its first object) up to and past the closing bracket: the sequence of
/// detail messages and the position after the bracket.
pub open spec fn spec_error_items(s: Seq<u8>, i: int) -> Option<(Seq<Seq<u8>>, int)>
    decreases s.len() - i,
{
    match spec_detail_object(s, i) {
        Some(d) => {
            if d.1 <= i || d.1 > s.len() {
                None
            } else {
                let k = spec_skip_ws(s, d.1);
                if k < d.1 || k > s.len() {
                    None
                } else if k < s.len() && s[k] == COMMA {
                    let m = spec_skip_ws(s, k + 1);
                    if m < k + 1 || m > s.len() {
                        None
                    } else {
                        match spec_error_items(s, m) {
                            Some(p) => Some((seq![d.0] + p.0, p.1)),
                            None => None,
                        }
                    }
                } else if k < s.len() && s[k] == RBRACKET {
                    Some((seq![d.0], k + 1))
                } else {
                    None
                }
            }
        },
        None => None,
    }
}

/// What the whole entry list is once the entries of `prefix` have been
/// read and position `i` is next: the prefix followed by the rest.
spec fn spec_items_suffix(prefix: Seq<Seq<u8>>, s: Seq<u8>, i: int) -> Option<
    (Seq<Seq<u8>>, int),
> {
    match spec_error_items(s, i) {
        Some(p) => Some((prefix + p.0, p.1)),
        None => None,
    }
}

fn error_items(s: &[u8], i: usize) -> (r: Option<(Vec<KtraError>, usize)>)
    requires
        i <= s@.len(),
    ensures
        r matches Some(p) ==> spec_error_items(s@, i as int) == Some(
            (p.0@.map(|q: int, e: KtraError| e@), p.1 as int),
        ) && i < p.1 <= s@.len(),
        r is None ==> spec_error_items(s@, i as int) is None,
{
    let mut acc: Vec<KtraError> = Vec::new();
    let mut k: usize = i;
    proof {
        assert(acc@.map(|q: int, e: KtraError| e@) =~= Seq::<Seq<u8>>::empty());
        match spec_error_items(s@, i as int) {
            Some(p) => {
                assert(Seq::<Seq<u8>>::empty() + p.0 =~= p.0);
            },
            None => {},
        }
    }
    loop
        invariant
            i <= k <= s@.len(),
            spec_error_items(s@, i as int) == spec_items_suffix(
                acc@.map(|q: int, e: KtraError| e@),
                s@,
                k as int,
            ),
        decreases s@.len() - k,
    {
        let d = match detail_object(s, k) {
            Some(p) => p,
            None => {
                return None;
            },
        };
        let ghost acc0 = acc@.map(|q: int, e: KtraError| e@);
        let ghost spec_d = spec_detail_object(s@, k as int).unwrap().0;
        let m2 = skip_ws(s, d.1);
        acc.push(KtraError { detail: d.0 });
        proof {
            assert(acc@.map(|q: int, e: KtraError| e@) =~= acc0.push(spec_d));
        }
        if m2 < s.len() && s[m2] == COMMA {
            let m = skip_ws(s, m2 + 1);
            proof {
                match spec_error_items(s@, m as int) {
                    Some(p) => {
                        assert(acc0 + (seq![spec_d] + p.0) =~= acc0.push(spec_d) + p.0);
                    },
                    None => {},
                }
            }
            k = m;
        } else if m2 < s.len() && s[m2] == RBRACKET {
            proof {
                assert(acc0 + seq![spec_d] =~= acc0.push(spec_d));
            }
            return Some((acc, m2 + 1));
        } else {
            return None;
        }
    }
}

/// The whole `errors` array starting at `i` (its opening bracket): the
/// sequence of detail messages and the position after the closing bracket.
pub open spec fn spec_errors_array(s: Seq<u8>, i: int) -> Option<(Seq<Seq<u8>>, int)> {
    if 0 <= i < s.len() && s[i] == LBRACKET {
        let j = spec_skip_ws(s, i + 1);
        if 0 <= j < s.len() && s[j] == RBRACKET {
            Some((seq![], j + 1))
        } else {
            spec_error_items(s, j)
        }
    } else {
        None
    }
}

fn errors_array(s: &[u8], i: usize) -> (r: Option<(Vec<KtraError>, usize)>)
    requires
        i <= s@.len(),
    ensures
        r matches Some(p) ==> spec_errors_array(s@, i as int) == Some(
            (p.0@.map(|q: int, e: KtraError| e@), p.1 as int),
        ) && i < p.1 <= s@.len(),
        r is None ==> spec_errors_array(s@, i as int) is None,
{
    if !(i < s.len() && s[i] == LBRACKET) {
        return None;
    }
    let j = skip_ws(s, i + 1);
    if j < s.len() && s[j] == RBRACKET {
        let v: Vec<KtraError> = Vec::new();
        proof {
            assert(v@.map(|q: int, e: KtraError| e@) =~= Seq::<Seq<u8>>::empty());
        }
        Some((v, j + 1))
    } else {
        error_items(s, j)
    }
}

/// True where nothing but whitespace, the reply object's closing brace and
/// more whitespace stands from `i` to the end of the input.
pub open spec fn spec_response_end(s: Seq<u8>, i: int) -> bool {
    let j = spec_skip_ws(s, i);
    &&& 0 <= j < s.len()
    &&& s[j] == RBRACE
    &&& spec_skip_ws(s, j + 1) == s.len()
}

fn response_end(s: &[u8], i: usize) -> (r: bool)
    requires
        i <= s@.len(),
    ensures
        r == spec_response_end(s@, i as int),
{
    let j = skip_ws(s, i);
    if j < s.len() && s[j] == RBRACE {
        let k = skip_ws(s, j + 1);
        k == s.len()
    } else {
        false
    }
}

/// The user-facing message of an `errors` reply: the detail messages in
/// order, separated by `", "`.
pub open spec fn spec_join(items: Seq<Seq<u8>>) -> Seq<u8>
    decreases items.len(),
{
    if items.len() == 0 {
        seq![]
    } else if items.len() == 1 {
        items[0]
    } else {
        items[0] + seq![COMMA, SPACE] + spec_join(items.drop_first())
    }
}

/// Joining one more message appends a separator (unless nothing came
/// before it) and then the message itself.
pub proof fn lemma_join_push(items: Seq<Seq<u8>>, x: Seq<u8>)
    ensures
        spec_join(items.push(x)) == if items.len() == 0 {
            x
        } else {
            spec_join(items) + seq![COMMA, SPACE] + x
        },
    decreases items.len(),
{
    let p = items.push(x);
    if items.len() == 0 {
        assert(p.len() == 1);
        assert(p[0] == x);
    } else {
        assert(p[0] == items[0]);
        assert(p.drop_first() =~= items.drop_first().push(x));
        lemma_join_push(items.drop_first(), x);
        if items.len() > 1 {
            assert(items[0] + seq![COMMA, SPACE] + (spec_join(items.drop_first()) + seq![
                COMMA,
                SPACE,
            ] + x) =~= (items[0] + seq![COMMA, SPACE] + spec_join(items.drop_first())) + seq![
                COMMA,
                SPACE,
            ] + x);
        }
    }
}

/// Append the bytes of `src` to `dst`.
pub fn append_bytes(dst: &mut Vec<u8>, src: &Vec<u8>)
    ensures
        final(dst)@ == old(dst)@ + src@,
{
    proof {
        assert(dst@ + src@.take(0) =~= dst@);
    }
    let mut k: usize = 0;
    while k < src.len()
        invariant
            k <= src@.len(),
            dst@ == old(dst)@ + src@.take(k as int),
        decreases src@.len() - k,
    {
        let b = src[k];
        proof {
            assert((old(dst)@ + src@.take(k as int)).push(b) =~= old(dst)@ + src@.take(
                k as int + 1,
            ));
        }
        dst.push(b);
        k += 1;
    }
    proof {
        assert(src@.take(src@.len() as int) =~= src@);
    }
}

/// Join the detail messages of the server's errors with `", "`.
pub fn join_details(errors: &Vec<KtraError>) -> (r: Vec<u8>)
    ensures
        r@ == spec_join(errors@.map(|q: int, e: KtraError| e@)),
{
    let ghost mapped = errors@.map(|q: int, e: KtraError| e@);
    let mut r: Vec<u8> = Vec::new();
    proof {
        assert(mapped.take(0) =~= Seq::<Seq<u8>>::empty());
    }
    let mut idx: usize = 0;
    while idx < errors.len()
        invariant
            idx <= errors@.len(),
            mapped == errors@.map(|q: int, e: KtraError| e@),
            mapped.len() == errors@.len(),
            r@ == spec_join(mapped.take(idx as int)),
        decreases errors@.len() - idx,
    {
        if idx > 0 {
            r.push(COMMA);
            r.push(SPACE);
        }
        append_bytes(&mut r, &errors[idx].detail);
        proof {
            lemma_join_push(mapped.take(idx as int), mapped[idx as int]);
            assert(mapped.take(idx as int + 1) =~= mapped.take(idx as int).push(
                mapped[idx as int],
            ));
            assert(mapped[idx as int] == errors@[idx as int]@);
            if idx == 0 {
                assert(r@ =~= spec_join(mapped.take(idx as int + 1)));
            } else {
                assert(r@ =~= spec_join(mapped.take(idx as int)) + seq![COMMA, SPACE]
                    + mapped[idx as int]);
            }
        }
        idx += 1;
    }
    proof {
        assert(mapped.take(errors@.len() as int) =~= mapped);
    }
    r
}

/// What a reply body means: `Some` of its model where the body is exactly
/// one of the two recognized JSON shapes, `None` otherwise.
pub open spec fn spec_parse_response(s: Seq<u8>) -> Option<ResponseModel> {
    let i = spec_skip_ws(s, 0);
    if 0 <= i < s.len() && s[i] == LBRACE {
        let j = spec_skip_ws(s, i + 1);
        match spec_string(s, j) {
            Some(key) => {
                let l = spec_skip_ws(s, key.1);
                if 0 <= l < s.len() && s[l] == COLON {
                    let m = spec_skip_ws(s, l + 1);
                    if key.0 == token_key() {
                        match spec_string(s, m) {
                            Some(tok) => if spec_response_end(s, tok.1) {
                                Some(ResponseModel::Token(tok.0))
                            } else {
                                None
                            },
                            None => None,
                        }
                    } else if key.0 == errors_key() {
                        match spec_errors_array(s, m) {
                            Some(items) => if spec_response_end(s, items.1) {
                                Some(ResponseModel::Errors(items.0))
                            } else {
                                None
                            },
                            None => None,
                        }
                    } else {
                        None
                    }
                } else {
                    None
                }
            },
            None => None,
        }
    } else {
        None
    }
}

/// Parse a login reply body. Succeeds exactly on the bodies the grammar
/// recognizes; everything else is a protocol error.
pub fn parse_response(body: &[u8]) -> (r: Result<KtraResponse, LoginError>)
    ensures
        r matches Ok(resp) ==> spec_parse_response(body@) == Some(resp@),
        r matches Err(e) ==> spec_parse_response(body@) is None && e == LoginError::Protocol,
{
    let i = skip_ws(body, 0);
    if !(i < body.len() && body[i] == LBRACE) {
        return Err(LoginError::Protocol);
    }
    let j = skip_ws(body, i + 1);
    let key = match parse_string(body, j) {
        Some(p) => p,
        None => {
            return Err(LoginError::Protocol);
        },
    };
    let l = skip_ws(body, key.1);
    if !(l < body.len() && body[l] == COLON) {
        return Err(LoginError::Protocol);
    }
    let m = skip_ws(body, l + 1);
    if is_token_key(&key.0) {
        match parse_string(body, m) {
            Some(tok) => {
                if response_end(body, tok.1) {
                    Ok(KtraResponse::Token(tok.0))
                } else {
                    Err(LoginError::Protocol)
                }
            },
            None => Err(LoginError::Protocol),
        }
    } else if is_errors_key(&key.0) {
        match errors_array(body, m) {
            Some(items) => {
                if response_end(body, items.1) {
                    Ok(KtraResponse::Errors(items.0))
                } else {
                    Err(LoginError::Protocol)
                }
            },
            None => Err(LoginError::Protocol),
        }
    } else {
        Err(LoginError::Protocol)
    }
}

} // verus!

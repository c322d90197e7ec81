//! The persisted configuration document: a JSON object with a number field
//! `durationSecs` (seconds, possibly fractional), a string-array field
//! `urls`, and an optional string field `url`. The serializer writes the
//! canonical form; the parser is tolerant (whitespace anywhere between
//! tokens, fields in any order, unknown fields skipped, last duplicate
//! wins, exponent notation and surrogate-pair escapes read) and is
//! specified exactly by the spec functions of this module.
//!
//! The same machinery parses the sensor readings document: an object with
//! two required numeric fields `temperature` and `humidity`.

use vstd::prelude::*;

verus! {

use vstd::arithmetic::div_mod::lemma_div_is_ordered;
use vstd::seq_lib::lemma_seq_skip_of_skip;

// ===== characters =====
/// JSON whitespace.
pub open spec fn is_ws(c: char) -> bool {
    c == ' ' || c == '\t' || c == '\n' || c == '\r'
}

/// A decimal digit.
pub open spec fn is_digit(c: char) -> bool {
    48 <= c as int <= 57
}

/// The digit character of `d` (0 to 9).
pub open spec fn digit_char(d: int) -> char {
    (48 + d) as char
}

/// The value of a digit character.
pub open spec fn digit_val(c: char) -> int {
    c as int - 48
}

/// The lower-case hex digit character of `d` (0 to 15).
pub open spec fn hex_char(d: int) -> char {
    if d < 10 {
        digit_char(d)
    } else {
        (87 + d) as char
    }
}

/// The value of a hex digit character, or -1 for any other character.
pub open spec fn hex_digit_val(c: char) -> int {
    if is_digit(c) {
        c as int - 48
    } else if 97 <= c as int <= 102 {
        c as int - 87
    } else if 65 <= c as int <= 70 {
        c as int - 55
    } else {
        -1
    }
}

// ===== field names =====
pub open spec fn key_duration() -> Seq<char> {
    seq!['d', 'u', 'r', 'a', 't', 'i', 'o', 'n', 'S', 'e', 'c', 's']
}

pub open spec fn key_urls() -> Seq<char> {
    seq!['u', 'r', 'l', 's']
}

pub open spec fn key_url() -> Seq<char> {
    seq!['u', 'r', 'l']
}

// ===== the mathematical configuration =====
/// What the configuration document means: interval in milliseconds, the
/// candidate URLs in order with no duplicates, the current selection
/// (empty when none).
pub ghost struct ConfigModel {
    pub duration_millis: u64,
    pub urls: Seq<Seq<char>>,
    pub url: Seq<char>,
}

/// No two candidate URLs read alike.
pub open spec fn model_distinct(urls: Seq<Seq<char>>) -> bool {
    forall|i: int, j: int| 0 <= i < j < urls.len() ==> urls[i] != urls[j]
}

/// Set-semantics insertion: nothing when present, a push otherwise.
pub open spec fn model_add(urls: Seq<Seq<char>>, u: Seq<char>) -> Seq<Seq<char>> {
    if urls.contains(u) {
        urls
    } else {
        urls.push(u)
    }
}

// ===== serializer =====
/// The decimal digits of `n`, most significant first, no leading zeros.
pub open spec fn dec_digits(n: nat) -> Seq<char>
    decreases n,
{
    if n < 10 {
        seq![digit_char(n as int)]
    } else {
        dec_digits((n / 10) as nat) + seq![digit_char((n % 10) as int)]
    }
}

/// Three fraction digits of a millisecond remainder (0 < f < 1000).
pub open spec fn frac3(f: int) -> Seq<char> {
    seq![digit_char(f / 100), digit_char((f / 10) % 10), digit_char(f % 10)]
}

/// The interval in seconds as a JSON number: the integer part alone for a
/// whole number of seconds, else with exactly three fraction digits.
pub open spec fn ser_duration(m: u64) -> Seq<char> {
    if m % 1000 == 0 {
        dec_digits((m / 1000) as nat)
    } else {
        dec_digits((m / 1000) as nat) + seq!['.'] + frac3((m % 1000) as int)
    }
}

/// How one character is written inside a JSON string: quote and backslash
/// escaped, control characters as `\u00XX`, all else literally.
pub open spec fn esc_char(c: char) -> Seq<char> {
    if c == '"' {
        seq!['\\', '"']
    } else if c == '\\' {
        seq!['\\', '\\']
    } else if (c as int) < 32 {
        seq!['\\', 'u', '0', '0', hex_char((c as int) / 16), hex_char((c as int) % 16)]
    } else {
        seq![c]
    }
}

/// The escaped body of a JSON string.
pub open spec fn escape(s: Seq<char>) -> Seq<char>
    decreases s.len(),
{
    if s.len() == 0 {
        Seq::empty()
    } else {
        esc_char(s[0]) + escape(s.skip(1))
    }
}

/// A JSON string: quoted escaped body.
pub open spec fn ser_string(s: Seq<char>) -> Seq<char> {
    seq!['"'] + escape(s) + seq!['"']
}

/// The members of the `urls` array, comma-separated.
pub open spec fn ser_urls(urls: Seq<Seq<char>>) -> Seq<char>
    decreases urls.len(),
{
    if urls.len() == 0 {
        Seq::empty()
    } else if urls.len() == 1 {
        ser_string(urls[0])
    } else {
        ser_string(urls[0]) + seq![','] + ser_urls(urls.skip(1))
    }
}

/// The `durationSecs` member of the saved form.
pub open spec fn member_duration(m: ConfigModel) -> Seq<char> {
    seq!['"'] + key_duration() + seq!['"', ':'] + ser_duration(m.duration_millis)
}

/// The `urls` member of the saved form.
pub open spec fn member_urls(m: ConfigModel) -> Seq<char> {
    seq!['"'] + key_urls() + seq!['"', ':', '['] + ser_urls(m.urls) + seq![']']
}

/// The `url` member of the saved form.
pub open spec fn member_url(m: ConfigModel) -> Seq<char> {
    seq!['"'] + key_url() + seq!['"', ':'] + ser_string(m.url)
}

/// The canonical saved form of a configuration.
pub open spec fn ser_config(m: ConfigModel) -> Seq<char> {
    seq!['{'] + member_duration(m) + seq![','] + member_urls(m) + seq![','] + member_url(m)
        + seq!['}']
}

// ===== parser =====
/// Drop leading whitespace.
pub open spec fn skip_ws(s: Seq<char>) -> Seq<char>
    decreases s.len(),
{
    if s.len() > 0 && is_ws(s[0]) {
        skip_ws(s.skip(1))
    } else {
        s
    }
}

/// The character of a single-character escape, if the escape is known.
pub open spec fn unescape_char(e: char) -> Option<char> {
    if e == '"' {
        Some('"')
    } else if e == '\\' {
        Some('\\')
    } else if e == '/' {
        Some('/')
    } else if e == 'n' {
        Some('\n')
    } else if e == 't' {
        Some('\t')
    } else if e == 'r' {
        Some('\r')
    } else if e == 'b' {
        Some('\u{0008}')
    } else if e == 'f' {
        Some('\u{000C}')
    } else {
        None
    }
}

/// The value of four hex digits, or -1 if any is no hex digit.
pub open spec fn hex_quad(a: char, b: char, c: char, d: char) -> int {
    if hex_digit_val(a) < 0 || hex_digit_val(b) < 0 || hex_digit_val(c) < 0 || hex_digit_val(d)
        < 0 {
        -1
    } else {
        hex_digit_val(a) * 4096 + hex_digit_val(b) * 256 + hex_digit_val(c) * 16 + hex_digit_val(d)
    }
}

/// A code a `char` can hold: any scalar value outside the surrogate range.
pub open spec fn valid_code(h: int) -> bool {
    (0 <= h < 0xD800) || (0xE000 <= h <= 0x10FFFF)
}

/// A UTF-16 high (leading) surrogate.
pub open spec fn is_high_surrogate(h: int) -> bool {
    0xD800 <= h <= 0xDBFF
}

/// A UTF-16 low (trailing) surrogate.
pub open spec fn is_low_surrogate(h: int) -> bool {
    0xDC00 <= h <= 0xDFFF
}

/// The scalar value a surrogate pair names.
pub open spec fn surrogate_pair_code(h: int, l: int) -> int {
    0x10000 + (h - 0xD800) * 0x400 + (l - 0xDC00)
}

/// Parse the body of a JSON string after its opening quote: the decoded
/// characters and the text after the closing quote; a high-surrogate
/// escape followed by a low-surrogate escape reads as one astral
/// character.
pub open spec fn p_str_body(s: Seq<char>) -> Option<(Seq<char>, Seq<char>)>
    decreases s.len(),
{
    if s.len() == 0 {
        None
    } else if s[0] == '"' {
        Some((Seq::empty(), s.skip(1)))
    } else if s[0] == '\\' {
        if s.len() < 2 {
            None
        } else if s[1] == 'u' {
            if s.len() < 6 {
                None
            } else {
                let h = hex_quad(s[2], s[3], s[4], s[5]);
                if valid_code(h) {
                    match p_str_body(s.skip(6)) {
                        None => None,
                        Some((t, r)) => Some((seq![h as char] + t, r)),
                    }
                } else if is_high_surrogate(h) {
                    if s.len() < 12 || s[6] != '\\' || s[7] != 'u' {
                        None
                    } else {
                        let l = hex_quad(s[8], s[9], s[10], s[11]);
                        if !is_low_surrogate(l) {
                            None
                        } else {
                            match p_str_body(s.skip(12)) {
                                None => None,
                                Some((t, r)) => Some(
                                    (seq![surrogate_pair_code(h, l) as char] + t, r),
                                ),
                            }
                        }
                    }
                } else {
                    None
                }
            }
        } else {
            match unescape_char(s[1]) {
                None => None,
                Some(c) => match p_str_body(s.skip(2)) {
                    None => None,
                    Some((t, r)) => Some((seq![c] + t, r)),
                },
            }
        }
    } else {
        match p_str_body(s.skip(1)) {
            None => None,
            Some((t, r)) => Some((seq![s[0]] + t, r)),
        }
    }
}

/// How many decimal digits `s` starts with.
pub open spec fn digit_count(s: Seq<char>) -> nat
    decreases s.len(),
{
    if s.len() > 0 && is_digit(s[0]) {
        (1 + digit_count(s.skip(1))) as nat
    } else {
        0
    }
}

/// The value of a run of decimal digits.
pub open spec fn digits_val(ds: Seq<char>) -> nat
    decreases ds.len(),
{
    if ds.len() == 0 {
        0
    } else {
        (digits_val(ds.drop_last()) * 10 + digit_val(ds.last())) as nat
    }
}

/// The value in milliseconds of a number `ids.fds × 10^ex` seconds given
/// by its integer digits, fraction digits and decimal exponent, truncated
/// below a millisecond: only the fraction digits above the truncation
/// point contribute.
#[verifier::opaque]
pub open spec fn number_millis(ids: Seq<char>, fds: Seq<char>, ex: int) -> int {
    let e3 = ex + 3;
    let fd_rel = if e3 <= 0 {
        0
    } else if fds.len() <= e3 {
        fds.len() as int
    } else {
        e3
    };
    let dv = digits_val(ids + fds.take(fd_rel)) as int;
    if e3 - fd_rel >= 0 {
        dv * pow10((e3 - fd_rel) as nat)
    } else {
        dv / (pow10((fd_rel - e3) as nat) as int)
    }
}

/// Read the exponent's digits and finish the number: at most three
/// exponent digits, and a scale of at most 10^16, so that every value
/// small enough to be stored is computed exactly.
pub open spec fn p_exp_digits(ids: Seq<char>, fds: Seq<char>, neg: bool, t: Seq<char>) -> Option<
    (int, Seq<char>),
> {
    let ek = digit_count(t) as int;
    if ek == 0 || ek > 3 {
        None
    } else {
        let ev = digits_val(t.take(ek)) as int;
        let ex = if neg {
            -ev
        } else {
            ev
        };
        if ex > 16 {
            None
        } else {
            Some((number_millis(ids, fds, ex), t.skip(ek)))
        }
    }
}

/// Finish a number after its digit runs: an optional signed exponent.
pub open spec fn p_number_exp(ids: Seq<char>, fds: Seq<char>, s: Seq<char>) -> Option<
    (int, Seq<char>),
> {
    if s.len() >= 1 && (s[0] == 'e' || s[0] == 'E') {
        if s.len() >= 2 && s[1] == '-' {
            p_exp_digits(ids, fds, true, s.skip(2))
        } else if s.len() >= 2 && s[1] == '+' {
            p_exp_digits(ids, fds, false, s.skip(2))
        } else {
            p_exp_digits(ids, fds, false, s.skip(1))
        }
    } else {
        Some((number_millis(ids, fds, 0), s))
    }
}

/// Parse a non-negative JSON number as milliseconds: an integer part of at
/// most 19 digits, optionally a fraction, optionally an exponent.
pub open spec fn p_number(s: Seq<char>) -> Option<(int, Seq<char>)> {
    let k = digit_count(s) as int;
    if k == 0 || k > 19 {
        None
    } else {
        let ids = s.take(k);
        let rest = s.skip(k);
        if rest.len() >= 2 && rest[0] == '.' && is_digit(rest[1]) {
            let fk = digit_count(rest.skip(1)) as int;
            p_number_exp(ids, rest.skip(1).take(fk), rest.skip(1).skip(fk))
        } else {
            p_number_exp(ids, Seq::empty(), rest)
        }
    }
}

/// Consume one unknown JSON value by bracket depth and string state; stops
/// before a comma or closing brace of the enclosing object (which it does
/// not consume), or just after the value's own closing bracket or quote.
pub open spec fn skip_value(
    s: Seq<char>,
    depth: int,
    in_str: bool,
    esc: bool,
    started: bool,
) -> Option<Seq<char>>
    decreases s.len(),
{
    if s.len() == 0 {
        None
    } else {
        let c = s[0];
        if in_str {
            if esc {
                skip_value(s.skip(1), depth, true, false, true)
            } else if c == '\\' {
                skip_value(s.skip(1), depth, true, true, true)
            } else if c == '"' {
                if depth == 0 {
                    Some(s.skip(1))
                } else {
                    skip_value(s.skip(1), depth, false, false, true)
                }
            } else {
                skip_value(s.skip(1), depth, true, false, true)
            }
        } else if c == '{' || c == '[' {
            skip_value(s.skip(1), depth + 1, false, false, true)
        } else if c == '}' || c == ']' {
            if depth == 0 {
                if started {
                    Some(s)
                } else {
                    None
                }
            } else if depth == 1 {
                Some(s.skip(1))
            } else {
                skip_value(s.skip(1), depth - 1, false, false, true)
            }
        } else if c == ',' {
            if depth == 0 {
                if started {
                    Some(s)
                } else {
                    None
                }
            } else {
                skip_value(s.skip(1), depth, false, false, true)
            }
        } else if c == '"' {
            skip_value(s.skip(1), depth, true, false, true)
        } else if is_ws(c) {
            if depth == 0 && started {
                Some(s)
            } else {
                skip_value(s.skip(1), depth, false, false, started)
            }
        } else {
            skip_value(s.skip(1), depth, false, false, true)
        }
    }
}

// ===== consumption lemmas =====
/// Skipping whitespace never grows the text.
proof fn lemma_skip_ws_le(s: Seq<char>)
    ensures
        skip_ws(s).len() <= s.len(),
    decreases s.len(),
{
    if s.len() > 0 && is_ws(s[0]) {
        lemma_skip_ws_le(s.skip(1));
    }
}

/// A parsed string body consumes at least its closing quote.
proof fn lemma_p_str_body_lt(s: Seq<char>)
    ensures
        p_str_body(s) matches Some(vr) ==> vr.1.len() < s.len(),
    decreases s.len(),
{
    if s.len() > 0 && s[0] != '"' {
        if s[0] == '\\' {
            if s.len() >= 2 && s[1] == 'u' {
                if s.len() >= 6 {
                    lemma_p_str_body_lt(s.skip(6));
                }
                if s.len() >= 12 {
                    lemma_p_str_body_lt(s.skip(12));
                }
            } else if s.len() >= 2 {
                lemma_p_str_body_lt(s.skip(2));
            }
        } else {
            lemma_p_str_body_lt(s.skip(1));
        }
    }
}

/// A digit run is no longer than the text.
proof fn lemma_digit_count_le(s: Seq<char>)
    ensures
        digit_count(s) <= s.len(),
    decreases s.len(),
{
    if s.len() > 0 && is_digit(s[0]) {
        lemma_digit_count_le(s.skip(1));
    }
}

/// The exponent tail never grows the text.
proof fn lemma_p_number_exp_le(ids: Seq<char>, fds: Seq<char>, s: Seq<char>)
    ensures
        p_number_exp(ids, fds, s) matches Some(vr) ==> vr.1.len() <= s.len(),
{
    if s.len() >= 1 && (s[0] == 'e' || s[0] == 'E') {
        if s.len() >= 2 && (s[1] == '-' || s[1] == '+') {
            lemma_digit_count_le(s.skip(2));
        } else {
            lemma_digit_count_le(s.skip(1));
        }
    }
}

/// A parsed number consumes at least one digit.
proof fn lemma_p_number_lt(s: Seq<char>)
    ensures
        p_number(s) matches Some(vr) ==> vr.1.len() < s.len(),
{
    lemma_digit_count_le(s);
    let k = digit_count(s) as int;
    if 0 < k <= 19 {
        let ids = s.take(k);
        let rest = s.skip(k);
        if rest.len() >= 2 && rest[0] == '.' && is_digit(rest[1]) {
            lemma_digit_count_le(rest.skip(1));
            let fk = digit_count(rest.skip(1)) as int;
            lemma_seq_skip_of_skip(s, k, 1);
            lemma_seq_skip_of_skip(s, k + 1, fk);
            lemma_p_number_exp_le(ids, rest.skip(1).take(fk), rest.skip(1).skip(fk));
        } else {
            lemma_p_number_exp_le(ids, Seq::empty(), rest);
        }
    }
}

/// A skipped value never grows the text, and consumes at least one
/// character when it has not started yet.
proof fn lemma_skip_value_le(s: Seq<char>, depth: int, in_str: bool, esc: bool, started: bool)
    ensures
        skip_value(s, depth, in_str, esc, started) matches Some(r) ==> r.len() <= s.len(),
        !started ==> (skip_value(s, depth, in_str, esc, started) matches Some(r) ==> r.len()
            < s.len()),
    decreases s.len(),
{
    if s.len() > 0 {
        let c = s[0];
        if in_str {
            if esc {
                lemma_skip_value_le(s.skip(1), depth, true, false, true);
            } else if c == '\\' {
                lemma_skip_value_le(s.skip(1), depth, true, true, true);
            } else if c == '"' {
                if depth != 0 {
                    lemma_skip_value_le(s.skip(1), depth, false, false, true);
                }
            } else {
                lemma_skip_value_le(s.skip(1), depth, true, false, true);
            }
        } else if c == '{' || c == '[' {
            lemma_skip_value_le(s.skip(1), depth + 1, false, false, true);
        } else if c == '}' || c == ']' {
            if depth != 0 && depth != 1 {
                lemma_skip_value_le(s.skip(1), depth - 1, false, false, true);
            }
        } else if c == ',' {
            if depth != 0 {
                lemma_skip_value_le(s.skip(1), depth, false, false, true);
            }
        } else if c == '"' {
            lemma_skip_value_le(s.skip(1), depth, true, false, true);
        } else if is_ws(c) {
            if !(depth == 0 && started) {
                lemma_skip_value_le(s.skip(1), depth, false, false, started);
            }
        } else {
            lemma_skip_value_le(s.skip(1), depth, false, false, true);
        }
    }
}

// ===== object parsing =====
/// The fields still wanted while walking the configuration object's
/// members; `durationSecs` and `urls` are required, `url` defaults empty.
pub ghost struct PartialConfig {
    pub duration: Option<u64>,
    pub urls: Option<Seq<Seq<char>>>,
    pub url: Option<Seq<char>>,
}

/// What one member of the configuration object contributed.
pub ghost enum Field {
    Duration(u64),
    Urls(Seq<Seq<char>>),
    Url(Seq<char>),
    Other,
}

/// Parse the members of the `urls` array from its first item on,
/// folding each item into the candidate set with set semantics.
pub open spec fn p_url_items(s: Seq<char>, acc: Seq<Seq<char>>) -> Option<
    (Seq<Seq<char>>, Seq<char>),
>
    decreases s.len(),
    via p_url_items_dec
{
    let t = skip_ws(s);
    if t.len() == 0 || t[0] != '"' {
        None
    } else {
        match p_str_body(t.skip(1)) {
            None => None,
            Some((v, r)) => {
                let acc2 = model_add(acc, v);
                let r2 = skip_ws(r);
                if r2.len() == 0 {
                    None
                } else if r2[0] == ',' {
                    p_url_items(r2.skip(1), acc2)
                } else if r2[0] == ']' {
                    Some((acc2, r2.skip(1)))
                } else {
                    None
                }
            },
        }
    }
}

#[via_fn]
proof fn p_url_items_dec(s: Seq<char>, acc: Seq<Seq<char>>) {
    lemma_skip_ws_le(s);
    let t = skip_ws(s);
    if t.len() > 0 && t[0] == '"' {
        lemma_p_str_body_lt(t.skip(1));
        if let Some((v, r)) = p_str_body(t.skip(1)) {
            lemma_skip_ws_le(r);
        }
    }
}

/// Parse one member of the configuration object: a key, a colon, and the
/// value the key asks for; unknown keys have their value skipped.
pub open spec fn p_member(s: Seq<char>) -> Option<(Field, Seq<char>)> {
    if s.len() == 0 || s[0] != '"' {
        None
    } else {
        match p_str_body(s.skip(1)) {
            None => None,
            Some((key, r1)) => {
                let r2 = skip_ws(r1);
                if r2.len() == 0 || r2[0] != ':' {
                    None
                } else {
                    let r3 = skip_ws(r2.skip(1));
                    if key == key_duration() {
                        match p_number(r3) {
                            None => None,
                            Some((millis, r4)) => if millis > u64::MAX {
                                None
                            } else {
                                Some((Field::Duration(millis as u64), r4))
                            },
                        }
                    } else if key == key_urls() {
                        if r3.len() == 0 || r3[0] != '[' {
                            None
                        } else {
                            let r3b = skip_ws(r3.skip(1));
                            if r3b.len() > 0 && r3b[0] == ']' {
                                Some((Field::Urls(Seq::empty()), r3b.skip(1)))
                            } else {
                                match p_url_items(r3.skip(1), Seq::empty()) {
                                    None => None,
                                    Some((us, r4)) => Some((Field::Urls(us), r4)),
                                }
                            }
                        }
                    } else if key == key_url() {
                        if r3.len() == 0 || r3[0] != '"' {
                            None
                        } else {
                            match p_str_body(r3.skip(1)) {
                                None => None,
                                Some((v, r4)) => Some((Field::Url(v), r4)),
                            }
                        }
                    } else {
                        match skip_value(r3, 0, false, false, false) {
                            None => None,
                            Some(r4) => Some((Field::Other, r4)),
                        }
                    }
                }
            },
        }
    }
}

/// Fold one member into the partial configuration; a later duplicate of a
/// key overwrites the earlier value.
pub open spec fn apply_field(acc: PartialConfig, f: Field) -> PartialConfig {
    match f {
        Field::Duration(d) => PartialConfig { duration: Some(d), ..acc },
        Field::Urls(us) => PartialConfig { urls: Some(us), ..acc },
        Field::Url(u) => PartialConfig { url: Some(u), ..acc },
        Field::Other => acc,
    }
}

/// Parsing the members of the `urls` array consumes at least the closing
/// bracket.
proof fn lemma_p_url_items_lt(s: Seq<char>, acc: Seq<Seq<char>>)
    ensures
        p_url_items(s, acc) matches Some(ur) ==> ur.1.len() < s.len(),
    decreases s.len(),
{
    lemma_skip_ws_le(s);
    let t = skip_ws(s);
    if t.len() > 0 && t[0] == '"' {
        lemma_p_str_body_lt(t.skip(1));
        if let Some((v, r)) = p_str_body(t.skip(1)) {
            lemma_skip_ws_le(r);
            let r2 = skip_ws(r);
            if r2.len() > 0 && r2[0] == ',' {
                lemma_p_url_items_lt(r2.skip(1), model_add(acc, v));
            }
        }
    }
}

/// A parsed member consumes at least the key's opening quote.
proof fn lemma_p_member_lt(s: Seq<char>)
    ensures
        p_member(s) matches Some(fr) ==> fr.1.len() < s.len(),
{
    if s.len() > 0 && s[0] == '"' {
        lemma_p_str_body_lt(s.skip(1));
        if let Some((key, r1)) = p_str_body(s.skip(1)) {
            lemma_skip_ws_le(r1);
            let r2 = skip_ws(r1);
            if r2.len() > 0 && r2[0] == ':' {
                lemma_skip_ws_le(r2.skip(1));
                let r3 = skip_ws(r2.skip(1));
                if key == key_duration() {
                    lemma_p_number_lt(r3);
                } else if key == key_urls() {
                    if r3.len() > 0 && r3[0] == '[' {
                        lemma_skip_ws_le(r3.skip(1));
                        lemma_p_url_items_lt(r3.skip(1), Seq::empty());
                    }
                } else if key == key_url() {
                    if r3.len() > 0 && r3[0] == '"' {
                        lemma_p_str_body_lt(r3.skip(1));
                    }
                } else {
                    lemma_skip_value_le(r3, 0, false, false, false);
                }
            }
        }
    }
}

/// Parse the members of the configuration object after its opening brace.
pub open spec fn p_members(s: Seq<char>, acc: PartialConfig) -> Option<(PartialConfig, Seq<char>)>
    decreases s.len(),
    via p_members_dec
{
    let t = skip_ws(s);
    if t.len() == 0 {
        None
    } else if t[0] == '}' {
        Some((acc, t.skip(1)))
    } else {
        match p_member(t) {
            None => None,
            Some((f, r)) => {
                let acc2 = apply_field(acc, f);
                let r2 = skip_ws(r);
                if r2.len() == 0 {
                    None
                } else if r2[0] == ',' {
                    p_members(r2.skip(1), acc2)
                } else if r2[0] == '}' {
                    Some((acc2, r2.skip(1)))
                } else {
                    None
                }
            },
        }
    }
}

#[via_fn]
proof fn p_members_dec(s: Seq<char>, acc: PartialConfig) {
    lemma_skip_ws_le(s);
    let t = skip_ws(s);
    if t.len() > 0 && t[0] != '}' {
        lemma_p_member_lt(t);
        if let Some((f, r)) = p_member(t) {
            lemma_skip_ws_le(r);
        }
    }
}

/// What a saved configuration document means, if it is well-formed: the
/// whole text is one object; `durationSecs` and `urls` must be present,
/// a missing `url` defaults to the empty selection; unknown fields are
/// ignored and whitespace may stand between any two tokens.
pub open spec fn p_config(s: Seq<char>) -> Option<ConfigModel> {
    let t = skip_ws(s);
    if t.len() == 0 || t[0] != '{' {
        None
    } else {
        match p_members(t.skip(1), PartialConfig { duration: None, urls: None, url: None }) {
            None => None,
            Some((acc, r)) => {
                if skip_ws(r).len() != 0 {
                    None
                } else {
                    match (acc.duration, acc.urls) {
                        (Some(d), Some(us)) => Some(
                            ConfigModel {
                                duration_millis: d,
                                urls: us,
                                url: match acc.url {
                                    Some(u) => u,
                                    None => Seq::empty(),
                                },
                            },
                        ),
                        _ => None,
                    }
                }
            },
        }
    }
}

// ===== the codec round trip =====
/// Characters that the escaper passes through unchanged.
pub open spec fn plain_char(c: char) -> bool {
    c != '"' && c != '\\' && c as int >= 32
}

/// Every `char` is a Unicode scalar value; this restates the type's own
/// range for a character read out of a sequence.
proof fn char_bounds(c: char)
    ensures
        0 <= c as int <= 0x10FFFF,
        !(0xD800 <= c as int <= 0xDFFF),
{
}

/// A text of plain characters escapes to itself.
proof fn lemma_escape_plain(v: Seq<char>)
    requires
        forall|i: int| 0 <= i < v.len() ==> plain_char(#[trigger] v[i]),
    ensures
        escape(v) == v,
    decreases v.len(),
{
    if v.len() > 0 {
        lemma_escape_plain(v.skip(1));
        assert(esc_char(v[0]) == seq![v[0]]);
        assert(seq![v[0]] + v.skip(1) =~= v);
    }
}

/// Reading a string body undoes the escaper: parsing the escaped text,
/// the closing quote and whatever follows yields exactly the original
/// characters and the following text.
proof fn lemma_p_str_body_round(v: Seq<char>, rest: Seq<char>)
    ensures
        p_str_body(escape(v) + seq!['"'] + rest) == Some((v, rest)),
    decreases v.len(),
{
    let s = escape(v) + seq!['"'] + rest;
    if v.len() == 0 {
        assert(s =~= seq!['"'] + rest);
        assert(s.skip(1) =~= rest);
    } else {
        lemma_p_str_body_round(v.skip(1), rest);
        let c = v[0];
        let tail = escape(v.skip(1)) + seq!['"'] + rest;
        if c == '"' {
            assert(s =~= seq!['\\', '"'] + tail);
            assert(s.skip(2) =~= tail);
            assert(seq!['"'] + v.skip(1) =~= v);
        } else if c == '\\' {
            assert(s =~= seq!['\\', '\\'] + tail);
            assert(s.skip(2) =~= tail);
            assert(seq!['\\'] + v.skip(1) =~= v);
        } else if (c as int) < 32 {
            let h1 = hex_char((c as int) / 16);
            let h2 = hex_char((c as int) % 16);
            assert(s =~= seq!['\\', 'u', '0', '0', h1, h2] + tail);
            assert(s.skip(6) =~= tail);
            assert(hex_digit_val('0') == 0);
            char_bounds(c);
            let d1 = (c as int) / 16;
            let d2 = (c as int) % 16;
            assert(0 <= d1 < 2 && 0 <= d2 < 16);
            assert(h1 == digit_char(d1));
            assert(digit_char(d1) as int == 48 + d1);
            assert(hex_digit_val(h1) == d1);
            if d2 < 10 {
                assert(h2 == digit_char(d2));
                assert(digit_char(d2) as int == 48 + d2);
            } else {
                assert(h2 as int == 87 + d2);
            }
            assert(hex_digit_val(h2) == d2);
            assert(hex_quad(s[2], s[3], s[4], s[5]) == c as int);
            assert((c as int) as char == c);
            assert(seq![c] + v.skip(1) =~= v);
        } else {
            assert(s =~= seq![c] + tail);
            assert(s.skip(1) =~= tail);
            assert(seq![c] + v.skip(1) =~= v);
        }
    }
}

/// Powers of ten.
pub open spec fn pow10(k: nat) -> nat
    decreases k,
{
    if k == 0 {
        1
    } else {
        10 * pow10((k - 1) as nat)
    }
}

/// The decimal digits of `n` are digits, and there is at least one.
proof fn lemma_dec_digits_all(n: nat)
    ensures
        dec_digits(n).len() >= 1,
        forall|i: int| 0 <= i < dec_digits(n).len() ==> is_digit(#[trigger] dec_digits(n)[i]),
    decreases n,
{
    if n < 10 {
        assert(dec_digits(n) == seq![digit_char(n as int)]);
        assert(is_digit(dec_digits(n)[0]));
    } else {
        lemma_dec_digits_all((n / 10) as nat);
        assert(forall|i: int|
            0 <= i < dec_digits(n).len() ==> is_digit(#[trigger] dec_digits(n)[i])) by {
            let a = dec_digits((n / 10) as nat);
            assert(dec_digits(n) == a + seq![digit_char((n % 10) as int)]);
            assert(is_digit(digit_char((n % 10) as int)));
        }
    }
}

/// A number below the `k`-th power of ten has at most `k` digits.
proof fn lemma_dec_digits_len(n: nat, k: nat)
    requires
        k >= 1,
        n < pow10(k),
    ensures
        dec_digits(n).len() <= k,
    decreases k,
{
    if n >= 10 {
        assert(pow10(k) == 10 * pow10((k - 1) as nat));
        assert(k >= 2) by {
            if k == 1 {
                assert(pow10(1nat) == 10);
            }
        }
        let p = pow10((k - 1) as nat) as int;
        assert(n as int <= 10 * p - 1);
        lemma_div_is_ordered(n as int, 10 * p - 1, 10);
        assert((10 * p - 1) / 10 == p - 1);
        lemma_dec_digits_len((n / 10) as nat, (k - 1) as nat);
    }
}

/// Reading the decimal digits of `n` gives back `n`.
proof fn lemma_dec_digits_val(n: nat)
    ensures
        digits_val(dec_digits(n)) == n,
    decreases n,
{
    if n < 10 {
        assert(dec_digits(n) == seq![digit_char(n as int)]);
        assert(seq![digit_char(n as int)].drop_last() =~= Seq::<char>::empty());
        assert(digits_val(Seq::<char>::empty()) == 0);
        assert(digit_val(digit_char(n as int)) == n);
        assert(digits_val(dec_digits(n)) == digits_val(Seq::<char>::empty()) * 10 + digit_val(
            digit_char(n as int),
        ));
    } else {
        lemma_dec_digits_val((n / 10) as nat);
        let a = dec_digits((n / 10) as nat);
        let d = digit_char((n % 10) as int);
        assert(dec_digits(n) == a + seq![d]);
        assert((a + seq![d]).drop_last() =~= a);
        assert((a + seq![d]).last() == d);
        assert(digit_val(d) == n % 10);
        assert(digits_val(a + seq![d]) == digits_val(a) * 10 + digit_val(d));
        assert(n == (n / 10) * 10 + n % 10);
    }
}

/// A run of digits followed by a non-digit counts exactly its own length.
proof fn lemma_digit_count_concat(a: Seq<char>, rest: Seq<char>)
    requires
        forall|i: int| 0 <= i < a.len() ==> is_digit(#[trigger] a[i]),
        rest.len() == 0 || !is_digit(rest[0]),
    ensures
        digit_count(a + rest) == a.len(),
    decreases a.len(),
{
    let s = a + rest;
    if a.len() == 0 {
        assert(s =~= rest);
    } else {
        assert(s[0] == a[0]);
        assert(s.skip(1) =~= a.skip(1) + rest);
        assert(forall|i: int| 0 <= i < a.skip(1).len() ==> is_digit(#[trigger] a.skip(1)[i]));
        lemma_digit_count_concat(a.skip(1), rest);
    }
}

/// Powers of ten multiply by adding their exponents.
proof fn lemma_pow10_add(a: nat, b: nat)
    ensures
        pow10((a + b) as nat) == pow10(a) * pow10(b),
    decreases a,
{
    if a == 0 {
        assert(pow10(0) == 1);
    } else {
        lemma_pow10_add((a - 1) as nat, b);
        assert(pow10((a + b) as nat) == 10 * pow10((a - 1 + b) as nat));
        assert(pow10(a) == 10 * pow10((a - 1) as nat));
        vstd::arithmetic::mul::lemma_mul_is_associative(
            10,
            pow10((a - 1) as nat) as int,
            pow10(b) as int,
        );
    }
}

/// Reading the digits of a concatenation of digit runs: the left run is
/// shifted by the length of the right run.
proof fn lemma_digits_val_concat(a: Seq<char>, b: Seq<char>)
    requires
        forall|p: int| 0 <= p < a.len() ==> is_digit(#[trigger] a[p]),
        forall|p: int| 0 <= p < b.len() ==> is_digit(#[trigger] b[p]),
    ensures
        digits_val(a + b) == digits_val(a) * pow10(b.len() as nat) + digits_val(b),
    decreases b.len(),
{
    if b.len() == 0 {
        assert(a + b =~= a);
        assert(pow10(0) == 1);
        assert(digits_val(b) == 0);
    } else {
        assert(forall|p: int|
            0 <= p < b.drop_last().len() ==> is_digit(#[trigger] b.drop_last()[p]));
        lemma_digits_val_concat(a, b.drop_last());
        assert((a + b).drop_last() =~= a + b.drop_last());
        assert((a + b).last() == b.last());
        assert(is_digit(b.last()) && digit_val(b.last()) >= 0);
        assert(digits_val(a + b) == digits_val(a + b.drop_last()) * 10 + digit_val(b.last()));
        assert(digits_val(b) == digits_val(b.drop_last()) * 10 + digit_val(b.last()));
        assert(pow10(b.len() as nat) == 10 * pow10((b.len() - 1) as nat));
        vstd::arithmetic::mul::lemma_mul_is_associative(
            digits_val(a) as int,
            pow10((b.len() - 1) as nat) as int,
            10,
        );
        vstd::arithmetic::mul::lemma_mul_is_commutative(pow10((b.len() - 1) as nat) as int, 10);
    }
}

/// The value of a single digit character.
proof fn lemma_digits_val_singleton(c: char)
    requires
        is_digit(c),
    ensures
        digits_val(seq![c]) == digit_val(c),
{
    assert(seq![c].drop_last() =~= Seq::<char>::empty());
    assert(digits_val(Seq::<char>::empty()) == 0);
}

/// The concrete powers of ten the proofs lean on.
proof fn lemma_pow10_values()
    ensures
        pow10(0) == 1,
        pow10(1) == 10,
        pow10(2) == 100,
        pow10(3) == 1000,
        pow10(18) == 1000000000000000000,
        pow10(19) == 10000000000000000000,
        pow10(37) == 10000000000000000000000000000000000000,
        pow10(38) == 100000000000000000000000000000000000000,
{
    reveal_with_fuel(pow10, 39);
}

/// The three fraction digits of a millisecond remainder are digits and
/// read back as that remainder.
proof fn lemma_frac3_val(f: int)
    requires
        0 < f < 1000,
    ensures
        forall|i: int| 0 <= i < frac3(f).len() ==> is_digit(#[trigger] frac3(f)[i]),
        digits_val(frac3(f)) == f,
{
    let c0 = digit_char(f / 100);
    let c1 = digit_char((f / 10) % 10);
    let c2 = digit_char(f % 10);
    let fr = frac3(f);
    assert(0 <= f / 100 <= 9 && 0 <= (f / 10) % 10 <= 9 && 0 <= f % 10 <= 9);
    assert(fr[0] == c0 && fr[1] == c1 && fr[2] == c2);
    assert(is_digit(c0) && is_digit(c1) && is_digit(c2));
    assert(forall|i: int| 0 <= i < fr.len() ==> is_digit(#[trigger] fr[i]));
    lemma_digits_val_singleton(c0);
    lemma_digits_val_singleton(c1);
    lemma_digits_val_singleton(c2);
    lemma_pow10_values();
    assert(seq![c0][0] == c0 && seq![c1][0] == c1 && seq![c2][0] == c2);
    assert(forall|p: int| 0 <= p < seq![c0].len() ==> is_digit(#[trigger] seq![c0][p]));
    assert(forall|p: int| 0 <= p < seq![c1].len() ==> is_digit(#[trigger] seq![c1][p]));
    assert(forall|p: int| 0 <= p < seq![c2].len() ==> is_digit(#[trigger] seq![c2][p]));
    lemma_digits_val_concat(seq![c0], seq![c1]);
    let ab = seq![c0] + seq![c1];
    assert(forall|p: int| 0 <= p < ab.len() ==> is_digit(#[trigger] ab[p]));
    assert(digits_val(ab) == digit_val(c0) * 10 + digit_val(c1));
    lemma_digits_val_concat(ab, seq![c2]);
    assert(fr =~= ab + seq![c2]);
    assert(digits_val(fr) == (digit_val(c0) * 10 + digit_val(c1)) * 10 + digit_val(c2));
    assert(digit_val(c0) == f / 100 && digit_val(c1) == (f / 10) % 10 && digit_val(c2) == f % 10);
    assert((f / 100) * 100 + ((f / 10) % 10) * 10 + f % 10 == f) by {
        let q1 = f / 10;
        assert(f == 10 * q1 + f % 10);
        assert(q1 == 10 * (q1 / 10) + q1 % 10);
        assert(q1 / 10 == f / 100) by {
            assert(f == 100 * (q1 / 10) + (q1 % 10) * 10 + f % 10);
        }
    }
    assert((digit_val(c0) * 10 + digit_val(c1)) * 10 + digit_val(c2) == digit_val(c0) * 100
        + digit_val(c1) * 10 + digit_val(c2)) by (nonlinear_arith);
    assert(digits_val(fr) == f);
}

/// Reading a serialized whole-second interval undoes the serializer.
#[verifier::rlimit(100)]
proof fn lemma_p_number_round_int(m: u64, rest: Seq<char>)
    requires
        rest.len() > 0,
        !is_digit(rest[0]),
        rest[0] != '.',
        rest[0] != 'e',
        rest[0] != 'E',
        m % 1000 == 0,
    ensures
        p_number(ser_duration(m) + rest) == Some((m as int, rest)),
{
    reveal(number_millis);
    let ip = (m / 1000) as nat;
    let a = dec_digits(ip);
    lemma_dec_digits_all(ip);
    lemma_dec_digits_val(ip);
    assert(pow10(17) > 18446744073709551) by {
        reveal_with_fuel(pow10, 18);
    }
    lemma_pow10_values();
    lemma_dec_digits_len(ip, 17);
    let s = ser_duration(m) + rest;
    assert(s =~= a + rest);
    lemma_digit_count_concat(a, rest);
    let k = digit_count(s) as int;
    assert(k == a.len());
    assert(s.take(k) =~= a);
    assert(s.skip(k) =~= rest);
    // no fraction and no exponent follow, so the value is the integer part
    // scaled straight to milliseconds
    assert(p_number_exp(a, Seq::empty(), rest) == Some(
        (number_millis(a, Seq::empty(), 0), rest),
    ));
    assert(a + Seq::<char>::empty().take(0) =~= a);
    assert(number_millis(a, Seq::empty(), 0) == ip * 1000);
    assert(ip * 1000 == m);
    let pr = p_number(s);
    assert(pr is Some);
    if let Some((vv, rr)) = pr {
        assert(vv == m as int);
        assert(rr =~= rest);
        assert(pr == Some((vv, rr)));
    }
}

/// Reading a serialized fractional interval undoes the serializer.
#[verifier::rlimit(100)]
proof fn lemma_p_number_round_frac(m: u64, rest: Seq<char>)
    requires
        rest.len() > 0,
        !is_digit(rest[0]),
        rest[0] != '.',
        rest[0] != 'e',
        rest[0] != 'E',
        m % 1000 != 0,
    ensures
        p_number(ser_duration(m) + rest) == Some((m as int, rest)),
{
    reveal(number_millis);
    let ip = (m / 1000) as nat;
    let f = (m % 1000) as int;
    let a = dec_digits(ip);
    lemma_dec_digits_all(ip);
    lemma_dec_digits_val(ip);
    assert(pow10(17) > 18446744073709551) by {
        reveal_with_fuel(pow10, 18);
    }
    lemma_pow10_values();
    lemma_dec_digits_len(ip, 17);
    let s = ser_duration(m) + rest;
    let fr = frac3(f);
    lemma_frac3_val(f);
    assert(is_digit(fr[0]));
    let t = seq!['.'] + fr + rest;
    assert(s =~= a + t);
    lemma_digit_count_concat(a, t);
    let k = digit_count(s) as int;
    assert(k == a.len());
    assert(s.take(k) =~= a);
    assert(s.skip(k) =~= t);
    assert(t[1] == fr[0]);
    assert(t.skip(1) =~= fr + rest);
    lemma_digit_count_concat(fr, rest);
    let fk = digit_count(t.skip(1)) as int;
    assert(fk == 3);
    assert(t.skip(1).take(3) =~= fr);
    assert(t.skip(1).skip(3) =~= rest);
    // no exponent follows; all three fraction digits contribute
    assert(p_number_exp(a, fr, rest) == Some((number_millis(a, fr, 0), rest)));
    assert(fr.take(3) =~= fr);
    lemma_digits_val_concat(a, fr);
    assert(number_millis(a, fr, 0) == digits_val(a + fr) as int * pow10(0));
    assert(digits_val(a + fr) == ip * 1000 + f);
    assert(ip * 1000 + f == m);
    let pr = p_number(s);
    assert(pr is Some);
    if let Some((vv, rr)) = pr {
        assert(vv == m as int);
        assert(rr =~= rest);
        assert(pr == Some((vv, rr)));
    }
}

/// Reading a serialized interval undoes the serializer: parsing its text
/// followed by anything that does not read as more digits or an exponent
/// yields exactly the interval and the following text.
proof fn lemma_p_number_round(m: u64, rest: Seq<char>)
    requires
        rest.len() > 0,
        !is_digit(rest[0]),
        rest[0] != '.',
        rest[0] != 'e',
        rest[0] != 'E',
    ensures
        p_number(ser_duration(m) + rest) == Some((m as int, rest)),
{
    if m % 1000 == 0 {
        lemma_p_number_round_int(m, rest);
    } else {
        lemma_p_number_round_frac(m, rest);
    }
}

/// Reading the members of a serialized URL array undoes the serializer:
/// each member is folded in with set semantics, and distinct members that
/// are new to the accumulator land appended in order.
proof fn lemma_p_url_items_round(urls: Seq<Seq<char>>, acc: Seq<Seq<char>>, rest: Seq<char>)
    requires
        urls.len() >= 1,
        model_distinct(urls),
        forall|k: int| 0 <= k < urls.len() ==> !acc.contains(#[trigger] urls[k]),
    ensures
        p_url_items(ser_urls(urls) + seq![']'] + rest, acc) == Some((acc + urls, rest)),
    decreases urls.len(),
{
    let s = ser_urls(urls) + seq![']'] + rest;
    let u0 = urls[0];
    assert(!acc.contains(u0));
    if urls.len() == 1 {
        let tail1 = escape(u0) + seq!['"'] + (seq![']'] + rest);
        assert(s =~= seq!['"'] + tail1);
        assert(s.skip(1) =~= tail1);
        lemma_p_str_body_round(u0, seq![']'] + rest);
        let r = seq![']'] + rest;
        assert(r[0] == ']' && !is_ws(r[0]));
        assert(skip_ws(r) == r);
        assert(r.skip(1) =~= rest);
        assert(model_add(acc, u0) == acc.push(u0));
        assert(acc.push(u0) =~= acc + urls);
    } else {
        let urls2 = urls.skip(1);
        let x = ser_urls(urls2) + seq![']'] + rest;
        let tail1 = escape(u0) + seq!['"'] + (seq![','] + x);
        assert(s =~= seq!['"'] + tail1);
        assert(s.skip(1) =~= tail1);
        lemma_p_str_body_round(u0, seq![','] + x);
        let r = seq![','] + x;
        assert(r[0] == ',' && !is_ws(r[0]));
        assert(skip_ws(r) == r);
        assert(r.skip(1) =~= x);
        let acc2 = acc.push(u0);
        assert(model_add(acc, u0) == acc2);
        assert(model_distinct(urls2)) by {
            assert(forall|i: int| 0 <= i < urls2.len() ==> urls2[i] == urls[i + 1]);
        }
        assert(forall|k: int| 0 <= k < urls2.len() ==> !acc2.contains(#[trigger] urls2[k])) by {
            assert forall|k: int| 0 <= k < urls2.len() implies !acc2.contains(
                #[trigger] urls2[k],
            ) by {
                assert(urls2[k] == urls[k + 1]);
                assert(!acc.contains(urls[k + 1]));
                if acc2.contains(urls2[k]) {
                    let i = choose|i: int| 0 <= i < acc2.len() && acc2[i] == urls2[k];
                    if i < acc.len() {
                        assert(acc[i] == urls[k + 1]);
                        assert(acc.contains(urls[k + 1]));
                    } else {
                        assert(acc2[i] == u0);
                        assert(urls[0] != urls[k + 1]);
                    }
                }
            }
        }
        lemma_p_url_items_round(urls2, acc2, rest);
        assert(acc2 + urls2 =~= acc + urls);
    }
}

/// The three field names escape to themselves.
proof fn lemma_keys_plain()
    ensures
        escape(key_duration()) == key_duration(),
        escape(key_urls()) == key_urls(),
        escape(key_url()) == key_url(),
{
    assert(forall|i: int|
        0 <= i < key_duration().len() ==> plain_char(#[trigger] key_duration()[i]));
    assert(forall|i: int| 0 <= i < key_urls().len() ==> plain_char(#[trigger] key_urls()[i]));
    assert(forall|i: int| 0 <= i < key_url().len() ==> plain_char(#[trigger] key_url()[i]));
    lemma_escape_plain(key_duration());
    lemma_escape_plain(key_urls());
    lemma_escape_plain(key_url());
}

/// Reading the serialized `durationSecs` member gives back the interval.
proof fn lemma_member_duration_round(m: ConfigModel, rest: Seq<char>)
    requires
        rest.len() > 0,
        rest[0] == ',',
    ensures
        p_member(member_duration(m) + rest) == Some((Field::Duration(m.duration_millis), rest)),
{
    let s = member_duration(m) + rest;
    let after_key = seq![':'] + (ser_duration(m.duration_millis) + rest);
    lemma_keys_plain();
    assert(s =~= seq!['"'] + (escape(key_duration()) + seq!['"'] + after_key));
    assert(s.skip(1) =~= escape(key_duration()) + seq!['"'] + after_key);
    lemma_p_str_body_round(key_duration(), after_key);
    assert(after_key[0] == ':' && !is_ws(after_key[0]));
    assert(skip_ws(after_key) == after_key);
    let r3s = after_key.skip(1);
    assert(r3s =~= ser_duration(m.duration_millis) + rest);
    lemma_dec_digits_all((m.duration_millis / 1000) as nat);
    assert(r3s[0] == dec_digits((m.duration_millis / 1000) as nat)[0]);
    assert(is_digit(r3s[0]) && !is_ws(r3s[0]));
    assert(skip_ws(r3s) == r3s);
    lemma_p_number_round(m.duration_millis, rest);
}

/// Reading the serialized `urls` member gives back the candidate set.
#[verifier::rlimit(100)]
proof fn lemma_member_urls_round(m: ConfigModel, rest: Seq<char>)
    requires
        rest.len() > 0,
        rest[0] == ',',
        model_distinct(m.urls),
    ensures
        p_member(member_urls(m) + rest) == Some((Field::Urls(m.urls), rest)),
{
    let s = member_urls(m) + rest;
    let after_key = seq![':', '['] + (ser_urls(m.urls) + seq![']'] + rest);
    lemma_keys_plain();
    assert(s =~= seq!['"'] + (escape(key_urls()) + seq!['"'] + after_key));
    assert(s.skip(1) =~= escape(key_urls()) + seq!['"'] + after_key);
    lemma_p_str_body_round(key_urls(), after_key);
    assert(key_urls() != key_duration()) by {
        assert(key_urls().len() == 4 && key_duration().len() == 12);
    }
    assert(after_key[0] == ':' && !is_ws(after_key[0]));
    assert(skip_ws(after_key) == after_key);
    let r3s = after_key.skip(1);
    assert(r3s =~= seq!['['] + (ser_urls(m.urls) + seq![']'] + rest));
    assert(r3s[0] == '[' && !is_ws(r3s[0]));
    assert(skip_ws(r3s) == r3s);
    let inner = r3s.skip(1);
    assert(inner =~= ser_urls(m.urls) + seq![']'] + rest);
    if m.urls.len() == 0 {
        assert(inner =~= seq![']'] + rest);
        assert(inner[0] == ']' && !is_ws(inner[0]));
        assert(skip_ws(inner) == inner);
        assert(inner.skip(1) =~= rest);
        assert(Seq::<Seq<char>>::empty() =~= m.urls);
    } else {
        assert(inner[0] == '"') by {
            assert(ser_urls(m.urls)[0] == '"');
        }
        assert(!is_ws(inner[0]) && inner[0] != ']');
        assert(skip_ws(inner) == inner);
        lemma_p_url_items_round(m.urls, Seq::empty(), rest);
        assert(Seq::<Seq<char>>::empty() + m.urls =~= m.urls);
    }
}

/// Reading the serialized `url` member gives back the selection.
#[verifier::rlimit(100)]
proof fn lemma_member_url_round(m: ConfigModel, rest: Seq<char>)
    ensures
        p_member(member_url(m) + rest) == Some((Field::Url(m.url), rest)),
{
    let s = member_url(m) + rest;
    let after_key = seq![':'] + (ser_string(m.url) + rest);
    lemma_keys_plain();
    assert(s =~= seq!['"'] + (escape(key_url()) + seq!['"'] + after_key));
    assert(s.skip(1) =~= escape(key_url()) + seq!['"'] + after_key);
    lemma_p_str_body_round(key_url(), after_key);
    assert(key_url() != key_duration()) by {
        assert(key_url().len() == 3 && key_duration().len() == 12);
    }
    assert(key_url() != key_urls()) by {
        assert(key_url().len() == 3 && key_urls().len() == 4);
    }
    assert(after_key[0] == ':' && !is_ws(after_key[0]));
    assert(skip_ws(after_key) == after_key);
    let r3s = after_key.skip(1);
    assert(r3s =~= ser_string(m.url) + rest);
    assert(r3s =~= seq!['"'] + (escape(m.url) + seq!['"'] + rest));
    assert(r3s[0] == '"' && !is_ws(r3s[0]));
    assert(skip_ws(r3s) == r3s);
    assert(r3s.skip(1) =~= escape(m.url) + seq!['"'] + rest);
    lemma_p_str_body_round(m.url, rest);
}

/// Saving and loading round-trip: reading back the canonical saved form of
/// any configuration whose candidate URLs are distinct yields exactly that
/// configuration.
#[verifier::rlimit(100)]
pub proof fn lemma_config_round_trip(m: ConfigModel)
    requires
        model_distinct(m.urls),
    ensures
        p_config(ser_config(m)) == Some(m),
{
    let s = ser_config(m);
    let rest3 = seq!['}'];
    let rest2 = seq![','] + (member_url(m) + rest3);
    let rest1 = seq![','] + (member_urls(m) + rest2);
    let s1 = member_duration(m) + rest1;
    assert(s =~= seq!['{'] + s1);
    assert(s[0] == '{' && !is_ws(s[0]));
    assert(skip_ws(s) == s);
    assert(s.skip(1) =~= s1);
    let acc0 = PartialConfig { duration: None, urls: None, url: None };

    // first member: durationSecs
    assert(s1[0] == '"' && !is_ws(s1[0]) && s1[0] != '}') by {
        assert(member_duration(m)[0] == '"');
    }
    assert(skip_ws(s1) == s1);
    lemma_member_duration_round(m, rest1);
    let acc1 = PartialConfig { duration: Some(m.duration_millis), urls: None, url: None };
    assert(apply_field(acc0, Field::Duration(m.duration_millis)) == acc1);
    assert(rest1[0] == ',' && !is_ws(rest1[0]));
    assert(skip_ws(rest1) == rest1);
    let s2 = member_urls(m) + rest2;
    assert(rest1.skip(1) =~= s2);

    // second member: urls
    assert(s2[0] == '"' && !is_ws(s2[0]) && s2[0] != '}') by {
        assert(member_urls(m)[0] == '"');
    }
    assert(skip_ws(s2) == s2);
    lemma_member_urls_round(m, rest2);
    let acc2 = PartialConfig { duration: Some(m.duration_millis), urls: Some(m.urls), url: None };
    assert(apply_field(acc1, Field::Urls(m.urls)) == acc2);
    assert(rest2[0] == ',' && !is_ws(rest2[0]));
    assert(skip_ws(rest2) == rest2);
    let s3 = member_url(m) + rest3;
    assert(rest2.skip(1) =~= s3);

    // third member: url
    assert(s3[0] == '"' && !is_ws(s3[0]) && s3[0] != '}') by {
        assert(member_url(m)[0] == '"');
    }
    assert(skip_ws(s3) == s3);
    lemma_member_url_round(m, rest3);
    let acc3 = PartialConfig {
        duration: Some(m.duration_millis),
        urls: Some(m.urls),
        url: Some(m.url),
    };
    assert(apply_field(acc2, Field::Url(m.url)) == acc3);
    assert(rest3[0] == '}' && !is_ws(rest3[0]));
    assert(skip_ws(rest3) == rest3);
    assert(rest3.skip(1) =~= Seq::<char>::empty());
    assert(p_members(s3, acc2) == Some((acc3, Seq::<char>::empty())));
    assert(p_members(s2, acc1) == Some((acc3, Seq::<char>::empty())));
    assert(p_members(s1, acc0) == Some((acc3, Seq::<char>::empty())));
    assert(skip_ws(Seq::<char>::empty()).len() == 0);
}

// ===== executable serializer =====
/// Relies on str::chars and Iterator::collect: the characters of the
/// string, in order, as a vector.
#[verifier::external_body]
fn string_to_chars(s: &str) -> (r: Vec<char>)
    ensures
        r@ == s@,
{
    s.chars().collect()
}

/// Relies on Iterator::collect for String: the string of exactly these
/// characters, in order.
#[verifier::external_body]
fn chars_to_string(v: &Vec<char>) -> (r: String)
    ensures
        r@ == v@,
{
    v.iter().collect()
}

/// The escaper works piecewise on any split of the text.
proof fn lemma_escape_concat(a: Seq<char>, b: Seq<char>)
    ensures
        escape(a + b) == escape(a) + escape(b),
    decreases a.len(),
{
    if a.len() == 0 {
        assert(a + b =~= b);
        assert(escape(a) + escape(b) =~= escape(b));
    } else {
        assert((a + b)[0] == a[0]);
        assert((a + b).skip(1) =~= a.skip(1) + b);
        lemma_escape_concat(a.skip(1), b);
        assert(esc_char(a[0]) + (escape(a.skip(1)) + escape(b)) =~= (esc_char(a[0]) + escape(
            a.skip(1),
        )) + escape(b));
    }
}

/// Write the decimal digits of `n`.
fn push_dec(n: u64, out: &mut Vec<char>)
    ensures
        final(out)@ == old(out)@ + dec_digits(n as nat),
    decreases n,
{
    if n < 10 {
        let c = ((48 + n as u8)) as char;
        out.push(c);
        assert(c == digit_char(n as int));
        assert(out@ =~= old(out)@ + dec_digits(n as nat));
    } else {
        push_dec(n / 10, out);
        let d = (n % 10) as u8;
        let c = (48 + d) as char;
        out.push(c);
        assert(c == digit_char((n % 10) as int));
        assert(out@ =~= old(out)@ + dec_digits(n as nat));
    }
}

/// Write a millisecond remainder as three fraction digits.
fn push_frac3(f: u64, out: &mut Vec<char>)
    requires
        f < 1000,
    ensures
        final(out)@ == old(out)@ + frac3(f as int),
{
    let c0 = (48 + (f / 100) as u8) as char;
    let c1 = (48 + ((f / 10) % 10) as u8) as char;
    let c2 = (48 + (f % 10) as u8) as char;
    out.push(c0);
    out.push(c1);
    out.push(c2);
    assert(c0 == digit_char(f as int / 100));
    assert(c1 == digit_char((f as int / 10) % 10));
    assert(c2 == digit_char(f as int % 10));
    assert(out@ =~= old(out)@ + frac3(f as int));
}

/// Write the interval as its canonical JSON number.
fn push_duration(m: u64, out: &mut Vec<char>)
    ensures
        final(out)@ == old(out)@ + ser_duration(m),
{
    if m % 1000 == 0 {
        push_dec(m / 1000, out);
    } else {
        push_dec(m / 1000, out);
        out.push('.');
        push_frac3(m % 1000, out);
        assert(out@ =~= old(out)@ + ser_duration(m));
    }
}

/// Write the escaped body of a string.
fn push_escaped(u: &String, out: &mut Vec<char>)
    ensures
        final(out)@ == old(out)@ + escape(u@),
{
    let cs = string_to_chars(u.as_str());
    let ghost v = u@;
    let mut i: usize = 0;
    while i < cs.len()
        invariant
            cs@ == v,
            i <= v.len(),
            out@ == old(out)@ + escape(v.take(i as int)),
        decreases v.len() - i,
    {
        let c = cs[i];
        proof {
            char_bounds(c);
            lemma_escape_concat(v.take(i as int), seq![c]);
            assert(v.take(i as int) + seq![c] =~= v.take(i as int + 1));
            assert(seq![c].skip(1) =~= Seq::<char>::empty());
            assert(escape(Seq::<char>::empty()) == Seq::<char>::empty());
            assert(escape(seq![c]) =~= esc_char(c));
        }
        if c == '"' {
            out.push('\\');
            out.push('"');
        } else if c == '\\' {
            out.push('\\');
            out.push('\\');
        } else {
            let cv = c as u32;
            if cv < 32 {
                out.push('\\');
                out.push('u');
                out.push('0');
                out.push('0');
                let d1 = (cv / 16) as u8;
                let d2 = (cv % 16) as u8;
                let h1 = if d1 < 10 {
                    (48 + d1) as char
                } else {
                    (87 + d1) as char
                };
                let h2 = if d2 < 10 {
                    (48 + d2) as char
                } else {
                    (87 + d2) as char
                };
                out.push(h1);
                out.push(h2);
                proof {
                    assert(c as int == cv as int);
                    assert(h1 == hex_char((c as int) / 16));
                    assert(h2 == hex_char((c as int) % 16));
                }
            } else {
                out.push(c);
                proof {
                    assert(c as int == cv as int);
                    assert(c as int >= 32);
                }
            }
        }
        proof {
            assert(out@ =~= old(out)@ + escape(v.take(i as int + 1)));
        }
        i += 1;
    }
    proof {
        assert(v.take(v.len() as int) =~= v);
    }
}

/// Write one JSON string.
fn push_string(u: &String, out: &mut Vec<char>)
    ensures
        final(out)@ == old(out)@ + ser_string(u@),
{
    out.push('"');
    push_escaped(u, out);
    out.push('"');
    assert(out@ =~= old(out)@ + ser_string(u@));
}

/// Write the members of the `urls` array from index `from` on.
fn push_urls(urls: &Vec<String>, from: usize, out: &mut Vec<char>)
    requires
        from <= urls@.len(),
    ensures
        final(out)@ == old(out)@ + ser_urls(urls@.map_values(|u: String| u@).skip(from as int)),
    decreases urls@.len() - from,
{
    let ghost uv = urls@.map_values(|u: String| u@);
    if from < urls.len() {
        push_string(&urls[from], out);
        proof {
            assert(uv.skip(from as int)[0] == uv[from as int]);
            assert(uv[from as int] == urls@[from as int]@);
        }
        if from + 1 < urls.len() {
            out.push(',');
            push_urls(urls, from + 1, out);
            proof {
                lemma_seq_skip_of_skip(uv, from as int, 1);
                assert(uv.skip(from as int).skip(1) == uv.skip(from as int + 1));
                assert(uv.skip(from as int).len() > 1);
                assert(out@ =~= old(out)@ + ser_urls(uv.skip(from as int)));
            }
        } else {
            proof {
                assert(uv.skip(from as int).len() == 1);
                assert(out@ =~= old(out)@ + ser_urls(uv.skip(from as int)));
            }
        }
    } else {
        proof {
            assert(uv.skip(from as int).len() == 0);
            assert(out@ =~= old(out)@ + ser_urls(uv.skip(from as int)));
        }
    }
}

/// Render the durable configuration of a state as its canonical saved
/// JSON document.
#[verifier::rlimit(60)]
pub fn to_json(s: &crate::state::State) -> (r: String)
    ensures
        r@ == ser_config(s.model()),
{
    let ghost m = s.model();
    let mut out: Vec<char> = Vec::new();
    out.push('{');
    out.push('"');
    out.push('d');
    out.push('u');
    out.push('r');
    out.push('a');
    out.push('t');
    out.push('i');
    out.push('o');
    out.push('n');
    out.push('S');
    out.push('e');
    out.push('c');
    out.push('s');
    out.push('"');
    out.push(':');
    proof {
        assert(out@ =~= seq!['{'] + (seq!['"'] + key_duration() + seq!['"', ':']));
    }
    push_duration(s.duration_millis, &mut out);
    proof {
        assert(out@ =~= seq!['{'] + member_duration(m));
    }
    out.push(',');
    out.push('"');
    out.push('u');
    out.push('r');
    out.push('l');
    out.push('s');
    out.push('"');
    out.push(':');
    out.push('[');
    proof {
        assert(out@ =~= seq!['{'] + member_duration(m) + seq![','] + (seq!['"'] + key_urls()
            + seq!['"', ':', '[']));
    }
    push_urls(&s.image_urls, 0, &mut out);
    out.push(']');
    proof {
        vstd::seq_lib::lemma_seq_skip_nothing(m.urls, 0);
        assert(out@ =~= seq!['{'] + member_duration(m) + seq![','] + member_urls(m));
    }
    out.push(',');
    out.push('"');
    out.push('u');
    out.push('r');
    out.push('l');
    out.push('"');
    out.push(':');
    push_string(&s.image_url, &mut out);
    out.push('}');
    proof {
        assert(out@ =~= seq!['{'] + member_duration(m) + seq![','] + member_urls(m) + seq![',']
            + member_url(m) + seq!['}']);
        assert(out@ =~= ser_config(m));
    }
    chars_to_string(&out)
}

// ===== executable parser =====
/// Relies on char::from_u32: yields the character of a code exactly for
/// Unicode scalar values (everything but the surrogate range).
#[verifier::external_body]
fn char_from_u32(v: u32) -> (r: Option<char>)
    ensures
        (r is Some) == (v < 0xD800 || (0xE000 <= v && v <= 0x10FFFF)),
        r matches Some(c) ==> c == v as char,
{
    char::from_u32(v)
}

/// Move past JSON whitespace.
fn x_skip_ws(v: &Vec<char>, i: usize) -> (j: usize)
    requires
        i <= v@.len(),
    ensures
        i <= j <= v@.len(),
        v@.skip(j as int) == skip_ws(v@.skip(i as int)),
{
    let mut j = i;
    while j < v.len() && (v[j] == ' ' || v[j] == '\t' || v[j] == '\n' || v[j] == '\r')
        invariant
            i <= j <= v@.len(),
            skip_ws(v@.skip(i as int)) == skip_ws(v@.skip(j as int)),
        decreases v@.len() - j,
    {
        proof {
            assert(v@.skip(j as int)[0] == v@[j as int]);
            lemma_seq_skip_of_skip(v@, j as int, 1);
        }
        j += 1;
    }
    proof {
        if j < v.len() {
            assert(v@.skip(j as int)[0] == v@[j as int]);
        }
        assert(skip_ws(v@.skip(j as int)) == v@.skip(j as int));
    }
    j
}

/// The value of a hex digit character, if it is one.
fn x_hex(c: char) -> (r: Option<u8>)
    ensures
        r matches Some(d) ==> hex_digit_val(c) == d as int,
        r is None ==> hex_digit_val(c) == -1,
{
    proof {
        char_bounds(c);
    }
    let cv = c as u32;
    if 48 <= cv && cv <= 57 {
        Some((cv - 48) as u8)
    } else if 97 <= cv && cv <= 102 {
        Some((cv - 87) as u8)
    } else if 65 <= cv && cv <= 70 {
        Some((cv - 55) as u8)
    } else {
        None
    }
}

/// The character of a single-character escape, if the escape is known.
fn x_unescape(e: char) -> (r: Option<char>)
    ensures
        r == unescape_char(e),
{
    if e == '"' {
        Some('"')
    } else if e == '\\' {
        Some('\\')
    } else if e == '/' {
        Some('/')
    } else if e == 'n' {
        Some('\n')
    } else if e == 't' {
        Some('\t')
    } else if e == 'r' {
        Some('\r')
    } else if e == 'b' {
        Some('\u{0008}')
    } else if e == 'f' {
        Some('\u{000C}')
    } else {
        None
    }
}

/// Prepending one decoded character commutes with moving it into the
/// already-decoded prefix.
proof fn lemma_prepend(outv: Seq<char>, c: char, t: Seq<char>)
    ensures
        outv + (seq![c] + t) == outv.push(c) + t,
{
    assert(outv + (seq![c] + t) =~= outv.push(c) + t);
}

/// Read the body of a JSON string after its opening quote, decoding
/// escapes, up to and over the closing quote.
#[verifier::rlimit(100)]
fn x_str_body(v: &Vec<char>, i: usize) -> (r: Option<(Vec<char>, usize)>)
    requires
        i <= v@.len(),
    ensures
        match r {
            Some(oj) => i <= oj.1 <= v@.len() && p_str_body(v@.skip(i as int)) == Some(
                (oj.0@, v@.skip(oj.1 as int)),
            ),
            None => p_str_body(v@.skip(i as int)) is None,
        },
{
    let mut out: Vec<char> = Vec::new();
    let mut j = i;
    loop
        invariant
            i <= j <= v@.len(),
            match p_str_body(v@.skip(j as int)) {
                Some(tr) => p_str_body(v@.skip(i as int)) == Some((out@ + tr.0, tr.1)),
                None => p_str_body(v@.skip(i as int)) is None,
            },
        decreases v@.len() - j,
    {
        let ghost s = v@.skip(j as int);
        if j == v.len() {
            return None;
        }
        let c = v[j];
        proof {
            assert(s[0] == v@[j as int]);
        }
        if c == '"' {
            proof {
                lemma_seq_skip_of_skip(v@, j as int, 1);
                assert(out@ + Seq::<char>::empty() =~= out@);
            }
            return Some((out, j + 1));
        }
        if c == '\\' {
            if j + 1 == v.len() {
                proof {
                    assert(s.len() < 2);
                }
                return None;
            }
            let e = v[j + 1];
            proof {
                assert(s[1] == v@[j as int + 1]);
            }
            if e == 'u' {
                if v.len() - j < 6 {
                    proof {
                        assert(s.len() < 6);
                    }
                    return None;
                }
                proof {
                    assert(s[2] == v@[j as int + 2]);
                    assert(s[3] == v@[j as int + 3]);
                    assert(s[4] == v@[j as int + 4]);
                    assert(s[5] == v@[j as int + 5]);
                }
                let d2 = x_hex(v[j + 2]);
                let d3 = x_hex(v[j + 3]);
                let d4 = x_hex(v[j + 4]);
                let d5 = x_hex(v[j + 5]);
                match (d2, d3, d4, d5) {
                    (Some(a), Some(b), Some(cc), Some(d)) => {
                        let h: u32 = a as u32 * 4096 + b as u32 * 256 + cc as u32 * 16 + d as u32;
                        assert(h as int == hex_quad(s[2], s[3], s[4], s[5]));
                        if h < 0xD800 || 0xE000 <= h {
                            assert(valid_code(h as int));
                            let ch = match char_from_u32(h) {
                                Some(ch) => ch,
                                None => {
                                    proof {
                                        assert(false);
                                    }
                                    '0'
                                },
                            };
                            proof {
                                lemma_seq_skip_of_skip(v@, j as int, 6);
                                if let Some((t, rr)) = p_str_body(v@.skip(j as int + 6)) {
                                    lemma_prepend(out@, ch, t);
                                }
                            }
                            out.push(ch);
                            j += 6;
                        } else if h <= 0xDBFF {
                            // a high surrogate: only a low-surrogate escape
                            // directly after it completes a character
                            assert(is_high_surrogate(h as int) && !valid_code(h as int));
                            if v.len() - j < 12 {
                                proof {
                                    assert(s.len() < 12);
                                }
                                return None;
                            }
                            proof {
                                assert(s[6] == v@[j as int + 6]);
                                assert(s[7] == v@[j as int + 7]);
                                assert(s[8] == v@[j as int + 8]);
                                assert(s[9] == v@[j as int + 9]);
                                assert(s[10] == v@[j as int + 10]);
                                assert(s[11] == v@[j as int + 11]);
                            }
                            if v[j + 6] != '\\' || v[j + 7] != 'u' {
                                return None;
                            }
                            let e8 = x_hex(v[j + 8]);
                            let e9 = x_hex(v[j + 9]);
                            let e10 = x_hex(v[j + 10]);
                            let e11 = x_hex(v[j + 11]);
                            match (e8, e9, e10, e11) {
                                (Some(a2), Some(b2), Some(cc2), Some(d2v)) => {
                                    let l: u32 = a2 as u32 * 4096 + b2 as u32 * 256 + cc2 as u32
                                        * 16 + d2v as u32;
                                    assert(l as int == hex_quad(s[8], s[9], s[10], s[11]));
                                    if 0xDC00 <= l && l <= 0xDFFF {
                                        assert(is_low_surrogate(l as int));
                                        let code: u32 = 0x10000 + (h - 0xD800) * 0x400 + (l
                                            - 0xDC00);
                                        assert(code as int == surrogate_pair_code(
                                            h as int,
                                            l as int,
                                        ));
                                        assert(0x10000 <= code <= 0x10FFFF);
                                        let ch = match char_from_u32(code) {
                                            Some(ch) => ch,
                                            None => {
                                                proof {
                                                    assert(false);
                                                }
                                                '0'
                                            },
                                        };
                                        proof {
                                            lemma_seq_skip_of_skip(v@, j as int, 12);
                                            if let Some((t, rr)) = p_str_body(
                                                v@.skip(j as int + 12),
                                            ) {
                                                lemma_prepend(out@, ch, t);
                                            }
                                        }
                                        out.push(ch);
                                        j += 12;
                                    } else {
                                        assert(!is_low_surrogate(
                                            hex_quad(s[8], s[9], s[10], s[11]),
                                        ));
                                        return None;
                                    }
                                },
                                _ => {
                                    assert(hex_quad(s[8], s[9], s[10], s[11]) == -1);
                                    return None;
                                },
                            }
                        } else {
                            assert(!valid_code(h as int) && !is_high_surrogate(h as int));
                            return None;
                        }
                    },
                    _ => {
                        assert(hex_quad(s[2], s[3], s[4], s[5]) == -1);
                        return None;
                    },
                }
            } else {
                match x_unescape(e) {
                    None => {
                        return None;
                    },
                    Some(c2) => {
                        proof {
                            lemma_seq_skip_of_skip(v@, j as int, 2);
                            if let Some((t, rr)) = p_str_body(v@.skip(j as int + 2)) {
                                lemma_prepend(out@, c2, t);
                            }
                        }
                        out.push(c2);
                        j += 2;
                    },
                }
            }
        } else {
            proof {
                lemma_seq_skip_of_skip(v@, j as int, 1);
                if let Some((t, rr)) = p_str_body(v@.skip(j as int + 1)) {
                    lemma_prepend(out@, c, t);
                }
            }
            out.push(c);
            j += 1;
        }
    }
}

/// Powers of ten do not shrink as the exponent grows.
proof fn lemma_pow10_le(a: nat, b: nat)
    requires
        a <= b,
    ensures
        pow10(a) <= pow10(b),
    decreases b,
{
    if a < b {
        lemma_pow10_le(a, (b - 1) as nat);
        assert(pow10(b) == 10 * pow10((b - 1) as nat));
    }
}

/// The value of a digit run is below the power of ten of its length.
proof fn lemma_digits_val_bound(ds: Seq<char>)
    requires
        forall|p: int| 0 <= p < ds.len() ==> is_digit(#[trigger] ds[p]),
    ensures
        digits_val(ds) < pow10(ds.len() as nat),
    decreases ds.len(),
{
    if ds.len() == 0 {
        assert(pow10(0) == 1);
    } else {
        assert(forall|p: int|
            0 <= p < ds.drop_last().len() ==> is_digit(#[trigger] ds.drop_last()[p]));
        lemma_digits_val_bound(ds.drop_last());
        assert(is_digit(ds.last()));
        assert(pow10(ds.len() as nat) == 10 * pow10((ds.len() - 1) as nat));
    }
}

/// Whether this character is a decimal digit.
fn x_is_digit(c: char) -> (r: bool)
    ensures
        r == is_digit(c),
{
    proof {
        char_bounds(c);
    }
    let cv = c as u32;
    48 <= cv && cv <= 57
}

/// Ten to a small power, executably.
fn pow10_u128(p: usize) -> (r: u128)
    requires
        p <= 38,
    ensures
        r as nat == pow10(p as nat),
{
    let mut r: u128 = 1;
    let mut q: usize = 0;
    while q < p
        invariant
            q <= p <= 38,
            r as nat == pow10(q as nat),
        decreases p - q,
    {
        proof {
            lemma_pow10_le((q + 1) as nat, 38);
            lemma_pow10_values();
            assert(pow10((q + 1) as nat) == 10 * pow10(q as nat));
        }
        r = r * 10;
        q += 1;
    }
    r
}

/// Fold a run of digits into an already-read value.
fn fold_digits(v: &Vec<char>, from: usize, count: usize, acc: u128, Ghost(pre): Ghost<Seq<char>>) -> (r:
    u128)
    requires
        from + count <= v@.len(),
        forall|p: int| from <= p < from + count ==> is_digit(#[trigger] v@[p]),
        forall|p: int| 0 <= p < pre.len() ==> is_digit(#[trigger] pre[p]),
        acc as nat == digits_val(pre),
        pre.len() + count <= 38,
    ensures
        r as nat == digits_val(pre + v@.subrange(from as int, from as int + count)),
{
    let mut val = acc;
    let mut m: usize = 0;
    while m < count
        invariant
            m <= count,
            from + count <= v@.len(),
            pre.len() + count <= 38,
            forall|p: int| from <= p < from + count ==> is_digit(#[trigger] v@[p]),
            forall|p: int| 0 <= p < pre.len() ==> is_digit(#[trigger] pre[p]),
            val as nat == digits_val(pre + v@.subrange(from as int, from as int + m)),
        decreases count - m,
    {
        let n = v.len();
        assert(from + m < n);
        let c = v[from + m];
        proof {
            char_bounds(c);
            lemma_pow10_values();
            let cur = pre + v@.subrange(from as int, from as int + m);
            assert(forall|p: int| 0 <= p < cur.len() ==> is_digit(#[trigger] cur[p]));
            lemma_digits_val_bound(cur);
            lemma_pow10_le(cur.len() as nat, 37);
            let nxt = pre + v@.subrange(from as int, from as int + m + 1);
            assert(nxt.drop_last() =~= cur);
            assert(nxt.last() == v@[from + m]);
            assert(is_digit(nxt.last()));
        }
        let cv = c as u32;
        val = val * 10 + (cv - 48) as u128;
        m += 1;
    }
    val
}

/// Read the optional exponent of a number whose digit runs were read.
fn x_exp(
    v: &Vec<char>,
    j2: usize,
    Ghost(ids): Ghost<Seq<char>>,
    Ghost(fds): Ghost<Seq<char>>,
) -> (r: Option<(bool, u32, usize)>)
    requires
        j2 <= v@.len(),
    ensures
        r is None ==> p_number_exp(ids, fds, v@.skip(j2 as int)) is None,
        r matches Some(t3) ==> j2 <= t3.2 <= v@.len() && t3.1 < 1000 && (!t3.0 ==> t3.1 <= 16)
            && p_number_exp(ids, fds, v@.skip(j2 as int)) == Some(
            (
                number_millis(
                    ids,
                    fds,
                    if t3.0 {
                        -(t3.1 as int)
                    } else {
                        t3.1 as int
                    },
                ),
                v@.skip(t3.2 as int),
            ),
        ),
{
    let ghost sexp = v@.skip(j2 as int);
    if !(j2 < v.len() && (v[j2] == 'e' || v[j2] == 'E')) {
        proof {
            if j2 < v.len() {
                assert(sexp[0] == v@[j2 as int]);
            }
        }
        return Some((false, 0, j2));
    }
    proof {
        assert(sexp[0] == v@[j2 as int]);
        lemma_seq_skip_of_skip(v@, j2 as int, 1);
        lemma_seq_skip_of_skip(v@, j2 as int, 2);
    }
    let mut neg = false;
    let mut p0 = j2 + 1;
    if p0 < v.len() && (v[p0] == '-' || v[p0] == '+') {
        proof {
            assert(sexp[1] == v@[j2 as int + 1]);
        }
        neg = v[p0] == '-';
        p0 = p0 + 1;
    } else {
        proof {
            if j2 + 1 < v.len() {
                assert(sexp[1] == v@[j2 as int + 1]);
            }
        }
    }
    let ghost t = v@.skip(p0 as int);
    // the exponent's digit run
    let mut p1 = p0;
    while p1 < v.len() && x_is_digit(v[p1])
        invariant
            p0 <= p1 <= v@.len(),
            t == v@.skip(p0 as int),
            digit_count(t) == (p1 - p0) + digit_count(v@.skip(p1 as int)),
            forall|p: int| p0 <= p < p1 ==> is_digit(#[trigger] v@[p]),
        decreases v@.len() - p1,
    {
        proof {
            assert(v@.skip(p1 as int)[0] == v@[p1 as int]);
            lemma_seq_skip_of_skip(v@, p1 as int, 1);
        }
        p1 += 1;
    }
    proof {
        if p1 < v.len() {
            assert(v@.skip(p1 as int)[0] == v@[p1 as int]);
        }
        assert(digit_count(v@.skip(p1 as int)) == 0);
    }
    let ek = p1 - p0;
    if ek == 0 || ek > 3 {
        return None;
    }
    let ghost eds = t.take(ek as int);
    proof {
        assert(forall|p: int| 0 <= p < eds.len() ==> eds[p] == v@[p0 + p]);
        assert(forall|p: int| 0 <= p < eds.len() ==> is_digit(#[trigger] eds[p]));
        assert(Seq::<char>::empty() + v@.subrange(p0 as int, p0 as int + ek) =~= eds);
        assert(digits_val(Seq::<char>::empty()) == 0);
        lemma_digits_val_bound(eds);
        lemma_pow10_le(ek as nat, 3);
        lemma_pow10_values();
    }
    let evw = fold_digits(v, p0, ek, 0, Ghost(Seq::empty()));
    assert(evw < 1000);
    let ev = evw as u32;
    if !neg && ev > 16 {
        return None;
    }
    proof {
        lemma_seq_skip_of_skip(v@, p0 as int, ek as int);
        assert(t.skip(ek as int) == v@.skip(p1 as int));
    }
    Some((neg, ev, p1))
}

/// Read a non-negative JSON number as milliseconds.
#[verifier::rlimit(100)]
fn x_number(v: &Vec<char>, i: usize) -> (r: Option<(u128, usize)>)
    requires
        i <= v@.len(),
    ensures
        r matches Some(vj) ==> i <= vj.1 <= v@.len() && p_number(v@.skip(i as int)) == Some(
            (vj.0 as int, v@.skip(vj.1 as int)),
        ) && vj.0 < 100000000000000000000000000000000000000,
        r is None ==> p_number(v@.skip(i as int)) is None,
{
    let ghost s = v@.skip(i as int);
    // the run of integer digits
    let mut j = i;
    while j < v.len() && x_is_digit(v[j])
        invariant
            i <= j <= v@.len(),
            s == v@.skip(i as int),
            digit_count(s) == (j - i) + digit_count(v@.skip(j as int)),
            forall|p: int| i <= p < j ==> is_digit(#[trigger] v@[p]),
        decreases v@.len() - j,
    {
        proof {
            assert(v@.skip(j as int)[0] == v@[j as int]);
            lemma_seq_skip_of_skip(v@, j as int, 1);
        }
        j += 1;
    }
    proof {
        if j < v.len() {
            assert(v@.skip(j as int)[0] == v@[j as int]);
        }
        assert(digit_count(v@.skip(j as int)) == 0);
    }
    let k = j - i;
    if k == 0 || k > 19 {
        return None;
    }
    let ghost ids = s.take(k as int);
    proof {
        assert(forall|p: int| 0 <= p < ids.len() ==> ids[p] == v@[i + p]);
        assert(forall|p: int| 0 <= p < ids.len() ==> is_digit(#[trigger] ids[p]));
        assert(s.skip(k as int) =~= v@.skip(j as int)) by {
            lemma_seq_skip_of_skip(v@, i as int, k as int);
        }
    }
    // the run of fraction digits, if a fraction follows
    let has_frac = j < v.len() && v[j] == '.' && j + 1 < v.len() && x_is_digit(v[j + 1]);
    proof {
        if j < v.len() {
            assert(v@.skip(j as int)[0] == v@[j as int]);
        }
        if j + 1 < v.len() {
            assert(v@.skip(j as int)[1] == v@[j as int + 1]);
        }
        lemma_seq_skip_of_skip(v@, j as int, 1);
    }
    let fs = if has_frac {
        j + 1
    } else {
        j
    };
    let mut j2 = fs;
    if has_frac {
        while j2 < v.len() && x_is_digit(v[j2])
            invariant
                fs <= j2 <= v@.len(),
                digit_count(v@.skip(fs as int)) == (j2 - fs) + digit_count(v@.skip(j2 as int)),
                forall|p: int| fs <= p < j2 ==> is_digit(#[trigger] v@[p]),
            decreases v@.len() - j2,
        {
            proof {
                assert(v@.skip(j2 as int)[0] == v@[j2 as int]);
                lemma_seq_skip_of_skip(v@, j2 as int, 1);
            }
            j2 += 1;
        }
        proof {
            if j2 < v.len() {
                assert(v@.skip(j2 as int)[0] == v@[j2 as int]);
            }
            assert(digit_count(v@.skip(j2 as int)) == 0);
        }
    }
    let fk = j2 - fs;
    let ghost fds = v@.skip(fs as int).take(fk as int);
    proof {
        if has_frac {
            assert(fk >= 1) by {
                assert(is_digit(v@[j as int + 1]));
            }
            assert(v@.skip(j as int).skip(1) == v@.skip(fs as int));
            assert(digit_count(v@.skip(fs as int)) == fk);
            assert(v@.skip(j as int).skip(1).take(fk as int) == fds);
            lemma_seq_skip_of_skip(v@, fs as int, fk as int);
            assert(v@.skip(j as int).skip(1).skip(fk as int) == v@.skip(j2 as int));
        } else {
            assert(fds =~= Seq::<char>::empty());
        }
        assert(forall|p: int| 0 <= p < fds.len() ==> fds[p] == v@[fs + p]);
        assert(forall|p: int| 0 <= p < fds.len() ==> is_digit(#[trigger] fds[p]));
    }
    // the optional exponent
    match x_exp(v, j2, Ghost(ids), Ghost(fds)) {
        None => None,
        Some((neg, ev, j3)) => {
            let millis = number_value(v, i, k, fs, fk, neg, ev);
            Some((millis, j3))
        },
    }
}

/// Scaling a digit value up by a power of ten stays below the power of
/// ten of the combined width.
proof fn lemma_scale_bound(dvv: int, a: nat, p: nat)
    requires
        0 <= dvv < pow10(a),
        a + p <= 38,
    ensures
        0 <= dvv * pow10(p) < pow10(38),
        pow10(p) >= 1,
        pow10(38) == 100000000000000000000000000000000000000,
{
    lemma_pow10_values();
    lemma_pow10_add(a, p);
    lemma_pow10_le(0, p);
    vstd::arithmetic::mul::lemma_mul_strict_inequality(dvv, pow10(a) as int, pow10(p) as int);
    vstd::arithmetic::mul::lemma_mul_nonnegative(dvv, pow10(p) as int);
    lemma_pow10_le((a + p) as nat, 38);
}

/// The value in milliseconds of the number whose digit runs stand at the
/// given positions, computed exactly.
#[verifier::rlimit(100)]
fn number_value(v: &Vec<char>, i: usize, k: usize, fs: usize, fk: usize, neg: bool, ev: u32) -> (r:
    u128)
    requires
        i + k <= v@.len(),
        fs + fk <= v@.len(),
        1 <= k <= 19,
        ev < 1000,
        !neg ==> ev <= 16,
        forall|p: int| i <= p < i + k ==> is_digit(#[trigger] v@[p]),
        forall|p: int| fs <= p < fs + fk ==> is_digit(#[trigger] v@[p]),
    ensures
        r as int == number_millis(
            v@.skip(i as int).take(k as int),
            v@.skip(fs as int).take(fk as int),
            if neg {
                -(ev as int)
            } else {
                ev as int
            },
        ),
        r < 100000000000000000000000000000000000000,
{
    proof {
        reveal(number_millis);
        lemma_pow10_values();
    }
    let ghost ids = v@.skip(i as int).take(k as int);
    let ghost fds = v@.skip(fs as int).take(fk as int);
    proof {
        assert(forall|p: int| 0 <= p < ids.len() ==> ids[p] == v@[i + p]);
        assert(forall|p: int| 0 <= p < ids.len() ==> is_digit(#[trigger] ids[p]));
        assert(forall|p: int| 0 <= p < fds.len() ==> fds[p] == v@[fs + p]);
        assert(forall|p: int| 0 <= p < fds.len() ==> is_digit(#[trigger] fds[p]));
    }
    // which fraction digits sit above the truncation point
    let e3: i64 = if neg {
        3 - ev as i64
    } else {
        3 + ev as i64
    };
    let fd_rel: usize = if e3 <= 0 {
        0
    } else if fk <= e3 as usize {
        fk
    } else {
        e3 as usize
    };
    assert(fd_rel <= fk && fd_rel <= 19);
    // the contributing digits: the integer run, then those fraction digits
    proof {
        assert(Seq::<char>::empty() + v@.subrange(i as int, i as int + k) =~= ids);
        assert(digits_val(Seq::<char>::empty()) == 0);
    }
    let iv = fold_digits(v, i, k, 0, Ghost(Seq::empty()));
    proof {
        assert(forall|p: int|
            0 <= p < fds.take(fd_rel as int).len() ==> is_digit(
                #[trigger] fds.take(fd_rel as int)[p],
            ));
        assert(ids + v@.subrange(fs as int, fs as int + fd_rel) =~= ids + fds.take(fd_rel as int));
    }
    let val = fold_digits(v, fs, fd_rel, iv, Ghost(ids));
    let ghost dall = ids + fds.take(fd_rel as int);
    proof {
        assert(forall|p: int| 0 <= p < dall.len() ==> is_digit(#[trigger] dall[p]));
        lemma_digits_val_bound(dall);
        lemma_pow10_le((k + fd_rel) as nat, 38);
    }
    // scale to milliseconds
    let p_shift: i64 = e3 - fd_rel as i64;
    if p_shift >= 0 {
        assert(p_shift <= 19);
        let pw = pow10_u128(p_shift as usize);
        proof {
            lemma_scale_bound(val as int, (k + fd_rel) as nat, p_shift as nat);
        }
        val * pw
    } else {
        let mneg = (-p_shift) as usize;
        if mneg >= 39 {
            proof {
                lemma_pow10_le(38, mneg as nat);
                vstd::arithmetic::div_mod::lemma_basic_div(val as int, pow10(mneg as nat) as int);
            }
            0
        } else {
            let pw = pow10_u128(mneg);
            proof {
                lemma_pow10_le(0, mneg as nat);
                vstd::arithmetic::div_mod::lemma_div_nonincreasing(
                    val as int,
                    pow10(mneg as nat) as int,
                );
            }
            val / pw
        }
    }
}

/// Consume one unknown JSON value, as the tolerant skipper defines it.
fn x_skip_value(v: &Vec<char>, i: usize) -> (r: Option<usize>)
    requires
        i <= v@.len(),
    ensures
        r matches Some(j) ==> i <= j <= v@.len() && skip_value(v@.skip(i as int), 0, false, false, false)
            == Some(v@.skip(j as int)),
        r is None ==> skip_value(v@.skip(i as int), 0, false, false, false) is None,
{
    let mut j = i;
    let mut depth: usize = 0;
    let mut in_str = false;
    let mut esc = false;
    let mut started = false;
    loop
        invariant
            i <= j <= v@.len(),
            depth <= j - i,
            !in_str ==> !esc,
            skip_value(v@.skip(i as int), 0, false, false, false) == skip_value(
                v@.skip(j as int),
                depth as int,
                in_str,
                esc,
                started,
            ),
        decreases v@.len() - j,
    {
        if j == v.len() {
            return None;
        }
        let c = v[j];
        proof {
            assert(v@.skip(j as int)[0] == v@[j as int]);
            lemma_seq_skip_of_skip(v@, j as int, 1);
        }
        if in_str {
            if esc {
                esc = false;
            } else if c == '\\' {
                esc = true;
            } else if c == '"' {
                if depth == 0 {
                    return Some(j + 1);
                } else {
                    in_str = false;
                }
            }
            started = true;
            j += 1;
        } else if c == '{' || c == '[' {
            depth += 1;
            started = true;
            j += 1;
        } else if c == '}' || c == ']' {
            if depth == 0 {
                if started {
                    return Some(j);
                } else {
                    return None;
                }
            } else if depth == 1 {
                return Some(j + 1);
            } else {
                depth -= 1;
                started = true;
                j += 1;
            }
        } else if c == ',' {
            if depth == 0 {
                if started {
                    return Some(j);
                } else {
                    return None;
                }
            } else {
                started = true;
                j += 1;
            }
        } else if c == '"' {
            in_str = true;
            started = true;
            j += 1;
        } else if c == ' ' || c == '\t' || c == '\n' || c == '\r' {
            if depth == 0 && started {
                return Some(j);
            } else {
                j += 1;
            }
        } else {
            started = true;
            j += 1;
        }
    }
}

/// Whether the key just read names `durationSecs`.
fn key_is_duration(k: &Vec<char>) -> (r: bool)
    ensures
        r == (k@ == key_duration()),
{
    let r = k.len() == 12 && k[0] == 'd' && k[1] == 'u' && k[2] == 'r' && k[3] == 'a' && k[4] == 't'
        && k[5] == 'i' && k[6] == 'o' && k[7] == 'n' && k[8] == 'S' && k[9] == 'e' && k[10] == 'c'
        && k[11] == 's';
    proof {
        if r {
            assert(k@ =~= key_duration());
        }
    }
    r
}

/// Whether the key just read names `urls`.
fn key_is_urls(k: &Vec<char>) -> (r: bool)
    ensures
        r == (k@ == key_urls()),
{
    let r = k.len() == 4 && k[0] == 'u' && k[1] == 'r' && k[2] == 'l' && k[3] == 's';
    proof {
        if r {
            assert(k@ =~= key_urls());
        }
    }
    r
}

/// Whether the key just read names `url`.
fn key_is_url(k: &Vec<char>) -> (r: bool)
    ensures
        r == (k@ == key_url()),
{
    let r = k.len() == 3 && k[0] == 'u' && k[1] == 'r' && k[2] == 'l';
    proof {
        if r {
            assert(k@ =~= key_url());
        }
    }
    r
}

/// Read the members of the `urls` array from its first item on.
fn x_url_items(v: &Vec<char>, i: usize) -> (r: Option<(Vec<String>, usize)>)
    requires
        i <= v@.len(),
    ensures
        r matches Some(uj) ==> i <= uj.1 <= v@.len() && p_url_items(v@.skip(i as int), Seq::empty())
            == Some((uj.0@.map_values(|u: String| u@), v@.skip(uj.1 as int))),
        r is None ==> p_url_items(v@.skip(i as int), Seq::empty()) is None,
{
    let mut acc: Vec<String> = Vec::new();
    let mut j = i;
    proof {
        assert(acc@.map_values(|u: String| u@) =~= Seq::<Seq<char>>::empty());
    }
    loop
        invariant
            i <= j <= v@.len(),
            p_url_items(v@.skip(i as int), Seq::empty()) == p_url_items(
                v@.skip(j as int),
                acc@.map_values(|u: String| u@),
            ),
        decreases v@.len() - j,
    {
        let ghost accv = acc@.map_values(|u: String| u@);
        let t = x_skip_ws(v, j);
        if t == v.len() {
            return None;
        }
        let c = v[t];
        proof {
            assert(v@.skip(t as int)[0] == v@[t as int]);
        }
        if c != '"' {
            return None;
        }
        match x_str_body(v, t + 1) {
            None => {
                proof {
                    lemma_seq_skip_of_skip(v@, t as int, 1);
                }
                return None;
            },
            Some((item, j1)) => {
                proof {
                    lemma_seq_skip_of_skip(v@, t as int, 1);
                }
                let u = chars_to_string(&item);
                // set semantics: drop an item equal to one already taken
                let mut present = false;
                let mut q: usize = 0;
                while q < acc.len()
                    invariant
                        q <= acc@.len(),
                        accv == acc@.map_values(|x: String| x@),
                        present <==> exists|p: int| 0 <= p < q && acc@[p]@ == u@,
                    decreases acc@.len() - q,
                {
                    if acc[q] == u {
                        present = true;
                        proof {
                            assert(acc@[q as int]@ == u@);
                        }
                    }
                    q += 1;
                }
                proof {
                    assert(present == accv.contains(u@)) by {
                        if present {
                            let p = choose|p: int| 0 <= p < acc@.len() && acc@[p]@ == u@;
                            assert(accv[p] == u@);
                        } else if accv.contains(u@) {
                            let p = choose|p: int| 0 <= p < accv.len() && accv[p] == u@;
                            assert(acc@[p]@ == u@);
                        }
                    }
                }
                if !present {
                    acc.push(u);
                    proof {
                        assert(acc@.map_values(|x: String| x@) =~= model_add(accv, item@));
                    }
                } else {
                    proof {
                        assert(acc@.map_values(|x: String| x@) =~= model_add(accv, item@));
                    }
                }
                let j2 = x_skip_ws(v, j1);
                if j2 == v.len() {
                    return None;
                }
                let c2 = v[j2];
                proof {
                    assert(v@.skip(j2 as int)[0] == v@[j2 as int]);
                }
                if c2 == ',' {
                    proof {
                        lemma_seq_skip_of_skip(v@, j2 as int, 1);
                    }
                    j = j2 + 1;
                } else if c2 == ']' {
                    proof {
                        lemma_seq_skip_of_skip(v@, j2 as int, 1);
                    }
                    return Some((acc, j2 + 1));
                } else {
                    return None;
                }
            },
        }
    }
}

// ===== distinctness of what the parser yields =====
/// Folding items in with set semantics keeps the candidate set free of
/// duplicates.
proof fn lemma_p_url_items_distinct(s: Seq<char>, acc: Seq<Seq<char>>)
    requires
        model_distinct(acc),
    ensures
        p_url_items(s, acc) matches Some(ur) ==> model_distinct(ur.0),
    decreases s.len(),
{
    lemma_skip_ws_le(s);
    let t = skip_ws(s);
    if t.len() > 0 && t[0] == '"' {
        lemma_p_str_body_lt(t.skip(1));
        if let Some((vv, r)) = p_str_body(t.skip(1)) {
            let acc2 = model_add(acc, vv);
            assert(model_distinct(acc2)) by {
                if !acc.contains(vv) {
                    assert forall|a: int, b: int| 0 <= a < b < acc2.len() implies acc2[a]
                        != acc2[b] by {
                        if b < acc.len() {
                        } else {
                            assert(acc2[b] == vv);
                            assert(acc2[a] == acc[a]);
                            if acc2[a] == vv {
                                assert(acc.contains(vv));
                            }
                        }
                    }
                }
            }
            lemma_skip_ws_le(r);
            let r2 = skip_ws(r);
            if r2.len() > 0 && r2[0] == ',' {
                lemma_p_url_items_distinct(r2.skip(1), acc2);
            }
        }
    }
}

/// A parsed `urls` member carries no duplicates.
proof fn lemma_p_member_distinct(s: Seq<char>)
    ensures
        p_member(s) matches Some(fr) ==> (fr.0 matches Field::Urls(us) ==> model_distinct(us)),
{
    if s.len() > 0 && s[0] == '"' {
        if let Some((key, r1)) = p_str_body(s.skip(1)) {
            let r2 = skip_ws(r1);
            if r2.len() > 0 && r2[0] == ':' {
                let r3 = skip_ws(r2.skip(1));
                if key == key_duration() {
                } else if key == key_urls() {
                    if r3.len() > 0 && r3[0] == '[' {
                        lemma_p_url_items_distinct(r3.skip(1), Seq::empty());
                    }
                }
            }
        }
    }
}

/// Walking the members keeps any parsed candidate set free of duplicates.
proof fn lemma_p_members_distinct(s: Seq<char>, acc: PartialConfig)
    requires
        acc.urls matches Some(us) ==> model_distinct(us),
    ensures
        p_members(s, acc) matches Some(ar) ==> (ar.0.urls matches Some(us2) ==> model_distinct(
            us2,
        )),
    decreases s.len(),
{
    lemma_skip_ws_le(s);
    let t = skip_ws(s);
    if t.len() > 0 && t[0] != '}' {
        lemma_p_member_lt(t);
        lemma_p_member_distinct(t);
        if let Some((f, r)) = p_member(t) {
            let acc2 = apply_field(acc, f);
            assert(acc2.urls matches Some(us) ==> model_distinct(us));
            lemma_skip_ws_le(r);
            let r2 = skip_ws(r);
            if r2.len() > 0 && r2[0] == ',' {
                lemma_p_members_distinct(r2.skip(1), acc2);
            }
        }
    }
}

/// A well-formed configuration document never yields duplicate candidates.
pub proof fn lemma_p_config_distinct(s: Seq<char>)
    ensures
        p_config(s) matches Some(m) ==> model_distinct(m.urls),
{
    let t = skip_ws(s);
    if t.len() > 0 && t[0] == '{' {
        lemma_p_members_distinct(
            t.skip(1),
            PartialConfig { duration: None, urls: None, url: None },
        );
    }
}

// ===== the document parser =====
/// Failures of loading a saved configuration: the file is missing, or its
/// text is not a well-formed configuration document.
#[derive(Debug, Clone, Copy, PartialEq, Eq, Structural)]
pub enum ConfigError {
    NotFound,
    Parse,
}

/// What one parsed member carries, executably.
enum FieldVal {
    Duration(u64),
    Urls(Vec<String>),
    Url(String),
    Other,
}

/// The mathematical field a parsed member stands for.
spec fn spec_field_of(f: FieldVal) -> Field {
    match f {
        FieldVal::Duration(d) => Field::Duration(d),
        FieldVal::Urls(us) => Field::Urls(us@.map_values(|x: String| x@)),
        FieldVal::Url(u) => Field::Url(u@),
        FieldVal::Other => Field::Other,
    }
}

/// Read one member of the configuration object.
fn x_member(v: &Vec<char>, i: usize) -> (r: Option<(FieldVal, usize)>)
    requires
        i <= v@.len(),
    ensures
        r matches Some(fj) ==> i <= fj.1 <= v@.len() && p_member(v@.skip(i as int)) == Some(
            (spec_field_of(fj.0), v@.skip(fj.1 as int)),
        ),
        r is None ==> p_member(v@.skip(i as int)) is None,
{
    let ghost s = v@.skip(i as int);
    if i == v.len() {
        return None;
    }
    let c = v[i];
    proof {
        assert(s[0] == v@[i as int]);
    }
    if c != '"' {
        return None;
    }
    proof {
        lemma_seq_skip_of_skip(v@, i as int, 1);
    }
    match x_str_body(v, i + 1) {
        None => None,
        Some((key, j1)) => {
            let j2 = x_skip_ws(v, j1);
            if j2 == v.len() {
                return None;
            }
            let c2 = v[j2];
            proof {
                assert(v@.skip(j2 as int)[0] == v@[j2 as int]);
            }
            if c2 != ':' {
                return None;
            }
            proof {
                lemma_seq_skip_of_skip(v@, j2 as int, 1);
            }
            let j3 = x_skip_ws(v, j2 + 1);
            if key_is_duration(&key) {
                match x_number(v, j3) {
                    None => None,
                    Some((millis, j4)) => {
                        if millis > 0xFFFF_FFFF_FFFF_FFFF {
                            return None;
                        }
                        Some((FieldVal::Duration(millis as u64), j4))
                    },
                }
            } else if key_is_urls(&key) {
                if j3 == v.len() {
                    return None;
                }
                let c3 = v[j3];
                proof {
                    assert(v@.skip(j3 as int)[0] == v@[j3 as int]);
                }
                if c3 != '[' {
                    return None;
                }
                proof {
                    lemma_seq_skip_of_skip(v@, j3 as int, 1);
                }
                let j3b = x_skip_ws(v, j3 + 1);
                if j3b < v.len() && v[j3b] == ']' {
                    proof {
                        assert(v@.skip(j3b as int)[0] == v@[j3b as int]);
                        lemma_seq_skip_of_skip(v@, j3b as int, 1);
                    }
                    let us: Vec<String> = Vec::new();
                    proof {
                        assert(us@.map_values(|x: String| x@) =~= Seq::<Seq<char>>::empty());
                    }
                    Some((FieldVal::Urls(us), j3b + 1))
                } else {
                    proof {
                        if j3b < v.len() {
                            assert(v@.skip(j3b as int)[0] == v@[j3b as int]);
                        }
                    }
                    match x_url_items(v, j3 + 1) {
                        None => None,
                        Some((us, j4)) => Some((FieldVal::Urls(us), j4)),
                    }
                }
            } else if key_is_url(&key) {
                if j3 == v.len() {
                    return None;
                }
                let c3 = v[j3];
                proof {
                    assert(v@.skip(j3 as int)[0] == v@[j3 as int]);
                }
                if c3 != '"' {
                    return None;
                }
                proof {
                    lemma_seq_skip_of_skip(v@, j3 as int, 1);
                }
                match x_str_body(v, j3 + 1) {
                    None => None,
                    Some((uchars, j4)) => Some((FieldVal::Url(chars_to_string(&uchars)), j4)),
                }
            } else {
                match x_skip_value(v, j3) {
                    None => None,
                    Some(j4) => Some((FieldVal::Other, j4)),
                }
            }
        },
    }
}

/// The fields gathered so far while walking the object, executably.
struct PartialVals {
    duration: Option<u64>,
    urls: Option<Vec<String>>,
    url: Option<String>,
}

/// The partial configuration these gathered fields stand for.
spec fn partial_of(p: PartialVals) -> PartialConfig {
    PartialConfig {
        duration: p.duration,
        urls: match p.urls {
            Some(x) => Some(x@.map_values(|s: String| s@)),
            None => None,
        },
        url: match p.url {
            Some(x) => Some(x@),
            None => None,
        },
    }
}

/// Walk the members of the configuration object after its opening brace.
#[verifier::rlimit(100)]
fn x_members(v: &Vec<char>, i: usize) -> (r: Option<(PartialVals, usize)>)
    requires
        i <= v@.len(),
    ensures
        r matches Some(pj) ==> i <= pj.1 <= v@.len() && p_members(
            v@.skip(i as int),
            PartialConfig { duration: None, urls: None, url: None },
        ) == Some((partial_of(pj.0), v@.skip(pj.1 as int))),
        r is None ==> p_members(
            v@.skip(i as int),
            PartialConfig { duration: None, urls: None, url: None },
        ) is None,
{
    let mut cur = PartialVals { duration: None, urls: None, url: None };
    let mut j = i;
    loop
        invariant
            i <= j <= v@.len(),
            p_members(v@.skip(i as int), PartialConfig { duration: None, urls: None, url: None })
                == p_members(v@.skip(j as int), partial_of(cur)),
        decreases v@.len() - j,
    {
        let t = x_skip_ws(v, j);
        if t == v.len() {
            return None;
        }
        let c = v[t];
        proof {
            assert(v@.skip(t as int)[0] == v@[t as int]);
        }
        if c == '}' {
            proof {
                lemma_seq_skip_of_skip(v@, t as int, 1);
            }
            return Some((cur, t + 1));
        }
        match x_member(v, t) {
            None => {
                return None;
            },
            Some((f, jr)) => {
                let ghost pre = partial_of(cur);
                let ghost fspec = spec_field_of(f);
                match f {
                    FieldVal::Duration(d) => {
                        cur.duration = Some(d);
                    },
                    FieldVal::Urls(us) => {
                        cur.urls = Some(us);
                    },
                    FieldVal::Url(u) => {
                        cur.url = Some(u);
                    },
                    FieldVal::Other => {},
                }
                proof {
                    assert(partial_of(cur) == apply_field(pre, fspec));
                }
                let j2 = x_skip_ws(v, jr);
                if j2 == v.len() {
                    return None;
                }
                let c2 = v[j2];
                proof {
                    assert(v@.skip(j2 as int)[0] == v@[j2 as int]);
                }
                if c2 == ',' {
                    proof {
                        lemma_seq_skip_of_skip(v@, j2 as int, 1);
                    }
                    j = j2 + 1;
                } else if c2 == '}' {
                    proof {
                        lemma_seq_skip_of_skip(v@, j2 as int, 1);
                    }
                    return Some((cur, j2 + 1));
                } else {
                    return None;
                }
            },
        }
    }
}

/// Read a saved configuration document back into a state.
///
/// The whole text must be one configuration object: `durationSecs` and
/// `urls` must be present, a missing `url` means no selection, unknown
/// fields are ignored, whitespace may stand between any two tokens, and of
/// duplicate fields the last wins. On any other text the load fails and
/// the caller falls back to the default state. The readings are transient,
/// so a loaded state never carries any.
pub fn from_json(text: &str) -> (r: Result<crate::state::State, ConfigError>)
    ensures
        (r is Ok) == (p_config(text@) is Some),
        r matches Ok(st) ==> p_config(text@) == Some(st.model()) && st.wf() && st.th_combine
            is None,
        r matches Err(e) ==> e == ConfigError::Parse,
{
    let cs = string_to_chars(text);
    proof {
        vstd::seq_lib::lemma_seq_skip_nothing(cs@, 0);
    }
    let t = x_skip_ws(&cs, 0);
    if t == cs.len() {
        return Err(ConfigError::Parse);
    }
    let c = cs[t];
    proof {
        assert(cs@.skip(t as int)[0] == cs@[t as int]);
    }
    if c != '{' {
        return Err(ConfigError::Parse);
    }
    proof {
        lemma_seq_skip_of_skip(cs@, t as int, 1);
    }
    match x_members(&cs, t + 1) {
        None => Err(ConfigError::Parse),
        Some((pv, j)) => {
            let j2 = x_skip_ws(&cs, j);
            if j2 != cs.len() {
                proof {
                    assert(skip_ws(cs@.skip(j as int)).len() != 0);
                }
                return Err(ConfigError::Parse);
            }
            let PartialVals { duration, urls, url } = pv;
            match (duration, urls) {
                (Some(d), Some(us)) => {
                    let image_url = match url {
                        Some(u) => u,
                        None => String::new(),
                    };
                    let st = crate::state::State {
                        duration_millis: d,
                        image_urls: us,
                        image_url,
                        th_combine: None,
                    };
                    proof {
                        lemma_p_config_distinct(text@);
                        assert(st.wf()) by {
                            let mu = st.model().urls;
                            assert(model_distinct(mu));
                            assert(forall|a: int|
                                0 <= a < st.image_urls@.len() ==> mu[a] == #[trigger] st
                                    .image_urls@[a]@);
                        }
                    }
                    Ok(st)
                },
                _ => Err(ConfigError::Parse),
            }
        },
    }
}

/// Saving then loading yields an equal configuration: for any well-formed
/// state, reading back the document that `to_json` writes succeeds and
/// yields a state with the same interval, the same candidate URLs in the
/// same order, and the same current selection.
pub proof fn lemma_save_load_round_trip(s: crate::state::State)
    requires
        s.wf(),
    ensures
        p_config(ser_config(s.model())) == Some(s.model()),
{
    let m = s.model();
    assert(model_distinct(m.urls)) by {
        assert(forall|a: int|
            0 <= a < s.image_urls@.len() ==> m.urls[a] == #[trigger] s.image_urls@[a]@);
    }
    lemma_config_round_trip(m);
}

// ===== the sensor readings document =====
pub open spec fn key_temperature() -> Seq<char> {
    seq!['t', 'e', 'm', 'p', 'e', 'r', 'a', 't', 'u', 'r', 'e']
}

pub open spec fn key_humidity() -> Seq<char> {
    seq!['h', 'u', 'm', 'i', 'd', 'i', 't', 'y']
}

/// Parse a JSON number with an optional leading minus, as milli-units.
pub open spec fn p_signed_number(s: Seq<char>) -> Option<(int, Seq<char>)> {
    if s.len() > 0 && s[0] == '-' {
        match p_number(s.skip(1)) {
            None => None,
            Some((mv, r)) => Some((-mv, r)),
        }
    } else {
        p_number(s)
    }
}

/// What one member of the readings object contributed.
pub ghost enum SField {
    Temperature(i64),
    Humidity(i64),
    Other,
}

/// The fields still wanted while walking the readings object; both are
/// required.
pub ghost struct PartialSensor {
    pub temperature: Option<i64>,
    pub humidity: Option<i64>,
}

/// Parse one member of the readings object.
pub open spec fn p_sensor_member(s: Seq<char>) -> Option<(SField, Seq<char>)> {
    if s.len() == 0 || s[0] != '"' {
        None
    } else {
        match p_str_body(s.skip(1)) {
            None => None,
            Some((key, r1)) => {
                let r2 = skip_ws(r1);
                if r2.len() == 0 || r2[0] != ':' {
                    None
                } else {
                    let r3 = skip_ws(r2.skip(1));
                    if key == key_temperature() {
                        match p_signed_number(r3) {
                            None => None,
                            Some((mv, r4)) => if mv > i64::MAX || mv < i64::MIN {
                                None
                            } else {
                                Some((SField::Temperature(mv as i64), r4))
                            },
                        }
                    } else if key == key_humidity() {
                        match p_signed_number(r3) {
                            None => None,
                            Some((mv, r4)) => if mv > i64::MAX || mv < i64::MIN {
                                None
                            } else {
                                Some((SField::Humidity(mv as i64), r4))
                            },
                        }
                    } else {
                        match skip_value(r3, 0, false, false, false) {
                            None => None,
                            Some(r4) => Some((SField::Other, r4)),
                        }
                    }
                }
            },
        }
    }
}

/// Fold one member into the partial readings.
pub open spec fn apply_sensor_field(acc: PartialSensor, f: SField) -> PartialSensor {
    match f {
        SField::Temperature(t) => PartialSensor { temperature: Some(t), ..acc },
        SField::Humidity(h) => PartialSensor { humidity: Some(h), ..acc },
        SField::Other => acc,
    }
}

/// A signed number consumes at least one character.
proof fn lemma_p_signed_number_lt(s: Seq<char>)
    ensures
        p_signed_number(s) matches Some(vr) ==> vr.1.len() < s.len(),
{
    lemma_p_number_lt(s);
    if s.len() > 0 && s[0] == '-' {
        lemma_p_number_lt(s.skip(1));
    }
}

/// A parsed readings member consumes at least the key's opening quote.
proof fn lemma_p_sensor_member_lt(s: Seq<char>)
    ensures
        p_sensor_member(s) matches Some(fr) ==> fr.1.len() < s.len(),
{
    if s.len() > 0 && s[0] == '"' {
        lemma_p_str_body_lt(s.skip(1));
        if let Some((key, r1)) = p_str_body(s.skip(1)) {
            lemma_skip_ws_le(r1);
            let r2 = skip_ws(r1);
            if r2.len() > 0 && r2[0] == ':' {
                lemma_skip_ws_le(r2.skip(1));
                let r3 = skip_ws(r2.skip(1));
                if key == key_temperature() || key == key_humidity() {
                    lemma_p_signed_number_lt(r3);
                } else {
                    lemma_skip_value_le(r3, 0, false, false, false);
                }
            }
        }
    }
}

/// Parse the members of the readings object after its opening brace.
pub open spec fn p_sensor_members(s: Seq<char>, acc: PartialSensor) -> Option<
    (PartialSensor, Seq<char>),
>
    decreases s.len(),
    via p_sensor_members_dec
{
    let t = skip_ws(s);
    if t.len() == 0 {
        None
    } else if t[0] == '}' {
        Some((acc, t.skip(1)))
    } else {
        match p_sensor_member(t) {
            None => None,
            Some((f, r)) => {
                let acc2 = apply_sensor_field(acc, f);
                let r2 = skip_ws(r);
                if r2.len() == 0 {
                    None
                } else if r2[0] == ',' {
                    p_sensor_members(r2.skip(1), acc2)
                } else if r2[0] == '}' {
                    Some((acc2, r2.skip(1)))
                } else {
                    None
                }
            },
        }
    }
}

#[via_fn]
proof fn p_sensor_members_dec(s: Seq<char>, acc: PartialSensor) {
    lemma_skip_ws_le(s);
    let t = skip_ws(s);
    if t.len() > 0 && t[0] != '}' {
        lemma_p_sensor_member_lt(t);
        if let Some((f, r)) = p_sensor_member(t) {
            lemma_skip_ws_le(r);
        }
    }
}

/// What a readings document means, if it is well-formed: one object whose
/// required numeric fields `temperature` and `humidity` are read in
/// milli-units; unknown fields are ignored.
pub open spec fn p_sensor(s: Seq<char>) -> Option<(i64, i64)> {
    let t = skip_ws(s);
    if t.len() == 0 || t[0] != '{' {
        None
    } else {
        match p_sensor_members(t.skip(1), PartialSensor { temperature: None, humidity: None }) {
            None => None,
            Some((acc, r)) => {
                if skip_ws(r).len() != 0 {
                    None
                } else {
                    match (acc.temperature, acc.humidity) {
                        (Some(t2), Some(h)) => Some((t2, h)),
                        _ => None,
                    }
                }
            },
        }
    }
}

/// Read a JSON number with an optional leading minus, as milli-units.
fn x_signed_number(v: &Vec<char>, i: usize) -> (r: Option<(i128, usize)>)
    requires
        i <= v@.len(),
    ensures
        r matches Some(vj) ==> i <= vj.1 <= v@.len() && p_signed_number(v@.skip(i as int)) == Some(
            (vj.0 as int, v@.skip(vj.1 as int)),
        ),
        r is None ==> p_signed_number(v@.skip(i as int)) is None,
{
    if i < v.len() && v[i] == '-' {
        proof {
            assert(v@.skip(i as int)[0] == v@[i as int]);
            lemma_seq_skip_of_skip(v@, i as int, 1);
        }
        match x_number(v, i + 1) {
            None => None,
            Some((mv, j)) => Some((-(mv as i128), j)),
        }
    } else {
        proof {
            if i < v.len() {
                assert(v@.skip(i as int)[0] == v@[i as int]);
            }
        }
        match x_number(v, i) {
            None => None,
            Some((mv, j)) => Some((mv as i128, j)),
        }
    }
}

/// Whether the key just read names `temperature`.
fn key_is_temperature(k: &Vec<char>) -> (r: bool)
    ensures
        r == (k@ == key_temperature()),
{
    let r = k.len() == 11 && k[0] == 't' && k[1] == 'e' && k[2] == 'm' && k[3] == 'p' && k[4] == 'e'
        && k[5] == 'r' && k[6] == 'a' && k[7] == 't' && k[8] == 'u' && k[9] == 'r' && k[10] == 'e';
    proof {
        if r {
            assert(k@ =~= key_temperature());
        }
    }
    r
}

/// Whether the key just read names `humidity`.
fn key_is_humidity(k: &Vec<char>) -> (r: bool)
    ensures
        r == (k@ == key_humidity()),
{
    let r = k.len() == 8 && k[0] == 'h' && k[1] == 'u' && k[2] == 'm' && k[3] == 'i' && k[4] == 'd'
        && k[5] == 'i' && k[6] == 't' && k[7] == 'y';
    proof {
        if r {
            assert(k@ =~= key_humidity());
        }
    }
    r
}

/// What one parsed readings member carries, executably.
enum SFieldVal {
    Temperature(i64),
    Humidity(i64),
    Other,
}

/// The mathematical field a parsed readings member stands for.
spec fn spec_sensor_field_of(f: SFieldVal) -> SField {
    match f {
        SFieldVal::Temperature(t) => SField::Temperature(t),
        SFieldVal::Humidity(h) => SField::Humidity(h),
        SFieldVal::Other => SField::Other,
    }
}

/// Read one member of the readings object.
fn x_sensor_member(v: &Vec<char>, i: usize) -> (r: Option<(SFieldVal, usize)>)
    requires
        i <= v@.len(),
    ensures
        r matches Some(fj) ==> i <= fj.1 <= v@.len() && p_sensor_member(v@.skip(i as int)) == Some(
            (spec_sensor_field_of(fj.0), v@.skip(fj.1 as int)),
        ),
        r is None ==> p_sensor_member(v@.skip(i as int)) is None,
{
    let ghost s = v@.skip(i as int);
    if i == v.len() {
        return None;
    }
    let c = v[i];
    proof {
        assert(s[0] == v@[i as int]);
    }
    if c != '"' {
        return None;
    }
    proof {
        lemma_seq_skip_of_skip(v@, i as int, 1);
    }
    match x_str_body(v, i + 1) {
        None => None,
        Some((key, j1)) => {
            let j2 = x_skip_ws(v, j1);
            if j2 == v.len() {
                return None;
            }
            let c2 = v[j2];
            proof {
                assert(v@.skip(j2 as int)[0] == v@[j2 as int]);
            }
            if c2 != ':' {
                return None;
            }
            proof {
                lemma_seq_skip_of_skip(v@, j2 as int, 1);
            }
            let j3 = x_skip_ws(v, j2 + 1);
            if key_is_temperature(&key) {
                match x_signed_number(v, j3) {
                    None => None,
                    Some((mv, j4)) => {
                        if mv > i64::MAX as i128 || mv < i64::MIN as i128 {
                            return None;
                        }
                        Some((SFieldVal::Temperature(mv as i64), j4))
                    },
                }
            } else if key_is_humidity(&key) {
                match x_signed_number(v, j3) {
                    None => None,
                    Some((mv, j4)) => {
                        if mv > i64::MAX as i128 || mv < i64::MIN as i128 {
                            return None;
                        }
                        Some((SFieldVal::Humidity(mv as i64), j4))
                    },
                }
            } else {
                match x_skip_value(v, j3) {
                    None => None,
                    Some(j4) => Some((SFieldVal::Other, j4)),
                }
            }
        },
    }
}

/// Read a sensor readings document: both numeric fields are required, in
/// any order, with unknown fields ignored. Any malformed text yields
/// nothing, and the ingest loop simply retries later.
#[verifier::rlimit(100)]
pub fn parse_th_combine(text: &str) -> (r: Option<crate::state::ThCombine>)
    ensures
        (r is Some) == (p_sensor(text@) is Some),
        r matches Some(t) ==> p_sensor(text@) == Some((t.temperature_milli, t.humidity_milli)),
{
    let cs = string_to_chars(text);
    proof {
        vstd::seq_lib::lemma_seq_skip_nothing(cs@, 0);
    }
    let t = x_skip_ws(&cs, 0);
    if t == cs.len() {
        return None;
    }
    let c = cs[t];
    proof {
        assert(cs@.skip(t as int)[0] == cs@[t as int]);
    }
    if c != '{' {
        return None;
    }
    proof {
        lemma_seq_skip_of_skip(cs@, t as int, 1);
    }
    let mut temperature: Option<i64> = None;
    let mut humidity: Option<i64> = None;
    let mut j = t + 1;
    loop
        invariant
            j <= cs@.len(),
            cs@ == text@,
            p_sensor_members(
                cs@.skip(t as int + 1),
                PartialSensor { temperature: None, humidity: None },
            ) == p_sensor_members(
                cs@.skip(j as int),
                PartialSensor { temperature, humidity },
            ),
            skip_ws(cs@) == cs@.skip(t as int),
            t < cs@.len(),
            cs@[t as int] == '{',
        decreases cs@.len() - j,
    {
        proof {
            lemma_seq_skip_of_skip(cs@, t as int, 1);
        }
        let t2 = x_skip_ws(&cs, j);
        if t2 == cs.len() {
            return None;
        }
        let c2 = cs[t2];
        proof {
            assert(cs@.skip(t2 as int)[0] == cs@[t2 as int]);
        }
        if c2 == '}' {
            proof {
                lemma_seq_skip_of_skip(cs@, t2 as int, 1);
            }
            let j2 = x_skip_ws(&cs, t2 + 1);
            if j2 != cs.len() {
                proof {
                    assert(skip_ws(cs@.skip(t2 as int + 1)).len() != 0);
                }
                return None;
            }
            match (temperature, humidity) {
                (Some(tm), Some(hm)) => {
                    return Some(
                        crate::state::ThCombine { temperature_milli: tm, humidity_milli: hm },
                    );
                },
                _ => {
                    return None;
                },
            }
        }
        match x_sensor_member(&cs, t2) {
            None => {
                return None;
            },
            Some((f, jr)) => {
                let ghost pre = PartialSensor { temperature, humidity };
                let ghost fspec = spec_sensor_field_of(f);
                match f {
                    SFieldVal::Temperature(tm) => {
                        temperature = Some(tm);
                    },
                    SFieldVal::Humidity(hm) => {
                        humidity = Some(hm);
                    },
                    SFieldVal::Other => {},
                }
                proof {
                    assert(PartialSensor { temperature, humidity } == apply_sensor_field(
                        pre,
                        fspec,
                    ));
                }
                let j2 = x_skip_ws(&cs, jr);
                if j2 == cs.len() {
                    return None;
                }
                let c3 = cs[j2];
                proof {
                    assert(cs@.skip(j2 as int)[0] == cs@[j2 as int]);
                }
                if c3 == ',' {
                    proof {
                        lemma_seq_skip_of_skip(cs@, j2 as int, 1);
                    }
                    j = j2 + 1;
                } else if c3 == '}' {
                    proof {
                        lemma_seq_skip_of_skip(cs@, j2 as int, 1);
                    }
                    let j3 = x_skip_ws(&cs, j2 + 1);
                    if j3 != cs.len() {
                        proof {
                            assert(skip_ws(cs@.skip(j2 as int + 1)).len() != 0);
                        }
                        return None;
                    }
                    match (temperature, humidity) {
                        (Some(tm), Some(hm)) => {
                            return Some(
                                crate::state::ThCombine {
                                    temperature_milli: tm,
                                    humidity_milli: hm,
                                },
                            );
                        },
                        _ => {
                            return None;
                        },
                    }
                } else {
                    return None;
                }
            },
        }
    }
}

} // verus!

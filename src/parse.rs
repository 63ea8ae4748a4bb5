use vstd::prelude::*;
use vstd::std_specs::iter::IteratorSpec;
use crate::value::{Json, Value, view_values, view_entries, push_char, lemma_view_entries_len, lemma_view_entries_index};

verus! {

pub open spec fn is_ws(c: char) -> bool {
    c == ' ' || c == '\t' || c == '\n' || c == '\r'
}

pub open spec fn is_digit(c: char) -> bool {
    '0' <= c && c <= '9'
}

/// The number of whitespace characters starting at position `i`.
pub open spec fn ws_len(s: Seq<char>, i: int) -> nat
    decreases s.len() - i,
{
    if 0 <= i < s.len() && is_ws(s[i]) {
        1 + ws_len(s, i + 1)
    } else {
        0
    }
}

/// The end of the run of decimal digits starting at `i`.
pub open spec fn digits_end(s: Seq<char>, i: int) -> int
    decreases s.len() - i,
{
    if 0 <= i < s.len() && is_digit(s[i]) {
        digits_end(s, i + 1)
    } else {
        i
    }
}

/// The end of the exponent part that may start at `c`, or -1 if it is malformed.
pub open spec fn exponent_end(s: Seq<char>, c: int) -> int {
    if 0 <= c < s.len() && (s[c] == 'e' || s[c] == 'E') {
        let f = if c + 1 < s.len() && (s[c + 1] == '+' || s[c + 1] == '-') { c + 2 } else { c + 1 };
        if f < s.len() && is_digit(s[f]) { digits_end(s, f) } else { -1 }
    } else {
        c
    }
}

/// The end of the number literal starting at `i`, or -1 if there is none:
/// an optional minus, an integer part without leading zeros, an optional fraction, an optional exponent.
pub open spec fn number_end(s: Seq<char>, i: int) -> int {
    let a = if 0 <= i < s.len() && s[i] == '-' { i + 1 } else { i };
    if !(0 <= a < s.len() && is_digit(s[a])) {
        -1
    } else {
        let b = if s[a] == '0' { a + 1 } else { digits_end(s, a) };
        if b < s.len() && s[b] == '.' {
            if b + 1 < s.len() && is_digit(s[b + 1]) {
                exponent_end(s, digits_end(s, b + 1))
            } else {
                -1
            }
        } else {
            exponent_end(s, b)
        }
    }
}

/// A number literal that the grammar reads whole.
pub open spec fn valid_number(n: Seq<char>) -> bool {
    number_end(n, 0) == n.len()
}

/// The value of a hexadecimal digit, or -1.
pub open spec fn hex_val(c: char) -> int {
    if '0' <= c && c <= '9' {
        c as int - '0' as int
    } else if 'a' <= c && c <= 'f' {
        c as int - 'a' as int + 10
    } else if 'A' <= c && c <= 'F' {
        c as int - 'A' as int + 10
    } else {
        -1
    }
}

/// The value of the four hexadecimal digits at `i`, or -1.
pub open spec fn hex4(s: Seq<char>, i: int) -> int {
    if 0 <= i && i + 4 <= s.len() && hex_val(s[i]) >= 0 && hex_val(s[i + 1]) >= 0 && hex_val(s[i + 2]) >= 0
        && hex_val(s[i + 3]) >= 0 {
        hex_val(s[i]) * 4096 + hex_val(s[i + 1]) * 256 + hex_val(s[i + 2]) * 16 + hex_val(s[i + 3])
    } else {
        -1
    }
}

/// The code point of `c`.
pub open spec fn code(c: char) -> int {
    c as int
}

/// The character with code point `n`.
pub open spec fn char_of(n: int) -> char {
    choose|c: char| #[trigger] code(c) == n
}

/// The character that a one-letter escape stands for.
pub open spec fn unescape(e: char) -> Option<char> {
    if e == '"' {
        Some('"')
    } else if e == '\\' {
        Some('\\')
    } else if e == '/' {
        Some('/')
    } else if e == 'b' {
        Some('\x08')
    } else if e == 'f' {
        Some('\x0c')
    } else if e == 'n' {
        Some('\n')
    } else if e == 'r' {
        Some('\r')
    } else if e == 't' {
        Some('\t')
    } else {
        None
    }
}

/// The rest of a string literal from `i` (after its opening quote), with `acc` decoded so far:
/// the decoded characters and the position after the closing quote.
pub open spec fn string_body(s: Seq<char>, i: int, acc: Seq<char>) -> Option<(Seq<char>, int)>
    decreases s.len() - i,
{
    if !(0 <= i < s.len()) {
        None
    } else if s[i] == '"' {
        Some((acc, i + 1))
    } else if s[i] == '\\' {
        if i + 1 >= s.len() {
            None
        } else if s[i + 1] == 'u' {
            let h = hex4(s, i + 2);
            if h < 0 {
                None
            } else if 0xD800 <= h < 0xDC00 {
                let l = if i + 8 < s.len() && s[i + 6] == '\\' && s[i + 7] == 'u' { hex4(s, i + 8) } else { -1 };
                if 0xDC00 <= l < 0xE000 && i + 12 <= s.len() {
                    string_body(s, i + 12, acc.push(char_of(0x10000 + (h - 0xD800) * 1024 + (l - 0xDC00))))
                } else {
                    None
                }
            } else if 0xDC00 <= h < 0xE000 {
                None
            } else if i + 6 <= s.len() {
                string_body(s, i + 6, acc.push(char_of(h)))
            } else {
                None
            }
        } else {
            match unescape(s[i + 1]) {
                Some(c) => string_body(s, i + 2, acc.push(c)),
                None => None,
            }
        }
    } else if (s[i] as u32) < 0x20 {
        None
    } else {
        string_body(s, i + 1, acc.push(s[i]))
    }
}

/// The position of the entry with key `k`, searching from the end, or -1.
pub open spec fn key_index(e: Seq<(Seq<char>, Json)>, k: Seq<char>) -> int
    decreases e.len(),
{
    if e.len() == 0 {
        -1
    } else if e.last().0 == k {
        e.len() - 1
    } else {
        key_index(e.drop_last(), k)
    }
}

/// Adds an entry to an object: a key already present keeps its place and takes the new value.
pub open spec fn insert_entry(e: Seq<(Seq<char>, Json)>, k: Seq<char>, v: Json) -> Seq<(Seq<char>, Json)> {
    let j = key_index(e, k);
    if j < 0 {
        e.push((k, v))
    } else {
        e.update(j, (k, v))
    }
}

/// The value that starts exactly at `i`, with the position after it.
pub open spec fn value_at(s: Seq<char>, i: int) -> Option<(Json, int)>
    decreases s.len() - i, 0int,
{
    if !(0 <= i < s.len()) {
        None
    } else if s[i] == 'n' {
        if i + 4 <= s.len() && s.subrange(i, i + 4) == seq!['n', 'u', 'l', 'l'] {
            Some((Json::Null, i + 4))
        } else {
            None
        }
    } else if s[i] == 't' {
        if i + 4 <= s.len() && s.subrange(i, i + 4) == seq!['t', 'r', 'u', 'e'] {
            Some((Json::Bool(true), i + 4))
        } else {
            None
        }
    } else if s[i] == 'f' {
        if i + 5 <= s.len() && s.subrange(i, i + 5) == seq!['f', 'a', 'l', 's', 'e'] {
            Some((Json::Bool(false), i + 5))
        } else {
            None
        }
    } else if s[i] == '"' {
        match string_body(s, i + 1, Seq::empty()) {
            Some((t, e)) => Some((Json::Str(t), e)),
            None => None,
        }
    } else if s[i] == '-' || is_digit(s[i]) {
        let e = number_end(s, i);
        if e < 0 {
            None
        } else {
            Some((Json::Number(s.subrange(i, e)), e))
        }
    } else if s[i] == '[' {
        let p = i + 1 + ws_len(s, i + 1);
        if p < s.len() && s[p] == ']' {
            Some((Json::Array(Seq::empty()), p + 1))
        } else {
            items_from(s, i + 1, Seq::empty())
        }
    } else if s[i] == '{' {
        let p = i + 1 + ws_len(s, i + 1);
        if p < s.len() && s[p] == '}' {
            Some((Json::Object(Seq::empty()), p + 1))
        } else {
            entries_from(s, i + 1, Seq::empty())
        }
    } else {
        None
    }
}

/// The rest of an array from `i` (after `[` or a comma), with the elements `acc` read so far.
pub open spec fn items_from(s: Seq<char>, i: int, acc: Seq<Json>) -> Option<(Json, int)>
    decreases s.len() - i, 1int,
{
    let p = i + ws_len(s, i);
    if !(0 <= i && p < s.len()) {
        None
    } else {
        match value_at(s, p) {
            Some((v, e)) => {
                let k = e + ws_len(s, e);
                if e <= p || k >= s.len() {
                    None
                } else if s[k] == ',' {
                    items_from(s, k + 1, acc.push(v))
                } else if s[k] == ']' {
                    Some((Json::Array(acc.push(v)), k + 1))
                } else {
                    None
                }
            },
            None => None,
        }
    }
}

/// The rest of an object from `i` (after `{` or a comma), with the entries `acc` read so far.
pub open spec fn entries_from(s: Seq<char>, i: int, acc: Seq<(Seq<char>, Json)>) -> Option<(Json, int)>
    decreases s.len() - i, 1int,
{
    let p = i + ws_len(s, i);
    if !(0 <= i && p < s.len() && s[p] == '"') {
        None
    } else {
        match string_body(s, p + 1, Seq::empty()) {
            Some((key, e1)) => {
                let c = e1 + ws_len(s, e1);
                if e1 <= p || c >= s.len() || s[c] != ':' {
                    None
                } else {
                    let q = c + 1 + ws_len(s, c + 1);
                    if q >= s.len() {
                        None
                    } else {
                        match value_at(s, q) {
                            Some((v, e)) => {
                                let k = e + ws_len(s, e);
                                let next = insert_entry(acc, key, v);
                                if e <= q || k >= s.len() {
                                    None
                                } else if s[k] == ',' {
                                    entries_from(s, k + 1, next)
                                } else if s[k] == '}' {
                                    Some((Json::Object(next), k + 1))
                                } else {
                                    None
                                }
                            },
                            None => None,
                        }
                    }
                }
            },
            None => None,
        }
    }
}

/// The value that the whole text `s` holds, if it is valid JSON text.
pub open spec fn parse_spec(s: Seq<char>) -> Option<Json> {
    let p = ws_len(s, 0) as int;
    match value_at(s, p) {
        Some((v, e)) => if e + ws_len(s, e) == s.len() { Some(v) } else { None },
        None => None,
    }
}

/// What made a text invalid.
#[derive(Clone, Copy, Debug, PartialEq, Eq, Structural)]
pub enum ParseErrorKind {
    /// The text ended where more was needed (this includes empty text).
    UnexpectedEnd,
    /// A character that the grammar does not allow at this place.
    UnexpectedChar,
    /// A malformed number literal.
    InvalidNumber,
    /// A malformed string literal: a bad escape, a lone surrogate or a raw control character.
    InvalidString,
    /// Something other than whitespace after the top-level value.
    TrailingContent,
}

/// Why and where (as a character offset) parsing failed.
#[derive(Clone, Copy, Debug, PartialEq, Eq, Structural)]
pub struct ParseError {
    pub kind: ParseErrorKind,
    pub position: usize,
}

impl ParseError {
    /// A human-readable description of the failure.
    pub fn description(&self) -> &'static str {
        match self.kind {
            ParseErrorKind::UnexpectedEnd => "unexpected end of input",
            ParseErrorKind::UnexpectedChar => "unexpected character",
            ParseErrorKind::InvalidNumber => "invalid number",
            ParseErrorKind::InvalidString => "invalid string literal",
            ParseErrorKind::TrailingContent => "trailing characters after the value",
        }
    }
}

fn fail<T>(kind: ParseErrorKind, position: usize) -> (r: Result<T, ParseError>)
    ensures
        r is Err,
{
    Err(ParseError { kind, position })
}

fn skip_ws(s: &Vec<char>, i: usize) -> (r: usize)
    requires
        i <= s.len(),
    ensures
        r == i + ws_len(s@, i as int),
        r <= s.len(),
{
    let mut j = i;
    while j < s.len() && (s[j] == ' ' || s[j] == '\t' || s[j] == '\n' || s[j] == '\r')
        invariant
            i <= j <= s.len(),
            i + ws_len(s@, i as int) == j + ws_len(s@, j as int),
        decreases s.len() - j,
    {
        j = j + 1;
    }
    j
}

fn scan_digits(s: &Vec<char>, i: usize) -> (r: usize)
    requires
        i <= s.len(),
    ensures
        r == digits_end(s@, i as int),
        i <= r <= s.len(),
{
    let mut j = i;
    while j < s.len() && '0' <= s[j] && s[j] <= '9'
        invariant
            i <= j <= s.len(),
            digits_end(s@, i as int) == digits_end(s@, j as int),
        decreases s.len() - j,
    {
        j = j + 1;
    }
    j
}

fn is_digit_at(s: &Vec<char>, i: usize) -> (r: bool)
    ensures
        r == (i < s.len() && is_digit(s@[i as int])),
{
    i < s.len() && '0' <= s[i] && s[i] <= '9'
}

fn scan_exponent(s: &Vec<char>, c: usize) -> (r: Option<usize>)
    requires
        c <= s.len(),
    ensures
        match r {
            Some(e) => exponent_end(s@, c as int) == e && c <= e <= s.len(),
            None => exponent_end(s@, c as int) < 0,
        },
{
    if c < s.len() && (s[c] == 'e' || s[c] == 'E') {
        let f = if c + 1 < s.len() && (s[c + 1] == '+' || s[c + 1] == '-') { c + 2 } else { c + 1 };
        if is_digit_at(s, f) {
            Some(scan_digits(s, f))
        } else {
            None
        }
    } else {
        Some(c)
    }
}

fn scan_number(s: &Vec<char>, i: usize) -> (r: Option<usize>)
    requires
        i <= s.len(),
    ensures
        match r {
            Some(e) => number_end(s@, i as int) == e && i < e <= s.len(),
            None => number_end(s@, i as int) < 0,
        },
{
    let a = if i < s.len() && s[i] == '-' { i + 1 } else { i };
    if !is_digit_at(s, a) {
        return None;
    }
    let b = if s[a] == '0' { a + 1 } else { scan_digits(s, a + 1) };
    if b < s.len() && s[b] == '.' {
        if is_digit_at(s, b + 1) {
            let d = scan_digits(s, b + 1);
            scan_exponent(s, d)
        } else {
            None
        }
    } else {
        scan_exponent(s, b)
    }
}

/// The characters of `s` from `a` to `b`.
fn copy_range(s: &Vec<char>, a: usize, b: usize) -> (r: String)
    requires
        a <= b <= s.len(),
    ensures
        r@ == s@.subrange(a as int, b as int),
{
    let mut r = String::new();
    let mut j = a;
    while j < b
        invariant
            a <= j <= b <= s.len(),
            r@ == s@.subrange(a as int, j as int),
        decreases b - j,
    {
        push_char(&mut r, s[j]);
        j = j + 1;
        assert(r@ =~= s@.subrange(a as int, j as int));
    }
    r
}

/// Relies on `char::from_u32`: `None` exactly off the Unicode scalar values, else the character with that code.
#[verifier::external_body]
fn char_from_code(n: u32) -> (r: Option<char>)
    ensures
        r is Some <==> (n < 0xD800 || (0xE000 <= n && n < 0x110000)),
        r matches Some(c) ==> code(c) == n,
{
    char::from_u32(n)
}

fn hex_value(c: char) -> (r: Option<u32>)
    ensures
        r is Some <==> hex_val(c) >= 0,
        r matches Some(v) ==> v == hex_val(c),
{
    if '0' <= c && c <= '9' {
        Some(c as u32 - '0' as u32)
    } else if 'a' <= c && c <= 'f' {
        Some(c as u32 - 'a' as u32 + 10)
    } else if 'A' <= c && c <= 'F' {
        Some(c as u32 - 'A' as u32 + 10)
    } else {
        None
    }
}

fn read_hex4(s: &Vec<char>, i: usize) -> (r: Option<u32>)
    requires
        i <= s.len(),
    ensures
        r is Some <==> hex4(s@, i as int) >= 0,
        r matches Some(v) ==> v == hex4(s@, i as int),
{
    if s.len() - i < 4 {
        return None;
    }
    match (hex_value(s[i]), hex_value(s[i + 1]), hex_value(s[i + 2]), hex_value(s[i + 3])) {
        (Some(a), Some(b), Some(c), Some(d)) => Some(a * 4096 + b * 256 + c * 16 + d),
        _ => None,
    }
}

proof fn lemma_char_of(c: char)
    ensures
        char_of(code(c)) == c,
{
    let d = char_of(code(c));
    assert(code(d) == code(c));
}

fn simple_escape(e: char) -> (r: Option<char>)
    ensures
        r == unescape(e),
{
    if e == '"' {
        Some('"')
    } else if e == '\\' {
        Some('\\')
    } else if e == '/' {
        Some('/')
    } else if e == 'b' {
        Some('\x08')
    } else if e == 'f' {
        Some('\x0c')
    } else if e == 'n' {
        Some('\n')
    } else if e == 'r' {
        Some('\r')
    } else if e == 't' {
        Some('\t')
    } else {
        None
    }
}

/// Reads a string literal whose body starts at `start` (after the opening quote).
fn scan_string(s: &Vec<char>, start: usize) -> (r: Result<(String, usize), ParseError>)
    requires
        start <= s.len(),
    ensures
        match r {
            Ok((t, e)) => string_body(s@, start as int, Seq::empty()) == Some((t@, e as int)) && start < e
                <= s.len(),
            Err(_) => string_body(s@, start as int, Seq::empty()) is None,
        },
{
    let mut out = String::new();
    let mut i = start;
    loop
        invariant
            start <= i <= s.len(),
            string_body(s@, start as int, Seq::empty()) == string_body(s@, i as int, out@),
        decreases s.len() - i,
    {
        if i >= s.len() {
            return fail(ParseErrorKind::UnexpectedEnd, i);
        }
        let c = s[i];
        if c == '"' {
            return Ok((out, i + 1));
        } else if c == '\\' {
            if i + 1 >= s.len() {
                return fail(ParseErrorKind::UnexpectedEnd, i);
            }
            let e = s[i + 1];
            if e == 'u' {
                let h = match read_hex4(s, i + 2) {
                    Some(h) => h,
                    None => {
                        return fail(ParseErrorKind::InvalidString, i);
                    },
                };
                if 0xD800 <= h && h < 0xDC00 {
                    let l = if s.len() - i > 8 && s[i + 6] == '\\' && s[i + 7] == 'u' {
                        read_hex4(s, i + 8)
                    } else {
                        None
                    };
                    match l {
                        Some(l) => {
                            if 0xDC00 <= l && l < 0xE000 {
                                match char_from_code(0x10000 + (h - 0xD800) * 1024 + (l - 0xDC00)) {
                                    Some(ch) => {
                                        proof { lemma_char_of(ch); }
                                        push_char(&mut out, ch);
                                        i = i + 12;
                                    },
                                    None => {
                                        return fail(ParseErrorKind::InvalidString, i);
                                    },
                                }
                            } else {
                                return fail(ParseErrorKind::InvalidString, i);
                            }
                        },
                        None => {
                            return fail(ParseErrorKind::InvalidString, i);
                        },
                    }
                } else if 0xDC00 <= h && h < 0xE000 {
                    return fail(ParseErrorKind::InvalidString, i);
                } else {
                    match char_from_code(h) {
                        Some(ch) => {
                            proof { lemma_char_of(ch); }
                            push_char(&mut out, ch);
                            i = i + 6;
                        },
                        None => {
                            return fail(ParseErrorKind::InvalidString, i);
                        },
                    }
                }
            } else {
                match simple_escape(e) {
                    Some(ch) => {
                        push_char(&mut out, ch);
                        i = i + 2;
                    },
                    None => {
                        return fail(ParseErrorKind::InvalidString, i);
                    },
                }
            }
        } else if (c as u32) < 0x20 {
            return fail(ParseErrorKind::InvalidString, i);
        } else {
            push_char(&mut out, c);
            i = i + 1;
        }
    }
}

/// The position of the entry with key `k`, searching from the end.
fn find_key(entries: &Vec<(String, Value)>, k: &String) -> (r: Option<usize>)
    ensures
        match r {
            Some(j) => key_index(view_entries(entries@), k@) == j && j < entries.len(),
            None => key_index(view_entries(entries@), k@) < 0,
        },
{
    let ghost all = view_entries(entries@);
    proof {
        lemma_view_entries_len(entries@);
        assert(all.subrange(0, entries.len() as int) =~= all);
    }
    let mut j = entries.len();
    while j > 0
        invariant
            j <= entries.len() == all.len(),
            all == view_entries(entries@),
            key_index(all, k@) == key_index(all.subrange(0, j as int), k@),
        decreases j,
    {
        proof {
            lemma_view_entries_index(entries@, j - 1);
            assert(all.subrange(0, j as int).drop_last() =~= all.subrange(0, j - 1));
        }
        if entries[j - 1].0 == *k {
            return Some(j - 1);
        }
        j = j - 1;
    }
    None
}

/// Adds an entry to an object under construction, replacing the value of a key already present.
fn add_entry(entries: &mut Vec<(String, Value)>, k: String, v: Value)
    ensures
        view_entries(final(entries)@) == insert_entry(view_entries(old(entries)@), k@, v@),
{
    let ghost before = view_entries(entries@);
    proof { lemma_view_entries_len(entries@); }
    match find_key(entries, &k) {
        Some(j) => {
            let ghost kv = k@;
            let ghost vv = v@;
            entries.set(j, (k, v));
            proof {
                lemma_view_entries_len(entries@);
                assert forall|m: int| 0 <= m < entries@.len() implies view_entries(entries@)[m]
                    == before.update(j as int, (kv, vv))[m] by {
                    lemma_view_entries_index(entries@, m);
                    lemma_view_entries_index(old(entries)@, m);
                }
                assert(view_entries(entries@) =~= before.update(j as int, (kv, vv)));
            }
        },
        None => {
            let ghost old_seq = entries@;
            entries.push((k, v));
            proof {
                assert(entries@.drop_last() =~= old_seq);
            }
        },
    }
}

/// Reads the value that starts exactly at `i`.
fn parse_value_at(s: &Vec<char>, i: usize) -> (r: Result<(Value, usize), ParseError>)
    requires
        i <= s.len(),
    ensures
        match r {
            Ok((v, e)) => value_at(s@, i as int) == Some((v@, e as int)) && i < e <= s.len(),
            Err(_) => value_at(s@, i as int) is None,
        },
    decreases s.len() - i,
{
    if i >= s.len() {
        return fail(ParseErrorKind::UnexpectedEnd, i);
    }
    let c = s[i];
    if c == 'n' {
        if s.len() - i >= 4 && s[i + 1] == 'u' && s[i + 2] == 'l' && s[i + 3] == 'l' {
            assert(s@.subrange(i as int, i + 4) =~= seq!['n', 'u', 'l', 'l']);
            Ok((Value::Null, i + 4))
        } else {
            assert(s.len() - i >= 4 ==> s@.subrange(i as int, i + 4)[1] == s@[i + 1]);
            assert(s.len() - i >= 4 ==> s@.subrange(i as int, i + 4)[2] == s@[i + 2]);
            assert(s.len() - i >= 4 ==> s@.subrange(i as int, i + 4)[3] == s@[i + 3]);
            fail(ParseErrorKind::UnexpectedChar, i)
        }
    } else if c == 't' {
        if s.len() - i >= 4 && s[i + 1] == 'r' && s[i + 2] == 'u' && s[i + 3] == 'e' {
            assert(s@.subrange(i as int, i + 4) =~= seq!['t', 'r', 'u', 'e']);
            Ok((Value::Bool(true), i + 4))
        } else {
            assert(s.len() - i >= 4 ==> s@.subrange(i as int, i + 4)[1] == s@[i + 1]);
            assert(s.len() - i >= 4 ==> s@.subrange(i as int, i + 4)[2] == s@[i + 2]);
            assert(s.len() - i >= 4 ==> s@.subrange(i as int, i + 4)[3] == s@[i + 3]);
            fail(ParseErrorKind::UnexpectedChar, i)
        }
    } else if c == 'f' {
        if s.len() - i >= 5 && s[i + 1] == 'a' && s[i + 2] == 'l' && s[i + 3] == 's' && s[i + 4] == 'e' {
            assert(s@.subrange(i as int, i + 5) =~= seq!['f', 'a', 'l', 's', 'e']);
            Ok((Value::Bool(false), i + 5))
        } else {
            assert(s.len() - i >= 5 ==> s@.subrange(i as int, i + 5)[1] == s@[i + 1]);
            assert(s.len() - i >= 5 ==> s@.subrange(i as int, i + 5)[2] == s@[i + 2]);
            assert(s.len() - i >= 5 ==> s@.subrange(i as int, i + 5)[3] == s@[i + 3]);
            assert(s.len() - i >= 5 ==> s@.subrange(i as int, i + 5)[4] == s@[i + 4]);
            fail(ParseErrorKind::UnexpectedChar, i)
        }
    } else if c == '"' {
        match scan_string(s, i + 1) {
            Ok((t, e)) => Ok((Value::Str(t), e)),
            Err(err) => Err(err),
        }
    } else if c == '-' || ('0' <= c && c <= '9') {
        match scan_number(s, i) {
            Some(e) => Ok((Value::Number(copy_range(s, i, e)), e)),
            None => fail(ParseErrorKind::InvalidNumber, i),
        }
    } else if c == '[' {
        let p = skip_ws(s, i + 1);
        if p < s.len() && s[p] == ']' {
            let items: Vec<Value> = Vec::new();
            assert(view_values(items@) =~= Seq::<Json>::empty());
            return Ok((Value::Array(items), p + 1));
        }
        let mut items: Vec<Value> = Vec::new();
        let mut pos = i + 1;
        assert(view_values(items@) =~= Seq::<Json>::empty());
        loop
            invariant
                i < pos <= s.len(),
                value_at(s@, i as int) == items_from(s@, pos as int, view_values(items@)),
            decreases s.len() - pos,
        {
            let p = skip_ws(s, pos);
            if p >= s.len() {
                return fail(ParseErrorKind::UnexpectedEnd, p);
            }
            let (v, e) = match parse_value_at(s, p) {
                Ok(r) => r,
                Err(err) => {
                    return Err(err);
                },
            };
            let k = skip_ws(s, e);
            if k >= s.len() {
                return fail(ParseErrorKind::UnexpectedEnd, k);
            }
            let ghost before = items@;
            let sep = s[k];
            items.push(v);
            proof {
                assert(items@.drop_last() =~= before);
            }
            if sep == ',' {
                pos = k + 1;
            } else if sep == ']' {
                return Ok((Value::Array(items), k + 1));
            } else {
                return fail(ParseErrorKind::UnexpectedChar, k);
            }
        }
    } else if c == '{' {
        let p = skip_ws(s, i + 1);
        if p < s.len() && s[p] == '}' {
            let entries: Vec<(String, Value)> = Vec::new();
            assert(view_entries(entries@) =~= Seq::<(Seq<char>, Json)>::empty());
            return Ok((Value::Object(entries), p + 1));
        }
        let mut entries: Vec<(String, Value)> = Vec::new();
        let mut pos = i + 1;
        assert(view_entries(entries@) =~= Seq::<(Seq<char>, Json)>::empty());
        loop
            invariant
                i < pos <= s.len(),
                value_at(s@, i as int) == entries_from(s@, pos as int, view_entries(entries@)),
            decreases s.len() - pos,
        {
            let p = skip_ws(s, pos);
            if p >= s.len() {
                return fail(ParseErrorKind::UnexpectedEnd, p);
            }
            if s[p] != '"' {
                return fail(ParseErrorKind::UnexpectedChar, p);
            }
            let (key, e1) = match scan_string(s, p + 1) {
                Ok(r) => r,
                Err(err) => {
                    return Err(err);
                },
            };
            let c2 = skip_ws(s, e1);
            if c2 >= s.len() {
                return fail(ParseErrorKind::UnexpectedEnd, c2);
            }
            if s[c2] != ':' {
                return fail(ParseErrorKind::UnexpectedChar, c2);
            }
            let q = skip_ws(s, c2 + 1);
            if q >= s.len() {
                return fail(ParseErrorKind::UnexpectedEnd, q);
            }
            let (v, e) = match parse_value_at(s, q) {
                Ok(r) => r,
                Err(err) => {
                    return Err(err);
                },
            };
            let k = skip_ws(s, e);
            if k >= s.len() {
                return fail(ParseErrorKind::UnexpectedEnd, k);
            }
            let sep = s[k];
            add_entry(&mut entries, key, v);
            if sep == ',' {
                pos = k + 1;
            } else if sep == '}' {
                return Ok((Value::Object(entries), k + 1));
            } else {
                return fail(ParseErrorKind::UnexpectedChar, k);
            }
        }
    } else {
        fail(ParseErrorKind::UnexpectedChar, i)
    }
}

/// The characters of `s`, in order.
fn chars_of(s: &str) -> (r: Vec<char>)
    ensures r@ == s@,
{
    let mut it = s.chars();
    proof { broadcast use vstd::string::group_string_axioms; }
    let mut r: Vec<char> = Vec::new();
    loop
        invariant
            r@ + it.remaining() == s@,
            it.obeys_prophetic_iter_laws(),
            it.decrease() is Some,
        decreases it.decrease()->0,
    {
        match it.next() {
            Some(c) => { r.push(c); }
            None => { return r; }
        }
    }
}

/// The error of a number that JSON text cannot represent (such as `NaN`, `inf` or `1.`).
#[derive(Clone, Copy, Debug, PartialEq, Eq, Structural)]
pub struct UnrepresentableValue;

/// A number value from its literal, rejected unless it is a valid JSON number literal.
pub fn number_value(literal: &str) -> (r: Result<Value, UnrepresentableValue>)
    ensures
        r is Ok <==> valid_number(literal@),
        r matches Ok(v) ==> v@ == Json::Number(literal@),
{
    let s = chars_of(literal);
    match scan_number(&s, 0) {
        Some(e) => {
            if e == s.len() {
                let t = copy_range(&s, 0, e);
                assert(s@.subrange(0, e as int) =~= s@);
                Ok(Value::Number(t))
            } else {
                Err(UnrepresentableValue)
            }
        },
        None => Err(UnrepresentableValue),
    }
}

/// Parses a complete JSON text.
pub fn parse(text: &str) -> (r: Result<Value, ParseError>)
    ensures
        match r {
            Ok(v) => parse_spec(text@) == Some(v@),
            Err(_) => parse_spec(text@) is None,
        },
{
    let s = chars_of(text);
    let p = skip_ws(&s, 0);
    match parse_value_at(&s, p) {
        Ok((v, e)) => {
            let k = skip_ws(&s, e);
            if k == s.len() {
                Ok(v)
            } else {
                fail(ParseErrorKind::TrailingContent, k)
            }
        },
        Err(err) => Err(err),
    }
}

} // verus!

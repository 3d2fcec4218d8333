//! What a JSON text denotes, and where and why a text that denotes nothing breaks off.
//!
//! Positions count characters from the start of the text.
use crate::json::model::Json;
use crate::table::Name;
use crate::text;
use vstd::prelude::*;

verus! {

/// How deep arrays and objects may be nested.
pub const MAX_DEPTH: usize = 128;

/// Why a text is not JSON.
#[derive(Debug, Clone, Copy, PartialEq, Eq, Structural)]
pub enum ErrorKind {
    /// The text ended where more was needed.
    UnexpectedEnd,
    /// Nothing that starts a value stood where one was needed.
    ExpectedValue,
    /// An object member did not start with a quoted key.
    ExpectedKey,
    /// No colon followed an object key.
    ExpectedColon,
    /// Neither a comma nor a closing brace followed an object member.
    ExpectedCommaOrBrace,
    /// Neither a comma nor a closing bracket followed an array item.
    ExpectedCommaOrBracket,
    /// A word other than `null`, `true` and `false`.
    InvalidLiteral,
    /// A digit was missing in a number.
    InvalidNumber,
    /// A string had no closing quote.
    UnterminatedString,
    /// A control character stood in a string without an escape.
    ControlCharacter,
    /// A backslash was followed by a character that it does not go with.
    InvalidEscape,
    /// A `\u` escape without four hexadecimal digits, or half of a surrogate pair.
    InvalidUnicodeEscape,
    /// Arrays and objects were nested too deep.
    TooDeep,
    /// Something other than white space followed the value.
    TrailingCharacters,
}

/// What was read from a position on: something that ends before another position, or nothing,
/// for a reason that shows at a position.
#[verifier::ext_equal]
pub enum Parsed<T> {
    Done(T, int),
    Fail(ErrorKind, int),
}

/// Whether `c` is white space between the parts of a text.
pub open spec fn is_space(c: char) -> bool {
    c == ' ' || c == '\t' || c == '\n' || c == '\r'
}

/// The first position from `p` on that holds no white space.
pub open spec fn skip_space(s: Seq<char>, p: int) -> int
    decreases s.len() - p,
{
    if 0 <= p < s.len() && is_space(s[p]) {
        skip_space(s, p + 1)
    } else {
        p
    }
}

/// The first position from `p` on that holds no digit.
pub open spec fn digits_end(s: Seq<char>, p: int) -> int
    decreases s.len() - p,
{
    if 0 <= p < s.len() && text::is_digit(s[p]) {
        digits_end(s, p + 1)
    } else {
        p
    }
}

/// The end of the digits before the point of the number whose first digit belongs at `p`: a
/// zero alone, or digits that do not start with a zero.
pub open spec fn whole_part(s: Seq<char>, p: int) -> Parsed<()> {
    if p >= s.len() || !text::is_digit(s[p]) {
        Parsed::Fail(ErrorKind::InvalidNumber, p)
    } else if s[p] == '0' {
        Parsed::Done((), p + 1)
    } else {
        Parsed::Done((), digits_end(s, p))
    }
}

/// The end of the fraction at `p`, or `p` where there is none.
pub open spec fn fraction_part(s: Seq<char>, p: int) -> Parsed<()> {
    if p < s.len() && s[p] == '.' {
        let end = digits_end(s, p + 1);
        if end == p + 1 {
            Parsed::Fail(ErrorKind::InvalidNumber, p + 1)
        } else {
            Parsed::Done((), end)
        }
    } else {
        Parsed::Done((), p)
    }
}

/// The end of the exponent at `p`, or `p` where there is none.
pub open spec fn exponent_part(s: Seq<char>, p: int) -> Parsed<()> {
    if p < s.len() && (s[p] == 'e' || s[p] == 'E') {
        let first = if p + 1 < s.len() && (s[p + 1] == '+' || s[p + 1] == '-') {
            p + 2
        } else {
            p + 1
        };
        let end = digits_end(s, first);
        if end == first {
            Parsed::Fail(ErrorKind::InvalidNumber, first)
        } else {
            Parsed::Done((), end)
        }
    } else {
        Parsed::Done((), p)
    }
}

/// The number at `p`.
pub open spec fn number(s: Seq<char>, p: int) -> Parsed<Seq<char>> {
    let first = if p < s.len() && s[p] == '-' {
        p + 1
    } else {
        p
    };
    match whole_part(s, first) {
        Parsed::Fail(kind, at) => Parsed::Fail(kind, at),
        Parsed::Done(_, a) => match fraction_part(s, a) {
            Parsed::Fail(kind, at) => Parsed::Fail(kind, at),
            Parsed::Done(_, b) => match exponent_part(s, b) {
                Parsed::Fail(kind, at) => Parsed::Fail(kind, at),
                Parsed::Done(_, c) => Parsed::Done(s.subrange(p, c), c),
            },
        },
    }
}

/// The value of a hexadecimal digit.
pub open spec fn hex_value(c: char) -> Option<nat> {
    if '0' <= c <= '9' {
        Some((c as nat - 48) as nat)
    } else if 'a' <= c <= 'f' {
        Some((c as nat - 87) as nat)
    } else if 'A' <= c <= 'F' {
        Some((c as nat - 55) as nat)
    } else {
        None
    }
}

/// The value of the four hexadecimal digits at `p`.
pub open spec fn hex4(s: Seq<char>, p: int) -> Option<nat> {
    if p + 4 > s.len() {
        None
    } else {
        match (hex_value(s[p]), hex_value(s[p + 1]), hex_value(s[p + 2]), hex_value(s[p + 3])) {
            (Some(a), Some(b), Some(c), Some(d)) => Some(a * 4096 + b * 256 + c * 16 + d),
            _ => None,
        }
    }
}

/// The character of the `\u` escape whose backslash stands at `p`.
pub open spec fn unicode_escape(s: Seq<char>, p: int) -> Parsed<char> {
    match hex4(s, p + 2) {
        None => Parsed::Fail(ErrorKind::InvalidUnicodeEscape, p),
        Some(high) => if 0xD800 <= high < 0xDC00 {
            if p + 8 <= s.len() && s[p + 6] == '\\' && s[p + 7] == 'u' {
                match hex4(s, p + 8) {
                    Some(low) => if 0xDC00 <= low < 0xE000 {
                        Parsed::Done(
                            (0x10000 + (high - 0xD800) * 0x400 + (low - 0xDC00)) as char,
                            p + 12,
                        )
                    } else {
                        Parsed::Fail(ErrorKind::InvalidUnicodeEscape, p)
                    },
                    None => Parsed::Fail(ErrorKind::InvalidUnicodeEscape, p),
                }
            } else {
                Parsed::Fail(ErrorKind::InvalidUnicodeEscape, p)
            }
        } else if 0xDC00 <= high < 0xE000 {
            Parsed::Fail(ErrorKind::InvalidUnicodeEscape, p)
        } else {
            Parsed::Done(high as char, p + 6)
        },
    }
}

/// The character of the escape whose backslash stands at `p`.
pub open spec fn escape(s: Seq<char>, p: int) -> Parsed<char> {
    if p + 1 >= s.len() {
        Parsed::Fail(ErrorKind::UnterminatedString, p + 1)
    } else {
        let c = s[p + 1];
        if c == '"' || c == '\\' || c == '/' {
            Parsed::Done(c, p + 2)
        } else if c == 'n' {
            Parsed::Done('\n', p + 2)
        } else if c == 'r' {
            Parsed::Done('\r', p + 2)
        } else if c == 't' {
            Parsed::Done('\t', p + 2)
        } else if c == 'b' {
            Parsed::Done('\u{8}', p + 2)
        } else if c == 'f' {
            Parsed::Done('\u{c}', p + 2)
        } else if c == 'u' {
            unicode_escape(s, p)
        } else {
            Parsed::Fail(ErrorKind::InvalidEscape, p)
        }
    }
}

/// The rest, from `p` on, of a string whose opening quote was passed.
pub open spec fn string(s: Seq<char>, p: int) -> Parsed<Seq<char>>
    decreases s.len() - p,
{
    if p < 0 || p >= s.len() {
        Parsed::Fail(ErrorKind::UnterminatedString, p)
    } else if s[p] == '"' {
        Parsed::Done(Seq::empty(), p + 1)
    } else if s[p] == '\\' {
        match escape(s, p) {
            Parsed::Fail(kind, at) => Parsed::Fail(kind, at),
            Parsed::Done(c, q) => preceded(c, string(s, q)),
        }
    } else if s[p] <= '\u{1f}' {
        Parsed::Fail(ErrorKind::ControlCharacter, p)
    } else {
        preceded(s[p], string(s, p + 1))
    }
}

/// `rest` with one more item in front.
pub open spec fn preceded<T>(first: T, rest: Parsed<Seq<T>>) -> Parsed<Seq<T>> {
    match rest {
        Parsed::Fail(kind, at) => Parsed::Fail(kind, at),
        Parsed::Done(items, end) => Parsed::Done(seq![first] + items, end),
    }
}

/// `value`, where the characters at `p` are those of `word`.
pub open spec fn literal(s: Seq<char>, p: int, word: Seq<char>, value: Json) -> Parsed<Json> {
    if p + word.len() <= s.len() && s.subrange(p, p + word.len()) == word {
        Parsed::Done(value, p + word.len())
    } else {
        Parsed::Fail(ErrorKind::InvalidLiteral, p)
    }
}

/// The value at or after `p`, in which arrays and objects may be nested `room` deep.
pub open spec fn value(s: Seq<char>, p: int, room: nat) -> Parsed<Json>
    decreases room, s.len() - p, 0nat,
{
    let q = skip_space(s, p);
    if q >= s.len() {
        Parsed::Fail(ErrorKind::UnexpectedEnd, q)
    } else if s[q] == 'n' {
        literal(s, q, seq!['n', 'u', 'l', 'l'], Json::Null)
    } else if s[q] == 't' {
        literal(s, q, seq!['t', 'r', 'u', 'e'], Json::Bool(true))
    } else if s[q] == 'f' {
        literal(s, q, seq!['f', 'a', 'l', 's', 'e'], Json::Bool(false))
    } else if s[q] == '"' {
        match string(s, q + 1) {
            Parsed::Fail(kind, at) => Parsed::Fail(kind, at),
            Parsed::Done(chars, end) => Parsed::Done(Json::Text(chars), end),
        }
    } else if s[q] == '-' || text::is_digit(s[q]) {
        match number(s, q) {
            Parsed::Fail(kind, at) => Parsed::Fail(kind, at),
            Parsed::Done(lexeme, end) => Parsed::Done(Json::Number(lexeme), end),
        }
    } else if s[q] == '[' {
        if room == 0 {
            Parsed::Fail(ErrorKind::TooDeep, q)
        } else {
            let r = skip_space(s, q + 1);
            if r < s.len() && s[r] == ']' {
                Parsed::Done(Json::Array(Seq::empty()), r + 1)
            } else {
                match items(s, q + 1, (room - 1) as nat) {
                    Parsed::Fail(kind, at) => Parsed::Fail(kind, at),
                    Parsed::Done(list, end) => Parsed::Done(Json::Array(list), end),
                }
            }
        }
    } else if s[q] == '{' {
        if room == 0 {
            Parsed::Fail(ErrorKind::TooDeep, q)
        } else {
            let r = skip_space(s, q + 1);
            if r < s.len() && s[r] == '}' {
                Parsed::Done(Json::Object(Seq::empty()), r + 1)
            } else {
                match members(s, q + 1, (room - 1) as nat) {
                    Parsed::Fail(kind, at) => Parsed::Fail(kind, at),
                    Parsed::Done(list, end) => Parsed::Done(Json::Object(list), end),
                }
            }
        }
    } else {
        Parsed::Fail(ErrorKind::ExpectedValue, q)
    }
}

/// The items of an array from `p` on, to its closing bracket.
pub open spec fn items(s: Seq<char>, p: int, room: nat) -> Parsed<Seq<Json>>
    decreases room, s.len() - p, 1nat,
{
    match value(s, p, room) {
        Parsed::Fail(kind, at) => Parsed::Fail(kind, at),
        Parsed::Done(v, q) => {
            let r = skip_space(s, q);
            if r >= s.len() {
                Parsed::Fail(ErrorKind::UnexpectedEnd, r)
            } else if s[r] == ',' && p <= r {
                preceded(v, items(s, r + 1, room))
            } else if s[r] == ']' {
                Parsed::Done(seq![v], r + 1)
            } else {
                Parsed::Fail(ErrorKind::ExpectedCommaOrBracket, r)
            }
        },
    }
}

/// The members of an object from `p` on, to its closing brace.
pub open spec fn members(s: Seq<char>, p: int, room: nat) -> Parsed<Seq<(Name, Json)>>
    decreases room, s.len() - p, 1nat,
{
    match key(s, p) {
        Parsed::Fail(kind, at) => Parsed::Fail(kind, at),
        Parsed::Done(name, a) => if a <= p {
            Parsed::Fail(ErrorKind::ExpectedKey, a)
        } else {
            match value(s, a, room) {
                Parsed::Fail(kind, at) => Parsed::Fail(kind, at),
                Parsed::Done(v, q) => {
                    let r = skip_space(s, q);
                    if r >= s.len() {
                        Parsed::Fail(ErrorKind::UnexpectedEnd, r)
                    } else if s[r] == ',' && p <= r {
                        preceded((name, v), members(s, r + 1, room))
                    } else if s[r] == '}' {
                        Parsed::Done(seq![(name, v)], r + 1)
                    } else {
                        Parsed::Fail(ErrorKind::ExpectedCommaOrBrace, r)
                    }
                },
            }
        },
    }
}

/// The key of an object member at or after `p`, with the colon behind it.
pub open spec fn key(s: Seq<char>, p: int) -> Parsed<Name> {
    let r = skip_space(s, p);
    if r >= s.len() {
        Parsed::Fail(ErrorKind::UnexpectedEnd, r)
    } else if s[r] != '"' {
        Parsed::Fail(ErrorKind::ExpectedKey, r)
    } else {
        match string(s, r + 1) {
            Parsed::Fail(kind, at) => Parsed::Fail(kind, at),
            Parsed::Done(name, e) => {
                let c = skip_space(s, e);
                if c >= s.len() {
                    Parsed::Fail(ErrorKind::UnexpectedEnd, c)
                } else if s[c] != ':' {
                    Parsed::Fail(ErrorKind::ExpectedColon, c)
                } else {
                    Parsed::Done(name, c + 1)
                }
            },
        }
    }
}

/// The value that the whole text `s` denotes; otherwise why it denotes none, with the byte
/// offset at which that shows.
pub open spec fn document(s: Seq<char>) -> Result<Json, (ErrorKind, nat)> {
    match value(s, 0, MAX_DEPTH as nat) {
        Parsed::Fail(kind, at) => Err((kind, text::byte_offset(s, at))),
        Parsed::Done(v, q) => {
            let end = skip_space(s, q);
            if end < s.len() {
                Err((ErrorKind::TrailingCharacters, text::byte_offset(s, end)))
            } else {
                Ok(v)
            }
        },
    }
}

// ---------------------------------------------------------------------------------------------
// Positions
// ---------------------------------------------------------------------------------------------

pub proof fn lemma_skip_space(s: Seq<char>, p: int)
    requires
        0 <= p <= s.len(),
    ensures
        p <= skip_space(s, p) <= s.len(),
        skip_space(s, p) < s.len() ==> !is_space(s[skip_space(s, p)]),
    decreases s.len() - p,
{
    if p < s.len() && is_space(s[p]) {
        lemma_skip_space(s, p + 1);
    }
}

pub proof fn lemma_digits_end(s: Seq<char>, p: int)
    requires
        0 <= p <= s.len(),
    ensures
        p <= digits_end(s, p) <= s.len(),
        forall|i: int| p <= i < digits_end(s, p) ==> text::is_digit(#[trigger] s[i]),
        digits_end(s, p) < s.len() ==> !text::is_digit(s[digits_end(s, p)]),
    decreases s.len() - p,
{
    if p < s.len() && text::is_digit(s[p]) {
        lemma_digits_end(s, p + 1);
    }
}

/// Whether what was read from `p` on ends behind `p`, and a failure shows at a position of `s`.
pub open spec fn moves_on<T>(s: Seq<char>, p: int, parsed: Parsed<T>) -> bool {
    match parsed {
        Parsed::Done(_, q) => p < q <= s.len(),
        Parsed::Fail(_, at) => p <= at <= s.len(),
    }
}

pub proof fn lemma_number_moves(s: Seq<char>, p: int)
    requires
        0 <= p < s.len(),
    ensures
        moves_on(s, p, number(s, p)),
{
    let first = if s[p] == '-' {
        p + 1
    } else {
        p
    };
    if first < s.len() {
        lemma_digits_end(s, first);
        match whole_part(s, first) {
            Parsed::Done(_, a) => {
                if text::is_digit(s[first]) {
                    assert(digits_end(s, first) == digits_end(s, first + 1));
                    lemma_digits_end(s, first + 1);
                }
                if a < s.len() {
                    lemma_digits_end(s, a + 1);
                }
                match fraction_part(s, a) {
                    Parsed::Done(_, b) => {
                        if b < s.len() {
                            lemma_digits_end(s, b + 1);
                            if b + 1 < s.len() {
                                lemma_digits_end(s, b + 2);
                            }
                        }
                    },
                    Parsed::Fail(_, _) => {},
                }
            },
            Parsed::Fail(_, _) => {},
        }
    }
}

pub proof fn lemma_escape_moves(s: Seq<char>, p: int)
    requires
        0 <= p < s.len(),
    ensures
        moves_on(s, p, escape(s, p)),
{
}

pub proof fn lemma_string_moves(s: Seq<char>, p: int)
    requires
        0 <= p <= s.len(),
    ensures
        moves_on(s, p, string(s, p)),
    decreases s.len() - p,
{
    if p < s.len() {
        if s[p] == '\\' {
            lemma_escape_moves(s, p);
            match escape(s, p) {
                Parsed::Done(_, q) => {
                    lemma_string_moves(s, q);
                },
                Parsed::Fail(_, _) => {},
            }
        } else {
            lemma_string_moves(s, p + 1);
        }
    }
}

pub proof fn lemma_key_moves(s: Seq<char>, p: int)
    requires
        0 <= p <= s.len(),
    ensures
        moves_on(s, p, key(s, p)),
{
    lemma_skip_space(s, p);
    let r = skip_space(s, p);
    if r < s.len() {
        lemma_string_moves(s, r + 1);
        match string(s, r + 1) {
            Parsed::Done(_, e) => {
                lemma_skip_space(s, e);
            },
            Parsed::Fail(_, _) => {},
        }
    }
}

pub proof fn lemma_value_moves(s: Seq<char>, p: int, room: nat)
    requires
        0 <= p <= s.len(),
    ensures
        moves_on(s, p, value(s, p, room)),
    decreases room, s.len() - p, 0nat,
{
    lemma_skip_space(s, p);
    let q = skip_space(s, p);
    if q < s.len() {
        lemma_skip_space(s, q + 1);
        if s[q] == '"' {
            lemma_string_moves(s, q + 1);
        } else if s[q] == '-' || text::is_digit(s[q]) {
            lemma_number_moves(s, q);
        } else if s[q] == '[' && room > 0 {
            lemma_items_move(s, q + 1, (room - 1) as nat);
        } else if s[q] == '{' && room > 0 {
            lemma_members_move(s, q + 1, (room - 1) as nat);
        }
    }
}

pub proof fn lemma_items_move(s: Seq<char>, p: int, room: nat)
    requires
        0 <= p <= s.len(),
    ensures
        moves_on(s, p, items(s, p, room)),
    decreases room, s.len() - p, 1nat,
{
    lemma_value_moves(s, p, room);
    match value(s, p, room) {
        Parsed::Done(_, q) => {
            lemma_skip_space(s, q);
            let r = skip_space(s, q);
            if r < s.len() {
                lemma_items_move(s, r + 1, room);
            }
        },
        Parsed::Fail(_, _) => {},
    }
}

pub proof fn lemma_members_move(s: Seq<char>, p: int, room: nat)
    requires
        0 <= p <= s.len(),
    ensures
        moves_on(s, p, members(s, p, room)),
    decreases room, s.len() - p, 1nat,
{
    lemma_key_moves(s, p);
    match key(s, p) {
        Parsed::Done(_, a) => {
            lemma_value_moves(s, a, room);
            match value(s, a, room) {
                Parsed::Done(_, q) => {
                    lemma_skip_space(s, q);
                    let r = skip_space(s, q);
                    if r < s.len() {
                        lemma_members_move(s, r + 1, room);
                    }
                },
                Parsed::Fail(_, _) => {},
            }
        },
        Parsed::Fail(_, _) => {},
    }
}

} // verus!

//! A strict JSON parser that reports the byte offset of whatever broke.
use crate::text;
use crate::text::{chars_of, offset_of, parse_i64, same_text, substring};
use crate::table::Name;
use grammar::Parsed;
use model::Json;
use vstd::prelude::*;

pub mod failures;
pub mod grammar;
pub mod laws;
pub mod model;
pub mod nested;
pub mod shift;
pub mod spelling;
pub mod structure;
pub mod travel;
pub mod written;

pub use grammar::{ErrorKind, MAX_DEPTH};

verus! {

/// A JSON value.
///
/// A number keeps the characters that it was written with, so that nothing of it is lost; an
/// object keeps its members in the order in which they were written.
#[derive(Debug)]
pub enum Value {
    Null,
    Bool(bool),
    Number(String),
    Text(String),
    Array(Vec<Value>),
    Object(Vec<(String, Value)>),
}

impl View for Value {
    type V = Json;

    open spec fn view(&self) -> Json {
        model_of(*self)
    }
}

/// The value that `v` stands for.
pub open spec fn model_of(v: Value) -> Json
    decreases v, 0nat,
{
    match v {
        Value::Null => Json::Null,
        Value::Bool(b) => Json::Bool(b),
        Value::Number(lexeme) => Json::Number(lexeme@),
        Value::Text(s) => Json::Text(s@),
        Value::Array(items) => Json::Array(items_model(items@)),
        Value::Object(members) => Json::Object(members_model(members@)),
    }
}

/// The values that `items` stand for.
pub open spec fn items_model(items: Seq<Value>) -> Seq<Json>
    decreases items, items.len(),
{
    if items.len() == 0 {
        Seq::empty()
    } else {
        items_model(items.drop_last()).push(model_of(items.last()))
    }
}

/// The members that `members` stand for.
pub open spec fn members_model(members: Seq<(String, Value)>) -> Seq<(Name, Json)>
    decreases members, members.len(),
{
    if members.len() == 0 {
        Seq::empty()
    } else {
        members_model(members.drop_last()).push((members.last().0@, model_of(members.last().1)))
    }
}

/// An array of values stands for the array of what they stand for.
pub proof fn lemma_items_model(items: Seq<Value>)
    ensures
        items_model(items).len() == items.len(),
        forall|i: int| 0 <= i < items.len() ==> #[trigger] items_model(items)[i] == items[i]@,
    decreases items.len(),
{
    if items.len() > 0 {
        lemma_items_model(items.drop_last());
    }
}

/// Members stand for the names with what the values stand for.
pub proof fn lemma_members_model(members: Seq<(String, Value)>)
    ensures
        members_model(members).len() == members.len(),
        forall|i: int|
            0 <= i < members.len() ==> #[trigger] members_model(members)[i] == (
                members[i].0@,
                members[i].1@,
            ),
    decreases members.len(),
{
    if members.len() > 0 {
        lemma_members_model(members.drop_last());
    }
}

/// One more item stands for one more value.
pub proof fn lemma_items_push(items: Seq<Value>, v: Value)
    ensures
        items_model(items.push(v)) == items_model(items).push(v@),
{
    assert(items.push(v).drop_last() =~= items);
}

/// One more member stands for one more name and value.
pub proof fn lemma_members_push(members: Seq<(String, Value)>, m: (String, Value))
    ensures
        members_model(members.push(m)) == members_model(members).push((m.0@, m.1@)),
{
    assert(members.push(m).drop_last() =~= members);
}

/// A text that is not JSON.
#[derive(Debug, Clone, Copy, PartialEq, Eq)]
pub struct ParseError {
    /// Byte offset at which the problem showed.
    pub offset: usize,
    /// What the problem is.
    pub kind: ErrorKind,
}

/// The words for an [`ErrorKind`].
pub open spec fn reason(kind: ErrorKind) -> Seq<char> {
    match kind {
        ErrorKind::UnexpectedEnd => "unexpected end of input"@,
        ErrorKind::ExpectedValue => "expected a value"@,
        ErrorKind::ExpectedKey => "expected a quoted object key"@,
        ErrorKind::ExpectedColon => "expected ':' after an object key"@,
        ErrorKind::ExpectedCommaOrBrace => "expected ',' or '}' after an object member"@,
        ErrorKind::ExpectedCommaOrBracket => "expected ',' or ']' after an array item"@,
        ErrorKind::InvalidLiteral => "invalid literal"@,
        ErrorKind::InvalidNumber => "invalid number"@,
        ErrorKind::UnterminatedString => "unterminated string"@,
        ErrorKind::ControlCharacter => "unescaped control character in a string"@,
        ErrorKind::InvalidEscape => "invalid escape sequence"@,
        ErrorKind::InvalidUnicodeEscape => "invalid unicode escape"@,
        ErrorKind::TooDeep => "nesting is too deep"@,
        ErrorKind::TrailingCharacters => "trailing characters after the value"@,
    }
}

impl ErrorKind {
    /// The problem in words.
    pub fn to_string(&self) -> (words: String)
        ensures
            words@ == reason(*self),
    {
        let words: &str = match self {
            ErrorKind::UnexpectedEnd => "unexpected end of input",
            ErrorKind::ExpectedValue => "expected a value",
            ErrorKind::ExpectedKey => "expected a quoted object key",
            ErrorKind::ExpectedColon => "expected ':' after an object key",
            ErrorKind::ExpectedCommaOrBrace => "expected ',' or '}' after an object member",
            ErrorKind::ExpectedCommaOrBracket => "expected ',' or ']' after an array item",
            ErrorKind::InvalidLiteral => "invalid literal",
            ErrorKind::InvalidNumber => "invalid number",
            ErrorKind::UnterminatedString => "unterminated string",
            ErrorKind::ControlCharacter => "unescaped control character in a string",
            ErrorKind::InvalidEscape => "invalid escape sequence",
            ErrorKind::InvalidUnicodeEscape => "invalid unicode escape",
            ErrorKind::TooDeep => "nesting is too deep",
            ErrorKind::TrailingCharacters => "trailing characters after the value",
        };
        words.to_owned()
    }
}

// ---------------------------------------------------------------------------------------------
// Parsing
// ---------------------------------------------------------------------------------------------

/// What a step of the parser gives: something and the position behind it, or a problem and the
/// position at which it shows.
type Step<T> = Result<(T, usize), (ErrorKind, usize)>;

fn skip_space(s: &Vec<char>, p: usize) -> (q: usize)
    requires
        p <= s@.len(),
    ensures
        q == grammar::skip_space(s@, p as int),
        p <= q <= s@.len(),
{
    let mut q: usize = p;
    while q < s.len() && (s[q] == ' ' || s[q] == '\t' || s[q] == '\n' || s[q] == '\r')
        invariant
            p <= q <= s@.len(),
            grammar::skip_space(s@, p as int) == grammar::skip_space(s@, q as int),
        decreases s@.len() - q,
    {
        q = q + 1;
    }
    q
}

fn digits_end(s: &Vec<char>, p: usize) -> (q: usize)
    requires
        p <= s@.len(),
    ensures
        q == grammar::digits_end(s@, p as int),
        p <= q <= s@.len(),
{
    let mut q: usize = p;
    while q < s.len() && s[q] >= '0' && s[q] <= '9'
        invariant
            p <= q <= s@.len(),
            grammar::digits_end(s@, p as int) == grammar::digits_end(s@, q as int),
        decreases s@.len() - q,
    {
        q = q + 1;
    }
    q
}

fn parse_number(s: &Vec<char>, p: usize) -> (r: Step<String>)
    requires
        p < s@.len(),
    ensures
        r matches Ok((lexeme, q)) ==> grammar::number(s@, p as int) == Parsed::Done(
            lexeme@,
            q as int,
        ) && p < q <= s@.len(),
        r matches Err((kind, at)) ==> grammar::number(s@, p as int) == Parsed::<Seq<char>>::Fail(
            kind,
            at as int,
        ) && at <= s@.len(),
{
    proof {
        grammar::lemma_number_moves(s@, p as int);
    }
    let length: usize = s.len();
    let mut q: usize = p;
    if s[q] == '-' {
        q = q + 1;
    }
    if q >= s.len() || s[q] < '0' || s[q] > '9' {
        return Err((ErrorKind::InvalidNumber, q));
    }
    if s[q] == '0' {
        q = q + 1;
    } else {
        q = digits_end(s, q);
    }
    if q < s.len() && s[q] == '.' {
        let end: usize = digits_end(s, q + 1);
        if end == q + 1 {
            return Err((ErrorKind::InvalidNumber, end));
        }
        q = end;
    }
    if q < s.len() && (s[q] == 'e' || s[q] == 'E') {
        q = q + 1;
        if q < s.len() && (s[q] == '+' || s[q] == '-') {
            q = q + 1;
        }
        let end: usize = digits_end(s, q);
        if end == q {
            return Err((ErrorKind::InvalidNumber, end));
        }
        q = end;
    }
    Ok((substring(s, p, q), q))
}

fn hex_value(c: char) -> (d: Option<u32>)
    ensures
        d matches Some(n) ==> grammar::hex_value(c) == Some(n as nat) && n < 16,
        d is None ==> grammar::hex_value(c) is None,
{
    if c >= '0' && c <= '9' {
        Some(c as u32 - 48)
    } else if c >= 'a' && c <= 'f' {
        Some(c as u32 - 87)
    } else if c >= 'A' && c <= 'F' {
        Some(c as u32 - 55)
    } else {
        None
    }
}

fn hex4(s: &Vec<char>, p: usize) -> (n: Option<u32>)
    requires
        p <= s@.len(),
    ensures
        n matches Some(v) ==> grammar::hex4(s@, p as int) == Some(v as nat) && v < 0x10000 && p + 4
            <= s@.len(),
        n is None ==> grammar::hex4(s@, p as int) is None,
{
    if s.len() - p < 4 {
        return None;
    }
    match (hex_value(s[p]), hex_value(s[p + 1]), hex_value(s[p + 2]), hex_value(s[p + 3])) {
        (Some(a), Some(b), Some(c), Some(d)) => Some(a * 4096 + b * 256 + c * 16 + d),
        _ => None,
    }
}

fn parse_escape(s: &Vec<char>, p: usize) -> (r: Step<char>)
    requires
        p < s@.len(),
    ensures
        r matches Ok((c, q)) ==> grammar::escape(s@, p as int) == Parsed::Done(c, q as int) && p < q
            <= s@.len(),
        r matches Err((kind, at)) ==> grammar::escape(s@, p as int) == Parsed::<char>::Fail(
            kind,
            at as int,
        ) && at <= s@.len(),
{
    let length: usize = s.len();
    if p + 1 >= length {
        return Err((ErrorKind::UnterminatedString, p + 1));
    }
    let c: char = s[p + 1];
    if c == '"' || c == '\\' || c == '/' {
        return Ok((c, p + 2));
    }
    if c == 'n' {
        return Ok(('\n', p + 2));
    }
    if c == 'r' {
        return Ok(('\r', p + 2));
    }
    if c == 't' {
        return Ok(('\t', p + 2));
    }
    if c == 'b' {
        return Ok(('\u{8}', p + 2));
    }
    if c == 'f' {
        return Ok(('\u{c}', p + 2));
    }
    if c != 'u' {
        return Err((ErrorKind::InvalidEscape, p));
    }
    let bad: Step<char> = Err((ErrorKind::InvalidUnicodeEscape, p));
    match hex4(s, p + 2) {
        None => bad,
        Some(high) => {
            if high >= 0xD800 && high < 0xDC00 {
                if s.len() - p < 8 || s[p + 6] != '\\' || s[p + 7] != 'u' {
                    return bad;
                }
                match hex4(s, p + 8) {
                    None => bad,
                    Some(low) => {
                        if low < 0xDC00 || low >= 0xE000 {
                            return bad;
                        }
                        let code: u32 = 0x10000 + (high - 0xD800) * 0x400 + (low - 0xDC00);
                        match char::from_u32(code) {
                            Some(c) => Ok((c, p + 12)),
                            None => bad,
                        }
                    },
                }
            } else {
                match char::from_u32(high) {
                    Some(c) => Ok((c, p + 6)),
                    None => bad,
                }
            }
        },
    }
}

fn parse_string(s: &Vec<char>, p: usize) -> (r: Step<String>)
    requires
        p <= s@.len(),
    ensures
        r matches Ok((chars, q)) ==> grammar::string(s@, p as int) == Parsed::Done(
            chars@,
            q as int,
        ) && p < q <= s@.len(),
        r matches Err((kind, at)) ==> grammar::string(s@, p as int) == Parsed::<Seq<char>>::Fail(
            kind,
            at as int,
        ) && at <= s@.len(),
{
    let mut chars: String = String::new();
    let mut q: usize = p;
    proof {
        grammar::lemma_string_moves(s@, p as int);
        match grammar::string(s@, p as int) {
            Parsed::Done(rest, end) => {
                assert(chars@ + rest =~= rest);
            },
            Parsed::Fail(_, _) => {},
        }
    }
    while q < s.len()
        invariant
            p <= q <= s@.len(),
            match grammar::string(s@, q as int) {
                Parsed::Done(rest, end) => grammar::string(s@, p as int) == Parsed::Done(
                    chars@ + rest,
                    end,
                ),
                Parsed::Fail(kind, at) => grammar::string(s@, p as int) == Parsed::<
                    Seq<char>,
                >::Fail(kind, at),
            },
        decreases s@.len() - q,
    {
        let c: char = s[q];
        if c == '"' {
            assert(chars@ + Seq::<char>::empty() =~= chars@);
            return Ok((chars, q + 1));
        }
        let ghost before = chars@;
        let ghost at = q as int;
        if c == '\\' {
            match parse_escape(s, q) {
                Err(problem) => {
                    return Err(problem);
                },
                Ok((plain, end)) => {
                    chars.push(plain);
                    q = end;
                },
            }
        } else if c <= '\u{1f}' {
            return Err((ErrorKind::ControlCharacter, q));
        } else {
            chars.push(c);
            q = q + 1;
        }
        proof {
            match grammar::string(s@, q as int) {
                Parsed::Done(rest, end) => {
                    assert(chars@ + rest =~= before + (seq![chars@.last()] + rest));
                },
                Parsed::Fail(_, _) => {},
            }
        }
    }
    Err((ErrorKind::UnterminatedString, q))
}

/// Whether the characters at `p` are those of `word`.
fn starts_with(s: &Vec<char>, p: usize, word: &[char]) -> (yes: bool)
    requires
        p <= s@.len(),
    ensures
        yes == (p + word@.len() <= s@.len() && s@.subrange(p as int, p + word@.len()) == word@),
{
    let length: usize = s.len();
    if length - p < word.len() {
        return false;
    }
    let mut i: usize = 0;
    while i < word.len()
        invariant
            length == s@.len(),
            i <= word@.len(),
            p + word@.len() <= s@.len(),
            forall|k: int| 0 <= k < i ==> s@[p + k] == #[trigger] word@[k],
        decreases word@.len() - i,
    {
        if s[p + i] != word[i] {
            assert(s@.subrange(p as int, p + word@.len())[i as int] != word@[i as int]);
            return false;
        }
        i = i + 1;
    }
    assert(s@.subrange(p as int, p + word@.len()) =~= word@);
    true
}

/// Whether the step `r` is what the grammar reads.
spec fn agrees(s: Seq<char>, r: Step<Value>, parsed: Parsed<Json>) -> bool {
    match r {
        Ok((v, q)) => parsed == Parsed::Done(v@, q as int) && q <= s.len(),
        Err((kind, at)) => parsed == Parsed::<Json>::Fail(kind, at as int) && at <= s.len(),
    }
}

fn parse_value(s: &Vec<char>, p: usize, room: usize) -> (r: Step<Value>)
    requires
        p <= s@.len(),
    ensures
        agrees(s@, r, grammar::value(s@, p as int, room as nat)),
    decreases room, s@.len() - p, 0nat,
{
    proof {
        grammar::lemma_value_moves(s@, p as int, room as nat);
    }
    let q: usize = skip_space(s, p);
    if q >= s.len() {
        return Err((ErrorKind::UnexpectedEnd, q));
    }
    let c: char = s[q];
    if c == 'n' {
        if starts_with(s, q, &['n', 'u', 'l', 'l']) {
            return Ok((Value::Null, q + 4));
        }
        return Err((ErrorKind::InvalidLiteral, q));
    }
    if c == 't' {
        if starts_with(s, q, &['t', 'r', 'u', 'e']) {
            return Ok((Value::Bool(true), q + 4));
        }
        return Err((ErrorKind::InvalidLiteral, q));
    }
    if c == 'f' {
        if starts_with(s, q, &['f', 'a', 'l', 's', 'e']) {
            return Ok((Value::Bool(false), q + 5));
        }
        return Err((ErrorKind::InvalidLiteral, q));
    }
    if c == '"' {
        return match parse_string(s, q + 1) {
            Err(problem) => Err(problem),
            Ok((chars, end)) => Ok((Value::Text(chars), end)),
        };
    }
    if c == '-' || (c >= '0' && c <= '9') {
        return match parse_number(s, q) {
            Err(problem) => Err(problem),
            Ok((lexeme, end)) => Ok((Value::Number(lexeme), end)),
        };
    }
    if c != '[' && c != '{' {
        return Err((ErrorKind::ExpectedValue, q));
    }
    if room == 0 {
        return Err((ErrorKind::TooDeep, q));
    }
    let r: usize = skip_space(s, q + 1);
    if c == '[' {
        if r < s.len() && s[r] == ']' {
            let v = Value::Array(Vec::new());
            proof {
                assert(v@->Array_0 =~= Seq::<Json>::empty());
            }
            return Ok((v, r + 1));
        }
        parse_items(s, q + 1, room - 1)
    } else {
        if r < s.len() && s[r] == '}' {
            let v = Value::Object(Vec::new());
            proof {
                assert(v@->Object_0 =~= Seq::<(Seq<char>, Json)>::empty());
            }
            return Ok((v, r + 1));
        }
        parse_members(s, q + 1, room - 1)
    }
}

/// The array whose items start at `p`.
fn parse_items(s: &Vec<char>, p: usize, room: usize) -> (r: Step<Value>)
    requires
        p <= s@.len(),
    ensures
        match grammar::items(s@, p as int, room as nat) {
            Parsed::Fail(kind, at) => agrees(s@, r, Parsed::Fail(kind, at)),
            Parsed::Done(list, end) => agrees(s@, r, Parsed::Done(Json::Array(list), end)),
        },
    decreases room, s@.len() - p, 1nat,
{
    let mut list: Vec<Value> = Vec::new();
    let mut q: usize = p;
    proof {
        match grammar::items(s@, p as int, room as nat) {
            Parsed::Done(rest, end) => {
                assert(items_model(list@) + rest =~= rest);
            },
            Parsed::Fail(_, _) => {},
        }
    }
    loop
        invariant
            p <= q <= s@.len(),
            match grammar::items(s@, q as int, room as nat) {
                Parsed::Done(rest, end) => grammar::items(s@, p as int, room as nat)
                    == Parsed::Done(items_model(list@) + rest, end),
                Parsed::Fail(kind, at) => grammar::items(s@, p as int, room as nat) == Parsed::<
                    Seq<Json>,
                >::Fail(kind, at),
            },
        decreases s@.len() - q,
    {
        proof {
            grammar::lemma_value_moves(s@, q as int, room as nat);
        }
        let (v, end) = match parse_value(s, q, room) {
            Err(problem) => {
                return Err(problem);
            },
            Ok(step) => step,
        };
        let at: usize = skip_space(s, end);
        let ghost before = items_model(list@);
        let ghost last = v@;
        proof {
            lemma_items_push(list@, v);
        }
        list.push(v);
        if at >= s.len() {
            return Err((ErrorKind::UnexpectedEnd, at));
        }
        if s[at] == ',' {
            q = at + 1;
            proof {
                match grammar::items(s@, q as int, room as nat) {
                    Parsed::Done(rest, _) => {
                        assert(items_model(list@) + rest =~= before + (seq![last] + rest));
                    },
                    Parsed::Fail(_, _) => {},
                }
            }
        } else if s[at] == ']' {
            let v = Value::Array(list);
            proof {
                assert(before.push(last) =~= before + seq![last]);
            }
            return Ok((v, at + 1));
        } else {
            return Err((ErrorKind::ExpectedCommaOrBracket, at));
        }
    }
}

/// The key of an object member, with the colon behind it.
fn parse_key(s: &Vec<char>, p: usize) -> (r: Step<String>)
    requires
        p <= s@.len(),
    ensures
        r matches Ok((name, q)) ==> grammar::key(s@, p as int) == Parsed::Done(name@, q as int) && p
            < q <= s@.len(),
        r matches Err((kind, at)) ==> grammar::key(s@, p as int) == Parsed::<Seq<char>>::Fail(
            kind,
            at as int,
        ) && at <= s@.len(),
{
    let at: usize = skip_space(s, p);
    if at >= s.len() {
        return Err((ErrorKind::UnexpectedEnd, at));
    }
    if s[at] != '"' {
        return Err((ErrorKind::ExpectedKey, at));
    }
    match parse_string(s, at + 1) {
        Err(problem) => Err(problem),
        Ok((name, end)) => {
            let colon: usize = skip_space(s, end);
            if colon >= s.len() {
                Err((ErrorKind::UnexpectedEnd, colon))
            } else if s[colon] != ':' {
                Err((ErrorKind::ExpectedColon, colon))
            } else {
                Ok((name, colon + 1))
            }
        },
    }
}

/// The object whose members start at `p`.
fn parse_members(s: &Vec<char>, p: usize, room: usize) -> (r: Step<Value>)
    requires
        p <= s@.len(),
    ensures
        match grammar::members(s@, p as int, room as nat) {
            Parsed::Fail(kind, at) => agrees(s@, r, Parsed::Fail(kind, at)),
            Parsed::Done(list, end) => agrees(s@, r, Parsed::Done(Json::Object(list), end)),
        },
    decreases room, s@.len() - p, 1nat,
{
    let mut list: Vec<(String, Value)> = Vec::new();
    let mut q: usize = p;
    proof {
        match grammar::members(s@, p as int, room as nat) {
            Parsed::Done(rest, end) => {
                assert(members_model(list@) + rest =~= rest);
            },
            Parsed::Fail(_, _) => {},
        }
    }
    loop
        invariant
            p <= q <= s@.len(),
            match grammar::members(s@, q as int, room as nat) {
                Parsed::Done(rest, end) => grammar::members(s@, p as int, room as nat)
                    == Parsed::Done(members_model(list@) + rest, end),
                Parsed::Fail(kind, at) => grammar::members(s@, p as int, room as nat) == Parsed::<
                    Seq<(Seq<char>, Json)>,
                >::Fail(kind, at),
            },
        decreases s@.len() - q,
    {
        let (name, start) = match parse_key(s, q) {
            Err(problem) => {
                return Err(problem);
            },
            Ok(step) => step,
        };
        proof {
            grammar::lemma_value_moves(s@, start as int, room as nat);
        }
        let (v, end) = match parse_value(s, start, room) {
            Err(problem) => {
                return Err(problem);
            },
            Ok(step) => step,
        };
        let at: usize = skip_space(s, end);
        let ghost before = members_model(list@);
        let ghost last = (name@, v@);
        proof {
            lemma_members_push(list@, (name, v));
        }
        list.push((name, v));
        if at >= s.len() {
            return Err((ErrorKind::UnexpectedEnd, at));
        }
        if s[at] == ',' {
            q = at + 1;
            proof {
                match grammar::members(s@, q as int, room as nat) {
                    Parsed::Done(rest, _) => {
                        assert(members_model(list@) + rest =~= before + (seq![last] + rest));
                    },
                    Parsed::Fail(_, _) => {},
                }
            }
        } else if s[at] == '}' {
            let v = Value::Object(list);
            proof {
                assert(before.push(last) =~= before + seq![last]);
            }
            return Ok((v, at + 1));
        } else {
            return Err((ErrorKind::ExpectedCommaOrBrace, at));
        }
    }
}

/// Parses the characters of one JSON text.
pub fn parse_chars(s: &Vec<char>) -> (r: Result<Value, ParseError>)
    requires
        vstd::utf8::encode_utf8(s@).len() <= usize::MAX,
    ensures
        r matches Ok(v) ==> grammar::document(s@) == Ok::<Json, (ErrorKind, nat)>(v@),
        r matches Err(e) ==> grammar::document(s@) == Err::<Json, (ErrorKind, nat)>(
            (e.kind, e.offset as nat),
        ) && e.offset <= vstd::utf8::encode_utf8(s@).len(),
{
    match parse_value(s, 0, MAX_DEPTH) {
        Err((kind, at)) => {
            proof {
                text::lemma_byte_offset(s@, at as int);
            }
            Err(ParseError { offset: offset_of(s, at), kind })
        },
        Ok((v, q)) => {
            let end: usize = skip_space(s, q);
            if end < s.len() {
                proof {
                    text::lemma_byte_offset(s@, end as int);
                }
                Err(ParseError { offset: offset_of(s, end), kind: ErrorKind::TrailingCharacters })
            } else {
                Ok(v)
            }
        },
    }
}

/// Parses one JSON text.
pub fn parse(text: &str) -> (r: Result<Value, ParseError>)
    ensures
        r matches Ok(v) ==> grammar::document(text@) == Ok::<Json, (ErrorKind, nat)>(v@),
        r matches Err(e) ==> grammar::document(text@) == Err::<Json, (ErrorKind, nat)>(
            (e.kind, e.offset as nat),
        ),
{
    let bytes: &[u8] = text.as_bytes();
    let length: usize = bytes.len();
    assert(vstd::utf8::encode_utf8(text@).len() == length);
    parse_chars(&chars_of(text))
}

// ---------------------------------------------------------------------------------------------
// Writing
// ---------------------------------------------------------------------------------------------

fn hex_char(d: u32) -> (c: char)
    requires
        d < 16,
    ensures
        c == model::hex_char(d as nat),
{
    let b: u8 = if d < 10 {
        48u8 + d as u8
    } else {
        87u8 + d as u8
    };
    b as char
}

fn push_escaped_char(out: &mut String, c: char)
    ensures
        final(out)@ == old(out)@ + model::escaped_char(c),
{
    if c == '"' || c == '\\' {
        out.push('\\');
        out.push(c);
    } else if c == '\n' {
        out.push('\\');
        out.push('n');
    } else if c == '\r' {
        out.push('\\');
        out.push('r');
    } else if c == '\t' {
        out.push('\\');
        out.push('t');
    } else if c == '\u{8}' {
        out.push('\\');
        out.push('b');
    } else if c == '\u{c}' {
        out.push('\\');
        out.push('f');
    } else if c <= '\u{1f}' {
        out.push('\\');
        out.push('u');
        out.push('0');
        out.push('0');
        out.push(hex_char(c as u32 / 16));
        out.push(hex_char(c as u32 % 16));
    } else {
        out.push(c);
    }
    assert(out@ =~= old(out)@ + model::escaped_char(c));
}

/// Appends `text` to `out` as a quoted string.
pub fn escape_into(text: &str, out: &mut String)
    ensures
        final(out)@ == old(out)@ + model::quoted(text@),
{
    out.push('"');
    let ghost start = out@;
    let chars: Vec<char> = chars_of(text);
    let mut i: usize = 0;
    assert(chars@.skip(0) =~= chars@);
    while i < chars.len()
        invariant
            i <= chars@.len(),
            start + model::escaped(chars@) =~= out@ + model::escaped(chars@.skip(i as int)),
        decreases chars@.len() - i,
    {
        push_escaped_char(out, chars[i]);
        i = i + 1;
        assert(chars@.skip(i - 1).drop_first() =~= chars@.skip(i as int));
    }
    out.push('"');
    assert(out@ =~= old(out)@ + model::quoted(text@));
}

fn write_items(items: &Vec<Value>, out: &mut String)
    ensures
        final(out)@ == old(out)@ + model::items_text(items_model(items@)),
    decreases items,
{
    let ghost all = items_model(items@);
    proof {
        lemma_items_model(items@);
        assert(all.skip(0) =~= all);
    }
    let mut i: usize = 0;
    while i < items.len()
        invariant
            i <= items@.len(),
            all == items_model(items@),
            all.len() == items@.len(),
            old(out)@ + model::items_text(all) =~= out@ + (if 0 < i < all.len() {
                seq![','] + model::items_text(all.skip(i as int))
            } else {
                model::items_text(all.skip(i as int))
            }),
        decreases items@.len() - i,
    {
        proof {
            lemma_items_model(items@);
            assert(all.skip(i as int).drop_first() =~= all.skip(i + 1));
            if i + 1 == all.len() {
                assert(all.skip(i + 1) =~= Seq::<Json>::empty());
            }
        }
        if i > 0 {
            out.push(',');
        }
        write_value(&items[i], out);
        i = i + 1;
    }
    assert(all.skip(i as int) =~= Seq::<Json>::empty());
}

fn write_members(members: &Vec<(String, Value)>, out: &mut String)
    ensures
        final(out)@ == old(out)@ + model::members_text(members_model(members@)),
    decreases members,
{
    let ghost all = members_model(members@);
    proof {
        lemma_members_model(members@);
        assert(all.skip(0) =~= all);
    }
    let mut i: usize = 0;
    while i < members.len()
        invariant
            i <= members@.len(),
            all == members_model(members@),
            all.len() == members@.len(),
            old(out)@ + model::members_text(all) =~= out@ + (if 0 < i < all.len() {
                seq![','] + model::members_text(all.skip(i as int))
            } else {
                model::members_text(all.skip(i as int))
            }),
        decreases members@.len() - i,
    {
        proof {
            lemma_members_model(members@);
            assert(all.skip(i as int).drop_first() =~= all.skip(i + 1));
            if i + 1 == all.len() {
                assert(all.skip(i + 1) =~= Seq::<(Name, Json)>::empty());
            }
        }
        if i > 0 {
            out.push(',');
        }
        let member: &(String, Value) = &members[i];
        escape_into(member.0.as_str(), out);
        out.push(':');
        write_value(&member.1, out);
        i = i + 1;
    }
    assert(all.skip(i as int) =~= Seq::<(Name, Json)>::empty());
}

fn write_value(v: &Value, out: &mut String)
    ensures
        final(out)@ == old(out)@ + model::json_text(v@),
    decreases v,
{
    match v {
        Value::Null => {
            out.push('n');
            out.push('u');
            out.push('l');
            out.push('l');
        },
        Value::Bool(b) => {
            if *b {
                out.push('t');
                out.push('r');
                out.push('u');
                out.push('e');
            } else {
                out.push('f');
                out.push('a');
                out.push('l');
                out.push('s');
                out.push('e');
            }
        },
        Value::Number(lexeme) => {
            out.append(lexeme.as_str());
        },
        Value::Text(s) => {
            escape_into(s.as_str(), out);
        },
        Value::Array(items) => {
            out.push('[');
            write_items(items, out);
            out.push(']');
        },
        Value::Object(members) => {
            out.push('{');
            write_members(members, out);
            out.push('}');
        },
    }
    assert(out@ =~= old(out)@ + model::json_text(v@));
}

impl Value {
    /// The JSON text of the value, with no space between its parts.
    pub fn to_json(&self) -> (text: String)
        ensures
            text@ == model::json_text(self@),
    {
        let mut text: String = String::new();
        write_value(self, &mut text);
        assert(text@ =~= model::json_text(self@));
        text
    }

    /// The name of the value's type.
    pub fn type_label(&self) -> (label: &'static str)
        ensures
            label@ == model::type_label(self@),
    {
        match self {
            Value::Null => "null",
            Value::Bool(_) => "bool",
            Value::Number(lexeme) => if is_integer(lexeme.as_str()) {
                "int"
            } else {
                "float"
            },
            Value::Text(_) => "string",
            Value::Array(_) => "array",
            Value::Object(_) => "object",
        }
    }

    /// The items, where the value is an array.
    pub fn as_array(&self) -> (items: Option<&Vec<Value>>)
        ensures
            items matches Some(list) ==> self@ == Json::Array(items_model(list@)),
            items is None ==> self@ !is Array,
    {
        match self {
            Value::Array(items) => Some(items),
            _ => None,
        }
    }

    /// The members, where the value is an object.
    pub fn as_object(&self) -> (members: Option<&Vec<(String, Value)>>)
        ensures
            members matches Some(list) ==> self@ == Json::Object(members_model(list@)),
            members is None ==> self@ !is Object,
    {
        match self {
            Value::Object(members) => Some(members),
            _ => None,
        }
    }

    /// The number, where the value is an integer that fits.
    pub fn as_i64(&self) -> (n: Option<i64>)
        ensures
            n matches Some(i) ==> self@ matches Json::Number(lexeme) && text::signed_value(lexeme)
                == Some(i as int),
            n is None ==> (self@ matches Json::Number(lexeme) ==> (text::signed_value(
                lexeme,
            ) matches Some(i) ==> i < i64::MIN || i > i64::MAX)),
    {
        match self {
            Value::Number(lexeme) => parse_i64(&chars_of(lexeme.as_str())),
            _ => None,
        }
    }

    /// The first member called `name`, where the value is an object that has one.
    pub fn get(&self, name: &str) -> (found: Option<&Value>)
        ensures
            found matches Some(v) ==> model::get(self@, name@) == Some(v@),
            found is None ==> model::get(self@, name@) is None,
    {
        match self {
            Value::Object(members) => {
                let ghost all = members_model(members@);
                proof {
                    lemma_members_model(members@);
                    assert(all.skip(0) =~= all);
                }
                let mut i: usize = 0;
                while i < members.len()
                    invariant
                        i <= members@.len(),
                        all == members_model(members@),
                        all.len() == members@.len(),
                        model::member(all, name@) == model::member(all.skip(i as int), name@),
                        self@ == Json::Object(all),
                    decreases members@.len() - i,
                {
                    proof {
                        lemma_members_model(members@);
                        assert(all.skip(i as int).drop_first() =~= all.skip(i + 1));
                    }
                    let member: &(String, Value) = &members[i];
                    if same_text(member.0.as_str(), name) {
                        return Some(&member.1);
                    }
                    i = i + 1;
                }
                None
            },
            _ => None,
        }
    }
}

/// Whether a number is written without a fraction and without an exponent.
fn is_integer(lexeme: &str) -> (yes: bool)
    ensures
        yes == model::is_integer(lexeme@),
{
    let chars: Vec<char> = chars_of(lexeme);
    let mut i: usize = 0;
    while i < chars.len()
        invariant
            i <= chars@.len(),
            chars@ == lexeme@,
            forall|k: int|
                0 <= k < i ==> #[trigger] chars@[k] != '.' && chars@[k] != 'e' && chars@[k] != 'E',
        decreases chars@.len() - i,
    {
        let c: char = chars[i];
        if c == '.' || c == 'e' || c == 'E' {
            return false;
        }
        i = i + 1;
    }
    true
}

} // verus!

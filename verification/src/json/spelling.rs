//! How the characters of a string can be spelt, and that strings are read accordingly.
use crate::json::grammar;
use crate::json::grammar::{ErrorKind, Parsed};
use crate::json::model::Json;
use crate::text;
use vstd::prelude::*;
use vstd::utf8::encode_utf8;

verus! {

/// The hexadecimal digit of value `d`, with small or capital letters.
pub open spec fn hex_digit(d: int, capital: bool) -> char {
    let small = seq![
        '0', '1', '2', '3', '4', '5', '6', '7', '8', '9', 'a', 'b', 'c', 'd', 'e', 'f',
    ];
    let large = seq![
        '0', '1', '2', '3', '4', '5', '6', '7', '8', '9', 'A', 'B', 'C', 'D', 'E', 'F',
    ];
    if capital {
        large[d]
    } else {
        small[d]
    }
}

/// Whether `c` is the hexadecimal digit of value `d`.
#[verifier::opaque]
pub open spec fn is_hex_digit(c: char, d: int) -> bool {
    0 <= d < 16 && (c == hex_digit(d, false) || c == hex_digit(d, true))
}

/// Whether `piece` is a backslash, a `u` and the four hexadecimal digits of `code`.
pub open spec fn is_code(piece: Seq<char>, code: int) -> bool {
    &&& 0 <= code < 0x10000
    &&& piece.len() == 6
    &&& piece[0] == '\\'
    &&& piece[1] == 'u'
    &&& is_hex_digit(piece[2], code / 0x1000)
    &&& is_hex_digit(piece[3], code / 0x100 % 0x10)
    &&& is_hex_digit(piece[4], code / 0x10 % 0x10)
    &&& is_hex_digit(piece[5], code % 0x10)
}

/// Whether a backslash and `letter` stand for `c`.
pub open spec fn is_short_escape(letter: char, c: char) -> bool {
    ||| (letter == '"' && c == '"')
    ||| (letter == '\\' && c == '\\')
    ||| (letter == '/' && c == '/')
    ||| (letter == 'b' && c as int == 8)
    ||| (letter == 't' && c as int == 9)
    ||| (letter == 'n' && c as int == 10)
    ||| (letter == 'f' && c as int == 12)
    ||| (letter == 'r' && c as int == 13)
}

/// Whether `piece` is a way to write `c` between quotes: as it is, unless it is a quote, a
/// backslash or a control character; by a short escape; by its code; or, from U+10000 on, by
/// the codes of its two surrogates.
pub open spec fn spells(piece: Seq<char>, c: char) -> bool {
    ||| piece == seq![c] && c as int >= 0x20 && c != '"' && c != '\\'
    ||| piece.len() == 2 && piece[0] == '\\' && is_short_escape(piece[1], c)
    ||| is_code(piece, c as int)
    ||| {
        &&& c as int >= 0x10000
        &&& piece.len() == 12
        &&& is_code(piece.take(6), 0xD800 + (c as int - 0x10000) / 0x400)
        &&& is_code(piece.skip(6), 0xDC00 + (c as int - 0x10000) % 0x400)
    }
}

/// Whether `pieces` are ways to write `chars`, one for each.
pub open spec fn spell(pieces: Seq<Seq<char>>, chars: Seq<char>) -> bool {
    &&& pieces.len() == chars.len()
    &&& forall|i: int| 0 <= i < chars.len() ==> spells(#[trigger] pieces[i], chars[i])
}

/// A hexadecimal digit has its value in either case, and nothing else is one.
pub proof fn law_hex_digits_have_no_case(c: char)
    ensures
        forall|d: int| #[trigger]
            is_hex_digit(c, d) ==> grammar::hex_value(c) == Some(d as nat),
        grammar::hex_value(c) matches Some(d) ==> is_hex_digit(c, d as int),
{
    reveal(is_hex_digit);
}

proof fn lemma_parts_of_code(code: int)
    requires
        0 <= code < 0x10000,
    ensures
        code / 0x1000 * 4096 + code / 0x100 % 0x10 * 256 + code / 0x10 % 0x10 * 16 + code % 0x10
            == code,
{
    assert(code / 0x100 == code / 0x10 / 0x10);
    assert(code / 0x1000 == code / 0x100 / 0x10);
}

proof fn lemma_code_of_parts(a: int, b: int, c: int, d: int)
    requires
        0 <= a < 16,
        0 <= b < 16,
        0 <= c < 16,
        0 <= d < 16,
    ensures
        ({
            let code = a * 4096 + b * 256 + c * 16 + d;
            &&& 0 <= code < 0x10000
            &&& code / 0x1000 == a
            &&& code / 0x100 % 0x10 == b
            &&& code / 0x10 % 0x10 == c
            &&& code % 0x10 == d
        }),
{
}

/// The value of a hexadecimal digit, which stands for nothing else.
proof fn lemma_hex_digit(c: char, d: int)
    requires
        is_hex_digit(c, d),
    ensures
        grammar::hex_value(c) == Some(d as nat),
{
    reveal(is_hex_digit);
}

proof fn lemma_hex_value(c: char)
    requires
        grammar::hex_value(c) is Some,
    ensures
        grammar::hex_value(c)->0 < 16,
        is_hex_digit(c, grammar::hex_value(c)->0 as int),
{
    reveal(is_hex_digit);
}

proof fn lemma_code_reads(s: Seq<char>, p: int, code: int)
    requires
        0 <= p,
        p + 6 <= s.len(),
        is_code(s.subrange(p, p + 6), code),
    ensures
        grammar::hex4(s, p + 2) == Some(code as nat),
        s[p] == '\\',
        s[p + 1] == 'u',
{
    let piece = s.subrange(p, p + 6);
    assert(piece[0] == s[p] && piece[1] == s[p + 1]);
    lemma_hex_digit(piece[2], code / 0x1000);
    lemma_hex_digit(piece[3], code / 0x100 % 0x10);
    lemma_hex_digit(piece[4], code / 0x10 % 0x10);
    lemma_hex_digit(piece[5], code % 0x10);
    lemma_parts_of_code(code);
}

proof fn lemma_code_written(s: Seq<char>, p: int)
    requires
        0 <= p,
        p + 6 <= s.len(),
        s[p] == '\\',
        s[p + 1] == 'u',
        grammar::hex4(s, p + 2) is Some,
    ensures
        is_code(s.subrange(p, p + 6), grammar::hex4(s, p + 2)->0 as int),
{
    lemma_hex_value(s[p + 2]);
    lemma_hex_value(s[p + 3]);
    lemma_hex_value(s[p + 4]);
    lemma_hex_value(s[p + 5]);
    lemma_code_of_parts(
        grammar::hex_value(s[p + 2])->0 as int,
        grammar::hex_value(s[p + 3])->0 as int,
        grammar::hex_value(s[p + 4])->0 as int,
        grammar::hex_value(s[p + 5])->0 as int,
    );
}

/// A piece that spells a character is read as the character, whatever stands round it.
pub proof fn law_spelt_character_is_read(
    before: Seq<char>,
    piece: Seq<char>,
    c: char,
    behind: Seq<char>,
)
    requires
        spells(piece, c),
    ensures
        grammar::string(before + piece + behind, before.len() as int) == grammar::preceded(
            c,
            grammar::string(before + piece + behind, (before.len() + piece.len()) as int),
        ),
        piece.len() > 0,
{
    let s = before + piece + behind;
    let p = before.len() as int;
    assert(forall|i: int| 0 <= i < piece.len() ==> s[p + i] == #[trigger] piece[i]);
    if piece == seq![c] && c as int >= 0x20 && c != '"' && c != '\\' {
        assert(s[p] == piece[0]);
    } else if piece.len() == 2 {
        assert(s[p] == piece[0]);
        assert(s[p + 1] == piece[1]);
        assert(grammar::escape(s, p) == Parsed::Done(c, p + 2));
    } else if is_code(piece, c as int) {
        assert(s.subrange(p, p + 6) =~= piece);
        lemma_code_reads(s, p, c as int);
        assert(grammar::escape(s, p) == Parsed::Done(c, p + 6));
    } else {
        let high = 0xD800 + (c as int - 0x10000) / 0x400;
        let low = 0xDC00 + (c as int - 0x10000) % 0x400;
        assert(s.subrange(p, p + 6) =~= piece.take(6));
        assert(s.subrange(p + 6, p + 12) =~= piece.skip(6));
        lemma_code_reads(s, p, high);
        lemma_code_reads(s, p + 6, low);
        assert(0x10000 + (high - 0xD800) * 0x400 + (low - 0xDC00) == c as int);
        assert(grammar::escape(s, p) == Parsed::Done(c, p + 12));
    }
}

/// `rest` with `chars` in front.
spec fn prefixed(chars: Seq<char>, rest: Parsed<Seq<char>>) -> Parsed<Seq<char>> {
    match rest {
        Parsed::Fail(kind, at) => Parsed::Fail(kind, at),
        Parsed::Done(more, end) => Parsed::Done(chars + more, end),
    }
}

proof fn lemma_spelt_characters(
    before: Seq<char>,
    pieces: Seq<Seq<char>>,
    chars: Seq<char>,
    behind: Seq<char>,
)
    requires
        spell(pieces, chars),
    ensures
        grammar::string(before + text::joined(pieces) + behind, before.len() as int) == prefixed(
            chars,
            grammar::string(
                before + text::joined(pieces) + behind,
                (before.len() + text::joined(pieces).len()) as int,
            ),
        ),
    decreases pieces.len(),
{
    let s = before + text::joined(pieces) + behind;
    let last = grammar::string(s, (before.len() + text::joined(pieces).len()) as int);
    if pieces.len() == 0 {
        match last {
            Parsed::Done(more, end) => {
                assert(chars + more =~= more);
            },
            Parsed::Fail(_, _) => {},
        }
    } else {
        let rest = pieces.drop_first();
        assert(spells(pieces[0], chars[0]));
        assert forall|i: int| 0 <= i < rest.len() implies spells(
            #[trigger] rest[i],
            chars.drop_first()[i],
        ) by {
            assert(spells(pieces[i + 1], chars[i + 1]));
        }
        assert(s =~= before + pieces[0] + (text::joined(rest) + behind));
        law_spelt_character_is_read(before, pieces[0], chars[0], text::joined(rest) + behind);
        assert(s =~= (before + pieces[0]) + text::joined(rest) + behind);
        lemma_spelt_characters(before + pieces[0], rest, chars.drop_first(), behind);
        match last {
            Parsed::Done(more, end) => {
                assert(seq![chars[0]] + (chars.drop_first() + more) =~= chars + more);
            },
            Parsed::Fail(_, _) => {},
        }
    }
}

/// A quoted string denotes the characters that are spelt between its quotes.
pub proof fn law_spelt_string_is_read(pieces: Seq<Seq<char>>, chars: Seq<char>)
    requires
        spell(pieces, chars),
    ensures
        grammar::document(seq!['"'] + text::joined(pieces) + seq!['"']) == Ok::<Json, (ErrorKind, nat)>(
            Json::Text(chars),
        ),
{
    let s = seq!['"'] + text::joined(pieces) + seq!['"'];
    lemma_spelt_characters(seq!['"'], pieces, chars, seq!['"']);
    let end = 1 + text::joined(pieces).len() as int;
    assert(s[end] == '"');
    assert(s[0] == '"');
    assert(chars + Seq::<char>::empty() =~= chars);
    assert(grammar::skip_space(s, 0) == 0);
}

/// A character outside the surrogates has an escape of four hexadecimal digits, in either case,
/// and a string of that escape alone denotes that character alone.
pub proof fn law_code_stands_for_its_character(c: char, capital: Seq<bool>)
    requires
        (c as int) < 0x10000,
        capital.len() == 4,
    ensures
        grammar::document(
            seq![
                '"',
                '\\',
                'u',
                hex_digit(c as int / 0x1000, capital[0]),
                hex_digit(c as int / 0x100 % 0x10, capital[1]),
                hex_digit(c as int / 0x10 % 0x10, capital[2]),
                hex_digit(c as int % 0x10, capital[3]),
                '"',
            ],
        ) == Ok::<Json, (ErrorKind, nat)>(Json::Text(seq![c])),
{
    let piece = seq![
        '\\',
        'u',
        hex_digit(c as int / 0x1000, capital[0]),
        hex_digit(c as int / 0x100 % 0x10, capital[1]),
        hex_digit(c as int / 0x10 % 0x10, capital[2]),
        hex_digit(c as int % 0x10, capital[3]),
    ];
    assert(is_code(piece, c as int)) by {
        reveal(is_hex_digit);
    }
    law_spelt_string_is_read(seq![piece], seq![c]);
    reveal_with_fuel(text::joined, 2);
    assert(text::joined(seq![piece]) =~= piece);
    assert(seq!['"'] + piece + seq!['"'] =~= seq![
        '"',
        '\\',
        'u',
        hex_digit(c as int / 0x1000, capital[0]),
        hex_digit(c as int / 0x100 % 0x10, capital[1]),
        hex_digit(c as int / 0x10 % 0x10, capital[2]),
        hex_digit(c as int % 0x10, capital[3]),
        '"',
    ]);
}

/// What is read as a string up to its closing quote spells the characters that it is read as.
pub proof fn law_read_string_is_spelt(s: Seq<char>, p: int) -> (pieces: Seq<Seq<char>>)
    requires
        0 <= p <= s.len(),
        grammar::string(s, p) is Done,
    ensures
        spell(pieces, grammar::string(s, p)->Done_0),
        p < grammar::string(s, p)->Done_1 <= s.len(),
        s.subrange(p, grammar::string(s, p)->Done_1) == text::joined(pieces) + seq!['"'],
    decreases s.len() - p,
{
    grammar::lemma_string_moves(s, p);
    let chars = grammar::string(s, p)->Done_0;
    let end = grammar::string(s, p)->Done_1;
    if s[p] == '"' {
        let pieces = Seq::<Seq<char>>::empty();
        assert(s.subrange(p, end) =~= text::joined(pieces) + seq!['"']);
        pieces
    } else {
        let (c, q) = if s[p] == '\\' {
            grammar::lemma_escape_moves(s, p);
            (grammar::escape(s, p)->Done_0, grammar::escape(s, p)->Done_1)
        } else {
            (s[p], p + 1)
        };
        let rest = law_read_string_is_spelt(s, q);
        grammar::lemma_string_moves(s, q);
        let piece = s.subrange(p, q);
        let pieces = seq![piece] + rest;
        lemma_piece(s, p, c, q);
        assert(pieces.drop_first() =~= rest);
        assert(s.subrange(p, end) =~= piece + s.subrange(q, end));
        assert(s.subrange(p, end) =~= text::joined(pieces) + seq!['"']);
        assert(chars == seq![c] + grammar::string(s, q)->Done_0);
        assert forall|i: int| 0 <= i < chars.len() implies spells(
            #[trigger] pieces[i],
            chars[i],
        ) by {
            if i > 0 {
                assert(spells(rest[i - 1], grammar::string(s, q)->Done_0[i - 1]));
            }
        }
        pieces
    }
}

proof fn lemma_piece(s: Seq<char>, p: int, c: char, q: int)
    requires
        0 <= p < s.len(),
        s[p] != '"',
        s[p] == '\\' ==> grammar::escape(s, p) == Parsed::Done(c, q),
        s[p] != '\\' ==> s[p] > '\u{1f}' && c == s[p] && q == p + 1,
    ensures
        p < q <= s.len(),
        spells(s.subrange(p, q), c),
{
    let piece = s.subrange(p, q);
    if s[p] == '\\' {
        grammar::lemma_escape_moves(s, p);
        assert(piece[0] == s[p]);
        if s[p + 1] == 'u' {
            lemma_code_written(s, p);
            let high = grammar::hex4(s, p + 2)->0 as int;
            if 0xD800 <= high < 0xDC00 {
                lemma_code_written(s, p + 6);
                let low = grammar::hex4(s, p + 8)->0 as int;
                assert(piece.take(6) =~= s.subrange(p, p + 6));
                assert(piece.skip(6) =~= s.subrange(p + 6, p + 12));
                assert(c as int == 0x10000 + (high - 0xD800) * 0x400 + (low - 0xDC00));
            } else {
                assert(piece =~= s.subrange(p, p + 6));
            }
        } else {
            assert(piece[1] == s[p + 1]);
            assert(piece.len() == 2);
        }
    } else {
        assert(piece =~= seq![c]);
    }
}

/// Whether `s` starts with a backslash and a `u` that spell no character.
pub open spec fn is_no_code(s: Seq<char>) -> bool {
    &&& s.len() >= 2
    &&& s[0] == '\\'
    &&& s[1] == 'u'
    &&& forall|n: int, c: char| 0 <= n <= s.len() ==> !#[trigger] spells(s.take(n), c)
}

/// A string without a closing quote is reported at the end of the text.
pub proof fn law_open_strings_are_reported(pieces: Seq<Seq<char>>, chars: Seq<char>)
    requires
        spell(pieces, chars),
    ensures
        ({
            let start = seq!['"'] + text::joined(pieces);
            let at = encode_utf8(start).len();
            &&& grammar::document(start) == Err::<Json, (ErrorKind, nat)>(
                (ErrorKind::UnterminatedString, at),
            )
            &&& grammar::document(start + seq!['\\']) == Err::<Json, (ErrorKind, nat)>(
                (ErrorKind::UnterminatedString, at + 1),
            )
        }),
{
    let start = seq!['"'] + text::joined(pieces);
    let n = start.len() as int;
    let none = Seq::<char>::empty();
    lemma_bad_string(pieces, chars, none);
    assert(start + none =~= start);
    let a = seq!['\\'];
    lemma_bad_string(pieces, chars, a);
    assert((start + a)[n] == '\\');
    assert((start + a).take(n + 1) =~= start + a);
    text::lemma_encode_concat(start, a);
    assert(vstd::utf8::is_ascii_chars(a));
    vstd::utf8::is_ascii_chars_encode_utf8(a);
}

/// A control character in a string is reported where it stands.
pub proof fn law_control_characters_are_reported(
    pieces: Seq<Seq<char>>,
    chars: Seq<char>,
    c: char,
    behind: Seq<char>,
)
    requires
        spell(pieces, chars),
        (c as int) < 0x20,
    ensures
        grammar::document(seq!['"'] + text::joined(pieces) + seq![c] + behind) == Err::<
            Json,
            (ErrorKind, nat),
        >((ErrorKind::ControlCharacter, encode_utf8(seq!['"'] + text::joined(pieces)).len())),
{
    let start = seq!['"'] + text::joined(pieces);
    let n = start.len() as int;
    let tail = seq![c] + behind;
    lemma_bad_string(pieces, chars, tail);
    assert(start + seq![c] + behind =~= start + tail);
    assert((start + tail)[n] == c);
}

/// A backslash that is followed by a character that it does not go with is reported where it
/// stands.
pub proof fn law_unknown_escapes_are_reported(
    pieces: Seq<Seq<char>>,
    chars: Seq<char>,
    c: char,
    behind: Seq<char>,
)
    requires
        spell(pieces, chars),
        c != 'u',
        forall|e: char| !is_short_escape(c, e),
    ensures
        grammar::document(seq!['"'] + text::joined(pieces) + seq!['\\', c] + behind) == Err::<
            Json,
            (ErrorKind, nat),
        >((ErrorKind::InvalidEscape, encode_utf8(seq!['"'] + text::joined(pieces)).len())),
{
    let start = seq!['"'] + text::joined(pieces);
    let n = start.len() as int;
    let tail = seq!['\\', c] + behind;
    lemma_bad_string(pieces, chars, tail);
    assert(start + seq!['\\', c] + behind =~= start + tail);
    assert((start + tail)[n] == '\\');
    assert((start + tail)[n + 1] == c);
    assert(!is_short_escape(c, '\u{8}'));
    assert(!is_short_escape(c, '\t'));
    assert(!is_short_escape(c, '\n'));
    assert(!is_short_escape(c, '\u{c}'));
    assert(!is_short_escape(c, '\r'));
    assert(!is_short_escape(c, c));
}

/// A backslash and a `u` are reported where they stand, unless the code of a character or the
/// codes of a pair of surrogates follow.
pub proof fn law_bad_codes_are_reported(
    pieces: Seq<Seq<char>>,
    chars: Seq<char>,
    behind: Seq<char>,
)
    requires
        spell(pieces, chars),
        is_no_code(behind),
    ensures
        grammar::document(seq!['"'] + text::joined(pieces) + behind) == Err::<Json, (ErrorKind, nat)>(
            (ErrorKind::InvalidUnicodeEscape, encode_utf8(seq!['"'] + text::joined(pieces)).len()),
        ),
{
    let start = seq!['"'] + text::joined(pieces);
    let n = start.len() as int;
    let s = start + behind;
    lemma_bad_string(pieces, chars, behind);
    assert(s[n] == '\\' && s[n + 1] == 'u');
    match grammar::escape(s, n) {
        Parsed::Done(found, q) => {
            lemma_piece(s, n, found, q);
            assert(s.subrange(n, q) =~= behind.take(q - n));
        },
        Parsed::Fail(_, _) => {},
    }
}

proof fn lemma_bad_string(pieces: Seq<Seq<char>>, chars: Seq<char>, behind: Seq<char>)
    requires
        spell(pieces, chars),
    ensures
        ({
            let start = seq!['"'] + text::joined(pieces);
            let s = start + behind;
            &&& grammar::string(s, start.len() as int) matches Parsed::Fail(kind, at)
                ==> grammar::document(s) == Err::<Json, (ErrorKind, nat)>(
                (kind, text::byte_offset(s, at)),
            )
            &&& text::byte_offset(s, start.len() as int) == encode_utf8(start).len()
        }),
{
    let start = seq!['"'] + text::joined(pieces);
    let s = start + behind;
    lemma_spelt_characters(seq!['"'], pieces, chars, behind);
    assert(s[0] == '"');
    assert(grammar::skip_space(s, 0) == 0);
    assert(s.take(start.len() as int) =~= start);
}

} // verus!

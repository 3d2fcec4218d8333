//! Where and why texts break off that denote nothing.
use crate::json;
use crate::json::grammar;
use crate::json::grammar::{ErrorKind, Parsed};
use crate::json::laws;
use crate::json::model;
use crate::json::model::Json;
use crate::json::structure;
use crate::table::Name;
use crate::text;
use vstd::prelude::*;
use vstd::utf8::encode_utf8;

verus! {

/// Whether `s` breaks off for the reason `kind`, right behind the bytes of `start`.
pub open spec fn breaks_off(s: Seq<char>, kind: ErrorKind, start: Seq<char>) -> bool {
    grammar::document(s) == Err::<Json, (ErrorKind, nat)>((kind, encode_utf8(start).len()))
}

#[verifier::rlimit(60)]
#[verifier::spinoff_prover]
proof fn lemma_breaks_off(s: Seq<char>, kind: ErrorKind, start: Seq<char>, rest: Seq<char>)
    requires
        s == start + rest,
        grammar::value(s, 0, 128) == Parsed::<Json>::Fail(kind, start.len() as int),
    ensures
        breaks_off(s, kind, start),
{
    assert(s.take(start.len() as int) =~= start);
}

/// A text with nothing but space in it breaks off at its end, where a value is needed.
#[verifier::rlimit(60)]
#[verifier::spinoff_prover]
pub proof fn law_blank_text_breaks_off(s: Seq<char>)
    requires
        structure::is_blank(s),
    ensures
        breaks_off(s, ErrorKind::UnexpectedEnd, s),
{
    assert(s.skip(0) =~= s);
    structure::lemma_blank_to_the_end(s, 0);
    assert(s + Seq::<char>::empty() =~= s);
    lemma_breaks_off(s, ErrorKind::UnexpectedEnd, s, Seq::empty());
}

/// What stands behind a whole text, if it is not space and does not go on with a number, is one
/// thing too many.
#[verifier::rlimit(60)]
#[verifier::spinoff_prover]
pub proof fn law_more_than_a_text_breaks_off(a: Seq<char>, v: Json, c: char, rest: Seq<char>)
    requires
        structure::denotes(a, v),
        !structure::is_blank(seq![c]),
        !text::is_digit(c) && c != '.' && c != 'e' && c != 'E',
    ensures
        breaks_off(a + seq![c] + rest, ErrorKind::TrailingCharacters, a),
{
    let s = a + seq![c] + rest;
    let none = Seq::<char>::empty();
    let behind = seq![c] + rest;
    laws::law_parsed_value_is_bounded(a);
    assert(model::depth(v) <= 128) by {
        reveal(structure::denotes);
    }
    let end = structure::lemma_text_is_read(none, a, behind, v, 128);
    assert(none + a + behind =~= s);
    assert(s[a.len() as int] == c);
    assert(!grammar::is_space(c)) by {
        if grammar::is_space(c) {
            assert(structure::is_blank(seq![c]));
        }
    }
    assert(s.take(a.len() as int) =~= a);
}

/// A character that starts no value breaks a text off where it stands.
#[verifier::rlimit(60)]
#[verifier::spinoff_prover]
pub proof fn law_what_starts_no_value_breaks_off(before: Seq<char>, c: char, rest: Seq<char>)
    requires
        structure::is_blank(before),
        !structure::is_blank(seq![c]),
        !text::is_digit(c),
        !seq!['-', '"', '[', '{', 'n', 't', 'f'].contains(c),
    ensures
        breaks_off(before + seq![c] + rest, ErrorKind::ExpectedValue, before),
{
    let s = before + seq![c] + rest;
    let starts = seq!['-', '"', '[', '{', 'n', 't', 'f'];
    assert(starts[0] == '-' && starts[1] == '"' && starts[2] == '[' && starts[3] == '{');
    assert(starts[4] == 'n' && starts[5] == 't' && starts[6] == 'f');
    lemma_start(before, c, rest);
    assert(s =~= before + (seq![c] + rest));
    lemma_breaks_off(s, ErrorKind::ExpectedValue, before, seq![c] + rest);
}

#[verifier::rlimit(60)]
#[verifier::spinoff_prover]
proof fn lemma_start(before: Seq<char>, c: char, rest: Seq<char>)
    requires
        structure::is_blank(before),
        !structure::is_blank(seq![c]),
    ensures
        grammar::skip_space(before + seq![c] + rest, 0) == before.len(),
        (before + seq![c] + rest)[before.len() as int] == c,
        !grammar::is_space(c),
{
    let s = before + seq![c] + rest;
    assert(s.subrange(0, before.len() as int) =~= before);
    structure::lemma_blanks_are_skipped(s, 0, before.len() as int);
    assert(s[before.len() as int] == c);
    if grammar::is_space(c) {
        assert(structure::is_blank(seq![c]));
    }
}

/// A word that starts like null, true or false and is none of them breaks a text off where the
/// word starts.
#[verifier::rlimit(60)]
#[verifier::spinoff_prover]
pub proof fn law_other_words_break_off(before: Seq<char>, word: Seq<char>)
    requires
        structure::is_blank(before),
        word.len() > 0,
        word[0] == 'n' || word[0] == 't' || word[0] == 'f',
        word.len() >= 4 ==> word.take(4) != seq!['n', 'u', 'l', 'l'] && word.take(4) != seq![
            't',
            'r',
            'u',
            'e',
        ],
        word.len() >= 5 ==> word.take(5) != seq!['f', 'a', 'l', 's', 'e'],
    ensures
        breaks_off(before + word, ErrorKind::InvalidLiteral, before),
{
    let s = before + word;
    let p = before.len() as int;
    assert(s =~= before + seq![word[0]] + word.skip(1));
    assert(!structure::is_blank(seq![word[0]])) by {
        assert(seq![word[0]][0] == word[0]);
    }
    lemma_start(before, word[0], word.skip(1));
    if word.len() >= 4 {
        assert(s.subrange(p, p + 4) =~= word.take(4));
    }
    if word.len() >= 5 {
        assert(s.subrange(p, p + 5) =~= word.take(5));
    }
    lemma_breaks_off(s, ErrorKind::InvalidLiteral, before, word);
}

/// Whether no digit stands at the start of `s`.
pub open spec fn no_digit(s: Seq<char>) -> bool {
    s.len() == 0 || !text::is_digit(s[0])
}

/// A number breaks off where a digit is missing: behind its minus sign, behind its point, or
/// behind the letter or the sign of its exponent. A digit behind a zero in front is one thing too
/// many.
#[verifier::rlimit(60)]
#[verifier::spinoff_prover]
pub proof fn law_missing_digits_break_off(
    minus: Seq<char>,
    whole: Seq<char>,
    fraction: Seq<char>,
    letter: Seq<char>,
    digit: char,
    rest: Seq<char>,
)
    requires
        structure::is_numeral(
            minus + whole + fraction,
            minus,
            whole,
            fraction,
            Seq::<char>::empty(),
        ),
        letter.len() == 1 || (letter.len() == 2 && (letter[1] == '+' || letter[1] == '-')),
        letter[0] == 'e' || letter[0] == 'E',
        text::is_digit(digit),
        no_digit(rest),
        letter.len() == 1 ==> (rest.len() > 0 ==> rest[0] != '+' && rest[0] != '-'),
    ensures
        breaks_off(seq!['-'] + rest, ErrorKind::InvalidNumber, seq!['-']),
        breaks_off(
            minus + whole + seq!['.'] + rest,
            ErrorKind::InvalidNumber,
            minus + whole + seq!['.'],
        ),
        breaks_off(
            minus + whole + fraction + letter + rest,
            ErrorKind::InvalidNumber,
            minus + whole + fraction + letter,
        ),
        whole == seq!['0'] ==> breaks_off(
            minus + whole + (seq![digit] + rest),
            ErrorKind::TrailingCharacters,
            minus + whole,
        ),
{
    lemma_sign_breaks_off(rest);
    lemma_point_breaks_off(minus, whole, rest);
    lemma_exponent_breaks_off(minus, whole, fraction, letter, rest);
    if whole == seq!['0'] {
        lemma_zero_breaks_off(minus, digit, rest);
    }
}

#[verifier::rlimit(60)]
#[verifier::spinoff_prover]
proof fn lemma_sign_breaks_off(rest: Seq<char>)
    requires
        no_digit(rest),
    ensures
        breaks_off(seq!['-'] + rest, ErrorKind::InvalidNumber, seq!['-']),
{
    let s = seq!['-'] + rest;
    assert(s[0] == '-');
    if rest.len() > 0 {
        assert(s[1] == rest[0]);
    }
    assert(grammar::skip_space(s, 0) == 0);
    assert(grammar::number(s, 0) == Parsed::<Seq<char>>::Fail(ErrorKind::InvalidNumber, 1));
    lemma_breaks_off(s, ErrorKind::InvalidNumber, seq!['-'], rest);
}

#[verifier::rlimit(60)]
#[verifier::spinoff_prover]
proof fn lemma_point_breaks_off(minus: Seq<char>, whole: Seq<char>, rest: Seq<char>)
    requires
        minus == Seq::<char>::empty() || minus == seq!['-'],
        text::all_digits(whole),
        whole.len() == 1 || whole[0] != '0',
        no_digit(rest),
    ensures
        breaks_off(
            minus + whole + seq!['.'] + rest,
            ErrorKind::InvalidNumber,
            minus + whole + seq!['.'],
        ),
{
    let b = (minus.len() + whole.len()) as int;
    let behind = seq!['.'] + rest;
    let s = minus + whole + behind;
    assert(behind[0] == '.');
    lemma_whole_is_read(minus, whole, behind);
    assert(s =~= minus + whole + seq!['.'] + rest);
    assert(s[b] == '.');
    if rest.len() > 0 {
        assert(s[b + 1] == rest[0]);
    }
    assert(grammar::digits_end(s, b + 1) == b + 1);
    assert(grammar::fraction_part(s, b) == Parsed::<()>::Fail(ErrorKind::InvalidNumber, b + 1));
    assert(grammar::number(s, 0) == Parsed::<Seq<char>>::Fail(ErrorKind::InvalidNumber, b + 1));
    lemma_breaks_off(s, ErrorKind::InvalidNumber, minus + whole + seq!['.'], rest);
}

#[verifier::rlimit(60)]
#[verifier::spinoff_prover]
proof fn lemma_zero_breaks_off(minus: Seq<char>, digit: char, rest: Seq<char>)
    requires
        minus == Seq::<char>::empty() || minus == seq!['-'],
        text::is_digit(digit),
    ensures
        breaks_off(
            minus + seq!['0'] + (seq![digit] + rest),
            ErrorKind::TrailingCharacters,
            minus + seq!['0'],
        ),
{
    let b = minus.len() + 1;
    let behind = seq![digit] + rest;
    let s = minus + seq!['0'] + behind;
    assert(text::all_digits(seq!['0']));
    lemma_whole_is_read(minus, seq!['0'], behind);
    assert(s[b as int] == digit);
    assert(grammar::fraction_part(s, b as int) == Parsed::Done((), b as int));
    assert(grammar::exponent_part(s, b as int) == Parsed::Done((), b as int));
    assert(grammar::number(s, 0) == Parsed::Done(s.subrange(0, b as int), b as int));
    assert(grammar::value(s, 0, 128) == Parsed::Done(
        Json::Number(s.subrange(0, b as int)),
        b as int,
    ));
    assert(grammar::skip_space(s, b as int) == b);
    assert(s.take(b as int) =~= minus + seq!['0']);
}

#[verifier::rlimit(60)]
#[verifier::spinoff_prover]
proof fn lemma_exponent_breaks_off(
    minus: Seq<char>,
    whole: Seq<char>,
    fraction: Seq<char>,
    letter: Seq<char>,
    rest: Seq<char>,
)
    requires
        structure::is_numeral(
            minus + whole + fraction,
            minus,
            whole,
            fraction,
            Seq::<char>::empty(),
        ),
        letter.len() == 1 || (letter.len() == 2 && (letter[1] == '+' || letter[1] == '-')),
        letter[0] == 'e' || letter[0] == 'E',
        no_digit(rest),
        letter.len() == 1 ==> (rest.len() > 0 ==> rest[0] != '+' && rest[0] != '-'),
    ensures
        breaks_off(
            minus + whole + fraction + letter + rest,
            ErrorKind::InvalidNumber,
            minus + whole + fraction + letter,
        ),
{
    let a = minus.len() as int;
    let b = a + whole.len();
    let c = b + fraction.len();
    let e = c + letter.len();
    let s = minus + whole + fraction + letter + rest;
    let behind = fraction + letter + rest;
    assert(s =~= minus + whole + behind);
    assert(text::is_digit(whole[0]));
    if fraction.len() == 0 {
        assert(behind[0] == letter[0]);
    } else {
        assert(behind[0] == fraction[0]);
    }
    lemma_whole_is_read(minus, whole, behind);
    assert(s[c] == letter[0]);
    if fraction.len() > 0 {
        assert(s[b] == '.');
        assert forall|i: int| b + 1 <= i < c implies text::is_digit(#[trigger] s[i]) by {
            assert(s[i] == fraction.skip(1)[i - b - 1]);
        }
        laws::lemma_digits_to(s, b + 1, c);
    }
    assert(grammar::fraction_part(s, b) == Parsed::Done((), c));
    if letter.len() == 2 {
        assert(s[c + 1] == letter[1]);
    }
    if rest.len() > 0 {
        assert(s[e] == rest[0]);
    }
    assert(grammar::digits_end(s, e) == e);
    assert(grammar::exponent_part(s, c) == Parsed::<()>::Fail(ErrorKind::InvalidNumber, e));
    assert(grammar::number(s, 0) == Parsed::<Seq<char>>::Fail(ErrorKind::InvalidNumber, e));
    lemma_breaks_off(s, ErrorKind::InvalidNumber, minus + whole + fraction + letter, rest);
}

/// The digits before the point are read, up to what is no digit, or to a zero in front.
#[verifier::rlimit(60)]
#[verifier::spinoff_prover]
proof fn lemma_whole_is_read(minus: Seq<char>, whole: Seq<char>, behind: Seq<char>)
    requires
        minus == Seq::<char>::empty() || minus == seq!['-'],
        text::all_digits(whole),
        whole.len() == 1 || whole[0] != '0',
        whole == seq!['0'] || no_digit(behind),
    ensures
        ({
            let s = minus + whole + behind;
            let a = minus.len() as int;
            &&& grammar::whole_part(s, a) == Parsed::Done((), a + whole.len())
            &&& s[0] == '-' || text::is_digit(s[0])
            &&& (s[0] == '-') == (a == 1)
            &&& grammar::skip_space(s, 0) == 0
        }),
{
    let s = minus + whole + behind;
    let a = minus.len() as int;
    let b = a + whole.len();
    assert(text::is_digit(whole[0]));
    assert(s[a] == whole[0]);
    if a == 1 {
        assert(s[0] == minus[0]);
    }
    assert forall|i: int| a <= i < b implies text::is_digit(#[trigger] s[i]) by {
        assert(s[i] == whole[i - a]);
    }
    if behind.len() > 0 {
        assert(s[b] == behind[0]);
    }
    if whole[0] != '0' {
        laws::lemma_digits_to(s, a, b);
    }
}

/// So many opening brackets.
pub open spec fn brackets(n: nat) -> Seq<char> {
    Seq::new(n, |i: int| '[')
}

#[verifier::rlimit(60)]
#[verifier::spinoff_prover]
proof fn lemma_deep(n: nat, rest: Seq<char>, k: nat)
    requires
        k <= 128 < n,
    ensures
        grammar::value(brackets(n) + rest, k as int, (128 - k) as nat) == Parsed::<Json>::Fail(
            ErrorKind::TooDeep,
            128,
        ),
    decreases 128 - k,
{
    let s = brackets(n) + rest;
    assert(s[k as int] == '[');
    if k < 128 {
        assert(s[(k + 1) as int] == '[');
        lemma_deep(n, rest, k + 1);
        assert(grammar::skip_space(s, (k + 1) as int) == k + 1);
    }
}

/// Arrays may be nested 128 deep: the next opening bracket breaks a text off where it stands.
#[verifier::rlimit(60)]
#[verifier::spinoff_prover]
pub proof fn law_deep_nesting_breaks_off(n: nat, rest: Seq<char>)
    requires
        n > 128,
    ensures
        breaks_off(brackets(n) + rest, ErrorKind::TooDeep, brackets(128)),
{
    let s = brackets(n) + rest;
    lemma_deep(n, rest, 0);
    assert(s =~= brackets(128) + s.skip(128));
    lemma_breaks_off(s, ErrorKind::TooDeep, brackets(128), s.skip(128));
}

// ---------------------------------------------------------------------------------------------
// Arrays
// ---------------------------------------------------------------------------------------------

/// `rest` with `list` in front.
pub open spec fn led_by<T>(list: Seq<T>, rest: Parsed<Seq<T>>) -> Parsed<Seq<T>> {
    match rest {
        Parsed::Fail(kind, at) => Parsed::Fail(kind, at),
        Parsed::Done(more, end) => Parsed::Done(list + more, end),
    }
}

/// Whole items, each with a comma behind it, are read one after the other.
#[verifier::rlimit(60)]
#[verifier::spinoff_prover]
pub proof fn lemma_items_then(
    before: Seq<char>,
    texts: Seq<Seq<char>>,
    list: Seq<Json>,
    behind: Seq<char>,
    room: nat,
)
    requires
        structure::all_denote(texts, list),
        list.len() > 0,
        forall|i: int| 0 <= i < list.len() ==> model::depth(#[trigger] list[i]) <= room,
    ensures
        ({
            let s = before + structure::commas(texts) + seq![','] + behind;
            let at = (before.len() + structure::commas(texts).len() + 1) as int;
            grammar::items(s, before.len() as int, room) == led_by(
                list,
                grammar::items(s, at, room),
            )
        }),
    decreases texts.len(),
{
    let s = before + structure::commas(texts) + seq![','] + behind;
    let last = (before.len() + structure::commas(texts).len() + 1) as int;
    structure::lemma_all_denote_rest(texts, list);
    let at = (before.len() + texts[0].len()) as int;
    let more = structure::commas(texts.drop_first());
    let rest = if texts.len() == 1 {
        seq![','] + behind
    } else {
        seq![','] + more + seq![','] + behind
    };
    assert(s =~= before + texts[0] + rest);
    let end = structure::lemma_text_is_read(before, texts[0], rest, list[0], room);
    assert(s[at] == ',');
    assert(grammar::skip_space(s, at) == at);
    assert(grammar::items(s, before.len() as int, room) == grammar::preceded(
        list[0],
        grammar::items(s, at + 1, room),
    ));
    if texts.len() == 1 {
        assert(list =~= seq![list[0]]);
    } else {
        let start = before + texts[0] + seq![','];
        assert(s =~= start + more + seq![','] + behind);
        assert forall|i: int| 0 <= i < list.len() - 1 implies model::depth(
            #[trigger] list.drop_first()[i],
        ) <= room by {
            assert(model::depth(list[i + 1]) <= room);
        }
        lemma_items_then(start, texts.drop_first(), list.drop_first(), behind, room);
        match grammar::items(s, last, room) {
            Parsed::Done(found, _) => {
                assert(seq![list[0]] + (list.drop_first() + found) =~= list + found);
            },
            Parsed::Fail(_, _) => {},
        }
    }
}

/// A fault that shows in the items shows in the array.
#[verifier::rlimit(60)]
#[verifier::spinoff_prover]
proof fn lemma_array_breaks_off(s: Seq<char>, kind: ErrorKind, start: Seq<char>, rest: Seq<char>)
    requires
        s == start + rest,
        start.len() > 0,
        s[0] == '[',
        grammar::items(s, 1, 127) == Parsed::<Seq<Json>>::Fail(kind, start.len() as int),
        ({
            let r = grammar::skip_space(s, 1);
            r < s.len() ==> s[r] != ']'
        }),
    ensures
        breaks_off(s, kind, start),
{
    assert(grammar::skip_space(s, 0) == 0);
    lemma_breaks_off(s, kind, start, rest);
}

/// A comma in an array that no further item follows breaks the text off where the item is
/// missing.
#[verifier::rlimit(60)]
#[verifier::spinoff_prover]
pub proof fn law_missing_item_breaks_off(
    texts: Seq<Seq<char>>,
    list: Seq<Json>,
    blank: Seq<char>,
    c: char,
    rest: Seq<char>,
)
    requires
        structure::all_denote(texts, list),
        list.len() > 0,
        forall|i: int| 0 <= i < list.len() ==> model::depth(#[trigger] list[i]) < 128,
        structure::is_blank(blank),
        c == ']' || c == ',',
    ensures
        breaks_off(
            seq!['['] + structure::commas(texts) + seq![','] + blank + seq![c] + rest,
            ErrorKind::ExpectedValue,
            seq!['['] + structure::commas(texts) + seq![','] + blank,
        ),
{
    let start = seq!['['] + structure::commas(texts) + seq![','] + blank;
    let behind = blank + seq![c] + rest;
    let s = seq!['['] + structure::commas(texts) + seq![','] + behind;
    assert(s =~= start + (seq![c] + rest));
    assert(s =~= seq!['['] + structure::commas(texts) + seq![','] + blank + seq![c] + rest);
    lemma_items_then(seq!['['], texts, list, behind, 127);
    let at = (structure::commas(texts).len() + 2) as int;
    assert(s.subrange(at, at + blank.len()) =~= blank);
    structure::lemma_blanks_are_skipped(s, at, at + blank.len());
    assert(s[at + blank.len()] == c);
    assert(grammar::skip_space(s, at) == at + blank.len());
    assert(grammar::value(s, at, 127) == Parsed::<Json>::Fail(
        ErrorKind::ExpectedValue,
        start.len() as int,
    ));
    assert(grammar::items(s, at, 127) == Parsed::<Seq<Json>>::Fail(
        ErrorKind::ExpectedValue,
        start.len() as int,
    ));
    lemma_first_item(texts, list, seq![','] + behind);
    assert(s =~= seq!['['] + structure::commas(texts) + (seq![','] + behind));
    lemma_array_breaks_off(s, ErrorKind::ExpectedValue, start, seq![c] + rest);
}

/// Behind the opening bracket stands the first item.
#[verifier::rlimit(60)]
#[verifier::spinoff_prover]
pub proof fn lemma_first_item(texts: Seq<Seq<char>>, list: Seq<Json>, behind: Seq<char>)
    requires
        structure::all_denote(texts, list),
        list.len() > 0,
        forall|i: int| 0 <= i < list.len() ==> model::depth(#[trigger] list[i]) < 128,
        laws::ends_number(behind, 0),
    ensures
        ({
            let s = seq!['['] + structure::commas(texts) + behind;
            let r = grammar::skip_space(s, 1);
            &&& r < s.len() ==> s[r] != ']'
            &&& s[0] == '['
        }),
{
    let s = seq!['['] + structure::commas(texts) + behind;
    structure::lemma_all_denote_rest(texts, list);
    let rest = if texts.len() == 1 {
        behind
    } else {
        seq![','] + structure::commas(texts.drop_first()) + behind
    };
    assert(s =~= seq!['['] + texts[0] + rest);
    let end = structure::lemma_text_is_read(seq!['['], texts[0], rest, list[0], 127);
    assert(grammar::value(s, 1, 127) is Done);
}

/// What follows an item of an array, if it is neither a comma nor a closing bracket nor space nor
/// something that goes on with a number, breaks the text off where it stands; and an array that
/// is not closed breaks off at the end of the text.
#[verifier::rlimit(60)]
#[verifier::spinoff_prover]
pub proof fn law_unclosed_array_breaks_off(
    texts: Seq<Seq<char>>,
    list: Seq<Json>,
    c: char,
    rest: Seq<char>,
)
    requires
        structure::all_denote(texts, list),
        list.len() > 0,
        forall|i: int| 0 <= i < list.len() ==> model::depth(#[trigger] list[i]) < 128,
        !structure::is_blank(seq![c]),
        !text::is_digit(c) && c != '.' && c != 'e' && c != 'E' && c != ',' && c != ']',
    ensures
        breaks_off(
            seq!['['] + structure::commas(texts) + seq![c] + rest,
            ErrorKind::ExpectedCommaOrBracket,
            seq!['['] + structure::commas(texts),
        ),
        breaks_off(
            seq!['['] + structure::commas(texts),
            ErrorKind::UnexpectedEnd,
            seq!['['] + structure::commas(texts),
        ),
{
    let start = seq!['['] + structure::commas(texts);
    let none = Seq::<char>::empty();
    let behind = seq![c] + rest;
    assert(!grammar::is_space(c)) by {
        if grammar::is_space(c) {
            assert(structure::is_blank(seq![c]));
        }
    }
    lemma_last_item(texts, list, behind);
    lemma_first_item(texts, list, behind);
    let s = start + behind;
    assert(start + seq![c] + rest =~= s);
    assert(s[start.len() as int] == c);
    lemma_array_breaks_off(s, ErrorKind::ExpectedCommaOrBracket, start, behind);
    lemma_last_item(texts, list, none);
    lemma_first_item(texts, list, none);
    assert(start + none =~= start);
    lemma_array_breaks_off(start, ErrorKind::UnexpectedEnd, start, none);
}

/// Behind the last item, what stands there decides.
#[verifier::rlimit(60)]
#[verifier::spinoff_prover]
proof fn lemma_last_item(texts: Seq<Seq<char>>, list: Seq<Json>, behind: Seq<char>)
    requires
        structure::all_denote(texts, list),
        list.len() > 0,
        forall|i: int| 0 <= i < list.len() ==> model::depth(#[trigger] list[i]) < 128,
        laws::ends_number(behind, 0),
        behind.len() > 0 ==> !grammar::is_space(behind[0]) && behind[0] != ',' && behind[0] != ']',
    ensures
        grammar::items(seq!['['] + structure::commas(texts) + behind, 1, 127) == Parsed::<Seq<Json>>::Fail(
            if behind.len() == 0 {
                ErrorKind::UnexpectedEnd
            } else {
                ErrorKind::ExpectedCommaOrBracket
            },
            (1 + structure::commas(texts).len()) as int,
        ),
{
    let s = seq!['['] + structure::commas(texts) + behind;
    let n = texts.len() as int;
    let at = (1 + structure::commas(texts).len()) as int;
    let init = texts.drop_last();
    let last = texts.last();
    assert(structure::denotes(texts[n - 1], list[n - 1]));
    assert(model::depth(list[n - 1]) < 128);
    lemma_commas_end(texts);
    let before = if n == 1 {
        seq!['[']
    } else {
        seq!['['] + structure::commas(init) + seq![',']
    };
    assert(s =~= before + last + behind);
    let end = structure::lemma_text_is_read(before, last, behind, list[n - 1], 127);
    if behind.len() > 0 {
        assert(s[at] == behind[0]);
    }
    assert(grammar::skip_space(s, at) == at);
    if n > 1 {
        assert forall|i: int| 0 <= i < n - 1 implies structure::denotes(
            #[trigger] init[i],
            list.drop_last()[i],
        ) by {
            assert(structure::denotes(texts[i], list[i]));
        }
        assert forall|i: int| 0 <= i < n - 1 implies model::depth(
            #[trigger] list.drop_last()[i],
        ) <= 127 by {
            assert(model::depth(list[i]) < 128);
        }
        lemma_items_then(seq!['['], init, list.drop_last(), last + behind, 127);
        assert(s =~= seq!['['] + structure::commas(init) + seq![','] + (last + behind));
    }
}

#[verifier::rlimit(60)]
#[verifier::spinoff_prover]
proof fn lemma_commas_end(texts: Seq<Seq<char>>)
    requires
        texts.len() > 0,
    ensures
        texts.len() == 1 ==> structure::commas(texts) == texts.last(),
        texts.len() > 1 ==> structure::commas(texts) == structure::commas(texts.drop_last()) + seq![','] + texts.last(),
    decreases texts.len(),
{
    if texts.len() > 1 {
        let rest = texts.drop_first();
        lemma_commas_end(rest);
        assert(rest.last() == texts.last());
        if texts.len() == 2 {
            assert(texts.drop_last().len() == 1);
            assert(texts.drop_last()[0] == texts[0]);
            assert(structure::commas(texts) =~= structure::commas(texts.drop_last()) + seq![','] + texts.last());
        } else {
            assert(texts.drop_last().drop_first() =~= rest.drop_last());
            assert(texts.drop_last()[0] == texts[0]);
            assert(structure::commas(texts) =~= structure::commas(texts.drop_last()) + seq![','] + texts.last());
        }
    }
}

// ---------------------------------------------------------------------------------------------
// Objects
// ---------------------------------------------------------------------------------------------

/// An object whose first member has no quoted name, or no colon behind it, breaks off where these
/// are missing.
#[verifier::rlimit(60)]
#[verifier::spinoff_prover]
pub proof fn law_bad_member_breaks_off(
    blank: Seq<char>,
    name_text: Seq<char>,
    name: Name,
    c: char,
    rest: Seq<char>,
)
    requires
        structure::is_blank(blank),
        structure::denotes(name_text, Json::Text(name)),
        !structure::is_blank(seq![c]),
    ensures
        c != '"' && c != '}' ==> breaks_off(
            seq!['{'] + blank + seq![c] + rest,
            ErrorKind::ExpectedKey,
            seq!['{'] + blank,
        ),
        breaks_off(seq!['{'] + blank, ErrorKind::UnexpectedEnd, seq!['{'] + blank),
        c != ':' && !text::is_digit(c) && c != '.' && c != 'e' && c != 'E' ==> breaks_off(
            seq!['{'] + name_text + seq![c] + rest,
            ErrorKind::ExpectedColon,
            seq!['{'] + name_text,
        ),
        breaks_off(seq!['{'] + name_text, ErrorKind::UnexpectedEnd, seq!['{'] + name_text),
{
    let none = Seq::<char>::empty();
    assert(!grammar::is_space(c)) by {
        if grammar::is_space(c) {
            assert(structure::is_blank(seq![c]));
        }
    }
    let start = seq!['{'] + blank;
    let n = start.len() as int;
    let s = start + (seq![c] + rest);
    assert(start + seq![c] + rest =~= s);
    assert(s[0] == '{');
    assert(s.subrange(1, n) =~= blank);
    structure::lemma_blanks_are_skipped(s, 1, n);
    assert(s[n] == c);
    if c != '"' && c != '}' {
        lemma_breaks_off(s, ErrorKind::ExpectedKey, start, seq![c] + rest);
    }
    assert(start.subrange(1, n) =~= blank);
    structure::lemma_blanks_are_skipped(start, 1, n);
    assert(start[0] == '{');
    assert(start + none =~= start);
    lemma_breaks_off(start, ErrorKind::UnexpectedEnd, start, none);
    let named = seq!['{'] + name_text;
    let k = named.len() as int;
    if c != ':' && !text::is_digit(c) && c != '.' && c != 'e' && c != 'E' {
        let behind = seq![c] + rest;
        let t = named + behind;
        assert(named + seq![c] + rest =~= t);
        let end = structure::lemma_text_is_read(seq!['{'], name_text, behind, Json::Text(name), 0);
        assert(t[0] == '{');
        assert(t[k] == c);
        grammar::lemma_skip_space(t, 1);
        lemma_breaks_off(t, ErrorKind::ExpectedColon, named, behind);
    }
    let end = structure::lemma_text_is_read(seq!['{'], name_text, none, Json::Text(name), 0);
    assert(named + none =~= named);
    assert(named[0] == '{');
    grammar::lemma_skip_space(named, 1);
    lemma_breaks_off(named, ErrorKind::UnexpectedEnd, named, none);
}

/// What follows the first member of an object, if it is neither a comma nor a closing brace nor
/// space nor something that goes on with a number, breaks the text off where it stands; and an
/// object that is not closed breaks off at the end of the text.
#[verifier::rlimit(60)]
#[verifier::spinoff_prover]
pub proof fn law_unclosed_object_breaks_off(
    pair: (Seq<char>, Seq<char>),
    member: (Name, Json),
    c: char,
    rest: Seq<char>,
)
    requires
        structure::denotes(pair.0, Json::Text(member.0)),
        structure::denotes(pair.1, member.1),
        model::depth(member.1) < 128,
        !structure::is_blank(seq![c]),
        !text::is_digit(c) && c != '.' && c != 'e' && c != 'E' && c != ',' && c != '}',
    ensures
        ({
            let start = seq!['{'] + (pair.0 + seq![':'] + pair.1);
            &&& breaks_off(start + seq![c] + rest, ErrorKind::ExpectedCommaOrBrace, start)
            &&& breaks_off(start, ErrorKind::UnexpectedEnd, start)
        }),
{
    let start = seq!['{'] + (pair.0 + seq![':'] + pair.1);
    let none = Seq::<char>::empty();
    let n = start.len() as int;
    assert(!grammar::is_space(c)) by {
        if grammar::is_space(c) {
            assert(structure::is_blank(seq![c]));
        }
    }
    let behind = seq![c] + rest;
    let s = start + behind;
    assert(start + seq![c] + rest =~= s);
    assert(s[n] == c);
    let p = lemma_one_member(pair, member, behind);
    lemma_member_ends(s, p.0, p.1, n, member);
    lemma_breaks_off(s, ErrorKind::ExpectedCommaOrBrace, start, behind);
    assert(start + none =~= start);
    let q = lemma_one_member(pair, member, none);
    lemma_member_ends(start, q.0, q.1, n, member);
    lemma_breaks_off(start, ErrorKind::UnexpectedEnd, start, none);
}

/// A comma in an object that no quoted name follows breaks the text off where the name is
/// missing.
#[verifier::rlimit(60)]
#[verifier::spinoff_prover]
pub proof fn law_missing_name_breaks_off(
    pair: (Seq<char>, Seq<char>),
    member: (Name, Json),
    blank: Seq<char>,
    c: char,
    rest: Seq<char>,
)
    requires
        structure::denotes(pair.0, Json::Text(member.0)),
        structure::denotes(pair.1, member.1),
        model::depth(member.1) < 128,
        structure::is_blank(blank),
        !structure::is_blank(seq![c]),
        c != '"',
    ensures
        ({
            let start = seq!['{'] + (pair.0 + seq![':'] + pair.1);
            breaks_off(
                start + seq![','] + blank + seq![c] + rest,
                ErrorKind::ExpectedKey,
                start + seq![','] + blank,
            )
        }),
{
    let start = seq!['{'] + (pair.0 + seq![':'] + pair.1);
    let n = start.len() as int;
    assert(!grammar::is_space(c)) by {
        if grammar::is_space(c) {
            assert(structure::is_blank(seq![c]));
        }
    }
    let behind = seq![','] + blank + seq![c] + rest;
    let s = start + behind;
    let more = start + seq![','] + blank;
    let k = more.len() as int;
    assert(s =~= more + (seq![c] + rest));
    assert(s =~= start + seq![','] + blank + seq![c] + rest);
    assert(s[n] == ',');
    assert(s.subrange(n + 1, k) =~= blank);
    structure::lemma_blanks_are_skipped(s, n + 1, k);
    assert(s[k] == c);
    assert(grammar::skip_space(s, n + 1) == k);
    assert(grammar::key(s, n + 1) == Parsed::<Name>::Fail(ErrorKind::ExpectedKey, k));
    let p = lemma_one_member(pair, member, behind);
    lemma_member_ends(s, p.0, p.1, n, member);
    lemma_breaks_off(s, ErrorKind::ExpectedKey, more, seq![c] + rest);
}

/// The name and the value of the first member are read, up to what follows them.
#[verifier::rlimit(60)]
#[verifier::spinoff_prover]
proof fn lemma_one_member(
    pair: (Seq<char>, Seq<char>),
    member: (Name, Json),
    behind: Seq<char>,
) -> (at: (int, int))
    requires
        structure::denotes(pair.0, Json::Text(member.0)),
        structure::denotes(pair.1, member.1),
        model::depth(member.1) < 128,
        laws::ends_number(behind, 0),
        behind.len() > 0 ==> !grammar::is_space(behind[0]),
    ensures
        ({
            let start = seq!['{'] + (pair.0 + seq![':'] + pair.1);
            let s = start + behind;
            &&& s[0] == '{'
            &&& 1 < at.0
            &&& grammar::key(s, 1) == Parsed::Done(member.0, at.0)
            &&& grammar::value(s, at.0, 127) == Parsed::Done(member.1, at.1)
            &&& grammar::skip_space(s, at.1) == start.len()
        }),
{
    let (a, b) = pair;
    let start = seq!['{'] + (a + seq![':'] + b);
    let s = start + behind;
    let n = start.len() as int;
    let colon = seq!['{'] + a + seq![':'];
    assert(s =~= seq!['{'] + a + seq![':'] + (b + behind));
    structure::lemma_key_is_read(seq!['{'], a, b + behind, member.0);
    assert(s =~= colon + b + behind);
    let end = structure::lemma_text_is_read(colon, b, behind, member.1, 127);
    assert(s[0] == '{');
    if behind.len() > 0 {
        assert(s[n] == behind[0]);
    }
    assert(grammar::skip_space(s, n) == n);
    (colon.len() as int, end)
}

/// Behind the first member, what stands there decides.
#[verifier::rlimit(60)]
#[verifier::spinoff_prover]
proof fn lemma_member_ends(s: Seq<char>, a: int, q: int, n: int, member: (Name, Json))
    requires
        0 < n <= s.len(),
        s[0] == '{',
        1 < a,
        grammar::key(s, 1) == Parsed::Done(member.0, a),
        grammar::value(s, a, 127) == Parsed::Done(member.1, q),
        grammar::skip_space(s, q) == n,
        n < s.len() ==> s[n] != '}',
        n < s.len() && s[n] == ',' ==> grammar::key(s, n + 1) is Fail,
    ensures
        n == s.len() ==> grammar::value(s, 0, 128) == Parsed::<Json>::Fail(
            ErrorKind::UnexpectedEnd,
            n,
        ),
        n < s.len() && s[n] != ',' ==> grammar::value(s, 0, 128) == Parsed::<Json>::Fail(
            ErrorKind::ExpectedCommaOrBrace,
            n,
        ),
        n < s.len() && s[n] == ',' ==> grammar::value(s, 0, 128) == Parsed::<Json>::Fail(
            grammar::key(s, n + 1)->Fail_0,
            grammar::key(s, n + 1)->Fail_1,
        ),
{
    assert(grammar::skip_space(s, 0) == 0);
    let r = grammar::skip_space(s, 1);
    assert(r < s.len() && s[r] == '"');
    let read = grammar::members(s, 1, 127);
    if n == s.len() {
        assert(read == Parsed::<Seq<(Name, Json)>>::Fail(ErrorKind::UnexpectedEnd, n));
    } else if s[n] == ',' {
        let (kind, at) = (grammar::key(s, n + 1)->Fail_0, grammar::key(s, n + 1)->Fail_1);
        assert(grammar::members(s, n + 1, 127) == Parsed::<Seq<(Name, Json)>>::Fail(kind, at));
        assert(read == Parsed::<Seq<(Name, Json)>>::Fail(kind, at));
    } else {
        assert(read == Parsed::<Seq<(Name, Json)>>::Fail(ErrorKind::ExpectedCommaOrBrace, n));
    }
}

/// Every reason is told in words of its own.
pub proof fn law_reasons_differ(a: ErrorKind, b: ErrorKind)
    requires
        a != b,
    ensures
        json::reason(a) != json::reason(b),
        json::reason(ErrorKind::UnexpectedEnd) == "unexpected end of input"@,
        json::reason(ErrorKind::ExpectedValue) == "expected a value"@,
        json::reason(ErrorKind::ExpectedKey) == "expected a quoted object key"@,
        json::reason(ErrorKind::ExpectedColon) == "expected ':' after an object key"@,
        json::reason(ErrorKind::ExpectedCommaOrBrace)
            == "expected ',' or '}' after an object member"@,
        json::reason(ErrorKind::ExpectedCommaOrBracket)
            == "expected ',' or ']' after an array item"@,
        json::reason(ErrorKind::InvalidLiteral) == "invalid literal"@,
        json::reason(ErrorKind::InvalidNumber) == "invalid number"@,
        json::reason(ErrorKind::UnterminatedString) == "unterminated string"@,
        json::reason(ErrorKind::ControlCharacter) == "unescaped control character in a string"@,
        json::reason(ErrorKind::InvalidEscape) == "invalid escape sequence"@,
        json::reason(ErrorKind::InvalidUnicodeEscape) == "invalid unicode escape"@,
        json::reason(ErrorKind::TooDeep) == "nesting is too deep"@,
        json::reason(ErrorKind::TrailingCharacters) == "trailing characters after the value"@,
{
    lemma_reason(a);
    lemma_reason(b);
}

/// The length of each reason, and its first letter.
spec fn shape(kind: ErrorKind) -> (nat, char) {
    match kind {
        ErrorKind::UnexpectedEnd => (23, 'u'),
        ErrorKind::ExpectedValue => (16, 'e'),
        ErrorKind::ExpectedKey => (28, 'e'),
        ErrorKind::ExpectedColon => (32, 'e'),
        ErrorKind::ExpectedCommaOrBrace => (42, 'e'),
        ErrorKind::ExpectedCommaOrBracket => (39, 'e'),
        ErrorKind::InvalidLiteral => (15, 'i'),
        ErrorKind::InvalidNumber => (14, 'i'),
        ErrorKind::UnterminatedString => (19, 'u'),
        ErrorKind::ControlCharacter => (39, 'u'),
        ErrorKind::InvalidEscape => (23, 'i'),
        ErrorKind::InvalidUnicodeEscape => (22, 'i'),
        ErrorKind::TooDeep => (19, 'n'),
        ErrorKind::TrailingCharacters => (35, 't'),
    }
}

proof fn lemma_reason(kind: ErrorKind)
    ensures
        json::reason(kind).len() == shape(kind).0,
        json::reason(kind)[0] == shape(kind).1,
{
    reveal_strlit("unexpected end of input");
    reveal_strlit("expected a value");
    reveal_strlit("expected a quoted object key");
    reveal_strlit("expected ':' after an object key");
    reveal_strlit("expected ',' or '}' after an object member");
    reveal_strlit("expected ',' or ']' after an array item");
    reveal_strlit("invalid literal");
    reveal_strlit("invalid number");
    reveal_strlit("unterminated string");
    reveal_strlit("unescaped control character in a string");
    reveal_strlit("invalid escape sequence");
    reveal_strlit("invalid unicode escape");
    reveal_strlit("nesting is too deep");
    reveal_strlit("trailing characters after the value");
}

} // verus!

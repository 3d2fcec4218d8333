//! How values are written, and what their types are called.
use crate::json::model;
use crate::json::model::Json;
use crate::json::spelling;
use crate::json::structure;
use crate::table::Name;
use crate::text;
use vstd::prelude::*;

verus! {

// ---------------------------------------------------------------------------------------------
// Characters
// ---------------------------------------------------------------------------------------------

/// Whether there is a capital letter in `piece`.
pub open spec fn has_capital(piece: Seq<char>) -> bool {
    exists|i: int| 0 <= i < piece.len() && 'A' <= #[trigger] piece[i] <= 'Z'
}

proof fn lemma_small_digit(c: char, d: int)
    requires
        spelling::is_hex_digit(c, d),
        !('A' <= c <= 'Z'),
    ensures
        0 <= d < 16,
        c == model::hex_char(d as nat),
{
    reveal(spelling::is_hex_digit);
}

proof fn lemma_digit_is_small(d: int)
    requires
        0 <= d < 16,
    ensures
        spelling::is_hex_digit(model::hex_char(d as nat), d),
        !('A' <= model::hex_char(d as nat) <= 'Z'),
{
    reveal(spelling::is_hex_digit);
}

/// A character is written in the shortest way that spells it, with small letters.
pub proof fn law_characters_are_written_shortest(c: char, piece: Seq<char>)
    requires
        spelling::spells(piece, c),
    ensures
        spelling::spells(model::escaped_char(c), c),
        model::escaped_char(c).len() <= piece.len(),
        piece.len() == model::escaped_char(c).len() && (piece.len() < 6 || !has_capital(piece))
            ==> piece == model::escaped_char(c),
        model::escaped_char(c).len() == 6 ==> !has_capital(model::escaped_char(c)),
{
    let e = model::escaped_char(c);
    if e.len() == 6 {
        let n = c as int;
        assert(n < 0x20);
        assert(n / 0x1000 == 0);
        assert(n / 0x100 % 0x10 == 0);
        assert(n / 0x10 % 0x10 == n / 16);
        lemma_digit_is_small(0);
        lemma_digit_is_small(n / 16);
        lemma_digit_is_small(n % 16);
        assert(spelling::is_code(e, n));
        if piece.len() == 6 && !has_capital(piece) {
            assert(spelling::is_code(piece, n));
            assert forall|i: int| 0 <= i < 6 implies !('A' <= #[trigger] piece[i] <= 'Z') by {}
            lemma_small_digit(piece[2], 0);
            lemma_small_digit(piece[3], 0);
            lemma_small_digit(piece[4], n / 16);
            lemma_small_digit(piece[5], n % 16);
            assert(piece =~= e);
        }
    } else if e.len() == 2 {
        if piece.len() == 2 {
            assert(piece =~= e);
        }
    } else {
        assert(e =~= seq![c]);
    }
}

/// A text is written as its characters one behind the other, between quotes.
pub proof fn law_texts_are_written_by_character(a: Seq<char>, b: Seq<char>, c: char)
    ensures
        model::json_text(Json::Text(a)) == seq!['"'] + model::escaped(a) + seq!['"'],
        model::escaped(a + b) == model::escaped(a) + model::escaped(b),
        model::escaped(seq![c]) == model::escaped_char(c),
        model::escaped(Seq::empty()) == Seq::<char>::empty(),
    decreases a.len(),
{
    reveal_with_fuel(model::escaped, 2);
    assert(seq![c].drop_first() =~= Seq::<char>::empty());
    assert(model::escaped(seq![c]) =~= model::escaped_char(c));
    if a.len() == 0 {
        assert(a + b =~= b);
        assert(model::escaped(a) + model::escaped(b) =~= model::escaped(b));
    } else {
        law_texts_are_written_by_character(a.drop_first(), b, c);
        assert((a + b).drop_first() =~= a.drop_first() + b);
        assert(model::escaped(a + b) =~= model::escaped(a) + model::escaped(b));
    }
}

// ---------------------------------------------------------------------------------------------
// Values
// ---------------------------------------------------------------------------------------------

/// How the items are written.
pub open spec fn item_texts(items: Seq<Json>) -> Seq<Seq<char>> {
    Seq::new(items.len(), |i: int| model::json_text(items[i]))
}

/// How the members are written, each as its quoted name and its value.
pub open spec fn member_texts(members: Seq<(Name, Json)>) -> Seq<(Seq<char>, Seq<char>)> {
    Seq::new(
        members.len(),
        |i: int|
            (model::json_text(Json::Text(members[i].0)), model::json_text(members[i].1)),
    )
}

/// A value is written without any space: a word or a number as it is, an array as its items with
/// commas between them, in brackets, and an object as its members with commas between them, in
/// braces, a colon between the name and the value of each.
pub proof fn law_values_are_written_without_space(
    items: Seq<Json>,
    members: Seq<(Name, Json)>,
    lexeme: Seq<char>,
)
    ensures
        model::json_text(Json::Null) == seq!['n', 'u', 'l', 'l'],
        model::json_text(Json::Bool(true)) == seq!['t', 'r', 'u', 'e'],
        model::json_text(Json::Bool(false)) == seq!['f', 'a', 'l', 's', 'e'],
        model::json_text(Json::Number(lexeme)) == lexeme,
        model::json_text(Json::Array(items)) == seq!['['] + structure::commas(item_texts(items))
            + seq![']'],
        model::json_text(Json::Object(members)) == seq!['{'] + structure::commas(
            structure::pairs(member_texts(members)),
        ) + seq!['}'],
{
    lemma_items_written(items);
    lemma_members_written(members);
}

proof fn lemma_items_written(items: Seq<Json>)
    ensures
        model::items_text(items) == structure::commas(item_texts(items)),
    decreases items.len(),
{
    if items.len() > 1 {
        lemma_items_written(items.drop_first());
        assert(item_texts(items).drop_first() =~= item_texts(items.drop_first()));
    }
}

proof fn lemma_members_written(members: Seq<(Name, Json)>)
    ensures
        model::members_text(members) == structure::commas(
            structure::pairs(member_texts(members)),
        ),
    decreases members.len(),
{
    let all = structure::pairs(member_texts(members));
    if members.len() > 0 {
        let (name, v) = members[0];
        assert(model::json_text(Json::Text(name)) == model::quoted(name));
        assert(all[0] == model::quoted(name) + seq![':'] + model::json_text(v));
        if members.len() > 1 {
            let rest = members.drop_first();
            lemma_members_written(rest);
            assert(all.drop_first() =~= structure::pairs(member_texts(rest)));
        }
    }
}

/// What the types of values other than numbers are called.
pub proof fn law_types_have_names(
    b: bool,
    chars: Seq<char>,
    items: Seq<Json>,
    members: Seq<(Name, Json)>,
)
    ensures
        model::type_label(Json::Null) == seq!['n', 'u', 'l', 'l'],
        model::type_label(Json::Bool(b)) == seq!['b', 'o', 'o', 'l'],
        model::type_label(Json::Text(chars)) == seq!['s', 't', 'r', 'i', 'n', 'g'],
        model::type_label(Json::Array(items)) == seq!['a', 'r', 'r', 'a', 'y'],
        model::type_label(Json::Object(members)) == seq!['o', 'b', 'j', 'e', 'c', 't'],
{
    reveal_strlit("null");
    reveal_strlit("bool");
    reveal_strlit("string");
    reveal_strlit("array");
    reveal_strlit("object");
    assert("null"@ =~= seq!['n', 'u', 'l', 'l']);
    assert("bool"@ =~= seq!['b', 'o', 'o', 'l']);
    assert("string"@ =~= seq!['s', 't', 'r', 'i', 'n', 'g']);
    assert("array"@ =~= seq!['a', 'r', 'r', 'a', 'y']);
    assert("object"@ =~= seq!['o', 'b', 'j', 'e', 'c', 't']);
}

/// A number that is written with neither a fraction nor an exponent is called an integer, and any
/// other a float.
pub proof fn law_integers_have_neither_fraction_nor_exponent(
    l: Seq<char>,
    minus: Seq<char>,
    whole: Seq<char>,
    fraction: Seq<char>,
    exponent: Seq<char>,
)
    requires
        structure::is_numeral(l, minus, whole, fraction, exponent),
    ensures
        fraction.len() == 0 && exponent.len() == 0 ==> model::type_label(Json::Number(l)) == seq![
            'i',
            'n',
            't',
        ],
        fraction.len() > 0 || exponent.len() > 0 ==> model::type_label(Json::Number(l)) == seq![
            'f',
            'l',
            'o',
            'a',
            't',
        ],
{
    reveal_strlit("int");
    reveal_strlit("float");
    assert("int"@ =~= seq!['i', 'n', 't']);
    assert("float"@ =~= seq!['f', 'l', 'o', 'a', 't']);
    let a = minus.len() as int;
    let b = a + whole.len();
    let c = b + fraction.len();
    if fraction.len() > 0 {
        assert(l[b] == '.');
        assert(l.contains('.'));
    } else if exponent.len() > 0 {
        assert(l[c] == exponent[0]);
        assert(l.contains(exponent[0]));
    } else {
        assert forall|i: int| 0 <= i < l.len() implies #[trigger] l[i] != '.' && l[i] != 'e' && l[i]
            != 'E' by {
            if i < a {
                assert(l[i] == minus[i]);
                assert(minus[i] == '-');
            } else {
                assert(l[i] == whole[i - a]);
                assert(text::is_digit(whole[i - a]));
            }
        }
    }
}

} // verus!

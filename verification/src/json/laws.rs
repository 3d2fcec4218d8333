//! Laws of reading and writing JSON.
use crate::json::grammar;
use crate::json::grammar::{ErrorKind, Parsed, MAX_DEPTH};
use crate::json::model;
use crate::json::model::Json;
use crate::table::Name;
use crate::text;
use vstd::prelude::*;

verus! {

/// Whether `lexeme` is a whole number of the grammar.
pub open spec fn is_number(lexeme: Seq<char>) -> bool {
    lexeme.len() > 0 && grammar::number(lexeme, 0) == Parsed::Done(lexeme, lexeme.len() as int)
}

/// Whether every number in `v` is one of the grammar.
pub open spec fn well_formed(v: Json) -> bool
    decreases v, 0nat,
{
    match v {
        Json::Number(lexeme) => is_number(lexeme),
        Json::Array(items) => items_well_formed(items),
        Json::Object(members) => members_well_formed(members),
        _ => true,
    }
}

/// Whether every number in `items` is one of the grammar.
pub open spec fn items_well_formed(items: Seq<Json>) -> bool
    decreases items, items.len(),
{
    items.len() > 0 ==> well_formed(items[0]) && items_well_formed(items.drop_first())
}

/// Whether every number in `members` is one of the grammar.
pub open spec fn members_well_formed(members: Seq<(Name, Json)>) -> bool
    decreases members, members.len(),
{
    members.len() > 0 ==> well_formed(members[0].1) && members_well_formed(members.drop_first())
}

/// Whether the characters of `part` stand at `p`.
pub open spec fn stands_at(s: Seq<char>, p: int, part: Seq<char>) -> bool {
    &&& 0 <= p
    &&& p + part.len() <= s.len()
    &&& forall|i: int| 0 <= i < part.len() ==> s[p + i] == #[trigger] part[i]
}

/// Whether a value can end before `p`: at the end of the text, or before a comma or a closing
/// bracket or brace.
spec fn closes_at(s: Seq<char>, p: int) -> bool {
    p == s.len() || (p < s.len() && (s[p] == ',' || s[p] == ']' || s[p] == '}'))
}

proof fn lemma_stands_parts(s: Seq<char>, p: int, a: Seq<char>, b: Seq<char>)
    requires
        stands_at(s, p, a + b),
    ensures
        stands_at(s, p, a),
        stands_at(s, p + a.len(), b),
{
    assert forall|i: int| 0 <= i < a.len() implies s[p + i] == #[trigger] a[i] by {
        assert((a + b)[i] == a[i]);
    }
    assert forall|i: int| 0 <= i < b.len() implies s[p + a.len() + i] == #[trigger] b[i] by {
        assert((a + b)[a.len() + i] == b[i]);
    }
}

// ---------------------------------------------------------------------------------------------
// Strings
// ---------------------------------------------------------------------------------------------

proof fn lemma_escape_reads(s: Seq<char>, p: int, c: char)
    requires
        stands_at(s, p, model::escaped_char(c)),
        model::escaped_char(c).len() > 1,
    ensures
        s[p] == '\\',
        grammar::escape(s, p) == Parsed::Done(c, p + model::escaped_char(c).len()),
{
    let e = model::escaped_char(c);
    assert(s[p] == e[0]);
    assert(s[p + 1] == e[1]);
    if e.len() == 6 {
        assert(s[p + 2] == e[2]);
        assert(s[p + 3] == e[3]);
        assert(s[p + 4] == e[4]);
        assert(s[p + 5] == e[5]);
        assert(grammar::hex4(s, p + 2) == Some(c as nat));
    }
}

/// An escaped text and the quote behind it read as the text.
proof fn lemma_string_reads(s: Seq<char>, p: int, t: Seq<char>)
    requires
        stands_at(s, p, model::escaped(t) + seq!['"']),
    ensures
        grammar::string(s, p) == Parsed::Done(t, p + model::escaped(t).len() + 1),
    decreases t.len(),
{
    let e = model::escaped(t);
    lemma_stands_parts(s, p, e, seq!['"']);
    if t.len() == 0 {
        assert(s[p] == seq!['"'][0]);
        assert(t =~= Seq::<char>::empty());
    } else {
        let c = t[0];
        let rest = t.drop_first();
        let first = model::escaped_char(c);
        assert(e + seq!['"'] =~= first + (model::escaped(rest) + seq!['"']));
        lemma_stands_parts(s, p, first, model::escaped(rest) + seq!['"']);
        lemma_string_reads(s, p + first.len(), rest);
        assert(seq![c] + rest =~= t);
        if first.len() > 1 {
            lemma_escape_reads(s, p, c);
        } else {
            assert(s[p] == first[0]);
        }
    }
}

// ---------------------------------------------------------------------------------------------
// Numbers
// ---------------------------------------------------------------------------------------------

/// Whether nothing stands at `p` that could go on with a number.
pub open spec fn ends_number(s: Seq<char>, p: int) -> bool {
    p == s.len() || (p < s.len() && !text::is_digit(s[p]) && s[p] != '.' && s[p] != 'e' && s[p]
        != 'E')
}

proof fn lemma_digits_shift(s: Seq<char>, p: int, l: Seq<char>, k: int)
    requires
        stands_at(s, p, l),
        0 <= k <= l.len(),
        ends_number(s, p + l.len()),
    ensures
        grammar::digits_end(s, p + k) == p + grammar::digits_end(l, k),
    decreases l.len() - k,
{
    if k < l.len() {
        assert(s[p + k] == l[k]);
        if text::is_digit(l[k]) {
            lemma_digits_shift(s, p, l, k + 1);
        }
    }
}

/// A number reads the same wherever it stands, as long as nothing that goes on with it follows.
pub proof fn lemma_number_reads(s: Seq<char>, p: int, l: Seq<char>)
    requires
        is_number(l),
        stands_at(s, p, l),
        ends_number(s, p + l.len()),
    ensures
        grammar::number(s, p) == Parsed::Done(l, p + l.len()),
        l[0] == '-' || text::is_digit(l[0]),
{
    assert(s[p] == l[0]);
    let first: int = if l[0] == '-' {
        1
    } else {
        0
    };
    assert(first < l.len());
    assert(s[p + first] == l[first]);
    lemma_digits_shift(s, p, l, first);
    grammar::lemma_digits_end(l, first);
    match grammar::whole_part(l, first) {
        Parsed::Done(_, a) => {
            if l[first] != '0' {
                assert(grammar::digits_end(l, first) == grammar::digits_end(l, first + 1));
                grammar::lemma_digits_end(l, first + 1);
            }
            assert(grammar::whole_part(s, p + first) == Parsed::Done((), p + a));
            if a < l.len() {
                assert(s[p + a] == l[a]);
                lemma_digits_shift(s, p, l, a + 1);
                grammar::lemma_digits_end(l, a + 1);
            }
            match grammar::fraction_part(l, a) {
                Parsed::Done(_, b) => {
                    assert(grammar::fraction_part(s, p + a) == Parsed::Done((), p + b));
                    if b < l.len() {
                        assert(s[p + b] == l[b]);
                        lemma_digits_shift(s, p, l, b + 1);
                        grammar::lemma_digits_end(l, b + 1);
                        if b + 1 < l.len() {
                            assert(s[p + b + 1] == l[b + 1]);
                            lemma_digits_shift(s, p, l, b + 2);
                            grammar::lemma_digits_end(l, b + 2);
                        }
                    }
                    match grammar::exponent_part(l, b) {
                        Parsed::Done(_, c) => {
                            assert(c == l.len());
                            assert(grammar::exponent_part(s, p + b) == Parsed::Done((), p + c));
                            assert(s.subrange(p, p + c) =~= l);
                        },
                        Parsed::Fail(_, _) => {},
                    }
                },
                Parsed::Fail(_, _) => {},
            }
        },
        Parsed::Fail(_, _) => {},
    }
}

/// The characters that a number was read from are a number by themselves.
pub proof fn lemma_number_alone(s: Seq<char>, p: int)
    requires
        0 <= p < s.len(),
        grammar::number(s, p) is Done,
    ensures
        is_number(grammar::number(s, p)->Done_0),
{
    grammar::lemma_number_moves(s, p);
    let end = grammar::number(s, p)->Done_1;
    let l = s.subrange(p, end);
    assert(forall|i: int| 0 <= i < l.len() ==> #[trigger] l[i] == s[p + i]);
    let first = if s[p] == '-' {
        p + 1
    } else {
        p
    };
    let a = grammar::whole_part(s, first)->Done_1;
    let b = grammar::fraction_part(s, a)->Done_1;
    grammar::lemma_digits_end(s, first);
    grammar::lemma_digits_end(s, first + 1);
    assert(first < a <= s.len());
    if a < s.len() {
        grammar::lemma_digits_end(s, a + 1);
    }
    assert(a <= b <= s.len());
    if b < s.len() {
        grammar::lemma_digits_end(s, b + 1);
        if b + 1 < s.len() {
            grammar::lemma_digits_end(s, b + 2);
        }
    }
    assert(b <= end);
    assert(l[first - p] == s[first]);
    if s[first] != '0' {
        lemma_digits_within(s, p, l, first, end);
    }
    assert(grammar::whole_part(l, first - p) == Parsed::Done((), a - p));
    if a < end {
        assert(l[a - p] == s[a]);
        lemma_digits_within(s, p, l, a + 1, end);
    }
    assert(grammar::fraction_part(l, a - p) == Parsed::Done((), b - p));
    if b < end {
        assert(l[b - p] == s[b]);
        lemma_digits_within(s, p, l, b + 1, end);
        if b + 1 < end {
            assert(l[b + 1 - p] == s[b + 1]);
            lemma_digits_within(s, p, l, b + 2, end);
        }
    }
    assert(grammar::exponent_part(l, b - p) == Parsed::Done((), end - p));
    assert(l.subrange(0, l.len() as int) =~= l);
}

proof fn lemma_digits_within(s: Seq<char>, p: int, l: Seq<char>, k: int, end: int)
    requires
        0 <= p <= k <= end <= s.len(),
        l == s.subrange(p, end),
    ensures
        grammar::digits_end(s, k) <= end ==> grammar::digits_end(l, k - p) == grammar::digits_end(
            s,
            k,
        ) - p,
        grammar::digits_end(s, k) >= end ==> grammar::digits_end(l, k - p) == end - p,
    decreases end - k,
{
    grammar::lemma_digits_end(s, k);
    if k < end {
        assert(l[k - p] == s[k]);
        if text::is_digit(s[k]) {
            lemma_digits_within(s, p, l, k + 1, end);
        }
    }
}

/// The numeral of a natural number is a number.
pub proof fn lemma_decimal_is_number(n: nat)
    ensures
        is_number(text::decimal(n)),
{
    let l = text::decimal(n);
    text::lemma_decimal(n);
    lemma_digits_to(l, 0, l.len() as int);
    assert(l.subrange(0, l.len() as int) =~= l);
}

/// Digits end where a character that is none follows them.
pub proof fn lemma_digits_to(l: Seq<char>, k: int, end: int)
    requires
        0 <= k <= end <= l.len(),
        forall|i: int| k <= i < end ==> text::is_digit(#[trigger] l[i]),
        end < l.len() ==> !text::is_digit(l[end]),
    ensures
        grammar::digits_end(l, k) == end,
    decreases end - k,
{
    if k < end {
        lemma_digits_to(l, k + 1, end);
    }
}

/// A numeral, a point and at least one digit are a number.
pub proof fn lemma_fixed_is_number(n: nat, digits: Seq<char>)
    requires
        text::all_digits(digits),
    ensures
        is_number(text::decimal(n) + seq!['.'] + digits),
{
    let whole = text::decimal(n);
    let l = whole + seq!['.'] + digits;
    text::lemma_decimal(n);
    let a = whole.len() as int;
    assert(l[a] == '.');
    assert(forall|i: int| 0 <= i < a ==> #[trigger] l[i] == whole[i]);
    assert forall|i: int| a + 1 <= i < l.len() implies text::is_digit(#[trigger] l[i]) by {
        assert(l[i] == digits[i - a - 1]);
    }
    lemma_digits_to(l, 0, a);
    lemma_digits_to(l, a + 1, l.len() as int);
    assert(l.subrange(0, l.len() as int) =~= l);
}

// ---------------------------------------------------------------------------------------------
// Values
// ---------------------------------------------------------------------------------------------

proof fn lemma_text_starts(v: Json)
    requires
        well_formed(v),
    ensures
        model::json_text(v).len() > 0,
        !grammar::is_space(model::json_text(v)[0]),
        model::json_text(v)[0] != ']',
        model::json_text(v)[0] != '}',
{
    match v {
        Json::Number(l) => {
            assert(stands_at(l, 0, l));
            lemma_number_reads(l, 0, l);
        },
        _ => {},
    }
}

proof fn lemma_value_reads(s: Seq<char>, p: int, v: Json, room: nat)
    requires
        well_formed(v),
        model::depth(v) <= room,
        stands_at(s, p, model::json_text(v)),
        closes_at(s, p + model::json_text(v).len()),
    ensures
        grammar::value(s, p, room) == Parsed::Done(v, p + model::json_text(v).len()),
    decreases v, 0nat,
{
    let t = model::json_text(v);
    lemma_text_starts(v);
    assert(s[p] == t[0]);
    assert(grammar::skip_space(s, p) == p);
    match v {
        Json::Null | Json::Bool(_) => {
            assert(s.subrange(p, p + t.len()) =~= t);
        },
        Json::Number(l) => {
            lemma_number_reads(s, p, l);
        },
        Json::Text(chars) => {
            assert(t =~= seq!['"'] + (model::escaped(chars) + seq!['"']));
            lemma_stands_parts(s, p, seq!['"'], model::escaped(chars) + seq!['"']);
            lemma_string_reads(s, p + 1, chars);
        },
        Json::Array(items) => {
            let inner = model::items_text(items);
            assert(t =~= seq!['['] + (inner + seq![']']));
            lemma_stands_parts(s, p, seq!['['], inner + seq![']']);
            if items.len() == 0 {
                assert(inner + seq![']'] =~= seq![']']);
                assert(s[p + 1] == seq![']'][0]);
                assert(grammar::skip_space(s, p + 1) == p + 1);
                assert(items =~= Seq::<Json>::empty());
            } else {
                lemma_text_starts(items[0]);
                assert((inner + seq![']'])[0] == model::json_text(items[0])[0]);
                assert(s[p + 1] == (inner + seq![']'])[0]);
                assert(grammar::skip_space(s, p + 1) == p + 1);
                lemma_items_read(s, p + 1, items, (room - 1) as nat);
            }
        },
        Json::Object(members) => {
            let inner = model::members_text(members);
            assert(t =~= seq!['{'] + (inner + seq!['}']));
            lemma_stands_parts(s, p, seq!['{'], inner + seq!['}']);
            if members.len() == 0 {
                assert(inner + seq!['}'] =~= seq!['}']);
                assert(s[p + 1] == seq!['}'][0]);
                assert(grammar::skip_space(s, p + 1) == p + 1);
                assert(members =~= Seq::<(Name, Json)>::empty());
            } else {
                assert((inner + seq!['}'])[0] == '"');
                assert(s[p + 1] == (inner + seq!['}'])[0]);
                assert(grammar::skip_space(s, p + 1) == p + 1);
                lemma_members_read(s, p + 1, members, (room - 1) as nat);
            }
        },
    }
}

proof fn lemma_items_read(s: Seq<char>, p: int, items: Seq<Json>, room: nat)
    requires
        items.len() > 0,
        items_well_formed(items),
        model::items_depth(items) <= room,
        stands_at(s, p, model::items_text(items) + seq![']']),
    ensures
        grammar::items(s, p, room) == Parsed::Done(items, p + model::items_text(items).len() + 1),
    decreases items, items.len(),
{
    let v = items[0];
    let t = model::json_text(v);
    let rest = items.drop_first();
    if items.len() == 1 {
        lemma_stands_parts(s, p, t, seq![']']);
        assert(s[p + t.len()] == seq![']'][0]);
        lemma_value_reads(s, p, v, room);
        assert(grammar::skip_space(s, p + t.len()) == p + t.len());
        assert(items =~= seq![v]);
    } else {
        let tail = model::items_text(rest) + seq![']'];
        assert(model::items_text(items) + seq![']'] =~= t + (seq![','] + tail));
        lemma_stands_parts(s, p, t, seq![','] + tail);
        lemma_stands_parts(s, p + t.len(), seq![','], tail);
        assert(s[p + t.len()] == seq![','][0]);
        lemma_value_reads(s, p, v, room);
        assert(grammar::skip_space(s, p + t.len()) == p + t.len());
        lemma_items_read(s, p + t.len() + 1, rest, room);
        assert(items =~= seq![v] + rest);
    }
}

proof fn lemma_members_read(s: Seq<char>, p: int, members: Seq<(Name, Json)>, room: nat)
    requires
        members.len() > 0,
        members_well_formed(members),
        model::members_depth(members) <= room,
        stands_at(s, p, model::members_text(members) + seq!['}']),
    ensures
        grammar::members(s, p, room) == Parsed::Done(
            members,
            p + model::members_text(members).len() + 1,
        ),
    decreases members, members.len(),
{
    let (name, v) = members[0];
    let t = model::json_text(v);
    let rest = members.drop_first();
    let first = model::member_text(name, t);
    let tail = if members.len() == 1 {
        seq!['}']
    } else {
        seq![','] + (model::members_text(rest) + seq!['}'])
    };
    assert(model::members_text(members) + seq!['}'] =~= first + tail);
    let quote_end = model::escaped(name) + seq!['"'];
    assert(first + tail =~= seq!['"'] + (quote_end + (seq![':'] + (t + tail))));
    lemma_stands_parts(s, p, seq!['"'], quote_end + (seq![':'] + (t + tail)));
    assert(s[p] == seq!['"'][0]);
    lemma_stands_parts(s, p + 1, quote_end, seq![':'] + (t + tail));
    lemma_string_reads(s, p + 1, name);
    let c = p + 1 + quote_end.len();
    lemma_stands_parts(s, c, seq![':'], t + tail);
    assert(s[c] == seq![':'][0]);
    assert(grammar::skip_space(s, p) == p);
    assert(grammar::skip_space(s, c) == c);
    assert(grammar::key(s, p) == Parsed::Done(name, c + 1));
    lemma_stands_parts(s, c + 1, t, tail);
    assert(s[c + 1 + t.len()] == tail[0]);
    lemma_value_reads(s, c + 1, v, room);
    let r = c + 1 + t.len();
    assert(grammar::skip_space(s, r) == r);
    if members.len() == 1 {
        assert(members =~= seq![members[0]]);
    } else {
        lemma_stands_parts(s, r, seq![','], model::members_text(rest) + seq!['}']);
        lemma_members_read(s, r + 1, rest, room);
        assert(members =~= seq![members[0]] + rest);
    }
}

/// Parsing the text of a value gives the value back.
pub proof fn law_written_value_reads_back(v: Json)
    requires
        well_formed(v),
        model::depth(v) <= MAX_DEPTH,
    ensures
        grammar::document(model::json_text(v)) == Ok::<Json, (ErrorKind, nat)>(v),
{
    let t = model::json_text(v);
    assert(stands_at(t, 0, t));
    lemma_value_reads(t, 0, v, MAX_DEPTH as nat);
}

// ---------------------------------------------------------------------------------------------
// What is read
// ---------------------------------------------------------------------------------------------

/// What `v` owes to having been read from between two positions.
pub open spec fn read_between(v: Json, room: nat, from: int, to: int) -> bool {
    &&& well_formed(v)
    &&& model::depth(v) <= room
    &&& model::nodes(v) <= to - from
}

/// A value that was read is nested no deeper than there was room for.
pub proof fn lemma_value_read(s: Seq<char>, p: int, room: nat)
    requires
        0 <= p <= s.len(),
    ensures
        grammar::value(s, p, room) matches Parsed::Done(v, q) ==> read_between(v, room, p, q),
    decreases room, s.len() - p, 0nat,
{
    grammar::lemma_value_moves(s, p, room);
    grammar::lemma_skip_space(s, p);
    let q = grammar::skip_space(s, p);
    if q < s.len() {
        grammar::lemma_skip_space(s, q + 1);
        if s[q] == '[' && room > 0 {
            lemma_items_are_read(s, q + 1, (room - 1) as nat);
        } else if s[q] == '{' && room > 0 {
            lemma_members_are_read(s, q + 1, (room - 1) as nat);
        } else if s[q] == '-' || text::is_digit(s[q]) {
            grammar::lemma_number_moves(s, q);
            if grammar::number(s, q) is Done {
                lemma_number_alone(s, q);
            }
        } else if s[q] == '"' {
            grammar::lemma_string_moves(s, q + 1);
        }
    }
}

proof fn lemma_items_are_read(s: Seq<char>, p: int, room: nat)
    requires
        0 <= p <= s.len(),
    ensures
        grammar::items(s, p, room) matches Parsed::Done(list, q) ==> items_well_formed(list)
            && model::items_depth(list) <= room && model::items_nodes(list) <= q - p,
    decreases room, s.len() - p, 1nat,
{
    reveal_with_fuel(items_well_formed, 2);
    reveal_with_fuel(model::items_depth, 2);
    reveal_with_fuel(model::items_nodes, 2);
    grammar::lemma_items_move(s, p, room);
    grammar::lemma_value_moves(s, p, room);
    lemma_value_read(s, p, room);
    match grammar::value(s, p, room) {
        Parsed::Done(v, q) => {
            grammar::lemma_skip_space(s, q);
            let r = grammar::skip_space(s, q);
            if r < s.len() {
                lemma_items_are_read(s, r + 1, room);
                assert(seq![v].drop_first() =~= Seq::<Json>::empty());
                match grammar::items(s, r + 1, room) {
                    Parsed::Done(rest, _) => {
                        assert((seq![v] + rest).drop_first() =~= rest);
                    },
                    Parsed::Fail(_, _) => {},
                }
            }
        },
        Parsed::Fail(_, _) => {},
    }
}

proof fn lemma_members_are_read(s: Seq<char>, p: int, room: nat)
    requires
        0 <= p <= s.len(),
    ensures
        grammar::members(s, p, room) matches Parsed::Done(list, q) ==> members_well_formed(list)
            && model::members_depth(list) <= room && model::members_nodes(list) <= q - p,
    decreases room, s.len() - p, 1nat,
{
    reveal_with_fuel(members_well_formed, 2);
    reveal_with_fuel(model::members_depth, 2);
    reveal_with_fuel(model::members_nodes, 2);
    grammar::lemma_members_move(s, p, room);
    grammar::lemma_key_moves(s, p);
    match grammar::key(s, p) {
        Parsed::Done(name, a) => {
            grammar::lemma_value_moves(s, a, room);
            lemma_value_read(s, a, room);
            match grammar::value(s, a, room) {
                Parsed::Done(v, q) => {
                    grammar::lemma_skip_space(s, q);
                    let r = grammar::skip_space(s, q);
                    if r < s.len() {
                        lemma_members_are_read(s, r + 1, room);
                        let one = seq![(name, v)];
                        assert(one.drop_first() =~= Seq::<(Name, Json)>::empty());
                        match grammar::members(s, r + 1, room) {
                            Parsed::Done(rest, _) => {
                                assert((one + rest).drop_first() =~= rest);
                            },
                            Parsed::Fail(_, _) => {},
                        }
                    }
                },
                Parsed::Fail(_, _) => {},
            }
        },
        Parsed::Fail(_, _) => {},
    }
}

/// A value that was parsed has only well-formed numbers, is nested no deeper than the limit, and
/// is made of no more values than its text has characters.
pub proof fn law_parsed_value_is_bounded(s: Seq<char>)
    ensures
        grammar::document(s) matches Ok(v) ==> well_formed(v) && model::depth(v) <= MAX_DEPTH
            && model::nodes(v) <= s.len(),
{
    lemma_value_read(s, 0, MAX_DEPTH as nat);
    grammar::lemma_value_moves(s, 0, MAX_DEPTH as nat);
}

/// Writing a parsed value and parsing it again changes nothing.
pub proof fn law_rewriting_changes_nothing(s: Seq<char>)
    ensures
        grammar::document(s) matches Ok(v) ==> grammar::document(model::json_text(v)) == Ok::<
            Json,
            (ErrorKind, nat),
        >(v),
{
    law_parsed_value_is_bounded(s);
    match grammar::document(s) {
        Ok(v) => {
            law_written_value_reads_back(v);
        },
        Err(_) => {},
    }
}

/// The offset of an error lies in the text or at its end.
pub proof fn law_error_offset_is_in_the_text(s: Seq<char>)
    ensures
        grammar::document(s) matches Err((_, offset)) ==> offset <= vstd::utf8::encode_utf8(
            s,
        ).len(),
{
    grammar::lemma_value_moves(s, 0, MAX_DEPTH as nat);
    match grammar::value(s, 0, MAX_DEPTH as nat) {
        Parsed::Done(_, q) => {
            grammar::lemma_skip_space(s, q);
            text::lemma_byte_offset(s, grammar::skip_space(s, q));
        },
        Parsed::Fail(_, at) => {
            text::lemma_byte_offset(s, at);
        },
    }
}

// ---------------------------------------------------------------------------------------------
// Values that are built
// ---------------------------------------------------------------------------------------------

/// Whether `v` can be written: its numbers are those of the grammar, and it is nested no deeper
/// than `levels`.
#[verifier::opaque]
pub open spec fn is_writable(v: Json, levels: nat) -> bool {
    well_formed(v) && model::depth(v) <= levels
}

/// A value that can be written reads back.
pub proof fn lemma_writable_reads_back(v: Json, levels: nat)
    requires
        is_writable(v, levels),
        levels <= MAX_DEPTH,
    ensures
        grammar::document(model::json_text(v)) == Ok::<Json, (ErrorKind, nat)>(v),
{
    reveal(is_writable);
    law_written_value_reads_back(v);
}

/// A text, a truth value and `null` can be written.
pub proof fn lemma_plain_is_writable(v: Json)
    requires
        v is Text || v is Bool || v is Null,
    ensures
        forall|levels: nat| #[trigger] is_writable(v, levels),
{
    reveal(is_writable);
}

/// A number of the grammar can be written.
pub proof fn lemma_number_is_writable(lexeme: Seq<char>)
    requires
        is_number(lexeme),
    ensures
        forall|levels: nat| #[trigger] is_writable(Json::Number(lexeme), levels),
{
    reveal(is_writable);
}

proof fn lemma_members_are_writable(members: Seq<(Name, Json)>, levels: nat)
    requires
        forall|i: int| 0 <= i < members.len() ==> is_writable((#[trigger] members[i]).1, levels),
    ensures
        members_well_formed(members),
        model::members_depth(members) <= levels,
    decreases members.len(),
{
    if members.len() > 0 {
        let rest = members.drop_first();
        assert(is_writable(members[0].1, levels));
        assert forall|i: int| 0 <= i < rest.len() implies is_writable(
            (#[trigger] rest[i]).1,
            levels,
        ) by {
            assert(rest[i] == members[i + 1]);
        }
        lemma_members_are_writable(rest, levels);
        reveal(is_writable);
    }
}

proof fn lemma_items_are_writable(items: Seq<Json>, levels: nat)
    requires
        forall|i: int| 0 <= i < items.len() ==> is_writable(#[trigger] items[i], levels),
    ensures
        items_well_formed(items),
        model::items_depth(items) <= levels,
    decreases items.len(),
{
    if items.len() > 0 {
        let rest = items.drop_first();
        assert(is_writable(items[0], levels));
        assert forall|i: int| 0 <= i < rest.len() implies is_writable(
            #[trigger] rest[i],
            levels,
        ) by {
            assert(rest[i] == items[i + 1]);
        }
        lemma_items_are_writable(rest, levels);
        reveal(is_writable);
    }
}

/// An object of values that can be written can be written.
pub proof fn lemma_object_is_writable(members: Seq<(Name, Json)>, levels: nat)
    requires
        forall|i: int| 0 <= i < members.len() ==> is_writable((#[trigger] members[i]).1, levels),
    ensures
        forall|more: nat| more > levels ==> #[trigger] is_writable(Json::Object(members), more),
{
    lemma_members_are_writable(members, levels);
    reveal(is_writable);
}

/// An array of values that can be written can be written.
pub proof fn lemma_array_is_writable(items: Seq<Json>, levels: nat)
    requires
        forall|i: int| 0 <= i < items.len() ==> is_writable(#[trigger] items[i], levels),
    ensures
        forall|more: nat| more > levels ==> #[trigger] is_writable(Json::Array(items), more),
{
    lemma_items_are_writable(items, levels);
    reveal(is_writable);
}

} // verus!

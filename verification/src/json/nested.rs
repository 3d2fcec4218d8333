//! A fault inside an array or an object is reported where it stands, whatever comes before it.
use crate::json::failures;
use crate::json::grammar;
use crate::json::grammar::{ErrorKind, Parsed};
use crate::json::model;
use crate::json::model::Json;
use crate::json::shift;
use crate::json::structure;
use crate::table::Name;
use crate::text;
use vstd::prelude::*;
use vstd::utf8::encode_utf8;

verus! {

/// Whether `s` breaks off at byte `offset` for the reason `kind`.
pub open spec fn fails(s: Seq<char>, kind: ErrorKind, offset: nat) -> bool {
    grammar::document(s) == Err::<Json, (ErrorKind, nat)>((kind, offset))
}

/// A fault in a value, which is no surplus behind it, shows while the value is read.
proof fn lemma_fault_shows(s: Seq<char>, kind: ErrorKind, offset: nat) -> (at: int)
    requires
        fails(s, kind, offset),
        kind != ErrorKind::TrailingCharacters,
    ensures
        0 <= at <= s.len(),
        grammar::value(s, 0, 128) == Parsed::<Json>::Fail(kind, at),
        offset == encode_utf8(s.take(at)).len(),
{
    grammar::lemma_value_moves(s, 0, 128);
    grammar::value(s, 0, 128)->Fail_1
}

/// A fault `d` characters further on is as many bytes further on as these characters have.
proof fn lemma_bytes_shift(start: Seq<char>, s: Seq<char>, t: Seq<char>, at: int)
    requires
        t == start + s,
        0 <= at <= s.len(),
    ensures
        text::byte_offset(t, at + start.len()) == encode_utf8(start).len() + encode_utf8(
            s.take(at),
        ).len(),
{
    assert(t.take(at + start.len()) =~= start + s.take(at));
    text::lemma_encode_concat(start, s.take(at));
}

// ---------------------------------------------------------------------------------------------
// Arrays
// ---------------------------------------------------------------------------------------------

/// Whole items before a fault in an array only move it on: it is reported for the same reason,
/// as many bytes later as the items with their commas have.
#[verifier::rlimit(60)]
#[verifier::spinoff_prover]
pub proof fn law_items_before_a_fault_move_it(
    texts: Seq<Seq<char>>,
    list: Seq<Json>,
    rest: Seq<char>,
    kind: ErrorKind,
    offset: nat,
)
    requires
        structure::all_denote(texts, list),
        list.len() > 0,
        forall|i: int| 0 <= i < list.len() ==> model::depth(#[trigger] list[i]) < 128,
        fails(seq!['['] + rest, kind, offset),
        kind != ErrorKind::TrailingCharacters,
    ensures
        fails(
            seq!['['] + structure::commas(texts) + seq![','] + rest,
            kind,
            offset + encode_utf8(structure::commas(texts)).len() + 1,
        ),
{
    let all = structure::commas(texts);
    let s = seq!['['] + rest;
    let t = seq!['['] + all + seq![','] + rest;
    let d = all.len() + 1;
    let at = lemma_fault_shows(s, kind, offset);
    lemma_array_fault(s, kind, at);
    assert(shift::tails(s, 1, t, d as int));
    shift::lemma_items_shift(s, 1, t, d as int, 127);
    grammar::lemma_items_move(s, 1, 127);
    failures::lemma_items_then(seq!['['], texts, list, rest, 127);
    assert(grammar::items(t, 1, 127) == Parsed::<Seq<Json>>::Fail(kind, at + d));
    failures::lemma_first_item(texts, list, seq![','] + rest);
    assert(t =~= seq!['['] + all + (seq![','] + rest));
    lemma_array_fails(t, kind, at + d);
    lemma_fault_behind(seq!['['], all + seq![','], rest, at);
    assert(t =~= seq!['['] + (all + seq![',']) + rest);
    text::lemma_encode_concat(all, seq![',']);
    assert(vstd::utf8::is_ascii_chars(seq![',']));
    vstd::utf8::is_ascii_chars_encode_utf8(seq![',']);
}

/// Characters that are put in behind the start of a text move what is behind them by their bytes.
proof fn lemma_fault_behind(start: Seq<char>, more: Seq<char>, rest: Seq<char>, at: int)
    requires
        start.len() <= at <= start.len() + rest.len(),
    ensures
        text::byte_offset(start + more + rest, at + more.len()) == encode_utf8(
            (start + rest).take(at),
        ).len() + encode_utf8(more).len(),
{
    let k = at - start.len();
    let a = rest.take(k);
    assert((start + more + rest).take(at + more.len()) =~= start + more + a);
    assert((start + rest).take(at) =~= start + a);
    text::lemma_encode_concat(start + more, a);
    text::lemma_encode_concat(start, more);
    text::lemma_encode_concat(start, a);
}

/// A fault in an array that has begun is one in its items.
#[verifier::rlimit(60)]
#[verifier::spinoff_prover]
proof fn lemma_array_fault(s: Seq<char>, kind: ErrorKind, at: int)
    requires
        s.len() > 0,
        s[0] == '[',
        grammar::value(s, 0, 128) == Parsed::<Json>::Fail(kind, at),
    ensures
        grammar::items(s, 1, 127) == Parsed::<Seq<Json>>::Fail(kind, at),
        1 <= at <= s.len(),
{
    assert(grammar::skip_space(s, 0) == 0);
    grammar::lemma_items_move(s, 1, 127);
}

#[verifier::rlimit(60)]
#[verifier::spinoff_prover]
proof fn lemma_array_fails(s: Seq<char>, kind: ErrorKind, at: int)
    requires
        s.len() > 0,
        s[0] == '[',
        grammar::items(s, 1, 127) == Parsed::<Seq<Json>>::Fail(kind, at),
        ({
            let r = grammar::skip_space(s, 1);
            r < s.len() ==> s[r] != ']'
        }),
    ensures
        grammar::value(s, 0, 128) == Parsed::<Json>::Fail(kind, at),
        fails(s, kind, text::byte_offset(s, at)),
{
    assert(grammar::skip_space(s, 0) == 0);
}

/// A fault in the first item of an array is reported as in the item alone, one byte later, unless
/// the array makes it nested too deep.
#[verifier::rlimit(60)]
#[verifier::spinoff_prover]
pub proof fn law_fault_in_an_item(x: Seq<char>, kind: ErrorKind, offset: nat, k: int)
    requires
        fails(x, kind, offset),
        kind != ErrorKind::TrailingCharacters,
        0 <= k <= x.len(),
        structure::is_blank(x.take(k)),
        k < x.len() ==> !structure::is_blank(seq![x[k]]) && x[k] != ']',
    ensures
        fails(seq!['['] + x, kind, offset + 1) || (grammar::document(seq!['['] + x) matches Err((
            other,
            _,
        )) && other == ErrorKind::TooDeep),
{
    let s = seq!['['] + x;
    let at = lemma_fault_shows(x, kind, offset);
    assert(shift::tails(x, 0, s, 1));
    shift::lemma_value_shifts(x, 0, s, 1, 128);
    shift::lemma_value_in_less_room(s, 1, 127);
    assert(x.subrange(0, k) =~= x.take(k));
    structure::lemma_blanks_are_skipped(x, 0, k);
    if k < x.len() && grammar::is_space(x[k]) {
        assert(structure::is_blank(seq![x[k]]));
    }
    shift::lemma_space_shifts(x, 0, s, 1);
    assert(grammar::skip_space(s, 1) == k + 1);
    if k < x.len() {
        assert(s[k + 1] == x[k]);
    }
    let found = grammar::value(s, 1, 127);
    assert(found is Fail);
    let (other, place) = (found->Fail_0, found->Fail_1);
    assert(grammar::items(s, 1, 127) == Parsed::<Seq<Json>>::Fail(other, place));
    lemma_array_fails(s, other, place);
    lemma_bytes_shift(seq!['['], x, s, at);
    assert(vstd::utf8::is_ascii_chars(seq!['[']));
    vstd::utf8::is_ascii_chars_encode_utf8(seq!['[']);
}

// ---------------------------------------------------------------------------------------------
// Objects
// ---------------------------------------------------------------------------------------------

/// A fault in an object that has begun is one in its members.
#[verifier::rlimit(60)]
#[verifier::spinoff_prover]
proof fn lemma_object_fault(s: Seq<char>, kind: ErrorKind, at: int)
    requires
        s.len() > 0,
        s[0] == '{',
        grammar::value(s, 0, 128) == Parsed::<Json>::Fail(kind, at),
    ensures
        grammar::members(s, 1, 127) == Parsed::<Seq<(Name, Json)>>::Fail(kind, at),
        1 <= at <= s.len(),
{
    assert(grammar::skip_space(s, 0) == 0);
    grammar::lemma_members_move(s, 1, 127);
}

#[verifier::rlimit(60)]
#[verifier::spinoff_prover]
proof fn lemma_object_fails(s: Seq<char>, kind: ErrorKind, at: int)
    requires
        s.len() > 0,
        s[0] == '{',
        grammar::members(s, 1, 127) == Parsed::<Seq<(Name, Json)>>::Fail(kind, at),
        grammar::key(s, 1) is Done,
    ensures
        grammar::value(s, 0, 128) == Parsed::<Json>::Fail(kind, at),
        fails(s, kind, text::byte_offset(s, at)),
{
    assert(grammar::skip_space(s, 0) == 0);
    grammar::lemma_skip_space(s, 1);
}

/// A whole member before a fault in an object only moves it on: it is reported for the same
/// reason, as many bytes later as the member with its comma has.
#[verifier::rlimit(60)]
#[verifier::spinoff_prover]
pub proof fn law_members_before_a_fault_move_it(
    pair: (Seq<char>, Seq<char>),
    member: (Name, Json),
    rest: Seq<char>,
    kind: ErrorKind,
    offset: nat,
)
    requires
        structure::denotes(pair.0, Json::Text(member.0)),
        structure::denotes(pair.1, member.1),
        model::depth(member.1) < 128,
        fails(seq!['{'] + rest, kind, offset),
        kind != ErrorKind::TrailingCharacters,
    ensures
        fails(
            seq!['{'] + (pair.0 + seq![':'] + pair.1) + seq![','] + rest,
            kind,
            offset + encode_utf8(pair.0 + seq![':'] + pair.1).len() + 1,
        ),
{
    let one = pair.0 + seq![':'] + pair.1;
    let s = seq!['{'] + rest;
    let behind = seq![','] + rest;
    let t = seq!['{'] + one + behind;
    let d = one.len() + 1;
    let at = lemma_fault_shows(s, kind, offset);
    lemma_object_fault(s, kind, at);
    assert(shift::tails(s, 1, t, d as int));
    shift::lemma_members_shift(s, 1, t, d as int, 127);
    let end = structure::lemma_member_is_read(seq!['{'], pair, behind, member, 127);
    let comma = (1 + one.len()) as int;
    assert(grammar::members(t, comma + 1, 127) == Parsed::<Seq<(Name, Json)>>::Fail(kind, at + d));
    assert(grammar::members(t, 1, 127) == Parsed::<Seq<(Name, Json)>>::Fail(kind, at + d));
    assert(t[0] == '{');
    lemma_object_fails(t, kind, at + d);
    lemma_fault_behind(seq!['{'], one + seq![','], rest, at);
    assert(t =~= seq!['{'] + (one + seq![',']) + rest);
    assert(t =~= seq!['{'] + one + seq![','] + rest);
    text::lemma_encode_concat(one, seq![',']);
    assert(vstd::utf8::is_ascii_chars(seq![',']));
    vstd::utf8::is_ascii_chars_encode_utf8(seq![',']);
}

/// A fault in the value of the first member of an object is reported as in the value alone, as
/// many bytes later as the brace, the name and the colon have, unless the object makes it nested
/// too deep.
#[verifier::rlimit(60)]
#[verifier::spinoff_prover]
pub proof fn law_fault_in_a_member(
    named: Seq<char>,
    name: Name,
    x: Seq<char>,
    kind: ErrorKind,
    offset: nat,
)
    requires
        structure::denotes(named, Json::Text(name)),
        fails(x, kind, offset),
        kind != ErrorKind::TrailingCharacters,
    ensures
        ({
            let start = seq!['{'] + named + seq![':'];
            fails(start + x, kind, offset + encode_utf8(start).len()) || (grammar::document(
                start + x,
            ) matches Err((other, _)) && other == ErrorKind::TooDeep)
        }),
{
    let start = seq!['{'] + named + seq![':'];
    let s = start + x;
    structure::lemma_key_is_read(seq!['{'], named, x, name);
    assert(s[0] == '{');
    let (other, place) = lemma_fault_is_moved(start, x, kind, offset);
    lemma_member_fails(s, start.len() as int, name, other, place);
}

/// A fault in a text is one in a value that starts behind other characters, as many bytes later
/// as these have, unless it is nested too deep there.
#[verifier::rlimit(60)]
#[verifier::spinoff_prover]
proof fn lemma_fault_is_moved(start: Seq<char>, x: Seq<char>, kind: ErrorKind, offset: nat) -> (found:
    (ErrorKind, int))
    requires
        fails(x, kind, offset),
        kind != ErrorKind::TrailingCharacters,
    ensures
        grammar::value(start + x, start.len() as int, 127) == Parsed::<Json>::Fail(
            found.0,
            found.1,
        ),
        found.0 == ErrorKind::TooDeep || (found.0 == kind && text::byte_offset(start + x, found.1)
            == offset + encode_utf8(start).len()),
{
    let s = start + x;
    let d = start.len() as int;
    let at = lemma_fault_shows(x, kind, offset);
    assert(shift::tails(x, 0, s, d));
    shift::lemma_value_shifts(x, 0, s, d, 128);
    shift::lemma_value_in_less_room(s, d, 127);
    lemma_bytes_shift(start, x, s, at);
    let read = grammar::value(s, d, 127);
    (read->Fail_0, read->Fail_1)
}

/// A fault in the value of the first member is one in the object.
#[verifier::rlimit(60)]
#[verifier::spinoff_prover]
proof fn lemma_member_fails(s: Seq<char>, a: int, name: Name, kind: ErrorKind, at: int)
    requires
        s.len() > 0,
        s[0] == '{',
        1 < a,
        grammar::key(s, 1) == Parsed::Done(name, a),
        grammar::value(s, a, 127) == Parsed::<Json>::Fail(kind, at),
    ensures
        fails(s, kind, text::byte_offset(s, at)),
{
    assert(grammar::members(s, 1, 127) == Parsed::<Seq<(Name, Json)>>::Fail(kind, at));
    lemma_object_fails(s, kind, at);
}

/// A fault in the name of the first member of an object is reported as in the name alone, one
/// byte later.
#[verifier::rlimit(60)]
#[verifier::spinoff_prover]
pub proof fn law_fault_in_a_name(x: Seq<char>, kind: ErrorKind, offset: nat, k: int)
    requires
        fails(x, kind, offset),
        kind != ErrorKind::TrailingCharacters,
        0 <= k < x.len(),
        structure::is_blank(x.take(k)),
        x[k] == '"',
    ensures
        fails(seq!['{'] + x, kind, offset + 1),
{
    let s = seq!['{'] + x;
    let at = lemma_fault_shows(x, kind, offset);
    assert(x.subrange(0, k) =~= x.take(k));
    structure::lemma_blanks_are_skipped(x, 0, k);
    assert(grammar::skip_space(x, 0) == k);
    assert(shift::tails(x, 0, s, 1));
    shift::lemma_space_shifts(x, 0, s, 1);
    assert(s[k + 1] == x[k]);
    assert(grammar::string(x, k + 1) == Parsed::<Seq<char>>::Fail(kind, at));
    shift::lemma_string_shifts(x, k + 1, s, 1);
    assert(grammar::key(s, 1) == Parsed::<Name>::Fail(kind, at + 1));
    assert(s[0] == '{');
    lemma_name_fails(s, kind, at + 1, k + 1);
    lemma_bytes_shift(seq!['{'], x, s, at);
    assert(vstd::utf8::is_ascii_chars(seq!['{']));
    vstd::utf8::is_ascii_chars_encode_utf8(seq!['{']);
}

#[verifier::rlimit(60)]
#[verifier::spinoff_prover]
proof fn lemma_name_fails(s: Seq<char>, kind: ErrorKind, at: int, r: int)
    requires
        1 <= r < s.len(),
        s[0] == '{',
        grammar::skip_space(s, 1) == r,
        s[r] == '"',
        grammar::key(s, 1) == Parsed::<Name>::Fail(kind, at),
    ensures
        fails(s, kind, text::byte_offset(s, at)),
{
    assert(grammar::skip_space(s, 0) == 0);
    assert(grammar::members(s, 1, 127) == Parsed::<Seq<(Name, Json)>>::Fail(kind, at));
}

/// Space before a text moves its fault on by as many bytes.
#[verifier::rlimit(60)]
#[verifier::spinoff_prover]
pub proof fn law_space_before_a_fault_moves_it(
    blank: Seq<char>,
    x: Seq<char>,
    kind: ErrorKind,
    offset: nat,
)
    requires
        structure::is_blank(blank),
        fails(x, kind, offset),
    ensures
        fails(blank + x, kind, offset + encode_utf8(blank).len()),
{
    let s = blank + x;
    let d = blank.len() as int;
    assert(shift::tails(x, 0, s, d));
    shift::lemma_value_shifts(x, 0, s, d, 128);
    grammar::lemma_value_moves(x, 0, 128);
    assert(s.subrange(0, d) =~= blank);
    structure::lemma_blanks_are_skipped(s, 0, d);
    structure::lemma_same_start(s, 0, d, 128);
    match grammar::value(x, 0, 128) {
        Parsed::Fail(_, at) => {
            lemma_bytes_shift(blank, x, s, at);
        },
        Parsed::Done(_, q) => {
            shift::lemma_space_shifts(x, q, s, d);
            grammar::lemma_skip_space(x, q);
            lemma_bytes_shift(blank, x, s, grammar::skip_space(x, q));
        },
    }
}

// ---------------------------------------------------------------------------------------------
// Depth
// ---------------------------------------------------------------------------------------------

/// Whether `opener` opens an array, or an object up to the value of its first member, whose name
/// is `name`.
pub open spec fn opens(opener: Seq<char>, named: Seq<char>, name: Name) -> bool {
    opener == seq!['['] || (opener == seq!['{'] + named + seq![':'] && structure::denotes(
        named,
        Json::Text(name),
    ))
}

/// Whether the value at `p` fails at `at`, for it is nested deeper than `room`.
#[verifier::opaque]
spec fn too_deep(s: Seq<char>, p: int, room: nat, at: int) -> bool {
    grammar::value(s, p, room) == Parsed::<Json>::Fail(ErrorKind::TooDeep, at)
}

/// Whether the key `name` stands at `p`, with its colon, up to `a`.
#[verifier::opaque]
spec fn is_key(s: Seq<char>, p: int, name: Name, a: int) -> bool {
    grammar::key(s, p) == Parsed::Done(name, a)
}

#[verifier::rlimit(60)]
#[verifier::spinoff_prover]
proof fn lemma_opened(
    before: Seq<char>,
    openers: Seq<Seq<char>>,
    names: Seq<(Seq<char>, Name)>,
    c: char,
    rest: Seq<char>,
)
    requires
        openers.len() == names.len(),
        forall|i: int|
            0 <= i < openers.len() ==> opens(#[trigger] openers[i], names[i].0, names[i].1),
        c == '[' || c == '{',
    ensures
        ({
            let s = before + text::joined(openers) + seq![c] + rest;
            let p = before.len() as int;
            &&& too_deep(s, p, openers.len(), p + text::joined(openers).len())
            &&& s[p] == '[' || s[p] == '{'
        }),
    decreases openers.len(),
{
    let s = before + text::joined(openers) + seq![c] + rest;
    let p = before.len() as int;
    let at = p + text::joined(openers).len();
    if openers.len() == 0 {
        assert(s[p] == c);
        lemma_no_room(s, p);
    } else {
        let one = openers[0];
        let others = openers.drop_first();
        let more = text::joined(others);
        let start = before + one;
        assert(opens(openers[0], names[0].0, names[0].1));
        assert forall|i: int| 0 <= i < others.len() implies opens(
            #[trigger] others[i],
            names.drop_first()[i].0,
            names.drop_first()[i].1,
        ) by {
            assert(opens(openers[i + 1], names[i + 1].0, names[i + 1].1));
        }
        lemma_opened(start, others, names.drop_first(), c, rest);
        assert(s =~= start + more + seq![c] + rest);
        if one == seq!['['] {
            assert(s[p] == '[');
            lemma_array_too_deep(s, p, others.len(), at);
        } else {
            let behind = more + seq![c] + rest;
            assert(s[p] == '{');
            assert(s =~= before + seq!['{'] + names[0].0 + seq![':'] + behind);
            lemma_key_there(before + seq!['{'], names[0].0, behind, names[0].1);
            lemma_object_too_deep(s, p, start.len() as int, names[0].1, others.len(), at);
        }
    }
}

proof fn lemma_key_there(before: Seq<char>, named: Seq<char>, behind: Seq<char>, name: Name)
    requires
        structure::denotes(named, Json::Text(name)),
    ensures
        is_key(
            before + named + seq![':'] + behind,
            before.len() as int,
            name,
            (before.len() + named.len() + 1) as int,
        ),
{
    reveal(is_key);
    structure::lemma_key_is_read(before, named, behind, name);
}

proof fn lemma_no_room(s: Seq<char>, p: int)
    requires
        0 <= p < s.len(),
        s[p] == '[' || s[p] == '{',
    ensures
        too_deep(s, p, 0, p),
{
    reveal(too_deep);
    assert(grammar::skip_space(s, p) == p);
}

#[verifier::rlimit(60)]
#[verifier::spinoff_prover]
proof fn lemma_array_too_deep(s: Seq<char>, p: int, room: nat, at: int)
    requires
        0 <= p,
        p + 1 < s.len(),
        s[p] == '[',
        s[p + 1] == '[' || s[p + 1] == '{',
        too_deep(s, p + 1, room, at),
    ensures
        too_deep(s, p, room + 1, at),
{
    reveal(too_deep);
    assert(grammar::skip_space(s, p) == p);
    assert(grammar::skip_space(s, p + 1) == p + 1);
    assert(grammar::items(s, p + 1, room) == Parsed::<Seq<Json>>::Fail(ErrorKind::TooDeep, at));
}

#[verifier::rlimit(60)]
#[verifier::spinoff_prover]
proof fn lemma_object_too_deep(s: Seq<char>, p: int, a: int, name: Name, room: nat, at: int)
    requires
        0 <= p,
        p + 1 < a <= s.len(),
        s[p] == '{',
        is_key(s, p + 1, name, a),
        too_deep(s, a, room, at),
    ensures
        too_deep(s, p, room + 1, at),
{
    reveal(too_deep);
    reveal(is_key);
    assert(grammar::skip_space(s, p) == p);
    assert(grammar::members(s, p + 1, room) == Parsed::<Seq<(Name, Json)>>::Fail(
        ErrorKind::TooDeep,
        at,
    ));
}

/// Behind 128 arrays and objects that are open, the next opening bracket or brace is too deep,
/// and is reported where it stands.
pub proof fn law_the_next_level_is_too_deep(
    openers: Seq<Seq<char>>,
    names: Seq<(Seq<char>, Name)>,
    c: char,
    rest: Seq<char>,
)
    requires
        openers.len() == 128,
        names.len() == 128,
        forall|i: int|
            0 <= i < openers.len() ==> opens(#[trigger] openers[i], names[i].0, names[i].1),
        c == '[' || c == '{',
    ensures
        fails(
            text::joined(openers) + seq![c] + rest,
            ErrorKind::TooDeep,
            encode_utf8(text::joined(openers)).len(),
        ),
{
    let none = Seq::<char>::empty();
    let start = text::joined(openers);
    let s = start + seq![c] + rest;
    lemma_opened(none, openers, names, c, rest);
    reveal(too_deep);
    assert(none + start + seq![c] + rest =~= s);
    assert(s.take(start.len() as int) =~= start);
}

} // verus!

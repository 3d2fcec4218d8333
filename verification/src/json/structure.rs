//! What texts are made of: arrays and objects are made of the texts of their parts, and no text
//! holds anything else.
use crate::json::grammar;
use crate::json::grammar::{ErrorKind, Parsed};
use crate::json::laws;
use crate::json::model;
use crate::json::model::Json;
use crate::json::spelling;
use crate::json::travel;
use crate::table::Name;
use crate::text;
use vstd::prelude::*;

verus! {

// ---------------------------------------------------------------------------------------------
// Whole texts
// ---------------------------------------------------------------------------------------------

/// Whether `s` holds nothing but spaces, tabs and line ends.
pub open spec fn is_blank(s: Seq<char>) -> bool {
    forall|i: int|
        0 <= i < s.len() ==> (#[trigger] s[i]) as int == 32 || s[i] as int == 9 || s[i] as int == 10
            || s[i] as int == 13
}

/// Whether the whole of `s` denotes `v`.
#[verifier::opaque]
pub open spec fn denotes(s: Seq<char>, v: Json) -> bool {
    grammar::document(s) == Ok::<Json, (ErrorKind, nat)>(v)
}

/// Space is skipped.
#[verifier::rlimit(60)]
#[verifier::spinoff_prover]
pub proof fn lemma_blanks_are_skipped(s: Seq<char>, p: int, q: int)
    requires
        0 <= p <= q <= s.len(),
        is_blank(s.subrange(p, q)),
    ensures
        grammar::skip_space(s, p) == grammar::skip_space(s, q),
    decreases q - p,
{
    if p < q {
        assert(s.subrange(p, q)[0] == s[p]);
        assert forall|i: int| 0 <= i < q - p - 1 implies (#[trigger] s.subrange(p + 1, q)[i]) as int
            == 32 || s.subrange(p + 1, q)[i] as int == 9 || s.subrange(p + 1, q)[i] as int == 10
            || s.subrange(p + 1, q)[i] as int == 13 by {
            assert(s.subrange(p, q)[i + 1] == s.subrange(p + 1, q)[i]);
        }
        lemma_blanks_are_skipped(s, p + 1, q);
    }
}

#[verifier::rlimit(60)]
#[verifier::spinoff_prover]
proof fn lemma_skipped_is_blank(s: Seq<char>, p: int)
    requires
        0 <= p <= s.len(),
    ensures
        p <= grammar::skip_space(s, p) <= s.len(),
        is_blank(s.subrange(p, grammar::skip_space(s, p))),
    decreases s.len() - p,
{
    grammar::lemma_skip_space(s, p);
    let q = grammar::skip_space(s, p);
    if p < s.len() && grammar::is_space(s[p]) {
        lemma_skipped_is_blank(s, p + 1);
        assert forall|i: int| 0 <= i < q - p implies (#[trigger] s.subrange(p, q)[i]) as int == 32
            || s.subrange(p, q)[i] as int == 9 || s.subrange(p, q)[i] as int == 10 || s.subrange(
            p,
            q,
        )[i] as int == 13 by {
            if i > 0 {
                assert(s.subrange(p + 1, q)[i - 1] == s.subrange(p, q)[i]);
            }
        }
    }
}

/// Space up to the end of a text is skipped.
#[verifier::rlimit(60)]
#[verifier::spinoff_prover]
pub proof fn lemma_blank_to_the_end(s: Seq<char>, p: int)
    requires
        0 <= p <= s.len(),
        is_blank(s.skip(p)),
    ensures
        grammar::skip_space(s, p) == s.len(),
{
    assert(s.skip(p) =~= s.subrange(p, s.len() as int));
    lemma_blanks_are_skipped(s, p, s.len() as int);
}

/// What a text denotes is read where the text stands, with the space round it.
#[verifier::rlimit(60)]
#[verifier::spinoff_prover]
pub proof fn lemma_text_is_read(
    before: Seq<char>,
    a: Seq<char>,
    behind: Seq<char>,
    v: Json,
    room: nat,
) -> (end: int)
    requires
        denotes(a, v),
        model::depth(v) <= room,
        laws::ends_number(behind, 0),
    ensures
        before.len() < end <= before.len() + a.len(),
        grammar::value(before + a + behind, before.len() as int, room) == Parsed::Done(v, end),
        grammar::skip_space(before + a + behind, end) == grammar::skip_space(
            before + a + behind,
            (before.len() + a.len()) as int,
        ),
{
    reveal(denotes);
    let s = before + a + behind;
    let d = before.len() as int;
    grammar::lemma_value_moves(a, 0, 128);
    let q = grammar::value(a, 0, 128)->Done_1;
    lemma_skipped_is_blank(a, q);
    assert(travel::same(a, 0, q, s, d));
    if q < a.len() {
        assert(s[q + d] == a[q]);
        assert(a.subrange(q, a.len() as int)[0] == a[q]);
    } else if behind.len() > 0 {
        assert(s[q + d] == behind[0]);
    }
    travel::lemma_value_travels(a, 0, 128, s, d, room);
    assert(s.subrange(q + d, a.len() + d) =~= a.subrange(q, a.len() as int));
    lemma_blanks_are_skipped(s, q + d, a.len() + d);
    q + d
}

/// What is read at a place is what the text that stands there denotes.
#[verifier::rlimit(60)]
#[verifier::spinoff_prover]
proof fn lemma_read_is_denoted(s: Seq<char>, p: int, room: nat, end: int)
    requires
        0 <= p <= s.len(),
        room <= 128,
        grammar::value(s, p, room) is Done,
        grammar::value(s, p, room)->Done_1 <= end <= s.len(),
        is_blank(s.subrange(grammar::value(s, p, room)->Done_1, end)),
    ensures
        denotes(s.subrange(p, end), grammar::value(s, p, room)->Done_0),
{
    reveal(denotes);
    let a = s.subrange(p, end);
    let q = grammar::value(s, p, room)->Done_1;
    grammar::lemma_value_moves(s, p, room);
    laws::lemma_value_read(s, p, room);
    assert(travel::same(s, p, q, a, -p));
    if q < end {
        assert(a[q - p] == s[q]);
        assert(s.subrange(q, end)[0] == s[q]);
    }
    travel::lemma_value_travels(s, p, room, a, -p, 128);
    assert(a.skip(q - p) =~= s.subrange(q, end));
    lemma_blank_to_the_end(a, q - p);
}

/// Space before and behind a text makes no difference.
#[verifier::rlimit(60)]
#[verifier::spinoff_prover]
pub proof fn law_space_around_a_text_is_skipped(
    before: Seq<char>,
    a: Seq<char>,
    behind: Seq<char>,
    v: Json,
)
    requires
        is_blank(before),
        is_blank(behind),
        denotes(a, v),
    ensures
        denotes(before + a + behind, v),
{
    reveal(denotes);
    let s = before + a + behind;
    laws::law_parsed_value_is_bounded(a);
    if behind.len() > 0 {
        assert(behind[0] as int <= 32);
    }
    let end = lemma_text_is_read(before, a, behind, v, 128);
    assert(s.subrange(0, before.len() as int) =~= before);
    lemma_blanks_are_skipped(s, 0, before.len() as int);
    assert(s.skip((before.len() + a.len()) as int) =~= behind);
    lemma_blank_to_the_end(s, (before.len() + a.len()) as int);
    assert(grammar::value(s, 0, 128) == grammar::value(s, before.len() as int, 128)) by {
        lemma_same_start(s, 0, before.len() as int, 128);
    }
}

/// Values that start with the same character behind space are the same.
#[verifier::rlimit(60)]
#[verifier::spinoff_prover]
pub proof fn lemma_same_start(s: Seq<char>, p: int, q: int, room: nat)
    requires
        0 <= p <= q <= s.len(),
        grammar::skip_space(s, p) == grammar::skip_space(s, q),
    ensures
        grammar::value(s, p, room) == grammar::value(s, q, room),
{
}

// ---------------------------------------------------------------------------------------------
// Arrays
// ---------------------------------------------------------------------------------------------

/// The texts with commas between them.
pub open spec fn commas(texts: Seq<Seq<char>>) -> Seq<char>
    decreases texts.len(),
{
    if texts.len() == 0 {
        Seq::empty()
    } else if texts.len() == 1 {
        texts[0]
    } else {
        texts[0] + seq![','] + commas(texts.drop_first())
    }
}

/// Whether each of `texts` denotes the value in the same place.
pub open spec fn all_denote(texts: Seq<Seq<char>>, list: Seq<Json>) -> bool {
    &&& texts.len() == list.len()
    &&& forall|i: int| 0 <= i < list.len() ==> denotes(#[trigger] texts[i], list[i])
}

/// What all texts denote, the texts behind the first denote.
#[verifier::rlimit(60)]
#[verifier::spinoff_prover]
pub proof fn lemma_all_denote_rest(texts: Seq<Seq<char>>, list: Seq<Json>)
    requires
        all_denote(texts, list),
        list.len() > 0,
    ensures
        all_denote(texts.drop_first(), list.drop_first()),
        denotes(texts[0], list[0]),
{
    assert forall|i: int| 0 <= i < list.len() - 1 implies denotes(
        #[trigger] texts.drop_first()[i],
        list.drop_first()[i],
    ) by {
        assert(denotes(texts[i + 1], list[i + 1]));
    }
}

#[verifier::rlimit(60)]
#[verifier::spinoff_prover]
proof fn lemma_items_are_read(
    before: Seq<char>,
    texts: Seq<Seq<char>>,
    list: Seq<Json>,
    behind: Seq<char>,
    room: nat,
)
    requires
        all_denote(texts, list),
        list.len() > 0,
        forall|i: int| 0 <= i < list.len() ==> model::depth(#[trigger] list[i]) <= room,
    ensures
        grammar::items(before + commas(texts) + seq![']'] + behind, before.len() as int, room)
            == Parsed::Done(list, (before.len() + commas(texts).len() + 1) as int),
    decreases texts.len(),
{
    let s = before + commas(texts) + seq![']'] + behind;
    lemma_all_denote_rest(texts, list);
    let at = (before.len() + texts[0].len()) as int;
    if texts.len() == 1 {
        let rest = seq![']'] + behind;
        assert(s =~= before + texts[0] + rest);
        let end = lemma_text_is_read(before, texts[0], rest, list[0], room);
        assert(s[at] == ']');
        assert(list =~= seq![list[0]]);
    } else {
        let more = commas(texts.drop_first());
        let rest = seq![','] + more + seq![']'] + behind;
        assert(s =~= before + texts[0] + rest);
        let end = lemma_text_is_read(before, texts[0], rest, list[0], room);
        assert(s[at] == ',');
        let start = before + texts[0] + seq![','];
        assert(s =~= start + more + seq![']'] + behind);
        assert forall|i: int| 0 <= i < list.len() - 1 implies model::depth(
            #[trigger] list.drop_first()[i],
        ) <= room by {
            assert(model::depth(list[i + 1]) <= room);
        }
        lemma_items_are_read(start, texts.drop_first(), list.drop_first(), behind, room);
        assert(seq![list[0]] + list.drop_first() =~= list);
    }
}

/// Texts with commas between them, in brackets, denote the array of what each denotes; brackets
/// with nothing but space between them denote the empty array.
#[verifier::rlimit(60)]
#[verifier::spinoff_prover]
pub proof fn law_items_make_an_array(
    texts: Seq<Seq<char>>,
    list: Seq<Json>,
    blank: Seq<char>,
)
    requires
        all_denote(texts, list),
        forall|i: int| 0 <= i < list.len() ==> model::depth(#[trigger] list[i]) < 128,
        is_blank(blank),
    ensures
        list.len() > 0 ==> denotes(seq!['['] + commas(texts) + seq![']'], Json::Array(list)),
        denotes(seq!['['] + blank + seq![']'], Json::Array(Seq::empty())),
{
    reveal(denotes);
    let t = seq!['['] + blank + seq![']'];
    assert(t[0] == '[');
    assert(t.subrange(1, (1 + blank.len()) as int) =~= blank);
    lemma_blanks_are_skipped(t, 1, (1 + blank.len()) as int);
    assert(t[(1 + blank.len()) as int] == ']');
    if list.len() > 0 {
        let s = seq!['['] + commas(texts) + seq![']'];
        lemma_items_are_read(seq!['['], texts, list, Seq::empty(), 127);
        assert(s + Seq::<char>::empty() =~= s);
        assert(s[0] == '[');
        grammar::lemma_skip_space(s, 1);
        assert(grammar::value(s, 1, 127) is Done);
    }
}

#[verifier::rlimit(60)]
#[verifier::spinoff_prover]
proof fn lemma_items_split(s: Seq<char>, p: int, room: nat) -> (texts: Seq<Seq<char>>)
    requires
        0 <= p <= s.len(),
        room <= 128,
        grammar::items(s, p, room) is Done,
    ensures
        all_denote(texts, grammar::items(s, p, room)->Done_0),
        texts.len() > 0,
        p < grammar::items(s, p, room)->Done_1 <= s.len(),
        s.subrange(p, grammar::items(s, p, room)->Done_1) == commas(texts) + seq![']'],
    decreases s.len() - p,
{
    grammar::lemma_items_move(s, p, room);
    grammar::lemma_value_moves(s, p, room);
    let list = grammar::items(s, p, room)->Done_0;
    let end = grammar::items(s, p, room)->Done_1;
    let q = grammar::value(s, p, room)->Done_1;
    let r = grammar::skip_space(s, q);
    lemma_skipped_is_blank(s, q);
    lemma_read_is_denoted(s, p, room, r);
    let first = s.subrange(p, r);
    if s[r] == ',' {
        let rest = lemma_items_split(s, r + 1, room);
        let texts = seq![first] + rest;
        assert(texts.drop_first() =~= rest);
        assert forall|i: int| 0 <= i < list.len() implies denotes(#[trigger] texts[i], list[i]) by {
            if i > 0 {
                assert(denotes(rest[i - 1], grammar::items(s, r + 1, room)->Done_0[i - 1]));
            }
        }
        assert(s.subrange(p, end) =~= first + seq![','] + s.subrange(r + 1, end));
        assert(s.subrange(p, end) =~= commas(texts) + seq![']']);
        texts
    } else {
        let texts = seq![first];
        assert(s.subrange(p, end) =~= commas(texts) + seq![']']);
        texts
    }
}

/// A text that denotes an array is made of an opening bracket, texts that denote the items with
/// commas between them, and a closing bracket, with space before and behind, and of nothing else.
#[verifier::rlimit(60)]
#[verifier::spinoff_prover]
pub proof fn law_array_is_made_of_its_items(s: Seq<char>, list: Seq<Json>) -> (parts: (
    Seq<char>,
    Seq<char>,
    Seq<char>,
    Seq<Seq<char>>,
))
    requires
        denotes(s, Json::Array(list)),
    ensures
        ({
            let (before, inner, behind, texts) = parts;
            &&& is_blank(before)
            &&& is_blank(behind)
            &&& s == before + seq!['['] + inner + seq![']'] + behind
            &&& list.len() == 0 ==> is_blank(inner)
            &&& list.len() > 0 ==> all_denote(texts, list) && inner == commas(texts)
        }),
{
    reveal(denotes);
    let q = grammar::skip_space(s, 0);
    lemma_skipped_is_blank(s, 0);
    grammar::lemma_value_moves(s, 0, 128);
    let end = grammar::value(s, 0, 128)->Done_1;
    lemma_skipped_is_blank(s, end);
    let before = s.subrange(0, q);
    let behind = s.subrange(end, s.len() as int);
    let r = grammar::skip_space(s, q + 1);
    lemma_skipped_is_blank(s, q + 1);
    if r < s.len() && s[r] == ']' {
        let inner = s.subrange(q + 1, r);
        assert(s =~= before + seq!['['] + inner + seq![']'] + behind);
        (before, inner, behind, Seq::empty())
    } else {
        let texts = lemma_items_split(s, q + 1, 127);
        let inner = commas(texts);
        assert(s =~= before + seq!['['] + s.subrange(q + 1, end) + behind);
        assert(s =~= before + seq!['['] + inner + seq![']'] + behind);
        (before, inner, behind, texts)
    }
}

// ---------------------------------------------------------------------------------------------
// Objects
// ---------------------------------------------------------------------------------------------

/// The texts of members: each a text for the name, a colon and a text for the value.
pub open spec fn pairs(texts: Seq<(Seq<char>, Seq<char>)>) -> Seq<Seq<char>> {
    Seq::new(texts.len(), |i: int| texts[i].0 + seq![':'] + texts[i].1)
}

/// Whether each pair of `texts` denotes the member in the same place.
pub open spec fn all_pair(texts: Seq<(Seq<char>, Seq<char>)>, list: Seq<(Name, Json)>) -> bool {
    &&& texts.len() == list.len()
    &&& forall|i: int|
        0 <= i < list.len() ==> denotes((#[trigger] texts[i]).0, Json::Text(list[i].0)) && denotes(
            texts[i].1,
            list[i].1,
        )
}

#[verifier::rlimit(60)]
#[verifier::spinoff_prover]
proof fn lemma_all_pair_rest(texts: Seq<(Seq<char>, Seq<char>)>, list: Seq<(Name, Json)>)
    requires
        all_pair(texts, list),
        list.len() > 0,
    ensures
        all_pair(texts.drop_first(), list.drop_first()),
        denotes(texts[0].0, Json::Text(list[0].0)),
        denotes(texts[0].1, list[0].1),
        pairs(texts).drop_first() == pairs(texts.drop_first()),
        pairs(texts)[0] == texts[0].0 + seq![':'] + texts[0].1,
{
    let rest = texts.drop_first();
    assert forall|i: int| 0 <= i < list.len() - 1 implies denotes(
        (#[trigger] rest[i]).0,
        Json::Text(list.drop_first()[i].0),
    ) && denotes(rest[i].1, list.drop_first()[i].1) by {
        assert(denotes(texts[i + 1].0, Json::Text(list[i + 1].0)));
    }
    assert(pairs(texts).drop_first() =~= pairs(rest));
}

/// A text for a name, followed by a colon, is read as a key.
#[verifier::rlimit(60)]
#[verifier::spinoff_prover]
pub proof fn lemma_key_is_read(before: Seq<char>, a: Seq<char>, behind: Seq<char>, name: Name)
    requires
        denotes(a, Json::Text(name)),
    ensures
        grammar::key(before + a + seq![':'] + behind, before.len() as int) == Parsed::Done(
            name,
            (before.len() + a.len() + 1) as int,
        ),
{
    let s = before + a + seq![':'] + behind;
    let rest = seq![':'] + behind;
    assert(s =~= before + a + rest);
    let end = lemma_text_is_read(before, a, rest, Json::Text(name), 0);
    assert(s[(before.len() + a.len()) as int] == ':');
}

#[verifier::rlimit(60)]
#[verifier::spinoff_prover]
proof fn lemma_key_is_denoted(s: Seq<char>, p: int)
    requires
        0 <= p <= s.len(),
        grammar::key(s, p) is Done,
    ensures
        p < grammar::key(s, p)->Done_1 <= s.len(),
        denotes(
            s.subrange(p, grammar::key(s, p)->Done_1 - 1),
            Json::Text(grammar::key(s, p)->Done_0),
        ),
        s[grammar::key(s, p)->Done_1 - 1] == ':',
{
    let r = grammar::skip_space(s, p);
    grammar::lemma_skip_space(s, p);
    grammar::lemma_string_moves(s, r + 1);
    let e = grammar::string(s, r + 1)->Done_1;
    lemma_skipped_is_blank(s, e);
    let c = grammar::skip_space(s, e);
    assert(grammar::value(s, p, 0) == Parsed::Done(Json::Text(grammar::key(s, p)->Done_0), e));
    lemma_read_is_denoted(s, p, 0, c);
}

/// The texts of one member are read as its name and value, up to what follows them.
#[verifier::rlimit(60)]
#[verifier::spinoff_prover]
pub proof fn lemma_member_is_read(
    before: Seq<char>,
    pair: (Seq<char>, Seq<char>),
    rest: Seq<char>,
    member: (Name, Json),
    room: nat,
) -> (end: int)
    requires
        denotes(pair.0, Json::Text(member.0)),
        denotes(pair.1, member.1),
        model::depth(member.1) <= room,
        rest.len() > 0,
        rest[0] == ',' || rest[0] == '}',
    ensures
        ({
            let s = before + (pair.0 + seq![':'] + pair.1) + rest;
            let colon = (before.len() + pair.0.len() + 1) as int;
            let at = colon + pair.1.len();
            &&& grammar::key(s, before.len() as int) == Parsed::Done(member.0, colon)
            &&& grammar::value(s, colon, room) == Parsed::Done(member.1, end)
            &&& colon < end <= at < s.len()
            &&& grammar::skip_space(s, end) == at
            &&& s[at] == rest[0]
        }),
{
    let (a, b) = pair;
    let s = before + (a + seq![':'] + b) + rest;
    let start = before + a + seq![':'];
    assert(s =~= before + a + seq![':'] + (b + rest));
    lemma_key_is_read(before, a, b + rest, member.0);
    assert(s =~= start + b + rest);
    let end = lemma_text_is_read(start, b, rest, member.1, room);
    let at = (start.len() + b.len()) as int;
    assert(s[at] == rest[0]);
    assert(grammar::skip_space(s, at) == at);
    end
}

#[verifier::rlimit(60)]
#[verifier::spinoff_prover]
proof fn lemma_members_are_read(
    before: Seq<char>,
    texts: Seq<(Seq<char>, Seq<char>)>,
    list: Seq<(Name, Json)>,
    behind: Seq<char>,
    room: nat,
)
    requires
        all_pair(texts, list),
        list.len() > 0,
        forall|i: int| 0 <= i < list.len() ==> model::depth((#[trigger] list[i]).1) <= room,
    ensures
        grammar::members(
            before + commas(pairs(texts)) + seq!['}'] + behind,
            before.len() as int,
            room,
        ) == Parsed::Done(list, (before.len() + commas(pairs(texts)).len() + 1) as int),
    decreases texts.len(),
{
    let s = before + commas(pairs(texts)) + seq!['}'] + behind;
    lemma_all_pair_rest(texts, list);
    let one = pairs(texts)[0];
    assert(model::depth(list[0].1) <= room);
    if texts.len() == 1 {
        let rest = seq!['}'] + behind;
        assert(s =~= before + one + rest);
        let end = lemma_member_is_read(before, texts[0], rest, list[0], room);
        assert(list =~= seq![list[0]]);
    } else {
        let others = texts.drop_first();
        let more = commas(pairs(others));
        let rest = seq![','] + more + seq!['}'] + behind;
        assert(commas(pairs(texts)) == one + seq![','] + more);
        assert(s =~= before + one + rest);
        let end = lemma_member_is_read(before, texts[0], rest, list[0], room);
        let start = before + one + seq![','];
        assert(s =~= start + more + seq!['}'] + behind);
        assert forall|i: int| 0 <= i < list.len() - 1 implies model::depth(
            (#[trigger] list.drop_first()[i]).1,
        ) <= room by {
            assert(model::depth(list[i + 1].1) <= room);
        }
        lemma_members_are_read(start, others, list.drop_first(), behind, room);
        assert(seq![list[0]] + list.drop_first() =~= list);
    }
}

/// Texts of members with commas between them, in braces, denote the object of these members, in
/// that order; braces with nothing but space between them denote the empty object.
#[verifier::rlimit(60)]
#[verifier::spinoff_prover]
pub proof fn law_members_make_an_object(
    texts: Seq<(Seq<char>, Seq<char>)>,
    list: Seq<(Name, Json)>,
    blank: Seq<char>,
)
    requires
        all_pair(texts, list),
        forall|i: int| 0 <= i < list.len() ==> model::depth((#[trigger] list[i]).1) < 128,
        is_blank(blank),
    ensures
        list.len() > 0 ==> denotes(
            seq!['{'] + commas(pairs(texts)) + seq!['}'],
            Json::Object(list),
        ),
        denotes(seq!['{'] + blank + seq!['}'], Json::Object(Seq::empty())),
{
    reveal(denotes);
    let t = seq!['{'] + blank + seq!['}'];
    assert(t[0] == '{');
    assert(t.subrange(1, (1 + blank.len()) as int) =~= blank);
    lemma_blanks_are_skipped(t, 1, (1 + blank.len()) as int);
    assert(t[(1 + blank.len()) as int] == '}');
    if list.len() > 0 {
        let s = seq!['{'] + commas(pairs(texts)) + seq!['}'];
        lemma_members_are_read(seq!['{'], texts, list, Seq::empty(), 127);
        assert(s + Seq::<char>::empty() =~= s);
        assert(s[0] == '{');
        grammar::lemma_skip_space(s, 1);
        assert(grammar::key(s, 1) is Done);
    }
}

#[verifier::rlimit(60)]
#[verifier::spinoff_prover]
proof fn lemma_members_split(s: Seq<char>, p: int, room: nat) -> (texts: Seq<
    (Seq<char>, Seq<char>),
>)
    requires
        0 <= p <= s.len(),
        room <= 128,
        grammar::members(s, p, room) is Done,
    ensures
        all_pair(texts, grammar::members(s, p, room)->Done_0),
        texts.len() > 0,
        p < grammar::members(s, p, room)->Done_1 <= s.len(),
        s.subrange(p, grammar::members(s, p, room)->Done_1) == commas(pairs(texts)) + seq!['}'],
    decreases s.len() - p,
{
    grammar::lemma_members_move(s, p, room);
    lemma_key_is_denoted(s, p);
    let list = grammar::members(s, p, room)->Done_0;
    let end = grammar::members(s, p, room)->Done_1;
    let a = grammar::key(s, p)->Done_1;
    grammar::lemma_value_moves(s, a, room);
    let q = grammar::value(s, a, room)->Done_1;
    let r = grammar::skip_space(s, q);
    lemma_skipped_is_blank(s, q);
    lemma_read_is_denoted(s, a, room, r);
    let first = (s.subrange(p, a - 1), s.subrange(a, r));
    assert(s.subrange(p, r) =~= first.0 + seq![':'] + first.1);
    if s[r] == ',' {
        let rest = lemma_members_split(s, r + 1, room);
        let texts = seq![first] + rest;
        assert(texts.drop_first() =~= rest);
        assert forall|i: int| 0 <= i < list.len() implies denotes(
            (#[trigger] texts[i]).0,
            Json::Text(list[i].0),
        ) && denotes(texts[i].1, list[i].1) by {
            if i > 0 {
                let more = grammar::members(s, r + 1, room)->Done_0;
                assert(denotes(rest[i - 1].0, Json::Text(more[i - 1].0)));
            }
        }
        assert(pairs(texts).drop_first() =~= pairs(rest));
        assert(s.subrange(p, end) =~= s.subrange(p, r) + seq![','] + s.subrange(r + 1, end));
        assert(s.subrange(p, end) =~= commas(pairs(texts)) + seq!['}']);
        texts
    } else {
        let texts = seq![first];
        assert(s.subrange(p, end) =~= s.subrange(p, r) + seq!['}']);
        assert(s.subrange(p, end) =~= commas(pairs(texts)) + seq!['}']);
        texts
    }
}

/// A text that denotes an object is made of an opening brace, texts that denote the members with
/// commas between them, and a closing brace, with space before and behind, and of nothing else.
#[verifier::rlimit(60)]
#[verifier::spinoff_prover]
pub proof fn law_object_is_made_of_its_members(s: Seq<char>, list: Seq<(Name, Json)>) -> (parts: (
    Seq<char>,
    Seq<char>,
    Seq<char>,
    Seq<(Seq<char>, Seq<char>)>,
))
    requires
        denotes(s, Json::Object(list)),
    ensures
        ({
            let (before, inner, behind, texts) = parts;
            &&& is_blank(before)
            &&& is_blank(behind)
            &&& s == before + seq!['{'] + inner + seq!['}'] + behind
            &&& list.len() == 0 ==> is_blank(inner)
            &&& list.len() > 0 ==> all_pair(texts, list) && inner == commas(pairs(texts))
        }),
{
    reveal(denotes);
    let q = grammar::skip_space(s, 0);
    lemma_skipped_is_blank(s, 0);
    grammar::lemma_value_moves(s, 0, 128);
    let end = grammar::value(s, 0, 128)->Done_1;
    lemma_skipped_is_blank(s, end);
    let before = s.subrange(0, q);
    let behind = s.subrange(end, s.len() as int);
    let r = grammar::skip_space(s, q + 1);
    lemma_skipped_is_blank(s, q + 1);
    if r < s.len() && s[r] == '}' {
        let inner = s.subrange(q + 1, r);
        assert(s =~= before + seq!['{'] + inner + seq!['}'] + behind);
        (before, inner, behind, Seq::empty())
    } else {
        let texts = lemma_members_split(s, q + 1, 127);
        let inner = commas(pairs(texts));
        assert(s =~= before + seq!['{'] + s.subrange(q + 1, end) + behind);
        assert(s =~= before + seq!['{'] + inner + seq!['}'] + behind);
        (before, inner, behind, texts)
    }
}

// ---------------------------------------------------------------------------------------------
// Plain values
// ---------------------------------------------------------------------------------------------

/// Whether `l` is written as a number: a minus sign or none, a zero or digits that start with
/// another digit, a point with digits behind it or none, and an exponent or none, with a sign or
/// none.
pub open spec fn is_numeral(
    l: Seq<char>,
    minus: Seq<char>,
    whole: Seq<char>,
    fraction: Seq<char>,
    exponent: Seq<char>,
) -> bool {
    &&& l == minus + whole + fraction + exponent
    &&& minus == Seq::<char>::empty() || minus == seq!['-']
    &&& text::all_digits(whole)
    &&& whole.len() == 1 || whole[0] != '0'
    &&& fraction.len() == 0 || (fraction[0] == '.' && text::all_digits(fraction.skip(1)))
    &&& exponent.len() == 0 || ((exponent[0] == 'e' || exponent[0] == 'E') && (text::all_digits(
        exponent.skip(1),
    ) || (exponent.len() > 1 && (exponent[1] == '+' || exponent[1] == '-') && text::all_digits(
        exponent.skip(2),
    ))))
}

/// What is written as a number denotes itself.
#[verifier::rlimit(60)]
#[verifier::spinoff_prover]
pub proof fn law_numeral_is_a_number(
    l: Seq<char>,
    minus: Seq<char>,
    whole: Seq<char>,
    fraction: Seq<char>,
    exponent: Seq<char>,
)
    requires
        is_numeral(l, minus, whole, fraction, exponent),
    ensures
        laws::is_number(l),
        denotes(l, Json::Number(l)),
{
    reveal(denotes);
    let a = minus.len() as int;
    let b = a + whole.len();
    let c = b + fraction.len();
    let n = l.len() as int;
    assert forall|i: int| a <= i < b implies (#[trigger] l[i]) == whole[i - a] by {}
    assert forall|i: int| b <= i < c implies (#[trigger] l[i]) == fraction[i - b] by {}
    assert forall|i: int| c <= i < n implies (#[trigger] l[i]) == exponent[i - c] by {}
    assert(text::is_digit(whole[0]));
    assert(l[a] == whole[0]);
    if minus.len() > 0 {
        assert(l[0] == '-');
    }
    if whole[0] != '0' {
        laws::lemma_digits_to(l, a, b);
    }
    assert(grammar::whole_part(l, a) == Parsed::Done((), b));
    if fraction.len() > 0 {
        assert(l[b] == '.');
        assert forall|i: int| b + 1 <= i < c implies text::is_digit(#[trigger] l[i]) by {
            assert(l[i] == fraction.skip(1)[i - b - 1]);
        }
        laws::lemma_digits_to(l, b + 1, c);
    }
    assert(grammar::fraction_part(l, b) == Parsed::Done((), c));
    if exponent.len() > 0 {
        assert(l[c] == exponent[0]);
        if text::all_digits(exponent.skip(1)) {
            assert(exponent.skip(1)[0] == exponent[1]);
            assert(l[c + 1] == exponent[1]);
            assert forall|i: int| c + 1 <= i < n implies text::is_digit(#[trigger] l[i]) by {
                assert(l[i] == exponent.skip(1)[i - c - 1]);
            }
            laws::lemma_digits_to(l, c + 1, n);
        } else {
            assert(l[c + 1] == exponent[1]);
            assert forall|i: int| c + 2 <= i < n implies text::is_digit(#[trigger] l[i]) by {
                assert(l[i] == exponent.skip(2)[i - c - 2]);
            }
            laws::lemma_digits_to(l, c + 2, n);
        }
    }
    assert(grammar::exponent_part(l, c) == Parsed::Done((), n));
    assert(l.subrange(0, n) =~= l);
}

/// A number that was read is written as one.
#[verifier::rlimit(60)]
#[verifier::spinoff_prover]
proof fn lemma_number_is_numeral(l: Seq<char>) -> (parts: (
    Seq<char>,
    Seq<char>,
    Seq<char>,
    Seq<char>,
))
    requires
        laws::is_number(l),
    ensures
        is_numeral(l, parts.0, parts.1, parts.2, parts.3),
{
    let a: int = if l[0] == '-' {
        1
    } else {
        0
    };
    let n = l.len() as int;
    let b = grammar::whole_part(l, a)->Done_1;
    grammar::lemma_digits_end(l, a);
    grammar::lemma_digits_end(l, a + 1);
    let c = grammar::fraction_part(l, b)->Done_1;
    if b < n {
        grammar::lemma_digits_end(l, b + 1);
    }
    if c < n {
        grammar::lemma_digits_end(l, c + 1);
        if c + 1 < n {
            grammar::lemma_digits_end(l, c + 2);
        }
    }
    let minus = l.subrange(0, a);
    let whole = l.subrange(a, b);
    let fraction = l.subrange(b, c);
    let exponent = l.subrange(c, n);
    assert(l =~= minus + whole + fraction + exponent);
    if a == 1 {
        assert(minus =~= seq!['-']);
    } else {
        assert(minus =~= Seq::<char>::empty());
    }
    assert(whole[0] == l[a]);
    assert forall|i: int| 0 <= i < whole.len() implies text::is_digit(#[trigger] whole[i]) by {
        assert(whole[i] == l[a + i]);
    }
    if b < c {
        assert forall|i: int| 0 <= i < fraction.skip(1).len() implies text::is_digit(
            #[trigger] fraction.skip(1)[i],
        ) by {
            assert(fraction.skip(1)[i] == l[b + 1 + i]);
        }
    }
    if c < n {
        if l[c + 1] == '+' || l[c + 1] == '-' {
            assert forall|i: int| 0 <= i < exponent.skip(2).len() implies text::is_digit(
                #[trigger] exponent.skip(2)[i],
            ) by {
                assert(exponent.skip(2)[i] == l[c + 2 + i]);
            }
        } else {
            assert forall|i: int| 0 <= i < exponent.skip(1).len() implies text::is_digit(
                #[trigger] exponent.skip(1)[i],
            ) by {
                assert(exponent.skip(1)[i] == l[c + 1 + i]);
            }
        }
    }
    (minus, whole, fraction, exponent)
}

/// A text that denotes a number is that number, with space before and behind.
#[verifier::rlimit(60)]
#[verifier::spinoff_prover]
pub proof fn law_number_is_a_numeral(s: Seq<char>, l: Seq<char>) -> (parts: (
    (Seq<char>, Seq<char>),
    (Seq<char>, Seq<char>, Seq<char>, Seq<char>),
))
    requires
        denotes(s, Json::Number(l)),
    ensures
        is_blank(parts.0.0),
        is_blank(parts.0.1),
        s == parts.0.0 + l + parts.0.1,
        is_numeral(l, parts.1.0, parts.1.1, parts.1.2, parts.1.3),
{
    let (before, core, behind) = lemma_three_parts(s, Json::Number(l));
    lemma_number_value(s, 0, 128);
    ((before, behind), lemma_number_is_numeral(l))
}

/// A text with a value is that value with space before and behind.
#[verifier::rlimit(60)]
#[verifier::spinoff_prover]
proof fn lemma_three_parts(s: Seq<char>, v: Json) -> (parts: (Seq<char>, Seq<char>, Seq<char>))
    requires
        denotes(s, v),
    ensures
        is_blank(parts.0),
        is_blank(parts.2),
        s == parts.0 + parts.1 + parts.2,
        grammar::value(s, 0, 128) is Done,
        grammar::value(s, 0, 128)->Done_0 == v,
        0 <= grammar::skip_space(s, 0) < grammar::value(s, 0, 128)->Done_1 <= s.len(),
        parts.1 == s.subrange(grammar::skip_space(s, 0), grammar::value(s, 0, 128)->Done_1),
{
    reveal(denotes);
    let q = grammar::skip_space(s, 0);
    lemma_skipped_is_blank(s, 0);
    travel::lemma_value_ends_behind(s, 0, 128);
    let end = grammar::value(s, 0, 128)->Done_1;
    lemma_skipped_is_blank(s, end);
    let before = s.subrange(0, q);
    let behind = s.subrange(end, s.len() as int);
    assert(s =~= before + s.subrange(q, end) + behind);
    (before, s.subrange(q, end), behind)
}

/// A value that is a number was read as one.
#[verifier::rlimit(60)]
#[verifier::spinoff_prover]
proof fn lemma_number_value(s: Seq<char>, p: int, room: nat)
    requires
        0 <= p <= s.len(),
        grammar::value(s, p, room) is Done,
        grammar::value(s, p, room)->Done_0 is Number,
    ensures
        ({
            let q = grammar::skip_space(s, p);
            let l = grammar::value(s, p, room)->Done_0->Number_0;
            &&& 0 <= q < s.len()
            &&& grammar::number(s, q) == Parsed::Done(l, grammar::value(s, p, room)->Done_1)
            &&& l == s.subrange(q, grammar::value(s, p, room)->Done_1)
            &&& laws::is_number(l)
        }),
{
    grammar::lemma_skip_space(s, p);
    let q = grammar::skip_space(s, p);
    assert(grammar::number(s, q) is Done);
    laws::lemma_number_alone(s, q);
}

/// A value that is a text was read from a quote on.
#[verifier::rlimit(60)]
#[verifier::spinoff_prover]
proof fn lemma_text_value(s: Seq<char>, p: int, room: nat)
    requires
        0 <= p <= s.len(),
        grammar::value(s, p, room) is Done,
        grammar::value(s, p, room)->Done_0 is Text,
    ensures
        ({
            let q = grammar::skip_space(s, p);
            &&& 0 <= q < s.len()
            &&& s[q] == '"'
            &&& grammar::string(s, q + 1) == Parsed::Done(
                grammar::value(s, p, room)->Done_0->Text_0,
                grammar::value(s, p, room)->Done_1,
            )
        }),
{
    grammar::lemma_skip_space(s, p);
}

/// A text that denotes null, true or false is that word, with space before and behind, and each
/// of these words denotes its value.
#[verifier::rlimit(60)]
#[verifier::spinoff_prover]
pub proof fn law_words_stand_for_values(s: Seq<char>, v: Json) -> (parts: (Seq<char>, Seq<char>))
    requires
        denotes(s, v),
        v is Null || v is Bool,
    ensures
        is_blank(parts.0),
        is_blank(parts.1),
        v == Json::Null ==> s == parts.0 + seq!['n', 'u', 'l', 'l'] + parts.1,
        v == Json::Bool(true) ==> s == parts.0 + seq!['t', 'r', 'u', 'e'] + parts.1,
        v == Json::Bool(false) ==> s == parts.0 + seq!['f', 'a', 'l', 's', 'e'] + parts.1,
{
    let (before, core, behind) = lemma_three_parts(s, v);
    (before, behind)
}

/// The words for null, true and false denote these values.
#[verifier::rlimit(60)]
#[verifier::spinoff_prover]
pub proof fn law_words_are_read(before: Seq<char>, behind: Seq<char>)
    requires
        is_blank(before),
        is_blank(behind),
    ensures
        denotes(before + seq!['n', 'u', 'l', 'l'] + behind, Json::Null),
        denotes(before + seq!['t', 'r', 'u', 'e'] + behind, Json::Bool(true)),
        denotes(before + seq!['f', 'a', 'l', 's', 'e'] + behind, Json::Bool(false)),
{
    reveal(denotes);
    laws::law_written_value_reads_back(Json::Null);
    laws::law_written_value_reads_back(Json::Bool(true));
    laws::law_written_value_reads_back(Json::Bool(false));
    law_space_around_a_text_is_skipped(before, seq!['n', 'u', 'l', 'l'], behind, Json::Null);
    law_space_around_a_text_is_skipped(before, seq!['t', 'r', 'u', 'e'], behind, Json::Bool(true));
    law_space_around_a_text_is_skipped(
        before,
        seq!['f', 'a', 'l', 's', 'e'],
        behind,
        Json::Bool(false),
    );
}

/// A text that denotes a string is made of a quote, pieces that spell its characters and a quote,
/// with space before and behind.
#[verifier::rlimit(60)]
#[verifier::spinoff_prover]
pub proof fn law_string_is_spelt(s: Seq<char>, chars: Seq<char>) -> (parts: (
    Seq<char>,
    Seq<Seq<char>>,
    Seq<char>,
))
    requires
        denotes(s, Json::Text(chars)),
    ensures
        is_blank(parts.0),
        is_blank(parts.2),
        spelling::spell(parts.1, chars),
        s == parts.0 + seq!['"'] + text::joined(parts.1) + seq!['"'] + parts.2,
{
    let (before, core, behind) = lemma_three_parts(s, Json::Text(chars));
    let q = grammar::skip_space(s, 0);
    let end = grammar::value(s, 0, 128)->Done_1;
    lemma_text_value(s, 0, 128);
    let pieces = spelling::law_read_string_is_spelt(s, q + 1);
    assert(core =~= seq!['"'] + s.subrange(q + 1, end));
    assert(s =~= before + seq!['"'] + text::joined(pieces) + seq!['"'] + behind);
    (before, pieces, behind)
}

} // verus!

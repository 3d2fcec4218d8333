//! A value is read the same wherever its characters stand.
use crate::json::grammar;
use crate::json::grammar::Parsed;
use crate::json::laws;
use crate::json::model;
use crate::text;
use vstd::prelude::*;

verus! {

/// Whether `t` has the characters of `s` from `p` up to `q`, moved by `d`.
pub open spec fn same(s: Seq<char>, p: int, q: int, t: Seq<char>, d: int) -> bool {
    &&& 0 <= p <= q <= s.len()
    &&& 0 <= p + d
    &&& q + d <= t.len()
    &&& forall|i: int| p <= i < q ==> #[trigger] s[i] == t[i + d]
}

#[verifier::rlimit(60)]
#[verifier::spinoff_prover]
proof fn lemma_space_travels(s: Seq<char>, p: int, q: int, t: Seq<char>, d: int)
    requires
        same(s, p, q, t, d),
        grammar::skip_space(s, p) < q,
    ensures
        grammar::skip_space(t, p + d) == grammar::skip_space(s, p) + d,
    decreases q - p,
{
    grammar::lemma_skip_space(s, p);
    assert(s[p] == t[p + d]);
    if grammar::is_space(s[p]) {
        grammar::lemma_skip_space(s, p + 1);
        lemma_space_travels(s, p + 1, q, t, d);
    }
}

#[verifier::rlimit(60)]
#[verifier::spinoff_prover]
proof fn lemma_escape_travels(s: Seq<char>, p: int, q: int, t: Seq<char>, d: int)
    requires
        same(s, p, q, t, d),
        p < q,
        grammar::escape(s, p) is Done,
        grammar::escape(s, p)->Done_1 <= q,
    ensures
        grammar::escape(t, p + d) == Parsed::Done(
            grammar::escape(s, p)->Done_0,
            grammar::escape(s, p)->Done_1 + d,
        ),
{
    grammar::lemma_escape_moves(s, p);
    assert(s[p + 1] == t[p + 1 + d]);
    if s[p + 1] == 'u' {
        assert(s[p + 2] == t[p + 2 + d]);
        assert(s[p + 3] == t[p + 3 + d]);
        assert(s[p + 4] == t[p + 4 + d]);
        assert(s[p + 5] == t[p + 5 + d]);
        if grammar::escape(s, p)->Done_1 == p + 12 {
            assert(s[p + 6] == t[p + 6 + d]);
            assert(s[p + 7] == t[p + 7 + d]);
            assert(s[p + 8] == t[p + 8 + d]);
            assert(s[p + 9] == t[p + 9 + d]);
            assert(s[p + 10] == t[p + 10 + d]);
            assert(s[p + 11] == t[p + 11 + d]);
        }
    }
}

#[verifier::rlimit(60)]
#[verifier::spinoff_prover]
proof fn lemma_string_travels(s: Seq<char>, p: int, q: int, t: Seq<char>, d: int)
    requires
        same(s, p, q, t, d),
        grammar::string(s, p) is Done,
        grammar::string(s, p)->Done_1 <= q,
    ensures
        grammar::string(t, p + d) == Parsed::Done(
            grammar::string(s, p)->Done_0,
            grammar::string(s, p)->Done_1 + d,
        ),
    decreases q - p,
{
    grammar::lemma_string_moves(s, p);
    assert(s[p] == t[p + d]);
    if s[p] == '"' {
    } else if s[p] == '\\' {
        let k = grammar::escape(s, p)->Done_1;
        grammar::lemma_escape_moves(s, p);
        grammar::lemma_string_moves(s, k);
        lemma_escape_travels(s, p, q, t, d);
        lemma_string_travels(s, k, q, t, d);
    } else {
        grammar::lemma_string_moves(s, p + 1);
        lemma_string_travels(s, p + 1, q, t, d);
    }
}

#[verifier::rlimit(60)]
#[verifier::spinoff_prover]
proof fn lemma_key_travels(s: Seq<char>, p: int, q: int, t: Seq<char>, d: int)
    requires
        same(s, p, q, t, d),
        grammar::key(s, p) is Done,
        grammar::key(s, p)->Done_1 <= q,
    ensures
        grammar::key(t, p + d) == Parsed::Done(
            grammar::key(s, p)->Done_0,
            grammar::key(s, p)->Done_1 + d,
        ),
{
    let r = grammar::skip_space(s, p);
    grammar::lemma_skip_space(s, p);
    grammar::lemma_string_moves(s, r + 1);
    let e = grammar::string(s, r + 1)->Done_1;
    grammar::lemma_skip_space(s, e);
    let c = grammar::skip_space(s, e);
    lemma_space_travels(s, p, q, t, d);
    assert(s[r] == t[r + d]);
    lemma_string_travels(s, r + 1, q, t, d);
    lemma_space_travels(s, e, q, t, d);
    assert(s[c] == t[c + d]);
}

#[verifier::rlimit(60)]
#[verifier::spinoff_prover]
proof fn lemma_number_travels(s: Seq<char>, p: int, t: Seq<char>, d: int)
    requires
        0 <= p < s.len(),
        grammar::number(s, p) is Done,
        same(s, p, grammar::number(s, p)->Done_1, t, d),
        laws::ends_number(t, grammar::number(s, p)->Done_1 + d),
    ensures
        grammar::number(t, p + d) == Parsed::Done(
            grammar::number(s, p)->Done_0,
            grammar::number(s, p)->Done_1 + d,
        ),
{
    grammar::lemma_number_moves(s, p);
    laws::lemma_number_alone(s, p);
    let l = grammar::number(s, p)->Done_0;
    assert(laws::stands_at(t, p + d, l)) by {
        assert forall|i: int| 0 <= i < l.len() implies t[p + d + i] == #[trigger] l[i] by {
            assert(l[i] == s[p + i]);
        }
    }
    laws::lemma_number_reads(t, p + d, l);
}

/// What was read as a value from `p` on is read so wherever the same characters stand, if nothing
/// follows that could go on with a number, and the value may be nested so deep there.
#[verifier::rlimit(60)]
#[verifier::spinoff_prover]
pub proof fn lemma_value_travels(s: Seq<char>, p: int, room: nat, t: Seq<char>, d: int, space: nat)
    requires
        0 <= p <= s.len(),
        grammar::value(s, p, room) is Done,
        same(s, p, grammar::value(s, p, room)->Done_1, t, d),
        laws::ends_number(t, grammar::value(s, p, room)->Done_1 + d),
        model::depth(grammar::value(s, p, room)->Done_0) <= space,
    ensures
        grammar::value(t, p + d, space) == Parsed::Done(
            grammar::value(s, p, room)->Done_0,
            grammar::value(s, p, room)->Done_1 + d,
        ),
    decreases room, s.len() - p, 2nat,
{
    grammar::lemma_value_moves(s, p, room);
    grammar::lemma_skip_space(s, p);
    let v = grammar::value(s, p, room)->Done_0;
    let end = grammar::value(s, p, room)->Done_1;
    let q = grammar::skip_space(s, p);
    lemma_value_ends_behind(s, p, room);
    lemma_space_travels(s, p, end, t, d);
    assert(s[q] == t[q + d]);
    assert(grammar::skip_space(s, q) == q);
    assert(grammar::skip_space(t, q + d) == q + d);
    assert(grammar::value(s, q, room) == grammar::value(s, p, room));
    assert(grammar::value(t, q + d, space) == grammar::value(t, p + d, space));
    if s[q] == 'n' || s[q] == 't' || s[q] == 'f' {
        assert(s.subrange(q, end) =~= t.subrange(q + d, end + d)) by {
            assert forall|i: int| 0 <= i < end - q implies s.subrange(q, end)[i] == t.subrange(
                q + d,
                end + d,
            )[i] by {
                assert(s[q + i] == t[q + i + d]);
            }
        }
    } else if s[q] == '"' {
        lemma_string_travels(s, q + 1, end, t, d);
    } else if s[q] == '-' || text::is_digit(s[q]) {
        lemma_number_travels(s, q, t, d);
    } else if s[q] == '[' {
        lemma_array_travels(s, q, room, t, d, space, end);
    } else {
        lemma_object_travels(s, q, room, t, d, space, end);
    }
}

#[verifier::rlimit(60)]
#[verifier::spinoff_prover]
proof fn lemma_array_travels(
    s: Seq<char>,
    q: int,
    room: nat,
    t: Seq<char>,
    d: int,
    space: nat,
    end: int,
)
    requires
        0 <= q < s.len(),
        s[q] == '[',
        grammar::skip_space(s, q) == q,
        grammar::value(s, q, room) is Done,
        grammar::value(s, q, room)->Done_1 == end,
        same(s, q, end, t, d),
        t[q + d] == '[',
        grammar::skip_space(t, q + d) == q + d,
        model::depth(grammar::value(s, q, room)->Done_0) <= space,
    ensures
        grammar::value(t, q + d, space) == Parsed::Done(
            grammar::value(s, q, room)->Done_0,
            end + d,
        ),
    decreases room, s.len() - q, 1nat,
{
    let r = grammar::skip_space(s, q + 1);
    grammar::lemma_skip_space(s, q + 1);
    if r < s.len() && s[r] == ']' {
        lemma_space_travels(s, q + 1, end, t, d);
        assert(s[r] == t[r + d]);
    } else {
        let less = (room - 1) as nat;
        grammar::lemma_items_move(s, q + 1, less);
        lemma_items_end_behind(s, q + 1, less);
        lemma_space_travels(s, q + 1, end, t, d);
        assert(s[r] == t[r + d]);
        lemma_items_travel(s, q + 1, less, t, d, (space - 1) as nat);
    }
}

#[verifier::rlimit(60)]
#[verifier::spinoff_prover]
proof fn lemma_object_travels(
    s: Seq<char>,
    q: int,
    room: nat,
    t: Seq<char>,
    d: int,
    space: nat,
    end: int,
)
    requires
        0 <= q < s.len(),
        s[q] == '{',
        grammar::skip_space(s, q) == q,
        grammar::value(s, q, room) is Done,
        grammar::value(s, q, room)->Done_1 == end,
        same(s, q, end, t, d),
        t[q + d] == '{',
        grammar::skip_space(t, q + d) == q + d,
        model::depth(grammar::value(s, q, room)->Done_0) <= space,
    ensures
        grammar::value(t, q + d, space) == Parsed::Done(
            grammar::value(s, q, room)->Done_0,
            end + d,
        ),
    decreases room, s.len() - q, 1nat,
{
    let r = grammar::skip_space(s, q + 1);
    grammar::lemma_skip_space(s, q + 1);
    if r < s.len() && s[r] == '}' {
        lemma_space_travels(s, q + 1, end, t, d);
        assert(s[r] == t[r + d]);
    } else {
        let less = (room - 1) as nat;
        grammar::lemma_members_move(s, q + 1, less);
        lemma_members_end_behind(s, q + 1, less);
        lemma_space_travels(s, q + 1, end, t, d);
        assert(s[r] == t[r + d]);
        lemma_members_travel(s, q + 1, less, t, d, (space - 1) as nat);
    }
}

/// A value ends behind the space before it.
#[verifier::rlimit(60)]
#[verifier::spinoff_prover]
pub proof fn lemma_value_ends_behind(s: Seq<char>, p: int, room: nat)
    requires
        0 <= p <= s.len(),
        grammar::value(s, p, room) is Done,
    ensures
        grammar::skip_space(s, p) < grammar::value(s, p, room)->Done_1 <= s.len(),
{
    grammar::lemma_value_moves(s, p, room);
    grammar::lemma_skip_space(s, p);
    let q = grammar::skip_space(s, p);
    if s[q] == '"' {
        grammar::lemma_string_moves(s, q + 1);
    } else if s[q] == '-' || text::is_digit(s[q]) {
        grammar::lemma_number_moves(s, q);
    } else if s[q] == '[' {
        grammar::lemma_skip_space(s, q + 1);
        grammar::lemma_items_move(s, q + 1, (room - 1) as nat);
    } else if s[q] == '{' {
        grammar::lemma_skip_space(s, q + 1);
        grammar::lemma_members_move(s, q + 1, (room - 1) as nat);
    }
}

#[verifier::rlimit(60)]
#[verifier::spinoff_prover]
proof fn lemma_items_end_behind(s: Seq<char>, p: int, room: nat)
    requires
        0 <= p <= s.len(),
        grammar::items(s, p, room) is Done,
    ensures
        grammar::skip_space(s, p) < grammar::items(s, p, room)->Done_1 <= s.len(),
{
    grammar::lemma_items_move(s, p, room);
    lemma_value_ends_behind(s, p, room);
    let q = grammar::value(s, p, room)->Done_1;
    grammar::lemma_skip_space(s, q);
    grammar::lemma_items_move(s, grammar::skip_space(s, q) + 1, room);
}

#[verifier::rlimit(60)]
#[verifier::spinoff_prover]
proof fn lemma_members_end_behind(s: Seq<char>, p: int, room: nat)
    requires
        0 <= p <= s.len(),
        grammar::members(s, p, room) is Done,
    ensures
        grammar::skip_space(s, p) < grammar::members(s, p, room)->Done_1 <= s.len(),
{
    grammar::lemma_members_move(s, p, room);
    grammar::lemma_key_moves(s, p);
    let r = grammar::skip_space(s, p);
    grammar::lemma_skip_space(s, p);
    grammar::lemma_string_moves(s, r + 1);
    grammar::lemma_skip_space(s, grammar::string(s, r + 1)->Done_1);
    let a = grammar::key(s, p)->Done_1;
    grammar::lemma_value_moves(s, a, room);
    let q = grammar::value(s, a, room)->Done_1;
    grammar::lemma_skip_space(s, q);
    grammar::lemma_members_move(s, grammar::skip_space(s, q) + 1, room);
}

#[verifier::rlimit(60)]
#[verifier::spinoff_prover]
proof fn lemma_items_travel(s: Seq<char>, p: int, room: nat, t: Seq<char>, d: int, space: nat)
    requires
        0 <= p <= s.len(),
        grammar::items(s, p, room) is Done,
        same(s, p, grammar::items(s, p, room)->Done_1, t, d),
        model::items_depth(grammar::items(s, p, room)->Done_0) <= space,
    ensures
        grammar::items(t, p + d, space) == Parsed::Done(
            grammar::items(s, p, room)->Done_0,
            grammar::items(s, p, room)->Done_1 + d,
        ),
    decreases room, s.len() - p, 3nat,
{
    grammar::lemma_items_move(s, p, room);
    grammar::lemma_value_moves(s, p, room);
    let list = grammar::items(s, p, room)->Done_0;
    let end = grammar::items(s, p, room)->Done_1;
    let v = grammar::value(s, p, room)->Done_0;
    let q = grammar::value(s, p, room)->Done_1;
    let r = grammar::skip_space(s, q);
    grammar::lemma_skip_space(s, q);
    grammar::lemma_items_move(s, r + 1, room);
    assert(list[0] == v);
    assert(s[q] == t[q + d]);
    assert(grammar::is_space(s[q]) || q == r);
    assert(laws::ends_number(t, q + d));
    lemma_value_travels(s, p, room, t, d, space);
    lemma_space_travels(s, q, end, t, d);
    assert(s[r] == t[r + d]);
    if s[r] == ',' {
        let rest = grammar::items(s, r + 1, room)->Done_0;
        assert(list.drop_first() =~= rest);
        lemma_items_travel(s, r + 1, room, t, d, space);
    }
}

#[verifier::rlimit(60)]
#[verifier::spinoff_prover]
proof fn lemma_members_travel(s: Seq<char>, p: int, room: nat, t: Seq<char>, d: int, space: nat)
    requires
        0 <= p <= s.len(),
        grammar::members(s, p, room) is Done,
        same(s, p, grammar::members(s, p, room)->Done_1, t, d),
        model::members_depth(grammar::members(s, p, room)->Done_0) <= space,
    ensures
        grammar::members(t, p + d, space) == Parsed::Done(
            grammar::members(s, p, room)->Done_0,
            grammar::members(s, p, room)->Done_1 + d,
        ),
    decreases room, s.len() - p, 3nat,
{
    grammar::lemma_members_move(s, p, room);
    grammar::lemma_key_moves(s, p);
    let list = grammar::members(s, p, room)->Done_0;
    let end = grammar::members(s, p, room)->Done_1;
    let name = grammar::key(s, p)->Done_0;
    let a = grammar::key(s, p)->Done_1;
    grammar::lemma_value_moves(s, a, room);
    let v = grammar::value(s, a, room)->Done_0;
    let q = grammar::value(s, a, room)->Done_1;
    let r = grammar::skip_space(s, q);
    grammar::lemma_skip_space(s, q);
    grammar::lemma_members_move(s, r + 1, room);
    assert(list[0] == (name, v));
    assert(s[q] == t[q + d]);
    assert(grammar::is_space(s[q]) || q == r);
    assert(laws::ends_number(t, q + d));
    lemma_key_travels(s, p, end, t, d);
    lemma_value_travels(s, a, room, t, d, space);
    lemma_space_travels(s, q, end, t, d);
    assert(s[r] == t[r + d]);
    if s[r] == ',' {
        let rest = grammar::members(s, r + 1, room)->Done_0;
        assert(list.drop_first() =~= rest);
        lemma_members_travel(s, r + 1, room, t, d, space);
    }
}

} // verus!

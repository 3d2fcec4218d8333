//! Reading depends on what stands from a position on, and on nothing before it.
use crate::json::grammar;
use crate::json::grammar::{ErrorKind, Parsed};
use crate::text;
use vstd::prelude::*;

verus! {

/// Whether `t` goes on from `p + d` as `s` does from `p`, up to the end.
pub open spec fn tails(s: Seq<char>, p: int, t: Seq<char>, d: int) -> bool {
    &&& 0 <= p <= s.len()
    &&& 0 <= p + d
    &&& s.len() + d == t.len()
    &&& forall|i: int| p <= i < s.len() ==> #[trigger] s[i] == t[i + d]
}

/// What was read, `d` further on.
pub open spec fn shifted<T>(parsed: Parsed<T>, d: int) -> Parsed<T> {
    match parsed {
        Parsed::Done(v, q) => Parsed::Done(v, q + d),
        Parsed::Fail(kind, at) => Parsed::Fail(kind, at + d),
    }
}

proof fn lemma_tails_behind(s: Seq<char>, p: int, t: Seq<char>, d: int, q: int)
    requires
        tails(s, p, t, d),
        p <= q <= s.len(),
    ensures
        tails(s, q, t, d),
{
}

/// Space is skipped alike.
pub proof fn lemma_space_shifts(s: Seq<char>, p: int, t: Seq<char>, d: int)
    requires
        tails(s, p, t, d),
    ensures
        grammar::skip_space(t, p + d) == grammar::skip_space(s, p) + d,
    decreases s.len() - p,
{
    if p < s.len() {
        assert(s[p] == t[p + d]);
        if grammar::is_space(s[p]) {
            lemma_space_shifts(s, p + 1, t, d);
        }
    }
}

proof fn lemma_digits_shift(s: Seq<char>, p: int, t: Seq<char>, d: int)
    requires
        tails(s, p, t, d),
    ensures
        grammar::digits_end(t, p + d) == grammar::digits_end(s, p) + d,
    decreases s.len() - p,
{
    if p < s.len() {
        assert(s[p] == t[p + d]);
        if text::is_digit(s[p]) {
            lemma_digits_shift(s, p + 1, t, d);
        }
    }
}

proof fn lemma_whole_shifts(s: Seq<char>, p: int, t: Seq<char>, d: int)
    requires
        tails(s, p, t, d),
    ensures
        grammar::whole_part(t, p + d) == shifted(grammar::whole_part(s, p), d),
        grammar::whole_part(s, p) matches Parsed::Done(_, q) ==> p <= q <= s.len(),
{
    if p < s.len() {
        assert(s[p] == t[p + d]);
        lemma_digits_shift(s, p, t, d);
        grammar::lemma_digits_end(s, p);
    }
}

proof fn lemma_fraction_shifts(s: Seq<char>, p: int, t: Seq<char>, d: int)
    requires
        tails(s, p, t, d),
    ensures
        grammar::fraction_part(t, p + d) == shifted(grammar::fraction_part(s, p), d),
        grammar::fraction_part(s, p) matches Parsed::Done(_, q) ==> p <= q <= s.len(),
{
    if p < s.len() {
        assert(s[p] == t[p + d]);
        lemma_digits_shift(s, p + 1, t, d);
        grammar::lemma_digits_end(s, p + 1);
    }
}

proof fn lemma_exponent_shifts(s: Seq<char>, p: int, t: Seq<char>, d: int)
    requires
        tails(s, p, t, d),
    ensures
        grammar::exponent_part(t, p + d) == shifted(grammar::exponent_part(s, p), d),
        grammar::exponent_part(s, p) matches Parsed::Done(_, q) ==> p <= q <= s.len(),
{
    if p < s.len() {
        assert(s[p] == t[p + d]);
        lemma_digits_shift(s, p + 1, t, d);
        grammar::lemma_digits_end(s, p + 1);
        if p + 1 < s.len() {
            assert(s[p + 1] == t[p + 1 + d]);
            lemma_digits_shift(s, p + 2, t, d);
            grammar::lemma_digits_end(s, p + 2);
        }
    }
}

proof fn lemma_number_shifts(s: Seq<char>, p: int, t: Seq<char>, d: int)
    requires
        tails(s, p, t, d),
        p < s.len(),
    ensures
        grammar::number(t, p + d) == shifted(grammar::number(s, p), d),
{
    assert(s[p] == t[p + d]);
    let first = if s[p] == '-' {
        p + 1
    } else {
        p
    };
    lemma_whole_shifts(s, first, t, d);
    if let Parsed::Done(_, a) = grammar::whole_part(s, first) {
        lemma_fraction_shifts(s, a, t, d);
        if let Parsed::Done(_, b) = grammar::fraction_part(s, a) {
            lemma_exponent_shifts(s, b, t, d);
            if let Parsed::Done(_, c) = grammar::exponent_part(s, b) {
                assert(s.subrange(p, c) =~= t.subrange(p + d, c + d)) by {
                    assert forall|i: int| 0 <= i < c - p implies s.subrange(p, c)[i] == t.subrange(
                        p + d,
                        c + d,
                    )[i] by {
                        assert(s[p + i] == t[p + i + d]);
                    }
                }
            }
        }
    }
}

proof fn lemma_hex_shifts(s: Seq<char>, p: int, t: Seq<char>, d: int)
    requires
        tails(s, p, t, d),
    ensures
        grammar::hex4(t, p + d) == grammar::hex4(s, p),
{
    if p + 4 <= s.len() {
        assert(s[p] == t[p + d]);
        assert(s[p + 1] == t[p + 1 + d]);
        assert(s[p + 2] == t[p + 2 + d]);
        assert(s[p + 3] == t[p + 3 + d]);
    }
}

proof fn lemma_escape_shifts(s: Seq<char>, p: int, t: Seq<char>, d: int)
    requires
        tails(s, p, t, d),
        p < s.len(),
    ensures
        grammar::escape(t, p + d) == shifted(grammar::escape(s, p), d),
{
    if p + 1 < s.len() {
        assert(s[p + 1] == t[p + 1 + d]);
        lemma_hex_shifts(s, p + 2, t, d);
        if p + 8 <= s.len() {
            assert(s[p + 6] == t[p + 6 + d]);
            assert(s[p + 7] == t[p + 7 + d]);
            lemma_hex_shifts(s, p + 8, t, d);
        }
    }
}

/// A string, or the fault in it, is read alike.
pub proof fn lemma_string_shifts(s: Seq<char>, p: int, t: Seq<char>, d: int)
    requires
        tails(s, p, t, d),
    ensures
        grammar::string(t, p + d) == shifted(grammar::string(s, p), d),
    decreases s.len() - p,
{
    if p < s.len() {
        assert(s[p] == t[p + d]);
        if s[p] == '"' {
        } else if s[p] == '\\' {
            lemma_escape_shifts(s, p, t, d);
            grammar::lemma_escape_moves(s, p);
            if let Parsed::Done(_, q) = grammar::escape(s, p) {
                lemma_tails_behind(s, p, t, d, q);
                lemma_string_shifts(s, q, t, d);
            }
        } else {
            lemma_string_shifts(s, p + 1, t, d);
        }
    }
}

proof fn lemma_key_shifts(s: Seq<char>, p: int, t: Seq<char>, d: int)
    requires
        tails(s, p, t, d),
    ensures
        grammar::key(t, p + d) == shifted(grammar::key(s, p), d),
{
    let r = grammar::skip_space(s, p);
    grammar::lemma_skip_space(s, p);
    lemma_space_shifts(s, p, t, d);
    if r < s.len() {
        assert(s[r] == t[r + d]);
        lemma_string_shifts(s, r + 1, t, d);
        grammar::lemma_string_moves(s, r + 1);
        if let Parsed::Done(_, e) = grammar::string(s, r + 1) {
            lemma_space_shifts(s, e, t, d);
            grammar::lemma_skip_space(s, e);
            let c = grammar::skip_space(s, e);
            if c < s.len() {
                assert(s[c] == t[c + d]);
            }
        }
    }
}

proof fn lemma_literal_shifts(s: Seq<char>, p: int, t: Seq<char>, d: int, n: int)
    requires
        tails(s, p, t, d),
        n >= 0,
        p + n <= s.len(),
    ensures
        t.subrange(p + d, p + d + n) == s.subrange(p, p + n),
{
    assert(t.subrange(p + d, p + d + n) =~= s.subrange(p, p + n)) by {
        let a = t.subrange(p + d, p + d + n);
        let b = s.subrange(p, p + n);
        assert forall|i: int| 0 <= i < n implies #[trigger] a[i] == b[i] by {
            assert(s[p + i] == t[p + i + d]);
        }
    }
}

/// A value, or the fault in it, is read alike.
#[verifier::rlimit(60)]
#[verifier::spinoff_prover]
pub proof fn lemma_value_shifts(s: Seq<char>, p: int, t: Seq<char>, d: int, room: nat)
    requires
        tails(s, p, t, d),
    ensures
        grammar::value(t, p + d, room) == shifted(grammar::value(s, p, room), d),
    decreases room, s.len() - p, 0nat,
{
    let q = grammar::skip_space(s, p);
    grammar::lemma_skip_space(s, p);
    lemma_space_shifts(s, p, t, d);
    if q < s.len() {
        assert(s[q] == t[q + d]);
        if s[q] == 'n' || s[q] == 't' {
            if q + 4 <= s.len() {
                lemma_literal_shifts(s, q, t, d, 4);
            }
        } else if s[q] == 'f' {
            if q + 5 <= s.len() {
                lemma_literal_shifts(s, q, t, d, 5);
            }
        } else if s[q] == '"' {
            lemma_string_shifts(s, q + 1, t, d);
        } else if s[q] == '-' || text::is_digit(s[q]) {
            lemma_number_shifts(s, q, t, d);
        } else if s[q] == '[' || s[q] == '{' {
            let r = grammar::skip_space(s, q + 1);
            grammar::lemma_skip_space(s, q + 1);
            lemma_space_shifts(s, q + 1, t, d);
            if r < s.len() {
                assert(s[r] == t[r + d]);
            }
            if room > 0 {
                if s[q] == '[' {
                    lemma_items_shift(s, q + 1, t, d, (room - 1) as nat);
                } else {
                    lemma_members_shift(s, q + 1, t, d, (room - 1) as nat);
                }
            }
        }
    }
}

/// Items, or the fault in them, are read alike.
#[verifier::rlimit(60)]
#[verifier::spinoff_prover]
pub proof fn lemma_items_shift(s: Seq<char>, p: int, t: Seq<char>, d: int, room: nat)
    requires
        tails(s, p, t, d),
    ensures
        grammar::items(t, p + d, room) == shifted(grammar::items(s, p, room), d),
    decreases room, s.len() - p, 1nat,
{
    lemma_value_shifts(s, p, t, d, room);
    grammar::lemma_value_moves(s, p, room);
    if let Parsed::Done(_, q) = grammar::value(s, p, room) {
        let r = grammar::skip_space(s, q);
        grammar::lemma_skip_space(s, q);
        lemma_space_shifts(s, q, t, d);
        if r < s.len() {
            assert(s[r] == t[r + d]);
            if s[r] == ',' {
                lemma_tails_behind(s, p, t, d, r + 1);
                lemma_items_shift(s, r + 1, t, d, room);
            }
        }
    }
}

/// Members, or the fault in them, are read alike.
#[verifier::rlimit(60)]
#[verifier::spinoff_prover]
pub proof fn lemma_members_shift(s: Seq<char>, p: int, t: Seq<char>, d: int, room: nat)
    requires
        tails(s, p, t, d),
    ensures
        grammar::members(t, p + d, room) == shifted(grammar::members(s, p, room), d),
    decreases room, s.len() - p, 1nat,
{
    lemma_key_shifts(s, p, t, d);
    grammar::lemma_key_moves(s, p);
    if let Parsed::Done(_, a) = grammar::key(s, p) {
        lemma_tails_behind(s, p, t, d, a);
        lemma_value_shifts(s, a, t, d, room);
        grammar::lemma_value_moves(s, a, room);
        if let Parsed::Done(_, q) = grammar::value(s, a, room) {
            let r = grammar::skip_space(s, q);
            grammar::lemma_skip_space(s, q);
            lemma_space_shifts(s, q, t, d);
            if r < s.len() {
                assert(s[r] == t[r + d]);
                if s[r] == ',' {
                    lemma_tails_behind(s, p, t, d, r + 1);
                    lemma_members_shift(s, r + 1, t, d, room);
                }
            }
        }
    }
}

// ---------------------------------------------------------------------------------------------
// One level deeper
// ---------------------------------------------------------------------------------------------

/// Whether `less` is what `more` is, or says that something is nested too deep.
pub open spec fn same_or_too_deep<T>(less: Parsed<T>, more: Parsed<T>) -> bool {
    less == more || (less matches Parsed::Fail(kind, _) && kind == ErrorKind::TooDeep)
}

/// With less room a value reads the same, unless it is nested too deep.
#[verifier::rlimit(60)]
#[verifier::spinoff_prover]
pub proof fn lemma_value_in_less_room(s: Seq<char>, p: int, room: nat)
    requires
        0 <= p <= s.len(),
    ensures
        same_or_too_deep(grammar::value(s, p, room), grammar::value(s, p, room + 1)),
    decreases room, s.len() - p, 0nat,
{
    let q = grammar::skip_space(s, p);
    grammar::lemma_skip_space(s, p);
    if q < s.len() && room > 0 {
        if s[q] == '[' {
            lemma_items_in_less_room(s, q + 1, (room - 1) as nat);
        } else if s[q] == '{' {
            lemma_members_in_less_room(s, q + 1, (room - 1) as nat);
        }
    }
}

#[verifier::rlimit(60)]
#[verifier::spinoff_prover]
proof fn lemma_items_in_less_room(s: Seq<char>, p: int, room: nat)
    requires
        0 <= p <= s.len(),
    ensures
        same_or_too_deep(grammar::items(s, p, room), grammar::items(s, p, room + 1)),
    decreases room, s.len() - p, 1nat,
{
    lemma_value_in_less_room(s, p, room);
    grammar::lemma_value_moves(s, p, room);
    if let Parsed::Done(_, q) = grammar::value(s, p, room) {
        let r = grammar::skip_space(s, q);
        grammar::lemma_skip_space(s, q);
        if r < s.len() && s[r] == ',' {
            lemma_items_in_less_room(s, r + 1, room);
        }
    }
}

#[verifier::rlimit(60)]
#[verifier::spinoff_prover]
proof fn lemma_members_in_less_room(s: Seq<char>, p: int, room: nat)
    requires
        0 <= p <= s.len(),
    ensures
        same_or_too_deep(grammar::members(s, p, room), grammar::members(s, p, room + 1)),
    decreases room, s.len() - p, 1nat,
{
    grammar::lemma_key_moves(s, p);
    if let Parsed::Done(_, a) = grammar::key(s, p) {
        lemma_value_in_less_room(s, a, room);
        grammar::lemma_value_moves(s, a, room);
        if let Parsed::Done(_, q) = grammar::value(s, a, room) {
            let r = grammar::skip_space(s, q);
            grammar::lemma_skip_space(s, q);
            if r < s.len() && s[r] == ',' {
                lemma_members_in_less_room(s, r + 1, room);
            }
        }
    }
}

} // verus!

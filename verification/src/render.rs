//! The pieces that reports are made of: grouped numbers, shares, sizes, and short renderings of
//! values and type tallies.
use crate::json;
use crate::json::laws;
use crate::json::model;
use crate::json::model::Json;
use crate::json::Value;
use crate::rounding;
use crate::rounding::{push_fixed, round_quotient, round_whole, Fraction};
use crate::table::Name;
use crate::tally;
use crate::tally::Tally;
use crate::text;
use crate::text::{
    char_count, chars_of, decimal_text, push_chars, push_decimal, push_low_digits, width,
};
use vstd::arithmetic::power2::*;
use vstd::prelude::*;
use vstd::utf8::encode_utf8;

verus! {

/// Longest rendering of a value that is kept whole, in bytes.
pub const MAX_VALUE_LEN: usize = 96;

// ---------------------------------------------------------------------------------------------
// Numbers
// ---------------------------------------------------------------------------------------------

/// The decimal numeral of `n`, its digits in groups of three.
pub open spec fn grouped(n: nat) -> Seq<char>
    decreases n,
{
    if n < 1000 {
        text::decimal(n)
    } else {
        grouped(n / 1000) + seq![','] + text::low_digits(n, 3)
    }
}

fn push_thousands(out: &mut String, n: u64)
    ensures
        final(out)@ == old(out)@ + grouped(n as nat),
    decreases n,
{
    if n < 1000 {
        push_decimal(out, n as u128);
    } else {
        push_thousands(out, n / 1000);
        out.push(',');
        push_low_digits(out, n as u128, 3);
        assert(out@ =~= old(out)@ + grouped(n as nat));
    }
}

/// Groups digits with thin separators for readability.
pub fn thousands(n: u64) -> (words: String)
    ensures
        words@ == grouped(n as nat),
{
    let mut words: String = String::new();
    push_thousands(&mut words, n);
    words
}

/// The share of `count` in `total` in percent, as double precision gives it.
pub open spec fn share(count: nat, total: nat) -> (nat, nat) {
    rounding::quotient(rounding::whole(rounding::whole(count) * 100), rounding::whole(total))
}

/// The share of `count` in `total` as a percentage, or `-` where `total` is zero.
pub open spec fn percentage(count: nat, total: nat) -> Seq<char> {
    if total == 0 {
        "-"@
    } else {
        rounding::fixed(share(count, total), 1) + "%"@
    }
}

/// Computes [`share`].
pub fn percent_share(count: u64, total: u64) -> (x: Fraction)
    requires
        total > 0,
    ensures
        x@ == share(count as nat, total as nat),
        0 < x.den <= 0x80_0000_0000_0000_0000_0000_0000_0000,
        x.num <= 0x8_0000_0000_0000_0000_0000,
{
    let n: u128 = round_whole(count as u128);
    let hundredfold: u128 = round_whole(n * 100);
    let d: u128 = round_whole(total as u128);
    round_quotient(hundredfold, d)
}

/// Formats a percentage of `total`, or `-` when `total` is zero.
pub fn percent(count: u64, total: u64) -> (words: String)
    ensures
        words@ == percentage(count as nat, total as nat),
{
    let mut words: String = String::new();
    if total == 0 {
        words.append("-");
    } else {
        push_fixed(&mut words, percent_share(count, total), 1);
        words.append("%");
    }
    assert(words@ =~= percentage(count as nat, total as nat));
    words
}

/// The number of the unit that a size of `w` bytes is given in: the first in which it is less
/// than 1024, or the last one.
pub open spec fn unit_of(w: nat) -> nat {
    if w < 0x400 {
        0
    } else if w < 0x10_0000 {
        1
    } else if w < 0x4000_0000 {
        2
    } else if w < 0x100_0000_0000 {
        3
    } else {
        4
    }
}

/// The number of bytes in unit number `unit`.
pub open spec fn unit_size(unit: nat) -> nat {
    if unit == 0 {
        1
    } else if unit == 1 {
        0x400
    } else if unit == 2 {
        0x10_0000
    } else if unit == 3 {
        0x4000_0000
    } else {
        0x100_0000_0000
    }
}

/// The name of unit number `unit`.
pub open spec fn unit_name(unit: nat) -> Seq<char> {
    if unit == 0 {
        "B"@
    } else if unit == 1 {
        "KiB"@
    } else if unit == 2 {
        "MiB"@
    } else if unit == 3 {
        "GiB"@
    } else {
        "TiB"@
    }
}

/// A size of `n` bytes: the number itself below 1024, from there on one decimal of the unit.
pub open spec fn size_text(n: nat) -> Seq<char> {
    let w = rounding::whole(n);
    let unit = unit_of(w);
    if unit == 0 {
        text::decimal(n) + " "@ + unit_name(0)
    } else {
        rounding::fixed((w, unit_size(unit)), 1) + " "@ + unit_name(unit)
    }
}

/// Renders a byte count with a binary unit suffix.
pub fn human_bytes(n: u64) -> (words: String)
    ensures
        words@ == size_text(n as nat),
{
    let value: u128 = round_whole(n as u128);
    let mut words: String = String::new();
    if value < 0x400 {
        push_decimal(&mut words, n as u128);
        words.append(" ");
        words.append("B");
    } else {
        let (size, name): (u128, &str) = if value < 0x10_0000 {
            (0x400, "KiB")
        } else if value < 0x4000_0000 {
            (0x10_0000, "MiB")
        } else if value < 0x100_0000_0000 {
            (0x4000_0000, "GiB")
        } else {
            (0x100_0000_0000, "TiB")
        };
        push_fixed(&mut words, Fraction { num: value, den: size }, 1);
        words.append(" ");
        words.append(name);
    }
    assert(words@ =~= size_text(n as nat));
    words
}

// ---------------------------------------------------------------------------------------------
// Texts
// ---------------------------------------------------------------------------------------------

/// Starts a text with `words`.
pub fn started(words: &str) -> (out: String)
    ensures
        out@ == words@,
{
    let mut out: String = String::new();
    out.append(words);
    assert(out@ =~= words@);
    out
}

/// `s` in at most `width` characters: what does not fit gives way to a tilde.
pub open spec fn shortened(s: Seq<char>, width: nat) -> Seq<char> {
    if s.len() <= width {
        s
    } else {
        s.take(if width == 0 { 0 } else { width - 1 }) + "~"@
    }
}

/// Cuts `text` down to `width` characters.
pub fn truncate(text: &str, width: usize) -> (words: String)
    ensures
        words@ == shortened(text@, width as nat),
{
    if char_count(text) <= width {
        return text.to_owned();
    }
    let chars: Vec<char> = chars_of(text);
    let kept: usize = if width == 0 { 0 } else { width - 1 };
    let mut words: String = String::new();
    push_chars(&mut words, &chars, 0, kept);
    words.append("~");
    assert(words@ =~= shortened(text@, width as nat));
    words
}

/// How many characters of `s`, from the first on and at least `k`, fit into `limit` bytes.
pub open spec fn fitting(s: Seq<char>, limit: nat, k: int) -> int
    decreases s.len() - k,
{
    if 0 <= k < s.len() && text::byte_offset(s, k + 1) <= limit {
        fitting(s, limit, k + 1)
    } else {
        k
    }
}

/// The text of `v`, cut where it takes more than [`MAX_VALUE_LEN`] bytes.
pub open spec fn rendered(v: Json) -> Seq<char> {
    let s = model::json_text(v);
    if encode_utf8(s).len() > MAX_VALUE_LEN {
        s.take(fitting(s, MAX_VALUE_LEN as nat, 0)) + "..."@
    } else {
        s
    }
}

/// Renders a value in short.
pub fn render_value(value: &Value) -> (words: String)
    ensures
        words@ == rendered(value@),
{
    let full: String = value.to_json();
    let bytes: &[u8] = full.as_str().as_bytes();
    let length: usize = bytes.len();
    if length <= MAX_VALUE_LEN {
        return full;
    }
    let chars: Vec<char> = chars_of(full.as_str());
    let ghost s = full@;
    let mut k: usize = 0;
    let mut offset: usize = 0;
    assert(s.take(0) =~= Seq::<char>::empty());
    while k < chars.len() && offset + width(chars[k]) <= MAX_VALUE_LEN
        invariant
            chars@ == s,
            k <= s.len(),
            offset <= MAX_VALUE_LEN,
            offset == text::byte_offset(s, k as int),
            fitting(s, MAX_VALUE_LEN as nat, 0) == fitting(s, MAX_VALUE_LEN as nat, k as int),
        decreases s.len() - k,
    {
        proof {
            text::lemma_byte_offset(s, k as int);
        }
        offset = offset + width(chars[k]);
        k = k + 1;
    }
    proof {
        text::lemma_byte_offset(s, k as int);
    }
    let mut words: String = String::new();
    push_chars(&mut words, &chars, 0, k);
    words.append("...");
    assert(words@ =~= rendered(value@));
    words
}

/// `name:count`, the count in groups of three where `in_groups` says so.
pub open spec fn row_text(row: (Name, nat), in_groups: bool) -> Seq<char> {
    row.0 + ":"@ + (if in_groups {
        grouped(row.1)
    } else {
        text::decimal(row.1)
    })
}

/// The rows one behind the other, with a space between them.
pub open spec fn rows_text(rows: Seq<(Name, nat)>, in_groups: bool) -> Seq<char>
    decreases rows.len(),
{
    if rows.len() == 0 {
        Seq::empty()
    } else if rows.len() == 1 {
        row_text(rows[0], in_groups)
    } else {
        rows_text(rows.drop_last(), in_groups) + " "@ + row_text(rows.last(), in_groups)
    }
}

/// Renders a tally, most frequent names first.
pub fn render_rows(counts: &Tally, in_groups: bool) -> (words: String)
    ensures
        words@ == rows_text(tally::ranked(counts@), in_groups),
{
    let rows: Vec<(&str, u64)> = counts.by_frequency();
    let ghost all = tally::rows_model(rows@);
    let mut words: String = String::new();
    let mut i: usize = 0;
    assert(words@ =~= rows_text(all.take(0), in_groups));
    while i < rows.len()
        invariant
            i <= rows@.len(),
            all == tally::rows_model(rows@),
            all.len() == rows@.len(),
            words@ == rows_text(all.take(i as int), in_groups),
        decreases rows@.len() - i,
    {
        let ghost before = words@;
        if i > 0 {
            words.append(" ");
        }
        words.append(rows[i].0);
        words.append(":");
        if in_groups {
            push_thousands(&mut words, rows[i].1);
        } else {
            push_decimal(&mut words, rows[i].1 as u128);
        }
        proof {
            let now = all.take(i + 1);
            assert(now.drop_last() =~= all.take(i as int));
            assert(now.last() == all[i as int]);
            if i == 0 {
                assert(words@ =~= row_text(all[0], in_groups));
            } else {
                assert(words@ =~= before + " "@ + row_text(all[i as int], in_groups));
            }
        }
        i = i + 1;
    }
    assert(all.take(i as int) =~= all);
    words
}

/// Renders a type tally, most frequent types first.
pub fn render_types(counts: &Tally) -> (words: String)
    ensures
        words@ == rows_text(tally::ranked(counts@), true),
{
    render_rows(counts, true)
}

// ---------------------------------------------------------------------------------------------
// Values
// ---------------------------------------------------------------------------------------------

/// The number `n` as a value.
pub open spec fn number(n: nat) -> Json {
    Json::Number(text::decimal(n))
}

/// A tally as an object, in the order of its rows.
pub open spec fn counts_object(rows: Seq<(Name, nat)>) -> Json {
    Json::Object(Seq::new(rows.len(), |i: int| (rows[i].0, number(rows[i].1))))
}

/// Makes a number.
pub fn number_value(n: u64) -> (value: Value)
    ensures
        value@ == number(n as nat),
{
    Value::Number(decimal_text(n))
}

/// Makes a text.
pub fn text_value(s: &str) -> (value: Value)
    ensures
        value@ == Json::Text(s@),
{
    Value::Text(s.to_owned())
}

/// The members of an empty object.
pub fn no_members() -> (members: Vec<(String, Value)>)
    ensures
        json::members_model(members@) == Seq::<(Name, Json)>::empty(),
{
    Vec::new()
}

/// Appends a member to those of an object.
pub fn push_member(members: &mut Vec<(String, Value)>, name: &str, value: Value)
    ensures
        json::members_model(final(members)@) == json::members_model(old(members)@).push(
            (name@, value@),
        ),
{
    let member: (String, Value) = (name.to_owned(), value);
    proof {
        json::lemma_members_push(members@, member);
    }
    members.push(member);
}

/// Appends an item to those of an array.
pub fn push_item(items: &mut Vec<Value>, value: Value)
    ensures
        json::items_model(final(items)@) == json::items_model(old(items)@).push(value@),
{
    proof {
        json::lemma_items_push(items@, value);
    }
    items.push(value);
}

/// Makes an object of rows of names with counts.
pub fn rows_value(rows: &Vec<(&str, u64)>) -> (value: Value)
    ensures
        value@ == counts_object(tally::rows_model(rows@)),
{
    let ghost all = tally::rows_model(rows@);
    let ghost wanted = Seq::new(all.len(), |i: int| (all[i].0, number(all[i].1)));
    let mut members: Vec<(String, Value)> = no_members();
    let mut i: usize = 0;
    assert(wanted.take(0) =~= Seq::empty());
    while i < rows.len()
        invariant
            i <= rows@.len(),
            all == tally::rows_model(rows@),
            all.len() == rows@.len(),
            wanted == Seq::new(all.len(), |k: int| (all[k].0, number(all[k].1))),
            json::members_model(members@) == wanted.take(i as int),
        decreases rows@.len() - i,
    {
        push_member(&mut members, rows[i].0, number_value(rows[i].1));
        assert(wanted.take(i + 1) =~= wanted.take(i as int).push(wanted[i as int]));
        i = i + 1;
    }
    assert(wanted.take(i as int) =~= wanted);
    Value::Object(members)
}

/// Makes an object of a tally, in name order.
pub fn counts_value(counts: &Tally) -> (value: Value)
    ensures
        value@ == counts_object(counts@),
{
    let mut rows: Vec<(&str, u64)> = Vec::new();
    let mut i: usize = 0;
    assert(tally::rows_model(rows@) =~= counts@.take(0));
    while i < counts.len()
        invariant
            i <= counts@.len(),
            tally::rows_model(rows@) == counts@.take(i as int),
        decreases counts@.len() - i,
    {
        let ghost held = rows@;
        let row: (&str, u64) = (counts.name_at(i).as_str(), counts.count_at(i));
        rows.push(row);
        proof {
            assert(tally::rows_model(rows@) =~= tally::rows_model(held).push(
                (row.0@, row.1 as nat),
            ));
            assert(counts@.take(i + 1) =~= counts@.take(i as int).push(counts@[i as int]));
        }
        i = i + 1;
    }
    assert(counts@.take(i as int) =~= counts@);
    rows_value(&rows)
}

/// A number can be written.
pub proof fn lemma_number_is_writable(n: nat)
    ensures
        forall|levels: nat| #[trigger] laws::is_writable(number(n), levels),
{
    laws::lemma_decimal_is_number(n);
    laws::lemma_number_is_writable(text::decimal(n));
}

/// An object of counts can be written.
pub proof fn lemma_counts_are_writable(rows: Seq<(Name, nat)>)
    ensures
        forall|levels: nat| levels > 0 ==> #[trigger] laws::is_writable(counts_object(rows), levels),
{
    let members = Seq::new(rows.len(), |i: int| (rows[i].0, number(rows[i].1)));
    assert forall|i: int| 0 <= i < members.len() implies laws::is_writable(
        (#[trigger] members[i]).1,
        0,
    ) by {
        lemma_number_is_writable(rows[i].1);
    }
    laws::lemma_object_is_writable(members, 0);
}

// ---------------------------------------------------------------------------------------------
// Laws
// ---------------------------------------------------------------------------------------------

/// `s` without its commas.
pub open spec fn without_commas(s: Seq<char>) -> Seq<char>
    decreases s.len(),
{
    if s.len() == 0 {
        Seq::empty()
    } else if s.last() == ',' {
        without_commas(s.drop_last())
    } else {
        without_commas(s.drop_last()).push(s.last())
    }
}

proof fn lemma_without_commas_concat(a: Seq<char>, b: Seq<char>)
    ensures
        without_commas(a + b) == without_commas(a) + without_commas(b),
    decreases b.len(),
{
    if b.len() == 0 {
        assert(a + b =~= a);
        assert(without_commas(a) + without_commas(b) =~= without_commas(a));
    } else {
        lemma_without_commas_concat(a, b.drop_last());
        assert((a + b).drop_last() =~= a + b.drop_last());
        assert(without_commas(a + b) =~= without_commas(a) + without_commas(b));
    }
}

proof fn lemma_digits_have_no_commas(s: Seq<char>)
    requires
        forall|i: int| 0 <= i < s.len() ==> text::is_digit(#[trigger] s[i]),
    ensures
        without_commas(s) == s,
    decreases s.len(),
{
    if s.len() > 0 {
        assert(text::is_digit(s[s.len() - 1]));
        lemma_digits_have_no_commas(s.drop_last());
        assert(s.drop_last().push(s.last()) =~= s);
    } else {
        assert(without_commas(s) =~= s);
    }
}

proof fn lemma_decimal_splits(n: nat)
    requires
        n >= 1000,
    ensures
        text::decimal(n) == text::decimal(n / 1000) + text::low_digits(n, 3),
{
    reveal_with_fuel(text::low_digits, 4);
    assert(n / 10 / 10 / 10 == n / 1000);
    let a = n / 10;
    let b = a / 10;
    assert(text::decimal(n) == text::decimal(a).push(text::digit_char(n % 10)));
    assert(text::decimal(a) == text::decimal(b).push(text::digit_char(a % 10)));
    assert(text::decimal(b) == text::decimal(n / 1000).push(text::digit_char(b % 10)));
    assert(text::decimal(n) =~= text::decimal(n / 1000) + text::low_digits(n, 3));
}

/// Grouping puts commas between the digits of a number and changes nothing else.
pub proof fn law_grouping_keeps_the_digits(n: nat)
    ensures
        without_commas(grouped(n)) == text::decimal(n),
    decreases n,
{
    text::lemma_decimal(n);
    if n < 1000 {
        lemma_digits_have_no_commas(text::decimal(n));
    } else {
        law_grouping_keeps_the_digits(n / 1000);
        lemma_decimal_splits(n);
        text::lemma_low_digits(n, 3);
        lemma_digits_have_no_commas(text::low_digits(n, 3));
        lemma_without_commas_concat(grouped(n / 1000) + seq![','], text::low_digits(n, 3));
        lemma_without_commas_concat(grouped(n / 1000), seq![',']);
        reveal_with_fuel(without_commas, 2);
        assert(seq![','].drop_last() =~= Seq::<char>::empty());
        assert(without_commas(seq![',']) =~= Seq::<char>::empty());
        assert(without_commas(grouped(n)) =~= text::decimal(n));
    }
}

/// A text that was cut down to `width` characters has no more than that.
pub proof fn law_cut_text_fits(s: Seq<char>, width: nat)
    requires
        width > 0,
    ensures
        shortened(s, width).len() <= width,
        s.len() <= width ==> shortened(s, width) == s,
{
    reveal_strlit("~");
}

proof fn lemma_fitting(s: Seq<char>, limit: nat, k: int)
    requires
        0 <= k <= s.len(),
        text::byte_offset(s, k) <= limit,
    ensures
        k <= fitting(s, limit, k) <= s.len(),
        text::byte_offset(s, fitting(s, limit, k)) <= limit,
    decreases s.len() - k,
{
    if k < s.len() && text::byte_offset(s, k + 1) <= limit {
        lemma_fitting(s, limit, k + 1);
    }
}

/// A rendering takes at most [`MAX_VALUE_LEN`] bytes and three dots; one that has room is the
/// whole text of the value.
pub proof fn law_rendering_is_short(v: Json)
    ensures
        encode_utf8(rendered(v)).len() <= MAX_VALUE_LEN + 3,
        encode_utf8(model::json_text(v)).len() <= MAX_VALUE_LEN ==> rendered(v)
            == model::json_text(v),
{
    let s = model::json_text(v);
    if encode_utf8(s).len() > MAX_VALUE_LEN {
        assert(s.take(0) =~= Seq::<char>::empty());
        lemma_fitting(s, MAX_VALUE_LEN as nat, 0);
        reveal_strlit("...");
        text::lemma_encode_concat(s.take(fitting(s, MAX_VALUE_LEN as nat, 0)), "..."@);
        assert(vstd::utf8::is_ascii_chars("..."@));
        vstd::utf8::is_ascii_chars_encode_utf8("..."@);
    }
}

/// The commas of a grouped number stand behind every third digit, counted from its end, and
/// nowhere else.
pub proof fn law_grouping_is_by_threes(n: nat, i: int)
    requires
        0 <= i < grouped(n).len(),
    ensures
        grouped(n)[grouped(n).len() - 1 - i] == ',' <==> i % 4 == 3,
        grouped(n)[0] != ',',
    decreases n,
{
    text::lemma_decimal(n);
    text::lemma_low_digits(n, 3);
    let s = grouped(n);
    if n < 1000 {
        reveal_with_fuel(text::decimal, 4);
        assert(s.len() <= 3);
        assert(text::is_digit(s[s.len() - 1 - i]));
        assert(text::is_digit(s[0]));
    } else {
        let head = grouped(n / 1000);
        let tail = text::low_digits(n, 3);
        lemma_grouped_is_some(n / 1000);
        law_grouping_is_by_threes(n / 1000, 0);
        assert(s[0] == head[0]);
        if i < 3 {
            assert(s[s.len() - 1 - i] == tail[2 - i]);
            assert(text::is_digit(tail[2 - i]));
        } else if i > 3 {
            law_grouping_is_by_threes(n / 1000, i - 4);
            assert(s[s.len() - 1 - i] == head[head.len() - 1 - (i - 4)]);
        }
    }
}

proof fn lemma_grouped_is_some(n: nat)
    ensures
        grouped(n).len() > 0,
{
    if n < 1000 {
        text::lemma_decimal(n);
    }
}

/// A percentage is printed as the number of tenths that is nearest to the share of `count` in
/// `total`.
pub proof fn law_percentage_is_nearest(count: nat, total: nat) -> (tenths: nat)
    requires
        0 < total < 0x20_0000_0000_0000,
        count < 0x400_0000_0000,
    ensures
        percentage(count, total) == rounding::pointed(tenths, 1) + seq!['%'],
        2 * (tenths * total) <= 2000 * count + total,
        2000 * count <= 2 * (tenths * total) + total,
{
    rounding::law_nearest_double(count);
    rounding::law_nearest_double(count * 100);
    rounding::law_nearest_double(total);
    rounding::law_quotient_is_near(count * 100, total);
    let (a, b) = share(count, total);
    let tenths = rounding::law_printed_decimals_are_nearest((a, b), 1);
    assert(rounding::pow10(1) == 10) by {
        reveal_with_fuel(rounding::pow10, 2);
    }
    reveal_strlit("%");
    assert("%"@ =~= seq!['%']);
    assert(2 * (tenths * total) <= 2000 * count + total && 2000 * count <= 2 * (tenths * total)
        + total) by (nonlinear_arith)
        requires
            b > 0,
            total > 0,
            count < 0x400_0000_0000,
            0x20_0000_0000_0000 * (a * total) <= 0x20_0000_0000_0001 * ((count * 100) * b),
            0x1F_FFFF_FFFF_FFFF * ((count * 100) * b) <= 0x20_0000_0000_0000 * (a * total),
            2 * (tenths * b) <= 2 * (a * 10) + b,
            2 * (a * 10) <= 2 * (tenths * b) + b,
    {
        let e: int = 0x20_0000_0000_0000;
        let t = total as int;
        let c = count as int;
        assert(2 * (tenths * b) * t <= (20 * a + b) * t);
        assert(20 * a * t <= (2 * (tenths * b) + b) * t);
        assert(e * (2 * (tenths * t) - 2000 * c - t) * b <= 2000 * c * b);
        assert(e * (2000 * c - 2 * (tenths * t) - t) * b <= 2000 * c * b);
        assert(e * (2 * (tenths * t) - 2000 * c - t) <= 2000 * c);
        assert(e * (2000 * c - 2 * (tenths * t) - t) <= 2000 * c);
    }
    tenths
}

/// The share of a part in the whole is printed as a hundred percent at most.
pub proof fn law_percentage_is_bounded(count: nat, total: nat) -> (tenths: nat)
    requires
        0 < total,
        count <= total,
    ensures
        percentage(count, total) == rounding::pointed(tenths, 1) + seq!['%'],
        rounding::fixed(share(count, total), 1) == rounding::pointed(tenths, 1),
        tenths <= 1000,
{
    let u = rounding::whole(count);
    let v = rounding::whole(u * 100);
    let w = rounding::whole(total);
    rounding::law_nearest_double(count);
    rounding::law_nearest_double(u * 100);
    rounding::law_nearest_double(total);
    rounding::lemma_whole_small(total);
    rounding::law_quotient_is_near(v, w);
    let (a, b) = share(count, total);
    let tenths = rounding::law_printed_decimals_are_nearest((a, b), 1);
    assert(rounding::pow10(1) == 10) by {
        reveal_with_fuel(rounding::pow10, 2);
    }
    reveal_strlit("%");
    assert("%"@ =~= seq!['%']);
    lemma_share_is_bounded(count as int, total as int, u as int, v as int, w as int, a as int, b as int);
    assert(tenths <= 1000) by (nonlinear_arith)
        requires
            2 * (tenths * b) <= 2 * (a * 10) + b,
            20 * a < 2001 * b,
            b > 0,
    ;
    tenths
}

proof fn lemma_share_is_bounded(c: int, t: int, u: int, v: int, w: int, a: int, b: int)
    requires
        0 <= c <= t,
        t > 0,
        w > 0,
        b > 0,
        a >= 0,
        v >= 0,
        u >= 0,
        0x20_0000_0000_0000 * u <= 0x20_0000_0000_0001 * c,
        0x20_0000_0000_0000 * v <= 0x20_0000_0000_0001 * (u * 100),
        0x1F_FFFF_FFFF_FFFF * t <= 0x20_0000_0000_0000 * w,
        0x20_0000_0000_0000 * (a * w) <= 0x20_0000_0000_0001 * (v * b),
    ensures
        20 * a < 2001 * b,
{
    // Each rounding adds less than one part in ten thousand.
    assert(10000 * u <= 10001 * c);
    assert(10000 * v <= 10001 * (u * 100));
    assert(10000 * w >= 9999 * t);
    assert(10000 * (a * w) <= 10001 * (v * b)) by (nonlinear_arith)
        requires
            0x20_0000_0000_0000 * (a * w) <= 0x20_0000_0000_0001 * (v * b),
            v >= 0,
            b > 0,
    ;
    assert(100000000 * v <= 100020001 * (c * 100));
    assert(1000 * v <= 100031 * w);
    assert(1000 * (v * b) <= 100031 * (w * b)) by (nonlinear_arith)
        requires
            1000 * v <= 100031 * w,
            b > 0,
    ;
    assert(10000000 * (a * w) <= 1000410031 * (w * b));
    assert(10000000 * a <= 1000410031 * b) by (nonlinear_arith)
        requires
            10000000 * (a * w) <= 1000410031 * (w * b),
            w > 0,
    ;
}

/// The name of the unit of 1024 to the power of `k` bytes.
pub open spec fn binary_unit(k: nat) -> Seq<char> {
    if k == 1 {
        seq!['K', 'i', 'B']
    } else if k == 2 {
        seq!['M', 'i', 'B']
    } else if k == 3 {
        seq!['G', 'i', 'B']
    } else {
        seq!['T', 'i', 'B']
    }
}

/// A size is given in the largest unit of which it holds one, as the nearest number of tenths
/// of that unit; below 1024 bytes it is given in bytes.
pub proof fn law_size_is_nearest(n: nat, k: nat) -> (tenths: nat)
    requires
        n < 0x20_0000_0000_0000,
        k <= 4,
        k > 0 ==> n >= pow2(10 * k),
        k < 4 ==> n < pow2(10 * (k + 1)),
    ensures
        k == 0 ==> size_text(n) == text::decimal(n) + seq![' ', 'B'],
        k > 0 ==> size_text(n) == rounding::pointed(tenths, 1) + seq![' '] + binary_unit(k),
        k > 0 ==> 2 * (tenths * pow2(10 * k)) <= 20 * n + pow2(10 * k),
        k > 0 ==> 20 * n <= 2 * (tenths * pow2(10 * k)) + pow2(10 * k),
{
    lemma2_to64();
    lemma2_to64_rest();
    reveal_strlit(" ");
    reveal_strlit("B");
    reveal_strlit("KiB");
    reveal_strlit("MiB");
    reveal_strlit("GiB");
    reveal_strlit("TiB");
    rounding::law_nearest_double(n);
    assert(rounding::pow10(1) == 10) by {
        reveal_with_fuel(rounding::pow10, 2);
    }
    assert(unit_of(n) == k);
    if k == 0 {
        assert(size_text(n) =~= text::decimal(n) + seq![' ', 'B']);
        0
    } else {
        let tenths = rounding::law_printed_decimals_are_nearest((n, unit_size(k)), 1);
        assert(unit_size(k) == pow2(10 * k));
        assert(size_text(n) =~= rounding::pointed(tenths, 1) + seq![' '] + binary_unit(k));
        tenths
    }
}

/// A text that is too long keeps its beginning, up to a tilde that takes the last place.
pub proof fn law_cut_text_is_a_beginning(s: Seq<char>, width: nat)
    requires
        0 < width < s.len(),
    ensures
        shortened(s, width).len() == width,
        shortened(s, width).last() == '~',
        forall|i: int| 0 <= i < width - 1 ==> #[trigger] shortened(s, width)[i] == s[i],
{
    reveal_strlit("~");
}

/// A value whose text takes more than 96 bytes is rendered as the longest beginning of it that
/// takes no more, and three dots.
pub proof fn law_rendering_is_the_longest_beginning(v: Json) -> (k: int)
    requires
        encode_utf8(model::json_text(v)).len() > 96,
    ensures
        0 <= k < model::json_text(v).len(),
        rendered(v) == model::json_text(v).take(k) + seq!['.', '.', '.'],
        encode_utf8(model::json_text(v).take(k)).len() <= 96,
        encode_utf8(model::json_text(v).take(k + 1)).len() > 96,
{
    let s = model::json_text(v);
    let k = fitting(s, 96, 0);
    assert(s.take(0) =~= Seq::<char>::empty());
    lemma_fitting(s, 96, 0);
    lemma_fitting_ends(s, 96, 0);
    reveal_strlit("...");
    assert("..."@ =~= seq!['.', '.', '.']);
    if k == s.len() {
        assert(s.take(k) =~= s);
    }
    k
}

/// A value whose text takes up to 96 bytes is rendered whole.
pub proof fn law_short_values_are_rendered_whole(v: Json)
    requires
        encode_utf8(model::json_text(v)).len() <= 96,
    ensures
        rendered(v) == model::json_text(v),
{
}

proof fn lemma_fitting_ends(s: Seq<char>, limit: nat, k: int)
    requires
        0 <= k <= s.len(),
    ensures
        fitting(s, limit, k) < s.len() ==> text::byte_offset(s, fitting(s, limit, k) + 1) > limit,
    decreases s.len() - k,
{
    if k < s.len() && text::byte_offset(s, k + 1) <= limit {
        lemma_fitting_ends(s, limit, k + 1);
    }
}

/// Rows stand in a row with a space between them, each as its name, a colon and its count.
pub proof fn law_rows_stand_in_a_row(
    a: Seq<(Name, nat)>,
    b: Seq<(Name, nat)>,
    row: (Name, nat),
    in_groups: bool,
)
    ensures
        a.len() > 0 && b.len() > 0 ==> rows_text(a + b, in_groups) == rows_text(a, in_groups)
            + seq![' '] + rows_text(b, in_groups),
        rows_text(Seq::empty(), in_groups) == Seq::<char>::empty(),
        rows_text(seq![row], true) == row.0 + seq![':'] + grouped(row.1),
        rows_text(seq![row], false) == row.0 + seq![':'] + text::decimal(row.1),
    decreases b.len(),
{
    reveal_strlit(" ");
    reveal_strlit(":");
    assert(" "@ =~= seq![' ']);
    assert(":"@ =~= seq![':']);
    if a.len() > 0 && b.len() == 1 {
        assert((a + b).drop_last() =~= a);
        assert((a + b).last() == b[0]);
    } else if a.len() > 0 && b.len() > 1 {
        law_rows_stand_in_a_row(a, b.drop_last(), row, in_groups);
        assert((a + b).drop_last() =~= a + b.drop_last());
        assert((a + b).last() == b.last());
        assert(rows_text(a + b, in_groups) =~= rows_text(a, in_groups) + seq![' '] + rows_text(
            b,
            in_groups,
        ));
    }
}

/// Of nothing there is no percentage: a dash stands in its place.
pub proof fn law_nothing_has_no_percentage(count: nat)
    ensures
        percentage(count, 0) == seq!['-'],
{
    reveal_strlit("-");
    assert("-"@ =~= seq!['-']);
}

/// A size beyond the numbers that a double holds exactly is printed in the largest unit, to the
/// nearest tenth of a number that is within one part in `2^53` of it.
pub proof fn law_large_size_is_near(n: nat) -> (tenths: nat)
    requires
        n >= 0x20_0000_0000_0000,
    ensures
        size_text(n) == rounding::pointed(tenths, 1) + seq![' ', 'T', 'i', 'B'],
        0x20_0000_0000_0000 * (2 * (tenths * 0x100_0000_0000)) <= 0x20_0000_0000_0001 * (20 * n)
            + 0x20_0000_0000_0000 * 0x100_0000_0000,
        0x1F_FFFF_FFFF_FFFF * (20 * n) <= 0x20_0000_0000_0000 * (2 * (tenths * 0x100_0000_0000))
            + 0x20_0000_0000_0000 * 0x100_0000_0000,
{
    reveal_strlit(" ");
    reveal_strlit("TiB");
    rounding::law_nearest_double(n);
    let w = rounding::whole(n);
    assert(rounding::pow10(1) == 10) by {
        reveal_with_fuel(rounding::pow10, 2);
    }
    assert(unit_of(w) == 4);
    let tenths = rounding::law_printed_decimals_are_nearest((w, 0x100_0000_0000), 1);
    assert(size_text(n) =~= rounding::pointed(tenths, 1) + seq![' ', 'T', 'i', 'B']);
    tenths
}

/// A percentage is what double precision gives for a hundred times the count over the total, to
/// one decimal: the count, its hundredfold, the total and their quotient are each rounded to the
/// nearest double.
pub proof fn law_percentage_is_that_of_doubles(count: nat, total: nat)
    requires
        total > 0,
    ensures
        percentage(count, total) == rounding::fixed(
            rounding::quotient(
                rounding::whole(100 * rounding::whole(count)),
                rounding::whole(total),
            ),
            1,
        ) + seq!['%'],
{
    reveal_strlit("%");
    assert("%"@ =~= seq!['%']);
}

/// A text that is cut down to nothing leaves the tilde.
pub proof fn law_text_cut_to_nothing_is_a_tilde(s: Seq<char>)
    requires
        s.len() > 0,
    ensures
        shortened(s, 0) == seq!['~'],
{
    reveal_strlit("~");
    assert(shortened(s, 0) =~= seq!['~']);
}

} // verus!

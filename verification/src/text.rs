//! Text primitives: characters, byte offsets, decimal numerals and padding.
use vstd::prelude::*;
use vstd::utf8::*;

verus! {

/// `String::push` appends its character to the end of the string.
pub assume_specification[ String::push ](s: &mut String, ch: char)
    ensures
        final(s)@ == old(s)@.push(ch),
;

/// `char::from_u32` gives the character whose scalar value is its argument, and `None` for a
/// number that is a surrogate or lies beyond the last scalar value.
pub assume_specification[ char::from_u32 ](i: u32) -> (r: Option<char>)
    ensures
        is_scalar(i) ==> r == Some(i as char),
        !is_scalar(i) ==> r is None,
;

/// The characters of `text`, in order.
pub fn chars_of(text: &str) -> (chars: Vec<char>)
    ensures
        chars@ == text@,
{
    let mut chars: Vec<char> = Vec::new();
    for c in it: text.chars()
        invariant
            chars@ == it.seq().take(it.index() as int),
            it.seq() == text@,
    {
        chars.push(c);
    }
    chars
}

/// Appends `chars[from..to]` to `out`.
pub fn push_chars(out: &mut String, chars: &Vec<char>, from: usize, to: usize)
    requires
        from <= to <= chars@.len(),
    ensures
        final(out)@ == old(out)@ + chars@.subrange(from as int, to as int),
{
    let mut i: usize = from;
    while i < to
        invariant
            from <= i <= to <= chars@.len(),
            out@ == old(out)@ + chars@.subrange(from as int, i as int),
        decreases to - i,
    {
        out.push(chars[i]);
        i = i + 1;
    }
}

/// `chars[from..to]` as a string.
pub fn substring(chars: &Vec<char>, from: usize, to: usize) -> (text: String)
    requires
        from <= to <= chars@.len(),
    ensures
        text@ == chars@.subrange(from as int, to as int),
{
    let mut text: String = String::new();
    push_chars(&mut text, chars, from, to);
    text
}

/// Whether two texts hold the same characters.
pub fn same_text(a: &str, b: &str) -> (same: bool)
    ensures
        same == (a@ == b@),
{
    let x: &[u8] = a.as_bytes();
    let y: &[u8] = b.as_bytes();
    proof {
        encode_utf8_decode_utf8(a@);
        encode_utf8_decode_utf8(b@);
    }
    if x.len() != y.len() {
        return false;
    }
    let mut i: usize = 0;
    while i < x.len()
        invariant
            i <= x@.len(),
            x@.len() == y@.len(),
            x@ == encode_utf8(a@),
            y@ == encode_utf8(b@),
            x@.take(i as int) == y@.take(i as int),
        decreases x@.len() - i,
    {
        if x[i] != y[i] {
            return false;
        }
        proof {
            assert(x@.take(i + 1) =~= x@.take(i as int).push(x@[i as int]));
            assert(y@.take(i + 1) =~= y@.take(i as int).push(y@[i as int]));
        }
        i = i + 1;
    }
    proof {
        assert(x@.take(i as int) =~= x@);
        assert(y@.take(i as int) =~= y@);
    }
    true
}

// ---------------------------------------------------------------------------------------------
// Byte offsets
// ---------------------------------------------------------------------------------------------

/// The byte offset in `text` of its character number `i`.
pub open spec fn byte_offset(text: Seq<char>, i: int) -> nat {
    encode_utf8(text.take(i)).len()
}

/// Encoding a concatenation is concatenating the encodings.
pub proof fn lemma_encode_concat(a: Seq<char>, b: Seq<char>)
    ensures
        encode_utf8(a + b) == encode_utf8(a) + encode_utf8(b),
    decreases a.len(),
{
    if a.len() == 0 {
        assert(a + b =~= b);
        assert(encode_utf8(a) + encode_utf8(b) =~= encode_utf8(b));
    } else {
        lemma_encode_concat(a.drop_first(), b);
        assert((a + b).drop_first() =~= a.drop_first() + b);
        assert(encode_utf8(a + b) =~= encode_utf8(a) + encode_utf8(b));
    }
}

/// Offsets do not exceed the length of the whole text in bytes, and an offset moves on by the
/// width of the character that it passes.
pub proof fn lemma_byte_offset(text: Seq<char>, i: int)
    requires
        0 <= i <= text.len(),
    ensures
        byte_offset(text, i) <= encode_utf8(text).len(),
        i <= byte_offset(text, i),
        i < text.len() ==> byte_offset(text, i + 1) == byte_offset(text, i) + encode_scalar(
            text[i] as u32,
        ).len(),
    decreases i,
{
    assert(text =~= text.take(i) + text.skip(i));
    lemma_encode_concat(text.take(i), text.skip(i));
    if i < text.len() {
        assert(text.take(i + 1) =~= text.take(i) + seq![text[i]]);
        lemma_encode_concat(text.take(i), seq![text[i]]);
        lemma_encode_one(text[i]);
    }
    if i > 0 {
        lemma_byte_offset(text, i - 1);
        lemma_encode_one(text[i - 1]);
    }
}

proof fn lemma_encode_one(c: char)
    ensures
        encode_utf8(seq![c]) == encode_scalar(c as u32),
        1 <= encode_scalar(c as u32).len() <= 4,
{
    reveal_with_fuel(encode_utf8, 2);
    assert(seq![c].drop_first() =~= Seq::<char>::empty());
    assert(encode_utf8(seq![c]) =~= encode_scalar(c as u32));
}

/// The number of bytes that `c` takes in UTF-8.
pub fn width(c: char) -> (w: usize)
    ensures
        w == encode_scalar(c as u32).len(),
        1 <= w <= 4,
{
    let u: u32 = c as u32;
    if u <= 0x7F {
        1
    } else if u <= 0x7FF {
        2
    } else if u <= 0xFFFF {
        3
    } else {
        4
    }
}

/// Computes [`byte_offset`].
pub fn offset_of(chars: &Vec<char>, i: usize) -> (offset: usize)
    requires
        i <= chars@.len(),
        encode_utf8(chars@).len() <= usize::MAX,
    ensures
        offset == byte_offset(chars@, i as int),
{
    let mut offset: usize = 0;
    let mut k: usize = 0;
    assert(chars@.take(0) =~= Seq::<char>::empty());
    while k < i
        invariant
            k <= i <= chars@.len(),
            encode_utf8(chars@).len() <= usize::MAX,
            offset == byte_offset(chars@, k as int),
        decreases i - k,
    {
        proof {
            lemma_byte_offset(chars@, k as int);
            lemma_byte_offset(chars@, k + 1);
        }
        offset = offset + width(chars[k]);
        k = k + 1;
    }
    offset
}

// ---------------------------------------------------------------------------------------------
// Decimal numerals
// ---------------------------------------------------------------------------------------------

/// Whether `c` is a decimal digit.
pub open spec fn is_digit(c: char) -> bool {
    '0' <= c <= '9'
}

/// The digit of value `d`.
pub open spec fn digit_char(d: nat) -> char {
    (48 + d) as char
}

/// The value of a digit.
pub open spec fn digit_value(c: char) -> nat {
    (c as nat - 48) as nat
}

/// The decimal numeral of `n`, without leading zeros.
pub open spec fn decimal(n: nat) -> Seq<char>
    decreases n,
{
    if n < 10 {
        seq![digit_char(n)]
    } else {
        decimal(n / 10).push(digit_char(n % 10))
    }
}

/// The lowest `k` decimal digits of `n`, leading zeros included.
pub open spec fn low_digits(n: nat, k: nat) -> Seq<char>
    decreases k,
{
    if k == 0 {
        Seq::empty()
    } else {
        low_digits(n / 10, (k - 1) as nat).push(digit_char(n % 10))
    }
}

/// The number that a run of digits denotes.
pub open spec fn digits_value(s: Seq<char>) -> nat
    decreases s.len(),
{
    if s.len() == 0 {
        0
    } else {
        10 * digits_value(s.drop_last()) + digit_value(s.last())
    }
}

/// Whether `s` is a non-empty run of digits.
pub open spec fn all_digits(s: Seq<char>) -> bool {
    s.len() > 0 && forall|i: int| 0 <= i < s.len() ==> is_digit(#[trigger] s[i])
}

/// The integer that `s` denotes: digits, with or without a sign before them.
pub open spec fn signed_value(s: Seq<char>) -> Option<int> {
    if s.len() > 0 && (s[0] == '-' || s[0] == '+') {
        let tail = s.drop_first();
        if all_digits(tail) {
            Some(if s[0] == '-' { -(digits_value(tail) as int) } else { digits_value(tail) as int })
        } else {
            None
        }
    } else if all_digits(s) {
        Some(digits_value(s) as int)
    } else {
        None
    }
}

/// The natural number that `s` denotes: digits, with or without a plus sign before them.
pub open spec fn unsigned_value(s: Seq<char>) -> Option<nat> {
    let tail = if s.len() > 0 && s[0] == '+' { s.drop_first() } else { s };
    if all_digits(tail) {
        Some(digits_value(tail))
    } else {
        None
    }
}

/// The digit of value `d`.
pub fn digit(d: u64) -> (c: char)
    requires
        d < 10,
    ensures
        c == digit_char(d as nat),
{
    let b: u8 = 48u8 + d as u8;
    b as char
}

/// Appends the decimal numeral of `n` to `out`.
pub fn push_decimal(out: &mut String, n: u128)
    ensures
        final(out)@ == old(out)@ + decimal(n as nat),
    decreases n,
{
    if n >= 10 {
        push_decimal(out, n / 10);
    }
    out.push(digit((n % 10) as u64));
    proof {
        if n >= 10 {
            assert(out@ =~= old(out)@ + decimal(n as nat / 10).push(digit_char(n as nat % 10)));
        }
    }
}

/// The decimal numeral of `n`.
pub fn decimal_text(n: u64) -> (text: String)
    ensures
        text@ == decimal(n as nat),
{
    let mut text: String = String::new();
    push_decimal(&mut text, n as u128);
    text
}

/// Appends the lowest `k` decimal digits of `n` to `out`.
pub fn push_low_digits(out: &mut String, n: u128, k: usize)
    ensures
        final(out)@ == old(out)@ + low_digits(n as nat, k as nat),
    decreases k,
{
    if k > 0 {
        push_low_digits(out, n / 10, k - 1);
        out.push(digit((n % 10) as u64));
    }
}

/// Every character of a numeral is a digit, and only zero has a numeral that starts with `0`.
pub proof fn lemma_decimal(n: nat)
    ensures
        all_digits(decimal(n)),
        decimal(n)[0] == '0' ==> n == 0,
        n == 0 ==> decimal(n) == seq!['0'],
    decreases n,
{
    if n >= 10 {
        lemma_decimal(n / 10);
    }
}

/// A numeral denotes the number that it was made from.
pub proof fn lemma_decimal_value(n: nat)
    ensures
        digits_value(decimal(n)) == n,
    decreases n,
{
    reveal_with_fuel(digits_value, 2);
    if n >= 10 {
        lemma_decimal_value(n / 10);
        assert(decimal(n).drop_last() =~= decimal(n / 10));
    } else {
        assert(decimal(n).drop_last() =~= Seq::<char>::empty());
    }
}

/// The lowest `k` digits are `k` digits.
pub proof fn lemma_low_digits(n: nat, k: nat)
    ensures
        low_digits(n, k).len() == k,
        forall|i: int| 0 <= i < k ==> is_digit(#[trigger] low_digits(n, k)[i]),
    decreases k,
{
    if k > 0 {
        lemma_low_digits(n / 10, (k - 1) as nat);
    }
}

proof fn lemma_digits_grow(s: Seq<char>, i: int)
    requires
        0 <= i <= s.len(),
    ensures
        digits_value(s.take(i)) <= digits_value(s),
    decreases s.len() - i,
{
    if i < s.len() {
        lemma_digits_grow(s, i + 1);
        assert(s.take(i + 1).drop_last() =~= s.take(i));
    } else {
        assert(s.take(i) =~= s);
    }
}

/// The value of the digits `chars[from..]`, where that is a run of digits whose value fits.
fn parse_digits(chars: &Vec<char>, from: usize) -> (value: Option<u64>)
    requires
        from <= chars@.len(),
    ensures
        value matches Some(n) ==> all_digits(chars@.skip(from as int)) && n == digits_value(
            chars@.skip(from as int),
        ),
        value is None ==> !all_digits(chars@.skip(from as int)) || digits_value(
            chars@.skip(from as int),
        ) > u64::MAX,
{
    let ghost tail = chars@.skip(from as int);
    if from == chars.len() {
        return None;
    }
    let mut n: u64 = 0;
    let mut i: usize = from;
    assert(tail.take(0) =~= Seq::<char>::empty());
    while i < chars.len()
        invariant
            from <= i <= chars@.len(),
            tail == chars@.skip(from as int),
            forall|k: int| 0 <= k < i - from ==> is_digit(#[trigger] tail[k]),
            n == digits_value(tail.take(i - from)),
        decreases chars@.len() - i,
    {
        let c: char = chars[i];
        assert(tail[i - from] == c);
        if c < '0' || c > '9' {
            return None;
        }
        let d: u64 = c as u64 - 48;
        proof {
            assert(tail.take(i - from + 1).drop_last() =~= tail.take(i - from));
            lemma_digits_grow(tail, i - from + 1);
        }
        if n > (u64::MAX - d) / 10 {
            return None;
        }
        n = n * 10 + d;
        i = i + 1;
    }
    assert(tail.take(i - from) =~= tail);
    Some(n)
}

/// The `u64` that `text` denotes.
pub fn parse_u64(text: &str) -> (value: Option<u64>)
    ensures
        value matches Some(n) ==> unsigned_value(text@) == Some(n as nat),
        value is None ==> (unsigned_value(text@) matches Some(n) ==> n > u64::MAX),
{
    let chars: Vec<char> = chars_of(text);
    if chars.len() > 0 && chars[0] == '+' {
        assert(chars@.skip(1) =~= chars@.drop_first());
        parse_digits(&chars, 1)
    } else {
        assert(chars@.skip(0) =~= chars@);
        parse_digits(&chars, 0)
    }
}

/// The `usize` that `text` denotes.
pub fn parse_usize(text: &str) -> (value: Option<usize>)
    ensures
        value matches Some(n) ==> unsigned_value(text@) == Some(n as nat),
        value is None ==> (unsigned_value(text@) matches Some(n) ==> n > usize::MAX),
{
    match parse_u64(text) {
        Some(n) => if n <= usize::MAX as u64 {
            Some(n as usize)
        } else {
            None
        },
        None => None,
    }
}

/// The `i64` that `chars[..]` denotes.
pub fn parse_i64(chars: &Vec<char>) -> (value: Option<i64>)
    ensures
        value matches Some(n) ==> signed_value(chars@) == Some(n as int),
        value is None ==> (signed_value(chars@) matches Some(n) ==> n < i64::MIN || n > i64::MAX),
{
    let negative: bool = chars.len() > 0 && chars[0] == '-';
    let signed: bool = negative || (chars.len() > 0 && chars[0] == '+');
    let from: usize = if signed { 1 } else { 0 };
    proof {
        if signed {
            assert(chars@.skip(1) =~= chars@.drop_first());
        } else {
            assert(chars@.skip(0) =~= chars@);
        }
    }
    match parse_digits(chars, from) {
        None => None,
        Some(n) => if negative {
            if n <= 0x8000_0000_0000_0000 {
                Some((0 - n as i128) as i64)
            } else {
                None
            }
        } else if n <= 0x7FFF_FFFF_FFFF_FFFF {
            Some(n as i64)
        } else {
            None
        },
    }
}

// ---------------------------------------------------------------------------------------------
// Padding and joining
// ---------------------------------------------------------------------------------------------

/// `n` spaces, none where `n` is negative.
pub open spec fn spaces(n: int) -> Seq<char> {
    Seq::new(if n > 0 { n as nat } else { 0 }, |i: int| ' ')
}

/// `s` moved to the right edge of a column of `width` characters.
pub open spec fn pad_start(s: Seq<char>, width: nat) -> Seq<char> {
    spaces(width - s.len()) + s
}

/// `s` at the left edge of a column of `width` characters.
pub open spec fn pad_end(s: Seq<char>, width: nat) -> Seq<char> {
    s + spaces(width - s.len())
}

/// The number of characters of `text`.
pub fn char_count(text: &str) -> (n: usize)
    ensures
        n == text@.len(),
{
    chars_of(text).len()
}

fn push_spaces(out: &mut String, n: usize)
    ensures
        final(out)@ == old(out)@ + spaces(n as int),
{
    let mut i: usize = 0;
    while i < n
        invariant
            i <= n,
            out@ == old(out)@ + spaces(i as int),
        decreases n - i,
    {
        out.push(' ');
        i = i + 1;
        assert(spaces(i as int) =~= spaces(i - 1).push(' '));
    }
}

/// Appends `text` to `out`, padded at its start to `width` characters.
pub fn push_pad_start(out: &mut String, text: &str, width: usize)
    ensures
        final(out)@ == old(out)@ + pad_start(text@, width as nat),
{
    let n: usize = char_count(text);
    if n < width {
        push_spaces(out, width - n);
    }
    out.append(text);
    assert(out@ =~= old(out)@ + pad_start(text@, width as nat));
}

/// Appends `text` to `out`, padded at its end to `width` characters.
pub fn push_pad_end(out: &mut String, text: &str, width: usize)
    ensures
        final(out)@ == old(out)@ + pad_end(text@, width as nat),
{
    let n: usize = char_count(text);
    out.append(text);
    if n < width {
        push_spaces(out, width - n);
    }
    assert(out@ =~= old(out)@ + pad_end(text@, width as nat));
}

// ---------------------------------------------------------------------------------------------
// Laws
// ---------------------------------------------------------------------------------------------

/// So many zeros.
pub open spec fn zeros(n: nat) -> Seq<char> {
    Seq::new(n, |i: int| '0')
}

proof fn lemma_zeros(n: nat, s: Seq<char>)
    requires
        all_digits(s),
    ensures
        all_digits(zeros(n) + s),
        digits_value(zeros(n) + s) == digits_value(s),
    decreases s.len(),
{
    let whole = zeros(n) + s;
    assert forall|i: int| 0 <= i < whole.len() implies is_digit(#[trigger] whole[i]) by {
        if i >= n {
            assert(whole[i] == s[i - n]);
        }
    }
    assert(whole.drop_last() =~= zeros(n) + s.drop_last());
    if s.len() == 1 {
        assert(zeros(n) + s.drop_last() =~= zeros(n));
        lemma_only_zeros(n);
        reveal_with_fuel(digits_value, 2);
        assert(digits_value(s.drop_last()) == 0);
    } else {
        assert forall|i: int| 0 <= i < s.drop_last().len() implies is_digit(
            #[trigger] s.drop_last()[i],
        ) by {
            assert(s.drop_last()[i] == s[i]);
        }
        lemma_zeros(n, s.drop_last());
    }
}

proof fn lemma_only_zeros(n: nat)
    ensures
        digits_value(zeros(n)) == 0,
    decreases n,
{
    if n > 0 {
        lemma_only_zeros((n - 1) as nat);
        assert(zeros(n).drop_last() =~= zeros((n - 1) as nat));
    }
}

/// A numeral is read as the number that it is made from, with any zeros in front and with a plus
/// sign; with a minus sign it is read as the opposite number, where signs are taken.
pub proof fn law_numerals_are_read(n: nat, more: nat)
    ensures
        ({
            let digits = zeros(more) + decimal(n);
            &&& unsigned_value(digits) == Some(n)
            &&& unsigned_value(seq!['+'] + digits) == Some(n)
            &&& signed_value(digits) == Some(n as int)
            &&& signed_value(seq!['+'] + digits) == Some(n as int)
            &&& signed_value(seq!['-'] + digits) == Some(-(n as int))
            &&& digits.len() > 0
            &&& forall|i: int| 0 <= i < digits.len() ==> is_digit(#[trigger] digits[i])
        }),
{
    let digits = zeros(more) + decimal(n);
    lemma_decimal(n);
    lemma_decimal_value(n);
    lemma_zeros(more, decimal(n));
    assert(is_digit(digits[0]));
    assert((seq!['+'] + digits).drop_first() =~= digits);
    assert((seq!['-'] + digits).drop_first() =~= digits);
}

/// What holds anything but digits behind its sign is no numeral, and neither is a sign alone; a
/// number without a sign of its own takes no minus sign.
pub proof fn law_only_numerals_are_read(s: Seq<char>, i: int, sign: char)
    requires
        0 <= i < s.len(),
        !is_digit(s[i]),
        sign == '+' || sign == '-',
    ensures
        signed_value(seq![sign] + s) is None,
        i > 0 ==> signed_value(s) is None && unsigned_value(s) is None,
        s[0] != '+' ==> unsigned_value(s) is None,
        signed_value(seq![sign]) is None,
        unsigned_value(seq![sign]) is None,
        signed_value(Seq::empty()) is None,
        unsigned_value(Seq::empty()) is None,
{
    let with = seq![sign] + s;
    assert(with.drop_first() =~= s);
    assert(!all_digits(s));
    if i > 0 {
        assert(s.drop_first()[i - 1] == s[i]);
        assert(!all_digits(s.drop_first()));
    }
    assert(seq![sign].drop_first() =~= Seq::<char>::empty());
    if sign == '-' {
        assert(!is_digit(seq![sign][0]));
        assert(!all_digits(seq![sign]));
    }
}

/// Padding fills up with spaces on the one side and leaves the text as it is on the other; a
/// text that fills the column is not changed.
pub proof fn law_padding_fills_the_column(s: Seq<char>, width: nat)
    ensures
        s.len() >= width ==> pad_start(s, width) == s && pad_end(s, width) == s,
        s.len() < width ==> pad_start(s, width).len() == width && pad_end(s, width).len() == width,
        forall|i: int|
            0 <= i < width - s.len() ==> (#[trigger] pad_start(s, width)[i]) == ' ' && pad_end(
                s,
                width,
            )[s.len() + i] == ' ',
        s.len() < width ==> pad_start(s, width).skip(width - s.len()) == s && pad_end(
            s,
            width,
        ).take(s.len() as int) == s,
{
    if s.len() >= width {
        assert(pad_start(s, width) =~= s);
        assert(pad_end(s, width) =~= s);
    } else {
        assert(pad_start(s, width).skip(width - s.len()) =~= s);
        assert(pad_end(s, width).take(s.len() as int) =~= s);
    }
}

/// The pieces one behind the other.
pub open spec fn strung(pieces: Seq<Seq<char>>) -> Seq<char>
    decreases pieces.len(),
{
    if pieces.len() == 0 {
        Seq::empty()
    } else {
        strung(pieces.drop_last()) + pieces.last()
    }
}

/// The numeral of a number is made of digits, has no zero in front of another digit, and denotes
/// the number.
pub proof fn law_decimal_is_the_shortest_numeral(n: nat)
    ensures
        decimal(n).len() > 0,
        forall|i: int| 0 <= i < decimal(n).len() ==> '0' <= #[trigger] decimal(n)[i] <= '9',
        decimal(n).len() > 1 ==> decimal(n)[0] != '0',
        digits_value(decimal(n)) == n,
{
    lemma_decimal(n);
    lemma_decimal_value(n);
    assert forall|i: int| 0 <= i < decimal(n).len() implies '0' <= #[trigger] decimal(n)[i]
        <= '9' by {
        assert(is_digit(decimal(n)[i]));
    }
}

/// Digits count ten times more for every digit behind them, and the last one as much as it is
/// above zero.
pub proof fn law_digits_count_by_tens(s: Seq<char>, c: char)
    requires
        '0' <= c <= '9',
    ensures
        digits_value(s + seq![c]) == 10 * digits_value(s) + (c as int - 48),
        digits_value(Seq::empty()) == 0,
{
    assert((s + seq![c]).drop_last() =~= s);
    assert((s + seq![c]).last() == c);
}

/// The pieces one behind the other.
pub open spec fn joined(pieces: Seq<Seq<char>>) -> Seq<char>
    decreases pieces.len(),
{
    if pieces.len() == 0 {
        Seq::empty()
    } else {
        pieces[0] + joined(pieces.drop_first())
    }
}

} // verus!

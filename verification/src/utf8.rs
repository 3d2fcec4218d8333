//! Decoding bytes as UTF-8, with the place at which they stop being UTF-8.
use vstd::prelude::*;
use vstd::utf8::*;

verus! {

/// The length of the longest run of whole characters at the start of `bytes`.
pub open spec fn valid_prefix(bytes: Seq<u8>) -> nat
    decreases bytes.len(),
{
    if bytes.len() > 0 && valid_first_scalar(bytes) {
        (length_of_first_scalar(bytes) + valid_prefix(pop_first_scalar(bytes))) as nat
    } else {
        0
    }
}

/// The valid prefix is UTF-8, no longer prefix is, and it is everything exactly where the bytes
/// are UTF-8.
pub proof fn law_valid_prefix_is_longest(bytes: Seq<u8>)
    ensures
        valid_prefix(bytes) <= bytes.len(),
        valid_utf8(bytes.take(valid_prefix(bytes) as int)),
        forall|n: int|
            valid_prefix(bytes) < n <= bytes.len() ==> !valid_utf8(#[trigger] bytes.take(n)),
        valid_prefix(bytes) == bytes.len() <==> valid_utf8(bytes),
    decreases bytes.len(),
{
    let k = valid_prefix(bytes) as int;
    if bytes.len() > 0 && valid_first_scalar(bytes) {
        let w = length_of_first_scalar(bytes);
        let rest = pop_first_scalar(bytes);
        law_valid_prefix_is_longest(rest);
        lemma_first_scalar_of_prefix(bytes, k);
        assert(bytes.take(k).subrange(w, k) =~= rest.take(k - w));
        assert forall|n: int| k < n <= bytes.len() implies !valid_utf8(#[trigger] bytes.take(n)) by {
            lemma_first_scalar_of_prefix(bytes, n);
            assert(bytes.take(n).subrange(w, n) =~= rest.take(n - w));
        }
    } else {
        assert(bytes.take(0) =~= Seq::<u8>::empty());
        assert forall|n: int| 0 < n <= bytes.len() implies !valid_utf8(#[trigger] bytes.take(n)) by {
            if valid_first_scalar(bytes.take(n)) {
                assert(bytes.take(n)[0] == bytes[0]);
                if n > 1 {
                    assert(bytes.take(n)[1] == bytes[1]);
                }
                if n > 2 {
                    assert(bytes.take(n)[2] == bytes[2]);
                }
                if n > 3 {
                    assert(bytes.take(n)[3] == bytes[3]);
                }
            }
        }
    }
}

proof fn lemma_first_scalar_of_prefix(bytes: Seq<u8>, n: int)
    requires
        valid_first_scalar(bytes),
        length_of_first_scalar(bytes) <= n <= bytes.len(),
    ensures
        valid_first_scalar(bytes.take(n)),
        length_of_first_scalar(bytes.take(n)) == length_of_first_scalar(bytes),
{
    assert(bytes.take(n)[0] == bytes[0]);
    if n > 1 {
        assert(bytes.take(n)[1] == bytes[1]);
    }
    if n > 2 {
        assert(bytes.take(n)[2] == bytes[2]);
    }
    if n > 3 {
        assert(bytes.take(n)[3] == bytes[3]);
    }
}

fn is_continuation(b: u8) -> (yes: bool)
    ensures
        yes == is_continuation_byte(b),
{
    b >= 0x80 && b <= 0xBF
}

/// The first character of `bytes[i..]` and the number of bytes that it takes.
fn first_char(bytes: &[u8], i: usize) -> (r: Option<(char, usize)>)
    requires
        i < bytes@.len(),
    ensures
        r matches Some((c, w)) ==> valid_first_scalar(bytes@.skip(i as int)) && c
            == decode_first_scalar(bytes@.skip(i as int)) as char && w == length_of_first_scalar(
            bytes@.skip(i as int),
        ) && 1 <= w <= 4 && i + w <= bytes@.len(),
        r is None ==> !valid_first_scalar(bytes@.skip(i as int)),
{
    let ghost rest = bytes@.skip(i as int);
    let left: usize = bytes.len() - i;
    let b1: u8 = bytes[i];
    assert(rest[0] == b1);
    if b1 <= 0x7F {
        assert((b1 & 0x7F) <= 0x7F) by (bit_vector);
        let code: u32 = (b1 & 0x7F) as u32;
        return match char::from_u32(code) {
            Some(c) => Some((c, 1)),
            None => None,
        };
    }
    if b1 < 0xC0 || b1 > 0xF7 || left < 2 {
        return None;
    }
    let b2: u8 = bytes[i + 1];
    assert(rest[1] == b2);
    if !is_continuation(b2) {
        return None;
    }
    if b1 <= 0xDF {
        let code: u32 = (((b1 & 0x1F) as u32) << 6) | ((b2 & 0x3F) as u32);
        assert(((((b1 & 0x1F) as u32) << 6) | ((b2 & 0x3F) as u32)) < 0x800) by (bit_vector);
        if code < 0x80 {
            return None;
        }
        return match char::from_u32(code) {
            Some(c) => Some((c, 2)),
            None => None,
        };
    }
    if left < 3 {
        return None;
    }
    let b3: u8 = bytes[i + 2];
    assert(rest[2] == b3);
    if !is_continuation(b3) {
        return None;
    }
    if b1 <= 0xEF {
        let code: u32 = (((b1 & 0x0F) as u32) << 12) | (((b2 & 0x3F) as u32) << 6) | ((b3
            & 0x3F) as u32);
        assert(((((b1 & 0x0F) as u32) << 12) | (((b2 & 0x3F) as u32) << 6) | ((b3 & 0x3F) as u32))
            < 0x10000) by (bit_vector);
        if code < 0x800 {
            return None;
        }
        return match char::from_u32(code) {
            Some(c) => Some((c, 3)),
            None => None,
        };
    }
    if left < 4 {
        return None;
    }
    let b4: u8 = bytes[i + 3];
    assert(rest[3] == b4);
    if !is_continuation(b4) {
        return None;
    }
    let code: u32 = (((b1 & 0x07) as u32) << 18) | (((b2 & 0x3F) as u32) << 12) | (((b3
        & 0x3F) as u32) << 6) | ((b4 & 0x3F) as u32);
    if code < 0x10000 || code > 0x10FFFF {
        return None;
    }
    match char::from_u32(code) {
        Some(c) => Some((c, 4)),
        None => None,
    }
}

/// The characters that `bytes` encode, or the length of the valid part before the first byte
/// that breaks the encoding.
pub fn decode(bytes: &[u8]) -> (r: Result<Vec<char>, usize>)
    ensures
        r matches Ok(chars) ==> valid_utf8(bytes@) && chars@ == decode_utf8(bytes@),
        r matches Err(n) ==> !valid_utf8(bytes@) && n == valid_prefix(bytes@) && n < bytes@.len(),
{
    let mut chars: Vec<char> = Vec::new();
    let mut i: usize = 0;
    proof {
        assert(bytes@.skip(0) =~= bytes@);
        if valid_utf8(bytes@) {
            assert(chars@ + decode_utf8(bytes@) =~= decode_utf8(bytes@));
        }
    }
    while i < bytes.len()
        invariant
            i <= bytes@.len(),
            valid_utf8(bytes@) == valid_utf8(bytes@.skip(i as int)),
            valid_utf8(bytes@) ==> decode_utf8(bytes@) == chars@ + decode_utf8(
                bytes@.skip(i as int),
            ),
            valid_prefix(bytes@) == i + valid_prefix(bytes@.skip(i as int)),
        decreases bytes@.len() - i,
    {
        let ghost rest = bytes@.skip(i as int);
        match first_char(bytes, i) {
            None => {
                return Err(i);
            },
            Some((c, w)) => {
                let ghost before = chars@;
                chars.push(c);
                i = i + w;
                proof {
                    assert(pop_first_scalar(rest) =~= bytes@.skip(i as int));
                    if valid_utf8(rest) {
                        assert(before + (seq![c] + decode_utf8(bytes@.skip(i as int)))
                            =~= chars@ + decode_utf8(bytes@.skip(i as int)));
                    }
                }
            },
        }
    }
    proof {
        assert(bytes@.skip(i as int) =~= Seq::<u8>::empty());
        assert(decode_utf8(Seq::<u8>::empty()) =~= Seq::<char>::empty());
        assert(chars@ + Seq::<char>::empty() =~= chars@);
    }
    Ok(chars)
}

} // verus!

//! Reading one line as a JSON value.
use crate::json;
use crate::json::grammar;
use crate::json::laws;
use crate::json::model;
use crate::json::model::Json;
use crate::json::{parse_chars, Value};
use crate::text;
use crate::utf8;
use crate::utf8::decode;
use vstd::prelude::*;
use vstd::utf8::*;

verus! {

/// Why a line could not be turned into a JSON value.
#[derive(Debug, Clone, PartialEq, Eq)]
pub struct Fault {
    /// 1-based byte column where the problem was detected.
    pub column: usize,
    /// Human readable reason.
    pub reason: String,
}

/// The value that `bytes` hold, or the column at which they go wrong, with the reason.
pub open spec fn reading(bytes: Seq<u8>) -> Result<Json, (nat, Seq<char>)> {
    if !valid_utf8(bytes) {
        Err((utf8::valid_prefix(bytes) + 1, "invalid UTF-8"@))
    } else {
        match grammar::document(decode_utf8(bytes)) {
            Ok(v) => Ok(v),
            Err((kind, offset)) => Err((offset + 1, json::reason(kind))),
        }
    }
}

/// A value holds no more values than its text has bytes.
pub proof fn lemma_reading_is_bounded(bytes: Seq<u8>)
    ensures
        reading(bytes) matches Ok(v) ==> 1 <= model::nodes(v) <= bytes.len(),
{
    if valid_utf8(bytes) {
        let chars = decode_utf8(bytes);
        decode_utf8_encode_utf8(bytes);
        text::lemma_byte_offset(chars, chars.len() as int);
        assert(chars.take(chars.len() as int) =~= chars);
        laws::law_parsed_value_is_bounded(chars);
        reveal_with_fuel(model::nodes, 2);
    }
}

/// Reads `bytes` as a JSON value.
pub fn read_value(bytes: &[u8]) -> (r: Result<Value, Fault>)
    requires
        bytes@.len() < usize::MAX,
    ensures
        r matches Ok(v) ==> reading(bytes@) == Ok::<Json, (nat, Seq<char>)>(v@),
        r matches Err(fault) ==> reading(bytes@) == Err::<Json, (nat, Seq<char>)>(
            (fault.column as nat, fault.reason@),
        ),
{
    match decode(bytes) {
        Err(n) => Err(Fault { column: n + 1, reason: "invalid UTF-8".to_owned() }),
        Ok(chars) => {
            proof {
                decode_utf8_encode_utf8(bytes@);
            }
            match parse_chars(&chars) {
                Ok(value) => Ok(value),
                Err(e) => Err(Fault { column: e.offset + 1, reason: e.kind.to_string() }),
            }
        },
    }
}

/// A line that is not UTF-8 goes wrong in the column behind its longest valid beginning; one that
/// is UTF-8 and not JSON, in the column behind the bytes before the place at which its text breaks
/// off; and columns count from one. Any other line holds what its text denotes.
pub proof fn law_columns_count_from_one(bytes: Seq<u8>, chars: Seq<char>, k: int)
    ensures
        0 <= k < bytes.len() && valid_utf8(bytes.take(k)) && (forall|n: int|
            k < n <= bytes.len() ==> !valid_utf8(#[trigger] bytes.take(n))) ==> reading(bytes)
            == Err::<Json, (nat, Seq<char>)>(((k + 1) as nat, "invalid UTF-8"@)),
        match grammar::document(chars) {
            Ok(v) => reading(encode_utf8(chars)) == Ok::<Json, (nat, Seq<char>)>(v),
            Err((kind, offset)) => reading(encode_utf8(chars)) == Err::<Json, (nat, Seq<char>)>(
                (offset + 1, json::reason(kind)),
            ),
        },
{
    utf8::law_valid_prefix_is_longest(bytes);
    if 0 <= k < bytes.len() && valid_utf8(bytes.take(k)) && (forall|n: int|
        k < n <= bytes.len() ==> !valid_utf8(#[trigger] bytes.take(n))) {
        assert(bytes.take(bytes.len() as int) =~= bytes);
        let found = utf8::valid_prefix(bytes) as int;
        assert(!valid_utf8(bytes.take(bytes.len() as int)));
        if found < k {
            assert(!valid_utf8(bytes.take(k)));
        }
        if found > k {
            assert(!valid_utf8(bytes.take(found)));
        }
    }
    encode_utf8_valid_utf8(chars);
    encode_utf8_decode_utf8(chars);
}

} // verus!

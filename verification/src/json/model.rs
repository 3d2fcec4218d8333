//! JSON values as mathematical objects, and the text that stands for one.
use crate::table::Name;
use vstd::prelude::*;

verus! {

/// A JSON value. A number is the characters that it was written with; an object keeps its
/// members in the order in which they were written.
#[verifier::ext_equal]
pub enum Json {
    Null,
    Bool(bool),
    Number(Seq<char>),
    Text(Seq<char>),
    Array(Seq<Json>),
    Object(Seq<(Name, Json)>),
}

/// Whether a number is written without a fraction and without an exponent.
pub open spec fn is_integer(lexeme: Seq<char>) -> bool {
    !lexeme.contains('.') && !lexeme.contains('e') && !lexeme.contains('E')
}

/// The name of the type of `v`.
pub open spec fn type_label(v: Json) -> Name {
    match v {
        Json::Null => "null"@,
        Json::Bool(_) => "bool"@,
        Json::Number(lexeme) => if is_integer(lexeme) {
            "int"@
        } else {
            "float"@
        },
        Json::Text(_) => "string"@,
        Json::Array(_) => "array"@,
        Json::Object(_) => "object"@,
    }
}

/// The names of the types of `found`.
pub open spec fn labels(found: Seq<Json>) -> Seq<Name> {
    found.map_values(|v: Json| type_label(v))
}

/// The first of `members` that is called `name`.
pub open spec fn member(members: Seq<(Name, Json)>, name: Name) -> Option<Json>
    decreases members.len(),
{
    if members.len() == 0 {
        None
    } else if members[0].0 == name {
        Some(members[0].1)
    } else {
        member(members.drop_first(), name)
    }
}

/// What `v` holds under `name`.
pub open spec fn get(v: Json, name: Name) -> Option<Json> {
    match v {
        Json::Object(members) => member(members, name),
        _ => None,
    }
}

/// The number of values that `v` is made of, itself included.
pub open spec fn nodes(v: Json) -> nat
    decreases v, 0nat,
{
    match v {
        Json::Array(items) => 1 + items_nodes(items),
        Json::Object(members) => 1 + members_nodes(members),
        _ => 1,
    }
}

/// The number of values in `items`, at every depth.
pub open spec fn items_nodes(items: Seq<Json>) -> nat
    decreases items, items.len(),
{
    if items.len() == 0 {
        0
    } else {
        nodes(items[0]) + items_nodes(items.drop_first())
    }
}

/// The number of values in `members`, at every depth.
pub open spec fn members_nodes(members: Seq<(Name, Json)>) -> nat
    decreases members, members.len(),
{
    if members.len() == 0 {
        0
    } else {
        nodes(members[0].1) + members_nodes(members.drop_first())
    }
}

/// How deep arrays and objects are nested in `v`.
pub open spec fn depth(v: Json) -> nat
    decreases v, 0nat,
{
    match v {
        Json::Array(items) => 1 + items_depth(items),
        Json::Object(members) => 1 + members_depth(members),
        _ => 0,
    }
}

/// The depth of the deepest of `items`.
pub open spec fn items_depth(items: Seq<Json>) -> nat
    decreases items, items.len(),
{
    if items.len() == 0 {
        0
    } else {
        let first = depth(items[0]);
        let rest = items_depth(items.drop_first());
        if first >= rest {
            first
        } else {
            rest
        }
    }
}

/// The depth of the deepest value in `members`.
pub open spec fn members_depth(members: Seq<(Name, Json)>) -> nat
    decreases members, members.len(),
{
    if members.len() == 0 {
        0
    } else {
        let first = depth(members[0].1);
        let rest = members_depth(members.drop_first());
        if first >= rest {
            first
        } else {
            rest
        }
    }
}

// ---------------------------------------------------------------------------------------------
// Text
// ---------------------------------------------------------------------------------------------

/// The hexadecimal digit of value `d`.
pub open spec fn hex_char(d: nat) -> char {
    if d < 10 {
        (48 + d) as char
    } else {
        (87 + d) as char
    }
}

/// How a character is written inside a quoted string.
pub open spec fn escaped_char(c: char) -> Seq<char> {
    if c == '"' {
        seq!['\\', '"']
    } else if c == '\\' {
        seq!['\\', '\\']
    } else if c == '\n' {
        seq!['\\', 'n']
    } else if c == '\r' {
        seq!['\\', 'r']
    } else if c == '\t' {
        seq!['\\', 't']
    } else if c == '\u{8}' {
        seq!['\\', 'b']
    } else if c == '\u{c}' {
        seq!['\\', 'f']
    } else if c <= '\u{1f}' {
        seq!['\\', 'u', '0', '0', hex_char(c as nat / 16), hex_char(c as nat % 16)]
    } else {
        seq![c]
    }
}

/// How a text is written between the quotes.
pub open spec fn escaped(s: Seq<char>) -> Seq<char>
    decreases s.len(),
{
    if s.len() == 0 {
        Seq::empty()
    } else {
        escaped_char(s[0]) + escaped(s.drop_first())
    }
}

/// A text as a quoted string.
pub open spec fn quoted(s: Seq<char>) -> Seq<char> {
    seq!['"'] + escaped(s) + seq!['"']
}

/// The text of a value, with no space between its parts.
pub open spec fn json_text(v: Json) -> Seq<char>
    decreases v, 0nat,
{
    match v {
        Json::Null => seq!['n', 'u', 'l', 'l'],
        Json::Bool(true) => seq!['t', 'r', 'u', 'e'],
        Json::Bool(false) => seq!['f', 'a', 'l', 's', 'e'],
        Json::Number(lexeme) => lexeme,
        Json::Text(s) => quoted(s),
        Json::Array(items) => seq!['['] + items_text(items) + seq![']'],
        Json::Object(members) => seq!['{'] + members_text(members) + seq!['}'],
    }
}

/// The items of an array with commas between them.
pub open spec fn items_text(items: Seq<Json>) -> Seq<char>
    decreases items, items.len(),
{
    if items.len() == 0 {
        Seq::empty()
    } else if items.len() == 1 {
        json_text(items[0])
    } else {
        json_text(items[0]) + seq![','] + items_text(items.drop_first())
    }
}

/// A member of an object: its quoted name, a colon and its value.
pub open spec fn member_text(name: Name, value_text: Seq<char>) -> Seq<char> {
    quoted(name) + seq![':'] + value_text
}

/// The members of an object with commas between them.
pub open spec fn members_text(members: Seq<(Name, Json)>) -> Seq<char>
    decreases members, members.len(),
{
    if members.len() == 0 {
        Seq::empty()
    } else if members.len() == 1 {
        member_text(members[0].0, json_text(members[0].1))
    } else {
        member_text(members[0].0, json_text(members[0].1)) + seq![','] + members_text(
            members.drop_first(),
        )
    }
}

/// Looking up a name finds the first member that has it, whatever stands before and behind it,
/// and nothing where no member has it.
pub proof fn law_first_member_is_found(
    before: Seq<(Name, Json)>,
    name: Name,
    found: Json,
    behind: Seq<(Name, Json)>,
)
    requires
        forall|i: int| 0 <= i < before.len() ==> (#[trigger] before[i]).0 != name,
    ensures
        get(Json::Object(before + seq![(name, found)] + behind), name) == Some(found),
        get(Json::Object(before), name) is None,
    decreases before.len(),
{
    let list = before + seq![(name, found)] + behind;
    if before.len() > 0 {
        let rest = before.drop_first();
        assert(before[0].0 != name);
        assert forall|i: int| 0 <= i < rest.len() implies (#[trigger] rest[i]).0 != name by {
            assert(rest[i] == before[i + 1]);
        }
        law_first_member_is_found(rest, name, found, behind);
        assert(list.drop_first() =~= rest + seq![(name, found)] + behind);
        assert(list[0] == before[0]);
    } else {
        assert(list[0] == (name, found));
    }
}

} // verus!

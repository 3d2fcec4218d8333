//! Tables keyed by text and kept in key order.
//!
//! Keys are ordered by the bytes of their UTF-8 encoding.
use vstd::prelude::*;
use vstd::utf8::*;

verus! {

/// A name, as the characters that it is made of.
pub type Name = Seq<char>;

// ---------------------------------------------------------------------------------------------
// The order of names
// ---------------------------------------------------------------------------------------------

/// Whether the bytes `a` come strictly before the bytes `b`, compared from the left.
pub open spec fn bytes_before(a: Seq<u8>, b: Seq<u8>) -> bool
    decreases a.len(),
{
    if b.len() == 0 {
        false
    } else if a.len() == 0 {
        true
    } else {
        a[0] < b[0] || (a[0] == b[0] && bytes_before(a.drop_first(), b.drop_first()))
    }
}

/// Whether the name `a` comes strictly before the name `b`.
pub open spec fn name_before(a: Name, b: Name) -> bool {
    bytes_before(encode_utf8(a), encode_utf8(b))
}

proof fn lemma_bytes_total(a: Seq<u8>, b: Seq<u8>)
    ensures
        a == b || bytes_before(a, b) || bytes_before(b, a),
        !(bytes_before(a, b) && bytes_before(b, a)),
        a == b ==> !bytes_before(a, b),
    decreases a.len(),
{
    if a.len() == 0 || b.len() == 0 {
        if a.len() == b.len() {
            assert(a =~= b);
        }
    } else {
        lemma_bytes_total(a.drop_first(), b.drop_first());
        if a[0] == b[0] && a.drop_first() == b.drop_first() {
            assert(a =~= seq![a[0]] + a.drop_first());
            assert(b =~= seq![b[0]] + b.drop_first());
        }
    }
}

proof fn lemma_bytes_transitive(a: Seq<u8>, b: Seq<u8>, c: Seq<u8>)
    requires
        bytes_before(a, b),
        bytes_before(b, c),
    ensures
        bytes_before(a, c),
    decreases a.len(),
{
    if a.len() > 0 && a[0] == b[0] && b[0] == c[0] {
        lemma_bytes_transitive(a.drop_first(), b.drop_first(), c.drop_first());
    }
}

/// Of two names, one comes before the other or they are the same, and never two of these.
pub proof fn lemma_names_total(a: Name, b: Name)
    ensures
        a == b || name_before(a, b) || name_before(b, a),
        !(name_before(a, b) && name_before(b, a)),
        a == b ==> !name_before(a, b),
{
    lemma_bytes_total(encode_utf8(a), encode_utf8(b));
    encode_utf8_decode_utf8(a);
    encode_utf8_decode_utf8(b);
}

/// The order of names is transitive.
pub proof fn lemma_names_transitive(a: Name, b: Name, c: Name)
    requires
        name_before(a, b),
        name_before(b, c),
    ensures
        name_before(a, c),
{
    lemma_bytes_transitive(encode_utf8(a), encode_utf8(b), encode_utf8(c));
}

/// Where one name stands relative to another.
pub enum Side {
    Before,
    Same,
    After,
}

/// Where `a` stands relative to `b`.
pub fn side_of(a: &str, b: &str) -> (side: Side)
    ensures
        side is Before <==> name_before(a@, b@),
        side is Same <==> a@ == b@,
        side is After <==> name_before(b@, a@),
{
    let x: &[u8] = a.as_bytes();
    let y: &[u8] = b.as_bytes();
    proof {
        lemma_names_total(a@, b@);
        assert(x@.skip(0) =~= x@);
        assert(y@.skip(0) =~= y@);
    }
    let mut i: usize = 0;
    while i < x.len() && i < y.len()
        invariant
            i <= x@.len(),
            i <= y@.len(),
            x@ == encode_utf8(a@),
            y@ == encode_utf8(b@),
            bytes_before(x@, y@) == bytes_before(x@.skip(i as int), y@.skip(i as int)),
            bytes_before(y@, x@) == bytes_before(y@.skip(i as int), x@.skip(i as int)),
            a@ == b@ || name_before(a@, b@) || name_before(b@, a@),
            !(name_before(a@, b@) && name_before(b@, a@)),
            a@ == b@ ==> !name_before(a@, b@),
        decreases x@.len() - i,
    {
        if x[i] < y[i] {
            return Side::Before;
        }
        if x[i] > y[i] {
            return Side::After;
        }
        proof {
            assert(x@.skip(i as int).drop_first() =~= x@.skip(i + 1));
            assert(y@.skip(i as int).drop_first() =~= y@.skip(i + 1));
        }
        i = i + 1;
    }
    if i < y.len() {
        Side::Before
    } else if i < x.len() {
        Side::After
    } else {
        Side::Same
    }
}

// ---------------------------------------------------------------------------------------------
// Rows in key order
// ---------------------------------------------------------------------------------------------

/// Whether every row comes strictly before the rows after it.
pub open spec fn sorted<V>(rows: Seq<(Name, V)>) -> bool {
    forall|i: int, j: int|
        0 <= i < j < rows.len() ==> name_before(#[trigger] rows[i].0, #[trigger] rows[j].0)
}

/// The value that `rows` holds for `key`.
pub open spec fn lookup<V>(rows: Seq<(Name, V)>, key: Name) -> Option<V>
    decreases rows.len(),
{
    if rows.len() == 0 {
        None
    } else if rows[0].0 == key {
        Some(rows[0].1)
    } else {
        lookup(rows.drop_first(), key)
    }
}

/// `rows` with `value` for `key`: in place of what the key had, or as a new row at its place in
/// the order.
pub open spec fn placed<V>(rows: Seq<(Name, V)>, key: Name, value: V) -> Seq<(Name, V)>
    decreases rows.len(),
{
    if rows.len() == 0 {
        seq![(key, value)]
    } else if rows[0].0 == key {
        seq![(key, value)] + rows.drop_first()
    } else if name_before(key, rows[0].0) {
        seq![(key, value)] + rows
    } else {
        seq![rows[0]] + placed(rows.drop_first(), key, value)
    }
}

/// Whether `key` belongs at position `i` of `rows`.
pub open spec fn is_gap<V>(rows: Seq<(Name, V)>, key: Name, i: int) -> bool {
    &&& 0 <= i <= rows.len()
    &&& forall|k: int| 0 <= k < i ==> name_before(#[trigger] rows[k].0, key)
    &&& forall|k: int| i <= k < rows.len() ==> name_before(key, #[trigger] rows[k].0)
}

/// A row that is there is found, and a new value takes the place of the old one.
pub proof fn lemma_hit<V>(rows: Seq<(Name, V)>, key: Name, value: V, i: int)
    requires
        sorted(rows),
        0 <= i < rows.len(),
        rows[i].0 == key,
    ensures
        lookup(rows, key) == Some(rows[i].1),
        placed(rows, key, value) == rows.update(i, (key, value)),
    decreases i,
{
    if i == 0 {
        assert(placed(rows, key, value) =~= rows.update(i, (key, value)));
    } else {
        lemma_names_total(rows[0].0, key);
        assert(name_before(rows[0].0, rows[i].0));
        lemma_hit(rows.drop_first(), key, value, i - 1);
        assert(placed(rows, key, value) =~= rows.update(i, (key, value)));
    }
}

/// Where a key belongs in a gap, it is not found, and a new row goes into the gap.
pub proof fn lemma_miss<V>(rows: Seq<(Name, V)>, key: Name, value: V, i: int)
    requires
        is_gap(rows, key, i),
    ensures
        lookup(rows, key) is None,
        placed(rows, key, value) == rows.insert(i, (key, value)),
    decreases rows.len(),
{
    if rows.len() == 0 {
        assert(placed(rows, key, value) =~= rows.insert(i, (key, value)));
    } else {
        lemma_names_total(rows[0].0, key);
        let rest = rows.drop_first();
        if i == 0 {
            assert forall|k: int| 0 <= k < rest.len() implies name_before(
                key,
                #[trigger] rest[k].0,
            ) by {
                assert(rest[k] == rows[k + 1]);
            }
            lemma_miss(rest, key, value, 0);
            assert(placed(rows, key, value) =~= rows.insert(i, (key, value)));
        } else {
            assert(is_gap(rest, key, i - 1)) by {
                assert forall|k: int| 0 <= k < i - 1 implies name_before(
                    #[trigger] rest[k].0,
                    key,
                ) by {
                    assert(rest[k] == rows[k + 1]);
                }
                assert forall|k: int| i - 1 <= k < rest.len() implies name_before(
                    key,
                    #[trigger] rest[k].0,
                ) by {
                    assert(rest[k] == rows[k + 1]);
                }
            }
            lemma_miss(rest, key, value, i - 1);
            assert(placed(rows, key, value) =~= rows.insert(i, (key, value)));
        }
    }
}

/// A key is either among sorted rows or has exactly one gap.
pub proof fn lemma_find<V>(rows: Seq<(Name, V)>, key: Name) -> (i: int)
    requires
        sorted(rows),
    ensures
        (0 <= i < rows.len() && rows[i].0 == key) || is_gap(rows, key, i),
    decreases rows.len(),
{
    if rows.len() == 0 {
        0
    } else {
        lemma_names_total(rows[0].0, key);
        if rows[0].0 == key {
            0
        } else if name_before(key, rows[0].0) {
            assert forall|k: int| 0 <= k < rows.len() implies name_before(
                key,
                #[trigger] rows[k].0,
            ) by {
                if k > 0 {
                    lemma_names_transitive(key, rows[0].0, rows[k].0);
                }
            }
            0
        } else {
            let rest = rows.drop_first();
            let j = lemma_find(rest, key);
            if !(j < rest.len() && rest[j].0 == key) {
                assert forall|k: int| 0 <= k < j + 1 implies name_before(
                    #[trigger] rows[k].0,
                    key,
                ) by {
                    if k > 0 {
                        assert(rest[k - 1] == rows[k]);
                    }
                }
                assert forall|k: int| j + 1 <= k < rows.len() implies name_before(
                    key,
                    #[trigger] rows[k].0,
                ) by {
                    assert(rest[k - 1] == rows[k]);
                }
            }
            j + 1
        }
    }
}

/// Placing a row keeps the rows sorted; the key has its new value and every other key keeps what
/// it had.
pub proof fn lemma_placed<V>(rows: Seq<(Name, V)>, key: Name, value: V)
    requires
        sorted(rows),
    ensures
        sorted(placed(rows, key, value)),
        lookup(placed(rows, key, value), key) == Some(value),
        forall|other: Name|
            other != key ==> #[trigger] lookup(placed(rows, key, value), other) == lookup(
                rows,
                other,
            ),
        lookup(rows, key) is Some ==> placed(rows, key, value).len() == rows.len(),
        lookup(rows, key) is None ==> placed(rows, key, value).len() == rows.len() + 1,
{
    let i = lemma_find(rows, key);
    let new = placed(rows, key, value);
    if i < rows.len() && rows[i].0 == key {
        lemma_hit(rows, key, value, i);
        assert(new == rows.update(i, (key, value)));
        assert(sorted(new));
        lemma_hit(new, key, value, i);
    } else {
        lemma_miss(rows, key, value, i);
        assert(new == rows.insert(i, (key, value)));
        assert forall|a: int, b: int| 0 <= a < b < new.len() implies name_before(
            #[trigger] new[a].0,
            #[trigger] new[b].0,
        ) by {
            if a == i {
                assert(new[b] == rows[b - 1]);
            } else if b == i {
                assert(new[a] == rows[a]);
            } else {
                let x = if a < i { a } else { a - 1 };
                let y = if b < i { b } else { b - 1 };
                assert(new[a] == rows[x] && new[b] == rows[y]);
            }
        }
        lemma_hit(new, key, value, i);
    }
    assert forall|other: Name| other != key implies #[trigger] lookup(new, other) == lookup(
        rows,
        other,
    ) by {
        lemma_placed_other(rows, key, value, other);
    }
}

/// The first row is found under its key, and every other row among the rest.
proof fn lemma_lookup_rest<V>(rows: Seq<(Name, V)>, key: Name)
    requires
        sorted(rows),
        rows.len() > 0,
    ensures
        sorted(rows.drop_first()),
        lookup(rows.drop_first(), rows[0].0) is None,
        key != rows[0].0 ==> lookup(rows, key) == lookup(rows.drop_first(), key),
        lookup(rows, key) is Some ==> key == rows[0].0 || name_before(rows[0].0, key),
{
    let rest = rows.drop_first();
    assert forall|i: int, j: int| 0 <= i < j < rest.len() implies name_before(
        #[trigger] rest[i].0,
        #[trigger] rest[j].0,
    ) by {
        assert(rest[i] == rows[i + 1] && rest[j] == rows[j + 1]);
    }
    assert forall|k: int| 0 <= k < rest.len() implies name_before(
        rows[0].0,
        #[trigger] rest[k].0,
    ) by {
        assert(rest[k] == rows[k + 1]);
    }
    lemma_miss(rest, rows[0].0, rows[0].1, 0);
    let i = lemma_find(rows, key);
    if i < rows.len() && rows[i].0 == key {
        if i > 0 {
            assert(name_before(rows[0].0, rows[i].0));
        }
    } else {
        lemma_miss(rows, key, rows[0].1, i);
    }
}

/// Two tables that give the same answer for every key hold the same rows.
pub proof fn lemma_same_rows<V>(a: Seq<(Name, V)>, b: Seq<(Name, V)>)
    requires
        sorted(a),
        sorted(b),
        forall|key: Name| #[trigger] lookup(a, key) == lookup(b, key),
    ensures
        a == b,
    decreases a.len(),
{
    if a.len() == 0 || b.len() == 0 {
        if a.len() > 0 {
            assert(lookup(a, a[0].0) == lookup(b, a[0].0));
        }
        if b.len() > 0 {
            assert(lookup(a, b[0].0) == lookup(b, b[0].0));
        }
        assert(a =~= b);
    } else {
        assert(lookup(a, a[0].0) == lookup(b, a[0].0));
        assert(lookup(a, b[0].0) == lookup(b, b[0].0));
        lemma_lookup_rest(a, b[0].0);
        lemma_lookup_rest(b, a[0].0);
        lemma_names_total(a[0].0, b[0].0);
        assert(a[0] == b[0]);
        let rest = a.drop_first();
        let other = b.drop_first();
        assert forall|key: Name| #[trigger] lookup(rest, key) == lookup(other, key) by {
            lemma_lookup_rest(a, key);
            lemma_lookup_rest(b, key);
            assert(lookup(a, key) == lookup(b, key));
        }
        lemma_same_rows(rest, other);
        assert(a =~= seq![a[0]] + rest);
        assert(b =~= seq![b[0]] + other);
    }
}

/// The keys of a table, in order.
pub open spec fn keys<V>(rows: Seq<(Name, V)>) -> Seq<Name> {
    rows.map_values(|row: (Name, V)| row.0)
}

/// A table has as many keys as rows, and they are those that it has a value for.
pub proof fn lemma_keys<V>(rows: Seq<(Name, V)>)
    requires
        sorted(rows),
    ensures
        keys(rows).to_set().finite(),
        keys(rows).to_set().len() == rows.len(),
        forall|key: Name| #[trigger]
            keys(rows).to_set().contains(key) <==> lookup(rows, key) is Some,
{
    let list = keys(rows);
    assert forall|i: int, j: int| 0 <= i < list.len() && 0 <= j < list.len() && i
        != j implies list[i] != list[j] by {
        lemma_names_total(rows[i].0, rows[j].0);
        if i < j {
            assert(name_before(rows[i].0, rows[j].0));
        } else {
            assert(name_before(rows[j].0, rows[i].0));
        }
    }
    list.unique_seq_to_set();
    assert forall|key: Name| #[trigger] list.to_set().contains(key) <==> lookup(
        rows,
        key,
    ) is Some by {
        let i = lemma_find(rows, key);
        if i < rows.len() && rows[i].0 == key {
            lemma_hit(rows, key, rows[i].1, i);
            assert(list[i] == key);
        } else {
            if rows.len() > 0 {
                lemma_miss(rows, key, rows[0].1, i);
            }
            if list.contains(key) {
                let k = choose|k: int| 0 <= k < list.len() && list[k] == key;
                lemma_names_total(rows[k].0, key);
                assert(rows[k].0 == key);
                lemma_hit(rows, key, rows[k].1, k);
            }
        }
    }
}

proof fn lemma_placed_other<V>(rows: Seq<(Name, V)>, key: Name, value: V, other: Name)
    requires
        other != key,
    ensures
        lookup(placed(rows, key, value), other) == lookup(rows, other),
    decreases rows.len(),
{
    reveal_with_fuel(lookup, 2);
    let new = placed(rows, key, value);
    if rows.len() == 0 {
        assert(new.drop_first() =~= Seq::<(Name, V)>::empty());
    } else if rows[0].0 == key {
        assert(new.drop_first() =~= rows.drop_first());
    } else if name_before(key, rows[0].0) {
        assert(new.drop_first() =~= rows);
    } else {
        assert(new.drop_first() =~= placed(rows.drop_first(), key, value));
        lemma_placed_other(rows.drop_first(), key, value, other);
    }
}

// ---------------------------------------------------------------------------------------------
// Tables
// ---------------------------------------------------------------------------------------------

/// A table from text to values, its rows in key order.
#[derive(Debug, Clone, PartialEq, Eq)]
pub struct Table<V> {
    rows: Vec<(String, V)>,
}

impl<V: View> View for Table<V> {
    type V = Seq<(Name, V::V)>;

    closed spec fn view(&self) -> Seq<(Name, V::V)> {
        Seq::new(self.rows@.len(), |i: int| (self.rows@[i].0@, self.rows@[i].1@))
    }
}

impl<V: View> Table<V> {
    /// Whether the rows are in key order, each key once.
    pub open spec fn wf(&self) -> bool {
        sorted(self@)
    }

    /// An empty table.
    pub fn new() -> (table: Table<V>)
        ensures
            table.wf(),
            table@ == Seq::<(Name, V::V)>::empty(),
    {
        let table = Table { rows: Vec::new() };
        assert(table@ =~= Seq::<(Name, V::V)>::empty());
        table
    }

    /// The number of rows.
    pub fn len(&self) -> (n: usize)
        ensures
            n == self@.len(),
    {
        self.rows.len()
    }

    /// Whether there are no rows.
    pub fn is_empty(&self) -> (empty: bool)
        ensures
            empty == (self@.len() == 0),
    {
        self.rows.len() == 0
    }

    /// The key of row number `i`.
    pub fn key_at(&self, i: usize) -> (key: &String)
        requires
            i < self@.len(),
        ensures
            key@ == self@[i as int].0,
    {
        &self.rows[i].0
    }

    /// The value of row number `i`.
    pub fn value_at(&self, i: usize) -> (value: &V)
        requires
            i < self@.len(),
        ensures
            value@ == self@[i as int].1,
    {
        &self.rows[i].1
    }

    /// The value of row number `i`, for changing it.
    pub fn value_at_mut(&mut self, i: usize) -> (value: &mut V)
        requires
            i < old(self)@.len(),
        ensures
            value@ == old(self)@[i as int].1,
            final(self)@ == old(self)@.update(i as int, (old(self)@[i as int].0, final(value)@)),
    {
        &mut self.rows[i].1
    }

    /// The row of `key`, or the position at which a row for it belongs.
    pub fn find(&self, key: &str) -> (at: Result<usize, usize>)
        requires
            self.wf(),
        ensures
            at matches Ok(i) ==> i < self@.len() && self@[i as int].0 == key@,
            at matches Err(i) ==> is_gap(self@, key@, i as int),
            at is Ok <==> lookup(self@, key@) is Some,
    {
        let mut low: usize = 0;
        let mut high: usize = self.rows.len();
        while low < high
            invariant
                low <= high <= self@.len(),
                self.rows@.len() == self@.len(),
                self.wf(),
                forall|k: int| 0 <= k < low ==> name_before(#[trigger] self@[k].0, key@),
                forall|k: int| high <= k < self@.len() ==> name_before(key@, #[trigger] self@[k].0),
            decreases high - low,
        {
            let mid: usize = low + (high - low) / 2;
            let row: &(String, V) = &self.rows[mid];
            assert(self@[mid as int].0 == row.0@);
            match side_of(row.0.as_str(), key) {
                Side::Same => {
                    proof {
                        lemma_hit(self@, key@, self@[mid as int].1, mid as int);
                    }
                    return Ok(mid);
                },
                Side::Before => {
                    proof {
                        assert forall|k: int| 0 <= k < mid + 1 implies name_before(
                            #[trigger] self@[k].0,
                            key@,
                        ) by {
                            if k < mid {
                                lemma_names_transitive(self@[k].0, self@[mid as int].0, key@);
                            }
                        }
                    }
                    low = mid + 1;
                },
                Side::After => {
                    proof {
                        assert forall|k: int| mid <= k < self@.len() implies name_before(
                            key@,
                            #[trigger] self@[k].0,
                        ) by {
                            if k > mid {
                                lemma_names_transitive(key@, self@[mid as int].0, self@[k].0);
                            }
                        }
                    }
                    high = mid;
                },
            }
        }
        proof {
            if self@.len() > 0 {
                lemma_miss(self@, key@, self@[0].1, low as int);
            }
        }
        Err(low)
    }

    /// The value of `key`.
    pub fn get(&self, key: &str) -> (value: Option<&V>)
        requires
            self.wf(),
        ensures
            value matches Some(v) ==> lookup(self@, key@) == Some(v@),
            value is None <==> lookup(self@, key@) is None,
    {
        match self.find(key) {
            Ok(i) => {
                proof {
                    lemma_hit(self@, key@, self@[i as int].1, i as int);
                }
                Some(&self.rows[i].1)
            },
            Err(_) => None,
        }
    }

    /// Whether `key` has a row.
    pub fn contains_key(&self, key: &str) -> (found: bool)
        requires
            self.wf(),
        ensures
            found == lookup(self@, key@) is Some,
    {
        match self.find(key) {
            Ok(_) => true,
            Err(_) => false,
        }
    }

    /// Puts a row for `key`, which has none yet, at its place.
    pub fn insert_at(&mut self, i: usize, key: String, value: V)
        requires
            old(self).wf(),
            is_gap(old(self)@, key@, i as int),
        ensures
            final(self).wf(),
            final(self)@ == placed(old(self)@, key@, value@),
    {
        proof {
            lemma_miss(self@, key@, value@, i as int);
            lemma_placed(self@, key@, value@);
        }
        self.rows.insert(i, (key, value));
        assert(self@ =~= old(self)@.insert(i as int, (key@, value@)));
    }
}

/// Names are compared from the left, byte by byte of their UTF-8 form: the first byte that
/// differs decides, and a name comes before every longer one that starts with it.
pub proof fn law_names_are_compared_from_the_left(
    a: Name,
    b: Name,
    same: Seq<u8>,
    x: u8,
    y: u8,
    s: Seq<u8>,
    t: Seq<u8>,
)
    requires
        encode_utf8(b) == same + seq![y] + t,
        encode_utf8(a) == same || (encode_utf8(a) == same + seq![x] + s && x < y),
    ensures
        name_before(a, b),
        !name_before(b, a),
{
    if encode_utf8(a) == same {
        lemma_compared(same, Seq::empty(), seq![y] + t);
        assert(same + Seq::<u8>::empty() =~= same);
    } else {
        lemma_compared(same, seq![x] + s, seq![y] + t);
        assert(same + seq![x] + s =~= same + (seq![x] + s));
    }
    assert(same + seq![y] + t =~= same + (seq![y] + t));
}

proof fn lemma_compared(same: Seq<u8>, s: Seq<u8>, t: Seq<u8>)
    ensures
        bytes_before(same + s, same + t) == bytes_before(s, t),
        bytes_before(same + t, same + s) == bytes_before(t, s),
    decreases same.len(),
{
    if same.len() == 0 {
        assert(same + s =~= s);
        assert(same + t =~= t);
    } else {
        lemma_compared(same.drop_first(), s, t);
        assert((same + s).drop_first() =~= same.drop_first() + s);
        assert((same + t).drop_first() =~= same.drop_first() + t);
    }
}

} // verus!

//! Tallies: how often each of a set of names was seen, and their ranking by frequency.
use crate::table;
use crate::table::{side_of, Name, Side, Table};
use vstd::prelude::*;

verus! {

/// One count of a [`Tally`].
#[derive(Debug, Clone, Copy, PartialEq, Eq)]
pub struct Count {
    pub n: u64,
}

impl View for Count {
    type V = nat;

    open spec fn view(&self) -> nat {
        self.n as nat
    }
}

/// How often each name was seen, in the order of the names.
#[derive(Debug, Clone, PartialEq, Eq)]
pub struct Tally {
    table: Table<Count>,
}

impl View for Tally {
    type V = Seq<(Name, nat)>;

    closed spec fn view(&self) -> Seq<(Name, nat)> {
        self.table@
    }
}

/// The count of `key`, zero for a name that was not seen.
pub open spec fn count_of(rows: Seq<(Name, nat)>, key: Name) -> nat {
    match table::lookup(rows, key) {
        Some(n) => n,
        None => 0,
    }
}

/// `rows` after `key` was seen once more.
pub open spec fn bumped(rows: Seq<(Name, nat)>, key: Name) -> Seq<(Name, nat)> {
    table::placed(rows, key, count_of(rows, key) + 1)
}

/// The sum of all counts.
pub open spec fn total(rows: Seq<(Name, nat)>) -> nat
    decreases rows.len(),
{
    if rows.len() == 0 {
        0
    } else {
        rows[0].1 + total(rows.drop_first())
    }
}

/// Whether every name was seen at least once.
pub open spec fn all_seen(rows: Seq<(Name, nat)>) -> bool {
    forall|i: int| 0 <= i < rows.len() ==> (#[trigger] rows[i]).1 >= 1
}

/// Seeing a name once more adds one to the sum, one to the count of that name and nothing to
/// any other count.
pub proof fn lemma_bumped(rows: Seq<(Name, nat)>, key: Name)
    requires
        table::sorted(rows),
    ensures
        table::sorted(bumped(rows, key)),
        total(bumped(rows, key)) == total(rows) + 1,
        count_of(bumped(rows, key), key) == count_of(rows, key) + 1,
        forall|other: Name|
            other != key ==> #[trigger] count_of(bumped(rows, key), other) == count_of(rows, other),
        table::lookup(rows, key) is Some ==> bumped(rows, key).len() == rows.len(),
        table::lookup(rows, key) is None ==> bumped(rows, key).len() == rows.len() + 1,
        all_seen(rows) ==> all_seen(bumped(rows, key)),
{
    table::lemma_placed(rows, key, count_of(rows, key) + 1);
    let i = table::lemma_find(rows, key);
    if i < rows.len() && rows[i].0 == key {
        table::lemma_hit(rows, key, count_of(rows, key) + 1, i);
        lemma_total_update(rows, i, (key, count_of(rows, key) + 1));
    } else {
        table::lemma_miss(rows, key, count_of(rows, key) + 1, i);
        lemma_total_insert(rows, i, (key, 1));
        if all_seen(rows) {
            let after = rows.insert(i, (key, 1nat));
            assert forall|k: int| 0 <= k < after.len() implies (#[trigger] after[k]).1 >= 1 by {
                if k < i {
                    assert(after[k] == rows[k]);
                } else if k > i {
                    assert(after[k] == rows[k - 1]);
                }
            }
        }
    }
}

/// Where every name was seen, a tally is determined by its counts.
pub proof fn lemma_same_tally(a: Seq<(Name, nat)>, b: Seq<(Name, nat)>)
    requires
        table::sorted(a),
        table::sorted(b),
        all_seen(a),
        all_seen(b),
        forall|key: Name| #[trigger] count_of(a, key) == count_of(b, key),
    ensures
        a == b,
{
    assert forall|key: Name| #[trigger] table::lookup(a, key) == table::lookup(b, key) by {
        lemma_seen_count(a, key);
        lemma_seen_count(b, key);
        assert(count_of(a, key) == count_of(b, key));
    }
    table::lemma_same_rows(a, b);
}

proof fn lemma_seen_count(rows: Seq<(Name, nat)>, key: Name)
    requires
        table::sorted(rows),
        all_seen(rows),
    ensures
        table::lookup(rows, key) is Some <==> count_of(rows, key) >= 1,
{
    let i = table::lemma_find(rows, key);
    if i < rows.len() && rows[i].0 == key {
        table::lemma_hit(rows, key, 0, i);
    } else {
        table::lemma_miss(rows, key, 0, i);
    }
}

proof fn lemma_total_update(rows: Seq<(Name, nat)>, i: int, row: (Name, nat))
    requires
        0 <= i < rows.len(),
    ensures
        total(rows.update(i, row)) + rows[i].1 == total(rows) + row.1,
    decreases i,
{
    if i == 0 {
        assert(rows.update(i, row).drop_first() =~= rows.drop_first());
    } else {
        lemma_total_update(rows.drop_first(), i - 1, row);
        assert(rows.update(i, row).drop_first() =~= rows.drop_first().update(i - 1, row));
    }
}

proof fn lemma_total_insert(rows: Seq<(Name, nat)>, i: int, row: (Name, nat))
    requires
        0 <= i <= rows.len(),
    ensures
        total(rows.insert(i, row)) == total(rows) + row.1,
    decreases i,
{
    if i == 0 {
        assert(rows.insert(i, row).drop_first() =~= rows);
    } else {
        lemma_total_insert(rows.drop_first(), i - 1, row);
        assert(rows.insert(i, row).drop_first() =~= rows.drop_first().insert(i - 1, row));
    }
}

/// The tally of `names`.
pub open spec fn tally_of(names: Seq<Name>) -> Seq<(Name, nat)>
    decreases names.len(),
{
    if names.len() == 0 {
        Seq::empty()
    } else {
        bumped(tally_of(names.drop_last()), names.last())
    }
}

/// How often `key` is among `names`.
pub open spec fn occurrences(names: Seq<Name>, key: Name) -> nat
    decreases names.len(),
{
    if names.len() == 0 {
        0
    } else {
        occurrences(names.drop_last(), key) + (if names.last() == key {
            1nat
        } else {
            0nat
        })
    }
}

/// A name is as often in two lists put together as in both of them.
pub proof fn lemma_occurrences_concat(a: Seq<Name>, b: Seq<Name>, key: Name)
    ensures
        occurrences(a + b, key) == occurrences(a, key) + occurrences(b, key),
    decreases b.len(),
{
    if b.len() == 0 {
        assert(a + b =~= a);
    } else {
        lemma_occurrences_concat(a, b.drop_last(), key);
        assert((a + b).drop_last() =~= a + b.drop_last());
    }
}

/// A tally counts each name as often as it was seen, and all of them together.
pub proof fn law_tally_counts_occurrences(names: Seq<Name>)
    ensures
        table::sorted(tally_of(names)),
        total(tally_of(names)) == names.len(),
        forall|key: Name| #[trigger] count_of(tally_of(names), key) == occurrences(names, key),
    decreases names.len(),
{
    if names.len() > 0 {
        law_tally_counts_occurrences(names.drop_last());
        lemma_bumped(tally_of(names.drop_last()), names.last());
    }
}

// ---------------------------------------------------------------------------------------------
// The first names
// ---------------------------------------------------------------------------------------------

/// The different ones of `names`, in the order in which they first appear.
pub open spec fn firsts(names: Seq<Name>) -> Seq<Name>
    decreases names.len(),
{
    if names.len() == 0 {
        Seq::empty()
    } else {
        let before = firsts(names.drop_last());
        if before.contains(names.last()) {
            before
        } else {
            before.push(names.last())
        }
    }
}

/// The first `max` different ones of `names`, or all where there are fewer.
pub open spec fn kept(names: Seq<Name>, max: nat) -> Seq<Name> {
    firsts(names).take(if firsts(names).len() < max {
        firsts(names).len() as int
    } else {
        max as int
    })
}

/// How many of `names` are not among `list`.
pub open spec fn left_out(names: Seq<Name>, list: Seq<Name>) -> nat
    decreases names.len(),
{
    if names.len() == 0 {
        0
    } else {
        left_out(names.drop_last(), list) + (if list.contains(names.last()) {
            0nat
        } else {
            1nat
        })
    }
}

/// The first different names are those that occur, each once.
pub proof fn lemma_firsts(names: Seq<Name>)
    ensures
        forall|key: Name| #[trigger] firsts(names).contains(key) <==> occurrences(names, key) > 0,
        firsts(names).no_duplicates(),
    decreases names.len(),
{
    if names.len() > 0 {
        let before = firsts(names.drop_last());
        let last = names.last();
        lemma_firsts(names.drop_last());
        assert forall|key: Name| #[trigger] firsts(names).contains(key) <==> occurrences(names, key)
            > 0 by {
            assert(before.contains(key) <==> occurrences(names.drop_last(), key) > 0);
            lemma_contains_push(before, last, key);
        }
    }
}

proof fn lemma_contains_push(list: Seq<Name>, name: Name, key: Name)
    ensures
        list.push(name).contains(key) <==> list.contains(key) || key == name,
{
    if list.contains(key) {
        let i = choose|i: int| 0 <= i < list.len() && list[i] == key;
        assert(list.push(name)[i] == key);
    }
    assert(list.push(name)[list.len() as int] == name);
}

/// One more name is kept where it is new and there is room.
pub proof fn lemma_kept_push(names: Seq<Name>, max: nat, name: Name)
    ensures
        kept(names.push(name), max) == (if !kept(names, max).contains(name) && kept(
            names,
            max,
        ).len() < max {
            kept(names, max).push(name)
        } else {
            kept(names, max)
        }),
        kept(names, max).len() <= max,
        !kept(names, max).contains(name) && kept(names, max).len() < max ==> occurrences(
            names,
            name,
        ) == 0,
        forall|key: Name|
            kept(names.push(name), max).contains(key) <==> #[trigger] kept(names, max).contains(key)
                || (key == name && !kept(names, max).contains(name) && kept(names, max).len()
                < max),
{
    let before = firsts(names);
    let now = kept(names, max);
    lemma_firsts(names);
    assert(names.push(name).drop_last() =~= names);
    if before.len() < max {
        assert(now =~= before);
        assert(before.contains(name) <==> occurrences(names, name) > 0);
        if before.contains(name) {
            assert(kept(names.push(name), max) =~= now);
        } else {
            assert(kept(names.push(name), max) =~= before.push(name));
        }
    } else if before.contains(name) {
        assert(kept(names.push(name), max) =~= now);
    } else {
        assert(before.push(name).take(max as int) =~= before.take(max as int));
    }
    assert forall|key: Name|
        kept(names.push(name), max).contains(key) <==> #[trigger] now.contains(key) || (key == name
            && !now.contains(name) && now.len() < max) by {
        lemma_contains_push(now, name, key);
    }
}

/// A name that does not occur makes no difference to how many are left out.
pub proof fn lemma_left_out(names: Seq<Name>, list: Seq<Name>, name: Name)
    requires
        occurrences(names, name) == 0,
    ensures
        left_out(names, list.push(name)) == left_out(names, list),
    decreases names.len(),
{
    if names.len() > 0 {
        lemma_left_out(names.drop_last(), list, name);
        lemma_contains_push(list, name, names.last());
    }
}

/// No count exceeds the sum of all of them.
pub proof fn lemma_count_within_total(rows: Seq<(Name, nat)>, key: Name)
    ensures
        count_of(rows, key) <= total(rows),
    decreases rows.len(),
{
    if rows.len() > 0 && rows[0].0 != key {
        lemma_count_within_total(rows.drop_first(), key);
    }
}

impl Tally {
    /// Whether the names are in order, each of them once.
    pub open spec fn wf(&self) -> bool {
        table::sorted(self@)
    }

    /// A tally of nothing.
    pub fn new() -> (tally: Tally)
        ensures
            tally.wf(),
            tally@ == Seq::<(Name, nat)>::empty(),
    {
        Tally { table: Table::new() }
    }

    /// The number of different names.
    pub fn len(&self) -> (n: usize)
        ensures
            n == self@.len(),
    {
        self.table.len()
    }

    /// Whether nothing was seen.
    pub fn is_empty(&self) -> (empty: bool)
        ensures
            empty == (self@.len() == 0),
    {
        self.table.is_empty()
    }

    /// The count of `key`.
    pub fn get(&self, key: &str) -> (count: Option<&u64>)
        requires
            self.wf(),
        ensures
            count matches Some(n) ==> table::lookup(self@, key@) == Some(*n as nat),
            count is None <==> table::lookup(self@, key@) is None,
    {
        match self.table.get(key) {
            Some(count) => Some(&count.n),
            None => None,
        }
    }

    /// Whether `key` was seen.
    pub fn contains_key(&self, key: &str) -> (found: bool)
        requires
            self.wf(),
        ensures
            found == table::lookup(self@, key@) is Some,
    {
        self.table.contains_key(key)
    }

    /// The name of row number `i`.
    pub fn name_at(&self, i: usize) -> (name: &String)
        requires
            i < self@.len(),
        ensures
            name@ == self@[i as int].0,
    {
        self.table.key_at(i)
    }

    /// The count of row number `i`.
    pub fn count_at(&self, i: usize) -> (n: u64)
        requires
            i < self@.len(),
        ensures
            n == self@[i as int].1,
    {
        self.table.value_at(i).n
    }

    /// Counts `key` once more.
    pub fn bump(&mut self, key: &str)
        requires
            old(self).wf(),
            count_of(old(self)@, key@) < u64::MAX,
        ensures
            final(self).wf(),
            final(self)@ == bumped(old(self)@, key@),
    {
        proof {
            lemma_bumped(self@, key@);
        }
        match self.table.find(key) {
            Ok(i) => {
                proof {
                    table::lemma_hit(self@, key@, count_of(self@, key@) + 1, i as int);
                }
                let count: &mut Count = self.table.value_at_mut(i);
                count.n = count.n + 1;
            },
            Err(i) => {
                proof {
                    table::lemma_miss(self@, key@, 1, i as int);
                }
                self.table.insert_at(i, key.to_owned(), Count { n: 1 });
            },
        }
    }

    /// The names with their counts, the most frequent first; of names seen equally often, the
    /// one that comes first in name order.
    pub fn by_frequency(&self) -> (rows: Vec<(&str, u64)>)
        ensures
            rows_model(rows@) == ranked(self@),
    {
        let mut rows: Vec<(&str, u64)> = Vec::new();
        let mut i: usize = 0;
        assert(rows_model(rows@) =~= ranked(self@.take(0)));
        while i < self.len()
            invariant
                i <= self@.len(),
                rows_model(rows@) == ranked(self@.take(i as int)),
            decreases self@.len() - i,
        {
            let name: &str = self.name_at(i).as_str();
            let n: u64 = self.count_at(i);
            proof {
                assert(self@.take(i + 1).drop_last() =~= self@.take(i as int));
            }
            insert_ranked_row(&mut rows, name, n);
            i = i + 1;
        }
        assert(self@.take(i as int) =~= self@);
        rows
    }
}

// ---------------------------------------------------------------------------------------------
// Ranking
// ---------------------------------------------------------------------------------------------

/// Whether the row `a` ranks strictly before the row `b`.
pub open spec fn ranks_before(a: (Name, nat), b: (Name, nat)) -> bool {
    a.1 > b.1 || (a.1 == b.1 && table::name_before(a.0, b.0))
}

/// `rows` with `row` put before the first row that it ranks before.
pub open spec fn insert_ranked(rows: Seq<(Name, nat)>, row: (Name, nat)) -> Seq<(Name, nat)>
    decreases rows.len(),
{
    if rows.len() == 0 {
        seq![row]
    } else if ranks_before(row, rows[0]) {
        seq![row] + rows
    } else {
        seq![rows[0]] + insert_ranked(rows.drop_first(), row)
    }
}

/// `rows` in ranking order: the higher counts first, equal counts by name.
pub open spec fn ranked(rows: Seq<(Name, nat)>) -> Seq<(Name, nat)>
    decreases rows.len(),
{
    if rows.len() == 0 {
        Seq::empty()
    } else {
        insert_ranked(ranked(rows.drop_last()), rows.last())
    }
}

/// Whether no row ranks before a row that precedes it.
pub open spec fn in_rank_order(rows: Seq<(Name, nat)>) -> bool {
    forall|i: int, j: int|
        0 <= i < j < rows.len() ==> !ranks_before(#[trigger] rows[j], #[trigger] rows[i])
}

/// The rows that a vector of names with counts holds.
pub open spec fn rows_model(rows: Seq<(&str, u64)>) -> Seq<(Name, nat)> {
    rows.map_values(|row: (&str, u64)| (row.0@, row.1 as nat))
}

proof fn lemma_rank_transitive(a: (Name, nat), b: (Name, nat), c: (Name, nat))
    requires
        !ranks_before(b, a),
        !ranks_before(c, b),
    ensures
        !ranks_before(c, a),
{
    table::lemma_names_total(a.0, b.0);
    table::lemma_names_total(b.0, c.0);
    table::lemma_names_total(a.0, c.0);
    if ranks_before(c, a) && a.1 == c.1 {
        if a.0 != b.0 && b.0 != c.0 {
            table::lemma_names_transitive(a.0, b.0, c.0);
        }
    }
}

proof fn lemma_rank_antisymmetric(a: (Name, nat), b: (Name, nat))
    ensures
        !(ranks_before(a, b) && ranks_before(b, a)),
{
    table::lemma_names_total(a.0, b.0);
}

/// Inserting a row into rows in ranking order is inserting it at a position with lower ranks
/// after it and none of them before it.
proof fn lemma_insert_ranked_at(rows: Seq<(Name, nat)>, row: (Name, nat), i: int)
    requires
        0 <= i <= rows.len(),
        forall|k: int| 0 <= k < i ==> !ranks_before(row, #[trigger] rows[k]),
        i < rows.len() ==> ranks_before(row, rows[i]),
    ensures
        insert_ranked(rows, row) == rows.insert(i, row),
    decreases rows.len(),
{
    if rows.len() == 0 || i == 0 {
        assert(insert_ranked(rows, row) =~= rows.insert(i, row));
    } else {
        let rest = rows.drop_first();
        assert forall|k: int| 0 <= k < i - 1 implies !ranks_before(row, #[trigger] rest[k]) by {
            assert(rest[k] == rows[k + 1]);
        }
        lemma_insert_ranked_at(rest, row, i - 1);
        assert(insert_ranked(rows, row) =~= rows.insert(i, row));
    }
}

proof fn lemma_insert_ranked(rows: Seq<(Name, nat)>, row: (Name, nat))
    requires
        in_rank_order(rows),
    ensures
        in_rank_order(insert_ranked(rows, row)),
        insert_ranked(rows, row).to_multiset() == rows.to_multiset().insert(row),
        insert_ranked(rows, row).len() == rows.len() + 1,
    decreases rows.len(),
{
    broadcast use vstd::seq_lib::group_to_multiset_ensures;

    let new = insert_ranked(rows, row);
    if rows.len() == 0 {
        assert(new =~= rows.push(row));
    } else if ranks_before(row, rows[0]) {
        assert(new =~= rows.insert(0, row));
        assert forall|i: int, j: int| 0 <= i < j < new.len() implies !ranks_before(
            #[trigger] new[j],
            #[trigger] new[i],
        ) by {
            if i == 0 {
                assert(new[j] == rows[j - 1]);
                lemma_rank_antisymmetric(row, rows[0]);
                if j > 1 {
                    lemma_rank_transitive(row, rows[0], rows[j - 1]);
                }
            } else {
                assert(new[i] == rows[i - 1] && new[j] == rows[j - 1]);
            }
        }
    } else {
        let rest = rows.drop_first();
        assert forall|i: int, j: int| 0 <= i < j < rest.len() implies !ranks_before(
            #[trigger] rest[j],
            #[trigger] rest[i],
        ) by {
            assert(rest[i] == rows[i + 1] && rest[j] == rows[j + 1]);
        }
        lemma_insert_ranked(rest, row);
        let tail = insert_ranked(rest, row);
        assert(new =~= tail.insert(0, rows[0]));
        assert(rows =~= rest.insert(0, rows[0]));
        assert(new.to_multiset() =~= rows.to_multiset().insert(row));
        assert forall|i: int, j: int| 0 <= i < j < new.len() implies !ranks_before(
            #[trigger] new[j],
            #[trigger] new[i],
        ) by {
            assert(new[j] == tail[j - 1]);
            if i > 0 {
                assert(new[i] == tail[i - 1]);
            } else {
                assert(tail.to_multiset().contains(tail[j - 1]));
                if tail[j - 1] != row {
                    assert(rest.to_multiset().contains(tail[j - 1]));
                    let k = choose|k: int| 0 <= k < rest.len() && rest[k] == tail[j - 1];
                    assert(rest.contains(tail[j - 1]));
                    assert(rows[k + 1] == tail[j - 1]);
                }
            }
        }
    }
}

/// Ranking keeps every row, adds none, and leaves no row before one that outranks it.
pub proof fn law_ranking_sorts(rows: Seq<(Name, nat)>)
    ensures
        in_rank_order(ranked(rows)),
        ranked(rows).to_multiset() == rows.to_multiset(),
        ranked(rows).len() == rows.len(),
    decreases rows.len(),
{
    broadcast use vstd::seq_lib::group_to_multiset_ensures;

    if rows.len() > 0 {
        law_ranking_sorts(rows.drop_last());
        lemma_insert_ranked(ranked(rows.drop_last()), rows.last());
        assert(rows =~= rows.drop_last().push(rows.last()));
    } else {
        assert(ranked(rows) =~= rows);
    }
}

/// Puts a row into rows that are in ranking order.
pub fn insert_ranked_row<'a>(rows: &mut Vec<(&'a str, u64)>, name: &'a str, n: u64)
    requires
        exists|source: Seq<(Name, nat)>| rows_model(old(rows)@) == ranked(source),
    ensures
        rows_model(final(rows)@) == insert_ranked(rows_model(old(rows)@), (name@, n as nat)),
{
    let ghost model = rows_model(rows@);
    let ghost row = (name@, n as nat);
    proof {
        let source = choose|source: Seq<(Name, nat)>| model == ranked(source);
        law_ranking_sorts(source);
    }
    let mut low: usize = 0;
    let mut high: usize = rows.len();
    while low < high
        invariant
            low <= high <= rows@.len(),
            model == rows_model(rows@),
            in_rank_order(model),
            row == (name@, n as nat),
            forall|k: int| 0 <= k < low ==> !ranks_before(row, #[trigger] model[k]),
            forall|k: int| high <= k < model.len() ==> ranks_before(row, #[trigger] model[k]),
        decreases high - low,
    {
        let mid: usize = low + (high - low) / 2;
        let other: (&str, u64) = rows[mid];
        assert(model[mid as int] == (other.0@, other.1 as nat));
        let first: bool = n > other.1 || (n == other.1 && match side_of(name, other.0) {
            Side::Before => true,
            _ => false,
        });
        assert(first == ranks_before(row, model[mid as int]));
        if first {
            proof {
                assert forall|k: int| mid <= k < model.len() implies ranks_before(
                    row,
                    #[trigger] model[k],
                ) by {
                    if k > mid && !ranks_before(row, model[k]) {
                        lemma_rank_transitive(model[mid as int], model[k], row);
                    }
                }
            }
            high = mid;
        } else {
            proof {
                assert forall|k: int| 0 <= k < mid + 1 implies !ranks_before(
                    row,
                    #[trigger] model[k],
                ) by {
                    if k < mid {
                        lemma_rank_transitive(model[k], model[mid as int], row);
                    }
                }
            }
            low = mid + 1;
        }
    }
    proof {
        lemma_insert_ranked_at(model, row, low as int);
    }
    rows.insert(low, (name, n));
    assert(rows_model(rows@) =~= model.insert(low as int, row));
}

/// Whether `rows` hold the names that `counts` counts at all, each once and with its count.
pub open spec fn is_count(rows: Seq<(Name, nat)>, counts: spec_fn(Name) -> nat) -> bool {
    &&& forall|i: int|
        0 <= i < rows.len() ==> counts((#[trigger] rows[i]).0) == rows[i].1 && rows[i].1 > 0
    &&& forall|name: Name|
        #[trigger] counts(name) > 0 ==> exists|i: int| 0 <= i < rows.len() && rows[i].0 == name
    &&& forall|i: int, j: int|
        0 <= i < j < rows.len() ==> (#[trigger] rows[i]).0 != (#[trigger] rows[j]).0
}

/// Whether higher counts come first in `rows`, and of equal counts the name that comes first.
pub open spec fn goes_down(rows: Seq<(Name, nat)>) -> bool {
    forall|i: int, j: int|
        0 <= i < j < rows.len() ==> (#[trigger] rows[i]).1 > (#[trigger] rows[j]).1 || (rows[i].1
            == rows[j].1 && table::name_before(rows[i].0, rows[j].0))
}

proof fn lemma_row_is_found(rows: Seq<(Name, nat)>, key: Name)
    requires
        table::sorted(rows),
    ensures
        table::lookup(rows, key) matches Some(n) ==> rows.contains((key, n)),
        forall|n: nat| rows.contains((key, n)) ==> table::lookup(rows, key) == Some(n),
{
    let i = table::lemma_find(rows, key);
    if i < rows.len() && rows[i].0 == key {
        table::lemma_hit(rows, key, rows[i].1, i);
        assert(rows.contains(rows[i]));
    } else {
        table::lemma_miss(rows, key, 0, i);
    }
    assert forall|n: nat| rows.contains((key, n)) implies table::lookup(rows, key) == Some(n) by {
        let k = choose|k: int| 0 <= k < rows.len() && rows[k] == (key, n);
        table::lemma_hit(rows, key, n, k);
    }
}

/// The ranking of a tally lists every name that was counted once, with its count, from the
/// highest count down and by name where counts are equal.
pub proof fn law_ranking_is_by_count_and_name(
    rows: Seq<(Name, nat)>,
    counts: spec_fn(Name) -> nat,
)
    requires
        table::sorted(rows),
        all_seen(rows),
        forall|name: Name| #[trigger] counts(name) == count_of(rows, name),
    ensures
        is_count(rows, counts),
        is_count(ranked(rows), counts),
        goes_down(ranked(rows)),
{
    broadcast use vstd::seq_lib::group_to_multiset_ensures;

    let list = ranked(rows);
    law_ranking_sorts(rows);
    assert forall|i: int| 0 <= i < rows.len() implies counts((#[trigger] rows[i]).0) == rows[i].1
        && rows[i].1 > 0 by {
        table::lemma_hit(rows, rows[i].0, rows[i].1, i);
    }
    assert forall|i: int, j: int| 0 <= i < j < rows.len() implies (#[trigger] rows[i]).0 != (
    #[trigger] rows[j]).0 by {
        assert(table::name_before(rows[i].0, rows[j].0));
        table::lemma_names_total(rows[i].0, rows[j].0);
    }
    assert forall|name: Name| #[trigger] counts(name) > 0 implies exists|i: int|
        0 <= i < rows.len() && rows[i].0 == name by {
        lemma_row_is_found(rows, name);
        let n = count_of(rows, name);
        assert(rows.contains((name, n)));
        let k = choose|k: int| 0 <= k < rows.len() && rows[k] == (name, n);
        assert(rows[k].0 == name);
    }
    assert forall|i: int| 0 <= i < list.len() implies counts((#[trigger] list[i]).0) == list[i].1
        && list[i].1 > 0 by {
        assert(list.to_multiset().count(list[i]) > 0);
        assert(rows.contains(list[i]));
    }
    assert forall|name: Name| #[trigger] counts(name) > 0 implies exists|i: int|
        0 <= i < list.len() && list[i].0 == name by {
        let k = choose|k: int| 0 <= k < rows.len() && rows[k].0 == name;
        assert(rows.contains(rows[k]));
        assert(rows.to_multiset().count(rows[k]) > 0);
        assert(list.contains(rows[k]));
        let j = choose|j: int| 0 <= j < list.len() && list[j] == rows[k];
        assert(list[j].0 == name);
    }
    lemma_rows_differ(rows);
    rows.lemma_multiset_has_no_duplicates();
    assert(list.to_multiset().len() == list.len());
    lemma_ranked_differ(rows);
    assert forall|i: int, j: int| 0 <= i < j < list.len() implies (#[trigger] list[i]).0 != (
    #[trigger] list[j]).0 by {
        assert(list[i] != list[j]);
        assert(counts(list[i].0) == list[i].1);
        assert(counts(list[j].0) == list[j].1);
    }
    assert forall|i: int, j: int| 0 <= i < j < list.len() implies (#[trigger] list[i]).1 > (
    #[trigger] list[j]).1 || (list[i].1 == list[j].1 && table::name_before(
        list[i].0,
        list[j].0,
    )) by {
        assert(!ranks_before(list[j], list[i]));
        table::lemma_names_total(list[i].0, list[j].0);
    }
}

proof fn lemma_rows_differ(rows: Seq<(Name, nat)>)
    requires
        table::sorted(rows),
    ensures
        rows.no_duplicates(),
{
    assert forall|i: int, j: int| 0 <= i < rows.len() && 0 <= j < rows.len() && i != j implies (
    #[trigger] rows[i]) != (#[trigger] rows[j]) by {
        if i < j {
            assert(table::name_before(rows[i].0, rows[j].0));
        } else {
            assert(table::name_before(rows[j].0, rows[i].0));
        }
        table::lemma_names_total(rows[i].0, rows[j].0);
    }
}

proof fn lemma_ranked_differ(rows: Seq<(Name, nat)>)
    requires
        rows.no_duplicates(),
    ensures
        ranked(rows).no_duplicates(),
{
    broadcast use vstd::seq_lib::group_to_multiset_ensures;

    let list = ranked(rows);
    law_ranking_sorts(rows);
    rows.lemma_multiset_has_no_duplicates();
    assert forall|i: int, j: int| 0 <= i < list.len() && 0 <= j < list.len() && i != j implies (
    #[trigger] list[i]) != (#[trigger] list[j]) by {
        if list[i] == list[j] {
            let (a, b) = if i < j {
                (i, j)
            } else {
                (j, i)
            };
            let head = list.take(b);
            let tail = list.skip(b);
            assert(list =~= head + tail);
            vstd::seq_lib::lemma_multiset_commutative(head, tail);
            assert(head[a] == list[a]);
            assert(tail[0] == list[b]);
            assert(head.contains(list[a]));
            assert(tail.contains(list[a]));
            assert(head.to_multiset().count(list[a]) > 0);
            assert(tail.to_multiset().count(list[a]) > 0);
            assert(list.to_multiset().count(list[a]) >= 2);
            assert(rows.to_multiset().contains(list[a]));
        }
    }
}

/// Those of `names` that are among `list`.
pub open spec fn only(names: Seq<Name>, list: Seq<Name>) -> Seq<Name>
    decreases names.len(),
{
    if names.len() == 0 {
        Seq::empty()
    } else if list.contains(names.last()) {
        only(names.drop_last(), list).push(names.last())
    } else {
        only(names.drop_last(), list)
    }
}

/// A name occurs among those of `names` that are in `list` as often as before, or not at all.
pub proof fn lemma_only(names: Seq<Name>, list: Seq<Name>, key: Name)
    ensures
        occurrences(only(names, list), key) == (if list.contains(key) {
            occurrences(names, key)
        } else {
            0
        }),
    decreases names.len(),
{
    if names.len() > 0 {
        lemma_only(names.drop_last(), list, key);
        let before = only(names.drop_last(), list);
        assert(before.push(names.last()).drop_last() =~= before);
    }
}

/// In a tally every name was seen.
pub proof fn lemma_tally_is_seen(names: Seq<Name>)
    ensures
        all_seen(tally_of(names)),
    decreases names.len(),
{
    if names.len() > 0 {
        lemma_tally_is_seen(names.drop_last());
        law_tally_counts_occurrences(names.drop_last());
        lemma_bumped(tally_of(names.drop_last()), names.last());
    }
}

/// The different ones of `names` stand in the order in which they first appear: each new one
/// goes behind those before it, and a repeated one changes nothing.
pub proof fn law_firsts_keep_their_order(names: Seq<Name>, i: int, j: int)
    requires
        0 <= i < j < names.len(),
        !names.take(j).contains(names[j]),
        !names.take(i).contains(names[i]),
    ensures
        firsts(names).contains(names[i]),
        firsts(names).contains(names[j]),
        firsts(names).index_of(names[i]) < firsts(names).index_of(names[j]),
    decreases names.len(),
{
    let init = names.drop_last();
    let before = firsts(init);
    lemma_firsts(names);
    lemma_firsts(init);
    assert(names.take(j) =~= init.take(j));
    assert(names.take(i) =~= init.take(i));
    if j < names.len() - 1 {
        law_firsts_keep_their_order(init, i, j);
        lemma_index_push(before, names.last(), names[i]);
        lemma_index_push(before, names.last(), names[j]);
    } else {
        assert(init.take(j) =~= init);
        lemma_occurs(init, i);
        assert(before.contains(names[i]));
        if before.contains(names[j]) {
            lemma_occurrence(init, names[j]);
        }
        let after = before.push(names[j]);
        lemma_index_push(before, names.last(), names[i]);
        assert(after[before.len() as int] == names[j]);
        assert(after.contains(names[j]));
        let k = after.index_of(names[j]);
        assert(after[k] == names[j]);
        if k < before.len() {
            assert(before[k] == names[j]);
        }
    }
}

proof fn lemma_index_push(list: Seq<Name>, name: Name, key: Name)
    requires
        list.contains(key),
        list.no_duplicates(),
    ensures
        0 <= list.index_of(key) < list.len(),
        !list.contains(name) ==> list.push(name).contains(key) && list.push(name).index_of(key)
            == list.index_of(key),
{
    let k = list.index_of(key);
    if !list.contains(name) {
        let more = list.push(name);
        assert(more[k] == key);
        assert(more.contains(key));
        let j = more.index_of(key);
        assert(more[j] == key);
        if j < list.len() {
            assert(list[j] == key);
        }
    }
}

proof fn lemma_occurs(names: Seq<Name>, i: int)
    requires
        0 <= i < names.len(),
    ensures
        occurrences(names, names[i]) > 0,
    decreases names.len(),
{
    if i < names.len() - 1 {
        lemma_occurs(names.drop_last(), i);
    }
}

proof fn lemma_occurrence(names: Seq<Name>, key: Name)
    requires
        occurrences(names, key) > 0,
    ensures
        names.contains(key),
    decreases names.len(),
{
    if names.last() == key {
        assert(names[names.len() - 1] == key);
    } else {
        lemma_occurrence(names.drop_last(), key);
        let k = choose|k: int| 0 <= k < names.len() - 1 && names.drop_last()[k] == key;
        assert(names[k] == key);
    }
}

/// How often each of the names occurs that are among the first `max` different ones.
pub open spec fn held(names: Seq<Name>, max: nat) -> Seq<(Name, nat)> {
    tally_of(only(names, kept(names, max)))
}

/// How many of `names` are not among the first `max` different ones.
pub open spec fn turned_away(names: Seq<Name>, max: nat) -> nat {
    left_out(names, kept(names, max))
}

/// A table that has the first different names, each with all its occurrences, is their tally.
pub proof fn lemma_held(rows: Seq<(Name, nat)>, names: Seq<Name>, max: nat)
    requires
        table::sorted(rows),
        forall|name: Name| #[trigger]
            table::lookup(rows, name) is Some <==> kept(names, max).contains(name),
        forall|name: Name| #[trigger]
            table::lookup(rows, name) matches Some(n) ==> n == occurrences(names, name),
    ensures
        rows == held(names, max),
{
    let first = kept(names, max);
    let picked = only(names, first);
    law_tally_counts_occurrences(picked);
    lemma_tally_is_seen(picked);
    lemma_firsts(names);
    assert forall|name: Name| first.contains(name) implies occurrences(names, name) > 0 by {
        let k = choose|k: int| 0 <= k < first.len() && first[k] == name;
        assert(firsts(names)[k] == name);
        assert(firsts(names).contains(name));
    }
    assert forall|i: int| 0 <= i < rows.len() implies (#[trigger] rows[i]).1 >= 1 by {
        table::lemma_hit(rows, rows[i].0, rows[i].1, i);
        assert(table::lookup(rows, rows[i].0) is Some);
        assert(first.contains(rows[i].0));
    }
    assert forall|name: Name| #[trigger] count_of(rows, name) == count_of(
        held(names, max),
        name,
    ) by {
        lemma_only(names, first, name);
        assert(table::lookup(rows, name) is Some <==> first.contains(name));
    }
    lemma_same_tally(rows, held(names, max));
}

/// No name is turned away where there is room for all, and some are where there is not.
pub proof fn lemma_turned_away(names: Seq<Name>, max: nat)
    ensures
        firsts(names).len() <= max ==> kept(names, max).len() == firsts(names).len()
            && turned_away(names, max) == 0,
        firsts(names).len() > max ==> kept(names, max).len() == max && turned_away(names, max) > 0,
{
    let all = firsts(names);
    let list = kept(names, max);
    lemma_firsts(names);
    if all.len() <= max {
        assert(list =~= all);
        assert forall|i: int| 0 <= i < names.len() implies list.contains(#[trigger] names[i]) by {
            lemma_occurs(names, i);
            assert(all.contains(names[i]));
        }
        lemma_none_left_out(names, list);
    } else {
        let name = all[max as int];
        assert(all.contains(name));
        lemma_occurrence(names, name);
        assert(!list.contains(name)) by {
            if list.contains(name) {
                let k = choose|k: int| 0 <= k < list.len() && list[k] == name;
                assert(all[k] == name);
            }
        }
        lemma_some_left_out(names, list, name);
    }
}

proof fn lemma_none_left_out(names: Seq<Name>, list: Seq<Name>)
    requires
        forall|i: int| 0 <= i < names.len() ==> list.contains(#[trigger] names[i]),
    ensures
        left_out(names, list) == 0,
    decreases names.len(),
{
    if names.len() > 0 {
        assert(list.contains(names[names.len() - 1]));
        assert forall|i: int| 0 <= i < names.len() - 1 implies list.contains(
            #[trigger] names.drop_last()[i],
        ) by {
            assert(list.contains(names[i]));
        }
        lemma_none_left_out(names.drop_last(), list);
    }
}

proof fn lemma_some_left_out(names: Seq<Name>, list: Seq<Name>, name: Name)
    requires
        names.contains(name),
        !list.contains(name),
    ensures
        left_out(names, list) > 0,
    decreases names.len(),
{
    if names.last() != name {
        let k = choose|k: int| 0 <= k < names.len() && names[k] == name;
        assert(names.drop_last()[k] == name);
        lemma_some_left_out(names.drop_last(), list, name);
    }
}

} // verus!

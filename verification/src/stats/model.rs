//! What a health check has seen, as a mathematical object, and how each line changes it.
use crate::hist;
use crate::hist::HistModel;
use crate::json::model;
use crate::json::model::Json;
use crate::lines;
use crate::lines::LineModel;
use crate::path;
use crate::path::PathModel;
use crate::record;
use crate::render;
use crate::table;
use crate::table::Name;
use crate::tally;
use vstd::prelude::*;

verus! {

/// What is known of a broken line.
#[verifier::ext_equal]
pub struct IssueModel {
    pub line: nat,
    pub column: nat,
    pub reason: Seq<char>,
}

/// What is known of a top level key.
#[verifier::ext_equal]
pub struct KeyModel {
    pub count: nat,
    pub types: Seq<(Name, nat)>,
}

/// The top level keys, and how many occurrences found no room.
#[verifier::ext_equal]
pub struct KeysModel {
    pub rows: Seq<(Name, KeyModel)>,
    pub dropped: nat,
}

/// What is known of a field.
#[verifier::ext_equal]
pub struct FieldModel {
    pub path: PathModel,
    pub records_matched: nat,
    pub records_missing: nat,
    pub values: nat,
    pub types: Seq<(Name, nat)>,
    pub distinct: Seq<(Name, nat)>,
    pub distinct_dropped: nat,
}

/// The limits and the fields of a health check.
#[verifier::ext_equal]
pub struct OptionsModel {
    pub max_issues: nat,
    pub max_keys: nat,
    pub max_distinct: nat,
    pub fields: Seq<PathModel>,
}

/// The limits of a check that asks for no others.
pub open spec fn default_options() -> OptionsModel {
    OptionsModel { max_issues: 10, max_keys: 512, max_distinct: 10_000, fields: Seq::empty() }
}

/// What a health check has seen.
#[verifier::ext_equal]
pub struct StatsModel {
    pub options: OptionsModel,
    pub lines: nat,
    pub bytes: nat,
    pub blank: nat,
    pub valid: nat,
    pub invalid: nat,
    pub objects: nat,
    pub issues: Seq<IssueModel>,
    pub lengths: HistModel,
    pub types: Seq<(Name, nat)>,
    pub keys: KeysModel,
    pub fields: Seq<FieldModel>,
}

// ---------------------------------------------------------------------------------------------
// Steps
// ---------------------------------------------------------------------------------------------

/// A field before the first record.
pub open spec fn fresh_field(path: PathModel) -> FieldModel {
    FieldModel {
        path,
        records_matched: 0,
        records_missing: 0,
        values: 0,
        types: Seq::empty(),
        distinct: Seq::empty(),
        distinct_dropped: 0,
    }
}

/// A health check before the first line.
pub open spec fn fresh(options: OptionsModel) -> StatsModel {
    StatsModel {
        options,
        lines: 0,
        bytes: 0,
        blank: 0,
        valid: 0,
        invalid: 0,
        objects: 0,
        issues: Seq::empty(),
        lengths: hist::nothing(),
        types: Seq::empty(),
        keys: KeysModel { rows: Seq::empty(), dropped: 0 },
        fields: Seq::new(options.fields.len(), |i: int| fresh_field(options.fields[i])),
    }
}

/// `stat`, if there is one, after one more value of type `label`.
pub open spec fn key_seen(stat: Option<KeyModel>, label: Name) -> KeyModel {
    match stat {
        Some(k) => KeyModel { count: k.count + 1, types: tally::bumped(k.types, label) },
        None => KeyModel { count: 1, types: tally::bumped(Seq::empty(), label) },
    }
}

/// The keys after one more member, which is called `name` and whose value has type `label`. A
/// key that is not known yet needs room: there are never more than `max` keys.
pub open spec fn with_member(keys: KeysModel, max: nat, name: Name, label: Name) -> KeysModel {
    let known = table::lookup(keys.rows, name);
    if known is Some || keys.rows.len() < max {
        KeysModel { rows: table::placed(keys.rows, name, key_seen(known, label)), ..keys }
    } else {
        KeysModel { dropped: keys.dropped + 1, ..keys }
    }
}

/// The keys after all of `members`.
pub open spec fn with_members(
    keys: KeysModel,
    max: nat,
    members: Seq<(Name, Json)>,
) -> KeysModel
    decreases members.len(),
{
    if members.len() == 0 {
        keys
    } else {
        with_member(
            with_members(keys, max, members.drop_last()),
            max,
            members.last().0,
            model::type_label(members.last().1),
        )
    }
}

/// A field after one more selected value. There are never more than `max` distinct ones.
pub open spec fn with_found(field: FieldModel, max: nat, v: Json) -> FieldModel {
    let words = render::rendered(v);
    let counted = FieldModel {
        values: field.values + 1,
        types: tally::bumped(field.types, model::type_label(v)),
        ..field
    };
    if table::lookup(field.distinct, words) is Some || field.distinct.len() < max {
        FieldModel { distinct: tally::bumped(field.distinct, words), ..counted }
    } else {
        FieldModel { distinct_dropped: field.distinct_dropped + 1, ..counted }
    }
}

/// A field after all of `found`.
pub open spec fn with_all_found(field: FieldModel, max: nat, found: Seq<Json>) -> FieldModel
    decreases found.len(),
{
    if found.len() == 0 {
        field
    } else {
        with_found(with_all_found(field, max, found.drop_last()), max, found.last())
    }
}

/// A field after one more record.
pub open spec fn field_observed(field: FieldModel, max: nat, v: Json) -> FieldModel {
    let found = path::select(field.path.steps, v);
    if found.len() == 0 {
        FieldModel { records_missing: field.records_missing + 1, ..field }
    } else {
        with_all_found(
            FieldModel { records_matched: field.records_matched + 1, ..field },
            max,
            found,
        )
    }
}

/// The `n` most frequent of `rows`, most frequent first.
pub open spec fn top_rows(rows: Seq<(Name, nat)>, n: nat) -> Seq<(Name, nat)> {
    let ranked = tally::ranked(rows);
    ranked.take(if ranked.len() < n {
        ranked.len() as int
    } else {
        n as int
    })
}

/// `m` after the value of a valid line.
pub open spec fn recorded(m: StatsModel, v: Json) -> StatsModel {
    let max = m.options.max_distinct;
    StatsModel {
        types: tally::bumped(m.types, model::type_label(v)),
        objects: if v is Object {
            m.objects + 1
        } else {
            m.objects
        },
        keys: match v {
            Json::Object(members) => with_members(m.keys, m.options.max_keys, members),
            _ => m.keys,
        },
        fields: Seq::new(m.fields.len(), |i: int| field_observed(m.fields[i], max, v)),
        ..m
    }
}

/// The issues after one more, of which no more than `max` are kept.
pub open spec fn with_issue(
    issues: Seq<IssueModel>,
    max: nat,
    issue: IssueModel,
) -> Seq<IssueModel> {
    if issues.len() < max {
        issues.push(issue)
    } else {
        issues
    }
}

/// `m` after one more line.
pub open spec fn observed(m: StatsModel, line: LineModel) -> StatsModel {
    let taken = StatsModel { lines: m.lines + 1, bytes: m.bytes + line.raw_len, ..m };
    if lines::is_blank(line.bytes) {
        StatsModel { blank: m.blank + 1, ..taken }
    } else {
        let measured = StatsModel { lengths: hist::recorded(m.lengths, line.bytes.len()), ..taken };
        match record::reading(line.bytes) {
            Ok(v) => recorded(StatsModel { valid: m.valid + 1, ..measured }, v),
            Err((column, reason)) => StatsModel {
                invalid: m.invalid + 1,
                issues: with_issue(
                    m.issues,
                    m.options.max_issues,
                    (IssueModel { line: line.number, column, reason }),
                ),
                ..measured
            },
        }
    }
}

/// `m` after all of `all`.
pub open spec fn observed_all(m: StatsModel, all: Seq<LineModel>) -> StatsModel
    decreases all.len(),
{
    if all.len() == 0 {
        m
    } else {
        observed(observed_all(m, all.drop_last()), all.last())
    }
}

/// The health check of the file that holds `data`.
pub open spec fn stats_of(data: Seq<u8>, options: OptionsModel) -> StatsModel {
    observed_all(fresh(options), lines::lines_of(data))
}

// ---------------------------------------------------------------------------------------------
// What always holds
// ---------------------------------------------------------------------------------------------

/// The sum of the counts of all keys.
pub open spec fn keys_total(rows: Seq<(Name, KeyModel)>) -> nat
    decreases rows.len(),
{
    if rows.len() == 0 {
        0
    } else {
        rows[0].1.count + keys_total(rows.drop_first())
    }
}

/// Whether the counts of the types add up to the count of the key.
pub open spec fn key_adds_up(key: KeyModel) -> bool {
    table::sorted(key.types) && tally::total(key.types) == key.count
}

/// Whether the keys are in order, no more than `max`, and the types of each add up.
pub open spec fn keys_add_up(keys: KeysModel, max: nat) -> bool {
    &&& table::sorted(keys.rows)
    &&& keys.rows.len() <= max
    &&& forall|i: int| 0 <= i < keys.rows.len() ==> key_adds_up(#[trigger] keys.rows[i].1)
}

/// Whether the counts of a field add up, with no more than `max` distinct values.
pub open spec fn field_adds_up(field: FieldModel, max: nat) -> bool {
    &&& field.records_matched <= field.values
    &&& table::sorted(field.types)
    &&& tally::total(field.types) == field.values
    &&& table::sorted(field.distinct)
    &&& tally::total(field.distinct) + field.distinct_dropped == field.values
    &&& field.distinct.len() <= max
    &&& field.distinct.len() <= tally::total(field.distinct)
}

/// Whether the fields are those that were asked for, each of the `valid` records counts once
/// for each, and none has more values than there were bytes.
pub open spec fn fields_add_up(m: StatsModel) -> bool {
    &&& m.fields.len() == m.options.fields.len()
    &&& forall|i: int|
        0 <= i < m.fields.len() ==> {
            let f = #[trigger] m.fields[i];
            &&& f.path == m.options.fields[i]
            &&& field_adds_up(f, m.options.max_distinct)
            &&& f.records_matched + f.records_missing == m.valid
            &&& f.values <= m.bytes
        }
}

/// Whether every line counts once and all the counts add up.
pub open spec fn adds_up(m: StatsModel) -> bool {
    &&& m.lines == m.blank + m.valid + m.invalid
    &&& m.objects <= m.valid
    &&& m.valid + m.invalid <= m.bytes
    &&& m.issues.len() == (if m.invalid < m.options.max_issues {
        m.invalid
    } else {
        m.options.max_issues
    })
    &&& hist::consistent(m.lengths)
    &&& m.lengths.count == m.valid + m.invalid
    &&& m.lengths.sum <= m.bytes
    &&& table::sorted(m.types)
    &&& tally::total(m.types) == m.valid
    &&& keys_add_up(m.keys, m.options.max_keys)
    &&& keys_total(m.keys.rows) + m.keys.dropped <= m.bytes
    &&& fields_add_up(m)
}

// ---------------------------------------------------------------------------------------------
// Each step keeps the counts adding up
// ---------------------------------------------------------------------------------------------

proof fn lemma_keys_total_update(rows: Seq<(Name, KeyModel)>, i: int, row: (Name, KeyModel))
    requires
        0 <= i < rows.len(),
    ensures
        keys_total(rows.update(i, row)) + rows[i].1.count == keys_total(rows) + row.1.count,
    decreases i,
{
    if i == 0 {
        assert(rows.update(i, row).drop_first() =~= rows.drop_first());
    } else {
        lemma_keys_total_update(rows.drop_first(), i - 1, row);
        assert(rows.update(i, row).drop_first() =~= rows.drop_first().update(i - 1, row));
    }
}

proof fn lemma_keys_total_insert(rows: Seq<(Name, KeyModel)>, i: int, row: (Name, KeyModel))
    requires
        0 <= i <= rows.len(),
    ensures
        keys_total(rows.insert(i, row)) == keys_total(rows) + row.1.count,
    decreases i,
{
    if i == 0 {
        assert(rows.insert(i, row).drop_first() =~= rows);
    } else {
        lemma_keys_total_insert(rows.drop_first(), i - 1, row);
        assert(rows.insert(i, row).drop_first() =~= rows.drop_first().insert(i - 1, row));
    }
}

/// No key counts more than all of them together.
pub proof fn lemma_key_within_total(rows: Seq<(Name, KeyModel)>, i: int)
    requires
        0 <= i < rows.len(),
    ensures
        rows[i].1.count <= keys_total(rows),
    decreases i,
{
    if i > 0 {
        lemma_key_within_total(rows.drop_first(), i - 1);
        assert(rows.drop_first()[i - 1] == rows[i]);
    }
}

/// One more member is counted once.
pub proof fn lemma_with_member(keys: KeysModel, max: nat, name: Name, label: Name)
    requires
        keys_add_up(keys, max),
    ensures
        ({
            let after = with_member(keys, max, name, label);
            &&& keys_add_up(after, max)
            &&& keys_total(after.rows) + after.dropped == keys_total(keys.rows) + keys.dropped + 1
        }),
{
    let rows = keys.rows;
    let known = table::lookup(rows, name);
    if known is Some || rows.len() < max {
        let stat = key_seen(known, label);
        let i = table::lemma_find(rows, name);
        table::lemma_placed(rows, name, stat);
        let after = table::placed(rows, name, stat);
        if i < rows.len() && rows[i].0 == name {
            table::lemma_hit(rows, name, stat, i);
            assert(key_adds_up(rows[i].1));
            tally::lemma_bumped(rows[i].1.types, label);
            lemma_keys_total_update(rows, i, (name, stat));
            assert forall|k: int| 0 <= k < after.len() implies key_adds_up(
                #[trigger] after[k].1,
            ) by {
                if k != i {
                    assert(after[k] == rows[k]);
                }
            }
        } else {
            table::lemma_miss(rows, name, stat, i);
            tally::lemma_bumped(Seq::empty(), label);
            lemma_keys_total_insert(rows, i, (name, stat));
            assert(key_adds_up(stat));
            assert forall|k: int| 0 <= k < after.len() implies key_adds_up(
                #[trigger] after[k].1,
            ) by {
                if k < i {
                    assert(after[k] == rows[k]);
                } else if k > i {
                    assert(after[k] == rows[k - 1]);
                }
            }
        }
    }
}

/// Every member is counted once.
pub proof fn lemma_with_members(keys: KeysModel, max: nat, members: Seq<(Name, Json)>)
    requires
        keys_add_up(keys, max),
    ensures
        ({
            let after = with_members(keys, max, members);
            &&& keys_add_up(after, max)
            &&& keys_total(after.rows) + after.dropped == keys_total(keys.rows) + keys.dropped
                + members.len()
        }),
    decreases members.len(),
{
    if members.len() > 0 {
        lemma_with_members(keys, max, members.drop_last());
        lemma_with_member(
            with_members(keys, max, members.drop_last()),
            max,
            members.last().0,
            model::type_label(members.last().1),
        );
    }
}

/// One more selected value is counted once.
pub proof fn lemma_with_found(field: FieldModel, max: nat, v: Json)
    requires
        field_adds_up(field, max),
    ensures
        ({
            let after = with_found(field, max, v);
            &&& field_adds_up(after, max)
            &&& after.values == field.values + 1
            &&& after.path == field.path
            &&& after.records_matched == field.records_matched
            &&& after.records_missing == field.records_missing
        }),
{
    tally::lemma_bumped(field.types, model::type_label(v));
    tally::lemma_bumped(field.distinct, render::rendered(v));
}

/// Whether all but one of the counts of a field add up: a record was counted as matched, and
/// its first value is still to come.
pub open spec fn field_awaits_value(field: FieldModel, max: nat) -> bool {
    &&& field.records_matched <= field.values + 1
    &&& field_adds_up((FieldModel { records_matched: 0, ..field }), max)
}

/// Every selected value is counted once.
pub proof fn lemma_with_all_found(field: FieldModel, max: nat, found: Seq<Json>)
    requires
        field_awaits_value(field, max),
    ensures
        ({
            let after = with_all_found(field, max, found);
            &&& field_awaits_value(after, max)
            &&& found.len() > 0 ==> field_adds_up(after, max)
            &&& after.values == field.values + found.len()
            &&& after.path == field.path
            &&& after.records_matched == field.records_matched
            &&& after.records_missing == field.records_missing
        }),
    decreases found.len(),
{
    if found.len() > 0 {
        lemma_with_all_found(field, max, found.drop_last());
        let before = with_all_found(field, max, found.drop_last());
        lemma_with_found(FieldModel { records_matched: 0, ..before }, max, found.last());
    }
}

/// Every record counts once for a field.
pub proof fn lemma_field_observed(field: FieldModel, max: nat, v: Json)
    requires
        field_adds_up(field, max),
    ensures
        ({
            let after = field_observed(field, max, v);
            &&& field_adds_up(after, max)
            &&& field.values <= after.values <= field.values + model::nodes(v)
            &&& after.path == field.path
            &&& after.records_matched + after.records_missing == field.records_matched
                + field.records_missing + 1
        }),
{
    let found = path::select(field.path.steps, v);
    path::law_selection_fits_in_the_record(field.path.steps, v);
    if found.len() > 0 {
        lemma_with_all_found(
            FieldModel { records_matched: field.records_matched + 1, ..field },
            max,
            found,
        );
    }
}

proof fn lemma_members_within_nodes(members: Seq<(Name, Json)>)
    ensures
        members.len() <= model::members_nodes(members),
    decreases members.len(),
{
    if members.len() > 0 {
        lemma_members_within_nodes(members.drop_first());
        reveal_with_fuel(model::nodes, 2);
        assert(model::nodes(members[0].1) >= 1);
    }
}

/// An object has fewer members than it holds values.
pub proof fn lemma_members_fit(v: Json)
    ensures
        v matches Json::Object(members) ==> members.len() < model::nodes(v),
{
    if let Json::Object(members) = v {
        lemma_members_within_nodes(members);
    }
}

/// One more line keeps every count adding up.
pub proof fn lemma_observed(m: StatsModel, line: LineModel)
    requires
        adds_up(m),
        line.bytes.len() <= line.raw_len,
        line.bytes.len() <= u64::MAX,
    ensures
        adds_up(observed(m, line)),
{
    let after = observed(m, line);
    if !lines::is_blank(line.bytes) {
        assert(line.bytes.len() >= 1);
        hist::lemma_recorded(m.lengths, line.bytes.len());
        record::lemma_reading_is_bounded(line.bytes);
        if let Ok(v) = record::reading(line.bytes) {
            tally::lemma_bumped(m.types, model::type_label(v));
            lemma_members_fit(v);
            if let Json::Object(members) = v {
                lemma_with_members(m.keys, m.options.max_keys, members);
            }
            assert forall|i: int| 0 <= i < after.fields.len() implies ({
                let f = #[trigger] after.fields[i];
                &&& f.path == after.options.fields[i]
                &&& field_adds_up(f, after.options.max_distinct)
                &&& f.records_matched + f.records_missing == after.valid
                &&& f.values <= after.bytes
            }) by {
                lemma_field_observed(m.fields[i], m.options.max_distinct, v);
            }
        }
    }
}

/// Every count adds up after any lines.
pub proof fn lemma_observed_all(m: StatsModel, all: Seq<LineModel>)
    requires
        adds_up(m),
        forall|i: int|
            0 <= i < all.len() ==> (#[trigger] all[i]).bytes.len() <= all[i].raw_len
                && all[i].bytes.len() <= u64::MAX,
    ensures
        adds_up(observed_all(m, all)),
    decreases all.len(),
{
    if all.len() > 0 {
        lemma_observed_all(m, all.drop_last());
        assert(all.last() == all[all.len() - 1]);
        lemma_observed(observed_all(m, all.drop_last()), all.last());
    }
}

/// Nothing adds up to nothing.
pub proof fn lemma_fresh(options: OptionsModel)
    ensures
        adds_up(fresh(options)),
{
    hist::lemma_nothing();
}

} // verus!

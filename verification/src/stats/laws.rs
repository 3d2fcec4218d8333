//! Laws of the health check.
use super::model;
use super::model::{FieldModel, IssueModel, KeyModel, KeysModel, OptionsModel, StatsModel};
use super::report;
use crate::hist;
use crate::json::grammar;
use crate::json::laws;
use crate::json::model::Json;
use crate::json::ErrorKind;
use crate::json::model as values;
use crate::lines;
use crate::lines::LineModel;
use crate::path;
use crate::path::PathModel;
use crate::record;
use crate::render;
use crate::rounding;
use crate::table;
use crate::table::Name;
use crate::tally;
use crate::text;
use vstd::prelude::*;

verus! {

// ---------------------------------------------------------------------------------------------
// The report
// ---------------------------------------------------------------------------------------------

proof fn lemma_key_is_writable(key: KeyModel)
    ensures
        forall|levels: nat|
            levels >= 2 ==> #[trigger] laws::is_writable(report::key_value(key), levels),
{
    let members = report::key_members(key);
    render::lemma_number_is_writable(key.count);
    render::lemma_counts_are_writable(key.types);
    assert forall|i: int| 0 <= i < members.len() implies laws::is_writable(
        (#[trigger] members[i]).1,
        1,
    ) by {}
    laws::lemma_object_is_writable(members, 1);
}

proof fn lemma_top_is_writable(row: (Name, nat))
    ensures
        forall|levels: nat|
            levels >= 1 ==> #[trigger] laws::is_writable(report::top_value(row), levels),
{
    let members = report::top_members(row);
    laws::lemma_plain_is_writable(Json::Text(row.0));
    render::lemma_number_is_writable(row.1);
    assert forall|i: int| 0 <= i < members.len() implies laws::is_writable(
        (#[trigger] members[i]).1,
        0,
    ) by {}
    laws::lemma_object_is_writable(members, 0);
}

proof fn lemma_field_is_writable(f: FieldModel)
    ensures
        forall|levels: nat|
            levels >= 3 ==> #[trigger] laws::is_writable(report::field_value(f), levels),
{
    let members = report::field_members(f);
    laws::lemma_plain_is_writable(Json::Text(f.path.source));
    let rows = model::top_rows(f.distinct, 20);
    let items = Seq::new(rows.len(), |i: int| report::top_value(rows[i]));
    assert forall|i: int| 0 <= i < items.len() implies laws::is_writable(#[trigger] items[i], 1) by {
        lemma_top_is_writable(rows[i]);
    }
    laws::lemma_array_is_writable(items, 1);
    render::lemma_number_is_writable(f.records_matched);
    render::lemma_number_is_writable(f.records_missing);
    render::lemma_number_is_writable(f.values);
    render::lemma_counts_are_writable(f.types);
    assert forall|i: int| 0 <= i < members.len() implies laws::is_writable(
        (#[trigger] members[i]).1,
        2,
    ) by {}
    laws::lemma_object_is_writable(members, 2);
}

proof fn lemma_issue_is_writable(issue: IssueModel)
    ensures
        forall|levels: nat|
            levels >= 1 ==> #[trigger] laws::is_writable(report::issue_value(issue), levels),
{
    let members = report::issue_members(issue);
    laws::lemma_plain_is_writable(Json::Text(issue.reason));
    render::lemma_number_is_writable(issue.line);
    render::lemma_number_is_writable(issue.column);
    assert forall|i: int| 0 <= i < members.len() implies laws::is_writable(
        (#[trigger] members[i]).1,
        0,
    ) by {}
    laws::lemma_object_is_writable(members, 0);
}

proof fn lemma_lengths_are_writable(h: hist::HistModel)
    ensures
        forall|levels: nat|
            levels >= 1 ==> #[trigger] laws::is_writable(report::lengths_value(h), levels),
{
    let members = report::lengths_members(h);
    laws::lemma_plain_is_writable(Json::Null);
    render::lemma_number_is_writable(h.min);
    render::lemma_number_is_writable(h.max);
    render::lemma_number_is_writable(hist::percentile(h, 50));
    render::lemma_number_is_writable(hist::percentile(h, 90));
    render::lemma_number_is_writable(hist::percentile(h, 99));
    let x = hist::mean_of(h);
    let scaled = rounding::half_even(x.0 * rounding::pow10(4), x.1);
    text::lemma_low_digits(scaled, 4);
    laws::lemma_fixed_is_number(scaled / rounding::pow10(4), text::low_digits(scaled, 4));
    laws::lemma_number_is_writable(rounding::fixed(x, 4));
    assert forall|i: int| 0 <= i < members.len() implies laws::is_writable(
        (#[trigger] members[i]).1,
        0,
    ) by {}
    laws::lemma_object_is_writable(members, 0);
}

proof fn lemma_report_is_writable(m: StatsModel, source: Seq<char>)
    ensures
        forall|levels: nat|
            levels >= 5 ==> #[trigger] laws::is_writable(report::report_value(m, source), levels),
{
    laws::lemma_plain_is_writable(Json::Text(source));
    let keys = m.keys.rows;
    let key_list = Seq::new(keys.len(), |i: int| (keys[i].0, report::key_value(keys[i].1)));
    assert forall|i: int| 0 <= i < key_list.len() implies laws::is_writable(
        (#[trigger] key_list[i]).1,
        2,
    ) by {
        lemma_key_is_writable(keys[i].1);
    }
    laws::lemma_object_is_writable(key_list, 2);
    let fields = Seq::new(m.fields.len(), |i: int| report::field_value(m.fields[i]));
    assert forall|i: int| 0 <= i < fields.len() implies laws::is_writable(#[trigger] fields[i], 3) by {
        lemma_field_is_writable(m.fields[i]);
    }
    laws::lemma_array_is_writable(fields, 3);
    let issues = Seq::new(m.issues.len(), |i: int| report::issue_value(m.issues[i]));
    assert forall|i: int| 0 <= i < issues.len() implies laws::is_writable(#[trigger] issues[i], 1) by {
        lemma_issue_is_writable(m.issues[i]);
    }
    laws::lemma_array_is_writable(issues, 1);
    lemma_lengths_are_writable(m.lengths);
    render::lemma_counts_are_writable(m.types);
    render::lemma_number_is_writable(m.lines);
    render::lemma_number_is_writable(m.bytes);
    render::lemma_number_is_writable(m.blank);
    render::lemma_number_is_writable(m.valid);
    render::lemma_number_is_writable(m.invalid);
    render::lemma_number_is_writable(m.objects);
    let members = report::report_members(m, source);
    assert forall|i: int| 0 <= i < members.len() implies laws::is_writable(
        (#[trigger] members[i]).1,
        4,
    ) by {}
    laws::lemma_object_is_writable(members, 4);
}

/// The JSON report is valid JSON, and parsing it gives back every number and text that went in.
pub proof fn law_json_report_reads_back(m: StatsModel, source: Seq<char>)
    ensures
        grammar::document(values::json_text(report::report_value(m, source))) == Ok::<
            Json,
            (ErrorKind, nat),
        >(report::report_value(m, source)),
{
    lemma_report_is_writable(m, source);
    laws::lemma_writable_reads_back(report::report_value(m, source), 5);
}

// ---------------------------------------------------------------------------------------------
// The lines of a file
// ---------------------------------------------------------------------------------------------

/// The number of blank lines.
pub open spec fn blanks(all: Seq<LineModel>) -> nat
    decreases all.len(),
{
    if all.len() == 0 {
        0
    } else {
        blanks(all.drop_last()) + (if lines::is_blank(all.last().bytes) {
            1nat
        } else {
            0nat
        })
    }
}

/// The lengths of the lines that are not blank.
pub open spec fn lengths(all: Seq<LineModel>) -> Seq<nat>
    decreases all.len(),
{
    if all.len() == 0 {
        Seq::empty()
    } else if lines::is_blank(all.last().bytes) {
        lengths(all.drop_last())
    } else {
        lengths(all.drop_last()).push(all.last().bytes.len())
    }
}

/// The values of the valid lines.
pub open spec fn records(all: Seq<LineModel>) -> Seq<Json>
    decreases all.len(),
{
    if all.len() == 0 {
        Seq::empty()
    } else if lines::is_blank(all.last().bytes) {
        records(all.drop_last())
    } else {
        match record::reading(all.last().bytes) {
            Ok(v) => records(all.drop_last()).push(v),
            Err(_) => records(all.drop_last()),
        }
    }
}

/// What is wrong with the broken lines.
pub open spec fn broken(all: Seq<LineModel>) -> Seq<IssueModel>
    decreases all.len(),
{
    if all.len() == 0 {
        Seq::empty()
    } else if lines::is_blank(all.last().bytes) {
        broken(all.drop_last())
    } else {
        match record::reading(all.last().bytes) {
            Ok(_) => broken(all.drop_last()),
            Err((column, reason)) => broken(all.drop_last()).push(
                IssueModel { line: all.last().number, column, reason },
            ),
        }
    }
}

/// The sum of the raw lengths of all lines.
pub open spec fn taken(all: Seq<LineModel>) -> nat
    decreases all.len(),
{
    if all.len() == 0 {
        0
    } else {
        taken(all.drop_last()) + all.last().raw_len
    }
}

/// Every line is counted, as one of blank, valid and invalid, and every byte; of the broken
/// lines the first `max_issues` are kept with their position and reason.
pub proof fn law_every_line_is_classified(options: OptionsModel, all: Seq<LineModel>)
    ensures
        ({
            let m = model::observed_all(model::fresh(options), all);
            &&& m.options == options
            &&& m.lines == all.len()
            &&& m.bytes == taken(all)
            &&& m.blank == blanks(all)
            &&& m.valid == records(all).len()
            &&& m.invalid == broken(all).len()
            &&& m.lines == m.blank + m.valid + m.invalid
            &&& m.issues == broken(all).take(
                if broken(all).len() < options.max_issues {
                    broken(all).len() as int
                } else {
                    options.max_issues as int
                },
            )
            &&& m.lengths == hist::hist_of(lengths(all))
        }),
    decreases all.len(),
{
    let m = model::observed_all(model::fresh(options), all);
    if all.len() == 0 {
        assert(m.issues =~= broken(all).take(0));
    } else {
        law_every_line_is_classified(options, all.drop_last());
        let line = all.last();
        let before = broken(all.drop_last());
        if !lines::is_blank(line.bytes) {
            assert(lengths(all).drop_last() =~= lengths(all.drop_last()));
            if let Err((column, reason)) = record::reading(line.bytes) {
                let issue = IssueModel { line: line.number, column, reason };
                if before.len() < options.max_issues {
                    assert(before.take(before.len() as int) =~= before);
                    assert(broken(all).take(broken(all).len() as int) =~= before.push(issue));
                } else {
                    assert(broken(all).take(options.max_issues as int) =~= before.take(
                        options.max_issues as int,
                    ));
                }
            }
        }
    }
}

proof fn lemma_taken(all: Seq<LineModel>)
    ensures
        lines::raw_total(all) == taken(all),
    decreases all.len(),
{
    if all.len() > 0 {
        lemma_taken(all.drop_last());
        lemma_raw_total_push(all.drop_last(), all.last());
        assert(all.drop_last().push(all.last()) =~= all);
    }
}

proof fn lemma_raw_total_push(all: Seq<LineModel>, line: LineModel)
    ensures
        lines::raw_total(all.push(line)) == lines::raw_total(all) + line.raw_len,
    decreases all.len(),
{
    reveal_with_fuel(lines::raw_total, 2);
    if all.len() > 0 {
        lemma_raw_total_push(all.drop_first(), line);
        assert(all.push(line).drop_first() =~= all.drop_first().push(line));
    } else {
        assert(all.push(line).drop_first() =~= Seq::<LineModel>::empty());
    }
}

/// The check of a whole file takes every byte and every line of it, and all of its counts add
/// up: each line is blank, valid or invalid, each record is counted once by its type and once
/// for each field, and no table outgrows its limit.
pub proof fn law_check_accounts_for_the_file(data: Seq<u8>, options: OptionsModel)
    requires
        data.len() <= u64::MAX,
    ensures
        model::stats_of(data, options).bytes == data.len(),
        model::stats_of(data, options).lines == lines::lines_of(data).len(),
        model::adds_up(model::stats_of(data, options)),
{
    let all = lines::lines_of(data);
    law_every_line_is_classified(options, all);
    lemma_taken(all);
    lines::law_lines_account_for_every_byte(data);
    model::lemma_fresh(options);
    assert forall|i: int| 0 <= i < all.len() implies (#[trigger] all[i]).bytes.len()
        <= all[i].raw_len && all[i].bytes.len() <= u64::MAX by {
        lemma_raw_within_total(all, i);
    }
    model::lemma_observed_all(model::fresh(options), all);
}

proof fn lemma_raw_within_total(all: Seq<LineModel>, i: int)
    requires
        0 <= i < all.len(),
    ensures
        all[i].raw_len <= lines::raw_total(all),
    decreases i,
{
    if i > 0 {
        lemma_raw_within_total(all.drop_first(), i - 1);
        assert(all.drop_first()[i - 1] == all[i]);
    }
}

// ---------------------------------------------------------------------------------------------
// The records of a file
// ---------------------------------------------------------------------------------------------

/// The number of objects among `found`.
pub open spec fn objects(found: Seq<Json>) -> nat
    decreases found.len(),
{
    if found.len() == 0 {
        0
    } else {
        objects(found.drop_last()) + (if found.last() is Object {
            1nat
        } else {
            0nat
        })
    }
}

/// The members of all objects among `found`, in order.
pub open spec fn members(found: Seq<Json>) -> Seq<(Name, Json)>
    decreases found.len(),
{
    if found.len() == 0 {
        Seq::empty()
    } else {
        match found.last() {
            Json::Object(list) => members(found.drop_last()) + list,
            _ => members(found.drop_last()),
        }
    }
}

/// What `path` selects in all of `found`, in order.
pub open spec fn selected(found: Seq<Json>, path: PathModel) -> Seq<Json>
    decreases found.len(),
{
    if found.len() == 0 {
        Seq::empty()
    } else {
        selected(found.drop_last(), path) + path::select(path.steps, found.last())
    }
}

/// The number of `found` in which `path` selects anything.
pub open spec fn matched(found: Seq<Json>, path: PathModel) -> nat
    decreases found.len(),
{
    if found.len() == 0 {
        0
    } else {
        matched(found.drop_last(), path) + (if path::select(path.steps, found.last()).len() > 0 {
            1nat
        } else {
            0nat
        })
    }
}

/// The keys before the first record.
pub open spec fn no_keys() -> KeysModel {
    KeysModel { rows: Seq::empty(), dropped: 0 }
}

proof fn lemma_members_append(
    keys: KeysModel,
    max: nat,
    a: Seq<(Name, Json)>,
    b: Seq<(Name, Json)>,
)
    ensures
        model::with_members(keys, max, a + b) == model::with_members(
            model::with_members(keys, max, a),
            max,
            b,
        ),
    decreases b.len(),
{
    if b.len() == 0 {
        assert(a + b =~= a);
    } else {
        lemma_members_append(keys, max, a, b.drop_last());
        assert((a + b).drop_last() =~= a + b.drop_last());
    }
}

proof fn lemma_found_append(field: FieldModel, max: nat, a: Seq<Json>, b: Seq<Json>)
    ensures
        model::with_all_found(field, max, a + b) == model::with_all_found(
            model::with_all_found(field, max, a),
            max,
            b,
        ),
    decreases b.len(),
{
    if b.len() == 0 {
        assert(a + b =~= a);
    } else {
        lemma_found_append(field, max, a, b.drop_last());
        assert((a + b).drop_last() =~= a + b.drop_last());
    }
}

/// How many records matched has no part in how values are counted.
proof fn lemma_found_apart(field: FieldModel, max: nat, found: Seq<Json>, hits: nat, misses: nat)
    ensures
        model::with_all_found(
            (FieldModel { records_matched: hits, records_missing: misses, ..field }),
            max,
            found,
        ) == (FieldModel {
            records_matched: hits,
            records_missing: misses,
            ..model::with_all_found(field, max, found)
        }),
    decreases found.len(),
{
    if found.len() > 0 {
        lemma_found_apart(field, max, found.drop_last(), hits, misses);
    }
}

/// What a check knows of `path` after the records `found`.
pub open spec fn field_of(path: PathModel, max: nat, found: Seq<Json>) -> FieldModel {
    FieldModel {
        records_matched: matched(found, path),
        records_missing: (found.len() - matched(found, path)) as nat,
        ..model::with_all_found(model::fresh_field(path), max, selected(found, path))
    }
}

/// A path matches no more records than there are.
pub proof fn lemma_matched_within(found: Seq<Json>, path: PathModel)
    ensures
        matched(found, path) <= found.len(),
    decreases found.len(),
{
    if found.len() > 0 {
        lemma_matched_within(found.drop_last(), path);
    }
}

proof fn lemma_field_of(path: PathModel, max: nat, found: Seq<Json>, v: Json)
    ensures
        model::field_observed(field_of(path, max, found), max, v) == field_of(
            path,
            max,
            found.push(v),
        ),
{
    let fresh = model::fresh_field(path);
    let before = selected(found, path);
    let hits = matched(found, path);
    let misses = (found.len() - hits) as nat;
    let now = path::select(path.steps, v);
    let field = model::with_all_found(fresh, max, before);
    lemma_matched_within(found, path);
    lemma_same_path(fresh, max, before);
    assert(found.push(v).drop_last() =~= found);
    if now.len() == 0 {
        assert(before + now =~= before);
    } else {
        lemma_found_append(fresh, max, before, now);
        lemma_found_apart(field, max, now, hits + 1, misses);
    }
}

proof fn lemma_same_path(field: FieldModel, max: nat, found: Seq<Json>)
    ensures
        model::with_all_found(field, max, found).path == field.path,
    decreases found.len(),
{
    if found.len() > 0 {
        lemma_same_path(field, max, found.drop_last());
    }
}

/// Every part of a check is a sum over the valid lines alone: the types of the records, the
/// members of the objects among them, and for each field what its path selects in them.
pub proof fn law_parts_are_sums_over_the_records(options: OptionsModel, all: Seq<LineModel>)
    ensures
        ({
            let m = model::observed_all(model::fresh(options), all);
            let found = records(all);
            &&& m.types == tally::tally_of(values::labels(found))
            &&& m.objects == objects(found)
            &&& m.keys == model::with_members(no_keys(), options.max_keys, members(found))
            &&& m.fields.len() == options.fields.len()
            &&& forall|i: int|
                0 <= i < m.fields.len() ==> #[trigger] m.fields[i] == field_of(
                    options.fields[i],
                    options.max_distinct,
                    found,
                )
        }),
    decreases all.len(),
{
    let m = model::observed_all(model::fresh(options), all);
    let found = records(all);
    if all.len() == 0 {
        assert(values::labels(found) =~= Seq::empty());
        assert forall|i: int| 0 <= i < m.fields.len() implies #[trigger] m.fields[i] == field_of(
            options.fields[i],
            options.max_distinct,
            found,
        ) by {}
    } else {
        law_parts_are_sums_over_the_records(options, all.drop_last());
        law_every_line_is_classified(options, all.drop_last());
        let before = model::observed_all(model::fresh(options), all.drop_last());
        let earlier = records(all.drop_last());
        if !lines::is_blank(all.last().bytes) {
            if let Ok(v) = record::reading(all.last().bytes) {
                assert(found == earlier.push(v));
                assert(found.drop_last() =~= earlier);
                assert(values::labels(found).drop_last() =~= values::labels(earlier));
                if let Json::Object(list) = v {
                    lemma_members_append(no_keys(), options.max_keys, members(earlier), list);
                }
                assert forall|i: int| 0 <= i < m.fields.len() implies #[trigger] m.fields[i]
                    == field_of(options.fields[i], options.max_distinct, found) by {
                    assert(before.fields[i] == field_of(
                        options.fields[i],
                        options.max_distinct,
                        earlier,
                    ));
                    lemma_field_of(options.fields[i], options.max_distinct, earlier, v);
                }
            }
        }
    }
}

// ---------------------------------------------------------------------------------------------
// Tables with a limit
// ---------------------------------------------------------------------------------------------

/// How often `list` holds a member called `name`.
pub open spec fn named(list: Seq<(Name, Json)>, name: Name) -> nat
    decreases list.len(),
{
    if list.len() == 0 {
        0
    } else {
        named(list.drop_last(), name) + (if list.last().0 == name {
            1nat
        } else {
            0nat
        })
    }
}

/// How often `list` holds a member called `name` whose value has the type `label`.
pub open spec fn typed(list: Seq<(Name, Json)>, name: Name, label: Name) -> nat
    decreases list.len(),
{
    if list.len() == 0 {
        0
    } else {
        typed(list.drop_last(), name, label) + (if list.last().0 == name && values::type_label(
            list.last().1,
        ) == label {
            1nat
        } else {
            0nat
        })
    }
}

proof fn lemma_typed_within_named(list: Seq<(Name, Json)>, name: Name, label: Name)
    ensures
        typed(list, name, label) <= named(list, name),
    decreases list.len(),
{
    if list.len() > 0 {
        lemma_typed_within_named(list.drop_last(), name, label);
    }
}

/// A key that is in the table was never dropped: its count, in total and by type, is exact. A
/// key that occurs and is not in the table is missing only because the table is full, and every
/// member that the counts leave out is counted as dropped.
pub proof fn law_tracked_keys_are_exact(
    max: nat,
    list: Seq<(Name, Json)>,
    name: Name,
    label: Name,
)
    ensures
        ({
            let keys = model::with_members(no_keys(), max, list);
            &&& match table::lookup(keys.rows, name) {
                Some(key) => key.count == named(list, name) && tally::count_of(key.types, label)
                    == typed(list, name, label),
                None => named(list, name) > 0 ==> keys.rows.len() == max,
            }
            &&& model::keys_total(keys.rows) + keys.dropped == list.len()
        }),
    decreases list.len(),
{
    model::lemma_with_members(no_keys(), max, list);
    if list.len() > 0 {
        let init = list.drop_last();
        let before = model::with_members(no_keys(), max, init);
        let seen = list.last().0;
        let kind = values::type_label(list.last().1);
        law_tracked_keys_are_exact(max, init, name, label);
        model::lemma_with_members(no_keys(), max, init);
        lemma_typed_within_named(init, name, label);
        let known = table::lookup(before.rows, seen);
        if known is Some || before.rows.len() < max {
            table::lemma_placed(before.rows, seen, model::key_seen(known, kind));
            if name == seen {
                let i = table::lemma_find(before.rows, seen);
                if known is Some {
                    if i < before.rows.len() && before.rows[i].0 == seen {
                        table::lemma_hit(before.rows, seen, before.rows[i].1, i);
                    } else {
                        table::lemma_miss(before.rows, seen, model::key_seen(known, kind), i);
                    }
                    assert(model::key_adds_up(before.rows[i].1));
                    tally::lemma_bumped(before.rows[i].1.types, kind);
                } else {
                    tally::lemma_bumped(Seq::empty(), kind);
                }
            }
        }
    }
}

/// How often one of `found` is rendered as `words`.
pub open spec fn rendered_as(found: Seq<Json>, words: Name) -> nat
    decreases found.len(),
{
    if found.len() == 0 {
        0
    } else {
        rendered_as(found.drop_last(), words) + (if render::rendered(found.last()) == words {
            1nat
        } else {
            0nat
        })
    }
}

/// A value that is in the table of a field was never dropped: its count is exact. A value that
/// occurs and is not in the table is missing only because the table is full, and every value
/// that the counts leave out is counted as dropped. The types of all values are counted.
pub proof fn law_tracked_values_are_exact(
    path: PathModel,
    max: nat,
    found: Seq<Json>,
    words: Name,
)
    ensures
        ({
            let field = model::with_all_found(model::fresh_field(path), max, found);
            &&& match table::lookup(field.distinct, words) {
                Some(n) => n == rendered_as(found, words),
                None => rendered_as(found, words) > 0 ==> field.distinct.len() == max,
            }
            &&& tally::total(field.distinct) + field.distinct_dropped == found.len()
            &&& field.values == found.len()
            &&& field.types == tally::tally_of(values::labels(found))
        }),
    decreases found.len(),
{
    let fresh = model::fresh_field(path);
    model::lemma_with_all_found(fresh, max, found);
    if found.len() == 0 {
        assert(values::labels(found) =~= Seq::empty());
    } else {
        let init = found.drop_last();
        law_tracked_values_are_exact(path, max, init, words);
        model::lemma_with_all_found(fresh, max, init);
        let before = model::with_all_found(fresh, max, init);
        let seen = render::rendered(found.last());
        assert(values::labels(found).drop_last() =~= values::labels(init));
        tally::lemma_bumped(before.distinct, seen);
        table::lemma_placed(before.distinct, seen, tally::count_of(before.distinct, seen) + 1);
    }
}

// ---------------------------------------------------------------------------------------------
// Which rows a table with a limit holds
// ---------------------------------------------------------------------------------------------

/// The names of `list`.
pub open spec fn names(list: Seq<(Name, Json)>) -> Seq<Name> {
    list.map_values(|member: (Name, Json)| member.0)
}

/// How each of `found` is rendered.
pub open spec fn renderings(found: Seq<Json>) -> Seq<Name> {
    found.map_values(|v: Json| render::rendered(v))
}

proof fn lemma_named(list: Seq<(Name, Json)>, name: Name)
    ensures
        named(list, name) == tally::occurrences(names(list), name),
    decreases list.len(),
{
    if list.len() > 0 {
        lemma_named(list.drop_last(), name);
        assert(names(list).drop_last() =~= names(list.drop_last()));
    }
}

proof fn lemma_rendered_as(found: Seq<Json>, words: Name)
    ensures
        rendered_as(found, words) == tally::occurrences(renderings(found), words),
    decreases found.len(),
{
    if found.len() > 0 {
        lemma_rendered_as(found.drop_last(), words);
        assert(renderings(found).drop_last() =~= renderings(found.drop_last()));
    }
}

proof fn lemma_keys_hold_the_first(max: nat, list: Seq<(Name, Json)>)
    ensures
        ({
            let keys = model::with_members(no_keys(), max, list);
            let first = tally::kept(names(list), max);
            &&& keys.rows.len() == first.len()
            &&& forall|name: Name| #[trigger]
                table::lookup(keys.rows, name) is Some <==> first.contains(name)
            &&& keys.dropped == tally::left_out(names(list), first)
        }),
    decreases list.len(),
{
    let all = names(list);
    if list.len() == 0 {
        assert(all =~= Seq::empty());
        assert(tally::kept(all, max) =~= Seq::empty());
    } else {
        let init = list.drop_last();
        let held = names(init);
        let seen = list.last().0;
        let kind = values::type_label(list.last().1);
        let before = model::with_members(no_keys(), max, init);
        let known = table::lookup(before.rows, seen);
        assert(all =~= held.push(seen));
        assert(all.drop_last() =~= held);
        lemma_keys_hold_the_first(max, init);
        model::lemma_with_members(no_keys(), max, init);
        table::lemma_placed(before.rows, seen, model::key_seen(known, kind));
        tally::lemma_kept_push(held, max, seen);
        let first = tally::kept(held, max);
        let now = tally::kept(all, max);
        assert(known is Some <==> first.contains(seen));
        let keys = model::with_members(no_keys(), max, list);
        assert forall|name: Name| #[trigger]
            table::lookup(keys.rows, name) is Some <==> now.contains(name) by {
            assert(table::lookup(before.rows, name) is Some <==> first.contains(name));
            assert(now.contains(name) <==> first.contains(name) || (name == seen
                && !first.contains(seen) && first.len() < max));
        }
        if known is None && before.rows.len() < max {
            tally::lemma_left_out(held, first, seen);
            assert(now.contains(seen) <==> first.contains(seen) || first.len() < max);
        }
    }
}

/// Whether `key` counts every member of `list` that is called `name`, in total and by type.
pub open spec fn is_exact(key: KeyModel, list: Seq<(Name, Json)>, name: Name) -> bool {
    &&& key.count == tally::occurrences(names(list), name)
    &&& key.count == tally::total(key.types)
    &&& forall|label: Name| #[trigger]
        tally::count_of(key.types, label) == typed(list, name, label)
}

/// The keys that are tracked are the first `max_keys` different names among the members of the
/// objects, in order of appearance, or all of them where there are fewer. The count of each is
/// that of all its occurrences and the sum of its types, and the occurrences of every other name
/// are counted as dropped. Records that are not objects add to none of these.
pub proof fn law_the_first_keys_are_tracked(options: OptionsModel, all: Seq<LineModel>)
    ensures
        ({
            let keys = model::observed_all(model::fresh(options), all).keys;
            let list = members(records(all));
            let first = tally::kept(names(list), options.max_keys);
            &&& keys.rows.len() == first.len()
            &&& forall|name: Name| #[trigger]
                table::lookup(keys.rows, name) is Some <==> first.contains(name)
            &&& forall|name: Name| #[trigger]
                table::lookup(keys.rows, name) matches Some(key) ==> is_exact(key, list, name)
            &&& keys.dropped == tally::left_out(names(list), first)
        }),
{
    let keys = model::observed_all(model::fresh(options), all).keys;
    let list = members(records(all));
    let max = options.max_keys;
    law_parts_are_sums_over_the_records(options, all);
    lemma_keys_hold_the_first(max, list);
    model::lemma_with_members(no_keys(), max, list);
    assert forall|name: Name| #[trigger] table::lookup(keys.rows, name) is Some implies is_exact(
        table::lookup(keys.rows, name)->0,
        list,
        name,
    ) by {
        let key = table::lookup(keys.rows, name)->0;
        let i = table::lemma_find(keys.rows, name);
        if i < keys.rows.len() && keys.rows[i].0 == name {
            table::lemma_hit(keys.rows, name, key, i);
        } else {
            table::lemma_miss(keys.rows, name, key, i);
        }
        assert(model::key_adds_up(keys.rows[i].1));
        lemma_named(list, name);
        law_tracked_keys_are_exact(max, list, name, name);
        assert forall|label: Name| #[trigger]
            tally::count_of(key.types, label) == typed(list, name, label) by {
            law_tracked_keys_are_exact(max, list, name, label);
        }
    }
}

proof fn lemma_values_hold_the_first(path: PathModel, max: nat, found: Seq<Json>)
    ensures
        ({
            let field = model::with_all_found(model::fresh_field(path), max, found);
            let first = tally::kept(renderings(found), max);
            &&& field.distinct.len() == first.len()
            &&& forall|words: Name| #[trigger]
                table::lookup(field.distinct, words) is Some <==> first.contains(words)
            &&& field.distinct_dropped == tally::left_out(renderings(found), first)
        }),
    decreases found.len(),
{
    let all = renderings(found);
    let fresh = model::fresh_field(path);
    if found.len() == 0 {
        assert(all =~= Seq::empty());
        assert(tally::kept(all, max) =~= Seq::empty());
    } else {
        let init = found.drop_last();
        let held = renderings(init);
        let seen = render::rendered(found.last());
        let before = model::with_all_found(fresh, max, init);
        assert(all =~= held.push(seen));
        assert(all.drop_last() =~= held);
        lemma_values_hold_the_first(path, max, init);
        model::lemma_with_all_found(fresh, max, init);
        table::lemma_placed(before.distinct, seen, tally::count_of(before.distinct, seen) + 1);
        tally::lemma_kept_push(held, max, seen);
        let first = tally::kept(held, max);
        let now = tally::kept(all, max);
        let field = model::with_all_found(fresh, max, found);
        assert(table::lookup(before.distinct, seen) is Some <==> first.contains(seen));
        assert forall|words: Name| #[trigger]
            table::lookup(field.distinct, words) is Some <==> now.contains(words) by {
            assert(table::lookup(before.distinct, words) is Some <==> first.contains(words));
            assert(now.contains(words) <==> first.contains(words) || (words == seen
                && !first.contains(seen) && first.len() < max));
        }
        if !first.contains(seen) && first.len() < max {
            tally::lemma_left_out(held, first, seen);
            assert(now.contains(seen) <==> first.contains(seen) || first.len() < max);
        }
    }
}

/// The values that are tracked for a field are the first `max_distinct` different ones that its
/// path selects in the records, in order of appearance, or all of them where there are fewer. The
/// count of each is that of all its occurrences, and the occurrences of every other value are
/// counted as dropped.
pub proof fn law_the_first_values_are_tracked(
    options: OptionsModel,
    all: Seq<LineModel>,
    i: int,
)
    requires
        0 <= i < options.fields.len(),
    ensures
        ({
            let field = model::observed_all(model::fresh(options), all).fields[i];
            let words = renderings(selected(records(all), options.fields[i]));
            let first = tally::kept(words, options.max_distinct);
            &&& field.distinct.len() == first.len()
            &&& forall|w: Name| #[trigger]
                table::lookup(field.distinct, w) is Some <==> first.contains(w)
            &&& forall|w: Name| #[trigger]
                table::lookup(field.distinct, w) matches Some(n) ==> n == tally::occurrences(
                    words,
                    w,
                )
            &&& field.distinct_dropped == tally::left_out(words, first)
        }),
{
    let field = model::observed_all(model::fresh(options), all).fields[i];
    let found = selected(records(all), options.fields[i]);
    law_parts_are_sums_over_the_records(options, all);
    lemma_values_hold_the_first(options.fields[i], options.max_distinct, found);
    assert forall|w: Name| #[trigger] table::lookup(field.distinct, w) is Some implies table::lookup(
        field.distinct,
        w,
    )->0 == tally::occurrences(renderings(found), w) by {
        law_tracked_values_are_exact(options.fields[i], options.max_distinct, found, w);
        lemma_rendered_as(found, w);
    }
}

// ---------------------------------------------------------------------------------------------
// Files put together
// ---------------------------------------------------------------------------------------------

/// `issues` with line numbers that are higher by `n`.
pub open spec fn moved(issues: Seq<IssueModel>, n: nat) -> Seq<IssueModel> {
    issues.map_values(|issue: IssueModel| IssueModel { line: issue.line + n, ..issue })
}

/// The first `max` of `issues`, or all where there are fewer.
pub open spec fn first_issues(issues: Seq<IssueModel>, max: nat) -> Seq<IssueModel> {
    issues.take(if issues.len() < max {
        issues.len() as int
    } else {
        max as int
    })
}

proof fn lemma_joined_lines(a: Seq<LineModel>, b: Seq<LineModel>)
    ensures
        taken(a + b) == taken(a) + taken(b),
        blanks(a + b) == blanks(a) + blanks(b),
        lengths(a + b) == lengths(a) + lengths(b),
        records(a + b) == records(a) + records(b),
        broken(a + b) == broken(a) + broken(b),
    decreases b.len(),
{
    if b.len() == 0 {
        assert(a + b =~= a);
        assert(lengths(a) + lengths(b) =~= lengths(a));
        assert(records(a) + records(b) =~= records(a));
        assert(broken(a) + broken(b) =~= broken(a));
    } else {
        let init = b.drop_last();
        lemma_joined_lines(a, init);
        assert((a + b).drop_last() =~= a + init);
        assert(lengths(a + b) =~= lengths(a) + lengths(b));
        assert(records(a + b) =~= records(a) + records(b));
        assert(broken(a + b) =~= broken(a) + broken(b));
    }
}

proof fn lemma_renumbered_lines(all: Seq<LineModel>, n: nat)
    ensures
        taken(lines::renumbered(all, n)) == taken(all),
        blanks(lines::renumbered(all, n)) == blanks(all),
        lengths(lines::renumbered(all, n)) == lengths(all),
        records(lines::renumbered(all, n)) == records(all),
        broken(lines::renumbered(all, n)) == moved(broken(all), n),
    decreases all.len(),
{
    let there = lines::renumbered(all, n);
    if all.len() == 0 {
        assert(broken(there) =~= moved(broken(all), n));
    } else {
        lemma_renumbered_lines(all.drop_last(), n);
        assert(there.drop_last() =~= lines::renumbered(all.drop_last(), n));
        assert(broken(there) =~= moved(broken(all), n));
    }
}

proof fn lemma_joined_records(a: Seq<Json>, b: Seq<Json>, path: PathModel)
    ensures
        objects(a + b) == objects(a) + objects(b),
        matched(a + b, path) == matched(a, path) + matched(b, path),
        selected(a + b, path) == selected(a, path) + selected(b, path),
    decreases b.len(),
{
    if b.len() == 0 {
        assert(a + b =~= a);
        assert(selected(a, path) + selected(b, path) =~= selected(a, path));
    } else {
        lemma_joined_records(a, b.drop_last(), path);
        assert((a + b).drop_last() =~= a + b.drop_last());
        assert(selected(a + b, path) =~= selected(a, path) + selected(b, path));
    }
}

/// Of two lists in a row, as many are kept as of the parts of them that were kept.
proof fn lemma_first_issues(a: Seq<IssueModel>, b: Seq<IssueModel>, max: nat, n: nat)
    ensures
        first_issues(a + moved(b, n), max) == first_issues(
            first_issues(a, max) + moved(first_issues(b, max), n),
            max,
        ),
{
    let whole = first_issues(a + moved(b, n), max);
    let parts = first_issues(first_issues(a, max) + moved(first_issues(b, max), n), max);
    assert(whole.len() == parts.len());
    assert forall|i: int| 0 <= i < whole.len() implies whole[i] == parts[i] by {
        if i >= a.len() {
            assert(first_issues(a, max).len() == a.len());
            assert(whole[i] == moved(b, n)[i - a.len()]);
            assert(parts[i] == moved(first_issues(b, max), n)[i - a.len()]);
        }
    }
    assert(whole =~= parts);
}

/// Whether the counts of `c` are those of `a` and `b` added up.
pub open spec fn are_summed(c: StatsModel, a: StatsModel, b: StatsModel) -> bool {
    &&& c.lines == a.lines + b.lines
    &&& c.bytes == a.bytes + b.bytes
    &&& c.blank == a.blank + b.blank
    &&& c.valid == a.valid + b.valid
    &&& c.invalid == a.invalid + b.invalid
    &&& c.objects == a.objects + b.objects
    &&& forall|label: Name| #[trigger]
        tally::count_of(c.types, label) == tally::count_of(a.types, label) + tally::count_of(
            b.types,
            label,
        )
    &&& c.fields.len() == a.fields.len()
    &&& c.fields.len() == b.fields.len()
    &&& forall|i: int| #![trigger c.fields[i]]
        0 <= i < c.fields.len() ==> are_fields_summed(c.fields[i], a.fields[i], b.fields[i])
}

/// Whether the counts of the field `c` are those of `a` and `b` added up.
pub open spec fn are_fields_summed(c: FieldModel, a: FieldModel, b: FieldModel) -> bool {
    &&& c.path == a.path
    &&& c.path == b.path
    &&& c.records_matched == a.records_matched + b.records_matched
    &&& c.records_missing == a.records_missing + b.records_missing
    &&& c.values == a.values + b.values
    &&& forall|label: Name| #[trigger]
        tally::count_of(c.types, label) == tally::count_of(a.types, label) + tally::count_of(
            b.types,
            label,
        )
}

proof fn lemma_joined_tallies(a: Seq<Json>, b: Seq<Json>)
    ensures
        forall|label: Name| #[trigger]
            tally::count_of(tally::tally_of(values::labels(a + b)), label) == tally::count_of(
                tally::tally_of(values::labels(a)),
                label,
            ) + tally::count_of(tally::tally_of(values::labels(b)), label),
{
    tally::law_tally_counts_occurrences(values::labels(a));
    tally::law_tally_counts_occurrences(values::labels(b));
    tally::law_tally_counts_occurrences(values::labels(a + b));
    assert(values::labels(a + b) =~= values::labels(a) + values::labels(b));
    assert forall|label: Name| #[trigger]
        tally::count_of(tally::tally_of(values::labels(a + b)), label) == tally::count_of(
            tally::tally_of(values::labels(a)),
            label,
        ) + tally::count_of(tally::tally_of(values::labels(b)), label) by {
        tally::lemma_occurrences_concat(values::labels(a), values::labels(b), label);
        assert(tally::count_of(tally::tally_of(values::labels(a)), label) == tally::occurrences(
            values::labels(a),
            label,
        ));
        assert(tally::count_of(tally::tally_of(values::labels(b)), label) == tally::occurrences(
            values::labels(b),
            label,
        ));
    }
}

proof fn lemma_joined_fields(path: PathModel, max: nat, a: Seq<Json>, b: Seq<Json>)
    ensures
        are_fields_summed(
            field_of(path, max, a + b),
            field_of(path, max, a),
            field_of(path, max, b),
        ),
{
    let fresh = model::fresh_field(path);
    lemma_joined_records(a, b, path);
    lemma_matched_within(a, path);
    lemma_matched_within(b, path);
    lemma_same_path(fresh, max, selected(a, path));
    lemma_same_path(fresh, max, selected(b, path));
    lemma_same_path(fresh, max, selected(a + b, path));
    law_tracked_values_are_exact(path, max, selected(a, path), Seq::empty());
    law_tracked_values_are_exact(path, max, selected(b, path), Seq::empty());
    law_tracked_values_are_exact(path, max, selected(a + b, path), Seq::empty());
    lemma_joined_tallies(selected(a, path), selected(b, path));
}

/// The check of two files put together has the counts of both added up: lines, bytes and their
/// kinds, the types of the records, and for each field its records, values and types. Its broken
/// lines are the first of those of both, with the lines of the second counted on. The first file
/// has to end a line, and the second must not start with a byte order mark.
pub proof fn law_joined_files_add_up(a: Seq<u8>, b: Seq<u8>, options: OptionsModel)
    requires
        lines::ends_a_line(a),
        !lines::has_mark(b),
    ensures
        ({
            let first = model::stats_of(a, options);
            let second = model::stats_of(b, options);
            let both = model::stats_of(a + b, options);
            &&& are_summed(both, first, second)
            &&& both.issues == first_issues(
                first.issues + moved(second.issues, first.lines),
                options.max_issues,
            )
        }),
{
    let x = lines::lines_of(a);
    let y = lines::lines_of(b);
    let n = x.len();
    let z = lines::renumbered(y, n);
    let first = model::stats_of(a, options);
    let second = model::stats_of(b, options);
    let both = model::stats_of(a + b, options);
    lines::law_lines_of_joined_files(a, b);
    law_every_line_is_classified(options, x);
    law_every_line_is_classified(options, y);
    law_every_line_is_classified(options, x + z);
    lemma_joined_lines(x, z);
    lemma_renumbered_lines(y, n);
    lemma_first_issues(broken(x), broken(y), options.max_issues, n);
    law_parts_are_sums_over_the_records(options, x);
    law_parts_are_sums_over_the_records(options, y);
    law_parts_are_sums_over_the_records(options, x + z);
    lemma_joined_tallies(records(x), records(y));
    lemma_joined_records(
        records(x),
        records(y),
        PathModel { source: Seq::empty(), steps: Seq::empty() },
    );
    assert forall|i: int| #![trigger both.fields[i]]
        0 <= i < both.fields.len() implies are_fields_summed(
        both.fields[i],
        first.fields[i],
        second.fields[i],
    ) by {
        lemma_joined_fields(options.fields[i], options.max_distinct, records(x), records(y));
    }
}

} // verus!

//! What a report says of the lines of a file.
use super::laws;
use super::model;
use super::model::{FieldModel, IssueModel, KeyModel, OptionsModel};
use super::report;
use crate::hist;
use crate::json::model as values;
use crate::json::model::Json;
use crate::lines::LineModel;
use crate::path::PathModel;
use crate::render;
use crate::rounding;
use crate::table;
use crate::table::Name;
use crate::tally;
use crate::text;
use vstd::prelude::*;

verus! {

// ---------------------------------------------------------------------------------------------
// What is to be said
// ---------------------------------------------------------------------------------------------

/// How many lines of each kind there are, and how many bytes.
pub open spec fn told_head(all: Seq<LineModel>, source: Seq<char>) -> Seq<char> {
    "file    "@ + source + "\nlines   "@ + text::pad_start(render::grouped(all.len()), 12)
        + "   blank "@ + render::grouped(laws::blanks(all)) + "   invalid "@ + render::grouped(
        laws::broken(all).len(),
    ) + "   valid "@ + render::grouped(laws::records(all).len()) + "\nbytes   "@ + text::pad_start(
        render::grouped(laws::taken(all)),
        12,
    ) + "   ("@ + render::size_text(laws::taken(all)) + ")\n"@
}

/// How many records of each type there are, where there are any.
pub open spec fn told_types(all: Seq<LineModel>) -> Seq<char> {
    let found = laws::records(all);
    if found.len() == 0 {
        Seq::empty()
    } else {
        "top level  "@ + render::rows_text(
            tally::ranked(tally::tally_of(values::labels(found))),
            true,
        ) + "\n"@
    }
}

/// How long the lines are that are not blank, where there are any.
pub open spec fn told_lengths(all: Seq<LineModel>) -> Seq<char> {
    let h = hist::hist_of(laws::lengths(all));
    if laws::lengths(all).len() == 0 {
        Seq::empty()
    } else {
        "\nline length in bytes\n  min "@ + text::decimal(h.min) + "   p50 "@ + text::decimal(
            hist::percentile(h, 50),
        ) + "   p90 "@ + text::decimal(hist::percentile(h, 90)) + "   p99 "@ + text::decimal(
            hist::percentile(h, 99),
        ) + "   max "@ + text::decimal(h.max) + "   mean "@ + rounding::fixed(hist::mean_of(h), 1)
            + "\n"@
    }
}

/// The names that the members of the objects have.
pub open spec fn member_names(all: Seq<LineModel>) -> Seq<Name> {
    laws::names(laws::members(laws::records(all)))
}

/// The types of the members called `name`.
pub open spec fn types_named(list: Seq<(Name, Json)>, name: Name) -> Seq<Name>
    decreases list.len(),
{
    if list.len() == 0 {
        Seq::empty()
    } else if list.last().0 == name {
        types_named(list.drop_last(), name).push(values::type_label(list.last().1))
    } else {
        types_named(list.drop_last(), name)
    }
}

/// How often one key occurs, in what share of the objects, and with which types.
pub open spec fn told_key(all: Seq<LineModel>, row: (Name, nat)) -> Seq<char> {
    let found = laws::records(all);
    let types = tally::tally_of(types_named(laws::members(found), row.0));
    "  "@ + text::pad_end(render::shortened(row.0, 24), 24) + " "@ + text::pad_start(
        render::grouped(row.1),
        10,
    ) + "  "@ + text::pad_start(render::percentage(row.1, laws::objects(found)), 6) + "  "@
        + render::rows_text(tally::ranked(types), true) + "\n"@
}

/// The keys of the objects, the most frequent first, where there are any.
pub open spec fn told_keys(options: OptionsModel, all: Seq<LineModel>) -> Seq<char> {
    let rows = tally::ranked(tally::held(member_names(all), options.max_keys));
    let dropped = tally::turned_away(member_names(all), options.max_keys);
    if rows.len() == 0 {
        Seq::empty()
    } else {
        "\ntop level keys over "@ + render::grouped(laws::objects(laws::records(all)))
            + " objects\n  key                          count     rate  types\n"@ + text::strung(
            Seq::new(rows.len(), |i: int| told_key(all, rows[i])),
        ) + (if dropped == 0 {
            Seq::empty()
        } else {
            "  ... "@ + render::grouped(dropped) + " more key occurrences not tracked (limit "@
                + text::decimal(options.max_keys) + ")\n"@
        })
    }
}

/// The words for the values that `path` selects in the records.
pub open spec fn words_selected(all: Seq<LineModel>, path: PathModel) -> Seq<Name> {
    laws::renderings(laws::selected(laws::records(all), path))
}

/// How often one value occurs, and in what share of `total` values.
pub open spec fn told_value(row: (Name, nat), total: nat) -> Seq<char> {
    "    "@ + text::pad_start(render::grouped(row.1), 10) + "  "@ + text::pad_start(
        render::percentage(row.1, total),
        6,
    ) + "  "@ + row.0 + "\n"@
}

/// In how many of `total` records a path selects anything, and in what share of them.
pub open spec fn told_presence(path: PathModel, hits: nat, total: nat) -> Seq<char> {
    "\nfield "@ + path.source + "\n  present in "@ + render::grouped(hits) + " of "@
        + render::grouped(total) + " records ("@ + render::percentage(hits, total) + "), "@
}

/// The `n` most frequent of the tracked values that `path` selects.
pub open spec fn most_frequent(
    options: OptionsModel,
    all: Seq<LineModel>,
    path: PathModel,
    n: nat,
) -> Seq<(Name, nat)> {
    let rows = tally::ranked(tally::held(words_selected(all, path), options.max_distinct));
    if rows.len() <= n {
        rows
    } else {
        rows.take(n as int)
    }
}

/// In how many records a path selects anything, and what it selects in all of them.
pub open spec fn told_field(
    options: OptionsModel,
    all: Seq<LineModel>,
    path: PathModel,
    top: nat,
) -> Seq<char> {
    let found = laws::records(all);
    let picked = laws::selected(found, path);
    let words = words_selected(all, path);
    let rows = most_frequent(options, all, path, top);
    told_presence(path, laws::matched(found, path), found.len()) + render::grouped(picked.len())
        + " values, types "@ + render::rows_text(
        tally::ranked(tally::tally_of(values::labels(picked))),
        true,
    ) + "\n  "@ + render::grouped(
        tally::kept(words, options.max_distinct).len() + tally::turned_away(words, options.max_distinct),
    ) + " distinct values\n"@ + text::strung(
        Seq::new(rows.len(), |i: int| told_value(rows[i], picked.len())),
    )
}

/// The broken lines that are shown: the first `max_issues`.
pub open spec fn shown(options: OptionsModel, all: Seq<LineModel>) -> Seq<IssueModel> {
    let issues = laws::broken(all);
    if issues.len() <= options.max_issues {
        issues
    } else {
        issues.take(options.max_issues as int)
    }
}

/// Where and why one line is broken.
pub open spec fn told_issue(issue: IssueModel) -> Seq<char> {
    "  line "@ + text::decimal(issue.line) + " col "@ + text::decimal(issue.column) + ": "@
        + issue.reason + "\n"@
}

/// The broken lines, where any are shown.
pub open spec fn told_issues(options: OptionsModel, all: Seq<LineModel>) -> Seq<char> {
    let rows = shown(options, all);
    if rows.len() == 0 {
        Seq::empty()
    } else {
        "\ninvalid lines ("@ + render::grouped(laws::broken(all).len()) + " total, showing "@
            + text::decimal(rows.len()) + ")\n"@ + text::strung(
            Seq::new(rows.len(), |i: int| told_issue(rows[i])),
        )
    }
}

/// All that the text report is to say.
pub open spec fn told(
    options: OptionsModel,
    all: Seq<LineModel>,
    source: Seq<char>,
    top: nat,
) -> Seq<char> {
    let fields = options.fields;
    told_head(all, source) + told_types(all) + told_lengths(all) + told_keys(options, all)
        + text::strung(Seq::new(fields.len(), |i: int| told_field(options, all, fields[i], top)))
        + told_issues(options, all)
}

// ---------------------------------------------------------------------------------------------
// What is to be listed
// ---------------------------------------------------------------------------------------------

/// A count as a value.
pub open spec fn listed(n: nat) -> Json {
    Json::Number(text::decimal(n))
}

/// Counts as a value.
pub open spec fn listed_counts(rows: Seq<(Name, nat)>) -> Json {
    Json::Object(Seq::new(rows.len(), |i: int| (rows[i].0, listed(rows[i].1))))
}

/// The lengths of the lines that are not blank as a value.
pub open spec fn listed_lengths(all: Seq<LineModel>) -> Json {
    let h = hist::hist_of(laws::lengths(all));
    if laws::lengths(all).len() == 0 {
        Json::Null
    } else {
        Json::Object(
            seq![
                ("min"@, listed(h.min)),
                ("p50"@, listed(hist::percentile(h, 50))),
                ("p90"@, listed(hist::percentile(h, 90))),
                ("p99"@, listed(hist::percentile(h, 99))),
                ("max"@, listed(h.max)),
                ("mean"@, Json::Number(rounding::fixed(hist::mean_of(h), 4))),
            ],
        )
    }
}

/// A key as a value.
pub open spec fn listed_key(all: Seq<LineModel>, row: (Name, nat)) -> Json {
    let types = tally::tally_of(types_named(laws::members(laws::records(all)), row.0));
    Json::Object(seq![("count"@, listed(row.1)), ("types"@, listed_counts(types))])
}

/// The keys as a value, by name.
pub open spec fn listed_keys(options: OptionsModel, all: Seq<LineModel>) -> Json {
    let rows = tally::held(member_names(all), options.max_keys);
    Json::Object(Seq::new(rows.len(), |i: int| (rows[i].0, listed_key(all, rows[i]))))
}

/// One value of a field as a value.
pub open spec fn listed_value(row: (Name, nat)) -> Json {
    Json::Object(seq![("value"@, Json::Text(row.0)), ("count"@, listed(row.1))])
}

/// A field as a value.
pub open spec fn listed_field(
    options: OptionsModel,
    all: Seq<LineModel>,
    path: PathModel,
) -> Json {
    let found = laws::records(all);
    let picked = laws::selected(found, path);
    let hits = laws::matched(found, path);
    let rows = most_frequent(options, all, path, 20);
    Json::Object(
        seq![
            ("path"@, Json::Text(path.source)),
            ("records_matched"@, listed(hits)),
            ("records_missing"@, listed((found.len() - hits) as nat)),
            ("values"@, listed(picked.len())),
            ("types"@, listed_counts(tally::tally_of(values::labels(picked)))),
            ("top"@, Json::Array(Seq::new(rows.len(), |i: int| listed_value(rows[i])))),
        ],
    )
}

/// A broken line as a value.
pub open spec fn listed_issue(issue: IssueModel) -> Json {
    Json::Object(
        seq![
            ("line"@, listed(issue.line)),
            ("column"@, listed(issue.column)),
            ("reason"@, Json::Text(issue.reason)),
        ],
    )
}

/// All that the JSON report is to list.
pub open spec fn listing(
    options: OptionsModel,
    all: Seq<LineModel>,
    source: Seq<char>,
) -> Json {
    let found = laws::records(all);
    let fields = options.fields;
    let issues = shown(options, all);
    Json::Object(
        seq![
            ("file"@, Json::Text(source)),
            ("lines"@, listed(all.len())),
            ("bytes"@, listed(laws::taken(all))),
            ("blank"@, listed(laws::blanks(all))),
            ("valid"@, listed(found.len())),
            ("invalid"@, listed(laws::broken(all).len())),
            ("objects"@, listed(laws::objects(found))),
            ("line_length"@, listed_lengths(all)),
            ("types"@, listed_counts(tally::tally_of(values::labels(found)))),
            ("keys"@, listed_keys(options, all)),
            (
                "fields"@,
                Json::Array(
                    Seq::new(fields.len(), |i: int| listed_field(options, all, fields[i])),
                ),
            ),
            ("issues"@, Json::Array(Seq::new(issues.len(), |i: int| listed_issue(issues[i])))),
        ],
    )
}

// ---------------------------------------------------------------------------------------------
// Tables
// ---------------------------------------------------------------------------------------------

proof fn lemma_key_counts(rows: Seq<(Name, KeyModel)>, name: Name)
    requires
        table::sorted(rows),
    ensures
        table::sorted(report::key_counts(rows)),
        table::lookup(report::key_counts(rows), name) == (match table::lookup(rows, name) {
            Some(key) => Some(key.count),
            None => None,
        }),
{
    let counts = report::key_counts(rows);
    assert forall|i: int, j: int| 0 <= i < j < counts.len() implies table::name_before(
        #[trigger] counts[i].0,
        #[trigger] counts[j].0,
    ) by {
        assert(table::name_before(rows[i].0, rows[j].0));
    }
    let k = table::lemma_find(rows, name);
    if k < rows.len() && rows[k].0 == name {
        table::lemma_hit(rows, name, rows[k].1, k);
        table::lemma_hit(counts, name, counts[k].1, k);
    } else {
        assert(table::is_gap(counts, name, k)) by {
            assert forall|i: int| 0 <= i < k implies table::name_before(
                #[trigger] counts[i].0,
                name,
            ) by {
                assert(table::name_before(rows[i].0, name));
            }
            assert forall|i: int| k <= i < counts.len() implies table::name_before(
                name,
                #[trigger] counts[i].0,
            ) by {
                assert(table::name_before(name, rows[i].0));
            }
        }
        table::lemma_miss(rows, name, KeyModel { count: 0, types: Seq::empty() }, k);
        table::lemma_miss(counts, name, 0, k);
    }
}

/// The types that are tracked for a key are those of the members that are called so.
proof fn lemma_key_types(max: nat, list: Seq<(Name, Json)>, name: Name)
    ensures
        table::lookup(
            model::with_members(laws::no_keys(), max, list).rows,
            name,
        ) matches Some(key) ==> key.types == tally::tally_of(types_named(list, name)),
        laws::named(list, name) == 0 ==> types_named(list, name).len() == 0,
    decreases list.len(),
{
    model::lemma_with_members(laws::no_keys(), max, list);
    if list.len() > 0 {
        let init = list.drop_last();
        let before = model::with_members(laws::no_keys(), max, init);
        let seen = list.last().0;
        let kind = values::type_label(list.last().1);
        let known = table::lookup(before.rows, seen);
        lemma_key_types(max, init, name);
        model::lemma_with_members(laws::no_keys(), max, init);
        laws::law_tracked_keys_are_exact(max, init, name, name);
        table::lemma_placed(before.rows, seen, model::key_seen(known, kind));
        if name == seen {
            let now = types_named(init, name).push(kind);
            assert(now.drop_last() =~= types_named(init, name));
            if known is None && before.rows.len() < max {
                assert(tally::tally_of(types_named(init, name)) =~= Seq::empty());
            }
        }
    }
}

proof fn lemma_tally_len(names: Seq<Name>)
    ensures
        tally::tally_of(names).len() == 0 <==> names.len() == 0,
{
    tally::law_tally_counts_occurrences(names);
}

proof fn lemma_samples_counted(samples: Seq<nat>)
    ensures
        hist::hist_of(samples).count == samples.len(),
    decreases samples.len(),
{
    if samples.len() > 0 {
        lemma_samples_counted(samples.drop_last());
    }
}

// ---------------------------------------------------------------------------------------------
// The sections
// ---------------------------------------------------------------------------------------------

proof fn lemma_keys_are_tracked(options: OptionsModel, all: Seq<LineModel>)
    ensures
        ({
            let keys = model::observed_all(model::fresh(options), all).keys;
            let list = laws::members(laws::records(all));
            let names = member_names(all);
            &&& report::key_counts(keys.rows) == tally::held(names, options.max_keys)
            &&& keys.dropped == tally::turned_away(names, options.max_keys)
            &&& forall|i: int|
                0 <= i < keys.rows.len() ==> (#[trigger] keys.rows[i]).1.types == tally::tally_of(
                    types_named(list, keys.rows[i].0),
                )
            &&& forall|row: (Name, nat)| #[trigger]
                tally::held(names, options.max_keys).contains(row) ==> report::key_types(
                    keys.rows,
                    row.0,
                ) == tally::tally_of(types_named(list, row.0))
        }),
{
    let keys = model::observed_all(model::fresh(options), all).keys;
    let list = laws::members(laws::records(all));
    let names = member_names(all);
    let max = options.max_keys;
    let counts = report::key_counts(keys.rows);
    laws::law_the_first_keys_are_tracked(options, all);
    laws::law_parts_are_sums_over_the_records(options, all);
    model::lemma_with_members(laws::no_keys(), max, list);
    lemma_key_counts(keys.rows, Seq::empty());
    assert forall|name: Name| #[trigger] table::lookup(counts, name) is Some <==> tally::kept(
        names,
        max,
    ).contains(name) by {
        lemma_key_counts(keys.rows, name);
        assert(table::lookup(keys.rows, name) is Some <==> tally::kept(names, max).contains(name));
    }
    assert forall|name: Name| #[trigger] table::lookup(counts, name) is Some implies table::lookup(
        counts,
        name,
    )->0 == tally::occurrences(names, name) by {
        lemma_key_counts(keys.rows, name);
        assert(laws::is_exact(table::lookup(keys.rows, name)->0, list, name));
    }
    tally::lemma_held(counts, names, max);
    assert forall|i: int| 0 <= i < keys.rows.len() implies (#[trigger] keys.rows[i]).1.types
        == tally::tally_of(types_named(list, keys.rows[i].0)) by {
        table::lemma_hit(keys.rows, keys.rows[i].0, keys.rows[i].1, i);
        lemma_key_types(max, list, keys.rows[i].0);
    }
    assert forall|row: (Name, nat)| #[trigger]
        tally::held(names, max).contains(row) implies report::key_types(keys.rows, row.0)
        == tally::tally_of(types_named(list, row.0)) by {
        let k = choose|k: int| 0 <= k < counts.len() && counts[k] == row;
        table::lemma_hit(keys.rows, keys.rows[k].0, keys.rows[k].1, k);
        lemma_key_types(max, list, row.0);
    }
}

proof fn lemma_values_are_tracked(options: OptionsModel, all: Seq<LineModel>, i: int)
    requires
        0 <= i < options.fields.len(),
    ensures
        ({
            let path = options.fields[i];
            let f = model::observed_all(model::fresh(options), all).fields[i];
            let found = laws::records(all);
            let words = words_selected(all, path);
            &&& f.path == path
            &&& f.records_matched == laws::matched(found, path)
            &&& f.records_missing == found.len() - laws::matched(found, path)
            &&& laws::matched(found, path) <= found.len()
            &&& f.values == laws::selected(found, path).len()
            &&& f.types == tally::tally_of(values::labels(laws::selected(found, path)))
            &&& f.distinct == tally::held(words, options.max_distinct)
            &&& f.distinct.len() == tally::kept(words, options.max_distinct).len()
            &&& f.distinct_dropped == tally::turned_away(words, options.max_distinct)
        }),
{
    let path = options.fields[i];
    let f = model::observed_all(model::fresh(options), all).fields[i];
    let found = laws::records(all);
    let picked = laws::selected(found, path);
    let words = words_selected(all, path);
    laws::law_parts_are_sums_over_the_records(options, all);
    laws::law_the_first_values_are_tracked(options, all, i);
    laws::law_tracked_values_are_exact(path, options.max_distinct, picked, path.source);
    laws::lemma_matched_within(found, path);
    model::lemma_with_all_found(model::fresh_field(path), options.max_distinct, picked);
    tally::lemma_held(f.distinct, words, options.max_distinct);
}

proof fn lemma_value_lines(rows: Seq<(Name, nat)>, total: nat)
    ensures
        report::value_lines(rows, total) == text::strung(
            Seq::new(rows.len(), |i: int| told_value(rows[i], total)),
        ),
    decreases rows.len(),
{
    let pieces = Seq::new(rows.len(), |i: int| told_value(rows[i], total));
    if rows.len() > 0 {
        let init = rows.drop_last();
        lemma_value_lines(init, total);
        assert(pieces.drop_last() =~= Seq::new(init.len(), |i: int| told_value(init[i], total)));
    }
}

proof fn lemma_issue_lines(rows: Seq<IssueModel>)
    ensures
        report::issue_lines(rows) == text::strung(
            Seq::new(rows.len(), |i: int| told_issue(rows[i])),
        ),
    decreases rows.len(),
{
    let pieces = Seq::new(rows.len(), |i: int| told_issue(rows[i]));
    if rows.len() > 0 {
        let init = rows.drop_last();
        lemma_issue_lines(init);
        assert(pieces.drop_last() =~= Seq::new(init.len(), |i: int| told_issue(init[i])));
    }
}

proof fn lemma_key_lines(
    all: Seq<LineModel>,
    order: Seq<(Name, nat)>,
    rows: Seq<(Name, KeyModel)>,
)
    requires
        forall|i: int|
            0 <= i < order.len() ==> report::key_types(rows, (#[trigger] order[i]).0)
                == tally::tally_of(types_named(laws::members(laws::records(all)), order[i].0)),
    ensures
        report::key_lines(order, rows, laws::objects(laws::records(all))) == text::strung(
            Seq::new(order.len(), |i: int| told_key(all, order[i])),
        ),
    decreases order.len(),
{
    let pieces = Seq::new(order.len(), |i: int| told_key(all, order[i]));
    if order.len() > 0 {
        let init = order.drop_last();
        assert forall|i: int| 0 <= i < init.len() implies report::key_types(
            rows,
            (#[trigger] init[i]).0,
        ) == tally::tally_of(types_named(laws::members(laws::records(all)), init[i].0)) by {
            assert(init[i] == order[i]);
        }
        lemma_key_lines(all, init, rows);
        assert(pieces.drop_last() =~= Seq::new(init.len(), |i: int| told_key(all, init[i])));
        assert(order.last() == order[order.len() - 1]);
    }
}

proof fn lemma_told_keys(options: OptionsModel, all: Seq<LineModel>)
    ensures
        report::keys_text(model::observed_all(model::fresh(options), all)) == told_keys(
            options,
            all,
        ),
{
    broadcast use vstd::seq_lib::group_to_multiset_ensures;

    let m = model::observed_all(model::fresh(options), all);
    let rows = tally::held(member_names(all), options.max_keys);
    let order = tally::ranked(rows);
    laws::law_every_line_is_classified(options, all);
    laws::law_parts_are_sums_over_the_records(options, all);
    lemma_keys_are_tracked(options, all);
    tally::law_ranking_sorts(rows);
    assert(m.keys.rows.len() == report::key_counts(m.keys.rows).len());
    assert forall|i: int| 0 <= i < order.len() implies report::key_types(
        m.keys.rows,
        (#[trigger] order[i]).0,
    ) == tally::tally_of(types_named(laws::members(laws::records(all)), order[i].0)) by {
        assert(order.to_multiset().count(order[i]) > 0);
        assert(rows.contains(order[i]));
    }
    lemma_key_lines(all, order, m.keys.rows);
}

proof fn lemma_most_frequent(
    options: OptionsModel,
    all: Seq<LineModel>,
    path: PathModel,
    n: nat,
)
    ensures
        model::top_rows(tally::held(words_selected(all, path), options.max_distinct), n)
            == most_frequent(options, all, path, n),
{
    let rows = tally::ranked(tally::held(words_selected(all, path), options.max_distinct));
    if rows.len() <= n {
        assert(rows.take(rows.len() as int) =~= rows);
    }
}

/// Of a field the text report says in how many of the valid records its path selects anything,
/// which share of them that is, and how many values of which types it selects in all of them.
pub proof fn law_field_profile_is_that_of_the_records(
    options: OptionsModel,
    all: Seq<LineModel>,
    top: nat,
    i: int,
)
    requires
        0 <= i < options.fields.len(),
    ensures
        ({
            let m = model::observed_all(model::fresh(options), all);
            report::field_text(m.fields[i], m.valid, top) == told_field(
                options,
                all,
                options.fields[i],
                top,
            )
        }),
{
    let m = model::observed_all(model::fresh(options), all);
    let f = m.fields[i];
    let path = options.fields[i];
    laws::law_every_line_is_classified(options, all);
    lemma_values_are_tracked(options, all, i);
    lemma_most_frequent(options, all, path, top);
    lemma_value_lines(model::top_rows(f.distinct, top), f.values);
}

/// What is said of the presence of a field depends on the records alone in which its path selects
/// anything: they are no more than there are records, with those in which it selects nothing they
/// are all, their share is printed to the nearest tenth of a percent and is at most 100.0%, and
/// two fields that differ in anything else say the same.
pub proof fn law_presence_counts_records(
    f: FieldModel,
    g: FieldModel,
    valid: nat,
    top: nat,
) -> (tenths: nat)
    requires
        f.path == g.path,
        f.records_matched == g.records_matched,
        f.records_matched + f.records_missing == valid,
        0 < valid < 0x400_0000_0000,
    ensures
        ({
            let said = "\nfield "@ + f.path.source + "\n  present in "@ + render::grouped(
                f.records_matched,
            ) + " of "@ + render::grouped(valid) + " records ("@ + rounding::pointed(tenths, 1)
                + "%), "@;
            &&& report::field_text(f, valid, top).len() >= said.len()
            &&& report::field_text(g, valid, top).len() >= said.len()
            &&& report::field_text(f, valid, top).take(said.len() as int) == said
            &&& report::field_text(g, valid, top).take(said.len() as int) == said
        }),
        tenths <= 1000,
        2 * (tenths * valid) <= 2000 * f.records_matched + valid,
        2000 * f.records_matched <= 2 * (tenths * valid) + valid,
{
    let tenths = render::law_percentage_is_nearest(f.records_matched, valid);
    assert(tenths <= 1000) by (nonlinear_arith)
        requires
            2 * (tenths * valid) <= 2000 * f.records_matched + valid,
            f.records_matched <= valid,
            valid > 0,
    ;
    let start = "\nfield "@ + f.path.source + "\n  present in "@ + render::grouped(
        f.records_matched,
    ) + " of "@ + render::grouped(valid) + " records ("@;
    let said = start + rounding::pointed(tenths, 1) + "%), "@;
    reveal_strlit("%), ");
    reveal_strlit("), ");
    let share = rounding::pointed(tenths, 1) + seq!['%'];
    assert("%), "@ =~= seq!['%'] + "), "@);
    assert(start + share + "), "@ =~= said);
    lemma_field_starts(f, valid, top, said);
    lemma_field_starts(g, valid, top, said);
    tenths
}

proof fn lemma_field_starts(f: FieldModel, valid: nat, top: nat, said: Seq<char>)
    requires
        said == "\nfield "@ + f.path.source + "\n  present in "@ + render::grouped(
            f.records_matched,
        ) + " of "@ + render::grouped(valid) + " records ("@ + render::percentage(
            f.records_matched,
            valid,
        ) + "), "@,
    ensures
        report::field_text(f, valid, top).len() >= said.len(),
        report::field_text(f, valid, top).take(said.len() as int) == said,
{
    let rest = render::grouped(f.values) + " values, types "@ + render::rows_text(
        tally::ranked(f.types),
        true,
    ) + "\n  "@ + render::grouped(f.distinct.len() + f.distinct_dropped) + " distinct values\n"@
        + report::value_lines(model::top_rows(f.distinct, top), f.values);
    assert(report::field_text(f, valid, top) =~= said + rest);
    assert((said + rest).take(said.len() as int) =~= said);
}

proof fn lemma_told_fields(options: OptionsModel, all: Seq<LineModel>, top: nat, n: int)
    requires
        0 <= n <= options.fields.len(),
    ensures
        ({
            let m = model::observed_all(model::fresh(options), all);
            &&& m.fields.len() == options.fields.len()
            &&& report::field_lines(m.fields.take(n), m.valid, top) == text::strung(
                Seq::new(n as nat, |i: int| told_field(options, all, options.fields[i], top)),
            )
        }),
    decreases n,
{
    let m = model::observed_all(model::fresh(options), all);
    laws::law_parts_are_sums_over_the_records(options, all);
    let pieces = Seq::new(n as nat, |i: int| told_field(options, all, options.fields[i], top));
    if n > 0 {
        lemma_told_fields(options, all, top, n - 1);
        law_field_profile_is_that_of_the_records(options, all, top, n - 1);
        assert(m.fields.take(n).drop_last() =~= m.fields.take(n - 1));
        assert(pieces.drop_last() =~= Seq::new(
            (n - 1) as nat,
            |i: int| told_field(options, all, options.fields[i], top),
        ));
    }
}

proof fn lemma_shown(options: OptionsModel, all: Seq<LineModel>)
    ensures
        model::observed_all(model::fresh(options), all).issues == shown(options, all),
{
    laws::law_every_line_is_classified(options, all);
    let issues = laws::broken(all);
    if issues.len() <= options.max_issues {
        assert(issues.take(issues.len() as int) =~= issues);
    }
}

/// The text report says of every line of a file what it is: how many there are of each kind, how
/// long they are, which types and keys the records have, what each path selects in them, and
/// which lines are broken.
pub proof fn law_text_report_is_that_of_the_lines(
    options: OptionsModel,
    all: Seq<LineModel>,
    source: Seq<char>,
    top: nat,
)
    ensures
        report::text_report(model::observed_all(model::fresh(options), all), source, top) == told(
            options,
            all,
            source,
            top,
        ),
{
    let m = model::observed_all(model::fresh(options), all);
    laws::law_every_line_is_classified(options, all);
    laws::law_parts_are_sums_over_the_records(options, all);
    lemma_tally_len(values::labels(laws::records(all)));
    lemma_samples_counted(laws::lengths(all));
    lemma_told_keys(options, all);
    lemma_told_fields(options, all, top, options.fields.len() as int);
    assert(m.fields.take(m.fields.len() as int) =~= m.fields);
    lemma_shown(options, all);
    lemma_issue_lines(m.issues);
    assert(report::head_text(m, source) == told_head(all, source));
    assert(report::types_text(m) == told_types(all));
    assert(report::lengths_text(m.lengths) == told_lengths(all));
    assert(report::issues_text(m) == told_issues(options, all));
}

// ---------------------------------------------------------------------------------------------
// The listing
// ---------------------------------------------------------------------------------------------

proof fn lemma_listed_counts(rows: Seq<(Name, nat)>)
    ensures
        render::counts_object(rows) == listed_counts(rows),
{
    let a = Seq::new(rows.len(), |i: int| (rows[i].0, render::number(rows[i].1)));
    let b = Seq::new(rows.len(), |i: int| (rows[i].0, listed(rows[i].1)));
    assert(a =~= b);
}

proof fn lemma_listed_keys(options: OptionsModel, all: Seq<LineModel>)
    ensures
        report::keys_value(model::observed_all(model::fresh(options), all).keys.rows)
            == listed_keys(options, all),
{
    let keys = model::observed_all(model::fresh(options), all).keys;
    let rows = tally::held(member_names(all), options.max_keys);
    lemma_keys_are_tracked(options, all);
    let a = Seq::new(
        keys.rows.len(),
        |i: int| (keys.rows[i].0, report::key_value(keys.rows[i].1)),
    );
    let b = Seq::new(rows.len(), |i: int| (rows[i].0, listed_key(all, rows[i])));
    assert(report::key_counts(keys.rows).len() == rows.len());
    assert forall|i: int| 0 <= i < rows.len() implies a[i] == b[i] by {
        assert(rows[i] == (keys.rows[i].0, keys.rows[i].1.count));
        lemma_listed_counts(keys.rows[i].1.types);
        let types = tally::tally_of(types_named(laws::members(laws::records(all)), rows[i].0));
        assert(report::key_members(keys.rows[i].1) =~= seq![
            ("count"@, listed(rows[i].1)),
            ("types"@, listed_counts(types)),
        ]);
    }
    assert(a =~= b);
}

proof fn lemma_listed_field(options: OptionsModel, all: Seq<LineModel>, i: int)
    requires
        0 <= i < options.fields.len(),
    ensures
        report::field_value(model::observed_all(model::fresh(options), all).fields[i])
            == listed_field(options, all, options.fields[i]),
{
    let f = model::observed_all(model::fresh(options), all).fields[i];
    let path = options.fields[i];
    lemma_values_are_tracked(options, all, i);
    lemma_most_frequent(options, all, path, 20);
    lemma_listed_counts(f.types);
    let rows = most_frequent(options, all, path, 20);
    let a = Seq::new(rows.len(), |k: int| report::top_value(rows[k]));
    let b = Seq::new(rows.len(), |k: int| listed_value(rows[k]));
    assert forall|k: int| 0 <= k < rows.len() implies a[k] == b[k] by {
        assert(report::top_members(rows[k]) =~= seq![
            ("value"@, Json::Text(rows[k].0)),
            ("count"@, listed(rows[k].1)),
        ]);
    }
    assert(a =~= b);
}

/// The JSON report lists of every line of a file what the text report says of it, with the twenty
/// most frequent values of each field.
pub proof fn law_json_report_is_that_of_the_lines(
    options: OptionsModel,
    all: Seq<LineModel>,
    source: Seq<char>,
)
    ensures
        report::report_value(model::observed_all(model::fresh(options), all), source) == listing(
            options,
            all,
            source,
        ),
{
    let m = model::observed_all(model::fresh(options), all);
    let fields = options.fields;
    laws::law_every_line_is_classified(options, all);
    laws::law_parts_are_sums_over_the_records(options, all);
    lemma_samples_counted(laws::lengths(all));
    lemma_listed_counts(m.types);
    lemma_listed_keys(options, all);
    lemma_shown(options, all);
    let issues = m.issues;
    let a = Seq::new(issues.len(), |i: int| report::issue_value(issues[i]));
    let b = Seq::new(issues.len(), |i: int| listed_issue(issues[i]));
    assert(a =~= b);
    let c = Seq::new(m.fields.len(), |i: int| report::field_value(m.fields[i]));
    let d = Seq::new(fields.len(), |i: int| listed_field(options, all, fields[i]));
    assert forall|i: int| 0 <= i < fields.len() implies c[i] == d[i] by {
        lemma_listed_field(options, all, i);
    }
    assert(c =~= d);
    assert(report::lengths_value(m.lengths) == listed_lengths(all));
    assert(report::report_members(m, source) == listing(options, all, source)->Object_0);
}

/// Unless it is asked otherwise, a check keeps the first ten broken lines and the first 512
/// different keys, and looks at no field; of a field it keeps the first 10,000 different values.
/// Occurrences are turned away only where there are more.
pub proof fn law_default_limits(all: Seq<LineModel>, fields: Seq<PathModel>, i: int)
    requires
        0 <= i < fields.len(),
    ensures
        ({
            let m = model::observed_all(model::fresh(model::default_options()), all);
            &&& m.fields.len() == 0
            &&& laws::broken(all).len() <= 10 ==> m.issues == laws::broken(all)
            &&& laws::broken(all).len() >= 10 ==> m.issues == laws::broken(all).take(10)
            &&& tally::firsts(member_names(all)).len() <= 512 ==> m.keys.rows.len()
                == tally::firsts(member_names(all)).len() && m.keys.dropped == 0
            &&& tally::firsts(member_names(all)).len() > 512 ==> m.keys.rows.len() == 512
                && m.keys.dropped > 0
        }),
        ({
            let options = OptionsModel { fields, ..model::default_options() };
            let f = model::observed_all(model::fresh(options), all).fields[i];
            let words = words_selected(all, fields[i]);
            &&& tally::firsts(words).len() <= 10_000 ==> f.distinct.len() == tally::firsts(
                words,
            ).len() && f.distinct_dropped == 0
            &&& tally::firsts(words).len() > 10_000 ==> f.distinct.len() == 10_000
                && f.distinct_dropped > 0
        }),
{
    let base = model::default_options();
    laws::law_every_line_is_classified(base, all);
    laws::law_parts_are_sums_over_the_records(base, all);
    laws::law_the_first_keys_are_tracked(base, all);
    let broken = laws::broken(all);
    if broken.len() <= 10 {
        assert(broken.take(broken.len() as int) =~= broken);
    }
    tally::lemma_turned_away(member_names(all), 512);
    let options = OptionsModel { fields, ..base };
    lemma_values_are_tracked(options, all, i);
    tally::lemma_turned_away(words_selected(all, fields[i]), 10_000);
}

} // verus!

//! The two forms of the health report: a text for people, and one JSON object.
use super::model;
use super::model::{FieldModel, IssueModel, KeyModel, StatsModel};
use super::{FieldStat, KeyStat, LineIssue, Stats};
use crate::hist;
use crate::json;
use crate::json::model::Json;
use crate::json::Value;
use crate::render;
use crate::render::{
    counts_value, human_bytes, no_members, number_value, percent, push_item, push_member,
    render_types, started, text_value, thousands, truncate,
};
use crate::rounding;
use crate::rounding::push_fixed;
use crate::table;
use crate::table::Name;
use crate::tally;
use crate::tally::insert_ranked_row;
use crate::text;
use crate::text::{push_decimal, push_pad_end, push_pad_start};
use vstd::prelude::*;

verus! {

// ---------------------------------------------------------------------------------------------
// The text report
// ---------------------------------------------------------------------------------------------

/// The lines on the file as a whole.
pub open spec fn head_text(m: StatsModel, source: Seq<char>) -> Seq<char> {
    "file    "@ + source + "\nlines   "@ + text::pad_start(render::grouped(m.lines), 12)
        + "   blank "@ + render::grouped(m.blank) + "   invalid "@ + render::grouped(m.invalid)
        + "   valid "@ + render::grouped(m.valid) + "\nbytes   "@ + text::pad_start(
        render::grouped(m.bytes),
        12,
    ) + "   ("@ + render::size_text(m.bytes) + ")\n"@
}

/// The line on the types of the records, where there are any.
pub open spec fn types_text(m: StatsModel) -> Seq<char> {
    if m.types.len() == 0 {
        Seq::empty()
    } else {
        "top level  "@ + render::rows_text(tally::ranked(m.types), true) + "\n"@
    }
}

/// The lines on the line lengths, where there are any.
pub open spec fn lengths_text(h: hist::HistModel) -> Seq<char> {
    if h.count == 0 {
        Seq::empty()
    } else {
        "\nline length in bytes\n  min "@ + text::decimal(h.min) + "   p50 "@ + text::decimal(
            hist::percentile(h, 50),
        ) + "   p90 "@ + text::decimal(hist::percentile(h, 90)) + "   p99 "@ + text::decimal(
            hist::percentile(h, 99),
        ) + "   max "@ + text::decimal(h.max) + "   mean "@ + rounding::fixed(hist::mean_of(h), 1)
            + "\n"@
    }
}

/// The keys with their counts.
pub open spec fn key_counts(rows: Seq<(Name, KeyModel)>) -> Seq<(Name, nat)> {
    Seq::new(rows.len(), |i: int| (rows[i].0, rows[i].1.count))
}

/// The types of the values of the key `name`: none, where there is no such key.
pub open spec fn key_types(rows: Seq<(Name, KeyModel)>, name: Name) -> Seq<(Name, nat)> {
    match table::lookup(rows, name) {
        Some(key) => key.types,
        None => Seq::empty(),
    }
}

/// The line on one key.
pub open spec fn key_text(row: (Name, nat), types: Seq<(Name, nat)>, objects: nat) -> Seq<char> {
    "  "@ + text::pad_end(render::shortened(row.0, 24), 24) + " "@ + text::pad_start(
        render::grouped(row.1),
        10,
    ) + "  "@ + text::pad_start(render::percentage(row.1, objects), 6) + "  "@ + render::rows_text(
        tally::ranked(types),
        true,
    ) + "\n"@
}

/// The lines on the keys in `order`.
pub open spec fn key_lines(
    order: Seq<(Name, nat)>,
    rows: Seq<(Name, KeyModel)>,
    objects: nat,
) -> Seq<char>
    decreases order.len(),
{
    if order.len() == 0 {
        Seq::empty()
    } else {
        key_lines(order.drop_last(), rows, objects) + key_text(
            order.last(),
            key_types(rows, order.last().0),
            objects,
        )
    }
}

/// The line on the key occurrences that found no room, where there are any.
pub open spec fn dropped_text(dropped: nat, max: nat) -> Seq<char> {
    if dropped == 0 {
        Seq::empty()
    } else {
        "  ... "@ + render::grouped(dropped) + " more key occurrences not tracked (limit "@
            + text::decimal(max) + ")\n"@
    }
}

/// The table of keys, the most frequent first, where there are any.
pub open spec fn keys_text(m: StatsModel) -> Seq<char> {
    if m.keys.rows.len() == 0 {
        Seq::empty()
    } else {
        "\ntop level keys over "@ + render::grouped(m.objects)
            + " objects\n  key                          count     rate  types\n"@ + key_lines(
            tally::ranked(key_counts(m.keys.rows)),
            m.keys.rows,
            m.objects,
        ) + dropped_text(m.keys.dropped, m.options.max_keys)
    }
}

/// The line on one value of a field that has `values` values.
pub open spec fn value_text(row: (Name, nat), values: nat) -> Seq<char> {
    "    "@ + text::pad_start(render::grouped(row.1), 10) + "  "@ + text::pad_start(
        render::percentage(row.1, values),
        6,
    ) + "  "@ + row.0 + "\n"@
}

/// The lines on the values in `rows`.
pub open spec fn value_lines(rows: Seq<(Name, nat)>, values: nat) -> Seq<char>
    decreases rows.len(),
{
    if rows.len() == 0 {
        Seq::empty()
    } else {
        value_lines(rows.drop_last(), values) + value_text(rows.last(), values)
    }
}

/// The lines on one field, with its `top` most frequent values.
pub open spec fn field_text(f: FieldModel, valid: nat, top: nat) -> Seq<char> {
    "\nfield "@ + f.path.source + "\n  present in "@ + render::grouped(f.records_matched) + " of "@
        + render::grouped(valid) + " records ("@ + render::percentage(f.records_matched, valid)
        + "), "@ + render::grouped(f.values) + " values, types "@ + render::rows_text(
        tally::ranked(f.types),
        true,
    ) + "\n  "@ + render::grouped(f.distinct.len() + f.distinct_dropped) + " distinct values\n"@
        + value_lines(model::top_rows(f.distinct, top), f.values)
}

/// The lines on all fields.
pub open spec fn field_lines(fields: Seq<FieldModel>, valid: nat, top: nat) -> Seq<char>
    decreases fields.len(),
{
    if fields.len() == 0 {
        Seq::empty()
    } else {
        field_lines(fields.drop_last(), valid, top) + field_text(fields.last(), valid, top)
    }
}

/// The line on one broken line.
pub open spec fn issue_text(issue: IssueModel) -> Seq<char> {
    "  line "@ + text::decimal(issue.line) + " col "@ + text::decimal(issue.column) + ": "@
        + issue.reason + "\n"@
}

/// The lines on all broken lines that were kept.
pub open spec fn issue_lines(issues: Seq<IssueModel>) -> Seq<char>
    decreases issues.len(),
{
    if issues.len() == 0 {
        Seq::empty()
    } else {
        issue_lines(issues.drop_last()) + issue_text(issues.last())
    }
}

/// The list of broken lines, where there are any.
pub open spec fn issues_text(m: StatsModel) -> Seq<char> {
    if m.issues.len() == 0 {
        Seq::empty()
    } else {
        "\ninvalid lines ("@ + render::grouped(m.invalid) + " total, showing "@ + text::decimal(
            m.issues.len(),
        ) + ")\n"@ + issue_lines(m.issues)
    }
}

/// The report on the file `source`, with the `top` most frequent values of each field.
pub open spec fn text_report(m: StatsModel, source: Seq<char>, top: nat) -> Seq<char> {
    head_text(m, source) + types_text(m) + lengths_text(m.lengths) + keys_text(m) + field_lines(
        m.fields,
        m.valid,
        top,
    ) + issues_text(m)
}

impl FieldStat {
    /// Renders the lines on one field, with its `top` most frequent values.
    fn report_text(&self, valid: u64, top: usize) -> (out: String)
        requires
            self@.distinct.len() + self@.distinct_dropped <= u64::MAX,
        ensures
            out@ == field_text(self@, valid as nat, top as nat),
    {
        let mut out: String = started("\nfield ");
        out.append(self.path.source());
        out.append("\n  present in ");
        out.append(thousands(self.records_matched).as_str());
        out.append(" of ");
        out.append(thousands(valid).as_str());
        out.append(" records (");
        out.append(percent(self.records_matched, valid).as_str());
        out.append("), ");
        out.append(thousands(self.values).as_str());
        out.append(" values, types ");
        out.append(render_types(&self.types).as_str());
        out.append("\n  ");
        let distinct: u64 = self.distinct.len() as u64 + self.distinct_dropped;
        out.append(thousands(distinct).as_str());
        out.append(" distinct values\n");
        let rows: Vec<(&str, u64)> = self.top(top);
        let ghost all = tally::rows_model(rows@);
        let mut table: String = String::new();
        let mut i: usize = 0;
        assert(table@ =~= value_lines(all.take(0), self@.values));
        while i < rows.len()
            invariant
                i <= rows@.len(),
                all == tally::rows_model(rows@),
                all.len() == rows@.len(),
                table@ == value_lines(all.take(i as int), self@.values),
            decreases rows@.len() - i,
        {
            let mut row: String = started("    ");
            push_pad_start(&mut row, thousands(rows[i].1).as_str(), 10);
            row.append("  ");
            push_pad_start(&mut row, percent(rows[i].1, self.values).as_str(), 6);
            row.append("  ");
            row.append(rows[i].0);
            row.append("\n");
            table.append(row.as_str());
            proof {
                assert(all.take(i + 1).drop_last() =~= all.take(i as int));
                assert(all.take(i + 1).last() == (rows@[i as int].0@, rows@[i as int].1 as nat));
            }
            i = i + 1;
        }
        assert(all.take(i as int) =~= all);
        out.append(table.as_str());
        out
    }
}

impl Stats {
    fn head(&self, source: &str) -> (out: String)
        ensures
            out@ == head_text(self@, source@),
    {
        let mut out: String = started("file    ");
        out.append(source);
        out.append("\nlines   ");
        push_pad_start(&mut out, thousands(self.lines).as_str(), 12);
        out.append("   blank ");
        out.append(thousands(self.blank).as_str());
        out.append("   invalid ");
        out.append(thousands(self.invalid).as_str());
        out.append("   valid ");
        out.append(thousands(self.valid).as_str());
        out.append("\nbytes   ");
        push_pad_start(&mut out, thousands(self.bytes).as_str(), 12);
        out.append("   (");
        out.append(human_bytes(self.bytes).as_str());
        out.append(")\n");
        out
    }

    fn types_line(&self) -> (out: String)
        ensures
            out@ == types_text(self@),
    {
        if self.types.is_empty() {
            let out: String = String::new();
            assert(out@ =~= types_text(self@));
            return out;
        }
        let mut out: String = started("top level  ");
        out.append(render_types(&self.types).as_str());
        out.append("\n");
        out
    }

    fn lengths_line(&self) -> (out: String)
        requires
            self.lengths.wf(),
        ensures
            out@ == lengths_text(self@.lengths),
    {
        match (
            self.lengths.min(),
            self.lengths.max(),
            self.lengths.mean(),
            self.lengths.quantile(50),
            self.lengths.quantile(90),
            self.lengths.quantile(99),
        ) {
            (Some(min), Some(max), Some(mean), Some(p50), Some(p90), Some(p99)) => {
                let mut out: String = started("\nline length in bytes\n  min ");
                push_decimal(&mut out, min as u128);
                out.append("   p50 ");
                push_decimal(&mut out, p50 as u128);
                out.append("   p90 ");
                push_decimal(&mut out, p90 as u128);
                out.append("   p99 ");
                push_decimal(&mut out, p99 as u128);
                out.append("   max ");
                push_decimal(&mut out, max as u128);
                out.append("   mean ");
                push_fixed(&mut out, mean, 1);
                out.append("\n");
                out
            },
            _ => {
                let out: String = String::new();
                assert(out@ =~= lengths_text(self@.lengths));
                out
            },
        }
    }

    /// The keys with their counts, the most frequent first.
    fn keys_by_frequency(&self) -> (rows: Vec<(&str, u64)>)
        ensures
            tally::rows_model(rows@) == tally::ranked(key_counts(self.keys@)),
    {
        let ghost counts = key_counts(self.keys@);
        let mut rows: Vec<(&str, u64)> = Vec::new();
        let mut i: usize = 0;
        assert(tally::rows_model(rows@) =~= tally::ranked(counts.take(0)));
        while i < self.keys.len()
            invariant
                i <= self.keys@.len(),
                counts == key_counts(self.keys@),
                tally::rows_model(rows@) == tally::ranked(counts.take(i as int)),
            decreases self.keys@.len() - i,
        {
            let name: &str = self.keys.key_at(i).as_str();
            let n: u64 = self.keys.value_at(i).count;
            proof {
                assert(counts.take(i + 1).drop_last() =~= counts.take(i as int));
                assert(counts.take(i + 1).last() == (name@, n as nat));
            }
            insert_ranked_row(&mut rows, name, n);
            i = i + 1;
        }
        assert(counts.take(i as int) =~= counts);
        rows
    }

    /// Renders the types of the values of one key.
    fn types_of_key(&self, name: &str) -> (words: String)
        requires
            self.keys.wf(),
        ensures
            words@ == render::rows_text(tally::ranked(key_types(self.keys@, name@)), true),
    {
        match self.keys.get(name) {
            Some(stat) => render_types(&stat.types),
            None => {
                let words: String = String::new();
                assert(words@ =~= render::rows_text(
                    tally::ranked(Seq::<(Name, nat)>::empty()),
                    true,
                ));
                words
            },
        }
    }

    fn keys_table(&self) -> (out: String)
        requires
            self.keys.wf(),
        ensures
            out@ == keys_text(self@),
    {
        if self.keys.is_empty() {
            let out: String = String::new();
            assert(out@ =~= keys_text(self@));
            return out;
        }
        let mut out: String = started("\ntop level keys over ");
        out.append(thousands(self.objects).as_str());
        out.append(" objects\n  key                          count     rate  types\n");
        let rows: Vec<(&str, u64)> = self.keys_by_frequency();
        let ghost all = tally::rows_model(rows@);
        let mut table: String = String::new();
        let mut i: usize = 0;
        assert(table@ =~= key_lines(all.take(0), self.keys@, self@.objects));
        while i < rows.len()
            invariant
                self.keys.wf(),
                i <= rows@.len(),
                all == tally::rows_model(rows@),
                all.len() == rows@.len(),
                table@ == key_lines(all.take(i as int), self.keys@, self@.objects),
            decreases rows@.len() - i,
        {
            let (name, count): (&str, u64) = rows[i];
            let mut row: String = started("  ");
            push_pad_end(&mut row, truncate(name, 24).as_str(), 24);
            row.append(" ");
            push_pad_start(&mut row, thousands(count).as_str(), 10);
            row.append("  ");
            push_pad_start(&mut row, percent(count, self.objects).as_str(), 6);
            row.append("  ");
            row.append(self.types_of_key(name).as_str());
            row.append("\n");
            table.append(row.as_str());
            proof {
                assert(all.take(i + 1).drop_last() =~= all.take(i as int));
                assert(all.take(i + 1).last() == (name@, count as nat));
            }
            i = i + 1;
        }
        assert(all.take(i as int) =~= all);
        out.append(table.as_str());
        let mut dropped: String = String::new();
        if self.keys_dropped > 0 {
            dropped = started("  ... ");
            dropped.append(thousands(self.keys_dropped).as_str());
            dropped.append(" more key occurrences not tracked (limit ");
            push_decimal(&mut dropped, self.options.max_keys as u128);
            dropped.append(")\n");
        } else {
            assert(dropped@ =~= dropped_text(0, self@.options.max_keys));
        }
        out.append(dropped.as_str());
        out
    }

    fn field_list(&self, top: usize) -> (out: String)
        requires
            self.wf(),
        ensures
            out@ == field_lines(self@.fields, self@.valid, top as nat),
    {
        let ghost all = self@.fields;
        let mut out: String = String::new();
        let mut i: usize = 0;
        assert(out@ =~= field_lines(all.take(0), self@.valid, top as nat));
        while i < self.fields.len()
            invariant
                self.wf(),
                i <= self.fields@.len(),
                all == self@.fields,
                out@ == field_lines(all.take(i as int), self@.valid, top as nat),
            decreases self.fields@.len() - i,
        {
            proof {
                assert(self@.fields[i as int] == self.fields@[i as int]@);
                assert(all.take(i + 1).drop_last() =~= all.take(i as int));
                assert(all.take(i + 1).last() == self.fields@[i as int]@);
            }
            out.append(self.fields[i].report_text(self.valid, top).as_str());
            i = i + 1;
        }
        assert(all.take(i as int) =~= all);
        out
    }

    fn issue_list(&self) -> (out: String)
        ensures
            out@ == issues_text(self@),
    {
        if self.issues.len() == 0 {
            let out: String = String::new();
            assert(out@ =~= issues_text(self@));
            return out;
        }
        let mut out: String = started("\ninvalid lines (");
        out.append(thousands(self.invalid).as_str());
        out.append(" total, showing ");
        push_decimal(&mut out, self.issues.len() as u128);
        out.append(")\n");
        let ghost all = self@.issues;
        let mut list: String = String::new();
        let mut i: usize = 0;
        assert(list@ =~= issue_lines(all.take(0)));
        while i < self.issues.len()
            invariant
                i <= self.issues@.len(),
                all == self@.issues,
                list@ == issue_lines(all.take(i as int)),
            decreases self.issues@.len() - i,
        {
            let issue: &LineIssue = &self.issues[i];
            let mut row: String = started("  line ");
            push_decimal(&mut row, issue.line as u128);
            row.append(" col ");
            push_decimal(&mut row, issue.column as u128);
            row.append(": ");
            row.append(issue.reason.as_str());
            row.append("\n");
            list.append(row.as_str());
            proof {
                assert(all.take(i + 1).drop_last() =~= all.take(i as int));
                assert(all.take(i + 1).last() == issue@);
            }
            i = i + 1;
        }
        assert(all.take(i as int) =~= all);
        out.append(list.as_str());
        out
    }

    /// Renders the human readable report printed by `stats`.
    pub fn report_text(&self, source: &str, top_values: usize) -> (out: String)
        requires
            self.wf(),
        ensures
            out@ == text_report(self@, source@, top_values as nat),
    {
        let mut out: String = self.head(source);
        out.append(self.types_line().as_str());
        out.append(self.lengths_line().as_str());
        out.append(self.keys_table().as_str());
        out.append(self.field_list(top_values).as_str());
        out.append(self.issue_list().as_str());
        out
    }
}

// ---------------------------------------------------------------------------------------------
// The JSON report
// ---------------------------------------------------------------------------------------------

/// The members of the line lengths as a value.
pub open spec fn lengths_members(h: hist::HistModel) -> Seq<(Name, Json)> {
    seq![
        ("min"@, render::number(h.min)),
        ("p50"@, render::number(hist::percentile(h, 50))),
        ("p90"@, render::number(hist::percentile(h, 90))),
        ("p99"@, render::number(hist::percentile(h, 99))),
        ("max"@, render::number(h.max)),
        ("mean"@, Json::Number(rounding::fixed(hist::mean_of(h), 4))),
    ]
}

/// The line lengths as a value.
pub open spec fn lengths_value(h: hist::HistModel) -> Json {
    if h.count == 0 {
        Json::Null
    } else {
        Json::Object(lengths_members(h))
    }
}

/// The members of a key as a value.
pub open spec fn key_members(key: KeyModel) -> Seq<(Name, Json)> {
    seq![
        ("count"@, render::number(key.count)),
        ("types"@, render::counts_object(key.types)),
    ]
}

/// A key as a value.
pub open spec fn key_value(key: KeyModel) -> Json {
    Json::Object(key_members(key))
}

/// The keys as a value, in name order.
pub open spec fn keys_value(rows: Seq<(Name, KeyModel)>) -> Json {
    Json::Object(Seq::new(rows.len(), |i: int| (rows[i].0, key_value(rows[i].1))))
}

/// The members of one value of a field as a value.
pub open spec fn top_members(row: (Name, nat)) -> Seq<(Name, Json)> {
    seq![("value"@, Json::Text(row.0)), ("count"@, render::number(row.1))]
}

/// One value of a field, with its count, as a value.
pub open spec fn top_value(row: (Name, nat)) -> Json {
    Json::Object(top_members(row))
}

/// The most frequent values of a field as a value.
pub open spec fn top_values(rows: Seq<(Name, nat)>) -> Json {
    Json::Array(Seq::new(rows.len(), |i: int| top_value(rows[i])))
}

/// The members of a field as a value.
pub open spec fn field_members(f: FieldModel) -> Seq<(Name, Json)> {
    seq![
        ("path"@, Json::Text(f.path.source)),
        ("records_matched"@, render::number(f.records_matched)),
        ("records_missing"@, render::number(f.records_missing)),
        ("values"@, render::number(f.values)),
        ("types"@, render::counts_object(f.types)),
        ("top"@, top_values(model::top_rows(f.distinct, 20))),
    ]
}

/// A field as a value, with its twenty most frequent values.
pub open spec fn field_value(f: FieldModel) -> Json {
    Json::Object(field_members(f))
}

/// The fields as a value.
pub open spec fn fields_value(fields: Seq<FieldModel>) -> Json {
    Json::Array(Seq::new(fields.len(), |i: int| field_value(fields[i])))
}

/// The members of a broken line as a value.
pub open spec fn issue_members(issue: IssueModel) -> Seq<(Name, Json)> {
    seq![
        ("line"@, render::number(issue.line)),
        ("column"@, render::number(issue.column)),
        ("reason"@, Json::Text(issue.reason)),
    ]
}

/// A broken line as a value.
pub open spec fn issue_value(issue: IssueModel) -> Json {
    Json::Object(issue_members(issue))
}

/// The broken lines that were kept as a value.
pub open spec fn issues_value(issues: Seq<IssueModel>) -> Json {
    Json::Array(Seq::new(issues.len(), |i: int| issue_value(issues[i])))
}

/// The members of the report on the file `source`.
pub open spec fn report_members(m: StatsModel, source: Seq<char>) -> Seq<(Name, Json)> {
    seq![
        ("file"@, Json::Text(source)),
        ("lines"@, render::number(m.lines)),
        ("bytes"@, render::number(m.bytes)),
        ("blank"@, render::number(m.blank)),
        ("valid"@, render::number(m.valid)),
        ("invalid"@, render::number(m.invalid)),
        ("objects"@, render::number(m.objects)),
        ("line_length"@, lengths_value(m.lengths)),
        ("types"@, render::counts_object(m.types)),
        ("keys"@, keys_value(m.keys.rows)),
        ("fields"@, fields_value(m.fields)),
        ("issues"@, issues_value(m.issues)),
    ]
}

/// The report on the file `source` as a value.
pub open spec fn report_value(m: StatsModel, source: Seq<char>) -> Json {
    Json::Object(report_members(m, source))
}

impl KeyStat {
    fn to_value(&self) -> (value: Value)
        ensures
            value@ == key_value(self@),
    {
        let mut members: Vec<(String, Value)> = no_members();
        push_member(&mut members, "count", number_value(self.count));
        push_member(&mut members, "types", counts_value(&self.types));
        assert(json::members_model(members@) =~= key_members(self@));
        Value::Object(members)
    }
}

impl LineIssue {
    fn to_value(&self) -> (value: Value)
        ensures
            value@ == issue_value(self@),
    {
        let mut members: Vec<(String, Value)> = no_members();
        push_member(&mut members, "line", number_value(self.line));
        push_member(&mut members, "column", number_value(self.column as u64));
        push_member(&mut members, "reason", text_value(self.reason.as_str()));
        assert(json::members_model(members@) =~= issue_members(self@));
        Value::Object(members)
    }
}

impl FieldStat {
    /// The `n` most frequent values as a value.
    fn top_to_value(&self, n: usize) -> (value: Value)
        ensures
            value@ == top_values(model::top_rows(self@.distinct, n as nat)),
    {
        let rows: Vec<(&str, u64)> = self.top(n);
        let ghost all = tally::rows_model(rows@);
        let ghost wanted = Seq::new(all.len(), |k: int| top_value(all[k]));
        let mut items: Vec<Value> = Vec::new();
        let mut i: usize = 0;
        assert(json::items_model(items@) =~= wanted.take(0));
        while i < rows.len()
            invariant
                i <= rows@.len(),
                all == tally::rows_model(rows@),
                all.len() == rows@.len(),
                wanted == Seq::new(all.len(), |k: int| top_value(all[k])),
                json::items_model(items@) == wanted.take(i as int),
            decreases rows@.len() - i,
        {
            let mut members: Vec<(String, Value)> = no_members();
            push_member(&mut members, "value", text_value(rows[i].0));
            push_member(&mut members, "count", number_value(rows[i].1));
            proof {
                assert(all[i as int] == (rows@[i as int].0@, rows@[i as int].1 as nat));
                assert(json::members_model(members@) =~= top_members(all[i as int]));
                assert(wanted.take(i + 1) =~= wanted.take(i as int).push(wanted[i as int]));
            }
            push_item(&mut items, Value::Object(members));
            i = i + 1;
        }
        assert(wanted.take(i as int) =~= wanted);
        Value::Array(items)
    }

    fn to_value(&self) -> (value: Value)
        ensures
            value@ == field_value(self@),
    {
        let mut members: Vec<(String, Value)> = no_members();
        push_member(&mut members, "path", text_value(self.path.source()));
        push_member(&mut members, "records_matched", number_value(self.records_matched));
        push_member(&mut members, "records_missing", number_value(self.records_missing));
        push_member(&mut members, "values", number_value(self.values));
        push_member(&mut members, "types", counts_value(&self.types));
        push_member(&mut members, "top", self.top_to_value(20));
        assert(json::members_model(members@) =~= field_members(self@));
        Value::Object(members)
    }
}

impl Stats {
    fn lengths_to_value(&self) -> (value: Value)
        requires
            self.lengths.wf(),
        ensures
            value@ == lengths_value(self@.lengths),
    {
        match (
            self.lengths.min(),
            self.lengths.max(),
            self.lengths.mean(),
            self.lengths.quantile(50),
            self.lengths.quantile(90),
            self.lengths.quantile(99),
        ) {
            (Some(min), Some(max), Some(mean), Some(p50), Some(p90), Some(p99)) => {
                let mut lexeme: String = String::new();
                push_fixed(&mut lexeme, mean, 4);
                assert(lexeme@ =~= rounding::fixed(mean@, 4));
                let mut members: Vec<(String, Value)> = no_members();
                push_member(&mut members, "min", number_value(min));
                push_member(&mut members, "p50", number_value(p50));
                push_member(&mut members, "p90", number_value(p90));
                push_member(&mut members, "p99", number_value(p99));
                push_member(&mut members, "max", number_value(max));
                push_member(&mut members, "mean", Value::Number(lexeme));
                assert(json::members_model(members@) =~= lengths_members(self@.lengths));
                Value::Object(members)
            },
            _ => Value::Null,
        }
    }

    fn keys_to_value(&self) -> (value: Value)
        ensures
            value@ == keys_value(self.keys@),
    {
        let ghost rows = self.keys@;
        let ghost wanted = Seq::new(rows.len(), |k: int| (rows[k].0, key_value(rows[k].1)));
        let mut members: Vec<(String, Value)> = Vec::new();
        let mut i: usize = 0;
        assert(json::members_model(members@) =~= wanted.take(0));
        while i < self.keys.len()
            invariant
                i <= self.keys@.len(),
                rows == self.keys@,
                wanted == Seq::new(rows.len(), |k: int| (rows[k].0, key_value(rows[k].1))),
                json::members_model(members@) == wanted.take(i as int),
            decreases self.keys@.len() - i,
        {
            let value: Value = self.keys.value_at(i).to_value();
            push_member(&mut members, self.keys.key_at(i).as_str(), value);
            assert(wanted.take(i + 1) =~= wanted.take(i as int).push(wanted[i as int]));
            i = i + 1;
        }
        assert(wanted.take(i as int) =~= wanted);
        Value::Object(members)
    }

    fn fields_to_value(&self) -> (value: Value)
        ensures
            value@ == fields_value(self@.fields),
    {
        let ghost all = self@.fields;
        let ghost wanted = Seq::new(all.len(), |k: int| field_value(all[k]));
        let mut items: Vec<Value> = Vec::new();
        let mut i: usize = 0;
        assert(json::items_model(items@) =~= wanted.take(0));
        while i < self.fields.len()
            invariant
                i <= self.fields@.len(),
                all == self@.fields,
                wanted == Seq::new(all.len(), |k: int| field_value(all[k])),
                json::items_model(items@) == wanted.take(i as int),
            decreases self.fields@.len() - i,
        {
            push_item(&mut items, self.fields[i].to_value());
            assert(wanted.take(i + 1) =~= wanted.take(i as int).push(wanted[i as int]));
            i = i + 1;
        }
        assert(wanted.take(i as int) =~= wanted);
        Value::Array(items)
    }

    fn issues_to_value(&self) -> (value: Value)
        ensures
            value@ == issues_value(self@.issues),
    {
        let ghost all = self@.issues;
        let ghost wanted = Seq::new(all.len(), |k: int| issue_value(all[k]));
        let mut items: Vec<Value> = Vec::new();
        let mut i: usize = 0;
        assert(json::items_model(items@) =~= wanted.take(0));
        while i < self.issues.len()
            invariant
                i <= self.issues@.len(),
                all == self@.issues,
                wanted == Seq::new(all.len(), |k: int| issue_value(all[k])),
                json::items_model(items@) == wanted.take(i as int),
            decreases self.issues@.len() - i,
        {
            push_item(&mut items, self.issues[i].to_value());
            assert(wanted.take(i + 1) =~= wanted.take(i as int).push(wanted[i as int]));
            i = i + 1;
        }
        assert(wanted.take(i as int) =~= wanted);
        Value::Array(items)
    }

    /// Renders the same report as a single JSON object.
    pub fn report_json(&self, source: &str) -> (out: String)
        requires
            self.wf(),
        ensures
            out@ == json::model::json_text(report_value(self@, source@)),
    {
        let mut members: Vec<(String, Value)> = no_members();
        push_member(&mut members, "file", text_value(source));
        push_member(&mut members, "lines", number_value(self.lines));
        push_member(&mut members, "bytes", number_value(self.bytes));
        push_member(&mut members, "blank", number_value(self.blank));
        push_member(&mut members, "valid", number_value(self.valid));
        push_member(&mut members, "invalid", number_value(self.invalid));
        push_member(&mut members, "objects", number_value(self.objects));
        push_member(&mut members, "line_length", self.lengths_to_value());
        push_member(&mut members, "types", counts_value(&self.types));
        push_member(&mut members, "keys", self.keys_to_value());
        push_member(&mut members, "fields", self.fields_to_value());
        push_member(&mut members, "issues", self.issues_to_value());
        assert(json::members_model(members@) =~= report_members(self@, source@));
        Value::Object(members).to_json()
    }
}

} // verus!

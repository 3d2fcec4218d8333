//! The two forms of the schema: a table for people, and one JSON object.
use super::model;
use super::model::{SchemaModel, StatModel};
use super::{PathStat, Schema};
use crate::json;
use crate::json::model::Json;
use crate::json::Value;
use crate::render;
use crate::render::{
    no_members, number_value, percent_share, push_member, render_rows, rows_value, started,
};
use crate::rounding;
use crate::rounding::{is_at_least, push_fixed, round_quotient, round_whole, Fraction};
use crate::table::Name;
use crate::tally;
use crate::text;
use crate::text::{push_decimal, push_pad_end, push_pad_start};
use vstd::prelude::*;

verus! {

// ---------------------------------------------------------------------------------------------
// Rare paths
// ---------------------------------------------------------------------------------------------

/// The share of the `total` records that have a path, as double precision gives it.
pub open spec fn rate(stat: StatModel, total: nat) -> (nat, nat) {
    rounding::quotient(rounding::whole(stat.documents), rounding::whole(total))
}

/// Whether a path is in at least the share of the `total` records whose double has the bits
/// `min_rate`.
pub open spec fn is_common(stat: StatModel, total: nat, min_rate: u64) -> bool {
    total == 0 || rounding::at_least(rate(stat, total), min_rate)
}

/// The rows of the common paths.
pub open spec fn common(
    paths: Seq<(Name, StatModel)>,
    total: nat,
    min_rate: u64,
) -> Seq<(Name, StatModel)>
    decreases paths.len(),
{
    if paths.len() == 0 {
        Seq::empty()
    } else if is_common(paths.last().1, total, min_rate) {
        common(paths.drop_last(), total, min_rate).push(paths.last())
    } else {
        common(paths.drop_last(), total, min_rate)
    }
}

/// The rows that a vector of paths with their statistics holds.
pub open spec fn stats_model(rows: Seq<(&str, &PathStat)>) -> Seq<(Name, StatModel)> {
    Seq::new(rows.len(), |i: int| (rows[i].0@, rows[i].1@))
}

impl Schema {
    /// Whether a path is in at least the share `min_rate` of the documents.
    fn is_common(&self, stat: &PathStat, min_rate: u64) -> (yes: bool)
        ensures
            yes == is_common(stat@, self@.documents, min_rate),
    {
        if self.documents == 0 {
            return true;
        }
        let n: u128 = round_whole(stat.documents as u128);
        let d: u128 = round_whole(self.documents as u128);
        is_at_least(round_quotient(n, d), min_rate)
    }

    /// Paths that occur in at least `min_rate` of documents, sorted by path. The rate is given
    /// by the bits of its double.
    pub fn filtered(&self, min_rate: u64) -> (rows: Vec<(&str, &PathStat)>)
        ensures
            stats_model(rows@) == common(self@.paths, self@.documents, min_rate),
    {
        let ghost all = self@.paths;
        let mut rows: Vec<(&str, &PathStat)> = Vec::new();
        let mut i: usize = 0;
        assert(stats_model(rows@) =~= common(all.take(0), self@.documents, min_rate));
        while i < self.paths.len()
            invariant
                i <= all.len(),
                all == self.paths@,
                stats_model(rows@) == common(all.take(i as int), self@.documents, min_rate),
            decreases all.len() - i,
        {
            let ghost held = rows@;
            let path: &str = self.paths.key_at(i).as_str();
            let stat: &PathStat = self.paths.value_at(i);
            proof {
                assert(all.take(i + 1).drop_last() =~= all.take(i as int));
                assert(all.take(i + 1).last() == (path@, stat@));
            }
            if self.is_common(stat, min_rate) {
                rows.push((path, stat));
                assert(stats_model(rows@) =~= stats_model(held).push((path@, stat@)));
            }
            i = i + 1;
        }
        assert(all.take(i as int) =~= all);
        rows
    }
}

// ---------------------------------------------------------------------------------------------
// The text report
// ---------------------------------------------------------------------------------------------

/// The share of the `total` records that have a path, in percent.
pub open spec fn percent_rate(stat: StatModel, total: nat) -> (nat, nat) {
    if total == 0 {
        (0, 1)
    } else {
        render::share(stat.documents, total)
    }
}

/// The line on one path.
pub open spec fn path_text(row: (Name, StatModel), total: nat) -> Seq<char> {
    "  "@ + text::pad_end(row.0, 38) + " "@ + text::pad_start(
        rounding::fixed(percent_rate(row.1, total), 1),
        6,
    ) + "%  "@ + render::rows_text(tally::ranked(row.1.types), false) + "\n"@
}

/// The lines on the paths in `rows`.
pub open spec fn path_lines(rows: Seq<(Name, StatModel)>, total: nat) -> Seq<char>
    decreases rows.len(),
{
    if rows.len() == 0 {
        Seq::empty()
    } else {
        path_lines(rows.drop_last(), total) + path_text(rows.last(), total)
    }
}

/// The line that says that paths are missing, where they are.
pub open spec fn truncated_text(truncated: bool) -> Seq<char> {
    if truncated {
        "  ... path limit reached, output is incomplete\n"@
    } else {
        Seq::empty()
    }
}

/// The table of the paths that are in at least `min_rate` of the records.
pub open spec fn text_report(m: SchemaModel, min_rate: u64) -> Seq<char> {
    text::decimal(m.documents) + " records, depth "@ + text::decimal(m.options.max_depth)
        + "\n\n  "@ + text::pad_end("path"@, 38) + " "@ + text::pad_start("rate"@, 7)
        + "  types\n"@ + path_lines(common(m.paths, m.documents, min_rate), m.documents)
        + truncated_text(m.truncated)
}

impl Schema {
    fn path_row(&self, path: &str, stat: &PathStat) -> (out: String)
        ensures
            out@ == path_text((path@, stat@), self@.documents),
    {
        let mut number: String = String::new();
        let share: Fraction = if self.documents == 0 {
            Fraction { num: 0, den: 1 }
        } else {
            percent_share(stat.documents, self.documents)
        };
        push_fixed(&mut number, share, 1);
        assert(number@ =~= rounding::fixed(percent_rate(stat@, self@.documents), 1));
        let mut out: String = started("  ");
        push_pad_end(&mut out, path, 38);
        out.append(" ");
        push_pad_start(&mut out, number.as_str(), 6);
        out.append("%  ");
        out.append(render_rows(&stat.types, false).as_str());
        out.append("\n");
        out
    }

    /// Renders the table printed by the `schema` command.
    pub fn report_text(&self, min_rate: u64) -> (out: String)
        ensures
            out@ == text_report(self@, min_rate),
    {
        let mut out: String = String::new();
        push_decimal(&mut out, self.documents as u128);
        assert(out@ =~= text::decimal(self@.documents));
        out.append(" records, depth ");
        push_decimal(&mut out, self.options.max_depth as u128);
        out.append("\n\n  ");
        push_pad_end(&mut out, "path", 38);
        out.append(" ");
        push_pad_start(&mut out, "rate", 7);
        out.append("  types\n");
        let rows: Vec<(&str, &PathStat)> = self.filtered(min_rate);
        let ghost all = stats_model(rows@);
        let mut table: String = String::new();
        let mut i: usize = 0;
        assert(table@ =~= path_lines(all.take(0), self@.documents));
        while i < rows.len()
            invariant
                i <= rows@.len(),
                all == stats_model(rows@),
                table@ == path_lines(all.take(i as int), self@.documents),
            decreases rows@.len() - i,
        {
            let (path, stat): (&str, &PathStat) = rows[i];
            table.append(self.path_row(path, stat).as_str());
            proof {
                assert(all.take(i + 1).drop_last() =~= all.take(i as int));
                assert(all.take(i + 1).last() == (path@, stat@));
            }
            i = i + 1;
        }
        assert(all.take(i as int) =~= all);
        out.append(table.as_str());
        let mut last: String = String::new();
        if self.truncated {
            last = started("  ... path limit reached, output is incomplete\n");
        } else {
            assert(last@ =~= truncated_text(false));
        }
        out.append(last.as_str());
        out
    }
}

// ---------------------------------------------------------------------------------------------
// The JSON report
// ---------------------------------------------------------------------------------------------

/// The members of a path as a value.
pub open spec fn path_members(stat: StatModel) -> Seq<(Name, Json)> {
    seq![
        ("documents"@, render::number(stat.documents)),
        ("occurrences"@, render::number(stat.occurrences)),
        ("types"@, render::counts_object(tally::ranked(stat.types))),
    ]
}

/// The paths as a value.
pub open spec fn paths_value(rows: Seq<(Name, StatModel)>) -> Json {
    Json::Object(Seq::new(rows.len(), |i: int| (rows[i].0, Json::Object(path_members(rows[i].1)))))
}

/// The members of the schema as a value.
pub open spec fn report_members(m: SchemaModel, min_rate: u64) -> Seq<(Name, Json)> {
    seq![
        ("records"@, render::number(m.documents)),
        ("truncated"@, Json::Bool(m.truncated)),
        ("paths"@, paths_value(common(m.paths, m.documents, min_rate))),
    ]
}

/// The schema as a value, with the paths that are in at least `min_rate` of the records.
pub open spec fn report_value(m: SchemaModel, min_rate: u64) -> Json {
    Json::Object(report_members(m, min_rate))
}

impl PathStat {
    fn to_value(&self) -> (value: Value)
        ensures
            value@ == Json::Object(path_members(self@)),
    {
        let mut members: Vec<(String, Value)> = no_members();
        push_member(&mut members, "documents", number_value(self.documents));
        push_member(&mut members, "occurrences", number_value(self.occurrences));
        push_member(&mut members, "types", rows_value(&self.types_by_frequency()));
        assert(json::members_model(members@) =~= path_members(self@));
        Value::Object(members)
    }
}

impl Schema {
    fn paths_to_value(&self, min_rate: u64) -> (value: Value)
        ensures
            value@ == paths_value(common(self@.paths, self@.documents, min_rate)),
    {
        let rows: Vec<(&str, &PathStat)> = self.filtered(min_rate);
        let ghost all = stats_model(rows@);
        let ghost wanted = Seq::new(
            all.len(),
            |k: int| (all[k].0, Json::Object(path_members(all[k].1))),
        );
        let mut members: Vec<(String, Value)> = no_members();
        let mut i: usize = 0;
        assert(wanted.take(0) =~= Seq::empty());
        while i < rows.len()
            invariant
                i <= rows@.len(),
                all == stats_model(rows@),
                wanted == Seq::new(
                    all.len(),
                    |k: int| (all[k].0, Json::Object(path_members(all[k].1))),
                ),
                json::members_model(members@) == wanted.take(i as int),
            decreases rows@.len() - i,
        {
            let (path, stat): (&str, &PathStat) = rows[i];
            push_member(&mut members, path, stat.to_value());
            proof {
                assert(all[i as int] == (path@, stat@));
                assert(wanted.take(i + 1) =~= wanted.take(i as int).push(wanted[i as int]));
            }
            i = i + 1;
        }
        assert(wanted.take(i as int) =~= wanted);
        Value::Object(members)
    }

    /// Renders the schema as a JSON object keyed by path.
    pub fn report_json(&self, min_rate: u64) -> (out: String)
        ensures
            out@ == json::model::json_text(report_value(self@, min_rate)),
    {
        let mut members: Vec<(String, Value)> = no_members();
        push_member(&mut members, "records", number_value(self.documents));
        push_member(&mut members, "truncated", Value::Bool(self.truncated));
        push_member(&mut members, "paths", self.paths_to_value(min_rate));
        assert(json::members_model(members@) =~= report_members(self@, min_rate));
        Value::Object(members).to_json()
    }
}

} // verus!

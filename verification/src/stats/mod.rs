//! Single-pass health check for a JSONL file.
//!
//! [`Stats`] accumulates everything the `stats` command reports: how many lines parsed, where
//! the broken ones are, the distribution of line lengths, which top level keys exist and with
//! which types, and optionally the value distribution of any number of [`FieldPath`]s.
//!
//! Memory use is bounded: line lengths go into a [`Histogram`], the key table and the per-field
//! value tables are capped, and only the first few parse errors are kept verbatim (the rest are
//! still counted).
use crate::hist::Histogram;
use crate::json;
use crate::json::Value;
use crate::lines;
use crate::lines::{find_line_end, Line, LineReader};
use crate::path;
use crate::path::FieldPath;
use crate::record;
use crate::record::read_value;
use crate::render;
use crate::render::render_value;
use crate::table;
use crate::table::Table;
use crate::tally;
use crate::tally::Tally;
use vstd::prelude::*;
use vstd::slice::slice_subrange;

pub mod laws;
pub mod model;
pub mod report;
pub mod reported;

use model::{FieldModel, IssueModel, KeyModel, KeysModel, OptionsModel, StatsModel};

verus! {

/// A line that could not be turned into a JSON value.
#[derive(Debug, Clone, PartialEq, Eq)]
pub struct LineIssue {
    /// 1-based line number.
    pub line: u64,
    /// 1-based byte column where the problem was detected.
    pub column: usize,
    /// Human readable reason.
    pub reason: String,
}

impl View for LineIssue {
    type V = IssueModel;

    open spec fn view(&self) -> IssueModel {
        IssueModel { line: self.line as nat, column: self.column as nat, reason: self.reason@ }
    }
}

/// How often a top level key appears, and with which value types.
#[derive(Debug, Clone, PartialEq, Eq)]
pub struct KeyStat {
    /// Number of occurrences across all records.
    pub count: u64,
    /// Value type histogram for this key.
    pub types: Tally,
}

impl View for KeyStat {
    type V = KeyModel;

    open spec fn view(&self) -> KeyModel {
        KeyModel { count: self.count as nat, types: self.types@ }
    }
}

impl Default for KeyStat {
    fn default() -> (stat: KeyStat)
        ensures
            stat@ == (KeyModel { count: 0, types: Seq::empty() }),
    {
        KeyStat { count: 0, types: Tally::new() }
    }
}

/// Value distribution for one [`FieldPath`].
#[derive(Debug, Clone)]
pub struct FieldStat {
    /// The path this table describes.
    pub path: FieldPath,
    /// Records in which the path selected at least one value.
    pub records_matched: u64,
    /// Records in which the path selected nothing.
    pub records_missing: u64,
    /// Total number of selected values (a `[]` path can match many per record).
    pub values: u64,
    /// Type histogram of the selected values.
    pub types: Tally,
    /// Distinct value counts, capped at `max_distinct`.
    pub distinct: Tally,
    /// Values dropped because the distinct table was full.
    pub distinct_dropped: u64,
}

impl View for FieldStat {
    type V = FieldModel;

    open spec fn view(&self) -> FieldModel {
        FieldModel {
            path: self.path@,
            records_matched: self.records_matched as nat,
            records_missing: self.records_missing as nat,
            values: self.values as nat,
            types: self.types@,
            distinct: self.distinct@,
            distinct_dropped: self.distinct_dropped as nat,
        }
    }
}

/// Knobs for [`Stats`].
#[derive(Debug, Clone)]
pub struct StatsOptions {
    /// How many broken lines to keep verbatim.
    pub max_issues: usize,
    /// How many distinct top level keys to track.
    pub max_keys: usize,
    /// How many distinct values to track per field.
    pub max_distinct: usize,
    /// Field paths to profile.
    pub fields: Vec<FieldPath>,
}

impl View for StatsOptions {
    type V = OptionsModel;

    open spec fn view(&self) -> OptionsModel {
        OptionsModel {
            max_issues: self.max_issues as nat,
            max_keys: self.max_keys as nat,
            max_distinct: self.max_distinct as nat,
            fields: Seq::new(self.fields@.len(), |i: int| self.fields@[i]@),
        }
    }
}

impl Default for StatsOptions {
    fn default() -> (options: StatsOptions)
        ensures
            options.max_issues == 10,
            options.max_keys == 512,
            options.max_distinct == 10_000,
            options.fields@ == Seq::<FieldPath>::empty(),
            options@ == model::default_options(),
    {
        let options = StatsOptions {
            max_issues: 10,
            max_keys: 512,
            max_distinct: 10_000,
            fields: Vec::new(),
        };
        assert(options@ =~= model::default_options());
        options
    }
}

/// Accumulated statistics for one file.
#[derive(Debug)]
pub struct Stats {
    /// The limits, and the fields that were asked for.
    pub options: StatsOptions,
    /// Lines seen.
    pub lines: u64,
    /// Bytes consumed, line endings included.
    pub bytes: u64,
    /// Lines that were empty or whitespace only.
    pub blank: u64,
    /// Lines that parsed as JSON.
    pub valid: u64,
    /// Lines that did not parse.
    pub invalid: u64,
    /// Valid lines whose top level value is an object.
    pub objects: u64,
    /// The first `max_issues` parse failures.
    pub issues: Vec<LineIssue>,
    /// Byte length of every non-blank line.
    pub lengths: Histogram,
    /// Top level value types.
    pub types: Tally,
    /// Top level object keys.
    pub keys: Table<KeyStat>,
    /// Key occurrences dropped because the key table was full.
    pub keys_dropped: u64,
    /// Per-field value distributions, in the order they were requested.
    pub fields: Vec<FieldStat>,
}

/// What a list of issues says.
pub open spec fn issues_model(issues: Seq<LineIssue>) -> Seq<IssueModel> {
    Seq::new(issues.len(), |i: int| issues[i]@)
}

/// What a list of fields says.
pub open spec fn fields_model(fields: Seq<FieldStat>) -> Seq<FieldModel> {
    Seq::new(fields.len(), |i: int| fields[i]@)
}

impl View for Stats {
    type V = StatsModel;

    open spec fn view(&self) -> StatsModel {
        StatsModel {
            options: self.options@,
            lines: self.lines as nat,
            bytes: self.bytes as nat,
            blank: self.blank as nat,
            valid: self.valid as nat,
            invalid: self.invalid as nat,
            objects: self.objects as nat,
            issues: issues_model(self.issues@),
            lengths: self.lengths@,
            types: self.types@,
            keys: KeysModel { rows: self.keys@, dropped: self.keys_dropped as nat },
            fields: fields_model(self.fields@),
        }
    }
}

// ---------------------------------------------------------------------------------------------
// Keys
// ---------------------------------------------------------------------------------------------

/// Counts one member of an object.
fn count_member(
    keys: &mut Table<KeyStat>,
    dropped: &mut u64,
    max: usize,
    name: &str,
    label: &str,
)
    requires
        model::keys_add_up((KeysModel { rows: old(keys)@, dropped: *old(dropped) as nat }), max as nat),
        model::keys_total(old(keys)@) + *old(dropped) < u64::MAX,
    ensures
        (KeysModel { rows: final(keys)@, dropped: *final(dropped) as nat }) == model::with_member(
            (KeysModel { rows: old(keys)@, dropped: *old(dropped) as nat }),
            max as nat,
            name@,
            label@,
        ),
{
    let ghost rows = keys@;
    match keys.find(name) {
        Ok(i) => {
            proof {
                let stat = model::key_seen(Some(rows[i as int].1), label@);
                table::lemma_hit(rows, name@, stat, i as int);
                model::lemma_key_within_total(rows, i as int);
                assert(model::key_adds_up(rows[i as int].1));
                tally::lemma_count_within_total(rows[i as int].1.types, label@);
            }
            let stat: &mut KeyStat = keys.value_at_mut(i);
            stat.count = stat.count + 1;
            stat.types.bump(label);
        },
        Err(i) => {
            if keys.len() < max {
                let mut types: Tally = Tally::new();
                types.bump(label);
                keys.insert_at(i, name.to_owned(), KeyStat { count: 1, types });
            } else {
                *dropped = *dropped + 1;
            }
        },
    }
}

/// Counts all members of an object.
fn count_members(
    keys: &mut Table<KeyStat>,
    dropped: &mut u64,
    max: usize,
    members: &Vec<(String, Value)>,
)
    requires
        model::keys_add_up((KeysModel { rows: old(keys)@, dropped: *old(dropped) as nat }), max as nat),
        model::keys_total(old(keys)@) + *old(dropped) + members@.len() <= u64::MAX,
    ensures
        (KeysModel { rows: final(keys)@, dropped: *final(dropped) as nat }) == model::with_members(
            (KeysModel { rows: old(keys)@, dropped: *old(dropped) as nat }),
            max as nat,
            json::members_model(members@),
        ),
{
    let ghost before = KeysModel { rows: keys@, dropped: *dropped as nat };
    let ghost all = json::members_model(members@);
    proof {
        json::lemma_members_model(members@);
    }
    let mut i: usize = 0;
    assert(all.take(0) =~= Seq::empty());
    while i < members.len()
        invariant
            i <= members@.len(),
            all == json::members_model(members@),
            all.len() == members@.len(),
            model::keys_add_up(before, max as nat),
            model::keys_total(before.rows) + before.dropped + members@.len() <= u64::MAX,
            (KeysModel { rows: keys@, dropped: *dropped as nat }) == model::with_members(
                before,
                max as nat,
                all.take(i as int),
            ),
        decreases members@.len() - i,
    {
        proof {
            json::lemma_members_model(members@);
            model::lemma_with_members(before, max as nat, all.take(i as int));
            assert(all.take(i + 1).drop_last() =~= all.take(i as int));
        }
        count_member(keys, dropped, max, members[i].0.as_str(), members[i].1.type_label());
        i = i + 1;
    }
    assert(all.take(i as int) =~= all);
}

// ---------------------------------------------------------------------------------------------
// Fields
// ---------------------------------------------------------------------------------------------

impl FieldStat {
    /// The `n` most frequent values, most frequent first.
    pub fn top(&self, n: usize) -> (rows: Vec<(&str, u64)>)
        ensures
            tally::rows_model(rows@) == model::top_rows(self@.distinct, n as nat),
    {
        let all: Vec<(&str, u64)> = self.distinct.by_frequency();
        let mut rows: Vec<(&str, u64)> = Vec::new();
        let ghost ranked = tally::rows_model(all@);
        let mut i: usize = 0;
        assert(tally::rows_model(rows@) =~= ranked.take(0));
        while i < all.len() && i < n
            invariant
                i <= all@.len(),
                i <= n,
                ranked == tally::rows_model(all@),
                ranked.len() == all@.len(),
                tally::rows_model(rows@) == ranked.take(i as int),
            decreases all@.len() - i,
        {
            let ghost held = rows@;
            rows.push(all[i]);
            i = i + 1;
            proof {
                assert(tally::rows_model(rows@) =~= tally::rows_model(held).push(ranked[i - 1]));
                assert(ranked.take(i as int) =~= ranked.take(i - 1).push(ranked[i - 1]));
            }
        }
        rows
    }

    /// Counts one selected value.
    fn count_found(&mut self, max: usize, value: &Value)
        requires
            model::field_awaits_value(old(self)@, max as nat),
            old(self).values < u64::MAX,
        ensures
            final(self)@ == model::with_found(old(self)@, max as nat, value@),
    {
        proof {
            tally::lemma_count_within_total(self.types@, json::model::type_label(value@));
            tally::lemma_count_within_total(self.distinct@, render::rendered(value@));
        }
        self.values = self.values + 1;
        self.types.bump(value.type_label());
        let rendered: String = render_value(value);
        if self.distinct.contains_key(rendered.as_str()) || self.distinct.len() < max {
            self.distinct.bump(rendered.as_str());
        } else {
            self.distinct_dropped = self.distinct_dropped + 1;
        }
    }

    /// Folds one record into the distribution.
    fn observe(&mut self, max: usize, value: &Value)
        requires
            model::field_adds_up(old(self)@, max as nat),
            old(self).values + json::model::nodes(value@) <= u64::MAX,
            old(self).records_matched + old(self).records_missing < u64::MAX,
        ensures
            final(self)@ == model::field_observed(old(self)@, max as nat, value@),
    {
        let selected: Vec<&Value> = self.path.select(value);
        let ghost found = path::select(self@.path.steps, value@);
        proof {
            path::law_selection_fits_in_the_record(self@.path.steps, value@);
        }
        if selected.len() == 0 {
            self.records_missing = self.records_missing + 1;
            return;
        }
        self.records_matched = self.records_matched + 1;
        let ghost before = self@;
        let mut i: usize = 0;
        assert(found.take(0) =~= Seq::empty());
        while i < selected.len()
            invariant
                i <= selected@.len(),
                found == path::found_model(selected@),
                found.len() == selected@.len(),
                model::field_awaits_value(before, max as nat),
                before.values + found.len() <= u64::MAX,
                self@ == model::with_all_found(before, max as nat, found.take(i as int)),
            decreases selected@.len() - i,
        {
            proof {
                model::lemma_with_all_found(before, max as nat, found.take(i as int));
                assert(found.take(i + 1).drop_last() =~= found.take(i as int));
                assert(found.take(i + 1).last() == selected@[i as int]@);
            }
            self.count_found(max, selected[i]);
            i = i + 1;
        }
        assert(found.take(i as int) =~= found);
    }
}

// ---------------------------------------------------------------------------------------------
// Lines
// ---------------------------------------------------------------------------------------------

impl Stats {
    /// Whether every line counts once and all the counts add up.
    pub open spec fn wf(&self) -> bool {
        model::adds_up(self@)
    }

    /// Creates an empty accumulator.
    pub fn new(options: StatsOptions) -> (stats: Stats)
        ensures
            stats.wf(),
            stats@ == model::fresh(options@),
    {
        let mut fields: Vec<FieldStat> = Vec::new();
        let ghost wanted = model::fresh(options@).fields;
        let mut i: usize = 0;
        while i < options.fields.len()
            invariant
                i <= options.fields@.len(),
                wanted == model::fresh(options@).fields,
                fields_model(fields@) =~= wanted.take(i as int),
            decreases options.fields@.len() - i,
        {
            let ghost before = fields@;
            fields.push(
                FieldStat {
                    path: options.fields[i].clone(),
                    records_matched: 0,
                    records_missing: 0,
                    values: 0,
                    types: Tally::new(),
                    distinct: Tally::new(),
                    distinct_dropped: 0,
                },
            );
            i = i + 1;
            proof {
                assert(fields@.last()@ == wanted[i - 1]);
                assert(fields_model(fields@) =~= fields_model(before).push(wanted[i - 1]));
                assert(wanted.take(i as int) =~= wanted.take(i - 1).push(wanted[i - 1]));
            }
        }
        let stats = Stats {
            options,
            lines: 0,
            bytes: 0,
            blank: 0,
            valid: 0,
            invalid: 0,
            objects: 0,
            issues: Vec::new(),
            lengths: Histogram::new(),
            types: Tally::new(),
            keys: Table::new(),
            keys_dropped: 0,
            fields,
        };
        proof {
            assert(wanted.take(i as int) =~= wanted);
            assert(stats@ =~= model::fresh(stats.options@));
            model::lemma_fresh(stats.options@);
        }
        stats
    }

    /// Reads a whole stream and returns the accumulated statistics.
    pub fn from_reader(data: &[u8], options: StatsOptions) -> (stats: Stats)
        requires
            data@.len() < usize::MAX,
        ensures
            stats.wf(),
            stats@ == model::stats_of(data@, options@),
    {
        let mut stats: Stats = Stats::new(options);
        let ghost start = stats@;
        let mut reader: LineReader = LineReader::new();
        let mut p: usize = 0;
        let ghost mut read: Seq<lines::LineModel> = Seq::empty();
        assert(read + lines::lines_from(data@, 0, 1) =~= lines::lines_of(data@));
        while p < data.len()
            invariant
                p <= data@.len() < usize::MAX,
                stats.wf(),
                start == model::fresh(options@),
                stats@ == model::observed_all(start, read),
                read + lines::lines_from(data@, p as int, reader@ + 1) == lines::lines_of(data@),
                stats.lines <= p,
                stats.bytes == p,
                reader@ <= p,
            decreases data@.len() - p,
        {
            let end: usize = find_line_end(data, p);
            let raw: &[u8] = slice_subrange(data, p, end);
            let line: Line = reader.next_line(raw);
            stats.observe(&line);
            proof {
                let next = read.push(line@);
                assert(next.drop_last() =~= read);
                assert(next + lines::lines_from(data@, end as int, reader@ + 1) =~= read
                    + lines::lines_from(data@, p as int, reader@ as nat));
                read = next;
            }
            p = end;
        }
        assert(read =~= lines::lines_of(data@));
        stats
    }

    /// Folds one line into the accumulator.
    pub fn observe(&mut self, line: &Line<'_>)
        requires
            old(self).wf(),
            line.wf(),
            line.bytes@.len() < usize::MAX,
            old(self).lines < u64::MAX,
            old(self).bytes + line.raw_len <= u64::MAX,
        ensures
            final(self).wf(),
            final(self)@ == model::observed(old(self)@, line@),
    {
        proof {
            model::lemma_observed(self@, line@);
        }
        self.lines = self.lines + 1;
        self.bytes = self.bytes + line.raw_len as u64;
        if line.is_blank() {
            self.blank = self.blank + 1;
            return;
        }
        self.lengths.record(line.bytes.len() as u64);
        match read_value(line.bytes) {
            Err(fault) => {
                self.invalid = self.invalid + 1;
                self.push_issue(line.number, fault.column, fault.reason);
            },
            Ok(value) => {
                proof {
                    record::lemma_reading_is_bounded(line.bytes@);
                    assert forall|i: int| 0 <= i < self.fields@.len() implies ({
                        let f = (#[trigger] self.fields@[i])@;
                        &&& model::field_adds_up(f, self@.options.max_distinct)
                        &&& f.values + json::model::nodes(value@) <= u64::MAX
                        &&& f.records_matched + f.records_missing < u64::MAX
                    }) by {
                        assert(old(self)@.fields[i] == self.fields@[i]@);
                    }
                }
                self.valid = self.valid + 1;
                self.record(&value);
            },
        }
    }

    fn push_issue(&mut self, line: u64, column: usize, reason: String)
        ensures
            final(self)@ == (StatsModel {
                issues: model::with_issue(
                    old(self)@.issues,
                    old(self)@.options.max_issues,
                    (IssueModel { line: line as nat, column: column as nat, reason: reason@ }),
                ),
                ..old(self)@
            }),
    {
        if self.issues.len() < self.options.max_issues {
            let issue = LineIssue { line, column, reason };
            self.issues.push(issue);
            assert(issues_model(self.issues@) =~= issues_model(old(self).issues@).push(issue@));
        }
    }

    fn record(&mut self, value: &Value)
        requires
            table::sorted(old(self).types@),
            tally::total(old(self).types@) < u64::MAX,
            old(self).objects < u64::MAX,
            model::keys_add_up(old(self)@.keys, old(self)@.options.max_keys),
            model::keys_total(old(self)@.keys.rows) + old(self)@.keys.dropped + json::model::nodes(
                value@,
            ) <= u64::MAX,
            forall|i: int|
                0 <= i < old(self).fields@.len() ==> {
                    let f = (#[trigger] old(self).fields@[i])@;
                    &&& model::field_adds_up(f, old(self)@.options.max_distinct)
                    &&& f.values + json::model::nodes(value@) <= u64::MAX
                    &&& f.records_matched + f.records_missing < u64::MAX
                },
        ensures
            final(self)@ == model::recorded(old(self)@, value@),
    {
        proof {
            tally::lemma_count_within_total(self.types@, json::model::type_label(value@));
            model::lemma_members_fit(value@);
        }
        self.types.bump(value.type_label());
        if let Some(members) = value.as_object() {
            proof {
                json::lemma_members_model(members@);
            }
            self.objects = self.objects + 1;
            let max_keys: usize = self.options.max_keys;
            count_members(&mut self.keys, &mut self.keys_dropped, max_keys, members);
        }
        let max_distinct: usize = self.options.max_distinct;
        let ghost before = *self;
        let mut i: usize = 0;
        while i < self.fields.len()
            invariant
                i <= self.fields@.len(),
                self.fields@.len() == before.fields@.len(),
                before.fields@ == old(self).fields@,
                max_distinct == old(self)@.options.max_distinct,
                forall|k: int|
                    0 <= k < before.fields@.len() ==> {
                        let f = (#[trigger] before.fields@[k])@;
                        &&& model::field_adds_up(f, max_distinct as nat)
                        &&& f.values + json::model::nodes(value@) <= u64::MAX
                        &&& f.records_matched + f.records_missing < u64::MAX
                    },
                forall|k: int|
                    i <= k < self.fields@.len() ==> #[trigger] self.fields@[k] == before.fields@[k],
                forall|k: int|
                    0 <= k < i ==> (#[trigger] self.fields@[k])@ == model::field_observed(
                        before.fields@[k]@,
                        max_distinct as nat,
                        value@,
                    ),
                *self == (Stats { fields: self.fields, ..before }),
            decreases self.fields@.len() - i,
        {
            assert(self.fields@[i as int] == before.fields@[i as int]);
            self.fields[i].observe(max_distinct, value);
            i = i + 1;
        }
        assert(self@.fields =~= model::recorded(old(self)@, value@).fields);
    }
}

} // verus!

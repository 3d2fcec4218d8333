//! The passes over a file that the commands make, one raw line at a time.
//!
//! Each scan is fed the lines of a file in order, every one with its line ending, and says what
//! is to be printed.
use crate::json::model as values;
use crate::lines;
use crate::lines::{Line, LineModel, LineReader};
use crate::record;
use crate::record::read_value;
use crate::render::started;
use crate::rng;
use crate::rng::{Reservoir, Sample};
use crate::schema::{model, report, reported, Schema, SchemaOptions};
use crate::stats;
use crate::stats::model::StatsModel;
use crate::stats::{Stats, StatsOptions};
use crate::text;
use crate::text::push_decimal;
use vstd::prelude::*;

verus! {

/// A line as it is printed.
pub open spec fn printed(bytes: Seq<u8>) -> Seq<u8> {
    bytes.push(0x0A)
}

fn push_printed(out: &mut Vec<u8>, bytes: &[u8])
    ensures
        final(out)@ == old(out)@ + printed(bytes@),
{
    let mut i: usize = 0;
    while i < bytes.len()
        invariant
            i <= bytes@.len(),
            out@ == old(out)@ + bytes@.take(i as int),
        decreases bytes@.len() - i,
    {
        out.push(bytes[i]);
        i = i + 1;
        assert(out@ =~= old(out)@ + bytes@.take(i as int));
    }
    out.push(0x0A);
    assert(out@ =~= old(out)@ + printed(bytes@));
}

// ---------------------------------------------------------------------------------------------
// The first lines
// ---------------------------------------------------------------------------------------------

/// The pass that prints the first lines.
pub struct HeadScan {
    reader: LineReader,
    left: usize,
}

/// Where the pass stands.
#[verifier::ext_equal]
pub struct HeadModel {
    /// How many lines were taken.
    pub lines: nat,
    /// How many lines are still to be printed.
    pub left: nat,
}

impl View for HeadScan {
    type V = HeadModel;

    closed spec fn view(&self) -> HeadModel {
        HeadModel { lines: self.reader@, left: self.left as nat }
    }
}

/// Where the pass that prints `n` lines stands at the start.
pub open spec fn head_start(n: nat) -> HeadModel {
    HeadModel { lines: 0, left: n }
}

/// Where the pass stands after one more line.
pub open spec fn head_next(m: HeadModel) -> HeadModel {
    HeadModel { lines: m.lines + 1, left: (m.left - 1) as nat }
}

impl HeadScan {
    /// The pass that prints `n` lines.
    pub fn new(n: usize) -> (scan: HeadScan)
        ensures
            scan@ == head_start(n as nat),
    {
        HeadScan { reader: LineReader::new(), left: n }
    }

    /// Whether every line that was asked for was printed.
    pub fn is_done(&self) -> (done: bool)
        ensures
            done == (self@.left == 0),
    {
        self.left == 0
    }

    /// Takes the next line, and gives back what is to be printed.
    pub fn feed(&mut self, raw: &[u8]) -> (out: Vec<u8>)
        requires
            old(self)@.left > 0,
            old(self)@.lines < u64::MAX,
        ensures
            out@ == printed(lines::line_of(raw@, old(self)@.lines + 1).bytes),
            final(self)@ == head_next(old(self)@),
    {
        let line: Line = self.reader.next_line(raw);
        self.left = self.left - 1;
        let mut out: Vec<u8> = Vec::new();
        push_printed(&mut out, line.bytes);
        assert(out@ =~= printed(line.bytes@));
        out
    }
}

// ---------------------------------------------------------------------------------------------
// A sample of lines
// ---------------------------------------------------------------------------------------------

/// The pass that samples lines.
pub struct SampleScan {
    reader: LineReader,
    reservoir: Reservoir<Vec<u8>>,
    index: u64,
}

/// Where the pass stands.
#[verifier::ext_equal]
pub struct SampleModel {
    /// How many lines were taken.
    pub lines: nat,
    /// What was sampled of those that are not blank, each with its index among them.
    pub sample: Sample<Seq<u8>>,
}

/// The bytes of the items of a sample.
pub open spec fn bytes_of(items: Seq<(nat, Vec<u8>)>) -> Seq<(nat, Seq<u8>)> {
    Seq::new(items.len(), |i: int| (items[i].0, items[i].1@))
}

/// A sample of vectors as a sample of their bytes.
pub open spec fn sample_model(s: Sample<Vec<u8>>) -> Sample<Seq<u8>> {
    Sample { capacity: s.capacity, state: s.state, seen: s.seen, items: bytes_of(s.items) }
}

impl View for SampleScan {
    type V = SampleModel;

    closed spec fn view(&self) -> SampleModel {
        SampleModel { lines: self.reader@, sample: sample_model(self.reservoir@) }
    }
}

/// The pass after one more line.
pub open spec fn sampled(m: SampleModel, line: LineModel) -> SampleModel {
    SampleModel {
        lines: m.lines + 1,
        sample: if lines::is_blank(line.bytes) {
            m.sample
        } else {
            rng::offered(m.sample, (m.sample.seen, line.bytes))
        },
    }
}

/// The pass after all of `all`.
pub open spec fn sampled_all(m: SampleModel, all: Seq<LineModel>) -> SampleModel
    decreases all.len(),
{
    if all.len() == 0 {
        m
    } else {
        sampled(sampled_all(m, all.drop_last()), all.last())
    }
}

/// The lines of a sample as they are printed.
pub open spec fn sample_text(items: Seq<(nat, Seq<u8>)>) -> Seq<u8>
    decreases items.len(),
{
    if items.len() == 0 {
        Seq::empty()
    } else {
        sample_text(items.drop_last()) + printed(items.last().1)
    }
}

proof fn lemma_insert_bytes(items: Seq<(nat, Vec<u8>)>, item: (nat, Vec<u8>))
    ensures
        bytes_of(rng::insert_by_index(items, item)) == rng::insert_by_index(
            bytes_of(items),
            (item.0, item.1@),
        ),
    decreases items.len(),
{
    let got = bytes_of(rng::insert_by_index(items, item));
    let wanted = rng::insert_by_index(bytes_of(items), (item.0, item.1@));
    if items.len() > 0 {
        assert(bytes_of(items).drop_first() =~= bytes_of(items.drop_first()));
        lemma_insert_bytes(items.drop_first(), item);
    }
    assert(got =~= wanted);
}

proof fn lemma_sort_bytes(items: Seq<(nat, Vec<u8>)>)
    ensures
        bytes_of(rng::by_index(items)) == rng::by_index(bytes_of(items)),
    decreases items.len(),
{
    if items.len() > 0 {
        assert(bytes_of(items).drop_first() =~= bytes_of(items.drop_first()));
        lemma_sort_bytes(items.drop_first());
        lemma_insert_bytes(rng::by_index(items.drop_first()), items[0]);
    } else {
        assert(bytes_of(rng::by_index(items)) =~= rng::by_index(bytes_of(items)));
    }
}

impl SampleScan {
    /// Whether the next index is the number of lines that were offered.
    pub closed spec fn wf(&self) -> bool {
        self.index as nat == self.reservoir@.seen && self.index as nat <= self.reader@
    }

    /// The pass that samples `n` lines by the numbers that `seed` gives.
    pub fn new(n: usize, seed: u64) -> (scan: SampleScan)
        ensures
            scan.wf(),
            scan@ == (SampleModel { lines: 0, sample: rng::fresh(n as nat, seed) }),
    {
        let scan = SampleScan {
            reader: LineReader::new(),
            reservoir: Reservoir::new(n, seed),
            index: 0,
        };
        assert(scan@.sample.items =~= Seq::empty());
        scan
    }

    /// Takes the next line.
    pub fn feed(&mut self, raw: &[u8])
        requires
            old(self).wf(),
            old(self)@.lines < u64::MAX,
        ensures
            final(self).wf(),
            final(self)@ == sampled(old(self)@, lines::line_of(raw@, old(self)@.lines + 1)),
    {
        let line: Line = self.reader.next_line(raw);
        if line.is_blank() {
            return;
        }
        let mut bytes: Vec<u8> = Vec::new();
        let mut i: usize = 0;
        while i < line.bytes.len()
            invariant
                i <= line.bytes@.len(),
                bytes@ == line.bytes@.take(i as int),
            decreases line.bytes@.len() - i,
        {
            bytes.push(line.bytes[i]);
            i = i + 1;
            assert(bytes@ =~= line.bytes@.take(i as int));
        }
        assert(bytes@ =~= line.bytes@);
        self.reservoir.offer(self.index, bytes);
        self.index = self.index + 1;
        assert(self@.sample.items =~= sampled(
            old(self)@,
            lines::line_of(raw@, old(self)@.lines + 1),
        ).sample.items);
    }

    /// Ends the pass, and gives back what is to be printed: the sampled lines in file order.
    pub fn finish(self) -> (out: Vec<u8>)
        ensures
            out@ == sample_text(rng::by_index(self@.sample.items)),
    {
        let ghost items = self.reservoir@.items;
        let sorted: Vec<(u64, Vec<u8>)> = self.reservoir.into_sorted();
        let ghost all = bytes_of(rng::items_model(sorted@));
        proof {
            lemma_sort_bytes(items);
        }
        let mut out: Vec<u8> = Vec::new();
        let mut i: usize = 0;
        assert(out@ =~= sample_text(all.take(0)));
        while i < sorted.len()
            invariant
                i <= sorted@.len(),
                all == bytes_of(rng::items_model(sorted@)),
                out@ == sample_text(all.take(i as int)),
            decreases sorted@.len() - i,
        {
            proof {
                assert(all.take(i + 1).drop_last() =~= all.take(i as int));
                assert(all.take(i + 1).last().1 == sorted@[i as int].1@);
            }
            push_printed(&mut out, sorted[i].1.as_slice());
            i = i + 1;
        }
        assert(all.take(i as int) =~= all);
        out
    }
}

// ---------------------------------------------------------------------------------------------
// A schema
// ---------------------------------------------------------------------------------------------

/// The pass that infers a schema.
pub struct SchemaScan {
    reader: LineReader,
    schema: Schema,
    skipped: u64,
    bytes: u64,
}

/// Where the pass stands.
#[verifier::ext_equal]
pub struct SchemaScanModel {
    /// How many lines were taken.
    pub lines: nat,
    /// How many bytes were taken.
    pub bytes: nat,
    /// What was inferred.
    pub schema: model::SchemaModel,
    /// How many lines could not be parsed.
    pub skipped: nat,
}

impl View for SchemaScan {
    type V = SchemaScanModel;

    closed spec fn view(&self) -> SchemaScanModel {
        SchemaScanModel {
            lines: self.reader@,
            bytes: self.bytes as nat,
            schema: self.schema@,
            skipped: self.skipped as nat,
        }
    }
}

/// The pass after one more line: blank lines count for nothing, and broken ones are skipped.
pub open spec fn inferred(m: SchemaScanModel, line: LineModel) -> SchemaScanModel {
    let taken = SchemaScanModel { lines: m.lines + 1, bytes: m.bytes + line.raw_len, ..m };
    if lines::is_blank(line.bytes) {
        taken
    } else {
        match record::reading(line.bytes) {
            Ok(v) => SchemaScanModel { schema: model::observed(m.schema, v), ..taken },
            Err(_) => SchemaScanModel { skipped: m.skipped + 1, ..taken },
        }
    }
}

/// The pass after all of `all`.
pub open spec fn inferred_all(m: SchemaScanModel, all: Seq<LineModel>) -> SchemaScanModel
    decreases all.len(),
{
    if all.len() == 0 {
        m
    } else {
        inferred(inferred_all(m, all.drop_last()), all.last())
    }
}

/// The line on the lines that were skipped, where there are any.
pub open spec fn skipped_text(skipped: nat) -> Seq<char> {
    if skipped == 0 {
        Seq::empty()
    } else {
        "\n"@ + text::decimal(skipped) + " unparseable lines skipped\n"@
    }
}

/// What is printed at the end.
pub open spec fn schema_output(m: SchemaScanModel, min_rate: u64, json: bool) -> Seq<char> {
    if json {
        values::json_text(report::report_value(m.schema, min_rate)) + "\n"@
    } else {
        report::text_report(m.schema, min_rate) + skipped_text(m.skipped)
    }
}

impl SchemaScan {
    /// Whether the counts add up, and none exceeds the number of bytes that were taken.
    pub closed spec fn wf(&self) -> bool {
        &&& self.schema.wf()
        &&& self.schema@.documents + self.skipped <= self.bytes
        &&& model::within(self.schema@.paths, self.bytes as int)
    }

    /// The pass that infers a schema within the limits `options`.
    pub fn new(options: SchemaOptions) -> (scan: SchemaScan)
        ensures
            scan.wf(),
            scan@ == (SchemaScanModel {
                lines: 0,
                bytes: 0,
                schema: model::fresh(options@),
                skipped: 0,
            }),
    {
        SchemaScan {
            reader: LineReader::new(),
            schema: Schema::new(options),
            skipped: 0,
            bytes: 0,
        }
    }

    /// Takes the next line.
    pub fn feed(&mut self, raw: &[u8])
        requires
            old(self).wf(),
            old(self)@.lines < u64::MAX,
            old(self)@.bytes + raw@.len() <= u64::MAX,
            raw@.len() < usize::MAX,
        ensures
            final(self).wf(),
            final(self)@ == inferred(old(self)@, lines::line_of(raw@, old(self)@.lines + 1)),
    {
        let line: Line = self.reader.next_line(raw);
        self.bytes = self.bytes + raw.len() as u64;
        if line.is_blank() {
            return;
        }
        proof {
            record::lemma_reading_is_bounded(line.bytes@);
        }
        match read_value(line.bytes) {
            Ok(value) => {
                proof {
                    let room = self.schema@.options;
                    model::lemma_visits_within_nodes(Seq::empty(), value@, room.max_depth);
                    model::lemma_walked(
                        model::setting_out(self.schema@),
                        room.max_paths,
                        model::visits(Seq::empty(), value@, room.max_depth),
                        old(self).bytes as int,
                    );
                }
                self.schema.observe(&value);
            },
            Err(_) => {
                self.skipped = self.skipped + 1;
            },
        }
    }

    /// Ends the pass, and gives back what is to be printed.
    pub fn finish(&self, min_rate: u64, json: bool) -> (out: String)
        ensures
            out@ == schema_output(self@, min_rate, json),
    {
        if json {
            let mut out: String = self.schema.report_json(min_rate);
            out.append("\n");
            return out;
        }
        let mut out: String = self.schema.report_text(min_rate);
        let mut last: String = String::new();
        if self.skipped > 0 {
            last = started("\n");
            push_decimal(&mut last, self.skipped as u128);
            last.append(" unparseable lines skipped\n");
        } else {
            assert(last@ =~= skipped_text(0));
        }
        out.append(last.as_str());
        out
    }
}

// ---------------------------------------------------------------------------------------------
// A health check
// ---------------------------------------------------------------------------------------------

/// The pass that checks a file.
pub struct StatsScan {
    reader: LineReader,
    stats: Stats,
}

/// Where the pass stands.
#[verifier::ext_equal]
pub struct StatsScanModel {
    /// How many lines were taken.
    pub lines: nat,
    /// What was seen.
    pub stats: StatsModel,
}

impl View for StatsScan {
    type V = StatsScanModel;

    closed spec fn view(&self) -> StatsScanModel {
        StatsScanModel { lines: self.reader@, stats: self.stats@ }
    }
}

/// What is printed at the end.
pub open spec fn stats_output(
    m: StatsModel,
    source: Seq<char>,
    top: nat,
    json: bool,
) -> Seq<char> {
    if json {
        values::json_text(stats::report::report_value(m, source)) + "\n"@
    } else {
        stats::report::text_report(m, source, top)
    }
}

/// Where the pass stands at the start.
pub open spec fn check_start(options: stats::model::OptionsModel) -> StatsScanModel {
    StatsScanModel { lines: 0, stats: stats::model::fresh(options) }
}

/// Where the pass stands after one more line.
pub open spec fn checked(m: StatsScanModel, line: LineModel) -> StatsScanModel {
    StatsScanModel { lines: m.lines + 1, stats: stats::model::observed(m.stats, line) }
}

/// Where the pass stands after all of `all`.
pub open spec fn checked_all(m: StatsScanModel, all: Seq<LineModel>) -> StatsScanModel
    decreases all.len(),
{
    if all.len() == 0 {
        m
    } else {
        checked(checked_all(m, all.drop_last()), all.last())
    }
}

impl StatsScan {
    /// Whether the counts add up, and every line was counted.
    pub closed spec fn wf(&self) -> bool {
        self.stats.wf() && self.stats@.lines == self.reader@
    }

    /// The pass that checks a file as `options` say.
    pub fn new(options: StatsOptions) -> (scan: StatsScan)
        ensures
            scan.wf(),
            scan@ == check_start(options@),
    {
        StatsScan { reader: LineReader::new(), stats: Stats::new(options) }
    }

    /// Takes the next line.
    pub fn feed(&mut self, raw: &[u8])
        requires
            old(self).wf(),
            old(self)@.lines < u64::MAX,
            old(self)@.stats.bytes + raw@.len() <= u64::MAX,
            raw@.len() < usize::MAX,
        ensures
            final(self).wf(),
            final(self)@ == checked(old(self)@, lines::line_of(raw@, old(self)@.lines + 1)),
    {
        let line: Line = self.reader.next_line(raw);
        self.stats.observe(&line);
    }

    /// Ends the pass, and gives back what is to be printed.
    pub fn finish(&self, source: &str, top: usize, json: bool) -> (out: String)
        requires
            self.wf(),
        ensures
            out@ == stats_output(self@.stats, source@, top as nat, json),
    {
        if json {
            let mut out: String = self.stats.report_json(source);
            out.append("\n");
            out
        } else {
            self.stats.report_text(source, top)
        }
    }
}

// ---------------------------------------------------------------------------------------------
// Laws
// ---------------------------------------------------------------------------------------------

/// The lines of `all` as they are printed.
pub open spec fn lines_text(all: Seq<LineModel>) -> Seq<u8>
    decreases all.len(),
{
    if all.len() == 0 {
        Seq::empty()
    } else {
        lines_text(all.drop_last()) + printed(all.last().bytes)
    }
}

/// The pass that prints `n` lines, fed with `all` until it is done, and what it prints.
pub open spec fn headed(n: nat, all: Seq<LineModel>) -> (HeadModel, Seq<u8>)
    decreases all.len(),
{
    if all.len() == 0 {
        (head_start(n), Seq::empty())
    } else {
        let (m, out) = headed(n, all.drop_last());
        if m.left == 0 {
            (m, out)
        } else {
            (head_next(m), out + printed(all.last().bytes))
        }
    }
}

/// `head` prints the first `n` lines in order, or all of them where there are fewer.
pub proof fn law_head_prints_the_first_lines(n: nat, all: Seq<LineModel>)
    ensures
        ({
            let k = if all.len() < n {
                all.len()
            } else {
                n
            };
            &&& headed(n, all).0 == (HeadModel { lines: k, left: (n - k) as nat })
            &&& headed(n, all).1 == lines_text(all.take(k as int))
        }),
    decreases all.len(),
{
    if all.len() == 0 {
        assert(all.take(0) =~= Seq::empty());
    } else {
        let init = all.drop_last();
        law_head_prints_the_first_lines(n, init);
        if init.len() < n {
            assert(init.take(init.len() as int) =~= init);
            assert(all.take(all.len() as int) =~= all);
        } else {
            assert(init.take(n as int) =~= all.take(n as int));
        }
    }
}

/// The lines that are not blank, each with its index among them.
pub open spec fn offers(all: Seq<LineModel>) -> Seq<(nat, Seq<u8>)>
    decreases all.len(),
{
    if all.len() == 0 {
        Seq::empty()
    } else if lines::is_blank(all.last().bytes) {
        offers(all.drop_last())
    } else {
        offers(all.drop_last()).push((offers(all.drop_last()).len(), all.last().bytes))
    }
}

/// `sample` draws from the lines that are not blank, by the numbers that the seed gives and
/// nothing else.
pub proof fn law_sample_draws_from_the_lines(n: nat, seed: u64, all: Seq<LineModel>)
    ensures
        sampled_all((SampleModel { lines: 0, sample: rng::fresh(n, seed) }), all).sample
            == rng::sample_of(n, seed, offers(all)),
        sampled_all((SampleModel { lines: 0, sample: rng::fresh(n, seed) }), all).lines
            == all.len(),
        forall|i: int| 0 <= i < offers(all).len() ==> (#[trigger] offers(all)[i]).0 == i,
    decreases all.len(),
{
    if all.len() > 0 {
        let init = all.drop_last();
        law_sample_draws_from_the_lines(n, seed, init);
        rng::law_sample_size(n, seed, offers(init));
        if !lines::is_blank(all.last().bytes) {
            assert(offers(all).drop_last() =~= offers(init));
        }
    }
}

/// A sample as large as the file prints every line that is not blank, in file order.
pub proof fn law_large_sample_is_the_file(n: nat, seed: u64, all: Seq<LineModel>)
    requires
        offers(all).len() <= n,
    ensures
        sample_text(
            rng::by_index(
                sampled_all(
                    (SampleModel { lines: 0, sample: rng::fresh(n, seed) }),
                    all,
                ).sample.items,
            ),
        ) == sample_text(offers(all)),
{
    law_sample_draws_from_the_lines(n, seed, all);
    assert forall|i: int, j: int| 0 <= i < j < offers(all).len() implies (#[trigger] offers(
        all,
    )[i]).0 < (#[trigger] offers(all)[j]).0 by {}
    rng::law_short_stream_is_kept_whole(n, seed, offers(all));
}

/// `schema` infers from the valid lines and nothing else, and counts the broken ones.
pub proof fn law_schema_is_that_of_the_records(options: model::LimitsModel, all: Seq<LineModel>)
    ensures
        ({
            let start = SchemaScanModel {
                lines: 0,
                bytes: 0,
                schema: model::fresh(options),
                skipped: 0,
            };
            let m = inferred_all(start, all);
            &&& m.lines == all.len()
            &&& m.schema == model::observed_all(model::fresh(options), stats::laws::records(all))
            &&& m.skipped == stats::laws::broken(all).len()
        }),
    decreases all.len(),
{
    if all.len() > 0 {
        let init = all.drop_last();
        law_schema_is_that_of_the_records(options, init);
        if !lines::is_blank(all.last().bytes) {
            if let Ok(v) = record::reading(all.last().bytes) {
                assert(stats::laws::records(all).drop_last() =~= stats::laws::records(init));
            }
        }
    }
}

/// A line is printed as its bytes and a newline, and lines are printed one behind the other.
pub proof fn law_lines_are_printed_as_they_are(all: Seq<LineModel>, line: LineModel, i: nat)
    ensures
        lines_text(all.push(line)) == lines_text(all) + line.bytes + seq![10u8],
        lines_text(Seq::empty()) == Seq::<u8>::empty(),
        forall|items: Seq<(nat, Seq<u8>)>| #[trigger]
            sample_text(items.push((i, line.bytes))) == sample_text(items) + line.bytes + seq![
                10u8,
            ],
        sample_text(Seq::empty()) == Seq::<u8>::empty(),
{
    assert(all.push(line).drop_last() =~= all);
    assert(lines_text(all.push(line)) =~= lines_text(all) + line.bytes + seq![10u8]);
    assert forall|items: Seq<(nat, Seq<u8>)>| #[trigger]
        sample_text(items.push((i, line.bytes))) == sample_text(items) + line.bytes + seq![
            10u8,
        ] by {
        let more = items.push((i, line.bytes));
        assert(more.drop_last() =~= items);
        assert(sample_text(more) =~= sample_text(items) + line.bytes + seq![10u8]);
    }
}

/// `schema` prints the JSON form and a newline, or the table and then how many lines are broken,
/// where there are any.
pub proof fn law_schema_prints_what_the_lines_hold(
    options: model::LimitsModel,
    all: Seq<LineModel>,
    min_rate: u64,
)
    ensures
        ({
            let start = SchemaScanModel {
                lines: 0,
                bytes: 0,
                schema: model::fresh(options),
                skipped: 0,
            };
            let m = inferred_all(start, all);
            let found = stats::laws::records(all);
            let bad = stats::laws::broken(all).len();
            &&& schema_output(m, min_rate, true) == values::json_text(
                reported::listing(options, found, min_rate),
            ) + seq!['\n']
            &&& bad == 0 ==> schema_output(m, min_rate, false) == reported::told(
                options,
                found,
                min_rate,
            )
            &&& bad > 0 ==> schema_output(m, min_rate, false) == reported::told(
                options,
                found,
                min_rate,
            ) + ("\n"@ + text::decimal(bad) + " unparseable lines skipped\n"@)
        }),
{
    let found = stats::laws::records(all);
    law_schema_is_that_of_the_records(options, all);
    reported::law_table_is_that_of_the_records(options, found, min_rate);
    reported::law_listing_is_that_of_the_records(options, found, min_rate);
    reveal_strlit("\n");
    assert("\n"@ =~= seq!['\n']);
    let told = reported::told(options, found, min_rate);
    assert(told + Seq::<char>::empty() =~= told);
}

/// `stats` prints the JSON report and a newline, or the text report, on the lines of the file.
pub proof fn law_stats_prints_what_the_lines_hold(
    options: stats::model::OptionsModel,
    all: Seq<LineModel>,
    source: Seq<char>,
    top: nat,
)
    ensures
        ({
            let m = checked_all(check_start(options), all);
            &&& m.lines == all.len()
            &&& m.stats == stats::model::observed_all(stats::model::fresh(options), all)
            &&& stats_output(m.stats, source, top, true) == values::json_text(
                stats::reported::listing(options, all, source),
            ) + seq!['\n']
            &&& stats_output(m.stats, source, top, false) == stats::reported::told(
                options,
                all,
                source,
                top,
            )
        }),
    decreases all.len(),
{
    if all.len() > 0 {
        law_stats_prints_what_the_lines_hold(options, all.drop_last(), source, top);
    }
    stats::reported::law_text_report_is_that_of_the_lines(options, all, source, top);
    stats::reported::law_json_report_is_that_of_the_lines(options, all, source);
    reveal_strlit("\n");
    assert("\n"@ =~= seq!['\n']);
}

} // verus!

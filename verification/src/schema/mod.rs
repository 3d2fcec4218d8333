//! Schema inference over a stream of records.
//!
//! Training sets rarely ship with a schema, and the one that is written down is usually out of
//! date. [`Schema`] walks every record and records, for each dotted path, how many documents
//! contain it and which types the value took. Arrays are traversed with a `[]` step so that
//! `messages[].role` shows up as its own path.
use crate::json;
use crate::json::Value;
use crate::table;
use crate::table::{Name, Table};
use crate::tally;
use crate::tally::Tally;
use vstd::prelude::*;

pub mod agreement;
pub mod laws;
pub mod model;
pub mod report;
pub mod reported;

use model::{LimitsModel, SchemaModel, StatModel, Visit, WalkModel};

verus! {

/// Statistics for one inferred path.
#[derive(Debug, Clone, PartialEq, Eq)]
pub struct PathStat {
    /// Documents in which the path occurs at least once.
    pub documents: u64,
    /// Total occurrences (a `[]` step can match many times per document).
    pub occurrences: u64,
    /// Value types seen at this path.
    pub types: Tally,
}

impl View for PathStat {
    type V = StatModel;

    open spec fn view(&self) -> StatModel {
        StatModel {
            documents: self.documents as nat,
            occurrences: self.occurrences as nat,
            types: self.types@,
        }
    }
}

impl Default for PathStat {
    fn default() -> (stat: PathStat)
        ensures
            stat@ == (StatModel { documents: 0, occurrences: 0, types: Seq::empty() }),
    {
        PathStat { documents: 0, occurrences: 0, types: Tally::new() }
    }
}

impl PathStat {
    /// Types, most frequent first.
    pub fn types_by_frequency(&self) -> (rows: Vec<(&str, u64)>)
        ensures
            tally::rows_model(rows@) == tally::ranked(self@.types),
    {
        self.types.by_frequency()
    }
}

/// Knobs for [`Schema`].
#[derive(Debug, Clone, Copy)]
pub struct SchemaOptions {
    /// How many levels to descend. `1` records only top level members.
    pub max_depth: usize,
    /// Upper bound on the number of distinct paths tracked.
    pub max_paths: usize,
}

impl View for SchemaOptions {
    type V = LimitsModel;

    open spec fn view(&self) -> LimitsModel {
        LimitsModel { max_depth: self.max_depth as nat, max_paths: self.max_paths as nat }
    }
}

impl Default for SchemaOptions {
    fn default() -> (options: SchemaOptions)
        ensures
            options.max_depth == 3,
            options.max_paths == 2_000,
            options@ == model::default_limits(),
    {
        SchemaOptions { max_depth: 3, max_paths: 2_000 }
    }
}

/// Inferred structure of a collection of records.
#[derive(Debug)]
pub struct Schema {
    /// The limits.
    pub options: SchemaOptions,
    /// Documents folded in so far.
    pub documents: u64,
    /// Path to statistics, in lexicographic path order.
    pub paths: Table<PathStat>,
    /// True when [`SchemaOptions::max_paths`] stopped new paths being tracked.
    pub truncated: bool,
}

impl View for Schema {
    type V = SchemaModel;

    open spec fn view(&self) -> SchemaModel {
        SchemaModel {
            options: self.options@,
            documents: self.documents as nat,
            paths: self.paths@,
            truncated: self.truncated,
        }
    }
}

/// The mark on a path that the record at hand has.
struct Mark {}

impl View for Mark {
    type V = ();

    open spec fn view(&self) -> () {
        ()
    }
}

/// The marked paths.
spec fn marked(rows: Seq<(Name, ())>) -> Set<Name> {
    Set::new(|name: Name| table::lookup(rows, name) is Some)
}

/// How far the walk through a record has come.
spec fn walk_of(schema: SchemaModel, seen: Seq<(Name, ())>) -> WalkModel {
    WalkModel { paths: schema.paths, truncated: schema.truncated, seen: marked(seen) }
}

/// What may change from one step of a walk to the next: the paths and the flag, nothing else.
spec fn same_schema(a: SchemaModel, b: SchemaModel) -> bool {
    a.options == b.options && a.documents == b.documents
}

/// The path of a member.
fn member_text(prefix: &str, name: &str) -> (path: String)
    ensures
        path@ == model::member_path(prefix@, name@),
{
    let mut path: String = String::new();
    path.append(prefix);
    assert(path@ =~= prefix@);
    if path.as_str().as_bytes().len() > 0 {
        path.append(".");
    }
    path.append(name);
    proof {
        lemma_empty_text(prefix@);
        assert(path@ =~= model::member_path(prefix@, name@));
    }
    path
}

/// A text without bytes is a text without characters.
proof fn lemma_empty_text(s: Seq<char>)
    ensures
        vstd::utf8::encode_utf8(s).len() == 0 <==> s.len() == 0,
{
    crate::text::lemma_byte_offset(s, s.len() as int);
    assert(s.take(s.len() as int) =~= s);
}

impl Schema {
    /// Whether the counts add up.
    pub open spec fn wf(&self) -> bool {
        model::adds_up(self@)
    }

    /// Creates an empty schema.
    pub fn new(options: SchemaOptions) -> (schema: Schema)
        ensures
            schema.wf(),
            schema@ == model::fresh(options@),
    {
        Schema { options, documents: 0, paths: Table::new(), truncated: false }
    }

    /// Folds one record into the schema.
    pub fn observe(&mut self, value: &Value)
        requires
            old(self).wf(),
            old(self).documents < u64::MAX,
            model::within(old(self)@.paths, u64::MAX - json::model::nodes(value@)),
        ensures
            final(self).wf(),
            final(self)@ == model::observed(old(self)@, value@),
    {
        proof {
            model::lemma_observed(self@, value@);
            model::lemma_visits_within_nodes(Seq::empty(), value@, self@.options.max_depth);
        }
        self.documents = self.documents + 1;
        let mut seen: Table<Mark> = Table::new();
        let room: usize = self.options.max_depth;
        let prefix: String = String::new();
        proof {
            assert(prefix@ =~= Seq::empty());
            assert(marked(seen@) =~= Set::empty());
        }
        self.walk(&mut seen, prefix.as_str(), value, room);
    }

    fn walk(&mut self, seen: &mut Table<Mark>, prefix: &str, value: &Value, room: usize)
        requires
            old(seen).wf(),
            model::paths_add_up(old(self)@.paths, old(self)@.options.max_paths),
            model::within(
                old(self)@.paths,
                u64::MAX - model::visits(prefix@, value@, room as nat).len(),
            ),
        ensures
            final(seen).wf(),
            same_schema(old(self)@, final(self)@),
            walk_of(final(self)@, final(seen)@) == model::walked(
                walk_of(old(self)@, old(seen)@),
                old(self)@.options.max_paths,
                model::visits(prefix@, value@, room as nat),
            ),
        decreases room, 1nat,
    {
        if room == 0 {
            return;
        }
        match value {
            Value::Object(members) => self.walk_members(seen, prefix, members, room),
            Value::Array(items) => {
                let mut path: String = String::new();
                path.append(prefix);
                path.append("[]");
                assert(path@ =~= model::item_path(prefix@));
                self.walk_items(seen, path.as_str(), items, room);
            },
            _ => {},
        }
    }

    fn walk_members(
        &mut self,
        seen: &mut Table<Mark>,
        prefix: &str,
        members: &Vec<(String, Value)>,
        room: usize,
    )
        requires
            room > 0,
            old(seen).wf(),
            model::paths_add_up(old(self)@.paths, old(self)@.options.max_paths),
            model::within(
                old(self)@.paths,
                u64::MAX - model::member_visits(
                    prefix@,
                    json::members_model(members@),
                    room as nat,
                ).len(),
            ),
        ensures
            final(seen).wf(),
            same_schema(old(self)@, final(self)@),
            walk_of(final(self)@, final(seen)@) == model::walked(
                walk_of(old(self)@, old(seen)@),
                old(self)@.options.max_paths,
                model::member_visits(prefix@, json::members_model(members@), room as nat),
            ),
        decreases room, 0nat,
    {
        let ghost all = json::members_model(members@);
        let ghost total = model::member_visits(prefix@, all, room as nat).len();
        let ghost start = walk_of(self@, seen@);
        let ghost max = self@.options.max_paths;
        proof {
            json::lemma_members_model(members@);
        }
        let mut i: usize = 0;
        while i < members.len()
            invariant
                i <= members@.len(),
                room > 0,
                all == json::members_model(members@),
                all.len() == members@.len(),
                total == model::member_visits(prefix@, all, room as nat).len(),
                max == old(self)@.options.max_paths,
                start == walk_of(old(self)@, old(seen)@),
                seen.wf(),
                same_schema(old(self)@, self@),
                model::paths_add_up(start.paths, max),
                model::within(start.paths, u64::MAX - total),
                walk_of(self@, seen@) == model::walked(
                    start,
                    max,
                    model::member_visits(prefix@, all.take(i as int), room as nat),
                ),
            decreases members@.len() - i,
        {
            let (name, member): (&String, &Value) = (&members[i].0, &members[i].1);
            let path: String = member_text(prefix, name.as_str());
            let ghost done = model::member_visits(prefix@, all.take(i as int), room as nat);
            let ghost visit = Visit {
                path: path@,
                label: json::model::type_label(member@),
            };
            let ghost inner = model::visits(path@, member@, (room - 1) as nat);
            proof {
                json::lemma_members_model(members@);
                model::lemma_member_visits_grow(prefix@, all, room as nat, i + 1);
                assert(all.take(i + 1).drop_last() =~= all.take(i as int));
                assert(all.take(i + 1).last() == (name@, member@));
                model::lemma_walked(start, max, done, u64::MAX - total);
                model::lemma_walked(start, max, done.push(visit), u64::MAX - total);
                assert(done.push(visit).drop_last() =~= done);
                model::lemma_walked_append(start, max, done.push(visit), inner);
            }
            self.touch(seen, path.as_str(), member.type_label());
            self.walk(seen, path.as_str(), member, room - 1);
            i = i + 1;
        }
        assert(all.take(i as int) =~= all);
    }

    fn walk_items(
        &mut self,
        seen: &mut Table<Mark>,
        path: &str,
        items: &Vec<Value>,
        room: usize,
    )
        requires
            room > 0,
            old(seen).wf(),
            model::paths_add_up(old(self)@.paths, old(self)@.options.max_paths),
            model::within(
                old(self)@.paths,
                u64::MAX - model::item_visits(
                    path@,
                    json::items_model(items@),
                    room as nat,
                ).len(),
            ),
        ensures
            final(seen).wf(),
            same_schema(old(self)@, final(self)@),
            walk_of(final(self)@, final(seen)@) == model::walked(
                walk_of(old(self)@, old(seen)@),
                old(self)@.options.max_paths,
                model::item_visits(path@, json::items_model(items@), room as nat),
            ),
        decreases room, 0nat,
    {
        let ghost all = json::items_model(items@);
        let ghost total = model::item_visits(path@, all, room as nat).len();
        let ghost start = walk_of(self@, seen@);
        let ghost max = self@.options.max_paths;
        proof {
            json::lemma_items_model(items@);
        }
        let mut i: usize = 0;
        while i < items.len()
            invariant
                i <= items@.len(),
                room > 0,
                all == json::items_model(items@),
                all.len() == items@.len(),
                total == model::item_visits(path@, all, room as nat).len(),
                max == old(self)@.options.max_paths,
                start == walk_of(old(self)@, old(seen)@),
                seen.wf(),
                same_schema(old(self)@, self@),
                model::paths_add_up(start.paths, max),
                model::within(start.paths, u64::MAX - total),
                walk_of(self@, seen@) == model::walked(
                    start,
                    max,
                    model::item_visits(path@, all.take(i as int), room as nat),
                ),
            decreases items@.len() - i,
        {
            let item: &Value = &items[i];
            let ghost done = model::item_visits(path@, all.take(i as int), room as nat);
            let ghost visit = Visit { path: path@, label: json::model::type_label(item@) };
            let ghost inner = model::visits(path@, item@, (room - 1) as nat);
            proof {
                json::lemma_items_model(items@);
                model::lemma_item_visits_grow(path@, all, room as nat, i + 1);
                assert(all.take(i + 1).drop_last() =~= all.take(i as int));
                assert(all.take(i + 1).last() == item@);
                model::lemma_walked(start, max, done, u64::MAX - total);
                model::lemma_walked(start, max, done.push(visit), u64::MAX - total);
                assert(done.push(visit).drop_last() =~= done);
                model::lemma_walked_append(start, max, done.push(visit), inner);
            }
            self.touch(seen, path, item.type_label());
            self.walk(seen, path, item, room - 1);
            i = i + 1;
        }
        assert(all.take(i as int) =~= all);
    }

    fn touch(&mut self, seen: &mut Table<Mark>, path: &str, label: &str)
        requires
            old(seen).wf(),
            model::paths_add_up(old(self)@.paths, old(self)@.options.max_paths),
            model::within(old(self)@.paths, u64::MAX - 1),
        ensures
            final(seen).wf(),
            same_schema(old(self)@, final(self)@),
            walk_of(final(self)@, final(seen)@) == model::touched(
                walk_of(old(self)@, old(seen)@),
                old(self)@.options.max_paths,
                (Visit { path: path@, label: label@ }),
            ),
    {
        let ghost before = walk_of(self@, seen@);
        let ghost rows = self.paths@;
        let fresh_document: bool = !seen.contains_key(path);
        match self.paths.find(path) {
            Ok(i) => {
                proof {
                    let stat = model::stat_seen(Some(rows[i as int].1), fresh_document, label@);
                    table::lemma_hit(rows, path@, stat, i as int);
                    assert(model::stat_adds_up(rows[i as int].1));
                    tally::lemma_count_within_total(rows[i as int].1.types, label@);
                }
                let stat: &mut PathStat = self.paths.value_at_mut(i);
                stat.occurrences = stat.occurrences + 1;
                if fresh_document {
                    stat.documents = stat.documents + 1;
                }
                stat.types.bump(label);
            },
            Err(i) => {
                if self.paths.len() < self.options.max_paths {
                    let mut types: Tally = Tally::new();
                    types.bump(label);
                    self.paths.insert_at(
                        i,
                        path.to_owned(),
                        PathStat { documents: 1, occurrences: 1, types },
                    );
                } else {
                    self.truncated = true;
                    return;
                }
            },
        }
        mark(seen, path);
        assert(walk_of(self@, seen@).seen =~= before.seen.insert(path@));
    }
}

/// Marks `path`.
fn mark(seen: &mut Table<Mark>, path: &str)
    requires
        old(seen).wf(),
    ensures
        final(seen).wf(),
        marked(final(seen)@) == marked(old(seen)@).insert(path@),
{
    match seen.find(path) {
        Ok(_) => {},
        Err(i) => {
            proof {
                table::lemma_placed(seen@, path@, ());
            }
            seen.insert_at(i, path.to_owned(), Mark {});
        },
    }
    assert(marked(seen@) =~= marked(old(seen)@).insert(path@));
}

} // verus!

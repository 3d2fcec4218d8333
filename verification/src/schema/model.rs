//! What a schema has inferred, as a mathematical object, and how each record changes it.
use crate::json::model;
use crate::json::model::Json;
use crate::table;
use crate::table::Name;
use crate::tally;
use vstd::prelude::*;

verus! {

/// What is known of one path.
#[verifier::ext_equal]
pub struct StatModel {
    pub documents: nat,
    pub occurrences: nat,
    pub types: Seq<(Name, nat)>,
}

/// The limits of a schema.
#[verifier::ext_equal]
pub struct LimitsModel {
    pub max_depth: nat,
    pub max_paths: nat,
}

/// The limits of a schema that asks for no others.
pub open spec fn default_limits() -> LimitsModel {
    LimitsModel { max_depth: 3, max_paths: 2_000 }
}

/// What a schema has inferred.
#[verifier::ext_equal]
pub struct SchemaModel {
    pub options: LimitsModel,
    pub documents: nat,
    pub paths: Seq<(Name, StatModel)>,
    pub truncated: bool,
}

/// A walk through one record: the paths so far, whether one found no room, and the tracked
/// paths that this record has.
#[verifier::ext_equal]
pub struct WalkModel {
    pub paths: Seq<(Name, StatModel)>,
    pub truncated: bool,
    pub seen: Set<Name>,
}

/// One value that a walk comes by.
#[verifier::ext_equal]
pub struct Visit {
    pub path: Name,
    pub label: Name,
}

// ---------------------------------------------------------------------------------------------
// The way through a record
// ---------------------------------------------------------------------------------------------

/// The path of the member `name` of what stands at `prefix`.
pub open spec fn member_path(prefix: Name, name: Name) -> Name {
    if prefix.len() == 0 {
        name
    } else {
        prefix + "."@ + name
    }
}

/// The path of the items of what stands at `prefix`.
pub open spec fn item_path(prefix: Name) -> Name {
    prefix + "[]"@
}

/// The values inside `v`, which stands at `prefix`, down to `room` levels.
pub open spec fn visits(prefix: Name, v: Json, room: nat) -> Seq<Visit>
    decreases room, 1nat, 0nat,
{
    if room == 0 {
        Seq::empty()
    } else {
        match v {
            Json::Object(members) => member_visits(prefix, members, room),
            Json::Array(items) => item_visits(item_path(prefix), items, room),
            _ => Seq::empty(),
        }
    }
}

/// The members of an object at `prefix`, each followed by what is inside it.
pub open spec fn member_visits(prefix: Name, members: Seq<(Name, Json)>, room: nat) -> Seq<Visit>
    decreases room, 0nat, members.len(),
{
    if members.len() == 0 || room == 0 {
        Seq::empty()
    } else {
        let path = member_path(prefix, members.last().0);
        let v = members.last().1;
        member_visits(prefix, members.drop_last(), room).push(
            Visit { path, label: model::type_label(v) },
        ) + visits(path, v, (room - 1) as nat)
    }
}

/// The items of an array, whose path is `path`, each followed by what is inside it.
pub open spec fn item_visits(path: Name, items: Seq<Json>, room: nat) -> Seq<Visit>
    decreases room, 0nat, items.len(),
{
    if items.len() == 0 || room == 0 {
        Seq::empty()
    } else {
        item_visits(path, items.drop_last(), room).push(
            Visit { path, label: model::type_label(items.last()) },
        ) + visits(path, items.last(), (room - 1) as nat)
    }
}

// ---------------------------------------------------------------------------------------------
// Steps
// ---------------------------------------------------------------------------------------------

/// `stat`, if there is one, after one more value of type `label`; `fresh` says that the record
/// had none at this path before.
pub open spec fn stat_seen(stat: Option<StatModel>, fresh: bool, label: Name) -> StatModel {
    match stat {
        Some(s) => StatModel {
            documents: if fresh {
                s.documents + 1
            } else {
                s.documents
            },
            occurrences: s.occurrences + 1,
            types: tally::bumped(s.types, label),
        },
        None => StatModel {
            documents: 1,
            occurrences: 1,
            types: tally::bumped(Seq::empty(), label),
        },
    }
}

/// A walk after one more value. A path that is not known yet needs room: there are never more
/// than `max` paths.
pub open spec fn touched(w: WalkModel, max: nat, visit: Visit) -> WalkModel {
    let known = table::lookup(w.paths, visit.path);
    if known is Some || w.paths.len() < max {
        WalkModel {
            paths: table::placed(
                w.paths,
                visit.path,
                stat_seen(known, !w.seen.contains(visit.path), visit.label),
            ),
            seen: w.seen.insert(visit.path),
            ..w
        }
    } else {
        WalkModel { truncated: true, ..w }
    }
}

/// A walk after all of `list`.
pub open spec fn walked(w: WalkModel, max: nat, list: Seq<Visit>) -> WalkModel
    decreases list.len(),
{
    if list.len() == 0 {
        w
    } else {
        touched(walked(w, max, list.drop_last()), max, list.last())
    }
}

/// A schema before the first record.
pub open spec fn fresh(options: LimitsModel) -> SchemaModel {
    SchemaModel { options, documents: 0, paths: Seq::empty(), truncated: false }
}

/// The walk through one more record, before its first step.
pub open spec fn setting_out(m: SchemaModel) -> WalkModel {
    WalkModel { paths: m.paths, truncated: m.truncated, seen: Set::empty() }
}

/// `m` after one more record.
pub open spec fn observed(m: SchemaModel, v: Json) -> SchemaModel {
    let w = walked(
        setting_out(m),
        m.options.max_paths,
        visits(Seq::empty(), v, m.options.max_depth),
    );
    SchemaModel { documents: m.documents + 1, paths: w.paths, truncated: w.truncated, ..m }
}

/// `m` after all of `records`.
pub open spec fn observed_all(m: SchemaModel, records: Seq<Json>) -> SchemaModel
    decreases records.len(),
{
    if records.len() == 0 {
        m
    } else {
        observed(observed_all(m, records.drop_last()), records.last())
    }
}

// ---------------------------------------------------------------------------------------------
// What always holds
// ---------------------------------------------------------------------------------------------

/// Whether the counts of the types, none of which is zero, add up to the occurrences, of which
/// no record has none.
pub open spec fn stat_adds_up(s: StatModel) -> bool {
    &&& 1 <= s.documents <= s.occurrences
    &&& table::sorted(s.types)
    &&& tally::all_seen(s.types)
    &&& tally::total(s.types) == s.occurrences
}

/// Whether the paths are in order, no more than `max`, and the counts of each add up.
pub open spec fn paths_add_up(paths: Seq<(Name, StatModel)>, max: nat) -> bool {
    &&& table::sorted(paths)
    &&& paths.len() <= max
    &&& forall|i: int| 0 <= i < paths.len() ==> stat_adds_up(#[trigger] paths[i].1)
}

/// Whether no path has more than `bound` occurrences.
pub open spec fn within(paths: Seq<(Name, StatModel)>, bound: int) -> bool {
    bound >= 0 && forall|i: int| 0 <= i < paths.len() ==> (#[trigger] paths[i]).1.occurrences <= bound
}

/// Whether the counts add up, and no path is in more records than there were.
pub open spec fn adds_up(m: SchemaModel) -> bool {
    &&& paths_add_up(m.paths, m.options.max_paths)
    &&& forall|i: int| 0 <= i < m.paths.len() ==> (#[trigger] m.paths[i]).1.documents <= m.documents
}

/// One more value is counted once.
pub proof fn lemma_touched(w: WalkModel, max: nat, visit: Visit, bound: int)
    requires
        paths_add_up(w.paths, max),
        within(w.paths, bound),
    ensures
        paths_add_up(touched(w, max, visit).paths, max),
        within(touched(w, max, visit).paths, bound + 1),
{
    let known = table::lookup(w.paths, visit.path);
    let stat = stat_seen(known, !w.seen.contains(visit.path), visit.label);
    let after = touched(w, max, visit).paths;
    if known is Some || w.paths.len() < max {
        table::lemma_placed(w.paths, visit.path, stat);
        let i = table::lemma_find(w.paths, visit.path);
        if i < w.paths.len() && w.paths[i].0 == visit.path {
            table::lemma_hit(w.paths, visit.path, stat, i);
            assert(stat_adds_up(w.paths[i].1));
            tally::lemma_bumped(w.paths[i].1.types, visit.label);
            assert forall|k: int| 0 <= k < after.len() implies stat_adds_up(
                #[trigger] after[k].1,
            ) && after[k].1.occurrences <= bound + 1 by {
                if k != i {
                    assert(after[k] == w.paths[k]);
                }
            }
        } else {
            table::lemma_miss(w.paths, visit.path, stat, i);
            tally::lemma_bumped(Seq::empty(), visit.label);
            assert(stat_adds_up(stat));
            assert forall|k: int| 0 <= k < after.len() implies stat_adds_up(
                #[trigger] after[k].1,
            ) && after[k].1.occurrences <= bound + 1 by {
                if k < i {
                    assert(after[k] == w.paths[k]);
                } else if k > i {
                    assert(after[k] == w.paths[k - 1]);
                }
            }
        }
    }
}

/// Every value is counted once.
pub proof fn lemma_walked(w: WalkModel, max: nat, list: Seq<Visit>, bound: int)
    requires
        paths_add_up(w.paths, max),
        within(w.paths, bound),
    ensures
        paths_add_up(walked(w, max, list).paths, max),
        within(walked(w, max, list).paths, bound + list.len()),
    decreases list.len(),
{
    if list.len() > 0 {
        lemma_walked(w, max, list.drop_last(), bound);
        lemma_touched(
            walked(w, max, list.drop_last()),
            max,
            list.last(),
            bound + list.len() - 1,
        );
    }
}

/// Whether no path is in more than `before` records other than the one that is walked.
pub open spec fn documents_within(w: WalkModel, before: nat) -> bool {
    forall|i: int|
        0 <= i < w.paths.len() ==> (#[trigger] w.paths[i]).1.documents <= (if w.seen.contains(
            w.paths[i].0,
        ) {
            before + 1
        } else {
            before
        })
}

/// A record counts at most once for a path.
pub proof fn lemma_documents_within(w: WalkModel, max: nat, list: Seq<Visit>, before: nat)
    requires
        paths_add_up(w.paths, max),
        documents_within(w, before),
    ensures
        documents_within(walked(w, max, list), before),
    decreases list.len(),
{
    if list.len() > 0 {
        let earlier = walked(w, max, list.drop_last());
        let visit = list.last();
        let bound = lemma_some_bound(w.paths);
        lemma_documents_within(w, max, list.drop_last(), before);
        lemma_walked(w, max, list.drop_last(), bound);
        let known = table::lookup(earlier.paths, visit.path);
        let stat = stat_seen(known, !earlier.seen.contains(visit.path), visit.label);
        let i = table::lemma_find(earlier.paths, visit.path);
        if i < earlier.paths.len() && earlier.paths[i].0 == visit.path {
            table::lemma_hit(earlier.paths, visit.path, stat, i);
        } else {
            table::lemma_miss(earlier.paths, visit.path, stat, i);
        }
        let after = walked(w, max, list);
        assert forall|k: int| 0 <= k < after.paths.len() implies (#[trigger] after.paths[k]).1.documents
            <= (if after.seen.contains(after.paths[k].0) {
            before + 1
        } else {
            before
        }) by {
            if known is Some {
                assert(k == i || after.paths[k] == earlier.paths[k]);
                assert(earlier.paths[i].1.documents <= before + 1);
            } else if earlier.paths.len() < max {
                if k < i {
                    assert(after.paths[k] == earlier.paths[k]);
                } else if k > i {
                    assert(after.paths[k] == earlier.paths[k - 1]);
                }
            }
        }
    }
}

/// There are finitely many paths, so some number bounds the occurrences of all of them.
pub proof fn lemma_some_bound(paths: Seq<(Name, StatModel)>) -> (bound: int)
    ensures
        within(paths, bound),
    decreases paths.len(),
{
    if paths.len() == 0 {
        0
    } else {
        let before = lemma_some_bound(paths.drop_last());
        let bound = before + paths.last().1.occurrences;
        assert forall|i: int| 0 <= i < paths.len() implies (#[trigger] paths[i]).1.occurrences
            <= bound by {
            if i < paths.len() - 1 {
                assert(paths[i] == paths.drop_last()[i]);
            }
        }
        bound
    }
}

/// One more record keeps every count adding up.
pub proof fn lemma_observed(m: SchemaModel, v: Json)
    requires
        adds_up(m),
    ensures
        adds_up(observed(m, v)),
{
    let w = setting_out(m);
    let list = visits(Seq::empty(), v, m.options.max_depth);
    let bound = lemma_some_bound(m.paths);
    lemma_walked(w, m.options.max_paths, list, bound);
    lemma_documents_within(w, m.options.max_paths, list, m.documents);
}

/// Two walks one after the other are one walk.
pub proof fn lemma_walked_append(w: WalkModel, max: nat, a: Seq<Visit>, b: Seq<Visit>)
    ensures
        walked(w, max, a + b) == walked(walked(w, max, a), max, b),
    decreases b.len(),
{
    if b.len() == 0 {
        assert(a + b =~= a);
    } else {
        lemma_walked_append(w, max, a, b.drop_last());
        assert((a + b).drop_last() =~= a + b.drop_last());
    }
}

/// A walk comes by no more values than the record holds.
pub proof fn lemma_visits_within_nodes(prefix: Name, v: Json, room: nat)
    ensures
        visits(prefix, v, room).len() < model::nodes(v),
    decreases room, 1nat, 0nat,
{
    reveal_with_fuel(model::nodes, 2);
    if room > 0 {
        match v {
            Json::Object(members) => {
                lemma_member_visits_within_nodes(prefix, members, room);
            },
            Json::Array(items) => {
                lemma_item_visits_within_nodes(item_path(prefix), items, room);
            },
            _ => {},
        }
    }
}

proof fn lemma_member_visits_within_nodes(prefix: Name, members: Seq<(Name, Json)>, room: nat)
    ensures
        member_visits(prefix, members, room).len() <= model::members_nodes(members),
    decreases room, 0nat, members.len(),
{
    if members.len() > 0 && room > 0 {
        let path = member_path(prefix, members.last().0);
        lemma_member_visits_within_nodes(prefix, members.drop_last(), room);
        lemma_visits_within_nodes(path, members.last().1, (room - 1) as nat);
        lemma_members_nodes_last(members);
    }
}

proof fn lemma_item_visits_within_nodes(path: Name, items: Seq<Json>, room: nat)
    ensures
        item_visits(path, items, room).len() <= model::items_nodes(items),
    decreases room, 0nat, items.len(),
{
    if items.len() > 0 && room > 0 {
        lemma_item_visits_within_nodes(path, items.drop_last(), room);
        lemma_visits_within_nodes(path, items.last(), (room - 1) as nat);
        lemma_items_nodes_last(items);
    }
}

proof fn lemma_members_nodes_last(members: Seq<(Name, Json)>)
    requires
        members.len() > 0,
    ensures
        model::members_nodes(members) == model::members_nodes(members.drop_last()) + model::nodes(
            members.last().1,
        ),
    decreases members.len(),
{
    reveal_with_fuel(model::members_nodes, 2);
    if members.len() > 1 {
        lemma_members_nodes_last(members.drop_first());
        assert(members.drop_last().drop_first() =~= members.drop_first().drop_last());
    }
}

proof fn lemma_items_nodes_last(items: Seq<Json>)
    requires
        items.len() > 0,
    ensures
        model::items_nodes(items) == model::items_nodes(items.drop_last()) + model::nodes(
            items.last(),
        ),
    decreases items.len(),
{
    reveal_with_fuel(model::items_nodes, 2);
    if items.len() > 1 {
        lemma_items_nodes_last(items.drop_first());
        assert(items.drop_last().drop_first() =~= items.drop_first().drop_last());
    }
}

/// The way through the first members is the first part of the way through all of them.
pub proof fn lemma_member_visits_grow(
    prefix: Name,
    members: Seq<(Name, Json)>,
    room: nat,
    i: int,
)
    requires
        0 <= i <= members.len(),
    ensures
        member_visits(prefix, members.take(i), room).len() <= member_visits(
            prefix,
            members,
            room,
        ).len(),
    decreases members.len() - i,
{
    if i < members.len() {
        lemma_member_visits_grow(prefix, members, room, i + 1);
        assert(members.take(i + 1).drop_last() =~= members.take(i));
    } else {
        assert(members.take(i) =~= members);
    }
}

/// The way through the first items is the first part of the way through all of them.
pub proof fn lemma_item_visits_grow(path: Name, items: Seq<Json>, room: nat, i: int)
    requires
        0 <= i <= items.len(),
    ensures
        item_visits(path, items.take(i), room).len() <= item_visits(path, items, room).len(),
    decreases items.len() - i,
{
    if i < items.len() {
        lemma_item_visits_grow(path, items, room, i + 1);
        assert(items.take(i + 1).drop_last() =~= items.take(i));
    } else {
        assert(items.take(i) =~= items);
    }
}

} // verus!

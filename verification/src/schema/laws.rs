//! Laws of schema inference.
use super::model;
use super::model::{LimitsModel, SchemaModel, StatModel, Visit, WalkModel};
use super::report;
use crate::json::grammar;
use crate::json::laws;
use crate::json::model as values;
use crate::json::model::Json;
use crate::json::ErrorKind;
use crate::render;
use crate::table;
use crate::table::Name;
use crate::tally;
use vstd::prelude::*;

verus! {

// ---------------------------------------------------------------------------------------------
// The report
// ---------------------------------------------------------------------------------------------

proof fn lemma_path_is_writable(stat: StatModel)
    ensures
        forall|levels: nat|
            levels >= 2 ==> #[trigger] laws::is_writable(
                Json::Object(report::path_members(stat)),
                levels,
            ),
{
    let members = report::path_members(stat);
    render::lemma_number_is_writable(stat.documents);
    render::lemma_number_is_writable(stat.occurrences);
    render::lemma_counts_are_writable(tally::ranked(stat.types));
    assert forall|i: int| 0 <= i < members.len() implies laws::is_writable(
        (#[trigger] members[i]).1,
        1,
    ) by {}
    laws::lemma_object_is_writable(members, 1);
}

/// The JSON form of a schema is valid JSON, and parsing it gives back every path and count that
/// went in.
pub proof fn law_json_report_reads_back(m: SchemaModel, min_rate: u64)
    ensures
        grammar::document(values::json_text(report::report_value(m, min_rate))) == Ok::<
            Json,
            (ErrorKind, nat),
        >(report::report_value(m, min_rate)),
{
    let rows = report::common(m.paths, m.documents, min_rate);
    let list = Seq::new(
        rows.len(),
        |i: int| (rows[i].0, Json::Object(report::path_members(rows[i].1))),
    );
    assert forall|i: int| 0 <= i < list.len() implies laws::is_writable((#[trigger] list[i]).1, 2) by {
        lemma_path_is_writable(rows[i].1);
    }
    laws::lemma_object_is_writable(list, 2);
    render::lemma_number_is_writable(m.documents);
    laws::lemma_plain_is_writable(Json::Bool(m.truncated));
    let members = report::report_members(m, min_rate);
    assert forall|i: int| 0 <= i < members.len() implies laws::is_writable(
        (#[trigger] members[i]).1,
        3,
    ) by {}
    laws::lemma_object_is_writable(members, 3);
    laws::lemma_writable_reads_back(report::report_value(m, min_rate), 4);
}

/// Filtering keeps the order of the paths, keeps every common one and adds none.
pub proof fn law_filtering_selects_common_paths(
    paths: Seq<(Name, StatModel)>,
    total: nat,
    min_rate: u64,
)
    requires
        table::sorted(paths),
    ensures
        table::sorted(report::common(paths, total, min_rate)),
        forall|row: (Name, StatModel)|
            report::common(paths, total, min_rate).contains(row) <==> #[trigger] paths.contains(row)
                && report::is_common(row.1, total, min_rate),
    decreases paths.len(),
{
    let kept = report::common(paths, total, min_rate);
    if paths.len() > 0 {
        let init = paths.drop_last();
        let before = report::common(init, total, min_rate);
        let last = paths.last();
        law_filtering_selects_common_paths(init, total, min_rate);
        assert forall|row: (Name, StatModel)| kept.contains(row) <==> #[trigger] paths.contains(row)
            && report::is_common(row.1, total, min_rate) by {
            assert(paths.contains(row) <==> init.contains(row) || row == last) by {
                if paths.contains(row) && row != last {
                    let k = choose|k: int| 0 <= k < paths.len() && paths[k] == row;
                    assert(init[k] == row);
                }
                if init.contains(row) {
                    let k = choose|k: int| 0 <= k < init.len() && init[k] == row;
                    assert(paths[k] == row);
                }
                assert(paths[paths.len() - 1] == last);
            }
            if report::is_common(last.1, total, min_rate) {
                assert(kept.contains(row) <==> before.contains(row) || row == last) by {
                    if kept.contains(row) && row != last {
                        let k = choose|k: int| 0 <= k < kept.len() && kept[k] == row;
                        assert(before[k] == row);
                    }
                    if before.contains(row) {
                        let k = choose|k: int| 0 <= k < before.len() && before[k] == row;
                        assert(kept[k] == row);
                    }
                    assert(kept[kept.len() - 1] == last);
                }
            }
        }
        if report::is_common(last.1, total, min_rate) {
            assert forall|i: int, j: int| 0 <= i < j < kept.len() implies table::name_before(
                #[trigger] kept[i].0,
                #[trigger] kept[j].0,
            ) by {
                if j == kept.len() - 1 {
                    assert(kept[i] == before[i]);
                    assert(before.contains(before[i]));
                    assert(init.contains(before[i]));
                    let k = choose|k: int| 0 <= k < init.len() && init[k] == before[i];
                    assert(paths[k] == before[i]);
                    assert(table::name_before(paths[k].0, paths[paths.len() - 1].0));
                } else {
                    assert(kept[i] == before[i] && kept[j] == before[j]);
                }
            }
        }
    }
}

// ---------------------------------------------------------------------------------------------
// Counting
// ---------------------------------------------------------------------------------------------

/// How often `list` comes by `path`.
pub open spec fn times(list: Seq<Visit>, path: Name) -> nat
    decreases list.len(),
{
    if list.len() == 0 {
        0
    } else {
        times(list.drop_last(), path) + (if list.last().path == path {
            1nat
        } else {
            0nat
        })
    }
}

/// How often `list` comes by `path` and finds a value of type `label`.
pub open spec fn typed_times(list: Seq<Visit>, path: Name, label: Name) -> nat
    decreases list.len(),
{
    if list.len() == 0 {
        0
    } else {
        typed_times(list.drop_last(), path, label) + (if list.last() == (Visit { path, label }) {
            1nat
        } else {
            0nat
        })
    }
}

/// The way through a record.
pub open spec fn way(v: Json, depth: nat) -> Seq<Visit> {
    model::visits(Seq::empty(), v, depth)
}

/// How often `path` occurs in `records`.
pub open spec fn occurrences(records: Seq<Json>, depth: nat, path: Name) -> nat
    decreases records.len(),
{
    if records.len() == 0 {
        0
    } else {
        occurrences(records.drop_last(), depth, path) + times(way(records.last(), depth), path)
    }
}

/// How often `path` occurs in `records` with a value of type `label`.
pub open spec fn typed_occurrences(
    records: Seq<Json>,
    depth: nat,
    path: Name,
    label: Name,
) -> nat
    decreases records.len(),
{
    if records.len() == 0 {
        0
    } else {
        typed_occurrences(records.drop_last(), depth, path, label) + typed_times(
            way(records.last(), depth),
            path,
            label,
        )
    }
}

/// In how many of `records` `path` occurs.
pub open spec fn documents(records: Seq<Json>, depth: nat, path: Name) -> nat
    decreases records.len(),
{
    if records.len() == 0 {
        0
    } else {
        documents(records.drop_last(), depth, path) + (if times(way(records.last(), depth), path)
            > 0 {
            1nat
        } else {
            0nat
        })
    }
}

proof fn lemma_typed_within(list: Seq<Visit>, path: Name, label: Name)
    ensures
        typed_times(list, path, label) <= times(list, path),
    decreases list.len(),
{
    if list.len() > 0 {
        lemma_typed_within(list.drop_last(), path, label);
    }
}

proof fn lemma_typed_occurrences_within(records: Seq<Json>, depth: nat, path: Name, label: Name)
    ensures
        typed_occurrences(records, depth, path, label) <= occurrences(records, depth, path),
        documents(records, depth, path) <= occurrences(records, depth, path),
    decreases records.len(),
{
    if records.len() > 0 {
        lemma_typed_occurrences_within(records.drop_last(), depth, path, label);
        lemma_typed_within(way(records.last(), depth), path, label);
    }
}

/// What is known of a path that was not known before: nothing.
spec fn known_or_none(stat: Option<StatModel>) -> StatModel {
    match stat {
        Some(s) => s,
        None => StatModel { documents: 0, occurrences: 0, types: Seq::empty() },
    }
}

/// Whether the walk from `w0` to `w` by way of `list` has counted `path` and `label` exactly.
spec fn counted(
    w0: WalkModel,
    w: WalkModel,
    max: nat,
    list: Seq<Visit>,
    path: Name,
    label: Name,
) -> bool {
    let n = times(list, path);
    let old = known_or_none(table::lookup(w0.paths, path));
    &&& match table::lookup(w.paths, path) {
        Some(s) => {
            &&& s.occurrences == old.occurrences + n
            &&& s.documents == old.documents + (if n > 0 {
                1nat
            } else {
                0nat
            })
            &&& tally::count_of(s.types, label) == tally::count_of(old.types, label) + typed_times(
                list,
                path,
                label,
            )
            &&& w.seen.contains(path) <==> n > 0
            &&& table::lookup(w0.paths, path) is Some || n > 0
        },
        None => {
            &&& table::lookup(w0.paths, path) is None
            &&& !w.seen.contains(path)
            &&& n > 0 ==> w.paths.len() == max && w.truncated
        },
    }
    &&& w0.paths.len() <= w.paths.len()
    &&& table::lookup(w0.paths, path) is None && w0.paths.len() == max ==> table::lookup(
        w.paths,
        path,
    ) is None
    &&& w0.truncated ==> w.truncated
}

proof fn lemma_lookup_adds_up(paths: Seq<(Name, StatModel)>, max: nat, path: Name)
    requires
        model::paths_add_up(paths, max),
    ensures
        table::lookup(paths, path) matches Some(s) ==> model::stat_adds_up(s),
{
    let i = table::lemma_find(paths, path);
    if i < paths.len() && paths[i].0 == path {
        table::lemma_hit(paths, path, paths[i].1, i);
    } else {
        table::lemma_miss(
            paths,
            path,
            StatModel { documents: 0, occurrences: 0, types: Seq::empty() },
            i,
        );
    }
}

proof fn lemma_walk_counts(
    w0: WalkModel,
    max: nat,
    list: Seq<Visit>,
    path: Name,
    label: Name,
    bound: int,
)
    requires
        model::paths_add_up(w0.paths, max),
        model::within(w0.paths, bound),
        w0.seen == Set::<Name>::empty(),
    ensures
        counted(w0, model::walked(w0, max, list), max, list, path, label),
    decreases list.len(),
{
    model::lemma_walked(w0, max, list, bound);
    if list.len() > 0 {
        let init = list.drop_last();
        let w = model::walked(w0, max, init);
        let visit = list.last();
        lemma_walk_counts(w0, max, init, path, label, bound);
        model::lemma_walked(w0, max, init, bound);
        lemma_typed_within(init, path, label);
        let known = table::lookup(w.paths, visit.path);
        let stat = model::stat_seen(known, !w.seen.contains(visit.path), visit.label);
        table::lemma_placed(w.paths, visit.path, stat);
        lemma_lookup_adds_up(w.paths, max, visit.path);
        if visit.path == path {
            match known {
                Some(s) => {
                    tally::lemma_bumped(s.types, visit.label);
                },
                None => {
                    tally::lemma_bumped(Seq::empty(), visit.label);
                },
            }
            assert(visit == (Visit { path, label }) <==> visit.label == label);
        }
    }
}

/// Every count adds up after any records.
pub proof fn law_counts_add_up(options: LimitsModel, records: Seq<Json>)
    ensures
        model::adds_up(model::observed_all(model::fresh(options), records)),
        model::observed_all(model::fresh(options), records).documents == records.len(),
        model::observed_all(model::fresh(options), records).options == options,
    decreases records.len(),
{
    if records.len() > 0 {
        law_counts_add_up(options, records.drop_last());
        model::lemma_observed(
            model::observed_all(model::fresh(options), records.drop_last()),
            records.last(),
        );
    }
}

/// A path that is tracked was never passed over: its occurrences, the records that have it and
/// the types of its values are exact. A path that occurs and is not tracked is missing only
/// because there are as many paths as the limit allows, and then the schema says that it is
/// truncated.
pub proof fn law_tracked_paths_are_exact(
    options: LimitsModel,
    records: Seq<Json>,
    path: Name,
    label: Name,
)
    ensures
        ({
            let m = model::observed_all(model::fresh(options), records);
            let depth = options.max_depth;
            match table::lookup(m.paths, path) {
                Some(s) => {
                    &&& s.occurrences == occurrences(records, depth, path)
                    &&& s.documents == documents(records, depth, path)
                    &&& tally::count_of(s.types, label) == typed_occurrences(
                        records,
                        depth,
                        path,
                        label,
                    )
                },
                None => occurrences(records, depth, path) > 0 ==> m.paths.len()
                    == options.max_paths && m.truncated,
            }
        }),
    decreases records.len(),
{
    if records.len() > 0 {
        let init = records.drop_last();
        let depth = options.max_depth;
        let m = model::observed_all(model::fresh(options), init);
        let list = way(records.last(), depth);
        law_tracked_paths_are_exact(options, init, path, label);
        law_counts_add_up(options, init);
        law_counts_add_up(options, records);
        let bound = model::lemma_some_bound(m.paths);
        lemma_walk_counts(model::setting_out(m), options.max_paths, list, path, label, bound);
        lemma_typed_within(list, path, label);
        lemma_typed_occurrences_within(init, depth, path, label);
    }
}

proof fn lemma_walk_truncates(w0: WalkModel, max: nat, list: Seq<Visit>, bound: int) -> (path: Name)
    requires
        model::paths_add_up(w0.paths, max),
        model::within(w0.paths, bound),
        w0.seen == Set::<Name>::empty(),
    ensures
        ({
            let w = model::walked(w0, max, list);
            w.truncated && !w0.truncated ==> times(list, path) > 0 && table::lookup(
                w.paths,
                path,
            ) is None
        }),
    decreases list.len(),
{
    if list.len() == 0 {
        Seq::empty()
    } else {
        let init = list.drop_last();
        let w = model::walked(w0, max, init);
        let path = lemma_walk_truncates(w0, max, init, bound);
        let visit = list.last();
        model::lemma_walked(w0, max, init, bound);
        if w.truncated {
            lemma_walk_counts(w0, max, init, path, visit.label, bound);
            let known = table::lookup(w.paths, visit.path);
            table::lemma_placed(
                w.paths,
                visit.path,
                model::stat_seen(known, !w.seen.contains(visit.path), visit.label),
            );
            path
        } else {
            visit.path
        }
    }
}

/// A schema says that it is truncated exactly when some path that occurs is not tracked.
pub proof fn law_truncated_means_a_path_is_missing(options: LimitsModel, records: Seq<Json>)
    ensures
        ({
            let m = model::observed_all(model::fresh(options), records);
            m.truncated <==> exists|path: Name| #[trigger]
                table::lookup(m.paths, path) is None && occurrences(
                    records,
                    options.max_depth,
                    path,
                ) > 0
        }),
    decreases records.len(),
{
    let m = model::observed_all(model::fresh(options), records);
    let depth = options.max_depth;
    if m.truncated {
        let init = records.drop_last();
        let before = model::observed_all(model::fresh(options), init);
        let list = way(records.last(), depth);
        let bound = model::lemma_some_bound(before.paths);
        law_counts_add_up(options, init);
        let path = if before.truncated {
            law_truncated_means_a_path_is_missing(options, init);
            let path = choose|path: Name| #[trigger]
                table::lookup(before.paths, path) is None && occurrences(init, depth, path) > 0;
            law_tracked_paths_are_exact(options, init, path, path);
            lemma_walk_counts(
                model::setting_out(before),
                options.max_paths,
                list,
                path,
                path,
                bound,
            );
            path
        } else {
            lemma_walk_truncates(model::setting_out(before), options.max_paths, list, bound)
        };
        assert(table::lookup(m.paths, path) is None && occurrences(records, depth, path) > 0);
    }
    assert forall|path: Name| #[trigger]
        table::lookup(m.paths, path) is None && occurrences(records, depth, path)
            > 0 implies m.truncated by {
        law_tracked_paths_are_exact(options, records, path, path);
    }
}

// ---------------------------------------------------------------------------------------------
// The order of the records
// ---------------------------------------------------------------------------------------------

/// The sum of `f` over `records`.
spec fn sum_over(records: Seq<Json>, f: spec_fn(Json) -> nat) -> nat
    decreases records.len(),
{
    if records.len() == 0 {
        0
    } else {
        sum_over(records.drop_last(), f) + f(records.last())
    }
}

proof fn lemma_sum_without(records: Seq<Json>, f: spec_fn(Json) -> nat, i: int)
    requires
        0 <= i < records.len(),
    ensures
        sum_over(records, f) == sum_over(records.remove(i), f) + f(records[i]),
    decreases records.len(),
{
    if i == records.len() - 1 {
        assert(records.remove(i) =~= records.drop_last());
    } else {
        lemma_sum_without(records.drop_last(), f, i);
        assert(records.remove(i).drop_last() =~= records.drop_last().remove(i));
    }
}

proof fn lemma_sum_in_any_order(a: Seq<Json>, b: Seq<Json>, f: spec_fn(Json) -> nat)
    requires
        a.to_multiset() == b.to_multiset(),
    ensures
        sum_over(a, f) == sum_over(b, f),
    decreases a.len(),
{
    broadcast use vstd::seq_lib::group_to_multiset_ensures;

    assert(a.len() == a.to_multiset().len());
    assert(b.len() == b.to_multiset().len());
    if a.len() > 0 {
        let init = a.drop_last();
        let v = a.last();
        assert(a =~= init.push(v));
        assert(b.to_multiset().count(v) > 0);
        assert(b.contains(v));
        let i = choose|i: int| 0 <= i < b.len() && b[i] == v;
        lemma_sum_without(b, f, i);
        assert(init.to_multiset() =~= a.to_multiset().remove(v));
        assert(b.remove(i).to_multiset() =~= b.to_multiset().remove(v));
        lemma_sum_in_any_order(init, b.remove(i), f);
    }
}

proof fn lemma_counts_are_sums(records: Seq<Json>, depth: nat, path: Name, label: Name)
    ensures
        occurrences(records, depth, path) == sum_over(
            records,
            |v: Json| times(way(v, depth), path),
        ),
        typed_occurrences(records, depth, path, label) == sum_over(
            records,
            |v: Json| typed_times(way(v, depth), path, label),
        ),
        documents(records, depth, path) == sum_over(
            records,
            |v: Json|
                if times(way(v, depth), path) > 0 {
                    1nat
                } else {
                    0nat
                },
        ),
    decreases records.len(),
{
    if records.len() > 0 {
        lemma_counts_are_sums(records.drop_last(), depth, path, label);
    }
}

/// How often a path occurs, in how many records and with which types does not depend on the
/// order of the records.
proof fn lemma_counts_in_any_order(
    a: Seq<Json>,
    b: Seq<Json>,
    depth: nat,
    path: Name,
    label: Name,
)
    requires
        a.to_multiset() == b.to_multiset(),
    ensures
        occurrences(a, depth, path) == occurrences(b, depth, path),
        typed_occurrences(a, depth, path, label) == typed_occurrences(b, depth, path, label),
        documents(a, depth, path) == documents(b, depth, path),
{
    lemma_counts_are_sums(a, depth, path, label);
    lemma_counts_are_sums(b, depth, path, label);
    lemma_sum_in_any_order(a, b, |v: Json| times(way(v, depth), path));
    lemma_sum_in_any_order(a, b, |v: Json| typed_times(way(v, depth), path, label));
    lemma_sum_in_any_order(
        a,
        b,
        |v: Json|
            if times(way(v, depth), path) > 0 {
                1nat
            } else {
                0nat
            },
    );
}

/// A path that is tracked occurs.
pub proof fn lemma_tracked_occurs(options: LimitsModel, records: Seq<Json>, path: Name)
    ensures
        table::lookup(
            model::observed_all(model::fresh(options), records).paths,
            path,
        ) is Some ==> occurrences(records, options.max_depth, path) > 0,
{
    let m = model::observed_all(model::fresh(options), records);
    law_counts_add_up(options, records);
    law_tracked_paths_are_exact(options, records, path, path);
    lemma_lookup_adds_up(m.paths, options.max_paths, path);
}

/// A schema that misses no path has as many as occur, and then no order of the records makes it
/// miss one.
proof fn lemma_complete_in_any_order(options: LimitsModel, a: Seq<Json>, b: Seq<Json>)
    requires
        a.to_multiset() == b.to_multiset(),
        !model::observed_all(model::fresh(options), a).truncated,
    ensures
        !model::observed_all(model::fresh(options), b).truncated,
{
    let s = model::observed_all(model::fresh(options), a);
    let t = model::observed_all(model::fresh(options), b);
    let depth = options.max_depth;
    law_truncated_means_a_path_is_missing(options, a);
    law_truncated_means_a_path_is_missing(options, b);
    if t.truncated {
        let lost = choose|path: Name| #[trigger]
            table::lookup(t.paths, path) is None && occurrences(b, depth, path) > 0;
        law_tracked_paths_are_exact(options, b, lost, lost);
        law_counts_add_up(options, a);
        law_counts_add_up(options, b);
        table::lemma_keys(s.paths);
        table::lemma_keys(t.paths);
        let all = table::keys(s.paths).to_set();
        let some = table::keys(t.paths).to_set();
        assert forall|path: Name| some.insert(lost).contains(path) implies all.contains(path) by {
            lemma_tracked_occurs(options, b, path);
            lemma_counts_in_any_order(a, b, depth, path, path);
            assert(some.contains(path) <==> table::lookup(t.paths, path) is Some);
            assert(occurrences(a, depth, path) > 0);
            assert(table::lookup(s.paths, path) is Some);
            assert(all.contains(path) <==> table::lookup(s.paths, path) is Some);
        }
        assert(!some.contains(lost)) by {
            assert(some.contains(lost) <==> table::lookup(t.paths, lost) is Some);
        }
        vstd::set_lib::lemma_len_subset(some.insert(lost), all);
    }
}

/// The order of the records makes no difference: they are as many, a path is missing or none is,
/// and where none is missing, the paths and all their counts are the same.
pub proof fn law_order_of_records_is_irrelevant(
    options: LimitsModel,
    a: Seq<Json>,
    b: Seq<Json>,
)
    requires
        a.to_multiset() == b.to_multiset(),
    ensures
        ({
            let s = model::observed_all(model::fresh(options), a);
            let t = model::observed_all(model::fresh(options), b);
            &&& s.documents == t.documents
            &&& s.truncated == t.truncated
            &&& !s.truncated ==> s.paths == t.paths
        }),
{
    broadcast use vstd::seq_lib::group_to_multiset_ensures;

    let s = model::observed_all(model::fresh(options), a);
    let t = model::observed_all(model::fresh(options), b);
    let depth = options.max_depth;
    assert(a.len() == a.to_multiset().len());
    assert(b.len() == b.to_multiset().len());
    law_counts_add_up(options, a);
    law_counts_add_up(options, b);
    if !s.truncated {
        lemma_complete_in_any_order(options, a, b);
    }
    if !t.truncated {
        lemma_complete_in_any_order(options, b, a);
    }
    if !s.truncated {
        assert forall|path: Name| #[trigger]
            table::lookup(s.paths, path) == table::lookup(t.paths, path) by {
            lemma_counts_in_any_order(a, b, depth, path, path);
            law_tracked_paths_are_exact(options, a, path, path);
            law_tracked_paths_are_exact(options, b, path, path);
            lemma_tracked_occurs(options, a, path);
            lemma_tracked_occurs(options, b, path);
            lemma_lookup_adds_up(s.paths, options.max_paths, path);
            lemma_lookup_adds_up(t.paths, options.max_paths, path);
            if let (Some(x), Some(y)) = (
                table::lookup(s.paths, path),
                table::lookup(t.paths, path),
            ) {
                assert forall|label: Name| #[trigger]
                    tally::count_of(x.types, label) == tally::count_of(y.types, label) by {
                    lemma_counts_in_any_order(a, b, depth, path, label);
                    law_tracked_paths_are_exact(options, a, path, label);
                    law_tracked_paths_are_exact(options, b, path, label);
                }
                tally::lemma_same_tally(x.types, y.types);
            }
        }
        table::lemma_same_rows(s.paths, t.paths);
    }
}

// ---------------------------------------------------------------------------------------------
// Which paths are tracked
// ---------------------------------------------------------------------------------------------

/// The paths that `list` comes by.
pub open spec fn paths_by(list: Seq<Visit>) -> Seq<Name> {
    list.map_values(|visit: Visit| visit.path)
}

/// The paths that occur in `records`, in the order in which they are come by.
pub open spec fn paths_in(records: Seq<Json>, depth: nat) -> Seq<Name>
    decreases records.len(),
{
    if records.len() == 0 {
        Seq::empty()
    } else {
        paths_in(records.drop_last(), depth) + paths_by(way(records.last(), depth))
    }
}

/// Whether `w` tracks the first `max` different ones of `names`, and is truncated exactly where
/// there are more.
spec fn holds_the_first(w: WalkModel, max: nat, names: Seq<Name>) -> bool {
    &&& w.paths.len() == tally::kept(names, max).len()
    &&& forall|path: Name| #[trigger]
        table::lookup(w.paths, path) is Some <==> tally::kept(names, max).contains(path)
    &&& w.truncated <==> tally::firsts(names).len() > max
}

proof fn lemma_walk_holds_the_first(
    w0: WalkModel,
    max: nat,
    list: Seq<Visit>,
    names: Seq<Name>,
    bound: int,
)
    requires
        model::paths_add_up(w0.paths, max),
        model::within(w0.paths, bound),
        holds_the_first(w0, max, names),
    ensures
        holds_the_first(model::walked(w0, max, list), max, names + paths_by(list)),
    decreases list.len(),
{
    if list.len() == 0 {
        assert(names + paths_by(list) =~= names);
    } else {
        let init = list.drop_last();
        let visit = list.last();
        let w = model::walked(w0, max, init);
        let held = names + paths_by(init);
        let all = names + paths_by(list);
        lemma_walk_holds_the_first(w0, max, init, names, bound);
        model::lemma_walked(w0, max, init, bound);
        assert(all =~= held.push(visit.path));
        assert(all.drop_last() =~= held);
        let known = table::lookup(w.paths, visit.path);
        table::lemma_placed(
            w.paths,
            visit.path,
            model::stat_seen(known, !w.seen.contains(visit.path), visit.label),
        );
        tally::lemma_kept_push(held, max, visit.path);
        tally::lemma_firsts(held);
        let first = tally::kept(held, max);
        let now = tally::kept(all, max);
        let after = model::walked(w0, max, list);
        assert(known is Some <==> first.contains(visit.path));
        assert forall|path: Name| #[trigger]
            table::lookup(after.paths, path) is Some <==> now.contains(path) by {
            assert(table::lookup(w.paths, path) is Some <==> first.contains(path));
            assert(now.contains(path) <==> first.contains(path) || (path == visit.path
                && !first.contains(visit.path) && first.len() < max));
        }
        let before = tally::firsts(held);
        if before.len() <= max {
            assert(first =~= before);
        }
        if first.contains(visit.path) {
            let i = choose|i: int| 0 <= i < first.len() && first[i] == visit.path;
            assert(before[i] == visit.path);
        }
    }
}

/// The paths that are tracked are the first `max_paths` different ones that the records come by,
/// or all of them where there are fewer, and the schema says that it is truncated exactly where
/// there are more.
pub proof fn law_the_first_paths_are_tracked(options: LimitsModel, records: Seq<Json>)
    ensures
        ({
            let m = model::observed_all(model::fresh(options), records);
            let names = paths_in(records, options.max_depth);
            let first = tally::kept(names, options.max_paths);
            &&& m.paths.len() == first.len()
            &&& forall|path: Name| #[trigger]
                table::lookup(m.paths, path) is Some <==> first.contains(path)
            &&& m.truncated <==> tally::firsts(names).len() > options.max_paths
        }),
    decreases records.len(),
{
    let max = options.max_paths;
    if records.len() == 0 {
        assert(tally::kept(Seq::empty(), max) =~= Seq::empty());
    } else {
        let init = records.drop_last();
        let before = model::observed_all(model::fresh(options), init);
        law_the_first_paths_are_tracked(options, init);
        law_counts_add_up(options, init);
        let bound = model::lemma_some_bound(before.paths);
        let w0 = model::setting_out(before);
        let names = paths_in(init, options.max_depth);
        assert(holds_the_first(w0, max, names));
        lemma_walk_holds_the_first(
            w0,
            max,
            way(records.last(), options.max_depth),
            names,
            bound,
        );
    }
}

/// At depth one a schema records the top level members of a record and nothing else.
pub proof fn law_depth_one_is_the_top_level(members: Seq<(Name, Json)>)
    ensures
        way(Json::Object(members), 1) == Seq::new(
            members.len(),
            |i: int|
                Visit { path: members[i].0, label: values::type_label(members[i].1) },
        ),
    decreases members.len(),
{
    let wanted = Seq::new(
        members.len(),
        |i: int| Visit { path: members[i].0, label: values::type_label(members[i].1) },
    );
    if members.len() > 0 {
        law_depth_one_is_the_top_level(members.drop_last());
        assert(model::visits(members.last().0, members.last().1, 0) =~= Seq::empty());
    }
    assert(way(Json::Object(members), 1) =~= wanted);
}

} // verus!

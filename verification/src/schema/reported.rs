//! What a schema says of the records that it was inferred from.
use super::agreement;
use super::laws;
use super::model;
use super::model::{LimitsModel, StatModel, Visit};
use super::report;
use crate::json::model as values;
use crate::json::model::Json;
use crate::render;
use crate::rounding;
use crate::table;
use crate::table::Name;
use crate::tally;
use crate::text;
use vstd::prelude::*;

verus! {

// ---------------------------------------------------------------------------------------------
// What is to be said
// ---------------------------------------------------------------------------------------------

/// The types that the records have at `path`.
pub open spec fn types_at(records: Seq<Json>, depth: nat, path: Name) -> Seq<Name>
    decreases records.len(),
{
    if records.len() == 0 {
        Seq::empty()
    } else {
        types_at(records.drop_last(), depth, path) + agreement::labels_at(
            laws::way(records.last(), depth),
            path,
        )
    }
}

/// Whether `count` of `total` records are at least the share whose double has the bits
/// `min_rate`.
pub open spec fn is_frequent(count: nat, total: nat, min_rate: u64) -> bool {
    total == 0 || rounding::at_least(
        rounding::quotient(rounding::whole(count), rounding::whole(total)),
        min_rate,
    )
}

/// Those of the paths in `rows` that are in enough records.
pub open spec fn frequent(
    records: Seq<Json>,
    depth: nat,
    rows: Seq<(Name, nat)>,
    min_rate: u64,
) -> Seq<Name>
    decreases rows.len(),
{
    if rows.len() == 0 {
        Seq::empty()
    } else {
        let before = frequent(records, depth, rows.drop_last(), min_rate);
        let path = rows.last().0;
        if is_frequent(laws::documents(records, depth, path), records.len(), min_rate) {
            before.push(path)
        } else {
            before
        }
    }
}

/// The paths to speak of, by name.
pub open spec fn listed_paths(
    options: LimitsModel,
    records: Seq<Json>,
    min_rate: u64,
) -> Seq<Name> {
    let depth = options.max_depth;
    frequent(
        records,
        depth,
        tally::held(laws::paths_in(records, depth), options.max_paths),
        min_rate,
    )
}

/// Whether there are more paths than the limit allows.
pub open spec fn is_incomplete(options: LimitsModel, records: Seq<Json>) -> bool {
    tally::firsts(laws::paths_in(records, options.max_depth)).len() > options.max_paths
}

/// In what share of the records one path is, in percent, and with which types.
pub open spec fn told_path(records: Seq<Json>, depth: nat, path: Name) -> Seq<char> {
    "  "@ + text::pad_end(path, 38) + " "@ + text::pad_start(
        if records.len() == 0 {
            rounding::fixed((0, 1), 1)
        } else {
            rounding::fixed(
                render::share(laws::documents(records, depth, path), records.len()),
                1,
            )
        },
        6,
    ) + "%  "@ + render::rows_text(
        tally::ranked(tally::tally_of(types_at(records, depth, path))),
        false,
    ) + "\n"@
}

/// All that the table is to say.
pub open spec fn told(options: LimitsModel, records: Seq<Json>, min_rate: u64) -> Seq<char> {
    let depth = options.max_depth;
    let paths = listed_paths(options, records, min_rate);
    text::decimal(records.len()) + " records, depth "@ + text::decimal(depth) + "\n\n  "@
        + text::pad_end("path"@, 38) + " "@ + text::pad_start("rate"@, 7) + "  types\n"@
        + text::strung(Seq::new(paths.len(), |i: int| told_path(records, depth, paths[i])))
        + (if is_incomplete(options, records) {
        "  ... path limit reached, output is incomplete\n"@
    } else {
        Seq::empty()
    })
}

/// A count as a value.
pub open spec fn listed(n: nat) -> Json {
    Json::Number(text::decimal(n))
}

/// One path as a value.
pub open spec fn listed_path(records: Seq<Json>, depth: nat, path: Name) -> Json {
    let types = tally::ranked(tally::tally_of(types_at(records, depth, path)));
    Json::Object(
        seq![
            ("documents"@, listed(laws::documents(records, depth, path))),
            ("occurrences"@, listed(laws::occurrences(records, depth, path))),
            (
                "types"@,
                Json::Object(Seq::new(types.len(), |i: int| (types[i].0, listed(types[i].1)))),
            ),
        ],
    )
}

/// All that the JSON form is to list.
pub open spec fn listing(options: LimitsModel, records: Seq<Json>, min_rate: u64) -> Json {
    let depth = options.max_depth;
    let paths = listed_paths(options, records, min_rate);
    Json::Object(
        seq![
            ("records"@, listed(records.len())),
            ("truncated"@, Json::Bool(is_incomplete(options, records))),
            (
                "paths"@,
                Json::Object(
                    Seq::new(
                        paths.len(),
                        |i: int| (paths[i], listed_path(records, depth, paths[i])),
                    ),
                ),
            ),
        ],
    )
}

// ---------------------------------------------------------------------------------------------
// Counts
// ---------------------------------------------------------------------------------------------

proof fn lemma_types_by(list: Seq<Visit>, path: Name, label: Name)
    ensures
        tally::occurrences(agreement::labels_at(list, path), label) == laws::typed_times(
            list,
            path,
            label,
        ),
        tally::occurrences(laws::paths_by(list), path) == laws::times(list, path),
    decreases list.len(),
{
    if list.len() > 0 {
        let init = list.drop_last();
        lemma_types_by(init, path, label);
        assert(laws::paths_by(list).drop_last() =~= laws::paths_by(init));
        let now = agreement::labels_at(init, path).push(list.last().label);
        assert(now.drop_last() =~= agreement::labels_at(init, path));
    }
}

proof fn lemma_types_at(records: Seq<Json>, depth: nat, path: Name, label: Name)
    ensures
        tally::occurrences(types_at(records, depth, path), label) == laws::typed_occurrences(
            records,
            depth,
            path,
            label,
        ),
        tally::occurrences(laws::paths_in(records, depth), path) == laws::occurrences(
            records,
            depth,
            path,
        ),
    decreases records.len(),
{
    if records.len() > 0 {
        let init = records.drop_last();
        let list = laws::way(records.last(), depth);
        lemma_types_at(init, depth, path, label);
        lemma_types_by(list, path, label);
        tally::lemma_occurrences_concat(
            types_at(init, depth, path),
            agreement::labels_at(list, path),
            label,
        );
        tally::lemma_occurrences_concat(
            laws::paths_in(init, depth),
            laws::paths_by(list),
            path,
        );
    }
}

/// The paths with their occurrences.
spec fn path_counts(paths: Seq<(Name, StatModel)>) -> Seq<(Name, nat)> {
    Seq::new(paths.len(), |i: int| (paths[i].0, paths[i].1.occurrences))
}

proof fn lemma_path_counts(paths: Seq<(Name, StatModel)>, name: Name)
    requires
        table::sorted(paths),
    ensures
        table::sorted(path_counts(paths)),
        table::lookup(path_counts(paths), name) == (match table::lookup(paths, name) {
            Some(stat) => Some(stat.occurrences),
            None => None,
        }),
{
    let counts = path_counts(paths);
    assert forall|i: int, j: int| 0 <= i < j < counts.len() implies table::name_before(
        #[trigger] counts[i].0,
        #[trigger] counts[j].0,
    ) by {
        assert(table::name_before(paths[i].0, paths[j].0));
    }
    let k = table::lemma_find(paths, name);
    if k < paths.len() && paths[k].0 == name {
        table::lemma_hit(paths, name, paths[k].1, k);
        table::lemma_hit(counts, name, counts[k].1, k);
    } else {
        assert(table::is_gap(counts, name, k)) by {
            assert forall|i: int| 0 <= i < k implies table::name_before(
                #[trigger] counts[i].0,
                name,
            ) by {
                assert(table::name_before(paths[i].0, name));
            }
            assert forall|i: int| k <= i < counts.len() implies table::name_before(
                name,
                #[trigger] counts[i].0,
            ) by {
                assert(table::name_before(name, paths[i].0));
            }
        }
        table::lemma_miss(
            paths,
            name,
            StatModel { documents: 0, occurrences: 0, types: Seq::empty() },
            k,
        );
        table::lemma_miss(counts, name, 0, k);
    }
}

/// Whether `stat` counts the occurrences of `path` in the records.
spec fn is_exact(records: Seq<Json>, depth: nat, path: Name, stat: StatModel) -> bool {
    &&& stat.documents == laws::documents(records, depth, path)
    &&& stat.occurrences == laws::occurrences(records, depth, path)
    &&& stat.types == tally::tally_of(types_at(records, depth, path))
}

proof fn lemma_paths_are_exact(options: LimitsModel, records: Seq<Json>)
    ensures
        ({
            let m = model::observed_all(model::fresh(options), records);
            let depth = options.max_depth;
            &&& m.documents == records.len()
            &&& m.options == options
            &&& m.truncated == is_incomplete(options, records)
            &&& forall|i: int|
                0 <= i < m.paths.len() ==> is_exact(
                    records,
                    depth,
                    m.paths[i].0,
                    (#[trigger] m.paths[i]).1,
                )
            &&& path_counts(m.paths) == tally::held(
                laws::paths_in(records, depth),
                options.max_paths,
            )
        }),
{
    let m = model::observed_all(model::fresh(options), records);
    let depth = options.max_depth;
    let names = laws::paths_in(records, depth);
    let counts = path_counts(m.paths);
    laws::law_counts_add_up(options, records);
    laws::law_the_first_paths_are_tracked(options, records);
    assert forall|i: int| 0 <= i < m.paths.len() implies is_exact(
        records,
        depth,
        m.paths[i].0,
        (#[trigger] m.paths[i]).1,
    ) by {
        let (path, stat) = m.paths[i];
        table::lemma_hit(m.paths, path, stat, i);
        laws::law_tracked_paths_are_exact(options, records, path, path);
        assert(model::stat_adds_up(m.paths[i].1));
        let found = types_at(records, depth, path);
        tally::law_tally_counts_occurrences(found);
        tally::lemma_tally_is_seen(found);
        assert forall|label: Name| #[trigger] tally::count_of(stat.types, label)
            == tally::count_of(tally::tally_of(found), label) by {
            laws::law_tracked_paths_are_exact(options, records, path, label);
            lemma_types_at(records, depth, path, label);
        }
        tally::lemma_same_tally(stat.types, tally::tally_of(found));
    }
    lemma_path_counts(m.paths, Seq::empty());
    assert forall|name: Name| #[trigger] table::lookup(counts, name) is Some <==> tally::kept(
        names,
        options.max_paths,
    ).contains(name) by {
        lemma_path_counts(m.paths, name);
        assert(table::lookup(m.paths, name) is Some <==> tally::kept(
            names,
            options.max_paths,
        ).contains(name));
    }
    assert forall|name: Name| #[trigger] table::lookup(counts, name) is Some implies table::lookup(
        counts,
        name,
    )->0 == tally::occurrences(names, name) by {
        lemma_path_counts(m.paths, name);
        laws::law_tracked_paths_are_exact(options, records, name, name);
        lemma_types_at(records, depth, name, name);
    }
    tally::lemma_held(counts, names, options.max_paths);
}

// ---------------------------------------------------------------------------------------------
// The table and the listing
// ---------------------------------------------------------------------------------------------

proof fn lemma_listed_counts(rows: Seq<(Name, nat)>)
    ensures
        render::counts_object(rows) == Json::Object(
            Seq::new(rows.len(), |i: int| (rows[i].0, listed(rows[i].1))),
        ),
{
    let a = Seq::new(rows.len(), |i: int| (rows[i].0, render::number(rows[i].1)));
    let b = Seq::new(rows.len(), |i: int| (rows[i].0, listed(rows[i].1)));
    assert(a =~= b);
}

proof fn lemma_told_paths(
    records: Seq<Json>,
    depth: nat,
    rows: Seq<(Name, StatModel)>,
    min_rate: u64,
)
    requires
        forall|i: int|
            0 <= i < rows.len() ==> is_exact(records, depth, rows[i].0, (#[trigger] rows[i]).1),
    ensures
        ({
            let paths = frequent(records, depth, path_counts(rows), min_rate);
            let kept = report::common(rows, records.len(), min_rate);
            &&& report::path_lines(kept, records.len()) == text::strung(
                Seq::new(paths.len(), |i: int| told_path(records, depth, paths[i])),
            )
            &&& kept.len() == paths.len()
            &&& forall|i: int|
                0 <= i < kept.len() ==> (#[trigger] kept[i]).0 == paths[i] && is_exact(
                    records,
                    depth,
                    paths[i],
                    kept[i].1,
                )
        }),
    decreases rows.len(),
{
    if rows.len() > 0 {
        let init = rows.drop_last();
        let paths = frequent(records, depth, path_counts(rows), min_rate);
        let before = frequent(records, depth, path_counts(init), min_rate);
        assert forall|i: int| 0 <= i < init.len() implies is_exact(
            records,
            depth,
            init[i].0,
            (#[trigger] init[i]).1,
        ) by {
            assert(init[i] == rows[i]);
        }
        lemma_told_paths(records, depth, init, min_rate);
        assert(path_counts(rows).drop_last() =~= path_counts(init));
        assert(rows.last() == rows[rows.len() - 1]);
        let path = rows.last().0;
        let stat = rows.last().1;
        assert(is_exact(records, depth, path, stat));
        if report::is_common(stat, records.len(), min_rate) {
            let pieces = Seq::new(paths.len(), |i: int| told_path(records, depth, paths[i]));
            assert(paths == before.push(path));
            assert(pieces.drop_last() =~= Seq::new(
                before.len(),
                |i: int| told_path(records, depth, before[i]),
            ));
            let held = report::common(init, records.len(), min_rate);
            let kept = report::common(rows, records.len(), min_rate);
            assert(kept == held.push((path, stat)));
            assert(kept.drop_last() =~= held);
            assert(kept.last() == (path, stat));
            assert(report::path_text((path, stat), records.len()) == told_path(
                records,
                depth,
                path,
            ));
        }
    }
}

/// The table says of the records how many there are, which paths are in enough of them, in what
/// share of the records each of these is, and which types it has in them.
pub proof fn law_table_is_that_of_the_records(
    options: LimitsModel,
    records: Seq<Json>,
    min_rate: u64,
)
    ensures
        report::text_report(model::observed_all(model::fresh(options), records), min_rate) == told(
            options,
            records,
            min_rate,
        ),
{
    let m = model::observed_all(model::fresh(options), records);
    lemma_paths_are_exact(options, records);
    lemma_told_paths(records, options.max_depth, m.paths, min_rate);
}

/// The JSON form lists of the records how many there are, and of each path that is in enough of
/// them in how many it is, how often it occurs and with which types.
pub proof fn law_listing_is_that_of_the_records(
    options: LimitsModel,
    records: Seq<Json>,
    min_rate: u64,
)
    ensures
        report::report_value(model::observed_all(model::fresh(options), records), min_rate)
            == listing(options, records, min_rate),
{
    let m = model::observed_all(model::fresh(options), records);
    let depth = options.max_depth;
    lemma_paths_are_exact(options, records);
    lemma_told_paths(records, depth, m.paths, min_rate);
    let paths = listed_paths(options, records, min_rate);
    let kept = report::common(m.paths, m.documents, min_rate);
    let a = Seq::new(
        kept.len(),
        |i: int| (kept[i].0, Json::Object(report::path_members(kept[i].1))),
    );
    let b = Seq::new(paths.len(), |i: int| (paths[i], listed_path(records, depth, paths[i])));
    assert forall|i: int| 0 <= i < paths.len() implies a[i] == b[i] by {
        assert(kept[i].0 == paths[i]);
        lemma_listed_counts(tally::ranked(kept[i].1.types));
        assert(report::path_members(kept[i].1) == listed_path(
            records,
            depth,
            paths[i],
        )->Object_0);
    }
    assert(a =~= b);
    assert(report::report_members(m, min_rate) == listing(options, records, min_rate)->Object_0);
}

/// The rate in the row of a path is the share of the records that have the path at least once,
/// to the nearest tenth of a percent. It is never more than 100.0%, and does not depend on how
/// often the path occurs.
pub proof fn law_rate_is_that_of_the_documents(
    name: Name,
    a: StatModel,
    b: StatModel,
    total: nat,
) -> (tenths: nat)
    requires
        a.documents == b.documents,
        a.types == b.types,
        a.documents <= total,
        0 < total < 0x400_0000_0000,
    ensures
        report::path_text((name, a), total) == "  "@ + text::pad_end(name, 38) + " "@
            + text::pad_start(rounding::pointed(tenths, 1), 6) + "%  "@ + render::rows_text(
            tally::ranked(a.types),
            false,
        ) + "\n"@,
        report::path_text((name, b), total) == report::path_text((name, a), total),
        tenths <= 1000,
        2 * (tenths * total) <= 2000 * a.documents + total,
        2000 * a.documents <= 2 * (tenths * total) + total,
{
    let tenths = render::law_percentage_is_nearest(a.documents, total);
    let x = rounding::fixed(render::share(a.documents, total), 1);
    let y = rounding::pointed(tenths, 1);
    reveal_strlit("%");
    assert("%"@ =~= seq!['%']);
    assert(x =~= y) by {
        assert((x + seq!['%']).drop_last() =~= x);
        assert((y + seq!['%']).drop_last() =~= y);
    }
    assert(tenths <= 1000) by (nonlinear_arith)
        requires
            2 * (tenths * total) <= 2000 * a.documents + total,
            a.documents <= total,
            total > 0,
    ;
    tenths
}

/// A path that is in more records is no less common. By the rate zero every path is common; by
/// the rate one half, one that is in at least half of the records; by the rate one, one that is
/// in all of them, which is then common by every lower rate too; and by a higher rate none is.
pub proof fn law_more_documents_are_more_frequent(
    fewer: StatModel,
    more: StatModel,
    total: nat,
    min_rate: u64,
)
    requires
        fewer.documents <= more.documents <= total,
        total < 0x20_0000_0000_0000,
    ensures
        report::is_common(fewer, total, min_rate) ==> report::is_common(more, total, min_rate),
        min_rate == 0 ==> report::is_common(fewer, total, min_rate),
        more.documents == total && min_rate <= 0x3FF0_0000_0000_0000 ==> report::is_common(
            more,
            total,
            min_rate,
        ),
        total > 0 && 0x3FF0_0000_0000_0000 < min_rate < 0x8000_0000_0000_0000
            ==> !report::is_common(more, total, min_rate),
        min_rate == 0x3FF0_0000_0000_0000 && total > 0 && fewer.documents < total
            ==> !report::is_common(fewer, total, min_rate),
        total > 0 && min_rate == 0x3FE0_0000_0000_0000 && 2 * more.documents >= total
            ==> report::is_common(more, total, min_rate),
        total > 0 && min_rate == 0x3FE0_0000_0000_0000 && 2 * fewer.documents < total
            ==> !report::is_common(fewer, total, min_rate),
{
    if total > 0 {
        let one: u64 = 0x3FF0_0000_0000_0000;
        let (a, b) = (fewer.documents, more.documents);
        rounding::law_nearest_double(a);
        rounding::law_nearest_double(b);
        rounding::law_nearest_double(total);
        let x = rounding::quotient(a, total);
        let y = rounding::quotient(b, total);
        rounding::law_quotients_keep_their_order(a, b, total);
        if rounding::at_least(x, min_rate) {
            rounding::law_larger_numbers_are_at_least_as_much(x, y, min_rate);
        }
        rounding::law_quotient_and_whole_number(a, total, 1);
        rounding::law_quotient_and_whole_number(b, total, 1);
        rounding::law_quotient_and_whole_number(2 * a, total, 1);
        rounding::law_quotient_and_whole_number(2 * b, total, 1);
        rounding::law_bits_of_one_and_one_half(x);
        rounding::law_bits_of_one_and_one_half(y);
        rounding::law_bits_stand_for_numbers(x, 0);
        rounding::law_bits_stand_for_numbers(y, min_rate);
        if b == total && min_rate <= one {
            rounding::law_larger_bits_are_larger_numbers(y, min_rate, one);
        }
        if one < min_rate < 0x8000_0000_0000_0000 && rounding::at_least(y, min_rate) {
            vstd::arithmetic::power2::lemma2_to64();
            assert(total * 1 == 1 * total) by (nonlinear_arith);
            rounding::law_dyadic_quotient_is_exact(total, total, 1, 0);
            let z = rounding::quotient(total, total);
            rounding::law_quotients_keep_their_order(b, total, total);
            rounding::law_larger_numbers_are_at_least_as_much(y, z, min_rate);
            let next: u64 = 0x3FF0_0000_0000_0001;
            rounding::law_larger_bits_are_larger_numbers(z, next, min_rate);
            rounding::law_bits_of_one_and_one_half(z);
            assert(z.0 == z.1) by (nonlinear_arith)
                requires
                    z.0 * total == total * z.1,
                    total > 0,
            ;
        }
    }
}

/// Unless it is asked otherwise, a schema goes three levels deep and keeps the first 2,000
/// different paths; it says that it is incomplete only where there are more.
pub proof fn law_default_limits(records: Seq<Json>)
    ensures
        ({
            let m = model::observed_all(model::fresh(model::default_limits()), records);
            let all = tally::firsts(laws::paths_in(records, 3));
            &&& all.len() <= 2_000 ==> m.paths.len() == all.len() && !m.truncated
            &&& all.len() > 2_000 ==> m.paths.len() == 2_000 && m.truncated
        }),
{
    laws::law_the_first_paths_are_tracked(model::default_limits(), records);
}

/// A schema comes by every member and every item down to its depth, each at once before what is
/// in it: a member by the path of its object, a dot and its name, or by its name alone at the top,
/// and an item by the path of its array and a pair of brackets. It goes into nothing else.
pub proof fn law_walk_comes_by_everything(
    prefix: Name,
    members: Seq<(Name, Json)>,
    items: Seq<Json>,
    name: Name,
    v: Json,
    room: nat,
)
    requires
        room > 0,
    ensures
        ({
            let path = if prefix.len() == 0 {
                name
            } else {
                prefix + seq!['.'] + name
            };
            model::visits(prefix, Json::Object(members.push((name, v))), room) == model::visits(
                prefix,
                Json::Object(members),
                room,
            ) + seq![Visit { path, label: values::type_label(v) }] + model::visits(
                path,
                v,
                (room - 1) as nat,
            )
        }),
        ({
            let path = prefix + seq!['[', ']'];
            model::visits(prefix, Json::Array(items.push(v)), room) == model::visits(
                prefix,
                Json::Array(items),
                room,
            ) + seq![Visit { path, label: values::type_label(v) }] + model::visits(
                path,
                v,
                (room - 1) as nat,
            )
        }),
        model::visits(prefix, Json::Object(Seq::empty()), room).len() == 0,
        model::visits(prefix, Json::Array(Seq::empty()), room).len() == 0,
        v !is Object && v !is Array ==> model::visits(prefix, v, room).len() == 0,
        model::visits(prefix, v, 0).len() == 0,
{
    reveal_strlit(".");
    reveal_strlit("[]");
    assert("."@ =~= seq!['.']);
    assert("[]"@ =~= seq!['[', ']']);
    let more = members.push((name, v));
    assert(more.drop_last() =~= members);
    let path = model::member_path(prefix, name);
    assert(model::member_visits(prefix, more, room) =~= model::member_visits(
        prefix,
        members,
        room,
    ) + seq![Visit { path, label: values::type_label(v) }] + model::visits(
        path,
        v,
        (room - 1) as nat,
    ));
    let longer = items.push(v);
    assert(longer.drop_last() =~= items);
    let place = model::item_path(prefix);
    assert(model::item_visits(place, longer, room) =~= model::item_visits(place, items, room)
        + seq![Visit { path: place, label: values::type_label(v) }] + model::visits(
        place,
        v,
        (room - 1) as nat,
    ));
}

} // verus!

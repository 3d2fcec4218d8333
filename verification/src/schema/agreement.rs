//! Schemas and field paths agree: what a schema counts at a path is what the path selects.
use super::laws;
use super::model;
use super::model::{LimitsModel, Visit};
use crate::json::model as values;
use crate::json::model::Json;
use crate::path;
use crate::path::{PathFault, PathModel, Step};
use crate::stats;
use crate::table;
use crate::table::Name;
use crate::tally;
use vstd::prelude::*;

verus! {

/// Whether `step` is one that a schema takes: into a member that a path can name, or into every
/// item.
pub open spec fn is_walked(step: Step) -> bool {
    path::is_expressible(step) && step !is Index
}

/// Whether a schema takes each of `steps`.
pub open spec fn all_walked(steps: Seq<Step>) -> bool {
    forall|i: int| 0 <= i < steps.len() ==> is_walked(#[trigger] steps[i])
}

/// Whether, down to `room` levels, a path can name every member, and no object has two of the
/// same name.
pub open spec fn is_regular(v: Json, room: nat) -> bool
    decreases room, 0nat,
{
    room == 0 || match v {
        Json::Array(items) => are_regular(items, (room - 1) as nat),
        Json::Object(members) => are_named(members) && are_regular(
            members.map_values(|member: (Name, Json)| member.1),
            (room - 1) as nat,
        ),
        _ => true,
    }
}

/// Whether that holds of each of `items`.
pub open spec fn are_regular(items: Seq<Json>, room: nat) -> bool
    decreases room, 1nat,
{
    forall|i: int| 0 <= i < items.len() ==> is_regular(#[trigger] items[i], room)
}

/// Whether a path can name every one of `members`, and no two have the same name.
pub open spec fn are_named(members: Seq<(Name, Json)>) -> bool {
    &&& forall|i: int| 0 <= i < members.len() ==> path::is_plain((#[trigger] members[i]).0)
    &&& forall|i: int, j: int|
        0 <= i < j < members.len() ==> (#[trigger] members[i]).0 != (#[trigger] members[j]).0
}

/// The text of a path.
pub open spec fn path_of(steps: Seq<Step>) -> Name {
    path::steps_text(steps, true)
}

// ---------------------------------------------------------------------------------------------
// Texts of paths
// ---------------------------------------------------------------------------------------------

proof fn lemma_text_push(steps: Seq<Step>, step: Step, first: bool)
    ensures
        path::steps_text(steps.push(step), first) == path::steps_text(steps, first)
            + path::step_text(step, first && steps.len() == 0),
    decreases steps.len(),
{
    reveal_with_fuel(path::steps_text, 2);
    let longer = steps.push(step);
    if steps.len() == 0 {
        assert(longer.drop_first() =~= Seq::empty());
        assert(path::steps_text(longer, first) =~= path::steps_text(steps, first)
            + path::step_text(step, first));
    } else {
        lemma_text_push(steps.drop_first(), step, false);
        assert(longer.drop_first() =~= steps.drop_first().push(step));
        assert(path::steps_text(longer, first) =~= path::steps_text(steps, first)
            + path::step_text(step, false));
    }
}

proof fn lemma_text_is_empty(steps: Seq<Step>)
    requires
        all_walked(steps),
    ensures
        path_of(steps).len() == 0 <==> steps.len() == 0,
{
    if steps.len() > 0 {
        assert(is_walked(steps[0]));
        assert(path::step_text(steps[0], true).len() > 0);
    }
}

proof fn lemma_texts_differ(a: Seq<Step>, b: Seq<Step>)
    requires
        all_walked(a),
        all_walked(b),
    ensures
        path_of(a) == path_of(b) <==> a == b,
{
    lemma_text_is_empty(a);
    lemma_text_is_empty(b);
    if path_of(a) == path_of(b) {
        if a.len() == 0 {
            assert(a =~= b);
        } else {
            assert forall|i: int| 0 <= i < a.len() implies path::is_expressible(
                #[trigger] a[i],
            ) by {
                assert(is_walked(a[i]));
            }
            assert forall|i: int| 0 <= i < b.len() implies path::is_expressible(
                #[trigger] b[i],
            ) by {
                assert(is_walked(b[i]));
            }
            path::law_written_path_compiles_back(a);
            path::law_written_path_compiles_back(b);
        }
    }
}

proof fn lemma_member_path(steps: Seq<Step>, name: Name)
    requires
        all_walked(steps),
    ensures
        model::member_path(path_of(steps), name) == path_of(steps.push(Step::Key(name))),
{
    reveal_strlit(".");
    lemma_text_is_empty(steps);
    lemma_text_push(steps, Step::Key(name), true);
    assert("."@ =~= seq!['.']);
    assert(model::member_path(path_of(steps), name) =~= path_of(steps.push(Step::Key(name))));
}

proof fn lemma_item_path(steps: Seq<Step>)
    ensures
        model::item_path(path_of(steps)) == path_of(steps.push(Step::Each)),
{
    reveal_strlit("[]");
    lemma_text_push(steps, Step::Each, true);
    assert("[]"@ =~= seq!['[', ']']);
}

proof fn lemma_all_walked_push(steps: Seq<Step>, step: Step)
    requires
        all_walked(steps),
        is_walked(step),
    ensures
        all_walked(steps.push(step)),
{
    assert forall|i: int| 0 <= i < steps.push(step).len() implies is_walked(
        #[trigger] steps.push(step)[i],
    ) by {
        if i < steps.len() {
            assert(is_walked(steps[i]));
        }
    }
}

// ---------------------------------------------------------------------------------------------
// Selecting step by step from the front
// ---------------------------------------------------------------------------------------------

proof fn lemma_select_first(steps: Seq<Step>, v: Json)
    requires
        steps.len() > 0,
    ensures
        path::select(steps, v) == path::select_all(
            steps.drop_first(),
            path::step_into(v, steps[0]),
        ),
{
    let first = seq![steps[0]];
    path::law_paths_compose(first, steps.drop_first(), v);
    assert(first + steps.drop_first() =~= steps);
    reveal_with_fuel(path::select, 2);
    reveal_with_fuel(path::step_all, 2);
    assert(first.drop_last() =~= Seq::empty());
    assert(seq![v].drop_last() =~= Seq::<Json>::empty());
    assert(path::select(first, v) =~= path::step_into(v, steps[0]));
}

// ---------------------------------------------------------------------------------------------
// Counting
// ---------------------------------------------------------------------------------------------

/// The types of the values that `list` finds at `path`, in order.
pub open spec fn labels_at(list: Seq<Visit>, path: Name) -> Seq<Name>
    decreases list.len(),
{
    if list.len() == 0 {
        Seq::empty()
    } else if list.last().path == path {
        labels_at(list.drop_last(), path).push(list.last().label)
    } else {
        labels_at(list.drop_last(), path)
    }
}

/// The number of types at a path is the number of times that it is come by, in total and of each
/// type.
proof fn lemma_labels_at(list: Seq<Visit>, path: Name, label: Name)
    ensures
        laws::times(list, path) == labels_at(list, path).len(),
        laws::typed_times(list, path, label) == tally::occurrences(labels_at(list, path), label),
    decreases list.len(),
{
    if list.len() > 0 {
        lemma_labels_at(list.drop_last(), path, label);
        if list.last().path == path {
            assert(labels_at(list, path).drop_last() =~= labels_at(list.drop_last(), path));
            assert(list.last() == (Visit { path, label }) <==> list.last().label == label);
        }
    }
}

proof fn lemma_labels_concat(a: Seq<Visit>, b: Seq<Visit>, target: Name)
    ensures
        labels_at(a + b, target) == labels_at(a, target) + labels_at(b, target),
    decreases b.len(),
{
    if b.len() == 0 {
        assert(a + b =~= a);
        assert(labels_at(a, target) + labels_at(b, target) =~= labels_at(a, target));
    } else {
        lemma_labels_concat(a, b.drop_last(), target);
        assert((a + b).drop_last() =~= a + b.drop_last());
        assert(labels_at(a + b, target) =~= labels_at(a, target) + labels_at(b, target));
    }
}

proof fn lemma_labels_push(a: Seq<Visit>, visit: Visit, target: Name)
    ensures
        labels_at(a.push(visit), target) == (if visit.path == target {
            labels_at(a, target).push(visit.label)
        } else {
            labels_at(a, target)
        }),
{
    assert(a.push(visit).drop_last() =~= a);
}

/// What a walk of `room` levels through `v`, which stands at `at`, is to find at `target`.
spec fn expected(at: Seq<Step>, v: Json, room: nat, target: Seq<Step>) -> Seq<Json> {
    if target.len() > at.len() && target.len() - at.len() <= room && target.take(at.len() as int)
        == at {
        path::select(target.skip(at.len() as int), v)
    } else {
        Seq::empty()
    }
}

/// What the walk through one value at `at` is to find at `target`, the value included.
spec fn expected_here(at: Seq<Step>, v: Json, room: nat, target: Seq<Step>) -> Seq<Json> {
    (if at == target {
        seq![v]
    } else {
        Seq::empty()
    }) + expected(at, v, room, target)
}

/// Below the step `step` the walk is to find what the rest of `target` selects, where `step` is
/// the next one of it.
proof fn lemma_expected_here(
    at: Seq<Step>,
    step: Step,
    v: Json,
    room: nat,
    target: Seq<Step>,
)
    requires
        room > 0,
    ensures
        ({
            let k = at.len() as int;
            expected_here(at.push(step), v, (room - 1) as nat, target) == (if target.len() > k
                && target.len() - k <= room && target.take(k) == at && target[k] == step {
                path::select(target.skip(k + 1), v)
            } else {
                Seq::empty()
            })
        }),
{
    let k = at.len() as int;
    let next = at.push(step);
    if target.len() > k {
        assert(target.take(k + 1) =~= target.take(k).push(target[k]));
        if target.take(k + 1) == next {
            assert(target.take(k + 1).drop_last() =~= target.take(k));
            assert(next.drop_last() =~= at);
            assert(next.last() == step);
        }
        if target.len() == k + 1 {
            assert(target.take(k + 1) =~= target);
            assert(target.skip(k + 1) =~= Seq::empty());
        }
    }
    assert(expected_here(next, v, (room - 1) as nat, target) =~= (if target.len() > k
        && target.len() - k <= room && target.take(k) == at && target[k] == step {
        path::select(target.skip(k + 1), v)
    } else {
        Seq::empty()
    }));
}

proof fn lemma_member_last(members: Seq<(Name, Json)>, name: Name)
    requires
        members.len() > 0,
    ensures
        values::member(members, name) == (match values::member(members.drop_last(), name) {
            Some(v) => Some(v),
            None => if members.last().0 == name {
                Some(members.last().1)
            } else {
                None
            },
        }),
    decreases members.len(),
{
    reveal_with_fuel(values::member, 2);
    if members.len() > 1 {
        lemma_member_last(members.drop_first(), name);
        assert(members.drop_last().drop_first() =~= members.drop_first().drop_last());
    }
}

proof fn lemma_member_is_there(members: Seq<(Name, Json)>, name: Name)
    ensures
        values::member(members, name) is Some ==> exists|i: int|
            0 <= i < members.len() && (#[trigger] members[i]).0 == name,
    decreases members.len(),
{
    if members.len() > 0 {
        if members[0].0 != name && values::member(members, name) is Some {
            lemma_member_is_there(members.drop_first(), name);
            let i = choose|i: int|
                0 <= i < members.drop_first().len() && (#[trigger] members.drop_first()[i]).0
                    == name;
            assert(members[i + 1].0 == name);
        }
    }
}

/// What the walk through the members of an object at `at` is to find at `target`.
spec fn expected_members(
    at: Seq<Step>,
    members: Seq<(Name, Json)>,
    room: nat,
    target: Seq<Step>,
) -> Seq<Json> {
    let k = at.len() as int;
    if target.len() > k && target.len() - k <= room && target.take(k) == at {
        match target[k] {
            Step::Key(name) => match values::member(members, name) {
                Some(v) => path::select(target.skip(k + 1), v),
                None => Seq::empty(),
            },
            _ => Seq::empty(),
        }
    } else {
        Seq::empty()
    }
}

/// What the walk through the items of an array at `at` is to find at `target`.
spec fn expected_items(
    at: Seq<Step>,
    items: Seq<Json>,
    room: nat,
    target: Seq<Step>,
) -> Seq<Json> {
    let k = at.len() as int;
    if target.len() > k && target.len() - k <= room && target.take(k) == at && target[k] is Each {
        path::select_all(target.skip(k + 1), items)
    } else {
        Seq::empty()
    }
}

proof fn lemma_walk_finds(at: Seq<Step>, v: Json, room: nat, target: Seq<Step>)
    requires
        all_walked(at),
        all_walked(target),
        is_regular(v, room),
    ensures
        labels_at(model::visits(path_of(at), v, room), path_of(target)) == values::labels(
            expected(at, v, room, target),
        ),
    decreases room, 1nat, 0nat,
{
    let k = at.len() as int;
    if room > 0 {
        if target.len() > k {
            lemma_select_first(target.skip(k), v);
            assert(target.skip(k).drop_first() =~= target.skip(k + 1));
            assert(target.skip(k)[0] == target[k]);
            assert(is_walked(target[k]));
            path::lemma_select_none(target.skip(k + 1));
        }
        match v {
            Json::Object(members) => {
                lemma_members_find(at, members, room, target);
                if target.len() > k {
                    if let Step::Key(name) = target[k] {
                        if let Some(found) = values::member(members, name) {
                            path::lemma_select_one(target.skip(k + 1), found);
                        }
                    }
                }
            },
            Json::Array(items) => {
                lemma_items_find(at, items, room, target);
            },
            _ => {},
        }
    }
}

proof fn lemma_members_find(
    at: Seq<Step>,
    members: Seq<(Name, Json)>,
    room: nat,
    target: Seq<Step>,
)
    requires
        room > 0,
        all_walked(at),
        all_walked(target),
        is_regular(Json::Object(members), room),
    ensures
        labels_at(model::member_visits(path_of(at), members, room), path_of(target)) == values::labels(
            expected_members(at, members, room, target),
        ),
    decreases room, 0nat, members.len(),
{
    let k = at.len() as int;
    if members.len() > 0 {
        let init = members.drop_last();
        let name = members.last().0;
        let v = members.last().1;
        let step = Step::Key(name);
        let below = (room - 1) as nat;
        assert(members[members.len() - 1] == members.last());
        assert(are_named(init)) by {
            assert forall|i: int| 0 <= i < init.len() implies path::is_plain(
                (#[trigger] init[i]).0,
            ) by {
                assert(init[i] == members[i]);
            }
            assert forall|i: int, j: int| 0 <= i < j < init.len() implies (#[trigger] init[i]).0
                != (#[trigger] init[j]).0 by {
                assert(init[i] == members[i] && init[j] == members[j]);
            }
        }
        let all = members.map_values(|member: (Name, Json)| member.1);
        let held = init.map_values(|member: (Name, Json)| member.1);
        assert(all.drop_last() =~= held);
        assert(is_regular(all[all.len() - 1], below));
        assert forall|i: int| 0 <= i < held.len() implies is_regular(#[trigger] held[i], below) by {
            assert(held[i] == all[i]);
        }
        lemma_members_find(at, init, room, target);
        lemma_member_path(at, name);
        lemma_all_walked_push(at, step);
        lemma_walk_finds(at.push(step), v, below, target);
        lemma_texts_differ(at.push(step), target);
        lemma_expected_here(at, step, v, room, target);
        let visit = Visit { path: path_of(at.push(step)), label: values::type_label(v) };
        let done = model::member_visits(path_of(at), init, room);
        let inner = model::visits(path_of(at.push(step)), v, below);
        lemma_labels_push(done, visit, path_of(target));
        lemma_labels_concat(done.push(visit), inner, path_of(target));
        if target.len() > k {
            if let Step::Key(wanted) = target[k] {
                lemma_member_last(members, wanted);
                if wanted == name {
                    lemma_member_is_there(init, wanted);
                    assert(values::member(init, wanted) is None) by {
                        if values::member(init, wanted) is Some {
                            let i = choose|i: int|
                                0 <= i < init.len() && (#[trigger] init[i]).0 == wanted;
                            assert(members[i].0 != members[members.len() - 1].0);
                        }
                    }
                }
            }
        }
    }
}

proof fn lemma_items_find(at: Seq<Step>, items: Seq<Json>, room: nat, target: Seq<Step>)
    requires
        room > 0,
        all_walked(at),
        all_walked(target),
        is_regular(Json::Array(items), room),
    ensures
        labels_at(
            model::item_visits(model::item_path(path_of(at)), items, room),
            path_of(target),
        ) == values::labels(expected_items(at, items, room, target)),
    decreases room, 0nat, items.len(),
{
    let k = at.len() as int;
    if items.len() == 0 {
        if target.len() > k {
            assert(items =~= Seq::empty());
            path::lemma_select_none(target.skip(k + 1));
        }
    } else {
        let init = items.drop_last();
        let v = items.last();
        let below = (room - 1) as nat;
        let next = at.push(Step::Each);
        assert(are_regular(items, below));
        assert(items[items.len() - 1] == v);
        assert forall|i: int| 0 <= i < init.len() implies is_regular(#[trigger] init[i], below) by {
            assert(init[i] == items[i]);
        }
        lemma_items_find(at, init, room, target);
        lemma_item_path(at);
        lemma_all_walked_push(at, Step::Each);
        lemma_walk_finds(next, v, below, target);
        lemma_texts_differ(next, target);
        lemma_expected_here(at, Step::Each, v, room, target);
        let visit = Visit { path: path_of(next), label: values::type_label(v) };
        let done = model::item_visits(path_of(next), init, room);
        let inner = model::visits(path_of(next), v, below);
        lemma_labels_push(done, visit, path_of(target));
        lemma_labels_concat(done.push(visit), inner, path_of(target));
        if target.len() > k {
            let rest = target.skip(k + 1);
            path::lemma_select_concat(rest, init, seq![v]);
            path::lemma_select_one(rest, v);
            assert(init + seq![v] =~= items);
        }
    }
}

/// In a record whose members a path can name, a schema that goes deep enough finds at a path
/// exactly what the field path of the same text selects: as many values, of the same types, in
/// the same order.
pub proof fn law_schema_counts_what_paths_select(
    v: Json,
    depth: nat,
    steps: Seq<Step>,
    label: Name,
)
    requires
        is_regular(v, depth),
        all_walked(steps),
        1 <= steps.len() <= depth,
    ensures
        path::compile(path_of(steps)) == Ok::<Seq<Step>, PathFault>(steps),
        labels_at(laws::way(v, depth), path_of(steps)) == values::labels(path::select(steps, v)),
        laws::times(laws::way(v, depth), path_of(steps)) == path::select(steps, v).len(),
        laws::typed_times(laws::way(v, depth), path_of(steps), label) == tally::occurrences(
            values::labels(path::select(steps, v)),
            label,
        ),
{
    assert forall|i: int| 0 <= i < steps.len() implies path::is_expressible(
        #[trigger] steps[i],
    ) by {
        assert(is_walked(steps[i]));
    }
    path::law_written_path_compiles_back(steps);
    lemma_walk_finds(Seq::empty(), v, depth, steps);
    lemma_labels_at(laws::way(v, depth), path_of(steps), label);
    assert(path_of(Seq::empty()) =~= Seq::empty());
    assert(steps.take(0) =~= Seq::empty());
    assert(steps.skip(0) =~= steps);
}

// ---------------------------------------------------------------------------------------------
// Every path of a schema
// ---------------------------------------------------------------------------------------------

/// Whether `steps` lead to `path` from `at`, in no more than `room` steps.
spec fn leads_to(at: Seq<Step>, room: nat, path: Name, steps: Seq<Step>) -> bool {
    &&& all_walked(steps)
    &&& at.len() < steps.len() <= at.len() + room
    &&& path_of(steps) == path
}

/// What a walk comes by is where some steps lead to.
proof fn lemma_visit_steps(at: Seq<Step>, v: Json, room: nat, i: int) -> (steps: Seq<Step>)
    requires
        all_walked(at),
        is_regular(v, room),
        0 <= i < model::visits(path_of(at), v, room).len(),
    ensures
        leads_to(at, room, model::visits(path_of(at), v, room)[i].path, steps),
    decreases room, 1nat, 0nat,
{
    match v {
        Json::Object(members) => lemma_member_visit_steps(at, members, room, i),
        Json::Array(items) => {
            assert(is_regular(Json::Array(items), room));
            lemma_item_visit_steps(at, items, room, i)
        },
        _ => at,
    }
}

proof fn lemma_member_visit_steps(
    at: Seq<Step>,
    members: Seq<(Name, Json)>,
    room: nat,
    i: int,
) -> (steps: Seq<Step>)
    requires
        room > 0,
        all_walked(at),
        is_regular(Json::Object(members), room),
        0 <= i < model::member_visits(path_of(at), members, room).len(),
    ensures
        leads_to(at, room, model::member_visits(path_of(at), members, room)[i].path, steps),
    decreases room, 0nat, members.len(),
{
    let init = members.drop_last();
    let name = members.last().0;
    let v = members.last().1;
    let below = (room - 1) as nat;
    let next = at.push(Step::Key(name));
    let done = model::member_visits(path_of(at), init, room);
    let all = members.map_values(|member: (Name, Json)| member.1);
    let held = init.map_values(|member: (Name, Json)| member.1);
    assert(members[members.len() - 1] == members.last());
    assert(is_regular(all[all.len() - 1], below));
    assert forall|k: int| 0 <= k < held.len() implies is_regular(#[trigger] held[k], below) by {
        assert(held[k] == all[k]);
    }
    assert(are_named(init)) by {
        assert forall|k: int| 0 <= k < init.len() implies path::is_plain((#[trigger] init[k]).0) by {
            assert(init[k] == members[k]);
        }
        assert forall|k: int, j: int| 0 <= k < j < init.len() implies (#[trigger] init[k]).0
            != (#[trigger] init[j]).0 by {
            assert(init[k] == members[k] && init[j] == members[j]);
        }
    }
    lemma_member_path(at, name);
    lemma_all_walked_push(at, Step::Key(name));
    if i < done.len() {
        lemma_member_visit_steps(at, init, room, i)
    } else if i == done.len() {
        next
    } else {
        lemma_visit_steps(next, v, below, i - done.len() - 1)
    }
}

proof fn lemma_item_visit_steps(
    at: Seq<Step>,
    items: Seq<Json>,
    room: nat,
    i: int,
) -> (steps: Seq<Step>)
    requires
        room > 0,
        all_walked(at),
        is_regular(Json::Array(items), room),
        0 <= i < model::item_visits(model::item_path(path_of(at)), items, room).len(),
    ensures
        leads_to(
            at,
            room,
            model::item_visits(model::item_path(path_of(at)), items, room)[i].path,
            steps,
        ),
    decreases room, 0nat, items.len(),
{
    let init = items.drop_last();
    let v = items.last();
    let below = (room - 1) as nat;
    let next = at.push(Step::Each);
    assert(are_regular(items, below));
    assert(items[items.len() - 1] == v);
    assert forall|k: int| 0 <= k < init.len() implies is_regular(#[trigger] init[k], below) by {
        assert(init[k] == items[k]);
    }
    lemma_item_path(at);
    lemma_all_walked_push(at, Step::Each);
    let done = model::item_visits(path_of(next), init, room);
    if i < done.len() {
        lemma_item_visit_steps(at, init, room, i)
    } else if i == done.len() {
        next
    } else {
        lemma_visit_steps(next, v, below, i - done.len() - 1)
    }
}

proof fn lemma_come_by(list: Seq<Visit>, path: Name) -> (i: int)
    requires
        laws::times(list, path) > 0,
    ensures
        0 <= i < list.len(),
        list[i].path == path,
    decreases list.len(),
{
    if list.last().path == path {
        list.len() - 1
    } else {
        lemma_come_by(list.drop_last(), path)
    }
}

/// A path that occurs is where some steps lead to.
proof fn lemma_path_steps(records: Seq<Json>, depth: nat, path: Name) -> (steps: Seq<Step>)
    requires
        are_regular(records, depth),
        laws::occurrences(records, depth, path) > 0,
    ensures
        leads_to(Seq::empty(), depth, path, steps),
    decreases records.len(),
{
    let init = records.drop_last();
    let v = records[records.len() - 1];
    assert(is_regular(v, depth));
    if laws::times(laws::way(v, depth), path) > 0 {
        let i = lemma_come_by(laws::way(v, depth), path);
        assert(path_of(Seq::empty()) =~= Seq::empty());
        lemma_visit_steps(Seq::empty(), v, depth, i)
    } else {
        assert forall|k: int| 0 <= k < init.len() implies is_regular(#[trigger] init[k], depth) by {
            assert(init[k] == records[k]);
        }
        lemma_path_steps(init, depth, path)
    }
}

/// The counts at a path are those of what its steps select.
proof fn lemma_records_agree(
    records: Seq<Json>,
    depth: nat,
    path: PathModel,
    label: Name,
)
    requires
        are_regular(records, depth),
        leads_to(Seq::empty(), depth, path.source, path.steps),
    ensures
        laws::occurrences(records, depth, path.source) == stats::laws::selected(records, path).len(),
        laws::documents(records, depth, path.source) == stats::laws::matched(records, path),
        laws::typed_occurrences(records, depth, path.source, label) == tally::occurrences(
            values::labels(stats::laws::selected(records, path)),
            label,
        ),
    decreases records.len(),
{
    if records.len() == 0 {
        assert(values::labels(stats::laws::selected(records, path)) =~= Seq::empty());
    } else {
        let init = records.drop_last();
        let v = records[records.len() - 1];
        let now = path::select(path.steps, v);
        let before = stats::laws::selected(init, path);
        assert(is_regular(v, depth));
        assert forall|k: int| 0 <= k < init.len() implies is_regular(#[trigger] init[k], depth) by {
            assert(init[k] == records[k]);
        }
        lemma_records_agree(init, depth, path, label);
        law_schema_counts_what_paths_select(v, depth, path.steps, label);
        assert(values::labels(before + now) =~= values::labels(before) + values::labels(now));
        tally::lemma_occurrences_concat(values::labels(before), values::labels(now), label);
    }
}

/// In records whose members a path can name, every path of a schema is the text of a field path,
/// and the schema says of it what the field path selects: in how many records it selects
/// anything, how many values, and how many of each type. It selects at least one.
pub proof fn law_every_path_of_a_schema_selects(
    options: LimitsModel,
    records: Seq<Json>,
    path: Name,
    label: Name,
)
    requires
        are_regular(records, options.max_depth),
    ensures
        ({
            let m = model::observed_all(model::fresh(options), records);
            table::lookup(m.paths, path) matches Some(stat) ==> {
                &&& path::compile(path) matches Ok(steps)
                &&& {
                    let field = PathModel { source: path, steps };
                    let found = stats::laws::selected(records, field);
                    &&& stat.occurrences == found.len()
                    &&& stat.occurrences >= 1
                    &&& stat.documents == stats::laws::matched(records, field)
                    &&& tally::count_of(stat.types, label) == tally::occurrences(
                        values::labels(found),
                        label,
                    )
                }
            }
        }),
{
    let m = model::observed_all(model::fresh(options), records);
    let depth = options.max_depth;
    laws::law_tracked_paths_are_exact(options, records, path, label);
    laws::lemma_tracked_occurs(options, records, path);
    if table::lookup(m.paths, path) is Some {
        let steps = lemma_path_steps(records, depth, path);
        assert forall|i: int| 0 <= i < steps.len() implies path::is_expressible(
            #[trigger] steps[i],
        ) by {
            assert(is_walked(steps[i]));
        }
        path::law_written_path_compiles_back(steps);
        lemma_records_agree(records, depth, PathModel { source: path, steps }, label);
    }
}

/// After one record whose members a path can name, every path of a schema is the text of a field
/// path, is in one document, and has the values of that record that the field path selects, one
/// at least: as many, and as many of each type.
pub proof fn law_every_path_of_one_record_selects(options: LimitsModel, v: Json, i: int)
    requires
        is_regular(v, options.max_depth),
        0 <= i < model::observed(model::fresh(options), v).paths.len(),
    ensures
        ({
            let (path, stat) = model::observed(model::fresh(options), v).paths[i];
            &&& path::compile(path) matches Ok(steps)
            &&& {
                let found = path::select(steps, v);
                &&& stat.occurrences == found.len()
                &&& stat.occurrences >= 1
                &&& stat.documents == 1
                &&& forall|label: Name| #[trigger]
                    tally::count_of(stat.types, label) == tally::occurrences(
                        values::labels(found),
                        label,
                    )
            }
        }),
{
    let records = seq![v];
    let m = model::observed_all(model::fresh(options), records);
    let (path, stat) = m.paths[i];
    reveal_with_fuel(model::observed_all, 2);
    reveal_with_fuel(stats::laws::selected, 2);
    reveal_with_fuel(stats::laws::matched, 2);
    assert(records.drop_last() =~= Seq::empty());
    assert(m == model::observed(model::fresh(options), v));
    laws::law_counts_add_up(options, records);
    table::lemma_hit(m.paths, path, stat, i);
    law_every_path_of_a_schema_selects(options, records, path, path);
    let steps = path::compile(path)->Ok_0;
    let field = PathModel { source: path, steps };
    assert(stats::laws::selected(records, field) =~= path::select(steps, v));
    assert forall|label: Name| #[trigger]
        tally::count_of(stat.types, label) == tally::occurrences(
            values::labels(path::select(steps, v)),
            label,
        ) by {
        law_every_path_of_a_schema_selects(options, records, path, label);
    }
}

} // verus!

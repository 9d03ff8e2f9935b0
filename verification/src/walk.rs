//! The paths that a walk over records visits, and the table of them.

use vstd::prelude::*;

use crate::json;
use crate::json::Json;
use crate::table;
use crate::table::Entry;

verus! {

/// Path table cap: past this many distinct paths, further ones are dropped
/// instead of growing the table without bound.
pub const MAX_PATHS: usize = 2_000;

/// The path of an object member.
pub open spec fn member_path(prefix: Seq<char>, key: Seq<char>) -> Seq<char> {
    if prefix.len() == 0 {
        key
    } else {
        prefix + "."@ + key
    }
}

/// The path of the elements of an array.
pub open spec fn element_path(prefix: Seq<char>) -> Seq<char> {
    prefix + "[]"@
}

/// The values that a walk visits inside the value at `prefix`, each as its
/// path and type, going `budget` levels down. An object member is one level
/// down, and so is an array element.
pub open spec fn visit(json: Json, prefix: Seq<char>, budget: nat) -> Seq<(Seq<char>, Seq<char>)>
    decreases json,
{
    if budget == 0 {
        Seq::empty()
    } else {
        match json {
            Json::Object(members) => visit_members(members, prefix, (budget - 1) as nat),
            Json::Array(items) => visit_items(
                items,
                element_path(prefix),
                (budget - 1) as nat,
            ),
            _ => Seq::empty(),
        }
    }
}

/// The values that a walk visits in the members of the object at `prefix`:
/// each member, and then what is up to `left` levels inside it.
pub open spec fn visit_members(
    members: Seq<(Seq<char>, Json)>,
    prefix: Seq<char>,
    left: nat,
) -> Seq<(Seq<char>, Seq<char>)>
    decreases members,
{
    if members.len() == 0 {
        Seq::empty()
    } else {
        let (key, value) = members.last();
        let path = member_path(prefix, key);
        visit_members(members.drop_last(), prefix, left).push((path, json::type_of(value)))
            + visit(value, path, left)
    }
}

/// The values that a walk visits in the elements of an array, whose path is
/// `path`: each element, and then what is up to `left` levels inside it.
pub open spec fn visit_items(
    items: Seq<Json>,
    path: Seq<char>,
    left: nat,
) -> Seq<(Seq<char>, Seq<char>)>
    decreases items,
{
    if items.len() == 0 {
        Seq::empty()
    } else {
        visit_items(items.drop_last(), path, left).push((path, json::type_of(items.last())))
            + visit(items.last(), path, left)
    }
}

/// The values that a walk visits in one record.
pub open spec fn record_visits(record: Json, depth: nat) -> Seq<(Seq<char>, Seq<char>)> {
    visit(record, Seq::empty(), depth)
}

/// The values that a walk visits in all records, in order.
pub open spec fn visits(records: Seq<Json>, depth: nat) -> Seq<(Seq<char>, Seq<char>)>
    decreases records.len(),
{
    if records.len() == 0 {
        Seq::empty()
    } else {
        visits(records.drop_last(), depth) + record_visits(records.last(), depth)
    }
}

/// Whether a record has a value at a path.
pub open spec fn has_path(record: Json, depth: nat, path: Seq<char>) -> bool {
    table::names_of(record_visits(record, depth)).contains(path)
}

/// How many records have a value at a path.
pub open spec fn holders(records: Seq<Json>, depth: nat, path: Seq<char>) -> nat
    decreases records.len(),
{
    if records.len() == 0 {
        0
    } else {
        holders(records.drop_last(), depth, path) + (if has_path(records.last(), depth, path) {
            1nat
        } else {
            0nat
        })
    }
}

/// The 1-based number of the last record that has a value at a path, or zero.
pub open spec fn latest_holder(records: Seq<Json>, depth: nat, path: Seq<char>) -> nat
    decreases records.len(),
{
    if records.len() == 0 {
        0
    } else if has_path(records.last(), depth, path) {
        records.len()
    } else {
        latest_holder(records.drop_last(), depth, path)
    }
}

/// One line of a path table.
#[verifier::ext_equal]
pub struct PathEntry {
    pub path: Seq<char>,
    /// Number of records that have a value there.
    pub present: nat,
    /// Number of values there.
    pub count: nat,
    /// Types of the values, in first-seen order.
    pub types: Seq<(Seq<char>, nat)>,
    /// The 1-based number of the last record that has a value there.
    pub latest: nat,
}

/// The line for one path.
pub open spec fn path_entry(records: Seq<Json>, depth: nat, path: Seq<char>) -> PathEntry {
    let seen = visits(records, depth);
    PathEntry {
        path,
        present: holders(records, depth, path),
        count: table::occurrences(table::names_of(seen), path),
        types: table::tally(table::types_under(seen, path)),
        latest: latest_holder(records, depth, path),
    }
}

/// The path table of records: the paths seen first, in first-seen order.
pub open spec fn path_table(records: Seq<Json>, depth: nat) -> Seq<PathEntry> {
    table::kept(table::names_of(visits(records, depth)), MAX_PATHS as nat).map_values(
        |path: Seq<char>| path_entry(records, depth, path),
    )
}

/// Whether records have more paths than the path table keeps.
pub open spec fn paths_overflow(records: Seq<Json>, depth: nat) -> bool {
    table::overflows(table::names_of(visits(records, depth)), MAX_PATHS as nat)
}

/// A path table without what it says of records.
pub open spec fn entries(paths: Seq<PathEntry>) -> Seq<Entry> {
    paths.map_values(|p: PathEntry| Entry { name: p.path, count: p.count, types: p.types })
}

/// The paths of a path table.
pub open spec fn path_names(paths: Seq<PathEntry>) -> Seq<Seq<char>> {
    paths.map_values(|p: PathEntry| p.path)
}

/// A path table after one more value at `path` in the record numbered
/// `record`.
pub open spec fn see(
    paths: Seq<PathEntry>,
    path: Seq<char>,
    kind: Seq<char>,
    record: nat,
) -> Seq<PathEntry> {
    let at = table::slot(path_names(paths), path);
    if at < paths.len() {
        let p = paths[at];
        paths.update(
            at,
            (PathEntry {
                path: p.path,
                present: if p.latest == record {
                    p.present
                } else {
                    p.present + 1
                },
                count: p.count + 1,
                types: table::bump(p.types, kind),
                latest: record,
            }),
        )
    } else if paths.len() < MAX_PATHS {
        paths.push(
            (PathEntry {
                path,
                present: 1,
                count: 1,
                types: table::bump(Seq::empty(), kind),
                latest: record,
            }),
        )
    } else {
        paths
    }
}

/// Whether one more value at `path` finds a full table.
pub open spec fn missed(paths: Seq<PathEntry>, path: Seq<char>) -> bool {
    !path_names(paths).contains(path) && paths.len() >= MAX_PATHS
}

/// A path table after several more values of the record numbered `record`.
pub open spec fn see_all(
    paths: Seq<PathEntry>,
    more: Seq<(Seq<char>, Seq<char>)>,
    record: nat,
) -> Seq<PathEntry>
    decreases more.len(),
{
    if more.len() == 0 {
        paths
    } else {
        see(see_all(paths, more.drop_last(), record), more.last().0, more.last().1, record)
    }
}

/// Whether several more values find a full table.
pub open spec fn any_missed(
    paths: Seq<PathEntry>,
    more: Seq<(Seq<char>, Seq<char>)>,
    record: nat,
) -> bool
    decreases more.len(),
{
    if more.len() == 0 {
        false
    } else {
        any_missed(paths, more.drop_last(), record) || missed(
            see_all(paths, more.drop_last(), record),
            more.last().0,
        )
    }
}

/// Values that are seen in two portions are seen one after the other.
pub proof fn lemma_see_all_concat(
    paths: Seq<PathEntry>,
    a: Seq<(Seq<char>, Seq<char>)>,
    b: Seq<(Seq<char>, Seq<char>)>,
    record: nat,
)
    ensures
        see_all(paths, a + b, record) == see_all(see_all(paths, a, record), b, record),
        any_missed(paths, a + b, record) <==> any_missed(paths, a, record) || any_missed(
            see_all(paths, a, record),
            b,
            record,
        ),
    decreases b.len(),
{
    if b.len() == 0 {
        assert(a + b =~= a);
    } else {
        assert((a + b).drop_last() =~= a + b.drop_last());
        lemma_see_all_concat(paths, a, b.drop_last(), record);
    }
}

/// A path that was never visited has no holders.
proof fn lemma_no_holders(records: Seq<Json>, depth: nat, path: Seq<char>)
    requires
        !table::names_of(visits(records, depth)).contains(path),
    ensures
        holders(records, depth, path) == 0,
    decreases records.len(),
{
    if records.len() > 0 {
        let init = records.drop_last();
        let before = visits(init, depth);
        let last = record_visits(records.last(), depth);
        let all = table::names_of(before + last);
        if table::names_of(before).contains(path) {
            let i = choose|i: int|
                0 <= i < before.len() && table::names_of(before)[i] == path;
            assert(all[i] == path);
        }
        if table::names_of(last).contains(path) {
            let i = choose|i: int| 0 <= i < last.len() && table::names_of(last)[i] == path;
            assert(all[before.len() + i] == path);
        }
        lemma_no_holders(init, depth, path);
    }
}

/// The last holder of a path is one of the records.
proof fn lemma_latest_holder(records: Seq<Json>, depth: nat, path: Seq<char>)
    ensures
        latest_holder(records, depth, path) <= records.len(),
        holders(records, depth, path) <= records.len(),
    decreases records.len(),
{
    if records.len() > 0 {
        lemma_latest_holder(records.drop_last(), depth, path);
    }
}

/// The line for one path in the middle of a record: `part` of its values have
/// been seen.
spec fn partial_entry(
    records: Seq<Json>,
    depth: nat,
    part: Seq<(Seq<char>, Seq<char>)>,
    path: Seq<char>,
) -> PathEntry {
    let seen = visits(records, depth) + part;
    let here = table::names_of(part).contains(path);
    PathEntry {
        path,
        present: holders(records, depth, path) + (if here {
            1nat
        } else {
            0nat
        }),
        count: table::occurrences(table::names_of(seen), path),
        types: table::tally(table::types_under(seen, path)),
        latest: if here {
            records.len() + 1
        } else {
            latest_holder(records, depth, path)
        },
    }
}

spec fn partial_table(
    records: Seq<Json>,
    depth: nat,
    part: Seq<(Seq<char>, Seq<char>)>,
) -> Seq<PathEntry> {
    table::kept(
        table::names_of(visits(records, depth) + part),
        MAX_PATHS as nat,
    ).map_values(|path: Seq<char>| partial_entry(records, depth, part, path))
}

proof fn lemma_partial_push(
    records: Seq<Json>,
    depth: nat,
    part: Seq<(Seq<char>, Seq<char>)>,
    path: Seq<char>,
    kind: Seq<char>,
)
    ensures
        partial_table(records, depth, part.push((path, kind))) == see(
            partial_table(records, depth, part),
            path,
            kind,
            records.len() + 1,
        ),
        table::overflows(
            table::names_of(visits(records, depth) + part.push((path, kind))),
            MAX_PATHS as nat,
        ) <==> table::overflows(
            table::names_of(visits(records, depth) + part),
            MAX_PATHS as nat,
        ) || missed(partial_table(records, depth, part), path),
{
    let cap = MAX_PATHS as nat;
    let n = records.len() + 1;
    let before = visits(records, depth);
    let seen = before + part;
    let more = part.push((path, kind));
    let t = partial_table(records, depth, part);
    let after = partial_table(records, depth, more);
    let stepped = see(t, path, kind, n);
    let names = path_names(t);
    assert(before + more =~= seen.push((path, kind)));
    table::lemma_table_push(seen, cap, path, kind);
    assert(entries(t) =~= table::table(seen, cap));
    assert(entries(after) =~= table::table(before + more, cap));
    assert(table::entry_names(table::table(seen, cap)) =~= names);
    table::lemma_slot(names, path);
    let at = table::slot(names, path);
    assert(entries(stepped) =~= table::enter(entries(t), cap, path, kind)) by {
        assert(table::entry_names(entries(t)) =~= names);
    }
    assert(after.len() == stepped.len()) by {
        assert(entries(after).len() == entries(stepped).len());
    }
    assert forall|i: int| 0 <= i < after.len() implies after[i] == stepped[i] by {
        assert(entries(after)[i] == entries(stepped)[i]);
        let p = after[i].path;
        assert(stepped[i].path == p);
        lemma_contains_push(part, path, kind, p);
        lemma_latest_holder(records, depth, p);
        if i < t.len() {
            assert(names[i] == p);
            assert(t[i] == partial_entry(records, depth, part, p));
            if i == at {
                assert(p == path);
            } else {
                if p == path {
                    table::lemma_distinct(table::names_of(seen));
                    assert(names =~= table::kept(table::names_of(seen), cap));
                    assert(names[at] == names[i]);
                }
            }
        } else {
            assert(p == path);
            lemma_unseen(before, part, path);
            assert(!table::names_of(seen).contains(path)) by {
                let d = table::distinct(table::names_of(seen));
                table::lemma_distinct(table::names_of(seen));
                assert(names =~= table::kept(table::names_of(seen), cap));
                assert(names.len() < cap);
                assert(names =~= d);
            }
            lemma_no_holders(records, depth, path);
        }
    }
    assert(after =~= stepped);
}

proof fn lemma_unseen(
    before: Seq<(Seq<char>, Seq<char>)>,
    part: Seq<(Seq<char>, Seq<char>)>,
    path: Seq<char>,
)
    ensures
        !table::names_of(before + part).contains(path) ==> !table::names_of(before).contains(path),
{
    if table::names_of(before).contains(path) {
        let i = choose|i: int| 0 <= i < before.len() && table::names_of(before)[i] == path;
        assert(table::names_of(before + part)[i] == path);
    }
}

proof fn lemma_contains_push(
    part: Seq<(Seq<char>, Seq<char>)>,
    path: Seq<char>,
    kind: Seq<char>,
    other: Seq<char>,
)
    ensures
        table::names_of(part.push((path, kind))).contains(other) <==> table::names_of(
            part,
        ).contains(other) || other == path,
{
    let names = table::names_of(part);
    let more = table::names_of(part.push((path, kind)));
    assert(more =~= names.push(path));
    if names.contains(other) {
        let i = choose|i: int| 0 <= i < names.len() && names[i] == other;
        assert(more[i] == other);
    }
    assert(more[names.len() as int] == path);
}

proof fn lemma_partial_all(
    records: Seq<Json>,
    depth: nat,
    part: Seq<(Seq<char>, Seq<char>)>,
)
    ensures
        partial_table(records, depth, part) == see_all(
            path_table(records, depth),
            part,
            records.len() + 1,
        ),
        table::overflows(table::names_of(visits(records, depth) + part), MAX_PATHS as nat)
            <==> paths_overflow(records, depth) || any_missed(
            path_table(records, depth),
            part,
            records.len() + 1,
        ),
    decreases part.len(),
{
    let before = visits(records, depth);
    if part.len() == 0 {
        assert(before + part =~= before);
        assert(partial_table(records, depth, part) =~= path_table(records, depth));
    } else {
        let init = part.drop_last();
        lemma_partial_all(records, depth, init);
        lemma_partial_push(records, depth, init, part.last().0, part.last().1);
        assert(part =~= init.push((part.last().0, part.last().1)));
    }
}

/// One more record enters the path table.
pub proof fn lemma_path_table_push(records: Seq<Json>, depth: nat, record: Json)
    ensures
        path_table(records.push(record), depth) == see_all(
            path_table(records, depth),
            record_visits(record, depth),
            records.len() + 1,
        ),
        paths_overflow(records.push(record), depth) <==> paths_overflow(records, depth)
            || any_missed(
            path_table(records, depth),
            record_visits(record, depth),
            records.len() + 1,
        ),
{
    let all = records.push(record);
    let part = record_visits(record, depth);
    assert(all.drop_last() =~= records);
    lemma_partial_all(records, depth, part);
    assert(path_table(all, depth) =~= partial_table(records, depth, part));
}

/// Whether no counter of a path table exceeds `n`.
pub open spec fn paths_within(paths: Seq<PathEntry>, n: int) -> bool {
    forall|i: int|
        0 <= i < paths.len() ==> (#[trigger] paths[i]).present <= n && paths[i].count <= n
            && table::tally_within(paths[i].types, n)
}

/// A bound on counters can be raised.
pub proof fn lemma_paths_widen(paths: Seq<PathEntry>, n: int, m: int)
    requires
        paths_within(paths, n),
        n <= m,
    ensures
        paths_within(paths, m),
{
    assert forall|i: int| 0 <= i < paths.len() implies (#[trigger] paths[i]).present <= m
        && paths[i].count <= m && table::tally_within(paths[i].types, m) by {
        assert(paths[i].present <= n && table::tally_within(paths[i].types, n));
    }
}

/// One more value raises counters by no more than one, and no path is entered
/// twice.
pub proof fn lemma_see_within(
    paths: Seq<PathEntry>,
    path: Seq<char>,
    kind: Seq<char>,
    record: nat,
    n: int,
)
    requires
        paths_within(paths, n),
        n >= 0,
    ensures
        paths_within(see(paths, path, kind, record), n + 1),
        path_names(paths).no_duplicates() ==> path_names(
            see(paths, path, kind, record),
        ).no_duplicates(),
{
    let names = path_names(paths);
    table::lemma_slot(names, path);
    let at = table::slot(names, path);
    let after = see(paths, path, kind, record);
    if at < paths.len() {
        assert(table::tally_within(paths[at].types, n));
        table::lemma_bump_within(paths[at].types, kind, n);
        assert(path_names(after) =~= names);
    } else {
        table::lemma_bump_within(Seq::empty(), kind, n);
        if paths.len() < MAX_PATHS {
            assert(path_names(after) =~= names.push(path));
        }
    }
    assert forall|i: int| 0 <= i < after.len() implies (#[trigger] after[i]).present <= n + 1
        && after[i].count <= n + 1 && table::tally_within(after[i].types, n + 1) by {
        if i < paths.len() {
            assert(paths[i].present <= n && table::tally_within(paths[i].types, n));
        }
    }
}

/// More values raise counters by no more than their number, and no path is
/// entered twice.
pub proof fn lemma_see_all_within(
    paths: Seq<PathEntry>,
    more: Seq<(Seq<char>, Seq<char>)>,
    record: nat,
    n: int,
)
    requires
        paths_within(paths, n),
        n >= 0,
    ensures
        paths_within(see_all(paths, more, record), n + more.len()),
        path_names(paths).no_duplicates() ==> path_names(
            see_all(paths, more, record),
        ).no_duplicates(),
    decreases more.len(),
{
    if more.len() > 0 {
        let init = more.drop_last();
        lemma_see_all_within(paths, init, record, n);
        lemma_see_within(
            see_all(paths, init, record),
            more.last().0,
            more.last().1,
            record,
            n + init.len(),
        );
    }
}

/// A walk visits fewer values than there are.
pub proof fn lemma_visit_len(json: Json, prefix: Seq<char>, budget: nat)
    ensures
        visit(json, prefix, budget).len() < json::nodes(json),
    decreases json,
{
    if budget > 0 {
        match json {
            Json::Object(members) => {
                lemma_visit_members_len(members, prefix, (budget - 1) as nat);
            },
            Json::Array(items) => {
                lemma_visit_items_len(items, element_path(prefix), (budget - 1) as nat);
            },
            _ => {},
        }
    }
}

proof fn lemma_visit_members_len(
    members: Seq<(Seq<char>, Json)>,
    prefix: Seq<char>,
    left: nat,
)
    ensures
        visit_members(members, prefix, left).len() <= json::member_nodes(members),
    decreases members,
{
    if members.len() > 0 {
        let (key, value) = members.last();
        lemma_visit_members_len(members.drop_last(), prefix, left);
        lemma_visit_len(value, member_path(prefix, key), left);
    }
}

proof fn lemma_visit_items_len(items: Seq<Json>, path: Seq<char>, left: nat)
    ensures
        visit_items(items, path, left).len() <= json::item_nodes(items),
    decreases items,
{
    if items.len() > 0 {
        lemma_visit_items_len(items.drop_last(), path, left);
        lemma_visit_len(items.last(), path, left);
    }
}

proof fn lemma_visit_members_concat(
    a: Seq<(Seq<char>, Json)>,
    b: Seq<(Seq<char>, Json)>,
    prefix: Seq<char>,
    left: nat,
)
    ensures
        visit_members(a + b, prefix, left) == visit_members(a, prefix, left) + visit_members(
            b,
            prefix,
            left,
        ),
    decreases b.len(),
{
    let whole = visit_members(a + b, prefix, left);
    let first = visit_members(a, prefix, left);
    let second = visit_members(b, prefix, left);
    if b.len() == 0 {
        assert(a + b =~= a);
        assert(whole =~= first + second);
    } else {
        assert((a + b).drop_last() =~= a + b.drop_last());
        lemma_visit_members_concat(a, b.drop_last(), prefix, left);
        assert(whole =~= first + second);
    }
}

proof fn lemma_visit_items_concat(a: Seq<Json>, b: Seq<Json>, path: Seq<char>, left: nat)
    ensures
        visit_items(a + b, path, left) == visit_items(a, path, left) + visit_items(b, path, left),
    decreases b.len(),
{
    let whole = visit_items(a + b, path, left);
    let first = visit_items(a, path, left);
    let second = visit_items(b, path, left);
    if b.len() == 0 {
        assert(a + b =~= a);
        assert(whole =~= first + second);
    } else {
        assert((a + b).drop_last() =~= a + b.drop_last());
        lemma_visit_items_concat(a, b.drop_last(), path, left);
        assert(whole =~= first + second);
    }
}

/// A walk visits the members of an object one after the other, each under its
/// key, which follows what is before it after a dot, and right behind it what is
/// inside it, one level less deep.
pub proof fn law_walk_goes_member_by_member(
    a: Seq<(Seq<char>, Json)>,
    b: Seq<(Seq<char>, Json)>,
    key: Seq<char>,
    value: Json,
    prefix: Seq<char>,
    left: nat,
)
    ensures
        visit(Json::Object(a + b), prefix, left + 1) == visit(Json::Object(a), prefix, left + 1)
            + visit(Json::Object(b), prefix, left + 1),
        ({
            let path = if prefix.len() == 0 {
                key
            } else {
                prefix + seq!['.'] + key
            };
            visit(Json::Object(seq![(key, value)]), prefix, left + 1) == seq![
                (path, json::type_of(value)),
            ] + visit(value, path, left)
        }),
        visit(Json::Object(Seq::empty()), prefix, left).len() == 0,
{
    lemma_visit_members_concat(a, b, prefix, left);
    reveal_strlit(".");
    assert("."@ =~= seq!['.']);
    let one = seq![(key, value)];
    assert(one.drop_last() =~= Seq::empty());
    assert(visit_members(one.drop_last(), prefix, left) =~= Seq::empty());
    let path = member_path(prefix, key);
    assert(visit_members(one, prefix, left) =~= seq![(path, json::type_of(value))] + visit(
        value,
        path,
        left,
    ));
}

/// A walk visits the elements of an array one after the other, all under the
/// path of the array and a pair of brackets, and right behind each what is inside
/// it, one level less deep.
pub proof fn law_walk_goes_element_by_element(
    a: Seq<Json>,
    b: Seq<Json>,
    value: Json,
    prefix: Seq<char>,
    left: nat,
)
    ensures
        visit(Json::Array(a + b), prefix, left + 1) == visit(Json::Array(a), prefix, left + 1)
            + visit(Json::Array(b), prefix, left + 1),
        visit(Json::Array(seq![value]), prefix, left + 1) == seq![
            (prefix + seq!['[', ']'], json::type_of(value)),
        ] + visit(value, prefix + seq!['[', ']'], left),
        visit(Json::Array(Seq::empty()), prefix, left).len() == 0,
{
    reveal_strlit("[]");
    assert("[]"@ =~= seq!['[', ']']);
    let path = element_path(prefix);
    lemma_visit_items_concat(a, b, path, left);
    let one = seq![value];
    assert(one.drop_last() =~= Seq::empty());
    assert(visit_items(one.drop_last(), path, left) =~= Seq::empty());
    assert(visit_items(one, path, left) =~= seq![(path, json::type_of(value))] + visit(
        value,
        path,
        left,
    ));
}

/// A walk of no levels visits nothing, nor does one into a value that is
/// neither an object nor an array.
pub proof fn law_walk_ends_at_its_depth_and_at_scalars(value: Json, prefix: Seq<char>, depth: nat)
    ensures
        visit(value, prefix, 0).len() == 0,
        !(value is Object) && !(value is Array) ==> visit(value, prefix, depth).len() == 0,
{
}

/// Whether values nest no more than `depth` levels deep.
pub open spec fn within(value: Json, depth: nat) -> bool
    decreases value,
{
    match value {
        Json::Array(items) => items.len() > 0 ==> depth > 0 && forall|i: int|
            0 <= i < items.len() ==> within(#[trigger] items[i], (depth - 1) as nat),
        Json::Object(members) => members.len() > 0 ==> depth > 0 && forall|i: int|
            0 <= i < members.len() ==> within((#[trigger] members[i]).1, (depth - 1) as nat),
        _ => true,
    }
}

/// A walk that is deep enough visits every value inside a record once, however
/// often a key is repeated.
pub proof fn law_deep_walk_visits_every_value(value: Json, prefix: Seq<char>, depth: nat)
    requires
        within(value, depth),
    ensures
        visit(value, prefix, depth).len() == json::nodes(value) - 1,
    decreases value,
{
    match value {
        Json::Array(items) => {
            if items.len() > 0 {
                assert forall|i: int| 0 <= i < items.len() implies within(
                    #[trigger] items[i],
                    (depth - 1) as nat,
                ) by {
                    let whole = Json::Array(items);
                    assert(within(whole, depth) && whole->Array_0 == items);
                }
                lemma_visits_items(items, element_path(prefix), (depth - 1) as nat);
            }
        },
        Json::Object(members) => {
            if members.len() > 0 {
                assert forall|i: int| 0 <= i < members.len() implies within(
                    (#[trigger] members[i]).1,
                    (depth - 1) as nat,
                ) by {
                    let whole = Json::Object(members);
                    assert(within(whole, depth) && whole->Object_0 == members);
                }
                lemma_visits_members(members, prefix, (depth - 1) as nat);
            }
        },
        _ => {},
    }
}

proof fn lemma_visits_items(items: Seq<Json>, path: Seq<char>, left: nat)
    requires
        forall|i: int| 0 <= i < items.len() ==> within(#[trigger] items[i], left),
    ensures
        visit_items(items, path, left).len() == json::item_nodes(items),
    decreases items,
{
    if items.len() > 0 {
        let init = items.drop_last();
        assert forall|i: int| 0 <= i < init.len() implies within(#[trigger] init[i], left) by {
            assert(init[i] == items[i]);
        }
        lemma_visits_items(init, path, left);
        assert(within(items[items.len() - 1], left));
        law_deep_walk_visits_every_value(items.last(), path, left);
    }
}

proof fn lemma_visits_members(members: Seq<(Seq<char>, Json)>, prefix: Seq<char>, left: nat)
    requires
        forall|i: int| 0 <= i < members.len() ==> within((#[trigger] members[i]).1, left),
    ensures
        visit_members(members, prefix, left).len() == json::member_nodes(members),
    decreases members,
{
    if members.len() > 0 {
        let init = members.drop_last();
        assert forall|i: int| 0 <= i < init.len() implies within(
            (#[trigger] init[i]).1,
            left,
        ) by {
            assert(init[i] == members[i]);
        }
        lemma_visits_members(init, prefix, left);
        assert(within(members[members.len() - 1].1, left));
        law_deep_walk_visits_every_value(
            members.last().1,
            member_path(prefix, members.last().0),
            left,
        );
    }
}

} // verus!

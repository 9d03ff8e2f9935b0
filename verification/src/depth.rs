//! What the depth of a walk changes: a deeper walk keeps what a shallower one
//! finds and adds what lies deeper.

use vstd::prelude::*;

use crate::agreement;
use crate::json;
use crate::json::Json;
use crate::laws;
use crate::path::Step;
use crate::schema;
use crate::spelling;
use crate::summary;
use crate::table;
use crate::walk;
use crate::walk::PathEntry;
use crate::walk::MAX_PATHS;

verus! {

/// How many levels the character at `i` of a path opens: a bracket opens one,
/// and so does the first character of a key.
pub open spec fn opened(path: Seq<char>, i: int) -> nat {
    if path[i] == '[' || i == 0 || path[i - 1] == '.' {
        1
    } else {
        0
    }
}

/// How many levels a path has: its keys and its fan-outs.
pub open spec fn levels(path: Seq<char>) -> nat
    decreases path.len(),
{
    if path.len() == 0 {
        0
    } else {
        levels(path.drop_last()) + opened(path, path.len() - 1)
    }
}

/// Whether the levels of a path that holds this key can be told: it is not
/// empty, and holds neither a dot nor an opening bracket.
pub open spec fn is_plain_key(key: Seq<char>) -> bool {
    &&& key.len() > 0
    &&& forall|i: int| 0 <= i < key.len() ==> (#[trigger] key[i]) != '.' && key[i] != '['
}

/// Whether all object keys inside a value are plain.
pub open spec fn has_plain_keys(json: Json) -> bool
    decreases json,
{
    match json {
        Json::Array(items) => forall|i: int|
            0 <= i < items.len() ==> has_plain_keys(#[trigger] items[i]),
        Json::Object(members) => forall|i: int|
            0 <= i < members.len() ==> is_plain_key((#[trigger] members[i]).0) && has_plain_keys(
                members[i].1,
            ),
        _ => true,
    }
}

/// Whether all object keys inside records are plain.
pub open spec fn all_plain_keys(records: Seq<Json>) -> bool {
    forall|i: int| 0 <= i < records.len() ==> has_plain_keys(#[trigger] records[i])
}

spec fn plain_members(members: Seq<(Seq<char>, Json)>) -> bool {
    forall|i: int|
        0 <= i < members.len() ==> is_plain_key((#[trigger] members[i]).0) && has_plain_keys(
            members[i].1,
        )
}

/// Whether a path does not end inside a separator.
spec fn is_settled(path: Seq<char>) -> bool {
    path.len() > 0 ==> path.last() != '.'
}

/// A key after a separator, or at the start, opens one level.
proof fn lemma_levels_key(before: Seq<char>, key: Seq<char>)
    requires
        is_plain_key(key),
        before.len() > 0 ==> before.last() == '.',
    ensures
        levels(before + key) == levels(before) + 1,
        is_settled(before + key),
    decreases key.len(),
{
    let whole = before + key;
    let init = key.drop_last();
    assert(whole.drop_last() =~= before + init);
    assert(whole.last() == key[key.len() - 1]);
    if key.len() == 1 {
        assert(before + init =~= before);
        if before.len() > 0 {
            assert(whole[whole.len() - 2] == before.last());
        }
    } else {
        assert forall|i: int| 0 <= i < init.len() implies (#[trigger] init[i]) != '.' && init[i]
            != '[' by {
            assert(init[i] == key[i]);
        }
        lemma_levels_key(before, init);
        assert(whole[whole.len() - 2] == key[key.len() - 2]);
    }
}

/// An object member is one level down.
proof fn lemma_levels_member(prefix: Seq<char>, key: Seq<char>)
    requires
        is_settled(prefix),
        is_plain_key(key),
    ensures
        levels(walk::member_path(prefix, key)) == levels(prefix) + 1,
        is_settled(walk::member_path(prefix, key)),
{
    reveal_strlit(".");
    assert("."@ =~= seq!['.']);
    if prefix.len() == 0 {
        assert(prefix + key =~= key);
        lemma_levels_key(prefix, key);
    } else {
        let dotted = prefix + "."@;
        assert(dotted.drop_last() =~= prefix);
        assert(dotted[dotted.len() - 2] == prefix.last());
        lemma_levels_key(dotted, key);
    }
}

/// An array element is one level down.
proof fn lemma_levels_element(prefix: Seq<char>)
    requires
        is_settled(prefix),
    ensures
        levels(walk::element_path(prefix)) == levels(prefix) + 1,
        is_settled(walk::element_path(prefix)),
{
    reveal_strlit("[]");
    assert("[]"@ =~= seq!['[', ']']);
    let whole = walk::element_path(prefix);
    let open = prefix.push('[');
    assert(whole =~= open.push(']'));
    assert(whole.drop_last() =~= open);
    assert(open.drop_last() =~= prefix);
    assert(levels(open) == levels(prefix) + 1);
    assert(whole[whole.len() - 2] == '[');
    assert(whole.last() == ']');
}

/// The levels of a spelled path are its steps.
pub proof fn law_levels_count_steps(steps: Seq<Step>)
    requires
        agreement::walkable(steps),
    ensures
        levels(spelling::spelled(steps)) == steps.len(),
{
    lemma_levels_spelled(steps);
}

proof fn lemma_levels_spelled(steps: Seq<Step>)
    requires
        agreement::walkable(steps),
    ensures
        levels(spelling::spelled(steps)) == steps.len(),
        is_settled(spelling::spelled(steps)),
    decreases steps.len(),
{
    if steps.len() > 0 {
        let init = steps.drop_last();
        assert forall|i: int| 0 <= i < init.len() implies match #[trigger] init[i] {
            Step::Key(key) => spelling::is_simple(key),
            Step::All => true,
            Step::Index(_) => false,
        } by {
            assert(init[i] == steps[i]);
        }
        lemma_levels_spelled(init);
        assert(steps[steps.len() - 1] == steps.last());
        match steps.last() {
            Step::Key(key) => {
                lemma_levels_member(spelling::spelled(init), key);
            },
            _ => {
                lemma_levels_element(spelling::spelled(init));
            },
        }
    }
}

/// The values seen at paths of at most `n` levels.
spec fn shallow(seen: Seq<(Seq<char>, Seq<char>)>, n: nat) -> Seq<(Seq<char>, Seq<char>)>
    decreases seen.len(),
{
    if seen.len() == 0 {
        Seq::empty()
    } else {
        let before = shallow(seen.drop_last(), n);
        if levels(seen.last().0) <= n {
            before.push(seen.last())
        } else {
            before
        }
    }
}

proof fn lemma_shallow_concat(
    a: Seq<(Seq<char>, Seq<char>)>,
    b: Seq<(Seq<char>, Seq<char>)>,
    n: nat,
)
    ensures
        shallow(a + b, n) == shallow(a, n) + shallow(b, n),
    decreases b.len(),
{
    if b.len() == 0 {
        assert(a + b =~= a);
        assert(shallow(a, n) + shallow(b, n) =~= shallow(a, n));
    } else {
        assert((a + b).drop_last() =~= a + b.drop_last());
        lemma_shallow_concat(a, b.drop_last(), n);
        assert(shallow(a + b, n) =~= shallow(a, n) + shallow(b, n));
    }
}

/// Whether all paths seen have more than `n` levels.
spec fn all_deeper(seen: Seq<(Seq<char>, Seq<char>)>, n: nat) -> bool {
    forall|i: int| 0 <= i < seen.len() ==> levels((#[trigger] seen[i]).0) > n
}

proof fn lemma_shallow_nothing(seen: Seq<(Seq<char>, Seq<char>)>, n: nat)
    requires
        all_deeper(seen, n),
    ensures
        shallow(seen, n) == Seq::<(Seq<char>, Seq<char>)>::empty(),
    decreases seen.len(),
{
    if seen.len() > 0 {
        let init = seen.drop_last();
        assert forall|i: int| 0 <= i < init.len() implies levels((#[trigger] init[i]).0) > n by {
            assert(init[i] == seen[i]);
        }
        lemma_shallow_nothing(init, n);
        assert(levels(seen[seen.len() - 1].0) > n);
    }
}

proof fn lemma_init_plain(members: Seq<(Seq<char>, Json)>)
    requires
        members.len() > 0,
        plain_members(members),
    ensures
        plain_members(members.drop_last()),
        is_plain_key(members.last().0),
        has_plain_keys(members.last().1),
{
    let init = members.drop_last();
    assert forall|i: int| 0 <= i < init.len() implies is_plain_key((#[trigger] init[i]).0)
        && has_plain_keys(init[i].1) by {
        assert(init[i] == members[i]);
    }
    assert(is_plain_key(members[members.len() - 1].0));
}

proof fn lemma_init_items_plain(items: Seq<Json>)
    requires
        items.len() > 0,
        all_plain_keys(items),
    ensures
        all_plain_keys(items.drop_last()),
        has_plain_keys(items.last()),
{
    let init = items.drop_last();
    assert forall|i: int| 0 <= i < init.len() implies has_plain_keys(#[trigger] init[i]) by {
        assert(init[i] == items[i]);
    }
    assert(has_plain_keys(items[items.len() - 1]));
}

/// Everything inside a value lies deeper than the value.
proof fn lemma_inside_is_deeper(json: Json, prefix: Seq<char>, budget: nat)
    requires
        has_plain_keys(json),
        is_settled(prefix),
    ensures
        all_deeper(walk::visit(json, prefix, budget), levels(prefix)),
    decreases json,
{
    if budget > 0 {
        match json {
            Json::Object(members) => {
                let whole = Json::Object(members);
                assert(has_plain_keys(whole) && whole->Object_0 == members);
                lemma_members_are_deeper(members, prefix, (budget - 1) as nat);
            },
            Json::Array(items) => {
                let whole = Json::Array(items);
                assert(has_plain_keys(whole) && whole->Array_0 == items);
                lemma_levels_element(prefix);
                lemma_items_are_deeper(
                    items,
                    walk::element_path(prefix),
                    (budget - 1) as nat,
                    levels(prefix),
                );
            },
            _ => {},
        }
    }
}

proof fn lemma_members_are_deeper(
    members: Seq<(Seq<char>, Json)>,
    prefix: Seq<char>,
    left: nat,
)
    requires
        plain_members(members),
        is_settled(prefix),
    ensures
        all_deeper(walk::visit_members(members, prefix, left), levels(prefix)),
    decreases members,
{
    if members.len() > 0 {
        let init = members.drop_last();
        let (key, value) = members.last();
        let child = walk::member_path(prefix, key);
        let before = walk::visit_members(init, prefix, left);
        let inner = walk::visit(value, child, left);
        lemma_init_plain(members);
        lemma_members_are_deeper(init, prefix, left);
        lemma_levels_member(prefix, key);
        lemma_inside_is_deeper(value, child, left);
        let all = before.push((child, json::type_of(value))) + inner;
        assert forall|i: int| 0 <= i < all.len() implies levels((#[trigger] all[i]).0) > levels(
            prefix,
        ) by {
            if i < before.len() {
                assert(all[i] == before[i]);
            } else if i > before.len() {
                assert(all[i] == inner[i - before.len() - 1]);
            }
        }
    }
}

proof fn lemma_items_are_deeper(items: Seq<Json>, child: Seq<char>, left: nat, n: nat)
    requires
        all_plain_keys(items),
        is_settled(child),
        levels(child) > n,
    ensures
        all_deeper(walk::visit_items(items, child, left), n),
    decreases items,
{
    if items.len() > 0 {
        let init = items.drop_last();
        let before = walk::visit_items(init, child, left);
        let inner = walk::visit(items.last(), child, left);
        lemma_init_items_plain(items);
        lemma_items_are_deeper(init, child, left, n);
        lemma_inside_is_deeper(items.last(), child, left);
        let all = before.push((child, json::type_of(items.last()))) + inner;
        assert forall|i: int| 0 <= i < all.len() implies levels((#[trigger] all[i]).0) > n by {
            if i < before.len() {
                assert(all[i] == before[i]);
            } else if i > before.len() {
                assert(all[i] == inner[i - before.len() - 1]);
            }
        }
    }
}

/// A walk sees what a deeper walk sees at its own levels.
proof fn lemma_visit_shallow(json: Json, prefix: Seq<char>, less: nat, more: nat)
    requires
        has_plain_keys(json),
        is_settled(prefix),
        less <= more,
    ensures
        walk::visit(json, prefix, less) == shallow(
            walk::visit(json, prefix, more),
            levels(prefix) + less,
        ),
    decreases json,
{
    if less == 0 {
        lemma_inside_is_deeper(json, prefix, more);
        lemma_shallow_nothing(walk::visit(json, prefix, more), levels(prefix));
    } else {
        match json {
            Json::Object(members) => {
                let whole = Json::Object(members);
                assert(has_plain_keys(whole) && whole->Object_0 == members);
                lemma_members_shallow(
                    members,
                    prefix,
                    (less - 1) as nat,
                    (more - 1) as nat,
                );
            },
            Json::Array(items) => {
                let whole = Json::Array(items);
                assert(has_plain_keys(whole) && whole->Array_0 == items);
                lemma_levels_element(prefix);
                lemma_items_shallow(
                    items,
                    walk::element_path(prefix),
                    (less - 1) as nat,
                    (more - 1) as nat,
                );
            },
            _ => {},
        }
    }
}

proof fn lemma_members_shallow(
    members: Seq<(Seq<char>, Json)>,
    prefix: Seq<char>,
    less: nat,
    more: nat,
)
    requires
        plain_members(members),
        is_settled(prefix),
        less <= more,
    ensures
        walk::visit_members(members, prefix, less) == shallow(
            walk::visit_members(members, prefix, more),
            levels(prefix) + less + 1,
        ),
    decreases members,
{
    if members.len() > 0 {
        let n = levels(prefix) + less + 1;
        let init = members.drop_last();
        let (key, value) = members.last();
        let child = walk::member_path(prefix, key);
        let one = (child, json::type_of(value));
        let before = walk::visit_members(init, prefix, more);
        let inner = walk::visit(value, child, more);
        lemma_init_plain(members);
        lemma_members_shallow(init, prefix, less, more);
        lemma_levels_member(prefix, key);
        lemma_visit_shallow(value, child, less, more);
        lemma_shallow_concat(before.push(one), inner, n);
        assert(before.push(one).drop_last() =~= before);
    }
}

proof fn lemma_items_shallow(items: Seq<Json>, child: Seq<char>, less: nat, more: nat)
    requires
        all_plain_keys(items),
        is_settled(child),
        less <= more,
    ensures
        walk::visit_items(items, child, less) == shallow(
            walk::visit_items(items, child, more),
            levels(child) + less,
        ),
    decreases items,
{
    if items.len() > 0 {
        let n = levels(child) + less;
        let init = items.drop_last();
        let one = (child, json::type_of(items.last()));
        let before = walk::visit_items(init, child, more);
        let inner = walk::visit(items.last(), child, more);
        lemma_init_items_plain(items);
        lemma_items_shallow(init, child, less, more);
        lemma_visit_shallow(items.last(), child, less, more);
        lemma_shallow_concat(before.push(one), inner, n);
        assert(before.push(one).drop_last() =~= before);
    }
}

proof fn lemma_visits_shallow(records: Seq<Json>, less: nat, more: nat)
    requires
        all_plain_keys(records),
        less <= more,
    ensures
        walk::visits(records, less) == shallow(walk::visits(records, more), less),
    decreases records.len(),
{
    if records.len() > 0 {
        let init = records.drop_last();
        lemma_init_items_plain(records);
        lemma_visits_shallow(init, less, more);
        lemma_visit_shallow(records.last(), Seq::empty(), less, more);
        lemma_shallow_concat(
            walk::visits(init, more),
            walk::record_visits(records.last(), more),
            less,
        );
    }
}

/// What is seen at a path of at most `n` levels is seen in the shallow part,
/// and nothing else is.
proof fn lemma_shallow_under(seen: Seq<(Seq<char>, Seq<char>)>, n: nat, path: Seq<char>)
    ensures
        table::types_under(shallow(seen, n), path) == (if levels(path) <= n {
            table::types_under(seen, path)
        } else {
            Seq::empty()
        }),
    decreases seen.len(),
{
    if seen.len() > 0 {
        let before = shallow(seen.drop_last(), n);
        lemma_shallow_under(seen.drop_last(), n, path);
        if levels(seen.last().0) <= n {
            assert(before.push(seen.last()).drop_last() =~= before);
        }
    }
}

proof fn lemma_seen(seen: Seq<(Seq<char>, Seq<char>)>, path: Seq<char>)
    ensures
        table::types_under(seen, path).len() == table::occurrences(table::names_of(seen), path),
        table::types_under(seen, path).len() > 0 <==> table::names_of(seen).contains(path),
{
    table::lemma_types_under_len(seen, path);
    table::lemma_occurrences(table::names_of(seen), path);
}

proof fn lemma_same_holders(records: Seq<Json>, less: nat, more: nat, path: Seq<char>)
    requires
        all_plain_keys(records),
        less <= more,
        levels(path) <= less,
    ensures
        walk::holders(records, less, path) == walk::holders(records, more, path),
        walk::latest_holder(records, less, path) == walk::latest_holder(records, more, path),
    decreases records.len(),
{
    if records.len() > 0 {
        let last = records.last();
        lemma_init_items_plain(records);
        lemma_same_holders(records.drop_last(), less, more, path);
        lemma_visit_shallow(last, Seq::empty(), less, more);
        lemma_shallow_under(walk::record_visits(last, more), less, path);
        lemma_seen(walk::record_visits(last, more), path);
        lemma_seen(walk::record_visits(last, less), path);
    }
}

/// At its own levels, a walk says of a path what a deeper walk says.
proof fn lemma_same_entry(records: Seq<Json>, less: nat, more: nat, path: Seq<char>)
    requires
        all_plain_keys(records),
        less <= more,
    ensures
        levels(path) <= less ==> walk::path_entry(records, less, path) == walk::path_entry(
            records,
            more,
            path,
        ),
        table::names_of(walk::visits(records, less)).contains(path) <==> table::names_of(
            walk::visits(records, more),
        ).contains(path) && levels(path) <= less,
{
    lemma_visits_shallow(records, less, more);
    lemma_shallow_under(walk::visits(records, more), less, path);
    lemma_seen(walk::visits(records, more), path);
    lemma_seen(walk::visits(records, less), path);
    if levels(path) <= less {
        lemma_same_holders(records, less, more, path);
    }
}

/// A deeper walk sees every path at least as often.
proof fn lemma_seen_more(json: Json, prefix: Seq<char>, less: nat, more: nat, path: Seq<char>)
    requires
        less <= more,
    ensures
        table::occurrences(table::names_of(walk::visit(json, prefix, less)), path)
            <= table::occurrences(table::names_of(walk::visit(json, prefix, more)), path),
    decreases json,
{
    if less == 0 {
        assert(table::names_of(walk::visit(json, prefix, less)) =~= Seq::empty());
    } else {
        match json {
            Json::Object(members) => {
                lemma_members_seen_more(
                    members,
                    prefix,
                    (less - 1) as nat,
                    (more - 1) as nat,
                    path,
                );
            },
            Json::Array(items) => {
                lemma_items_seen_more(
                    items,
                    walk::element_path(prefix),
                    (less - 1) as nat,
                    (more - 1) as nat,
                    path,
                );
            },
            _ => {},
        }
    }
}

proof fn lemma_occurrences_parts(
    before: Seq<(Seq<char>, Seq<char>)>,
    one: (Seq<char>, Seq<char>),
    inner: Seq<(Seq<char>, Seq<char>)>,
    path: Seq<char>,
)
    ensures
        table::occurrences(table::names_of(before.push(one) + inner), path) == table::occurrences(
            table::names_of(before),
            path,
        ) + (if one.0 == path {
            1nat
        } else {
            0nat
        }) + table::occurrences(table::names_of(inner), path),
{
    let names = table::names_of(before).push(one.0);
    assert(table::names_of(before.push(one) + inner) =~= names + table::names_of(inner));
    laws::lemma_occurrences_concat(names, table::names_of(inner), path);
    assert(names.drop_last() =~= table::names_of(before));
}

proof fn lemma_members_seen_more(
    members: Seq<(Seq<char>, Json)>,
    prefix: Seq<char>,
    less: nat,
    more: nat,
    path: Seq<char>,
)
    requires
        less <= more,
    ensures
        table::occurrences(table::names_of(walk::visit_members(members, prefix, less)), path)
            <= table::occurrences(
            table::names_of(walk::visit_members(members, prefix, more)),
            path,
        ),
    decreases members,
{
    if members.len() > 0 {
        let init = members.drop_last();
        let (key, value) = members.last();
        let child = walk::member_path(prefix, key);
        let one = (child, json::type_of(value));
        lemma_members_seen_more(init, prefix, less, more, path);
        lemma_seen_more(value, child, less, more, path);
        lemma_occurrences_parts(
            walk::visit_members(init, prefix, less),
            one,
            walk::visit(value, child, less),
            path,
        );
        lemma_occurrences_parts(
            walk::visit_members(init, prefix, more),
            one,
            walk::visit(value, child, more),
            path,
        );
    }
}

proof fn lemma_items_seen_more(
    items: Seq<Json>,
    child: Seq<char>,
    less: nat,
    more: nat,
    path: Seq<char>,
)
    requires
        less <= more,
    ensures
        table::occurrences(table::names_of(walk::visit_items(items, child, less)), path)
            <= table::occurrences(table::names_of(walk::visit_items(items, child, more)), path),
    decreases items,
{
    if items.len() > 0 {
        let init = items.drop_last();
        let one = (child, json::type_of(items.last()));
        lemma_items_seen_more(init, child, less, more, path);
        lemma_seen_more(items.last(), child, less, more, path);
        lemma_occurrences_parts(
            walk::visit_items(init, child, less),
            one,
            walk::visit(items.last(), child, less),
            path,
        );
        lemma_occurrences_parts(
            walk::visit_items(init, child, more),
            one,
            walk::visit(items.last(), child, more),
            path,
        );
    }
}

/// A deeper walk finds every path that a shallower walk finds, in at least as
/// many records and with at least as many values.
pub proof fn law_deeper_walk_finds_more(
    records: Seq<Json>,
    less: nat,
    more: nat,
    path: Seq<char>,
)
    requires
        less <= more,
    ensures
        ({
            let a = walk::path_entry(records, less, path);
            let b = walk::path_entry(records, more, path);
            a.present <= b.present && a.count <= b.count
        }),
        table::names_of(walk::visits(records, less)).contains(path) ==> table::names_of(
            walk::visits(records, more),
        ).contains(path),
    decreases records.len(),
{
    if records.len() > 0 {
        let init = records.drop_last();
        let last = records.last();
        let a = table::names_of(walk::record_visits(last, less));
        let b = table::names_of(walk::record_visits(last, more));
        let before = table::names_of(walk::visits(init, less));
        let prior = table::names_of(walk::visits(init, more));
        law_deeper_walk_finds_more(init, less, more, path);
        lemma_seen_more(last, Seq::empty(), less, more, path);
        table::lemma_occurrences(a, path);
        table::lemma_occurrences(b, path);
        assert(table::names_of(walk::visits(records, less)) =~= before + a);
        assert(table::names_of(walk::visits(records, more)) =~= prior + b);
        laws::lemma_occurrences_concat(before, a, path);
        laws::lemma_occurrences_concat(prior, b, path);
    }
    table::lemma_occurrences(table::names_of(walk::visits(records, less)), path);
    table::lemma_occurrences(table::names_of(walk::visits(records, more)), path);
}

/// A path table that is not truncated holds the line of every path visited,
/// and nothing else.
proof fn lemma_complete_table(records: Seq<Json>, depth: nat, p: PathEntry)
    requires
        !walk::paths_overflow(records, depth),
    ensures
        walk::path_table(records, depth).contains(p) <==> table::names_of(
            walk::visits(records, depth),
        ).contains(p.path) && p == walk::path_entry(records, depth, p.path),
{
    let names = table::names_of(walk::visits(records, depth));
    let d = table::distinct(names);
    let paths = walk::path_table(records, depth);
    table::lemma_distinct(names);
    assert(table::kept(names, MAX_PATHS as nat) =~= d);
    if paths.contains(p) {
        let i = choose|i: int| 0 <= i < paths.len() && paths[i] == p;
        assert(d[i] == p.path);
        assert(d.contains(p.path));
    }
    if names.contains(p.path) && p == walk::path_entry(records, depth, p.path) {
        assert(d.contains(p.path));
        let i = choose|i: int| 0 <= i < d.len() && d[i] == p.path;
        assert(paths[i] == p);
    }
}

/// If a walk keeps all paths, so does a shallower one.
proof fn lemma_shallower_fits(records: Seq<Json>, less: nat, more: nat)
    requires
        less <= more,
        !walk::paths_overflow(records, more),
    ensures
        !walk::paths_overflow(records, less),
{
    let x = table::names_of(walk::visits(records, less));
    let y = table::names_of(walk::visits(records, more));
    let a = table::distinct(x);
    let b = table::distinct(y);
    table::lemma_distinct(x);
    table::lemma_distinct(y);
    a.unique_seq_to_set();
    b.unique_seq_to_set();
    assert forall|path: Seq<char>| a.to_set().contains(path) implies b.to_set().contains(
        path,
    ) by {
        assert(a.contains(path));
        law_deeper_walk_finds_more(records, less, more, path);
        assert(b.contains(path));
    }
    vstd::set_lib::lemma_len_subset(a.to_set(), b.to_set());
}

/// Whether some listed path is `p` with no smaller counters.
pub open spec fn keeps(listed: Seq<PathEntry>, p: PathEntry) -> bool {
    exists|q: PathEntry| #[trigger]
        listed.contains(q) && q.path == p.path && q.present >= p.present && q.count >= p.count
}

/// What two passes over the same lines list that hide nothing, the second one
/// at least as deep as the first and with room for all paths. Both walk the
/// same records and skip the same lines, and the first has room for all paths
/// too. Every path of the first is listed by the second, with counters that
/// are no smaller. If no key is empty or holds a dot or an opening bracket, the
/// first lists exactly what the second lists at its levels: what is added lies
/// deeper. A walk of no levels lists nothing.
pub proof fn law_depth_adds_deeper_paths(
    lines: Seq<Seq<u8>>,
    less: nat,
    more: nat,
    a: Seq<PathEntry>,
    b: Seq<PathEntry>,
)
    requires
        less <= more,
        !schema::outline_of(lines, more).truncated,
        schema::is_listing(
            a,
            schema::outline_of(lines, less).paths,
            schema::outline_of(lines, less).records,
            (0, 1),
        ),
        schema::is_listing(
            b,
            schema::outline_of(lines, more).paths,
            schema::outline_of(lines, more).records,
            (0, 1),
        ),
    ensures
        !schema::outline_of(lines, less).truncated,
        schema::outline_of(lines, less).records == schema::outline_of(lines, more).records,
        schema::outline_of(lines, less).skipped == schema::outline_of(lines, more).skipped,
        forall|p: PathEntry| #[trigger] a.contains(p) ==> keeps(b, p),
        all_plain_keys(summary::records_of(lines)) ==> forall|p: PathEntry| #[trigger]
            a.contains(p) <==> b.contains(p) && levels(p.path) <= less,
        less == 0 ==> a.len() == 0,
{
    let records = summary::records_of(lines);
    let x = walk::path_table(records, less);
    let y = walk::path_table(records, more);
    lemma_shallower_fits(records, less, more);
    laws::law_zero_threshold_hides_nothing(a, x, records.len());
    laws::law_zero_threshold_hides_nothing(b, y, records.len());
    assert forall|p: PathEntry| #[trigger] a.contains(p) implies keeps(b, p) by {
        let q = walk::path_entry(records, more, p.path);
        lemma_complete_table(records, less, p);
        law_deeper_walk_finds_more(records, less, more, p.path);
        lemma_complete_table(records, more, q);
        assert(b.contains(q));
    }
    if all_plain_keys(records) {
        assert forall|p: PathEntry| #[trigger]
            a.contains(p) <==> b.contains(p) && levels(p.path) <= less by {
            lemma_complete_table(records, less, p);
            lemma_complete_table(records, more, p);
            lemma_same_entry(records, less, more, p.path);
        }
    }
    if less == 0 && a.len() > 0 {
        lemma_no_visits(records);
        assert(a.contains(a[0]));
        lemma_complete_table(records, less, a[0]);
    }
}

proof fn lemma_no_visits(records: Seq<Json>)
    ensures
        walk::visits(records, 0) == Seq::<(Seq<char>, Seq<char>)>::empty(),
    decreases records.len(),
{
    if records.len() > 0 {
        lemma_no_visits(records.drop_last());
        assert(walk::visits(records, 0) =~= Seq::empty());
    }
}

} // verus!

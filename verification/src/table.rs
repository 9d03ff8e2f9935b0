//! Frequency tables: how often each name occurs, in first-seen order.

use vstd::prelude::*;

use crate::text::same;

verus! {

/// The names of a sequence without repeats, in first-seen order.
pub open spec fn distinct(names: Seq<Seq<char>>) -> Seq<Seq<char>>
    decreases names.len(),
{
    if names.len() == 0 {
        Seq::empty()
    } else {
        let before = distinct(names.drop_last());
        if before.contains(names.last()) {
            before
        } else {
            before.push(names.last())
        }
    }
}

/// How often a name occurs.
pub open spec fn occurrences(names: Seq<Seq<char>>, name: Seq<char>) -> nat
    decreases names.len(),
{
    if names.len() == 0 {
        0
    } else {
        occurrences(names.drop_last(), name) + (if names.last() == name {
            1nat
        } else {
            0nat
        })
    }
}

/// Each name with the number of its occurrences, in first-seen order.
pub open spec fn tally(names: Seq<Seq<char>>) -> Seq<(Seq<char>, nat)> {
    distinct(names).map_values(|name: Seq<char>| (name, occurrences(names, name)))
}

/// One line of a frequency table: a name, how often it occurs, and with which
/// types.
#[verifier::ext_equal]
pub struct Entry {
    pub name: Seq<char>,
    pub count: nat,
    pub types: Seq<(Seq<char>, nat)>,
}

/// The names of a sequence of occurrences, each a name and a type.
pub open spec fn names_of(seen: Seq<(Seq<char>, Seq<char>)>) -> Seq<Seq<char>> {
    seen.map_values(|one: (Seq<char>, Seq<char>)| one.0)
}

/// The types that a name occurs with, in order.
pub open spec fn types_under(seen: Seq<(Seq<char>, Seq<char>)>, name: Seq<char>) -> Seq<Seq<char>>
    decreases seen.len(),
{
    if seen.len() == 0 {
        Seq::empty()
    } else {
        let before = types_under(seen.drop_last(), name);
        if seen.last().0 == name {
            before.push(seen.last().1)
        } else {
            before
        }
    }
}

/// The line for one name.
pub open spec fn entry(seen: Seq<(Seq<char>, Seq<char>)>, name: Seq<char>) -> Entry {
    Entry {
        name,
        count: occurrences(names_of(seen), name),
        types: tally(types_under(seen, name)),
    }
}

/// The smaller of two numbers.
pub open spec fn least(a: nat, b: nat) -> nat {
    if a < b {
        a
    } else {
        b
    }
}

/// The names that a table with room for `cap` names keeps: those seen first.
pub open spec fn kept(names: Seq<Seq<char>>, cap: nat) -> Seq<Seq<char>> {
    distinct(names).take(least(cap, distinct(names).len()) as int)
}

/// The frequency table of a sequence of occurrences, with room for `cap` names.
pub open spec fn table(seen: Seq<(Seq<char>, Seq<char>)>, cap: nat) -> Seq<Entry> {
    kept(names_of(seen), cap).map_values(|name: Seq<char>| entry(seen, name))
}

/// Whether more names were seen than a table with room for `cap` names keeps.
pub open spec fn overflows(names: Seq<Seq<char>>, cap: nat) -> bool {
    distinct(names).len() > cap
}

/// The first position of a name, or the length if it does not occur.
pub open spec fn slot(names: Seq<Seq<char>>, name: Seq<char>) -> int
    decreases names.len(),
{
    if names.len() == 0 {
        0
    } else {
        let before = slot(names.drop_last(), name);
        if before < names.len() - 1 {
            before
        } else if names.last() == name {
            names.len() - 1
        } else {
            names.len() as int
        }
    }
}

/// The names of a tally.
pub open spec fn tallied(counts: Seq<(Seq<char>, nat)>) -> Seq<Seq<char>> {
    counts.map_values(|one: (Seq<char>, nat)| one.0)
}

/// A tally after one more occurrence of `name`.
pub open spec fn bump(counts: Seq<(Seq<char>, nat)>, name: Seq<char>) -> Seq<(Seq<char>, nat)> {
    let at = slot(tallied(counts), name);
    if at < counts.len() {
        counts.update(at, (counts[at].0, counts[at].1 + 1))
    } else {
        counts.push((name, 1))
    }
}

/// The names of a table.
pub open spec fn entry_names(entries: Seq<Entry>) -> Seq<Seq<char>> {
    entries.map_values(|e: Entry| e.name)
}

/// A table after one more occurrence of `name`, with the type `type_of`.
pub open spec fn enter(
    entries: Seq<Entry>,
    cap: nat,
    name: Seq<char>,
    type_of: Seq<char>,
) -> Seq<Entry> {
    let at = slot(entry_names(entries), name);
    if at < entries.len() {
        entries.update(
            at,
            (Entry {
                name: entries[at].name,
                count: entries[at].count + 1,
                types: bump(entries[at].types, type_of),
            }),
        )
    } else if entries.len() < cap {
        entries.push((Entry { name, count: 1, types: bump(Seq::empty(), type_of) }))
    } else {
        entries
    }
}

/// `slot` is the first position of a name.
pub proof fn lemma_slot(names: Seq<Seq<char>>, name: Seq<char>)
    ensures
        0 <= slot(names, name) <= names.len(),
        slot(names, name) < names.len() ==> names[slot(names, name)] == name,
        forall|k: int| 0 <= k < slot(names, name) ==> names[k] != name,
        slot(names, name) < names.len() <==> names.contains(name),
    decreases names.len(),
{
    if names.len() > 0 {
        let init = names.drop_last();
        lemma_slot(init, name);
        let at = slot(names, name);
        assert forall|k: int| 0 <= k < at implies names[k] != name by {
            if k < init.len() {
                assert(names[k] == init[k]);
            }
        }
        if names.contains(name) && at == names.len() {
            let k = choose|k: int| 0 <= k < names.len() && names[k] == name;
            assert(names[k] != name);
        }
    }
}

/// The first occurrence found by scanning is the slot.
pub proof fn lemma_slot_found(names: Seq<Seq<char>>, name: Seq<char>, at: int)
    requires
        0 <= at <= names.len(),
        at < names.len() ==> names[at] == name,
        forall|k: int| 0 <= k < at ==> names[k] != name,
    ensures
        slot(names, name) == at,
{
    lemma_slot(names, name);
    let s = slot(names, name);
    if s < at {
        assert(names[s] != name);
    }
    if at < s {
        assert(names[at] != name);
    }
}

/// What `distinct` keeps is what occurs, each name once.
pub proof fn lemma_distinct(names: Seq<Seq<char>>)
    ensures
        forall|name: Seq<char>| #[trigger]
            distinct(names).contains(name) <==> names.contains(name),
        distinct(names).no_duplicates(),
        distinct(names).len() <= names.len(),
    decreases names.len(),
{
    if names.len() > 0 {
        let init = names.drop_last();
        let last = names.last();
        lemma_distinct(init);
        let before = distinct(init);
        assert forall|name: Seq<char>| #[trigger]
            distinct(names).contains(name) <==> names.contains(name) by {
            if names.contains(name) {
                let k = choose|k: int| 0 <= k < names.len() && names[k] == name;
                if k < init.len() {
                    assert(init[k] == name);
                    assert(init.contains(name));
                    assert(before.contains(name));
                    let j = choose|j: int| 0 <= j < before.len() && before[j] == name;
                    assert(distinct(names)[j] == name);
                } else {
                    if !before.contains(last) {
                        assert(distinct(names)[before.len() as int] == last);
                    }
                }
            }
            if distinct(names).contains(name) {
                let k = choose|k: int|
                    0 <= k < distinct(names).len() && distinct(names)[k] == name;
                if k < before.len() {
                    assert(before[k] == name);
                    assert(before.contains(name));
                    assert(init.contains(name));
                    let j = choose|j: int| 0 <= j < init.len() && init[j] == name;
                    assert(names[j] == name);
                } else {
                    assert(names[names.len() - 1] == name);
                }
            }
        }
    }
}

/// A name that does not occur has no occurrences; one that does has some, and
/// no more than there are names.
pub proof fn lemma_occurrences(names: Seq<Seq<char>>, name: Seq<char>)
    ensures
        occurrences(names, name) > 0 <==> names.contains(name),
        occurrences(names, name) <= names.len(),
    decreases names.len(),
{
    if names.len() > 0 {
        let init = names.drop_last();
        lemma_occurrences(init, name);
        if init.contains(name) {
            let k = choose|k: int| 0 <= k < init.len() && init[k] == name;
            assert(names[k] == name);
        }
        if names.contains(name) && names.last() != name {
            let k = choose|k: int| 0 <= k < names.len() && names[k] == name;
            assert(init[k] == name);
        }
        if names.last() == name {
            assert(names[names.len() - 1] == name);
        }
    }
}

/// One more occurrence bumps the tally.
pub proof fn lemma_tally_push(names: Seq<Seq<char>>, name: Seq<char>)
    ensures
        tally(names.push(name)) == bump(tally(names), name),
{
    let more = names.push(name);
    assert(more.drop_last() =~= names);
    let d = distinct(names);
    lemma_distinct(names);
    assert(tallied(tally(names)) =~= d);
    lemma_slot(d, name);
    lemma_occurrences(names, name);
    assert(d.contains(name) <==> names.contains(name));
    assert(tally(more) =~= bump(tally(names), name));
}

/// One more occurrence enters the table.
pub proof fn lemma_table_push(
    seen: Seq<(Seq<char>, Seq<char>)>,
    cap: nat,
    name: Seq<char>,
    type_of: Seq<char>,
)
    ensures
        table(seen.push((name, type_of)), cap) == enter(table(seen, cap), cap, name, type_of),
        overflows(names_of(seen.push((name, type_of))), cap) <==> overflows(names_of(seen), cap)
            || (!entry_names(table(seen, cap)).contains(name) && table(seen, cap).len() >= cap),
{
    let more = seen.push((name, type_of));
    assert(more.drop_last() =~= seen);
    let names = names_of(seen);
    assert(names_of(more) =~= names.push(name));
    assert(names.push(name).drop_last() =~= names);
    let d = distinct(names);
    let k = kept(names, cap);
    let t = table(seen, cap);
    lemma_distinct(names);
    lemma_occurrences(names, name);
    assert(entry_names(t) =~= k);
    lemma_slot(k, name);
    let at = slot(k, name);
    lemma_tally_push(types_under(seen, name), type_of);
    assert(types_under(more, name) == types_under(seen, name).push(type_of));
    assert forall|other: Seq<char>| other != name implies entry(more, other) == entry(
        seen,
        other,
    ) by {
        assert(types_under(more, other) == types_under(seen, other));
        assert(occurrences(names.push(name), other) == occurrences(names, other));
    }
    assert(occurrences(names.push(name), name) == occurrences(names, name) + 1);
    if k.contains(name) {
        assert(d.contains(name)) by {
            assert(d[at] == name);
        }
        assert(kept(names.push(name), cap) =~= k);
        assert(table(more, cap) =~= enter(t, cap, name, type_of));
    } else if d.contains(name) {
        assert(d.len() > cap) by {
            let j = choose|j: int| 0 <= j < d.len() && d[j] == name;
            if d.len() <= cap {
                assert(k[j] == name);
            }
        }
        assert(kept(names.push(name), cap) =~= k);
        assert(table(more, cap) =~= enter(t, cap, name, type_of));
    } else {
        assert(distinct(names.push(name)) == d.push(name));
        lemma_types_under_len(seen, name);
        assert(types_under(seen, name) =~= Seq::empty());
        assert(tally(types_under(seen, name)) =~= Seq::empty());
        if d.len() < cap {
            assert(kept(names.push(name), cap) =~= k.push(name));
            assert(table(more, cap) =~= enter(t, cap, name, type_of));
        } else {
            assert(kept(names.push(name), cap) =~= k);
            assert(table(more, cap) =~= enter(t, cap, name, type_of));
        }
    }
}

/// A name occurs with as many types as it occurs.
pub proof fn lemma_types_under_len(seen: Seq<(Seq<char>, Seq<char>)>, name: Seq<char>)
    ensures
        types_under(seen, name).len() == occurrences(names_of(seen), name),
    decreases seen.len(),
{
    if seen.len() > 0 {
        lemma_types_under_len(seen.drop_last(), name);
        assert(names_of(seen).drop_last() =~= names_of(seen.drop_last()));
    }
}

/// A table after several more occurrences.
pub open spec fn enter_all(
    entries: Seq<Entry>,
    cap: nat,
    more: Seq<(Seq<char>, Seq<char>)>,
) -> Seq<Entry>
    decreases more.len(),
{
    if more.len() == 0 {
        entries
    } else {
        enter(enter_all(entries, cap, more.drop_last()), cap, more.last().0, more.last().1)
    }
}

/// Whether several more occurrences find a full table.
pub open spec fn spills(
    entries: Seq<Entry>,
    cap: nat,
    more: Seq<(Seq<char>, Seq<char>)>,
) -> bool
    decreases more.len(),
{
    if more.len() == 0 {
        false
    } else {
        let before = enter_all(entries, cap, more.drop_last());
        spills(entries, cap, more.drop_last()) || (!entry_names(before).contains(more.last().0)
            && before.len() >= cap)
    }
}

/// More occurrences enter the table one by one.
pub proof fn lemma_table_concat(
    seen: Seq<(Seq<char>, Seq<char>)>,
    cap: nat,
    more: Seq<(Seq<char>, Seq<char>)>,
)
    ensures
        table(seen + more, cap) == enter_all(table(seen, cap), cap, more),
        overflows(names_of(seen + more), cap) <==> overflows(names_of(seen), cap) || spills(
            table(seen, cap),
            cap,
            more,
        ),
    decreases more.len(),
{
    if more.len() == 0 {
        assert(seen + more =~= seen);
    } else {
        let init = more.drop_last();
        lemma_table_concat(seen, cap, init);
        lemma_table_push(seen + init, cap, more.last().0, more.last().1);
        assert(seen + more =~= (seen + init).push((more.last().0, more.last().1)));
    }
}

/// Whether no counter of a tally exceeds `n`.
pub open spec fn tally_within(counts: Seq<(Seq<char>, nat)>, n: int) -> bool {
    forall|i: int| 0 <= i < counts.len() ==> (#[trigger] counts[i]).1 <= n
}

/// Whether no counter of a table exceeds `n`.
pub open spec fn table_within(entries: Seq<Entry>, n: int) -> bool {
    forall|i: int|
        0 <= i < entries.len() ==> (#[trigger] entries[i]).count <= n && tally_within(
            entries[i].types,
            n,
        )
}

/// A name is counted no more often than there are names.
pub proof fn lemma_tally_within(names: Seq<Seq<char>>)
    ensures
        tally_within(tally(names), names.len() as int),
{
    assert forall|i: int| 0 <= i < tally(names).len() implies (#[trigger] tally(names)[i]).1
        <= names.len() by {
        lemma_occurrences(names, distinct(names)[i]);
    }
}

/// A bump raises counters by no more than one.
pub proof fn lemma_bump_within(counts: Seq<(Seq<char>, nat)>, name: Seq<char>, n: int)
    requires
        tally_within(counts, n),
        n >= 0,
    ensures
        tally_within(bump(counts, name), n + 1),
{
    lemma_slot(tallied(counts), name);
}

/// One more occurrence raises counters by no more than one.
pub proof fn lemma_enter_within(
    entries: Seq<Entry>,
    cap: nat,
    name: Seq<char>,
    type_of: Seq<char>,
    n: int,
)
    requires
        table_within(entries, n),
        n >= 0,
    ensures
        table_within(enter(entries, cap, name, type_of), n + 1),
{
    lemma_slot(entry_names(entries), name);
    let at = slot(entry_names(entries), name);
    let after = enter(entries, cap, name, type_of);
    if at < entries.len() {
        assert(entries[at].count <= n && tally_within(entries[at].types, n));
        lemma_bump_within(entries[at].types, type_of, n);
    } else {
        lemma_bump_within(Seq::empty(), type_of, n);
    }
    assert forall|i: int| 0 <= i < after.len() implies (#[trigger] after[i]).count <= n + 1
        && tally_within(after[i].types, n + 1) by {
        if i < entries.len() && i != at {
            assert(after[i] == entries[i]);
        }
    }
}

/// A bound on counters can be raised.
pub proof fn lemma_table_widen(entries: Seq<Entry>, n: int, m: int)
    requires
        table_within(entries, n),
        n <= m,
    ensures
        table_within(entries, m),
{
    assert forall|i: int| 0 <= i < entries.len() implies (#[trigger] entries[i]).count <= m
        && tally_within(entries[i].types, m) by {
        assert(entries[i].count <= n && tally_within(entries[i].types, n));
    }
}

/// More occurrences raise counters by no more than their number.
pub proof fn lemma_enter_all_within(
    entries: Seq<Entry>,
    cap: nat,
    more: Seq<(Seq<char>, Seq<char>)>,
    n: int,
)
    requires
        table_within(entries, n),
        n >= 0,
    ensures
        table_within(enter_all(entries, cap, more), n + more.len()),
    decreases more.len(),
{
    if more.len() > 0 {
        let init = more.drop_last();
        lemma_enter_all_within(entries, cap, init, n);
        lemma_enter_within(
            enter_all(entries, cap, init),
            cap,
            more.last().0,
            more.last().1,
            n + init.len(),
        );
    }
}

/// What counted type names stand for.
pub open spec fn tally_view(types: Seq<(&'static str, u64)>) -> Seq<(Seq<char>, nat)> {
    types.map_values(|one: (&'static str, u64)| (one.0@, one.1 as nat))
}

/// Counts one more value of the type `name`.
pub fn record_type(types: &mut Vec<(&'static str, u64)>, name: &'static str)
    requires
        forall|i: int| 0 <= i < old(types)@.len() ==> (#[trigger] old(types)@[i]).1 < u64::MAX,
    ensures
        tally_view(final(types)@) == bump(tally_view(old(types)@), name@),
{
    let ghost before = tally_view(types@);
    let ghost names = tallied(before);
    let mut i: usize = 0;
    while i < types.len()
        invariant
            i <= types@.len(),
            *types == *old(types),
            before == tally_view(types@),
            names == tallied(before),
            forall|k: int| 0 <= k < types@.len() ==> (#[trigger] types@[k]).1 < u64::MAX,
            forall|k: int| 0 <= k < i ==> names[k] != name@,
        decreases types.len() - i,
    {
        let one: (&'static str, u64) = types[i];
        assert(names[i as int] == one.0@);
        if same(one.0, name) {
            proof {
                lemma_slot_found(names, name@, i as int);
            }
            types[i] = (one.0, one.1 + 1);
            assert(tally_view(types@) =~= bump(before, name@));
            return;
        }
        i = i + 1;
    }
    proof {
        lemma_slot_found(names, name@, i as int);
    }
    types.push((name, 1));
    assert(tally_view(types@) =~= bump(before, name@));
}

} // verus!

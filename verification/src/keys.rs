//! Top level object keys: how often each occurs, and with which types.

use vstd::prelude::*;

use crate::json;
use crate::json::Json;
use crate::json::Value;
use crate::ratio;
use crate::ratio::Ratio;
use crate::table;
use crate::table::record_type;
use crate::table::Entry;
use crate::text::same;

verus! {

/// Key table cap: past this many distinct top level keys, further keys are
/// dropped instead of growing the table without bound.
pub const MAX_KEYS: usize = 512;

/// The key occurrences that one object contributes: each of its keys once,
/// with the type of the first member of that name.
pub open spec fn fresh(members: Seq<(Seq<char>, Json)>) -> Seq<(Seq<char>, Seq<char>)>
    decreases members.len(),
{
    if members.len() == 0 {
        Seq::empty()
    } else {
        let before = fresh(members.drop_last());
        if table::names_of(before).contains(members.last().0) {
            before
        } else {
            before.push((members.last().0, json::type_of(members.last().1)))
        }
    }
}

/// The key occurrences that one record contributes; only objects have keys.
pub open spec fn record_keys(record: Json) -> Seq<(Seq<char>, Seq<char>)> {
    match record {
        Json::Object(members) => fresh(members),
        _ => Seq::empty(),
    }
}

/// The key occurrences of all records, in order.
pub open spec fn key_events(records: Seq<Json>) -> Seq<(Seq<char>, Seq<char>)>
    decreases records.len(),
{
    if records.len() == 0 {
        Seq::empty()
    } else {
        key_events(records.drop_last()) + record_keys(records.last())
    }
}

/// An object contributes no more key occurrences than it has members.
pub proof fn lemma_fresh_len(members: Seq<(Seq<char>, Json)>)
    ensures
        fresh(members).len() <= members.len(),
    decreases members.len(),
{
    if members.len() > 0 {
        lemma_fresh_len(members.drop_last());
    }
}

/// How often one top level object key showed up, and with what types.
#[derive(Debug, Clone)]
pub struct KeyStat {
    key: String,
    count: u64,
    types: Vec<(&'static str, u64)>,
}

impl View for KeyStat {
    type V = Entry;

    closed spec fn view(&self) -> Entry {
        Entry {
            name: self.key@,
            count: self.count as nat,
            types: table::tally_view(self.types@),
        }
    }
}

/// What the key statistics of a pass stand for.
pub open spec fn key_table(keys: Seq<KeyStat>) -> Seq<Entry> {
    keys.map_values(|stat: KeyStat| stat@)
}

impl KeyStat {
    /// The key name.
    pub fn key(&self) -> (r: &str)
        ensures
            r@ == self@.name,
    {
        self.key.as_str()
    }

    /// Number of top level objects that had this key.
    pub fn count(&self) -> (r: u64)
        ensures
            r == self@.count,
    {
        self.count
    }

    /// Value types seen under this key, in first-seen order.
    pub fn types(&self) -> (r: &[(&'static str, u64)])
        ensures
            table::tally_view(r@) == self@.types,
    {
        self.types.as_slice()
    }

    /// Share of top level objects that had this key.
    pub fn rate(&self, object_records: u64) -> (r: Ratio)
        ensures
            r@ == ratio::share(self@.count, object_records as nat),
    {
        Ratio::of(self.count, object_records)
    }
}

/// Counts one more object with the key `key`, whose value has the type `kind`.
pub fn record_key(
    keys: &mut Vec<KeyStat>,
    truncated: &mut bool,
    key: &str,
    kind: &'static str,
)
    requires
        table::table_within(key_table(old(keys)@), u64::MAX - 1),
    ensures
        key_table(final(keys)@) == table::enter(
            key_table(old(keys)@),
            MAX_KEYS as nat,
            key@,
            kind@,
        ),
        *final(truncated) == (*old(truncated) || (!table::entry_names(
            key_table(old(keys)@),
        ).contains(key@) && old(keys)@.len() >= MAX_KEYS)),
{
    let ghost before = key_table(keys@);
    let ghost names = table::entry_names(before);
    let mut i: usize = 0;
    while i < keys.len()
        invariant
            i <= keys@.len(),
            *keys == *old(keys),
            *truncated == *old(truncated),
            before == key_table(keys@),
            names == table::entry_names(before),
            table::table_within(before, u64::MAX - 1),
            forall|k: int| 0 <= k < i ==> names[k] != key@,
        decreases keys.len() - i,
    {
        assert(names[i as int] == keys@[i as int]@.name);
        if same(keys[i].key.as_str(), key) {
            proof {
                table::lemma_slot_found(names, key@, i as int);
                table::lemma_slot(names, key@);
                let stat = keys@[i as int];
                assert(before[i as int] == stat@);
                assert(before[i as int].count < u64::MAX);
                assert forall|k: int| 0 <= k < stat.types@.len() implies (
                #[trigger] stat.types@[k]).1 < u64::MAX by {
                    assert(before[i as int].types[k].1 <= u64::MAX - 1);
                }
            }
            let stat: &mut KeyStat = &mut keys[i];
            stat.count = stat.count + 1;
            record_type(&mut stat.types, kind);
            assert(key_table(keys@) =~= table::enter(before, MAX_KEYS as nat, key@, kind@));
            return;
        }
        i = i + 1;
    }
    proof {
        table::lemma_slot_found(names, key@, i as int);
        table::lemma_slot(names, key@);
    }
    if keys.len() >= MAX_KEYS {
        *truncated = true;
        return;
    }
    let mut types: Vec<(&'static str, u64)> = Vec::new();
    assert(table::tally_view(types@) =~= Seq::empty());
    record_type(&mut types, kind);
    let stat = KeyStat { key: key.to_string(), count: 1, types };
    keys.push(stat);
    assert(key_table(keys@) =~= table::enter(before, MAX_KEYS as nat, key@, kind@));
}

spec fn str_views(texts: Seq<&str>) -> Seq<Seq<char>> {
    texts.map_values(|one: &str| one@)
}

fn holds(texts: &Vec<&str>, one: &str) -> (r: bool)
    ensures
        r == str_views(texts@).contains(one@),
{
    let mut i: usize = 0;
    while i < texts.len()
        invariant
            i <= texts@.len(),
            forall|k: int| 0 <= k < i ==> str_views(texts@)[k] != one@,
        decreases texts.len() - i,
    {
        assert(str_views(texts@)[i as int] == texts@[i as int]@);
        if same(texts[i], one) {
            return true;
        }
        i = i + 1;
    }
    false
}

/// Counts one more object with the given members, each of its keys once.
pub fn record_object_keys(
    keys: &mut Vec<KeyStat>,
    truncated: &mut bool,
    members: &[(String, Value)],
)
    requires
        members@.len() <= u64::MAX,
        table::table_within(key_table(old(keys)@), u64::MAX - members@.len()),
    ensures
        key_table(final(keys)@) == table::enter_all(
            key_table(old(keys)@),
            MAX_KEYS as nat,
            fresh(json::member_views(members@)),
        ),
        *final(truncated) == (*old(truncated) || table::spills(
            key_table(old(keys)@),
            MAX_KEYS as nat,
            fresh(json::member_views(members@)),
        )),
{
    let ghost all = json::member_views(members@);
    let ghost before = key_table(keys@);
    let ghost room = u64::MAX - members@.len();
    let mut seen: Vec<&str> = Vec::new();
    let mut i: usize = 0;
    proof {
        assert(all.take(0) =~= Seq::empty());
        assert(str_views(seen@) =~= table::names_of(fresh(all.take(0))));
    }
    while i < members.len()
        invariant
            i <= members@.len() <= u64::MAX,
            all == json::member_views(members@),
            room == u64::MAX - members@.len(),
            str_views(seen@) == table::names_of(fresh(all.take(i as int))),
            table::table_within(key_table(keys@), room + i),
            key_table(keys@) == table::enter_all(
                before,
                MAX_KEYS as nat,
                fresh(all.take(i as int)),
            ),
            *truncated == (*old(truncated) || table::spills(
                before,
                MAX_KEYS as nat,
                fresh(all.take(i as int)),
            )),
        decreases members.len() - i,
    {
        let key: &str = members[i].0.as_str();
        let ghost done = fresh(all.take(i as int));
        proof {
            assert(all.take(i + 1).drop_last() =~= all.take(i as int));
            assert(all[i as int] == (members@[i as int].0@, members@[i as int].1@));
        }
        if holds(&seen, key) {
            i = i + 1;
            continue;
        }
        let ghost names = str_views(seen@);
        let ghost entries = key_table(keys@);
        seen.push(key);
        let kind: &'static str = members[i].1.kind_name();
        proof {
            table::lemma_enter_within(entries, MAX_KEYS as nat, key@, kind@, room + i);
        }
        record_key(keys, truncated, key, kind);
        proof {
            let next = done.push((key@, kind@));
            assert(fresh(all.take(i + 1)) == next);
            assert(next.drop_last() =~= done);
            assert(str_views(seen@) =~= names.push(key@));
            assert(table::names_of(next) =~= table::names_of(done).push(key@));
        }
        i = i + 1;
    }
    assert(all.take(i as int) =~= all);
}

} // verus!

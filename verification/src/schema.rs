//! Schema discovery: which paths exist across newline-delimited JSON, how
//! often, and with what types.
//!
//! [`Schema::from_reader`] walks every record up to a bounded depth and
//! reports, for each path it finds along the way (`meta.source`,
//! `messages[].role`, and so on), how many records contain it and what value
//! types show up there. An object key adds one level; so does fanning out
//! into an array with `[]`.

use vstd::prelude::*;

use crate::json;
use crate::json::Json;
use crate::json::Value;
use crate::lines;
use crate::lines::read_line;
use crate::lines::split_line;
use crate::lines::Content;
use crate::lines::Line;
use crate::ratio;
use crate::ratio::Ratio;
use crate::summary;
use crate::table;
use crate::table::record_type;
use crate::text;
use crate::text::compare;
use crate::text::same;
use crate::text::Order;
use crate::walk;
use crate::walk::PathEntry;
use crate::walk::MAX_PATHS;

verus! {

/// Options controlling a [`Schema::from_reader`] pass.
#[derive(Debug, Clone, Copy)]
pub struct SchemaOptions {
    /// Levels to descend. Each object key and each `[]` array fan-out counts
    /// as one level; a path deeper than this is dropped instead of walked.
    pub depth: usize,
    /// Hide paths present in fewer than this share of records.
    pub min_rate: Ratio,
}

impl Default for SchemaOptions {
    fn default() -> (r: Self)
        ensures
            r.depth == 3,
            r.min_rate == (Ratio { part: 0, whole: 1 }),
    {
        SchemaOptions { depth: 3, min_rate: Ratio { part: 0, whole: 1 } }
    }
}

/// How often one path showed up, and with what types.
#[derive(Debug, Clone)]
pub struct PathStat {
    path: String,
    present: u64,
    count: u64,
    types: Vec<(&'static str, u64)>,
    latest: u64,
}

impl View for PathStat {
    type V = PathEntry;

    closed spec fn view(&self) -> PathEntry {
        PathEntry {
            path: self.path@,
            present: self.present as nat,
            count: self.count as nat,
            types: table::tally_view(self.types@),
            latest: self.latest as nat,
        }
    }
}

/// What path statistics stand for.
pub open spec fn path_views(paths: Seq<PathStat>) -> Seq<PathEntry> {
    paths.map_values(|stat: PathStat| stat@)
}

impl PathStat {
    /// The path text, e.g. `messages[].role`.
    pub fn path(&self) -> (r: &str)
        ensures
            r@ == self@.path,
    {
        self.path.as_str()
    }

    /// Number of records containing at least one value at this path.
    pub fn present(&self) -> (r: u64)
        ensures
            r == self@.present,
    {
        self.present
    }

    /// Total number of values seen at this path, across all records (more
    /// than `present` for a path that fans out over an array).
    pub fn count(&self) -> (r: u64)
        ensures
            r == self@.count,
    {
        self.count
    }

    /// Value types seen at this path, in first-seen order.
    pub fn types(&self) -> (r: &[(&'static str, u64)])
        ensures
            table::tally_view(r@) == self@.types,
    {
        self.types.as_slice()
    }

    /// Share of records containing this path.
    pub fn rate(&self, records: u64) -> (r: Ratio)
        ensures
            r@ == ratio::share(self@.present, records as nat),
    {
        Ratio::of(self.present, records)
    }
}

/// Counts one more value at `path`, of the type `kind`, in the record
/// numbered `record`.
fn record_occurrence(
    paths: &mut Vec<PathStat>,
    truncated: &mut bool,
    path: &str,
    kind: &'static str,
    record: u64,
)
    requires
        walk::paths_within(path_views(old(paths)@), u64::MAX - 1),
    ensures
        path_views(final(paths)@) == walk::see(
            path_views(old(paths)@),
            path@,
            kind@,
            record as nat,
        ),
        *final(truncated) == (*old(truncated) || walk::missed(path_views(old(paths)@), path@)),
{
    let ghost before = path_views(paths@);
    let ghost names = walk::path_names(before);
    let mut i: usize = 0;
    while i < paths.len()
        invariant
            i <= paths@.len(),
            *paths == *old(paths),
            *truncated == *old(truncated),
            before == path_views(paths@),
            names == walk::path_names(before),
            walk::paths_within(before, u64::MAX - 1),
            forall|k: int| 0 <= k < i ==> names[k] != path@,
        decreases paths.len() - i,
    {
        assert(names[i as int] == paths@[i as int]@.path);
        if same(paths[i].path.as_str(), path) {
            proof {
                table::lemma_slot_found(names, path@, i as int);
                table::lemma_slot(names, path@);
                let stat = paths@[i as int];
                assert(before[i as int] == stat@);
                assert(before[i as int].count < u64::MAX);
                assert forall|k: int| 0 <= k < stat.types@.len() implies (
                #[trigger] stat.types@[k]).1 < u64::MAX by {
                    assert(before[i as int].types[k].1 <= u64::MAX - 1);
                }
            }
            let stat: &mut PathStat = &mut paths[i];
            if stat.latest != record {
                stat.present = stat.present + 1;
                stat.latest = record;
            }
            stat.count = stat.count + 1;
            record_type(&mut stat.types, kind);
            assert(path_views(paths@) =~= walk::see(before, path@, kind@, record as nat));
            return;
        }
        i = i + 1;
    }
    proof {
        table::lemma_slot_found(names, path@, i as int);
        table::lemma_slot(names, path@);
    }
    if paths.len() >= MAX_PATHS {
        *truncated = true;
        return;
    }
    let mut types: Vec<(&'static str, u64)> = Vec::new();
    assert(table::tally_view(types@) =~= Seq::empty());
    record_type(&mut types, kind);
    let stat = PathStat { path: path.to_string(), present: 1, count: 1, types, latest: record };
    paths.push(stat);
    assert(path_views(paths@) =~= walk::see(before, path@, kind@, record as nat));
}

proof fn lemma_members_grow(
    members: Seq<(Seq<char>, Json)>,
    prefix: Seq<char>,
    left: nat,
    i: int,
)
    requires
        0 <= i <= members.len(),
    ensures
        walk::visit_members(members.take(i), prefix, left).len() <= walk::visit_members(
            members,
            prefix,
            left,
        ).len(),
    decreases members.len(),
{
    if i < members.len() {
        lemma_members_grow(members.drop_last(), prefix, left, i);
        assert(members.drop_last().take(i) =~= members.take(i));
    } else {
        assert(members.take(i) =~= members);
    }
}

proof fn lemma_items_grow(items: Seq<Json>, path: Seq<char>, left: nat, i: int)
    requires
        0 <= i <= items.len(),
    ensures
        walk::visit_items(items.take(i), path, left).len() <= walk::visit_items(
            items,
            path,
            left,
        ).len(),
    decreases items.len(),
{
    if i < items.len() {
        lemma_items_grow(items.drop_last(), path, left, i);
        assert(items.drop_last().take(i) =~= items.take(i));
    } else {
        assert(items.take(i) =~= items);
    }
}

fn child_path(prefix: &str, key: &str) -> (r: String)
    ensures
        r@ == walk::member_path(prefix@, key@),
{
    if prefix.is_empty() {
        key.to_string()
    } else {
        let mut r = prefix.to_string();
        r.append(".");
        r.append(key);
        r
    }
}

/// Visits every member of an object at `prefix`, recording each one that is
/// within `max_depth` levels and recursing into the ones that are objects or
/// arrays and still have depth budget left.
fn walk_object(
    members: &[(String, Value)],
    prefix: &str,
    depth: usize,
    max_depth: usize,
    record: u64,
    paths: &mut Vec<PathStat>,
    truncated: &mut bool,
)
    requires
        depth <= max_depth,
        walk::paths_within(
            path_views(old(paths)@),
            u64::MAX - walk::visit(
                Json::Object(json::member_views(members@)),
                prefix@,
                (max_depth - depth) as nat,
            ).len(),
        ),
        walk::visit(
            Json::Object(json::member_views(members@)),
            prefix@,
            (max_depth - depth) as nat,
        ).len() <= u64::MAX,
    ensures
        path_views(final(paths)@) == walk::see_all(
            path_views(old(paths)@),
            walk::visit(
                Json::Object(json::member_views(members@)),
                prefix@,
                (max_depth - depth) as nat,
            ),
            record as nat,
        ),
        *final(truncated) == (*old(truncated) || walk::any_missed(
            path_views(old(paths)@),
            walk::visit(
                Json::Object(json::member_views(members@)),
                prefix@,
                (max_depth - depth) as nat,
            ),
            record as nat,
        )),
    decreases max_depth - depth,
{
    if depth >= max_depth {
        return;
    }
    let child_depth: usize = depth + 1;
    let ghost all = json::member_views(members@);
    let ghost left = (max_depth - child_depth) as nat;
    let ghost total = walk::visit_members(all, prefix@, left);
    let ghost start = path_views(paths@);
    let ghost room = u64::MAX - total.len();
    let mut i: usize = 0;
    assert(all.take(0) =~= Seq::empty());
    while i < members.len()
        invariant
            i <= members@.len(),
            depth < max_depth,
            child_depth == depth + 1,
            all == json::member_views(members@),
            left == max_depth - child_depth,
            total == walk::visit_members(all, prefix@, left),
            room == u64::MAX - total.len(),
            room >= 0,
            walk::paths_within(start, room),
            path_views(paths@) == walk::see_all(
                start,
                walk::visit_members(all.take(i as int), prefix@, left),
                record as nat,
            ),
            *truncated == (*old(truncated) || walk::any_missed(
                start,
                walk::visit_members(all.take(i as int), prefix@, left),
                record as nat,
            )),
        decreases members.len() - i,
    {
        let key: &str = members[i].0.as_str();
        let value: &Value = &members[i].1;
        let path = child_path(prefix, key);
        let kind: &'static str = value.kind_name();
        let ghost done = walk::visit_members(all.take(i as int), prefix@, left);
        let ghost one = done.push((path@, kind@));
        let ghost inner = walk::visit(value@, path@, left);
        proof {
            assert(all.take(i + 1).drop_last() =~= all.take(i as int));
            assert(all[i as int] == (key@, value@));
            assert(walk::visit_members(all.take(i + 1), prefix@, left) == one + inner);
            lemma_members_grow(all, prefix@, left, i + 1);
            assert(one.drop_last() =~= done);
            walk::lemma_see_all_within(start, done, record as nat, room);
            walk::lemma_see_all_within(start, one, record as nat, room);
            walk::lemma_paths_widen(
                walk::see_all(start, done, record as nat),
                room + done.len(),
                u64::MAX - 1,
            );
            walk::lemma_paths_widen(
                walk::see_all(start, one, record as nat),
                room + one.len(),
                u64::MAX - inner.len(),
            );
            walk::lemma_see_all_concat(start, one, inner, record as nat);
        }
        record_occurrence(paths, truncated, path.as_str(), kind, record);
        if child_depth < max_depth {
            match value {
                Value::Object(nested) => {
                    proof {
                        json::lemma_object_view(*nested);
                    }
                    walk_object(
                        nested.as_slice(),
                        path.as_str(),
                        child_depth,
                        max_depth,
                        record,
                        paths,
                        truncated,
                    );
                },
                Value::Array(nested) => {
                    proof {
                        json::lemma_array_view(*nested);
                    }
                    walk_array(
                        nested.as_slice(),
                        path.as_str(),
                        child_depth,
                        max_depth,
                        record,
                        paths,
                        truncated,
                    );
                },
                _ => {},
            }
        }
        i = i + 1;
    }
    assert(all.take(i as int) =~= all);
}

/// Visits every element of an array at `prefix` under the synthetic
/// `prefix[]` path, the same way `walk_object` visits object members.
fn walk_array(
    items: &[Value],
    prefix: &str,
    depth: usize,
    max_depth: usize,
    record: u64,
    paths: &mut Vec<PathStat>,
    truncated: &mut bool,
)
    requires
        depth <= max_depth,
        walk::paths_within(
            path_views(old(paths)@),
            u64::MAX - walk::visit(
                Json::Array(json::views(items@)),
                prefix@,
                (max_depth - depth) as nat,
            ).len(),
        ),
        walk::visit(
            Json::Array(json::views(items@)),
            prefix@,
            (max_depth - depth) as nat,
        ).len() <= u64::MAX,
    ensures
        path_views(final(paths)@) == walk::see_all(
            path_views(old(paths)@),
            walk::visit(
                Json::Array(json::views(items@)),
                prefix@,
                (max_depth - depth) as nat,
            ),
            record as nat,
        ),
        *final(truncated) == (*old(truncated) || walk::any_missed(
            path_views(old(paths)@),
            walk::visit(
                Json::Array(json::views(items@)),
                prefix@,
                (max_depth - depth) as nat,
            ),
            record as nat,
        )),
    decreases max_depth - depth,
{
    if depth >= max_depth {
        return;
    }
    let child_depth: usize = depth + 1;
    let mut path = prefix.to_string();
    path.append("[]");
    let ghost all = json::views(items@);
    let ghost left = (max_depth - child_depth) as nat;
    let ghost total = walk::visit_items(all, path@, left);
    let ghost start = path_views(paths@);
    let ghost room = u64::MAX - total.len();
    let mut i: usize = 0;
    assert(all.take(0) =~= Seq::empty());
    while i < items.len()
        invariant
            i <= items@.len(),
            depth < max_depth,
            child_depth == depth + 1,
            all == json::views(items@),
            left == max_depth - child_depth,
            total == walk::visit_items(all, path@, left),
            room == u64::MAX - total.len(),
            room >= 0,
            walk::paths_within(start, room),
            path_views(paths@) == walk::see_all(
                start,
                walk::visit_items(all.take(i as int), path@, left),
                record as nat,
            ),
            *truncated == (*old(truncated) || walk::any_missed(
                start,
                walk::visit_items(all.take(i as int), path@, left),
                record as nat,
            )),
        decreases items.len() - i,
    {
        let item: &Value = &items[i];
        let kind: &'static str = item.kind_name();
        let ghost done = walk::visit_items(all.take(i as int), path@, left);
        let ghost one = done.push((path@, kind@));
        let ghost inner = walk::visit(item@, path@, left);
        proof {
            assert(all.take(i + 1).drop_last() =~= all.take(i as int));
            assert(all[i as int] == item@);
            assert(walk::visit_items(all.take(i + 1), path@, left) == one + inner);
            lemma_items_grow(all, path@, left, i + 1);
            assert(one.drop_last() =~= done);
            walk::lemma_see_all_within(start, done, record as nat, room);
            walk::lemma_see_all_within(start, one, record as nat, room);
            walk::lemma_paths_widen(
                walk::see_all(start, done, record as nat),
                room + done.len(),
                u64::MAX - 1,
            );
            walk::lemma_paths_widen(
                walk::see_all(start, one, record as nat),
                room + one.len(),
                u64::MAX - inner.len(),
            );
            walk::lemma_see_all_concat(start, one, inner, record as nat);
        }
        record_occurrence(paths, truncated, path.as_str(), kind, record);
        if child_depth < max_depth {
            match item {
                Value::Object(nested) => {
                    proof {
                        json::lemma_object_view(*nested);
                    }
                    walk_object(
                        nested.as_slice(),
                        path.as_str(),
                        child_depth,
                        max_depth,
                        record,
                        paths,
                        truncated,
                    );
                },
                Value::Array(nested) => {
                    proof {
                        json::lemma_array_view(*nested);
                    }
                    walk_array(
                        nested.as_slice(),
                        path.as_str(),
                        child_depth,
                        max_depth,
                        record,
                        paths,
                        truncated,
                    );
                },
                _ => {},
            }
        }
        i = i + 1;
    }
    assert(all.take(i as int) =~= all);
}

/// What a walk over lines has found so far.
#[verifier::ext_equal]
pub struct Outline {
    /// Lines that hold a record.
    pub records: nat,
    /// Lines that are neither blank nor hold a record.
    pub skipped: nat,
    /// Bytes of all non-blank lines.
    pub bytes: nat,
    /// The paths found, in first-seen order.
    pub paths: Seq<PathEntry>,
    /// Whether the path table is incomplete.
    pub truncated: bool,
}

/// What a walk over lines finds.
pub open spec fn outline_of(lines: Seq<Seq<u8>>, depth: nat) -> Outline {
    let records = summary::records_of(lines);
    Outline {
        records: records.len(),
        skipped: summary::problems_of(lines).len(),
        bytes: summary::bytes_of(lines),
        paths: walk::path_table(records, depth),
        truncated: walk::paths_overflow(records, depth),
    }
}

/// What a walk has found after one more line.
pub open spec fn outline_after(outline: Outline, line: Seq<u8>, depth: nat) -> Outline {
    let sized = Outline { bytes: outline.bytes + line.len(), ..outline };
    match lines::content(line) {
        Content::Blank => outline,
        Content::Invalid { .. } => Outline { skipped: outline.skipped + 1, ..sized },
        Content::Record(record) => {
            let more = walk::record_visits(record, depth);
            let number = outline.records + 1;
            Outline {
                records: number,
                paths: walk::see_all(outline.paths, more, number),
                truncated: outline.truncated || walk::any_missed(outline.paths, more, number),
                ..sized
            }
        },
    }
}

/// What a walk has found after several more lines.
pub open spec fn outline_after_all(
    outline: Outline,
    more: Seq<Seq<u8>>,
    depth: nat,
) -> Outline
    decreases more.len(),
{
    if more.len() == 0 {
        outline
    } else {
        outline_after(outline_after_all(outline, more.drop_last(), depth), more.last(), depth)
    }
}

/// A walk over one more line continues where the walk over the others ended.
pub proof fn lemma_outline_push(lines: Seq<Seq<u8>>, line: Seq<u8>, depth: nat)
    ensures
        outline_of(lines.push(line), depth) == outline_after(
            outline_of(lines, depth),
            line,
            depth,
        ),
{
    let more = lines.push(line);
    assert(more.drop_last() =~= lines);
    assert(more.last() == line);
    if let Content::Record(record) = lines::content(line) {
        walk::lemma_path_table_push(summary::records_of(lines), depth, record);
    }
    assert(outline_of(more, depth) =~= outline_after(outline_of(lines, depth), line, depth));
}

/// A walk can be made in pieces: walking over some lines and then over more
/// finds what one walk over all of them finds.
pub proof fn law_walk_continues(first: Seq<Seq<u8>>, more: Seq<Seq<u8>>, depth: nat)
    ensures
        outline_of(first + more, depth) == outline_after_all(
            outline_of(first, depth),
            more,
            depth,
        ),
    decreases more.len(),
{
    if more.len() == 0 {
        assert(first + more =~= first);
    } else {
        let init = more.drop_last();
        law_walk_continues(first, init, depth);
        lemma_outline_push(first + init, more.last(), depth);
        assert(first + more =~= (first + init).push(more.last()));
    }
}

/// Whether `listed` are the paths of a table that are present in at least a
/// share `min` of the records, in alphabetical order.
pub open spec fn is_listing(
    listed: Seq<PathEntry>,
    paths: Seq<PathEntry>,
    records: nat,
    min: (nat, nat),
) -> bool {
    &&& text::alphabetical(walk::path_names(listed))
    &&& forall|p: PathEntry| #[trigger]
        listed.contains(p) <==> paths.contains(p) && ratio::at_least(
            ratio::share(p.present, records),
            min,
        )
}

/// What comes next in a table is none of the paths listed so far.
proof fn lemma_next_listed(
    all: Seq<PathEntry>,
    n: int,
    listed: Seq<PathEntry>,
    records: nat,
    min: (nat, nat),
)
    requires
        0 < n <= all.len(),
        walk::path_names(all).no_duplicates(),
        is_listing(listed, all.skip(n), records, min),
    ensures
        !walk::path_names(listed).contains(all[n - 1].path),
        forall|p: PathEntry| #[trigger]
            all.skip(n - 1).contains(p) <==> p == all[n - 1] || all.skip(n).contains(p),
{
    let names = walk::path_names(all);
    let one = all[n - 1];
    let wider = all.skip(n - 1);
    if walk::path_names(listed).contains(one.path) {
        let i = choose|i: int|
            0 <= i < listed.len() && walk::path_names(listed)[i] == one.path;
        assert(listed.contains(listed[i]));
        assert(all.skip(n).contains(listed[i]));
        let j = choose|j: int| 0 <= j < all.skip(n).len() && all.skip(n)[j] == listed[i];
        assert(names[n + j] == names[n - 1]);
    }
    assert forall|p: PathEntry| #[trigger]
        wider.contains(p) <==> p == one || all.skip(n).contains(p) by {
        if wider.contains(p) {
            let j = choose|j: int| 0 <= j < wider.len() && wider[j] == p;
            if j > 0 {
                assert(all.skip(n)[j - 1] == p);
            }
        }
        if all.skip(n).contains(p) {
            let j = choose|j: int| 0 <= j < all.skip(n).len() && all.skip(n)[j] == p;
            assert(wider[j + 1] == p);
        }
        assert(wider[0] == one);
    }
}

/// Puts one more path where it belongs in an alphabetical list.
fn enlist(listed: &mut Vec<PathStat>, stat: PathStat)
    requires
        text::alphabetical(walk::path_names(path_views(old(listed)@))),
        !walk::path_names(path_views(old(listed)@)).contains(stat@.path),
    ensures
        text::alphabetical(walk::path_names(path_views(final(listed)@))),
        forall|p: PathEntry| #[trigger]
            path_views(final(listed)@).contains(p) <==> path_views(old(listed)@).contains(p) || p
                == stat@,
{
    let ghost before = path_views(listed@);
    let ghost names = walk::path_names(before);
    let ghost one = stat@;
    let mut low: usize = 0;
    let mut high: usize = listed.len();
    while low < high
        invariant
            low <= high <= listed@.len(),
            *listed == *old(listed),
            before == path_views(listed@),
            names == walk::path_names(before),
            one == stat@,
            text::alphabetical(names),
            !names.contains(one.path),
            forall|i: int|
                0 <= i < low ==> text::order(#[trigger] names[i], one.path) == Order::Before,
            forall|i: int|
                high <= i < names.len() ==> text::order(#[trigger] names[i], one.path)
                    == Order::After,
        decreases high - low,
    {
        let mid: usize = low + (high - low) / 2;
        let ghost middle = names[mid as int];
        assert(middle == listed@[mid as int]@.path);
        proof {
            text::lemma_order_same(middle, one.path);
            text::lemma_order_swap(one.path, middle);
        }
        match compare(listed[mid].path.as_str(), stat.path.as_str()) {
            Order::Before => {
                assert forall|i: int| 0 <= i < mid + 1 implies text::order(
                    #[trigger] names[i],
                    one.path,
                ) == Order::Before by {
                    if i < mid {
                        assert(text::order(names[i], middle) == Order::Before);
                        text::lemma_order_transitive(names[i], middle, one.path);
                    }
                }
                low = mid + 1;
            },
            _ => {
                assert forall|i: int| mid <= i < names.len() implies text::order(
                    #[trigger] names[i],
                    one.path,
                ) == Order::After by {
                    if i > mid {
                        assert(text::order(middle, names[i]) == Order::Before);
                        text::lemma_order_transitive(one.path, middle, names[i]);
                        text::lemma_order_swap(one.path, names[i]);
                    }
                }
                high = mid;
            },
        }
    }
    listed.insert(low, stat);
    proof {
        let after = path_views(listed@);
        let more = walk::path_names(after);
        let at = low as int;
        assert(after =~= before.insert(at, one));
        assert(more =~= names.insert(at, one.path));
        assert forall|i: int, j: int|
            #![trigger more[i], more[j]]
            0 <= i < j < more.len() implies text::order(more[i], more[j]) == Order::Before by {
            let a = if i < at {
                i
            } else {
                i - 1
            };
            let b = if j < at {
                j
            } else {
                j - 1
            };
            if i == at {
                assert(more[j] == names[b]);
                text::lemma_order_swap(one.path, names[b]);
            } else if j == at {
                assert(more[i] == names[a]);
            } else {
                assert(more[i] == names[a] && more[j] == names[b]);
            }
        }
        assert forall|p: PathEntry| #[trigger]
            after.contains(p) <==> before.contains(p) || p == one by {
            if before.contains(p) {
                let i = choose|i: int| 0 <= i < before.len() && before[i] == p;
                assert(after[if i < at { i } else { i + 1 }] == p);
            }
            if after.contains(p) && p != one {
                let i = choose|i: int| 0 <= i < after.len() && after[i] == p;
                assert(before[if i < at { i } else { i - 1 }] == p);
            }
            assert(after[at] == one);
        }
    }
}

/// Result of one pass over newline-delimited JSON.
#[derive(Debug, Clone)]
pub struct Schema {
    /// Levels descended, as passed in [`SchemaOptions::depth`].
    pub depth: usize,
    /// Records that parsed and were walked.
    pub records: u64,
    /// Non-blank lines that did not parse, and so contributed no paths.
    /// Blank lines are skipped too but are not counted here.
    pub skipped: u64,
    /// Paths found, in alphabetical order.
    pub paths: Vec<PathStat>,
    /// True once the path table hit [`MAX_PATHS`] and stopped tracking new
    /// paths.
    pub truncated: bool,
}

impl Schema {
    /// Makes one pass over `data`, which holds newline-delimited JSON, walking
    /// every record up to `options.depth` levels deep and recording every path
    /// found.
    pub fn from_reader(data: &[u8], options: SchemaOptions) -> (r: Schema)
        requires
            data@.len() < usize::MAX,
        ensures
            r.depth == options.depth,
            ({
                let found = outline_of(lines::lines_of(data@), options.depth as nat);
                &&& r.records == found.records
                &&& r.skipped == found.skipped
                &&& r.truncated == found.truncated
                &&& is_listing(
                    path_views(r.paths@),
                    found.paths,
                    found.records,
                    options.min_rate@,
                )
            }),
    {
        let ghost all = lines::lines_of(data@);
        let mut scan = SchemaScan::new(options.depth);
        let mut rest: &[u8] = data;
        let ghost mut done: Seq<Seq<u8>> = Seq::empty();
        assert(all =~= done + lines::lines_of(rest@));
        while rest.len() > 0
            invariant
                data@.len() < usize::MAX,
                scan.wf(),
                scan.levels() == options.depth,
                scan.outline() == outline_of(done, options.depth as nat),
                all == done + lines::lines_of(rest@),
                scan.outline().records + scan.outline().skipped + rest@.len() <= data@.len(),
                scan.outline().bytes + rest@.len() <= data@.len(),
            decreases rest.len(),
        {
            let (line, after) = split_line(rest);
            proof {
                lemma_outline_push(done, line@, options.depth as nat);
                assert(done + lines::lines_of(rest@) =~= done.push(line@) + lines::lines_of(
                    after@,
                ));
                done = done.push(line@);
            }
            scan.record_line(line);
            rest = after;
        }
        assert(done + Seq::<Seq<u8>>::empty() =~= done);
        scan.finish(options.min_rate)
    }
}

/// A walk in progress.
#[derive(Debug, Clone)]
pub struct SchemaScan {
    depth: usize,
    records: u64,
    skipped: u64,
    bytes: u64,
    paths: Vec<PathStat>,
    truncated: bool,
}

impl SchemaScan {
    /// How many levels the walk descends.
    pub closed spec fn levels(&self) -> usize {
        self.depth
    }

    /// What the walk has found so far.
    pub closed spec fn outline(&self) -> Outline {
        Outline {
            records: self.records as nat,
            skipped: self.skipped as nat,
            bytes: self.bytes as nat,
            paths: path_views(self.paths@),
            truncated: self.truncated,
        }
    }

    /// What always holds: no path is listed twice, and no counter exceeds
    /// what was read.
    pub closed spec fn wf(&self) -> bool {
        &&& walk::paths_within(path_views(self.paths@), self.bytes as int)
        &&& walk::path_names(path_views(self.paths@)).no_duplicates()
    }

    /// The state before the first line.
    pub fn new(depth: usize) -> (r: SchemaScan)
        ensures
            r.wf(),
            r.levels() == depth,
            r.outline() == outline_of(Seq::empty(), depth as nat),
    {
        let r = SchemaScan {
            depth,
            records: 0,
            skipped: 0,
            bytes: 0,
            paths: Vec::new(),
            truncated: false,
        };
        proof {
            let seen = walk::visits(Seq::empty(), depth as nat);
            assert(table::names_of(seen) =~= Seq::empty());
            assert(table::distinct(table::names_of(seen)) =~= Seq::empty());
            assert(walk::path_table(Seq::empty(), depth as nat) =~= Seq::empty());
            assert(r.outline() =~= outline_of(Seq::empty(), depth as nat));
        }
        r
    }

    /// Records that parsed and were walked so far.
    pub fn records(&self) -> (r: u64)
        ensures
            r == self.outline().records,
    {
        self.records
    }

    /// Non-blank lines that did not parse so far.
    pub fn skipped(&self) -> (r: u64)
        ensures
            r == self.outline().skipped,
    {
        self.skipped
    }

    /// Bytes of all non-blank lines so far, line endings excluded.
    pub fn bytes(&self) -> (r: u64)
        ensures
            r == self.outline().bytes,
    {
        self.bytes
    }

    /// Continues the walk with one more line, given without its line ending.
    pub fn record_line(&mut self, line: &[u8])
        requires
            old(self).wf(),
            line@.len() < usize::MAX,
            old(self).outline().records < u64::MAX,
            old(self).outline().skipped < u64::MAX,
            old(self).outline().bytes + line@.len() <= u64::MAX,
        ensures
            final(self).wf(),
            final(self).levels() == old(self).levels(),
            final(self).outline() == outline_after(
                old(self).outline(),
                line@,
                old(self).levels() as nat,
            ),
    {
        let ghost start = path_views(self.paths@);
        let ghost was = self.bytes as int;
        match read_line(line) {
            Line::Blank => {},
            Line::Invalid { .. } => {
                self.skipped = self.skipped + 1;
                self.bytes = self.bytes + line.len() as u64;
                proof {
                    walk::lemma_paths_widen(start, was, self.bytes as int);
                }
            },
            Line::Record(value) => {
                self.records = self.records + 1;
                self.bytes = self.bytes + line.len() as u64;
                let ghost visited = walk::record_visits(value@, self.depth as nat);
                proof {
                    reveal_strlit("");
                    assert(""@ =~= Seq::empty());
                    walk::lemma_visit_len(value@, Seq::empty(), self.depth as nat);
                    walk::lemma_paths_widen(start, was, u64::MAX - visited.len());
                    walk::lemma_see_all_within(start, visited, self.records as nat, was);
                    walk::lemma_paths_widen(
                        walk::see_all(start, visited, self.records as nat),
                        was + visited.len(),
                        self.bytes as int,
                    );
                }
                match &value {
                    Value::Object(members) => {
                        proof {
                            json::lemma_object_view(*members);
                        }
                        walk_object(
                            members.as_slice(),
                            "",
                            0,
                            self.depth,
                            self.records,
                            &mut self.paths,
                            &mut self.truncated,
                        );
                    },
                    Value::Array(items) => {
                        proof {
                            json::lemma_array_view(*items);
                        }
                        walk_array(
                            items.as_slice(),
                            "",
                            0,
                            self.depth,
                            self.records,
                            &mut self.paths,
                            &mut self.truncated,
                        );
                    },
                    _ => {
                        assert(visited =~= Seq::empty());
                    },
                }
            },
        }
        assert(self.outline() =~= outline_after(
            old(self).outline(),
            line@,
            old(self).depth as nat,
        ));
    }

    /// Ends the walk: keeps the paths that are present in at least a share
    /// `min_rate` of the records, and puts them in alphabetical order.
    pub fn finish(self, min_rate: Ratio) -> (r: Schema)
        requires
            self.wf(),
        ensures
            r.depth == self.levels(),
            r.records == self.outline().records,
            r.skipped == self.outline().skipped,
            r.truncated == self.outline().truncated,
            is_listing(
                path_views(r.paths@),
                self.outline().paths,
                self.outline().records,
                min_rate@,
            ),
    {
        let depth: usize = self.depth;
        let records: u64 = self.records;
        let skipped: u64 = self.skipped;
        let truncated: bool = self.truncated;
        let mut paths: Vec<PathStat> = self.paths;
        let ghost all = path_views(paths@);
        let ghost names = walk::path_names(all);
        let mut listed: Vec<PathStat> = Vec::new();
        proof {
            assert(path_views(paths@) =~= all.take(all.len() as int));
            assert(all.skip(all.len() as int) =~= Seq::empty());
            assert(walk::path_names(path_views(listed@)) =~= Seq::empty());
            assert(is_listing(
                path_views(listed@),
                all.skip(all.len() as int),
                records as nat,
                min_rate@,
            ));
        }
        while paths.len() > 0
            invariant
                paths@.len() <= all.len(),
                path_views(paths@) == all.take(paths@.len() as int),
                names == walk::path_names(all),
                names.no_duplicates(),
                is_listing(
                    path_views(listed@),
                    all.skip(paths@.len() as int),
                    records as nat,
                    min_rate@,
                ),
            decreases paths.len(),
        {
            let ghost n = paths@.len() as int;
            let ghost before = path_views(listed@);
            let ghost rest = all.skip(n);
            match paths.pop() {
                Some(stat) => {
                    let ghost one = stat@;
                    let keep: bool = stat.rate(records).at_least(min_rate);
                    proof {
                        assert(all.take(n)[n - 1] == one);
                        assert(path_views(paths@) =~= all.take(n - 1));
                        lemma_next_listed(all, n, before, records as nat, min_rate@);
                    }
                    if keep {
                        enlist(&mut listed, stat);
                    }
                    proof {
                        assert forall|p: PathEntry| #[trigger]
                            path_views(listed@).contains(p) <==> all.skip(n - 1).contains(p)
                                && ratio::at_least(
                                ratio::share(p.present, records as nat),
                                min_rate@,
                            ) by {
                            assert(before.contains(p) <==> rest.contains(p) && ratio::at_least(
                                ratio::share(p.present, records as nat),
                                min_rate@,
                            ));
                        }
                    }
                },
                None => {},
            }
        }
        assert(all.skip(0) =~= all);
        Schema { depth, records, skipped, paths: listed, truncated }
    }
}

} // verus!

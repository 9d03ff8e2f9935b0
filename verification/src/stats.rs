//! File level statistics: counts, top level key profiling, line length
//! distribution and field value distributions.
//!
//! [`Stats::from_reader`] makes one pass over newline-delimited JSON and
//! returns everything a statistics report shows: how many lines parsed, what
//! the top level keys and their types look like, the distribution of line
//! lengths, and, for any [`FieldPath`]s passed in, how often each is present
//! and what values it takes.

use vstd::prelude::*;

use crate::field;
use crate::field::FieldStats;
use crate::field::Profile;
use crate::hist;
use crate::hist::Histogram;
use crate::json;
use crate::json::Value;
use crate::keys;
use crate::keys::record_object_keys;
use crate::keys::KeyStat;
use crate::lines;
use crate::lines::read_line;
use crate::lines::split_line;
use crate::lines::Line;
use crate::path;
use crate::path::FieldPath;
use crate::path::Step;
use crate::summary;
use crate::summary::Problem;
use crate::summary::Summary;
use crate::table;
use crate::table::record_type;

verus! {

/// Options controlling a [`Stats::from_reader`] pass.
#[derive(Debug, Clone)]
pub struct StatsOptions {
    /// Field paths to profile.
    pub fields: Vec<FieldPath>,
    /// Distinct values kept and reported per field, most common first.
    pub top: usize,
    /// Broken lines recorded in `issues` before further ones are dropped
    /// (the `invalid` count keeps growing regardless).
    pub max_errors: usize,
}

impl Default for StatsOptions {
    fn default() -> (r: Self)
        ensures
            r.fields@.len() == 0,
            r.top == 10,
            r.max_errors == 10,
    {
        StatsOptions { fields: Vec::new(), top: 10, max_errors: 10 }
    }
}

/// One broken line: where it is and why it did not parse.
#[derive(Debug, Clone, PartialEq, Eq)]
pub struct Issue {
    /// 1-based line number.
    pub line: u64,
    /// 1-based byte column inside the line where the problem was found.
    pub column: usize,
    /// Human readable reason, e.g. `"unexpected ','"`.
    pub reason: String,
}

impl View for Issue {
    type V = Problem;

    open spec fn view(&self) -> Problem {
        Problem { line: self.line as nat, column: self.column as nat, reason: self.reason@ }
    }
}

/// What reported issues stand for.
pub open spec fn problems(issues: Seq<Issue>) -> Seq<Problem> {
    issues.map_values(|issue: Issue| issue@)
}

/// The steps of field paths.
pub open spec fn path_list(paths: Seq<FieldPath>) -> Seq<Seq<Step>> {
    paths.map_values(|path: FieldPath| path.steps())
}

/// The texts of field paths.
pub open spec fn path_texts(paths: Seq<FieldPath>) -> Seq<Seq<char>> {
    paths.map_values(|path: FieldPath| path.text())
}

/// The distributions of profiled fields.
pub open spec fn profiles(fields: Seq<FieldStats>) -> Seq<Profile> {
    fields.map_values(|field: FieldStats| field.profile())
}

/// Result of one pass over newline-delimited JSON.
#[derive(Debug, Clone)]
pub struct Stats {
    /// Total lines read, blank and non-blank.
    pub lines: u64,
    /// Lines that were blank (whitespace only) and so were skipped.
    pub blank: u64,
    /// Lines that parsed as a JSON value.
    pub valid: u64,
    /// Non-blank lines that were not valid UTF-8 or not valid JSON.
    pub invalid: u64,
    /// Total bytes across non-blank lines, line endings excluded.
    pub bytes: u64,
    /// Valid records whose top level value was an object; the denominator
    /// for [`KeyStat::rate`].
    pub object_records: u64,
    /// Top level value types, in first-seen order.
    pub top_level: Vec<(&'static str, u64)>,
    /// Distribution of line lengths in bytes.
    pub line_length: Histogram,
    /// Top level object keys, in first-seen order.
    pub keys: Vec<KeyStat>,
    /// True once the key table hit [`keys::MAX_KEYS`] and stopped tracking new
    /// keys.
    pub keys_truncated: bool,
    /// One entry per field passed in [`StatsOptions::fields`], same order.
    pub fields: Vec<FieldStats>,
    /// Broken lines, most recent last, capped at
    /// [`StatsOptions::max_errors`].
    pub issues: Vec<Issue>,
}

impl Stats {
    /// What the pass found.
    pub open spec fn summary(&self) -> Summary {
        Summary {
            lines: self.lines as nat,
            blank: self.blank as nat,
            valid: self.valid as nat,
            invalid: self.invalid as nat,
            bytes: self.bytes as nat,
            object_records: self.object_records as nat,
            top_level: table::tally_view(self.top_level@),
            lengths: self.line_length@.to_multiset(),
            keys: keys::key_table(self.keys@),
            keys_truncated: self.keys_truncated,
            fields: profiles(self.fields@),
            issues: problems(self.issues@),
        }
    }

    /// What the pass found is what the fields hold.
    pub proof fn law_fields_hold_what_was_found(&self, i: int)
        ensures
            self.lines == self.summary().lines,
            self.blank == self.summary().blank,
            self.valid == self.summary().valid,
            self.invalid == self.summary().invalid,
            self.bytes == self.summary().bytes,
            self.object_records == self.summary().object_records,
            self.keys_truncated == self.summary().keys_truncated,
            self.line_length@.to_multiset() == self.summary().lengths,
            self.top_level@.len() == self.summary().top_level.len(),
            0 <= i < self.top_level@.len() ==> self.top_level@[i].0@
                == self.summary().top_level[i].0 && self.top_level@[i].1
                == self.summary().top_level[i].1,
            self.keys@.len() == self.summary().keys.len(),
            0 <= i < self.keys@.len() ==> self.keys@[i]@ == self.summary().keys[i],
            self.fields@.len() == self.summary().fields.len(),
            0 <= i < self.fields@.len() ==> self.fields@[i].profile() == self.summary().fields[i],
            self.issues@.len() == self.summary().issues.len(),
            0 <= i < self.issues@.len() ==> self.issues@[i].line == self.summary().issues[i].line
                && self.issues@[i].column == self.summary().issues[i].column
                && self.issues@[i].reason@ == self.summary().issues[i].reason,
    {
    }

    /// The steps of the profiled paths.
    pub open spec fn paths(&self) -> Seq<Seq<Step>> {
        self.fields@.map_values(|field: FieldStats| field.steps())
    }

    /// The texts of the profiled paths.
    pub open spec fn texts(&self) -> Seq<Seq<char>> {
        self.fields@.map_values(|field: FieldStats| field.path_text())
    }

    /// What always holds: the line lengths are those of the non-blank lines,
    /// and no counter exceeds what was read.
    pub open spec fn wf(&self) -> bool {
        &&& self.line_length.wf()
        &&& self.line_length@.len() == self.lines - self.blank
        &&& hist::total(self.line_length@) == self.bytes
        &&& forall|i: int| 0 <= i < self.fields@.len() ==> (#[trigger] self.fields@[i]).wf()
        &&& summary::bounded(self.summary())
    }

    /// The state before the first line.
    pub fn new(fields: &[FieldPath]) -> (r: Stats)
        ensures
            r.wf(),
            r.paths() == path_list(fields@),
            r.texts() == path_texts(fields@),
            r.summary() == summary::nothing(path_list(fields@)),
    {
        let mut profiled: Vec<FieldStats> = Vec::new();
        let mut i: usize = 0;
        while i < fields.len()
            invariant
                i <= fields@.len(),
                profiled@.len() == i,
                forall|k: int|
                    0 <= k < i ==> (#[trigger] profiled@[k]).wf() && profiled@[k].steps()
                        == fields@[k].steps() && profiled@[k].path_text() == fields@[k].text()
                        && profiled@[k].profile() == field::profile_of(0, Seq::empty()),
            decreases fields.len() - i,
        {
            profiled.push(FieldStats::new(fields[i].clone()));
            i = i + 1;
        }
        let r = Stats {
            lines: 0,
            blank: 0,
            valid: 0,
            invalid: 0,
            bytes: 0,
            object_records: 0,
            top_level: Vec::new(),
            line_length: Histogram::new(),
            keys: Vec::new(),
            keys_truncated: false,
            fields: profiled,
            issues: Vec::new(),
        };
        proof {
            broadcast use vstd::seq_lib::group_to_multiset_ensures;

            assert(r.paths() =~= path_list(fields@));
            assert(r.texts() =~= path_texts(fields@));
            assert(r.summary().lengths =~= summary::nothing(r.paths()).lengths);
            assert(r.summary() =~= summary::nothing(r.paths()));
            assert forall|k: int| 0 <= k < r.summary().fields.len() implies (
            #[trigger] r.summary().fields[k]).present <= r.summary().valid
                && field::profile_within(r.summary().fields[k], r.summary().bytes as int) by {
                field::lemma_profile_within(0, Seq::empty());
            }
        }
        r
    }

    fn measure(&mut self, length: usize)
        requires
            old(self).line_length.wf(),
            old(self).line_length@.len() < u64::MAX,
            hist::total(old(self).line_length@) == old(self).bytes,
            old(self).bytes + length <= u64::MAX,
        ensures
            final(self).line_length.wf(),
            final(self).line_length@.len() == old(self).line_length@.len() + 1,
            final(self).line_length@.to_multiset() == old(self).line_length@.to_multiset().insert(
                length as u64,
            ),
            hist::total(final(self).line_length@) == final(self).bytes,
            final(self).bytes == old(self).bytes + length,
            *final(self) == (Stats {
                bytes: final(self).bytes,
                line_length: final(self).line_length,
                ..*old(self)
            }),
    {
        self.bytes = self.bytes + length as u64;
        self.line_length.record(length as u64);
    }

    fn record_problem(&mut self, column: usize, reason: String, max_errors: usize)
        requires
            old(self).invalid < u64::MAX,
        ensures
            final(self).summary() == summary::with_problem(
                old(self).summary(),
                column as nat,
                reason@,
                max_errors as nat,
            ),
            final(self).line_length == old(self).line_length,
            final(self).fields == old(self).fields,
    {
        let ghost before = problems(self.issues@);
        self.invalid = self.invalid + 1;
        if self.issues.len() < max_errors {
            let issue = Issue { line: self.lines, column, reason };
            self.issues.push(issue);
            assert(problems(self.issues@) =~= before.push(issue@));
        }
        assert(self.summary() =~= summary::with_problem(
            old(self).summary(),
            column as nat,
            reason@,
            max_errors as nat,
        ));
    }

    fn record_value(&mut self, value: &Value)
        requires
            json::is_plain(value@),
            json::nodes(value@) <= u64::MAX,
            old(self).valid < u64::MAX,
            old(self).object_records <= old(self).valid,
            table::tally_within(old(self).summary().top_level, old(self).valid as int),
            table::table_within(old(self).summary().keys, u64::MAX - json::nodes(value@)),
            forall|i: int|
                0 <= i < old(self).fields@.len() ==> (#[trigger] old(self).fields@[i]).wf()
                    && old(self).fields@[i].profile().present < u64::MAX && field::profile_within(
                    old(self).fields@[i].profile(),
                    u64::MAX - json::nodes(value@),
                ),
        ensures
            final(self).summary() == summary::with_record(
                old(self).summary(),
                value@,
                old(self).paths(),
            ),
            final(self).paths() == old(self).paths(),
            final(self).texts() == old(self).texts(),
            final(self).line_length == old(self).line_length,
            forall|i: int|
                0 <= i < final(self).fields@.len() ==> (#[trigger] final(self).fields@[i]).wf(),
    {
        let ghost start = *self;
        let ghost more = keys::record_keys(value@);
        proof {
            assert forall|k: int| 0 <= k < self.top_level@.len() implies (
            #[trigger] self.top_level@[k]).1 < u64::MAX by {
                assert(self.summary().top_level[k].1 <= self.valid);
            }
        }
        self.valid = self.valid + 1;
        record_type(&mut self.top_level, value.kind_name());
        match value.as_object() {
            Some(members) => {
                proof {
                    let all = json::member_views(members@);
                    json::lemma_member_nodes_len(all);
                    assert(json::nodes(value@) == 1 + json::member_nodes(all));
                    table::lemma_table_widen(
                        start.summary().keys,
                        u64::MAX - json::nodes(value@),
                        u64::MAX - members@.len(),
                    );
                }
                self.object_records = self.object_records + 1;
                record_object_keys(&mut self.keys, &mut self.keys_truncated, members);
            },
            None => {
                assert(more =~= Seq::empty());
            },
        }
        let ghost keyed = *self;
        let mut i: usize = 0;
        while i < self.fields.len()
            invariant
                i <= self.fields@.len(),
                self.fields@.len() == start.fields@.len(),
                *self == (Stats { fields: self.fields, ..keyed }),
                json::is_plain(value@),
                json::nodes(value@) <= u64::MAX,
                forall|k: int|
                    0 <= k < start.fields@.len() ==> (#[trigger] start.fields@[k]).wf()
                        && start.fields@[k].profile().present < u64::MAX && field::profile_within(
                        start.fields@[k].profile(),
                        u64::MAX - json::nodes(value@),
                    ),
                forall|k: int|
                    0 <= k < i ==> (#[trigger] self.fields@[k]).wf() && self.fields@[k].steps()
                        == start.fields@[k].steps() && self.fields@[k].path_text()
                        == start.fields@[k].path_text() && self.fields@[k].profile()
                        == field::after_record(
                        start.fields@[k].profile(),
                        value@,
                        start.fields@[k].steps(),
                    ),
                forall|k: int|
                    i <= k < start.fields@.len() ==> #[trigger] self.fields@[k]
                        == start.fields@[k],
            decreases self.fields.len() - i,
        {
            assert(self.fields@[i as int] == start.fields@[i as int]);
            proof {
                let one = start.fields@[i as int];
                field::lemma_selected_count(value@, one.steps());
                field::lemma_profile_widen(
                    one.profile(),
                    u64::MAX - json::nodes(value@),
                    u64::MAX - path::selected(seq![value@], one.steps()).len(),
                );
            }
            self.fields[i].record(value);
            i = i + 1;
        }
        assert(self.paths() =~= start.paths());
        assert(self.texts() =~= start.texts());
        assert(profiles(self.fields@) =~= summary::fields_after(
            profiles(start.fields@),
            value@,
            start.paths(),
        ));
        assert(self.summary() =~= summary::with_record(start.summary(), value@, start.paths()));
    }

    /// Continues the pass with one more line of `length` bytes that was read
    /// already.
    pub fn record_content(&mut self, content: Line, length: usize, max_errors: usize)
        requires
            old(self).wf(),
            old(self).lines < u64::MAX,
            old(self).bytes + length <= u64::MAX,
            content matches Line::Record(value) ==> json::is_plain(value@) && json::nodes(value@)
                <= length,
        ensures
            final(self).wf(),
            final(self).paths() == old(self).paths(),
            final(self).texts() == old(self).texts(),
            final(self).summary() == summary::after_content(
                old(self).summary(),
                content@,
                length as nat,
                old(self).paths(),
                max_errors as nat,
            ),
    {
        let ghost start = *self;
        let ghost before = self.summary();
        let ghost after = summary::after_content(
            before,
            content@,
            length as nat,
            start.paths(),
            max_errors as nat,
        );
        proof {
            assert(before.fields.len() == start.paths().len());
            summary::lemma_bounded_step(
                before,
                content@,
                length as nat,
                start.paths(),
                max_errors as nat,
            );
        }
        self.lines = self.lines + 1;
        match content {
            Line::Blank => {
                self.blank = self.blank + 1;
                assert(self.summary() =~= after);
            },
            Line::Invalid { column, reason } => {
                self.measure(length);
                self.record_problem(column, reason, max_errors);
                assert(self.summary() =~= after);
            },
            Line::Record(value) => {
                self.measure(length);
                proof {
                    let room = u64::MAX - json::nodes(value@);
                    table::lemma_table_widen(before.keys, before.bytes as int, room);
                    assert forall|i: int| 0 <= i < self.fields@.len() implies (
                    #[trigger] self.fields@[i]).wf() && self.fields@[i].profile().present
                        < u64::MAX && field::profile_within(self.fields@[i].profile(), room) by {
                        assert(start.fields@[i].wf());
                        assert(before.fields[i] == start.fields@[i].profile());
                        assert(before.fields[i].present <= before.valid);
                        field::lemma_profile_widen(before.fields[i], before.bytes as int, room);
                    }
                }
                self.record_value(&value);
                assert(self.summary() =~= after);
            },
        }
    }

    /// Continues the pass with one more line, given without its line ending.
    pub fn record_line(&mut self, line: &[u8], max_errors: usize)
        requires
            old(self).wf(),
            line@.len() < usize::MAX,
            old(self).lines < u64::MAX,
            old(self).bytes + line@.len() <= u64::MAX,
        ensures
            final(self).wf(),
            final(self).paths() == old(self).paths(),
            final(self).texts() == old(self).texts(),
            final(self).summary() == summary::after_line(
                old(self).summary(),
                line@,
                old(self).paths(),
                max_errors as nat,
            ),
    {
        self.record_content(read_line(line), line.len(), max_errors);
    }

    /// Makes one pass over `data`, which holds newline-delimited JSON.
    pub fn from_reader(data: &[u8], options: StatsOptions) -> (r: Stats)
        requires
            data@.len() < usize::MAX,
        ensures
            r.wf(),
            r.paths() == path_list(options.fields@),
            r.texts() == path_texts(options.fields@),
            r.summary() == summary::summary_of(
                lines::lines_of(data@),
                path_list(options.fields@),
                options.max_errors as nat,
            ),
    {
        let ghost paths = path_list(options.fields@);
        let ghost all = lines::lines_of(data@);
        let mut stats = Stats::new(options.fields.as_slice());
        let mut rest: &[u8] = data;
        let ghost mut done: Seq<Seq<u8>> = Seq::empty();
        proof {
            assert(all =~= done + lines::lines_of(rest@));
            summary::lemma_no_lines(paths, options.max_errors as nat);
        }
        while rest.len() > 0
            invariant
                data@.len() < usize::MAX,
                stats.wf(),
                paths == path_list(options.fields@),
                stats.paths() == paths,
                stats.texts() == path_texts(options.fields@),
                stats.summary() == summary::summary_of(done, paths, options.max_errors as nat),
                all == done + lines::lines_of(rest@),
                stats.lines + rest@.len() <= data@.len(),
                stats.bytes + rest@.len() <= data@.len(),
            decreases rest.len(),
        {
            let (line, after) = split_line(rest);
            proof {
                summary::lemma_summary_push(done, line@, paths, options.max_errors as nat);
                assert(done + lines::lines_of(rest@) =~= done.push(line@) + lines::lines_of(
                    after@,
                ));
                done = done.push(line@);
            }
            stats.record_line(line, options.max_errors);
            rest = after;
        }
        assert(done + Seq::<Seq<u8>>::empty() =~= done);
        stats
    }
}

} // verus!

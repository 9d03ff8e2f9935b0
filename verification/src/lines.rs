//! Lines: how a byte stream splits into lines, and what one line holds.

use vstd::prelude::*;
use vstd::utf8;

use crate::grammar;
use crate::grammar::parse;
use crate::json;
use crate::json::Json;
use crate::json::Value;
use crate::syntax;

verus! {

/// The first position from `i` on that holds a newline, or the length if none
/// does.
pub open spec fn newline_from(data: Seq<u8>, i: int) -> int
    decreases data.len() - i,
{
    if 0 <= i < data.len() && data[i] != 10 {
        newline_from(data, i + 1)
    } else {
        i
    }
}

/// The first line of a text, without its line ending. A line ends with a
/// newline, which a carriage return may precede; the last line may have no
/// ending.
pub open spec fn first_line(data: Seq<u8>) -> Seq<u8> {
    let end = newline_from(data, 0);
    if 0 < end < data.len() && data[end - 1] == 13 {
        data.take(end - 1)
    } else {
        data.take(end)
    }
}

/// What follows the first line.
pub open spec fn after_first_line(data: Seq<u8>) -> Seq<u8> {
    let end = newline_from(data, 0);
    if end < data.len() {
        data.skip(end + 1)
    } else {
        Seq::empty()
    }
}

/// A newline is looked for from the start on and inside the text.
pub proof fn lemma_newline_from(data: Seq<u8>, i: int)
    requires
        0 <= i <= data.len(),
    ensures
        i <= newline_from(data, i) <= data.len(),
    decreases data.len() - i,
{
    if i < data.len() && data[i] != 10 {
        lemma_newline_from(data, i + 1);
    }
}

/// The lines of a text, without their line endings.
pub open spec fn lines_of(data: Seq<u8>) -> Seq<Seq<u8>>
    decreases data.len(),
{
    if data.len() == 0 {
        Seq::empty()
    } else {
        proof {
            lemma_newline_from(data, 0);
        }
        seq![first_line(data)] + lines_of(after_first_line(data))
    }
}

proof fn lemma_newline_in_prefix(a: Seq<u8>, b: Seq<u8>, i: int)
    requires
        0 <= i < a.len(),
        a.last() == 10,
    ensures
        newline_from(a + b, i) == newline_from(a, i),
        newline_from(a, i) < a.len(),
        a[newline_from(a, i)] == 10,
    decreases a.len() - i,
{
    if a[i] != 10 {
        lemma_newline_in_prefix(a, b, i + 1);
    }
}

/// Texts that follow one another have the lines of the one and then those of
/// the other, if the first ends with a newline or is empty.
pub proof fn law_lines_of_joined_texts(a: Seq<u8>, b: Seq<u8>)
    requires
        a.len() > 0 ==> a.last() == 10,
    ensures
        lines_of(a + b) == lines_of(a) + lines_of(b),
    decreases a.len(),
{
    if a.len() == 0 {
        assert(a + b =~= b);
        assert(lines_of(a) + lines_of(b) =~= lines_of(b));
    } else {
        let all = a + b;
        lemma_newline_in_prefix(a, b, 0);
        lemma_newline_from(a, 0);
        let end = newline_from(a, 0);
        let rest = a.skip(end + 1);
        assert(all.take(end) =~= a.take(end));
        if end > 0 {
            assert(all.take(end - 1) =~= a.take(end - 1));
        }
        assert(first_line(all) == first_line(a));
        assert(all.skip(end + 1) =~= rest + b);
        if rest.len() > 0 {
            assert(rest.last() == a.last());
        }
        law_lines_of_joined_texts(rest, b);
        assert(lines_of(all) =~= lines_of(a) + lines_of(b));
    }
}

proof fn lemma_no_newline_before(data: Seq<u8>, i: int, k: int)
    requires
        0 <= i <= k < newline_from(data, i),
    ensures
        data[k] != 10,
    decreases data.len() - i,
{
    if 0 <= i < data.len() && data[i] != 10 && i < k {
        lemma_no_newline_before(data, i + 1, k);
    }
}

/// No line holds a newline.
pub proof fn law_lines_hold_no_newline(data: Seq<u8>)
    ensures
        forall|i: int, k: int|
            0 <= i < lines_of(data).len() && 0 <= k < lines_of(data)[i].len()
                ==> #[trigger] lines_of(data)[i][k] != 10,
    decreases data.len(),
{
    if data.len() > 0 {
        lemma_newline_from(data, 0);
        let rest = after_first_line(data);
        law_lines_hold_no_newline(rest);
        assert forall|i: int, k: int|
            0 <= i < lines_of(data).len() && 0 <= k < lines_of(data)[i].len() implies
            #[trigger] lines_of(data)[i][k] != 10 by {
            if i == 0 {
                assert(lines_of(data)[0] == first_line(data));
                lemma_no_newline_before(data, 0, k);
            } else {
                assert(lines_of(data)[i] == lines_of(rest)[i - 1]);
                assert(lines_of(rest)[i - 1][k] != 10);
            }
        }
    }
}

/// A newline ends a line, and so does a carriage return followed by one; neither
/// belongs to the line. What follows the last newline is a line too, if there is
/// something.
pub proof fn law_lines_end_at_newlines(line: Seq<u8>, rest: Seq<u8>)
    requires
        forall|i: int| 0 <= i < line.len() ==> (#[trigger] line[i]) != 10,
    ensures
        lines_of(line + seq![13u8, 10u8] + rest) == seq![line] + lines_of(rest),
        line.len() == 0 || line.last() != 13 ==> lines_of(line + seq![10u8] + rest) == seq![line]
            + lines_of(rest),
        line.len() > 0 ==> lines_of(line) == seq![line],
        lines_of(Seq::empty()).len() == 0,
{
    let n = line.len() as int;
    let a = line + seq![10u8] + rest;
    lemma_newline_at(a, 0, n);
    assert(a.take(n) =~= line);
    assert(a.skip(n + 1) =~= rest);
    if n > 0 {
        assert(a[n - 1] == line.last());
    }
    let b = line + seq![13u8, 10u8] + rest;
    lemma_newline_at(b, 0, n + 1);
    assert(b.take(n) =~= line);
    assert(b.skip(n + 2) =~= rest);
    assert(b[n] == 13);
    lemma_newline_at(line, 0, n);
    assert(line.take(n) =~= line);
    if n > 0 {
        assert(first_line(line) == line);
        assert(lines_of(after_first_line(line)) =~= Seq::empty());
        assert(lines_of(line) =~= seq![line]);
    }
}

proof fn lemma_newline_at(data: Seq<u8>, i: int, at: int)
    requires
        0 <= i <= at <= data.len(),
        at < data.len() ==> data[at] == 10,
        forall|k: int| i <= k < at ==> (#[trigger] data[k]) != 10,
    ensures
        newline_from(data, i) == at,
    decreases at - i,
{
    if i < at {
        assert(data[i] != 10);
        lemma_newline_at(data, i + 1, at);
    }
}

/// Splits a text after its first line.
pub fn split_line(data: &[u8]) -> (r: (&[u8], &[u8]))
    requires
        data@.len() > 0,
    ensures
        r.0@ == first_line(data@),
        r.1@ == after_first_line(data@),
        r.0@.len() + r.1@.len() <= data@.len(),
        r.1@.len() < data@.len(),
{
    let mut end: usize = 0;
    while end < data.len() && data[end] != 10
        invariant
            end <= data@.len(),
            newline_from(data@, 0) == newline_from(data@, end as int),
        decreases data.len() - end,
    {
        end = end + 1;
    }
    let line_end: usize = if 0 < end && end < data.len() && data[end - 1] == 13 {
        end - 1
    } else {
        end
    };
    let line: &[u8] = vstd::slice::slice_subrange(data, 0, line_end);
    let rest: &[u8] = if end < data.len() {
        vstd::slice::slice_subrange(data, end + 1, data.len())
    } else {
        vstd::slice::slice_subrange(data, end, end)
    };
    assert(line@ =~= first_line(data@));
    assert(rest@ =~= after_first_line(data@));
    (line, rest)
}

/// Whether a byte is ASCII white space.
pub open spec fn is_space(b: u8) -> bool {
    b == 9 || b == 10 || b == 12 || b == 13 || b == 32
}

/// Whether a line holds white space only.
pub open spec fn blank(line: Seq<u8>) -> bool {
    forall|i: int| 0 <= i < line.len() ==> is_space(#[trigger] line[i])
}

/// Whether a line holds white space only.
pub fn is_blank(line: &[u8]) -> (r: bool)
    ensures
        r == blank(line@),
{
    let mut i: usize = 0;
    while i < line.len()
        invariant
            i <= line@.len(),
            forall|k: int| 0 <= k < i ==> is_space(#[trigger] line@[k]),
        decreases line.len() - i,
    {
        let b: u8 = line[i];
        if !(b == 9 || b == 10 || b == 12 || b == 13 || b == 32) {
            assert(!is_space(line@[i as int]));
            return false;
        }
        i = i + 1;
    }
    true
}

/// Whether `n` is the length of the longest valid UTF-8 prefix.
pub open spec fn is_valid_up_to(bytes: Seq<u8>, n: nat) -> bool {
    &&& n <= bytes.len()
    &&& utf8::valid_utf8(bytes.take(n as int))
    &&& forall|m: int| n < m <= bytes.len() ==> !utf8::valid_utf8(#[trigger] bytes.take(m))
}

/// The length of the longest valid UTF-8 prefix.
pub open spec fn valid_up_to(bytes: Seq<u8>) -> nat {
    choose|n: nat| is_valid_up_to(bytes, n)
}

/// `std::str::from_utf8` accepts exactly the valid UTF-8 sequences and gives
/// the text that they encode. For any other sequence its error tells, by
/// `valid_up_to`, the length of the longest valid prefix.
#[verifier::external_body]
fn decode(bytes: &[u8]) -> (r: Result<&str, usize>)
    ensures
        match r {
            Ok(decoded) => utf8::valid_utf8(bytes@) && decoded@ == utf8::decode_utf8(bytes@),
            Err(n) => !utf8::valid_utf8(bytes@) && is_valid_up_to(bytes@, n as nat),
        },
{
    match std::str::from_utf8(bytes) {
        Ok(decoded) => Ok(decoded),
        Err(e) => Err(e.valid_up_to()),
    }
}

/// What one line of a stream holds.
#[derive(Debug, PartialEq, Eq)]
pub enum Line {
    /// White space only.
    Blank,
    /// Neither blank nor a JSON document: the 1-based byte column of the
    /// problem, and the reason.
    Invalid { column: usize, reason: String },
    /// A JSON document.
    Record(Value),
}

/// What a [`Line`] stands for.
#[verifier::ext_equal]
pub enum Content {
    Blank,
    Invalid { column: nat, reason: Seq<char> },
    Record(Json),
}

impl View for Line {
    type V = Content;

    open spec fn view(&self) -> Content {
        match self {
            Line::Blank => Content::Blank,
            Line::Invalid { column, reason } => Content::Invalid {
                column: *column as nat,
                reason: reason@,
            },
            Line::Record(value) => Content::Record(value@),
        }
    }
}

/// What the bytes of a line hold.
pub open spec fn content(line: Seq<u8>) -> Content {
    if blank(line) {
        Content::Blank
    } else if !utf8::valid_utf8(line) {
        Content::Invalid { column: valid_up_to(line) + 1, reason: "invalid UTF-8"@ }
    } else {
        let decoded = utf8::decode_utf8(line);
        match grammar::document(decoded) {
            Ok(json) => Content::Record(json),
            Err(fault) => Content::Invalid {
                column: grammar::byte_offset(decoded, fault.at) + 1,
                reason: grammar::reason_of(fault.kind),
            },
        }
    }
}

/// Reads one line, given without its line ending.
pub fn read_line(line: &[u8]) -> (r: Line)
    requires
        line@.len() < usize::MAX,
    ensures
        r@ == content(line@),
        r matches Line::Record(value) ==> json::is_plain(value@) && json::nodes(value@)
            <= line@.len(),
{
    if is_blank(line) {
        return Line::Blank;
    }
    let decoded: &str = match decode(line) {
        Ok(decoded) => decoded,
        Err(n) => {
            proof {
                let m = valid_up_to(line@);
                assert(is_valid_up_to(line@, m));
                if m < n {
                    assert(!utf8::valid_utf8(line@.take(n as int)));
                }
                if n < m {
                    assert(!utf8::valid_utf8(line@.take(m as int)));
                }
            }
            return Line::Invalid { column: n + 1, reason: "invalid UTF-8".to_string() };
        },
    };
    proof {
        utf8::decode_utf8_encode_utf8(line@);
        grammar::lemma_byte_offset_lower(decoded@);
    }
    match parse(decoded) {
        Ok(value) => Line::Record(value),
        Err(e) => Line::Invalid { column: e.offset + 1, reason: e.kind.reason() },
    }
}

/// Some prefix is the longest valid one.
proof fn lemma_valid_prefix(bytes: Seq<u8>, n: nat)
    requires
        n <= bytes.len(),
        forall|m: int| n < m <= bytes.len() ==> !utf8::valid_utf8(#[trigger] bytes.take(m)),
    ensures
        is_valid_up_to(bytes, valid_up_to(bytes)),
    decreases n,
{
    if utf8::valid_utf8(bytes.take(n as int)) {
        assert(is_valid_up_to(bytes, n));
    } else {
        if n == 0 {
            assert(bytes.take(0) =~= Seq::empty());
            assert(utf8::valid_utf8(bytes.take(0)));
        } else {
            lemma_valid_prefix(bytes, (n - 1) as nat);
        }
    }
}

/// A line is blank exactly if it has no bytes but tabs, newlines, form feeds,
/// carriage returns and spaces. A line that is no UTF-8 is broken behind its
/// longest valid prefix. Any other line is broken exactly if it holds no
/// document, the column counting the bytes up to where that shows.
pub proof fn law_lines_are_blank_records_or_broken(line: Seq<u8>)
    ensures
        content(line) is Blank <==> forall|i: int|
            0 <= i < line.len() ==> (#[trigger] line[i]) == 9 || line[i] == 10 || line[i] == 12
                || line[i] == 13 || line[i] == 32,
        !(content(line) is Blank) && !utf8::valid_utf8(line) ==> {
            &&& content(line) matches Content::Invalid { column, reason }
            &&& reason == "invalid UTF-8"@
            &&& 1 <= column <= line.len()
            &&& utf8::valid_utf8(line.take(column - 1))
            &&& forall|m: int|
                column <= m <= line.len() ==> !utf8::valid_utf8(#[trigger] line.take(m))
        },
        !(content(line) is Blank) && utf8::valid_utf8(line) ==> (content(line) is Record
            <==> grammar::document(utf8::decode_utf8(line)) is Ok),
        content(line) matches Content::Record(json) ==> grammar::document(
            utf8::decode_utf8(line),
        ) == Ok::<Json, grammar::Fault>(json),
        !(content(line) is Blank) && utf8::valid_utf8(line) ==> (grammar::document(
            utf8::decode_utf8(line),
        ) matches Err(fault) ==> {
            &&& content(line) matches Content::Invalid { column, reason }
            &&& reason == grammar::reason_of(fault.kind)
            &&& 1 <= column <= line.len() + 1
            &&& line.take(column - 1) == utf8::encode_utf8(utf8::decode_utf8(line).take(fault.at))
        }),
{
    if !blank(line) && utf8::valid_utf8(line) {
        let decoded = utf8::decode_utf8(line);
        utf8::decode_utf8_encode_utf8(line);
        if let Err(fault) = grammar::document(decoded) {
            syntax::law_faults_point_at_their_cause(decoded);
            syntax::lemma_encoded_prefix(decoded, fault.at);
        }
    }
    lemma_valid_prefix(line, line.len());
    assert(line.take(line.len() as int) =~= line);
    if !blank(line) {
        let i = choose|i: int| 0 <= i < line.len() && !is_space(#[trigger] line[i]);
        assert(line[i] != 9 && line[i] != 10 && line[i] != 12 && line[i] != 13 && line[i] != 32);
    } else {
        assert forall|i: int| 0 <= i < line.len() implies (#[trigger] line[i]) == 9 || line[i]
            == 10 || line[i] == 12 || line[i] == 13 || line[i] == 32 by {
            assert(is_space(line[i]));
        }
    }
}

} // verus!

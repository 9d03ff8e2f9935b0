//! Reports: text in which computed figures still stand as exact quotients.

use vstd::prelude::*;

use crate::json;
use crate::json::Json;
use crate::json::Value;
use crate::ratio::Ratio;
use crate::table;
use crate::text;
use crate::text::characters;
use crate::text::push_decimal;
use crate::text::with_commas;

verus! {

/// A figure of a report: a quotient to be printed with one decimal place,
/// right-aligned to `width` characters.
#[derive(Debug, Clone, Copy, PartialEq, Eq, Structural)]
pub struct Figure {
    pub value: Ratio,
    /// Whether a hundred times the quotient is to be printed.
    pub percent: bool,
    pub width: usize,
}

/// A piece of a report.
#[derive(Debug, Clone, PartialEq, Eq)]
pub enum Piece {
    /// Text to be printed as it is.
    Text(String),
    /// A figure.
    Figure(Figure),
}

/// What stands at one place of a report: a character or a whole figure.
pub enum Glyph {
    Char(char),
    Figure { part: nat, whole: nat, percent: bool, width: nat },
}

/// A character as a part of a report.
pub open spec fn letter(c: char) -> Glyph {
    Glyph::Char(c)
}

/// A text as a part of a report.
pub open spec fn glyphs(s: Seq<char>) -> Seq<Glyph> {
    s.map_values(|c: char| letter(c))
}

/// A text in two portions is one portion after the other in a report too.
pub proof fn lemma_glyphs(a: Seq<char>, b: Seq<char>)
    ensures
        glyphs(a + b) == glyphs(a) + glyphs(b),
        glyphs(a).len() == a.len(),
        forall|i: int| 0 <= i < a.len() ==> #[trigger] glyphs(a)[i] == Glyph::Char(a[i]),
{
    assert(glyphs(a + b) =~= glyphs(a) + glyphs(b));
}

/// A figure as a part of a report.
pub open spec fn figure(value: (nat, nat), percent: bool, width: nat) -> Seq<Glyph> {
    seq![Glyph::Figure { part: value.0, whole: value.1, percent, width }]
}

impl View for Piece {
    type V = Seq<Glyph>;

    open spec fn view(&self) -> Seq<Glyph> {
        match self {
            Piece::Text(s) => glyphs(s@),
            Piece::Figure(f) => figure(f.value@, f.percent, f.width as nat),
        }
    }
}

/// What pieces say one after the other.
pub open spec fn joined(pieces: Seq<Piece>) -> Seq<Glyph>
    decreases pieces.len(),
{
    if pieces.len() == 0 {
        Seq::empty()
    } else {
        joined(pieces.drop_last()) + pieces.last()@
    }
}

/// A report, made of pieces.
#[derive(Debug, Clone, PartialEq, Eq)]
pub struct Report {
    pieces: Vec<Piece>,
}

impl View for Report {
    type V = Seq<Glyph>;

    closed spec fn view(&self) -> Seq<Glyph> {
        joined(self.pieces@)
    }
}

proof fn lemma_joined_push(pieces: Seq<Piece>, piece: Piece)
    ensures
        joined(pieces.push(piece)) == joined(pieces) + piece@,
{
    assert(pieces.push(piece).drop_last() =~= pieces);
}

proof fn lemma_joined_concat(a: Seq<Piece>, b: Seq<Piece>)
    ensures
        joined(a + b) == joined(a) + joined(b),
    decreases b.len(),
{
    if b.len() == 0 {
        assert(a + b =~= a);
        assert(joined(a) + joined(b) =~= joined(a));
    } else {
        assert((a + b).drop_last() =~= a + b.drop_last());
        lemma_joined_concat(a, b.drop_last());
        assert(joined(a + b) =~= joined(a) + joined(b));
    }
}

impl Report {
    /// An empty report.
    pub fn new() -> (r: Report)
        ensures
            r@ == Seq::<Glyph>::empty(),
    {
        Report { pieces: Vec::new() }
    }

    /// The pieces of this report, in order.
    pub fn pieces(&self) -> (r: &[Piece])
        ensures
            joined(r@) == self@,
    {
        self.pieces.as_slice()
    }

    /// A report that starts with a text.
    pub fn starting(s: &str) -> (r: Report)
        ensures
            r@ == glyphs(s@),
    {
        let mut r = Report::new();
        r.write(s);
        assert(r@ =~= glyphs(s@));
        r
    }

    /// Appends a text.
    pub fn write(&mut self, s: &str)
        ensures
            final(self)@ == old(self)@ + glyphs(s@),
    {
        let piece = Piece::Text(s.to_string());
        proof {
            lemma_joined_push(self.pieces@, piece);
        }
        self.pieces.push(piece);
    }

    /// Appends a decimal numeral.
    pub fn write_number(&mut self, n: u64)
        ensures
            final(self)@ == old(self)@ + glyphs(text::decimal(n as nat)),
    {
        let mut s = String::new();
        push_decimal(&mut s, n);
        assert(s@ =~= text::decimal(n as nat));
        self.write(s.as_str());
    }

    /// Appends a decimal numeral in comma-separated groups.
    pub fn write_grouped(&mut self, n: u64)
        ensures
            final(self)@ == old(self)@ + glyphs(text::grouped(n as nat)),
    {
        self.write(with_commas(n).as_str());
    }

    /// Appends a figure.
    pub fn write_figure(&mut self, value: Ratio, percent: bool, width: usize)
        ensures
            final(self)@ == old(self)@ + figure(value@, percent, width as nat),
    {
        let piece = Piece::Figure(Figure { value, percent, width });
        proof {
            lemma_joined_push(self.pieces@, piece);
        }
        self.pieces.push(piece);
    }

    /// Appends another report.
    pub fn append(&mut self, other: Report)
        ensures
            final(self)@ == old(self)@ + other@,
    {
        let mut pieces: Vec<Piece> = other.pieces;
        proof {
            lemma_joined_concat(self.pieces@, pieces@);
        }
        self.pieces.append(&mut pieces);
    }
}

/// A run of spaces.
pub open spec fn spaces(n: nat) -> Seq<char> {
    Seq::new(n, |i: int| ' ')
}

/// How many spaces a text is short of a width.
pub open spec fn short_of(s: Seq<char>, width: nat) -> nat {
    if s.len() < width {
        (width - s.len()) as nat
    } else {
        0
    }
}

/// A text padded with spaces on the right to at least `width` characters.
pub open spec fn left(s: Seq<char>, width: nat) -> Seq<char> {
    s + spaces(short_of(s, width))
}

/// A text padded with spaces on the left to at least `width` characters.
pub open spec fn right(s: Seq<char>, width: nat) -> Seq<char> {
    spaces(short_of(s, width)) + s
}

fn push_spaces(out: &mut String, n: usize)
    ensures
        final(out)@ == old(out)@ + spaces(n as nat),
{
    let mut i: usize = 0;
    assert(out@ =~= old(out)@ + spaces(0));
    while i < n
        invariant
            i <= n,
            out@ == old(out)@ + spaces(i as nat),
        decreases n - i,
    {
        out.push(' ');
        i = i + 1;
        assert(out@ =~= old(out)@ + spaces(i as nat));
    }
}

/// `s` padded with spaces on the right to at least `width` characters.
pub fn align_left(s: &str, width: usize) -> (r: String)
    ensures
        r@ == left(s@, width as nat),
{
    let length: usize = characters(s).len();
    let mut r = s.to_string();
    push_spaces(
        &mut r,
        if length < width {
            width - length
        } else {
            0
        },
    );
    r
}

/// `s` padded with spaces on the left to at least `width` characters.
pub fn align_right(s: &str, width: usize) -> (r: String)
    ensures
        r@ == right(s@, width as nat),
{
    let length: usize = characters(s).len();
    let mut r = String::new();
    push_spaces(
        &mut r,
        if length < width {
            width - length
        } else {
            0
        },
    );
    assert(r@ =~= spaces(short_of(s@, width as nat)));
    r.append(s);
    r
}

/// A numeral, in comma-separated groups or not.
pub open spec fn number(n: nat, commas: bool) -> Seq<char> {
    if commas {
        text::grouped(n)
    } else {
        text::decimal(n)
    }
}

/// Types with their counts, such as `int:2 string:1`.
pub open spec fn type_list(types: Seq<(Seq<char>, nat)>, commas: bool) -> Seq<char>
    decreases types.len(),
{
    if types.len() == 0 {
        Seq::empty()
    } else {
        let before = type_list(types.drop_last(), commas);
        let gap = if types.len() > 1 {
            before + " "@
        } else {
            before
        };
        gap + types.last().0 + ":"@ + number(types.last().1, commas)
    }
}

/// Types with their counts, such as `int:2 string:1`.
pub fn format_type_counts(types: &[(&'static str, u64)], commas: bool) -> (r: String)
    ensures
        r@ == type_list(table::tally_view(types@), commas),
{
    let ghost all = table::tally_view(types@);
    let mut r = String::new();
    let mut i: usize = 0;
    assert(all.take(0) =~= Seq::empty());
    assert(r@ =~= Seq::empty());
    while i < types.len()
        invariant
            i <= types@.len(),
            all == table::tally_view(types@),
            r@ == type_list(all.take(i as int), commas),
        decreases types.len() - i,
    {
        proof {
            assert(all.take(i + 1).drop_last() =~= all.take(i as int));
            assert(all[i as int] == (types@[i as int].0@, types@[i as int].1 as nat));
        }
        if i > 0 {
            r.append(" ");
        }
        r.append(types[i].0);
        r.append(":");
        if commas {
            r.append(with_commas(types[i].1).as_str());
        } else {
            push_decimal(&mut r, types[i].1);
        }
        i = i + 1;
    }
    assert(all.take(i as int) =~= all);
    r
}

/// Types with their counts as a JSON object.
pub open spec fn type_counts(types: Seq<(Seq<char>, nat)>) -> Json {
    Json::Object(
        types.map_values(|one: (Seq<char>, nat)| (one.0, Json::Int(one.1 as i64))),
    )
}

/// Types with their counts as a JSON object.
pub fn type_counts_json(types: &[(&'static str, u64)]) -> (r: Value)
    ensures
        r@ == type_counts(table::tally_view(types@)),
{
    let ghost all = type_counts(table::tally_view(types@))->Object_0;
    let mut members: Vec<(String, Value)> = Vec::new();
    let mut i: usize = 0;
    assert(json::member_views(members@) =~= all.take(0));
    while i < types.len()
        invariant
            i <= types@.len(),
            all == type_counts(table::tally_view(types@))->Object_0,
            json::member_views(members@) == all.take(i as int),
        decreases types.len() - i,
    {
        let ghost before = json::member_views(members@);
        let one = integer(types[i].0, types[i].1);
        members.push(one);
        proof {
            assert(json::member_views(members@) =~= before.push((one.0@, one.1@)));
            assert(all[i as int] == (types@[i as int].0@, Json::Int(types@[i as int].1 as i64)));
            assert(all.take(i + 1) =~= all.take(i as int).push(all[i as int]));
        }
        i = i + 1;
    }
    proof {
        assert(all.take(i as int) =~= all);
        json::lemma_object_view(members);
    }
    Value::Object(members)
}

/// A member with an integer value, which wraps beyond `i64::MAX`.
pub fn integer(name: &str, n: u64) -> (r: (String, Value))
    ensures
        r.0@ == name@,
        r.1@ == Json::Int(n as i64),
{
    (name.to_string(), Value::Int(n as i64))
}

/// Padding fills a text up to a width with spaces, behind it or before it, and
/// leaves a longer text alone.
pub proof fn law_padding_adds_spaces_only(s: Seq<char>, width: nat)
    ensures
        left(s, width).len() == (if s.len() < width {
            width
        } else {
            s.len()
        }),
        left(s, width).take(s.len() as int) == s,
        forall|i: int| s.len() <= i < left(s, width).len() ==> (#[trigger] left(s, width)[i]) == ' ',
        right(s, width).len() == left(s, width).len(),
        right(s, width).skip(right(s, width).len() - s.len()) == s,
        forall|i: int|
            0 <= i < right(s, width).len() - s.len() ==> (#[trigger] right(s, width)[i]) == ' ',
{
    assert(left(s, width).take(s.len() as int) =~= s);
    assert(right(s, width).skip(right(s, width).len() - s.len()) =~= s);
}

/// A list of types has each type with its count behind a colon, in order and
/// with one space between two.
pub proof fn law_type_list_names_and_counts(
    a: Seq<(Seq<char>, nat)>,
    b: Seq<(Seq<char>, nat)>,
    one: (Seq<char>, nat),
    commas: bool,
)
    ensures
        type_list(Seq::empty(), commas).len() == 0,
        type_list(seq![one], true) == one.0 + seq![':'] + text::grouped(one.1),
        type_list(seq![one], false) == one.0 + seq![':'] + text::decimal(one.1),
        a.len() > 0 && b.len() > 0 ==> type_list(a + b, commas) == type_list(a, commas) + seq![' ']
            + type_list(b, commas),
    decreases b.len(),
{
    reveal_strlit(" ");
    reveal_strlit(":");
    assert(" "@ =~= seq![' ']);
    assert(":"@ =~= seq![':']);
    let none = Seq::<char>::empty();
    assert(seq![one].drop_last() =~= Seq::empty());
    assert(type_list(seq![one].drop_last(), true) =~= none);
    assert(type_list(seq![one].drop_last(), false) =~= none);
    assert(type_list(seq![one], true) =~= one.0 + seq![':'] + text::grouped(one.1));
    assert(type_list(seq![one], false) =~= one.0 + seq![':'] + text::decimal(one.1));
    if a.len() > 0 && b.len() > 0 {
        let whole = a + b;
        let init = b.drop_last();
        assert(whole.drop_last() =~= a + init);
        if init.len() == 0 {
            assert(a + init =~= a);
            assert(type_list(init, commas) =~= none);
        } else {
            law_type_list_names_and_counts(a, init, one, commas);
        }
        assert(type_list(whole, commas) =~= type_list(a, commas) + seq![' '] + type_list(
            b,
            commas,
        ));
    }
}

/// A piece of text says its characters, a figure is one glyph with its quotient
/// as it is, and pieces say one after the other what they say alone.
pub proof fn law_pieces_say_what_they_hold(
    s: String,
    f: Figure,
    piece: Piece,
    a: Seq<Piece>,
    b: Seq<Piece>,
)
    ensures
        Piece::Text(s)@.len() == s@.len(),
        forall|i: int| 0 <= i < s@.len() ==> #[trigger] Piece::Text(s)@[i] == Glyph::Char(s@[i]),
        Piece::Figure(f)@.len() == 1,
        Piece::Figure(f)@[0] == (Glyph::Figure {
            part: f.value.part as nat,
            whole: f.value.whole as nat,
            percent: f.percent,
            width: f.width as nat,
        }),
        joined(seq![piece]) == piece@,
        joined(a + b) == joined(a) + joined(b),
        joined(Seq::empty()).len() == 0,
{
    lemma_glyphs(s@, Seq::empty());
    lemma_joined_concat(a, b);
    assert(seq![piece].drop_last() =~= Seq::empty());
    assert(joined(seq![piece].drop_last()) =~= Seq::empty());
    assert(joined(seq![piece]) =~= piece@);
}

} // verus!

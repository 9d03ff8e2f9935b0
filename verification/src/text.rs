//! Text primitives: ordering, decimal numerals, grouping and padding.

use vstd::prelude::*;

verus! {

/// How two texts compare, character by character.
#[derive(Debug, Clone, Copy, PartialEq, Eq, Structural)]
pub enum Order {
    Before,
    Same,
    After,
}

/// The alphabetical order of two texts: by the first character in which they
/// differ, a proper prefix coming first.
pub open spec fn order(a: Seq<char>, b: Seq<char>) -> Order
    decreases a.len(),
{
    if a.len() == 0 {
        if b.len() == 0 {
            Order::Same
        } else {
            Order::Before
        }
    } else if b.len() == 0 {
        Order::After
    } else if a[0] < b[0] {
        Order::Before
    } else if a[0] > b[0] {
        Order::After
    } else {
        order(a.drop_first(), b.drop_first())
    }
}

/// Compares two texts alphabetically.
pub fn compare(a: &str, b: &str) -> (r: Order)
    ensures
        r == order(a@, b@),
{
    let mut x = a.chars();
    let mut y = b.chars();
    loop
        invariant
            order(a@, b@) == order(vstd::std_specs::iter::IteratorSpec::remaining(&x), vstd::std_specs::iter::IteratorSpec::remaining(&y)),
            vstd::std_specs::iter::IteratorSpec::decrease(&x) is Some,
        decreases vstd::std_specs::iter::IteratorSpec::decrease(&x)->0,
    {
        match (x.next(), y.next()) {
            (None, None) => {
                return Order::Same;
            },
            (None, Some(_)) => {
                return Order::Before;
            },
            (Some(_), None) => {
                return Order::After;
            },
            (Some(c), Some(d)) => {
                if c < d {
                    return Order::Before;
                }
                if c > d {
                    return Order::After;
                }
            },
        }
    }
}

/// Texts are in the same place exactly if they are equal.
pub proof fn lemma_order_same(a: Seq<char>, b: Seq<char>)
    ensures
        order(a, b) == Order::Same <==> a == b,
    decreases a.len(),
{
    if a.len() > 0 && b.len() > 0 {
        lemma_order_same(a.drop_first(), b.drop_first());
        if a[0] == b[0] && a.drop_first() == b.drop_first() {
            assert(a =~= seq![a[0]] + a.drop_first());
            assert(b =~= seq![b[0]] + b.drop_first());
        }
    }
    if a.len() == 0 && b.len() == 0 {
        assert(a =~= b);
    }
}

/// Swapping two texts swaps their order.
pub proof fn lemma_order_swap(a: Seq<char>, b: Seq<char>)
    ensures
        order(a, b) == Order::Before <==> order(b, a) == Order::After,
    decreases a.len(),
{
    if a.len() > 0 && b.len() > 0 {
        lemma_order_swap(a.drop_first(), b.drop_first());
    }
}

/// The alphabetical order is transitive.
pub proof fn lemma_order_transitive(a: Seq<char>, b: Seq<char>, c: Seq<char>)
    requires
        order(a, b) == Order::Before,
        order(b, c) == Order::Before,
    ensures
        order(a, c) == Order::Before,
    decreases a.len(),
{
    if a.len() > 0 && b.len() > 0 && c.len() > 0 {
        if a[0] == b[0] && b[0] == c[0] {
            lemma_order_transitive(a.drop_first(), b.drop_first(), c.drop_first());
        }
    }
}

/// Whether texts are in strictly ascending order.
pub open spec fn alphabetical(texts: Seq<Seq<char>>) -> bool {
    forall|i: int, j: int|
        #![trigger texts[i], texts[j]]
        0 <= i < j < texts.len() ==> order(texts[i], texts[j]) == Order::Before
}

/// Texts in strictly ascending order do not repeat.
pub proof fn lemma_alphabetical_distinct(texts: Seq<Seq<char>>)
    requires
        alphabetical(texts),
    ensures
        texts.no_duplicates(),
{
    assert forall|i: int, j: int|
        0 <= i < texts.len() && 0 <= j < texts.len() && i != j implies texts[i] != texts[j] by {
        lemma_order_same(texts[i], texts[j]);
        lemma_order_same(texts[j], texts[i]);
        if i < j {
            assert(order(texts[i], texts[j]) == Order::Before);
        } else {
            assert(order(texts[j], texts[i]) == Order::Before);
        }
    }
}

/// Whether two texts are equal.
pub fn same(a: &str, b: &str) -> (r: bool)
    ensures
        r == (a@ == b@),
{
    proof {
        lemma_order_same(a@, b@);
    }
    match compare(a, b) {
        Order::Same => true,
        _ => false,
    }
}

/// `String::push` appends one character and changes nothing else.
pub assume_specification[ String::push ](buffer: &mut String, c: char)
    ensures
        final(buffer)@ == old(buffer)@.push(c),
;

/// The characters of a text, for access by position.
pub fn characters(text: &str) -> (r: Vec<char>)
    ensures
        r@ == text@,
{
    let mut r: Vec<char> = Vec::new();
    let mut rest = text.chars();
    loop
        invariant
            r@ + vstd::std_specs::iter::IteratorSpec::remaining(&rest) == text@,
            vstd::std_specs::iter::IteratorSpec::decrease(&rest) is Some,
        decreases vstd::std_specs::iter::IteratorSpec::decrease(&rest)->0,
    {
        match rest.next() {
            None => {
                assert(r@ =~= text@);
                return r;
            },
            Some(c) => {
                r.push(c);
                assert(r@ + vstd::std_specs::iter::IteratorSpec::remaining(&rest) =~= text@);
            },
        }
    }
}

/// The text made of the characters at positions `from..to`.
pub fn excerpt(chars: &[char], from: usize, to: usize) -> (r: String)
    requires
        from <= to <= chars@.len(),
    ensures
        r@ == chars@.subrange(from as int, to as int),
{
    let mut r = String::new();
    let mut i: usize = from;
    while i < to
        invariant
            from <= i <= to <= chars@.len(),
            r@ == chars@.subrange(from as int, i as int),
        decreases to - i,
    {
        r.push(chars[i]);
        i = i + 1;
    }
    r
}

/// Whether a character is an ASCII decimal digit.
pub open spec fn is_digit(c: char) -> bool {
    '0' <= c && c <= '9'
}

/// The number that a digit stands for.
pub open spec fn digit_value(c: char) -> nat
    recommends
        is_digit(c),
{
    (c as u32 - '0' as u32) as nat
}

/// The digit that stands for a number below ten.
pub open spec fn digit(d: nat) -> char
    recommends
        d < 10,
{
    ('0' as u32 + d) as u8 as char
}

/// The decimal numeral of a number, without leading zeros.
pub open spec fn decimal(n: nat) -> Seq<char>
    decreases n,
{
    if n < 10 {
        seq![digit(n)]
    } else {
        decimal(n / 10).push(digit(n % 10))
    }
}

/// The decimal numeral of an integer, with a leading minus sign if negative.
pub open spec fn signed_decimal(n: int) -> Seq<char> {
    if n < 0 {
        seq!['-'] + decimal((-n) as nat)
    } else {
        decimal(n as nat)
    }
}

/// A decimal numeral with a comma between groups of three digits.
pub open spec fn grouped(n: nat) -> Seq<char>
    decreases n,
{
    if n < 1000 {
        decimal(n)
    } else {
        grouped(n / 1000) + seq![',', digit(n / 100 % 10), digit(n / 10 % 10), digit(n % 10)]
    }
}

/// A text without its commas.
pub open spec fn without_commas(s: Seq<char>) -> Seq<char>
    decreases s.len(),
{
    if s.len() == 0 {
        Seq::empty()
    } else {
        let before = without_commas(s.drop_last());
        if s.last() == ',' {
            before
        } else {
            before.push(s.last())
        }
    }
}

proof fn lemma_without_commas_concat(a: Seq<char>, b: Seq<char>)
    ensures
        without_commas(a + b) == without_commas(a) + without_commas(b),
    decreases b.len(),
{
    if b.len() == 0 {
        assert(a + b =~= a);
        assert(without_commas(a) + without_commas(b) =~= without_commas(a));
    } else {
        assert((a + b).drop_last() =~= a + b.drop_last());
        lemma_without_commas_concat(a, b.drop_last());
        assert(without_commas(a + b) =~= without_commas(a) + without_commas(b));
    }
}

proof fn lemma_digit(d: nat)
    requires
        d < 10,
    ensures
        is_digit(digit(d)),
        digit_value(digit(d)) == d,
{
}

/// A decimal numeral consists of digits and stands for its number.
pub proof fn lemma_decimal(n: nat)
    ensures
        all_digits(decimal(n)),
        decimal(n).len() > 0,
        numeral(decimal(n)) == n,
    decreases n,
{
    if n < 10 {
        lemma_digit(n);
        assert(decimal(n).drop_last() =~= Seq::empty());
        assert(numeral(decimal(n).drop_last()) == 0);
    } else {
        lemma_decimal(n / 10);
        lemma_digit(n % 10);
        assert(decimal(n).drop_last() =~= decimal(n / 10));
    }
}

proof fn lemma_decimal_without_commas(n: nat)
    ensures
        without_commas(decimal(n)) == decimal(n),
    decreases n,
{
    lemma_digit(n % 10);
    if n < 10 {
        assert(decimal(n).drop_last() =~= Seq::empty());
        assert(without_commas(decimal(n).drop_last()) =~= Seq::empty());
        assert(without_commas(decimal(n)) =~= decimal(n));
    } else {
        lemma_decimal_without_commas(n / 10);
        assert(decimal(n).drop_last() =~= decimal(n / 10));
    }
}

/// Grouping only adds commas: without them the decimal numeral is left.
pub proof fn law_grouping_adds_commas_only(n: nat)
    ensures
        without_commas(grouped(n)) == decimal(n),
    decreases n,
{
    lemma_decimal_without_commas(n);
    if n >= 1000 {
        let thousands = n / 1000;
        law_grouping_adds_commas_only(thousands);
        let a = digit(n / 100 % 10);
        let b = digit(n / 10 % 10);
        let c = digit(n % 10);
        let tail = seq![',', a, b, c];
        lemma_without_commas_concat(grouped(thousands), tail);
        assert(without_commas(tail) =~= seq![a, b, c]) by {
            reveal_with_fuel(without_commas, 5);
            assert(tail.drop_last() =~= seq![',', a, b]);
            assert(tail.drop_last().drop_last() =~= seq![',', a]);
            assert(tail.drop_last().drop_last().drop_last() =~= seq![',']);
            assert(tail.drop_last().drop_last().drop_last().drop_last() =~= Seq::empty());
        }
        assert(n / 10 / 10 == n / 100 && n / 100 / 10 == thousands);
        assert(decimal(n) == decimal(n / 10).push(c));
        assert(decimal(n / 10) == decimal(n / 100).push(b));
        assert(decimal(n / 100) == decimal(thousands).push(a));
        assert(decimal(n) =~= decimal(thousands) + seq![a, b, c]);
    }
}

/// The number that a sequence of digits stands for.
pub open spec fn numeral(s: Seq<char>) -> nat
    decreases s.len(),
{
    if s.len() == 0 {
        0
    } else {
        numeral(s.drop_last()) * 10 + digit_value(s.last())
    }
}

/// Whether a text consists of digits only.
pub open spec fn all_digits(s: Seq<char>) -> bool {
    forall|i: int| 0 <= i < s.len() ==> is_digit(#[trigger] s[i])
}

/// The `i64` that a sign and digits stand for, if it is in range.
pub open spec fn signed_numeral(negative: bool, digits: Seq<char>) -> Option<i64> {
    let n = if negative {
        -(numeral(digits) as int)
    } else {
        numeral(digits) as int
    };
    if i64::MIN <= n <= i64::MAX {
        Some(n as i64)
    } else {
        None
    }
}

/// More digits stand for no smaller number.
pub proof fn lemma_numeral_grows(s: Seq<char>, i: int)
    requires
        0 <= i <= s.len(),
    ensures
        numeral(s.take(i)) <= numeral(s),
    decreases s.len(),
{
    if i < s.len() {
        lemma_numeral_grows(s.drop_last(), i);
        assert(s.drop_last().take(i) =~= s.take(i));
    } else {
        assert(s.take(i) =~= s);
    }
}

/// Reads the digits at positions `from..to`, taken with a sign, as an `i64`.
pub fn read_integer(chars: &[char], from: usize, to: usize, negative: bool) -> (r: Option<i64>)
    requires
        from <= to <= chars@.len(),
        all_digits(chars@.subrange(from as int, to as int)),
    ensures
        r == signed_numeral(negative, chars@.subrange(from as int, to as int)),
{
    let ghost digits = chars@.subrange(from as int, to as int);
    let mut n: u64 = 0;
    let mut i: usize = from;
    assert(digits.take(0) =~= Seq::<char>::empty());
    while i < to
        invariant
            from <= i <= to <= chars@.len(),
            digits == chars@.subrange(from as int, to as int),
            all_digits(digits),
            n == numeral(digits.take(i - from)),
            n <= 0x8000_0000_0000_0000,
        decreases to - i,
    {
        let ghost next = digits.take(i - from + 1);
        assert(next.drop_last() =~= digits.take(i - from));
        assert(is_digit(digits[i - from]));
        let d: u64 = (chars[i] as u32 - '0' as u32) as u64;
        proof {
            lemma_numeral_grows(digits, i - from + 1);
        }
        if n > 922_337_203_685_477_580 {
            return None;
        }
        n = n * 10 + d;
        i = i + 1;
        if n > 0x8000_0000_0000_0000 {
            return None;
        }
    }
    assert(digits.take(to - from) =~= digits);
    if negative {
        if n == 0x8000_0000_0000_0000 {
            Some(i64::MIN)
        } else {
            Some(-(n as i64))
        }
    } else if n == 0x8000_0000_0000_0000 {
        None
    } else {
        Some(n as i64)
    }
}

fn digit_char(d: u64) -> (c: char)
    requires
        d < 10,
    ensures
        c == digit(d as nat),
{
    (48u8 + d as u8) as char
}

/// Appends the decimal numeral of `n`.
pub fn push_decimal(out: &mut String, n: u64)
    ensures
        final(out)@ == old(out)@ + decimal(n as nat),
    decreases n,
{
    if n >= 10 {
        push_decimal(out, n / 10);
    }
    out.push(digit_char(n % 10));
    assert(out@ =~= old(out)@ + decimal(n as nat));
}

/// Appends the decimal numeral of `n`, with its sign if negative.
pub fn push_signed_decimal(out: &mut String, n: i64)
    ensures
        final(out)@ == old(out)@ + signed_decimal(n as int),
{
    if n < 0 {
        out.push('-');
        let rest: u64 = (-(n + 1)) as u64;
        push_decimal(out, rest + 1);
    } else {
        push_decimal(out, n as u64);
    }
    assert(out@ =~= old(out)@ + signed_decimal(n as int));
}

/// Appends the decimal numeral of `n` in comma-separated groups of three.
fn push_grouped(out: &mut String, n: u64)
    ensures
        final(out)@ == old(out)@ + grouped(n as nat),
    decreases n,
{
    if n < 1000 {
        push_decimal(out, n);
    } else {
        push_grouped(out, n / 1000);
        out.push(',');
        out.push(digit_char(n / 100 % 10));
        out.push(digit_char(n / 10 % 10));
        out.push(digit_char(n % 10));
    }
    assert(out@ =~= old(out)@ + grouped(n as nat));
}

/// The decimal numeral of `n` in comma-separated groups of three digits.
pub fn with_commas(n: u64) -> (r: String)
    ensures
        r@ == grouped(n as nat),
{
    let mut out = String::new();
    push_grouped(&mut out, n);
    assert(out@ =~= grouped(n as nat));
    out
}

/// Whether texts agree before position `k`, where the first one ends or has the
/// smaller character.
pub open spec fn parts_before(a: Seq<char>, b: Seq<char>, k: int) -> bool {
    &&& 0 <= k <= a.len()
    &&& k < b.len()
    &&& a.take(k) == b.take(k)
    &&& k < a.len() ==> a[k] < b[k]
}

/// Whether a text is a proper prefix of another, or has the smaller character
/// where they first differ.
pub open spec fn comes_before(a: Seq<char>, b: Seq<char>) -> bool {
    exists|k: int| parts_before(a, b, k)
}

/// A text is before another exactly if it is a proper prefix of it, or has the
/// smaller character where they first differ.
pub proof fn law_order_is_by_the_first_difference(a: Seq<char>, b: Seq<char>)
    ensures
        order(a, b) == Order::Before <==> comes_before(a, b),
        order(a, b) == Order::After <==> comes_before(b, a),
        order(a, b) == Order::Same <==> a == b,
    decreases a.len(),
{
    lemma_order_same(a, b);
    lemma_parts_before(a, b);
    lemma_parts_before(b, a);
    lemma_order_swap(b, a);
}

proof fn lemma_parts_before(a: Seq<char>, b: Seq<char>)
    ensures
        order(a, b) == Order::Before <==> comes_before(a, b),
    decreases a.len(),
{
    if a.len() == 0 || b.len() == 0 {
        if b.len() > 0 {
            assert(a.take(0) =~= b.take(0));
            assert(parts_before(a, b, 0));
        }
    } else {
        let x = a.drop_first();
        let y = b.drop_first();
        lemma_parts_before(x, y);
        if a[0] < b[0] {
            assert(a.take(0) =~= b.take(0));
            assert(parts_before(a, b, 0));
        } else if a[0] > b[0] {
            assert forall|k: int| !parts_before(a, b, k) by {
                if parts_before(a, b, k) && k > 0 {
                    assert(a.take(k)[0] == b.take(k)[0]);
                }
            }
        } else {
            if exists|k: int| parts_before(x, y, k) {
                let k = choose|k: int| parts_before(x, y, k);
                assert(a.take(k + 1) =~= seq![a[0]] + x.take(k));
                assert(b.take(k + 1) =~= seq![b[0]] + y.take(k));
                assert(parts_before(a, b, k + 1));
            }
            if exists|k: int| parts_before(a, b, k) {
                let k = choose|k: int| parts_before(a, b, k);
                assert(x.take(k - 1) =~= a.take(k).skip(1));
                assert(y.take(k - 1) =~= b.take(k).skip(1));
                assert(parts_before(x, y, k - 1));
            }
        }
    }
}

/// The digits stand for the numbers from zero on; a numeral is ten times what
/// it is without its last digit, and that digit.
pub proof fn law_numerals_are_decimal(s: Seq<char>, c: char)
    requires
        is_digit(c),
    ensures
        digit_value(c) == c as int - 48,
        digit_value(c) < 10,
        numeral(seq![c]) == digit_value(c),
        numeral(s.push(c)) == 10 * numeral(s) + digit_value(c),
{
    assert(s.push(c).drop_last() =~= s);
    assert(seq![c].drop_last() =~= Seq::empty());
    assert(numeral(seq![c].drop_last()) == 0);
}

/// The decimal numeral of a number is the digits that stand for it, without a
/// leading zero unless it is zero.
pub proof fn law_decimal_stands_for_its_number(n: nat)
    ensures
        all_digits(decimal(n)),
        numeral(decimal(n)) == n,
        decimal(n).len() > 0,
        decimal(n)[0] == '0' ==> n == 0 && decimal(n).len() == 1,
    decreases n,
{
    lemma_decimal(n);
    if n >= 10 {
        law_decimal_stands_for_its_number(n / 10);
        assert(decimal(n)[0] == decimal(n / 10)[0]);
    }
}

/// Counted from the end, every fourth character of a grouped numeral is a
/// comma, and no other one is. It starts with no comma.
pub proof fn law_commas_stand_before_every_three_digits(n: nat)
    ensures
        grouped(n).len() % 4 != 0,
        forall|i: int|
            0 <= i < grouped(n).len() ==> ((#[trigger] grouped(n)[i]) == ',' <==> (
            grouped(n).len() - i) % 4 == 0),
    decreases n,
{
    let g = grouped(n);
    if n < 1000 {
        lemma_decimal(n);
        lemma_decimal_short(n);
        assert forall|i: int| 0 <= i < g.len() implies ((#[trigger] g[i]) == ',' <==> (g.len()
            - i) % 4 == 0) by {
            assert(is_digit(decimal(n)[i]));
        }
    } else {
        let before = grouped(n / 1000);
        law_commas_stand_before_every_three_digits(n / 1000);
        lemma_digit(n / 100 % 10);
        lemma_digit(n / 10 % 10);
        lemma_digit(n % 10);
        assert(g.len() == before.len() + 4);
        assert forall|i: int| 0 <= i < g.len() implies ((#[trigger] g[i]) == ',' <==> (g.len()
            - i) % 4 == 0) by {
            if i < before.len() {
                assert(g[i] == before[i]);
                assert((g.len() - i) % 4 == (before.len() - i) % 4);
            }
        }
    }
}

proof fn lemma_decimal_short(n: nat)
    requires
        n < 1000,
    ensures
        decimal(n).len() <= 3,
{
    reveal_with_fuel(decimal, 4);
}

} // verus!

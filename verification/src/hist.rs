//! The distribution of a stream of lengths.

use vstd::prelude::*;

use crate::ratio::Ratio;

verus! {

/// The lengths that buckets stand for, in ascending order, each as often as
/// it was recorded.
pub open spec fn expanded(buckets: Seq<(u64, u64)>) -> Seq<u64>
    decreases buckets.len(),
{
    if buckets.len() == 0 {
        Seq::empty()
    } else {
        expanded(buckets.drop_last()) + Seq::new(
            buckets.last().1 as nat,
            |i: int| buckets.last().0,
        )
    }
}

/// The sum of all lengths.
pub open spec fn total(lengths: Seq<u64>) -> nat
    decreases lengths.len(),
{
    if lengths.len() == 0 {
        0
    } else {
        total(lengths.drop_last()) + lengths.last() as nat
    }
}

/// The position, counted from one, of the smallest of `count` ordered values
/// that at least `percent` percent of them do not exceed.
pub open spec fn rank(count: nat, percent: nat) -> nat {
    let r = (count * percent + 99) / 100;
    if r == 0 {
        1
    } else {
        r as nat
    }
}

/// Whether lengths are in ascending order.
pub open spec fn ascending(lengths: Seq<u64>) -> bool {
    forall|i: int, j: int| 0 <= i <= j < lengths.len() ==> lengths[i] <= lengths[j]
}

/// The quantiles of lengths in ascending order ascend with the percentage, from
/// the smallest length to the largest, and each covers its share: the lengths
/// up to its position are no larger, and are at least that many percent of all.
pub proof fn law_quantiles(lengths: Seq<u64>, p: nat, q: nat)
    requires
        ascending(lengths),
        lengths.len() > 0,
        p <= q <= 100,
    ensures
        1 <= rank(lengths.len(), p) <= rank(lengths.len(), q) <= lengths.len(),
        lengths[0] <= lengths[rank(lengths.len(), p) - 1],
        lengths[rank(lengths.len(), p) - 1] <= lengths[rank(lengths.len(), q) - 1],
        lengths[rank(lengths.len(), q) - 1] <= lengths.last(),
        rank(lengths.len(), p) * 100 >= lengths.len() * p,
        forall|i: int|
            0 <= i < rank(lengths.len(), p) ==> (#[trigger] lengths[i]) <= lengths[rank(
                lengths.len(),
                p,
            ) - 1],
{
    let n = lengths.len();
    assert(n * p <= n * q && n * q <= n * 100) by (nonlinear_arith)
        requires
            p <= q <= 100,
    ;
}

/// A quantile is the smallest length that covers its share: at least `percent`
/// percent of the lengths stand up to its position, fewer before it, and fewer
/// than that many percent are smaller. The quantile at zero percent is the
/// smallest length, that at a hundred percent the largest.
pub proof fn law_quantile_is_the_smallest_that_covers(lengths: Seq<u64>, percent: nat)
    requires
        ascending(lengths),
        lengths.len() > 0,
        percent <= 100,
    ensures
        is_quantile(lengths, percent, lengths[rank(lengths.len(), percent) - 1]),
        forall|x: u64|
            is_quantile(lengths, percent, x) ==> x == lengths[rank(lengths.len(), percent) - 1],
        percent == 0 ==> lengths[rank(lengths.len(), percent) - 1] == lengths[0],
        percent == 100 ==> lengths[rank(lengths.len(), percent) - 1] == lengths.last(),
        percent > 0 ==> (rank(lengths.len(), percent) - 1) * 100 < lengths.len() * percent,
        percent > 0 ==> forall|i: int|
            0 <= i < lengths.len() && (#[trigger] lengths[i]) < lengths[rank(
                lengths.len(),
                percent,
            ) - 1] ==> (i + 1) * 100 < lengths.len() * percent,
{
    let n = lengths.len();
    let r = rank(n, percent);
    law_quantiles(lengths, percent, percent);
    assert(percent > 0 ==> n * percent > 0) by (nonlinear_arith)
        requires
            n > 0,
    ;
    assert(percent == 0 ==> n * percent == 0) by (nonlinear_arith);
    assert(percent == 100 ==> n * percent == n * 100) by (nonlinear_arith);
    assert(is_quantile_at(lengths, percent, r - 1));
    assert forall|x: u64| is_quantile(lengths, percent, x) implies x == lengths[r - 1] by {
        let k = choose|k: int| #[trigger]
            is_quantile_at(lengths, percent, k) && lengths[k] == x;
        assert(k == r - 1);
    }
    assert forall|i: int| percent > 0 && 0 <= i < n && (#[trigger] lengths[i]) < lengths[r
        - 1] implies (i + 1) * 100 < n * percent by {
        if i >= r - 1 {
            assert(lengths[r - 1] <= lengths[i]);
        }
    }
}

/// Whether the length at a position covers `percent` percent of ascending
/// lengths, and the one before it does not.
pub open spec fn is_quantile_at(lengths: Seq<u64>, percent: nat, k: int) -> bool {
    &&& 0 <= k < lengths.len()
    &&& lengths.len() * percent <= (k + 1) * 100
    &&& k > 0 ==> k * 100 < lengths.len() * percent
}

/// Whether `x` is the length that covers `percent` percent of ascending
/// lengths.
pub open spec fn is_quantile(lengths: Seq<u64>, percent: nat, x: u64) -> bool {
    exists|k: int| #[trigger] is_quantile_at(lengths, percent, k) && lengths[k] == x
}

/// The mean lies between the smallest and the largest length.
pub proof fn law_mean_is_between(lengths: Seq<u64>, low: u64, high: u64)
    requires
        forall|i: int| 0 <= i < lengths.len() ==> low <= (#[trigger] lengths[i]) <= high,
    ensures
        low * lengths.len() <= total(lengths) <= high * lengths.len(),
    decreases lengths.len(),
{
    let n = lengths.len() as int;
    if n > 0 {
        let init = lengths.drop_last();
        assert forall|i: int| 0 <= i < init.len() implies low <= (#[trigger] init[i])
            <= high by {
            assert(init[i] == lengths[i]);
        }
        law_mean_is_between(init, low, high);
        assert(low <= lengths[n - 1] <= high);
        assert(low * n == low * (n - 1) + low && high * n == high * (n - 1) + high)
            by (nonlinear_arith);
    } else {
        assert(low * n == 0 && high * n == 0) by (nonlinear_arith)
            requires
                n == 0,
        ;
    }
}

/// The total of lengths is that of some of them and that of the others.
pub proof fn law_total_adds_up(a: Seq<u64>, b: Seq<u64>, length: u64)
    ensures
        total(a + b) == total(a) + total(b),
        total(seq![length]) == length,
        total(Seq::empty()) == 0,
{
    lemma_total_concat(a, b);
    assert(seq![length].drop_last() =~= Seq::empty());
    assert(total(seq![length].drop_last()) == 0);
}

/// The lengths in ascending order are determined by how often each occurs, so
/// that the order of recording does not matter.
pub proof fn law_order_of_recording_is_lost(a: Seq<u64>, b: Seq<u64>)
    requires
        ascending(a),
        ascending(b),
        a.to_multiset() == b.to_multiset(),
    ensures
        a == b,
{
    let leq = |x: u64, y: u64| x <= y;
    assert(vstd::relations::total_ordering(leq));
    assert(vstd::relations::sorted_by(a, leq));
    assert(vstd::relations::sorted_by(b, leq));
    vstd::seq_lib::lemma_sorted_unique(a, b, leq);
}

/// Every length recorded so far, counted by length.
#[derive(Debug, Clone)]
pub struct Histogram {
    buckets: Vec<(u64, u64)>,
    count: u64,
    sum: u64,
}

impl View for Histogram {
    type V = Seq<u64>;

    /// The recorded lengths in ascending order.
    closed spec fn view(&self) -> Seq<u64> {
        expanded(self.buckets@)
    }
}

spec fn ordered(buckets: Seq<(u64, u64)>) -> bool {
    &&& forall|i: int, j: int|
        0 <= i < j < buckets.len() ==> (#[trigger] buckets[i]).0 < (#[trigger] buckets[j]).0
    &&& forall|i: int| 0 <= i < buckets.len() ==> (#[trigger] buckets[i]).1 > 0
}

proof fn lemma_expanded_ascending(buckets: Seq<(u64, u64)>)
    requires
        ordered(buckets),
    ensures
        ascending(expanded(buckets)),
        buckets.len() > 0 ==> expanded(buckets).len() > 0 && expanded(buckets).last()
            == buckets.last().0 && expanded(buckets)[0] == buckets[0].0,
        forall|i: int|
            0 <= i < expanded(buckets).len() ==> (#[trigger] expanded(buckets)[i])
                <= buckets.last().0,
    decreases buckets.len(),
{
    if buckets.len() > 0 {
        let init = buckets.drop_last();
        assert forall|i: int, j: int| 0 <= i < j < init.len() implies (#[trigger] init[i]).0 < (
        #[trigger] init[j]).0 by {
            assert(buckets[i].0 < buckets[j].0);
        }
        assert forall|i: int| 0 <= i < init.len() implies (#[trigger] init[i]).1 > 0 by {
            assert(buckets[i].1 > 0);
        }
        lemma_expanded_ascending(init);
        if init.len() > 0 {
            assert(buckets[init.len() - 1].0 < buckets[init.len() as int].0);
        }
        assert(buckets[buckets.len() - 1].1 > 0);
    }
}

proof fn lemma_expanded_concat(a: Seq<(u64, u64)>, b: Seq<(u64, u64)>)
    ensures
        expanded(a + b) == expanded(a) + expanded(b),
    decreases b.len(),
{
    if b.len() == 0 {
        assert(a + b =~= a);
        assert(expanded(a) + expanded(b) =~= expanded(a));
    } else {
        assert((a + b).drop_last() =~= a + b.drop_last());
        lemma_expanded_concat(a, b.drop_last());
        assert(expanded(a + b) =~= expanded(a) + expanded(b));
    }
}

proof fn lemma_total_concat(a: Seq<u64>, b: Seq<u64>)
    ensures
        total(a + b) == total(a) + total(b),
    decreases b.len(),
{
    if b.len() == 0 {
        assert(a + b =~= a);
    } else {
        assert((a + b).drop_last() =~= a + b.drop_last());
        lemma_total_concat(a, b.drop_last());
    }
}

proof fn lemma_insert_one(a: Seq<u64>, length: u64, b: Seq<u64>)
    ensures
        (a + seq![length] + b).to_multiset() == (a + b).to_multiset().insert(length),
        total(a + seq![length] + b) == total(a + b) + length,
        (a + seq![length] + b).len() == (a + b).len() + 1,
{
    broadcast use vstd::seq_lib::group_to_multiset_ensures;

    vstd::seq_lib::lemma_multiset_commutative(a, seq![length]);
    vstd::seq_lib::lemma_multiset_commutative(a + seq![length], b);
    vstd::seq_lib::lemma_multiset_commutative(a, b);
    assert(a + seq![length] =~= a.push(length));
    assert((a + seq![length] + b).to_multiset() =~= (a + b).to_multiset().insert(length));
    lemma_total_concat(a + seq![length], b);
    lemma_total_concat(a, b);
    lemma_total_concat(a, seq![length]);
    assert(seq![length].drop_last() =~= Seq::empty());
    assert(total(seq![length]) == length) by {
        assert(total(Seq::<u64>::empty()) == 0);
    }
}

proof fn lemma_expanded_single(length: u64, n: u64)
    ensures
        expanded(seq![(length, n)]) == Seq::new(n as nat, |i: int| length),
{
    let one = seq![(length, n)];
    assert(one.drop_last() =~= Seq::empty());
    assert(expanded(one.drop_last()) =~= Seq::empty());
    assert(expanded(one) =~= Seq::new(n as nat, |i: int| length));
}

/// Raising the counter of one bucket records its length once more.
proof fn lemma_raise(before: Seq<(u64, u64)>, at: int)
    requires
        ordered(before),
        0 <= at < before.len(),
        expanded(before).len() < u64::MAX,
    ensures
        before[at].1 < u64::MAX,
        ({
            let length = before[at].0;
            let after = before.update(at, (length, (before[at].1 + 1) as u64));
            &&& ordered(after)
            &&& expanded(after).to_multiset() == expanded(before).to_multiset().insert(length)
            &&& total(expanded(after)) == total(expanded(before)) + length
            &&& expanded(after).len() == expanded(before).len() + 1
        }),
{
    let (length, n) = before[at];
    let a = before.take(at);
    let b = before.skip(at + 1);
    let run = Seq::new(n as nat, |i: int| length);
    assert(before =~= a + seq![(length, n)] + b);
    lemma_expanded_concat(a + seq![(length, n)], b);
    lemma_expanded_concat(a, seq![(length, n)]);
    lemma_expanded_single(length, n);
    assert(run.len() <= expanded(before).len());
    let m = (n + 1) as u64;
    let after = before.update(at, (length, m));
    assert(after =~= a + seq![(length, m)] + b);
    lemma_expanded_concat(a + seq![(length, m)], b);
    lemma_expanded_concat(a, seq![(length, m)]);
    lemma_expanded_single(length, m);
    let longer = Seq::new(m as nat, |i: int| length);
    assert(longer =~= run + seq![length]);
    lemma_insert_one(expanded(a) + run, length, expanded(b));
    assert(expanded(after) =~= expanded(a) + run + seq![length] + expanded(b));
    assert(expanded(before) =~= expanded(a) + run + expanded(b));
    assert forall|i: int, j: int| 0 <= i < j < after.len() implies (#[trigger] after[i]).0 < (
    #[trigger] after[j]).0 by {
        assert(before[i].0 < before[j].0);
    }
}

/// A new bucket in its place records its length.
proof fn lemma_insert(before: Seq<(u64, u64)>, at: int, length: u64)
    requires
        ordered(before),
        0 <= at <= before.len(),
        forall|i: int| 0 <= i < at ==> (#[trigger] before[i]).0 < length,
        forall|i: int| at <= i < before.len() ==> (#[trigger] before[i]).0 > length,
    ensures
        ({
            let after = before.insert(at, (length, 1u64));
            &&& ordered(after)
            &&& expanded(after).to_multiset() == expanded(before).to_multiset().insert(length)
            &&& total(expanded(after)) == total(expanded(before)) + length
            &&& expanded(after).len() == expanded(before).len() + 1
        }),
{
    let a = before.take(at);
    let b = before.skip(at);
    let after = before.insert(at, (length, 1u64));
    assert(before =~= a + b);
    assert(after =~= a + seq![(length, 1u64)] + b);
    lemma_expanded_concat(a + seq![(length, 1u64)], b);
    lemma_expanded_concat(a, seq![(length, 1u64)]);
    lemma_expanded_concat(a, b);
    lemma_expanded_single(length, 1u64);
    assert(Seq::new(1, |i: int| length) =~= seq![length]);
    lemma_insert_one(expanded(a), length, expanded(b));
}

impl Histogram {
    /// What always holds: the counters agree with the recorded lengths.
    pub closed spec fn wf(&self) -> bool {
        &&& ordered(self.buckets@)
        &&& self.count == self@.len()
        &&& self.sum == total(self@)
    }

    /// The recorded lengths are in ascending order.
    pub proof fn law_lengths_ascend(&self)
        requires
            self.wf(),
        ensures
            ascending(self@),
    {
        lemma_expanded_ascending(self.buckets@);
    }

    /// A histogram of nothing.
    pub fn new() -> (r: Histogram)
        ensures
            r.wf(),
            r@ == Seq::<u64>::empty(),
    {
        Histogram { buckets: Vec::new(), count: 0, sum: 0 }
    }

    /// Records one length.
    pub fn record(&mut self, length: u64)
        requires
            old(self).wf(),
            old(self)@.len() < u64::MAX,
            total(old(self)@) + length <= u64::MAX,
        ensures
            final(self).wf(),
            final(self)@.to_multiset() == old(self)@.to_multiset().insert(length),
            final(self)@.len() == old(self)@.len() + 1,
            total(final(self)@) == total(old(self)@) + length,
    {
        let ghost before = self.buckets@;
        let mut low: usize = 0;
        let mut high: usize = self.buckets.len();
        while low < high
            invariant
                low <= high <= self.buckets@.len(),
                before == self.buckets@,
                *self == *old(self),
                ordered(before),
                forall|i: int| 0 <= i < low ==> (#[trigger] before[i]).0 < length,
                forall|i: int| high <= i < before.len() ==> (#[trigger] before[i]).0 >= length,
            decreases high - low,
        {
            let mid: usize = low + (high - low) / 2;
            if self.buckets[mid].0 < length {
                assert forall|i: int| 0 <= i < mid + 1 implies (#[trigger] before[i]).0
                    < length by {
                    if i < mid {
                        assert(before[i].0 < before[mid as int].0);
                    }
                }
                low = mid + 1;
            } else {
                assert forall|i: int| mid <= i < before.len() implies (#[trigger] before[i]).0
                    >= length by {
                    if i > mid {
                        assert(before[mid as int].0 < before[i].0);
                    }
                }
                high = mid;
            }
        }
        if low < self.buckets.len() && self.buckets[low].0 == length {
            let n: u64 = self.buckets[low].1;
            proof {
                lemma_raise(before, low as int);
            }
            self.buckets[low] = (length, n + 1);
        } else {
            proof {
                lemma_insert(before, low as int, length);
            }
            self.buckets.insert(low, (length, 1));
        }
        self.count = self.count + 1;
        self.sum = self.sum + length;
    }

    /// The smallest recorded length.
    pub fn min(&self) -> (r: Option<u64>)
        requires
            self.wf(),
        ensures
            r == (if self@.len() == 0 {
                None
            } else {
                Some(self@[0])
            }),
            r matches Some(x) ==> forall|i: int| 0 <= i < self@.len() ==> x <= #[trigger] self@[i],
    {
        proof {
            lemma_expanded_ascending(self.buckets@);
        }
        if self.buckets.len() == 0 {
            None
        } else {
            Some(self.buckets[0].0)
        }
    }

    /// The largest recorded length.
    pub fn max(&self) -> (r: Option<u64>)
        requires
            self.wf(),
        ensures
            r == (if self@.len() == 0 {
                None
            } else {
                Some(self@.last())
            }),
            r matches Some(x) ==> forall|i: int| 0 <= i < self@.len() ==> x >= #[trigger] self@[i],
    {
        proof {
            lemma_expanded_ascending(self.buckets@);
        }
        if self.buckets.len() == 0 {
            None
        } else {
            Some(self.buckets[self.buckets.len() - 1].0)
        }
    }

    /// The mean of the recorded lengths.
    pub fn mean(&self) -> (r: Option<Ratio>)
        requires
            self.wf(),
        ensures
            match r {
                None => self@.len() == 0,
                Some(mean) => self@.len() > 0 && mean@ == (total(self@), self@.len()),
            },
    {
        if self.count == 0 {
            None
        } else {
            Some(Ratio { part: self.sum, whole: self.count })
        }
    }

    /// The smallest recorded length that at least `percent` percent of the
    /// recorded lengths do not exceed.
    pub fn quantile(&self, percent: u64) -> (r: Option<u64>)
        requires
            self.wf(),
            percent <= 100,
        ensures
            r == (if self@.len() == 0 {
                None
            } else {
                Some(self@[rank(self@.len(), percent as nat) - 1])
            }),
            r matches Some(x) ==> is_quantile(self@, percent as nat, x),
    {
        if self.count == 0 {
            return None;
        }
        let count: u128 = self.count as u128;
        assert(count * percent <= 100 * count) by (nonlinear_arith)
            requires
                percent <= 100,
                count >= 0,
        ;
        assert(count * percent >= 0) by (nonlinear_arith)
            requires
                count >= 0,
                percent >= 0,
        ;
        let scaled: u128 = (count * percent as u128 + 99) / 100;
        let wanted: u64 = if scaled == 0 {
            1
        } else {
            scaled as u64
        };
        assert(wanted == rank(self@.len(), percent as nat));
        let ghost all = self.buckets@;
        let mut passed: u64 = 0;
        let mut i: usize = 0;
        assert(all.take(0) =~= Seq::empty());
        while i < self.buckets.len()
            invariant
                i <= self.buckets@.len(),
                self.wf(),
                all == self.buckets@,
                passed == expanded(all.take(i as int)).len(),
                passed < wanted <= self.count,
                wanted == rank(self@.len(), percent as nat),
                percent <= 100,
            decreases self.buckets.len() - i,
        {
            let n: u64 = self.buckets[i].1;
            proof {
                assert(all.take(i + 1).drop_last() =~= all.take(i as int));
                assert(all =~= all.take(i + 1) + all.skip(i + 1));
                lemma_expanded_concat(all.take(i + 1), all.skip(i + 1));
            }
            if wanted - passed <= n {
                proof {
                    self.law_lengths_ascend();
                    law_quantile_is_the_smallest_that_covers(self@, percent as nat);
                }
                return Some(self.buckets[i].0);
            }
            passed = passed + n;
            i = i + 1;
        }
        assert(all.take(i as int) =~= all);
        None
    }
}

} // verus!

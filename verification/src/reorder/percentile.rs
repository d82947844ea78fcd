//! What the adaptive wait promises of the latenesses that were measured.

use crate::reorder::lateness::{at_most, TunerModel, WaitTuner};
use vstd::prelude::*;
use vstd::relations::total_ordering;

verus! {

/// How many of the samples are greater than `x`.
pub open spec fn greater_than(samples: Seq<u64>, x: u64) -> nat {
    samples.to_multiset().filter(|y: u64| y > x).len()
}

/// How many of the samples are less than `x`.
pub open spec fn less_than(samples: Seq<u64>, x: u64) -> nat {
    samples.to_multiset().filter(|y: u64| y < x).len()
}

/// In a row that holds what `part` and `rest` hold, what passes the filter comes from `part`, if
/// nothing of `rest` passes it.
proof fn lemma_filtered_part(
    all: Seq<u64>,
    part: Seq<u64>,
    rest: Seq<u64>,
    f: spec_fn(u64) -> bool,
)
    requires
        all.to_multiset() == part.to_multiset().add(rest.to_multiset()),
        forall|i: int| 0 <= i < rest.len() ==> !f(#[trigger] rest[i]),
    ensures
        all.to_multiset().filter(f).len() <= part.len(),
{
    broadcast use vstd::multiset::group_multiset_axioms;

    part.to_multiset_ensures();
    rest.to_multiset_ensures();
    let (a, p) = (all.to_multiset().filter(f), part.to_multiset());
    assert forall|v: u64| a.count(v) <= p.count(v) by {
        if f(v) && rest.to_multiset().count(v) > 0 {
            assert(rest.contains(v));
        }
    }
    assert(a.subset_of(p));
    let extra = p.sub(a);
    assert(a.add(extra) =~= p);
    assert(a.len() <= p.len());
}

proof fn lemma_split(s: Seq<u64>, k: int)
    requires
        0 <= k <= s.len(),
    ensures
        s.to_multiset() == s.take(k).to_multiset().add(s.skip(k).to_multiset()),
{
    vstd::seq_lib::lemma_multiset_commutative(s.take(k), s.skip(k));
    assert(s.take(k) + s.skip(k) =~= s);
}

/// Around the place `k` of the sorted samples: at most those behind it are greater, at most those
/// before it are less.
proof fn lemma_around(samples: Seq<u64>, k: int)
    requires
        0 <= k < samples.len(),
    ensures
        samples.sort_by(at_most()).len() == samples.len(),
        samples.contains(samples.sort_by(at_most())[k]),
        greater_than(samples, samples.sort_by(at_most())[k]) <= samples.len() - 1 - k,
        less_than(samples, samples.sort_by(at_most())[k]) <= k,
{
    let order = samples.sort_by(at_most());
    assert(total_ordering(at_most()));
    samples.lemma_sort_by_ensures(at_most());
    samples.to_multiset_ensures();
    order.to_multiset_ensures();
    let x = order[k];
    assert(order.contains(x));
    assert(samples.to_multiset().count(x) > 0);
    lemma_split(order, k + 1);
    lemma_split(order, k);
    let (low, high) = (order.take(k + 1), order.skip(k + 1));
    assert forall|i: int| 0 <= i < low.len() implies low[i] <= x by {
        if i < k {
            assert(at_most()(order[i], order[k]));
        }
    }
    assert(low.to_multiset().add(high.to_multiset()) =~= high.to_multiset().add(low.to_multiset()));
    lemma_filtered_part(samples, high, low, |y: u64| y > x);
    let (before, from) = (order.take(k), order.skip(k));
    assert forall|i: int| 0 <= i < from.len() implies x <= #[trigger] from[i] by {
        if i > 0 {
            assert(at_most()(order[k], order[k + i]));
        }
    }
    lemma_filtered_part(samples, before, from, |y: u64| y < x);
}

/// Whenever an adaptive wait is computed anew, with every 64th measurement, it is one of the
/// remembered latenesses with a quarter on top, brought into the bounds of 3 to 30 milliseconds.
/// That lateness is the 99th percentile: it stands at the place `k` of the sorted ones, which is 99
/// hundredths of the last place to the nearest whole number. So at most those behind that place are
/// longer, about one in a hundred, and no more than the ones before it are shorter.
pub proof fn law_wait_covers_all_but_the_longest_latenesses()
    ensures
        forall|t: &mut WaitTuner, lateness: u64|
            (*t)@.wf() && (*t)@.adaptive && (*t)@.since == 63 && #[trigger] call_ensures(
                WaitTuner::record,
                (t, lateness),
                (),
            ) ==> exists|x: u64, k: int|
                {
                    &&& #[trigger] is_percentile(final(t)@.samples, x, k)
                    &&& final(t)@.wait == if x + x / 4 < 3_000_000 {
                        3_000_000
                    } else if x + x / 4 > 30_000_000 {
                        30_000_000
                    } else {
                        x + x / 4
                    }
                    &&& greater_than(final(t)@.samples, x) <= final(t)@.samples.len() / 100 + 1
                },
{
    assert forall|t: &mut WaitTuner, lateness: u64|
        (*t)@.wf() && (*t)@.adaptive && (*t)@.since == 63 && #[trigger] call_ensures(
            WaitTuner::record,
            (t, lateness),
            (),
        ) implies exists|x: u64, k: int|
        {
            &&& #[trigger] is_percentile(final(t)@.samples, x, k)
            &&& final(t)@.wait == if x + x / 4 < 3_000_000 {
                3_000_000
            } else if x + x / 4 > 30_000_000 {
                30_000_000
            } else {
                x + x / 4
            }
            &&& greater_than(final(t)@.samples, x) <= final(t)@.samples.len() / 100 + 1
        } by {
        let samples = final(t)@.samples;
        assert(final(t)@ == (*t)@.recorded(lateness));
        let n = samples.len() as int;
        let k = ((n - 1) * 99 + 50) / 100;
        lemma_around(samples, k);
        let x = samples.sort_by(at_most())[k];
        assert(is_percentile(samples, x, k));
    }
}

/// `x` is among the samples and stands at the place `k` of the sorted ones, 99 hundredths of the
/// last place to the nearest whole number.
pub open spec fn is_percentile(samples: Seq<u64>, x: u64, k: int) -> bool {
    &&& samples.contains(x)
    &&& -50 < 100 * k - 99 * (samples.len() - 1) <= 50
    &&& greater_than(samples, x) <= samples.len() - 1 - k
    &&& less_than(samples, x) <= k
}

/// A tuner after a row of measurements.
pub open spec fn measured_all(start: TunerModel, latenesses: Seq<u64>) -> TunerModel
    decreases latenesses.len(),
{
    if latenesses.len() == 0 {
        start
    } else {
        measured_all(start, latenesses.drop_last()).recorded(latenesses.last())
    }
}

/// An adaptive wait remembers the last 512 latenesses that were measured, or all, where there were
/// fewer: each stands in the place of its number, counted by 512. It is computed anew with every
/// 64th measurement, and with no other: until the first 64 are there, it is what it was at first.
pub proof fn law_the_last_latenesses_are_remembered(initial: u64, latenesses: Seq<u64>)
    ensures
        ({
            let t = measured_all(TunerModel::started(initial), latenesses);
            let n = latenesses.len();
            &&& t.wf()
            &&& t.adaptive
            &&& t.samples.len() == if n < 512 {
                n
            } else {
                512
            }
            &&& forall|i: int| n - 512 <= i < n && 0 <= i ==> t.samples[i % 512] == #[trigger] latenesses[i]
            &&& t.since == n % 64
            &&& t.pos == if n < 512 {
                0
            } else {
                n as int % 512
            }
            &&& n % 64 > 0 ==> t.wait == measured_all(
                TunerModel::started(initial),
                latenesses.drop_last(),
            ).wait
            &&& n == 0 ==> t.wait == if initial < 3_000_000 {
                3_000_000
            } else if initial > 30_000_000 {
                30_000_000
            } else {
                initial
            }
        }),
    decreases latenesses.len(),
{
    if latenesses.len() > 0 {
        let before = latenesses.drop_last();
        law_the_last_latenesses_are_remembered(initial, before);
        lemma_one_more(
            measured_all(TunerModel::started(initial), before),
            before,
            latenesses.last(),
        );
        assert(before.push(latenesses.last()) =~= latenesses);
    }
}

/// One more lateness takes its place.
#[verifier::rlimit(40)]
proof fn lemma_one_more(t: TunerModel, latenesses: Seq<u64>, x: u64)
    requires
        t.wf(),
        t.adaptive,
        t.samples.len() == if latenesses.len() < 512 {
            latenesses.len()
        } else {
            512
        },
        forall|i: int|
            latenesses.len() - 512 <= i < latenesses.len() && 0 <= i ==> t.samples[i % 512]
                == #[trigger] latenesses[i],
        t.since == latenesses.len() % 64,
        t.pos == if latenesses.len() < 512 {
            0
        } else {
            latenesses.len() as int % 512
        },
    ensures
        ({
            let (u, all) = (t.recorded(x), latenesses.push(x));
            let n = all.len();
            &&& u.wf()
            &&& u.adaptive
            &&& u.samples.len() == if n < 512 {
                n
            } else {
                512
            }
            &&& forall|i: int| n - 512 <= i < n && 0 <= i ==> u.samples[i % 512] == #[trigger] all[i]
            &&& u.since == n % 64
            &&& u.pos == if n < 512 {
                0
            } else {
                n as int % 512
            }
            &&& n % 64 > 0 ==> u.wait == t.wait
        }),
{
    let (u, all) = (t.recorded(x), latenesses.push(x));
    let m = latenesses.len() as int;
    assert forall|i: int| m + 1 - 512 <= i < m + 1 && 0 <= i implies u.samples[i % 512]
        == #[trigger] all[i] by {
        if i < m {
            assert(all[i] == latenesses[i]);
            assert(t.samples[i % 512] == latenesses[i]);
            if m >= 512 {
                assert(i % 512 != m % 512) by {
                    if i % 512 == m % 512 {
                        assert((m - i) % 512 == 0);
                    }
                }
            }
        }
    }
    if m >= 512 {
        assert((m % 512 + 1) % 512 == (m + 1) % 512);
    }
}

} // verus!

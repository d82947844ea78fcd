//! How long to wait for a missing packet: a fixed time, or one that follows the network.
//!
//! Times are nanoseconds.

use vstd::prelude::*;
use vstd::relations::{sorted_by, total_ordering};

verus! {

/// Bounds of the adaptive wait.
pub const MIN_WAIT: u64 = 3_000_000;

pub const MAX_WAIT: u64 = 30_000_000;

/// How many of the last measured latenesses are remembered.
pub const LATENESS_WINDOW: usize = 512;

/// How many measurements pass between two computations of the wait.
pub const RECALC_EVERY: usize = 64;

/// Nanoseconds in a millisecond.
pub const MILLI: u64 = 1_000_000;

pub open spec fn at_most() -> spec_fn(u64, u64) -> bool {
    |a: u64, b: u64| a <= b
}

/// Position of the 99th percentile among `n` sorted samples: 99% of the last position, to the
/// nearest whole number.
pub open spec fn p99_rank(n: nat) -> int {
    ((n - 1) * 99 + 50) / 100
}

/// The 99th percentile of the samples.
pub open spec fn p99(samples: Seq<u64>) -> u64 {
    samples.sort_by(at_most())[p99_rank(samples.len())]
}

/// A time brought into the bounds of the adaptive wait.
pub open spec fn clamp_wait(t: int) -> u64 {
    if t < MIN_WAIT {
        MIN_WAIT
    } else if t > MAX_WAIT {
        MAX_WAIT
    } else {
        t as u64
    }
}

/// The wait chosen for these samples: their 99th percentile with a quarter on top, in bounds.
pub open spec fn wait_for(samples: Seq<u64>) -> u64 {
    clamp_wait(p99(samples) + p99(samples) / 4)
}

/// The wait and what it is computed from.
#[verifier::ext_equal]
pub struct TunerModel {
    pub wait: u64,
    pub adaptive: bool,
    /// The last latenesses; once [`LATENESS_WINDOW`] are there, a new one replaces that at `pos`.
    pub samples: Seq<u64>,
    pub pos: int,
    /// Measurements since the wait was last computed.
    pub since: int,
}

impl TunerModel {
    /// A wait that stays as it is.
    pub open spec fn fixed(wait: u64) -> Self {
        TunerModel { wait, adaptive: false, samples: Seq::empty(), pos: 0, since: 0 }
    }

    /// A wait that starts with `initial`, brought into the bounds.
    pub open spec fn started(initial: u64) -> Self {
        TunerModel { wait: clamp_wait(initial as int), adaptive: true, ..Self::fixed(initial) }
    }

    pub open spec fn wf(self) -> bool {
        &&& self.samples.len() <= LATENESS_WINDOW
        &&& 0 <= self.pos < LATENESS_WINDOW
        &&& 0 <= self.since < RECALC_EVERY
        &&& self.adaptive ==> MIN_WAIT <= self.wait <= MAX_WAIT
    }

    /// The greatest wait this tuner can reach.
    pub open spec fn limit(self) -> u64 {
        if self.adaptive {
            MAX_WAIT
        } else {
            self.wait
        }
    }

    /// After one more measurement.
    pub open spec fn recorded(self, lateness: u64) -> Self {
        if !self.adaptive {
            self
        } else {
            let full = self.samples.len() >= LATENESS_WINDOW;
            let samples = if full {
                self.samples.update(self.pos, lateness)
            } else {
                self.samples.push(lateness)
            };
            let pos = if full {
                (self.pos + 1) % (LATENESS_WINDOW as int)
            } else {
                self.pos
            };
            let due = self.since + 1 >= RECALC_EVERY;
            TunerModel {
                wait: if due {
                    wait_for(samples)
                } else {
                    self.wait
                },
                adaptive: true,
                samples,
                pos,
                since: if due {
                    0
                } else {
                    self.since + 1
                },
            }
        }
    }
}

/// Puts `x` into its place in a sorted vector.
fn insert_sorted(v: &mut Vec<u64>, x: u64)
    requires
        sorted_by(old(v)@, at_most()),
        old(v)@.len() < usize::MAX,
    ensures
        sorted_by(final(v)@, at_most()),
        final(v)@.to_multiset() == old(v)@.to_multiset().insert(x),
        final(v)@.len() == old(v)@.len() + 1,
{
    let mut i: usize = v.len();
    while i > 0 && v[i - 1] > x
        invariant
            i <= v@.len(),
            v@ == old(v)@,
            sorted_by(v@, at_most()),
            forall|k: int| i <= k < v@.len() ==> v@[k] > x,
        decreases i,
    {
        i -= 1;
    }
    let ghost before = v@;
    proof {
        assert forall|k: int| 0 <= k < i implies #[trigger] v@[k] <= x by {
            if k < i - 1 {
                assert(at_most()(v@[k], v@[i - 1]));
            }
        }
    }
    v.insert(i, x);
    proof {
        broadcast use vstd::seq_lib::group_to_multiset_ensures;

        assert(v@.remove(i as int) =~= before);
        assert(v@.contains(v@[i as int]));
        assert(v@.to_multiset() =~= before.to_multiset().insert(x));
        assert forall|a: int, b: int| 0 <= a < b < v@.len() implies #[trigger] at_most()(v@[a], v@[b]) by {
            if a < i && b > i {
                assert(at_most()(before[a], before[b - 1]));
            } else if b < i {
                assert(at_most()(before[a], before[b]));
            } else if a > i {
                assert(at_most()(before[a - 1], before[b - 1]));
            }
        }
    }
}

/// The samples in ascending order.
fn sorted(samples: &Vec<u64>) -> (out: Vec<u64>)
    ensures
        out@ == samples@.sort_by(at_most()),
{
    let mut out: Vec<u64> = Vec::new();
    let mut i: usize = 0;
    proof {
        broadcast use vstd::seq_lib::group_to_multiset_ensures;

        assert(samples@.take(0) =~= Seq::<u64>::empty());
        assert(out@ =~= Seq::<u64>::empty());
    }
    while i < samples.len()
        invariant
            i <= samples@.len(),
            out@.len() == i,
            sorted_by(out@, at_most()),
            out@.to_multiset() == samples@.take(i as int).to_multiset(),
        decreases samples@.len() - i,
    {
        insert_sorted(&mut out, samples[i]);
        proof {
            broadcast use vstd::seq_lib::group_to_multiset_ensures;

            assert(samples@.take(i as int).push(samples@[i as int]) =~= samples@.take(i + 1));
        }
        i += 1;
    }
    proof {
        assert(samples@.take(i as int) =~= samples@);
        assert(total_ordering(at_most()));
        samples@.lemma_sort_by_ensures(at_most());
        vstd::seq_lib::lemma_sorted_unique(out@, samples@.sort_by(at_most()), at_most());
    }
    out
}

/// The wait for a missing packet.
pub struct WaitTuner {
    wait: u64,
    adaptive: bool,
    samples: Vec<u64>,
    pos: usize,
    since: usize,
}

impl View for WaitTuner {
    type V = TunerModel;

    closed spec fn view(&self) -> TunerModel {
        TunerModel {
            wait: self.wait,
            adaptive: self.adaptive,
            samples: self.samples@,
            pos: self.pos as int,
            since: self.since as int,
        }
    }
}

impl WaitTuner {
    /// A fixed wait.
    pub fn fixed(wait: u64) -> (tuner: Self)
        ensures
            tuner@ == TunerModel::fixed(wait),
            tuner@.wf(),
    {
        Self { wait, adaptive: false, samples: Vec::new(), pos: 0, since: 0 }
    }

    /// A wait that starts with `initial` and follows the measured lateness.
    pub fn adaptive(initial: u64) -> (tuner: Self)
        ensures
            tuner@ == TunerModel::started(initial),
            tuner@.wf(),
    {
        Self { wait: clamp(initial as u128), adaptive: true, samples: Vec::new(), pos: 0, since: 0 }
    }

    pub fn wait(&self) -> (wait: u64)
        ensures
            wait == self@.wait,
    {
        self.wait
    }

    /// Takes in the lateness of one reordered packet: from the discovery of the gap to its arrival.
    pub fn record(&mut self, lateness: u64)
        requires
            old(self)@.wf(),
        ensures
            final(self)@ == old(self)@.recorded(lateness),
            final(self)@.wf(),
    {
        if !self.adaptive {
            return;
        }
        if self.samples.len() < LATENESS_WINDOW {
            self.samples.push(lateness);
        } else {
            let pos: usize = self.pos;
            self.samples[pos] = lateness;
            self.pos = (pos + 1) % LATENESS_WINDOW;
        }
        self.since += 1;
        if self.since >= RECALC_EVERY {
            self.since = 0;
            let order = sorted(&self.samples);
            proof {
                self.samples@.lemma_sort_by_ensures(at_most());
                self.samples@.to_multiset_ensures();
                self.samples@.sort_by(at_most()).to_multiset_ensures();
                assert(order@.len() == self.samples@.len());
            }
            let rank: usize = ((order.len() - 1) * 99 + 50) / 100;
            let p: u128 = order[rank] as u128;
            self.wait = clamp(p + p / 4);
        }
        assert(self@ =~= old(self)@.recorded(lateness));
    }
}

fn clamp(t: u128) -> (wait: u64)
    ensures
        wait == clamp_wait(t as int),
{
    if t < MIN_WAIT as u128 {
        MIN_WAIT
    } else if t > MAX_WAIT as u128 {
        MAX_WAIT
    } else {
        t as u64
    }
}

} // verus!

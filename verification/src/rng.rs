use vstd::prelude::*;
use std::time::{Duration, SystemTime};

verus! {

/// The multiplier of the generator's linear congruential step.
pub const LCG_MUL: u64 = 6364136223846793005;

/// The increment of the generator's linear congruential step.
pub const LCG_ADD: u64 = 1442695040888963407;

/// Mixed into the clock reading that seeds a generator.
pub const SEED_MIX: u64 = 0x9E3779B97F4A7C15;

/// One step of the generator: `s * LCG_MUL + LCG_ADD` modulo 2^64.
#[verifier::opaque]
pub open spec fn lcg(s: u64) -> u64 {
    vstd::wrapping::u64_specs::wrapping_add(vstd::wrapping::u64_specs::wrapping_mul(s, LCG_MUL), LCG_ADD)
}

/// A small pseudo-random number generator (a 64-bit linear congruential one).
pub struct Rng(u64);

impl Rng {
    /// The generator's state.
    pub closed spec fn state(&self) -> u64 {
        self.0
    }

    /// A generator seeded from a clock reading in nanoseconds.
    pub fn from_clock(nanos: u64) -> (rng: Rng)
        ensures
            rng.state() == nanos ^ SEED_MIX,
    {
        Rng(nanos ^ SEED_MIX)
    }

    /// A generator seeded from the system clock: from the nanoseconds since
    /// 1970 that `clock_nanos` makes of the clock's reading. `None` when the
    /// clock reads before 1970, for which there is no such reading.
    pub fn from_time() -> (r: Option<Rng>)
        ensures
            r matches Some(g) ==> exists|reading: u128| g.state() == #[trigger] nanos_of(reading) ^ SEED_MIX,
    {
        let now = system_time_now();
        match duration_since_epoch(&now) {
            Some(d) => {
                let reading = duration_as_nanos(&d);
                let g = Rng::from_clock(clock_nanos(reading));
                assert(g.state() == nanos_of(reading) ^ SEED_MIX);
                Some(g)
            },
            None => None,
        }
    }

    /// Advances the generator one step and returns its new state.
    pub fn next(&mut self) -> (r: u64)
        ensures
            final(self).state() == lcg(old(self).state()),
            r == final(self).state(),
    {
        self.0 = self.0.wrapping_mul(LCG_MUL).wrapping_add(LCG_ADD);
        proof {
            reveal(lcg);
        }
        self.0
    }

    /// A number below `n` (zero when `n` is zero, without a step).
    pub fn range(&mut self, n: usize) -> (r: usize)
        ensures
            n == 0 ==> r == 0 && final(self).state() == old(self).state(),
            n > 0 ==> final(self).state() == lcg(old(self).state()) && r == lcg(old(self).state()) % (n as u64),
            n > 0 ==> r < n,
    {
        if n == 0 {
            return 0;
        }
        (self.next() % (n as u64)) as usize
    }

    /// One of `items`, chosen by one step of the generator.
    pub fn pick<T: Copy>(&mut self, items: &[T]) -> (r: T)
        requires
            items@.len() > 0,
        ensures
            final(self).state() == lcg(old(self).state()),
            r == items@[(lcg(old(self).state()) % (items@.len() as u64)) as int],
    {
        items[self.range(items.len())]
    }

    /// Shuffles `items` in place (Fisher-Yates, from the last index down).
    pub fn shuffle<T>(&mut self, items: &mut [T])
        ensures
            final(items)@ == shuffled(old(items)@, old(self).state(), old(items)@.len() - 1).0,
            final(self).state() == shuffled(old(items)@, old(self).state(), old(items)@.len() - 1).1,
            final(items)@.to_multiset() == old(items)@.to_multiset(),
    {
        let n = items.len();
        let ghost start = items@;
        let ghost seed = self.state();
        let mut i = n;
        if i > 0 {
            i = i - 1;
        }
        // `i` is the highest index still to be placed.
        while i >= 1
            invariant
                n == items@.len(),
                n == start.len(),
                (n == 0 && i == 0) || i < n,
                shuffled(items@, self.state(), i as int) == shuffled(start, seed, n - 1),
                items@.to_multiset() == start.to_multiset(),
            decreases i,
        {
            let ghost before = items@;
            let ghost s0 = self.state();
            let j = self.range(i + 1);
            proof {
                lemma_swap_multiset(before, i as int, j as int);
            }
            slice_swap(items, i, j);
            assert(shuffled(before, s0, i as int) == shuffled(swapped(before, i as int, j as int), self.state(), i - 1));
            i = i - 1;
        }
        proof {
            if n == 0 {
                assert(items@ =~= start);
            }
        }
    }
}

/// The seed-sized count of nanoseconds that a clock reading (nanoseconds
/// since 1970) gives: the reading modulo 2^64.
pub open spec fn nanos_of(reading: u128) -> u64 {
    (reading % 0x1_0000_0000_0000_0000) as u64
}

/// The seed-sized count of nanoseconds that a clock reading gives (see `nanos_of`).
pub fn clock_nanos(reading: u128) -> (n: u64)
    ensures
        n == nanos_of(reading),
{
    (reading % 0x1_0000_0000_0000_0000) as u64
}

/// `s` with the items at `i` and `j` exchanged.
pub open spec fn swapped<T>(s: Seq<T>, i: int, j: int) -> Seq<T> {
    s.update(i, s[j]).update(j, s[i])
}

/// The items and generator state after the shuffle steps for indices
/// `i`, `i - 1`, ..., 1: each exchanges index `k` with an index below
/// `k + 1` drawn from the generator.
pub open spec fn shuffled<T>(s: Seq<T>, state: u64, i: int) -> (Seq<T>, u64)
    decreases i,
{
    if i < 1 {
        (s, state)
    } else {
        let next = lcg(state);
        let j = (next % ((i + 1) as u64)) as int;
        shuffled(swapped(s, i, j), next, i - 1)
    }
}

/// Exchanging two items keeps the multiset of items.
pub proof fn lemma_swap_multiset<T>(s: Seq<T>, i: int, j: int)
    requires
        0 <= i < s.len(),
        0 <= j < s.len(),
    ensures
        swapped(s, i, j).to_multiset() == s.to_multiset(),
{
    broadcast use {
        vstd::seq_lib::to_multiset_update,
        vstd::seq_lib::to_multiset_contains,
        vstd::multiset::group_multiset_properties,
        vstd::multiset::group_multiset_axioms,
    };

    if i == j {
        assert(swapped(s, i, j) =~= s);
    } else {
        let t = s.update(i, s[j]);
        let m = s.to_multiset();
        assert(t.to_multiset() == m.insert(s[j]).remove(s[i]));
        assert(t[j] == s[j]);
        assert(t.update(j, s[i]).to_multiset() == t.to_multiset().insert(s[i]).remove(s[j]));
        assert(m.count(s[i]) > 0) by {
            assert(s.contains(s[i]));
        }
        assert forall|v: T| #[trigger] swapped(s, i, j).to_multiset().count(v) == m.count(v) by {
        }
        assert(swapped(s, i, j).to_multiset() =~= m);
    }
}

#[verifier::external_type_specification]
#[verifier::external_body]
pub struct ExSystemTime(SystemTime);

/// Calls `std::time::SystemTime::now`. Nothing is claimed of the reading.
#[verifier::external_body]
fn system_time_now() -> SystemTime {
    SystemTime::now()
}

/// Calls `SystemTime::duration_since` with `UNIX_EPOCH`, turning its error
/// (the clock reads before 1970) into `None`. Nothing is claimed of the duration.
#[verifier::external_body]
fn duration_since_epoch(t: &SystemTime) -> Option<Duration> {
    t.duration_since(std::time::UNIX_EPOCH).ok()
}

/// Calls `std::time::Duration::as_nanos`. Nothing is claimed of the count.
#[verifier::external_body]
fn duration_as_nanos(d: &Duration) -> u128 {
    d.as_nanos()
}

/// Calls `<[T]>::swap`, which exchanges the items at `i` and `j`.
#[verifier::external_body]
fn slice_swap<T>(items: &mut [T], i: usize, j: usize)
    requires
        i < old(items)@.len(),
        j < old(items)@.len(),
    ensures
        final(items)@ == swapped(old(items)@, i as int, j as int),
{
    items.swap(i, j);
}

} // verus!

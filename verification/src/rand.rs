//! The randomness that maze generation draws on: uniform integers and
//! shuffles, behind a capability that callers may replace.
//!
//! Nothing here is fit for uses where the distribution or secrecy of the
//! numbers matters.

use vstd::prelude::*;

verus! {

broadcast use vstd::seq_lib::group_to_multiset_ensures;

/// Trusted: the type `std::time::SystemTime`, a reading of the system clock.
/// Nothing is known of what a value holds.
#[verifier::external_type_specification]
#[verifier::external_body]
pub struct ExSystemTime(std::time::SystemTime);

/// Trusted: the type `std::time::SystemTimeError`, the error of a reading that
/// lies before the moment it is measured from. Nothing is known of what a
/// value holds.
#[verifier::external_type_specification]
#[verifier::external_body]
pub struct ExSystemTimeError(std::time::SystemTimeError);

/// Trusted: `std::time::SystemTime::now`, the current reading of the system
/// clock. Nothing is claimed about the value.
#[verifier::external_body]
fn clock_now() -> std::time::SystemTime {
    std::time::SystemTime::now()
}

/// Trusted: `std::time::SystemTime::duration_since`, asked for the time that
/// passed between `std::time::UNIX_EPOCH` and `t`. It fails when `t` lies
/// before the epoch; nothing is claimed about which of the two happens.
#[verifier::external_body]
fn since_epoch(t: &std::time::SystemTime) -> Result<
    std::time::Duration,
    std::time::SystemTimeError,
> {
    t.duration_since(std::time::UNIX_EPOCH)
}

/// Trusted: `std::time::Duration::subsec_nanos`, the part of a duration below
/// one second in nanoseconds, which std documents as less than one billion.
#[verifier::external_body]
fn subsec_nanos(d: &std::time::Duration) -> (ns: u32)
    ensures
        ns < NANOS_PER_SEC,
{
    d.subsec_nanos()
}

/// How many failed clock readings `rand` tolerates before it gives up.
pub const MAX_CLOCK_TRIES: u32 = 100;

/// The number of nanoseconds in a second, which no sub-second reading reaches.
pub const NANOS_PER_SEC: u32 = 1_000_000_000;

/// What a clock reading comes to in the interval `[0, end)`: its remainder
/// by `end`.
pub open spec fn reduced(reading: u32, end: usize) -> int {
    reading as int % end as int
}

/// The number `r` is what some sub-second clock reading comes to in the
/// interval `[0, end)`. The reading 0 stands for a clock that cannot be read.
pub open spec fn drawn_from_clock(r: usize, end: usize) -> bool {
    exists|reading: u32| reading < NANOS_PER_SEC && r == #[trigger] reduced(reading, end)
}

/// Folds a clock reading into the interval `[0, end)`.
pub fn reduce(reading: u32, end: usize) -> (r: usize)
    requires
        end > 0,
    ensures
        r == reduced(reading, end),
        r < end,
        r <= reading,
{
    proof {
        vstd::arithmetic::div_mod::lemma_mod_decreases(reading as nat, end as nat);
    }
    (reading as usize) % end
}

/// What the outcome of the clock readings comes to in the interval
/// `[0, end)`: the remainder by `end` of the reading that succeeded, and 0
/// where none did.
pub open spec fn settled(reading: Option<u32>, end: usize) -> int {
    match reading {
        Some(ns) => reduced(ns, end),
        None => 0,
    }
}

/// Turns the outcome of the clock readings into a number in the interval
/// `[0, end)`: the reading that succeeded is folded into the interval, and
/// where every reading failed the number is 0.
pub fn settle(reading: Option<u32>, end: usize) -> (r: usize)
    requires
        end > 0,
    ensures
        r == settled(reading, end),
        r < end,
        reading matches Some(ns) ==> r <= ns,
{
    match reading {
        Some(ns) => reduce(ns, end),
        None => 0,
    }
}

/// A number in the interval `[0, end)`, taken from the sub-second part of the
/// system clock: the remainder by `end` of the nanoseconds that have passed
/// since the last full second. The clock is read until a reading succeeds,
/// at most `MAX_CLOCK_TRIES` times, and [`settle`] turns the outcome into the
/// number: a clock that cannot be read yields 0.
pub fn rand(end: usize) -> (r: usize)
    requires
        end > 0,
    ensures
        r < end,
        r < NANOS_PER_SEC,
        drawn_from_clock(r, end),
{
    let mut reading: Option<u32> = None;
    let mut steps: u32 = 0;
    while reading.is_none() && steps < MAX_CLOCK_TRIES
        invariant
            steps <= MAX_CLOCK_TRIES,
            reading matches Some(ns) ==> ns < NANOS_PER_SEC,
        decreases
                MAX_CLOCK_TRIES - steps + if reading.is_none() {
                    1int
                } else {
                    0int
                },
    {
        let now = clock_now();
        match since_epoch(&now) {
            Ok(elapsed) => {
                reading = Some(subsec_nanos(&elapsed));
            },
            Err(_) => {
                steps += 1;
            },
        }
    }
    proof {
        if reading.is_none() {
            assert(reduced(0, end) == 0);
        }
    }
    settle(reading, end)
}

/// A supplier of random integers.
pub trait RandomSource {
    /// A number in the interval `[0, n)`.
    fn uniform(&mut self, n: usize) -> (r: usize)
        requires
            n > 0,
        ensures
            r < n,
    ;
}

/// The source that reads the system clock through [`rand`].
pub struct Clock;

impl RandomSource for Clock {
    /// What [`rand`] gives for `n`: the remainder by `n` of a sub-second
    /// reading of the system clock.
    fn uniform(&mut self, n: usize) -> (r: usize)
        ensures
            r < NANOS_PER_SEC,
            drawn_from_clock(r, n),
    {
        rand(n)
    }
}

/// Multiplier of the linear congruential step of [`Seeded`].
pub const LCG_MUL: u64 = 6364136223846793005;

/// Increment of the linear congruential step of [`Seeded`].
pub const LCG_INC: u64 = 1442695040888963407;

/// The state that follows `s` in the generator of [`Seeded`].
pub open spec fn lcg_next(s: u64) -> u64 {
    ((s * LCG_MUL + LCG_INC) % 0x1_0000_0000_0000_0000) as u64
}

/// The number that a generator in state `s` hands out: its upper 31 bits.
pub open spec fn lcg_output(s: u64) -> int {
    s as int / 0x2_0000_0000
}

/// A reproducible source: a 64-bit linear congruential generator that starts
/// from a seed, so that a run can be repeated.
pub struct Seeded {
    state: u64,
}

impl View for Seeded {
    type V = u64;

    /// The generator's current state.
    closed spec fn view(&self) -> u64 {
        self.state
    }
}

impl Seeded {
    /// A generator whose state is `seed`.
    pub fn new(seed: u64) -> (g: Self)
        ensures
            g@ == seed,
    {
        Seeded { state: seed }
    }
}

impl RandomSource for Seeded {
    /// Advances the state once and reduces its upper bits modulo `n`.
    fn uniform(&mut self, n: usize) -> (r: usize)
        ensures
            final(self)@ == lcg_next(old(self)@),
            r == lcg_output(final(self)@) % n as int,
    {
        self.state = self.state.wrapping_mul(LCG_MUL).wrapping_add(LCG_INC);
        let upper: u64 = self.state / 0x2_0000_0000;
        (upper as usize) % n
    }
}

/// Trusted: `<[T]>::swap`, which exchanges the elements at the two positions
/// and leaves every other element where it is; std documents a panic for a
/// position past the end, which the precondition rules out.
pub assume_specification<Elem>[ <[Elem]>::swap ](slice: &mut [Elem], a: usize, b: usize)
    requires
        a < old(slice)@.len(),
        b < old(slice)@.len(),
    ensures
        final(slice)@ == old(slice)@.update(a as int, old(slice)@[b as int]).update(
            b as int,
            old(slice)@[a as int],
        ),
;

/// Exchanging two elements of a sequence keeps its length and its multiset
/// of elements.
pub proof fn lemma_swap_keeps_elements<T>(s: Seq<T>, a: int, b: int)
    requires
        0 <= a < s.len(),
        0 <= b < s.len(),
    ensures
        s.update(a, s[b]).update(b, s[a]).len() == s.len(),
        s.update(a, s[b]).update(b, s[a]).to_multiset() == s.to_multiset(),
{
    let mid = s.update(a, s[b]);
    vstd::seq_lib::to_multiset_update(s, a, s[b]);
    vstd::seq_lib::to_multiset_update(mid, b, s[a]);
    assert(mid.update(b, s[a]).to_multiset() =~= s.to_multiset());
}

/// The sequence `s` with the elements at the places `a` and `b` exchanged.
pub open spec fn swapped<T>(s: Seq<T>, a: int, b: int) -> Seq<T> {
    s.update(a, s[b]).update(b, s[a])
}

/// The draws fit a sequence of `len` elements: there is one draw for every
/// slot from the last down to the second, and the draw for a slot is that
/// slot or an earlier one.
pub open spec fn draws_fit(draws: Seq<usize>, len: nat) -> bool {
    &&& draws.len() == if len == 0 {
        0
    } else {
        len - 1
    }
    &&& forall|k: int| 0 <= k < draws.len() ==> #[trigger] draws[k] <= len - 1 - k
}

/// The sequence `s` after the first `k` exchanges that `draws` asks for: the
/// first exchanges the last slot with the slot `draws[0]`, the next the slot
/// before the last with the slot `draws[1]`, and so on down.
pub open spec fn rearranged<T>(s: Seq<T>, draws: Seq<usize>, k: nat) -> Seq<T>
    decreases k,
{
    if k == 0 {
        s
    } else {
        swapped(rearranged(s, draws, (k - 1) as nat), s.len() - k, draws[k - 1] as int)
    }
}

/// The exchanges that fitting draws ask for keep the length of the sequence
/// and its multiset of elements.
pub proof fn lemma_rearranged_keeps_elements<T>(s: Seq<T>, draws: Seq<usize>, k: nat)
    requires
        draws_fit(draws, s.len()),
        k <= draws.len(),
    ensures
        rearranged(s, draws, k).len() == s.len(),
        rearranged(s, draws, k).to_multiset() == s.to_multiset(),
    decreases k,
{
    if k > 0 {
        lemma_rearranged_keeps_elements(s, draws, (k - 1) as nat);
        lemma_swap_keeps_elements(
            rearranged(s, draws, (k - 1) as nat),
            s.len() - k,
            draws[k - 1] as int,
        );
    }
}

/// Rearranges `v` by the exchanges that `draws` asks for, from the last slot
/// down to the second: the slot `v.len() - 1 - k` changes places with the slot
/// `draws[k]`.
pub fn rearrange<T>(v: &mut Vec<T>, draws: &Vec<usize>)
    requires
        draws_fit(draws@, old(v)@.len()),
    ensures
        final(v)@ == rearranged(old(v)@, draws@, draws@.len()),
        final(v)@.len() == old(v)@.len(),
        final(v)@.to_multiset() == old(v)@.to_multiset(),
{
    let n: usize = v.len();
    let mut k: usize = 0;
    while k < draws.len()
        invariant
            n == old(v)@.len(),
            draws_fit(draws@, n as nat),
            k <= draws@.len(),
            v@.len() == n,
            v@ == rearranged(old(v)@, draws@, k as nat),
        decreases draws@.len() - k,
    {
        let i: usize = n - 1 - k;
        let j: usize = draws[k];
        v.as_mut_slice().swap(i, j);
        k += 1;
    }
    proof {
        lemma_rearranged_keeps_elements(old(v)@, draws@, draws@.len());
    }
}

/// Shuffles `v` with numbers drawn from `rng` (Fisher-Yates): for every slot
/// from the last down to the second, a slot is drawn among that slot and the
/// earlier ones, and [`rearrange`] then exchanges each slot with the one
/// drawn for it. Every order can come out, the one that went in among them.
///
/// The outcome holds the same elements as before.
pub fn shuffle_with<T, R: RandomSource>(v: &mut Vec<T>, rng: &mut R)
    ensures
        final(v)@.len() == old(v)@.len(),
        final(v)@.to_multiset() == old(v)@.to_multiset(),
        exists|draws: Seq<usize>| #[trigger]
            draws_fit(draws, old(v)@.len()) && final(v)@ == rearranged(
                old(v)@,
                draws,
                draws.len(),
            ),
{
    let n: usize = v.len();
    let mut draws: Vec<usize> = Vec::new();
    let mut i: usize = n;
    while i > 1
        invariant
            n == v@.len(),
            v@ == old(v)@,
            i <= n,
            n >= 1 ==> i >= 1,
            draws@.len() == n - i,
            forall|k: int| 0 <= k < draws@.len() ==> #[trigger] draws@[k] <= n - 1 - k,
        decreases i,
    {
        i -= 1;
        let j: usize = rng.uniform(i + 1);
        draws.push(j);
    }
    rearrange(v, &draws);
    proof {
        assert(draws_fit(draws@, old(v)@.len()));
    }
}

/// Shuffles `v` as [`shuffle_with`] does, with numbers from the system clock.
pub fn shuffle<T>(v: &mut Vec<T>)
    ensures
        final(v)@.len() == old(v)@.len(),
        final(v)@.to_multiset() == old(v)@.to_multiset(),
        exists|draws: Seq<usize>| #[trigger]
            draws_fit(draws, old(v)@.len()) && final(v)@ == rearranged(
                old(v)@,
                draws,
                draws.len(),
            ),
{
    let mut clock = Clock;
    shuffle_with(v, &mut clock)
}

} // verus!

//! The xorshift128 generator.
use vstd::prelude::*;

verus! {

#[verifier::external_type_specification]
#[verifier::external_body]
pub struct ExSystemTime(std::time::SystemTime);

/// `SystemTime::now`: the current time of the system clock; nothing is known of it.
#[verifier::external_body]
fn system_now() -> (r: std::time::SystemTime) {
    std::time::SystemTime::now()
}

/// `SystemTime::duration_since(UNIX_EPOCH)`: the time elapsed since the Unix epoch; none when the
/// time lies before the epoch. Nothing is known of the duration.
#[verifier::external_body]
fn since_unix_epoch(t: &std::time::SystemTime) -> (r: Option<core::time::Duration>) {
    match t.duration_since(std::time::UNIX_EPOCH) {
        Ok(d) => Some(d),
        Err(_) => None,
    }
}

/// `Duration::as_millis`: the whole milliseconds of a duration; nothing is known of the value.
#[verifier::external_body]
fn duration_millis(d: &core::time::Duration) -> (r: u128) {
    d.as_millis()
}

/// `Duration::subsec_nanos`: the nanoseconds within the current second, below 10^9 as its
/// documentation states.
#[verifier::external_body]
fn duration_subsec_nanos(d: &core::time::Duration) -> (r: u32)
    ensures
        r < 1_000_000_000,
{
    d.subsec_nanos()
}

/// Why a generator could not be seeded from the clock.
#[derive(Debug, Clone, Copy, PartialEq, Eq, Structural)]
pub enum ClockError {
    /// The system clock is set before the Unix epoch.
    BeforeEpoch,
    /// The time gave the state zero, which the generator cannot start from.
    ZeroState,
}

/// The seed made of a time since the epoch: the milliseconds in the high 64 bits, the
/// nanoseconds of the second in the low ones.
pub open spec fn time_seed(ms: u128, ns: u32) -> u128 {
    (ms << 64u32) | (ns as u128)
}

/// The words a generator starts from for a reading of the clock: `BeforeEpoch` without a
/// reading, `ZeroState` when the seed is zero, else the words of the seed.
pub open spec fn seeded(elapsed: Option<(u128, u32)>) -> Result<(u32, u32, u32, u32), ClockError> {
    match elapsed {
        None => Err(ClockError::BeforeEpoch),
        Some((ms, ns)) => if time_seed(ms, ns) == 0 {
            Err(ClockError::ZeroState)
        } else {
            Ok(split_state(time_seed(ms, ns)))
        },
    }
}

/// A xorshift128 pseudo-random generator over four 32-bit words.
#[derive(Debug)]
pub struct XorShiftRng128 {
    state: [u32; 4],
}

/// The four words of a 128-bit state, most significant first.
pub open spec fn split_state(state: u128) -> (u32, u32, u32, u32) {
    ((state >> 96) as u32, (state >> 64) as u32, (state >> 32) as u32, state as u32)
}

/// The 128-bit number made of four words, most significant first.
pub open spec fn join_state(s: (u32, u32, u32, u32)) -> u128 {
    ((s.0 as u128) << 96) | ((s.1 as u128) << 64) | ((s.2 as u128) << 32) | (s.3 as u128)
}

/// One xorshift128 step: the words shift down by one and a new first word is mixed from the
/// old first and last words.
pub open spec fn xorshift_step(s: (u32, u32, u32, u32)) -> (u32, u32, u32, u32) {
    let t0 = s.3;
    let t1 = t0 ^ ((t0 << 11u32) as u32);
    let t2 = t1 ^ (t1 >> 8u32);
    let x = s.0;
    (t2 ^ x ^ (x >> 19u32), x, s.1, s.2)
}

/// The words of a generator that was made, or the error.
pub open spec fn result_words(r: Result<XorShiftRng128, ClockError>) -> Result<(u32, u32, u32, u32), ClockError> {
    match r {
        Ok(g) => Ok(g.words()),
        Err(e) => Err(e),
    }
}

impl XorShiftRng128 {
    /// The current four words.
    pub closed spec fn words(&self) -> (u32, u32, u32, u32) {
        (self.state[0], self.state[1], self.state[2], self.state[3])
    }

    /// Creates a generator seeded with the time elapsed since the Unix epoch: whatever the clock
    /// reads, the result is what [`XorShiftRng128::from_elapsed`] makes of that reading.
    pub fn timestamp() -> (r: Result<Self, ClockError>)
        ensures
            exists|e: Option<(u128, u32)>|
                #![trigger seeded(e)]
                (e matches Some((_, ns)) ==> ns < 1_000_000_000) && result_words(r) == seeded(e),
    {
        let now = system_now();
        let elapsed = match since_unix_epoch(&now) {
            Some(d) => Some((duration_millis(&d), duration_subsec_nanos(&d))),
            None => None,
        };
        let r = XorShiftRng128::from_elapsed(elapsed);
        assert(result_words(r) == seeded(elapsed));
        r
    }

    /// Creates a generator from the time elapsed since the Unix epoch, given as whole
    /// milliseconds and the nanoseconds of the second, or none for a time before the epoch.
    pub fn from_elapsed(elapsed: Option<(u128, u32)>) -> (r: Result<Self, ClockError>)
        ensures
            result_words(r) == seeded(elapsed),
    {
        match elapsed {
            Some((ms, ns)) => {
                let state = (ms << 64u32) | (ns as u128);
                if state == 0 {
                    return Err(ClockError::ZeroState);
                }
                let g = XorShiftRng128::with_state(state);
                assert(time_seed(ms, ns) == state);
                Ok(g)
            },
            None => Err(ClockError::BeforeEpoch),
        }
    }

    /// Creates a generator from a non-zero 128-bit state.
    pub fn with_state(state: u128) -> (r: Self)
        requires
            state != 0,
        ensures
            r.words() == split_state(state),
    {
        let s: [u32; 4] = [
            (state >> 96) as u32,
            (state >> 64) as u32 & 0xFFFFFFFF,
            (state >> 32) as u32 & 0xFFFFFFFF,
            (state & 0xFFFFFFFF) as u32,
        ];
        assert(((state >> 64) as u32 & 0xFFFFFFFF) == (state >> 64) as u32) by (bit_vector);
        assert(((state >> 32) as u32 & 0xFFFFFFFF) == (state >> 32) as u32) by (bit_vector);
        assert((state & 0xFFFFFFFF) as u32 == state as u32) by (bit_vector);
        XorShiftRng128 { state: s }
    }

    /// Advances the generator one step and returns the new state as one 128-bit number.
    pub fn next(&mut self) -> (r: u128)
        ensures
            final(self).words() == xorshift_step(old(self).words()),
            r == join_state(xorshift_step(old(self).words())),
    {
        let mut t = self.state[3];
        let s = self.state[0];
        let s1 = self.state[1];
        let s2 = self.state[2];
        t = t ^ (t << 11u32);
        t = t ^ (t >> 8u32);
        let s0 = t ^ s ^ (s >> 19u32);
        self.state = [s0, s, s1, s2];
        ((s0 as u128) << 96u32) | ((s as u128) << 64u32) | ((s1 as u128) << 32u32) | (s2 as u128)
    }

    /// The low 32 bits of the next state.
    pub fn next_32(&mut self) -> (r: u32)
        ensures
            final(self).words() == xorshift_step(old(self).words()),
            r == join_state(xorshift_step(old(self).words())) as u32,
    {
        self.next() as u32
    }

    /// The low 64 bits of the next state.
    pub fn next_64(&mut self) -> (r: u64)
        ensures
            final(self).words() == xorshift_step(old(self).words()),
            r == join_state(xorshift_step(old(self).words())) as u64,
    {
        self.next() as u64
    }

    /// The next state.
    pub fn next_128(&mut self) -> (r: u128)
        ensures
            final(self).words() == xorshift_step(old(self).words()),
            r == join_state(xorshift_step(old(self).words())),
    {
        self.next()
    }
}

/// A step never leads from a non-zero state to the zero state, so a generator started from a
/// non-zero state never reaches the state from which it would only produce zeros.
pub proof fn law_step_keeps_nonzero(s: (u32, u32, u32, u32))
    requires
        s != (0u32, 0u32, 0u32, 0u32),
    ensures
        xorshift_step(s) != (0u32, 0u32, 0u32, 0u32),
{
    let t0 = s.3;
    let t1 = t0 ^ ((t0 << 11u32) as u32);
    let t2 = t1 ^ (t1 >> 8u32);
    assert(t1 ^ (t1 >> 8u32) == 0 ==> t1 == 0) by (bit_vector);
    assert(t0 ^ ((t0 << 11u32) as u32) == 0 ==> t0 == 0) by (bit_vector);
    let x = s.0;
    assert(x == 0 ==> t2 ^ x ^ (x >> 19u32) == t2) by (bit_vector);
}

/// Two generators in the same state produce the same value and reach the same state.
pub proof fn law_same_state_same_output(a: (u32, u32, u32, u32), b: (u32, u32, u32, u32))
    requires
        a == b,
    ensures
        xorshift_step(a) == xorshift_step(b),
        join_state(xorshift_step(a)) == join_state(xorshift_step(b)),
{
}

/// The words after `n` steps from `s`.
pub open spec fn steps(s: (u32, u32, u32, u32), n: nat) -> (u32, u32, u32, u32)
    decreases n,
{
    if n == 0 {
        s
    } else {
        xorshift_step(steps(s, (n - 1) as nat))
    }
}

/// The value that the `n`-th call of `next` (counting from zero) returns, starting from `s`.
pub open spec fn nth_output(s: (u32, u32, u32, u32), n: nat) -> u128 {
    join_state(steps(s, n + 1))
}

/// Two generators in equal states return equal values on every call.
pub proof fn law_equal_states_equal_outputs(a: (u32, u32, u32, u32), b: (u32, u32, u32, u32))
    requires
        a == b,
    ensures
        forall|n: nat| #[trigger] nth_output(a, n) == nth_output(b, n),
        forall|n: nat| #[trigger] steps(a, n) == steps(b, n),
{
}

proof fn lemma_steps_nonzero(s: (u32, u32, u32, u32), n: nat)
    requires
        s != (0u32, 0u32, 0u32, 0u32),
    ensures
        steps(s, n) != (0u32, 0u32, 0u32, 0u32),
    decreases n,
{
    if n > 0 {
        lemma_steps_nonzero(s, (n - 1) as nat);
        law_step_keeps_nonzero(steps(s, (n - 1) as nat));
    }
}

proof fn lemma_join_nonzero(w: (u32, u32, u32, u32))
    requires
        w != (0u32, 0u32, 0u32, 0u32),
    ensures
        join_state(w) != 0,
{
    let (a, b, c, d) = w;
    assert(a != 0 || b != 0 || c != 0 || d != 0);
    assert((a != 0 || b != 0 || c != 0 || d != 0) ==> ((a as u128) << 96) | ((b as u128) << 64) | (
    (c as u128) << 32) | (d as u128) != 0) by (bit_vector);
}

proof fn lemma_split_nonzero(state: u128)
    requires
        state != 0,
    ensures
        split_state(state) != (0u32, 0u32, 0u32, 0u32),
{
    assert(state != 0 ==> (state >> 96) as u32 != 0 || (state >> 64) as u32 != 0 || (state >> 32) as u32
        != 0 || state as u32 != 0) by (bit_vector);
}

/// A generator made from a non-zero state never returns zero: every call of `next` gives a
/// non-zero value.
pub proof fn law_outputs_nonzero(state: u128)
    requires
        state != 0,
    ensures
        forall|n: nat| #[trigger] nth_output(split_state(state), n) != 0,
{
    lemma_split_nonzero(state);
    assert forall|n: nat| #[trigger] nth_output(split_state(state), n) != 0 by {
        lemma_steps_nonzero(split_state(state), n + 1);
        lemma_join_nonzero(steps(split_state(state), n + 1));
    }
}

} // verus!

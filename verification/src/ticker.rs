//! The minimal application of the demonstration cluster: each block it
//! proposes carries a counter's next value as the text "tick-N", and it
//! accepts every block.
use vstd::prelude::*;

verus! {

/// The decimal digits of `n`, as ASCII bytes.
pub open spec fn decimal(n: nat) -> Seq<u8>
    decreases n,
{
    if n < 10 {
        seq![(48 + n) as u8]
    } else {
        decimal(n / 10).push((48 + n % 10) as u8)
    }
}

/// The payload of the block proposed when the counter stands at `v`:
/// "tick-" followed by the decimal digits of `v`.
pub open spec fn tick_payload(v: u64) -> Seq<u8> {
    seq![116u8, 105u8, 99u8, 107u8, 45u8] + decimal(v as nat)
}

/// The number that ASCII decimal digits stand for.
pub open spec fn digits_value(s: Seq<u8>) -> int
    decreases s.len(),
{
    if s.len() == 0 {
        0
    } else {
        digits_value(s.drop_last()) * 10 + (s.last() - 48)
    }
}

proof fn lemma_decimal_value(n: nat)
    ensures
        digits_value(decimal(n)) == n,
    decreases n,
{
    if n < 10 {
        assert(decimal(n).drop_last() =~= Seq::<u8>::empty());
        assert(decimal(n).last() == (48 + n) as u8);
        assert(((48 + n) as u8) == 48 + n);
        assert(digits_value(decimal(n).drop_last()) == 0);
        assert(digits_value(decimal(n)) == digits_value(decimal(n).drop_last()) * 10 + (
        decimal(n).last() - 48));
    } else {
        lemma_decimal_value(n / 10);
        assert(decimal(n).drop_last() =~= decimal(n / 10));
        assert(decimal(n).last() == (48 + n % 10) as u8);
        assert(n == (n / 10) * 10 + n % 10) by (nonlinear_arith);
        assert(((48 + n % 10) as u8) == 48 + n % 10);
        assert(digits_value(decimal(n)) == digits_value(decimal(n).drop_last()) * 10 + (
        decimal(n).last() - 48));
    }
}

/// Different counter values give different block payloads, so no two
/// blocks a counter proposes before it wraps carry the same payload.
pub proof fn law_tick_payloads_distinct(a: u64, b: u64)
    requires
        a != b,
    ensures
        tick_payload(a) != tick_payload(b),
{
    lemma_decimal_value(a as nat);
    lemma_decimal_value(b as nat);
    if tick_payload(a) == tick_payload(b) {
        assert(tick_payload(a).skip(5) =~= decimal(a as nat));
        assert(tick_payload(b).skip(5) =~= decimal(b as nat));
    }
}

/// The counter of a new application after `n` proposed blocks: each
/// `produce_block` moves it on by one, wrapping at 2^64.
pub open spec fn count_after(n: nat) -> u64
    decreases n,
{
    if n == 0 {
        0
    } else {
        ((count_after((n - 1) as nat) + 1) % 0x1_0000_0000_0000_0000) as u64
    }
}

proof fn lemma_count_after(n: nat)
    requires
        n < 0x1_0000_0000_0000_0000,
    ensures
        count_after(n) == n,
    decreases n,
{
    if n > 0 {
        lemma_count_after((n - 1) as nat);
    }
}

/// Blocks count up: the block proposed after `n` others carries
/// "tick-n", so no two of the first 2^64 blocks carry the same payload.
pub proof fn law_blocks_count_up(n: nat, m: nat)
    requires
        n < m < 0x1_0000_0000_0000_0000,
    ensures
        count_after(n) == n,
        tick_payload(count_after(n)) != tick_payload(count_after(m)),
{
    lemma_count_after(n);
    lemma_count_after(m);
    law_tick_payloads_distinct(count_after(n), count_after(m));
}

fn push_decimal(out: &mut Vec<u8>, n: u64)
    ensures
        final(out)@ == old(out)@ + decimal(n as nat),
    decreases n,
{
    if n < 10 {
        out.push(48 + n as u8);
    } else {
        push_decimal(out, n / 10);
        out.push(48 + (n % 10) as u8);
    }
    assert(out@ =~= old(out)@ + decimal(n as nat));
}

/// The demonstration application: a counter of proposed blocks.
pub struct CounterApp {
    counter: u64,
}

impl CounterApp {
    /// The number of blocks proposed so far (modulo 2^64).
    pub closed spec fn count(&self) -> u64 {
        self.counter
    }

    /// A counter at zero.
    pub fn new() -> (app: Self)
        ensures
            app.count() == 0,
    {
        CounterApp { counter: 0 }
    }

    /// The payload of the next block: "tick-" and the counter's value,
    /// which then moves on by one (wrapping).
    pub fn produce_block(&mut self) -> (payload: Vec<u8>)
        ensures
            payload@ == tick_payload(old(self).count()),
            final(self).count() == (old(self).count() + 1) % 0x1_0000_0000_0000_0000,
    {
        let v = self.counter;
        self.counter = if v == u64::MAX {
            0
        } else {
            v + 1
        };
        let mut out: Vec<u8> = vec![116, 105, 99, 107, 45];
        assert(out@ =~= seq![116u8, 105u8, 99u8, 107u8, 45u8]);
        push_decimal(&mut out, v);
        out
    }

    /// Every block is valid.
    pub fn validate_block(&self, data: &[u8]) -> (valid: bool)
        ensures
            valid,
    {
        true
    }

    /// Every block is valid when syncing too, as in `validate_block`.
    pub fn validate_block_for_sync(&self, data: &[u8]) -> (valid: bool)
        ensures
            valid,
    {
        self.validate_block(data)
    }
}

} // verus!

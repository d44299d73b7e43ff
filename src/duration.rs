use vstd::prelude::*;

verus! {

/// Nanoseconds in one second.
pub const NANOS_PER_SEC: u32 = 1_000_000_000;

/// Nanoseconds in one millisecond.
pub const NANOS_PER_MILLI: u32 = 1_000_000;

/// Nanoseconds in one microsecond.
pub const NANOS_PER_MICRO: u32 = 1_000;

/// Milliseconds in one second.
pub const MILLIS_PER_SEC: u64 = 1_000;

/// Microseconds in one second.
pub const MICROS_PER_SEC: u64 = 1_000_000;

/// The largest number of nanoseconds a `Duration` can hold.
pub open spec fn max_nanos() -> nat {
    u64::MAX as nat * NANOS_PER_SEC as nat + (NANOS_PER_SEC - 1) as nat
}

/// A span of time: whole seconds and the nanoseconds of the second that has
/// begun. The nanosecond field always stays below one second.
#[derive(Clone, Copy, PartialEq, Eq, Structural, PartialOrd, Ord, Hash, Debug)]
pub struct Duration {
    secs: u64,
    nanos: u32,
}

impl View for Duration {
    type V = nat;

    /// The span in nanoseconds.
    closed spec fn view(&self) -> nat {
        self.secs as nat * NANOS_PER_SEC as nat + self.nanos as nat
    }
}

impl Default for Duration {
    /// The empty span.
    fn default() -> (r: Duration)
        ensures
            r == Duration::from_total(0),
    {
        Duration::zero()
    }
}

impl Duration {
    /// The nanosecond field never reaches a whole second. Every value the
    /// library makes keeps this; Verus checks it wherever one is built.
    #[verifier::type_invariant]
    pub closed spec fn wf(self) -> bool {
        self.nanos < NANOS_PER_SEC
    }

    /// The canonical value that spans `n` nanoseconds, for `n` up to
    /// `max_nanos()`.
    pub closed spec fn from_total(n: nat) -> Duration {
        Duration { secs: (n / NANOS_PER_SEC as nat) as u64, nanos: (n % NANOS_PER_SEC as nat) as u32 }
    }

    /// A value built from a seconds count and a nanosecond count below one
    /// second, without normalising.
    pub(crate) fn from_parts(secs: u64, nanos: u32) -> (r: Duration)
        requires
            nanos < NANOS_PER_SEC,
        ensures
            r@ == secs as nat * NANOS_PER_SEC as nat + nanos as nat,
            r == Duration::from_total(r@),
    {
        Duration { secs, nanos }
    }

    /// Builds a value from whole seconds and extra nanoseconds; nanoseconds
    /// beyond one second are carried into the seconds.
    pub fn new(secs: u64, nanos: u32) -> (r: Duration)
        requires
            secs as nat * NANOS_PER_SEC as nat + nanos as nat <= max_nanos(),
        ensures
            r@ == secs as nat * NANOS_PER_SEC as nat + nanos as nat,
            r == Duration::from_total(r@),
    {
        let extra = (nanos / NANOS_PER_SEC) as u64;
        let secs = secs + extra;
        let nanos = nanos % NANOS_PER_SEC;
        Duration::from_parts(secs, nanos)
    }

    /// The empty span.
    pub fn zero() -> (r: Duration)
        ensures
            r == Duration::from_total(0),
    {
        Duration::from_parts(0, 0)
    }

    /// The longest span that can be held.
    pub fn max_value() -> (r: Duration)
        ensures
            r == Duration::from_total(max_nanos()),
    {
        Duration::from_parts(u64::MAX, NANOS_PER_SEC - 1)
    }

    /// The span of `secs` whole seconds.
    pub fn from_secs(secs: u64) -> (r: Duration)
        ensures
            r == Duration::from_total(secs as nat * NANOS_PER_SEC as nat),
    {
        Duration::from_parts(secs, 0)
    }

    /// The span of `millis` milliseconds.
    pub fn from_millis(millis: u64) -> (r: Duration)
        ensures
            r == Duration::from_total(millis as nat * NANOS_PER_MILLI as nat),
    {
        let secs = millis / MILLIS_PER_SEC;
        let nanos = ((millis % MILLIS_PER_SEC) as u32) * NANOS_PER_MILLI;
        Duration::from_parts(secs, nanos)
    }

    /// The span of `micros` microseconds.
    pub fn from_micros(micros: u64) -> (r: Duration)
        ensures
            r == Duration::from_total(micros as nat * NANOS_PER_MICRO as nat),
    {
        let secs = micros / MICROS_PER_SEC;
        let nanos = ((micros % MICROS_PER_SEC) as u32) * NANOS_PER_MICRO;
        Duration::from_parts(secs, nanos)
    }

    /// The span of `nanos` nanoseconds.
    pub fn from_nanos(nanos: u64) -> (r: Duration)
        ensures
            r == Duration::from_total(nanos as nat),
    {
        let secs = nanos / (NANOS_PER_SEC as u64);
        let nanos = (nanos % (NANOS_PER_SEC as u64)) as u32;
        Duration::from_parts(secs, nanos)
    }

    /// Whether the span is empty.
    pub fn is_zero(&self) -> (r: bool)
        ensures
            r == (self@ == 0),
    {
        self.secs == 0 && self.nanos == 0
    }

    /// The whole seconds of the span.
    pub fn as_secs(&self) -> (r: u64)
        ensures
            r == self@ / NANOS_PER_SEC as nat,
    {
        proof {
            use_type_invariant(self);
        }
        self.secs
    }

    /// The whole milliseconds of the part of the span beyond its whole seconds.
    pub fn subsec_millis(&self) -> (r: u32)
        ensures
            r == (self@ % NANOS_PER_SEC as nat) / NANOS_PER_MILLI as nat,
            r < 1000,
    {
        proof {
            use_type_invariant(self);
        }
        self.nanos / NANOS_PER_MILLI
    }

    /// The whole microseconds of the part of the span beyond its whole seconds.
    pub fn subsec_micros(&self) -> (r: u32)
        ensures
            r == (self@ % NANOS_PER_SEC as nat) / NANOS_PER_MICRO as nat,
            r < 1_000_000,
    {
        proof {
            use_type_invariant(self);
        }
        self.nanos / NANOS_PER_MICRO
    }

    /// The nanoseconds of the part of the span beyond its whole seconds.
    pub fn subsec_nanos(&self) -> (r: u32)
        ensures
            r == self@ % NANOS_PER_SEC as nat,
            r < NANOS_PER_SEC,
    {
        proof {
            use_type_invariant(self);
        }
        self.nanos
    }

    /// The whole milliseconds of the span.
    pub fn as_millis(&self) -> (r: u128)
        ensures
            r == self@ / NANOS_PER_MILLI as nat,
    {
        proof {
            use_type_invariant(self);
            let s = self.secs as u128;
            assert(s * 1_000 <= u64::MAX as u128 * 1_000) by (nonlinear_arith)
                requires
                    s <= u64::MAX,
            ;
        }
        self.secs as u128 * MILLIS_PER_SEC as u128 + (self.nanos / NANOS_PER_MILLI) as u128
    }

    /// The whole microseconds of the span.
    pub fn as_micros(&self) -> (r: u128)
        ensures
            r == self@ / NANOS_PER_MICRO as nat,
    {
        proof {
            use_type_invariant(self);
            let s = self.secs as u128;
            assert(s * 1_000_000 <= u64::MAX as u128 * 1_000_000) by (nonlinear_arith)
                requires
                    s <= u64::MAX,
            ;
        }
        self.secs as u128 * MICROS_PER_SEC as u128 + (self.nanos / NANOS_PER_MICRO) as u128
    }

    /// The span in nanoseconds.
    pub fn as_nanos(&self) -> (r: u128)
        ensures
            r == self@,
    {
        proof {
            let s = self.secs as u128;
            assert(s * 1_000_000_000 <= u64::MAX as u128 * 1_000_000_000) by (nonlinear_arith)
                requires
                    s <= u64::MAX,
            ;
        }
        self.secs as u128 * NANOS_PER_SEC as u128 + self.nanos as u128
    }

    /// The sum of two spans, or nothing where it cannot be held.
    pub open spec fn spec_checked_add(self, rhs: Duration) -> Option<Duration> {
        if self@ + rhs@ <= max_nanos() {
            Some(Duration::from_total(self@ + rhs@))
        } else {
            None
        }
    }

    /// The difference of two spans, or nothing where it would be negative.
    pub open spec fn spec_checked_sub(self, rhs: Duration) -> Option<Duration> {
        if self@ >= rhs@ {
            Some(Duration::from_total((self@ - rhs@) as nat))
        } else {
            None
        }
    }

    /// The span times `rhs`, or nothing where it cannot be held.
    pub open spec fn spec_checked_mul(self, rhs: u32) -> Option<Duration> {
        if self@ * rhs as nat <= max_nanos() {
            Some(Duration::from_total(self@ * rhs as nat))
        } else {
            None
        }
    }

    /// The span divided by `rhs`, or nothing where `rhs` is zero. The whole
    /// seconds are divided; the seconds left over are spread in nanoseconds and
    /// divided, and so is the nanosecond part, each rounded down.
    pub open spec fn spec_checked_div(self, rhs: u32) -> Option<Duration> {
        if rhs == 0 {
            None
        } else {
            let secs = self@ / NANOS_PER_SEC as nat;
            let nanos = self@ % NANOS_PER_SEC as nat;
            Some(
                Duration::from_total(
                    (secs / rhs as nat) * NANOS_PER_SEC as nat + nanos / rhs as nat + (secs
                        % rhs as nat) * NANOS_PER_SEC as nat / rhs as nat,
                ),
            )
        }
    }

    /// The sum of two spans, or the longest span where it cannot be held.
    pub open spec fn spec_saturating_add(self, rhs: Duration) -> Duration {
        match self.spec_checked_add(rhs) {
            Some(r) => r,
            None => Duration::from_total(max_nanos()),
        }
    }

    /// The difference of two spans, or the empty span where it would be negative.
    pub open spec fn spec_saturating_sub(self, rhs: Duration) -> Duration {
        match self.spec_checked_sub(rhs) {
            Some(r) => r,
            None => Duration::from_total(0),
        }
    }

    /// The span times `rhs`, or the longest span where it cannot be held.
    pub open spec fn spec_saturating_mul(self, rhs: u32) -> Duration {
        match self.spec_checked_mul(rhs) {
            Some(r) => r,
            None => Duration::from_total(max_nanos()),
        }
    }

    /// Adds two spans; `None` where the sum is longer than the longest span.
    pub fn checked_add(self, rhs: Duration) -> (r: Option<Duration>)
        ensures
            r == self.spec_checked_add(rhs),
    {
        proof {
            use_type_invariant(&self);
            use_type_invariant(&rhs);
        }
        if let Some(mut secs) = self.secs.checked_add(rhs.secs) {
            let mut nanos = self.nanos + rhs.nanos;
            if nanos >= NANOS_PER_SEC {
                nanos -= NANOS_PER_SEC;
                if let Some(new_secs) = secs.checked_add(1) {
                    secs = new_secs;
                } else {
                    return None;
                }
            }
            Some(Duration::from_parts(secs, nanos))
        } else {
            None
        }
    }

    /// Adds two spans, clamping at the longest span.
    pub fn saturating_add(self, rhs: Duration) -> (r: Duration)
        ensures
            r == self.spec_saturating_add(rhs),
    {
        match self.checked_add(rhs) {
            Some(res) => res,
            None => Duration::max_value(),
        }
    }

    /// Subtracts `rhs`; `None` where the result would be negative.
    pub fn checked_sub(self, rhs: Duration) -> (r: Option<Duration>)
        ensures
            r == self.spec_checked_sub(rhs),
    {
        proof {
            use_type_invariant(&self);
            use_type_invariant(&rhs);
        }
        if let Some(mut secs) = self.secs.checked_sub(rhs.secs) {
            let nanos = if self.nanos >= rhs.nanos {
                self.nanos - rhs.nanos
            } else if let Some(sub_secs) = secs.checked_sub(1) {
                secs = sub_secs;
                self.nanos + NANOS_PER_SEC - rhs.nanos
            } else {
                return None;
            };
            Some(Duration::from_parts(secs, nanos))
        } else {
            None
        }
    }

    /// Subtracts `rhs`, clamping at the empty span.
    pub fn saturating_sub(self, rhs: Duration) -> (r: Duration)
        ensures
            r == self.spec_saturating_sub(rhs),
    {
        match self.checked_sub(rhs) {
            Some(res) => res,
            None => Duration::zero(),
        }
    }

    /// Multiplies by `rhs`; `None` where the product is longer than the longest
    /// span.
    pub fn checked_mul(self, rhs: u32) -> (r: Option<Duration>)
        ensures
            r == self.spec_checked_mul(rhs),
    {
        proof {
            use_type_invariant(&self);
        }
        proof {
            lemma_mul_split(self.secs as nat, self.nanos as nat, rhs as nat);
        }
        let total_nanos = self.nanos as u64 * rhs as u64;
        let extra_secs = total_nanos / (NANOS_PER_SEC as u64);
        let nanos = (total_nanos % (NANOS_PER_SEC as u64)) as u32;
        if let Some(s) = self.secs.checked_mul(rhs as u64) {
            if let Some(secs) = s.checked_add(extra_secs) {
                return Some(Duration::from_parts(secs, nanos));
            }
        }
        None
    }

    /// Multiplies by `rhs`, clamping at the longest span.
    pub fn saturating_mul(self, rhs: u32) -> (r: Duration)
        ensures
            r == self.spec_saturating_mul(rhs),
    {
        match self.checked_mul(rhs) {
            Some(res) => res,
            None => Duration::max_value(),
        }
    }

    /// Divides by `rhs`; `None` where `rhs` is zero.
    pub fn checked_div(self, rhs: u32) -> (r: Option<Duration>)
        ensures
            r == self.spec_checked_div(rhs),
    {
        proof {
            use_type_invariant(&self);
        }
        if rhs != 0 {
            proof {
                lemma_div_carry(self.secs as nat, self.nanos as nat, rhs as nat);
            }
            let secs = self.secs / (rhs as u64);
            let carry = self.secs - secs * (rhs as u64);
            let extra_nanos = carry * (NANOS_PER_SEC as u64) / (rhs as u64);
            let nanos = self.nanos / rhs + (extra_nanos as u32);
            Some(Duration::from_parts(secs, nanos))
        } else {
            None
        }
    }

    /// Sums the spans of `items`; `None` where the total is longer than the
    /// longest span. Nanoseconds are gathered in a 64-bit counter and folded
    /// into the seconds only when that counter would overflow, and once at the
    /// end.
    pub fn checked_sum(items: &[Duration]) -> (r: Option<Duration>)
        ensures
            r == (if total_of(items@) <= max_nanos() {
                Some(Duration::from_total(total_of(items@)))
            } else {
                None
            }),
    {
        let mut total_secs: u64 = 0;
        let mut total_nanos: u64 = 0;
        let mut i: usize = 0;
        while i < items.len()
            invariant
                i <= items.len(),
                total_secs as nat * NANOS_PER_SEC as nat + total_nanos as nat == total_of(
                    items@.subrange(0, i as int),
                ),
            decreases items.len() - i,
        {
            let entry = items[i];
            let ghost prefix = total_of(items@.subrange(0, i + 1));
            proof {
                use_type_invariant(&entry);
                assert(items@.subrange(0, i + 1).drop_last() == items@.subrange(0, i as int));
                assert(items@.subrange(0, i + 1).last() == entry);
                lemma_total_of_prefix(items@, i + 1);
                assert(prefix == total_secs as nat * NANOS_PER_SEC as nat + total_nanos as nat
                    + entry.secs as nat * NANOS_PER_SEC as nat + entry.nanos as nat);
            }
            total_secs =
                match total_secs.checked_add(entry.secs) {
                    Some(t) => t,
                    None => {
                        proof {
                            lemma_sum_overflow(
                                total_secs as nat + entry.secs as nat,
                                0,
                                total_of(items@),
                            );
                        }
                        return None;
                    },
                };
            total_nanos =
                match total_nanos.checked_add(entry.nanos as u64) {
                    Some(n) => n,
                    None => {
                        total_secs =
                            match total_secs.checked_add(total_nanos / NANOS_PER_SEC as u64) {
                                Some(t) => t,
                                None => {
                                    proof {
                                        lemma_sum_overflow(
                                            total_secs as nat,
                                            total_nanos as nat,
                                            total_of(items@),
                                        );
                                    }
                                    return None;
                                },
                            };
                        (total_nanos % NANOS_PER_SEC as u64) + entry.nanos as u64
                    },
                };
            i += 1;
        }
        proof {
            assert(items@.subrange(0, items.len() as int) == items@);
        }
        total_secs =
            match total_secs.checked_add(total_nanos / NANOS_PER_SEC as u64) {
                Some(t) => t,
                None => {
                    proof {
                        lemma_sum_overflow(total_secs as nat, total_nanos as nat, total_of(items@));
                    }
                    return None;
                },
            };
        total_nanos = total_nanos % NANOS_PER_SEC as u64;
        Some(Duration::from_parts(total_secs, total_nanos as u32))
    }

    /// Sums the spans of `items`, whose total must fit in a span.
    pub fn sum(items: &[Duration]) -> (r: Duration)
        requires
            total_of(items@) <= max_nanos(),
        ensures
            r == Duration::from_total(total_of(items@)),
    {
        match Duration::checked_sum(items) {
            Some(total) => total,
            None => Duration::zero(),
        }
    }
}

/// The canonical value of a length that a span can hold is valid and has that
/// length.
pub proof fn lemma_from_total(n: nat)
    requires
        n <= max_nanos(),
    ensures
        Duration::from_total(n).wf(),
        Duration::from_total(n)@ == n,
{
}

/// A valid span is the canonical value of its own length, which is at most
/// the longest length.
pub proof fn lemma_from_total_view(d: Duration)
    requires
        d.wf(),
    ensures
        Duration::from_total(d@) == d,
        d@ <= max_nanos(),
{
}

/// The total length, in nanoseconds, of the spans of `s`.
pub open spec fn total_of(s: Seq<Duration>) -> nat
    decreases s.len(),
{
    if s.len() == 0 {
        0
    } else {
        total_of(s.drop_last()) + s.last()@
    }
}

/// Where whole seconds and the seconds held in a nanosecond count no longer fit
/// in 64 bits, any total that holds them is longer than the longest span.
proof fn lemma_sum_overflow(secs: nat, nanos: nat, total: nat)
    requires
        secs + nanos / NANOS_PER_SEC as nat > u64::MAX,
        secs * NANOS_PER_SEC as nat + nanos <= total,
    ensures
        total > max_nanos(),
{
    assert((nanos / 1_000_000_000) * 1_000_000_000 <= nanos) by (nonlinear_arith);
    assert((secs + nanos / 1_000_000_000) * 1_000_000_000 <= total) by (nonlinear_arith)
        requires
            (nanos / 1_000_000_000) * 1_000_000_000 <= nanos,
            secs * 1_000_000_000 + nanos <= total,
    ;
    assert(total >= (u64::MAX as nat + 1) * 1_000_000_000) by (nonlinear_arith)
        requires
            (secs + nanos / 1_000_000_000) * 1_000_000_000 <= total,
            secs + nanos / 1_000_000_000 > u64::MAX,
    ;
}

/// A prefix of a sequence of spans is no longer in total than the sequence.
proof fn lemma_total_of_prefix(s: Seq<Duration>, i: int)
    requires
        0 <= i <= s.len(),
    ensures
        total_of(s.subrange(0, i)) <= total_of(s),
    decreases s.len() - i,
{
    if i < s.len() {
        lemma_total_of_prefix(s, i + 1);
        assert(s.subrange(0, i + 1).drop_last() == s.subrange(0, i));
    } else {
        assert(s.subrange(0, i) == s);
    }
}

/// Multiplying a span of `secs` seconds and `nanos` nanoseconds by `k` splits
/// into the seconds times `k` and the nanoseconds times `k`.
proof fn lemma_mul_split(secs: nat, nanos: nat, k: nat)
    requires
        nanos < NANOS_PER_SEC,
        k <= u32::MAX,
    ensures
        nanos * k <= u64::MAX,
        (secs * NANOS_PER_SEC as nat + nanos) * k == (secs * k + (nanos * k) / NANOS_PER_SEC as nat)
            * NANOS_PER_SEC as nat + (nanos * k) % NANOS_PER_SEC as nat,
        secs * k > u64::MAX ==> (secs * NANOS_PER_SEC as nat + nanos) * k > max_nanos(),
{
    assert(nanos * k <= u64::MAX) by (nonlinear_arith)
        requires
            nanos < 1_000_000_000,
            k <= u32::MAX,
    ;
    let p = nanos * k;
    assert(p == (p / 1_000_000_000) * 1_000_000_000 + p % 1_000_000_000);
    assert((secs * 1_000_000_000 + nanos) * k == secs * k * 1_000_000_000 + nanos * k)
        by (nonlinear_arith);
    assert(secs * k > u64::MAX ==> (secs * NANOS_PER_SEC as nat + nanos) * k > max_nanos())
        by (nonlinear_arith)
        requires
            (secs * 1_000_000_000 + nanos) * k == secs * k * 1_000_000_000 + nanos * k,
            max_nanos() == u64::MAX as nat * 1_000_000_000 + 999_999_999,
    ;
}

/// Dividing `secs` seconds and `nanos` nanoseconds by `k`: the seconds left
/// over are below `k`, and the nanoseconds of the quotient stay below one
/// second.
proof fn lemma_div_carry(secs: nat, nanos: nat, k: nat)
    requires
        nanos < NANOS_PER_SEC,
        0 < k <= u32::MAX,
    ensures
        (secs / k) * k <= secs,
        secs - (secs / k) * k == secs % k,
        (secs % k) * NANOS_PER_SEC as nat <= u64::MAX,
        nanos / k + (secs % k) * NANOS_PER_SEC as nat / k < NANOS_PER_SEC,
{
    let c = secs % k;
    assert(secs == (secs / k) * k + c && c < k) by (nonlinear_arith)
        requires
            0 < k,
            c == secs % k,
    ;
    assert(c * 1_000_000_000 <= u64::MAX) by (nonlinear_arith)
        requires
            c < k,
            k <= u32::MAX,
    ;
    assert(nanos / k + c * 1_000_000_000 / k < 1_000_000_000) by (nonlinear_arith)
        requires
            nanos < 1_000_000_000,
            c < k,
            0 < k,
    {
        let a = nanos / k;
        let b = c * 1_000_000_000 / k;
        assert(a * k <= nanos);
        assert(b * k <= c * 1_000_000_000);
        assert((a + b) * k <= nanos + c * 1_000_000_000);
        assert(nanos + c * 1_000_000_000 < k * 1_000_000_000);
    }
}

} // verus!

//! Laws that relate the operations on `Duration`.
use vstd::prelude::*;

use crate::duration::{
    lemma_from_total,
    lemma_from_total_view,
    max_nanos,
    Duration,
    NANOS_PER_MICRO,
    NANOS_PER_MILLI,
};

verus! {

/// Taking a span's length in nanoseconds and building a span from that count
/// gives the span back, wherever the count fits in 64 bits.
pub proof fn lemma_nanos_round_trip(d: Duration)
    requires
        d.wf(),
        d@ <= u64::MAX,
    ensures
        Duration::from_total(d@) == d,
{
    lemma_from_total_view(d);
}

/// Taking a span's whole milliseconds and building a span from them gives the
/// span cut down to whole milliseconds, and the span itself where it is a
/// whole number of milliseconds; a span built from a count of milliseconds
/// holds that many whole milliseconds.
pub proof fn lemma_millis_round_trip(d: Duration, millis: u64)
    requires
        d.wf(),
        d@ / NANOS_PER_MILLI as nat <= u64::MAX,
    ensures
        Duration::from_total((d@ / NANOS_PER_MILLI as nat) * NANOS_PER_MILLI as nat)@ == d@ - d@
            % NANOS_PER_MILLI as nat,
        d@ % NANOS_PER_MILLI as nat == 0 ==> Duration::from_total(
            (d@ / NANOS_PER_MILLI as nat) * NANOS_PER_MILLI as nat,
        ) == d,
        Duration::from_total(millis as nat * NANOS_PER_MILLI as nat)@ / NANOS_PER_MILLI as nat
            == millis,
{
    lemma_from_total_view(d);
    lemma_from_total((d@ / NANOS_PER_MILLI as nat) * NANOS_PER_MILLI as nat);
    lemma_from_total(millis as nat * NANOS_PER_MILLI as nat);
}

/// Taking a span's whole microseconds and building a span from them gives the
/// span cut down to whole microseconds, and the span itself where it is a
/// whole number of microseconds; a span built from a count of microseconds
/// holds that many whole microseconds.
pub proof fn lemma_micros_round_trip(d: Duration, micros: u64)
    requires
        d.wf(),
        d@ / NANOS_PER_MICRO as nat <= u64::MAX,
    ensures
        Duration::from_total((d@ / NANOS_PER_MICRO as nat) * NANOS_PER_MICRO as nat)@ == d@ - d@
            % NANOS_PER_MICRO as nat,
        d@ % NANOS_PER_MICRO as nat == 0 ==> Duration::from_total(
            (d@ / NANOS_PER_MICRO as nat) * NANOS_PER_MICRO as nat,
        ) == d,
        Duration::from_total(micros as nat * NANOS_PER_MICRO as nat)@ / NANOS_PER_MICRO as nat
            == micros,
{
    lemma_from_total_view(d);
    lemma_from_total((d@ / NANOS_PER_MICRO as nat) * NANOS_PER_MICRO as nat);
    lemma_from_total(micros as nat * NANOS_PER_MICRO as nat);
}

/// Adding the empty span changes nothing.
pub proof fn lemma_add_zero(d: Duration)
    requires
        d.wf(),
    ensures
        d.spec_checked_add(Duration::from_total(0)) == Some(d),
        d.spec_saturating_add(Duration::from_total(0)) == d,
{
    lemma_from_total(0);
    lemma_from_total_view(d);
}

/// Subtracting what was just added gives back the first span, wherever the
/// sum could be held.
pub proof fn lemma_add_sub_inverse(a: Duration, b: Duration)
    requires
        a.wf(),
        b.wf(),
        a.spec_checked_add(b) is Some,
    ensures
        a.spec_checked_add(b).unwrap().spec_checked_sub(b) == Some(a),
{
    lemma_from_total(a@ + b@);
    lemma_from_total_view(a);
}

/// The longest span plus anything stays the longest span; the empty span minus
/// anything stays the empty span.
pub proof fn lemma_saturation_bounds(d: Duration)
    requires
        d.wf(),
    ensures
        Duration::from_total(max_nanos()).spec_saturating_add(d) == Duration::from_total(
            max_nanos(),
        ),
        Duration::from_total(0).spec_saturating_sub(d) == Duration::from_total(0),
{
    lemma_from_total(max_nanos());
    lemma_from_total(0);
}

} // verus!

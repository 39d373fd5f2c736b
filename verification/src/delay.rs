use vstd::prelude::*;

verus! {

/// The delay before answering a move request, adjusted from turn to turn by the
/// latency that was measured for the previous answer. All quantities are whole
/// milliseconds, so the delay is kept as an integer.
#[derive(Clone, Debug)]
pub struct Delay {
    pub fallback_latency_ms: i32,
    pub latency_safety_ms: i32,
    pub prev_timeout_ms: i32,
    pub prev_delay_ms: i64,
}

/// The delay after a measurement: without a measured latency, the timeout less
/// the safety margin and the fallback latency; with one, the previous delay
/// corrected by how far the latency missed its target and by how much the
/// timeout changed.
pub open spec fn next_delay(d: Delay, measured_latency_ms: int, timeout_ms: int) -> int {
    if measured_latency_ms == 0 {
        timeout_ms - d.latency_safety_ms - d.fallback_latency_ms
    } else {
        let target = d.prev_timeout_ms - d.latency_safety_ms;
        d.prev_delay_ms + (target - measured_latency_ms) + (timeout_ms - d.prev_timeout_ms)
    }
}

/// Microseconds for a delay in milliseconds, held to the `i64` range.
pub open spec fn delay_us(ms: int) -> i64 {
    if ms * 1000 > i64::MAX {
        i64::MAX
    } else if ms * 1000 < i64::MIN {
        i64::MIN
    } else {
        (ms * 1000) as i64
    }
}

impl Delay {
    pub fn new(fallback_latency_ms: i32, latency_safety_ms: i32) -> (d: Self)
        ensures
            d.fallback_latency_ms == fallback_latency_ms,
            d.latency_safety_ms == latency_safety_ms,
            d.prev_timeout_ms == 0,
            d.prev_delay_ms == 0,
    {
        Delay { fallback_latency_ms, latency_safety_ms, prev_timeout_ms: 0, prev_delay_ms: 0 }
    }

    /// Records a measured latency (0 when none was measured) and the timeout of
    /// the coming request, and gives the delay to wait, in microseconds.
    pub fn next_delay_us(&mut self, measured_latency_ms: i32, timeout_ms: i32) -> (us: i64)
        requires
            -0x4000_0000_0000_0000 <= old(self).prev_delay_ms <= 0x4000_0000_0000_0000,
        ensures
            final(self).prev_delay_ms == next_delay(*old(self), measured_latency_ms as int, timeout_ms as int),
            final(self).prev_timeout_ms == timeout_ms,
            final(self).fallback_latency_ms == old(self).fallback_latency_ms,
            final(self).latency_safety_ms == old(self).latency_safety_ms,
            us == delay_us(final(self).prev_delay_ms as int),
    {
        if measured_latency_ms == 0 {
            self.prev_delay_ms = timeout_ms as i64 - self.latency_safety_ms as i64 - self.fallback_latency_ms as i64;
        } else {
            let timeout_diff_ms = timeout_ms as i64 - self.prev_timeout_ms as i64;
            let prev_target_latency_ms = self.prev_timeout_ms as i64 - self.latency_safety_ms as i64;
            let error_ms = prev_target_latency_ms - measured_latency_ms as i64;
            self.prev_delay_ms = self.prev_delay_ms + error_ms + timeout_diff_ms;
        }
        self.prev_timeout_ms = timeout_ms;
        let ms = self.prev_delay_ms;
        if ms > i64::MAX / 1000 {
            i64::MAX
        } else if ms < i64::MIN / 1000 {
            i64::MIN
        } else {
            ms * 1000
        }
    }
}

} // verus!

//! The sampling profiler's timer: the interval that a sampling frequency
//! asks for, split into seconds and microseconds as the interval timer takes it.
use vstd::prelude::*;

verus! {

/// A time of the interval timer: whole seconds and the microseconds beyond.
#[derive(Debug, Clone, Copy, PartialEq, Eq, Structural)]
pub struct Timeval {
    pub tv_sec: i64,
    pub tv_usec: i64,
}

/// What the interval timer is set to: the period, and the time to the first
/// signal.
#[derive(Debug, Clone, Copy, PartialEq, Eq, Structural)]
pub struct Itimerval {
    pub it_interval: Timeval,
    pub it_value: Timeval,
}

/// The sampling period in microseconds for `freq` samples a second; a
/// frequency that is not positive stops the timer.
pub open spec fn interval_us(freq: i64) -> int {
    if freq > 0 {
        1_000_000int / (freq as int)
    } else {
        0
    }
}

/// The timer setting for `freq`: period and first signal both the sampling
/// period, split into seconds and microseconds.
pub open spec fn timer_for(freq: i64) -> Itimerval {
    let t = Timeval {
        tv_sec: (interval_us(freq) / 1_000_000) as i64,
        tv_usec: (interval_us(freq) % 1_000_000) as i64,
    };
    Itimerval { it_interval: t, it_value: t }
}

/// The setting that the profiling timer is reset to for `freq` samples a
/// second; zero, which stops the timer, for a frequency that is not positive.
pub fn reset_pprof_timer(freq: i64) -> (r: Itimerval)
    ensures
        r == timer_for(freq),
{
    let interval: i64 = if freq > 0 {
        1_000_000 / freq
    } else {
        0
    };
    let sec: i64 = interval / 1_000_000;
    let usec: i64 = interval - (interval / 1_000_000) * 1_000_000;
    let t = Timeval { tv_sec: sec, tv_usec: usec };
    Itimerval { it_interval: t, it_value: t }
}

/// The sampling profiler: the frequency it samples at.
#[derive(Debug, Default)]
pub struct PProf {
    pub freq: i64,
}

impl PProf {
    /// A profiler that samples at no frequency yet.
    pub fn new() -> (r: PProf)
        ensures
            r.freq == 0,
    {
        PProf { freq: 0 }
    }

    /// Starts sampling, at `freq` where one is given, else at the frequency
    /// used before; the result is the timer setting to install.
    pub fn start(&mut self, freq: Option<i64>) -> (r: Itimerval)
        ensures
            final(self).freq == match freq {
                Some(f) => f,
                None => old(self).freq,
            },
            r == timer_for(final(self).freq),
    {
        if let Some(f) = freq {
            self.freq = f;
        }
        reset_pprof_timer(self.freq)
    }

    /// Stops sampling; the result is the timer setting to install, which is zero.
    pub fn stop(&self) -> (r: Itimerval)
        ensures
            r == timer_for(0),
            r.it_interval == (Timeval { tv_sec: 0, tv_usec: 0 }),
    {
        reset_pprof_timer(0)
    }
}

/// The timer setting holds the whole sampling period: its seconds and
/// microseconds add up to the period, the microseconds below a second; a
/// frequency that is not positive gives a zero setting.
pub proof fn law_timer_holds_period(freq: i64)
    ensures
        freq <= 0 ==> timer_for(freq).it_interval == (Timeval { tv_sec: 0, tv_usec: 0 }),
        timer_for(freq).it_value == timer_for(freq).it_interval,
        timer_for(freq).it_interval.tv_sec * 1_000_000 + timer_for(freq).it_interval.tv_usec
            == interval_us(freq),
        0 <= timer_for(freq).it_interval.tv_usec < 1_000_000,
{
}

} // verus!

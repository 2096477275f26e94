//! The constraints the timer reads: one clock on a port, input and output delays relative to it.
//! Values are in seconds, in single precision.

use vstd::prelude::*;
use crate::decimal;
use crate::float32::F32;
use crate::float64::F64;
use crate::fuzzy;
use crate::liberty;
use crate::shortest;

verus! {

/// 2.0 in single precision.
pub const TWO: u32 = 0x4000_0000;

/// `create_clock -period P [-waveform {r f}] <port>`, optionally propagated.
#[derive(Debug, PartialEq)]
pub struct Clock {
    pub name: String,
    pub period: F32,
    /// The rise and fall edge times (`waveform`; default `{0, period / 2}`).
    pub waveform: [F32; 2],
    /// The port the clock is defined on.
    pub source: String,
    pub propagated: bool,
}

/// What a clock holds.
pub struct ClockView {
    pub name: Seq<char>,
    pub period: F32,
    pub waveform: [F32; 2],
    pub source: Seq<char>,
    pub propagated: bool,
}

impl View for Clock {
    type V = ClockView;

    open spec fn view(&self) -> ClockView {
        ClockView {
            name: self.name@,
            period: self.period,
            waveform: self.waveform,
            source: self.source@,
            propagated: self.propagated,
        }
    }
}

impl Clone for Clock {
    fn clone(&self) -> (r: Clock)
        ensures
            r@ == self@,
    {
        Clock {
            name: self.name.clone(),
            period: self.period,
            waveform: self.waveform,
            source: self.source.clone(),
            propagated: self.propagated,
        }
    }
}

impl Clock {
    /// A clock with the default waveform `{0, period / 2}`.
    pub fn new(name: &str, period: F32, source: &str, propagated: bool) -> (r: Clock)
        ensures
            r.name@ == name@,
            r.period == period,
            r.waveform[0] == F32(0),
            r.waveform[1] == period / F32(TWO),
            r.source@ == source@,
            r.propagated == propagated,
    {
        Clock {
            name: name.to_owned(),
            period,
            waveform: [F32(0), period / F32(TWO)],
            source: source.to_owned(),
            propagated,
        }
    }

    /// The time of the clock edge of transition `rf`.
    pub fn edge_time(&self, rf: usize) -> (r: F32)
        requires
            rf < 2,
        ensures
            r == self.waveform[rf as int],
    {
        self.waveform[rf]
    }
}

/// `set_input_delay` / `set_output_delay` on a port, relative to the clock's rise edge:
/// `delay[rf][min/max]`.
#[derive(Debug, PartialEq)]
pub struct PortDelay {
    pub port: String,
    pub delay: [[F32; 2]; 2],
}

impl PortDelay {
    /// The same value for every transition and min/max (`set_*_delay <value>`).
    pub fn uniform(port: &str, value: F32) -> (r: PortDelay)
        ensures
            r.port@ == port@,
            forall|rf: int, mm: int| 0 <= rf < 2 && 0 <= mm < 2 ==> #[trigger] r.delay[rf][mm] == value,
    {
        PortDelay { port: port.to_owned(), delay: [[value, value], [value, value]] }
    }
}

/// What a port delay holds.
#[verifier::ext_equal]
pub struct PortDelayView {
    pub port: Seq<char>,
    pub delay: Seq<Seq<F32>>,
}

impl View for PortDelay {
    type V = PortDelayView;

    open spec fn view(&self) -> PortDelayView {
        PortDelayView { port: self.port@, delay: liberty::corners(self.delay) }
    }
}

impl Clone for PortDelay {
    fn clone(&self) -> (r: PortDelay)
        ensures
            r@ == self@,
    {
        PortDelay { port: self.port.clone(), delay: self.delay }
    }
}

pub open spec fn port_delay_views(v: Seq<PortDelay>) -> Seq<PortDelayView> {
    Seq::new(v.len(), |i: int| v[i]@)
}

#[derive(Debug, PartialEq)]
pub struct Sdc {
    pub clock: Clock,
    pub input_delays: Vec<PortDelay>,
    pub output_delays: Vec<PortDelay>,
}

/// What constraints hold.
#[verifier::ext_equal]
pub struct SdcView {
    pub clock: ClockView,
    pub input_delays: Seq<PortDelayView>,
    pub output_delays: Seq<PortDelayView>,
}

impl View for Sdc {
    type V = SdcView;

    open spec fn view(&self) -> SdcView {
        SdcView {
            clock: self.clock@,
            input_delays: port_delay_views(self.input_delays@),
            output_delays: port_delay_views(self.output_delays@),
        }
    }
}

impl Clone for Sdc {
    fn clone(&self) -> (r: Sdc)
        ensures
            r@ == self@,
    {
        let input_delays: Vec<PortDelay> = self.input_delays.clone();
        let output_delays: Vec<PortDelay> = self.output_delays.clone();
        assert(port_delay_views(input_delays@) =~= port_delay_views(self.input_delays@));
        assert(port_delay_views(output_delays@) =~= port_delay_views(self.output_delays@));
        Sdc { clock: self.clock.clone(), input_delays, output_delays }
    }
}

/// A user-unit value (a double) in seconds: narrowed to single precision, then scaled there by the
/// unit (`scale`, such as `1e-9` for ns).
pub fn user_to_sta(value: F64, scale: F32) -> (r: F32)
    ensures
        r == value.narrowed() * scale,
{
    value.to_f32() * scale
}

/// The double nearest to the shortest decimal of a single precision number.
pub open spec fn decimal_of(scale: F32) -> F64 {
    if scale.nan() {
        F64(0x7ff8_0000_0000_0000)
    } else if scale.infinite() {
        F64::make(scale.negative(), 0x7ff0_0000_0000_0000)
    } else if scale.zero() {
        F64::make(scale.negative(), 0)
    } else {
        let (c, x) = shortest::shortest(scale.magnitude());
        F64::make(scale.negative(), decimal::from_decimal(53, 1074, 0x7ff0_0000_0000_0000, c, x))
    }
}

/// A value in seconds back in user units, as a double: divided by the unit's decimal scale in
/// double precision (`1e-9`, not the single precision number nearest to it). A constraint script
/// reading a clock's period back and scaling it (`period * 0.2`) sees this value.
pub fn sta_to_user(value: F32, scale: F32) -> (r: F64)
    ensures
        r == value.widened() / decimal_of(scale),
{
    let b: u64 = scale.bits_abs();
    let decimal: F64 = if scale.is_nan() {
        F64(0x7ff8_0000_0000_0000)
    } else if b == 0x7f80_0000 {
        F64::build(scale.sign_bit(), 0x7ff0_0000_0000_0000)
    } else if b == 0 {
        F64::build(scale.sign_bit(), 0)
    } else {
        let (c, x): (u64, i32) = shortest::shortest_decimal(b);
        let digits: Vec<u8> = shortest::digits_of(c);
        F64::build(
            scale.sign_bit(),
            decimal::decimal_bits(53, 1074, 0x7ff0_0000_0000_0000, &digits, x as i128),
        )
    };
    value.to_f64() / decimal
}

/// The number of a cycle: 0.0, 1.0 or 2.0.
pub open spec fn cycle_number(n: int) -> F64 {
    if n == 0 {
        F64(0)
    } else if n == 1 {
        F64(0x3ff0_0000_0000_0000)
    } else {
        F64(0x4000_0000_0000_0000)
    }
}

impl ClockView {
    /// The time at which cycle `n` starts.
    pub open spec fn cycle_start(self, n: int) -> F64 {
        cycle_number(n) * self.period.widened()
    }

    /// The time of an edge in cycle `n`.
    pub open spec fn edge_in_cycle(self, rf: int, n: int) -> F64 {
        self.cycle_start(n) + self.waveform[rf].widened()
    }

    /// The delay and the required time of pairing `n`: target cycle `n / 2`, source cycle `n % 2`;
    /// none where the target edge is not after the source edge.
    pub open spec fn pairing(self, src_rf: int, tgt_rf: int, n: int) -> Option<(F64, F64)> {
        let tgt = self.edge_in_cycle(tgt_rf, n / 2);
        let src = self.edge_in_cycle(src_rf, n % 2);
        if fuzzy::above(tgt.narrowed(), src.narrowed()) {
            Some((tgt - src, tgt - self.cycle_start(n % 2)))
        } else {
            None
        }
    }

    /// The first of the first `n` pairings with the smallest delay, each compared with the
    /// incumbent.
    pub open spec fn best_pairing(self, src_rf: int, tgt_rf: int, n: int) -> Option<(F64, F64)>
        decreases n,
    {
        if n <= 0 {
            None
        } else {
            let best = self.best_pairing(src_rf, tgt_rf, n - 1);
            match (best, self.pairing(src_rf, tgt_rf, n - 1)) {
                (_, None) => best,
                (None, Some(p)) => Some(p),
                (Some(b), Some(p)) => if fuzzy::below(p.0.narrowed(), b.0.narrowed()) {
                    Some(p)
                } else {
                    Some(b)
                },
            }
        }
    }

    pub open spec fn setup_required(self, src_rf: int, tgt_rf: int) -> F32 {
        match self.best_pairing(src_rf, tgt_rf, 6) {
            Some(p) => p.1.narrowed(),
            None => F32(0),
        }
    }
}

/// The setup required time between two edges of the same clock: the target edge the soonest
/// strictly (fuzzily) after the source edge, as `target time - source cycle start`, computed in
/// double and stored in single precision.
///
/// Target cycles are walked from the first, source cycles from the first within each; the first
/// pairing with the smallest delay wins (fuzzily less than the incumbent). For edges inside one
/// period this is the target edge of the first cycle when it is after the source edge, else of the
/// second ([`crate::cycles::lemma_setup_required`]).
pub fn setup_required_time(clock: &Clock, src_rf: usize, tgt_rf: usize) -> (r: F32)
    requires
        src_rf < 2,
        tgt_rf < 2,
    ensures
        r == clock@.setup_required(src_rf as int, tgt_rf as int),
{
    let period: F64 = clock.period.to_f64();
    let src_time: F64 = clock.edge_time(src_rf).to_f64();
    let tgt_edge: F64 = clock.edge_time(tgt_rf).to_f64();
    let cycles: [F64; 3] = [F64(0), F64(0x3ff0_0000_0000_0000), F64(0x4000_0000_0000_0000)];
    let mut best: Option<(F64, F64)> = None;
    let mut n: usize = 0;
    while n < 6
        invariant
            n <= 6,
            src_rf < 2,
            tgt_rf < 2,
            period == clock@.period.widened(),
            src_time == clock@.waveform[src_rf as int].widened(),
            tgt_edge == clock@.waveform[tgt_rf as int].widened(),
            forall|i: int| 0 <= i < 3 ==> #[trigger] cycles[i] == cycle_number(i),
            best == clock@.best_pairing(src_rf as int, tgt_rf as int, n as int),
        decreases 6 - n,
    {
        let tgt_time: F64 = cycles[n / 2] * period + tgt_edge;
        let src_cycle_start: F64 = cycles[n % 2] * period;
        let src: F64 = src_cycle_start + src_time;
        if fuzzy::greater(tgt_time.to_f32(), src.to_f32()) {
            let delay: F64 = tgt_time - src;
            let better: bool = match best {
                Some(b) => fuzzy::less(delay.to_f32(), b.0.to_f32()),
                None => true,
            };
            if better {
                best = Some((delay, tgt_time - src_cycle_start));
            }
        }
        n = n + 1;
    }
    match best {
        Some(b) => b.1.to_f32(),
        None => F32(0),
    }
}

} // verus!

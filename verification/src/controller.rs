//! The control loop's decisions: a rolling average of the hottest sensor's temperature,
//! mapped through the fan curve with hysteresis, gives what iDRAC's fans should do next.

use std::collections::VecDeque;
use vstd::prelude::*;
use crate::curve::{gradual, stable_sort_of, FanCurve, FanSpeed, Temperature};
use crate::text::unsigned_value;

verus! {

/// How many of the latest temperatures the rolling average covers.
pub const ROLLING_AVERAGE_WINDOW: usize = 5;

/// The delay between two rounds of the control loop, in seconds, unless configured.
pub const DEFAULT_DELAY_SECS: u64 = 10;

/// How far below an entry's maximum the temperature must drop before the fan speed
/// decreases, in degrees, unless configured.
pub const DEFAULT_RAMP_DOWN_THRESHOLD: usize = 3;

/// The number that the setting `value` gives, at most `max`; `default` where it is unset;
/// `None` where it is set but not such a number.
pub open spec fn setting_value(value: Option<Seq<char>>, default: u64, max: u64) -> Option<u64> {
    match value {
        None => Some(default),
        Some(s) => match unsigned_value(s, max as nat) {
            Some(v) => Some(v as u64),
            None => None,
        },
    }
}

/// The number that the setting `value` gives, or `default` where it is unset.
pub fn setting_or_default(value: Option<&str>, default: u64, max: u64) -> (r: Option<u64>)
    ensures
        r == setting_value(
            match value {
                Some(s) => Some(s@),
                None => None,
            },
            default,
            max,
        ),
{
    match value {
        None => Some(default),
        Some(s) => {
            let chars = crate::text::chars_of(s);
            let n = chars.len();
            assert(chars@.subrange(0, n as int) =~= chars@);
            crate::text::parse_unsigned(&chars, 0, n, max)
        },
    }
}

/// A set setting is read as the number it spells, whatever that number (0 included), and
/// in particular a number written in decimal reads back as itself; only an unset setting
/// takes the default.
pub proof fn lemma_setting_as_written(v: u64, default: u64, max: u64)
    requires
        v <= max,
    ensures
        setting_value(Some(crate::text::decimal(v as nat)), default, max) == Some(v),
        setting_value(None, default, max) == Some(default),
        forall|s: Seq<char>|
            #[trigger] unsigned_value(s, max as nat) is Some ==> setting_value(Some(s), default, max)
                == Some(unsigned_value(s, max as nat).unwrap() as u64),
{
    crate::text::lemma_decimal_reads_back(v as nat, max as nat);
}

/// The sum of `temperatures`.
pub open spec fn sum(temperatures: Seq<u32>) -> int
    decreases temperatures.len(),
{
    if temperatures.len() == 0 {
        0
    } else {
        sum(temperatures.drop_last()) + temperatures.last()
    }
}

/// The average of `temperatures`, rounded down; `None` where there are none, or where their
/// sum does not fit a `u32`.
pub open spec fn average(temperatures: Seq<u32>) -> Option<u32> {
    if temperatures.len() == 0 || sum(temperatures) > u32::MAX {
        None
    } else {
        Some((sum(temperatures) / temperatures.len() as int) as u32)
    }
}

/// The window after `t` is read: `t` joins, and the oldest temperature leaves a full window.
pub open spec fn window_after(window: Seq<u32>, t: u32) -> Seq<u32> {
    if window.len() >= ROLLING_AVERAGE_WINDOW {
        window.drop_first().push(t)
    } else {
        window.push(t)
    }
}

/// The window after a reading keeps the reading as its newest element, and before it the
/// latest of the earlier readings, as many as fit: all of them while the window is not
/// full, and all but the oldest once it is.
pub proof fn lemma_window_keeps_latest(window: Seq<u32>, t: u32)
    requires
        window.len() <= ROLLING_AVERAGE_WINDOW,
    ensures
        window_after(window, t).len() == if window.len() < ROLLING_AVERAGE_WINDOW {
            window.len() + 1int
        } else {
            ROLLING_AVERAGE_WINDOW as int
        },
        window_after(window, t).last() == t,
        window_after(window, t).drop_last() == window.skip(
            window.len() + 1 - window_after(window, t).len(),
        ),
{
    let after = window_after(window, t);
    assert(after.drop_last() =~= window.skip(window.len() + 1 - after.len()));
}

/// The latest temperatures, oldest first.
pub struct RollingAverage {
    temperatures: VecDeque<u32>,
}

impl RollingAverage {
    /// The window never holds more than `ROLLING_AVERAGE_WINDOW` temperatures.
    #[verifier::type_invariant]
    spec fn within_window(&self) -> bool {
        self.temperatures@.len() <= ROLLING_AVERAGE_WINDOW
    }
}

impl View for RollingAverage {
    type V = Seq<u32>;

    closed spec fn view(&self) -> Seq<u32> {
        self.temperatures@
    }
}

impl RollingAverage {
    /// An empty window.
    pub fn new() -> (r: RollingAverage)
        ensures
            r@ == Seq::<u32>::empty(),
    {
        RollingAverage { temperatures: VecDeque::new() }
    }

    /// Records the temperature `t`.
    pub fn push(&mut self, t: u32)
        ensures
            final(self)@ == window_after(old(self)@, t),
            final(self)@.len() <= ROLLING_AVERAGE_WINDOW,
            final(self)@.last() == t,
            final(self)@.len() == if old(self)@.len() < ROLLING_AVERAGE_WINDOW {
                old(self)@.len() + 1int
            } else {
                ROLLING_AVERAGE_WINDOW as int
            },
            final(self)@.drop_last() == old(self)@.skip(old(self)@.len() + 1 - final(self)@.len()),
    {
        proof {
            use_type_invariant(&*self);
        }
        broadcast use vstd::std_specs::vecdeque::axiom_spec_len;

        let mut temperatures: VecDeque<u32> = VecDeque::new();
        std::mem::swap(&mut temperatures, &mut self.temperatures);
        let ghost before = temperatures@;
        if temperatures.len() == ROLLING_AVERAGE_WINDOW {
            temperatures.pop_front();
        }
        temperatures.push_back(t);
        assert(temperatures@ =~= window_after(before, t));
        proof {
            lemma_window_keeps_latest(before, t);
        }
        self.temperatures = temperatures;
    }

    /// The average of the recorded temperatures, rounded down.
    pub fn average(&self) -> (a: Option<u32>)
        ensures
            a == average(self@),
    {
        broadcast use vstd::std_specs::vecdeque::axiom_spec_len;

        proof {
            use_type_invariant(self);
        }
        let n = self.temperatures.len();
        let mut total: u64 = 0;
        let mut i: usize = 0;
        while i < n
            invariant
                n == self@.len() <= ROLLING_AVERAGE_WINDOW,
                i <= n,
                total == sum(self@.take(i as int)),
                total <= i * 0xffff_ffff,
            decreases n - i,
        {
            assert(self@.take(i + 1).drop_last() =~= self@.take(i as int));
            total = total + self.temperatures[i] as u64;
            i += 1;
        }
        assert(self@.take(n as int) =~= self@);
        if n == 0 || total > 0xffff_ffff {
            return None;
        }
        Some((total / (n as u64)) as u32)
    }
}

/// What iDRAC's fans should do next.
#[derive(Debug, Clone, Copy, PartialEq, Eq, Structural)]
pub enum Action {
    /// Hand the fans back to iDRAC's own controller.
    DisableManualFanControl,
    /// Run the fans at this speed by hand.
    SetManualFanSpeed(FanSpeed),
}

/// The action for the fan speed `speed` (`None`: manual control should be disabled).
pub open spec fn action_for(speed: Option<FanSpeed>) -> Action {
    match speed {
        Some(s) => Action::SetManualFanSpeed(s),
        None => Action::DisableManualFanControl,
    }
}

/// The control loop's state: the fan curve, the hysteresis offset and the latest readings.
pub struct Controller {
    pub curve: FanCurve,
    pub ramp_down_threshold: usize,
    pub window: RollingAverage,
}

impl Controller {
    /// A controller for `curve` with hysteresis offset `ramp_down_threshold` and no readings.
    pub fn new(curve: FanCurve, ramp_down_threshold: usize) -> (c: Controller)
        ensures
            c.curve == curve,
            c.ramp_down_threshold == ramp_down_threshold,
            c.window@ == Seq::<u32>::empty(),
    {
        Controller { curve, ramp_down_threshold, window: RollingAverage::new() }
    }

    /// The next action, given the hottest sensor's temperature `reading` (`None`: reading
    /// the sensors failed) while the fans run at `current`. `None` where the sum of the
    /// readings in the window overflows a `u32`.
    pub fn step(&mut self, reading: Option<u32>, current: Option<FanSpeed>) -> (action: Option<Action>)
        ensures
            final(self).curve == old(self).curve,
            final(self).ramp_down_threshold == old(self).ramp_down_threshold,
            match reading {
                None => {
                    &&& final(self).window@ == old(self).window@
                    &&& action == Some(Action::DisableManualFanControl)
                },
                Some(t) => {
                    &&& final(self).window@ == window_after(old(self).window@, t)
                    &&& action == match average(final(self).window@) {
                        Some(avg) => Some(
                            action_for(
                                gradual(
                                    old(self).curve.config@,
                                    avg,
                                    current,
                                    old(self).ramp_down_threshold as nat,
                                ),
                            ),
                        ),
                        None => None,
                    }
                },
            },
    {
        match reading {
            None => Some(Action::DisableManualFanControl),
            Some(t) => {
                self.window.push(t);
                match self.window.average() {
                    None => None,
                    Some(avg) => {
                        let speed = self.curve.gradual_fan_speed(
                            Temperature(avg),
                            current,
                            self.ramp_down_threshold,
                        );
                        match speed {
                            Some(s) => Some(Action::SetManualFanSpeed(s)),
                            None => Some(Action::DisableManualFanControl),
                        }
                    },
                }
            },
        }
    }
}

/// When the averaged temperature reaches the maximum of every entry, the fans are handed
/// back to iDRAC's own controller, whatever speed they ran at and whatever the offset.
pub proof fn lemma_too_hot_hands_back(curve: FanCurve, avg: u32, current: Option<FanSpeed>, offset: usize)
    requires
        forall|i: int| 0 <= i < curve.config@.len() ==> #[trigger] curve.config@[i].0.0 <= avg,
    ensures
        action_for(gradual(curve.config@, avg, current, offset as nat))
            == Action::DisableManualFanControl,
{
    crate::curve::lemma_no_speed_iff_too_hot(curve, Temperature(avg));
    crate::curve::lemma_hysteresis_keeps_manual_control(curve, Temperature(avg), current, offset);
}

/// Without any curve entries (no arguments), the fans are always handed back to iDRAC.
pub proof fn lemma_no_entries_hands_back(
    curve: FanCurve,
    avg: u32,
    current: Option<FanSpeed>,
    offset: usize,
)
    requires
        stable_sort_of(curve.config@, Seq::<(Temperature, FanSpeed)>::empty()),
    ensures
        action_for(gradual(curve.config@, avg, current, offset as nat))
            == Action::DisableManualFanControl,
{
    crate::curve::lemma_no_entries(curve.config@);
    lemma_too_hot_hands_back(curve, avg, current, offset);
}

/// Below the maximum of some entry, the fans stay under manual control.
pub proof fn lemma_cool_enough_keeps_manual(curve: FanCurve, avg: u32, current: Option<FanSpeed>, offset: usize, i: int)
    requires
        0 <= i < curve.config@.len(),
        avg < curve.config@[i].0.0,
    ensures
        action_for(gradual(curve.config@, avg, current, offset as nat)) is SetManualFanSpeed,
{
    crate::curve::lemma_no_speed_iff_too_hot(curve, Temperature(avg));
    crate::curve::lemma_hysteresis_keeps_manual_control(curve, Temperature(avg), current, offset);
}

} // verus!

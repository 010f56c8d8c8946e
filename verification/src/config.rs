//! The fan curve as given on the command line: arguments of the form
//! `<max temperature>:<fan speed>`, such as `50:10 60:20`.

use vstd::prelude::*;
use crate::curve::{fan_speed_of, lemma_fan_speed_of, stable_sort_of, FanCurve, FanSpeed, Temperature};
use crate::text::{chars_of, count, count_char, find, find_char, parse_unsigned, unsigned_value};

verus! {

/// Why an argument is not a fan-curve entry.
#[derive(Debug, Clone, Copy, PartialEq, Eq, Structural)]
pub enum EntryError {
    /// The argument does not have exactly two `:`-separated parts.
    WrongPartCount,
    /// The part before the `:` is not a `u32`.
    BadMaxTemperature,
    /// The part after the `:` is not a `u8`.
    BadFanSpeed,
    /// The fan speed is above 100 percent.
    FanSpeedTooHigh,
}

/// The `(max temperature, fan speed)` that the argument `s` gives, or why it gives none.
pub open spec fn entry_of(s: Seq<char>) -> Result<(u32, u8), EntryError> {
    if count(s, ':') != 1 {
        Err(EntryError::WrongPartCount)
    } else {
        let i = find(s, ':') as int;
        match unsigned_value(s.take(i), u32::MAX as nat) {
            None => Err(EntryError::BadMaxTemperature),
            Some(t) => match unsigned_value(s.skip(i + 1), u8::MAX as nat) {
                None => Err(EntryError::BadFanSpeed),
                Some(p) => if p > 100 {
                    Err(EntryError::FanSpeedTooHigh)
                } else {
                    Ok((t as u32, p as u8))
                },
            },
        }
    }
}

/// The fan-curve entry that the valid argument `s` gives.
pub open spec fn parsed_entry(s: Seq<char>) -> (Temperature, FanSpeed) {
    let (t, p) = entry_of(s)->Ok_0;
    (Temperature(t), fan_speed_of(p))
}

/// The fan-curve entry that `value` gives, of the form `<max temperature>:<fan speed>`.
pub fn parse_entry(value: &str) -> (r: Result<(Temperature, FanSpeed), EntryError>)
    ensures
        match r {
            Ok(entry) => entry_of(value@) is Ok && entry == parsed_entry(value@),
            Err(e) => entry_of(value@) == Err::<(u32, u8), EntryError>(e),
        },
{
    broadcast use lemma_fan_speed_of;

    let chars = chars_of(value);
    let n = chars.len();
    if count_char(&chars, 0, n, ':') != 1 {
        assert(chars@.subrange(0, n as int) =~= chars@);
        return Err(EntryError::WrongPartCount);
    }
    let i = find_char(&chars, 0, n, ':');
    proof {
        assert(chars@.subrange(0, n as int) =~= chars@);
        crate::text::lemma_find_bound(chars@, ':');
        assert(chars@.subrange(0, i as int) =~= chars@.take(i as int));
        assert(chars@.subrange(i + 1, n as int) =~= chars@.skip(i + 1));
    }
    let max_temp = match parse_unsigned(&chars, 0, i, 0xffff_ffff) {
        Some(t) => t as u32,
        None => return Err(EntryError::BadMaxTemperature),
    };
    let percentage = match parse_unsigned(&chars, i + 1, n, 255) {
        Some(p) => p as u8,
        None => return Err(EntryError::BadFanSpeed),
    };
    if percentage > 100 {
        return Err(EntryError::FanSpeedTooHigh);
    }
    Ok((Temperature(max_temp), FanSpeed::new(percentage)))
}

impl FanCurve {
    /// The curve that the valid arguments `values` give, ordered by maximum temperature.
    pub fn from_iter(values: Vec<String>) -> (curve: FanCurve)
        requires
            forall|i: int| 0 <= i < values@.len() ==> (#[trigger] entry_of(values@[i]@)) is Ok,
        ensures
            stable_sort_of(
                curve.config@,
                Seq::new(values@.len(), |i: int| parsed_entry(values@[i]@)),
            ),
    {
        let mut config: Vec<(Temperature, FanSpeed)> = Vec::new();
        let mut i: usize = 0;
        while i < values.len()
            invariant
                i <= values@.len(),
                forall|j: int| 0 <= j < values@.len() ==> (#[trigger] entry_of(values@[j]@)) is Ok,
                config@ == Seq::new(i as nat, |j: int| parsed_entry(values@[j]@)),
            decreases values@.len() - i,
        {
            let entry = match parse_entry(values[i].as_str()) {
                Ok(entry) => entry,
                Err(_) => {
                    assert(entry_of(values@[i as int]@) is Ok);
                    vstd::pervasive::unreached()
                },
            };
            config.push(entry);
            i += 1;
            assert(config@ =~= Seq::new(i as nat, |j: int| parsed_entry(values@[j]@)));
        }
        FanCurve::new(config.as_slice())
    }
}

} // verus!

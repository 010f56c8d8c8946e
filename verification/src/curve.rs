//! Temperatures, fan speeds and the fan curve that maps one to the other.

use vstd::prelude::*;
use vstd::string::*;
use crate::text::{decimal, push_decimal};

verus! {

/// A temperature in whole degrees Celsius.
#[derive(Debug, Clone, Copy, PartialEq, Eq, Structural, PartialOrd, Ord)]
pub struct Temperature(pub u32);

/// A fan speed in percent; always between 0 and 100.
#[derive(Debug, Clone, Copy, PartialEq, Eq, Structural, PartialOrd, Ord)]
pub struct FanSpeed(u8);

impl FanSpeed {
    #[verifier::type_invariant]
    spec fn at_most_full_speed(self) -> bool {
        self.0 <= 100
    }
}

impl View for FanSpeed {
    type V = u8;

    closed spec fn view(&self) -> u8 {
        self.0
    }
}

/// The fan speed of `p` percent.
pub closed spec fn fan_speed_of(p: u8) -> FanSpeed {
    FanSpeed(p)
}

/// A fan speed is determined by its percentage.
pub broadcast proof fn lemma_fan_speed_of(p: u8)
    ensures
        (#[trigger] fan_speed_of(p))@ == p,
        forall|s: FanSpeed| s@ == p ==> s == fan_speed_of(p),
{
}

impl FanSpeed {
    /// A fan speed of `percentage` percent. The percentage must lie between 0 and 100.
    pub fn new(percentage: u8) -> (speed: FanSpeed)
        requires
            percentage <= 100,
        ensures
            speed@ == percentage,
            speed == fan_speed_of(percentage),
    {
        FanSpeed(percentage)
    }

    /// The speed in percent.
    pub fn percentage(&self) -> (p: u8)
        ensures
            p == self@,
            p <= 100,
    {
        proof {
            use_type_invariant(self);
        }
        self.0
    }
}


impl Temperature {
    /// The temperature as text, such as `50˚C`.
    pub fn to_string(&self) -> (text: String)
        ensures
            text@ == decimal(self.0 as nat) + "˚C"@,
    {
        let mut text = String::new();
        push_decimal(&mut text, self.0 as u64);
        text.append("˚C");
        text
    }
}

impl FanSpeed {
    /// The speed as text, such as `20%`.
    pub fn to_string(&self) -> (text: String)
        ensures
            text@ == decimal(self@ as nat) + "%"@,
    {
        let mut text = String::new();
        push_decimal(&mut text, self.percentage() as u64);
        text.append("%");
        text
    }
}

/// An ordered list of `(maximum temperature, fan speed)` entries.
#[derive(Debug)]
pub struct FanCurve {
    pub config: Vec<(Temperature, FanSpeed)>,
}

/// Entries are ordered by their maximum temperature, lowest first.
pub open spec fn sorted_by_temperature(entries: Seq<(Temperature, FanSpeed)>) -> bool {
    forall|i: int, j: int| 0 <= i <= j < entries.len() ==> entries[i].0.0 <= entries[j].0.0
}

/// Whether an entry has maximum temperature `k`.
pub open spec fn at_temperature(k: u32) -> spec_fn((Temperature, FanSpeed)) -> bool {
    |e: (Temperature, FanSpeed)| e.0.0 == k
}

/// `sorted` is `entries` ordered by maximum temperature, where entries that share a
/// maximum temperature keep the order they had in `entries`.
pub open spec fn stable_sort_of(
    sorted: Seq<(Temperature, FanSpeed)>,
    entries: Seq<(Temperature, FanSpeed)>,
) -> bool {
    &&& sorted_by_temperature(sorted)
    &&& forall|k: u32| #[trigger] sorted.filter(at_temperature(k)) == entries.filter(at_temperature(k))
}

/// Whether `t` lies at least `offset` degrees below the maximum `max`.
pub open spec fn within(t: u32, max: Temperature, offset: nat) -> bool {
    (t as int) + (offset as int) <= max.0
}

/// The fan speed of the first entry whose maximum temperature lies strictly above `t`;
/// `None` where there is no such entry.
pub open spec fn first_above(entries: Seq<(Temperature, FanSpeed)>, t: u32) -> Option<FanSpeed>
    decreases entries.len(),
{
    if entries.len() == 0 {
        None
    } else if t < entries[0].0.0 {
        Some(entries[0].1)
    } else {
        first_above(entries.drop_first(), t)
    }
}

/// The fan speed of the first entry whose maximum temperature lies at least `offset`
/// degrees above `t`; `None` where there is no such entry.
pub open spec fn first_within(entries: Seq<(Temperature, FanSpeed)>, t: u32, offset: nat) -> Option<FanSpeed>
    decreases entries.len(),
{
    if entries.len() == 0 {
        None
    } else if within(t, entries[0].0, offset) {
        Some(entries[0].1)
    } else {
        first_within(entries.drop_first(), t, offset)
    }
}

/// The fan speed for temperature `t` when the fans currently run at `current`
/// (`None`: manual control is off): the curve's speed, except that a decrease waits until
/// `t` lies at least `offset` degrees below the maximum of an entry, and then takes the
/// speed of the first such entry; until then the current speed is kept.
pub open spec fn gradual(
    entries: Seq<(Temperature, FanSpeed)>,
    t: u32,
    current: Option<FanSpeed>,
    offset: nat,
) -> Option<FanSpeed> {
    let target = first_above(entries, t);
    if target is Some && current is Some && target->0@ < current->0@ {
        match first_within(entries, t, offset) {
            Some(s) => Some(s),
            None => current,
        }
    } else {
        target
    }
}

impl FanCurve {
    /// The speed that the curve gives for temperature `t`.
    pub open spec fn fan_speed_for(&self, t: Temperature) -> Option<FanSpeed> {
        first_above(self.config@, t.0)
    }

    /// The speed that the curve gives for temperature `t` with hysteresis, while the fans
    /// run at `current`.
    pub open spec fn gradual_fan_speed_for(
        &self,
        t: Temperature,
        current: Option<FanSpeed>,
        offset: usize,
    ) -> Option<FanSpeed> {
        gradual(self.config@, t.0, current, offset as nat)
    }

    /// A curve holding `config` ordered by maximum temperature (a stable sort).
    pub fn new(config: &[(Temperature, FanSpeed)]) -> (curve: FanCurve)
        ensures
            stable_sort_of(curve.config@, config@),
    {
        let mut sorted: Vec<(Temperature, FanSpeed)> = Vec::new();
        let mut i: usize = 0;
        proof {
            reveal_with_fuel(Seq::filter, 1);
            assert(config@.take(0) =~= Seq::<(Temperature, FanSpeed)>::empty());
        }
        while i < config.len()
            invariant
                i <= config@.len(),
                stable_sort_of(sorted@, config@.take(i as int)),
            decreases config@.len() - i,
        {
            let entry = config[i];
            let mut j: usize = 0;
            while j < sorted.len()
                invariant
                    j <= sorted@.len(),
                    forall|m: int| 0 <= m < j ==> sorted@[m].0.0 <= entry.0.0,
                ensures
                    j <= sorted@.len(),
                    forall|m: int| 0 <= m < j ==> sorted@[m].0.0 <= entry.0.0,
                    j < sorted@.len() ==> sorted@[j as int].0.0 > entry.0.0,
                decreases sorted@.len() - j,
            {
                if sorted[j].0.0 > entry.0.0 {
                    break;
                }
                j += 1;
            }
            proof {
                lemma_insert_keeps_stable_sort(sorted@, config@.take(i as int), entry, j as int);
                assert(config@.take(i + 1) =~= config@.take(i as int).push(entry));
            }
            sorted.insert(j, entry);
            i += 1;
        }
        assert(config@.take(config@.len() as int) =~= config@);
        FanCurve { config: sorted }
    }

    /// The speed of the first entry whose maximum temperature lies strictly above
    /// `temperature`.
    fn first_speed_above(&self, temperature: u32) -> (speed: Option<FanSpeed>)
        ensures
            speed == first_above(self.config@, temperature),
    {
        let mut i: usize = 0;
        assert(self.config@.skip(0) =~= self.config@);
        while i < self.config.len()
            invariant
                i <= self.config@.len(),
                first_above(self.config@, temperature) == first_above(
                    self.config@.skip(i as int),
                    temperature,
                ),
            decreases self.config@.len() - i,
        {
            let (max_temp, fan_speed) = self.config[i];
            proof {
                assert(self.config@.skip(i as int)[0] == self.config@[i as int]);
                assert(self.config@.skip(i as int).drop_first() =~= self.config@.skip(i + 1));
            }
            if temperature < max_temp.0 {
                return Some(fan_speed);
            }
            i += 1;
        }
        None
    }

    /// The speed of the first entry whose maximum temperature lies at least `offset`
    /// degrees above `temperature`.
    fn first_speed_within(&self, temperature: u32, offset: usize) -> (speed: Option<FanSpeed>)
        ensures
            speed == first_within(self.config@, temperature, offset as nat),
    {
        let mut i: usize = 0;
        assert(self.config@.skip(0) =~= self.config@);
        while i < self.config.len()
            invariant
                i <= self.config@.len(),
                first_within(self.config@, temperature, offset as nat) == first_within(
                    self.config@.skip(i as int),
                    temperature,
                    offset as nat,
                ),
            decreases self.config@.len() - i,
        {
            let (max_temp, fan_speed) = self.config[i];
            proof {
                assert(self.config@.skip(i as int)[0] == self.config@[i as int]);
                assert(self.config@.skip(i as int).drop_first() =~= self.config@.skip(i + 1));
            }
            if (temperature as u128) + (offset as u128) <= (max_temp.0 as u128) {
                return Some(fan_speed);
            }
            i += 1;
        }
        None
    }

    /// The configured fan speed for `temperature`: that of the first entry whose maximum
    /// temperature lies strictly above it. `None` means manual fan control should be disabled.
    pub fn fan_speed(&self, temperature: Temperature) -> (speed: Option<FanSpeed>)
        ensures
            speed == self.fan_speed_for(temperature),
    {
        self.first_speed_above(temperature.0)
    }

    /// The configured fan speed for `temperature` when the fans run at `fan_speed`, with
    /// hysteresis: an increase takes effect at once, while a decrease only happens once
    /// `temperature` is at least `hysteresis_offset` within the range of an entry. For
    /// example, to drop to `50:10` from `60:20`, the temperature must be at or below 47,
    /// given an offset of 3. Until then the current speed is kept.
    pub fn gradual_fan_speed(
        &self,
        temperature: Temperature,
        fan_speed: Option<FanSpeed>,
        hysteresis_offset: usize,
    ) -> (speed: Option<FanSpeed>)
        ensures
            speed == self.gradual_fan_speed_for(temperature, fan_speed, hysteresis_offset),
    {
        let target = self.fan_speed(temperature);
        let decrease = match (target, fan_speed) {
            (Some(target), Some(current)) => target.0 < current.0,
            _ => false,
        };
        if !decrease {
            return target;
        }
        match self.first_speed_within(temperature.0, hysteresis_offset) {
            Some(speed) => Some(speed),
            None => fan_speed,
        }
    }
}

/// Inserting `x` just after the entries whose maximum temperature is at most that of `x`
/// keeps `sorted` a stable sort of `entries` extended by `x`.
proof fn lemma_insert_keeps_stable_sort(
    sorted: Seq<(Temperature, FanSpeed)>,
    entries: Seq<(Temperature, FanSpeed)>,
    x: (Temperature, FanSpeed),
    j: int,
)
    requires
        stable_sort_of(sorted, entries),
        0 <= j <= sorted.len(),
        forall|m: int| 0 <= m < j ==> sorted[m].0.0 <= x.0.0,
        j < sorted.len() ==> sorted[j].0.0 > x.0.0,
    ensures
        stable_sort_of(sorted.insert(j, x), entries.push(x)),
{
    let result = sorted.insert(j, x);
    let front = sorted.take(j);
    let back = sorted.skip(j);
    assert(result =~= front + seq![x] + back);
    assert(sorted =~= front + back);
    assert forall|m: int| 0 <= m < back.len() implies back[m].0.0 > x.0.0 by {
        assert(back[m] == sorted[j + m]);
    }
    assert forall|a: int, b: int| 0 <= a <= b < result.len() implies result[a].0.0 <= result[b].0.0 by {
        if a < j && b > j {
            assert(result[b] == sorted[b - 1]);
        } else if a > j {
            assert(result[a] == sorted[a - 1]);
            assert(result[b] == sorted[b - 1]);
        }
    }
    assert forall|k: u32| #[trigger] result.filter(at_temperature(k)) == entries.push(x).filter(at_temperature(k)) by {
        let p = at_temperature(k);
        Seq::filter_distributes_over_add(front + seq![x], back, p);
        Seq::filter_distributes_over_add(front, seq![x], p);
        Seq::filter_distributes_over_add(front, back, p);
        entries.lemma_filter_push(x, p);
        seq![x].lemma_filter_push(x, p);
        reveal_with_fuel(Seq::filter, 2);
        if x.0.0 == k {
            assert forall|m: int| 0 <= m < back.len() implies !p(back[m]) by {
                assert(back[m].0.0 > x.0.0);
            }
            back.lemma_all_neg_filter_empty(p);
        }
    }
}


/// What `first_above` picks, by index: the first entry whose maximum lies above `t`.
pub proof fn lemma_first_above_index(entries: Seq<(Temperature, FanSpeed)>, t: u32)
    ensures
        first_above(entries, t) is None <==> forall|j: int|
            0 <= j < entries.len() ==> #[trigger] entries[j].0.0 <= t,
        first_above(entries, t) is Some ==> exists|i: int|
            0 <= i < entries.len() && first_above(entries, t) == Some(entries[i].1) && t
                < entries[i].0.0 && forall|j: int| 0 <= j < i ==> #[trigger] entries[j].0.0 <= t,
    decreases entries.len(),
{
    if entries.len() > 0 {
        let rest = entries.drop_first();
        lemma_first_above_index(rest, t);
        assert forall|j: int| 0 <= j < rest.len() implies rest[j] == entries[j + 1] by {}
        if entries[0].0.0 <= t {
            if first_above(rest, t) is Some {
                let i = choose|i: int|
                    0 <= i < rest.len() && first_above(rest, t) == Some(rest[i].1) && t
                        < rest[i].0.0 && forall|j: int| 0 <= j < i ==> #[trigger] rest[j].0.0 <= t;
                assert forall|j: int| 0 <= j < i + 1 implies #[trigger] entries[j].0.0 <= t by {
                    if j > 0 {
                        assert(entries[j] == rest[j - 1]);
                    }
                }
                assert(entries[i + 1] == rest[i]);
            } else {
                assert forall|j: int| 0 <= j < entries.len() implies #[trigger] entries[j].0.0 <= t by {
                    if j > 0 {
                        assert(entries[j] == rest[j - 1]);
                    }
                }
            }
        }
    }
}

/// What `first_within` picks, by index: the first entry at least `offset` above `t`.
pub proof fn lemma_first_within_index(entries: Seq<(Temperature, FanSpeed)>, t: u32, offset: nat)
    ensures
        first_within(entries, t, offset) is None <==> forall|j: int|
            0 <= j < entries.len() ==> !(#[trigger] within(t, entries[j].0, offset)),
        first_within(entries, t, offset) is Some ==> exists|i: int|
            0 <= i < entries.len() && first_within(entries, t, offset) == Some(entries[i].1)
                && within(t, entries[i].0, offset) && forall|j: int|
                0 <= j < i ==> !(#[trigger] within(t, entries[j].0, offset)),
    decreases entries.len(),
{
    if entries.len() > 0 {
        let rest = entries.drop_first();
        lemma_first_within_index(rest, t, offset);
        assert forall|j: int| 0 <= j < rest.len() implies rest[j] == entries[j + 1] by {}
        if !within(t, entries[0].0, offset) {
            if first_within(rest, t, offset) is Some {
                let i = choose|i: int|
                    0 <= i < rest.len() && first_within(rest, t, offset) == Some(rest[i].1)
                        && within(t, rest[i].0, offset) && forall|j: int|
                        0 <= j < i ==> !(#[trigger] within(t, rest[j].0, offset));
                assert forall|j: int| 0 <= j < i + 1 implies !(#[trigger] within(t, entries[j].0, offset)) by {
                    if j > 0 {
                        assert(entries[j] == rest[j - 1]);
                    }
                }
                assert(entries[i + 1] == rest[i]);
            } else {
                assert forall|j: int| 0 <= j < entries.len() implies !(#[trigger] within(t, entries[j].0, offset)) by {
                    if j > 0 {
                        assert(entries[j] == rest[j - 1]);
                    }
                }
            }
        }
    }
}

/// Manual control is given up exactly when the temperature reaches the maximum of every entry.
pub proof fn lemma_no_speed_iff_too_hot(curve: FanCurve, t: Temperature)
    ensures
        curve.fan_speed_for(t) is None <==> forall|i: int|
            0 <= i < curve.config@.len() ==> #[trigger] curve.config@[i].0.0 <= t.0,
{
    lemma_first_above_index(curve.config@, t.0);
}

/// On a curve ordered by maximum temperature, the chosen speed is that of the entry with
/// the lowest maximum temperature still above the measured temperature.
pub proof fn lemma_speed_of_lowest_maximum_above(curve: FanCurve, t: Temperature)
    requires
        sorted_by_temperature(curve.config@),
    ensures
        curve.fan_speed_for(t) is Some ==> exists|i: int|
            0 <= i < curve.config@.len() && curve.fan_speed_for(t) == Some(curve.config@[i].1)
                && t.0 < curve.config@[i].0.0 && forall|j: int|
                0 <= j < curve.config@.len() && t.0 < #[trigger] curve.config@[j].0.0
                    ==> curve.config@[i].0.0 <= curve.config@[j].0.0,
{
    let e = curve.config@;
    lemma_first_above_index(e, t.0);
    if first_above(e, t.0) is Some {
        let i = choose|i: int|
            0 <= i < e.len() && first_above(e, t.0) == Some(e[i].1) && t.0 < e[i].0.0 && forall|
                j: int,
            | 0 <= j < i ==> #[trigger] e[j].0.0 <= t.0;
        assert forall|j: int| 0 <= j < e.len() && t.0 < #[trigger] e[j].0.0 implies e[i].0.0
            <= e[j].0.0 by {
            if j < i {
                assert(e[j].0.0 <= t.0);
            }
        }
    }
}

/// Only a decrease is delayed: without manual control, or when the curve asks for the
/// same or a higher speed, the curve's speed applies at once.
pub proof fn lemma_increase_is_immediate(
    curve: FanCurve,
    t: Temperature,
    current: Option<FanSpeed>,
    offset: usize,
)
    requires
        current is None || curve.fan_speed_for(t) is None || current->0@ <= curve.fan_speed_for(
            t,
        )->0@,
    ensures
        curve.gradual_fan_speed_for(t, current, offset) == curve.fan_speed_for(t),
{
}

/// Hysteresis never changes whether manual fan control applies.
pub proof fn lemma_hysteresis_keeps_manual_control(
    curve: FanCurve,
    t: Temperature,
    current: Option<FanSpeed>,
    offset: usize,
)
    ensures
        curve.gradual_fan_speed_for(t, current, offset) is Some <==> curve.fan_speed_for(t) is Some,
{
}

/// A speed below the current one is only chosen from an entry whose maximum lies at least
/// the offset above the temperature.
pub proof fn lemma_decrease_needs_margin(
    curve: FanCurve,
    t: Temperature,
    current: FanSpeed,
    offset: usize,
    s: FanSpeed,
)
    requires
        curve.gradual_fan_speed_for(t, Some(current), offset) == Some(s),
        s@ < current@,
    ensures
        exists|i: int|
            0 <= i < curve.config@.len() && curve.config@[i].1 == s && within(t.0, curve.config@[i].0, offset as nat),
{
    lemma_first_within_index(curve.config@, t.0, offset as nat);
}

/// On a curve whose speeds rise with its maximum temperatures, hysteresis with a
/// positive offset never picks a speed below the one the curve asks for.
pub proof fn lemma_hysteresis_never_undercools(
    curve: FanCurve,
    t: Temperature,
    current: Option<FanSpeed>,
    offset: usize,
)
    requires
        forall|i: int, j: int|
            0 <= i <= j < curve.config@.len() ==> #[trigger] curve.config@[i].1@
                <= #[trigger] curve.config@[j].1@,
        offset >= 1,
        curve.fan_speed_for(t) is Some,
    ensures
        curve.gradual_fan_speed_for(t, current, offset) is Some,
        curve.fan_speed_for(t)->0@ <= curve.gradual_fan_speed_for(t, current, offset)->0@,
{
    let e = curve.config@;
    let off = offset as nat;
    lemma_first_above_index(e, t.0);
    lemma_first_within_index(e, t.0, off);
    let target = first_above(e, t.0);
    if current is Some && target->0@ < current->0@ {
        if first_within(e, t.0, off) is Some {
            let i = choose|i: int|
                0 <= i < e.len() && first_above(e, t.0) == Some(e[i].1) && t.0 < e[i].0.0
                    && forall|j: int| 0 <= j < i ==> #[trigger] e[j].0.0 <= t.0;
            let k = choose|k: int|
                0 <= k < e.len() && first_within(e, t.0, off) == Some(e[k].1) && within(
                    t.0,
                    e[k].0,
                    off,
                ) && forall|j: int|
                    0 <= j < k ==> !(#[trigger] within(t.0, e[j].0, off));
            assert(t.0 < e[k].0.0);
            if k < i {
                assert(e[k].0.0 <= t.0);
            }
            assert(e[i].1@ <= e[k].1@);
        }
    }
}

/// No entry of a sorted sequence has a maximum above that of its last entry.
proof fn lemma_nothing_above_last(s: Seq<(Temperature, FanSpeed)>, k: u32)
    requires
        sorted_by_temperature(s),
        s.len() > 0,
        s.last().0.0 < k,
    ensures
        s.filter(at_temperature(k)).len() == 0,
{
    let p = at_temperature(k);
    assert forall|m: int| 0 <= m < s.len() implies !p(s[m]) by {
        assert(s[m].0.0 <= s[s.len() - 1].0.0);
    }
    s.lemma_all_neg_filter_empty(p);
}

/// Splitting off the last entry of a sequence, as seen through the entries of one maximum.
proof fn lemma_filter_without_last(s: Seq<(Temperature, FanSpeed)>, k: u32)
    requires
        s.len() > 0,
    ensures
        s.last().0.0 == k ==> s.filter(at_temperature(k)) == s.drop_last().filter(
            at_temperature(k),
        ).push(s.last()),
        s.last().0.0 != k ==> s.filter(at_temperature(k)) == s.drop_last().filter(
            at_temperature(k),
        ),
{
    assert(s =~= s.drop_last().push(s.last()));
    s.drop_last().lemma_filter_push(s.last(), at_temperature(k));
}

/// Two sequences ordered by maximum temperature that agree on the entries of every
/// maximum, in order, are equal.
proof fn lemma_sorted_by_filters(a: Seq<(Temperature, FanSpeed)>, b: Seq<(Temperature, FanSpeed)>)
    requires
        sorted_by_temperature(a),
        sorted_by_temperature(b),
        forall|k: u32| #[trigger] a.filter(at_temperature(k)) == b.filter(at_temperature(k)),
    ensures
        a == b,
    decreases a.len() + b.len(),
{
    if a.len() == 0 && b.len() == 0 {
        assert(a =~= b);
    } else if a.len() == 0 {
        let k = b.last().0.0;
        lemma_filter_without_last(b, k);
        reveal_with_fuel(Seq::filter, 1);
        assert(a.filter(at_temperature(k)).len() == 0);
    } else if b.len() == 0 {
        let k = a.last().0.0;
        lemma_filter_without_last(a, k);
        reveal_with_fuel(Seq::filter, 1);
        assert(b.filter(at_temperature(k)).len() == 0);
    } else {
        let ka = a.last().0.0;
        let kb = b.last().0.0;
        lemma_filter_without_last(a, ka);
        lemma_filter_without_last(b, kb);
        if kb < ka {
            lemma_nothing_above_last(b, ka);
            assert(a.filter(at_temperature(ka)) == b.filter(at_temperature(ka)));
        }
        if ka < kb {
            lemma_nothing_above_last(a, kb);
            assert(a.filter(at_temperature(kb)) == b.filter(at_temperature(kb)));
        }
        assert(ka == kb);
        assert(a.filter(at_temperature(ka)) == b.filter(at_temperature(ka)));
        assert(a.last() == a.filter(at_temperature(ka)).last());
        let a0 = a.drop_last();
        let b0 = b.drop_last();
        assert forall|k: u32| #[trigger] a0.filter(at_temperature(k)) == b0.filter(at_temperature(k)) by {
            lemma_filter_without_last(a, k);
            lemma_filter_without_last(b, k);
            assert(a.filter(at_temperature(k)) == b.filter(at_temperature(k)));
            if k == ka {
                assert(a0.filter(at_temperature(k)) =~= a.filter(at_temperature(k)).drop_last());
                assert(b0.filter(at_temperature(k)) =~= b.filter(at_temperature(k)).drop_last());
            }
        }
        lemma_sorted_by_filters(a0, b0);
        assert(a =~= a0.push(a.last()));
        assert(b =~= b0.push(b.last()));
    }
}

/// The ordered curve depends only on the entries of each maximum temperature, in the
/// order they were given: inputs that agree there give the same curve.
pub proof fn lemma_stable_sort_unique(
    sorted1: Seq<(Temperature, FanSpeed)>,
    entries1: Seq<(Temperature, FanSpeed)>,
    sorted2: Seq<(Temperature, FanSpeed)>,
    entries2: Seq<(Temperature, FanSpeed)>,
)
    requires
        stable_sort_of(sorted1, entries1),
        stable_sort_of(sorted2, entries2),
        forall|k: u32| #[trigger] entries1.filter(at_temperature(k)) == entries2.filter(at_temperature(k)),
    ensures
        sorted1 == sorted2,
{
    assert forall|k: u32| #[trigger] sorted1.filter(at_temperature(k)) == sorted2.filter(at_temperature(k)) by {
        assert(sorted1.filter(at_temperature(k)) == entries1.filter(at_temperature(k)));
        assert(sorted2.filter(at_temperature(k)) == entries2.filter(at_temperature(k)));
    }
    lemma_sorted_by_filters(sorted1, sorted2);
}

/// A curve made from no entries has none.
pub proof fn lemma_no_entries(sorted: Seq<(Temperature, FanSpeed)>)
    requires
        stable_sort_of(sorted, Seq::<(Temperature, FanSpeed)>::empty()),
    ensures
        sorted.len() == 0,
{
    let empty = Seq::<(Temperature, FanSpeed)>::empty();
    lemma_sorted_by_filters(sorted, empty);
}

/// A config that is already ordered by maximum temperature is kept as given.
pub proof fn lemma_sorted_config_kept(sorted: Seq<(Temperature, FanSpeed)>, entries: Seq<(Temperature, FanSpeed)>)
    requires
        stable_sort_of(sorted, entries),
        sorted_by_temperature(entries),
    ensures
        sorted == entries,
{
    lemma_sorted_by_filters(sorted, entries);
}


/// No two entries share a maximum temperature.
pub open spec fn distinct_maxima(entries: Seq<(Temperature, FanSpeed)>) -> bool {
    forall|i: int, j: int| 0 <= i < j < entries.len() ==> entries[i].0.0 != entries[j].0.0
}

/// Without an entry of maximum `k`, none is kept for `k`.
proof fn lemma_filter_none(s: Seq<(Temperature, FanSpeed)>, k: u32)
    requires
        forall|j: int| 0 <= j < s.len() ==> #[trigger] s[j].0.0 != k,
    ensures
        s.filter(at_temperature(k)) == Seq::<(Temperature, FanSpeed)>::empty(),
{
    let p = at_temperature(k);
    assert forall|j: int| 0 <= j < s.len() implies !p(s[j]) by {}
    s.lemma_all_neg_filter_empty(p);
    assert(s.filter(p) =~= Seq::<(Temperature, FanSpeed)>::empty());
}

/// With exactly one entry of maximum `k`, that entry is all that is kept for `k`.
proof fn lemma_filter_single(s: Seq<(Temperature, FanSpeed)>, k: u32, i: int)
    requires
        0 <= i < s.len(),
        s[i].0.0 == k,
        forall|j: int| 0 <= j < s.len() && j != i ==> #[trigger] s[j].0.0 != k,
    ensures
        s.filter(at_temperature(k)) == seq![s[i]],
    decreases s.len(),
{
    let rest = s.drop_last();
    lemma_filter_without_last(s, k);
    if i == s.len() - 1 {
        assert forall|j: int| 0 <= j < rest.len() implies #[trigger] rest[j].0.0 != k by {
            assert(rest[j] == s[j]);
        }
        lemma_filter_none(rest, k);
        assert(s.filter(at_temperature(k)) =~= seq![s[i]]);
    } else {
        assert(s.last() == s[s.len() - 1]);
        assert forall|j: int| 0 <= j < rest.len() && j != i implies #[trigger] rest[j].0.0 != k by {
            assert(rest[j] == s[j]);
        }
        assert(rest[i] == s[i]);
        lemma_filter_single(rest, k, i);
    }
}

/// Entries given in any order, no two of them with the same maximum temperature, make the
/// same curve.
pub proof fn lemma_permutation_same_curve(
    sorted1: Seq<(Temperature, FanSpeed)>,
    entries1: Seq<(Temperature, FanSpeed)>,
    sorted2: Seq<(Temperature, FanSpeed)>,
    entries2: Seq<(Temperature, FanSpeed)>,
)
    requires
        stable_sort_of(sorted1, entries1),
        stable_sort_of(sorted2, entries2),
        entries1.to_multiset() == entries2.to_multiset(),
        distinct_maxima(entries2),
    ensures
        sorted1 == sorted2,
{
    broadcast use vstd::seq_lib::group_to_multiset_ensures;

    let e1 = entries1;
    let e2 = entries2;
    assert(e2.no_duplicates());
    e2.lemma_multiset_has_no_duplicates();
    e1.lemma_multiset_has_no_duplicates_conv();
    assert forall|i: int| 0 <= i < e1.len() implies exists|p: int| 0 <= p < e2.len() && e2[p]
        == #[trigger] e1[i] by {
        assert(e1.contains(e1[i]));
        assert(e1.to_multiset().count(e1[i]) > 0);
        assert(e2.contains(e1[i]));
    }
    assert forall|p: int| 0 <= p < e2.len() implies exists|i: int| 0 <= i < e1.len() && e1[i]
        == #[trigger] e2[p] by {
        assert(e2.contains(e2[p]));
        assert(e2.to_multiset().count(e2[p]) > 0);
        assert(e1.contains(e2[p]));
    }
    assert forall|i: int, j: int| 0 <= i < j < e1.len() implies e1[i].0.0 != e1[j].0.0 by {
        if e1[i].0.0 == e1[j].0.0 {
            let p = choose|p: int| 0 <= p < e2.len() && e2[p] == e1[i];
            let q = choose|q: int| 0 <= q < e2.len() && e2[q] == e1[j];
            if p < q {
                assert(e2[p].0.0 != e2[q].0.0);
            } else if q < p {
                assert(e2[q].0.0 != e2[p].0.0);
            }
            assert(e1[i] == e1[j]);
        }
    }
    assert forall|k: u32| #[trigger] e1.filter(at_temperature(k)) == e2.filter(at_temperature(k)) by {
        if exists|p: int| 0 <= p < e2.len() && e2[p].0.0 == k {
            let p = choose|p: int| 0 <= p < e2.len() && e2[p].0.0 == k;
            assert forall|j: int| 0 <= j < e2.len() && j != p implies #[trigger] e2[j].0.0 != k by {
                if j < p {
                    assert(e2[j].0.0 != e2[p].0.0);
                } else {
                    assert(e2[p].0.0 != e2[j].0.0);
                }
            }
            lemma_filter_single(e2, k, p);
            let i = choose|i: int| 0 <= i < e1.len() && e1[i] == e2[p];
            assert forall|j: int| 0 <= j < e1.len() && j != i implies #[trigger] e1[j].0.0 != k by {
                if j < i {
                    assert(e1[j].0.0 != e1[i].0.0);
                } else {
                    assert(e1[i].0.0 != e1[j].0.0);
                }
            }
            lemma_filter_single(e1, k, i);
        } else {
            lemma_filter_none(e2, k);
            assert forall|j: int| 0 <= j < e1.len() implies #[trigger] e1[j].0.0 != k by {
                let p = choose|p: int| 0 <= p < e2.len() && e2[p] == e1[j];
                assert(e2[p].0.0 != k);
            }
            lemma_filter_none(e1, k);
        }
    }
    lemma_stable_sort_unique(sorted1, e1, sorted2, e2);
}


/// Entry `i` is the first whose maximum temperature is at least `bound`.
pub open spec fn first_reaching(entries: Seq<(Temperature, FanSpeed)>, bound: int, i: int) -> bool {
    &&& 0 <= i < entries.len()
    &&& bound <= entries[i].0.0
    &&& forall|j: int| 0 <= j < i ==> #[trigger] entries[j].0.0 < bound
}

/// The hysteresis rule, by entries: the curve's speed is that of the first entry whose
/// maximum lies above the temperature; it applies unless it is a decrease from the current
/// speed. A decrease goes to the first entry whose maximum lies at least the offset above
/// the temperature, and where there is none the current speed is kept. Where no maximum
/// lies above the temperature, manual control ends.
pub proof fn lemma_gradual_rule(curve: FanCurve, t: Temperature, current: Option<FanSpeed>, offset: usize)
    ensures
        (forall|j: int| 0 <= j < curve.config@.len() ==> #[trigger] curve.config@[j].0.0 <= t.0)
            ==> curve.gradual_fan_speed_for(t, current, offset) is None,
        forall|i: int|
            #![trigger first_reaching(curve.config@, t.0 + 1, i)]
            first_reaching(curve.config@, t.0 + 1, i) && !(current is Some
                && curve.config@[i].1@ < current->0@) ==> curve.gradual_fan_speed_for(
                t,
                current,
                offset,
            ) == Some(curve.config@[i].1),
        forall|i: int, k: int|
            #![trigger first_reaching(curve.config@, t.0 + 1, i), first_reaching(curve.config@, t.0 + offset, k)]
            first_reaching(curve.config@, t.0 + 1, i) && current is Some && curve.config@[i].1@
                < current->0@ && first_reaching(curve.config@, t.0 + offset, k)
                ==> curve.gradual_fan_speed_for(t, current, offset) == Some(curve.config@[k].1),
        forall|i: int|
            #![trigger first_reaching(curve.config@, t.0 + 1, i)]
            first_reaching(curve.config@, t.0 + 1, i) && current is Some && curve.config@[i].1@
                < current->0@ && (forall|j: int|
                0 <= j < curve.config@.len() ==> #[trigger] curve.config@[j].0.0 < t.0 + offset)
                ==> curve.gradual_fan_speed_for(t, current, offset) == current,
{
    let e = curve.config@;
    let off = offset as nat;
    lemma_first_above_index(e, t.0);
    lemma_first_within_index(e, t.0, off);
    assert forall|i: int| #[trigger] first_reaching(e, t.0 + 1, i) implies first_above(e, t.0)
        == Some(e[i].1) by {
        let a = choose|a: int|
            0 <= a < e.len() && first_above(e, t.0) == Some(e[a].1) && t.0 < e[a].0.0 && forall|
                j: int,
            | 0 <= j < a ==> #[trigger] e[j].0.0 <= t.0;
        if a < i {
            assert(e[a].0.0 < t.0 + 1);
        }
        if i < a {
            assert(e[i].0.0 <= t.0);
        }
    }
    assert forall|k: int| #[trigger] first_reaching(e, t.0 + offset, k) implies first_within(
        e,
        t.0,
        off,
    ) == Some(e[k].1) by {
        assert(within(t.0, e[k].0, off));
        let a = choose|a: int|
            0 <= a < e.len() && first_within(e, t.0, off) == Some(e[a].1) && within(t.0, e[a].0, off)
                && forall|j: int| 0 <= j < a ==> !(#[trigger] within(t.0, e[j].0, off));
        if a < k {
            assert(e[a].0.0 < t.0 + offset);
        }
        if k < a {
            assert(!within(t.0, e[k].0, off));
        }
    }
    assert((forall|j: int| 0 <= j < e.len() ==> #[trigger] e[j].0.0 < t.0 + offset) ==> forall|
        j: int,
    | 0 <= j < e.len() ==> !(#[trigger] within(t.0, e[j].0, off)));
}

} // verus!

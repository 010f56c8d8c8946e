//! Temperature readings from the output of `ipmitool sdr type temperature`.
//!
//! Each line of that output has five fields separated by `|`: the sensor's name first and
//! the reading last, such as `Inlet Temp | 05h | ok | 7.1 | 31 degrees C`.

use vstd::prelude::*;
use vstd::string::*;
use crate::text::{
    copy_range, count, count_char, find, find_char, find_last, find_last_char, lemma_find_is,
    parse_unsigned, trim_range, trimmed, unsigned_value,
};

verus! {

/// `line` without one trailing carriage return.
pub open spec fn strip_cr(line: Seq<char>) -> Seq<char> {
    if line.len() > 0 && line.last() == '\r' {
        line.drop_last()
    } else {
        line
    }
}

/// The lines of `s`, as `str::lines` gives them: split at each `\n`, with one `\r` before
/// it removed, and no empty line after a final `\n`.
pub open spec fn lines(s: Seq<char>) -> Seq<Seq<char>>
    decreases s.len(),
{
    if s.len() == 0 {
        seq![]
    } else {
        let i = find(s, '\n');
        if i >= s.len() {
            seq![s]
        } else {
            seq![strip_cr(s.take(i as int))] + lines(s.skip(i + 1int))
        }
    }
}

/// The sensor name and temperature that `line` reports: where it has exactly five
/// `|`-separated fields, the first field trimmed is the name, and the last field trimmed,
/// up to its first space, must spell a `u32`. A last field such as `No Reading` or
/// `Disabled` thus gives no temperature.
pub open spec fn reading(line: Seq<char>) -> Option<(Seq<char>, u32)> {
    if count(line, '|') == 4 {
        let name = trimmed(line.take(find(line, '|') as int));
        let field = trimmed(line.skip(find_last(line, '|') + 1int));
        let word = field.take(find(field, ' ') as int);
        match unsigned_value(word, u32::MAX as nat) {
            Some(t) => Some((name, t as u32)),
            None => None,
        }
    } else {
        None
    }
}

/// The temperature of each sensor after reading `lines` in order; a later reading of a
/// sensor replaces an earlier one.
pub open spec fn readings(lines: Seq<Seq<char>>) -> Map<Seq<char>, u32>
    decreases lines.len(),
{
    if lines.len() == 0 {
        Map::empty()
    } else {
        let before = readings(lines.drop_last());
        match reading(lines.last()) {
            Some((name, t)) => before.insert(name, t),
            None => before,
        }
    }
}

/// Whether `line` reports a reading of sensor `name`.
pub open spec fn reports(line: Seq<char>, name: Seq<char>) -> bool {
    match reading(line) {
        Some((n, _)) => n == name,
        None => false,
    }
}

/// Exactly the sensors that some line reports have a reading, and each reads the
/// temperature on the last line that reports it: a later line replaces an earlier one,
/// whatever the two temperatures.
pub proof fn lemma_last_reading_wins(lines: Seq<Seq<char>>)
    ensures
        forall|n: Seq<char>| #[trigger]
            readings(lines).dom().contains(n) <==> exists|i: int|
                0 <= i < lines.len() && #[trigger] reports(lines[i], n),
        forall|i: int, n: Seq<char>|
            0 <= i < lines.len() && #[trigger] reports(lines[i], n) && (forall|j: int|
                i < j < lines.len() ==> !#[trigger] reports(lines[j], n)) ==> readings(lines)[n]
                == reading(lines[i]).unwrap().1,
    decreases lines.len(),
{
    if lines.len() > 0 {
        let rest = lines.drop_last();
        let last = lines.last();
        lemma_last_reading_wins(rest);
        assert forall|j: int| 0 <= j < rest.len() implies rest[j] == lines[j] by {}
        assert forall|n: Seq<char>| #[trigger] readings(lines).dom().contains(n) <==> exists|i: int|
            0 <= i < lines.len() && #[trigger] reports(lines[i], n) by {
            assert(lines[lines.len() - 1] == last);
            if readings(rest).dom().contains(n) {
                let i = choose|i: int| 0 <= i < rest.len() && #[trigger] reports(rest[i], n);
                assert(reports(lines[i], n));
            }
            if reports(last, n) {
                assert(reports(lines[lines.len() - 1], n));
            }
            if exists|i: int| 0 <= i < lines.len() && #[trigger] reports(lines[i], n) {
                let i = choose|i: int| 0 <= i < lines.len() && #[trigger] reports(lines[i], n);
                if i < lines.len() - 1 {
                    assert(reports(rest[i], n));
                }
            }
        }
        assert forall|i: int, n: Seq<char>|
            0 <= i < lines.len() && #[trigger] reports(lines[i], n) && (forall|j: int|
                i < j < lines.len() ==> !#[trigger] reports(lines[j], n)) implies readings(lines)[n]
            == reading(lines[i]).unwrap().1 by {
            if i < lines.len() - 1 {
                assert(!reports(lines[lines.len() - 1], n));
                assert(reports(rest[i], n));
                assert forall|j: int| i < j < rest.len() implies !#[trigger] reports(rest[j], n) by {
                    assert(!reports(lines[j], n));
                }
            }
        }
    }
}

/// The temperature of each sensor that `output` reports.
pub open spec fn sensor_readings(output: Seq<char>) -> Map<Seq<char>, u32> {
    readings(lines(output))
}

/// `v` is the highest temperature in `m`.
pub open spec fn is_highest(m: Map<Seq<char>, u32>, v: u32) -> bool {
    &&& exists|k: Seq<char>| m.dom().contains(k) && m[k] == v
    &&& forall|k: Seq<char>| m.dom().contains(k) ==> m[k] <= v
}

/// The map that results from inserting `pairs` in order.
pub open spec fn pairs_map(pairs: Seq<(Seq<char>, u32)>) -> Map<Seq<char>, u32>
    decreases pairs.len(),
{
    if pairs.len() == 0 {
        Map::empty()
    } else {
        pairs_map(pairs.drop_last()).insert(pairs.last().0, pairs.last().1)
    }
}

/// No two pairs share a name.
pub open spec fn distinct_names(pairs: Seq<(Seq<char>, u32)>) -> bool {
    forall|i: int, j: int| 0 <= i < j < pairs.len() ==> pairs[i].0 != pairs[j].0
}

/// With distinct names, the map holds exactly the pairs.
proof fn lemma_pairs_map(pairs: Seq<(Seq<char>, u32)>)
    requires
        distinct_names(pairs),
    ensures
        forall|k: Seq<char>| #[trigger]
            pairs_map(pairs).dom().contains(k) <==> exists|i: int|
                0 <= i < pairs.len() && pairs[i].0 == k,
        forall|i: int| 0 <= i < pairs.len() ==> pairs_map(pairs)[#[trigger] pairs[i].0] == pairs[i].1,
    decreases pairs.len(),
{
    if pairs.len() > 0 {
        let rest = pairs.drop_last();
        lemma_pairs_map(rest);
        let m = pairs_map(pairs);
        assert forall|k: Seq<char>| #[trigger] m.dom().contains(k) <==> exists|i: int|
            0 <= i < pairs.len() && pairs[i].0 == k by {
            if m.dom().contains(k) && k != pairs.last().0 {
                assert(pairs_map(rest).dom().contains(k));
                let i = choose|i: int| 0 <= i < rest.len() && rest[i].0 == k;
                assert(rest[i] == pairs[i]);
                assert(pairs[i].0 == k);
            }
            if k == pairs.last().0 {
                assert(pairs[pairs.len() - 1].0 == k);
            }
            if exists|i: int| 0 <= i < pairs.len() && pairs[i].0 == k {
                let i = choose|i: int| 0 <= i < pairs.len() && pairs[i].0 == k;
                if i < pairs.len() - 1 {
                    assert(rest[i].0 == k);
                }
            }
        }
        assert forall|i: int| 0 <= i < pairs.len() implies m[#[trigger] pairs[i].0] == pairs[i].1 by {
            if i < pairs.len() - 1 {
                assert(rest[i] == pairs[i]);
                assert(pairs[i].0 != pairs.last().0);
            }
        }
    }
}

/// Replacing the value of a pair changes the map as an insertion does.
proof fn lemma_pairs_map_update(pairs: Seq<(Seq<char>, u32)>, i: int, t: u32)
    requires
        distinct_names(pairs),
        0 <= i < pairs.len(),
    ensures
        pairs_map(pairs.update(i, (pairs[i].0, t))) == pairs_map(pairs).insert(pairs[i].0, t),
    decreases pairs.len(),
{
    let name = pairs[i].0;
    let updated = pairs.update(i, (name, t));
    if i == pairs.len() - 1 {
        assert(updated.drop_last() =~= pairs.drop_last());
        assert(pairs_map(updated) =~= pairs_map(pairs).insert(name, t));
    } else {
        let rest = pairs.drop_last();
        assert(updated.drop_last() =~= rest.update(i, (name, t)));
        lemma_pairs_map_update(rest, i, t);
        assert(pairs.last().0 != name);
        assert(pairs_map(updated) =~= pairs_map(pairs).insert(name, t));
    }
}

/// The temperature of each sensor, by name.
pub struct SensorReadings {
    entries: Vec<(Vec<char>, u32)>,
}

impl SensorReadings {
    /// The readings as `(name, temperature)` pairs, in the order the sensors first appeared.
    pub closed spec fn pairs(&self) -> Seq<(Seq<char>, u32)> {
        Seq::new(self.entries@.len(), |i: int| (self.entries@[i].0@, self.entries@[i].1))
    }

    /// No name is held twice.
    #[verifier::type_invariant]
    spec fn names_distinct(&self) -> bool {
        distinct_names(self.pairs())
    }
}

impl View for SensorReadings {
    type V = Map<Seq<char>, u32>;

    closed spec fn view(&self) -> Map<Seq<char>, u32> {
        pairs_map(self.pairs())
    }
}

/// Whether `a` and `b` hold the same characters.
fn same_chars(a: &Vec<char>, b: &Vec<char>) -> (same: bool)
    ensures
        same == (a@ == b@),
{
    if a.len() != b.len() {
        return false;
    }
    let mut i: usize = 0;
    while i < a.len()
        invariant
            a@.len() == b@.len(),
            i <= a@.len(),
            forall|j: int| 0 <= j < i ==> a@[j] == b@[j],
        decreases a@.len() - i,
    {
        if a[i] != b[i] {
            return false;
        }
        i += 1;
    }
    assert(a@ =~= b@);
    true
}

impl SensorReadings {
    /// No readings.
    pub fn new() -> (r: SensorReadings)
        ensures
            r@ == Map::<Seq<char>, u32>::empty(),
    {
        let r = SensorReadings { entries: Vec::new() };
        assert(r.pairs() =~= Seq::<(Seq<char>, u32)>::empty());
        r
    }

    /// Records that sensor `name` reads `temperature`, replacing any earlier reading.
    pub fn record(&mut self, name: Vec<char>, temperature: u32)
        ensures
            final(self)@ == old(self)@.insert(name@, temperature),
    {
        proof {
            use_type_invariant(&*self);
        }
        let mut i: usize = 0;
        let mut found = false;
        while i < self.entries.len()
            invariant_except_break
                !found,
            invariant
                i <= self.entries@.len(),
                forall|j: int| 0 <= j < i ==> self.entries@[j].0@ != name@,
            ensures
                i <= self.entries@.len(),
                found ==> i < self.entries@.len() && self.entries@[i as int].0@ == name@,
                !found ==> forall|j: int| 0 <= j < self.entries@.len() ==> self.entries@[j].0@ != name@,
            decreases self.entries@.len() - i,
        {
            if same_chars(&self.entries[i].0, &name) {
                found = true;
                break;
            }
            i += 1;
        }
        let ghost before = self.pairs();
        let ghost name_view = name@;
        let mut entries: Vec<(Vec<char>, u32)> = Vec::new();
        std::mem::swap(&mut entries, &mut self.entries);
        if found {
            proof {
                lemma_pairs_map_update(before, i as int, temperature);
            }
            entries.set(i, (name, temperature));
        } else {
            entries.push((name, temperature));
        }
        let ghost after = Seq::new(entries@.len(), |j: int| (entries@[j].0@, entries@[j].1));
        proof {
            if found {
                assert(after =~= before.update(i as int, (before[i as int].0, temperature)));
            } else {
                assert(after =~= before.push((name_view, temperature)));
                assert(after.drop_last() =~= before);
            }
        }
        self.entries = entries;
        assert(self.pairs() == after);
    }

    /// The highest temperature read, if any sensor was read.
    pub fn highest(&self) -> (t: Option<u32>)
        ensures
            match t {
                Some(v) => is_highest(self@, v),
                None => forall|k: Seq<char>| !self@.dom().contains(k),
            },
    {
        proof {
            use_type_invariant(self);
            lemma_pairs_map(self.pairs());
        }
        if self.entries.len() == 0 {
            return None;
        }
        let mut best: u32 = self.entries[0].1;
        let mut at: usize = 0;
        let mut i: usize = 1;
        while i < self.entries.len()
            invariant
                1 <= i <= self.entries@.len(),
                at < i,
                best == self.entries@[at as int].1,
                forall|j: int| 0 <= j < i ==> self.entries@[j].1 <= best,
            decreases self.entries@.len() - i,
        {
            if self.entries[i].1 > best {
                best = self.entries[i].1;
                at = i;
            }
            i += 1;
        }
        proof {
            let p = self.pairs();
            assert(p[at as int].0 == self.entries@[at as int].0@);
            assert(self@[p[at as int].0] == best);
            assert forall|k: Seq<char>| self@.dom().contains(k) implies self@[k] <= best by {
                let j = choose|j: int| 0 <= j < p.len() && p[j].0 == k;
                assert(self@[p[j].0] == p[j].1);
            }
        }
        Some(best)
    }
}


/// The sensor name and temperature that the line `chars[a..b]` reports.
fn reading_of_line(chars: &Vec<char>, a: usize, b: usize) -> (r: Option<(Vec<char>, u32)>)
    requires
        a <= b <= chars@.len(),
    ensures
        match r {
            Some((name, t)) => reading(chars@.subrange(a as int, b as int)) == Some((name@, t)),
            None => reading(chars@.subrange(a as int, b as int)) is None,
        },
{
    let ghost line = chars@.subrange(a as int, b as int);
    if count_char(chars, a, b, '|') != 4 {
        return None;
    }
    let p = find_char(chars, a, b, '|');
    let q = find_last_char(chars, a, b, '|');
    let (na, nb) = trim_range(chars, a, p);
    let (fa, fb) = trim_range(chars, q + 1, b);
    let sp = find_char(chars, fa, fb, ' ');
    proof {
        assert(chars@.subrange(a as int, p as int) =~= line.take(find(line, '|') as int));
        assert(chars@.subrange(q + 1, b as int) =~= line.skip(find_last(line, '|') + 1int));
        let field = chars@.subrange(fa as int, fb as int);
        assert(chars@.subrange(fa as int, sp as int) =~= field.take(find(field, ' ') as int));
    }
    match parse_unsigned(chars, fa, sp, 0xffff_ffff) {
        Some(t) => Some((copy_range(chars, na, nb), t as u32)),
        None => None,
    }
}


/// The line that starts at `start` ends at the newline at `i`.
pub proof fn lemma_next_line(s: Seq<char>, start: int, i: int)
    requires
        0 <= start <= i < s.len(),
        forall|j: int| start <= j < i ==> s[j] != '\n',
        s[i] == '\n',
    ensures
        lines(s.skip(start)) == seq![strip_cr(s.subrange(start, i))] + lines(s.skip(i + 1)),
{
    let t = s.skip(start);
    assert forall|j: int| 0 <= j < i - start implies t[j] != '\n' by {
        assert(t[j] == s[start + j]);
    }
    assert(t[i - start] == s[i]);
    lemma_find_is(t, '\n', i - start);
    assert(t.take(i - start) =~= s.subrange(start, i));
    assert(t.skip(i - start + 1) =~= s.skip(i + 1));
}

/// Without another newline, what starts at `start` is the last line, if it is not empty.
pub proof fn lemma_last_line(s: Seq<char>, start: int)
    requires
        0 <= start <= s.len(),
        forall|j: int| start <= j < s.len() ==> s[j] != '\n',
    ensures
        lines(s.skip(start)) == if start < s.len() {
            seq![s.skip(start)]
        } else {
            Seq::<Seq<char>>::empty()
        },
{
    let t = s.skip(start);
    assert forall|j: int| 0 <= j < t.len() implies t[j] != '\n' by {
        assert(t[j] == s[start + j]);
    }
    lemma_find_is(t, '\n', t.len() as int);
    if start == s.len() {
        assert(t.len() == 0);
    }
}

/// The temperature of each sensor that the `ipmitool` output `output` reports.
pub fn read_sensors(output: &str) -> (r: SensorReadings)
    ensures
        r@ == sensor_readings(output@),
{
    let chars = crate::text::chars_of(output);
    let n = chars.len();
    let mut sensors = SensorReadings::new();
    let ghost mut done: Seq<Seq<char>> = Seq::empty();
    let mut start: usize = 0;
    let mut i: usize = 0;
    assert(chars@.skip(0) =~= chars@);
    assert(done + lines(chars@.skip(0)) =~= lines(chars@));
    while i < n
        invariant
            n == chars@.len(),
            start <= i <= n,
            forall|j: int| start <= j < i ==> chars@[j] != '\n',
            lines(chars@) == done + lines(chars@.skip(start as int)),
            sensors@ == readings(done),
        decreases n - i,
    {
        if chars[i] == '\n' {
            let end = if i > start && chars[i - 1] == '\r' {
                i - 1
            } else {
                i
            };
            let ghost line = chars@.subrange(start as int, end as int);
            proof {
                lemma_next_line(chars@, start as int, i as int);
                assert(strip_cr(chars@.subrange(start as int, i as int)) =~= line);
            }
            match reading_of_line(&chars, start, end) {
                Some((name, t)) => sensors.record(name, t),
                None => {},
            }
            proof {
                assert(done.push(line).drop_last() =~= done);
                assert(lines(chars@) =~= done.push(line) + lines(chars@.skip(i + 1)));
                done = done.push(line);
            }
            start = i + 1;
        }
        i += 1;
    }
    proof {
        lemma_last_line(chars@, start as int);
    }
    if start < n {
        let ghost line = chars@.subrange(start as int, n as int);
        assert(line =~= chars@.skip(start as int));
        match reading_of_line(&chars, start, n) {
            Some((name, t)) => sensors.record(name, t),
            None => {},
        }
        proof {
            assert(done.push(line).drop_last() =~= done);
            assert(lines(chars@) =~= done.push(line));
        }
    } else {
        assert(lines(chars@) =~= done);
    }
    sensors
}


/// The text that the error of `String::from_utf8` displays for `bytes`, which are not UTF-8
/// (such as `invalid utf-8 sequence of 1 bytes from index 1`).
pub uninterp spec fn utf8_error_text(bytes: Seq<u8>) -> Seq<char>;

/// Decodes `bytes` as UTF-8 with `String::from_utf8`. The contract claims that the call
/// succeeds exactly on valid UTF-8 and then yields the decoded characters, and that on
/// failure it yields the text of its error (`FromUtf8Error`'s `Display`), which depends on
/// the bytes alone.
#[verifier::external_body]
fn utf8_to_string(bytes: Vec<u8>) -> (r: Result<String, String>)
    ensures
        r is Ok <==> vstd::utf8::valid_utf8(bytes@),
        r matches Ok(s) ==> s@ == vstd::utf8::decode_utf8(bytes@),
        r matches Err(e) ==> e@ == utf8_error_text(bytes@),
{
    match String::from_utf8(bytes) {
        Ok(s) => Ok(s),
        Err(e) => Err(e.to_string()),
    }
}

/// The error reported for `ipmitool` output that is not UTF-8, whose decoding failed with
/// the text `detail`.
pub fn output_error(detail: &str) -> (message: String)
    ensures
        message@ == "couldn't parse ipmitool output: "@ + detail@,
{
    let mut message = "couldn't parse ipmitool output: ".to_owned();
    message.append(detail);
    message
}

/// The temperature of each sensor that the raw standard output of
/// `ipmitool sdr type temperature` reports; an error where that output is not UTF-8.
pub fn temperatures_from_output(stdout: Vec<u8>) -> (r: Result<SensorReadings, String>)
    ensures
        r is Ok <==> vstd::utf8::valid_utf8(stdout@),
        r matches Ok(sensors) ==> sensors@ == sensor_readings(vstd::utf8::decode_utf8(stdout@)),
        r matches Err(message) ==> message@ == "couldn't parse ipmitool output: "@
            + utf8_error_text(stdout@),
{
    match utf8_to_string(stdout) {
        Ok(output) => Ok(read_sensors(output.as_str())),
        Err(detail) => Err(output_error(detail.as_str())),
    }
}

/// The highest temperature among the sensors; an error where no sensor gave a reading.
pub fn get_max_temperature(temperatures: &SensorReadings) -> (r: Result<u32, String>)
    ensures
        match r {
            Ok(t) => is_highest(temperatures@, t),
            Err(message) => (forall|k: Seq<char>| !temperatures@.dom().contains(k)) && message@
                == "couldn't find temperature"@,
        },
{
    match temperatures.highest() {
        Some(t) => Ok(t),
        None => Err("couldn't find temperature".to_owned()),
    }
}

} // verus!

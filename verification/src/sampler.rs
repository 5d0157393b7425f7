//! Reading macOS reports and turning raw readings into snapshots.

use vstd::prelude::*;

use crate::grouping::{aggregate_applications, covers, has_name, is_group_of, listed};
use crate::model::{ApplicationRow, ProcessRow, Snapshot, ThermalState};
use crate::diagnosis::MIB;
use crate::text::{
    contains_str, lowercase, string_of, to_lowercase, trim_start, trim_start_chars, words, words_of, is_digit,
    chars_of, has_sub, index_or_len, lemma_index_or_len, lines, lines_of, parse_unsigned,
    parse_unsigned_chars, slice_chars, trim, trim_chars, starts_with, starts_with_chars, lit,
};

verus! {

broadcast use vstd::seq_lib::group_to_multiset_ensures;

// ---------------------------------------------------------------------------
// `pmset -g therm`
// ---------------------------------------------------------------------------

/// The value of `key` on one `key = value` line.
pub open spec fn setting_in_line(line: Seq<char>, key: Seq<char>) -> Option<nat> {
    let e = index_or_len(line, '=');
    if e < line.len() && trim(line.take(e)) == key {
        parse_unsigned(trim(line.skip(e + 1)), u32::MAX as nat)
    } else {
        None
    }
}

/// The first line that sets `key` to a number.
pub open spec fn first_setting(ls: Seq<Seq<char>>, key: Seq<char>) -> Option<nat>
    decreases ls.len(),
{
    if ls.len() == 0 {
        None
    } else {
        match setting_in_line(ls[0], key) {
            Some(v) => Some(v),
            None => first_setting(ls.drop_first(), key),
        }
    }
}

/// The number that a `key = value` line of `text` sets `key` to.
pub open spec fn setting_of(text: Seq<char>, key: Seq<char>) -> Option<nat> {
    first_setting(lines(text), key)
}

fn setting_in(line: &[char], key: &[char]) -> (r: Option<u32>)
    ensures
        match r {
            Some(v) => setting_in_line(line@, key@) == Some(v as nat),
            None => setting_in_line(line@, key@) is None,
        },
{
    let mut e: usize = 0;
    while e < line.len() && line[e] != '='
        invariant
            e <= line.len(),
            forall|i: int| 0 <= i < e ==> line@[i] != '=',
        decreases line.len() - e,
    {
        e += 1;
    }
    proof {
        lemma_index_or_len(line@, '=');
        let k = index_or_len(line@, '=');
        if k < e {
            assert(line@[k] == '=');
        }
        if e < k {
            assert(line@[e as int] == '=');
        }
    }
    if e == line.len() {
        return None;
    }
    let name = trim_chars(&slice_chars(line, 0, e));
    assert(line@.subrange(0, e as int) == line@.take(e as int));
    if name.len() != key.len() || !starts_with_chars(&name, key) {
        proof {
            if name@ == key@ {
                assert(name@.take(key@.len() as int) == name@);
            }
        }
        return None;
    }
    assert(name@ == key@) by {
        assert(name@.take(key@.len() as int) == name@);
    }
    let value = trim_chars(&slice_chars(line, e + 1, line.len()));
    assert(line@.subrange(e + 1, line@.len() as int) == line@.skip(e + 1));
    match parse_unsigned_chars(&value, u32::MAX as u64) {
        Some(v) => Some(v as u32),
        None => None,
    }
}

/// The number that a `key = value` line of `text` sets `key` to (the first
/// such line whose value is a number).
pub fn numeric_setting(text: &[char], key: &[char]) -> (r: Option<u32>)
    ensures
        match r {
            Some(v) => setting_of(text@, key@) == Some(v as nat),
            None => setting_of(text@, key@) is None,
        },
{
    let ls = lines_of(text);
    let ghost all = lines(text@);
    let mut i: usize = 0;
    assert(all.skip(0) == all);
    while i < ls.len()
        invariant
            i <= ls.len() == all.len(),
            all == lines(text@),
            forall|k: int| 0 <= k < ls@.len() ==> #[trigger] ls@[k]@ == all[k],
            first_setting(all, key@) == first_setting(all.skip(i as int), key@),
        decreases ls.len() - i,
    {
        assert(all.skip(i as int)[0] == ls@[i as int]@);
        assert(all.skip(i as int).drop_first() == all.skip(i + 1));
        match setting_in(&ls[i], key) {
            Some(v) => {
                return Some(v);
            },
            None => {},
        }
        i += 1;
    }
    None
}

/// macOS's thermal state from `pmset -g therm` output: throttled when the CPU
/// speed limit is under 100, warning when the scheduler limit is under 100 or
/// the thermal level above 0, normal when any of these is reported.
pub open spec fn thermal_state_of(text: Seq<char>) -> Option<ThermalState> {
    let cpu = setting_of(text, "CPU_Speed_Limit"@);
    let scheduler = setting_of(text, "Scheduler_Limit"@);
    let level = setting_of(text, "Thermal_Level"@);
    if cpu matches Some(v) && v < 100 {
        Some(ThermalState::Throttled)
    } else if (scheduler matches Some(v) && v < 100) || (level matches Some(v) && v > 0) {
        Some(ThermalState::Warning)
    } else if cpu is Some || scheduler is Some || level is Some {
        Some(ThermalState::Normal)
    } else {
        None
    }
}

/// macOS's thermal state from `pmset -g therm` output.
pub fn parse_thermal_state(text: &str) -> (r: Option<ThermalState>)
    ensures
        r == thermal_state_of(text@),
{
    let t = chars_of(text);
    let cpu = numeric_setting(&t, &lit("CPU_Speed_Limit"));
    let scheduler = numeric_setting(&t, &lit("Scheduler_Limit"));
    let level = numeric_setting(&t, &lit("Thermal_Level"));
    if matches!(cpu, Some(v) if v < 100) {
        Some(ThermalState::Throttled)
    } else if matches!(scheduler, Some(v) if v < 100) || matches!(level, Some(v) if v > 0) {
        Some(ThermalState::Warning)
    } else if cpu.is_some() || scheduler.is_some() || level.is_some() {
        Some(ThermalState::Normal)
    } else {
        None
    }
}


// ---------------------------------------------------------------------------
// `system_profiler SPDisplaysDataType SPPowerDataType`
// ---------------------------------------------------------------------------

/// The trimmed rest of the first trimmed line that starts with `label`.
pub open spec fn labelled_value(ls: Seq<Seq<char>>, label: Seq<char>) -> Option<Seq<char>>
    decreases ls.len(),
{
    if ls.len() == 0 {
        None
    } else {
        let t = trim(ls[0]);
        if starts_with(t, label) {
            Some(trim(t.skip(label.len() as int)))
        } else {
            labelled_value(ls.drop_first(), label)
        }
    }
}

/// The value that `text` gives after `label` on a line of its own.
pub open spec fn line_value_of(text: Seq<char>, label: Seq<char>) -> Option<Seq<char>> {
    labelled_value(lines(text), label)
}

/// The value that `text` gives after `label` on a line of its own.
pub fn line_value(text: &[char], label: &[char]) -> (r: Option<Vec<char>>)
    ensures
        match r {
            Some(v) => line_value_of(text@, label@) == Some(v@),
            None => line_value_of(text@, label@) is None,
        },
{
    let ls = lines_of(text);
    let ghost all = lines(text@);
    let mut i: usize = 0;
    assert(all.skip(0) == all);
    while i < ls.len()
        invariant
            i <= ls.len() == all.len(),
            all == lines(text@),
            forall|k: int| 0 <= k < ls@.len() ==> #[trigger] ls@[k]@ == all[k],
            labelled_value(all, label@) == labelled_value(all.skip(i as int), label@),
        decreases ls.len() - i,
    {
        assert(all.skip(i as int)[0] == ls@[i as int]@);
        assert(all.skip(i as int).drop_first() == all.skip(i + 1));
        let t = trim_chars(&ls[i]);
        if starts_with_chars(&t, label) {
            let rest = slice_chars(&t, label.len(), t.len());
            assert(rest@ == t@.skip(label@.len() as int));
            return Some(trim_chars(&rest));
        }
        i += 1;
    }
    None
}

/// `s` without trailing `c`s (std's `trim_end_matches` with a character).
pub open spec fn trim_end_char(s: Seq<char>, c: char) -> Seq<char>
    decreases s.len(),
{
    if s.len() > 0 && s.last() == c {
        trim_end_char(s.drop_last(), c)
    } else {
        s
    }
}

fn trim_end_char_chars(v: &[char], c: char) -> (r: Vec<char>)
    ensures
        r@ == trim_end_char(v@, c),
{
    let mut b = v.len();
    assert(v@.take(b as int) == v@);
    while b > 0 && v[b - 1] == c
        invariant
            b <= v.len(),
            trim_end_char(v@, c) == trim_end_char(v@.take(b as int), c),
        decreases b,
    {
        assert(v@.take(b as int).drop_last() == v@.take(b - 1));
        b -= 1;
    }
    slice_chars(v, 0, b)
}

/// The number of lines that report a display resolution.
pub open spec fn resolution_lines(ls: Seq<Seq<char>>) -> nat
    decreases ls.len(),
{
    if ls.len() == 0 {
        0
    } else {
        (if starts_with(trim_start(ls[0]), "resolution:"@) {
            1nat
        } else {
            0nat
        }) + resolution_lines(ls.drop_first())
    }
}

/// The number of lines that report a built-in display.
pub open spec fn builtin_lines(ls: Seq<Seq<char>>) -> nat
    decreases ls.len(),
{
    if ls.len() == 0 {
        0
    } else {
        (if has_sub(ls[0], "display type:"@) && has_sub(ls[0], "built-in"@) {
            1nat
        } else {
            0nat
        }) + builtin_lines(ls.drop_first())
    }
}

/// What the system profiler reports that does not change while running.
pub struct StaticInfo {
    pub battery_max_capacity: Option<u8>,
    pub battery_condition: Option<String>,
    pub external_displays: Option<usize>,
}

/// The maximum battery capacity the profiler reports, in percent.
pub open spec fn capacity_of(text: Seq<char>) -> Option<u8> {
    match line_value_of(text, "Maximum Capacity:"@) {
        Some(v) => match parse_unsigned(trim_end_char(v, '%'), 255) {
            Some(n) => Some(n as u8),
            None => None,
        },
        None => None,
    }
}

/// The number of external displays the profiler reports: displays with a
/// resolution less built-in ones (never below zero).
pub open spec fn external_displays_of(text: Seq<char>) -> nat {
    displays_in(lowercase(text))
}

/// The external display count in lowercased profiler output.
pub open spec fn displays_in(lower: Seq<char>) -> nat {
    let ls = lines(lower);
    let all = resolution_lines(ls);
    let builtin = builtin_lines(ls);
    if all >= builtin {
        (all - builtin) as nat
    } else {
        0
    }
}

/// What the profiler output says of the battery and displays.
pub open spec fn static_info_of(text: Seq<char>, info: StaticInfo) -> bool {
    &&& info.battery_max_capacity == capacity_of(text)
    &&& match info.battery_condition {
        Some(c) => line_value_of(text, "Condition:"@) == Some(c@),
        None => line_value_of(text, "Condition:"@) is None,
    }
    &&& info.external_displays == Some(external_displays_of(text) as usize)
}

fn count_display_lines(ls: &Vec<Vec<char>>) -> (r: (usize, usize))
    ensures
        r.0 == resolution_lines(crate::text::char_seqs(ls@)),
        r.1 == builtin_lines(crate::text::char_seqs(ls@)),
{
    let ghost all = crate::text::char_seqs(ls@);
    let mut all_count: usize = 0;
    let mut builtin: usize = 0;
    let mut i = ls.len();
    assert(all.skip(ls.len() as int) == Seq::<Seq<char>>::empty());
    while i > 0
        invariant
            i <= ls.len(),
            all == crate::text::char_seqs(ls@),
            all_count == resolution_lines(all.skip(i as int)),
            builtin == builtin_lines(all.skip(i as int)),
            all_count <= ls.len() - i,
            builtin <= ls.len() - i,
        decreases i,
    {
        i -= 1;
        assert(all.skip(i as int).drop_first() == all.skip(i + 1));
        assert(all.skip(i as int)[0] == ls@[i as int]@);
        let l = &ls[i];
        if starts_with_chars(&trim_start_chars(l), &lit("resolution:")) {
            all_count += 1;
        }
        if contains_str(l, "display type:") && contains_str(l, "built-in") {
            builtin += 1;
        }
    }
    assert(all.skip(0) == all);
    (all_count, builtin)
}

/// Reads battery capacity and condition and the external display count from
/// `system_profiler SPDisplaysDataType SPPowerDataType` output.
pub fn parse_static_info(text: &str) -> (info: StaticInfo)
    ensures
        static_info_of(text@, info),
{
    let t = chars_of(text);
    let capacity = match line_value(&t, &lit("Maximum Capacity:")) {
        Some(v) => match parse_unsigned_chars(&trim_end_char_chars(&v, '%'), 255) {
            Some(n) => Some(n as u8),
            None => None,
        },
        None => None,
    };
    let condition = match line_value(&t, &lit("Condition:")) {
        Some(v) => Some(string_of(&v)),
        None => None,
    };
    let lower = to_lowercase(text);
    let external = external_displays_in(&chars_of(lower.as_str()));
    StaticInfo {
        battery_max_capacity: capacity,
        battery_condition: condition,
        external_displays: Some(external),
    }
}

/// The number of external displays in lowercased profiler output: lines
/// starting with `resolution:` less those naming a built-in display type.
pub fn external_displays_in(lower: &[char]) -> (r: usize)
    ensures
        r == displays_in(lower@),
{
    let ls = lines_of(lower);
    assert(crate::text::char_seqs(ls@) =~= lines(lower@));
    let (all, builtin) = count_display_lines(&ls);
    if all >= builtin {
        all - builtin
    } else {
        0
    }
}

// ---------------------------------------------------------------------------
// `pmset -g batt`
// ---------------------------------------------------------------------------

/// Whether lowercased `pmset -g batt` output reports charging.
pub open spec fn charging_of(l: Seq<char>) -> Option<bool> {
    if has_sub(l, "discharging"@) {
        Some(false)
    } else if has_sub(l, "charging"@) || has_sub(l, "charged"@) {
        Some(true)
    } else {
        None
    }
}

/// `s` without leading characters that are not ASCII digits.
pub open spec fn strip_start_non_digits(s: Seq<char>) -> Seq<char>
    decreases s.len(),
{
    if s.len() > 0 && !is_digit(s[0]) {
        strip_start_non_digits(s.drop_first())
    } else {
        s
    }
}

/// `s` without trailing characters that are not ASCII digits.
pub open spec fn strip_end_non_digits(s: Seq<char>) -> Seq<char>
    decreases s.len(),
{
    if s.len() > 0 && !is_digit(s.last()) {
        strip_end_non_digits(s.drop_last())
    } else {
        s
    }
}

/// `s` without leading and trailing characters that are not ASCII digits.
pub open spec fn strip_non_digits(s: Seq<char>) -> Seq<char> {
    strip_end_non_digits(strip_start_non_digits(s))
}

/// The battery percentage: the first word with a `%` whose digits read as a number up to 255.
pub open spec fn percent_in(ws: Seq<Seq<char>>) -> Option<u8>
    decreases ws.len(),
{
    if ws.len() == 0 {
        None
    } else if has_sub(ws[0], "%"@) && parse_unsigned(strip_non_digits(ws[0]), 255) is Some {
        Some(parse_unsigned(strip_non_digits(ws[0]), 255).unwrap() as u8)
    } else {
        percent_in(ws.drop_first())
    }
}

/// Charging state and battery percentage from `pmset -g batt` output.
pub open spec fn battery_of(text: Seq<char>) -> (Option<bool>, Option<u8>) {
    battery_in(lowercase(text))
}

/// Charging state and battery percentage from lowercased `pmset -g batt` output.
pub open spec fn battery_in(l: Seq<char>) -> (Option<bool>, Option<u8>) {
    (charging_of(l), percent_in(words(l)))
}

fn strip_non_digit_chars(v: &[char]) -> (r: Vec<char>)
    ensures
        r@ == strip_non_digits(v@),
{
    let mut a: usize = 0;
    assert(v@.skip(0) == v@);
    while a < v.len() && !('0' <= v[a] && v[a] <= '9')
        invariant
            a <= v.len(),
            strip_start_non_digits(v@) == strip_start_non_digits(v@.skip(a as int)),
        decreases v.len() - a,
    {
        assert(v@.skip(a as int).drop_first() == v@.skip(a + 1));
        a += 1;
    }
    let t = slice_chars(v, a, v.len());
    assert(t@ == v@.skip(a as int));
    let mut b = t.len();
    assert(t@.take(b as int) == t@);
    while b > 0 && !('0' <= t[b - 1] && t[b - 1] <= '9')
        invariant
            b <= t.len(),
            strip_end_non_digits(t@) == strip_end_non_digits(t@.take(b as int)),
        decreases b,
    {
        assert(t@.take(b as int).drop_last() == t@.take(b - 1));
        b -= 1;
    }
    slice_chars(&t, 0, b)
}

/// Charging state and battery percentage from `pmset -g batt` output.
pub fn parse_battery(text: &str) -> (r: (Option<bool>, Option<u8>))
    ensures
        r == battery_of(text@),
{
    let lower = to_lowercase(text);
    battery_from_lowercase(&chars_of(lower.as_str()))
}

/// Charging state (`discharging` before `charging` or `charged`) and the first
/// whole percentage from lowercased `pmset -g batt` output.
pub fn battery_from_lowercase(l: &[char]) -> (r: (Option<bool>, Option<u8>))
    ensures
        r == battery_in(l@),
{
    let charging = if contains_str(l, "discharging") {
        Some(false)
    } else if contains_str(l, "charging") || contains_str(l, "charged") {
        Some(true)
    } else {
        None
    };
    let ws = words_of(l);
    let ghost all = words(l@);
    let mut i: usize = 0;
    assert(all.skip(0) == all);
    while i < ws.len()
        invariant
            i <= ws.len() == all.len(),
            all == words(l@),
            forall|k: int| 0 <= k < ws@.len() ==> #[trigger] ws@[k]@ == all[k],
            charging == charging_of(l@),
            percent_in(all) == percent_in(all.skip(i as int)),
        decreases ws.len() - i,
    {
        assert(all.skip(i as int)[0] == ws@[i as int]@);
        assert(all.skip(i as int).drop_first() == all.skip(i + 1));
        if contains_str(&ws[i], "%") {
            match parse_unsigned_chars(&strip_non_digit_chars(&ws[i]), 255) {
                Some(n) => {
                    return (charging, Some(n as u8));
                },
                None => {},
            }
        }
        i += 1;
    }
    (charging, None)
}


// ---------------------------------------------------------------------------
// From readings to a snapshot
// ---------------------------------------------------------------------------

/// One process as read from the system, before rates are worked out.
pub struct ProcessReading {
    pub pid: u32,
    pub parent_pid: Option<u32>,
    /// CPU use in hundredths of a percent of one core.
    pub cpu_hundredths: u64,
    pub memory_bytes: u64,
    /// Bytes read since the previous reading.
    pub disk_read_bytes: u64,
    /// Bytes written since the previous reading.
    pub disk_written_bytes: u64,
    pub runtime_secs: u64,
    pub name: String,
    pub command: String,
}

/// Everything read from the system for one sample.
pub struct Reading {
    pub processes: Vec<ProcessReading>,
    /// Microseconds since the previous reading.
    pub elapsed_micros: u64,
    /// Overall CPU use in hundredths of a percent.
    pub cpu_hundredths: u64,
    pub used_memory: u64,
    pub total_memory: u64,
    /// Load averages in hundredths.
    pub load_hundredths: [u64; 3],
    pub logical_cpus: usize,
    pub charging: Option<bool>,
    pub battery_percent: Option<u8>,
    pub thermal_state: Option<ThermalState>,
}

/// Bytes per second from bytes moved in `elapsed` microseconds, with at least
/// a millisecond assumed to have passed; the largest `u64` when it does not fit.
pub open spec fn io_rate_of(read: u64, written: u64, elapsed_micros: u64) -> u64 {
    let elapsed = if elapsed_micros < 1000 {
        1000
    } else {
        elapsed_micros as nat
    };
    let rate = (read as nat + written as nat) * 1_000_000 / elapsed;
    if rate > u64::MAX {
        u64::MAX
    } else {
        rate as u64
    }
}

/// Bytes per second from bytes moved in `elapsed` microseconds.
pub fn io_rate_per_sec(read: u64, written: u64, elapsed_micros: u64) -> (r: u64)
    ensures
        r == io_rate_of(read, written, elapsed_micros),
{
    let elapsed: u128 = if elapsed_micros < 1000 {
        1000
    } else {
        elapsed_micros as u128
    };
    let total = read as u128 + written as u128;
    let rate = total * 1_000_000 / elapsed;
    if rate > u64::MAX as u128 {
        u64::MAX
    } else {
        rate as u64
    }
}

/// The process row for a reading.
pub open spec fn row_of(p: ProcessReading, elapsed_micros: u64) -> ProcessRow {
    ProcessRow {
        pid: p.pid,
        parent_pid: p.parent_pid,
        cpu_hundredths: p.cpu_hundredths,
        memory_bytes: p.memory_bytes,
        io_bytes_per_sec: io_rate_of(p.disk_read_bytes, p.disk_written_bytes, elapsed_micros),
        runtime_secs: p.runtime_secs,
        name: p.name,
        command: p.command,
    }
}

/// `a` may come before `b`: more CPU first, then lower PID.
pub open spec fn cpu_order(a: ProcessRow, b: ProcessRow) -> bool {
    a.cpu_hundredths > b.cpu_hundredths || (a.cpu_hundredths == b.cpu_hundredths && a.pid <= b.pid)
}

/// The processes are ordered by descending CPU, then ascending PID.
pub open spec fn by_cpu(rows: Seq<ProcessRow>) -> bool {
    forall|i: int, j: int| 0 <= i < j < rows.len() ==> cpu_order(#[trigger] rows[i], #[trigger] rows[j])
}

/// The rows for a reading's processes, in some order.
pub open spec fn rows_of(reading: Reading) -> Seq<ProcessRow> {
    reading.processes@.map_values(|p: ProcessReading| row_of(p, reading.elapsed_micros))
}

/// The process rows of a reading, ordered by descending CPU, then PID.
pub fn process_rows(processes: Vec<ProcessReading>, elapsed_micros: u64) -> (rows: Vec<ProcessRow>)
    ensures
        rows@.to_multiset() == processes@.map_values(|p: ProcessReading| row_of(p, elapsed_micros)).to_multiset(),
        by_cpu(rows@),
{
    let ghost all = processes@.map_values(|p: ProcessReading| row_of(p, elapsed_micros));
    let mut src = processes;
    let mut out: Vec<ProcessRow> = Vec::new();
    assert(src@.map_values(|p: ProcessReading| row_of(p, elapsed_micros)) == all);
    assert(out@.to_multiset() =~= vstd::multiset::Multiset::<ProcessRow>::empty());
    while src.len() > 0
        invariant
            by_cpu(out@),
            out@.to_multiset().add(src@.map_values(|p: ProcessReading| row_of(p, elapsed_micros)).to_multiset()) == all.to_multiset(),
        decreases src.len(),
    {
        let ghost before = src@;
        let p = src.pop().unwrap();
        assert(before == src@.push(p));
        assert(before.map_values(|q: ProcessReading| row_of(q, elapsed_micros)) =~= src@.map_values(|q: ProcessReading| row_of(q, elapsed_micros)).push(row_of(p, elapsed_micros)));
        let ProcessReading { pid, parent_pid, cpu_hundredths, memory_bytes, disk_read_bytes, disk_written_bytes, runtime_secs, name, command } = p;
        let row = ProcessRow {
            pid,
            parent_pid,
            cpu_hundredths,
            memory_bytes,
            io_bytes_per_sec: io_rate_per_sec(disk_read_bytes, disk_written_bytes, elapsed_micros),
            runtime_secs,
            name,
            command,
        };
        assert(row == row_of(p, elapsed_micros));
        let mut k: usize = 0;
        while k < out.len() && (out[k].cpu_hundredths > row.cpu_hundredths || (out[k].cpu_hundredths == row.cpu_hundredths && out[k].pid <= row.pid))
            invariant
                k <= out.len(),
                forall|j: int| 0 <= j < k ==> cpu_order(#[trigger] out@[j], row),
            decreases out.len() - k,
        {
            k += 1;
        }
        let ghost prev = out@;
        out.insert(k, row);
        assert(out@.to_multiset() == prev.to_multiset().insert(row));
        assert forall|i: int, j: int| 0 <= i < j < out@.len() implies cpu_order(#[trigger] out@[i], #[trigger] out@[j]) by {
            if j < k {
                assert(out@[i] == prev[i] && out@[j] == prev[j]);
            } else if j == k {
                assert(out@[i] == prev[i]);
            } else if i < k {
                assert(out@[i] == prev[i] && out@[j] == prev[j - 1]);
            } else if i == k {
                assert(out@[j] == prev[j - 1]);
                assert(cpu_order(prev[k as int], prev[j - 1]));
            } else {
                assert(out@[i] == prev[i - 1] && out@[j] == prev[j - 1]);
            }
        }
    }
    assert(src@.map_values(|p: ProcessReading| row_of(p, elapsed_micros)).to_multiset() =~= vstd::multiset::Multiset::<ProcessRow>::empty());
    assert(out@.to_multiset().add(vstd::multiset::Multiset::empty()) =~= out@.to_multiset());
    out
}

/// Runtimes beyond this many seconds are impossible sentinels (processes
/// reported as started at the Unix epoch).
pub const MAX_PLAUSIBLE_RUNTIME: u64 = 365 * 86_400;

/// The uptime: the longest plausible process runtime, or 0.
pub open spec fn uptime_of(rows: Seq<ProcessRow>) -> u64
    decreases rows.len(),
{
    if rows.len() == 0 {
        0
    } else {
        let m = uptime_of(rows.drop_last());
        let r = rows.last().runtime_secs;
        if r <= MAX_PLAUSIBLE_RUNTIME && r > m {
            r
        } else {
            m
        }
    }
}

/// The longest plausible process runtime, or 0.
pub fn uptime(rows: &[ProcessRow]) -> (r: u64)
    ensures
        r == uptime_of(rows@),
{
    let mut m: u64 = 0;
    let mut i: usize = 0;
    while i < rows.len()
        invariant
            i <= rows.len(),
            m == uptime_of(rows@.take(i as int)),
        decreases rows.len() - i,
    {
        assert(rows@.take(i + 1).drop_last() == rows@.take(i as int));
        let r = rows[i].runtime_secs;
        if r <= MAX_PLAUSIBLE_RUNTIME && r > m {
            m = r;
        }
        i += 1;
    }
    assert(rows@.take(rows.len() as int) == rows@);
    m
}

/// Memory use in hundredths of a percent of the total, rounded up, so that it
/// is above a whole number of hundredths exactly when the share itself is; 0
/// when the total is unknown.
pub open spec fn memory_share_of(used: u64, total: u64) -> u64 {
    if total == 0 {
        0
    } else {
        let share = (used as nat * 10000 + (total - 1) as nat) / total as nat;
        if share > u64::MAX {
            u64::MAX
        } else {
            share as u64
        }
    }
}

/// Memory use in hundredths of a percent of the total, rounded up.
pub fn memory_share(used: u64, total: u64) -> (r: u64)
    ensures
        r == memory_share_of(used, total),
{
    if total == 0 {
        return 0;
    }
    let share = (used as u128 * 10000 + (total - 1) as u128) / total as u128;
    if share > u64::MAX as u128 {
        u64::MAX
    } else {
        share as u64
    }
}

/// An application counts as active in a sample: 20% CPU or 10 MiB/s of disk.
pub open spec fn app_active(a: ApplicationRow) -> bool {
    a.cpu_hundredths >= 2000 || a.io_bytes_per_sec >= 10 * MIB
}

/// A streak after one more sample: one longer (up to 255) when active, else 0.
pub open spec fn next_streak(prev: u8, active: bool) -> u8 {
    if !active {
        0
    } else if prev == 255 {
        255
    } else {
        (prev + 1) as u8
    }
}

/// The streak recorded for `n`: the first entry with that name, else 0.
pub open spec fn streak_in(entries: Seq<(String, u8)>, n: Seq<char>) -> u8
    decreases entries.len(),
{
    if entries.len() == 0 {
        0
    } else if entries[0].0@ == n {
        entries[0].1
    } else {
        streak_in(entries.drop_first(), n)
    }
}

/// Some entry is for `n`.
pub open spec fn tracks(entries: Seq<(String, u8)>, n: Seq<char>) -> bool {
    exists|i: int| 0 <= i < entries.len() && (#[trigger] entries[i]).0@ == n
}

fn find_streak(entries: &Vec<(String, u8)>, name: &String) -> (r: u8)
    ensures
        r == streak_in(entries@, name@),
{
    let mut i: usize = 0;
    assert(entries@.skip(0) == entries@);
    while i < entries.len()
        invariant
            i <= entries.len(),
            streak_in(entries@, name@) == streak_in(entries@.skip(i as int), name@),
        decreases entries.len() - i,
    {
        assert(entries@.skip(i as int)[0] == entries@[i as int]);
        assert(entries@.skip(i as int).drop_first() == entries@.skip(i + 1));
        if entries[i].0 == *name {
            return entries[i].1;
        }
        i += 1;
    }
    0
}

/// Turns readings into snapshots, remembering for how many consecutive
/// samples each application, and overall CPU, has been active.
pub struct Sampler {
    static_info: StaticInfo,
    activity_streaks: Vec<(String, u8)>,
    cpu_active_samples: u8,
}

impl Sampler {
    /// The streak recorded for the application named `n` (0 when none is).
    pub closed spec fn streak(&self, n: Seq<char>) -> u8 {
        streak_in(self.activity_streaks@, n)
    }

    /// A streak is recorded for the application named `n`.
    pub closed spec fn remembers(&self, n: Seq<char>) -> bool {
        tracks(self.activity_streaks@, n)
    }

    /// Consecutive samples with overall CPU at 50% or more.
    pub closed spec fn cpu_streak(&self) -> u8 {
        self.cpu_active_samples
    }

    /// What the profiler reported.
    pub closed spec fn info(&self) -> StaticInfo {
        self.static_info
    }

    /// A sampler with no history.
    pub fn new(static_info: StaticInfo) -> (s: Sampler)
        ensures
            s.info() == static_info,
            s.cpu_streak() == 0,
            forall|n: Seq<char>| !s.remembers(n) && s.streak(n) == 0,
    {
        Sampler { static_info, activity_streaks: Vec::new(), cpu_active_samples: 0 }
    }

    /// Records this sample's activity: each application's streak grows while it
    /// is active and resets when it is not; applications no longer present are
    /// forgotten.
    fn update_streaks(&mut self, apps: &mut Vec<ApplicationRow>)
        requires
            crate::grouping::distinct_names(old(apps)@),
        ensures
            final(apps)@.len() == old(apps)@.len(),
            forall|i: int| 0 <= i < final(apps)@.len() ==> same_but_streak(#[trigger] final(apps)@[i], old(apps)@[i]),
            forall|i: int| 0 <= i < final(apps)@.len() ==> (#[trigger] final(apps)@[i]).active_samples
                == next_streak(old(self).streak(old(apps)@[i].name@), app_active(old(apps)@[i])),
            forall|n: Seq<char>| final(self).remembers(n) <==> has_name(final(apps)@, n),
            forall|n: Seq<char>| !final(self).remembers(n) ==> final(self).streak(n) == 0,
            forall|i: int| 0 <= i < final(apps)@.len() ==> final(self).streak((#[trigger] final(apps)@[i]).name@) == final(apps)@[i].active_samples,
            final(self).info() == old(self).info(),
            final(self).cpu_streak() == old(self).cpu_streak(),
    {
        let mut entries: Vec<(String, u8)> = Vec::new();
        let mut i: usize = 0;
        while i < apps.len()
            invariant
                i <= apps.len() == old(apps)@.len(),
                entries@.len() == i,
                *self == *old(self),
                crate::grouping::distinct_names(old(apps)@),
                forall|k: int| 0 <= k < apps@.len() ==> same_but_streak(#[trigger] apps@[k], old(apps)@[k]),
                forall|k: int| i <= k < apps@.len() ==> (#[trigger] apps@[k]) == old(apps)@[k],
                forall|k: int| 0 <= k < i ==> (#[trigger] apps@[k]).active_samples
                    == next_streak(streak_in(self.activity_streaks@, old(apps)@[k].name@), app_active(old(apps)@[k])),
                forall|k: int| 0 <= k < i ==> (#[trigger] entries@[k]).0@ == apps@[k].name@ && entries@[k].1 == apps@[k].active_samples,
            decreases old(apps)@.len() - i,
        {
            let prev = find_streak(&self.activity_streaks, &apps[i].name);
            let active = apps[i].cpu_hundredths >= 2000 || apps[i].io_bytes_per_sec >= 10 * MIB;
            let next = if !active {
                0
            } else {
                prev.saturating_add(1)
            };
            let name = apps[i].name.clone();
            entries.push((name, next));
            let ghost before = apps@;
            apps[i].active_samples = next;
            assert forall|k: int| 0 <= k < apps@.len() && k != i implies apps@[k] == before[k] by {}
            i += 1;
        }
        proof {
            assert forall|n: Seq<char>| tracks(entries@, n) <==> has_name(apps@, n) by {
                if tracks(entries@, n) {
                    let k = choose|k: int| 0 <= k < entries@.len() && (#[trigger] entries@[k]).0@ == n;
                    assert(apps@[k].name@ == n);
                }
                if has_name(apps@, n) {
                    let k = choose|k: int| 0 <= k < apps@.len() && (#[trigger] apps@[k]).name@ == n;
                    assert(entries@[k].0@ == n);
                }
            }
            assert forall|k: int| 0 <= k < apps@.len() implies streak_in(entries@, (#[trigger] apps@[k]).name@) == apps@[k].active_samples by {
                lemma_streak_at(entries@, k);
            }
            assert forall|n: Seq<char>| !tracks(entries@, n) implies streak_in(entries@, n) == 0 by {
                lemma_untracked_streak(entries@, n);
            }
        }
        self.activity_streaks = entries;
    }

    /// A snapshot of this reading: process rows ordered by CPU, grouped into
    /// applications with their activity streaks, the overall CPU streak, memory
    /// share, uptime, and the profiler's battery and display report.
    pub fn sample(&mut self, reading: Reading) -> (snapshot: Snapshot)
        ensures
            exists|rows: Seq<ProcessRow>|
                {
                    &&& rows.to_multiset() == rows_of(reading).to_multiset()
                    &&& by_cpu(rows)
                    &&& forall|i: int| 0 <= i < snapshot.applications@.len() ==> is_group_of(rows, #[trigger] snapshot.applications@[i])
                    &&& listed(snapshot.applications@)
                    &&& covers(rows, snapshot.applications@, rows.len() as int)
                    &&& snapshot.uptime_secs == uptime_of(rows)
                },
            forall|i: int| 0 <= i < snapshot.applications@.len() ==> (#[trigger] snapshot.applications@[i]).active_samples
                == next_streak(old(self).streak(snapshot.applications@[i].name@), app_active(snapshot.applications@[i])),
            forall|n: Seq<char>| final(self).remembers(n) <==> has_name(snapshot.applications@, n),
            forall|n: Seq<char>| !final(self).remembers(n) ==> final(self).streak(n) == 0,
            forall|i: int| 0 <= i < snapshot.applications@.len() ==> final(self).streak((#[trigger] snapshot.applications@[i]).name@) == snapshot.applications@[i].active_samples,
            snapshot.cpu_active_samples == final(self).cpu_streak(),
            final(self).cpu_streak() == next_streak(old(self).cpu_streak(), reading.cpu_hundredths >= 5000),
            final(self).info() == old(self).info(),
            snapshot.cpu_hundredths == reading.cpu_hundredths,
            snapshot.memory_hundredths == memory_share_of(reading.used_memory, reading.total_memory),
            snapshot.load_hundredths == reading.load_hundredths,
            snapshot.logical_cpus == reading.logical_cpus,
            snapshot.charging == reading.charging,
            snapshot.battery_percent == reading.battery_percent,
            snapshot.thermal_state == reading.thermal_state,
            snapshot.battery_max_capacity == old(self).info().battery_max_capacity,
            snapshot.battery_condition == old(self).info().battery_condition,
            snapshot.external_displays == old(self).info().external_displays,
    {
        let Reading {
            processes,
            elapsed_micros,
            cpu_hundredths,
            used_memory,
            total_memory,
            load_hundredths,
            logical_cpus,
            charging,
            battery_percent,
            thermal_state,
        } = reading;
        let rows = process_rows(processes, elapsed_micros);
        let uptime_secs = uptime(&rows);
        let mut applications = aggregate_applications(&rows);
        proof {
            assert forall|g: int, h: int| 0 <= g < h < applications@.len() implies (#[trigger] applications@[g]).name@ != (#[trigger] applications@[h]).name@ by {
                crate::grouping::lemma_listed_before(applications@[g], applications@[h], applications@[h]);
                crate::order::lemma_lex(applications@[g].name@, applications@[h].name@, applications@[h].name@);
            }
        }
        let ghost grouped = applications@;
        self.update_streaks(&mut applications);
        proof {
            assert forall|i: int| 0 <= i < applications@.len() implies is_group_of(rows@, #[trigger] applications@[i]) by {
                assert(same_but_streak(applications@[i], grouped[i]));
            }
            assert forall|i: int, j: int| 0 <= i < j < applications@.len() implies crate::grouping::listed_before(#[trigger] applications@[i], #[trigger] applications@[j]) by {
                assert(same_but_streak(applications@[i], grouped[i]));
                assert(same_but_streak(applications@[j], grouped[j]));
            }
            assert forall|j: int| 0 <= j < rows@.len() implies has_name(applications@, crate::grouping::app_name_of(rows@, #[trigger] rows@[j])) by {
                let g = choose|g: int| 0 <= g < grouped.len() && (#[trigger] grouped[g]).name@ == crate::grouping::app_name_of(rows@, rows@[j]);
                assert(same_but_streak(applications@[g], grouped[g]));
            }
            assert forall|i: int| 0 <= i < applications@.len() implies app_active(#[trigger] applications@[i]) == app_active(grouped[i]) by {
                assert(same_but_streak(applications@[i], grouped[i]));
            }
        }
        let ghost mid = *self;
        self.cpu_active_samples = if cpu_hundredths >= 5000 {
            self.cpu_active_samples.saturating_add(1)
        } else {
            0
        };
        proof {
            assert(self.activity_streaks == mid.activity_streaks);
            assert forall|n: Seq<char>| self.remembers(n) <==> has_name(applications@, n) by {
                assert(mid.remembers(n) <==> has_name(applications@, n));
            }
            assert forall|i: int| 0 <= i < applications@.len() implies self.streak((#[trigger] applications@[i]).name@) == applications@[i].active_samples by {
                assert(mid.streak(applications@[i].name@) == applications@[i].active_samples);
            }
            assert forall|n: Seq<char>| !self.remembers(n) implies self.streak(n) == 0 by {
                assert(!mid.remembers(n) ==> mid.streak(n) == 0);
            }
        }
        let battery_condition = match &self.static_info.battery_condition {
            Some(c) => Some(c.clone()),
            None => None,
        };
        Snapshot {
            cpu_hundredths,
            memory_hundredths: memory_share(used_memory, total_memory),
            load_hundredths,
            logical_cpus,
            charging,
            battery_percent,
            battery_max_capacity: self.static_info.battery_max_capacity,
            battery_condition,
            external_displays: self.static_info.external_displays,
            thermal_state,
            uptime_secs,
            cpu_active_samples: self.cpu_active_samples,
            applications,
        }
    }
}

/// `a` and `b` agree on everything but the activity streak.
pub open spec fn same_but_streak(a: ApplicationRow, b: ApplicationRow) -> bool {
    &&& a.name == b.name
    &&& a.pids == b.pids
    &&& a.cpu_hundredths == b.cpu_hundredths
    &&& a.memory_bytes == b.memory_bytes
    &&& a.io_bytes_per_sec == b.io_bytes_per_sec
    &&& a.runtime_secs == b.runtime_secs
}

/// A name with no entry has streak 0.
proof fn lemma_untracked_streak(entries: Seq<(String, u8)>, n: Seq<char>)
    requires
        !tracks(entries, n),
    ensures
        streak_in(entries, n) == 0,
    decreases entries.len(),
{
    if entries.len() > 0 {
        assert(entries[0].0@ != n);
        let t = entries.drop_first();
        assert forall|i: int| 0 <= i < t.len() implies (#[trigger] t[i]).0@ != n by {
            assert(t[i] == entries[i + 1]);
        }
        lemma_untracked_streak(t, n);
    }
}

proof fn lemma_streak_at(entries: Seq<(String, u8)>, k: int)
    requires
        0 <= k < entries.len(),
        forall|a: int, b: int| 0 <= a < b < entries.len() ==> (#[trigger] entries[a]).0@ != (#[trigger] entries[b]).0@,
    ensures
        streak_in(entries, entries[k].0@) == entries[k].1,
    decreases k,
{
    if k > 0 {
        let t = entries.drop_first();
        assert forall|a: int, b: int| 0 <= a < b < t.len() implies (#[trigger] t[a]).0@ != (#[trigger] t[b]).0@ by {
            assert(t[a] == entries[a + 1] && t[b] == entries[b + 1]);
        }
        assert(entries[0].0@ != entries[k].0@);
        lemma_streak_at(t, k - 1);
    }
}

/// The uptime is the longest plausible process runtime: no plausible runtime
/// exceeds it, and it is one of them, or 0 when there is none.
pub proof fn uptime_is_the_longest_plausible_runtime(rows: Seq<ProcessRow>)
    ensures
        forall|i: int| 0 <= i < rows.len() && #[trigger] rows[i].runtime_secs <= MAX_PLAUSIBLE_RUNTIME
            ==> rows[i].runtime_secs <= uptime_of(rows),
        uptime_of(rows) == 0 || exists|i: int| 0 <= i < rows.len() && #[trigger] rows[i].runtime_secs == uptime_of(rows)
            && rows[i].runtime_secs <= MAX_PLAUSIBLE_RUNTIME,
    decreases rows.len(),
{
    if rows.len() > 0 {
        let init = rows.drop_last();
        uptime_is_the_longest_plausible_runtime(init);
        assert forall|i: int| 0 <= i < rows.len() && #[trigger] rows[i].runtime_secs <= MAX_PLAUSIBLE_RUNTIME
            implies rows[i].runtime_secs <= uptime_of(rows) by {
            if i < rows.len() - 1 {
                assert(init[i] == rows[i]);
            }
        }
        if uptime_of(rows) != 0 {
            if uptime_of(rows) == uptime_of(init) {
                let j = choose|j: int| 0 <= j < init.len() && #[trigger] init[j].runtime_secs == uptime_of(init)
                    && init[j].runtime_secs <= MAX_PLAUSIBLE_RUNTIME;
                assert(rows[j] == init[j]);
            } else {
                assert(rows[rows.len() - 1].runtime_secs == uptime_of(rows));
            }
        }
    }
}

} // verus!

//! The rules that turn a snapshot into findings.

use vstd::prelude::*;

use crate::model::{ApplicationRow, Finding, FindingView, Severity, Snapshot, ThermalState};
use crate::text::{
    append_chars, chars_of, contains_str, dec, decimal, fixed0, fixed0_chars, fixed1,
    fixed1_chars, has_sub, join, join_chars, char_seqs, lit, lowercase, string_of, to_lowercase,
};

verus! {

/// Bytes in a mebibyte.
pub const MIB: u64 = 1_048_576;

/// Bytes in a gibibyte.
pub const GIB: u64 = 1_073_741_824;

/// Seconds in a day.
pub const DAY_SECS: u64 = 86_400;

/// The suffix of a title whose reading has not yet persisted.
pub open spec fn observing_text(sustained: bool) -> Seq<char> {
    if sustained {
        Seq::empty()
    } else {
        " — observing"@
    }
}

/// The title suffix for a reading that has or has not persisted.
pub fn observing(sustained: bool) -> (r: &'static str)
    ensures
        r@ == observing_text(sustained),
{
    if sustained {
        proof {
            reveal_strlit("");
        }
        ""
    } else {
        " — observing"
    }
}

/// `suffix` unless `n` is one.
pub open spec fn plural(n: nat, suffix: Seq<char>) -> Seq<char> {
    if n == 1 {
        Seq::empty()
    } else {
        suffix
    }
}

fn push_plural(r: &mut Vec<char>, n: usize, suffix: &str)
    ensures
        final(r)@ == old(r)@ + plural(n as nat, suffix@),
{
    if n != 1 {
        let s = lit(suffix);
        append_chars(r, &s);
    } else {
        assert(old(r)@ + Seq::<char>::empty() == old(r)@);
    }
}

/// What is said of a reading observed in `samples` consecutive samples, then `followup`.
pub open spec fn sample_detail_text(samples: u8, followup: Seq<char>) -> Seq<char> {
    if samples >= 3 {
        followup
    } else {
        "Observed for "@ + dec(if samples >= 1 { samples as nat } else { 1 }) + " consecutive sample"@
            + plural(samples as nat, "s"@) + "; watching for sustained activity."@ + (if followup.len()
            == 0 {
            Seq::empty()
        } else {
            " "@
        }) + followup
    }
}

/// What is said of a reading observed in `samples` consecutive samples.
pub fn sample_detail(samples: u8, followup: &str) -> (r: Vec<char>)
    ensures
        r@ == sample_detail_text(samples, followup@),
{
    let f = lit(followup);
    if samples >= 3 {
        return f;
    }
    let mut r = lit("Observed for ");
    let shown: u64 = if samples >= 1 {
        samples as u64
    } else {
        1
    };
    let d = decimal(shown);
    append_chars(&mut r, &d);
    let s = lit(" consecutive sample");
    append_chars(&mut r, &s);
    push_plural(&mut r, samples as usize, "s");
    let s = lit("; watching for sustained activity.");
    append_chars(&mut r, &s);
    if f.len() != 0 {
        let s = lit(" ");
        append_chars(&mut r, &s);
    } else {
        assert(r@ + Seq::<char>::empty() == r@);
    }
    append_chars(&mut r, &f);
    r
}

/// The first six PIDs, comma separated, with an ellipsis when there are more.
pub open spec fn pid_summary_text(pids: Seq<u32>) -> Seq<char> {
    let shown = if pids.len() > 6 {
        pids.take(6)
    } else {
        pids
    };
    "PID"@ + plural(pids.len(), "s"@) + " "@ + join(shown.map_values(|p: u32| dec(p as nat)), ", "@)
        + (if pids.len() > 6 {
        ", …"@
    } else {
        Seq::empty()
    })
}

/// The PIDs of an application as a finding names them.
pub fn pid_summary(pids: &[u32]) -> (r: Vec<char>)
    ensures
        r@ == pid_summary_text(pids@),
{
    let n: usize = if pids.len() > 6 {
        6
    } else {
        pids.len()
    };
    let ghost shown = if pids@.len() > 6 {
        pids@.take(6)
    } else {
        pids@
    };
    assert(shown == pids@.take(n as int));
    let mut parts: Vec<Vec<char>> = Vec::new();
    let mut i: usize = 0;
    while i < n
        invariant
            i <= n <= pids.len(),
            char_seqs(parts@) == pids@.take(i as int).map_values(|p: u32| dec(p as nat)),
        decreases n - i,
    {
        let d = decimal(pids[i] as u64);
        let ghost before = parts@;
        parts.push(d);
        assert(char_seqs(parts@) =~= char_seqs(before).push(dec(pids@[i as int] as nat)));
        assert(pids@.take(i + 1) == pids@.take(i as int).push(pids@[i as int]));
        assert(pids@.take(i + 1).map_values(|p: u32| dec(p as nat)) =~= pids@.take(
            i as int,
        ).map_values(|p: u32| dec(p as nat)).push(dec(pids@[i as int] as nat)));
        i += 1;
    }
    let mut r = lit("PID");
    push_plural(&mut r, pids.len(), "s");
    let s = lit(" ");
    append_chars(&mut r, &s);
    let sep = lit(", ");
    let joined = join_chars(&parts, &sep);
    append_chars(&mut r, &joined);
    if pids.len() > 6 {
        let s = lit(", …");
        append_chars(&mut r, &s);
    } else {
        assert(r@ + Seq::<char>::empty() == r@);
    }
    r
}

/// A byte rate as a finding prints it.
pub open spec fn bytes_text(value: nat) -> Seq<char> {
    if value >= GIB {
        fixed1(value, GIB as nat) + " GiB"@
    } else {
        fixed1(value, MIB as nat) + " MiB"@
    }
}

/// A byte count in mebibytes or gibibytes, with one decimal.
pub fn bytes(value: u64) -> (r: Vec<char>)
    ensures
        r@ == bytes_text(value as nat),
{
    if value >= GIB {
        let mut r = fixed1_chars(value, GIB);
        let s = lit(" GiB");
        append_chars(&mut r, &s);
        r
    } else {
        let mut r = fixed1_chars(value, MIB);
        let s = lit(" MiB");
        append_chars(&mut r, &s);
        r
    }
}

/// A number of seconds as days and hours, hours and minutes, or minutes.
pub open spec fn duration_text(seconds: nat) -> Seq<char> {
    let days = seconds / 86_400;
    let hours = seconds % 86_400 / 3_600;
    let minutes = seconds % 3_600 / 60;
    if days > 0 {
        dec(days) + "d "@ + dec(hours) + "h"@
    } else if hours > 0 {
        dec(hours) + "h "@ + dec(minutes) + "m"@
    } else {
        dec(minutes) + "m"@
    }
}

/// A number of seconds as days and hours, hours and minutes, or minutes.
pub fn duration_chars(seconds: u64) -> (r: Vec<char>)
    ensures
        r@ == duration_text(seconds as nat),
{
    let days = seconds / 86_400;
    let hours = seconds % 86_400 / 3_600;
    let minutes = seconds % 3_600 / 60;
    let (first, unit1, second, unit2) = if days > 0 {
        (days, "d ", hours, "h")
    } else if hours > 0 {
        (hours, "h ", minutes, "m")
    } else {
        let mut r = decimal(minutes);
        let s = lit("m");
        append_chars(&mut r, &s);
        return r;
    };
    let mut r = decimal(first);
    let s = lit(unit1);
    append_chars(&mut r, &s);
    let d = decimal(second);
    append_chars(&mut r, &d);
    let s = lit(unit2);
    append_chars(&mut r, &s);
    r
}

/// A number of seconds as days and hours, hours and minutes, or minutes.
pub fn duration(seconds: u64) -> (r: String)
    ensures
        r@ == duration_text(seconds as nat),
{
    let v = duration_chars(seconds);
    string_of(&v)
}

/// The known workload that a lowercased application name points to: a title and an explanation.
pub open spec fn workload_in(v: Seq<char>) -> Option<(Seq<char>, Seq<char>)> {
    if has_sub(v, "kernel_task"@) {
        Some(("Thermal management is active"@, "High kernel_task CPU often means macOS is deliberately limiting other work because the hardware is hot; kernel_task itself is not the cause."@))
    } else if has_sub(v, "mds"@) || has_sub(v, "mdworker"@) || has_sub(v, "corespotlight"@) {
        Some(("Spotlight indexing is active"@, "Spotlight is scanning files. This commonly happens after an update, migration, or large file change and should settle when indexing finishes."@))
    } else if has_sub(v, "photoanalysisd"@) || has_sub(v, "photolibraryd"@) || has_sub(v, "mediaanalysisd"@) {
        Some(("Photos analysis is active"@, "Photos is indexing faces, objects, or media. It often runs after importing a library or while the Mac is plugged in."@))
    } else if has_sub(v, "backupd"@) || has_sub(v, "time machine"@) {
        Some(("A backup is active"@, "Time Machine or another backup job can use CPU, storage, and network together. Let it finish or pause it temporarily."@))
    } else if has_sub(v, "softwareupdated"@) || has_sub(v, "installd"@) || has_sub(v, "osinstall"@) {
        Some(("A software update is active"@, "Downloading, verifying, and installing updates can temporarily produce substantial heat."@))
    } else if has_sub(v, "bird"@) || has_sub(v, "cloudd"@) || has_sub(v, "icloud"@) {
        Some(("iCloud syncing is active"@, "iCloud is reconciling or transferring files. Large initial syncs can keep storage, networking, and CPU busy."@))
    } else if has_sub(v, "windowserver"@) {
        Some(("Display compositing is busy"@, "WindowServer load often rises with external displays, scaled resolutions, HDR, screen sharing, animation, or many changing windows."@))
    } else if has_sub(v, "vtencoder"@) || has_sub(v, "ffmpeg"@) || has_sub(v, "handbrake"@) || has_sub(v, "com.apple.videotoolbox"@) {
        Some(("Video encoding is active"@, "Video export, transcoding, or screen recording can heavily use media engines and the GPU as well as CPU."@))
    } else if has_sub(v, "qemu"@) || has_sub(v, "virtualization"@) || has_sub(v, "parallels"@) || has_sub(v, "vmware"@) || has_sub(v, "docker desktop"@) {
        Some(("A virtual machine is active"@, "Virtual machines and containers can sustain CPU, memory, disk, and network load even when their windows are hidden."@))
    } else if has_sub(v, "safari"@) || has_sub(v, "webkit"@) || has_sub(v, "chrome"@) || has_sub(v, "firefox"@) || has_sub(v, "chromium"@) {
        Some(("Browser content is busy"@, "A tab may be running animation, video, WebGL, JavaScript, or a call. Use the browser task manager or close tabs to isolate it."@))
    } else if has_sub(v, "syncthing"@) || has_sub(v, "rclone"@) || has_sub(v, "dropbox"@) || has_sub(v, "onedrive"@) {
        Some(("File syncing is active"@, "Scanning, hashing, encrypting, and transferring many files can heat the CPU and storage. Pause the sync to confirm."@))
    } else {
        None
    }
}

/// The known workload that a lowercased application name points to.
pub fn workload_of(v: &[char]) -> (r: Option<(&'static str, &'static str)>)
    ensures
        match r {
            Some((t, e)) => workload_in(v@) == Some((t@, e@)),
            None => workload_in(v@) is None,
        },
{
    if contains_str(v, "kernel_task") {
        Some(("Thermal management is active", "High kernel_task CPU often means macOS is deliberately limiting other work because the hardware is hot; kernel_task itself is not the cause."))
    } else if contains_str(v, "mds") || contains_str(v, "mdworker") || contains_str(v, "corespotlight") {
        Some(("Spotlight indexing is active", "Spotlight is scanning files. This commonly happens after an update, migration, or large file change and should settle when indexing finishes."))
    } else if contains_str(v, "photoanalysisd") || contains_str(v, "photolibraryd") || contains_str(v, "mediaanalysisd") {
        Some(("Photos analysis is active", "Photos is indexing faces, objects, or media. It often runs after importing a library or while the Mac is plugged in."))
    } else if contains_str(v, "backupd") || contains_str(v, "time machine") {
        Some(("A backup is active", "Time Machine or another backup job can use CPU, storage, and network together. Let it finish or pause it temporarily."))
    } else if contains_str(v, "softwareupdated") || contains_str(v, "installd") || contains_str(v, "osinstall") {
        Some(("A software update is active", "Downloading, verifying, and installing updates can temporarily produce substantial heat."))
    } else if contains_str(v, "bird") || contains_str(v, "cloudd") || contains_str(v, "icloud") {
        Some(("iCloud syncing is active", "iCloud is reconciling or transferring files. Large initial syncs can keep storage, networking, and CPU busy."))
    } else if contains_str(v, "windowserver") {
        Some(("Display compositing is busy", "WindowServer load often rises with external displays, scaled resolutions, HDR, screen sharing, animation, or many changing windows."))
    } else if contains_str(v, "vtencoder") || contains_str(v, "ffmpeg") || contains_str(v, "handbrake") || contains_str(v, "com.apple.videotoolbox") {
        Some(("Video encoding is active", "Video export, transcoding, or screen recording can heavily use media engines and the GPU as well as CPU."))
    } else if contains_str(v, "qemu") || contains_str(v, "virtualization") || contains_str(v, "parallels") || contains_str(v, "vmware") || contains_str(v, "docker desktop") {
        Some(("A virtual machine is active", "Virtual machines and containers can sustain CPU, memory, disk, and network load even when their windows are hidden."))
    } else if contains_str(v, "safari") || contains_str(v, "webkit") || contains_str(v, "chrome") || contains_str(v, "firefox") || contains_str(v, "chromium") {
        Some(("Browser content is busy", "A tab may be running animation, video, WebGL, JavaScript, or a call. Use the browser task manager or close tabs to isolate it."))
    } else if contains_str(v, "syncthing") || contains_str(v, "rclone") || contains_str(v, "dropbox") || contains_str(v, "onedrive") {
        Some(("File syncing is active", "Scanning, hashing, encrypting, and transferring many files can heat the CPU and storage. Pause the sync to confirm."))
    } else {
        None
    }
}

/// The known workload that an application name points to.
pub open spec fn workload_text(name: Seq<char>) -> Option<(Seq<char>, Seq<char>)> {
    workload_in(lowercase(name))
}

/// The application counts as busy enough to explain.
pub open spec fn noteworthy(app: ApplicationRow) -> bool {
    ||| app.cpu_hundredths >= 5000
    ||| app.io_bytes_per_sec > 10 * MIB
    ||| (app.cpu_hundredths >= 2000 && workload_text(app.name@) is Some)
}

/// The title of an application's finding, before the observing suffix, given
/// its name lowercased.
pub open spec fn app_title_base(app: ApplicationRow, lower: Seq<char>) -> Seq<char> {
    let cpu_busy = app.cpu_hundredths >= 5000;
    let io_busy = app.io_bytes_per_sec > 10 * MIB;
    if cpu_busy && io_busy {
        app.name@ + " is using CPU and disk"@
    } else if cpu_busy {
        app.name@ + " is using "@ + fixed0(app.cpu_hundredths as nat, 100) + "% CPU"@
    } else if io_busy {
        app.name@ + " is doing heavy disk I/O"@
    } else {
        match workload_in(lower) {
            Some((t, _e)) => t,
            None => app.name@ + " is active"@,
        }
    }
}

/// The evidence sentence of an application's finding.
pub open spec fn app_evidence(app: ApplicationRow) -> Seq<char> {
    let n = app.pids@.len();
    "Across "@ + dec(n) + " process"@ + plural(n, "es"@) + " ("@ + pid_summary_text(app.pids@)
        + "): "@ + fixed0(app.cpu_hundredths as nat, 100) + "% CPU"@ + (if app.io_bytes_per_sec
        > 10 * MIB {
        " · about "@ + bytes_text(app.io_bytes_per_sec as nat) + "/s disk I/O"@
    } else {
        Seq::empty()
    }) + " · running "@ + duration_text(app.runtime_secs as nat)
}

/// The detail of an application's finding, given its name lowercased.
pub open spec fn app_detail(app: ApplicationRow, lower: Seq<char>) -> Seq<char> {
    app_evidence(app) + ". "@ + (if app.active_samples < 3 {
        sample_detail_text(app.active_samples, Seq::empty()) + " "@
    } else {
        Seq::empty()
    }) + (match workload_in(lower) {
        Some((_t, e)) => e + " "@,
        None => Seq::empty(),
    }) + (if has_sub(lower, "kernel_task"@) {
        "Do not kill it; reduce other workloads and let the Mac cool."@
    } else {
        "Quit the application normally to confirm whether it is the cause."@
    })
}

/// The severity of an application's finding: hot only when the activity has
/// persisted and is extreme.
pub open spec fn app_severity(app: ApplicationRow) -> Severity {
    if app.active_samples >= 3 && (app.cpu_hundredths >= 9000 || app.io_bytes_per_sec >= 50 * MIB) {
        Severity::Hot
    } else {
        Severity::Warm
    }
}

/// The finding for one busy application.
pub open spec fn app_finding(app: ApplicationRow) -> FindingView {
    app_finding_in(app, lowercase(app.name@))
}

/// The finding for one busy application, given its name lowercased.
pub open spec fn app_finding_in(app: ApplicationRow, lower: Seq<char>) -> FindingView {
    (app_severity(app), app_title_base(app, lower) + observing_text(app.active_samples >= 3), app_detail(app, lower))
}


fn push_lit(r: &mut Vec<char>, s: &str)
    ensures
        final(r)@ == old(r)@ + s@,
{
    let v = lit(s);
    append_chars(r, &v);
}

fn app_title(app: &ApplicationRow, work: Option<(&'static str, &'static str)>, lower: &[char]) -> (r: Vec<char>)
    requires
        match work {
            Some((t, e)) => workload_in(lower@) == Some((t@, e@)),
            None => workload_in(lower@) is None,
        },
    ensures
        r@ == app_title_base(*app, lower@),
{
    let cpu_busy = app.cpu_hundredths >= 5000;
    let io_busy = app.io_bytes_per_sec > 10 * MIB;
    let mut r = chars_of(app.name.as_str());
    if cpu_busy && io_busy {
        push_lit(&mut r, " is using CPU and disk");
    } else if cpu_busy {
        push_lit(&mut r, " is using ");
        let p = fixed0_chars(app.cpu_hundredths, 100);
        append_chars(&mut r, &p);
        push_lit(&mut r, "% CPU");
    } else if io_busy {
        push_lit(&mut r, " is doing heavy disk I/O");
    } else {
        match work {
            Some((t, _e)) => {
                r = lit(t);
            },
            None => {
                push_lit(&mut r, " is active");
            },
        }
    }
    r
}

fn app_evidence_chars(app: &ApplicationRow) -> (r: Vec<char>)
    ensures
        r@ == app_evidence(*app),
{
    let n = app.pids.len();
    let mut r = lit("Across ");
    let d = decimal(n as u64);
    append_chars(&mut r, &d);
    push_lit(&mut r, " process");
    push_plural(&mut r, n, "es");
    push_lit(&mut r, " (");
    let p = pid_summary(app.pids.as_slice());
    append_chars(&mut r, &p);
    push_lit(&mut r, "): ");
    let c = fixed0_chars(app.cpu_hundredths, 100);
    append_chars(&mut r, &c);
    push_lit(&mut r, "% CPU");
    if app.io_bytes_per_sec > 10 * MIB {
        push_lit(&mut r, " · about ");
        let b = bytes(app.io_bytes_per_sec);
        append_chars(&mut r, &b);
        push_lit(&mut r, "/s disk I/O");
    } else {
        assert(r@ + Seq::<char>::empty() == r@);
    }
    push_lit(&mut r, " · running ");
    let d = duration_chars(app.runtime_secs);
    append_chars(&mut r, &d);
    r
}

/// The finding for one busy application: CPU, disk and known-workload
/// evidence combined.
pub fn application_finding(app: &ApplicationRow) -> (f: Finding)
    ensures
        f@ == app_finding(*app),
{
    let lower = to_lowercase(app.name.as_str());
    finding_from_lowercase(app, &chars_of(lower.as_str()))
}

/// The finding for one busy application, given its name lowercased: the title
/// names the CPU or disk activity or the known workload, with `— observing`
/// until the activity has lasted three samples; the detail gives the evidence,
/// the workload's explanation and what to do.
pub fn finding_from_lowercase(app: &ApplicationRow, lower: &[char]) -> (f: Finding)
    ensures
        f@ == app_finding_in(*app, lower@),
{
    let work = workload_of(lower);
    let sustained = app.active_samples >= 3;
    let mut title = app_title(app, work, lower);
    push_lit(&mut title, observing(sustained));
    let mut detail = app_evidence_chars(app);
    push_lit(&mut detail, ". ");
    if !sustained {
        let s = sample_detail(app.active_samples, "");
        proof {
            reveal_strlit("");
        }
        append_chars(&mut detail, &s);
        push_lit(&mut detail, " ");
    } else {
        assert(detail@ + Seq::<char>::empty() == detail@);
    }
    match work {
        Some((_t, e)) => {
            push_lit(&mut detail, e);
            push_lit(&mut detail, " ");
        },
        None => {
            assert(detail@ + Seq::<char>::empty() == detail@);
        },
    }
    if contains_str(lower, "kernel_task") {
        push_lit(&mut detail, "Do not kill it; reduce other workloads and let the Mac cool.");
    } else {
        push_lit(&mut detail, "Quit the application normally to confirm whether it is the cause.");
    }
    let severity = if sustained && (app.cpu_hundredths >= 9000 || app.io_bytes_per_sec >= 50 * MIB) {
        Severity::Hot
    } else {
        Severity::Warm
    };
    Finding { severity, title: string_of(&title), detail: string_of(&detail) }
}


// ---------------------------------------------------------------------------
// The whole diagnosis
// ---------------------------------------------------------------------------

/// The views of a sequence of findings.
pub open spec fn views(fs: Seq<Finding>) -> Seq<FindingView> {
    fs.map_values(|f: Finding| f@)
}

/// The first `k` noteworthy applications, in order.
pub open spec fn first_noteworthy(apps: Seq<ApplicationRow>, k: nat) -> Seq<ApplicationRow>
    decreases apps.len(),
{
    if apps.len() == 0 || k == 0 {
        seq![]
    } else if noteworthy(apps[0]) {
        seq![apps[0]] + first_noteworthy(apps.drop_first(), (k - 1) as nat)
    } else {
        first_noteworthy(apps.drop_first(), k)
    }
}

/// The findings for the applications: one each for the first five noteworthy ones.
pub open spec fn application_findings(s: Snapshot) -> Seq<FindingView> {
    first_noteworthy(s.applications@, 5).map_values(|a: ApplicationRow| app_finding(a))
}

/// `f` when `c` holds, else nothing.
pub open spec fn when(c: bool, f: FindingView) -> Seq<FindingView> {
    if c {
        seq![f]
    } else {
        seq![]
    }
}

/// The finding on overall CPU load: hot only once the load has persisted for three samples.
pub open spec fn cpu_findings(s: Snapshot) -> Seq<FindingView> {
    let n = s.cpu_active_samples;
    if s.cpu_hundredths >= 8000 {
        seq![
            (
                if n >= 3 {
                    Severity::Hot
                } else {
                    Severity::Warm
                },
                "Overall CPU load is high"@ + observing_text(n >= 3),
                sample_detail_text(n, "Sustained computation is the most likely source of heat."@),
            ),
        ]
    } else if s.cpu_hundredths >= 5000 {
        seq![
            (
                Severity::Warm,
                "Overall CPU load is elevated"@ + observing_text(n >= 3),
                sample_detail_text(n, "Check the leading applications if this persists."@),
            ),
        ]
    } else {
        seq![]
    }
}

/// The finding on charging.
pub open spec fn charging_findings(s: Snapshot) -> Seq<FindingView> {
    when(
        s.charging == Some(true),
        (
            Severity::Warm,
            "Battery is charging"@,
            "Charging naturally adds heat, especially while the CPU is busy."@,
        ),
    )
}

/// The finding on thermal management.
pub open spec fn thermal_findings(s: Snapshot) -> Seq<FindingView> {
    match s.thermal_state {
        Some(ThermalState::Throttled) => seq![
            (
                Severity::Hot,
                "macOS is thermally throttling the CPU"@,
                "The system has reduced CPU speed to control temperature. Lower the workload, disconnect unnecessary peripherals, improve airflow, and allow time to cool."@,
            ),
        ],
        Some(ThermalState::Warning) => seq![
            (
                Severity::Hot,
                "macOS reports thermal pressure"@,
                "The machine is actively managing excess heat. Reduce intensive work and check that its vents and surrounding air are unobstructed."@,
            ),
        ],
        _ => seq![],
    }
}

/// The finding on memory use.
pub open spec fn memory_findings(s: Snapshot) -> Seq<FindingView> {
    when(
        s.memory_hundredths > 9000,
        (
            Severity::Warm,
            "Memory use is very high"@,
            "Memory pressure and swapping can increase power use."@,
        ),
    )
}

/// The finding on battery capacity.
pub open spec fn capacity_findings(s: Snapshot) -> Seq<FindingView> {
    match s.battery_max_capacity {
        Some(c) => when(
            c < 80,
            (
                Severity::Warm,
                "Battery health is degraded"@,
                "Maximum capacity is "@ + dec(c as nat)
                    + "%. An ageing or damaged battery can run warmer, especially while charging. Check Battery settings or Apple Diagnostics."@,
            ),
        ),
        None => seq![],
    }
}

/// ASCII lowercase of a character.
pub open spec fn ascii_lower(c: char) -> char {
    if 'A' <= c <= 'Z' {
        ((c as u32) + 32) as char
    } else {
        c
    }
}

/// Equality ignoring ASCII case (std's `str::eq_ignore_ascii_case`).
pub open spec fn eq_ignore_ascii_case(a: Seq<char>, b: Seq<char>) -> bool {
    a.len() == b.len() && forall|i: int| 0 <= i < a.len() ==> ascii_lower(#[trigger] a[i])
        == ascii_lower(b[i])
}

fn lower_ascii(c: char) -> (r: char)
    ensures
        r == ascii_lower(c),
{
    if 'A' <= c && c <= 'Z' {
        ((c as u8) + 32) as char
    } else {
        c
    }
}

pub fn same_ignoring_ascii_case(a: &[char], b: &[char]) -> (r: bool)
    ensures
        r == eq_ignore_ascii_case(a@, b@),
{
    if a.len() != b.len() {
        return false;
    }
    let mut i: usize = 0;
    while i < a.len()
        invariant
            i <= a.len() == b.len(),
            forall|k: int| 0 <= k < i ==> ascii_lower(#[trigger] a@[k]) == ascii_lower(b@[k]),
        decreases a.len() - i,
    {
        if lower_ascii(a[i]) != lower_ascii(b[i]) {
            return false;
        }
        i += 1;
    }
    true
}

/// The finding on a battery condition other than normal.
pub open spec fn condition_findings(s: Snapshot) -> Seq<FindingView> {
    match s.battery_condition {
        Some(c) => when(
            !eq_ignore_ascii_case(c@, "normal"@),
            (
                Severity::Warm,
                "macOS reports a battery service condition"@,
                "Battery condition: "@ + c@
                    + ". Avoid sustained heavy use while charging and arrange a battery check."@,
            ),
        ),
        None => seq![],
    }
}

/// The finding on external displays.
pub open spec fn display_findings(s: Snapshot) -> Seq<FindingView> {
    match s.external_displays {
        Some(n) => when(
            n > 0,
            (
                Severity::Cool,
                dec(n as nat) + " external display"@ + plural(n as nat, "s"@) + " connected"@,
                "External displays increase display-engine and WindowServer work. High resolution, HDR, scaling, and high refresh rates add more load."@,
            ),
        ),
        None => seq![],
    }
}

/// The finding on a long uptime.
pub open spec fn uptime_findings(s: Snapshot) -> Seq<FindingView> {
    when(
        s.uptime_secs >= 14 * 86_400,
        (
            Severity::Cool,
            "Mac has been running for "@ + duration_text(s.uptime_secs as nat),
            "Long uptime is not inherently harmful, but restarting can clear stuck background services if the heat has no other explanation."@,
        ),
    )
}

/// All findings, in the order the rules produce them.
pub open spec fn raw_findings(s: Snapshot) -> Seq<FindingView> {
    application_findings(s) + cpu_findings(s) + charging_findings(s) + thermal_findings(s)
        + memory_findings(s) + capacity_findings(s) + condition_findings(s) + display_findings(s)
        + uptime_findings(s)
}

/// Every finding is cool.
pub open spec fn all_cool(fs: Seq<FindingView>) -> bool {
    forall|i: int| 0 <= i < fs.len() ==> (#[trigger] fs[i]).0 == Severity::Cool
}

/// The finding given when nothing explains heat.
pub open spec fn fallback_finding() -> FindingView {
    (
        Severity::Cool,
        "No obvious software heat source"@,
        "Software cannot sense blocked vents, a soft surface, direct sun, or high room temperature. Move the Mac to a hard ventilated surface, disconnect unneeded docks, and check whether it cools."@,
    )
}

/// The findings, with the fallback added when none is warm or hot.
pub open spec fn with_fallback(fs: Seq<FindingView>) -> Seq<FindingView> {
    if all_cool(fs) {
        fs.push(fallback_finding())
    } else {
        fs
    }
}

/// The findings of one severity, in their order.
pub open spec fn keep(fs: Seq<FindingView>, sev: Severity) -> Seq<FindingView>
    decreases fs.len(),
{
    if fs.len() == 0 {
        seq![]
    } else if fs[0].0 == sev {
        seq![fs[0]] + keep(fs.drop_first(), sev)
    } else {
        keep(fs.drop_first(), sev)
    }
}

/// The findings ordered hot, then warm, then cool, each group in the order given.
pub open spec fn by_severity(fs: Seq<FindingView>) -> Seq<FindingView> {
    keep(fs, Severity::Hot) + keep(fs, Severity::Warm) + keep(fs, Severity::Cool)
}

/// What `diagnose` returns for a snapshot.
pub open spec fn diagnosis_of(s: Snapshot) -> Seq<FindingView> {
    by_severity(with_fallback(raw_findings(s)))
}

fn push_finding(v: &mut Vec<Finding>, f: Finding)
    ensures
        views(final(v)@) == views(old(v)@).push(f@),
{
    v.push(f);
    assert(views(v@) =~= views(old(v)@).push(f@));
}

fn add_new(v: &mut Vec<Finding>, severity: Severity, title: &[char], detail: &[char])
    ensures
        views(final(v)@) == views(old(v)@).push((severity, title@, detail@)),
{
    push_finding(v, Finding { severity, title: string_of(title), detail: string_of(detail) });
}

fn add_lits(v: &mut Vec<Finding>, severity: Severity, title: &str, detail: &str)
    ensures
        views(final(v)@) == views(old(v)@).push((severity, title@, detail@)),
{
    add_new(v, severity, &lit(title), &lit(detail));
}

/// Whether an application is busy enough to explain.
pub fn is_noteworthy(app: &ApplicationRow) -> (b: bool)
    ensures
        b == noteworthy(*app),
{
    if app.cpu_hundredths >= 5000 || app.io_bytes_per_sec > 10 * MIB {
        return true;
    }
    if app.cpu_hundredths < 2000 {
        return false;
    }
    let lower_name = to_lowercase(app.name.as_str());
    let lower = chars_of(lower_name.as_str());
    workload_of(&lower).is_some()
}

fn push_application_findings(s: &Snapshot, v: &mut Vec<Finding>)
    ensures
        views(final(v)@) == views(old(v)@) + application_findings(*s),
{
    let apps = &s.applications;
    let ghost done: Seq<ApplicationRow> = seq![];
    let mut i: usize = 0;
    let mut left: usize = 5;
    assert(apps@.skip(0) == apps@);
    assert(done + first_noteworthy(apps@, 5) == first_noteworthy(apps@, 5));
    while i < apps.len() && left > 0
        invariant
            i <= apps.len(),
            apps == &s.applications,
            done + first_noteworthy(apps@.skip(i as int), left as nat) == first_noteworthy(apps@, 5),
            views(v@) == views(old(v)@) + done.map_values(|a: ApplicationRow| app_finding(a)),
        decreases apps.len() - i,
    {
        let ghost rest = apps@.skip(i as int);
        assert(rest[0] == apps@[i as int]);
        assert(rest.drop_first() == apps@.skip(i + 1));
        if is_noteworthy(&apps[i]) {
            let f = application_finding(&apps[i]);
            let ghost before = v@;
            push_finding(v, f);
            proof {
                assert(done.push(apps@[i as int]).map_values(|a: ApplicationRow| app_finding(a))
                    =~= done.map_values(|a: ApplicationRow| app_finding(a)).push(
                    app_finding(apps@[i as int]),
                ));
                assert(done.push(apps@[i as int]) + first_noteworthy(apps@.skip(i + 1), (left
                    - 1) as nat) =~= done + (seq![apps@[i as int]] + first_noteworthy(
                    apps@.skip(i + 1),
                    (left - 1) as nat,
                )));
                done = done.push(apps@[i as int]);
            }
            left -= 1;
        }
        i += 1;
    }
    proof {
        assert(first_noteworthy(apps@.skip(i as int), left as nat) == Seq::<ApplicationRow>::empty());
        assert(done + Seq::<ApplicationRow>::empty() == done);
    }
}

fn keep_into(fs: &Vec<Finding>, sev: Severity, out: &mut Vec<Finding>)
    ensures
        views(final(out)@) == views(old(out)@) + keep(views(fs@), sev),
{
    let ghost all = views(fs@);
    let mut i: usize = 0;
    assert(all.skip(0) == all);
    while i < fs.len()
        invariant
            i <= fs.len(),
            all == views(fs@),
            views(old(out)@) + keep(all, sev) == views(out@) + keep(all.skip(i as int), sev),
        decreases fs.len() - i,
    {
        let ghost rest = all.skip(i as int);
        assert(rest[0] == fs@[i as int]@);
        assert(rest.drop_first() == all.skip(i + 1));
        if fs[i].severity == sev {
            let ghost before = views(out@);
            push_finding(out, fs[i].duplicate());
            assert(before + (seq![rest[0]] + keep(all.skip(i + 1), sev)) =~= before.push(rest[0])
                + keep(all.skip(i + 1), sev));
        }
        i += 1;
    }
    assert(keep(all.skip(i as int), sev) == Seq::<FindingView>::empty());
    assert(views(out@) + Seq::<FindingView>::empty() == views(out@));
}

fn push_cpu_findings(s: &Snapshot, raw: &mut Vec<Finding>)
    ensures
        views(final(raw)@) == views(old(raw)@) + cpu_findings(*s),
{
    let n = s.cpu_active_samples;
    if s.cpu_hundredths >= 8000 {
        let sustained = n >= 3;
        let mut title = lit("Overall CPU load is high");
        push_lit(&mut title, observing(sustained));
        let detail = sample_detail(n, "Sustained computation is the most likely source of heat.");
        add_new(raw, if sustained { Severity::Hot } else { Severity::Warm }, &title, &detail);
    } else if s.cpu_hundredths >= 5000 {
        let mut title = lit("Overall CPU load is elevated");
        push_lit(&mut title, observing(n >= 3));
        let detail = sample_detail(n, "Check the leading applications if this persists.");
        add_new(raw, Severity::Warm, &title, &detail);
    } else {
        assert(views(raw@) + Seq::<FindingView>::empty() == views(raw@));
    }
}

fn push_power_findings(s: &Snapshot, raw: &mut Vec<Finding>)
    ensures
        views(final(raw)@) == views(old(raw)@) + charging_findings(*s) + thermal_findings(*s)
            + memory_findings(*s),
{
    if s.charging == Some(true) {
        add_lits(
            raw,
            Severity::Warm,
            "Battery is charging",
            "Charging naturally adds heat, especially while the CPU is busy.",
        );
    }
    let ghost part = views(old(raw)@) + charging_findings(*s);
    assert(views(raw@) =~= part);
    match s.thermal_state {
        Some(ThermalState::Throttled) => add_lits(
            raw,
            Severity::Hot,
            "macOS is thermally throttling the CPU",
            "The system has reduced CPU speed to control temperature. Lower the workload, disconnect unnecessary peripherals, improve airflow, and allow time to cool.",
        ),
        Some(ThermalState::Warning) => add_lits(
            raw,
            Severity::Hot,
            "macOS reports thermal pressure",
            "The machine is actively managing excess heat. Reduce intensive work and check that its vents and surrounding air are unobstructed.",
        ),
        _ => {},
    }
    let ghost part = part + thermal_findings(*s);
    assert(views(raw@) =~= part);
    if s.memory_hundredths > 9000 {
        add_lits(
            raw,
            Severity::Warm,
            "Memory use is very high",
            "Memory pressure and swapping can increase power use.",
        );
    }
    assert(views(raw@) =~= part + memory_findings(*s));
}

fn push_battery_findings(s: &Snapshot, raw: &mut Vec<Finding>)
    ensures
        views(final(raw)@) == views(old(raw)@) + capacity_findings(*s) + condition_findings(*s),
{
    match s.battery_max_capacity {
        Some(c) => {
            if c < 80 {
                let mut detail = lit("Maximum capacity is ");
                let d = decimal(c as u64);
                append_chars(&mut detail, &d);
                push_lit(
                    &mut detail,
                    "%. An ageing or damaged battery can run warmer, especially while charging. Check Battery settings or Apple Diagnostics.",
                );
                add_new(raw, Severity::Warm, &lit("Battery health is degraded"), &detail);
            }
        },
        None => {},
    }
    let ghost part = views(old(raw)@) + capacity_findings(*s);
    assert(views(raw@) =~= part);
    match &s.battery_condition {
        Some(c) => {
            let cv = chars_of(c.as_str());
            if !same_ignoring_ascii_case(&cv, &lit("normal")) {
                let mut detail = lit("Battery condition: ");
                append_chars(&mut detail, &cv);
                push_lit(
                    &mut detail,
                    ". Avoid sustained heavy use while charging and arrange a battery check.",
                );
                add_new(
                    raw,
                    Severity::Warm,
                    &lit("macOS reports a battery service condition"),
                    &detail,
                );
            }
        },
        None => {},
    }
    assert(views(raw@) =~= part + condition_findings(*s));
}

fn push_setup_findings(s: &Snapshot, raw: &mut Vec<Finding>)
    ensures
        views(final(raw)@) == views(old(raw)@) + display_findings(*s) + uptime_findings(*s),
{
    match s.external_displays {
        Some(count) => {
            if count > 0 {
                let mut title = decimal(count as u64);
                push_lit(&mut title, " external display");
                push_plural(&mut title, count, "s");
                push_lit(&mut title, " connected");
                add_new(
                    raw,
                    Severity::Cool,
                    &title,
                    &lit(
                        "External displays increase display-engine and WindowServer work. High resolution, HDR, scaling, and high refresh rates add more load.",
                    ),
                );
            }
        },
        None => {},
    }
    let ghost part = views(old(raw)@) + display_findings(*s);
    assert(views(raw@) =~= part);
    if s.uptime_secs >= 14 * DAY_SECS {
        let mut title = lit("Mac has been running for ");
        let d = duration_chars(s.uptime_secs);
        append_chars(&mut title, &d);
        add_new(
            raw,
            Severity::Cool,
            &title,
            &lit(
                "Long uptime is not inherently harmful, but restarting can clear stuck background services if the heat has no other explanation.",
            ),
        );
    }
    assert(views(raw@) =~= part + uptime_findings(*s));
}

fn push_fallback(raw: &mut Vec<Finding>)
    ensures
        views(final(raw)@) == with_fallback(views(old(raw)@)),
{
    let ghost part = views(raw@);
    let mut any_heat = false;
    let mut i: usize = 0;
    while i < raw.len()
        invariant
            i <= raw.len(),
            any_heat == exists|k: int| 0 <= k < i && (#[trigger] raw@[k]).severity != Severity::Cool,
        decreases raw.len() - i,
    {
        if raw[i].severity != Severity::Cool {
            any_heat = true;
        }
        i += 1;
    }
    proof {
        if !any_heat {
            assert forall|k: int| 0 <= k < part.len() implies (#[trigger] part[k]).0
                == Severity::Cool by {
                assert(part[k] == raw@[k]@);
            }
        } else {
            let k = choose|k: int| 0 <= k < i && (#[trigger] raw@[k]).severity != Severity::Cool;
            assert(part[k] == raw@[k]@);
        }
    }
    if !any_heat {
        add_lits(
            raw,
            Severity::Cool,
            "No obvious software heat source",
            "Software cannot sense blocked vents, a soft surface, direct sun, or high room temperature. Move the Mac to a hard ventilated surface, disconnect unneeded docks, and check whether it cools.",
        );
    }
}

/// Explains the snapshot: one finding per busy application (at most five),
/// then findings on overall CPU, charging, thermal state, memory, battery,
/// displays and uptime, with a fallback when nothing is warm or hot; ordered
/// hot, warm, cool, each group in rule order.
pub fn diagnose(snapshot: &Snapshot) -> (r: Vec<Finding>)
    ensures
        views(r@) == diagnosis_of(*snapshot),
{
    let s = snapshot;
    let mut raw: Vec<Finding> = Vec::new();
    assert(views(raw@) == Seq::<FindingView>::empty());
    push_application_findings(s, &mut raw);
    push_cpu_findings(s, &mut raw);
    push_power_findings(s, &mut raw);
    push_battery_findings(s, &mut raw);
    push_setup_findings(s, &mut raw);
    assert(views(raw@) =~= raw_findings(*s));
    push_fallback(&mut raw);
    let mut sorted: Vec<Finding> = Vec::new();
    keep_into(&raw, Severity::Hot, &mut sorted);
    keep_into(&raw, Severity::Warm, &mut sorted);
    keep_into(&raw, Severity::Cool, &mut sorted);
    assert(views(sorted@) =~= by_severity(views(raw@)));
    sorted
}


// ---------------------------------------------------------------------------
// Overall severity
// ---------------------------------------------------------------------------

/// Some finding has severity `sev`.
pub open spec fn has_severity(fs: Seq<FindingView>, sev: Severity) -> bool {
    exists|i: int| 0 <= i < fs.len() && (#[trigger] fs[i]).0 == sev
}

/// The most severe severity among the findings; cool when there are none.
pub open spec fn overall_of(fs: Seq<FindingView>) -> Severity {
    if has_severity(fs, Severity::Hot) {
        Severity::Hot
    } else if has_severity(fs, Severity::Warm) {
        Severity::Warm
    } else {
        Severity::Cool
    }
}

/// The most severe severity among the findings; cool when there are none.
pub fn overall(findings: &[Finding]) -> (r: Severity)
    ensures
        r == overall_of(views(findings@)),
{
    let ghost fs = views(findings@);
    let mut hot = false;
    let mut warm = false;
    let mut i: usize = 0;
    while i < findings.len()
        invariant
            i <= findings.len(),
            fs == views(findings@),
            hot == exists|k: int| 0 <= k < i && (#[trigger] fs[k]).0 == Severity::Hot,
            warm == exists|k: int| 0 <= k < i && (#[trigger] fs[k]).0 == Severity::Warm,
        decreases findings.len() - i,
    {
        assert(fs[i as int] == findings@[i as int]@);
        match findings[i].severity {
            Severity::Hot => {
                hot = true;
            },
            Severity::Warm => {
                warm = true;
            },
            Severity::Cool => {},
        }
        i += 1;
    }
    if hot {
        Severity::Hot
    } else if warm {
        Severity::Warm
    } else {
        Severity::Cool
    }
}

/// How severe a severity is: cool 0, warm 1, hot 2.
pub open spec fn rank(s: Severity) -> int {
    match s {
        Severity::Cool => 0,
        Severity::Warm => 1,
        Severity::Hot => 2,
    }
}

proof fn lemma_keep(fs: Seq<FindingView>, sev: Severity)
    ensures
        forall|i: int| 0 <= i < keep(fs, sev).len() ==> (#[trigger] keep(fs, sev)[i]).0 == sev,
        forall|i: int| 0 <= i < keep(fs, sev).len() ==> fs.contains(#[trigger] keep(fs, sev)[i]),
        has_severity(fs, sev) <==> keep(fs, sev).len() > 0,
    decreases fs.len(),
{
    if fs.len() > 0 {
        lemma_keep(fs.drop_first(), sev);
        let k = keep(fs, sev);
        let t = keep(fs.drop_first(), sev);
        assert forall|i: int| 0 <= i < k.len() implies fs.contains(#[trigger] k[i]) by {
            if fs[0].0 == sev {
                if i == 0 {
                    assert(fs[0] == k[0]);
                } else {
                    assert(k[i] == t[i - 1]);
                    let j = choose|j: int| 0 <= j < fs.drop_first().len() && fs.drop_first()[j] == t[i - 1];
                    assert(fs[j + 1] == k[i]);
                }
            } else {
                let j = choose|j: int| 0 <= j < fs.drop_first().len() && fs.drop_first()[j] == t[i];
                assert(fs[j + 1] == k[i]);
            }
        }
        if has_severity(fs, sev) {
            let j = choose|j: int| 0 <= j < fs.len() && (#[trigger] fs[j]).0 == sev;
            if j > 0 && fs[0].0 != sev {
                assert(fs.drop_first()[j - 1].0 == sev);
            }
        }
        if has_severity(fs.drop_first(), sev) {
            let j = choose|j: int| 0 <= j < fs.drop_first().len() && (#[trigger] fs.drop_first()[j]).0 == sev;
            assert(fs[j + 1].0 == sev);
        }
        if fs[0].0 == sev {
            assert(fs[0].0 == sev);
        }
    }
}

proof fn lemma_by_severity(fs: Seq<FindingView>)
    ensures
        forall|i: int, j: int|
            0 <= i < j < by_severity(fs).len() ==> rank(#[trigger] by_severity(fs)[i].0) >= rank(
                #[trigger] by_severity(fs)[j].0,
            ),
        overall_of(by_severity(fs)) == overall_of(fs),
        forall|i: int| 0 <= i < by_severity(fs).len() ==> fs.contains(#[trigger] by_severity(fs)[i]),
        fs.len() > 0 ==> by_severity(fs).len() > 0,
{
    lemma_keep(fs, Severity::Hot);
    lemma_keep(fs, Severity::Warm);
    lemma_keep(fs, Severity::Cool);
    let h = keep(fs, Severity::Hot);
    let w = keep(fs, Severity::Warm);
    let c = keep(fs, Severity::Cool);
    let r = by_severity(fs);
    assert forall|i: int| 0 <= i < r.len() implies (i < h.len() ==> (#[trigger] r[i]).0
        == Severity::Hot) && (h.len() <= i < h.len() + w.len() ==> r[i].0 == Severity::Warm) && (h.len()
        + w.len() <= i ==> r[i].0 == Severity::Cool) && fs.contains(r[i]) by {
        if i < h.len() {
            assert(r[i] == h[i]);
        } else if i < h.len() + w.len() {
            assert(r[i] == w[i - h.len()]);
        } else {
            assert(r[i] == c[i - h.len() - w.len()]);
        }
    }
    if has_severity(fs, Severity::Hot) {
        assert(r[0] == h[0]);
    } else if has_severity(fs, Severity::Warm) {
        assert(r[h.len() as int] == w[0]);
        assert(!has_severity(r, Severity::Hot));
    } else {
        assert(!has_severity(r, Severity::Hot));
        assert(!has_severity(r, Severity::Warm));
    }
    if fs.len() > 0 {
        let s0 = fs[0].0;
        assert(has_severity(fs, s0));
    }
}

proof fn lemma_first_noteworthy(apps: Seq<ApplicationRow>, k: nat)
    ensures
        forall|i: int|
            0 <= i < first_noteworthy(apps, k).len() ==> apps.contains(
                #[trigger] first_noteworthy(apps, k)[i],
            ),
    decreases apps.len(),
{
    if apps.len() > 0 && k > 0 {
        let rest = apps.drop_first();
        if noteworthy(apps[0]) {
            lemma_first_noteworthy(rest, (k - 1) as nat);
            let f = first_noteworthy(apps, k);
            let t = first_noteworthy(rest, (k - 1) as nat);
            assert forall|i: int| 0 <= i < f.len() implies apps.contains(#[trigger] f[i]) by {
                if i == 0 {
                    assert(apps[0] == f[0]);
                } else {
                    assert(f[i] == t[i - 1]);
                    let j = choose|j: int| 0 <= j < rest.len() && rest[j] == t[i - 1];
                    assert(apps[j + 1] == f[i]);
                }
            }
        } else {
            lemma_first_noteworthy(rest, k);
            let f = first_noteworthy(apps, k);
            assert(f == first_noteworthy(rest, k));
            assert forall|i: int| 0 <= i < f.len() implies apps.contains(#[trigger] f[i]) by {
                assert(rest.contains(first_noteworthy(rest, k)[i]));
                let j = choose|j: int| 0 <= j < rest.len() && rest[j] == f[i];
                assert(apps[j + 1] == f[i]);
            }
        }
    }
}

/// A diagnosis is never empty, and lists hot findings first, then warm, then
/// cool; its overall severity is that of the findings the rules produced.
pub proof fn diagnosis_is_ordered(s: Snapshot)
    ensures
        diagnosis_of(s).len() > 0,
        forall|i: int, j: int|
            0 <= i < j < diagnosis_of(s).len() ==> rank(#[trigger] diagnosis_of(s)[i].0) >= rank(
                #[trigger] diagnosis_of(s)[j].0,
            ),
        overall_of(diagnosis_of(s)) == overall_of(with_fallback(raw_findings(s))),
{
    let fs = with_fallback(raw_findings(s));
    lemma_by_severity(fs);
}

/// Nothing is reported hot until a high reading has persisted for three
/// samples: with no thermal pressure reported, a diagnosis is hot only when
/// overall CPU or some application has been active for three samples.
pub proof fn hot_needs_three_samples(s: Snapshot)
    requires
        s.cpu_active_samples < 3,
        forall|i: int| 0 <= i < s.applications@.len() ==> (#[trigger] s.applications@[i]).active_samples < 3,
        s.thermal_state != Some(ThermalState::Warning),
        s.thermal_state != Some(ThermalState::Throttled),
    ensures
        overall_of(diagnosis_of(s)) != Severity::Hot,
{
    let raw = raw_findings(s);
    let fs = with_fallback(raw);
    lemma_by_severity(fs);
    lemma_first_noteworthy(s.applications@, 5);
    let chosen = first_noteworthy(s.applications@, 5);
    let a = application_findings(s);
    assert forall|i: int| 0 <= i < a.len() implies (#[trigger] a[i]).0 != Severity::Hot by {
        let app = chosen[i];
        let j = choose|j: int| 0 <= j < s.applications@.len() && s.applications@[j] == app;
        assert(s.applications@[j].active_samples < 3);
    }
    assert forall|i: int| 0 <= i < raw.len() implies (#[trigger] raw[i]).0 != Severity::Hot by {
        if i >= a.len() {
            match s.thermal_state {
                Some(ThermalState::Normal) => {},
                _ => {},
            }
        }
    }
    assert(!has_severity(fs, Severity::Hot));
}

/// Thermal pressure or throttling reported by macOS makes the diagnosis hot.
pub proof fn thermal_pressure_is_hot(s: Snapshot)
    requires
        s.thermal_state == Some(ThermalState::Warning) || s.thermal_state == Some(ThermalState::Throttled),
    ensures
        overall_of(diagnosis_of(s)) == Severity::Hot,
{
    let raw = raw_findings(s);
    let fs = with_fallback(raw);
    lemma_by_severity(fs);
    let k = (application_findings(s).len() + cpu_findings(s).len() + charging_findings(s).len()) as int;
    assert(raw[k].0 == Severity::Hot);
    assert(!all_cool(raw));
    assert(has_severity(fs, Severity::Hot));
}

/// When no rule finds warmth or heat, the diagnosis is cool and says that no
/// software heat source is obvious.
pub proof fn quiet_diagnosis_has_fallback(s: Snapshot)
    requires
        all_cool(raw_findings(s)),
    ensures
        overall_of(diagnosis_of(s)) == Severity::Cool,
        diagnosis_of(s).contains(fallback_finding()),
{
    let fs = with_fallback(raw_findings(s));
    lemma_by_severity(fs);
    lemma_keep(fs, Severity::Hot);
    lemma_keep(fs, Severity::Warm);
    lemma_keep(fs, Severity::Cool);
    assert(!has_severity(fs, Severity::Hot));
    assert(!has_severity(fs, Severity::Warm));
    let n = fs.len() - 1;
    assert(fs[n] == fallback_finding());
    let h = keep(fs, Severity::Hot);
    let w = keep(fs, Severity::Warm);
    let c = keep(fs, Severity::Cool);
    assert(h.len() == 0);
    assert(w.len() == 0);
    assert(diagnosis_of(s) == h + w + c);
    lemma_keep_contains(fs, Severity::Cool, n);
    let j = choose|j: int| 0 <= j < c.len() && c[j] == fallback_finding();
    assert(diagnosis_of(s)[j] == fallback_finding());
}

proof fn lemma_keep_contains(fs: Seq<FindingView>, sev: Severity, n: int)
    requires
        0 <= n < fs.len(),
        fs[n].0 == sev,
    ensures
        keep(fs, sev).contains(fs[n]),
    decreases fs.len(),
{
    if n == 0 {
        assert(keep(fs, sev)[0] == fs[0]);
    } else {
        lemma_keep_contains(fs.drop_first(), sev, n - 1);
        let t = keep(fs.drop_first(), sev);
        let j = choose|j: int| 0 <= j < t.len() && t[j] == fs[n];
        if fs[0].0 == sev {
            assert(keep(fs, sev)[j + 1] == fs[n]);
        } else {
            assert(keep(fs, sev)[j] == fs[n]);
        }
    }
}

proof fn lemma_keep_permutes(fs: Seq<FindingView>)
    ensures
        by_severity(fs).to_multiset() == fs.to_multiset(),
    decreases fs.len(),
{
    broadcast use vstd::seq_lib::group_to_multiset_ensures;
    broadcast use vstd::seq_lib::lemma_multiset_commutative;

    if fs.len() == 0 {
        assert(by_severity(fs) =~= fs);
    } else {
        let f = fs[0];
        let r = fs.drop_first();
        lemma_keep_permutes(r);
        assert(fs =~= seq![f] + r);
        assert(seq![f] =~= Seq::<FindingView>::empty().push(f));
        let h = keep(fs, Severity::Hot);
        let w = keep(fs, Severity::Warm);
        let c = keep(fs, Severity::Cool);
        let rh = keep(r, Severity::Hot);
        let rw = keep(r, Severity::Warm);
        let rc = keep(r, Severity::Cool);
        assert((h + w + c).to_multiset() =~= h.to_multiset().add(w.to_multiset()).add(c.to_multiset()));
        assert((rh + rw + rc).to_multiset() =~= rh.to_multiset().add(rw.to_multiset()).add(rc.to_multiset()));
        match f.0 {
            Severity::Hot => {
                assert(h == seq![f] + rh);
                assert(w == rw && c == rc);
            },
            Severity::Warm => {
                assert(w == seq![f] + rw);
                assert(h == rh && c == rc);
            },
            Severity::Cool => {
                assert(c == seq![f] + rc);
                assert(h == rh && w == rw);
            },
        }
        assert(by_severity(fs).to_multiset() =~= fs.to_multiset());
    }
}

/// The diagnosis reports every finding the rules produce and nothing else:
/// ordering by severity only rearranges them.
pub proof fn diagnosis_keeps_every_finding(s: Snapshot)
    ensures
        diagnosis_of(s).to_multiset() == with_fallback(raw_findings(s)).to_multiset(),
        forall|f: FindingView| #[trigger] raw_findings(s).contains(f) ==> diagnosis_of(s).contains(f),
{
    broadcast use vstd::seq_lib::group_to_multiset_ensures;

    let raw = raw_findings(s);
    let fs = with_fallback(raw);
    lemma_keep_permutes(fs);
    assert forall|f: FindingView| #[trigger] raw.contains(f) implies diagnosis_of(s).contains(f) by {
        let i = choose|i: int| 0 <= i < raw.len() && raw[i] == f;
        assert(fs[i] == f);
        assert(fs.contains(f));
        assert(fs.to_multiset().count(f) > 0);
        assert(diagnosis_of(s).to_multiset().count(f) > 0);
    }
}

/// A finding of any one rule is among the rules' findings.
proof fn lemma_in_raw(s: Snapshot, f: FindingView)
    requires
        application_findings(s).contains(f) || cpu_findings(s).contains(f) || charging_findings(s).contains(f)
            || thermal_findings(s).contains(f) || memory_findings(s).contains(f) || capacity_findings(s).contains(f)
            || condition_findings(s).contains(f) || display_findings(s).contains(f) || uptime_findings(s).contains(f),
    ensures
        raw_findings(s).contains(f),
{
    broadcast use vstd::seq_lib::lemma_seq_concat_contains_all_elements;

}

/// A finding the rules produce is in the diagnosis, and the overall severity
/// is at least its own.
proof fn lemma_reported(s: Snapshot, f: FindingView)
    requires
        raw_findings(s).contains(f),
    ensures
        diagnosis_of(s).contains(f),
        f.0 == Severity::Hot ==> overall_of(diagnosis_of(s)) == Severity::Hot,
        f.0 == Severity::Warm ==> overall_of(diagnosis_of(s)) != Severity::Cool,
{
    let raw = raw_findings(s);
    let fs = with_fallback(raw);
    diagnosis_keeps_every_finding(s);
    lemma_by_severity(fs);
    let i = choose|i: int| 0 <= i < raw.len() && raw[i] == f;
    assert(fs[i] == f);
    assert(has_severity(fs, f.0));
}

/// A noteworthy application with fewer than `k` noteworthy ones before it is
/// among the first `k` noteworthy applications.
proof fn lemma_first_noteworthy_has(apps: Seq<ApplicationRow>, k: nat, i: int)
    requires
        0 <= i < apps.len(),
        noteworthy(apps[i]),
        first_noteworthy(apps.take(i), k).len() < k,
    ensures
        first_noteworthy(apps, k).contains(apps[i]),
    decreases i,
{
    if i == 0 {
        assert(first_noteworthy(apps, k)[0] == apps[0]);
    } else {
        let t = apps.take(i);
        let rest = apps.drop_first();
        assert(t.drop_first() =~= rest.take(i - 1));
        assert(rest[i - 1] == apps[i]);
        if noteworthy(apps[0]) {
            lemma_first_noteworthy_has(rest, (k - 1) as nat, i - 1);
            let f = first_noteworthy(rest, (k - 1) as nat);
            let j = choose|j: int| 0 <= j < f.len() && f[j] == apps[i];
            assert(first_noteworthy(apps, k)[j + 1] == apps[i]);
        } else {
            lemma_first_noteworthy_has(rest, k, i - 1);
        }
    }
}

/// Overall CPU at 50% makes the diagnosis at least warm; at 80%, persisting
/// for three samples, hot.
pub proof fn overall_cpu_thresholds(s: Snapshot)
    ensures
        s.cpu_hundredths >= 5000 ==> overall_of(diagnosis_of(s)) != Severity::Cool,
        s.cpu_hundredths >= 8000 && s.cpu_active_samples >= 3 ==> overall_of(diagnosis_of(s)) == Severity::Hot,
{
    let c = cpu_findings(s);
    if s.cpu_hundredths >= 5000 {
        assert(c.contains(c[0]));
        lemma_in_raw(s, c[0]);
        lemma_reported(s, c[0]);
    }
}

/// An application at 50% CPU or above 10 MiB/s of disk I/O, with fewer than five
/// such applications before it, gets a finding of its own in the diagnosis: warm,
/// or hot once 90% CPU or 50 MiB/s has persisted for three samples.
pub proof fn busy_application_is_reported(s: Snapshot, i: int)
    requires
        0 <= i < s.applications@.len(),
        s.applications@[i].cpu_hundredths >= 5000 || s.applications@[i].io_bytes_per_sec > 10 * MIB,
        first_noteworthy(s.applications@.take(i), 5).len() < 5,
    ensures
        diagnosis_of(s).contains(app_finding(s.applications@[i])),
        app_finding(s.applications@[i]).0 == (if s.applications@[i].active_samples >= 3 && (
        s.applications@[i].cpu_hundredths >= 9000 || s.applications@[i].io_bytes_per_sec >= 50 * MIB) {
            Severity::Hot
        } else {
            Severity::Warm
        }),
        overall_of(diagnosis_of(s)) != Severity::Cool,
{
    let app = s.applications@[i];
    lemma_first_noteworthy_has(s.applications@, 5, i);
    let chosen = first_noteworthy(s.applications@, 5);
    let j = choose|j: int| 0 <= j < chosen.len() && chosen[j] == app;
    let a = application_findings(s);
    assert(a[j] == app_finding(app));
    assert(a.contains(app_finding(app)));
    lemma_in_raw(s, app_finding(app));
    lemma_reported(s, app_finding(app));
}

/// Charging, and memory use above 90%, are noted as warm contributing
/// factors.
pub proof fn contributing_factors_are_noted(s: Snapshot)
    ensures
        s.charging == Some(true) ==> charging_findings(s).len() == 1 && charging_findings(s)[0].0
            == Severity::Warm && diagnosis_of(s).contains(charging_findings(s)[0]),
        s.memory_hundredths > 9000 ==> memory_findings(s).len() == 1 && memory_findings(s)[0].0
            == Severity::Warm && diagnosis_of(s).contains(memory_findings(s)[0]),
{
    let ch = charging_findings(s);
    let m = memory_findings(s);
    if s.charging == Some(true) {
        assert(ch.contains(ch[0]));
        lemma_in_raw(s, ch[0]);
        lemma_reported(s, ch[0]);
    }
    if s.memory_hundredths > 9000 {
        assert(m.contains(m[0]));
        lemma_in_raw(s, m[0]);
        lemma_reported(s, m[0]);
    }
}

/// A battery below 80% of its design capacity, or with a service condition
/// other than normal, is flagged as warm.
pub proof fn battery_problems_are_flagged(s: Snapshot)
    ensures
        (s.battery_max_capacity matches Some(c) && c < 80) ==> capacity_findings(s).len() == 1
            && capacity_findings(s)[0].0 == Severity::Warm && diagnosis_of(s).contains(capacity_findings(s)[0]),
        (s.battery_condition matches Some(c) && !eq_ignore_ascii_case(c@, "normal"@)) ==> condition_findings(s).len()
            == 1 && condition_findings(s)[0].0 == Severity::Warm && diagnosis_of(s).contains(
            condition_findings(s)[0],
        ),
{
    let cap = capacity_findings(s);
    let cond = condition_findings(s);
    if cap.len() == 1 {
        assert(cap.contains(cap[0]));
        lemma_in_raw(s, cap[0]);
        lemma_reported(s, cap[0]);
    }
    if cond.len() == 1 {
        assert(cond.contains(cond[0]));
        lemma_in_raw(s, cond[0]);
        lemma_reported(s, cond[0]);
    }
}

/// External displays and an uptime of two weeks or more are reported as
/// possible contributors, without raising the severity.
pub proof fn setup_contributors_are_reported(s: Snapshot)
    ensures
        (s.external_displays matches Some(n) && n > 0) ==> display_findings(s).len() == 1
            && display_findings(s)[0].0 == Severity::Cool && diagnosis_of(s).contains(display_findings(s)[0]),
        s.uptime_secs >= 14 * DAY_SECS ==> uptime_findings(s).len() == 1 && uptime_findings(s)[0].0
            == Severity::Cool && diagnosis_of(s).contains(uptime_findings(s)[0]),
{
    let d = display_findings(s);
    let u = uptime_findings(s);
    if d.len() == 1 {
        assert(d.contains(d[0]));
        lemma_in_raw(s, d[0]);
        lemma_reported(s, d[0]);
    }
    if u.len() == 1 {
        assert(u.contains(u[0]));
        lemma_in_raw(s, u[0]);
        lemma_reported(s, u[0]);
    }
}

/// Durations cut leftover time rather than round it: seconds never show, and
/// from a day on, neither do minutes.
pub proof fn duration_truncates(seconds: nat)
    ensures
        duration_text(seconds) == duration_text((seconds - seconds % 60) as nat),
        seconds >= DAY_SECS ==> duration_text(seconds) == duration_text((seconds - seconds % 3_600) as nat),
{
    let m = (seconds - seconds % 60) as nat;
    assert(m / 86_400 == seconds / 86_400 && m % 86_400 / 3_600 == seconds % 86_400 / 3_600
        && m % 3_600 / 60 == seconds % 3_600 / 60) by (nonlinear_arith)
        requires
            m == seconds - seconds % 60,
    {
        assert(seconds % 60 < 60);
    }
    let h = (seconds - seconds % 3_600) as nat;
    assert(h / 86_400 == seconds / 86_400 && h % 86_400 / 3_600 == seconds % 86_400 / 3_600)
        by (nonlinear_arith)
        requires
            h == seconds - seconds % 3_600,
    {
        assert(seconds % 3_600 < 3_600);
    }
}

/// Browsers are known workloads: a lowercased name mentioning Safari, WebKit,
/// Chrome, Chromium or Firefox always names a known workload, and unless an
/// earlier one (thermal management, Spotlight, Photos, backups, updates,
/// iCloud, WindowServer, video encoding, virtual machines) matches first, it
/// is busy browser content. An application at 20% CPU under such a name is
/// therefore explained.
pub proof fn browsers_are_known_workloads(v: Seq<char>, app: ApplicationRow)
    ensures
        (has_sub(v, "safari"@) || has_sub(v, "webkit"@) || has_sub(v, "chrome"@) || has_sub(v, "firefox"@))
            ==> workload_in(v) is Some,
        (has_sub(v, "safari"@) || has_sub(v, "webkit"@) || has_sub(v, "chrome"@) || has_sub(v, "firefox"@))
            && !has_sub(v, "kernel_task"@) && !has_sub(v, "mds"@) && !has_sub(v, "mdworker"@)
            && !has_sub(v, "corespotlight"@) && !has_sub(v, "photoanalysisd"@) && !has_sub(v, "photolibraryd"@)
            && !has_sub(v, "mediaanalysisd"@) && !has_sub(v, "backupd"@) && !has_sub(v, "time machine"@)
            && !has_sub(v, "softwareupdated"@) && !has_sub(v, "installd"@) && !has_sub(v, "osinstall"@)
            && !has_sub(v, "bird"@) && !has_sub(v, "cloudd"@) && !has_sub(v, "icloud"@)
            && !has_sub(v, "windowserver"@) && !has_sub(v, "vtencoder"@) && !has_sub(v, "ffmpeg"@)
            && !has_sub(v, "handbrake"@) && !has_sub(v, "com.apple.videotoolbox"@) && !has_sub(v, "qemu"@)
            && !has_sub(v, "virtualization"@) && !has_sub(v, "parallels"@) && !has_sub(v, "vmware"@)
            && !has_sub(v, "docker desktop"@) ==> workload_in(v).unwrap().0 == "Browser content is busy"@,
        app.cpu_hundredths >= 2000 && (has_sub(lowercase(app.name@), "safari"@) || has_sub(lowercase(app.name@), "webkit"@)
            || has_sub(lowercase(app.name@), "chrome"@) || has_sub(lowercase(app.name@), "firefox"@)) ==> noteworthy(app),
{
}

} // verus!

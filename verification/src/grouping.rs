//! Naming the application that owns each process.

use vstd::prelude::*;

use crate::model::{ApplicationRow, ProcessRow};
use crate::order::{ascending, lemma_lex, lex_less, lex_lt, sort_ascending};
use crate::text::{chars_of, find_chars, find_sub, has_sub, contains_str, lit, lowercase, slice_chars, to_lowercase, string_of, append_chars};

verus! {

/// Where the application bundle part of a command line ends: at the first
/// `.app/`, or else at the first `.app`.
pub open spec fn bundle_end(c: Seq<char>) -> Option<int> {
    match find_sub(c, ".app/"@) {
        Some(i) => Some(i),
        None => find_sub(c, ".app"@),
    }
}

/// The part of `p` after its last `sep` (all of `p` when there is none).
pub open spec fn after_last(p: Seq<char>, sep: char) -> Seq<char>
    decreases p.len(),
{
    if p.len() == 0 {
        p
    } else if p.last() == sep {
        seq![]
    } else {
        after_last(p.drop_last(), sep).push(p.last())
    }
}

/// The application bundle a command line runs from: the last path component
/// before `.app`, when there is one and it is not empty.
pub open spec fn bundle_name(c: Seq<char>) -> Option<Seq<char>> {
    match bundle_end(c) {
        Some(e) => {
            let seg = after_last(c.take(e), '/');
            if seg.len() > 0 {
                Some(seg)
            } else {
                None
            }
        },
        None => None,
    }
}

proof fn lemma_after_last(p: Seq<char>, sep: char, j: int)
    requires
        -1 <= j < p.len(),
        j >= 0 ==> p[j] == sep,
        forall|k: int| j < k < p.len() ==> #[trigger] p[k] != sep,
    ensures
        after_last(p, sep) == p.skip(j + 1),
    decreases p.len(),
{
    if p.len() > 0 {
        if p.last() == sep {
            assert(j == p.len() - 1);
        } else {
            lemma_after_last(p.drop_last(), sep, j);
            assert(p.drop_last().skip(j + 1).push(p.last()) == p.skip(j + 1));
        }
    }
}

fn after_last_slash(p: &[char]) -> (r: Vec<char>)
    ensures
        r@ == after_last(p@, '/'),
{
    let mut k = p.len();
    while k > 0 && p[k - 1] != '/'
        invariant
            k <= p.len(),
            forall|i: int| k <= i < p.len() ==> #[trigger] p@[i] != '/',
        decreases k,
    {
        k -= 1;
    }
    proof {
        lemma_after_last(p@, '/', k - 1);
    }
    slice_chars(p, k, p.len())
}

/// The application bundle a command line runs from.
pub fn app_bundle_name(command: &[char]) -> (r: Option<Vec<char>>)
    ensures
        match r {
            Some(n) => bundle_name(command@) == Some(n@),
            None => bundle_name(command@) is None,
        },
{
    let end = match find_chars(command, &lit(".app/")) {
        Some(i) => i,
        None => match find_chars(command, &lit(".app")) {
            Some(i) => i,
            None => {
                return None;
            },
        },
    };
    proof {
        match find_sub(command@, ".app/"@) {
            Some(i) => {},
            None => {},
        }
    }
    assert(end <= command.len()) by {
        let n = if find_sub(command@, ".app/"@) is Some {
            ".app/"@
        } else {
            ".app"@
        };
        assert(crate::text::first_at(command@, n, end as int));
    }
    let prefix = slice_chars(command, 0, end);
    assert(prefix@ == command@.take(end as int));
    let seg = after_last_slash(&prefix);
    if seg.len() > 0 {
        Some(seg)
    } else {
        None
    }
}


/// The last process in `rows` with the given PID (as a map collected from
/// the rows keeps the last).
pub open spec fn lookup(rows: Seq<ProcessRow>, pid: u32) -> Option<ProcessRow>
    decreases rows.len(),
{
    if rows.len() == 0 {
        None
    } else if rows.last().pid == pid {
        Some(rows.last())
    } else {
        lookup(rows.drop_last(), pid)
    }
}

fn find_process(rows: &[ProcessRow], pid: u32) -> (r: Option<usize>)
    ensures
        match r {
            Some(i) => i < rows.len() && lookup(rows@, pid) == Some(rows@[i as int]),
            None => lookup(rows@, pid) is None,
        },
{
    let mut k = rows.len();
    assert(rows@.take(k as int) == rows@);
    while k > 0
        invariant
            k <= rows.len(),
            lookup(rows@, pid) == lookup(rows@.take(k as int), pid),
        decreases k,
    {
        let ghost t = rows@.take(k as int);
        assert(t.drop_last() == rows@.take(k - 1));
        if rows[k - 1].pid == pid {
            return Some(k - 1);
        }
        k -= 1;
    }
    None
}

/// The name given to a WebKit process: the bundle of the nearest of up to
/// `steps` ancestors that runs from one, else `Safari/WebKit`.
pub open spec fn webkit_owner(rows: Seq<ProcessRow>, parent: Option<u32>, steps: nat) -> Seq<char>
    decreases steps,
{
    if steps == 0 {
        "Safari/WebKit"@
    } else {
        match parent {
            None => "Safari/WebKit"@,
            Some(pid) => match lookup(rows, pid) {
                None => "Safari/WebKit"@,
                Some(a) => match bundle_name(a.command@) {
                    Some(n) => n,
                    None => webkit_owner(rows, a.parent_pid, (steps - 1) as nat),
                },
            },
        }
    }
}

/// The application a process belongs to: Chrome and Firefox helpers by name,
/// WebKit processes by their ancestors' bundle, others by their own bundle,
/// else the process name.
pub open spec fn app_name_of(rows: Seq<ProcessRow>, p: ProcessRow) -> Seq<char> {
    app_name_in(rows, p, lowercase(p.name@ + " "@ + p.command@))
}

/// The application a process belongs to, given its name and command line
/// lowercased.
pub open spec fn app_name_in(rows: Seq<ProcessRow>, p: ProcessRow, lower: Seq<char>) -> Seq<char> {
    if has_sub(lower, "google chrome"@) {
        "Google Chrome"@
    } else if has_sub(lower, "firefox"@) {
        "Firefox"@
    } else if has_sub(lower, "webkit"@) {
        webkit_owner(rows, p.parent_pid, 8)
    } else {
        match bundle_name(p.command@) {
            Some(n) => n,
            None => p.name@,
        }
    }
}

/// The application a process belongs to.
pub fn application_name(process: &ProcessRow, rows: &[ProcessRow]) -> (r: Vec<char>)
    ensures
        r@ == app_name_of(rows@, *process),
{
    let mut value = chars_of(process.name.as_str());
    append_chars(&mut value, &lit(" "));
    append_chars(&mut value, &chars_of(process.command.as_str()));
    let lower = to_lowercase(string_of(&value).as_str());
    application_name_from_lowercase(process, rows, &chars_of(lower.as_str()))
}

/// The application a process belongs to, given its name and command line
/// lowercased: `google chrome` and `firefox` name their browser; a `webkit`
/// process takes the bundle of the nearest of up to eight ancestors that runs
/// from one, else `Safari/WebKit`; any other process its own bundle, else its
/// name.
pub fn application_name_from_lowercase(process: &ProcessRow, rows: &[ProcessRow], lower: &[char]) -> (r: Vec<char>)
    ensures
        r@ == app_name_in(rows@, *process, lower@),
{
    if contains_str(lower, "google chrome") {
        return lit("Google Chrome");
    }
    if contains_str(lower, "firefox") {
        return lit("Firefox");
    }
    if contains_str(lower, "webkit") {
        let mut parent = process.parent_pid;
        let mut steps: usize = 8;
        while steps > 0
            invariant
                steps <= 8,
                webkit_owner(rows@, parent, steps as nat) == app_name_in(rows@, *process, lower@),
            ensures
                webkit_owner(rows@, parent, steps as nat) == app_name_in(rows@, *process, lower@),
                webkit_owner(rows@, parent, steps as nat) == "Safari/WebKit"@,
            decreases steps,
        {
            let pid = match parent {
                Some(pid) => pid,
                None => {
                    break;
                },
            };
            let k = match find_process(rows, pid) {
                Some(k) => k,
                None => {
                    break;
                },
            };
            let command = chars_of(rows[k].command.as_str());
            match app_bundle_name(&command) {
                Some(name) => {
                    return name;
                },
                None => {},
            }
            parent = rows[k].parent_pid;
            steps -= 1;
        }
        return lit("Safari/WebKit");
    }
    let command = chars_of(process.command.as_str());
    match app_bundle_name(&command) {
        Some(name) => name,
        None => chars_of(process.name.as_str()),
    }
}


// ---------------------------------------------------------------------------
// Grouping processes into applications
// ---------------------------------------------------------------------------

/// Process `k` belongs to the application named `n`.
pub open spec fn in_group(rows: Seq<ProcessRow>, k: int, n: Seq<char>) -> bool {
    app_name_of(rows, rows[k]) == n
}

/// The PIDs of the first `k` processes that belong to `n`, in order.
pub open spec fn group_pids(rows: Seq<ProcessRow>, n: Seq<char>, k: nat) -> Seq<u32>
    decreases k,
{
    if k == 0 {
        seq![]
    } else if in_group(rows, k - 1, n) {
        group_pids(rows, n, (k - 1) as nat).push(rows[k - 1].pid)
    } else {
        group_pids(rows, n, (k - 1) as nat)
    }
}

/// The summed CPU use of the first `k` processes that belong to `n`.
pub open spec fn group_cpu(rows: Seq<ProcessRow>, n: Seq<char>, k: nat) -> nat
    decreases k,
{
    if k == 0 {
        0
    } else {
        group_cpu(rows, n, (k - 1) as nat) + if in_group(rows, k - 1, n) {
            rows[k - 1].cpu_hundredths as nat
        } else {
            0
        }
    }
}

/// The summed memory of the first `k` processes that belong to `n`.
pub open spec fn group_memory(rows: Seq<ProcessRow>, n: Seq<char>, k: nat) -> nat
    decreases k,
{
    if k == 0 {
        0
    } else {
        group_memory(rows, n, (k - 1) as nat) + if in_group(rows, k - 1, n) {
            rows[k - 1].memory_bytes as nat
        } else {
            0
        }
    }
}

/// The summed disk rate of the first `k` processes that belong to `n`.
pub open spec fn group_io(rows: Seq<ProcessRow>, n: Seq<char>, k: nat) -> nat
    decreases k,
{
    if k == 0 {
        0
    } else {
        group_io(rows, n, (k - 1) as nat) + if in_group(rows, k - 1, n) {
            rows[k - 1].io_bytes_per_sec as nat
        } else {
            0
        }
    }
}

/// The longest runtime among the first `k` processes that belong to `n`.
pub open spec fn group_runtime(rows: Seq<ProcessRow>, n: Seq<char>, k: nat) -> nat
    decreases k,
{
    if k == 0 {
        0
    } else {
        let prev = group_runtime(rows, n, (k - 1) as nat);
        if in_group(rows, k - 1, n) && rows[k - 1].runtime_secs > prev {
            rows[k - 1].runtime_secs as nat
        } else {
            prev
        }
    }
}

/// `x`, or the largest `u64` when it does not fit.
pub open spec fn capped(x: nat) -> u64 {
    if x > u64::MAX {
        u64::MAX
    } else {
        x as u64
    }
}

/// The sums of an application's first `k` processes, with its PIDs in
/// process order.
pub open spec fn partial_group(rows: Seq<ProcessRow>, a: ApplicationRow, k: nat) -> bool {
    let n = a.name@;
    &&& a.pids@ == group_pids(rows, n, k)
    &&& a.cpu_hundredths == capped(group_cpu(rows, n, k))
    &&& a.memory_bytes == capped(group_memory(rows, n, k))
    &&& a.io_bytes_per_sec == capped(group_io(rows, n, k))
    &&& a.runtime_secs == group_runtime(rows, n, k)
    &&& a.active_samples == 0
    &&& exists|j: int| 0 <= j < k && in_group(rows, j, n)
}

/// `a` is the application of some process, with the PIDs of all its
/// processes in ascending order, their summed CPU use, memory and disk rate
/// (saturating), and their longest runtime.
pub open spec fn is_group_of(rows: Seq<ProcessRow>, a: ApplicationRow) -> bool {
    let n = a.name@;
    let k = rows.len();
    &&& ascending(a.pids@)
    &&& a.pids@.to_multiset() == group_pids(rows, n, k).to_multiset()
    &&& a.cpu_hundredths == capped(group_cpu(rows, n, k))
    &&& a.memory_bytes == capped(group_memory(rows, n, k))
    &&& a.io_bytes_per_sec == capped(group_io(rows, n, k))
    &&& a.runtime_secs == group_runtime(rows, n, k)
    &&& exists|j: int| 0 <= j < k && in_group(rows, j, n)
}

/// `a` is listed before `b`: more CPU, then more disk activity, then by name.
pub open spec fn listed_before(a: ApplicationRow, b: ApplicationRow) -> bool {
    ||| a.cpu_hundredths > b.cpu_hundredths
    ||| (a.cpu_hundredths == b.cpu_hundredths && a.io_bytes_per_sec > b.io_bytes_per_sec)
    ||| (a.cpu_hundredths == b.cpu_hundredths && a.io_bytes_per_sec == b.io_bytes_per_sec
        && lex_lt(a.name@, b.name@))
}

/// Listing order is a strict total order on applications with distinct names.
pub proof fn lemma_listed_before(a: ApplicationRow, b: ApplicationRow, c: ApplicationRow)
    ensures
        listed_before(a, b) ==> !listed_before(b, a),
        listed_before(a, b) && listed_before(b, c) ==> listed_before(a, c),
        a.name@ != b.name@ ==> listed_before(a, b) || listed_before(b, a),
{
    lemma_lex(a.name@, b.name@, c.name@);
    lemma_lex(b.name@, a.name@, c.name@);
}

proof fn lemma_group_empty(rows: Seq<ProcessRow>, n: Seq<char>, k: nat)
    requires
        forall|j: int| 0 <= j < k ==> !in_group(rows, j, n),
    ensures
        group_pids(rows, n, k) == Seq::<u32>::empty(),
        group_cpu(rows, n, k) == 0,
        group_memory(rows, n, k) == 0,
        group_io(rows, n, k) == 0,
        group_runtime(rows, n, k) == 0,
    decreases k,
{
    if k > 0 {
        lemma_group_empty(rows, n, (k - 1) as nat);
    }
}

fn is_listed_before(a: &ApplicationRow, b: &ApplicationRow) -> (r: bool)
    ensures
        r == listed_before(*a, *b),
{
    if a.cpu_hundredths != b.cpu_hundredths {
        return a.cpu_hundredths > b.cpu_hundredths;
    }
    if a.io_bytes_per_sec != b.io_bytes_per_sec {
        return a.io_bytes_per_sec > b.io_bytes_per_sec;
    }
    lex_less(&chars_of(a.name.as_str()), &chars_of(b.name.as_str()))
}

/// Some application in `apps` is named `n`.
pub open spec fn has_name(apps: Seq<ApplicationRow>, n: Seq<char>) -> bool {
    exists|g: int| 0 <= g < apps.len() && (#[trigger] apps[g]).name@ == n
}

/// No two applications in `apps` share a name.
pub open spec fn distinct_names(apps: Seq<ApplicationRow>) -> bool {
    forall|g: int, h: int| 0 <= g < h < apps.len() ==> (#[trigger] apps[g]).name@ != (#[trigger] apps[h]).name@
}

/// The application of each of the first `k` processes is in `apps`.
pub open spec fn covers(rows: Seq<ProcessRow>, apps: Seq<ApplicationRow>, k: int) -> bool {
    forall|j: int| 0 <= j < k ==> has_name(apps, app_name_of(rows, #[trigger] rows[j]))
}

proof fn lemma_partial_other(rows: Seq<ProcessRow>, a: ApplicationRow, i: nat)
    requires
        partial_group(rows, a, i),
        !in_group(rows, i as int, a.name@),
    ensures
        partial_group(rows, a, i + 1),
{
    let j = choose|j: int| 0 <= j < i && in_group(rows, j, a.name@);
}

proof fn lemma_partial_same(rows: Seq<ProcessRow>, a: ApplicationRow, b: ApplicationRow, i: nat)
    requires
        partial_group(rows, a, i),
        i < rows.len(),
        in_group(rows, i as int, a.name@),
        b.name@ == a.name@,
        b.pids@ == a.pids@.push(rows[i as int].pid),
        b.cpu_hundredths == if a.cpu_hundredths + rows[i as int].cpu_hundredths > u64::MAX {
            u64::MAX
        } else {
            (a.cpu_hundredths + rows[i as int].cpu_hundredths) as u64
        },
        b.memory_bytes == if a.memory_bytes + rows[i as int].memory_bytes > u64::MAX {
            u64::MAX
        } else {
            (a.memory_bytes + rows[i as int].memory_bytes) as u64
        },
        b.io_bytes_per_sec == if a.io_bytes_per_sec + rows[i as int].io_bytes_per_sec > u64::MAX {
            u64::MAX
        } else {
            (a.io_bytes_per_sec + rows[i as int].io_bytes_per_sec) as u64
        },
        b.runtime_secs == if rows[i as int].runtime_secs > a.runtime_secs {
            rows[i as int].runtime_secs
        } else {
            a.runtime_secs
        },
        b.active_samples == 0,
    ensures
        partial_group(rows, b, i + 1),
{
    let j = choose|j: int| 0 <= j < i && in_group(rows, j, a.name@);
    assert(in_group(rows, j, b.name@));
}

proof fn lemma_partial_new(rows: Seq<ProcessRow>, b: ApplicationRow, i: nat)
    requires
        i < rows.len(),
        forall|j: int| 0 <= j < i ==> !in_group(rows, j, b.name@),
        in_group(rows, i as int, b.name@),
        b.pids@ == seq![rows[i as int].pid],
        b.cpu_hundredths == rows[i as int].cpu_hundredths,
        b.memory_bytes == rows[i as int].memory_bytes,
        b.io_bytes_per_sec == rows[i as int].io_bytes_per_sec,
        b.runtime_secs == rows[i as int].runtime_secs,
        b.active_samples == 0,
    ensures
        partial_group(rows, b, i + 1),
{
    lemma_group_empty(rows, b.name@, i);
    assert(seq![rows[i as int].pid] == Seq::<u32>::empty().push(rows[i as int].pid));
}

fn find_group(groups: &Vec<ApplicationRow>, name: &String) -> (r: usize)
    ensures
        r <= groups@.len(),
        r < groups@.len() ==> groups@[r as int].name@ == name@,
        r == groups@.len() ==> !has_name(groups@, name@),
{
    let mut g: usize = 0;
    while g < groups.len() && groups[g].name != *name
        invariant
            g <= groups.len(),
            forall|h: int| 0 <= h < g ==> (#[trigger] groups@[h]).name@ != name@,
        decreases groups.len() - g,
    {
        g += 1;
    }
    g
}

fn add_process(groups: &mut Vec<ApplicationRow>, rows: &[ProcessRow], i: usize)
    requires
        i < rows.len(),
        forall|g: int| 0 <= g < old(groups)@.len() ==> partial_group(rows@, #[trigger] old(groups)@[g], i as nat),
        distinct_names(old(groups)@),
        covers(rows@, old(groups)@, i as int),
    ensures
        forall|g: int| 0 <= g < final(groups)@.len() ==> partial_group(rows@, #[trigger] final(groups)@[g], (i + 1) as nat),
        distinct_names(final(groups)@),
        covers(rows@, final(groups)@, i + 1),
{
    let p = &rows[i];
    let name = string_of(&application_name(p, rows));
    assert(in_group(rows@, i as int, name@));
    let g = find_group(groups, &name);
    let ghost old_groups = groups@;
    if g < groups.len() {
        let app = &mut groups[g];
        app.pids.push(p.pid);
        app.cpu_hundredths = app.cpu_hundredths.saturating_add(p.cpu_hundredths);
        app.memory_bytes = app.memory_bytes.saturating_add(p.memory_bytes);
        app.io_bytes_per_sec = app.io_bytes_per_sec.saturating_add(p.io_bytes_per_sec);
        if p.runtime_secs > app.runtime_secs {
            app.runtime_secs = p.runtime_secs;
        }
        proof {
            lemma_partial_same(rows@, old_groups[g as int], groups@[g as int], i as nat);
        }
    } else {
        proof {
            assert forall|j: int| 0 <= j < i implies !in_group(rows@, j, name@) by {
                if in_group(rows@, j, name@) {
                    assert(has_name(old_groups, app_name_of(rows@, rows@[j])));
                }
            }
        }
        let mut pids: Vec<u32> = Vec::new();
        pids.push(p.pid);
        let row = ApplicationRow {
            name,
            pids,
            cpu_hundredths: p.cpu_hundredths,
            memory_bytes: p.memory_bytes,
            io_bytes_per_sec: p.io_bytes_per_sec,
            runtime_secs: p.runtime_secs,
            active_samples: 0,
        };
        proof {
            lemma_partial_new(rows@, row, i as nat);
        }
        groups.push(row);
    }
    proof {
        assert(groups@.len() >= old_groups.len());
        assert forall|h: int| 0 <= h < groups@.len() implies partial_group(rows@, #[trigger] groups@[h], (i + 1) as nat) by {
            if h < old_groups.len() && h != g {
                assert(groups@[h] == old_groups[h]);
                lemma_partial_other(rows@, old_groups[h], i as nat);
            }
        }
        assert forall|h: int| 0 <= h < groups@.len() implies groups@[h].name@ == (if h < old_groups.len() { old_groups[h].name@ } else { name@ }) by {
            if h < old_groups.len() && h != g {
                assert(groups@[h] == old_groups[h]);
            }
        }
        assert forall|j: int| 0 <= j < i + 1 implies has_name(groups@, app_name_of(rows@, #[trigger] rows@[j])) by {
            if j < i {
                let h = choose|h: int| 0 <= h < old_groups.len() && (#[trigger] old_groups[h]).name@ == app_name_of(rows@, rows@[j]);
                assert(groups@[h].name@ == old_groups[h].name@);
            } else {
                assert(groups@[g as int].name@ == name@);
            }
        }
    }
}

/// The applications of the processes in first-seen order, PIDs unsorted.
fn collect_groups(rows: &[ProcessRow]) -> (groups: Vec<ApplicationRow>)
    ensures
        forall|g: int| 0 <= g < groups@.len() ==> partial_group(rows@, #[trigger] groups@[g], rows@.len()),
        distinct_names(groups@),
        covers(rows@, groups@, rows@.len() as int),
{
    let mut groups: Vec<ApplicationRow> = Vec::new();
    let mut i: usize = 0;
    while i < rows.len()
        invariant
            i <= rows.len(),
            forall|g: int| 0 <= g < groups@.len() ==> partial_group(rows@, #[trigger] groups@[g], i as nat),
            distinct_names(groups@),
            covers(rows@, groups@, i as int),
        decreases rows.len() - i,
    {
        add_process(&mut groups, rows, i);
        i += 1;
    }
    groups
}

/// The applications are listed in order.
pub open spec fn listed(apps: Seq<ApplicationRow>) -> bool {
    forall|i: int, j: int| 0 <= i < j < apps.len() ==> listed_before(#[trigger] apps[i], #[trigger] apps[j])
}

fn insert_listed(out: &mut Vec<ApplicationRow>, row: ApplicationRow)
    requires
        listed(old(out)@),
        !has_name(old(out)@, row.name@),
    ensures
        listed(final(out)@),
        exists|p: int| 0 <= p <= old(out)@.len() && final(out)@ == old(out)@.insert(p, row),
{
    let mut p: usize = 0;
    while p < out.len() && is_listed_before(&out[p], &row)
        invariant
            p <= out.len(),
            forall|k: int| 0 <= k < p ==> listed_before(#[trigger] out@[k], row),
        decreases out.len() - p,
    {
        p += 1;
    }
    let ghost prev = out@;
    proof {
        if p < prev.len() {
            assert(prev[p as int].name@ != row.name@);
            lemma_listed_before(prev[p as int], row, row);
        }
    }
    out.insert(p, row);
    assert forall|i: int, j: int| 0 <= i < j < out@.len() implies listed_before(#[trigger] out@[i], #[trigger] out@[j]) by {
        if j < p {
            assert(out@[i] == prev[i] && out@[j] == prev[j]);
        } else if j == p {
            assert(out@[i] == prev[i]);
        } else if i < p {
            assert(out@[i] == prev[i] && out@[j] == prev[j - 1]);
        } else if i == p {
            assert(out@[j] == prev[j - 1]);
            lemma_listed_before(row, prev[p as int], prev[j - 1]);
        } else {
            assert(out@[i] == prev[i - 1] && out@[j] == prev[j - 1]);
        }
    }
}

/// Groups processes into applications: one per application name, with the
/// processes' PIDs in ascending order and their usage summed; listed by
/// descending CPU, then descending disk activity, then name.
pub fn aggregate_applications(processes: &[ProcessRow]) -> (apps: Vec<ApplicationRow>)
    ensures
        forall|i: int| 0 <= i < apps@.len() ==> is_group_of(processes@, #[trigger] apps@[i]),
        forall|i: int| 0 <= i < apps@.len() ==> (#[trigger] apps@[i]).active_samples == 0,
        listed(apps@),
        covers(processes@, apps@, processes@.len() as int),
{
    let rows = processes;
    let mut groups = collect_groups(rows);
    let mut out: Vec<ApplicationRow> = Vec::new();
    while groups.len() > 0
        invariant
            forall|g: int| 0 <= g < groups@.len() ==> partial_group(rows@, #[trigger] groups@[g], rows@.len()),
            distinct_names(groups@),
            forall|i: int| 0 <= i < out@.len() ==> is_group_of(rows@, #[trigger] out@[i]),
            forall|i: int| 0 <= i < out@.len() ==> (#[trigger] out@[i]).active_samples == 0,
            listed(out@),
            forall|i: int, g: int| 0 <= i < out@.len() && 0 <= g < groups@.len() ==> (#[trigger] out@[i]).name@ != (#[trigger] groups@[g]).name@,
            forall|j: int| 0 <= j < rows@.len() ==> has_name(groups@, app_name_of(rows@, #[trigger] rows@[j])) || has_name(out@, app_name_of(rows@, rows@[j])),
        decreases groups.len(),
    {
        let ghost before = groups@;
        let a = groups.pop().unwrap();
        assert(before == groups@.push(a));
        assert(partial_group(rows@, a, rows@.len()));
        let ApplicationRow {
            name,
            pids,
            cpu_hundredths,
            memory_bytes,
            io_bytes_per_sec,
            runtime_secs,
            active_samples,
        } = a;
        let sorted = sort_ascending(pids);
        let row = ApplicationRow {
            name,
            pids: sorted,
            cpu_hundredths,
            memory_bytes,
            io_bytes_per_sec,
            runtime_secs,
            active_samples,
        };
        assert(is_group_of(rows@, row));
        let ghost prev = out@;
        assert(!has_name(prev, row.name@)) by {
            if has_name(prev, row.name@) {
                let i = choose|i: int| 0 <= i < prev.len() && (#[trigger] prev[i]).name@ == row.name@;
                assert(before[before.len() - 1] == a);
            }
        }
        insert_listed(&mut out, row);
        proof {
            let p = choose|p: int| 0 <= p <= prev.len() && out@ == prev.insert(p, row);
            assert forall|i: int| 0 <= i < out@.len() implies is_group_of(rows@, #[trigger] out@[i]) && out@[i].active_samples == 0 by {
                if i < p {
                    assert(out@[i] == prev[i]);
                } else if i > p {
                    assert(out@[i] == prev[i - 1]);
                }
            }
            assert forall|i: int, g: int| 0 <= i < out@.len() && 0 <= g < groups@.len() implies (#[trigger] out@[i]).name@ != (#[trigger] groups@[g]).name@ by {
                assert(groups@[g] == before[g]);
                if i < p {
                    assert(out@[i] == prev[i]);
                } else if i > p {
                    assert(out@[i] == prev[i - 1]);
                } else {
                    assert(before[before.len() - 1] == a);
                }
            }
            assert forall|g: int| 0 <= g < groups@.len() implies partial_group(rows@, #[trigger] groups@[g], rows@.len()) by {
                assert(groups@[g] == before[g]);
            }
            assert forall|j: int| 0 <= j < rows@.len() implies has_name(groups@, app_name_of(rows@, #[trigger] rows@[j])) || has_name(out@, app_name_of(rows@, rows@[j])) by {
                let n = app_name_of(rows@, rows@[j]);
                if has_name(before, n) {
                    let g = choose|g: int| 0 <= g < before.len() && (#[trigger] before[g]).name@ == n;
                    if g == before.len() - 1 {
                        assert(out@[p].name@ == n);
                    } else {
                        assert(groups@[g] == before[g]);
                    }
                } else {
                    let i = choose|i: int| 0 <= i < prev.len() && (#[trigger] prev[i]).name@ == n;
                    if i < p {
                        assert(out@[i] == prev[i]);
                    } else {
                        assert(out@[i + 1] == prev[i]);
                    }
                }
            }
        }
    }
    out
}

/// A process that is not a Chrome, Firefox or WebKit process belongs to the
/// application bundle its command runs from, and only without one to an
/// application of its own name.
pub proof fn own_bundle_names_the_application(rows: Seq<ProcessRow>, p: ProcessRow, lower: Seq<char>)
    requires
        !has_sub(lower, "google chrome"@),
        !has_sub(lower, "firefox"@),
        !has_sub(lower, "webkit"@),
    ensures
        forall|n: Seq<char>| bundle_name(p.command@) == Some(n) ==> app_name_in(rows, p, lower) == n && n.len() > 0,
        bundle_name(p.command@) is None ==> app_name_in(rows, p, lower) == p.name@,
        app_name_of(rows, p) == app_name_in(rows, p, lowercase(p.name@ + " "@ + p.command@)),
{
}

} // verus!

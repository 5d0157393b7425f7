use whyhot::model::{ApplicationRow, Severity, Snapshot, ThermalState};
use whyhot::text::{chars_of, string_of};
use whyhot::ui::{color, flame, io_rate, plain, render, truncate, wrap_words};

fn hundredths(percent: f32) -> u64 {
    (percent * 100.0).round() as u64
}

#[test]
fn flame_reflects_heat_and_animates() {
    let first = flame(Severity::Hot, hundredths(93.0), 0);
    let second = flame(Severity::Hot, hundredths(93.0), 1);
    assert!(first.join("\n").contains("93%"));
    assert_ne!(first[0], second[0]);
}

#[test]
fn problem_descriptions_wrap_without_losing_words() {
    let text = "Charging naturally adds heat, especially while the CPU is busy.";
    let lines = wrap_words(text, 20);
    assert!(lines.len() > 1);
    assert_eq!(lines.join(" "), text);
    assert!(lines.iter().all(|line| line.chars().count() <= 20));
}

#[test]
fn wrapping_edge_cases() {
    assert_eq!(wrap_words("", 10), vec![String::new()]);
    assert_eq!(wrap_words("   ", 10), vec![String::new()]);
    assert_eq!(wrap_words("supercalifragilistic word", 5), vec!["supercalifragilistic", "word"]);
    assert_eq!(wrap_words("a b c", 0), vec!["a", "b", "c"]);
    assert_eq!(wrap_words("a  b\n c", 80), vec!["a b c"]);
}

#[test]
fn heat_bar_fills_with_cpu() {
    let cool = flame(Severity::Cool, hundredths(4.0), 2);
    assert_eq!(cool.len(), 7);
    assert!(cool[6].ends_with("\x1b[38;2;57;205;255m··········\x1b[0m"));
    assert!(cool[0].contains("         ·"));
    let full = flame(Severity::Warm, hundredths(250.0), 3);
    assert!(full[6].contains("250%"));
    assert!(full[6].contains("■■■■■■■■■■"));
    let half = flame(Severity::Warm, hundredths(45.0), 0);
    assert!(half[6].contains("■■■■■·····"));
}

#[test]
fn truncation_marks_cut_names() {
    assert_eq!(string_of(&truncate(&chars_of("Google Chrome Helper (Renderer)"), 24)), "Google Chrome Helper (R…");
    assert_eq!(string_of(&truncate(&chars_of("short"), 24)), "short");
    assert_eq!(string_of(&truncate(&chars_of("abc"), 1)), "a");
    assert_eq!(string_of(&truncate(&chars_of("abc"), 0)), "");
}

#[test]
fn io_rates() {
    assert_eq!(string_of(&io_rate(0)), "-");
    assert_eq!(string_of(&io_rate(1_536)), "2K");
    assert_eq!(string_of(&io_rate(2_560)), "2K");
    assert_eq!(string_of(&io_rate(3 * 1_048_576 / 2)), "1.5M");
    assert_eq!(string_of(&io_rate(2 * 1_073_741_824)), "2.0G");
}

#[test]
fn colors_follow_severity() {
    assert_eq!(color(Severity::Cool), "\x1b[32m");
    assert_eq!(color(Severity::Warm), "\x1b[33m");
    assert_eq!(color(Severity::Hot), "\x1b[31m");
}

fn snapshot() -> Snapshot {
    Snapshot {
        cpu_hundredths: hundredths(42.4),
        memory_hundredths: hundredths(61.6),
        load_hundredths: [125, 100, 75],
        logical_cpus: 8,
        charging: Some(true),
        battery_percent: Some(80),
        battery_max_capacity: None,
        battery_condition: None,
        external_displays: Some(0),
        thermal_state: Some(ThermalState::Normal),
        uptime_secs: 3_600,
        cpu_active_samples: 0,
        applications: vec![
            ApplicationRow {
                name: "Xcode".into(),
                pids: vec![500, 501],
                cpu_hundredths: hundredths(12.3),
                memory_bytes: 3 * 1_048_576 / 2,
                io_bytes_per_sec: 2_048,
                runtime_secs: 7_260,
                active_samples: 0,
            },
            ApplicationRow {
                name: "Terminal".into(),
                pids: vec![77],
                cpu_hundredths: 0,
                memory_bytes: 0,
                io_bytes_per_sec: 0,
                runtime_secs: 60,
                active_samples: 0,
            },
        ],
    }
}

#[test]
fn plain_report_lists_findings_and_applications() {
    let text = plain(&snapshot(), 1);
    let expected = "whyhot: WARM | CPU 42% | memory 62% | load 1.2\n\
- Battery is charging: Charging naturally adds heat, especially while the CPU is busy.\n\
\nAPPLICATION                CPU    MEM     I/O/s      AGE  PROCS\n\
Xcode                      12.3%    1.5M       2K    2h 1m  2\n";
    assert_eq!(text, expected);
}

#[test]
fn screen_shows_status_findings_and_selection() {
    let hidden = render(&snapshot(), 10, 0, 80, 40, 0, false);
    assert!(hidden.starts_with("\x1b[H\x1b[2J\x1b[1mwhyhot\x1b[0m  \x1b[33mWARM\x1b[0m  CPU 42%  MEM 62%  LOAD 1.2  80% charging\n"));
    assert!(hidden.contains("Press p to inspect applications"));
    assert!(hidden.ends_with(" q quit · r refresh · p applications · j/k select · 8 logical CPUs \x1b[0m"));
    let shown = render(&snapshot(), 10, 1, 80, 40, 0, true);
    assert!(shown.contains("Top applications"));
    assert!(shown.contains("›  Terminal"));
    assert!(shown.contains("\x1b[1mSelected\x1b[0m  Terminal\n    PIDs: 77\n"));
    assert!(shown.contains(&"─".repeat(80)));
}

use whyhot::grouping::{
    aggregate_applications, app_bundle_name, application_name, application_name_from_lowercase,
};
use whyhot::model::{ProcessRow, ThermalState};
use whyhot::sampler::{
    battery_from_lowercase, external_displays_in, io_rate_per_sec, memory_share, parse_battery, parse_static_info, parse_thermal_state,
    process_rows, uptime, ProcessReading, Reading, Sampler, StaticInfo,
};
use whyhot::text::{chars_of, string_of};

fn hundredths(percent: f32) -> u64 {
    (percent * 100.0).round() as u64
}

fn process(pid: u32, parent_pid: Option<u32>, name: &str, command: &str, cpu: f32) -> ProcessRow {
    ProcessRow {
        pid,
        parent_pid,
        cpu_hundredths: hundredths(cpu),
        memory_bytes: 10,
        io_bytes_per_sec: 20,
        runtime_secs: 30,
        name: name.into(),
        command: command.into(),
    }
}

#[test]
fn detects_thermal_throttling() {
    let text = "CPU_Speed_Limit = 65\nScheduler_Limit = 100\nThermal_Level = 0";
    assert_eq!(parse_thermal_state(text), Some(ThermalState::Throttled));
}

#[test]
fn detects_normal_thermal_state() {
    let text = "CPU_Speed_Limit = 100\nScheduler_Limit = 100\nThermal_Level = 0";
    assert_eq!(parse_thermal_state(text), Some(ThermalState::Normal));
}

#[test]
fn thermal_warning_and_unknown_states() {
    assert_eq!(
        parse_thermal_state("Note: No thermal warning level has been recorded\nScheduler_Limit = 80"),
        Some(ThermalState::Warning)
    );
    assert_eq!(parse_thermal_state("  Thermal_Level = 2\r\n"), Some(ThermalState::Warning));
    assert_eq!(parse_thermal_state("CPU_Speed_Limit = fast\nCPU_Speed_Limit = 90"), Some(ThermalState::Throttled));
    assert_eq!(parse_thermal_state("nothing here"), None);
    assert_eq!(parse_thermal_state(""), None);
    assert_eq!(parse_thermal_state("CPU_Speed_Limit = -5"), None);
}

#[test]
fn groups_application_helpers_and_sums_evidence() {
    let rows = vec![
        process(10, None, "Google Chrome", "/Applications/Google Chrome.app/Chrome", 12.0),
        process(11, Some(10), "Google Chrome Helper", "/Applications/Google Chrome.app/Helper", 34.0),
    ];
    let apps = aggregate_applications(&rows);
    assert_eq!(apps.len(), 1);
    assert_eq!(apps[0].name, "Google Chrome");
    assert_eq!(apps[0].pids, vec![10, 11]);
    assert_eq!(apps[0].cpu_hundredths, hundredths(46.0));
    assert_eq!(apps[0].io_bytes_per_sec, 40);
}

#[test]
fn applications_are_ordered_by_cpu_then_disk_then_name() {
    let mut rows = vec![
        process(5, None, "zeta", "/usr/bin/zeta", 10.0),
        process(3, None, "alpha", "/usr/bin/alpha", 10.0),
        process(9, None, "busy", "/usr/bin/busy", 50.0),
        process(2, None, "disk", "/usr/bin/disk", 10.0),
        process(8, None, "alpha", "/usr/bin/alpha --child", 0.0),
    ];
    rows[3].io_bytes_per_sec = 1_000;
    let apps = aggregate_applications(&rows);
    let names: Vec<&str> = apps.iter().map(|a| a.name.as_str()).collect();
    assert_eq!(names, vec!["busy", "disk", "alpha", "zeta"]);
    assert_eq!(apps[2].pids, vec![3, 8]);
    assert_eq!(apps[2].memory_bytes, 20);
    assert_eq!(apps[2].io_bytes_per_sec, 40);
    assert_eq!(apps[2].runtime_secs, 30);
    assert!(apps.iter().all(|a| a.active_samples == 0));
}

#[test]
fn webkit_helpers_belong_to_the_app_that_started_them() {
    let rows = vec![
        process(1, None, "Mail", "/System/Applications/Mail.app/Contents/MacOS/Mail", 1.0),
        process(2, Some(1), "com.apple.WebKit.WebContent", "/System/Library/Frameworks/WebKit.framework/XPCServices/WebContent", 1.0),
        process(3, Some(99), "com.apple.WebKit.Networking", "/System/WebKit/Networking", 1.0),
        process(4, Some(5), "Firefox GPU Helper", "/usr/lib/helper", 1.0),
    ];
    assert_eq!(string_of(&application_name(&rows[1], &rows)), "Mail");
    assert_eq!(string_of(&application_name(&rows[2], &rows)), "Safari/WebKit");
    assert_eq!(string_of(&application_name(&rows[3], &rows)), "Firefox");
    assert_eq!(string_of(&application_name(&rows[0], &rows)), "Mail");
}

#[test]
fn bundle_names_come_from_the_app_path() {
    let name = |c: &str| app_bundle_name(&chars_of(c)).map(|v| string_of(&v));
    assert_eq!(name("/Applications/Slack.app/Contents/MacOS/Slack"), Some("Slack".into()));
    assert_eq!(name("/Applications/Utilities/Terminal.app"), Some("Terminal".into()));
    assert_eq!(name("Foo.app/x"), Some("Foo".into()));
    assert_eq!(name("/.app/x"), None);
    assert_eq!(name("/usr/bin/top"), None);
    assert_eq!(name("/a.appx/B.app/c"), Some("B".into()));
}

#[test]
fn battery_report_is_read() {
    let text = "Now drawing from 'AC Power'\n -InternalBattery-0 (id=1234)\t87%; charging; 1:02 remaining present: true";
    assert_eq!(parse_battery(text), (Some(true), Some(87)));
    let text = "Now drawing from 'Battery Power'\n -InternalBattery-0 (id=1)\t55%; discharging; 4:00 remaining";
    assert_eq!(parse_battery(text), (Some(false), Some(55)));
    assert_eq!(parse_battery("100%; charged;"), (Some(true), Some(100)));
    assert_eq!(parse_battery("no battery 300%"), (None, None));
    assert_eq!(parse_battery(""), (None, None));
    assert_eq!(parse_battery("45%; Discharging"), (Some(false), Some(45)));
}

#[test]
fn profiler_report_is_read() {
    let text = "Graphics/Displays:\n\n    Apple M1:\n\n      Displays:\n        Color LCD:\n          Display Type: Built-In Retina LCD\n          Resolution: 2560 x 1600 Retina\n        DELL U2720Q:\n          Resolution: 3840 x 2160 (2160p/4K UHD 1 - Ultra High Definition)\n\nPower:\n\n    Battery Information:\n\n      Health Information:\n          Cycle Count: 312\n          Condition: Normal\n          Maximum Capacity: 86%\n";
    let info: StaticInfo = parse_static_info(text);
    assert_eq!(info.battery_max_capacity, Some(86));
    assert_eq!(info.battery_condition.as_deref(), Some("Normal"));
    assert_eq!(info.external_displays, Some(1));
    let empty = parse_static_info("");
    assert_eq!(empty.battery_max_capacity, None);
    assert_eq!(empty.battery_condition, None);
    assert_eq!(empty.external_displays, Some(0));
}

#[test]
fn rates_shares_and_uptime() {
    assert_eq!(io_rate_per_sec(1_000, 1_000, 2_000_000), 1_000);
    assert_eq!(io_rate_per_sec(5, 0, 0), 5_000);
    assert_eq!(io_rate_per_sec(u64::MAX, u64::MAX, 1_000), u64::MAX);
    assert_eq!(memory_share(45, 50), 9_000);
    assert_eq!(memory_share(1, 0), 0);
    assert_eq!(memory_share(900_040, 1_000_000), 9_001);
    assert_eq!(memory_share(1, 3), 3_334);
    assert_eq!(memory_share(0, 3), 0);
    let mut rows = vec![process(1, None, "a", "a", 0.0), process(2, None, "b", "b", 0.0)];
    rows[0].runtime_secs = 400 * 86_400;
    rows[1].runtime_secs = 7_200;
    assert_eq!(uptime(&rows), 7_200);
    assert_eq!(uptime(&[]), 0);
}

fn reading(pid: u32, name: &str, cpu: f32, disk: u64) -> ProcessReading {
    ProcessReading {
        pid,
        parent_pid: None,
        cpu_hundredths: hundredths(cpu),
        memory_bytes: 1_000,
        disk_read_bytes: disk,
        disk_written_bytes: 0,
        runtime_secs: 100,
        name: name.into(),
        command: format!("/usr/bin/{name}"),
    }
}

fn sample_of(processes: Vec<ProcessReading>, cpu: f32) -> Reading {
    Reading {
        processes,
        elapsed_micros: 1_000_000,
        cpu_hundredths: hundredths(cpu),
        used_memory: 3,
        total_memory: 4,
        load_hundredths: [150, 100, 50],
        logical_cpus: 8,
        charging: Some(false),
        battery_percent: Some(40),
        thermal_state: Some(ThermalState::Normal),
    }
}

#[test]
fn process_rows_are_ordered_by_cpu_then_pid() {
    let rows = process_rows(
        vec![reading(7, "a", 5.0, 0), reading(3, "b", 9.0, 0), reading(2, "c", 5.0, 4_000)],
        2_000_000,
    );
    let pids: Vec<u32> = rows.iter().map(|r| r.pid).collect();
    assert_eq!(pids, vec![3, 2, 7]);
    assert_eq!(rows[1].io_bytes_per_sec, 2_000);
}

#[test]
fn activity_must_persist_before_it_counts_as_sustained() {
    let info = StaticInfo { battery_max_capacity: Some(90), battery_condition: Some("Normal".into()), external_displays: Some(1) };
    let mut sampler = Sampler::new(info);
    let mut streaks = Vec::new();
    for _ in 0..4 {
        let snapshot = sampler.sample(sample_of(vec![reading(1, "spin", 95.0, 0), reading(2, "idle", 1.0, 0)], 60.0));
        let spin = snapshot.applications.iter().find(|a| a.name == "spin").unwrap();
        let idle = snapshot.applications.iter().find(|a| a.name == "idle").unwrap();
        assert_eq!(idle.active_samples, 0);
        streaks.push((spin.active_samples, snapshot.cpu_active_samples));
        assert_eq!(snapshot.memory_hundredths, 7_500);
        assert_eq!(snapshot.battery_max_capacity, Some(90));
        assert_eq!(snapshot.battery_condition.as_deref(), Some("Normal"));
        assert_eq!(snapshot.external_displays, Some(1));
        assert_eq!(snapshot.battery_percent, Some(40));
        assert_eq!(snapshot.uptime_secs, 100);
    }
    assert_eq!(streaks, vec![(1, 1), (2, 2), (3, 3), (4, 4)]);
    let snapshot = sampler.sample(sample_of(vec![reading(1, "spin", 5.0, 0)], 10.0));
    assert_eq!(snapshot.applications[0].active_samples, 0);
    assert_eq!(snapshot.cpu_active_samples, 0);
    let snapshot = sampler.sample(sample_of(vec![reading(1, "spin", 5.0, 20 * 1_048_576)], 10.0));
    assert_eq!(snapshot.applications[0].active_samples, 1);
}

#[test]
fn lowercased_text_is_read_as_given() {
    assert_eq!(battery_from_lowercase(&chars_of("87%; charging;")), (Some(true), Some(87)));
    assert_eq!(battery_from_lowercase(&chars_of("87%; Charging;")), (None, Some(87)));
    assert_eq!(battery_from_lowercase(&chars_of("55%; discharging;")), (Some(false), Some(55)));
    let report = "display type: built-in\n  resolution: 1\nresolution: 2\nresolution: 3\n";
    assert_eq!(external_displays_in(&chars_of(report)), 2);
    assert_eq!(external_displays_in(&chars_of("Resolution: 2")), 0);
    let rows = vec![
        process(1, None, "Mail", "/System/Applications/Mail.app/Contents/MacOS/Mail", 1.0),
        process(2, Some(1), "WebContent", "/System/WebContent", 1.0),
    ];
    let name = |k: usize, lower: &str| string_of(&application_name_from_lowercase(&rows[k], &rows, &chars_of(lower)));
    assert_eq!(name(1, "webcontent /system/webcontent"), "WebContent");
    assert_eq!(name(1, "com.apple.webkit.webcontent"), "Mail");
    assert_eq!(name(1, "google chrome helper"), "Google Chrome");
    assert_eq!(name(0, "Firefox"), "Mail");
}

#[test]
fn applications_new_to_a_sample_start_their_streak_afresh() {
    let info = StaticInfo { battery_max_capacity: None, battery_condition: None, external_displays: None };
    let mut sampler = Sampler::new(info);
    for _ in 0..3 {
        sampler.sample(sample_of(vec![reading(1, "spin", 95.0, 0)], 10.0));
    }
    let snapshot = sampler.sample(sample_of(vec![reading(2, "other", 95.0, 0)], 10.0));
    assert_eq!(snapshot.applications[0].name, "other");
    assert_eq!(snapshot.applications[0].active_samples, 1);
    let snapshot = sampler.sample(sample_of(vec![reading(1, "spin", 95.0, 0)], 10.0));
    assert_eq!(snapshot.applications[0].name, "spin");
    assert_eq!(snapshot.applications[0].active_samples, 1);
}

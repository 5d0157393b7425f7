use whyhot::diagnosis::{diagnose, duration, finding_from_lowercase, overall};
use whyhot::model::{ApplicationRow, Finding, Severity, Snapshot, ThermalState};

fn hundredths(percent: f32) -> u64 {
    (percent * 100.0).round() as u64
}

fn snapshot(cpu: f32) -> Snapshot {
    Snapshot {
        cpu_hundredths: hundredths(cpu),
        memory_hundredths: hundredths(20.0),
        load_hundredths: [0; 3],
        logical_cpus: 8,
        charging: None,
        battery_percent: None,
        battery_max_capacity: None,
        battery_condition: None,
        external_displays: Some(0),
        thermal_state: Some(ThermalState::Normal),
        uptime_secs: 3_600,
        cpu_active_samples: 0,
        applications: vec![],
    }
}

fn app(name: &str, pids: Vec<u32>, cpu: f32, io: u64, runtime: u64, samples: u8) -> ApplicationRow {
    ApplicationRow {
        name: name.into(),
        pids,
        cpu_hundredths: hundredths(cpu),
        memory_bytes: 0,
        io_bytes_per_sec: io,
        runtime_secs: runtime,
        active_samples: samples,
    }
}

#[test]
fn quiet_machine_is_cool() {
    assert_eq!(overall(&diagnose(&snapshot(10.0))), Severity::Cool);
}

#[test]
fn sustained_runaway_application_is_hot_and_identified() {
    let mut value = snapshot(95.0);
    value.cpu_active_samples = 3;
    value.applications.push(app("spinner", vec![42, 43], 99.0, 60 * 1_048_576, 500, 3));
    let findings = diagnose(&value);
    assert_eq!(overall(&findings), Severity::Hot);
    assert!(findings.iter().any(|f| f.title.contains("spinner")));
    assert_eq!(
        findings
            .iter()
            .filter(|f| f.title.contains("spinner"))
            .count(),
        1
    );
}

#[test]
fn explains_known_spotlight_workload() {
    let mut value = snapshot(35.0);
    value.applications.push(app("mdworker_shared", vec![7], 30.0, 0, 60, 1));
    assert!(
        diagnose(&value)
            .iter()
            .any(|finding| finding.title.contains("Spotlight"))
    );
}

#[test]
fn thermal_throttling_is_hot() {
    let mut value = snapshot(20.0);
    value.thermal_state = Some(ThermalState::Throttled);
    assert_eq!(overall(&diagnose(&value)), Severity::Hot);
}

#[test]
fn first_extreme_sample_is_observing_not_hot() {
    let mut value = snapshot(95.0);
    value.cpu_active_samples = 1;
    value.applications.push(app("spinner", vec![42], 99.0, 0, 5, 1));
    let findings = diagnose(&value);
    assert_eq!(overall(&findings), Severity::Warm);
    assert!(
        findings
            .iter()
            .any(|finding| finding.title.contains("observing"))
    );
}

#[test]
fn quiet_machine_gets_the_fallback_explanation() {
    let findings = diagnose(&snapshot(10.0));
    assert_eq!(findings.len(), 1);
    assert_eq!(findings[0].title, "No obvious software heat source");
    assert_eq!(findings[0].severity, Severity::Cool);
}

#[test]
fn thermal_warning_is_hot() {
    let mut value = snapshot(5.0);
    value.thermal_state = Some(ThermalState::Warning);
    let findings = diagnose(&value);
    assert_eq!(overall(&findings), Severity::Hot);
    assert_eq!(findings[0].title, "macOS reports thermal pressure");
}

#[test]
fn application_finding_wording() {
    let mut value = snapshot(10.0);
    value.applications.push(app("spinner", vec![42, 43], 99.0, 60 * 1_048_576, 500, 3));
    let findings = diagnose(&value);
    assert_eq!(findings[0].severity, Severity::Hot);
    assert_eq!(findings[0].title, "spinner is using CPU and disk");
    assert_eq!(
        findings[0].detail,
        "Across 2 processes (PIDs 42, 43): 99% CPU · about 60.0 MiB/s disk I/O · running 8m. Quit the application normally to confirm whether it is the cause."
    );
}

#[test]
fn cpu_only_title_rounds_percentage_and_pid_list_is_cut() {
    let mut value = snapshot(10.0);
    value.applications.push(app("busy", (1..=8).collect(), 62.5, 0, 90_061, 2));
    let findings = diagnose(&value);
    assert_eq!(findings[0].title, "busy is using 62% CPU — observing");
    assert_eq!(findings[0].severity, Severity::Warm);
    assert_eq!(
        findings[0].detail,
        "Across 8 processes (PIDs 1, 2, 3, 4, 5, 6, …): 62% CPU · running 1d 1h. Observed for 2 consecutive samples; watching for sustained activity. Quit the application normally to confirm whether it is the cause."
    );
}

#[test]
fn kernel_task_is_explained_and_not_to_be_killed() {
    let mut value = snapshot(10.0);
    value.applications.push(app("kernel_task", vec![0], 25.0, 0, 120, 3));
    let findings = diagnose(&value);
    assert_eq!(findings[0].title, "Thermal management is active");
    assert!(findings[0].detail.ends_with("Do not kill it; reduce other workloads and let the Mac cool."));
    assert!(findings[0].detail.contains("kernel_task itself is not the cause."));
}

#[test]
fn at_most_five_applications_are_explained() {
    let mut value = snapshot(10.0);
    for i in 0..8 {
        value.applications.push(app(&format!("app{i}"), vec![i], 60.0, 0, 60, 3));
    }
    let findings = diagnose(&value);
    assert_eq!(findings.iter().filter(|f| f.title.starts_with("app")).count(), 5);
    assert!(findings.iter().any(|f| f.title.starts_with("app4")));
    assert!(!findings.iter().any(|f| f.title.starts_with("app5")));
}

#[test]
fn system_findings_are_ordered_hot_warm_cool() {
    let mut value = snapshot(85.0);
    value.cpu_active_samples = 2;
    value.charging = Some(true);
    value.memory_hundredths = hundredths(95.0);
    value.battery_max_capacity = Some(79);
    value.battery_condition = Some("Service Recommended".into());
    value.external_displays = Some(2);
    value.uptime_secs = 15 * 86_400 + 3 * 3_600;
    value.thermal_state = Some(ThermalState::Throttled);
    let findings = diagnose(&value);
    let titles: Vec<&str> = findings.iter().map(|f| f.title.as_str()).collect();
    assert_eq!(
        titles,
        vec![
            "macOS is thermally throttling the CPU",
            "Overall CPU load is high — observing",
            "Battery is charging",
            "Memory use is very high",
            "Battery health is degraded",
            "macOS reports a battery service condition",
            "2 external displays connected",
            "Mac has been running for 15d 3h",
        ]
    );
    assert_eq!(
        findings[1].detail,
        "Observed for 2 consecutive samples; watching for sustained activity. Sustained computation is the most likely source of heat."
    );
    assert!(findings[4].detail.starts_with("Maximum capacity is 79%."));
    assert!(findings[5].detail.starts_with("Battery condition: Service Recommended."));
    let severities: Vec<Severity> = findings.iter().map(|f| f.severity).collect();
    for pair in severities.windows(2) {
        let rank = |s: Severity| match s {
            Severity::Hot => 2,
            Severity::Warm => 1,
            Severity::Cool => 0,
        };
        assert!(rank(pair[0]) >= rank(pair[1]));
    }
}

#[test]
fn normal_battery_condition_in_any_case_is_not_reported() {
    let mut value = snapshot(10.0);
    value.battery_condition = Some("NORMAL".into());
    value.external_displays = Some(1);
    let findings = diagnose(&value);
    assert_eq!(findings[0].title, "1 external display connected");
    assert_eq!(findings[1].title, "No obvious software heat source");
}

#[test]
fn elevated_cpu_is_warm() {
    let mut value = snapshot(55.0);
    value.cpu_active_samples = 4;
    let findings = diagnose(&value);
    assert_eq!(findings[0].title, "Overall CPU load is elevated");
    assert_eq!(findings[0].detail, "Check the leading applications if this persists.");
    assert_eq!(overall(&findings), Severity::Warm);
}

#[test]
fn overall_takes_the_most_severe() {
    let f = |severity| Finding { severity, title: String::new(), detail: String::new() };
    assert_eq!(overall(&[]), Severity::Cool);
    assert_eq!(overall(&[f(Severity::Cool), f(Severity::Warm)]), Severity::Warm);
    assert_eq!(overall(&[f(Severity::Warm), f(Severity::Hot), f(Severity::Cool)]), Severity::Hot);
}

#[test]
fn durations() {
    assert_eq!(duration(0), "0m");
    assert_eq!(duration(59), "0m");
    assert_eq!(duration(3_599), "59m");
    assert_eq!(duration(3_600), "1h 0m");
    assert_eq!(duration(86_399), "23h 59m");
    assert_eq!(duration(86_400 * 3 + 7_200 + 59), "3d 2h");
}

#[test]
fn severity_labels() {
    assert_eq!(Severity::Cool.label(), "COOL");
    assert_eq!(Severity::Warm.label(), "WARM");
    assert_eq!(Severity::Hot.label(), "HOT");
}

#[test]
fn sustained_high_cpu_is_hot() {
    let mut value = snapshot(80.0);
    value.cpu_active_samples = 3;
    let findings = diagnose(&value);
    assert_eq!(findings[0].title, "Overall CPU load is high");
    assert_eq!(findings[0].severity, Severity::Hot);
    assert_eq!(overall(&findings), Severity::Hot);
}

#[test]
fn disk_heavy_application_is_warm_then_hot() {
    let mut value = snapshot(5.0);
    value.applications.push(app("copier", vec![7], 5.0, 10 * 1_048_576, 60, 3));
    let findings = diagnose(&value);
    assert_eq!(findings.len(), 1);
    assert_eq!(findings[0].title, "No obvious software heat source");

    let mut value = snapshot(5.0);
    value.applications.push(app("copier", vec![7], 5.0, 10 * 1_048_576 + 1, 60, 3));
    let findings = diagnose(&value);
    assert_eq!(findings[0].title, "copier is doing heavy disk I/O");
    assert_eq!(findings[0].severity, Severity::Warm);

    let mut value = snapshot(5.0);
    value.applications.push(app("copier", vec![7], 5.0, 60 * 1_048_576, 60, 2));
    let findings = diagnose(&value);
    assert_eq!(findings[0].title, "copier is doing heavy disk I/O — observing");
    assert_eq!(findings[0].severity, Severity::Warm);

    let mut value = snapshot(5.0);
    value.applications.push(app("copier", vec![7], 5.0, 60 * 1_048_576, 60, 3));
    let findings = diagnose(&value);
    assert_eq!(findings[0].title, "copier is doing heavy disk I/O");
    assert_eq!(findings[0].severity, Severity::Hot);
    assert_eq!(overall(&findings), Severity::Hot);
}

#[test]
fn application_at_half_a_core_is_warm() {
    let mut value = snapshot(10.0);
    value.applications.push(app("busy", vec![3], 50.0, 0, 60, 5));
    let findings = diagnose(&value);
    assert_eq!(findings[0].title, "busy is using 50% CPU");
    assert_eq!(findings[0].severity, Severity::Warm);
    assert_eq!(overall(&findings), Severity::Warm);
}

#[test]
fn charging_and_full_memory_are_contributing_factors() {
    let mut value = snapshot(10.0);
    value.charging = Some(true);
    let findings = diagnose(&value);
    assert_eq!(findings.len(), 1);
    assert_eq!(findings[0].title, "Battery is charging");
    assert_eq!(findings[0].severity, Severity::Warm);

    let mut value = snapshot(10.0);
    value.memory_hundredths = hundredths(90.0);
    let findings = diagnose(&value);
    assert_eq!(findings.len(), 1);
    assert_eq!(findings[0].title, "No obvious software heat source");

    let mut value = snapshot(10.0);
    value.memory_hundredths = hundredths(90.01);
    let findings = diagnose(&value);
    assert_eq!(findings.len(), 1);
    assert_eq!(findings[0].title, "Memory use is very high");
    assert_eq!(overall(&findings), Severity::Warm);
}

#[test]
fn battery_at_eighty_percent_is_not_flagged() {
    let mut value = snapshot(10.0);
    value.battery_max_capacity = Some(80);
    value.battery_condition = Some("Normal".into());
    let findings = diagnose(&value);
    assert_eq!(findings.len(), 1);
    assert_eq!(findings[0].title, "No obvious software heat source");
}

#[test]
fn displays_and_uptime_leave_the_diagnosis_cool() {
    let mut value = snapshot(10.0);
    value.external_displays = Some(1);
    value.uptime_secs = 14 * 86_400;
    let findings = diagnose(&value);
    let titles: Vec<&str> = findings.iter().map(|f| f.title.as_str()).collect();
    assert_eq!(
        titles,
        vec![
            "1 external display connected",
            "Mac has been running for 14d 0h",
            "No obvious software heat source",
        ]
    );
    assert_eq!(overall(&findings), Severity::Cool);
}

#[test]
fn workload_is_found_in_the_lowercased_name() {
    let spotlight = app("MDS", vec![7], 30.0, 0, 60, 3);
    let lower: Vec<char> = "mds".chars().collect();
    let finding = finding_from_lowercase(&spotlight, &lower);
    assert_eq!(finding.title, "Spotlight indexing is active");
    assert_eq!(finding.severity, Severity::Warm);
    let upper: Vec<char> = "MDS".chars().collect();
    assert_eq!(finding_from_lowercase(&spotlight, &upper).title, "MDS is active");
    let kernel = app("kernel_task", vec![0], 95.0, 0, 60, 3);
    let lower: Vec<char> = "kernel_task".chars().collect();
    let finding = finding_from_lowercase(&kernel, &lower);
    assert_eq!(finding.title, "kernel_task is using 95% CPU");
    assert_eq!(finding.severity, Severity::Hot);
    assert!(finding.detail.ends_with("Do not kill it; reduce other workloads and let the Mac cool."));
}

#[test]
fn durations_cut_rather_than_round() {
    assert_eq!(duration(3_659), duration(3_600));
    assert_eq!(duration(7_199), "1h 59m");
    assert_eq!(duration(86_400 + 3_599), duration(86_400));
    assert_eq!(duration(86_400 + 3_599), "1d 0h");
}

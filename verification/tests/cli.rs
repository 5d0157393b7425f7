use std::time::Duration;

use whyhot::cli::{interval_value, parse_args, Action, Config, IntervalValue};
use whyhot::text::chars_of;

fn args(list: &[&str]) -> Vec<String> {
    list.iter().map(|a| a.to_string()).collect()
}

#[test]
fn parses_snapshot_options() {
    let args = ["--once", "--top", "7", "--interval", "0.5"];
    let action = parse_args(args.into_iter().map(String::from).collect()).unwrap();
    let Action::Run(config) = action else {
        panic!("expected run")
    };
    assert_eq!(config.top, 7);
    assert!(config.once);
    assert_eq!(Duration::from_nanos(config.interval_nanos), Duration::from_millis(500));
}

#[test]
fn no_arguments_run_with_defaults() {
    let action = parse_args(Vec::new()).unwrap();
    assert_eq!(action, Action::Run(Config::default()));
    let Action::Run(config) = action else {
        panic!("expected run")
    };
    assert!(!config.once);
    assert_eq!(Duration::from_nanos(config.interval_nanos), Duration::from_secs(2));
    assert_eq!(config.top, 10);
}

#[test]
fn help_and_version_win_over_later_arguments() {
    assert_eq!(parse_args(args(&["-1", "--help", "--bogus"])).unwrap(), Action::Help);
    assert_eq!(parse_args(args(&["-V"])).unwrap(), Action::Version);
    assert_eq!(parse_args(args(&["-h"])).unwrap(), Action::Help);
}

#[test]
fn short_options_and_later_values_override() {
    let Action::Run(config) = parse_args(args(&["-n", "3", "-i", "1", "-n", "50"])).unwrap() else {
        panic!("expected run")
    };
    assert_eq!(config.top, 50);
    assert_eq!(config.interval_nanos, 1_000_000_000);
    assert!(!config.once);
}

#[test]
fn every_error_is_reported() {
    assert_eq!(parse_args(args(&["--interval"])).unwrap_err(), "--interval requires seconds");
    assert_eq!(parse_args(args(&["-i", "fast"])).unwrap_err(), "interval must be a number");
    assert_eq!(
        parse_args(args(&["-i", "0.2"])).unwrap_err(),
        "interval must be between 0.25 and 60 seconds"
    );
    assert_eq!(
        parse_args(args(&["-i", "61"])).unwrap_err(),
        "interval must be between 0.25 and 60 seconds"
    );
    assert_eq!(
        parse_args(args(&["-i", "NaN"])).unwrap_err(),
        "interval must be between 0.25 and 60 seconds"
    );
    assert_eq!(parse_args(args(&["--top"])).unwrap_err(), "--top requires a count");
    assert_eq!(parse_args(args(&["--top", "seven"])).unwrap_err(), "top must be an integer");
    assert_eq!(parse_args(args(&["--top", "-1"])).unwrap_err(), "top must be an integer");
    assert_eq!(parse_args(args(&["--top", "0"])).unwrap_err(), "top must be between 1 and 50");
    assert_eq!(parse_args(args(&["--top", "51"])).unwrap_err(), "top must be between 1 and 50");
    assert_eq!(parse_args(args(&["--loud"])).unwrap_err(), "unknown argument: --loud");
}

fn std_reading(text: &str) -> IntervalValue {
    match text.parse::<f64>() {
        Err(_) => IntervalValue::NotNumber,
        Ok(seconds) if !(0.25..=60.0).contains(&seconds) => IntervalValue::OutOfRange,
        Ok(seconds) => IntervalValue::Nanos(Duration::from_secs_f64(seconds).as_nanos() as u64),
    }
}

#[test]
fn interval_reads_as_std_float_parsing_does() {
    let cases = [
        "0.5", "2", "60", "60.0", "60.000000001", "0.25", "0.2499", "+1.5", "-1", "-0", "0", ".5",
        "5.", ".", "", "1e1", "2.5E1", "1e2", "25e-1", "1e-9", "3e+1", "1e", "1e+", "e1", "1.2.3",
        " 1", "1 ", "inf", "-Infinity", "NaN", "nan", "0x10", "1_0", "0000000000000000000003.75",
        "0.333333333333", "12.3456789", "1.0000000004", "1.0000000016", "59.9999999996",
        "0.25000000049", "1e99999999999999999999999", "1e-99999999999999999999999",
        "0.000000000000000000000000000000001e33", "7.5", "45.123456789",
    ];
    for case in cases {
        assert_eq!(interval_value(&chars_of(case)), std_reading(case), "{case}");
    }
}

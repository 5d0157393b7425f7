//! The readings and findings the library works with.
//!
//! Percentages and load averages are held as whole hundredths (a CPU use of
//! 12.5% is 1250), so that every rule is exact integer arithmetic.

use vstd::prelude::*;

verus! {

/// One process as sampled.
pub struct ProcessRow {
    pub pid: u32,
    pub parent_pid: Option<u32>,
    /// CPU use in hundredths of a percent of one core.
    pub cpu_hundredths: u64,
    pub memory_bytes: u64,
    pub io_bytes_per_sec: u64,
    pub runtime_secs: u64,
    pub name: String,
    pub command: String,
}

/// The processes of one application, summed.
pub struct ApplicationRow {
    pub name: String,
    pub pids: Vec<u32>,
    /// CPU use in hundredths of a percent of one core.
    pub cpu_hundredths: u64,
    pub memory_bytes: u64,
    pub io_bytes_per_sec: u64,
    pub runtime_secs: u64,
    /// Consecutive samples in which the application was active.
    pub active_samples: u8,
}

/// Everything one diagnosis looks at.
pub struct Snapshot {
    /// Overall CPU use in hundredths of a percent.
    pub cpu_hundredths: u64,
    /// Memory use in hundredths of a percent.
    pub memory_hundredths: u64,
    /// One-, five- and fifteen-minute load averages, in hundredths.
    pub load_hundredths: [u64; 3],
    pub logical_cpus: usize,
    pub charging: Option<bool>,
    pub battery_percent: Option<u8>,
    pub battery_max_capacity: Option<u8>,
    pub battery_condition: Option<String>,
    pub external_displays: Option<usize>,
    pub thermal_state: Option<ThermalState>,
    pub uptime_secs: u64,
    pub cpu_active_samples: u8,
    pub applications: Vec<ApplicationRow>,
}

/// What macOS reports of its thermal management.
#[derive(Clone, Copy, Debug, PartialEq, Eq, Structural)]
pub enum ThermalState {
    Normal,
    Warning,
    Throttled,
}

/// How much a finding contributes to heat.
#[derive(Clone, Copy, Debug, PartialEq, Eq, Structural)]
pub enum Severity {
    Cool,
    Warm,
    Hot,
}

/// The label printed for a severity.
pub open spec fn severity_label(s: Severity) -> Seq<char> {
    match s {
        Severity::Cool => "COOL"@,
        Severity::Warm => "WARM"@,
        Severity::Hot => "HOT"@,
    }
}

impl Severity {
    /// The label printed for this severity.
    pub fn label(self) -> (r: &'static str)
        ensures
            r@ == severity_label(self),
    {
        match self {
            Severity::Cool => "COOL",
            Severity::Warm => "WARM",
            Severity::Hot => "HOT",
        }
    }
}

/// One explanation of heat.
pub struct Finding {
    pub severity: Severity,
    pub title: String,
    pub detail: String,
}

/// A finding seen as its severity, title and detail.
pub type FindingView = (Severity, Seq<char>, Seq<char>);

impl View for Finding {
    type V = FindingView;

    open spec fn view(&self) -> FindingView {
        (self.severity, self.title@, self.detail@)
    }
}

impl Finding {
    /// A copy of this finding.
    pub fn duplicate(&self) -> (r: Finding)
        ensures
            r@ == self@,
    {
        Finding { severity: self.severity, title: self.title.clone(), detail: self.detail.clone() }
    }
}

} // verus!

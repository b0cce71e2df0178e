//! The records that go into a reduction and the rows that come out of it.

use vstd::prelude::*;
use vstd::string::StringExecFns;

verus! {

/// The figure by which the rows are ordered.
#[derive(Clone, Copy, Debug, PartialEq, Eq, Structural)]
pub enum SortKey {
    Cpu,
    Memory,
}

impl SortKey {
    /// The key that a label selects: `"CPU"` the CPU figure, every other
    /// label the memory figure.
    pub open spec fn of_label(label: Seq<char>) -> SortKey {
        if label == "CPU"@ {
            SortKey::Cpu
        } else {
            SortKey::Memory
        }
    }

    /// Reads a label: see [`SortKey::of_label`].
    pub fn from_label(label: &String) -> (key: SortKey)
        ensures
            key == SortKey::of_label(label@),
    {
        let cpu_label = String::from_str("CPU");
        if *label == cpu_label {
            SortKey::Cpu
        } else {
            SortKey::Memory
        }
    }
}

/// What the process table holds of one process.
#[derive(Clone, Debug, PartialEq, Eq)]
pub struct RawProcessRecord {
    pub pid: u32,
    /// The display name, or `None` where the name could not be decoded.
    pub name: Option<String>,
    pub parent: Option<u32>,
    /// The CPU reading in millionths of a percent of one logical CPU, or
    /// `None` where the reading is not a number.
    pub cpu_usage_raw: Option<u64>,
    pub memory_bytes: u64,
}

/// A [`RawProcessRecord`] as a mathematical value.
pub struct RawProcessRecordView {
    pub pid: u32,
    pub name: Option<Seq<char>>,
    pub parent: Option<u32>,
    pub cpu_usage_raw: Option<u64>,
    pub memory_bytes: u64,
}

impl View for RawProcessRecord {
    type V = RawProcessRecordView;

    open spec fn view(&self) -> RawProcessRecordView {
        RawProcessRecordView {
            pid: self.pid,
            name: match self.name {
                Some(name) => Some(name@),
                None => None,
            },
            parent: self.parent,
            cpu_usage_raw: self.cpu_usage_raw,
            memory_bytes: self.memory_bytes,
        }
    }
}

impl DeepView for RawProcessRecord {
    type V = RawProcessRecordView;

    open spec fn deep_view(&self) -> RawProcessRecordView {
        self@
    }
}

/// One row of the reduced view. Both figures count hundredths of a percent;
/// `None` is a figure that is not a number.
#[derive(Clone, Debug, PartialEq, Eq)]
pub struct ProcessInfo {
    pub pid: u32,
    pub name: String,
    pub cpu_usage: Option<u64>,
    pub memory_usage: Option<u64>,
}

/// A [`ProcessInfo`] as a mathematical value.
pub struct ProcessInfoView {
    pub pid: u32,
    pub name: Seq<char>,
    pub cpu_usage: Option<u64>,
    pub memory_usage: Option<u64>,
}

impl View for ProcessInfo {
    type V = ProcessInfoView;

    open spec fn view(&self) -> ProcessInfoView {
        ProcessInfoView {
            pid: self.pid,
            name: self.name@,
            cpu_usage: self.cpu_usage,
            memory_usage: self.memory_usage,
        }
    }
}

impl DeepView for ProcessInfo {
    type V = ProcessInfoView;

    open spec fn deep_view(&self) -> ProcessInfoView {
        self@
    }
}

impl ProcessInfoView {
    /// The figure that `key` selects.
    pub open spec fn figure(self, key: SortKey) -> Option<u64> {
        match key {
            SortKey::Cpu => self.cpu_usage,
            SortKey::Memory => self.memory_usage,
        }
    }
}

impl ProcessInfo {
    /// The figure that `key` selects.
    pub fn figure(&self, key: SortKey) -> (figure: Option<u64>)
        ensures
            figure == self@.figure(key),
    {
        match key {
            SortKey::Cpu => self.cpu_usage,
            SortKey::Memory => self.memory_usage,
        }
    }
}

} // verus!

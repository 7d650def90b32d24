use vstd::prelude::*;
use crate::text::{concat_str, decimal, u64_to_string};

verus! {

/// What the system information panel shows, gathered from the operating system.
pub struct SystemSummary {
    pub name: String,
    pub cores: u64,
    pub disks: u64,
    pub kernel_version: String,
    /// Memory amounts, in bytes.
    pub total_memory: u64,
    pub available_memory: u64,
    pub free_memory: u64,
    pub used_memory: u64,
    pub processes: u64,
    /// The latest CPU usage of the graph, already written with three decimals.
    pub cpu_usage_text: String,
    /// The latest memory usage of the graph, already written with three decimals.
    pub mem_usage_text: String,
}

/// The lines of the system information panel.
pub open spec fn summary_lines_view(s: SystemSummary) -> Seq<Seq<char>> {
    seq![
        "System name = "@ + s.name@,
        "Number of cores = "@ + decimal(s.cores as nat),
        "Number of disks = "@ + decimal(s.disks as nat),
        "Kernel version = "@ + s.kernel_version@,
        "Total memory = "@ + decimal(s.total_memory as nat) + " bytes"@,
        "Available memory = "@ + decimal(s.available_memory as nat) + " bytes"@,
        "Free memory \n = "@ + decimal(s.free_memory as nat) + " bytes"@,
        "Used memory = "@ + decimal(s.used_memory as nat) + " bytes"@,
        "Number of processes = "@ + decimal(s.processes as nat) + " process"@,
        "CPU usage  = "@ + s.cpu_usage_text@ + " %"@,
        "Memory usage  = "@ + s.mem_usage_text@ + " %"@,
    ]
}

/// `label`, the decimal notation of `n`, then `unit`.
fn labelled_number(label: &str, n: u64, unit: &str) -> (line: String)
    ensures
        line@ == label@ + decimal(n as nat) + unit@,
{
    let number = u64_to_string(n);
    let head = concat_str(label, number.as_str());
    concat_str(head.as_str(), unit)
}

/// The lines of the system information panel.
pub fn summary_lines(s: &SystemSummary) -> (lines: Vec<String>)
    ensures
        lines.deep_view() == summary_lines_view(*s),
{
    let cpu = concat_str("CPU usage  = ", s.cpu_usage_text.as_str());
    let mem = concat_str("Memory usage  = ", s.mem_usage_text.as_str());
    let lines: Vec<String> = vec![
        concat_str("System name = ", s.name.as_str()),
        labelled_number("Number of cores = ", s.cores, ""),
        labelled_number("Number of disks = ", s.disks, ""),
        concat_str("Kernel version = ", s.kernel_version.as_str()),
        labelled_number("Total memory = ", s.total_memory, " bytes"),
        labelled_number("Available memory = ", s.available_memory, " bytes"),
        labelled_number("Free memory \n = ", s.free_memory, " bytes"),
        labelled_number("Used memory = ", s.used_memory, " bytes"),
        labelled_number("Number of processes = ", s.processes, " process"),
        concat_str(cpu.as_str(), " %"),
        concat_str(mem.as_str(), " %"),
    ];
    proof {
        reveal_strlit("");
        assert(""@ =~= Seq::<char>::empty());
    }
    assert(lines.deep_view() =~= summary_lines_view(*s));
    lines
}

} // verus!

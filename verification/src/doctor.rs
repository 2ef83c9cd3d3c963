//! Whether the machine has what the tracker needs.
use crate::linux::exited;
use crate::text::{concat2, decimal, same_text, signed_text};
use vstd::prelude::*;

verus! {

/// What the machine has of what the tracker needs.
#[verifier::ext_equal]
pub struct DoctorReportView {
    pub supported: bool,
    pub kernel: Seq<char>,
    pub architecture: Seq<char>,
    pub notification_sizes: Option<(u16, u16, u16)>,
    pub listener_probe: Seq<char>,
    pub proc_mem: Seq<char>,
}

/// What the machine has of what the tracker needs.
#[derive(Debug)]
pub struct DoctorReport {
    pub supported: bool,
    pub kernel: String,
    pub architecture: String,
    pub notification_sizes: Option<(u16, u16, u16)>,
    pub listener_probe: String,
    pub proc_mem: String,
}

impl View for DoctorReport {
    type V = DoctorReportView;

    open spec fn view(&self) -> DoctorReportView {
        DoctorReportView {
            supported: self.supported,
            kernel: self.kernel@,
            architecture: self.architecture@,
            notification_sizes: self.notification_sizes,
            listener_probe: self.listener_probe@,
            proc_mem: self.proc_mem@,
        }
    }
}

/// The end of the probe's target says that it was observed and let go on.
pub fn probe_result(status: i32) -> (result: Result<(), String>)
    ensures
        match result {
            Ok(_) => exited(status) && (status >> 8) & 0xff == 0,
            Err(message) => !(exited(status) && (status >> 8) & 0xff == 0) && message@
                == "probe exited with status "@ + decimal(status as int),
        },
{
    if libc::WIFEXITED(status) && libc::WEXITSTATUS(status) == 0 {
        Ok(())
    } else {
        Err(concat2("probe exited with status ", signed_text(status).as_str()))
    }
}

/// What is said of something that is there or not.
pub open spec fn availability(found: Result<(), String>) -> Seq<char> {
    match found {
        Ok(_) => "available"@,
        Err(message) => "unavailable: "@ + message@,
    }
}

fn availability_text(found: &Result<(), String>) -> (text: String)
    ensures
        text@ == availability(*found),
{
    match found {
        Ok(_) => "available".to_owned(),
        Err(message) => concat2("unavailable: ", message.as_str()),
    }
}

/// The tracker knows the system calls of the architecture.
pub open spec fn is_known_architecture(name: Seq<char>) -> bool {
    name == "aarch64"@ || name == "x86_64"@
}

/// What the machine has of what the tracker needs: it is supported where the kernel knows
/// notifications, a probe was observed, the memory of a process can be read, and the
/// architecture is known.
pub fn doctor(
    kernel: Result<String, String>,
    architecture: &str,
    sizes: Option<(u16, u16, u16)>,
    listener: &Result<(), String>,
    proc_mem: &Result<(), String>,
) -> (report: DoctorReport)
    ensures
        report@ == (DoctorReportView {
            supported: sizes is Some && *listener is Ok && *proc_mem is Ok && is_known_architecture(
                architecture@,
            ),
            kernel: match kernel {
                Ok(release) => release@,
                Err(message) => "unknown: "@ + message@,
            },
            architecture: architecture@,
            notification_sizes: sizes,
            listener_probe: availability(*listener),
            proc_mem: availability(*proc_mem),
        }),
{
    let supported = sizes.is_some() && listener.is_ok() && proc_mem.is_ok() && (same_text(
        architecture,
        "aarch64",
    ) || same_text(architecture, "x86_64"));
    DoctorReport {
        supported,
        kernel: match kernel {
            Ok(release) => release,
            Err(message) => concat2("unknown: ", message.as_str()),
        },
        architecture: architecture.to_owned(),
        notification_sizes: sizes,
        listener_probe: availability_text(listener),
        proc_mem: availability_text(proc_mem),
    }
}

/// A machine is supported exactly where the kernel tells the sizes of its notifications, a probe
/// was observed, the memory of a process can be read, and the architecture is one of two.
pub proof fn a_supported_machine_has_everything(
    kernel: Result<String, String>,
    architecture: &str,
    sizes: Option<(u16, u16, u16)>,
    listener: Result<(), String>,
    proc_mem: Result<(), String>,
    report: DoctorReport,
)
    requires
        call_ensures(doctor, (kernel, architecture, sizes, &listener, &proc_mem), report),
    ensures
        report.supported <==> sizes is Some && listener is Ok && proc_mem is Ok && (architecture@
            == "aarch64"@ || architecture@ == "x86_64"@),
        report.notification_sizes == sizes,
        report.architecture@ == architecture@,
        kernel is Ok ==> report.kernel@ == kernel->Ok_0@,
        kernel is Err ==> report.kernel@ == "unknown: "@ + kernel->Err_0@,
        listener is Ok ==> report.listener_probe@ == "available"@,
        listener is Err ==> report.listener_probe@ == "unavailable: "@ + listener->Err_0@,
        proc_mem is Ok ==> report.proc_mem@ == "available"@,
        proc_mem is Err ==> report.proc_mem@ == "unavailable: "@ + proc_mem->Err_0@,
{
}

/// A probe went well exactly where its target exited with zero.
pub proof fn a_probe_exits_with_zero(status: i32, result: Result<(), String>)
    requires
        call_ensures(probe_result, (status,), result),
    ensures
        result is Ok <==> status & 0x7f == 0 && (status >> 8) & 0xff == 0,
        result is Err ==> result->Err_0@ == "probe exited with status "@ + decimal(status as int),
{
}

} // verus!

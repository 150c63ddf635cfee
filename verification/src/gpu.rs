//! Best-effort detection of GPU offload from the CPU side.
//!
//! Only CPU counters are measured, so for a job that offloads its compute to a GPU the
//! CPU-side numbers are misleading. That a process drives a GPU shows in its open files
//! and its mapped libraries. NVIDIA's device files are compute-only, so one of them open
//! is proof. A render node is also used for graphics, and `/dev/kfd` is opened by probes
//! that compute nothing, so those need a mapped compute runtime besides.

use crate::text::{chars_of, contains, occurs, strings};
use vstd::prelude::*;

verus! {

/// What an open file tells of GPU use.
pub enum FdHit {
    /// A compute device: proof by itself.
    Compute(&'static str),
    /// A device node that needs a mapped runtime to confirm it.
    DeviceNode,
}

pub open spec fn is_nvidia(target: Seq<char>) -> bool {
    occurs(target, "/dev/nvidia"@)
}

pub open spec fn is_device_node(target: Seq<char>) -> bool {
    !is_nvidia(target) && (occurs(target, "/dev/kfd"@) || occurs(target, "/dev/dri/renderD"@))
}

/// Classify the target of one `/proc/<pid>/fd/*` link.
pub fn classify_fd(target: &str) -> (r: Option<FdHit>)
    ensures
        match r {
            Some(FdHit::Compute(vendor)) => is_nvidia(target@) && vendor@ == "NVIDIA"@,
            Some(FdHit::DeviceNode) => is_device_node(target@),
            None => !is_nvidia(target@) && !is_device_node(target@),
        },
{
    let v: Vec<char> = chars_of(target);
    if contains(v.as_slice(), "/dev/nvidia") {
        Some(FdHit::Compute("NVIDIA"))
    } else if contains(v.as_slice(), "/dev/kfd") || contains(v.as_slice(), "/dev/dri/renderD") {
        Some(FdHit::DeviceNode)
    } else {
        None
    }
}

/// The vendor of the compute runtime that is mapped; none where no known one is.
pub open spec fn runtime_vendor(maps: Seq<char>) -> Option<Seq<char>> {
    if occurs(maps, "libcuda"@) || occurs(maps, "libcudart"@) || occurs(maps, "libnvidia"@) {
        Some("NVIDIA"@)
    } else if occurs(maps, "libamdhip64"@) || occurs(maps, "libhsa-runtime"@) || occurs(
        maps,
        "libamdocl"@,
    ) {
        Some("AMD ROCm"@)
    } else if occurs(maps, "libze_loader"@) || occurs(maps, "libze_intel"@) || occurs(
        maps,
        "libigdrcl"@,
    ) {
        Some("Intel oneAPI"@)
    } else if occurs(maps, "libOpenCL"@) {
        Some("OpenCL"@)
    } else {
        None
    }
}

/// The text of a vendor's name, where there is one.
pub open spec fn vendor_text(v: Option<&'static str>) -> Option<Seq<char>> {
    match v {
        Some(s) => Some(s@),
        None => None,
    }
}

/// Identify a mapped GPU compute runtime in the text of `/proc/<pid>/maps`.
pub fn vendor_from_maps(maps: &str) -> (r: Option<&'static str>)
    ensures
        vendor_text(r) == runtime_vendor(maps@),
{
    let v: Vec<char> = chars_of(maps);
    let m: &[char] = v.as_slice();
    if contains(m, "libcuda") || contains(m, "libcudart") || contains(m, "libnvidia") {
        Some("NVIDIA")
    } else if contains(m, "libamdhip64") || contains(m, "libhsa-runtime") || contains(
        m,
        "libamdocl",
    ) {
        Some("AMD ROCm")
    } else if contains(m, "libze_loader") || contains(m, "libze_intel") || contains(
        m,
        "libigdrcl",
    ) {
        Some("Intel oneAPI")
    } else if contains(m, "libOpenCL") {
        Some("OpenCL")
    } else {
        None
    }
}

/// The vendor that a process with these open files and maps drives.
pub open spec fn offload_vendor(targets: Seq<Seq<char>>, maps: Seq<char>) -> Option<Seq<char>> {
    if exists|i: int| 0 <= i < targets.len() && is_nvidia(#[trigger] targets[i]) {
        Some("NVIDIA"@)
    } else if exists|i: int| 0 <= i < targets.len() && is_device_node(#[trigger] targets[i]) {
        runtime_vendor(maps)
    } else {
        None
    }
}

/// The GPU vendor driving a process, from the targets of its open files and the text of
/// its maps; none if no GPU use is seen.
pub fn detect(targets: &Vec<String>, maps: &str) -> (r: Option<&'static str>)
    ensures
        vendor_text(r) == offload_vendor(strings(targets@), maps@),
{
    let ghost all = strings(targets@);
    let mut device_node: bool = false;
    let mut i: usize = 0;
    while i < targets.len()
        invariant
            i <= targets.len(),
            all == strings(targets@),
            forall|k: int| 0 <= k < i ==> !is_nvidia(#[trigger] all[k]),
            device_node == exists|k: int| 0 <= k < i && is_device_node(#[trigger] all[k]),
        decreases targets.len() - i,
    {
        assert(all[i as int] == targets@[i as int]@);
        match classify_fd(targets[i].as_str()) {
            Some(FdHit::Compute(vendor)) => {
                assert(is_nvidia(all[i as int]));
                return Some(vendor);
            },
            Some(FdHit::DeviceNode) => {
                assert(is_device_node(all[i as int]));
                device_node = true;
            },
            None => {},
        }
        i += 1;
    }
    if device_node {
        vendor_from_maps(maps)
    } else {
        None
    }
}

/// A process that opened no GPU device is not taken for one that offloads, whatever it
/// has mapped.
pub proof fn law_runtime_alone_is_no_offload(targets: Seq<Seq<char>>, maps: Seq<char>)
    requires
        forall|i: int|
            0 <= i < targets.len() ==> !is_nvidia(#[trigger] targets[i]) && !is_device_node(
                targets[i],
            ),
    ensures
        offload_vendor(targets, maps) is None,
{
}

} // verus!

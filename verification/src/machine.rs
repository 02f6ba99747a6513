//! What the machine this is running on can be asked about itself.
//!
//! Two questions, asked because the alternative is a constant that is wrong in
//! both directions: a budget sized for a workstation makes a laptop swap, and
//! one sized for a laptop leaves a workstation reading its frames twice.
//!
//! Every answer is a fact about the machine and never about the frames; what to
//! do with it belongs to the pass that asks. What the machine reports is not
//! knowable here, so the contracts say only what holds whatever it reports.
use vstd::prelude::*;

verus! {

#[verifier::external_type_specification]
#[verifier::external_body]
pub struct ExSystem(sysinfo::System);

/// `sysinfo::System::physical_core_count`: the machine's count of physical
/// cores, or `None` where the platform returned an error (the error itself is
/// dropped). Nothing is claimed of the number.
#[verifier::external_body]
fn physical_core_count() -> (r: Option<usize>) {
    sysinfo::System::physical_core_count().ok()
}

/// `sysinfo::System::new`: a handle with nothing loaded yet, or `None` where
/// the platform returned an error. Nothing is claimed of what it will report.
#[verifier::external_body]
fn new_system() -> (r: Option<sysinfo::System>) {
    sysinfo::System::new().ok()
}

/// `sysinfo::System::refresh_memory`: loads the memory figures. What they are
/// is the machine's business.
#[verifier::external_body]
fn refresh_memory(system: &mut sysinfo::System) {
    system.refresh_memory()
}

/// `sysinfo::System::total_memory`: the physical memory, in bytes, as last
/// loaded. Nothing is claimed of the number.
#[verifier::external_body]
fn total_memory(system: &sysinfo::System) -> (r: u64) {
    system.total_memory()
}

/// A count the machine reported, kept only when it is a count of something.
pub fn nonzero_count(reported: Option<usize>) -> (r: Option<usize>)
    ensures
        r == (match reported {
            Some(n) => if n > 0 {
                Some(n)
            } else {
                None
            },
            None => None,
        }),
{
    match reported {
        Some(n) => if n > 0 {
            Some(n)
        } else {
            None
        },
        None => None,
    }
}

/// A memory size the machine reported, kept only when it is not zero.
pub fn nonzero_bytes(total: u64) -> (r: Option<u64>)
    ensures
        r == if total > 0 {
            Some(total)
        } else {
            None
        },
{
    if total > 0 {
        Some(total)
    } else {
        None
    }
}

/// How many cores the machine really has, or `None` where it will not say.
///
/// Physical cores rather than logical parallelism: on a part with
/// simultaneous multithreading the second thread on a core brings no decoder
/// of its own and shares the cache and the memory pipe with the first.
pub fn physical_cores() -> (r: Option<usize>)
    ensures
        r matches Some(n) ==> n > 0,
{
    nonzero_count(physical_core_count())
}

/// How much physical memory the machine has, in bytes, or `None` where it
/// will not say.
///
/// Total and deliberately not available: free memory is a fact about the
/// moment rather than the machine, and a budget cut from it would send two
/// identically sized sets down different paths depending on what else was
/// open.
pub fn total_bytes() -> (r: Option<u64>)
    ensures
        r matches Some(n) ==> n > 0,
{
    match new_system() {
        Some(mut system) => {
            refresh_memory(&mut system);
            nonzero_bytes(total_memory(&system))
        },
        None => None,
    }
}

} // verus!

//! The snapshot of running processes, as the `sysinfo` crate takes it.

use vstd::prelude::*;

verus! {

/// `sysinfo::System`, the snapshot itself. Its fields stay hidden.
#[verifier::external_type_specification]
#[verifier::external_body]
pub struct ExSystem(sysinfo::System);

/// The processes in a snapshot: for each number `n` under which there is one, its name, with
/// undecodable parts replaced. What stands under `n` is what the snapshot holds under
/// `sysinfo::Pid::from(n)`; on targets where that keeps 32 bits only, numbers that have them
/// in common stand for one process.
pub uninterp spec fn process_names(sys: sysinfo::System) -> Map<usize, Seq<char>>;

/// Calls `sysinfo::System::process`, which looks a process up in the snapshot by its
/// number. Claimed: there is a process exactly when the snapshot holds that number, and
/// the name is the one the snapshot holds for it.
#[verifier::external_body]
pub(crate) fn process_name(sys: &sysinfo::System, number: usize) -> (r: Option<String>)
    ensures
        match r {
            Some(name) => process_names(*sys).contains_key(number) && name@
                == process_names(*sys)[number],
            None => !process_names(*sys).contains_key(number),
        },
{
    match sys.process(sysinfo::Pid::from(number)) {
        Some(process) => Some(process.name().to_string_lossy().into_owned()),
        None => None,
    }
}

} // verus!

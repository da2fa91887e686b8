//! The single-slot supervisor of the external search-engine process. The
//! slot holds at most one live process handle; the handle type is opaque to
//! the library and owned by the caller, which spawns, writes, and kills.
//! The functions here decide: whether a spawn may install its handle,
//! what line a command becomes and whether there is a process to take it,
//! and who owns the handle when the process is stopped.

use vstd::prelude::*;
use vstd::string::StringExecFns;

verus! {

/// The single-occupancy holder of the external process handle.
pub struct ProcessSlot<H> {
    handle: Option<H>,
}

impl<H> ProcessSlot<H> {
    pub closed spec fn spec_handle(&self) -> Option<H> {
        self.handle
    }

    /// Whether a process occupies the slot.
    pub open spec fn occupied(&self) -> bool {
        self.spec_handle() is Some
    }

    pub fn empty() -> (r: ProcessSlot<H>)
        ensures
            !r.occupied(),
    {
        ProcessSlot { handle: None }
    }

    pub fn is_occupied(&self) -> (r: bool)
        ensures
            r == self.occupied(),
    {
        self.handle.is_some()
    }

    /// A freshly spawned process claims the slot. An occupied slot is left
    /// alone and the new handle is handed back for the caller to dispose
    /// of: never more than one live process in the slot.
    pub fn install(&mut self, h: H) -> (rejected: Option<H>)
        ensures
            old(self).occupied() ==> *final(self) == *old(self) && rejected == Some(h),
            !old(self).occupied() ==> final(self).spec_handle() == Some(h) && rejected is None,
    {
        if self.handle.is_some() {
            Some(h)
        } else {
            self.handle = Some(h);
            None
        }
    }
}

/// Stop the external process: take sole ownership of the handle out of the
/// slot, leaving it empty, so that exactly one caller ever kills or waits
/// on a given handle. Stopping an empty slot is a no-op that succeeds.
pub fn stop_python_process<H>(slot: &mut ProcessSlot<H>) -> (r: Option<H>)
    ensures
        !final(slot).occupied(),
        r == old(slot).spec_handle(),
{
    slot.handle.take()
}

/// The line a command becomes on the process's input, newline-terminated,
/// if a process is there to take it: a command to an empty slot is a no-op,
/// never an error, since the process may have exited at any time.
pub fn send_command_to_python<H>(slot: &ProcessSlot<H>, command: &str) -> (r: Option<String>)
    ensures
        slot.occupied() ==> (r matches Some(line) && line@ == command@ + "\n"@),
        !slot.occupied() ==> r is None,
{
    if slot.is_occupied() {
        Some(command.to_owned().concat("\n"))
    } else {
        None
    }
}

/// The re-index command, for the process in the slot if any.
pub fn index_data<H>(slot: &ProcessSlot<H>) -> (r: Option<String>)
    ensures
        slot.occupied() ==> (r matches Some(line) && line@ == "{\"index\":true}"@ + "\n"@),
        !slot.occupied() ==> r is None,
{
    send_command_to_python(slot, "{\"index\":true}")
}

} // verus!

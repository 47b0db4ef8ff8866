//! The attach/dump/detach session model.  A [`Ptrace`] value stands for a
//! live attachment to a traced process; it exists only after a successful
//! attach, remembers whether the raw memory stream has been opened, and
//! decides what a region dump does to the caller's buffer for every outcome
//! of the underlying read.  The system calls themselves (attach, detach,
//! seek, read) are performed by the embedding program, which hands their
//! raw results to these functions.

use crate::error::Error;
use crate::memory::Region;
use vstd::prelude::*;

verus! {

/// Classifies the raw result of a ptrace control call: the call reports
/// failure by returning the all-ones word (-1) with a nonzero `errno`;
/// any other combination is success.
pub fn ptrace_outcome(ret: u64, errno: i32) -> (r: Result<u64, Error>)
    ensures
        r == (if ret == u64::MAX && errno != 0 {
            Err::<u64, Error>(Error::Ptrace(errno))
        } else {
            Ok::<u64, Error>(ret)
        }),
{
    if ret == u64::MAX && errno != 0 {
        Err(Error::Ptrace(errno))
    } else {
        Ok(ret)
    }
}

/// A live tracing session: the traced process id, and whether the raw
/// memory stream has been opened yet.  Exactly one live attachment per
/// instance; the embedding program must issue the detach exactly once when
/// the instance is dropped.
#[derive(Debug)]
pub struct Ptrace {
    pid: u32,
    mem_open: bool,
}

impl Ptrace {
    /// The traced process id.
    pub closed spec fn spec_pid(&self) -> u32 {
        self.pid
    }

    /// Whether the raw memory stream has been opened.
    pub closed spec fn spec_mem_open(&self) -> bool {
        self.mem_open
    }

    /// Builds the session from the raw result of the attach call: on
    /// success the session starts with the memory stream unopened; on
    /// failure no session exists, only the ptrace error carrying the OS
    /// error code.
    pub fn new(pid: u32, attach_ret: u64, attach_errno: i32) -> (r: Result<Ptrace, Error>)
        ensures
            match r {
                Ok(p) => !(attach_ret == u64::MAX && attach_errno != 0) && p.spec_pid() == pid
                    && !p.spec_mem_open(),
                Err(e) => attach_ret == u64::MAX && attach_errno != 0 && e == Error::Ptrace(
                    attach_errno,
                ),
            },
    {
        match ptrace_outcome(attach_ret, attach_errno) {
            Ok(_) => Ok(Ptrace { pid, mem_open: false }),
            Err(e) => Err(e),
        }
    }

    /// The traced process id.
    pub fn pid(&self) -> (r: u32)
        ensures
            r == self.spec_pid(),
    {
        self.pid
    }

    /// Whether the raw memory stream has been opened yet; when it has not,
    /// the embedding program opens it once and records that here.
    pub fn mem_is_open(&self) -> (r: bool)
        ensures
            r == self.spec_mem_open(),
    {
        self.mem_open
    }

    /// Records that the raw memory stream is now open.
    pub fn set_mem_open(&mut self)
        ensures
            final(self).spec_mem_open(),
            final(self).spec_pid() == old(self).spec_pid(),
    {
        self.mem_open = true;
    }

    /// Applies the outcome of an exact-length read of the region's bytes
    /// to the output buffer.  On a full read of exactly `region.size()`
    /// bytes the buffer grows by exactly those bytes; on a short read or a
    /// read error the buffer is left at exactly its previous length — the
    /// caller never observes partial bytes — and an I/O error is returned
    /// (read failures come from the memory stream, not the control call,
    /// so they are not ptrace errors).
    pub fn dump(&self, region: &Region, read: Result<Vec<u8>, i32>, buffer: &mut Vec<u8>) -> (r:
        Result<(), Error>)
        requires
            region.start <= region.end,
        ensures
            match read {
                Ok(data) => if data@.len() == region.end - region.start {
                    r == Ok::<(), Error>(()) && final(buffer)@ == old(buffer)@ + data@
                } else {
                    r == Err::<(), Error>(Error::IO(None)) && final(buffer)@ == old(buffer)@
                },
                Err(code) => r == Err::<(), Error>(Error::IO(Some(code))) && final(buffer)@
                    == old(buffer)@,
            },
    {
        let size = region.size();
        match read {
            Ok(mut data) => {
                if data.len() as u64 == size {
                    buffer.append(&mut data);
                    Ok(())
                } else {
                    Err(Error::IO(None))
                }
            },
            Err(code) => Err(Error::IO(Some(code))),
        }
    }
}

} // verus!

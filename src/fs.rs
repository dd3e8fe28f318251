//! Flags for opening files.
use vstd::prelude::*;

verus! {

/// Open for reading only.
pub const O_RDONLY: u32 = 0;
/// Open for writing only.
pub const O_WRONLY: u32 = 1;
/// Open for reading and writing.
pub const O_RDWR: u32 = 2;
/// Create the file where it does not exist.
pub const O_CREATE: u32 = 512;
/// Empty the file on opening.
pub const O_TRUNC: u32 = 1024;

/// The flags of an `open` call.
#[derive(Clone, Copy, Debug, PartialEq, Eq, Structural)]
pub struct OpenFlags {
    pub bits: u32,
}

impl OpenFlags {
    /// Whether every bit of `other` is set here.
    pub fn contains(&self, other: u32) -> (r: bool)
        ensures
            r == (self.bits & other == other),
    {
        self.bits & other == other
    }

    /// Whether the file may be read and written, as `(readable, writable)`:
    /// no flag opens for reading only, write-only for writing only, anything
    /// else for both. Validity is not checked.
    pub fn read_write(&self) -> (r: (bool, bool))
        ensures
            self.bits == 0 ==> r == (true, false),
            self.bits != 0 && self.bits & O_WRONLY == O_WRONLY ==> r == (false, true),
            self.bits != 0 && self.bits & O_WRONLY != O_WRONLY ==> r == (true, true),
    {
        if self.bits == 0 {
            (true, false)
        } else if self.contains(O_WRONLY) {
            (false, true)
        } else {
            (true, true)
        }
    }
}

} // verus!

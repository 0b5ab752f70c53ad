//! The settings under which every entry of one output container is written.

use vstd::prelude::*;

verus! {

/// How the bytes of an entry are stored in the output container.
#[derive(Debug, Clone, Copy, PartialEq, Eq, Structural)]
pub enum Compression {
    /// The bytes are stored as they are.
    Stored,
    /// The bytes are compressed with deflate.
    Deflated,
}

/// The settings of one write: they hold for every entry of the output, and
/// cannot be set for a single entry.
#[derive(Debug, Clone, Copy)]
pub struct WriteOptions {
    /// The compression method of every entry.
    pub compression: Compression,
    /// The unix permission bits of every entry. Only the lowest nine bits
    /// reach the container.
    pub permissions: u32,
}

/// The permission bits of `options` that reach the container.
pub open spec fn stored_permissions(options: WriteOptions) -> u32 {
    options.permissions & 0o777
}

/// The usual settings: deflate, and read-write for the owner but read-only
/// for all others.
pub open spec fn usual_options() -> WriteOptions {
    WriteOptions { compression: Compression::Deflated, permissions: 0o644 }
}

impl Default for WriteOptions {
    /// The usual settings.
    fn default() -> (r: Self)
        ensures
            r == usual_options(),
    {
        WriteOptions { compression: Compression::Deflated, permissions: 0o644 }
    }
}

} // verus!

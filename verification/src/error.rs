use vstd::prelude::*;

verus! {

/// Every way an operation of the engine can fail.
#[derive(Debug, Clone, Copy, PartialEq, Eq, Structural)]
pub enum LsmError {
    /// A delete named a key that is absent or already deleted.
    KeyNotFound,
    /// A memtable that is already frozen was frozen again, or written to.
    MemtableImmutable,
    /// A block builder was asked for an entry that does not fit its target size.
    BlockFull,
    /// A length does not fit the width the format reserves for it.
    SizeOverflow,
    /// A read reached outside the file image.
    IoError,
    /// Reserved: the format computes no checksum.
    ChecksumMismatch,
}

impl LsmError {
    /// A short human-readable description of the error.
    pub fn message(&self) -> (s: &'static str)
        ensures
            s@ == (match *self {
                LsmError::KeyNotFound => "key cannot be deleted because it does not exist"@,
                LsmError::MemtableImmutable => "cannot modify immutable table"@,
                LsmError::BlockFull => "max block size reached"@,
                LsmError::SizeOverflow => "length does not fit the format"@,
                LsmError::IoError => "read outside the file image"@,
                LsmError::ChecksumMismatch => "checksum mismatch"@,
            }),
    {
        match self {
            LsmError::KeyNotFound => "key cannot be deleted because it does not exist",
            LsmError::MemtableImmutable => "cannot modify immutable table",
            LsmError::BlockFull => "max block size reached",
            LsmError::SizeOverflow => "length does not fit the format",
            LsmError::IoError => "read outside the file image",
            LsmError::ChecksumMismatch => "checksum mismatch",
        }
    }
}

} // verus!

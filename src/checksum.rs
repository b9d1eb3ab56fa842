use vstd::prelude::*;

use crate::Error;

verus! {

/// The CRC-32 (IEEE, reflected) of a byte sequence.
pub uninterp spec fn crc32_of(data: Seq<u8>) -> u32;

/// Relies on `crc32fast::hash`: the standard CRC-32 of `data`, which depends on
/// the bytes alone.
#[verifier::external_body]
pub(crate) fn crc32(data: &[u8]) -> (r: u32)
    ensures
        r == crc32_of(data@),
{
    crc32fast::hash(data)
}

/// The expected length and CRC-32 of a buffer.
#[derive(Debug, Clone, Copy, PartialEq, Eq, Structural)]
pub struct Validation {
    pub size: usize,
    pub crc: u32,
}

impl Validation {
    /// The outcome of checking a buffer of length `len` whose CRC-32 is `hash`:
    /// the size is checked first, then the checksum.
    pub open spec fn outcome(self, len: nat, hash: u32) -> Result<(), Error> {
        if len != self.size {
            Err(Error::SizeMismatch(len as usize, self.size))
        } else if hash != self.crc {
            Err(Error::ChecksumMismatch(hash, self.crc))
        } else {
            Ok(())
        }
    }

    /// A buffer of the wrong length fails with `SizeMismatch` whatever its
    /// checksum; one of the right length fails with `ChecksumMismatch` exactly
    /// when its CRC-32 differs, and passes otherwise.
    pub proof fn lemma_outcome(self, len: nat, hash: u32)
        requires
            len <= usize::MAX,
        ensures
            len != self.size ==> self.outcome(len, hash) == Err::<(), Error>(
                Error::SizeMismatch(len as usize, self.size),
            ),
            len == self.size && hash != self.crc ==> self.outcome(len, hash) == Err::<(), Error>(
                Error::ChecksumMismatch(hash, self.crc),
            ),
            len == self.size && hash == self.crc ==> self.outcome(len, hash) == Ok::<(), Error>(()),
    {
    }

    /// Checks a buffer of length `len` whose CRC-32 is `hash`.
    pub fn check(&self, len: usize, hash: u32) -> (r: Result<(), Error>)
        ensures
            r == self.outcome(len as nat, hash),
    {
        if len != self.size {
            Err(Error::SizeMismatch(len, self.size))
        } else if hash != self.crc {
            Err(Error::ChecksumMismatch(hash, self.crc))
        } else {
            Ok(())
        }
    }

    /// Checks `data` against the expected size, then against the expected CRC-32.
    pub fn validate(&self, data: &[u8]) -> (r: Result<(), Error>)
        ensures
            r == self.outcome(data@.len(), crc32_of(data@)),
    {
        if data.len() != self.size {
            return Err(Error::SizeMismatch(data.len(), self.size));
        }
        let hash = crc32(data);
        self.check(data.len(), hash)
    }
}

} // verus!

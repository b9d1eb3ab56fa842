use vstd::prelude::*;

pub mod checksum;
pub mod bps;
pub mod ips;
pub mod ups;
pub mod varint;
pub mod wire;

pub use bps::BpsPatch;
pub use checksum::Validation;
pub use ips::Patch as IpsPatch;
pub use ups::UpsPatch;
pub use varint::{ReadVarExt, WriteVarExt};

verus! {

use crate::bps::{bps_magic, parse_bps};
use crate::ips::{ips_magic, parse_ips};
use crate::ups::{parse_ups, ups_magic};

/// Why loading, validating or applying a patch failed.
#[derive(Debug, Clone, Copy, PartialEq, Eq, Structural)]
pub enum Error {
    /// The file does not start with the format's magic value.
    MagicMismatch,
    /// The input ended in the middle of a field.
    TruncatedInput,
    /// A buffer's length (first) differs from the expected one (second).
    SizeMismatch(usize, usize),
    /// A CRC-32 (first) differs from the expected one (second).
    ChecksumMismatch(u32, u32),
    /// The patch is internally inconsistent: a cursor or offset leaves its buffer.
    InvalidPatch,
}

/// The outcome of an operation that yields bytes, with the bytes as a sequence.
pub open spec fn bytes_result(r: Result<Vec<u8>, Error>) -> Result<Seq<u8>, Error> {
    match r {
        Ok(v) => Ok(v@),
        Err(e) => Err(e),
    }
}

/// What every patch format offers: applying it to a source buffer, checking a
/// source buffer, and writing the patch back out.
pub trait Patch {
    /// What `apply` gives for a source buffer holding `rom`.
    spec fn apply_spec(&self, rom: Seq<u8>) -> Result<Seq<u8>, Error>;

    /// What `validate` gives for a source buffer holding `rom`.
    spec fn validate_spec(&self, rom: Seq<u8>) -> Option<Result<(), Error>>;

    /// What `export` gives when asked to check against `crc`.
    spec fn export_spec(&self, crc: Option<u32>) -> Result<Seq<u8>, Error>;

    /// Builds the target buffer from the source buffer `rom`.
    fn apply(&self, rom: &[u8]) -> (r: Result<Vec<u8>, Error>)
        ensures
            bytes_result(r) == self.apply_spec(rom@),
    ;

    /// Checks `rom` against what the patch records of its source; `None` where
    /// the format records nothing.
    fn validate(&self, rom: &[u8]) -> (r: Option<Result<(), Error>>)
        ensures
            r == self.validate_spec(rom@),
    ;

    /// The patch file's bytes; where `crc` is given, fails unless the file's
    /// checksum equals it.
    fn export(&self, crc: Option<u32>) -> (r: Result<Vec<u8>, Error>)
        ensures
            bytes_result(r) == self.export_spec(crc),
    ;
}

/// Each format checks its magic value first: where the file's first bytes are
/// not the magic value, loading fails with `MagicMismatch`, whatever follows.
pub proof fn lemma_magic_checked_first(b: Seq<u8>)
    ensures
        b.len() >= 4 && b.subrange(0, 4) != bps_magic() ==> parse_bps(b) == Err::<
            bps::BpsModel,
            Error,
        >(Error::MagicMismatch),
        b.len() >= 4 && b.subrange(0, 4) != ups_magic() ==> parse_ups(b) == Err::<
            ups::UpsModel,
            Error,
        >(Error::MagicMismatch),
        b.len() >= 5 && b.subrange(0, 5) != ips_magic() ==> parse_ips(b) == Err::<
            ips::IpsModel,
            Error,
        >(Error::MagicMismatch),
{
}

} // verus!

//! What can go wrong while a chunk is read or extended.

use vstd::prelude::*;

verus! {

/// `unsigned_varint::io::ReadError`, the error of the varint reader. It is
/// carried along and never looked into.
#[verifier::external_type_specification]
#[verifier::external_body]
pub struct ExReadError(unsigned_varint::io::ReadError);

/// What reading a varint gives for bytes that are not one: which error it
/// is, is the varint reader's business.
pub uninterp spec fn varint_failure(frame: Seq<u8>) -> unsigned_varint::io::ReadError;

/// The errors of a chunk.
#[derive(Debug)]
pub enum Error {
    /// The bits ran out in the middle of a sample.
    EOF,
    /// A variable-length integer was cut short, too long or not minimal.
    ReadError(unsigned_varint::io::ReadError),
    /// The chunk already holds 65 535 samples.
    AppendOverflow,
}

} // verus!

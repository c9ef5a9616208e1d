//! Where bytes go to and come from: the two traits stand in for writers and
//! readers, so that the encoders and decoders can be used on memory, files and
//! sockets alike.

use vstd::prelude::*;
use vstd::slice::{slice_subrange, slice_to_vec};

verus! {

/// An error of the operating system, as `std::io` reports it.
#[verifier::external_type_specification]
#[verifier::external_body]
pub struct ExIoError(std::io::Error);

/// Bytes as contracts speak of them.
pub type GhostBytes = Seq<u8>;

/// Takes bytes, in order.
pub trait ByteSink {
    /// The bytes taken so far.
    spec fn written(&self) -> GhostBytes;

    /// The sink never fails.
    spec fn reliable(&self) -> bool;

    /// Takes all of `bytes`.
    fn write_all(&mut self, bytes: &[u8]) -> (r: std::io::Result<()>)
        ensures
            r is Ok ==> final(self).written() == old(self).written() + bytes@,
            old(self).reliable() ==> r is Ok,
            final(self).reliable() == old(self).reliable(),
    ;
}

/// A writer added `bytes` to the sink, or the sink failed.
pub open spec fn appended<W: ByteSink>(
    r: std::io::Result<()>,
    before: W,
    after: W,
    bytes: Seq<u8>,
) -> bool {
    &&& r is Ok ==> after.written() == before.written() + bytes
    &&& before.reliable() ==> r is Ok
    &&& after.reliable() == before.reliable()
}

/// Memory grows as needed.
impl ByteSink for Vec<u8> {
    open spec fn written(&self) -> GhostBytes {
        self@
    }

    open spec fn reliable(&self) -> bool {
        true
    }

    fn write_all(&mut self, bytes: &[u8]) -> (r: std::io::Result<()>) {
        self.extend_from_slice(bytes);
        assert(self@ =~= old(self)@ + bytes@);
        Ok(())
    }
}

/// Why bytes could not be had.
#[derive(Debug)]
pub enum ReadError {
    /// The source ended before.
    Eof,
    /// The operating system failed.
    Io(std::io::Error),
}

/// Gives bytes, in order.
pub trait ByteSource {
    /// The bytes still to come.
    spec fn upcoming(&self) -> GhostBytes;

    /// The source fails only at its end.
    spec fn reliable(&self) -> bool;

    /// Gives the next `n` bytes.
    fn read_exact(&mut self, n: usize) -> (r: Result<Vec<u8>, ReadError>)
        ensures
            match r {
                Ok(bytes) => n <= old(self).upcoming().len() && bytes@ == old(
                    self,
                ).upcoming().take(n as int) && final(self).upcoming() == old(self).upcoming().skip(
                    n as int,
                ),
                Err(ReadError::Eof) => old(self).upcoming().len() < n,
                Err(ReadError::Io(_)) => !old(self).reliable(),
            },
            final(self).reliable() == old(self).reliable(),
    ;
}

/// Bytes in memory, read from the front.
pub struct MemorySource {
    bytes: Vec<u8>,
    pos: usize,
}

impl MemorySource {
    /// A source of these bytes.
    pub fn new(bytes: Vec<u8>) -> (source: Self)
        ensures
            source.upcoming() == bytes@,
    {
        let source = MemorySource { bytes, pos: 0 };
        assert(source.upcoming() =~= bytes@);
        source
    }
}

impl ByteSource for MemorySource {
    closed spec fn upcoming(&self) -> GhostBytes {
        if self.pos <= self.bytes@.len() {
            self.bytes@.skip(self.pos as int)
        } else {
            Seq::empty()
        }
    }

    open spec fn reliable(&self) -> bool {
        true
    }

    fn read_exact(&mut self, n: usize) -> (r: Result<Vec<u8>, ReadError>) {
        let len: usize = self.bytes.len();
        let start: usize = if self.pos <= len {
            self.pos
        } else {
            len
        };
        if n > len - start {
            return Err(ReadError::Eof);
        }
        let end: usize = start + n;
        let piece = slice_to_vec(slice_subrange(self.bytes.as_slice(), start, end));
        assert(piece@ =~= old(self).upcoming().take(n as int));
        self.pos = end;
        assert(self.upcoming() =~= old(self).upcoming().skip(n as int));
        Ok(piece)
    }
}

} // verus!

//! The byte source: any sequential input the reader can pull chunks from.
//! A source models its still-undelivered input as a byte sequence; reading
//! hands over a prefix of it.  An in-memory source over an owned byte vector
//! is provided; other sources implement the same trait at the program's edge.
use std::io::Read;
use vstd::prelude::*;

verus! {

/// A sequential byte source.  `remaining()` is the sequence of bytes the
/// source has not yet delivered; a read hands over a prefix of it, and a
/// read of zero bytes (when more were asked for) signals true end-of-input.
/// A failed read delivers nothing and may be retried by the caller.
pub trait ByteSource: Sized {
    type SourceError;

    /// The bytes this source has not yet delivered.
    spec fn remaining(&self) -> Seq<u8>;

    /// Reads at most `max` bytes, returning them as an owned chunk.
    fn read_chunk(&mut self, max: usize) -> (r: Result<Vec<u8>, Self::SourceError>)
        ensures
            match r {
                Ok(v) => {
                    &&& v@.len() <= max
                    &&& old(self).remaining() == v@ + final(self).remaining()
                    &&& (v@.len() == 0 && max > 0 ==> old(self).remaining().len() == 0)
                },
                Err(_) => final(self).remaining() == old(self).remaining(),
            },
    ;
}

/// An in-memory source that delivers the contents of an owned byte vector.
pub struct SliceSource {
    data: Vec<u8>,
    pos: usize,
}

impl SliceSource {
    /// How far into `data` the reads have progressed so far.
    pub closed spec fn spec_position(&self) -> int {
        self.pos as int
    }

    /// A source delivering exactly the bytes of `data`, in order.
    pub fn new(data: Vec<u8>) -> (s: SliceSource)
        ensures
            s.remaining() == data@,
            s.spec_position() == 0,
    {
        let s = SliceSource { data, pos: 0 };
        proof {
            assert(s.remaining() =~= s.data@);
        }
        s
    }

    /// How many bytes have been delivered so far.
    pub fn position(&self) -> (n: usize)
        ensures
            n == self.spec_position(),
    {
        self.pos
    }
}

impl ByteSource for SliceSource {
    type SourceError = ();

    closed spec fn remaining(&self) -> Seq<u8> {
        if self.pos <= self.data@.len() {
            self.data@.skip(self.pos as int)
        } else {
            Seq::<u8>::empty()
        }
    }

    fn read_chunk(&mut self, max: usize) -> (r: Result<Vec<u8>, Self::SourceError>) {
        if self.pos >= self.data.len() {
            let v: Vec<u8> = Vec::new();
            proof {
                assert(old(self).remaining() =~= v@ + self.remaining());
            }
            Ok(v)
        } else {
            let avail = self.data.len() - self.pos;
            let n = if max < avail {
                max
            } else {
                avail
            };
            let v = vstd::slice::slice_to_vec(
                vstd::slice::slice_subrange(self.data.as_slice(), self.pos, self.pos + n),
            );
            self.pos = self.pos + n;
            proof {
                assert(old(self).remaining() =~= v@ + self.remaining());
            }
            Ok(v)
        }
    }
}

/// The standard library's I/O error, declared so sources built on std
/// readers can hand it through unchanged.
#[verifier::external_type_specification]
#[verifier::external_body]
pub struct ExIoError(std::io::Error);

/// The standard input handle, declared so a source can hold it.
#[verifier::external_type_specification]
#[verifier::external_body]
pub struct ExStdin(std::io::Stdin);

/// A byte source over the process's standard input; read errors propagate
/// unchanged.  What standard input will deliver is modeled as a ghost byte
/// sequence: by definition, the bytes the handle hands over up to its first
/// zero-length answer to a non-empty request.  The source latches that
/// first zero-length answer as end-of-input and never reads again, so a
/// handle that could produce bytes after reporting zero (as `Read` permits)
/// still matches the model: those later bytes are simply never requested.
pub struct StdinSource {
    inner: std::io::Stdin,
    done: bool,
    future: Ghost<Seq<u8>>,
}

impl StdinSource {
    /// A source delivering whatever `inner` reads, up to the first
    /// zero-length read.
    pub fn new(inner: std::io::Stdin) -> (s: StdinSource) {
        StdinSource { inner, done: false, future: Ghost(vstd::pervasive::arbitrary()) }
    }

    /// Releases the underlying handle.
    pub fn into_inner(self) -> std::io::Stdin {
        self.inner
    }

    /// Relies on `std::io::Read::read`: a successful read fills a prefix of
    /// the passed buffer and returns its length; a failed read delivers
    /// nothing.  The buffer handed to the reader is zero-initialized before
    /// the read, so no indeterminate memory can ever be exposed.  The model
    /// `future` is defined as what the handle delivers up to its first
    /// zero-length answer to a non-empty request, so each chunk is a prefix
    /// of it and a zero-length answer exhausts it by definition; the caller
    /// below latches that answer and never reads past it.
    #[verifier::external_body]
    fn read_one_chunk(&mut self, max: usize) -> (r: Result<Vec<u8>, std::io::Error>)
        requires
            !old(self).done,
        ensures
            final(self).done == old(self).done,
            match r {
                Ok(v) => {
                    &&& v@.len() <= max
                    &&& old(self).future@ == v@ + final(self).future@
                    &&& (v@.len() == 0 && max > 0 ==> final(self).future@.len() == 0)
                },
                Err(_) => final(self).future@ == old(self).future@,
            },
    {
        let mut buf = vec![0u8; max];
        let n = self.inner.read(&mut buf)?;
        buf.truncate(n);
        Ok(buf)
    }
}

impl ByteSource for StdinSource {
    type SourceError = std::io::Error;

    closed spec fn remaining(&self) -> Seq<u8> {
        if self.done {
            Seq::<u8>::empty()
        } else {
            self.future@
        }
    }

    fn read_chunk(&mut self, max: usize) -> Result<Vec<u8>, std::io::Error> {
        if self.done {
            let v: Vec<u8> = Vec::new();
            proof {
                assert(self.remaining() =~= v@ + self.remaining());
            }
            return Ok(v);
        }
        let v = match self.read_one_chunk(max) {
            Ok(v) => v,
            Err(e) => return Err(e),
        };
        if v.len() == 0 && max > 0 {
            self.done = true;
        }
        proof {
            assert(old(self).remaining() =~= v@ + self.remaining());
        }
        Ok(v)
    }
}

} // verus!

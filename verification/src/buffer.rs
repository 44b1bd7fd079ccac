//! The sliding-window byte buffer: a double-ended queue of bytes over an
//! owned array, holding the unconsumed part of the input.  Bytes are appended
//! at the tail when the source is read and removed from the head as they are
//! examined; a read-only view of the unconsumed bytes backs every slice the
//! reader hands to a visitor.
use vstd::prelude::*;

verus! {

/// Unconsumed input bytes, addressable from the head.
///
/// The bytes `data[head..]` are the live contents; `data[..head]` have been
/// consumed and are dropped the next time the buffer is appended to, so the
/// allocation stays bounded by what one scan needs.
pub struct SlidingBuffer {
    data: Vec<u8>,
    head: usize,
}

impl View for SlidingBuffer {
    type V = Seq<u8>;

    closed spec fn view(&self) -> Seq<u8> {
        self.data@.skip(self.head as int)
    }
}

impl SlidingBuffer {
    /// The head never runs past the end of the backing array.
    pub closed spec fn wf(&self) -> bool {
        self.head <= self.data@.len()
    }

    /// An empty buffer.
    pub fn new() -> (b: SlidingBuffer)
        ensures
            b.wf(),
            b@ == Seq::<u8>::empty(),
    {
        let b = SlidingBuffer { data: Vec::new(), head: 0 };
        proof {
            assert(b@ =~= Seq::<u8>::empty());
        }
        b
    }

    /// Number of unconsumed bytes.
    pub fn len(&self) -> (n: usize)
        requires
            self.wf(),
        ensures
            n == self@.len(),
    {
        self.data.len() - self.head
    }

    /// The unconsumed byte at offset `i` from the head.
    pub fn byte_at(&self, i: usize) -> (r: u8)
        requires
            self.wf(),
            i < self@.len(),
        ensures
            r == self@[i as int],
    {
        proof {
            vstd::std_specs::vec::axiom_spec_len(&self.data);
        }
        self.data[self.head + i]
    }

    /// A read-only view of all unconsumed bytes, without copying.
    pub fn unread(&self) -> (s: &[u8])
        requires
            self.wf(),
        ensures
            s@ == self@,
    {
        vstd::slice::slice_subrange(self.data.as_slice(), self.head, self.data.len())
    }

    /// A read-only view of the unconsumed bytes from offset `from` on.
    pub fn unread_from(&self, from: usize) -> (s: &[u8])
        requires
            self.wf(),
            from <= self@.len(),
        ensures
            s@ == self@.skip(from as int),
    {
        proof {
            vstd::std_specs::vec::axiom_spec_len(&self.data);
        }
        let s = vstd::slice::slice_subrange(self.data.as_slice(), self.head + from, self.data.len());
        proof {
            assert(s@ =~= self@.skip(from as int));
        }
        s
    }

    /// A read-only view of the unconsumed bytes in `[from, to)`.
    pub fn unread_range(&self, from: usize, to: usize) -> (s: &[u8])
        requires
            self.wf(),
            from <= to <= self@.len(),
        ensures
            s@ == self@.subrange(from as int, to as int),
    {
        proof {
            vstd::std_specs::vec::axiom_spec_len(&self.data);
        }
        let s = vstd::slice::slice_subrange(self.data.as_slice(), self.head + from, self.head + to);
        proof {
            assert(s@ =~= self@.subrange(from as int, to as int));
        }
        s
    }

    /// Logically discards `n` already-examined bytes from the head.
    pub fn advance(&mut self, n: usize)
        requires
            old(self).wf(),
            n <= old(self)@.len(),
        ensures
            final(self).wf(),
            final(self)@ == old(self)@.skip(n as int),
    {
        proof {
            vstd::std_specs::vec::axiom_spec_len(&self.data);
        }
        self.head = self.head + n;
        proof {
            assert(self@ =~= old(self)@.skip(n as int));
        }
    }

    /// Removes and returns the byte at the head, if any.
    pub fn pop_front(&mut self) -> (r: Option<u8>)
        requires
            old(self).wf(),
        ensures
            final(self).wf(),
            match r {
                Some(x) => old(self)@.len() > 0 && x == old(self)@[0] && final(self)@ == old(
                    self,
                )@.skip(1),
                None => old(self)@.len() == 0 && final(self)@ == old(self)@,
            },
    {
        if self.head < self.data.len() {
            let x = self.data[self.head];
            self.head = self.head + 1;
            proof {
                assert(self@ =~= old(self)@.skip(1));
            }
            Some(x)
        } else {
            proof {
                assert(self@ =~= old(self)@);
            }
            None
        }
    }

    /// Puts one byte back in front of the head.
    pub fn push_front(&mut self, x: u8)
        requires
            old(self).wf(),
        ensures
            final(self).wf(),
            final(self)@ == seq![x] + old(self)@,
    {
        if self.head > 0 {
            self.head = self.head - 1;
            self.data[self.head] = x;
            proof {
                assert(self@ =~= seq![x] + old(self)@);
            }
        } else {
            self.data.insert(0, x);
            proof {
                assert(self@ =~= seq![x] + old(self)@);
            }
        }
    }

    /// Discards every unconsumed byte.
    pub fn clear(&mut self)
        requires
            old(self).wf(),
        ensures
            final(self).wf(),
            final(self)@ == Seq::<u8>::empty(),
    {
        self.data.clear();
        self.head = 0;
        proof {
            assert(self@ =~= Seq::<u8>::empty());
        }
    }

    /// Appends a chunk of fresh input at the tail, first dropping the
    /// already-consumed prefix so the allocation stays bounded.
    pub fn append(&mut self, chunk: Vec<u8>)
        requires
            old(self).wf(),
        ensures
            final(self).wf(),
            final(self)@ == old(self)@ + chunk@,
    {
        if self.head > 0 {
            let rest = vstd::slice::slice_to_vec(
                vstd::slice::slice_subrange(self.data.as_slice(), self.head, self.data.len()),
            );
            self.data = rest;
            self.head = 0;
        }
        let mut tail = chunk;
        self.data.append(&mut tail);
        proof {
            assert(self@ =~= old(self)@ + chunk@);
        }
    }
}

} // verus!

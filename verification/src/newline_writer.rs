//! A newtype around an output sink that turns empty writes into record
//! boundaries. The wrapped writer is modelled by the bytes it has received,
//! so every operation states exactly what reaches the wire.

use vstd::prelude::*;

use crate::codec::push_bytes;

verus! {

/// Wraps an output sink; `inner` holds every byte handed to the wrapped
/// writer, in order.
pub struct AddNewlineWriter {
    pub inner: Vec<u8>,
}

impl AddNewlineWriter {
    /// An empty sink.
    pub fn new() -> (w: AddNewlineWriter)
        ensures
            w.inner@ == Seq::<u8>::empty(),
    {
        AddNewlineWriter { inner: Vec::new() }
    }

    /// Ends the current record: hands one newline to the wrapped writer.
    pub fn add_newline(&mut self)
        ensures
            final(self).inner@ == old(self).inner@ + seq![10u8],
    {
        self.inner.push(10);
        proof {
            assert(final(self).inner@ =~= old(self).inner@ + seq![10u8]);
        }
    }

    /// Hands one newline to the wrapped writer, whatever the buffer holds,
    /// and reports one byte written.
    pub fn write(&mut self, buf: &[u8]) -> (r: usize)
        ensures
            final(self).inner@ == old(self).inner@ + seq![10u8],
            r == 1,
    {
        self.inner.push(10);
        proof {
            assert(final(self).inner@ =~= old(self).inner@ + seq![10u8]);
        }
        1
    }

    /// Flushing hands nothing further to the wrapped writer.
    pub fn flush(&mut self)
        ensures
            final(self).inner == old(self).inner,
    {
    }

    /// Hands the whole buffer to the wrapped writer; an empty buffer
    /// stands for a record boundary and becomes one newline.
    pub fn write_all(&mut self, buf: &[u8])
        ensures
            final(self).inner@ == old(self).inner@ + (if buf@.len() == 0 {
                seq![10u8]
            } else {
                buf@
            }),
    {
        if buf.len() == 0 {
            self.inner.push(10);
            proof {
                assert(final(self).inner@ =~= old(self).inner@ + seq![10u8]);
            }
        } else {
            push_bytes(&mut self.inner, buf);
        }
    }
}

} // verus!

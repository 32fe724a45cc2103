//! The transparent terminal writer.
use vstd::prelude::*;
use crate::scan::append_all;

verus! {

/// The transparent terminal writer's byte path. It keeps what is written
/// through it, unchanged and in order, and `flush` hands all of it to the
/// caller, which writes it to the terminal: nothing is added, dropped or
/// reordered, and nothing is kept back once `flush` has been called.
pub struct Passthrough {
    pending: Vec<u8>,
}

impl View for Passthrough {
    type V = Seq<u8>;

    /// Bytes written and not yet handed over.
    closed spec fn view(&self) -> Seq<u8> {
        self.pending@
    }
}

impl Passthrough {
    pub fn new() -> (p: Self)
        ensures
            p@ == Seq::<u8>::empty(),
    {
        Passthrough { pending: Vec::new() }
    }

    pub fn write_all(&mut self, buf: &[u8])
        ensures
            final(self)@ == old(self)@ + buf@,
    {
        append_all(&mut self.pending, buf);
    }

    /// Hands over everything written so far.
    pub fn flush(&mut self) -> (bytes: Vec<u8>)
        ensures
            bytes@ == old(self)@,
            final(self)@ == Seq::<u8>::empty(),
    {
        let mut bytes: Vec<u8> = Vec::new();
        std::mem::swap(&mut bytes, &mut self.pending);
        bytes
    }
}

} // verus!

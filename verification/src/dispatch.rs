//! The dispatch step: feed one transport chunk, and when a complete
//! message is ready, decode it and hand the outcome back to the driver.
//!
//! The driver loop around this lives outside the library: it polls the
//! transport, calls [`Dispatcher::poll_step`] with whatever bytes came,
//! routes a decoded command to its handler, and reports rejected bytes
//! to its diagnostic sink. Every outcome of a poll is settled within
//! that poll: after a message is consumed, whether it decoded or not,
//! the buffer is empty again.

use vstd::prelude::*;

use crate::codec::decode;
use crate::framing::{append_spec, LineBuffer, CHUNK_CAPACITY};
use crate::grammar::spec_decode;
use crate::protocol::Protocol;

verus! {

/// What one poll step produced.
pub enum Outcome {
    /// No complete message yet; the buffer keeps accumulating.
    Pending,
    /// A complete message arrived and decoded to this command.
    Dispatched(Protocol),
    /// A complete message arrived but did not decode; its raw bytes are
    /// kept for diagnosis.
    Rejected(Vec<u8>),
}

/// The protocol front end: a line buffer and the decode-on-ready rule.
pub struct Dispatcher {
    line: LineBuffer,
}

impl View for Dispatcher {
    type V = Seq<u8>;

    closed spec fn view(&self) -> Seq<u8> {
        self.line@
    }
}

impl Dispatcher {
    pub open spec fn wf(&self) -> bool {
        self@.len() <= crate::framing::LINE_CAPACITY
    }

    /// A fresh front end with an empty buffer.
    pub fn new() -> (r: Dispatcher)
        ensures
            r.wf(),
            r@ == Seq::<u8>::empty(),
    {
        Dispatcher { line: LineBuffer::new() }
    }

    /// Feed the bytes of one poll. If they complete a message, the
    /// message is decoded and consumed, and the buffer is empty again;
    /// otherwise the buffer holds what has accumulated.
    pub fn poll_step(&mut self, chunk: &[u8]) -> (r: Outcome)
        requires
            old(self).wf(),
            chunk@.len() <= CHUNK_CAPACITY,
        ensures
            final(self).wf(),
            ({
                let step = append_spec(old(self)@, chunk@);
                match r {
                    Outcome::Pending => !step.1 && final(self)@ == step.0,
                    Outcome::Dispatched(c) => step.1 && spec_decode(step.0) == Some(c@)
                        && c.wf() && final(self)@ == Seq::<u8>::empty(),
                    Outcome::Rejected(raw) => step.1 && spec_decode(step.0) is None && raw@
                        == step.0 && final(self)@ == Seq::<u8>::empty(),
                }
            }),
    {
        let ready = self.line.append_chunk(chunk);
        if !ready {
            return Outcome::Pending;
        }
        let message = decode(self.line.bytes());
        match message {
            Some(c) => {
                self.line.clear();
                Outcome::Dispatched(c)
            },
            None => {
                let mut raw: Vec<u8> = Vec::new();
                let n = self.line.bytes().len();
                let mut i: usize = 0;
                while i < n
                    invariant
                        0 <= i <= n,
                        n == self@.len(),
                        self.wf(),
                        raw@ == self@.take(i as int),
                    decreases n - i,
                {
                    let b = self.line.bytes()[i];
                    let ghost pre = raw@;
                    raw.push(b);
                    proof {
                        assert(pre.push(self@[i as int]) =~= self@.take(i + 1));
                    }
                    i = i + 1;
                }
                proof {
                    assert(self@.take(n as int) =~= self@);
                }
                self.line.clear();
                Outcome::Rejected(raw)
            },
        }
    }
}

} // verus!

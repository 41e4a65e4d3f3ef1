//! Chunk reassembly: a fixed-capacity line buffer that accumulates
//! transport chunks until a carriage-return/line-feed terminator arrives.
//!
//! A chunk that no longer fits clears the whole buffer first: the
//! in-progress message is discarded rather than letting the buffer grow
//! without bound. A chunk of length zero is a no-op, and the terminator
//! check applies only once at least two bytes are present.

use vstd::prelude::*;

verus! {

/// Capacity of the line buffer, in bytes.
pub const LINE_CAPACITY: usize = 1024;

/// Largest chunk the transport hands over per poll, in bytes.
pub const CHUNK_CAPACITY: usize = 64;

/// Whether the last two bytes are carriage return then line feed.
pub open spec fn ends_crlf(s: Seq<u8>) -> bool {
    s.len() >= 2 && s[s.len() - 2] == 13 && s[s.len() - 1] == 10
}

/// What one append does: the new buffer contents and whether a complete
/// message is ready. An empty chunk changes nothing; a chunk that no
/// longer fits clears the buffer first; a buffer that then ends in the
/// terminator is stripped of it and reported ready.
pub open spec fn append_spec(buf: Seq<u8>, chunk: Seq<u8>) -> (Seq<u8>, bool) {
    if chunk.len() == 0 {
        (buf, false)
    } else {
        let base = if LINE_CAPACITY - buf.len() < chunk.len() {
            Seq::<u8>::empty()
        } else {
            buf
        };
        let cat = base + chunk;
        if ends_crlf(cat) {
            (cat.take(cat.len() - 2), true)
        } else {
            (cat, false)
        }
    }
}

/// The line buffer under assembly.
pub struct LineBuffer {
    buf: Vec<u8>,
}

impl View for LineBuffer {
    type V = Seq<u8>;

    closed spec fn view(&self) -> Seq<u8> {
        self.buf@
    }
}

impl LineBuffer {
    /// The buffer never exceeds its capacity.
    pub open spec fn wf(&self) -> bool {
        self@.len() <= LINE_CAPACITY
    }

    /// An empty buffer, ready to accumulate.
    pub fn new() -> (r: LineBuffer)
        ensures
            r.wf(),
            r@ == Seq::<u8>::empty(),
    {
        LineBuffer { buf: Vec::new() }
    }

    /// The bytes accumulated so far.
    pub fn bytes(&self) -> (r: &[u8])
        ensures
            r@ == self@,
    {
        self.buf.as_slice()
    }

    /// Drop the accumulated bytes.
    pub fn clear(&mut self)
        ensures
            final(self).wf(),
            final(self)@ == Seq::<u8>::empty(),
    {
        self.buf.clear();
    }

    /// Feed one transport chunk; true means a complete message is ready
    /// and the buffer now holds it with the terminator stripped.
    pub fn append_chunk(&mut self, chunk: &[u8]) -> (ready: bool)
        requires
            old(self).wf(),
            chunk@.len() <= CHUNK_CAPACITY,
        ensures
            final(self).wf(),
            final(self)@ == append_spec(old(self)@, chunk@).0,
            ready == append_spec(old(self)@, chunk@).1,
    {
        if chunk.len() == 0 {
            return false;
        }
        if LINE_CAPACITY - self.buf.len() < chunk.len() {
            self.buf.clear();
        }
        let ghost base = self.buf@;
        let mut i: usize = 0;
        while i < chunk.len()
            invariant
                0 <= i <= chunk@.len(),
                self.buf@ == base + chunk@.take(i as int),
                base.len() + chunk@.len() <= LINE_CAPACITY,
            decreases chunk@.len() - i,
        {
            self.buf.push(chunk[i]);
            proof {
                assert(base + chunk@.take(i as int) + seq![chunk@[i as int]] =~= base
                    + chunk@.take(i + 1));
            }
            i = i + 1;
        }
        proof {
            assert(self.buf@ =~= base + chunk@);
        }
        let n = self.buf.len();
        if n >= 2 && self.buf[n - 2] == 13 && self.buf[n - 1] == 10 {
            self.buf.truncate(n - 2);
            proof {
                assert(self.buf@ =~= (base + chunk@).take((base + chunk@).len() - 2));
            }
            true
        } else {
            false
        }
    }
}

/// The concatenation of a sequence of chunks, in arrival order.
pub open spec fn concat_chunks(chunks: Seq<Seq<u8>>) -> Seq<u8>
    decreases chunks.len(),
{
    if chunks.len() == 0 {
        Seq::empty()
    } else {
        concat_chunks(chunks.drop_last()) + chunks.last()
    }
}

/// The buffer contents and the number of ready signals after feeding
/// `chunks` in order, starting from `buf`.
pub open spec fn run_appends(buf: Seq<u8>, chunks: Seq<Seq<u8>>) -> (Seq<u8>, nat)
    decreases chunks.len(),
{
    if chunks.len() == 0 {
        (buf, 0)
    } else {
        let prev = run_appends(buf, chunks.drop_last());
        let step = append_spec(prev.0, chunks.last());
        (step.0, prev.1 + if step.1 {
            1nat
        } else {
            0nat
        })
    }
}

/// One append never leaves more than the capacity in the buffer, and
/// therefore no sequence of appends does.
pub proof fn lemma_append_bounded(buf: Seq<u8>, chunk: Seq<u8>)
    requires
        buf.len() <= LINE_CAPACITY,
        chunk.len() <= CHUNK_CAPACITY,
    ensures
        append_spec(buf, chunk).0.len() <= LINE_CAPACITY,
{
}

/// Feeding chunks whose running concatenation never ends in the
/// terminator fills the buffer silently: no ready signal, and the buffer
/// holds exactly the concatenation.
proof fn lemma_run_silent(chunks: Seq<Seq<u8>>)
    requires
        forall|i: int| 0 <= i < chunks.len() ==> 0 < #[trigger] chunks[i].len() <= CHUNK_CAPACITY,
        concat_chunks(chunks).len() <= LINE_CAPACITY,
        forall|i: int| 0 < i <= chunks.len() ==> !ends_crlf(
            concat_chunks(#[trigger] chunks.take(i)),
        ),
    ensures
        run_appends(Seq::empty(), chunks) == (concat_chunks(chunks), 0nat),
    decreases chunks.len(),
{
    if chunks.len() == 0 {
        assert(concat_chunks(chunks) =~= Seq::<u8>::empty());
    } else {
        let head = chunks.drop_last();
        assert(chunks.take(chunks.len() as int) =~= chunks);
        assert(concat_chunks(chunks) == concat_chunks(head) + chunks.last());
        assert(concat_chunks(head).len() <= concat_chunks(chunks).len());
        assert forall|i: int| 0 <= i < head.len() implies 0 < #[trigger] head[i].len()
            <= CHUNK_CAPACITY by {
            assert(head[i] == chunks[i]);
        }
        assert forall|i: int| 0 < i <= head.len() implies !ends_crlf(
            concat_chunks(#[trigger] head.take(i)),
        ) by {
            assert(head.take(i) =~= chunks.take(i));
        }
        lemma_run_silent(head);
        let prev = run_appends(Seq::empty(), head);
        assert(prev.0 == concat_chunks(head));
        let last = chunks.last();
        assert(0 < last.len() <= CHUNK_CAPACITY);
        assert(concat_chunks(head).len() + last.len() <= LINE_CAPACITY);
        let cat = concat_chunks(head) + last;
        assert(cat == concat_chunks(chunks));
        assert(!ends_crlf(cat));
        assert(append_spec(prev.0, last) == (cat, false));
    }
}

/// Terminator detection: feeding nonempty chunks whose concatenation
/// fits the buffer and ends in the terminator, while no earlier running
/// concatenation does, signals ready exactly once, and the buffer then
/// holds the concatenation with the terminator stripped.
pub proof fn lemma_terminator_detection(chunks: Seq<Seq<u8>>)
    requires
        chunks.len() > 0,
        forall|i: int| 0 <= i < chunks.len() ==> 0 < #[trigger] chunks[i].len() <= CHUNK_CAPACITY,
        concat_chunks(chunks).len() <= LINE_CAPACITY,
        ends_crlf(concat_chunks(chunks)),
        forall|i: int| 0 < i < chunks.len() ==> !ends_crlf(
            concat_chunks(#[trigger] chunks.take(i)),
        ),
    ensures
        run_appends(Seq::empty(), chunks) == (
            concat_chunks(chunks).take(concat_chunks(chunks).len() - 2),
            1nat,
        ),
{
    let head = chunks.drop_last();
    assert(concat_chunks(chunks) == concat_chunks(head) + chunks.last());
    assert(concat_chunks(head).len() <= concat_chunks(chunks).len());
    assert forall|i: int| 0 <= i < head.len() implies 0 < #[trigger] head[i].len()
        <= CHUNK_CAPACITY by {
        assert(head[i] == chunks[i]);
    }
    assert forall|i: int| 0 < i <= head.len() implies !ends_crlf(
        concat_chunks(#[trigger] head.take(i)),
    ) by {
        assert(head.take(i) =~= chunks.take(i));
    }
    lemma_run_silent(head);
    let prev = run_appends(Seq::empty(), head);
    let last = chunks.last();
    assert(0 < last.len() <= CHUNK_CAPACITY);
    assert(concat_chunks(head).len() + last.len() <= LINE_CAPACITY);
    let cat = concat_chunks(head) + last;
    assert(cat == concat_chunks(chunks));
    assert(append_spec(prev.0, last) == (cat.take(cat.len() - 2), true));
}

} // verus!

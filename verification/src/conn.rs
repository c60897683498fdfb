//! Per-connection byte state: the accumulating inbound read buffer, which
//! may hold a partial frame between reactor wake-ups, and the ordered
//! outbound queue of framed messages. The reactor reads and writes the
//! socket; everything about what the bytes mean happens here.

use vstd::prelude::*;

use crate::codec::{
    decode_frames, encode_frame, spec_decode, spec_encode_frame, views_of, FrameError,
};

verus! {

/// The byte state of one live connection.
pub struct Connection {
    read_buffer: Vec<u8>,
    send_queue: Vec<Vec<u8>>,
}

impl Connection {
    /// The bytes received but not yet framed: at most one trailing
    /// incomplete frame.
    pub closed spec fn read_buffer_view(self) -> Seq<u8> {
        self.read_buffer@
    }

    /// The outbound queue: each entry one framed message, oldest first.
    pub closed spec fn queue_view(self) -> Seq<Seq<u8>> {
        views_of(self.send_queue@)
    }

    /// Every outbound byte still owed to the socket, in order.
    pub open spec fn pending_bytes(self) -> Seq<u8> {
        self.queue_view().flatten()
    }

    pub fn new() -> (c: Connection)
        ensures
            c.read_buffer_view() == Seq::<u8>::empty(),
            c.queue_view() == Seq::<Seq<u8>>::empty(),
    {
        let c = Connection { read_buffer: Vec::new(), send_queue: Vec::new() };
        proof {
            assert(c.queue_view() =~= Seq::<Seq<u8>>::empty());
        }
        c
    }

    /// Takes the bytes of one socket read, appends them to the read
    /// buffer, and extracts every complete frame. A length prefix above
    /// `max` rejects the stream and drops the buffered remainder, so no
    /// allocation is ever sized from an untrusted claim.
    pub fn ingest(&mut self, bytes: &Vec<u8>, max: u32) -> (r: Result<Vec<Vec<u8>>, FrameError>)
        ensures
            final(self).queue_view() == old(self).queue_view(),
            match spec_decode(old(self).read_buffer_view() + bytes@, max as int) {
                Some((frames, rest)) => r matches Ok(v) && views_of(v@) == frames
                    && final(self).read_buffer_view() == rest,
                None => r matches Err(e) && e == FrameError::OversizedLength
                    && final(self).read_buffer_view() == Seq::<u8>::empty(),
            },
    {
        let mut joined: Vec<u8> = Vec::new();
        let mut i: usize = 0;
        let blen = self.read_buffer.len();
        while i < blen
            invariant
                i <= blen == self.read_buffer@.len(),
                joined@ == self.read_buffer@.take(i as int),
            decreases blen - i,
        {
            joined.push(self.read_buffer[i]);
            i += 1;
            proof {
                assert(joined@ =~= self.read_buffer@.take(i as int));
            }
        }
        let mut j: usize = 0;
        let nlen = bytes.len();
        while j < nlen
            invariant
                j <= nlen == bytes@.len(),
                joined@ == self.read_buffer@ + bytes@.take(j as int),
            decreases nlen - j,
        {
            joined.push(bytes[j]);
            j += 1;
            proof {
                assert(joined@ =~= self.read_buffer@ + bytes@.take(j as int));
            }
        }
        proof {
            assert(self.read_buffer@.take(blen as int) =~= self.read_buffer@);
            assert(self.read_buffer@ + bytes@.take(0) =~= self.read_buffer@);
            assert(joined@ =~= self.read_buffer@ + bytes@);
        }
        match decode_frames(&joined, max) {
            Ok((frames, rest)) => {
                self.read_buffer = rest;
                Ok(frames)
            },
            Err(e) => {
                self.read_buffer = Vec::new();
                Err(e)
            },
        }
    }

    /// Frames a payload and queues it for sending, behind whatever is
    /// already queued. A payload too long for a length prefix is refused
    /// whole, never truncated.
    pub fn enqueue_message(&mut self, payload: &Vec<u8>) -> (r: Result<(), FrameError>)
        ensures
            final(self).read_buffer_view() == old(self).read_buffer_view(),
            payload@.len() <= u32::MAX ==> (r matches Ok(u) && final(self).queue_view()
                == old(self).queue_view().push(spec_encode_frame(payload@))),
            payload@.len() > u32::MAX ==> (r matches Err(e) && e == FrameError::PayloadTooLong
                && final(self).queue_view() == old(self).queue_view()),
    {
        match encode_frame(payload) {
            Ok(framed) => {
                self.send_queue.push(framed);
                proof {
                    assert(final(self).queue_view() =~= old(self).queue_view().push(
                        spec_encode_frame(payload@),
                    ));
                }
                Ok(())
            },
            Err(e) => Err(e),
        }
    }

    /// Whether anything is still queued for the socket.
    pub fn wants_write(&self) -> (r: bool)
        ensures
            r == (self.queue_view().len() > 0),
    {
        self.send_queue.len() > 0
    }

    /// The message at the head of the queue, if any: the bytes the next
    /// socket write should try to send.
    pub fn front_message(&self) -> (r: Option<&Vec<u8>>)
        ensures
            match r {
                Some(m) => self.queue_view().len() > 0 && m@ == self.queue_view()[0],
                None => self.queue_view().len() == 0,
            },
    {
        if self.send_queue.len() > 0 {
            Some(&self.send_queue[0])
        } else {
            None
        }
    }

    /// Acknowledges that the socket accepted `written` bytes of the head
    /// message: a full write drops it, a short write re-queues the
    /// unwritten remainder at the front. Either way the stream of pending
    /// bytes merely advances — nothing is truncated or reordered.
    pub fn mark_written(&mut self, written: usize)
        requires
            old(self).queue_view().len() > 0,
            written <= old(self).queue_view()[0].len(),
        ensures
            final(self).read_buffer_view() == old(self).read_buffer_view(),
            final(self).queue_view() == if written == old(self).queue_view()[0].len() {
                old(self).queue_view().drop_first()
            } else {
                seq![old(self).queue_view()[0].skip(written as int)]
                    + old(self).queue_view().drop_first()
            },
            final(self).pending_bytes() == old(self).pending_bytes().skip(written as int),
    {
        let ghost oldq = old(self).queue_view();
        let front = self.send_queue.remove(0);
        proof {
            assert(views_of(self.send_queue@) =~= oldq.drop_first());
        }
        if written < front.len() {
            let mut rem: Vec<u8> = Vec::new();
            let flen = front.len();
            let mut i: usize = written;
            while i < flen
                invariant
                    written <= i <= flen == front@.len(),
                    rem@ == front@.subrange(written as int, i as int),
                decreases flen - i,
            {
                rem.push(front[i]);
                i += 1;
                proof {
                    assert(rem@ =~= front@.subrange(written as int, i as int));
                }
            }
            proof {
                assert(rem@ =~= front@.skip(written as int));
            }
            self.send_queue.insert(0, rem);
            proof {
                assert(views_of(self.send_queue@) =~= seq![oldq[0].skip(written as int)]
                    + oldq.drop_first());
            }
        }
        proof {
            lemma_flatten_advances(oldq, written as int);
            if written < oldq[0].len() {
                let newq = seq![oldq[0].skip(written as int)] + oldq.drop_first();
                assert(newq.first() == oldq[0].skip(written as int));
                assert(newq.drop_first() =~= oldq.drop_first());
            }
        }
    }
}

/// Consuming `n` bytes of the head message advances the flattened
/// pending stream by exactly `n`.
proof fn lemma_flatten_advances(q: Seq<Seq<u8>>, n: int)
    requires
        q.len() > 0,
        0 <= n <= q[0].len(),
    ensures
        n == q[0].len() ==> q.drop_first().flatten() == q.flatten().skip(n),
        n < q[0].len() ==> (seq![q[0].skip(n)] + q.drop_first()).flatten() == q.flatten().skip(n),
{
    assert(q.flatten() == q.first() + q.drop_first().flatten());
    if n == q[0].len() {
        assert(q.drop_first().flatten() =~= (q.first() + q.drop_first().flatten()).skip(n));
    } else {
        let newq = seq![q[0].skip(n)] + q.drop_first();
        assert(newq.first() == q[0].skip(n));
        assert(newq.drop_first() =~= q.drop_first());
        assert(newq.flatten() == newq.first() + newq.drop_first().flatten());
        assert(q[0].skip(n) + q.drop_first().flatten() =~= (q.first()
            + q.drop_first().flatten()).skip(n));
    }
}

} // verus!

//! Length-prefixed message framing: a frame on the wire is a 4-byte
//! big-endian length followed by that many payload bytes. The decoder
//! rejects any length claim above a configured maximum before anything is
//! allocated for it.

use vstd::prelude::*;

verus! {

/// Value of four bytes read as a big-endian unsigned integer.
pub open spec fn be32_val(b: Seq<u8>) -> int
    recommends
        b.len() == 4,
{
    b[0] * 0x1000000 + b[1] * 0x10000 + b[2] * 0x100 + b[3]
}

/// The four big-endian bytes of a value below 2^32.
pub open spec fn be32_bytes(n: int) -> Seq<u8>
    recommends
        0 <= n < 0x100000000,
{
    seq![
        (n / 0x1000000 % 0x100) as u8,
        (n / 0x10000 % 0x100) as u8,
        (n / 0x100 % 0x100) as u8,
        (n % 0x100) as u8,
    ]
}

pub proof fn lemma_be32_round_trip(n: int)
    requires
        0 <= n < 0x100000000,
    ensures
        be32_val(be32_bytes(n)) == n,
{
}

/// Appends the four big-endian bytes of `n` to `out`.
pub fn write_be32(out: &mut Vec<u8>, n: u32)
    ensures
        final(out)@ == old(out)@ + be32_bytes(n as int),
{
    out.push((n / 0x1000000 % 0x100) as u8);
    out.push((n / 0x10000 % 0x100) as u8);
    out.push((n / 0x100 % 0x100) as u8);
    out.push((n % 0x100) as u8);
    assert(final(out)@ =~= old(out)@ + be32_bytes(n as int));
}

/// Reads the big-endian value of the four bytes at `i`.
pub fn read_be32(buf: &Vec<u8>, i: usize) -> (n: u32)
    requires
        i + 4 <= buf@.len(),
    ensures
        n == be32_val(buf@.subrange(i as int, i + 4)),
{
    let _len = buf.len();
    let b0 = buf[i] as u32;
    let b1 = buf[i + 1] as u32;
    let b2 = buf[i + 2] as u32;
    let b3 = buf[i + 3] as u32;
    b0 * 0x1000000 + b1 * 0x10000 + b2 * 0x100 + b3
}

/// Why a byte stream was rejected by the framing layer.
#[derive(Clone, Copy, Debug, PartialEq, Eq, Structural)]
pub enum FrameError {
    /// A length prefix claimed more bytes than the configured maximum.
    OversizedLength,
    /// A payload handed to the encoder cannot be described by a 4-byte prefix.
    PayloadTooLong,
}

/// One encoded frame: big-endian length prefix, then the payload itself.
pub open spec fn spec_encode_frame(payload: Seq<u8>) -> Seq<u8>
    recommends
        payload.len() <= u32::MAX,
{
    be32_bytes(payload.len() as int) + payload
}

/// Splits a byte stream into the complete frames at its front and the
/// unconsumed remainder. `None` means the stream starts with a frame whose
/// claimed length exceeds `max`; nothing after that point is trusted.
pub open spec fn spec_decode(stream: Seq<u8>, max: int) -> Option<(Seq<Seq<u8>>, Seq<u8>)>
    decreases stream.len(),
{
    if stream.len() < 4 {
        Some((Seq::empty(), stream))
    } else {
        let n = be32_val(stream.subrange(0, 4));
        if n > max {
            None
        } else if stream.len() < n + 4 {
            Some((Seq::empty(), stream))
        } else {
            match spec_decode(stream.subrange(n + 4, stream.len() as int), max) {
                None => None,
                Some((frames, rest)) => Some(
                    (seq![stream.subrange(4, n + 4)] + frames, rest),
                ),
            }
        }
    }
}

/// The payload views of a vector of byte vectors.
pub open spec fn views_of(s: Seq<Vec<u8>>) -> Seq<Seq<u8>> {
    s.map_values(|v: Vec<u8>| v@)
}

/// Encodes one payload as a frame: 4-byte big-endian length, then the bytes.
/// A payload too long for the prefix is refused rather than truncated.
pub fn encode_frame(payload: &Vec<u8>) -> (r: Result<Vec<u8>, FrameError>)
    ensures
        payload@.len() <= u32::MAX ==> (r matches Ok(f) && f@ == spec_encode_frame(payload@)),
        payload@.len() > u32::MAX ==> (r matches Err(e) && e == FrameError::PayloadTooLong),
{
    let len = payload.len();
    if len > u32::MAX as usize {
        return Err(FrameError::PayloadTooLong);
    }
    let mut out: Vec<u8> = Vec::new();
    write_be32(&mut out, len as u32);
    let mut i: usize = 0;
    while i < payload.len()
        invariant
            i <= payload@.len(),
            payload@.len() <= u32::MAX,
            out@ == be32_bytes(payload@.len() as int) + payload@.subrange(0, i as int),
        decreases payload@.len() - i,
    {
        out.push(payload[i]);
        i += 1;
        assert(out@ =~= be32_bytes(payload@.len() as int) + payload@.subrange(0, i as int));
    }
    assert(payload@.subrange(0, payload@.len() as int) =~= payload@);
    Ok(out)
}

/// Copies `buf[from..to]` into a fresh vector.
fn copy_range(buf: &Vec<u8>, from: usize, to: usize) -> (r: Vec<u8>)
    requires
        from <= to <= buf@.len(),
    ensures
        r@ == buf@.subrange(from as int, to as int),
{
    let mut out: Vec<u8> = Vec::new();
    let mut i: usize = from;
    while i < to
        invariant
            from <= i <= to <= buf@.len(),
            out@ == buf@.subrange(from as int, i as int),
        decreases to - i,
    {
        out.push(buf[i]);
        i += 1;
        assert(out@ =~= buf@.subrange(from as int, i as int));
    }
    out
}

/// Puts already-extracted frames in front of a decoder outcome.
pub open spec fn prepend_frames(
    fs: Seq<Seq<u8>>,
    d: Option<(Seq<Seq<u8>>, Seq<u8>)>,
) -> Option<(Seq<Seq<u8>>, Seq<u8>)> {
    match d {
        None => None,
        Some((frames, rest)) => Some((fs + frames, rest)),
    }
}

proof fn lemma_prepend_frames_assoc(
    a: Seq<Seq<u8>>,
    b: Seq<Seq<u8>>,
    d: Option<(Seq<Seq<u8>>, Seq<u8>)>,
)
    ensures
        prepend_frames(a, prepend_frames(b, d)) == prepend_frames(a + b, d),
{
    match d {
        None => {},
        Some((frames, rest)) => {
            assert(a + (b + frames) =~= (a + b) + frames);
        },
    }
}

/// Consuming one complete well-sized frame at the front of a stream commutes
/// with decoding the rest.
proof fn lemma_decode_step(stream: Seq<u8>, max: int)
    requires
        stream.len() >= 4,
        be32_val(stream.subrange(0, 4)) <= max,
        stream.len() >= be32_val(stream.subrange(0, 4)) + 4,
    ensures
        spec_decode(stream, max) == prepend_frames(
            seq![stream.subrange(4, be32_val(stream.subrange(0, 4)) + 4)],
            spec_decode(
                stream.subrange(be32_val(stream.subrange(0, 4)) + 4, stream.len() as int),
                max,
            ),
        ),
{
}

/// Extracts every complete frame at the front of `buf` and returns them with
/// the unconsumed remainder, or rejects the stream as soon as a length prefix
/// claims more than `max` bytes — before any allocation of that size.
pub fn decode_frames(buf: &Vec<u8>, max: u32) -> (r: Result<(Vec<Vec<u8>>, Vec<u8>), FrameError>)
    ensures
        match spec_decode(buf@, max as int) {
            Some((frames, rest)) => r matches Ok(p) && views_of(p.0@) == frames && p.1@ == rest,
            None => r matches Err(e) && e == FrameError::OversizedLength,
        },
{
    let len = buf.len();
    let mut frames: Vec<Vec<u8>> = Vec::new();
    let mut idx: usize = 0;
    proof {
        assert(buf@.subrange(0, buf@.len() as int) =~= buf@);
        match spec_decode(buf@, max as int) {
            None => {},
            Some((f, r)) => {
                assert(views_of(frames@) + f =~= f);
            },
        }
    }
    loop
        invariant
            idx <= len == buf@.len(),
            spec_decode(buf@, max as int) == prepend_frames(
                views_of(frames@),
                spec_decode(buf@.subrange(idx as int, len as int), max as int),
            ),
        decreases len - idx,
    {
        let ghost tail = buf@.subrange(idx as int, len as int);
        if len - idx < 4 {
            let rest = copy_range(buf, idx, len);
            assert(views_of(frames@) + Seq::<Seq<u8>>::empty() =~= views_of(frames@));
            return Ok((frames, rest));
        }
        let n = read_be32(buf, idx);
        assert(tail.subrange(0, 4) =~= buf@.subrange(idx as int, idx + 4));
        if n > max {
            return Err(FrameError::OversizedLength);
        }
        if (len - idx) - 4 < n as usize {
            let rest = copy_range(buf, idx, len);
            assert(views_of(frames@) + Seq::<Seq<u8>>::empty() =~= views_of(frames@));
            return Ok((frames, rest));
        }
        let payload_end = idx + 4 + n as usize;
        let payload = copy_range(buf, idx + 4, payload_end);
        proof {
            lemma_decode_step(tail, max as int);
            assert(tail.subrange(4, n + 4) =~= buf@.subrange(idx + 4, payload_end as int));
            assert(tail.subrange(n + 4, tail.len() as int) =~= buf@.subrange(
                payload_end as int,
                len as int,
            ));
            lemma_prepend_frames_assoc(
                views_of(frames@),
                seq![payload@],
                spec_decode(buf@.subrange(payload_end as int, len as int), max as int),
            );
            assert(views_of(frames@) + seq![payload@] =~= views_of(frames@.push(payload)));
        }
        frames.push(payload);
        idx = payload_end;
    }
}

/// The concatenation of the encodings of a sequence of payloads.
pub open spec fn spec_encode_all(payloads: Seq<Seq<u8>>) -> Seq<u8>
    decreases payloads.len(),
{
    if payloads.len() == 0 {
        Seq::empty()
    } else {
        spec_encode_frame(payloads[0]) + spec_encode_all(payloads.drop_first())
    }
}

/// A decoder remainder holds no complete frame: running the decoder on it
/// again extracts nothing and leaves it unchanged.
pub proof fn lemma_remainder_reduced(stream: Seq<u8>, max: int)
    requires
        spec_decode(stream, max) is Some,
    ensures
        spec_decode(spec_decode(stream, max)->Some_0.1, max) == Some(
            (Seq::<Seq<u8>>::empty(), spec_decode(stream, max)->Some_0.1),
        ),
    decreases stream.len(),
{
    if stream.len() < 4 {
    } else {
        let n = be32_val(stream.subrange(0, 4));
        if n > max {
        } else if stream.len() < n + 4 {
        } else {
            lemma_remainder_reduced(stream.subrange(n + 4, stream.len() as int), max);
        }
    }
}

/// Bytes already reduced to frames stay reduced when more bytes arrive:
/// decoding `a + b` yields the frames of `a` followed by the frames of
/// `remainder-of-a + b`.
pub proof fn lemma_decode_concat(a: Seq<u8>, b: Seq<u8>, max: int)
    requires
        spec_decode(a, max) is Some,
    ensures
        spec_decode(a + b, max) == prepend_frames(
            spec_decode(a, max)->Some_0.0,
            spec_decode(spec_decode(a, max)->Some_0.1 + b, max),
        ),
    decreases a.len(),
{
    let whole = a + b;
    if a.len() < 4 {
        assert(a + b =~= spec_decode(a, max)->Some_0.1 + b);
        match spec_decode(a + b, max) {
            None => {},
            Some((f, r)) => {
                assert(Seq::<Seq<u8>>::empty() + f =~= f);
            },
        }
    } else {
        let n = be32_val(a.subrange(0, 4));
        assert(whole.subrange(0, 4) =~= a.subrange(0, 4));
        if n > max {
        } else if a.len() < n + 4 {
            assert(a + b =~= spec_decode(a, max)->Some_0.1 + b);
            match spec_decode(a + b, max) {
                None => {},
                Some((f, r)) => {
                    assert(Seq::<Seq<u8>>::empty() + f =~= f);
                },
            }
        } else {
            let a2 = a.subrange(n + 4, a.len() as int);
            assert(whole.len() >= n + 4);
            assert(whole.subrange(4, n + 4) =~= a.subrange(4, n + 4));
            assert(whole.subrange(n + 4, whole.len() as int) =~= a2 + b);
            lemma_decode_concat(a2, b, max);
            let p = a.subrange(4, n + 4);
            match spec_decode(a2, max) {
                None => {},
                Some((ms2, r2)) => {
                    lemma_prepend_frames_assoc(
                        seq![p],
                        ms2,
                        spec_decode(r2 + b, max),
                    );
                },
            }
        }
    }
}

/// A stream the decoder refuses stays refused when more bytes arrive.
pub proof fn lemma_decode_none_concat(a: Seq<u8>, b: Seq<u8>, max: int)
    requires
        spec_decode(a, max) is None,
    ensures
        spec_decode(a + b, max) is None,
    decreases a.len(),
{
    let whole = a + b;
    let n = be32_val(a.subrange(0, 4));
    assert(whole.subrange(0, 4) =~= a.subrange(0, 4));
    if n > max {
    } else {
        let a2 = a.subrange(n + 4, a.len() as int);
        assert(whole.subrange(n + 4, whole.len() as int) =~= a2 + b);
        lemma_decode_none_concat(a2, b, max);
    }
}

/// Decoding one well-sized encoded frame at the front of a stream yields
/// exactly that payload, then decodes the rest.
pub proof fn lemma_decode_encoded_frame(payload: Seq<u8>, rest: Seq<u8>, max: int)
    requires
        payload.len() <= max <= u32::MAX,
    ensures
        spec_decode(spec_encode_frame(payload) + rest, max) == prepend_frames(
            seq![payload],
            spec_decode(rest, max),
        ),
{
    let s = spec_encode_frame(payload) + rest;
    let n = payload.len() as int;
    lemma_be32_round_trip(n);
    assert(s.subrange(0, 4) =~= be32_bytes(n));
    assert(be32_val(s.subrange(0, 4)) == n);
    assert(s.len() >= n + 4);
    assert(s.subrange(4, n + 4) =~= payload);
    assert(s.subrange(n + 4, s.len() as int) =~= rest);
}

/// Encoding payloads consecutively and decoding the whole stream returns
/// exactly the original payloads, in order, with nothing left over.
pub proof fn lemma_decode_of_encode_all(payloads: Seq<Seq<u8>>, max: int)
    requires
        0 <= max <= u32::MAX,
        forall|i: int| 0 <= i < payloads.len() ==> #[trigger] payloads[i].len() <= max,
    ensures
        spec_decode(spec_encode_all(payloads), max) == Some((payloads, Seq::<u8>::empty())),
    decreases payloads.len(),
{
    if payloads.len() == 0 {
        assert(spec_encode_all(payloads).len() == 0);
        assert(payloads =~= Seq::<Seq<u8>>::empty());
    } else {
        let first = payloads[0];
        let rest = payloads.drop_first();
        lemma_decode_of_encode_all(rest, max);
        lemma_decode_encoded_frame(first, spec_encode_all(rest), max);
        assert(seq![first] + rest =~= payloads);
    }
}

/// Feeding a stream to the decoder chunk by chunk, keeping the remainder
/// between calls: the frames extracted over all calls, and the remainder
/// left at the end.
pub open spec fn spec_decode_chunked(
    remainder: Seq<u8>,
    chunks: Seq<Seq<u8>>,
    max: int,
) -> Option<(Seq<Seq<u8>>, Seq<u8>)>
    decreases chunks.len(),
{
    if chunks.len() == 0 {
        Some((Seq::empty(), remainder))
    } else {
        match spec_decode(remainder + chunks[0], max) {
            None => None,
            Some((frames, rest)) => prepend_frames(
                frames,
                spec_decode_chunked(rest, chunks.drop_first(), max),
            ),
        }
    }
}

/// Chunk boundaries do not matter: decoding chunk by chunk from a reduced
/// remainder equals decoding the concatenated stream in one call.
pub proof fn lemma_chunked_decode_eq(remainder: Seq<u8>, chunks: Seq<Seq<u8>>, max: int)
    requires
        spec_decode(remainder, max) == Some((Seq::<Seq<u8>>::empty(), remainder)),
    ensures
        spec_decode_chunked(remainder, chunks, max) == spec_decode(
            remainder + chunks.flatten(),
            max,
        ),
    decreases chunks.len(),
{
    if chunks.len() == 0 {
        assert(remainder + chunks.flatten() =~= remainder);
    } else {
        let joined = remainder + chunks[0];
        match spec_decode(joined, max) {
            None => {
                lemma_decode_none_concat(joined, chunks.drop_first().flatten(), max);
                assert(joined + chunks.drop_first().flatten() =~= remainder + chunks.flatten());
            },
            Some((frames, rest)) => {
                lemma_remainder_reduced(joined, max);
                lemma_chunked_decode_eq(rest, chunks.drop_first(), max);
                lemma_decode_concat(joined, chunks.drop_first().flatten(), max);
                assert(joined + chunks.drop_first().flatten() =~= remainder + chunks.flatten());
            },
        }
    }
}

/// Framing round-trip: any payload sequence (each within the maximum),
/// encoded consecutively and fed to the decoder at arbitrary chunk
/// boundaries, comes back exactly, in order, with nothing retained.
pub proof fn lemma_framing_round_trip(payloads: Seq<Seq<u8>>, chunks: Seq<Seq<u8>>, max: int)
    requires
        0 <= max <= u32::MAX,
        forall|i: int| 0 <= i < payloads.len() ==> #[trigger] payloads[i].len() <= max,
        chunks.flatten() == spec_encode_all(payloads),
    ensures
        spec_decode_chunked(Seq::empty(), chunks, max) == Some(
            (payloads, Seq::<u8>::empty()),
        ),
{
    lemma_chunked_decode_eq(Seq::empty(), chunks, max);
    assert(Seq::<u8>::empty() + chunks.flatten() =~= spec_encode_all(payloads));
    lemma_decode_of_encode_all(payloads, max);
}

/// Oversized-length rejection: a stream whose first length prefix claims
/// more than the maximum is refused outright.
pub proof fn lemma_oversized_rejected(stream: Seq<u8>, max: int)
    requires
        stream.len() >= 4,
        be32_val(stream.subrange(0, 4)) > max,
    ensures
        spec_decode(stream, max) is None,
{
}

} // verus!

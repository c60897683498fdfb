use vp_core::codec::{decode_frames, encode_frame, read_be32, write_be32, FrameError};
use vp_core::conn::Connection;

const MAX: u32 = 1024;

fn enc(payload: &[u8]) -> Vec<u8> {
    encode_frame(&payload.to_vec()).expect("payload fits a length prefix")
}

#[test]
fn be32_round_trip() {
    for n in [0u32, 1, 255, 256, 65_535, 0xDEAD_BEEF, u32::MAX] {
        let mut buf = Vec::new();
        write_be32(&mut buf, n);
        assert_eq!(buf.len(), 4);
        assert_eq!(read_be32(&buf, 0), n);
    }
}

#[test]
fn encode_prefix_is_big_endian_length() {
    let framed = enc(b"hello");
    assert_eq!(&framed[0..4], &[0, 0, 0, 5]);
    assert_eq!(&framed[4..], b"hello");
}

#[test]
fn decode_one_shot_round_trip() {
    let payloads: Vec<Vec<u8>> = vec![b"".to_vec(), b"a".to_vec(), b"hello".to_vec(), vec![7u8; 300]];
    let mut stream = Vec::new();
    for p in &payloads {
        stream.extend_from_slice(&enc(p));
    }
    let (frames, rest) = decode_frames(&stream, MAX).expect("well-formed stream");
    assert_eq!(frames, payloads);
    assert!(rest.is_empty());
}

#[test]
fn framing_round_trip_arbitrary_chunks() {
    // The same payload sequence must come out whatever the chunk
    // boundaries are.
    let payloads: Vec<Vec<u8>> = vec![b"alpha".to_vec(), vec![0u8; 40], b"".to_vec(), b"omega!".to_vec()];
    let mut stream = Vec::new();
    for p in &payloads {
        stream.extend_from_slice(&enc(p));
    }
    for chunk_size in [1usize, 2, 3, 5, 7, 11, 1000] {
        let mut conn = Connection::new();
        let mut got: Vec<Vec<u8>> = Vec::new();
        for chunk in stream.chunks(chunk_size) {
            let frames = conn.ingest(&chunk.to_vec(), MAX).expect("no oversized frame");
            got.extend(frames);
        }
        assert_eq!(got, payloads, "chunk size {}", chunk_size);
    }
}

#[test]
fn partial_frame_retained_across_reads() {
    let framed = enc(b"split me");
    let (head, tail) = framed.split_at(6);
    let mut conn = Connection::new();
    let first = conn.ingest(&head.to_vec(), MAX).unwrap();
    assert!(first.is_empty());
    let second = conn.ingest(&tail.to_vec(), MAX).unwrap();
    assert_eq!(second, vec![b"split me".to_vec()]);
}

#[test]
fn prefix_split_across_reads() {
    let framed = enc(b"xyz");
    let (head, tail) = framed.split_at(2);
    let mut conn = Connection::new();
    assert!(conn.ingest(&head.to_vec(), MAX).unwrap().is_empty());
    assert_eq!(conn.ingest(&tail.to_vec(), MAX).unwrap(), vec![b"xyz".to_vec()]);
}

#[test]
fn oversized_length_rejected() {
    // A length prefix one past the maximum refuses the stream outright.
    let mut stream = Vec::new();
    write_be32(&mut stream, MAX + 1);
    stream.extend_from_slice(&[0u8; 8]);
    assert_eq!(decode_frames(&stream, MAX), Err(FrameError::OversizedLength));
}

#[test]
fn oversized_length_drops_connection_buffer() {
    let mut conn = Connection::new();
    let mut bad = Vec::new();
    write_be32(&mut bad, u32::MAX);
    assert_eq!(conn.ingest(&bad, MAX), Err(FrameError::OversizedLength));
    // The poisoned remainder is gone: a fresh, valid frame decodes.
    let ok = conn.ingest(&enc(b"clean"), MAX).unwrap();
    assert_eq!(ok, vec![b"clean".to_vec()]);
}

#[test]
fn frame_at_exact_maximum_is_accepted() {
    let payload = vec![9u8; MAX as usize];
    let (frames, rest) = decode_frames(&enc(&payload), MAX).unwrap();
    assert_eq!(frames, vec![payload]);
    assert!(rest.is_empty());
}

use hs_demo::net::{encode_frame, take_frames};

fn vk_of(secret: &[u8; 32]) -> [u8; 32] {
    hotstuff_rs::types::crypto_primitives::SigningKey::from_bytes(secret).verifying_key().to_bytes()
}

fn key_ok(key: &[u8; 32]) -> bool {
    hotstuff_rs::types::crypto_primitives::VerifyingKey::from_bytes(key).is_ok()
}

#[test]
fn a_frame_is_key_length_message() {
    let key = [5u8; 32];
    let frame = encode_frame(&key, &vec![9, 8, 7]);
    let mut expected = key.to_vec();
    expected.extend_from_slice(&[3, 0, 0, 0, 9, 8, 7]);
    assert_eq!(frame, expected);
    assert_eq!(encode_frame(&key, &vec![0u8; 300])[32..36], [44, 1, 0, 0]);
}

#[test]
fn frames_read_back_as_written() {
    let k1 = vk_of(&[1u8; 32]);
    let k2 = vk_of(&[2u8; 32]);
    let mut buf = encode_frame(&k1, &b"hello".to_vec());
    buf.extend(encode_frame(&k2, &Vec::new()));
    buf.extend(encode_frame(&k1, &b"world".to_vec()));
    let frames = take_frames(&mut buf);
    assert!(buf.is_empty());
    let got: Vec<([u8; 32], Vec<u8>)> = frames.into_iter().map(|f| (f.origin, f.message)).collect();
    assert_eq!(got, vec![(k1, b"hello".to_vec()), (k2, vec![]), (k1, b"world".to_vec())]);
}

#[test]
fn a_partial_frame_stays_in_the_buffer() {
    let k = vk_of(&[3u8; 32]);
    let whole = encode_frame(&k, &b"abc".to_vec());
    let mut buf = whole[..whole.len() - 1].to_vec();
    assert!(take_frames(&mut buf).is_empty());
    assert_eq!(buf, whole[..whole.len() - 1].to_vec());
    buf.push(*whole.last().unwrap());
    let frames = take_frames(&mut buf);
    assert_eq!(frames.len(), 1);
    assert_eq!(frames[0].message, b"abc".to_vec());
    let mut short = vec![1u8; 35];
    assert!(take_frames(&mut short).is_empty());
    assert_eq!(short.len(), 35);
}

#[test]
fn a_frame_with_an_invalid_key_is_skipped_byte_by_byte() {
    let bad = (0u8..=255)
        .map(|b| [b; 32])
        .find(|key| !key_ok(key))
        .unwrap();
    // a whole (empty) frame under an invalid key: one byte is dropped, and
    // the 35 left are not a whole frame
    let mut buf = bad.to_vec();
    buf.extend_from_slice(&[0, 0, 0, 0]);
    assert!(take_frames(&mut buf).is_empty());
    let mut expected = bad[1..].to_vec();
    expected.extend_from_slice(&[0, 0, 0, 0]);
    assert_eq!(buf, expected);
    // an invalid frame followed by a valid one: the reader drops bytes until
    // the valid frame lines up only if each dropped position fails too
    let k = vk_of(&[4u8; 32]);
    let mut buf = bad.to_vec();
    buf.extend_from_slice(&[0, 0, 0, 0]);
    let valid = encode_frame(&k, &b"msg".to_vec());
    buf.extend_from_slice(&valid);
    let frames = take_frames(&mut buf);
    for f in &frames {
        assert!(key_ok(&f.origin));
    }
}

#[test]
fn frames_read_the_same_at_any_read_boundary() {
    let k1 = vk_of(&[6u8; 32]);
    let k2 = vk_of(&[7u8; 32]);
    let mut stream = encode_frame(&k1, &b"first".to_vec());
    stream.extend(encode_frame(&k2, &vec![1u8; 40]));
    stream.extend(encode_frame(&k1, &Vec::new()));
    let mut whole = stream.clone();
    let expected: Vec<([u8; 32], Vec<u8>)> =
        take_frames(&mut whole).into_iter().map(|f| (f.origin, f.message)).collect();
    assert_eq!(expected.len(), 3);
    for cut in 0..=stream.len() {
        for second in cut..=stream.len() {
            let mut buf = Vec::new();
            let mut got = Vec::new();
            for chunk in [&stream[..cut], &stream[cut..second], &stream[second..]] {
                buf.extend_from_slice(chunk);
                got.extend(take_frames(&mut buf).into_iter().map(|f| (f.origin, f.message)));
            }
            assert_eq!(got, expected);
            assert!(buf.is_empty());
        }
    }
}

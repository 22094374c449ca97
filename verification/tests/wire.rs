use simple_file_transfer_v2::wire::{frame, payload_length, unframe, MAX_PAYLOAD};

#[test]
fn frame_puts_the_length_first_high_byte_leading() {
    assert_eq!(frame(b""), Some(vec![0, 0]));
    assert_eq!(frame(b"abc"), Some(vec![0, 3, b'a', b'b', b'c']));
    let framed = frame(&vec![7u8; 258]).unwrap();
    assert_eq!(framed.len(), 260);
    assert_eq!(&framed[..2], &[1u8, 2][..]);
    assert_eq!(&framed[2..], &vec![7u8; 258][..]);
}

#[test]
fn frame_carries_at_most_65535_bytes() {
    assert_eq!(MAX_PAYLOAD, 65535);
    let framed = frame(&vec![1u8; 65535]).unwrap();
    assert_eq!(&framed[..2], &[255u8, 255][..]);
    assert_eq!(framed.len(), 65537);
    assert_eq!(frame(&vec![1u8; 65536]), None);
    assert_eq!(frame(&vec![1u8; 70000]), None);
}

#[test]
fn payload_length_reads_the_prefix() {
    assert_eq!(payload_length(0, 0), 0);
    assert_eq!(payload_length(0, 3), 3);
    assert_eq!(payload_length(1, 2), 258);
    assert_eq!(payload_length(16, 0), 4096);
    assert_eq!(payload_length(255, 255), 65535);
}

#[test]
fn unframe_waits_for_a_whole_frame() {
    assert_eq!(unframe(b""), None);
    assert_eq!(unframe(&[0]), None);
    assert_eq!(unframe(&[0, 3]), None);
    assert_eq!(unframe(&[0, 3, b'a', b'b']), None);
    assert_eq!(unframe(&[0, 3, b'a', b'b', b'c']), Some((b"abc".to_vec(), 5)));
    assert_eq!(unframe(&[0, 0]), Some((vec![], 2)));
}

#[test]
fn unframe_leaves_what_follows_the_frame() {
    assert_eq!(unframe(&[0, 1, b'x', 0, 2, b'y', b'z']), Some((b"x".to_vec(), 3)));
    assert_eq!(unframe(&[0, 2, b'y', b'z']), Some((b"yz".to_vec(), 4)));
}

#[test]
fn frames_round_trip() {
    for length in [0usize, 1, 2, 255, 256, 257, 4096, 65535] {
        let payload: Vec<u8> = (0..length).map(|i| (i % 251) as u8).collect();
        let mut stream = frame(&payload).unwrap();
        stream.extend_from_slice(&[9, 9, 9]);
        assert_eq!(unframe(&stream), Some((payload, length + 2)));
    }
}

use goobus::{Message, PayloadTooLong, ReadProgress};

#[test]
fn the_length_comes_first() {
    assert_eq!(Message::write(&[]), Ok(vec![0, 0, 0, 0]));
    assert_eq!(Message::write(&[9, 8, 7]), Ok(vec![3, 0, 0, 0, 9, 8, 7]));
    let long = vec![1; 0x01_0203];
    let bytes = Message::write(&long).unwrap();
    assert_eq!(bytes[..5], [3, 2, 1, 0, 1]);
    assert_eq!(bytes.len(), 4 + 0x01_0203);
}

#[test]
fn a_payload_can_be_too_long() {
    assert_eq!(Message::prefix(0xffff_fffe), Ok(vec![0xfe, 0xff, 0xff, 0xff]));
    assert_eq!(Message::prefix(0xffff_ffff), Ok(vec![0xff, 0xff, 0xff, 0xff]));
    assert_eq!(Message::prefix(0x1_0000_0000), Err(PayloadTooLong));
    assert_eq!(Message::prefix(usize::MAX), Err(PayloadTooLong));
}

#[test]
fn missing_bytes_are_asked_for() {
    assert_eq!(Message::read(&[]), ReadProgress::Missing(4));
    assert_eq!(Message::read(&[3, 0]), ReadProgress::Missing(2));
    assert_eq!(Message::read(&[3, 0, 0, 0]), ReadProgress::Missing(3));
    assert_eq!(Message::read(&[3, 0, 0, 0, 9, 8]), ReadProgress::Missing(1));
    assert_eq!(Message::read(&[3, 0, 0, 0, 9, 8, 7]), ReadProgress::Payload(vec![9, 8, 7]));
    assert_eq!(Message::read(&[0, 0, 0, 0]), ReadProgress::Payload(vec![]));
    assert_eq!(Message::read(&[0, 0, 1, 0]), ReadProgress::Missing(65536));
    assert_eq!(Message::read(&[0, 1, 0, 1]), ReadProgress::Missing(16777472));
}

#[test]
fn what_follows_is_left_alone() {
    assert_eq!(Message::read(&[1, 0, 0, 0, 5, 6, 7]), ReadProgress::Payload(vec![5]));
}

#[test]
fn what_is_written_is_read_back() {
    let payload: Vec<u8> = (0..=255).cycle().take(1000).collect();
    let bytes = Message::write(&payload).unwrap();
    for received in 0..bytes.len() {
        let ReadProgress::Missing(count) = Message::read(&bytes[..received]) else {
            panic!("read too early");
        };
        assert!(0 < count && received + count <= bytes.len());
    }
    assert_eq!(Message::read(&bytes), ReadProgress::Payload(payload));
}

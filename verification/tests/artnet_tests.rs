use svetd::artnet::{ArtNetError, ArtNetSender};

#[test]
fn single_value_packet_is_padded() {
    let s = ArtNetSender::new("2.0.0.1", 1);
    assert_eq!(s.addr(), "2.0.0.1");
    let bytes = s.packet(&vec![255]).unwrap();
    assert_eq!(bytes, vec![65, 114, 116, 45, 78, 101, 116, 0, 0, 80, 0, 14, 0, 0, 1, 0, 0, 2, 255, 0]);
}

#[test]
fn full_frame_packet() {
    let s = ArtNetSender::new("2.0.0.1", 0x1234);
    let bytes = s.packet(&vec![128; 512]).unwrap();
    assert_eq!(&bytes[..18], &[65, 114, 116, 45, 78, 101, 116, 0, 0, 80, 0, 14, 0, 0, 0x34, 0x12, 2, 0]);
    assert_eq!(bytes.len(), 18 + 512);
}

#[test]
fn invalid_packets_are_refused() {
    assert_eq!(ArtNetSender::new("x", -1).packet(&vec![1]), Err(ArtNetError::InvalidUniverse));
    assert_eq!(ArtNetSender::new("x", 32768).packet(&vec![1]), Err(ArtNetError::InvalidUniverse));
    assert_eq!(ArtNetSender::new("x", 0).packet(&vec![]), Err(ArtNetError::InvalidData));
    assert_eq!(ArtNetSender::new("x", 0).packet(&vec![0; 513]), Err(ArtNetError::InvalidData));
}

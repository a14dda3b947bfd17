//! The wire codec: frame serialisation, frame parsing, the handshake, and
//! their errors.

use torrent::bitset::Bitmap;
use torrent::peer::{Error, Handshake, Message};

fn bitmap_of(bits: &[bool]) -> Bitmap {
    let mut bv = Bitmap::new(bits.len());
    for (i, b) in bits.iter().enumerate() {
        bv.set(i, *b);
    }
    bv
}

#[test]
fn test_send_message() {
    let v = vec![
        Message::KeepAlive,
        Message::Choke,
        Message::Unchoke,
        Message::Interested,
        Message::NotInterested,
        Message::Have(2),
        Message::BitField(bitmap_of(&[false, false, false, true])),
        Message::Request(2, 0, 3),
        Message::Piece(2, 0, vec![2, 8, 5]),
        Message::Cancel(2, 0, 3),
        Message::Port(1000),
    ];
    let mut it = v.iter();
    let mut d: Vec<u8> = Vec::with_capacity(13);

    // Keep Alive
    it.next().unwrap().send(&mut d);
    assert_eq!(d.as_slice(), &[0, 0, 0, 0]);
    d.clear();

    // Choke
    it.next().unwrap().send(&mut d);
    assert_eq!(d.as_slice(), &[0, 0, 0, 1, 0]);
    d.clear();

    // Unchoke
    it.next().unwrap().send(&mut d);
    assert_eq!(d.as_slice(), &[0, 0, 0, 1, 1]);
    d.clear();

    // Interested
    it.next().unwrap().send(&mut d);
    assert_eq!(d.as_slice(), &[0, 0, 0, 1, 2]);
    d.clear();

    // Not Interested
    it.next().unwrap().send(&mut d);
    assert_eq!(d.as_slice(), &[0, 0, 0, 1, 3]);
    d.clear();

    // Have
    it.next().unwrap().send(&mut d);
    assert_eq!(d.as_slice(), &[0, 0, 0, 5, 4, 0, 0, 0, 2]);
    d.clear();

    // Bitfield
    it.next().unwrap().send(&mut d);
    assert_eq!(d.as_slice(), &[0, 0, 0, 2, 5, 16]);
    d.clear();

    // Request
    it.next().unwrap().send(&mut d);
    assert_eq!(d.as_slice(), &[0, 0, 0, 13, 6, 0, 0, 0, 2, 0, 0, 0, 0, 0, 0, 0, 3]);
    d.clear();

    // Piece
    it.next().unwrap().send(&mut d);
    assert_eq!(d.as_slice(), &[0, 0, 0, 12, 7, 0, 0, 0, 2, 0, 0, 0, 0, 2, 8, 5]);
    d.clear();

    // Cancel
    it.next().unwrap().send(&mut d);
    assert_eq!(d.as_slice(), &[0, 0, 0, 13, 8, 0, 0, 0, 2, 0, 0, 0, 0, 0, 0, 0, 3]);
    d.clear();

    // Port
    it.next().unwrap().send(&mut d);
    assert_eq!(d.as_slice(), &[0, 0, 0, 3, 9, 3, 232]);
    d.clear();
}

#[test]
fn test_receive_message() {
    let frames: Vec<&[u8]> = vec![
        &[0, 0, 0, 0],
        &[0, 0, 0, 1, 0],
        &[0, 0, 0, 1, 1],
        &[0, 0, 0, 1, 2],
        &[0, 0, 0, 1, 3],
        &[0, 0, 0, 5, 4, 0, 0, 0, 2],
        &[0, 0, 0, 2, 5, 16],
        &[0, 0, 0, 13, 6, 0, 0, 0, 2, 0, 0, 0, 0, 0, 0, 0, 3],
        &[0, 0, 0, 12, 7, 0, 0, 0, 2, 0, 0, 0, 0, 2, 8, 5],
        &[0, 0, 0, 13, 8, 0, 0, 0, 2, 0, 0, 0, 0, 0, 0, 0, 3],
        &[0, 0, 0, 3, 9, 3, 232],
    ];
    let expected = vec![
        Message::KeepAlive,
        Message::Choke,
        Message::Unchoke,
        Message::Interested,
        Message::NotInterested,
        Message::Have(2),
        Message::BitField(bitmap_of(&[false, false, false, true, false, false, false, false])),
        Message::Request(2, 0, 3),
        Message::Piece(2, 0, vec![2, 8, 5]),
        Message::Cancel(2, 0, 3),
        Message::Port(1000),
    ];
    for (frame, want) in frames.iter().zip(expected.iter()) {
        assert_eq!(&Message::recv(frame).unwrap(), want);
    }
}

#[test]
fn round_trip_all_kinds() {
    let v = vec![
        Message::KeepAlive,
        Message::Choke,
        Message::Unchoke,
        Message::Interested,
        Message::NotInterested,
        Message::Have(123456),
        Message::BitField(bitmap_of(&[true, false, true, true, false, false, true, false])),
        Message::Request(7, 16384, 16384),
        Message::Piece(9, 32768, vec![1, 2, 3, 4, 5]),
        Message::Cancel(7, 16384, 16384),
        Message::Port(6881),
    ];
    for m in v.into_iter() {
        let mut d: Vec<u8> = Vec::new();
        m.send(&mut d);
        assert_eq!(Message::recv(&d).unwrap(), m);
    }
}

#[test]
fn parse_errors() {
    // Unknown id.
    assert_eq!(Message::recv(&[0, 0, 0, 1, 10]), Err(Error::Invalid(10)));
    // A bitfield with no payload byte is too small.
    assert_eq!(Message::recv(&[0, 0, 0, 1, 5]), Err(Error::SmallLength(2, 1)));
    // A piece with fewer than ten bytes of length is too small.
    assert_eq!(
        Message::recv(&[0, 0, 0, 9, 7, 0, 0, 0, 0, 0, 0, 0, 0]),
        Err(Error::SmallLength(10, 9))
    );
    // A have frame must carry exactly four payload bytes.
    assert_eq!(Message::recv(&[0, 0, 0, 6, 4, 0, 0, 0, 2, 9]), Err(Error::WrongLength(6, 5)));
    // A choke frame must have length one.
    assert_eq!(Message::recv(&[0, 0, 0, 2, 0, 0]), Err(Error::WrongLength(2, 1)));
    // A frame shorter than its length field is truncated.
    assert_eq!(Message::recv(&[0, 0, 0, 5, 4]), Err(Error::Truncated));
    assert_eq!(Message::recv(&[0, 0]), Err(Error::Truncated));
}

#[test]
fn handshake_frame() {
    let mut d: Vec<u8> = Vec::new();
    Handshake::send(&[0x41; 20], Some(&[0x42; 20]), &mut d);
    let mut want: Vec<u8> = vec![19];
    want.extend_from_slice(b"BitTorrent Protocol");
    want.extend_from_slice(&[0; 8]);
    want.extend_from_slice(&[0x41; 20]);
    want.extend_from_slice(&[0x42; 20]);
    assert_eq!(d, want);
}

#[test]
fn handshake_checks() {
    let mut frame: Vec<u8> = Vec::new();
    Handshake::send(&[0x41; 20], Some(&[0x42; 20]), &mut frame);

    // The right info-hash from a stranger is accepted.
    assert!(Handshake::recv(&[0x41; 20], &[0x43; 20], &frame));
    // The wrong info-hash is refused.
    assert!(!Handshake::recv(&[0x44; 20], &[0x43; 20], &frame));
    // A connection to ourselves is refused.
    assert!(!Handshake::recv(&[0x41; 20], &[0x42; 20], &frame));
    // A truncated handshake is refused.
    assert!(!Handshake::recv(&[0x41; 20], &[0x43; 20], &frame[..30]));
}

#[test]
fn bitmap_packing() {
    let bv = bitmap_of(&[true, false, false, false, false, false, false, true, true]);
    assert_eq!(bv.to_bytes(), vec![0b1000_0001, 0b1000_0000]);
    let back = Bitmap::from_bytes(&[0b1000_0001, 0b1000_0000]);
    assert_eq!(back.len(), 16);
    assert!(back.get(0) && back.get(7) && back.get(8));
    assert!(!back.get(1) && !back.get(15));
}

#[test]
fn bitmap_operations() {
    let a = bitmap_of(&[true, true, false, false]);
    let b = bitmap_of(&[true, false, true, false]);
    let u = torrent::bitset::union(&a, &b);
    let i = torrent::bitset::intersect(&a, &b);
    let d = torrent::bitset::difference(&a, &b);
    assert!(u.get(0) && u.get(1) && u.get(2) && !u.get(3));
    assert!(i.get(0) && !i.get(1) && !i.get(2) && !i.get(3));
    assert!(!d.get(0) && d.get(1) && !d.get(2) && !d.get(3));
    assert!(a.any());
    assert!(!bitmap_of(&[false, false]).any());
    let mut t = a.clone();
    t.truncate(2);
    assert_eq!(t.len(), 2);
}

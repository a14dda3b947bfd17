//! Metadata validation, piece arithmetic, digest checks and the info-hash.

use torrent::metainfo::{Error, Info, Metainfo};

fn meta(info: Info) -> Metainfo {
    Metainfo {
        announce: String::new(),
        info,
        creation_date: None,
        comment: None,
        created_by: None,
        encoding: None,
    }
}

#[test]
fn test_validate_info() {
    let infos = vec![
        Info { name: b"".to_vec(), piece_length: 1, pieces: vec![0; 40], length: 2 },
        Info { name: b"test".to_vec(), piece_length: 1, pieces: vec![0; 1], length: 0 },
        Info { name: b"test".to_vec(), piece_length: 0, pieces: vec![0; 1], length: 10 },
        Info { name: b"test".to_vec(), piece_length: 100, pieces: vec![0; 20], length: 200 },
        Info { name: b"test".to_vec(), piece_length: 100, pieces: vec![0; 20], length: 100 },
    ];

    assert!(matches!(infos[0].validate().unwrap_err(), Error::InvalidName));
    assert!(matches!(infos[1].validate().unwrap_err(), Error::ZeroLength));
    assert!(matches!(infos[2].validate().unwrap_err(), Error::ZeroPieceLength));
    match infos[3].validate() {
        Err(Error::InvalidPieceArrayLength(_)) => (),
        _ => assert!(false),
    }
    assert!(infos[4].validate().is_ok());
}

#[test]
fn piece_size_arithmetic() {
    // Total length 250 with piece length 100: three pieces of 100, 100, 50.
    let info = Info { name: b"test".to_vec(), piece_length: 100, pieces: vec![0; 60], length: 250 };
    let m = meta(info);
    assert_eq!(m.num_pieces(), 3);
    assert_eq!(m.get_piece_size(0), 100);
    assert_eq!(m.get_piece_size(1), 100);
    assert_eq!(m.get_piece_size(2), 50);
}

#[test]
fn digest_check() {
    // The digest of "abc" from the standard test vectors.
    let digest: Vec<u8> = vec![
        169, 153, 62, 54, 71, 6, 129, 106, 186, 62, 37, 113, 120, 80, 194, 108, 156, 208, 216, 157,
    ];
    let info = Info { name: b"test".to_vec(), piece_length: 3, pieces: digest, length: 3 };
    let m = meta(info);
    assert!(m.verify_piece(0, b"abc"));
    assert!(!m.verify_piece(0, b"abd"));
    assert!(!m.verify_piece(0, b""));
}

#[test]
fn info_hash_is_digest_of_canonical_bencoding() {
    // Compute the expected digest of the canonical bencoding by hand with
    // the same digest primitive the library calls.
    let info = Info { name: b"test".to_vec(), piece_length: 100, pieces: vec![7; 40], length: 150 };
    let mut encoded: Vec<u8> = Vec::new();
    encoded.extend_from_slice(b"d6:lengthi150e4:name4:test12:piece lengthi100e6:pieces40:");
    encoded.extend_from_slice(&[7; 40]);
    encoded.extend_from_slice(b"e");
    let mut hasher = crypto::sha1::Sha1::new();
    let mut want = [0u8; 20];
    crypto::digest::Digest::input(&mut hasher, &encoded);
    crypto::digest::Digest::result(&mut hasher, &mut want);

    let m = meta(info);
    let got = m.info_hash().unwrap();
    assert_eq!(got.as_slice(), &want);
}

#[test]
fn info_hash_golden_value() {
    // A fixed info dictionary with a precomputed 20-byte digest of its
    // canonical bencoding.
    let info = Info {
        name: b"fixture".to_vec(),
        piece_length: 16384,
        pieces: (0u8..20).collect(),
        length: 10000,
    };
    let m = meta(info);
    let want: [u8; 20] = [
        57, 56, 106, 198, 131, 129, 232, 206, 86, 195, 171, 33, 213, 176, 208, 86, 243, 144, 168,
        139,
    ];
    assert_eq!(m.info_hash().unwrap(), want.to_vec());
}

#[test]
fn info_hash_refuses_invalid_metadata() {
    let info = Info { name: b"".to_vec(), piece_length: 1, pieces: vec![0; 20], length: 1 };
    assert!(matches!(meta(info).info_hash().unwrap_err(), Error::InvalidName));
}

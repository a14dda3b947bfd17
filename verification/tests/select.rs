//! The three piece selection strategies.

use torrent::bitos::Bitos;
use torrent::bitset::Bitmap;
use torrent::inorder::Inorder;
use torrent::rare::Rare;
use torrent::selection::{Selector, State};

fn bitmap_of(bits: &[bool]) -> Bitmap {
    let mut bv = Bitmap::new(bits.len());
    for (i, b) in bits.iter().enumerate() {
        bv.set(i, *b);
    }
    bv
}

#[test]
fn inorder_takes_the_first_needed_pieces() {
    let mut s = Inorder::default();
    let state = State {
        required: bitmap_of(&[true, false, true, true, true]),
        available: bitmap_of(&[true, true, true, false, true]),
    };
    let picks = s.request_pieces("p", state, 2);
    assert_eq!(picks, vec![0, 2]);

    let state = State {
        required: bitmap_of(&[false, false]),
        available: bitmap_of(&[true, true]),
    };
    assert!(s.request_pieces("p", state, 4).is_empty());
}

#[test]
fn rarest_first_tie_break() {
    // Two peers: one has pieces {0, 1}, the other has {0}.  The rarity is
    // then [2, 1], and a single request must pick the rarer piece 1.
    let mut s = Rare::default();
    let nothing = bitmap_of(&[false, false]);

    let seen = s.request_pieces(
        "a",
        State { required: nothing.clone(), available: bitmap_of(&[true, true]) },
        0,
    );
    assert!(seen.is_empty());
    let seen = s.request_pieces(
        "b",
        State { required: nothing.clone(), available: bitmap_of(&[true, false]) },
        0,
    );
    assert!(seen.is_empty());

    let picks = s.request_pieces(
        "b",
        State {
            required: bitmap_of(&[true, true]),
            available: bitmap_of(&[true, false]),
        },
        1,
    );
    assert_eq!(picks, vec![1]);
}

#[test]
fn rarest_first_orders_by_rarity() {
    let mut s = Rare::default();
    let nothing = bitmap_of(&[false, false, false]);
    // Piece 0 is seen thrice, piece 1 twice, piece 2 once.
    for (id, avail) in [
        ("a", [true, true, true]),
        ("b", [true, true, false]),
        ("c", [true, false, false]),
    ] {
        let seen = s.request_pieces(
            id,
            State { required: nothing.clone(), available: bitmap_of(&avail) },
            0,
        );
        assert!(seen.is_empty());
    }
    let picks = s.request_pieces(
        "c",
        State {
            required: bitmap_of(&[true, true, true]),
            available: bitmap_of(&[true, false, false]),
        },
        2,
    );
    assert_eq!(picks, vec![2, 1]);
}

#[test]
fn rarest_first_fills_from_ties() {
    // All four pieces equally rare: two slots are filled by a shuffled
    // draw from the tied pieces, still distinct and still required.
    let mut s = Rare::default();
    let nothing = bitmap_of(&[false, false, false, false]);
    let all = bitmap_of(&[true, true, true, true]);
    let seen = s.request_pieces("a", State { required: nothing, available: all.clone() }, 0);
    assert!(seen.is_empty());
    let picks = s.request_pieces("a", State { required: all.clone(), available: all }, 2);
    assert_eq!(picks.len(), 2);
    assert_ne!(picks[0], picks[1]);
    assert!(picks.iter().all(|p| (*p as usize) < 4));
}

#[test]
fn bitos_never_duplicates() {
    let mut s = Bitos::default();
    for _ in 0..20 {
        let state = State {
            required: bitmap_of(&[true, true, true, true, true, true]),
            available: bitmap_of(&[true, true, true, true, true, true]),
        };
        let picks = s.request_pieces("p", state, 4);
        assert!(picks.len() <= 4);
        for i in 0..picks.len() {
            for j in 0..i {
                assert_ne!(picks[i], picks[j]);
            }
        }
        for p in &picks {
            assert!((*p as usize) < 6);
        }
    }
}

#[test]
fn peer_identifier_shape() {
    let id = torrent::identity::make_id();
    assert_eq!(id.len(), 20);
    assert_eq!(&id[0..8], b"-CN0010-");
    for b in &id[8..] {
        assert!((b'1'..=b'8').contains(b));
    }
}

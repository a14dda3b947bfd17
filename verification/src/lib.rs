//! Core of a peer-to-peer file distribution client: wire codec for the
//! handshake and the ten numbered message kinds, per-piece assembly with
//! SHA-1 verification, piece selection strategies, the shared piece store,
//! the per-connection sender and receiver state machines, and the periodic
//! choking controller.  Socket, file and tracker I/O live outside this
//! library; everything here works on plain values and is verified.

pub mod bitos;
pub mod bitset;
pub mod choking;
pub mod connection;
pub mod digest;
pub mod encoding;
pub mod identity;
pub mod inorder;
pub mod metainfo;
pub mod peer;
pub mod rare;
pub mod receiver;
mod rng;
pub mod selection;
pub mod sender;
pub mod storage;
pub mod tracker;

pub use bitset::Bitmap;

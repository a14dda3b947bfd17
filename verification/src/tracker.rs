//! The tracker protocol's data: building the announce URL with its query
//! string, validating the bencoded response's fields, and parsing the
//! compact peer list.  The HTTP transport and the bencode decoding of the
//! response body live outside the library.

use crate::encoding::{
    percent_encode, spec_decimal, spec_percent_encode, spec_u16_from_2, u16_from_2, u64_to_decimal,
};
use vstd::prelude::*;

verus! {

/// What the client reports to the tracker.
pub struct TorrentState {
    pub uploaded: u64,
    pub downloaded: u64,
    pub left: u64,
}

/// Why a compact peer list was rejected.
#[derive(Debug)]
pub enum Error {
    /// The compact list's length is not a multiple of six bytes.
    InvalidLength,
}

/// One peer as the tracker reports it: an IPv4 address and a port.
#[derive(Debug)]
pub struct PeerInfo {
    pub ip: [u8; 4],
    pub port: u16,
}

impl PeerInfo {
    /// Parse the compact form: six bytes per peer, four of address and two
    /// of big-endian port.
    pub fn deserialize(serialized: &[u8]) -> (r: Result<Vec<PeerInfo>, Error>)
        ensures
            match r {
                Ok(v) => {
                    &&& serialized@.len() % 6 == 0
                    &&& v@.len() == serialized@.len() as int / 6
                    &&& (forall|k: int|
                        0 <= k < v@.len() ==> (#[trigger] v@[k]).ip@ == serialized@.subrange(
                            6 * k,
                            6 * k + 4,
                        ) && v@[k].port == spec_u16_from_2(
                            serialized@[6 * k + 4],
                            serialized@[6 * k + 5],
                        ))
                },
                Err(Error::InvalidLength) => serialized@.len() % 6 != 0,
            },
    {
        let n = serialized.len();
        if n % 6 != 0 {
            return Err(Error::InvalidLength);
        }
        proof {
            vstd::arithmetic::div_mod::lemma_fundamental_div_mod(n as int, 6);
        }
        let count = n / 6;
        proof {
            assert(6 * count == n as int);
        }
        let mut v: Vec<PeerInfo> = Vec::new();
        let mut k: usize = 0;
        while k < count
            invariant
                k <= count,
                count == serialized@.len() as int / 6,
                6 * count == n,
                n == serialized@.len(),
                v@.len() == k,
                forall|t: int|
                    0 <= t < k ==> (#[trigger] v@[t]).ip@ == serialized@.subrange(6 * t, 6 * t + 4)
                        && v@[t].port == spec_u16_from_2(
                        serialized@[6 * t + 4],
                        serialized@[6 * t + 5],
                    ),
            decreases count - k,
        {
            let base = 6 * k;
            let ip = [serialized[base], serialized[base + 1], serialized[base + 2], serialized[base
                + 3]];
            let port = u16_from_2(serialized[base + 4], serialized[base + 5]);
            let peer = PeerInfo { ip, port };
            proof {
                assert(peer.ip@ =~= serialized@.subrange(6 * k as int, 6 * k as int + 4));
            }
            v.push(peer);
            k = k + 1;
        }
        Ok(v)
    }
}

/// The announce events a client can report.
pub enum Event {
    Started,
    Completed,
    Stopped,
}

/// The name an event carries in the query string.
pub open spec fn spec_event_name(e: Event) -> Seq<u8> {
    match e {
        Event::Started => seq![115u8, 116, 97, 114, 116, 101, 100],
        Event::Completed => seq![99u8, 111, 109, 112, 108, 101, 116, 101, 100],
        Event::Stopped => seq![115u8, 116, 111, 112, 112, 101, 100],
    }
}

/// One announce request.  The info-hash is carried already percent-encoded
/// (its raw twenty bytes are not valid text); everything else is encoded
/// here.
pub struct Request {
    pub base: Vec<u8>,
    pub info_hash: Vec<u8>,
    pub peer_id: Vec<u8>,
    pub tracker_id: Option<Vec<u8>>,
    pub port: u16,
    pub torrent_state: TorrentState,
    pub num_peers: u64,
    pub event: Option<Event>,
}

/// The query string of an announce request: the parameters in their fixed
/// order, percent-encoded where they need it, the pre-encoded info-hash
/// last.
pub open spec fn spec_query(r: Request) -> Seq<u8> {
    seq![112u8, 101, 101, 114, 95, 105, 100, 61]  // peer_id=
     + spec_percent_encode(r.peer_id@) + (match r.tracker_id {
        Some(tid) => seq![38u8, 116, 114, 97, 99, 107, 101, 114, 105, 100, 61]  // &trackerid=
         + spec_percent_encode(tid@),
        None => Seq::empty(),
    }) + seq![38u8, 112, 111, 114, 116, 61]  // &port=
     + spec_decimal(r.port as nat) + seq![38u8, 117, 112, 108, 111, 97, 100, 101, 100, 61]  // &uploaded=
     + spec_decimal(r.torrent_state.uploaded as nat) + seq![
        38u8,
        100,
        111,
        119,
        110,
        108,
        111,
        97,
        100,
        101,
        100,
        61,
    ]  // &downloaded=
     + spec_decimal(r.torrent_state.downloaded as nat) + seq![38u8, 108, 101, 102, 116, 61]  // &left=
     + spec_decimal(r.torrent_state.left as nat) + seq![
        38u8,
        110,
        117,
        109,
        119,
        97,
        110,
        116,
        61,
    ]  // &numwant=
     + spec_decimal(r.num_peers as nat) + (match r.event {
        Some(e) => seq![38u8, 101, 118, 101, 110, 116, 61] + spec_event_name(e),  // &event=
        None => Seq::empty(),
    }) + seq![38u8, 105, 110, 102, 111, 95, 104, 97, 115, 104, 61]  // &info_hash=
     + r.info_hash@
}

impl Request {
    /// The full announce URL: the tracker's base URL, a question mark, and
    /// the query string.
    #[verifier::rlimit(100)]
    pub fn into_url(self) -> (r: Vec<u8>)
        ensures
            r@ == self.base@ + seq![63u8] + spec_query(self),
    {
        let mut out = crate::encoding::clone_bytes(self.base.as_slice());
        out.push(63);
        crate::encoding::append_bytes(&mut out, &[112u8, 101, 101, 114, 95, 105, 100, 61]);
        let mut enc = percent_encode(self.peer_id.as_slice());
        out.append(&mut enc);
        match &self.tracker_id {
            Some(tid) => {
                crate::encoding::append_bytes(
                    &mut out,
                    &[38u8, 116, 114, 97, 99, 107, 101, 114, 105, 100, 61],
                );
                let mut enc = percent_encode(tid.as_slice());
                out.append(&mut enc);
            },
            None => {},
        }
        crate::encoding::append_bytes(&mut out, &[38u8, 112, 111, 114, 116, 61]);
        let mut dec = u64_to_decimal(self.port as u64);
        out.append(&mut dec);
        crate::encoding::append_bytes(
            &mut out,
            &[38u8, 117, 112, 108, 111, 97, 100, 101, 100, 61],
        );
        let mut dec = u64_to_decimal(self.torrent_state.uploaded);
        out.append(&mut dec);
        crate::encoding::append_bytes(
            &mut out,
            &[38u8, 100, 111, 119, 110, 108, 111, 97, 100, 101, 100, 61],
        );
        let mut dec = u64_to_decimal(self.torrent_state.downloaded);
        out.append(&mut dec);
        crate::encoding::append_bytes(&mut out, &[38u8, 108, 101, 102, 116, 61]);
        let mut dec = u64_to_decimal(self.torrent_state.left);
        out.append(&mut dec);
        crate::encoding::append_bytes(&mut out, &[38u8, 110, 117, 109, 119, 97, 110, 116, 61]);
        let mut dec = u64_to_decimal(self.num_peers);
        out.append(&mut dec);
        match &self.event {
            Some(e) => {
                crate::encoding::append_bytes(&mut out, &[38u8, 101, 118, 101, 110, 116, 61]);
                match e {
                    Event::Started => {
                        crate::encoding::append_bytes(
                            &mut out,
                            &[115u8, 116, 97, 114, 116, 101, 100],
                        );
                    },
                    Event::Completed => {
                        crate::encoding::append_bytes(
                            &mut out,
                            &[99u8, 111, 109, 112, 108, 101, 116, 101, 100],
                        );
                    },
                    Event::Stopped => {
                        crate::encoding::append_bytes(
                            &mut out,
                            &[115u8, 116, 111, 112, 112, 101, 100],
                        );
                    },
                }
            },
            None => {},
        }
        crate::encoding::append_bytes(
            &mut out,
            &[38u8, 105, 110, 102, 111, 95, 104, 97, 115, 104, 61],
        );
        crate::encoding::append_bytes(&mut out, self.info_hash.as_slice());
        proof {
            assert(out@ =~= self.base@ + seq![63u8] + spec_query(self));
        }
        out
    }
}

/// A tracker response as decoded from its bencoded body, every field still
/// optional.
#[derive(Debug)]
pub struct Response {
    pub failure_reason: Option<String>,
    pub tracker_id: Option<String>,
    pub warning_message: Option<String>,
    pub interval: Option<u64>,
    pub peers: Option<Vec<PeerInfo>>,
}

/// A usable tracker response: an interval and a peer list are present.
#[derive(Debug)]
pub struct Valid {
    pub warning_message: Option<String>,
    pub interval: u64,
    pub tracker_id: Option<String>,
    pub peers: Vec<PeerInfo>,
}

impl Valid {
    /// Accept a response exactly when it carries both an interval and a
    /// peer list; hand the response back otherwise so its failure reason
    /// can be reported.
    pub fn from_response(res: Response) -> (r: Result<Valid, Response>)
        ensures
            match r {
                Ok(v) => res.interval is Some && res.peers is Some && Some(v.interval)
                    == res.interval && Some(v.peers) == res.peers && v.tracker_id == res.tracker_id
                    && v.warning_message == res.warning_message,
                Err(back) => (res.interval is None || res.peers is None) && back == res,
            },
    {
        match res {
            Response {
                failure_reason,
                tracker_id,
                warning_message,
                interval: Some(interval),
                peers: Some(peers),
            } => Ok(Valid { warning_message, interval, tracker_id, peers }),
            other => Err(other),
        }
    }
}

/// Peer discovery, however it is transported.
pub trait Discover {
    type Error;

    fn get_peers(&mut self, state: &TorrentState, num_peers: Option<u64>) -> Result<
        Vec<PeerInfo>,
        Self::Error,
    >;
}

} // verus!

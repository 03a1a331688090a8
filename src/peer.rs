use vstd::prelude::*;
use crate::bitvector::BitVector;
use crate::error::{text, BoostError, BoostResult};
use crate::message::BitTorrentMessage;
use crate::wire::push_all;

verus! {

/// `BitTorrent protocol`, the protocol string of the handshake.
pub open spec fn protocol_name() -> Seq<u8> {
    seq![66u8, 105, 116, 84, 111, 114, 114, 101, 110, 116, 32, 112, 114, 111, 116, 111, 99, 111, 108]
}

/// The 68-byte handshake: the protocol string's length (19), the string,
/// eight zero reserved bytes, the info hash and the peer id.
pub open spec fn handshake_bytes(info_hash: Seq<u8>, peer_id: Seq<u8>) -> Seq<u8> {
    seq![19u8] + protocol_name() + Seq::new(8, |i: int| 0u8) + info_hash + peer_id
}

/// A received handshake that this client accepts: 68 bytes, length prefix
/// 19, the exact protocol string, and the expected info hash.
pub open spec fn handshake_accepted(received: Seq<u8>, info_hash: Seq<u8>) -> bool {
    &&& received.len() == 68
    &&& received[0] == 19u8
    &&& received.subrange(1, 20) == protocol_name()
    &&& received.subrange(28, 48) == info_hash
}

/// The handshake that this client sends. Both the info hash and the id must
/// be 20 bytes; otherwise the error is `BitTorrentProtocolErr`.
pub fn build_handshake(info_hash: &[u8], my_id: &[u8]) -> (r: BoostResult<Vec<u8>>)
    ensures
        match r {
            Ok(b) => info_hash@.len() == 20 && my_id@.len() == 20 && b@ == handshake_bytes(
                info_hash@,
                my_id@,
            ),
            Err(e) => e is BitTorrentProtocolErr && (info_hash@.len() != 20 || my_id@.len() != 20),
        },
{
    if info_hash.len() != 20 {
        return Err(BoostError::BitTorrentProtocolErr(text("info hash is not 20 bytes")));
    }
    if my_id.len() != 20 {
        return Err(BoostError::BitTorrentProtocolErr(text("peer id is not 20 bytes")));
    }
    let proto: [u8; 19] = [
        66u8,
        105,
        116,
        84,
        111,
        114,
        114,
        101,
        110,
        116,
        32,
        112,
        114,
        111,
        116,
        111,
        99,
        111,
        108,
    ];
    let reserved: [u8; 8] = [0u8; 8];
    let mut buf: Vec<u8> = Vec::new();
    buf.push(19u8);
    push_all(&mut buf, &proto);
    push_all(&mut buf, &reserved);
    push_all(&mut buf, info_hash);
    push_all(&mut buf, my_id);
    assert(proto@ =~= protocol_name());
    assert(reserved@ =~= Seq::new(8, |i: int| 0u8));
    assert(buf@ =~= handshake_bytes(info_hash@, my_id@));
    Ok(buf)
}

/// Checks a received handshake against the expected info hash and returns
/// the remote peer's id. Any mismatch gives `BitTorrentProtocolErr`.
pub fn check_handshake(received: &[u8], info_hash: &[u8]) -> (r: BoostResult<[u8; 20]>)
    ensures
        match r {
            Ok(id) => handshake_accepted(received@, info_hash@) && id@ == received@.subrange(48, 68),
            Err(e) => e is BitTorrentProtocolErr && !handshake_accepted(received@, info_hash@),
        },
{
    if received.len() != 68 {
        return Err(BoostError::BitTorrentProtocolErr(text("handshake is not 68 bytes")));
    }
    if received[0] != 19u8 {
        return Err(BoostError::BitTorrentProtocolErr(text("protocol string length is not 19")));
    }
    let proto: [u8; 19] = [
        66u8,
        105,
        116,
        84,
        111,
        114,
        114,
        101,
        110,
        116,
        32,
        112,
        114,
        111,
        116,
        111,
        99,
        111,
        108,
    ];
    assert(proto@ =~= protocol_name());
    let mut k: usize = 0;
    while k < 19
        invariant
            k <= 19,
            received@.len() == 68,
            proto@ == protocol_name(),
            forall|j: int| 0 <= j < k ==> received@[1 + j] == proto@[j],
        decreases 19 - k,
    {
        if received[1 + k] != proto[k] {
            proof {
                assert(received@.subrange(1, 20)[k as int] == received@[1 + k as int]);
                assert(proto@[k as int] == protocol_name()[k as int]);
            }
            return Err(BoostError::BitTorrentProtocolErr(text("protocol string is wrong")));
        }
        k = k + 1;
    }
    assert(received@.subrange(1, 20) =~= protocol_name());
    if info_hash.len() != 20 {
        return Err(BoostError::BitTorrentProtocolErr(text("info hash is wrong")));
    }
    let mut j: usize = 0;
    while j < 20
        invariant
            j <= 20,
            received@.len() == 68,
            info_hash@.len() == 20,
            forall|q: int| 0 <= q < j ==> received@[28 + q] == info_hash@[q],
        decreases 20 - j,
    {
        if received[28 + j] != info_hash[j] {
            proof {
                assert(received@.subrange(28, 48)[j as int] != info_hash@[j as int]);
            }
            return Err(BoostError::BitTorrentProtocolErr(text("info hash is wrong")));
        }
        j = j + 1;
    }
    assert(received@.subrange(28, 48) =~= info_hash@);
    let mut id: [u8; 20] = [0u8; 20];
    let mut idx: usize = 0;
    while idx < 20
        invariant
            idx <= 20,
            received@.len() == 68,
            forall|q: int| 0 <= q < idx ==> id@[q] == received@[48 + q],
        decreases 20 - idx,
    {
        id[idx] = received[idx + 48];
        idx = idx + 1;
    }
    assert(id@ =~= received@.subrange(48, 68));
    Ok(id)
}

/// A handshake with the wrong length prefix, the wrong protocol string or the
/// wrong info hash is not accepted, so it yields `BitTorrentProtocolErr` and
/// no session.
pub proof fn lemma_handshake_rejection(received: Seq<u8>, info_hash: Seq<u8>)
    requires
        received.len() == 68,
        received[0] != 19u8 || received.subrange(1, 20) != protocol_name() || received.subrange(
            28,
            48,
        ) != info_hash,
    ensures
        !handshake_accepted(received, info_hash),
{
}

/// The handshake this client sends is one it accepts, for the same info hash.
pub proof fn lemma_handshake_accepts_own(info_hash: Seq<u8>, peer_id: Seq<u8>)
    requires
        info_hash.len() == 20,
        peer_id.len() == 20,
    ensures
        handshake_accepted(handshake_bytes(info_hash, peer_id), info_hash),
        handshake_bytes(info_hash, peer_id).subrange(48, 68) == peer_id,
{
    let h = handshake_bytes(info_hash, peer_id);
    assert(h.subrange(1, 20) =~= protocol_name());
    assert(h.subrange(28, 48) =~= info_hash);
    assert(h.subrange(48, 68) =~= peer_id);
}

/// The state flags of a session.
#[derive(Debug, PartialEq, Eq)]
pub struct PeerFlags {
    /// The remote peer chokes this client.
    pub choked: bool,
    /// This client chokes the remote peer.
    pub choking: bool,
    /// The remote peer wants pieces of this client.
    pub interested_in_me: bool,
    /// This client wants pieces of the remote peer.
    pub interested_in_them: bool,
    /// The remote peer connected to this client.
    pub incoming: bool,
}

/// The state of a session with one remote peer.
#[derive(Debug, PartialEq, Eq)]
pub struct PeerState {
    pub id: [u8; 20],
    pub bytes_sent: u32,
    pub bytes_received: u32,
    pub bit_vector: BitVector,
    pub flags: PeerFlags,
    pub pending_requests: u32,
}

impl PeerState {
    /// The state of a new session, after an accepted handshake: choked and
    /// choking, nobody interested, no piece known of the remote peer.
    pub fn new(id: [u8; 20], num_pieces: usize, incoming: bool) -> (r: PeerState)
        ensures
            r.id == id,
            r.bit_vector.wf(),
            r.bit_vector@ == Seq::new(num_pieces as nat, |i: int| false),
            r.flags.choked && r.flags.choking,
            !r.flags.interested_in_me && !r.flags.interested_in_them,
            r.flags.incoming == incoming,
            r.bytes_sent == 0 && r.bytes_received == 0 && r.pending_requests == 0,
    {
        PeerState {
            id,
            bytes_sent: 0,
            bytes_received: 0,
            bit_vector: BitVector::new(num_pieces),
            flags: PeerFlags {
                choked: true,
                choking: true,
                interested_in_me: false,
                interested_in_them: false,
                incoming,
            },
            pending_requests: 0,
        }
    }

    /// Checks the remote peer's handshake and creates the session state only
    /// when it is accepted.
    pub fn start_session(received: &[u8], info_hash: &[u8], num_pieces: usize, incoming: bool) -> (r:
        BoostResult<PeerState>)
        ensures
            match r {
                Ok(p) => handshake_accepted(received@, info_hash@) && p.id@ == received@.subrange(
                    48,
                    68,
                ) && p.bit_vector.wf() && p.bit_vector@ == Seq::new(num_pieces as nat, |i: int| false)
                    && p.flags.choked && p.flags.choking && !p.flags.interested_in_me
                    && !p.flags.interested_in_them && p.flags.incoming == incoming,
                Err(e) => e is BitTorrentProtocolErr && !handshake_accepted(received@, info_hash@),
            },
    {
        let id = check_handshake(received, info_hash)?;
        Ok(PeerState::new(id, num_pieces, incoming))
    }

    /// Whether the remote peer connected to this client.
    pub fn is_incoming(&self) -> (r: bool)
        ensures
            r == self.flags.incoming,
    {
        self.flags.incoming
    }

    /// Applies a received message: choke and unchoke set whether this client
    /// is choked, interested and not-interested set whether the remote peer
    /// is interested, `Have` marks a piece, and `Bitfield` replaces the known
    /// pieces, which needs as many bytes as the vector has. Other messages
    /// leave the state as it is. A bit field of another size gives
    /// `BitTorrentProtocolErr` and changes nothing.
    pub fn on_message(&mut self, m: &BitTorrentMessage) -> (r: BoostResult<()>)
        requires
            old(self).bit_vector.wf(),
            crate::message::msg_wf(*m),
        ensures
            final(self).bit_vector.wf(),
            final(self).id == old(self).id,
            final(self).flags.choking == old(self).flags.choking,
            final(self).flags.interested_in_them == old(self).flags.interested_in_them,
            final(self).flags.incoming == old(self).flags.incoming,
            final(self).bit_vector@.len() == old(self).bit_vector@.len(),
            final(self).flags.choked == match *m {
                BitTorrentMessage::Choke => true,
                BitTorrentMessage::Unchoke => false,
                _ => old(self).flags.choked,
            },
            final(self).flags.interested_in_me == match *m {
                BitTorrentMessage::Interested => true,
                BitTorrentMessage::NotInterested => false,
                _ => old(self).flags.interested_in_me,
            },
            match *m {
                BitTorrentMessage::Have(i) => r is Ok && final(self).bit_vector@ == if i
                    < old(self).bit_vector@.len() {
                    old(self).bit_vector@.update(i as int, true)
                } else {
                    old(self).bit_vector@
                },
                BitTorrentMessage::Bitfield(bv) => if bv.bytes().len()
                    == old(self).bit_vector.bytes().len() {
                    r is Ok && final(self).bit_vector@ == Seq::new(
                        old(self).bit_vector@.len(),
                        |i: int| i < bv@.len() && bv@[i],
                    )
                } else {
                    r is Err && r->Err_0 is BitTorrentProtocolErr && final(self).bit_vector@ == old(
                        self,
                    ).bit_vector@
                },
                _ => r is Ok && final(self).bit_vector@ == old(self).bit_vector@,
            },
    {
        match m {
            BitTorrentMessage::Choke => {
                self.flags.choked = true;
            },
            BitTorrentMessage::Unchoke => {
                self.flags.choked = false;
            },
            BitTorrentMessage::Interested => {
                self.flags.interested_in_me = true;
            },
            BitTorrentMessage::NotInterested => {
                self.flags.interested_in_me = false;
            },
            BitTorrentMessage::Have(i) => {
                self.bit_vector.set_index(*i as usize);
                return Ok(());
            },
            BitTorrentMessage::Bitfield(bv) => {
                if bv.byte_len() != self.bit_vector.byte_len() {
                    return Err(BoostError::BitTorrentProtocolErr(text("bit field has the wrong size")));
                }
                self.replace_pieces(bv);
                return Ok(());
            },
            _ => {},
        }
        Ok(())
    }

    fn replace_pieces(&mut self, bv: &BitVector)
        requires
            old(self).bit_vector.wf(),
            bv.wf(),
        ensures
            final(self).bit_vector.wf(),
            final(self).id == old(self).id,
            final(self).flags == old(self).flags,
            final(self).bit_vector@.len() == old(self).bit_vector@.len(),
            final(self).bytes_sent == old(self).bytes_sent,
            final(self).bytes_received == old(self).bytes_received,
            final(self).pending_requests == old(self).pending_requests,
            final(self).bit_vector@ == Seq::new(
                old(self).bit_vector@.len(),
                |i: int| i < bv@.len() && bv@[i],
            ),
    {
        self.bit_vector.clear();
        let n = self.bit_vector.bit_len();
        let mut k: usize = 0;
        assert(self.bit_vector@ =~= Seq::new(n as nat, |i: int| i < k && i < bv@.len() && bv@[i]));
        while k < n
            invariant
                self.bit_vector.wf(),
                k <= n,
                n == self.bit_vector@.len(),
                self.id == old(self).id,
                self.flags == old(self).flags,
                n == old(self).bit_vector@.len(),
                bv.wf(),
                self.bytes_sent == old(self).bytes_sent,
                self.bytes_received == old(self).bytes_received,
                self.pending_requests == old(self).pending_requests,
                self.bit_vector@ == Seq::new(n as nat, |i: int| i < k && i < bv@.len() && bv@[i]),
            decreases n - k,
        {
            if bv.index_isset(k) {
                self.bit_vector.set_index(k);
            }
            k = k + 1;
            assert(self.bit_vector@ =~= Seq::new(
                n as nat,
                |i: int| i < k && i < bv@.len() && bv@[i],
            ));
        }
        assert(self.bit_vector@ =~= Seq::new(
            old(self).bit_vector@.len(),
            |i: int| i < bv@.len() && bv@[i],
        ));
    }
}

} // verus!

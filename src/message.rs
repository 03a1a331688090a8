use vstd::prelude::*;
use crate::bitvector::BitVector;
use crate::error::{text, BoostError, BoostResult};
use crate::wire::{
    be_u32, copy_range, lemma_be_u32_injective, lemma_be_u32_of, push_all, push_u32, read_u32_at,
};

verus! {

/// The messages that peers exchange after the handshake.
#[derive(Debug, PartialEq, Eq)]
pub enum BitTorrentMessage {
    KeepAlive,
    Choke,
    Unchoke,
    Interested,
    NotInterested,
    Have(u32),
    Bitfield(BitVector),
    Request { piece_index: u32, begin: u32, length: u32 },
    Piece { piece_index: u32, begin: u32, block: Vec<u8> },
    Cancel { piece_index: u32, begin: u32, length: u32 },
}

/// The payload of a message: its id byte and then its fields, integers in
/// network byte order. A keep-alive has an empty payload.
pub open spec fn msg_payload(m: BitTorrentMessage) -> Seq<u8> {
    match m {
        BitTorrentMessage::KeepAlive => Seq::empty(),
        BitTorrentMessage::Choke => seq![0u8],
        BitTorrentMessage::Unchoke => seq![1u8],
        BitTorrentMessage::Interested => seq![2u8],
        BitTorrentMessage::NotInterested => seq![3u8],
        BitTorrentMessage::Have(i) => seq![4u8] + be_u32(i),
        BitTorrentMessage::Bitfield(bv) => seq![5u8] + bv.bytes(),
        BitTorrentMessage::Request { piece_index, begin, length } => seq![6u8] + be_u32(piece_index)
            + be_u32(begin) + be_u32(length),
        BitTorrentMessage::Piece { piece_index, begin, block } => seq![7u8] + be_u32(piece_index)
            + be_u32(begin) + block@,
        BitTorrentMessage::Cancel { piece_index, begin, length } => seq![8u8] + be_u32(piece_index)
            + be_u32(begin) + be_u32(length),
    }
}

/// The frame on the wire: the payload's length in four bytes, then the payload.
pub open spec fn msg_frame(m: BitTorrentMessage) -> Seq<u8> {
    be_u32(msg_payload(m).len() as u32) + msg_payload(m)
}

/// The bit vector that a message carries is well formed.
pub open spec fn msg_wf(m: BitTorrentMessage) -> bool {
    match m {
        BitTorrentMessage::Bitfield(bv) => bv.wf(),
        _ => true,
    }
}

/// The payload's length fits the four-byte length prefix.
pub open spec fn msg_fits(m: BitTorrentMessage) -> bool {
    msg_payload(m).len() <= u32::MAX
}

/// A payload that names a known message and has that message's length.
pub open spec fn payload_well_formed(p: Seq<u8>) -> bool {
    p.len() == 0 || {
        let id = p[0];
        if id <= 3 {
            p.len() == 1
        } else if id == 4 {
            p.len() == 5
        } else if id == 5 {
            true
        } else if id == 6 || id == 8 {
            p.len() == 13
        } else if id == 7 {
            p.len() >= 9
        } else {
            false
        }
    }
}

/// Two messages of the same kind with the same fields; bit fields and blocks
/// are compared by their bytes.
pub open spec fn same_message(a: BitTorrentMessage, b: BitTorrentMessage) -> bool {
    match (a, b) {
        (BitTorrentMessage::KeepAlive, BitTorrentMessage::KeepAlive) => true,
        (BitTorrentMessage::Choke, BitTorrentMessage::Choke) => true,
        (BitTorrentMessage::Unchoke, BitTorrentMessage::Unchoke) => true,
        (BitTorrentMessage::Interested, BitTorrentMessage::Interested) => true,
        (BitTorrentMessage::NotInterested, BitTorrentMessage::NotInterested) => true,
        (BitTorrentMessage::Have(x), BitTorrentMessage::Have(y)) => x == y,
        (BitTorrentMessage::Bitfield(x), BitTorrentMessage::Bitfield(y)) => x.bytes() == y.bytes(),
        (
            BitTorrentMessage::Request { piece_index: p1, begin: b1, length: l1 },
            BitTorrentMessage::Request { piece_index: p2, begin: b2, length: l2 },
        ) => p1 == p2 && b1 == b2 && l1 == l2,
        (
            BitTorrentMessage::Piece { piece_index: p1, begin: b1, block: k1 },
            BitTorrentMessage::Piece { piece_index: p2, begin: b2, block: k2 },
        ) => p1 == p2 && b1 == b2 && k1@ == k2@,
        (
            BitTorrentMessage::Cancel { piece_index: p1, begin: b1, length: l1 },
            BitTorrentMessage::Cancel { piece_index: p2, begin: b2, length: l2 },
        ) => p1 == p2 && b1 == b2 && l1 == l2,
        _ => false,
    }
}

proof fn lemma_two_u32(a1: u32, b1: u32, a2: u32, b2: u32, t1: Seq<u8>, t2: Seq<u8>)
    requires
        be_u32(a1) + be_u32(b1) + t1 == be_u32(a2) + be_u32(b2) + t2,
    ensures
        a1 == a2 && b1 == b2 && t1 == t2,
{
    let s1 = be_u32(a1) + be_u32(b1) + t1;
    let s2 = be_u32(a2) + be_u32(b2) + t2;
    assert(be_u32(a1) =~= s1.subrange(0, 4));
    assert(be_u32(a2) =~= s2.subrange(0, 4));
    assert(be_u32(b1) =~= s1.subrange(4, 8));
    assert(be_u32(b2) =~= s2.subrange(4, 8));
    assert(t1 =~= s1.subrange(8, s1.len() as int));
    assert(t2 =~= s2.subrange(8, s2.len() as int));
    lemma_be_u32_injective(a1, a2);
    lemma_be_u32_injective(b1, b2);
}

/// Messages with the same payload are the same message: so a decoder that
/// returns a message whose payload is the input inverts the encoder.
pub proof fn lemma_message_round_trip(m: BitTorrentMessage, d: BitTorrentMessage)
    requires
        msg_payload(d) == msg_payload(m),
    ensures
        same_message(d, m),
{
    let p = msg_payload(m);
    match m {
        BitTorrentMessage::KeepAlive => {},
        _ => {
            assert(p.len() > 0);
            assert(msg_payload(d)[0] == p[0]);
        },
    }
    match (d, m) {
        (BitTorrentMessage::Have(x), BitTorrentMessage::Have(y)) => {
            assert(be_u32(x) =~= msg_payload(d).subrange(1, 5));
            assert(be_u32(y) =~= p.subrange(1, 5));
            lemma_be_u32_injective(x, y);
        },
        (BitTorrentMessage::Bitfield(x), BitTorrentMessage::Bitfield(y)) => {
            assert(x.bytes() =~= msg_payload(d).subrange(1, msg_payload(d).len() as int));
            assert(y.bytes() =~= p.subrange(1, p.len() as int));
        },
        (
            BitTorrentMessage::Request { piece_index: p1, begin: b1, length: l1 },
            BitTorrentMessage::Request { piece_index: p2, begin: b2, length: l2 },
        ) => {
            let s = msg_payload(d).subrange(1, 13);
            assert(s =~= be_u32(p1) + be_u32(b1) + be_u32(l1));
            assert(s =~= be_u32(p2) + be_u32(b2) + be_u32(l2));
            lemma_two_u32(p1, b1, p2, b2, be_u32(l1), be_u32(l2));
            lemma_be_u32_injective(l1, l2);
        },
        (
            BitTorrentMessage::Cancel { piece_index: p1, begin: b1, length: l1 },
            BitTorrentMessage::Cancel { piece_index: p2, begin: b2, length: l2 },
        ) => {
            let s = msg_payload(d).subrange(1, 13);
            assert(s =~= be_u32(p1) + be_u32(b1) + be_u32(l1));
            assert(s =~= be_u32(p2) + be_u32(b2) + be_u32(l2));
            lemma_two_u32(p1, b1, p2, b2, be_u32(l1), be_u32(l2));
            lemma_be_u32_injective(l1, l2);
        },
        (
            BitTorrentMessage::Piece { piece_index: p1, begin: b1, block: k1 },
            BitTorrentMessage::Piece { piece_index: p2, begin: b2, block: k2 },
        ) => {
            let s = msg_payload(d).subrange(1, msg_payload(d).len() as int);
            assert(s =~= be_u32(p1) + be_u32(b1) + k1@);
            assert(s =~= be_u32(p2) + be_u32(b2) + k2@);
            lemma_two_u32(p1, b1, p2, b2, k1@, k2@);
        },
        _ => {},
    }
}

impl BitTorrentMessage {
    /// The frame of this message: length prefix, then payload.
    pub fn encode(&self) -> (r: Vec<u8>)
        requires
            msg_fits(*self),
        ensures
            r@ == msg_frame(*self),
            r@.len() == 4 + msg_payload(*self).len(),
    {
        let payload = self.payload();
        let mut out: Vec<u8> = Vec::new();
        push_u32(&mut out, payload.len() as u32);
        push_all(&mut out, payload.as_slice());
        assert(out@ =~= msg_frame(*self));
        out
    }

    /// The payload of this message: id byte, then fields.
    pub fn payload(&self) -> (r: Vec<u8>)
        ensures
            r@ == msg_payload(*self),
    {
        let mut msg: Vec<u8> = Vec::new();
        match self {
            BitTorrentMessage::KeepAlive => {},
            BitTorrentMessage::Choke => msg.push(0u8),
            BitTorrentMessage::Unchoke => msg.push(1u8),
            BitTorrentMessage::Interested => msg.push(2u8),
            BitTorrentMessage::NotInterested => msg.push(3u8),
            BitTorrentMessage::Have(piece) => {
                msg.push(4u8);
                push_u32(&mut msg, *piece);
            },
            BitTorrentMessage::Bitfield(bitvec) => {
                msg.push(5u8);
                push_all(&mut msg, bitvec.as_bytes());
            },
            BitTorrentMessage::Request { piece_index, begin, length } => {
                msg.push(6u8);
                push_u32(&mut msg, *piece_index);
                push_u32(&mut msg, *begin);
                push_u32(&mut msg, *length);
            },
            BitTorrentMessage::Piece { piece_index, begin, block } => {
                msg.push(7u8);
                push_u32(&mut msg, *piece_index);
                push_u32(&mut msg, *begin);
                push_all(&mut msg, block.as_slice());
            },
            BitTorrentMessage::Cancel { piece_index, begin, length } => {
                msg.push(8u8);
                push_u32(&mut msg, *piece_index);
                push_u32(&mut msg, *begin);
                push_u32(&mut msg, *length);
            },
        }
        assert(msg@ =~= msg_payload(*self));
        msg
    }

    /// The payload length that a frame header announces.
    pub fn frame_len(header: &[u8]) -> (r: u32)
        requires
            header@.len() >= 4,
        ensures
            be_u32(r) == header@.subrange(0, 4),
    {
        let r = read_u32_at(header, 0);
        proof {
            lemma_be_u32_of(header@.subrange(0, 4));
        }
        r
    }

    /// Decodes a payload. Succeeds exactly on well-formed payloads, and then
    /// returns the message whose payload it is; otherwise the error is
    /// `BitTorrentProtocolErr`.
    pub fn decode(payload: &[u8]) -> (r: BoostResult<BitTorrentMessage>)
        requires
            8 * payload@.len() <= usize::MAX,
        ensures
            match r {
                Ok(m) => payload_well_formed(payload@) && msg_payload(m) == payload@ && msg_wf(m),
                Err(e) => !payload_well_formed(payload@) && e is BitTorrentProtocolErr,
            },
    {
        let len = payload.len();
        if len == 0 {
            assert(payload@ =~= Seq::<u8>::empty());
            return Ok(BitTorrentMessage::KeepAlive);
        }
        let id = payload[0];
        let m = if id <= 3 && len == 1 {
            if id == 0 {
                BitTorrentMessage::Choke
            } else if id == 1 {
                BitTorrentMessage::Unchoke
            } else if id == 2 {
                BitTorrentMessage::Interested
            } else {
                BitTorrentMessage::NotInterested
            }
        } else if id == 4 && len == 5 {
            let i = read_u32_at(payload, 1);
            proof {
                lemma_be_u32_of(payload@.subrange(1, 5));
            }
            BitTorrentMessage::Have(i)
        } else if id == 5 {
            let bytes = copy_range(payload, 1, len);
            BitTorrentMessage::Bitfield(BitVector::from_bytes(bytes.as_slice()))
        } else if (id == 6 || id == 8) && len == 13 {
            let piece_index = read_u32_at(payload, 1);
            let begin = read_u32_at(payload, 5);
            let length = read_u32_at(payload, 9);
            proof {
                lemma_be_u32_of(payload@.subrange(1, 5));
                lemma_be_u32_of(payload@.subrange(5, 9));
                lemma_be_u32_of(payload@.subrange(9, 13));
            }
            if id == 6 {
                BitTorrentMessage::Request { piece_index, begin, length }
            } else {
                BitTorrentMessage::Cancel { piece_index, begin, length }
            }
        } else if id == 7 && len >= 9 {
            let piece_index = read_u32_at(payload, 1);
            let begin = read_u32_at(payload, 5);
            proof {
                lemma_be_u32_of(payload@.subrange(1, 5));
                lemma_be_u32_of(payload@.subrange(5, 9));
            }
            let block = copy_range(payload, 9, len);
            BitTorrentMessage::Piece { piece_index, begin, block }
        } else {
            return Err(BoostError::BitTorrentProtocolErr(text("message id or length not recognized")));
        };
        assert(msg_payload(m) =~= payload@);
        Ok(m)
    }
}

} // verus!

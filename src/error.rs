use vstd::prelude::*;
use crate::message::BitTorrentMessage;

verus! {

/// The kinds of failure of the client.
#[derive(Debug, PartialEq, Eq)]
pub enum BoostError {
    FileOpenErr(String),
    FileReadErr(String),
    FileWriteErr(String),
    BencodeDecodingErr,
    BencodeEncodingErr,
    BencodeValueErr(String),
    TrackerURLParseErr,
    TrackerHostResolveErr,
    TrackerUDPSendErr,
    TrackerUDPRecvErr,
    TrackerUDPProtocolErr,
    TrackerHTTPConnectErr,
    TrackerHTTPSendErr,
    TrackerHTTPRecvErr,
    TrackerHTTPProtocolErr,
    TorrentFileMetaErr,
    TorrentFileAllocationErr,
    BitTorrentProtocolErr(String),
    BitTorrentTCPSendErr,
    BitTorrentTCPRecvErr,
    UnexpectedMessageType(BitTorrentMessage),
}

pub type BoostResult<T> = Result<T, BoostError>;

/// A `String` holding the given text.
pub fn text(s: &str) -> (r: String)
    ensures
        r@ == s@,
{
    s.to_owned()
}

} // verus!

use vstd::prelude::*;
use crate::bitvector::BitVector;
use crate::digest::{bytes_equal, sha1_digest, sha1_of};
use crate::message::BitTorrentMessage;

verus! {

/// The size of a block, the unit of requests.
pub const BLOCK_SIZE: u32 = 16384;

/// Requests not answered within this many milliseconds are sent again.
pub const REQUESTS_STALE_AFTER_MILLIS: u64 = 500;

/// The number of blocks in a piece of `size` bytes.
pub open spec fn num_blocks(size: nat) -> nat {
    size / 16384 + if size % 16384 == 0 {
        0nat
    } else {
        1nat
    }
}

/// Where block `k` begins.
pub open spec fn block_begin(k: nat) -> nat {
    k * 16384
}

/// The length of block `k` of a piece of `size` bytes: a full block, or what
/// is left of the piece.
pub open spec fn block_len(size: nat, k: nat) -> nat {
    if size - k * 16384 < 16384 {
        (size - k * 16384) as nat
    } else {
        16384
    }
}

/// More than the staleness delay has passed since `last`.
pub open spec fn is_stale(last: u64, now: u64) -> bool {
    now > last + 500
}

/// The first clear position of `s`, or its length.
pub open spec fn first_unset(s: Seq<bool>) -> nat
    decreases s.len(),
{
    if s.len() == 0 {
        0
    } else if !s[0] {
        0
    } else {
        1 + first_unset(s.drop_first())
    }
}

proof fn lemma_first_unset(s: Seq<bool>, r: int)
    requires
        0 <= r <= s.len(),
        forall|j: int| 0 <= j < r ==> s[j],
        r < s.len() ==> !s[r],
    ensures
        first_unset(s) == r,
    decreases s.len(),
{
    if s.len() > 0 && r > 0 {
        let t = s.drop_first();
        assert forall|j: int| 0 <= j < r - 1 implies t[j] by {
            assert(t[j] == s[j + 1]);
        }
        if r - 1 < t.len() {
            assert(t[r - 1] == s[r]);
        }
        lemma_first_unset(t, r - 1);
    }
}

/// A piece being downloaded: which blocks were requested and obtained, the
/// bytes so far, and the hash they must have.
pub struct Piece {
    index: u32,
    piece_size: u32,
    obtained_blocks: BitVector,
    requested_blocks: BitVector,
    last_updated: u64,
    piece: Vec<u8>,
    hash: [u8; 20],
}

impl Piece {
    pub closed spec fn spec_index(&self) -> u32 {
        self.index
    }

    pub closed spec fn spec_size(&self) -> nat {
        self.piece_size as nat
    }

    /// Which blocks have arrived.
    pub closed spec fn obtained(&self) -> Seq<bool> {
        self.obtained_blocks@
    }

    /// Which blocks have been asked for since the last reset.
    pub closed spec fn requested(&self) -> Seq<bool> {
        self.requested_blocks@
    }

    /// When the piece last changed, in milliseconds of the caller's clock.
    pub closed spec fn spec_last_updated(&self) -> u64 {
        self.last_updated
    }

    /// The piece's bytes so far.
    pub closed spec fn data(&self) -> Seq<u8> {
        self.piece@
    }

    /// The hash the complete piece must have.
    pub closed spec fn expected_hash(&self) -> Seq<u8> {
        self.hash@
    }

    /// The block flags number the piece's blocks, the buffer holds the
    /// piece's bytes, and the size fits in 32 bits.
    pub open spec fn sizes_ok(&self) -> bool {
        &&& self.obtained().len() == num_blocks(self.spec_size())
        &&& self.requested().len() == num_blocks(self.spec_size())
        &&& self.data().len() == self.spec_size()
        &&& self.spec_size() <= u32::MAX
    }

    pub closed spec fn wf(&self) -> bool {
        &&& self.obtained_blocks.wf()
        &&& self.requested_blocks.wf()
        &&& self.obtained_blocks@.len() == num_blocks(self.piece_size as nat)
        &&& self.requested_blocks@.len() == num_blocks(self.piece_size as nat)
        &&& self.piece@.len() == self.piece_size
    }

    /// A new piece with nothing requested or obtained and a zeroed buffer.
    /// `index` is the piece's place in the torrent, `piece_size` its length,
    /// `hash` what it is checked against, `now` the time in milliseconds.
    pub fn new(index: u32, piece_size: u32, hash: [u8; 20], now: u64) -> (r: Piece)
        ensures
            r.wf(),
            r.sizes_ok(),
            r.spec_index() == index,
            r.spec_size() == piece_size,
            r.obtained() == Seq::new(num_blocks(piece_size as nat), |i: int| false),
            r.requested() == Seq::new(num_blocks(piece_size as nat), |i: int| false),
            r.spec_last_updated() == now,
            r.data() == Seq::new(piece_size as nat, |i: int| 0u8),
            r.expected_hash() == hash@,
    {
        let extra: u32 = if piece_size % BLOCK_SIZE == 0 {
            0
        } else {
            1
        };
        let blocks = piece_size / BLOCK_SIZE + extra;
        let mut piece: Vec<u8> = Vec::new();
        let mut k: u32 = 0;
        while k < piece_size
            invariant
                k <= piece_size,
                piece@ == Seq::new(k as nat, |i: int| 0u8),
            decreases piece_size - k,
        {
            piece.push(0u8);
            k = k + 1;
            assert(piece@ =~= Seq::new(k as nat, |i: int| 0u8));
        }
        Piece {
            index,
            piece_size,
            obtained_blocks: BitVector::new(blocks as usize),
            requested_blocks: BitVector::new(blocks as usize),
            last_updated: now,
            piece,
            hash,
        }
    }

    /// Whether every block has arrived.
    pub fn is_complete(&self) -> (r: bool)
        requires
            self.wf(),
        ensures
            r == forall|i: int| 0 <= i < self.obtained().len() ==> self.obtained()[i],
    {
        let r = self.obtained_blocks.is_complete();
        assert(self.obtained() == self.obtained_blocks@);
        r
    }

    /// Whether the bytes have the expected SHA-1 digest.
    pub fn is_correct(&self) -> (r: bool)
        ensures
            r == (sha1_of(self.data()) == self.expected_hash()),
    {
        let digest = sha1_digest(self.piece.as_slice());
        bytes_equal(&digest, &self.hash)
    }

    /// Whether no change has happened for longer than the staleness delay.
    pub fn is_requests_stale(&self, now: u64) -> (r: bool)
        ensures
            r == is_stale(self.spec_last_updated(), now),
    {
        now > self.last_updated && now - self.last_updated > REQUESTS_STALE_AFTER_MILLIS
    }

    /// The request for the next block to fetch, at time `now`.
    ///
    /// Nothing when every block has arrived. Otherwise, when the requests
    /// are stale, the requested set is first reset to the obtained set; then
    /// the first block not requested is requested, and the time recorded.
    /// When every block is already requested, nothing is returned and the
    /// time is kept, so that staleness can come.
    pub fn next_request(&mut self, now: u64) -> (r: Option<BitTorrentMessage>)
        requires
            old(self).wf(),
        ensures
            final(self).wf(),
            final(self).sizes_ok(),
            final(self).spec_index() == old(self).spec_index(),
            final(self).spec_size() == old(self).spec_size(),
            final(self).obtained() == old(self).obtained(),
            final(self).data() == old(self).data(),
            final(self).expected_hash() == old(self).expected_hash(),
            ({
                let size = old(self).spec_size();
                let complete = forall|i: int|
                    0 <= i < old(self).obtained().len() ==> old(self).obtained()[i];
                let base = if is_stale(old(self).spec_last_updated(), now) {
                    old(self).obtained()
                } else {
                    old(self).requested()
                };
                let k = first_unset(base);
                if complete {
                    r is None && final(self).requested() == old(self).requested()
                        && final(self).spec_last_updated() == old(self).spec_last_updated()
                } else if k == base.len() {
                    r is None && final(self).requested() == base
                        && final(self).spec_last_updated() == old(self).spec_last_updated()
                } else {
                    &&& r == Some(
                        BitTorrentMessage::Request {
                            piece_index: old(self).spec_index(),
                            begin: block_begin(k) as u32,
                            length: block_len(size, k) as u32,
                        },
                    )
                    &&& final(self).requested() == base.update(k as int, true)
                    &&& final(self).spec_last_updated() == now
                }
            }),
    {
        if self.is_complete() {
            return None;
        }
        if self.is_requests_stale(now) {
            self.requested_blocks.clear();
            let n = self.requested_blocks.bit_len();
            let mut idx: usize = 0;
            while idx < n
                invariant
                    self.wf(),
                    idx <= n,
                    n == self.requested_blocks@.len(),
                    self.obtained_blocks == old(self).obtained_blocks,
                    self.index == old(self).index,
                    self.piece_size == old(self).piece_size,
                    self.piece == old(self).piece,
                    self.hash == old(self).hash,
                    self.last_updated == old(self).last_updated,
                    self.requested_blocks@ == Seq::new(
                        n as nat,
                        |j: int| j < idx && self.obtained_blocks@[j],
                    ),
                decreases n - idx,
            {
                if self.obtained_blocks.index_isset(idx) {
                    self.requested_blocks.set_index(idx);
                }
                proof {
                    assert(self.requested_blocks@ =~= Seq::new(
                        n as nat,
                        |j: int| j < idx + 1 && self.obtained_blocks@[j],
                    ));
                }
                idx = idx + 1;
            }
            assert(self.requested_blocks@ =~= self.obtained_blocks@);
        }
        let ghost base = self.requested_blocks@;
        let block_idx = self.requested_blocks.first_unset_index();
        proof {
            lemma_first_unset(base, block_idx as int);
        }
        if block_idx >= self.requested_blocks.bit_len() {
            return None;
        }
        let ghost size = self.piece_size as nat;
        let ghost k = block_idx as nat;
        proof {
            assert(k * 16384 < size) by (nonlinear_arith)
                requires
                    k < size / 16384 + if size % 16384 == 0 {
                        0nat
                    } else {
                        1nat
                    },
            ;
        }
        let block_begin = (block_idx as u32) * BLOCK_SIZE;
        let length = if self.piece_size - block_begin < BLOCK_SIZE {
            self.piece_size - block_begin
        } else {
            BLOCK_SIZE
        };
        self.last_updated = now;
        self.requested_blocks.set_index(block_idx);
        Some(BitTorrentMessage::Request { piece_index: self.index, begin: block_begin, length })
    }

    /// Stores a block that arrived at byte `block_offset`, marks its block
    /// obtained, and records the time.
    pub fn add_block(&mut self, block_offset: u32, block: &Vec<u8>, now: u64)
        requires
            old(self).wf(),
            block_offset + block@.len() <= old(self).spec_size(),
        ensures
            final(self).wf(),
            final(self).sizes_ok(),
            final(self).spec_index() == old(self).spec_index(),
            final(self).spec_size() == old(self).spec_size(),
            final(self).requested() == old(self).requested(),
            final(self).expected_hash() == old(self).expected_hash(),
            final(self).spec_last_updated() == now,
            final(self).obtained() == if block_offset / 16384 < old(self).obtained().len() {
                old(self).obtained().update((block_offset / 16384) as int, true)
            } else {
                old(self).obtained()
            },
            final(self).data() == old(self).data().subrange(0, block_offset as int) + block@
                + old(self).data().subrange(block_offset + block@.len(), old(self).spec_size() as int),
    {
        self.last_updated = now;
        self.obtained_blocks.set_index((block_offset / BLOCK_SIZE) as usize);
        let ghost marked = self.obtained_blocks;
        let mut off: usize = block_offset as usize;
        let mut k: usize = 0;
        while k < block.len()
            invariant
                k <= block@.len(),
                off == block_offset + k,
                self.piece@.len() == old(self).piece@.len(),
                block_offset + block@.len() <= self.piece@.len(),
                self.piece@ == old(self).piece@.subrange(0, block_offset as int) + block@.subrange(
                    0,
                    k as int,
                ) + old(self).piece@.subrange(block_offset + k, old(self).piece@.len() as int),
                self.obtained_blocks == marked,
                self.index == old(self).index,
                self.piece_size == old(self).piece_size,
                self.requested_blocks == old(self).requested_blocks,
                self.hash == old(self).hash,
                self.last_updated == now,
            decreases block.len() - k,
        {
            self.piece.set(off, block[k]);
            let plen = self.piece.len();
            assert(off < plen);
            off = off + 1;
            k = k + 1;
            assert(self.piece@ =~= old(self).piece@.subrange(0, block_offset as int)
                + block@.subrange(0, k as int) + old(self).piece@.subrange(
                block_offset + k,
                old(self).piece@.len() as int,
            ));
        }
        assert(block@.subrange(0, k as int) =~= block@);
    }
}

/// The blocks of a piece, taken in index order, cover the piece end to end:
/// each begins where the one before ended, every block but the last is full,
/// and the last ends at the piece's end, with length `size % 16384` when that
/// is not zero and a full block otherwise.
pub proof fn lemma_blocks_partition(size: nat, k: nat)
    requires
        k < num_blocks(size),
    ensures
        0 < block_len(size, k) <= 16384,
        k + 1 < num_blocks(size) ==> block_len(size, k) == 16384 && block_begin(k) + block_len(
            size,
            k,
        ) == block_begin(k + 1),
        k + 1 == num_blocks(size) ==> block_begin(k) + block_len(size, k) == size
            && block_len(size, k) == if size % 16384 != 0 {
            size % 16384
        } else {
            16384
        },
{
    assert(size == (size / 16384) * 16384 + size % 16384 && size % 16384 < 16384)
        by (nonlinear_arith);
    let q = size / 16384;
    let r = size % 16384;
    assert(k * 16384 + 16384 == (k + 1) * 16384) by (nonlinear_arith);
    if k < q {
        assert(k * 16384 + 16384 <= q * 16384) by (nonlinear_arith)
            requires
                k < q,
        ;
    } else {
        assert(k == q);
    }
    if k + 1 < num_blocks(size) {
        assert(k + 1 < q || (k + 1 == q && r != 0) || k + 1 < q + 1);
        assert((k + 1) * 16384 <= q * 16384) by (nonlinear_arith)
            requires
                k + 1 <= q,
        ;
    }
}

/// Without a staleness reset, successive requests take the blocks in order:
/// when blocks `0..k` are requested and no other, block `k` is the first not
/// requested, and requesting it leaves blocks `0..k+1` requested.
pub proof fn lemma_requests_in_order(n: nat, k: nat)
    requires
        k < n,
    ensures
        first_unset(Seq::new(n, |j: int| j < k)) == k,
        Seq::new(n, |j: int| j < k).update(k as int, true) == Seq::new(n, |j: int| j < k + 1),
{
    lemma_first_unset(Seq::new(n, |j: int| j < k), k as int);
    assert(Seq::new(n, |j: int| j < k).update(k as int, true) =~= Seq::new(n, |j: int| j < k + 1));
}

/// The bytes that the first `k` blocks of a piece of `size` bytes cover.
pub open spec fn blocks_cover(size: nat, k: nat) -> nat
    decreases k,
{
    if k == 0 {
        0
    } else {
        blocks_cover(size, (k - 1) as nat) + block_len(size, (k - 1) as nat)
    }
}

/// The first `k` blocks cover `[0, k * 16384)`, and all the blocks together
/// cover exactly `[0, size)`.
pub proof fn lemma_blocks_cover(size: nat, k: nat)
    requires
        k <= num_blocks(size),
    ensures
        k < num_blocks(size) ==> blocks_cover(size, k) == block_begin(k),
        k == num_blocks(size) ==> blocks_cover(size, k) == size,
    decreases k,
{
    if k > 0 {
        lemma_blocks_cover(size, (k - 1) as nat);
        lemma_blocks_partition(size, (k - 1) as nat);
    } else if num_blocks(size) == 0 {
        assert(size == 0) by (nonlinear_arith)
            requires
                size / 16384 + (if size % 16384 == 0 {
                    0nat
                } else {
                    1nat
                }) == 0,
        ;
    }
}

/// Every byte of a piece lies in exactly one block, block `x / 16384`; so
/// the blocks, requested in turn, cover the piece once.
pub proof fn lemma_byte_in_one_block(size: nat, x: nat, k: nat)
    requires
        x < size,
        k < num_blocks(size),
    ensures
        (block_begin(k) <= x < block_begin(k) + block_len(size, k)) <==> k == x / 16384,
{
    assert(x == (x / 16384) * 16384 + x % 16384 && x % 16384 < 16384) by (nonlinear_arith);
    if k == x / 16384 {
        assert(k * 16384 <= x && x < k * 16384 + 16384) by (nonlinear_arith)
            requires
                k == x / 16384,
                x == (x / 16384) * 16384 + x % 16384,
                x % 16384 < 16384,
        ;
    }
    if block_begin(k) <= x && x < block_begin(k) + block_len(size, k) {
        assert(x < k * 16384 + 16384);
        assert(k == x / 16384) by (nonlinear_arith)
            requires
                k * 16384 <= x,
                x < k * 16384 + 16384,
        ;
    }
}

} // verus!

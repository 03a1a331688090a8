use vstd::prelude::*;

verus! {

/// Bit `c` (0 = most significant) of a byte.
pub open spec fn byte_bit(x: u8, c: int) -> bool {
    x & (0x80u8 >> (c as u8)) != 0
}

proof fn lemma_byte_set(x: u8, b: u8, c: u8)
    requires
        b < 8,
        c < 8,
    ensures
        ((x | (0x80u8 >> b)) & (0x80u8 >> c) != 0) == ((x & (0x80u8 >> c) != 0) || b == c),
{
    assert(((x | (0x80u8 >> b)) & (0x80u8 >> c) != 0) == ((x & (0x80u8 >> c) != 0) || b == c))
        by (bit_vector)
        requires
            b < 8,
            c < 8,
    ;
}

proof fn lemma_byte_zero(c: u8)
    requires
        c < 8,
    ensures
        !byte_bit(0u8, c as int),
{
    assert(0u8 & (0x80u8 >> c) == 0) by (bit_vector);
}

proof fn lemma_byte_and(x: u8, y: u8)
    ensures
        (x & y != 0) == exists|c: int| 0 <= c < 8 && byte_bit(x, c) && byte_bit(y, c),
{
    assert((x & y != 0) == ((x & 0x80u8 != 0 && y & 0x80u8 != 0) || (x & 0x40u8 != 0 && y & 0x40u8
        != 0) || (x & 0x20u8 != 0 && y & 0x20u8 != 0) || (x & 0x10u8 != 0 && y & 0x10u8 != 0) || (x
        & 0x08u8 != 0 && y & 0x08u8 != 0) || (x & 0x04u8 != 0 && y & 0x04u8 != 0) || (x & 0x02u8
        != 0 && y & 0x02u8 != 0) || (x & 0x01u8 != 0 && y & 0x01u8 != 0))) by (bit_vector);
    assert(0x80u8 >> 0u8 == 0x80u8 && 0x80u8 >> 1u8 == 0x40u8 && 0x80u8 >> 2u8 == 0x20u8 && 0x80u8
        >> 3u8 == 0x10u8 && 0x80u8 >> 4u8 == 0x08u8 && 0x80u8 >> 5u8 == 0x04u8 && 0x80u8 >> 6u8
        == 0x02u8 && 0x80u8 >> 7u8 == 0x01u8) by (bit_vector);
    if x & y != 0 {
        if x & 0x80u8 != 0 && y & 0x80u8 != 0 {
            assert(byte_bit(x, 0) && byte_bit(y, 0));
        } else if x & 0x40u8 != 0 && y & 0x40u8 != 0 {
            assert(byte_bit(x, 1) && byte_bit(y, 1));
        } else if x & 0x20u8 != 0 && y & 0x20u8 != 0 {
            assert(byte_bit(x, 2) && byte_bit(y, 2));
        } else if x & 0x10u8 != 0 && y & 0x10u8 != 0 {
            assert(byte_bit(x, 3) && byte_bit(y, 3));
        } else if x & 0x08u8 != 0 && y & 0x08u8 != 0 {
            assert(byte_bit(x, 4) && byte_bit(y, 4));
        } else if x & 0x04u8 != 0 && y & 0x04u8 != 0 {
            assert(byte_bit(x, 5) && byte_bit(y, 5));
        } else if x & 0x02u8 != 0 && y & 0x02u8 != 0 {
            assert(byte_bit(x, 6) && byte_bit(y, 6));
        } else {
            assert(byte_bit(x, 7) && byte_bit(y, 7));
        }
    } else {
        assert forall|c: int| 0 <= c < 8 implies !(byte_bit(x, c) && byte_bit(y, c)) by {
            if c == 0 {
            } else if c == 1 {
            } else if c == 2 {
            } else if c == 3 {
            } else if c == 4 {
            } else if c == 5 {
            } else if c == 6 {
            } else {
            }
        }
    }
}

/// A fixed number of bits stored big-endian within each byte: bit `i` is bit
/// `7 - i % 8` of byte `i / 8`, as in the `bitfield` wire message.
#[derive(Debug, PartialEq, Eq)]
pub struct BitVector {
    vec: Vec<u8>,
    num_bits: usize,
}

/// The number of bytes that hold `n` bits.
pub open spec fn bytes_for(n: nat) -> nat {
    n / 8 + if n % 8 == 0 {
        0nat
    } else {
        1nat
    }
}

impl View for BitVector {
    type V = Seq<bool>;

    closed spec fn view(&self) -> Seq<bool> {
        Seq::new(self.num_bits as nat, |i: int| byte_bit(self.vec@[i / 8], i % 8))
    }
}

impl BitVector {
    /// The bytes, as sent in a `bitfield` message.
    pub closed spec fn bytes(&self) -> Seq<u8> {
        self.vec@
    }

    /// The byte count fits the bit count, and the spare bits of the last byte
    /// are clear.
    pub closed spec fn wf(&self) -> bool {
        &&& self.vec@.len() == bytes_for(self.num_bits as nat)
        &&& forall|i: int|
            self.num_bits <= i < 8 * self.vec@.len() ==> !byte_bit(#[trigger] self.vec@[i / 8], i % 8)
    }

    /// A well-formed vector has as many bytes as its bits need.
    pub proof fn lemma_wf_sizes(&self)
        requires
            self.wf(),
        ensures
            self.bytes().len() == bytes_for(self@.len()),
    {
    }

    /// A vector of `num_bits` clear bits.
    pub fn new(num_bits: usize) -> (r: BitVector)
        ensures
            r.wf(),
            r@ == Seq::new(num_bits as nat, |i: int| false),
            r.bytes() == Seq::new(bytes_for(num_bits as nat), |i: int| 0u8),
    {
        let mut bytes = num_bits / 8;
        if num_bits % 8 != 0 {
            bytes = bytes + 1;
        }
        let mut vec: Vec<u8> = Vec::new();
        let mut k: usize = 0;
        while k < bytes
            invariant
                k <= bytes,
                vec@.len() == k,
                forall|j: int| 0 <= j < k ==> vec@[j] == 0u8,
            decreases bytes - k,
        {
            vec.push(0u8);
            k = k + 1;
        }
        let r = BitVector { vec, num_bits };
        proof {
            assert forall|i: int| 0 <= i < 8 * r.vec@.len() implies !byte_bit(
                #[trigger] r.vec@[i / 8],
                i % 8,
            ) by {
                lemma_byte_zero((i % 8) as u8);
            }
            assert(r@ =~= Seq::new(num_bits as nat, |i: int| false));
            assert(r.bytes() =~= Seq::new(bytes_for(num_bits as nat), |i: int| 0u8));
        }
        r
    }

    /// A vector holding exactly the given bytes, with eight bits to each.
    pub fn from_bytes(bytes: &[u8]) -> (r: BitVector)
        requires
            8 * bytes@.len() <= usize::MAX,
        ensures
            r.wf(),
            r.bytes() == bytes@,
            r@.len() == 8 * bytes@.len(),
    {
        let mut vec: Vec<u8> = Vec::new();
        let mut k: usize = 0;
        while k < bytes.len()
            invariant
                k <= bytes@.len(),
                vec@ == bytes@.subrange(0, k as int),
            decreases bytes.len() - k,
        {
            vec.push(bytes[k]);
            k = k + 1;
            assert(vec@ =~= bytes@.subrange(0, k as int));
        }
        assert(vec@ =~= bytes@);
        let r = BitVector { vec, num_bits: 8 * bytes.len() };
        r
    }

    /// Sets bit `index`; an index past the end changes nothing.
    pub fn set_index(&mut self, index: usize)
        requires
            old(self).wf(),
        ensures
            final(self).wf(),
            final(self)@ == if index < old(self)@.len() {
                old(self)@.update(index as int, true)
            } else {
                old(self)@
            },
            final(self).bytes().len() == old(self).bytes().len(),
    {
        if index < self.num_bits {
            let byte = index / 8;
            let bit = index % 8;
            let ghost old_vec = self.vec@;
            let x = self.vec[byte];
            self.vec.set(byte, x | (0x80u8 >> (bit as u8)));
            proof {
                assert forall|i: int| 0 <= i < 8 * self.vec@.len() implies #[trigger] byte_bit(
                    self.vec@[i / 8],
                    i % 8,
                ) == (byte_bit(old_vec[i / 8], i % 8) || i == index) by {
                    if i / 8 == byte {
                        lemma_byte_set(x, bit as u8, (i % 8) as u8);
                    }
                }
                assert(self@ =~= old(self)@.update(index as int, true));
            }
        }
    }

    /// Whether bit `index` is set; false past the end.
    pub fn index_isset(&self, index: usize) -> (r: bool)
        requires
            self.wf(),
        ensures
            r == (index < self@.len() && self@[index as int]),
    {
        if index < self.num_bits {
            let byte = index / 8;
            let bit = index % 8;
            self.vec[byte] & (0x80u8 >> (bit as u8)) != 0
        } else {
            false
        }
    }

    /// Whether every bit is set.
    pub fn is_complete(&self) -> (r: bool)
        requires
            self.wf(),
        ensures
            r == forall|i: int| 0 <= i < self@.len() ==> self@[i],
    {
        let mut index: usize = 0;
        while index < self.num_bits
            invariant
                index <= self.num_bits,
                self.wf(),
                forall|i: int| 0 <= i < index ==> self@[i],
            decreases self.num_bits - index,
        {
            if !self.index_isset(index) {
                return false;
            }
            index = index + 1;
        }
        true
    }

    /// Clears every bit.
    pub fn clear(&mut self)
        requires
            old(self).wf(),
        ensures
            final(self).wf(),
            final(self)@ == Seq::new(old(self)@.len(), |i: int| false),
            final(self).bytes() == Seq::new(old(self).bytes().len(), |i: int| 0u8),
    {
        let mut index: usize = 0;
        while index < self.vec.len()
            invariant
                index <= self.vec@.len(),
                self.vec@.len() == old(self).vec@.len(),
                self.num_bits == old(self).num_bits,
                forall|j: int| 0 <= j < index ==> self.vec@[j] == 0u8,
            decreases self.vec.len() - index,
        {
            self.vec.set(index, 0u8);
            index = index + 1;
        }
        proof {
            assert forall|i: int| 0 <= i < 8 * self.vec@.len() implies !byte_bit(
                #[trigger] self.vec@[i / 8],
                i % 8,
            ) by {
                lemma_byte_zero((i % 8) as u8);
            }
            assert(self@ =~= Seq::new(old(self)@.len(), |i: int| false));
            assert(self.bytes() =~= Seq::new(old(self).bytes().len(), |i: int| 0u8));
        }
    }

    /// Whether both vectors have the same length and a set bit in common.
    pub fn intersects(&self, other: &BitVector) -> (r: bool)
        requires
            self.wf(),
            other.wf(),
        ensures
            r == (self@.len() == other@.len() && exists|i: int|
                0 <= i < self@.len() && self@[i] && other@[i]),
    {
        if self.num_bits == other.num_bits {
            let mut index: usize = 0;
            while index < self.vec.len()
                invariant
                    self.wf(),
                    other.wf(),
                    self.num_bits == other.num_bits,
                    index <= self.vec@.len(),
                    forall|i: int|
                        0 <= i < 8 * index ==> !(#[trigger] byte_bit(self.vec@[i / 8], i % 8)
                            && byte_bit(other.vec@[i / 8], i % 8)),
                decreases self.vec.len() - index,
            {
                let x = self.vec[index];
                let y = other.vec[index];
                proof {
                    lemma_byte_and(x, y);
                }
                if x & y != 0 {
                    proof {
                        let c = choose|c: int| 0 <= c < 8 && byte_bit(x, c) && byte_bit(y, c);
                        let i = 8 * index + c;
                        assert(i / 8 == index && i % 8 == c);
                        if i >= self.num_bits {
                            assert(!byte_bit(self.vec@[i / 8], i % 8));
                        }
                        assert(self@[i] && other@[i]);
                    }
                    return true;
                }
                proof {
                    assert forall|i: int| 0 <= i < 8 * (index + 1) implies !(#[trigger] byte_bit(
                        self.vec@[i / 8],
                        i % 8,
                    ) && byte_bit(other.vec@[i / 8], i % 8)) by {
                        if i >= 8 * index {
                            assert(i / 8 == index);
                        }
                    }
                }
                index = index + 1;
            }
            proof {
                assert forall|i: int| 0 <= i < self@.len() implies !(self@[i] && other@[i]) by {
                    assert(i < 8 * self.vec@.len());
                }
            }
            false
        } else {
            false
        }
    }

    /// The first clear bit, or the length when every bit is set.
    pub fn first_unset_index(&self) -> (r: usize)
        requires
            self.wf(),
        ensures
            r <= self@.len(),
            forall|j: int| 0 <= j < r ==> self@[j],
            r < self@.len() ==> !self@[r as int],
    {
        let mut idx: usize = 0;
        while idx < self.num_bits
            invariant
                idx <= self.num_bits,
                self.wf(),
                forall|j: int| 0 <= j < idx ==> self@[j],
            decreases self.num_bits - idx,
        {
            if !self.index_isset(idx) {
                return idx;
            }
            idx = idx + 1;
        }
        idx
    }

    /// The number of bits.
    pub fn bit_len(&self) -> (r: usize)
        ensures
            r == self@.len(),
    {
        self.num_bits
    }

    /// The number of bytes.
    pub fn byte_len(&self) -> (r: usize)
        ensures
            r == self.bytes().len(),
    {
        self.vec.len()
    }

    /// The bytes, as sent in a `bitfield` message.
    pub fn as_bytes(&self) -> (r: &[u8])
        ensures
            r@ == self.bytes(),
    {
        self.vec.as_slice()
    }
}

/// Setting bit `i` of a clear vector and then testing bit `j` finds it set
/// exactly when `i == j`.
pub proof fn lemma_set_then_test(before: Seq<bool>, after: Seq<bool>, i: int, j: int)
    requires
        forall|k: int| 0 <= k < before.len() ==> !before[k],
        0 <= i < before.len(),
        after == before.update(i, true),
        0 <= j < before.len(),
    ensures
        after[j] <==> i == j,
{
}

/// After `clear`, the first unset bit of a non-empty vector is bit 0.
pub proof fn lemma_clear_first_unset(v: Seq<bool>, r: int)
    requires
        v.len() > 0,
        forall|k: int| 0 <= k < v.len() ==> !v[k],
        0 <= r <= v.len(),
        forall|j: int| 0 <= j < r ==> v[j],
        r < v.len() ==> !v[r],
    ensures
        r == 0,
{
    if r > 0 {
        assert(v[0]);
    }
}

} // verus!

//! Wire-format codec for one datagram: an 8-byte header (sequence, ack,
//! 32-bit ack bitfield, all big-endian) followed by an opaque payload.
use vstd::prelude::*;
use vstd::slice::slice_to_vec;
use vstd::wrapping::u16_specs;

verus! {

#[derive(Debug)]
pub struct Packet {
    pub sequence: u16,
    pub ack: u16,
    pub acks: Vec<u16>,
    pub data: Vec<u8>,
}

impl PartialEq for Packet {
    fn eq(&self, other: &Self) -> (r: bool) {
        if self.sequence != other.sequence || self.ack != other.ack {
            return false;
        }
        if !eq_vec_u16(&self.acks, &other.acks) {
            return false;
        }
        eq_vec_u8(&self.data, &other.data)
    }
}

impl vstd::std_specs::cmp::PartialEqSpecImpl for Packet {
    open spec fn obeys_eq_spec() -> bool {
        true
    }

    open spec fn eq_spec(&self, other: &Packet) -> bool {
        self.sequence == other.sequence && self.ack == other.ack && self.acks@ == other.acks@
            && self.data@ == other.data@
    }
}

fn eq_vec_u16(a: &Vec<u16>, b: &Vec<u16>) -> (r: bool)
    ensures
        r == (a@ == b@),
{
    if a.len() != b.len() {
        return false;
    }
    let mut i: usize = 0;
    while i < a.len()
        invariant
            i <= a@.len(),
            a@.len() == b@.len(),
            forall|j: int| 0 <= j < i ==> a@[j] == b@[j],
        decreases a@.len() - i,
    {
        if a[i] != b[i] {
            return false;
        }
        i = i + 1;
    }
    proof {
        assert(a@ =~= b@);
    }
    true
}

fn eq_vec_u8(a: &Vec<u8>, b: &Vec<u8>) -> (r: bool)
    ensures
        r == (a@ == b@),
{
    if a.len() != b.len() {
        return false;
    }
    let mut i: usize = 0;
    while i < a.len()
        invariant
            i <= a@.len(),
            a@.len() == b@.len(),
            forall|j: int| 0 <= j < i ==> a@[j] == b@[j],
        decreases a@.len() - i,
    {
        if a[i] != b[i] {
            return false;
        }
        i = i + 1;
    }
    proof {
        assert(a@ =~= b@);
    }
    true
}

#[derive(Clone, Copy, Debug, PartialEq, Eq, Structural)]
pub enum ParseError {
    SliceTooShort,
    RecordTruncated,
}

pub open spec fn be_bytes_of_u16(x: u16) -> Seq<u8> {
    seq![((x >> 8) & 0xff) as u8, (x & 0xff) as u8]
}

pub open spec fn u16_of_be_bytes(hi: u8, lo: u8) -> u16 {
    ((hi as u16) << 8) | (lo as u16)
}

pub open spec fn be_bytes_of_u32(x: u32) -> Seq<u8> {
    seq![
        ((x >> 24) & 0xff) as u8,
        ((x >> 16) & 0xff) as u8,
        ((x >> 8) & 0xff) as u8,
        (x & 0xff) as u8,
    ]
}

pub open spec fn u32_of_be_bytes(b0: u8, b1: u8, b2: u8, b3: u8) -> u32 {
    ((b0 as u32) << 24) | ((b1 as u32) << 16) | ((b2 as u32) << 8) | (b3 as u32)
}

/// How far `seq` lies behind `ack`, in wrapping 16-bit distance.
pub open spec fn ack_distance(ack: u16, seq: u16) -> u16 {
    u16_specs::wrapping_sub(ack, seq)
}

/// The single bit that `seq` contributes to the ack bitfield: bit `i` when
/// `seq` lies `i < 32` steps behind `ack`, nothing when it lies further back.
pub open spec fn ack_bit(ack: u16, seq: u16) -> u32 {
    if ack_distance(ack, seq) < 32 {
        1u32 << (ack_distance(ack, seq) as u32)
    } else {
        0u32
    }
}

/// The bitfield that encodes a whole ack list relative to `ack`.
pub open spec fn ack_bits(ack: u16, acks: Seq<u16>) -> u32
    decreases acks.len(),
{
    if acks.len() == 0 {
        0u32
    } else {
        ack_bits(ack, acks.drop_last()) | ack_bit(ack, acks.last())
    }
}

/// The ack values read back from the low `n` bits of a bitfield, in order of
/// increasing distance from `ack`.
pub open spec fn decoded_acks_upto(ack: u16, bits: u32, n: int) -> Seq<u16>
    decreases n,
{
    if n <= 0 {
        Seq::empty()
    } else {
        let i = n - 1;
        decoded_acks_upto(ack, bits, i) + (if bits & (1u32 << (i as u32)) != 0 {
            seq![u16_specs::wrapping_sub(ack, i as u16)]
        } else {
            Seq::empty()
        })
    }
}

pub open spec fn decoded_acks(ack: u16, bits: u32) -> Seq<u16> {
    decoded_acks_upto(ack, bits, 32)
}

/// The bytes of one encoded packet.
pub open spec fn spec_encode(sequence: u16, ack: u16, acks: Seq<u16>, data: Seq<u8>) -> Seq<u8> {
    be_bytes_of_u16(sequence) + be_bytes_of_u16(ack) + be_bytes_of_u32(ack_bits(ack, acks)) + data
}

impl Packet {
    pub fn new(sequence: u16, ack: u16, acks: Vec<u16>, data: Vec<u8>) -> (r: Self)
        ensures
            r.sequence == sequence,
            r.ack == ack,
            r.acks == acks,
            r.data == data,
    {
        Packet { sequence, ack, acks, data }
    }

    pub fn from_slice(slice: &[u8]) -> (r: Result<Self, ParseError>)
        ensures
            slice@.len() < 8 ==> (r matches Err(e) && e == ParseError::SliceTooShort),
            slice@.len() >= 8 ==> (r matches Ok(p)
                && p.sequence == u16_of_be_bytes(slice@[0], slice@[1])
                && p.ack == u16_of_be_bytes(slice@[2], slice@[3])
                && p.acks@ == decoded_acks(
                    p.ack,
                    u32_of_be_bytes(slice@[4], slice@[5], slice@[6], slice@[7]),
                )
                && p.data@ == slice@.skip(8)),
    {
        if slice.len() < 8 {
            return Err(ParseError::SliceTooShort);
        }
        let sequence: u16 = ((slice[0] as u16) << 8) | (slice[1] as u16);
        let ack: u16 = ((slice[2] as u16) << 8) | (slice[3] as u16);

        let bits: u32 = ((slice[4] as u32) << 24) | ((slice[5] as u32) << 16) | ((slice[6]
            as u32) << 8) | (slice[7] as u32);

        let mut acks: Vec<u16> = Vec::new();
        let mut i: u32 = 0;
        while i < 32
            invariant
                i <= 32,
                acks@ == decoded_acks_upto(ack, bits, i as int),
            decreases 32 - i,
        {
            if bits & (1u32 << i) != 0 {
                acks.push(ack.wrapping_sub(i as u16));
            }
            i = i + 1;
        }

        let data = slice_to_vec(&slice[8..slice.len()]);
        assert(data@ =~= slice@.skip(8));

        Ok(Packet { sequence, ack, acks, data })
    }

    pub fn into_vec(self) -> (r: Vec<u8>)
        ensures
            r@ == spec_encode(self.sequence, self.ack, self.acks@, self.data@),
    {
        let mut bits: u32 = 0;
        let mut i: usize = 0;
        while i < self.acks.len()
            invariant
                i <= self.acks@.len(),
                bits == ack_bits(self.ack, self.acks@.take(i as int)),
            decreases self.acks@.len() - i,
        {
            let idx = self.get_bit_index(self.acks[i]);
            if idx < 32 {
                bits = bits | (1u32 << idx);
            } else {
                proof {
                    assert(bits | 0u32 == bits) by (bit_vector);
                }
            }
            proof {
                let taken = self.acks@.take(i + 1);
                assert(taken.drop_last() =~= self.acks@.take(i as int));
                assert(taken.last() == self.acks@[i as int]);
            }
            i = i + 1;
        }
        assert(self.acks@.take(self.acks@.len() as int) =~= self.acks@);

        let Packet { sequence, ack, acks: _, mut data } = self;
        let ghost data_bytes = data@;

        let mut vec: Vec<u8> = Vec::new();

        vec.push(((sequence >> 8) & 0xff) as u8);
        vec.push((sequence & 0xff) as u8);

        vec.push(((ack >> 8) & 0xff) as u8);
        vec.push((ack & 0xff) as u8);

        vec.push(((bits >> 24) & 0xff) as u8);
        vec.push(((bits >> 16) & 0xff) as u8);
        vec.push(((bits >> 8) & 0xff) as u8);
        vec.push((bits & 0xff) as u8);

        vec.append(&mut data);

        assert(vec@ =~= spec_encode(self.sequence, self.ack, self.acks@, data_bytes));
        vec
    }

    /// The bit position that `seq` occupies in this packet's ack bitfield.
    fn get_bit_index(&self, seq: u16) -> (r: u32)
        ensures
            r == ack_distance(self.ack, seq),
    {
        self.ack.wrapping_sub(seq) as u32
    }
}

proof fn bv_zero_bit(i: u32)
    by (bit_vector)
    ensures
        0u32 & (1u32 << i) == 0,
{
}

proof fn bv_or_bit(b1: u32, b2: u32, i: u32)
    by (bit_vector)
    requires
        i < 32,
    ensures
        ((b1 | b2) & (1u32 << i) != 0) == ((b1 & (1u32 << i) != 0) || (b2 & (1u32 << i) != 0)),
{
}

proof fn bv_single_bit(d: u32, i: u32)
    by (bit_vector)
    requires
        d < 32,
        i < 32,
    ensures
        ((1u32 << d) & (1u32 << i) != 0) == (d == i),
{
}

/// Subtracting a wrapping distance back from its base returns the original
/// value: `ack - (ack - s) == s` in wrapping 16-bit arithmetic.
proof fn lemma_ack_distance_inverse(ack: u16, s: u16)
    ensures
        u16_specs::wrapping_sub(ack, ack_distance(ack, s)) == s,
{
}

/// Bit `i` of the encoded bitfield is set exactly when some listed ack lies
/// `i` steps behind the base `ack`.
proof fn lemma_ack_bits_char(ack: u16, acks: Seq<u16>, i: u32)
    requires
        i < 32,
    ensures
        (ack_bits(ack, acks) & (1u32 << i) != 0) <==> (exists|k: int|
            0 <= k < acks.len() && ack_distance(ack, #[trigger] acks[k]) == i),
    decreases acks.len(),
{
    if acks.len() == 0 {
        bv_zero_bit(i);
    } else {
        let prefix = acks.drop_last();
        let last = acks.last();
        let bp = ack_bits(ack, prefix);
        let bl = ack_bit(ack, last);
        lemma_ack_bits_char(ack, prefix, i);
        bv_or_bit(bp, bl, i);
        if ack_distance(ack, last) < 32 {
            bv_single_bit(ack_distance(ack, last) as u32, i);
        } else {
            bv_zero_bit(i);
            assert(bl & (1u32 << i) == 0);
        }
        assert(forall|k: int| 0 <= k < prefix.len() ==> prefix[k] == acks[k]);
        if ack_bits(ack, acks) & (1u32 << i) != 0 {
            if bp & (1u32 << i) != 0 {
                let k = choose|k: int|
                    0 <= k < prefix.len() && ack_distance(ack, #[trigger] prefix[k]) == i;
                assert(acks[k] == prefix[k]);
            } else {
                assert(ack_distance(ack, acks[acks.len() - 1]) == i);
            }
        }
        if exists|k: int| 0 <= k < acks.len() && ack_distance(ack, #[trigger] acks[k]) == i {
            let k = choose|k: int|
                0 <= k < acks.len() && ack_distance(ack, #[trigger] acks[k]) == i;
            if k < acks.len() - 1 {
                assert(prefix[k] == acks[k]);
                assert(bp & (1u32 << i) != 0);
            } else {
                assert(bl & (1u32 << i) != 0);
            }
        }
    }
}

/// A value is among the decoded acks exactly when one of the low `n` bits
/// whose distance points at it is set.
proof fn lemma_decoded_acks_char(ack: u16, bits: u32, n: int, x: u16)
    requires
        0 <= n <= 32,
    ensures
        decoded_acks_upto(ack, bits, n).contains(x) <==> (exists|i: u32|
            i < n && bits & (1u32 << i) != 0 && x == u16_specs::wrapping_sub(ack, i as u16)),
    decreases n,
{
    if n > 0 {
        let i = n - 1;
        let prev = decoded_acks_upto(ack, bits, i);
        let cur = decoded_acks_upto(ack, bits, n);
        lemma_decoded_acks_char(ack, bits, i, x);
        if bits & (1u32 << (i as u32)) != 0 {
            let v = u16_specs::wrapping_sub(ack, i as u16);
            assert(cur == prev + seq![v]);
            assert(cur.len() == prev.len() + 1);
            assert(cur[prev.len() as int] == v);
            assert(forall|j: int| 0 <= j < prev.len() ==> cur[j] == prev[j]);
            if cur.contains(x) {
                let j = choose|j: int| 0 <= j < cur.len() && cur[j] == x;
                if j < prev.len() {
                    assert(prev.contains(x));
                } else {
                    assert(x == v);
                    assert((i as u32) < n && bits & (1u32 << (i as u32)) != 0 && x
                        == u16_specs::wrapping_sub(ack, (i as u32) as u16));
                }
            }
            if exists|k: u32|
                k < n && bits & (1u32 << k) != 0 && x == u16_specs::wrapping_sub(ack, k as u16) {
                let k = choose|k: u32|
                    k < n && bits & (1u32 << k) != 0 && x == u16_specs::wrapping_sub(
                        ack,
                        k as u16,
                    );
                if k < i {
                    assert(prev.contains(x));
                    let j = choose|j: int| 0 <= j < prev.len() && prev[j] == x;
                    assert(cur[j] == x);
                } else {
                    assert(cur[prev.len() as int] == x);
                }
            }
        } else {
            assert(cur =~= prev);
        }
    }
}

/// Codec round trip: for any ack list whose members all lie within 32 of the
/// base `ack`, decoding an encoded packet reproduces the sequence number, the
/// ack, the ack list as a set, and the payload bytes unchanged.
pub proof fn lemma_codec_round_trip(sequence: u16, ack: u16, acks: Seq<u16>, data: Seq<u8>)
    requires
        forall|k: int| 0 <= k < acks.len() ==> ack_distance(ack, #[trigger] acks[k]) < 32,
    ensures
        ({
            let bytes = spec_encode(sequence, ack, acks, data);
            &&& bytes.len() >= 8
            &&& u16_of_be_bytes(bytes[0], bytes[1]) == sequence
            &&& u16_of_be_bytes(bytes[2], bytes[3]) == ack
            &&& decoded_acks(ack, u32_of_be_bytes(bytes[4], bytes[5], bytes[6], bytes[7])).to_set()
                == acks.to_set()
            &&& bytes.skip(8) == data
        }),
{
    broadcast use vstd::set::group_set_axioms;

    let bytes = spec_encode(sequence, ack, acks, data);
    let bits = ack_bits(ack, acks);
    assert(u16_of_be_bytes(((sequence >> 8) & 0xff) as u8, (sequence & 0xff) as u8) == sequence)
        by (bit_vector);
    assert(u16_of_be_bytes(((ack >> 8) & 0xff) as u8, (ack & 0xff) as u8) == ack) by (bit_vector);
    assert(u32_of_be_bytes(
        ((bits >> 24) & 0xff) as u8,
        ((bits >> 16) & 0xff) as u8,
        ((bits >> 8) & 0xff) as u8,
        (bits & 0xff) as u8,
    ) == bits) by (bit_vector);
    assert(bytes.skip(8) =~= data);

    let decoded = decoded_acks(ack, bits);
    assert forall|x: u16| decoded.contains(x) <==> acks.contains(x) by {
        lemma_decoded_acks_char(ack, bits, 32, x);
        if decoded.contains(x) {
            let i = choose|i: u32|
                i < 32 && bits & (1u32 << i) != 0 && x == u16_specs::wrapping_sub(ack, i as u16);
            lemma_ack_bits_char(ack, acks, i);
            let k = choose|k: int|
                0 <= k < acks.len() && ack_distance(ack, #[trigger] acks[k]) == i;
            lemma_ack_distance_inverse(ack, acks[k]);
            assert(acks[k] == x);
        }
        if acks.contains(x) {
            let k = choose|k: int| 0 <= k < acks.len() && acks[k] == x;
            let d = ack_distance(ack, x);
            lemma_ack_bits_char(ack, acks, d as u32);
            assert(bits & (1u32 << (d as u32)) != 0);
            lemma_ack_distance_inverse(ack, x);
            assert(x == u16_specs::wrapping_sub(ack, (d as u32) as u16));
        }
    }
    assert(decoded.to_set() =~= acks.to_set());
}

/// Wraparound ack correctness: encoding the full window
/// `ack, ack-1, ..., ack-31` and decoding it back yields exactly those 32
/// values, in that order, at any base value including near the wraparound
/// boundary.
pub proof fn lemma_full_window_round_trip(ack: u16)
    ensures
        ({
            let window = Seq::new(32, |j: int| u16_specs::wrapping_sub(ack, j as u16));
            decoded_acks(ack, ack_bits(ack, window)) == window
        }),
{
    let window = Seq::new(32, |j: int| u16_specs::wrapping_sub(ack, j as u16));
    let bits = ack_bits(ack, window);
    assert forall|i: u32| i < 32 implies bits & (1u32 << i) != 0 by {
        lemma_ack_bits_char(ack, window, i);
        lemma_ack_distance_inverse(ack, window[i as int]);
        assert(ack_distance(ack, window[i as int]) == i as u16);
    }
    lemma_full_bits_decode(ack, bits, 32);
    assert(decoded_acks_upto(ack, bits, 32) =~= window);
}

/// With every bit of the low `n` set, decoding yields `ack - i` for each
/// `i` below `n`, in order.
proof fn lemma_full_bits_decode(ack: u16, bits: u32, n: int)
    requires
        0 <= n <= 32,
        forall|i: u32| i < 32 ==> bits & (1u32 << i) != 0,
    ensures
        decoded_acks_upto(ack, bits, n) == Seq::new(
            n as nat,
            |j: int| u16_specs::wrapping_sub(ack, j as u16),
        ),
    decreases n,
{
    if n > 0 {
        lemma_full_bits_decode(ack, bits, n - 1);
        assert(bits & (1u32 << ((n - 1) as u32)) != 0);
        assert(decoded_acks_upto(ack, bits, n) =~= Seq::new(
            n as nat,
            |j: int| u16_specs::wrapping_sub(ack, j as u16),
        ));
    } else {
        assert(decoded_acks_upto(ack, bits, 0) =~= Seq::new(
            0,
            |j: int| u16_specs::wrapping_sub(ack, j as u16),
        ));
    }
}

} // verus!

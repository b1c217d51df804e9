//! Byte streams for a USB bit-banging transmitter: runs of levels, bit
//! vectors, bytes and fixed-size USB packets.
use vstd::prelude::*;
use bit_vec::BitVec;
use crate::runs::{rld_spec, repeat};

verus! {

#[verifier::external_type_specification]
#[verifier::external_body]
#[verifier::reject_recursive_types(B)]
pub struct ExBitVec<B>(BitVec<B>);

/// The bits that a `BitVec` holds, first bit first.
pub uninterp spec fn bits_of(v: BitVec) -> Seq<bool>;

/// Bit `j` of byte `b`, counting from the most significant bit (`j == 0`).
pub open spec fn byte_bit(b: u8, j: int) -> bool {
    (b >> ((7 - j) as u8)) & 1u8 == 1u8
}

/// Bytes as bits: each byte gives eight bits, most significant bit first.
pub open spec fn bytes_to_bits(s: Seq<u8>) -> Seq<bool> {
    Seq::new(s.len() * 8, |k: int| byte_bit(s[k / 8], k % 8))
}

/// Bit `k` of a bit sequence, or `false` past its end.
pub open spec fn bit_at(bits: Seq<bool>, k: int) -> bool {
    0 <= k < bits.len() && bits[k]
}

/// The byte whose bits, most significant first, are `b0` to `b7`.
pub open spec fn pack8(b0: bool, b1: bool, b2: bool, b3: bool, b4: bool, b5: bool, b6: bool, b7: bool) -> u8 {
    (if b0 { 0x80u8 } else { 0u8 }) | (if b1 { 0x40u8 } else { 0u8 }) | (if b2 { 0x20u8 } else { 0u8 })
        | (if b3 { 0x10u8 } else { 0u8 }) | (if b4 { 0x08u8 } else { 0u8 }) | (if b5 { 0x04u8 } else {
        0u8
    }) | (if b6 { 0x02u8 } else { 0u8 }) | (if b7 { 0x01u8 } else { 0u8 })
}

/// Byte `i` of a bit sequence: bits `8 * i` to `8 * i + 7`, most significant
/// first, with `false` past the end.
pub open spec fn byte_of_bits(bits: Seq<bool>, i: int) -> u8 {
    pack8(
        bit_at(bits, 8 * i),
        bit_at(bits, 8 * i + 1),
        bit_at(bits, 8 * i + 2),
        bit_at(bits, 8 * i + 3),
        bit_at(bits, 8 * i + 4),
        bit_at(bits, 8 * i + 5),
        bit_at(bits, 8 * i + 6),
        bit_at(bits, 8 * i + 7),
    )
}

/// Bits as bytes: the first bit is the most significant bit of the first
/// byte; a last incomplete byte is filled up with `false` bits.
pub open spec fn bits_to_bytes(bits: Seq<bool>) -> Seq<u8> {
    Seq::new((bits.len() + 7) / 8, |i: int| byte_of_bits(bits, i))
}

proof fn lemma_unpack_pack_byte(b: u8)
    by (bit_vector)
    ensures
        pack8(
            (b >> 7u8) & 1u8 == 1u8,
            (b >> 6u8) & 1u8 == 1u8,
            (b >> 5u8) & 1u8 == 1u8,
            (b >> 4u8) & 1u8 == 1u8,
            (b >> 3u8) & 1u8 == 1u8,
            (b >> 2u8) & 1u8 == 1u8,
            (b >> 1u8) & 1u8 == 1u8,
            (b >> 0u8) & 1u8 == 1u8,
        ) == b,
{
}

proof fn lemma_pack_unpack_byte(b0: bool, b1: bool, b2: bool, b3: bool, b4: bool, b5: bool, b6: bool, b7: bool)
    by (bit_vector)
    ensures
        ({
            let b = pack8(b0, b1, b2, b3, b4, b5, b6, b7);
            &&& ((b >> 7u8) & 1u8 == 1u8) == b0
            &&& ((b >> 6u8) & 1u8 == 1u8) == b1
            &&& ((b >> 5u8) & 1u8 == 1u8) == b2
            &&& ((b >> 4u8) & 1u8 == 1u8) == b3
            &&& ((b >> 3u8) & 1u8 == 1u8) == b4
            &&& ((b >> 2u8) & 1u8 == 1u8) == b5
            &&& ((b >> 1u8) & 1u8 == 1u8) == b6
            &&& ((b >> 0u8) & 1u8 == 1u8) == b7
        }),
{
}

/// Law: packing the bits of some bytes gives the same bytes back.
pub proof fn lemma_bytes_roundtrip(s: Seq<u8>)
    ensures
        bits_to_bytes(bytes_to_bits(s)) == s,
{
    let bits = bytes_to_bits(s);
    assert forall|i: int| 0 <= i < s.len() implies #[trigger] byte_of_bits(bits, i) == s[i] by {
        let b = s[i];
        assert forall|j: int| 0 <= j < 8 implies #[trigger] bit_at(bits, 8 * i + j) == byte_bit(b, j) by {
            assert((8 * i + j) / 8 == i);
            assert((8 * i + j) % 8 == j);
        }
        assert(bit_at(bits, 8 * i + 0) == byte_bit(b, 0));
        assert(bit_at(bits, 8 * i + 1) == byte_bit(b, 1));
        assert(bit_at(bits, 8 * i + 2) == byte_bit(b, 2));
        assert(bit_at(bits, 8 * i + 3) == byte_bit(b, 3));
        assert(bit_at(bits, 8 * i + 4) == byte_bit(b, 4));
        assert(bit_at(bits, 8 * i + 5) == byte_bit(b, 5));
        assert(bit_at(bits, 8 * i + 6) == byte_bit(b, 6));
        assert(bit_at(bits, 8 * i + 7) == byte_bit(b, 7));
        lemma_unpack_pack_byte(b);
    }
    assert(bits_to_bytes(bits) =~= s);
}

/// The `n` bits that fill up the last byte.
pub open spec fn padding(n: nat) -> Seq<bool> {
    Seq::new(n, |_i: int| false)
}

/// Law: the bits of packed bits are the bits themselves, followed by the
/// clear bits that fill up the last byte.
pub proof fn lemma_bits_roundtrip(bits: Seq<bool>)
    ensures
        bytes_to_bits(bits_to_bytes(bits)) == bits + padding(
            (8 * ((bits.len() + 7) / 8) - bits.len()) as nat,
        ),
{
    let bytes = bits_to_bytes(bits);
    let n = bits.len();
    let pad = (8 * ((n + 7) / 8) - n) as nat;
    let rhs = bits + padding(pad);
    assert forall|k: int| 0 <= k < bytes.len() * 8 implies #[trigger] bytes_to_bits(bytes)[k] == rhs[k] by {
        let i = k / 8;
        let j = k % 8;
        assert(k == 8 * i + j);
        let b = byte_of_bits(bits, i);
        lemma_pack_unpack_byte(
            bit_at(bits, 8 * i),
            bit_at(bits, 8 * i + 1),
            bit_at(bits, 8 * i + 2),
            bit_at(bits, 8 * i + 3),
            bit_at(bits, 8 * i + 4),
            bit_at(bits, 8 * i + 5),
            bit_at(bits, 8 * i + 6),
            bit_at(bits, 8 * i + 7),
        );
        assert(byte_bit(b, j) == bit_at(bits, k)) by {
            if j == 0 {} else if j == 1 {} else if j == 2 {} else if j == 3 {}
            else if j == 4 {} else if j == 5 {} else if j == 6 {} else {}
        }
    }
    assert(bytes_to_bits(bytes) =~= rhs);
}

/// `BitVec::from_bytes` from the `bit-vec` crate: each byte becomes eight
/// bits, most significant bit first. It panics when the number of bits
/// overflows `usize`, so that input is left out.
#[verifier::external_body]
fn bitvec_from_bytes(bytes: &[u8]) -> (r: BitVec)
    requires
        bytes@.len() * 8 <= usize::MAX,
    ensures
        bits_of(r) == bytes_to_bits(bytes@),
{
    BitVec::from_bytes(bytes)
}

/// `BitVec::from_fn` from the `bit-vec` crate, with a function that reads
/// the given booleans: the bit vector holds exactly those booleans.
#[verifier::external_body]
fn bitvec_from_bools(bools: &[bool]) -> (r: BitVec)
    ensures
        bits_of(r) == bools@,
{
    BitVec::from_fn(bools.len(), |i| bools[i])
}

/// `BitVec::to_bytes` from the `bit-vec` crate: the first bit becomes the
/// most significant bit of the first byte, and a last incomplete byte is
/// filled up with `false` bits.
#[verifier::external_body]
fn bitvec_to_bytes(v: &BitVec) -> (r: Vec<u8>)
    ensures
        r@ == bits_to_bytes(bits_of(*v)),
{
    v.to_bytes()
}

/// A run of one level: the level `v` held for `ct` samples.
#[derive(Clone, Copy)]
pub struct Run {
    pub v: usize,
    pub ct: usize,
}

/// Runs as value and count pairs.
pub open spec fn runs_view(runs: Seq<Run>) -> Seq<(usize, nat)> {
    runs.map_values(|r: Run| (r.v, r.ct as nat))
}

/// Expands runs into the stream of levels they stand for.
pub fn rld(input: Vec<Run>) -> (out: Vec<usize>)
    ensures
        out@ == rld_spec(runs_view(input@)),
{
    let mut out: Vec<usize> = Vec::new();
    for i in 0..input.len()
        invariant
            out@ == rld_spec(runs_view(input@.take(i as int))),
    {
        let r = input[i];
        proof {
            assert(runs_view(input@.take(i + 1)).drop_last() =~= runs_view(input@.take(i as int)));
        }
        let ghost before = out@;
        for _a in 0..r.ct
            invariant
                out@ == before + repeat(r.v, _a as nat),
        {
            out.push(r.v);
            proof {
                assert(out@ =~= before + repeat(r.v, (_a + 1) as nat));
            }
        }
    }
    assert(input@.take(input.len() as int) =~= input@);
    out
}

/// Reads bytes as a bit vector, most significant bit of each byte first.
#[allow(non_snake_case)]
pub fn B2b(bytes: &[u8]) -> (r: BitVec)
    requires
        bytes@.len() * 8 <= usize::MAX,
    ensures
        bits_of(r) == bytes_to_bits(bytes@),
{
    bitvec_from_bytes(bytes)
}

/// Levels as bits: a level is a set bit exactly when it is `1`.
pub open spec fn levels_to_bits(s: Seq<usize>) -> Seq<bool> {
    s.map_values(|x: usize| x == 1)
}

/// Turns a stream of levels into a bit vector; a level is a set bit exactly
/// when it is `1`.
pub fn v2b(usizes: Vec<usize>) -> (r: BitVec)
    ensures
        bits_of(r) == levels_to_bits(usizes@),
{
    let mut y: Vec<bool> = Vec::new();
    for i in 0..usizes.len()
        invariant
            y@ == levels_to_bits(usizes@.take(i as int)),
    {
        y.push(usizes[i] == 1);
        proof {
            assert(y@ =~= levels_to_bits(usizes@.take(i + 1)));
        }
    }
    assert(usizes@.take(usizes.len() as int) =~= usizes@);
    bitvec_from_bools(y.as_slice())
}

/// Packs a bit vector into bytes, first bit as most significant bit of the
/// first byte, the last byte filled up with clear bits.
#[allow(non_snake_case)]
pub fn b2B(bits: BitVec) -> (r: Vec<u8>)
    ensures
        r@ == bits_to_bytes(bits_of(bits)),
{
    bitvec_to_bytes(&bits)
}

/// Turns runs of levels into a bit vector.
pub fn r2b(runs: Vec<Run>) -> (r: BitVec)
    ensures
        bits_of(r) == levels_to_bits(rld_spec(runs_view(runs@))),
{
    v2b(rld(runs))
}

/// The byte sent for `b`: as it is when `norm` holds, inverted otherwise.
pub open spec fn line_byte(b: u8, norm: bool) -> u8 {
    if norm {
        b
    } else {
        b ^ 255u8
    }
}

/// Copies `x` into the front of the packet `y`, inverting every byte unless
/// `norm` holds; the rest of `y` is left as it was.
pub fn assemble_packet(y: &mut [u8], x: &[u8], norm: bool)
    requires
        x@.len() <= old(y)@.len(),
    ensures
        final(y)@.len() == old(y)@.len(),
        forall|i: int| 0 <= i < x@.len() ==> #[trigger] final(y)@[i] == line_byte(x@[i], norm),
        forall|i: int| x@.len() <= i < old(y)@.len() ==> #[trigger] final(y)@[i] == old(y)@[i],
{
    let n = x.len();
    if norm {
        for i in 0..n
            invariant
                n == x@.len(),
                norm,
                n <= old(y)@.len(),
                y@.len() == old(y)@.len(),
                forall|j: int| 0 <= j < i ==> #[trigger] y@[j] == line_byte(x@[j], norm),
                forall|j: int| i <= j < old(y)@.len() ==> #[trigger] y@[j] == old(y)@[j],
        {
            y[i] = x[i];
        }
    } else {
        for i in 0..n
            invariant
                n == x@.len(),
                !norm,
                n <= old(y)@.len(),
                y@.len() == old(y)@.len(),
                forall|j: int| 0 <= j < i ==> #[trigger] y@[j] == line_byte(x@[j], norm),
                forall|j: int| i <= j < old(y)@.len() ==> #[trigger] y@[j] == old(y)@[j],
        {
            y[i] = x[i] ^ 255u8;
        }
    }
}

/// The size of a USB packet.
pub const PACKET_SIZE: usize = 64;

/// The packet sent while no data comes: the idle level of the line in every
/// byte (all ones for a line that idles high, all zeros for one that idles
/// low), put through `assemble_packet` as data would be.
pub fn idle_packet(default_state: bool) -> (y: [u8; 64])
    ensures
        y@.len() == PACKET_SIZE,
        forall|i: int| 0 <= i < PACKET_SIZE ==> #[trigger] y@[i] == line_byte(
            if default_state { 0xffu8 } else { 0u8 },
            default_state,
        ),
        forall|i: int| 0 <= i < PACKET_SIZE ==> #[trigger] y@[i] == 0xffu8,
{
    let idle: [u8; 64] = if default_state { [0xffu8; 64] } else { [0u8; 64] };
    let mut y: [u8; 64] = [0u8; 64];
    assemble_packet(&mut y, &idle, default_state);
    proof {
        assert(0u8 ^ 255u8 == 0xffu8) by (bit_vector);
    }
    y
}

/// Bytes cut into packets of `PACKET_SIZE` bytes, the last one filled up
/// with zero bytes.
pub open spec fn packets_of(bytes: Seq<u8>) -> Seq<Seq<u8>> {
    Seq::new(
        (bytes.len() + 63) / 64,
        |i: int| Seq::new(64, |j: int| if 64 * i + j < bytes.len() { bytes[64 * i + j] } else { 0u8 }),
    )
}

/// Packs a bit vector into bytes and cuts them into packets of
/// `PACKET_SIZE` bytes, the last one filled up with zero bytes.
pub fn bits_to_packets(bits: BitVec) -> (out: Vec<Vec<u8>>)
    ensures
        out@.len() == packets_of(bits_to_bytes(bits_of(bits))).len(),
        forall|i: int| 0 <= i < out@.len() ==> (#[trigger] out@[i])@ == packets_of(bits_to_bytes(bits_of(bits)))[i],
{
    let bytes = b2B(bits);
    let ghost all = packets_of(bytes@);
    let len = bytes.len();
    let mut out: Vec<Vec<u8>> = Vec::new();
    let mut start: usize = 0;
    while start < len
        invariant
            len == bytes@.len(),
            all == packets_of(bytes@),
            start <= len,
            start == 64 * out@.len() || start == len,
            start < len ==> start == 64 * out@.len(),
            start == len ==> out@.len() == all.len(),
            out@.len() <= all.len(),
            forall|i: int| 0 <= i < out@.len() ==> (#[trigger] out@[i])@ == all[i],
        decreases len - start,
    {
        let chunk = if len - start >= PACKET_SIZE { PACKET_SIZE } else { len - start };
        let end = start + chunk;
        let mut packet: Vec<u8> = Vec::new();
        for j in start..end
            invariant
                start <= end <= len,
                len == bytes@.len(),
                packet@.len() == j - start,
                forall|k: int| 0 <= k < packet@.len() ==> #[trigger] packet@[k] == bytes@[start + k],
        {
            packet.push(bytes[j]);
        }
        while packet.len() < PACKET_SIZE
            invariant
                chunk <= packet@.len() <= 64,
                end == start + chunk,
                forall|k: int| 0 <= k < chunk ==> #[trigger] packet@[k] == bytes@[start + k],
                forall|k: int| chunk <= k < packet@.len() ==> #[trigger] packet@[k] == 0u8,
            decreases 64 - packet@.len(),
        {
            packet.push(0u8);
        }
        proof {
            let i = out@.len() as int;
            assert(start == 64 * i);
            assert(i < all.len());
            assert forall|k: int| 0 <= k < 64 implies #[trigger] packet@[k] == all[i][k] by {
                if k < chunk {
                } else {
                    assert(64 * i + k >= len);
                }
            }
            assert(packet@ =~= all[i]);
        }
        out.push(packet);
        start = end;
    }
    out
}

/// Law: the packets, put end to end, are the bytes followed by the zero
/// bytes that fill up the last packet; every packet has `PACKET_SIZE` bytes.
pub proof fn lemma_packets_concat(bytes: Seq<u8>)
    ensures
        forall|i: int| 0 <= i < packets_of(bytes).len() ==> (#[trigger] packets_of(bytes)[i]).len() == 64,
        forall|k: int| 0 <= k < 64 * packets_of(bytes).len() ==>
            #[trigger] packets_of(bytes)[k / 64][k % 64] == if k < bytes.len() { bytes[k] } else { 0u8 },
        bytes.len() <= 64 * packets_of(bytes).len() < bytes.len() + 64,
{
    assert forall|k: int| 0 <= k < 64 * packets_of(bytes).len() implies
        #[trigger] packets_of(bytes)[k / 64][k % 64] == if k < bytes.len() { bytes[k] } else { 0u8 } by {
        assert(64 * (k / 64) + k % 64 == k);
    }
}

} // verus!

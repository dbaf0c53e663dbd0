//! Variable-byte integer codec and the "double-vbyte" (docgap, tf) codec.
//!
//! A value is encoded as a sequence of 7-bit groups, least significant
//! first; every byte except the last has its most significant bit set.

use std::collections::VecDeque;
use vstd::prelude::*;

verus! {

/// The byte sequence that vbyte-encodes `value`: 7-bit groups,
/// little-endian, continuation bit on every byte but the last.
pub open spec fn vbyte_bytes(value: nat) -> Seq<u8>
    decreases value,
{
    if value < 128 {
        seq![value as u8]
    } else {
        seq![(value % 128 + 128) as u8] + vbyte_bytes(value / 128)
    }
}

/// How many bytes the encoding of `value` takes.
pub open spec fn vbyte_len(value: nat) -> nat
    decreases value,
{
    if value < 128 {
        1
    } else {
        1 + vbyte_len(value / 128)
    }
}

pub proof fn lemma_vbyte_bytes_len(value: nat)
    ensures
        vbyte_bytes(value).len() == vbyte_len(value),
        1 <= vbyte_len(value),
    decreases value,
{
    if value >= 128 {
        lemma_vbyte_bytes_len(value / 128);
    }
}

// Estimates how many bytes we need to encode a value
pub fn vbyte_bytes_required(value: u32) -> (r: usize)
    ensures
        r == vbyte_len(value as nat),
        1 <= r <= 5,
{
    proof {
        lemma_vbyte_len_range(value as nat);
    }
    if value < 0x80 {
        return 1;
    } else if value < 0x4000 {
        return 2;
    } else if value < 0x200000 {
        return 3;
    } else if value < 0x10000000 {
        return 4;
    }
    5
}

/// Encodings are prefix-free: at most one value's encoding starts a
/// given byte sequence.
pub proof fn lemma_vbyte_prefix_unique(v1: nat, v2: nat, s: Seq<u8>)
    requires
        vbyte_bytes(v1).is_prefix_of(s),
        vbyte_bytes(v2).is_prefix_of(s),
    ensures
        v1 == v2,
    decreases v1,
{
    lemma_vbyte_bytes_len(v1);
    lemma_vbyte_bytes_len(v2);
    assert(vbyte_bytes(v1)[0] == s[0]);
    assert(vbyte_bytes(v2)[0] == s[0]);
    if v1 < 128 && v2 < 128 {
        assert(v1 as u8 == v2 as u8);
    } else if v1 < 128 && v2 >= 128 {
        assert(v1 as u8 == (v2 % 128 + 128) as u8);
        assert(false);
    } else if v1 >= 128 && v2 < 128 {
        assert(v2 as u8 == (v1 % 128 + 128) as u8);
        assert(false);
    } else {
        assert((v1 % 128 + 128) as u8 == (v2 % 128 + 128) as u8);
        assert(v1 % 128 == v2 % 128);
        lemma_prefix_parts(seq![(v1 % 128 + 128) as u8], vbyte_bytes(v1 / 128), s);
        lemma_prefix_parts(seq![(v2 % 128 + 128) as u8], vbyte_bytes(v2 / 128), s);
        lemma_vbyte_prefix_unique(v1 / 128, v2 / 128, s.skip(1));
        assert(v1 == 128 * (v1 / 128) + v1 % 128);
        assert(v2 == 128 * (v2 / 128) + v2 % 128);
    }
}

/// A concatenation that starts a sequence splits into a prefix and a
/// prefix of the remainder.
pub proof fn lemma_prefix_parts(a: Seq<u8>, b: Seq<u8>, s: Seq<u8>)
    requires
        (a + b).is_prefix_of(s),
    ensures
        a.is_prefix_of(s),
        b.is_prefix_of(s.skip(a.len() as int)),
{
    assert forall|i: int| 0 <= i < a.len() implies a[i] == s[i] by {
        assert((a + b)[i] == s[i]);
    }
    assert(a =~= s.subrange(0, a.len() as int));
    assert forall|i: int| 0 <= i < b.len() implies b[i] == s.skip(a.len() as int)[i] by {
        assert((a + b)[a.len() + i] == s[a.len() + i]);
    }
    assert(b =~= s.skip(a.len() as int).subrange(0, b.len() as int));
}

/// Some value's encoding starts the sequence.
pub open spec fn has_vbyte_prefix(s: Seq<u8>) -> bool {
    exists|v: nat| v < 0x100000000 && (#[trigger] vbyte_bytes(v)).is_prefix_of(s)
}

/// The unique value whose encoding starts the sequence.
pub open spec fn vbyte_prefix_value(s: Seq<u8>) -> nat {
    choose|v: nat| v < 0x100000000 && (#[trigger] vbyte_bytes(v)).is_prefix_of(s)
}

/// The bytes still to be emitted when `pending` is the low group in
/// hand and `value` is the rest of the number.
spec fn vbyte_tail(pending: u8, value: nat) -> Seq<u8> {
    if value == 0 {
        seq![pending]
    } else {
        seq![(pending + 128) as u8] + vbyte_bytes(value)
    }
}

proof fn lemma_vbyte_tail(v: nat)
    requires
        v < 0x100000000,
    ensures
        vbyte_bytes(v) == vbyte_tail((v % 128) as u8, v / 128),
{
    if v < 128 {
        assert(vbyte_bytes(v) =~= vbyte_tail((v % 128) as u8, v / 128));
    } else {
        assert(vbyte_bytes(v) =~= vbyte_tail((v % 128) as u8, v / 128));
    }
}

proof fn lemma_u8_or_128(b: u8)
    by (bit_vector)
    requires
        b < 128,
    ensures
        b | 0x80 == (b + 128) as u8,
{
}

// Vbyte encodes value into buffer and returns the number of bytes consumed
pub fn vbyte_encode(value: u32, buffer: &mut VecDeque<u8>) -> (written: usize)
    ensures
        final(buffer)@ == old(buffer)@ + vbyte_bytes(value as nat),
        written == vbyte_len(value as nat),
        written <= 5,
{
    proof {
        lemma_vbyte_bytes_len(value as nat);
        lemma_vbyte_tail(value as nat);
    }
    proof {
        lemma_vbyte_len_range(value as nat);
    }
    let ghost v0 = value as nat;
    let mut written: usize = 0;
    let mut write_byte = (value % 128) as u8;
    let mut value = value / 128;
    while value > 0
        invariant
            write_byte < 128,
            value < 0x100000000,
            old(buffer)@ + vbyte_bytes(v0) =~= buffer@ + vbyte_tail(write_byte, value as nat),
            written == buffer@.len() - old(buffer)@.len(),
            written + vbyte_tail(write_byte, value as nat).len() == vbyte_len(v0) <= 5,
        decreases value,
    {
        proof {
            lemma_u8_or_128(write_byte);
            lemma_vbyte_tail(value as nat);
            lemma_vbyte_bytes_len(value as nat);
        }
        write_byte = write_byte | 0x80;
        buffer.push_back(write_byte);
        written += 1;
        write_byte = (value % 128) as u8;
        value = value / 128;
    }
    buffer.push_back(write_byte);
    written += 1;
    proof {
        assert(buffer@ =~= old(buffer)@ + vbyte_bytes(v0));
        lemma_vbyte_bytes_len(v0);
    }
    written
}

spec fn pow128(k: nat) -> nat
    decreases k,
{
    if k == 0 {
        1
    } else {
        128 * pow128((k - 1) as nat)
    }
}

proof fn lemma_pow128_values()
    ensures
        pow128(0) == 1,
        pow128(1) == 0x80,
        pow128(2) == 0x4000,
        pow128(3) == 0x200000,
        pow128(4) == 0x10000000,
{
    assert(pow128(1) == 128 * pow128(0));
    assert(pow128(2) == 128 * pow128(1));
    assert(pow128(3) == 128 * pow128(2));
    assert(pow128(4) == 128 * pow128(3));
}

/// The first byte of an encoding determines whether more bytes follow,
/// and the rest of the encoding is itself an encoding.
proof fn lemma_vbyte_head(vk: nat, s: Seq<u8>)
    requires
        vbyte_bytes(vk).is_prefix_of(s),
    ensures
        s.len() >= 1,
        vk < 128 ==> s[0] == vk as u8,
        vk >= 128 ==> s[0] == (vk % 128 + 128) as u8 && vbyte_bytes(vk / 128).is_prefix_of(
            s.skip(1),
        ),
{
    lemma_vbyte_bytes_len(vk);
    assert(vbyte_bytes(vk)[0] == s[0]);
    if vk >= 128 {
        lemma_prefix_parts(seq![(vk % 128 + 128) as u8], vbyte_bytes(vk / 128), s);
    }
}

pub fn vbyte_decode(buffer: &mut VecDeque<u8>) -> (r: (u32, usize))
    requires
        has_vbyte_prefix(old(buffer)@),
    ensures
        r.0 == vbyte_prefix_value(old(buffer)@),
        r.1 == vbyte_len(r.0 as nat),
        final(buffer)@ == old(buffer)@.skip(r.1 as int),
{
    let ghost v0 = vbyte_prefix_value(old(buffer)@);
    proof {
        lemma_vbyte_bytes_len(v0);
        lemma_vbyte_len_range(v0);
        lemma_pow128_values();
    }
    let mut value: u32 = 0;
    let mut mult: u32 = 1;
    let mut bytes_read: usize = 0;
    let ghost mut vk = v0;
    loop
        invariant
            v0 < 0x100000000,
            v0 == vbyte_prefix_value(old(buffer)@),
            vbyte_bytes(vk).is_prefix_of(buffer@),
            v0 == value + vk * mult,
            value < mult,
            mult == pow128(bytes_read as nat),
            bytes_read + vbyte_len(vk) == vbyte_len(v0) <= 5,
            bytes_read + buffer@.len() == old(buffer)@.len(),
            buffer@ =~= old(buffer)@.skip(bytes_read as int),
        decreases vk,
    {
        proof {
            lemma_vbyte_bytes_len(vk);
            lemma_vbyte_head(vk, buffer@);
            lemma_pow128_values();
        }
        let ghost prev = buffer@;
        let byte = buffer.pop_front().unwrap();
        proof {
            let o = old(buffer)@;
            assert(buffer@ == prev.subrange(1, prev.len() as int));
            assert(prev == o.skip(bytes_read as int));
            assert(prev.len() == o.len() - bytes_read);
            assert(buffer@.len() == o.len() - bytes_read - 1);
            assert forall|i: int| 0 <= i < buffer@.len() implies buffer@[i] == o.skip(
                bytes_read + 1,
            )[i] by {
                assert(buffer@[i] == prev[i + 1]);
                assert(prev[i + 1] == o[bytes_read + i + 1]);
                assert(o.skip(bytes_read + 1)[i] == o[bytes_read + 1 + i]);
            }
            assert(buffer@ =~= o.skip(bytes_read + 1));
        }
        bytes_read += 1;
        if byte & 0x80 == 0 {
            proof {
                lemma_u8_low_bits(byte);
                assert(vk < 128 && byte as nat == vk) by {
                    if vk >= 128 {
                        assert(byte == (vk % 128 + 128) as u8);
                    }
                }
            }
            value = value + (byte as u32) * mult;
            return (value, bytes_read);
        }
        proof {
            lemma_u8_low_bits(byte);
            assert(vk >= 128) by {
                if vk < 128 {
                    assert(prev[0] == vk as u8);
                }
            }
            assert(byte == (vk % 128 + 128) as u8);
            assert((byte & 0x7f) as nat == vk % 128) by {
                assert(byte % 128 == vk % 128);
            }
            // four groups already read would mean a sixth byte; the
            // value bound rules that out
            assert(vbyte_len(vk) >= 2);
            assert(bytes_read <= 4);
            let k = (bytes_read - 1) as nat;
            assert(mult == pow128(k));
            assert(k == 0 || k == 1 || k == 2 || k == 3);
            assert(mult <= 0x200000);
            lemma_decode_step(v0 as nat, vk, value as nat, mult as nat);
        }
        value = value + ((byte & 0x7f) as u32) * mult;
        mult = mult * 128;
        proof {
            vk = vk / 128;
        }
    }
}

proof fn lemma_u8_low_bits(b: u8)
    by (bit_vector)
    ensures
        b & 0x7f == b % 128,
        (b & 0x80 == 0) <==> b < 128,
{
}

/// One step of vbyte decoding: absorbing the low 7-bit group of `vk`
/// into the accumulator keeps the overall value and the bounds.
proof fn lemma_decode_step(v0: nat, vk: nat, value: nat, mult: nat)
    by (nonlinear_arith)
    requires
        v0 == value + vk * mult,
        value < mult,
        vk >= 128,
        mult <= 0x200000,
        v0 < 0x100000000,
    ensures
        v0 == (value + (vk % 128) * mult) + (vk / 128) * (mult * 128),
        value + (vk % 128) * mult < mult * 128,
        vk / 128 < vk,
{
}

pub proof fn lemma_vbyte_len_range(value: nat)
    ensures
        value < 0x80 ==> vbyte_len(value) == 1,
        0x80 <= value < 0x4000 ==> vbyte_len(value) == 2,
        0x4000 <= value < 0x200000 ==> vbyte_len(value) == 3,
        0x200000 <= value < 0x10000000 ==> vbyte_len(value) == 4,
        0x10000000 <= value < 0x100000000 ==> vbyte_len(value) == 5,
{
    let v1 = value / 128;
    let v2 = v1 / 128;
    let v3 = v2 / 128;
    let v4 = v3 / 128;
    assert(vbyte_len(value) == if value < 128 { 1nat } else { 1 + vbyte_len(v1) });
    assert(vbyte_len(v1) == if v1 < 128 { 1nat } else { 1 + vbyte_len(v2) });
    assert(vbyte_len(v2) == if v2 < 128 { 1nat } else { 1 + vbyte_len(v3) });
    assert(vbyte_len(v3) == if v3 < 128 { 1nat } else { 1 + vbyte_len(v4) });
    assert(vbyte_len(v4) == if v4 < 128 { 1nat } else { 1 + vbyte_len(v4 / 128) });
}


/// An encoding followed by anything decodes back to the encoded value,
/// and its length is what `vbyte_bytes_required` predicts.
pub proof fn lemma_vbyte_round_trip(v: u32, rest: Seq<u8>)
    ensures
        has_vbyte_prefix(vbyte_bytes(v as nat) + rest),
        vbyte_prefix_value(vbyte_bytes(v as nat) + rest) == v as nat,
        vbyte_bytes(v as nat).len() == vbyte_len(v as nat),
{
    let s = vbyte_bytes(v as nat) + rest;
    lemma_vbyte_bytes_len(v as nat);
    assert(vbyte_bytes(v as nat) =~= s.subrange(0, vbyte_bytes(v as nat).len() as int));
    assert(vbyte_bytes(v as nat).is_prefix_of(s));
    assert(has_vbyte_prefix(s));
    let w = vbyte_prefix_value(s);
    assert(w < 0x100000000 && vbyte_bytes(w).is_prefix_of(s));
    lemma_vbyte_prefix_unique(w, v as nat, s);
}

pub struct VbyteEncodedBuffer {
    pub buffer: Vec<u8>,
    pub index: usize,
}

impl VbyteEncodedBuffer {
    pub fn new(buffer: Vec<u8>) -> (r: VbyteEncodedBuffer)
        ensures
            r.buffer == buffer,
            r.index == 0,
    {
        VbyteEncodedBuffer { buffer, index: 0 }
    }

    pub fn new_with_capacity(capacity: usize) -> (r: VbyteEncodedBuffer)
        ensures
            r.buffer@ == Seq::<u8>::empty(),
            r.index == 0,
    {
        VbyteEncodedBuffer { buffer: Vec::with_capacity(capacity), index: 0 }
    }

    pub fn tell(&self) -> (r: usize)
        ensures
            r == self.index,
    {
        self.index
    }

    pub fn seek(&mut self, offset: usize)
        ensures
            final(self).index == offset,
            final(self).buffer == old(self).buffer,
    {
        self.index = offset;
    }

    /// Read one vbyte value at the cursor.  When a well-formed encoding
    /// starts there, the value and the advanced cursor are exact.
    pub fn read(&mut self) -> (r: Result<u32, &'static str>)
        ensures
            final(self).buffer == old(self).buffer,
            old(self).index <= old(self).buffer@.len() && has_vbyte_prefix(
                old(self).buffer@.skip(old(self).index as int),
            ) ==> {
                let v = vbyte_prefix_value(old(self).buffer@.skip(old(self).index as int));
                &&& r is Ok
                &&& r->Ok_0 == v
                &&& final(self).index == old(self).index + vbyte_len(v)
            },
            final(self).index >= old(self).index,
    {
        let ghost s = self.buffer@.skip(self.index as int);
        let ghost well_formed = self.index <= self.buffer@.len() && has_vbyte_prefix(s);
        let ghost v0: nat = if well_formed {
            vbyte_prefix_value(s)
        } else {
            0
        };
        proof {
            if well_formed {
                lemma_vbyte_bytes_len(v0);
                lemma_vbyte_len_range(v0);
            }
            lemma_pow128_values();
        }
        let mut value: u32 = 0;
        let mut mult: u32 = 1;
        let mut bytes_read: usize = 0;
        let ghost mut vk = v0;
        loop
            invariant
                self.buffer == old(self).buffer,
                old(self).index + bytes_read == self.index,
                s == old(self).buffer@.skip(old(self).index as int),
                well_formed == (old(self).index <= old(self).buffer@.len()
                    && has_vbyte_prefix(s)),
                well_formed ==> {
                    &&& v0 == vbyte_prefix_value(s)
                    &&& v0 < 0x100000000
                    &&& vbyte_bytes(vk).is_prefix_of(s.skip(bytes_read as int))
                    &&& v0 == value + vk * mult
                    &&& bytes_read + vbyte_len(vk) == vbyte_len(v0) <= 5
                    &&& vbyte_len(v0) <= s.len()
                },
                value < mult,
                mult == pow128(bytes_read as nat),
                bytes_read <= 4,
            decreases 5 - bytes_read,
        {
            proof {
                if well_formed {
                    lemma_vbyte_bytes_len(vk);
                    lemma_vbyte_head(vk, s.skip(bytes_read as int));
                }
                lemma_pow128_values();
            }
            if self.index >= self.buffer.len() {
                proof {
                    if well_formed {
                        assert(s.len() == self.buffer@.len() - old(self).index);
                        assert(bytes_read >= s.len());
                        assert(vbyte_len(vk) >= 1);
                        assert(false);
                    }
                }
                return Result::Err("Attempt to read off end of buffer");
            }
            let byte = self.buffer[self.index];
            proof {
                if well_formed {
                    assert(s.skip(bytes_read as int)[0] == s[bytes_read as int]);
                    assert(s[bytes_read as int] == self.buffer@[old(self).index + bytes_read]);
                }
            }
            self.index += 1;
            bytes_read += 1;
            if byte & 0x80 == 0 {
                proof {
                    lemma_u8_low_bits(byte);
                    if well_formed {
                        assert(vk < 128 && byte as nat == vk) by {
                            if vk >= 128 {
                                assert(s.skip(bytes_read - 1)[0] == (vk % 128 + 128) as u8);
                            }
                        }
                    }
                }
                if bytes_read == 5 && byte >= 16 {
                    // the high group of a 32-bit value holds at most 4 bits
                    proof {
                        if well_formed {
                            assert(mult == 0x10000000);
                            lemma_high_group_small(v0, vk, value as nat, mult as nat);
                            assert(false);
                        }
                    }
                    return Result::Err("vbyte value does not fit in u32");
                }
                proof {
                    let k = (bytes_read - 1) as nat;
                    assert(k == 0 || k == 1 || k == 2 || k == 3 || k == 4);
                    assert(byte < 128);
                    if bytes_read == 5 {
                        assert(mult == 0x10000000);
                    } else {
                        assert(mult <= 0x200000);
                    }
                    lemma_last_group_fits(value, byte, mult);
                }
                value = value + (byte as u32) * mult;
                return Result::Ok(value);
            }
            if bytes_read == 5 {
                // a sixth byte would exceed any 32-bit value
                proof {
                    lemma_u8_low_bits(byte);
                    if well_formed {
                        assert(vk >= 128) by {
                            if vk < 128 {
                                assert(s.skip(bytes_read - 1)[0] == vk as u8);
                            }
                        }
                        assert(vbyte_len(vk) >= 2);
                        assert(false);
                    }
                }
                return Result::Err("vbyte run too long for u32");
            }
            proof {
                lemma_u8_low_bits(byte);
                let k = (bytes_read - 1) as nat;
                assert(k == 0 || k == 1 || k == 2 || k == 3);
                assert(mult <= 0x200000);
                if well_formed {
                    assert(vk >= 128) by {
                        if vk < 128 {
                            assert(s.skip(bytes_read - 1)[0] == vk as u8);
                        }
                    }
                    assert(byte == (vk % 128 + 128) as u8);
                    assert((byte & 0x7f) as nat == vk % 128) by {
                        assert(byte % 128 == vk % 128);
                    }
                    lemma_decode_step(v0 as nat, vk, value as nat, mult as nat);
                }
            }
            proof {
                lemma_mid_group_fits(value, byte & 0x7f, mult);
            }
            value = value + ((byte & 0x7f) as u32) * mult;
            mult = mult * 128;
            proof {
                if well_formed {
                    vk = vk / 128;
                    assert(vbyte_bytes(vk).is_prefix_of(s.skip(bytes_read as int))) by {
                        assert(s.skip(bytes_read - 1).skip(1) =~= s.skip(bytes_read as int));
                    }
                }
            }
        }
    }
}

/// Absorbing a middle 7-bit group stays below the next multiplier.
proof fn lemma_mid_group_fits(value: u32, b7: u8, mult: u32)
    by (nonlinear_arith)
    requires
        value < mult,
        b7 < 128,
        mult <= 0x200000,
    ensures
        value + (b7 as u32) * mult < mult * 128 <= 0x10000000,
{
}

/// Absorbing a final 7-bit group never overflows 32 bits.
proof fn lemma_last_group_fits(value: u32, byte: u8, mult: u32)
    by (nonlinear_arith)
    requires
        value < mult,
        byte < 128,
        mult <= 0x200000 || (byte < 16 && mult == 0x10000000),
    ensures
        value + (byte as u32) * mult < 0x100000000,
{
}

impl VbyteEncodedBuffer {
    /// Place one byte at the cursor, growing the buffer when needed.
    fn put_byte(&mut self, b: u8)
        requires
            old(self).index <= usize::MAX / 2 - 4,
        ensures
            final(self).index == old(self).index + 1,
            old(self).index < final(self).buffer@.len(),
            final(self).buffer@.len() >= old(self).buffer@.len(),
            forall|i: int|
                0 <= i < old(self).index && i < old(self).buffer@.len()
                    ==> final(self).buffer@[i] == old(self).buffer@[i],
            final(self).buffer@[old(self).index as int] == b,
    {
        if self.index >= self.buffer.len() {
            let newlen = self.index * 2 + 1;
            self.buffer.resize(newlen, 0);
        }
        self.buffer[self.index] = b;
        self.index += 1;
    }

    /// Write one vbyte value at the cursor.  Bytes before the cursor
    /// keep their values; the encoding lands at the old cursor.
    pub fn write(&mut self, value: u32) -> (bytes_written: usize)
        requires
            old(self).index <= usize::MAX / 2 - 16,
        ensures
            final(self).index == old(self).index + vbyte_len(value as nat),
            bytes_written == vbyte_len(value as nat),
            bytes_written <= 5,
            final(self).index <= final(self).buffer@.len(),
            final(self).buffer@.len() >= old(self).buffer@.len(),
            forall|i: int|
                0 <= i < old(self).index && i < old(self).buffer@.len()
                    ==> final(self).buffer@[i] == old(self).buffer@[i],
            final(self).buffer@.subrange(old(self).index as int, final(self).index as int)
                == vbyte_bytes(value as nat),
    {
        proof {
            lemma_vbyte_bytes_len(value as nat);
            lemma_vbyte_len_range(value as nat);
            lemma_vbyte_tail(value as nat);
        }
        let ghost v0 = value as nat;
        let ghost i0 = self.index as int;
        let ghost mut emitted: Seq<u8> = Seq::empty();
        let mut write_byte = (value % 128) as u8;
        let mut value = value / 128;
        let mut bytes_written: usize = 0;
        while value > 0
            invariant
                write_byte < 128,
                value < 0x100000000,
                i0 == old(self).index,
                i0 <= usize::MAX / 2 - 16,
                self.index == i0 + bytes_written,
                bytes_written == emitted.len(),
                emitted + vbyte_tail(write_byte, value as nat) =~= vbyte_bytes(v0),
                emitted.len() + vbyte_tail(write_byte, value as nat).len() == vbyte_len(v0)
                    <= 5,
                self.buffer@.len() >= old(self).buffer@.len(),
                forall|i: int|
                    0 <= i < i0 && i < old(self).buffer@.len() ==> self.buffer@[i] == old(
                        self,
                    ).buffer@[i],
                bytes_written > 0 ==> i0 + bytes_written <= self.buffer@.len()
                    && self.buffer@.subrange(i0, i0 + bytes_written) =~= emitted,
            decreases value,
        {
            proof {
                lemma_u8_or_128(write_byte);
                lemma_vbyte_tail(value as nat);
                lemma_vbyte_bytes_len(value as nat);
            }
            let ghost pre = self.buffer@;
            let ghost pre_n = bytes_written as int;
            self.put_byte(write_byte | 0x80);
            bytes_written += 1;
            proof {
                if pre_n > 0 {
                    assert(self.buffer@.subrange(i0, i0 + pre_n) =~= pre.subrange(
                        i0,
                        i0 + pre_n,
                    ));
                }
                assert(self.buffer@.subrange(i0, i0 + pre_n + 1) =~= self.buffer@.subrange(
                    i0,
                    i0 + pre_n,
                ) + seq![(write_byte + 128) as u8]);
                emitted = emitted + seq![(write_byte + 128) as u8];
            }
            write_byte = (value % 128) as u8;
            value = value / 128;
            proof {
                assert(emitted + vbyte_tail(write_byte, value as nat) =~= vbyte_bytes(v0));
            }
        }
        let ghost pre = self.buffer@;
        let ghost pre_n = bytes_written as int;
        self.put_byte(write_byte);
        bytes_written += 1;
        proof {
            if pre_n > 0 {
                assert(self.buffer@.subrange(i0, i0 + pre_n) =~= pre.subrange(i0, i0 + pre_n));
            }
            assert(self.buffer@.subrange(i0, i0 + pre_n + 1) =~= self.buffer@.subrange(
                i0,
                i0 + pre_n,
            ) + seq![write_byte]);
            emitted = emitted + seq![write_byte];
            assert(emitted =~= vbyte_bytes(v0));
            assert(self.buffer@.subrange(i0, i0 + bytes_written) =~= vbyte_bytes(v0));
        }
        bytes_written
    }
}

/// The last 7-bit group of a five-byte encoding of a 32-bit value is
/// below 16.
proof fn lemma_high_group_small(v0: nat, vk: nat, value: nat, mult: nat)
    by (nonlinear_arith)
    requires
        v0 == value + vk * mult,
        v0 < 0x100000000,
        mult == 0x10000000,
    ensures
        vk < 16,
{
}


const MAGIC_F: u32 = 4;

/// The inputs on which the double-vbyte codec is defined: gap and
/// frequency at least one, and the combined first value within 32 bits.
pub open spec fn valid_magic(docgap: nat, freq: nat) -> bool {
    &&& 1 <= docgap
    &&& 1 <= freq < 0x100000000
    &&& (freq < 4 ==> (docgap - 1) * 4 + freq < 0x100000000)
    &&& (freq >= 4 ==> docgap * 4 < 0x100000000)
}

/// The first vbyte value the double-vbyte codec emits.
pub open spec fn magic_first(docgap: nat, freq: nat) -> nat {
    if freq < 4 {
        ((docgap - 1) * 4 + freq) as nat
    } else {
        docgap * 4
    }
}

/// The byte sequence that double-vbyte encodes `(docgap, freq)`.
pub open spec fn magic_bytes(docgap: nat, freq: nat) -> Seq<u8> {
    if freq < 4 {
        vbyte_bytes(magic_first(docgap, freq))
    } else {
        vbyte_bytes(magic_first(docgap, freq)) + vbyte_bytes((freq - 3) as nat)
    }
}

/// How many bytes that encoding takes.
pub open spec fn magic_len(docgap: nat, freq: nat) -> nat {
    if freq < 4 {
        vbyte_len(magic_first(docgap, freq))
    } else {
        vbyte_len(magic_first(docgap, freq)) + vbyte_len((freq - 3) as nat)
    }
}

pub open spec fn has_magic_prefix(s: Seq<u8>) -> bool {
    exists|g: nat, tf: nat|
        valid_magic(g, tf) && (#[trigger] magic_bytes(g, tf)).is_prefix_of(s)
}

pub open spec fn magic_prefix_pair(s: Seq<u8>) -> (nat, nat) {
    choose|g: nat, tf: nat|
        valid_magic(g, tf) && (#[trigger] magic_bytes(g, tf)).is_prefix_of(s)
}

pub proof fn lemma_mod4(g: nat, tf: nat)
    by (nonlinear_arith)
    requires
        tf < 4,
    ensures
        (g * 4 + tf) % 4 == tf,
        (g * 4 + tf) / 4 == g,
        (g * 4) % 4 == 0,
        (g * 4) / 4 == g,
{
}

/// At most one valid pair's encoding starts a given byte sequence.
pub proof fn lemma_magic_prefix_unique(g1: nat, tf1: nat, g2: nat, tf2: nat, s: Seq<u8>)
    requires
        valid_magic(g1, tf1),
        valid_magic(g2, tf2),
        magic_bytes(g1, tf1).is_prefix_of(s),
        magic_bytes(g2, tf2).is_prefix_of(s),
    ensures
        g1 == g2,
        tf1 == tf2,
{
    let v1 = magic_first(g1, tf1);
    let v2 = magic_first(g2, tf2);
    if tf1 >= 4 {
        lemma_prefix_parts(vbyte_bytes(v1), vbyte_bytes((tf1 - 3) as nat), s);
    }
    if tf2 >= 4 {
        lemma_prefix_parts(vbyte_bytes(v2), vbyte_bytes((tf2 - 3) as nat), s);
    }
    assert(vbyte_bytes(v1).is_prefix_of(s));
    assert(vbyte_bytes(v2).is_prefix_of(s));
    lemma_vbyte_prefix_unique(v1, v2, s);
    if tf1 < 4 {
        lemma_mod4((g1 - 1) as nat, tf1);
    } else {
        lemma_mod4(g1, 0);
    }
    if tf2 < 4 {
        lemma_mod4((g2 - 1) as nat, tf2);
    } else {
        lemma_mod4(g2, 0);
    }
    if tf1 < 4 && tf2 < 4 {
        assert(v1 % 4 == tf1 && v2 % 4 == tf2);
        assert(v1 / 4 == g1 - 1 && v2 / 4 == g2 - 1);
    } else if tf1 >= 4 && tf2 >= 4 {
        assert(v1 / 4 == g1 && v2 / 4 == g2);
        lemma_vbyte_bytes_len(v1);
        lemma_vbyte_prefix_unique(
            (tf1 - 3) as nat,
            (tf2 - 3) as nat,
            s.skip(vbyte_bytes(v1).len() as int),
        );
    } else {
        assert(v1 % 4 == if tf1 < 4 { tf1 } else { 0 });
        assert(v2 % 4 == if tf2 < 4 { tf2 } else { 0 });
        assert(false);
    }
}

// This is the "Double-VByte" encoder
pub fn encode_magic(docgap: u32, freq: u32, buffer: &mut VecDeque<u8>) -> (bytes: usize)
    requires
        valid_magic(docgap as nat, freq as nat),
    ensures
        final(buffer)@ == old(buffer)@ + magic_bytes(docgap as nat, freq as nat),
        bytes == magic_len(docgap as nat, freq as nat),
{
    let mut magic_value: u32;
    let mut bytes: usize = 0;
    if freq < MAGIC_F {
        magic_value = (docgap - 1) * MAGIC_F + freq;
        bytes += vbyte_encode(magic_value, buffer);
    } else {
        magic_value = docgap * MAGIC_F;
        bytes += vbyte_encode(magic_value, buffer);
        magic_value = freq - MAGIC_F + 1;
        bytes += vbyte_encode(magic_value, buffer);
        proof {
            assert(buffer@ =~= old(buffer)@ + magic_bytes(docgap as nat, freq as nat));
            lemma_vbyte_bytes_len(magic_first(docgap as nat, freq as nat));
            lemma_vbyte_bytes_len((freq - 3) as nat);
        }
    }
    bytes
}

// This is the "Double-VByte" decoder
pub fn decode_magic(buffer: &mut VecDeque<u8>) -> (r: (u32, u32))
    requires
        has_magic_prefix(old(buffer)@),
    ensures
        ({
            let (g, tf) = magic_prefix_pair(old(buffer)@);
            &&& r.0 == g
            &&& r.1 == tf
            &&& final(buffer)@ == old(buffer)@.skip(magic_len(g, tf) as int)
        }),
{
    let ghost (g0, tf0) = magic_prefix_pair(old(buffer)@);
    let ghost v0 = magic_first(g0, tf0);
    proof {
        assert(valid_magic(g0, tf0) && magic_bytes(g0, tf0).is_prefix_of(old(buffer)@));
        if tf0 >= 4 {
            lemma_prefix_parts(vbyte_bytes(v0), vbyte_bytes((tf0 - 3) as nat), old(buffer)@);
        }
        assert(vbyte_bytes(v0).is_prefix_of(old(buffer)@));
        assert(has_vbyte_prefix(old(buffer)@));
        lemma_vbyte_prefix_unique(vbyte_prefix_value(old(buffer)@), v0, old(buffer)@);
        if tf0 < 4 {
            lemma_mod4((g0 - 1) as nat, tf0);
        } else {
            lemma_mod4(g0, 0);
        }
    }
    let (decoded, _bytes_read) = vbyte_decode(buffer);
    let docgap: u32;
    let mut freq: u32;
    if decoded % MAGIC_F > 0 {
        proof {
            assert(tf0 < 4) by {
                if tf0 >= 4 {
                    assert(decoded % 4 == 0);
                }
            }
        }
        docgap = 1 + decoded / MAGIC_F;
        freq = decoded % MAGIC_F;
    } else {
        proof {
            assert(tf0 >= 4) by {
                if tf0 < 4 {
                    assert(decoded % 4 == tf0);
                }
            }
            lemma_vbyte_bytes_len(v0);
            assert(vbyte_bytes((tf0 - 3) as nat).is_prefix_of(buffer@));
            assert(has_vbyte_prefix(buffer@));
            lemma_vbyte_prefix_unique(vbyte_prefix_value(buffer@), (tf0 - 3) as nat, buffer@);
        }
        docgap = decoded / MAGIC_F;
        let ghost before_second = buffer@;
        let (f2, _bytes2) = vbyte_decode(buffer);
        proof {
            assert(f2 as nat == tf0 - 3);
            lemma_vbyte_bytes_len((tf0 - 3) as nat);
            assert(buffer@ =~= old(buffer)@.skip(magic_len(g0, tf0) as int));
        }
        freq = f2 - 1 + MAGIC_F;
    }
    (docgap, freq)
}

pub fn magic_bytes_required(docgap: u32, freq: u32) -> (bytes: usize)
    requires
        valid_magic(docgap as nat, freq as nat),
    ensures
        bytes == magic_len(docgap as nat, freq as nat),
{
    let mut bytes: usize = 0;
    if freq < MAGIC_F {
        let magic_value = (docgap - 1) * MAGIC_F + freq;
        bytes += vbyte_bytes_required(magic_value);
    } else {
        let mut magic_value = docgap * MAGIC_F;
        bytes += vbyte_bytes_required(magic_value);
        magic_value = freq - MAGIC_F + 1;
        bytes += vbyte_bytes_required(magic_value);
    }
    bytes
}

/// Decoding an encoded (docgap, freq) pair yields that pair back,
/// whatever follows the encoding.
pub proof fn lemma_magic_round_trip(docgap: u32, freq: u32, rest: Seq<u8>)
    requires
        valid_magic(docgap as nat, freq as nat),
    ensures
        has_magic_prefix(magic_bytes(docgap as nat, freq as nat) + rest),
        magic_prefix_pair(magic_bytes(docgap as nat, freq as nat) + rest) == (
            docgap as nat,
            freq as nat,
        ),
{
    let s = magic_bytes(docgap as nat, freq as nat) + rest;
    assert(magic_bytes(docgap as nat, freq as nat) =~= s.subrange(
        0,
        magic_bytes(docgap as nat, freq as nat).len() as int,
    ));
    assert(magic_bytes(docgap as nat, freq as nat).is_prefix_of(s));
    assert(has_magic_prefix(s));
    let (g, tf) = magic_prefix_pair(s);
    assert(valid_magic(g, tf) && magic_bytes(g, tf).is_prefix_of(s));
    lemma_magic_prefix_unique(g, tf, docgap as nat, freq as nat, s);
}


pub struct MagicEncodedBuffer {
    pub buffer: VbyteEncodedBuffer,
    pub last_docid: u32,
}

impl MagicEncodedBuffer {
    pub fn new(buffer: VbyteEncodedBuffer) -> (r: MagicEncodedBuffer)
        ensures
            r.buffer == buffer,
            r.last_docid == 0,
    {
        MagicEncodedBuffer { buffer, last_docid: 0 }
    }

    pub fn new_with_capacity(capacity: usize) -> (r: MagicEncodedBuffer)
        ensures
            r.buffer.buffer@ == Seq::<u8>::empty(),
            r.buffer.index == 0,
            r.last_docid == 0,
    {
        MagicEncodedBuffer { buffer: VbyteEncodedBuffer::new_with_capacity(capacity), last_docid: 0 }
    }

    pub fn from_vec(buffer: Vec<u8>) -> (r: MagicEncodedBuffer)
        ensures
            r.buffer.buffer == buffer,
            r.buffer.index == 0,
            r.last_docid == 0,
    {
        MagicEncodedBuffer { buffer: VbyteEncodedBuffer::new(buffer), last_docid: 0 }
    }

    pub fn tell(&self) -> (r: usize)
        ensures
            r == self.buffer.index,
    {
        self.buffer.index
    }

    /// Move the cursor.  The gap base is left alone, so this suits
    /// only a return to a position with the same decoding state.
    pub fn seek(&mut self, index: usize)
        ensures
            final(self).buffer.index == index,
            final(self).buffer.buffer == old(self).buffer.buffer,
            final(self).last_docid == old(self).last_docid,
    {
        self.buffer.index = index;
    }

    /// Back to the start: cursor at zero and the gap base cleared.
    pub fn reset(&mut self)
        ensures
            final(self).buffer.index == 0,
            final(self).buffer.buffer == old(self).buffer.buffer,
            final(self).last_docid == 0,
    {
        self.seek(0);
        self.last_docid = 0;
    }

    pub fn byte_slice(&self, from: usize, to: usize) -> (r: &[u8])
        requires
            from <= to <= self.buffer.buffer@.len(),
        ensures
            r@ == self.buffer.buffer@.subrange(from as int, to as int),
    {
        vstd::slice::slice_subrange(self.buffer.buffer.as_slice(), from, to)
    }

    pub fn as_slice(&self) -> (r: &[u8])
        ensures
            r@ == self.buffer.buffer@,
    {
        self.buffer.buffer.as_slice()
    }

    pub fn vbyte_read(&mut self) -> (r: Result<u32, &'static str>)
        ensures
            final(self).buffer.buffer == old(self).buffer.buffer,
            final(self).last_docid == old(self).last_docid,
            old(self).buffer.index <= old(self).buffer.buffer@.len() && has_vbyte_prefix(
                old(self).buffer.buffer@.skip(old(self).buffer.index as int),
            ) ==> {
                let v = vbyte_prefix_value(
                    old(self).buffer.buffer@.skip(old(self).buffer.index as int),
                );
                &&& r is Ok
                &&& r->Ok_0 == v
                &&& final(self).buffer.index == old(self).buffer.index + vbyte_len(v)
            },
    {
        self.buffer.read()
    }

    pub fn vbyte_write(&mut self, value: u32) -> (bytes_written: usize)
        requires
            old(self).buffer.index <= usize::MAX / 2 - 16,
        ensures
            final(self).last_docid == old(self).last_docid,
            final(self).buffer.index == old(self).buffer.index + vbyte_len(value as nat),
            bytes_written == vbyte_len(value as nat),
            final(self).buffer.index <= final(self).buffer.buffer@.len(),
            final(self).buffer.buffer@.len() >= old(self).buffer.buffer@.len(),
            forall|i: int|
                0 <= i < old(self).buffer.index && i < old(self).buffer.buffer@.len()
                    ==> final(self).buffer.buffer@[i] == old(self).buffer.buffer@[i],
            final(self).buffer.buffer@.subrange(
                old(self).buffer.index as int,
                final(self).buffer.index as int,
            ) == vbyte_bytes(value as nat),
    {
        self.buffer.write(value)
    }

    /// Read one (docid, freq) pair at the cursor, resolving the gap
    /// against the last docid read.
    pub fn read(&mut self) -> (r: (u32, u32))
        requires
            old(self).buffer.index <= old(self).buffer.buffer@.len(),
            has_magic_prefix(old(self).buffer.buffer@.skip(old(self).buffer.index as int)),
            old(self).last_docid + magic_prefix_pair(
                old(self).buffer.buffer@.skip(old(self).buffer.index as int),
            ).0 <= u32::MAX,
        ensures
            ({
                let (g, tf) = magic_prefix_pair(
                    old(self).buffer.buffer@.skip(old(self).buffer.index as int),
                );
                &&& r.0 == old(self).last_docid + g
                &&& r.1 == tf
                &&& final(self).last_docid == r.0
                &&& final(self).buffer.buffer == old(self).buffer.buffer
                &&& final(self).buffer.index == old(self).buffer.index + magic_len(g, tf)
            }),
    {
        let ghost s = self.buffer.buffer@.skip(self.buffer.index as int);
        let ghost (g0, tf0) = magic_prefix_pair(s);
        let ghost v0 = magic_first(g0, tf0);
        proof {
            assert(valid_magic(g0, tf0) && magic_bytes(g0, tf0).is_prefix_of(s));
            if tf0 >= 4 {
                lemma_prefix_parts(vbyte_bytes(v0), vbyte_bytes((tf0 - 3) as nat), s);
            }
            assert(vbyte_bytes(v0).is_prefix_of(s));
            assert(has_vbyte_prefix(s));
            lemma_vbyte_prefix_unique(vbyte_prefix_value(s), v0, s);
            if tf0 < 4 {
                lemma_mod4((g0 - 1) as nat, tf0);
            } else {
                lemma_mod4(g0, 0);
            }
            lemma_vbyte_bytes_len(v0);
        }
        let decoded = match self.buffer.read() {
            Ok(value) => value,
            Err(_) => { proof { assert(false); } vstd::pervasive::unreached() },
        };
        let gap: u32;
        let mut freq: u32;
        if decoded % MAGIC_F > 0 {
            proof {
                assert(tf0 < 4) by {
                    if tf0 >= 4 {
                        assert(decoded % 4 == 0);
                    }
                }
            }
            gap = 1 + decoded / MAGIC_F;
            freq = decoded % MAGIC_F;
        } else {
            proof {
                assert(tf0 >= 4) by {
                    if tf0 < 4 {
                        assert(decoded % 4 == tf0);
                    }
                }
                let s2 = self.buffer.buffer@.skip(self.buffer.index as int);
                assert(s2 =~= s.skip(vbyte_len(v0) as int));
                assert(vbyte_bytes((tf0 - 3) as nat).is_prefix_of(s2));
                assert(has_vbyte_prefix(s2));
                lemma_vbyte_prefix_unique(vbyte_prefix_value(s2), (tf0 - 3) as nat, s2);
                lemma_vbyte_bytes_len((tf0 - 3) as nat);
            }
            gap = decoded / MAGIC_F;
            freq = match self.buffer.read() {
                Ok(value) => value,
                Err(_) => { proof { assert(false); } vstd::pervasive::unreached() },
            };
            freq = freq - 1 + MAGIC_F;
        }
        self.last_docid = self.last_docid + gap;
        (self.last_docid, freq)
    }

    /// Write one (docid, freq) pair at the cursor, as a gap against the
    /// last docid written.
    pub fn write(&mut self, docid: u32, freq: u32) -> (bytes_written: usize)
        requires
            old(self).buffer.index <= usize::MAX / 2 - 32,
            docid > old(self).last_docid,
            valid_magic((docid - old(self).last_docid) as nat, freq as nat),
        ensures
            ({
                let g = (docid - old(self).last_docid) as nat;
                &&& bytes_written == magic_len(g, freq as nat)
                &&& final(self).last_docid == docid
                &&& final(self).buffer.index == old(self).buffer.index + magic_len(
                    g,
                    freq as nat,
                )
                &&& final(self).buffer.index <= final(self).buffer.buffer@.len()
                &&& final(self).buffer.buffer@.len() >= old(self).buffer.buffer@.len()
                &&& forall|i: int|
                    0 <= i < old(self).buffer.index && i < old(self).buffer.buffer@.len()
                        ==> final(self).buffer.buffer@[i] == old(self).buffer.buffer@[i]
                &&& final(self).buffer.buffer@.subrange(
                    old(self).buffer.index as int,
                    final(self).buffer.index as int,
                ) == magic_bytes(g, freq as nat)
            }),
    {
        let mut magic_value: u32;
        let docgap = docid - self.last_docid;
        self.last_docid = docid;
        let mut bytes_written: usize = 0;
        let ghost i0 = self.buffer.index as int;
        if freq < MAGIC_F {
            magic_value = (docgap - 1) * MAGIC_F + freq;
            bytes_written += self.buffer.write(magic_value);
        } else {
            magic_value = docgap * MAGIC_F;
            bytes_written += self.buffer.write(magic_value);
            let ghost mid = self.buffer.index as int;
            let ghost pre = self.buffer.buffer@;
            magic_value = freq - MAGIC_F + 1;
            bytes_written += self.buffer.write(magic_value);
            proof {
                lemma_vbyte_bytes_len((docgap * 4) as nat);
                lemma_vbyte_bytes_len((freq - 3) as nat);
                assert(self.buffer.buffer@.subrange(i0, mid) =~= pre.subrange(i0, mid));
                assert(self.buffer.buffer@.subrange(i0, self.buffer.index as int)
                    =~= self.buffer.buffer@.subrange(i0, mid) + self.buffer.buffer@.subrange(
                    mid,
                    self.buffer.index as int,
                ));
            }
        }
        bytes_written
    }
}


/// The encoded pair really is `magic_len` bytes, and at most ten.
pub proof fn lemma_magic_bytes_len(docgap: nat, freq: nat)
    requires
        valid_magic(docgap, freq),
    ensures
        magic_bytes(docgap, freq).len() == magic_len(docgap, freq),
        magic_len(docgap, freq) <= 10,
{
    lemma_vbyte_bytes_len(magic_first(docgap, freq));
    lemma_vbyte_len_range(magic_first(docgap, freq));
    if freq >= 4 {
        lemma_vbyte_bytes_len((freq - 3) as nat);
        lemma_vbyte_len_range((freq - 3) as nat);
    }
}

} // verus!





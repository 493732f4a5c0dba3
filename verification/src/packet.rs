use vstd::prelude::*;
use crate::cursor::{ByteCursor, ByteOrder, le_u32, le_u64, read_bytes, take_bytes, read_u32, read_u64};
use crate::error::FormatError;

verus! {

/// A CPK packet: a 16-byte little-endian header followed by its payload,
/// which is obfuscated when the mode word is zero.
#[derive(Debug, Clone, PartialEq, Eq)]
pub struct Packet {
    pub magic: u32,
    pub packet_mode: u32,
    pub packet_size: u64,
    pub packet_data: Vec<u8>,
}

/// The multiplier of the payload key stream.
pub open spec fn key_step() -> u32 {
    0x4115
}

/// The `i`-th key word of the payload obfuscation: 0x655F, multiplied by
/// 0x4115 (modulo 2^32) once per byte.
pub open spec fn key_at(i: nat) -> u32
    decreases i,
{
    if i == 0 {
        0x655F
    } else {
        key_at((i - 1) as nat).wrapping_mul(key_step())
    }
}

/// The payload after the key stream is applied: each byte is combined by
/// exclusive or with the low byte of its key word.
pub open spec fn apply_key_stream(s: Seq<u8>) -> Seq<u8> {
    Seq::new(s.len(), |i: int| s[i] ^ ((key_at(i as nat) & 0xFF) as u8))
}

/// Whether a packet with this header fits at `p` in `b`.
pub open spec fn packet_fits(b: Seq<u8>, p: int) -> bool {
    &&& p + 16 <= b.len()
    &&& p + 16 + le_u64(b, p + 8) <= b.len()
}

impl Packet {
    /// Reads a packet header and its payload.
    pub fn build(file: &mut ByteCursor) -> (r: Result<Self, FormatError>)
        ensures
            final(file).data@ == old(file).data@,
            ({
                let b = old(file).data@;
                let p = old(file).pos as int;
                match r {
                    Ok(pk) => packet_fits(b, p)
                        && pk.magic == le_u32(b, p)
                        && pk.packet_mode == le_u32(b, p + 4)
                        && pk.packet_size == le_u64(b, p + 8)
                        && pk.packet_data@ == take_bytes(b, p + 16, pk.packet_size as int)
                        && final(file).pos == p + 16 + pk.packet_size,
                    Err(e) => !packet_fits(b, p) && e == FormatError::UnexpectedEof,
                }
            }),
    {
        if file.remaining() < 16 {
            return Err(FormatError::UnexpectedEof);
        }
        let magic = read_u32(file, ByteOrder::Little);
        let packet_mode = read_u32(file, ByteOrder::Little);
        let packet_size = read_u64(file, ByteOrder::Little);
        if file.remaining() < packet_size {
            return Err(FormatError::UnexpectedEof);
        }
        let packet_data = read_bytes(file, packet_size);
        Ok(Packet { magic, packet_mode, packet_size, packet_data })
    }

    /// Removes the obfuscation of the payload when the mode word is zero;
    /// otherwise leaves the packet as it is.
    pub fn decrypt(&mut self)
        ensures
            final(self).magic == old(self).magic,
            final(self).packet_mode == old(self).packet_mode,
            final(self).packet_size == old(self).packet_size,
            old(self).packet_mode == 0 ==> final(self).packet_data@ == apply_key_stream(
                old(self).packet_data@,
            ),
            old(self).packet_mode != 0 ==> final(self).packet_data@ == old(self).packet_data@,
    {
        let mut m: u32 = 0x655F;
        let t: u32 = 0x4115;
        if self.packet_mode == 0 {
            let n = self.packet_data.len();
            let mut i: usize = 0;
            while i < n
                invariant
                    0 <= i <= n,
                    n == self.packet_data@.len(),
                    n == old(self).packet_data@.len(),
                    m == key_at(i as nat),
                    t == key_step(),
                    self.magic == old(self).magic,
                    self.packet_mode == old(self).packet_mode,
                    self.packet_size == old(self).packet_size,
                    forall|k: int|
                        0 <= k < i ==> self.packet_data@[k] == apply_key_stream(
                            old(self).packet_data@,
                        )[k],
                    forall|k: int| i <= k < n ==> self.packet_data@[k] == old(self).packet_data@[k],
                decreases n - i,
            {
                let byte = self.packet_data[i];
                self.packet_data.set(i, byte ^ ((m & 0xFF) as u8));
                m = m.wrapping_mul(t);
                i = i + 1;
            }
            assert(self.packet_data@ =~= apply_key_stream(old(self).packet_data@));
        }
    }
}

/// Applying the key stream twice gives back the bytes it started from: the payload
/// obfuscation is its own inverse.
pub proof fn lemma_key_stream_involution(s: Seq<u8>)
    ensures
        apply_key_stream(apply_key_stream(s)) == s,
{
    assert forall|i: int| 0 <= i < s.len() implies #[trigger] apply_key_stream(
        apply_key_stream(s),
    )[i] == s[i] by {
        let x = s[i];
        let k = (key_at(i as nat) & 0xFF) as u8;
        assert((x ^ k) ^ k == x) by (bit_vector);
    }
    assert(apply_key_stream(apply_key_stream(s)) =~= s);
}

/// Decrypting a packet twice leaves it as it was, whatever its mode.
pub proof fn lemma_decrypt_twice_restores(before: Packet, once: Packet, twice: Packet)
    requires
        once.packet_mode == before.packet_mode,
        twice.packet_mode == once.packet_mode,
        before.packet_mode == 0 ==> once.packet_data@ == apply_key_stream(before.packet_data@),
        before.packet_mode != 0 ==> once.packet_data@ == before.packet_data@,
        once.packet_mode == 0 ==> twice.packet_data@ == apply_key_stream(once.packet_data@),
        once.packet_mode != 0 ==> twice.packet_data@ == once.packet_data@,
    ensures
        twice.packet_data@ == before.packet_data@,
{
    lemma_key_stream_involution(before.packet_data@);
}

} // verus!

//! GP2 JAM cipher: a symmetric streaming XOR with key `0xB082F165` that is
//! multiplied by 5 (mod 2^32) after every little-endian dword. Trailing bytes
//! use the low bytes of the next key. Applying it twice is the identity.

use vstd::prelude::*;

verus! {

/// The initial JAM key (`0xB082F164 | 1`).
pub open spec fn jam_key0() -> u32 {
    0xB082_F165u32
}

/// Key used for dword `i` of the stream: `0xB082F165 * 5^i (mod 2^32)`.
pub open spec fn jam_key(i: nat) -> u32
    decreases i,
{
    if i == 0 {
        jam_key0()
    } else {
        ((jam_key((i - 1) as nat) as nat * 5) % 0x1_0000_0000) as u32
    }
}

/// Byte `b` (0 = least significant) of a little-endian dword.
pub open spec fn le_byte(k: u32, b: nat) -> u8 {
    ((k >> (8 * b) as u32) & 0xff) as u8
}

/// Keystream byte XORed into position `p` of any buffer.
pub open spec fn jam_stream(p: nat) -> u8 {
    le_byte(jam_key(p / 4), p % 4)
}

/// The cipher applied to a whole byte sequence.
pub open spec fn jam_apply(a: Seq<u8>) -> Seq<u8> {
    Seq::new(a.len(), |p: int| a[p] ^ jam_stream(p as nat))
}

proof fn lemma_xor_twice(a: u8, k: u8)
    ensures
        (a ^ k) ^ k == a,
{
    assert((a ^ k) ^ k == a) by (bit_vector);
}

/// The cipher is an involution: encrypting twice gives the input back.
pub proof fn lemma_jam_involution(a: Seq<u8>)
    ensures
        jam_apply(jam_apply(a)) == a,
{
    assert forall|p: int| 0 <= p < a.len() implies #[trigger] jam_apply(jam_apply(a))[p] == a[p] by {
        lemma_xor_twice(a[p], jam_stream(p as nat));
    }
    assert(jam_apply(jam_apply(a)) =~= a);
}

/// Decrypt/encrypt `buf` in place (the operation is its own inverse).
pub fn jam_xor(buf: &mut [u8])
    ensures
        final(buf)@ == jam_apply(old(buf)@),
{
    let ghost orig = buf@;
    let len = buf.len();
    let mut key: u32 = 0xB082_F164u32 | 1;
    assert(key == jam_key0()) by (bit_vector)
        requires key == (0xB082_F164u32 | 1u32);
    let n = len / 4;
    let mut i: usize = 0;
    while i < n
        invariant
            n == len / 4,
            i <= n,
            buf@.len() == len,
            orig.len() == len,
            key == jam_key(i as nat),
            forall|p: int| 0 <= p < 4 * i ==> buf@[p] == orig[p] ^ jam_stream(p as nat),
            forall|p: int| 4 * i <= p < len ==> buf@[p] == orig[p],
        decreases n - i,
    {
        let o = i * 4;
        buf[o] = buf[o] ^ ((key & 0xff) as u8);
        buf[o + 1] = buf[o + 1] ^ (((key >> 8u32) & 0xff) as u8);
        buf[o + 2] = buf[o + 2] ^ (((key >> 16u32) & 0xff) as u8);
        buf[o + 3] = buf[o + 3] ^ (((key >> 24u32) & 0xff) as u8);
        proof {
            assert forall|p: int| 4 * i <= p < 4 * i + 4 implies buf@[p] == orig[p] ^ jam_stream(
                p as nat,
            ) by {
                assert((p as nat) / 4 == i as nat);
                assert(key >> 0u32 == key) by (bit_vector);
            }
        }
        key = key.wrapping_mul(5);
        i = i + 1;
    }
    let rem = len - n * 4;
    let mut k = key;
    let mut j: usize = 0;
    assert(key >> 0u32 == key) by (bit_vector);
    while j < rem
        invariant
            n == len / 4,
            rem == len - n * 4,
            rem < 4,
            j <= rem,
            buf@.len() == len,
            orig.len() == len,
            key == jam_key(n as nat),
            k == key >> (8 * j) as u32,
            forall|p: int| 0 <= p < 4 * n + j ==> buf@[p] == orig[p] ^ jam_stream(p as nat),
            forall|p: int| 4 * n + j <= p < len ==> buf@[p] == orig[p],
        decreases rem - j,
    {
        let q = n * 4 + j;
        buf[q] = buf[q] ^ ((k & 0xff) as u8);
        proof {
            assert((q as nat) / 4 == n as nat);
            assert((q as nat) % 4 == j as nat);
        }
        let ghost jj = j as u32;
        assert((key >> (8 * jj)) >> 8u32 == key >> (8 * (jj + 1))) by (bit_vector)
            requires jj < 4;
        k = k >> 8u32;
        j = j + 1;
    }
    assert(buf@ =~= jam_apply(orig));
}

} // verus!

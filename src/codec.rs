//! Little-endian byte encoding of integers.
use crate::bits::fits;
use vstd::prelude::*;

verus! {

/// Byte `i` of `x`, counting from the least significant.
pub open spec fn byte_of(x: u64, i: int) -> u8 {
    ((x >> ((8 * i) as u64)) & 0xff) as u8
}

/// The `k` low bytes of `x`, least significant first.
pub open spec fn le_bytes(x: u64, k: nat) -> Seq<u8> {
    Seq::new(k, |i: int| byte_of(x, i))
}

/// Appends the `k` low bytes of `x`, least significant first.
pub fn put_le(out: &mut Vec<u8>, x: u64, k: usize)
    requires
        k <= 8,
    ensures
        final(out)@ == old(out)@ + le_bytes(x, k as nat),
{
    let ghost o = out@;
    let mut i: usize = 0;
    while i < k
        invariant
            i <= k <= 8,
            out@ == o + le_bytes(x, i as nat),
        decreases k - i,
    {
        let sh = (8 * i) as u64;
        out.push(((x >> sh) & 0xff) as u8);
        i += 1;
        proof {
            assert(out@ =~= o + le_bytes(x, i as nat));
        }
    }
}

/// Values of `8 * k` bits with the same `k` low bytes are equal.
pub proof fn lemma_le_bytes_inj(x: u64, y: u64, k: nat)
    requires
        1 <= k <= 8,
        fits(x, 8 * k),
        fits(y, 8 * k),
        le_bytes(x, k) == le_bytes(y, k),
    ensures
        x == y,
{
    lemma_bytes_from(x, y, k, 0);
    assert(x >> 0u64 == y >> 0u64 ==> x == y) by (bit_vector);
}

proof fn lemma_bytes_from(x: u64, y: u64, k: nat, i: nat)
    requires
        1 <= k <= 8,
        i <= k,
        fits(x, 8 * k),
        fits(y, 8 * k),
        le_bytes(x, k) == le_bytes(y, k),
    ensures
        x >> ((8 * i) as u64) == y >> ((8 * i) as u64),
    decreases k - i,
{
    if i == k {
        if k < 8 {
            assert(x >> ((8 * k) as u64) == 0);
            assert(y >> ((8 * k) as u64) == 0);
        } else {
            assert(x >> 64u64 == 0 && y >> 64u64 == 0) by (bit_vector);
        }
    } else {
        lemma_bytes_from(x, y, k, i + 1);
        assert(le_bytes(x, k)[i as int] == le_bytes(y, k)[i as int]);
        let s = (8 * i) as u64;
        assert(le_bytes(x, k)[i as int] == byte_of(x, i as int));
        assert(le_bytes(y, k)[i as int] == byte_of(y, i as int));
        assert(byte_of(x, i as int) == ((x >> s) & 0xff) as u8);
        assert(byte_of(y, i as int) == ((y >> s) & 0xff) as u8);
        assert(s < 64 && x >> ((s + 8) as u64) == y >> ((s + 8) as u64) && ((x >> s) & 0xff) as u8 == ((y >> s) & 0xff) as u8
            ==> x >> s == y >> s) by (bit_vector);
    }
}

/// A value fits in 32 bits exactly when it fits in a `u32`.
pub proof fn lemma_fits32(v: u64)
    ensures
        fits(v, 32) <==> v <= u32::MAX,
{
    assert((v >> 32u64) == 0 <==> v < 0x1_0000_0000) by (bit_vector);
}

/// Reads `k` bytes at `pos`, least significant first.
pub fn get_le(bytes: &[u8], pos: usize, k: usize) -> (r: Option<u64>)
    requires
        1 <= k <= 8,
    ensures
        r is None <==> pos + k > bytes@.len(),
        r matches Some(v) ==> fits(v, 8 * k as nat) && le_bytes(v, k as nat) == bytes@.subrange(
            pos as int,
            pos + k,
        ),
{
    if pos > bytes.len() || bytes.len() - pos < k {
        return None;
    }
    let blen = bytes.len();
    let mut v: u64 = 0;
    let mut i: usize = k;
    proof {
        assert(v >> 0u64 == 0) by (bit_vector)
            requires
                v == 0,
        ;
        assert(le_bytes(v, 0) =~= bytes@.subrange((pos + k) as int, (pos + k) as int));
    }
    while i > 0
        invariant
            1 <= k <= 8,
            i <= k,
            blen == bytes@.len(),
            pos + k <= blen,
            fits(v, (8 * (k - i)) as nat),
            le_bytes(v, (k - i) as nat) == bytes@.subrange((pos + i) as int, (pos + k) as int),
        decreases i,
    {
        let ghost v0 = v;
        let ghost n = (k - i) as nat;
        let b = bytes[pos + i - 1];
        v = (v << 8) | (b as u64);
        i -= 1;
        proof {
            let nn = (8 * n) as u64;
            assert(n <= 7);
            let bb = b as u64;
            assert(nn <= 56 && v0 >> nn == 0 ==> v0 >> 56u64 == 0) by (bit_vector);
            assert(nn <= 56 && v0 >> nn == 0 && bb < 256 ==> ((v0 << 8u64) | bb) >> ((nn + 8) as u64) == 0) by (bit_vector);
            assert(((((v0 << 8u64) | bb) >> 0u64) & 0xff) as u8 == b) by (bit_vector)
                requires
                    bb == b as u64,
            ;
            assert forall|t: int| 0 <= t < n + 1 implies #[trigger] le_bytes(v, n + 1)[t] == bytes@.subrange(
                (pos + i) as int,
                (pos + k) as int,
            )[t] by {
                if t == 0 {
                    assert(byte_of(v, 0) == b);
                } else {
                    let s = (8 * (t - 1)) as u64;
                    assert(s < 56 && v0 >> 56u64 == 0 && bb < 256 ==> (((v0 << 8u64) | bb) >> ((s + 8) as u64)) & 0xff == (v0 >> s) & 0xff) by (bit_vector);
                    assert(byte_of(v, t) == byte_of(v0, t - 1));
                    assert(le_bytes(v0, n)[t - 1] == bytes@.subrange((pos + i + 1) as int, (pos + k) as int)[t - 1]);
                }
            }
            assert(le_bytes(v, n + 1) =~= bytes@.subrange((pos + i) as int, (pos + k) as int));
        }
    }
    Some(v)
}

} // verus!

//! Little-endian integer framing used by the shared-memory protocol.
use vstd::prelude::*;

verus! {

/// The little-endian encoding of `x` in `n` bytes (higher bytes dropped).
pub open spec fn le_encode(x: nat, n: nat) -> Seq<u8>
    decreases n,
{
    if n == 0 {
        Seq::empty()
    } else {
        seq![(x % 256) as u8] + le_encode(x / 256, (n - 1) as nat)
    }
}

/// The value of a little-endian byte sequence.
pub open spec fn le_decode(s: Seq<u8>) -> nat
    decreases s.len(),
{
    if s.len() == 0 {
        0
    } else {
        s[0] as nat + 256 * le_decode(s.drop_first())
    }
}

/// `256` to the power `n`.
pub open spec fn pow256(n: nat) -> nat
    decreases n,
{
    if n == 0 {
        1
    } else {
        256 * pow256((n - 1) as nat)
    }
}

pub proof fn lemma_le_encode_len(x: nat, n: nat)
    ensures
        le_encode(x, n).len() == n,
    decreases n,
{
    if n > 0 {
        lemma_le_encode_len(x / 256, (n - 1) as nat);
    }
}

pub proof fn lemma_pow256_pos(n: nat)
    ensures
        pow256(n) >= 1,
    decreases n,
{
    if n > 0 {
        lemma_pow256_pos((n - 1) as nat);
    }
}

/// Decoding an encoding gives the value back, when the value fits.
pub proof fn lemma_le_roundtrip(x: nat, n: nat)
    requires
        x < pow256(n),
    ensures
        le_decode(le_encode(x, n)) == x,
    decreases n,
{
    if n > 0 {
        let q = x / 256;
        let m = (n - 1) as nat;
        assert(x == 256 * q + x % 256) by (nonlinear_arith)
            requires
                q == x / 256,
        ;
        assert(q < pow256(m)) by (nonlinear_arith)
            requires
                x < 256 * pow256(m),
                x == 256 * q + x % 256,
                x % 256 >= 0,
        ;
        lemma_le_roundtrip(q, m);
        let s = le_encode(x, n);
        lemma_le_encode_len(q, m);
        assert(s.drop_first() =~= le_encode(q, m));
    }
}

/// A decoded value fits in its width.
pub proof fn lemma_le_decode_bound(s: Seq<u8>)
    ensures
        le_decode(s) < pow256(s.len()),
    decreases s.len(),
{
    if s.len() > 0 {
        let t = s.drop_first();
        lemma_le_decode_bound(t);
        let d = le_decode(t);
        let p = pow256(t.len());
        assert(s[0] as nat + 256 * d < 256 * p) by (nonlinear_arith)
            requires
                d < p,
                s[0] < 256,
        ;
    }
}

pub proof fn lemma_pow256_values()
    ensures
        pow256(4) == 0x1_0000_0000,
        pow256(8) == 0x1_0000_0000_0000_0000,
{
    reveal_with_fuel(pow256, 9);
}

/// Appends the little-endian encoding of `x` in `n` bytes.
pub fn push_le(out: &mut Vec<u8>, x: u64, n: usize)
    requires
        n <= 8,
    ensures
        final(out)@ == old(out)@ + le_encode(x as nat, n as nat),
{
    let mut v: u64 = x;
    let mut i: usize = 0;
    while i < n
        invariant
            i <= n,
            out@ + le_encode(v as nat, (n - i) as nat) == old(out)@ + le_encode(x as nat, n as nat),
        decreases n - i,
    {
        let ghost before = out@;
        out.push((v % 256) as u8);
        proof {
            let m = (n - i) as nat;
            assert(le_encode(v as nat, m) == seq![(v as nat % 256) as u8] + le_encode(v as nat / 256, (m - 1) as nat));
            assert(out@ + le_encode((v / 256) as nat, (m - 1) as nat) =~= before + le_encode(v as nat, m));
        }
        v = v / 256;
        i = i + 1;
    }
    assert(le_encode(v as nat, 0) =~= Seq::<u8>::empty());
    assert(out@ =~= old(out)@ + le_encode(x as nat, n as nat));
}

/// Reads the little-endian value of `bytes[start..start + n]`.
pub fn read_le(bytes: &[u8], start: usize, n: usize) -> (r: u64)
    requires
        n <= 8,
        start + n <= bytes@.len(),
    ensures
        r as nat == le_decode(bytes@.subrange(start as int, start + n)),
{
    let mut acc: u64 = 0;
    let mut i: usize = n;
    while i > 0
        invariant
            i <= n <= 8,
            start + n <= bytes@.len(),
            bytes@.len() == bytes.len(),
            acc as nat == le_decode(bytes@.subrange(start + i, start + n)),
        decreases i,
    {
        let ghost tail = bytes@.subrange(start + i, start + n);
        proof {
            lemma_le_decode_bound(tail);
            lemma_pow256_pos(tail.len());
            lemma_pow256_values();
            lemma_pow256_mono(tail.len(), 7);
        }
        let b = bytes[start + (i - 1)];
        assert(acc * 256 + b < 0x1_0000_0000_0000_0000) by (nonlinear_arith)
            requires
                acc < pow256(tail.len()),
                pow256(tail.len()) <= pow256(7),
                pow256(7) * 256 == 0x1_0000_0000_0000_0000,
                b < 256,
        {
        }
        acc = acc * 256 + b as u64;
        i = i - 1;
        proof {
            let s = bytes@.subrange(start + i, start + n);
            assert(s.drop_first() =~= tail);
        }
    }
    acc
}

pub proof fn lemma_pow256_mono(a: nat, b: nat)
    requires
        a <= b,
    ensures
        pow256(a) <= pow256(b),
    decreases b,
{
    if a < b {
        lemma_pow256_mono(a, (b - 1) as nat);
        lemma_pow256_pos((b - 1) as nat);
    }
}

} // verus!

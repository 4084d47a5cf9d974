//! Big-endian byte encodings of unsigned integers, with their mathematical
//! model (`be_value` / `be_encode`) and the lemmas that relate them.
use vstd::prelude::*;

verus! {

/// `256^n`.
pub open spec fn byte_pow(n: nat) -> nat
    decreases n,
{
    if n == 0 {
        1
    } else {
        256 * byte_pow((n - 1) as nat)
    }
}

/// Value of a big-endian byte string.
pub open spec fn be_value(s: Seq<u8>) -> nat
    decreases s.len(),
{
    if s.len() == 0 {
        0
    } else {
        be_value(s.drop_last()) * 256 + (s.last() as nat)
    }
}

/// The `n` low-order bytes of `x`, most significant first.
pub open spec fn be_encode(x: nat, n: nat) -> Seq<u8>
    decreases n,
{
    if n == 0 {
        Seq::empty()
    } else {
        be_encode(x / 256, (n - 1) as nat).push((x % 256) as u8)
    }
}

/// First eight bytes of `s`, read as a big-endian `u64`.
pub open spec fn be_u64_of(s: Seq<u8>) -> nat {
    be_value(s.subrange(0, 8))
}

/// First four bytes of `s`, read as a big-endian `u32`.
pub open spec fn be_u32_of(s: Seq<u8>) -> nat {
    be_value(s.subrange(0, 4))
}

pub proof fn lemma_byte_pow_pos(n: nat)
    ensures
        byte_pow(n) >= 1,
    decreases n,
{
    if n > 0 {
        lemma_byte_pow_pos((n - 1) as nat);
    }
}

pub proof fn lemma_byte_pow_values()
    ensures
        byte_pow(0) == 1,
        byte_pow(1) == 256,
        byte_pow(2) == 0x1_0000,
        byte_pow(4) == 0x1_0000_0000,
        byte_pow(5) == 0x100_0000_0000,
        byte_pow(8) == 0x1_0000_0000_0000_0000,
{
    reveal_with_fuel(byte_pow, 9);
}

pub proof fn lemma_byte_pow_mono(a: nat, b: nat)
    requires
        a <= b,
    ensures
        byte_pow(a) <= byte_pow(b),
    decreases b,
{
    if a < b {
        lemma_byte_pow_mono(a, (b - 1) as nat);
        lemma_byte_pow_pos((b - 1) as nat);
    }
}

pub proof fn lemma_be_encode_len(x: nat, n: nat)
    ensures
        be_encode(x, n).len() == n,
    decreases n,
{
    if n > 0 {
        lemma_be_encode_len(x / 256, (n - 1) as nat);
    }
}

pub proof fn lemma_be_value_bound(s: Seq<u8>)
    ensures
        be_value(s) < byte_pow(s.len()),
    decreases s.len(),
{
    if s.len() > 0 {
        lemma_be_value_bound(s.drop_last());
        let v = be_value(s.drop_last());
        let p = byte_pow((s.len() - 1) as nat);
        assert(v + 1 <= p);
        assert(v * 256 + s.last() < (v + 1) * 256) by (nonlinear_arith)
            requires
                s.last() < 256,
        ;
        assert((v + 1) * 256 <= p * 256) by (nonlinear_arith)
            requires
                v + 1 <= p,
        ;
    }
}

/// Decoding an encoding gives the value modulo `256^n`.
pub proof fn lemma_be_value_encode(x: nat, n: nat)
    ensures
        be_value(be_encode(x, n)) == x % byte_pow(n),
    decreases n,
{
    if n == 0 {
    } else {
        let e = be_encode(x, n);
        lemma_be_encode_len(x, n);
        assert(e.drop_last() =~= be_encode(x / 256, (n - 1) as nat));
        lemma_be_value_encode(x / 256, (n - 1) as nat);
        let p = byte_pow((n - 1) as nat);
        lemma_byte_pow_pos((n - 1) as nat);
        let q = x / 256;
        let r = x % 256;
        assert(x == q * 256 + r);
        assert(be_value(e) == (q % p) * 256 + r);
        assert((q % p) * 256 + r == x % (256 * p)) by (nonlinear_arith)
            requires
                p >= 1,
                x == q * 256 + r,
                0 <= r < 256,
        {
            let qq = q / p;
            let qr = q % p;
            assert(q == qq * p + qr);
            assert(x == qq * (256 * p) + (qr * 256 + r));
            assert(qr * 256 + r < 256 * p);
            vstd::arithmetic::div_mod::lemma_fundamental_div_mod_converse(
                x as int,
                (256 * p) as int,
                qq as int,
                (qr * 256 + r) as int,
            );
        }
    }
}

/// Encoding a decoded byte string gives the byte string back.
pub proof fn lemma_be_encode_value(s: Seq<u8>)
    ensures
        be_encode(be_value(s), s.len()) == s,
    decreases s.len(),
{
    if s.len() > 0 {
        let d = s.drop_last();
        lemma_be_encode_value(d);
        let v = be_value(s);
        assert(v / 256 == be_value(d));
        assert(v % 256 == s.last());
        assert(be_encode(v, s.len()) =~= be_encode(be_value(d), d.len()).push(s.last()));
        assert(s =~= d.push(s.last()));
    }
}

/// Reading a concatenation: the prefix is shifted left by the suffix.
pub proof fn lemma_be_value_concat(s: Seq<u8>, t: Seq<u8>)
    ensures
        be_value(s + t) == be_value(s) * byte_pow(t.len()) + be_value(t),
    decreases t.len(),
{
    if t.len() == 0 {
        assert(s + t =~= s);
        assert(byte_pow(0) == 1);
        assert(be_value(s) * 1 == be_value(s));
    } else {
        let t0 = t.drop_last();
        lemma_be_value_concat(s, t0);
        assert((s + t).drop_last() =~= s + t0);
        let a = be_value(s);
        let p = byte_pow(t0.len());
        let b = be_value(t0);
        let l = t.last() as nat;
        assert((s + t).last() == t.last());
        assert(be_value(s + t) == be_value(s + t0) * 256 + l);
        assert(be_value(t) == b * 256 + l);
        assert(byte_pow(t.len()) == 256 * p);
        assert(be_value(s + t0) == a * p + b);
        assert((a * p + b) * 256 + l == a * (256 * p) + (b * 256 + l)) by (nonlinear_arith);
    }
}

/// The `n` low-order bytes of `x`, big-endian (`n <= 8`).
pub fn be_bytes(x: u64, n: usize) -> (out: Vec<u8>)
    requires
        n <= 8,
    ensures
        out@ == be_encode(x as nat, n as nat),
    decreases n,
{
    if n == 0 {
        Vec::new()
    } else {
        let mut v = be_bytes(x / 256, n - 1);
        v.push((x % 256) as u8);
        v
    }
}

/// Big-endian value of a byte slice of at most eight bytes.
pub fn be_read(s: &[u8]) -> (x: u64)
    requires
        s@.len() <= 8,
    ensures
        x as nat == be_value(s@),
{
    let mut acc: u64 = 0;
    let mut i: usize = 0;
    while i < s.len()
        invariant
            i <= s@.len() <= 8,
            acc as nat == be_value(s@.subrange(0, i as int)),
        decreases s@.len() - i,
    {
        proof {
            lemma_be_value_bound(s@.subrange(0, i as int));
            lemma_byte_pow_mono(i as nat, 7);
            reveal_with_fuel(byte_pow, 8);
            assert(s@.subrange(0, i + 1).drop_last() =~= s@.subrange(0, i as int));
        }
        acc = acc * 256 + s[i] as u64;
        i = i + 1;
    }
    assert(s@.subrange(0, i as int) =~= s@);
    acc
}

/// Appends `src` to `dst`.
pub fn append_bytes(dst: &mut Vec<u8>, src: &[u8])
    ensures
        final(dst)@ == old(dst)@ + src@,
{
    let mut i: usize = 0;
    while i < src.len()
        invariant
            i <= src@.len(),
            dst@ == old(dst)@ + src@.subrange(0, i as int),
        decreases src@.len() - i,
    {
        dst.push(src[i]);
        proof {
            assert(src@.subrange(0, i + 1) =~= src@.subrange(0, i as int).push(src@[i as int]));
        }
        i = i + 1;
    }
    assert(src@.subrange(0, i as int) =~= src@);
}

/// Copy of a byte slice.
pub fn bytes_to_vec(src: &[u8]) -> (out: Vec<u8>)
    ensures
        out@ == src@,
{
    let mut v = Vec::new();
    append_bytes(&mut v, src);
    assert(v@ =~= src@);
    v
}

/// Bytewise exclusive or of two equally long byte strings.
pub open spec fn xor_seq(a: Seq<u8>, b: Seq<u8>) -> Seq<u8> {
    Seq::new(a.len(), |i: int| a[i] ^ b[i])
}

pub proof fn lemma_xor_involution(a: Seq<u8>, b: Seq<u8>)
    requires
        a.len() <= b.len(),
    ensures
        xor_seq(xor_seq(a, b), b) == a,
{
    assert forall|i: int| 0 <= i < a.len() implies xor_seq(xor_seq(a, b), b)[i] == a[i] by {
        let x = a[i];
        let y = b[i];
        assert((x ^ y) ^ y == x) by (bit_vector);
    }
    assert(xor_seq(xor_seq(a, b), b) =~= a);
}

/// `a` masked with the first `a.len()` bytes of `ks`.
pub fn xor_bytes(a: &[u8], ks: &[u8]) -> (out: Vec<u8>)
    requires
        a@.len() <= ks@.len(),
    ensures
        out@ == xor_seq(a@, ks@),
{
    let mut out: Vec<u8> = Vec::new();
    let mut i: usize = 0;
    while i < a.len()
        invariant
            i <= a@.len() <= ks@.len(),
            out@ == xor_seq(a@, ks@).subrange(0, i as int),
        decreases a@.len() - i,
    {
        out.push(a[i] ^ ks[i]);
        proof {
            assert(xor_seq(a@, ks@).subrange(0, i + 1) =~= xor_seq(a@, ks@).subrange(
                0,
                i as int,
            ).push(a@[i as int] ^ ks@[i as int]));
        }
        i = i + 1;
    }
    assert(xor_seq(a@, ks@).subrange(0, i as int) =~= xor_seq(a@, ks@));
    out
}

} // verus!

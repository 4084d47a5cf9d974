//! Linear feedback shift registers over GF(2) and the Berlekamp-Massey
//! synthesis, for the linear complexity statistic. A register of length `l`
//! with connection polynomial `c` (`c[0] == 1`, `c[i] == 0` above `l`)
//! generates `s` when every bit from position `l` on is the XOR of the
//! earlier bits that `c` selects.
use crate::sts_bits::all_bits;
use vstd::prelude::*;

verus! {

/// `c[0] & s[k] ^ c[1] & s[k - 1] ^ ... ^ c[t - 1] & s[k - t + 1]`.
pub open spec fn conv(c: Seq<u8>, s: Seq<u8>, k: int, t: nat) -> u8
    decreases t,
{
    if t == 0 {
        0
    } else {
        conv(c, s, k, (t - 1) as nat) ^ (c[t - 1] & s[k - (t - 1)])
    }
}

/// The discrepancy of `c` at position `k`: zero when the register predicts
/// `s[k]` from the bits before it.
pub open spec fn discrepancy(c: Seq<u8>, s: Seq<u8>, k: nat) -> u8 {
    conv(c, s, k as int, k + 1)
}

/// The register of length `l` with connection polynomial `c` generates the
/// first `n` bits of `s`.
pub open spec fn lfsr_generates(c: Seq<u8>, l: nat, s: Seq<u8>, n: nat) -> bool {
    &&& c.len() > n
    &&& c[0] == 1
    &&& forall|i: int| l < i < c.len() ==> #[trigger] c[i] == 0
    &&& forall|k: nat| l <= k < n ==> #[trigger] discrepancy(c, s, k) == 0
}

/// `b` moved up by `m` places.
pub open spec fn shifted(b: Seq<u8>, m: nat, len: nat) -> Seq<u8> {
    Seq::new(len, |i: int| if i >= m { b[i - m] } else { 0u8 })
}

/// The entrywise XOR of `a` and `b`.
pub open spec fn xor_seq8(a: Seq<u8>, b: Seq<u8>) -> Seq<u8> {
    Seq::new(a.len(), |i: int| a[i] ^ b[i])
}

proof fn lemma_u8_facts(x: u8, y: u8, z: u8, w: u8)
    ensures
        (x ^ y) & z == (x & z) ^ (y & z),
        (x ^ y) ^ (z ^ w) == (x ^ z) ^ (y ^ w),
        x ^ 0 == x,
        0u8 & z == 0,
        x <= 1 && y <= 1 ==> x ^ y <= 1,
        x <= 1 ==> 1u8 & x == x,
        x <= 1 && y <= 1 ==> x & y <= 1,
        (x ^ y) ^ 0 == x ^ y,
        1u8 ^ 1u8 == 0,
        0u8 ^ x == x,
{
    assert((x ^ y) & z == (x & z) ^ (y & z)) by (bit_vector);
    assert((x ^ y) ^ (z ^ w) == (x ^ z) ^ (y ^ w)) by (bit_vector);
    assert(x ^ 0 == x) by (bit_vector);
    assert(0u8 & z == 0) by (bit_vector);
    assert(x <= 1 && y <= 1 ==> x ^ y <= 1) by (bit_vector);
    assert(x <= 1 ==> 1u8 & x == x) by (bit_vector);
    assert(x <= 1 && y <= 1 ==> x & y <= 1) by (bit_vector);
    assert((x ^ y) ^ 0 == x ^ y) by (bit_vector);
    assert(1u8 ^ 1u8 == 0) by (bit_vector);
    assert(0u8 ^ x == x) by (bit_vector);
}

/// Terms past the last nonzero coefficient add nothing.
proof fn lemma_conv_tail(c: Seq<u8>, s: Seq<u8>, k: int, t1: nat, t2: nat)
    requires
        t1 <= t2,
        forall|i: int| t1 <= i < t2 ==> #[trigger] c[i] == 0,
    ensures
        conv(c, s, k, t2) == conv(c, s, k, t1),
    decreases t2,
{
    if t2 > t1 {
        lemma_conv_tail(c, s, k, t1, (t2 - 1) as nat);
        lemma_u8_facts(conv(c, s, k, (t2 - 1) as nat), 0, s[k - (t2 - 1)], 0);
    }
}

/// The sum is linear in the coefficients.
proof fn lemma_conv_xor(a: Seq<u8>, b: Seq<u8>, s: Seq<u8>, k: int, t: nat)
    requires
        t <= a.len(),
        a.len() == b.len(),
    ensures
        conv(xor_seq8(a, b), s, k, t) == conv(a, s, k, t) ^ conv(b, s, k, t),
    decreases t,
{
    if t == 0 {
        lemma_u8_facts(0, 0, 0, 0);
    } else {
        let u = (t - 1) as nat;
        lemma_conv_xor(a, b, s, k, u);
        let z = s[k - u];
        lemma_u8_facts(a[u as int], b[u as int], z, 0);
        lemma_u8_facts(conv(a, s, k, u), conv(b, s, k, u), a[u as int] & z, b[u as int] & z);
    }
}

/// A shifted register's sum is the original's sum `m` places back.
proof fn lemma_conv_shift(b: Seq<u8>, s: Seq<u8>, k: int, m: nat, len: nat, t: nat)
    requires
        m <= t <= len,
    ensures
        conv(shifted(b, m, len), s, k, t) == conv(b, s, k - m, (t - m) as nat),
    decreases t,
{
    let sh = shifted(b, m, len);
    if t == m {
        assert forall|i: int| 0 <= i < m implies #[trigger] sh[i] == 0 by {}
        lemma_conv_tail(sh, s, k, 0, m);
    } else {
        let u = (t - 1) as nat;
        lemma_conv_shift(b, s, k, m, len, u);
        assert(sh[u as int] == b[u - m]);
        assert(k - u == (k - m) - (u - m));
    }
}

/// The double sum `XOR_{i < a} XOR_{j < b} c[i] & c2[j] & s[n - i - j]`,
/// row by row.
pub open spec fn rows_sum(c: Seq<u8>, c2: Seq<u8>, s: Seq<u8>, n: int, a: nat, b: nat) -> u8
    decreases a,
{
    if a == 0 {
        0
    } else {
        rows_sum(c, c2, s, n, (a - 1) as nat, b) ^ (c[a - 1] & conv(c2, s, n - (a - 1), b))
    }
}

/// The same double sum, column by column.
pub open spec fn cols_sum(c: Seq<u8>, c2: Seq<u8>, s: Seq<u8>, n: int, a: nat, b: nat) -> u8
    decreases b,
{
    if b == 0 {
        0
    } else {
        cols_sum(c, c2, s, n, a, (b - 1) as nat) ^ (c2[b - 1] & conv(c, s, n - (b - 1), a))
    }
}

proof fn lemma_u8_ring(x: u8, y: u8, z: u8, w: u8)
    ensures
        x & (y ^ z) == (x & y) ^ (x & z),
        x & (y & z) == y & (x & z),
        (x ^ y) ^ (z ^ w) == (x ^ z) ^ (y ^ w),
        x & 0 == 0,
        x ^ 0 == x,
{
    assert(x & (y ^ z) == (x & y) ^ (x & z)) by (bit_vector);
    assert(x & (y & z) == y & (x & z)) by (bit_vector);
    assert((x ^ y) ^ (z ^ w) == (x ^ z) ^ (y ^ w)) by (bit_vector);
    assert(x & 0 == 0) by (bit_vector);
    assert(x ^ 0 == x) by (bit_vector);
}

/// Adding one more row to every column: the column sums over `a + 1` rows
/// are the sums over `a` rows plus row `a`.
proof fn lemma_cols_step(c: Seq<u8>, c2: Seq<u8>, s: Seq<u8>, n: int, a: nat, b: nat)
    ensures
        cols_sum(c, c2, s, n, a + 1, b) == cols_sum(c, c2, s, n, a, b) ^ (c[a as int] & conv(
            c2,
            s,
            n - a,
            b,
        )),
    decreases b,
{
    if b == 0 {
        lemma_u8_ring(c[a as int], 0, 0, 0);
        lemma_u8_ring(0, 0, 0, 0);
    } else {
        let u = (b - 1) as nat;
        lemma_cols_step(c, c2, s, n, a, u);
        let p = cols_sum(c, c2, s, n, a, u);
        let q = c[a as int] & conv(c2, s, n - a, u);
        let x = c2[u as int];
        let y = conv(c, s, n - u, a);
        let t = c[a as int] & s[(n - u) - a];
        let t2 = c2[u as int] & s[(n - a) - u];
        assert((n - u) - a == (n - a) - u);
        // c2[u] & (y ^ (c[a] & s)) == (c2[u] & y) ^ (c[a] & (c2[u] & s))
        lemma_u8_ring(x, y, t, 0);
        lemma_u8_ring(x, c[a as int], s[(n - u) - a], 0);
        lemma_u8_ring(c[a as int], conv(c2, s, n - a, u), t2, 0);
        lemma_u8_ring(p, x & y, q, c[a as int] & t2);
    }
}

/// The double sum can be taken row by row or column by column.
proof fn lemma_rows_cols(c: Seq<u8>, c2: Seq<u8>, s: Seq<u8>, n: int, a: nat, b: nat)
    ensures
        rows_sum(c, c2, s, n, a, b) == cols_sum(c, c2, s, n, a, b),
    decreases a,
{
    if a == 0 {
        assert forall|u: nat| #[trigger] cols_sum(c, c2, s, n, 0, u) == 0 by {
            lemma_cols_zero(c, c2, s, n, u);
        }
    } else {
        let u = (a - 1) as nat;
        lemma_rows_cols(c, c2, s, n, u, b);
        lemma_cols_step(c, c2, s, n, u, b);
    }
}

proof fn lemma_cols_zero(c: Seq<u8>, c2: Seq<u8>, s: Seq<u8>, n: int, b: nat)
    ensures
        cols_sum(c, c2, s, n, 0, b) == 0,
    decreases b,
{
    if b > 0 {
        lemma_cols_zero(c, c2, s, n, (b - 1) as nat);
        lemma_u8_ring(c2[b - 1], 0, 0, 0);
        lemma_u8_ring(0, 0, 0, 0);
    }
}

/// A row sum whose every row vanishes is zero.
proof fn lemma_rows_zero(c: Seq<u8>, c2: Seq<u8>, s: Seq<u8>, n: int, a: nat, b: nat)
    requires
        forall|i: int| 0 <= i < a ==> #[trigger] conv(c2, s, n - i, b) == 0,
    ensures
        rows_sum(c, c2, s, n, a, b) == 0,
    decreases a,
{
    if a > 0 {
        lemma_rows_zero(c, c2, s, n, (a - 1) as nat, b);
        assert(conv(c2, s, n - (a - 1), b) == 0);
        lemma_u8_ring(c[a - 1], 0, 0, 0);
        lemma_u8_ring(0, 0, 0, 0);
    }
}

/// A column sum whose columns after the first vanish is its first column.
proof fn lemma_cols_first(c: Seq<u8>, c2: Seq<u8>, s: Seq<u8>, n: int, a: nat, b: nat)
    requires
        b >= 1,
        forall|j: int| 1 <= j < b ==> #[trigger] conv(c, s, n - j, a) == 0,
    ensures
        cols_sum(c, c2, s, n, a, b) == c2[0] & conv(c, s, n, a),
    decreases b,
{
    if b == 1 {
        lemma_u8_facts(0, 0, 0, 0);
        assert(cols_sum(c, c2, s, n, a, 0) == 0);
        assert(n - 0 == n);
        lemma_u8_facts(c2[0] & conv(c, s, n, a), 0, 0, 0);
    } else {
        lemma_cols_first(c, c2, s, n, a, (b - 1) as nat);
        assert(conv(c, s, n - (b - 1), a) == 0);
        lemma_u8_ring(c2[b - 1], 0, 0, 0);
        lemma_u8_ring(c2[0] & conv(c, s, n, a), 0, 0, 0);
    }
}

/// Massey's lemma: if a register of length `l` generates the first `n` bits
/// of `s` but not bit `n`, every register that generates the first `n + 1`
/// bits has length at least `n + 1 - l`.
pub proof fn lemma_massey(c: Seq<u8>, l: nat, c2: Seq<u8>, l2: nat, s: Seq<u8>, n: nat)
    requires
        lfsr_generates(c, l, s, n),
        discrepancy(c, s, n) == 1,
        lfsr_generates(c2, l2, s, n + 1),
        l <= n,
    ensures
        l + l2 > n,
{
    if l + l2 <= n {
        let a = l + 1;
        let b = l2 + 1;
        // Every row vanishes: c2 predicts bits n - i for i <= l.
        assert forall|i: int| 0 <= i < a implies #[trigger] conv(c2, s, n - i, b) == 0 by {
            let k = (n - i) as nat;
            assert(discrepancy(c2, s, k) == 0);
            lemma_conv_tail(c2, s, k as int, b, k + 1);
        }
        lemma_rows_zero(c, c2, s, n as int, a, b);
        lemma_rows_cols(c, c2, s, n as int, a, b);
        // Every column after the first vanishes: c predicts bits n - j.
        assert forall|j: int| 1 <= j < b implies #[trigger] conv(c, s, n - j, a) == 0 by {
            let k = (n - j) as nat;
            assert(discrepancy(c, s, k) == 0);
            lemma_conv_tail(c, s, k as int, a, k + 1);
        }
        lemma_cols_first(c, c2, s, n as int, a, b);
        lemma_conv_tail(c, s, n as int, a, n + 1);
        lemma_u8_facts(1, 1, 0, 0);
        assert(1u8 & 1u8 == 1) by (bit_vector);
        assert(false);
    }
}

/// The linear complexity of the bits `s`, by Berlekamp-Massey synthesis: a
/// register of the returned length generates `s`, and no shorter one does.
pub fn berlekamp_massey(s: &[u8]) -> (l: usize)
    requires
        all_bits(s@),
        s@.len() < usize::MAX,
    ensures
        l <= s@.len(),
        exists|c: Seq<u8>| #[trigger] lfsr_generates(c, l as nat, s@, s@.len()),
        forall|c: Seq<u8>, l2: nat| #[trigger] lfsr_generates(c, l2, s@, s@.len()) ==> l2 >= l,
{
    let n = s.len();
    let mut c: Vec<u8> = Vec::new();
    let mut b: Vec<u8> = Vec::new();
    let mut z: usize = 0;
    while z < n + 1
        invariant
            z <= n + 1,
            n == s@.len() < usize::MAX,
            c@.len() == z,
            b@.len() == z,
            forall|i: int| 0 <= i < z ==> #[trigger] c@[i] == (if i == 0 { 1u8 } else { 0u8 }),
            forall|i: int| 0 <= i < z ==> #[trigger] b@[i] == (if i == 0 { 1u8 } else { 0u8 }),
        decreases n + 1 - z,
    {
        if z == 0 {
            c.push(1);
            b.push(1);
        } else {
            c.push(0);
            b.push(0);
        }
        z = z + 1;
    }
    let mut l: usize = 0;
    let mut m: usize = 1;
    let ghost mut lb: nat = 0;
    let mut nn: usize = 0;
    while nn < n
        invariant
            n == s@.len() < usize::MAX,
            all_bits(s@),
            nn <= n,
            c@.len() == n + 1,
            b@.len() == n + 1,
            all_bits(c@),
            all_bits(b@),
            c@[0] == 1,
            b@[0] == 1,
            m >= 1,
            l <= nn,
            lb + l + m == nn + 1,
            forall|i: int| l < i <= n ==> #[trigger] c@[i] == 0,
            forall|i: int| lb < i <= n ==> #[trigger] b@[i] == 0,
            forall|k: nat| l <= k < nn ==> #[trigger] discrepancy(c@, s@, k) == 0,
            forall|k: nat| lb <= k < nn - m ==> #[trigger] discrepancy(b@, s@, k) == 0,
            nn >= m ==> discrepancy(b@, s@, (nn - m) as nat) == 1,
            forall|c2: Seq<u8>, l2: nat| #[trigger] lfsr_generates(c2, l2, s@, nn as nat) ==> l2 >= l,
        decreases n - nn,
    {
        proof {
            lemma_u8_facts(c@[0], s@[nn as int], 0, 0);
        }
        let mut d: u8 = s[nn];
        assert(d == conv(c@, s@, nn as int, 1)) by {
            let x = s@[nn as int];
            assert(x <= 1);
            lemma_u8_facts(x, 0, 0, 0);
            assert(c@[0] & x == x);
            assert(conv(c@, s@, nn as int, 0) == 0);
            assert(conv(c@, s@, nn as int, 1) == 0u8 ^ (c@[0] & s@[nn - 0]));
        }
        let mut i: usize = 1;
        while i <= l
            invariant
                1 <= i <= l + 1,
                l <= nn < n,
                n == s@.len(),
                c@.len() == n + 1,
                all_bits(c@),
                all_bits(s@),
                d == conv(c@, s@, nn as int, i as nat),
                d <= 1,
            decreases l + 1 - i,
        {
            proof {
                assert(c@[i as int] <= 1);
                assert(s@[nn - i] <= 1);
                lemma_u8_facts(c@[i as int], s@[nn - i], 0, 0);
                lemma_u8_facts(d, c@[i as int] & s@[nn - i], 0, 0);
            }
            d = d ^ (c[i] & s[nn - i]);
            i = i + 1;
        }
        proof {
            lemma_conv_tail(c@, s@, nn as int, (l + 1) as nat, (nn + 1) as nat);
            assert(d == discrepancy(c@, s@, nn as nat));
        }
        proof {
            assert(lfsr_generates(c@, l as nat, s@, nn as nat));
            assert forall|c2: Seq<u8>, l2: nat| #[trigger] lfsr_generates(
                c2,
                l2,
                s@,
                (nn + 1) as nat,
            ) implies l2 >= l && (d == 1 ==> l + l2 > nn) by {
                assert(lfsr_generates(c2, l2, s@, nn as nat));
                if d == 1 {
                    lemma_massey(c@, l as nat, c2, l2, s@, nn as nat);
                }
            }
        }
        if d == 0 {
            m = m + 1;
        } else {
            let ghost c0 = c@;
            let ghost sh = shifted(b@, m as nat, (n + 1) as nat);
            let change = l <= nn - l;
            let mut t: Vec<u8> = Vec::new();
            if change {
                let mut q: usize = 0;
                while q < n + 1
                    invariant
                        n < usize::MAX,
                        q <= n + 1,
                        c@.len() == n + 1,
                        t@ == c@.subrange(0, q as int),
                    decreases n + 1 - q,
                {
                    t.push(c[q]);
                    proof {
                        assert(c@.subrange(0, q + 1) =~= c@.subrange(0, q as int).push(c@[q as int]));
                    }
                    q = q + 1;
                }
                assert(t@ =~= c0);
            }
            let end = nn + 1 - m;
            let mut j: usize = 0;
            while j <= end
                invariant
                    end == nn + 1 - m,
                    m >= 1,
                    nn < n,
                    j <= end + 1,
                    c@.len() == n + 1,
                    b@.len() == n + 1,
                    c0.len() == n + 1,
                    sh == shifted(b@, m as nat, (n + 1) as nat),
                    forall|i: int|
                        0 <= i <= n ==> #[trigger] c@[i] == (if m <= i < j + m {
                            c0[i] ^ sh[i]
                        } else {
                            c0[i]
                        }),
                decreases end + 1 - j,
            {
                let v = c[j + m] ^ b[j];
                c.set(j + m, v);
                j = j + 1;
            }
            proof {
                assert forall|i: int| 0 <= i <= n implies #[trigger] c@[i] == xor_seq8(c0, sh)[i] by {
                    if i > nn + 1 {
                        assert(sh[i] == b@[i - m]);
                        lemma_u8_facts(c0[i], 0, 0, 0);
                    } else if i < m {
                        lemma_u8_facts(c0[i], 0, 0, 0);
                    }
                }
                assert(c@ =~= xor_seq8(c0, sh));
                let l2: nat = if change {
                    (nn + 1 - l) as nat
                } else {
                    l as nat
                };
                assert forall|i: int| 0 <= i <= n implies #[trigger] c@[i] <= 1 by {
                    if i >= m {
                        assert(b@[i - m] <= 1);
                    }
                    assert(c0[i] <= 1);
                    lemma_u8_facts(c0[i], sh[i], 0, 0);
                }
                assert forall|i: int| l2 < i <= n implies #[trigger] c@[i] == 0 by {
                    assert(c0[i] == 0);
                    if i >= m {
                        assert(b@[i - m] == 0);
                    }
                    lemma_u8_facts(0, 0, 0, 0);
                }
                assert(c@[0] == 1) by {
                    lemma_u8_facts(1, 0, 0, 0);
                }
                assert forall|k: nat| l2 <= k < nn + 1 implies #[trigger] discrepancy(c@, s@, k)
                    == 0 by {
                    lemma_conv_xor(c0, sh, s@, k as int, k + 1);
                    lemma_conv_shift(b@, s@, k as int, m as nat, (n + 1) as nat, k + 1);
                    assert(discrepancy(c@, s@, k) == discrepancy(c0, s@, k) ^ discrepancy(
                        b@,
                        s@,
                        (k - m) as nat,
                    ));
                    if k < nn {
                        assert(discrepancy(c0, s@, k) == 0);
                        assert(discrepancy(b@, s@, (k - m) as nat) == 0);
                        lemma_u8_facts(0, 0, 0, 0);
                    } else {
                        lemma_u8_facts(1, 0, 0, 0);
                    }
                }
            }
            if change {
                let old_l = l;
                l = nn + 1 - l;
                b = t;
                m = 1;
                proof {
                    lb = old_l as nat;
                }
            } else {
                m = m + 1;
            }
        }
        nn = nn + 1;
    }
    proof {
        assert(lfsr_generates(c@, l as nat, s@, n as nat));
    }
    l
}

} // verus!

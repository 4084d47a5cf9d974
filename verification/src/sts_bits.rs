//! Integer building blocks of the SP 800-22 statistical tests over a
//! NAPQES bitstream: the bitstream itself, bit patterns, aperiodic
//! templates, template matching and the random walk. Bits are `u8` values
//! 0 or 1.
use crate::aead::bytes_result;
use crate::legacy::{encrypt_bytes, v7_encrypt_outcome};
use crate::primitives::{char_from_u32, push_char};
use vstd::prelude::*;

verus! {

/// Every element is a bit.
pub open spec fn all_bits(s: Seq<u8>) -> bool {
    forall|i: int| 0 <= i < s.len() ==> #[trigger] s[i] <= 1
}

/// The value of a bit string read most significant bit first.
pub open spec fn bits_value(b: Seq<u8>) -> nat
    decreases b.len(),
{
    if b.len() == 0 {
        0
    } else {
        bits_value(b.drop_last()) * 2 + b.last() as nat
    }
}

proof fn lemma_bits_value_bound(b: Seq<u8>)
    requires
        all_bits(b),
    ensures
        bits_value(b) < vstd::arithmetic::power2::pow2(b.len()),
    decreases b.len(),
{
    if b.len() == 0 {
        vstd::arithmetic::power2::lemma2_to64();
    } else {
        assert(all_bits(b.drop_last()));
        lemma_bits_value_bound(b.drop_last());
        vstd::arithmetic::power2::lemma_pow2_unfold(b.len());
        assert(b.last() <= 1);
    }
}

/// The value of at most 64 bits, most significant first.
pub fn bits_to_usize(b: &[u8]) -> (r: u64)
    requires
        all_bits(b@),
        b@.len() <= 64,
    ensures
        r == bits_value(b@),
{
    let mut acc: u64 = 0;
    let mut i: usize = 0;
    while i < b.len()
        invariant
            i <= b@.len() <= 64,
            all_bits(b@),
            acc == bits_value(b@.subrange(0, i as int)),
        decreases b@.len() - i,
    {
        proof {
            assert(b@.subrange(0, i + 1).drop_last() =~= b@.subrange(0, i as int));
            assert(all_bits(b@.subrange(0, i as int)));
            lemma_bits_value_bound(b@.subrange(0, i as int));
            if i < 63 {
                vstd::arithmetic::power2::lemma_pow2_strictly_increases(i as nat, 63);
            }
            vstd::arithmetic::power2::lemma2_to64();
            vstd::arithmetic::power2::lemma2_to64_rest();
            assert(b[i as int] <= 1);
            assert(acc < 0x8000_0000_0000_0000);
        }
        acc = acc * 2 + b[i] as u64;
        i = i + 1;
    }
    assert(b@.subrange(0, i as int) =~= b@);
    acc
}

/// `t` repeats with period `p`: `t[i] == t[i + p]` wherever both exist.
pub open spec fn has_period(t: Seq<u8>, p: int) -> bool {
    forall|i: int| 0 <= i < t.len() - p ==> #[trigger] t[i] == t[i + p]
}

/// No proper period: `t` does not overlap itself.
pub open spec fn aperiodic(t: Seq<u8>) -> bool {
    forall|p: int| 1 <= p < t.len() ==> !#[trigger] has_period(t, p)
}

/// Whether a template has no proper period.
pub fn is_aperiodic(t: &[u8]) -> (r: bool)
    ensures
        r == aperiodic(t@),
{
    let m = t.len();
    let mut p: usize = 1;
    while p < m
        invariant
            1 <= p,
            m == t@.len(),
            forall|q: int| 1 <= q < p && q < m ==> !#[trigger] has_period(t@, q),
        decreases m - p,
    {
        let mut periodic = true;
        let mut i: usize = 0;
        while i < m - p
            invariant
                p < m == t@.len(),
                i <= m - p,
                periodic == (forall|j: int| 0 <= j < i ==> #[trigger] t@[j] == t@[j + p]),
            decreases m - p - i,
        {
            if t[i] != t[i + p] {
                periodic = false;
            }
            i = i + 1;
        }
        if periodic {
            assert(has_period(t@, p as int));
            return false;
        }
        p = p + 1;
    }
    true
}

/// The `m` bits of `v`, most significant first.
pub open spec fn template_of(v: nat, m: nat) -> Seq<u8> {
    Seq::new(m, |i: int| ((v / vstd::arithmetic::power2::pow2((m - 1 - i) as nat)) % 2) as u8)
}

/// The aperiodic templates of `m` bits among the values below `v`, in
/// increasing order of value.
pub open spec fn templates_below(v: nat, m: nat) -> Seq<Seq<u8>>
    decreases v,
{
    if v == 0 {
        seq![]
    } else {
        let prev = templates_below((v - 1) as nat, m);
        if aperiodic(template_of((v - 1) as nat, m)) {
            prev.push(template_of((v - 1) as nat, m))
        } else {
            prev
        }
    }
}

fn template(v: u32, m: usize) -> (t: Vec<u8>)
    requires
        m <= 31,
    ensures
        t@ == template_of(v as nat, m as nat),
{
    let mut t: Vec<u8> = Vec::new();
    let mut k: usize = 0;
    while k < m
        invariant
            k <= m <= 31,
            t@.len() == k,
            forall|i: int| 0 <= i < k ==> t@[i] == template_of(v as nat, m as nat)[i],
        decreases m - k,
    {
        let shift = (m - 1 - k) as u32;
        let bit = ((v >> shift) & 1) as u8;
        proof {
            vstd::arithmetic::power2::lemma_pow2_pos(shift as nat);
            assert(((v >> shift) & 1) as nat == (v as nat / vstd::arithmetic::power2::pow2(
                shift as nat,
            )) % 2) by {
                vstd::bits::lemma_u32_shr_is_div(v, shift);
                let q = v >> shift;
                assert(q & 1 == q % 2) by (bit_vector);
            }
        }
        t.push(bit);
        k = k + 1;
    }
    assert(t@ =~= template_of(v as nat, m as nat));
    t
}

/// All aperiodic templates of `m` bits, in increasing order of value.
pub fn aperiodic_templates(m: usize) -> (out: Vec<Vec<u8>>)
    requires
        m <= 31,
    ensures
        out@.len() == templates_below(vstd::arithmetic::power2::pow2(m as nat), m as nat).len(),
        forall|i: int|
            0 <= i < out@.len() ==> #[trigger] out@[i]@ == templates_below(
                vstd::arithmetic::power2::pow2(m as nat),
                m as nat,
            )[i],
{
    let ghost mm = m as nat;
    let limit: u32 = 1u32 << (m as u32);
    proof {
        vstd::arithmetic::power2::lemma_pow2_strictly_increases(m as nat, 32);
        vstd::arithmetic::power2::lemma2_to64();
        vstd::arithmetic::power2::lemma_pow2_pos(m as nat);
        vstd::bits::lemma_u32_shl_is_mul(1, m as u32);
    }
    let mut out: Vec<Vec<u8>> = Vec::new();
    let mut v: u32 = 0;
    while v < limit
        invariant
            m <= 31,
            v <= limit,
            limit as nat == vstd::arithmetic::power2::pow2(mm),
            mm == m,
            out@.len() == templates_below(v as nat, mm).len(),
            forall|i: int| 0 <= i < out@.len() ==> #[trigger] out@[i]@ == templates_below(v as nat, mm)[i],
        decreases limit - v,
    {
        let t = template(v, m);
        if is_aperiodic(t.as_slice()) {
            out.push(t);
        }
        v = v + 1;
    }
    out
}

/// Non-overlapping matches of `tmpl` in `block` counted from position `i`:
/// a match skips past itself, a mismatch moves on by one.
pub open spec fn notm_count(block: Seq<u8>, tmpl: Seq<u8>, i: nat) -> nat
    decreases block.len() + 1 - i,
{
    if tmpl.len() == 0 || i + tmpl.len() > block.len() {
        0
    } else if block.subrange(i as int, (i + tmpl.len()) as int) == tmpl {
        1 + notm_count(block, tmpl, i + tmpl.len())
    } else {
        notm_count(block, tmpl, i + 1)
    }
}

/// Number of non-overlapping occurrences of a non-empty template, scanned
/// from the left.
pub fn count_notm(block: &[u8], tmpl: &[u8]) -> (r: u64)
    requires
        tmpl@.len() > 0,
    ensures
        r == notm_count(block@, tmpl@, 0),
{
    let m = tmpl.len();
    let n = block.len();
    let mut count: u64 = 0;
    let mut i: usize = 0;
    while i <= n && m <= n - i
        invariant
            m == tmpl@.len() > 0,
            n == block@.len(),
            count <= i,
            count + notm_count(block@, tmpl@, i as nat) == notm_count(block@, tmpl@, 0),
        decreases n + 1 - i,
    {
        let mut same = true;
        let mut j: usize = 0;
        while j < m
            invariant
                m == tmpl@.len(),
                i + m <= n == block@.len(),
                j <= m,
                same == (forall|k: int| 0 <= k < j ==> #[trigger] block@[i + k] == tmpl@[k]),
            decreases m - j,
        {
            if block[i + j] != tmpl[j] {
                same = false;
            }
            j = j + 1;
        }
        proof {
            if same {
                assert forall|k: int| 0 <= k < m implies block@.subrange(i as int, (i + m) as int)[k]
                    == tmpl@[k] by {
                    assert(block@[i + k] == tmpl@[k]);
                }
                assert(block@.subrange(i as int, (i + m) as int) =~= tmpl@);
            } else {
                assert(exists|k: int| 0 <= k < m && #[trigger] block@[i + k] != tmpl@[k]);
                let k = choose|k: int| 0 <= k < m && #[trigger] block@[i + k] != tmpl@[k];
                assert(block@.subrange(i as int, (i + m) as int)[k] == block@[i + k]);
                assert(block@.subrange(i as int, (i + m) as int) != tmpl@);
            }
        }
        if same {
            count = count + 1;
            i = i + m;
        } else {
            i = i + 1;
        }
    }
    count
}

/// Step `b` of the random walk: up for a one, down for a zero.
pub open spec fn step(b: u8) -> int {
    if b == 1 {
        1
    } else {
        -1
    }
}

/// Position of the walk after the first `k` bits.
pub open spec fn walk_at(bits: Seq<u8>, k: nat) -> int
    decreases k,
{
    if k == 0 {
        0
    } else {
        walk_at(bits, (k - 1) as nat) + step(bits[k - 1])
    }
}

/// Returns to zero among the walk positions `1..=k`.
pub open spec fn zero_visits(bits: Seq<u8>, k: nat) -> nat
    decreases k,
{
    if k == 0 {
        0
    } else {
        zero_visits(bits, (k - 1) as nat) + if walk_at(bits, k) == 0 {
            1nat
        } else {
            0nat
        }
    }
}

proof fn lemma_walk_bound(bits: Seq<u8>, k: nat)
    ensures
        -(k as int) <= walk_at(bits, k) <= k,
        zero_visits(bits, k) <= k,
    decreases k,
{
    if k > 0 {
        lemma_walk_bound(bits, (k - 1) as nat);
    }
}

/// The walk after `k` bits stands at the number of ones among them minus
/// the number of zeros: each one steps up, each zero steps down.
pub proof fn lemma_walk_counts_ones(bits: Seq<u8>, k: nat)
    requires
        all_bits(bits),
        k <= bits.len(),
    ensures
        walk_at(bits, k) == 2 * bits.take(k as int).filter(|b: u8| b == 1).len() - k,
    decreases k,
{
    reveal(Seq::filter);
    if k > 0 {
        lemma_walk_counts_ones(bits, (k - 1) as nat);
        assert(bits.take(k as int).drop_last() =~= bits.take(k - 1));
        assert(bits.take(k as int).last() == bits[k - 1]);
        assert(bits[k - 1] <= 1);
    }
}

/// The partial sums of the ±1 walk of `bits` (starting at 0) and the
/// number of returns to zero after the start.
pub fn build_walk(bits: &[u8]) -> (r: (Vec<i64>, usize))
    requires
        bits@.len() < 0x7FFF_FFFF_FFFF_FFFF,
    ensures
        r.0@.len() == bits@.len() + 1,
        forall|k: int| 0 <= k <= bits@.len() ==> #[trigger] r.0@[k] == walk_at(bits@, k as nat),
        r.1 == zero_visits(bits@, bits@.len()),
{
    let n = bits.len();
    let mut walk: Vec<i64> = Vec::new();
    walk.push(0);
    let mut zeros: usize = 0;
    let mut i: usize = 0;
    while i < n
        invariant
            i <= n == bits@.len() < 0x7FFF_FFFF_FFFF_FFFF,
            walk@.len() == i + 1,
            forall|k: int| 0 <= k <= i ==> #[trigger] walk@[k] == walk_at(bits@, k as nat),
            zeros == zero_visits(bits@, i as nat),
        decreases n - i,
    {
        proof {
            lemma_walk_bound(bits@, i as nat);
            lemma_walk_bound(bits@, (i + 1) as nat);
        }
        let next = if bits[i] == 1 {
            walk[i] + 1
        } else {
            walk[i] - 1
        };
        walk.push(next);
        if next == 0 {
            zeros = zeros + 1;
        }
        i = i + 1;
    }
    (walk, zeros)
}

/// The key the bitstream is encrypted under.
pub const STS_KEY: [u64; 10] = [
    1_000_003, 1_000_033, 1_000_037, 1_000_039, 1_000_081, 1_000_099, 1_000_117, 1_000_121,
    1_000_133, 1_000_151,
];

/// Code points per message of the bitstream.
pub const STS_CHUNK: usize = 480;

/// How often the walk stands at `x`.
pub open spec fn visits_of(walk: Seq<i64>, x: i64) -> nat
    decreases walk.len(),
{
    if walk.len() == 0 {
        0
    } else {
        visits_of(walk.drop_last(), x) + if walk.last() == x {
            1nat
        } else {
            0nat
        }
    }
}

/// The visits to `x` are the positions of the walk equal to `x`: their
/// number is the length of the walk filtered to `x`.
pub proof fn lemma_visits_are_filter(walk: Seq<i64>, x: i64)
    ensures
        visits_of(walk, x) == walk.filter(|s: i64| s == x).len(),
    decreases walk.len(),
{
    reveal(Seq::filter);
    if walk.len() > 0 {
        lemma_visits_are_filter(walk.drop_last(), x);
    }
}

/// How often the walk stands at `x`.
pub fn state_visit_count(walk: &[i64], x: i64) -> (r: u64)
    ensures
        r == visits_of(walk@, x),
{
    let mut count: u64 = 0;
    let mut i: usize = 0;
    while i < walk.len()
        invariant
            i <= walk@.len(),
            count == visits_of(walk@.subrange(0, i as int), x),
            count <= i,
        decreases walk@.len() - i,
    {
        proof {
            assert(walk@.subrange(0, i + 1).drop_last() =~= walk@.subrange(0, i as int));
        }
        if walk[i] == x {
            count = count + 1;
        }
        i = i + 1;
    }
    proof {
        assert(walk@.subrange(0, i as int) =~= walk@);
    }
    count
}

/// The excursion bookkeeping after the positions `steps` of a walk that
/// started at 0: whether an excursion (a stretch away from 0) is open, the
/// visits to `x` counted in it, and, for `k` in `0..6`, how many completed
/// excursions visited `x` exactly `k` times (`5`: five times or more).
pub open spec fn excursion_state(steps: Seq<i64>, x: i64) -> (bool, nat, Seq<nat>)
    decreases steps.len(),
{
    if steps.len() == 0 {
        (false, 0, seq![0nat, 0, 0, 0, 0, 0])
    } else {
        let prev = excursion_state(steps.drop_last(), x);
        let s = steps.last();
        let open = prev.0 || s != 0;
        let v = if open && s == x {
            prev.1 + 1
        } else {
            prev.1
        };
        if open && s == 0 {
            let cat = if v < 5 {
                v
            } else {
                5
            };
            (false, 0, prev.2.update(cat as int, prev.2[cat as int] + 1))
        } else {
            (open, v, prev.2)
        }
    }
}

/// The histogram with a single excursion in category `cat`.
pub open spec fn single_count(cat: nat) -> Seq<nat> {
    Seq::new(6, |k: int| if k == cat { 1nat } else { 0nat })
}

/// The histograms `h` and `g` added entry by entry.
pub open spec fn hist_sum(h: Seq<nat>, g: Seq<nat>) -> Seq<nat> {
    Seq::new(6, |k: int| h[k] + g[k])
}

proof fn lemma_excursion_open_prefix(e: Seq<i64>, x: i64, k: nat)
    requires
        1 <= k < e.len(),
        forall|i: int| 0 <= i < e.len() - 1 ==> #[trigger] e[i] != 0,
    ensures
        excursion_state(e.take(k as int), x) == (true, visits_of(e.take(k as int), x), seq![
            0nat,
            0,
            0,
            0,
            0,
            0,
        ]),
    decreases k,
{
    let p = e.take(k as int);
    assert(p.drop_last() =~= e.take(k - 1));
    assert(p.last() == e[k - 1]);
    assert(e[k - 1] != 0);
    if k > 1 {
        lemma_excursion_open_prefix(e, x, (k - 1) as nat);
    } else {
        assert(e.take(0) =~= Seq::<i64>::empty());
        assert(excursion_state(e.take(0), x) == (false, 0nat, seq![0nat, 0, 0, 0, 0, 0]));
        assert(visits_of(e.take(0), x) == 0);
    }
    let prev = excursion_state(p.drop_last(), x);
    assert(visits_of(p, x) == visits_of(p.drop_last(), x) + if p.last() == x {
        1nat
    } else {
        0nat
    });
    assert(excursion_state(p, x) == (true, visits_of(p, x), prev.2));
}

/// One excursion: a walk segment that leaves 0 and stays away until it
/// returns to 0 at its last position. Its `x`-visits `v` are counted once,
/// in category `min(v, 5)`, and the bookkeeping is closed again.
pub proof fn lemma_single_excursion(e: Seq<i64>, x: i64)
    requires
        e.len() >= 2,
        forall|i: int| 0 <= i < e.len() - 1 ==> #[trigger] e[i] != 0,
        e.last() == 0,
    ensures
        excursion_state(e, x) == (false, 0nat, single_count(
            if visits_of(e, x) < 5 {
                visits_of(e, x)
            } else {
                5
            },
        )),
{
    let n = (e.len() - 1) as nat;
    lemma_excursion_open_prefix(e, x, n);
    assert(e.take(n as int) =~= e.drop_last());
    let v = visits_of(e, x);
    let cat: nat = if v < 5 {
        v
    } else {
        5
    };
    assert(seq![0nat, 0, 0, 0, 0, 0].update(cat as int, 1) =~= single_count(cat));
}

/// Counting is additive over closed pieces: once the bookkeeping is closed
/// after `a`, what follows is counted as if the walk started again, and the
/// histograms add up.
pub proof fn lemma_excursions_concat(a: Seq<i64>, b: Seq<i64>, x: i64)
    requires
        !excursion_state(a, x).0,
        excursion_state(a, x).1 == 0,
    ensures
        excursion_state(a + b, x).0 == excursion_state(b, x).0,
        excursion_state(a + b, x).1 == excursion_state(b, x).1,
        excursion_state(a + b, x).2 =~= hist_sum(excursion_state(a, x).2, excursion_state(b, x).2),
    decreases b.len(),
{
    lemma_excursion_hist_len(a, x);
    lemma_excursion_hist_len(b, x);
    if b.len() == 0 {
        assert(a + b =~= a);
    } else {
        assert((a + b).drop_last() =~= a + b.drop_last());
        assert((a + b).last() == b.last());
        lemma_excursions_concat(a, b.drop_last(), x);
        lemma_excursion_hist_len(b.drop_last(), x);
    }
}

/// A position at 0 outside an excursion counts nothing.
pub proof fn lemma_zero_counts_nothing(x: i64)
    ensures
        excursion_state(seq![0i64], x) == (false, 0nat, seq![0nat, 0, 0, 0, 0, 0]),
{
    let z = seq![0i64];
    assert(z.drop_last() =~= Seq::<i64>::empty());
    assert(z.last() == 0);
    assert(excursion_state(z.drop_last(), x) == (false, 0nat, seq![0nat, 0, 0, 0, 0, 0]));
}

/// For a walk (position 0 first), how many completed excursions visited `x`
/// exactly `k` times, for `k` in `0..5`, and five times or more (last entry).
pub fn excursion_visit_counts(walk: &[i64], x: i64) -> (nu: Vec<u64>)
    requires
        walk@.len() >= 1,
    ensures
        nu@.len() == 6,
        forall|k: int| 0 <= k < 6 ==> nu@[k] == #[trigger] excursion_state(walk@.skip(1), x).2[k],
{
    let mut nu: Vec<u64> = vec![0, 0, 0, 0, 0, 0];
    let mut open = false;
    let mut visits: u64 = 0;
    let mut i: usize = 1;
    while i < walk.len()
        invariant
            1 <= i <= walk@.len(),
            nu@.len() == 6,
            ({
                let st = excursion_state(walk@.subrange(1, i as int), x);
                &&& open == st.0
                &&& visits == st.1
                &&& forall|k: int| 0 <= k < 6 ==> nu@[k] == #[trigger] st.2[k]
            }),
            visits < i,
            forall|k: int| 0 <= k < 6 ==> #[trigger] nu@[k] < i,
        decreases walk@.len() - i,
    {
        let ghost st0 = excursion_state(walk@.subrange(1, i as int), x);
        proof {
            assert(walk@.subrange(1, i + 1).drop_last() =~= walk@.subrange(1, i as int));
            assert(st0.2.len() == 6) by {
                lemma_excursion_hist_len(walk@.subrange(1, i as int), x);
            }
        }
        let s = walk[i];
        if !open && s != 0 {
            open = true;
        }
        if open && s == x {
            visits = visits + 1;
        }
        if open && s == 0 {
            let cat: usize = if visits < 5 {
                visits as usize
            } else {
                5
            };
            let c = nu[cat];
            nu.set(cat, c + 1);
            visits = 0;
            open = false;
        }
        i = i + 1;
    }
    proof {
        assert(walk@.subrange(1, i as int) =~= walk@.skip(1));
    }
    nu
}

proof fn lemma_excursion_hist_len(steps: Seq<i64>, x: i64)
    ensures
        excursion_state(steps, x).2.len() == 6,
    decreases steps.len(),
{
    if steps.len() > 0 {
        lemma_excursion_hist_len(steps.drop_last(), x);
    }
}

/// Where message `c` starts in the cycle of the 95 printable ASCII
/// characters.
pub open spec fn sts_offset(c: nat) -> nat {
    (c * 480) % 95
}

/// Message `c` of the bitstream: 480 printable ASCII characters, cycling
/// through ` ` to `~` from its offset.
pub open spec fn sts_chunk(c: nat) -> Seq<char> {
    Seq::new(480, |k: int| (32 + (sts_offset(c) + k) % 95) as char)
}

fn chunk_text(off: usize) -> (s: String)
    requires
        off < 95,
    ensures
        s@ == Seq::new(480, |k: int| (32 + (off + k) % 95) as char),
{
    let mut s = String::new();
    let mut k: usize = 0;
    while k < STS_CHUNK
        invariant
            off < 95,
            k <= 480,
            s@ == Seq::new(k as nat, |q: int| (32 + (off + q) % 95) as char),
        decreases 480 - k,
    {
        let code = (32 + (off + k) % 95) as u32;
        let c = match char_from_u32(code) {
            Some(c) => c,
            None => ' ',
        };
        push_char(&mut s, c);
        proof {
            assert(s@ =~= Seq::new((k + 1) as nat, |q: int| (32 + (off + q) % 95) as char));
        }
        k = k + 1;
    }
    s
}

/// The v7 encryption of message `c`, whose characters start at `off`.
fn encrypt_chunk(c: usize, off: usize) -> (r: Result<Vec<u8>, String>)
    requires
        off < 95,
        off == sts_offset(c as nat),
    ensures
        v7_encrypt_outcome(STS_KEY@, seq![], sts_chunk(c as nat), bytes_result(r)),
{
    let text = chunk_text(off);
    assert(text@ =~= sts_chunk(c as nat));
    let aad: &[u8] = &[];
    assert(aad@ =~= seq![]);
    let r = encrypt_bytes(text.as_str(), &STS_KEY, aad);
    assert(v7_encrypt_outcome(STS_KEY@, aad@, text@, bytes_result(r)));
    r
}

/// The first `n` bits of `raw`, most significant bit of each byte first.
pub open spec fn unpack_bits(raw: Seq<u8>, n: nat) -> Seq<u8> {
    Seq::new(n, |i: int| (raw[i / 8] >> ((7 - i % 8) as u8)) & 1)
}

/// The messages `0..cts.len()` were encrypted into `cts` (v7, under
/// `STS_KEY`, no associated data).
pub open spec fn chunks_encrypted(cts: Seq<Seq<u8>>) -> bool {
    forall|i: int|
        0 <= i < cts.len() ==> v7_encrypt_outcome(
            STS_KEY@,
            seq![],
            sts_chunk(i as nat),
            Ok::<Seq<u8>, Seq<char>>(#[trigger] cts[i]),
        )
}

proof fn lemma_chunks_push(cts: Seq<Seq<u8>>, ct: Seq<u8>)
    requires
        chunks_encrypted(cts),
        v7_encrypt_outcome(
            STS_KEY@,
            seq![],
            sts_chunk(cts.len()),
            Ok::<Seq<u8>, Seq<char>>(ct),
        ),
    ensures
        chunks_encrypted(cts.push(ct)),
{
    assert forall|i: int| 0 <= i < cts.push(ct).len() implies v7_encrypt_outcome(
        STS_KEY@,
        seq![],
        sts_chunk(i as nat),
        Ok::<Seq<u8>, Seq<char>>(#[trigger] cts.push(ct)[i]),
    ) by {
        if i < cts.len() {
            assert(cts.push(ct)[i] == cts[i]);
        }
    }
}

proof fn lemma_offset_step(c: nat)
    ensures
        sts_offset(c + 1) == (sts_offset(c) + 5) % 95,
{
    assert(((c + 1) * 480) % 95 == ((c * 480) % 95 + 5) % 95) by (nonlinear_arith);
}

/// `n` bits made of v7 ciphertexts of the messages `0, 1, 2, ...` under
/// `STS_KEY`: the ciphertexts are concatenated and their bits read most
/// significant first. Fails only if an encryption does, with its error.
#[verifier::spinoff_prover]
#[verifier::rlimit(40)]
pub fn generate_bits(n: usize) -> (r: Result<Vec<u8>, String>)
    ensures
        match r {
            Ok(bits) => {
                &&& all_bits(bits@)
                &&& exists|cts: Seq<Seq<u8>>|
                    #[trigger] chunks_encrypted(cts) && cts.flatten().len() * 8 >= n && bits@
                        == unpack_bits(cts.flatten(), n as nat)
            },
            Err(e) => exists|c: nat|
                v7_encrypt_outcome(
                    STS_KEY@,
                    seq![],
                    #[trigger] sts_chunk(c),
                    Err::<Seq<u8>, Seq<char>>(e@),
                ),
        },
{
    let target = n / 8 + if n % 8 == 0 {
        0
    } else {
        1
    };
    let mut raw: Vec<u8> = Vec::new();
    let ghost mut cts: Seq<Seq<u8>> = seq![];
    let mut chunk_num: usize = 0;
    let mut off: usize = 0;
    while raw.len() < target
        invariant
            cts.len() == chunk_num,
            raw@ == cts.flatten(),
            chunks_encrypted(cts),
            raw@.len() >= 16 * chunk_num,
            off == sts_offset(chunk_num as nat),
            off < 95,
        decreases target - chunk_num,
    {
        let ct = match encrypt_chunk(chunk_num, off) {
            Ok(ct) => ct,
            Err(e) => {
                assert(v7_encrypt_outcome(
                    STS_KEY@,
                    seq![],
                    sts_chunk(chunk_num as nat),
                    Err::<Seq<u8>, Seq<char>>(e@),
                ));
                return Err(e);
            },
        };
        let ghost before = raw@;
        proof {
            cts.lemma_flatten_push(ct@);
            lemma_chunks_push(cts, ct@);
            cts = cts.push(ct@);
            lemma_offset_step(chunk_num as nat);
        }
        let mut i: usize = 0;
        while i < ct.len()
            invariant
                i <= ct@.len(),
                raw@ == before + ct@.subrange(0, i as int),
            decreases ct@.len() - i,
        {
            raw.push(ct[i]);
            proof {
                assert(ct@.subrange(0, i + 1) =~= ct@.subrange(0, i as int).push(ct@[i as int]));
            }
            i = i + 1;
        }
        proof {
            assert(ct@.subrange(0, i as int) =~= ct@);
        }
        chunk_num = chunk_num + 1;
        off = (off + 5) % 95;
    }
    let mut bits: Vec<u8> = Vec::new();
    let mut i: usize = 0;
    while i < n
        invariant
            i <= n,
            raw@.len() * 8 >= n,
            bits@ == unpack_bits(raw@, i as nat),
        decreases n - i,
    {
        let byte = raw[i / 8];
        let shift = (7 - i % 8) as u8;
        bits.push((byte >> shift) & 1);
        proof {
            assert(bits@ =~= unpack_bits(raw@, (i + 1) as nat));
        }
        i = i + 1;
    }
    proof {
        assert forall|k: int| 0 <= k < bits@.len() implies #[trigger] bits@[k] <= 1 by {
            let b = raw@[k / 8];
            let sh = (7 - k % 8) as u8;
            assert((b >> sh) & 1 <= 1) by (bit_vector);
        }
    }
    Ok(bits)
}

} // verus!

//! Rank over GF(2) of a 32 x 32 bit matrix, for the binary matrix rank
//! statistic: rows are `u32` words, bit `c` of row `r` is entry `(r, c)`.
use vstd::prelude::*;

verus! {

/// Bit `c` of `x`.
pub open spec fn bit_at(x: u32, c: u32) -> bool {
    (x >> c) & 1 == 1
}

/// The XOR of the rows that `sel` selects.
pub open spec fn xor_comb(rows: Seq<u32>, sel: Seq<bool>) -> u32
    decreases rows.len(),
{
    if rows.len() == 0 {
        0
    } else {
        xor_comb(rows.drop_last(), sel.drop_last()) ^ (if sel.last() {
            rows.last()
        } else {
            0
        })
    }
}

/// `v` is a GF(2) combination of `rows`.
pub open spec fn in_row_space(rows: Seq<u32>, v: u32) -> bool {
    exists|sel: Seq<bool>| sel.len() == rows.len() && #[trigger] xor_comb(rows, sel) == v
}

/// `a` and `b` have the same GF(2) row space.
pub open spec fn same_row_space(a: Seq<u32>, b: Seq<u32>) -> bool {
    forall|v: u32| #[trigger] in_row_space(a, v) <==> #[trigger] in_row_space(b, v)
}

/// `rows` is in reduced row echelon form with `rank` pivot rows: rows
/// `0..rank` each have a pivot column (`piv`) that is set in that row and
/// clear in every other row, and the remaining rows are zero. Such rows are
/// independent and span the row space, so `rank` is its dimension.
pub open spec fn reduced_echelon(rows: Seq<u32>, rank: nat, piv: Seq<u32>) -> bool {
    &&& rank <= rows.len()
    &&& piv.len() == rank
    &&& forall|i: int| 0 <= i < rank ==> #[trigger] piv[i] < 32
    &&& forall|i: int| 0 <= i < rank ==> bit_at(rows[i], #[trigger] piv[i])
    &&& forall|i: int, j: int|
        0 <= i < rank && 0 <= j < rows.len() && j != i ==> !bit_at(
            #[trigger] rows[j],
            #[trigger] piv[i],
        )
    &&& forall|j: int| rank <= j < rows.len() ==> #[trigger] rows[j] == 0
}

proof fn lemma_xor_facts(a: u32, b: u32, c: u32)
    ensures
        (a ^ b) ^ c == (a ^ c) ^ b,
        a ^ 0 == a,
        (a ^ b) ^ b == a,
        a ^ (a ^ b) == b,
        (a ^ b) ^ (a ^ b) == 0,
        (a ^ b) ^ c == a ^ (b ^ c),
{
    assert((a ^ b) ^ c == (a ^ c) ^ b) by (bit_vector);
    assert(a ^ 0 == a) by (bit_vector);
    assert((a ^ b) ^ b == a) by (bit_vector);
    assert(a ^ (a ^ b) == b) by (bit_vector);
    assert((a ^ b) ^ (a ^ b) == 0) by (bit_vector);
    assert((a ^ b) ^ c == a ^ (b ^ c)) by (bit_vector);
}

proof fn lemma_bit_xor(a: u32, b: u32, c: u32)
    requires
        c < 32,
    ensures
        bit_at(a ^ b, c) == (bit_at(a, c) != bit_at(b, c)),
{
    assert(((a ^ b) >> c) & 1 == 1 <==> (((a >> c) & 1 == 1) != ((b >> c) & 1 == 1)))
        by (bit_vector)
        requires
            c < 32,
    ;
}

proof fn lemma_no_bits_zero(x: u32)
    requires
        forall|c: u32| c < 32 ==> !#[trigger] bit_at(x, c),
    ensures
        x == 0,
{
    assert(!bit_at(x, 0u32));
    assert(!bit_at(x, 1u32));
    assert(!bit_at(x, 2u32));
    assert(!bit_at(x, 3u32));
    assert(!bit_at(x, 4u32));
    assert(!bit_at(x, 5u32));
    assert(!bit_at(x, 6u32));
    assert(!bit_at(x, 7u32));
    assert(!bit_at(x, 8u32));
    assert(!bit_at(x, 9u32));
    assert(!bit_at(x, 10u32));
    assert(!bit_at(x, 11u32));
    assert(!bit_at(x, 12u32));
    assert(!bit_at(x, 13u32));
    assert(!bit_at(x, 14u32));
    assert(!bit_at(x, 15u32));
    assert(!bit_at(x, 16u32));
    assert(!bit_at(x, 17u32));
    assert(!bit_at(x, 18u32));
    assert(!bit_at(x, 19u32));
    assert(!bit_at(x, 20u32));
    assert(!bit_at(x, 21u32));
    assert(!bit_at(x, 22u32));
    assert(!bit_at(x, 23u32));
    assert(!bit_at(x, 24u32));
    assert(!bit_at(x, 25u32));
    assert(!bit_at(x, 26u32));
    assert(!bit_at(x, 27u32));
    assert(!bit_at(x, 28u32));
    assert(!bit_at(x, 29u32));
    assert(!bit_at(x, 30u32));
    assert(!bit_at(x, 31u32));
    assert(x == 0) by (bit_vector)
        requires
            (x >> 0u32) & 1 != 1,
            (x >> 1u32) & 1 != 1,
            (x >> 2u32) & 1 != 1,
            (x >> 3u32) & 1 != 1,
            (x >> 4u32) & 1 != 1,
            (x >> 5u32) & 1 != 1,
            (x >> 6u32) & 1 != 1,
            (x >> 7u32) & 1 != 1,
            (x >> 8u32) & 1 != 1,
            (x >> 9u32) & 1 != 1,
            (x >> 10u32) & 1 != 1,
            (x >> 11u32) & 1 != 1,
            (x >> 12u32) & 1 != 1,
            (x >> 13u32) & 1 != 1,
            (x >> 14u32) & 1 != 1,
            (x >> 15u32) & 1 != 1,
            (x >> 16u32) & 1 != 1,
            (x >> 17u32) & 1 != 1,
            (x >> 18u32) & 1 != 1,
            (x >> 19u32) & 1 != 1,
            (x >> 20u32) & 1 != 1,
            (x >> 21u32) & 1 != 1,
            (x >> 22u32) & 1 != 1,
            (x >> 23u32) & 1 != 1,
            (x >> 24u32) & 1 != 1,
            (x >> 25u32) & 1 != 1,
            (x >> 26u32) & 1 != 1,
            (x >> 27u32) & 1 != 1,
            (x >> 28u32) & 1 != 1,
            (x >> 29u32) & 1 != 1,
            (x >> 30u32) & 1 != 1,
            (x >> 31u32) & 1 != 1,
    ;
}

/// Replacing row `r` by `x` changes the combination by the difference,
/// where `r` is selected.
proof fn lemma_comb_update_row(rows: Seq<u32>, sel: Seq<bool>, r: int, x: u32)
    requires
        sel.len() == rows.len(),
        0 <= r < rows.len(),
    ensures
        xor_comb(rows.update(r, x), sel) == xor_comb(rows, sel) ^ (if sel[r] {
            rows[r] ^ x
        } else {
            0
        }),
    decreases rows.len(),
{
    let n = rows.len() - 1;
    let up = rows.update(r, x);
    assert(up.drop_last() =~= if r < n {
        rows.drop_last().update(r, x)
    } else {
        rows.drop_last()
    });
    let base = xor_comb(rows.drop_last(), sel.drop_last());
    let t = if sel.last() {
        rows.last()
    } else {
        0
    };
    if r < n {
        lemma_comb_update_row(rows.drop_last(), sel.drop_last(), r, x);
        let d = if sel[r] {
            rows[r] ^ x
        } else {
            0
        };
        lemma_xor_facts(base, d, t);
    } else {
        let t2 = if sel.last() {
            x
        } else {
            0
        };
        lemma_xor_facts(base, t, t2);
        lemma_xor_facts(rows[r], x, 0);
        lemma_xor_facts(base, rows[r], x);
        lemma_xor_facts(base, 0, 0);
        assert(t ^ (rows[r] ^ x) == t2 || !sel.last()) by {
            if sel.last() {
                lemma_xor_facts(rows[r], x, 0);
                assert(rows[r] ^ (rows[r] ^ x) == x);
            }
        }
        if sel.last() {
            assert((base ^ rows[r]) ^ (rows[r] ^ x) == base ^ x) by {
                lemma_xor_facts(base, rows[r], rows[r] ^ x);
                lemma_xor_facts(rows[r], x, 0);
            }
        }
    }
}

/// Changing which way row `k` is selected changes the combination by
/// row `k`.
proof fn lemma_comb_update_sel(rows: Seq<u32>, sel: Seq<bool>, k: int, b: bool)
    requires
        sel.len() == rows.len(),
        0 <= k < rows.len(),
    ensures
        xor_comb(rows, sel.update(k, b)) == xor_comb(rows, sel) ^ (if sel[k] != b {
            rows[k]
        } else {
            0
        }),
    decreases rows.len(),
{
    let n = rows.len() - 1;
    let s2 = sel.update(k, b);
    assert(s2.drop_last() =~= if k < n {
        sel.drop_last().update(k, b)
    } else {
        sel.drop_last()
    });
    let base = xor_comb(rows.drop_last(), sel.drop_last());
    let t = if sel.last() {
        rows.last()
    } else {
        0
    };
    if k < n {
        lemma_comb_update_sel(rows.drop_last(), sel.drop_last(), k, b);
        let d = if sel[k] != b {
            rows[k]
        } else {
            0
        };
        lemma_xor_facts(base, d, t);
    } else {
        lemma_xor_facts(base, rows[k], 0);
        lemma_xor_facts(base, 0, 0);
        lemma_xor_facts(base, rows[k], rows[k]);
    }
}

proof fn lemma_same_trans(a: Seq<u32>, b: Seq<u32>, c: Seq<u32>)
    requires
        same_row_space(a, b),
        same_row_space(b, c),
    ensures
        same_row_space(a, c),
{
    assert forall|v: u32| in_row_space(a, v) <==> in_row_space(c, v) by {
        assert(in_row_space(a, v) <==> in_row_space(b, v));
        assert(in_row_space(b, v) <==> in_row_space(c, v));
    }
}

/// Adding row `k` to row `r` keeps every combination of the new rows in
/// the old row space.
proof fn lemma_rowop_into(rows: Seq<u32>, r: int, k: int, v: u32)
    requires
        0 <= r < rows.len(),
        0 <= k < rows.len(),
        r != k,
        in_row_space(rows.update(r, rows[r] ^ rows[k]), v),
    ensures
        in_row_space(rows, v),
{
    let rows2 = rows.update(r, rows[r] ^ rows[k]);
    let sel = choose|sel: Seq<bool>| sel.len() == rows2.len() && #[trigger] xor_comb(rows2, sel) == v;
    lemma_comb_update_row(rows, sel, r, rows[r] ^ rows[k]);
    let sel2 = sel.update(k, sel[k] != sel[r]);
    lemma_comb_update_sel(rows, sel, k, sel[k] != sel[r]);
    lemma_xor_facts(rows[r], rows[k], 0);
    assert(rows[r] ^ (rows[r] ^ rows[k]) == rows[k]);
    assert(xor_comb(rows, sel2) == v);
}

/// Adding row `k` to row `r` keeps the row space.
proof fn lemma_rowop_space(rows: Seq<u32>, r: int, k: int)
    requires
        0 <= r < rows.len(),
        0 <= k < rows.len(),
        r != k,
    ensures
        same_row_space(rows.update(r, rows[r] ^ rows[k]), rows),
{
    let rows2 = rows.update(r, rows[r] ^ rows[k]);
    assert forall|v: u32| in_row_space(rows2, v) <==> in_row_space(rows, v) by {
        if in_row_space(rows2, v) {
            lemma_rowop_into(rows, r, k, v);
        }
        if in_row_space(rows, v) {
            lemma_xor_facts(rows[r], rows[k], 0);
            assert(rows2.update(r, rows2[r] ^ rows2[k]) =~= rows);
            lemma_rowop_into(rows2, r, k, v);
        }
    }
}

proof fn lemma_swap_algebra(x: u32, a: u32, b: u32, si: bool, sj: bool)
    ensures
        (x ^ (if si {
            a ^ b
        } else {
            0
        })) ^ (if sj {
            b ^ a
        } else {
            0
        }) == (x ^ (if si != sj {
            a
        } else {
            0
        })) ^ (if si != sj {
            b
        } else {
            0
        }),
{
    if si && sj {
        assert((x ^ (a ^ b)) ^ (b ^ a) == (x ^ 0) ^ 0) by (bit_vector);
    } else if si {
        assert((x ^ (a ^ b)) ^ 0 == (x ^ a) ^ b) by (bit_vector);
    } else if sj {
        assert((x ^ 0) ^ (b ^ a) == (x ^ a) ^ b) by (bit_vector);
    } else {
        assert((x ^ 0) ^ 0 == (x ^ 0) ^ 0);
    }
}

/// Swapping rows `i` and `j` keeps every combination in the row space.
proof fn lemma_swap_into(rows: Seq<u32>, i: int, j: int, v: u32)
    requires
        0 <= i < rows.len(),
        0 <= j < rows.len(),
        i != j,
        in_row_space(rows.update(i, rows[j]).update(j, rows[i]), v),
    ensures
        in_row_space(rows, v),
{
    let mid = rows.update(i, rows[j]);
    let rows2 = mid.update(j, rows[i]);
    let sel = choose|sel: Seq<bool>| sel.len() == rows2.len() && #[trigger] xor_comb(rows2, sel) == v;
    lemma_comb_update_row(rows, sel, i, rows[j]);
    lemma_comb_update_row(mid, sel, j, rows[i]);
    let s1 = sel.update(i, sel[j]);
    let s2 = s1.update(j, sel[i]);
    lemma_comb_update_sel(rows, sel, i, sel[j]);
    lemma_comb_update_sel(rows, s1, j, sel[i]);
    assert(mid[j] == rows[j]);
    assert(s1[j] == sel[j]);
    lemma_swap_algebra(xor_comb(rows, sel), rows[i], rows[j], sel[i], sel[j]);
    assert(xor_comb(rows, s2) == v);
}

/// Swapping rows `i` and `j` keeps the row space.
proof fn lemma_swap_space(rows: Seq<u32>, i: int, j: int)
    requires
        0 <= i < rows.len(),
        0 <= j < rows.len(),
    ensures
        same_row_space(rows.update(i, rows[j]).update(j, rows[i]), rows),
{
    let rows2 = rows.update(i, rows[j]).update(j, rows[i]);
    if i == j {
        assert(rows2 =~= rows);
    } else {
        assert forall|v: u32| in_row_space(rows2, v) <==> in_row_space(rows, v) by {
            if in_row_space(rows2, v) {
                lemma_swap_into(rows, i, j, v);
            }
            if in_row_space(rows, v) {
                assert(rows2.update(i, rows2[j]).update(j, rows2[i]) =~= rows);
                lemma_swap_into(rows2, i, j, v);
            }
        }
    }
}

proof fn lemma_zero_bits(c: u32)
    ensures
        !bit_at(0, c),
{
    assert((0u32 >> c) & 1 == 0) by (bit_vector);
}

proof fn lemma_pivot_bit_prefix(
    rows: Seq<u32>,
    rank: nat,
    piv: Seq<u32>,
    sel: Seq<bool>,
    i: int,
    n: nat,
)
    requires
        reduced_echelon(rows, rank, piv),
        sel.len() == rows.len(),
        0 <= i < rank,
        n <= rows.len(),
    ensures
        bit_at(xor_comb(rows.take(n as int), sel.take(n as int)), piv[i]) == (i < n && sel[i]),
    decreases n,
{
    if n == 0 {
        assert(xor_comb(rows.take(0), sel.take(0)) == 0);
        lemma_zero_bits(piv[i]);
    } else {
        let m = (n - 1) as nat;
        lemma_pivot_bit_prefix(rows, rank, piv, sel, i, m);
        assert(rows.take(n as int).drop_last() =~= rows.take(m as int));
        assert(sel.take(n as int).drop_last() =~= sel.take(m as int));
        let prev = xor_comb(rows.take(m as int), sel.take(m as int));
        let row = rows[m as int];
        let t = if sel[m as int] {
            row
        } else {
            0
        };
        assert(piv[i] < 32);
        lemma_bit_xor(prev, t, piv[i]);
        if sel[m as int] {
            if m as int != i {
                assert(!bit_at(rows[m as int], piv[i]));
            }
        } else {
            lemma_zero_bits(piv[i]);
        }
    }
}

/// The pivot rows of a reduced echelon form are independent: a selection
/// that takes any of them never XORs to zero (bit `piv[i]` of the result is
/// whether row `i` was taken).
pub proof fn lemma_echelon_independent(rows: Seq<u32>, rank: nat, piv: Seq<u32>, sel: Seq<bool>)
    requires
        reduced_echelon(rows, rank, piv),
        sel.len() == rows.len(),
    ensures
        forall|i: int| 0 <= i < rank ==> bit_at(xor_comb(rows, sel), #[trigger] piv[i]) == sel[i],
        (exists|i: int| 0 <= i < rank && #[trigger] sel[i]) ==> xor_comb(rows, sel) != 0,
{
    assert(rows.take(rows.len() as int) =~= rows);
    assert(sel.take(sel.len() as int) =~= sel);
    assert forall|i: int| 0 <= i < rank implies bit_at(xor_comb(rows, sel), #[trigger] piv[i])
        == sel[i] by {
        lemma_pivot_bit_prefix(rows, rank, piv, sel, i, rows.len());
    }
    if exists|i: int| 0 <= i < rank && #[trigger] sel[i] {
        let i = choose|i: int| 0 <= i < rank && #[trigger] sel[i];
        assert(bit_at(xor_comb(rows, sel), piv[i]));
        let x = xor_comb(rows, sel);
        let c = piv[i];
        if x == 0 {
            lemma_zero_bits(c);
        }
    }
}

/// The GF(2) rank of the 32 x 32 matrix `mat`, by Gauss-Jordan
/// elimination, which leaves `mat` in reduced row echelon form with the same
/// row space: `rank` independent pivot rows spanning it, then zero rows.
pub fn gf2_rank32(mat: &mut [u32; 32]) -> (rank: usize)
    ensures
        rank <= 32,
        same_row_space(final(mat)@, old(mat)@),
        exists|piv: Seq<u32>| #[trigger] reduced_echelon(final(mat)@, rank as nat, piv),
{
    let ghost orig = mat@;
    let ghost mut piv: Seq<u32> = seq![];
    let mut rank: usize = 0;
    let mut col: u32 = 0;
    assert(same_row_space(mat@, orig));
    while col < 32
        invariant
            mat@.len() == 32,
            orig.len() == 32,
            rank <= col <= 32,
            piv.len() == rank,
            same_row_space(mat@, orig),
            forall|i: int| 0 <= i < rank ==> #[trigger] piv[i] < col,
            forall|i: int| 0 <= i < rank ==> bit_at(mat@[i], #[trigger] piv[i]),
            forall|i: int, j: int|
                0 <= i < rank && 0 <= j < 32 && j != i ==> !bit_at(
                    #[trigger] mat@[j],
                    #[trigger] piv[i],
                ),
            forall|j: int, c: u32| rank <= j < 32 && c < col ==> !#[trigger] bit_at(mat@[j], c),
        decreases 32 - col,
    {
        let mut p: usize = rank;
        while p < 32 && (mat[p] >> col) & 1 != 1
            invariant
                rank <= p <= 32,
                col < 32,
                mat@.len() == 32,
                forall|q: int| rank <= q < p ==> !bit_at(#[trigger] mat@[q], col),
            decreases 32 - p,
        {
            p = p + 1;
        }
        if p < 32 {
            let ghost before = mat@;
            let a = mat[rank];
            let b = mat[p];
            mat[rank] = b;
            mat[p] = a;
            proof {
                assert(mat@ =~= before.update(rank as int, before[p as int]).update(
                    p as int,
                    before[rank as int],
                ));
                lemma_swap_space(before, rank as int, p as int);
                lemma_same_trans(mat@, before, orig);
            }
            let pivot_row = mat[rank];
            assert(bit_at(pivot_row, col));
            assert forall|i: int| 0 <= i < rank implies !bit_at(pivot_row, #[trigger] piv[i]) by {
                assert(!bit_at(before[p as int], piv[i]));
            }
            assert forall|c: u32| c < col implies !bit_at(pivot_row, c) by {
                assert(!bit_at(before[p as int], c));
            }
            let mut r: usize = 0;
            while r < 32
                invariant
                    mat@.len() == 32,
                    orig.len() == 32,
                    rank < 32,
                    col < 32,
                    rank <= col,
                    r <= 32,
                    piv.len() == rank,
                    mat@[rank as int] == pivot_row,
                    bit_at(pivot_row, col),
                    forall|i: int| 0 <= i < rank ==> #[trigger] piv[i] < col,
                    forall|i: int| 0 <= i < rank ==> !bit_at(pivot_row, #[trigger] piv[i]),
                    forall|c: u32| c < col ==> !#[trigger] bit_at(pivot_row, c),
                    forall|i: int| 0 <= i < rank ==> bit_at(mat@[i], #[trigger] piv[i]),
                    forall|i: int, j: int|
                        0 <= i < rank && 0 <= j < 32 && j != i ==> !bit_at(
                            #[trigger] mat@[j],
                            #[trigger] piv[i],
                        ),
                    forall|j: int, c: u32|
                        rank < j < 32 && c < col ==> !#[trigger] bit_at(mat@[j], c),
                    forall|q: int| 0 <= q < r && q != rank ==> !bit_at(#[trigger] mat@[q], col),
                    same_row_space(mat@, orig),
                decreases 32 - r,
            {
                if r != rank && (mat[r] >> col) & 1 == 1 {
                    let ghost m0 = mat@;
                    let old_row = mat[r];
                    let new_row = old_row ^ pivot_row;
                    mat[r] = new_row;
                    proof {
                        assert(mat@ =~= m0.update(r as int, m0[r as int] ^ m0[rank as int]));
                        lemma_rowop_space(m0, r as int, rank as int);
                        lemma_same_trans(mat@, m0, orig);
                        lemma_bit_xor(old_row, pivot_row, col);
                        assert forall|i: int| 0 <= i < rank implies bit_at(
                            mat@[i],
                            #[trigger] piv[i],
                        ) by {
                            if i == r {
                                lemma_bit_xor(old_row, pivot_row, piv[i]);
                            }
                        }
                        assert forall|i: int, j: int|
                            0 <= i < rank && 0 <= j < 32 && j != i implies !bit_at(
                            #[trigger] mat@[j],
                            #[trigger] piv[i],
                        ) by {
                            if j == r {
                                lemma_bit_xor(old_row, pivot_row, piv[i]);
                                assert(!bit_at(m0[j], piv[i]));
                            }
                        }
                        assert forall|j: int, c: u32|
                            rank < j < 32 && c < col implies !#[trigger] bit_at(mat@[j], c) by {
                            if j == r {
                                lemma_bit_xor(old_row, pivot_row, c);
                                assert(!bit_at(m0[j], c));
                            }
                        }
                    }
                }
                r = r + 1;
            }
            proof {
                piv = piv.push(col);
            }
            rank = rank + 1;
        } else {
            assert forall|j: int, c: u32| rank <= j < 32 && c < col + 1 implies !#[trigger] bit_at(
                mat@[j],
                c,
            ) by {
                if c == col {
                    assert(!bit_at(mat@[j], col));
                }
            }
        }
        col = col + 1;
    }
    proof {
        assert forall|j: int| rank <= j < 32 implies #[trigger] mat@[j] == 0 by {
            assert forall|c: u32| c < 32 implies !#[trigger] bit_at(mat@[j], c) by {
                assert(!bit_at(mat@[j], c));
            }
            lemma_no_bits_zero(mat@[j]);
        }
        assert(reduced_echelon(mat@, rank as nat, piv));
    }
    rank
}

} // verus!

//! Linear systems over GF(2^8): rows of coefficients against rows of data bytes,
//! and Gauss-Jordan elimination that keeps every solution of the system.

use vstd::prelude::*;
use crate::rlnc::rows;
use crate::gf256::{
    field_inv, field_mul, gf_inv, gf_mul, inverse_search, lemma_inverse_exists, lemma_mul_add_left, lemma_mul_one_left, lemma_mul_add_right, lemma_mul_associative,
    lemma_mul_commutative, lemma_mul_zero, lemma_xor_laws, lemma_xor_pair,
};

verus! {

/// Byte `t` of the combination, with coefficients `c`, of the first `n` rows of `p`.
pub open spec fn combine(c: Seq<u8>, p: Seq<Seq<u8>>, t: int, n: nat) -> u8
    decreases n,
{
    if n == 0 {
        0u8
    } else {
        combine(c, p, t, (n - 1) as nat) ^ field_mul(c[n - 1], p[n - 1][t])
    }
}

/// Row `k` of the system holds for the unknown rows `p`: each byte of the data row is the
/// combination of the unknowns with the coefficient row.
pub open spec fn row_holds(m: Seq<Vec<u8>>, d: Seq<Vec<u8>>, p: Seq<Seq<u8>>, n: nat, k: int) -> bool {
    forall|t: int| 0 <= t < d[k]@.len() ==> #[trigger] d[k]@[t] == combine(m[k]@, p, t, n)
}

/// `p` solves the first `n` rows of the system `m * p == d` (in `n` unknowns).
pub open spec fn solves(m: Seq<Vec<u8>>, d: Seq<Vec<u8>>, p: Seq<Seq<u8>>, n: nat) -> bool {
    forall|k: int| 0 <= k < n ==> #[trigger] row_holds(m, d, p, n, k)
}

/// Column `c` of the first `n` rows is reduced: either a unit column with its one at row `c`,
/// or zero from row `c` down (no pivot was available).
pub open spec fn column_reduced(m: Seq<Vec<u8>>, c: int, n: int) -> bool {
    ||| (m[c]@[c] == 1u8 && forall|q: int| 0 <= q < n && q != c ==> #[trigger] m[q]@[c] == 0u8)
    ||| (forall|q: int| c <= q < n ==> #[trigger] m[q]@[c] == 0u8)
}

/// The first `n` columns of the first `n` rows form the identity matrix.
pub open spec fn is_identity(m: Seq<Vec<u8>>, n: int) -> bool {
    forall|q: int, c: int|
        0 <= q < n && 0 <= c < n ==> #[trigger] m[q]@[c] == (if q == c {
            1u8
        } else {
            0u8
        })
}

proof fn lemma_combine_scale(r: Seq<u8>, s: Seq<u8>, f: u8, p: Seq<Seq<u8>>, t: int, n: nat)
    requires
        forall|j: int| 0 <= j < n ==> #[trigger] s[j] == field_mul(r[j], f),
    ensures
        combine(s, p, t, n) == field_mul(f, combine(r, p, t, n)),
    decreases n,
{
    if n == 0 {
        lemma_mul_zero(f);
    } else {
        let n1 = (n - 1) as nat;
        lemma_combine_scale(r, s, f, p, t, n1);
        let x = p[n - 1][t];
        lemma_mul_add_right(f, combine(r, p, t, n1), field_mul(r[n - 1], x));
        lemma_mul_commutative(r[n - 1], f);
        lemma_mul_associative(f, r[n - 1], x);
    }
}

proof fn lemma_combine_axpy(
    r: Seq<u8>,
    q: Seq<u8>,
    s: Seq<u8>,
    f: u8,
    p: Seq<Seq<u8>>,
    t: int,
    n: nat,
)
    requires
        forall|j: int| 0 <= j < n ==> #[trigger] s[j] == r[j] ^ field_mul(f, q[j]),
    ensures
        combine(s, p, t, n) == combine(r, p, t, n) ^ field_mul(f, combine(q, p, t, n)),
    decreases n,
{
    lemma_xor_laws();
    if n == 0 {
        lemma_mul_zero(f);
    } else {
        let n1 = (n - 1) as nat;
        lemma_combine_axpy(r, q, s, f, p, t, n1);
        let x = p[n - 1][t];
        let cr = combine(r, p, t, n1);
        let cq = combine(q, p, t, n1);
        lemma_mul_add_left(r[n - 1], field_mul(f, q[n - 1]), x);
        lemma_mul_associative(f, q[n - 1], x);
        lemma_mul_add_right(f, cq, field_mul(q[n - 1], x));
        let a = field_mul(r[n - 1], x);
        let b = field_mul(f, field_mul(q[n - 1], x));
        let fq = field_mul(f, cq);
        assert((cr ^ fq) ^ (a ^ b) == (cr ^ a) ^ (fq ^ b)) by {
            assert((cr ^ fq) ^ (a ^ b) == cr ^ (fq ^ (a ^ b)));
            assert(fq ^ (a ^ b) == (fq ^ a) ^ b);
            assert(fq ^ a == a ^ fq);
            assert((a ^ fq) ^ b == a ^ (fq ^ b));
            assert(cr ^ (a ^ (fq ^ b)) == (cr ^ a) ^ (fq ^ b));
        }
    }
}

/// Only the first `n` coefficients take part in a combination.
proof fn lemma_combine_prefix(r: Seq<u8>, s: Seq<u8>, p: Seq<Seq<u8>>, t: int, n: nat)
    requires
        forall|j: int| 0 <= j < n ==> #[trigger] s[j] == r[j],
    ensures
        combine(s, p, t, n) == combine(r, p, t, n),
    decreases n,
{
    if n > 0 {
        lemma_combine_prefix(r, s, p, t, (n - 1) as nat);
    }
}

/// The row with its first `n` entries (at most) multiplied by `f`; the rest is kept.
fn scale_row(row: &Vec<u8>, f: u8, n: usize) -> (r: Vec<u8>)
    ensures
        r@.len() == row@.len(),
        forall|j: int|
            0 <= j < row@.len() ==> #[trigger] r@[j] == if j < n {
                field_mul(row@[j], f)
            } else {
                row@[j]
            },
{
    let mut r: Vec<u8> = Vec::new();
    let mut j: usize = 0;
    while j < row.len()
        invariant
            j <= row@.len(),
            r@.len() == j,
            forall|q: int|
                0 <= q < j ==> #[trigger] r@[q] == if q < n {
                    field_mul(row@[q], f)
                } else {
                    row@[q]
                },
        decreases row@.len() - j,
    {
        if j < n {
            r.push(gf_mul(row[j], f));
        } else {
            r.push(row[j]);
        }
        j += 1;
    }
    r
}

/// The row plus `f` times the pivot row, on the first `n` entries that both rows have.
fn add_scaled_row(row: &Vec<u8>, pivot: &Vec<u8>, f: u8, n: usize) -> (r: Vec<u8>)
    ensures
        r@.len() == row@.len(),
        forall|j: int|
            0 <= j < row@.len() ==> #[trigger] r@[j] == if j < n && j < pivot@.len() {
                row@[j] ^ field_mul(f, pivot@[j])
            } else {
                row@[j]
            },
{
    let mut r: Vec<u8> = Vec::new();
    let mut j: usize = 0;
    while j < row.len()
        invariant
            j <= row@.len(),
            r@.len() == j,
            forall|q: int|
                0 <= q < j ==> #[trigger] r@[q] == if q < n && q < pivot@.len() {
                    row@[q] ^ field_mul(f, pivot@[q])
                } else {
                    row@[q]
                },
        decreases row@.len() - j,
    {
        if j < n && j < pivot.len() {
            let v = gf_mul(f, pivot[j]);
            r.push(row[j] ^ v);
        } else {
            r.push(row[j]);
        }
        j += 1;
    }
    r
}

/// Exchanges two elements of a slice.
#[verifier::external_body]
fn slice_swap<T>(s: &mut [T], a: usize, b: usize)
    requires
        a < old(s)@.len(),
        b < old(s)@.len(),
    ensures
        final(s)@ == old(s)@.update(a as int, old(s)@[b as int]).update(b as int, old(s)@[a as int]),
{
    s.swap(a, b)
}

/// Exchanging two rows of the system keeps its solutions.
pub proof fn lemma_swap_keeps_solutions(
    m: Seq<Vec<u8>>,
    d: Seq<Vec<u8>>,
    p: Seq<Seq<u8>>,
    n: nat,
    a: int,
    b: int,
)
    requires
        solves(m, d, p, n),
        m.len() >= n,
        d.len() >= n,
        0 <= a < n,
        0 <= b < n,
    ensures
        solves(m.update(a, m[b]).update(b, m[a]), d.update(a, d[b]).update(b, d[a]), p, n),
{
    let m2 = m.update(a, m[b]).update(b, m[a]);
    let d2 = d.update(a, d[b]).update(b, d[a]);
    assert forall|k: int| 0 <= k < n implies #[trigger] row_holds(m2, d2, p, n, k) by {
        if k == b {
            assert(row_holds(m, d, p, n, a));
        } else if k == a {
            assert(row_holds(m, d, p, n, b));
        } else {
            assert(row_holds(m, d, p, n, k));
        }
    }
}

/// Scaling a row (its first `n` coefficients and all its data) keeps the solutions.
pub proof fn lemma_scale_keeps_solutions(
    m: Seq<Vec<u8>>,
    d: Seq<Vec<u8>>,
    p: Seq<Seq<u8>>,
    n: nat,
    i: int,
    f: u8,
    row: Vec<u8>,
    drow: Vec<u8>,
)
    requires
        solves(m, d, p, n),
        m.len() >= n,
        d.len() >= n,
        0 <= i < n,
        forall|j: int| 0 <= j < n ==> #[trigger] row@[j] == field_mul(m[i]@[j], f),
        drow@.len() == d[i]@.len(),
        forall|t: int| 0 <= t < drow@.len() ==> #[trigger] drow@[t] == field_mul(d[i]@[t], f),
    ensures
        solves(m.update(i, row), d.update(i, drow), p, n),
{
    let m2 = m.update(i, row);
    let d2 = d.update(i, drow);
    assert forall|k: int| 0 <= k < n implies #[trigger] row_holds(m2, d2, p, n, k) by {
        assert(row_holds(m, d, p, n, k));
        if k == i {
            assert forall|t: int| 0 <= t < d2[k]@.len() implies #[trigger] d2[k]@[t] == combine(
                m2[k]@,
                p,
                t,
                n,
            ) by {
                lemma_combine_scale(m[i]@, row@, f, p, t, n);
                lemma_mul_commutative(d[i]@[t], f);
            }
        }
    }
}

/// Adding `f` times row `i` to another row `k` (coefficients and data) keeps the solutions.
pub proof fn lemma_axpy_keeps_solutions(
    m: Seq<Vec<u8>>,
    d: Seq<Vec<u8>>,
    p: Seq<Seq<u8>>,
    n: nat,
    k: int,
    i: int,
    f: u8,
    row: Vec<u8>,
    drow: Vec<u8>,
)
    requires
        solves(m, d, p, n),
        m.len() >= n,
        d.len() >= n,
        0 <= i < n,
        0 <= k < n,
        k != i,
        forall|j: int| 0 <= j < n ==> #[trigger] row@[j] == m[k]@[j] ^ field_mul(f, m[i]@[j]),
        drow@.len() == d[k]@.len(),
        d[k]@.len() <= d[i]@.len(),
        forall|t: int|
            0 <= t < drow@.len() ==> #[trigger] drow@[t] == d[k]@[t] ^ field_mul(f, d[i]@[t]),
    ensures
        solves(m.update(k, row), d.update(k, drow), p, n),
{
    let m2 = m.update(k, row);
    let d2 = d.update(k, drow);
    assert forall|q: int| 0 <= q < n implies #[trigger] row_holds(m2, d2, p, n, q) by {
        assert(row_holds(m, d, p, n, q));
        if q == k {
            assert(row_holds(m, d, p, n, i));
            assert forall|t: int| 0 <= t < d2[q]@.len() implies #[trigger] d2[q]@[t] == combine(
                m2[q]@,
                p,
                t,
                n,
            ) by {
                lemma_combine_axpy(m[k]@, m[i]@, row@, f, p, t, n);
            }
        }
    }
}

/// Exchanging two rows can be undone: a solution of the exchanged system solves the one before.
proof fn lemma_swap_undone(m: Seq<Vec<u8>>, d: Seq<Vec<u8>>, p: Seq<Seq<u8>>, n: nat, a: int, b: int)
    requires
        solves(m.update(a, m[b]).update(b, m[a]), d.update(a, d[b]).update(b, d[a]), p, n),
        m.len() >= n,
        d.len() >= n,
        0 <= a < n,
        0 <= b < n,
    ensures
        solves(m, d, p, n),
{
    let m2 = m.update(a, m[b]).update(b, m[a]);
    let d2 = d.update(a, d[b]).update(b, d[a]);
    lemma_swap_keeps_solutions(m2, d2, p, n, a, b);
    assert(m2.update(a, m2[b]).update(b, m2[a]) =~= m);
    assert(d2.update(a, d2[b]).update(b, d2[a]) =~= d);
}

/// Scaling a row by a non-zero factor can be undone: a solution of the scaled system solves
/// the one before.
proof fn lemma_scale_undone(
    m: Seq<Vec<u8>>,
    d: Seq<Vec<u8>>,
    p: Seq<Seq<u8>>,
    n: nat,
    i: int,
    f: u8,
    row: Vec<u8>,
    drow: Vec<u8>,
)
    requires
        solves(m.update(i, row), d.update(i, drow), p, n),
        m.len() >= n,
        d.len() >= n,
        0 <= i < n,
        f != 0u8,
        forall|j: int| 0 <= j < n ==> #[trigger] row@[j] == field_mul(m[i]@[j], f),
        drow@.len() == d[i]@.len(),
        forall|t: int| 0 <= t < drow@.len() ==> #[trigger] drow@[t] == field_mul(d[i]@[t], f),
    ensures
        solves(m, d, p, n),
{
    let m2 = m.update(i, row);
    let d2 = d.update(i, drow);
    let g = field_inv(f);
    lemma_inverse_exists(f);
    assert forall|x: u8| #[trigger] field_mul(field_mul(x, f), g) == x by {
        lemma_mul_associative(x, f, g);
        lemma_mul_commutative(x, 1u8);
        lemma_mul_one_left(x);
    }
    assert forall|j: int| 0 <= j < n implies #[trigger] m[i]@[j] == field_mul(m2[i]@[j], g) by {
        assert(field_mul(field_mul(m[i]@[j], f), g) == m[i]@[j]);
    }
    assert forall|t: int| 0 <= t < d[i]@.len() implies #[trigger] d[i]@[t] == field_mul(d2[i]@[t], g) by {
        assert(field_mul(field_mul(d[i]@[t], f), g) == d[i]@[t]);
    }
    lemma_scale_keeps_solutions(m2, d2, p, n, i, g, m[i], d[i]);
    assert(m2.update(i, m[i]) =~= m);
    assert(d2.update(i, d[i]) =~= d);
}

/// Adding `f` times row `i` to row `k` can be undone: a solution of the new system solves the
/// one before.
proof fn lemma_axpy_undone(
    m: Seq<Vec<u8>>,
    d: Seq<Vec<u8>>,
    p: Seq<Seq<u8>>,
    n: nat,
    k: int,
    i: int,
    f: u8,
    row: Vec<u8>,
    drow: Vec<u8>,
)
    requires
        solves(m.update(k, row), d.update(k, drow), p, n),
        m.len() >= n,
        d.len() >= n,
        0 <= i < n,
        0 <= k < n,
        k != i,
        forall|j: int| 0 <= j < n ==> #[trigger] row@[j] == m[k]@[j] ^ field_mul(f, m[i]@[j]),
        drow@.len() == d[k]@.len(),
        d[k]@.len() <= d[i]@.len(),
        forall|t: int|
            0 <= t < drow@.len() ==> #[trigger] drow@[t] == d[k]@[t] ^ field_mul(f, d[i]@[t]),
    ensures
        solves(m, d, p, n),
{
    let m2 = m.update(k, row);
    let d2 = d.update(k, drow);
    lemma_xor_laws();
    assert forall|j: int| 0 <= j < n implies #[trigger] m[k]@[j] == m2[k]@[j] ^ field_mul(
        f,
        m2[i]@[j],
    ) by {
        let b = field_mul(f, m[i]@[j]);
        assert((m[k]@[j] ^ b) ^ b == m[k]@[j] ^ (b ^ b));
    }
    assert forall|t: int| 0 <= t < d[k]@.len() implies #[trigger] d[k]@[t] == d2[k]@[t] ^ field_mul(
        f,
        d2[i]@[t],
    ) by {
        let b = field_mul(f, d[i]@[t]);
        assert((d[k]@[t] ^ b) ^ b == d[k]@[t] ^ (b ^ b));
    }
    lemma_axpy_keeps_solutions(m2, d2, p, n, k, i, f, m[k], d[k]);
    assert(m2.update(k, m[k]) =~= m);
    assert(d2.update(k, d[k]) =~= d);
}

/// Every solution of the first system (in `n` unknowns) solves the second.
pub open spec fn keeps_solutions(
    m0: Seq<Vec<u8>>,
    d0: Seq<Vec<u8>>,
    m1: Seq<Vec<u8>>,
    d1: Seq<Vec<u8>>,
    n: nat,
) -> bool {
    forall|p: Seq<Seq<u8>>| #[trigger] solves(m0, d0, p, n) ==> solves(m1, d1, p, n)
}

/// Every one of the first `n` columns is reduced.
pub open spec fn reduced(m: Seq<Vec<u8>>, n: int) -> bool {
    forall|c: int| 0 <= c < n ==> #[trigger] column_reduced(m, c, n)
}

proof fn lemma_combine_unit(r: Seq<u8>, p: Seq<Seq<u8>>, t: int, n: nat, k: int)
    requires
        forall|j: int| 0 <= j < n ==> #[trigger] r[j] == if j == k {
            1u8
        } else {
            0u8
        },
    ensures
        combine(r, p, t, n) == if 0 <= k < n {
            p[k][t]
        } else {
            0u8
        },
    decreases n,
{
    lemma_xor_laws();
    if n > 0 {
        lemma_combine_unit(r, p, t, (n - 1) as nat, k);
        lemma_mul_one_left(p[n - 1][t]);
        lemma_mul_zero(p[n - 1][t]);
    }
}

/// A reduced matrix with ones all along its diagonal is the identity.
pub proof fn lemma_reduced_unit_diagonal_is_identity(m: Seq<Vec<u8>>, n: int)
    requires
        reduced(m, n),
        forall|c: int| 0 <= c < n ==> #[trigger] m[c]@[c] == 1u8,
    ensures
        is_identity(m, n),
{
    assert forall|q: int, c: int| 0 <= q < n && 0 <= c < n implies #[trigger] m[q]@[c] == (if q
        == c {
        1u8
    } else {
        0u8
    }) by {
        assert(column_reduced(m, c, n));
        assert(m[c]@[c] == 1u8);
    }
}

/// A system whose matrix is the identity has its unknowns as its data rows.
pub proof fn lemma_identity_system_gives_unknowns(
    m: Seq<Vec<u8>>,
    d: Seq<Vec<u8>>,
    p: Seq<Seq<u8>>,
    n: nat,
)
    requires
        m.len() >= n,
        d.len() >= n,
        solves(m, d, p, n),
        is_identity(m, n as int),
    ensures
        forall|k: int, t: int| 0 <= k < n && 0 <= t < d[k]@.len() ==> #[trigger] d[k]@[t] == p[k][t],
{
    assert forall|k: int, t: int| 0 <= k < n && 0 <= t < d[k]@.len() implies #[trigger] d[k]@[t]
        == p[k][t] by {
        assert(row_holds(m, d, p, n, k));
        assert forall|j: int| 0 <= j < n implies #[trigger] m[k]@[j] == if j == k {
            1u8
        } else {
            0u8
        } by {
            assert(m[k]@[j] == (if k == j {
                1u8
            } else {
                0u8
            }));
        }
        lemma_combine_unit(m[k]@, p, t, n, k);
    }
}

/// Below a reduced column, every entry is zero.
proof fn lemma_reduced_below(m: Seq<Vec<u8>>, c: int, n: int, q: int)
    requires
        column_reduced(m, c, n),
        0 <= c < q < n,
    ensures
        m[q]@[c] == 0u8,
{
}

/// The shape elimination needs: `n` coefficient rows of at least `n` entries, and at least `n`
/// data rows, the first `n` of them `w` bytes long.
pub open spec fn well_shaped(m: Seq<Vec<u8>>, d: Seq<Vec<u8>>, n: nat, w: nat) -> bool {
    &&& m.len() == n
    &&& d.len() >= n
    &&& forall|q: int| 0 <= q < n ==> #[trigger] m[q]@.len() >= n
    &&& forall|q: int| 0 <= q < n ==> #[trigger] d[q]@.len() == w
}

/// The first row from row `q` down (below `n`) with a non-zero entry in column `i`; `n` when
/// there is none.
pub open spec fn first_pivot(m: Seq<Seq<u8>>, i: int, q: int, n: int) -> int
    decreases n - q,
{
    if q >= n {
        n
    } else if m[q][i] != 0u8 {
        q
    } else {
        first_pivot(m, i, q + 1, n)
    }
}

/// The row with its first `n` entries multiplied by `f`.
pub open spec fn scaled(r: Seq<u8>, f: u8, n: int) -> Seq<u8> {
    Seq::new(r.len(), |j: int| if j < n { field_mul(r[j], f) } else { r[j] })
}

/// The row plus `f` times the pivot row, on the first `n` entries that both rows have.
pub open spec fn axpy(r: Seq<u8>, p: Seq<u8>, f: u8, n: int) -> Seq<u8> {
    Seq::new(r.len(), |j: int| if j < n && j < p.len() { r[j] ^ field_mul(f, p[j]) } else { r[j] })
}


/// What `scale_row` computes is `scaled`.
proof fn lemma_is_scaled(r: Seq<u8>, row: Seq<u8>, f: u8, n: int)
    requires
        r.len() == row.len(),
        forall|j: int| 0 <= j < row.len() ==> #[trigger] r[j] == if j < n { field_mul(row[j], f) } else { row[j] },
    ensures
        r == scaled(row, f, n),
{
    assert(r =~= scaled(row, f, n));
}

/// What `add_scaled_row` computes is `axpy`.
proof fn lemma_is_axpy(r: Seq<u8>, row: Seq<u8>, p: Seq<u8>, f: u8, n: int)
    requires
        r.len() == row.len(),
        forall|j: int|
            0 <= j < row.len() ==> #[trigger] r[j] == if j < n && j < p.len() {
                row[j] ^ field_mul(f, p[j])
            } else {
                row[j]
            },
    ensures
        r == axpy(row, p, f, n),
{
    assert(r =~= axpy(row, p, f, n));
}


/// Rows below `k` (of the first `n`, other than `i`) cleared, the others as they were.
#[verifier::opaque]
spec fn cleared_upto(m: Seq<Seq<u8>>, d: Seq<Seq<u8>>, i: int, n: int, k: int) -> (
    Seq<Seq<u8>>,
    Seq<Seq<u8>>,
) {
    (
        Seq::new(
            m.len(),
            |q: int| if 0 <= q < k && q < n && q != i { axpy(m[q], m[i], m[q][i], n) } else { m[q] },
        ),
        Seq::new(
            d.len(),
            |q: int|
                if 0 <= q < k && q < n && q != i {
                    axpy(d[q], d[i], m[q][i], d[q].len() as int)
                } else {
                    d[q]
                },
        ),
    )
}

proof fn lemma_cleared_start(m: Seq<Seq<u8>>, d: Seq<Seq<u8>>, i: int, n: int)
    ensures
        cleared_upto(m, d, i, n, 0) == (m, d),
{
    reveal(cleared_upto);
    assert(cleared_upto(m, d, i, n, 0).0 =~= m);
    assert(cleared_upto(m, d, i, n, 0).1 =~= d);
}

proof fn lemma_cleared_untouched(m: Seq<Seq<u8>>, d: Seq<Seq<u8>>, i: int, n: int, k: int)
    requires
        0 <= k,
    ensures
        cleared_upto(m, d, i, n, k).0.len() == m.len(),
        cleared_upto(m, d, i, n, k).1.len() == d.len(),
        k < m.len() ==> cleared_upto(m, d, i, n, k).0[k] == m[k],
        k < d.len() ==> cleared_upto(m, d, i, n, k).1[k] == d[k],
        0 <= i < m.len() ==> cleared_upto(m, d, i, n, k).0[i] == m[i],
        0 <= i < d.len() ==> cleared_upto(m, d, i, n, k).1[i] == d[i],
{
    reveal(cleared_upto);
}

proof fn lemma_cleared_next(m: Seq<Seq<u8>>, d: Seq<Seq<u8>>, i: int, n: int, k: int)
    requires
        0 <= k < n,
        n <= m.len(),
        n <= d.len(),
    ensures
        cleared_upto(m, d, i, n, k + 1) == if k == i {
            cleared_upto(m, d, i, n, k)
        } else {
            (
                cleared_upto(m, d, i, n, k).0.update(k, axpy(m[k], m[i], m[k][i], n)),
                cleared_upto(m, d, i, n, k).1.update(k, axpy(d[k], d[i], m[k][i], d[k].len() as int)),
            )
        },
{
    reveal(cleared_upto);
    if k == i {
        assert(cleared_upto(m, d, i, n, k + 1).0 =~= cleared_upto(m, d, i, n, k).0);
        assert(cleared_upto(m, d, i, n, k + 1).1 =~= cleared_upto(m, d, i, n, k).1);
    } else {
        assert(cleared_upto(m, d, i, n, k + 1).0 =~= cleared_upto(m, d, i, n, k).0.update(
            k,
            axpy(m[k], m[i], m[k][i], n),
        ));
        assert(cleared_upto(m, d, i, n, k + 1).1 =~= cleared_upto(m, d, i, n, k).1.update(
            k,
            axpy(d[k], d[i], m[k][i], d[k].len() as int),
        ));
    }
}

proof fn lemma_cleared_end(m: Seq<Seq<u8>>, d: Seq<Seq<u8>>, i: int, n: int)
    requires
        n == m.len(),
    ensures
        cleared_upto(m, d, i, n, n) == cleared(m, d, i, n),
{
    reveal(cleared_upto);
    assert(cleared_upto(m, d, i, n, n).0 =~= cleared(m, d, i, n).0);
    assert(cleared_upto(m, d, i, n, n).1 =~= cleared(m, d, i, n).1);
}

/// Rows `i` and `p` exchanged, then row `i` of the matrix (its first `n` entries) and of the
/// data (all of it) multiplied by the inverse of the pivot.
pub open spec fn raised(m: Seq<Seq<u8>>, d: Seq<Seq<u8>>, i: int, p: int, n: int) -> (
    Seq<Seq<u8>>,
    Seq<Seq<u8>>,
) {
    let m1 = m.update(i, m[p]).update(p, m[i]);
    let d1 = d.update(i, d[p]).update(p, d[i]);
    let inv = inverse_search(m1[i][i], 1);
    (m1.update(i, scaled(m1[i], inv, n)), d1.update(i, scaled(d1[i], inv, d1[i].len() as int)))
}

/// Every other row `k` of the first `n` plus its entry in column `i` times row `i`.
pub open spec fn cleared(m: Seq<Seq<u8>>, d: Seq<Seq<u8>>, i: int, n: int) -> (
    Seq<Seq<u8>>,
    Seq<Seq<u8>>,
) {
    (
        Seq::new(
            m.len(),
            |k: int| if 0 <= k < n && k != i { axpy(m[k], m[i], m[k][i], n) } else { m[k] },
        ),
        Seq::new(
            d.len(),
            |k: int|
                if 0 <= k < n && k != i {
                    axpy(d[k], d[i], m[k][i], d[k].len() as int)
                } else {
                    d[k]
                },
        ),
    )
}

/// One step of elimination, at column `i`: when some row from `i` down has a non-zero entry
/// there, the first such row is raised to row `i` and column `i` is cleared in the others;
/// otherwise nothing changes.
pub open spec fn elimination_step(m: Seq<Seq<u8>>, d: Seq<Seq<u8>>, i: int, n: int) -> (
    Seq<Seq<u8>>,
    Seq<Seq<u8>>,
) {
    let p = first_pivot(m, i, i, n);
    if p >= n {
        (m, d)
    } else {
        let r = raised(m, d, i, p, n);
        cleared(r.0, r.1, i, n)
    }
}

/// The matrix and data after the first `c` columns are eliminated.
pub open spec fn eliminated(m: Seq<Seq<u8>>, d: Seq<Seq<u8>>, n: int, c: int) -> (
    Seq<Seq<u8>>,
    Seq<Seq<u8>>,
)
    decreases c,
{
    if c <= 0 {
        (m, d)
    } else {
        let r = eliminated(m, d, n, c - 1);
        elimination_step(r.0, r.1, c - 1, n)
    }
}

/// The pivot search stops at the first non-zero entry.
proof fn lemma_first_pivot_is(m: Seq<Seq<u8>>, i: int, q: int, n: int, p: int)
    requires
        q <= p <= n,
        forall|r: int| q <= r < p ==> #[trigger] m[r][i] == 0u8,
        p == n || m[p][i] != 0u8,
    ensures
        first_pivot(m, i, q, n) == p,
    decreases p - q,
{
    if q < p {
        lemma_first_pivot_is(m, i, q + 1, n, p);
    }
}

/// The first row, from row `i` down, with a non-zero entry in column `i`; `n` if there is none.
fn find_pivot(matrix: &[Vec<u8>], i: usize) -> (pivot: usize)
    requires
        i < matrix@.len(),
        forall|q: int| 0 <= q < matrix@.len() ==> #[trigger] matrix@[q]@.len() >= matrix@.len(),
    ensures
        i <= pivot <= matrix@.len(),
        forall|q: int| i <= q < pivot ==> #[trigger] matrix@[q]@[i as int] == 0u8,
        pivot < matrix@.len() ==> matrix@[pivot as int]@[i as int] != 0u8,
        pivot == first_pivot(rows(matrix@), i as int, i as int, matrix@.len() as int),
{
    let n = matrix.len();
    let mut pivot = i;
    while pivot < n && matrix[pivot][i] == 0
        invariant
            i < n,
            n == matrix@.len(),
            i <= pivot <= n,
            forall|q: int| 0 <= q < n ==> #[trigger] matrix@[q]@.len() >= n,
            forall|q: int| i <= q < pivot ==> #[trigger] matrix@[q]@[i as int] == 0u8,
        decreases n - pivot,
    {
        pivot += 1;
    }
    proof {
        let m = rows(matrix@);
        assert forall|r: int| i <= r < pivot implies #[trigger] m[r][i as int] == 0u8 by {
            assert(matrix@[r]@[i as int] == 0u8);
        }
        lemma_first_pivot_is(m, i as int, i as int, n as int, pivot as int);
    }
    pivot
}

/// Moves the pivot row up to row `i` and scales it so that its entry in column `i` is one.
#[verifier::spinoff_prover]
fn raise_pivot(matrix: &mut [Vec<u8>], data: &mut [Vec<u8>], i: usize, pivot: usize, Ghost(w): Ghost<nat>)
    requires
        well_shaped(old(matrix)@, old(data)@, old(matrix)@.len(), w),
        i <= pivot < old(matrix)@.len(),
        old(matrix)@[pivot as int]@[i as int] != 0u8,
        forall|c: int| 0 <= c < i ==> #[trigger] column_reduced(old(matrix)@, c, old(matrix)@.len() as int),
    ensures
        well_shaped(final(matrix)@, final(data)@, old(matrix)@.len(), w),
        final(data)@.len() == old(data)@.len(),
        forall|q: int| old(matrix)@.len() <= q < old(data)@.len() ==> #[trigger] final(data)@[q] == old(data)@[q],
        forall|p: Seq<Seq<u8>>|
            #[trigger] solves(old(matrix)@, old(data)@, p, old(matrix)@.len()) ==> solves(
                final(matrix)@,
                final(data)@,
                p,
                old(matrix)@.len(),
            ),
        forall|p: Seq<Seq<u8>>|
            #[trigger] solves(final(matrix)@, final(data)@, p, old(matrix)@.len()) ==> solves(
                old(matrix)@,
                old(data)@,
                p,
                old(matrix)@.len(),
            ),
        forall|c: int| 0 <= c < i ==> #[trigger] column_reduced(final(matrix)@, c, old(matrix)@.len() as int),
        final(matrix)@[i as int]@[i as int] == 1u8,
        (rows(final(matrix)@), rows(final(data)@)) == raised(
            rows(old(matrix)@),
            rows(old(data)@),
            i as int,
            pivot as int,
            old(matrix)@.len() as int,
        ),
        (forall|q: int| 0 <= q < old(matrix)@.len() ==> #[trigger] old(matrix)@[q]@.len() == old(matrix)@.len())
            ==> (forall|q: int| 0 <= q < old(matrix)@.len() ==> #[trigger] final(matrix)@[q]@.len() == old(matrix)@.len()),
{
    let n = matrix.len();
    let ghost m1 = matrix@;
    let ghost d1 = data@;
    slice_swap(matrix, i, pivot);
    slice_swap(data, i, pivot);
    proof {
        assert forall|p: Seq<Seq<u8>>| #[trigger] solves(m1, d1, p, n as nat) implies solves(
            matrix@,
            data@,
            p,
            n as nat,
        ) by {
            lemma_swap_keeps_solutions(m1, d1, p, n as nat, i as int, pivot as int);
        }
        assert forall|c: int| 0 <= c < i implies #[trigger] column_reduced(matrix@, c, n as int) by {
            lemma_reduced_below(m1, c, n as int, i as int);
            lemma_reduced_below(m1, c, n as int, pivot as int);
            assert forall|q: int| 0 <= q < n implies #[trigger] matrix@[q]@[c] == m1[q]@[c] by {}
        }
    }
    let inv = gf_inv(matrix[i][i]);
    let new_row = scale_row(&matrix[i], inv, n);
    let new_data = scale_row(&data[i], inv, data[i].len());
    let ghost m2 = matrix@;
    let ghost d2 = data@;
    matrix[i] = new_row;
    data[i] = new_data;
    proof {
        assert forall|p: Seq<Seq<u8>>| #[trigger] solves(m2, d2, p, n as nat) implies solves(
            matrix@,
            data@,
            p,
            n as nat,
        ) by {
            lemma_scale_keeps_solutions(m2, d2, p, n as nat, i as int, inv, new_row, new_data);
        }
        lemma_mul_zero(inv);
        assert forall|c: int| 0 <= c < i implies #[trigger] column_reduced(matrix@, c, n as int) by {
            lemma_reduced_below(m2, c, n as int, i as int);
            assert forall|q: int| 0 <= q < n implies #[trigger] matrix@[q]@[c] == m2[q]@[c] by {
                if q == i as int {
                    assert(m2[q]@[c] == 0u8);
                    assert(new_row@[c] == field_mul(m2[q]@[c], inv));
                } else {
                    assert(matrix@[q] == m2[q]);
                }
            }
            assert(column_reduced(m2, c, n as int));
        }
        lemma_mul_zero(m2[i as int]@[i as int]);
        assert(inv != 0u8);
        assert(matrix@ == m2.update(i as int, new_row));
        assert(data@ == d2.update(i as int, new_data));
        assert forall|p: Seq<Seq<u8>>| #[trigger] solves(matrix@, data@, p, n as nat) implies solves(
            m1,
            d1,
            p,
            n as nat,
        ) by {
            lemma_scale_undone(m2, d2, p, n as nat, i as int, inv, new_row, new_data);
            lemma_swap_undone(m1, d1, p, n as nat, i as int, pivot as int);
        }
    }
    proof {
        let rm = rows(m1);
        let rd = rows(d1);
        assert(rows(m2) =~= rm.update(i as int, rm[pivot as int]).update(pivot as int, rm[i as int]));
        assert(rows(d2) =~= rd.update(i as int, rd[pivot as int]).update(pivot as int, rd[i as int]));
        lemma_is_scaled(new_row@, m2[i as int]@, inv, n as int);
        lemma_is_scaled(new_data@, d2[i as int]@, inv, d2[i as int]@.len() as int);
        assert(rows(matrix@) =~= rows(m2).update(i as int, new_row@));
        assert(rows(data@) =~= rows(d2).update(i as int, new_data@));
        if forall|q: int| 0 <= q < n ==> #[trigger] m1[q]@.len() == n {
            assert forall|q: int| 0 <= q < n implies #[trigger] matrix@[q]@.len() == n by {
                if q != i {
                    assert(matrix@[q] == m2[q]);
                    if q == pivot {
                        assert(m2[q] == m1[i as int]);
                    } else {
                        assert(m2[q] == m1[q]);
                    }
                } else {
                    assert(m2[q] == m1[pivot as int]);
                }
            }
        }
    }
}

/// Subtracts multiples of row `i` (whose entry in column `i` is one) from every other row,
/// clearing column `i`.
#[verifier::spinoff_prover]
fn clear_column(matrix: &mut [Vec<u8>], data: &mut [Vec<u8>], i: usize, Ghost(w): Ghost<nat>)
    requires
        well_shaped(old(matrix)@, old(data)@, old(matrix)@.len(), w),
        i < old(matrix)@.len(),
        old(matrix)@[i as int]@[i as int] == 1u8,
        forall|c: int| 0 <= c < i ==> #[trigger] column_reduced(old(matrix)@, c, old(matrix)@.len() as int),
    ensures
        well_shaped(final(matrix)@, final(data)@, old(matrix)@.len(), w),
        final(data)@.len() == old(data)@.len(),
        forall|q: int| old(matrix)@.len() <= q < old(data)@.len() ==> #[trigger] final(data)@[q] == old(data)@[q],
        forall|p: Seq<Seq<u8>>|
            #[trigger] solves(old(matrix)@, old(data)@, p, old(matrix)@.len()) ==> solves(
                final(matrix)@,
                final(data)@,
                p,
                old(matrix)@.len(),
            ),
        forall|p: Seq<Seq<u8>>|
            #[trigger] solves(final(matrix)@, final(data)@, p, old(matrix)@.len()) ==> solves(
                old(matrix)@,
                old(data)@,
                p,
                old(matrix)@.len(),
            ),
        forall|c: int| 0 <= c <= i ==> #[trigger] column_reduced(final(matrix)@, c, old(matrix)@.len() as int),
        (rows(final(matrix)@), rows(final(data)@)) == cleared(
            rows(old(matrix)@),
            rows(old(data)@),
            i as int,
            old(matrix)@.len() as int,
        ),
        forall|q: int| 0 <= q < old(matrix)@.len() ==> #[trigger] final(matrix)@[q]@.len() == old(matrix)@[q]@.len(),
{
    let n = matrix.len();
    let ghost m3 = matrix@;
    let ghost d3 = data@;
    let pivot_row = matrix[i].clone();
    assert(pivot_row@ =~= m3[i as int]@);
    let mut k: usize = 0;
    proof {
        lemma_cleared_start(rows(m3), rows(d3), i as int, n as int);
    }
    while k < n
        invariant
            k <= n,
            i < n,
            n == m3.len(),
            well_shaped(matrix@, data@, n as nat, w),
            data@.len() == d3.len(),
            forall|q: int| n <= q < d3.len() ==> #[trigger] data@[q] == d3[q],
            forall|q: int| 0 <= q < n ==> #[trigger] matrix@[q]@.len() == m3[q]@.len(),
            (rows(matrix@), rows(data@)) == cleared_upto(rows(m3), rows(d3), i as int, n as int, k as int),
            forall|p: Seq<Seq<u8>>|
                #[trigger] solves(m3, d3, p, n as nat) ==> solves(matrix@, data@, p, n as nat),
            forall|p: Seq<Seq<u8>>|
                #[trigger] solves(matrix@, data@, p, n as nat) ==> solves(m3, d3, p, n as nat),
            pivot_row@ == m3[i as int]@,
            m3[i as int]@[i as int] == 1u8,
            matrix@[i as int] == m3[i as int],
            data@[i as int] == d3[i as int],
            forall|c: int| 0 <= c < i ==> #[trigger] column_reduced(m3, c, n as int),
            forall|q: int, c: int| 0 <= q < n && 0 <= c < i ==> #[trigger] matrix@[q]@[c] == m3[q]@[c],
            forall|q: int| 0 <= q < k && q != i ==> #[trigger] matrix@[q]@[i as int] == 0u8,
        decreases n - k,
    {
        proof {
            lemma_cleared_untouched(rows(m3), rows(d3), i as int, n as int, k as int);
            lemma_cleared_next(rows(m3), rows(d3), i as int, n as int, k as int);
            assert(rows(matrix@)[k as int] == rows(m3)[k as int]);
            assert(rows(data@)[k as int] == rows(d3)[k as int]);
            assert(rows(data@)[i as int] == rows(d3)[i as int]);
        }
        if k != i {
            let factor = matrix[k][i];
            let row = add_scaled_row(&matrix[k], &pivot_row, factor, n);
            let drow = add_scaled_row(&data[k], &data[i], factor, data[k].len());
            let ghost m4 = matrix@;
            let ghost d4 = data@;
            proof {
                lemma_is_axpy(row@, m3[k as int]@, m3[i as int]@, m3[k as int]@[i as int], n as int);
                lemma_is_axpy(drow@, d3[k as int]@, d3[i as int]@, m3[k as int]@[i as int], d3[k as int]@.len() as int);
            }
            matrix[k] = row;
            data[k] = drow;
            assert(rows(matrix@) =~= rows(m4).update(k as int, row@));
            assert(rows(data@) =~= rows(d4).update(k as int, drow@));
            proof {
                assert forall|p: Seq<Seq<u8>>| #[trigger] solves(m3, d3, p, n as nat) implies solves(
                    matrix@,
                    data@,
                    p,
                    n as nat,
                ) by {
                    lemma_axpy_keeps_solutions(m4, d4, p, n as nat, k as int, i as int, factor, row, drow);
                }
                assert(matrix@ == m4.update(k as int, row));
                assert(data@ == d4.update(k as int, drow));
                assert forall|p: Seq<Seq<u8>>| #[trigger] solves(matrix@, data@, p, n as nat) implies solves(
                    m3,
                    d3,
                    p,
                    n as nat,
                ) by {
                    lemma_axpy_undone(m4, d4, p, n as nat, k as int, i as int, factor, row, drow);
                }
                lemma_xor_laws();
                lemma_mul_one_left(factor);
                lemma_mul_commutative(factor, 1u8);
                lemma_mul_zero(factor);
                assert forall|c: int| 0 <= c < i implies #[trigger] matrix@[k as int]@[c] == m3[k as int]@[c] by {
                    lemma_reduced_below(m3, c, n as int, i as int);
                }
            }
        }
        k += 1;
    }
    assert(column_reduced(matrix@, i as int, n as int));
    assert forall|c: int| 0 <= c < i implies #[trigger] column_reduced(matrix@, c, n as int) by {
        assert(column_reduced(m3, c, n as int));
    }
    proof {
        lemma_cleared_end(rows(m3), rows(d3), i as int, n as int);
    }
}

/// Gauss-Jordan elimination of the system formed by the first `n` rows and columns of `matrix`
/// (with `n` its number of rows), every row operation applied to `data` as well.
#[verifier::spinoff_prover]
pub fn gauss_jordan(matrix: &mut [Vec<u8>], data: &mut [Vec<u8>])
    requires
        old(data)@.len() >= old(matrix)@.len(),
        forall|q: int|
            0 <= q < old(matrix)@.len() ==> #[trigger] old(matrix)@[q]@.len() >= old(matrix)@.len(),
        forall|q: int, r: int|
            0 <= q < old(matrix)@.len() && 0 <= r < old(matrix)@.len() ==> #[trigger] old(
                data,
            )@[q]@.len() == #[trigger] old(data)@[r]@.len(),
    ensures
        final(matrix)@.len() == old(matrix)@.len(),
        final(data)@.len() == old(data)@.len(),
        forall|q: int|
            0 <= q < old(matrix)@.len() ==> #[trigger] final(matrix)@[q]@.len() >= old(matrix)@.len(),
        forall|q: int|
            0 <= q < old(matrix)@.len() ==> #[trigger] final(data)@[q]@.len() == old(data)@[0]@.len(),
        forall|q: int|
            old(matrix)@.len() <= q < old(data)@.len() ==> #[trigger] final(data)@[q] == old(data)@[q],
        keeps_solutions(old(matrix)@, old(data)@, final(matrix)@, final(data)@, old(matrix)@.len()),
        keeps_solutions(final(matrix)@, final(data)@, old(matrix)@, old(data)@, old(matrix)@.len()),
        reduced(final(matrix)@, old(matrix)@.len() as int),
        (rows(final(matrix)@), rows(final(data)@)) == eliminated(
            rows(old(matrix)@),
            rows(old(data)@),
            old(matrix)@.len() as int,
            old(matrix)@.len() as int,
        ),
        (forall|q: int| 0 <= q < old(matrix)@.len() ==> #[trigger] old(matrix)@[q]@.len() == old(matrix)@.len())
            ==> (forall|q: int| 0 <= q < old(matrix)@.len() ==> #[trigger] final(matrix)@[q]@.len() == old(matrix)@.len()),
{
    let n = matrix.len();
    let ghost m0 = matrix@;
    let ghost d0 = data@;
    let ghost w: nat = if n > 0 {
        data@[0]@.len()
    } else {
        0
    };
    let mut i: usize = 0;
    while i < n
        invariant
            i <= n,
            n == m0.len(),
            well_shaped(matrix@, data@, n as nat, w),
            data@.len() == d0.len(),
            forall|q: int| n <= q < d0.len() ==> #[trigger] data@[q] == d0[q],
            forall|p: Seq<Seq<u8>>|
                #[trigger] solves(m0, d0, p, n as nat) ==> solves(matrix@, data@, p, n as nat),
            forall|p: Seq<Seq<u8>>|
                #[trigger] solves(matrix@, data@, p, n as nat) ==> solves(m0, d0, p, n as nat),
            forall|c: int| 0 <= c < i ==> #[trigger] column_reduced(matrix@, c, n as int),
            (rows(matrix@), rows(data@)) == eliminated(rows(m0), rows(d0), n as int, i as int),
            (forall|q: int| 0 <= q < n ==> #[trigger] m0[q]@.len() == n) ==> (forall|q: int|
                0 <= q < n ==> #[trigger] matrix@[q]@.len() == n),
        decreases n - i,
    {
        let ghost before = (rows(matrix@), rows(data@));
        let pivot = find_pivot(matrix, i);
        if pivot == n {
            assert(column_reduced(matrix@, i as int, n as int));
        } else {
            raise_pivot(matrix, data, i, pivot, Ghost(w));
            clear_column(matrix, data, i, Ghost(w));
        }
        assert((rows(matrix@), rows(data@)) == elimination_step(before.0, before.1, i as int, n as int));
        i += 1;
    }
}

/// The combination, at byte `t`, of the rows `s` is the sum of those of `p` and `q` when each
/// byte of `s` there is the sum of the bytes of `p` and `q`.
proof fn lemma_combine_add(c: Seq<u8>, p: Seq<Seq<u8>>, q: Seq<Seq<u8>>, s: Seq<Seq<u8>>, t: int, n: nat)
    requires
        forall|j: int| 0 <= j < n ==> #[trigger] s[j][t] == p[j][t] ^ q[j][t],
    ensures
        combine(c, s, t, n) == combine(c, p, t, n) ^ combine(c, q, t, n),
    decreases n,
{
    lemma_xor_laws();
    if n > 0 {
        let n1 = (n - 1) as nat;
        lemma_combine_add(c, p, q, s, t, n1);
        lemma_mul_add_right(c[n - 1], p[n - 1][t], q[n - 1][t]);
        let a = combine(c, p, t, n1);
        let b = combine(c, q, t, n1);
        let x = field_mul(c[n - 1], p[n - 1][t]);
        let y = field_mul(c[n - 1], q[n - 1][t]);
        assert((a ^ b) ^ (x ^ y) == (a ^ x) ^ (b ^ y)) by {
            assert((a ^ b) ^ (x ^ y) == a ^ (b ^ (x ^ y)));
            assert(b ^ (x ^ y) == (b ^ x) ^ y);
            assert(b ^ x == x ^ b);
            assert((x ^ b) ^ y == x ^ (b ^ y));
            assert(a ^ (x ^ (b ^ y)) == (a ^ x) ^ (b ^ y));
        }
    }
}

/// A combination in which every term but those at `a` and `b` is zero is the sum of those two.
proof fn lemma_combine_sparse(r: Seq<u8>, q: Seq<Seq<u8>>, t: int, n: nat, a: int, b: int)
    requires
        a != b,
        forall|j: int| 0 <= j < n && j != a && j != b ==> #[trigger] field_mul(r[j], q[j][t]) == 0u8,
    ensures
        combine(r, q, t, n) == (if 0 <= a < n {
            field_mul(r[a], q[a][t])
        } else {
            0u8
        }) ^ (if 0 <= b < n {
            field_mul(r[b], q[b][t])
        } else {
            0u8
        }),
    decreases n,
{
    lemma_xor_laws();
    if n > 0 {
        lemma_combine_sparse(r, q, t, (n - 1) as nat, a, b);
        let ta = field_mul(r[a], q[a][t]);
        let tb = field_mul(r[b], q[b][t]);
        if n - 1 == a {
            assert(((0u8 ^ (if 0 <= b < n - 1 { tb } else { 0u8 })) ^ ta) == ta ^ (if 0 <= b < n {
                tb
            } else {
                0u8
            }));
        } else if n - 1 == b {
            assert(((if 0 <= a < n - 1 { ta } else { 0u8 }) ^ 0u8) ^ tb == (if 0 <= a < n {
                ta
            } else {
                0u8
            }) ^ tb);
        }
    }
}

/// The rows `p` at byte `t` are all zero among the first `n`.
pub open spec fn zero_column(p: Seq<Seq<u8>>, t: int, n: nat) -> bool {
    forall|j: int| 0 <= j < n ==> #[trigger] p[j][t] == 0u8
}

/// Every one of the first `n` coefficient rows of `m` combines the rows `p` at byte `t` to zero.
pub open spec fn in_kernel(m: Seq<Seq<u8>>, p: Seq<Seq<u8>>, t: int, n: nat) -> bool {
    forall|k: int| 0 <= k < n ==> #[trigger] combine(m[k], p, t, n) == 0u8
}

/// The square matrix of the first `n` rows and columns of `m` is nonsingular: only zero
/// unknowns combine to zero under every row.
pub open spec fn nonsingular(m: Seq<Seq<u8>>, n: nat) -> bool {
    forall|p: Seq<Seq<u8>>, t: int| #[trigger] in_kernel(m, p, t, n) ==> zero_column(p, t, n)
}

/// The first diagonal entry of a matrix that is not one, at or before `c`.
proof fn lemma_first_non_unit(m: Seq<Vec<u8>>, c: int) -> (f: int)
    requires
        0 <= c,
        m[c]@[c] != 1u8,
    ensures
        0 <= f <= c,
        m[f]@[f] != 1u8,
        forall|j: int| 0 <= j < f ==> #[trigger] m[j]@[j] == 1u8,
    decreases c,
{
    if exists|j: int| 0 <= j < c && #[trigger] m[j]@[j] != 1u8 {
        let j = choose|j: int| 0 <= j < c && #[trigger] m[j]@[j] != 1u8;
        lemma_first_non_unit(m, j)
    } else {
        c
    }
}

/// Entry `j` of the kernel vector of a reduced matrix whose first missing pivot is in column `c`:
/// the entries of column `c` above the diagonal, then one, then zeros.
spec fn kernel_entry(m: Seq<Vec<u8>>, c: int, j: int) -> u8 {
    if j < c {
        m[j]@[c]
    } else if j == c {
        1u8
    } else {
        0u8
    }
}

/// The kernel vector as `n` rows of `w` bytes, its entries at byte zero.
spec fn kernel_vector(m: Seq<Vec<u8>>, c: int, n: nat, w: nat) -> Seq<Seq<u8>> {
    Seq::new(n, |j: int| Seq::new(w, |t: int| if t == 0 { kernel_entry(m, c, j) } else { 0u8 }))
}

/// Every row combines the kernel vector to zero past byte zero, where it is all zeros.
proof fn lemma_kernel_vector_elsewhere(r: Seq<u8>, m: Seq<Vec<u8>>, n: nat, w: nat, c: int, t: int)
    requires
        0 < t < w,
    ensures
        combine(r, kernel_vector(m, c, n, w), t, n) == 0u8,
{
    let kv = kernel_vector(m, c, n, w);
    lemma_xor_pair(0u8, 0u8);
    assert forall|j: int| 0 <= j < n && j != n && j != n + 1 implies #[trigger] field_mul(r[j], kv[j][t])
        == 0u8 by {
        lemma_mul_zero(r[j]);
    }
    lemma_combine_sparse(r, kv, t, n, n as int, (n + 1) as int);
}

/// Row `k` of a reduced matrix combines the kernel vector to zero at byte zero.
proof fn lemma_kernel_row(m: Seq<Vec<u8>>, n: nat, w: nat, c: int, k: int)
    requires
        0 <= c < n,
        0 <= k < n,
        w > 0,
        m.len() >= n,
        reduced(m, n as int),
        m[c]@[c] != 1u8,
        forall|j: int| 0 <= j < c ==> #[trigger] m[j]@[j] == 1u8,
    ensures
        combine(m[k]@, kernel_vector(m, c, n, w), 0, n) == 0u8,
{
    let kv = kernel_vector(m, c, n, w);
    let r = m[k]@;
    assert forall|j: int| 0 <= j < n && j != k && j != c implies #[trigger] field_mul(r[j], kv[j][0])
        == 0u8 by {
        lemma_mul_zero(r[j]);
        if j < c {
            assert(column_reduced(m, j, n as int));
            assert(m[j]@[j] == 1u8);
            assert(r[j] == 0u8);
            lemma_mul_zero(kv[j][0]);
        } else {
            assert(kv[j][0] == 0u8);
        }
    }
    assert(column_reduced(m, c, n as int));
    lemma_mul_commutative(r[c], 1u8);
    lemma_mul_one_left(r[c]);
    if k < c {
        lemma_combine_sparse(r, kv, 0, n, k, c);
        assert(column_reduced(m, k, n as int));
        assert(m[k]@[k] == 1u8);
        lemma_mul_one_left(m[k]@[c]);
        lemma_xor_pair(m[k]@[c], 0u8);
    } else {
        assert forall|j: int| 0 <= j < n && j != c && j != n implies #[trigger] field_mul(r[j], kv[j][0])
            == 0u8 by {
            if j != k {
                assert(field_mul(r[j], kv[j][0]) == 0u8);
            } else {
                lemma_mul_zero(r[j]);
            }
        }
        lemma_combine_sparse(r, kv, 0, n, c, n as int);
        assert(m[k]@[c] == 0u8);
        lemma_xor_pair(0u8, 0u8);
    }
}

/// Elimination of a nonsingular system finds every pivot. A reduced matrix whose system has
/// exactly the solutions of a system with a nonsingular matrix, when that system has some
/// solution and data rows of one non-zero width, is the identity.
pub proof fn lemma_nonsingular_reduces_to_identity(
    m0: Seq<Vec<u8>>,
    d0: Seq<Vec<u8>>,
    m1: Seq<Vec<u8>>,
    d1: Seq<Vec<u8>>,
    n: nat,
    w: nat,
    p: Seq<Seq<u8>>,
)
    requires
        nonsingular(rows(m0), n),
        m0.len() >= n,
        d0.len() >= n,
        m1.len() >= n,
        d1.len() >= n,
        w > 0,
        forall|k: int| 0 <= k < n ==> #[trigger] d0[k]@.len() == w,
        forall|k: int| 0 <= k < n ==> #[trigger] d1[k]@.len() == w,
        keeps_solutions(m0, d0, m1, d1, n),
        keeps_solutions(m1, d1, m0, d0, n),
        reduced(m1, n as int),
        solves(m0, d0, p, n),
    ensures
        is_identity(m1, n as int),
{
    if exists|c: int| 0 <= c < n && #[trigger] m1[c]@[c] != 1u8 {
        let c0 = choose|c: int| 0 <= c < n && #[trigger] m1[c]@[c] != 1u8;
        let c = lemma_first_non_unit(m1, c0);
        let kv = kernel_vector(m1, c, n, w);
        // the known solution, moved by the kernel vector, still solves the reduced system
        let p2 = Seq::new(n, |j: int| Seq::new(w, |t: int| p[j][t] ^ kv[j][t]));
        assert(solves(m1, d1, p, n));
        assert forall|k: int| 0 <= k < n implies #[trigger] row_holds(m1, d1, p2, n, k) by {
            assert(row_holds(m1, d1, p, n, k));
            assert forall|t: int| 0 <= t < d1[k]@.len() implies #[trigger] d1[k]@[t] == combine(
                m1[k]@,
                p2,
                t,
                n,
            ) by {
                lemma_combine_add(m1[k]@, p, kv, p2, t, n);
                lemma_xor_pair(combine(m1[k]@, p, t, n), 0u8);
                if t == 0 {
                    lemma_kernel_row(m1, n, w, c, k);
                } else {
                    lemma_kernel_vector_elsewhere(m1[k]@, m1, n, w, c, t);
                }
            }
        }
        assert(solves(m1, d1, p2, n));
        // so it solves the first system, and the kernel vector is in its kernel
        assert(solves(m0, d0, p2, n));
        assert forall|k: int| 0 <= k < n implies #[trigger] combine(m0[k]@, kv, 0, n) == 0u8 by {
            assert(row_holds(m0, d0, p, n, k));
            assert(row_holds(m0, d0, p2, n, k));
            assert(d0[k]@[0] == combine(m0[k]@, p, 0, n));
            assert(d0[k]@[0] == combine(m0[k]@, p2, 0, n));
            lemma_combine_add(m0[k]@, p, kv, p2, 0, n);
            let a = combine(m0[k]@, p, 0, n);
            let b = combine(m0[k]@, kv, 0, n);
            lemma_xor_pair(a, b);
        }
        assert(in_kernel(rows(m0), kv, 0, n));
        assert(kv[c][0] == 1u8);
        assert(false);
    } else {
        lemma_reduced_unit_diagonal_is_identity(m1, n as int);
    }
}

} // verus!

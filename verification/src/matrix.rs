//! The threshold matrix provider: the six supported Bayer matrices, their
//! recursive construction, and the proofs that each one is a permutation of
//! the ranks `0 .. n*n - 1` and that its tiling repeats with period `n`.

use vstd::prelude::*;

use vstd::arithmetic::div_mod::lemma_fundamental_div_mod;
use vstd::arithmetic::div_mod::lemma_fundamental_div_mod_converse;
use vstd::arithmetic::div_mod::lemma_mod_add_multiples_vanish;
use vstd::arithmetic::div_mod::lemma_mod_division_less_than_divisor;
use vstd::arithmetic::div_mod::lemma_multiply_divide_lt;
use vstd::arithmetic::div_mod::lemma_div_pos_is_pos;

use crate::ConfigurationError;
use crate::DitherError;

verus! {

/// The sizes the provider supports: the powers of two from 2 to 64.
pub open spec fn supported_size(n: int) -> bool {
    n == 2 || n == 4 || n == 8 || n == 16 || n == 32 || n == 64
}

/// Runtime check for [`supported_size`].
pub fn is_supported_size(n: usize) -> (r: bool)
    ensures
        r == supported_size(n as int),
{
    n == 2 || n == 4 || n == 8 || n == 16 || n == 32 || n == 64
}

/// Rank offset contributed by the quadrant `(qy, qx)` of a doubled matrix:
/// the classical dot-dispersing pattern 0, 2 over 3, 1.
pub open spec fn quadrant_offset(qy: int, qx: int) -> int {
    if qy == 0 {
        if qx == 0 {
            0
        } else {
            2
        }
    } else {
        if qx == 0 {
            3
        } else {
            1
        }
    }
}

/// One doubling step of the recursive Bayer construction: from the n-by-n
/// matrix `b`, the 2n-by-2n matrix whose entry at `(x, y)` (row-major index
/// `y * 2n + x`) is `4 * b[(y mod n, x mod n)] + quadrant_offset(y div n, x div n)`.
pub open spec fn bayer_double(b: Seq<u16>, n: int) -> Seq<u16> {
    Seq::new(
        (4 * n * n) as nat,
        |i: int|
            {
                let x = i % (2 * n);
                let y = i / (2 * n);
                (4 * b[(y % n) * n + (x % n)] + quadrant_offset(y / n, x / n)) as u16
            },
    )
}

/// The standard recursive Bayer matrix of size `n`, for `n` a power of two:
/// size 1 is the single rank 0, and each doubling applies [`bayer_double`].
pub open spec fn bayer_std(n: int) -> Seq<u16>
    decreases n,
{
    if n <= 1 {
        seq![0u16]
    } else {
        bayer_double(bayer_std(n / 2), n / 2)
    }
}

/// The published table for a supported size. Size 2 uses the fixed table
/// `[0, 3, 2, 1]`; the larger sizes follow the standard construction.
pub open spec fn matrix_spec(n: int) -> Seq<u16> {
    if n == 2 {
        seq![0u16, 3u16, 2u16, 1u16]
    } else {
        bayer_std(n)
    }
}

/// The matrix rank governing pixel `(x, y)` once the n-by-n matrix is tiled
/// over the plane.
pub open spec fn matrix_at(n: int, x: int, y: int) -> int {
    matrix_spec(n)[(y % n) * n + (x % n)] as int
}

/// Some entry of `m` holds the rank `v`.
pub open spec fn appears(m: Seq<u16>, v: int) -> bool {
    exists|i: int| 0 <= i < m.len() && (m[i] as int) == v
}

/// `m` is an n-by-n table holding every rank in `0 .. n*n - 1` exactly once.
pub open spec fn is_permutation(m: Seq<u16>, n: int) -> bool {
    &&& m.len() == n * n
    &&& forall|i: int| 0 <= i < m.len() ==> (m[i] as int) < n * n
    &&& forall|i: int, j: int| 0 <= i < j < m.len() ==> m[i] != m[j]
    &&& forall|v: int| 0 <= v < n * n ==> #[trigger] appears(m, v)
}

/// Executes one doubling step.
fn double_matrix(b: &Vec<u16>, n: usize) -> (r: Vec<u16>)
    requires
        1 <= n <= 32,
        b@.len() == n * n,
        forall|i: int| 0 <= i < b@.len() ==> (b@[i] as int) < n * n,
    ensures
        r@ == bayer_double(b@, n as int),
{
    let side: usize = 2 * n;
    let mut r: Vec<u16> = Vec::new();
    let ghost target = bayer_double(b@, n as int);
    proof {
        assert(target.len() == 4 * n * n);
    }
    let mut y: usize = 0;
    while y < side
        invariant
            1 <= n <= 32,
            side == 2 * n,
            y <= side,
            b@.len() == n * n,
            forall|i: int| 0 <= i < b@.len() ==> (b@[i] as int) < n * n,
            target == bayer_double(b@, n as int),
            r@.len() == y * side,
            forall|i: int| 0 <= i < r@.len() ==> r@[i] == target[i],
        decreases side - y,
    {
        let mut x: usize = 0;
        while x < side
            invariant
                1 <= n <= 32,
                side == 2 * n,
                y < side,
                x <= side,
                b@.len() == n * n,
                forall|i: int| 0 <= i < b@.len() ==> (b@[i] as int) < n * n,
                target == bayer_double(b@, n as int),
                r@.len() == y * side + x,
                forall|i: int| 0 <= i < r@.len() ==> r@[i] == target[i],
            decreases side - x,
        {
            let qy: usize = y / n;
            let qx: usize = x / n;
            let off: u16 = if qy == 0 {
                if qx == 0 {
                    0
                } else {
                    2
                }
            } else {
                if qx == 0 {
                    3
                } else {
                    1
                }
            };
            proof {
                assert((y % n) * n + (x % n) < n * n) by (nonlinear_arith)
                    requires
                        0 <= y % n < n,
                        0 <= x % n < n,
                ;
                assert(n * n <= 1024) by (nonlinear_arith)
                    requires
                        1 <= n <= 32,
                ;
            }
            let k: usize = (y % n) * n + (x % n);
            let bv: u16 = b[k];
            proof {
                assert(4 * (bv as int) + 3 < 4 * (n * n)) by (nonlinear_arith)
                    requires
                        (bv as int) < n * n,
                ;
                assert(4 * (n * n) <= 4096) by (nonlinear_arith)
                    requires
                        1 <= n <= 32,
                ;
            }
            let value: u16 = 4 * bv + off;
            let ghost i = y * side + x;
            proof {
                assert(i < 4 * n * n) by (nonlinear_arith)
                    requires
                        side == 2 * n,
                        i == y * side + x,
                        0 <= y < side,
                        0 <= x < side,
                        n >= 1,
                ;
                lemma_fundamental_div_mod_converse(i as int, side as int, y as int, x as int);
                assert(i % (2 * (n as int)) == x);
                assert(i / (2 * (n as int)) == y);
                assert(target[i as int] == value);
            }
            r.push(value);
            x = x + 1;
        }
        proof {
            assert(y * side + side == (y + 1) * side) by (nonlinear_arith);
        }
        y = y + 1;
    }
    proof {
        assert((2 * (n as int)) * (2 * (n as int)) == 4 * (n as int) * (n as int))
            by (nonlinear_arith);
        assert(r@ =~= target);
    }
    r
}

/// Resolves a requested size to its threshold matrix: the matching table for
/// each supported size, else the configuration error, before any work.
pub fn threshold_matrix(n: usize) -> (r: Result<Vec<u16>, DitherError>)
    ensures
        match r {
            Ok(m) => supported_size(n as int) && m@ == matrix_spec(n as int),
            Err(e) => !supported_size(n as int) && e == DitherError::Configuration(
                ConfigurationError::UnsupportedMatrixSize,
            ),
        },
{
    if n == 2 {
        let m: Vec<u16> = vec![0u16, 3u16, 2u16, 1u16];
        proof {
            assert(m@ =~= matrix_spec(2));
        }
        Ok(m)
    } else if n == 4 || n == 8 || n == 16 || n == 32 || n == 64 {
        let s1: Vec<u16> = vec![0u16];
        proof {
            assert(s1@ =~= bayer_std(1));
            assert(s1@.len() == 1);
            assert(s1@[0] == 0);
        }
        let s2 = double_matrix(&s1, 1);
        proof {
            assert(s2@ == bayer_std(2));
            lemma_bayer_std_bounds(2);
            assert(s2@.len() == 2 * 2);
        }
        let s4 = double_matrix(&s2, 2);
        proof {
            assert(s4@ == bayer_std(4));
            lemma_bayer_std_bounds(4);
        }
        if n == 4 {
            Ok(s4)
        } else {
            let s8 = double_matrix(&s4, 4);
            proof {
                assert(s8@ == bayer_std(8));
                lemma_bayer_std_bounds(8);
            }
            if n == 8 {
                Ok(s8)
            } else {
                let s16 = double_matrix(&s8, 8);
                proof {
                    assert(s16@ == bayer_std(16));
                    lemma_bayer_std_bounds(16);
                }
                if n == 16 {
                    Ok(s16)
                } else {
                    let s32 = double_matrix(&s16, 16);
                    proof {
                        assert(s32@ == bayer_std(32));
                        lemma_bayer_std_bounds(32);
                    }
                    if n == 32 {
                        Ok(s32)
                    } else {
                        let s64 = double_matrix(&s32, 32);
                        proof {
                            assert(s64@ == bayer_std(64));
                        }
                        Ok(s64)
                    }
                }
            }
        }
    } else {
        Err(DitherError::Configuration(ConfigurationError::UnsupportedMatrixSize))
    }
}

/// The entries of a standard Bayer matrix of size `n` lie below `n * n`, and
/// there are `n * n` of them. Helper for chaining the doubling steps.
proof fn lemma_bayer_std_bounds(n: int)
    requires
        n == 1 || n == 2 || n == 4 || n == 8 || n == 16 || n == 32 || n == 64,
    ensures
        bayer_std(n).len() == n * n,
        forall|i: int| 0 <= i < bayer_std(n).len() ==> (bayer_std(n)[i] as int) < n * n,
    decreases n,
{
    if n == 1 {
        assert(bayer_std(1) =~= seq![0u16]);
    } else {
        lemma_bayer_std_bounds(n / 2);
        lemma_double_bounds(bayer_std(n / 2), n / 2);
        assert(bayer_std(n) == bayer_double(bayer_std(n / 2), n / 2));
    }
}

/// Entry bounds of one doubling step: each entry of the doubled matrix lies
/// below `(2n) * (2n)`.
proof fn lemma_double_bounds(b: Seq<u16>, n: int)
    requires
        1 <= n <= 32,
        b.len() == n * n,
        forall|i: int| 0 <= i < b.len() ==> (b[i] as int) < n * n,
    ensures
        bayer_double(b, n).len() == (2 * n) * (2 * n),
        forall|i: int|
            0 <= i < bayer_double(b, n).len() ==> (bayer_double(b, n)[i] as int) < (2 * n) * (2
                * n),
{
    let d = bayer_double(b, n);
    assert((2 * n) * (2 * n) == 4 * n * n && 4 * n * n == 4 * (n * n)) by (nonlinear_arith);
    assert forall|i: int| 0 <= i < d.len() implies (d[i] as int) < (2 * n) * (2 * n) by {
        let x = i % (2 * n);
        let y = i / (2 * n);
        lemma_mod_division_less_than_divisor(i, 2 * n);
        lemma_div_pos_is_pos(i, 2 * n);
        lemma_multiply_divide_lt(i, 2 * n, 2 * n);
        lemma_mod_division_less_than_divisor(y, n);
        lemma_mod_division_less_than_divisor(x, n);
        let k = (y % n) * n + (x % n);
        assert(0 <= k < n * n) by (nonlinear_arith)
            requires
                0 <= y % n < n,
                0 <= x % n < n,
                k == (y % n) * n + (x % n),
        ;
        assert((b[k] as int) < n * n);
        assert(0 <= quadrant_offset(y / n, x / n) <= 3);
        let v_int = 4 * (b[k] as int) + quadrant_offset(y / n, x / n);
        assert(v_int < 4 * (n * n)) by (nonlinear_arith)
            requires
                (b[k] as int) < n * n,
                0 <= quadrant_offset(y / n, x / n) <= 3,
                v_int == 4 * (b[k] as int) + quadrant_offset(y / n, x / n),
        ;
        assert(4 * (n * n) <= u16::MAX + 1) by (nonlinear_arith)
            requires
                1 <= n <= 32,
        ;
        assert(d[i] == v_int as u16);
        assert((v_int as u16) as int == v_int);
    }
}

/// The doubled matrix holds, at the position built from entry `k` of `b` and
/// the quadrant `(qy, qx)`, the rank `4 * b[k] + quadrant_offset(qy, qx)`.
/// Helper for the completeness half of [`lemma_double_permutation`].
proof fn lemma_double_witness(b: Seq<u16>, n: int, k: int, qy: int, qx: int)
    requires
        1 <= n <= 32,
        b.len() == n * n,
        forall|i: int| 0 <= i < b.len() ==> (b[i] as int) < n * n,
        0 <= k < n * n,
        qy == 0 || qy == 1,
        qx == 0 || qx == 1,
    ensures
        appears(bayer_double(b, n), 4 * (b[k] as int) + quadrant_offset(qy, qx)),
{
    let d = bayer_double(b, n);
    let m = 2 * n;
    assert(m * m == 4 * n * n && 4 * n * n == 4 * (n * n)) by (nonlinear_arith)
        requires
            m == 2 * n,
    ;
    let yk = k / n;
    let xk = k % n;
    lemma_mod_division_less_than_divisor(k, n);
    lemma_div_pos_is_pos(k, n);
    lemma_multiply_divide_lt(k, n, n);
    lemma_fundamental_div_mod(k, n);
    let x = xk + qx * n;
    let y = yk + qy * n;
    if qx == 0 {
        assert(qx * n == 0);
    } else {
        assert(qx * n == n);
    }
    if qy == 0 {
        assert(qy * n == 0);
    } else {
        assert(qy * n == n);
    }
    assert(0 <= x < m && 0 <= y < m);
    let i = y * m + x;
    assert(0 <= i < m * m) by (nonlinear_arith)
        requires
            0 <= x < m,
            0 <= y < m,
            i == y * m + x,
    ;
    lemma_fundamental_div_mod_converse(i, m, y, x);
    assert(i % (2 * n) == x && i / (2 * n) == y);
    lemma_fundamental_div_mod_converse(x, n, qx, xk);
    lemma_fundamental_div_mod_converse(y, n, qy, yk);
    assert(x % n == xk && x / n == qx && y % n == yk && y / n == qy);
    assert((y % n) * n + (x % n) == k);
    let v_int = 4 * (b[k] as int) + quadrant_offset(qy, qx);
    assert(d[i] == v_int as u16);
    assert(v_int < 4 * (n * n)) by (nonlinear_arith)
        requires
            (b[k] as int) < n * n,
            0 <= quadrant_offset(qy, qx) <= 3,
            v_int == 4 * (b[k] as int) + quadrant_offset(qy, qx),
    ;
    assert(4 * (n * n) <= u16::MAX + 1) by (nonlinear_arith)
        requires
            1 <= n <= 32,
    ;
    assert((d[i] as int) == v_int);
    assert(appears(d, v_int));
}

/// One doubling step preserves the permutation invariant: if `b` holds every
/// rank in `0 .. n*n - 1` exactly once, the doubled matrix holds every rank
/// in `0 .. 4*n*n - 1` exactly once.
pub proof fn lemma_double_permutation(b: Seq<u16>, n: int)
    requires
        1 <= n <= 32,
        is_permutation(b, n),
    ensures
        is_permutation(bayer_double(b, n), 2 * n),
{
    let d = bayer_double(b, n);
    let m = 2 * n;
    lemma_double_bounds(b, n);
    assert(m * m == 4 * n * n && 4 * n * n == 4 * (n * n)) by (nonlinear_arith)
        requires
            m == 2 * n,
    ;
    assert(d.len() == m * m);
    assert forall|i: int, j: int| 0 <= i < j < d.len() implies d[i] != d[j] by {
        if d[i] == d[j] {
            let xi = i % m;
            let yi = i / m;
            let xj = j % m;
            let yj = j / m;
            lemma_mod_division_less_than_divisor(i, m);
            lemma_div_pos_is_pos(i, m);
            lemma_multiply_divide_lt(i, m, m);
            lemma_mod_division_less_than_divisor(j, m);
            lemma_div_pos_is_pos(j, m);
            lemma_multiply_divide_lt(j, m, m);
            lemma_mod_division_less_than_divisor(yi, n);
            lemma_mod_division_less_than_divisor(xi, n);
            lemma_mod_division_less_than_divisor(yj, n);
            lemma_mod_division_less_than_divisor(xj, n);
            lemma_div_pos_is_pos(yi, n);
            lemma_div_pos_is_pos(xi, n);
            lemma_div_pos_is_pos(yj, n);
            lemma_div_pos_is_pos(xj, n);
            lemma_multiply_divide_lt(yi, n, 2);
            lemma_multiply_divide_lt(xi, n, 2);
            lemma_multiply_divide_lt(yj, n, 2);
            lemma_multiply_divide_lt(xj, n, 2);
            let ki = (yi % n) * n + (xi % n);
            let kj = (yj % n) * n + (xj % n);
            assert(0 <= ki < n * n && 0 <= kj < n * n) by (nonlinear_arith)
                requires
                    0 <= yi % n < n,
                    0 <= xi % n < n,
                    0 <= yj % n < n,
                    0 <= xj % n < n,
                    ki == (yi % n) * n + (xi % n),
                    kj == (yj % n) * n + (xj % n),
            ;
            let vi = 4 * (b[ki] as int) + quadrant_offset(yi / n, xi / n);
            let vj = 4 * (b[kj] as int) + quadrant_offset(yj / n, xj / n);
            assert(d[i] == vi as u16 && d[j] == vj as u16);
            assert(vi < 4 * (n * n) && vj < 4 * (n * n)) by (nonlinear_arith)
                requires
                    (b[ki] as int) < n * n,
                    (b[kj] as int) < n * n,
                    0 <= quadrant_offset(yi / n, xi / n) <= 3,
                    0 <= quadrant_offset(yj / n, xj / n) <= 3,
                    vi == 4 * (b[ki] as int) + quadrant_offset(yi / n, xi / n),
                    vj == 4 * (b[kj] as int) + quadrant_offset(yj / n, xj / n),
            ;
            assert(4 * (n * n) <= u16::MAX + 1) by (nonlinear_arith)
                requires
                    1 <= n <= 32,
            ;
            assert(vi == vj);
            assert(b[ki] == b[kj]);
            assert(quadrant_offset(yi / n, xi / n) == quadrant_offset(yj / n, xj / n));
            assert(0 <= yi / n <= 1 && 0 <= xi / n <= 1 && 0 <= yj / n <= 1 && 0 <= xj / n
                <= 1);
            if ki < kj {
                assert(b[ki] != b[kj]);
            }
            if kj < ki {
                assert(b[kj] != b[ki]);
            }
            assert(ki == kj);
            assert(yi % n == yj % n && xi % n == xj % n) by (nonlinear_arith)
                requires
                    ki == kj,
                    ki == (yi % n) * n + (xi % n),
                    kj == (yj % n) * n + (xj % n),
                    0 <= xi % n < n,
                    0 <= xj % n < n,
            ;
            assert(yi / n == yj / n && xi / n == xj / n);
            lemma_fundamental_div_mod(yi, n);
            lemma_fundamental_div_mod(yj, n);
            lemma_fundamental_div_mod(xi, n);
            lemma_fundamental_div_mod(xj, n);
            assert(yi == yj && xi == xj);
            lemma_fundamental_div_mod(i, m);
            lemma_fundamental_div_mod(j, m);
            assert(i == j);
            assert(false);
        }
    }
    assert forall|v: int| 0 <= v < m * m implies #[trigger] appears(d, v) by {
        let q = v / 4;
        let r = v % 4;
        lemma_fundamental_div_mod(v, 4);
        lemma_mod_division_less_than_divisor(v, 4);
        lemma_div_pos_is_pos(v, 4);
        lemma_multiply_divide_lt(v, n * n, 4);
        assert(0 <= q < n * n);
        assert(appears(b, q));
        let k = choose|k: int| 0 <= k < b.len() && (b[k] as int) == q;
        let qy: int = if r == 1 || r == 3 {
            1
        } else {
            0
        };
        let qx: int = if r == 1 || r == 2 {
            1
        } else {
            0
        };
        assert(quadrant_offset(qy, qx) == r);
        lemma_double_witness(b, n, k, qy, qx);
        assert(4 * (b[k] as int) + quadrant_offset(qy, qx) == v);
    }
}

/// The fixed 2-by-2 table `[0, 3, 2, 1]` is a permutation of the ranks 0 to 3.
proof fn lemma_table2_permutation()
    ensures
        is_permutation(matrix_spec(2), 2),
{
    let m = matrix_spec(2);
    assert(m.len() == 4);
    assert(m[0] == 0 && m[1] == 3 && m[2] == 2 && m[3] == 1);
    assert forall|i: int| 0 <= i < m.len() implies (m[i] as int) < 2 * 2 by {
        if i == 0 {
        } else if i == 1 {
        } else if i == 2 {
        } else {
            assert(i == 3);
        }
    }
    assert forall|i: int, j: int| 0 <= i < j < m.len() implies m[i] != m[j] by {
        assert(m[0] == 0 && m[1] == 3 && m[2] == 2 && m[3] == 1);
    }
    assert forall|v: int| 0 <= v < 2 * 2 implies #[trigger] appears(m, v) by {
        if v == 0 {
            assert((m[0] as int) == v);
        } else if v == 1 {
            assert((m[3] as int) == v);
        } else if v == 2 {
            assert((m[2] as int) == v);
        } else {
            assert(v == 3);
            assert((m[1] as int) == v);
        }
        assert(appears(m, v));
    }
}

/// Every supported threshold matrix holds each rank in `0 .. n*n - 1` exactly
/// once: the dot pattern is evenly distributed at every gray level.
pub proof fn lemma_matrix_permutation(n: int)
    requires
        supported_size(n),
    ensures
        is_permutation(matrix_spec(n), n),
{
    if n == 2 {
        lemma_table2_permutation();
    } else {
        assert(is_permutation(bayer_std(1), 1)) by {
            let m1 = bayer_std(1);
            assert(m1 =~= seq![0u16]);
            assert(m1.len() == 1 && m1[0] == 0);
            assert forall|v: int| 0 <= v < 1 * 1 implies #[trigger] appears(m1, v) by {
                assert((m1[0] as int) == 0);
            }
        }
        lemma_double_permutation(bayer_std(1), 1);
        assert(bayer_std(2) == bayer_double(bayer_std(1), 1));
        lemma_double_permutation(bayer_std(2), 2);
        assert(bayer_std(4) == bayer_double(bayer_std(2), 2));
        if n >= 8 {
            lemma_double_permutation(bayer_std(4), 4);
            assert(bayer_std(8) == bayer_double(bayer_std(4), 4));
        }
        if n >= 16 {
            lemma_double_permutation(bayer_std(8), 8);
            assert(bayer_std(16) == bayer_double(bayer_std(8), 8));
        }
        if n >= 32 {
            lemma_double_permutation(bayer_std(16), 16);
            assert(bayer_std(32) == bayer_double(bayer_std(16), 16));
        }
        if n == 64 {
            lemma_double_permutation(bayer_std(32), 32);
            assert(bayer_std(64) == bayer_double(bayer_std(32), 32));
        }
        assert(matrix_spec(n) == bayer_std(n));
    }
}

/// Tiling: the threshold rank repeats with period `n` in both directions.
pub proof fn lemma_threshold_tiling(n: int, x: int, y: int)
    requires
        supported_size(n),
        x >= 0,
        y >= 0,
    ensures
        matrix_at(n, x + n, y) == matrix_at(n, x, y),
        matrix_at(n, x, y + n) == matrix_at(n, x, y),
{
    lemma_mod_add_multiples_vanish(x, n);
    lemma_mod_add_multiples_vanish(y, n);
}

} // verus!

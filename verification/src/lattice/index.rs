use vstd::arithmetic::div_mod::{
    lemma_fundamental_div_mod, lemma_mod_pos_bound, lemma_multiply_divide_lt,
};
use vstd::prelude::*;

verus! {

/// Position of cell `(i, j, k)` in an `x`-by-`y`-by-`z` block stored with `i` varying
/// fastest, then `j`, then `k`.
pub open spec fn flat_index(x: nat, y: nat, c: (usize, usize, usize)) -> int {
    c.2 * x * y + c.1 * x + c.0
}

/// Whether cell `c` lies inside an `x`-by-`y`-by-`z` block.
pub open spec fn in_block(x: nat, y: nat, z: nat, c: (usize, usize, usize)) -> bool {
    c.0 < x && c.1 < y && c.2 < z
}

/// If `q1 * m + r1 == q2 * m + r2` with both remainders below `m`, the quotients and
/// the remainders agree.
pub proof fn lemma_mixed_radix_unique(q1: int, r1: int, q2: int, r2: int, m: int)
    requires
        0 <= r1 < m,
        0 <= r2 < m,
        q1 * m + r1 == q2 * m + r2,
    ensures
        q1 == q2,
        r1 == r2,
{
    assert(q1 == q2) by (nonlinear_arith)
        requires
            0 <= r1 < m,
            0 <= r2 < m,
            q1 * m + r1 == q2 * m + r2,
    {
        if q1 < q2 {
            assert((q2 - q1) * m >= m);
        } else if q1 > q2 {
            assert((q1 - q2) * m >= m);
        }
    }
}

pub proof fn lemma_flat_index_bounds(x: nat, y: nat, z: nat, c: (usize, usize, usize))
    requires
        in_block(x, y, z, c),
    ensures
        0 <= c.1 * x + c.0 < x * y,
        0 <= flat_index(x, y, c) < x * y * z,
{
    let (i, j, k) = c;
    assert(0 <= j * x + i < x * y) by (nonlinear_arith)
        requires
            i < x,
            j < y,
    {
        assert(j * x + i < j * x + x);
        assert(j * x + x == (j + 1) * x);
        assert((j + 1) * x <= y * x);
    }
    assert(0 <= k * x * y + j * x + i < x * y * z) by (nonlinear_arith)
        requires
            0 <= j * x + i < x * y,
            k < z,
    {
        assert(k * x * y == k * (x * y));
        assert(k * (x * y) + x * y == (k + 1) * (x * y));
        assert((k + 1) * (x * y) <= z * (x * y));
        assert(z * (x * y) == x * y * z);
    }
}

pub proof fn lemma_flat_index_injective(
    x: nat,
    y: nat,
    z: nat,
    a: (usize, usize, usize),
    b: (usize, usize, usize),
)
    requires
        in_block(x, y, z, a),
        in_block(x, y, z, b),
        flat_index(x, y, a) == flat_index(x, y, b),
    ensures
        a == b,
{
    lemma_flat_index_bounds(x, y, z, a);
    lemma_flat_index_bounds(x, y, z, b);
    assert(a.2 * x * y == a.2 * (x * y)) by (nonlinear_arith);
    assert(b.2 * x * y == b.2 * (x * y)) by (nonlinear_arith);
    lemma_mixed_radix_unique(
        a.2 as int,
        a.1 * x + a.0,
        b.2 as int,
        b.1 * x + b.0,
        (x * y) as int,
    );
    lemma_mixed_radix_unique(a.1 as int, a.0 as int, b.1 as int, b.0 as int, x as int);
}

/// Each partial sum in `k * x * y + j * x + i` is at most the whole, so none of them
/// overflows when the whole is below `bound`.
pub proof fn lemma_flat_index_parts(x: nat, y: nat, z: nat, c: (usize, usize, usize))
    requires
        0 <= flat_index(x, y, c) < x * y * z,
    ensures
        c.2 * x <= c.2 * x * y,
        c.2 * x * y <= c.2 * x * y + c.1 * x <= flat_index(x, y, c),
        c.1 * x <= flat_index(x, y, c),
{
    let (i, j, k) = c;
    assert(y >= 1) by (nonlinear_arith)
        requires
            0 < x * y * z,
    ;
    assert(k * x <= k * x * y) by (nonlinear_arith)
        requires
            y >= 1,
    ;
    assert(0 <= k * x * y && 0 <= j * x) by (nonlinear_arith);
}

/// The cell stored at position `q`: `k = q / (x * y)`, then `j` and `i` from the
/// remainder.
pub open spec fn cell_of_index(x: nat, y: nat, q: int) -> (int, int, int) {
    let r = q % (x * y) as int;
    (r % x as int, r / x as int, q / (x * y) as int)
}

/// Every position below `x * y * z` holds exactly one in-bounds cell, the one
/// [`cell_of_index`] names.
pub proof fn lemma_cell_of_index(x: nat, y: nat, z: nat, q: int)
    requires
        0 <= q < x * y * z,
        x <= usize::MAX,
        y <= usize::MAX,
        z <= usize::MAX,
    ensures
        ({
            let (i, j, k) = cell_of_index(x, y, q);
            &&& 0 <= i < x
            &&& 0 <= j < y
            &&& 0 <= k < z
            &&& flat_index(x, y, (i as usize, j as usize, k as usize)) == q
        }),
{
    let xy = (x * y) as int;
    assert(x > 0 && y > 0 && z > 0 && xy > 0) by (nonlinear_arith)
        requires
            0 <= q < x * y * z,
            xy == x * y,
    ;
    let r = q % xy;
    let k = q / xy;
    let j = r / x as int;
    let i = r % x as int;
    lemma_fundamental_div_mod(q, xy);
    lemma_mod_pos_bound(q, xy);
    lemma_fundamental_div_mod(r, x as int);
    lemma_mod_pos_bound(r, x as int);
    assert(x * y * z == xy * z) by (nonlinear_arith)
        requires
            xy == x * y,
    ;
    lemma_multiply_divide_lt(q, xy, z as int);
    assert(r < x * y);
    lemma_multiply_divide_lt(r, x as int, y as int);
    assert(0 <= k) by (nonlinear_arith)
        requires
            q == xy * k + r,
            0 <= q,
            r < xy,
            xy > 0,
    ;
    assert(0 <= j) by (nonlinear_arith)
        requires
            r == x * j + i,
            0 <= r,
            i < x,
            x > 0,
    ;
    assert(k * x * y == xy * k) by (nonlinear_arith)
        requires
            xy == x * y,
    ;
    assert(j * x == x * j) by (nonlinear_arith);
    assert((i as usize) as int == i && (j as usize) as int == j && (k as usize) as int == k);
}

/// Reading back the position of an in-bounds cell gives the cell.
pub proof fn lemma_cell_of_flat_index(x: nat, y: nat, z: nat, c: (usize, usize, usize))
    requires
        in_block(x, y, z, c),
        x <= usize::MAX,
        y <= usize::MAX,
        z <= usize::MAX,
    ensures
        cell_of_index(x, y, flat_index(x, y, c)) == (c.0 as int, c.1 as int, c.2 as int),
{
    lemma_flat_index_bounds(x, y, z, c);
    let q = flat_index(x, y, c);
    lemma_cell_of_index(x, y, z, q);
    let (i, j, k) = cell_of_index(x, y, q);
    lemma_flat_index_injective(x, y, z, c, (i as usize, j as usize, k as usize));
}

/// The cell after `c` in storage order.
pub open spec fn next_cell(x: nat, y: nat, c: (usize, usize, usize)) -> (int, int, int) {
    if c.0 + 1 < x {
        (c.0 + 1, c.1 as int, c.2 as int)
    } else if c.1 + 1 < y {
        (0, c.1 + 1, c.2 as int)
    } else {
        (0, 0, c.2 + 1)
    }
}

/// Stepping to [`next_cell`] advances the storage position by one.
pub proof fn lemma_next_cell(x: nat, y: nat, z: nat, c: (usize, usize, usize))
    requires
        in_block(x, y, z, c),
    ensures
        ({
            let (i, j, k) = next_cell(x, y, c);
            &&& 0 <= i && 0 <= j && 0 <= k
            &&& k * x * y + j * x + i == flat_index(x, y, c) + 1
            &&& flat_index(x, y, c) + 1 < x * y * z ==> i < x && j < y && k < z
        }),
{
    let (i, j, k) = c;
    lemma_flat_index_bounds(x, y, z, c);
    if i + 1 < x {
    } else if j + 1 < y {
        assert((j + 1) * x == j * x + x) by (nonlinear_arith);
        assert(0 * x == 0) by (nonlinear_arith);
    } else {
        assert((k + 1) * x * y == k * x * y + x * y) by (nonlinear_arith);
        assert(j * x + x == x * y) by (nonlinear_arith)
            requires
                j + 1 == y,
        ;
        assert(0 * x == 0) by (nonlinear_arith);
        if flat_index(x, y, c) + 1 < x * y * z {
            assert(k + 1 < z) by (nonlinear_arith)
                requires
                    (k + 1) * x * y < x * y * z,
                    k + 1 >= 0,
            {
                if k + 1 >= z {
                    assert((k + 1) * x * y >= z * x * y);
                }
            }
        }
    }
}

} // verus!

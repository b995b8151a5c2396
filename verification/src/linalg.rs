use std::slice::Iter;
use vstd::prelude::*;

verus! {

/// A vector of three components.
#[derive(Copy, Clone)]
pub struct Vec3<T> {
    data: [T; 3],
}

impl<T: Copy> Vec3<T> {
    /// The three components, in order x, y, z.
    pub closed spec fn components(self) -> Seq<T> {
        self.data@
    }

    /// A vector whose three components all equal `value`.
    pub fn splat(value: T) -> (v: Self)
        ensures
            v.components() == seq![value, value, value],
    {
        let v = Self { data: [value, value, value] };
        assert(v.data@ =~= seq![value, value, value]);
        v
    }

    /// The vector with components `value[0]`, `value[1]`, `value[2]`.
    pub fn from_array(value: [T; 3]) -> (v: Self)
        ensures
            v.components() == value@,
    {
        Self { data: value }
    }

    /// An iterator over the three components, in order.
    pub fn iter(&self) -> (it: Iter<'_, T>)
        ensures
            vstd::std_specs::iter::IteratorSpec::remaining(&it).unref() == self.components(),
    {
        let it = self.data.iter();
        proof {
            broadcast use vstd::std_specs::slice::axiom_spec_slice_iter;
        }
        assert(vstd::std_specs::iter::IteratorSpec::remaining(&it).unref() =~= self.components());
        it
    }

    /// The component at `i` (0 for x, 1 for y, 2 for z), to be changed in place; the
    /// other two stay as they are.
    pub fn get_mut(&mut self, i: usize) -> (r: &mut T)
        requires
            i < 3,
        ensures
            *r == old(self).components()[i as int],
            final(self).components() == old(self).components().update(i as int, *final(r)),
    {
        &mut self.data[i]
    }

    /// The first component.
    pub fn x(&self) -> (r: T)
        ensures
            r == self.components()[0],
    {
        self.data[0]
    }

    /// The second component.
    pub fn y(&self) -> (r: T)
        ensures
            r == self.components()[1],
    {
        self.data[1]
    }

    /// The third component.
    pub fn z(&self) -> (r: T)
        ensures
            r == self.components()[2],
    {
        self.data[2]
    }

    /// The three components as an array.
    pub fn as_array(self) -> (r: [T; 3])
        ensures
            r@ == self.components(),
    {
        self.data
    }
}

impl<T: Copy> From<[T; 3]> for Vec3<T> {
    fn from(value: [T; 3]) -> (v: Self) {
        Self { data: value }
    }
}

impl<T: Copy> vstd::std_specs::convert::FromSpecImpl<[T; 3]> for Vec3<T> {
    open spec fn obeys_from_spec() -> bool {
        true
    }

    closed spec fn from_spec(v: [T; 3]) -> Self {
        Vec3 { data: v }
    }
}

/// An `R`-by-`C` matrix stored column by column: entry `(i, j)` (row `i`, column `j`)
/// sits at position `i + j * R`.
#[derive(PartialEq, Eq, Debug, Clone)]
pub struct Matrix<T, const R: usize, const C: usize> {
    data: Vec<T>,
}

impl<T: Copy, const R: usize, const C: usize> Matrix<T, R, C> {
    /// The entries in storage order.
    pub closed spec fn entries(self) -> Seq<T> {
        self.data@
    }

    pub open spec fn wf(self) -> bool {
        self.entries().len() == R * C
    }

    /// Entry `(i, j)`.
    pub open spec fn at(self, i: int, j: int) -> T {
        self.entries()[i + j * R]
    }

    /// The matrix whose entries, column by column, are `arr`.
    pub fn from_arr(arr: Vec<T>) -> (m: Self)
        requires
            arr@.len() == R * C,
        ensures
            m.entries() == arr@,
            m.wf(),
    {
        Self { data: arr }
    }

    /// An iterator over the entries in storage order.
    pub fn iter(&self) -> (it: Iter<'_, T>)
        ensures
            vstd::std_specs::iter::IteratorSpec::remaining(&it).unref() == self.entries(),
    {
        let it = self.data.iter();
        proof {
            broadcast use vstd::std_specs::slice::axiom_spec_slice_iter;
        }
        assert(vstd::std_specs::iter::IteratorSpec::remaining(&it).unref() =~= self.entries());
        it
    }

    /// The columns, each a run of `R` consecutive entries.
    pub fn cols(&self) -> (cols: Vec<&[T]>)
        requires
            self.wf(),
            R > 0,
        ensures
            cols@.len() == C,
            forall|j: int|
                0 <= j < C ==> (#[trigger] cols@[j])@ == self.entries().subrange(j * R, (j + 1) * R),
    {
        let mut cols: Vec<&[T]> = Vec::new();
        let slice = self.data.as_slice();
        let n = self.data.len();
        for j in 0..C
            invariant
                n == R * C,
                slice@ == self.entries(),
                self.wf(),
                R > 0,
                cols@.len() == j,
                forall|t: int|
                    0 <= t < j ==> (#[trigger] cols@[t])@ == self.entries().subrange(t * R, (t + 1) * R),
        {
            proof {
                assert((j + 1) * R <= C * R) by (nonlinear_arith)
                    requires
                        j < C,
                ;
                assert((j + 1) * R == j * R + R) by (nonlinear_arith);
                assert(C * R == R * C) by (nonlinear_arith);
            }
            let col = &slice[j * R..(j + 1) * R];
            cols.push(col);
        }
        cols
    }

    /// The entry at row `i`, column `j`.
    pub fn get(&self, i: usize, j: usize) -> (r: &T)
        requires
            self.wf(),
            i + j * R < R * C,
        ensures
            *r == self.at(i as int, j as int),
    {
        let n = self.data.len();
        assert(i + j * R < n);
        &self.data[i + j * R]
    }

    /// Replaces the entry at row `i`, column `j` with `value`.
    pub fn set(&mut self, i: usize, j: usize, value: T)
        requires
            old(self).wf(),
            i + j * R < R * C,
        ensures
            final(self).entries() == old(self).entries().update(i + j * R, value),
    {
        let n = self.data.len();
        assert(i + j * R < n);
        self.data.set(i + j * R, value);
    }

    /// The transpose. The entries are read as `R` columns of `R`, so the matrix must be
    /// square, or have no rows (its transpose is then empty too).
    pub fn transpose(&self) -> (t: Matrix<T, C, R>)
        requires
            self.wf(),
            R == C || R == 0,
        ensures
            t.wf(),
            forall|i: int, j: int| 0 <= i < R && 0 <= j < R ==> #[trigger] t.at(j, i) == self.at(i, j),
    {
        if R == 0 {
            assert(C * R == 0) by (nonlinear_arith)
                requires
                    R == 0,
            ;
            return Matrix::<T, C, R>::from_arr(Vec::new());
        }
        let mut data: Vec<T> = Vec::new();
        let n = self.data.len();
        assert(0 * R == 0) by (nonlinear_arith);
        for i in 0..R
            invariant
                self.wf(),
                n == R * C,
                R == C,
                data@.len() == i * R,
                forall|a: int, b: int|
                    0 <= a < i && 0 <= b < R ==> #[trigger] data@[a * R + b] == self.at(a, b),
        {
            for j in 0..R
                invariant
                    self.wf(),
                    n == R * C,
                    R == C,
                    i < R,
                    data@.len() == i * R + j,
                    forall|a: int, b: int|
                        (0 <= a < i && 0 <= b < R) || (a == i && 0 <= b < j) ==> #[trigger] data@[a * R + b]
                            == self.at(a, b),
            {
                proof {
                    assert(i + j * R < R * C) by (nonlinear_arith)
                        requires
                            i < R,
                            j < R,
                            R == C,
                    ;
                }
                let ghost before = data@;
                data.push(self.data[i + j * R]);
                proof {
                    assert forall|a: int, b: int|
                        (0 <= a < i && 0 <= b < R) || (a == i && 0 <= b < j + 1) implies #[trigger] data@[a * R
                            + b] == self.at(a, b) by {
                        if a == i && b == j {
                        } else {
                            assert(before[a * R + b] == self.at(a, b));
                            if a < i {
                                assert(a * R + b < i * R) by (nonlinear_arith)
                                    requires
                                        a < i,
                                        b < R,
                                ;
                            }
                        }
                    }
                }
            }
            assert((i + 1) * R == i * R + R) by (nonlinear_arith);
        }
        let t = Matrix::<T, C, R>::from_arr(data);
        proof {
            assert forall|i: int, j: int| 0 <= i < R && 0 <= j < R implies #[trigger] t.at(j, i) == self.at(i, j) by {
                assert(t.at(j, i) == data@[j + i * C]);
                assert(j + i * C == i * R + j) by (nonlinear_arith)
                    requires
                        R == C,
                ;
            }
        }
        t
    }

    /// The number of rows and columns.
    pub fn shape(&self) -> (s: (usize, usize))
        ensures
            s == (R, C),
    {
        (R, C)
    }
}

/// Transposing a square matrix twice gives it back.
pub proof fn law_transpose_involution<T: Copy, const N: usize>(
    m: Matrix<T, N, N>,
    t: Matrix<T, N, N>,
    tt: Matrix<T, N, N>,
)
    requires
        m.wf(),
        t.wf(),
        tt.wf(),
        forall|i: int, j: int| 0 <= i < N && 0 <= j < N ==> #[trigger] t.at(j, i) == m.at(i, j),
        forall|i: int, j: int| 0 <= i < N && 0 <= j < N ==> #[trigger] tt.at(j, i) == t.at(i, j),
    ensures
        tt.entries() == m.entries(),
{
    assert forall|p: int| 0 <= p < N * N implies tt.entries()[p] == m.entries()[p] by {
        let i = p % N as int;
        let j = p / N as int;
        vstd::arithmetic::div_mod::lemma_fundamental_div_mod(p, N as int);
        vstd::arithmetic::div_mod::lemma_mod_pos_bound(p, N as int);
        assert(N > 0) by (nonlinear_arith)
            requires
                0 <= p < N * N,
        ;
        vstd::arithmetic::div_mod::lemma_mod_pos_bound(p, N as int);
        assert(0 <= j < N) by (nonlinear_arith)
            requires
                p == N * j + i,
                0 <= i < N,
                0 <= p < N * N,
        ;
        assert(p == i + j * N) by (nonlinear_arith)
            requires
                p == N * j + i,
        ;
        assert(tt.at(i, j) == t.at(j, i));
        assert(t.at(j, i) == m.at(i, j));
    }
    assert(tt.entries() =~= m.entries());
}

} // verus!

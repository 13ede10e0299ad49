use vstd::prelude::*;
use vstd::arithmetic::div_mod::lemma_add_mod_noop;

verus! {

/// A dense matrix of `u64`, stored row by row.
pub type Matrix = Vec<Vec<u64>>;

/// Number of rows of a matrix.
pub open spec fn rows(m: Seq<Seq<u64>>) -> nat {
    m.len()
}

/// Number of columns of a matrix, read from its first row; zero when it has no rows.
pub open spec fn cols(m: Seq<Seq<u64>>) -> nat {
    if m.len() == 0 {
        0
    } else {
        m[0].len()
    }
}

/// Every row has the same length.
pub open spec fn rectangular(m: Seq<Seq<u64>>) -> bool {
    forall|i: int| 0 <= i < m.len() ==> #[trigger] m[i].len() == cols(m)
}

/// The exact integer sum over `k < n` of `row[k] * b[k][j]`.
pub open spec fn dot(row: Seq<u64>, b: Seq<Seq<u64>>, j: int, n: nat) -> int
    decreases n,
{
    if n == 0 {
        0
    } else {
        dot(row, b, j, (n - 1) as nat) + row[n - 1] * b[n - 1][j]
    }
}

/// Reduces an integer modulo 2^64, the way `u64` arithmetic wraps.
pub open spec fn wrap(x: int) -> u64 {
    (x % (u64::MAX as int + 1)) as u64
}

/// One output row: entry `j` is the wrapped dot product of `row` with column `j` of `b`.
pub open spec fn row_product(row: Seq<u64>, b: Seq<Seq<u64>>) -> Seq<u64> {
    Seq::new(cols(b), |j: int| wrap(dot(row, b, j, row.len())))
}

/// The matrix product `a * b` with wrapping `u64` arithmetic.
pub open spec fn product(a: Seq<Seq<u64>>, b: Seq<Seq<u64>>) -> Seq<Seq<u64>> {
    Seq::new(a.len(), |i: int| row_product(a[i], b))
}

proof fn lemma_wrap_step(s: int, x: u64, y: u64)
    ensures
        wrap(s + x * y) == wrap(s).wrapping_add(x.wrapping_mul(y)),
{
    let m = u64::MAX as int + 1;
    lemma_add_mod_noop(s, x * y, m);
    assert(0 <= s % m < m);
    assert(0 <= (x * y) % m < m);
}

/// Computes one output row: `a_row` times `b`. This is the unit of work that the
/// rows of a product are split into.
pub fn multiply_row(a_row: &Vec<u64>, b: &Matrix) -> (r: Vec<u64>)
    requires
        rectangular(b.deep_view()),
        a_row.len() == b.len(),
    ensures
        r@ == row_product(a_row@, b.deep_view()),
{
    let ghost bv = b.deep_view();
    let n_cols: usize = if b.len() == 0 {
        0
    } else {
        b[0].len()
    };
    let mut out: Vec<u64> = Vec::with_capacity(n_cols);
    let mut j: usize = 0;
    while j < n_cols
        invariant
            bv == b.deep_view(),
            rectangular(bv),
            a_row.len() == b.len(),
            n_cols == cols(bv),
            j <= n_cols,
            out@.len() == j,
            forall|jj: int| 0 <= jj < j ==> out@[jj] == wrap(dot(a_row@, bv, jj, a_row@.len())),
        decreases n_cols - j,
    {
        let mut acc: u64 = 0;
        let mut k: usize = 0;
        while k < a_row.len()
            invariant
                bv == b.deep_view(),
                rectangular(bv),
                a_row.len() == b.len(),
                n_cols == cols(bv),
                j < n_cols,
                k <= a_row.len(),
                acc == wrap(dot(a_row@, bv, j as int, k as nat)),
            decreases a_row.len() - k,
        {
            assert(bv[k as int].len() == n_cols);
            proof {
                lemma_wrap_step(dot(a_row@, bv, j as int, k as nat), a_row[k as int], b[k as int][j as int]);
            }
            acc = acc.wrapping_add(a_row[k].wrapping_mul(b[k][j]));
            k += 1;
        }
        out.push(acc);
        j += 1;
    }
    assert(out@ =~= row_product(a_row@, bv));
    out
}

/// Why two matrices cannot be multiplied.
#[derive(Debug, Clone, Copy, PartialEq, Eq, Structural)]
pub enum DimensionError {
    /// The left operand's column count differs from the right operand's row count.
    DimensionMismatch { left_cols: usize, right_rows: usize },
}

/// The error that reports the inner dimensions of `a * b`.
pub open spec fn mismatch(a: Seq<Seq<u64>>, b: Seq<Seq<u64>>) -> DimensionError {
    DimensionError::DimensionMismatch { left_cols: cols(a) as usize, right_rows: b.len() as usize }
}

/// Column count of a matrix as `cols` defines it.
fn col_count(m: &Matrix) -> (r: usize)
    ensures
        r == cols(m.deep_view()),
{
    if m.len() == 0 {
        0
    } else {
        m[0].len()
    }
}

/// Tells whether every row of `m` has the same length.
pub fn is_rectangular(m: &Matrix) -> (r: bool)
    ensures
        r == rectangular(m.deep_view()),
{
    let n_cols = col_count(m);
    let mut i: usize = 0;
    while i < m.len()
        invariant
            n_cols == cols(m.deep_view()),
            i <= m.len(),
            forall|ii: int| 0 <= ii < i ==> #[trigger] m.deep_view()[ii].len() == n_cols,
        decreases m.len() - i,
    {
        if m[i].len() != n_cols {
            assert(m.deep_view()[i as int].len() != cols(m.deep_view()));
            return false;
        }
        i += 1;
    }
    true
}

/// Checks that `a`'s column count equals `b`'s row count, the one condition under
/// which `a * b` is defined.
pub fn check_dimensions(a: &Matrix, b: &Matrix) -> (r: Result<(), DimensionError>)
    ensures
        r is Ok <==> cols(a.deep_view()) == rows(b.deep_view()),
        (r matches Err(e) ==> e == mismatch(a.deep_view(), b.deep_view())),
{
    let left_cols = col_count(a);
    if left_cols != b.len() {
        Err(DimensionError::DimensionMismatch { left_cols, right_rows: b.len() })
    } else {
        Ok(())
    }
}

/// Multiplies `matrix_a` by `matrix_b`, one row of the result at a time, with
/// wrapping `u64` arithmetic. Fails, before any work, when the inner dimensions
/// disagree.
pub fn multiply(matrix_a: Matrix, matrix_b: Matrix) -> (r: Result<Matrix, DimensionError>)
    requires
        rectangular(matrix_a.deep_view()),
        rectangular(matrix_b.deep_view()),
    ensures
        r is Ok <==> cols(matrix_a.deep_view()) == rows(matrix_b.deep_view()),
        (r matches Ok(m) ==> m.deep_view() == product(
            matrix_a.deep_view(),
            matrix_b.deep_view(),
        )),
        (r matches Ok(m) ==> m.len() == matrix_a.len() && forall|i: int|
            0 <= i < m.len() ==> #[trigger] m[i].len() == cols(matrix_b.deep_view())),
        (r matches Err(e) ==> e == mismatch(matrix_a.deep_view(), matrix_b.deep_view())),
{
    match check_dimensions(&matrix_a, &matrix_b) {
        Err(e) => {
            return Err(e);
        },
        Ok(()) => {},
    }
    let ghost av = matrix_a.deep_view();
    let ghost bv = matrix_b.deep_view();
    let mut ans: Matrix = Vec::with_capacity(matrix_a.len());
    let mut i: usize = 0;
    while i < matrix_a.len()
        invariant
            av == matrix_a.deep_view(),
            bv == matrix_b.deep_view(),
            rectangular(av),
            rectangular(bv),
            cols(av) == rows(bv),
            i <= matrix_a.len(),
            ans.len() == i,
            forall|ii: int| 0 <= ii < i ==> #[trigger] ans[ii]@ == row_product(av[ii], bv),
        decreases matrix_a.len() - i,
    {
        assert(av[i as int].len() == cols(av));
        assert(matrix_a[i as int]@ =~= av[i as int]);
        let row = multiply_row(&matrix_a[i], &matrix_b);
        ans.push(row);
        i += 1;
    }
    proof {
        assert forall|ii: int| 0 <= ii < ans.len() implies ans.deep_view()[ii] == ans[ii]@ by {
            assert(ans.deep_view()[ii] =~= ans[ii]@);
        }
        assert(ans.deep_view() =~= product(av, bv));
    }
    Ok(ans)
}

/// Some entry of the arrival log `d` carries row `i`.
pub open spec fn has_row(d: Seq<(usize, Seq<u64>)>, i: int) -> bool {
    exists|k: int| 0 <= k < d.len() && (#[trigger] d[k]).0 == i
}

/// The arrival log `d` carries each row index below its length exactly once.
pub open spec fn arrivals_valid(d: Seq<(usize, Seq<u64>)>) -> bool {
    &&& forall|k: int| 0 <= k < d.len() ==> (#[trigger] d[k]).0 < d.len()
    &&& forall|k1: int, k2: int|
        0 <= k1 < d.len() && 0 <= k2 < d.len() && k1 != k2 ==> (#[trigger] d[k1]).0 != (
        #[trigger] d[k2]).0
    &&& forall|i: int| 0 <= i < d.len() ==> #[trigger] has_row(d, i)
}

/// Position in the arrival log `d` of the entry that carries row `i`.
pub open spec fn arrival_of(d: Seq<(usize, Seq<u64>)>, i: int) -> int {
    choose|k: int| 0 <= k < d.len() && (#[trigger] d[k]).0 == i
}

/// The matrix whose row `i` is the row that the arrival log `d` tags with `i`.
pub open spec fn gathered(d: Seq<(usize, Seq<u64>)>) -> Seq<Seq<u64>> {
    Seq::new(d.len(), |i: int| d[arrival_of(d, i)].1)
}

/// Assembles finished rows, listed in the order they completed and each tagged
/// with its row index, into a matrix in row-index order. Returns `None` unless
/// the tags are exactly the indices below the number of rows, each once.
pub fn gather_rows(done: Vec<(usize, Vec<u64>)>) -> (r: Option<Matrix>)
    ensures
        r is Some <==> arrivals_valid(done.deep_view()),
        (r matches Some(m) ==> m.deep_view() == gathered(done.deep_view())),
{
    let ghost d = done.deep_view();
    let n = done.len();
    let mut slots: Matrix = Vec::with_capacity(n);
    let mut filled: Vec<bool> = Vec::with_capacity(n);
    let mut i: usize = 0;
    while i < n
        invariant
            i <= n,
            slots.len() == i,
            filled.len() == i,
            forall|ii: int| 0 <= ii < i ==> !(#[trigger] filled[ii]),
        decreases n - i,
    {
        slots.push(Vec::new());
        filled.push(false);
        i += 1;
    }
    let mut rest = done;
    while rest.len() > 0
        invariant
            d == done.deep_view(),
            n == d.len(),
            rest.len() <= n,
            forall|k: int| 0 <= k < rest.len() ==> (#[trigger] rest[k]).deep_view() == d[k],
            slots.len() == n,
            filled.len() == n,
            forall|k: int|
                rest.len() <= k < n ==> (#[trigger] d[k]).0 < n && filled[d[k].0 as int]
                    && slots[d[k].0 as int]@ == d[k].1,
            forall|k1: int, k2: int|
                rest.len() <= k1 < n && rest.len() <= k2 < n && k1 != k2 ==> (#[trigger] d[k1]).0
                    != (#[trigger] d[k2]).0,
            forall|ii: int|
                0 <= ii < n && #[trigger] filled[ii] ==> exists|k: int|
                    rest.len() <= k < n && (#[trigger] d[k]).0 == ii,
        decreases rest.len(),
    {
        let ghost k = rest.len() - 1;
        let (idx, row) = rest.pop().unwrap();
        assert(d[k].0 == idx);
        assert(row@ =~= d[k].1);
        if idx >= n {
            return None;
        }
        if filled[idx] {
            let ghost k2 = choose|k2: int| rest.len() < k2 < n && (#[trigger] d[k2]).0 == idx;
            assert(d[k].0 == d[k2].0);
            return None;
        }
        slots[idx] = row;
        filled[idx] = true;
        assert forall|ii: int| 0 <= ii < n && #[trigger] filled[ii] implies exists|k3: int|
            rest.len() <= k3 < n && (#[trigger] d[k3]).0 == ii by {
            if ii == idx {
                assert(d[k].0 == ii);
            }
        }
    }
    let mut j: usize = 0;
    while j < n
        invariant
            d == done.deep_view(),
            n == d.len(),
            filled.len() == n,
            j <= n,
            forall|ii: int| 0 <= ii < j ==> #[trigger] filled[ii],
            forall|ii: int|
                0 <= ii < n && #[trigger] filled[ii] ==> exists|k: int|
                    0 <= k < n && (#[trigger] d[k]).0 == ii,
            forall|k: int| 0 <= k < n ==> (#[trigger] d[k]).0 < n && filled[d[k].0 as int],
        decreases n - j,
    {
        if !filled[j] {
            assert(!has_row(d, j as int));
            return None;
        }
        j += 1;
    }
    proof {
        assert forall|ii: int| 0 <= ii < n implies #[trigger] has_row(d, ii) by {
            assert(filled[ii]);
        }
        assert forall|ii: int| 0 <= ii < n implies slots.deep_view()[ii] == gathered(d)[ii] by {
            let k = arrival_of(d, ii);
            assert(has_row(d, ii));
            assert(slots.deep_view()[ii] =~= slots[ii]@);
        }
        assert(slots.deep_view() =~= gathered(d));
    }
    Some(slots)
}

/// Gathering does not depend on completion order: two valid arrival logs that
/// hold the same tagged rows, in any two orders, gather to the same matrix.
pub proof fn lemma_gather_order_invariant(
    d1: Seq<(usize, Seq<u64>)>,
    d2: Seq<(usize, Seq<u64>)>,
)
    requires
        arrivals_valid(d1),
        arrivals_valid(d2),
        d1.to_multiset() == d2.to_multiset(),
    ensures
        gathered(d1) == gathered(d2),
{
    broadcast use vstd::seq_lib::group_to_multiset_ensures;

    assert(d1.len() == d2.len()) by {
        assert(d1.len() == d1.to_multiset().len());
        assert(d2.len() == d2.to_multiset().len());
    }
    assert forall|i: int| 0 <= i < d1.len() implies gathered(d1)[i] == gathered(d2)[i] by {
        assert(has_row(d2, i));
        let k2 = arrival_of(d2, i);
        assert(d2.to_multiset().count(d2[k2]) > 0) by {
            assert(d2.contains(d2[k2]));
        }
        assert(d1.contains(d2[k2]));
        let k1 = choose|k1: int| 0 <= k1 < d1.len() && d1[k1] == d2[k2];
        assert(has_row(d1, i));
        let j1 = arrival_of(d1, i);
        assert(d1[k1].0 == d1[j1].0);
    }
    assert(gathered(d1) =~= gathered(d2));
}

/// Row-parallel evaluation agrees with the product: whatever order the rows of
/// `a * b` complete in, gathering them yields `product(a, b)`.
pub proof fn lemma_gathered_rows_form_product(
    a: Seq<Seq<u64>>,
    b: Seq<Seq<u64>>,
    d: Seq<(usize, Seq<u64>)>,
)
    requires
        rectangular(a),
        rectangular(b),
        cols(a) == rows(b),
        arrivals_valid(d),
        d.len() == a.len(),
        forall|k: int| 0 <= k < d.len() ==> (#[trigger] d[k]).1 == row_product(a[d[k].0 as int], b),
    ensures
        gathered(d) == product(a, b),
{
    assert forall|i: int| 0 <= i < a.len() implies gathered(d)[i] == product(a, b)[i] by {
        assert(has_row(d, i));
        let k = arrival_of(d, i);
        assert(d[k].0 == i);
    }
    assert(gathered(d) =~= product(a, b));
}

/// The `n`-by-`n` identity matrix.
pub open spec fn identity_matrix(n: nat) -> Seq<Seq<u64>> {
    Seq::new(n, |i: int| Seq::new(n, |j: int| if i == j { 1u64 } else { 0u64 }))
}

proof fn lemma_dot_identity_right(row: Seq<u64>, n: nat, j: int, m: nat)
    requires
        row.len() == n,
        0 <= j < n,
        m <= n,
    ensures
        dot(row, identity_matrix(n), j, m) == if j < m { row[j] as int } else { 0 },
    decreases m,
{
    if m > 0 {
        let id = identity_matrix(n);
        let last = (m - 1) as int;
        lemma_dot_identity_right(row, n, j, (m - 1) as nat);
        if j == last {
            assert(id[last][j] == 1u64);
            assert(row[last] * id[last][j] == row[j]);
        } else {
            assert(id[last][j] == 0u64);
            assert(row[last] * id[last][j] == 0);
        }
    }
}

proof fn lemma_dot_identity_left(b: Seq<Seq<u64>>, i: int, j: int, m: nat)
    requires
        rectangular(b),
        0 <= i < b.len(),
        0 <= j < cols(b),
        m <= b.len(),
    ensures
        dot(identity_matrix(b.len()).index(i), b, j, m) == if i < m { b[i][j] as int } else { 0 },
    decreases m,
{
    if m > 0 {
        let row = identity_matrix(b.len()).index(i);
        let last = (m - 1) as int;
        lemma_dot_identity_left(b, i, j, (m - 1) as nat);
        assert(b[last].len() == cols(b));
        if i == last {
            assert(row[last] == 1u64);
            assert(row[last] * b[last][j] == b[last][j]);
        } else {
            assert(row[last] == 0u64);
            assert(row[last] * b[last][j] == 0);
        }
    }
}

/// Multiplying by the identity on the right returns the matrix unchanged.
pub proof fn lemma_identity_right(a: Seq<Seq<u64>>)
    requires
        rectangular(a),
    ensures
        product(a, identity_matrix(cols(a))) == a,
{
    let n = cols(a);
    assert forall|i: int| 0 <= i < a.len() implies product(a, identity_matrix(n))[i] == a[i] by {
        assert(a[i].len() == n);
        assert forall|j: int| 0 <= j < n implies row_product(a[i], identity_matrix(n))[j]
            == a[i][j] by {
            lemma_dot_identity_right(a[i], n, j, n);
        }
        assert(row_product(a[i], identity_matrix(n)) =~= a[i]);
    }
    assert(product(a, identity_matrix(n)) =~= a);
}

/// Multiplying by the identity on the left returns the matrix unchanged.
pub proof fn lemma_identity_left(a: Seq<Seq<u64>>)
    requires
        rectangular(a),
    ensures
        product(identity_matrix(rows(a)), a) == a,
{
    let n = rows(a);
    assert forall|i: int| 0 <= i < n implies product(identity_matrix(n), a)[i] == a[i] by {
        assert(a[i].len() == cols(a));
        assert forall|j: int| 0 <= j < cols(a) implies row_product(identity_matrix(n)[i], a)[j]
            == a[i][j] by {
            lemma_dot_identity_left(a, i, j, n);
        }
        assert(row_product(identity_matrix(n)[i], a) =~= a[i]);
    }
    assert(product(identity_matrix(n), a) =~= a);
}

/// Builds the `n`-by-`n` identity matrix.
pub fn identity(n: usize) -> (r: Matrix)
    ensures
        r.deep_view() == identity_matrix(n as nat),
        rectangular(r.deep_view()),
{
    let ghost id = identity_matrix(n as nat);
    let mut r: Matrix = Vec::with_capacity(n);
    let mut i: usize = 0;
    while i < n
        invariant
            id == identity_matrix(n as nat),
            i <= n,
            r.len() == i,
            forall|ii: int| 0 <= ii < i ==> (#[trigger] r[ii])@ == id[ii],
        decreases n - i,
    {
        let mut row: Vec<u64> = Vec::with_capacity(n);
        let mut j: usize = 0;
        while j < n
            invariant
                j <= n,
                i < n,
                row.len() == j,
                forall|jj: int| 0 <= jj < j ==> row[jj] == (if i == jj { 1u64 } else { 0u64 }),
            decreases n - j,
        {
            row.push(if i == j { 1 } else { 0 });
            j += 1;
        }
        assert(row@ =~= id[i as int]);
        r.push(row);
        i += 1;
    }
    assert forall|ii: int| 0 <= ii < n implies r.deep_view()[ii] == id[ii] by {
        assert(r.deep_view()[ii] =~= r[ii]@);
    }
    assert(r.deep_view() =~= id);
    r
}

} // verus!

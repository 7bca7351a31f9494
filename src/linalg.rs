use vstd::prelude::*;

verus! {

/// The integer values of a vector.
pub open spec fn vec_of(v: &Vec<i128>) -> Seq<int> {
    v@.map_values(|x: i128| x as int)
}

/// The integer values of a matrix, row by row.
pub open spec fn mat_of(m: &Vec<Vec<i128>>) -> Seq<Seq<int>> {
    m@.map_values(|r: Vec<i128>| vec_of(&r))
}

/// `a` has `r` rows of `c` entries each.
pub open spec fn is_mat(a: Seq<Seq<int>>, r: nat, c: nat) -> bool {
    a.len() == r && forall|i: int| 0 <= i < r ==> #[trigger] a[i].len() == c
}

/// Every entry of `v` lies in `[-b, b]`.
pub open spec fn vec_bounded(v: Seq<int>, b: int) -> bool {
    forall|k: int| 0 <= k < v.len() ==> -b <= #[trigger] v[k] <= b
}

/// Every entry of `a` lies in `[-b, b]`.
pub open spec fn mat_bounded(a: Seq<Seq<int>>, b: int) -> bool {
    forall|i: int| 0 <= i < a.len() ==> vec_bounded(#[trigger] a[i], b)
}

/// The sum of `u[k] * v[k]` over the indices of `u`.
pub open spec fn dot(u: Seq<int>, v: Seq<int>) -> int
    decreases u.len(),
{
    if u.len() == 0 {
        0
    } else {
        dot(u.drop_last(), v) + u.last() * v[u.len() - 1]
    }
}

/// Column `j` of `m`.
pub open spec fn col(m: Seq<Seq<int>>, j: int) -> Seq<int> {
    Seq::new(m.len(), |k: int| m[k][j])
}

/// The row vector `h` times the matrix `m`, which has `c` columns.
pub open spec fn vec_mat(h: Seq<int>, m: Seq<Seq<int>>, c: nat) -> Seq<int> {
    Seq::new(c, |j: int| dot(h, col(m, j)))
}

/// The matrix product `a * b`, where `b` has `c` columns.
pub open spec fn mat_mul(a: Seq<Seq<int>>, b: Seq<Seq<int>>, c: nat) -> Seq<Seq<int>> {
    Seq::new(a.len(), |i: int| vec_mat(a[i], b, c))
}

pub proof fn lemma_mul_bound(x: int, y: int, bx: int, by_: int)
    requires
        -bx <= x <= bx,
        -by_ <= y <= by_,
    ensures
        -(bx * by_) <= x * y <= bx * by_,
{
    assert(-(bx * by_) <= x * y <= bx * by_) by (nonlinear_arith)
        requires
            -bx <= x <= bx,
            -by_ <= y <= by_,
    ;
}

/// Row vector times column `j` of a matrix, exactly.
pub fn dot_col(h: &Vec<i128>, m: &Vec<Vec<i128>>, j: usize, bh: Ghost<int>, bm: Ghost<int>) -> (r: i128)
    requires
        h@.len() == m@.len(),
        forall|k: int| 0 <= k < m@.len() ==> j < (#[trigger] m@[k])@.len(),
        vec_bounded(vec_of(h), bh@),
        mat_bounded(mat_of(m), bm@),
        0 <= bh@,
        0 <= bm@,
        h@.len() * (bh@ * bm@) <= i128::MAX,
    ensures
        r as int == dot(vec_of(h), col(mat_of(m), j as int)),
        -(h@.len() * (bh@ * bm@)) <= r <= h@.len() * (bh@ * bm@),
{
    let ghost u = vec_of(h);
    let ghost v = col(mat_of(m), j as int);
    let mut acc: i128 = 0;
    let mut k: usize = 0;
    proof {
        assert(0 <= bh@ * bm@) by (nonlinear_arith)
            requires
                0 <= bh@,
                0 <= bm@,
        ;
    }
    while k < h.len()
        invariant
            k <= h@.len(),
            h@.len() == m@.len(),
            forall|k: int| 0 <= k < m@.len() ==> j < (#[trigger] m@[k])@.len(),
            vec_bounded(vec_of(h), bh@),
            mat_bounded(mat_of(m), bm@),
            0 <= bh@ * bm@,
            h@.len() * (bh@ * bm@) <= i128::MAX,
            u == vec_of(h),
            v == col(mat_of(m), j as int),
            acc as int == dot(u.take(k as int), v),
            -(k * (bh@ * bm@)) <= acc <= k * (bh@ * bm@),
        decreases h@.len() - k,
    {
        let x = h[k];
        let y = m[k][j];
        proof {
            assert(u[k as int] == x as int);
            assert(mat_of(m)[k as int] == vec_of(&m@[k as int]));
            assert(v[k as int] == y as int);
            lemma_mul_bound(x as int, y as int, bh@, bm@);
            assert((k + 1) * (bh@ * bm@) == k * (bh@ * bm@) + bh@ * bm@) by (nonlinear_arith);
            assert((k + 1) * (bh@ * bm@) <= h@.len() * (bh@ * bm@)) by (nonlinear_arith)
                requires
                    k + 1 <= h@.len(),
                    0 <= bh@ * bm@,
            ;
            assert(u.take(k as int + 1).drop_last() =~= u.take(k as int));
        }
        acc = acc + x * y;
        k = k + 1;
    }
    proof {
        assert(u.take(k as int) =~= u);
    }
    acc
}


/// The row vector `h` times the matrix `m`, exactly.
pub fn vec_mul_mat(h: &Vec<i128>, m: &Vec<Vec<i128>>, c: usize, bh: Ghost<int>, bm: Ghost<int>) -> (r: Vec<i128>)
    requires
        is_mat(mat_of(m), h@.len(), c as nat),
        vec_bounded(vec_of(h), bh@),
        mat_bounded(mat_of(m), bm@),
        0 <= bh@,
        0 <= bm@,
        h@.len() * (bh@ * bm@) <= i128::MAX,
    ensures
        vec_of(&r) == vec_mat(vec_of(h), mat_of(m), c as nat),
        vec_bounded(vec_of(&r), h@.len() * (bh@ * bm@)),
        r@.len() == c,
{
    let mut r: Vec<i128> = Vec::new();
    let mut j: usize = 0;
    proof {
        assert forall|k: int| 0 <= k < m@.len() implies j < (#[trigger] m@[k])@.len() || c == 0 by {
            assert(mat_of(m)[k] == vec_of(&m@[k]));
        }
    }
    while j < c
        invariant
            j <= c,
            is_mat(mat_of(m), h@.len(), c as nat),
            vec_bounded(vec_of(h), bh@),
            mat_bounded(mat_of(m), bm@),
            0 <= bh@,
            0 <= bm@,
            h@.len() * (bh@ * bm@) <= i128::MAX,
            r@.len() == j,
            forall|t: int| 0 <= t < j ==> (#[trigger] r@[t]) as int == dot(vec_of(h), col(mat_of(m), t)),
            forall|t: int| 0 <= t < j ==> -(h@.len() * (bh@ * bm@)) <= #[trigger] r@[t] <= h@.len() * (bh@ * bm@),
        decreases c - j,
    {
        proof {
            assert forall|k: int| 0 <= k < m@.len() implies j < (#[trigger] m@[k])@.len() by {
                assert(mat_of(m)[k] == vec_of(&m@[k]));
                assert(mat_of(m)[k].len() == c);
            }
        }
        let x = dot_col(h, m, j, bh, bm);
        r.push(x);
        j = j + 1;
    }
    proof {
        assert(vec_of(&r) =~= vec_mat(vec_of(h), mat_of(m), c as nat));
    }
    r
}

/// The matrix product `a * b`, exactly.
pub fn mat_mul_mat(a: &Vec<Vec<i128>>, b: &Vec<Vec<i128>>, n: usize, c: usize, ba: Ghost<int>, bb: Ghost<int>) -> (r: Vec<Vec<i128>>)
    requires
        is_mat(mat_of(a), a@.len() as nat, n as nat),
        is_mat(mat_of(b), n as nat, c as nat),
        mat_bounded(mat_of(a), ba@),
        mat_bounded(mat_of(b), bb@),
        0 <= ba@,
        0 <= bb@,
        n * (ba@ * bb@) <= i128::MAX,
    ensures
        mat_of(&r) == mat_mul(mat_of(a), mat_of(b), c as nat),
        is_mat(mat_of(&r), a@.len() as nat, c as nat),
        r@.len() == a@.len(),
        mat_bounded(mat_of(&r), n * (ba@ * bb@)),
{
    let mut r: Vec<Vec<i128>> = Vec::new();
    let mut i: usize = 0;
    while i < a.len()
        invariant
            i <= a@.len(),
            is_mat(mat_of(a), a@.len() as nat, n as nat),
            is_mat(mat_of(b), n as nat, c as nat),
            mat_bounded(mat_of(a), ba@),
            mat_bounded(mat_of(b), bb@),
            0 <= ba@,
            0 <= bb@,
            n * (ba@ * bb@) <= i128::MAX,
            r@.len() == i,
            forall|t: int| 0 <= t < i ==> vec_of(&#[trigger] r@[t]) == vec_mat(mat_of(a)[t], mat_of(b), c as nat),
            forall|t: int| 0 <= t < i ==> vec_bounded(vec_of(&#[trigger] r@[t]), n * (ba@ * bb@)),
        decreases a@.len() - i,
    {
        proof {
            assert(mat_of(a)[i as int] == vec_of(&a@[i as int]));
        }
        let row = vec_mul_mat(&a[i], b, c, ba, bb);
        r.push(row);
        i = i + 1;
    }
    proof {
        assert(mat_of(&r) =~= mat_mul(mat_of(a), mat_of(b), c as nat));
        assert forall|t: int| 0 <= t < mat_of(&r).len() implies #[trigger] mat_of(&r)[t].len() == c by {
            assert(mat_of(&r)[t] == vec_of(&r@[t]));
        }
        assert forall|t: int| 0 <= t < mat_of(&r).len() implies vec_bounded(#[trigger] mat_of(&r)[t], n * (ba@ * bb@)) by {
            assert(mat_of(&r)[t] == vec_of(&r@[t]));
        }
    }
    r
}


/// Index `k` of a sequence from which the entry at `i` was taken out.
pub open spec fn skip(k: int, i: int) -> int {
    if k < i {
        k
    } else {
        k + 1
    }
}

/// `v` without its entry at `j`.
pub open spec fn drop_at(v: Seq<int>, j: int) -> Seq<int> {
    Seq::new((v.len() - 1) as nat, |c: int| v[skip(c, j)])
}

/// `a` without its row `i`.
pub open spec fn drop_row(a: Seq<Seq<int>>, i: int) -> Seq<Seq<int>> {
    Seq::new((a.len() - 1) as nat, |r: int| a[skip(r, i)])
}

/// `a` without its row `i` and its column `j`.
pub open spec fn minor(a: Seq<Seq<int>>, i: int, j: int) -> Seq<Seq<int>> {
    drop_row(a, i).map_values(|r: Seq<int>| drop_at(r, j))
}

/// `1` for an even index, `-1` for an odd one.
pub open spec fn alt(k: int) -> int {
    if k % 2 == 0 {
        1
    } else {
        -1
    }
}

/// The determinant of a 3 by 3 matrix.
pub open spec fn det3(a: Seq<Seq<int>>) -> int {
    a[0][0] * (a[1][1] * a[2][2] - a[1][2] * a[2][1])
        - a[0][1] * (a[1][0] * a[2][2] - a[1][2] * a[2][0])
        + a[0][2] * (a[1][0] * a[2][1] - a[1][1] * a[2][0])
}

/// The determinant of a 4 by 4 matrix, by expansion along its first row.
pub open spec fn det4(a: Seq<Seq<int>>) -> int {
    a[0][0] * det3(minor(a, 0, 0)) - a[0][1] * det3(minor(a, 0, 1))
        + a[0][2] * det3(minor(a, 0, 2)) - a[0][3] * det3(minor(a, 0, 3))
}

fn drop_entry(v: &Vec<i128>, j: usize) -> (r: Vec<i128>)
    requires
        j < v@.len(),
    ensures
        vec_of(&r) == drop_at(vec_of(v), j as int),
{
    let mut r: Vec<i128> = Vec::new();
    let mut k: usize = 0;
    while k < v.len()
        invariant
            j < v@.len(),
            k <= v@.len(),
            r@.len() == if k <= j { k as int } else { k - 1 },
            forall|c: int| 0 <= c < r@.len() ==> #[trigger] r@[c] == v@[skip(c, j as int)],
        decreases v@.len() - k,
    {
        if k != j {
            r.push(v[k]);
        }
        k = k + 1;
    }
    proof {
        assert(vec_of(&r) =~= drop_at(vec_of(v), j as int));
    }
    r
}

/// A copy of `v`.
pub fn copy_vec(v: &Vec<i128>) -> (r: Vec<i128>)
    ensures
        r@ == v@,
{
    let mut r: Vec<i128> = Vec::new();
    let mut k: usize = 0;
    while k < v.len()
        invariant
            k <= v@.len(),
            r@ == v@.take(k as int),
        decreases v@.len() - k,
    {
        r.push(v[k]);
        k = k + 1;
        proof {
            assert(r@ =~= v@.take(k as int));
        }
    }
    proof {
        assert(v@.take(k as int) =~= v@);
    }
    r
}

pub fn remove_row(a: &Vec<Vec<i128>>, i: usize) -> (r: Vec<Vec<i128>>)
    requires
        i < a@.len(),
    ensures
        mat_of(&r) == drop_row(mat_of(a), i as int),
{
    let mut r: Vec<Vec<i128>> = Vec::new();
    let mut k: usize = 0;
    while k < a.len()
        invariant
            i < a@.len(),
            k <= a@.len(),
            r@.len() == if k <= i { k as int } else { k - 1 },
            forall|c: int| 0 <= c < r@.len() ==> (#[trigger] r@[c])@ == a@[skip(c, i as int)]@,
        decreases a@.len() - k,
    {
        if k != i {
            r.push(copy_vec(&a[k]));
        }
        k = k + 1;
    }
    proof {
        assert forall|c: int| 0 <= c < r@.len() implies #[trigger] mat_of(&r)[c] == drop_row(mat_of(a), i as int)[c] by {
            assert(vec_of(&r@[c]) =~= vec_of(&a@[skip(c, i as int)]));
        }
        assert(mat_of(&r) =~= drop_row(mat_of(a), i as int));
    }
    r
}

pub fn remove_row_col(a: &Vec<Vec<i128>>, i: usize, j: usize, n: Ghost<nat>) -> (r: Vec<Vec<i128>>)
    requires
        is_mat(mat_of(a), n@, n@),
        i < n@,
        j < n@,
    ensures
        mat_of(&r) == minor(mat_of(a), i as int, j as int),
        is_mat(mat_of(&r), (n@ - 1) as nat, (n@ - 1) as nat),
{
    let rows = remove_row(a, i);
    proof {
        assert(mat_of(&rows).len() == rows@.len());
    }
    let mut r: Vec<Vec<i128>> = Vec::new();
    let mut k: usize = 0;
    while k < rows.len()
        invariant
            is_mat(mat_of(a), n@, n@),
            i < n@,
            j < n@,
            mat_of(&rows) == drop_row(mat_of(a), i as int),
            rows@.len() == n@ - 1,
            k <= rows@.len(),
            r@.len() == k,
            forall|c: int| 0 <= c < k ==> vec_of(&#[trigger] r@[c]) == drop_at(vec_of(&rows@[c]), j as int),
        decreases rows@.len() - k,
    {
        proof {
            assert(mat_of(&rows)[k as int] == vec_of(&rows@[k as int]));
            assert(mat_of(a)[skip(k as int, i as int)].len() == n@);
            assert(vec_of(&rows@[k as int]).len() == rows@[k as int]@.len());
        }
        let e = drop_entry(&rows[k], j);
        r.push(e);
        k = k + 1;
    }
    proof {
        assert(mat_of(&r) =~= minor(mat_of(a), i as int, j as int)) by {
            assert forall|c: int| 0 <= c < r@.len() implies #[trigger] mat_of(&r)[c] == minor(mat_of(a), i as int, j as int)[c] by {
                assert(mat_of(&rows)[c] == vec_of(&rows@[c]));
            }
        }
        assert forall|c: int| 0 <= c < n@ - 1 implies #[trigger] mat_of(&r)[c].len() == n@ - 1 by {
            assert(mat_of(a)[skip(c, i as int)].len() == n@);
        }
    }
    r
}

proof fn lemma_cube_bound(b: int)
    requires
        0 <= b <= 0x100_0000_0000,
    ensures
        0 <= b * b <= 0x1_0000_0000_0000_0000_0000,
        0 <= b * (b * b) <= 0x100_0000_0000_0000_0000_0000_0000_0000,
        b * (2 * (b * b)) == 2 * (b * (b * b)),
{
    assert(0 <= b * b <= 0x1_0000_0000_0000_0000_0000) by (nonlinear_arith)
        requires
            0 <= b <= 0x100_0000_0000,
    ;
    assert(0 <= b * (b * b) <= 0x100_0000_0000_0000_0000_0000_0000_0000) by (nonlinear_arith)
        requires
            0 <= b <= 0x100_0000_0000,
            0 <= b * b <= 0x1_0000_0000_0000_0000_0000,
    ;
    assert(b * (2 * (b * b)) == 2 * (b * (b * b))) by (nonlinear_arith);
}

/// Determinant of a 3 by 3 matrix whose entries lie in `[-b, b]`.
pub fn det3_of(a: &Vec<Vec<i128>>, b: Ghost<int>) -> (r: i128)
    requires
        is_mat(mat_of(a), 3, 3),
        mat_bounded(mat_of(a), b@),
        0 <= b@ <= 0x100_0000_0000,
    ensures
        r as int == det3(mat_of(a)),
        -6 * (b@ * (b@ * b@)) <= r <= 6 * (b@ * (b@ * b@)),
{
    let ghost m = mat_of(a);
    proof {
        assert forall|i: int| 0 <= i < 3 implies (#[trigger] a@[i])@.len() == 3 && vec_of(&a@[i]) == m[i] by {
            assert(m[i] == vec_of(&a@[i]));
        }
        assert forall|i: int, j: int| 0 <= i < 3 && 0 <= j < 3 implies -b@ <= #[trigger] a@[i]@[j] <= b@ && a@[i]@[j] as int == m[i][j] by {
            assert(m[i] == vec_of(&a@[i]));
            assert(vec_of(&a@[i])[j] == a@[i]@[j] as int);
            assert(vec_bounded(m[i], b@));
        }
        lemma_cube_bound(b@);
    }
    let a00 = a[0][0];
    let a01 = a[0][1];
    let a02 = a[0][2];
    let a10 = a[1][0];
    let a11 = a[1][1];
    let a12 = a[1][2];
    let a20 = a[2][0];
    let a21 = a[2][1];
    let a22 = a[2][2];
    proof {
        lemma_mul_bound(a11 as int, a22 as int, b@, b@);
        lemma_mul_bound(a12 as int, a21 as int, b@, b@);
        lemma_mul_bound(a10 as int, a22 as int, b@, b@);
        lemma_mul_bound(a12 as int, a20 as int, b@, b@);
        lemma_mul_bound(a10 as int, a21 as int, b@, b@);
        lemma_mul_bound(a11 as int, a20 as int, b@, b@);
    }
    let d0 = a11 * a22 - a12 * a21;
    let d1 = a10 * a22 - a12 * a20;
    let d2 = a10 * a21 - a11 * a20;
    proof {
        lemma_mul_bound(a00 as int, d0 as int, b@, 2 * (b@ * b@));
        lemma_mul_bound(a01 as int, d1 as int, b@, 2 * (b@ * b@));
        lemma_mul_bound(a02 as int, d2 as int, b@, 2 * (b@ * b@));
    }
    a00 * d0 - a01 * d1 + a02 * d2
}


pub proof fn lemma_minor_bounded(a: Seq<Seq<int>>, n: nat, c: nat, i: int, j: int, b: int)
    requires
        is_mat(a, n, c),
        mat_bounded(a, b),
        0 <= i < n,
        0 <= j < c,
    ensures
        mat_bounded(minor(a, i, j), b),
        mat_bounded(drop_row(a, i), b),
{
    assert forall|r: int| 0 <= r < minor(a, i, j).len() implies vec_bounded(#[trigger] minor(a, i, j)[r], b) by {
        assert(vec_bounded(a[skip(r, i)], b));
        let row = minor(a, i, j)[r];
        assert forall|c: int| 0 <= c < row.len() implies -b <= #[trigger] row[c] <= b by {
            assert(row[c] == a[skip(r, i)][skip(c, j)]);
        }
    }
    assert forall|r: int| 0 <= r < drop_row(a, i).len() implies vec_bounded(#[trigger] drop_row(a, i)[r], b) by {
        assert(vec_bounded(a[skip(r, i)], b));
    }
}

pub proof fn lemma_quartic_bound(b: int)
    requires
        0 <= b <= 0x100_0000,
    ensures
        0 <= b * (b * b) <= 0x1_0000_0000_0000_0000_00,
        0 <= b * (6 * (b * (b * b))) <= 0x8_0000_0000_0000_0000_0000_0000,
        b * (6 * (b * (b * b))) == 6 * (b * (b * (b * b))),
{
    assert(0 <= b * b <= 0x1_0000_0000_0000) by (nonlinear_arith)
        requires
            0 <= b <= 0x100_0000,
    ;
    assert(0 <= b * (b * b) <= 0x1_0000_0000_0000_0000_00) by (nonlinear_arith)
        requires
            0 <= b <= 0x100_0000,
            0 <= b * b <= 0x1_0000_0000_0000,
    ;
    assert(0 <= b * (6 * (b * (b * b))) <= 0x8_0000_0000_0000_0000_0000_0000) by (nonlinear_arith)
        requires
            0 <= b <= 0x100_0000,
            0 <= b * (b * b) <= 0x1_0000_0000_0000_0000_00,
    ;
    assert(b * (6 * (b * (b * b))) == 6 * (b * (b * (b * b)))) by (nonlinear_arith);
}

/// Determinant of a 4 by 4 matrix whose entries lie in `[-b, b]`.
pub fn det4_of(a: &Vec<Vec<i128>>, b: Ghost<int>) -> (r: i128)
    requires
        is_mat(mat_of(a), 4, 4),
        mat_bounded(mat_of(a), b@),
        0 <= b@ <= 0x100_0000,
    ensures
        r as int == det4(mat_of(a)),
        -24 * (b@ * (b@ * (b@ * b@))) <= r <= 24 * (b@ * (b@ * (b@ * b@))),
{
    let ghost m = mat_of(a);
    proof {
        lemma_quartic_bound(b@);
        assert(m[0] == vec_of(&a@[0]));
        assert(vec_bounded(m[0], b@));
        assert(a@[0]@.len() == vec_of(&a@[0]).len());
        assert forall|j: int| 0 <= j < 4 implies (#[trigger] a@[0]@[j]) as int == m[0][j] && -b@ <= a@[0]@[j] <= b@ by {
            assert(vec_of(&a@[0])[j] == a@[0]@[j] as int);
        }
        assert(a@[0]@.len() == vec_of(&a@[0]).len());
        lemma_minor_bounded(m, 4, 4, 0, 0, b@);
        lemma_minor_bounded(m, 4, 4, 0, 1, b@);
        lemma_minor_bounded(m, 4, 4, 0, 2, b@);
        lemma_minor_bounded(m, 4, 4, 0, 3, b@);
    }
    let m0 = remove_row_col(a, 0, 0, Ghost(4));
    let m1 = remove_row_col(a, 0, 1, Ghost(4));
    let m2 = remove_row_col(a, 0, 2, Ghost(4));
    let m3 = remove_row_col(a, 0, 3, Ghost(4));
    let d0 = det3_of(&m0, b);
    let d1 = det3_of(&m1, b);
    let d2 = det3_of(&m2, b);
    let d3 = det3_of(&m3, b);
    let ghost c = 6 * (b@ * (b@ * b@));
    proof {
        lemma_mul_bound(a@[0]@[0] as int, d0 as int, b@, c);
        lemma_mul_bound(a@[0]@[1] as int, d1 as int, b@, c);
        lemma_mul_bound(a@[0]@[2] as int, d2 as int, b@, c);
        lemma_mul_bound(a@[0]@[3] as int, d3 as int, b@, c);
    }
    a[0][0] * d0 - a[0][1] * d1 + a[0][2] * d2 - a[0][3] * d3
}

} // verus!

//! The single-phase primal simplex engine as free functions: basis detection,
//! reduced-cost setup, Bland's entering rule, the minimum-ratio leaving rule,
//! and the pivot iteration, all over exact fractions.
//!
//! The matrix convention is variable-major: `a[col]` is the column of
//! coefficients of one variable, one entry per constraint row.

use vstd::prelude::*;

verus! {

use crate::fraction::Fraction;

/// Every fraction in the sequence is well-formed.
pub open spec fn all_wf(s: Seq<Fraction>) -> bool {
    forall|i: int| 0 <= i < s.len() ==> s[i].wf()
}

/// The sequence of column views of a variable-major matrix.
pub open spec fn mat_of(a: Seq<Vec<Fraction>>) -> Seq<Seq<Fraction>> {
    a.map_values(|c: Vec<Fraction>| c@)
}

/// `m` is a variable-major matrix with `n` columns of `rows` entries each.
pub open spec fn is_matrix(m: Seq<Seq<Fraction>>, n: int, rows: int) -> bool {
    m.len() == n && forall|i: int| 0 <= i < n ==> #[trigger] m[i].len() == rows
}

/// Every entry of the matrix is well-formed.
pub open spec fn mat_wf(m: Seq<Seq<Fraction>>) -> bool {
    forall|i: int| 0 <= i < m.len() ==> all_wf(#[trigger] m[i])
}

/// The zero fraction.
pub open spec fn frac_zero() -> Fraction {
    Fraction::from_int(0)
}

/// The column equals the `r`-th column of the identity matrix, entry by entry.
pub open spec fn is_unit_col(col: Seq<Fraction>, r: int) -> bool {
    forall|i: int| 0 <= i < col.len() ==> #[trigger] col[i] == (if i == r {
        Fraction::from_int(1)
    } else {
        Fraction::from_int(0)
    })
}

/// Reports an exact-arithmetic result that left the machine range.
#[derive(Clone, Copy, Debug, PartialEq, Eq, Structural)]
pub struct ArithmeticOverflow;

/// One multiply-accumulate step of a dot product, `None` on overflow.
pub open spec fn dot_step(acc: Fraction, x: Fraction, y: Fraction) -> Option<Fraction> {
    if x.mul_ok(y) {
        if acc.add_ok(x.mul_val(y)) {
            Some(acc.add_val(x.mul_val(y)))
        } else {
            None
        }
    } else {
        None
    }
}

/// The dot product of the first `k` entries, `None` if any step overflows.
pub open spec fn dot_prefix(x: Seq<Fraction>, y: Seq<Fraction>, k: int) -> Option<Fraction>
    decreases k,
{
    if k <= 0 {
        Some(Fraction::from_int(0))
    } else {
        match dot_prefix(x, y, k - 1) {
            Option::None => Option::None,
            Option::Some(acc) => dot_step(acc, x[k - 1], y[k - 1]),
        }
    }
}

/// The full dot product of two equal-length vectors.
pub open spec fn dot(x: Seq<Fraction>, y: Seq<Fraction>) -> Option<Fraction> {
    dot_prefix(x, y, x.len() as int)
}

/// Every entry of the sequence is a finite fraction in canonical form.
pub open spec fn all_canonical(s: Seq<Fraction>) -> bool {
    forall|i: int|
        0 <= i < s.len() ==> (#[trigger] s[i]).wf() && s[i].is_finite()
            && crate::fraction::is_reduced(s[i].numerator as int, s[i].denominator as int)
}

/// The dot product of an identity column with a canonical vector picks out
/// exactly that row's entry: the zero rows contribute nothing and the unit
/// row passes its factor through.
pub proof fn lemma_dot_unit_col(col: Seq<Fraction>, cb: Seq<Fraction>, r: int, k: int)
    requires
        col.len() == cb.len(),
        0 <= r < col.len(),
        is_unit_col(col, r),
        0 <= k <= col.len(),
        all_canonical(cb),
    ensures
        dot_prefix(col, cb, k) == Some(
            if k <= r {
                frac_zero()
            } else {
                cb[r]
            },
        ),
    decreases k,
{
    if k > 0 {
        lemma_dot_unit_col(col, cb, r, k - 1);
        let acc = if k - 1 <= r {
            frac_zero()
        } else {
            cb[r]
        };
        let x = col[k - 1];
        let y = cb[k - 1];
        assert(crate::fraction::is_reduced(0, 1)) by {
            assert(crate::fraction::gcd_nat(0, 1) == crate::fraction::gcd_nat(1, 0));
        }
        if k - 1 == r {
            assert(x == Fraction::from_int(1));
            // 1 * y == y, and 0 + y == y.
            assert(x.mul_val(y) == y) by {
                crate::fraction::lemma_canon_of_reduced(y.numerator as int, y.denominator as int);
                crate::fraction::lemma_canon_in_range(
                    x.numerator * y.numerator,
                    x.denominator * y.denominator,
                );
            }
            assert(acc == frac_zero());
            assert(acc.add_val(y) == y) by {
                assert(acc.numerator * y.denominator + y.numerator * acc.denominator
                    == y.numerator);
                crate::fraction::lemma_canon_of_reduced(y.numerator as int, y.denominator as int);
                crate::fraction::lemma_canon_in_range(y.numerator as int, y.denominator as int);
            }
        } else {
            assert(x == Fraction::from_int(0));
            // 0 * y == 0, and acc + 0 == acc.
            assert(x.mul_val(y) == frac_zero()) by {
                crate::fraction::lemma_canon_props(
                    x.numerator * y.numerator,
                    x.denominator * y.denominator,
                );
                assert(x.numerator * y.numerator == 0);
                assert(x.denominator * y.denominator == y.denominator);
            }
            assert(acc.add_val(frac_zero()) == acc) by {
                assert(acc.wf() && acc.is_finite() && crate::fraction::is_reduced(
                    acc.numerator as int,
                    acc.denominator as int,
                ));
                assert(acc.numerator * 1 + 0 * acc.denominator == acc.numerator);
                assert(acc.denominator * 1 == acc.denominator);
                crate::fraction::lemma_canon_of_reduced(
                    acc.numerator as int,
                    acc.denominator as int,
                );
                crate::fraction::lemma_canon_in_range(acc.numerator as int, acc.denominator as int);
            }
        }
    }
}

/// An overflow in a dot-product prefix never heals: every longer prefix
/// overflows too.
proof fn lemma_dot_prefix_none(x: Seq<Fraction>, y: Seq<Fraction>, k: int, l: int)
    requires
        0 <= k <= l,
        dot_prefix(x, y, k) is None,
    ensures
        dot_prefix(x, y, l) is None,
    decreases l,
{
    if l > k {
        lemma_dot_prefix_none(x, y, k, l - 1);
    }
}

/// Exact dot product, `None` when a partial sum leaves the machine range.
pub fn dot_product(x: &Vec<Fraction>, y: &Vec<Fraction>) -> (r: Option<Fraction>)
    requires
        x@.len() == y@.len(),
        all_wf(x@),
        all_wf(y@),
    ensures
        r == dot(x@, y@),
        r is Some ==> r->Some_0.wf(),
{
    let mut acc = Fraction::new(0, 1);
    let mut i: usize = 0;
    assert(acc == Fraction::from_int(0));
    while i < x.len()
        invariant
            0 <= i <= x@.len(),
            x@.len() == y@.len(),
            all_wf(x@),
            all_wf(y@),
            Some(acc) == dot_prefix(x@, y@, i as int),
            acc.wf(),
        decreases x@.len() - i,
    {
        let p = match x[i].checked_mul(y[i]) {
            Some(p) => p,
            None => {
                proof {
                    assert(dot_prefix(x@, y@, i + 1) is None);
                    lemma_dot_prefix_none(x@, y@, i + 1, x@.len() as int);
                }
                return None;
            },
        };
        acc = match acc.checked_add(p) {
            Some(s) => s,
            None => {
                proof {
                    assert(dot_prefix(x@, y@, i + 1) is None);
                    lemma_dot_prefix_none(x@, y@, i + 1, x@.len() as int);
                }
                return None;
            },
        };
        i = i + 1;
    }
    Some(acc)
}

/// Whether the column holds exactly the `r`-th identity column.
pub fn col_is_unit(col: &Vec<Fraction>, r: usize) -> (res: bool)
    requires
        r < col@.len(),
    ensures
        res == is_unit_col(col@, r as int),
{
    let mut i: usize = 0;
    while i < col.len()
        invariant
            0 <= i <= col@.len(),
            r < col@.len(),
            forall|j: int|
                0 <= j < i ==> #[trigger] col@[j] == (if j == r as int {
                    Fraction::from_int(1)
                } else {
                    Fraction::from_int(0)
                }),
        decreases col@.len() - i,
    {
        let c = col[i];
        let hit = if i == r {
            c.numerator == 1 && c.denominator == 1
        } else {
            c.numerator == 0 && c.denominator == 1
        };
        if !hit {
            return false;
        }
        i = i + 1;
    }
    true
}

/// The largest column index below `k` whose column equals the `r`-th
/// identity column, or `none_val` when none does.
pub open spec fn last_unit_col(m: Seq<Seq<Fraction>>, k: int, r: int, none_val: int) -> int
    decreases k,
{
    if k <= 0 {
        none_val
    } else if is_unit_col(m[k - 1], r) {
        k - 1
    } else {
        last_unit_col(m, k - 1, r, none_val)
    }
}

/// The deterministic choice agrees with its quantified description.
pub proof fn lemma_last_unit_col_props(m: Seq<Seq<Fraction>>, k: int, r: int, none_val: int)
    requires
        0 <= k,
    ensures
        ({
            let v = last_unit_col(m, k, r, none_val);
            if exists|c: int| 0 <= c < k && is_unit_col(#[trigger] m[c], r) {
                &&& 0 <= v < k
                &&& is_unit_col(m[v], r)
                &&& forall|c: int| v < c < k ==> !is_unit_col(#[trigger] m[c], r)
            } else {
                v == none_val
            }
        }),
    decreases k,
{
    if k > 0 && !is_unit_col(m[k - 1], r) {
        lemma_last_unit_col_props(m, k - 1, r, none_val);
    }
}

/// Scans the columns for the identity columns of dimension `m`; `b[r]` is the
/// last column equal to the `r`-th identity column, or `n + 1` when none is.
pub fn find_basis(a: &Vec<Vec<Fraction>>) -> (b: Vec<usize>)
    requires
        a@.len() > 0,
        a@.len() < usize::MAX,
        is_matrix(mat_of(a@), a@.len() as int, a@[0]@.len() as int),
    ensures
        b@.len() == a@[0]@.len(),
        forall|r: int|
            0 <= r < b@.len() ==> #[trigger] b@[r] as int == last_unit_col(
                mat_of(a@),
                a@.len() as int,
                r,
                a@.len() as int + 1,
            ),
        forall|r: int|
            0 <= r < b@.len() ==> if exists|c: int|
                0 <= c < a@.len() && is_unit_col(#[trigger] mat_of(a@)[c], r) {
                &&& #[trigger] b@[r] < a@.len()
                &&& is_unit_col(mat_of(a@)[b@[r] as int], r)
                &&& forall|c: int|
                    b@[r] < c < a@.len() ==> !is_unit_col(#[trigger] mat_of(a@)[c], r)
            } else {
                b@[r] == a@.len() + 1
            },
{
    let n = a.len();
    let m = a[0].len();
    let mut b: Vec<usize> = Vec::new();
    let mut r: usize = 0;
    while r < m
        invariant
            b@.len() == r,
            0 <= r <= m,
            n < usize::MAX,
            n == a@.len(),
            forall|j: int| 0 <= j < r ==> b@[j] == n + 1,
        decreases m - r,
    {
        b.push(n + 1);
        r = r + 1;
    }
    let mut col: usize = 0;
    while col < n
        invariant
            0 <= col <= n,
            n == a@.len(),
            m == a@[0]@.len(),
            n < usize::MAX,
            is_matrix(mat_of(a@), n as int, m as int),
            b@.len() == m,
            forall|r2: int|
                0 <= r2 < m ==> if exists|c: int|
                    0 <= c < col && is_unit_col(#[trigger] mat_of(a@)[c], r2) {
                    &&& #[trigger] b@[r2] < col
                    &&& is_unit_col(mat_of(a@)[b@[r2] as int], r2)
                    &&& forall|c: int|
                        b@[r2] < c < col ==> !is_unit_col(#[trigger] mat_of(a@)[c], r2)
                } else {
                    b@[r2] == n + 1
                },
        decreases n - col,
    {
        let mut r2: usize = 0;
        while r2 < m
            invariant
                0 <= r2 <= m,
                0 <= col < n,
                n == a@.len(),
                m == a@[0]@.len(),
                n < usize::MAX,
                is_matrix(mat_of(a@), n as int, m as int),
                b@.len() == m,
                forall|rr: int|
                    r2 <= rr < m ==> if exists|c: int|
                        0 <= c < col && is_unit_col(#[trigger] mat_of(a@)[c], rr) {
                        &&& #[trigger] b@[rr] < col
                        &&& is_unit_col(mat_of(a@)[b@[rr] as int], rr)
                        &&& forall|c: int|
                            b@[rr] < c < col ==> !is_unit_col(#[trigger] mat_of(a@)[c], rr)
                    } else {
                        b@[rr] == n + 1
                    },
                forall|rr: int|
                    0 <= rr < r2 ==> if exists|c: int|
                        0 <= c < col + 1 && is_unit_col(#[trigger] mat_of(a@)[c], rr) {
                        &&& #[trigger] b@[rr] < col + 1
                        &&& is_unit_col(mat_of(a@)[b@[rr] as int], rr)
                        &&& forall|c: int|
                            b@[rr] < c < col + 1 ==> !is_unit_col(#[trigger] mat_of(a@)[c], rr)
                    } else {
                        b@[rr] == n + 1
                    },
            decreases m - r2,
        {
            assert(mat_of(a@)[col as int] == a@[col as int]@);
            if col_is_unit(&a[col], r2) {
                b.set(r2, col);
            }
            r2 = r2 + 1;
        }
        col = col + 1;
    }
    proof {
        assert forall|r: int|
            0 <= r < b@.len() implies #[trigger] b@[r] as int == last_unit_col(
            mat_of(a@),
            n as int,
            r,
            n as int + 1,
        ) by {
            lemma_last_unit_col_props(mat_of(a@), n as int, r, n as int + 1);
            let v = last_unit_col(mat_of(a@), n as int, r, n as int + 1);
            if exists|c: int| 0 <= c < n && is_unit_col(#[trigger] mat_of(a@)[c], r) {
                // Both characterizations name the last matching column.
                if (b@[r] as int) < v {
                    assert(is_unit_col(mat_of(a@)[v], r));
                    assert(false);
                }
                if (b@[r] as int) > v {
                    assert(is_unit_col(mat_of(a@)[b@[r] as int], r));
                    assert(false);
                }
            }
        }
    }
    b
}

/// A plain element-by-element copy of an index vector.
pub fn copy_indices(v: &Vec<usize>) -> (r: Vec<usize>)
    ensures
        r@ == v@,
{
    let mut r: Vec<usize> = Vec::new();
    let mut i: usize = 0;
    while i < v.len()
        invariant
            0 <= i <= v@.len(),
            r@.len() == i,
            forall|j: int| 0 <= j < i ==> #[trigger] r@[j] == v@[j],
        decreases v@.len() - i,
    {
        r.push(v[i]);
        i = i + 1;
    }
    proof {
        assert(r@ =~= v@);
    }
    r
}

/// Whether the column holds exactly the negation of the `r`-th identity
/// column.
pub fn col_is_neg_unit(col: &Vec<Fraction>, r: usize) -> (res: bool)
    requires
        r < col@.len(),
    ensures
        res == is_neg_unit_col(col@, r as int),
{
    let mut i: usize = 0;
    while i < col.len()
        invariant
            0 <= i <= col@.len(),
            r < col@.len(),
            forall|j: int|
                0 <= j < i ==> #[trigger] col@[j] == (if j == r as int {
                    Fraction { numerator: -1i64, denominator: 1 }
                } else {
                    Fraction::from_int(0)
                }),
        decreases col@.len() - i,
    {
        let c = col[i];
        let hit = if i == r {
            c.numerator == -1 && c.denominator == 1
        } else {
            c.numerator == 0 && c.denominator == 1
        };
        if !hit {
            return false;
        }
        i = i + 1;
    }
    true
}

/// The column equals the negation of the `r`-th identity column.
pub open spec fn is_neg_unit_col(col: Seq<Fraction>, r: int) -> bool {
    forall|i: int| 0 <= i < col.len() ==> #[trigger] col[i] == (if i == r {
        Fraction { numerator: -1i64, denominator: 1 }
    } else {
        Fraction::from_int(0)
    })
}

/// Whether the vector holds the given index.
pub fn contains_index(v: &Vec<usize>, x: usize) -> (res: bool)
    ensures
        res == v@.contains(x),
{
    let mut i: usize = 0;
    while i < v.len()
        invariant
            0 <= i <= v@.len(),
            forall|j: int| 0 <= j < i ==> v@[j] != x,
        decreases v@.len() - i,
    {
        if v[i] == x {
            assert(v@.contains(x));
            return true;
        }
        i = i + 1;
    }
    assert(!v@.contains(x));
    false
}

/// Removes one row entry from one column.
pub fn mat_remove_entry(a: &mut Vec<Vec<Fraction>>, c: usize, r: usize)
    requires
        c < old(a)@.len(),
        r < old(a)@[c as int]@.len(),
    ensures
        final(a)@.len() == old(a)@.len(),
        forall|i: int| 0 <= i < old(a)@.len() && i != c ==> final(a)@[i] == old(a)@[i],
        final(a)@[c as int]@ == old(a)@[c as int]@.remove(r as int),
{
    let col: &mut Vec<Fraction> = &mut a[c];
    col.remove(r);
}

/// Appends one row entry to one column.
pub fn mat_push_entry(a: &mut Vec<Vec<Fraction>>, c: usize, v: Fraction)
    requires
        c < old(a)@.len(),
    ensures
        final(a)@.len() == old(a)@.len(),
        forall|i: int| 0 <= i < old(a)@.len() && i != c ==> final(a)@[i] == old(a)@[i],
        final(a)@[c as int]@ == old(a)@[c as int]@.push(v),
{
    let col: &mut Vec<Fraction> = &mut a[c];
    col.push(v);
}

/// Multiplies every entry of row `r` by minus one, in place.
#[verifier::loop_isolation(false)]
pub fn negate_row(a: &mut Vec<Vec<Fraction>>, r: usize)
    requires
        mat_wf(mat_of(old(a)@)),
        forall|i: int| 0 <= i < old(a)@.len() ==> r < (#[trigger] old(a)@[i])@.len(),
    ensures
        final(a)@.len() == old(a)@.len(),
        mat_wf(mat_of(final(a)@)),
        forall|i: int|
            0 <= i < old(a)@.len() ==> (#[trigger] final(a)@[i])@.len() == old(a)@[i]@.len(),
        forall|i: int, j: int|
            0 <= i < old(a)@.len() && 0 <= j < old(a)@[i]@.len() && j != r
                ==> #[trigger] final(a)@[i]@[j] == old(a)@[i]@[j],
        forall|i: int|
            0 <= i < old(a)@.len() ==> #[trigger] final(a)@[i]@[r as int] == old(
                a,
            )@[i]@[r as int].mul_val(Fraction { numerator: -1i64, denominator: 1i64 }),
{
    let n = a.len();
    let neg_one = Fraction { numerator: -1, denominator: 1 };
    proof {
        assert forall|k: int| 0 <= k < a@.len() implies all_wf((#[trigger] a@[k])@) by {
            assert(mat_of(a@)[k] == a@[k]@);
        }
    }
    let mut i: usize = 0;
    while i < n
        invariant
            0 <= i <= n,
            n == a@.len(),
            forall|k: int| 0 <= k < n ==> r < (#[trigger] a@[k])@.len(),
            forall|k: int| 0 <= k < n ==> (#[trigger] a@[k])@.len() == old(a)@[k]@.len(),
            forall|k: int| 0 <= k < n ==> all_wf((#[trigger] a@[k])@),
            forall|k: int, j: int|
                0 <= k < n && 0 <= j < a@[k]@.len() && j != r ==> #[trigger] a@[k]@[j] == old(
                    a,
                )@[k]@[j],
            forall|k: int|
                i <= k < n ==> #[trigger] a@[k]@[r as int] == old(a)@[k]@[r as int],
            forall|k: int|
                0 <= k < i ==> #[trigger] a@[k]@[r as int] == old(a)@[k]@[r as int].mul_val(
                    Fraction { numerator: -1i64, denominator: 1i64 },
                ),
        decreases n - i,
    {
        let v = a[i][r];
        proof {
            crate::fraction::lemma_mul_neg_one_wf(v);
        }
        let f = match v.checked_mul(neg_one) {
            Some(f) => f,
            None => {
                proof {
                    assert(false);
                }
                return ;
            },
        };
        let col: &mut Vec<Fraction> = &mut a[i];
        col.set(r, f);
        i = i + 1;
    }
    proof {
        assert forall|k: int| 0 <= k < mat_of(a@).len() implies all_wf(
            #[trigger] mat_of(a@)[k],
        ) by {
            assert(mat_of(a@)[k] == a@[k]@);
        }
        assert forall|k: int| 0 <= k < a@.len() implies #[trigger] mat_of(old(a)@)[k] == old(
            a,
        )@[k]@ by {}
    }
}

/// A plain element-by-element copy of a column.
pub fn copy_col(v: &Vec<Fraction>) -> (r: Vec<Fraction>)
    ensures
        r@ == v@,
{
    let mut r: Vec<Fraction> = Vec::new();
    let mut i: usize = 0;
    while i < v.len()
        invariant
            0 <= i <= v@.len(),
            r@.len() == i,
            forall|j: int| 0 <= j < i ==> #[trigger] r@[j] == v@[j],
        decreases v@.len() - i,
    {
        r.push(v[i]);
        i = i + 1;
    }
    proof {
        assert(r@ =~= v@);
    }
    r
}

/// The costs of the basic variables: `cb[i] == c[b[i]]`.
pub fn get_cost_basis(c: &Vec<Fraction>, b: &Vec<usize>) -> (cb: Vec<Fraction>)
    requires
        forall|i: int| 0 <= i < b@.len() ==> #[trigger] b@[i] < c@.len(),
    ensures
        cb@.len() == b@.len(),
        forall|i: int| 0 <= i < b@.len() ==> #[trigger] cb@[i] == c@[b@[i] as int],
{
    let m = b.len();
    let mut cb: Vec<Fraction> = Vec::new();
    let mut i: usize = 0;
    while i < m
        invariant
            0 <= i <= m,
            m == b@.len(),
            forall|j: int| 0 <= j < b@.len() ==> #[trigger] b@[j] < c@.len(),
            cb@.len() == i,
            forall|j: int| 0 <= j < i ==> #[trigger] cb@[j] == c@[b@[j] as int],
        decreases m - i,
    {
        cb.push(c[b[i]]);
        i = i + 1;
    }
    cb
}

/// The first index at or after `k` whose entry is negative, or the length
/// when there is none.
pub open spec fn bland_index(rc: Seq<Fraction>, k: int) -> int
    decreases rc.len() - k,
{
    if k < 0 || k >= rc.len() {
        rc.len() as int
    } else if rc[k].lt_val(frac_zero()) {
        k
    } else {
        bland_index(rc, k + 1)
    }
}

/// Bland's entering rule: the first index with a negative reduced cost, or
/// the length when every reduced cost is nonnegative (the tableau is then
/// optimal).
pub fn bland_reduced_cost(reduced_cost: &Vec<Fraction>) -> (i: usize)
    ensures
        i <= reduced_cost@.len(),
        i as int == bland_index(reduced_cost@, 0),
        i < reduced_cost@.len() ==> reduced_cost@[i as int].lt_val(frac_zero()) && forall|j: int|
            0 <= j < i ==> !(#[trigger] reduced_cost@[j].lt_val(frac_zero())),
        i == reduced_cost@.len() ==> forall|j: int|
            0 <= j < reduced_cost@.len() ==> !(#[trigger] reduced_cost@[j].lt_val(frac_zero())),
{
    let n = reduced_cost.len();
    let mut i: usize = 0;
    while i < n
        invariant
            0 <= i <= n,
            n == reduced_cost@.len(),
            bland_index(reduced_cost@, 0) == bland_index(reduced_cost@, i as int),
            forall|j: int| 0 <= j < i ==> !(#[trigger] reduced_cost@[j].lt_val(frac_zero())),
        decreases n - i,
    {
        if reduced_cost[i] < Fraction::from(0i64) {
            return i;
        }
        i = i + 1;
    }
    n
}

/// Strictly positive under the fraction order.
pub open spec fn is_pos(f: Fraction) -> bool {
    !f.le_val(frac_zero())
}

/// The ratio tested by the leaving rule in row `i`.
pub open spec fn ratio_at(col: Seq<Fraction>, b: Seq<Fraction>, i: int) -> Fraction {
    b[i].div_val(col[i])
}

/// State of the minimum-ratio scan after the first `k` rows: the least ratio
/// found so far (starting from the positive-infinity sentinel) and the first
/// row that attained it (`none_idx` while none has).  Only rows with a
/// strictly positive entry in the entering column take part; ties keep the
/// earlier row because only a strictly smaller ratio replaces the leader.
pub open spec fn min_ratio_prefix(col: Seq<Fraction>, b: Seq<Fraction>, k: int, none_idx: int) -> (
    Fraction,
    int,
)
    decreases k,
{
    if k <= 0 {
        (Fraction::from_int(i64::MAX as int), none_idx)
    } else {
        let prev = min_ratio_prefix(col, b, k - 1, none_idx);
        if is_pos(col[k - 1]) && ratio_at(col, b, k - 1).lt_val(prev.0) {
            (ratio_at(col, b, k - 1), k - 1)
        } else {
            prev
        }
    }
}

/// Every ratio the scan must form stays in the machine range.
pub open spec fn min_ratio_ok(col: Seq<Fraction>, b: Seq<Fraction>, k: int) -> bool {
    forall|i: int| 0 <= i < k && is_pos(#[trigger] col[i]) ==> b[i].div_ok(col[i])
}

/// The leaving rule: among rows with a strictly positive entry in the chosen
/// column, the first row with the least ratio `b[row] / a[col][row]`, together
/// with that ratio.  With no eligible row the ratio stays at the
/// positive-infinity sentinel and the index at `a.len()` (the program is then
/// unbounded).
pub fn find_min_ratio(a: &Vec<Vec<Fraction>>, b: &Vec<Fraction>, reduced_cost_index: &usize) -> (r:
    Result<(Fraction, usize), ArithmeticOverflow>)
    requires
        *reduced_cost_index < a@.len(),
        is_matrix(mat_of(a@), a@.len() as int, b@.len() as int),
        mat_wf(mat_of(a@)),
        all_wf(b@),
    ensures
        r is Ok <==> min_ratio_ok(mat_of(a@)[*reduced_cost_index as int], b@, b@.len() as int),
        r is Ok ==> r->Ok_0.0 == min_ratio_prefix(
            mat_of(a@)[*reduced_cost_index as int],
            b@,
            b@.len() as int,
            a@.len() as int,
        ).0,
        r is Ok ==> r->Ok_0.1 as int == min_ratio_prefix(
            mat_of(a@)[*reduced_cost_index as int],
            b@,
            b@.len() as int,
            a@.len() as int,
        ).1,
        r is Ok ==> r->Ok_0.0.wf(),
{
    let n = a.len();
    let m = b.len();
    let e = *reduced_cost_index;
    let ghost cs = mat_of(a@)[e as int];
    let mut minimum_ratio = Fraction::new(i64::MAX, 1);
    let mut minimum_ratio_index = n;
    let mut i: usize = 0;
    assert(cs == a@[e as int]@);
    while i < m
        invariant
            0 <= i <= m,
            e < n,
            e == *reduced_cost_index,
            n == a@.len(),
            m == b@.len(),
            is_matrix(mat_of(a@), n as int, m as int),
            mat_wf(mat_of(a@)),
            all_wf(b@),
            cs == mat_of(a@)[e as int],
            minimum_ratio == min_ratio_prefix(cs, b@, i as int, n as int).0,
            minimum_ratio_index as int == min_ratio_prefix(cs, b@, i as int, n as int).1,
            min_ratio_ok(cs, b@, i as int),
            minimum_ratio.wf(),
        decreases m - i,
    {
        assert(cs[i as int] == a@[e as int]@[i as int]);
        if !(a[e][i] <= Fraction::from(0i64)) {
            match b[i].checked_div(a[e][i]) {
                Some(ratio) => {
                    if ratio < minimum_ratio {
                        minimum_ratio = ratio;
                        minimum_ratio_index = i;
                    }
                },
                None => {
                    proof {
                        assert(is_pos(cs[i as int]) && !b@[i as int].div_ok(cs[i as int]));
                        assert(!min_ratio_ok(cs, b@, b@.len() as int));
                    }
                    return Err(ArithmeticOverflow);
                },
            }
        }
        i = i + 1;
    }
    Ok((minimum_ratio, minimum_ratio_index))
}

/// Every entry of the sequence is exactly the zero fraction.
pub open spec fn is_zero_vec(s: Seq<Fraction>) -> bool {
    forall|i: int| 0 <= i < s.len() ==> #[trigger] s[i] == frac_zero()
}

/// One reduced-cost entry: the basis-cost dot product of the column minus the
/// column's own cost.
pub open spec fn reduced_entry(col: Seq<Fraction>, cb: Seq<Fraction>, cost: Fraction) -> Option<
    Fraction,
> {
    match dot(col, cb) {
        Option::None => Option::None,
        Option::Some(s) => if s.sub_ok(cost) {
            Some(s.sub_val(cost))
        } else {
            Option::None
        },
    }
}

/// The whole reduced-cost row and objective stay in the machine range.
pub open spec fn reduced_cost_ok(
    m: Seq<Seq<Fraction>>,
    cb: Seq<Fraction>,
    b: Seq<Fraction>,
    c: Seq<Fraction>,
) -> bool {
    is_zero_vec(cb) || {
        &&& forall|j: int| 0 <= j < m.len() ==> reduced_entry(#[trigger] m[j], cb, c[j]) is Some
        &&& dot(cb, b) is Some
    }
}

/// Computes the reduced-cost row and the objective for basis costs `cb`:
/// entry `j` is `a[j] · cb − c[j]` and the objective is `cb · b`, except that
/// an all-zero `cb` short-cuts to entries `−c[j]` and objective zero.
pub fn compute_reduced_cost(
    cb: &Vec<Fraction>,
    a: &Vec<Vec<Fraction>>,
    b: &Vec<Fraction>,
    c: &Vec<Fraction>,
) -> (r: Result<(Vec<Fraction>, Fraction), ArithmeticOverflow>)
    requires
        is_matrix(mat_of(a@), a@.len() as int, b@.len() as int),
        cb@.len() == b@.len(),
        c@.len() == a@.len(),
        mat_wf(mat_of(a@)),
        all_wf(cb@),
        all_wf(b@),
        all_wf(c@),
    ensures
        r is Ok <==> reduced_cost_ok(mat_of(a@), cb@, b@, c@),
        r is Ok ==> ({
            let (rc, obj) = r->Ok_0;
            &&& rc@.len() == a@.len()
            &&& all_wf(rc@)
            &&& obj.wf()
            &&& if is_zero_vec(cb@) {
                obj == frac_zero() && forall|j: int|
                    0 <= j < rc@.len() ==> #[trigger] rc@[j] == c@[j].neg_val()
            } else {
                Some(obj) == dot(cb@, b@) && forall|j: int|
                    0 <= j < rc@.len() ==> Some(#[trigger] rc@[j]) == reduced_entry(
                        mat_of(a@)[j],
                        cb@,
                        c@[j],
                    )
            }
        }),
{
    let n = a.len();
    let m = b.len();
    let mut is_zero = true;
    let mut i: usize = 0;
    while i < m
        invariant
            0 <= i <= m,
            m == cb@.len(),
            is_zero <==> (forall|j: int| 0 <= j < i ==> #[trigger] cb@[j] == frac_zero()),
        decreases m - i,
    {
        let z = cb[i];
        if !(z.numerator == 0 && z.denominator == 1) {
            assert(cb@[i as int] != frac_zero());
            is_zero = false;
        }
        i = i + 1;
    }
    proof {
        assert(is_zero <==> is_zero_vec(cb@));
    }
    let mut reduced_cost: Vec<Fraction> = Vec::new();
    if !is_zero {
        let mut j: usize = 0;
        while j < n
            invariant
                0 <= j <= n,
                n == a@.len(),
                m == b@.len(),
                is_matrix(mat_of(a@), n as int, m as int),
                cb@.len() == m,
                c@.len() == n,
                mat_wf(mat_of(a@)),
                all_wf(cb@),
                all_wf(c@),
                !is_zero_vec(cb@),
                reduced_cost@.len() == j,
                all_wf(reduced_cost@),
                forall|k: int|
                    0 <= k < j ==> Some(#[trigger] reduced_cost@[k]) == reduced_entry(
                        mat_of(a@)[k],
                        cb@,
                        c@[k],
                    ),
            decreases n - j,
        {
            assert(mat_of(a@)[j as int] == a@[j as int]@);
            let s = match dot_product(&a[j], cb) {
                Some(s) => s,
                None => {
                    return Err(ArithmeticOverflow);
                },
            };
            let entry = match s.checked_sub(c[j]) {
                Some(v) => v,
                None => {
                    return Err(ArithmeticOverflow);
                },
            };
            reduced_cost.push(entry);
            j = j + 1;
        }
        let obj = match dot_product(cb, b) {
            Some(o) => o,
            None => {
                return Err(ArithmeticOverflow);
            },
        };
        proof {
            assert forall|j: int| 0 <= j < mat_of(a@).len() implies reduced_entry(
                #[trigger] mat_of(a@)[j],
                cb@,
                c@[j],
            ) is Some by {
                assert(Some(reduced_cost@[j]) == reduced_entry(mat_of(a@)[j], cb@, c@[j]));
            }
        }
        Ok((reduced_cost, obj))
    } else {
        let mut j: usize = 0;
        while j < n
            invariant
                0 <= j <= n,
                n == a@.len(),
                c@.len() == n,
                all_wf(c@),
                is_zero_vec(cb@),
                reduced_cost@.len() == j,
                all_wf(reduced_cost@),
                forall|k: int| 0 <= k < j ==> #[trigger] reduced_cost@[k] == c@[k].neg_val(),
            decreases n - j,
        {
            reduced_cost.push(core::ops::Neg::neg(c[j]));
            j = j + 1;
        }
        Ok((reduced_cost, Fraction::new(0, 1)))
    }
}

/// New value of an entry on the pivot row: the old entry over the pivot.
pub open spec fn pivot_row_entry(cur: Fraction, piv: Fraction) -> Option<Fraction> {
    if cur.div_ok(piv) {
        Some(cur.div_val(piv))
    } else {
        Option::None
    }
}

/// New value of an entry off the pivot row: `cur - x * y / piv`.
pub open spec fn pivot_elim_entry(cur: Fraction, x: Fraction, y: Fraction, piv: Fraction) -> Option<
    Fraction,
> {
    if x.mul_ok(y) {
        if x.mul_val(y).div_ok(piv) {
            if cur.sub_ok(x.mul_val(y).div_val(piv)) {
                Some(cur.sub_val(x.mul_val(y).div_val(piv)))
            } else {
                Option::None
            }
        } else {
            Option::None
        }
    } else {
        Option::None
    }
}

/// The matrix entry at column `c`, row `row` after a pivot at column `e`,
/// row `r`.
pub open spec fn pivot_mat_entry(m: Seq<Seq<Fraction>>, e: int, r: int, c: int, row: int) -> Option<
    Fraction,
> {
    if row == r {
        pivot_row_entry(m[c][r], m[e][r])
    } else {
        pivot_elim_entry(m[c][row], m[e][row], m[c][r], m[e][r])
    }
}

/// The right-hand-side entry at `row` after a pivot at `(e, r)`.
pub open spec fn pivot_rhs_entry(
    m: Seq<Seq<Fraction>>,
    b: Seq<Fraction>,
    e: int,
    r: int,
    row: int,
) -> Option<Fraction> {
    if row == r {
        pivot_row_entry(b[r], m[e][r])
    } else {
        pivot_elim_entry(b[row], b[r], m[e][row], m[e][r])
    }
}

/// The reduced-cost entry at column `c` after a pivot at `(e, r)`.
pub open spec fn pivot_rc_entry(
    m: Seq<Seq<Fraction>>,
    rc: Seq<Fraction>,
    e: int,
    r: int,
    c: int,
) -> Option<Fraction> {
    pivot_elim_entry(rc[c], rc[e], m[c][r], m[e][r])
}

/// The objective value after a pivot at `(e, r)`.
pub open spec fn pivot_obj_entry(
    m: Seq<Seq<Fraction>>,
    b: Seq<Fraction>,
    rc: Seq<Fraction>,
    obj: Fraction,
    e: int,
    r: int,
) -> Option<Fraction> {
    pivot_elim_entry(obj, b[r], rc[e], m[e][r])
}

/// Every value of the pivoted tableau stays in the machine range.
pub open spec fn pivot_ok(
    m: Seq<Seq<Fraction>>,
    b: Seq<Fraction>,
    rc: Seq<Fraction>,
    obj: Fraction,
    e: int,
    r: int,
) -> bool {
    &&& forall|c: int, row: int|
        0 <= c < m.len() && 0 <= row < b.len() ==> #[trigger] pivot_mat_entry(m, e, r, c, row)
            is Some
    &&& forall|row: int| 0 <= row < b.len() ==> #[trigger] pivot_rhs_entry(m, b, e, r, row) is Some
    &&& forall|c: int| 0 <= c < m.len() ==> #[trigger] pivot_rc_entry(m, rc, e, r, c) is Some
    &&& pivot_obj_entry(m, b, rc, obj, e, r) is Some
}

/// One Gauss-Jordan pivot step on entering column `e` and leaving row `r`:
/// the pivot row is scaled by the inverse of the pivot element and every
/// other row (the right-hand side, the reduced-cost row and the objective
/// included) has its entry in column `e` eliminated.
pub fn pivot_update(
    a: &Vec<Vec<Fraction>>,
    b: &Vec<Fraction>,
    reduced_cost: &Vec<Fraction>,
    obj: Fraction,
    e: usize,
    r: usize,
) -> (res: Result<(Vec<Vec<Fraction>>, Vec<Fraction>, Vec<Fraction>, Fraction), ArithmeticOverflow>)
    requires
        is_matrix(mat_of(a@), a@.len() as int, b@.len() as int),
        reduced_cost@.len() == a@.len(),
        e < a@.len(),
        r < b@.len(),
        mat_wf(mat_of(a@)),
        all_wf(b@),
        all_wf(reduced_cost@),
        obj.wf(),
    ensures
        res is Ok <==> pivot_ok(mat_of(a@), b@, reduced_cost@, obj, e as int, r as int),
        res is Ok ==> ({
            let (a2, b2, rc2, o2) = res->Ok_0;
            &&& is_matrix(mat_of(a2@), a@.len() as int, b@.len() as int)
            &&& b2@.len() == b@.len()
            &&& rc2@.len() == reduced_cost@.len()
            &&& mat_wf(mat_of(a2@))
            &&& all_wf(b2@)
            &&& all_wf(rc2@)
            &&& o2.wf()
            &&& forall|c: int, row: int|
                0 <= c < a@.len() && 0 <= row < b@.len() ==> Some(
                    #[trigger] mat_of(a2@)[c][row],
                ) == pivot_mat_entry(mat_of(a@), e as int, r as int, c, row)
            &&& forall|row: int|
                0 <= row < b@.len() ==> Some(#[trigger] b2@[row]) == pivot_rhs_entry(
                    mat_of(a@),
                    b@,
                    e as int,
                    r as int,
                    row,
                )
            &&& forall|c: int|
                0 <= c < a@.len() ==> Some(#[trigger] rc2@[c]) == pivot_rc_entry(
                    mat_of(a@),
                    reduced_cost@,
                    e as int,
                    r as int,
                    c,
                )
            &&& Some(o2) == pivot_obj_entry(mat_of(a@), b@, reduced_cost@, obj, e as int, r as int)
        }),
{
    let n = a.len();
    let m = b.len();
    let ghost m0 = mat_of(a@);
    let mut new_a: Vec<Vec<Fraction>> = Vec::new();
    let mut col: usize = 0;
    while col < n
        invariant
            0 <= col <= n,
            n == a@.len(),
            m == b@.len(),
            e < n,
            r < m,
            m0 == mat_of(a@),
            is_matrix(m0, n as int, m as int),
            mat_wf(m0),
            all_wf(b@),
            new_a@.len() == col,
            forall|c: int| 0 <= c < col ==> #[trigger] new_a@[c]@.len() == m,
            forall|c: int| 0 <= c < col ==> all_wf(#[trigger] new_a@[c]@),
            forall|c: int, row: int|
                0 <= c < col && 0 <= row < m ==> Some(#[trigger] new_a@[c]@[row])
                    == pivot_mat_entry(m0, e as int, r as int, c, row),
        decreases n - col,
    {
        let mut new_col: Vec<Fraction> = Vec::new();
        let mut row: usize = 0;
        while row < m
            invariant
                0 <= row <= m,
                0 <= col < n,
                n == a@.len(),
                m == b@.len(),
                e < n,
                r < m,
                m0 == mat_of(a@),
                is_matrix(m0, n as int, m as int),
                mat_wf(m0),
                new_col@.len() == row,
                all_wf(new_col@),
                forall|rr: int|
                    0 <= rr < row ==> Some(#[trigger] new_col@[rr]) == pivot_mat_entry(
                        m0,
                        e as int,
                        r as int,
                        col as int,
                        rr,
                    ),
            decreases m - row,
        {
            proof {
                assert(m0[col as int] == a@[col as int]@);
                assert(m0[e as int] == a@[e as int]@);
            }
            let entry = if row == r {
                match a[col][r].checked_div(a[e][r]) {
                    Some(v) => v,
                    None => {
                        proof {
                            assert(pivot_mat_entry(m0, e as int, r as int, col as int, r as int)
                                is None);
                        }
                        return Err(ArithmeticOverflow);
                    },
                }
            } else {
                let p = match a[e][row].checked_mul(a[col][r]) {
                    Some(v) => v,
                    None => {
                        proof {
                            assert(pivot_mat_entry(m0, e as int, r as int, col as int, row as int)
                                is None);
                        }
                        return Err(ArithmeticOverflow);
                    },
                };
                let q = match p.checked_div(a[e][r]) {
                    Some(v) => v,
                    None => {
                        proof {
                            assert(pivot_mat_entry(m0, e as int, r as int, col as int, row as int)
                                is None);
                        }
                        return Err(ArithmeticOverflow);
                    },
                };
                match a[col][row].checked_sub(q) {
                    Some(v) => v,
                    None => {
                        proof {
                            assert(pivot_mat_entry(m0, e as int, r as int, col as int, row as int)
                                is None);
                        }
                        return Err(ArithmeticOverflow);
                    },
                }
            };
            new_col.push(entry);
            row = row + 1;
        }
        new_a.push(new_col);
        proof {
            assert(mat_of(new_a@)[col as int] == new_a@[col as int]@);
        }
        col = col + 1;
    }
    let mut new_b: Vec<Fraction> = Vec::new();
    let mut row: usize = 0;
    while row < m
        invariant
            0 <= row <= m,
            n == a@.len(),
            m == b@.len(),
            e < n,
            r < m,
            m0 == mat_of(a@),
            is_matrix(m0, n as int, m as int),
            mat_wf(m0),
            all_wf(b@),
            new_b@.len() == row,
            all_wf(new_b@),
            forall|rr: int|
                0 <= rr < row ==> Some(#[trigger] new_b@[rr]) == pivot_rhs_entry(
                    m0,
                    b@,
                    e as int,
                    r as int,
                    rr,
                ),
        decreases m - row,
    {
        proof {
            assert(m0[e as int] == a@[e as int]@);
        }
        let entry = if row == r {
            match b[r].checked_div(a[e][r]) {
                Some(v) => v,
                None => {
                    proof {
                        assert(pivot_rhs_entry(m0, b@, e as int, r as int, r as int) is None);
                    }
                    return Err(ArithmeticOverflow);
                },
            }
        } else {
            let p = match b[r].checked_mul(a[e][row]) {
                Some(v) => v,
                None => {
                    proof {
                        assert(pivot_rhs_entry(m0, b@, e as int, r as int, row as int) is None);
                    }
                    return Err(ArithmeticOverflow);
                },
            };
            let q = match p.checked_div(a[e][r]) {
                Some(v) => v,
                None => {
                    proof {
                        assert(pivot_rhs_entry(m0, b@, e as int, r as int, row as int) is None);
                    }
                    return Err(ArithmeticOverflow);
                },
            };
            match b[row].checked_sub(q) {
                Some(v) => v,
                None => {
                    proof {
                        assert(pivot_rhs_entry(m0, b@, e as int, r as int, row as int) is None);
                    }
                    return Err(ArithmeticOverflow);
                },
            }
        };
        new_b.push(entry);
        row = row + 1;
    }
    let mut new_rc: Vec<Fraction> = Vec::new();
    let mut col: usize = 0;
    while col < n
        invariant
            0 <= col <= n,
            n == a@.len(),
            m == b@.len(),
            e < n,
            r < m,
            m0 == mat_of(a@),
            is_matrix(m0, n as int, m as int),
            mat_wf(m0),
            all_wf(b@),
            all_wf(reduced_cost@),
            reduced_cost@.len() == n,
            new_rc@.len() == col,
            all_wf(new_rc@),
            forall|c: int|
                0 <= c < col ==> Some(#[trigger] new_rc@[c]) == pivot_rc_entry(
                    m0,
                    reduced_cost@,
                    e as int,
                    r as int,
                    c,
                ),
        decreases n - col,
    {
        proof {
            assert(m0[col as int] == a@[col as int]@);
            assert(m0[e as int] == a@[e as int]@);
        }
        let p = match reduced_cost[e].checked_mul(a[col][r]) {
            Some(v) => v,
            None => {
                proof {
                    assert(pivot_rc_entry(m0, reduced_cost@, e as int, r as int, col as int)
                        is None);
                }
                return Err(ArithmeticOverflow);
            },
        };
        let q = match p.checked_div(a[e][r]) {
            Some(v) => v,
            None => {
                proof {
                    assert(pivot_rc_entry(m0, reduced_cost@, e as int, r as int, col as int)
                        is None);
                }
                return Err(ArithmeticOverflow);
            },
        };
        let entry = match reduced_cost[col].checked_sub(q) {
            Some(v) => v,
            None => {
                proof {
                    assert(pivot_rc_entry(m0, reduced_cost@, e as int, r as int, col as int)
                        is None);
                }
                return Err(ArithmeticOverflow);
            },
        };
        new_rc.push(entry);
        col = col + 1;
    }
    proof {
        assert(m0[e as int] == a@[e as int]@);
    }
    let p = match b[r].checked_mul(reduced_cost[e]) {
        Some(v) => v,
        None => {
            proof {
                assert(pivot_obj_entry(m0, b@, reduced_cost@, obj, e as int, r as int) is None);
            }
            return Err(ArithmeticOverflow);
        },
    };
    let q = match p.checked_div(a[e][r]) {
        Some(v) => v,
        None => {
            proof {
                assert(pivot_obj_entry(m0, b@, reduced_cost@, obj, e as int, r as int) is None);
            }
            return Err(ArithmeticOverflow);
        },
    };
    let new_obj = match obj.checked_sub(q) {
        Some(v) => v,
        None => {
            proof {
                assert(pivot_obj_entry(m0, b@, reduced_cost@, obj, e as int, r as int) is None);
            }
            return Err(ArithmeticOverflow);
        },
    };
    proof {
        assert(forall|c: int| 0 <= c < n ==> #[trigger] mat_of(new_a@)[c] == new_a@[c]@);
        assert forall|c: int, row: int|
            0 <= c < m0.len() && 0 <= row < b@.len() implies #[trigger] pivot_mat_entry(
            m0,
            e as int,
            r as int,
            c,
            row,
        ) is Some by {
            assert(Some(new_a@[c]@[row]) == pivot_mat_entry(m0, e as int, r as int, c, row));
        }
        assert forall|row: int|
            0 <= row < b@.len() implies #[trigger] pivot_rhs_entry(m0, b@, e as int, r as int, row)
            is Some by {
            assert(Some(new_b@[row]) == pivot_rhs_entry(m0, b@, e as int, r as int, row));
        }
        assert forall|c: int|
            0 <= c < m0.len() implies #[trigger] pivot_rc_entry(
            m0,
            reduced_cost@,
            e as int,
            r as int,
            c,
        ) is Some by {
            assert(Some(new_rc@[c]) == pivot_rc_entry(m0, reduced_cost@, e as int, r as int, c));
        }
    }
    Ok((new_a, new_b, new_rc, new_obj))
}

/// Some column of the matrix equals the `r`-th identity column.
pub open spec fn row_has_unit(m: Seq<Seq<Fraction>>, n: int, r: int) -> bool {
    exists|col: int| 0 <= col < n && is_unit_col(#[trigger] m[col], r)
}

/// With every entry nonnegative, the scan finds nothing.
pub proof fn lemma_bland_index_full(rc: Seq<Fraction>, k: int)
    requires
        0 <= k <= rc.len(),
        forall|j: int| k <= j < rc.len() ==> !(#[trigger] rc[j]).lt_val(frac_zero()),
    ensures
        bland_index(rc, k) == rc.len(),
    decreases rc.len() - k,
{
    if k < rc.len() {
        lemma_bland_index_full(rc, k + 1);
    }
}

/// With no pick, every entry from `k` on is nonnegative.
pub proof fn lemma_bland_none(rc: Seq<Fraction>, k: int)
    requires
        0 <= k <= rc.len(),
        bland_index(rc, k) == rc.len(),
    ensures
        forall|j: int| k <= j < rc.len() ==> !(#[trigger] rc[j]).lt_val(frac_zero()),
    decreases rc.len() - k,
{
    if k < rc.len() {
        lemma_bland_none(rc, k + 1);
    }
}

/// The computational core of a tableau at the specification level: matrix,
/// right-hand side, reduced-cost row and objective.
pub ghost struct LoopState {
    pub mat: Seq<Seq<Fraction>>,
    pub rhs: Seq<Fraction>,
    pub rc: Seq<Fraction>,
    pub obj: Fraction,
}

/// One specification-level step of the Bland primal loop.
pub ghost enum LoopStep {
    Overflow,
    Optimal,
    Unbounded,
    Pivot(LoopState),
}

/// The outcome of a specification-level run of the Bland primal loop.
pub ghost enum LoopRun {
    /// An exact value left the machine range at some step.
    Overflow,
    /// No reduced cost was negative: this state is optimal.
    Optimal(LoopState),
    /// An improving column had no positive entry: unbounded at this state.
    Unbounded(LoopState),
    /// The iteration cap ran out at this state.
    OutOfFuel(LoopState),
}

/// The state after one Gauss-Jordan pivot at `(e, r)`, meaningful when
/// `pivot_ok` holds there.
pub open spec fn pivoted_state(s: LoopState, e: int, r: int) -> LoopState {
    LoopState {
        mat: Seq::new(
            s.mat.len(),
            |c: int|
                Seq::new(
                    s.mat[c].len(),
                    |row: int| pivot_mat_entry(s.mat, e, r, c, row)->Some_0,
                ),
        ),
        rhs: Seq::new(s.rhs.len(), |row: int| pivot_rhs_entry(s.mat, s.rhs, e, r, row)->Some_0),
        rc: Seq::new(s.rc.len(), |c: int| pivot_rc_entry(s.mat, s.rc, e, r, c)->Some_0),
        obj: pivot_obj_entry(s.mat, s.rhs, s.rc, s.obj, e, r)->Some_0,
    }
}

/// One step under Bland's rule: the first column with a negative reduced cost
/// enters (none: optimal), the first least-ratio row leaves (none:
/// unbounded), then the pivot; `Overflow` when a ratio or a pivoted entry
/// leaves the machine range.
pub open spec fn bland_step(s: LoopState) -> LoopStep {
    let n = s.rc.len() as int;
    let m = s.rhs.len() as int;
    let e = bland_index(s.rc, 0);
    if e == n {
        LoopStep::Optimal
    } else if !min_ratio_ok(s.mat[e], s.rhs, m) {
        LoopStep::Overflow
    } else {
        let scan = min_ratio_prefix(s.mat[e], s.rhs, m, n);
        if scan.0 == Fraction::from_int(i64::MAX as int) {
            LoopStep::Unbounded
        } else if !pivot_ok(s.mat, s.rhs, s.rc, s.obj, e, scan.1) {
            LoopStep::Overflow
        } else {
            LoopStep::Pivot(pivoted_state(s, e, scan.1))
        }
    }
}

/// A full run of the Bland loop with the given fuel.
pub open spec fn bland_run(s: LoopState, fuel: nat) -> LoopRun
    decreases fuel,
{
    if fuel == 0 {
        LoopRun::OutOfFuel(s)
    } else {
        match bland_step(s) {
            LoopStep::Overflow => LoopRun::Overflow,
            LoopStep::Optimal => LoopRun::Optimal(s),
            LoopStep::Unbounded => LoopRun::Unbounded(s),
            LoopStep::Pivot(s2) => bland_run(s2, (fuel - 1) as nat),
        }
    }
}

/// The costs of the variables the identity scan makes basic.
pub open spec fn spec_cost_basis(m: Seq<Seq<Fraction>>, c: Seq<Fraction>, rows: int) -> Seq<
    Fraction,
> {
    Seq::new(
        rows as nat,
        |r: int| c[last_unit_col(m, m.len() as int, r, m.len() as int + 1)],
    )
}

/// The starting reduced-cost row for basis costs `cb`: column dot products
/// minus the cost, or plain negated costs when `cb` is all zero; meaningful
/// when `reduced_cost_ok` holds.
pub open spec fn spec_initial_rc(
    m: Seq<Seq<Fraction>>,
    cb: Seq<Fraction>,
    c: Seq<Fraction>,
) -> Seq<Fraction> {
    if is_zero_vec(cb) {
        Seq::new(c.len(), |j: int| c[j].neg_val())
    } else {
        Seq::new(m.len(), |j: int| reduced_entry(m[j], cb, c[j])->Some_0)
    }
}

/// The starting objective: `cb · b`, or `prev` untouched when `cb` is all
/// zero.
pub open spec fn spec_initial_obj(cb: Seq<Fraction>, b: Seq<Fraction>, prev: Fraction) -> Fraction {
    if is_zero_vec(cb) {
        prev
    } else {
        dot(cb, b)->Some_0
    }
}

/// A construction-time or run-time failure of the exact solver.
#[derive(Clone, Copy, Debug, PartialEq, Eq, Structural)]
pub enum SimplexError {
    /// The coefficient matrix, right-hand side and cost vector do not agree
    /// in size.
    DimensionMismatch,
    /// A right-hand-side entry is negative under a primal strategy.
    NotStandardForm,
    /// Some identity column is missing during primal basis detection.
    NoIdentityColumn,
    /// An exact value left the machine range.
    ArithmeticOverflow,
    /// The pivot loop hit its iteration cap without reaching a terminal
    /// state.
    IterationLimit,
}

/// Safety valve for the pivot loop.  Bland's rule cannot cycle, so on any
/// program this bound could reach it is far beyond the pivots actually
/// needed; it only keeps the loop finite.
pub const ITERATION_LIMIT: usize = 10000;

/// The outcome of one simplex step.
pub enum Step {
    /// A pivot was performed; the new matrix, right-hand side, reduced-cost
    /// row and objective.
    Continue(Vec<Vec<Fraction>>, Vec<Fraction>, Vec<Fraction>, Fraction),
    /// No reduced cost is negative: the tableau is optimal.
    Optimal,
    /// An improving column has no positive entry: the program is unbounded.
    Unbounded,
}

/// Bland's index lies between its starting point and the length.
pub proof fn lemma_bland_index_range(rc: Seq<Fraction>, k: int)
    requires
        0 <= k <= rc.len(),
    ensures
        k <= bland_index(rc, k) <= rc.len(),
    decreases rc.len() - k,
{
    if k < rc.len() && !rc[k].lt_val(frac_zero()) {
        lemma_bland_index_range(rc, k + 1);
    }
}

/// The scan state is either untouched (sentinel ratio, `none_idx`) or holds
/// the ratio of an eligible row it has seen, which is never the sentinel.
pub proof fn lemma_min_ratio_prefix_props(col: Seq<Fraction>, b: Seq<Fraction>, k: int, none_idx: int)
    requires
        0 <= k <= b.len(),
        col.len() == b.len(),
    ensures
        ({
            let s = min_ratio_prefix(col, b, k, none_idx);
            ||| (s.0 == Fraction::from_int(i64::MAX as int) && s.1 == none_idx)
            ||| (0 <= s.1 < k && is_pos(col[s.1]) && s.0 == ratio_at(col, b, s.1) && s.0
                != Fraction::from_int(i64::MAX as int))
        }),
    decreases k,
{
    if k > 0 {
        lemma_min_ratio_prefix_props(col, b, k - 1, none_idx);
        let prev = min_ratio_prefix(col, b, k - 1, none_idx);
        if is_pos(col[k - 1]) && ratio_at(col, b, k - 1).lt_val(prev.0) {
            // A stored ratio is never the sentinel: nothing is below it.
            assert(ratio_at(col, b, k - 1) != Fraction::from_int(i64::MAX as int));
        }
    }
}

/// One primal simplex step under Bland\'s rule: picks the first column with a
/// negative reduced cost (none: `Optimal`), the first row with the least
/// ratio (none: `Unbounded`), and pivots.
pub fn iterate(
    a: &Vec<Vec<Fraction>>,
    b: &Vec<Fraction>,
    reduced_cost: &Vec<Fraction>,
    obj: Fraction,
) -> (res: Result<Step, ArithmeticOverflow>)
    requires
        a@.len() > 0,
        is_matrix(mat_of(a@), a@.len() as int, b@.len() as int),
        reduced_cost@.len() == a@.len(),
        mat_wf(mat_of(a@)),
        all_wf(b@),
        all_wf(reduced_cost@),
        obj.wf(),
    ensures
        ({
            let n = a@.len() as int;
            let m = b@.len() as int;
            let e = bland_index(reduced_cost@, 0);
            &&& (res matches Result::Ok(Step::Optimal) <==> e == n)
            &&& e < n ==> ({
                let col = mat_of(a@)[e];
                let scan = min_ratio_prefix(col, b@, m, n);
                &&& (!min_ratio_ok(col, b@, m) ==> res is Err)
                &&& (min_ratio_ok(col, b@, m) ==> {
                    &&& (res matches Result::Ok(Step::Unbounded) <==> scan.0 == Fraction::from_int(
                        i64::MAX as int,
                    ))
                    &&& (scan.0 != Fraction::from_int(i64::MAX as int) ==> {
                        &&& (res is Err <==> !pivot_ok(
                            mat_of(a@),
                            b@,
                            reduced_cost@,
                            obj,
                            e,
                            scan.1,
                        ))
                        &&& (res matches Result::Ok(s2) ==> s2 matches Step::Continue(a2, b2, rc2, o2)
                            && {
                            &&& is_matrix(mat_of(a2@), n, m)
                            &&& b2@.len() == m
                            &&& rc2@.len() == n
                            &&& mat_wf(mat_of(a2@))
                            &&& all_wf(b2@)
                            &&& all_wf(rc2@)
                            &&& o2.wf()
                            &&& forall|c: int, row: int|
                                0 <= c < n && 0 <= row < m ==> Some(#[trigger] mat_of(a2@)[c][row])
                                    == pivot_mat_entry(mat_of(a@), e, scan.1, c, row)
                            &&& forall|row: int|
                                0 <= row < m ==> Some(#[trigger] b2@[row]) == pivot_rhs_entry(
                                    mat_of(a@),
                                    b@,
                                    e,
                                    scan.1,
                                    row,
                                )
                            &&& forall|c: int|
                                0 <= c < n ==> Some(#[trigger] rc2@[c]) == pivot_rc_entry(
                                    mat_of(a@),
                                    reduced_cost@,
                                    e,
                                    scan.1,
                                    c,
                                )
                            &&& Some(o2) == pivot_obj_entry(
                                mat_of(a@),
                                b@,
                                reduced_cost@,
                                obj,
                                e,
                                scan.1,
                            )
                        })
                    })
                })
            })
        }),
{
    let n = a.len();
    let m = b.len();
    let reduced_cost_index = bland_reduced_cost(reduced_cost);
    if reduced_cost_index == n {
        return Ok(Step::Optimal);
    }
    let (minimum_ratio, minimum_ratio_index) = match find_min_ratio(
        a,
        b,
        &reduced_cost_index,
    ) {
        Ok(p) => p,
        Err(o) => {
            return Err(o);
        },
    };
    proof {
        lemma_min_ratio_prefix_props(
            mat_of(a@)[reduced_cost_index as int],
            b@,
            m as int,
            n as int,
        );
    }
    if minimum_ratio.numerator == i64::MAX && minimum_ratio.denominator == 1 {
        return Ok(Step::Unbounded);
    }
    match pivot_update(a, b, reduced_cost, obj, reduced_cost_index, minimum_ratio_index) {
        Ok((a2, b2, rc2, o2)) => Ok(Step::Continue(a2, b2, rc2, o2)),
        Err(o) => Err(o),
    }
}

/// Solves a standard-form program with the Bland-rule primal loop: checks the
/// shapes, finds the identity basis, computes the reduced costs, then pivots
/// until no reduced cost is negative (optimal) or an improving column has no
/// positive entry (unbounded), returning the final matrix, right-hand side,
/// reduced-cost row and objective.
#[verifier::loop_isolation(false)]
pub fn solve(a: Vec<Vec<Fraction>>, b: Vec<Fraction>, c: Vec<Fraction>) -> (res: Result<
    (Vec<Vec<Fraction>>, Vec<Fraction>, Vec<Fraction>, Fraction),
    SimplexError,
>)
    requires
        a@.len() > 0,
        a@.len() < usize::MAX,
        is_matrix(mat_of(a@), a@.len() as int, a@[0]@.len() as int),
        mat_wf(mat_of(a@)),
        all_wf(b@),
        all_wf(c@),
    ensures
        res == Result::<(Vec<Vec<Fraction>>, Vec<Fraction>, Vec<Fraction>, Fraction),
            SimplexError,
        >::Err(SimplexError::DimensionMismatch) <==> (a@.len() != c@.len() || a@[0]@.len()
            != b@.len()),
        res == Result::<(Vec<Vec<Fraction>>, Vec<Fraction>, Vec<Fraction>, Fraction),
            SimplexError,
        >::Err(SimplexError::NoIdentityColumn) <==> (a@.len() == c@.len() && a@[0]@.len()
            == b@.len() && exists|r: int|
            0 <= r < b@.len() && !(#[trigger] row_has_unit(mat_of(a@), a@.len() as int, r))),
        res is Ok ==> ({
            let (a2, b2, rc2, o2) = res->Ok_0;
            &&& is_matrix(mat_of(a2@), a@.len() as int, b@.len() as int)
            &&& b2@.len() == b@.len()
            &&& rc2@.len() == a@.len()
            &&& mat_wf(mat_of(a2@))
            &&& all_wf(b2@)
            &&& all_wf(rc2@)
            &&& o2.wf()
            &&& (bland_index(rc2@, 0) == a@.len() || min_ratio_prefix(
                mat_of(a2@)[bland_index(rc2@, 0)],
                b2@,
                b2@.len() as int,
                a2@.len() as int,
            ).0 == Fraction::from_int(i64::MAX as int))
        }),
        ({
            let mats = mat_of(a@);
            let nn = a@.len() as int;
            let mm = b@.len() as int;
            let valid = a@.len() == c@.len() && a@[0]@.len() == b@.len() && (forall|r: int|
                0 <= r < mm ==> #[trigger] row_has_unit(mats, nn, r));
            let cb = spec_cost_basis(mats, c@, mm);
            let rc_ok = reduced_cost_ok(mats, cb, b@, c@);
            let s0 = LoopState {
                mat: mats,
                rhs: b@,
                rc: spec_initial_rc(mats, cb, c@),
                obj: spec_initial_obj(cb, b@, frac_zero()),
            };
            let run = bland_run(s0, ITERATION_LIMIT as nat);
            &&& (res == Result::<(Vec<Vec<Fraction>>, Vec<Fraction>, Vec<Fraction>, Fraction),
                SimplexError,
            >::Err(SimplexError::ArithmeticOverflow) <==> (valid && (!rc_ok || run is Overflow)))
            &&& (res == Result::<(Vec<Vec<Fraction>>, Vec<Fraction>, Vec<Fraction>, Fraction),
                SimplexError,
            >::Err(SimplexError::IterationLimit) <==> (valid && rc_ok && run is OutOfFuel))
            &&& ((res is Ok) <==> (valid && rc_ok && (run is Optimal || run is Unbounded)))
            &&& (res matches Result::Ok(q) ==> ({
                let fin = if run is Optimal {
                    run->Optimal_0
                } else {
                    run->Unbounded_0
                };
                &&& mat_of(q.0@) == fin.mat
                &&& q.1@ == fin.rhs
                &&& q.2@ == fin.rc
                &&& q.3 == fin.obj
            }))
        }),
{
    let n = a.len();
    let m = a[0].len();
    if n != c.len() || m != b.len() {
        return Err(SimplexError::DimensionMismatch);
    }
    let basis = find_basis(&a);
    let mut i: usize = 0;
    while i < m
        invariant
            0 <= i <= m,
            n == a@.len(),
            n < usize::MAX,
            m == a@[0]@.len(),
            m == b@.len(),
            n == c@.len(),
            is_matrix(mat_of(a@), n as int, m as int),
            basis@.len() == m,
            forall|r: int|
                0 <= r < m ==> if exists|col: int|
                    0 <= col < n && is_unit_col(#[trigger] mat_of(a@)[col], r) {
                    &&& #[trigger] basis@[r] < n
                    &&& is_unit_col(mat_of(a@)[basis@[r] as int], r)
                } else {
                    basis@[r] == n + 1
                },
            forall|r: int| 0 <= r < i ==> #[trigger] basis@[r] < n,
        decreases m - i,
    {
        if basis[i] == n + 1 {
            proof {
                assert(!row_has_unit(mat_of(a@), n as int, i as int));
            }
            return Err(SimplexError::NoIdentityColumn);
        }
        i = i + 1;
    }
    proof {
        assert forall|r: int| 0 <= r < m implies #[trigger] row_has_unit(
            mat_of(a@),
            n as int,
            r,
        ) by {
            assert(basis@[r] < n);
        }
    }
    let cb = get_cost_basis(&c, &basis);
    proof {
        assert(all_wf(cb@)) by {
            assert(forall|j: int|
                0 <= j < cb@.len() ==> #[trigger] cb@[j] == c@[basis@[j] as int] && c@[basis@[j]
                    as int].wf());
        }
        assert forall|j: int|
            0 <= j < cb@.len() implies #[trigger] cb@[j] == spec_cost_basis(
            mat_of(a@),
            c@,
            m as int,
        )[j] by {
            assert(cb@[j] == c@[basis@[j] as int]);
            assert(basis@[j] as int == last_unit_col(mat_of(a@), n as int, j, n as int + 1));
        }
        assert(cb@ =~= spec_cost_basis(mat_of(a@), c@, m as int));
    }
    let ghost scb = spec_cost_basis(mat_of(a@), c@, m as int);
    let (mut reduced_cost, mut obj) = match compute_reduced_cost(&cb, &a, &b, &c) {
        Ok(p) => p,
        Err(_) => {
            return Err(SimplexError::ArithmeticOverflow);
        },
    };
    proof {
        assert(reduced_cost@ =~= spec_initial_rc(mat_of(a@), scb, c@)) by {
            if is_zero_vec(scb) {
                assert(forall|j: int|
                    0 <= j < n ==> #[trigger] reduced_cost@[j] == c@[j].neg_val());
            } else {
                assert forall|j: int|
                    0 <= j < n implies #[trigger] reduced_cost@[j] == reduced_entry(
                    mat_of(a@)[j],
                    scb,
                    c@[j],
                )->Some_0 by {
                    assert(Some(reduced_cost@[j]) == reduced_entry(mat_of(a@)[j], scb, c@[j]));
                }
            }
        }
        assert(obj == spec_initial_obj(scb, b@, frac_zero()));
    }
    let ghost s0 = LoopState {
        mat: mat_of(a@),
        rhs: b@,
        rc: spec_initial_rc(mat_of(a@), scb, c@),
        obj: spec_initial_obj(scb, b@, frac_zero()),
    };
    let mut first = a;
    let mut second = b;
    let mut fuel: usize = ITERATION_LIMIT;
    while fuel > 0
        invariant
            first@.len() == n,
            second@.len() == m,
            reduced_cost@.len() == n,
            n > 0,
            is_matrix(mat_of(first@), n as int, m as int),
            mat_wf(mat_of(first@)),
            all_wf(second@),
            all_wf(reduced_cost@),
            obj.wf(),
            bland_run(s0, ITERATION_LIMIT as nat) == bland_run(
                LoopState { mat: mat_of(first@), rhs: second@, rc: reduced_cost@, obj },
                fuel as nat,
            ),
        decreases fuel,
    {
        let ghost fuel0 = fuel as nat;
        let ghost cur = LoopState { mat: mat_of(first@), rhs: second@, rc: reduced_cost@, obj };
        fuel = fuel - 1;
        match iterate(&first, &second, &reduced_cost, obj) {
            Ok(Step::Continue(a2, b2, rc2, o2)) => {
                proof {
                    lemma_bland_index_range(reduced_cost@, 0);
                    let e = bland_index(reduced_cost@, 0);
                    assert(e < n as int);
                    assert(is_matrix(mat_of(a2@), n as int, m as int));
                    assert(mat_of(a2@).len() == a2@.len());
                    let scan = min_ratio_prefix(mat_of(first@)[e], second@, m as int, n as int);
                    let nxt = pivoted_state(cur, e, scan.1);
                    assert(bland_step(cur) == LoopStep::Pivot(nxt));
                    assert forall|ci: int| 0 <= ci < n implies #[trigger] mat_of(a2@)[ci]
                        == nxt.mat[ci] by {
                        assert forall|row: int|
                            0 <= row < m implies #[trigger] mat_of(a2@)[ci][row]
                            == nxt.mat[ci][row] by {
                            assert(Some(mat_of(a2@)[ci][row]) == pivot_mat_entry(
                                cur.mat,
                                e,
                                scan.1,
                                ci,
                                row,
                            ));
                        }
                        assert(mat_of(a2@)[ci] =~= nxt.mat[ci]);
                    }
                    assert(mat_of(a2@) =~= nxt.mat);
                    assert forall|row: int| 0 <= row < m implies #[trigger] b2@[row]
                        == nxt.rhs[row] by {
                        assert(Some(b2@[row]) == pivot_rhs_entry(cur.mat, cur.rhs, e, scan.1, row));
                    }
                    assert(b2@ =~= nxt.rhs);
                    assert forall|ci: int| 0 <= ci < n implies #[trigger] rc2@[ci]
                        == nxt.rc[ci] by {
                        assert(Some(rc2@[ci]) == pivot_rc_entry(cur.mat, cur.rc, e, scan.1, ci));
                    }
                    assert(rc2@ =~= nxt.rc);
                    assert(o2 == nxt.obj);
                    assert(bland_run(cur, fuel0) == bland_run(nxt, (fuel0 - 1) as nat));
                }
                first = a2;
                second = b2;
                reduced_cost = rc2;
                obj = o2;
            },
            Ok(Step::Optimal) => {
                proof {
                    assert(bland_step(cur) == LoopStep::Optimal);
                    assert(bland_run(s0, ITERATION_LIMIT as nat) == LoopRun::Optimal(cur));
                }
                return Ok((first, second, reduced_cost, obj));
            },
            Ok(Step::Unbounded) => {
                proof {
                    lemma_bland_index_range(reduced_cost@, 0);
                    assert(bland_index(reduced_cost@, 0) < n as int);
                    lemma_min_ratio_prefix_props(
                        mat_of(first@)[bland_index(reduced_cost@, 0)],
                        second@,
                        m as int,
                        n as int,
                    );
                    assert(bland_step(cur) == LoopStep::Unbounded);
                    assert(bland_run(s0, ITERATION_LIMIT as nat) == LoopRun::Unbounded(cur));
                }
                return Ok((first, second, reduced_cost, obj));
            },
            Err(_) => {
                proof {
                    lemma_bland_index_range(reduced_cost@, 0);
                    assert(bland_step(cur) == LoopStep::Overflow);
                    assert(bland_run(s0, ITERATION_LIMIT as nat) == LoopRun::Overflow);
                }
                return Err(SimplexError::ArithmeticOverflow);
            },
        }
    }
    proof {
        assert(bland_run(s0, ITERATION_LIMIT as nat) == LoopRun::OutOfFuel(
            LoopState { mat: mat_of(first@), rhs: second@, rc: reduced_cost@, obj },
        ));
    }
    Err(SimplexError::IterationLimit)
}

} // verus!

//! Longest common subsequence: a dynamic-programming table of subsequence
//! lengths over all prefix pairs, then a walk back through the table that
//! reconstructs one subsequence of that length.

use vstd::prelude::*;

verus! {

use vstd::pervasive::VecAdditionalExecFns;

/// The length of the longest common subsequence of `a` and `b`.
pub open spec fn lcs_len(a: Seq<i64>, b: Seq<i64>) -> nat
    decreases a.len(), b.len(),
{
    if a.len() == 0 || b.len() == 0 {
        0
    } else if a.last() == b.last() {
        1 + lcs_len(a.drop_last(), b.drop_last())
    } else {
        let l = lcs_len(a.drop_last(), b);
        let r = lcs_len(a, b.drop_last());
        if l >= r {
            l
        } else {
            r
        }
    }
}

/// A common subsequence is no longer than either sequence.
proof fn lemma_lcs_len_bound(a: Seq<i64>, b: Seq<i64>)
    ensures
        lcs_len(a, b) <= a.len(),
        lcs_len(a, b) <= b.len(),
    decreases a.len(), b.len(),
{
    if a.len() > 0 && b.len() > 0 {
        if a.last() == b.last() {
            lemma_lcs_len_bound(a.drop_last(), b.drop_last());
        } else {
            lemma_lcs_len_bound(a.drop_last(), b);
            lemma_lcs_len_bound(a, b.drop_last());
        }
    }
}

/// `x` embeds into `y`: strictly increasing positions of `y` hold the
/// elements of `x` in order.
pub open spec fn is_subseq_of(x: Seq<i64>, y: Seq<i64>) -> bool {
    exists|f: Seq<int>|
        {
            &&& f.len() == x.len()
            &&& (forall|k: int|
                0 <= k < f.len() ==> 0 <= #[trigger] f[k] < y.len() && y[f[k]] == x[k])
            &&& (forall|k: int| 0 < k < f.len() ==> f[k - 1] < #[trigger] f[k])
        }
}

/// A strictly increasing map grows at least as fast as its index.
proof fn lemma_increasing_lower(f: Seq<int>, k: int)
    requires
        0 <= k < f.len(),
        f[0] >= 0,
        forall|t: int| 0 < t < f.len() ==> f[t - 1] < #[trigger] f[t],
    ensures
        f[k] >= k,
    decreases k,
{
    if k > 0 {
        lemma_increasing_lower(f, k - 1);
        assert(f[k - 1] < f[k]);
    }
}

/// A strictly increasing map orders any two of its positions.
proof fn lemma_increasing_mono(f: Seq<int>, i: int, j: int)
    requires
        0 <= i < j < f.len(),
        forall|t: int| 0 < t < f.len() ==> f[t - 1] < #[trigger] f[t],
    ensures
        f[i] < f[j],
    decreases j - i,
{
    if i + 1 < j {
        lemma_increasing_mono(f, i + 1, j);
    }
}

/// An embedded sequence is no longer than its host.
proof fn lemma_subseq_len(x: Seq<i64>, y: Seq<i64>)
    requires
        is_subseq_of(x, y),
    ensures
        x.len() <= y.len(),
{
    if x.len() > 0 {
        let f = choose|f: Seq<int>|
            {
                &&& f.len() == x.len()
                &&& (forall|k: int|
                    0 <= k < f.len() ==> 0 <= #[trigger] f[k] < y.len() && y[f[k]] == x[k])
                &&& (forall|k: int| 0 < k < f.len() ==> f[k - 1] < #[trigger] f[k])
            };
        lemma_increasing_lower(f, f.len() - 1);
    }
}

/// Maximality: no common subsequence of `a` and `b` is longer than
/// [`lcs_len`], so what [`lcs`] returns really is a longest one.
pub proof fn lemma_lcs_len_maximal(x: Seq<i64>, a: Seq<i64>, b: Seq<i64>)
    requires
        is_subseq_of(x, a),
        is_subseq_of(x, b),
    ensures
        x.len() <= lcs_len(a, b),
    decreases a.len() + b.len() + x.len(),
{
    if x.len() == 0 {
        return ;
    }
    lemma_subseq_len(x, a);
    lemma_subseq_len(x, b);
    let fa = choose|f: Seq<int>|
        {
            &&& f.len() == x.len()
            &&& (forall|k: int|
                0 <= k < f.len() ==> 0 <= #[trigger] f[k] < a.len() && a[f[k]] == x[k])
            &&& (forall|k: int| 0 < k < f.len() ==> f[k - 1] < #[trigger] f[k])
        };
    let fb = choose|f: Seq<int>|
        {
            &&& f.len() == x.len()
            &&& (forall|k: int|
                0 <= k < f.len() ==> 0 <= #[trigger] f[k] < b.len() && b[f[k]] == x[k])
            &&& (forall|k: int| 0 < k < f.len() ==> f[k - 1] < #[trigger] f[k])
        };
    let last = x.len() - 1;
    let na = a.len() as int;
    let nb = b.len() as int;
    if a.last() == b.last() {
        if x.last() == a.last() {
            // Peel the matched last elements off all three sequences.
            let x2 = x.drop_last();
            let fa2 = fa.drop_last();
            let fb2 = fb.drop_last();
            assert forall|k: int|
                0 <= k < fa2.len() implies 0 <= #[trigger] fa2[k] < a.drop_last().len()
                    && a.drop_last()[fa2[k]] == x2[k] by {
                lemma_increasing_mono(fa, k, last);
            }
            assert forall|k: int|
                0 <= k < fb2.len() implies 0 <= #[trigger] fb2[k] < b.drop_last().len()
                    && b.drop_last()[fb2[k]] == x2[k] by {
                lemma_increasing_mono(fb, k, last);
            }
            assert(fa2.len() == x2.len());
            assert(fb2.len() == x2.len());
            assert(is_subseq_of(x2, a.drop_last()));
            assert(is_subseq_of(x2, b.drop_last()));
            lemma_lcs_len_maximal(x2, a.drop_last(), b.drop_last());
        } else {
            // The last element of `x` matches neither host's last element,
            // so both witnesses avoid the hosts' last positions.
            assert(a[fa[last]] == x.last());
            assert(fa[last] < na - 1);
            assert(b[fb[last]] == x.last());
            assert(fb[last] < nb - 1);
            assert forall|k: int|
                0 <= k < fa.len() implies 0 <= #[trigger] fa[k] < a.drop_last().len()
                    && a.drop_last()[fa[k]] == x[k] by {
                if k < last {
                    lemma_increasing_mono(fa, k, last);
                }
            }
            assert forall|k: int|
                0 <= k < fb.len() implies 0 <= #[trigger] fb[k] < b.drop_last().len()
                    && b.drop_last()[fb[k]] == x[k] by {
                if k < last {
                    lemma_increasing_mono(fb, k, last);
                }
            }
            assert(is_subseq_of(x, a.drop_last()));
            assert(is_subseq_of(x, b.drop_last()));
            lemma_lcs_len_maximal(x, a.drop_last(), b.drop_last());
        }
    } else {
        if fa[last] < na - 1 {
            assert forall|k: int|
                0 <= k < fa.len() implies 0 <= #[trigger] fa[k] < a.drop_last().len()
                    && a.drop_last()[fa[k]] == x[k] by {
                if k < last {
                    lemma_increasing_mono(fa, k, last);
                }
            }
            assert(is_subseq_of(x, a.drop_last()));
            lemma_lcs_len_maximal(x, a.drop_last(), b);
        } else {
            // `x` ends in `a`'s last element, which differs from `b`'s, so
            // the witness into `b` avoids `b`'s last position.
            assert(a[fa[last]] == x.last());
            assert(x.last() == a.last());
            assert(b[fb[last]] == x.last());
            assert(fb[last] < nb - 1);
            assert forall|k: int|
                0 <= k < fb.len() implies 0 <= #[trigger] fb[k] < b.drop_last().len()
                    && b.drop_last()[fb[k]] == x[k] by {
                if k < last {
                    lemma_increasing_mono(fb, k, last);
                }
            }
            assert(is_subseq_of(x, b.drop_last()));
            lemma_lcs_len_maximal(x, a, b.drop_last());
        }
    }
}

/// One unfolding of [`lcs_len`] at the prefix pair `(i, j)`.
proof fn lemma_lcs_step(a: Seq<i64>, b: Seq<i64>, i: int, j: int)
    requires
        1 <= i <= a.len(),
        1 <= j <= b.len(),
    ensures
        a[i - 1] == b[j - 1] ==> lcs_len(a.take(i), b.take(j)) == lcs_len(
            a.take(i - 1),
            b.take(j - 1),
        ) + 1,
        a[i - 1] != b[j - 1] ==> lcs_len(a.take(i), b.take(j)) == ({
            let l = lcs_len(a.take(i - 1), b.take(j));
            let r = lcs_len(a.take(i), b.take(j - 1));
            if l >= r {
                l
            } else {
                r
            }
        }),
{
    assert(a.take(i).last() == a[i - 1]);
    assert(b.take(j).last() == b[j - 1]);
    assert(a.take(i).drop_last() =~= a.take(i - 1));
    assert(b.take(j).drop_last() =~= b.take(j - 1));
}

/// The filled table holds `lcs_len` of every prefix pair, at stride `m1`.
pub open spec fn table_ok(t: Seq<usize>, a: Seq<i64>, b: Seq<i64>, m1: int) -> bool {
    &&& m1 == b.len() + 1
    &&& t.len() == (a.len() + 1) * m1
    &&& forall|ii: int, jj: int|
        0 <= ii <= a.len() && 0 <= jj <= b.len() ==> #[trigger] t[ii * m1 + jj] == lcs_len(
            a.take(ii),
            b.take(jj),
        )
}

/// Flat-table index arithmetic stays within bounds.
proof fn lemma_idx(nn: int, m1: int, ii: int, jj: int)
    requires
        0 <= ii <= nn,
        0 <= jj < m1,
    ensures
        0 <= ii * m1 + jj < (nn + 1) * m1,
{
    assert(ii * m1 <= nn * m1) by (nonlinear_arith)
        requires
            0 <= ii <= nn,
            m1 >= 1,
    ;
    assert((nn + 1) * m1 == nn * m1 + m1) by (nonlinear_arith);
}

/// Distinct cells have distinct flat indices.
proof fn lemma_idx_inj(m1: int, ii: int, jj: int, i: int, j: int)
    requires
        0 <= jj < m1,
        0 <= j < m1,
        ii >= 0,
        i >= 0,
        ii * m1 + jj == i * m1 + j,
    ensures
        ii == i && jj == j,
{
    assert(ii == i && jj == j) by (nonlinear_arith)
        requires
            0 <= jj < m1,
            0 <= j < m1,
            ii >= 0,
            i >= 0,
            ii * m1 + jj == i * m1 + j,
    ;
}

/// A longest common subsequence of `left` and `right`: the result has
/// exactly the length [`lcs_len`] gives. Matching elements are taken from
/// the tails inward, ties walking the table toward shorter `left` prefixes
/// first.
pub fn lcs(left: &[i64], right: &[i64]) -> (r: Vec<i64>)
    requires
        left@.len() >= 1,
        right@.len() >= 1,
        (left@.len() + 1) * (right@.len() + 1) <= usize::MAX,
    ensures
        r@.len() == lcs_len(left@, right@),
        is_subseq_of(r@, left@),
        is_subseq_of(r@, right@),
{
    let n = left.len();
    let m = right.len();
    proof {
        assert(m + 1 <= usize::MAX && n + 1 <= usize::MAX && (n + 1) * (m + 1)
            <= usize::MAX) by (nonlinear_arith)
            requires
                n >= 1,
                m >= 1,
                (n + 1) * (m + 1) <= usize::MAX,
        ;
    }
    let m1 = m + 1;
    let mut tab: Vec<usize> = vec![0; (n + 1) * m1];
    proof {
        assert forall|ii: int, jj: int|
            0 <= ii <= left@.len() && 0 <= jj <= right@.len() && (ii == 0 || jj == 0) implies
            #[trigger] tab@[ii * m1 + jj] == lcs_len(left@.take(ii), right@.take(jj)) by {
            lemma_idx(n as int, m1 as int, ii, jj);
            assert(left@.take(ii).len() == ii);
            assert(right@.take(jj).len() == jj);
        }
    }
    let mut i: usize = 1;
    while i <= n
        invariant
            1 <= i <= n + 1,
            n == left@.len(),
            m == right@.len(),
            m1 == m + 1,
            n + 1 <= usize::MAX,
            (n + 1) * m1 <= usize::MAX,
            tab@.len() == (n + 1) * m1,
            forall|ii: int, jj: int|
                0 <= ii <= n && 0 <= jj <= m && (ii < i || jj == 0) ==> #[trigger] tab@[ii * m1
                    + jj] == lcs_len(left@.take(ii), right@.take(jj)),
        decreases n + 1 - i,
    {
        let mut j: usize = 1;
        while j <= m
            invariant
                1 <= i <= n,
                1 <= j <= m + 1,
                n == left@.len(),
                m == right@.len(),
                m1 == m + 1,
                n + 1 <= usize::MAX,
                (n + 1) * m1 <= usize::MAX,
                tab@.len() == (n + 1) * m1,
                forall|ii: int, jj: int|
                    0 <= ii <= n && 0 <= jj <= m && (ii < i || jj == 0 || (ii == i && jj < j))
                        ==> #[trigger] tab@[ii * m1 + jj] == lcs_len(
                        left@.take(ii),
                        right@.take(jj),
                    ),
            decreases m + 1 - j,
        {
            proof {
                lemma_idx(n as int, m1 as int, i as int, j as int);
                lemma_idx(n as int, m1 as int, i - 1, j as int);
                lemma_idx(n as int, m1 as int, i as int, j - 1);
                lemma_idx(n as int, m1 as int, i - 1, j - 1);
                lemma_lcs_step(left@, right@, i as int, j as int);
                lemma_lcs_len_bound(left@.take(i - 1), right@.take(j - 1));
            }
            let v: usize = if left[i - 1] == right[j - 1] {
                tab[(i - 1) * m1 + (j - 1)] + 1
            } else {
                let up = tab[(i - 1) * m1 + j];
                let lf = tab[i * m1 + (j - 1)];
                if up >= lf {
                    up
                } else {
                    lf
                }
            };
            let ghost oldtab = tab@;
            tab.set(i * m1 + j, v);
            proof {
                assert forall|ii: int, jj: int|
                    0 <= ii <= n && 0 <= jj <= m && (ii < i || jj == 0 || (ii == i && jj < j
                        + 1)) implies #[trigger] tab@[ii * m1 + jj] == lcs_len(
                    left@.take(ii),
                    right@.take(jj),
                ) by {
                    lemma_idx(n as int, m1 as int, ii, jj);
                    if ii * m1 + jj == i * m1 + j {
                        lemma_idx_inj(m1 as int, ii, jj, i as int, j as int);
                    } else {
                        assert(tab@[ii * m1 + jj] == oldtab[ii * m1 + jj]);
                    }
                }
            }
            j = j + 1;
        }
        i = i + 1;
    }
    proof {
        lemma_idx(n as int, m1 as int, n as int, m as int);
        assert(left@.take(n as int) =~= left@);
        assert(right@.take(m as int) =~= right@);
    }
    let length = tab[n * m1 + m];
    let mut picked: Vec<i64> = Vec::new();
    let ghost mut pa: Seq<int> = Seq::empty();
    let ghost mut pb: Seq<int> = Seq::empty();
    let mut i2 = n - 1;
    let mut j2 = m - 1;
    while picked.len() < length
        invariant_except_break
            forall|k: int| 0 <= k < pa.len() ==> #[trigger] pa[k] > i2,
            forall|k: int| 0 <= k < pb.len() ==> #[trigger] pb[k] > j2,
        invariant
            n == left@.len(),
            m == right@.len(),
            m1 == m + 1,
            (n + 1) * m1 <= usize::MAX,
            table_ok(tab@, left@, right@, m1 as int),
            length == lcs_len(left@, right@),
            i2 < n,
            j2 < m,
            picked@.len() <= length,
            length - picked@.len() <= lcs_len(left@.take(i2 + 1), right@.take(j2 + 1)),
            pa.len() == picked@.len(),
            pb.len() == picked@.len(),
            forall|k: int|
                0 <= k < pa.len() ==> 0 <= #[trigger] pa[k] < n && left@[pa[k]] == picked@[k],
            forall|k: int|
                0 <= k < pb.len() ==> 0 <= #[trigger] pb[k] < m && right@[pb[k]] == picked@[k],
            forall|k: int| 0 < k < pa.len() ==> #[trigger] pa[k] < pa[k - 1],
            forall|k: int| 0 < k < pb.len() ==> #[trigger] pb[k] < pb[k - 1],
        ensures
            picked@.len() == length,
        decreases length - picked@.len(), i2 + j2,
    {
        let ghost need = length - picked@.len();
        proof {
            lemma_idx(n as int, m1 as int, i2 + 1, j2 + 1);
            lemma_idx(n as int, m1 as int, i2 as int, j2 + 1);
            lemma_idx(n as int, m1 as int, i2 + 1, j2 as int);
            lemma_idx(n as int, m1 as int, i2 as int, j2 as int);
            assert(tab@[(i2 + 1) * (m1 as int) + (j2 + 1)] == lcs_len(
                left@.take(i2 + 1),
                right@.take(j2 + 1),
            ));
            assert(tab@[(i2 as int) * (m1 as int) + (j2 + 1)] == lcs_len(
                left@.take(i2 as int),
                right@.take(j2 + 1),
            ));
            lemma_lcs_step(left@, right@, i2 + 1, j2 + 1);
            lemma_lcs_len_bound(left@.take(i2 as int), right@.take(j2 as int));
            lemma_lcs_len_bound(left@.take(i2 + 1), right@.take(j2 + 1));
            lemma_lcs_len_bound(left@.take(i2 + 1), right@.take(j2 as int));
            lemma_lcs_len_bound(left@.take(i2 as int), right@.take(j2 + 1));
        }
        if left[i2] == right[j2] {
            picked.push(left[i2]);
            proof {
                pa = pa.push(i2 as int);
                pb = pb.push(j2 as int);
            }
            if picked.len() == length {
                break ;
            }
            proof {
                assert(lcs_len(left@.take(i2 as int), right@.take(j2 as int)) >= 1);
            }
            i2 = i2 - 1;
            j2 = j2 - 1;
        } else {
            if i2 > 0 && tab[i2 * m1 + (j2 + 1)] == tab[(i2 + 1) * m1 + (j2 + 1)] {
                i2 = i2 - 1;
            } else {
                proof {
                    if i2 == 0 {
                        assert(lcs_len(left@.take(0), right@.take(j2 + 1)) == 0);
                        if j2 == 0 {
                            assert(lcs_len(left@.take(1), right@.take(1)) == 0);
                            assert(false);
                        }
                        assert(lcs_len(left@.take(i2 + 1), right@.take(j2 as int)) >= need);
                    } else {
                        if j2 == 0 {
                            assert(lcs_len(left@.take(i2 + 1), right@.take(0)) == 0);
                            assert(lcs_len(left@.take(i2 + 1), right@.take(1)) == lcs_len(
                                left@.take(i2 as int),
                                right@.take(1),
                            ));
                            assert(false);
                        }
                        assert(lcs_len(left@.take(i2 + 1), right@.take(j2 as int)) >= need);
                    }
                }
                j2 = j2 - 1;
            }
        }
    }
    // The matches were collected from the tails inward; reverse them.
    let mut out: Vec<i64> = Vec::new();
    let mut k = picked.len();
    while k > 0
        invariant
            k <= picked@.len(),
            out@.len() == picked@.len() - k,
            forall|x: int|
                0 <= x < out@.len() ==> #[trigger] out@[x] == picked@[picked@.len() - 1 - x],
        decreases k,
    {
        k = k - 1;
        out.push(picked[k]);
    }
    proof {
        let fa = pa.reverse();
        let fb = pb.reverse();
        assert(fa.len() == out@.len());
        assert(forall|x: int|
            0 <= x < fa.len() ==> 0 <= #[trigger] fa[x] < left@.len() && left@[fa[x]]
                == out@[x]);
        assert(forall|x: int| 0 < x < fa.len() ==> fa[x - 1] < #[trigger] fa[x]);
        assert(is_subseq_of(out@, left@));
        assert(fb.len() == out@.len());
        assert(forall|x: int|
            0 <= x < fb.len() ==> 0 <= #[trigger] fb[x] < right@.len() && right@[fb[x]]
                == out@[x]);
        assert(forall|x: int| 0 < x < fb.len() ==> fb[x - 1] < #[trigger] fb[x]);
        assert(is_subseq_of(out@, right@));
    }
    out
}

} // verus!

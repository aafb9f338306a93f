use vstd::arithmetic::div_mod::*;
use vstd::arithmetic::mul::*;
use vstd::prelude::*;

use vstd::arithmetic::power2::*;
use vstd::bits::lemma_usize_pow2_no_overflow;

use super::number_theory::{
    checked_pow2, divides, gcd, is_prime_spec, lemma_divides_transitive, lemma_divisor_duality, lemma_divisor_cofactor,
    lemma_euclid, lemma_gcd,
};
use crate::error::Error;

verus! {

/// Entry `(a, b)` of a row-major square table of side `n`.
pub open spec fn entry(t: Seq<bool>, n: int, a: int, b: int) -> bool {
    t[a * n + b]
}

/// Every diagonal entry of the table holds.
pub open spec fn reflexive_table(n: int, t: Seq<bool>) -> bool {
    forall|v: int| 0 <= v < n ==> #[trigger] entry(t, n, v, v)
}

/// No two distinct elements are related both ways.
pub open spec fn antisymmetric_table(n: int, t: Seq<bool>) -> bool {
    forall|a: int, b: int|
        0 <= a < n && 0 <= b < n && a != b ==> !(#[trigger] entry(t, n, a, b) && #[trigger] entry(
            t,
            n,
            b,
            a,
        ))
}

/// The table is closed under composition.
pub open spec fn transitive_table(n: int, t: Seq<bool>) -> bool {
    forall|a: int, m: int, b: int|
        0 <= a < n && 0 <= m < n && 0 <= b < n && #[trigger] entry(t, n, a, m) && #[trigger] entry(
            t,
            n,
            m,
            b,
        ) ==> entry(t, n, a, b)
}

/// The error, if any, with which a relation table of side `n` is refused as a partial order:
/// the size, the length, reflexivity, antisymmetry and transitivity are checked in this order.
pub open spec fn table_error(n: int, t: Seq<bool>) -> Option<Error> {
    if n < 2 {
        Some(Error::PosetTooSmall)
    } else if t.len() != n * n {
        Some(Error::RelationLength)
    } else if !reflexive_table(n, t) {
        Some(Error::NotReflexive)
    } else if !antisymmetric_table(n, t) {
        Some(Error::NotAntisymmetric)
    } else if !transitive_table(n, t) {
        Some(Error::NotTransitive)
    } else {
        None
    }
}

/// Row-major index arithmetic for a square table.
pub proof fn lemma_index(a: int, b: int, n: int)
    requires
        0 <= a < n,
        0 <= b < n,
    ensures
        0 <= a * n + b < n * n,
        (a * n + b) / n == a,
        (a * n + b) % n == b,
{
    lemma_mul_inequality(a, n - 1, n);
    lemma_mul_is_distributive_sub_other_way(n, n, 1);
    lemma_mul_nonnegative(a, n);
    lemma_fundamental_div_mod_converse(a * n + b, n, a, b);
    lemma_mul_is_commutative(a, n);
}

/// Every index below `n * n` is the row-major index of a pair.
pub proof fn lemma_index_split(k: int, n: int)
    requires
        0 <= k < n * n,
        n > 0,
    ensures
        0 <= k / n < n,
        0 <= k % n < n,
        k == (k / n) * n + k % n,
{
    lemma_fundamental_div_mod(k, n);
    lemma_mul_is_commutative(n, k / n);
    lemma_div_pos_is_pos(k, n);
    lemma_mod_bound(k, n);
    if k / n >= n {
        lemma_mul_inequality(n, k / n, n);
    }
}

/// `t` holds, for every pair below `size`, an outcome that `relation` may return for that pair.
pub open spec fn tabulates<R: FnMut(usize, usize) -> bool>(relation: R, size: int, t: Seq<bool>) -> bool {
    forall|a: int, b: int|
        0 <= a < size && 0 <= b < size ==> call_ensures(
            relation,
            (a as usize, b as usize),
            #[trigger] entry(t, size, a, b),
        )
}

/// `r` is what constructing a poset from the table `t` of side `size` gives: the poset whose
/// relation is `t` when `t` is a partial order, and otherwise the error that `table_error` names.
pub open spec fn table_outcome(size: int, t: Seq<bool>, r: Result<FinitePoset, Error>) -> bool {
    match r {
        Ok(p) => {
            &&& table_error(size, t) is None
            &&& p.wf()
            &&& p.n() == size
            &&& forall|a: int, b: int|
                0 <= a < size && 0 <= b < size ==> #[trigger] p.rel(a, b) == entry(t, size, a, b)
        },
        Err(e) => table_error(size, t) == Some(e),
    }
}

proof fn lemma_subset_order(a: usize, b: usize, m: usize)
    ensures
        a & a == a,
        (a & b == a && b & a == b) ==> a == b,
        (a & m == a && m & b == m) ==> a & b == a,
{
    assert(a & a == a) by (bit_vector);
    assert((a & b == a && b & a == b) ==> a == b) by (bit_vector);
    assert((a & m == a && m & b == m) ==> a & b == a) by (bit_vector);
}

proof fn lemma_divisor_le(a: int, b: int)
    requires
        a > 0,
        b > 0,
        b % a == 0,
    ensures
        a <= b,
{
    lemma_fundamental_div_mod(b, a);
    let q = b / a;
    if q <= 0 {
        lemma_mul_inequality(q, 0, a);
        lemma_mul_is_commutative(q, a);
    } else {
        lemma_mul_inequality(1, q, a);
        lemma_mul_is_commutative(a, q);
        assert(1 * a == a);
    }
}

proof fn lemma_divides_trans(a: int, b: int, c: int)
    requires
        a > 0,
        b > 0,
        b % a == 0,
        c % b == 0,
    ensures
        c % a == 0,
{
    lemma_fundamental_div_mod(b, a);
    lemma_fundamental_div_mod(c, b);
    let q1 = b / a;
    let q2 = c / b;
    assert(c == (a * q1) * q2);
    lemma_mul_is_associative(a, q1, q2);
    lemma_mul_is_commutative(a, q1 * q2);
    lemma_mod_multiples_basic(q1 * q2, a);
}

/// The vertex reached from `v` after `k` steps up the parent table; a vertex without a parent
/// stays where it is.
pub open spec fn climb(parents: Seq<Option<usize>>, v: int, k: nat) -> int
    decreases k,
{
    if k == 0 {
        v
    } else {
        let u = climb(parents, v, (k - 1) as nat);
        match parents[u] {
            Some(p) => p as int,
            None => u,
        }
    }
}

/// `a` lies on the parent chain of `v` (`v` itself included).
pub open spec fn is_ancestor(parents: Seq<Option<usize>>, a: int, v: int) -> bool {
    exists|k: nat| #[trigger] climb(parents, v, k) == a
}

/// The parent chain of `v` reaches a vertex without a parent.
pub open spec fn reaches_root(parents: Seq<Option<usize>>, v: int) -> bool {
    exists|k: nat| #[trigger] parents[climb(parents, v, k)] is None
}

/// Every parent is another vertex of the tree.
pub open spec fn parents_in_range(parents: Seq<Option<usize>>) -> bool {
    forall|v: int|
        0 <= v < parents.len() ==> match #[trigger] parents[v] {
            Some(p) => p < parents.len() && p != v,
            None => true,
        }
}

/// Exactly one vertex has no parent.
pub open spec fn unique_root(parents: Seq<Option<usize>>) -> bool {
    exists|r: int|
        {
            &&& 0 <= r < parents.len()
            &&& parents[r] is None
            &&& forall|v: int| 0 <= v < parents.len() && #[trigger] parents[v] is None ==> v == r
        }
}

/// The first bad parent entry at or after `k`, as the error that reports it.
pub open spec fn first_parent_error(parents: Seq<Option<usize>>, k: int) -> Option<Error>
    decreases parents.len() - k,
{
    if k < 0 || k >= parents.len() {
        None
    } else if parents[k] matches Some(p) && p >= parents.len() {
        Some(Error::ParentOutOfRange)
    } else if parents[k] matches Some(p) && p == k {
        Some(Error::SelfParent)
    } else {
        first_parent_error(parents, k + 1)
    }
}

/// The error, if any, with which a parent table is refused as a rooted tree.
pub open spec fn tree_error(parents: Seq<Option<usize>>) -> Option<Error> {
    if parents.len() < 2 {
        Some(Error::TreeTooSmall)
    } else if !unique_root(parents) {
        Some(Error::RootCount)
    } else if first_parent_error(parents, 0) is Some {
        first_parent_error(parents, 0)
    } else if exists|v: int| 0 <= v < parents.len() && !#[trigger] reaches_root(parents, v) {
        Some(Error::ParentCycle)
    } else {
        None
    }
}

proof fn lemma_no_parent_error(parents: Seq<Option<usize>>, k: int, v: int)
    requires
        0 <= k <= v < parents.len(),
        first_parent_error(parents, k) is None,
    ensures
        match parents[v] {
            Some(p) => p < parents.len() && p != v,
            None => true,
        },
    decreases v - k,
{
    if k < v {
        lemma_no_parent_error(parents, k + 1, v);
    }
}

/// In a valid parent table the root is an ancestor of every vertex.
pub proof fn lemma_root_is_ancestor(parents: Seq<Option<usize>>)
    requires
        tree_error(parents) is None,
    ensures
        exists|r: int|
            0 <= r < parents.len() && parents[r] is None && forall|v: int|
                0 <= v < parents.len() ==> #[trigger] is_ancestor(parents, r, v),
{
    let r = choose|r: int|
        {
            &&& 0 <= r < parents.len()
            &&& parents[r] is None
            &&& forall|v: int| 0 <= v < parents.len() && #[trigger] parents[v] is None ==> v == r
        };
    assert(parents_in_range(parents)) by {
        assert forall|v: int| 0 <= v < parents.len() implies match #[trigger] parents[v] {
            Some(p) => p < parents.len() && p != v,
            None => true,
        } by {
            lemma_no_parent_error(parents, 0, v);
        }
    }
    assert forall|v: int| 0 <= v < parents.len() implies #[trigger] is_ancestor(parents, r, v) by {
        assert(reaches_root(parents, v));
        let k = choose|k: nat| #[trigger] parents[climb(parents, v, k)] is None;
        lemma_climb_range(parents, v, k);
        assert(climb(parents, v, k) == r);
    }
}

/// The vertex `k` steps above `a` is an ancestor of `b`.
pub open spec fn common_at(parents: Seq<Option<usize>>, a: int, b: int, k: nat) -> bool {
    is_ancestor(parents, climb(parents, a, k), b)
}

proof fn lemma_least_common(parents: Seq<Option<usize>>, a: int, b: int, k: nat) -> (k0: nat)
    requires
        common_at(parents, a, b, k),
    ensures
        k0 <= k,
        common_at(parents, a, b, k0),
        forall|j: nat| j < k0 ==> !#[trigger] common_at(parents, a, b, j),
    decreases k,
{
    if exists|j: nat| j < k && #[trigger] common_at(parents, a, b, j) {
        let j = choose|j: nat| j < k && #[trigger] common_at(parents, a, b, j);
        lemma_least_common(parents, a, b, j)
    } else {
        k
    }
}

/// In a valid parent table any two vertices have a lowest common ancestor.
pub proof fn lemma_tree_meet(parents: Seq<Option<usize>>, a: int, b: int)
    requires
        tree_error(parents) is None,
        0 <= a < parents.len(),
        0 <= b < parents.len(),
    ensures
        exists|m: int|
            {
                &&& 0 <= m < parents.len()
                &&& is_ancestor(parents, m, a)
                &&& is_ancestor(parents, m, b)
                &&& forall|z: int|
                    0 <= z < parents.len() && #[trigger] is_ancestor(parents, z, a) && is_ancestor(
                        parents,
                        z,
                        b,
                    ) ==> is_ancestor(parents, z, m)
            },
{
    lemma_root_is_ancestor(parents);
    let r = choose|r: int|
        0 <= r < parents.len() && parents[r] is None && forall|v: int|
            0 <= v < parents.len() ==> #[trigger] is_ancestor(parents, r, v);
    assert(parents_in_range(parents)) by {
        assert forall|v: int| 0 <= v < parents.len() implies match #[trigger] parents[v] {
            Some(p) => p < parents.len() && p != v,
            None => true,
        } by {
            lemma_no_parent_error(parents, 0, v);
        }
    }
    assert(is_ancestor(parents, r, a));
    let ka = choose|k: nat| #[trigger] climb(parents, a, k) == r;
    assert(common_at(parents, a, b, ka));
    let k0 = lemma_least_common(parents, a, b, ka);
    let m = climb(parents, a, k0);
    lemma_climb_range(parents, a, k0);
    assert(is_ancestor(parents, m, a));
    assert forall|z: int|
        0 <= z < parents.len() && #[trigger] is_ancestor(parents, z, a) && is_ancestor(
            parents,
            z,
            b,
        ) implies is_ancestor(parents, z, m) by {
        let kz = choose|k: nat| #[trigger] climb(parents, a, k) == z;
        assert(common_at(parents, a, b, kz));
        assert(kz >= k0);
        let d = (kz - k0) as nat;
        lemma_climb_add(parents, a, k0, d);
        assert(climb(parents, m, d) == z);
    }
}

/// Number of `true` entries.
pub open spec fn count_true(s: Seq<bool>) -> nat
    decreases s.len(),
{
    if s.len() == 0 {
        0
    } else {
        count_true(s.drop_last()) + if s.last() {
            1nat
        } else {
            0nat
        }
    }
}

proof fn lemma_count_update(s: Seq<bool>, i: int)
    requires
        0 <= i < s.len(),
        !s[i],
    ensures
        count_true(s.update(i, true)) == count_true(s) + 1,
    decreases s.len(),
{
    if i == s.len() - 1 {
        assert(s.update(i, true).drop_last() =~= s.drop_last());
    } else {
        lemma_count_update(s.drop_last(), i);
        assert(s.update(i, true).drop_last() =~= s.drop_last().update(i, true));
    }
}

proof fn lemma_zero_count(s: Seq<bool>, m: int)
    requires
        0 <= m <= s.len(),
        forall|u: int| 0 <= u < s.len() ==> !#[trigger] s[u],
    ensures
        count_true(s.take(m)) == 0,
    decreases m,
{
    if m > 0 {
        lemma_zero_count(s, m - 1);
        assert(s.take(m).drop_last() =~= s.take(m - 1));
    }
}

proof fn lemma_count_positive(s: Seq<bool>, i: int)
    requires
        0 <= i < s.len(),
        s[i],
    ensures
        count_true(s) > 0,
    decreases s.len(),
{
    if i < s.len() - 1 {
        lemma_count_positive(s.drop_last(), i);
    }
}

proof fn lemma_count_clear(s: Seq<bool>, i: int)
    requires
        0 <= i < s.len(),
        s[i],
    ensures
        count_true(s.update(i, false)) + 1 == count_true(s),
{
    let t = s.update(i, false);
    lemma_count_update(t, i);
    assert(t.update(i, true) =~= s);
}

proof fn lemma_all_true_count(s: Seq<bool>, m: int)
    requires
        0 <= m <= s.len(),
        forall|u: int| 0 <= u < s.len() ==> #[trigger] s[u],
    ensures
        count_true(s.take(m)) == m,
    decreases m,
{
    if m > 0 {
        lemma_all_true_count(s, m - 1);
        assert(s.take(m).drop_last() =~= s.take(m - 1));
    }
}

proof fn lemma_count_le(s: Seq<bool>)
    ensures
        count_true(s) <= s.len(),
    decreases s.len(),
{
    if s.len() > 0 {
        lemma_count_le(s.drop_last());
    }
}

proof fn lemma_climb_range(parents: Seq<Option<usize>>, v: int, k: nat)
    requires
        parents_in_range(parents),
        0 <= v < parents.len(),
    ensures
        0 <= climb(parents, v, k) < parents.len(),
    decreases k,
{
    if k > 0 {
        lemma_climb_range(parents, v, (k - 1) as nat);
        let u = climb(parents, v, (k - 1) as nat);
        assert(parents[u] matches Some(p) ==> p < parents.len());
    }
}

proof fn lemma_climb_add(parents: Seq<Option<usize>>, v: int, i: nat, j: nat)
    ensures
        climb(parents, v, i + j) == climb(parents, climb(parents, v, i), j),
    decreases j,
{
    if j > 0 {
        lemma_climb_add(parents, v, i, (j - 1) as nat);
        assert((i + j - 1) as nat == i + (j - 1) as nat);
    }
}

proof fn lemma_climb_stays(parents: Seq<Option<usize>>, v: int, j: nat, i: nat)
    requires
        parents[climb(parents, v, j)] is None,
        j <= i,
    ensures
        climb(parents, v, i) == climb(parents, v, j),
    decreases i,
{
    if i > j {
        lemma_climb_stays(parents, v, j, (i - 1) as nat);
    }
}

proof fn lemma_climb_period(parents: Seq<Option<usize>>, v: int, i: nat, k: nat, m: nat)
    requires
        i < k,
        climb(parents, v, i) == climb(parents, v, k),
        i <= m,
    ensures
        exists|j: nat| i <= j < k && climb(parents, v, m) == #[trigger] climb(parents, v, j),
    decreases m,
{
    if m < k {
        assert(climb(parents, v, m) == climb(parents, v, m));
    } else {
        lemma_climb_period(parents, v, i, k, (m - 1) as nat);
        let j0 = choose|j: nat| i <= j < k && climb(parents, v, (m - 1) as nat) == #[trigger] climb(
            parents,
            v,
            j,
        );
        assert(climb(parents, v, m) == climb(parents, v, j0 + 1));
        if j0 + 1 == k {
            assert(climb(parents, v, m) == climb(parents, v, i));
        } else {
            assert(climb(parents, v, m) == climb(parents, v, (j0 + 1) as nat));
        }
    }
}

/// A chain that revisits a vertex before meeting a vertex without a parent never meets one.
proof fn lemma_cycle_misses_root(parents: Seq<Option<usize>>, v: int, i: nat, k: nat)
    requires
        i < k,
        climb(parents, v, i) == climb(parents, v, k),
        forall|j: nat| j < k ==> #[trigger] parents[climb(parents, v, j)] is Some,
    ensures
        !reaches_root(parents, v),
{
    assert forall|m: nat| #[trigger] parents[climb(parents, v, m)] is Some by {
        if m >= i {
            lemma_climb_period(parents, v, i, k, m);
            let j = choose|j: nat| i <= j < k && climb(parents, v, m) == #[trigger] climb(
                parents,
                v,
                j,
            );
            assert(parents[climb(parents, v, j)] is Some);
        } else {
            assert(parents[climb(parents, v, m)] is Some);
        }
    }
}

/// A vertex that returns to itself and reaches a root is itself a root.
proof fn lemma_loop_is_root(parents: Seq<Option<usize>>, v: int, m: nat)
    requires
        m > 0,
        climb(parents, v, m) == v,
        reaches_root(parents, v),
    ensures
        parents[v] is None,
{
    if exists|j: nat| j < m && #[trigger] parents[climb(parents, v, j)] is None {
        let j = choose|j: nat| j < m && #[trigger] parents[climb(parents, v, j)] is None;
        lemma_climb_stays(parents, v, j, m);
    } else {
        assert(climb(parents, v, 0) == v);
        lemma_cycle_misses_root(parents, v, 0, m);
    }
}

/// Tests whether `ancestor` lies on the parent chain of `value`.
fn ancestor_of(parents: &[Option<usize>], ancestor: usize, value: usize) -> (r: bool)
    requires
        parents_in_range(parents@),
        value < parents@.len(),
        forall|v: int| 0 <= v < parents@.len() ==> #[trigger] reaches_root(parents@, v),
    ensures
        r == is_ancestor(parents@, ancestor as int, value as int),
{
    let ghost p = parents@;
    let ghost v0 = value as int;
    assert(reaches_root(p, v0));
    let ghost big_k = choose|k: nat| #[trigger] p[climb(p, v0, k)] is None;
    let mut current = value;
    let ghost mut j: nat = 0;
    loop
        invariant
            p == parents@,
            parents_in_range(p),
            v0 == value as int,
            0 <= v0 < p.len(),
            current == climb(p, v0, j),
            current < p.len(),
            j <= big_k,
            p[climb(p, v0, big_k)] is None,
            forall|i: nat| i < j ==> #[trigger] climb(p, v0, i) != ancestor,
            forall|i: nat| i < j ==> #[trigger] p[climb(p, v0, i)] is Some,
        decreases big_k - j,
    {
        if ancestor == current {
            proof {
                assert(climb(p, v0, j) == ancestor as int);
                assert(is_ancestor(p, ancestor as int, v0));
            }
            return true;
        }
        match parents[current] {
            Some(parent) => {
                proof {
                    assert(j != big_k);
                    assert(p[current as int] matches Some(q) ==> q < p.len());
                }
                current = parent;
                proof {
                    j = j + 1;
                }
            },
            None => {
                proof {
                    assert forall|k: nat| #[trigger] climb(p, v0, k) != ancestor by {
                        if k >= j {
                            lemma_climb_stays(p, v0, j, k);
                        }
                    }
                    assert(!is_ancestor(p, ancestor as int, v0));
                }
                return false;
            },
        }
    }
}

/// Entry `(a, b)` of a row-major square table of side `n`.
pub open spec fn cell<T>(t: Seq<T>, n: int, a: int, b: int) -> T {
    t[a * n + b]
}

/// The absolute value of `x`.
pub open spec fn abs_value(x: int) -> int {
    if x >= 0 {
        x
    } else {
        -x
    }
}

/// Number of indices below `k` that satisfy `pred`.
pub open spec fn count_below(pred: spec_fn(int) -> bool, k: int) -> nat
    decreases k,
{
    if k <= 0 {
        0
    } else {
        count_below(pred, k - 1) + if pred(k - 1) {
            1nat
        } else {
            0nat
        }
    }
}

/// The number of positive divisors of `m` below `k`.
pub open spec fn divisor_count_below(m: int, k: int) -> nat {
    count_below(|x: int| x >= 1 && m % x == 0, k)
}

/// The number of positive divisors of `m`.
pub open spec fn divisor_count(m: int) -> nat {
    divisor_count_below(m, m + 1)
}

proof fn lemma_count_below_mono(f: spec_fn(int) -> bool, g: spec_fn(int) -> bool, k: int)
    requires
        forall|z: int| 0 <= z < k && #[trigger] f(z) ==> g(z),
    ensures
        count_below(f, k) <= count_below(g, k),
    decreases k,
{
    if k > 0 {
        lemma_count_below_mono(f, g, k - 1);
    }
}

proof fn lemma_count_below_strict(f: spec_fn(int) -> bool, g: spec_fn(int) -> bool, k: int, w: int)
    requires
        forall|z: int| 0 <= z < k && #[trigger] f(z) ==> g(z),
        0 <= w < k,
        g(w),
        !f(w),
    ensures
        count_below(f, k) < count_below(g, k),
    decreases k,
{
    if w == k - 1 {
        lemma_count_below_mono(f, g, k - 1);
    } else {
        lemma_count_below_strict(f, g, k - 1, w);
    }
}

/// Sum of `h` over the indices below `k`.
pub open spec fn range_sum(h: spec_fn(int) -> int, k: int) -> int
    decreases k,
{
    if k <= 0 {
        0
    } else {
        range_sum(h, k - 1) + h(k - 1)
    }
}

/// Sum of `h` over the entries of `s`, in order.
pub open spec fn seq_sum(s: Seq<usize>, h: spec_fn(int) -> int) -> int
    decreases s.len(),
{
    if s.len() == 0 {
        0
    } else {
        seq_sum(s.drop_last(), h) + h(s.last() as int)
    }
}

/// The entries of `m` as mathematical integers.
pub open spec fn as_ints(m: Seq<i128>) -> Seq<int> {
    m.map_values(|v: i128| v as int)
}

/// A sum is at most the sum of the absolute values of its terms.
proof fn lemma_seq_sum_abs(s: Seq<usize>, g: spec_fn(int) -> int)
    ensures
        abs_value(seq_sum(s, g)) <= seq_sum(s, |z: int| abs_value(g(z))),
    decreases s.len(),
{
    if s.len() > 0 {
        lemma_seq_sum_abs(s.drop_last(), g);
    }
}

/// Sums over the same range keep a pointwise order.
proof fn lemma_range_sum_le(h1: spec_fn(int) -> int, h2: spec_fn(int) -> int, k: int)
    requires
        forall|z: int| 0 <= z < k ==> #[trigger] h1(z) <= h2(z),
    ensures
        range_sum(h1, k) <= range_sum(h2, k),
    decreases k,
{
    if k > 0 {
        lemma_range_sum_le(h1, h2, k - 1);
    }
}

pub proof fn lemma_range_sum_ext(h1: spec_fn(int) -> int, h2: spec_fn(int) -> int, k: int)
    requires
        forall|z: int| 0 <= z < k ==> #[trigger] h1(z) == h2(z),
    ensures
        range_sum(h1, k) == range_sum(h2, k),
    decreases k,
{
    if k > 0 {
        lemma_range_sum_ext(h1, h2, k - 1);
    }
}

pub proof fn lemma_range_sum_point(h1: spec_fn(int) -> int, h2: spec_fn(int) -> int, k: int, e: int)
    requires
        0 <= e < k,
        forall|z: int| 0 <= z < k && z != e ==> #[trigger] h1(z) == h2(z),
    ensures
        range_sum(h1, k) == range_sum(h2, k) + h1(e) - h2(e),
    decreases k,
{
    if e == k - 1 {
        lemma_range_sum_ext(h1, h2, k - 1);
    } else {
        lemma_range_sum_point(h1, h2, k - 1, e);
    }
}

/// A sum over distinct indices below `n` is the sum over the indices that they contain.
proof fn lemma_seq_sum_as_range(s: Seq<usize>, h: spec_fn(int) -> int, n: int)
    requires
        n <= usize::MAX,
        forall|i: int| 0 <= i < s.len() ==> #[trigger] s[i] < n,
        forall|i: int, j: int| 0 <= i < j < s.len() ==> s[i] != s[j],
    ensures
        seq_sum(s, h) == range_sum(|z: int| if 0 <= z && s.contains(z as usize) { h(z) } else { 0 }, n),
    decreases s.len(),
{
    let g = |z: int| if 0 <= z && s.contains(z as usize) { h(z) } else { 0 };
    if s.len() == 0 {
        let zero = |z: int| 0int;
        assert forall|z: int| 0 <= z < n implies #[trigger] g(z) == zero(z) by {}
        lemma_range_sum_ext(g, zero, n);
        assert forall|k: int| 0 <= k <= n implies #[trigger] range_sum(zero, k) == 0 by {
            lemma_range_sum_zero(k);
        }
    } else {
        let t = s.drop_last();
        let e = s.last();
        lemma_seq_sum_as_range(t, h, n);
        let g0 = |z: int| if 0 <= z && t.contains(z as usize) { h(z) } else { 0 };
        assert(!t.contains(e)) by {
            if t.contains(e) {
                let i = choose|i: int| 0 <= i < t.len() && t[i] == e;
                assert(s[i] == s[s.len() - 1]);
            }
        }
        assert forall|z: int| 0 <= z < n && z != e implies #[trigger] g(z) == g0(z) by {
            if 0 <= z && s.contains(z as usize) {
                let i = choose|i: int| 0 <= i < s.len() && s[i] == z as usize;
                assert(s[i] as int == z);
                assert(i != s.len() - 1);
                assert(t[i] == z as usize);
                assert(t.contains(z as usize));
            }
            if 0 <= z && t.contains(z as usize) {
                let i = choose|i: int| 0 <= i < t.len() && t[i] == z as usize;
                assert(s[i] == z as usize);
            }
        }
        assert(s[s.len() - 1] == e);
        assert(s.contains(e));
        lemma_range_sum_point(g, g0, n, e as int);
    }
}

pub proof fn lemma_range_sum_zero(k: int)
    ensures
        range_sum(|z: int| 0int, k) == 0,
    decreases k,
{
    if k > 0 {
        lemma_range_sum_zero(k - 1);
    }
}

/// A sum of terms that are each at most one is at most the number of terms.
proof fn lemma_range_sum_unit(h: spec_fn(int) -> int, k: int)
    requires
        k >= 0,
        forall|z: int| 0 <= z < k ==> #[trigger] h(z) <= 1,
    ensures
        range_sum(h, k) <= k,
    decreases k,
{
    if k > 0 {
        lemma_range_sum_unit(h, k - 1);
    }
}

/// The least number of steps after which the parent chain of `v` reaches `a`.
proof fn lemma_least_climb(parents: Seq<Option<usize>>, v: int, a: int, k: nat) -> (d: nat)
    requires
        climb(parents, v, k) == a,
    ensures
        d <= k,
        climb(parents, v, d) == a,
        forall|j: nat| j < d ==> #[trigger] climb(parents, v, j) != a,
    decreases k,
{
    if exists|j: nat| j < k && #[trigger] climb(parents, v, j) == a {
        let j = choose|j: nat| j < k && #[trigger] climb(parents, v, j) == a;
        lemma_least_climb(parents, v, a, j)
    } else {
        k
    }
}

/// The Möbius function of the ancestry order of a rooted tree, row-major: one on the diagonal,
/// minus one from a parent to its child, and zero elsewhere.
pub open spec fn tree_mobius(parents: Seq<Option<usize>>) -> Seq<int> {
    let n = parents.len() as int;
    Seq::new(
        (n * n) as nat,
        |k: int|
            if k / n == k % n {
                1
            } else if parents[k % n] == Some((k / n) as usize) {
                -1
            } else {
                0
            },
    )
}

/// Every one bit among the low `k` bits of `a` is also set in `b`.
pub open spec fn bits_within(a: nat, b: nat, k: nat) -> bool
    decreases k,
{
    k == 0 || (a % 2 <= b % 2 && bits_within(a / 2, b / 2, (k - 1) as nat))
}

/// `(-1)` to the number of one bits among the low `k` bits of `z`.
pub open spec fn bit_sign(z: nat, k: nat) -> int
    decreases k,
{
    if k == 0 {
        1
    } else {
        (if z % 2 == 1 {
            -1int
        } else {
            1int
        }) * bit_sign(z / 2, (k - 1) as nat)
    }
}

/// The Möbius function of the Boolean lattice of `bits`-bit masks, row-major: `(-1)` to the
/// number of bits of `b` outside `a` when `a` is within `b`, and zero otherwise.
pub open spec fn boolean_mobius(bits: nat) -> Seq<int> {
    let n = pow2(bits) as int;
    Seq::new(
        (n * n) as nat,
        |k: int|
            if bits_within((k / n) as nat, (k % n) as nat, bits) {
                bit_sign((k / n) as nat, bits) * bit_sign((k % n) as nat, bits)
            } else {
                0
            },
    )
}

/// The signed sum over the masks between `a` and `b`.
spec fn between_sum(a: nat, b: nat, k: nat) -> int {
    range_sum(
        |z: int| if bits_within(a, z as nat, k) && bits_within(z as nat, b, k) { bit_sign(z as nat, k) } else { 0 },
        pow2(k) as int,
    )
}

proof fn lemma_bit_sign_unit(z: nat, k: nat)
    ensures
        bit_sign(z, k) == 1 || bit_sign(z, k) == -1,
    decreases k,
{
    if k > 0 {
        lemma_bit_sign_unit(z / 2, (k - 1) as nat);
        let t = bit_sign(z / 2, (k - 1) as nat);
        if z % 2 == 1 {
            assert(bit_sign(z, k) == -1 * t);
        } else {
            assert(bit_sign(z, k) == 1 * t);
        }
    }
}

/// A sum over `2m` terms is the sum over `m` consecutive pairs.
pub proof fn lemma_range_sum_pairs(f: spec_fn(int) -> int, m: int)
    requires
        m >= 0,
    ensures
        range_sum(f, 2 * m) == range_sum(|w: int| f(2 * w) + f(2 * w + 1), m),
    decreases m,
{
    if m > 0 {
        lemma_range_sum_pairs(f, m - 1);
        assert(range_sum(f, 2 * m) == range_sum(f, 2 * m - 1) + f(2 * m - 1));
        assert(range_sum(f, 2 * m - 1) == range_sum(f, 2 * (m - 1)) + f(2 * (m - 1)));
    }
}

/// A constant factor comes out of a sum.
pub proof fn lemma_range_sum_scale(c: int, g: spec_fn(int) -> int, k: int)
    ensures
        range_sum(|w: int| c * g(w), k) == c * range_sum(g, k),
    decreases k,
{
    if k > 0 {
        lemma_range_sum_scale(c, g, k - 1);
        lemma_mul_is_distributive_add(c, range_sum(g, k - 1), g(k - 1));
    }
}

/// The signed sum over the masks between `a` and `b` is the sign of `a` when `a == b`, and
/// zero otherwise.
proof fn lemma_between_sum(a: nat, b: nat, k: nat)
    requires
        a < pow2(k),
        b < pow2(k),
        bits_within(a, b, k),
    ensures
        between_sum(a, b, k) == (if a == b { bit_sign(a, k) } else { 0 }),
    decreases k,
{
    let f = |z: int| if bits_within(a, z as nat, k) && bits_within(z as nat, b, k) { bit_sign(z as nat, k) } else { 0 };
    if k == 0 {
        lemma2_to64();
        assert(range_sum(f, 1) == range_sum(f, 0) + f(0));
    } else {
        let j = (k - 1) as nat;
        let half = pow2(j) as int;
        lemma_pow2_unfold(k);
        lemma_pow2_pos(j);
        let a2 = a / 2;
        let b2 = b / 2;
        lemma_between_sum(a2, b2, j);
        let g = |w: int| if bits_within(a2, w as nat, j) && bits_within(w as nat, b2, j) { bit_sign(w as nat, j) } else { 0 };
        let cf: int = (if a % 2 == 0 { 1int } else { 0int }) - (if b % 2 == 1 { 1int } else { 0int });
        let pairs = |w: int| f(2 * w) + f(2 * w + 1);
        let scaled = |w: int| cf * g(w);
        assert forall|w: int| 0 <= w < half implies #[trigger] pairs(w) == scaled(w) by {
            let z0 = 2 * w;
            let z1 = 2 * w + 1;
            assert((z0 as nat) % 2 == 0 && (z0 as nat) / 2 == w as nat);
            assert((z1 as nat) % 2 == 1 && (z1 as nat) / 2 == w as nat);
            let gw = g(w);
            assert(bit_sign(z0 as nat, k) == 1 * bit_sign(w as nat, j));
            assert(bit_sign(z1 as nat, k) == -1 * bit_sign(w as nat, j));
            assert(f(z0) == (if a % 2 == 0 { gw } else { 0 }));
            assert(f(z1) == (if b % 2 == 1 { -gw } else { 0 }));
            if a % 2 == 0 && b % 2 == 0 {
                assert(cf == 1);
            } else if a % 2 == 0 {
                assert(cf == 0);
            } else if b % 2 == 1 {
                assert(cf == -1);
                assert(cf * gw == -gw);
            } else {
                assert(cf == -1);
            }
        }
        lemma_range_sum_pairs(f, half);
        lemma_range_sum_ext(pairs, scaled, half);
        lemma_range_sum_scale(cf, g, half);
        assert(pow2(k) as int == 2 * half);
        assert(between_sum(a, b, k) == range_sum(f, 2 * half));
        assert(between_sum(a2, b2, j) == range_sum(g, half));
        assert(between_sum(a, b, k) == cf * between_sum(a2, b2, j));
        if a == b {
            assert(a2 == b2);
            let t = bit_sign(a2, j);
            if a % 2 == 0 {
                assert(cf == 1);
                assert(bit_sign(a, k) == 1 * t);
            } else {
                assert(cf == -1);
                assert(bit_sign(a, k) == -1 * t);
            }
        } else if a2 == b2 {
            assert(a % 2 != b % 2);
            assert(cf == 0);
        }
    }
}

/// For masks below `2^k`, `a & b == a` says that `a` is within `b`.
proof fn lemma_and_within(a: usize, b: usize, k: nat)
    requires
        (a as nat) < pow2(k),
        (b as nat) < pow2(k),
    ensures
        ((a & b) == a) <==> bits_within(a as nat, b as nat, k),
    decreases k,
{
    if k == 0 {
        lemma2_to64();
        assert(a == 0 && b == 0);
        assert((0usize & 0usize) == 0usize) by (bit_vector);
    } else {
        lemma_pow2_unfold(k);
        lemma_and_within(a / 2, b / 2, (k - 1) as nat);
        assert(((a & b) == a) <==> (a % 2 <= b % 2 && ((a / 2) & (b / 2)) == a / 2)) by (bit_vector);
    }
}

/// Adding two functions adds their sums.
pub proof fn lemma_range_sum_add(h1: spec_fn(int) -> int, h2: spec_fn(int) -> int, k: int)
    ensures
        range_sum(|z: int| h1(z) + h2(z), k) == range_sum(h1, k) + range_sum(h2, k),
    decreases k,
{
    if k > 0 {
        lemma_range_sum_add(h1, h2, k - 1);
    }
}

/// Zero terms at the end leave a sum unchanged.
proof fn lemma_range_sum_tail(h: spec_fn(int) -> int, k1: int, k2: int)
    requires
        0 <= k1 <= k2,
        forall|z: int| k1 <= z < k2 ==> #[trigger] h(z) == 0,
    ensures
        range_sum(h, k2) == range_sum(h, k1),
    decreases k2,
{
    if k2 > k1 {
        lemma_range_sum_tail(h, k1, k2 - 1);
    }
}

/// A sum whose terms vanish off the multiples of `p` is the sum over those multiples.
proof fn lemma_range_sum_stride(h: spec_fn(int) -> int, p: int, k: int)
    requires
        p >= 1,
        k >= 0,
        forall|e: int| 0 <= e < p * k && e % p != 0 ==> #[trigger] h(e) == 0,
    ensures
        range_sum(h, p * k) == range_sum(|s: int| h(p * s), k),
    decreases k,
{
    if k > 0 {
        assert(p * k == p * (k - 1) + p) by (nonlinear_arith);
        assert(p * (k - 1) >= 0) by (nonlinear_arith)
            requires
                p >= 1,
                k >= 1,
        ;
        lemma_range_sum_stride(h, p, k - 1);
        assert forall|e: int| p * (k - 1) + 1 <= e < p * k implies #[trigger] h(e) == 0 by {
            let t = e - p * (k - 1);
            lemma_fundamental_div_mod_converse(e, p, k - 1, t);
        }
        lemma_range_sum_tail(h, p * (k - 1) + 1, p * k);
        let j = p * (k - 1);
        assert(range_sum(h, j + 1) == range_sum(h, j) + h(j));
        let hs = |s: int| h(p * s);
        assert(range_sum(hs, k) == range_sum(hs, k - 1) + hs(k - 1));
        assert(hs(k - 1) == h(j));
    } else {
        lemma_mul_basics(p);
    }
}

/// The least divisor of `x` that is at least `d`, or `x` itself when there is none below it.
pub open spec fn least_divisor_from(x: nat, d: nat) -> nat
    decreases x - d,
{
    if d >= x {
        x
    } else if x % d == 0 {
        d
    } else {
        least_divisor_from(x, d + 1)
    }
}

/// The least prime factor of `x`.
pub open spec fn least_prime_factor(x: nat) -> nat {
    least_divisor_from(x, 2)
}

pub proof fn lemma_least_divisor_from(x: nat, d: nat)
    requires
        2 <= d <= x,
    ensures
        d <= least_divisor_from(x, d) <= x,
        x % least_divisor_from(x, d) == 0,
        forall|e: nat| d <= e < least_divisor_from(x, d) ==> #[trigger] (x % e) != 0,
    decreases x - d,
{
    if d == x {
        lemma_mod_self_0(x as int);
    } else if x % d != 0 {
        lemma_least_divisor_from(x, d + 1);
    }
}

/// The classical Möbius function: zero when a square divides `x`, and otherwise minus one to
/// the number of prime factors of `x`.
pub open spec fn mobius_number(x: nat) -> int
    decreases x,
{
    if x <= 1 {
        1
    } else {
        let p = least_prime_factor(x);
        proof {
            lemma_least_divisor_from(x, 2);
            lemma_div_decreases(x as int, p as int);
        }
        if (x / p) % p == 0 {
            0
        } else {
            -mobius_number(x / p)
        }
    }
}

pub proof fn lemma_div_decreases(x: int, p: int)
    requires
        x >= 2,
        p >= 2,
    ensures
        0 <= x / p < x,
{
    lemma_fundamental_div_mod(x, p);
    lemma_mod_bound(x, p);
    let q = x / p;
    assert(0 <= q < x) by (nonlinear_arith)
        requires
            x == p * q + x % p,
            0 <= x % p < p,
            x >= 2,
            p >= 2,
    ;
}

proof fn lemma_mobius_number_unit(x: nat)
    ensures
        -1 <= mobius_number(x) <= 1,
    decreases x,
{
    if x > 1 {
        let p = least_prime_factor(x);
        lemma_least_divisor_from(x, 2);
        lemma_div_decreases(x as int, p as int);
        lemma_mobius_number_unit(x / p);
    }
}

/// The terms `mobius_number(e)` over the divisors `e` of `n`, and zero elsewhere.
pub open spec fn divisor_terms(n: int) -> spec_fn(int) -> int {
    |e: int| if e >= 1 && n % e == 0 { mobius_number(e as nat) } else { 0 }
}

/// The Möbius function sums to zero over the divisors of any `n >= 2`.
proof fn lemma_mobius_number_sum(n: int)
    requires
        n >= 2,
    ensures
        range_sum(divisor_terms(n), n + 1) == 0,
{
    let p = least_prime_factor(n as nat) as int;
    lemma_least_divisor_from(n as nat, 2);
    let r = n / p;
    lemma_fundamental_div_mod(n, p);
    assert(n == p * r);
    assert(r >= 1) by (nonlinear_arith)
        requires
            n == p * r,
            n >= 2,
            p >= 2,
    ;
    assert(is_prime_spec(p)) by {
        assert forall|e: int| 2 <= e < p implies #[trigger] (p % e) != 0 by {
            if p % e == 0 {
                lemma_divides_transitive(n, p, e);
                assert((n as nat) % (e as nat) != 0);
            }
        }
    }
    let d = divisor_terms(n);
    let a = |e: int| if e >= 1 && n % e == 0 && e % p != 0 { mobius_number(e as nat) } else { 0 };
    let c = |e: int| if e >= 1 && n % e == 0 && e % p == 0 { mobius_number(e as nat) } else { 0 };
    let b = |s: int| if s >= 1 && r % s == 0 && s % p != 0 { mobius_number(s as nat) } else { 0 };
    // The divisors prime to `p` are the divisors of `r` prime to `p`.
    assert forall|e: int| e >= 1 && e % p != 0 implies (#[trigger] divides(e, n) <==> divides(e, r)) by {
        if n % e == 0 {
            lemma_fundamental_div_mod(n, e);
            let k = n / e;
            assert((e * k) % p == 0) by {
                lemma_mod_multiples_basic(r, p);
                lemma_mul_is_commutative(r, p);
            }
            lemma_euclid(p, e, k);
            lemma_fundamental_div_mod(k, p);
            let k2 = k / p;
            assert(r == e * k2) by (nonlinear_arith)
                requires
                    n == e * k,
                    k == p * k2 + 0,
                    n == p * r,
                    p >= 2,
            ;
            lemma_mod_multiples_basic(k2, e);
            lemma_mul_is_commutative(k2, e);
        }
        if r % e == 0 {
            lemma_mod_multiples_basic(p, r);
            lemma_mul_is_commutative(p, r);
            lemma_divides_transitive(n, r, e);
        }
    }
    assert forall|e: int| r + 1 <= e < n + 1 implies #[trigger] a(e) == 0 by {
        if e >= 1 && n % e == 0 && e % p != 0 {
            assert(divides(e, n));
            lemma_small_mod(r as nat, e as nat);
        }
    }
    lemma_range_sum_tail(a, r + 1, n + 1);
    assert forall|e: int| 0 <= e < r + 1 implies #[trigger] a(e) == b(e) by {
        if e >= 1 && e % p != 0 {
            assert(divides(e, n) == divides(e, r));
        }
    }
    lemma_range_sum_ext(a, b, r + 1);
    // The divisors that are multiples of `p` are `p` times the divisors of `r`.
    assert forall|e: int| n + 1 <= e < p * (r + 1) implies #[trigger] c(e) == 0 by {
        if e >= 1 && n % e == 0 {
            lemma_small_mod(n as nat, e as nat);
        }
    }
    assert(p * (r + 1) == n + p) by (nonlinear_arith)
        requires
            n == p * r,
    ;
    lemma_range_sum_tail(c, n + 1, p * (r + 1));
    assert forall|e: int| 0 <= e < p * (r + 1) && e % p != 0 implies #[trigger] c(e) == 0 by {}
    lemma_range_sum_stride(c, p, r + 1);
    let cs = |s: int| c(p * s);
    let nb = |s: int| -1 * b(s);
    assert forall|s: int| 0 <= s < r + 1 implies #[trigger] cs(s) == nb(s) by {
        let e = p * s;
        lemma_mod_multiples_basic(s, p);
        lemma_mul_is_commutative(s, p);
        if s >= 1 {
            assert(e >= 2) by (nonlinear_arith)
                requires
                    e == p * s,
                    p >= 2,
                    s >= 1,
            ;
            assert(n % e == 0 <==> r % s == 0) by {
                if r % s == 0 {
                    lemma_fundamental_div_mod(r, s);
                    let q = r / s;
                    assert(n == e * q) by (nonlinear_arith)
                        requires
                            n == p * r,
                            r == s * q + 0,
                            e == p * s,
                    ;
                    lemma_mod_multiples_basic(q, e);
                    lemma_mul_is_commutative(q, e);
                }
                if n % e == 0 {
                    lemma_fundamental_div_mod(n, e);
                    let q = n / e;
                    assert(r == s * q) by (nonlinear_arith)
                        requires
                            n == p * r,
                            n == e * q + 0,
                            e == p * s,
                            p >= 2,
                    ;
                    lemma_mod_multiples_basic(q, s);
                    lemma_mul_is_commutative(q, s);
                }
            }
            if n % e == 0 {
                // The least prime factor of `e` is `p`.
                lemma_least_divisor_from(e as nat, 2);
                let q = least_prime_factor(e as nat) as int;
                lemma_divides_transitive(n, e, q);
                assert(q >= p) by {
                    if q < p {
                        assert((n as nat) % (q as nat) != 0);
                    }
                }
                assert(q <= p) by {
                    if q > p {
                        assert((e as nat) % (p as nat) != 0);
                    }
                }
                lemma_div_multiples_vanish(s, p);
                assert(e / p == s);
            }
        }
    }
    lemma_range_sum_ext(cs, nb, r + 1);
    lemma_range_sum_scale(-1, b, r + 1);
    assert forall|e: int| 0 <= e < n + 1 implies #[trigger] d(e) == a(e) + c(e) by {}
    let ac = |e: int| a(e) + c(e);
    lemma_range_sum_ext(d, ac, n + 1);
    lemma_range_sum_add(a, c, n + 1);
}

/// A sum over an increasing list of exactly the values below `k` that satisfy `pred` is the sum
/// over those values.
proof fn lemma_sorted_sum(d: Seq<usize>, pred: spec_fn(int) -> bool, f: spec_fn(int) -> int, k: int)
    requires
        0 <= k <= usize::MAX + 1,
        forall|i: int, j: int| 0 <= i < j < d.len() ==> d[i] < d[j],
        forall|i: int| 0 <= i < d.len() ==> #[trigger] d[i] < k && pred(d[i] as int),
        forall|v: int| 0 <= v < k && #[trigger] pred(v) ==> d.contains(v as usize),
    ensures
        range_sum(|z: int| f(d[z] as int), d.len() as int) == range_sum(
            |v: int| if pred(v) { f(v) } else { 0 },
            k,
        ),
    decreases d.len(),
{
    let pf = |v: int| if pred(v) { f(v) } else { 0 };
    if d.len() == 0 {
        let zero = |z: int| 0int;
        assert forall|v: int| 0 <= v < k implies #[trigger] pf(v) == zero(v) by {
            if pred(v) {
                assert(d.contains(v as usize));
            }
        }
        lemma_range_sum_ext(pf, zero, k);
        lemma_range_sum_zero(k);
    } else {
        let len = d.len() as int;
        let t = d.drop_last();
        let last = d[len - 1] as int;
        assert forall|i: int| 0 <= i < len implies #[trigger] d[i] <= last by {
            if i < len - 1 {
                assert(d[i] < d[len - 1]);
            }
        }
        assert forall|i: int| 0 <= i < t.len() implies #[trigger] t[i] < last && pred(t[i] as int) by {
            assert(t[i] == d[i]);
            assert(d[i] < d[len - 1]);
        }
        assert forall|v: int| 0 <= v < last && #[trigger] pred(v) implies t.contains(v as usize) by {
            assert(d.contains(v as usize));
            let i = choose|i: int| 0 <= i < len && d[i] == v as usize;
            assert(i != len - 1);
            assert(t[i] == d[i]);
        }
        lemma_sorted_sum(t, pred, f, last);
        assert forall|v: int| last + 1 <= v < k implies #[trigger] pf(v) == 0 by {
            if pred(v) {
                assert(d.contains(v as usize));
                let i = choose|i: int| 0 <= i < len && d[i] == v as usize;
                assert(d[i] <= last);
            }
        }
        assert(d[len - 1] < k && pred(d[len - 1] as int));
        lemma_range_sum_tail(pf, last + 1, k);
        assert(range_sum(pf, last + 1) == range_sum(pf, last) + pf(last));
        let fd = |z: int| f(d[z] as int);
        let ft = |z: int| f(t[z] as int);
        assert forall|z: int| 0 <= z < len - 1 implies #[trigger] fd(z) == ft(z) by {
            assert(t[z] == d[z]);
        }
        lemma_range_sum_ext(fd, ft, len - 1);
        assert(range_sum(fd, len) == range_sum(fd, len - 1) + fd(len - 1));
    }
}

/// The Möbius function of the divisibility order on the increasing list `d` of divisors,
/// row-major: `mobius_number(d[j] / d[i])` where `d[i]` divides `d[j]`, and zero elsewhere.
pub open spec fn divisor_mobius(d: Seq<usize>) -> Seq<int> {
    let n = d.len() as int;
    Seq::new(
        (n * n) as nat,
        |k: int|
            if (d[k % n] as int) % (d[k / n] as int) == 0 {
                mobius_number(((d[k % n] as int) / (d[k / n] as int)) as nat)
            } else {
                0
            },
    )
}

/// Sums over the same list agree when their terms agree on its entries.
proof fn lemma_seq_sum_elementwise(s: Seq<usize>, g1: spec_fn(int) -> int, g2: spec_fn(int) -> int)
    requires
        forall|i: int| 0 <= i < s.len() ==> #[trigger] g1(s[i] as int) == g2(s[i] as int),
    ensures
        seq_sum(s, g1) == seq_sum(s, g2),
    decreases s.len(),
{
    if s.len() > 0 {
        let t = s.drop_last();
        assert forall|i: int| 0 <= i < t.len() implies #[trigger] g1(t[i] as int) == g2(t[i] as int) by {
            assert(t[i] == s[i]);
        }
        lemma_seq_sum_elementwise(t, g1, g2);
        assert(g1(s[s.len() - 1] as int) == g2(s[s.len() - 1] as int));
    }
}

/// Writing entry `(x0, y0)` of an `i128` table leaves every entry of another column in place.
proof fn lemma_write_other_column(m: Seq<i128>, n: int, x0: int, y0: int, v: i128, x: int, c: int)
    requires
        m.len() == n * n,
        0 <= x0 < n,
        0 <= y0 < n,
        0 <= x < n,
        0 <= c < n,
        c != y0,
    ensures
        cell(as_ints(m.update(x0 * n + y0, v)), n, x, c) == cell(as_ints(m), n, x, c),
{
    lemma_index(x0, y0, n);
    lemma_index(x, c, n);
}

/// The order of a double sum can be swapped.
pub proof fn lemma_range_sum_swap(f: spec_fn(int, int) -> int, k: int, m: int)
    requires
        k >= 0,
    ensures
        range_sum(|c: int| range_sum(|v: int| f(c, v), m), k) == range_sum(
            |v: int| range_sum(|c: int| f(c, v), k),
            m,
        ),
    decreases k,
{
    let outer = |c: int| range_sum(|v: int| f(c, v), m);
    let inner = |v: int| range_sum(|c: int| f(c, v), k);
    if k == 0 {
        let zero = |v: int| 0int;
        assert forall|v: int| 0 <= v < m implies #[trigger] inner(v) == zero(v) by {}
        lemma_range_sum_ext(inner, zero, m);
        lemma_range_sum_zero(m);
    } else {
        lemma_range_sum_swap(f, k - 1, m);
        let prev = |v: int| range_sum(|c: int| f(c, v), k - 1);
        let last = |v: int| f(k - 1, v);
        let both = |v: int| prev(v) + last(v);
        assert forall|v: int| 0 <= v < m implies #[trigger] inner(v) == both(v) by {
            assert(range_sum(|c: int| f(c, v), k) == range_sum(|c: int| f(c, v), k - 1) + f(k - 1, v));
        }
        lemma_range_sum_ext(inner, both, m);
        lemma_range_sum_add(prev, last, m);
        assert(outer(k - 1) == range_sum(last, m));
    }
}

/// Summing over the positions of `0..n` with `b` left out is summing over `0..n` less the term
/// at `b`; here over the first `k` positions.
pub proof fn lemma_range_sum_skip(h: spec_fn(int) -> int, b: int, k: int)
    requires
        0 <= b,
        k >= 0,
    ensures
        range_sum(|slot: int| h(if slot < b { slot } else { slot + 1 }), k) == (if k <= b {
            range_sum(h, k)
        } else {
            range_sum(h, k + 1) - h(b)
        }),
    decreases k,
{
    if k > 0 {
        lemma_range_sum_skip(h, b, k - 1);
        let hs = |slot: int| h(if slot < b { slot } else { slot + 1 });
        assert(range_sum(hs, k) == range_sum(hs, k - 1) + hs(k - 1));
        if k - 1 == b {
            assert(range_sum(h, k + 1) == range_sum(h, k) + h(k));
        } else if k - 1 > b {
            assert(range_sum(h, k + 1) == range_sum(h, k) + h(k));
        }
    }
}

/// Validated finite partially ordered set backed by a dense relation table.
#[derive(Clone, Debug, PartialEq, Eq)]
pub struct FinitePoset {
    size: usize,
    leq: Vec<bool>,
}

impl FinitePoset {
    /// Number of elements.
    pub closed spec fn n(&self) -> nat {
        self.size as nat
    }

    /// `a` is less than or equal to `b`.
    pub closed spec fn rel(&self, a: int, b: int) -> bool {
        entry(self.leq@, self.size as int, a, b)
    }

    /// The table is a partial order on at least two elements, stored row-major.
    pub closed spec fn wf(&self) -> bool {
        &&& self.size >= 2
        &&& self.size * self.size <= usize::MAX
        &&& self.leq@.len() == self.size * self.size
        &&& table_error(self.size as int, self.leq@) is None
    }

    /// A well-formed poset is a partial order on at least two elements.
    pub proof fn lemma_partial_order(&self)
        requires
            self.wf(),
        ensures
            self.n() >= 2,
            self.n() * self.n() <= usize::MAX,
            forall|v: int| 0 <= v < self.n() ==> #[trigger] self.rel(v, v),
            forall|a: int, b: int|
                0 <= a < self.n() && 0 <= b < self.n() && #[trigger] self.rel(a, b)
                    && #[trigger] self.rel(b, a) ==> a == b,
            forall|a: int, m: int, b: int|
                0 <= a < self.n() && 0 <= m < self.n() && 0 <= b < self.n() && #[trigger] self.rel(
                    a,
                    m,
                ) && #[trigger] self.rel(m, b) ==> self.rel(a, b),
    {
        assert forall|v: int| 0 <= v < self.n() implies #[trigger] self.rel(v, v) by {
            assert(entry(self.leq@, self.size as int, v, v));
        }
        assert forall|a: int, b: int|
            0 <= a < self.n() && 0 <= b < self.n() && #[trigger] self.rel(a, b)
                && #[trigger] self.rel(b, a) implies a == b by {
            if a != b {
                assert(!(entry(self.leq@, self.size as int, a, b) && entry(
                    self.leq@,
                    self.size as int,
                    b,
                    a,
                )));
            }
        }
        assert forall|a: int, m: int, b: int|
            0 <= a < self.n() && 0 <= m < self.n() && 0 <= b < self.n() && #[trigger] self.rel(
                a,
                m,
            ) && #[trigger] self.rel(m, b) implies self.rel(a, b) by {
            assert(entry(self.leq@, self.size as int, a, m));
            assert(entry(self.leq@, self.size as int, m, b));
        }
    }

    /// Constructs a poset from a row-major less-than-or-equal relation.
    pub fn new(size: usize, leq: Vec<bool>) -> (r: Result<Self, Error>)
        requires
            size >= 2 ==> size * size <= usize::MAX,
        ensures
            table_outcome(size as int, leq@, r),
    {
        if size < 2 {
            return Err(Error::PosetTooSmall);
        }
        if leq.len() != size * size {
            return Err(Error::RelationLength);
        }
        let n = size;
        let ghost t = leq@;
        let mut value: usize = 0;
        while value < n
            invariant
                n == size,
                t == leq@,
                n >= 2,
                n * n <= usize::MAX,
                t.len() == n * n,
                value <= n,
                forall|v: int| 0 <= v < value ==> #[trigger] entry(t, n as int, v, v),
            decreases n - value,
        {
            proof {
                lemma_index(value as int, value as int, n as int);
            }
            if !leq[value * n + value] {
                assert(!entry(t, n as int, value as int, value as int));
                return Err(Error::NotReflexive);
            }
            value = value + 1;
        }
        assert(reflexive_table(n as int, t));
        let mut lhs: usize = 0;
        while lhs < n
            invariant
                n == size,
                t == leq@,
                n >= 2,
                n * n <= usize::MAX,
                t.len() == n * n,
                reflexive_table(n as int, t),
                lhs <= n,
                forall|a: int, b: int|
                    0 <= a < lhs && a < b < n ==> !(#[trigger] entry(t, n as int, a, b)
                        && #[trigger] entry(t, n as int, b, a)),
            decreases n - lhs,
        {
            let mut rhs: usize = lhs + 1;
            while rhs < n
                invariant
                    n == size,
                    t == leq@,
                    n >= 2,
                    n * n <= usize::MAX,
                    t.len() == n * n,
                    reflexive_table(n as int, t),
                    lhs < n,
                    lhs + 1 <= rhs <= n,
                    forall|a: int, b: int|
                        0 <= a < lhs && a < b < n ==> !(#[trigger] entry(t, n as int, a, b)
                            && #[trigger] entry(t, n as int, b, a)),
                    forall|b: int|
                        lhs < b < rhs ==> !(#[trigger] entry(t, n as int, lhs as int, b) && entry(
                            t,
                            n as int,
                            b,
                            lhs as int,
                        )),
                decreases n - rhs,
            {
                proof {
                    lemma_index(lhs as int, rhs as int, n as int);
                    lemma_index(rhs as int, lhs as int, n as int);
                }
                if leq[lhs * n + rhs] && leq[rhs * n + lhs] {
                    assert(entry(t, n as int, lhs as int, rhs as int) && entry(
                        t,
                        n as int,
                        rhs as int,
                        lhs as int,
                    ));
                    return Err(Error::NotAntisymmetric);
                }
                rhs = rhs + 1;
            }
            lhs = lhs + 1;
        }
        assert(antisymmetric_table(n as int, t)) by {
            assert forall|a: int, b: int|
                0 <= a < n && 0 <= b < n && a != b implies !(#[trigger] entry(t, n as int, a, b)
                && #[trigger] entry(t, n as int, b, a)) by {
                if a > b {
                    assert(!(entry(t, n as int, b, a) && entry(t, n as int, a, b)));
                }
            }
        }
        let mut lhs: usize = 0;
        while lhs < n
            invariant
                n == size,
                t == leq@,
                n >= 2,
                n * n <= usize::MAX,
                t.len() == n * n,
                reflexive_table(n as int, t),
                antisymmetric_table(n as int, t),
                lhs <= n,
                forall|a: int, m: int, b: int|
                    0 <= a < lhs && 0 <= m < n && 0 <= b < n && #[trigger] entry(t, n as int, a, m)
                        && #[trigger] entry(t, n as int, m, b) ==> entry(t, n as int, a, b),
            decreases n - lhs,
        {
            let mut middle: usize = 0;
            while middle < n
                invariant
                    n == size,
                    t == leq@,
                    n >= 2,
                    n * n <= usize::MAX,
                    t.len() == n * n,
                    reflexive_table(n as int, t),
                    antisymmetric_table(n as int, t),
                    lhs < n,
                    middle <= n,
                    forall|a: int, m: int, b: int|
                        0 <= a < lhs && 0 <= m < n && 0 <= b < n && #[trigger] entry(
                            t,
                            n as int,
                            a,
                            m,
                        ) && #[trigger] entry(t, n as int, m, b) ==> entry(t, n as int, a, b),
                    forall|m: int, b: int|
                        0 <= m < middle && 0 <= b < n && #[trigger] entry(
                            t,
                            n as int,
                            lhs as int,
                            m,
                        ) && #[trigger] entry(t, n as int, m, b) ==> entry(
                            t,
                            n as int,
                            lhs as int,
                            b,
                        ),
                decreases n - middle,
            {
                proof {
                    lemma_index(lhs as int, middle as int, n as int);
                }
                if leq[lhs * n + middle] {
                    let mut rhs: usize = 0;
                    while rhs < n
                        invariant
                            n == size,
                            t == leq@,
                            n >= 2,
                            n * n <= usize::MAX,
                            t.len() == n * n,
                            reflexive_table(n as int, t),
                            antisymmetric_table(n as int, t),
                            lhs < n,
                            middle < n,
                            rhs <= n,
                            entry(t, n as int, lhs as int, middle as int),
                            forall|b: int|
                                0 <= b < rhs && #[trigger] entry(t, n as int, middle as int, b)
                                    ==> entry(t, n as int, lhs as int, b),
                        decreases n - rhs,
                    {
                        proof {
                            lemma_index(middle as int, rhs as int, n as int);
                            lemma_index(lhs as int, rhs as int, n as int);
                        }
                        if leq[middle * n + rhs] && !leq[lhs * n + rhs] {
                            assert(entry(t, n as int, lhs as int, middle as int) && entry(
                                t,
                                n as int,
                                middle as int,
                                rhs as int,
                            ) && !entry(t, n as int, lhs as int, rhs as int));
                            assert(!transitive_table(n as int, t));
                            return Err(Error::NotTransitive);
                        }
                        rhs = rhs + 1;
                    }
                } else {
                    assert(!entry(t, n as int, lhs as int, middle as int));
                }
                middle = middle + 1;
            }
            lhs = lhs + 1;
        }
        assert(transitive_table(n as int, t));
        Ok(Self { size, leq })
    }


    /// Constructs a poset by evaluating a relation for every ordered pair.
    pub fn from_relation<R: FnMut(usize, usize) -> bool>(size: usize, mut relation: R) -> (r: Result<
        Self,
        Error,
    >)
        requires
            size * size <= usize::MAX,
            forall|a: usize, b: usize| a < size && b < size ==> call_requires(relation, (a, b)),
        ensures
            exists|t: Seq<bool>|
                {
                    &&& t.len() == size * size
                    &&& tabulates(relation, size as int, t)
                    &&& table_outcome(size as int, t, r)
                },
    {
        broadcast use vstd::function::group_function_axioms;

        let ghost initial = relation;
        let total = size * size;
        let mut leq: Vec<bool> = Vec::with_capacity(total);
        let mut index: usize = 0;
        while index < total
            invariant
                relation == initial,
                total == size * size,
                total <= usize::MAX,
                index <= total,
                leq@.len() == index,
                forall|a: usize, b: usize| a < size && b < size ==> call_requires(relation, (a, b)),
                forall|k: int|
                    0 <= k < index ==> call_ensures(
                        relation,
                        ((k / size as int) as usize, (k % size as int) as usize),
                        #[trigger] leq@[k],
                    ),
            decreases total - index,
        {
            proof {
                lemma_index_split(index as int, size as int);
            }
            let value = relation(index / size, index % size);
            leq.push(value);
            index = index + 1;
        }
        let ghost t = leq@;
        assert forall|a: int, b: int| 0 <= a < size && 0 <= b < size implies call_ensures(
            relation,
            (a as usize, b as usize),
            #[trigger] entry(t, size as int, a, b),
        ) by {
            lemma_index(a, b, size as int);
            assert(call_ensures(
                relation,
                (((a * size + b) / size as int) as usize, ((a * size + b) % size as int) as usize),
                leq@[a * size + b],
            ));
        }
        Self::new(size, leq)
    }

    /// Constructs the total order on `0..size`.
    pub fn chain(size: usize) -> (r: Result<Self, Error>)
        requires
            size * size <= usize::MAX,
        ensures
            match r {
                Ok(p) => {
                    &&& size >= 2
                    &&& p.wf()
                    &&& p.n() == size
                    &&& forall|a: int, b: int|
                        0 <= a < size && 0 <= b < size ==> #[trigger] p.rel(a, b) == (a <= b)
                },
                Err(e) => size < 2 && e == Error::PosetTooSmall,
            },
    {
        let relation = |lhs: usize, rhs: usize| -> (b: bool)
            ensures
                b == (lhs <= rhs),
            { lhs <= rhs };
        let r = Self::from_relation(size, relation);
        proof {
            let t = choose|t: Seq<bool>|
                {
                    &&& t.len() == size * size
                    &&& tabulates(relation, size as int, t)
                    &&& table_outcome(size as int, t, r)
                };
            assert forall|a: int, b: int| 0 <= a < size && 0 <= b < size implies #[trigger] entry(
                t,
                size as int,
                a,
                b,
            ) == (a <= b) by {
                assert(call_ensures(relation, (a as usize, b as usize), entry(t, size as int, a, b)));
            }
            if size >= 2 {
                assert(reflexive_table(size as int, t));
                assert(antisymmetric_table(size as int, t));
                assert(transitive_table(size as int, t));
            }
        }
        r
    }


    /// Constructs the Boolean subset lattice on bit masks of the requested width.
    pub fn boolean_lattice(bits: usize) -> (r: Result<Self, Error>)
        requires
            bits < usize::BITS ==> pow2(bits as nat) * pow2(bits as nat) <= usize::MAX,
        ensures
            match r {
                Ok(p) => {
                    &&& 0 < bits < usize::BITS
                    &&& p.wf()
                    &&& p.n() == pow2(bits as nat)
                    &&& forall|a: int, b: int|
                        0 <= a < p.n() && 0 <= b < p.n() ==> #[trigger] p.rel(a, b) == ((a as usize
                            & b as usize) == a as usize)
                },
                Err(e) => {
                    ||| bits == 0 && e == Error::ZeroDimension
                    ||| bits >= usize::BITS && e == Error::AlphabetTooLarge
                },
            },
    {
        if bits == 0 {
            return Err(Error::ZeroDimension);
        }
        let size = match checked_pow2(bits) {
            Some(size) => size,
            None => return Err(Error::AlphabetTooLarge),
        };
        let relation = |lhs: usize, rhs: usize| -> (b: bool)
            ensures
                b == ((lhs & rhs) == lhs),
            { lhs & rhs == lhs };
        let r = Self::from_relation(size, relation);
        proof {
            let t = choose|t: Seq<bool>|
                {
                    &&& t.len() == size * size
                    &&& tabulates(relation, size as int, t)
                    &&& table_outcome(size as int, t, r)
                };
            assert forall|a: int, b: int| 0 <= a < size && 0 <= b < size implies #[trigger] entry(
                t,
                size as int,
                a,
                b,
            ) == ((a as usize & b as usize) == a as usize) by {
                assert(call_ensures(relation, (a as usize, b as usize), entry(t, size as int, a, b)));
            }
            assert(pow2(1) == 2) by {
                lemma2_to64();
            }
            if bits > 1 {
                lemma_pow2_strictly_increases(1, bits as nat);
            }
            assert(reflexive_table(size as int, t)) by {
                assert forall|v: int| 0 <= v < size implies #[trigger] entry(t, size as int, v, v) by {
                    lemma_subset_order(v as usize, v as usize, v as usize);
                }
            }
            assert(antisymmetric_table(size as int, t)) by {
                assert forall|a: int, b: int|
                    0 <= a < size && 0 <= b < size && a != b implies !(#[trigger] entry(
                    t,
                    size as int,
                    a,
                    b,
                ) && #[trigger] entry(t, size as int, b, a)) by {
                    lemma_subset_order(a as usize, b as usize, b as usize);
                }
            }
            assert(transitive_table(size as int, t)) by {
                assert forall|a: int, m: int, b: int|
                    0 <= a < size && 0 <= m < size && 0 <= b < size && #[trigger] entry(
                        t,
                        size as int,
                        a,
                        m,
                    ) && #[trigger] entry(t, size as int, m, b) implies entry(
                    t,
                    size as int,
                    a,
                    b,
                ) by {
                    lemma_subset_order(a as usize, b as usize, m as usize);
                }
            }
        }
        r
    }

    /// In the divisibility order on the divisors of `modulus`, every two elements have a meet,
    /// their greatest common divisor, and a join, their least common multiple.
    pub proof fn lemma_divisor_bounds(&self, divisors: Seq<usize>, modulus: int)
        requires
            1 <= modulus <= usize::MAX,
            self.n() == divisors.len(),
            forall|x: usize| #[trigger] divisors.contains(x) <==> (1 <= x <= modulus && modulus % (x as int) == 0),
            forall|i: int, j: int|
                0 <= i < self.n() && 0 <= j < self.n() ==> #[trigger] self.rel(i, j) == ((divisors[j] as int)
                    % (divisors[i] as int) == 0),
        ensures
            forall|a: int, b: int| 0 <= a < self.n() && 0 <= b < self.n() ==> #[trigger] self.has_meet(a, b),
            forall|a: int, b: int| 0 <= a < self.n() && 0 <= b < self.n() ==> #[trigger] self.has_join(a, b),
    {
        let m = modulus;
        let d = divisors;
        assert forall|v: int| 0 <= v < d.len() implies #[trigger] d[v] >= 1 && m % (d[v] as int) == 0 by {
            assert(d.contains(d[v]));
        }
        assert forall|a: int, b: int| 0 <= a < self.n() && 0 <= b < self.n() implies #[trigger] self.has_meet(a, b) by {
            let x = d[a] as nat;
            let y = d[b] as nat;
            lemma_gcd(x, y);
            let g = gcd(x, y);
            lemma_divides_transitive(m, x as int, g as int);
            lemma_divisor_cofactor(m, g as int);
            assert(d.contains(g as usize));
            let k = choose|k: int| 0 <= k < d.len() && d[k] == g as usize;
            assert forall|z: int| 0 <= z < self.n() && #[trigger] self.rel(z, a) && self.rel(z, b) implies self.rel(z, k) by {
                assert(divides(d[z] as int, g as int));
            }
            assert(self.is_meet(k, a, b));
        }
        assert forall|a: int, b: int| 0 <= a < self.n() && 0 <= b < self.n() implies #[trigger] self.has_join(a, b) by {
            let x = d[a] as int;
            let y = d[b] as int;
            lemma_divisor_duality(m, x, y);
            let xx = (m / x) as nat;
            let yy = (m / y) as nat;
            lemma_divisor_cofactor(m, x);
            lemma_divisor_cofactor(m, y);
            lemma_mod_multiples_basic(x, xx as int);
            lemma_mul_is_commutative(x, xx as int);
            lemma_gcd(xx, yy);
            let h = gcd(xx, yy) as int;
            lemma_divides_transitive(m, xx as int, h);
            lemma_divisor_cofactor(m, h);
            let j = m / h;
            lemma_mod_multiples_basic(h, j);
            lemma_mul_is_commutative(h, j);
            lemma_divisor_cofactor(m, j);
            lemma_div_by_multiple(h, j);
            assert(m / j == h);
            assert(d.contains(j as usize));
            let k = choose|k: int| 0 <= k < d.len() && d[k] == j as usize;
            lemma_divisor_duality(m, x, j);
            lemma_divisor_duality(m, y, j);
            assert forall|z: int| 0 <= z < self.n() && #[trigger] self.rel(a, z) && self.rel(b, z) implies self.rel(k, z) by {
                let c = d[z] as int;
                lemma_divisor_duality(m, x, c);
                lemma_divisor_duality(m, y, c);
                lemma_divisor_duality(m, j, c);
                assert(divides(m / c, h));
            }
            assert(self.is_join(k, a, b));
        }
    }

    /// Constructs the divisibility lattice and its index-to-divisor mapping.
    pub fn divisor_lattice(modulus: usize) -> (r: Result<(Self, Vec<usize>), Error>)
        requires
            divisor_count(modulus as int) * divisor_count(modulus as int) <= usize::MAX,
        ensures
            match r {
                Ok((p, divisors)) => {
                    &&& modulus >= 2
                    &&& p.wf()
                    &&& p.n() == divisors.len()
                    &&& divisors.len() == divisor_count(modulus as int)
                    &&& forall|i: int, j: int|
                        0 <= i < j < divisors.len() ==> divisors@[i] < divisors@[j]
                    &&& forall|x: usize|
                        #[trigger] divisors@.contains(x) <==> (1 <= x <= modulus && modulus % x == 0)
                    &&& forall|i: int, j: int|
                        0 <= i < p.n() && 0 <= j < p.n() ==> #[trigger] p.rel(i, j) == ((
                        divisors@[j] as int) % (divisors@[i] as int) == 0)
                },
                Err(e) => modulus < 2 && e == Error::DivisorModulusTooSmall,
            },
    {
        if modulus < 2 {
            return Err(Error::DivisorModulusTooSmall);
        }
        let mut divisors: Vec<usize> = Vec::new();
        let mut candidate: usize = 1;
        assert(divisor_count_below(modulus as int, 0) == 0);
        assert(divisor_count_below(modulus as int, 1) == 0);
        while candidate < modulus
            invariant
                2 <= modulus,
                1 <= candidate <= modulus,
                divisors.len() < candidate,
                forall|i: int, j: int| 0 <= i < j < divisors.len() ==> divisors@[i] < divisors@[j],
                forall|i: int| 0 <= i < divisors.len() ==> 1 <= #[trigger] divisors@[i] < candidate,
                forall|x: usize|
                    #[trigger] divisors@.contains(x) <==> (1 <= x < candidate && modulus % x == 0),
                divisors.len() == divisor_count_below(modulus as int, candidate as int),
            decreases modulus - candidate,
        {
            if modulus % candidate == 0 {
                let ghost old_divisors = divisors@;
                divisors.push(candidate);
                proof {
                    assert forall|x: usize|
                        #[trigger] divisors@.contains(x) <==> (1 <= x < candidate + 1 && modulus % x
                            == 0) by {
                        if 1 <= x < candidate && modulus % x == 0 {
                            assert(old_divisors.contains(x));
                            let i = choose|i: int| 0 <= i < old_divisors.len() && old_divisors[i] == x;
                            assert(divisors@[i] == x);
                        }
                        if x == candidate {
                            assert(divisors@[divisors.len() - 1] == x);
                        }
                        if divisors@.contains(x) {
                            let i = choose|i: int| 0 <= i < divisors.len() && divisors@[i] == x;
                            if i < old_divisors.len() {
                                assert(old_divisors[i] == x);
                                assert(old_divisors.contains(x));
                            }
                        }
                    }
                }
            }
            candidate = candidate + 1;
        }
        let ghost before = divisors@;
        divisors.push(modulus);
        proof {
            lemma_mod_self_0(modulus as int);
            assert forall|x: usize|
                #[trigger] divisors@.contains(x) <==> (1 <= x <= modulus && modulus % x == 0) by {
                if 1 <= x < modulus && modulus % x == 0 {
                    assert(before.contains(x));
                    let i = choose|i: int| 0 <= i < before.len() && before[i] == x;
                    assert(divisors@[i] == x);
                }
                if x == modulus {
                    assert(divisors@[divisors.len() - 1] == x);
                }
                if divisors@.contains(x) {
                    let i = choose|i: int| 0 <= i < divisors.len() && divisors@[i] == x;
                    if i < before.len() {
                        assert(before[i] == x);
                        assert(before.contains(x));
                    }
                }
            }
            assert(divisor_count_below(modulus as int, modulus + 1) == divisor_count_below(modulus as int, modulus as int) + 1);
        }
        let ghost d = divisors@;
        proof {
            lemma_mod_self_0(modulus as int);
            assert((modulus as int) % 1 == 0);
            assert(d.contains(1usize));
            assert(d.contains(modulus));
            let i1 = choose|i: int| 0 <= i < d.len() && d[i] == 1;
            let im = choose|i: int| 0 <= i < d.len() && d[i] == modulus;
            assert(i1 != im);
        }
        let size = divisors.len();
        let r;
        {
            let relation = |lhs: usize, rhs: usize| -> (b: bool)
                requires
                    lhs < divisors.len(),
                    rhs < divisors.len(),
                    forall|i: int| 0 <= i < divisors.len() ==> 1 <= #[trigger] divisors@[i],
                ensures
                    b == ((divisors@[rhs as int] as int) % (divisors@[lhs as int] as int) == 0),
                { divisors[rhs] % divisors[lhs] == 0 };
            r = Self::from_relation(size, relation);
            proof {
                let t = choose|t: Seq<bool>|
                    {
                        &&& t.len() == size * size
                        &&& tabulates(relation, size as int, t)
                        &&& table_outcome(size as int, t, r)
                    };
                assert forall|a: int, b: int| 0 <= a < size && 0 <= b < size implies #[trigger] entry(
                    t,
                    size as int,
                    a,
                    b,
                ) == ((d[b] as int) % (d[a] as int) == 0) by {
                    assert(call_ensures(relation, (a as usize, b as usize), entry(t, size as int, a, b)));
                }
                assert(reflexive_table(size as int, t)) by {
                    assert forall|v: int| 0 <= v < size implies #[trigger] entry(t, size as int, v, v) by {
                        lemma_mod_self_0(d[v] as int);
                    }
                }
                assert(antisymmetric_table(size as int, t)) by {
                    assert forall|a: int, b: int|
                        0 <= a < size && 0 <= b < size && a != b implies !(#[trigger] entry(
                        t,
                        size as int,
                        a,
                        b,
                    ) && #[trigger] entry(t, size as int, b, a)) by {
                        if entry(t, size as int, a, b) && entry(t, size as int, b, a) {
                            lemma_divisor_le(d[a] as int, d[b] as int);
                            lemma_divisor_le(d[b] as int, d[a] as int);
                        }
                    }
                }
                assert(transitive_table(size as int, t)) by {
                    assert forall|a: int, m: int, b: int|
                        0 <= a < size && 0 <= m < size && 0 <= b < size && #[trigger] entry(
                            t,
                            size as int,
                            a,
                            m,
                        ) && #[trigger] entry(t, size as int, m, b) implies entry(
                        t,
                        size as int,
                        a,
                        b,
                    ) by {
                        lemma_divides_trans(d[a] as int, d[m] as int, d[b] as int);
                    }
                }
            }
        }
        match r {
            Ok(poset) => Ok((poset, divisors)),
            Err(e) => Err(e),
        }
    }


    /// Constructs the ancestor poset of a rooted tree: `a <= v` when `a` lies on the parent
    /// chain of `v`.
    pub fn rooted_tree(parents: &[Option<usize>]) -> (r: Result<Self, Error>)
        requires
            parents@.len() * parents@.len() <= usize::MAX,
        ensures
            match r {
                Ok(p) => {
                    &&& tree_error(parents@) is None
                    &&& p.wf()
                    &&& p.n() == parents@.len()
                    &&& forall|a: int, v: int|
                        0 <= a < p.n() && 0 <= v < p.n() ==> #[trigger] p.rel(a, v) == is_ancestor(
                            parents@,
                            a,
                            v,
                        )
                },
                Err(e) => tree_error(parents@) == Some(e),
            },
    {
        let ghost ps = parents@;
        let size = parents.len();
        if size < 2 {
            return Err(Error::TreeTooSmall);
        }
        let mut roots: Vec<usize> = Vec::new();
        let mut value: usize = 0;
        while value < size
            invariant
                ps == parents@,
                size == ps.len(),
                value <= size,
                forall|i: int, j: int| 0 <= i < j < roots.len() ==> roots@[i] < roots@[j],
                forall|u: usize| #[trigger] roots@.contains(u) <==> (u < value && ps[u as int] is None),
            decreases size - value,
        {
            if parents[value].is_none() {
                let ghost old_roots = roots@;
                roots.push(value);
                proof {
                    assert forall|u: usize| #[trigger] roots@.contains(u) <==> (u < value + 1
                        && ps[u as int] is None) by {
                        if u < value && ps[u as int] is None {
                            assert(old_roots.contains(u));
                            let i = choose|i: int| 0 <= i < old_roots.len() && old_roots[i] == u;
                            assert(roots@[i] == u);
                        }
                        if u == value {
                            assert(roots@[roots.len() - 1] == u);
                        }
                        if roots@.contains(u) {
                            let i = choose|i: int| 0 <= i < roots.len() && roots@[i] == u;
                            if i < old_roots.len() {
                                assert(old_roots[i] == u);
                                assert(old_roots.contains(u));
                            }
                        }
                    }
                    assert forall|i: int, j: int| 0 <= i < j < roots.len() implies roots@[i]
                        < roots@[j] by {
                        if j == roots.len() - 1 {
                            assert(old_roots.contains(roots@[i]));
                        }
                    }
                }
            }
            value = value + 1;
        }
        if roots.len() != 1 {
            proof {
                if unique_root(ps) {
                    let r0 = choose|r0: int|
                        {
                            &&& 0 <= r0 < ps.len()
                            &&& ps[r0] is None
                            &&& forall|v: int| 0 <= v < ps.len() && #[trigger] ps[v] is None ==> v == r0
                        };
                    assert(roots@.contains(r0 as usize));
                    if roots.len() >= 2 {
                        assert(roots@.contains(roots@[0]));
                        assert(roots@.contains(roots@[1]));
                        assert(ps[roots@[0] as int] is None);
                        assert(ps[roots@[1] as int] is None);
                    }
                }
            }
            return Err(Error::RootCount);
        }
        let root = roots[0];
        proof {
            assert(roots@.contains(root));
            assert forall|v: int| 0 <= v < ps.len() && #[trigger] ps[v] is None implies v == root by {
                assert(roots@.contains(v as usize));
                let i = choose|i: int| 0 <= i < roots.len() && roots@[i] == v as usize;
            }
            assert(unique_root(ps));
        }
        let mut value: usize = 0;
        while value < size
            invariant
                ps == parents@,
                size == ps.len(),
                size >= 2,
                value <= size,
                unique_root(ps),
                0 <= root < size,
                forall|v: int| 0 <= v < ps.len() && #[trigger] ps[v] is None ==> v == root,
                first_parent_error(ps, 0) == first_parent_error(ps, value as int),
                forall|u: int|
                    0 <= u < value ==> match #[trigger] ps[u] {
                        Some(p) => p < ps.len() && p != u,
                        None => true,
                    },
            decreases size - value,
        {
            if let Some(parent) = parents[value] {
                if parent >= size {
                    return Err(Error::ParentOutOfRange);
                }
                if parent == value {
                    return Err(Error::SelfParent);
                }
            }
            value = value + 1;
        }
        assert(parents_in_range(ps));
        assert(first_parent_error(ps, size as int) is None);
        let mut start: usize = 0;
        while start < size
            invariant
                ps == parents@,
                size == ps.len(),
                size >= 2,
                start <= size,
                parents_in_range(ps),
                0 <= root < size,
                forall|v: int| 0 <= v < ps.len() && #[trigger] ps[v] is None ==> v == root,
                unique_root(ps),
                first_parent_error(ps, 0) is None,
                forall|v: int| 0 <= v < start ==> #[trigger] reaches_root(ps, v),
            decreases size - start,
        {
            let mut seen: Vec<bool> = vec![false; size];
            let mut value = start;
            let ghost mut k: nat = 0;
            proof {
                assert forall|u: int| 0 <= u < size implies !#[trigger] seen@[u] by {}
                assert(count_true(seen@) == 0) by {
                    let s = seen@;
                    assert forall|m: int| 0 <= m <= s.len() implies count_true(#[trigger] s.take(m)) == 0 by {
                        lemma_zero_count(s, m);
                    }
                    assert(s.take(s.len() as int) =~= s);
                }
            }
            loop
                invariant_except_break
                    value == climb(ps, start as int, k),
                    value < size,
                    seen@.len() == size,
                    forall|u: int|
                        0 <= u < size ==> (#[trigger] seen@[u] <==> exists|i: nat|
                            i < k && #[trigger] climb(ps, start as int, i) == u),
                    forall|i: nat| i < k ==> #[trigger] ps[climb(ps, start as int, i)] is Some,
                    count_true(seen@) == k,
                invariant
                    ps == parents@,
                    size == ps.len(),
                    parents_in_range(ps),
                    start < size,
                    0 <= root < size,
                    forall|v: int| 0 <= v < ps.len() && #[trigger] ps[v] is None ==> v == root,
                    unique_root(ps),
                    first_parent_error(ps, 0) is None,
                ensures
                    reaches_root(ps, start as int),
                decreases size - k,
            {
                proof {
                    lemma_count_le(seen@);
                }
                if seen[value] {
                    proof {
                        let i = choose|i: nat| i < k && #[trigger] climb(ps, start as int, i) == value;
                        lemma_cycle_misses_root(ps, start as int, i, k);
                    }
                    return Err(Error::ParentCycle);
                }
                proof {
                    lemma_count_update(seen@, value as int);
                }
                let ghost old_seen = seen@;
                seen.set(value, true);
                proof {
                    lemma_count_le(seen@);
                    assert forall|u: int|
                        0 <= u < size implies (#[trigger] seen@[u] <==> exists|i: nat|
                        i < k + 1 && #[trigger] climb(ps, start as int, i) == u) by {
                        if seen@[u] && u != value {
                            assert(old_seen[u]);
                        }
                        if u == value {
                            assert(climb(ps, start as int, k) == u);
                        }
                        if exists|i: nat| i < k + 1 && #[trigger] climb(ps, start as int, i) == u {
                            let i = choose|i: nat| i < k + 1 && #[trigger] climb(ps, start as int, i) == u;
                            if i < k {
                                assert(old_seen[u]);
                            }
                        }
                    }
                }
                match parents[value] {
                    Some(parent) => {
                        proof {
                            assert(ps[value as int] matches Some(q) ==> q < size);
                        }
                        value = parent;
                        proof {
                            k = k + 1;
                            assert forall|i: nat| i < k implies #[trigger] ps[climb(ps, start as int, i)] is Some by {
                                if i == k - 1 {
                                    assert(ps[climb(ps, start as int, (k - 1) as nat)] is Some);
                                }
                            }
                        }
                    },
                    None => {
                        if value != root {
                            return Err(Error::RootUnreachable);
                        }
                        proof {
                            assert(ps[climb(ps, start as int, k)] is None);
                            assert(reaches_root(ps, start as int));
                        }
                        break ;
                    },
                }
            }
            start = start + 1;
        }
        proof {
            assert(first_parent_error(ps, size as int) is None);
        }
        let r;
        {
            let relation = |ancestor: usize, value: usize| -> (b: bool)
                requires
                    value < parents@.len(),
                    parents_in_range(parents@),
                    forall|v: int| 0 <= v < parents@.len() ==> #[trigger] reaches_root(parents@, v),
                ensures
                    b == is_ancestor(parents@, ancestor as int, value as int),
                { ancestor_of(parents, ancestor, value) };
            r = Self::from_relation(size, relation);
            proof {
                let t = choose|t: Seq<bool>|
                    {
                        &&& t.len() == size * size
                        &&& tabulates(relation, size as int, t)
                        &&& table_outcome(size as int, t, r)
                    };
                assert forall|a: int, b: int| 0 <= a < size && 0 <= b < size implies #[trigger] entry(
                    t,
                    size as int,
                    a,
                    b,
                ) == is_ancestor(ps, a, b) by {
                    assert(call_ensures(relation, (a as usize, b as usize), entry(t, size as int, a, b)));
                }
                assert(reflexive_table(size as int, t)) by {
                    assert forall|v: int| 0 <= v < size implies #[trigger] entry(t, size as int, v, v) by {
                        assert(climb(ps, v, 0) == v);
                    }
                }
                assert(antisymmetric_table(size as int, t)) by {
                    assert forall|a: int, b: int|
                        0 <= a < size && 0 <= b < size && a != b implies !(#[trigger] entry(
                        t,
                        size as int,
                        a,
                        b,
                    ) && #[trigger] entry(t, size as int, b, a)) by {
                        if entry(t, size as int, a, b) && entry(t, size as int, b, a) {
                            let k1 = choose|k: nat| #[trigger] climb(ps, b, k) == a;
                            let k2 = choose|k: nat| #[trigger] climb(ps, a, k) == b;
                            lemma_climb_add(ps, b, k1, k2);
                            assert(k1 > 0);
                            assert(reaches_root(ps, b));
                            lemma_loop_is_root(ps, b, k1 + k2);
                            lemma_climb_stays(ps, b, 0, k1);
                        }
                    }
                }
                assert(transitive_table(size as int, t)) by {
                    assert forall|a: int, m: int, b: int|
                        0 <= a < size && 0 <= m < size && 0 <= b < size && #[trigger] entry(
                            t,
                            size as int,
                            a,
                            m,
                        ) && #[trigger] entry(t, size as int, m, b) implies entry(
                        t,
                        size as int,
                        a,
                        b,
                    ) by {
                        let k1 = choose|k: nat| #[trigger] climb(ps, m, k) == a;
                        let k2 = choose|k: nat| #[trigger] climb(ps, b, k) == m;
                        lemma_climb_add(ps, b, k2, k1);
                        assert(climb(ps, b, k2 + k1) == a);
                    }
                }
            }
        }
        r
    }

    /// `b` is below every element.
    pub open spec fn is_bottom(&self, b: int) -> bool {
        0 <= b < self.n() && forall|v: int| 0 <= v < self.n() ==> #[trigger] self.rel(b, v)
    }

    /// `t` is above every element.
    pub open spec fn is_top(&self, t: int) -> bool {
        0 <= t < self.n() && forall|v: int| 0 <= v < self.n() ==> #[trigger] self.rel(v, t)
    }

    /// `m` is the greatest lower bound of `a` and `b`.
    pub open spec fn is_meet(&self, m: int, a: int, b: int) -> bool {
        &&& 0 <= m < self.n()
        &&& self.rel(m, a)
        &&& self.rel(m, b)
        &&& forall|z: int| 0 <= z < self.n() && #[trigger] self.rel(z, a) && self.rel(z, b) ==> self.rel(z, m)
    }

    /// `j` is the least upper bound of `a` and `b`.
    pub open spec fn is_join(&self, j: int, a: int, b: int) -> bool {
        &&& 0 <= j < self.n()
        &&& self.rel(a, j)
        &&& self.rel(b, j)
        &&& forall|z: int| 0 <= z < self.n() && #[trigger] self.rel(a, z) && self.rel(b, z) ==> self.rel(j, z)
    }

    /// A pair has at most one meet.
    pub proof fn lemma_meet_unique(&self, m1: int, m2: int, a: int, b: int)
        requires
            self.wf(),
            self.is_meet(m1, a, b),
            self.is_meet(m2, a, b),
        ensures
            m1 == m2,
    {
        self.lemma_partial_order();
        assert(self.rel(m1, m2));
        assert(self.rel(m2, m1));
    }

    /// A pair has at most one join.
    pub proof fn lemma_join_unique(&self, j1: int, j2: int, a: int, b: int)
        requires
            self.wf(),
            self.is_join(j1, a, b),
            self.is_join(j2, a, b),
        ensures
            j1 == j2,
    {
        self.lemma_partial_order();
        assert(self.rel(j1, j2));
        assert(self.rel(j2, j1));
    }

    /// Returns the unique bottom element when one exists.
    pub fn bottom(&self) -> (r: Option<usize>)
        requires
            self.wf(),
        ensures
            match r {
                Some(b) => self.is_bottom(b as int),
                None => forall|b: int| !#[trigger] self.is_bottom(b),
            },
    {
        let mut candidate: usize = 0;
        while candidate < self.size
            invariant
                self.wf(),
                candidate <= self.n(),
                forall|b: int| 0 <= b < candidate ==> !#[trigger] self.is_bottom(b),
            decreases self.size - candidate,
        {
            let mut all = true;
            let mut value: usize = 0;
            while value < self.size
                invariant
                    self.wf(),
                    candidate < self.n(),
                    value <= self.n(),
                    all == forall|v: int| 0 <= v < value ==> #[trigger] self.rel(candidate as int, v),
                decreases self.size - value,
            {
                if !self.leq(candidate, value) {
                    all = false;
                }
                value = value + 1;
            }
            if all {
                return Some(candidate);
            }
            candidate = candidate + 1;
        }
        None
    }

    /// Returns the unique top element when one exists.
    pub fn top(&self) -> (r: Option<usize>)
        requires
            self.wf(),
        ensures
            match r {
                Some(t) => self.is_top(t as int),
                None => forall|t: int| !#[trigger] self.is_top(t),
            },
    {
        let mut candidate: usize = 0;
        while candidate < self.size
            invariant
                self.wf(),
                candidate <= self.n(),
                forall|t: int| 0 <= t < candidate ==> !#[trigger] self.is_top(t),
            decreases self.size - candidate,
        {
            let mut all = true;
            let mut value: usize = 0;
            while value < self.size
                invariant
                    self.wf(),
                    candidate < self.n(),
                    value <= self.n(),
                    all == forall|v: int| 0 <= v < value ==> #[trigger] self.rel(v, candidate as int),
                decreases self.size - value,
            {
                if !self.leq(value, candidate) {
                    all = false;
                }
                value = value + 1;
            }
            if all {
                return Some(candidate);
            }
            candidate = candidate + 1;
        }
        None
    }

    /// `m` is the meet (when `meet`) or the join (otherwise) of `a` and `b`.
    pub open spec fn is_bound(&self, meet: bool, m: int, a: int, b: int) -> bool {
        if meet {
            self.is_meet(m, a, b)
        } else {
            self.is_join(m, a, b)
        }
    }

    /// `a` and `b` have a meet.
    pub open spec fn has_meet(&self, a: int, b: int) -> bool {
        exists|m: int| #[trigger] self.is_meet(m, a, b)
    }

    /// `a` and `b` have a join.
    pub open spec fn has_join(&self, a: int, b: int) -> bool {
        exists|j: int| #[trigger] self.is_join(j, a, b)
    }

    /// `a` and `b` have a meet (when `meet`) or a join (otherwise).
    pub open spec fn has_bound(&self, meet: bool, a: int, b: int) -> bool {
        exists|m: int| #[trigger] self.is_bound(meet, m, a, b)
    }

    /// `z` is a lower (when `meet`) or upper (otherwise) bound of `a` and `b`.
    pub open spec fn is_side(&self, meet: bool, z: int, a: int, b: int) -> bool {
        if meet {
            self.rel(z, a) && self.rel(z, b)
        } else {
            self.rel(a, z) && self.rel(b, z)
        }
    }

    /// `z` is below `c` (when `meet`) or above it (otherwise).
    pub open spec fn beyond(&self, meet: bool, z: int, c: int) -> bool {
        if meet {
            self.rel(z, c)
        } else {
            self.rel(c, z)
        }
    }

    fn bound_table(&self, meet: bool) -> (r: Result<Vec<usize>, Error>)
        requires
            self.wf(),
        ensures
            match r {
                Ok(t) => {
                    &&& t@.len() == self.n() * self.n()
                    &&& forall|a: int, b: int|
                        0 <= a < self.n() && 0 <= b < self.n() ==> self.is_bound(
                            meet,
                            #[trigger] cell(t@, self.n() as int, a, b) as int,
                            a,
                            b,
                        )
                },
                Err(e) => {
                    &&& e == (if meet {
                        Error::NoMeet
                    } else {
                        Error::NoJoin
                    })
                    &&& exists|a: int, b: int|
                        0 <= a < self.n() && 0 <= b < self.n() && !#[trigger] self.has_bound(meet, a, b)
                },
            },
    {
        let n = self.size;
        proof {
            self.lemma_partial_order();
        }
        let mut table: Vec<usize> = Vec::with_capacity(n * n);
        let mut lhs: usize = 0;
        while lhs < n
            invariant
                self.wf(),
                n == self.n(),
                n * n <= usize::MAX,
                lhs <= n,
                table@.len() == lhs * n,
                forall|a: int, b: int|
                    0 <= a < lhs && 0 <= b < n ==> self.is_bound(
                        meet,
                        #[trigger] cell(table@, n as int, a, b) as int,
                        a,
                        b,
                    ),
            decreases n - lhs,
        {
            let mut rhs: usize = 0;
            while rhs < n
                invariant
                    self.wf(),
                    n == self.n(),
                    n * n <= usize::MAX,
                    lhs < n,
                    rhs <= n,
                    table@.len() == lhs * n + rhs,
                    forall|a: int, b: int|
                        0 <= a < lhs && 0 <= b < n ==> self.is_bound(
                            meet,
                            #[trigger] cell(table@, n as int, a, b) as int,
                            a,
                            b,
                        ),
                    forall|b: int|
                        0 <= b < rhs ==> self.is_bound(
                            meet,
                            #[trigger] cell(table@, n as int, lhs as int, b) as int,
                            lhs as int,
                            b,
                        ),
                decreases n - rhs,
            {
                let mut candidates: Vec<usize> = Vec::new();
                let mut value: usize = 0;
                while value < n
                    invariant
                        self.wf(),
                        n == self.n(),
                        lhs < n,
                        rhs < n,
                        value <= n,
                        forall|i: int| 0 <= i < candidates.len() ==> #[trigger] candidates@[i] < value,
                        forall|z: usize| #[trigger] candidates@.contains(z) <==> (z < value && self.is_side(meet, z as int, lhs as int, rhs as int)),
                    decreases n - value,
                {
                    let side = if meet {
                        self.leq(value, lhs) && self.leq(value, rhs)
                    } else {
                        self.leq(lhs, value) && self.leq(rhs, value)
                    };
                    if side {
                        let ghost old_c = candidates@;
                        candidates.push(value);
                        proof {
                            assert forall|z: usize| #[trigger] candidates@.contains(z) <==> (z < value + 1 && self.is_side(meet, z as int, lhs as int, rhs as int)) by {
                                if z < value && self.is_side(meet, z as int, lhs as int, rhs as int) {
                                    assert(old_c.contains(z));
                                    let i = choose|i: int| 0 <= i < old_c.len() && old_c[i] == z;
                                    assert(candidates@[i] == z);
                                }
                                if z == value {
                                    assert(candidates@[candidates.len() - 1] == z);
                                }
                                if candidates@.contains(z) {
                                    let i = choose|i: int| 0 <= i < candidates.len() && candidates@[i] == z;
                                    if i < old_c.len() {
                                        assert(old_c[i] == z);
                                        assert(old_c.contains(z));
                                    }
                                }
                            }
                        }
                    }
                    value = value + 1;
                }
                let mut found: Option<usize> = None;
                let mut index: usize = 0;
                while index < candidates.len()
                    invariant
                        self.wf(),
                        n == self.n(),
                        lhs < n,
                        rhs < n,
                        index <= candidates.len(),
                        forall|i: int| 0 <= i < candidates.len() ==> #[trigger] candidates@[i] < n,
                        forall|z: usize| #[trigger] candidates@.contains(z) <==> (z < n && self.is_side(meet, z as int, lhs as int, rhs as int)),
                        match found {
                            Some(c) => self.is_bound(meet, c as int, lhs as int, rhs as int),
                            None => forall|i: int| 0 <= i < index ==> !self.is_bound(meet, #[trigger] candidates@[i] as int, lhs as int, rhs as int),
                        },
                    decreases candidates.len() - index,
                {
                    if found.is_none() {
                        let candidate = candidates[index];
                        let mut all = true;
                        let mut other: usize = 0;
                        while other < candidates.len()
                            invariant
                                self.wf(),
                                n == self.n(),
                                candidate < n,
                                other <= candidates.len(),
                                forall|i: int| 0 <= i < candidates.len() ==> #[trigger] candidates@[i] < n,
                                all == forall|i: int| 0 <= i < other ==> self.beyond(meet, #[trigger] candidates@[i] as int, candidate as int),
                            decreases candidates.len() - other,
                        {
                            let below = if meet {
                                self.leq(candidates[other], candidate)
                            } else {
                                self.leq(candidate, candidates[other])
                            };
                            if !below {
                                all = false;
                            }
                            other = other + 1;
                        }
                        proof {
                            assert(candidates@.contains(candidate));
                            if all {
                                assert forall|z: int| 0 <= z < self.n() && #[trigger] self.is_side(meet, z, lhs as int, rhs as int) implies self.beyond(meet, z, candidate as int) by {
                                    assert(candidates@.contains(z as usize));
                                    let i = choose|i: int| 0 <= i < candidates.len() && candidates@[i] == z as usize;
                                }
                                assert(self.is_side(meet, candidate as int, lhs as int, rhs as int));
                                if meet {
                                    assert forall|z: int| 0 <= z < self.n() && #[trigger] self.rel(z, lhs as int) && self.rel(z, rhs as int) implies self.rel(z, candidate as int) by {
                                        assert(self.is_side(meet, z, lhs as int, rhs as int));
                                    }
                                } else {
                                    assert forall|z: int| 0 <= z < self.n() && #[trigger] self.rel(lhs as int, z) && self.rel(rhs as int, z) implies self.rel(candidate as int, z) by {
                                        assert(self.is_side(meet, z, lhs as int, rhs as int));
                                    }
                                }
                                assert(self.is_bound(meet, candidate as int, lhs as int, rhs as int));
                            } else {
                                let i = choose|i: int| 0 <= i < candidates.len() && !self.beyond(meet, #[trigger] candidates@[i] as int, candidate as int);
                                assert(candidates@.contains(candidates@[i]));
                            }
                        }
                        if all {
                            found = Some(candidate);
                        }
                    }
                    index = index + 1;
                }
                match found {
                    Some(bound) => {
                        proof {
                            lemma_index(lhs as int, rhs as int, n as int);
                            assert(table@.len() == lhs * n + rhs);
                        }
                        let ghost old_t = table@;
                        table.push(bound);
                        proof {
                            assert forall|a: int, b: int|
                                0 <= a < lhs && 0 <= b < n implies self.is_bound(
                                    meet,
                                    #[trigger] cell(table@, n as int, a, b) as int,
                                    a,
                                    b,
                                ) by {
                                lemma_index(a, b, n as int);
                                assert(a * n + b < lhs * n) by (nonlinear_arith)
                                    requires
                                        0 <= a < lhs,
                                        0 <= b < n,
                                ;
                                assert(cell(table@, n as int, a, b) == cell(old_t, n as int, a, b));
                            }
                            assert forall|b: int|
                                0 <= b < rhs + 1 implies self.is_bound(
                                    meet,
                                    #[trigger] cell(table@, n as int, lhs as int, b) as int,
                                    lhs as int,
                                    b,
                                ) by {
                                if b < rhs {
                                    assert(cell(table@, n as int, lhs as int, b) == cell(old_t, n as int, lhs as int, b));
                                }
                            }
                        }
                    },
                    None => {
                        proof {
                            assert forall|m: int| !#[trigger] self.is_bound(meet, m, lhs as int, rhs as int) by {
                                if self.is_bound(meet, m, lhs as int, rhs as int) {
                                    assert(self.rel(m, m));
                                    assert(candidates@.contains(m as usize));
                                    let i = choose|i: int| 0 <= i < candidates.len() && candidates@[i] == m as usize;
                                }
                            }
                            assert(!self.has_bound(meet, lhs as int, rhs as int));
                        }
                        return Err(if meet { Error::NoMeet } else { Error::NoJoin });
                    },
                }
                rhs = rhs + 1;
            }
            proof {
                assert((lhs + 1) * n == lhs * n + n) by (nonlinear_arith);
            }
            lhs = lhs + 1;
        }
        proof {
            assert(n * n == lhs * n);
        }
        Ok(table)
    }

    /// Computes the row-major binary meet table when all meets exist.
    pub fn meet_table(&self) -> (r: Result<Vec<usize>, Error>)
        requires
            self.wf(),
        ensures
            match r {
                Ok(t) => {
                    &&& t@.len() == self.n() * self.n()
                    &&& forall|a: int, b: int|
                        0 <= a < self.n() && 0 <= b < self.n() ==> self.is_meet(
                            #[trigger] cell(t@, self.n() as int, a, b) as int,
                            a,
                            b,
                        )
                },
                Err(e) => {
                    &&& e == Error::NoMeet
                    &&& exists|a: int, b: int|
                        0 <= a < self.n() && 0 <= b < self.n() && !#[trigger] self.has_meet(a, b)
                },
            },
    {
        let r = self.bound_table(true);
        proof {
            if let Err(e) = r {
                let (a, b) = choose|a: int, b: int|
                    0 <= a < self.n() && 0 <= b < self.n() && !#[trigger] self.has_bound(true, a, b);
                assert forall|m: int| !#[trigger] self.is_meet(m, a, b) by {
                    assert(!self.is_bound(true, m, a, b));
                }
                assert(!self.has_meet(a, b));
            }
        }
        r
    }

    /// Computes the row-major binary join table when all joins exist.
    pub fn join_table(&self) -> (r: Result<Vec<usize>, Error>)
        requires
            self.wf(),
        ensures
            match r {
                Ok(t) => {
                    &&& t@.len() == self.n() * self.n()
                    &&& forall|a: int, b: int|
                        0 <= a < self.n() && 0 <= b < self.n() ==> self.is_join(
                            #[trigger] cell(t@, self.n() as int, a, b) as int,
                            a,
                            b,
                        )
                },
                Err(e) => {
                    &&& e == Error::NoJoin
                    &&& exists|a: int, b: int|
                        0 <= a < self.n() && 0 <= b < self.n() && !#[trigger] self.has_join(a, b)
                },
            },
    {
        let r = self.bound_table(false);
        proof {
            if let Err(e) = r {
                let (a, b) = choose|a: int, b: int|
                    0 <= a < self.n() && 0 <= b < self.n() && !#[trigger] self.has_bound(false, a, b);
                assert forall|m: int| !#[trigger] self.is_join(m, a, b) by {
                    assert(!self.is_bound(false, m, a, b));
                }
                assert(!self.has_join(a, b));
            }
        }
        r
    }

    /// Number of remaining elements below `x`.
    spec fn remaining_below(&self, remaining: Seq<bool>, x: int) -> nat {
        count_below(|z: int| remaining[z] && self.rel(z, x), self.n() as int)
    }

    proof fn lemma_argmin(&self, remaining: Seq<bool>, k: int) -> (x: int)
        requires
            0 < k <= self.n(),
            remaining.len() == self.n(),
            exists|r: int| 0 <= r < k && remaining[r],
        ensures
            0 <= x < k,
            remaining[x],
            forall|y: int|
                0 <= y < k && remaining[y] ==> self.remaining_below(remaining, x)
                    <= #[trigger] self.remaining_below(remaining, y),
        decreases k,
    {
        if exists|r: int| 0 <= r < k - 1 && remaining[r] {
            let x0 = self.lemma_argmin(remaining, k - 1);
            if remaining[k - 1] && self.remaining_below(remaining, k - 1) < self.remaining_below(
                remaining,
                x0,
            ) {
                k - 1
            } else {
                x0
            }
        } else {
            k - 1
        }
    }

    /// Some remaining element has no other remaining element below it.
    proof fn lemma_minimal_exists(&self, remaining: Seq<bool>)
        requires
            self.wf(),
            remaining.len() == self.n(),
            exists|r: int| 0 <= r < self.n() && remaining[r],
        ensures
            exists|c: int|
                0 <= c < self.n() && remaining[c] && forall|q: int|
                    0 <= q < self.n() && remaining[q] && q != c ==> !#[trigger] self.rel(q, c),
    {
        self.lemma_partial_order();
        let n = self.n() as int;
        let c = self.lemma_argmin(remaining, n);
        assert forall|q: int| 0 <= q < n && remaining[q] && q != c implies !#[trigger] self.rel(q, c) by {
            if self.rel(q, c) {
                let f = |z: int| remaining[z] && self.rel(z, q);
                let g = |z: int| remaining[z] && self.rel(z, c);
                assert forall|z: int| 0 <= z < n && #[trigger] f(z) implies g(z) by {}
                assert(g(c));
                assert(!f(c));
                lemma_count_below_strict(f, g, n, c);
                assert(self.remaining_below(remaining, q) < self.remaining_below(remaining, c));
            }
        }
    }

    /// `order` lists every element once, never after an element above it.
    pub open spec fn is_linear_extension(&self, order: Seq<usize>) -> bool {
        &&& order.len() == self.n()
        &&& forall|i: int| 0 <= i < order.len() ==> #[trigger] order[i] < self.n()
        &&& forall|i: int, j: int| 0 <= i < j < order.len() ==> order[i] != order[j]
        &&& forall|v: usize| v < self.n() ==> #[trigger] order.contains(v)
        &&& forall|i: int, j: int|
            0 <= i < j < order.len() ==> !#[trigger] self.rel(order[j] as int, order[i] as int)
    }

    /// `c` is not listed yet, and every element strictly below it is.
    pub open spec fn ready(&self, listed: Seq<usize>, c: int) -> bool {
        &&& 0 <= c < self.n()
        &&& !listed.contains(c as usize)
        &&& forall|q: int| 0 <= q < self.n() && q != c && #[trigger] self.rel(q, c) ==> listed.contains(q as usize)
    }

    /// Each entry of `order` is the least element that is ready after the entries before it.
    pub open spec fn picks_least_ready(&self, order: Seq<usize>) -> bool {
        forall|k: int|
            0 <= k < order.len() ==> #[trigger] self.ready(order.take(k), order[k] as int) && forall|c: int|
                0 <= c < order[k] ==> !self.ready(order.take(k), c)
    }

    /// Lists the elements by repeatedly taking the least one whose strict predecessors are all
    /// listed already.
    #[verifier::spinoff_prover]
    fn linear_extension(&self) -> (r: Result<Vec<usize>, Error>)
        requires
            self.wf(),
        ensures
            r matches Ok(order) && self.is_linear_extension(order@) && self.picks_least_ready(order@),
    {
        let n = self.size;
        let mut remaining = vec![true; n];
        let mut order: Vec<usize> = Vec::with_capacity(n);
        proof {
            assert forall|m: int| 0 <= m <= n implies count_true(#[trigger] remaining@.take(m)) == m by {
                lemma_all_true_count(remaining@, m);
            }
            assert(remaining@.take(n as int) =~= remaining@);
        }
        while order.len() != n
            invariant
                self.wf(),
                n == self.n(),
                remaining@.len() == n,
                order@.len() <= n,
                count_true(remaining@) + order@.len() == n,
                forall|i: int| 0 <= i < order.len() ==> #[trigger] order@[i] < n,
                forall|v: usize| v < n ==> (#[trigger] remaining@[v as int] <==> !order@.contains(v)),
                forall|i: int, j: int| 0 <= i < j < order.len() ==> order@[i] != order@[j],
                forall|i: int, j: int|
                    0 <= i < j < order.len() ==> !#[trigger] self.rel(order@[j] as int, order@[i] as int),
                forall|i: int, y: int|
                    0 <= i < order.len() && 0 <= y < n && remaining@[y] ==> !#[trigger] self.rel(y, order@[i] as int),
                self.picks_least_ready(order@),
            decreases n - order.len(),
        {
            proof {
                if forall|v: int| 0 <= v < n ==> !remaining@[v] {
                    assert(count_true(remaining@) == 0) by {
                        assert forall|m: int| 0 <= m <= n implies count_true(#[trigger] remaining@.take(m)) == 0 by {
                            lemma_zero_count(remaining@, m);
                        }
                        assert(remaining@.take(n as int) =~= remaining@);
                    }
                }
                self.lemma_minimal_exists(remaining@);
            }
            let mut next: Option<usize> = None;
            let mut candidate: usize = 0;
            while candidate < n && next.is_none()
                invariant
                    self.wf(),
                    n == self.n(),
                    remaining@.len() == n,
                    candidate <= n,
                    exists|c: int|
                        0 <= c < n && remaining@[c] && forall|q: int|
                            0 <= q < n && remaining@[q] && q != c ==> !#[trigger] self.rel(q, c),
                    match next {
                        Some(c) => c < n && remaining@[c as int] && (forall|q: int|
                            0 <= q < n && remaining@[q] && q != c ==> !#[trigger] self.rel(q, c as int)) && forall|c2: int|
                            0 <= c2 < c ==> !(remaining@[c2] && forall|q: int|
                                0 <= q < n && remaining@[q] && q != c2 ==> !#[trigger] self.rel(q, c2)),
                        None => forall|c: int|
                            0 <= c < candidate ==> !(remaining@[c] && forall|q: int|
                                0 <= q < n && remaining@[q] && q != c ==> !#[trigger] self.rel(q, c)),
                    },
                decreases n - candidate,
            {
                if remaining[candidate] {
                    let mut minimal = true;
                    let mut predecessor: usize = 0;
                    while predecessor < n
                        invariant
                            self.wf(),
                            n == self.n(),
                            remaining@.len() == n,
                            candidate < n,
                            predecessor <= n,
                            minimal == forall|q: int|
                                0 <= q < predecessor && remaining@[q] && q != candidate ==> !#[trigger] self.rel(q, candidate as int),
                        decreases n - predecessor,
                    {
                        if remaining[predecessor] && predecessor != candidate && self.leq(predecessor, candidate) {
                            minimal = false;
                        }
                        predecessor = predecessor + 1;
                    }
                    if minimal {
                        next = Some(candidate);
                    }
                }
                candidate = candidate + 1;
            }
            let next = match next {
                Some(next) => next,
                None => {
                    return Err(Error::PosetTooSmall);
                },
            };
            let ghost old_order = order@;
            let ghost old_remaining = remaining@;
            proof {
                lemma_count_clear(remaining@, next as int);
            }
            remaining.set(next, false);
            order.push(next);
            proof {
                assert(!old_order.contains(next));
                assert forall|v: usize| v < n implies (#[trigger] remaining@[v as int] <==> !order@.contains(v)) by {
                    if v != next {
                        if order@.contains(v) {
                            let i = choose|i: int| 0 <= i < order.len() && order@[i] == v;
                            assert(old_order[i] == v);
                            assert(old_order.contains(v));
                        }
                        if old_order.contains(v) {
                            let i = choose|i: int| 0 <= i < old_order.len() && old_order[i] == v;
                            assert(order@[i] == v);
                        }
                    } else {
                        assert(order@[order.len() - 1] == v);
                    }
                }
                assert forall|i: int, j: int| 0 <= i < j < order.len() implies order@[i] != order@[j] by {
                    if j == order.len() - 1 && order@[i] == next {
                        assert(old_order[i] == next);
                        assert(old_order.contains(next));
                    }
                }
                assert forall|i: int, j: int|
                    0 <= i < j < order.len() implies !#[trigger] self.rel(order@[j] as int, order@[i] as int) by {
                    if j == order.len() - 1 {
                        assert(old_remaining[next as int]);
                    }
                }
                let kk = old_order.len() as int;
                assert(order@.take(kk) =~= old_order);
                assert(self.ready(old_order, next as int)) by {
                    assert forall|q: int| 0 <= q < n && q != next && #[trigger] self.rel(q, next as int) implies old_order.contains(q as usize) by {
                        assert(!old_remaining[q]);
                    }
                }
                assert forall|c: int| 0 <= c < next implies !self.ready(old_order, c) by {
                    if self.ready(old_order, c) {
                        assert(old_remaining[c]);
                        assert forall|q: int| 0 <= q < n && old_remaining[q] && q != c implies !#[trigger] self.rel(q, c) by {
                            if self.rel(q, c) {
                                assert(old_order.contains(q as usize));
                            }
                        }
                    }
                }
                assert forall|k: int| 0 <= k < order.len() implies #[trigger] self.ready(order@.take(k), order@[k] as int) && forall|c: int|
                    0 <= c < order@[k] ==> !self.ready(order@.take(k), c) by {
                    if k < kk {
                        assert(order@.take(k) =~= old_order.take(k));
                        assert(order@[k] == old_order[k]);
                    }
                }
            }
        }
        proof {
            assert forall|v: usize| v < n implies #[trigger] order@.contains(v) by {
                if !order@.contains(v) {
                    assert(remaining@[v as int]);
                    lemma_count_positive(remaining@, v as int);
                }
            }
        }
        Ok(order)
    }

    /// Entry `(x, z)` of `m` when `x <= z <= y` and `z != y`, and zero otherwise.
    pub open spec fn mobius_term(&self, m: Seq<i128>, x: int, y: int, z: int) -> int {
        if self.rel(x, z) && self.rel(z, y) && z != y {
            cell(m, self.n() as int, x, z) as int
        } else {
            0
        }
    }

    /// Sum of row `x` of `m` over the elements `z` with `x <= z <= y` and `z != y`.
    pub open spec fn mobius_sum(&self, m: Seq<i128>, x: int, y: int) -> int {
        range_sum(|z: int| self.mobius_term(m, x, y, z), self.n() as int)
    }

    /// The value that the Möbius recursion gives entry `(x, y)` from the entries of row `x`:
    /// one on the diagonal, zero off the order, and minus the sum over the interval below `y`.
    pub open spec fn mobius_entry(&self, m: Seq<i128>, x: int, y: int) -> int {
        if x == y {
            1
        } else if self.rel(x, y) {
            -self.mobius_sum(m, x, y)
        } else {
            0
        }
    }

    /// `m` is the row-major Möbius function of the poset.
    pub open spec fn is_mobius(&self, m: Seq<i128>) -> bool {
        &&& m.len() == self.n() * self.n()
        &&& forall|x: int, y: int|
            0 <= x < self.n() && 0 <= y < self.n() ==> #[trigger] cell(m, self.n() as int, x, y) as int
                == self.mobius_entry(m, x, y)
    }

    /// Entry `(x, z)` of `m` when `x <= z <= y`, and zero otherwise.
    pub open spec fn interval_term(&self, m: Seq<i128>, x: int, y: int, z: int) -> int {
        if self.rel(x, z) && self.rel(z, y) {
            cell(m, self.n() as int, x, z) as int
        } else {
            0
        }
    }

    /// Row `x` of the Möbius function sums to one over the interval from `x` to `x`, and to
    /// zero over every other interval that starts at `x`.
    pub proof fn lemma_mobius_row(&self, m: Seq<i128>, x: int, y: int)
        requires
            self.wf(),
            self.is_mobius(m),
            0 <= x < self.n(),
            0 <= y < self.n(),
        ensures
            range_sum(|z: int| self.interval_term(m, x, y, z), self.n() as int) == (if x == y {
                1int
            } else {
                0int
            }),
    {
        self.lemma_partial_order();
        let n = self.n() as int;
        let t = |z: int| self.interval_term(m, x, y, z);
        let zero = |z: int| 0int;
        lemma_range_sum_zero(n);
        if !self.rel(x, y) {
            assert forall|z: int| 0 <= z < n implies #[trigger] t(z) == zero(z) by {
                if self.rel(x, z) && self.rel(z, y) {
                    assert(self.rel(x, y));
                }
            }
            lemma_range_sum_ext(t, zero, n);
        } else if x == y {
            assert forall|z: int| 0 <= z < n && z != x implies #[trigger] t(z) == zero(z) by {
                if self.rel(x, z) && self.rel(z, y) {
                    assert(z == x);
                }
            }
            lemma_range_sum_point(t, zero, n, x);
            assert(cell(m, n, x, x) as int == self.mobius_entry(m, x, x));
        } else {
            let mt = |z: int| self.mobius_term(m, x, y, z);
            assert forall|z: int| 0 <= z < n && z != y implies #[trigger] t(z) == mt(z) by {}
            lemma_range_sum_point(t, mt, n, y);
            assert(cell(m, n, x, y) as int == self.mobius_entry(m, x, y));
        }
    }

    /// Entry `(z, y)` of `m` when `x <= z <= y`, and zero otherwise.
    pub open spec fn column_term(&self, m: Seq<i128>, x: int, y: int, z: int) -> int {
        if self.rel(x, z) && self.rel(z, y) {
            cell(m, self.n() as int, z, y) as int
        } else {
            0
        }
    }

    /// Row `w` of `m` applied to the vector `u`.
    spec fn apply_row(&self, m: Seq<i128>, w: int, u: spec_fn(int) -> int) -> int {
        range_sum(|x: int| (cell(m, self.n() as int, w, x) as int) * u(x), self.n() as int)
    }

    spec fn up_pred(&self, w: int) -> spec_fn(int) -> bool {
        |z: int| self.rel(w, z)
    }

    /// Off the order the Möbius function is zero.
    proof fn lemma_mobius_off_order(&self, m: Seq<i128>, x: int, y: int)
        requires
            self.wf(),
            self.is_mobius(m),
            0 <= x < self.n(),
            0 <= y < self.n(),
            !self.rel(x, y),
        ensures
            cell(m, self.n() as int, x, y) as int == 0,
    {
        assert(cell(m, self.n() as int, x, y) as int == self.mobius_entry(m, x, y));
        if x == y {
            self.lemma_partial_order();
        }
    }

    /// Two vectors that the Möbius table maps to the same vector are equal, since the table is
    /// unitriangular; here at element `w`.
    proof fn lemma_mobius_injective(&self, m: Seq<i128>, u1: spec_fn(int) -> int, u2: spec_fn(int) -> int, w: int)
        requires
            self.wf(),
            self.is_mobius(m),
            0 <= w < self.n(),
            forall|v: int| 0 <= v < self.n() ==> #[trigger] self.apply_row(m, v, u1) == self.apply_row(m, v, u2),
        ensures
            u1(w) == u2(w),
        decreases count_below(self.up_pred(w), self.n() as int),
    {
        self.lemma_partial_order();
        let n = self.n() as int;
        let t1 = |x: int| (cell(m, n, w, x) as int) * u1(x);
        let t2 = |x: int| (cell(m, n, w, x) as int) * u2(x);
        assert forall|x: int| 0 <= x < n && x != w implies #[trigger] t1(x) == t2(x) by {
            if self.rel(w, x) {
                assert forall|z: int| 0 <= z < n && #[trigger] self.up_pred(x)(z) implies self.up_pred(w)(z) by {
                    assert(self.rel(x, z));
                }
                assert(self.up_pred(w)(w));
                assert(!self.up_pred(x)(w));
                lemma_count_below_strict(self.up_pred(x), self.up_pred(w), n, w);
                self.lemma_mobius_injective(m, u1, u2, x);
            } else {
                self.lemma_mobius_off_order(m, w, x);
                lemma_mul_basics(u1(x));
                lemma_mul_basics(u2(x));
            }
        }
        assert(self.apply_row(m, w, u1) == self.apply_row(m, w, u2));
        lemma_range_sum_point(t1, t2, n, w);
        assert(cell(m, n, w, w) as int == self.mobius_entry(m, w, w));
        lemma_mul_basics(u1(w));
        lemma_mul_basics(u2(w));
    }

    /// Row `w` of the Möbius table, applied to the column sums over the intervals that end at
    /// `y`, gives entry `(w, y)`.
    proof fn lemma_apply_column_sums(&self, m: Seq<i128>, y: int, w: int)
        requires
            self.wf(),
            self.is_mobius(m),
            0 <= y < self.n(),
            0 <= w < self.n(),
        ensures
            self.apply_row(m, w, |x: int| range_sum(|z: int| self.column_term(m, x, y, z), self.n() as int))
                == cell(m, self.n() as int, w, y) as int,
    {
        self.lemma_partial_order();
        let n = self.n() as int;
        let s = |x: int| range_sum(|z: int| self.column_term(m, x, y, z), n);
        let mu = |x: int| cell(m, n, w, x) as int;
        let f = |x: int, z: int| mu(x) * self.column_term(m, x, y, z);
        let lhs = |x: int| (cell(m, n, w, x) as int) * s(x);
        let rows = |x: int| range_sum(|z: int| f(x, z), n);
        assert forall|x: int| 0 <= x < n implies #[trigger] lhs(x) == rows(x) by {
            let col = |z: int| self.column_term(m, x, y, z);
            lemma_range_sum_scale(mu(x), col, n);
            let fx = |z: int| f(x, z);
            let sc = |z: int| mu(x) * col(z);
            assert forall|z: int| 0 <= z < n implies #[trigger] fx(z) == sc(z) by {}
            lemma_range_sum_ext(fx, sc, n);
        }
        lemma_range_sum_ext(lhs, rows, n);
        lemma_range_sum_swap(f, n, n);
        let k = |z: int| if self.rel(z, y) { cell(m, n, z, y) as int } else { 0 };
        let cols = |z: int| range_sum(|x: int| f(x, z), n);
        let d = |z: int| if z == w { k(w) } else { 0 };
        assert forall|z: int| 0 <= z < n implies #[trigger] cols(z) == d(z) by {
            let it = |x: int| self.interval_term(m, w, z, x);
            let fz = |x: int| f(x, z);
            let sc = |x: int| k(z) * it(x);
            assert forall|x: int| 0 <= x < n implies #[trigger] fz(x) == sc(x) by {
                lemma_mul_basics(mu(x));
                lemma_mul_basics(k(z));
                lemma_mul_is_commutative(mu(x), k(z));
                if !self.rel(w, x) {
                    self.lemma_mobius_off_order(m, w, x);
                }
            }
            lemma_range_sum_ext(fz, sc, n);
            lemma_range_sum_scale(k(z), it, n);
            self.lemma_mobius_row(m, w, z);
            lemma_mul_basics(k(z));
        }
        lemma_range_sum_ext(cols, d, n);
        lemma_range_sum_point(d, |z: int| 0int, n, w);
        lemma_range_sum_zero(n);
        if !self.rel(w, y) {
            self.lemma_mobius_off_order(m, w, y);
        }
    }

    /// Column `y` of the Möbius function sums to one over the interval from `y` to `y`, and to
    /// zero over every other interval that ends at `y`.
    pub proof fn lemma_mobius_column(&self, m: Seq<i128>, x: int, y: int)
        requires
            self.wf(),
            self.is_mobius(m),
            0 <= x < self.n(),
            0 <= y < self.n(),
        ensures
            range_sum(|z: int| self.column_term(m, x, y, z), self.n() as int) == (if x == y {
                1int
            } else {
                0int
            }),
    {
        let n = self.n() as int;
        let s = |v: int| range_sum(|z: int| self.column_term(m, v, y, z), n);
        let d = |v: int| if v == y { 1int } else { 0int };
        assert forall|v: int| 0 <= v < n implies #[trigger] self.apply_row(m, v, s) == self.apply_row(m, v, d) by {
            self.lemma_apply_column_sums(m, y, v);
            let t = |x: int| (cell(m, n, v, x) as int) * d(x);
            let zero = |x: int| 0int;
            assert forall|x: int| 0 <= x < n && x != y implies #[trigger] t(x) == zero(x) by {
                lemma_mul_basics(cell(m, n, v, x) as int);
            }
            lemma_range_sum_point(t, zero, n, y);
            lemma_range_sum_zero(n);
            lemma_mul_basics(cell(m, n, v, y) as int);
        }
        self.lemma_mobius_injective(m, s, d, x);
    }

    /// Term `z` of the Möbius sum for the pair `(x, y)` in an integer table: entry `(x, z)` when
    /// `x <= z <= y` and `z != y`, and zero otherwise.
    pub open spec fn exact_term(&self, m: Seq<int>, x: int, y: int, z: int) -> int {
        if self.rel(x, z) && self.rel(z, y) && z != y {
            cell(m, self.n() as int, x, z)
        } else {
            0
        }
    }

    /// What the Möbius recursion gives entry `(x, y)` of an integer table.
    pub open spec fn exact_entry(&self, m: Seq<int>, x: int, y: int) -> int {
        if x == y {
            1
        } else if self.rel(x, y) {
            -range_sum(|z: int| self.exact_term(m, x, y, z), self.n() as int)
        } else {
            0
        }
    }

    /// `m` is the row-major Möbius function of the poset, over the integers.
    pub open spec fn is_exact_mobius(&self, m: Seq<int>) -> bool {
        &&& m.len() == self.n() * self.n()
        &&& forall|x: int, y: int|
            0 <= x < self.n() && 0 <= y < self.n() ==> #[trigger] cell(m, self.n() as int, x, y)
                == self.exact_entry(m, x, y)
    }

    /// The sum of the absolute values of the terms of the Möbius sum for `(x, y)`.
    pub open spec fn interval_weight(&self, m: Seq<int>, x: int, y: int) -> int {
        range_sum(|z: int| abs_value(self.exact_term(m, x, y, z)), self.n() as int)
    }

    /// Every Möbius sum of `m` has its terms' absolute values add up to at most `i128::MAX`.
    pub open spec fn weights_fit(&self, m: Seq<int>) -> bool {
        forall|x: int, y: int|
            0 <= x < self.n() && 0 <= y < self.n() ==> #[trigger] self.interval_weight(m, x, y) <= i128::MAX
    }

    /// The Möbius function of the poset has a sum whose terms' absolute values add up to more
    /// than `i128::MAX`.
    pub open spec fn mobius_overflows(&self) -> bool {
        exists|m: Seq<int>| self.is_exact_mobius(m) && !self.weights_fit(m)
    }

    /// The number of elements strictly below `y`.
    spec fn below_count(&self, y: int) -> nat {
        count_below(self.below_pred(y), self.n() as int)
    }

    spec fn below_pred(&self, y: int) -> spec_fn(int) -> bool {
        |w: int| self.rel(w, y) && w != y
    }

    spec fn column_exact(&self, m: Seq<int>, c: int) -> bool {
        forall|x: int| 0 <= x < self.n() ==> #[trigger] cell(m, self.n() as int, x, c) == self.exact_entry(m, x, c)
    }

    /// A column that satisfies the Möbius recursion in `i128` satisfies it over the integers.
    proof fn lemma_column_as_exact(&self, m: Seq<i128>, c: int)
        requires
            self.wf(),
            m.len() == self.n() * self.n(),
            0 <= c < self.n(),
            self.column_ok(m, c),
        ensures
            self.column_exact(as_ints(m), c),
    {
        let n = self.n() as int;
        let mi = as_ints(m);
        assert forall|x: int| 0 <= x < n implies #[trigger] cell(mi, n, x, c) == self.exact_entry(mi, x, c) by {
            lemma_index(x, c, n);
            assert(cell(m, n, x, c) as int == self.mobius_entry(m, x, c));
            let h1 = |z: int| self.mobius_term(m, x, c, z);
            let h2 = |z: int| self.exact_term(mi, x, c, z);
            assert forall|z: int| 0 <= z < n implies #[trigger] h1(z) == h2(z) by {
                lemma_index(x, z, n);
            }
            lemma_range_sum_ext(h1, h2, n);
        }
    }

    /// A table that satisfies the Möbius recursion in `i128` satisfies it over the integers.
    pub proof fn lemma_mobius_is_exact(&self, m: Seq<i128>)
        requires
            self.wf(),
            self.is_mobius(m),
        ensures
            self.is_exact_mobius(as_ints(m)),
    {
        let n = self.n() as int;
        assert forall|x: int, y: int| 0 <= x < n && 0 <= y < n implies #[trigger] cell(as_ints(m), n, x, y)
            == self.exact_entry(as_ints(m), x, y) by {
            assert forall|w: int| 0 <= w < n implies #[trigger] cell(m, n, w, y) as int == self.mobius_entry(m, w, y) by {}
            self.lemma_column_as_exact(m, y);
        }
    }

    /// The integer Möbius entries of column `y` are determined by the recursion.
    proof fn lemma_exact_column(&self, m1: Seq<int>, m2: Seq<int>, y: int)
        requires
            self.wf(),
            self.is_exact_mobius(m1),
            self.is_exact_mobius(m2),
            0 <= y < self.n(),
        ensures
            forall|x: int| 0 <= x < self.n() ==> #[trigger] cell(m1, self.n() as int, x, y) == cell(m2, self.n() as int, x, y),
        decreases self.below_count(y),
    {
        let n = self.n() as int;
        self.lemma_partial_order();
        let below_y = self.below_pred(y);
        assert forall|z: int| 0 <= z < n && self.rel(z, y) && z != y implies forall|x: int|
            0 <= x < n ==> #[trigger] cell(m1, n, x, z) == cell(m2, n, x, z) by {
            let below_z = self.below_pred(z);
            assert forall|w: int| 0 <= w < n && #[trigger] below_z(w) implies below_y(w) by {
                if w == y {
                    assert(self.rel(z, y) && self.rel(y, z));
                }
            }
            lemma_count_below_strict(below_z, below_y, n, z);
            assert(self.below_count(z) < self.below_count(y));
            self.lemma_exact_column(m1, m2, z);
        }
        assert forall|x: int| 0 <= x < n implies #[trigger] cell(m1, n, x, y) == cell(m2, n, x, y) by {
            assert(cell(m1, n, x, y) == self.exact_entry(m1, x, y));
            assert(cell(m2, n, x, y) == self.exact_entry(m2, x, y));
            let h1 = |z: int| self.exact_term(m1, x, y, z);
            let h2 = |z: int| self.exact_term(m2, x, y, z);
            assert forall|z: int| 0 <= z < n implies #[trigger] h1(z) == h2(z) by {
                if self.rel(x, z) && self.rel(z, y) && z != y {
                    assert(cell(m1, n, x, z) == cell(m2, n, x, z));
                }
            }
            lemma_range_sum_ext(h1, h2, n);
        }
    }

    /// The poset has at most one integer Möbius function.
    pub proof fn lemma_exact_mobius_unique(&self, m1: Seq<int>, m2: Seq<int>)
        requires
            self.wf(),
            self.is_exact_mobius(m1),
            self.is_exact_mobius(m2),
        ensures
            m1 == m2,
    {
        let n = self.n() as int;
        assert forall|k: int| 0 <= k < m1.len() implies m1[k] == m2[k] by {
            lemma_index_split(k, n);
            let x = k / n;
            let y = k % n;
            self.lemma_exact_column(m1, m2, y);
            assert(cell(m1, n, x, y) == cell(m2, n, x, y));
        }
        assert(m1 =~= m2);
    }

    /// When the Möbius function overflows, no integer Möbius function has all its weights fit.
    pub proof fn lemma_overflow_excludes_fit(&self, m: Seq<int>)
        requires
            self.wf(),
            self.mobius_overflows(),
            self.is_exact_mobius(m),
        ensures
            !self.weights_fit(m),
    {
        let w = choose|w: Seq<int>| self.is_exact_mobius(w) && !self.weights_fit(w);
        self.lemma_exact_mobius_unique(m, w);
    }

    /// Completing the columns from position `j` of a linear extension on gives an integer
    /// Möbius function that keeps the columns before `j`.
    #[verifier::spinoff_prover]
    proof fn lemma_complete(&self, order: Seq<usize>, t: Seq<int>, j: int) -> (r: Seq<int>)
        requires
            self.wf(),
            self.is_linear_extension(order),
            0 <= j <= self.n(),
            t.len() == self.n() * self.n(),
            forall|i: int| 0 <= i < j ==> #[trigger] self.column_exact(t, order[i] as int),
        ensures
            self.is_exact_mobius(r),
            forall|i: int, x: int|
                0 <= i < j && 0 <= x < self.n() ==> #[trigger] cell(r, self.n() as int, x, order[i] as int) == cell(
                    t,
                    self.n() as int,
                    x,
                    order[i] as int,
                ),
        decreases self.n() - j,
    {
        let n = self.n() as int;
        if j == n {
            assert forall|x: int, y: int| 0 <= x < n && 0 <= y < n implies #[trigger] cell(t, n, x, y)
                == self.exact_entry(t, x, y) by {
                assert(order.contains(y as usize));
                let i = choose|i: int| 0 <= i < order.len() && order[i] == y as usize;
                assert(self.column_exact(t, order[i] as int));
            }
            t
        } else {
            let c = order[j] as int;
            let t2 = Seq::new(t.len(), |k: int| if k % n == c { self.exact_entry(t, k / n, c) } else { t[k] });
            assert forall|x: int, z: int| 0 <= x < n && 0 <= z < n && z != c implies #[trigger] cell(t2, n, x, z)
                == cell(t, n, x, z) by {
                lemma_index(x, z, n);
            }
            assert forall|x: int| 0 <= x < n implies #[trigger] cell(t2, n, x, c) == self.exact_entry(t, x, c) by {
                lemma_index(x, c, n);
            }
            assert forall|i: int| 0 <= i < j + 1 implies #[trigger] self.column_exact(t2, order[i] as int) by {
                let ci = order[i] as int;
                assert forall|x: int| 0 <= x < n implies #[trigger] cell(t2, n, x, ci) == self.exact_entry(t2, x, ci) by {
                    let h1 = |z: int| self.exact_term(t2, x, ci, z);
                    let h2 = |z: int| self.exact_term(t, x, ci, z);
                    assert forall|z: int| 0 <= z < n implies #[trigger] h1(z) == h2(z) by {
                        if self.rel(x, z) && self.rel(z, ci) && z != ci {
                            if z == c {
                                assert(order[j] as int == z);
                                if i < j {
                                    assert(!self.rel(order[j] as int, order[i] as int));
                                }
                            }
                            assert(cell(t2, n, x, z) == cell(t, n, x, z));
                        }
                    }
                    lemma_range_sum_ext(h1, h2, n);
                    if i < j {
                        assert(order[i] != order[j]);
                        assert(cell(t2, n, x, ci) == cell(t, n, x, ci));
                        assert(self.column_exact(t, ci));
                    }
                }
            }
            let r = self.lemma_complete(order, t2, j + 1);
            assert forall|i: int, x: int| 0 <= i < j && 0 <= x < n implies #[trigger] cell(r, n, x, order[i] as int)
                == cell(t, n, x, order[i] as int) by {
                assert(order[i] != order[j]);
                assert(cell(r, n, x, order[i] as int) == cell(t2, n, x, order[i] as int));
            }
            r
        }
    }

    spec fn column_ok(&self, m: Seq<i128>, c: int) -> bool {
        forall|x: int| 0 <= x < self.n() ==> #[trigger] cell(m, self.n() as int, x, c) as int == self.mobius_entry(m, x, c)
    }

    spec fn column_zero(&self, m: Seq<i128>, c: int) -> bool {
        forall|x: int| 0 <= x < self.n() ==> #[trigger] cell(m, self.n() as int, x, c) == 0
    }

    proof fn lemma_write_frame(&self, m: Seq<i128>, x0: int, y0: int, v: i128, x: int, c: int)
        requires
            self.wf(),
            m.len() == self.n() * self.n(),
            0 <= x0 < self.n(),
            0 <= y0 < self.n(),
            0 <= x < self.n(),
            0 <= c < self.n(),
            x != x0 || c != y0,
            forall|z: int|
                0 <= z < self.n() && #[trigger] self.rel(x, z) && self.rel(z, c) && z != c ==> (x != x0 || z != y0),
        ensures
            cell(m.update(x0 * self.n() + y0, v), self.n() as int, x, c) == cell(m, self.n() as int, x, c),
            self.mobius_entry(m.update(x0 * self.n() + y0, v), x, c) == self.mobius_entry(m, x, c),
    {
        let n = self.n() as int;
        let k0 = x0 * n + y0;
        let m2 = m.update(k0, v);
        lemma_index(x0, y0, n);
        lemma_index(x, c, n);
        assert(x * n + c != k0);
        let h1 = |z: int| self.mobius_term(m2, x, c, z);
        let h2 = |z: int| self.mobius_term(m, x, c, z);
        assert forall|z: int| 0 <= z < n implies #[trigger] h1(z) == h2(z) by {
            if self.rel(x, z) && self.rel(z, c) && z != c {
                lemma_index(x, z, n);
                assert(x * n + z != k0);
            }
        }
        lemma_range_sum_ext(h1, h2, n);
    }

    /// The terms of the running Möbius sum for `(x, y)`: entry `(x, z)` of `m` when
    /// `x <= z <= y`, and zero otherwise.
    pub open spec fn running_term(&self, m: Seq<int>, x: int, y: int) -> spec_fn(int) -> int {
        |z: int| if self.rel(x, z) && self.rel(z, y) { cell(m, self.n() as int, x, z) } else { 0 }
    }

    /// For `order[i] <= order[j]`, every running Möbius sum for the pair over the first `t <= j`
    /// entries of `order` lies in `i128`, and the whole sum is not `i128::MIN`.
    pub open spec fn pair_fits(&self, order: Seq<usize>, m: Seq<int>, i: int, j: int) -> bool {
        self.rel(order[i] as int, order[j] as int) ==> {
            &&& forall|t: int|
                0 <= t <= j ==> i128::MIN <= #[trigger] seq_sum(
                    order.subrange(0, t),
                    self.running_term(m, order[i] as int, order[j] as int),
                ) <= i128::MAX
            &&& seq_sum(order.subrange(0, j), self.running_term(m, order[i] as int, order[j] as int))
                != i128::MIN
        }
    }

    /// Computing the Möbius function column by column in `order`, with the running sums in
    /// `order`, stays in `i128` and never negates `i128::MIN`.
    pub open spec fn running_sums_fit(&self, order: Seq<usize>, m: Seq<int>) -> bool {
        forall|i: int, j: int| 0 <= i < j < self.n() ==> #[trigger] self.pair_fits(order, m, i, j)
    }

    /// The Möbius computation in the least-ready linear extension leaves `i128`: its running
    /// sums do not fit for the Möbius function.
    pub open spec fn running_sums_overflow(&self) -> bool {
        forall|order: Seq<usize>, m: Seq<int>|
            #![trigger self.picks_least_ready(order), self.is_exact_mobius(m)]
            self.is_linear_extension(order) && self.picks_least_ready(order) && self.is_exact_mobius(m)
                ==> !self.running_sums_fit(order, m)
    }

    /// There is only one linear extension that always takes the least ready element.
    pub proof fn lemma_least_ready_unique(&self, o1: Seq<usize>, o2: Seq<usize>)
        requires
            self.is_linear_extension(o1),
            self.is_linear_extension(o2),
            self.picks_least_ready(o1),
            self.picks_least_ready(o2),
        ensures
            o1 == o2,
    {
        self.lemma_least_ready_prefix(o1, o2, o1.len() as int);
        assert(o1.take(o1.len() as int) =~= o1);
        assert(o2.take(o2.len() as int) =~= o2);
    }

    proof fn lemma_least_ready_prefix(&self, o1: Seq<usize>, o2: Seq<usize>, k: int)
        requires
            self.is_linear_extension(o1),
            self.is_linear_extension(o2),
            self.picks_least_ready(o1),
            self.picks_least_ready(o2),
            0 <= k <= o1.len(),
        ensures
            o1.take(k) == o2.take(k),
        decreases k,
    {
        if k > 0 {
            let j = k - 1;
            self.lemma_least_ready_prefix(o1, o2, j);
            assert(self.ready(o1.take(j), o1[j] as int));
            assert(self.ready(o2.take(j), o2[j] as int));
            if o1[j] < o2[j] {
                assert(!self.ready(o2.take(j), o1[j] as int));
            }
            if o2[j] < o1[j] {
                assert(!self.ready(o1.take(j), o2[j] as int));
            }
            assert(o1.take(k) =~= o1.take(j).push(o1[j]));
            assert(o2.take(k) =~= o2.take(j).push(o2[j]));
        }
    }

    /// Whether a pair's running sums fit depends only on the columns before position `j`.
    proof fn lemma_pair_frame(&self, order: Seq<usize>, m1: Seq<int>, m2: Seq<int>, i: int, j: int)
        requires
            self.is_linear_extension(order),
            0 <= i < j < self.n(),
            forall|p: int|
                0 <= p < j ==> #[trigger] cell(m1, self.n() as int, order[i] as int, order[p] as int) == cell(
                    m2,
                    self.n() as int,
                    order[i] as int,
                    order[p] as int,
                ),
        ensures
            self.pair_fits(order, m1, i, j) == self.pair_fits(order, m2, i, j),
    {
        let x = order[i] as int;
        let y = order[j] as int;
        let g1 = self.running_term(m1, x, y);
        let g2 = self.running_term(m2, x, y);
        assert forall|t: int| 0 <= t <= j implies #[trigger] seq_sum(order.subrange(0, t), g1) == seq_sum(
            order.subrange(0, t),
            g2,
        ) by {
            let pre = order.subrange(0, t);
            assert forall|q: int| 0 <= q < pre.len() implies #[trigger] g1(pre[q] as int) == g2(pre[q] as int) by {
                assert(pre[q] == order[q]);
                assert(cell(m1, self.n() as int, x, order[q] as int) == cell(m2, self.n() as int, x, order[q] as int));
            }
            lemma_seq_sum_elementwise(pre, g1, g2);
        }
        if self.rel(x, y) {
            assert(seq_sum(order.subrange(0, j), g1) == seq_sum(order.subrange(0, j), g2));
            if self.pair_fits(order, m1, i, j) {
                assert forall|t: int| 0 <= t <= j implies i128::MIN <= #[trigger] seq_sum(order.subrange(0, t), g2)
                    <= i128::MAX by {
                    assert(seq_sum(order.subrange(0, t), g1) == seq_sum(order.subrange(0, t), g2));
                }
            }
            if self.pair_fits(order, m2, i, j) {
                assert forall|t: int| 0 <= t <= j implies i128::MIN <= #[trigger] seq_sum(order.subrange(0, t), g1)
                    <= i128::MAX by {
                    assert(seq_sum(order.subrange(0, t), g1) == seq_sum(order.subrange(0, t), g2));
                }
            }
        }
    }

    /// A partial Möbius sum for `(lhs, order[rhs_index])` over a prefix of a linear extension
    /// that leaves `i128`, with the columns before `rhs_index` already right, shows that the
    /// Möbius function overflows.
    #[verifier::spinoff_prover]
    proof fn lemma_overflow_witness(
        &self,
        order: Seq<usize>,
        t: Seq<i128>,
        rhs_index: int,
        lhs: int,
        g: spec_fn(int) -> int,
        len: int,
    )
        requires
            self.wf(),
            self.is_linear_extension(order),
            t.len() == self.n() * self.n(),
            0 <= rhs_index < self.n(),
            0 <= lhs < self.n(),
            0 <= len <= rhs_index,
            forall|j: int| 0 <= j < rhs_index ==> self.column_ok(t, #[trigger] order[j] as int),
            forall|z: int|
                #[trigger] g(z) == (if self.rel(lhs, z) && self.rel(z, order[rhs_index] as int) {
                    cell(t, self.n() as int, lhs, z) as int
                } else {
                    0
                }),
            abs_value(seq_sum(order.subrange(0, len), g)) > i128::MAX,
        ensures
            self.mobius_overflows(),
    {
        let n = self.n() as int;
        let rhs = order[rhs_index] as int;
        let ti = as_ints(t);
        assert forall|j: int| 0 <= j < rhs_index implies #[trigger] self.column_exact(ti, order[j] as int) by {
            self.lemma_column_as_exact(t, order[j] as int);
        }
        let mstar = self.lemma_complete(order, ti, rhs_index);
        let pre = order.subrange(0, len);
        lemma_seq_sum_abs(pre, g);
        let absg = |z: int| abs_value(g(z));
        assert forall|i: int| 0 <= i < pre.len() implies #[trigger] pre[i] < n by {
            assert(pre[i] == order[i]);
        }
        assert forall|i: int, j: int| 0 <= i < j < pre.len() implies pre[i] != pre[j] by {
            assert(pre[i] == order[i]);
            assert(pre[j] == order[j]);
        }
        lemma_seq_sum_as_range(pre, absg, n);
        let big_g = |z: int| if 0 <= z && pre.contains(z as usize) { absg(z) } else { 0 };
        let h = |z: int| abs_value(self.exact_term(mstar, lhs, rhs, z));
        assert forall|z: int| 0 <= z < n implies #[trigger] big_g(z) <= h(z) by {
            if pre.contains(z as usize) {
                let i = choose|i: int| 0 <= i < pre.len() && pre[i] == z as usize;
                assert(order[i] == z as usize);
                assert(order[i] != order[rhs_index]);
                lemma_index(lhs, z, n);
                assert(cell(mstar, n, lhs, order[i] as int) == cell(ti, n, lhs, order[i] as int));
            }
        }
        lemma_range_sum_le(big_g, h, n);
        assert(self.interval_weight(mstar, lhs, rhs) > i128::MAX);
        assert(!self.weights_fit(mstar));
    }

    /// A running sum for `(order[lhs_index], order[rhs_index])` that leaves `i128`, or a whole
    /// sum that is `i128::MIN`, with the columns before `rhs_index` already right, shows that the
    /// running sums of the Möbius function do not fit.
    proof fn lemma_running_failure(
        &self,
        order: Seq<usize>,
        t: Seq<i128>,
        rhs_index: int,
        lhs_index: int,
        g: spec_fn(int) -> int,
        len: int,
    )
        requires
            self.wf(),
            self.is_linear_extension(order),
            t.len() == self.n() * self.n(),
            0 <= lhs_index < rhs_index < self.n(),
            self.rel(order[lhs_index] as int, order[rhs_index] as int),
            0 <= len <= rhs_index,
            forall|j: int| 0 <= j < rhs_index ==> self.column_ok(t, #[trigger] order[j] as int),
            forall|z: int|
                #[trigger] g(z) == (if self.rel(order[lhs_index] as int, z) && self.rel(z, order[rhs_index] as int) {
                    cell(t, self.n() as int, order[lhs_index] as int, z) as int
                } else {
                    0
                }),
            !(i128::MIN <= seq_sum(order.subrange(0, len), g) <= i128::MAX) || (len == rhs_index && seq_sum(
                order.subrange(0, len),
                g,
            ) == i128::MIN),
        ensures
            forall|m: Seq<int>| #[trigger] self.is_exact_mobius(m) ==> !self.running_sums_fit(order, m),
    {
        let n = self.n() as int;
        let lhs = order[lhs_index] as int;
        let rhs = order[rhs_index] as int;
        let ti = as_ints(t);
        assert forall|j: int| 0 <= j < rhs_index implies #[trigger] self.column_exact(ti, order[j] as int) by {
            self.lemma_column_as_exact(t, order[j] as int);
        }
        let mstar = self.lemma_complete(order, ti, rhs_index);
        let pre = order.subrange(0, len);
        let rt = self.running_term(mstar, lhs, rhs);
        assert forall|q: int| 0 <= q < pre.len() implies #[trigger] g(pre[q] as int) == rt(pre[q] as int) by {
            assert(pre[q] == order[q]);
            lemma_index(lhs, order[q] as int, n);
            assert(cell(mstar, n, lhs, order[q] as int) == cell(ti, n, lhs, order[q] as int));
        }
        lemma_seq_sum_elementwise(pre, g, rt);
        assert(!self.pair_fits(order, mstar, lhs_index, rhs_index));
        assert forall|m: Seq<int>| #[trigger] self.is_exact_mobius(m) implies !self.running_sums_fit(order, m) by {
            self.lemma_exact_mobius_unique(m, mstar);
            assert(!self.pair_fits(order, m, lhs_index, rhs_index));
        }
    }

    /// Writing into the column at position `rhs_index` keeps the running sums of every pair that
    /// ends at or before that position.
    proof fn lemma_pairs_after_write(
        &self,
        order: Seq<usize>,
        m: Seq<i128>,
        x0: int,
        rhs_index: int,
        v: i128,
        count: int,
    )
        requires
            self.is_linear_extension(order),
            m.len() == self.n() * self.n(),
            0 <= x0 < self.n(),
            0 <= count <= rhs_index < self.n(),
            forall|i: int, j: int| 0 <= i < j < rhs_index ==> #[trigger] self.pair_fits(order, as_ints(m), i, j),
            forall|i: int| 0 <= i < count ==> #[trigger] self.pair_fits(order, as_ints(m), i, rhs_index),
        ensures
            forall|i: int, j: int|
                0 <= i < j < rhs_index ==> #[trigger] self.pair_fits(
                    order,
                    as_ints(m.update(x0 * self.n() + order[rhs_index], v)),
                    i,
                    j,
                ),
            forall|i: int|
                0 <= i < count ==> #[trigger] self.pair_fits(
                    order,
                    as_ints(m.update(x0 * self.n() + order[rhs_index], v)),
                    i,
                    rhs_index,
                ),
    {
        let n = self.n() as int;
        let y0 = order[rhs_index] as int;
        let m2 = m.update(x0 * n + y0, v);
        assert forall|i: int, j: int| 0 <= i < j <= rhs_index implies self.pair_fits(order, as_ints(m), i, j)
            == #[trigger] self.pair_fits(order, as_ints(m2), i, j) by {
            assert forall|p: int| 0 <= p < j implies #[trigger] cell(as_ints(m), n, order[i] as int, order[p] as int)
                == cell(as_ints(m2), n, order[i] as int, order[p] as int) by {
                assert(order[p] != order[rhs_index]);
                lemma_write_other_column(m, n, x0, y0, v, order[i] as int, order[p] as int);
            }
            self.lemma_pair_frame(order, as_ints(m), as_ints(m2), i, j);
        }
        assert forall|i: int| 0 <= i < count implies #[trigger] self.pair_fits(order, as_ints(m2), i, rhs_index) by {
            assert(self.pair_fits(order, as_ints(m), i, rhs_index));
        }
    }

    /// Running sums over an `i128` table that all fit, with a whole sum other than `i128::MIN`,
    /// make the pair fit.
    proof fn lemma_pair_from_sums(
        &self,
        order: Seq<usize>,
        m: Seq<i128>,
        lhs_index: int,
        rhs_index: int,
        g: spec_fn(int) -> int,
    )
        requires
            self.is_linear_extension(order),
            m.len() == self.n() * self.n(),
            0 <= lhs_index < rhs_index < self.n(),
            forall|z: int|
                #[trigger] g(z) == (if self.rel(order[lhs_index] as int, z) && self.rel(z, order[rhs_index] as int) {
                    cell(m, self.n() as int, order[lhs_index] as int, z) as int
                } else {
                    0
                }),
            forall|t: int| 0 <= t <= rhs_index ==> i128::MIN <= #[trigger] seq_sum(order.subrange(0, t), g) <= i128::MAX,
            seq_sum(order.subrange(0, rhs_index), g) != i128::MIN,
        ensures
            self.pair_fits(order, as_ints(m), lhs_index, rhs_index),
    {
        let n = self.n() as int;
        let lhs = order[lhs_index] as int;
        let rt = self.running_term(as_ints(m), lhs, order[rhs_index] as int);
        assert forall|t: int| 0 <= t <= rhs_index implies #[trigger] seq_sum(order.subrange(0, t), rt) == seq_sum(
            order.subrange(0, t),
            g,
        ) by {
            let pre = order.subrange(0, t);
            assert forall|q: int| 0 <= q < pre.len() implies #[trigger] g(pre[q] as int) == rt(pre[q] as int) by {
                assert(pre[q] == order[q]);
                lemma_index(lhs, order[q] as int, n);
            }
            lemma_seq_sum_elementwise(pre, g, rt);
        }
        assert(seq_sum(order.subrange(0, rhs_index), rt) == seq_sum(order.subrange(0, rhs_index), g));
        if self.rel(lhs, order[rhs_index] as int) {
            assert forall|t: int| 0 <= t <= rhs_index implies i128::MIN <= #[trigger] seq_sum(order.subrange(0, t), rt)
                <= i128::MAX by {
                assert(seq_sum(order.subrange(0, t), rt) == seq_sum(order.subrange(0, t), g));
            }
        }
    }

    /// When the Möbius function overflows, no integer Möbius function has all its weights fit.
    proof fn lemma_overflow_excludes_all(&self)
        requires
            self.wf(),
            self.mobius_overflows(),
        ensures
            forall|m: Seq<int>| #[trigger] self.is_exact_mobius(m) ==> !self.weights_fit(m),
    {
        assert forall|m: Seq<int>| #[trigger] self.is_exact_mobius(m) implies !self.weights_fit(m) by {
            self.lemma_overflow_excludes_fit(m);
        }
    }

    /// The ancestry order of a rooted tree has `tree_mobius` as its Möbius function, and that
    /// function never overflows.
    #[verifier::spinoff_prover]
    pub proof fn lemma_tree_mobius(&self, parents: Seq<Option<usize>>)
        requires
            self.wf(),
            tree_error(parents) is None,
            self.n() == parents.len(),
            forall|a: int, v: int|
                0 <= a < self.n() && 0 <= v < self.n() ==> #[trigger] self.rel(a, v) == is_ancestor(parents, a, v),
        ensures
            self.is_exact_mobius(tree_mobius(parents)),
            self.weights_fit(tree_mobius(parents)),
            !self.mobius_overflows(),
    {
        let n = self.n() as int;
        let m = tree_mobius(parents);
        self.lemma_partial_order();
        assert(parents_in_range(parents)) by {
            assert forall|v: int| 0 <= v < parents.len() implies match #[trigger] parents[v] {
                Some(p) => p < parents.len() && p != v,
                None => true,
            } by {
                lemma_no_parent_error(parents, 0, v);
            }
        }
        assert forall|x: int, y: int| 0 <= x < n && 0 <= y < n implies #[trigger] cell(m, n, x, y) == (if x == y {
            1int
        } else if parents[y] == Some(x as usize) {
            -1int
        } else {
            0int
        }) by {
            lemma_index(x, y, n);
        }
        // A parent is an ancestor of its child.
        assert forall|v: int| 0 <= v < n && #[trigger] parents[v] is Some implies self.rel(parents[v]->0 as int, v) by {
            assert(climb(parents, v, 0) == v);
            assert(climb(parents, v, 1) == parents[v]->0 as int);
        }
        // Strict ancestors of a vertex are ancestors of its parent.
        assert forall|w: int, z: int|
            0 <= w < n && 0 <= z < n && #[trigger] self.rel(w, z) && w != z && #[trigger] parents[z] is Some implies self.rel(
            w,
            parents[z]->0 as int,
        ) by {
            let k = choose|k: nat| #[trigger] climb(parents, z, k) == w;
            assert(climb(parents, z, 0) == z);
            assert(k >= 1);
            assert(climb(parents, z, 1) == parents[z]->0 as int);
            lemma_climb_add(parents, z, 1, (k - 1) as nat);
            assert(1 + (k - 1) as nat == k);
            assert(climb(parents, parents[z]->0 as int, (k - 1) as nat) == w);
        }
        // The ancestors of a vertex form a chain.
        assert forall|a: int, b: int, y: int|
            0 <= a < n && 0 <= b < n && 0 <= y < n && #[trigger] self.rel(a, y) && #[trigger] self.rel(b, y) implies self.rel(
            a,
            b,
        ) || self.rel(b, a) by {
            let i = choose|k: nat| #[trigger] climb(parents, y, k) == a;
            let j = choose|k: nat| #[trigger] climb(parents, y, k) == b;
            if i <= j {
                lemma_climb_add(parents, y, i, (j - i) as nat);
                assert(climb(parents, a, (j - i) as nat) == b);
            } else {
                lemma_climb_add(parents, y, j, (i - j) as nat);
                assert(climb(parents, b, (i - j) as nat) == a);
            }
        }
        let zero = |z: int| 0int;
        lemma_range_sum_zero(n);
        assert forall|x: int, y: int| 0 <= x < n && 0 <= y < n implies #[trigger] cell(m, n, x, y) == self.exact_entry(
            m,
            x,
            y,
        ) by {
            if x != y && self.rel(x, y) {
                let t = |z: int| self.exact_term(m, x, y, z);
                let ix = |z: int| if z == x { 1int } else { 0int };
                assert forall|z: int| 0 <= z < n && z != x implies #[trigger] ix(z) == zero(z) by {}
                lemma_range_sum_point(ix, zero, n, x);
                if parents[y] == Some(x as usize) {
                    assert forall|z: int| 0 <= z < n implies #[trigger] t(z) == ix(z) by {
                        if z != x && self.rel(x, z) && self.rel(z, y) && z != y && parents[z] == Some(x as usize) {
                            assert(self.rel(z, x));
                        }
                    }
                    lemma_range_sum_ext(t, ix, n);
                } else {
                    let k = choose|k: nat| #[trigger] climb(parents, y, k) == x;
                    let d = lemma_least_climb(parents, y, x, k);
                    let c = climb(parents, y, (d - 1) as nat);
                    lemma_climb_range(parents, y, (d - 1) as nat);
                    assert(parents[c] == Some(x as usize));
                    assert(c != y);
                    assert(self.rel(c, y));
                    assert(self.rel(x, c));
                    let i2 = |z: int| if z == x { 1int } else if z == c { -1int } else { 0int };
                    assert forall|z: int| 0 <= z < n && z != c implies #[trigger] i2(z) == ix(z) by {}
                    lemma_range_sum_point(i2, ix, n, c);
                    assert forall|z: int| 0 <= z < n implies #[trigger] t(z) == i2(z) by {
                        if z != x && z != c && self.rel(x, z) && self.rel(z, y) && z != y && parents[z] == Some(x as usize) {
                            if self.rel(z, c) {
                                assert(self.rel(z, x));
                            } else {
                                assert(self.rel(c, z));
                                assert(self.rel(c, x));
                            }
                        }
                    }
                    lemma_range_sum_ext(t, i2, n);
                }
            }
        }
        assert forall|x: int, y: int| 0 <= x < n && 0 <= y < n implies #[trigger] self.interval_weight(m, x, y) <= i128::MAX by {
            let h = |z: int| abs_value(self.exact_term(m, x, y, z));
            assert forall|z: int| 0 <= z < n implies #[trigger] h(z) <= 1 by {}
            lemma_range_sum_unit(h, n);
        }
        if self.mobius_overflows() {
            self.lemma_overflow_excludes_fit(m);
        }
    }

    /// The Boolean lattice of `bits`-bit masks has `boolean_mobius(bits)` as its Möbius
    /// function, and that function never overflows.
    #[verifier::spinoff_prover]
    pub proof fn lemma_boolean_mobius(&self, bits: nat)
        requires
            self.wf(),
            bits < usize::BITS,
            self.n() == pow2(bits),
            forall|a: int, b: int|
                0 <= a < self.n() && 0 <= b < self.n() ==> #[trigger] self.rel(a, b) == ((a as usize & b as usize)
                    == a as usize),
        ensures
            self.is_exact_mobius(boolean_mobius(bits)),
            self.weights_fit(boolean_mobius(bits)),
            !self.mobius_overflows(),
    {
        let n = self.n() as int;
        let m = boolean_mobius(bits);
        self.lemma_partial_order();
        assert forall|x: int, y: int| 0 <= x < n && 0 <= y < n implies #[trigger] cell(m, n, x, y) == (if bits_within(
            x as nat,
            y as nat,
            bits,
        ) {
            bit_sign(x as nat, bits) * bit_sign(y as nat, bits)
        } else {
            0
        }) by {
            lemma_index(x, y, n);
        }
        assert forall|x: int, y: int| 0 <= x < n && 0 <= y < n implies #[trigger] self.rel(x, y) == bits_within(
            x as nat,
            y as nat,
            bits,
        ) by {
            lemma_and_within(x as usize, y as usize, bits);
        }
        assert forall|x: int, z: int| 0 <= x < n && 0 <= z < n implies -1 <= #[trigger] cell(m, n, x, z) <= 1 by {
            lemma_bit_sign_unit(x as nat, bits);
            lemma_bit_sign_unit(z as nat, bits);
            let a = bit_sign(x as nat, bits);
            let b = bit_sign(z as nat, bits);
            assert(-1 <= a * b <= 1) by (nonlinear_arith)
                requires
                    a == 1 || a == -1,
                    b == 1 || b == -1,
            ;
        }
        assert forall|x: int, y: int| 0 <= x < n && 0 <= y < n implies #[trigger] cell(m, n, x, y) == self.exact_entry(
            m,
            x,
            y,
        ) by {
            let sx = bit_sign(x as nat, bits);
            let sy = bit_sign(y as nat, bits);
            lemma_bit_sign_unit(x as nat, bits);
            lemma_bit_sign_unit(y as nat, bits);
            if x == y {
                assert(self.rel(x, x));
                assert(sx * sx == 1) by (nonlinear_arith)
                    requires
                        sx == 1 || sx == -1,
                ;
            } else if self.rel(x, y) {
                let t = |z: int| self.exact_term(m, x, y, z);
                let f = |z: int|
                    if bits_within(x as nat, z as nat, bits) && bits_within(z as nat, y as nat, bits) {
                        bit_sign(z as nat, bits)
                    } else {
                        0
                    };
                let h = |z: int| sx * f(z);
                assert forall|z: int| 0 <= z < n && z != y implies #[trigger] t(z) == h(z) by {
                    assert(cell(m, n, x, z) == (if bits_within(x as nat, z as nat, bits) {
                        sx * bit_sign(z as nat, bits)
                    } else {
                        0
                    }));
                    assert(self.rel(x, z) == bits_within(x as nat, z as nat, bits));
                    assert(self.rel(z, y) == bits_within(z as nat, y as nat, bits));
                }
                lemma_range_sum_point(t, h, n, y);
                lemma_range_sum_scale(sx, f, n);
                assert(self.rel(x, y) == bits_within(x as nat, y as nat, bits));
                assert(self.rel(y, y) == bits_within(y as nat, y as nat, bits));
                assert(self.rel(y, y));
                lemma_between_sum(x as nat, y as nat, bits);
                assert(between_sum(x as nat, y as nat, bits) == range_sum(f, n));
                assert(h(y) == sx * sy);
            }
        }
        assert forall|x: int, y: int| 0 <= x < n && 0 <= y < n implies #[trigger] self.interval_weight(m, x, y) <= i128::MAX by {
            let h = |z: int| abs_value(self.exact_term(m, x, y, z));
            assert forall|z: int| 0 <= z < n implies #[trigger] h(z) <= 1 by {
                assert(-1 <= cell(m, n, x, z) <= 1);
            }
            lemma_range_sum_unit(h, n);
            lemma_usize_pow2_no_overflow(bits);
        }
        if self.mobius_overflows() {
            self.lemma_overflow_excludes_fit(m);
        }
    }

    /// The divisibility order on the divisors of `modulus` has `divisor_mobius` as its Möbius
    /// function, and that function never overflows.
    #[verifier::spinoff_prover]
    pub proof fn lemma_divisor_mobius(&self, d: Seq<usize>, modulus: int)
        requires
            self.wf(),
            1 <= modulus <= usize::MAX,
            self.n() == d.len(),
            forall|i: int, j: int| 0 <= i < j < d.len() ==> d[i] < d[j],
            forall|x: usize| #[trigger] d.contains(x) <==> (1 <= x <= modulus && modulus % (x as int) == 0),
            forall|i: int, j: int|
                0 <= i < self.n() && 0 <= j < self.n() ==> #[trigger] self.rel(i, j) == ((d[j] as int)
                    % (d[i] as int) == 0),
        ensures
            self.is_exact_mobius(divisor_mobius(d)),
            self.weights_fit(divisor_mobius(d)),
            !self.mobius_overflows(),
    {
        let n = self.n() as int;
        let m = divisor_mobius(d);
        assert forall|v: int| 0 <= v < n implies #[trigger] d[v] >= 1 && modulus % (d[v] as int) == 0 by {
            assert(d.contains(d[v]));
        }
        assert forall|x: int, y: int| 0 <= x < n && 0 <= y < n implies #[trigger] cell(m, n, x, y) == (if (d[y] as int)
            % (d[x] as int) == 0 {
            mobius_number(((d[y] as int) / (d[x] as int)) as nat)
        } else {
            0
        }) by {
            lemma_index(x, y, n);
        }
        assert forall|x: int, z: int| 0 <= x < n && 0 <= z < n implies -1 <= #[trigger] cell(m, n, x, z) <= 1 by {
            lemma_mobius_number_unit(((d[z] as int) / (d[x] as int)) as nat);
        }
        assert forall|x: int, y: int| 0 <= x < n && 0 <= y < n implies #[trigger] cell(m, n, x, y) == self.exact_entry(
            m,
            x,
            y,
        ) by {
            let a = d[x] as int;
            let b = d[y] as int;
            if x == y {
                lemma_mod_self_0(a);
                lemma_div_multiples_vanish(1, a);
                assert(a / a == 1);
            } else if self.rel(x, y) {
                lemma_fundamental_div_mod(b, a);
                let n0 = b / a;
                assert(b == a * n0);
                assert(n0 >= 1) by (nonlinear_arith)
                    requires
                        b == a * n0,
                        a >= 1,
                        b >= 1,
                ;
                if n0 == 1 {
                    assert(b == a) by (nonlinear_arith)
                        requires
                            b == a * n0,
                            n0 == 1,
                    ;
                    if x < y {
                        assert(d[x] < d[y]);
                    } else {
                        assert(d[y] < d[x]);
                    }
                }
                assert(n0 >= 2);
                let t = |z: int| self.exact_term(m, x, y, z);
                let f = |v: int| if v >= 1 && v % a == 0 && b % v == 0 { mobius_number((v / a) as nat) } else { 0 };
                let h = |z: int| f(d[z] as int);
                assert forall|z: int| 0 <= z < n && z != y implies #[trigger] t(z) == h(z) by {
                    assert(self.rel(x, z) == ((d[z] as int) % a == 0));
                    assert(self.rel(z, y) == (b % (d[z] as int) == 0));
                }
                lemma_mod_self_0(b);
                assert(h(y) == mobius_number(n0 as nat));
                lemma_range_sum_point(t, h, n, y);
                let pred = |v: int| v >= 1 && v <= modulus && modulus % v == 0;
                assert forall|i: int| 0 <= i < d.len() implies #[trigger] d[i] < modulus + 1 && pred(d[i] as int) by {
                    assert(d.contains(d[i]));
                }
                assert forall|v: int| 0 <= v < modulus + 1 && #[trigger] pred(v) implies d.contains(v as usize) by {}
                lemma_sorted_sum(d, pred, f, modulus + 1);
                let pf = |v: int| if pred(v) { f(v) } else { 0 };
                assert forall|v: int| 0 <= v < modulus + 1 implies #[trigger] pf(v) == f(v) by {
                    if v >= 1 && v % a == 0 && b % v == 0 {
                        lemma_divides_transitive(modulus, b, v);
                    }
                }
                lemma_range_sum_ext(pf, f, modulus + 1);
                assert forall|v: int| b + 1 <= v < modulus + 1 implies #[trigger] f(v) == 0 by {
                    lemma_small_mod(b as nat, v as nat);
                }
                assert(b <= modulus) by {
                    assert(d.contains(d[y]));
                }
                lemma_range_sum_tail(f, b + 1, modulus + 1);
                assert(a * (n0 + 1) == b + a) by (nonlinear_arith)
                    requires
                        b == a * n0,
                ;
                assert forall|v: int| b + 1 <= v < a * (n0 + 1) implies #[trigger] f(v) == 0 by {
                    lemma_small_mod(b as nat, v as nat);
                }
                lemma_range_sum_tail(f, b + 1, a * (n0 + 1));
                assert forall|e: int| 0 <= e < a * (n0 + 1) && e % a != 0 implies #[trigger] f(e) == 0 by {}
                lemma_range_sum_stride(f, a, n0 + 1);
                let fs = |s: int| f(a * s);
                let dt = divisor_terms(n0);
                assert forall|s: int| 0 <= s < n0 + 1 implies #[trigger] fs(s) == dt(s) by {
                    let e = a * s;
                    lemma_mod_multiples_basic(s, a);
                    lemma_mul_is_commutative(s, a);
                    lemma_div_multiples_vanish(s, a);
                    if s >= 1 {
                        assert(e >= 1) by (nonlinear_arith)
                            requires
                                e == a * s,
                                a >= 1,
                                s >= 1,
                        ;
                        if n0 % s == 0 {
                            lemma_fundamental_div_mod(n0, s);
                            let q = n0 / s;
                            assert(b == e * q) by (nonlinear_arith)
                                requires
                                    b == a * n0,
                                    n0 == s * q + 0,
                                    e == a * s,
                            ;
                            lemma_mod_multiples_basic(q, e);
                            lemma_mul_is_commutative(q, e);
                        }
                        if b % e == 0 {
                            lemma_fundamental_div_mod(b, e);
                            let q = b / e;
                            assert(n0 == s * q) by (nonlinear_arith)
                                requires
                                    b == a * n0,
                                    b == e * q + 0,
                                    e == a * s,
                                    a >= 1,
                            ;
                            lemma_mod_multiples_basic(q, s);
                            lemma_mul_is_commutative(q, s);
                        }
                    } else {
                        lemma_mul_basics(a);
                    }
                }
                lemma_range_sum_ext(fs, dt, n0 + 1);
                lemma_mobius_number_sum(n0);
            }
        }
        assert forall|x: int, y: int| 0 <= x < n && 0 <= y < n implies #[trigger] self.interval_weight(m, x, y) <= i128::MAX by {
            let h = |z: int| abs_value(self.exact_term(m, x, y, z));
            assert forall|z: int| 0 <= z < n implies #[trigger] h(z) <= 1 by {
                assert(-1 <= cell(m, n, x, z) <= 1);
            }
            lemma_range_sum_unit(h, n);
        }
        if self.mobius_overflows() {
            self.lemma_overflow_excludes_fit(m);
        }
    }

    /// Computes the row-major Möbius function of the poset.
    #[verifier::spinoff_prover]
    pub fn mobius(&self) -> (r: Result<Vec<i128>, Error>)
        requires
            self.wf(),
        ensures
            match r {
                Ok(m) => self.is_mobius(m@) && self.is_exact_mobius(as_ints(m@)),
                Err(e) => e == Error::MobiusOverflow && self.mobius_overflows(),
            },
            forall|m: Seq<int>| #[trigger] self.is_exact_mobius(m) && self.weights_fit(m) ==> r is Ok,
            exists|order: Seq<usize>| self.is_linear_extension(order) && #[trigger] self.picks_least_ready(order),
            forall|order: Seq<usize>, m: Seq<int>|
                #![trigger self.picks_least_ready(order), self.is_exact_mobius(m)]
                self.is_linear_extension(order) && self.picks_least_ready(order) && self.is_exact_mobius(m) ==> (r is Ok
                    <==> self.running_sums_fit(order, m)),
    {
        let n = self.size;
        proof {
            self.lemma_partial_order();
        }
        let order = match self.linear_extension() {
            Ok(order) => order,
            Err(e) => return Err(e),
        };
        let mut mobius: Vec<i128> = vec![0i128; n * n];
        proof {
            assert forall|j: int| 0 <= j < n implies self.column_zero(mobius@, #[trigger] order@[j] as int) by {
                let c = order@[j] as int;
                assert forall|x: int| 0 <= x < n implies #[trigger] cell(mobius@, n as int, x, c) == 0 by {
                    lemma_index(x, c, n as int);
                }
            }
        }
        let mut rhs_index: usize = 0;
        while rhs_index < n
            invariant
                self.wf(),
                n == self.n(),
                n * n <= usize::MAX,
                self.is_linear_extension(order@),
                mobius@.len() == n * n,
                rhs_index <= n,
                forall|j: int| 0 <= j < rhs_index ==> self.column_ok(mobius@, #[trigger] order@[j] as int),
                forall|j: int| rhs_index <= j < n ==> self.column_zero(mobius@, #[trigger] order@[j] as int),
                self.picks_least_ready(order@),
                forall|i: int, j: int| 0 <= i < j < rhs_index ==> #[trigger] self.pair_fits(order@, as_ints(mobius@), i, j),
            decreases n - rhs_index,
        {
            let rhs = order[rhs_index];
            proof {
                lemma_index(rhs as int, rhs as int, n as int);
                assert(self.column_zero(mobius@, rhs as int));
            }
            let ghost m0 = mobius@;
            mobius.set(rhs * n + rhs, 1);
            proof {
                self.lemma_pairs_after_write(order@, m0, rhs as int, rhs_index as int, 1, 0);
                assert forall|j: int| 0 <= j < rhs_index implies self.column_ok(mobius@, #[trigger] order@[j] as int) by {
                    let c = order@[j] as int;
                    assert(self.column_ok(m0, c));
                    assert forall|x: int| 0 <= x < n implies #[trigger] cell(mobius@, n as int, x, c) as int == self.mobius_entry(mobius@, x, c) by {
                        assert(!self.rel(rhs as int, c));
                        self.lemma_write_frame(m0, rhs as int, rhs as int, 1, x, c);
                        assert(cell(m0, n as int, x, c) as int == self.mobius_entry(m0, x, c));
                    }
                }
                assert forall|j: int| rhs_index < j < n implies self.column_zero(mobius@, #[trigger] order@[j] as int) by {
                    let c = order@[j] as int;
                    assert(self.column_zero(m0, c));
                    assert forall|x: int| 0 <= x < n implies #[trigger] cell(mobius@, n as int, x, c) == 0 by {
                        lemma_index(x, c, n as int);
                        assert(cell(m0, n as int, x, c) == 0);
                    }
                }
                assert forall|i: int| 0 <= i < n && i != rhs_index implies #[trigger] cell(mobius@, n as int, order@[i] as int, rhs as int) == 0 by {
                    lemma_index(order@[i] as int, rhs as int, n as int);
                    assert(order@[i] != rhs);
                    assert(cell(m0, n as int, order@[i] as int, rhs as int) == 0);
                }
            }
            let mut lhs_index: usize = 0;
            while lhs_index < rhs_index
                invariant
                    self.wf(),
                    n == self.n(),
                    n * n <= usize::MAX,
                    self.is_linear_extension(order@),
                    mobius@.len() == n * n,
                    rhs_index < n,
                    rhs == order@[rhs_index as int],
                    lhs_index <= rhs_index,
                    forall|j: int| 0 <= j < rhs_index ==> self.column_ok(mobius@, #[trigger] order@[j] as int),
                    forall|j: int| rhs_index < j < n ==> self.column_zero(mobius@, #[trigger] order@[j] as int),
                    cell(mobius@, n as int, rhs as int, rhs as int) == 1,
                    forall|i: int| 0 <= i < lhs_index ==> #[trigger] cell(mobius@, n as int, order@[i] as int, rhs as int) as int == self.mobius_entry(mobius@, order@[i] as int, rhs as int),
                    forall|i: int| lhs_index <= i < n && i != rhs_index ==> #[trigger] cell(mobius@, n as int, order@[i] as int, rhs as int) == 0,
                    self.picks_least_ready(order@),
                    forall|i: int, j: int| 0 <= i < j < rhs_index ==> #[trigger] self.pair_fits(order@, as_ints(mobius@), i, j),
                    forall|i: int| 0 <= i < lhs_index ==> #[trigger] self.pair_fits(order@, as_ints(mobius@), i, rhs_index as int),
                decreases rhs_index - lhs_index,
            {
                let lhs = order[lhs_index];
                if self.leq(lhs, rhs) {
                    let ghost g = |z: int|
                        if self.rel(lhs as int, z) && self.rel(z, rhs as int) {
                            cell(mobius@, n as int, lhs as int, z) as int
                        } else {
                            0
                        };
                    let mut sum: i128 = 0;
                    let mut middle_index: usize = 0;
                    while middle_index < rhs_index
                        invariant
                            self.wf(),
                            n == self.n(),
                            n * n <= usize::MAX,
                            self.is_linear_extension(order@),
                            mobius@.len() == n * n,
                            rhs_index < n,
                            lhs < n,
                            rhs < n,
                            middle_index <= rhs_index,
                            g == (|z: int|
                                if self.rel(lhs as int, z) && self.rel(z, rhs as int) {
                                    cell(mobius@, n as int, lhs as int, z) as int
                                } else {
                                    0
                                }),
                            sum as int == seq_sum(order@.subrange(0, middle_index as int), g),
                            lhs_index < rhs_index,
                            lhs == order@[lhs_index as int],
                            rhs == order@[rhs_index as int],
                            forall|j: int| 0 <= j < rhs_index ==> self.column_ok(mobius@, #[trigger] order@[j] as int),
                            self.picks_least_ready(order@),
                            self.rel(lhs as int, rhs as int),
                            forall|t: int| 0 <= t <= middle_index ==> i128::MIN <= #[trigger] seq_sum(order@.subrange(0, t), g) <= i128::MAX,
                        decreases rhs_index - middle_index,
                    {
                        let middle = order[middle_index];
                        proof {
                            assert(order@.subrange(0, middle_index + 1).drop_last() =~= order@.subrange(0, middle_index as int));
                        }
                        if self.leq(lhs, middle) && self.leq(middle, rhs) {
                            proof {
                                lemma_index(lhs as int, middle as int, n as int);
                            }
                            match sum.checked_add(mobius[lhs * n + middle]) {
                                Some(value) => {
                                    sum = value;
                                },
                                None => {
                                    proof {
                                        let pre = order@.subrange(0, middle_index + 1);
                                        assert(pre.drop_last() =~= order@.subrange(0, middle_index as int));
                                        assert(seq_sum(pre, g) == sum + g(middle as int));
                                        assert forall|z: int| #[trigger] g(z) == (if self.rel(lhs as int, z) && self.rel(z, order@[rhs_index as int] as int) {
                                            cell(mobius@, n as int, lhs as int, z) as int
                                        } else {
                                            0
                                        }) by {}
                                        self.lemma_overflow_witness(order@, mobius@, rhs_index as int, lhs as int, g, middle_index + 1);
                                        self.lemma_overflow_excludes_all();
                                        self.lemma_running_failure(order@, mobius@, rhs_index as int, lhs_index as int, g, middle_index + 1);
                                        assert forall|o: Seq<usize>, m: Seq<int>|
                                            self.is_linear_extension(o) && #[trigger] self.picks_least_ready(o) && #[trigger] self.is_exact_mobius(m)
                                            implies !self.running_sums_fit(o, m) by {
                                            self.lemma_least_ready_unique(order@, o);
                                        }
                                    }
                                    return Err(Error::MobiusOverflow);
                                },
                            }
                        }
                        middle_index = middle_index + 1;
                    }
                    proof {
                        let prefix = order@.subrange(0, rhs_index as int);
                        assert forall|i: int| 0 <= i < prefix.len() implies #[trigger] prefix[i] < n by {
                            assert(prefix[i] == order@[i]);
                        }
                        assert forall|i: int, j: int| 0 <= i < j < prefix.len() implies prefix[i] != prefix[j] by {
                            assert(prefix[i] == order@[i]);
                            assert(prefix[j] == order@[j]);
                        }
                        lemma_seq_sum_as_range(prefix, g, n as int);
                        let g2 = |z: int| if 0 <= z && prefix.contains(z as usize) { g(z) } else { 0 };
                        let h = |z: int| self.mobius_term(mobius@, lhs as int, rhs as int, z);
                        assert forall|z: int| 0 <= z < n implies #[trigger] g2(z) == h(z) by {
                            if self.rel(lhs as int, z) && self.rel(z, rhs as int) && z != rhs {
                                assert(order@.contains(z as usize));
                                let i = choose|i: int| 0 <= i < order@.len() && order@[i] == z as usize;
                                if i > rhs_index {
                                    assert(!self.rel(order@[i] as int, order@[rhs_index as int] as int));
                                }
                                assert(i != rhs_index);
                                assert(prefix[i] == z as usize);
                                assert(prefix.contains(z as usize));
                            }
                            if prefix.contains(z as usize) {
                                let i = choose|i: int| 0 <= i < prefix.len() && prefix[i] == z as usize;
                                assert(order@[i] == z as usize);
                                assert(z != rhs);
                            }
                        }
                        lemma_range_sum_ext(g2, h, n as int);
                        assert(sum as int == self.mobius_sum(mobius@, lhs as int, rhs as int));
                    }
                    if sum == i128::MIN {
                        proof {
                            assert forall|z: int| #[trigger] g(z) == (if self.rel(lhs as int, z) && self.rel(z, order@[rhs_index as int] as int) {
                                cell(mobius@, n as int, lhs as int, z) as int
                            } else {
                                0
                            }) by {}
                            self.lemma_overflow_witness(order@, mobius@, rhs_index as int, lhs as int, g, rhs_index as int);
                            self.lemma_overflow_excludes_all();
                            self.lemma_running_failure(order@, mobius@, rhs_index as int, lhs_index as int, g, rhs_index as int);
                            assert forall|o: Seq<usize>, m: Seq<int>|
                                self.is_linear_extension(o) && #[trigger] self.picks_least_ready(o) && #[trigger] self.is_exact_mobius(m)
                                implies !self.running_sums_fit(o, m) by {
                                self.lemma_least_ready_unique(order@, o);
                            }
                        }
                        return Err(Error::MobiusOverflow);
                    }
                    let value: i128 = -sum;
                    proof {
                        lemma_index(lhs as int, rhs as int, n as int);
                        assert(lhs != rhs);
                        assert forall|z: int| #[trigger] g(z) == (if self.rel(order@[lhs_index as int] as int, z) && self.rel(z, order@[rhs_index as int] as int) {
                            cell(mobius@, n as int, order@[lhs_index as int] as int, z) as int
                        } else {
                            0
                        }) by {}
                        self.lemma_pair_from_sums(order@, mobius@, lhs_index as int, rhs_index as int, g);
                    }
                    let ghost m1 = mobius@;
                    mobius.set(lhs * n + rhs, value);
                    proof {
                        self.lemma_pairs_after_write(order@, m1, lhs as int, rhs_index as int, value, lhs_index + 1);
                        assert forall|j: int| 0 <= j < rhs_index implies self.column_ok(mobius@, #[trigger] order@[j] as int) by {
                            let c = order@[j] as int;
                            assert(self.column_ok(m1, c));
                            assert forall|x: int| 0 <= x < n implies #[trigger] cell(mobius@, n as int, x, c) as int == self.mobius_entry(mobius@, x, c) by {
                                assert(!self.rel(rhs as int, c));
                                self.lemma_write_frame(m1, lhs as int, rhs as int, value, x, c);
                                assert(cell(m1, n as int, x, c) as int == self.mobius_entry(m1, x, c));
                            }
                        }
                        assert forall|j: int| rhs_index < j < n implies self.column_zero(mobius@, #[trigger] order@[j] as int) by {
                            let c = order@[j] as int;
                            assert(self.column_zero(m1, c));
                            assert forall|x: int| 0 <= x < n implies #[trigger] cell(mobius@, n as int, x, c) == 0 by {
                                lemma_index(x, c, n as int);
                                assert(cell(m1, n as int, x, c) == 0);
                            }
                        }
                        self.lemma_write_frame(m1, lhs as int, rhs as int, value, rhs as int, rhs as int);
                        assert forall|i: int| 0 <= i < lhs_index + 1 implies #[trigger] cell(mobius@, n as int, order@[i] as int, rhs as int) as int == self.mobius_entry(mobius@, order@[i] as int, rhs as int) by {
                            let x = order@[i] as int;
                            if i < lhs_index {
                                assert(x != lhs);
                                self.lemma_write_frame(m1, lhs as int, rhs as int, value, x, rhs as int);
                                assert(cell(m1, n as int, x, rhs as int) as int == self.mobius_entry(m1, x, rhs as int));
                            } else {
                                let m2 = m1.update(lhs * n + rhs, value);
                                assert(mobius@ == m2);
                                assert(cell(m2, n as int, lhs as int, rhs as int) == value);
                                self.lemma_entry_same_after_write(m1, lhs as int, rhs as int, value);
                            }
                        }
                        assert forall|i: int| lhs_index + 1 <= i < n && i != rhs_index implies #[trigger] cell(mobius@, n as int, order@[i] as int, rhs as int) == 0 by {
                            let x = order@[i] as int;
                            lemma_index(x, rhs as int, n as int);
                            assert(x != lhs);
                            assert(cell(m1, n as int, x, rhs as int) == 0);
                        }
                    }
                } else {
                    proof {
                        assert(cell(mobius@, n as int, lhs as int, rhs as int) == 0);
                        assert(lhs != rhs);
                        assert(!self.rel(lhs as int, rhs as int));
                        assert(self.pair_fits(order@, as_ints(mobius@), lhs_index as int, rhs_index as int));
                    }
                }
                lhs_index = lhs_index + 1;
            }
            proof {
                assert forall|x: int| 0 <= x < n implies #[trigger] cell(mobius@, n as int, x, rhs as int) as int == self.mobius_entry(mobius@, x, rhs as int) by {
                    assert(order@.contains(x as usize));
                    let i = choose|i: int| 0 <= i < order@.len() && order@[i] == x as usize;
                    if i > rhs_index {
                        assert(!self.rel(order@[i] as int, order@[rhs_index as int] as int));
                        assert(cell(mobius@, n as int, order@[i] as int, rhs as int) == 0);
                    } else if i == rhs_index {
                    } else {
                        assert(cell(mobius@, n as int, order@[i] as int, rhs as int) as int == self.mobius_entry(mobius@, order@[i] as int, rhs as int));
                    }
                }
                assert(self.column_ok(mobius@, rhs as int));
            }
            rhs_index = rhs_index + 1;
        }
        proof {
            assert forall|x: int, y: int| 0 <= x < n && 0 <= y < n implies #[trigger] cell(mobius@, n as int, x, y) as int == self.mobius_entry(mobius@, x, y) by {
                assert(order@.contains(y as usize));
                let j = choose|j: int| 0 <= j < order@.len() && order@[j] == y as usize;
                assert(self.column_ok(mobius@, order@[j] as int));
            }
        }
        proof {
            self.lemma_mobius_is_exact(mobius@);
            assert(self.running_sums_fit(order@, as_ints(mobius@)));
            assert forall|o: Seq<usize>, m: Seq<int>|
                self.is_linear_extension(o) && #[trigger] self.picks_least_ready(o) && #[trigger] self.is_exact_mobius(m)
                implies self.running_sums_fit(o, m) by {
                self.lemma_least_ready_unique(order@, o);
                self.lemma_exact_mobius_unique(m, as_ints(mobius@));
            }
        }
        Ok(mobius)
    }

    proof fn lemma_entry_same_after_write(&self, m: Seq<i128>, x: int, y: int, v: i128)
        requires
            self.wf(),
            m.len() == self.n() * self.n(),
            0 <= x < self.n(),
            0 <= y < self.n(),
        ensures
            self.mobius_entry(m.update(x * self.n() + y, v), x, y) == self.mobius_entry(m, x, y),
    {
        let n = self.n() as int;
        let m2 = m.update(x * n + y, v);
        let h1 = |z: int| self.mobius_term(m2, x, y, z);
        let h2 = |z: int| self.mobius_term(m, x, y, z);
        assert forall|z: int| 0 <= z < n implies #[trigger] h1(z) == h2(z) by {
            if self.rel(x, z) && self.rel(z, y) && z != y {
                lemma_index(x, z, n);
                lemma_index(x, y, n);
            }
        }
        lemma_range_sum_ext(h1, h2, n);
    }

    /// Returns the number of elements in the poset.
    pub fn size(&self) -> (r: usize)
        ensures
            r == self.n(),
    {
        self.size
    }

    /// Tests whether `lhs` is less than or equal to `rhs`.
    pub fn leq(&self, lhs: usize, rhs: usize) -> (r: bool)
        requires
            self.wf(),
        ensures
            r == (lhs < self.n() && rhs < self.n() && self.rel(lhs as int, rhs as int)),
    {
        if lhs < self.size && rhs < self.size {
            proof {
                lemma_index(lhs as int, rhs as int, self.size as int);
            }
            self.leq[lhs * self.size + rhs]
        } else {
            false
        }
    }
}

} // verus!

use vstd::prelude::*;

use crate::laws::{lemma_first_with_key_found, lemma_last_with_key};
use crate::model::{
    distinct_variables, first_with_key, lemma_ordered, lemma_same_per_key_ordered,
    lemma_terms_with_key_add, lemma_terms_with_key_none, merge_all, merge_fits, merge_term,
    merge_term_fits, negatable, negate_all, ordered, sorted_by_key, terms_with_key, var_key,
};
use crate::ops::{lemma_var_key_injective, ConstraintInput, Term, Variable};

verus! {

/// The terms of `a + b`, where `a` holds the terms of the left side and `b`
/// those of the right side.
pub open spec fn sum_terms<I: ConstraintInput>(a: Seq<Term<I>>, b: Seq<Term<I>>) -> Seq<Term<I>> {
    ordered(merge_all(a, ordered(b)))
}

/// The terms of `a - b`, where `a` holds the terms of the left side and `b`
/// those of the right side.
pub open spec fn difference_terms<I: ConstraintInput>(a: Seq<Term<I>>, b: Seq<Term<I>>) -> Seq<Term<I>> {
    ordered(merge_all(a, ordered(negate_all(ordered(b)))))
}

/// The sum of the coefficients of `s`.
pub open spec fn coefficient_sum<I: ConstraintInput>(s: Seq<Term<I>>) -> int
    decreases s.len(),
{
    if s.len() == 0 {
        0
    } else {
        coefficient_sum(s.drop_last()) + s.last().1
    }
}

/// The coefficient of the variable with key `k` in `s`: the sum of the
/// coefficients of its terms.
pub open spec fn coefficient_at<I: ConstraintInput>(s: Seq<Term<I>>, k: int) -> int {
    coefficient_sum(terms_with_key(s, k))
}

/// Some term of `s` has the variable with key `k`.
pub open spec fn has_key<I: ConstraintInput>(s: Seq<Term<I>>, k: int) -> bool {
    terms_with_key(s, k).len() > 0
}

/// The coefficient of `v` in `s`: the sum of the coefficients of its terms.
pub open spec fn coefficient<I: ConstraintInput>(s: Seq<Term<I>>, v: Variable<I>) -> int {
    coefficient_at(s, var_key(v))
}

/// Some term of `s` has the variable `v`.
pub open spec fn has_variable<I: ConstraintInput>(s: Seq<Term<I>>, v: Variable<I>) -> bool {
    has_key(s, var_key(v))
}

pub(crate) proof fn lemma_coefficient_sum_concat<I: ConstraintInput>(a: Seq<Term<I>>, b: Seq<Term<I>>)
    ensures
        coefficient_sum(a + b) == coefficient_sum(a) + coefficient_sum(b),
    decreases b.len(),
{
    if b.len() == 0 {
        assert(a + b =~= a);
    } else {
        assert((a + b).drop_last() =~= a + b.drop_last());
        lemma_coefficient_sum_concat(a, b.drop_last());
    }
}

pub(crate) proof fn lemma_terms_with_key_single<I: ConstraintInput>(t: Term<I>, k: int)
    ensures
        terms_with_key(seq![t], k) == if var_key(t.0) == k { seq![t] } else { Seq::<Term<I>>::empty() },
        coefficient_sum(seq![t]) == t.1,
{
    let e = Seq::<Term<I>>::empty();
    assert(seq![t].drop_last() =~= e);
    assert(terms_with_key(e, k) == e);
    assert(seq![t].last() == t);
    assert(e.push(t) =~= seq![t]);
    assert(coefficient_sum(e) == 0);
}

/// The terms of `s` with key `k` around the term at `j`.
proof fn lemma_terms_with_key_split<I: ConstraintInput>(s: Seq<Term<I>>, j: int, k: int)
    requires
        0 <= j < s.len(),
    ensures
        terms_with_key(s, k) == terms_with_key(s.take(j), k) + terms_with_key(seq![s[j]], k)
            + terms_with_key(s.skip(j + 1), k),
{
    assert(s =~= s.take(j) + seq![s[j]] + s.skip(j + 1));
    lemma_terms_with_key_add(s.take(j) + seq![s[j]], s.skip(j + 1), k);
    lemma_terms_with_key_add(s.take(j), seq![s[j]], k);
}

/// Every term of `terms_with_key(s, k)` has key `k`.
proof fn lemma_terms_with_key_keys<I: ConstraintInput>(s: Seq<Term<I>>, k: int)
    ensures
        forall|i: int| 0 <= i < terms_with_key(s, k).len() ==> var_key(#[trigger] terms_with_key(s, k)[i].0) == k,
    decreases s.len(),
{
    if s.len() > 0 {
        lemma_terms_with_key_keys(s.drop_last(), k);
    }
}

/// A term of `s` with key `k` makes `terms_with_key(s, k)` nonempty; two make
/// it hold at least two terms.
proof fn lemma_terms_with_key_count<I: ConstraintInput>(s: Seq<Term<I>>, i: int, j: int, k: int)
    requires
        0 <= i < s.len(),
        var_key(s[i].0) == k,
    ensures
        terms_with_key(s, k).len() >= 1,
        i < j < s.len() && var_key(s[j].0) == k ==> terms_with_key(s, k).len() >= 2,
    decreases s.len(),
{
    let rest = s.drop_last();
    if i == s.len() - 1 {
    } else {
        assert(rest[i] == s[i]);
        if j == s.len() - 1 {
            lemma_terms_with_key_count(rest, i, i, k);
        } else {
            if i < j < rest.len() {
                assert(rest[j] == s[j]);
            }
            lemma_terms_with_key_count(rest, i, j, k);
        }
    }
}

/// Distinct variables mean at most one term per key.
proof fn lemma_distinct_per_key<I: ConstraintInput>(s: Seq<Term<I>>)
    ensures
        distinct_variables(s) <==> forall|k: int| #[trigger] terms_with_key(s, k).len() <= 1,
{
    if distinct_variables(s) {
        assert forall|k: int| #[trigger] terms_with_key(s, k).len() <= 1 by {
            if terms_with_key(s, k).len() >= 2 {
                let j = lemma_last_with_key(s, k);
                let p = s.take(j);
                let i = lemma_last_with_key(p, k);
                assert(p[i] == s[i]);
                assert(var_key(s[i].0) == var_key(s[j].0));
            }
        }
    }
    if forall|k: int| #[trigger] terms_with_key(s, k).len() <= 1 {
        assert forall|i: int, j: int| 0 <= i < j < s.len() implies var_key(#[trigger] s[i].0) != var_key(#[trigger] s[j].0) by {
            if var_key(s[i].0) == var_key(s[j].0) {
                lemma_terms_with_key_count(s, i, j, var_key(s[i].0));
                assert(terms_with_key(s, var_key(s[i].0)).len() <= 1);
            }
        }
    }
}

/// Ordering keeps variables distinct.
proof fn lemma_ordered_distinct<I: ConstraintInput>(s: Seq<Term<I>>)
    requires
        distinct_variables(s),
    ensures
        distinct_variables(ordered(s)),
{
    lemma_ordered(s);
    lemma_distinct_per_key(s);
    lemma_distinct_per_key(ordered(s));
    assert forall|k: int| #[trigger] terms_with_key(ordered(s), k).len() <= 1 by {
        assert(terms_with_key(ordered(s), k) == terms_with_key(s, k));
    }
}

/// When `first_with_key` finds nothing, no term has the key.
proof fn lemma_first_with_key_none<I: ConstraintInput>(s: Seq<Term<I>>, k: int)
    ensures
        first_with_key(s, k) == -1 ==> forall|i: int| 0 <= i < s.len() ==> var_key(#[trigger] s[i].0) != k,
    decreases s.len(),
{
    if s.len() > 0 {
        let rest = s.drop_last();
        lemma_first_with_key_none(rest, k);
        lemma_first_with_key_found(rest, k);
        if first_with_key(s, k) == -1 {
            assert forall|i: int| 0 <= i < s.len() implies var_key(#[trigger] s[i].0) != k by {
                if i < rest.len() {
                    assert(rest[i] == s[i]);
                }
            }
        }
    }
}

/// A key that no term has is not found by `first_with_key`.
proof fn lemma_first_with_key_absent<I: ConstraintInput>(s: Seq<Term<I>>, k: int)
    ensures
        first_with_key(s, k) == -1 <==> !has_key(s, k),
{
    lemma_first_with_key_found(s, k);
    let f = first_with_key(s, k);
    if f >= 0 {
        lemma_terms_with_key_count(s, f, f, k);
    } else if has_key(s, k) {
        let j = lemma_last_with_key(s, k);
        lemma_first_with_key_none(s, k);
    }
}

/// Merging one term adds its coefficient to its variable and keeps the others.
proof fn lemma_merge_term_per_key<I: ConstraintInput>(s: Seq<Term<I>>, t: Term<I>, k: int)
    ensures
        has_key(merge_term(s, t), k) == (has_key(s, k) || var_key(t.0) == k),
        merge_term_fits(s, t) ==> coefficient_at(merge_term(s, t), k) == coefficient_at(s, k) + if var_key(t.0) == k {
            t.1 as int
        } else {
            0
        },
{
    let j = first_with_key(s, var_key(t.0));
    lemma_first_with_key_found(s, var_key(t.0));
    lemma_first_with_key_absent(s, var_key(t.0));
    if j >= 0 {
        let x = Term(s[j].0, (s[j].1 + t.1) as i64);
        let u = s.update(j, x);
        lemma_terms_with_key_split(s, j, k);
        lemma_terms_with_key_split(u, j, k);
        assert(u.take(j) =~= s.take(j));
        assert(u.skip(j + 1) =~= s.skip(j + 1));
        lemma_terms_with_key_single(s[j], k);
        lemma_terms_with_key_single(x, k);
        let a = terms_with_key(s.take(j), k);
        let c = terms_with_key(s.skip(j + 1), k);
        lemma_coefficient_sum_concat(a + terms_with_key(seq![s[j]], k), c);
        lemma_coefficient_sum_concat(a, terms_with_key(seq![s[j]], k));
        lemma_coefficient_sum_concat(a + terms_with_key(seq![x], k), c);
        lemma_coefficient_sum_concat(a, terms_with_key(seq![x], k));
        assert(coefficient_sum(Seq::<Term<I>>::empty()) == 0);
    } else {
        assert(s.push(t).drop_last() =~= s);
        if var_key(t.0) == k {
            assert(coefficient_sum(terms_with_key(s, k).push(t)) == coefficient_sum(terms_with_key(s, k)) + t.1) by {
                assert(terms_with_key(s, k).push(t).drop_last() =~= terms_with_key(s, k));
            }
        }
    }
}

/// Merging terms adds their coefficients, variable by variable, and the
/// variables of the result are those of either side.
proof fn lemma_merge_all_per_key<I: ConstraintInput>(s: Seq<Term<I>>, ts: Seq<Term<I>>, k: int)
    ensures
        has_key(merge_all(s, ts), k) == (has_key(s, k) || has_key(ts, k)),
        merge_fits(s, ts) ==> coefficient_at(merge_all(s, ts), k) == coefficient_at(s, k) + coefficient_at(ts, k),
    decreases ts.len(),
{
    if ts.len() == 0 {
        assert(coefficient_sum(Seq::<Term<I>>::empty()) == 0);
    } else {
        let prev = ts.drop_last();
        let t = ts.last();
        lemma_merge_all_per_key(s, prev, k);
        lemma_merge_term_per_key(merge_all(s, prev), t, k);
        if var_key(t.0) == k {
            assert(terms_with_key(ts, k).drop_last() =~= terms_with_key(prev, k));
        }
    }
}

/// Merging into terms with distinct variables keeps them distinct.
proof fn lemma_merge_all_distinct<I: ConstraintInput>(s: Seq<Term<I>>, ts: Seq<Term<I>>)
    requires
        distinct_variables(s),
    ensures
        distinct_variables(merge_all(s, ts)),
    decreases ts.len(),
{
    if ts.len() > 0 {
        let m = merge_all(s, ts.drop_last());
        let t = ts.last();
        lemma_merge_all_distinct(s, ts.drop_last());
        let j = first_with_key(m, var_key(t.0));
        lemma_first_with_key_found(m, var_key(t.0));
        lemma_first_with_key_absent(m, var_key(t.0));
        let r = merge_term(m, t);
        if j >= 0 {
            assert forall|a: int, b: int| 0 <= a < b < r.len() implies var_key(#[trigger] r[a].0) != var_key(#[trigger] r[b].0) by {
                assert(var_key(r[a].0) == var_key(m[a].0));
                assert(var_key(r[b].0) == var_key(m[b].0));
            }
        } else {
            assert forall|a: int, b: int| 0 <= a < b < r.len() implies var_key(#[trigger] r[a].0) != var_key(#[trigger] r[b].0) by {
                if b == m.len() {
                    assert(r[a] == m[a]);
                    if var_key(m[a].0) == var_key(t.0) {
                        lemma_terms_with_key_count(m, a, a, var_key(t.0));
                    }
                } else {
                    assert(r[a] == m[a] && r[b] == m[b]);
                }
            }
        }
    }
}

/// Ordered terms with distinct variables are fixed by which variables they
/// hold and with what coefficients.
proof fn lemma_equal_by_coefficients<I: ConstraintInput>(r1: Seq<Term<I>>, r2: Seq<Term<I>>)
    requires
        sorted_by_key(r1),
        sorted_by_key(r2),
        distinct_variables(r1),
        distinct_variables(r2),
        forall|k: int| #[trigger] has_key(r1, k) == has_key(r2, k),
        forall|k: int| #[trigger] coefficient_at(r1, k) == coefficient_at(r2, k),
    ensures
        r1 == r2,
{
    lemma_distinct_per_key(r1);
    lemma_distinct_per_key(r2);
    assert forall|k: int| #[trigger] terms_with_key(r1, k) == terms_with_key(r2, k) by {
        let w1 = terms_with_key(r1, k);
        let w2 = terms_with_key(r2, k);
        assert(has_key(r1, k) == has_key(r2, k));
        assert(coefficient_at(r1, k) == coefficient_at(r2, k));
        assert(w1.len() <= 1 && w2.len() <= 1);
        if w1.len() == 1 {
            lemma_terms_with_key_keys(r1, k);
            lemma_terms_with_key_keys(r2, k);
            let t1 = w1[0];
            let t2 = w2[0];
            assert(w1 =~= seq![t1]);
            assert(w2 =~= seq![t2]);
            lemma_terms_with_key_single(t1, k);
            lemma_terms_with_key_single(t2, k);
            lemma_var_key_injective(t1.0, t2.0);
            assert(t1 == t2);
        } else {
            assert(w1 =~= w2);
        }
    }
    lemma_same_per_key_ordered(r1, r2);
}

/// In `a + b`, the coefficient of each variable is the sum of its
/// coefficients in `a` and `b`, and the variables are those of either side.
pub proof fn law_add_coefficients<I: ConstraintInput>(a: Seq<Term<I>>, b: Seq<Term<I>>, v: Variable<I>)
    requires
        merge_fits(a, ordered(b)),
    ensures
        coefficient(sum_terms(a, b), v) == coefficient(a, v) + coefficient(b, v),
        has_variable(sum_terms(a, b), v) <==> has_variable(a, v) || has_variable(b, v),
{
    lemma_add_per_key(a, b, var_key(v));
}

proof fn lemma_add_per_key<I: ConstraintInput>(a: Seq<Term<I>>, b: Seq<Term<I>>, k: int)
    requires
        merge_fits(a, ordered(b)),
    ensures
        coefficient_at(sum_terms(a, b), k) == coefficient_at(a, k) + coefficient_at(b, k),
        has_key(sum_terms(a, b), k) == (has_key(a, k) || has_key(b, k)),
{
    lemma_ordered(b);
    lemma_ordered(merge_all(a, ordered(b)));
    assert(terms_with_key(ordered(b), k) == terms_with_key(b, k));
    assert(terms_with_key(sum_terms(a, b), k) == terms_with_key(merge_all(a, ordered(b)), k));
    lemma_merge_all_per_key(a, ordered(b), k);
}

proof fn lemma_negate_per_key<I: ConstraintInput>(s: Seq<Term<I>>, k: int)
    requires
        negatable(s),
    ensures
        coefficient_at(negate_all(s), k) == -coefficient_at(s, k),
        has_key(negate_all(s), k) == has_key(s, k),
    decreases s.len(),
{
    if s.len() > 0 {
        let t = s.last();
        assert(negatable(s.drop_last()));
        assert(negate_all(s).drop_last() =~= negate_all(s.drop_last()));
        lemma_negate_per_key(s.drop_last(), k);
        assert(s[s.len() - 1].1 != i64::MIN);
        if var_key(t.0) == k {
            let w = terms_with_key(s.drop_last(), k);
            let nw = terms_with_key(negate_all(s.drop_last()), k);
            assert(w.push(t).drop_last() =~= w);
            assert(nw.push(negate_all(s).last()).drop_last() =~= nw);
        }
    } else {
        assert(negate_all(s) =~= s);
    }
}

/// In `a - b`, the coefficient of each variable is its coefficient in `a`
/// minus its coefficient in `b`, and the variables are those of either side.
pub proof fn law_sub_coefficients<I: ConstraintInput>(a: Seq<Term<I>>, b: Seq<Term<I>>, v: Variable<I>)
    requires
        negatable(ordered(b)),
        merge_fits(a, ordered(negate_all(ordered(b)))),
    ensures
        coefficient(difference_terms(a, b), v) == coefficient(a, v) - coefficient(b, v),
        has_variable(difference_terms(a, b), v) <==> has_variable(a, v) || has_variable(b, v),
{
    let k = var_key(v);
    let nb = negate_all(ordered(b));
    lemma_add_per_key(a, nb, k);
    lemma_negate_per_key(ordered(b), k);
    lemma_ordered(b);
    lemma_ordered(nb);
    assert(terms_with_key(ordered(b), k) == terms_with_key(b, k));
    assert(terms_with_key(ordered(nb), k) == terms_with_key(nb, k));
    assert(ordered(ordered(nb)) == ordered(nb)) by {
        lemma_ordered(ordered(nb));
        assert(crate::model::is_ordering_of(ordered(nb), ordered(nb)));
    }
}

/// Adding to terms with distinct variables gives terms with distinct
/// variables: repeated variables on the right are merged.
pub proof fn law_add_keeps_distinct<I: ConstraintInput>(a: Seq<Term<I>>, b: Seq<Term<I>>)
    requires
        distinct_variables(a),
    ensures
        distinct_variables(sum_terms(a, b)),
{
    lemma_merge_all_distinct(a, ordered(b));
    lemma_ordered_distinct(merge_all(a, ordered(b)));
}

/// Addition of linear combinations with distinct variables is commutative.
pub proof fn law_add_commutative<I: ConstraintInput>(a: Seq<Term<I>>, b: Seq<Term<I>>)
    requires
        distinct_variables(a),
        distinct_variables(b),
        merge_fits(a, ordered(b)),
        merge_fits(b, ordered(a)),
    ensures
        sum_terms(a, b) == sum_terms(b, a),
{
    law_add_keeps_distinct(a, b);
    law_add_keeps_distinct(b, a);
    lemma_ordered(merge_all(a, ordered(b)));
    lemma_ordered(merge_all(b, ordered(a)));
    assert forall|k: int| #[trigger] has_key(sum_terms(a, b), k) == has_key(sum_terms(b, a), k)
        && coefficient_at(sum_terms(a, b), k) == coefficient_at(sum_terms(b, a), k) by {
        lemma_add_per_key(a, b, k);
        lemma_add_per_key(b, a, k);
    }
    assert forall|k: int| #[trigger] coefficient_at(sum_terms(a, b), k) == coefficient_at(sum_terms(b, a), k) by {
        assert(has_key(sum_terms(a, b), k) == has_key(sum_terms(b, a), k));
    }
    lemma_equal_by_coefficients(sum_terms(a, b), sum_terms(b, a));
}

/// Addition of linear combinations with distinct variables is associative.
pub proof fn law_add_associative<I: ConstraintInput>(a: Seq<Term<I>>, b: Seq<Term<I>>, c: Seq<Term<I>>)
    requires
        distinct_variables(a),
        distinct_variables(b),
        distinct_variables(c),
        merge_fits(a, ordered(b)),
        merge_fits(sum_terms(a, b), ordered(c)),
        merge_fits(b, ordered(c)),
        merge_fits(a, ordered(sum_terms(b, c))),
    ensures
        sum_terms(sum_terms(a, b), c) == sum_terms(a, sum_terms(b, c)),
{
    let l = sum_terms(sum_terms(a, b), c);
    let r = sum_terms(a, sum_terms(b, c));
    law_add_keeps_distinct(a, b);
    law_add_keeps_distinct(sum_terms(a, b), c);
    law_add_keeps_distinct(a, sum_terms(b, c));
    lemma_ordered(merge_all(sum_terms(a, b), ordered(c)));
    lemma_ordered(merge_all(a, ordered(sum_terms(b, c))));
    assert forall|k: int| #[trigger] has_key(l, k) == has_key(r, k) && coefficient_at(l, k) == coefficient_at(r, k) by {
        lemma_add_per_key(a, b, k);
        lemma_add_per_key(sum_terms(a, b), c, k);
        lemma_add_per_key(b, c, k);
        lemma_add_per_key(a, sum_terms(b, c), k);
    }
    assert forall|k: int| #[trigger] coefficient_at(l, k) == coefficient_at(r, k) by {
        assert(has_key(l, k) == has_key(r, k));
    }
    lemma_equal_by_coefficients(l, r);
}

/// Merging terms with distinct variables into no terms never adds two
/// coefficients.
proof fn lemma_merge_into_empty_fits<I: ConstraintInput>(ts: Seq<Term<I>>)
    requires
        distinct_variables(ts),
    ensures
        merge_fits(Seq::<Term<I>>::empty(), ts),
    decreases ts.len(),
{
    if ts.len() > 0 {
        let e = Seq::<Term<I>>::empty();
        let prev = ts.drop_last();
        let k = var_key(ts.last().0);
        assert(distinct_variables(prev));
        lemma_merge_into_empty_fits(prev);
        assert forall|i: int| 0 <= i < prev.len() implies var_key(#[trigger] prev[i].0) != k by {
            assert(prev[i] == ts[i]);
        }
        lemma_terms_with_key_none(prev, k);
        assert(terms_with_key(e, k) == e);
        lemma_merge_all_per_key(e, prev, k);
        lemma_first_with_key_absent(merge_all(e, prev), k);
    }
}

/// Zero is the identity of addition: adding zero on the right changes
/// nothing, and adding a linear combination with distinct variables to zero
/// gives it back (and never overflows).
pub proof fn law_add_zero<I: ConstraintInput>(a: Seq<Term<I>>)
    requires
        sorted_by_key(a),
    ensures
        sum_terms(a, Seq::<Term<I>>::empty()) == a,
        distinct_variables(a) ==> merge_fits(Seq::<Term<I>>::empty(), ordered(a)),
        distinct_variables(a) ==> sum_terms(Seq::<Term<I>>::empty(), a) == a,
{
    let e = Seq::<Term<I>>::empty();
    lemma_ordered(e);
    assert(crate::model::is_ordering_of(e, e));
    lemma_ordered(a);
    assert(crate::model::is_ordering_of(a, a));
    if distinct_variables(a) {
        lemma_merge_into_empty_fits(a);
        let s = sum_terms(e, a);
        assert(distinct_variables(e));
        law_add_keeps_distinct(e, a);
        lemma_ordered(merge_all(e, ordered(a)));
        assert forall|k: int| #[trigger] has_key(s, k) == has_key(a, k) && coefficient_at(s, k) == coefficient_at(a, k) by {
            lemma_add_per_key(e, a, k);
            assert(terms_with_key(e, k) == e);
            assert(coefficient_sum(e) == 0);
        }
        assert forall|k: int| #[trigger] coefficient_at(s, k) == coefficient_at(a, k) by {
            assert(has_key(s, k) == has_key(a, k));
        }
        lemma_equal_by_coefficients(s, a);
    }
}

} // verus!

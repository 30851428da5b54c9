use vstd::arithmetic::mul::{lemma_mul_is_distributive_add_other_way, lemma_mul_unary_negation};
use vstd::prelude::*;
use vstd::std_specs::cmp::PartialOrdIs;

use crate::model::{
    count_vars, eval_terms, first_with_key, is_ordering_of, lemma_ordered, lemma_terms_with_key_add,
    lemma_terms_with_key_none, merge_all, merge_fits,
    merge_term, merge_term_fits, negatable, negate_all, ordered, same_per_key, sorted_by_key, terms_with_key,
    var_key,
};
use crate::ops::{ConstraintInput, Term, Variable};

verus! {

/// The value of a variable under the assignment `w`, which gives each variable
/// a value by its key (distinct variables have distinct keys, see
/// `lemma_var_key_injective`); the constant is one.
pub open spec fn var_value<I: ConstraintInput>(v: Variable<I>, w: spec_fn(int) -> int) -> int {
    if v is Constant {
        1
    } else {
        w(var_key(v))
    }
}

/// The value of the terms `s` under the assignment `w`: the sum of each
/// coefficient times the value of its variable.
pub open spec fn lc_value<I: ConstraintInput>(s: Seq<Term<I>>, w: spec_fn(int) -> int) -> int
    decreases s.len(),
{
    if s.len() == 0 {
        0
    } else {
        lc_value(s.drop_last(), w) + s.last().1 * var_value(s.last().0, w)
    }
}

pub(crate) proof fn lemma_value_concat<I: ConstraintInput>(a: Seq<Term<I>>, b: Seq<Term<I>>, w: spec_fn(int) -> int)
    ensures
        lc_value(a + b, w) == lc_value(a, w) + lc_value(b, w),
    decreases b.len(),
{
    if b.len() == 0 {
        assert(a + b =~= a);
    } else {
        assert((a + b).drop_last() =~= a + b.drop_last());
        lemma_value_concat(a, b.drop_last(), w);
    }
}

pub(crate) proof fn lemma_value_single<I: ConstraintInput>(t: Term<I>, w: spec_fn(int) -> int)
    ensures
        lc_value(seq![t], w) == t.1 * var_value(t.0, w),
{
    assert(seq![t].drop_last() =~= Seq::<Term<I>>::empty());
    assert(lc_value(Seq::<Term<I>>::empty(), w) == 0);
    assert(seq![t].last() == t);
}

/// The value of `s` is that of `s` without the term at `j`, plus that term's.
proof fn lemma_value_split<I: ConstraintInput>(s: Seq<Term<I>>, j: int, w: spec_fn(int) -> int)
    requires
        0 <= j < s.len(),
    ensures
        lc_value(s, w) == lc_value(s.take(j) + s.skip(j + 1), w) + s[j].1 * var_value(s[j].0, w),
{
    assert(s =~= s.take(j) + seq![s[j]] + s.skip(j + 1));
    lemma_value_concat(s.take(j) + seq![s[j]], s.skip(j + 1), w);
    lemma_value_concat(s.take(j), seq![s[j]], w);
    lemma_value_concat(s.take(j), s.skip(j + 1), w);
    lemma_value_single(s[j], w);
}

/// The last term of `s` with key `k`, when `s` has one.
pub(crate) proof fn lemma_last_with_key<I: ConstraintInput>(s: Seq<Term<I>>, k: int) -> (j: int)
    requires
        terms_with_key(s, k).len() > 0,
    ensures
        0 <= j < s.len(),
        var_key(s[j].0) == k,
        s[j] == terms_with_key(s, k).last(),
        terms_with_key(s, k).drop_last() == terms_with_key(s.take(j), k),
        forall|i: int| j < i < s.len() ==> var_key(#[trigger] s[i].0) != k,
    decreases s.len(),
{
    let rest = s.drop_last();
    if var_key(s.last().0) == k {
        assert(s.take(s.len() - 1) =~= rest);
        (s.len() - 1) as int
    } else {
        let j = lemma_last_with_key(rest, k);
        assert(s.take(j) =~= rest.take(j));
        assert forall|i: int| j < i < s.len() implies var_key(#[trigger] s[i].0) != k by {
            if i < s.len() - 1 {
                assert(s[i] == rest[i]);
            }
        }
        j
    }
}

/// Reordering terms, keeping the terms of each variable, keeps the value.
proof fn lemma_same_per_key_value<I: ConstraintInput>(a: Seq<Term<I>>, b: Seq<Term<I>>, w: spec_fn(int) -> int)
    requires
        same_per_key(a, b),
    ensures
        lc_value(a, w) == lc_value(b, w),
    decreases a.len(),
{
    if a.len() == 0 {
        if b.len() > 0 {
            let k = var_key(b.last().0);
            assert(terms_with_key(b, k).len() > 0);
            assert(terms_with_key(a, k) == terms_with_key(b, k));
        }
    } else {
        let x = a.last();
        let k = var_key(x.0);
        let a2 = a.drop_last();
        assert(terms_with_key(a, k) == terms_with_key(a2, k).push(x));
        assert(terms_with_key(a, k) == terms_with_key(b, k));
        let j = lemma_last_with_key(b, k);
        let b2 = b.take(j) + b.skip(j + 1);
        assert(b =~= b.take(j) + seq![b[j]] + b.skip(j + 1));
        assert forall|i: int| 0 <= i < b.skip(j + 1).len() implies var_key(#[trigger] b.skip(j + 1)[i].0) != k by {
            assert(b.skip(j + 1)[i] == b[j + 1 + i]);
        }
        lemma_terms_with_key_none(b.skip(j + 1), k);
        assert forall|k2: int| #[trigger] terms_with_key(a2, k2) == terms_with_key(b2, k2) by {
            lemma_terms_with_key_add(b.take(j) + seq![b[j]], b.skip(j + 1), k2);
            lemma_terms_with_key_add(b.take(j), seq![b[j]], k2);
            lemma_terms_with_key_add(b.take(j), b.skip(j + 1), k2);
            assert(seq![b[j]].drop_last() =~= Seq::<Term<I>>::empty());
            assert(terms_with_key(a, k2) == terms_with_key(b, k2));
            let e = Seq::<Term<I>>::empty();
            assert(terms_with_key(e, k2) == e);
            if k2 == k {
                assert(terms_with_key(b2, k) =~= terms_with_key(b.take(j), k) + e);
            } else {
                assert(terms_with_key(seq![b[j]], k2) == e);
                assert(terms_with_key(b, k2) =~= terms_with_key(b.take(j), k2) + terms_with_key(b.skip(j + 1), k2));
            }
        }
        lemma_same_per_key_value(a2, b2, w);
        lemma_value_split(b, j, w);
    }
}

/// Ordering a sequence of terms keeps its value.
pub proof fn law_ordering_keeps_value<I: ConstraintInput>(s: Seq<Term<I>>, w: spec_fn(int) -> int)
    ensures
        lc_value(ordered(s), w) == lc_value(s, w),
{
    lemma_ordered(s);
    lemma_same_per_key_value(ordered(s), s, w);
}

pub(crate) proof fn lemma_first_with_key_found<I: ConstraintInput>(s: Seq<Term<I>>, k: int)
    ensures
        first_with_key(s, k) >= 0 ==> 0 <= first_with_key(s, k) < s.len() && var_key(s[first_with_key(s, k)].0) == k,
        first_with_key(s, k) < 0 ==> first_with_key(s, k) == -1,
    decreases s.len(),
{
    if s.len() > 0 {
        lemma_first_with_key_found(s.drop_last(), k);
        let f = first_with_key(s.drop_last(), k);
        if f >= 0 {
            assert(s.drop_last()[f] == s[f]);
        }
    }
}

/// Merging a term adds its value.
proof fn lemma_merge_term_value<I: ConstraintInput>(s: Seq<Term<I>>, t: Term<I>, w: spec_fn(int) -> int)
    requires
        merge_term_fits(s, t),
    ensures
        lc_value(merge_term(s, t), w) == lc_value(s, w) + t.1 * var_value(t.0, w),
{
    let j = first_with_key(s, var_key(t.0));
    lemma_first_with_key_found(s, var_key(t.0));
    if j >= 0 {
        let u = s.update(j, Term(s[j].0, (s[j].1 + t.1) as i64));
        lemma_value_split(s, j, w);
        lemma_value_split(u, j, w);
        assert(u.take(j) =~= s.take(j));
        assert(u.skip(j + 1) =~= s.skip(j + 1));
        assert(var_value(s[j].0, w) == var_value(t.0, w)) by {
            crate::ops::lemma_var_key_bound(s[j].0);
            crate::ops::lemma_var_key_bound(t.0);
        }
        lemma_mul_is_distributive_add_other_way(var_value(t.0, w), s[j].1 as int, t.1 as int);
    } else {
        assert(s.push(t).drop_last() =~= s);
    }
}

/// Merging terms one by one adds their values.
proof fn lemma_merge_all_value<I: ConstraintInput>(s: Seq<Term<I>>, ts: Seq<Term<I>>, w: spec_fn(int) -> int)
    requires
        merge_fits(s, ts),
    ensures
        lc_value(merge_all(s, ts), w) == lc_value(s, w) + lc_value(ts, w),
    decreases ts.len(),
{
    if ts.len() > 0 {
        lemma_merge_all_value(s, ts.drop_last(), w);
        lemma_merge_term_value(merge_all(s, ts.drop_last()), ts.last(), w);
    }
}

/// Negating every coefficient negates the value.
proof fn lemma_negate_value<I: ConstraintInput>(s: Seq<Term<I>>, w: spec_fn(int) -> int)
    requires
        negatable(s),
    ensures
        lc_value(negate_all(s), w) == -lc_value(s, w),
    decreases s.len(),
{
    if s.len() > 0 {
        let t = s.last();
        assert(negatable(s.drop_last()));
        assert(negate_all(s).drop_last() =~= negate_all(s.drop_last()));
        lemma_negate_value(s.drop_last(), w);
        assert(s[s.len() - 1].1 != i64::MIN);
        lemma_mul_unary_negation(t.1 as int, var_value(t.0, w));
    }
}

/// The value of a sum is the sum of the values: this is the value of
/// `a + b` for a linear combination, a term or a variable `a`, whose terms
/// are `a`, and any `b` whose terms are `b`.
pub proof fn law_add_is_sum<I: ConstraintInput>(a: Seq<Term<I>>, b: Seq<Term<I>>, w: spec_fn(int) -> int)
    requires
        merge_fits(a, ordered(b)),
    ensures
        lc_value(ordered(merge_all(a, ordered(b))), w) == lc_value(a, w) + lc_value(b, w),
{
    law_ordering_keeps_value(merge_all(a, ordered(b)), w);
    lemma_merge_all_value(a, ordered(b), w);
    law_ordering_keeps_value(b, w);
}

/// The value of a negation is the negated value: this is the value of `-a`
/// for a linear combination whose terms are `a`.
pub proof fn law_neg_is_negation<I: ConstraintInput>(a: Seq<Term<I>>, w: spec_fn(int) -> int)
    requires
        negatable(a),
    ensures
        lc_value(ordered(negate_all(a)), w) == -lc_value(a, w),
{
    law_ordering_keeps_value(negate_all(a), w);
    lemma_negate_value(a, w);
}

/// The value of a difference is the difference of the values: this is the
/// value of `a - b` for a linear combination whose terms are `a`, and any `b`
/// whose terms are `b`.
pub proof fn law_sub_is_difference<I: ConstraintInput>(a: Seq<Term<I>>, b: Seq<Term<I>>, w: spec_fn(int) -> int)
    requires
        negatable(ordered(b)),
        merge_fits(a, ordered(negate_all(ordered(b)))),
    ensures
        lc_value(ordered(merge_all(a, ordered(negate_all(ordered(b))))), w) == lc_value(a, w) - lc_value(b, w),
{
    law_ordering_keeps_value(merge_all(a, ordered(negate_all(ordered(b)))), w);
    lemma_merge_all_value(a, ordered(negate_all(ordered(b))), w);
    law_neg_is_negation(ordered(b), w);
    law_ordering_keeps_value(b, w);
}

/// Ordering terms that are already ordered changes nothing: building a
/// linear combination from the terms of another gives the same terms.
pub proof fn law_ordering_ordered_is_identity<I: ConstraintInput>(s: Seq<Term<I>>)
    requires
        sorted_by_key(s),
    ensures
        ordered(s) == s,
{
    lemma_ordered(s);
    assert(is_ordering_of(s, s));
}

/// Negating twice gives back the linear combination.
pub proof fn law_neg_twice<I: ConstraintInput>(a: Seq<Term<I>>)
    requires
        sorted_by_key(a),
        negatable(a),
    ensures
        negatable(ordered(negate_all(a))),
        ordered(negate_all(ordered(negate_all(a)))) == a,
{
    let n = negate_all(a);
    assert(sorted_by_key(n)) by {
        assert forall|i: int, j: int| 0 <= i <= j < n.len() implies var_key(#[trigger] n[i].0) <= var_key(#[trigger] n[j].0) by {
            assert(var_key(a[i].0) <= var_key(a[j].0));
        }
    }
    law_ordering_ordered_is_identity(n);
    assert forall|i: int| 0 <= i < n.len() implies (#[trigger] n[i]).1 != i64::MIN by {
        assert(a[i].1 != i64::MIN);
    }
    let nn = negate_all(n);
    assert(nn =~= a) by {
        assert forall|i: int| 0 <= i < a.len() implies nn[i] == a[i] by {
            assert(a[i].1 != i64::MIN);
        }
    }
    law_ordering_ordered_is_identity(a);
}

/// `evaluate` computes the value of the linear combination: its result is
/// the value of the terms under any assignment `w` that gives the variable of
/// each term that is not the constant the value at that term's position among
/// such terms.
pub proof fn law_evaluate_is_value<I: ConstraintInput>(s: Seq<Term<I>>, vals: Seq<int>, w: spec_fn(int) -> int)
    requires
        forall|i: int| 0 <= i < s.len() && !((#[trigger] s[i]).0 is Constant)
            ==> w(var_key(s[i].0)) == vals[count_vars(s.take(i)) as int],
    ensures
        eval_terms(s, vals) == lc_value(s, w),
    decreases s.len(),
{
    if s.len() > 0 {
        let prev = s.drop_last();
        assert forall|i: int| 0 <= i < prev.len() && !((#[trigger] prev[i]).0 is Constant)
            implies w(var_key(prev[i].0)) == vals[count_vars(prev.take(i)) as int] by {
            assert(prev[i] == s[i]);
            assert(prev.take(i) =~= s.take(i));
        }
        law_evaluate_is_value(prev, vals, w);
        let t = s.last();
        assert(s.take(s.len() - 1) =~= prev);
        if !(t.0 is Constant) {
            assert(!(s[s.len() - 1].0 is Constant));
            assert(t.1 * vals[count_vars(prev) as int] == t.1 * w(var_key(t.0)));
        }
    }
}

/// Variables are ordered inputs first, in the input type's order, then
/// auxiliaries, by index, then the constant.
pub proof fn law_variable_order<I: ConstraintInput>(i: I, j: I, a: usize, b: usize)
    ensures
        var_key(Variable::<I>::Input(i)) < var_key(Variable::<I>::Auxiliary(a)),
        var_key(Variable::<I>::Auxiliary(a)) < var_key(Variable::<I>::Constant),
        var_key(Variable::<I>::Input(i)) < var_key(Variable::<I>::Input(j)) <==> i.is_lt(&j),
        var_key(Variable::<I>::Input(i)) == var_key(Variable::<I>::Input(j)) <==> i == j,
        var_key(Variable::<I>::Auxiliary(a)) <= var_key(Variable::<I>::Auxiliary(b)) <==> a <= b,
{
    I::lemma_index_order(i, j);
    I::lemma_index_injective(i, j);
}

} // verus!

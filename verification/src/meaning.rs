use vstd::prelude::*;

use crate::algebra::{
    coefficient, coefficient_sum, has_variable, lemma_coefficient_sum_concat, lemma_terms_with_key_single,
};
use crate::arith::IntoLC;
use crate::laws::{lc_value, lemma_value_concat, lemma_value_single, var_value};
use crate::field::JoltField;
use crate::model::{count_vars, eval_terms, field_values, var_key};
use crate::ops::{lemma_var_key_injective, ConstraintInput, Term, Variable};

verus! {

/// The terms of `s` whose variable is an input or an auxiliary, in order,
/// whatever their coefficients.
pub open spec fn variable_terms<I: ConstraintInput>(s: Seq<Term<I>>) -> Seq<Term<I>> {
    s.filter(|t: Term<I>| !(t.0 is Constant))
}

/// The terms of `s` whose variable is the constant, in order.
pub open spec fn constant_terms<I: ConstraintInput>(s: Seq<Term<I>>) -> Seq<Term<I>> {
    s.filter(|t: Term<I>| t.0 is Constant)
}

/// The sum of each coefficient of `ts` times the value at the same position
/// in `vals`.
pub open spec fn weighted_sum<I: ConstraintInput>(ts: Seq<Term<I>>, vals: Seq<int>) -> int
    decreases ts.len(),
{
    if ts.len() == 0 {
        0
    } else {
        weighted_sum(ts.drop_last(), vals) + ts.last().1 * vals[ts.len() - 1]
    }
}

proof fn lemma_filters_step<I: ConstraintInput>(s: Seq<Term<I>>)
    requires
        s.len() > 0,
    ensures
        variable_terms(s) == if s.last().0 is Constant {
            variable_terms(s.drop_last())
        } else {
            variable_terms(s.drop_last()).push(s.last())
        },
        constant_terms(s) == if s.last().0 is Constant {
            constant_terms(s.drop_last()).push(s.last())
        } else {
            constant_terms(s.drop_last())
        },
{
    reveal(Seq::filter);
}

/// `num_vars` counts every term whose variable is an input or an auxiliary,
/// whatever its coefficient, zero included.
pub proof fn law_num_vars_counts_variable_terms<I: ConstraintInput>(s: Seq<Term<I>>)
    ensures
        count_vars(s) == variable_terms(s).len(),
    decreases s.len(),
{
    if s.len() == 0 {
        reveal(Seq::filter);
    } else {
        lemma_filters_step(s);
        law_num_vars_counts_variable_terms(s.drop_last());
    }
}

/// `evaluate` pairs the k-th term whose variable is an input or an auxiliary
/// (in the order of the terms, zero coefficients included) with `vals[k]`, and
/// adds the coefficients of the constant terms.
pub proof fn law_evaluate_pairs_in_order<I: ConstraintInput>(s: Seq<Term<I>>, vals: Seq<int>)
    ensures
        eval_terms(s, vals) == coefficient_sum(constant_terms(s)) + weighted_sum(variable_terms(s), vals),
    decreases s.len(),
{
    if s.len() == 0 {
        reveal(Seq::filter);
        assert(coefficient_sum(Seq::<Term<I>>::empty()) == 0);
    } else {
        let prev = s.drop_last();
        let t = s.last();
        lemma_filters_step(s);
        law_evaluate_pairs_in_order(prev, vals);
        law_num_vars_counts_variable_terms(prev);
        if t.0 is Constant {
            assert(constant_terms(prev).push(t).drop_last() =~= constant_terms(prev));
        } else {
            assert(variable_terms(prev).push(t).drop_last() =~= variable_terms(prev));
        }
    }
}

/// A constant stands for the linear combination whose only variable is the
/// constant, with the constant as its coefficient: its value is the constant
/// under every assignment.
pub proof fn law_constant_stands_for_itself<I: ConstraintInput>(c: i64, w: spec_fn(int) -> int, v: Variable<I>)
    ensures
        lc_value(<i64 as IntoLC<I>>::lc_terms(c), w) == c,
        coefficient(<i64 as IntoLC<I>>::lc_terms(c), Variable::<I>::Constant) == c,
        !(v is Constant) ==> !has_variable(<i64 as IntoLC<I>>::lc_terms(c), v),
{
    let ts = <i64 as IntoLC<I>>::lc_terms(c);
    lemma_single_term(Term(Variable::<I>::Constant, c), w, v);
}

/// A variable stands for the linear combination of that variable alone, with
/// coefficient one: its value is the variable's value.
pub proof fn law_variable_stands_for_itself<I: ConstraintInput>(x: Variable<I>, w: spec_fn(int) -> int, v: Variable<I>)
    ensures
        lc_value(x.lc_terms(), w) == var_value(x, w),
        coefficient(x.lc_terms(), x) == 1,
        v != x ==> !has_variable(x.lc_terms(), v),
{
    lemma_single_term(Term(x, 1), w, v);
}

/// A term stands for the linear combination of that term alone: its variable
/// with its own coefficient.
pub proof fn law_term_stands_for_itself<I: ConstraintInput>(t: Term<I>, w: spec_fn(int) -> int, v: Variable<I>)
    ensures
        lc_value(t.lc_terms(), w) == t.1 * var_value(t.0, w),
        coefficient(t.lc_terms(), t.0) == t.1,
        v != t.0 ==> !has_variable(t.lc_terms(), v),
{
    lemma_single_term(t, w, v);
}

/// A vector of terms stands for the linear combination of all its terms.
pub proof fn law_vec_stands_for_its_terms<I: ConstraintInput>(ts: Vec<Term<I>>, w: spec_fn(int) -> int, v: Variable<I>)
    ensures
        lc_value(ts.lc_terms(), w) == lc_value(ts@, w),
        coefficient(ts.lc_terms(), v) == coefficient(ts@, v),
        has_variable(ts.lc_terms(), v) == has_variable(ts@, v),
        ts.lc_terms().len() == ts@.len(),
{
}

/// The sums used to state values are additive over concatenation, and on a
/// single term they are its coefficient, its value, and its coefficient times
/// the value at its position.
pub proof fn law_sums_are_additive<I: ConstraintInput>(
    a: Seq<Term<I>>,
    b: Seq<Term<I>>,
    t: Term<I>,
    w: spec_fn(int) -> int,
    vals: Seq<int>,
)
    ensures
        coefficient_sum(Seq::<Term<I>>::empty()) == 0,
        coefficient_sum(a + b) == coefficient_sum(a) + coefficient_sum(b),
        coefficient_sum(seq![t]) == t.1,
        lc_value(Seq::<Term<I>>::empty(), w) == 0,
        lc_value(a + b, w) == lc_value(a, w) + lc_value(b, w),
        lc_value(seq![t], w) == term_value(t, w),
        weighted_sum(Seq::<Term<I>>::empty(), vals) == 0,
        weighted_sum(a.push(t), vals) == weighted_sum(a, vals) + t.1 * vals[a.len() as int],
{
    lemma_coefficient_sum_concat(a, b);
    lemma_terms_with_key_single(t, 0);
    lemma_value_concat(a, b, w);
    lemma_value_single(t, w);
    assert(a.push(t).drop_last() =~= a);
}

/// The values that `evaluate` uses are the canonical values of the given
/// field elements, position by position.
pub proof fn law_field_values<F: JoltField>(values: Seq<F>, k: int)
    ensures
        field_values(values).len() == values.len(),
        0 <= k < values.len() ==> field_values(values)[k] == values[k].value() as int,
{
}

/// The value of a term under the assignment `w`.
pub open spec fn term_value<I: ConstraintInput>(t: Term<I>, w: spec_fn(int) -> int) -> int {
    t.1 * var_value(t.0, w)
}

/// A constant, a variable, and a variable with a coefficient become the terms
/// that stand for them: same variable, and the value that they have.
pub proof fn law_term_conversions<I: ConstraintInput>(c: i64, x: Variable<I>, w: spec_fn(int) -> int)
    ensures
        (<Term<I> as vstd::std_specs::convert::FromSpec<i64>>::from_spec(c)).0 is Constant,
        term_value(<Term<I> as vstd::std_specs::convert::FromSpec<i64>>::from_spec(c), w) == c,
        (<Term<I> as vstd::std_specs::convert::FromSpec<Variable<I>>>::from_spec(x)).0 == x,
        term_value(<Term<I> as vstd::std_specs::convert::FromSpec<Variable<I>>>::from_spec(x), w) == var_value(x, w),
        (<Term<I> as vstd::std_specs::convert::FromSpec<(Variable<I>, i64)>>::from_spec((x, c))).0 == x,
        term_value(<Term<I> as vstd::std_specs::convert::FromSpec<(Variable<I>, i64)>>::from_spec((x, c)), w) == c * var_value(x, w),
{
}

/// A variable times a coefficient, on either side, is the term of that
/// variable whose value is the coefficient times the variable's value.
pub proof fn law_variable_times_coefficient<I: ConstraintInput>(c: i64, x: Variable<I>, w: spec_fn(int) -> int)
    ensures
        (<Variable<I> as vstd::std_specs::ops::MulSpec<i64>>::mul_spec(x, c)).0 == x,
        term_value(<Variable<I> as vstd::std_specs::ops::MulSpec<i64>>::mul_spec(x, c), w) == c * var_value(x, w),
        (<i64 as vstd::std_specs::ops::MulSpec<Variable<I>>>::mul_spec(c, x)).0 == x,
        term_value(<i64 as vstd::std_specs::ops::MulSpec<Variable<I>>>::mul_spec(c, x), w) == c * var_value(x, w),
{
}

/// Negating a term keeps its variable and negates its value.
pub proof fn law_term_negation<I: ConstraintInput>(t: Term<I>, w: spec_fn(int) -> int)
    requires
        t.1 != i64::MIN,
    ensures
        (<Term<I> as vstd::std_specs::ops::NegSpec>::neg_spec(t)).0 == t.0,
        term_value(<Term<I> as vstd::std_specs::ops::NegSpec>::neg_spec(t), w) == -term_value(t, w),
{
    vstd::arithmetic::mul::lemma_mul_unary_negation(t.1 as int, var_value(t.0, w));
}

proof fn lemma_single_term<I: ConstraintInput>(t: Term<I>, w: spec_fn(int) -> int, v: Variable<I>)
    ensures
        lc_value(seq![t], w) == t.1 * var_value(t.0, w),
        coefficient(seq![t], t.0) == t.1,
        v != t.0 ==> !has_variable(seq![t], v),
{
    assert(seq![t].drop_last() =~= Seq::<Term<I>>::empty());
    assert(lc_value(Seq::<Term<I>>::empty(), w) == 0);
    assert(seq![t].last() == t);
    lemma_terms_with_key_single(t, var_key(t.0));
    lemma_terms_with_key_single(t, var_key(v));
    lemma_var_key_injective(v, t.0);
}

} // verus!

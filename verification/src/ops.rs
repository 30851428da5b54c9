use vstd::arithmetic::div_mod::{lemma_add_mod_noop, lemma_mul_mod_noop_right, lemma_sub_mod_noop};
use vstd::prelude::*;
use vstd::std_specs::cmp::PartialOrdIs;

use crate::field::JoltField;
use crate::model::{
    count_vars, distinct_variables, eval_terms, field_values, is_ordering_of, key_stride,
    lemma_count_vars_prefix, lemma_first_with_key, lemma_insert_ordered, lemma_merge_fits_prefix,
    lemma_ordered, merge_all, merge_fits, negatable, negate_all, ordered, repeats_earlier,
    sorted_by_key, var_key,
};

verus! {

/// An input of a constraint system, identified by its index.
///
/// Distinct inputs have distinct indices (`lemma_index_injective`), and the
/// order of indices is the input type's own order (`lemma_index_order`); for
/// enum inputs indexed by their position both hold. An implementation gives
/// the index twice: `index` for proofs and `to_index` to compute it; both
/// return the same.
pub trait ConstraintInput: Copy + PartialOrd + Sized {
    /// The index that identifies this input.
    spec fn index(&self) -> usize;

    /// Inputs with the same index are the same input.
    proof fn lemma_index_injective(a: Self, b: Self)
        ensures
            a.index() == b.index() ==> a == b,
    ;

    /// An input comes before another in the input type's order exactly when
    /// its index is smaller.
    proof fn lemma_index_order(a: Self, b: Self)
        ensures
            a.index() < b.index() <==> a.is_lt(&b),
    ;

    /// Returns the index of this input.
    fn to_index(&self) -> (r: usize)
        ensures
            r == self.index(),
    ;
}

/// A variable of a constraint system.
///
/// Variables are ordered inputs first (in the input type's order), then
/// auxiliaries (by index), then the constant.
#[derive(Clone, Copy, Debug, PartialEq, Eq, PartialOrd, Ord)]
pub enum Variable<I: ConstraintInput> {
    Input(I),
    Auxiliary(usize),
    Constant,
}

/// A variable together with its coefficient.
///
/// Its derived `Debug` text is the struct's fields; the `coefficient*variable`
/// form is `format_term` of the companion app crate.
#[derive(Clone, Copy, Debug, PartialEq)]
pub struct Term<I: ConstraintInput>(pub Variable<I>, pub i64);

/// A linear combination of terms, kept ordered by variable.
///
/// Its derived `Debug` text is the struct's fields; the `LC(t1 + t2 + ...)`
/// form is `lc_text` of the term texts (see `format_lc` of the companion app
/// crate).
#[derive(Debug)]
pub struct LC<I: ConstraintInput>(Vec<Term<I>>);

impl<I: ConstraintInput> View for LC<I> {
    type V = Seq<Term<I>>;

    closed spec fn view(&self) -> Seq<Term<I>> {
        self.0@
    }
}

/// The rank of a variable's kind and its index within that kind.
fn variable_rank<I: ConstraintInput>(v: &Variable<I>) -> (r: (u8, usize))
    ensures
        r.0 <= 2,
        var_key(*v) == r.0 * key_stride() + r.1,
{
    match v {
        Variable::Input(i) => (0, i.to_index()),
        Variable::Auxiliary(a) => (1, *a),
        Variable::Constant => (2, 0),
    }
}

/// Variables with the same key are the same variable.
pub proof fn lemma_var_key_injective<I: ConstraintInput>(u: Variable<I>, v: Variable<I>)
    ensures
        var_key(u) == var_key(v) ==> u == v,
{
    if let (Variable::Input(i), Variable::Input(j)) = (u, v) {
        I::lemma_index_injective(i, j);
    }
}

/// Keys lie between zero and the constant's key, which only the constant has.
pub proof fn lemma_var_key_bound<I: ConstraintInput>(v: Variable<I>)
    ensures
        0 <= var_key(v) <= 2 * key_stride(),
        var_key(v) == 2 * key_stride() <==> v is Constant,
{
}

/// Whether `a` comes no later than `b` in the order of variables.
fn variable_le<I: ConstraintInput>(a: &Variable<I>, b: &Variable<I>) -> (r: bool)
    ensures
        r == (var_key(*a) <= var_key(*b)),
{
    let (ta, ia) = variable_rank(a);
    let (tb, ib) = variable_rank(b);
    ta < tb || (ta == tb && ia <= ib)
}

/// Whether `a` and `b` are the same variable.
fn variable_eq<I: ConstraintInput>(a: &Variable<I>, b: &Variable<I>) -> (r: bool)
    ensures
        r == (var_key(*a) == var_key(*b)),
{
    let (ta, ia) = variable_rank(a);
    let (tb, ib) = variable_rank(b);
    ta == tb && ia == ib
}

impl<I: ConstraintInput> LC<I> {
    /// The terms are ordered by variable.
    #[verifier::type_invariant]
    pub(crate) open spec fn well_ordered(self) -> bool {
        sorted_by_key(self@)
    }

    /// Builds a linear combination from `terms`, ordering them by variable.
    /// Terms with the same variable keep their relative order.
    pub fn new(terms: Vec<Term<I>>) -> (r: Self)
        ensures
            is_ordering_of(r@, terms@),
            r@ == ordered(terms@),
    {
        let mut sorted: Vec<Term<I>> = Vec::new();
        let n = terms.len();
        for i in 0..n
            invariant
                n == terms@.len(),
                is_ordering_of(sorted@, terms@.take(i as int)),
        {
            let t = terms[i];
            let mut pos: usize = 0;
            while pos < sorted.len() && variable_le(&sorted[pos].0, &t.0)
                invariant
                    pos <= sorted@.len(),
                    forall|j: int| 0 <= j < pos ==> var_key(#[trigger] sorted@[j].0) <= var_key(t.0),
                decreases sorted@.len() - pos,
            {
                pos = pos + 1;
            }
            proof {
                lemma_insert_ordered(sorted@, terms@.take(i as int), t, pos as int);
                assert(terms@.take(i as int).push(t) =~= terms@.take(i + 1));
            }
            sorted.insert(pos, t);
        }
        proof {
            assert(terms@.take(n as int) =~= terms@);
            lemma_ordered(terms@);
        }
        LC(sorted)
    }

    /// The linear combination with no terms.
    pub fn zero() -> (r: Self)
        ensures
            r@ == Seq::<Term<I>>::empty(),
    {
        let r = LC::new(Vec::new());
        proof {
            assert(r@.len() == 0) by {
                if r@.len() > 0 {
                    let k = var_key(r@.last().0);
                    assert(r@.drop_last() =~= r@.take(r@.len() - 1));
                    assert(crate::model::terms_with_key(r@, k).len() > 0);
                    assert(crate::model::terms_with_key(Seq::<Term<I>>::empty(), k).len() == 0);
                }
            }
        }
        r
    }

    /// The terms, ordered by variable.
    pub fn terms(&self) -> (r: &[Term<I>])
        ensures
            r@ == self@,
            sorted_by_key(r@),
    {
        proof {
            use_type_invariant(self);
        }
        self.0.as_slice()
    }

    /// The term of the constant, if the linear combination has one: being
    /// last in the order of variables, it is the last term.
    pub fn constant_term(&self) -> (r: Option<&Term<I>>)
        ensures
            r is Some <==> exists|i: int| 0 <= i < self@.len() && (#[trigger] self@[i]).0 is Constant,
            r matches Some(t) ==> *t == self@.last() && t.0 is Constant,
    {
        proof {
            use_type_invariant(self);
        }
        let n = self.0.len();
        if n > 0 {
            let last = &self.0[n - 1];
            if let Variable::Constant = last.0 {
                return Some(last);
            }
            proof {
                assert forall|i: int| 0 <= i < self@.len() implies !((#[trigger] self@[i]).0 is Constant) by {
                    assert(var_key(self@[i].0) <= var_key(self@[n - 1].0));
                    lemma_var_key_bound(self@[n - 1].0);
                }
            }
        }
        None
    }

    /// `self` with the terms of `other` merged in, in order, then ordered.
    pub(crate) fn add_lc(self, other: &LC<I>) -> (r: LC<I>)
        requires
            merge_fits(self@, other@),
        ensures
            r@ == ordered(merge_all(self@, other@)),
    {
        let mut combined = self.0;
        let n = other.0.len();
        for i in 0..n
            invariant
                n == other@.len(),
                merge_fits(self@, other@),
                combined@ == merge_all(self@, other@.take(i as int)),
        {
            let ot = other.0[i];
            proof {
                lemma_merge_fits_prefix(self@, other@, i + 1);
                assert(other@.take(i + 1).drop_last() =~= other@.take(i as int));
            }
            let mut j: usize = 0;
            while j < combined.len() && !variable_eq(&combined[j].0, &ot.0)
                invariant
                    j <= combined@.len(),
                    forall|m: int| 0 <= m < j ==> var_key(#[trigger] combined@[m].0) != var_key(ot.0),
                decreases combined@.len() - j,
            {
                j = j + 1;
            }
            proof {
                lemma_first_with_key(combined@, var_key(ot.0), j as int);
            }
            if j < combined.len() {
                let t = combined[j];
                combined.set(j, Term(t.0, t.1 + ot.1));
            } else {
                combined.push(ot);
            }
        }
        proof {
            assert(other@.take(n as int) =~= other@);
        }
        let r = LC::new(combined);
        proof {
            lemma_ordered(merge_all(self@, other@));
        }
        r
    }

    /// Every coefficient negated, then ordered.
    pub(crate) fn negated(self) -> (r: LC<I>)
        requires
            negatable(self@),
        ensures
            r@ == ordered(negate_all(self@)),
    {
        let mut terms: Vec<Term<I>> = Vec::new();
        for i in 0..self.0.len()
            invariant
                negatable(self@),
                terms@ == negate_all(self@.take(i as int)),
        {
            let t = self.0[i];
            terms.push(Term(t.0, -t.1));
            proof {
                assert(negate_all(self@.take(i + 1)) =~= negate_all(self@.take(i as int)).push(Term(t.0, (-t.1) as i64)));
            }
        }
        proof {
            assert(self@.take(self@.len() as int) =~= self@);
        }
        LC::new(terms)
    }

    /// The coefficients, as field elements.
    pub fn to_field_elements<F: JoltField>(&self) -> (r: Vec<F>)
        requires
            negatable(self@),
        ensures
            r@.len() == self@.len(),
            forall|i: int| 0 <= i < r@.len() ==> (#[trigger] r@[i]).value() as int == self@[i].1 as int % (F::modulus() as int),
    {
        let mut r: Vec<F> = Vec::new();
        for i in 0..self.0.len()
            invariant
                negatable(self@),
                r@.len() == i,
                forall|j: int| 0 <= j < i ==> (#[trigger] r@[j]).value() as int == self@[j].1 as int % (F::modulus() as int),
        {
            r.push(from_i64::<F>(self.0[i].1));
        }
        r
    }

    /// The value of the linear combination when its input and auxiliary
    /// variables take, in the order of its terms, the values `values`.
    pub fn evaluate<F: JoltField>(&self, values: &[F]) -> (r: F)
        requires
            values@.len() == count_vars(self@),
            negatable(self@),
        ensures
            r.value() as int == eval_terms(self@, field_values(values@)) % (F::modulus() as int),
            r.value() as int == (crate::algebra::coefficient_sum(crate::meaning::constant_terms(self@))
                + crate::meaning::weighted_sum(crate::meaning::variable_terms(self@), field_values(values@)))
                % (F::modulus() as int),
    {
        proof {
            crate::meaning::law_evaluate_pairs_in_order(self@, field_values(values@));
        }
        let ghost vals = field_values(values@);
        let ghost p = F::modulus() as int;
        let mut var_index: usize = 0;
        let mut result = F::zero();
        proof {
            F::lemma_field_facts(&result);
            assert(self@.take(0) =~= Seq::<Term<I>>::empty());
            assert(0int % p == 0) by (nonlinear_arith) requires p > 1;
        }
        for i in 0..self.0.len()
            invariant
                p == F::modulus() as int,
                p > 1,
                vals == field_values(values@),
                values@.len() == count_vars(self@),
                negatable(self@),
                var_index == count_vars(self@.take(i as int)),
                result.value() as int == eval_terms(self@.take(i as int), vals) % p,
        {
            let term = self.0[i];
            let ghost prev = self@.take(i as int);
            let ghost before = result.value() as int;
            proof {
                assert(self@.take(i + 1).drop_last() =~= prev);
                lemma_count_vars_prefix(self@, i + 1);
            }
            match term.0 {
                Variable::Constant => {
                    let c = from_i64::<F>(term.1);
                    result = result.field_add(&c);
                    proof {
                        lemma_add_mod_noop(eval_terms(prev, vals), term.1 as int, p);
                    }
                },
                _ => {
                    let c = from_i64::<F>(term.1);
                    let x = values[var_index].field_mul(&c);
                    result = result.field_add(&x);
                    proof {
                        let v = values@[var_index as int].value() as int;
                        assert(vals[var_index as int] == v);
                        lemma_mul_mod_noop_right(v, term.1 as int, p);
                        lemma_add_mod_noop(eval_terms(prev, vals), v * term.1, p);
                        assert(v * term.1 == term.1 * v) by (nonlinear_arith);
                    }
                    var_index = var_index + 1;
                },
            }
        }
        proof {
            assert(self@.take(self@.len() as int) =~= self@);
        }
        result
    }

    /// The number of terms.
    pub fn num_terms(&self) -> (r: usize)
        ensures
            r == self@.len(),
    {
        self.0.len()
    }

    /// The number of terms whose variable is an input or an auxiliary.
    pub fn num_vars(&self) -> (r: usize)
        ensures
            r == count_vars(self@),
            r == crate::meaning::variable_terms(self@).len(),
    {
        proof {
            crate::meaning::law_num_vars_counts_variable_terms(self@);
        }
        let mut count: usize = 0;
        for i in 0..self.0.len()
            invariant
                count == count_vars(self@.take(i as int)),
                count <= i,
        {
            proof {
                assert(self@.take(i + 1).drop_last() =~= self@.take(i as int));
            }
            match self.0[i].0 {
                Variable::Constant => {},
                _ => {
                    count = count + 1;
                },
            }
        }
        proof {
            assert(self@.take(self@.len() as int) =~= self@);
        }
        count
    }

    /// Checks that no two of `terms` have the same variable; the caller
    /// guarantees it, as a repeated variable is an error in the terms.
    pub fn assert_no_duplicate_terms(terms: &[Term<I>])
        requires
            distinct_variables(terms@),
    {
        let r = Self::first_repeated_variable(terms);
        proof {
            assert(r is None);
        }
    }

    /// The variable of the first term whose variable occurred in an earlier
    /// term, or `None` when no two of `terms` have the same variable.
    pub fn first_repeated_variable(terms: &[Term<I>]) -> (r: Option<Variable<I>>)
        ensures
            r is None <==> distinct_variables(terms@),
            r matches Some(v) ==> exists|j: int|
                0 <= j < terms@.len() && v == (#[trigger] terms@[j]).0 && distinct_variables(terms@.take(j))
                    && repeats_earlier(terms@, j),
    {
        let n = terms.len();
        for j in 0..n
            invariant
                n == terms@.len(),
                distinct_variables(terms@.take(j as int)),
        {
            let mut i: usize = 0;
            while i < j
                invariant
                    i <= j < n,
                    n == terms@.len(),
                    distinct_variables(terms@.take(j as int)),
                    forall|m: int| 0 <= m < i ==> var_key(#[trigger] terms@[m].0) != var_key(terms@[j as int].0),
                decreases j - i,
            {
                if variable_eq(&terms[i].0, &terms[j].0) {
                    proof {
                        assert(terms@.take(j as int)[i as int] == terms@[i as int]);
                        assert(var_key(terms@[i as int].0) == var_key(terms@[j as int].0));
                        assert(repeats_earlier(terms@, j as int));
                    }
                    return Some(terms[j].0);
                }
                i = i + 1;
            }
            proof {
                assert forall|a: int, b: int| 0 <= a < b < j + 1 implies var_key(#[trigger] terms@.take(j + 1)[a].0) != var_key(#[trigger] terms@.take(j + 1)[b].0) by {
                    if b < j {
                        assert(terms@.take(j + 1)[a] == terms@.take(j as int)[a]);
                        assert(terms@.take(j + 1)[b] == terms@.take(j as int)[b]);
                    }
                }
            }
        }
        proof {
            assert(terms@.take(n as int) =~= terms@);
        }
        None
    }
}

/// `val` as a field element, reduced modulo the order of the field.
pub fn from_i64<F: JoltField>(val: i64) -> (r: F)
    requires
        val != i64::MIN,
    ensures
        r.value() as int == val as int % (F::modulus() as int),
{
    if val > 0 {
        F::from_u64(val as u64).unwrap()
    } else {
        let zero = F::zero();
        let n = F::from_u64((-val) as u64).unwrap();
        proof {
            F::lemma_field_facts(&zero);
            lemma_sub_mod_noop(0, -val, F::modulus() as int);
        }
        zero.field_sub(&n)
    }
}

impl<I: ConstraintInput> Clone for LC<I> {
    /// A copy of the linear combination, term for term.
    fn clone(&self) -> (r: Self)
        ensures
            r@ == self@,
    {
        proof {
            use_type_invariant(self);
        }
        let mut terms: Vec<Term<I>> = Vec::new();
        for i in 0..self.0.len()
            invariant
                terms@ == self.0@.take(i as int),
        {
            terms.push(self.0[i]);
            proof {
                assert(self.0@.take(i as int).push(self.0@[i as int]) =~= self.0@.take(i + 1));
            }
        }
        proof {
            assert(self.0@.take(self.0@.len() as int) =~= self.0@);
        }
        LC(terms)
    }
}

} // verus!

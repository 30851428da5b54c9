use vstd::prelude::*;

use crate::model::{
    is_ordering_of, lemma_ordered, merge_all, merge_fits, negatable, negate_all, ordered, sorted_by_key,
};
use crate::ops::{ConstraintInput, Term, Variable, LC};

verus! {

/// Values that stand for a linear combination.
pub trait IntoLC<I: ConstraintInput>: Sized {
    /// The terms of the linear combination, before ordering.
    spec fn lc_terms(self) -> Seq<Term<I>>;

    /// The linear combination: its terms, ordered by variable.
    fn into_lc(self) -> (r: LC<I>)
        ensures
            r@ == ordered(self.lc_terms()),
    ;
}

/// A one-element vector.
fn single<I: ConstraintInput>(t: Term<I>) -> (r: Vec<Term<I>>)
    ensures
        r@ == seq![t],
{
    let mut v: Vec<Term<I>> = Vec::new();
    v.push(t);
    proof {
        assert(v@ =~= seq![t]);
    }
    v
}

/// A one-term sequence is its own ordering.
proof fn lemma_ordered_single<I: ConstraintInput>(t: Term<I>)
    ensures
        ordered(seq![t]) == seq![t],
{
    lemma_ordered(seq![t]);
    assert(is_ordering_of(seq![t], seq![t]));
}

impl<I: ConstraintInput> IntoLC<I> for LC<I> {
    open spec fn lc_terms(self) -> Seq<Term<I>> {
        self@
    }

    fn into_lc(self) -> (r: LC<I>)
        ensures
            r@ == self@,
    {
        proof {
            use_type_invariant(&self);
            lemma_ordered(self@);
            assert(is_ordering_of(self@, self@));
        }
        self
    }
}

impl<I: ConstraintInput> IntoLC<I> for Term<I> {
    open spec fn lc_terms(self) -> Seq<Term<I>> {
        seq![self]
    }

    fn into_lc(self) -> (r: LC<I>)
        ensures
            r@ == seq![self],
    {
        proof {
            lemma_ordered_single(self);
        }
        LC::new(single(self))
    }
}

impl<I: ConstraintInput> IntoLC<I> for Variable<I> {
    open spec fn lc_terms(self) -> Seq<Term<I>> {
        seq![Term(self, 1)]
    }

    fn into_lc(self) -> (r: LC<I>)
        ensures
            r@ == seq![Term(self, 1)],
    {
        proof {
            lemma_ordered_single(Term(self, 1));
        }
        LC::new(single(Term(self, 1)))
    }
}

impl<I: ConstraintInput> IntoLC<I> for i64 {
    open spec fn lc_terms(self) -> Seq<Term<I>> {
        seq![Term(Variable::Constant, self)]
    }

    fn into_lc(self) -> (r: LC<I>) {
        LC::new(single(Term(Variable::Constant, self)))
    }
}

impl<I: ConstraintInput> IntoLC<I> for Vec<Term<I>> {
    open spec fn lc_terms(self) -> Seq<Term<I>> {
        self@
    }

    fn into_lc(self) -> (r: LC<I>)
        ensures
            is_ordering_of(r@, self@),
    {
        LC::new(self)
    }
}

// Arithmetic for LC

impl<I: ConstraintInput, T: IntoLC<I>> std::ops::Add<T> for LC<I> {
    type Output = LC<I>;

    /// The sum: the terms of `other`, ordered, merged one by one into those
    /// of `self`, then ordered.
    fn add(self, other: T) -> (r: LC<I>)
        ensures
            r@ == ordered(merge_all(self@, ordered(other.lc_terms()))),
            sorted_by_key(r@),
    {
        let other_lc = other.into_lc();
        let r = self.add_lc(&other_lc);
        proof {
            use_type_invariant(&r);
        }
        r
    }
}

impl<I: ConstraintInput, T: IntoLC<I>> vstd::std_specs::ops::AddSpecImpl<T> for LC<I> {
    open spec fn obeys_add_spec() -> bool {
        false
    }

    open spec fn add_req(self, other: T) -> bool {
        merge_fits(self@, ordered(other.lc_terms()))
    }

    open spec fn add_spec(self, other: T) -> LC<I> {
        arbitrary()
    }
}

impl<I: ConstraintInput, T: IntoLC<I>> std::ops::Add<T> for Term<I> {
    type Output = LC<I>;

    /// The sum of this term and `other`.
    fn add(self, other: T) -> (r: LC<I>)
        ensures
            r@ == ordered(merge_all(seq![self], ordered(other.lc_terms()))),
            sorted_by_key(r@),
    {
        let other_lc = other.into_lc();
        let lc = LC::new(single(self));
        proof {
            lemma_ordered_single(self);
        }
        let r = lc.add_lc(&other_lc);
        proof {
            use_type_invariant(&r);
        }
        r
    }
}

impl<I: ConstraintInput, T: IntoLC<I>> vstd::std_specs::ops::AddSpecImpl<T> for Term<I> {
    open spec fn obeys_add_spec() -> bool {
        false
    }

    open spec fn add_req(self, other: T) -> bool {
        merge_fits(seq![self], ordered(other.lc_terms()))
    }

    open spec fn add_spec(self, other: T) -> LC<I> {
        arbitrary()
    }
}

impl<I: ConstraintInput, T: IntoLC<I>> std::ops::Add<T> for Variable<I> {
    type Output = LC<I>;

    /// The sum of this variable, with coefficient one, and `other`.
    fn add(self, other: T) -> (r: LC<I>)
        ensures
            r@ == ordered(merge_all(seq![Term(self, 1)], ordered(other.lc_terms()))),
            sorted_by_key(r@),
    {
        let other_lc = other.into_lc();
        let lc = LC::new(single(Term(self, 1)));
        proof {
            lemma_ordered_single(Term(self, 1));
        }
        let r = lc.add_lc(&other_lc);
        proof {
            use_type_invariant(&r);
        }
        r
    }
}

impl<I: ConstraintInput, T: IntoLC<I>> vstd::std_specs::ops::AddSpecImpl<T> for Variable<I> {
    open spec fn obeys_add_spec() -> bool {
        false
    }

    open spec fn add_req(self, other: T) -> bool {
        merge_fits(seq![Term(self, 1)], ordered(other.lc_terms()))
    }

    open spec fn add_spec(self, other: T) -> LC<I> {
        arbitrary()
    }
}

impl<I: ConstraintInput> std::ops::Neg for LC<I> {
    type Output = LC<I>;

    /// Every coefficient negated.
    fn neg(self) -> (r: LC<I>)
        ensures
            r@ == ordered(negate_all(self@)),
            sorted_by_key(r@),
    {
        let r = self.negated();
        proof {
            use_type_invariant(&r);
        }
        r
    }
}

impl<I: ConstraintInput> vstd::std_specs::ops::NegSpecImpl for LC<I> {
    open spec fn obeys_neg_spec() -> bool {
        false
    }

    open spec fn neg_req(self) -> bool {
        negatable(self@)
    }

    open spec fn neg_spec(self) -> LC<I> {
        arbitrary()
    }
}

impl<I: ConstraintInput, T: IntoLC<I>> std::ops::Sub<T> for LC<I> {
    type Output = LC<I>;

    /// The difference: the sum of `self` and the negation of `other`.
    fn sub(self, other: T) -> (r: LC<I>)
        ensures
            r@ == ordered(merge_all(self@, ordered(negate_all(ordered(other.lc_terms()))))),
            sorted_by_key(r@),
    {
        let other_lc = other.into_lc();
        let negated_other = other_lc.negated();
        let r = self.add_lc(&negated_other);
        proof {
            use_type_invariant(&r);
        }
        r
    }
}

impl<I: ConstraintInput, T: IntoLC<I>> vstd::std_specs::ops::SubSpecImpl<T> for LC<I> {
    open spec fn obeys_sub_spec() -> bool {
        false
    }

    open spec fn sub_req(self, other: T) -> bool {
        &&& negatable(ordered(other.lc_terms()))
        &&& merge_fits(self@, ordered(negate_all(ordered(other.lc_terms()))))
    }

    open spec fn sub_spec(self, other: T) -> LC<I> {
        arbitrary()
    }
}

// Arithmetic for Term

impl<I: ConstraintInput> std::ops::Neg for Term<I> {
    type Output = Term<I>;

    fn neg(self) -> (r: Term<I>) {
        Term(self.0, -self.1)
    }
}

impl<I: ConstraintInput> vstd::std_specs::ops::NegSpecImpl for Term<I> {
    open spec fn obeys_neg_spec() -> bool {
        true
    }

    open spec fn neg_req(self) -> bool {
        self.1 != i64::MIN
    }

    open spec fn neg_spec(self) -> Term<I> {
        Term(self.0, (-self.1) as i64)
    }
}

impl<I: ConstraintInput> From<i64> for Term<I> {
    fn from(val: i64) -> (r: Term<I>) {
        Term(Variable::Constant, val)
    }
}

impl<I: ConstraintInput> vstd::std_specs::convert::FromSpecImpl<i64> for Term<I> {
    open spec fn obeys_from_spec() -> bool {
        true
    }

    open spec fn from_spec(val: i64) -> Term<I> {
        Term(Variable::Constant, val)
    }
}

impl<I: ConstraintInput> From<Variable<I>> for Term<I> {
    fn from(val: Variable<I>) -> (r: Term<I>) {
        Term(val, 1)
    }
}

impl<I: ConstraintInput> vstd::std_specs::convert::FromSpecImpl<Variable<I>> for Term<I> {
    open spec fn obeys_from_spec() -> bool {
        true
    }

    open spec fn from_spec(val: Variable<I>) -> Term<I> {
        Term(val, 1)
    }
}

impl<I: ConstraintInput> From<(Variable<I>, i64)> for Term<I> {
    fn from(val: (Variable<I>, i64)) -> (r: Term<I>) {
        Term(val.0, val.1)
    }
}

impl<I: ConstraintInput> vstd::std_specs::convert::FromSpecImpl<(Variable<I>, i64)> for Term<I> {
    open spec fn obeys_from_spec() -> bool {
        true
    }

    open spec fn from_spec(val: (Variable<I>, i64)) -> Term<I> {
        Term(val.0, val.1)
    }
}

impl<I: ConstraintInput> std::ops::Sub for Variable<I> {
    type Output = LC<I>;

    /// This variable minus `other`; the two terms are not merged, even when
    /// the variables are the same.
    fn sub(self, other: Variable<I>) -> (r: LC<I>)
        ensures
            r@ == ordered(seq![Term(self, 1), Term(other, -1i64)]),
    {
        let mut v: Vec<Term<I>> = Vec::new();
        v.push(Term(self, 1));
        v.push(Term(other, -1));
        proof {
            assert(v@ =~= seq![Term(self, 1), Term(other, -1i64)]);
        }
        LC::new(v)
    }
}

impl<I: ConstraintInput> vstd::std_specs::ops::SubSpecImpl for Variable<I> {
    open spec fn obeys_sub_spec() -> bool {
        false
    }

    open spec fn sub_req(self, other: Variable<I>) -> bool {
        true
    }

    open spec fn sub_spec(self, other: Variable<I>) -> LC<I> {
        arbitrary()
    }
}

// Into<LC<I>>

impl<I: ConstraintInput> From<i64> for LC<I> {
    fn from(val: i64) -> (r: LC<I>)
        ensures
            r@ == seq![Term(Variable::<I>::Constant, val)],
    {
        proof {
            lemma_ordered_single(Term(Variable::<I>::Constant, val));
        }
        val.into_lc()
    }
}

impl<I: ConstraintInput> vstd::std_specs::convert::FromSpecImpl<i64> for LC<I> {
    open spec fn obeys_from_spec() -> bool {
        false
    }

    open spec fn from_spec(val: i64) -> LC<I> {
        arbitrary()
    }
}

impl<I: ConstraintInput> From<Variable<I>> for LC<I> {
    fn from(val: Variable<I>) -> (r: LC<I>)
        ensures
            r@ == seq![Term(val, 1)],
    {
        proof {
            lemma_ordered_single(Term(val, 1));
        }
        val.into_lc()
    }
}

impl<I: ConstraintInput> vstd::std_specs::convert::FromSpecImpl<Variable<I>> for LC<I> {
    open spec fn obeys_from_spec() -> bool {
        false
    }

    open spec fn from_spec(val: Variable<I>) -> LC<I> {
        arbitrary()
    }
}

impl<I: ConstraintInput> From<Term<I>> for LC<I> {
    fn from(val: Term<I>) -> (r: LC<I>)
        ensures
            r@ == seq![val],
    {
        proof {
            lemma_ordered_single(val);
        }
        val.into_lc()
    }
}

impl<I: ConstraintInput> vstd::std_specs::convert::FromSpecImpl<Term<I>> for LC<I> {
    open spec fn obeys_from_spec() -> bool {
        false
    }

    open spec fn from_spec(val: Term<I>) -> LC<I> {
        arbitrary()
    }
}

impl<I: ConstraintInput> From<Vec<Term<I>>> for LC<I> {
    fn from(val: Vec<Term<I>>) -> (r: LC<I>)
        ensures
            r@ == ordered(val@),
    {
        LC::new(val)
    }
}

impl<I: ConstraintInput> vstd::std_specs::convert::FromSpecImpl<Vec<Term<I>>> for LC<I> {
    open spec fn obeys_from_spec() -> bool {
        false
    }

    open spec fn from_spec(val: Vec<Term<I>>) -> LC<I> {
        arbitrary()
    }
}

// Generic arithmetic for Variable

impl<I: ConstraintInput> std::ops::Mul<i64> for Variable<I> {
    type Output = Term<I>;

    fn mul(self, other: i64) -> (r: Term<I>) {
        Term(self, other)
    }
}

impl<I: ConstraintInput> vstd::std_specs::ops::MulSpecImpl<i64> for Variable<I> {
    open spec fn obeys_mul_spec() -> bool {
        true
    }

    open spec fn mul_req(self, other: i64) -> bool {
        true
    }

    open spec fn mul_spec(self, other: i64) -> Term<I> {
        Term(self, other)
    }
}

impl<I: ConstraintInput> std::ops::Mul<Variable<I>> for i64 {
    type Output = Term<I>;

    fn mul(self, other: Variable<I>) -> (r: Term<I>) {
        Term(other, self)
    }
}

impl<I: ConstraintInput> vstd::std_specs::ops::MulSpecImpl<Variable<I>> for i64 {
    open spec fn obeys_mul_spec() -> bool {
        true
    }

    open spec fn mul_req(self, other: Variable<I>) -> bool {
        true
    }

    open spec fn mul_spec(self, other: Variable<I>) -> Term<I> {
        Term(other, self)
    }
}

} // verus!

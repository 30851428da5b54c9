use vstd::prelude::*;

use crate::field::JoltField;
use crate::ops::{ConstraintInput, Term, Variable};

verus! {

/// The distance between the keys of consecutive kinds of variables.
pub open spec fn key_stride() -> int {
    0x1_0000_0000_0000_0000
}

/// The position of a variable in the order of variables: inputs by index,
/// which is the input type's own order (`ConstraintInput::lemma_index_order`),
/// then auxiliaries by index, then the constant.
pub open spec fn var_key<I: ConstraintInput>(v: Variable<I>) -> int {
    match v {
        Variable::Input(i) => i.index() as int,
        Variable::Auxiliary(a) => key_stride() + a,
        Variable::Constant => 2 * key_stride(),
    }
}

/// The terms of `s` are ordered by variable.
pub open spec fn sorted_by_key<I: ConstraintInput>(s: Seq<Term<I>>) -> bool {
    forall|i: int, j: int| 0 <= i <= j < s.len() ==> var_key(#[trigger] s[i].0) <= var_key(#[trigger] s[j].0)
}

/// The terms of `s` whose variable has key `k`, in order.
pub open spec fn terms_with_key<I: ConstraintInput>(s: Seq<Term<I>>, k: int) -> Seq<Term<I>>
    decreases s.len(),
{
    if s.len() == 0 {
        Seq::empty()
    } else {
        let rest = terms_with_key(s.drop_last(), k);
        if var_key(s.last().0) == k {
            rest.push(s.last())
        } else {
            rest
        }
    }
}

/// The number of terms of `s` whose variable is not the constant.
pub open spec fn count_vars<I: ConstraintInput>(s: Seq<Term<I>>) -> nat
    decreases s.len(),
{
    if s.len() == 0 {
        0
    } else {
        count_vars(s.drop_last()) + if s.last().0 is Constant { 0nat } else { 1nat }
    }
}

/// The value of the terms `s` when the variables that are not the constant
/// take, in order, the values `vals`, and the constant is one.
pub open spec fn eval_terms<I: ConstraintInput>(s: Seq<Term<I>>, vals: Seq<int>) -> int
    decreases s.len(),
{
    if s.len() == 0 {
        0
    } else {
        let prev = s.drop_last();
        let t = s.last();
        eval_terms(prev, vals) + if t.0 is Constant {
            t.1 as int
        } else {
            t.1 * vals[count_vars(prev) as int]
        }
    }
}

/// No coefficient of `s` is `i64::MIN`, so every coefficient can be negated.
pub open spec fn negatable<I: ConstraintInput>(s: Seq<Term<I>>) -> bool {
    forall|i: int| 0 <= i < s.len() ==> (#[trigger] s[i]).1 != i64::MIN
}

/// `s` with every coefficient negated.
pub open spec fn negate_all<I: ConstraintInput>(s: Seq<Term<I>>) -> Seq<Term<I>> {
    s.map_values(|t: Term<I>| Term(t.0, (-t.1) as i64))
}

/// The canonical values of field elements, as integers.
pub open spec fn field_values<F: JoltField>(values: Seq<F>) -> Seq<int> {
    values.map_values(|f: F| f.value() as int)
}

pub proof fn lemma_count_vars_prefix<I: ConstraintInput>(s: Seq<Term<I>>, i: int)
    requires
        0 <= i <= s.len(),
    ensures
        count_vars(s.take(i)) <= count_vars(s),
    decreases s.len(),
{
    if i < s.len() {
        assert(s.take(i) =~= s.drop_last().take(i));
        lemma_count_vars_prefix(s.drop_last(), i);
    } else {
        assert(s.take(i) =~= s);
    }
}

/// No two terms of `s` have the same variable.
pub open spec fn distinct_variables<I: ConstraintInput>(s: Seq<Term<I>>) -> bool {
    forall|i: int, j: int| 0 <= i < j < s.len() ==> var_key(#[trigger] s[i].0) != var_key(#[trigger] s[j].0)
}

/// The variable of the term at `j` is that of an earlier term of `s`.
pub open spec fn repeats_earlier<I: ConstraintInput>(s: Seq<Term<I>>, j: int) -> bool {
    exists|i: int| 0 <= i < j && var_key(#[trigger] s[i].0) == var_key(s[j].0)
}

/// `a` and `b` hold, for each variable, the same terms in the same order.
pub open spec fn same_per_key<I: ConstraintInput>(a: Seq<Term<I>>, b: Seq<Term<I>>) -> bool {
    forall|k: int| #[trigger] terms_with_key(a, k) == terms_with_key(b, k)
}

/// `r` is `s` ordered by variable, terms with the same variable in their order in `s`.
pub open spec fn is_ordering_of<I: ConstraintInput>(r: Seq<Term<I>>, s: Seq<Term<I>>) -> bool {
    sorted_by_key(r) && same_per_key(r, s)
}

pub proof fn lemma_terms_with_key_add<I: ConstraintInput>(a: Seq<Term<I>>, b: Seq<Term<I>>, k: int)
    ensures
        terms_with_key(a + b, k) == terms_with_key(a, k) + terms_with_key(b, k),
    decreases b.len(),
{
    if b.len() == 0 {
        assert(a + b =~= a);
        assert(terms_with_key(a, k) + terms_with_key(b, k) =~= terms_with_key(a, k));
    } else {
        assert((a + b).drop_last() =~= a + b.drop_last());
        lemma_terms_with_key_add(a, b.drop_last(), k);
        if var_key(b.last().0) == k {
            assert(terms_with_key(a, k) + terms_with_key(b.drop_last(), k).push(b.last())
                =~= (terms_with_key(a, k) + terms_with_key(b.drop_last(), k)).push(b.last()));
        }
    }
}

pub proof fn lemma_terms_with_key_none<I: ConstraintInput>(s: Seq<Term<I>>, k: int)
    requires
        forall|i: int| 0 <= i < s.len() ==> var_key(#[trigger] s[i].0) != k,
    ensures
        terms_with_key(s, k) == Seq::<Term<I>>::empty(),
    decreases s.len(),
{
    if s.len() > 0 {
        lemma_terms_with_key_none(s.drop_last(), k);
    }
}

/// Inserting `t` into an ordering of `s` after every term whose variable is not
/// later than `t`'s gives an ordering of `s` followed by `t`.
pub proof fn lemma_insert_ordered<I: ConstraintInput>(r: Seq<Term<I>>, s: Seq<Term<I>>, t: Term<I>, pos: int)
    requires
        is_ordering_of(r, s),
        0 <= pos <= r.len(),
        forall|j: int| 0 <= j < pos ==> var_key(#[trigger] r[j].0) <= var_key(t.0),
        pos < r.len() ==> var_key(t.0) < var_key(r[pos].0),
    ensures
        is_ordering_of(r.insert(pos, t), s.push(t)),
{
    let r2 = r.insert(pos, t);
    let pre = r.take(pos);
    let post = r.skip(pos);
    assert(r =~= pre + post);
    assert(r2 =~= pre + seq![t] + post);
    assert forall|j: int| 0 <= j < post.len() implies var_key(#[trigger] post[j].0) > var_key(t.0) by {
        assert(post[j] == r[pos + j]);
    }
    assert forall|i: int, j: int| 0 <= i <= j < r2.len() implies var_key(#[trigger] r2[i].0) <= var_key(#[trigger] r2[j].0) by {
        if i < pos && j < pos {
            assert(r2[i] == r[i] && r2[j] == r[j]);
        } else if i > pos && j > pos {
            assert(r2[i] == r[i - 1] && r2[j] == r[j - 1]);
        } else if i < pos && j > pos {
            assert(r2[i] == r[i] && r2[j] == r[j - 1]);
        } else if i == pos && j > pos {
            assert(r2[j] == r[j - 1]);
        } else if i < pos && j == pos {
            assert(r2[i] == r[i]);
        }
    }
    assert forall|k: int| #[trigger] terms_with_key(r2, k) == terms_with_key(s.push(t), k) by {
        lemma_terms_with_key_add(pre + seq![t], post, k);
        lemma_terms_with_key_add(pre, seq![t], k);
        lemma_terms_with_key_add(pre, post, k);
        assert(seq![t].drop_last() =~= Seq::<Term<I>>::empty());
        assert(s.push(t).drop_last() =~= s);
        assert(terms_with_key(s, k) == terms_with_key(r, k));
        let e = Seq::<Term<I>>::empty();
        assert(terms_with_key(e, k) == e);
        assert(seq![t].last() == t);
        assert(terms_with_key(seq![t], k) == if var_key(t.0) == k { terms_with_key(e, k).push(t) } else { terms_with_key(e, k) });
        if k == var_key(t.0) {
            lemma_terms_with_key_none(post, k);
            assert(terms_with_key(seq![t], k) =~= seq![t]);
            assert(terms_with_key(pre, k) + e =~= terms_with_key(pre, k));
            assert(terms_with_key(pre, k) + seq![t] + e =~= terms_with_key(pre, k).push(t));
            assert(terms_with_key(s.push(t), k) == terms_with_key(s, k).push(t));
        } else {
            assert(terms_with_key(seq![t], k) =~= e);
            assert(terms_with_key(pre, k) + e =~= terms_with_key(pre, k));
            assert(terms_with_key(s.push(t), k) == terms_with_key(s, k));
        }
    }
}

/// The ordering of `s` by variable, terms with the same variable in their
/// order in `s`; it exists and is unique (see `lemma_ordered`).
pub open spec fn ordered<I: ConstraintInput>(s: Seq<Term<I>>) -> Seq<Term<I>> {
    choose|r: Seq<Term<I>>| is_ordering_of(r, s)
}

/// The place where a term with key `k` goes in the ordered `r`: after every
/// term whose key is at most `k`.
proof fn lemma_insert_position<I: ConstraintInput>(r: Seq<Term<I>>, k: int) -> (pos: int)
    requires
        sorted_by_key(r),
    ensures
        0 <= pos <= r.len(),
        forall|j: int| 0 <= j < pos ==> var_key(#[trigger] r[j].0) <= k,
        pos < r.len() ==> k < var_key(r[pos].0),
    decreases r.len(),
{
    if r.len() == 0 {
        0
    } else if var_key(r.last().0) <= k {
        assert forall|j: int| 0 <= j < r.len() implies var_key(#[trigger] r[j].0) <= k by {
            assert(var_key(r[j].0) <= var_key(r[r.len() - 1].0));
        }
        r.len() as int
    } else {
        let rest = r.drop_last();
        assert(sorted_by_key(rest)) by {
            assert forall|i: int, j: int| 0 <= i <= j < rest.len() implies var_key(#[trigger] rest[i].0) <= var_key(#[trigger] rest[j].0) by {
                assert(rest[i] == r[i] && rest[j] == r[j]);
            }
        }
        let pos = lemma_insert_position(rest, k);
        assert forall|j: int| 0 <= j < pos implies var_key(#[trigger] r[j].0) <= k by {
            assert(r[j] == rest[j]);
        }
        if pos < rest.len() {
            assert(r[pos] == rest[pos]);
        }
        pos
    }
}

/// Every sequence of terms has an ordering by variable.
proof fn lemma_ordering_exists<I: ConstraintInput>(s: Seq<Term<I>>) -> (r: Seq<Term<I>>)
    ensures
        is_ordering_of(r, s),
    decreases s.len(),
{
    if s.len() == 0 {
        s
    } else {
        let prev = lemma_ordering_exists(s.drop_last());
        let t = s.last();
        let pos = lemma_insert_position(prev, var_key(t.0));
        lemma_insert_ordered(prev, s.drop_last(), t, pos);
        assert(s.drop_last().push(t) =~= s);
        prev.insert(pos, t)
    }
}

proof fn lemma_sorted_drop_last<I: ConstraintInput>(r: Seq<Term<I>>)
    requires
        sorted_by_key(r),
        r.len() > 0,
    ensures
        sorted_by_key(r.drop_last()),
        forall|j: int| 0 <= j < r.len() ==> var_key(#[trigger] r[j].0) <= var_key(r.last().0),
{
    let rest = r.drop_last();
    assert forall|i: int, j: int| 0 <= i <= j < rest.len() implies var_key(#[trigger] rest[i].0) <= var_key(#[trigger] rest[j].0) by {
        assert(rest[i] == r[i] && rest[j] == r[j]);
    }
    assert forall|j: int| 0 <= j < r.len() implies var_key(#[trigger] r[j].0) <= var_key(r.last().0) by {
        assert(var_key(r[j].0) <= var_key(r[r.len() - 1].0));
    }
}

/// A nonempty sequence has a nonempty set of terms for the key of its last term.
proof fn lemma_terms_with_key_last<I: ConstraintInput>(r: Seq<Term<I>>)
    requires
        r.len() > 0,
    ensures
        terms_with_key(r, var_key(r.last().0)) == terms_with_key(r.drop_last(), var_key(r.last().0)).push(r.last()),
        forall|k: int| k != var_key(r.last().0) ==> #[trigger] terms_with_key(r, k) == terms_with_key(r.drop_last(), k),
{
}

/// Two ordered sequences with the same terms per key are equal.
pub proof fn lemma_same_per_key_ordered<I: ConstraintInput>(r1: Seq<Term<I>>, r2: Seq<Term<I>>)
    requires
        sorted_by_key(r1),
        sorted_by_key(r2),
        same_per_key(r1, r2),
    ensures
        r1 == r2,
    decreases r1.len() + r2.len(),
{
    if r1.len() == 0 && r2.len() == 0 {
        assert(r1 =~= r2);
    } else if r1.len() == 0 {
        lemma_terms_with_key_last(r2);
        lemma_terms_with_key_none(r1, var_key(r2.last().0));
        assert(terms_with_key(r1, var_key(r2.last().0)) == terms_with_key(r2, var_key(r2.last().0)));
    } else if r2.len() == 0 {
        lemma_terms_with_key_last(r1);
        lemma_terms_with_key_none(r2, var_key(r1.last().0));
        assert(terms_with_key(r1, var_key(r1.last().0)) == terms_with_key(r2, var_key(r1.last().0)));
    } else {
        let k1 = var_key(r1.last().0);
        let k2 = var_key(r2.last().0);
        lemma_sorted_drop_last(r1);
        lemma_sorted_drop_last(r2);
        lemma_terms_with_key_last(r1);
        lemma_terms_with_key_last(r2);
        assert(terms_with_key(r1, k1) == terms_with_key(r2, k1));
        assert(terms_with_key(r1, k2) == terms_with_key(r2, k2));
        assert(terms_with_key(r1, k1).len() > 0);
        assert(terms_with_key(r2, k2).len() > 0);
        if k1 < k2 {
            lemma_terms_with_key_none(r1, k2);
            assert(false);
        }
        if k2 < k1 {
            lemma_terms_with_key_none(r2, k1);
            assert(false);
        }
        let t1 = terms_with_key(r1, k1);
        let t2 = terms_with_key(r2, k1);
        assert(t1.last() == r1.last());
        assert(t2.last() == r2.last());
        let a = r1.drop_last();
        let b = r2.drop_last();
        assert forall|k: int| #[trigger] terms_with_key(a, k) == terms_with_key(b, k) by {
            if k == k1 {
                assert(terms_with_key(a, k) == t1.drop_last());
                assert(terms_with_key(b, k) == t2.drop_last());
            } else {
                assert(terms_with_key(r1, k) == terms_with_key(r2, k));
            }
        }
        lemma_same_per_key_ordered(a, b);
        assert(r1 =~= a.push(r1.last()));
        assert(r2 =~= b.push(r2.last()));
    }
}

/// `ordered(s)` is the ordering of `s`, and the only one.
pub proof fn lemma_ordered<I: ConstraintInput>(s: Seq<Term<I>>)
    ensures
        is_ordering_of(ordered(s), s),
        forall|r: Seq<Term<I>>| is_ordering_of(r, s) ==> r == ordered(s),
{
    let w = lemma_ordering_exists(s);
    assert(is_ordering_of(ordered(s), s));
    assert forall|r: Seq<Term<I>>| is_ordering_of(r, s) implies r == ordered(s) by {
        lemma_same_per_key_ordered(r, ordered(s));
    }
}

/// The index of the first term of `s` whose variable has key `k`, or -1.
pub open spec fn first_with_key<I: ConstraintInput>(s: Seq<Term<I>>, k: int) -> int
    decreases s.len(),
{
    if s.len() == 0 {
        -1
    } else {
        let f = first_with_key(s.drop_last(), k);
        if f >= 0 {
            f
        } else if var_key(s.last().0) == k {
            s.len() - 1
        } else {
            -1
        }
    }
}

/// `s` with `t` merged in: `t`'s coefficient is added to the first term with
/// the same variable, or `t` is appended if there is none.
pub open spec fn merge_term<I: ConstraintInput>(s: Seq<Term<I>>, t: Term<I>) -> Seq<Term<I>> {
    let j = first_with_key(s, var_key(t.0));
    if j >= 0 {
        s.update(j, Term(s[j].0, (s[j].1 + t.1) as i64))
    } else {
        s.push(t)
    }
}

/// Merging `t` into `s` adds no coefficients whose sum leaves `i64`.
pub open spec fn merge_term_fits<I: ConstraintInput>(s: Seq<Term<I>>, t: Term<I>) -> bool {
    let j = first_with_key(s, var_key(t.0));
    j >= 0 ==> i64::MIN <= s[j].1 + t.1 <= i64::MAX
}

/// `s` with the terms `ts` merged in one after the other.
pub open spec fn merge_all<I: ConstraintInput>(s: Seq<Term<I>>, ts: Seq<Term<I>>) -> Seq<Term<I>>
    decreases ts.len(),
{
    if ts.len() == 0 {
        s
    } else {
        merge_term(merge_all(s, ts.drop_last()), ts.last())
    }
}

/// Merging the terms `ts` into `s` one after the other keeps every
/// coefficient within `i64`.
pub open spec fn merge_fits<I: ConstraintInput>(s: Seq<Term<I>>, ts: Seq<Term<I>>) -> bool
    decreases ts.len(),
{
    ts.len() == 0 || (merge_fits(s, ts.drop_last()) && merge_term_fits(merge_all(s, ts.drop_last()), ts.last()))
}

/// `j` is the first index of a term with key `k` in `s`.
pub proof fn lemma_first_with_key<I: ConstraintInput>(s: Seq<Term<I>>, k: int, j: int)
    requires
        0 <= j <= s.len(),
        forall|i: int| 0 <= i < j ==> var_key(#[trigger] s[i].0) != k,
        j < s.len() ==> var_key(s[j].0) == k,
    ensures
        first_with_key(s, k) == if j < s.len() { j } else { -1 },
    decreases s.len(),
{
    if s.len() > 0 {
        let rest = s.drop_last();
        if j < s.len() - 1 {
            assert(rest[j] == s[j]);
            lemma_first_with_key(rest, k, j);
        } else {
            lemma_first_with_key(rest, k, rest.len() as int);
        }
    }
}

pub proof fn lemma_merge_fits_prefix<I: ConstraintInput>(s: Seq<Term<I>>, ts: Seq<Term<I>>, i: int)
    requires
        merge_fits(s, ts),
        0 <= i <= ts.len(),
    ensures
        merge_fits(s, ts.take(i)),
    decreases ts.len(),
{
    if i < ts.len() {
        assert(ts.take(i) =~= ts.drop_last().take(i));
        lemma_merge_fits_prefix(s, ts.drop_last(), i);
    } else {
        assert(ts.take(i) =~= ts);
    }
}

} // verus!

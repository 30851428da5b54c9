use jolt_core::field::{Goldilocks, JoltField, GOLDILOCKS_MODULUS};
use jolt_core::ops::{from_i64, ConstraintInput, Term, Variable, LC};
use jolt_core::text::lc_text;

#[derive(Clone, Copy, Debug, PartialEq, Eq, PartialOrd, Ord)]
enum Inputs {
    A,
    B,
    C,
    D,
}

impl From<Inputs> for usize {
    fn from(val: Inputs) -> Self {
        match val {
            Inputs::A => 0,
            Inputs::B => 1,
            Inputs::C => 2,
            Inputs::D => 3,
        }
    }
}

impl ConstraintInput for Inputs {
    fn index(&self) -> usize {
        (*self).into()
    }

    fn to_index(&self) -> usize {
        (*self).into()
    }

    fn lemma_index_injective(_a: Self, _b: Self) {}

    fn lemma_index_order(_a: Self, _b: Self) {}
}

fn fe(n: u64) -> Goldilocks {
    Goldilocks::from_u64(n).unwrap()
}

fn canon(f: &Goldilocks) -> u64 {
    f.to_canonical_u64()
}

#[test]
fn variable_ordering() {
    let mut variables: Vec<Variable<Inputs>> = vec![
        Variable::Auxiliary(10),
        Variable::Auxiliary(5),
        Variable::Constant,
        Variable::Input(Inputs::C),
        Variable::Input(Inputs::B),
    ];
    let expected_sort: Vec<Variable<Inputs>> = vec![
        Variable::Input(Inputs::B),
        Variable::Input(Inputs::C),
        Variable::Auxiliary(5),
        Variable::Auxiliary(10),
        Variable::Constant,
    ];
    variables.sort();
    assert_eq!(variables, expected_sort);
}

#[test]
fn lc_sorting() {
    let variables: Vec<Variable<Inputs>> = vec![
        Variable::Auxiliary(10),
        Variable::Auxiliary(5),
        Variable::Constant,
        Variable::Input(Inputs::C),
        Variable::Input(Inputs::B),
    ];

    let expected_sort: Vec<Variable<Inputs>> = vec![
        Variable::Input(Inputs::B),
        Variable::Input(Inputs::C),
        Variable::Auxiliary(5),
        Variable::Auxiliary(10),
        Variable::Constant,
    ];
    let expected_sorted_terms: Vec<Term<Inputs>> = expected_sort
        .into_iter()
        .map(|variable| variable.into())
        .collect();

    let terms = variables
        .into_iter()
        .map(|variable| variable.into())
        .collect();
    let lc = LC::new(terms);
    assert_eq!(lc.terms(), expected_sorted_terms);
}

#[test]
fn new_keeps_order_of_equal_variables() {
    let lc: LC<Inputs> = LC::new(vec![
        Term(Variable::Constant, 7),
        Term(Variable::Auxiliary(3), 1),
        Term(Variable::Auxiliary(3), 2),
        Term(Variable::Input(Inputs::D), 4),
        Term(Variable::Input(Inputs::A), 5),
    ]);
    assert_eq!(
        lc.terms(),
        vec![
            Term(Variable::Input(Inputs::A), 5),
            Term(Variable::Input(Inputs::D), 4),
            Term(Variable::Auxiliary(3), 1),
            Term(Variable::Auxiliary(3), 2),
            Term(Variable::Constant, 7),
        ]
    );
}

#[test]
fn zero_has_no_terms() {
    let lc: LC<Inputs> = LC::zero();
    assert_eq!(lc.num_terms(), 0);
    assert_eq!(lc.num_vars(), 0);
    assert!(lc.constant_term().is_none());
    assert_eq!(canon(&lc.evaluate::<Goldilocks>(&[])), 0);
}

#[test]
fn constant_term_and_counts() {
    let lc: LC<Inputs> = LC::new(vec![
        Term(Variable::Constant, -3),
        Term(Variable::Input(Inputs::B), 2),
        Term(Variable::Auxiliary(1), 6),
    ]);
    assert_eq!(lc.num_terms(), 3);
    assert_eq!(lc.num_vars(), 2);
    assert_eq!(lc.constant_term(), Some(&Term(Variable::Constant, -3)));

    let no_const: LC<Inputs> = LC::new(vec![Term(Variable::Input(Inputs::B), 2)]);
    assert_eq!(no_const.constant_term(), None);
}

#[test]
fn duplicate_terms_are_found() {
    let ok: Vec<Term<Inputs>> = vec![
        Term(Variable::Input(Inputs::A), 1),
        Term(Variable::Auxiliary(0), 1),
        Term(Variable::Constant, 1),
    ];
    assert_eq!(LC::first_repeated_variable(&ok), None);
    LC::assert_no_duplicate_terms(&ok);
    let dup: Vec<Term<Inputs>> = vec![
        Term(Variable::Input(Inputs::A), 1),
        Term(Variable::Auxiliary(4), 1),
        Term(Variable::Auxiliary(9), 1),
        Term(Variable::Auxiliary(4), 2),
        Term(Variable::Input(Inputs::A), 3),
    ];
    assert_eq!(LC::first_repeated_variable(&dup), Some(Variable::Auxiliary(4)));
}

#[test]
fn from_i64_reduces_modulo_the_order() {
    let p = GOLDILOCKS_MODULUS;
    assert_eq!(canon(&from_i64::<Goldilocks>(5)), 5);
    assert_eq!(canon(&from_i64::<Goldilocks>(0)), 0);
    assert_eq!(canon(&from_i64::<Goldilocks>(-1)), p - 1);
    assert_eq!(canon(&from_i64::<Goldilocks>(-7)), p - 7);
    assert_eq!(canon(&from_i64::<Goldilocks>(i64::MAX)), i64::MAX as u64);
    assert_eq!(canon(&from_i64::<Goldilocks>(i64::MIN + 1)), p - (i64::MAX as u64));
}

#[test]
fn field_operations() {
    let p = GOLDILOCKS_MODULUS;
    assert_eq!(canon(&fe(p + 3)), 3);
    assert_eq!(canon(&fe(p - 1).field_add(&fe(2))), 1);
    assert_eq!(canon(&fe(2).field_sub(&fe(5))), p - 3);
    assert_eq!(canon(&fe(p - 1).field_mul(&fe(p - 1))), 1);
    assert_eq!(canon(&fe(1 << 32).field_mul(&fe(1 << 32))), (1u64 << 32) - 1);
    assert_eq!(canon(&Goldilocks::zero()), 0);
}

#[test]
fn to_field_elements_maps_coefficients() {
    let lc: LC<Inputs> = LC::new(vec![
        Term(Variable::Constant, -2),
        Term(Variable::Input(Inputs::C), 9),
    ]);
    let elems: Vec<Goldilocks> = lc.to_field_elements();
    let vals: Vec<u64> = elems.iter().map(canon).collect();
    assert_eq!(vals, vec![9, GOLDILOCKS_MODULUS - 2]);
}

#[test]
fn evaluate_uses_values_in_order() {
    // 2*B + 3*Aux(0) - 5*Aux(7) + 11
    let lc: LC<Inputs> = LC::new(vec![
        Term(Variable::Constant, 11),
        Term(Variable::Auxiliary(7), -5),
        Term(Variable::Input(Inputs::B), 2),
        Term(Variable::Auxiliary(0), 3),
    ]);
    let values = [fe(10), fe(100), fe(1000)];
    // 2*10 + 3*100 - 5*1000 + 11 = -4669
    let r = lc.evaluate(&values);
    assert_eq!(canon(&r), GOLDILOCKS_MODULUS - 4669);
}

#[test]
fn add_merges_equal_variables() {
    let a: LC<Inputs> = LC::new(vec![
        Term(Variable::Input(Inputs::A), 2),
        Term(Variable::Constant, 1),
    ]);
    let b: LC<Inputs> = LC::new(vec![
        Term(Variable::Constant, 4),
        Term(Variable::Auxiliary(2), 3),
        Term(Variable::Input(Inputs::A), -2),
    ]);
    let sum = a + b;
    assert_eq!(
        sum.terms(),
        vec![
            Term(Variable::Input(Inputs::A), 0),
            Term(Variable::Auxiliary(2), 3),
            Term(Variable::Constant, 5),
        ]
    );
}

#[test]
fn add_is_sum_of_values() {
    let a: LC<Inputs> = LC::new(vec![
        Term(Variable::Input(Inputs::A), 2),
        Term(Variable::Auxiliary(1), -1),
        Term(Variable::Constant, 3),
    ]);
    let b: LC<Inputs> = LC::new(vec![
        Term(Variable::Input(Inputs::B), 5),
        Term(Variable::Auxiliary(1), 4),
    ]);
    // A = 7, B = 11, Aux(1) = 13
    let va = a.evaluate(&[fe(7), fe(13)]);
    let vb = b.evaluate(&[fe(11), fe(13)]);
    let sum = a.clone() + b.clone();
    let vs = sum.evaluate(&[fe(7), fe(11), fe(13)]);
    assert_eq!(canon(&vs), canon(&va.field_add(&vb)));
    assert_eq!(canon(&vs), 2 * 7 + 5 * 11 + 3 * 13 + 3);
}

#[test]
fn neg_and_sub() {
    let a: LC<Inputs> = LC::new(vec![
        Term(Variable::Input(Inputs::C), 4),
        Term(Variable::Constant, -1),
    ]);
    let n = -a.clone();
    assert_eq!(
        n.terms(),
        vec![Term(Variable::Input(Inputs::C), -4), Term(Variable::Constant, 1)]
    );
    let nn = -n;
    assert_eq!(nn.terms(), a.terms());

    let d = a.clone() - Term(Variable::Input(Inputs::C), 4);
    assert_eq!(
        d.terms(),
        vec![Term(Variable::Input(Inputs::C), 0), Term(Variable::Constant, -1)]
    );
    let e = a - 10i64;
    assert_eq!(
        e.terms(),
        vec![Term(Variable::Input(Inputs::C), 4), Term(Variable::Constant, -11)]
    );
}

#[test]
fn term_and_variable_arithmetic() {
    let x: Variable<Inputs> = Variable::Input(Inputs::B);
    let y: Variable<Inputs> = Variable::Auxiliary(3);
    assert_eq!(x * 5i64, Term(x, 5));
    assert_eq!(6i64 * y, Term(y, 6));
    assert_eq!(-Term(x, 5), Term(x, -5));

    let s = Term(y, 2) + x;
    assert_eq!(s.terms(), vec![Term(x, 1), Term(y, 2)]);
    let s2 = x + 7i64;
    assert_eq!(s2.terms(), vec![Term(x, 1), Term(Variable::Constant, 7)]);
    let s3 = x + Term(x, 4);
    assert_eq!(s3.terms(), vec![Term(x, 5)]);

    let d = y - x;
    assert_eq!(d.terms(), vec![Term(x, -1), Term(y, 1)]);
    let same = x - x;
    assert_eq!(same.terms(), vec![Term(x, 1), Term(x, -1)]);
}

#[test]
fn conversions() {
    let x: Variable<Inputs> = Variable::Auxiliary(8);
    assert_eq!(Term::<Inputs>::from(3i64), Term(Variable::Constant, 3));
    assert_eq!(Term::from(x), Term(x, 1));
    assert_eq!(Term::from((x, -9)), Term(x, -9));
    assert_eq!(LC::<Inputs>::from(4i64).terms(), vec![Term(Variable::Constant, 4)]);
    assert_eq!(LC::from(x).terms(), vec![Term(x, 1)]);
    assert_eq!(LC::from(Term(x, 2)).terms(), vec![Term(x, 2)]);
    let v: Vec<Term<Inputs>> = vec![Term(Variable::Constant, 1), Term(x, 2)];
    assert_eq!(LC::from(v).terms(), vec![Term(x, 2), Term(Variable::Constant, 1)]);
}

#[test]
fn sub_is_difference_of_values() {
    let a: LC<Inputs> = LC::new(vec![
        Term(Variable::Input(Inputs::A), 3),
        Term(Variable::Constant, 2),
    ]);
    let b: LC<Inputs> = LC::new(vec![
        Term(Variable::Input(Inputs::A), 1),
        Term(Variable::Auxiliary(5), 4),
    ]);
    // A = 9, Aux(5) = 2
    let va = a.evaluate(&[fe(9)]);
    let vb = b.evaluate(&[fe(9), fe(2)]);
    let d = a - b;
    assert_eq!(
        d.terms(),
        vec![
            Term(Variable::Input(Inputs::A), 2),
            Term(Variable::Auxiliary(5), -4),
            Term(Variable::Constant, 2),
        ]
    );
    let vd = d.evaluate(&[fe(9), fe(2)]);
    assert_eq!(canon(&vd), canon(&va.field_sub(&vb)));
    assert_eq!(canon(&vd), 3 * 9 + 2 - 9 - 4 * 2);
}

#[test]
fn ordering_ordered_terms_changes_nothing() {
    let lc: LC<Inputs> = LC::new(vec![
        Term(Variable::Constant, 1),
        Term(Variable::Auxiliary(2), 2),
        Term(Variable::Input(Inputs::C), 3),
    ]);
    let again = LC::new(lc.terms().to_vec());
    assert_eq!(again.terms(), lc.terms());
    let copy = lc.clone();
    assert_eq!(copy.terms(), lc.terms());
}

#[test]
fn add_commutes_and_associates() {
    let a: LC<Inputs> = LC::new(vec![
        Term(Variable::Input(Inputs::A), 2),
        Term(Variable::Auxiliary(1), -1),
        Term(Variable::Constant, 3),
    ]);
    let b: LC<Inputs> = LC::new(vec![
        Term(Variable::Input(Inputs::B), 5),
        Term(Variable::Auxiliary(1), 4),
    ]);
    let c: LC<Inputs> = LC::new(vec![
        Term(Variable::Constant, -3),
        Term(Variable::Input(Inputs::A), 7),
        Term(Variable::Auxiliary(9), 1),
    ]);
    let ab = a.clone() + b.clone();
    let ba = b.clone() + a.clone();
    assert_eq!(ab.terms(), ba.terms());
    let left = (a.clone() + b.clone()) + c.clone();
    let right = a + (b + c);
    assert_eq!(left.terms(), right.terms());
    assert_eq!(
        left.terms(),
        vec![
            Term(Variable::Input(Inputs::A), 9),
            Term(Variable::Input(Inputs::B), 5),
            Term(Variable::Auxiliary(1), 3),
            Term(Variable::Auxiliary(9), 1),
            Term(Variable::Constant, 0),
        ]
    );
}

#[test]
fn zero_is_identity_of_add() {
    let a: LC<Inputs> = LC::new(vec![
        Term(Variable::Auxiliary(2), 6),
        Term(Variable::Input(Inputs::D), -2),
    ]);
    let right = a.clone() + LC::zero();
    assert_eq!(right.terms(), a.terms());
    let left = LC::zero() + a.clone();
    assert_eq!(left.terms(), a.terms());
}

#[test]
fn lc_text_joins_term_texts() {
    assert_eq!(lc_text(&vec![]), "LC()");
    assert_eq!(lc_text(&vec!["2*Input(A)".to_string()]), "LC(2*Input(A))");
    assert_eq!(
        lc_text(&vec!["2*Input(A)".to_string(), "-1*Constant".to_string()]),
        "LC(2*Input(A) + -1*Constant)"
    );
}

#[test]
fn input_order_is_the_input_type_order() {
    let inputs = [Inputs::A, Inputs::B, Inputs::C, Inputs::D];
    for a in inputs {
        for b in inputs {
            assert_eq!(a.to_index() < b.to_index(), a < b);
            assert_eq!(a.to_index() == b.to_index(), a == b);
        }
    }
}

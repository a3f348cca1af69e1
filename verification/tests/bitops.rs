use finmodel::counting;
use finmodel::bitops::{
    bool_and, bool_not, bool_or, eval_and, fold_neg, fold_pos, Bit1, Bit2, Op22, Op222, BOOL_FALSE,
    BOOL_MISSING, BOOL_TRUE, BOOL_UNDEF, EVAL_FALSE, EVAL_TRUE, EVAL_UNDEF, EVAL_UNIT,
};

#[test]
fn laws() {
    assert!(bool_and().idempotent());
    assert!(bool_and().commutative());
    assert!(bool_and().associative());

    assert!(bool_or().idempotent());
    assert!(bool_or().commutative());
    assert!(bool_or().associative());

    assert!(eval_and().idempotent());
    assert!(eval_and().commutative());
    assert!(eval_and().associative());

    for a in 0..3 {
        let a = Bit2::new(a);
        for b in 0..3 {
            let b = Bit2::new(b);
            assert_eq!(fold_pos().of(a, b), fold_neg().of(a, bool_not().of(b)));
        }
    }

    for a in 0..3 {
        let a = Bit2::new(a);
        for b in 0..3 {
            let b = Bit2::new(b);
            for c in 0..3 {
                let c = Bit2::new(c);
                assert_eq!(
                    fold_pos().of(fold_pos().of(a, b), c),
                    fold_pos().of(fold_pos().of(a, c), b),
                );
            }
        }
    }
}

#[test]
fn laws_hold_on_all_four_values() {
    for a in 0..4 {
        let a = Bit2::new(a);
        assert_eq!(eval_and().of(a, a), a);
        for b in 0..4 {
            let b = Bit2::new(b);
            assert_eq!(fold_pos().of(a, b), fold_neg().of(a, bool_not().of(b)));
            assert_eq!(eval_and().of(a, b), eval_and().of(b, a));
            assert_eq!(eval_and().of(a, b).idx(), a.idx().min(b.idx()));
            for c in 0..4 {
                let c = Bit2::new(c);
                assert_eq!(
                    fold_pos().of(fold_pos().of(a, b), c),
                    fold_pos().of(fold_pos().of(a, c), b),
                );
                assert_eq!(
                    eval_and().of(eval_and().of(a, b), c),
                    eval_and().of(a, eval_and().of(b, c)),
                );
            }
        }
    }
}

#[test]
fn bits_keep_their_value() {
    assert_eq!(Bit1::new(0).idx(), 0);
    assert_eq!(Bit1::new(1).idx(), 1);
    assert_eq!(Bit1::default(), Bit1::new(0));
    assert_eq!(Bit2::new(3).idx(), 3);
    assert_eq!(Bit2::default(), Bit2::new(0));
    assert_ne!(Bit2::new(1), Bit2::new(2));
}

#[test]
fn negation_swaps_false_and_true() {
    let not = bool_not();
    assert_eq!(not.of(Bit2::new(BOOL_FALSE)), Bit2::new(BOOL_TRUE));
    assert_eq!(not.of(Bit2::new(BOOL_TRUE)), Bit2::new(BOOL_FALSE));
    assert_eq!(not.of(Bit2::new(BOOL_UNDEF)), Bit2::new(BOOL_UNDEF));
    assert_eq!(not.of(Bit2::new(BOOL_MISSING)), Bit2::new(BOOL_MISSING));
}

#[test]
fn fold_counts_unassigned_literals() {
    let f = Bit2::new(BOOL_FALSE);
    let u = Bit2::new(BOOL_UNDEF);
    let t = Bit2::new(BOOL_TRUE);
    let e = Bit2::new(EVAL_FALSE);
    assert_eq!(fold_pos().of(e, f), Bit2::new(EVAL_FALSE));
    assert_eq!(fold_pos().of(e, u), Bit2::new(EVAL_UNIT));
    assert_eq!(fold_pos().of(fold_pos().of(e, u), u), Bit2::new(EVAL_UNDEF));
    assert_eq!(fold_pos().of(fold_pos().of(e, u), t), Bit2::new(EVAL_TRUE));
    assert_eq!(fold_neg().of(e, f), Bit2::new(EVAL_TRUE));
    assert_eq!(fold_neg().of(e, t), Bit2::new(EVAL_FALSE));
    assert_eq!(fold_neg().of(e, u), Bit2::new(EVAL_UNIT));
}

#[test]
fn tables_are_built_from_their_cases() {
    let v = |n: u32| Bit2::new(n);
    let not = Op22::new(&[(v(0), v(2)), (v(1), v(1)), (v(2), v(0)), (v(3), v(3))]);
    for a in 0..4 {
        assert_eq!(not.of(v(a)), bool_not().of(v(a)));
    }
    let mut cases = Vec::new();
    for a in 0..4 {
        for b in 0..4 {
            cases.push((v(a), v(b), v(a.min(b))));
        }
    }
    let and = Op222::new(&cases);
    for a in 0..4 {
        for b in 0..4 {
            assert_eq!(and.of(v(a), v(b)), eval_and().of(v(a), v(b)));
            assert_eq!(and.of(v(a), v(b)), bool_and().of(v(a), v(b)));
        }
    }
    let mut cases = Vec::new();
    for a in (0..4).rev() {
        for b in 0..4 {
            let c = if a == 3 { b } else if b == 3 { a } else { a.max(b) };
            cases.push((v(a), v(b), v(c)));
        }
    }
    let or = Op222::new(&cases);
    for a in 0..4 {
        for b in 0..4 {
            assert_eq!(or.of(v(a), v(b)), bool_or().of(v(a), v(b)));
        }
    }
}

fn idempotent(op: Op222) -> bool {
    for a in 0..3 {
        let a = Bit2::new(a);
        if op.of(a, a) != a {
            return false;
        }
    }
    true
}

fn commutative(op: Op222) -> bool {
    for a in 0..3 {
        let a = Bit2::new(a);
        for b in 0..3 {
            let b = Bit2::new(b);
            if op.of(a, b) != op.of(b, a) {
                return false;
            }
        }
    }
    true
}

fn associative(op: Op222) -> bool {
    for a in 0..3 {
        let a = Bit2::new(a);
        for b in 0..3 {
            let b = Bit2::new(b);
            for c in 0..3 {
                let c = Bit2::new(c);
                if op.of(op.of(a, b), c) != op.of(a, op.of(b, c)) {
                    return false;
                }
            }
        }
    }
    true
}

fn distributive(op1: Op222, op2: Op222) -> bool {
    for a in 0..3 {
        let a = Bit2::new(a);
        for b in 0..3 {
            let b = Bit2::new(b);
            for c in 0..3 {
                let c = Bit2::new(c);
                if op1.of(a, op2.of(b, c)) != op2.of(op1.of(a, b), op1.of(a, c)) {
                    return false;
                }
            }
        }
    }
    true
}

#[test]
fn bitops_laws() {
    assert!(idempotent(counting::bool_and()));
    assert!(commutative(counting::bool_and()));
    assert!(associative(counting::bool_and()));

    assert!(!idempotent(counting::bool_or()));
    assert!(commutative(counting::bool_or()));
    assert!(associative(counting::bool_or()));

    assert!(distributive(counting::bool_or(), counting::bool_and()));
    assert!(!distributive(counting::bool_and(), counting::bool_or()));

    for a in 0..3 {
        let a = Bit2::new(a);
        for b in 0..3 {
            let b = Bit2::new(b);
            assert_eq!(
                counting::bool_ornot().of(a, b),
                counting::bool_or().of(a, counting::bool_not().of(b))
            );
        }
    }
    assert_eq!(idempotent(counting::bool_or()), counting::bool_or().idempotent());
    assert_eq!(counting::bool_or().of(Bit2::new(1), Bit2::new(1)), Bit2::new(counting::BOOL_UNDEF2));
    assert_eq!(counting::bool_not().of(Bit2::new(0)), Bit2::new(counting::BOOL_TRUE));
}

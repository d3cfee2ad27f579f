use mu_calc::mu::Mu;
use mu_calc::mu::Mu::{All, And, Ex, Gfp, Lfp, Lit, Neg, Or, Var};
use mu_calc::sexpr::Sexpr::{List, Num, Sym};
use std::str::FromStr;

#[test]
fn mu_test_1() {
    assert_eq!(
        Mu::from_str("μx.[a]x ∨ x").unwrap(),
        Lfp(
            "x".to_string(),
            Box::new(Or(
                Box::new(All('a', Box::new(Var("x".to_string())))),
                Box::new(Var("x".to_string()))
            ))
        )
    )
}

#[test]
fn mu_test_2() {
    assert_eq!(
        Mu::from_str("μx.⟨a⟩x ∨ x").unwrap(),
        Lfp(
            "x".to_string(),
            Box::new(Or(
                Box::new(Ex('a', Box::new(Var("x".to_string())))),
                Box::new(Var("x".to_string()))
            ))
        )
    )
}

#[test]
fn mu_test_3() {
    assert_eq!(
        Mu::from_str("μx.νy.x ∧ y").unwrap(),
        Lfp(
            "x".to_string(),
            Box::new(Gfp(
                "y".to_string(),
                Box::new(And(
                    Box::new(Var("x".to_string())),
                    Box::new(Var("y".to_string()))
                )),
            ))
        )
    )
}

#[test]
fn mu_test_4() {
    assert_eq!(
        Mu::from_str("(μx.x) ∧ y").unwrap(),
        And(
            Box::new(Lfp("x".to_string(), Box::new(Var("x".to_string())))),
            Box::new(Var("y".to_string()))
        )
    )
}

#[test]
fn mu_test_5() {
    let sexpr = List(vec![
        Sym("lfp".to_string()),
        List(vec![Sym("x".to_string())]),
        Sym("x".to_string()),
    ]);
    assert_eq!(
        Mu::from_sexpr(sexpr).unwrap(),
        Lfp("x".to_string(), Box::new(Var("x".to_string()))),
    )
}

#[test]
fn mu_test_6() {
    let sexpr = List(vec![
        Sym("gfp".to_string()),
        List(vec![Sym("x".to_string())]),
        Sym("x".to_string()),
    ]);
    assert_eq!(
        Mu::from_sexpr(sexpr).unwrap(),
        Gfp("x".to_string(), Box::new(Var("x".to_string()))),
    )
}

#[test]
fn mu_test_7() {
    let sexpr = List(vec![
        Sym("and".to_string()),
        Sym("x".to_string()),
        Sym("y".to_string()),
    ]);
    assert_eq!(
        Mu::from_sexpr(sexpr).unwrap(),
        And(
            Box::new(Lit("x".to_string())),
            Box::new(Lit("y".to_string()))
        ),
    )
}

#[test]
fn mu_test_8() {
    let sexpr = List(vec![
        Sym("and".to_string()),
        List(vec![
            Sym("lfp".to_string()),
            List(vec![Sym("x".to_string())]),
            Sym("x".to_string()),
        ]),
        Sym("x".to_string()),
    ]);
    assert_eq!(
        Mu::from_sexpr(sexpr).unwrap(),
        And(
            Box::new(Lfp("x".to_string(), Box::new(Var("x".to_string())))),
            Box::new(Lit("x".to_string()))
        ),
    )
}

#[test]
fn infix_numbers_are_literals() {
    assert_eq!(
        Mu::from_str("¬12 ∨ 3 ∧ 4").unwrap(),
        Or(
            Box::new(Neg(Box::new(Lit(12)))),
            Box::new(And(Box::new(Lit(3)), Box::new(Lit(4))))
        )
    );
}

#[test]
fn infix_rejects_trailing_input() {
    assert!(Mu::from_str("x)").is_err());
    assert!(Mu::from_str("").is_err());
    assert!(Mu::from_str("μ1.x").is_err());
    assert!(Mu::from_str("[a x").is_err());
}

#[test]
fn infix_display_round_trip() {
    let f: Mu<char, u32> = Lfp(
        "X".to_string(),
        Box::new(Or(
            Box::new(Lit(17)),
            Box::new(And(
                Box::new(Ex('a', Box::new(Var("X".to_string())))),
                Box::new(Neg(Box::new(All('b', Box::new(Gfp("Y".to_string(), Box::new(Var("Y".to_string()))))))))
            )),
        )),
    );
    let text = f.to_infix();
    assert_eq!(text, "(μX.(17∨((⟨a⟩X)∧¬([b](νY.Y)))))");
    assert_eq!(Mu::from_str(&text).unwrap(), f);
}

#[test]
fn infix_display_of_literal() {
    let f: Mu<char, u32> = Lit(4096);
    assert_eq!(f.to_infix(), "4096");
    assert_eq!(Mu::<char, u32>::from_str(&f.to_infix()).unwrap(), f);
}

#[test]
fn sexpr_or_folds_left() {
    let sexpr = List(vec![
        Sym("or".to_string()),
        Sym("a".to_string()),
        Sym("b".to_string()),
        Sym("c".to_string()),
    ]);
    assert_eq!(
        Mu::from_sexpr(sexpr).unwrap(),
        Or(
            Box::new(Or(Box::new(Lit("a".to_string())), Box::new(Lit("b".to_string())))),
            Box::new(Lit("c".to_string()))
        )
    );
}

#[test]
fn sexpr_all_and_not() {
    let sexpr = List(vec![
        Sym("all".to_string()),
        List(vec![Sym("go".to_string())]),
        List(vec![Sym("not".to_string()), Sym("P".to_string())]),
    ]);
    assert_eq!(
        Mu::from_sexpr(sexpr).unwrap(),
        All("go".to_string(), Box::new(Neg(Box::new(Lit("P".to_string())))))
    );
}

#[test]
fn sexpr_rejects_bad_forms() {
    assert_eq!(Mu::from_sexpr(Num(3)), None);
    assert_eq!(Mu::from_sexpr(List(vec![])), None);
    assert_eq!(Mu::from_sexpr(List(vec![Sym("and".to_string())])), None);
    assert_eq!(
        Mu::from_sexpr(List(vec![Sym("lfp".to_string()), Sym("x".to_string()), Sym("x".to_string())])),
        None
    );
    assert_eq!(Mu::from_sexpr(List(vec![Sym("xor".to_string()), Sym("a".to_string())])), None);
}

#[test]
fn binder_turns_only_its_name_into_variable() {
    let sexpr = List(vec![
        Sym("gfp".to_string()),
        List(vec![Sym("X".to_string())]),
        List(vec![Sym("and".to_string()), Sym("X".to_string()), Sym("Y".to_string())]),
    ]);
    assert_eq!(
        Mu::from_sexpr(sexpr).unwrap(),
        Gfp(
            "X".to_string(),
            Box::new(And(Box::new(Var("X".to_string())), Box::new(Lit("Y".to_string()))))
        )
    );
}

#[test]
fn text_of_named_formula() {
    let sexpr = List(vec![
        Sym("lfp".to_string()),
        List(vec![Sym("X".to_string())]),
        List(vec![
            Sym("or".to_string()),
            Sym("Goal".to_string()),
            List(vec![Sym("any".to_string()), List(vec![Sym("step".to_string())]), Sym("X".to_string())]),
        ]),
    ]);
    let f = Mu::from_sexpr(sexpr).unwrap();
    assert_eq!(f.to_text(), "(μX.(Goal∨(⟨step⟩X)))");
}

use mu_calc::lang::Instr::{Label, Loop, SetActions, SetInit, SetProps, SetSpec, Trans};
use mu_calc::lang::{Instr, Prog, ProgEnv};
use mu_calc::mu::Mu;
use mu_calc::sexpr::Sexpr;
use mu_calc::ts::Ts;

#[test]
fn lang_test_1() {
    let prog = "
(props P)";
    assert_eq!(
        prog.parse::<Prog>(),
        Ok(Prog {
            instructions: vec![SetProps(vec!["P".to_string()])]
        })
    )
}

#[test]
fn lang_test_2() {
    let prog = "
(init 1)";
    assert_eq!(
        prog.parse::<Prog>(),
        Ok(Prog {
            instructions: vec![SetInit(vec![1])]
        })
    )
}

#[test]
fn lang_test_3() {
    let prog = "
(label 1 P)";
    assert_eq!(
        prog.parse::<Prog>(),
        Ok(Prog {
            instructions: vec![Label(1, vec!["P".to_string()])]
        })
    )
}

#[test]
fn lang_test_4() {
    let prog = "(trans 1 act 2)";
    assert_eq!(
        prog.parse::<Prog>(),
        Ok(Prog {
            instructions: vec![Trans(1, "act".to_string(), 2)]
        })
    )
}

#[test]
fn lang_test_5() {
    let prog = "
(loop 1 act)";
    assert_eq!(
        prog.parse::<Prog>(),
        Ok(Prog {
            instructions: vec![Loop(1, "act".to_string())]
        })
    )
}

#[test]
fn lang_test_6() {
    let prog = "(loop 1 act)";
    assert_eq!(
        prog.parse::<Prog>(),
        Ok(Prog {
            instructions: vec![Loop(1, "act".to_string())]
        })
    )
}

#[test]
fn lang_test_7() {
    let prog = "
(props P)
(init 1)
(actions act)
(random 1 act 2)";
    assert!(prog.parse::<Prog>().is_err())
}

#[test]
fn lang_test_8() {
    let prog = "
(props P)
(init 1)
(actions act)
(random 1 act 2)";
    assert!(prog.parse::<Prog>().is_err())
}

#[test]
fn test_9() {
    let prog = "(spec (lfp (a) (and s1 s2)))";
    assert!(prog.parse::<Prog>().is_ok())
}

#[test]
fn test_10() {
    let prog = "(props P)p";
    assert!(prog.parse::<Prog>().is_err())
}

#[test]
fn test_11() {
    let prog = "()";
    assert!(prog.parse::<Prog>().is_err())
}

#[test]
fn test_12() {
    let prog = "(trans 1 act 2)";
    assert!(prog.parse::<Prog>().unwrap().compile().is_err())
}

#[test]
fn test_13() {
    let prog = "(actions act)(trans 1 act 2)";
    assert_eq!(
        prog.parse::<Prog>().unwrap().compile(),
        Ok(Ts::new(
            vec![1, 2],
            vec![],
            vec![],
            vec![(1, vec![("act".to_string(), 2)])],
            vec![]
        ))
    )
}

#[test]
fn test_14() {
    let prog = "(actions act)(init 1)(trans 1 act 2)";
    assert_eq!(
        prog.parse::<Prog>().unwrap().compile(),
        Ok(Ts::new(
            vec![1, 2],
            vec![1],
            vec![],
            vec![(1, vec![("act".to_string(), 2)])],
            vec![]
        ))
    )
}

fn verdict(text: &str) -> Result<bool, String> {
    let prog = text.parse::<Prog>()?;
    let ts = prog.compile()?;
    ts.check()
}

#[test]
fn scenario_box_holds() {
    let text = "(props A)(actions a)(init 1)(label 2 A)(trans 1 a 2)(spec (all (a) A))";
    assert_eq!(verdict(text), Ok(true));
}

#[test]
fn scenario_box_fails() {
    let text = "(props A)(actions a)(init 1)(label 1 A)(trans 1 a 2)(spec (all (a) A))";
    assert_eq!(verdict(text), Ok(false));
}

#[test]
fn scenario_missing_diamond() {
    let text = "(props A)(actions a)(init 1)(label 1 A)(trans 1 a 2)(spec (any (b) A))";
    assert_eq!(verdict(text), Ok(false));
}

#[test]
fn scenario_cycle_gfp() {
    let text = "(props A B C)(actions a)(init 1)(label 1 A)(label 2 B)(label 3 C)
        (trans 1 a 2)(trans 2 a 3)(trans 3 a 1)
        (spec (gfp (X) (and X (or A (or B C)))))";
    assert_eq!(verdict(text), Ok(true));
}

#[test]
fn scenario_undeclared_action() {
    let prog = "(trans 1 a 2)".parse::<Prog>().unwrap();
    let err = prog.compile().unwrap_err();
    assert!(err.contains("undeclared action a"));
}

#[test]
fn scenario_props_twice() {
    let prog = "(props P)(props P)".parse::<Prog>().unwrap();
    let err = prog.compile().unwrap_err();
    assert!(err.contains("proposition set is declared twice"));
}

#[test]
fn actions_twice_rejected() {
    assert!("(actions a)(actions b)".parse::<Prog>().unwrap().compile().is_err());
}

#[test]
fn init_twice_rejected() {
    assert!("(init 1)(init 2)".parse::<Prog>().unwrap().compile().is_err());
}

#[test]
fn relabel_rejected() {
    let err = "(props P)(label 1 P)(label 1 P)".parse::<Prog>().unwrap().compile().unwrap_err();
    assert!(err.contains("label for states 1 is declared twice"));
}

#[test]
fn undeclared_proposition_rejected() {
    let err = "(props P)(label 1 Q)".parse::<Prog>().unwrap().compile().unwrap_err();
    assert!(err.contains("undeclared proposition Q"));
}

#[test]
fn transition_redefined_rejected() {
    let err = "(actions a)(trans 1 a 2)(loop 1 a)".parse::<Prog>().unwrap().compile().unwrap_err();
    assert!(err.contains("a-transition for states 1 is declared twice"));
}

#[test]
fn other_action_same_state_accepted() {
    let ts = "(actions a b)(trans 1 a 2)(trans 1 b 3)".parse::<Prog>().unwrap().compile().unwrap();
    assert_eq!(ts.succ(&1, &"a".to_string()), Some(2));
    assert_eq!(ts.succ(&1, &"b".to_string()), Some(3));
    assert_eq!(ts.succ(&2, &"a".to_string()), None);
}

#[test]
fn init_and_label_add_states() {
    let ts = "(props P)(init 5)(label 7 P)".parse::<Prog>().unwrap().compile().unwrap();
    assert_eq!(ts, Ts::new(vec![5, 7], vec![5], vec![(7, vec!["P".to_string()])], vec![], vec![]));
    assert_eq!(ts.label(&7), vec!["P".to_string()]);
    assert_eq!(ts.label(&5), Vec::<String>::new());
}

#[test]
fn empty_program_is_accepted() {
    let prog = "  \n ".parse::<Prog>().unwrap();
    assert_eq!(prog, Prog { instructions: vec![] });
    assert_eq!(prog.compile().unwrap().check(), Ok(true));
}

#[test]
fn arity_errors_rejected() {
    assert!("(trans 1 a)".parse::<Prog>().is_err());
    assert!("(trans 1 a 2 3)".parse::<Prog>().is_err());
    assert!("(loop 1)".parse::<Prog>().is_err());
    assert!("(props)".parse::<Prog>().is_err());
    assert!("(init a)".parse::<Prog>().is_err());
    assert!("(label P)".parse::<Prog>().is_err());
    assert!("(spec)".parse::<Prog>().is_err());
    assert!("(spec A B)".parse::<Prog>().is_err());
}

#[test]
fn number_overflow_rejected() {
    assert!("(init 4294967296)".parse::<Prog>().is_err());
    assert_eq!(
        "(init 4294967295)".parse::<Prog>(),
        Ok(Prog { instructions: vec![SetInit(vec![4294967295])] })
    );
}

#[test]
fn instruction_from_sexpr() {
    let s = Sexpr::List(vec![
        Sexpr::Sym("trans".to_string()),
        Sexpr::Num(3),
        Sexpr::Sym("go".to_string()),
        Sexpr::Num(4),
    ]);
    assert_eq!(Instr::from_sexpr(s), Some(Trans(3, "go".to_string(), 4)));
    assert_eq!(Instr::from_sexpr(Sexpr::Sym("trans".to_string())), None);
}

#[test]
fn spec_instruction_parses_formula() {
    let prog = "(spec (not (any (a) P)))".parse::<Prog>().unwrap();
    assert_eq!(
        prog.instructions,
        vec![SetSpec(Mu::Neg(Box::new(Mu::Ex(
            "a".to_string(),
            Box::new(Mu::Lit("P".to_string()))
        ))))]
    );
}

#[test]
fn env_exec_keeps_state_on_error() {
    let mut env = ProgEnv::new();
    assert!(env.exec(SetActions(vec!["a".to_string()])).is_ok());
    assert!(env.exec(Trans(1, "b".to_string(), 2)).is_err());
    assert!(env.exec(Trans(1, "a".to_string(), 2)).is_ok());
    assert!(env.exec(Loop(1, "a".to_string())).is_err());
}

#[test]
fn lfp_reachability() {
    let text = "(props G)(actions a)(init 1)(trans 1 a 2)(trans 2 a 3)(label 3 G)
        (spec (lfp (X) (or G (any (a) X))))";
    assert_eq!(verdict(text), Ok(true));
    let text = "(props G)(actions a)(init 1)(trans 1 a 2)(trans 2 a 1)(label 3 G)
        (spec (lfp (X) (or G (any (a) X))))";
    assert_eq!(verdict(text), Ok(false));
}

#[test]
fn first_failing_spec_decides() {
    let text = "(props A)(init 1)(spec A)(spec B)";
    assert_eq!(verdict(text), Ok(false));
}

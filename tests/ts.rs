use mu_calc::mu::Mu;
use mu_calc::ts::Ts;

#[test]
fn ts_test_1() {
    let ts = Ts::new(
        vec![1, 2],
        vec![1],
        vec![(2, vec!['A'])],
        vec![(1, vec![('a', 2)])],
        vec![Mu::All('b', Box::new(Mu::Lit('A')))],
    );
    assert!(ts.check().unwrap())
}

#[test]
fn ts_test_2() {
    let ts = Ts::new(
        vec![1, 2],
        vec![1],
        vec![(2, vec!['A'])],
        vec![(1, vec![('a', 2)])],
        vec![Mu::All('a', Box::new(Mu::Lit('A')))],
    );
    assert!(ts.check().unwrap())
}

#[test]
fn ts_test_3() {
    let ts = Ts::new(
        vec![1, 2],
        vec![1],
        vec![(1, vec!['A'])],
        vec![(1, vec![('a', 2)])],
        vec![Mu::All('a', Box::new(Mu::Lit('A')))],
    );
    assert!(!ts.check().unwrap())
}

#[test]
fn ts_test_4() {
    let ts = Ts::new(
        vec![1, 2],
        vec![1],
        vec![(1, vec!['A'])],
        vec![(1, vec![('a', 2)])],
        vec![Mu::Ex('a', Box::new(Mu::Lit('A')))],
    );
    assert!(!ts.check().unwrap())
}

#[test]
fn ts_test_5() {
    let ts = Ts::new(
        vec![1, 2],
        vec![1],
        vec![(1, vec!['A'])],
        vec![(1, vec![('a', 2)])],
        vec![Mu::Ex('b', Box::new(Mu::Lit('A')))],
    );
    assert!(!ts.check().unwrap())
}

#[test]
fn ts_test_6() {
    let ts = Ts::new(
        vec![1, 2, 3],
        vec![1],
        vec![(3, vec!['A'])],
        vec![(1, vec![('a', 2), ('b', 3)])],
        vec![Mu::Ex('b', Box::new(Mu::Lit('A')))],
    );
    assert!(ts.check().unwrap())
}

fn cycle_with(spec: Mu<char, char>) -> Ts<char, char> {
    Ts::new(
        vec![1, 2, 3],
        vec![1],
        vec![(1, vec!['A']), (2, vec!['B']), (3, vec!['C'])],
        vec![(1, vec![('a', 2)]), (2, vec![('a', 3)]), (3, vec![('a', 1)])],
        vec![spec],
    )
}

#[test]
fn ts_test_7() {
    let phi = Mu::Or(Box::new(Mu::Lit('B')), Box::new(Mu::Lit('C')));
    let phi = Mu::Or(Box::new(Mu::Lit('A')), Box::new(phi));
    let phi = Mu::And(Box::new(Mu::Var("X".to_string())), Box::new(phi));
    let spec = Mu::Gfp("X".to_string(), Box::new(phi));
    let ts = cycle_with(spec);
    assert!(ts.check().unwrap());
}

#[test]
fn ts_test_8() {
    let phi = Mu::Or(Box::new(Mu::Lit('B')), Box::new(Mu::Lit('C')));
    let phi = Mu::Or(Box::new(Mu::Lit('A')), Box::new(phi));
    let phi = Mu::And(Box::new(Mu::Var("X".to_string())), Box::new(phi));
    let spec = Mu::Gfp("X".to_string(), Box::new(phi));
    let ts = cycle_with(spec);
    assert!(ts.check().unwrap());
}

#[test]
fn free_variable_is_an_error() {
    let ts = cycle_with(Mu::Var("X".to_string()));
    assert!(ts.check().is_err());
    let ts = cycle_with(Mu::Lfp("Y".to_string(), Box::new(Mu::Var("X".to_string()))));
    assert!(ts.check().is_err());
}

#[test]
fn sat_of_literals_and_negation() {
    let ts = cycle_with(Mu::Lit('A'));
    let mut a = ts.sat(&Mu::Lit('A'), vec![]).unwrap();
    a.sort();
    assert_eq!(a, vec![1]);
    let mut not_a = ts.sat(&Mu::Neg(Box::new(Mu::Lit('A'))), vec![]).unwrap();
    not_a.sort();
    assert_eq!(not_a, vec![2, 3]);
    let mut nn = ts.sat(&Mu::Neg(Box::new(Mu::Neg(Box::new(Mu::Lit('A'))))), vec![]).unwrap();
    nn.sort();
    assert_eq!(nn, vec![1]);
}

#[test]
fn sat_uses_environment() {
    let ts = cycle_with(Mu::Lit('A'));
    let env = vec![("X".to_string(), vec![2, 3]), ("X".to_string(), vec![3])];
    let mut r = ts.sat(&Mu::Ex('a', Box::new(Mu::Var("X".to_string()))), env).unwrap();
    r.sort();
    assert_eq!(r, vec![2]);
    assert!(ts.sat(&Mu::Var("Z".to_string()), vec![]).is_err());
}

#[test]
fn duality_on_cycle() {
    let ts = cycle_with(Mu::Lit('A'));
    let ex = Mu::Ex('a', Box::new(Mu::Lit('B')));
    let dual = Mu::Neg(Box::new(Mu::All('a', Box::new(Mu::Neg(Box::new(Mu::Lit('B')))))));
    let mut l = ts.sat(&ex, vec![]).unwrap();
    let mut r = ts.sat(&dual, vec![]).unwrap();
    l.sort();
    r.sort();
    assert_eq!(l, vec![1]);
    assert_eq!(l, r);
}

#[test]
fn box_vacuity_without_successors() {
    let ts = cycle_with(Mu::Lit('A'));
    let mut all = ts.sat(&Mu::All('z', Box::new(Mu::Neg(Box::new(Mu::Lit('A'))))), vec![]).unwrap();
    all.sort();
    assert_eq!(all, vec![1, 2, 3]);
    assert_eq!(ts.sat(&Mu::Ex('z', Box::new(Mu::Lit('A'))), vec![]).unwrap(), Vec::<u32>::new());
}

#[test]
fn least_and_greatest_fixpoints_differ() {
    let ts = cycle_with(Mu::Lit('A'));
    let body = || Mu::Ex('a', Box::new(Mu::Var("X".to_string())));
    assert_eq!(ts.sat(&Mu::Lfp("X".to_string(), Box::new(body())), vec![]).unwrap(), Vec::<u32>::new());
    let mut g = ts.sat(&Mu::Gfp("X".to_string(), Box::new(body())), vec![]).unwrap();
    g.sort();
    assert_eq!(g, vec![1, 2, 3]);
}

#[test]
fn label_and_succ_lookups() {
    let ts = Ts::new(
        vec![1, 2, 2],
        vec![1],
        vec![(1, vec!['A']), (1, vec!['B', 'C'])],
        vec![(1, vec![('a', 2), ('a', 1)])],
        vec![],
    );
    assert_eq!(ts.label(&1), vec!['B', 'C']);
    assert_eq!(ts.label(&2), Vec::<char>::new());
    assert_eq!(ts.succ(&1, &'a'), Some(1));
    assert_eq!(ts.succ(&2, &'a'), None);
    assert_eq!(ts.check(), Ok(true));
}

#[test]
fn initial_state_outside_states_fails() {
    let ts: Ts<char, char> = Ts::new(vec![1], vec![9], vec![], vec![], vec![Mu::Neg(Box::new(Mu::Lit('A')))]);
    assert_eq!(ts.check(), Ok(false));
}

#[test]
fn monotone_in_positive_variable() {
    let ts = cycle_with(Mu::Lit('A'));
    let phi = Mu::Or(Box::new(Mu::Lit('A')), Box::new(Mu::Ex('a', Box::new(Mu::Var("X".to_string())))));
    let mut small = ts.sat(&phi, vec![("X".to_string(), vec![3])]).unwrap();
    let mut large = ts.sat(&phi, vec![("X".to_string(), vec![2, 3])]).unwrap();
    small.sort();
    large.sort();
    assert_eq!(small, vec![1, 2]);
    assert_eq!(large, vec![1, 2]);
    let mut none = ts.sat(&phi, vec![("X".to_string(), vec![])]).unwrap();
    none.sort();
    assert_eq!(none, vec![1]);
    assert!(none.iter().all(|s| small.contains(s)));
}

#[test]
fn least_fixpoint_on_long_chain() {
    let n: u32 = 40;
    let states: Vec<u32> = (1..=n).collect();
    let transitions: Vec<(u32, Vec<(char, u32)>)> = (1..n).map(|s| (s, vec![('a', s + 1)])).collect();
    let reach = Mu::Lfp(
        "X".to_string(),
        Box::new(Mu::Or(Box::new(Mu::Lit('G')), Box::new(Mu::Ex('a', Box::new(Mu::Var("X".to_string())))))),
    );
    let ts = Ts::new(states, vec![1], vec![(n, vec!['G'])], transitions, vec![reach]);
    assert_eq!(ts.check(), Ok(true));
}

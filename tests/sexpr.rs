use mu_calc::buff::Buff;
use mu_calc::sexpr::Sexpr;
use mu_calc::sexpr::Sexpr::{List, Num, Sym};

fn chars(s: &str) -> Vec<char> {
    s.chars().collect()
}

#[test]
fn parse_nested_lists() {
    let mut b = Buff::new(chars("  (a (12 b3) ())  rest"));
    let x = Sexpr::parse(&mut b).unwrap();
    assert_eq!(
        x,
        List(vec![
            Sym("a".to_string()),
            List(vec![Num(12), Sym("b3".to_string())]),
            List(vec![])
        ])
    );
    assert_eq!(Sexpr::parse(&mut b), Some(Sym("rest".to_string())));
    assert_eq!(Sexpr::parse(&mut b), None);
}

#[test]
fn parse_all_needs_whole_input() {
    let mut b = Buff::new(chars("(a) b 7 \n"));
    assert_eq!(
        Sexpr::parse_all(&mut b),
        Some(vec![List(vec![Sym("a".to_string())]), Sym("b".to_string()), Num(7)])
    );
    let mut b = Buff::new(chars("(a) )"));
    assert_eq!(Sexpr::parse_all(&mut b), None);
    let mut b = Buff::new(chars("(a"));
    assert_eq!(Sexpr::parse_all(&mut b), None);
}

#[test]
fn parse_list_needs_one() {
    let mut b = Buff::new(chars("a b )"));
    assert_eq!(Sexpr::parse_list(&mut b), Some(vec![Sym("a".to_string()), Sym("b".to_string())]));
    let mut b = Buff::new(chars(")"));
    assert_eq!(Sexpr::parse_list(&mut b), None);
}

#[test]
fn symbols_start_with_a_letter() {
    let mut b = Buff::new(chars("_x"));
    assert_eq!(Sexpr::parse(&mut b), None);
}

#[test]
fn queries_and_getters() {
    assert!(Sym("a".to_string()).is_symb());
    assert!(!Sym("a".to_string()).is_num());
    assert!(Num(1).is_num());
    assert!(List(vec![]).is_list());
    assert_eq!(Sym("a".to_string()).get_symb(), "a");
    assert_eq!(Num(5).get_num(), 5);
    assert_eq!(List(vec![Num(1)]).get_list(), vec![Num(1)]);
}

#[test]
fn cursor_backtracking() {
    let mut b = Buff::new(chars("abc"));
    b.save();
    assert_eq!(b.next(), Some('a'));
    b.update_save();
    assert_eq!(b.next(), Some('b'));
    b.restore_save();
    assert_eq!(b.top(), Some('b'));
    b.restore();
    assert_eq!(b.top(), Some('b'));
    b.restore();
    assert_eq!(b.top(), Some('a'));
    assert_eq!(b.expect('a'), Some(()));
    assert_eq!(b.expect('x'), None);
    assert_eq!(b.top(), Some('c'));
    assert_eq!(b.expect_one_of(vec!['q', 'c']), Some(()));
    assert!(b.is_empty());
    assert_eq!(b.pop(), None);
    assert_eq!(b.expect_end(), Some(()));
}

#[test]
fn character_readers() {
    let mut b = Buff::new(chars("  007 x1y2 9z"));
    assert_eq!(b.expect_u32(), Some(7));
    assert_eq!(b.expect_symb(), Some("x1y2".to_string()));
    assert_eq!(b.expect_blank(), Some(()));
    assert_eq!(b.expect_digit(), Some('9'));
    assert_eq!(b.expect_alpha(), Some('z'));
    let mut b = Buff::new(chars(" token"));
    assert_eq!(b.expect_token("token".to_string()), Some(()));
    let mut b = Buff::new(chars(" other"));
    assert_eq!(b.expect_token("token".to_string()), None);
    let mut b = Buff::new(chars("\t\n x"));
    b.trim();
    assert_eq!(b.top(), Some('x'));
}

#[test]
fn expect_cond_takes_matching_token() {
    let mut b = Buff::new(chars("ab"));
    assert_eq!(b.expect_cond(|c: &char| *c == 'a'), Some('a'));
    assert_eq!(b.expect_cond(|c: &char| *c == 'a'), None);
    assert!(b.is_empty());
    assert_eq!(b.expect_cond(|_c: &char| true), None);
}

#[test]
fn sexpr_text() {
    let x = List(vec![Sym("a".to_string()), List(vec![Num(12), Sym("b".to_string())]), List(vec![])]);
    assert_eq!(x.to_text(), "(a, (12, b), ())");
    assert_eq!(Num(0).to_text(), "0");
}

#[test]
fn expect_list_takes_a_run() {
    let mut b = Buff::new(vec![Sym("a".to_string()), Sym("b".to_string()), Num(1)]);
    assert_eq!(b.expect_list(Sexpr::is_symb, Sexpr::get_symb), Some(vec!["a".to_string(), "b".to_string()]));
    assert_eq!(b.top(), Some(Num(1)));
    assert_eq!(b.expect_list(Sexpr::is_symb, Sexpr::get_symb), None);
    let mut b = Buff::new(chars("123x"));
    assert_eq!(b.expect_list(|c: &char| c.is_ascii_digit(), |c: char| c as u32 - '0' as u32), Some(vec![1, 2, 3]));
    assert_eq!(b.top(), Some('x'));
}

use vstd::prelude::*;

use crate::buff::{number_at, Buff};
use crate::sexpr::{lemma_list_view, views, Sexpr, SexprModel};
use crate::token::{decimal, is_alpha, is_digit, is_ws, push_str, Text, Token};

verus! {

/// A formula of the modal mu-calculus over actions `A` and propositions `P`.
#[derive(Debug, PartialEq, Eq)]
pub enum Mu<A, P> {
    Lit(P),
    Neg(Box<Mu<A, P>>),
    And(Box<Mu<A, P>>, Box<Mu<A, P>>),
    Or(Box<Mu<A, P>>, Box<Mu<A, P>>),
    Gfp(String, Box<Mu<A, P>>),
    All(A, Box<Mu<A, P>>),
    Lfp(String, Box<Mu<A, P>>),
    Ex(A, Box<Mu<A, P>>),
    Var(String),
}

/// The mathematical value of a formula: names of fixpoint variables are
/// character sequences.
pub enum Formula<A, P> {
    Lit(P),
    Neg(Box<Formula<A, P>>),
    And(Box<Formula<A, P>>, Box<Formula<A, P>>),
    Or(Box<Formula<A, P>>, Box<Formula<A, P>>),
    Gfp(Seq<char>, Box<Formula<A, P>>),
    All(A, Box<Formula<A, P>>),
    Lfp(Seq<char>, Box<Formula<A, P>>),
    Ex(A, Box<Formula<A, P>>),
    Var(Seq<char>),
}

impl<A: View, P: View> View for Mu<A, P> {
    type V = Formula<A::V, P::V>;

    open spec fn view(&self) -> Formula<A::V, P::V>
        decreases self,
    {
        match self {
            Mu::Lit(p) => Formula::Lit(p@),
            Mu::Neg(a) => Formula::Neg(Box::new((**a).view())),
            Mu::And(a, b) => Formula::And(Box::new((**a).view()), Box::new((**b).view())),
            Mu::Or(a, b) => Formula::Or(Box::new((**a).view()), Box::new((**b).view())),
            Mu::Gfp(x, a) => Formula::Gfp(x@, Box::new((**a).view())),
            Mu::All(act, a) => Formula::All(act@, Box::new((**a).view())),
            Mu::Lfp(x, a) => Formula::Lfp(x@, Box::new((**a).view())),
            Mu::Ex(act, a) => Formula::Ex(act@, Box::new((**a).view())),
            Mu::Var(x) => Formula::Var(x@),
        }
    }
}

/// Turns every literal named `x` into the variable `x`.
pub open spec fn bind_var<A>(f: Formula<A, Seq<char>>, x: Seq<char>) -> Formula<A, Seq<char>>
    decreases f,
{
    match f {
        Formula::Lit(p) => if p == x {
            Formula::Var(p)
        } else {
            Formula::Lit(p)
        },
        Formula::Neg(a) => Formula::Neg(Box::new(bind_var(*a, x))),
        Formula::And(a, b) => Formula::And(Box::new(bind_var(*a, x)), Box::new(bind_var(*b, x))),
        Formula::Or(a, b) => Formula::Or(Box::new(bind_var(*a, x)), Box::new(bind_var(*b, x))),
        Formula::Gfp(y, a) => Formula::Gfp(y, Box::new(bind_var(*a, x))),
        Formula::All(act, a) => Formula::All(act, Box::new(bind_var(*a, x))),
        Formula::Lfp(y, a) => Formula::Lfp(y, Box::new(bind_var(*a, x))),
        Formula::Ex(act, a) => Formula::Ex(act, Box::new(bind_var(*a, x))),
        Formula::Var(y) => Formula::Var(y),
    }
}

/// The name inside a one-element list `(name)`.
pub open spec fn singleton_sym(x: SexprModel) -> Option<Seq<char>> {
    match x {
        SexprModel::List(l) => if l.len() == 1 && l[0] is Sym {
            Some(l[0]->Sym_0)
        } else {
            None
        },
        _ => None,
    }
}

/// The formulas of the elements `1..n` of the list `x`, joined from the
/// left with `Or` (if `is_or`) or `And`.
pub open spec fn fold_list(x: SexprModel, n: int, is_or: bool) -> Option<
    Formula<Seq<char>, Seq<char>>,
>
    decreases x, 0int, n,
{
    match x {
        SexprModel::List(l) => if n <= 1 || n > l.len() {
            None
        } else if n == 2 {
            formula_of(l[1])
        } else {
            match (fold_list(x, n - 1, is_or), formula_of(l[n - 1])) {
                (Some(a), Some(b)) => Some(
                    if is_or {
                        Formula::Or(Box::new(a), Box::new(b))
                    } else {
                        Formula::And(Box::new(a), Box::new(b))
                    },
                ),
                _ => None,
            }
        },
        _ => None,
    }
}

/// The formula an S-expression stands for: a symbol is a proposition;
/// `(not φ)`, `(and φ ...)`, `(or φ ...)`, `(any (a) φ)`, `(all (a) φ)`,
/// `(lfp (X) φ)` and `(gfp (X) φ)` build the other forms, and a binder turns
/// the literals of its name in its body into variables.
pub open spec fn formula_of(x: SexprModel) -> Option<Formula<Seq<char>, Seq<char>>>
    decreases x, 1int, 0int,
{
    match x {
        SexprModel::Sym(s) => Some(Formula::Lit(s)),
        SexprModel::Num(_) => None,
        SexprModel::List(l) => if l.len() == 0 || !(l[0] is Sym) {
            None
        } else {
            let op = l[0]->Sym_0;
            if op == "any"@ || op == "all"@ {
                if l.len() == 3 && singleton_sym(l[1]) is Some && formula_of(l[2]) is Some {
                    let a = singleton_sym(l[1])->0;
                    let b = formula_of(l[2])->0;
                    Some(
                        if op == "any"@ {
                            Formula::Ex(a, Box::new(b))
                        } else {
                            Formula::All(a, Box::new(b))
                        },
                    )
                } else {
                    None
                }
            } else if op == "lfp"@ || op == "gfp"@ {
                if l.len() == 3 && singleton_sym(l[1]) is Some && formula_of(l[2]) is Some {
                    let y = singleton_sym(l[1])->0;
                    let b = bind_var(formula_of(l[2])->0, y);
                    Some(
                        if op == "lfp"@ {
                            Formula::Lfp(y, Box::new(b))
                        } else {
                            Formula::Gfp(y, Box::new(b))
                        },
                    )
                } else {
                    None
                }
            } else if op == "or"@ || op == "and"@ {
                fold_list(x, l.len() as int, op == "or"@)
            } else if op == "not"@ {
                if l.len() == 2 && formula_of(l[1]) is Some {
                    Some(Formula::Neg(Box::new(formula_of(l[1])->0)))
                } else {
                    None
                }
            } else {
                None
            }
        },
    }
}

/// Once an element fails, every longer prefix fails.
proof fn lemma_fold_list_none(x: SexprModel, n: int, m: int, is_or: bool)
    requires
        2 <= n <= m,
        fold_list(x, n, is_or) is None,
    ensures
        fold_list(x, m, is_or) is None,
    decreases m - n,
{
    if n < m {
        lemma_fold_list_none(x, n, m - 1, is_or);
    }
}

/// Whether `s` holds the characters of `w`.
pub(crate) fn is_word(s: &String, w: &str) -> (r: bool)
    ensures
        r == (s@ == w@),
{
    let t = w.to_owned();
    *s == t
}

impl Mu<String, String> {
    /// Turns every literal named `var` into the variable `var`.
    fn lit_to_var(self, var: &String) -> (r: Self)
        ensures
            r@ == bind_var(self@, var@),
        decreases self,
    {
        match self {
            Mu::Lit(x) => {
                if x.same(var) {
                    Mu::Var(x)
                } else {
                    Mu::Lit(x)
                }
            },
            Mu::Neg(a) => Mu::Neg(Box::new((*a).lit_to_var(var))),
            Mu::And(a, b) => Mu::And(Box::new((*a).lit_to_var(var)), Box::new((*b).lit_to_var(var))),
            Mu::Or(a, b) => Mu::Or(Box::new((*a).lit_to_var(var)), Box::new((*b).lit_to_var(var))),
            Mu::Gfp(x, a) => Mu::Gfp(x, Box::new((*a).lit_to_var(var))),
            Mu::All(act, a) => Mu::All(act, Box::new((*a).lit_to_var(var))),
            Mu::Lfp(x, a) => Mu::Lfp(x, Box::new((*a).lit_to_var(var))),
            Mu::Ex(act, a) => Mu::Ex(act, Box::new((*a).lit_to_var(var))),
            Mu::Var(x) => Mu::Var(x),
        }
    }
}

impl Mu<String, String> {
    /// The name in a one-element list `(name)`.
    fn singleton_symb(x: Sexpr) -> (r: Option<String>)
        ensures
            r is Some == singleton_sym(x@) is Some,
            r matches Some(s) ==> s@ == singleton_sym(x@)->0,
    {
        let ghost g = x;
        match x {
            Sexpr::List(l) => {
                proof {
                    lemma_list_view(g, l);
                }
                if l.len() == 1 {
                    match &l[0] {
                        Sexpr::Sym(s) => Some(s.clone()),
                        _ => None,
                    }
                } else {
                    None
                }
            },
            _ => None,
        }
    }

    fn parse_quantifier(buff: &mut Buff<Sexpr>, is_any: bool, Ghost(whole): Ghost<SexprModel>) -> (r:
        Option<Self>)
        requires
            old(buff).wf(),
            old(buff).pos() == 1,
            whole == SexprModel::List(views(old(buff).data())),
            old(buff).data().len() >= 1,
            views(old(buff).data())[0] is Sym,
            ({
                let op = views(old(buff).data())[0]->Sym_0;
                &&& op == "any"@ || op == "all"@
                &&& is_any == (op == "any"@)
            }),
        ensures
            r is Some == formula_of(whole) is Some,
            r matches Some(m) ==> m@ == formula_of(whole)->0,
        decreases whole, 0int, 0int,
    {
        let ghost l = views(buff.data());
        let x = buff.next()?;
        let a = Self::singleton_symb(x)?;
        let y = buff.next()?;
        assert(decreases_to!(whole => l[2]));
        let mu = Self::from_sexpr(y)?;
        buff.expect_end()?;
        if is_any {
            Some(Mu::Ex(a, Box::new(mu)))
        } else {
            Some(Mu::All(a, Box::new(mu)))
        }
    }

    fn parse_fixpoint(buff: &mut Buff<Sexpr>, is_lfp: bool, Ghost(whole): Ghost<SexprModel>) -> (r:
        Option<Self>)
        requires
            old(buff).wf(),
            old(buff).pos() == 1,
            whole == SexprModel::List(views(old(buff).data())),
            old(buff).data().len() >= 1,
            views(old(buff).data())[0] is Sym,
            ({
                let op = views(old(buff).data())[0]->Sym_0;
                &&& !(op == "any"@ || op == "all"@)
                &&& op == "lfp"@ || op == "gfp"@
                &&& is_lfp == (op == "lfp"@)
            }),
        ensures
            r is Some == formula_of(whole) is Some,
            r matches Some(m) ==> m@ == formula_of(whole)->0,
        decreases whole, 0int, 0int,
    {
        let ghost l = views(buff.data());
        let x = buff.next()?;
        let var = Self::singleton_symb(x)?;
        let y = buff.next()?;
        assert(decreases_to!(whole => l[2]));
        let body = Self::from_sexpr(y)?;
        buff.expect_end()?;
        let mu = body.lit_to_var(&var);
        if is_lfp {
            Some(Mu::Lfp(var, Box::new(mu)))
        } else {
            Some(Mu::Gfp(var, Box::new(mu)))
        }
    }

    fn parse_binop(buff: &mut Buff<Sexpr>, is_or: bool, Ghost(whole): Ghost<SexprModel>) -> (r:
        Option<Self>)
        requires
            old(buff).wf(),
            old(buff).pos() == 1,
            whole == SexprModel::List(views(old(buff).data())),
            old(buff).data().len() >= 1,
            views(old(buff).data())[0] is Sym,
            ({
                let op = views(old(buff).data())[0]->Sym_0;
                &&& !(op == "any"@ || op == "all"@)
                &&& !(op == "lfp"@ || op == "gfp"@)
                &&& op == "or"@ || op == "and"@
                &&& is_or == (op == "or"@)
            }),
        ensures
            r is Some == formula_of(whole) is Some,
            r matches Some(m) ==> m@ == formula_of(whole)->0,
        decreases whole, 0int, 0int,
    {
        let ghost l = views(buff.data());
        let ghost n = l.len() as int;
        assert(formula_of(whole) == fold_list(whole, n, is_or));
        let first = buff.next()?;
        assert(decreases_to!(whole => l[1]));
        let mut acc = match Self::from_sexpr(first) {
            Some(m) => m,
            None => {
                proof {
                    if n >= 2 {
                        lemma_fold_list_none(whole, 2, n, is_or);
                    }
                }
                return None;
            },
        };
        assert(fold_list(whole, 2, is_or) == formula_of(l[1]));
        while !buff.is_empty()
            invariant
                buff.wf(),
                views(buff.data()) == l,
                whole == SexprModel::List(l),
                n == l.len(),
                2 <= buff.pos() <= n,
                fold_list(whole, buff.pos(), is_or) == Some(acc@),
                formula_of(whole) == fold_list(whole, n, is_or),
            decreases n - buff.pos(),
        {
            proof {
                buff.lemma_pos_in_range();
            }
            let ghost k = buff.pos();
            let y = buff.next().unwrap();
            assert(decreases_to!(whole => l[k]));
            match Self::from_sexpr(y) {
                Some(m) => {
                    acc = if is_or {
                        Mu::Or(Box::new(acc), Box::new(m))
                    } else {
                        Mu::And(Box::new(acc), Box::new(m))
                    };
                },
                None => {
                    proof {
                        assert(fold_list(whole, k + 1, is_or) is None);
                        lemma_fold_list_none(whole, k + 1, n, is_or);
                    }
                    return None;
                },
            }
        }
        Some(acc)
    }

    fn parse_neg(buff: &mut Buff<Sexpr>, Ghost(whole): Ghost<SexprModel>) -> (r: Option<Self>)
        requires
            old(buff).wf(),
            old(buff).pos() == 1,
            whole == SexprModel::List(views(old(buff).data())),
            old(buff).data().len() >= 1,
            views(old(buff).data())[0] is Sym,
            ({
                let op = views(old(buff).data())[0]->Sym_0;
                &&& !(op == "any"@ || op == "all"@)
                &&& !(op == "lfp"@ || op == "gfp"@)
                &&& !(op == "or"@ || op == "and"@)
                &&& op == "not"@
            }),
        ensures
            r is Some == formula_of(whole) is Some,
            r matches Some(m) ==> m@ == formula_of(whole)->0,
        decreases whole, 0int, 0int,
    {
        let ghost l = views(buff.data());
        let y = buff.next()?;
        assert(decreases_to!(whole => l[1]));
        let mu = Self::from_sexpr(y)?;
        buff.expect_end()?;
        Some(Mu::Neg(Box::new(mu)))
    }

    /// Turns an S-expression into a formula; `None` if it is not one.
    pub fn from_sexpr(sexpr: Sexpr) -> (r: Option<Self>)
        ensures
            r is Some == formula_of(sexpr@) is Some,
            r matches Some(m) ==> m@ == formula_of(sexpr@)->0,
        decreases sexpr@, 1int, 0int,
    {
        let ghost g = sexpr;
        match sexpr {
            Sexpr::Sym(s) => Some(Mu::Lit(s)),
            Sexpr::Num(_) => None,
            Sexpr::List(list) => {
                proof {
                    lemma_list_view(g, list);
                }
                let mut buff = Buff::new(list);
                let op = buff.next()?;
                if !op.is_symb() {
                    return None;
                }
                let op = op.get_symb();
                if is_word(&op, "any") || is_word(&op, "all") {
                    Self::parse_quantifier(&mut buff, is_word(&op, "any"), Ghost(g@))
                } else if is_word(&op, "lfp") || is_word(&op, "gfp") {
                    Self::parse_fixpoint(&mut buff, is_word(&op, "lfp"), Ghost(g@))
                } else if is_word(&op, "or") || is_word(&op, "and") {
                    Self::parse_binop(&mut buff, is_word(&op, "or"), Ghost(g@))
                } else if is_word(&op, "not") {
                    Self::parse_neg(&mut buff, Ghost(g@))
                } else {
                    None
                }
            },
        }
    }
}

} // verus!

verus! {

/// An atom of the infix syntax at `p`: a number, a one-letter variable, a
/// parenthesised formula, `⟨a⟩φ`, `[a]φ`, `¬φ`, `μX.φ` or `νX.φ`. Gives the
/// formula and the position after it.
pub open spec fn atom_at(s: Seq<char>, p: int) -> Option<(Formula<char, u32>, int)>
    decreases s.len() - p, 0int,
{
    if p < 0 || p >= s.len() {
        None
    } else {
        let c = s[p];
        if is_digit(c) {
            match number_at(s, p) {
                Some((n, e)) => Some((Formula::Lit(n), e)),
                None => None,
            }
        } else if is_alpha(c) {
            Some((Formula::Var(seq![c]), p + 1))
        } else if c == '(' {
            match disj_at(s, p + 1) {
                Some((f, q)) => if 0 <= q < s.len() && s[q] == ')' {
                    Some((f, q + 1))
                } else {
                    None
                },
                None => None,
            }
        } else if c == '⟨' || c == '[' {
            if p + 2 < s.len() && s[p + 2] == (if c == '⟨' {
                '⟩'
            } else {
                ']'
            }) {
                match atom_at(s, p + 3) {
                    Some((f, q)) => Some(
                        (
                            if c == '⟨' {
                                Formula::Ex(s[p + 1], Box::new(f))
                            } else {
                                Formula::All(s[p + 1], Box::new(f))
                            },
                            q,
                        ),
                    ),
                    None => None,
                }
            } else {
                None
            }
        } else if c == '¬' {
            match atom_at(s, p + 1) {
                Some((f, q)) => Some((Formula::Neg(Box::new(f)), q)),
                None => None,
            }
        } else if c == 'μ' || c == 'ν' {
            if p + 2 < s.len() && is_alpha(s[p + 1]) && s[p + 2] == '.' {
                match disj_at(s, p + 3) {
                    Some((f, q)) => Some(
                        (
                            if c == 'μ' {
                                Formula::Lfp(seq![s[p + 1]], Box::new(f))
                            } else {
                                Formula::Gfp(seq![s[p + 1]], Box::new(f))
                            },
                            q,
                        ),
                    ),
                    None => None,
                }
            } else {
                None
            }
        } else {
            None
        }
    }
}

/// `∧`-separated atoms from `p`, joined from the left onto `lhs`.
pub open spec fn conj_rest(s: Seq<char>, p: int, lhs: Formula<char, u32>) -> Option<
    (Formula<char, u32>, int),
>
    decreases s.len() - p, 1int,
{
    if 0 <= p < s.len() && s[p] == '∧' {
        match atom_at(s, p + 1) {
            Some((r, q)) => if p < q <= s.len() {
                conj_rest(s, q, Formula::And(Box::new(lhs), Box::new(r)))
            } else {
                None
            },
            None => None,
        }
    } else {
        Some((lhs, p))
    }
}

/// A conjunction of atoms at `p`.
pub open spec fn conj_at(s: Seq<char>, p: int) -> Option<(Formula<char, u32>, int)>
    decreases s.len() - p, 2int,
{
    match atom_at(s, p) {
        Some((f, q)) => if p < q <= s.len() {
            conj_rest(s, q, f)
        } else {
            None
        },
        None => None,
    }
}

/// `∨`-separated conjunctions from `p`, joined from the left onto `lhs`.
pub open spec fn disj_rest(s: Seq<char>, p: int, lhs: Formula<char, u32>) -> Option<
    (Formula<char, u32>, int),
>
    decreases s.len() - p, 3int,
{
    if 0 <= p < s.len() && s[p] == '∨' {
        match conj_at(s, p + 1) {
            Some((r, q)) => if p < q <= s.len() {
                disj_rest(s, q, Formula::Or(Box::new(lhs), Box::new(r)))
            } else {
                None
            },
            None => None,
        }
    } else {
        Some((lhs, p))
    }
}

/// A disjunction of conjunctions at `p`.
pub open spec fn disj_at(s: Seq<char>, p: int) -> Option<(Formula<char, u32>, int)>
    decreases s.len() - p, 4int,
{
    match conj_at(s, p) {
        Some((f, q)) => if p < q <= s.len() {
            disj_rest(s, q, f)
        } else {
            None
        },
        None => None,
    }
}

/// The text without its whitespace.
pub open spec fn strip_ws(s: Seq<char>) -> Seq<char>
    decreases s.len(),
{
    if s.len() == 0 {
        s
    } else if is_ws(s.last()) {
        strip_ws(s.drop_last())
    } else {
        strip_ws(s.drop_last()).push(s.last())
    }
}

/// The formula that a text in the infix syntax stands for: whitespace is
/// dropped and the rest must be one formula.
pub open spec fn infix_formula(text: Seq<char>) -> Option<Formula<char, u32>> {
    let s = strip_ws(text);
    match disj_at(s, 0) {
        Some((f, q)) => if q == s.len() {
            Some(f)
        } else {
            None
        },
        None => None,
    }
}

impl Mu<char, u32> {
    fn parse_var(buff: &mut Buff<char>) -> (r: Option<char>)
        requires
            old(buff).wf(),
        ensures
            final(buff).wf(),
            final(buff).data() == old(buff).data(),
            final(buff).stack() == old(buff).stack(),
            r is Some == (old(buff).pos() < old(buff).data().len() && is_alpha(old(buff).data()[old(buff).pos()])),
            r matches Some(c) ==> c == old(buff).data()[old(buff).pos()] && final(buff).pos() == old(buff).pos() + 1,
    {
        buff.expect_alpha()
    }

    fn parse_act(buff: &mut Buff<char>) -> (r: Option<char>)
        requires
            old(buff).wf(),
        ensures
            final(buff).wf(),
            final(buff).data() == old(buff).data(),
            final(buff).stack() == old(buff).stack(),
            r is Some == (old(buff).pos() < old(buff).data().len()),
            r matches Some(c) ==> c == old(buff).data()[old(buff).pos()] && final(buff).pos() == old(buff).pos() + 1,
    {
        buff.next()
    }

    fn parse_atom(buff: &mut Buff<char>) -> (r: Option<Self>)
        requires
            old(buff).wf(),
        ensures
            final(buff).wf(),
            final(buff).data() == old(buff).data(),
            final(buff).stack() == old(buff).stack(),
            r is Some == atom_at(old(buff).data(), old(buff).pos()) is Some,
            r matches Some(f) ==> f@ == (atom_at(old(buff).data(), old(buff).pos())->0).0
                && final(buff).pos() == (atom_at(old(buff).data(), old(buff).pos())->0).1,
        decreases old(buff).data().len() - old(buff).pos(), 0int,
    {
        let ghost s = buff.data();
        let ghost p = buff.pos();
        proof {
            buff.lemma_pos_in_range();
        }
        let c = buff.top()?;
        if '0' <= c && c <= '9' {
            assert(crate::buff::skip_ws(s, p) == p);
            let n = buff.expect_u32()?;
            Some(Mu::Lit(n))
        } else if ('a' <= c && c <= 'z') || ('A' <= c && c <= 'Z') {
            buff.pop();
            let mut x = String::new();
            x.push(c);
            assert(x@ =~= seq![c]);
            Some(Mu::Var(x))
        } else if c == '(' {
            buff.pop();
            proof {
                lemma_disj_advances(s, p + 1);
            }
            let mu = Self::parse_disj(buff)?;
            buff.expect(')')?;
            Some(mu)
        } else if c == '⟨' {
            buff.pop();
            let act = Self::parse_act(buff)?;
            buff.expect('⟩')?;
            let lhs = Self::parse_atom(buff)?;
            Some(Mu::Ex(act, Box::new(lhs)))
        } else if c == '[' {
            buff.pop();
            let act = Self::parse_act(buff)?;
            buff.expect(']')?;
            let lhs = Self::parse_atom(buff)?;
            Some(Mu::All(act, Box::new(lhs)))
        } else if c == '¬' {
            buff.pop();
            let lhs = Self::parse_atom(buff)?;
            Some(Mu::Neg(Box::new(lhs)))
        } else if c == 'μ' || c == 'ν' {
            buff.pop();
            let x = Self::parse_var(buff)?;
            buff.expect('.')?;
            let lhs = Self::parse_disj(buff)?;
            let mut name = String::new();
            name.push(x);
            assert(name@ =~= seq![x]);
            if c == 'μ' {
                Some(Mu::Lfp(name, Box::new(lhs)))
            } else {
                Some(Mu::Gfp(name, Box::new(lhs)))
            }
        } else {
            None
        }
    }

    fn parse_conj(buff: &mut Buff<char>) -> (r: Option<Self>)
        requires
            old(buff).wf(),
        ensures
            final(buff).wf(),
            final(buff).data() == old(buff).data(),
            final(buff).stack() == old(buff).stack(),
            r is Some == conj_at(old(buff).data(), old(buff).pos()) is Some,
            r matches Some(f) ==> f@ == (conj_at(old(buff).data(), old(buff).pos())->0).0
                && final(buff).pos() == (conj_at(old(buff).data(), old(buff).pos())->0).1,
        decreases old(buff).data().len() - old(buff).pos(), 2int,
    {
        let ghost s = buff.data();
        let ghost p = buff.pos();
        proof {
            lemma_atom_advances(s, p);
        }
        let mut lhs = Self::parse_atom(buff)?;
        loop
            invariant
                buff.wf(),
                buff.data() == s,
                buff.stack() == old(buff).stack(),
                s == old(buff).data(),
                p == old(buff).pos(),
                p < buff.pos() <= s.len(),
                conj_at(s, p) == conj_rest(s, buff.pos(), lhs@),
            decreases s.len() - buff.pos(),
        {
            let ghost q = buff.pos();
            match buff.top() {
                Some(c) => {
                    if c == '∧' {
                        buff.pop();
                        proof {
                            lemma_atom_advances(s, q + 1);
                        }
                        let rhs = Self::parse_atom(buff)?;
                        lhs = Mu::And(Box::new(lhs), Box::new(rhs));
                    } else {
                        return Some(lhs);
                    }
                },
                None => {
                    return Some(lhs);
                },
            }
        }
    }

    fn parse_disj(buff: &mut Buff<char>) -> (r: Option<Self>)
        requires
            old(buff).wf(),
        ensures
            final(buff).wf(),
            final(buff).data() == old(buff).data(),
            final(buff).stack() == old(buff).stack(),
            r is Some == disj_at(old(buff).data(), old(buff).pos()) is Some,
            r matches Some(f) ==> f@ == (disj_at(old(buff).data(), old(buff).pos())->0).0
                && final(buff).pos() == (disj_at(old(buff).data(), old(buff).pos())->0).1,
        decreases old(buff).data().len() - old(buff).pos(), 4int,
    {
        let ghost s = buff.data();
        let ghost p = buff.pos();
        proof {
            lemma_conj_advances(s, p);
        }
        let mut lhs = Self::parse_conj(buff)?;
        loop
            invariant
                buff.wf(),
                buff.data() == s,
                buff.stack() == old(buff).stack(),
                s == old(buff).data(),
                p == old(buff).pos(),
                p < buff.pos() <= s.len(),
                disj_at(s, p) == disj_rest(s, buff.pos(), lhs@),
            decreases s.len() - buff.pos(),
        {
            let ghost q = buff.pos();
            match buff.top() {
                Some(c) => {
                    if c == '∨' {
                        buff.pop();
                        proof {
                            lemma_conj_advances(s, q + 1);
                        }
                        let rhs = Self::parse_conj(buff)?;
                        lhs = Mu::Or(Box::new(lhs), Box::new(rhs));
                    } else {
                        return Some(lhs);
                    }
                },
                None => {
                    return Some(lhs);
                },
            }
        }
    }

    /// Reads one formula that must take up the whole of the cursor's data.
    fn parse(buff: &mut Buff<char>) -> (r: Option<Self>)
        requires
            old(buff).wf(),
            old(buff).pos() == 0,
        ensures
            r is Some == (disj_at(old(buff).data(), 0) matches Some((_, q)) && q == old(buff).data().len()),
            r matches Some(f) ==> f@ == (disj_at(old(buff).data(), 0)->0).0,
    {
        proof {
            lemma_disj_advances(buff.data(), 0);
        }
        let res = Self::parse_disj(buff);
        if buff.next().is_some() {
            None
        } else {
            res
        }
    }

    /// Reads a formula in the infix syntax; whitespace is ignored.
    pub fn parse_infix(text: &str) -> (r: Result<Self, String>)
        ensures
            r is Ok == infix_formula(text@) is Some,
            r matches Ok(f) ==> f@ == infix_formula(text@)->0,
    {
        let ghost t = text@;
        let mut chars: Vec<char> = Vec::new();
        for c in it: text.chars()
            invariant
                it.seq() == t,
                chars@ == strip_ws(it.seq().take(it.index() as int)),
        {
            assert(it.seq().take(it.index() + 1 as int).drop_last() == it.seq().take(it.index() as int));
            if !(c == ' ' || c == '\t' || c == '\n') {
                chars.push(c);
            }
        }
        assert(t.take(t.len() as int) == t);
        let mut buff = Buff::new(chars);
        match Self::parse(&mut buff) {
            Some(f) => Ok(f),
            None => Err("Error while parsing Mu formula".to_owned()),
        }
    }
}

impl core::str::FromStr for Mu<char, u32> {
    type Err = String;

    fn from_str(s: &str) -> Result<Mu<char, u32>, String> {
        Mu::parse_infix(s)
    }
}

/// An atom that is read consumes at least one character.
pub proof fn lemma_atom_advances(s: Seq<char>, p: int)
    ensures
        atom_at(s, p) matches Some((_, q)) ==> p < q <= s.len(),
    decreases s.len() - p, 0int,
{
    if 0 <= p < s.len() {
        let c = s[p];
        if is_digit(c) {
            crate::buff::lemma_skip_ws(s, p);
            crate::buff::lemma_digit_end(s, p);
        } else if c == '(' {
            lemma_disj_advances(s, p + 1);
        } else if c == '⟨' || c == '[' {
            if p + 2 < s.len() {
                lemma_atom_advances(s, p + 3);
            }
        } else if c == '¬' {
            lemma_atom_advances(s, p + 1);
        } else if c == 'μ' || c == 'ν' {
            if p + 2 < s.len() {
                lemma_disj_advances(s, p + 3);
            }
        }
    }
}

pub proof fn lemma_conj_rest_advances(s: Seq<char>, p: int, lhs: Formula<char, u32>)
    requires
        0 <= p <= s.len(),
    ensures
        conj_rest(s, p, lhs) matches Some((_, q)) ==> p <= q <= s.len(),
    decreases s.len() - p, 1int,
{
    if p < s.len() && s[p] == '∧' {
        if let Some((r, q)) = atom_at(s, p + 1) {
            if p < q <= s.len() {
                lemma_conj_rest_advances(s, q, Formula::And(Box::new(lhs), Box::new(r)));
            }
        }
    }
}

pub proof fn lemma_conj_advances(s: Seq<char>, p: int)
    ensures
        conj_at(s, p) matches Some((_, q)) ==> p < q <= s.len(),
    decreases s.len() - p, 2int,
{
    lemma_atom_advances(s, p);
    if let Some((f, q)) = atom_at(s, p) {
        if p < q <= s.len() {
            lemma_conj_rest_advances(s, q, f);
        }
    }
}

pub proof fn lemma_disj_rest_advances(s: Seq<char>, p: int, lhs: Formula<char, u32>)
    requires
        0 <= p <= s.len(),
    ensures
        disj_rest(s, p, lhs) matches Some((_, q)) ==> p <= q <= s.len(),
    decreases s.len() - p, 3int,
{
    if p < s.len() && s[p] == '∨' {
        if let Some((r, q)) = conj_at(s, p + 1) {
            if p < q <= s.len() {
                lemma_disj_rest_advances(s, q, Formula::Or(Box::new(lhs), Box::new(r)));
            }
        }
    }
}

pub proof fn lemma_disj_advances(s: Seq<char>, p: int)
    ensures
        disj_at(s, p) matches Some((_, q)) ==> p < q <= s.len(),
    decreases s.len() - p, 4int,
{
    lemma_conj_advances(s, p);
    if let Some((f, q)) = conj_at(s, p) {
        if p < q <= s.len() {
            lemma_disj_rest_advances(s, q, f);
        }
    }
}

} // verus!

verus! {

/// The infix text of a formula: binary forms, modalities and fixpoints
/// each in parentheses.
pub open spec fn infix(f: Formula<char, u32>) -> Seq<char>
    decreases f,
{
    match f {
        Formula::Lit(n) => decimal(n as nat),
        Formula::Neg(a) => seq!['¬'] + infix(*a),
        Formula::And(a, b) => seq!['('] + infix(*a) + seq!['∧'] + infix(*b) + seq![')'],
        Formula::Or(a, b) => seq!['('] + infix(*a) + seq!['∨'] + infix(*b) + seq![')'],
        Formula::Gfp(x, a) => seq!['(', 'ν'] + x + seq!['.'] + infix(*a) + seq![')'],
        Formula::All(act, a) => seq!['(', '[', act, ']'] + infix(*a) + seq![')'],
        Formula::Lfp(x, a) => seq!['(', 'μ'] + x + seq!['.'] + infix(*a) + seq![')'],
        Formula::Ex(act, a) => seq!['(', '⟨', act, '⟩'] + infix(*a) + seq![')'],
        Formula::Var(x) => x,
    }
}

/// The text of a formula: binary forms, modalities and fixpoints each in
/// parentheses, names and numbers by their own text.
pub open spec fn mu_text<A: Text, P: Text>(m: Mu<A, P>) -> Seq<char>
    decreases m,
{
    match m {
        Mu::Lit(p) => p.text(),
        Mu::Neg(a) => seq!['¬'] + mu_text(*a),
        Mu::And(a, b) => seq!['('] + mu_text(*a) + seq!['∧'] + mu_text(*b) + seq![')'],
        Mu::Or(a, b) => seq!['('] + mu_text(*a) + seq!['∨'] + mu_text(*b) + seq![')'],
        Mu::Gfp(x, a) => seq!['(', 'ν'] + x@ + seq!['.'] + mu_text(*a) + seq![')'],
        Mu::All(act, a) => seq!['(', '['] + act.text() + seq![']'] + mu_text(*a) + seq![')'],
        Mu::Lfp(x, a) => seq!['(', 'μ'] + x@ + seq!['.'] + mu_text(*a) + seq![')'],
        Mu::Ex(act, a) => seq!['(', '⟨'] + act.text() + seq!['⟩'] + mu_text(*a) + seq![')'],
        Mu::Var(x) => x@,
    }
}

/// For one-character actions and numbered propositions the text is the
/// infix text.
pub proof fn lemma_mu_text_infix(m: Mu<char, u32>)
    ensures
        mu_text(m) == infix(m@),
    decreases m,
{
    match m {
        Mu::Lit(_) => {},
        Mu::Neg(a) => {
            lemma_mu_text_infix(*a);
        },
        Mu::And(a, b) => {
            lemma_mu_text_infix(*a);
            lemma_mu_text_infix(*b);
        },
        Mu::Or(a, b) => {
            lemma_mu_text_infix(*a);
            lemma_mu_text_infix(*b);
        },
        Mu::Gfp(_, a) => {
            lemma_mu_text_infix(*a);
        },
        Mu::All(act, a) => {
            lemma_mu_text_infix(*a);
            assert(seq!['(', '['] + act.text() + seq![']'] =~= seq!['(', '[', act, ']']);
        },
        Mu::Lfp(_, a) => {
            lemma_mu_text_infix(*a);
        },
        Mu::Ex(act, a) => {
            lemma_mu_text_infix(*a);
            assert(seq!['(', '⟨'] + act.text() + seq!['⟩'] =~= seq!['(', '⟨', act, '⟩']);
        },
        Mu::Var(_) => {},
    }
}

impl<A: Text, P: Text> Mu<A, P> {
    /// Appends the text of the formula.
    pub fn write_text(&self, out: &mut String)
        ensures
            final(out)@ == old(out)@ + mu_text(*self),
        decreases self,
    {
        let ghost start = out@;
        match self {
            Mu::Lit(p) => {
                p.write_text(out);
            },
            Mu::Neg(a) => {
                out.push('¬');
                a.write_text(out);
                assert(out@ =~= start + mu_text(*self));
            },
            Mu::And(a, b) => {
                out.push('(');
                a.write_text(out);
                out.push('∧');
                b.write_text(out);
                out.push(')');
                assert(out@ =~= start + mu_text(*self));
            },
            Mu::Or(a, b) => {
                out.push('(');
                a.write_text(out);
                out.push('∨');
                b.write_text(out);
                out.push(')');
                assert(out@ =~= start + mu_text(*self));
            },
            Mu::Gfp(x, a) => {
                out.push('(');
                out.push('ν');
                push_str(out, x.as_str());
                out.push('.');
                a.write_text(out);
                out.push(')');
                assert(out@ =~= start + mu_text(*self));
            },
            Mu::All(act, a) => {
                out.push('(');
                out.push('[');
                act.write_text(out);
                out.push(']');
                a.write_text(out);
                out.push(')');
                assert(out@ =~= start + mu_text(*self));
            },
            Mu::Lfp(x, a) => {
                out.push('(');
                out.push('μ');
                push_str(out, x.as_str());
                out.push('.');
                a.write_text(out);
                out.push(')');
                assert(out@ =~= start + mu_text(*self));
            },
            Mu::Ex(act, a) => {
                out.push('(');
                out.push('⟨');
                act.write_text(out);
                out.push('⟩');
                a.write_text(out);
                out.push(')');
                assert(out@ =~= start + mu_text(*self));
            },
            Mu::Var(x) => {
                push_str(out, x.as_str());
            },
        }
    }

    /// The text of the formula.
    pub fn to_text(&self) -> (r: String)
        ensures
            r@ == mu_text(*self),
    {
        let mut r = String::new();
        self.write_text(&mut r);
        assert(r@ =~= mu_text(*self));
        r
    }
}

impl Mu<char, u32> {
    /// The infix text of the formula, which reads back as the formula.
    pub fn to_infix(&self) -> (r: String)
        ensures
            r@ == infix(self@),
    {
        let r = self.to_text();
        proof {
            lemma_mu_text_infix(*self);
        }
        r
    }
}

} // verus!

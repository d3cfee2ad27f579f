//! Laws of the satisfaction semantics.
use vstd::prelude::*;

use crate::buff::{digit_end, num_value};
use crate::lang::{empty_env, lts_of, run_from, step, EnvModel, InstrModel};
use crate::mu::{atom_at, conj_at, conj_rest, disj_at, disj_rest, infix, infix_formula, strip_ws, Formula};
use crate::token::{decimal, digit_char, is_alpha, is_digit, is_ws, lemma_decimal_digits, lemma_digit_char};
use crate::ts::{env_within, iterate, lemma_iterate_stable, lemma_iterate_within, lemma_sem_within, sem, Lts};

verus! {

/// `f` mentions the variable `x`, where free, only under an even number of
/// negations (if `positive`) or only under an odd number (if not).
pub open spec fn polar<A, P>(f: Formula<A, P>, x: Seq<char>, positive: bool) -> bool
    decreases f,
{
    match f {
        Formula::Lit(_) => true,
        Formula::Neg(a) => polar(*a, x, !positive),
        Formula::And(a, b) => polar(*a, x, positive) && polar(*b, x, positive),
        Formula::Or(a, b) => polar(*a, x, positive) && polar(*b, x, positive),
        Formula::Gfp(y, a) => y == x || polar(*a, x, positive),
        Formula::All(_, a) => polar(*a, x, positive),
        Formula::Lfp(y, a) => y == x || polar(*a, x, positive),
        Formula::Ex(_, a) => polar(*a, x, positive),
        Formula::Var(y) => positive || y != x,
    }
}

/// Every fixpoint of `f` has a body in which its variable occurs
/// positively.
pub open spec fn positive_binders<A, P>(f: Formula<A, P>) -> bool
    decreases f,
{
    match f {
        Formula::Lit(_) => true,
        Formula::Neg(a) => positive_binders(*a),
        Formula::And(a, b) => positive_binders(*a) && positive_binders(*b),
        Formula::Or(a, b) => positive_binders(*a) && positive_binders(*b),
        Formula::Gfp(y, a) => polar(*a, y, true) && positive_binders(*a),
        Formula::All(_, a) => positive_binders(*a),
        Formula::Lfp(y, a) => polar(*a, y, true) && positive_binders(*a),
        Formula::Ex(_, a) => positive_binders(*a),
        Formula::Var(_) => true,
    }
}

/// Each variable on which two environments differ grows from `e1` to `e2`
/// where `f` uses it positively, and shrinks where `f` uses it negatively.
pub open spec fn env_ordered<A, P>(
    f: Formula<A, P>,
    e1: Map<Seq<char>, Set<u32>>,
    e2: Map<Seq<char>, Set<u32>>,
) -> bool {
    &&& e1.dom() == e2.dom()
    &&& forall|x: Seq<char>| #[trigger] e1.dom().contains(x) ==> {
        ||| e1[x] == e2[x]
        ||| polar(f, x, true) && e1[x].subset_of(e2[x])
        ||| polar(f, x, false) && e2[x].subset_of(e1[x])
    }
}

/// Negating twice changes nothing.
pub proof fn lemma_double_negation<A, P>(m: Lts<A, P>, f: Formula<A, P>, env: Map<Seq<char>, Set<u32>>)
    requires
        env_within(m, env),
    ensures
        sem(m, Formula::Neg(Box::new(Formula::Neg(Box::new(f)))), env) == sem(m, f, env),
{
    lemma_sem_within(m, f, env);
    let inner = Formula::Neg(Box::new(f));
    assert(sem(m, inner, env) == m.states.difference(sem(m, f, env)));
    assert(sem(m, Formula::Neg(Box::new(inner)), env) == m.states.difference(sem(m, inner, env)));
    assert(sem(m, Formula::Neg(Box::new(inner)), env) =~= sem(m, f, env));
}

/// Every successor of a state is a state.
pub open spec fn succ_within<A, P>(m: Lts<A, P>) -> bool {
    forall|s: u32, a: A| #[trigger] m.next(s, a) matches Some(t) ==> m.states.contains(t)
}

/// With at most one successor per action, `⟨a⟩φ` is `¬[a]¬φ`.
pub proof fn lemma_duality<A, P>(m: Lts<A, P>, a: A, f: Formula<A, P>, env: Map<Seq<char>, Set<u32>>)
    requires
        env_within(m, env),
        succ_within(m),
    ensures
        sem(m, Formula::Ex(a, Box::new(f)), env) == sem(
            m,
            Formula::Neg(Box::new(Formula::All(a, Box::new(Formula::Neg(Box::new(f)))))),
            env,
        ),
{
    lemma_sem_within(m, f, env);
    let nf = Formula::Neg(Box::new(f));
    let box_nf = Formula::All(a, Box::new(nf));
    assert(sem(m, nf, env) == m.states.difference(sem(m, f, env)));
    assert(sem(m, Formula::Neg(Box::new(box_nf)), env) == m.states.difference(sem(m, box_nf, env)));
    assert(sem(m, Formula::Ex(a, Box::new(f)), env) =~= sem(
        m,
        Formula::Neg(Box::new(Formula::All(a, Box::new(Formula::Neg(Box::new(f)))))),
        env,
    ));
}

/// Where no state has an `a`-successor, `[a]φ` holds everywhere and `⟨a⟩φ`
/// nowhere, whatever `φ` is.
pub proof fn lemma_box_vacuity<A, P>(m: Lts<A, P>, a: A, f: Formula<A, P>, env: Map<Seq<char>, Set<u32>>)
    requires
        forall|s: u32| #[trigger] m.next(s, a) is None,
    ensures
        sem(m, Formula::All(a, Box::new(f)), env) == m.states,
        sem(m, Formula::Ex(a, Box::new(f)), env) == Set::<u32>::empty(),
{
    assert(sem(m, Formula::All(a, Box::new(f)), env) =~= m.states);
    assert(sem(m, Formula::Ex(a, Box::new(f)), env) =~= Set::<u32>::empty());
}

proof fn lemma_sem_ordered<A, P>(
    m: Lts<A, P>,
    f: Formula<A, P>,
    e1: Map<Seq<char>, Set<u32>>,
    e2: Map<Seq<char>, Set<u32>>,
)
    requires
        env_within(m, e1),
        env_within(m, e2),
        positive_binders(f),
        env_ordered(f, e1, e2),
    ensures
        sem(m, f, e1).subset_of(sem(m, f, e2)),
    decreases f, 0int,
{
    match f {
        Formula::Lit(_) => {},
        Formula::Neg(a) => {
            assert(env_ordered(*a, e2, e1));
            lemma_sem_ordered(m, *a, e2, e1);
        },
        Formula::And(a, b) => {
            assert(env_ordered(*a, e1, e2));
            assert(env_ordered(*b, e1, e2));
            lemma_sem_ordered(m, *a, e1, e2);
            lemma_sem_ordered(m, *b, e1, e2);
        },
        Formula::Or(a, b) => {
            assert(env_ordered(*a, e1, e2));
            assert(env_ordered(*b, e1, e2));
            lemma_sem_ordered(m, *a, e1, e2);
            lemma_sem_ordered(m, *b, e1, e2);
        },
        Formula::All(_, a) => {
            assert(env_ordered(*a, e1, e2));
            lemma_sem_ordered(m, *a, e1, e2);
        },
        Formula::Ex(_, a) => {
            assert(env_ordered(*a, e1, e2));
            lemma_sem_ordered(m, *a, e1, e2);
        },
        Formula::Var(x) => {},
        Formula::Lfp(x, a) => {
            lemma_iterate_ordered(m, x, *a, e1, e2, Set::empty(), m.states.len());
        },
        Formula::Gfp(x, a) => {
            lemma_iterate_ordered(m, x, *a, e1, e2, m.states, m.states.len());
        },
    }
}

proof fn lemma_iterate_ordered<A, P>(
    m: Lts<A, P>,
    x: Seq<char>,
    g: Formula<A, P>,
    e1: Map<Seq<char>, Set<u32>>,
    e2: Map<Seq<char>, Set<u32>>,
    start: Set<u32>,
    k: nat,
)
    requires
        env_within(m, e1),
        env_within(m, e2),
        start.subset_of(m.states),
        positive_binders(g),
        polar(g, x, true),
        e1.dom() == e2.dom(),
        forall|y: Seq<char>| #[trigger] e1.dom().contains(y) && y != x ==> {
            ||| e1[y] == e2[y]
            ||| polar(g, y, true) && e1[y].subset_of(e2[y])
            ||| polar(g, y, false) && e2[y].subset_of(e1[y])
        },
    ensures
        iterate(m, x, g, e1, start, k).subset_of(iterate(m, x, g, e2, start, k)),
    decreases g, k + 1,
{
    if k > 0 {
        let i1 = iterate(m, x, g, e1, start, (k - 1) as nat);
        let i2 = iterate(m, x, g, e2, start, (k - 1) as nat);
        lemma_iterate_ordered(m, x, g, e1, e2, start, (k - 1) as nat);
        lemma_iterate_within(m, x, g, e1, start, (k - 1) as nat);
        lemma_iterate_within(m, x, g, e2, start, (k - 1) as nat);
        let f1 = e1.insert(x, i1);
        let f2 = e2.insert(x, i2);
        assert(env_ordered(g, f1, f2));
        lemma_sem_ordered(m, g, f1, f2);
    }
}

/// A formula that uses `x` positively denotes more states when `x` stands
/// for more states.
pub proof fn lemma_monotone<A, P>(
    m: Lts<A, P>,
    f: Formula<A, P>,
    env: Map<Seq<char>, Set<u32>>,
    x: Seq<char>,
    s: Set<u32>,
    t: Set<u32>,
)
    requires
        env_within(m, env),
        s.subset_of(t),
        t.subset_of(m.states),
        positive_binders(f),
        polar(f, x, true),
    ensures
        sem(m, f, env.insert(x, s)).subset_of(sem(m, f, env.insert(x, t))),
{
    let e1 = env.insert(x, s);
    let e2 = env.insert(x, t);
    assert(env_ordered(f, e1, e2));
    lemma_sem_ordered(m, f, e1, e2);
}

/// From the empty set the iteration only grows; from all states it only
/// shrinks.
proof fn lemma_chain<A, P>(
    m: Lts<A, P>,
    x: Seq<char>,
    g: Formula<A, P>,
    env: Map<Seq<char>, Set<u32>>,
    least: bool,
    k: nat,
)
    requires
        env_within(m, env),
        positive_binders(g),
        polar(g, x, true),
    ensures
        ({
            let start = if least {
                Set::<u32>::empty()
            } else {
                m.states
            };
            if least {
                iterate(m, x, g, env, start, k).subset_of(iterate(m, x, g, env, start, k + 1))
            } else {
                iterate(m, x, g, env, start, k + 1).subset_of(iterate(m, x, g, env, start, k))
            }
        }),
    decreases k,
{
    let start = if least {
        Set::<u32>::empty()
    } else {
        m.states
    };
    lemma_iterate_within(m, x, g, env, start, k);
    lemma_iterate_within(m, x, g, env, start, k + 1);
    if k > 0 {
        lemma_chain(m, x, g, env, least, (k - 1) as nat);
        let prev = iterate(m, x, g, env, start, (k - 1) as nat);
        let cur = iterate(m, x, g, env, start, k);
        lemma_iterate_within(m, x, g, env, start, (k - 1) as nat);
        if least {
            lemma_monotone(m, g, env, x, prev, cur);
        } else {
            lemma_monotone(m, g, env, x, cur, prev);
        }
    }
}

/// The start of a least (from the empty set) or greatest (from all states)
/// fixpoint iteration.
pub open spec fn fix_start<A, P>(m: Lts<A, P>, least: bool) -> Set<u32> {
    if least {
        Set::empty()
    } else {
        m.states
    }
}

/// The iteration has repeated itself before step `k`, or has added `k`
/// states (from the empty set) or removed `k` (from all states).
pub open spec fn chain_count<A, P>(
    m: Lts<A, P>,
    x: Seq<char>,
    g: Formula<A, P>,
    env: Map<Seq<char>, Set<u32>>,
    least: bool,
    k: nat,
) -> bool {
    let start = fix_start(m, least);
    ||| exists|j: nat|
        j < k && #[trigger] iterate(m, x, g, env, start, j + 1) == iterate(m, x, g, env, start, j)
    ||| least && iterate(m, x, g, env, start, k).len() >= k
    ||| !least && iterate(m, x, g, env, start, k).len() + k <= m.states.len()
}

proof fn lemma_chain_count<A, P>(
    m: Lts<A, P>,
    x: Seq<char>,
    g: Formula<A, P>,
    env: Map<Seq<char>, Set<u32>>,
    least: bool,
    k: nat,
)
    requires
        m.states.finite(),
        env_within(m, env),
        positive_binders(g),
        polar(g, x, true),
    ensures
        chain_count(m, x, g, env, least, k),
    decreases k,
{
    let start = fix_start(m, least);
    if k == 0 {
        assert(iterate(m, x, g, env, start, 0) == start);
        if least {
            assert(chain_count(m, x, g, env, least, k));
        } else {
            assert(chain_count(m, x, g, env, least, k));
        }
    } else {
        let j = (k - 1) as nat;
        lemma_chain_count(m, x, g, env, least, j);
        let a = iterate(m, x, g, env, start, j);
        let b = iterate(m, x, g, env, start, k);
        lemma_iterate_within(m, x, g, env, start, j);
        lemma_iterate_within(m, x, g, env, start, k);
        vstd::set_lib::lemma_len_subset(a, m.states);
        vstd::set_lib::lemma_len_subset(b, m.states);
        lemma_chain(m, x, g, env, least, j);
        assert((j + 1) as nat == k);
        if exists|i: nat| i < j && #[trigger] iterate(m, x, g, env, start, i + 1) == iterate(m, x, g, env, start, i) {
            let i = choose|i: nat| i < j && #[trigger] iterate(m, x, g, env, start, i + 1) == iterate(m, x, g, env, start, i);
            assert(i < k && iterate(m, x, g, env, start, i + 1) == iterate(m, x, g, env, start, i));
            assert(chain_count(m, x, g, env, least, k));
        } else if b == a {
            assert(iterate(m, x, g, env, start, j + 1) == iterate(m, x, g, env, start, j));
            assert(chain_count(m, x, g, env, least, k));
        } else {
            if least {
                assert(a.subset_of(b));
                vstd::set_lib::lemma_len_subset(a, b);
                if a.len() == b.len() {
                    vstd::set_lib::lemma_subset_equality(a, b);
                }
                assert(a.len() < b.len());
                assert(chain_count(m, x, g, env, least, k));
            } else {
                assert(b.subset_of(a));
                vstd::set_lib::lemma_len_subset(b, a);
                if a.len() == b.len() {
                    vstd::set_lib::lemma_subset_equality(b, a);
                }
                assert(b.len() < a.len());
                assert(chain_count(m, x, g, env, least, k));
            }
        }
    }
}

/// Iterating a least fixpoint (from the empty set) or a greatest one (from
/// all states) reaches a fixpoint within as many steps as there are states,
/// where the body uses the variable positively.
pub proof fn lemma_fixpoint_reached<A, P>(
    m: Lts<A, P>,
    x: Seq<char>,
    g: Formula<A, P>,
    env: Map<Seq<char>, Set<u32>>,
    least: bool,
)
    requires
        m.states.finite(),
        env_within(m, env),
        positive_binders(g),
        polar(g, x, true),
    ensures
        ({
            let start = if least {
                Set::<u32>::empty()
            } else {
                m.states
            };
            let n = m.states.len();
            iterate(m, x, g, env, start, n + 1) == iterate(m, x, g, env, start, n)
        }),
{
    let start = if least {
        Set::<u32>::empty()
    } else {
        m.states
    };
    let n = m.states.len();
    lemma_chain_count(m, x, g, env, least, n + 1);
    assert(start == fix_start(m, least));
    lemma_iterate_within(m, x, g, env, start, n + 1);
    vstd::set_lib::lemma_len_subset(iterate(m, x, g, env, start, n + 1), m.states);
    let j = choose|j: nat|
        j < n + 1 && #[trigger] iterate(m, x, g, env, start, j + 1) == iterate(m, x, g, env, start, j);
    lemma_iterate_stable(m, x, g, env, start, j, n);
    lemma_iterate_stable(m, x, g, env, start, j, n + 1);
}

} // verus!

verus! {

/// Names and actions that the infix text can carry: every variable and
/// fixpoint name is one ASCII letter, and no action is whitespace.
pub open spec fn infix_ok(f: Formula<char, u32>) -> bool
    decreases f,
{
    match f {
        Formula::Lit(_) => true,
        Formula::Neg(a) => infix_ok(*a),
        Formula::And(a, b) => infix_ok(*a) && infix_ok(*b),
        Formula::Or(a, b) => infix_ok(*a) && infix_ok(*b),
        Formula::Gfp(x, a) => x.len() == 1 && is_alpha(x[0]) && infix_ok(*a),
        Formula::All(c, a) => !is_ws(c) && infix_ok(*a),
        Formula::Lfp(x, a) => x.len() == 1 && is_alpha(x[0]) && infix_ok(*a),
        Formula::Ex(c, a) => !is_ws(c) && infix_ok(*a),
        Formula::Var(x) => x.len() == 1 && is_alpha(x[0]),
    }
}

/// No character of `s` is whitespace.
pub open spec fn no_ws(s: Seq<char>) -> bool {
    forall|i: int| 0 <= i < s.len() ==> !is_ws(#[trigger] s[i])
}

proof fn lemma_strip_no_ws(s: Seq<char>)
    requires
        no_ws(s),
    ensures
        strip_ws(s) == s,
    decreases s.len(),
{
    if s.len() > 0 {
        assert(no_ws(s.drop_last()));
        lemma_strip_no_ws(s.drop_last());
        assert(s.drop_last().push(s.last()) == s);
    }
}

proof fn lemma_infix_no_ws(f: Formula<char, u32>)
    requires
        infix_ok(f),
    ensures
        no_ws(infix(f)),
        infix(f).len() >= 1,
    decreases f,
{
    match f {
        Formula::Lit(n) => {
            lemma_decimal_digits(n as nat);
        },
        Formula::Neg(a) => {
            lemma_infix_no_ws(*a);
        },
        Formula::And(a, b) => {
            lemma_infix_no_ws(*a);
            lemma_infix_no_ws(*b);
        },
        Formula::Or(a, b) => {
            lemma_infix_no_ws(*a);
            lemma_infix_no_ws(*b);
        },
        Formula::Gfp(x, a) => {
            lemma_infix_no_ws(*a);
        },
        Formula::All(c, a) => {
            lemma_infix_no_ws(*a);
        },
        Formula::Lfp(x, a) => {
            lemma_infix_no_ws(*a);
        },
        Formula::Ex(c, a) => {
            lemma_infix_no_ws(*a);
        },
        Formula::Var(x) => {},
    }
}

/// The number that a run of digits writes depends on those digits only.
proof fn lemma_num_value_local(s: Seq<char>, t: Seq<char>, a: int, b: int, c: int)
    requires
        0 <= a <= b,
        0 <= c,
        b <= s.len(),
        c + (b - a) <= t.len(),
        forall|i: int| a <= i < b ==> #[trigger] s[i] == t[c + i - a],
    ensures
        num_value(s, a, b) == num_value(t, c, c + (b - a)),
    decreases b - a,
{
    if a < b {
        lemma_num_value_local(s, t, a, b - 1, c);
        assert(s[b - 1] == t[c + (b - a) - 1]);
    }
}

proof fn lemma_decimal_value(n: nat)
    ensures
        num_value(decimal(n), 0, decimal(n).len() as int) == n,
    decreases n,
{
    lemma_digit_char(n % 10);
    let e = decimal(n);
    if n >= 10 {
        lemma_decimal_value(n / 10);
        let d = decimal(n / 10);
        assert(e == d.push(digit_char(n % 10)));
        lemma_num_value_local(e, d, 0, d.len() as int, 0);
        assert(n == (n / 10) * 10 + n % 10) by (nonlinear_arith);
    } else {
        assert(num_value(e, 0, 0) == 0);
    }
}

proof fn lemma_digit_end_at(s: Seq<char>, p: int, q: int)
    requires
        0 <= p <= q <= s.len(),
        forall|i: int| p <= i < q ==> is_digit(#[trigger] s[i]),
        q == s.len() || !is_digit(s[q]),
    ensures
        digit_end(s, p) == q,
    decreases q - p,
{
    if p < q {
        lemma_digit_end_at(s, p + 1, q);
    }
}

/// `s` holds `t` from position `p` on.
pub open spec fn holds_at(s: Seq<char>, p: int, t: Seq<char>) -> bool {
    &&& 0 <= p
    &&& p + t.len() <= s.len()
    &&& forall|i: int| 0 <= i < t.len() ==> s[p + i] == #[trigger] t[i]
}

/// The end of a formula's text, where it can stand before an atom ends.
pub open spec fn atom_follow(s: Seq<char>, q: int) -> bool {
    q == s.len() || !is_digit(s[q])
}

/// The end of a formula's text, where it can stand before a formula ends.
pub open spec fn formula_follow(s: Seq<char>, q: int) -> bool {
    q == s.len() || (!is_digit(s[q]) && s[q] != '∧' && s[q] != '∨')
}

#[verifier::rlimit(100)]
proof fn lemma_atom_infix(f: Formula<char, u32>, s: Seq<char>, p: int)
    requires
        infix_ok(f),
        holds_at(s, p, infix(f)),
        atom_follow(s, p + infix(f).len()),
    ensures
        atom_at(s, p) == Some((f, p + infix(f).len())),
    decreases f, 1int,
{
    let t = infix(f);
    let q = p + t.len();
    lemma_infix_no_ws(f);
    assert(s[p] == t[0]);
    match f {
        Formula::Lit(n) => {
            lemma_decimal_digits(n as nat);
            lemma_decimal_value(n as nat);
            assert(crate::buff::skip_ws(s, p) == p);
            assert forall|i: int| p <= i < q implies is_digit(#[trigger] s[i]) by {
                assert(s[p + (i - p)] == t[i - p]);
            }
            lemma_digit_end_at(s, p, q);
            lemma_num_value_local(s, t, p, q, 0);
        },
        Formula::Neg(a) => {
            let ta = infix(*a);
            assert(t == seq!['¬'] + ta);
            assert(holds_at(s, p + 1, ta)) by {
                assert forall|i: int| 0 <= i < ta.len() implies s[p + 1 + i] == #[trigger] ta[i] by {
                    assert(t[1 + i] == ta[i]);
                }
            }
            lemma_atom_infix(*a, s, p + 1);
        },
        Formula::And(a, b) => {
            let (ta, tb) = (infix(*a), infix(*b));
            lemma_infix_no_ws(*a);
            lemma_infix_no_ws(*b);
            let q1 = p + 1 + ta.len();
            let q2 = q1 + 1 + tb.len();
            assert(t == seq!['('] + ta + seq!['∧'] + tb + seq![')']);
            assert(holds_at(s, p + 1, ta)) by {
                assert forall|i: int| 0 <= i < ta.len() implies s[p + 1 + i] == #[trigger] ta[i] by {
                    assert(t[1 + i] == ta[i]);
                }
            }
            assert(s[q1] == t[1 + ta.len() as int]);
            assert(holds_at(s, q1 + 1, tb)) by {
                assert forall|i: int| 0 <= i < tb.len() implies s[q1 + 1 + i] == #[trigger] tb[i] by {
                    assert(t[2 + ta.len() + i] == tb[i]);
                }
            }
            assert(s[q2] == t[2 + ta.len() + tb.len() as int]);
            lemma_atom_infix(*a, s, p + 1);
            lemma_atom_infix(*b, s, q1 + 1);
            let g = Formula::And(Box::new(*a), Box::new(*b));
            assert(conj_rest(s, q2, g) == Some((g, q2)));
            assert(conj_rest(s, q1, *a) == Some((g, q2)));
            assert(conj_at(s, p + 1) == Some((g, q2)));
            assert(disj_rest(s, q2, g) == Some((g, q2)));
            assert(disj_at(s, p + 1) == Some((g, q2)));
        },
        Formula::Or(a, b) => {
            let (ta, tb) = (infix(*a), infix(*b));
            lemma_infix_no_ws(*a);
            lemma_infix_no_ws(*b);
            let q1 = p + 1 + ta.len();
            let q2 = q1 + 1 + tb.len();
            assert(t == seq!['('] + ta + seq!['∨'] + tb + seq![')']);
            assert(holds_at(s, p + 1, ta)) by {
                assert forall|i: int| 0 <= i < ta.len() implies s[p + 1 + i] == #[trigger] ta[i] by {
                    assert(t[1 + i] == ta[i]);
                }
            }
            assert(s[q1] == t[1 + ta.len() as int]);
            assert(holds_at(s, q1 + 1, tb)) by {
                assert forall|i: int| 0 <= i < tb.len() implies s[q1 + 1 + i] == #[trigger] tb[i] by {
                    assert(t[2 + ta.len() + i] == tb[i]);
                }
            }
            assert(s[q2] == t[2 + ta.len() + tb.len() as int]);
            lemma_atom_infix(*a, s, p + 1);
            lemma_atom_infix(*b, s, q1 + 1);
            let g = Formula::Or(Box::new(*a), Box::new(*b));
            assert(conj_rest(s, q1, *a) == Some((*a, q1)));
            assert(conj_at(s, p + 1) == Some((*a, q1)));
            assert(conj_rest(s, q2, *b) == Some((*b, q2)));
            assert(conj_at(s, q1 + 1) == Some((*b, q2)));
            assert(disj_rest(s, q2, g) == Some((g, q2)));
            assert(disj_rest(s, q1, *a) == Some((g, q2)));
            assert(disj_at(s, p + 1) == Some((g, q2)));
        },
        Formula::All(c, a) => {
            let ta = infix(*a);
            lemma_infix_no_ws(*a);
            let q1 = p + 4 + ta.len();
            assert(t == seq!['(', '[', c, ']'] + ta + seq![')']);
            assert(holds_at(s, p + 4, ta)) by {
                assert forall|i: int| 0 <= i < ta.len() implies s[p + 4 + i] == #[trigger] ta[i] by {
                    assert(t[4 + i] == ta[i]);
                }
            }
            assert(s[p + 1] == t[1] && s[p + 2] == t[2] && s[p + 3] == t[3]);
            assert(s[q1] == t[4 + ta.len() as int]);
            lemma_atom_infix(*a, s, p + 4);
            let g = Formula::All(c, Box::new(*a));
            assert(atom_at(s, p + 1) == Some((g, q1)));
            assert(conj_rest(s, q1, g) == Some((g, q1)));
            assert(conj_at(s, p + 1) == Some((g, q1)));
            assert(disj_rest(s, q1, g) == Some((g, q1)));
            assert(disj_at(s, p + 1) == Some((g, q1)));
        },
        Formula::Ex(c, a) => {
            let ta = infix(*a);
            lemma_infix_no_ws(*a);
            let q1 = p + 4 + ta.len();
            assert(t == seq!['(', '⟨', c, '⟩'] + ta + seq![')']);
            assert(holds_at(s, p + 4, ta)) by {
                assert forall|i: int| 0 <= i < ta.len() implies s[p + 4 + i] == #[trigger] ta[i] by {
                    assert(t[4 + i] == ta[i]);
                }
            }
            assert(s[p + 1] == t[1] && s[p + 2] == t[2] && s[p + 3] == t[3]);
            assert(s[q1] == t[4 + ta.len() as int]);
            lemma_atom_infix(*a, s, p + 4);
            let g = Formula::Ex(c, Box::new(*a));
            assert(atom_at(s, p + 1) == Some((g, q1)));
            assert(conj_rest(s, q1, g) == Some((g, q1)));
            assert(conj_at(s, p + 1) == Some((g, q1)));
            assert(disj_rest(s, q1, g) == Some((g, q1)));
            assert(disj_at(s, p + 1) == Some((g, q1)));
        },
        Formula::Lfp(x, a) => {
            let ta = infix(*a);
            lemma_infix_no_ws(*a);
            let q1 = p + 4 + ta.len();
            assert(t == seq!['(', 'μ'] + x + seq!['.'] + ta + seq![')']);
            assert(holds_at(s, p + 4, ta)) by {
                assert forall|i: int| 0 <= i < ta.len() implies s[p + 4 + i] == #[trigger] ta[i] by {
                    assert(t[4 + i] == ta[i]);
                }
            }
            assert(s[p + 1] == t[1] && s[p + 2] == t[2] && s[p + 3] == t[3]);
            assert(s[q1] == t[4 + ta.len() as int]);
            lemma_disj_infix(*a, s, p + 4);
            assert(seq![s[p + 2]] == x);
            let g = Formula::Lfp(x, Box::new(*a));
            assert(atom_at(s, p + 1) == Some((g, q1)));
            assert(conj_rest(s, q1, g) == Some((g, q1)));
            assert(conj_at(s, p + 1) == Some((g, q1)));
            assert(disj_rest(s, q1, g) == Some((g, q1)));
            assert(disj_at(s, p + 1) == Some((g, q1)));
        },
        Formula::Gfp(x, a) => {
            let ta = infix(*a);
            lemma_infix_no_ws(*a);
            let q1 = p + 4 + ta.len();
            assert(t == seq!['(', 'ν'] + x + seq!['.'] + ta + seq![')']);
            assert(holds_at(s, p + 4, ta)) by {
                assert forall|i: int| 0 <= i < ta.len() implies s[p + 4 + i] == #[trigger] ta[i] by {
                    assert(t[4 + i] == ta[i]);
                }
            }
            assert(s[p + 1] == t[1] && s[p + 2] == t[2] && s[p + 3] == t[3]);
            assert(s[q1] == t[4 + ta.len() as int]);
            lemma_disj_infix(*a, s, p + 4);
            assert(seq![s[p + 2]] == x);
            let g = Formula::Gfp(x, Box::new(*a));
            assert(atom_at(s, p + 1) == Some((g, q1)));
            assert(conj_rest(s, q1, g) == Some((g, q1)));
            assert(conj_at(s, p + 1) == Some((g, q1)));
            assert(disj_rest(s, q1, g) == Some((g, q1)));
            assert(disj_at(s, p + 1) == Some((g, q1)));
        },
        Formula::Var(x) => {
            assert(seq![s[p]] == x);
        },
    }
}

proof fn lemma_disj_infix(f: Formula<char, u32>, s: Seq<char>, p: int)
    requires
        infix_ok(f),
        holds_at(s, p, infix(f)),
        formula_follow(s, p + infix(f).len()),
    ensures
        disj_at(s, p) == Some((f, p + infix(f).len())),
    decreases f, 2int,
{
    let q = p + infix(f).len();
    lemma_infix_no_ws(f);
    lemma_atom_infix(f, s, p);
    assert(conj_rest(s, q, f) == Some((f, q)));
    assert(conj_at(s, p) == Some((f, q)));
    assert(disj_rest(s, q, f) == Some((f, q)));
}

/// Reading back the infix text of a formula gives the formula, wherever
/// its names and actions can be written in that text.
pub proof fn lemma_infix_round_trip(f: Formula<char, u32>)
    requires
        infix_ok(f),
    ensures
        infix_formula(infix(f)) == Some(f),
{
    let s = infix(f);
    lemma_infix_no_ws(f);
    lemma_strip_no_ws(s);
    lemma_disj_infix(f, s, 0);
}

} // verus!

verus! {

/// Whether `e` has a transition from `s` under `a`.
pub open spec fn has_trans(e: EnvModel, s: u32, a: Seq<char>) -> bool {
    e.succ.dom().contains(s) && e.succ[s].dom().contains(a)
}

/// Declarations, labels and transitions of `e1` are still there in `e2`.
pub open spec fn grows(e1: EnvModel, e2: EnvModel) -> bool {
    &&& e1.props.subset_of(e2.props)
    &&& e1.actions.subset_of(e2.actions)
    &&& e1.initial.subset_of(e2.initial)
    &&& e1.label.dom().subset_of(e2.label.dom())
    &&& forall|s: u32, a: Seq<char>| #[trigger] has_trans(e1, s, a) ==> has_trans(e2, s, a)
}

/// The state and action of a transition instruction.
pub open spec fn trans_key(i: InstrModel) -> Option<(u32, Seq<char>)> {
    match i {
        InstrModel::Trans(s, a, _) => Some((s, a)),
        InstrModel::Loop(s, a) => Some((s, a)),
        _ => None,
    }
}

/// `x` is an `actions` instruction that declares `a`.
pub open spec fn declares_action(x: InstrModel, a: Seq<char>) -> bool {
    x matches InstrModel::SetActions(acts) && acts.contains(a)
}

/// A later instruction `y` declares again what an earlier `x` declared:
/// propositions, actions, initial states, the label of a state, or the
/// transition of a state under an action.
pub open spec fn clash(x: InstrModel, y: InstrModel) -> bool {
    ||| x matches InstrModel::SetProps(ps) && ps.len() > 0 && y is SetProps
    ||| x matches InstrModel::SetActions(acts) && acts.len() > 0 && y is SetActions
    ||| x matches InstrModel::SetInit(ss) && ss.len() > 0 && y is SetInit
    ||| x matches InstrModel::Label(s, _) && y matches InstrModel::Label(t, _) && s == t
    ||| trans_key(x) is Some && trans_key(x) == trans_key(y)
}

proof fn lemma_step_grows(e: EnvModel, i: InstrModel)
    requires
        step(e, i) is Some,
    ensures
        grows(e, step(e, i)->0),
{
    let e2 = step(e, i)->0;
    match i {
        InstrModel::Trans(s1, a, s2) => {
            assert forall|s: u32, b: Seq<char>| #[trigger] has_trans(e, s, b) implies has_trans(e2, s, b) by {
                if s == s1 {
                    assert(e2.succ[s1].dom().contains(b));
                }
            }
        },
        InstrModel::Loop(s1, a) => {
            assert forall|s: u32, b: Seq<char>| #[trigger] has_trans(e, s, b) implies has_trans(e2, s, b) by {
                if s == s1 {
                    assert(e2.succ[s1].dom().contains(b));
                }
            }
        },
        _ => {},
    }
}

proof fn lemma_run_grows(e: EnvModel, is: Seq<InstrModel>)
    requires
        run_from(e, is) is Some,
    ensures
        grows(e, run_from(e, is)->0),
    decreases is.len(),
{
    if is.len() > 0 {
        lemma_step_grows(e, is[0]);
        let e1 = step(e, is[0])->0;
        lemma_run_grows(e1, is.drop_first());
    }
}

proof fn lemma_run_split(e: EnvModel, is: Seq<InstrModel>, k: int)
    requires
        0 <= k <= is.len(),
    ensures
        run_from(e, is) == match run_from(e, is.take(k)) {
            Some(ek) => run_from(ek, is.skip(k)),
            None => None,
        },
    decreases k,
{
    if k == 0 {
        assert(is.take(0).len() == 0);
        assert(is.skip(0) == is);
    } else {
        assert(is.take(k)[0] == is[0]);
        assert(is.take(k).drop_first() == is.drop_first().take(k - 1));
        assert(is.skip(k) == is.drop_first().skip(k - 1));
        if let Some(e1) = step(e, is[0]) {
            lemma_run_split(e1, is.drop_first(), k - 1);
        }
    }
}

/// A program that declares again what it declared before is rejected.
pub proof fn lemma_redeclaration_rejected(is: Seq<InstrModel>, i: int, j: int)
    requires
        0 <= i < j < is.len(),
        clash(is[i], is[j]),
    ensures
        run_from(empty_env(), is) is None,
{
    lemma_run_split(empty_env(), is, i);
    if let Some(ei) = run_from(empty_env(), is.take(i)) {
        let rest = is.skip(i);
        assert(rest[0] == is[i]);
        if let Some(ei1) = step(ei, is[i]) {
            let rest1 = rest.drop_first();
            let k = j - i - 1;
            lemma_run_split(ei1, rest1, k);
            if let Some(ej) = run_from(ei1, rest1.take(k)) {
                lemma_run_grows(ei1, rest1.take(k));
                let tail = rest1.skip(k);
                assert(tail[0] == is[j]);
                match is[i] {
                    InstrModel::SetProps(ps) => {
                        if ps.len() > 0 {
                            assert(ei1.props.contains(ps[0]));
                            assert(ej.props != Set::<Seq<char>>::empty()) by {
                                assert(ej.props.contains(ps[0]));
                            }
                        }
                    },
                    InstrModel::SetActions(acts) => {
                        if acts.len() > 0 {
                            assert(ei1.actions.contains(acts[0]));
                            assert(ej.actions != Set::<Seq<char>>::empty()) by {
                                assert(ej.actions.contains(acts[0]));
                            }
                        }
                    },
                    InstrModel::SetInit(ss) => {
                        if ss.len() > 0 {
                            assert(ei1.initial.contains(ss[0]));
                            assert(ej.initial != Set::<u32>::empty()) by {
                                assert(ej.initial.contains(ss[0]));
                            }
                        }
                    },
                    InstrModel::Label(s, _) => {
                        assert(ei1.label.dom().contains(s));
                    },
                    InstrModel::Trans(s, a, _) => {
                        assert(has_trans(ei1, s, a));
                        assert(has_trans(ej, s, a));
                    },
                    InstrModel::Loop(s, a) => {
                        assert(has_trans(ei1, s, a));
                        assert(has_trans(ej, s, a));
                    },
                    _ => {},
                }
                assert(step(ej, tail[0]) is None);
            }
        }
    }
}

/// Every declared action comes from an `actions` instruction among the
/// first `k`.
proof fn lemma_actions_declared(is: Seq<InstrModel>, k: int)
    requires
        0 <= k <= is.len(),
        run_from(empty_env(), is.take(k)) is Some,
    ensures
        forall|a: Seq<char>| #[trigger] run_from(empty_env(), is.take(k))->0.actions.contains(a)
            ==> exists|i: int| 0 <= i < k && declares_action(is[i], a),
    decreases k,
{
    if k > 0 {
        let tk = is.take(k);
        lemma_run_split(empty_env(), tk, k - 1);
        assert(tk.take(k - 1) == is.take(k - 1));
        let prev = run_from(empty_env(), is.take(k - 1));
        if let Some(ep) = prev {
            lemma_actions_declared(is, k - 1);
            let tail = tk.skip(k - 1);
            assert(tail.len() == 1 && tail[0] == is[k - 1]);
            assert(tail.drop_first().len() == 0);
            let ek = run_from(empty_env(), tk)->0;
            assert(run_from(empty_env(), tk) == run_from(ep, tail));
            assert(step(ep, is[k - 1]) is Some);
            let e2 = step(ep, is[k - 1])->0;
            assert(run_from(e2, tail.drop_first()) == Some(e2));
            assert(ek == e2);
            assert forall|a: Seq<char>| #[trigger] ek.actions.contains(a) implies exists|i: int|
                0 <= i < k && declares_action(is[i], a) by {
                if ep.actions.contains(a) {
                    let i = choose|i: int|
                        0 <= i < k - 1 && declares_action(is[i], a);
                    assert(0 <= i < k);
                } else {
                    assert(declares_action(is[k - 1], a));
                }
            }
        }
    } else {
        assert(is.take(0).len() == 0);
        assert(run_from(empty_env(), is.take(0)) == Some(empty_env()));
    }
}

/// A program whose transition uses an action that no earlier `actions`
/// instruction declares is rejected.
pub proof fn lemma_undeclared_action_rejected(is: Seq<InstrModel>, j: int)
    requires
        0 <= j < is.len(),
        trans_key(is[j]) is Some,
        forall|i: int|
            0 <= i < j ==> !declares_action(#[trigger] is[i], (trans_key(is[j])->0).1),
    ensures
        run_from(empty_env(), is) is None,
{
    lemma_run_split(empty_env(), is, j);
    if let Some(ej) = run_from(empty_env(), is.take(j)) {
        lemma_actions_declared(is, j);
        let a = (trans_key(is[j])->0).1;
        assert(!ej.actions.contains(a));
        let tail = is.skip(j);
        assert(tail[0] == is[j]);
        assert(step(ej, tail[0]) is None);
    }
}

/// Initial states, labelled states and both ends of every transition are
/// states.
pub open spec fn env_closed(e: EnvModel) -> bool {
    &&& e.initial.subset_of(e.states)
    &&& e.label.dom().subset_of(e.states)
    &&& forall|s: u32, a: Seq<char>| #[trigger] has_trans(e, s, a) ==> e.states.contains(s)
        && e.states.contains(e.succ[s][a])
}

proof fn lemma_step_closed(e: EnvModel, i: InstrModel)
    requires
        env_closed(e),
        step(e, i) is Some,
    ensures
        env_closed(step(e, i)->0),
{
    let e2 = step(e, i)->0;
    match i {
        InstrModel::Trans(s1, a, s2) => {
            assert forall|s: u32, b: Seq<char>| #[trigger] has_trans(e2, s, b) implies e2.states.contains(s)
                && e2.states.contains(e2.succ[s][b]) by {
                if s != s1 {
                    assert(has_trans(e, s, b));
                } else if b != a {
                    assert(has_trans(e, s, b));
                }
            }
        },
        InstrModel::Loop(s1, a) => {
            assert forall|s: u32, b: Seq<char>| #[trigger] has_trans(e2, s, b) implies e2.states.contains(s)
                && e2.states.contains(e2.succ[s][b]) by {
                if s != s1 {
                    assert(has_trans(e, s, b));
                } else if b != a {
                    assert(has_trans(e, s, b));
                }
            }
        },
        InstrModel::Label(s, ps) => {
            assert forall|t: u32, b: Seq<char>| #[trigger] has_trans(e2, t, b) implies e2.states.contains(t)
                && e2.states.contains(e2.succ[t][b]) by {
                assert(has_trans(e, t, b));
            }
        },
        InstrModel::SetInit(ss) => {
            assert forall|t: u32, b: Seq<char>| #[trigger] has_trans(e2, t, b) implies e2.states.contains(t)
                && e2.states.contains(e2.succ[t][b]) by {
                assert(has_trans(e, t, b));
            }
        },
        _ => {
            assert forall|t: u32, b: Seq<char>| #[trigger] has_trans(e2, t, b) implies e2.states.contains(t)
                && e2.states.contains(e2.succ[t][b]) by {
                assert(has_trans(e, t, b));
            }
        },
    }
}

proof fn lemma_run_closed(e: EnvModel, is: Seq<InstrModel>)
    requires
        env_closed(e),
        run_from(e, is) is Some,
    ensures
        env_closed(run_from(e, is)->0),
    decreases is.len(),
{
    if is.len() > 0 {
        lemma_step_closed(e, is[0]);
        lemma_run_closed(step(e, is[0])->0, is.drop_first());
    }
}

/// The system that a well-formed program describes has its initial states,
/// its labelled states and the successors of its states among its states.
pub proof fn lemma_program_closed(is: Seq<InstrModel>)
    requires
        run_from(empty_env(), is) is Some,
    ensures
        ({
            let m = lts_of(run_from(empty_env(), is)->0);
            &&& m.initial.subset_of(m.states)
            &&& m.label.dom().subset_of(m.states)
            &&& succ_within(m)
        }),
{
    assert(env_closed(empty_env()));
    lemma_run_closed(empty_env(), is);
    let e = run_from(empty_env(), is)->0;
    let m = lts_of(e);
    assert forall|s: u32, a: Seq<char>| (#[trigger] m.next(s, a)) is Some implies m.states.contains(
        m.next(s, a)->0,
    ) by {
        assert(has_trans(e, s, a));
    }
}

} // verus!

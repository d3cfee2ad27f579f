use vstd::prelude::*;

use crate::buff::contains_token;
use crate::mu::{Formula, Mu};
use crate::token::Token;

verus! {

/// A finite labelled transition system, deterministic by action: its
/// states, its initial states, the propositions of each labelled state and
/// the successor of each state under each action that it has one for.
#[verifier::reject_recursive_types(A)]
#[verifier::reject_recursive_types(P)]
pub struct Lts<A, P> {
    pub states: Set<u32>,
    pub initial: Set<u32>,
    pub label: Map<u32, Set<P>>,
    pub succ: Map<u32, Map<A, u32>>,
}

impl<A, P> Lts<A, P> {
    /// Whether proposition `p` labels state `s`.
    pub open spec fn labelled(self, s: u32, p: P) -> bool {
        self.label.dom().contains(s) && self.label[s].contains(p)
    }

    /// The propositions of `s`; none if `s` has no label.
    pub open spec fn label_of(self, s: u32) -> Set<P> {
        if self.label.dom().contains(s) {
            self.label[s]
        } else {
            Set::empty()
        }
    }

    /// The `a`-successor of `s`, if any.
    pub open spec fn next(self, s: u32, a: A) -> Option<u32> {
        if self.succ.dom().contains(s) && self.succ[s].dom().contains(a) {
            Some(self.succ[s][a])
        } else {
            None
        }
    }
}

/// Every variable of `f` is bound by a fixpoint of `f` or is in `bound`.
pub open spec fn closed<A, P>(f: Formula<A, P>, bound: Set<Seq<char>>) -> bool
    decreases f,
{
    match f {
        Formula::Lit(_) => true,
        Formula::Neg(a) => closed(*a, bound),
        Formula::And(a, b) => closed(*a, bound) && closed(*b, bound),
        Formula::Or(a, b) => closed(*a, bound) && closed(*b, bound),
        Formula::Gfp(x, a) => closed(*a, bound.insert(x)),
        Formula::All(_, a) => closed(*a, bound),
        Formula::Lfp(x, a) => closed(*a, bound.insert(x)),
        Formula::Ex(_, a) => closed(*a, bound),
        Formula::Var(x) => bound.contains(x),
    }
}

/// The states of `m` that satisfy `f` when each free variable `X` stands
/// for the set `env[X]`.
pub open spec fn sem<A, P>(m: Lts<A, P>, f: Formula<A, P>, env: Map<Seq<char>, Set<u32>>) -> Set<
    u32,
>
    decreases f, 0int,
{
    match f {
        Formula::Lit(p) => m.states.filter(|s: u32| m.labelled(s, p)),
        Formula::Neg(a) => m.states.difference(sem(m, *a, env)),
        Formula::And(a, b) => sem(m, *a, env).intersect(sem(m, *b, env)),
        Formula::Or(a, b) => sem(m, *a, env).union(sem(m, *b, env)),
        Formula::All(act, a) => {
            let sa = sem(m, *a, env);
            m.states.filter(
                |s: u32|
                    match m.next(s, act) {
                        Some(t) => sa.contains(t),
                        None => true,
                    },
            )
        },
        Formula::Ex(act, a) => {
            let sa = sem(m, *a, env);
            m.states.filter(
                |s: u32|
                    match m.next(s, act) {
                        Some(t) => sa.contains(t),
                        None => false,
                    },
            )
        },
        Formula::Var(x) => if env.dom().contains(x) {
            env[x]
        } else {
            Set::empty()
        },
        Formula::Lfp(x, a) => iterate(m, x, *a, env, Set::empty(), m.states.len()),
        Formula::Gfp(x, a) => iterate(m, x, *a, env, m.states, m.states.len()),
    }
}

/// `k` steps of `S ↦ ⟦g⟧(env[x ↦ S])` from `start`.
pub open spec fn iterate<A, P>(
    m: Lts<A, P>,
    x: Seq<char>,
    g: Formula<A, P>,
    env: Map<Seq<char>, Set<u32>>,
    start: Set<u32>,
    k: nat,
) -> Set<u32>
    decreases g, k + 1,
{
    if k == 0 {
        start
    } else {
        sem(m, g, env.insert(x, iterate(m, x, g, env, start, (k - 1) as nat)))
    }
}

/// Every set of the environment holds states of `m` only.
pub open spec fn env_within<A, P>(m: Lts<A, P>, env: Map<Seq<char>, Set<u32>>) -> bool {
    forall|x: Seq<char>| #[trigger] env.dom().contains(x) ==> env[x].subset_of(m.states)
}

/// What a formula denotes is a set of states.
pub proof fn lemma_sem_within<A, P>(m: Lts<A, P>, f: Formula<A, P>, env: Map<Seq<char>, Set<u32>>)
    requires
        env_within(m, env),
    ensures
        sem(m, f, env).subset_of(m.states),
    decreases f, 0int,
{
    match f {
        Formula::Lit(_) => {},
        Formula::Neg(a) => {},
        Formula::And(a, b) => {
            lemma_sem_within(m, *a, env);
        },
        Formula::Or(a, b) => {
            lemma_sem_within(m, *a, env);
            lemma_sem_within(m, *b, env);
        },
        Formula::All(_, a) => {},
        Formula::Ex(_, a) => {},
        Formula::Var(x) => {},
        Formula::Lfp(x, a) => {
            lemma_iterate_within(m, x, *a, env, Set::empty(), m.states.len());
        },
        Formula::Gfp(x, a) => {
            lemma_iterate_within(m, x, *a, env, m.states, m.states.len());
        },
    }
}

pub proof fn lemma_iterate_within<A, P>(
    m: Lts<A, P>,
    x: Seq<char>,
    g: Formula<A, P>,
    env: Map<Seq<char>, Set<u32>>,
    start: Set<u32>,
    k: nat,
)
    requires
        env_within(m, env),
        start.subset_of(m.states),
    ensures
        iterate(m, x, g, env, start, k).subset_of(m.states),
    decreases g, k + 1,
{
    if k > 0 {
        let prev = iterate(m, x, g, env, start, (k - 1) as nat);
        lemma_iterate_within(m, x, g, env, start, (k - 1) as nat);
        assert(env_within(m, env.insert(x, prev)));
        lemma_sem_within(m, g, env.insert(x, prev));
    }
}

/// The last index of `ls` whose key is `s`, or -1.
pub open spec fn key_index<T>(ls: Seq<(u32, T)>, s: u32) -> int
    decreases ls.len(),
{
    if ls.len() == 0 {
        -1
    } else if ls.last().0 == s {
        ls.len() - 1
    } else {
        key_index(ls.drop_last(), s)
    }
}

/// The last index of `post` whose action has the view `a`, or -1.
pub open spec fn act_index<A: View>(post: Seq<(A, u32)>, a: A::V) -> int
    decreases post.len(),
{
    if post.len() == 0 {
        -1
    } else if post.last().0@ == a {
        post.len() - 1
    } else {
        act_index(post.drop_last(), a)
    }
}

pub proof fn lemma_key_index<T>(ls: Seq<(u32, T)>, s: u32)
    ensures
        -1 <= key_index(ls, s) < ls.len(),
        key_index(ls, s) >= 0 ==> ls[key_index(ls, s)].0 == s,
        forall|j: int| key_index(ls, s) < j < ls.len() ==> #[trigger] ls[j].0 != s,
    decreases ls.len(),
{
    if ls.len() > 0 && ls.last().0 != s {
        lemma_key_index(ls.drop_last(), s);
        assert forall|j: int| key_index(ls, s) < j < ls.len() implies #[trigger] ls[j].0 != s by {
            if j < ls.len() - 1 {
                assert(ls.drop_last()[j] == ls[j]);
            }
        }
    }
}

pub proof fn lemma_act_index<A: View>(post: Seq<(A, u32)>, a: A::V)
    ensures
        -1 <= act_index(post, a) < post.len(),
        act_index(post, a) >= 0 ==> post[act_index(post, a)].0@ == a,
        forall|j: int| act_index(post, a) < j < post.len() ==> #[trigger] post[j].0@ != a,
    decreases post.len(),
{
    if post.len() > 0 && post.last().0@ != a {
        lemma_act_index(post.drop_last(), a);
        assert forall|j: int| act_index(post, a) < j < post.len() implies #[trigger] post[j].0@ != a by {
            if j < post.len() - 1 {
                assert(post.drop_last()[j] == post[j]);
            }
        }
    }
}

/// The views of the propositions of a label list.
pub open spec fn prop_set<P: View>(ls: Seq<P>) -> Set<P::V> {
    Set::new(|p: P::V| exists|j: int| 0 <= j < ls.len() && ls[j]@ == p)
}

/// Labels given as (state, propositions) pairs; a later pair for a state
/// replaces an earlier one.
pub open spec fn label_map<P: View>(ls: Seq<(u32, Vec<P>)>) -> Map<u32, Set<P::V>> {
    Map::new(|s: u32| key_index(ls, s) >= 0, |s: u32| prop_set(ls[key_index(ls, s)].1@))
}

/// Successors given as (action, state) pairs; a later pair for an action
/// replaces an earlier one.
pub open spec fn act_map<A: View>(post: Seq<(A, u32)>) -> Map<A::V, u32> {
    Map::new(|a: A::V| act_index(post, a) >= 0, |a: A::V| post[act_index(post, a)].1)
}

/// Transitions given as (state, successors) pairs; a later pair for a state
/// replaces an earlier one.
pub open spec fn succ_map<A: View>(ts: Seq<(u32, Vec<(A, u32)>)>) -> Map<u32, Map<A::V, u32>> {
    Map::new(|s: u32| key_index(ts, s) >= 0, |s: u32| act_map(ts[key_index(ts, s)].1@))
}

/// The views of a sequence of formulas.
pub open spec fn formula_views<A: View, P: View>(fs: Seq<Mu<A, P>>) -> Seq<Formula<A::V, P::V>> {
    Seq::new(fs.len(), |i: int| fs[i]@)
}

/// A transition system together with the formulas it is to satisfy.
#[derive(Debug, PartialEq, Eq)]
pub struct Ts<A, P> {
    pub(crate) states: Vec<u32>,
    pub(crate) initial: Vec<u32>,
    pub(crate) labels: Vec<(u32, Vec<P>)>,
    pub(crate) transitions: Vec<(u32, Vec<(A, u32)>)>,
    pub(crate) spec: Vec<Mu<A, P>>,
}

impl<A: View, P: View> View for Ts<A, P> {
    type V = Lts<A::V, P::V>;

    closed spec fn view(&self) -> Lts<A::V, P::V> {
        Lts {
            states: self.states@.to_set(),
            initial: self.initial@.to_set(),
            label: label_map(self.labels@),
            succ: succ_map(self.transitions@),
        }
    }
}

impl<A: Token, P: Token> Ts<A, P> {
    /// The formulas the system is to satisfy.
    pub closed spec fn specs(&self) -> Seq<Formula<A::V, P::V>> {
        formula_views(self.spec@)
    }

    /// The states are listed once each.
    pub closed spec fn wf(&self) -> bool {
        self.states@.no_duplicates()
    }

    /// The states, each listed once.
    pub closed spec fn state_list(&self) -> Seq<u32> {
        self.states@
    }

    pub proof fn lemma_state_list(&self)
        requires
            self.wf(),
        ensures
            self.state_list().no_duplicates(),
            self.state_list().to_set() == self@.states,
            self@.states.len() == self.state_list().len(),
            self@.states.finite(),
    {
        self.states@.unique_seq_to_set();
    }

    /// Builds a system from its parts. A state listed twice counts once; of
    /// two labels or two transition lists given for one state, and of two
    /// successors given for one action, the later one counts.
    pub fn new(
        states: Vec<u32>,
        initials: Vec<u32>,
        labels: Vec<(u32, Vec<P>)>,
        transitions: Vec<(u32, Vec<(A, u32)>)>,
        spec: Vec<Mu<A, P>>,
    ) -> (r: Self)
        ensures
            r.wf(),
            r@.states == states@.to_set(),
            r@.initial == initials@.to_set(),
            r@.label == label_map(labels@),
            r@.succ == succ_map(transitions@),
            r.specs() == formula_views(spec@),
    {
        let mut distinct: Vec<u32> = Vec::new();
        let mut i: usize = 0;
        while i < states.len()
            invariant
                i <= states@.len(),
                distinct@.no_duplicates(),
                forall|x: u32|
                    distinct@.contains(x) <==> exists|j: int| 0 <= j < i && states@[j] == x,
            decreases states@.len() - i,
        {
            let s = states[i];
            let ghost before = distinct@;
            if !contains_state(&distinct, s) {
                distinct.push(s);
                proof {
                    assert forall|x: u32| distinct@.contains(x) <==> (before.contains(x) || x == s) by {
                        if distinct@.contains(x) {
                            let k = choose|k: int| 0 <= k < distinct@.len() && distinct@[k] == x;
                            if k < before.len() {
                                assert(before[k] == x);
                            }
                        }
                        if before.contains(x) {
                            let k = choose|k: int| 0 <= k < before.len() && before[k] == x;
                            assert(distinct@[k] == x);
                        }
                        if x == s {
                            assert(distinct@[before.len() as int] == x);
                        }
                    }
                }
            }
            assert(forall|x: u32| distinct@.contains(x) <==> (before.contains(x) || x == s));
            proof {
                assert forall|x: u32|
                    distinct@.contains(x) <==> exists|j: int| 0 <= j < i + 1 && states@[j] == x by {
                    assert(before.contains(x) <==> exists|j: int| 0 <= j < i && states@[j] == x);
                    if x == s {
                        assert(states@[i as int] == x);
                    }
                    if exists|j: int| 0 <= j < i + 1 && states@[j] == x {
                        let j = choose|j: int| 0 <= j < i + 1 && states@[j] == x;
                        if j < i {
                            assert(exists|j: int| 0 <= j < i && states@[j] == x);
                        }
                    }
                }
            }
            i = i + 1;
        }
        assert(distinct@.to_set() =~= states@.to_set());
        Ts { states: distinct, initial: initials, labels, transitions, spec }
    }
}

/// `m[i]` tells whether `states[i]` belongs to `s`.
pub open spec fn represents(states: Seq<u32>, m: Seq<bool>, s: Set<u32>) -> bool {
    &&& m.len() == states.len()
    &&& forall|i: int| 0 <= i < states.len() ==> m[i] == #[trigger] s.contains(states[i])
}

/// The states `states[i]` for which `m[i]` holds.
pub open spec fn mask_set(states: Seq<u32>, m: Seq<bool>) -> Set<u32> {
    Set::new(|t: u32| exists|i: int| 0 <= i < states.len() && i < m.len() && states[i] == t && m[i])
}

/// The last index of `e` whose name is `x`, or -1.
pub open spec fn name_index<T>(e: Seq<(String, T)>, x: Seq<char>) -> int
    decreases e.len(),
{
    if e.len() == 0 {
        -1
    } else if e.last().0@ == x {
        e.len() - 1
    } else {
        name_index(e.drop_last(), x)
    }
}

pub proof fn lemma_name_index<T>(e: Seq<(String, T)>, x: Seq<char>)
    ensures
        -1 <= name_index(e, x) < e.len(),
        name_index(e, x) >= 0 ==> e[name_index(e, x)].0@ == x,
        forall|j: int| name_index(e, x) < j < e.len() ==> #[trigger] e[j].0@ != x,
    decreases e.len(),
{
    if e.len() > 0 && e.last().0@ != x {
        lemma_name_index(e.drop_last(), x);
        assert forall|j: int| name_index(e, x) < j < e.len() implies #[trigger] e[j].0@ != x by {
            if j < e.len() - 1 {
                assert(e.drop_last()[j] == e[j]);
            }
        }
    }
}

/// The environment a list of (name, mask) pairs stands for; a later pair
/// for a name hides an earlier one.
pub open spec fn env_view(states: Seq<u32>, e: Seq<(String, Vec<bool>)>) -> Map<
    Seq<char>,
    Set<u32>,
> {
    Map::new(|x: Seq<char>| name_index(e, x) >= 0, |x: Seq<char>| mask_set(states, e[name_index(e, x)].1@))
}

/// Every mask of `e` has one entry per state.
pub open spec fn masks_fit(states: Seq<u32>, e: Seq<(String, Vec<bool>)>) -> bool {
    forall|i: int| 0 <= i < e.len() ==> (#[trigger] e[i]).1@.len() == states.len()
}

pub proof fn lemma_mask_set(states: Seq<u32>, m: Seq<bool>, s: Set<u32>)
    requires
        represents(states, m, s),
        s.subset_of(states.to_set()),
    ensures
        mask_set(states, m) == s,
{
    assert forall|t: u32| #[trigger] s.contains(t) implies mask_set(states, m).contains(t) by {
        let i = choose|i: int| 0 <= i < states.len() && states[i] == t;
        assert(m[i]);
    }
    assert(mask_set(states, m) =~= s);
}

pub proof fn lemma_represents_mask_set(states: Seq<u32>, m: Seq<bool>)
    requires
        states.no_duplicates(),
        m.len() == states.len(),
    ensures
        represents(states, m, mask_set(states, m)),
{
}

pub proof fn lemma_env_within(states: Seq<u32>, e: Seq<(String, Vec<bool>)>)
    ensures
        forall|x: Seq<char>| #[trigger] env_view(states, e).dom().contains(x)
            ==> env_view(states, e)[x].subset_of(states.to_set()),
{
}

pub proof fn lemma_env_push(states: Seq<u32>, e: Seq<(String, Vec<bool>)>, x: String, m: Vec<bool>)
    ensures
        env_view(states, e.push((x, m))) == env_view(states, e).insert(x@, mask_set(states, m@)),
{
    let e2 = e.push((x, m));
    assert(e2.drop_last() == e);
    assert forall|y: Seq<char>| y != x@ implies name_index(e2, y) == name_index(e, y) by {}
    assert forall|y: Seq<char>| y != x@ && name_index(e, y) >= 0 implies e2[name_index(e, y)] == e[name_index(e, y)] by {
        lemma_name_index(e, y);
    }
    assert(env_view(states, e2) =~= env_view(states, e).insert(x@, mask_set(states, m@)));
}

/// Once an iteration repeats itself it stays where it is.
pub proof fn lemma_iterate_stable<A, P>(
    m: Lts<A, P>,
    x: Seq<char>,
    g: Formula<A, P>,
    env: Map<Seq<char>, Set<u32>>,
    start: Set<u32>,
    k: nat,
    n: nat,
)
    requires
        k <= n,
        iterate(m, x, g, env, start, k + 1) == iterate(m, x, g, env, start, k),
    ensures
        iterate(m, x, g, env, start, n) == iterate(m, x, g, env, start, k),
    decreases n - k,
{
    if k < n {
        lemma_iterate_stable(m, x, g, env, start, k, (n - 1) as nat);
        assert(iterate(m, x, g, env, start, n) == sem(
            m,
            g,
            env.insert(x, iterate(m, x, g, env, start, (n - 1) as nat)),
        ));
    }
}

impl<A: Token, P: Token> Ts<A, P> {
    fn label_index(&self, s: u32) -> (r: Option<usize>)
        ensures
            r matches Some(i) ==> i == key_index(self.labels@, s) && i < self.labels@.len(),
            r is None ==> key_index(self.labels@, s) == -1,
    {
        key_pos(&self.labels, s)
    }

    fn trans_index(&self, s: u32) -> (r: Option<usize>)
        ensures
            r matches Some(i) ==> i == key_index(self.transitions@, s) && i < self.transitions@.len(),
            r is None ==> key_index(self.transitions@, s) == -1,
    {
        key_pos(&self.transitions, s)
    }

    /// The propositions of state `x`; none if it has no label.
    pub fn label(&self, x: &u32) -> (r: Vec<P>)
        ensures
            prop_set(r@) == self@.label_of(*x),
    {
        match self.label_index(*x) {
            Some(i) => {
                let ls = &self.labels[i].1;
                let mut r: Vec<P> = Vec::new();
                let mut j: usize = 0;
                while j < ls.len()
                    invariant
                        j <= ls@.len(),
                        r@.len() == j,
                        forall|k: int| 0 <= k < j ==> #[trigger] r@[k]@ == ls@[k]@,
                    decreases ls@.len() - j,
                {
                    r.push(ls[j].dup());
                    j = j + 1;
                }
                assert(prop_set(r@) =~= prop_set(ls@)) by {
                    assert forall|p: P::V| prop_set(ls@).contains(p) implies prop_set(r@).contains(p) by {
                        let k = choose|k: int| 0 <= k < ls@.len() && ls@[k]@ == p;
                        assert(r@[k]@ == p);
                    }
                }
                r
            },
            None => {
                let r: Vec<P> = Vec::new();
                assert(prop_set(r@) =~= Set::<P::V>::empty());
                r
            },
        }
    }

    /// Whether proposition `p` labels state `s`.
    fn has_prop(&self, s: u32, p: &P) -> (r: bool)
        ensures
            r == self@.labelled(s, p@),
    {
        match self.label_index(s) {
            Some(i) => contains_token(&self.labels[i].1, p),
            None => false,
        }
    }

    /// The `act`-successor of state `x`, if any.
    pub fn succ(&self, x: &u32, act: &A) -> (r: Option<u32>)
        ensures
            r == self@.next(*x, act@),
    {
        match self.trans_index(*x) {
            Some(i) => {
                let r = find_act(&self.transitions[i].1, act);
                assert(self@.succ[*x] == act_map(self.transitions@[i as int].1@));
                r
            },
            None => None,
        }
    }

    /// The states that satisfy `f`, as a mask over the list of states, with
    /// the free variables of `f` standing for the masks of `env`; `None` if
    /// `f` has a variable that neither `f` nor `env` binds.
    fn sat_mask(&self, f: &Mu<A, P>, env: &mut Vec<(String, Vec<bool>)>) -> (r: Option<Vec<bool>>)
        requires
            self.wf(),
            masks_fit(self.states@, old(env)@),
        ensures
            final(env)@ == old(env)@,
            r is Some == closed(f@, env_view(self.states@, old(env)@).dom()),
            r matches Some(m) ==> represents(
                self.states@,
                m@,
                sem(self@, f@, env_view(self.states@, old(env)@)),
            ),
        decreases f, 0int,
    {
        let ghost genv = env_view(self.states@, env@);
        proof {
            self.lemma_state_list();
            lemma_env_within(self.states@, env@);
            assert(env_within(self@, genv));
        }
        let n = self.states.len();
        match f {
            Mu::Lit(p) => {
                let mut m: Vec<bool> = Vec::new();
                let mut i: usize = 0;
                while i < n
                    invariant
                        n == self.states@.len(),
                        i <= n,
                        m@.len() == i,
                        forall|j: int|
                            0 <= j < i ==> m@[j] == sem(self@, f@, genv).contains(
                                #[trigger] self.states@[j],
                            ),
                        f@ == Formula::<A::V, P::V>::Lit(p@),
                        self@.states == self.states@.to_set(),
                    decreases n - i,
                {
                    let b = self.has_prop(self.states[i], p);
                    assert(self@.states.contains(self.states@[i as int]));
                    m.push(b);
                    i = i + 1;
                }
                Some(m)
            },
            Mu::Neg(a) => {
                let sa = self.sat_mask(a, env)?;
                let mut m: Vec<bool> = Vec::new();
                let mut i: usize = 0;
                while i < n
                    invariant
                        n == self.states@.len(),
                        i <= n,
                        m@.len() == i,
                        represents(self.states@, sa@, sem(self@, (**a)@, genv)),
                        forall|j: int|
                            0 <= j < i ==> m@[j] == sem(self@, f@, genv).contains(
                                #[trigger] self.states@[j],
                            ),
                        f@ == Formula::<A::V, P::V>::Neg(Box::new((**a)@)),
                        self@.states == self.states@.to_set(),
                    decreases n - i,
                {
                    assert(self@.states.contains(self.states@[i as int]));
                    m.push(!sa[i]);
                    i = i + 1;
                }
                Some(m)
            },
            Mu::And(a, b) => {
                let sa = self.sat_mask(a, env)?;
                let sb = self.sat_mask(b, env)?;
                let mut m: Vec<bool> = Vec::new();
                let mut i: usize = 0;
                while i < n
                    invariant
                        n == self.states@.len(),
                        i <= n,
                        m@.len() == i,
                        represents(self.states@, sa@, sem(self@, (**a)@, genv)),
                        represents(self.states@, sb@, sem(self@, (**b)@, genv)),
                        forall|j: int|
                            0 <= j < i ==> m@[j] == sem(self@, f@, genv).contains(
                                #[trigger] self.states@[j],
                            ),
                        f@ == Formula::<A::V, P::V>::And(Box::new((**a)@), Box::new((**b)@)),
                    decreases n - i,
                {
                    m.push(sa[i] && sb[i]);
                    i = i + 1;
                }
                Some(m)
            },
            Mu::Or(a, b) => {
                let sa = self.sat_mask(a, env)?;
                let sb = self.sat_mask(b, env)?;
                let mut m: Vec<bool> = Vec::new();
                let mut i: usize = 0;
                while i < n
                    invariant
                        n == self.states@.len(),
                        i <= n,
                        m@.len() == i,
                        represents(self.states@, sa@, sem(self@, (**a)@, genv)),
                        represents(self.states@, sb@, sem(self@, (**b)@, genv)),
                        forall|j: int|
                            0 <= j < i ==> m@[j] == sem(self@, f@, genv).contains(
                                #[trigger] self.states@[j],
                            ),
                        f@ == Formula::<A::V, P::V>::Or(Box::new((**a)@), Box::new((**b)@)),
                    decreases n - i,
                {
                    m.push(sa[i] || sb[i]);
                    i = i + 1;
                }
                Some(m)
            },
            Mu::All(act, a) => {
                let sa = self.sat_mask(a, env)?;
                proof {
                    lemma_sem_within(self@, (**a)@, genv);
                }
                let mut m: Vec<bool> = Vec::new();
                let mut i: usize = 0;
                while i < n
                    invariant
                        n == self.states@.len(),
                        i <= n,
                        m@.len() == i,
                        represents(self.states@, sa@, sem(self@, (**a)@, genv)),
                        sem(self@, (**a)@, genv).subset_of(self@.states),
                        forall|j: int|
                            0 <= j < i ==> m@[j] == sem(self@, f@, genv).contains(
                                #[trigger] self.states@[j],
                            ),
                        f@ == Formula::<A::V, P::V>::All(act@, Box::new((**a)@)),
                        self@.states == self.states@.to_set(),
                    decreases n - i,
                {
                    assert(self@.states.contains(self.states@[i as int]));
                    let b = match self.succ(&self.states[i], act) {
                        Some(t) => match self.state_index(t) {
                            Some(j) => sa[j],
                            None => false,
                        },
                        None => true,
                    };
                    m.push(b);
                    i = i + 1;
                }
                Some(m)
            },
            Mu::Ex(act, a) => {
                let sa = self.sat_mask(a, env)?;
                proof {
                    lemma_sem_within(self@, (**a)@, genv);
                }
                let mut m: Vec<bool> = Vec::new();
                let mut i: usize = 0;
                while i < n
                    invariant
                        n == self.states@.len(),
                        i <= n,
                        m@.len() == i,
                        represents(self.states@, sa@, sem(self@, (**a)@, genv)),
                        sem(self@, (**a)@, genv).subset_of(self@.states),
                        forall|j: int|
                            0 <= j < i ==> m@[j] == sem(self@, f@, genv).contains(
                                #[trigger] self.states@[j],
                            ),
                        f@ == Formula::<A::V, P::V>::Ex(act@, Box::new((**a)@)),
                        self@.states == self.states@.to_set(),
                    decreases n - i,
                {
                    assert(self@.states.contains(self.states@[i as int]));
                    let b = match self.succ(&self.states[i], act) {
                        Some(t) => match self.state_index(t) {
                            Some(j) => sa[j],
                            None => false,
                        },
                        None => false,
                    };
                    m.push(b);
                    i = i + 1;
                }
                Some(m)
            },
            Mu::Var(x) => {
                let i = env_index(env, x)?;
                let src = &env[i].1;
                let mut m: Vec<bool> = Vec::new();
                let mut j: usize = 0;
                while j < src.len()
                    invariant
                        j <= src@.len(),
                        m@.len() == j,
                        forall|k: int| 0 <= k < j ==> m@[k] == src@[k],
                    decreases src@.len() - j,
                {
                    m.push(src[j]);
                    j = j + 1;
                }
                assert(m@ =~= src@);
                proof {
                    lemma_represents_mask_set(self.states@, m@);
                }
                Some(m)
            },
            Mu::Lfp(x, a) => self.fixpoint(x, a, true, env),
            Mu::Gfp(x, a) => self.fixpoint(x, a, false, env),
        }
    }

    /// Iterates `S ↦ ⟦g⟧(env[x ↦ S])` from the empty set (if `least`) or
    /// from all states, until it repeats itself or has taken as many steps as
    /// there are states.
    fn fixpoint(&self, x: &String, g: &Mu<A, P>, least: bool, env: &mut Vec<(String, Vec<bool>)>) -> (r:
        Option<Vec<bool>>)
        requires
            self.wf(),
            masks_fit(self.states@, old(env)@),
        ensures
            final(env)@ == old(env)@,
            r is Some == closed(g@, env_view(self.states@, old(env)@).dom().insert(x@)),
            r matches Some(m) ==> represents(
                self.states@,
                m@,
                iterate(
                    self@,
                    x@,
                    g@,
                    env_view(self.states@, old(env)@),
                    if least {
                        Set::empty()
                    } else {
                        self@.states
                    },
                    self@.states.len(),
                ),
            ),
        decreases g, 1int,
    {
        let ghost genv = env_view(self.states@, env@);
        let ghost start: Set<u32> = if least {
            Set::empty()
        } else {
            self@.states
        };
        proof {
            self.lemma_state_list();
            lemma_env_within(self.states@, env@);
        }
        let n = self.states.len();
        let mut cur: Vec<bool> = Vec::new();
        let mut i: usize = 0;
        while i < n
            invariant
                n == self.states@.len(),
                i <= n,
                cur@.len() == i,
                forall|j: int| 0 <= j < i ==> cur@[j] == start.contains(#[trigger] self.states@[j]),
                start == (if least {
                    Set::<u32>::empty()
                } else {
                    self@.states
                }),
                self@.states == self.states@.to_set(),
            decreases n - i,
        {
            assert(self@.states.contains(self.states@[i as int]));
            cur.push(!least);
            i = i + 1;
        }
        let mut k: usize = 0;
        loop
            invariant
                self.wf(),
                n == self.states@.len(),
                n == self@.states.len(),
                self@.states == self.states@.to_set(),
                env@ == old(env)@,
                genv == env_view(self.states@, old(env)@),
                masks_fit(self.states@, env@),
                env_within(self@, genv),
                start.subset_of(self@.states),
                start == (if least {
                    Set::<u32>::empty()
                } else {
                    self@.states
                }),
                k <= n,
                represents(self.states@, cur@, iterate(self@, x@, g@, genv, start, k as nat)),
            decreases n - k,
        {
            let xc = x.clone();
            proof {
                lemma_iterate_within(self@, x@, g@, genv, start, k as nat);
                lemma_mask_set(
                    self.states@,
                    cur@,
                    iterate(self@, x@, g@, genv, start, k as nat),
                );
                lemma_env_push(self.states@, env@, xc, cur);
            }
            let ghost prev = iterate(self@, x@, g@, genv, start, k as nat);
            env.push((xc, cur));
            proof {
                assert(env_view(self.states@, env@) == genv.insert(x@, prev));
                assert(env_view(self.states@, env@).dom() == genv.dom().insert(x@));
            }
            let res = self.sat_mask(g, env);
            let (_, back) = env.pop().unwrap();
            cur = back;
            let next = match res {
                Some(v) => v,
                None => return None,
            };
            assert(iterate(self@, x@, g@, genv, start, (k + 1) as nat) == sem(
                self@,
                g@,
                genv.insert(x@, prev),
            ));
            if k == n {
                return Some(cur);
            }
            if same_mask(&next, &cur) {
                proof {
                    lemma_iterate_within(self@, x@, g@, genv, start, (k + 1) as nat);
                    lemma_mask_set(
                        self.states@,
                        next@,
                        iterate(self@, x@, g@, genv, start, (k + 1) as nat),
                    );
                    lemma_iterate_stable(self@, x@, g@, genv, start, k as nat, n as nat);
                }
                return Some(cur);
            }
            cur = next;
            k = k + 1;
        }
    }

    /// The states that satisfy `spec` when each name of `env` stands for its
    /// set of states (a later pair for a name hides an earlier one); an error
    /// if `spec` has a variable that neither it nor `env` binds.
    pub fn sat(&self, spec: &Mu<A, P>, env: Vec<(String, Vec<u32>)>) -> (r: Result<Vec<u32>, String>)
        requires
            self.wf(),
            forall|i: int| 0 <= i < env@.len() ==> (#[trigger] env@[i]).1@.to_set().subset_of(self@.states),
        ensures
            r is Ok == closed(spec@, input_env(env@).dom()),
            r matches Ok(v) ==> v@.to_set() == sem(self@, spec@, input_env(env@)),
    {
        proof {
            self.lemma_state_list();
        }
        let n = self.states.len();
        let mut masks: Vec<(String, Vec<bool>)> = Vec::new();
        let mut i: usize = 0;
        while i < env.len()
            invariant
                i <= env@.len(),
                masks@.len() == i,
                n == self.states@.len(),
                self@.states == self.states@.to_set(),
                forall|j: int| 0 <= j < env@.len() ==> (#[trigger] env@[j]).1@.to_set().subset_of(self@.states),
                forall|j: int| 0 <= j < i ==> #[trigger] masks@[j].0@ == env@[j].0@,
                forall|j: int|
                    0 <= j < i ==> mask_set(self.states@, (#[trigger] masks@[j]).1@) == env@[j].1@.to_set(),
                masks_fit(self.states@, masks@),
            decreases env@.len() - i,
        {
            let mut m: Vec<bool> = Vec::new();
            let mut j: usize = 0;
            while j < n
                invariant
                    n == self.states@.len(),
                    j <= n,
                    m@.len() == j,
                    i < env@.len(),
                    forall|k: int| 0 <= k < j ==> m@[k] == #[trigger] env@[i as int].1@.to_set().contains(self.states@[k]),
                decreases n - j,
            {
                m.push(contains_state(&env[i].1, self.states[j]));
                j = j + 1;
            }
            proof {
                lemma_mask_set(self.states@, m@, env@[i as int].1@.to_set());
            }
            masks.push((env[i].0.clone(), m));
            i = i + 1;
        }
        proof {
            assert forall|x: Seq<char>| true implies name_index(masks@, x) == name_index(env@, x) by {
                lemma_name_index_same(masks@, env@, x);
            }
            assert forall|x: Seq<char>| #[trigger] input_env(env@).dom().contains(x) implies env_view(
                self.states@,
                masks@,
            )[x] == input_env(env@)[x] by {
                lemma_name_index(env@, x);
            }
            assert(env_view(self.states@, masks@) =~= input_env(env@));
        }
        let res = self.sat_mask(spec, &mut masks);
        let m = match res {
            Some(m) => m,
            None => {
                return Err("free fixpoint variable".to_owned());
            },
        };
        let ghost s = sem(self@, spec@, input_env(env@));
        proof {
            lemma_env_within(self.states@, masks@);
            lemma_sem_within(self@, spec@, input_env(env@));
        }
        let mut out: Vec<u32> = Vec::new();
        let mut k: usize = 0;
        while k < n
            invariant
                n == self.states@.len(),
                k <= n,
                represents(self.states@, m@, s),
                forall|t: u32| #[trigger] out@.contains(t) <==> exists|j: int| 0 <= j < k && self.states@[j] == t && s.contains(t),
            decreases n - k,
        {
            let ghost before = out@;
            if m[k] {
                out.push(self.states[k]);
            }
            proof {
                assert forall|t: u32| #[trigger] out@.contains(t) <==> exists|j: int| 0 <= j < k + 1 && self.states@[j] == t && s.contains(t) by {
                    if out@.contains(t) && !before.contains(t) {
                        assert(out@.last() == t) by {
                            let q = choose|q: int| 0 <= q < out@.len() && out@[q] == t;
                            if q < before.len() {
                                assert(before[q] == t);
                            }
                        }
                    }
                    if before.contains(t) {
                        let q = choose|q: int| 0 <= q < before.len() && before[q] == t;
                        assert(out@[q] == t);
                    }
                    if exists|j: int| 0 <= j < k + 1 && self.states@[j] == t && s.contains(t) {
                        let j = choose|j: int| 0 <= j < k + 1 && self.states@[j] == t && s.contains(t);
                        if j == k {
                            assert(out@[out@.len() - 1] == t);
                        }
                    }
                }
            }
            k = k + 1;
        }
        assert(out@.to_set() =~= s);
        Ok(out)
    }

    /// The verdict on the system: each formula in turn must hold at every
    /// initial state; an error if a formula has a free variable.
    pub fn check(&self) -> (r: Result<bool, String>)
        requires
            self.wf(),
        ensures
            r is Ok == verdict(self@, self.specs()) is Some,
            r matches Ok(b) ==> b == verdict(self@, self.specs())->0,
    {
        let mut i: usize = 0;
        assert(self.specs().subrange(0, self.specs().len() as int) == self.specs());
        while i < self.spec.len()
            invariant
                self.wf(),
                self.specs().len() == self.spec@.len(),
                i <= self.spec@.len(),
                verdict(self@, self.specs()) == verdict(self@, self.specs().subrange(i as int, self.specs().len() as int)),
            decreases self.spec@.len() - i,
        {
            let ghost rest = self.specs().subrange(i as int, self.specs().len() as int);
            let ghost f = self.spec@[i as int]@;
            assert(rest[0] == f);
            assert(rest.drop_first() == self.specs().subrange(i + 1, self.specs().len() as int));
            let mut env: Vec<(String, Vec<bool>)> = Vec::new();
            assert(env_view(self.states@, env@) =~= Map::<Seq<char>, Set<u32>>::empty());
            let m = match self.sat_mask(&self.spec[i], &mut env) {
                Some(m) => m,
                None => {
                    return Err("free fixpoint variable".to_owned());
                },
            };
            let ghost s = sem(self@, f, Map::empty());
            proof {
                self.lemma_state_list();
                lemma_sem_within(self@, f, Map::empty());
                assert(closed(f, Set::empty()));
            }
            let mut j: usize = 0;
            while j < self.initial.len()
                invariant
                    j <= self.initial@.len(),
                    represents(self.states@, m@, s),
                    forall|q: int| 0 <= q < j ==> s.contains(#[trigger] self.initial@[q]),
                    s.subset_of(self@.states),
                    self@.states == self.states@.to_set(),
                    s == sem(self@, f, Map::empty()),
                    rest.len() > 0,
                    rest[0] == f,
                    closed(f, Set::empty()),
                    verdict(self@, self.specs()) == verdict(self@, rest),
                decreases self.initial@.len() - j,
            {
                let inside = match self.state_index(self.initial[j]) {
                    Some(q) => m[q],
                    None => false,
                };
                if !inside {
                    assert(!s.contains(self.initial@[j as int]));
                    assert(self@.initial.contains(self.initial@[j as int]));
                    assert(!holds(self@, f)) by {
                        if self@.initial.subset_of(s) {
                            assert(s.contains(self.initial@[j as int]));
                        }
                    }
                    assert(verdict(self@, rest) == Some(false));
                    return Ok(false);
                }
                j = j + 1;
            }
            assert(holds(self@, f));
            i = i + 1;
        }
        Ok(true)
    }

    /// The index of state `t` in the list of states, if it is one.
    fn state_index(&self, t: u32) -> (r: Option<usize>)
        ensures
            r matches Some(j) ==> j < self.states@.len() && self.states@[j as int] == t,
            r is None ==> !self.states@.contains(t),
    {
        let mut j: usize = 0;
        while j < self.states.len()
            invariant
                j <= self.states@.len(),
                forall|k: int| 0 <= k < j ==> self.states@[k] != t,
            decreases self.states@.len() - j,
        {
            if self.states[j] == t {
                return Some(j);
            }
            j = j + 1;
        }
        None
    }
}

/// Whether every initial state of `m` satisfies the closed formula `f`.
pub open spec fn holds<A, P>(m: Lts<A, P>, f: Formula<A, P>) -> bool {
    m.initial.subset_of(sem(m, f, Map::empty()))
}

/// The verdict on formulas checked in turn: `None` at the first one with a
/// free variable, `false` at the first one that does not hold, else `true`.
pub open spec fn verdict<A, P>(m: Lts<A, P>, fs: Seq<Formula<A, P>>) -> Option<bool>
    decreases fs.len(),
{
    if fs.len() == 0 {
        Some(true)
    } else if !closed(fs[0], Set::empty()) {
        None
    } else if !holds(m, fs[0]) {
        Some(false)
    } else {
        verdict(m, fs.drop_first())
    }
}

/// The environment that (name, states) pairs stand for; a later pair for a
/// name hides an earlier one.
pub open spec fn input_env(e: Seq<(String, Vec<u32>)>) -> Map<Seq<char>, Set<u32>> {
    Map::new(|x: Seq<char>| name_index(e, x) >= 0, |x: Seq<char>| e[name_index(e, x)].1@.to_set())
}

proof fn lemma_name_index_same<T, U>(e1: Seq<(String, T)>, e2: Seq<(String, U)>, x: Seq<char>)
    requires
        e1.len() == e2.len(),
        forall|i: int| 0 <= i < e1.len() ==> #[trigger] e1[i].0@ == e2[i].0@,
    ensures
        name_index(e1, x) == name_index(e2, x),
    decreases e1.len(),
{
    if e1.len() > 0 {
        let (d1, d2) = (e1.drop_last(), e2.drop_last());
        assert forall|i: int| 0 <= i < d1.len() implies #[trigger] d1[i].0@ == d2[i].0@ by {
            assert(d1[i] == e1[i] && d2[i] == e2[i]);
        }
        lemma_name_index_same(d1, d2, x);
    }
}

/// The last index of `e` whose name is `x`.
fn env_index(e: &Vec<(String, Vec<bool>)>, x: &String) -> (r: Option<usize>)
    ensures
        r matches Some(i) ==> i == name_index(e@, x@) && i < e@.len(),
        r is None ==> name_index(e@, x@) == -1,
{
    proof {
        lemma_name_index(e@, x@);
    }
    let mut i: usize = e.len();
    while i > 0
        invariant
            i <= e@.len(),
            forall|j: int| i <= j < e@.len() ==> #[trigger] e@[j].0@ != x@,
            -1 <= name_index(e@, x@) < e@.len(),
            name_index(e@, x@) >= 0 ==> e@[name_index(e@, x@)].0@ == x@,
            forall|j: int| name_index(e@, x@) < j < e@.len() ==> #[trigger] e@[j].0@ != x@,
        decreases i,
    {
        if e[i - 1].0.same(x) {
            return Some(i - 1);
        }
        i = i - 1;
    }
    None
}

/// Whether two masks are equal.
fn same_mask(a: &Vec<bool>, b: &Vec<bool>) -> (r: bool)
    ensures
        r == (a@ == b@),
{
    if a.len() != b.len() {
        return false;
    }
    let mut i: usize = 0;
    while i < a.len()
        invariant
            a@.len() == b@.len(),
            i <= a@.len(),
            forall|j: int| 0 <= j < i ==> a@[j] == b@[j],
        decreases a@.len() - i,
    {
        if a[i] != b[i] {
            return false;
        }
        i = i + 1;
    }
    assert(a@ =~= b@);
    true
}

/// The successor under the last pair of `post` whose action is `act`.
pub(crate) fn find_act<A: Token>(post: &Vec<(A, u32)>, act: &A) -> (r: Option<u32>)
    ensures
        r == (if act_index(post@, act@) >= 0 {
            Some(post@[act_index(post@, act@)].1)
        } else {
            None
        }),
{
    proof {
        lemma_act_index(post@, act@);
    }
    let mut j: usize = post.len();
    while j > 0
        invariant
            j <= post@.len(),
            forall|k: int| j <= k < post@.len() ==> #[trigger] post@[k].0@ != act@,
            -1 <= act_index(post@, act@) < post@.len(),
            act_index(post@, act@) >= 0 ==> post@[act_index(post@, act@)].0@ == act@,
            forall|k: int| act_index(post@, act@) < k < post@.len() ==> #[trigger] post@[k].0@ != act@,
        decreases j,
    {
        if post[j - 1].0.same(act) {
            return Some(post[j - 1].1);
        }
        j = j - 1;
    }
    None
}

/// The last index of `ls` whose key is `s`.
pub(crate) fn key_pos<T>(ls: &Vec<(u32, T)>, s: u32) -> (r: Option<usize>)
    ensures
        r matches Some(i) ==> i == key_index(ls@, s) && i < ls@.len(),
        r is None ==> key_index(ls@, s) == -1,
{
    proof {
        lemma_key_index(ls@, s);
    }
    let mut i: usize = ls.len();
    while i > 0
        invariant
            i <= ls@.len(),
            forall|j: int| i <= j < ls@.len() ==> #[trigger] ls@[j].0 != s,
            -1 <= key_index(ls@, s) < ls@.len(),
            key_index(ls@, s) >= 0 ==> ls@[key_index(ls@, s)].0 == s,
            forall|j: int| key_index(ls@, s) < j < ls@.len() ==> #[trigger] ls@[j].0 != s,
        decreases i,
    {
        if ls[i - 1].0 == s {
            return Some(i - 1);
        }
        i = i - 1;
    }
    None
}

/// A new last pair for `s` gives `s` its propositions.
pub proof fn lemma_label_map_push<P: View>(ls: Seq<(u32, Vec<P>)>, s: u32, ps: Vec<P>)
    ensures
        label_map(ls.push((s, ps))) == label_map(ls).insert(s, prop_set(ps@)),
{
    let l2 = ls.push((s, ps));
    assert(l2.drop_last() == ls);
    assert forall|x: u32| x != s && key_index(ls, x) >= 0 implies l2[key_index(ls, x)] == ls[key_index(ls, x)] by {
        lemma_key_index(ls, x);
    }
    assert(label_map(l2) =~= label_map(ls).insert(s, prop_set(ps@)));
}

/// A new last pair for `s` gives `s` its successors.
pub proof fn lemma_succ_map_push<A: View>(ts: Seq<(u32, Vec<(A, u32)>)>, s: u32, post: Vec<(A, u32)>)
    ensures
        succ_map(ts.push((s, post))) == succ_map(ts).insert(s, act_map(post@)),
{
    let t2 = ts.push((s, post));
    assert(t2.drop_last() == ts);
    assert forall|x: u32| x != s && key_index(ts, x) >= 0 implies t2[key_index(ts, x)] == ts[key_index(ts, x)] by {
        lemma_key_index(ts, x);
    }
    assert(succ_map(t2) =~= succ_map(ts).insert(s, act_map(post@)));
}

proof fn lemma_key_index_update<T>(ls: Seq<(u32, T)>, i: int, v: T, x: u32)
    requires
        0 <= i < ls.len(),
    ensures
        key_index(ls.update(i, (ls[i].0, v)), x) == key_index(ls, x),
    decreases ls.len(),
{
    let l2 = ls.update(i, (ls[i].0, v));
    if i < ls.len() - 1 {
        assert(l2.drop_last() == ls.drop_last().update(i, (ls[i].0, v)));
        lemma_key_index_update(ls.drop_last(), i, v, x);
    } else {
        assert(l2.drop_last() == ls.drop_last());
    }
}

/// Replacing the successors in the pair that counts for `s`.
pub proof fn lemma_succ_map_update<A: View>(ts: Seq<(u32, Vec<(A, u32)>)>, s: u32, post: Vec<(A, u32)>)
    requires
        key_index(ts, s) >= 0,
    ensures
        succ_map(ts.update(key_index(ts, s), (s, post))) == succ_map(ts).insert(s, act_map(post@)),
{
    lemma_key_index(ts, s);
    let i = key_index(ts, s);
    let t2 = ts.update(i, (s, post));
    assert forall|x: u32| key_index(t2, x) == key_index(ts, x) by {
        lemma_key_index_update(ts, i, post, x);
    }
    assert forall|x: u32| x != s && key_index(ts, x) >= 0 implies t2[key_index(ts, x)] == ts[key_index(ts, x)] by {
        lemma_key_index(ts, x);
    }
    assert(succ_map(t2) =~= succ_map(ts).insert(s, act_map(post@)));
}

/// A new last pair for action `a` makes `t` its successor.
pub proof fn lemma_act_map_push<A: View>(post: Seq<(A, u32)>, a: A, t: u32)
    ensures
        act_map(post.push((a, t))) == act_map(post).insert(a@, t),
{
    let p2 = post.push((a, t));
    assert(p2.drop_last() == post);
    assert forall|b: A::V| b != a@ && act_index(post, b) >= 0 implies p2[act_index(post, b)] == post[act_index(post, b)] by {
        lemma_act_index(post, b);
    }
    assert(act_map(p2) =~= act_map(post).insert(a@, t));
}

/// Whether `v` holds `s`.
pub fn contains_state(v: &Vec<u32>, s: u32) -> (r: bool)
    ensures
        r == v@.contains(s),
{
    let mut i: usize = 0;
    while i < v.len()
        invariant
            i <= v@.len(),
            forall|j: int| 0 <= j < i ==> v@[j] != s,
        decreases v@.len() - i,
    {
        if v[i] == s {
            return true;
        }
        i = i + 1;
    }
    false
}

} // verus!

use vstd::prelude::*;

use crate::buff::Buff;
use crate::mu::{formula_of, is_word, Formula, Mu};
use crate::sexpr::{lemma_list_view, lemma_view_kind, parse_all_spec, views, Sexpr, SexprModel};
use crate::token::{push_decimal, push_str, Token};
use crate::ts::{
    act_map, find_act, formula_views, key_index, key_pos, label_map, lemma_act_map_push,
    lemma_label_map_push, lemma_succ_map_push, lemma_succ_map_update, prop_set, succ_map, Lts, Ts,
};
use crate::buff::contains_token;

verus! {

/// One instruction of a program.
#[derive(Debug, PartialEq, Eq)]
pub enum Instr {
    SetProps(Vec<String>),
    SetActions(Vec<String>),
    SetInit(Vec<u32>),
    SetSpec(Mu<String, String>),
    Label(u32, Vec<String>),
    Trans(u32, String, u32),
    Loop(u32, String),
}

/// The mathematical value of an instruction.
pub enum InstrModel {
    SetProps(Seq<Seq<char>>),
    SetActions(Seq<Seq<char>>),
    SetInit(Seq<u32>),
    SetSpec(Formula<Seq<char>, Seq<char>>),
    Label(u32, Seq<Seq<char>>),
    Trans(u32, Seq<char>, u32),
    Loop(u32, Seq<char>),
}

/// The views of a list of names.
pub open spec fn names(v: Seq<String>) -> Seq<Seq<char>> {
    Seq::new(v.len(), |i: int| v[i]@)
}

impl View for Instr {
    type V = InstrModel;

    open spec fn view(&self) -> InstrModel {
        match self {
            Instr::SetProps(ps) => InstrModel::SetProps(names(ps@)),
            Instr::SetActions(acts) => InstrModel::SetActions(names(acts@)),
            Instr::SetInit(ss) => InstrModel::SetInit(ss@),
            Instr::SetSpec(f) => InstrModel::SetSpec(f@),
            Instr::Label(s, ps) => InstrModel::Label(*s, names(ps@)),
            Instr::Trans(s1, a, s2) => InstrModel::Trans(*s1, a@, *s2),
            Instr::Loop(s, a) => InstrModel::Loop(*s, a@),
        }
    }
}

/// Every element is a symbol.
pub open spec fn all_syms(l: Seq<SexprModel>) -> bool {
    forall|i: int| 0 <= i < l.len() ==> (#[trigger] l[i]) is Sym
}

/// Every element is a number.
pub open spec fn all_nums(l: Seq<SexprModel>) -> bool {
    forall|i: int| 0 <= i < l.len() ==> (#[trigger] l[i]) is Num
}

pub open spec fn syms(l: Seq<SexprModel>) -> Seq<Seq<char>> {
    Seq::new(l.len(), |i: int| l[i]->Sym_0)
}

pub open spec fn nums(l: Seq<SexprModel>) -> Seq<u32> {
    Seq::new(l.len(), |i: int| l[i]->Num_0)
}

/// The instruction an S-expression stands for: a list whose first element
/// names the instruction and whose other elements are its arguments.
pub open spec fn instr_of(x: SexprModel) -> Option<InstrModel> {
    match x {
        SexprModel::List(l) => if l.len() == 0 || !(l[0] is Sym) {
            None
        } else {
            let cmd = l[0]->Sym_0;
            let rest = l.subrange(1, l.len() as int);
            if cmd == "label"@ {
                if l.len() >= 3 && l[1] is Num && all_syms(l.subrange(2, l.len() as int)) {
                    Some(InstrModel::Label(l[1]->Num_0, syms(l.subrange(2, l.len() as int))))
                } else {
                    None
                }
            } else if cmd == "props"@ {
                if l.len() >= 2 && all_syms(rest) {
                    Some(InstrModel::SetProps(syms(rest)))
                } else {
                    None
                }
            } else if cmd == "init"@ {
                if l.len() >= 2 && all_nums(rest) {
                    Some(InstrModel::SetInit(nums(rest)))
                } else {
                    None
                }
            } else if cmd == "actions"@ {
                if l.len() >= 2 && all_syms(rest) {
                    Some(InstrModel::SetActions(syms(rest)))
                } else {
                    None
                }
            } else if cmd == "trans"@ {
                if l.len() == 4 && l[1] is Num && l[2] is Sym && l[3] is Num {
                    Some(InstrModel::Trans(l[1]->Num_0, l[2]->Sym_0, l[3]->Num_0))
                } else {
                    None
                }
            } else if cmd == "loop"@ {
                if l.len() == 3 && l[1] is Num && l[2] is Sym {
                    Some(InstrModel::Loop(l[1]->Num_0, l[2]->Sym_0))
                } else {
                    None
                }
            } else if cmd == "spec"@ {
                if l.len() == 2 && formula_of(l[1]) is Some {
                    Some(InstrModel::SetSpec(formula_of(l[1])->0))
                } else {
                    None
                }
            } else {
                None
            }
        },
        _ => None,
    }
}

/// The instructions a text stands for, if it is a sequence of S-expressions
/// that all stand for instructions.
pub open spec fn prog_of(s: Seq<char>) -> Option<Seq<InstrModel>> {
    match parse_all_spec(s) {
        Some(items) => if forall|i: int| 0 <= i < items.len() ==> (#[trigger] instr_of(items[i])) is Some {
            Some(Seq::new(items.len(), |i: int| instr_of(items[i])->0))
        } else {
            None
        },
        None => None,
    }
}

impl Instr {
    /// The remaining elements, which must be one or more symbols.
    fn expect_symb_list(buff: &mut Buff<Sexpr>) -> (r: Option<Vec<String>>)
        requires
            old(buff).wf(),
        ensures
            ({
                let rest = views(old(buff).data()).subrange(old(buff).pos(), old(buff).data().len() as int);
                &&& r is Some == (rest.len() > 0 && all_syms(rest))
                &&& r matches Some(v) ==> names(v@) == syms(rest)
            }),
    {
        let ghost l = views(buff.data());
        let ghost first = buff.pos();
        proof {
            buff.lemma_pos_in_range();
        }
        if buff.is_empty() {
            return None;
        }
        let mut v: Vec<String> = Vec::new();
        while !buff.is_empty()
            invariant
                buff.wf(),
                views(buff.data()) == l,
                l.len() == buff.data().len(),
                0 <= first <= buff.pos() <= l.len(),
                first == old(buff).pos(),
                buff.data() == old(buff).data(),
                v@.len() == buff.pos() - first,
                all_syms(l.subrange(first, buff.pos())),
                forall|i: int| 0 <= i < v@.len() ==> #[trigger] v@[i]@ == l[first + i]->Sym_0,
            decreases l.len() - buff.pos(),
        {
            proof {
                buff.lemma_pos_in_range();
            }
            let ghost k = buff.pos();
            let x = buff.next().unwrap();
            proof {
                lemma_view_kind(x);
            }
            if !x.is_symb() {
                assert(!(l.subrange(first, l.len() as int)[k - first] is Sym));
                return None;
            }
            let s = x.get_symb();
            v.push(s);
            assert(all_syms(l.subrange(first, buff.pos()))) by {
                assert forall|i: int| 0 <= i < buff.pos() - first implies (#[trigger] l.subrange(first, buff.pos())[i]) is Sym by {
                    if i < k - first {
                        assert(l.subrange(first, k)[i] == l.subrange(first, buff.pos())[i]);
                    }
                }
            }
        }
        assert(names(v@) =~= syms(l.subrange(first, l.len() as int)));
        Some(v)
    }

    /// The remaining elements, which must be one or more numbers.
    fn expect_num_list(buff: &mut Buff<Sexpr>) -> (r: Option<Vec<u32>>)
        requires
            old(buff).wf(),
        ensures
            ({
                let rest = views(old(buff).data()).subrange(old(buff).pos(), old(buff).data().len() as int);
                &&& r is Some == (rest.len() > 0 && all_nums(rest))
                &&& r matches Some(v) ==> v@ == nums(rest)
            }),
    {
        let ghost l = views(buff.data());
        let ghost first = buff.pos();
        proof {
            buff.lemma_pos_in_range();
        }
        if buff.is_empty() {
            return None;
        }
        let mut v: Vec<u32> = Vec::new();
        while !buff.is_empty()
            invariant
                buff.wf(),
                views(buff.data()) == l,
                l.len() == buff.data().len(),
                0 <= first <= buff.pos() <= l.len(),
                first == old(buff).pos(),
                buff.data() == old(buff).data(),
                v@.len() == buff.pos() - first,
                all_nums(l.subrange(first, buff.pos())),
                forall|i: int| 0 <= i < v@.len() ==> #[trigger] v@[i] == l[first + i]->Num_0,
            decreases l.len() - buff.pos(),
        {
            proof {
                buff.lemma_pos_in_range();
            }
            let ghost k = buff.pos();
            let x = buff.next().unwrap();
            proof {
                lemma_view_kind(x);
            }
            if !x.is_num() {
                assert(!(l.subrange(first, l.len() as int)[k - first] is Num));
                return None;
            }
            let n = x.get_num();
            v.push(n);
            assert(all_nums(l.subrange(first, buff.pos()))) by {
                assert forall|i: int| 0 <= i < buff.pos() - first implies (#[trigger] l.subrange(first, buff.pos())[i]) is Num by {
                    if i < k - first {
                        assert(l.subrange(first, k)[i] == l.subrange(first, buff.pos())[i]);
                    }
                }
            }
        }
        assert(v@ =~= nums(l.subrange(first, l.len() as int)));
        Some(v)
    }

    /// Reads the next element as a number.
    fn expect_num(buff: &mut Buff<Sexpr>) -> (r: Option<u32>)
        requires
            old(buff).wf(),
        ensures
            final(buff).wf(),
            final(buff).data() == old(buff).data(),
            final(buff).pos() == old(buff).pos() + 1 || r is None,
            r is Some == (old(buff).pos() < old(buff).data().len() && old(buff).data()[old(buff).pos()]@ is Num),
            r matches Some(n) ==> n == old(buff).data()[old(buff).pos()]@->Num_0,
    {
        let x = buff.next()?;
        proof {
            lemma_view_kind(x);
        }
        if x.is_num() {
            Some(x.get_num())
        } else {
            None
        }
    }

    /// Reads the next element as a symbol.
    fn expect_sym(buff: &mut Buff<Sexpr>) -> (r: Option<String>)
        requires
            old(buff).wf(),
        ensures
            final(buff).wf(),
            final(buff).data() == old(buff).data(),
            final(buff).pos() == old(buff).pos() + 1 || r is None,
            r is Some == (old(buff).pos() < old(buff).data().len() && old(buff).data()[old(buff).pos()]@ is Sym),
            r matches Some(s) ==> s@ == old(buff).data()[old(buff).pos()]@->Sym_0,
    {
        let x = buff.next()?;
        proof {
            lemma_view_kind(x);
        }
        if x.is_symb() {
            Some(x.get_symb())
        } else {
            None
        }
    }

    /// The instruction an S-expression stands for, if any.
    pub fn from_sexpr(s: Sexpr) -> (r: Option<Instr>)
        ensures
            r is Some == instr_of(s@) is Some,
            r matches Some(i) ==> i@ == instr_of(s@)->0,
    {
        proof {
            lemma_view_kind(s);
        }
        let ghost g = s;
        let list = match s {
            Sexpr::List(list) => list,
            _ => {
                return None;
            },
        };
        proof {
            lemma_list_view(g, list);
        }
        let ghost l = views(list@);
        let mut buff = Buff::new(list);
        let cmd = Self::expect_sym(&mut buff)?;
        assert(l.subrange(1, l.len() as int) == views(buff.data()).subrange(buff.pos(), buff.data().len() as int));
        if is_word(&cmd, "label") {
            let n = Self::expect_num(&mut buff)?;
            assert(l.subrange(2, l.len() as int) == views(buff.data()).subrange(buff.pos(), buff.data().len() as int));
            let ps = Self::expect_symb_list(&mut buff)?;
            Some(Instr::Label(n, ps))
        } else if is_word(&cmd, "props") {
            let ps = Self::expect_symb_list(&mut buff)?;
            Some(Instr::SetProps(ps))
        } else if is_word(&cmd, "init") {
            let ss = Self::expect_num_list(&mut buff)?;
            Some(Instr::SetInit(ss))
        } else if is_word(&cmd, "actions") {
            let acts = Self::expect_symb_list(&mut buff)?;
            Some(Instr::SetActions(acts))
        } else if is_word(&cmd, "trans") {
            let s1 = Self::expect_num(&mut buff)?;
            let a = Self::expect_sym(&mut buff)?;
            let s2 = Self::expect_num(&mut buff)?;
            buff.expect_end()?;
            Some(Instr::Trans(s1, a, s2))
        } else if is_word(&cmd, "loop") {
            let s1 = Self::expect_num(&mut buff)?;
            let a = Self::expect_sym(&mut buff)?;
            buff.expect_end()?;
            Some(Instr::Loop(s1, a))
        } else if is_word(&cmd, "spec") {
            let f = buff.next()?;
            buff.expect_end()?;
            let m = Mu::from_sexpr(f)?;
            Some(Instr::SetSpec(m))
        } else {
            None
        }
    }

    /// Reads one instruction after optional whitespace.
    pub fn parse(buff: &mut Buff<char>) -> (r: Option<Self>)
        requires
            old(buff).wf(),
        ensures
            final(buff).wf(),
            final(buff).data() == old(buff).data(),
            final(buff).stack() == old(buff).stack(),
            r is Some == (crate::sexpr::sexpr_at(old(buff).data(), old(buff).pos()) matches Some((x, _))
                && instr_of(x) is Some),
            r matches Some(i) ==> i@ == instr_of((crate::sexpr::sexpr_at(old(buff).data(), old(buff).pos())->0).0)->0,
    {
        let x = Sexpr::parse(buff)?;
        Self::from_sexpr(x)
    }
}

/// A program: instructions to run in order.
#[derive(Debug, PartialEq, Eq)]
pub struct Prog {
    pub instructions: Vec<Instr>,
}

/// The views of a list of instructions.
pub open spec fn instr_views(v: Seq<Instr>) -> Seq<InstrModel> {
    Seq::new(v.len(), |i: int| v[i]@)
}

/// The characters of `s`, one by one.
fn chars_of(s: &str) -> (r: Vec<char>)
    ensures
        r@ == s@,
{
    let mut v: Vec<char> = Vec::new();
    for c in it: s.chars()
        invariant
            it.seq() == s@,
            v@ == it.seq().take(it.index() as int),
    {
        v.push(c);
        assert(it.seq().take(it.index() + 1 as int) == it.seq().take(it.index() as int).push(c));
    }
    v
}

impl Prog {
    /// Reads a program: S-expressions up to the end of the text, each of
    /// them an instruction.
    pub fn parse_text(text: &str) -> (r: Result<Prog, String>)
        ensures
            r is Ok == prog_of(text@) is Some,
            r matches Ok(p) ==> instr_views(p.instructions@) == prog_of(text@)->0,
    {
        let chars = chars_of(text);
        let mut buff = Buff::new(chars);
        let items = match Sexpr::parse_all(&mut buff) {
            Some(items) => items,
            None => {
                return Err("Prog: parse error".to_owned());
            },
        };
        let ghost l = views(items@);
        let mut instructions: Vec<Instr> = Vec::new();
        let mut i: usize = 0;
        while i < items.len()
            invariant
                l == views(items@),
                parse_all_spec(text@) == Some(l),
                i <= items@.len(),
                instructions@.len() == i,
                forall|j: int| 0 <= j < i ==> instr_of(l[j]) is Some,
                forall|j: int| 0 <= j < i ==> (#[trigger] instructions@[j])@ == instr_of(l[j])->0,
            decreases items@.len() - i,
        {
            let x = items[i].dup();
            match Instr::from_sexpr(x) {
                Some(ins) => {
                    instructions.push(ins);
                },
                None => {
                    assert(!(instr_of(l[i as int]) is Some));
                    return Err("Prog: parse error".to_owned());
                },
            }
            i = i + 1;
        }
        let p = Prog { instructions };
        assert(instr_views(p.instructions@) =~= prog_of(text@)->0);
        Ok(p)
    }
}

/// What running instructions has built so far: declared propositions and
/// actions, states, initial states, labels, successors and formulas.
pub struct EnvModel {
    pub props: Set<Seq<char>>,
    pub actions: Set<Seq<char>>,
    pub states: Set<u32>,
    pub initial: Set<u32>,
    pub label: Map<u32, Set<Seq<char>>>,
    pub succ: Map<u32, Map<Seq<char>, u32>>,
    pub specs: Seq<Formula<Seq<char>, Seq<char>>>,
}

/// Nothing declared yet.
pub open spec fn empty_env() -> EnvModel {
    EnvModel {
        props: Set::empty(),
        actions: Set::empty(),
        states: Set::empty(),
        initial: Set::empty(),
        label: Map::empty(),
        succ: Map::empty(),
        specs: Seq::empty(),
    }
}

/// Adds the transition `s1 -a-> s2`; `None` if `a` is undeclared or `s1`
/// already has an `a`-transition.
pub open spec fn add_trans(e: EnvModel, s1: u32, a: Seq<char>, s2: u32) -> Option<EnvModel> {
    if !e.actions.contains(a) || (e.succ.dom().contains(s1) && e.succ[s1].dom().contains(a)) {
        None
    } else {
        let post = if e.succ.dom().contains(s1) {
            e.succ[s1]
        } else {
            Map::empty()
        };
        Some(
            EnvModel {
                props: e.props,
                actions: e.actions,
                states: e.states.insert(s1).insert(s2),
                initial: e.initial,
                label: e.label,
                succ: e.succ.insert(s1, post.insert(a, s2)),
                specs: e.specs,
            },
        )
    }
}

/// The effect of one instruction; `None` if the instruction is ill-formed
/// where it stands.
pub open spec fn step(e: EnvModel, i: InstrModel) -> Option<EnvModel> {
    match i {
        InstrModel::SetProps(ps) => if e.props == Set::<Seq<char>>::empty() {
            Some(
                EnvModel {
                    props: ps.to_set(),
                    actions: e.actions,
                    states: e.states,
                    initial: e.initial,
                    label: e.label,
                    succ: e.succ,
                    specs: e.specs,
                },
            )
        } else {
            None
        },
        InstrModel::SetActions(acts) => if e.actions == Set::<Seq<char>>::empty() {
            Some(
                EnvModel {
                    props: e.props,
                    actions: acts.to_set(),
                    states: e.states,
                    initial: e.initial,
                    label: e.label,
                    succ: e.succ,
                    specs: e.specs,
                },
            )
        } else {
            None
        },
        InstrModel::SetInit(ss) => if e.initial == Set::<u32>::empty() {
            Some(
                EnvModel {
                    props: e.props,
                    actions: e.actions,
                    states: e.states.union(ss.to_set()),
                    initial: ss.to_set(),
                    label: e.label,
                    succ: e.succ,
                    specs: e.specs,
                },
            )
        } else {
            None
        },
        InstrModel::SetSpec(f) => Some(
            EnvModel {
                props: e.props,
                actions: e.actions,
                states: e.states,
                initial: e.initial,
                label: e.label,
                succ: e.succ,
                specs: e.specs.push(f),
            },
        ),
        InstrModel::Label(s, ps) => if !ps.to_set().subset_of(e.props) || e.label.dom().contains(s) {
            None
        } else {
            Some(
                EnvModel {
                    props: e.props,
                    actions: e.actions,
                    states: e.states.insert(s),
                    initial: e.initial,
                    label: e.label.insert(s, ps.to_set()),
                    succ: e.succ,
                    specs: e.specs,
                },
            )
        },
        InstrModel::Trans(s1, a, s2) => add_trans(e, s1, a, s2),
        InstrModel::Loop(s, a) => add_trans(e, s, a, s),
    }
}

/// Runs instructions in order from `e`, stopping at the first ill-formed one.
pub open spec fn run_from(e: EnvModel, is: Seq<InstrModel>) -> Option<EnvModel>
    decreases is.len(),
{
    if is.len() == 0 {
        Some(e)
    } else {
        match step(e, is[0]) {
            Some(e2) => run_from(e2, is.drop_first()),
            None => None,
        }
    }
}

/// The transition system that a finished run describes.
pub open spec fn lts_of(e: EnvModel) -> Lts<Seq<char>, Seq<char>> {
    Lts { states: e.states, initial: e.initial, label: e.label, succ: e.succ }
}

/// The environment in which a program's instructions run.
pub struct ProgEnv {
    props: Vec<String>,
    actions: Vec<String>,
    states: Vec<u32>,
    spec: Vec<Mu<String, String>>,
    initial: Vec<u32>,
    labels: Vec<(u32, Vec<String>)>,
    transitions: Vec<(u32, Vec<(String, u32)>)>,
}

impl View for ProgEnv {
    type V = EnvModel;

    closed spec fn view(&self) -> EnvModel {
        EnvModel {
            props: prop_set(self.props@),
            actions: prop_set(self.actions@),
            states: self.states@.to_set(),
            initial: self.initial@.to_set(),
            label: label_map(self.labels@),
            succ: succ_map(self.transitions@),
            specs: formula_views(self.spec@),
        }
    }
}

proof fn lemma_prop_set_names(v: Seq<String>)
    ensures
        prop_set(v) == names(v).to_set(),
{
    assert forall|p: Seq<char>| names(v).to_set().contains(p) implies prop_set(v).contains(p) by {
        let j = choose|j: int| 0 <= j < names(v).len() && names(v)[j] == p;
        assert(v[j]@ == p);
    }
    assert forall|p: Seq<char>| prop_set(v).contains(p) implies names(v).to_set().contains(p) by {
        let j = choose|j: int| 0 <= j < v.len() && v[j]@ == p;
        assert(names(v)[j] == p);
    }
    assert(prop_set(v) =~= names(v).to_set());
}

impl ProgEnv {
    /// Nothing declared yet.
    pub fn new() -> (r: Self)
        ensures
            r@ == empty_env(),
    {
        let r = ProgEnv {
            props: Vec::new(),
            actions: Vec::new(),
            states: Vec::new(),
            spec: Vec::new(),
            initial: Vec::new(),
            labels: Vec::new(),
            transitions: Vec::new(),
        };
        assert(r@.props =~= Set::<Seq<char>>::empty());
        assert(r@.actions =~= Set::<Seq<char>>::empty());
        assert(r@.states =~= Set::<u32>::empty());
        assert(r@.initial =~= Set::<u32>::empty());
        assert(r@.label =~= Map::<u32, Set<Seq<char>>>::empty());
        assert(r@.succ =~= Map::<u32, Map<Seq<char>, u32>>::empty());
        assert(r@.specs =~= Seq::<Formula<Seq<char>, Seq<char>>>::empty());
        r
    }

    fn add_trans(&mut self, s1: u32, a: String, s2: u32) -> (r: Result<(), String>)
        ensures
            r is Ok == add_trans(old(self)@, s1, a@, s2) is Some,
            r is Ok ==> final(self)@ == add_trans(old(self)@, s1, a@, s2)->0,
            r is Err ==> final(self)@ == old(self)@,
    {
        if !contains_token(&self.actions, &a) {
            let mut msg = String::new();
            push_str(&mut msg, "Ill-formed program: use of undeclared action ");
            push_str(&mut msg, a.as_str());
            return Err(msg);
        }
        let ghost old_view = self@;
        match key_pos(&self.transitions, s1) {
            Some(i) => {
                if find_act(&self.transitions[i].1, &a).is_some() {
                    let mut msg = String::new();
                    push_str(&mut msg, "Ill-formed program: the ");
                    push_str(&mut msg, a.as_str());
                    push_str(&mut msg, "-transition for states ");
                    push_decimal(&mut msg, s1);
                    push_str(&mut msg, " is declared twice");
                    return Err(msg);
                }
                let old_post = &self.transitions[i].1;
                let mut post: Vec<(String, u32)> = Vec::new();
                let mut j: usize = 0;
                while j < old_post.len()
                    invariant
                        j <= old_post@.len(),
                        post@.len() == j,
                        forall|k: int| 0 <= k < j ==> (#[trigger] post@[k]).0@ == old_post@[k].0@ && post@[k].1 == old_post@[k].1,
                    decreases old_post@.len() - j,
                {
                    post.push((old_post[j].0.clone(), old_post[j].1));
                    j = j + 1;
                }
                proof {
                    assert(act_map(post@) =~= act_map(old_post@)) by {
                        assert forall|b: Seq<char>|
                            crate::ts::act_index(post@, b) == crate::ts::act_index(old_post@, b) && (
                            crate::ts::act_index(post@, b) >= 0 ==> post@[crate::ts::act_index(post@, b)].1
                                == old_post@[crate::ts::act_index(old_post@, b)].1) by {
                            lemma_act_index_same(post@, old_post@, b);
                        }
                    }
                    lemma_act_map_push(post@, a, s2);
                }
                post.push((a, s2));
                proof {
                    lemma_succ_map_update(self.transitions@, s1, post);
                }
                self.transitions.set(i, (s1, post));
            },
            None => {
                let mut post: Vec<(String, u32)> = Vec::new();
                proof {
                    lemma_act_map_push(post@, a, s2);
                    assert(act_map(post@) =~= Map::<Seq<char>, u32>::empty());
                }
                post.push((a, s2));
                proof {
                    lemma_succ_map_push(self.transitions@, s1, post);
                }
                self.transitions.push((s1, post));
            },
        }
        proof {
            lemma_push_to_set(self.states@, s1);
            lemma_push_to_set(self.states@.push(s1), s2);
        }
        self.states.push(s1);
        self.states.push(s2);
        Ok(())
    }

    /// Runs one instruction: `Err` with a message if it is ill-formed where
    /// it stands, and then the environment is left as it was.
    pub fn exec(&mut self, instr: Instr) -> (r: Result<(), String>)
        ensures
            r is Ok == step(old(self)@, instr@) is Some,
            r is Ok ==> final(self)@ == step(old(self)@, instr@)->0,
            r is Err ==> final(self)@ == old(self)@,
    {
        let ghost old_view = self@;
        let ghost iv = instr@;
        match instr {
            Instr::SetProps(props) => {
                if self.props.len() == 0 {
                    proof {
                        lemma_prop_set_names(props@);
                        assert(prop_set(self.props@) =~= Set::<Seq<char>>::empty());
                    }
                    self.props = props;
                    assert(self@.props == names(props@).to_set());
                    assert(self@ == step(old_view, iv)->0);
                    Ok(())
                } else {
                    assert(prop_set(self.props@).contains(self.props@[0]@));
                    Err("Ill-formed program: the proposition set is declared twice".to_owned())
                }
            },
            Instr::SetActions(actions) => {
                if self.actions.len() == 0 {
                    proof {
                        lemma_prop_set_names(actions@);
                        assert(prop_set(self.actions@) =~= Set::<Seq<char>>::empty());
                    }
                    self.actions = actions;
                    assert(self@ == step(old_view, iv)->0);
                    Ok(())
                } else {
                    assert(prop_set(self.actions@).contains(self.actions@[0]@));
                    Err("Ill-formed program: the action set is declared twice".to_owned())
                }
            },
            Instr::SetInit(initial) => {
                if self.initial.len() == 0 {
                    proof {
                        assert(self.initial@.to_set() =~= Set::<u32>::empty());
                        vstd::seq_lib::seq_to_set_distributes_over_add(self.states@, initial@);
                    }
                    let mut j: usize = 0;
                    let ghost st0 = self.states@;
                    while j < initial.len()
                        invariant
                            j <= initial@.len(),
                            self.states@ == st0 + initial@.subrange(0, j as int),
                            self.props == old(self).props,
                            self.actions == old(self).actions,
                            self.initial == old(self).initial,
                            self.labels == old(self).labels,
                            self.transitions == old(self).transitions,
                            self.spec == old(self).spec,
                        decreases initial@.len() - j,
                    {
                        self.states.push(initial[j]);
                        assert(st0 + initial@.subrange(0, j + 1) == (st0 + initial@.subrange(0, j as int)).push(initial@[j as int]));
                        j = j + 1;
                    }
                    assert(initial@.subrange(0, initial@.len() as int) == initial@);
                    self.initial = initial;
                    assert(self@.states == old_view.states.union(initial@.to_set()));
                    assert(self@.initial == initial@.to_set());
                    assert(self@ == step(old_view, iv)->0);
                    Ok(())
                } else {
                    assert(self.initial@.to_set().contains(self.initial@[0]));
                    Err("Ill-formed program: the initial states are declared twice".to_owned())
                }
            },
            Instr::SetSpec(f) => {
                self.spec.push(f);
                assert(formula_views(self.spec@) =~= old_view.specs.push(f@));
                Ok(())
            },
            Instr::Label(s, label) => {
                let mut j: usize = 0;
                while j < label.len()
                    invariant
                        j <= label@.len(),
                        self@ == old(self)@,
                        instr@ == InstrModel::Label(s, names(label@)),
                        forall|k: int| 0 <= k < j ==> #[trigger] prop_set(self.props@).contains(label@[k]@),
                    decreases label@.len() - j,
                {
                    if !contains_token(&self.props, &label[j]) {
                        proof {
                            lemma_prop_set_names(label@);
                            assert(names(label@).to_set().contains(label@[j as int]@));
                        }
                        let mut msg = String::new();
                        push_str(&mut msg, "Ill-formed program: use of undeclared proposition ");
                        push_str(&mut msg, label[j].as_str());
                        return Err(msg);
                    }
                    j = j + 1;
                }
                proof {
                    lemma_prop_set_names(label@);
                }
                if key_pos(&self.labels, s).is_some() {
                    let mut msg = String::new();
                    push_str(&mut msg, "Ill-formed program: the label for states ");
                    push_decimal(&mut msg, s);
                    push_str(&mut msg, " is declared twice");
                    return Err(msg);
                }
                proof {
                    lemma_label_map_push(self.labels@, s, label);
                    lemma_push_to_set(self.states@, s);
                }
                self.labels.push((s, label));
                self.states.push(s);
                assert(self@ == step(old_view, iv)->0);
                Ok(())
            },
            Instr::Trans(s1, a, s2) => self.add_trans(s1, a, s2),
            Instr::Loop(s, a) => self.add_trans(s, a, s),
        }
    }
}

proof fn lemma_push_to_set(s: Seq<u32>, x: u32)
    ensures
        s.push(x).to_set() == s.to_set().insert(x),
{
    let t = s.push(x);
    assert forall|y: u32| t.to_set().contains(y) implies s.to_set().insert(x).contains(y) by {
        let j = choose|j: int| 0 <= j < t.len() && t[j] == y;
        if j < s.len() {
            assert(s[j] == y);
        }
    }
    assert forall|y: u32| s.to_set().insert(x).contains(y) implies t.to_set().contains(y) by {
        if y == x {
            assert(t[s.len() as int] == y);
        } else {
            let j = choose|j: int| 0 <= j < s.len() && s[j] == y;
            assert(t[j] == y);
        }
    }
    assert(t.to_set() =~= s.to_set().insert(x));
}

proof fn lemma_act_index_same(p1: Seq<(String, u32)>, p2: Seq<(String, u32)>, b: Seq<char>)
    requires
        p1.len() == p2.len(),
        forall|k: int| 0 <= k < p1.len() ==> (#[trigger] p1[k]).0@ == p2[k].0@ && p1[k].1 == p2[k].1,
    ensures
        crate::ts::act_index(p1, b) == crate::ts::act_index(p2, b),
        crate::ts::act_index(p1, b) >= 0 ==> p1[crate::ts::act_index(p1, b)].1 == p2[crate::ts::act_index(p2, b)].1,
    decreases p1.len(),
{
    if p1.len() > 0 {
        let (d1, d2) = (p1.drop_last(), p2.drop_last());
        assert forall|k: int| 0 <= k < d1.len() implies (#[trigger] d1[k]).0@ == d2[k].0@ && d1[k].1 == d2[k].1 by {
            assert(d1[k] == p1[k] && d2[k] == p2[k]);
        }
        lemma_act_index_same(d1, d2, b);
        crate::ts::lemma_act_index(d1, b);
    }
}

impl Prog {
    /// Runs the instructions in order from an empty environment and builds
    /// the transition system they describe; `Err` with a message at the
    /// first ill-formed instruction.
    pub fn compile(self) -> (r: Result<Ts<String, String>, String>)
        ensures
            r is Ok == run_from(empty_env(), instr_views(self.instructions@)) is Some,
            r matches Ok(ts) ==> {
                let e = run_from(empty_env(), instr_views(self.instructions@))->0;
                &&& ts.wf()
                &&& ts@ == lts_of(e)
                &&& ts.specs() == e.specs
            },
    {
        let mut env = ProgEnv::new();
        let mut instructions = self.instructions;
        let ghost all = instr_views(instructions@);
        let ghost done: int = 0;
        assert(all.subrange(0, all.len() as int) == all);
        while instructions.len() > 0
            invariant
                0 <= done <= all.len(),
                all == instr_views(self.instructions@),
                instr_views(instructions@) == all.subrange(done, all.len() as int),
                run_from(empty_env(), all) == run_from(env@, all.subrange(done, all.len() as int)),
            decreases instructions@.len(),
        {
            let instr = instructions.remove(0);
            let ghost rest = all.subrange(done, all.len() as int);
            assert(rest[0] == instr@);
            assert(rest.drop_first() == all.subrange(done + 1, all.len() as int));
            assert(instr_views(instructions@) =~= all.subrange(done + 1, all.len() as int));
            let ghost before = env@;
            match env.exec(instr) {
                Ok(()) => {},
                Err(msg) => {
                    assert(run_from(before, rest) is None);
                    return Err(msg);
                },
            }
            proof {
                done = done + 1;
            }
        }
        assert(all.subrange(done, all.len() as int).len() == 0);
        let ts = Ts::new(env.states, env.initial, env.labels, env.transitions, env.spec);
        Ok(ts)
    }
}

impl core::str::FromStr for Prog {
    type Err = String;

    fn from_str(s: &str) -> Result<Prog, String> {
        Prog::parse_text(s)
    }
}

} // verus!

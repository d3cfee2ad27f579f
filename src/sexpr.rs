use vstd::prelude::*;

use crate::buff::{lemma_skip_ws, number_at, skip_ws, symbol_at, Buff};
use crate::token::{decimal, is_digit, is_ws, push_decimal, push_str, Token};

verus! {

/// An S-expression: a symbol, a number or a list.
#[derive(PartialEq, Eq, Debug)]
pub enum Sexpr {
    Sym(String),
    Num(u32),
    List(Vec<Sexpr>),
}

/// The mathematical value of an S-expression.
pub enum SexprModel {
    Sym(Seq<char>),
    Num(u32),
    List(Seq<SexprModel>),
}

impl View for Sexpr {
    type V = SexprModel;

    open spec fn view(&self) -> SexprModel
        decreases self,
    {
        match self {
            Sexpr::Sym(s) => SexprModel::Sym(s@),
            Sexpr::Num(n) => SexprModel::Num(*n),
            Sexpr::List(l) => {
                let v: Seq<Sexpr> = (*l)@;
                SexprModel::List(
                    Seq::new(
                        v.len(),
                        |i: int|
                            if 0 <= i < v.len() {
                                v[i].view()
                            } else {
                                SexprModel::Num(0)
                            },
                    ),
                )
            },
        }
    }
}

/// The views of a sequence of S-expressions.
pub open spec fn views(l: Seq<Sexpr>) -> Seq<SexprModel> {
    Seq::new(l.len(), |i: int| l[i]@)
}

/// One S-expression, after optional whitespace, starting at `p`: the value
/// and the position after it.
pub open spec fn sexpr_at(s: Seq<char>, p: int) -> Option<(SexprModel, int)>
    decreases s.len() - p, 1int,
{
    if p < 0 || p >= s.len() {
        None
    } else if is_ws(s[p]) {
        sexpr_at(s, p + 1)
    } else if is_digit(s[p]) {
        match number_at(s, p) {
            Some((n, e)) => Some((SexprModel::Num(n), e)),
            None => None,
        }
    } else if s[p] == '(' {
        let (items, q) = items_at(s, p + 1);
        let r = skip_ws(s, q);
        if 0 <= r < s.len() && s[r] == ')' {
            Some((SexprModel::List(items), r + 1))
        } else {
            None
        }
    } else {
        match symbol_at(s, p) {
            Some((x, e)) => Some((SexprModel::Sym(x), e)),
            None => None,
        }
    }
}

/// S-expressions read one after another from `p` for as long as one can be
/// read: the values and the position after the last of them.
pub open spec fn items_at(s: Seq<char>, p: int) -> (Seq<SexprModel>, int)
    decreases s.len() - p, 2int,
{
    if p < 0 || p > s.len() {
        (Seq::empty(), p)
    } else {
        match sexpr_at(s, p) {
            Some((x, q)) => if p < q <= s.len() {
                let (rest, r) = items_at(s, q);
                (seq![x] + rest, r)
            } else {
                (Seq::empty(), p)
            },
            None => (Seq::empty(), p),
        }
    }
}

/// The text from `p` on as a sequence of S-expressions, with nothing but
/// whitespace after the last one.
pub open spec fn parse_all_from(s: Seq<char>, p: int) -> Option<Seq<SexprModel>> {
    let (items, q) = items_at(s, p);
    if skip_ws(s, q) == s.len() {
        Some(items)
    } else {
        None
    }
}

/// The whole text as a sequence of S-expressions.
pub open spec fn parse_all_spec(s: Seq<char>) -> Option<Seq<SexprModel>> {
    parse_all_from(s, 0)
}

/// The text of an S-expression: a symbol, a number in decimal, or the
/// elements of a list between parentheses, separated by `, `.
pub open spec fn sexpr_text(x: SexprModel) -> Seq<char>
    decreases x, 1int, 0int,
{
    match x {
        SexprModel::Sym(s) => s,
        SexprModel::Num(n) => decimal(n as nat),
        SexprModel::List(l) => seq!['('] + items_text(x, l.len() as int) + seq![')'],
    }
}

/// The texts of the first `n` elements of the list `x`, separated by `, `.
pub open spec fn items_text(x: SexprModel, n: int) -> Seq<char>
    decreases x, 0int, n,
{
    match x {
        SexprModel::List(l) => if n <= 0 || n > l.len() {
            Seq::empty()
        } else if n == 1 {
            sexpr_text(l[0])
        } else {
            items_text(x, n - 1) + seq![',', ' '] + sexpr_text(l[n - 1])
        },
        _ => Seq::empty(),
    }
}

/// The view of a list is the list of the views of its elements.
pub proof fn lemma_list_view(l: Sexpr, items: Vec<Sexpr>)
    requires
        l == Sexpr::List(items),
    ensures
        l@ == SexprModel::List(views(items@)),
{
    reveal_with_fuel(<Sexpr as View>::view, 2);
    assert(l@->List_0 =~= views(items@));
}

/// The view of an S-expression has the same form, with the same symbol or
/// number.
pub proof fn lemma_view_kind(x: Sexpr)
    ensures
        (x@ is Sym) == (x is Sym),
        (x@ is Num) == (x is Num),
        (x@ is List) == (x is List),
        x is Sym ==> x@->Sym_0 == x->Sym_0@,
        x is Num ==> x@->Num_0 == x->Num_0,
{
    reveal_with_fuel(<Sexpr as View>::view, 2);
}

/// Reading an S-expression consumes at least one character.
pub proof fn lemma_sexpr_at_advances(s: Seq<char>, p: int)
    ensures
        sexpr_at(s, p) matches Some((_, e)) ==> p < e <= s.len(),
    decreases s.len() - p, 1int,
{
    if 0 <= p < s.len() {
        if is_ws(s[p]) {
            lemma_sexpr_at_advances(s, p + 1);
        } else if is_digit(s[p]) {
            crate::buff::lemma_digit_end(s, p);
        } else if s[p] == '(' {
            lemma_items_at_bounds(s, p + 1);
            lemma_skip_ws(s, items_at(s, p + 1).1);
        } else {
            lemma_skip_ws(s, p);
            crate::buff::lemma_alnum_end(s, p);
        }
    }
}

pub proof fn lemma_items_at_bounds(s: Seq<char>, p: int)
    requires
        0 <= p <= s.len(),
    ensures
        p <= items_at(s, p).1 <= s.len(),
    decreases s.len() - p, 2int,
{
    lemma_sexpr_at_advances(s, p);
    if let Some((_, q)) = sexpr_at(s, p) {
        if p < q <= s.len() {
            lemma_items_at_bounds(s, q);
        }
    }
}

/// Leading whitespace does not change what is read.
pub proof fn lemma_sexpr_at_skip(s: Seq<char>, p: int)
    requires
        0 <= p <= s.len(),
    ensures
        sexpr_at(s, p) == sexpr_at(s, skip_ws(s, p)),
    decreases s.len() - p,
{
    if p < s.len() && is_ws(s[p]) {
        lemma_sexpr_at_skip(s, p + 1);
    }
}

impl Token for Sexpr {
    fn same(&self, other: &Sexpr) -> (r: bool)
        decreases self,
    {
        match (self, other) {
            (Sexpr::Sym(a), Sexpr::Sym(b)) => a.same(b),
            (Sexpr::Num(a), Sexpr::Num(b)) => *a == *b,
            (Sexpr::List(a), Sexpr::List(b)) => {
                proof {
                    lemma_list_view(*self, *a);
                    lemma_list_view(*other, *b);
                }
                if a.len() != b.len() {
                    assert(views(a@).len() != views(b@).len());
                    return false;
                }
                let mut i: usize = 0;
                while i < a.len()
                    invariant
                        a@.len() == b@.len(),
                        i <= a@.len(),
                        forall|j: int| 0 <= j < i ==> #[trigger] a@[j]@ == b@[j]@,
                        self@ == SexprModel::List(views(a@)),
                        other@ == SexprModel::List(views(b@)),
                        *self == Sexpr::List(*a),
                    decreases a@.len() - i,
                {
                    assert(decreases_to!(*self => a@[i as int]));
                    if !a[i].same(&b[i]) {
                        assert(views(a@)[i as int] != views(b@)[i as int]);
                        return false;
                    }
                    i = i + 1;
                }
                assert(views(a@) =~= views(b@));
                true
            },
            _ => false,
        }
    }

    fn dup(&self) -> (r: Sexpr)
        decreases self,
    {
        match self {
            Sexpr::Sym(s) => Sexpr::Sym(s.clone()),
            Sexpr::Num(n) => Sexpr::Num(*n),
            Sexpr::List(l) => {
                proof {
                    lemma_list_view(*self, *l);
                }
                let mut v: Vec<Sexpr> = Vec::new();
                let mut i: usize = 0;
                while i < l.len()
                    invariant
                        i <= l@.len(),
                        v@.len() == i,
                        forall|j: int| 0 <= j < i ==> #[trigger] v@[j]@ == l@[j]@,
                        self@ == SexprModel::List(views(l@)),
                        *self == Sexpr::List(*l),
                    decreases l@.len() - i,
                {
                    assert(decreases_to!(*self => l@[i as int]));
                    v.push(l[i].dup());
                    i = i + 1;
                }
                let r = Sexpr::List(v);
                proof {
                    lemma_list_view(r, v);
                    lemma_list_view(*self, *l);
                    assert(views(v@) =~= views(l@));
                }
                r
            },
        }
    }
}

impl Sexpr {
    pub fn is_symb(&self) -> (r: bool)
        ensures
            r == (self is Sym),
    {
        if let Sexpr::Sym(_) = self {
            true
        } else {
            false
        }
    }

    pub fn is_num(&self) -> (r: bool)
        ensures
            r == (self is Num),
    {
        if let Sexpr::Num(_) = self {
            true
        } else {
            false
        }
    }

    pub fn is_list(&self) -> (r: bool)
        ensures
            r == (self is List),
    {
        if let Sexpr::List(_) = self {
            true
        } else {
            false
        }
    }

    /// The symbol of a `Sym`.
    pub fn get_symb(self) -> (r: String)
        requires
            self is Sym,
        ensures
            r@ == self->Sym_0@,
    {
        match self {
            Sexpr::Sym(s) => s,
            _ => String::new(),
        }
    }

    /// The number of a `Num`.
    pub fn get_num(self) -> (r: u32)
        requires
            self is Num,
        ensures
            r == self->Num_0,
    {
        match self {
            Sexpr::Num(n) => n,
            _ => 0,
        }
    }

    /// The elements of a `List`.
    pub fn get_list(self) -> (r: Vec<Sexpr>)
        requires
            self is List,
        ensures
            r@ == self->List_0@,
    {
        match self {
            Sexpr::List(l) => l,
            _ => Vec::new(),
        }
    }

    /// Appends the text of the S-expression.
    pub fn write_text(&self, out: &mut String)
        ensures
            final(out)@ == old(out)@ + sexpr_text(self@),
        decreases self,
    {
        proof {
            lemma_view_kind(*self);
        }
        match self {
            Sexpr::Sym(s) => {
                push_str(out, s.as_str());
            },
            Sexpr::Num(n) => {
                push_decimal(out, *n);
            },
            Sexpr::List(l) => {
                proof {
                    lemma_list_view(*self, *l);
                }
                let ghost start = out@;
                out.push('(');
                let mut i: usize = 0;
                while i < l.len()
                    invariant
                        i <= l@.len(),
                        self@ == SexprModel::List(views(l@)),
                        *self == Sexpr::List(*l),
                        out@ == start + seq!['('] + items_text(self@, i as int),
                    decreases l@.len() - i,
                {
                    assert(decreases_to!(*self => l@[i as int]));
                    if i > 0 {
                        out.push(',');
                        out.push(' ');
                    }
                    l[i].write_text(out);
                    proof {
                        assert(views(l@)[i as int] == l@[i as int]@);
                        if i == 0 {
                            assert(items_text(self@, 1) == sexpr_text(l@[0]@));
                        }
                        assert(out@ =~= start + seq!['('] + items_text(self@, i + 1));
                    }
                    i = i + 1;
                }
                out.push(')');
                assert(out@ =~= start + sexpr_text(self@));
            },
        }
    }

    /// The text of the S-expression.
    pub fn to_text(&self) -> (r: String)
        ensures
            r@ == sexpr_text(self@),
    {
        let mut r = String::new();
        self.write_text(&mut r);
        assert(r@ =~= sexpr_text(self@));
        r
    }

    /// Reads S-expressions for as long as one can be read, and leaves the
    /// cursor after the last one that was.
    fn parse_items(buff: &mut Buff<char>) -> (r: Vec<Sexpr>)
        requires
            old(buff).wf(),
        ensures
            final(buff).wf(),
            final(buff).data() == old(buff).data(),
            final(buff).stack() == old(buff).stack(),
            views(r@) == items_at(old(buff).data(), old(buff).pos()).0,
            final(buff).pos() == items_at(old(buff).data(), old(buff).pos()).1,
        decreases old(buff).data().len() - old(buff).pos(), 2int,
    {
        let ghost s = buff.data();
        let ghost first = buff.pos();
        proof {
            buff.lemma_pos_in_range();
        }
        let mut items: Vec<Sexpr> = Vec::new();
        buff.save();
        loop
            invariant
                buff.wf(),
                buff.data() == s,
                s == old(buff).data(),
                first == old(buff).pos(),
                0 <= first <= buff.pos() <= s.len(),
                s.len() <= usize::MAX,
                buff.stack() == old(buff).stack().push(buff.pos() as usize),
                items_at(s, first) == (views(items@) + items_at(s, buff.pos()).0, items_at(
                    s,
                    buff.pos(),
                ).1),
            decreases s.len() - buff.pos(),
        {
            let ghost cur = buff.pos();
            proof {
                lemma_sexpr_at_advances(s, cur);
            }
            match Self::parse(buff) {
                Some(x) => {
                    proof {
                        let q = buff.pos();
                        assert(views(items@.push(x)) == views(items@).push(x@));
                        assert(seq![x@] + items_at(s, q).0 == items_at(s, cur).0);
                        assert(views(items@) + items_at(s, cur).0 == views(items@).push(x@)
                            + items_at(s, q).0);
                    }
                    items.push(x);
                    buff.update_save();
                },
                None => {
                    assert(items_at(s, cur) == (Seq::<SexprModel>::empty(), cur));
                    buff.restore();
                    assert(views(items@) + Seq::<SexprModel>::empty() == views(items@));
                    return items;
                },
            }
        }
    }

    /// Reads one or more S-expressions.
    pub fn parse_list(buff: &mut Buff<char>) -> (r: Option<Vec<Self>>)
        requires
            old(buff).wf(),
        ensures
            final(buff).wf(),
            final(buff).data() == old(buff).data(),
            final(buff).stack() == old(buff).stack(),
            final(buff).pos() == items_at(old(buff).data(), old(buff).pos()).1,
            r is Some == (items_at(old(buff).data(), old(buff).pos()).0.len() > 0),
            r matches Some(l) ==> views(l@) == items_at(old(buff).data(), old(buff).pos()).0,
    {
        let items = Self::parse_items(buff);
        if items.len() == 0 {
            None
        } else {
            Some(items)
        }
    }

    /// Reads one S-expression after optional whitespace.
    pub fn parse(buff: &mut Buff<char>) -> (r: Option<Self>)
        requires
            old(buff).wf(),
        ensures
            final(buff).wf(),
            final(buff).data() == old(buff).data(),
            final(buff).stack() == old(buff).stack(),
            r is Some == sexpr_at(old(buff).data(), old(buff).pos()) is Some,
            r matches Some(x) ==> x@ == (sexpr_at(old(buff).data(), old(buff).pos())->0).0
                && final(buff).pos() == (sexpr_at(old(buff).data(), old(buff).pos())->0).1,
        decreases old(buff).data().len() - old(buff).pos(), 1int,
    {
        let ghost s = buff.data();
        let ghost p = buff.pos();
        proof {
            buff.lemma_pos_in_range();
        }
        buff.trim();
        proof {
            lemma_skip_ws(s, p);
            lemma_sexpr_at_skip(s, p);
        }
        let ghost q = buff.pos();
        let c = buff.top()?;
        if '0' <= c && c <= '9' {
            assert(skip_ws(s, q) == q);
            match buff.expect_u32() {
                Some(n) => {
                    let x = Sexpr::Num(n);
                    assert(x@ == SexprModel::Num(n));
                    Some(x)
                },
                None => None,
            }
        } else if c == '(' {
            buff.pop();
            let items = Self::parse_items(buff);
            let ghost iv = items;
            proof {
                lemma_items_at_bounds(s, q + 1);
                lemma_skip_ws(s, items_at(s, q + 1).1);
            }
            buff.trim();
            buff.expect(')')?;
            let l = Sexpr::List(items);
            proof {
                lemma_list_view(l, iv);
            }
            Some(l)
        } else {
            proof {
                lemma_skip_ws(s, q);
            }
            assert(skip_ws(s, q) == q);
            match buff.expect_symb() {
                Some(x) => {
                    let y = Sexpr::Sym(x);
                    assert(y@ == SexprModel::Sym(x@));
                    Some(y)
                },
                None => None,
            }
        }
    }

    /// Reads S-expressions up to the end of the text.
    pub fn parse_all(buff: &mut Buff<char>) -> (r: Option<Vec<Self>>)
        requires
            old(buff).wf(),
        ensures
            r is Some == parse_all_from(old(buff).data(), old(buff).pos()) is Some,
            r matches Some(l) ==> views(l@) == parse_all_from(old(buff).data(), old(buff).pos())->0,
    {
        proof {
            buff.lemma_pos_in_range();
        }
        let items = Self::parse_items(buff);
        buff.trim();
        buff.expect_end()?;
        proof {
            lemma_items_at_bounds(buff.data(), old(buff).pos());
            lemma_skip_ws(buff.data(), items_at(buff.data(), old(buff).pos()).1);
        }
        Some(items)
    }
}

} // verus!

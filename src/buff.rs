use vstd::prelude::*;

use crate::token::{is_alnum, is_alpha, is_digit, is_ws, digit_value, Token};

verus! {

/// A cursor over a sequence of tokens, with a stack of saved positions for
/// backtracking.
pub struct Buff<T> {
    data: Vec<T>,
    pos: usize,
    stack: Vec<usize>,
}

impl<T> Buff<T> {
    /// The tokens.
    pub closed spec fn data(&self) -> Seq<T> {
        self.data@
    }

    /// The current position.
    pub closed spec fn pos(&self) -> int {
        self.pos as int
    }

    /// The saved positions, the most recent last.
    pub closed spec fn stack(&self) -> Seq<usize> {
        self.stack@
    }

    /// Positions stay within the data.
    pub closed spec fn wf(&self) -> bool {
        &&& self.pos <= self.data@.len()
        &&& forall|i: int| 0 <= i < self.stack@.len() ==> self.stack@[i] <= self.data@.len()
    }

    /// The position of a well-formed cursor lies within its data.
    pub proof fn lemma_pos_in_range(&self)
        requires
            self.wf(),
        ensures
            0 <= self.pos() <= self.data().len(),
            self.data().len() <= usize::MAX,
    {
        assert(self.data@.len() == self.data.len());
    }

    /// A cursor at the start of `data`, with the start saved once.
    pub fn new(data: Vec<T>) -> (r: Self)
        ensures
            r.wf(),
            r.data() == data@,
            r.pos() == 0,
            r.stack() == seq![0usize],
    {
        Buff { data, pos: 0, stack: vec![0] }
    }

    /// Pushes the current position.
    pub fn save(&mut self)
        requires
            old(self).wf(),
        ensures
            final(self).wf(),
            final(self).data() == old(self).data(),
            final(self).pos() == old(self).pos(),
            final(self).stack() == old(self).stack().push(old(self).pos() as usize),
    {
        self.stack.push(self.pos);
    }

    /// Pops the last saved position into the current position.
    pub fn restore(&mut self)
        requires
            old(self).wf(),
            old(self).stack().len() > 0,
        ensures
            final(self).wf(),
            final(self).data() == old(self).data(),
            final(self).pos() == old(self).stack().last(),
            final(self).stack() == old(self).stack().drop_last(),
    {
        self.pos = self.stack.pop().unwrap();
    }

    /// Goes back to the last saved position and keeps it saved.
    pub fn restore_save(&mut self)
        requires
            old(self).wf(),
            old(self).stack().len() > 0,
        ensures
            final(self).wf(),
            final(self).data() == old(self).data(),
            final(self).pos() == old(self).stack().last(),
            final(self).stack() == old(self).stack(),
    {
        self.restore();
        self.save();
        assert(self.stack@ =~= old(self).stack@);
    }

    /// Replaces the last saved position by the current one.
    pub fn update_save(&mut self)
        requires
            old(self).wf(),
        ensures
            final(self).wf(),
            final(self).data() == old(self).data(),
            final(self).pos() == old(self).pos(),
            old(self).stack().len() > 0 ==> final(self).stack() == old(self).stack().drop_last().push(
                old(self).pos() as usize,
            ),
            old(self).stack().len() == 0 ==> final(self).stack() == seq![old(self).pos() as usize],
    {
        self.stack.pop();
        self.stack.push(self.pos);
        assert(old(self).stack().len() == 0 ==> self.stack@ =~= seq![old(self).pos() as usize]);
    }

    /// Whether the whole sequence has been consumed.
    pub fn is_empty(&self) -> (r: bool)
        ensures
            r == (self.pos() >= self.data().len()),
    {
        self.pos >= self.data.len()
    }

    /// Steps over the current token; `None` at the end.
    pub fn pop(&mut self) -> (r: Option<()>)
        requires
            old(self).wf(),
        ensures
            final(self).wf(),
            final(self).data() == old(self).data(),
            final(self).stack() == old(self).stack(),
            r is Some == (old(self).pos() < old(self).data().len()),
            final(self).pos() == if r is Some {
                old(self).pos() + 1
            } else {
                old(self).pos()
            },
    {
        if self.pos >= self.data.len() {
            None
        } else {
            assert(self.pos < self.data@.len());
            self.pos = self.pos + 1;
            Some(())
        }
    }

    /// Succeeds exactly at the end of the sequence.
    pub fn expect_end(&self) -> (r: Option<()>)
        ensures
            r is Some == (self.pos() >= self.data().len()),
    {
        if self.is_empty() {
            Some(())
        } else {
            None
        }
    }
}

impl<T: Token> Buff<T> {
    /// A copy of the current token; `None` at the end.
    pub fn top(&self) -> (r: Option<T>)
        requires
            self.wf(),
        ensures
            r is Some == (self.pos() < self.data().len()),
            r matches Some(x) ==> x@ == self.data()[self.pos()]@,
    {
        if self.pos < self.data.len() {
            Some(self.data[self.pos].dup())
        } else {
            None
        }
    }

    /// Takes the current token: a copy of it, the cursor moved past it.
    pub fn next(&mut self) -> (r: Option<T>)
        requires
            old(self).wf(),
        ensures
            final(self).wf(),
            final(self).data() == old(self).data(),
            final(self).stack() == old(self).stack(),
            r is Some == (old(self).pos() < old(self).data().len()),
            r matches Some(x) ==> x@ == old(self).data()[old(self).pos()]@,
            final(self).pos() == if r is Some {
                old(self).pos() + 1
            } else {
                old(self).pos()
            },
    {
        let x = self.top()?;
        self.pop()?;
        Some(x)
    }

    /// Takes the current token and succeeds if it equals `x`.
    pub fn expect(&mut self, x: T) -> (r: Option<()>)
        requires
            old(self).wf(),
        ensures
            final(self).wf(),
            final(self).data() == old(self).data(),
            final(self).stack() == old(self).stack(),
            final(self).pos() == if old(self).pos() < old(self).data().len() {
                old(self).pos() + 1
            } else {
                old(self).pos()
            },
            r is Some == (old(self).pos() < old(self).data().len() && old(self).data()[old(
                self,
            ).pos()]@ == x@),
    {
        let y = self.next()?;
        if x.same(&y) {
            Some(())
        } else {
            None
        }
    }

    /// Takes the current token and hands it back if `cond` holds of it.
    pub fn expect_cond<F: FnOnce(&T) -> bool>(&mut self, cond: F) -> (r: Option<T>)
        requires
            old(self).wf(),
            forall|x: &T| cond.requires((x,)),
        ensures
            final(self).wf(),
            final(self).data() == old(self).data(),
            final(self).stack() == old(self).stack(),
            final(self).pos() == if old(self).pos() < old(self).data().len() {
                old(self).pos() + 1
            } else {
                old(self).pos()
            },
            old(self).pos() >= old(self).data().len() ==> r is None,
            r matches Some(y) ==> y@ == old(self).data()[old(self).pos()]@ && cond.ensures((&y,), true),
            r is None && old(self).pos() < old(self).data().len() ==> exists|y: T|
                y@ == old(self).data()[old(self).pos()]@ && #[trigger] cond.ensures((&y,), false),
    {
        let y = self.next()?;
        if cond(&y) {
            Some(y)
        } else {
            None
        }
    }

    /// Takes tokens for as long as `pre` holds of them, at least one, and
    /// hands them back converted by `conv`; the cursor stops before the first
    /// token that `pre` rejects.
    pub fn expect_list<U, F: Fn(&T) -> bool, G: Fn(T) -> U>(&mut self, pre: F, conv: G) -> (r: Option<
        Vec<U>,
    >)
        requires
            old(self).wf(),
            old(self).stack().len() > 0,
            forall|x: &T| pre.requires((x,)),
            forall|x: T| conv.requires((x,)),
        ensures
            final(self).wf(),
            final(self).data() == old(self).data(),
            final(self).stack() == old(self).stack(),
            r is None ==> old(self).pos() >= old(self).data().len() || rejected(
                &pre,
                old(self).data()[old(self).pos()],
            ),
            r matches Some(v) ==> {
                &&& v@.len() >= 1
                &&& final(self).pos() == old(self).pos() + v@.len()
                &&& forall|i: int|
                    0 <= i < v@.len() ==> converted(
                        &pre,
                        &conv,
                        old(self).data()[old(self).pos() + i],
                        #[trigger] v@[i],
                    )
                &&& final(self).pos() < final(self).data().len() ==> rejected(
                    &pre,
                    final(self).data()[final(self).pos()],
                )
            },
    {
        let ghost start = self.pos();
        proof {
            self.lemma_pos_in_range();
        }
        let y = self.next()?;
        if !pre(&y) {
            return None;
        }
        let mut list: Vec<U> = Vec::new();
        list.push(conv(y));
        self.save();
        loop
            invariant_except_break
                self.stack() == old(self).stack().push(self.pos() as usize),
                self.pos() == start + list@.len(),
            invariant
                self.wf(),
                self.data() == old(self).data(),
                start == old(self).pos(),
                start + list@.len() <= self.data().len() <= usize::MAX,
                list@.len() >= 1,
                forall|x: &T| pre.requires((x,)),
                forall|x: T| conv.requires((x,)),
                forall|i: int|
                    0 <= i < list@.len() ==> converted(&pre, &conv, self.data()[start + i], #[trigger] list@[i]),
            ensures
                self.wf(),
                self.data() == old(self).data(),
                start + list@.len() <= self.data().len() <= usize::MAX,
                self.stack() == old(self).stack().push((start + list@.len()) as usize),
                list@.len() >= 1,
                forall|i: int|
                    0 <= i < list@.len() ==> converted(&pre, &conv, self.data()[start + i], #[trigger] list@[i]),
                start + list@.len() < self.data().len() ==> rejected(&pre, self.data()[start + list@.len()]),
            decreases self.data().len() - self.pos(),
        {
            proof {
                self.lemma_pos_in_range();
            }
            match self.next() {
                Some(y) => {
                    if pre(&y) {
                        let u = conv(y);
                        list.push(u);
                        self.update_save();
                    } else {
                        break;
                    }
                },
                None => {
                    break;
                },
            }
        }
        self.restore();
        Some(list)
    }

    /// Takes the current token and succeeds if it is one of `alt`.
    pub fn expect_one_of(&mut self, alt: Vec<T>) -> (r: Option<()>)
        requires
            old(self).wf(),
        ensures
            final(self).wf(),
            final(self).data() == old(self).data(),
            final(self).stack() == old(self).stack(),
            final(self).pos() == if old(self).pos() < old(self).data().len() {
                old(self).pos() + 1
            } else {
                old(self).pos()
            },
            r is Some == (old(self).pos() < old(self).data().len() && exists|i: int|
                0 <= i < alt@.len() && #[trigger] alt@[i]@ == old(self).data()[old(self).pos()]@),
    {
        let y = self.next()?;
        if contains_token(&alt, &y) {
            Some(())
        } else {
            None
        }
    }
}

/// The first position at or after `p` that holds no whitespace.
pub open spec fn skip_ws(s: Seq<char>, p: int) -> int
    decreases s.len() - p,
{
    if 0 <= p < s.len() && is_ws(s[p]) {
        skip_ws(s, p + 1)
    } else {
        p
    }
}

/// The end of the run of ASCII letters and digits that starts at `p`.
pub open spec fn alnum_end(s: Seq<char>, p: int) -> int
    decreases s.len() - p,
{
    if 0 <= p < s.len() && is_alnum(s[p]) {
        alnum_end(s, p + 1)
    } else {
        p
    }
}

/// The end of the run of decimal digits that starts at `p`.
pub open spec fn digit_end(s: Seq<char>, p: int) -> int
    decreases s.len() - p,
{
    if 0 <= p < s.len() && is_digit(s[p]) {
        digit_end(s, p + 1)
    } else {
        p
    }
}

/// The number written by the digits `s[a..b]`.
pub open spec fn num_value(s: Seq<char>, a: int, b: int) -> nat
    decreases b - a,
{
    if b <= a {
        0
    } else {
        num_value(s, a, b - 1) * 10 + digit_value(s[b - 1])
    }
}

/// A symbol after optional whitespace: a letter, then letters and digits.
/// Gives the symbol and the position after it.
pub open spec fn symbol_at(s: Seq<char>, p: int) -> Option<(Seq<char>, int)> {
    let q = skip_ws(s, p);
    if 0 <= q < s.len() && is_alpha(s[q]) {
        Some((s.subrange(q, alnum_end(s, q)), alnum_end(s, q)))
    } else {
        None
    }
}

/// A number after optional whitespace: a run of digits whose value fits in
/// 32 bits. Gives the number and the position after it.
pub open spec fn number_at(s: Seq<char>, p: int) -> Option<(u32, int)> {
    let q = skip_ws(s, p);
    let e = digit_end(s, q);
    if 0 <= q < s.len() && is_digit(s[q]) && num_value(s, q, e) <= u32::MAX {
        Some((num_value(s, q, e) as u32, e))
    } else {
        None
    }
}

pub proof fn lemma_skip_ws(s: Seq<char>, p: int)
    requires
        0 <= p <= s.len(),
    ensures
        p <= skip_ws(s, p) <= s.len(),
        skip_ws(s, p) < s.len() ==> !is_ws(s[skip_ws(s, p)]),
        forall|i: int| p <= i < skip_ws(s, p) ==> is_ws(#[trigger] s[i]),
    decreases s.len() - p,
{
    if p < s.len() && is_ws(s[p]) {
        lemma_skip_ws(s, p + 1);
    }
}

pub proof fn lemma_alnum_end(s: Seq<char>, p: int)
    requires
        0 <= p <= s.len(),
    ensures
        p <= alnum_end(s, p) <= s.len(),
        alnum_end(s, p) < s.len() ==> !is_alnum(s[alnum_end(s, p)]),
        forall|i: int| p <= i < alnum_end(s, p) ==> is_alnum(#[trigger] s[i]),
    decreases s.len() - p,
{
    if p < s.len() && is_alnum(s[p]) {
        lemma_alnum_end(s, p + 1);
    }
}

pub proof fn lemma_digit_end(s: Seq<char>, p: int)
    requires
        0 <= p <= s.len(),
    ensures
        p <= digit_end(s, p) <= s.len(),
        digit_end(s, p) < s.len() ==> !is_digit(s[digit_end(s, p)]),
        forall|i: int| p <= i < digit_end(s, p) ==> is_digit(#[trigger] s[i]),
    decreases s.len() - p,
{
    if p < s.len() && is_digit(s[p]) {
        lemma_digit_end(s, p + 1);
    }
}

/// Adding digits never makes a number smaller.
pub proof fn lemma_num_value_grows(s: Seq<char>, a: int, b: int, c: int)
    requires
        a <= b <= c,
    ensures
        num_value(s, a, b) <= num_value(s, a, c),
    decreases c - b,
{
    if b < c {
        lemma_num_value_grows(s, a, b, c - 1);
    }
}

impl Buff<char> {
    fn top_is_space(&self) -> (r: bool)
        requires
            self.wf(),
        ensures
            r == (self.pos() < self.data().len() && is_ws(self.data()[self.pos()])),
    {
        if let Some(c) = self.top() {
            c == ' ' || c == '\t' || c == '\n'
        } else {
            false
        }
    }

    /// Skips whitespace.
    pub fn trim(&mut self)
        requires
            old(self).wf(),
        ensures
            final(self).wf(),
            final(self).data() == old(self).data(),
            final(self).stack() == old(self).stack(),
            final(self).pos() == skip_ws(old(self).data(), old(self).pos()),
    {
        while !self.is_empty() && self.top_is_space()
            invariant
                self.wf(),
                self.data() == old(self).data(),
                self.stack() == old(self).stack(),
                old(self).pos() <= self.pos() <= self.data().len(),
                skip_ws(self.data(), self.pos()) == skip_ws(old(self).data(), old(self).pos()),
            decreases self.data().len() - self.pos(),
        {
            self.pop();
        }
    }

    /// Takes one character if it is an ASCII letter.
    pub fn expect_alpha(&mut self) -> (r: Option<char>)
        requires
            old(self).wf(),
        ensures
            final(self).wf(),
            final(self).data() == old(self).data(),
            final(self).stack() == old(self).stack(),
            final(self).pos() == if old(self).pos() < old(self).data().len() {
                old(self).pos() + 1
            } else {
                old(self).pos()
            },
            r is Some == (old(self).pos() < old(self).data().len() && is_alpha(
                old(self).data()[old(self).pos()],
            )),
            r matches Some(c) ==> c == old(self).data()[old(self).pos()],
    {
        let c = self.next()?;
        if ('a' <= c && c <= 'z') || ('A' <= c && c <= 'Z') {
            Some(c)
        } else {
            None
        }
    }

    /// Takes one character if it is a decimal digit.
    pub fn expect_digit(&mut self) -> (r: Option<char>)
        requires
            old(self).wf(),
        ensures
            final(self).wf(),
            final(self).data() == old(self).data(),
            final(self).stack() == old(self).stack(),
            final(self).pos() == if old(self).pos() < old(self).data().len() {
                old(self).pos() + 1
            } else {
                old(self).pos()
            },
            r is Some == (old(self).pos() < old(self).data().len() && is_digit(
                old(self).data()[old(self).pos()],
            )),
            r matches Some(c) ==> c == old(self).data()[old(self).pos()],
    {
        let c = self.next()?;
        if '0' <= c && c <= '9' {
            Some(c)
        } else {
            None
        }
    }

    /// Takes one whitespace character.
    pub fn expect_blank(&mut self) -> (r: Option<()>)
        requires
            old(self).wf(),
        ensures
            final(self).wf(),
            final(self).data() == old(self).data(),
            final(self).stack() == old(self).stack(),
            final(self).pos() == if old(self).pos() < old(self).data().len() {
                old(self).pos() + 1
            } else {
                old(self).pos()
            },
            r is Some == (old(self).pos() < old(self).data().len() && is_ws(
                old(self).data()[old(self).pos()],
            )),
    {
        let c = self.next()?;
        if c == ' ' || c == '\t' || c == '\n' {
            Some(())
        } else {
            None
        }
    }

    /// Skips whitespace and reads a number that fits in 32 bits.
    pub fn expect_u32(&mut self) -> (r: Option<u32>)
        requires
            old(self).wf(),
        ensures
            final(self).wf(),
            final(self).data() == old(self).data(),
            final(self).stack() == old(self).stack(),
            r == match number_at(old(self).data(), old(self).pos()) {
                Some((n, _)) => Some(n),
                None => None::<u32>,
            },
            r is Some ==> final(self).pos() == (number_at(old(self).data(), old(self).pos())->0).1,
    {
        let ghost s = self.data();
        self.trim();
        let ghost q = self.pos();
        proof {
            lemma_skip_ws(s, old(self).pos());
            lemma_digit_end(s, q);
        }
        let c = self.expect_digit()?;
        let mut num: u32 = (c as u32) - ('0' as u32);
        proof {
            reveal_with_fuel(num_value, 2);
        }
        while !self.is_empty()
            invariant
                self.wf(),
                self.data() == s,
                self.stack() == old(self).stack(),
                s == old(self).data(),
                q == skip_ws(s, old(self).pos()),
                q < self.pos() <= digit_end(s, q),
                digit_end(s, q) <= s.len(),
                forall|i: int| q <= i < digit_end(s, q) ==> is_digit(#[trigger] s[i]),
                digit_end(s, q) < s.len() ==> !is_digit(s[digit_end(s, q)]),
                num == num_value(s, q, self.pos()),
            ensures
                self.wf(),
                self.data() == s,
                self.stack() == old(self).stack(),
                self.pos() == digit_end(s, q),
                num == num_value(s, q, self.pos()),
            decreases s.len() - self.pos(),
        {
            let c = self.top().unwrap();
            if '0' <= c && c <= '9' {
                let d: u32 = (c as u32) - ('0' as u32);
                if num > 429496729 || (num == 429496729 && d > 5) {
                    proof {
                        lemma_num_value_grows(s, q, self.pos() + 1, digit_end(s, q));
                    }
                    return None;
                }
                self.pop();
                num = num * 10 + d;
            } else {
                break;
            }
        }
        Some(num)
    }

    /// Skips whitespace and reads a symbol: an ASCII letter followed by ASCII
    /// letters and digits.
    pub fn expect_symb(&mut self) -> (r: Option<String>)
        requires
            old(self).wf(),
        ensures
            final(self).wf(),
            final(self).data() == old(self).data(),
            final(self).stack() == old(self).stack(),
            r is Some == symbol_at(old(self).data(), old(self).pos()) is Some,
            r matches Some(x) ==> x@ == (symbol_at(old(self).data(), old(self).pos())->0).0
                && final(self).pos() == (symbol_at(old(self).data(), old(self).pos())->0).1,
    {
        let ghost s = self.data();
        self.trim();
        let ghost q = self.pos();
        proof {
            lemma_skip_ws(s, old(self).pos());
            lemma_alnum_end(s, q);
        }
        let mut symb = String::new();
        let c = self.expect_alpha()?;
        symb.push(c);
        while !self.is_empty()
            invariant
                self.wf(),
                self.data() == s,
                self.stack() == old(self).stack(),
                s == old(self).data(),
                q == skip_ws(s, old(self).pos()),
                q < self.pos() <= alnum_end(s, q),
                alnum_end(s, q) <= s.len(),
                forall|i: int| q <= i < alnum_end(s, q) ==> is_alnum(#[trigger] s[i]),
                alnum_end(s, q) < s.len() ==> !is_alnum(s[alnum_end(s, q)]),
                symb@ == s.subrange(q, self.pos()),
            ensures
                self.wf(),
                self.data() == s,
                self.stack() == old(self).stack(),
                self.pos() == alnum_end(s, q),
                symb@ == s.subrange(q, self.pos()),
            decreases s.len() - self.pos(),
        {
            let c = self.top().unwrap();
            if ('a' <= c && c <= 'z') || ('A' <= c && c <= 'Z') || ('0' <= c && c <= '9') {
                let ghost p = self.pos();
                self.pop();
                symb.push(c);
                assert(s.subrange(q, p + 1) == s.subrange(q, p).push(c));
            } else {
                break;
            }
        }
        Some(symb)
    }

    /// Reads a symbol and succeeds if it is `tok`.
    pub fn expect_token(&mut self, tok: String) -> (r: Option<()>)
        requires
            old(self).wf(),
        ensures
            final(self).wf(),
            final(self).data() == old(self).data(),
            final(self).stack() == old(self).stack(),
            r is Some == (symbol_at(old(self).data(), old(self).pos()) matches Some((x, _)) && x
                == tok@),
            r is Some ==> final(self).pos() == (symbol_at(old(self).data(), old(self).pos())->0).1,
    {
        let symb = self.expect_symb()?;
        if symb == tok {
            Some(())
        } else {
            None
        }
    }
}

/// `pre` holds of a copy of `t`, and `conv` turns that copy into `u`.
pub open spec fn converted<T: View, U, F: Fn(&T) -> bool, G: Fn(T) -> U>(
    pre: &F,
    conv: &G,
    t: T,
    u: U,
) -> bool {
    exists|y: T| y@ == t@ && pre.ensures((&y,), true) && #[trigger] conv.ensures((y,), u)
}

/// `pre` fails on a copy of `t`.
pub open spec fn rejected<T: View, F: Fn(&T) -> bool>(pre: &F, t: T) -> bool {
    exists|y: T| y@ == t@ && #[trigger] pre.ensures((&y,), false)
}

/// Whether some element of `v` has the view of `y`.
pub fn contains_token<T: Token>(v: &Vec<T>, y: &T) -> (r: bool)
    ensures
        r == exists|i: int| 0 <= i < v@.len() && #[trigger] v@[i]@ == y@,
{
    let mut i: usize = 0;
    while i < v.len()
        invariant
            i <= v@.len(),
            forall|j: int| 0 <= j < i ==> #[trigger] v@[j]@ != y@,
        decreases v@.len() - i,
    {
        if v[i].same(y) {
            return true;
        }
        i = i + 1;
    }
    false
}

} // verus!

use vstd::prelude::*;

verus! {

/// Appends one character; std documents `String::push` as appending `ch`
/// to the end of the string.
pub assume_specification[ String::push ](s: &mut String, ch: char)
    ensures
        final(s)@ == old(s)@.push(ch),
;

/// Values that the parsers and the checker compare and copy through their
/// view: characters, numbers, names.
pub trait Token: View + Sized {
    /// Equality of views.
    fn same(&self, other: &Self) -> (r: bool)
        ensures
            r == (self@ == other@),
    ;

    /// A copy with the same view.
    fn dup(&self) -> (r: Self)
        ensures
            r@ == self@,
    ;
}

impl Token for char {
    fn same(&self, other: &char) -> (r: bool) {
        *self == *other
    }

    fn dup(&self) -> (r: char) {
        *self
    }
}

impl Token for u32 {
    fn same(&self, other: &u32) -> (r: bool) {
        *self == *other
    }

    fn dup(&self) -> (r: u32) {
        *self
    }
}

impl Token for String {
    fn same(&self, other: &String) -> (r: bool) {
        *self == *other
    }

    fn dup(&self) -> (r: String) {
        self.clone()
    }
}

/// Values with a text of their own: the names and numbers in formulas.
pub trait Text: Sized {
    spec fn text(&self) -> Seq<char>;

    /// Appends the text.
    fn write_text(&self, out: &mut String)
        ensures
            final(out)@ == old(out)@ + self.text(),
    ;
}

impl Text for char {
    open spec fn text(&self) -> Seq<char> {
        seq![*self]
    }

    fn write_text(&self, out: &mut String) {
        out.push(*self);
        assert(seq![*self] == Seq::<char>::empty().push(*self));
    }
}

impl Text for u32 {
    open spec fn text(&self) -> Seq<char> {
        decimal(*self as nat)
    }

    fn write_text(&self, out: &mut String) {
        push_decimal(out, *self);
    }
}

impl Text for String {
    open spec fn text(&self) -> Seq<char> {
        self@
    }

    fn write_text(&self, out: &mut String) {
        push_str(out, self.as_str());
    }
}

pub open spec fn is_ws(c: char) -> bool {
    c == ' ' || c == '\t' || c == '\n'
}

pub open spec fn is_digit(c: char) -> bool {
    '0' <= c && c <= '9'
}

pub open spec fn is_alpha(c: char) -> bool {
    ('a' <= c && c <= 'z') || ('A' <= c && c <= 'Z')
}

pub open spec fn is_alnum(c: char) -> bool {
    is_alpha(c) || is_digit(c)
}

pub open spec fn digit_value(c: char) -> nat {
    (c as u32 - '0' as u32) as nat
}

/// The decimal notation of `n`, most significant digit first.
pub open spec fn decimal(n: nat) -> Seq<char>
    decreases n,
{
    if n < 10 {
        seq![digit_char(n)]
    } else {
        decimal(n / 10).push(digit_char(n % 10))
    }
}

pub open spec fn digit_char(d: nat) -> char {
    ((d + 48) as u8) as char
}

/// A digit character is a digit, and stands for its value.
pub proof fn lemma_digit_char(d: nat)
    requires
        d < 10,
    ensures
        is_digit(digit_char(d)),
        digit_value(digit_char(d)) == d,
{
}

/// The decimal notation of a number is a non-empty run of digits.
pub proof fn lemma_decimal_digits(n: nat)
    ensures
        decimal(n).len() >= 1,
        forall|i: int| 0 <= i < decimal(n).len() ==> is_digit(#[trigger] decimal(n)[i]),
    decreases n,
{
    lemma_digit_char(n % 10);
    if n >= 10 {
        lemma_decimal_digits(n / 10);
        let d = decimal(n / 10);
        assert forall|i: int| 0 <= i < decimal(n).len() implies is_digit(#[trigger] decimal(n)[i]) by {
            if i < d.len() {
                assert(decimal(n)[i] == d[i]);
            }
        }
    }
}

/// Appends the decimal notation of `n`.
pub fn push_decimal(out: &mut String, n: u32)
    ensures
        final(out)@ == old(out)@ + decimal(n as nat),
    decreases n,
{
    if n >= 10 {
        push_decimal(out, n / 10);
    }
    let d = n % 10;
    let c = ((d as u8) + 48u8) as char;
    out.push(c);
}

/// Appends every character of `s`.
pub fn push_str(out: &mut String, s: &str)
    ensures
        final(out)@ == old(out)@ + s@,
{
    let ghost start = out@;
    for c in it: s.chars()
        invariant
            it.seq() == s@,
            out@ == start + it.seq().take(it.index() as int),
    {
        out.push(c);
        assert(it.seq().take(it.index() + 1 as int) == it.seq().take(it.index() as int).push(c));
    }
}

} // verus!

//! The parser: one function for each rule of the grammar, each proved to
//! compute what the rule says.

use crate::error::Error;
use crate::lang::ast::{check_expr, views, Command, Expr, ExprView, Op, Prim};
use crate::lang::grammar;
use crate::lang::grammar::{
    closes, decimal, in_class, is_alphabetic, is_digit, is_name_byte, join, lead, lemma_more_step,
    lemma_more_stop, lemma_run_is_longest, lemma_sexp_unfolds, longest_run, more, rest, run,
    sexp_inside, word, Class, Outcome,
};
use crate::text::{ascii_string, is_ascii};
use vstd::prelude::*;

verus! {

/// What reading one construct from the start of an input comes to.
#[derive(Debug, PartialEq)]
pub enum Parsed<T> {
    /// The input does not begin with the construct.
    Miss,
    /// The construct, and how many bytes of the input spell it.
    Done(T, usize),
    /// The input begins with the construct, or is bound to, and is wrong.
    Fail(Error),
}

impl<T: View> View for Parsed<T> {
    type V = Outcome<T::V>;

    open spec fn view(&self) -> Outcome<T::V> {
        match self {
            Parsed::Miss => Outcome::Miss,
            Parsed::Done(v, n) => Outcome::Done(v@, *n as nat),
            Parsed::Fail(e) => Outcome::Fail(*e),
        }
    }
}

/// `nom::is_alphanumeric` tells whether a byte is an ASCII letter or digit.
pub assume_specification[ nom::is_alphanumeric ](chr: u8) -> (r: bool)
    ensures
        r == (is_alphabetic(chr) || is_digit(chr)),
;

/// Calls `nom::multispace`, which gives the longest run of spaces, tabs,
/// carriage returns and line feeds that `s` begins with, and nothing if
/// `s` is empty or begins with another byte.
#[verifier::external_body]
fn multispace(s: &[u8]) -> (r: Option<&[u8]>)
    ensures
        r is None ==> longest_run(s@, 0, Class::Space),
        r matches Some(m) ==> m@.len() > 0 && longest_run(s@, m@.len() as int, Class::Space),
{
    match nom::multispace(s) {
        nom::IResult::Done(_, m) => Some(m),
        nom::IResult::Error(_) => None,
        nom::IResult::Incomplete(_) => None,
    }
}

/// Calls `nom::digit`, which gives the longest run of decimal digits that
/// `s` begins with, and nothing if `s` is empty or begins with another byte.
#[verifier::external_body]
fn digit(s: &[u8]) -> (r: Option<&[u8]>)
    ensures
        r is None ==> longest_run(s@, 0, Class::Digit),
        r matches Some(m) ==> m@.len() > 0 && longest_run(s@, m@.len() as int, Class::Digit)
            && m@ == s@.take(m@.len() as int),
{
    match nom::digit(s) {
        nom::IResult::Done(_, m) => Some(m),
        nom::IResult::Error(_) => None,
        nom::IResult::Incomplete(_) => None,
    }
}

/// How many bytes of whitespace `s` begins with.
pub fn space(s: &[u8]) -> (n: usize)
    ensures
        n == run(s@, Class::Space),
        n <= s@.len(),
{
    proof {
        lemma_run_is_longest(s@, Class::Space);
    }
    match multispace(s) {
        Some(m) => m.len(),
        None => 0,
    }
}

/// `s` without its first `n` bytes.
pub fn after(s: &[u8], n: usize) -> (t: &[u8])
    requires
        n <= s@.len(),
    ensures
        t@ == rest(s@, n as nat),
        t@.len() == s@.len() - n,
        s@.len() <= usize::MAX,
{
    let t = &s[n..s.len()];
    assert(t@ == s@.skip(n as int));
    t
}

/// Whether `s` begins with `lit`, and if so, how long `lit` is.
pub fn tag(s: &[u8], lit: &str) -> (r: Option<usize>)
    ensures
        r is Some <==> lead(s@, lit),
        r matches Some(n) ==> n == word(lit).len() && n <= s@.len(),
{
    let w = lit.as_bytes();
    let n = w.len();
    if n > s.len() {
        return None;
    }
    let mut i: usize = 0;
    while i < n
        invariant
            i <= n <= s@.len(),
            w@ == word(lit),
            n == w@.len(),
            forall|j: int| 0 <= j < i ==> s@[j] == w@[j],
        decreases n - i,
    {
        if s[i] != w[i] {
            assert(s@.subrange(0, n as int)[i as int] != w@[i as int]);
            return None;
        }
        i += 1;
    }
    assert(w@ =~= s@.subrange(0, n as int));
    Some(n)
}

/// The digits of a prefix spell no more than the digits of the whole.
proof fn lemma_decimal_grows(digits: Seq<u8>, i: int)
    requires
        0 <= i <= digits.len(),
        forall|j: int| 0 <= j < digits.len() ==> is_digit(#[trigger] digits[j]),
    ensures
        decimal(digits.take(i)) <= decimal(digits),
    decreases digits.len() - i,
{
    if i < digits.len() {
        lemma_decimal_grows(digits, i + 1);
        assert(digits.take(i + 1).drop_last() =~= digits.take(i));
    } else {
        assert(digits.take(i) =~= digits);
    }
}

/// A number: decimal digits. One that does not fit 64 bits is an error.
pub fn num(s: &[u8]) -> (r: Parsed<u64>)
    ensures
        r@ == grammar::num(s@),
        r matches Parsed::Done(_, n) ==> 0 < n <= s@.len(),
{
    proof {
        lemma_run_is_longest(s@, Class::Digit);
    }
    let digits = match digit(s) {
        Some(d) => d,
        None => {
            return Parsed::Miss;
        },
    };
    let n = digits.len();
    let mut value: u64 = 0;
    let mut i: usize = 0;
    while i < n
        invariant
            i <= n,
            0 < n == digits@.len(),
            n == run(s@, Class::Digit),
            digits@ == s@.take(n as int),
            forall|j: int| 0 <= j < n ==> is_digit(#[trigger] digits@[j]),
            value == decimal(digits@.take(i as int)),
        decreases n - i,
    {
        let d = (digits[i] - 0x30) as u64;
        proof {
            lemma_decimal_grows(digits@, i + 1);
            assert(digits@.take(i + 1).drop_last() =~= digits@.take(i as int));
        }
        let tenfold = match value.checked_mul(10) {
            Some(v) => v,
            None => {
                return Parsed::Fail(Error::Parse);
            },
        };
        value = match tenfold.checked_add(d) {
            Some(v) => v,
            None => {
                return Parsed::Fail(Error::Parse);
            },
        };
        i += 1;
    }
    assert(digits@.take(n as int) =~= digits@);
    Parsed::Done(value, n)
}

/// Whether `u` may stand in a name.
pub fn name_byte(u: u8) -> (r: bool)
    ensures
        r == is_name_byte(u),
{
    nom::is_alphanumeric(u) || u == 0x2e || u == 0x5f
}

/// How many bytes that may stand in a name `s` begins with.
pub fn name_raw(s: &[u8]) -> (n: usize)
    ensures
        n == run(s@, Class::Name),
        n <= s@.len(),
{
    let mut n: usize = 0;
    while n < s.len() && name_byte(s[n])
        invariant
            n <= s@.len(),
            forall|j: int| 0 <= j < n ==> in_class(Class::Name, #[trigger] s@[j]),
        decreases s@.len() - n,
    {
        n += 1;
    }
    proof {
        lemma_run_is_longest(s@, Class::Name);
        assert(longest_run(s@, n as int, Class::Name));
    }
    n
}

/// A name: letters, digits, `.` and `_`. One that begins with two
/// underscores is reserved, and an error.
pub fn name(s: &[u8]) -> (r: Parsed<String>)
    ensures
        r@ == grammar::name(s@),
        r matches Parsed::Done(_, n) ==> 0 < n <= s@.len(),
{
    let n = name_raw(s);
    if n == 0 {
        return Parsed::Miss;
    }
    if tag(s, "__").is_some() {
        return Parsed::Fail(Error::Reserved);
    }
    proof {
        lemma_run_is_longest(s@, Class::Name);
    }
    let bytes = &s[0..n];
    assert(bytes@ == s@.take(n as int));
    assert(is_ascii(bytes@)) by {
        assert forall|i: int| 0 <= i < bytes@.len() implies #[trigger] bytes@[i] < 0x80 by {
            assert(in_class(Class::Name, s@[i]));
        }
    }
    Parsed::Done(ascii_string(bytes), n)
}

/// An atom, after whitespace.
pub fn atom(s: &[u8]) -> (r: Parsed<Prim>)
    ensures
        r@ == grammar::atom(s@),
        r matches Parsed::Done(_, n) ==> n <= s@.len(),
{
    proof {
        reveal(grammar::atom_at);
    }
    let w = space(s);
    let t = after(s, w);
    if let Some(k) = tag(t, "true") {
        return Parsed::Done(Prim::Bool(true), w + k);
    }
    if let Some(k) = tag(t, "false") {
        return Parsed::Done(Prim::Bool(false), w + k);
    }
    if let Some(k) = tag(t, "+infinity") {
        return Parsed::Done(Prim::Num(u64::MAX), w + k);
    }
    match num(t) {
        Parsed::Done(n, k) => {
            return Parsed::Done(Prim::Num(n), w + k);
        },
        Parsed::Fail(e) => {
            return Parsed::Fail(e);
        },
        Parsed::Miss => {},
    }
    match name(t) {
        Parsed::Done(n, k) => Parsed::Done(Prim::Name(n), w + k),
        Parsed::Fail(e) => Parsed::Fail(e),
        Parsed::Miss => Parsed::Miss,
    }
}

/// An operator at the very start of `s`. Where an atom stands in place of
/// the operator, the source is wrong.
pub fn op(s: &[u8]) -> (r: Parsed<Op>)
    ensures
        r@ == grammar::op(s@),
        r matches Parsed::Done(_, n) ==> n <= s@.len(),
{
    proof {
        reveal(grammar::op);
    }
    if let Some(k) = tag(s, "+") {
        return Parsed::Done(Op::Add, k);
    }
    if let Some(k) = tag(s, "add") {
        return Parsed::Done(Op::Add, k);
    }
    if let Some(k) = tag(s, "&&") {
        return Parsed::Done(Op::And, k);
    }
    if let Some(k) = tag(s, "and") {
        return Parsed::Done(Op::And, k);
    }
    if let Some(k) = tag(s, ":=") {
        return Parsed::Done(Op::Bind, k);
    }
    if let Some(k) = tag(s, "bind") {
        return Parsed::Done(Op::Bind, k);
    }
    if let Some(k) = tag(s, "if") {
        return Parsed::Done(Op::If, k);
    }
    if let Some(k) = tag(s, "/") {
        return Parsed::Done(Op::Div, k);
    }
    if let Some(k) = tag(s, "div") {
        return Parsed::Done(Op::Div, k);
    }
    if let Some(k) = tag(s, "==") {
        return Parsed::Done(Op::Equiv, k);
    }
    if let Some(k) = tag(s, "eq") {
        return Parsed::Done(Op::Equiv, k);
    }
    if let Some(k) = tag(s, "ewma") {
        return Parsed::Done(Op::Ewma, k);
    }
    if let Some(k) = tag(s, ">") {
        return Parsed::Done(Op::Gt, k);
    }
    if let Some(k) = tag(s, "gt") {
        return Parsed::Done(Op::Gt, k);
    }
    if let Some(k) = tag(s, "<") {
        return Parsed::Done(Op::Lt, k);
    }
    if let Some(k) = tag(s, "lt") {
        return Parsed::Done(Op::Lt, k);
    }
    if let Some(k) = tag(s, "wrapped_max") {
        return Parsed::Done(Op::MaxWrap, k);
    }
    if let Some(k) = tag(s, "max") {
        return Parsed::Done(Op::Max, k);
    }
    if let Some(k) = tag(s, "min") {
        return Parsed::Done(Op::Min, k);
    }
    if let Some(k) = tag(s, "*") {
        return Parsed::Done(Op::Mul, k);
    }
    if let Some(k) = tag(s, "mul") {
        return Parsed::Done(Op::Mul, k);
    }
    if let Some(k) = tag(s, "||") {
        return Parsed::Done(Op::Or, k);
    }
    if let Some(k) = tag(s, "or") {
        return Parsed::Done(Op::Or, k);
    }
    if let Some(k) = tag(s, "!if") {
        return Parsed::Done(Op::NotIf, k);
    }
    if let Some(k) = tag(s, "-") {
        return Parsed::Done(Op::Sub, k);
    }
    if let Some(k) = tag(s, "sub") {
        return Parsed::Done(Op::Sub, k);
    }
    match atom(s) {
        Parsed::Done(_, _) => Parsed::Fail(Error::Parse),
        Parsed::Fail(e) => Parsed::Fail(e),
        Parsed::Miss => Parsed::Miss,
    }
}

/// The error for an input that lacks what has to come next.
pub fn missing(s: &[u8]) -> (e: Error)
    ensures
        e == grammar::missing(s@),
{
    if space(s) >= s.len() {
        Error::Incomplete
    } else {
        Error::Parse
    }
}

/// Whether `s` is, after whitespace, at a closing parenthesis, and if so,
/// how many bytes there are up to and with it.
pub fn close(s: &[u8]) -> (r: Option<usize>)
    ensures
        r is Some <==> closes(s@),
        r matches Some(n) ==> n == run(s@, Class::Space) + 1 && n <= s@.len(),
{
    let w = space(s);
    if w < s.len() && s[w] == 0x29 {
        Some(w + 1)
    } else {
        None
    }
}

/// The word of a command at the very start of `s`.
pub fn command_word(s: &[u8]) -> (r: Parsed<Command>)
    ensures
        r@ == grammar::command_word(s@),
        r matches Parsed::Done(_, n) ==> n <= s@.len(),
{
    if let Some(k) = tag(s, "fallthrough") {
        return Parsed::Done(Command::Fallthrough, k);
    }
    if let Some(k) = tag(s, "report") {
        return Parsed::Done(Command::Report, k);
    }
    if let Some(k) = tag(s, "reset") {
        return Parsed::Done(Command::Reset, k);
    }
    Parsed::Miss
}

/// A command: `(`, a command's word and `)`, with whitespace where it likes.
pub fn command(s: &[u8]) -> (r: Parsed<Command>)
    ensures
        r@ == grammar::command(s@),
        r matches Parsed::Done(_, n) ==> n <= s@.len(),
{
    proof {
        reveal(grammar::command);
    }
    let w = space(s);
    let t = after(s, w);
    if t.len() == 0 || t[0] != 0x28 {
        return Parsed::Miss;
    }
    let u = after(t, 1);
    let v = space(u);
    match command_word(after(u, v)) {
        Parsed::Done(c, k) => {
            let x = after(u, v + k);
            match close(x) {
                Some(n) => Parsed::Done(c, w + 1 + v + k + n),
                None => Parsed::Miss,
            }
        },
        _ => Parsed::Miss,
    }
}

/// An s-expression: `(`, an operator, two expressions and `)`. Once the
/// parenthesis is open, whatever else follows is an error.
pub fn sexp(s: &[u8]) -> (r: Parsed<Expr>)
    ensures
        r@ == grammar::sexp(s@),
        r matches Parsed::Done(_, n) ==> n <= s@.len(),
    decreases s@.len(), 0nat,
{
    proof {
        lemma_sexp_unfolds(s@);
        reveal(sexp_inside);
    }
    let w = space(s);
    let t = after(s, w);
    if t.len() == 0 || t[0] != 0x28 {
        return Parsed::Miss;
    }
    let u = after(t, 1);
    let v = space(u);
    let (o, k) = match op(after(u, v)) {
        Parsed::Done(o, k) => (o, k),
        Parsed::Fail(e) => {
            return Parsed::Fail(e);
        },
        Parsed::Miss => {
            return Parsed::Fail(missing(u));
        },
    };
    let a = v + k;
    let (left, l) = match expr(after(u, a)) {
        Parsed::Done(e, l) => (e, l),
        Parsed::Fail(e) => {
            return Parsed::Fail(e);
        },
        Parsed::Miss => {
            return Parsed::Fail(missing(after(u, a)));
        },
    };
    let b = a + l;
    let (right, r) = match expr(after(u, b)) {
        Parsed::Done(e, r) => (e, r),
        Parsed::Fail(e) => {
            return Parsed::Fail(e);
        },
        Parsed::Miss => {
            return Parsed::Fail(missing(after(u, b)));
        },
    };
    let x = after(u, b + r);
    match close(x) {
        Some(n) => match check_expr(o, left, right) {
            Ok(e) => Parsed::Done(e, w + 1 + b + r + n),
            Err(e) => Parsed::Fail(e),
        },
        None => Parsed::Fail(missing(x)),
    }
}

/// An expression: a command, an s-expression or an atom.
pub fn expr(s: &[u8]) -> (r: Parsed<Expr>)
    ensures
        r@ == grammar::expr(s@),
        r matches Parsed::Done(_, n) ==> n <= s@.len(),
    decreases s@.len(), 1nat,
{
    proof {
        reveal(grammar::sexp);
    }
    match command(s) {
        Parsed::Done(c, n) => {
            return Parsed::Done(Expr::Cmd(c), n);
        },
        _ => {},
    }
    match sexp(s) {
        Parsed::Done(e, n) => {
            return Parsed::Done(e, n);
        },
        Parsed::Fail(e) => {
            return Parsed::Fail(e);
        },
        Parsed::Miss => {},
    }
    match atom(s) {
        Parsed::Done(p, n) => Parsed::Done(Expr::Atom(p), n),
        Parsed::Fail(e) => Parsed::Fail(e),
        Parsed::Miss => Parsed::Miss,
    }
}

/// A program: one or more expressions. Reading stops where no further
/// expression begins; what is left of the source is handed back, so that
/// the caller can see whether all of it was read.
pub fn exprs(src: &[u8]) -> (r: Result<(&[u8], Vec<Expr>), Error>)
    ensures
        match r {
            Ok((left, es)) => grammar::exprs(src@) matches Ok((vs, n)) && vs == views(es@)
                && n <= src@.len() && left@ == src@.skip(n as int),
            Err(e) => grammar::exprs(src@) == Err::<(Seq<ExprView>, nat), Error>(e),
        },
{
    let mut out: Vec<Expr> = Vec::new();
    let total = src.len();
    let mut pos: usize = match expr(src) {
        Parsed::Done(e, n) => {
            out.push(e);
            n
        },
        Parsed::Fail(e) => {
            return Err(e);
        },
        Parsed::Miss => {
            return Err(missing(src));
        },
    };
    assert(views(out@) =~= seq![out@[0]@]);
    loop
        invariant
            pos <= total == src@.len(),
            grammar::exprs(src@) == join(views(out@), pos as nat, more(rest(src@, pos as nat))),
        decreases total - pos,
    {
        let s = after(src, pos);
        match expr(s) {
            Parsed::Done(e, n) => {
                proof {
                    lemma_more_step(views(out@), pos as nat, src@);
                    assert(views(out@.push(e)) =~= views(out@).push(e@));
                }
                out.push(e);
                pos = pos + n;
            },
            Parsed::Fail(e) => {
                return Err(e);
            },
            Parsed::Miss => {
                proof {
                    lemma_more_stop(views(out@), pos as nat, src@);
                }
                let w = space(s);
                return Ok((after(src, pos + w), out));
            },
        }
    }
}

} // verus!

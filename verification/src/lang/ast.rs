//! The syntax tree of a control program, the rule that decides which
//! trees are well-typed, and the rewriting of commands into primitive
//! operations.

use crate::error::Error;
use crate::lang::grammar;
use crate::lang::parser::exprs;
use vstd::prelude::*;

verus! {

/// A literal or a name.
#[derive(Debug, PartialEq)]
pub enum Prim {
    Bool(bool),
    Name(String),
    Num(u64),
}

/// A `Prim` with its name as a sequence of characters.
pub enum PrimView {
    Bool(bool),
    Name(Seq<char>),
    Num(u64),
}

impl View for Prim {
    type V = PrimView;

    open spec fn view(&self) -> PrimView {
        match self {
            Prim::Bool(b) => PrimView::Bool(*b),
            Prim::Name(n) => PrimView::Name(n@),
            Prim::Num(n) => PrimView::Num(*n),
        }
    }
}

impl Clone for Prim {
    fn clone(&self) -> (r: Self)
        ensures
            r@ == self@,
    {
        match self {
            Prim::Bool(b) => Prim::Bool(*b),
            Prim::Name(n) => Prim::Name(n.clone()),
            Prim::Num(n) => Prim::Num(*n),
        }
    }
}

/// The operators. Each takes two operands.
#[derive(Copy, Clone, Debug, PartialEq, Eq, Structural)]
pub enum Op {
    /// `(add a b)`: a + b
    Add,
    /// `(and a b)`: a && b
    And,
    /// `(bind a b)`: gives the variable a the value b
    Bind,
    /// `(div a b)`: a / b, rounded down
    Div,
    /// `(eq a b)`: a == b
    Equiv,
    /// `(> a b)`
    Gt,
    /// `(< a b)`
    Lt,
    /// `(max a b)`
    Max,
    /// `(wrapped_max a b)`: the maximum of numbers that may have wrapped around
    MaxWrap,
    /// `(min a b)`
    Min,
    /// `(mul a b)`: a * b
    Mul,
    /// `(or a b)`: a || b
    Or,
    /// `(sub a b)`: a - b
    Sub,
    /// Resets the datapath's clock. Has no surface form and ignores its operands.
    Reset,
    /// The preamble of a program, which gives the registers their first
    /// values. Has no surface form.
    Def,
    /// `(if a b)`: where a holds, evaluates b and writes the return register.
    /// Gives no value, so it cannot be a left operand.
    If,
    /// `(!if a b)`: where a does not hold, evaluates b and writes the return
    /// register. Gives no value either.
    NotIf,
    /// `(ewma a b)`: ret * a/10 + b * (10-a)/10, where ret is the return register.
    Ewma,
}

impl View for Op {
    type V = Op;

    open spec fn view(&self) -> Op {
        *self
    }
}

/// The commands: parenthesized words without operands.
#[derive(Copy, Clone, Debug, PartialEq, Eq, Structural)]
pub enum Command {
    /// Go on to the next `when` clause.
    Fallthrough,
    /// Send a report.
    Report,
    /// Reset the clock of the control pattern.
    Reset,
}

impl View for Command {
    type V = Command;

    open spec fn view(&self) -> Command {
        *self
    }
}

/// An expression: a strictly binary tree.
#[derive(Debug, PartialEq)]
pub enum Expr {
    Atom(Prim),
    Cmd(Command),
    Sexp(Op, Box<Expr>, Box<Expr>),
}

/// An `Expr` with its names as sequences of characters.
pub enum ExprView {
    Atom(PrimView),
    Cmd(Command),
    Sexp(Op, Box<ExprView>, Box<ExprView>),
}

/// The view of an expression, node by node.
pub open spec fn expr_view(e: Expr) -> ExprView
    decreases e,
{
    match e {
        Expr::Atom(p) => ExprView::Atom(p@),
        Expr::Cmd(c) => ExprView::Cmd(c),
        Expr::Sexp(op, left, right) => ExprView::Sexp(
            op,
            Box::new(expr_view(*left)),
            Box::new(expr_view(*right)),
        ),
    }
}

impl View for Expr {
    type V = ExprView;

    open spec fn view(&self) -> ExprView {
        expr_view(*self)
    }
}

/// The views of a sequence of expressions.
pub open spec fn views(es: Seq<Expr>) -> Seq<ExprView> {
    Seq::new(es.len(), |i: int| es[i]@)
}

impl Clone for Expr {
    fn clone(&self) -> (r: Self)
        ensures
            r@ == self@,
        decreases self,
    {
        match self {
            Expr::Atom(p) => Expr::Atom(p.clone()),
            Expr::Cmd(c) => Expr::Cmd(*c),
            Expr::Sexp(op, left, right) => Expr::Sexp(
                *op,
                Box::new((&**left).clone()),
                Box::new((&**right).clone()),
            ),
        }
    }
}

/// Whether `e` is an `if` or an `!if`.
pub open spec fn is_conditional(e: ExprView) -> bool {
    e matches ExprView::Sexp(op, _, _) && (op == Op::If || op == Op::NotIf)
}

/// The expression `(op left right)`, unless its left operand is a
/// conditional: a conditional gives no value, so it cannot stand where
/// an operator takes its first value from, nor where `bind` takes the
/// name to bind. A conditional may be the right operand.
pub open spec fn checked(op: Op, left: ExprView, right: ExprView) -> Result<ExprView, Error> {
    if is_conditional(left) {
        Err(Error::StaticType)
    } else {
        Ok(ExprView::Sexp(op, Box::new(left), Box::new(right)))
    }
}

/// Builds `(op left right)`, and refuses it where its left operand is a
/// conditional.
pub fn check_expr(op: Op, left: Expr, right: Expr) -> (r: Result<Expr, Error>)
    ensures
        match r {
            Ok(e) => checked(op, left@, right@) == Ok::<ExprView, Error>(e@),
            Err(e) => checked(op, left@, right@) == Err::<ExprView, Error>(e),
        },
{
    let conditional = match &left {
        Expr::Sexp(Op::If, _, _) => true,
        Expr::Sexp(Op::NotIf, _, _) => true,
        _ => false,
    };
    if conditional {
        Err(Error::StaticType)
    } else {
        Ok(Expr::Sexp(op, Box::new(left), Box::new(right)))
    }
}

/// `(op left right)` as a tree.
pub open spec fn sexp(op: Op, left: ExprView, right: ExprView) -> ExprView {
    ExprView::Sexp(op, Box::new(left), Box::new(right))
}

/// A name as a tree.
pub open spec fn name_atom(name: Seq<char>) -> ExprView {
    ExprView::Atom(PrimView::Name(name))
}

/// A truth value as a tree.
pub open spec fn bool_atom(b: bool) -> ExprView {
    ExprView::Atom(PrimView::Bool(b))
}

/// What a command stands for.
pub open spec fn command_meaning(c: Command) -> ExprView {
    match c {
        Command::Fallthrough => sexp(Op::Bind, name_atom("__shouldContinue"@), bool_atom(true)),
        Command::Report => sexp(Op::Bind, name_atom("__shouldReport"@), bool_atom(true)),
        Command::Reset => sexp(Op::Reset, bool_atom(false), bool_atom(false)),
    }
}

/// `e` with every command replaced by what it stands for.
pub open spec fn desugared(e: ExprView) -> ExprView
    decreases e,
{
    match e {
        ExprView::Atom(_) => e,
        ExprView::Cmd(c) => command_meaning(c),
        ExprView::Sexp(op, left, right) => sexp(op, desugared(*left), desugared(*right)),
    }
}

/// Whether a command stands anywhere in `e`.
pub open spec fn has_cmd(e: ExprView) -> bool
    decreases e,
{
    match e {
        ExprView::Atom(_) => false,
        ExprView::Cmd(_) => true,
        ExprView::Sexp(_, left, right) => has_cmd(*left) || has_cmd(*right),
    }
}

/// Desugaring leaves no command behind.
pub proof fn lemma_desugared_has_no_cmd(e: ExprView)
    ensures
        !has_cmd(desugared(e)),
    decreases e,
{
    match e {
        ExprView::Atom(_) => {},
        ExprView::Cmd(_) => {
            reveal_with_fuel(has_cmd, 2);
        },
        ExprView::Sexp(_, left, right) => {
            lemma_desugared_has_no_cmd(*left);
            lemma_desugared_has_no_cmd(*right);
        },
    }
}

/// A tree without commands is its own desugaring.
pub proof fn lemma_desugared_without_cmd(e: ExprView)
    requires
        !has_cmd(e),
    ensures
        desugared(e) == e,
    decreases e,
{
    match e {
        ExprView::Atom(_) => {},
        ExprView::Cmd(_) => {},
        ExprView::Sexp(_, left, right) => {
            lemma_desugared_without_cmd(*left);
            lemma_desugared_without_cmd(*right);
        },
    }
}

/// Desugaring twice is desugaring once.
pub proof fn lemma_desugar_idempotent(e: ExprView)
    ensures
        desugared(desugared(e)) == desugared(e),
{
    lemma_desugared_has_no_cmd(e);
    lemma_desugared_without_cmd(desugared(e));
}

impl Expr {
    /// Parses a program: one or more expressions. Whatever follows the
    /// last expression is not looked at; `exprs` hands it back.
    pub fn new(src: &[u8]) -> (r: Result<Vec<Self>, Error>)
        ensures
            match r {
                Ok(es) => grammar::exprs(src@) matches Ok((vs, _)) && vs == views(es@),
                Err(e) => grammar::exprs(src@) matches Err(f) && f == e,
            },
    {
        match exprs(src) {
            Ok((_, es)) => Ok(es),
            Err(e) => Err(e),
        }
    }

    /// Replaces every command in the tree by what it stands for.
    pub fn desugar(&mut self)
        ensures
            final(self)@ == desugared(old(self)@),
            !has_cmd(final(self)@),
        decreases *old(self),
    {
        proof {
            lemma_desugared_has_no_cmd(old(self)@);
            reveal_with_fuel(expr_view, 2);
        }
        match self {
            Expr::Cmd(Command::Fallthrough) => {
                *self = Expr::Sexp(
                    Op::Bind,
                    Box::new(Expr::Atom(Prim::Name("__shouldContinue".to_owned()))),
                    Box::new(Expr::Atom(Prim::Bool(true))),
                );
            },
            Expr::Cmd(Command::Report) => {
                *self = Expr::Sexp(
                    Op::Bind,
                    Box::new(Expr::Atom(Prim::Name("__shouldReport".to_owned()))),
                    Box::new(Expr::Atom(Prim::Bool(true))),
                );
            },
            Expr::Cmd(Command::Reset) => {
                *self = Expr::Sexp(
                    Op::Reset,
                    Box::new(Expr::Atom(Prim::Bool(false))),
                    Box::new(Expr::Atom(Prim::Bool(false))),
                );
            },
            Expr::Atom(_) => {},
            Expr::Sexp(_, left, right) => {
                left.desugar();
                right.desugar();
            },
        }
    }
}

} // verus!

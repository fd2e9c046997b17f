//! Reserved names are refused wherever they are read: a source in which
//! a name that begins with two underscores stands at a place where the
//! grammar comes to read an atom fails as reserved.

use crate::error::Error;
use crate::lang::ast::ExprView;
use crate::lang::grammar::{
    atom, atom_at, command, expr, exprs, lead, lemma_atom_leads, lemma_expr_consumes,
    lemma_op_leads, lemma_run_bound, lemma_sexp_unfolds, more, op, op_after_space, rest, run,
    sexp, sexp_inside, sexp_left, sexp_right, Class, Outcome,
};
use vstd::prelude::*;

verus! {

/// Whether the reading of an expression from `s` comes to read an atom
/// at the place `p` of `s`: all that stands before `p` was read without
/// an error, and at `p` an atom is due, be it as an expression or in
/// the place of an operator.
pub open spec fn reads_atom_at(s: Seq<u8>, p: int) -> bool
    decreases s.len(), 1nat,
{
    let w = run(s, Class::Space);
    let t = rest(s, w);
    if t.len() > 0 && t[0] == 0x28 {
        !(command(s) is Done) && p >= w + 1 && inside_reads_atom_at(rest(t, 1), p - (w + 1))
    } else {
        p == w
    }
}

/// Whether the reading of what follows an opening parenthesis comes to
/// read an atom at the place `p` of `u`.
pub open spec fn inside_reads_atom_at(u: Seq<u8>, p: int) -> bool
    decreases u.len(), 2nat,
{
    let v = run(u, Class::Space);
    match op(rest(u, v)) {
        Outcome::Done(_, k) => {
            let a = v + k;
            p >= a && (reads_atom_at(rest(u, a), p - a) || (expr(rest(u, a)) matches Outcome::Done(
                _,
                l,
            ) && p >= a + l && reads_atom_at(rest(u, a + l), p - (a + l))))
        },
        _ => p == v,
    }
}

/// Whether the reading of a program from `s` comes to read an atom at
/// the place `p` of `s`.
pub open spec fn program_reads_atom_at(s: Seq<u8>, p: int) -> bool
    decreases s.len(),
{
    reads_atom_at(s, p) || (expr(s) matches Outcome::Done(_, n) && 0 < n <= s.len() && p >= n
        && program_reads_atom_at(rest(s, n), p - n))
}

/// Where a source begins with two underscores, the atom that is read
/// there is refused as reserved, as an expression and in the place of an
/// operator alike.
pub proof fn lemma_reserved_atom(x: Seq<u8>)
    requires
        lead(x, "__"),
    ensures
        atom_at(x) == Outcome::<crate::lang::ast::PrimView>::Fail(Error::Reserved),
        atom(x) == Outcome::<crate::lang::ast::PrimView>::Fail(Error::Reserved),
        op(x) == Outcome::<crate::lang::ast::Op>::Fail(Error::Reserved),
        run(x, Class::Space) == 0,
        x.len() > 0 && x[0] != 0x28,
{
    reveal(atom_at);
    reveal(op);
    lemma_atom_leads(x);
    lemma_op_leads(x);
    assert(rest(x, 0) =~= x);
    assert(x[0] == 0x5f);
    assert(run(x.skip(1), Class::Name) >= 0);
}

/// What is left from a place on is what is left from there of what was
/// left before.
pub proof fn lemma_rest_of_rest(s: Seq<u8>, n: nat, m: nat)
    requires
        n + m <= s.len(),
    ensures
        rest(rest(s, n), m) == rest(s, n + m),
{
    assert(rest(rest(s, n), m) =~= rest(s, n + m));
}

/// An expression in which a reserved name stands where an atom is read
/// fails as reserved.
pub proof fn lemma_reserved_in_expr(s: Seq<u8>, p: int)
    requires
        0 <= p <= s.len(),
        reads_atom_at(s, p),
        lead(rest(s, p as nat), "__"),
    ensures
        expr(s) == Outcome::<ExprView>::Fail(Error::Reserved),
    decreases s.len(), 1nat,
{
    let w = run(s, Class::Space);
    let t = rest(s, w);
    lemma_run_bound(s, Class::Space);
    lemma_sexp_unfolds(s);
    reveal(sexp);
    if t.len() > 0 && t[0] == 0x28 {
        let u = rest(t, 1);
        lemma_rest_of_rest(s, w, 1);
        lemma_rest_of_rest(s, w + 1, (p - (w + 1)) as nat);
        lemma_reserved_inside(u, p - (w + 1));
    } else {
        lemma_reserved_atom(t);
        assert(command(s) is Miss) by {
            reveal(command);
        }
    }
}

/// What follows an opening parenthesis fails as reserved if a reserved
/// name stands in it where an atom is read.
pub proof fn lemma_reserved_inside(u: Seq<u8>, p: int)
    requires
        0 <= p <= u.len(),
        inside_reads_atom_at(u, p),
        lead(rest(u, p as nat), "__"),
    ensures
        sexp_inside(u) == Outcome::<ExprView>::Fail(Error::Reserved),
    decreases u.len(), 2nat,
{
    reveal(sexp_inside);
    let v = run(u, Class::Space);
    lemma_run_bound(u, Class::Space);
    match op(rest(u, v)) {
        Outcome::Done(o, k) => {
            let a = v + k;
            assert(op_after_space(u) == Outcome::Done(o, a));
            lemma_rest_of_rest(u, a, (p - a) as nat);
            if reads_atom_at(rest(u, a), p - a) {
                lemma_reserved_in_expr(rest(u, a), p - a);
            } else {
                lemma_expr_consumes(rest(u, a));
                match expr(rest(u, a)) {
                    Outcome::Done(left, l) => {
                        lemma_rest_of_rest(u, a + l, (p - (a + l)) as nat);
                        lemma_reserved_in_expr(rest(u, a + l), p - (a + l));
                        assert(sexp_left(u, o, a) == sexp_right(u, o, left, a + l));
                    },
                    _ => {},
                }
            }
        },
        _ => {
            lemma_reserved_atom(rest(u, v));
        },
    }
}

/// The expressions that follow fail as reserved if a reserved name
/// stands among them where an atom is read.
pub proof fn lemma_reserved_in_more(s: Seq<u8>, p: int)
    requires
        0 <= p <= s.len(),
        program_reads_atom_at(s, p),
        lead(rest(s, p as nat), "__"),
    ensures
        more(s) == Err::<(Seq<ExprView>, nat), Error>(Error::Reserved),
        exprs(s) == Err::<(Seq<ExprView>, nat), Error>(Error::Reserved),
    decreases s.len(),
{
    if reads_atom_at(s, p) {
        lemma_reserved_in_expr(s, p);
    } else {
        match expr(s) {
            Outcome::Done(e, n) => {
                lemma_rest_of_rest(s, n, (p - n) as nat);
                lemma_reserved_in_more(rest(s, n), p - n);
            },
            _ => {},
        }
    }
}

/// A source that holds a reserved name fails as reserved: wherever the
/// reading of a program comes to read an atom and finds a name that
/// begins with two underscores, the source is refused with that error.
pub proof fn lemma_reserved_is_refused(src: Seq<u8>, p: int)
    requires
        0 <= p <= src.len(),
        program_reads_atom_at(src, p),
        lead(rest(src, p as nat), "__"),
    ensures
        exprs(src) == Err::<(Seq<ExprView>, nat), Error>(Error::Reserved),
{
    lemma_reserved_in_more(src, p);
}

} // verus!

//! What was read stays read: a token that ends before a place is read
//! the same whatever whitespace is put at that place. With it, one more
//! byte of whitespace changes nothing at any place where the reading of
//! a source ends one token and goes on to the next, be there a
//! delimiter or not.

use crate::error::Error;
use crate::lang::ast::{ExprView, Op};
use crate::lang::grammar::{
    atom, atom_at, closes, command, command_word, expr, exprs, is_space, join,
    lemma_atom_consumes, lemma_command_leads, lemma_expr_consumes, lemma_op_consumes, lemma_op_leads,
    lemma_prefix_bytes, lemma_run_bound, lemma_sexp_unfolds, more, op, op_after_space, rest, run,
    sexp, sexp_end, sexp_inside, sexp_left, sexp_right, word, Class, Outcome,
};
use crate::lang::whitespace::{
    gap, lemma_atom_words_plain, lemma_command_words_plain, lemma_join_one, lemma_more_at,
    lemma_op_words_plain, lemma_run_concat, lemma_sexp_end_widened, lemma_sexp_left_widened,
    lemma_sexp_right_widened, lemma_whitespace_is_insignificant, moved, moved_program, plain,
    shift,
};
use vstd::prelude::*;

verus! {

/// What is left of `a + b` and of `a + [w] + b` from a place within `a`.
pub proof fn lemma_rest_split(a: Seq<u8>, b: Seq<u8>, w: u8, n: nat)
    requires
        n <= a.len(),
    ensures
        rest(a + b, n) == a.skip(n as int) + b,
        rest(a + seq![w] + b, n) == a.skip(n as int) + seq![w] + b,
{
    assert(rest(a + b, n) =~= a.skip(n as int) + b);
    assert(rest(a + seq![w] + b, n) =~= a.skip(n as int) + seq![w] + b);
}

/// A word that looks like a token is found before whitespace only
/// where it is found without the whitespace, and it ends before it.
pub proof fn lemma_word_local(a: Seq<u8>, b: Seq<u8>, w: u8, lit: Seq<u8>)
    requires
        is_space(w),
        plain(lit),
    ensures
        lit.is_prefix_of(a + seq![w] + b) ==> lit.is_prefix_of(a + b) && lit.len() <= a.len(),
        lit.is_prefix_of(a + b) && lit.len() <= a.len() ==> lit.is_prefix_of(a + seq![w] + b),
{
    let t = a + b;
    let u = a + seq![w] + b;
    lemma_prefix_bytes(lit, t);
    lemma_prefix_bytes(lit, u);
    let k = a.len() as int;
    if lit.len() <= k {
        assert forall|i: int| 0 <= i < lit.len() implies t[i] == u[i] by {}
    } else {
        if lit.is_prefix_of(u) {
            assert(u[k] == w);
            assert(u[k] == lit[k]);
            assert(false);
        }
    }
}

/// A run of digits or of name bytes stops at whitespace: it is what it
/// is without the whitespace, or all that stands before the whitespace.
pub proof fn lemma_run_local(a: Seq<u8>, b: Seq<u8>, w: u8, c: Class)
    requires
        is_space(w),
        !(c is Space),
    ensures
        run(a + seq![w] + b, c) <= a.len(),
        run(a + b, c) <= a.len() ==> run(a + seq![w] + b, c) == run(a + b, c),
        run(a + b, c) > a.len() ==> run(a + seq![w] + b, c) == a.len(),
        run(a + b, c) <= a.len() ==> (a + seq![w] + b).take(run(a + b, c) as int) == (a + b).take(
            run(a + b, c) as int,
        ),
{
    lemma_run_concat(a, b, c);
    lemma_run_concat(a, seq![w] + b, c);
    assert(a + seq![w] + b =~= a + (seq![w] + b));
    assert((seq![w] + b)[0] == w);
    lemma_run_bound(b, c);
    if run(a + b, c) <= a.len() {
        assert((a + seq![w] + b).take(run(a + b, c) as int) =~= (a + b).take(
            run(a + b, c) as int,
        ));
    }
}

/// Whitespace at the start of a source is what it is without one more
/// byte of it further on.
pub proof fn lemma_space_local(a: Seq<u8>, b: Seq<u8>, w: u8)
    requires
        is_space(w),
    ensures
        run(a + b, Class::Space) < a.len() ==> run(a + seq![w] + b, Class::Space) == run(
            a + b,
            Class::Space,
        ),
        run(a + seq![w] + b, Class::Space) < a.len() ==> run(a + seq![w] + b, Class::Space)
            == run(a + b, Class::Space),
{
    lemma_run_concat(a, b, Class::Space);
    lemma_run_concat(a, seq![w] + b, Class::Space);
    assert(a + seq![w] + b =~= a + (seq![w] + b));
}

/// An atom that ends before a place is read the same with whitespace
/// at that place.
pub proof fn lemma_atom_at_local(a: Seq<u8>, b: Seq<u8>, w: u8)
    requires
        is_space(w),
        atom_at(a + b) matches Outcome::Done(_, k) && k <= a.len(),
    ensures
        atom_at(a + seq![w] + b) == atom_at(a + b),
{
    reveal(atom_at);
    lemma_atom_words_plain();
    lemma_word_local(a, b, w, word("true"));
    lemma_word_local(a, b, w, word("false"));
    lemma_word_local(a, b, w, word("+infinity"));
    lemma_word_local(a, b, w, word("__"));
    lemma_run_local(a, b, w, Class::Digit);
    lemma_run_local(a, b, w, Class::Name);
}

/// An atom after whitespace that ends before a place is read the same
/// with whitespace at that place.
pub proof fn lemma_atom_local(a: Seq<u8>, b: Seq<u8>, w: u8)
    requires
        is_space(w),
        atom(a + b) matches Outcome::Done(_, n) && n <= a.len(),
    ensures
        atom(a + seq![w] + b) == atom(a + b),
{
    let t = a + b;
    let r = run(t, Class::Space);
    lemma_atom_consumes(rest(t, r));
    lemma_space_local(a, b, w);
    lemma_rest_split(a, b, w, r);
    lemma_atom_at_local(a.skip(r as int), b, w);
}

/// An operator that ends before a place is read the same with
/// whitespace at that place.
pub proof fn lemma_op_local(a: Seq<u8>, b: Seq<u8>, w: u8)
    requires
        is_space(w),
        op(a + b) matches Outcome::Done(_, k) && k <= a.len(),
    ensures
        op(a + seq![w] + b) == op(a + b),
{
    reveal(op);
    lemma_op_words_plain();
    lemma_word_local(a, b, w, word("+"));
    lemma_word_local(a, b, w, word("add"));
    lemma_word_local(a, b, w, word("&&"));
    lemma_word_local(a, b, w, word("and"));
    lemma_word_local(a, b, w, word(":="));
    lemma_word_local(a, b, w, word("bind"));
    lemma_word_local(a, b, w, word("if"));
    lemma_word_local(a, b, w, word("/"));
    lemma_word_local(a, b, w, word("div"));
    lemma_word_local(a, b, w, word("=="));
    lemma_word_local(a, b, w, word("eq"));
    lemma_word_local(a, b, w, word("ewma"));
    lemma_word_local(a, b, w, word(">"));
    lemma_word_local(a, b, w, word("gt"));
    lemma_word_local(a, b, w, word("<"));
    lemma_word_local(a, b, w, word("lt"));
    lemma_word_local(a, b, w, word("wrapped_max"));
    lemma_word_local(a, b, w, word("max"));
    lemma_word_local(a, b, w, word("min"));
    lemma_word_local(a, b, w, word("*"));
    lemma_word_local(a, b, w, word("mul"));
    lemma_word_local(a, b, w, word("||"));
    lemma_word_local(a, b, w, word("or"));
    lemma_word_local(a, b, w, word("!if"));
    lemma_word_local(a, b, w, word("-"));
    lemma_word_local(a, b, w, word("sub"));
}

/// An operator after whitespace that ends before a place is read the
/// same with whitespace at that place.
pub proof fn lemma_op_after_space_local(a: Seq<u8>, b: Seq<u8>, w: u8)
    requires
        is_space(w),
        op_after_space(a + b) matches Outcome::Done(_, n) && n <= a.len(),
    ensures
        op_after_space(a + seq![w] + b) == op_after_space(a + b),
{
    let t = a + b;
    let r = run(t, Class::Space);
    lemma_op_consumes(rest(t, r));
    lemma_space_local(a, b, w);
    lemma_rest_split(a, b, w, r);
    lemma_op_local(a.skip(r as int), b, w);
}

/// The word of a command is found before whitespace only where it is
/// found without the whitespace; one that ends before a place is read
/// the same with whitespace at that place.
pub proof fn lemma_command_word_local(a: Seq<u8>, b: Seq<u8>, w: u8)
    requires
        is_space(w),
    ensures
        command_word(a + seq![w] + b) is Done ==> command_word(a + b) is Done,
        command_word(a + b) matches Outcome::Done(_, k) && k <= a.len() ==> command_word(
            a + seq![w] + b,
        ) == command_word(a + b),
{
    lemma_command_words_plain();
    lemma_word_local(a, b, w, word("fallthrough"));
    lemma_word_local(a, b, w, word("report"));
    lemma_word_local(a, b, w, word("reset"));
}

/// A closing parenthesis that stands before a place is found the same
/// with whitespace at that place.
pub proof fn lemma_closes_local(a: Seq<u8>, b: Seq<u8>, w: u8)
    requires
        is_space(w),
        closes(a + b),
        run(a + b, Class::Space) + 1 <= a.len(),
    ensures
        closes(a + seq![w] + b),
        run(a + seq![w] + b, Class::Space) == run(a + b, Class::Space),
{
    lemma_space_local(a, b, w);
    let r = run(a + b, Class::Space) as int;
    assert((a + seq![w] + b)[r] == (a + b)[r]);
}

/// A command that ends before a place is read the same with whitespace
/// at that place.
pub proof fn lemma_command_local(a: Seq<u8>, b: Seq<u8>, w: u8)
    requires
        is_space(w),
        command(a + b) matches Outcome::Done(_, n) && n <= a.len(),
    ensures
        command(a + seq![w] + b) == command(a + b),
{
    reveal(command);
    let s = a + b;
    let r = run(s, Class::Space);
    lemma_run_bound(s, Class::Space);
    lemma_space_local(a, b, w);
    lemma_rest_split(a, b, w, r);
    let a1 = a.skip(r as int);
    lemma_rest_split(a1, b, w, 1);
    let a2 = a1.skip(1);
    let u = a2 + b;
    let v = run(u, Class::Space);
    lemma_run_bound(u, Class::Space);
    lemma_space_local(a2, b, w);
    lemma_rest_split(a2, b, w, v);
    let a3 = a2.skip(v as int);
    lemma_command_word_local(a3, b, w);
    match command_word(a3 + b) {
        Outcome::Done(c, k) => {
            lemma_rest_split(a2, b, w, v + k);
            let a4 = a2.skip((v + k) as int);
            lemma_run_bound(a4 + b, Class::Space);
            lemma_closes_local(a4, b, w);
        },
        _ => {},
    }
}

/// Where an operator is read, no command begins, with whitespace
/// further on or without.
pub proof fn lemma_operator_is_no_command(a: Seq<u8>, b: Seq<u8>, w: u8)
    requires
        is_space(w),
        op(a + b) is Done,
    ensures
        command_word(a + b) is Miss,
        command_word(a + seq![w] + b) is Miss,
{
    reveal(op);
    lemma_op_leads(a + b);
    lemma_command_leads(a + b);
    lemma_command_word_local(a, b, w);
}

/// The end of an s-expression that stands before a place is read the
/// same with whitespace at that place.
pub proof fn lemma_sexp_end_local(
    a: Seq<u8>,
    b: Seq<u8>,
    w: u8,
    o: Op,
    left: ExprView,
    right: ExprView,
    c: nat,
)
    requires
        is_space(w),
        c <= a.len(),
        sexp_end(a + b, o, left, right, c) matches Outcome::Done(_, n) && n <= a.len(),
    ensures
        sexp_end(a + seq![w] + b, o, left, right, c) == sexp_end(a + b, o, left, right, c),
{
    lemma_rest_split(a, b, w, c);
    lemma_closes_local(a.skip(c as int), b, w);
}

/// The second operand of an s-expression and its end, where they stand
/// before a place, are read the same with whitespace at that place.
pub proof fn lemma_sexp_right_local(
    a: Seq<u8>,
    b: Seq<u8>,
    w: u8,
    o: Op,
    left: ExprView,
    q: nat,
)
    requires
        is_space(w),
        q <= a.len(),
        sexp_right(a + b, o, left, q) matches Outcome::Done(_, n) && n <= a.len(),
    ensures
        sexp_right(a + seq![w] + b, o, left, q) == sexp_right(a + b, o, left, q),
    decreases a.len() + b.len(), 3nat,
{
    lemma_rest_split(a, b, w, q);
    match expr(rest(a + b, q)) {
        Outcome::Done(right, m) => {
            lemma_sexp_end_bound(a + b, o, left, right, q + m);
            lemma_expr_local(a.skip(q as int), b, w);
            lemma_sexp_end_local(a, b, w, o, left, right, q + m);
        },
        _ => {},
    }
}

/// The operands of an s-expression and its end, where they stand before
/// a place, are read the same with whitespace at that place.
pub proof fn lemma_sexp_left_local(a: Seq<u8>, b: Seq<u8>, w: u8, o: Op, p: nat)
    requires
        is_space(w),
        p <= a.len(),
        sexp_left(a + b, o, p) matches Outcome::Done(_, n) && n <= a.len(),
    ensures
        sexp_left(a + seq![w] + b, o, p) == sexp_left(a + b, o, p),
    decreases a.len() + b.len(), 4nat,
{
    lemma_rest_split(a, b, w, p);
    match expr(rest(a + b, p)) {
        Outcome::Done(left, l) => {
            lemma_sexp_right_bound(a + b, o, left, p + l);
            lemma_expr_local(a.skip(p as int), b, w);
            lemma_sexp_right_local(a, b, w, o, left, p + l);
        },
        _ => {},
    }
}

/// An s-expression ends after the place from which its end is read.
pub proof fn lemma_sexp_end_bound(u: Seq<u8>, o: Op, left: ExprView, right: ExprView, c: nat)
    ensures
        sexp_end(u, o, left, right, c) matches Outcome::Done(_, n) ==> n > c,
{
}

/// An s-expression ends after the place from which its second operand
/// is read.
pub proof fn lemma_sexp_right_bound(u: Seq<u8>, o: Op, left: ExprView, q: nat)
    ensures
        sexp_right(u, o, left, q) matches Outcome::Done(_, n) ==> n > q,
{
    match expr(rest(u, q)) {
        Outcome::Done(right, m) => {
            lemma_sexp_end_bound(u, o, left, right, q + m);
        },
        _ => {},
    }
}

/// An s-expression ends after the place from which its operands are read.
pub proof fn lemma_sexp_left_bound(u: Seq<u8>, o: Op, p: nat)
    ensures
        sexp_left(u, o, p) matches Outcome::Done(_, n) ==> n > p,
{
    match expr(rest(u, p)) {
        Outcome::Done(left, l) => {
            lemma_sexp_right_bound(u, o, left, p + l);
        },
        _ => {},
    }
}

/// What follows an opening parenthesis, where it stands before a place,
/// is read the same with whitespace at that place.
pub proof fn lemma_inside_local(a: Seq<u8>, b: Seq<u8>, w: u8)
    requires
        is_space(w),
        sexp_inside(a + b) matches Outcome::Done(_, n) && n <= a.len(),
    ensures
        sexp_inside(a + seq![w] + b) == sexp_inside(a + b),
    decreases a.len() + b.len(), 5nat,
{
    reveal(sexp_inside);
    match op_after_space(a + b) {
        Outcome::Done(o, p) => {
            lemma_sexp_left_bound(a + b, o, p);
            lemma_op_after_space_local(a, b, w);
            lemma_sexp_left_local(a, b, w, o, p);
        },
        _ => {},
    }
}

/// An s-expression that ends before a place is read the same with
/// whitespace at that place, and no command is read in its place.
#[verifier::rlimit(50)]
pub proof fn lemma_sexp_local(a: Seq<u8>, b: Seq<u8>, w: u8)
    requires
        is_space(w),
        sexp(a + b) matches Outcome::Done(_, n) && n <= a.len(),
    ensures
        sexp(a + seq![w] + b) == sexp(a + b),
        !(command(a + b) is Done) ==> !(command(a + seq![w] + b) is Done),
    decreases a.len() + b.len(), 0nat,
{
    let s = a + b;
    let x = a + seq![w] + b;
    let r = run(s, Class::Space);
    lemma_sexp_unfolds(s);
    lemma_sexp_unfolds(x);
    lemma_run_bound(s, Class::Space);
    lemma_space_local(a, b, w);
    lemma_rest_split(a, b, w, r);
    let a1 = a.skip(r as int);
    lemma_rest_split(a1, b, w, 1);
    lemma_inside_local(a1.skip(1), b, w);
    lemma_no_command(a1.skip(1), b, w);
    assert(!(command(x) is Done)) by {
        reveal(command);
    }
}

/// After an opening parenthesis there is an s-expression or an error.
pub proof fn lemma_inside_is_no_miss(u: Seq<u8>)
    ensures
        !(sexp_inside(u) is Miss),
{
    reveal(sexp_inside);
    match op_after_space(u) {
        Outcome::Done(o, p) => {
            match expr(rest(u, p)) {
                Outcome::Done(left, l) => {
                    match expr(rest(u, p + l)) {
                        Outcome::Done(right, m) => {},
                        _ => {},
                    }
                },
                _ => {},
            }
        },
        _ => {},
    }
}

/// An atom that is read as an expression and ends before a place is
/// read the same with whitespace at that place.
#[verifier::rlimit(50)]
pub proof fn lemma_atom_expr_local(a: Seq<u8>, b: Seq<u8>, w: u8)
    requires
        is_space(w),
        sexp(a + b) is Miss,
        atom(a + b) matches Outcome::Done(_, n) && n <= a.len(),
    ensures
        atom(a + seq![w] + b) == atom(a + b),
        sexp(a + seq![w] + b) is Miss,
        command(a + seq![w] + b) is Miss,
{
    let s = a + b;
    let x = a + seq![w] + b;
    let r = run(s, Class::Space);
    lemma_sexp_unfolds(s);
    lemma_sexp_unfolds(x);
    lemma_run_bound(s, Class::Space);
    lemma_space_local(a, b, w);
    lemma_rest_split(a, b, w, r);
    lemma_atom_consumes(rest(s, r));
    let a1 = a.skip(r as int);
    lemma_inside_is_no_miss(rest(rest(s, r), 1));
    assert(a1[0] == (a1 + b)[0]);
    assert(a1[0] == (a1 + seq![w] + b)[0]);
    assert(command(x) is Miss) by {
        reveal(command);
    }
    lemma_atom_local(a, b, w);
}

/// What was read stays read: an expression that ends before a place is
/// read the same with whitespace at that place.
pub proof fn lemma_expr_local(a: Seq<u8>, b: Seq<u8>, w: u8)
    requires
        is_space(w),
        expr(a + b) matches Outcome::Done(_, n) && n <= a.len(),
    ensures
        expr(a + seq![w] + b) == expr(a + b),
    decreases a.len() + b.len(), 1nat,
{
    let s = a + b;
    reveal(sexp);
    if command(s) is Done {
        lemma_command_local(a, b, w);
    } else if sexp(s) is Done {
        lemma_sexp_local(a, b, w);
    } else {
        lemma_atom_expr_local(a, b, w);
    }
}

/// Where what follows an opening parenthesis is an operator and its
/// operands, no word of a command stands after the parenthesis, with
/// whitespace further on or without.
pub proof fn lemma_no_command(a: Seq<u8>, b: Seq<u8>, w: u8)
    requires
        is_space(w),
        sexp_inside(a + b) matches Outcome::Done(_, n) && n <= a.len(),
    ensures
        command_word(rest(a + seq![w] + b, run(a + seq![w] + b, Class::Space))) is Miss,
{
    reveal(sexp_inside);
    let u = a + b;
    let v = run(u, Class::Space);
    lemma_run_bound(u, Class::Space);
    match op_after_space(u) {
        Outcome::Done(o, p) => {
            lemma_sexp_left_bound(u, o, p);
            lemma_op_consumes(rest(u, v));
            lemma_space_local(a, b, w);
            lemma_rest_split(a, b, w, v);
            lemma_operator_is_no_command(a.skip(v as int), b, w);
        },
        _ => {},
    }
}

/// Whether the reading of an expression from `s` ends a token at the
/// place `p` of `s` and goes on from there: an atom that is read as an
/// expression ends at `p`, or an operator does, or a token in an
/// operand. All that stands before `p` was read without an error.
pub open spec fn ends_token_at(s: Seq<u8>, p: int) -> bool
    decreases s.len(), 1nat,
{
    let w = run(s, Class::Space);
    let t = rest(s, w);
    if t.len() > 0 && t[0] == 0x28 {
        !(command(s) is Done) && p >= w + 1 && inside_ends_token_at(rest(t, 1), p - (w + 1))
    } else {
        atom(s) matches Outcome::Done(_, n) && p == n
    }
}

/// Whether the reading of what follows an opening parenthesis ends a
/// token at the place `p` of `u`: the operator, or a token in an operand.
pub open spec fn inside_ends_token_at(u: Seq<u8>, p: int) -> bool
    decreases u.len(), 2nat,
{
    match op_after_space(u) {
        Outcome::Done(_, a) => {
            ||| p == a
            ||| (p >= a && a <= u.len() && ends_token_at(rest(u, a), p - a))
            ||| (expr(rest(u, a)) matches Outcome::Done(_, l) && p >= a + l && a + l <= u.len()
                && ends_token_at(rest(u, a + l), p - (a + l)))
        },
        _ => false,
    }
}

/// Whether the reading of a program from `s` ends a token at the place
/// `p` of `s`.
pub open spec fn program_ends_token_at(s: Seq<u8>, p: int) -> bool
    decreases s.len(),
{
    ends_token_at(s, p) || (expr(s) matches Outcome::Done(_, n) && 0 < n <= s.len() && p >= n
        && program_ends_token_at(rest(s, n), p - n))
}

/// Where the reading of an expression ends a token, the expression is
/// read or fails, and ends no earlier.
pub proof fn lemma_ends_token_bound(s: Seq<u8>, p: int)
    requires
        ends_token_at(s, p),
    ensures
        !(expr(s) is Miss),
        expr(s) matches Outcome::Done(_, n) ==> p <= n,
        0 < p,
    decreases s.len(), 1nat,
{
    let w = run(s, Class::Space);
    let t = rest(s, w);
    lemma_sexp_unfolds(s);
    reveal(sexp);
    lemma_atom_consumes(s);
    if t.len() > 0 && t[0] == 0x28 {
        lemma_inside_is_no_miss(rest(t, 1));
        lemma_inside_ends_token_bound(rest(t, 1), p - (w + 1));
    } else {
        assert(command(s) is Miss) by {
            reveal(command);
        }
    }
}

/// Where the reading of what follows an opening parenthesis ends a
/// token, the s-expression ends later.
pub proof fn lemma_inside_ends_token_bound(u: Seq<u8>, p: int)
    requires
        inside_ends_token_at(u, p),
    ensures
        sexp_inside(u) matches Outcome::Done(_, n) ==> p < n,
        0 < p,
    decreases u.len(), 2nat,
{
    reveal(sexp_inside);
    lemma_run_bound(u, Class::Space);
    lemma_op_consumes(rest(u, run(u, Class::Space)));
    match op_after_space(u) {
        Outcome::Done(o, a) => {
            lemma_sexp_left_bound(u, o, a);
            if p == a {
            } else if p >= a && a <= u.len() && ends_token_at(rest(u, a), p - a) {
                lemma_ends_token_bound(rest(u, a), p - a);
                match expr(rest(u, a)) {
                    Outcome::Done(left, l) => {
                        lemma_sexp_right_bound(u, o, left, a + l);
                    },
                    _ => {},
                }
            } else {
                match expr(rest(u, a)) {
                    Outcome::Done(left, l) => {
                        lemma_ends_token_bound(rest(u, a + l), p - (a + l));
                        match expr(rest(u, a + l)) {
                            Outcome::Done(right, m) => {
                                lemma_sexp_end_bound(u, o, left, right, a + l + m);
                            },
                            _ => {},
                        }
                    },
                    _ => {},
                }
            }
        },
        _ => {},
    }
}

/// One more byte of whitespace where the reading of what follows an
/// opening parenthesis ends a token: the reading is the same.
#[verifier::rlimit(80)]
pub proof fn lemma_inside_cut(a: Seq<u8>, b: Seq<u8>, w: u8)
    requires
        is_space(w),
        inside_ends_token_at(a + b, a.len() as int),
    ensures
        sexp_inside(a + seq![w] + b) == moved(sexp_inside(a + b), a.len()),
        command_word(rest(a + seq![w] + b, run(a + seq![w] + b, Class::Space))) is Miss,
    decreases a.len() + b.len(), 2nat,
{
    reveal(sexp_inside);
    let u = a + b;
    let x = a + seq![w] + b;
    let k = a.len();
    let v = run(u, Class::Space);
    lemma_run_bound(u, Class::Space);
    lemma_op_consumes(rest(u, v));
    match op_after_space(u) {
        Outcome::Done(o, p) => {
            lemma_op_after_space_local(a, b, w);
            lemma_space_local(a, b, w);
            lemma_rest_split(a, b, w, v);
            lemma_operator_is_no_command(a.skip(v as int), b, w);
            lemma_rest_split(a, b, w, p);
            if p == k {
                lemma_sexp_left_widened(a, b, w, o, p);
            } else if ends_token_at(rest(u, p), k - p) {
                lemma_ends_token_bound(rest(u, p), k - p);
                lemma_expr_consumes(rest(u, p));
                lemma_expr_cut(a.skip(p as int), b, w);
                match expr(rest(u, p)) {
                    Outcome::Done(left, l) => {
                        lemma_sexp_right_widened(a, b, w, o, left, p + l);
                    },
                    _ => {},
                }
            } else {
                match expr(rest(u, p)) {
                    Outcome::Done(left, l) => {
                        let q = p + l;
                        lemma_expr_local(a.skip(p as int), b, w);
                        lemma_rest_split(a, b, w, q);
                        lemma_ends_token_bound(rest(u, q), k - q);
                        lemma_expr_consumes(rest(u, q));
                        lemma_expr_cut(a.skip(q as int), b, w);
                        assert(sexp_left(x, o, p) == sexp_right(x, o, left, q));
                        match expr(rest(u, q)) {
                            Outcome::Done(right, m) => {
                                lemma_sexp_end_widened(a, b, w, o, left, right, q + m);
                            },
                            _ => {},
                        }
                    },
                    _ => {},
                }
            }
        },
        _ => {},
    }
}

/// One more byte of whitespace where the reading of an expression ends
/// a token: the reading is the same.
#[verifier::rlimit(80)]
pub proof fn lemma_expr_cut(a: Seq<u8>, b: Seq<u8>, w: u8)
    requires
        is_space(w),
        ends_token_at(a + b, a.len() as int),
    ensures
        expr(a + seq![w] + b) == moved(expr(a + b), a.len()),
    decreases a.len() + b.len(), 3nat,
{
    let s = a + b;
    let x = a + seq![w] + b;
    let r = run(s, Class::Space);
    let t = rest(s, r);
    lemma_run_bound(s, Class::Space);
    lemma_sexp_unfolds(s);
    lemma_sexp_unfolds(x);
    reveal(sexp);
    if t.len() > 0 && t[0] == 0x28 {
        lemma_space_local(a, b, w);
        lemma_rest_split(a, b, w, r);
        let a1 = a.skip(r as int);
        lemma_rest_split(a1, b, w, 1);
        let a2 = a1.skip(1);
        assert(a.len() == r + 1 + a2.len());
        lemma_inside_cut(a2, b, w);
        lemma_inside_is_no_miss(a2 + b);
        lemma_inside_is_no_miss(a2 + seq![w] + b);
        assert(!(command(x) is Done)) by {
            reveal(command);
        }
    } else {
        assert(command(s) is Miss) by {
            reveal(command);
        }
        lemma_atom_expr_local(a, b, w);
    }
}

/// One more byte of whitespace where the reading of the expressions at
/// the start of a source ends a token: the reading is the same.
#[verifier::rlimit(80)]
pub proof fn lemma_more_cut(a: Seq<u8>, b: Seq<u8>, w: u8)
    requires
        is_space(w),
        program_ends_token_at(a + b, a.len() as int),
    ensures
        more(a + seq![w] + b) == moved_program(more(a + b), a.len()),
        exprs(a + seq![w] + b) == moved_program(exprs(a + b), a.len()),
    decreases a.len() + b.len(),
{
    let s = a + b;
    let x = a + seq![w] + b;
    let k = a.len();
    lemma_expr_consumes(s);
    if ends_token_at(s, k as int) {
        lemma_ends_token_bound(s, k as int);
        lemma_expr_cut(a, b, w);
        match expr(s) {
            Outcome::Done(e, n) => {
                lemma_more_at(a, b, w, n);
                lemma_join_one(e, n, more(rest(s, n)));
                lemma_join_one(e, shift(n, k), more(rest(x, shift(n, k))));
            },
            _ => {},
        }
    } else {
        match expr(s) {
            Outcome::Done(e, n) => {
                lemma_expr_local(a, b, w);
                lemma_rest_split(a, b, w, n);
                lemma_more_cut(a.skip(n as int), b, w);
                lemma_join_shifted(e, n, more(rest(s, n)), (k - n) as nat);
            },
            _ => {},
        }
    }
}

/// Joining after moving the end is moving the end after joining.
pub proof fn lemma_join_shifted(
    e: ExprView,
    n: nat,
    found: Result<(Seq<ExprView>, nat), Error>,
    k: nat,
)
    ensures
        join(seq![e], n, moved_program(found, k)) == moved_program(
            join(seq![e], n, found),
            n + k,
        ),
{
}

/// Whether the place between `a` and `b` is between tokens: it is at an
/// end of the source, or between two bytes that no token can hold side
/// by side, or the reading of `a + b` ends a token there. A place
/// before a token is of this kind too: a token begins at the start of
/// the source, after whitespace, after a parenthesis, or where the
/// token before it ends.
pub open spec fn between_tokens(a: Seq<u8>, b: Seq<u8>) -> bool {
    gap(a, b) || program_ends_token_at(a + b, a.len() as int)
}

/// Whitespace between tokens does not matter: with one more byte of
/// whitespace before, between or after the tokens of a source, and
/// never inside one, the source is read as the same trees, or fails
/// with the same error, and what is left over after the program is the
/// same.
pub proof fn lemma_whitespace_between_tokens(a: Seq<u8>, b: Seq<u8>, w: u8)
    requires
        is_space(w),
        between_tokens(a, b),
    ensures
        exprs(a + seq![w] + b) == moved_program(exprs(a + b), a.len()),
{
    if gap(a, b) {
        lemma_whitespace_is_insignificant(a, b, w);
    } else {
        lemma_more_cut(a, b, w);
    }
}

} // verus!

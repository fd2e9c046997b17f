//! Whitespace between tokens does not matter: a source reads the same
//! with one more byte of whitespace at either end, or between two bytes
//! that no token can hold side by side.

use crate::error::Error;
use crate::lang::ast::{ExprView, Op};
use crate::lang::grammar::{
    atom, atom_at, closes, command, command_word, expr, exprs, in_class, is_name_byte, is_space,
    join, later, lemma_atom_consumes, lemma_command_consumes, lemma_command_leads,
    lemma_command_words, lemma_expr_consumes, lemma_op_consumes, lemma_prefix_bytes,
    lemma_run_bound, lemma_run_is_longest, lemma_sexp_inside_consumes, lemma_sexp_unfolds,
    missing, more, op, op_after_space, rest, run, sexp, sexp_end, sexp_inside, sexp_left,
    sexp_right, word, Class, Outcome,
};
use vstd::prelude::*;
use vstd::utf8::is_ascii_chars_encode_utf8;

verus! {

/// The bytes that end a token: whitespace and the two parentheses.
pub open spec fn is_delimiter(b: u8) -> bool {
    is_space(b) || b == 0x28 || b == 0x29
}

/// Whether a token can hold the byte `x` directly before the byte `y`:
/// both may stand in a name, or a word of the language has them side by
/// side, as `+infinity` has `+i`.
pub open spec fn joined(x: u8, y: u8) -> bool {
    ||| is_name_byte(x) && is_name_byte(y)
    ||| x == 0x2b && y == 0x69
    ||| x == 0x21 && y == 0x69
    ||| x == 0x26 && y == 0x26
    ||| x == 0x7c && y == 0x7c
    ||| x == 0x3d && y == 0x3d
    ||| x == 0x3a && y == 0x3d
}

/// Whether the place between `a` and `b` is between tokens for sure: it
/// is at an end of the source, or the bytes on its two sides are such
/// that no token can hold them side by side. Every place next to
/// whitespace or to a parenthesis is of this kind.
pub open spec fn gap(a: Seq<u8>, b: Seq<u8>) -> bool {
    a.len() == 0 || b.len() == 0 || !joined(a.last(), b[0])
}

/// A place next to a delimiter is between tokens.
pub proof fn lemma_delimiter_makes_gap(a: Seq<u8>, b: Seq<u8>)
    requires
        (a.len() > 0 && is_delimiter(a.last())) || (b.len() > 0 && is_delimiter(b[0])),
    ensures
        gap(a, b),
{
}

/// Where the place `n` of `a + b` is found in `a + [w] + b`: places
/// beyond `a` move by one.
pub open spec fn shift(n: nat, k: nat) -> nat {
    if n > k {
        n + 1
    } else {
        n
    }
}

/// An outcome on `a + b`, carried over to `a + [w] + b` where `a` has
/// `k` bytes: the same tree or error, and an end that moved with the bytes.
pub open spec fn moved<T>(o: Outcome<T>, k: nat) -> Outcome<T> {
    match o {
        Outcome::Done(v, n) => Outcome::Done(v, shift(n, k)),
        _ => o,
    }
}

/// The run at the start of `x + y` is the run of `x`, and goes on into
/// `y` if it takes all of `x`.
pub proof fn lemma_run_concat(x: Seq<u8>, y: Seq<u8>, c: Class)
    ensures
        run(x, c) <= x.len(),
        run(x, c) < x.len() ==> run(x + y, c) == run(x, c),
        run(x, c) == x.len() ==> run(x + y, c) == x.len() + run(y, c),
    decreases x.len(),
{
    lemma_run_bound(x, c);
    if x.len() == 0 {
        assert(x + y =~= y);
    } else {
        assert((x + y)[0] == x[0]);
        assert((x + y).skip(1) =~= x.skip(1) + y);
        lemma_run_concat(x.skip(1), y, c);
    }
}

/// What is left of `a + b` and of `a + [w] + b` from a place within `a`,
/// and from a place beyond it.
pub proof fn lemma_rest_widened(a: Seq<u8>, b: Seq<u8>, w: u8, n: nat)
    requires
        gap(a, b) || n >= a.len(),
        n <= a.len() + b.len(),
    ensures
        n <= a.len() ==> rest(a + b, n) == a.skip(n as int) + b && rest(a + seq![w] + b, n)
            == a.skip(n as int) + seq![w] + b && gap(a.skip(n as int), b),
        n >= a.len() ==> rest(a + seq![w] + b, n + 1) == rest(a + b, n),
{
    if n <= a.len() {
        assert(rest(a + b, n) =~= a.skip(n as int) + b);
        assert(rest(a + seq![w] + b, n) =~= a.skip(n as int) + seq![w] + b);
        if n < a.len() {
            assert(a.skip(n as int).last() == a.last());
        }
    }
    if n >= a.len() {
        assert(rest(a + seq![w] + b, n + 1) =~= rest(a + b, n));
    }
}

/// Whitespace at the start: with one more byte of it, the whitespace is
/// one byte longer if the new byte is part of it, and what follows is
/// the same.
pub proof fn lemma_space_widened(a: Seq<u8>, b: Seq<u8>, w: u8)
    requires
        is_space(w),
        gap(a, b),
    ensures
        run(a + b, Class::Space) <= a.len() + b.len(),
        run(a + b, Class::Space) >= a.len() ==> run(a + seq![w] + b, Class::Space) == run(
            a + b,
            Class::Space,
        ) + 1,
        run(a + b, Class::Space) < a.len() ==> run(a + seq![w] + b, Class::Space) == run(
            a + b,
            Class::Space,
        ) && !is_space(a[run(a + b, Class::Space) as int]),
{
    let c = Class::Space;
    lemma_run_bound(a + b, c);
    lemma_run_concat(a, b, c);
    lemma_run_concat(a, seq![w] + b, c);
    assert(a + seq![w] + b =~= a + (seq![w] + b));
    if run(a, c) == a.len() {
        let y = seq![w] + b;
        assert(y[0] == w);
        assert(y.skip(1) =~= b);
    } else {
        lemma_run_is_longest(a, c);
    }
}

/// A run of digits or of name bytes that begins before the place between
/// `a` and `b` ends before it too, and is the same with whitespace there.
pub proof fn lemma_token_run_widened(a: Seq<u8>, b: Seq<u8>, w: u8, c: Class)
    requires
        is_space(w),
        gap(a, b),
        a.len() > 0,
        !(c is Space),
    ensures
        run(a + seq![w] + b, c) == run(a + b, c),
        run(a + b, c) <= a.len(),
        (a + seq![w] + b).take(run(a + b, c) as int) == (a + b).take(run(a + b, c) as int),
{
    lemma_run_concat(a, b, c);
    lemma_run_concat(a, seq![w] + b, c);
    assert(a + seq![w] + b =~= a + (seq![w] + b));
    lemma_run_is_longest(a, c);
    if run(a, c) == a.len() {
        assert(in_class(c, a[a.len() - 1]));
        assert(is_name_byte(a.last()));
        if b.len() > 0 {
            assert(!is_name_byte(b[0]));
            assert(!in_class(c, b[0]));
        }
        assert((seq![w] + b)[0] == w);
    }
    assert((a + seq![w] + b).take(run(a + b, c) as int) =~= (a + b).take(run(a + b, c) as int));
}

/// Whether `lit` looks like a token: no byte of it is a delimiter, and
/// each byte is joined to the next.
pub open spec fn plain(lit: Seq<u8>) -> bool {
    forall|i: int|
        0 <= i < lit.len() ==> !is_delimiter(#[trigger] lit[i]) && (i + 1 < lit.len() ==> joined(
            lit[i],
            lit[i + 1],
        ))
}

/// The words that atoms are made of look like tokens.
pub proof fn lemma_atom_words_plain()
    ensures
        plain(word("true")),
        plain(word("false")),
        plain(word("+infinity")),
        plain(word("__")),
{
    assert(plain(word("true"))) by {
        reveal_strlit("true");
        is_ascii_chars_encode_utf8("true"@);
    }
    assert(plain(word("false"))) by {
        reveal_strlit("false");
        is_ascii_chars_encode_utf8("false"@);
    }
    assert(plain(word("+infinity"))) by {
        reveal_strlit("+infinity");
        is_ascii_chars_encode_utf8("+infinity"@);
    }
    assert(plain(word("__"))) by {
        reveal_strlit("__");
        is_ascii_chars_encode_utf8("__"@);
    }
}

/// The words that stand for operators look like tokens.
#[verifier::rlimit(60)]
pub proof fn lemma_op_words_plain()
    ensures
        plain(word("+")),
        plain(word("add")),
        plain(word("&&")),
        plain(word("and")),
        plain(word(":=")),
        plain(word("bind")),
        plain(word("if")),
        plain(word("/")),
        plain(word("div")),
        plain(word("==")),
        plain(word("eq")),
        plain(word("ewma")),
        plain(word(">")),
        plain(word("gt")),
        plain(word("<")),
        plain(word("lt")),
        plain(word("wrapped_max")),
        plain(word("max")),
        plain(word("min")),
        plain(word("*")),
        plain(word("mul")),
        plain(word("||")),
        plain(word("or")),
        plain(word("!if")),
        plain(word("-")),
        plain(word("sub")),
{
    assert(plain(word("+"))) by {
        reveal_strlit("+");
        is_ascii_chars_encode_utf8("+"@);
    }
    assert(plain(word("add"))) by {
        reveal_strlit("add");
        is_ascii_chars_encode_utf8("add"@);
    }
    assert(plain(word("&&"))) by {
        reveal_strlit("&&");
        is_ascii_chars_encode_utf8("&&"@);
    }
    assert(plain(word("and"))) by {
        reveal_strlit("and");
        is_ascii_chars_encode_utf8("and"@);
    }
    assert(plain(word(":="))) by {
        reveal_strlit(":=");
        is_ascii_chars_encode_utf8(":="@);
    }
    assert(plain(word("bind"))) by {
        reveal_strlit("bind");
        is_ascii_chars_encode_utf8("bind"@);
    }
    assert(plain(word("if"))) by {
        reveal_strlit("if");
        is_ascii_chars_encode_utf8("if"@);
    }
    assert(plain(word("/"))) by {
        reveal_strlit("/");
        is_ascii_chars_encode_utf8("/"@);
    }
    assert(plain(word("div"))) by {
        reveal_strlit("div");
        is_ascii_chars_encode_utf8("div"@);
    }
    assert(plain(word("=="))) by {
        reveal_strlit("==");
        is_ascii_chars_encode_utf8("=="@);
    }
    assert(plain(word("eq"))) by {
        reveal_strlit("eq");
        is_ascii_chars_encode_utf8("eq"@);
    }
    assert(plain(word("ewma"))) by {
        reveal_strlit("ewma");
        is_ascii_chars_encode_utf8("ewma"@);
    }
    assert(plain(word(">"))) by {
        reveal_strlit(">");
        is_ascii_chars_encode_utf8(">"@);
    }
    assert(plain(word("gt"))) by {
        reveal_strlit("gt");
        is_ascii_chars_encode_utf8("gt"@);
    }
    assert(plain(word("<"))) by {
        reveal_strlit("<");
        is_ascii_chars_encode_utf8("<"@);
    }
    assert(plain(word("lt"))) by {
        reveal_strlit("lt");
        is_ascii_chars_encode_utf8("lt"@);
    }
    assert(plain(word("wrapped_max"))) by {
        reveal_strlit("wrapped_max");
        is_ascii_chars_encode_utf8("wrapped_max"@);
    }
    assert(plain(word("max"))) by {
        reveal_strlit("max");
        is_ascii_chars_encode_utf8("max"@);
    }
    assert(plain(word("min"))) by {
        reveal_strlit("min");
        is_ascii_chars_encode_utf8("min"@);
    }
    assert(plain(word("*"))) by {
        reveal_strlit("*");
        is_ascii_chars_encode_utf8("*"@);
    }
    assert(plain(word("mul"))) by {
        reveal_strlit("mul");
        is_ascii_chars_encode_utf8("mul"@);
    }
    assert(plain(word("||"))) by {
        reveal_strlit("||");
        is_ascii_chars_encode_utf8("||"@);
    }
    assert(plain(word("or"))) by {
        reveal_strlit("or");
        is_ascii_chars_encode_utf8("or"@);
    }
    assert(plain(word("!if"))) by {
        reveal_strlit("!if");
        is_ascii_chars_encode_utf8("!if"@);
    }
    assert(plain(word("-"))) by {
        reveal_strlit("-");
        is_ascii_chars_encode_utf8("-"@);
    }
    assert(plain(word("sub"))) by {
        reveal_strlit("sub");
        is_ascii_chars_encode_utf8("sub"@);
    }
}

/// The words that stand for commands look like tokens.
pub proof fn lemma_command_words_plain()
    ensures
        plain(word("fallthrough")),
        plain(word("report")),
        plain(word("reset")),
{
    assert(plain(word("fallthrough"))) by {
        reveal_strlit("fallthrough");
        is_ascii_chars_encode_utf8("fallthrough"@);
    }
    assert(plain(word("report"))) by {
        reveal_strlit("report");
        is_ascii_chars_encode_utf8("report"@);
    }
    assert(plain(word("reset"))) by {
        reveal_strlit("reset");
        is_ascii_chars_encode_utf8("reset"@);
    }
}

/// A word that looks like a token and begins before the place between
/// `a` and `b` ends before it too, and is there or not with whitespace
/// in that place as without.
pub proof fn lemma_word_widened(a: Seq<u8>, b: Seq<u8>, w: u8, lit: Seq<u8>)
    requires
        is_space(w),
        gap(a, b),
        a.len() > 0,
        plain(lit),
    ensures
        lit.is_prefix_of(a + seq![w] + b) == lit.is_prefix_of(a + b),
        lit.is_prefix_of(a + b) ==> lit.len() <= a.len(),
{
    let t = a + b;
    let u = a + seq![w] + b;
    lemma_prefix_bytes(lit, t);
    lemma_prefix_bytes(lit, u);
    let k = a.len() as int;
    if lit.len() <= k {
        assert forall|i: int| 0 <= i < lit.len() implies t[i] == u[i] by {}
    } else {
        assert(!is_delimiter(lit[k]));
        assert(joined(lit[k - 1], lit[k]));
        assert(u[k] == w);
        if lit.is_prefix_of(t) {
            assert(t[k - 1] == lit[k - 1]);
            assert(t[k] == lit[k]);
            assert(t[k - 1] == a.last());
            assert(t[k] == b[0]);
            assert(false);
        }
        if lit.is_prefix_of(u) {
            assert(u[k] == lit[k]);
            assert(false);
        }
    }
}

/// An atom that begins before the place between `a` and `b` ends before
/// it too, and is the same with whitespace there.
pub proof fn lemma_atom_at_widened(a: Seq<u8>, b: Seq<u8>, w: u8)
    requires
        is_space(w),
        gap(a, b),
        a.len() > 0,
    ensures
        atom_at(a + seq![w] + b) == atom_at(a + b),
        atom_at(a + b) matches Outcome::Done(_, k) ==> k <= a.len(),
{
    reveal(atom_at);
    lemma_atom_words_plain();
    lemma_word_widened(a, b, w, word("true"));
    lemma_word_widened(a, b, w, word("false"));
    lemma_word_widened(a, b, w, word("+infinity"));
    lemma_word_widened(a, b, w, word("__"));
    lemma_token_run_widened(a, b, w, Class::Digit);
    lemma_token_run_widened(a, b, w, Class::Name);
}

/// An atom reads the same with one more byte of whitespace between tokens.
pub proof fn lemma_atom_widened(a: Seq<u8>, b: Seq<u8>, w: u8)
    requires
        is_space(w),
        gap(a, b),
    ensures
        atom(a + seq![w] + b) == moved(atom(a + b), a.len()),
{
    let t = a + b;
    let u = a + seq![w] + b;
    let r = run(t, Class::Space);
    lemma_space_widened(a, b, w);
    lemma_rest_widened(a, b, w, r);
    lemma_atom_consumes(rest(t, r));
    if r < a.len() {
        lemma_atom_at_widened(a.skip(r as int), b, w);
    }
}

/// An operator that begins before the place between `a` and `b` ends
/// before it too, and is the same with whitespace there.
pub proof fn lemma_op_widened(a: Seq<u8>, b: Seq<u8>, w: u8)
    requires
        is_space(w),
        gap(a, b),
        a.len() > 0,
    ensures
        op(a + seq![w] + b) == op(a + b),
        op(a + b) matches Outcome::Done(_, k) ==> k <= a.len(),
{
    reveal(op);
    lemma_op_words_plain();
    lemma_word_widened(a, b, w, word("+"));
    lemma_word_widened(a, b, w, word("add"));
    lemma_word_widened(a, b, w, word("&&"));
    lemma_word_widened(a, b, w, word("and"));
    lemma_word_widened(a, b, w, word(":="));
    lemma_word_widened(a, b, w, word("bind"));
    lemma_word_widened(a, b, w, word("if"));
    lemma_word_widened(a, b, w, word("/"));
    lemma_word_widened(a, b, w, word("div"));
    lemma_word_widened(a, b, w, word("=="));
    lemma_word_widened(a, b, w, word("eq"));
    lemma_word_widened(a, b, w, word("ewma"));
    lemma_word_widened(a, b, w, word(">"));
    lemma_word_widened(a, b, w, word("gt"));
    lemma_word_widened(a, b, w, word("<"));
    lemma_word_widened(a, b, w, word("lt"));
    lemma_word_widened(a, b, w, word("wrapped_max"));
    lemma_word_widened(a, b, w, word("max"));
    lemma_word_widened(a, b, w, word("min"));
    lemma_word_widened(a, b, w, word("*"));
    lemma_word_widened(a, b, w, word("mul"));
    lemma_word_widened(a, b, w, word("||"));
    lemma_word_widened(a, b, w, word("or"));
    lemma_word_widened(a, b, w, word("!if"));
    lemma_word_widened(a, b, w, word("-"));
    lemma_word_widened(a, b, w, word("sub"));
    lemma_atom_widened(a, b, w);
}

/// The word of a command that begins before the place between `a` and
/// `b` ends before it too, and is the same with whitespace there.
pub proof fn lemma_command_word_widened(a: Seq<u8>, b: Seq<u8>, w: u8)
    requires
        is_space(w),
        gap(a, b),
        a.len() > 0,
    ensures
        command_word(a + seq![w] + b) == command_word(a + b),
        command_word(a + b) matches Outcome::Done(_, k) ==> k <= a.len(),
{
    lemma_command_words_plain();
    lemma_word_widened(a, b, w, word("fallthrough"));
    lemma_word_widened(a, b, w, word("report"));
    lemma_word_widened(a, b, w, word("reset"));
}

/// The word of a command, after whitespace.
pub open spec fn command_word_after_space(s: Seq<u8>) -> Outcome<crate::lang::ast::Command> {
    let v = run(s, Class::Space);
    later(v, command_word(rest(s, v)))
}

/// An operator reads the same with one more byte of whitespace between tokens.
pub proof fn lemma_op_after_space_widened(a: Seq<u8>, b: Seq<u8>, w: u8)
    requires
        is_space(w),
        gap(a, b),
    ensures
        op_after_space(a + seq![w] + b) == moved(op_after_space(a + b), a.len()),
{
    let t = a + b;
    let r = run(t, Class::Space);
    lemma_space_widened(a, b, w);
    lemma_rest_widened(a, b, w, r);
    lemma_op_consumes(rest(t, r));
    if r < a.len() {
        lemma_op_widened(a.skip(r as int), b, w);
    }
}

/// The word of a command reads the same with one more byte of whitespace
/// between tokens.
pub proof fn lemma_command_word_after_space_widened(a: Seq<u8>, b: Seq<u8>, w: u8)
    requires
        is_space(w),
        gap(a, b),
    ensures
        command_word_after_space(a + seq![w] + b) == moved(
            command_word_after_space(a + b),
            a.len(),
        ),
{
    let t = a + b;
    let r = run(t, Class::Space);
    lemma_space_widened(a, b, w);
    lemma_rest_widened(a, b, w, r);
    lemma_command_words();
    if r < a.len() {
        lemma_command_word_widened(a.skip(r as int), b, w);
    }
}

/// From the place `n` on, a closing parenthesis is next or not with one
/// more byte of whitespace as without, and is found where it moved to.
#[verifier::rlimit(50)]
pub proof fn lemma_closes_at(a: Seq<u8>, b: Seq<u8>, w: u8, n: nat)
    requires
        is_space(w),
        gap(a, b) || n >= a.len(),
        n <= a.len() + b.len(),
    ensures
        closes(rest(a + seq![w] + b, shift(n, a.len()))) == closes(rest(a + b, n)),
        missing(rest(a + seq![w] + b, shift(n, a.len()))) == missing(rest(a + b, n)),
        shift(n, a.len()) + run(rest(a + seq![w] + b, shift(n, a.len())), Class::Space) + 1
            == shift(n + run(rest(a + b, n), Class::Space) + 1, a.len()),
{
    lemma_rest_widened(a, b, w, n);
    if n <= a.len() {
        let a1 = a.skip(n as int);
        let x = a1 + b;
        let y = a1 + seq![w] + b;
        let r = run(x, Class::Space);
        lemma_space_widened(a1, b, w);
        lemma_rest_widened(a1, b, w, r);
        if r >= a1.len() {
            if r < x.len() {
                assert(y[r as int + 1] == x[r as int]);
            }
        } else {
            assert(y[r as int] == x[r as int]);
        }
    }
}

/// A command reads the same with one more byte of whitespace between tokens.
#[verifier::rlimit(60)]
pub proof fn lemma_command_widened(a: Seq<u8>, b: Seq<u8>, w: u8)
    requires
        is_space(w),
        gap(a, b),
    ensures
        command(a + seq![w] + b) == moved(command(a + b), a.len()),
{
    reveal(command);
    let s = a + b;
    let r = run(s, Class::Space);
    lemma_space_widened(a, b, w);
    lemma_rest_widened(a, b, w, r);
    lemma_command_consumes(s);
    if r < a.len() {
        let a1 = a.skip(r as int);
        let t = a1 + b;
        if t[0] == 0x28 {
            lemma_rest_widened(a1, b, w, 1);
            let a2 = a1.skip(1);
            let u = a2 + b;
            lemma_command_word_after_space_widened(a2, b, w);
            match command_word_after_space(u) {
                Outcome::Done(c, p) => {
                    lemma_run_bound(u, Class::Space);
                    lemma_command_words();
                    lemma_command_leads(rest(u, run(u, Class::Space)));
                    lemma_closes_at(a2, b, w, p);
                },
                _ => {},
            }
        }
    }
}

/// From the place `n` on, an expression reads the same with one more
/// byte of whitespace between tokens, and ends where its end moved to.
#[verifier::rlimit(50)]
pub proof fn lemma_expr_at(a: Seq<u8>, b: Seq<u8>, w: u8, n: nat)
    requires
        is_space(w),
        gap(a, b) || n >= a.len(),
        n <= a.len() + b.len(),
    ensures
        later(shift(n, a.len()), expr(rest(a + seq![w] + b, shift(n, a.len())))) == moved(
            later(n, expr(rest(a + b, n))),
            a.len(),
        ),
    decreases a.len() + b.len(), 2nat,
{
    lemma_rest_widened(a, b, w, n);
    lemma_expr_consumes(rest(a + b, n));
    if n <= a.len() {
        lemma_expr_widened(a.skip(n as int), b, w);
    }
}

/// An s-expression reads the same with one more byte of whitespace
/// between tokens, and so does an expression.
#[verifier::rlimit(60)]
pub proof fn lemma_expr_widened(a: Seq<u8>, b: Seq<u8>, w: u8)
    requires
        is_space(w),
        gap(a, b),
    ensures
        sexp(a + seq![w] + b) == moved(sexp(a + b), a.len()),
        expr(a + seq![w] + b) == moved(expr(a + b), a.len()),
    decreases a.len() + b.len(), 1nat,
{
    reveal(sexp);
    lemma_sexp_widened(a, b, w);
    lemma_command_widened(a, b, w);
    lemma_atom_widened(a, b, w);
}

/// The end of an s-expression reads the same with one more byte of
/// whitespace between tokens.
#[verifier::rlimit(50)]
pub proof fn lemma_sexp_end_widened(
    a: Seq<u8>,
    b: Seq<u8>,
    w: u8,
    o: Op,
    left: ExprView,
    right: ExprView,
    c: nat,
)
    requires
        is_space(w),
        gap(a, b) || c >= a.len(),
        c <= a.len() + b.len(),
    ensures
        sexp_end(a + seq![w] + b, o, left, right, shift(c, a.len())) == moved(
            sexp_end(a + b, o, left, right, c),
            a.len(),
        ),
{
    lemma_closes_at(a, b, w, c);
}

/// The second operand of an s-expression and its end read the same with
/// one more byte of whitespace between tokens.
#[verifier::rlimit(50)]
pub proof fn lemma_sexp_right_widened(
    a: Seq<u8>,
    b: Seq<u8>,
    w: u8,
    o: Op,
    left: ExprView,
    q: nat,
)
    requires
        is_space(w),
        gap(a, b) || q >= a.len(),
        q <= a.len() + b.len(),
    ensures
        sexp_right(a + seq![w] + b, o, left, shift(q, a.len())) == moved(
            sexp_right(a + b, o, left, q),
            a.len(),
        ),
    decreases a.len() + b.len(), 3nat,
{
    lemma_expr_at(a, b, w, q);
    lemma_closes_at(a, b, w, q);
    lemma_expr_consumes(rest(a + b, q));
    match expr(rest(a + b, q)) {
        Outcome::Done(right, m) => {
            lemma_sexp_end_widened(a, b, w, o, left, right, q + m);
        },
        _ => {},
    }
}

/// The operands of an s-expression and its end read the same with one
/// more byte of whitespace between tokens.
#[verifier::rlimit(50)]
pub proof fn lemma_sexp_left_widened(a: Seq<u8>, b: Seq<u8>, w: u8, o: Op, p: nat)
    requires
        is_space(w),
        gap(a, b) || p >= a.len(),
        p <= a.len() + b.len(),
    ensures
        sexp_left(a + seq![w] + b, o, shift(p, a.len())) == moved(
            sexp_left(a + b, o, p),
            a.len(),
        ),
    decreases a.len() + b.len(), 4nat,
{
    lemma_expr_at(a, b, w, p);
    lemma_closes_at(a, b, w, p);
    lemma_expr_consumes(rest(a + b, p));
    match expr(rest(a + b, p)) {
        Outcome::Done(left, l) => {
            lemma_sexp_right_widened(a, b, w, o, left, p + l);
        },
        _ => {},
    }
}

/// What follows the opening parenthesis of an s-expression reads the
/// same with one more byte of whitespace between tokens.
#[verifier::rlimit(50)]
pub proof fn lemma_sexp_inside_widened(a: Seq<u8>, b: Seq<u8>, w: u8)
    requires
        is_space(w),
        gap(a, b),
    ensures
        sexp_inside(a + seq![w] + b) == moved(sexp_inside(a + b), a.len()),
    decreases a.len() + b.len(), 5nat,
{
    reveal(sexp_inside);
    let u = a + b;
    assert(rest(u, 0) =~= u);
    assert(rest(a + seq![w] + b, 0) =~= a + seq![w] + b);
    lemma_op_after_space_widened(a, b, w);
    lemma_closes_at(a, b, w, 0);
    lemma_run_bound(u, Class::Space);
    lemma_op_consumes(rest(u, run(u, Class::Space)));
    match op_after_space(u) {
        Outcome::Done(o, p) => {
            lemma_sexp_left_widened(a, b, w, o, p);
        },
        _ => {},
    }
}

/// An s-expression reads the same with one more byte of whitespace
/// between tokens.
#[verifier::rlimit(50)]
pub proof fn lemma_sexp_widened(a: Seq<u8>, b: Seq<u8>, w: u8)
    requires
        is_space(w),
        gap(a, b),
    ensures
        sexp(a + seq![w] + b) == moved(sexp(a + b), a.len()),
    decreases a.len() + b.len(), 0nat,
{
    let s = a + b;
    let r = run(s, Class::Space);
    lemma_sexp_unfolds(s);
    lemma_sexp_unfolds(a + seq![w] + b);
    lemma_space_widened(a, b, w);
    lemma_rest_widened(a, b, w, r);
    if r < a.len() {
        let a1 = a.skip(r as int);
        let t = a1 + b;
        if t[0] == 0x28 {
            lemma_rest_widened(a1, b, w, 1);
            let a2 = a1.skip(1);
            assert(a.len() == r + 1 + a2.len());
            lemma_sexp_inside_widened(a2, b, w);
        }
    } else {
        let t = rest(s, r);
        if t.len() > 0 && t[0] == 0x28 {
            lemma_sexp_inside_consumes(rest(t, 1));
        }
    }
}

/// What reading a program from `a + b` comes to, carried over to
/// `a + [w] + b` where `a` has `k` bytes: the same trees or the same
/// error, and an end that moved with the bytes. The whitespace after the
/// last expression is read too, so an end at `k` moves as well.
pub open spec fn moved_program(
    found: Result<(Seq<ExprView>, nat), Error>,
    k: nat,
) -> Result<(Seq<ExprView>, nat), Error> {
    match found {
        Ok((es, n)) => Ok((es, if n >= k { n + 1 } else { n })),
        Err(e) => Err(e),
    }
}

/// From the place `n` on, the expressions that follow read the same with
/// one more byte of whitespace between tokens.
#[verifier::rlimit(50)]
pub proof fn lemma_more_at(a: Seq<u8>, b: Seq<u8>, w: u8, n: nat)
    requires
        is_space(w),
        gap(a, b) || n >= a.len(),
        n <= a.len() + b.len(),
    ensures
        join(Seq::empty(), shift(n, a.len()), more(rest(a + seq![w] + b, shift(n, a.len()))))
            == moved_program(join(Seq::empty(), n, more(rest(a + b, n))), a.len()),
    decreases a.len() + b.len() - n, 1nat,
{
    lemma_rest_widened(a, b, w, n);
    if n <= a.len() {
        lemma_more_widened(a.skip(n as int), b, w);
    }
}

/// The expressions at the start of a source read the same with one more
/// byte of whitespace between tokens.
#[verifier::rlimit(50)]
pub proof fn lemma_more_widened(a: Seq<u8>, b: Seq<u8>, w: u8)
    requires
        is_space(w),
        gap(a, b),
    ensures
        more(a + seq![w] + b) == moved_program(more(a + b), a.len()),
    decreases a.len() + b.len(), 0nat,
{
    let s = a + b;
    lemma_expr_widened(a, b, w);
    lemma_space_widened(a, b, w);
    lemma_expr_consumes(s);
    match expr(s) {
        Outcome::Done(e, n) => {
            lemma_more_at(a, b, w, n);
            lemma_join_one(e, n, more(rest(s, n)));
            lemma_join_one(
                e,
                shift(n, a.len()),
                more(rest(a + seq![w] + b, shift(n, a.len()))),
            );
        },
        _ => {},
    }
}

/// Joining in two steps: first the place, then the expression.
pub proof fn lemma_join_one(e: ExprView, n: nat, found: Result<(Seq<ExprView>, nat), Error>)
    ensures
        join(seq![e], n, found) == (match join(Seq::empty(), n, found) {
            Ok((es, m)) => Ok::<(Seq<ExprView>, nat), Error>((seq![e] + es, m)),
            Err(err) => Err(err),
        }),
{
    match found {
        Ok((es, m)) => {
            assert(Seq::<ExprView>::empty() + es =~= es);
        },
        Err(_) => {},
    }
}

/// Whitespace between tokens does not matter: with one more byte of
/// whitespace at an end of the source, or between two bytes that no
/// token can hold side by side, a source is read as the same trees, or
/// fails with the same error, and what is left over after the program
/// is the same.
#[verifier::rlimit(50)]
pub proof fn lemma_whitespace_is_insignificant(a: Seq<u8>, b: Seq<u8>, w: u8)
    requires
        is_space(w),
        gap(a, b),
    ensures
        exprs(a + seq![w] + b) == moved_program(exprs(a + b), a.len()),
{
    let s = a + b;
    lemma_expr_widened(a, b, w);
    lemma_closes_at(a, b, w, 0);
    assert(rest(s, 0) =~= s);
    assert(rest(a + seq![w] + b, 0) =~= a + seq![w] + b);
    lemma_expr_consumes(s);
    match expr(s) {
        Outcome::Done(e, n) => {
            lemma_more_at(a, b, w, n);
            lemma_join_one(e, n, more(rest(s, n)));
            lemma_join_one(
                e,
                shift(n, a.len()),
                more(rest(a + seq![w] + b, shift(n, a.len()))),
            );
        },
        _ => {},
    }
}

} // verus!

//! Trees written out as source text, and what the grammar makes of that
//! text: a tree without errors reads back as itself, and a tree with an
//! error in it fails with the first one.

use crate::error::Error;
use crate::lang::ast::{checked, is_conditional, Command, ExprView, Op, PrimView};
use crate::lang::grammar::{
    atom, atom_at, closes, command, command_word, decimal, expr, exprs, in_class, is_digit,
    is_name_byte, is_space, join, later, lead, lemma_atom_leads, lemma_atom_words,
    lemma_command_leads, lemma_command_words, lemma_expr_consumes, lemma_op_leads, lemma_op_words,
    lemma_run_is_longest, lemma_sexp_inside_consumes, lemma_sexp_unfolds, longest_run, more, name,
    op, op_after_space, rest, run, sexp, sexp_end, sexp_inside, sexp_left, sexp_right, word,
    Class, Outcome,
};
use crate::lang::whitespace::{
    is_delimiter, lemma_expr_widened, lemma_more_widened, lemma_run_concat, moved, plain,
};
use crate::text::ascii;
use vstd::prelude::*;

verus! {

/// The word that an operator is written as. The operators that only
/// desugaring produces have none.
pub open spec fn op_word(o: Op) -> Seq<u8> {
    match o {
        Op::Add => word("+"),
        Op::And => word("&&"),
        Op::Bind => word(":="),
        Op::Div => word("/"),
        Op::Equiv => word("=="),
        Op::Gt => word(">"),
        Op::Lt => word("<"),
        Op::Max => word("max"),
        Op::MaxWrap => word("wrapped_max"),
        Op::Min => word("min"),
        Op::Mul => word("*"),
        Op::Or => word("||"),
        Op::Sub => word("-"),
        Op::If => word("if"),
        Op::NotIf => word("!if"),
        Op::Ewma => word("ewma"),
        Op::Reset => Seq::empty(),
        Op::Def => Seq::empty(),
    }
}

/// Whether an operator can be written in source text.
pub open spec fn has_word(o: Op) -> bool {
    o != Op::Reset && o != Op::Def
}

/// The word that a command is written as.
pub open spec fn command_text(c: Command) -> Seq<u8> {
    match c {
        Command::Fallthrough => word("fallthrough"),
        Command::Report => word("report"),
        Command::Reset => word("reset"),
    }
}

/// The decimal digits of `n`.
pub open spec fn digits(n: nat) -> Seq<u8>
    decreases n,
{
    if n < 10 {
        seq![(0x30 + n) as u8]
    } else {
        digits(n / 10).push((0x30 + n % 10) as u8)
    }
}

/// The bytes of a name that is made of ASCII characters.
pub open spec fn name_text(name: Seq<char>) -> Seq<u8> {
    Seq::new(name.len(), |i: int| name[i] as u8)
}

/// Whether `name` can be written so that the grammar takes it for a
/// name: it is what its bytes spell, is made of letters, digits, `.` and
/// `_`, and does not begin with a digit or with a word that stands for a
/// truth value.
pub open spec fn is_name(name: Seq<char>) -> bool {
    &&& name.len() > 0
    &&& ascii(name_text(name)) == name
    &&& forall|i: int| 0 <= i < name.len() ==> is_name_byte(#[trigger] name_text(name)[i])
    &&& !is_digit(name_text(name)[0])
    &&& !lead(name_text(name), "true")
    &&& !lead(name_text(name), "false")
}

/// Whether `name` begins with two underscores.
pub open spec fn is_reserved(name: Seq<char>) -> bool {
    lead(name_text(name), "__")
}

/// The source text of a tree: one space between the parts of an
/// s-expression, and none elsewhere.
pub open spec fn source(e: ExprView) -> Seq<u8>
    decreases e,
{
    match e {
        ExprView::Atom(PrimView::Bool(b)) => if b {
            word("true")
        } else {
            word("false")
        },
        ExprView::Atom(PrimView::Num(n)) => digits(n as nat),
        ExprView::Atom(PrimView::Name(n)) => name_text(n),
        ExprView::Cmd(c) => seq![0x28u8] + command_text(c) + seq![0x29u8],
        ExprView::Sexp(o, left, right) => seq![0x28u8] + op_word(o) + seq![0x20u8] + source(*left)
            + seq![0x20u8] + source(*right) + seq![0x29u8],
    }
}

/// Whether a tree can be written in source text: its names are names and
/// its operators have words.
pub open spec fn writable(e: ExprView) -> bool
    decreases e,
{
    match e {
        ExprView::Atom(PrimView::Name(n)) => is_name(n),
        ExprView::Atom(_) => true,
        ExprView::Cmd(_) => true,
        ExprView::Sexp(o, left, right) => has_word(o) && writable(*left) && writable(*right),
    }
}

/// The first error in a tree, in the order of its source text: a
/// reserved name where it stands, a conditional that is a left operand
/// where the s-expression around it closes.
pub open spec fn first_error(e: ExprView) -> Option<Error>
    decreases e,
{
    match e {
        ExprView::Atom(PrimView::Name(n)) => if is_reserved(n) {
            Some(Error::Reserved)
        } else {
            None
        },
        ExprView::Atom(_) => None,
        ExprView::Cmd(_) => None,
        ExprView::Sexp(o, left, right) => match first_error(*left) {
            Some(e) => Some(e),
            None => match first_error(*right) {
                Some(e) => Some(e),
                None => match checked(o, *left, *right) {
                    Ok(_) => None,
                    Err(e) => Some(e),
                },
            },
        },
    }
}

/// What the source text of `e` is read as.
pub open spec fn reading(e: ExprView) -> Outcome<ExprView> {
    match first_error(e) {
        Some(err) => Outcome::Fail(err),
        None => Outcome::Done(e, source(e).len()),
    }
}

/// Whether `tail` can follow a token: it is empty or begins with a delimiter.
pub open spec fn ends_token(tail: Seq<u8>) -> bool {
    tail.len() == 0 || is_delimiter(tail[0])
}

/// The digits of a number are digits, and spell the number.
pub proof fn lemma_digits(n: nat)
    ensures
        digits(n).len() > 0,
        forall|i: int| 0 <= i < digits(n).len() ==> is_digit(#[trigger] digits(n)[i]),
        decimal(digits(n)) == n,
    decreases n,
{
    if n < 10 {
        let d = digits(n);
        assert(d.drop_last() =~= Seq::<u8>::empty());
        assert(decimal(d.drop_last()) == 0);
    } else {
        lemma_digits(n / 10);
        let d = digits(n / 10);
        let x = (0x30 + n % 10) as u8;
        assert(d.push(x).drop_last() =~= d);
    }
}

/// A run that fills `x` and stops at the start of `y` is all of `x`.
pub proof fn lemma_run_fills(x: Seq<u8>, y: Seq<u8>, c: Class)
    requires
        forall|i: int| 0 <= i < x.len() ==> in_class(c, #[trigger] x[i]),
        y.len() == 0 || !in_class(c, y[0]),
    ensures
        run(x + y, c) == x.len(),
        (x + y).take(x.len() as int) == x,
{
    lemma_run_is_longest(x, c);
    assert(longest_run(x, x.len() as int, c));
    lemma_run_concat(x, y, c);
    assert((x + y).take(x.len() as int) =~= x);
}

/// No run of class `c` where the first byte is of another class.
pub proof fn lemma_run_none(s: Seq<u8>, c: Class)
    requires
        s.len() == 0 || !in_class(c, s[0]),
    ensures
        run(s, c) == 0,
{
}

/// Where a source begins with a byte that is neither whitespace nor an
/// opening parenthesis, only an atom can begin, and it begins at once.
pub proof fn lemma_not_open(s: Seq<u8>)
    requires
        s.len() > 0,
        !is_space(s[0]),
        s[0] != 0x28,
    ensures
        command(s) is Miss,
        sexp(s) is Miss,
        atom(s) == atom_at(s),
        expr(s) == (match atom_at(s) {
            Outcome::Done(p, n) => Outcome::Done(ExprView::Atom(p), n),
            Outcome::Fail(e) => Outcome::Fail(e),
            Outcome::Miss => Outcome::Miss,
        }),
{
    reveal(command);
    lemma_sexp_unfolds(s);
    assert(rest(s, 0) =~= s);
    match atom_at(s) {
        Outcome::Done(p, n) => {},
        _ => {},
    }
}

/// A word that looks like a token, followed by the end of a token,
/// leads where it leads without what follows.
pub proof fn lemma_lead_of_token(x: Seq<u8>, tail: Seq<u8>, lit: Seq<u8>)
    requires
        ends_token(tail),
        plain(lit),
    ensures
        lit.is_prefix_of(x + tail) == lit.is_prefix_of(x),
{
    crate::lang::grammar::lemma_prefix_bytes(lit, x + tail);
    crate::lang::grammar::lemma_prefix_bytes(lit, x);
    let k = x.len() as int;
    if lit.len() <= k {
        assert forall|i: int| 0 <= i < lit.len() implies (x + tail)[i] == x[i] by {}
    } else {
        if lit.is_prefix_of(x + tail) {
            assert((x + tail)[k] == lit[k]);
            assert((x + tail)[k] == tail[0]);
            assert(!is_delimiter(lit[k]));
            assert(false);
        }
    }
}

/// The source text of a truth value reads back as the truth value.
pub proof fn lemma_bool_reads_back(b: bool, tail: Seq<u8>)
    ensures
        expr(source(ExprView::Atom(PrimView::Bool(b))) + tail) == reading(
            ExprView::Atom(PrimView::Bool(b)),
        ),
{
    let s = source(ExprView::Atom(PrimView::Bool(b))) + tail;
    lemma_atom_words();
    lemma_atom_leads(s);
    reveal(atom_at);
    assert(s[0] == source(ExprView::Atom(PrimView::Bool(b)))[0]);
    if b {
        assert forall|i: int| 0 <= i < 4 implies s[i] == word("true")[i] by {}
    } else {
        assert forall|i: int| 0 <= i < 5 implies s[i] == word("false")[i] by {}
    }
    lemma_not_open(s);
}

/// The source text of a number reads back as the number.
pub proof fn lemma_num_reads_back(n: u64, tail: Seq<u8>)
    requires
        ends_token(tail),
    ensures
        expr(source(ExprView::Atom(PrimView::Num(n))) + tail) == reading(
            ExprView::Atom(PrimView::Num(n)),
        ),
{
    let d = digits(n as nat);
    let s = d + tail;
    lemma_digits(n as nat);
    assert(s[0] == d[0]);
    assert(is_digit(d[0]));
    lemma_atom_leads(s);
    reveal(atom_at);
    lemma_run_fills(d, tail, Class::Digit);
    lemma_not_open(s);
}

/// The source text of a name reads back as the name, unless the name is
/// reserved.
pub proof fn lemma_name_reads_back(nm: Seq<char>, tail: Seq<u8>)
    requires
        is_name(nm),
        ends_token(tail),
    ensures
        expr(source(ExprView::Atom(PrimView::Name(nm))) + tail) == reading(
            ExprView::Atom(PrimView::Name(nm)),
        ),
{
    let x = name_text(nm);
    let s = x + tail;
    assert(s[0] == x[0]);
    assert(is_name_byte(x[0]));
    crate::lang::whitespace::lemma_atom_words_plain();
    lemma_lead_of_token(x, tail, word("true"));
    lemma_lead_of_token(x, tail, word("false"));
    lemma_lead_of_token(x, tail, word("__"));
    lemma_atom_leads(s);
    reveal(atom_at);
    lemma_run_fills(x, tail, Class::Name);
    lemma_run_none(s, Class::Digit);
    lemma_not_open(s);
}

/// What is left of `x + y` after `x` is `y`.
pub proof fn lemma_rest_after(x: Seq<u8>, y: Seq<u8>)
    ensures
        rest(x + y, x.len()) == y,
{
    assert(rest(x + y, x.len()) =~= y);
}

/// The source text of a command reads back as the command.
pub proof fn lemma_command_reads_back(c: Command, tail: Seq<u8>)
    ensures
        expr(source(ExprView::Cmd(c)) + tail) == reading(ExprView::Cmd(c)),
{
    let cw = command_text(c);
    let s = source(ExprView::Cmd(c)) + tail;
    let u = cw + (seq![0x29u8] + tail);
    let x = seq![0x29u8] + tail;
    lemma_command_words();
    reveal(command);
    assert(s =~= seq![0x28u8] + u);
    assert(s[0] == 0x28);
    assert(rest(s, 0) =~= s);
    assert(rest(s, 1) =~= u);
    assert(u[0] == cw[0]);
    assert(rest(u, 0) =~= u);
    lemma_command_leads(u);
    match c {
        Command::Fallthrough => {
            assert forall|i: int| 0 <= i < 11 implies u[i] == word("fallthrough")[i] by {}
        },
        Command::Report => {
            assert forall|i: int| 0 <= i < 6 implies u[i] == word("report")[i] by {}
        },
        Command::Reset => {
            assert forall|i: int| 0 <= i < 5 implies u[i] == word("reset")[i] by {}
        },
    }
    lemma_rest_after(cw, x);
    assert(x[0] == 0x29);
    assert(command(s) == Outcome::Done(c, source(ExprView::Cmd(c)).len()));
}

/// The word of an operator, followed by a space, reads as the operator.
#[verifier::rlimit(50)]
pub proof fn lemma_op_word_reads(o: Op, y: Seq<u8>)
    requires
        has_word(o),
    ensures
        op_word(o).len() > 0,
        !is_space(op_word(o)[0]),
        op(op_word(o) + (seq![0x20u8] + y)) == Outcome::Done(o, op_word(o).len()),
        command_word(op_word(o) + (seq![0x20u8] + y)) is Miss,
{
    let s = op_word(o) + (seq![0x20u8] + y);
    lemma_op_words();
    lemma_op_leads(s);
    lemma_command_leads(s);
    reveal(op);
    assert(s[op_word(o).len() as int] == 0x20);
    match o {
        Op::Add => {
            assert forall|i: int| 0 <= i < 1 implies s[i] == word("+")[i] by {}
        },
        Op::And => {
            assert forall|i: int| 0 <= i < 2 implies s[i] == word("&&")[i] by {}
        },
        Op::Bind => {
            assert forall|i: int| 0 <= i < 2 implies s[i] == word(":=")[i] by {}
        },
        Op::Div => {
            assert forall|i: int| 0 <= i < 1 implies s[i] == word("/")[i] by {}
        },
        Op::Equiv => {
            assert forall|i: int| 0 <= i < 2 implies s[i] == word("==")[i] by {}
        },
        Op::Gt => {
            assert forall|i: int| 0 <= i < 1 implies s[i] == word(">")[i] by {}
        },
        Op::Lt => {
            assert forall|i: int| 0 <= i < 1 implies s[i] == word("<")[i] by {}
        },
        Op::Max => {
            assert forall|i: int| 0 <= i < 3 implies s[i] == word("max")[i] by {}
        },
        Op::MaxWrap => {
            assert forall|i: int| 0 <= i < 11 implies s[i] == word("wrapped_max")[i] by {}
        },
        Op::Min => {
            assert forall|i: int| 0 <= i < 3 implies s[i] == word("min")[i] by {}
        },
        Op::Mul => {
            assert forall|i: int| 0 <= i < 1 implies s[i] == word("*")[i] by {}
        },
        Op::Or => {
            assert forall|i: int| 0 <= i < 2 implies s[i] == word("||")[i] by {}
        },
        Op::Sub => {
            assert forall|i: int| 0 <= i < 1 implies s[i] == word("-")[i] by {}
        },
        Op::If => {
            assert forall|i: int| 0 <= i < 2 implies s[i] == word("if")[i] by {}
        },
        Op::NotIf => {
            assert forall|i: int| 0 <= i < 3 implies s[i] == word("!if")[i] by {}
        },
        Op::Ewma => {
            assert forall|i: int| 0 <= i < 4 implies s[i] == word("ewma")[i] by {}
        },
        _ => {},
    }
}

/// An expression after one space.
pub proof fn lemma_space_then_expr(z: Seq<u8>)
    ensures
        expr(seq![0x20u8] + z) == moved(expr(z), 0),
{
    let e = Seq::<u8>::empty();
    assert(e + seq![0x20u8] + z =~= seq![0x20u8] + z);
    assert(e + z =~= z);
    lemma_expr_widened(e, z, 0x20);
}

/// The text of `(op left right)`, after the opening parenthesis.
#[verifier::opaque]
pub open spec fn inside_text(o: Op, left: Seq<u8>, right: Seq<u8>, tail: Seq<u8>) -> Seq<u8> {
    op_word(o) + (seq![0x20u8] + (left + (seq![0x20u8] + (right + (seq![0x29u8] + tail)))))
}

/// What `(op left right)` is read as, given what its operands are read as.
pub open spec fn assembled(
    o: Op,
    n: nat,
    left: Outcome<ExprView>,
    right: Outcome<ExprView>,
) -> Outcome<ExprView> {
    match left {
        Outcome::Done(l, _) => match right {
            Outcome::Done(r, _) => match checked(o, l, r) {
                Ok(e) => Outcome::Done(e, n),
                Err(e) => Outcome::Fail(e),
            },
            _ => right,
        },
        _ => left,
    }
}

/// What follows the opening parenthesis of an s-expression is read as
/// the operator applied to what the operands are read as, where operator
/// and operands stand one after the other with one space before each
/// operand, and the closing parenthesis follows at once.
pub proof fn lemma_inside_assembles(
    u: Seq<u8>,
    o: Op,
    p: nat,
    z1: Seq<u8>,
    ln: nat,
    z2: Seq<u8>,
    rn: nat,
    t2: Seq<u8>,
)
    requires
        op_after_space(u) == Outcome::Done(o, p),
        rest(u, p) == seq![0x20u8] + z1,
        !(expr(z1) is Miss),
        expr(z1) matches Outcome::Done(_, n) ==> n == ln,
        rest(u, p + 1 + ln) == seq![0x20u8] + z2,
        !(expr(z2) is Miss),
        expr(z2) matches Outcome::Done(_, n) ==> n == rn,
        rest(u, p + 1 + ln + 1 + rn) == t2,
        closes(t2),
        run(t2, Class::Space) == 0,
    ensures
        sexp_inside(u) == assembled(o, p + 1 + ln + 1 + rn + 1, expr(z1), expr(z2)),
{
    reveal(sexp_inside);
    lemma_space_then_expr(z1);
    lemma_space_then_expr(z2);
    lemma_expr_consumes(z1);
    lemma_expr_consumes(z2);
    assert(sexp_inside(u) == sexp_left(u, o, p));
    match expr(z1) {
        Outcome::Done(l, _) => {
            let q = p + 1 + ln;
            assert(sexp_left(u, o, p) == sexp_right(u, o, l, q));
            match expr(z2) {
                Outcome::Done(r, _) => {
                    let c = q + 1 + rn;
                    assert(sexp_right(u, o, l, q) == sexp_end(u, o, l, r, c));
                },
                _ => {},
            }
        },
        _ => {},
    }
}

/// The parts of the text of `(op left right)`, after the opening
/// parenthesis: where each part begins.
pub proof fn lemma_inside_text(o: Op, left: Seq<u8>, right: Seq<u8>, tail: Seq<u8>)
    requires
        has_word(o),
    ensures
        ({
            let u = inside_text(o, left, right, tail);
            let p = op_word(o).len();
            let t2 = seq![0x29u8] + tail;
            let z2 = right + t2;
            let z1 = left + (seq![0x20u8] + z2);
            &&& op_after_space(u) == Outcome::Done(o, p)
            &&& command_word(u) is Miss
            &&& run(u, Class::Space) == 0
            &&& rest(u, p) == seq![0x20u8] + z1
            &&& rest(u, p + 1 + left.len()) == seq![0x20u8] + z2
            &&& rest(u, p + 1 + left.len() + 1 + right.len()) == t2
            &&& closes(t2)
            &&& run(t2, Class::Space) == 0
        }),
{
    let ow = op_word(o);
    let p = ow.len();
    let t2 = seq![0x29u8] + tail;
    let z2 = right + t2;
    let t1 = seq![0x20u8] + z2;
    let z1 = left + t1;
    let t0 = seq![0x20u8] + z1;
    let u = ow + t0;
    reveal(inside_text);
    lemma_op_word_reads(o, z1);
    assert(u[0] == ow[0]);
    assert(rest(u, 0) =~= u);
    assert(rest(u, p) =~= t0);
    assert(rest(u, p + 1 + left.len()) =~= t1);
    assert(rest(u, p + 1 + left.len() + 1 + right.len()) =~= t2);
    assert(t2[0] == 0x29);
}

/// The text of an s-expression is read as what follows its opening
/// parenthesis is read.
pub proof fn lemma_sexp_reads(u: Seq<u8>)
    requires
        command_word(u) is Miss,
        run(u, Class::Space) == 0,
    ensures
        expr(seq![0x28u8] + u) == later(1, sexp_inside(u)),
{
    let s = seq![0x28u8] + u;
    assert(s[0] == 0x28);
    assert(rest(s, 0) =~= s);
    assert(rest(s, 1) =~= u);
    assert(rest(u, 0) =~= u);
    assert(command(s) is Miss) by {
        reveal(command);
    }
    lemma_sexp_unfolds(s);
    lemma_sexp_inside_consumes(u);
    reveal(sexp);
}

/// The source text of an s-expression is an opening parenthesis and
/// what follows it.
pub proof fn lemma_sexp_source(o: Op, left: ExprView, right: ExprView, tail: Seq<u8>)
    ensures
        source(ExprView::Sexp(o, Box::new(left), Box::new(right))) + tail == seq![0x28u8]
            + inside_text(o, source(left), source(right), tail),
        source(ExprView::Sexp(o, Box::new(left), Box::new(right))).len() == 1 + op_word(o).len()
            + 1 + source(left).len() + 1 + source(right).len() + 1,
{
    reveal(inside_text);
    let e = ExprView::Sexp(o, Box::new(left), Box::new(right));
    assert(source(e) + tail =~= seq![0x28u8] + inside_text(
        o,
        source(left),
        source(right),
        tail,
    ));
}

/// What an s-expression is read as follows from what its operands are
/// read as.
pub proof fn lemma_reading_assembles(o: Op, left: ExprView, right: ExprView, n: nat)
    requires
        source(ExprView::Sexp(o, Box::new(left), Box::new(right))).len() == 1 + n,
    ensures
        reading(ExprView::Sexp(o, Box::new(left), Box::new(right))) == later(
            1,
            assembled(o, n, reading(left), reading(right)),
        ),
{
}

/// The source text of an s-expression reads back, if the source texts
/// of its operands do.
pub proof fn lemma_sexp_reads_back(o: Op, left: ExprView, right: ExprView, tail: Seq<u8>)
    requires
        has_word(o),
        expr(source(left) + (seq![0x20u8] + (source(right) + (seq![0x29u8] + tail))))
            == reading(left),
        expr(source(right) + (seq![0x29u8] + tail)) == reading(right),
    ensures
        expr(source(ExprView::Sexp(o, Box::new(left), Box::new(right))) + tail) == reading(
            ExprView::Sexp(o, Box::new(left), Box::new(right)),
        ),
{
    let ls = source(left);
    let rs = source(right);
    let u = inside_text(o, ls, rs, tail);
    let t2 = seq![0x29u8] + tail;
    let z2 = rs + t2;
    let z1 = ls + (seq![0x20u8] + z2);
    let n = op_word(o).len() + 1 + ls.len() + 1 + rs.len() + 1;
    lemma_inside_text(o, ls, rs, tail);
    lemma_inside_assembles(u, o, op_word(o).len(), z1, ls.len(), z2, rs.len(), t2);
    lemma_sexp_reads(u);
    lemma_sexp_source(o, left, right, tail);
    lemma_reading_assembles(o, left, right, n);
}

/// The source text of a tree that can be written reads back as the
/// tree, unless there is an error in the tree: then reading fails with
/// the first one.
pub proof fn lemma_source_reads_back(e: ExprView, tail: Seq<u8>)
    requires
        writable(e),
        ends_token(tail),
    ensures
        expr(source(e) + tail) == reading(e),
    decreases e,
{
    match e {
        ExprView::Atom(PrimView::Bool(b)) => lemma_bool_reads_back(b, tail),
        ExprView::Atom(PrimView::Num(n)) => lemma_num_reads_back(n, tail),
        ExprView::Atom(PrimView::Name(n)) => lemma_name_reads_back(n, tail),
        ExprView::Cmd(c) => lemma_command_reads_back(c, tail),
        ExprView::Sexp(o, left, right) => {
            let t2 = seq![0x29u8] + tail;
            let t1 = seq![0x20u8] + (source(*right) + t2);
            lemma_source_reads_back(*left, t1);
            lemma_source_reads_back(*right, t2);
            lemma_sexp_reads_back(o, *left, *right, tail);
        },
    }
}

/// The source text of the expressions that follow the first one of a
/// program: a space before each.
pub open spec fn following(es: Seq<ExprView>) -> Seq<u8>
    decreases es.len(),
{
    if es.len() == 0 {
        Seq::empty()
    } else {
        seq![0x20u8] + (source(es[0]) + following(es.skip(1)))
    }
}

/// The source text of a program: its expressions with one space between them.
pub open spec fn program_source(es: Seq<ExprView>) -> Seq<u8>
    recommends
        es.len() > 0,
{
    source(es[0]) + following(es.skip(1))
}

/// The first error in a sequence of trees.
pub open spec fn first_error_of(es: Seq<ExprView>) -> Option<Error>
    decreases es.len(),
{
    if es.len() == 0 {
        None
    } else {
        match first_error(es[0]) {
            Some(e) => Some(e),
            None => first_error_of(es.skip(1)),
        }
    }
}

/// What the source text of the expressions `es` is read as, the text
/// being `n` bytes long.
pub open spec fn reading_of(es: Seq<ExprView>, n: nat) -> Result<(Seq<ExprView>, nat), Error> {
    match first_error_of(es) {
        Some(err) => Err(err),
        None => Ok((es, n)),
    }
}

/// Nothing is read from an empty source.
pub proof fn lemma_nothing_to_read()
    ensures
        expr(Seq::<u8>::empty()) is Miss,
{
    let s = Seq::<u8>::empty();
    reveal(command);
    reveal(atom_at);
    lemma_sexp_unfolds(s);
    lemma_atom_leads(s);
    assert(rest(s, 0) =~= s);
}

/// The expressions at the start of a source, after one space.
pub proof fn lemma_space_then_more(z: Seq<u8>)
    ensures
        more(seq![0x20u8] + z) == (match more(z) {
            Ok((es, n)) => Ok::<(Seq<ExprView>, nat), Error>((es, n + 1)),
            Err(e) => Err(e),
        }),
{
    let e = Seq::<u8>::empty();
    assert(e + seq![0x20u8] + z =~= seq![0x20u8] + z);
    assert(e + z =~= z);
    lemma_more_widened(e, z, 0x20);
}

/// Reading goes on from an expression that was read to those that follow.
pub proof fn lemma_read_on(e: ExprView, x: Seq<u8>, y: Seq<u8>, es: Seq<ExprView>)
    requires
        es.len() > 0,
        es[0] == e,
        expr(x + y) == reading(e),
        x == source(e),
        more(y) == reading_of(es.skip(1), y.len()),
    ensures
        first_error(e) is None ==> join(seq![e], x.len(), more(rest(x + y, x.len())))
            == reading_of(es, (x + y).len()),
        first_error(e) is Some ==> reading_of(es, (x + y).len()) == Err::<
            (Seq<ExprView>, nat),
            Error,
        >(first_error(e)->0),
{
    lemma_rest_after(x, y);
    if first_error(e) is None && first_error_of(es.skip(1)) is None {
        assert(seq![e] + es.skip(1) =~= es);
    }
}

/// The expressions that follow the first one read back.
#[verifier::rlimit(50)]
pub proof fn lemma_following_reads_back(es: Seq<ExprView>)
    requires
        forall|i: int| 0 <= i < es.len() ==> writable(#[trigger] es[i]),
    ensures
        more(following(es)) == reading_of(es, following(es).len()),
        ends_token(following(es)),
    decreases es.len(),
{
    if es.len() == 0 {
        lemma_nothing_to_read();
        assert(es =~= Seq::<ExprView>::empty());
    } else {
        let x = source(es[0]);
        let y = following(es.skip(1));
        assert forall|i: int| 0 <= i < es.skip(1).len() implies writable(
            #[trigger] es.skip(1)[i],
        ) by {
            assert(es.skip(1)[i] == es[i + 1]);
        }
        lemma_following_reads_back(es.skip(1));
        lemma_source_reads_back(es[0], y);
        lemma_space_then_more(x + y);
        lemma_read_on(es[0], x, y, es);
        assert((seq![0x20u8] + (x + y))[0] == 0x20);
    }
}

/// The source text of a program reads back as the program, unless
/// there is an error in one of its trees: then reading fails with the
/// first one.
pub proof fn lemma_program_reads_back(es: Seq<ExprView>)
    requires
        es.len() > 0,
        forall|i: int| 0 <= i < es.len() ==> writable(#[trigger] es[i]),
    ensures
        exprs(program_source(es)) == reading_of(es, program_source(es).len()),
{
    let x = source(es[0]);
    let y = following(es.skip(1));
    assert forall|i: int| 0 <= i < es.skip(1).len() implies writable(#[trigger] es.skip(1)[i]) by {
        assert(es.skip(1)[i] == es[i + 1]);
    }
    lemma_following_reads_back(es.skip(1));
    lemma_source_reads_back(es[0], y);
    lemma_read_on(es[0], x, y, es);
}

/// Whether a reserved name stands anywhere in `e`.
pub open spec fn mentions_reserved(e: ExprView) -> bool
    decreases e,
{
    match e {
        ExprView::Atom(PrimView::Name(n)) => is_reserved(n),
        ExprView::Atom(_) => false,
        ExprView::Cmd(_) => false,
        ExprView::Sexp(_, left, right) => mentions_reserved(*left) || mentions_reserved(*right),
    }
}

/// Whether no conditional is a left operand anywhere in `e`.
pub open spec fn well_typed(e: ExprView) -> bool
    decreases e,
{
    match e {
        ExprView::Sexp(o, left, right) => checked(o, *left, *right) is Ok && well_typed(*left)
            && well_typed(*right),
        _ => true,
    }
}

/// In a well-typed tree the only error is a reserved name.
pub proof fn lemma_first_error_is_reserved(e: ExprView)
    requires
        well_typed(e),
    ensures
        mentions_reserved(e) ==> first_error(e) == Some(Error::Reserved),
        !mentions_reserved(e) ==> first_error(e) is None,
    decreases e,
{
    match e {
        ExprView::Sexp(o, left, right) => {
            lemma_first_error_is_reserved(*left);
            lemma_first_error_is_reserved(*right);
        },
        _ => {},
    }
}

/// In well-typed trees the only error is a reserved name.
pub proof fn lemma_first_error_of_is_reserved(es: Seq<ExprView>)
    requires
        forall|i: int| 0 <= i < es.len() ==> well_typed(#[trigger] es[i]),
    ensures
        (exists|i: int| 0 <= i < es.len() && mentions_reserved(#[trigger] es[i]))
            ==> first_error_of(es) == Some(Error::Reserved),
        (forall|i: int| 0 <= i < es.len() ==> !mentions_reserved(#[trigger] es[i]))
            ==> first_error_of(es) is None,
    decreases es.len(),
{
    if es.len() > 0 {
        let t = es.skip(1);
        assert forall|i: int| 0 <= i < t.len() implies well_typed(#[trigger] t[i]) by {
            assert(t[i] == es[i + 1]);
        }
        lemma_first_error_is_reserved(es[0]);
        lemma_first_error_of_is_reserved(t);
        if exists|i: int| 0 <= i < es.len() && mentions_reserved(#[trigger] es[i]) {
            let i = choose|i: int| 0 <= i < es.len() && mentions_reserved(#[trigger] es[i]);
            if i > 0 {
                assert(t[i - 1] == es[i]);
            }
        }
        if forall|i: int| 0 <= i < es.len() ==> !mentions_reserved(#[trigger] es[i]) {
            assert forall|i: int| 0 <= i < t.len() implies !mentions_reserved(#[trigger] t[i]) by {
                assert(t[i] == es[i + 1]);
            }
        }
    }
}

/// A source with a reserved name in it fails as reserved: the source
/// text of well-typed trees, one of which holds a name that begins with
/// two underscores, is refused with that error.
pub proof fn lemma_reserved_name_is_refused(es: Seq<ExprView>)
    requires
        es.len() > 0,
        forall|i: int| 0 <= i < es.len() ==> writable(#[trigger] es[i]),
        forall|i: int| 0 <= i < es.len() ==> well_typed(#[trigger] es[i]),
        exists|i: int| 0 <= i < es.len() && mentions_reserved(#[trigger] es[i]),
    ensures
        exprs(program_source(es)) == Err::<(Seq<ExprView>, nat), Error>(Error::Reserved),
{
    lemma_program_reads_back(es);
    lemma_first_error_of_is_reserved(es);
}

/// A source without errors reads back: the source text of well-typed
/// trees without reserved names is read as those trees, to its end.
pub proof fn lemma_program_round_trip(es: Seq<ExprView>)
    requires
        es.len() > 0,
        forall|i: int| 0 <= i < es.len() ==> writable(#[trigger] es[i]),
        forall|i: int| 0 <= i < es.len() ==> well_typed(#[trigger] es[i]),
        forall|i: int| 0 <= i < es.len() ==> !mentions_reserved(#[trigger] es[i]),
    ensures
        exprs(program_source(es)) == Ok::<(Seq<ExprView>, nat), Error>(
            (es, program_source(es).len()),
        ),
{
    lemma_program_reads_back(es);
    lemma_first_error_of_is_reserved(es);
}

/// A conditional cannot be a left operand: `(op (if a b) c)` fails as
/// ill-typed under every operator, `bind` too, and so does
/// `(op (!if a b) c)`. The operands themselves are free of errors.
pub proof fn lemma_conditional_is_not_a_value(
    o: Op,
    cond: Op,
    a: ExprView,
    b: ExprView,
    c: ExprView,
    tail: Seq<u8>,
)
    requires
        has_word(o),
        cond == Op::If || cond == Op::NotIf,
        writable(a) && writable(b) && writable(c),
        first_error(ExprView::Sexp(cond, Box::new(a), Box::new(b))) is None,
        first_error(c) is None,
        ends_token(tail),
    ensures
        expr(
            source(
                ExprView::Sexp(
                    o,
                    Box::new(ExprView::Sexp(cond, Box::new(a), Box::new(b))),
                    Box::new(c),
                ),
            ) + tail,
        ) == Outcome::<ExprView>::Fail(Error::StaticType),
{
    let inner = ExprView::Sexp(cond, Box::new(a), Box::new(b));
    let e = ExprView::Sexp(o, Box::new(inner), Box::new(c));
    assert(writable(e)) by {
        reveal_with_fuel(writable, 3);
    }
    lemma_source_reads_back(e, tail);
}

/// A conditional can be a right operand, that of `bind` among others:
/// `(:= x (if a b))` is read as written, and so is `(:= x (!if a b))`,
/// where `x` is no conditional itself.
pub proof fn lemma_conditional_can_be_bound(
    o: Op,
    cond: Op,
    x: ExprView,
    a: ExprView,
    b: ExprView,
    tail: Seq<u8>,
)
    requires
        has_word(o),
        cond == Op::If || cond == Op::NotIf,
        writable(x) && writable(a) && writable(b),
        first_error(x) is None,
        !is_conditional(x),
        first_error(ExprView::Sexp(cond, Box::new(a), Box::new(b))) is None,
        ends_token(tail),
    ensures
        ({
            let e = ExprView::Sexp(
                o,
                Box::new(x),
                Box::new(ExprView::Sexp(cond, Box::new(a), Box::new(b))),
            );
            expr(source(e) + tail) == Outcome::Done(e, source(e).len())
        }),
{
    let inner = ExprView::Sexp(cond, Box::new(a), Box::new(b));
    let e = ExprView::Sexp(o, Box::new(x), Box::new(inner));
    assert(writable(e)) by {
        reveal_with_fuel(writable, 3);
    }
    lemma_source_reads_back(e, tail);
}

/// Whether a tree can be written and is free of errors.
pub open spec fn sound(e: ExprView) -> bool {
    writable(e) && first_error(e) is None
}

/// A name that the grammar reads is a name that can be written, and is
/// not reserved.
pub proof fn lemma_atom_is_sound(s: Seq<u8>)
    ensures
        atom_at(s) matches Outcome::Done(p, _) ==> sound(ExprView::Atom(p)),
        atom(s) matches Outcome::Done(p, _) ==> sound(ExprView::Atom(p)),
{
    reveal(atom_at);
    lemma_atom_is_sound_at(s);
    lemma_atom_is_sound_at(rest(s, run(s, Class::Space)));
}

/// A name that the grammar reads at the very start of `s` is a name
/// that can be written, and is not reserved.
pub proof fn lemma_atom_is_sound_at(s: Seq<u8>)
    ensures
        atom_at(s) matches Outcome::Done(p, _) ==> sound(ExprView::Atom(p)),
{
    reveal(atom_at);
    match atom_at(s) {
        Outcome::Done(PrimView::Name(nm), n) => {
            let b = s.take(n as int);
            lemma_run_is_longest(s, Class::Name);
            lemma_run_is_longest(s, Class::Digit);
            assert(nm == ascii(b));
            assert(name_text(nm) =~= b) by {
                assert forall|i: int| 0 <= i < b.len() implies name_text(nm)[i] == b[i] by {
                    assert(in_class(Class::Name, s[i]));
                    assert(b[i] == s[i]);
                    assert(b[i] < 0x80);
                }
            }
            assert forall|i: int| 0 <= i < nm.len() implies is_name_byte(
                #[trigger] name_text(nm)[i],
            ) by {
                assert(in_class(Class::Name, s[i]));
            }
            assert(b[0] == s[0]);
            lemma_atom_leads(s);
            lemma_atom_leads(b);
            assert(b.len() >= 2 ==> b[1] == s[1]);
            assert(b.len() >= 3 ==> b[2] == s[2]);
            assert(b.len() >= 4 ==> b[3] == s[3]);
            assert(b.len() >= 5 ==> b[4] == s[4]);
        },
        _ => {},
    }
}

/// An operator that the grammar reads has a word.
pub proof fn lemma_op_is_written(s: Seq<u8>)
    ensures
        op(s) matches Outcome::Done(o, _) ==> has_word(o),
        op_after_space(s) matches Outcome::Done(o, _) ==> has_word(o),
{
    reveal(op);
    assert(op(rest(s, run(s, Class::Space))) matches Outcome::Done(o, _) ==> has_word(o)) by {
        reveal(op);
    }
}

/// What the grammar reads can be written, and is free of errors.
pub proof fn lemma_read_is_sound(s: Seq<u8>)
    ensures
        sexp(s) matches Outcome::Done(e, _) ==> sound(e),
        expr(s) matches Outcome::Done(e, _) ==> sound(e),
    decreases s.len(), 1nat,
{
    lemma_atom_is_sound(s);
    lemma_sexp_unfolds(s);
    reveal(sexp);
    let w = run(s, Class::Space);
    let t = rest(s, w);
    if t.len() > 0 && t[0] == 0x28 {
        lemma_inside_is_sound(rest(t, 1));
    }
}

/// What the grammar reads after an opening parenthesis can be written,
/// and is free of errors.
pub proof fn lemma_inside_is_sound(u: Seq<u8>)
    ensures
        sexp_inside(u) matches Outcome::Done(e, _) ==> sound(e),
    decreases u.len(), 2nat,
{
    reveal(sexp_inside);
    lemma_op_is_written(u);
    match op_after_space(u) {
        Outcome::Done(o, p) => {
            lemma_read_is_sound(rest(u, p));
            match expr(rest(u, p)) {
                Outcome::Done(left, l) => {
                    lemma_read_is_sound(rest(u, p + l));
                },
                _ => {},
            }
        },
        _ => {},
    }
}

/// The trees that the grammar reads one after the other can be written,
/// and are free of errors.
pub proof fn lemma_more_is_sound(s: Seq<u8>)
    ensures
        more(s) matches Ok((es, _)) ==> first_error_of(es) is None && forall|i: int|
            0 <= i < es.len() ==> writable(#[trigger] es[i]),
    decreases s.len(),
{
    lemma_read_is_sound(s);
    lemma_expr_consumes(s);
    match expr(s) {
        Outcome::Done(e, n) => {
            lemma_more_is_sound(rest(s, n));
            match more(rest(s, n)) {
                Ok((es, m)) => {
                    lemma_sound_joined(e, es);
                },
                Err(_) => {},
            }
        },
        _ => {},
    }
}

/// A sound tree before sound trees makes sound trees.
pub proof fn lemma_sound_joined(e: ExprView, es: Seq<ExprView>)
    requires
        sound(e),
        first_error_of(es) is None,
        forall|i: int| 0 <= i < es.len() ==> writable(#[trigger] es[i]),
    ensures
        first_error_of(seq![e] + es) is None,
        forall|i: int| 0 <= i < (seq![e] + es).len() ==> writable(#[trigger] (seq![e] + es)[i]),
        (seq![e] + es).len() > 0,
{
    let all = seq![e] + es;
    assert(all[0] == e);
    assert(all.skip(1) =~= es);
    assert forall|i: int| 0 <= i < all.len() implies writable(#[trigger] all[i]) by {
        if i > 0 {
            assert(all[i] == es[i - 1]);
        }
    }
}

/// Reading is settled by the trees that were read: whatever source a
/// program was read from, the source text of its trees is read as the
/// same trees.
pub proof fn lemma_read_then_written(s: Seq<u8>)
    ensures
        exprs(s) matches Ok((es, _)) ==> es.len() > 0 && exprs(program_source(es)) == Ok::<
            (Seq<ExprView>, nat),
            Error,
        >((es, program_source(es).len())),
{
    lemma_read_is_sound(s);
    lemma_expr_consumes(s);
    match expr(s) {
        Outcome::Done(e, n) => {
            lemma_more_is_sound(rest(s, n));
            match more(rest(s, n)) {
                Ok((es, m)) => {
                    lemma_sound_joined(e, es);
                    lemma_program_reads_back(seq![e] + es);
                },
                Err(_) => {},
            }
        },
        _ => {},
    }
}

/// A tree without an error is well-typed and holds no reserved name.
pub proof fn lemma_sound_is_clean(e: ExprView)
    requires
        first_error(e) is None,
    ensures
        well_typed(e),
        !mentions_reserved(e),
    decreases e,
{
    match e {
        ExprView::Sexp(o, left, right) => {
            lemma_sound_is_clean(*left);
            lemma_sound_is_clean(*right);
        },
        _ => {},
    }
}

/// Trees without an error are free of errors one by one.
pub proof fn lemma_first_error_of_none(es: Seq<ExprView>, i: int)
    requires
        first_error_of(es) is None,
        0 <= i < es.len(),
    ensures
        first_error(es[i]) is None,
    decreases es.len(),
{
    if i > 0 {
        lemma_first_error_of_none(es.skip(1), i - 1);
        assert(es.skip(1)[i - 1] == es[i]);
    }
}

/// Whatever source a program is read from, the trees that are read hold
/// no reserved name, have no conditional as a left operand, and use no
/// operator but those that have a word.
pub proof fn lemma_read_is_clean(s: Seq<u8>)
    ensures
        exprs(s) matches Ok((es, _)) ==> forall|i: int|
            0 <= i < es.len() ==> {
                &&& writable(#[trigger] es[i])
                &&& well_typed(es[i])
                &&& !mentions_reserved(es[i])
            },
{
    lemma_read_is_sound(s);
    lemma_expr_consumes(s);
    match expr(s) {
        Outcome::Done(e, n) => {
            lemma_more_is_sound(rest(s, n));
            match more(rest(s, n)) {
                Ok((es, m)) => {
                    lemma_sound_joined(e, es);
                    let all = seq![e] + es;
                    assert forall|i: int| 0 <= i < all.len() implies {
                        &&& writable(#[trigger] all[i])
                        &&& well_typed(all[i])
                        &&& !mentions_reserved(all[i])
                    } by {
                        lemma_first_error_of_none(all, i);
                        lemma_sound_is_clean(all[i]);
                    }
                },
                Err(_) => {},
            }
        },
        _ => {},
    }
}

} // verus!

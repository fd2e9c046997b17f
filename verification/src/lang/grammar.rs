//! The surface syntax of control programs, as functions from source bytes
//! to syntax trees.
//!
//! ```text
//! program := expr+
//! expr    := cmd | sexp | atom
//! cmd     := '(' ('fallthrough' | 'report' | 'reset') ')'
//! sexp    := '(' op expr expr ')'
//! atom    := 'true' | 'false' | '+infinity' | integer | name
//! ```
//!
//! Space, tab, line feed and carriage return may stand before every token.
//! Alternatives are tried in the order in which they are written, and a
//! word is recognized wherever the input begins with it: `trueish` is
//! `true` followed by the name `ish`.
//!
//! The source is read from left to right, and the first error that is met
//! is the result: a reserved name or a number that does not fit 64 bits
//! where it stands, a conditional that is a left operand where the
//! s-expression around it closes. After an opening parenthesis that opens
//! no command an s-expression has to follow; where a part of it is
//! missing, the source is incomplete if it ends there, and wrong if
//! another byte stands there.
//!
//! A program ends where no further expression begins: at the end of the
//! input, or before a byte that can start none, such as an unmatched `)`.
//! What is left of the source is not looked at.

use crate::error::Error;
use crate::lang::ast::{checked, Command, ExprView, Op, PrimView};
use crate::text::ascii;
use vstd::prelude::*;
use vstd::utf8::{encode_utf8, is_ascii_chars_encode_utf8};

verus! {

/// The classes of bytes that tokens are made of.
pub enum Class {
    /// Space, tab, line feed, carriage return.
    Space,
    /// `0` to `9`.
    Digit,
    /// Letters, digits, `.` and `_`.
    Name,
}

/// Space, tab, line feed or carriage return.
pub open spec fn is_space(b: u8) -> bool {
    b == 0x20 || b == 0x09 || b == 0x0a || b == 0x0d
}

/// `0` to `9`.
pub open spec fn is_digit(b: u8) -> bool {
    0x30 <= b <= 0x39
}

/// `A` to `Z` or `a` to `z`.
pub open spec fn is_alphabetic(b: u8) -> bool {
    (0x41 <= b <= 0x5a) || (0x61 <= b <= 0x7a)
}

/// A letter, a digit, `.` or `_`.
pub open spec fn is_name_byte(b: u8) -> bool {
    is_alphabetic(b) || is_digit(b) || b == 0x2e || b == 0x5f
}

/// Whether the byte `b` is of the class `c`.
pub open spec fn in_class(c: Class, b: u8) -> bool {
    match c {
        Class::Space => is_space(b),
        Class::Digit => is_digit(b),
        Class::Name => is_name_byte(b),
    }
}

/// How many bytes at the start of `s` are of class `c`.
pub open spec fn run(s: Seq<u8>, c: Class) -> nat
    decreases s.len(),
{
    if s.len() > 0 && in_class(c, s[0]) {
        1 + run(s.skip(1), c)
    } else {
        0
    }
}

/// Whether the first `n` bytes of `s` are of class `c` and the next one,
/// if there is one, is not.
pub open spec fn longest_run(s: Seq<u8>, n: int, c: Class) -> bool {
    &&& 0 <= n <= s.len()
    &&& forall|i: int| 0 <= i < n ==> in_class(c, #[trigger] s[i])
    &&& n < s.len() ==> !in_class(c, s[n])
}

/// `run` gives the length of the longest run, and nothing else is one.
pub proof fn lemma_run_is_longest(s: Seq<u8>, c: Class)
    ensures
        longest_run(s, run(s, c) as int, c),
        forall|n: int| longest_run(s, n, c) ==> n == run(s, c),
    decreases s.len(),
{
    if s.len() > 0 && in_class(c, s[0]) {
        let t = s.skip(1);
        lemma_run_is_longest(t, c);
        let r = run(s, c) as int;
        assert forall|i: int| 0 <= i < r implies in_class(c, #[trigger] s[i]) by {
            if i > 0 {
                assert(s[i] == t[i - 1]);
            }
        }
        if r < s.len() {
            assert(s[r] == t[r - 1]);
        }
        assert forall|n: int| longest_run(s, n, c) implies n == run(s, c) by {
            assert(n > 0);
            assert forall|i: int| 0 <= i < n - 1 implies in_class(c, #[trigger] t[i]) by {
                assert(t[i] == s[i + 1]);
            }
            if n - 1 < t.len() {
                assert(t[n - 1] == s[n]);
            }
            assert(longest_run(t, n - 1, c));
        }
    } else {
        assert forall|n: int| longest_run(s, n, c) implies n == 0 by {
            if n > 0 {
                assert(in_class(c, s[0]));
            }
        }
    }
}

/// What is left of `s` after its first `n` bytes.
pub open spec fn rest(s: Seq<u8>, n: nat) -> Seq<u8> {
    if n <= s.len() {
        s.skip(n as int)
    } else {
        Seq::empty()
    }
}

/// The bytes that spell `lit`.
pub open spec fn word(lit: &str) -> Seq<u8> {
    encode_utf8(lit@)
}

/// Whether `s` begins with the bytes that spell `lit`.
pub open spec fn lead(s: Seq<u8>, lit: &str) -> bool {
    word(lit).is_prefix_of(s)
}

/// The number that the decimal digits `digits` spell.
pub open spec fn decimal(digits: Seq<u8>) -> nat
    decreases digits.len(),
{
    if digits.len() == 0 {
        0
    } else {
        10 * decimal(digits.drop_last()) + (digits.last() - 0x30) as nat
    }
}

/// What reading one construct from the start of an input comes to.
pub enum Outcome<T> {
    /// The input does not begin with the construct.
    Miss,
    /// The construct, and how many bytes of the input spell it.
    Done(T, nat),
    /// The input begins with the construct, or is bound to, and is wrong.
    Fail(Error),
}

/// The error for an input that lacks what has to come next: the source
/// ended too early if only whitespace is left, and is wrong otherwise.
pub open spec fn missing(s: Seq<u8>) -> Error {
    if run(s, Class::Space) >= s.len() {
        Error::Incomplete
    } else {
        Error::Parse
    }
}

/// A number: decimal digits. One that does not fit 64 bits is an error.
pub open spec fn num(s: Seq<u8>) -> Outcome<u64> {
    let n = run(s, Class::Digit);
    if n == 0 {
        Outcome::Miss
    } else if decimal(s.take(n as int)) > u64::MAX {
        Outcome::Fail(Error::Parse)
    } else {
        Outcome::Done(decimal(s.take(n as int)) as u64, n)
    }
}

/// A name: letters, digits, `.` and `_`. One that begins with two
/// underscores is reserved, and an error.
pub open spec fn name(s: Seq<u8>) -> Outcome<Seq<char>> {
    let n = run(s, Class::Name);
    if n == 0 {
        Outcome::Miss
    } else if lead(s, "__") {
        Outcome::Fail(Error::Reserved)
    } else {
        Outcome::Done(ascii(s.take(n as int)), n)
    }
}

/// An atom at the very start of `s`.
#[verifier::opaque]
pub open spec fn atom_at(s: Seq<u8>) -> Outcome<PrimView> {
    if lead(s, "true") {
        Outcome::Done(PrimView::Bool(true), word("true").len())
    } else if lead(s, "false") {
        Outcome::Done(PrimView::Bool(false), word("false").len())
    } else if lead(s, "+infinity") {
        Outcome::Done(PrimView::Num(u64::MAX), word("+infinity").len())
    } else {
        match num(s) {
            Outcome::Done(n, k) => Outcome::Done(PrimView::Num(n), k),
            Outcome::Fail(e) => Outcome::Fail(e),
            Outcome::Miss => match name(s) {
                Outcome::Done(n, k) => Outcome::Done(PrimView::Name(n), k),
                Outcome::Fail(e) => Outcome::Fail(e),
                Outcome::Miss => Outcome::Miss,
            },
        }
    }
}

/// `o` found after `w` more bytes.
pub open spec fn later<T>(w: nat, o: Outcome<T>) -> Outcome<T> {
    match o {
        Outcome::Done(v, n) => Outcome::Done(v, w + n),
        _ => o,
    }
}

/// An atom, after whitespace.
pub open spec fn atom(s: Seq<u8>) -> Outcome<PrimView> {
    let w = run(s, Class::Space);
    later(w, atom_at(rest(s, w)))
}

/// An operator at the very start of `s`. Where an atom stands in place of
/// the operator, the source is wrong.
#[verifier::opaque]
pub open spec fn op(s: Seq<u8>) -> Outcome<Op> {
    if lead(s, "+") {
        Outcome::Done(Op::Add, word("+").len())
    } else if lead(s, "add") {
        Outcome::Done(Op::Add, word("add").len())
    } else if lead(s, "&&") {
        Outcome::Done(Op::And, word("&&").len())
    } else if lead(s, "and") {
        Outcome::Done(Op::And, word("and").len())
    } else if lead(s, ":=") {
        Outcome::Done(Op::Bind, word(":=").len())
    } else if lead(s, "bind") {
        Outcome::Done(Op::Bind, word("bind").len())
    } else if lead(s, "if") {
        Outcome::Done(Op::If, word("if").len())
    } else if lead(s, "/") {
        Outcome::Done(Op::Div, word("/").len())
    } else if lead(s, "div") {
        Outcome::Done(Op::Div, word("div").len())
    } else if lead(s, "==") {
        Outcome::Done(Op::Equiv, word("==").len())
    } else if lead(s, "eq") {
        Outcome::Done(Op::Equiv, word("eq").len())
    } else if lead(s, "ewma") {
        Outcome::Done(Op::Ewma, word("ewma").len())
    } else if lead(s, ">") {
        Outcome::Done(Op::Gt, word(">").len())
    } else if lead(s, "gt") {
        Outcome::Done(Op::Gt, word("gt").len())
    } else if lead(s, "<") {
        Outcome::Done(Op::Lt, word("<").len())
    } else if lead(s, "lt") {
        Outcome::Done(Op::Lt, word("lt").len())
    } else if lead(s, "wrapped_max") {
        Outcome::Done(Op::MaxWrap, word("wrapped_max").len())
    } else if lead(s, "max") {
        Outcome::Done(Op::Max, word("max").len())
    } else if lead(s, "min") {
        Outcome::Done(Op::Min, word("min").len())
    } else if lead(s, "*") {
        Outcome::Done(Op::Mul, word("*").len())
    } else if lead(s, "mul") {
        Outcome::Done(Op::Mul, word("mul").len())
    } else if lead(s, "||") {
        Outcome::Done(Op::Or, word("||").len())
    } else if lead(s, "or") {
        Outcome::Done(Op::Or, word("or").len())
    } else if lead(s, "!if") {
        Outcome::Done(Op::NotIf, word("!if").len())
    } else if lead(s, "-") {
        Outcome::Done(Op::Sub, word("-").len())
    } else if lead(s, "sub") {
        Outcome::Done(Op::Sub, word("sub").len())
    } else {
        match atom(s) {
            Outcome::Done(_, _) => Outcome::Fail(Error::Parse),
            Outcome::Fail(e) => Outcome::Fail(e),
            Outcome::Miss => Outcome::Miss,
        }
    }
}

/// The word of a command at the very start of `s`.
pub open spec fn command_word(s: Seq<u8>) -> Outcome<Command> {
    if lead(s, "fallthrough") {
        Outcome::Done(Command::Fallthrough, word("fallthrough").len())
    } else if lead(s, "report") {
        Outcome::Done(Command::Report, word("report").len())
    } else if lead(s, "reset") {
        Outcome::Done(Command::Reset, word("reset").len())
    } else {
        Outcome::Miss
    }
}

/// Whether `s` is, after whitespace, at a closing parenthesis.
pub open spec fn closes(s: Seq<u8>) -> bool {
    run(s, Class::Space) < s.len() && s[run(s, Class::Space) as int] == 0x29
}

/// A command: `(`, a command's word and `)`, with whitespace where it likes.
#[verifier::opaque]
pub open spec fn command(s: Seq<u8>) -> Outcome<Command> {
    let w = run(s, Class::Space);
    let t = rest(s, w);
    if t.len() > 0 && t[0] == 0x28 {
        let u = rest(t, 1);
        let v = run(u, Class::Space);
        match command_word(rest(u, v)) {
            Outcome::Done(c, k) => {
                let x = rest(u, v + k);
                if closes(x) {
                    Outcome::Done(c, w + 1 + v + k + run(x, Class::Space) + 1)
                } else {
                    Outcome::Miss
                }
            },
            _ => Outcome::Miss,
        }
    } else {
        Outcome::Miss
    }
}

/// An s-expression: `(`, an operator, two expressions and `)`. Once the
/// parenthesis is open, whatever else follows is an error.
#[verifier::opaque]
pub open spec fn sexp(s: Seq<u8>) -> Outcome<ExprView>
    decreases s.len(), 0nat,
{
    let w = run(s, Class::Space);
    let t = rest(s, w);
    if t.len() > 0 && t[0] == 0x28 {
        let u = rest(t, 1);
        let v = run(u, Class::Space);
        match op(rest(u, v)) {
            Outcome::Miss => Outcome::Fail(missing(u)),
            Outcome::Fail(e) => Outcome::Fail(e),
            Outcome::Done(o, k) => {
                let a = v + k;
                match expr(rest(u, a)) {
                    Outcome::Miss => Outcome::Fail(missing(rest(u, a))),
                    Outcome::Fail(e) => Outcome::Fail(e),
                    Outcome::Done(left, l) => {
                        let b = a + l;
                        match expr(rest(u, b)) {
                            Outcome::Miss => Outcome::Fail(missing(rest(u, b))),
                            Outcome::Fail(e) => Outcome::Fail(e),
                            Outcome::Done(right, r) => {
                                let x = rest(u, b + r);
                                if closes(x) {
                                    match checked(o, left, right) {
                                        Ok(e) => Outcome::Done(
                                            e,
                                            w + 1 + b + r + run(x, Class::Space) + 1,
                                        ),
                                        Err(e) => Outcome::Fail(e),
                                    }
                                } else {
                                    Outcome::Fail(missing(x))
                                }
                            },
                        }
                    },
                }
            },
        }
    } else {
        Outcome::Miss
    }
}

/// An expression: a command, an s-expression or an atom.
pub open spec fn expr(s: Seq<u8>) -> Outcome<ExprView>
    decreases s.len(), 1nat,
{
    match command(s) {
        Outcome::Done(c, n) => Outcome::Done(ExprView::Cmd(c), n),
        _ => match sexp(s) {
            Outcome::Done(e, n) => Outcome::Done(e, n),
            Outcome::Fail(e) => Outcome::Fail(e),
            Outcome::Miss => match atom(s) {
                Outcome::Done(p, n) => Outcome::Done(ExprView::Atom(p), n),
                Outcome::Fail(e) => Outcome::Fail(e),
                Outcome::Miss => Outcome::Miss,
            },
        },
    }
}

/// The bytes of the words that atoms are made of.
pub proof fn lemma_atom_words()
    ensures
        word("true") == seq![0x74u8, 0x72, 0x75, 0x65],
        word("false") == seq![0x66u8, 0x61, 0x6c, 0x73, 0x65],
        word("+infinity") == seq![0x2bu8, 0x69, 0x6e, 0x66, 0x69, 0x6e, 0x69, 0x74, 0x79],
        word("__") == seq![0x5fu8, 0x5f],
{
    reveal_strlit("true");
    is_ascii_chars_encode_utf8("true"@);
    assert(word("true") =~= seq![0x74u8, 0x72, 0x75, 0x65]);
    reveal_strlit("false");
    is_ascii_chars_encode_utf8("false"@);
    assert(word("false") =~= seq![0x66u8, 0x61, 0x6c, 0x73, 0x65]);
    reveal_strlit("+infinity");
    is_ascii_chars_encode_utf8("+infinity"@);
    assert(word("+infinity") =~= seq![0x2bu8, 0x69, 0x6e, 0x66, 0x69, 0x6e, 0x69, 0x74, 0x79]);
    reveal_strlit("__");
    is_ascii_chars_encode_utf8("__"@);
    assert(word("__") =~= seq![0x5fu8, 0x5f]);
}

/// The bytes of the words that stand for operators.
pub proof fn lemma_op_words()
    ensures
        word("+") == seq![0x2bu8],
        word("add") == seq![0x61u8, 0x64, 0x64],
        word("&&") == seq![0x26u8, 0x26],
        word("and") == seq![0x61u8, 0x6e, 0x64],
        word(":=") == seq![0x3au8, 0x3d],
        word("bind") == seq![0x62u8, 0x69, 0x6e, 0x64],
        word("if") == seq![0x69u8, 0x66],
        word("/") == seq![0x2fu8],
        word("div") == seq![0x64u8, 0x69, 0x76],
        word("==") == seq![0x3du8, 0x3d],
        word("eq") == seq![0x65u8, 0x71],
        word("ewma") == seq![0x65u8, 0x77, 0x6d, 0x61],
        word(">") == seq![0x3eu8],
        word("gt") == seq![0x67u8, 0x74],
        word("<") == seq![0x3cu8],
        word("lt") == seq![0x6cu8, 0x74],
        word("wrapped_max") == seq![0x77u8, 0x72, 0x61, 0x70, 0x70, 0x65, 0x64, 0x5f, 0x6d, 0x61, 0x78],
        word("max") == seq![0x6du8, 0x61, 0x78],
        word("min") == seq![0x6du8, 0x69, 0x6e],
        word("*") == seq![0x2au8],
        word("mul") == seq![0x6du8, 0x75, 0x6c],
        word("||") == seq![0x7cu8, 0x7c],
        word("or") == seq![0x6fu8, 0x72],
        word("!if") == seq![0x21u8, 0x69, 0x66],
        word("-") == seq![0x2du8],
        word("sub") == seq![0x73u8, 0x75, 0x62],
{
    reveal_strlit("+");
    is_ascii_chars_encode_utf8("+"@);
    assert(word("+") =~= seq![0x2bu8]);
    reveal_strlit("add");
    is_ascii_chars_encode_utf8("add"@);
    assert(word("add") =~= seq![0x61u8, 0x64, 0x64]);
    reveal_strlit("&&");
    is_ascii_chars_encode_utf8("&&"@);
    assert(word("&&") =~= seq![0x26u8, 0x26]);
    reveal_strlit("and");
    is_ascii_chars_encode_utf8("and"@);
    assert(word("and") =~= seq![0x61u8, 0x6e, 0x64]);
    reveal_strlit(":=");
    is_ascii_chars_encode_utf8(":="@);
    assert(word(":=") =~= seq![0x3au8, 0x3d]);
    reveal_strlit("bind");
    is_ascii_chars_encode_utf8("bind"@);
    assert(word("bind") =~= seq![0x62u8, 0x69, 0x6e, 0x64]);
    reveal_strlit("if");
    is_ascii_chars_encode_utf8("if"@);
    assert(word("if") =~= seq![0x69u8, 0x66]);
    reveal_strlit("/");
    is_ascii_chars_encode_utf8("/"@);
    assert(word("/") =~= seq![0x2fu8]);
    reveal_strlit("div");
    is_ascii_chars_encode_utf8("div"@);
    assert(word("div") =~= seq![0x64u8, 0x69, 0x76]);
    reveal_strlit("==");
    is_ascii_chars_encode_utf8("=="@);
    assert(word("==") =~= seq![0x3du8, 0x3d]);
    reveal_strlit("eq");
    is_ascii_chars_encode_utf8("eq"@);
    assert(word("eq") =~= seq![0x65u8, 0x71]);
    reveal_strlit("ewma");
    is_ascii_chars_encode_utf8("ewma"@);
    assert(word("ewma") =~= seq![0x65u8, 0x77, 0x6d, 0x61]);
    reveal_strlit(">");
    is_ascii_chars_encode_utf8(">"@);
    assert(word(">") =~= seq![0x3eu8]);
    reveal_strlit("gt");
    is_ascii_chars_encode_utf8("gt"@);
    assert(word("gt") =~= seq![0x67u8, 0x74]);
    reveal_strlit("<");
    is_ascii_chars_encode_utf8("<"@);
    assert(word("<") =~= seq![0x3cu8]);
    reveal_strlit("lt");
    is_ascii_chars_encode_utf8("lt"@);
    assert(word("lt") =~= seq![0x6cu8, 0x74]);
    reveal_strlit("wrapped_max");
    is_ascii_chars_encode_utf8("wrapped_max"@);
    assert(word("wrapped_max") =~= seq![0x77u8, 0x72, 0x61, 0x70, 0x70, 0x65, 0x64, 0x5f, 0x6d, 0x61, 0x78]);
    reveal_strlit("max");
    is_ascii_chars_encode_utf8("max"@);
    assert(word("max") =~= seq![0x6du8, 0x61, 0x78]);
    reveal_strlit("min");
    is_ascii_chars_encode_utf8("min"@);
    assert(word("min") =~= seq![0x6du8, 0x69, 0x6e]);
    reveal_strlit("*");
    is_ascii_chars_encode_utf8("*"@);
    assert(word("*") =~= seq![0x2au8]);
    reveal_strlit("mul");
    is_ascii_chars_encode_utf8("mul"@);
    assert(word("mul") =~= seq![0x6du8, 0x75, 0x6c]);
    reveal_strlit("||");
    is_ascii_chars_encode_utf8("||"@);
    assert(word("||") =~= seq![0x7cu8, 0x7c]);
    reveal_strlit("or");
    is_ascii_chars_encode_utf8("or"@);
    assert(word("or") =~= seq![0x6fu8, 0x72]);
    reveal_strlit("!if");
    is_ascii_chars_encode_utf8("!if"@);
    assert(word("!if") =~= seq![0x21u8, 0x69, 0x66]);
    reveal_strlit("-");
    is_ascii_chars_encode_utf8("-"@);
    assert(word("-") =~= seq![0x2du8]);
    reveal_strlit("sub");
    is_ascii_chars_encode_utf8("sub"@);
    assert(word("sub") =~= seq![0x73u8, 0x75, 0x62]);
}

/// The bytes of the words that stand for commands.
pub proof fn lemma_command_words()
    ensures
        word("fallthrough") == seq![0x66u8, 0x61, 0x6c, 0x6c, 0x74, 0x68, 0x72, 0x6f, 0x75, 0x67, 0x68],
        word("report") == seq![0x72u8, 0x65, 0x70, 0x6f, 0x72, 0x74],
        word("reset") == seq![0x72u8, 0x65, 0x73, 0x65, 0x74],
{
    reveal_strlit("fallthrough");
    is_ascii_chars_encode_utf8("fallthrough"@);
    assert(word("fallthrough") =~= seq![0x66u8, 0x61, 0x6c, 0x6c, 0x74, 0x68, 0x72, 0x6f, 0x75, 0x67, 0x68]);
    reveal_strlit("report");
    is_ascii_chars_encode_utf8("report"@);
    assert(word("report") =~= seq![0x72u8, 0x65, 0x70, 0x6f, 0x72, 0x74]);
    reveal_strlit("reset");
    is_ascii_chars_encode_utf8("reset"@);
    assert(word("reset") =~= seq![0x72u8, 0x65, 0x73, 0x65, 0x74]);
}

/// Zero or more expressions, up to where no further one begins, and the
/// whitespace after them.
pub open spec fn more(s: Seq<u8>) -> Result<(Seq<ExprView>, nat), Error>
    decreases s.len(),
{
    match expr(s) {
        Outcome::Miss => Ok((Seq::empty(), run(s, Class::Space))),
        Outcome::Fail(e) => Err(e),
        Outcome::Done(e, n) => {
            proof {
                lemma_expr_consumes(s);
            }
            join(seq![e], n, more(rest(s, n)))
        },
    }
}

/// `found` after the expressions `before`, which took `used` bytes.
pub open spec fn join(
    before: Seq<ExprView>,
    used: nat,
    found: Result<(Seq<ExprView>, nat), Error>,
) -> Result<(Seq<ExprView>, nat), Error> {
    match found {
        Ok((es, n)) => Ok((before + es, used + n)),
        Err(e) => Err(e),
    }
}

/// A program: one or more expressions. The number says how many bytes of
/// the source were read: what is left begins with a byte that starts no
/// expression.
pub open spec fn exprs(s: Seq<u8>) -> Result<(Seq<ExprView>, nat), Error> {
    match expr(s) {
        Outcome::Miss => Err(missing(s)),
        Outcome::Fail(e) => Err(e),
        Outcome::Done(e, n) => join(seq![e], n, more(rest(s, n))),
    }
}

/// A run is no longer than the input.
pub proof fn lemma_run_bound(s: Seq<u8>, c: Class)
    ensures
        run(s, c) <= s.len(),
{
    lemma_run_is_longest(s, c);
}

/// An atom takes at least one byte, and no more than there are.
pub proof fn lemma_atom_consumes(s: Seq<u8>)
    ensures
        atom_at(s) matches Outcome::Done(_, n) ==> 0 < n <= s.len(),
        atom(s) matches Outcome::Done(_, n) ==> 0 < n <= s.len(),
{
    reveal(atom_at);
    lemma_atom_words();
    lemma_run_bound(s, Class::Digit);
    lemma_run_bound(s, Class::Name);
    lemma_run_bound(s, Class::Space);
    let t = rest(s, run(s, Class::Space));
    lemma_run_bound(t, Class::Digit);
    lemma_run_bound(t, Class::Name);
}

/// An operator takes at least one byte, and no more than there are.
pub proof fn lemma_op_consumes(s: Seq<u8>)
    ensures
        op(s) matches Outcome::Done(_, n) ==> 0 < n <= s.len(),
{
    reveal(op);
    lemma_op_words();
}

/// A command takes at least one byte, and no more than there are.
pub proof fn lemma_command_consumes(s: Seq<u8>)
    ensures
        command(s) matches Outcome::Done(_, n) ==> 0 < n <= s.len(),
{
    reveal(command);
    lemma_command_words();
    let w = run(s, Class::Space);
    lemma_run_bound(s, Class::Space);
    let t = rest(s, w);
    if t.len() > 0 && t[0] == 0x28 {
        let u = rest(t, 1);
        let v = run(u, Class::Space);
        lemma_run_bound(u, Class::Space);
        match command_word(rest(u, v)) {
            Outcome::Done(c, k) => {
                let x = rest(u, v + k);
                lemma_run_bound(x, Class::Space);
            },
            _ => {},
        }
    }
}

/// An expression takes at least one byte, and no more than there are.
pub proof fn lemma_expr_consumes(s: Seq<u8>)
    ensures
        sexp(s) matches Outcome::Done(_, n) ==> 0 < n <= s.len(),
        expr(s) matches Outcome::Done(_, n) ==> 0 < n <= s.len(),
    decreases s.len(),
{
    reveal(sexp);
    lemma_command_consumes(s);
    lemma_atom_consumes(s);
    let w = run(s, Class::Space);
    lemma_run_bound(s, Class::Space);
    let t = rest(s, w);
    if t.len() > 0 && t[0] == 0x28 {
        let u = rest(t, 1);
        let v = run(u, Class::Space);
        lemma_run_bound(u, Class::Space);
        lemma_op_consumes(rest(u, v));
        match op(rest(u, v)) {
            Outcome::Done(o, k) => {
                let a = v + k;
                lemma_expr_consumes(rest(u, a));
                match expr(rest(u, a)) {
                    Outcome::Done(left, l) => {
                        let b = a + l;
                        lemma_expr_consumes(rest(u, b));
                        match expr(rest(u, b)) {
                            Outcome::Done(right, r) => {
                                let x = rest(u, b + r);
                                lemma_run_bound(x, Class::Space);
                            },
                            _ => {},
                        }
                    },
                    _ => {},
                }
            },
            _ => {},
        }
    }
}

/// Reading one more expression: what was found so far grows by it.
pub proof fn lemma_more_step(before: Seq<ExprView>, used: nat, src: Seq<u8>)
    requires
        used <= src.len(),
        expr(rest(src, used)) is Done,
    ensures
        expr(rest(src, used)) matches Outcome::Done(e, n) && 0 < n && used + n <= src.len()
            && join(before, used, more(rest(src, used))) == join(
            before.push(e),
            used + n,
            more(rest(src, used + n)),
        ),
{
    let s = rest(src, used);
    lemma_expr_consumes(s);
    match expr(s) {
        Outcome::Done(e, n) => {
            assert(rest(s, n) =~= rest(src, used + n));
            match more(rest(s, n)) {
                Ok((es, m)) => {
                    assert(before + (seq![e] + es) =~= before.push(e) + es);
                },
                Err(_) => {},
            }
        },
        _ => {},
    }
}

/// Where no further expression begins, reading ends after the whitespace.
pub proof fn lemma_more_stop(before: Seq<ExprView>, used: nat, src: Seq<u8>)
    requires
        expr(rest(src, used)) is Miss,
    ensures
        join(before, used, more(rest(src, used))) == Ok::<(Seq<ExprView>, nat), Error>(
            (before, used + run(rest(src, used), Class::Space)),
        ),
{
    assert(before + Seq::<ExprView>::empty() =~= before);
}

/// A sequence begins with another if it is as long and has the same bytes.
pub proof fn lemma_prefix_bytes(w: Seq<u8>, s: Seq<u8>)
    ensures
        w.is_prefix_of(s) <==> (w.len() <= s.len() && forall|i: int|
            0 <= i < w.len() ==> s[i] == w[i]),
{
    if w.len() <= s.len() {
        if w.is_prefix_of(s) {
            assert forall|i: int| 0 <= i < w.len() implies s[i] == w[i] by {
                assert(s.subrange(0, w.len() as int)[i] == w[i]);
            }
        }
        if forall|i: int| 0 <= i < w.len() ==> s[i] == w[i] {
            assert(w =~= s.subrange(0, w.len() as int));
        }
    }
}

/// What it is to begin with one of the words that atoms are made of.
pub proof fn lemma_atom_leads(s: Seq<u8>)
    ensures
        lead(s, "true") <==> s.len() >= 4 && s[0] == 0x74 && s[1] == 0x72 && s[2] == 0x75 && s[3] == 0x65,
        lead(s, "false") <==> s.len() >= 5 && s[0] == 0x66 && s[1] == 0x61 && s[2] == 0x6c && s[3] == 0x73 && s[4] == 0x65,
        lead(s, "+infinity") <==> s.len() >= 9 && s[0] == 0x2b && s[1] == 0x69 && s[2] == 0x6e && s[3] == 0x66 && s[4] == 0x69 && s[5] == 0x6e && s[6] == 0x69 && s[7] == 0x74 && s[8] == 0x79,
        lead(s, "__") <==> s.len() >= 2 && s[0] == 0x5f && s[1] == 0x5f,
{
    lemma_atom_words();
    lemma_prefix_bytes(word("true"), s);
    lemma_prefix_bytes(word("false"), s);
    lemma_prefix_bytes(word("+infinity"), s);
    lemma_prefix_bytes(word("__"), s);
}

/// What it is to begin with a word that stands for an operator.
pub proof fn lemma_op_leads(s: Seq<u8>)
    ensures
        lead(s, "+") <==> s.len() >= 1 && s[0] == 0x2b,
        lead(s, "add") <==> s.len() >= 3 && s[0] == 0x61 && s[1] == 0x64 && s[2] == 0x64,
        lead(s, "&&") <==> s.len() >= 2 && s[0] == 0x26 && s[1] == 0x26,
        lead(s, "and") <==> s.len() >= 3 && s[0] == 0x61 && s[1] == 0x6e && s[2] == 0x64,
        lead(s, ":=") <==> s.len() >= 2 && s[0] == 0x3a && s[1] == 0x3d,
        lead(s, "bind") <==> s.len() >= 4 && s[0] == 0x62 && s[1] == 0x69 && s[2] == 0x6e && s[3] == 0x64,
        lead(s, "if") <==> s.len() >= 2 && s[0] == 0x69 && s[1] == 0x66,
        lead(s, "/") <==> s.len() >= 1 && s[0] == 0x2f,
        lead(s, "div") <==> s.len() >= 3 && s[0] == 0x64 && s[1] == 0x69 && s[2] == 0x76,
        lead(s, "==") <==> s.len() >= 2 && s[0] == 0x3d && s[1] == 0x3d,
        lead(s, "eq") <==> s.len() >= 2 && s[0] == 0x65 && s[1] == 0x71,
        lead(s, "ewma") <==> s.len() >= 4 && s[0] == 0x65 && s[1] == 0x77 && s[2] == 0x6d && s[3] == 0x61,
        lead(s, ">") <==> s.len() >= 1 && s[0] == 0x3e,
        lead(s, "gt") <==> s.len() >= 2 && s[0] == 0x67 && s[1] == 0x74,
        lead(s, "<") <==> s.len() >= 1 && s[0] == 0x3c,
        lead(s, "lt") <==> s.len() >= 2 && s[0] == 0x6c && s[1] == 0x74,
        lead(s, "wrapped_max") <==> s.len() >= 11 && s[0] == 0x77 && s[1] == 0x72 && s[2] == 0x61 && s[3] == 0x70 && s[4] == 0x70 && s[5] == 0x65 && s[6] == 0x64 && s[7] == 0x5f && s[8] == 0x6d && s[9] == 0x61 && s[10] == 0x78,
        lead(s, "max") <==> s.len() >= 3 && s[0] == 0x6d && s[1] == 0x61 && s[2] == 0x78,
        lead(s, "min") <==> s.len() >= 3 && s[0] == 0x6d && s[1] == 0x69 && s[2] == 0x6e,
        lead(s, "*") <==> s.len() >= 1 && s[0] == 0x2a,
        lead(s, "mul") <==> s.len() >= 3 && s[0] == 0x6d && s[1] == 0x75 && s[2] == 0x6c,
        lead(s, "||") <==> s.len() >= 2 && s[0] == 0x7c && s[1] == 0x7c,
        lead(s, "or") <==> s.len() >= 2 && s[0] == 0x6f && s[1] == 0x72,
        lead(s, "!if") <==> s.len() >= 3 && s[0] == 0x21 && s[1] == 0x69 && s[2] == 0x66,
        lead(s, "-") <==> s.len() >= 1 && s[0] == 0x2d,
        lead(s, "sub") <==> s.len() >= 3 && s[0] == 0x73 && s[1] == 0x75 && s[2] == 0x62,
{
    lemma_op_words();
    lemma_prefix_bytes(word("+"), s);
    lemma_prefix_bytes(word("add"), s);
    lemma_prefix_bytes(word("&&"), s);
    lemma_prefix_bytes(word("and"), s);
    lemma_prefix_bytes(word(":="), s);
    lemma_prefix_bytes(word("bind"), s);
    lemma_prefix_bytes(word("if"), s);
    lemma_prefix_bytes(word("/"), s);
    lemma_prefix_bytes(word("div"), s);
    lemma_prefix_bytes(word("=="), s);
    lemma_prefix_bytes(word("eq"), s);
    lemma_prefix_bytes(word("ewma"), s);
    lemma_prefix_bytes(word(">"), s);
    lemma_prefix_bytes(word("gt"), s);
    lemma_prefix_bytes(word("<"), s);
    lemma_prefix_bytes(word("lt"), s);
    lemma_prefix_bytes(word("wrapped_max"), s);
    lemma_prefix_bytes(word("max"), s);
    lemma_prefix_bytes(word("min"), s);
    lemma_prefix_bytes(word("*"), s);
    lemma_prefix_bytes(word("mul"), s);
    lemma_prefix_bytes(word("||"), s);
    lemma_prefix_bytes(word("or"), s);
    lemma_prefix_bytes(word("!if"), s);
    lemma_prefix_bytes(word("-"), s);
    lemma_prefix_bytes(word("sub"), s);
}

/// What it is to begin with a word that stands for a command.
pub proof fn lemma_command_leads(s: Seq<u8>)
    ensures
        lead(s, "fallthrough") <==> s.len() >= 11 && s[0] == 0x66 && s[1] == 0x61 && s[2] == 0x6c && s[3] == 0x6c && s[4] == 0x74 && s[5] == 0x68 && s[6] == 0x72 && s[7] == 0x6f && s[8] == 0x75 && s[9] == 0x67 && s[10] == 0x68,
        lead(s, "report") <==> s.len() >= 6 && s[0] == 0x72 && s[1] == 0x65 && s[2] == 0x70 && s[3] == 0x6f && s[4] == 0x72 && s[5] == 0x74,
        lead(s, "reset") <==> s.len() >= 5 && s[0] == 0x72 && s[1] == 0x65 && s[2] == 0x73 && s[3] == 0x65 && s[4] == 0x74,
{
    lemma_command_words();
    lemma_prefix_bytes(word("fallthrough"), s);
    lemma_prefix_bytes(word("report"), s);
    lemma_prefix_bytes(word("reset"), s);
}

/// An operator, after whitespace.
pub open spec fn op_after_space(s: Seq<u8>) -> Outcome<Op> {
    let v = run(s, Class::Space);
    later(v, op(rest(s, v)))
}

/// The end of an s-expression: what is read from the place `c` of `u`
/// on, where `u` follows the opening parenthesis and operator and
/// operands were found before `c`.
pub open spec fn sexp_end(u: Seq<u8>, o: Op, left: ExprView, right: ExprView, c: nat) -> Outcome<
    ExprView,
> {
    let x = rest(u, c);
    if closes(x) {
        match checked(o, left, right) {
            Ok(e) => Outcome::Done(e, c + run(x, Class::Space) + 1),
            Err(e) => Outcome::Fail(e),
        }
    } else {
        Outcome::Fail(missing(x))
    }
}

/// The second operand of an s-expression and its end, from the place `q`
/// of `u` on.
pub open spec fn sexp_right(u: Seq<u8>, o: Op, left: ExprView, q: nat) -> Outcome<ExprView> {
    match expr(rest(u, q)) {
        Outcome::Miss => Outcome::Fail(missing(rest(u, q))),
        Outcome::Fail(e) => Outcome::Fail(e),
        Outcome::Done(right, m) => sexp_end(u, o, left, right, q + m),
    }
}

/// The operands of an s-expression and its end, from the place `p` of
/// `u` on.
pub open spec fn sexp_left(u: Seq<u8>, o: Op, p: nat) -> Outcome<ExprView> {
    match expr(rest(u, p)) {
        Outcome::Miss => Outcome::Fail(missing(rest(u, p))),
        Outcome::Fail(e) => Outcome::Fail(e),
        Outcome::Done(left, l) => sexp_right(u, o, left, p + l),
    }
}

/// What follows the opening parenthesis of an s-expression. With
/// `sexp_left`, `sexp_right` and `sexp_end` it says rule by rule what
/// `sexp` says in one piece.
#[verifier::opaque]
pub open spec fn sexp_inside(u: Seq<u8>) -> Outcome<ExprView> {
    match op_after_space(u) {
        Outcome::Miss => Outcome::Fail(missing(u)),
        Outcome::Fail(e) => Outcome::Fail(e),
        Outcome::Done(o, p) => sexp_left(u, o, p),
    }
}

/// An s-expression, rule by rule.
#[verifier::rlimit(50)]
pub proof fn lemma_sexp_unfolds(s: Seq<u8>)
    ensures
        sexp(s) == ({
            let w = run(s, Class::Space);
            let t = rest(s, w);
            if t.len() > 0 && t[0] == 0x28 {
                later(w + 1, sexp_inside(rest(t, 1)))
            } else {
                Outcome::Miss
            }
        }),
{
    reveal(sexp);
    reveal(sexp_inside);
    let w = run(s, Class::Space);
    let t = rest(s, w);
    if t.len() > 0 && t[0] == 0x28 {
        let u = rest(t, 1);
        let v = run(u, Class::Space);
        match op(rest(u, v)) {
            Outcome::Done(o, k) => {
                let p = v + k;
                assert(op_after_space(u) == Outcome::Done(o, p));
                match expr(rest(u, p)) {
                    Outcome::Done(left, l) => {
                        let q = p + l;
                        match expr(rest(u, q)) {
                            Outcome::Done(right, m) => {
                                assert(sexp_right(u, o, left, q) == sexp_end(
                                    u,
                                    o,
                                    left,
                                    right,
                                    q + m,
                                ));
                            },
                            _ => {},
                        }
                        assert(sexp_left(u, o, p) == sexp_right(u, o, left, q));
                    },
                    _ => {},
                }
                assert(sexp_inside(u) == sexp_left(u, o, p));
            },
            _ => {},
        }
    }
}

/// What follows the opening parenthesis takes at least one byte.
pub proof fn lemma_sexp_inside_consumes(u: Seq<u8>)
    ensures
        sexp_inside(u) matches Outcome::Done(_, n) ==> n > 0,
{
    reveal(sexp_inside);
    match op_after_space(u) {
        Outcome::Done(o, p) => {
            match expr(rest(u, p)) {
                Outcome::Done(left, l) => {
                    match expr(rest(u, p + l)) {
                        Outcome::Done(right, m) => {},
                        _ => {},
                    }
                },
                _ => {},
            }
        },
        _ => {},
    }
}

} // verus!

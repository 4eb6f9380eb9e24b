//! The parser: turns tokens into statements and expressions.
use std::rc::Rc;
use vstd::prelude::*;
use crate::errors::{InterpreterError, ParsingErrorsBuilder};
use crate::scanner::{
    is_eof_item, item_matches, lemma_tok_view, line_stream, spec_next, spec_scan, spec_scan_from,
    spec_type_name, tok_view,
    Literal, Scanner, SpecItem, SpecToken, Token, TokenType, TokensIterator,
};
use crate::number::{formats_literal, literal_text, literal_value, spec_is_finite, spec_magnitude};
use crate::expansion::law_literal_reads_back;
use crate::text::{append_chars, append_str, chars_to_string};

verus! {

/// An expression. Variables, assignments, `this` and `super` carry a number
/// that tells them apart for the resolver.
#[derive(Debug)]
pub enum Expr {
    Binary(Token, Box<Expr>, Box<Expr>),
    Grouping(Box<Expr>),
    Literal(Token),
    Logical(Token, Box<Expr>, Box<Expr>),
    Unary(Token, Box<Expr>),
    Variable(usize, Token),
    Assignment(usize, Token, Box<Expr>),
    Call(Box<Expr>, Token, Vec<Expr>),
    Get(Box<Expr>, Token),
    SetProperty(Box<Expr>, Token, Box<Expr>),
    This(usize, Token),
    Super(usize, Token, Token),
    Function(Option<Token>, Rc<Function>),
}

/// The parameters and body of a function.
#[derive(Debug)]
pub struct Function {
    pub parameters: Vec<Token>,
    pub body: Vec<Statement>,
}

/// A statement. A function declaration is a variable declaration whose
/// initializer is a named function; a `for` loop is parsed into a block
/// holding a `while` loop.
#[derive(Debug)]
pub enum Statement {
    Print(Expr),
    Expression(Expr),
    Variable(Token, Option<Expr>),
    Block(Vec<Statement>),
    If(Expr, Box<Statement>, Option<Box<Statement>>),
    While(Expr, Box<Statement>),
    Return(Token, Option<Expr>),
    Class(Token, Vec<Expr>, Option<Expr>),
}

/// Whether a token carries a number literal whose printed digits are left
/// open (`literal_text` gives none for it).
pub open spec fn token_has_open_number(t: Token) -> bool {
    t.literal matches Some(Literal::Digit(b)) && literal_text(b) is None
}

/// How a token appears in a printed tree: its string's text, the printed
/// number of its number literal, or its source text.
pub open spec fn token_text(t: Token) -> Seq<char> {
    match t.literal {
        Some(Literal::String(v)) => v@,
        Some(Literal::Digit(b)) => match literal_text(b) {
            Some(x) => x,
            None => t.lexeme@,
        },
        None => t.lexeme@,
    }
}

/// Whether a number literal with open digits occurs in an expression.
pub open spec fn expr_has_open_number(e: Expr) -> bool
    decreases e,
{
    match e {
        Expr::Binary(t, left, right) => token_has_open_number(t) || expr_has_open_number(*left)
            || expr_has_open_number(*right),
        Expr::Logical(t, left, right) => token_has_open_number(t) || expr_has_open_number(*left)
            || expr_has_open_number(*right),
        Expr::Grouping(inner) => expr_has_open_number(*inner),
        Expr::Literal(t) => token_has_open_number(t),
        Expr::Unary(t, inner) => token_has_open_number(t) || expr_has_open_number(*inner),
        Expr::Variable(_, t) => token_has_open_number(t),
        Expr::Assignment(_, t, value) => t.literal matches Some(Literal::Digit(_)) || expr_has_open_number(*value),
        Expr::Call(callee, _, arguments) => expr_has_open_number(*callee) || exprs_have_open_number(
            arguments@,
        ),
        Expr::Get(object, _) => expr_has_open_number(*object),
        Expr::SetProperty(object, _, value) => expr_has_open_number(*object) || expr_has_open_number(*value),
        _ => false,
    }
}

/// Whether a number literal with open digits occurs in one of the
/// expressions.
pub open spec fn exprs_have_open_number(es: Seq<Expr>) -> bool
    decreases es,
{
    if es.len() == 0 {
        false
    } else {
        exprs_have_open_number(es.drop_last()) || expr_has_open_number(es.last())
    }
}

/// The printed syntax tree of an expression, as far as its number
/// literals are stated.
pub open spec fn expr_text(e: Expr) -> Seq<char>
    decreases e,
{
    match e {
        Expr::Binary(t, left, right) => "("@ + token_text(t) + " "@ + expr_text(*left) + " "@
            + expr_text(*right) + ")"@,
        Expr::Logical(t, left, right) => "("@ + token_text(t) + " "@ + expr_text(*left) + " "@
            + expr_text(*right) + ")"@,
        Expr::Grouping(inner) => "(group "@ + expr_text(*inner) + ")"@,
        Expr::Literal(t) => token_text(t),
        Expr::Unary(t, inner) => "("@ + token_text(t) + " "@ + expr_text(*inner) + ")"@,
        Expr::Variable(_, t) => "(var \""@ + token_text(t) + "\")"@,
        Expr::Assignment(_, t, value) => "(assignment "@ + spec_type_name(t.token_type) + " "@
            + t.lexeme@ + " "@ + (match t.literal {
            Some(Literal::String(v)) => v@,
            _ => "null"@,
        }) + "="@ + expr_text(*value) + ")"@,
        Expr::Call(callee, _, arguments) => "(call "@ + expr_text(*callee) + exprs_text(
            arguments@,
        ) + ")"@,
        Expr::Get(object, name) => "(get "@ + expr_text(*object) + " "@ + name.lexeme@ + ")"@,
        Expr::SetProperty(object, name, value) => "(set "@ + expr_text(*object) + " "@
            + name.lexeme@ + " "@ + expr_text(*value) + ")"@,
        Expr::This(_, _) => "this"@,
        Expr::Super(_, _, method) => "(super "@ + method.lexeme@ + ")"@,
        Expr::Function(name, _) => "<fn "@ + (match name {
            Some(t) => t.lexeme@,
            None => "__<fun_anon>"@,
        }) + ">"@,
    }
}

/// The arguments of a call as printed: each after a space.
pub open spec fn exprs_text(es: Seq<Expr>) -> Seq<char>
    decreases es,
{
    if es.len() == 0 {
        Seq::empty()
    } else {
        exprs_text(es.drop_last()) + " "@ + expr_text(es.last())
    }
}

/// Whether `s` is how a token can appear in a printed tree: its string's
/// text, its source text, or for a number literal a text that `formats`
/// allows (it reads back as the number) and that is fixed where
/// `literal_text` fixes it.
pub open spec fn token_shows(t: Token, s: Seq<char>) -> bool {
    match t.literal {
        Some(Literal::String(v)) => s == v@,
        Some(Literal::Digit(b)) => formats_literal(b, s) && (literal_text(b) matches Some(x) ==> s
            == x),
        None => s == t.lexeme@,
    }
}

/// Whether `s` is how a token can appear as a line of the `tokenize`
/// command: its kind, its source text and its literal (`null` for none).
pub open spec fn token_line_shows(t: Token, s: Seq<char>) -> bool {
    match t.literal {
        Some(Literal::String(v)) => s == spec_type_name(t.token_type) + seq![' '] + t.lexeme@
            + seq![' '] + v@,
        Some(Literal::Digit(b)) => exists|u: Seq<char>|
            formats_literal(b, u) && s == spec_type_name(t.token_type) + seq![' '] + t.lexeme@
                + seq![' '] + u,
        None => s == spec_type_name(t.token_type) + seq![' '] + t.lexeme@ + " null"@,
    }
}

/// Whether `s` is a printed syntax tree of `e`: each part printed in its
/// place, operands in order, each number literal as a text that reads back
/// as its number.
pub open spec fn expr_shows(e: Expr, s: Seq<char>) -> bool
    decreases e,
{
    match e {
        Expr::Binary(t, left, right) => exists|a: Seq<char>, x: Seq<char>, y: Seq<char>|
            #![trigger "("@ + a + " "@ + x + " "@ + y]
            token_shows(t, a) && expr_shows(*left, x) && expr_shows(*right, y) && s == "("@ + a
                + " "@ + x + " "@ + y + ")"@,
        Expr::Logical(t, left, right) => exists|a: Seq<char>, x: Seq<char>, y: Seq<char>|
            #![trigger "("@ + a + " "@ + x + " "@ + y]
            token_shows(t, a) && expr_shows(*left, x) && expr_shows(*right, y) && s == "("@ + a
                + " "@ + x + " "@ + y + ")"@,
        Expr::Grouping(inner) => exists|x: Seq<char>|
            #![trigger "(group "@ + x]
            expr_shows(*inner, x) && s == "(group "@ + x + ")"@,
        Expr::Literal(t) => token_shows(t, s),
        Expr::Unary(t, inner) => exists|a: Seq<char>, x: Seq<char>|
            #![trigger "("@ + a + " "@ + x]
            token_shows(t, a) && expr_shows(*inner, x) && s == "("@ + a + " "@ + x + ")"@,
        Expr::Variable(_, t) => exists|a: Seq<char>|
            #![trigger "(var \""@ + a]
            token_shows(t, a) && s == "(var \""@ + a + "\")"@,
        Expr::Assignment(_, t, value) => exists|a: Seq<char>, x: Seq<char>|
            #![trigger "(assignment "@ + a + "="@ + x]
            token_line_shows(t, a) && expr_shows(*value, x) && s == "(assignment "@ + a + "="@ + x
                + ")"@,
        Expr::Call(callee, _, arguments) => exists|x: Seq<char>, z: Seq<char>|
            #![trigger "(call "@ + x + z]
            expr_shows(*callee, x) && exprs_show(arguments@, z) && s == "(call "@ + x + z + ")"@,
        Expr::Get(object, name) => exists|x: Seq<char>|
            #![trigger "(get "@ + x]
            expr_shows(*object, x) && s == "(get "@ + x + " "@ + name.lexeme@ + ")"@,
        Expr::SetProperty(object, name, value) => exists|x: Seq<char>, y: Seq<char>|
            #![trigger "(set "@ + x + " "@ + name.lexeme@ + " "@ + y]
            expr_shows(*object, x) && expr_shows(*value, y) && s == "(set "@ + x + " "@
                + name.lexeme@ + " "@ + y + ")"@,
        _ => s == expr_text(e),
    }
}

/// Whether `s` is the printed arguments of a call: each after a space.
pub open spec fn exprs_show(es: Seq<Expr>, s: Seq<char>) -> bool
    decreases es,
{
    if es.len() == 0 {
        s == Seq::<char>::empty()
    } else {
        exists|x: Seq<char>, y: Seq<char>|
            #![trigger x + " "@ + y]
            exprs_show(es.drop_last(), x) && expr_shows(es.last(), y) && s == x + " "@ + y
    }
}

proof fn lemma_shows_binary(t: Token, l: Expr, r: Expr, a: Seq<char>, x: Seq<char>, y: Seq<char>)
    requires
        token_shows(t, a),
        expr_shows(l, x),
        expr_shows(r, y),
    ensures
        expr_shows(Expr::Binary(t, Box::new(l), Box::new(r)), "("@ + a + " "@ + x + " "@ + y + ")"@),
        expr_shows(Expr::Logical(t, Box::new(l), Box::new(r)), "("@ + a + " "@ + x + " "@ + y + ")"@),
{
}

proof fn lemma_shows_grouping(e: Expr, x: Seq<char>)
    requires
        expr_shows(e, x),
    ensures
        expr_shows(Expr::Grouping(Box::new(e)), "(group "@ + x + ")"@),
{
}

proof fn lemma_shows_unary(t: Token, e: Expr, a: Seq<char>, x: Seq<char>)
    requires
        token_shows(t, a),
        expr_shows(e, x),
    ensures
        expr_shows(Expr::Unary(t, Box::new(e)), "("@ + a + " "@ + x + ")"@),
{
}

/// Where no number literal's digits are left open, a printed syntax tree is
/// the one `expr_text` gives: there is exactly one.
pub proof fn law_shown_tree_is_exact(e: Expr, s: Seq<char>)
    requires
        expr_shows(e, s),
        !expr_has_open_number(e),
    ensures
        s == expr_text(e),
    decreases e,
{
    match e {
        Expr::Binary(t, left, right) => {
            let (a, x, y) = choose|a: Seq<char>, x: Seq<char>, y: Seq<char>|
                #![trigger "("@ + a + " "@ + x + " "@ + y]
                token_shows(t, a) && expr_shows(*left, x) && expr_shows(*right, y) && s == "("@ + a
                    + " "@ + x + " "@ + y + ")"@;
            law_shown_tree_is_exact(*left, x);
            law_shown_tree_is_exact(*right, y);
        },
        Expr::Logical(t, left, right) => {
            let (a, x, y) = choose|a: Seq<char>, x: Seq<char>, y: Seq<char>|
                #![trigger "("@ + a + " "@ + x + " "@ + y]
                token_shows(t, a) && expr_shows(*left, x) && expr_shows(*right, y) && s == "("@ + a
                    + " "@ + x + " "@ + y + ")"@;
            law_shown_tree_is_exact(*left, x);
            law_shown_tree_is_exact(*right, y);
        },
        Expr::Grouping(inner) => {
            let x = choose|x: Seq<char>|
                #![trigger "(group "@ + x]
                expr_shows(*inner, x) && s == "(group "@ + x + ")"@;
            law_shown_tree_is_exact(*inner, x);
        },
        Expr::Unary(t, inner) => {
            let (a, x) = choose|a: Seq<char>, x: Seq<char>|
                #![trigger "("@ + a + " "@ + x]
                token_shows(t, a) && expr_shows(*inner, x) && s == "("@ + a + " "@ + x + ")"@;
            law_shown_tree_is_exact(*inner, x);
        },
        Expr::Assignment(_, t, value) => {
            let (a, x) = choose|a: Seq<char>, x: Seq<char>|
                #![trigger "(assignment "@ + a + "="@ + x]
                token_line_shows(t, a) && expr_shows(*value, x) && s == "(assignment "@ + a + "="@
                    + x + ")"@;
            law_shown_tree_is_exact(*value, x);
            reveal_strlit(" null");
            reveal_strlit("null");
            reveal_strlit(" ");
            assert(" null"@ =~= " "@ + "null"@);
            assert(seq![' '] =~= " "@);
            assert(s =~= expr_text(e));
        },
        Expr::Call(callee, _, arguments) => {
            let (x, z) = choose|x: Seq<char>, z: Seq<char>|
                #![trigger "(call "@ + x + z]
                expr_shows(*callee, x) && exprs_show(arguments@, z) && s == "(call "@ + x + z + ")"@;
            law_shown_tree_is_exact(*callee, x);
            law_shown_list_is_exact(arguments@, z);
        },
        Expr::Get(object, name) => {
            let x = choose|x: Seq<char>|
                #![trigger "(get "@ + x]
                expr_shows(*object, x) && s == "(get "@ + x + " "@ + name.lexeme@ + ")"@;
            law_shown_tree_is_exact(*object, x);
        },
        Expr::SetProperty(object, name, value) => {
            let (x, y) = choose|x: Seq<char>, y: Seq<char>|
                #![trigger "(set "@ + x + " "@ + name.lexeme@ + " "@ + y]
                expr_shows(*object, x) && expr_shows(*value, y) && s == "(set "@ + x + " "@
                    + name.lexeme@ + " "@ + y + ")"@;
            law_shown_tree_is_exact(*object, x);
            law_shown_tree_is_exact(*value, y);
        },
        _ => {},
    }
}

/// The arguments of a call, printed, are the ones `exprs_text` gives when
/// none has a number literal with open digits.
pub proof fn law_shown_list_is_exact(es: Seq<Expr>, s: Seq<char>)
    requires
        exprs_show(es, s),
        !exprs_have_open_number(es),
    ensures
        s == exprs_text(es),
    decreases es,
{
    if es.len() > 0 {
        let (x, y) = choose|x: Seq<char>, y: Seq<char>|
            #![trigger x + " "@ + y]
            exprs_show(es.drop_last(), x) && expr_shows(es.last(), y) && s == x + " "@ + y;
        law_shown_list_is_exact(es.drop_last(), x);
        law_shown_tree_is_exact(es.last(), y);
    }
}

/// In the printed tree of a binary expression the operator comes first,
/// then the left operand, then the right one, whatever the operands are:
/// when the left operand is a number literal, integral or not, the text
/// right after the operator reads back as that number.
pub proof fn law_binary_left_operand_first(op: Token, num: Token, b: u64, right: Expr, s: Seq<char>)
    requires
        op.literal is None,
        num.literal == Some(Literal::Digit(b)),
        spec_is_finite(b),
        expr_shows(Expr::Binary(op, Box::new(Expr::Literal(num)), Box::new(right)), s),
    ensures
        exists|x: Seq<char>, rest: Seq<char>|
            #![trigger "("@ + op.lexeme@ + " "@ + x + " "@ + rest]
            literal_value(x) == spec_magnitude(b) && s == "("@ + op.lexeme@ + " "@ + x + " "@ + rest,
{
    let left = Expr::Literal(num);
    let (a, x, y) = choose|a: Seq<char>, x: Seq<char>, y: Seq<char>|
        #![trigger "("@ + a + " "@ + x + " "@ + y]
        token_shows(op, a) && expr_shows(left, x) && expr_shows(right, y) && s == "("@ + a + " "@
            + x + " "@ + y + ")"@;
    law_literal_reads_back(b, x);
    let rest = y + ")"@;
    assert(s =~= "("@ + op.lexeme@ + " "@ + x + " "@ + rest);
}

/// None of the expressions has a number literal with open digits when
/// none of a list does.
proof fn lemma_exprs_no_number(es: Seq<Expr>, i: int)
    requires
        !exprs_have_open_number(es),
        0 <= i < es.len(),
    ensures
        !expr_has_open_number(es[i]),
    decreases es.len(),
{
    if i < es.len() - 1 {
        lemma_exprs_no_number(es.drop_last(), i);
    }
}

impl Expr {
    /// The expression as a parenthesized syntax tree, as the `parse`
    /// command prints it.
    #[verifier::loop_isolation(false)]
    #[verifier::rlimit(40)]
    pub fn display_chars(&self) -> (r: Vec<char>)
        ensures
            !expr_has_open_number(*self) ==> r@ == expr_text(*self),
            expr_shows(*self, r@),
        decreases self,
    {
        proof {
            reveal_strlit("(");
            reveal_strlit(")");
            reveal_strlit(" ");
            reveal_strlit("=");
            reveal_strlit(">");
        }
        let mut out: Vec<char> = Vec::new();
        match self {
            Expr::Binary(token, left, right) | Expr::Logical(token, left, right) => {
                out.push('(');
                let a = token.display();
                append_chars(&mut out, &a);
                out.push(' ');
                let x = left.display_chars();
                append_chars(&mut out, &x);
                out.push(' ');
                let y = right.display_chars();
                append_chars(&mut out, &y);
                out.push(')');
                assert(!expr_has_open_number(*self) ==> out@ =~= "("@ + token_text(*token) + " "@
                    + expr_text(**left) + " "@ + expr_text(**right) + ")"@);
                assert(token_shows(*token, a@));
                assert(out@ =~= "("@ + a@ + " "@ + x@ + " "@ + y@ + ")"@);
                proof {
                    lemma_shows_binary(*token, **left, **right, a@, x@, y@);
                }
            },
            Expr::Grouping(e) => {
                append_str(&mut out, "(group ");
                let x = e.display_chars();
                append_chars(&mut out, &x);
                out.push(')');
                assert(out@ =~= "(group "@ + x@ + ")"@);
 proof {
                    lemma_shows_grouping(**e, x@);
                }
                assert(!expr_has_open_number(*self) ==> out@ =~= "(group "@ + expr_text(**e) + ")"@);
            },
            Expr::Literal(token) => {
                let a = token.display();
                append_chars(&mut out, &a);
                assert(out@ =~= a@);
                assert(token_shows(*token, a@));
                assert(expr_shows(*self, out@));
                assert(!expr_has_open_number(*self) ==> out@ =~= token_text(*token));
            },
            Expr::Unary(token, e) => {
                out.push('(');
                let a = token.display();
                append_chars(&mut out, &a);
                out.push(' ');
                let x = e.display_chars();
                append_chars(&mut out, &x);
                out.push(')');
                assert(token_shows(*token, a@));
                assert(out@ =~= "("@ + a@ + " "@ + x@ + ")"@);
                proof {
                    lemma_shows_unary(*token, **e, a@, x@);
                }
                assert(!expr_has_open_number(*self) ==> out@ =~= "("@ + token_text(*token) + " "@
                    + expr_text(**e) + ")"@);
            },
            Expr::Variable(_, token) => {
                append_str(&mut out, "(var \"");
                let a = token.display();
                append_chars(&mut out, &a);
                append_str(&mut out, "\")");
                assert(token_shows(*token, a@));
                assert(out@ =~= "(var \""@ + a@ + "\")"@);
                assert(expr_shows(*self, out@));
                assert(!expr_has_open_number(*self) ==> out@ =~= "(var \""@ + token_text(*token)
                    + "\")"@);
            },
            Expr::Assignment(_, token, e) => {
                append_str(&mut out, "(assignment ");
                let a = token.display_line();
                append_chars(&mut out, &a);
                out.push('=');
                let x = e.display_chars();
                append_chars(&mut out, &x);
                out.push(')');
                assert(token_line_shows(*token, a@));
                assert(out@ =~= "(assignment "@ + a@ + "="@ + x@ + ")"@);
                assert(expr_shows(*self, out@));
                proof {
                    reveal_strlit(" null");
                    reveal_strlit("null");
                    assert(" null"@ =~= " "@ + "null"@);
                    assert(seq![' '] =~= " "@);
                }
                assert(!expr_has_open_number(*self) ==> out@ =~= "(assignment "@ + spec_type_name(
                    token.token_type,
                ) + " "@ + token.lexeme@ + " "@ + (match token.literal {
                    Some(Literal::String(v)) => v@,
                    _ => "null"@,
                }) + "="@ + expr_text(**e) + ")"@);
            },
            Expr::Call(callee, _, arguments) => {
                append_str(&mut out, "(call ");
                let cx = callee.display_chars();
                append_chars(&mut out, &cx);
                let ghost start = out@;
                let ghost mut z: Seq<char> = Seq::empty();
                assert(arguments@.subrange(0, 0) =~= Seq::<Expr>::empty());
                assert(out@ =~= start + z);
                let mut i: usize = 0;
                while i < arguments.len()
                    invariant
                        i <= arguments.len(),
                        !expr_has_open_number(*self) ==> out@ == start + exprs_text(
                            arguments@.subrange(0, i as int),
                        ),
                        out@ == start + z,
                        exprs_show(arguments@.subrange(0, i as int), z),
                    decreases arguments.len() - i,
                {
                    out.push(' ');
                    proof {
                        assert(decreases_to!(arguments => arguments@));
                        assert(decreases_to!(arguments@ => arguments@[i as int]));
                        assert(decreases_to!(self => arguments));
                        if !expr_has_open_number(*self) {
                            lemma_exprs_no_number(arguments@, i as int);
                        }
                        let sub = arguments@.subrange(0, i + 1);
                        assert(sub.drop_last() =~= arguments@.subrange(0, i as int));
                        assert(sub.last() == arguments@[i as int]);
                    }
                    let y = arguments[i].display_chars();
                    append_chars(&mut out, &y);
                    proof {
                        let sub = arguments@.subrange(0, i + 1);
                        assert(sub.drop_last() =~= arguments@.subrange(0, i as int));
                        assert(sub.last() == arguments@[i as int]);
                        assert(expr_shows(sub.last(), y@));
                        assert(exprs_show(sub.drop_last(), z));
                        let oz = z;
                        z = z + " "@ + y@;
                        assert(out@ =~= start + z);
                        assert(exprs_show(sub, z)) by {
                            assert(exprs_show(sub.drop_last(), oz));
                            assert(z == oz + " "@ + y@);
                        }
                    }
                    i = i + 1;
                }
                out.push(')');
                proof {
                    assert(arguments@.subrange(0, arguments.len() as int) =~= arguments@);
                    assert(out@ =~= "(call "@ + cx@ + z + ")"@);
                    assert(exprs_show(arguments@, z));
                    assert(expr_shows(*self, out@));
                }
                assert(arguments@.subrange(0, arguments.len() as int) =~= arguments@);
                assert(!expr_has_open_number(*self) ==> out@ =~= "(call "@ + expr_text(**callee)
                    + exprs_text(arguments@) + ")"@);
            },
            Expr::Get(e, name) => {
                append_str(&mut out, "(get ");
                let x = e.display_chars();
                append_chars(&mut out, &x);
                out.push(' ');
                append_chars(&mut out, &name.lexeme);
                out.push(')');
                assert(out@ =~= "(get "@ + x@ + " "@ + name.lexeme@ + ")"@);
                assert(expr_shows(*self, out@));
                assert(!expr_has_open_number(*self) ==> out@ =~= "(get "@ + expr_text(**e) + " "@
                    + name.lexeme@ + ")"@);
            },
            Expr::SetProperty(e, name, value) => {
                append_str(&mut out, "(set ");
                let x = e.display_chars();
                append_chars(&mut out, &x);
                out.push(' ');
                append_chars(&mut out, &name.lexeme);
                out.push(' ');
                let y = value.display_chars();
                append_chars(&mut out, &y);
                out.push(')');
                assert(out@ =~= "(set "@ + x@ + " "@ + name.lexeme@ + " "@ + y@ + ")"@);
                assert(expr_shows(*self, out@));
                assert(!expr_has_open_number(*self) ==> out@ =~= "(set "@ + expr_text(**e) + " "@
                    + name.lexeme@ + " "@ + expr_text(**value) + ")"@);
            },
            Expr::This(_, _) => {
                append_str(&mut out, "this");
                assert(out@ =~= "this"@);
            },
            Expr::Super(_, _, method) => {
                append_str(&mut out, "(super ");
                append_chars(&mut out, &method.lexeme);
                out.push(')');
                assert(out@ =~= "(super "@ + method.lexeme@ + ")"@);
            },
            Expr::Function(name, _) => {
                append_str(&mut out, "<fn ");
                match name {
                    Some(t) => append_chars(&mut out, &t.lexeme),
                    None => append_str(&mut out, "__<fun_anon>"),
                }
                out.push('>');
                assert(out@ =~= "<fn "@ + (match name {
                    Some(t) => t.lexeme@,
                    None => "__<fun_anon>"@,
                }) + ">"@);
            },
        }
        out
    }

    /// `display_chars` as a `String`.
    pub fn to_string(&self) -> (r: String)
        ensures
            !expr_has_open_number(*self) ==> r@ == expr_text(*self),
    {
        chars_to_string(&self.display_chars())
    }
}


/// Whether a number literal with open digits occurs in a statement.
pub open spec fn stmt_has_open_number(s: Statement) -> bool
    decreases s,
{
    match s {
        Statement::Print(e) => expr_has_open_number(e),
        Statement::Expression(e) => expr_has_open_number(e),
        Statement::Variable(_, initializer) => match initializer {
            Some(e) => expr_has_open_number(e),
            None => false,
        },
        Statement::Block(statements) => stmts_have_open_number(statements@),
        Statement::If(condition, then_branch, else_branch) => expr_has_open_number(condition)
            || stmt_has_open_number(*then_branch) || match else_branch {
            Some(e) => stmt_has_open_number(*e),
            None => false,
        },
        Statement::While(condition, body) => expr_has_open_number(condition) || stmt_has_open_number(*body),
        Statement::Return(_, value) => match value {
            Some(e) => expr_has_open_number(e),
            None => false,
        },
        Statement::Class(_, _, _) => false,
    }
}

/// Whether a number literal with open digits occurs in one of the
/// statements.
pub open spec fn stmts_have_open_number(ss: Seq<Statement>) -> bool
    decreases ss,
{
    if ss.len() == 0 {
        false
    } else {
        stmts_have_open_number(ss.drop_last()) || stmt_has_open_number(ss.last())
    }
}

/// The printed form of a statement, as far as its number literals are
/// stated.
pub open spec fn stmt_text(s: Statement) -> Seq<char>
    decreases s,
{
    match s {
        Statement::Print(e) => "print "@ + expr_text(e),
        Statement::Expression(e) => expr_text(e),
        Statement::Variable(name, initializer) => "var "@ + name.lexeme@ + match initializer {
            Some(e) => "="@ + expr_text(e),
            None => Seq::empty(),
        },
        Statement::Block(statements) => "{\n"@ + stmts_text(statements@) + "}\n"@,
        Statement::If(condition, then_branch, else_branch) => "if "@ + expr_text(condition)
            + " then "@ + stmt_text(*then_branch) + match else_branch {
            Some(e) => " else "@ + stmt_text(*e),
            None => Seq::empty(),
        },
        Statement::While(condition, body) => "while "@ + expr_text(condition) + " do "@
            + stmt_text(*body),
        Statement::Return(_, value) => "return"@ + match value {
            Some(e) => " "@ + expr_text(e),
            None => Seq::empty(),
        },
        Statement::Class(name, _, _) => "class "@ + name.lexeme@,
    }
}

/// The statements of a block as printed: one per line.
pub open spec fn stmts_text(ss: Seq<Statement>) -> Seq<char>
    decreases ss,
{
    if ss.len() == 0 {
        Seq::empty()
    } else {
        stmts_text(ss.drop_last()) + stmt_text(ss.last()) + "\n"@
    }
}

proof fn lemma_stmts_no_number(ss: Seq<Statement>, i: int)
    requires
        !stmts_have_open_number(ss),
        0 <= i < ss.len(),
    ensures
        !stmt_has_open_number(ss[i]),
    decreases ss.len(),
{
    if i < ss.len() - 1 {
        lemma_stmts_no_number(ss.drop_last(), i);
    }
}

impl Statement {
    /// The statement as text: `print e`, `var name=e`, a block as its
    /// statements between braces, one per line, `if c then s else t`.
    #[verifier::loop_isolation(false)]
    pub fn display_chars(&self) -> (r: Vec<char>)
        ensures
            !stmt_has_open_number(*self) ==> r@ == stmt_text(*self),
        decreases self,
    {
        proof {
            reveal_strlit("=");
            reveal_strlit(" ");
            reveal_strlit("\n");
        }
        let mut out: Vec<char> = Vec::new();
        match self {
            Statement::Print(e) => {
                append_str(&mut out, "print ");
                append_chars(&mut out, &e.display_chars());
                assert(!stmt_has_open_number(*self) ==> out@ =~= "print "@ + expr_text(*e));
            },
            Statement::Expression(e) => {
                append_chars(&mut out, &e.display_chars());
                assert(!stmt_has_open_number(*self) ==> out@ =~= expr_text(*e));
            },
            Statement::Variable(name, initializer) => {
                append_str(&mut out, "var ");
                append_chars(&mut out, &name.lexeme);
                match initializer {
                    Some(e) => {
                        out.push('=');
                        append_chars(&mut out, &e.display_chars());
                    },
                    None => {},
                }
                assert(!stmt_has_open_number(*self) ==> out@ =~= "var "@ + name.lexeme@ + match *initializer {
                    Some(e) => "="@ + expr_text(e),
                    None => Seq::empty(),
                });
            },
            Statement::Block(statements) => {
                append_str(&mut out, "{\n");
                let ghost start = out@;
                assert(statements@.subrange(0, 0) =~= Seq::<Statement>::empty());
                let mut i: usize = 0;
                while i < statements.len()
                    invariant
                        i <= statements.len(),
                        !stmt_has_open_number(*self) ==> out@ == start + stmts_text(
                            statements@.subrange(0, i as int),
                        ),
                    decreases statements.len() - i,
                {
                    proof {
                        assert(decreases_to!(statements => statements@));
                        assert(decreases_to!(statements@ => statements@[i as int]));
                        assert(decreases_to!(self => statements));
                        if !stmt_has_open_number(*self) {
                            lemma_stmts_no_number(statements@, i as int);
                        }
                        let sub = statements@.subrange(0, i + 1);
                        assert(sub.drop_last() =~= statements@.subrange(0, i as int));
                        assert(sub.last() == statements@[i as int]);
                    }
                    append_chars(&mut out, &statements[i].display_chars());
                    out.push('\n');
                    i = i + 1;
                }
                append_str(&mut out, "}\n");
                assert(statements@.subrange(0, statements.len() as int) =~= statements@);
                assert(!stmt_has_open_number(*self) ==> out@ =~= "{\n"@ + stmts_text(statements@)
                    + "}\n"@);
            },
            Statement::If(condition, then_branch, else_branch) => {
                append_str(&mut out, "if ");
                append_chars(&mut out, &condition.display_chars());
                append_str(&mut out, " then ");
                append_chars(&mut out, &then_branch.display_chars());
                match else_branch {
                    Some(e) => {
                        append_str(&mut out, " else ");
                        append_chars(&mut out, &e.display_chars());
                    },
                    None => {},
                }
                assert(!stmt_has_open_number(*self) ==> out@ =~= "if "@ + expr_text(*condition)
                    + " then "@ + stmt_text(**then_branch) + match *else_branch {
                    Some(e) => " else "@ + stmt_text(*e),
                    None => Seq::empty(),
                });
            },
            Statement::While(condition, body) => {
                append_str(&mut out, "while ");
                append_chars(&mut out, &condition.display_chars());
                append_str(&mut out, " do ");
                append_chars(&mut out, &body.display_chars());
                assert(!stmt_has_open_number(*self) ==> out@ =~= "while "@ + expr_text(*condition)
                    + " do "@ + stmt_text(**body));
            },
            Statement::Return(_, value) => {
                append_str(&mut out, "return");
                match value {
                    Some(e) => {
                        out.push(' ');
                        append_chars(&mut out, &e.display_chars());
                    },
                    None => {},
                }
                assert(!stmt_has_open_number(*self) ==> out@ =~= "return"@ + match *value {
                    Some(e) => " "@ + expr_text(e),
                    None => Seq::empty(),
                });
            },
            Statement::Class(name, _, _) => {
                append_str(&mut out, "class ");
                append_chars(&mut out, &name.lexeme);
                assert(out@ =~= "class "@ + name.lexeme@);
            },
        }
        out
    }

    /// `display_chars` as a `String`.
    pub fn to_string(&self) -> (r: String)
        ensures
            !stmt_has_open_number(*self) ==> r@ == stmt_text(*self),
    {
        chars_to_string(&self.display_chars())
    }
}

/// What `next_matches` accepts: one kind of token, or the operators of a
/// level of the expression grammar.
pub enum Matcher {
    One(TokenType),
    Level(u8),
}

/// Binary operator levels, loosest first: `or`, `and`, equality,
/// comparison, terms, factors; level 0 holds the unary operators.
pub open spec fn level_accepts(level: u8, t: TokenType) -> bool {
    if level == 6 {
        t == TokenType::Or
    } else if level == 5 {
        t == TokenType::And
    } else if level == 4 {
        t == TokenType::BangEqual || t == TokenType::EqualEqual
    } else if level == 3 {
        t == TokenType::Greater || t == TokenType::GreaterEqual || t == TokenType::Less || t
            == TokenType::LessEqual
    } else if level == 2 {
        t == TokenType::Minus || t == TokenType::Plus
    } else if level == 1 {
        t == TokenType::Slash || t == TokenType::Star
    } else if level == 0 {
        t == TokenType::Bang || t == TokenType::Minus
    } else {
        false
    }
}

pub open spec fn matcher_accepts(m: Matcher, t: TokenType) -> bool {
    match m {
        Matcher::One(k) => t == k,
        Matcher::Level(l) => level_accepts(l, t),
    }
}

fn accepts(m: &Matcher, t: TokenType) -> (r: bool)
    ensures
        r == matcher_accepts(*m, t),
{
    match m {
        Matcher::One(k) => t == *k,
        Matcher::Level(l) => {
            let l = *l;
            if l == 6 {
                t == TokenType::Or
            } else if l == 5 {
                t == TokenType::And
            } else if l == 4 {
                t == TokenType::BangEqual || t == TokenType::EqualEqual
            } else if l == 3 {
                t == TokenType::Greater || t == TokenType::GreaterEqual || t == TokenType::Less
                    || t == TokenType::LessEqual
            } else if l == 2 {
                t == TokenType::Minus || t == TokenType::Plus
            } else if l == 1 {
                t == TokenType::Slash || t == TokenType::Star
            } else if l == 0 {
                t == TokenType::Bang || t == TokenType::Minus
            } else {
                false
            }
        },
    }
}

/// An expression as the specification sees it: tokens by their views,
/// arguments as a sequence; a function literal only by its kind.
pub enum ExprView {
    Binary(SpecToken, Box<ExprView>, Box<ExprView>),
    Grouping(Box<ExprView>),
    Literal(SpecToken),
    Logical(SpecToken, Box<ExprView>, Box<ExprView>),
    Unary(SpecToken, Box<ExprView>),
    Variable(usize, SpecToken),
    Assignment(usize, SpecToken, Box<ExprView>),
    Call(Box<ExprView>, SpecToken, Seq<ExprView>),
    Get(Box<ExprView>, SpecToken),
    SetProperty(Box<ExprView>, SpecToken, Box<ExprView>),
    This(usize, SpecToken),
    Super(usize, SpecToken, SpecToken),
    Function(Option<SpecToken>, FunctionView),
}

/// A function as the specification sees it.
pub struct FunctionView {
    pub parameters: Seq<SpecToken>,
    pub body: Seq<StmtView>,
}

/// A statement as the specification sees it.
pub enum StmtView {
    Print(ExprView),
    Expression(ExprView),
    Variable(SpecToken, Option<ExprView>),
    Block(Seq<StmtView>),
    If(ExprView, Box<StmtView>, Option<Box<StmtView>>),
    While(ExprView, Box<StmtView>),
    Return(SpecToken, Option<ExprView>),
    Class(SpecToken, Seq<ExprView>, Option<ExprView>),
}

/// The view of an expression.
pub open spec fn expr_view(e: Expr) -> ExprView
    decreases e,
{
    match e {
        Expr::Binary(t, l, r) => ExprView::Binary(
            tok_view(t),
            Box::new(expr_view(*l)),
            Box::new(expr_view(*r)),
        ),
        Expr::Grouping(inner) => ExprView::Grouping(Box::new(expr_view(*inner))),
        Expr::Literal(t) => ExprView::Literal(tok_view(t)),
        Expr::Logical(t, l, r) => ExprView::Logical(
            tok_view(t),
            Box::new(expr_view(*l)),
            Box::new(expr_view(*r)),
        ),
        Expr::Unary(t, inner) => ExprView::Unary(tok_view(t), Box::new(expr_view(*inner))),
        Expr::Variable(id, t) => ExprView::Variable(id, tok_view(t)),
        Expr::Assignment(id, t, v) => ExprView::Assignment(id, tok_view(t), Box::new(expr_view(*v))),
        Expr::Call(callee, paren, arguments) => ExprView::Call(
            Box::new(expr_view(*callee)),
            tok_view(paren),
            exprs_view(arguments@),
        ),
        Expr::Get(object, name) => ExprView::Get(Box::new(expr_view(*object)), tok_view(name)),
        Expr::SetProperty(object, name, v) => ExprView::SetProperty(
            Box::new(expr_view(*object)),
            tok_view(name),
            Box::new(expr_view(*v)),
        ),
        Expr::This(id, t) => ExprView::This(id, tok_view(t)),
        Expr::Super(id, t, m) => ExprView::Super(id, tok_view(t), tok_view(m)),
        Expr::Function(name, f) => ExprView::Function(
            match name {
                Some(t) => Some(tok_view(t)),
                None => None,
            },
            function_view(*f),
        ),
    }
}

/// The view of a function.
pub open spec fn function_view(f: Function) -> FunctionView
    decreases f,
{
    FunctionView { parameters: toks_view(f.parameters@), body: stmts_view(f.body@) }
}

/// The views of a list of tokens.
pub open spec fn toks_view(ts: Seq<Token>) -> Seq<SpecToken> {
    ts.map_values(|t: Token| tok_view(t))
}

/// The view of a statement.
pub open spec fn stmt_view(s: Statement) -> StmtView
    decreases s,
{
    match s {
        Statement::Print(e) => StmtView::Print(expr_view(e)),
        Statement::Expression(e) => StmtView::Expression(expr_view(e)),
        Statement::Variable(t, initializer) => StmtView::Variable(
            tok_view(t),
            match initializer {
                Some(e) => Some(expr_view(e)),
                None => None,
            },
        ),
        Statement::Block(statements) => StmtView::Block(stmts_view(statements@)),
        Statement::If(c, t, e) => StmtView::If(
            expr_view(c),
            Box::new(stmt_view(*t)),
            match e {
                Some(x) => Some(Box::new(stmt_view(*x))),
                None => None,
            },
        ),
        Statement::While(c, b) => StmtView::While(expr_view(c), Box::new(stmt_view(*b))),
        Statement::Return(k, v) => StmtView::Return(
            tok_view(k),
            match v {
                Some(e) => Some(expr_view(e)),
                None => None,
            },
        ),
        Statement::Class(name, methods, superclass) => StmtView::Class(
            tok_view(name),
            exprs_view(methods@),
            match superclass {
                Some(e) => Some(expr_view(e)),
                None => None,
            },
        ),
    }
}

/// The views of a list of statements.
pub open spec fn stmts_view(ss: Seq<Statement>) -> Seq<StmtView>
    decreases ss,
{
    if ss.len() == 0 {
        Seq::empty()
    } else {
        stmts_view(ss.drop_last()).push(stmt_view(ss.last()))
    }
}

/// The views of two statements in a row.
pub proof fn lemma_two_views(a: Statement, b: Statement)
    ensures
        stmts_view(seq![a, b]) == seq![stmt_view(a), stmt_view(b)],
{
    assert(seq![a, b].drop_last() =~= seq![a]);
    assert(seq![a].drop_last() =~= Seq::<Statement>::empty());
    reveal_with_fuel(stmts_view, 3);
    assert(stmts_view(seq![a]) =~= seq![stmt_view(a)]);
}

/// The views of a list of expressions.
pub open spec fn exprs_view(es: Seq<Expr>) -> Seq<ExprView>
    decreases es,
{
    if es.len() == 0 {
        Seq::empty()
    } else {
        exprs_view(es.drop_last()).push(expr_view(es.last()))
    }
}

/// The next number for an expression: one more, unless at the limit.
pub open spec fn bump(id: usize) -> usize {
    if id < usize::MAX {
        (id + 1) as usize
    } else {
        id
    }
}

/// Whether the first item is a token of the given kind.
pub open spec fn first_is(items: Seq<SpecItem>, k: TokenType) -> bool {
    items.len() > 0 && (items[0] matches SpecItem::Tok(t) && t.token_type == k)
}

/// Whether the first item is a scanning error.
pub open spec fn first_fails(items: Seq<SpecItem>) -> bool {
    items.len() > 0 && items[0] is Error
}

/// The first item's token, when it is one.
pub open spec fn first_token(items: Seq<SpecItem>) -> SpecToken {
    items[0]->Tok_0
}

/// How reading a piece of grammar ends: with an error, with nothing read
/// (the stream ended, or a reported error the caller goes past), or with a
/// result.
pub enum Parsed<T> {
    Failed,
    Nothing,
    Got(T),
}

/// An outcome, the items and expression number after it, and whether the
/// reading went without a reported error (an invalid assignment target is
/// reported without failing).
pub struct Step<T> {
    pub parsed: Parsed<T>,
    pub rest: Seq<SpecItem>,
    pub next_id: usize,
    pub clean: bool,
}

pub open spec fn step<T>(parsed: Parsed<T>, rest: Seq<SpecItem>, next_id: usize) -> Step<T> {
    Step { parsed, rest, next_id, clean: true }
}

pub open spec fn failed<T>() -> Step<T> {
    Step { parsed: Parsed::Failed, rest: Seq::empty(), next_id: 0, clean: true }
}

/// `s`, not clean unless `c` holds too: for a step read after parts whose
/// cleanness is `c`.
pub open spec fn taint<T>(s: Step<T>, c: bool) -> Step<T> {
    Step { parsed: s.parsed, rest: s.rest, next_id: s.next_id, clean: s.clean && c }
}

/// Nothing read, with an error reported.
pub open spec fn reported<T>(rest: Seq<SpecItem>, next_id: usize) -> Step<T> {
    Step { parsed: Parsed::Nothing, rest, next_id, clean: false }
}

/// An expression: an assignment, or an operator expression.
pub open spec fn spec_expression(items: Seq<SpecItem>, id: usize) -> Step<ExprView>
    decreases items.len(), 50nat,
{
    spec_assignment(items, id)
}

/// An assignment to a variable or a property, or an `or` expression. An
/// `=` after anything else is reported, and reads as nothing.
pub open spec fn spec_assignment(items: Seq<SpecItem>, id: usize) -> Step<ExprView>
    decreases items.len(), 49nat,
{
    let b = spec_binary(6, items, id);
    match b.parsed {
        Parsed::Failed => failed(),
        _ => if first_fails(b.rest) {
            failed()
        } else if first_is(b.rest, TokenType::Equal) && b.rest.len() <= items.len() {
            let v = spec_assignment(b.rest.drop_first(), b.next_id);
            match v.parsed {
                Parsed::Failed => failed(),
                Parsed::Got(value) => match b.parsed {
                    Parsed::Got(ExprView::Variable(_, t)) => taint(
                        step(
                            Parsed::Got(ExprView::Assignment(v.next_id, t, Box::new(value))),
                            v.rest,
                            bump(v.next_id),
                        ),
                        b.clean && v.clean,
                    ),
                    Parsed::Got(ExprView::Get(object, name)) => taint(
                        step(
                            Parsed::Got(ExprView::SetProperty(object, name, Box::new(value))),
                            v.rest,
                            v.next_id,
                        ),
                        b.clean && v.clean,
                    ),
                    _ => reported(v.rest, v.next_id),
                },
                Parsed::Nothing => reported(v.rest, v.next_id),
            }
        } else if first_is(b.rest, TokenType::Equal) {
            failed()
        } else {
            b
        },
    }
}

/// The operand of a binary level: the next level, or a unary expression.
pub open spec fn spec_operand(level: u8, items: Seq<SpecItem>, id: usize) -> Step<ExprView>
    decreases items.len(), 20 + 2 * level as nat,
{
    if level <= 1 {
        spec_unary(items, id)
    } else {
        spec_binary((level - 1) as u8, items, id)
    }
}

/// Operands of a level joined by its operators, left to right.
pub open spec fn spec_binary(level: u8, items: Seq<SpecItem>, id: usize) -> Step<ExprView>
    decreases items.len(), 21 + 2 * level as nat,
{
    if level < 1 || level > 6 {
        failed()
    } else {
        let f = spec_operand(level, items, id);
        match f.parsed {
            Parsed::Got(e) => if f.rest.len() < items.len() {
                taint(spec_binary_rest(level, e, f.rest, f.next_id), f.clean)
            } else {
                failed()
            },
            _ => f,
        }
    }
}

/// The rest of a level after its left operand `e`.
pub open spec fn spec_binary_rest(level: u8, e: ExprView, items: Seq<SpecItem>, id: usize) -> Step<ExprView>
    decreases items.len(), 20 + 2 * level as nat,
{
    if first_fails(items) {
        failed()
    } else if items.len() > 0 && items[0] is Tok && level_accepts(level, first_token(items).token_type) {
        let op = first_token(items);
        let r = spec_operand(level, items.drop_first(), id);
        match r.parsed {
            Parsed::Got(right) => {
                let joined = if level >= 5 {
                    ExprView::Logical(op, Box::new(e), Box::new(right))
                } else {
                    ExprView::Binary(op, Box::new(e), Box::new(right))
                };
                if r.rest.len() < items.len() {
                    taint(spec_binary_rest(level, joined, r.rest, r.next_id), r.clean)
                } else {
                    failed()
                }
            },
            _ => r,
        }
    } else {
        step(Parsed::Got(e), items, id)
    }
}

/// `!` or `-` before a unary expression, or a call.
pub open spec fn spec_unary(items: Seq<SpecItem>, id: usize) -> Step<ExprView>
    decreases items.len(), 19nat,
{
    if first_fails(items) {
        failed()
    } else if items.len() > 0 && items[0] is Tok && level_accepts(0, first_token(items).token_type) {
        let op = first_token(items);
        let r = spec_unary(items.drop_first(), id);
        match r.parsed {
            Parsed::Got(right) => taint(
                step(Parsed::Got(ExprView::Unary(op, Box::new(right))), r.rest, r.next_id),
                r.clean,
            ),
            _ => r,
        }
    } else {
        spec_call(items, id)
    }
}

/// A primary expression followed by calls and property accesses.
pub open spec fn spec_call(items: Seq<SpecItem>, id: usize) -> Step<ExprView>
    decreases items.len(), 18nat,
{
    let p = spec_primary(items, id);
    match p.parsed {
        Parsed::Got(e) => if p.rest.len() < items.len() {
            taint(spec_call_rest(e, p.rest, p.next_id), p.clean)
        } else {
            failed()
        },
        _ => p,
    }
}

/// The calls and property accesses after `e`.
pub open spec fn spec_call_rest(e: ExprView, items: Seq<SpecItem>, id: usize) -> Step<ExprView>
    decreases items.len(), 17nat,
{
    if first_fails(items) {
        failed()
    } else if first_is(items, TokenType::LeftParenthesis) {
        let f = spec_finish_call(e, items, id);
        match f.parsed {
            Parsed::Got(called) => if f.rest.len() < items.len() {
                taint(spec_call_rest(called, f.rest, f.next_id), f.clean)
            } else {
                failed()
            },
            _ => failed(),
        }
    } else if first_is(items, TokenType::Dot) {
        let rest = items.drop_first();
        if first_is(rest, TokenType::Identifier) {
            spec_call_rest(
                ExprView::Get(Box::new(e), first_token(rest)),
                rest.drop_first(),
                id,
            )
        } else {
            failed()
        }
    } else {
        step(Parsed::Got(e), items, id)
    }
}

/// The arguments of a call of `callee`, from its `(`.
pub open spec fn spec_finish_call(callee: ExprView, items: Seq<SpecItem>, id: usize) -> Step<ExprView>
    decreases items.len(), 16nat,
{
    if items.len() == 0 {
        failed()
    } else {
        let rest = items.drop_first();
        if first_is(rest, TokenType::RightParenthesis) {
            step(
                Parsed::Got(ExprView::Call(Box::new(callee), first_token(rest), Seq::empty())),
                rest.drop_first(),
                id,
            )
        } else if first_fails(rest) {
            failed()
        } else {
            spec_arguments(callee, Seq::empty(), rest, id)
        }
    }
}

/// More arguments after `args`, then the closing `)`.
pub open spec fn spec_arguments(
    callee: ExprView,
    args: Seq<ExprView>,
    items: Seq<SpecItem>,
    id: usize,
) -> Step<ExprView>
    decreases items.len(), 51nat,
{
    let a = spec_expression(items, id);
    match a.parsed {
        Parsed::Failed => failed(),
        Parsed::Nothing => taint(spec_close_call(callee, args, a.rest, a.next_id), a.clean),
        Parsed::Got(arg) => if first_fails(a.rest) {
            failed()
        } else if first_is(a.rest, TokenType::Comma) && a.rest.len() <= items.len() {
            taint(spec_arguments(callee, args.push(arg), a.rest.drop_first(), a.next_id), a.clean)
        } else if first_is(a.rest, TokenType::Comma) {
            failed()
        } else {
            taint(spec_close_call(callee, args.push(arg), a.rest, a.next_id), a.clean)
        },
    }
}

/// The `)` that ends a call.
pub open spec fn spec_close_call(
    callee: ExprView,
    args: Seq<ExprView>,
    items: Seq<SpecItem>,
    id: usize,
) -> Step<ExprView> {
    if first_is(items, TokenType::RightParenthesis) {
        step(
            Parsed::Got(ExprView::Call(Box::new(callee), first_token(items), args)),
            items.drop_first(),
            id,
        )
    } else {
        failed()
    }
}

/// A literal, a name, `this`, `super.name`, or an expression in
/// parentheses.
pub open spec fn spec_primary(items: Seq<SpecItem>, id: usize) -> Step<ExprView>
    decreases items.len(), 15nat,
{
    if items.len() == 0 {
        step(Parsed::Nothing, items, id)
    } else if items[0] is Error {
        failed()
    } else {
        let t = first_token(items);
        let rest = items.drop_first();
        match t.token_type {
            TokenType::Identifier => step(
                Parsed::Got(ExprView::Variable(id, t)),
                rest,
                bump(id),
            ),
            TokenType::False | TokenType::True | TokenType::Nil | TokenType::Number
            | TokenType::String => step(Parsed::Got(ExprView::Literal(t)), rest, id),
            TokenType::This => step(Parsed::Got(ExprView::This(id, t)), rest, bump(id)),
            TokenType::Super => if first_is(rest, TokenType::Dot) && first_is(
                rest.drop_first(),
                TokenType::Identifier,
            ) {
                step(
                    Parsed::Got(ExprView::Super(id, t, first_token(rest.drop_first()))),
                    rest.drop_first().drop_first(),
                    bump(id),
                )
            } else {
                failed()
            },
            TokenType::Fun => {
                let f = spec_function_body(rest, id);
                match f.parsed {
                    Parsed::Got(fv) => taint(
                        step(Parsed::Got(ExprView::Function(None, fv)), f.rest, f.next_id),
                        f.clean,
                    ),
                    _ => failed(),
                }
            },
            TokenType::LeftParenthesis => {
                let inner = spec_expression(rest, id);
                match inner.parsed {
                    Parsed::Got(e) => if first_is(inner.rest, TokenType::RightParenthesis) {
                        taint(
                            step(
                                Parsed::Got(ExprView::Grouping(Box::new(e))),
                                inner.rest.drop_first(),
                                inner.next_id,
                            ),
                            inner.clean,
                        )
                    } else {
                        failed()
                    },
                    _ => inner,
                }
            },
            _ => failed(),
        }
    }
}

/// The items a token cursor has still to produce.
pub open spec fn cursor_items(t: TokensIterator) -> Seq<SpecItem> {
    if t.has_reached_eof {
        Seq::empty()
    } else {
        spec_scan_from(t.content@, t.pos as int, t.line as nat)
    }
}

/// The declarations read one after another from the start of the items,
/// up to the first that reads as nothing; `None` when one fails.
pub open spec fn spec_program(items: Seq<SpecItem>, id: usize) -> Option<Seq<StmtView>>
    decreases items.len(),
{
    let d = spec_declaration(items, id);
    match d.parsed {
        Parsed::Got(st) => if d.rest.len() < items.len() {
            match spec_program(d.rest, d.next_id) {
                Some(more) => Some(seq![st] + more),
                None => None,
            }
        } else {
            None
        },
        Parsed::Nothing => Some(Seq::empty()),
        Parsed::Failed => None,
    }
}


/// Whether reading the declarations of `spec_program` reports no error.
pub open spec fn spec_program_clean(items: Seq<SpecItem>, id: usize) -> bool
    decreases items.len(),
{
    let d = spec_declaration(items, id);
    match d.parsed {
        Parsed::Got(st) => if d.rest.len() < items.len() {
            d.clean && spec_program_clean(d.rest, d.next_id)
        } else {
            false
        },
        Parsed::Nothing => d.clean,
        Parsed::Failed => false,
    }
}

/// The token of the `true` that stands for a missing `for` condition.
pub open spec fn true_token(line: nat) -> SpecToken {
    SpecToken {
        token_type: TokenType::True,
        lexeme: seq!['t', 'r', 'u', 'e'],
        literal: crate::scanner::SpecLiteral::Nothing,
        line,
    }
}

/// A `;` after what was read.
pub open spec fn spec_semicolon<T>(v: T, items: Seq<SpecItem>, id: usize) -> Step<T> {
    if first_is(items, TokenType::Semicolon) {
        step(Parsed::Got(v), items.drop_first(), id)
    } else {
        failed()
    }
}

/// An optional part: nothing read counts as a missing part.
pub open spec fn optional<T>(s: Step<T>) -> Step<Option<T>> {
    match s.parsed {
        Parsed::Failed => failed(),
        Parsed::Nothing => taint(step(Parsed::Got(None), s.rest, s.next_id), s.clean),
        Parsed::Got(v) => taint(step(Parsed::Got(Some(v)), s.rest, s.next_id), s.clean),
    }
}

/// The parameters of a function after its `(`, up to its `)`.
pub open spec fn spec_parameters(items: Seq<SpecItem>, acc: Seq<SpecToken>, id: usize) -> Step<
    Seq<SpecToken>,
>
    decreases items.len(),
{
    if !first_is(items, TokenType::Identifier) {
        failed()
    } else {
        let p = first_token(items);
        let r = items.drop_first();
        if first_fails(r) {
            failed()
        } else if first_is(r, TokenType::Comma) {
            spec_parameters(r.drop_first(), acc.push(p), id)
        } else if first_is(r, TokenType::RightParenthesis) {
            step(Parsed::Got(acc.push(p)), r.drop_first(), id)
        } else {
            failed()
        }
    }
}

/// A function's parameters in parentheses, then its body.
pub open spec fn spec_function_body(items: Seq<SpecItem>, id: usize) -> Step<FunctionView>
    decreases items.len(), 53nat,
{
    if !first_is(items, TokenType::LeftParenthesis) {
        failed()
    } else {
        let r1 = items.drop_first();
        let ps = if first_fails(r1) {
            failed()
        } else if first_is(r1, TokenType::RightParenthesis) {
            step(Parsed::Got(Seq::empty()), r1.drop_first(), id)
        } else {
            spec_parameters(r1, Seq::empty(), id)
        };
        match ps.parsed {
            Parsed::Got(params) => if ps.rest.len() < items.len() {
                let b = spec_block(ps.rest, ps.next_id);
                match b.parsed {
                    Parsed::Got(body) => taint(
                        step(Parsed::Got(FunctionView { parameters: params, body }), b.rest, b.next_id),
                        b.clean,
                    ),
                    _ => failed(),
                }
            } else {
                failed()
            },
            _ => failed(),
        }
    }
}

/// Declarations between braces.
pub open spec fn spec_block(items: Seq<SpecItem>, id: usize) -> Step<Seq<StmtView>>
    decreases items.len(), 53nat,
{
    if !first_is(items, TokenType::LeftBrace) {
        failed()
    } else {
        spec_block_items(items.drop_first(), id, Seq::empty())
    }
}

/// The declarations of a block after `acc`, up to its `}` (or the end).
pub open spec fn spec_block_items(items: Seq<SpecItem>, id: usize, acc: Seq<StmtView>) -> Step<
    Seq<StmtView>,
>
    decreases items.len(), 62nat,
{
    if first_fails(items) {
        failed()
    } else if items.len() == 0 {
        step(Parsed::Got(acc), items, id)
    } else if first_is(items, TokenType::RightBrace) {
        step(Parsed::Got(acc), items.drop_first(), id)
    } else {
        let d = spec_declaration(items, id);
        match d.parsed {
            Parsed::Got(st) => if d.rest.len() < items.len() {
                taint(spec_block_items(d.rest, d.next_id, acc.push(st)), d.clean)
            } else {
                failed()
            },
            _ => failed(),
        }
    }
}

/// A declaration: a variable, a class, a named function or a statement;
/// nothing at the end of the tokens.
pub open spec fn spec_declaration(items: Seq<SpecItem>, id: usize) -> Step<StmtView>
    decreases items.len(), 61nat,
{
    if first_fails(items) {
        failed()
    } else if items.len() == 0 || first_is(items, TokenType::EOF) {
        step(Parsed::Nothing, items, id)
    } else if first_is(items, TokenType::Var) {
        spec_var_declaration(items, id)
    } else if first_is(items, TokenType::Class) {
        spec_class_declaration(items, id)
    } else if first_is(items, TokenType::Fun) && first_is(items.drop_first(), TokenType::Identifier) {
        spec_fun_declaration(items, id)
    } else {
        spec_statement(items, id)
    }
}

/// `var name;` or `var name = value;`.
pub open spec fn spec_var_declaration(items: Seq<SpecItem>, id: usize) -> Step<StmtView>
    decreases items.len(), 53nat,
{
    let r1 = items.drop_first();
    if items.len() == 0 || !first_is(r1, TokenType::Identifier) {
        failed()
    } else {
        let name = first_token(r1);
        let r2 = r1.drop_first();
        if first_fails(r2) {
            failed()
        } else if first_is(r2, TokenType::Equal) {
            let e = spec_expression(r2.drop_first(), id);
            match e.parsed {
                Parsed::Failed => failed(),
                Parsed::Nothing => taint(
                    spec_semicolon(StmtView::Variable(name, None), e.rest, e.next_id),
                    e.clean,
                ),
                Parsed::Got(v) => taint(
                    spec_semicolon(StmtView::Variable(name, Some(v)), e.rest, e.next_id),
                    e.clean,
                ),
            }
        } else {
            spec_semicolon(StmtView::Variable(name, None), r2, id)
        }
    }
}

/// `fun name(parameters) { body }`, read as a variable holding a named
/// function.
pub open spec fn spec_fun_declaration(items: Seq<SpecItem>, id: usize) -> Step<StmtView>
    decreases items.len(), 53nat,
{
    let r1 = items.drop_first();
    if items.len() == 0 || !first_is(r1, TokenType::Identifier) {
        failed()
    } else {
        let name = first_token(r1);
        let f = spec_function_body(r1.drop_first(), id);
        match f.parsed {
            Parsed::Got(fv) => taint(
                step(
                    Parsed::Got(StmtView::Variable(name, Some(ExprView::Function(Some(name), fv)))),
                    f.rest,
                    f.next_id,
                ),
                f.clean,
            ),
            _ => failed(),
        }
    }
}

/// `class name { methods }`, with `< parent` before the brace for a
/// subclass.
pub open spec fn spec_class_declaration(items: Seq<SpecItem>, id: usize) -> Step<StmtView>
    decreases items.len(), 56nat,
{
    let r1 = items.drop_first();
    if items.len() == 0 || !first_is(r1, TokenType::Identifier) {
        failed()
    } else {
        let name = first_token(r1);
        let r2 = r1.drop_first();
        let sup = if first_fails(r2) {
            failed()
        } else if first_is(r2, TokenType::Less) {
            let r3 = r2.drop_first();
            if first_is(r3, TokenType::Identifier) {
                step(
                    Parsed::Got(Some(ExprView::Variable(id, first_token(r3)))),
                    r3.drop_first(),
                    bump(id),
                )
            } else {
                failed()
            }
        } else {
            step(Parsed::Got(None), r2, id)
        };
        match sup.parsed {
            Parsed::Got(superclass) => if first_is(sup.rest, TokenType::LeftBrace) && sup.rest.len()
                < items.len() {
                let m = spec_methods(sup.rest.drop_first(), sup.next_id, Seq::empty());
                match m.parsed {
                    Parsed::Got(methods) => if first_is(m.rest, TokenType::RightBrace) {
                        taint(
                            step(
                                Parsed::Got(StmtView::Class(name, methods, superclass)),
                                m.rest.drop_first(),
                                m.next_id,
                            ),
                            m.clean,
                        )
                    } else {
                        failed()
                    },
                    _ => failed(),
                }
            } else {
                failed()
            },
            _ => failed(),
        }
    }
}

/// The methods of a class after `acc`, up to its `}` (or the end).
pub open spec fn spec_methods(items: Seq<SpecItem>, id: usize, acc: Seq<ExprView>) -> Step<
    Seq<ExprView>,
>
    decreases items.len(), 55nat,
{
    if first_fails(items) {
        failed()
    } else if items.len() == 0 || first_is(items, TokenType::RightBrace) || first_is(
        items,
        TokenType::EOF,
    ) {
        step(Parsed::Got(acc), items, id)
    } else if !first_is(items, TokenType::Identifier) {
        failed()
    } else {
        let m = first_token(items);
        let f = spec_function_body(items.drop_first(), id);
        match f.parsed {
            Parsed::Got(fv) => if f.rest.len() < items.len() {
                taint(spec_methods(f.rest, f.next_id, acc.push(ExprView::Function(Some(m), fv))), f.clean)
            } else {
                failed()
            },
            _ => failed(),
        }
    }
}

/// A statement; nothing at the end of the tokens.
pub open spec fn spec_statement(items: Seq<SpecItem>, id: usize) -> Step<StmtView>
    decreases items.len(), 60nat,
{
    if first_fails(items) {
        failed()
    } else if items.len() == 0 {
        step(Parsed::Nothing, items, id)
    } else if first_is(items, TokenType::If) {
        spec_if(items, id)
    } else if first_is(items, TokenType::LeftBrace) {
        let b = spec_block(items, id);
        match b.parsed {
            Parsed::Got(ss) => taint(step(Parsed::Got(StmtView::Block(ss)), b.rest, b.next_id), b.clean),
            _ => failed(),
        }
    } else if first_is(items, TokenType::Print) {
        spec_print(items, id)
    } else if first_is(items, TokenType::While) {
        spec_while(items, id)
    } else if first_is(items, TokenType::For) {
        spec_for(items, id)
    } else if first_is(items, TokenType::Return) {
        spec_return(items, id)
    } else {
        spec_expression_statement(items, id)
    }
}

/// `if (condition) statement`, with `else statement` after it when
/// there. A missing condition or branch reads as nothing.
pub open spec fn spec_if(items: Seq<SpecItem>, id: usize) -> Step<StmtView>
    decreases items.len(), 53nat,
{
    let r1 = items.drop_first();
    if items.len() == 0 || !first_is(r1, TokenType::LeftParenthesis) {
        failed()
    } else {
        let c = spec_expression(r1.drop_first(), id);
        if c.parsed is Failed || !first_is(c.rest, TokenType::RightParenthesis) || c.rest.len()
            >= items.len() {
            failed()
        } else {
            let t = spec_statement(c.rest.drop_first(), c.next_id);
            if t.parsed is Failed || t.rest.len() >= items.len() {
                failed()
            } else {
                let e = if first_fails(t.rest) {
                    failed()
                } else if first_is(t.rest, TokenType::Else) {
                    optional(spec_statement(t.rest.drop_first(), t.next_id))
                } else {
                    step(Parsed::Got(None), t.rest, t.next_id)
                };
                match e.parsed {
                    Parsed::Got(else_branch) => taint(
                        match (c.parsed, t.parsed) {
                            (Parsed::Got(cv), Parsed::Got(tv)) => step(
                                Parsed::Got(
                                    StmtView::If(
                                        cv,
                                        Box::new(tv),
                                        match else_branch {
                                            Some(x) => Some(Box::new(x)),
                                            None => None,
                                        },
                                    ),
                                ),
                                e.rest,
                                e.next_id,
                            ),
                            _ => step(Parsed::Nothing, e.rest, e.next_id),
                        },
                        c.clean && t.clean && e.clean,
                    ),
                    _ => failed(),
                }
            }
        }
    }
}

/// `while (condition) statement`. A missing condition or body reads as
/// nothing.
pub open spec fn spec_while(items: Seq<SpecItem>, id: usize) -> Step<StmtView>
    decreases items.len(), 53nat,
{
    let r1 = items.drop_first();
    if items.len() == 0 || !first_is(r1, TokenType::LeftParenthesis) {
        failed()
    } else {
        let c = spec_expression(r1.drop_first(), id);
        if c.parsed is Failed || !first_is(c.rest, TokenType::RightParenthesis) || c.rest.len()
            >= items.len() {
            failed()
        } else {
            let b = spec_statement(c.rest.drop_first(), c.next_id);
            match (c.parsed, b.parsed) {
                (_, Parsed::Failed) => failed(),
                (Parsed::Got(cv), Parsed::Got(bv)) => taint(
                    step(Parsed::Got(StmtView::While(cv, Box::new(bv))), b.rest, b.next_id),
                    c.clean && b.clean,
                ),
                _ => taint(step(Parsed::Nothing, b.rest, b.next_id), c.clean && b.clean),
            }
        }
    }
}

/// The initializer clause of a `for` loop, through its `;`: nothing, a
/// variable declaration or an expression statement.
#[verifier::opaque]
pub open spec fn spec_for_init(items: Seq<SpecItem>, id: usize) -> Step<Option<StmtView>>
    decreases items.len(), 54nat,
{
    if first_fails(items) {
        failed()
    } else if first_is(items, TokenType::Semicolon) {
        step(Parsed::Got(None), items.drop_first(), id)
    } else if first_is(items, TokenType::Var) {
        optional(spec_var_declaration(items, id))
    } else {
        optional(spec_expression_statement(items, id))
    }
}

/// An expression, possibly missing, then `;`: the condition clause of a
/// `for` loop, or the value of a `return`.
#[verifier::opaque]
pub open spec fn spec_value_semicolon(items: Seq<SpecItem>, id: usize) -> Step<Option<ExprView>>
    decreases items.len(), 53nat,
{
    let cond = if first_fails(items) {
        failed()
    } else if first_is(items, TokenType::Semicolon) {
        step(Parsed::Got(None), items, id)
    } else {
        optional(spec_expression(items, id))
    };
    match cond.parsed {
        Parsed::Got(c) => if first_is(cond.rest, TokenType::Semicolon) && cond.rest.len()
            <= items.len() {
            taint(step(Parsed::Got(c), cond.rest.drop_first(), cond.next_id), cond.clean)
        } else {
            failed()
        },
        _ => failed(),
    }
}

/// The increment clause of a `for` loop, possibly empty, through the `)`.
#[verifier::opaque]
pub open spec fn spec_for_increment(items: Seq<SpecItem>, id: usize) -> Step<Option<ExprView>>
    decreases items.len(), 53nat,
{
    let inc = if first_fails(items) {
        failed()
    } else if first_is(items, TokenType::RightParenthesis) {
        step(Parsed::Got(None), items, id)
    } else {
        optional(spec_expression(items, id))
    };
    match inc.parsed {
        Parsed::Got(n) => if first_is(inc.rest, TokenType::RightParenthesis) && inc.rest.len()
            <= items.len() {
            taint(step(Parsed::Got(n), inc.rest.drop_first(), inc.next_id), inc.clean)
        } else {
            failed()
        },
        _ => failed(),
    }
}

/// The clauses of a `for` loop, from the `for` keyword through the `)`:
/// the `(` token, the initializer, the condition and the increment, each
/// of the last three possibly missing.
#[verifier::opaque]
pub open spec fn spec_for_clauses(items: Seq<SpecItem>, id: usize) -> Step<
    (SpecToken, Option<StmtView>, Option<ExprView>, Option<ExprView>),
>
    decreases items.len(), 53nat,
{
    let r1 = items.drop_first();
    if items.len() == 0 || !first_is(r1, TokenType::LeftParenthesis) {
        failed()
    } else {
        let open = first_token(r1);
        let init = spec_for_init(r1.drop_first(), id);
        match init.parsed {
            Parsed::Got(initializer) => if init.rest.len() < items.len() {
                let cond = spec_value_semicolon(init.rest, init.next_id);
                match cond.parsed {
                    Parsed::Got(condition) => if cond.rest.len() < items.len() {
                        let inc = spec_for_increment(cond.rest, cond.next_id);
                        match inc.parsed {
                            Parsed::Got(increment) => if inc.rest.len() < items.len() {
                                taint(
                                    step(
                                        Parsed::Got((open, initializer, condition, increment)),
                                        inc.rest,
                                        inc.next_id,
                                    ),
                                    init.clean && cond.clean && inc.clean,
                                )
                            } else {
                                failed()
                            },
                            _ => failed(),
                        }
                    } else {
                        failed()
                    },
                    _ => failed(),
                }
            } else {
                failed()
            },
            _ => failed(),
        }
    }
}

/// `parsed_as` for a part that may be missing: a statement.
pub open spec fn opt_stmt_as(
    r: Result<Option<Statement>, ()>,
    s: Step<Option<StmtView>>,
    before: Seq<SpecItem>,
    after: DeclarationsIterator,
    errs: Option<ParsingErrorsBuilder>,
) -> bool {
    &&& s.parsed is Got ==> (s.clean ==> after.errors == errs) && (!s.clean ==> after.errors is Some)
    &&&     match s.parsed {
        Parsed::Got(v) => r matches Ok(x) && opt_stmt_view(x) == v && after.pending() == s.rest
            && after.next_id == s.next_id && s.rest.len() <= before.len(),
        _ => r is Err,
    }
}

/// `parsed_as` for a part that may be missing: an expression.
pub open spec fn opt_expr_as(
    r: Result<Option<Expr>, ()>,
    s: Step<Option<ExprView>>,
    before: Seq<SpecItem>,
    after: DeclarationsIterator,
    errs: Option<ParsingErrorsBuilder>,
) -> bool {
    &&& s.parsed is Got ==> (s.clean ==> after.errors == errs) && (!s.clean ==> after.errors is Some)
    &&&     match s.parsed {
        Parsed::Got(v) => r matches Ok(x) && opt_expr_view(x) == v && after.pending() == s.rest
            && after.next_id == s.next_id && s.rest.len() <= before.len(),
        _ => r is Err,
    }
}

/// The statement a `for` loop reads as: a block that runs the initializer,
/// then a `while` loop on the condition (`true` when missing) whose body
/// runs the statement, then the increment.
pub open spec fn for_loop(
    open: SpecToken,
    initializer: Option<StmtView>,
    condition: Option<ExprView>,
    increment: Option<ExprView>,
    body: StmtView,
) -> StmtView {
    let body2 = match increment {
        Some(i) => StmtView::Block(seq![body, StmtView::Expression(i)]),
        None => body,
    };
    let cond2 = match condition {
        Some(c) => c,
        None => ExprView::Literal(true_token(open.line)),
    };
    let looped = StmtView::While(cond2, Box::new(body2));
    match initializer {
        Some(i) => StmtView::Block(seq![i, looped]),
        None => looped,
    }
}

/// `for (initializer; condition; increment) body`; a missing body reads as
/// nothing.
pub open spec fn spec_for(items: Seq<SpecItem>, id: usize) -> Step<StmtView>
    decreases items.len(), 54nat,
{
    let c = spec_for_clauses(items, id);
    match c.parsed {
        Parsed::Got((open, initializer, condition, increment)) => if c.rest.len() < items.len() {
            let b = spec_statement(c.rest, c.next_id);
            match b.parsed {
                Parsed::Failed => failed(),
                Parsed::Nothing => taint(step(Parsed::Nothing, b.rest, b.next_id), c.clean && b.clean),
                Parsed::Got(body) => taint(
                    step(
                        Parsed::Got(for_loop(open, initializer, condition, increment, body)),
                        b.rest,
                        b.next_id,
                    ),
                    c.clean && b.clean,
                ),
            }
        } else {
            failed()
        },
        _ => failed(),
    }
}

/// The view of a statement that may be missing.
pub open spec fn opt_stmt_view(s: Option<Statement>) -> Option<StmtView> {
    match s {
        Some(x) => Some(stmt_view(x)),
        None => None,
    }
}

/// The view of an expression that may be missing.
pub open spec fn opt_expr_view(e: Option<Expr>) -> Option<ExprView> {
    match e {
        Some(x) => Some(expr_view(x)),
        None => None,
    }
}

/// `print value;`.
pub open spec fn spec_print(items: Seq<SpecItem>, id: usize) -> Step<StmtView>
    decreases items.len(), 53nat,
{
    if items.len() == 0 {
        failed()
    } else {
        let e = spec_expression(items.drop_first(), id);
        match e.parsed {
            Parsed::Failed => failed(),
            Parsed::Nothing => taint(step(Parsed::Nothing, e.rest, e.next_id), e.clean),
            Parsed::Got(v) => taint(spec_semicolon(StmtView::Print(v), e.rest, e.next_id), e.clean),
        }
    }
}

/// `return;` or `return value;`.
pub open spec fn spec_return(items: Seq<SpecItem>, id: usize) -> Step<StmtView>
    decreases items.len(), 54nat,
{
    if items.len() == 0 {
        step(Parsed::Nothing, items, id)
    } else {
        let value = spec_value_semicolon(items.drop_first(), id);
        match value.parsed {
            Parsed::Got(v) => taint(
                step(Parsed::Got(StmtView::Return(first_token(items), v)), value.rest, value.next_id),
                value.clean,
            ),
            _ => failed(),
        }
    }
}

/// An expression followed by `;`.
pub open spec fn spec_expression_statement(items: Seq<SpecItem>, id: usize) -> Step<StmtView>
    decreases items.len(), 52nat,
{
    let e = spec_expression(items, id);
    match e.parsed {
        Parsed::Failed => failed(),
        Parsed::Nothing => taint(step(Parsed::Nothing, e.rest, e.next_id), e.clean),
        Parsed::Got(v) => taint(spec_semicolon(StmtView::Expression(v), e.rest, e.next_id), e.clean),
    }
}

/// Whether the result of a grammar function and the parser it leaves are
/// the step specified.
pub open spec fn parsed_as(
    r: Result<Option<Expr>, ()>,
    s: Step<ExprView>,
    before: Seq<SpecItem>,
    after: DeclarationsIterator,
    errs: Option<ParsingErrorsBuilder>,
) -> bool {
    &&& !(s.parsed is Failed) ==> (s.clean ==> after.errors == errs) && (!s.clean ==> after.errors is Some)
    &&&     match s.parsed {
        Parsed::Failed => r is Err,
        Parsed::Nothing => r matches Ok(None) && after.pending() == s.rest && after.next_id
            == s.next_id && s.rest.len() <= before.len(),
        Parsed::Got(v) => r matches Ok(Some(e)) && expr_view(e) == v && after.pending() == s.rest
            && after.next_id == s.next_id && s.rest.len() < before.len(),
    }
}

/// `parsed_as` for statements.
pub open spec fn stmt_as(
    r: Result<Option<Statement>, ()>,
    s: Step<StmtView>,
    before: Seq<SpecItem>,
    after: DeclarationsIterator,
    errs: Option<ParsingErrorsBuilder>,
) -> bool {
    &&& !(s.parsed is Failed) ==> (s.clean ==> after.errors == errs) && (!s.clean ==> after.errors is Some)
    &&&     match s.parsed {
        Parsed::Failed => r is Err,
        Parsed::Nothing => r matches Ok(None) && after.pending() == s.rest && after.next_id
            == s.next_id && s.rest.len() <= before.len(),
        Parsed::Got(v) => r matches Ok(Some(st)) && stmt_view(st) == v && after.pending() == s.rest
            && after.next_id == s.next_id && s.rest.len() < before.len(),
    }
}

/// `parsed_as` for a function's parameters and body.
pub open spec fn function_as(
    r: Result<Function, ()>,
    s: Step<FunctionView>,
    before: Seq<SpecItem>,
    after: DeclarationsIterator,
    errs: Option<ParsingErrorsBuilder>,
) -> bool {
    &&& s.parsed is Got ==> (s.clean ==> after.errors == errs) && (!s.clean ==> after.errors is Some)
    &&&     match s.parsed {
        Parsed::Got(v) => r matches Ok(f) && function_view(f) == v && after.pending() == s.rest
            && after.next_id == s.next_id && s.rest.len() < before.len(),
        _ => r is Err,
    }
}

/// `parsed_as` for a block's declarations.
pub open spec fn block_as(
    r: Result<Vec<Statement>, ()>,
    s: Step<Seq<StmtView>>,
    before: Seq<SpecItem>,
    after: DeclarationsIterator,
    errs: Option<ParsingErrorsBuilder>,
) -> bool {
    &&& s.parsed is Got ==> (s.clean ==> after.errors == errs) && (!s.clean ==> after.errors is Some)
    &&&     match s.parsed {
        Parsed::Got(v) => r matches Ok(ss) && stmts_view(ss@) == v && after.pending() == s.rest
            && after.next_id == s.next_id && s.rest.len() < before.len(),
        _ => r is Err,
    }
}

/// `parsed_as` for a grammar function that always yields an expression or
/// fails.
pub open spec fn called_as(
    r: Result<Expr, ()>,
    s: Step<ExprView>,
    before: Seq<SpecItem>,
    after: DeclarationsIterator,
    errs: Option<ParsingErrorsBuilder>,
) -> bool {
    &&& s.parsed is Got ==> (s.clean ==> after.errors == errs) && (!s.clean ==> after.errors is Some)
    &&&     match s.parsed {
        Parsed::Got(v) => r matches Ok(e) && expr_view(e) == v && after.pending() == s.rest
            && after.next_id == s.next_id && s.rest.len() < before.len(),
        _ => r is Err,
    }
}

/// Produces statements from tokens, one at a time, recording the errors
/// it meets and skipping to the next statement after each.
pub struct DeclarationsIterator {
    pub tokens: TokensIterator,
    pub peeked: Option<Token>,
    pub errors: Option<ParsingErrorsBuilder>,
    pub next_id: usize,
}

impl DeclarationsIterator {
    pub open spec fn wf(&self) -> bool {
        self.tokens.wf()
    }

    /// The items still to be read: the peeked token, then what the
    /// scanner produces from its position.
    pub open spec fn pending(&self) -> Seq<SpecItem> {
        let rest = cursor_items(self.tokens);
        match self.peeked {
            Some(t) => seq![SpecItem::Tok(tok_view(t))] + rest,
            None => rest,
        }
    }

    /// Tokens not yet handed to the grammar, counting the peeked one.
    pub open spec fn measure(&self) -> nat {
        (if self.tokens.has_reached_eof {
            0nat
        } else {
            (1 + self.tokens.content.len() - self.tokens.pos) as nat
        }) + (if self.peeked is Some {
            1nat
        } else {
            0nat
        })
    }

    /// `measure` computed.
    fn remaining(&self) -> (r: usize)
        requires
            self.wf(),
        ensures
            r == self.measure(),
    {
        let a: usize = if self.tokens.has_reached_eof {
            0
        } else {
            1 + self.tokens.content.len() - self.tokens.pos
        };
        let b: usize = if self.peeked.is_some() {
            1
        } else {
            0
        };
        a + b
    }

    /// A parser over the tokens of a cursor, with no errors recorded.
    pub fn new(tokens: TokensIterator) -> (r: Self)
        requires
            tokens.wf(),
        ensures
            r.wf(),
            r.tokens == tokens,
            r.peeked is None,
            r.errors is None,
            r.next_id == 0,
    {
        DeclarationsIterator { tokens, peeked: None, errors: None, next_id: 0 }
    }

    /// A new number for a variable, assignment, `this` or `super`.
    fn new_id(&mut self) -> (r: usize)
        ensures
            old(self).errors is Some ==> final(self).errors is Some,
            final(self).tokens == old(self).tokens,
            final(self).peeked == old(self).peeked,
            final(self).errors == old(self).errors,
            r == old(self).next_id,
            final(self).next_id == bump(old(self).next_id),
    {
        let id = self.next_id;
        if self.next_id < usize::MAX {
            self.next_id = self.next_id + 1;
        }
        id
    }

    /// Records an error at the scanner's current line; always `Err`.
    fn add_error<R>(&mut self, message: Vec<char>) -> (r: Result<R, ()>)
        ensures
            r is Err,
            final(self).tokens == old(self).tokens,
            final(self).peeked == old(self).peeked,
            final(self).next_id == old(self).next_id,
            final(self).errors matches Some(b) && b.errors@.len() > 0 && b.errors@.last().message@
                == message@ && b.errors@.last().line == Some(old(self).tokens.line),
            old(self).errors matches Some(b) ==> (final(self).errors matches Some(a)
                && a.errors@.drop_last() == b.errors@),
            old(self).errors is None ==> (final(self).errors matches Some(a) && a.errors@.len() == 1),
    {
        let line = self.tokens.current_line();
        let mut b = match self.errors.take() {
            Some(b) => b,
            None => ParsingErrorsBuilder::new(),
        };
        b.add(message, line);
        self.errors = Some(b);
        Err(())
    }

    fn add_error_str<R>(&mut self, message: &str) -> (r: Result<R, ()>)
        ensures
            r is Err,
            final(self).tokens == old(self).tokens,
            final(self).peeked == old(self).peeked,
            final(self).next_id == old(self).next_id,
            final(self).errors matches Some(b) && b.errors@.len() > 0 && b.errors@.last().message@
                == message@,
            old(self).errors matches Some(b) ==> (final(self).errors matches Some(a)
                && a.errors@.drop_last() == b.errors@),
            old(self).errors is None ==> (final(self).errors matches Some(a) && a.errors@.len() == 1),
    {
        self.add_error(crate::text::str_to_chars(message))
    }

    /// The next item of the token stream, when nothing is peeked.
    fn pull(&mut self) -> (r: Option<Result<Token, Vec<char>>>)
        requires
            old(self).wf(),
            old(self).peeked is None,
        ensures
            old(self).errors is Some ==> final(self).errors is Some,
            final(self).wf(),
            final(self).peeked is None,
            final(self).errors == old(self).errors,
            final(self).next_id == old(self).next_id,
            r is Some ==> final(self).measure() < old(self).measure(),
            r is None ==> final(self).measure() == 0 && old(self).measure() == 0,
            r matches Some(Ok(t)) ==> old(self).pending() == seq![SpecItem::Tok(tok_view(t))]
                + final(self).pending(),
            r matches Some(Err(m)) ==> old(self).pending() == seq![SpecItem::Error(m@)]
                + final(self).pending(),
            r is None ==> old(self).pending().len() == 0 && final(self).pending().len() == 0,
    {
        let ghost s = self.tokens.content@;
        let ghost pos = self.tokens.pos as int;
        let ghost line = self.tokens.line as nat;
        proof {
            crate::scanner::lemma_spec_next_progress(s, pos, line);
        }
        let r = self.tokens.next();
        proof {
            if !old(self).tokens.has_reached_eof {
                let (item, p, l) = spec_next(s, pos, line);
                assert(spec_scan_from(s, pos, line) == if is_eof_item(item) {
                    seq![item]
                } else {
                    seq![item] + spec_scan_from(s, p, l)
                });
                match &r {
                    Some(Ok(t)) => {
                        if let SpecItem::Tok(st) = item {
                            lemma_tok_view(*t, st);
                        }
                    },
                    _ => {},
                }
                if is_eof_item(item) {
                    assert(seq![item] =~= seq![item] + Seq::<SpecItem>::empty());
                }
            }
        }
        r
    }

    /// Takes the next token. A scanning error is recorded and makes this
    /// `Err`.
    fn next_token(&mut self) -> (r: Result<Option<Token>, ()>)
        requires
            old(self).wf(),
        ensures
            old(self).errors is Some ==> final(self).errors is Some,
            r is Err ==> final(self).errors is Some,
            r is Ok ==> final(self).errors == old(self).errors,
            final(self).wf(),
            final(self).next_id == old(self).next_id,
            final(self).measure() <= old(self).measure(),
            r matches Ok(Some(_)) ==> final(self).measure() < old(self).measure(),
            r is Err ==> final(self).measure() < old(self).measure(),
            r matches Ok(None) ==> final(self).measure() == 0,
            r matches Ok(Some(t)) ==> old(self).pending() == seq![SpecItem::Tok(tok_view(t))]
                + final(self).pending(),
            r matches Ok(None) ==> old(self).pending().len() == 0 && final(self).pending().len()
                == 0,
            r is Err ==> first_fails(old(self).pending()),
            old(self).pending().len() > 0 && old(self).pending()[0] is Tok ==> r is Ok,
            final(self).pending().len() <= old(self).pending().len(),
    {
        match self.peeked.take() {
            Some(t) => Ok(Some(t)),
            None => match self.pull() {
                Some(Ok(t)) => Ok(Some(t)),
                Some(Err(e)) => self.add_error(e),
                None => Ok(None),
            },
        }
    }

    /// The kind of the next token, without taking it.
    fn peek(&mut self) -> (r: Result<Option<TokenType>, ()>)
        requires
            old(self).wf(),
        ensures
            old(self).errors is Some ==> final(self).errors is Some,
            r is Err ==> final(self).errors is Some,
            r is Ok ==> final(self).errors == old(self).errors,
            final(self).wf(),
            final(self).next_id == old(self).next_id,
            final(self).measure() <= old(self).measure(),
            r matches Ok(Some(t)) ==> (final(self).peeked matches Some(tok) && tok.token_type
                == t),
            r matches Ok(None) ==> (final(self).peeked is None && final(self).measure() == 0
                && old(self).measure() == 0),
            r is Err ==> final(self).measure() < old(self).measure(),
            r matches Ok(Some(k)) ==> final(self).pending() == old(self).pending() && first_is(
                old(self).pending(),
                k,
            ),
            r matches Ok(None) ==> final(self).pending() == old(self).pending()
                && old(self).pending().len() == 0,
            r is Err <==> first_fails(old(self).pending()),
    {
        match &self.peeked {
            Some(t) => {
                return Ok(Some(t.token_type));
            },
            None => {},
        }
        match self.pull() {
            Some(Ok(t)) => {
                let k = t.token_type;
                self.peeked = Some(t);
                Ok(Some(k))
            },
            Some(Err(e)) => self.add_error(e),
            None => Ok(None),
        }
    }

    /// Whether the next token still in the stream (the one after the
    /// peeked token) is an identifier; takes nothing.
    fn second_is_identifier(&mut self) -> (r: bool)
        requires
            old(self).wf(),
            old(self).peeked is Some,
        ensures
            old(self).errors is Some ==> final(self).errors is Some,
            final(self).errors == old(self).errors,
            *final(self) == *old(self),
            r == first_is(old(self).pending().drop_first(), TokenType::Identifier),
    {
        let pos = self.tokens.pos;
        let line = self.tokens.line;
        let eof = self.tokens.has_reached_eof;
        let ghost s = self.tokens.content@;
        proof {
            crate::scanner::lemma_spec_next_progress(s, pos as int, line as nat);
            assert(old(self).pending().drop_first() =~= cursor_items(old(self).tokens));
        }
        let next = self.tokens.next();
        proof {
            if !eof {
                let (item, p, l) = spec_next(s, pos as int, line as nat);
                assert(spec_scan_from(s, pos as int, line as nat)[0] == item);
                match &next {
                    Some(Ok(t)) => {
                        if let SpecItem::Tok(st) = item {
                            lemma_tok_view(*t, st);
                        }
                    },
                    _ => {},
                }
            }
        }
        let r = match next {
            Some(Ok(t)) => t.token_type == TokenType::Identifier,
            _ => false,
        };
        self.tokens.pos = pos;
        self.tokens.line = line;
        self.tokens.has_reached_eof = eof;
        r
    }

    /// Takes the next token if the matcher accepts its kind.
    fn next_matches(&mut self, m: Matcher) -> (r: Result<Option<Token>, ()>)
        requires
            old(self).wf(),
        ensures
            old(self).errors is Some ==> final(self).errors is Some,
            r is Err ==> final(self).errors is Some,
            r is Ok ==> final(self).errors == old(self).errors,
            final(self).wf(),
            final(self).next_id == old(self).next_id,
            final(self).measure() <= old(self).measure(),
            r matches Ok(Some(t)) ==> (final(self).measure() < old(self).measure()
                && matcher_accepts(m, t.token_type)),
            r is Err ==> final(self).measure() < old(self).measure(),
            r matches Ok(Some(t)) ==> old(self).pending() == seq![SpecItem::Tok(tok_view(t))]
                + final(self).pending(),
            r matches Ok(None) ==> final(self).pending() == old(self).pending() && !(old(
                self,
            ).pending().len() > 0 && old(self).pending()[0] is Tok && matcher_accepts(
                m,
                first_token(old(self).pending()).token_type,
            )),
            r is Err <==> first_fails(old(self).pending()),
    {
        match self.peek()? {
            Some(k) => {
                if accepts(&m, k) {
                    Ok(self.peeked.take())
                } else {
                    Ok(None)
                }
            },
            None => Ok(None),
        }
    }

    /// Takes a token of the given kind, or records the error.
    fn consume(&mut self, t: TokenType, message: &str) -> (r: Result<Token, ()>)
        requires
            old(self).wf(),
        ensures
            old(self).errors is Some ==> final(self).errors is Some,
            r is Err ==> final(self).errors is Some,
            r is Ok ==> final(self).errors == old(self).errors,
            final(self).wf(),
            final(self).next_id == old(self).next_id,
            final(self).measure() <= old(self).measure(),
            r matches Ok(tok) ==> (final(self).measure() < old(self).measure() && tok.token_type
                == t),
            r matches Ok(tok) ==> old(self).pending() == seq![SpecItem::Tok(tok_view(tok))]
                + final(self).pending(),
            first_is(old(self).pending(), t) ==> r is Ok,
            final(self).next_id == old(self).next_id,
    {
        match self.next_matches(Matcher::One(t))? {
            Some(tok) => Ok(tok),
            None => self.add_error_str(message),
        }
    }

    fn consume_semicolon(&mut self) -> (r: Result<(), ()>)
        requires
            old(self).wf(),
        ensures
            old(self).errors is Some ==> final(self).errors is Some,
            r is Err ==> final(self).errors is Some,
            r is Ok ==> final(self).errors == old(self).errors,
            final(self).wf(),
            final(self).next_id == old(self).next_id,
            final(self).measure() <= old(self).measure(),
            r is Ok ==> final(self).measure() < old(self).measure(),
            r is Ok <==> first_is(old(self).pending(), TokenType::Semicolon),
            r is Ok ==> final(self).pending() == old(self).pending().drop_first(),
    {
        let ghost items = self.pending();
        self.consume(TokenType::Semicolon, "Expect ';' after expression")?;
        assert(items.drop_first() =~= self.pending());
        Ok(())
    }
}

impl DeclarationsIterator {
    #[verifier::spinoff_prover]
    #[verifier::rlimit(40)]
    fn declaration(&mut self) -> (r: Result<Option<Statement>, ()>)
        requires
            old(self).wf(),
        ensures
            old(self).errors is Some ==> final(self).errors is Some,
            r is Err ==> final(self).errors is Some,
            final(self).wf(),
            final(self).measure() <= old(self).measure(),
            r matches Ok(Some(_)) ==> final(self).measure() < old(self).measure(),
            stmt_as(
                r,
                spec_declaration(old(self).pending(), old(self).next_id),
                old(self).pending(),
                *final(self),
                old(self).errors,
            ),
        decreases old(self).measure(), 30nat, 0nat,
    {
        match self.peek()? {
            Some(TokenType::EOF) => Ok(None),
            Some(TokenType::Var) => self.var_declaration(),
            Some(TokenType::Class) => self.class_declaration(),
            Some(TokenType::Fun) => {
                if self.second_is_identifier() {
                    self.fun_declaration()
                } else {
                    self.statement()
                }
            },
            Some(_) => self.statement(),
            None => Ok(None),
        }
    }

    #[verifier::spinoff_prover]
    #[verifier::rlimit(40)]
    fn var_declaration(&mut self) -> (r: Result<Option<Statement>, ()>)
        requires
            old(self).wf(),
            first_is(old(self).pending(), TokenType::Var),
        ensures
            old(self).errors is Some ==> final(self).errors is Some,
            r is Err ==> final(self).errors is Some,
            final(self).wf(),
            final(self).measure() <= old(self).measure(),
            r matches Ok(Some(_)) ==> final(self).measure() < old(self).measure(),
            stmt_as(
                r,
                spec_var_declaration(old(self).pending(), old(self).next_id),
                old(self).pending(),
                *final(self),
                old(self).errors,
            ),
        decreases old(self).measure(), 28nat, 0nat,
    {
        let ghost items = self.pending();
        let ghost id0 = self.next_id;
        let _ = self.next_token()?;
        let ghost r1 = self.pending();
        proof {
            assert(items.drop_first() =~= r1);
        }
        match self.next_token()? {
            Some(token) => {
                if token.token_type != TokenType::Identifier {
                    return self.add_error_str("Expect variable name");
                }
                let ghost r2 = self.pending();
                proof {
                    assert(r1[0] == SpecItem::Tok(tok_view(token)));
                    assert(r1.drop_first() =~= r2);
                }
                let initializer = match self.peek()? {
                    Some(TokenType::Equal) => {
                        let _ = self.next_token();
                        proof {
                            assert(r2.drop_first() =~= self.pending());
                        }
                        self.expression()?
                    },
                    _ => None,
                };
                self.consume_semicolon()?;
                Ok(Some(Statement::Variable(token, initializer)))
            },
            None => self.add_error_str("Expect variable name"),
        }
    }

    #[verifier::spinoff_prover]
    #[verifier::rlimit(40)]
    fn fun_declaration(&mut self) -> (r: Result<Option<Statement>, ()>)
        requires
            old(self).wf(),
            first_is(old(self).pending(), TokenType::Fun),
        ensures
            old(self).errors is Some ==> final(self).errors is Some,
            r is Err ==> final(self).errors is Some,
            final(self).wf(),
            final(self).measure() <= old(self).measure(),
            r matches Ok(Some(_)) ==> final(self).measure() < old(self).measure(),
            stmt_as(
                r,
                spec_fun_declaration(old(self).pending(), old(self).next_id),
                old(self).pending(),
                *final(self),
                old(self).errors,
            ),
        decreases old(self).measure(), 29nat, 0nat,
    {
        let ghost items = self.pending();
        let _ = self.next_token()?;
        let ghost r1 = self.pending();
        proof {
            assert(items.drop_first() =~= r1);
        }
        let name = self.consume(TokenType::Identifier, "Expect function name")?;
        proof {
            assert(r1[0] == SpecItem::Tok(tok_view(name)));
            assert(r1.drop_first() =~= self.pending());
        }
        let function = self.function_body()?;
        let ghost fv = function_view(function);
        let ghost nv = tok_view(name);
        let declared = name.duplicate();
        let value = Expr::Function(Some(name), Rc::new(function));
        proof {
            assert(expr_view(value) == ExprView::Function(Some(nv), fv));
        }
        let declaration = Statement::Variable(declared, Some(value));
        proof {
            assert(stmt_view(declaration) == StmtView::Variable(
                nv,
                Some(ExprView::Function(Some(nv), fv)),
            ));
        }
        Ok(Some(declaration))
    }

    #[verifier::spinoff_prover]
    #[verifier::rlimit(40)]
    fn class_declaration(&mut self) -> (r: Result<Option<Statement>, ()>)
        requires
            old(self).wf(),
            first_is(old(self).pending(), TokenType::Class),
        ensures
            old(self).errors is Some ==> final(self).errors is Some,
            r is Err ==> final(self).errors is Some,
            final(self).wf(),
            final(self).measure() <= old(self).measure(),
            r matches Ok(Some(_)) ==> final(self).measure() < old(self).measure(),
            stmt_as(
                r,
                spec_class_declaration(old(self).pending(), old(self).next_id),
                old(self).pending(),
                *final(self),
                old(self).errors,
            ),
        decreases old(self).measure(), 29nat, 0nat,
    {
        let ghost items = self.pending();
        let ghost id0 = self.next_id;
        let _ = self.next_token()?;
        let ghost r1 = self.pending();
        proof {
            assert(items.drop_first() =~= r1);
        }
        let name = self.consume(TokenType::Identifier, "Expect class name")?;
        let ghost r2 = self.pending();
        proof {
            assert(r1[0] == SpecItem::Tok(tok_view(name)));
            assert(r1.drop_first() =~= r2);
        }
        let superclass = match self.next_matches(Matcher::One(TokenType::Less))? {
            Some(less) => {
                let ghost r3 = self.pending();
                proof {
                    assert(r2[0] == SpecItem::Tok(tok_view(less)));
                    assert(r2.drop_first() =~= r3);
                }
                let parent = self.consume(TokenType::Identifier, "Expect superclass name")?;
                proof {
                    assert(r3[0] == SpecItem::Tok(tok_view(parent)));
                    assert(r3.drop_first() =~= self.pending());
                }
                let id = self.new_id();
                Some(Expr::Variable(id, parent))
            },
            None => None,
        };
        let ghost body_items = self.pending();
        let open = self.consume(TokenType::LeftBrace, "Expect '{' before class body")?;
        proof {
            assert(body_items[0] == SpecItem::Tok(tok_view(open)));
            assert(body_items.drop_first() =~= self.pending());
        }
        let ghost mid = self.next_id;
        let ghost nv = tok_view(name);
        let ghost sv = opt_expr_view(superclass);
        proof {
            let m = spec_methods(body_items.drop_first(), mid, Seq::empty());
            assert(spec_class_declaration(items, id0) == match m.parsed {
                Parsed::Got(ms) => if first_is(m.rest, TokenType::RightBrace) {
                    taint(
                        step(Parsed::Got(StmtView::Class(nv, ms, sv)), m.rest.drop_first(), m.next_id),
                        m.clean,
                    )
                } else {
                    failed()
                },
                _ => failed(),
            });
        }
        let mut methods: Vec<Expr> = Vec::new();
        proof {
            assert(exprs_view(methods@) =~= Seq::<ExprView>::empty());
        }
        let ghost mut c = true;
        loop
            invariant_except_break
                spec_methods(body_items.drop_first(), mid, Seq::empty()) == taint(
                    spec_methods(self.pending(), self.next_id, exprs_view(methods@)),
                    c,
                ),
            invariant
                old(self).errors is Some ==> self.errors is Some,
                c ==> self.errors == old(self).errors,
                !c ==> self.errors is Some,
                self.wf(),
                self.measure() < old(self).measure(),
                self.pending().len() < body_items.len(),
                spec_methods(body_items.drop_first(), mid, Seq::empty()).parsed is Failed
                    ==> spec_class_declaration(old(self).pending(), old(self).next_id).parsed is Failed,
            ensures
                spec_methods(body_items.drop_first(), mid, Seq::empty()) == taint(
                    step(Parsed::Got(exprs_view(methods@)), self.pending(), self.next_id),
                    c,
                ),
            decreases self.measure(),
        {
            let ghost before = self.pending();
            let ghost bid = self.next_id;
            let ghost acc = exprs_view(methods@);
            proof {
                assert(spec_methods(before, bid, acc) == if first_fails(before) {
                    failed()
                } else if before.len() == 0 || first_is(before, TokenType::RightBrace) || first_is(
                    before,
                    TokenType::EOF,
                ) {
                    step(Parsed::Got(acc), before, bid)
                } else if !first_is(before, TokenType::Identifier) {
                    failed()
                } else {
                    let f = spec_function_body(before.drop_first(), bid);
                    match f.parsed {
                        Parsed::Got(fv) => if f.rest.len() < before.len() {
                            taint(
                                spec_methods(
                                    f.rest,
                                    f.next_id,
                                    acc.push(ExprView::Function(Some(first_token(before)), fv)),
                                ),
                                f.clean,
                            )
                        } else {
                            failed()
                        },
                        _ => failed(),
                    }
                });
            }
            match self.peek()? {
                Some(TokenType::RightBrace) => break,
                Some(TokenType::EOF) => break,
                None => break,
                Some(_) => {},
            }
            let method = self.consume(TokenType::Identifier, "Expect method name")?;
            proof {
                assert(before[0] == SpecItem::Tok(tok_view(method)));
                assert(before.drop_first() =~= self.pending());
            }
            let function = self.function_body()?;
            let ghost fv = function_view(function);
            let ghost mv = tok_view(method);
            let ghost before_m = methods@;
            let value = Expr::Function(Some(method), Rc::new(function));
            proof {
                assert(expr_view(value) == ExprView::Function(Some(mv), fv));
            }
            methods.push(value);
            proof {
                assert(methods@.drop_last() =~= before_m);
                assert(exprs_view(methods@) == acc.push(ExprView::Function(Some(mv), fv)));
                c = c && spec_function_body(before.drop_first(), bid).clean;
            }
        }
        let ghost closing = self.pending();
        let close = self.consume(TokenType::RightBrace, "Expect '}' after class body")?;
        proof {
            assert(closing[0] == SpecItem::Tok(tok_view(close)));
            assert(closing.drop_first() =~= self.pending());
        }
        let ghost mviews = exprs_view(methods@);
        let result = Statement::Class(name, methods, superclass);
        proof {
            assert(stmt_view(result) == StmtView::Class(nv, mviews, sv));
        }
        Ok(Some(result))
    }

    #[verifier::spinoff_prover]
    #[verifier::rlimit(40)]
    fn function_body(&mut self) -> (r: Result<Function, ()>)
        requires
            old(self).wf(),
        ensures
            old(self).errors is Some ==> final(self).errors is Some,
            r is Err ==> final(self).errors is Some,
            final(self).wf(),
            final(self).measure() <= old(self).measure(),
            r is Ok ==> final(self).measure() < old(self).measure(),
            function_as(
                r,
                spec_function_body(old(self).pending(), old(self).next_id),
                old(self).pending(),
                *final(self),
                old(self).errors,
            ),
        decreases old(self).measure(), 24nat, 0nat,
    {
        let ghost items = self.pending();
        let ghost id0 = self.next_id;
        let open = self.consume(TokenType::LeftParenthesis, "Expect '(' after function name")?;
        let ghost r1 = self.pending();
        proof {
            assert(items[0] == SpecItem::Tok(tok_view(open)));
            assert(items.drop_first() =~= r1);
        }
        let mut parameters: Vec<Token> = Vec::new();
        proof {
            assert(toks_view(parameters@) =~= Seq::<SpecToken>::empty());
        }
        match self.next_matches(Matcher::One(TokenType::RightParenthesis))? {
            Some(close) => {
                proof {
                    assert(r1[0] == SpecItem::Tok(tok_view(close)));
                    assert(r1.drop_first() =~= self.pending());
                }
            },
            None => {
                loop
                    invariant_except_break
                        spec_parameters(r1, Seq::empty(), id0) == spec_parameters(
                            self.pending(),
                            toks_view(parameters@),
                            id0,
                        ),
                    invariant
                        old(self).errors is Some ==> self.errors is Some,
                        self.errors == old(self).errors,
                        self.wf(),
                        self.measure() < old(self).measure(),
                        self.next_id == id0,
                        items == old(self).pending(),
                        id0 == old(self).next_id,
                        r1 == items.drop_first(),
                        first_is(items, TokenType::LeftParenthesis),
                        !first_fails(r1),
                        !first_is(r1, TokenType::RightParenthesis),
                        self.pending().len() < items.len(),
                    ensures
                        spec_parameters(r1, Seq::empty(), id0) == if first_is(
                            self.pending(),
                            TokenType::RightParenthesis,
                        ) {
                            step(
                                Parsed::Got(toks_view(parameters@)),
                                self.pending().drop_first(),
                                id0,
                            )
                        } else {
                            failed()
                        },
                    decreases self.measure(),
                {
                    let ghost before = self.pending();
                    let ghost acc = toks_view(parameters@);
                    let ghost before_p = parameters@;
                    let p = self.consume(TokenType::Identifier, "Expect parameter name")?;
                    let ghost after = self.pending();
                    proof {
                        assert(before[0] == SpecItem::Tok(tok_view(p)));
                        assert(before.drop_first() =~= after);
                    }
                    parameters.push(p);
                    proof {
                        assert(toks_view(parameters@) =~= acc.push(tok_view(p)));
                    }
                    match self.next_matches(Matcher::One(TokenType::Comma))? {
                        Some(comma) => {
                            proof {
                                assert(after[0] == SpecItem::Tok(tok_view(comma)));
                                assert(after.drop_first() =~= self.pending());
                            }
                        },
                        None => {
                            break;
                        },
                    }
                }
                let ghost closing = self.pending();
                let close = self.consume(TokenType::RightParenthesis, "Expect ')' after parameters")?;
                proof {
                    assert(closing[0] == SpecItem::Tok(tok_view(close)));
                    assert(closing.drop_first() =~= self.pending());
                }
            },
        }
        let body = self.block("Expect '{' before function body")?;
        Ok(Function { parameters, body })
    }

    #[verifier::spinoff_prover]
    #[verifier::rlimit(40)]
    fn statement(&mut self) -> (r: Result<Option<Statement>, ()>)
        requires
            old(self).wf(),
        ensures
            old(self).errors is Some ==> final(self).errors is Some,
            r is Err ==> final(self).errors is Some,
            final(self).wf(),
            final(self).measure() <= old(self).measure(),
            r matches Ok(Some(_)) ==> final(self).measure() < old(self).measure(),
            stmt_as(
                r,
                spec_statement(old(self).pending(), old(self).next_id),
                old(self).pending(),
                *final(self),
                old(self).errors,
            ),
        decreases old(self).measure(), 26nat, 0nat,
    {
        match self.peek()? {
            Some(TokenType::If) => self.if_statement(),
            Some(TokenType::LeftBrace) => {
                let declarations = self.block("Expect '{' before block")?;
                Ok(Some(Statement::Block(declarations)))
            },
            Some(TokenType::Print) => self.print_statement(),
            Some(TokenType::While) => self.while_statement(),
            Some(TokenType::For) => self.for_statement(),
            Some(TokenType::Return) => self.return_statement(),
            Some(_) => self.expression_statement(),
            None => Ok(None),
        }
    }

    #[verifier::spinoff_prover]
    #[verifier::rlimit(40)]
    fn block(&mut self, open_message: &str) -> (r: Result<Vec<Statement>, ()>)
        requires
            old(self).wf(),
        ensures
            old(self).errors is Some ==> final(self).errors is Some,
            r is Err ==> final(self).errors is Some,
            final(self).wf(),
            final(self).measure() <= old(self).measure(),
            r is Ok ==> final(self).measure() < old(self).measure(),
            block_as(
                r,
                spec_block(old(self).pending(), old(self).next_id),
                old(self).pending(),
                *final(self),
                old(self).errors,
            ),
        decreases old(self).measure(), 25nat, 0nat,
    {
        let ghost items = self.pending();
        let ghost id0 = self.next_id;
        let open = self.consume(TokenType::LeftBrace, open_message)?;
        proof {
            assert(items[0] == SpecItem::Tok(tok_view(open)));
            assert(items.drop_first() =~= self.pending());
        }
        let mut declarations: Vec<Statement> = Vec::new();
        proof {
            assert(stmts_view(declarations@) =~= Seq::<StmtView>::empty());
        }
        let ghost mut c = true;
        loop
            invariant_except_break
                spec_block(items, id0) == taint(
                    spec_block_items(self.pending(), self.next_id, stmts_view(declarations@)),
                    c,
                ),
            invariant
                old(self).errors is Some ==> self.errors is Some,
                c ==> self.errors == old(self).errors,
                !c ==> self.errors is Some,
                self.wf(),
                self.measure() < old(self).measure(),
                items == old(self).pending(),
                id0 == old(self).next_id,
                self.pending().len() < items.len(),
            ensures
                spec_block(items, id0) == taint(
                    step(Parsed::Got(stmts_view(declarations@)), self.pending(), self.next_id),
                    c,
                ),
            decreases self.measure(),
        {
            let ghost before = self.pending();
            let ghost bid = self.next_id;
            let ghost acc = stmts_view(declarations@);
            proof {
                assert(spec_block_items(before, bid, acc) == if first_fails(before) {
                    failed()
                } else if before.len() == 0 {
                    step(Parsed::Got(acc), before, bid)
                } else if first_is(before, TokenType::RightBrace) {
                    step(Parsed::Got(acc), before.drop_first(), bid)
                } else {
                    let d = spec_declaration(before, bid);
                    match d.parsed {
                        Parsed::Got(st) => if d.rest.len() < before.len() {
                            taint(spec_block_items(d.rest, d.next_id, acc.push(st)), d.clean)
                        } else {
                            failed()
                        },
                        _ => failed(),
                    }
                });
            }
            if self.peek()?.is_none() {
                break;
            }
            match self.next_matches(Matcher::One(TokenType::RightBrace))? {
                Some(close) => {
                    proof {
                        assert(before[0] == SpecItem::Tok(tok_view(close)));
                        assert(before.drop_first() =~= self.pending());
                    }
                    break;
                },
                None => {},
            }
            let ghost before_d = declarations@;
            match self.declaration()? {
                Some(d) => {
                    declarations.push(d);
                    proof {
                        assert(declarations@.drop_last() =~= before_d);
                        assert(declarations@.last() == d);
                        c = c && spec_declaration(before, bid).clean;
                    }
                },
                None => {
                    return self.add_error_str("Expect '}' after block");
                },
            }
        }
        Ok(declarations)
    }

    #[verifier::spinoff_prover]
    #[verifier::rlimit(40)]
    fn if_statement(&mut self) -> (r: Result<Option<Statement>, ()>)
        requires
            old(self).wf(),
            first_is(old(self).pending(), TokenType::If),
        ensures
            old(self).errors is Some ==> final(self).errors is Some,
            r is Err ==> final(self).errors is Some,
            final(self).wf(),
            final(self).measure() <= old(self).measure(),
            r matches Ok(Some(_)) ==> final(self).measure() < old(self).measure(),
            stmt_as(
                r,
                spec_if(old(self).pending(), old(self).next_id),
                old(self).pending(),
                *final(self),
                old(self).errors,
            ),
        decreases old(self).measure(), 25nat, 0nat,
    {
        let ghost items = self.pending();
        let ghost id0 = self.next_id;
        let _ = self.next_token()?;
        let ghost r1 = self.pending();
        proof {
            assert(items.drop_first() =~= r1);
        }
        let open = self.consume(TokenType::LeftParenthesis, "Expect '(' after 'if'")?;
        proof {
            assert(r1[0] == SpecItem::Tok(tok_view(open)));
            assert(r1.drop_first() =~= self.pending());
        }
        let condition = self.expression()?;
        let ghost cr = self.pending();
        let close = self.consume(TokenType::RightParenthesis, "Expect ')' after if condition")?;
        proof {
            assert(cr[0] == SpecItem::Tok(tok_view(close)));
            assert(cr.drop_first() =~= self.pending());
        }
        let then_branch = self.statement()?;
        let ghost tr = self.pending();
        let else_branch = match self.next_matches(Matcher::One(TokenType::Else))? {
            Some(e) => {
                proof {
                    assert(tr[0] == SpecItem::Tok(tok_view(e)));
                    assert(tr.drop_first() =~= self.pending());
                }
                self.statement()?
            },
            None => None,
        };
        match (condition, then_branch) {
            (Some(condition), Some(then_branch)) => Ok(
                Some(
                    Statement::If(
                        condition,
                        Box::new(then_branch),
                        match else_branch {
                            Some(e) => Some(Box::new(e)),
                            None => None,
                        },
                    ),
                ),
            ),
            _ => Ok(None),
        }
    }

    #[verifier::spinoff_prover]
    #[verifier::rlimit(40)]
    fn while_statement(&mut self) -> (r: Result<Option<Statement>, ()>)
        requires
            old(self).wf(),
            first_is(old(self).pending(), TokenType::While),
        ensures
            old(self).errors is Some ==> final(self).errors is Some,
            r is Err ==> final(self).errors is Some,
            final(self).wf(),
            final(self).measure() <= old(self).measure(),
            r matches Ok(Some(_)) ==> final(self).measure() < old(self).measure(),
            stmt_as(
                r,
                spec_while(old(self).pending(), old(self).next_id),
                old(self).pending(),
                *final(self),
                old(self).errors,
            ),
        decreases old(self).measure(), 25nat, 0nat,
    {
        let ghost items = self.pending();
        let ghost id0 = self.next_id;
        let _ = self.next_token()?;
        let ghost r1 = self.pending();
        proof {
            assert(items.drop_first() =~= r1);
        }
        let open = self.consume(TokenType::LeftParenthesis, "Expect '(' after 'while'")?;
        proof {
            assert(r1[0] == SpecItem::Tok(tok_view(open)));
            assert(r1.drop_first() =~= self.pending());
        }
        let condition = self.expression()?;
        let ghost c = spec_expression(r1.drop_first(), id0);
        let ghost cr = self.pending();
        let close = self.consume(TokenType::RightParenthesis, "Expect ')' after condition")?;
        proof {
            assert(cr[0] == SpecItem::Tok(tok_view(close)));
            assert(cr.drop_first() =~= self.pending());
            assert(c.rest == cr);
        }
        let body = self.statement()?;
        match (condition, body) {
            (Some(condition), Some(body)) => Ok(Some(Statement::While(condition, Box::new(body)))),
            _ => Ok(None),
        }
    }

    /// The initializer clause of a `for` loop.
    #[verifier::spinoff_prover]
    #[verifier::rlimit(40)]
    fn for_initializer(&mut self) -> (r: Result<Option<Statement>, ()>)
        requires
            old(self).wf(),
        ensures
            old(self).errors is Some ==> final(self).errors is Some,
            r is Err ==> final(self).errors is Some,
            final(self).wf(),
            final(self).measure() <= old(self).measure(),
            opt_stmt_as(
                r,
                spec_for_init(old(self).pending(), old(self).next_id),
                old(self).pending(),
                *final(self),
                old(self).errors,
            ),
        decreases old(self).measure(), 29nat, 0nat,
    {
        proof {
            reveal(spec_for_init);
        }
        let ghost items = self.pending();
        match self.next_matches(Matcher::One(TokenType::Semicolon))? {
            Some(semicolon) => {
                proof {
                    assert(items[0] == SpecItem::Tok(tok_view(semicolon)));
                    assert(items.drop_first() =~= self.pending());
                }
                Ok(None)
            },
            None => match self.peek()? {
                Some(TokenType::Var) => self.var_declaration(),
                _ => self.expression_statement(),
            },
        }
    }

    /// An expression, possibly missing, then `;`; the message is the error
    /// for a missing `;`.
    #[verifier::spinoff_prover]
    #[verifier::rlimit(40)]
    fn value_then_semicolon(&mut self, message: &str) -> (r: Result<Option<Expr>, ()>)
        requires
            old(self).wf(),
        ensures
            old(self).errors is Some ==> final(self).errors is Some,
            r is Err ==> final(self).errors is Some,
            final(self).wf(),
            final(self).measure() <= old(self).measure(),
            opt_expr_as(
                r,
                spec_value_semicolon(old(self).pending(), old(self).next_id),
                old(self).pending(),
                *final(self),
                old(self).errors,
            ),
        decreases old(self).measure(), 21nat, 0nat,
    {
        proof {
            reveal(spec_value_semicolon);
        }
        let condition = match self.peek()? {
            Some(TokenType::Semicolon) => None,
            _ => self.expression()?,
        };
        let ghost r3 = self.pending();
        let semicolon = self.consume(TokenType::Semicolon, message)?;
        proof {
            assert(r3[0] == SpecItem::Tok(tok_view(semicolon)));
            assert(r3.drop_first() =~= self.pending());
        }
        Ok(condition)
    }

    /// The increment clause of a `for` loop, with the `)` after it.
    #[verifier::spinoff_prover]
    #[verifier::rlimit(40)]
    fn for_increment(&mut self) -> (r: Result<Option<Expr>, ()>)
        requires
            old(self).wf(),
        ensures
            old(self).errors is Some ==> final(self).errors is Some,
            r is Err ==> final(self).errors is Some,
            final(self).wf(),
            final(self).measure() <= old(self).measure(),
            opt_expr_as(
                r,
                spec_for_increment(old(self).pending(), old(self).next_id),
                old(self).pending(),
                *final(self),
                old(self).errors,
            ),
        decreases old(self).measure(), 21nat, 0nat,
    {
        proof {
            reveal(spec_for_increment);
        }
        let increment = match self.peek()? {
            Some(TokenType::RightParenthesis) => None,
            _ => self.expression()?,
        };
        let ghost r4 = self.pending();
        let close = self.consume(TokenType::RightParenthesis, "Expect ')' after for clauses")?;
        proof {
            assert(r4[0] == SpecItem::Tok(tok_view(close)));
            assert(r4.drop_first() =~= self.pending());
        }
        Ok(increment)
    }

    /// The clauses of a `for` loop, from its keyword through the `)`.
    #[verifier::spinoff_prover]
    #[verifier::rlimit(40)]
    fn for_clauses(&mut self) -> (r: Result<(Token, Option<Statement>, Option<Expr>, Option<Expr>), ()>)
        requires
            old(self).wf(),
            first_is(old(self).pending(), TokenType::For),
        ensures
            old(self).errors is Some ==> final(self).errors is Some,
            r is Err ==> final(self).errors is Some,
            final(self).wf(),
            final(self).measure() <= old(self).measure(),
            r is Ok ==> final(self).measure() < old(self).measure(),
            ({
                let c = spec_for_clauses(old(self).pending(), old(self).next_id);
                match c.parsed {
                    Parsed::Got((o, i, cd, n)) => r matches Ok((ot, it, ct, nt)) && tok_view(ot)
                        == o && opt_stmt_view(it) == i && opt_expr_view(ct) == cd && opt_expr_view(nt)
                        == n && final(self).pending() == c.rest && final(self).next_id == c.next_id
                        && c.rest.len() < old(self).pending().len() && (c.clean ==> final(self).errors
                        == old(self).errors) && (!c.clean ==> final(self).errors is Some),
                    _ => r is Err,
                }
            }),
        decreases old(self).measure(), 24nat, 0nat,
    {
        proof {
            reveal(spec_for_clauses);
        }
        let ghost items = self.pending();
        let _ = self.next_token()?;
        let ghost r1 = self.pending();
        proof {
            assert(items.drop_first() =~= r1);
        }
        let open = self.consume(TokenType::LeftParenthesis, "Expect '(' after 'for'")?;
        proof {
            assert(r1[0] == SpecItem::Tok(tok_view(open)));
            assert(r1.drop_first() =~= self.pending());
        }
        let initializer = self.for_initializer()?;
        let condition = self.value_then_semicolon("Expect ';' after loop condition")?;
        let increment = self.for_increment()?;
        Ok((open, initializer, condition, increment))
    }

    #[verifier::spinoff_prover]
    #[verifier::rlimit(40)]
    fn for_statement(&mut self) -> (r: Result<Option<Statement>, ()>)
        requires
            old(self).wf(),
            first_is(old(self).pending(), TokenType::For),
        ensures
            old(self).errors is Some ==> final(self).errors is Some,
            r is Err ==> final(self).errors is Some,
            final(self).wf(),
            final(self).measure() <= old(self).measure(),
            r matches Ok(Some(_)) ==> final(self).measure() < old(self).measure(),
            stmt_as(
                r,
                spec_for(old(self).pending(), old(self).next_id),
                old(self).pending(),
                *final(self),
                old(self).errors,
            ),
        decreases old(self).measure(), 25nat, 0nat,
    {
        let (open, initializer, condition, increment) = self.for_clauses()?;
        let ghost ov = tok_view(open);
        let ghost iv = opt_stmt_view(initializer);
        let ghost cv = opt_expr_view(condition);
        let ghost nv = opt_expr_view(increment);
        let body = match self.statement()? {
            Some(b) => b,
            None => {
                return Ok(None);
            },
        };
        let ghost bv = stmt_view(body);
        let body = match increment {
            Some(inc) => {
                let ghost iv2 = expr_view(inc);
                let pair = vec![body, Statement::Expression(inc)];
                proof {
                    lemma_two_views(pair@[0], pair@[1]);
                    assert(pair@ =~= seq![pair@[0], pair@[1]]);
                    assert(stmts_view(pair@) == seq![bv, StmtView::Expression(iv2)]);
                }
                Statement::Block(pair)
            },
            None => body,
        };
        let ghost body2 = match nv {
            Some(i) => StmtView::Block(seq![bv, StmtView::Expression(i)]),
            None => bv,
        };
        assert(stmt_view(body) == body2);
        let condition = match condition {
            Some(c) => c,
            None => {
                let lexeme = vec!['t', 'r', 'u', 'e'];
                assert(lexeme@ =~= seq!['t', 'r', 'u', 'e']);
                let t = Token::new(TokenType::True, lexeme, open.line);
                assert(tok_view(t) == true_token(ov.line));
                Expr::Literal(t)
            },
        };
        let ghost cond2 = match cv {
            Some(c) => c,
            None => ExprView::Literal(true_token(ov.line)),
        };
        assert(expr_view(condition) == cond2);
        let looped = Statement::While(condition, Box::new(body));
        let ghost lv = StmtView::While(cond2, Box::new(body2));
        assert(stmt_view(looped) == lv);
        let result = match initializer {
            Some(init) => {
                let ghost inv = stmt_view(init);
                let pair = vec![init, looped];
                proof {
                    lemma_two_views(pair@[0], pair@[1]);
                    assert(pair@ =~= seq![pair@[0], pair@[1]]);
                    assert(stmts_view(pair@) == seq![inv, lv]);
                }
                Statement::Block(pair)
            },
            None => looped,
        };
        proof {
            assert(stmt_view(result) == for_loop(ov, iv, cv, nv, bv));
        }
        Ok(Some(result))
    }

    #[verifier::spinoff_prover]
    #[verifier::rlimit(100)]
    fn print_statement(&mut self) -> (r: Result<Option<Statement>, ()>)
        requires
            old(self).wf(),
            first_is(old(self).pending(), TokenType::Print),
        ensures
            old(self).errors is Some ==> final(self).errors is Some,
            r is Err ==> final(self).errors is Some,
            final(self).wf(),
            final(self).measure() <= old(self).measure(),
            r matches Ok(Some(_)) ==> final(self).measure() < old(self).measure(),
            stmt_as(
                r,
                spec_print(old(self).pending(), old(self).next_id),
                old(self).pending(),
                *final(self),
                old(self).errors,
            ),
        decreases old(self).measure(), 25nat, 0nat,
    {
        let ghost items = self.pending();
        let _ = self.next_token()?;
        proof {
            assert(items.drop_first() =~= self.pending());
        }
        match self.expression()? {
            Some(expr) => {
                self.consume_semicolon()?;
                Ok(Some(Statement::Print(expr)))
            },
            None => Ok(None),
        }
    }

    #[verifier::spinoff_prover]
    #[verifier::rlimit(40)]
    fn return_statement(&mut self) -> (r: Result<Option<Statement>, ()>)
        requires
            old(self).wf(),
            first_is(old(self).pending(), TokenType::Return),
        ensures
            old(self).errors is Some ==> final(self).errors is Some,
            r is Err ==> final(self).errors is Some,
            final(self).wf(),
            final(self).measure() <= old(self).measure(),
            r matches Ok(Some(_)) ==> final(self).measure() < old(self).measure(),
            stmt_as(
                r,
                spec_return(old(self).pending(), old(self).next_id),
                old(self).pending(),
                *final(self),
                old(self).errors,
            ),
        decreases old(self).measure(), 25nat, 0nat,
    {
        let ghost items = self.pending();
        let keyword = match self.next_token()? {
            Some(t) => t,
            None => {
                return Ok(None);
            },
        };
        proof {
            assert(items[0] == SpecItem::Tok(tok_view(keyword)));
            assert(items.drop_first() =~= self.pending());
        }
        let value = self.value_then_semicolon("Expect ';' after return value")?;
        Ok(Some(Statement::Return(keyword, value)))
    }

    #[verifier::spinoff_prover]
    #[verifier::rlimit(40)]
    fn expression_statement(&mut self) -> (r: Result<Option<Statement>, ()>)
        requires
            old(self).wf(),
        ensures
            old(self).errors is Some ==> final(self).errors is Some,
            r is Err ==> final(self).errors is Some,
            final(self).wf(),
            final(self).measure() <= old(self).measure(),
            r matches Ok(Some(_)) ==> final(self).measure() < old(self).measure(),
            stmt_as(
                r,
                spec_expression_statement(old(self).pending(), old(self).next_id),
                old(self).pending(),
                *final(self),
                old(self).errors,
            ),
        decreases old(self).measure(), 25nat, 0nat,
    {
        match self.expression()? {
            Some(expr) => {
                self.consume_semicolon()?;
                Ok(Some(Statement::Expression(expr)))
            },
            None => Ok(None),
        }
    }

    fn expression(&mut self) -> (r: Result<Option<Expr>, ()>)
        requires
            old(self).wf(),
        ensures
            old(self).errors is Some ==> final(self).errors is Some,
            r is Err ==> final(self).errors is Some,
            final(self).wf(),
            final(self).measure() <= old(self).measure(),
            r matches Ok(Some(_)) ==> final(self).measure() < old(self).measure(),
            parsed_as(
                r,
                spec_expression(old(self).pending(), old(self).next_id),
                old(self).pending(),
                *final(self),
                old(self).errors,
            ),
        decreases old(self).measure(), 20nat, 0nat,
    {
        self.assignment()
    }

    #[verifier::spinoff_prover]
    #[verifier::rlimit(40)]
    fn assignment(&mut self) -> (r: Result<Option<Expr>, ()>)
        requires
            old(self).wf(),
        ensures
            old(self).errors is Some ==> final(self).errors is Some,
            r is Err ==> final(self).errors is Some,
            final(self).wf(),
            final(self).measure() <= old(self).measure(),
            r matches Ok(Some(_)) ==> final(self).measure() < old(self).measure(),
            parsed_as(
                r,
                spec_assignment(old(self).pending(), old(self).next_id),
                old(self).pending(),
                *final(self),
                old(self).errors,
            ),
        decreases old(self).measure(), 19nat, 0nat,
    {
        let ghost items = self.pending();
        let expr = self.binary(6)?;
        let ghost b_rest = self.pending();
        if self.next_matches(Matcher::One(TokenType::Equal))?.is_some() {
            proof {
                assert(b_rest.drop_first() =~= self.pending());
            }
            let value = self.assignment()?;
            return match (value, expr) {
                (Some(value), Some(Expr::Variable(_, token))) => {
                    let id = self.new_id();
                    Ok(Some(Expr::Assignment(id, token, Box::new(value))))
                },
                (Some(value), Some(Expr::Get(object, name))) => Ok(
                    Some(Expr::SetProperty(object, name, Box::new(value))),
                ),
                _ => {
                    let _ = self.add_error_str::<()>("Invalid assignment target");
                    Ok(None)
                },
            };
        }
        Ok(expr)
    }

    #[verifier::spinoff_prover]
    #[verifier::rlimit(40)]
    fn binary(&mut self, level: u8) -> (r: Result<Option<Expr>, ()>)
        requires
            old(self).wf(),
            1 <= level <= 6,
        ensures
            old(self).errors is Some ==> final(self).errors is Some,
            r is Err ==> final(self).errors is Some,
            final(self).wf(),
            final(self).measure() <= old(self).measure(),
            r matches Ok(Some(_)) ==> final(self).measure() < old(self).measure(),
            parsed_as(
                r,
                spec_binary(level, old(self).pending(), old(self).next_id),
                old(self).pending(),
                *final(self),
                old(self).errors,
            ),
        decreases old(self).measure(), 12 + level as nat, 0nat,
    {
        let ghost items = self.pending();
        let ghost id0 = self.next_id;
        let ghost f = spec_operand(level, items, id0);
        proof {
            assert(f == if level <= 1 {
                spec_unary(items, id0)
            } else {
                spec_binary((level - 1) as u8, items, id0)
            });
            assert(spec_binary(level, items, id0) == match f.parsed {
                Parsed::Got(e) => if f.rest.len() < items.len() {
                    taint(spec_binary_rest(level, e, f.rest, f.next_id), f.clean)
                } else {
                    failed()
                },
                _ => f,
            });
        }
        let first = if level <= 1 {
            self.unary()?
        } else {
            self.binary(level - 1)?
        };
        let mut expr = match first {
            Some(e) => e,
            None => {
                return Ok(None);
            },
        };
        let ghost mut c = f.clean;
        loop
            invariant_except_break
                spec_binary(level, items, id0)
                    == taint(spec_binary_rest(level, expr_view(expr), self.pending(), self.next_id), c),
            invariant
                old(self).errors is Some ==> self.errors is Some,
                c ==> self.errors == old(self).errors,
                !c ==> self.errors is Some,
                self.wf(),
                self.measure() < old(self).measure(),
                1 <= level <= 6,
                items == old(self).pending(),
                id0 == old(self).next_id,
                self.pending().len()
                    < items.len(),
            ensures
                spec_binary(level, items, id0)
                    == taint(step(Parsed::Got(expr_view(expr)), self.pending(), self.next_id), c),
            decreases self.measure(),
        {
            let ghost before = self.pending();
            let ghost bid = self.next_id;
            let ghost ev = expr_view(expr);
            let ghost rest = before.drop_first();
            let ghost r = spec_operand(level, rest, bid);
            proof {
                assert(r == if level <= 1 {
                    spec_unary(rest, bid)
                } else {
                    spec_binary((level - 1) as u8, rest, bid)
                });
                assert(spec_binary_rest(level, ev, before, bid) == if first_fails(before) {
                    failed()
                } else if before.len() > 0 && before[0] is Tok && level_accepts(
                    level,
                    first_token(before).token_type,
                ) {
                    match r.parsed {
                        Parsed::Got(right) => {
                            let joined = if level >= 5 {
                                ExprView::Logical(first_token(before), Box::new(ev), Box::new(right))
                            } else {
                                ExprView::Binary(first_token(before), Box::new(ev), Box::new(right))
                            };
                            if r.rest.len() < before.len() {
                                taint(spec_binary_rest(level, joined, r.rest, r.next_id), r.clean)
                            } else {
                                failed()
                            }
                        },
                        _ => r,
                    }
                } else {
                    step(Parsed::Got(ev), before, bid)
                });
            }
            let operator = match self.next_matches(Matcher::Level(level))? {
                Some(op) => op,
                None => break,
            };
            proof {
                assert(before[0] == SpecItem::Tok(tok_view(operator)));
                assert(rest =~= self.pending());
            }
            let right = if level <= 1 {
                self.unary()?
            } else {
                self.binary(level - 1)?
            };
            match right {
                Some(right) => {
                    expr = if level >= 5 {
                        Expr::Logical(operator, Box::new(expr), Box::new(right))
                    } else {
                        Expr::Binary(operator, Box::new(expr), Box::new(right))
                    };
                    proof {
                        c = c && r.clean;
                    }
                },
                None => {
                    return Ok(None);
                },
            }
        }
        Ok(Some(expr))
    }

    #[verifier::spinoff_prover]
    #[verifier::rlimit(40)]
    fn unary(&mut self) -> (r: Result<Option<Expr>, ()>)
        requires
            old(self).wf(),
        ensures
            old(self).errors is Some ==> final(self).errors is Some,
            r is Err ==> final(self).errors is Some,
            final(self).wf(),
            final(self).measure() <= old(self).measure(),
            r matches Ok(Some(_)) ==> final(self).measure() < old(self).measure(),
            parsed_as(
                r,
                spec_unary(old(self).pending(), old(self).next_id),
                old(self).pending(),
                *final(self),
                old(self).errors,
            ),
        decreases old(self).measure(), 12nat, 0nat,
    {
        let ghost items = self.pending();
        match self.next_matches(Matcher::Level(0))? {
            Some(operator) => {
                proof {
                    assert(items[0] == SpecItem::Tok(tok_view(operator)));
                    assert(items.drop_first() =~= self.pending());
                }
                match self.unary()? {
                    Some(right) => Ok(Some(Expr::Unary(operator, Box::new(right)))),
                    None => Ok(None),
                }
            },
            None => self.call(),
        }
    }

    #[verifier::spinoff_prover]
    #[verifier::rlimit(40)]
    fn call(&mut self) -> (r: Result<Option<Expr>, ()>)
        requires
            old(self).wf(),
        ensures
            old(self).errors is Some ==> final(self).errors is Some,
            r is Err ==> final(self).errors is Some,
            final(self).wf(),
            final(self).measure() <= old(self).measure(),
            r matches Ok(Some(_)) ==> final(self).measure() < old(self).measure(),
            parsed_as(
                r,
                spec_call(old(self).pending(), old(self).next_id),
                old(self).pending(),
                *final(self),
                old(self).errors,
            ),
        decreases old(self).measure(), 11nat, 0nat,
    {
        let ghost items = self.pending();
        let ghost id0 = self.next_id;
        let mut expr = match self.primary()? {
            Some(e) => e,
            None => {
                return Ok(None);
            },
        };
        let ghost mut c = spec_primary(items, id0).clean;
        loop
            invariant_except_break
                spec_call(items, id0) == taint(
                    spec_call_rest(expr_view(expr), self.pending(), self.next_id),
                    c,
                ),
            invariant
                old(self).errors is Some ==> self.errors is Some,
                c ==> self.errors == old(self).errors,
                !c ==> self.errors is Some,
                self.wf(),
                self.measure() < old(self).measure(),
                items == old(self).pending(),
                id0 == old(self).next_id,
                self.pending().len() < items.len(),
            ensures
                spec_call(items, id0) == taint(
                    step(Parsed::Got(expr_view(expr)), self.pending(), self.next_id),
                    c,
                ),
            decreases self.measure(),
        {
            let ghost before = self.pending();
            let ghost bid = self.next_id;
            let ghost ev = expr_view(expr);
            proof {
                assert(spec_call_rest(ev, before, bid) == if first_fails(before) {
                    failed()
                } else if first_is(before, TokenType::LeftParenthesis) {
                    let f = spec_finish_call(ev, before, bid);
                    match f.parsed {
                        Parsed::Got(called) => if f.rest.len() < before.len() {
                            taint(spec_call_rest(called, f.rest, f.next_id), f.clean)
                        } else {
                            failed()
                        },
                        _ => failed(),
                    }
                } else if first_is(before, TokenType::Dot) {
                    let rest = before.drop_first();
                    if first_is(rest, TokenType::Identifier) {
                        spec_call_rest(
                            ExprView::Get(Box::new(ev), first_token(rest)),
                            rest.drop_first(),
                            bid,
                        )
                    } else {
                        failed()
                    }
                } else {
                    step(Parsed::Got(ev), before, bid)
                });
            }
            match self.peek()? {
                Some(TokenType::LeftParenthesis) => {
                    expr = self.finish_call(expr)?;
                    proof {
                        c = c && spec_finish_call(ev, before, bid).clean;
                    }
                },
                Some(TokenType::Dot) => {
                    let _ = self.next_token()?;
                    let ghost rest = self.pending();
                    proof {
                        assert(before.drop_first() =~= rest);
                    }
                    let name = self.consume(TokenType::Identifier, "Expect property name after '.'")?;
                    proof {
                        assert(rest[0] == SpecItem::Tok(tok_view(name)));
                        assert(rest.drop_first() =~= self.pending());
                    }
                    expr = Expr::Get(Box::new(expr), name);
                },
                _ => {
                    break;
                },
            }
        }
        Ok(Some(expr))
    }

    #[verifier::spinoff_prover]
    #[verifier::rlimit(40)]
    fn finish_call(&mut self, callee: Expr) -> (r: Result<Expr, ()>)
        requires
            old(self).wf(),
            old(self).peeked is Some,
        ensures
            old(self).errors is Some ==> final(self).errors is Some,
            r is Err ==> final(self).errors is Some,
            final(self).wf(),
            final(self).measure() <= old(self).measure(),
            r is Ok ==> final(self).measure() < old(self).measure(),
            called_as(
                r,
                spec_finish_call(expr_view(callee), old(self).pending(), old(self).next_id),
                old(self).pending(),
                *final(self),
                old(self).errors,
            ),
        decreases old(self).measure(), 10nat, 0nat,
    {
        let ghost items = self.pending();
        let ghost id0 = self.next_id;
        let ghost cv = expr_view(callee);
        let _ = self.next_token()?;
        let ghost rest = self.pending();
        proof {
            assert(items.drop_first() =~= rest);
        }
        let mut arguments: Vec<Expr> = Vec::new();
        match self.next_matches(Matcher::One(TokenType::RightParenthesis))? {
            Some(paren) => {
                proof {
                    assert(rest[0] == SpecItem::Tok(tok_view(paren)));
                    assert(rest.drop_first() =~= self.pending());
                    assert(exprs_view(arguments@) =~= Seq::<ExprView>::empty());
                }
                return Ok(Expr::Call(Box::new(callee), paren, arguments));
            },
            None => {},
        }
        proof {
            assert(exprs_view(arguments@) =~= Seq::<ExprView>::empty());
        }
        let ghost mut c = true;
        loop
            invariant_except_break
                spec_finish_call(cv, items, id0)
                    == taint(spec_arguments(cv, exprs_view(arguments@), self.pending(), self.next_id), c),
            invariant
                old(self).errors is Some ==> self.errors is Some,
                c ==> self.errors == old(self).errors,
                !c ==> self.errors is Some,
                self.wf(),
                self.measure() < old(self).measure(),
                items == old(self).pending(),
                id0 == old(self).next_id,
                cv == expr_view(callee),
                self.pending().len()
                    < items.len(),
            ensures
                spec_finish_call(cv, items, id0)
                    == taint(spec_close_call(cv, exprs_view(arguments@), self.pending(), self.next_id), c),
            decreases self.measure(),
        {
            let ghost args_before = arguments@;
            let ghost a = spec_expression(self.pending(), self.next_id);
            let ea = self.expression()?;
            proof {
                c = c && a.clean;
            }
            match ea {
                Some(arg) => {
                    arguments.push(arg);
                    proof {
                        assert(arguments@.drop_last() =~= args_before);
                        assert(arguments@.last() == arg);
                    }
                },
                None => break,
            }
            let ghost after = self.pending();
            if self.next_matches(Matcher::One(TokenType::Comma))?.is_none() {
                break;
            }
            proof {
                assert(after.drop_first() =~= self.pending());
            }
        }
        let ghost closing = self.pending();
        let paren = self.consume(TokenType::RightParenthesis, "Expect ')' after arguments")?;
        proof {
            assert(closing[0] == SpecItem::Tok(tok_view(paren)));
            assert(closing.drop_first() =~= self.pending());
        }
        Ok(Expr::Call(Box::new(callee), paren, arguments))
    }

    #[verifier::spinoff_prover]
    #[verifier::rlimit(40)]
    fn primary(&mut self) -> (r: Result<Option<Expr>, ()>)
        requires
            old(self).wf(),
        ensures
            old(self).errors is Some ==> final(self).errors is Some,
            r is Err ==> final(self).errors is Some,
            final(self).wf(),
            final(self).measure() <= old(self).measure(),
            r matches Ok(Some(_)) ==> final(self).measure() < old(self).measure(),
            parsed_as(
                r,
                spec_primary(old(self).pending(), old(self).next_id),
                old(self).pending(),
                *final(self),
                old(self).errors,
            ),
        decreases old(self).measure(), 9nat, 0nat,
    {
        let ghost items = self.pending();
        let token = match self.next_token()? {
            Some(t) => t,
            None => {
                assert(self.pending() =~= items);
                return Ok(None);
            },
        };
        let ghost rest = self.pending();
        proof {
            assert(items[0] == SpecItem::Tok(tok_view(token)));
            assert(items.drop_first() =~= rest);
        }
        match token.token_type {
            TokenType::Identifier => {
                let id = self.new_id();
                Ok(Some(Expr::Variable(id, token)))
            },
            TokenType::False | TokenType::True | TokenType::Nil | TokenType::Number
            | TokenType::String => Ok(Some(Expr::Literal(token))),
            TokenType::This => {
                let id = self.new_id();
                Ok(Some(Expr::This(id, token)))
            },
            TokenType::Super => {
                self.consume(TokenType::Dot, "Expect '.' after 'super'")?;
                let ghost rest2 = self.pending();
                proof {
                    assert(rest.drop_first() =~= rest2);
                }
                let method = self.consume(TokenType::Identifier, "Expect superclass method name")?;
                proof {
                    assert(rest2[0] == SpecItem::Tok(tok_view(method)));
                    assert(rest2.drop_first() =~= self.pending());
                }
                let id = self.new_id();
                Ok(Some(Expr::Super(id, token, method)))
            },
            TokenType::Fun => {
                let function = self.function_body()?;
                Ok(Some(Expr::Function(None, Rc::new(function))))
            },
            TokenType::LeftParenthesis => match self.expression()? {
                Some(expr) => {
                    let ghost after = self.pending();
                    if self.next_matches(Matcher::One(TokenType::RightParenthesis))?.is_some() {
                        proof {
                            assert(after.drop_first() =~= self.pending());
                        }
                        Ok(Some(Expr::Grouping(Box::new(expr))))
                    } else {
                        self.add_error_str("Expect ')' after expression")
                    }
                },
                None => Ok(None),
            },
            other => {
                let mut message: Vec<char> = Vec::new();
                append_str(&mut message, "Unexpected token: ");
                append_str(&mut message, other.name());
                self.add_error(message)
            },
        }
    }

}


impl DeclarationsIterator {
    /// Skips tokens up to the end of the current statement: past a `;`, or
    /// up to a keyword that starts a statement.
    fn synchronize(&mut self) -> (r: Result<(), ()>)
        requires
            old(self).wf(),
        ensures
            old(self).errors is Some ==> final(self).errors is Some,
            r is Err ==> final(self).errors is Some,
            final(self).wf(),
            final(self).measure() <= old(self).measure(),
            r is Ok && final(self).measure() == old(self).measure() ==> final(self).measure() == 0,
    {
        loop
            invariant
                old(self).errors is Some ==> self.errors is Some,
                self.wf(),
                self.measure() <= old(self).measure(),
                self.measure() == old(self).measure() || self.measure() < old(self).measure(),
            decreases self.measure(),
        {
            let token = match self.next_token()? {
                Some(t) => t,
                None => {
                    return Ok(());
                },
            };
            if token.token_type == TokenType::Semicolon {
                return Ok(());
            }
            match self.peek()? {
                Some(TokenType::Class) | Some(TokenType::For) | Some(TokenType::Fun) | Some(
                    TokenType::If,
                ) | Some(TokenType::Print) | Some(TokenType::Return) | Some(TokenType::Var) | Some(
                    TokenType::While,
                ) => {
                    return Ok(());
                },
                _ => {},
            }
        }
    }

    /// The next statement; `None` at the end of the tokens. After an error
    /// the parser skips to the next statement and goes on.
    pub fn next(&mut self) -> (r: Option<Statement>)
        requires
            old(self).wf(),
        ensures
            old(self).errors is Some ==> final(self).errors is Some,
            final(self).wf(),
            final(self).measure() <= old(self).measure(),
            r is Some ==> final(self).measure() < old(self).measure(),
            ({
                let d = spec_declaration(old(self).pending(), old(self).next_id);
                match d.parsed {
                    Parsed::Got(v) => r matches Some(st) && stmt_view(st) == v
                        && final(self).pending() == d.rest && final(self).next_id == d.next_id
                        && d.rest.len() < old(self).pending().len(),
                    Parsed::Nothing => r is None,
                    Parsed::Failed => final(self).errors is Some,
                }
            }),
            ({
                let d = spec_declaration(old(self).pending(), old(self).next_id);
                !(d.parsed is Failed) ==> (d.clean ==> final(self).errors == old(self).errors) && (
                !d.clean ==> final(self).errors is Some)
            }),
    {
        loop
            invariant
                old(self).errors is Some ==> self.errors is Some,
                self.wf(),
                self.measure() <= old(self).measure(),
                (self.pending() == old(self).pending() && self.next_id == old(self).next_id
                    && self.errors == old(self).errors)
                    || (spec_declaration(old(self).pending(), old(self).next_id).parsed is Failed
                    && self.errors is Some),
            decreases self.measure(),
        {
            let before = self.remaining();
            match self.declaration() {
                Ok(item) => {
                    return item;
                },
                Err(()) => match self.synchronize() {
                    Ok(()) => {
                        if self.remaining() >= before {
                            // Nothing was left to read: the next declaration
                            // would find no token either.
                            return None;
                        }
                    },
                    Err(()) => {
                        return None;
                    },
                },
            }
        }
    }

    /// All remaining statements, in order.
    pub fn collect_all(&mut self) -> (r: Vec<Statement>)
        requires
            old(self).wf(),
        ensures
            old(self).errors is Some ==> final(self).errors is Some,
            final(self).wf(),
            spec_program(old(self).pending(), old(self).next_id) matches Some(v) ==> stmts_view(r@)
                == v,
            spec_program(old(self).pending(), old(self).next_id) is None ==> final(self).errors is Some,
            spec_program(old(self).pending(), old(self).next_id) is Some ==> (spec_program_clean(
                old(self).pending(),
                old(self).next_id,
            ) ==> final(self).errors == old(self).errors) && (!spec_program_clean(
                old(self).pending(),
                old(self).next_id,
            ) ==> final(self).errors is Some),
    {
        let mut statements: Vec<Statement> = Vec::new();
        let ghost cl = spec_program_clean(self.pending(), self.next_id);
        let ghost mut c = true;
        let ghost whole = spec_program(self.pending(), self.next_id);
        proof {
            assert(stmts_view(statements@) =~= Seq::<StmtView>::empty());
            if let Some(v) = whole {
                assert(Seq::<StmtView>::empty() + v =~= v);
            }
        }
        loop
            invariant
                old(self).errors is Some ==> self.errors is Some,
                self.wf(),
                whole == spec_program(old(self).pending(), old(self).next_id),
                whole matches Some(v) ==> (spec_program(self.pending(), self.next_id) matches Some(
                    w,
                ) && v == stmts_view(statements@) + w),
                whole is None ==> (spec_program(self.pending(), self.next_id) is None
                    || self.errors is Some),
                cl == spec_program_clean(old(self).pending(), old(self).next_id),
                whole is Some ==> (cl == (c && spec_program_clean(self.pending(), self.next_id))),
                c ==> self.errors == old(self).errors,
                !c ==> self.errors is Some,
            decreases self.measure(),
        {
            let ghost before = statements@;
            let ghost items = self.pending();
            let ghost id = self.next_id;
            match self.next() {
                Some(s) => {
                    statements.push(s);
                    proof {
                        assert(statements@.drop_last() =~= before);
                        if let Some(v) = whole {
                            let d = spec_declaration(items, id);
                            let w = spec_program(items, id)->Some_0;
                            let more = spec_program(d.rest, d.next_id)->Some_0;
                            assert(w == seq![stmt_view(s)] + more);
                            assert(stmts_view(before) + w =~= stmts_view(statements@) + more);
                        }
                        c = c && spec_declaration(items, id).clean && !(spec_declaration(items, id).parsed is Failed);
                    }
                },
                None => {
                    proof {
                        if let Some(v) = whole {
                            assert(v =~= stmts_view(statements@));
                        }
                    }
                    return statements;
                },
            }
        }
    }

    /// One expression, or `None` when it has an error.
    fn next_expression(&mut self) -> (r: Option<Expr>)
        requires
            old(self).wf(),
        ensures
            old(self).errors is Some ==> final(self).errors is Some,
            final(self).wf(),
            match spec_expression(old(self).pending(), old(self).next_id).parsed {
                Parsed::Got(v) => r matches Some(e) && expr_view(e) == v,
                        _ => r is None,
            },
            ({
                let x = spec_expression(old(self).pending(), old(self).next_id);
                !(x.parsed is Failed) ==> (x.clean ==> final(self).errors == old(self).errors) && (
                !x.clean ==> final(self).errors is Some)
            }),
    {
        match self.expression() {
            Ok(Some(expr)) => Some(expr),
            _ => None,
        }
    }
}

/// Turns the tokens of a source text into statements, or into one
/// expression, once.
pub struct Parser {
    pub tokens: Option<TokensIterator>,
    pub errors: Option<ParsingErrorsBuilder>,
    pub next_id: usize,
}

/// The text of the error of a parser whose tokens were used already.
pub open spec fn consumed_text() -> Seq<char> {
    "Error: Parser's tokens have already been consumed."@
}

impl Parser {
    pub open spec fn wf(&self) -> bool {
        self.tokens matches Some(t) ==> t.wf()
    }

    /// A parser over a token cursor.
    pub fn new(tokens: TokensIterator) -> (r: Parser)
        requires
            tokens.wf(),
        ensures
            r.wf(),
            r.tokens == Some(tokens),
            r.errors is None,
            r.next_id == 0,
    {
        Parser { tokens: Some(tokens), errors: None, next_id: 0 }
    }

    /// A parser over the tokens of a source text.
    pub fn build(content: &str) -> (r: Result<Parser, InterpreterError>)
        requires
            content@.len() < usize::MAX - 3,
        ensures
            r matches Ok(p) && p.wf() && p.errors is None && p.next_id == 0 && (p.tokens matches Some(
                t,
            ) && t.pos == 0 && t.line == 1 && !t.has_reached_eof && t.content@ == line_stream(
                content@,
            )),
            r matches Ok(p) && p.tokens matches Some(t) && cursor_items(t) == spec_scan(
                line_stream(content@),
            ),
    {
        let scanner = Scanner::new(content);
        let tokens = scanner.scan()?;
        Ok(Parser::new(tokens))
    }

    fn consumed_error() -> (r: InterpreterError)
        ensures
            crate::errors::spec_error_text(r) == consumed_text(),
    {
        let e = InterpreterError::parsing(
            crate::text::str_to_chars("Parser's tokens have already been consumed"),
        );
        proof {
            reveal_strlit("Parser's tokens have already been consumed");
            reveal_strlit("Error: ");
            reveal_strlit(".");
            reveal_strlit("Error: Parser's tokens have already been consumed.");
            assert(crate::errors::spec_error_text(e) =~= consumed_text());
        }
        e
    }

    /// All statements of the source. The errors met on the way are
    /// available afterwards from `errors`. Fails, with no statements, when
    /// the tokens were used already.
    pub fn parse(&mut self) -> (r: Result<Vec<Statement>, InterpreterError>)
        requires
            old(self).wf(),
        ensures
            final(self).wf(),
            final(self).tokens is None,
            old(self).tokens is Some <==> r is Ok,
            old(self).tokens is None ==> (r matches Err(e) && crate::errors::spec_error_text(e)
                == consumed_text()) && final(self).errors == old(self).errors,
            old(self).tokens matches Some(t) ==> (spec_program(cursor_items(t), old(self).next_id)
                matches Some(v) ==> r matches Ok(ss) && stmts_view(ss@) == v),
            old(self).tokens matches Some(t) ==> (spec_program(cursor_items(t), old(self).next_id)
                is None ==> final(self).errors is Some),
            old(self).tokens matches Some(t) ==> (spec_program(cursor_items(t), old(self).next_id)
                is Some ==> (spec_program_clean(cursor_items(t), old(self).next_id)
                <==> final(self).errors is None)),
    {
        match self.tokens.take() {
            Some(tokens) => {
                let mut it = DeclarationsIterator::new(tokens);
                it.next_id = self.next_id;
                let statements = it.collect_all();
                self.errors = it.errors;
                self.next_id = it.next_id;
                Ok(statements)
            },
            None => Err(Parser::consumed_error()),
        }
    }

    /// One expression from the start of the source (tokens after it are
    /// left unread). Fails when the tokens were used already, or when no
    /// expression could be read; the errors met are available afterwards
    /// from `errors`.
    pub fn parse_expression(&mut self) -> (r: Result<Option<Expr>, InterpreterError>)
        requires
            old(self).wf(),
        ensures
            final(self).wf(),
            final(self).tokens is None,
            r is Ok ==> r matches Ok(Some(_)),
            old(self).tokens is None ==> (r matches Err(e) && crate::errors::spec_error_text(e)
                == consumed_text()),
            old(self).tokens is Some ==> (r matches Err(e) ==> crate::errors::spec_error_text(e)
                == "Error: No expression found.."@),
            old(self).tokens matches Some(t) ==> match spec_expression(
                cursor_items(t),
                old(self).next_id,
            ).parsed {
                Parsed::Got(v) => r matches Ok(Some(e)) && expr_view(e) == v,
                        _ => r is Err,
            },
            old(self).tokens matches Some(t) ==> (spec_expression(
                cursor_items(t),
                old(self).next_id,
            ).parsed is Got ==> (spec_expression(cursor_items(t), old(self).next_id).clean
                <==> final(self).errors is None)),
    {
        match self.tokens.take() {
            Some(tokens) => {
                let mut it = DeclarationsIterator::new(tokens);
                it.next_id = self.next_id;
                let result = it.next_expression();
                self.errors = it.errors;
                self.next_id = it.next_id;
                match result {
                    Some(expr) => Ok(Some(expr)),
                    None => {
                        let e = InterpreterError::parsing(
                            crate::text::str_to_chars("No expression found."),
                        );
                        proof {
                            reveal_strlit("No expression found.");
                            reveal_strlit("Error: ");
                            reveal_strlit(".");
                            reveal_strlit("Error: No expression found..");
                            assert(crate::errors::spec_error_text(e)
                                =~= "Error: No expression found.."@);
                        }
                        Err(e)
                    },
                }
            },
            None => Err(Parser::consumed_error()),
        }
    }

    /// The errors met while parsing, once parsing has happened; each call
    /// after the first that returns them gives `None`.
    pub fn errors(&mut self) -> (r: Option<InterpreterError>)
        ensures
            old(self).wf() ==> final(self).wf(),
            final(self).tokens == old(self).tokens,
            old(self).tokens is Some ==> r is None && final(self).errors == old(self).errors,
            old(self).tokens is None ==> final(self).errors is None && (match old(self).errors {
                Some(b) => r matches Some(InterpreterError::ParsingErrors(ms)) && ms@ == b.errors@,
                None => r is None,
            }),
    {
        match self.tokens {
            Some(_) => None,
            None => match self.errors.take() {
                Some(b) => Some(b.build()),
                None => None,
            },
        }
    }

    /// How many numbers the parser handed to variables, assignments,
    /// `this` and `super`: all are below this.
    pub fn id_count(&self) -> (r: usize)
        ensures
            r == self.next_id,
    {
        self.next_id
    }
}

} // verus!

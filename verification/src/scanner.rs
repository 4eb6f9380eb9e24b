//! The scanner: turns Lox source text into tokens.
use vstd::prelude::*;
use crate::errors::{spec_error_text, EvaluationError, InterpreterError};
use crate::number::{
    formats_literal, literal_text, literal_value, num_format_literal, num_parse_literal, significant_digits,
    spec_is_finite, spec_magnitude,
};
use crate::expansion::law_literal_reads_back;
use crate::text::{append_chars, append_decimal, append_str, chars_to_string, decimal, str_to_chars};

verus! {

/// The kinds of tokens.
#[derive(Clone, Copy, Debug, PartialEq, Eq, Structural)]
pub enum TokenType {
    EOF,
    LeftParenthesis,
    RightParenthesis,
    LeftBrace,
    RightBrace,
    Comma,
    Dot,
    Minus,
    Plus,
    Semicolon,
    Star,
    Equal,
    EqualEqual,
    Bang,
    BangEqual,
    Less,
    LessEqual,
    Greater,
    GreaterEqual,
    Slash,
    String,
    Number,
    Identifier,
    And,
    Class,
    Else,
    False,
    For,
    Fun,
    If,
    Nil,
    Or,
    Print,
    Return,
    Super,
    This,
    True,
    Var,
    While,
}

/// The value a literal token carries: the text of a string, or the
/// binary64 encoding of a number.
#[derive(Clone, Debug, PartialEq)]
pub enum Literal {
    String(Vec<char>),
    Digit(u64),
}

/// A token: its kind, its source text, its literal value if any, and the
/// line the scanner was on when it finished the token.
#[derive(Clone, Debug, PartialEq)]
pub struct Token {
    pub token_type: TokenType,
    pub lexeme: Vec<char>,
    pub literal: Option<Literal>,
    pub line: usize,
}

/// The literal of a token in the scanner's specification: none, a string
/// with its text, or a number with its value: the binary64 value nearest
/// to the lexeme's decimal value, given for lexemes of up to 800
/// significant digits.
pub enum SpecLiteral {
    Nothing,
    Str(Seq<char>),
    Num(Option<u64>),
}

/// The literal of a number lexeme, with the value nearest to it when it
/// has up to 800 significant digits.
pub open spec fn num_literal(lexeme: Seq<char>, value: u64) -> SpecLiteral {
    SpecLiteral::Num(
        if significant_digits(lexeme) <= 800 {
            Some(value)
        } else {
            None
        },
    )
}

/// A token in the scanner's specification.
pub struct SpecToken {
    pub token_type: TokenType,
    pub lexeme: Seq<char>,
    pub literal: SpecLiteral,
    pub line: nat,
}

/// One item the scanner produces: a token or an error message.
pub enum SpecItem {
    Tok(SpecToken),
    Error(Seq<char>),
}

/// A token value agrees with its specification.
pub open spec fn token_matches(t: Token, s: SpecToken) -> bool {
    &&& t.token_type == s.token_type
    &&& t.lexeme@ == s.lexeme
    &&& t.line == s.line
    &&& match s.literal {
        SpecLiteral::Nothing => t.literal is None,
        SpecLiteral::Str(v) => t.literal matches Some(Literal::String(x)) && x@ == v,
        SpecLiteral::Num(x) => t.literal matches Some(Literal::Digit(v)) && s.literal == num_literal(
            s.lexeme,
            v,
        ),
    }
}

/// A token as the specification sees it.
pub open spec fn tok_view(t: Token) -> SpecToken {
    SpecToken {
        token_type: t.token_type,
        lexeme: t.lexeme@,
        literal: match t.literal {
            None => SpecLiteral::Nothing,
            Some(Literal::String(v)) => SpecLiteral::Str(v@),
            Some(Literal::Digit(v)) => num_literal(t.lexeme@, v),
        },
        line: t.line as nat,
    }
}

/// A token that agrees with its specification is seen as it.
pub proof fn lemma_tok_view(t: Token, s: SpecToken)
    requires
        token_matches(t, s),
    ensures
        tok_view(t) == s,
{
}

/// A scanned item agrees with its specification.
pub open spec fn item_matches(r: Result<Token, Vec<char>>, s: SpecItem) -> bool {
    match s {
        SpecItem::Tok(st) => r matches Ok(t) && token_matches(t, st),
        SpecItem::Error(m) => r matches Err(e) && e@ == m,
    }
}

/// The text std's `BufRead::lines` hands the scanner, each line followed by
/// `'\n'`: a line ending `"\r\n"` becomes `"\n"`, and a last line without a
/// newline gets one.
pub open spec fn line_stream(s: Seq<char>) -> Seq<char> {
    if s.len() > 0 && s.last() != '\n' {
        line_stream_prefix(s, s.len() as int).push('\n')
    } else {
        line_stream_prefix(s, s.len() as int)
    }
}

/// `line_stream` of the first `n` characters, before the final newline is
/// added.
pub open spec fn line_stream_prefix(s: Seq<char>, n: int) -> Seq<char>
    decreases n,
{
    if n <= 0 {
        Seq::empty()
    } else if s[n - 1] == '\n' && n >= 2 && s[n - 2] == '\r' {
        line_stream_prefix(s, n - 1).drop_last().push('\n')
    } else {
        line_stream_prefix(s, n - 1).push(s[n - 1])
    }
}

proof fn lemma_line_stream_prefix_last(s: Seq<char>, n: int)
    requires
        1 <= n <= s.len(),
    ensures
        line_stream_prefix(s, n).len() > 0,
        s[n - 1] != '\n' ==> line_stream_prefix(s, n).last() == s[n - 1],
        s[n - 1] == '\n' ==> line_stream_prefix(s, n).last() == '\n',
    decreases n,
{
    if n >= 2 {
        lemma_line_stream_prefix_last(s, n - 1);
    }
}

/// Classes of characters that the scanner consumes runs of.
pub enum CharClass {
    Digit,
    IdentChar,
    NotNewline,
    NotQuote,
}

/// Whether `c` is a decimal digit.
pub open spec fn is_digit(c: char) -> bool {
    '0' <= c <= '9'
}

/// What std's `char::is_alphanumeric` returns for `c` (Unicode alphabetic
/// or numeric).
pub uninterp spec fn spec_is_alphanumeric(c: char) -> bool;

/// Whether `c` is an ASCII letter or digit.
pub open spec fn is_ascii_alphanumeric(c: char) -> bool {
    ('a' <= c <= 'z') || ('A' <= c <= 'Z') || ('0' <= c <= '9')
}

/// Calls `char::is_alphanumeric`. Among ASCII characters exactly the
/// letters and digits are alphabetic or numeric in Unicode, so for those
/// the result is stated; beyond ASCII it is only named.
#[verifier::external_body]
fn char_is_alphanumeric(c: char) -> (b: bool)
    ensures
        b == spec_is_alphanumeric(c),
        (c as u32) < 128 ==> (b <==> is_ascii_alphanumeric(c)),
{
    c.is_alphanumeric()
}

/// Whether `c` may stand in an identifier: an ASCII letter, digit or
/// `_`, or beyond ASCII a character std's `char::is_alphanumeric` accepts.
pub open spec fn is_ident_char(c: char) -> bool {
    if (c as u32) < 128 {
        is_ascii_alphanumeric(c) || c == '_'
    } else {
        spec_is_alphanumeric(c)
    }
}

/// Whether `c` belongs to the class.
pub open spec fn class_holds(k: CharClass, c: char) -> bool {
    match k {
        CharClass::Digit => is_digit(c),
        CharClass::IdentChar => is_ident_char(c),
        CharClass::NotNewline => c != '\n',
        CharClass::NotQuote => c != '"',
    }
}

fn class_holds_exec(k: &CharClass, c: char) -> (b: bool)
    ensures
        b == class_holds(*k, c),
{
    match k {
        CharClass::Digit => '0' <= c && c <= '9',
        CharClass::IdentChar => char_is_alphanumeric(c) || c == '_',
        CharClass::NotNewline => c != '\n',
        CharClass::NotQuote => c != '"',
    }
}

/// The end of the run of class-`k` characters starting at `i`.
pub open spec fn run_end(s: Seq<char>, i: int, k: CharClass) -> int
    decreases s.len() - i,
{
    if i < 0 || i >= s.len() || !class_holds(k, s[i]) {
        i
    } else {
        run_end(s, i + 1, k)
    }
}

pub proof fn lemma_run_end(s: Seq<char>, i: int, k: CharClass)
    requires
        0 <= i <= s.len(),
    ensures
        i <= run_end(s, i, k) <= s.len(),
        forall|j: int| i <= j < run_end(s, i, k) ==> class_holds(k, s[j]),
        run_end(s, i, k) < s.len() ==> !class_holds(k, s[run_end(s, i, k)]),
    decreases s.len() - i,
{
    if i < s.len() && class_holds(k, s[i]) {
        lemma_run_end(s, i + 1, k);
    }
}

/// Number of newlines in `s[i..j]`.
pub open spec fn count_nl(s: Seq<char>, i: int, j: int) -> nat
    decreases j - i,
{
    if j <= i {
        0
    } else {
        count_nl(s, i, j - 1) + if s[j - 1] == '\n' {
            1nat
        } else {
            0nat
        }
    }
}

proof fn lemma_count_nl_bound(s: Seq<char>, i: int, j: int)
    requires
        i <= j,
    ensures
        count_nl(s, i, j) <= j - i,
    decreases j - i,
{
    if j > i {
        lemma_count_nl_bound(s, i, j - 1);
    }
}

proof fn lemma_count_nl_split(s: Seq<char>, i: int, m: int, j: int)
    requires
        i <= m <= j,
    ensures
        count_nl(s, i, j) == count_nl(s, i, m) + count_nl(s, m, j),
    decreases j - m,
{
    if j > m {
        lemma_count_nl_split(s, i, m, j - 1);
    }
}

/// The keyword table: reserved words and their token kinds.
pub open spec fn keyword_table() -> Seq<(Seq<char>, TokenType)> {
    seq![
        (seq!['a', 'n', 'd'], TokenType::And),
        (seq!['c', 'l', 'a', 's', 's'], TokenType::Class),
        (seq!['e', 'l', 's', 'e'], TokenType::Else),
        (seq!['f', 'a', 'l', 's', 'e'], TokenType::False),
        (seq!['f', 'o', 'r'], TokenType::For),
        (seq!['f', 'u', 'n'], TokenType::Fun),
        (seq!['i', 'f'], TokenType::If),
        (seq!['n', 'i', 'l'], TokenType::Nil),
        (seq!['o', 'r'], TokenType::Or),
        (seq!['p', 'r', 'i', 'n', 't'], TokenType::Print),
        (seq!['r', 'e', 't', 'u', 'r', 'n'], TokenType::Return),
        (seq!['s', 'u', 'p', 'e', 'r'], TokenType::Super),
        (seq!['t', 'h', 'i', 's'], TokenType::This),
        (seq!['t', 'r', 'u', 'e'], TokenType::True),
        (seq!['v', 'a', 'r'], TokenType::Var),
        (seq!['w', 'h', 'i', 'l', 'e'], TokenType::While),
    ]
}

/// The kind of the first entry of `table` whose word is `s`.
pub open spec fn lookup_keyword(table: Seq<(Seq<char>, TokenType)>, s: Seq<char>) -> Option<
    TokenType,
>
    decreases table.len(),
{
    if table.len() == 0 {
        None
    } else if table[0].0 == s {
        Some(table[0].1)
    } else {
        lookup_keyword(table.drop_first(), s)
    }
}

/// The keyword kind of a word, if it is a keyword.
pub open spec fn spec_keyword(s: Seq<char>) -> Option<TokenType> {
    lookup_keyword(keyword_table(), s)
}

/// A token with no literal.
pub open spec fn plain(t: TokenType, lexeme: Seq<char>, line: nat) -> SpecItem {
    SpecItem::Tok(SpecToken { token_type: t, lexeme, literal: SpecLiteral::Nothing, line })
}

/// The kind of a one-character token, if `c` is one.
pub open spec fn single_char_kind(c: char) -> Option<TokenType> {
    if c == '(' {
        Some(TokenType::LeftParenthesis)
    } else if c == ')' {
        Some(TokenType::RightParenthesis)
    } else if c == '{' {
        Some(TokenType::LeftBrace)
    } else if c == '}' {
        Some(TokenType::RightBrace)
    } else if c == ',' {
        Some(TokenType::Comma)
    } else if c == '.' {
        Some(TokenType::Dot)
    } else if c == '-' {
        Some(TokenType::Minus)
    } else if c == '+' {
        Some(TokenType::Plus)
    } else if c == ';' {
        Some(TokenType::Semicolon)
    } else if c == '*' {
        Some(TokenType::Star)
    } else {
        None
    }
}

/// For `=`, `!`, `<` and `>`: the kinds without and with a following `=`.
pub open spec fn operator_kinds(c: char) -> Option<(TokenType, TokenType)> {
    if c == '=' {
        Some((TokenType::Equal, TokenType::EqualEqual))
    } else if c == '!' {
        Some((TokenType::Bang, TokenType::BangEqual))
    } else if c == '<' {
        Some((TokenType::Less, TokenType::LessEqual))
    } else if c == '>' {
        Some((TokenType::Greater, TokenType::GreaterEqual))
    } else {
        None
    }
}

/// Whether the scanner skips `c` between tokens.
pub open spec fn is_blank(c: char) -> bool {
    c == ' ' || c == '\r' || c == '\n' || c == '\t'
}

/// The end of a number literal starting at `pos`: digits, then optionally a
/// `.` followed by at least one digit and the digits after it.
pub open spec fn number_end(s: Seq<char>, pos: int) -> int {
    let e = run_end(s, pos + 1, CharClass::Digit);
    if e + 1 < s.len() && s[e] == '.' && is_digit(s[e + 1]) {
        run_end(s, e + 1, CharClass::Digit)
    } else {
        e
    }
}

/// The next item the scanner produces from position `pos` at line `line`,
/// with the position and line after it. Blanks and `//` comments before
/// the item are skipped; at the end of the text the item is the `EOF` token.
pub open spec fn spec_next(s: Seq<char>, pos: int, line: nat) -> (SpecItem, int, nat)
    decreases s.len() - pos,
{
    if pos < 0 || pos >= s.len() {
        (plain(TokenType::EOF, Seq::empty(), line), pos, line)
    } else {
        let c = s[pos];
        let p1 = pos + 1;
        let l1 = if c == '\n' {
            line + 1
        } else {
            line
        };
        if single_char_kind(c) is Some {
            (plain(single_char_kind(c)->0, seq![c], l1), p1, l1)
        } else if operator_kinds(c) is Some {
            let kinds = operator_kinds(c)->0;
            if p1 < s.len() && s[p1] == '=' {
                (plain(kinds.1, seq![c, '='], l1), p1 + 1, l1)
            } else {
                (plain(kinds.0, seq![c], l1), p1, l1)
            }
        } else if c == '/' {
            if p1 < s.len() && s[p1] == '/' {
                proof {
                    lemma_run_end(s, p1 + 1, CharClass::NotNewline);
                }
                spec_next(s, run_end(s, p1 + 1, CharClass::NotNewline), l1)
            } else {
                (plain(TokenType::Slash, seq![c], l1), p1, l1)
            }
        } else if c == '"' {
            let e = run_end(s, p1, CharClass::NotQuote);
            if e < s.len() {
                (
                    SpecItem::Tok(
                        SpecToken {
                            token_type: TokenType::String,
                            lexeme: s.subrange(pos, e + 1),
                            literal: SpecLiteral::Str(s.subrange(p1, e)),
                            line: l1 + count_nl(s, p1, e),
                        },
                    ),
                    e + 1,
                    l1 + count_nl(s, p1, e),
                )
            } else {
                (
                    SpecItem::Error(
                        "[line "@ + decimal(l1) + "] Error: Unterminated string."@,
                    ),
                    s.len() as int,
                    l1 + count_nl(s, p1, s.len() as int),
                )
            }
        } else if is_digit(c) {
            (
                SpecItem::Tok(
                    SpecToken {
                        token_type: TokenType::Number,
                        lexeme: s.subrange(pos, number_end(s, pos)),
                        literal: num_literal(
                            s.subrange(pos, number_end(s, pos)),
                            literal_value(s.subrange(pos, number_end(s, pos))),
                        ),
                        line: l1,
                    },
                ),
                number_end(s, pos),
                l1,
            )
        } else if is_blank(c) {
            spec_next(s, p1, l1)
        } else if is_ident_char(c) {
            let e = run_end(s, p1, CharClass::IdentChar);
            let word = s.subrange(pos, e);
            let kind = match spec_keyword(word) {
                Some(k) => k,
                None => TokenType::Identifier,
            };
            (plain(kind, word, l1 + count_nl(s, p1, e)), e, l1 + count_nl(s, p1, e))
        } else {
            (
                SpecItem::Error(
                    "[line "@ + decimal(l1) + "] Error: Unexpected character: "@ + seq![c],
                ),
                p1,
                l1,
            )
        }
    }
}

/// Whether an item is the `EOF` token.
pub open spec fn is_eof_item(i: SpecItem) -> bool {
    i matches SpecItem::Tok(t) && t.token_type == TokenType::EOF
}

/// No keyword has the kind `EOF`.
proof fn lemma_lookup_keyword_not(table: Seq<(Seq<char>, TokenType)>, s: Seq<char>, t: TokenType)
    requires
        forall|i: int| 0 <= i < table.len() ==> table[i].1 != t,
    ensures
        lookup_keyword(table, s) != Some(t),
    decreases table.len(),
{
    if table.len() > 0 && table[0].0 != s {
        assert forall|i: int| 0 <= i < table.drop_first().len() implies table.drop_first()[i].1
            != t by {
            assert(table.drop_first()[i] == table[i + 1]);
        }
        lemma_lookup_keyword_not(table.drop_first(), s, t);
    }
}

proof fn lemma_keyword_not_eof(s: Seq<char>)
    ensures
        spec_keyword(s) != Some(TokenType::EOF),
{
    let t = keyword_table();
    assert forall|i: int| 0 <= i < t.len() implies t[i].1 != TokenType::EOF by {
        assert(t.len() == 16);
    }
    lemma_lookup_keyword_not(t, s, TokenType::EOF);
}

pub proof fn lemma_spec_next_progress(s: Seq<char>, pos: int, line: nat)
    requires
        0 <= pos <= s.len(),
    ensures
        ({
            let (item, p, l) = spec_next(s, pos, line);
            &&& pos <= p <= s.len()
            &&& (!is_eof_item(item) ==> pos < p)
            &&& (is_eof_item(item) ==> p == s.len())
            &&& l == line + count_nl(s, pos, p)
        }),
    decreases s.len() - pos,
{
    if pos < s.len() {
        let c = s[pos];
        let p1 = pos + 1;
        let l1 = if c == '\n' {
            line + 1
        } else {
            line
        };
        assert(count_nl(s, pos, p1) == if c == '\n' {
            1nat
        } else {
            0nat
        }) by {
            assert(count_nl(s, pos, pos) == 0);
        }
        if single_char_kind(c) is Some {
        } else if operator_kinds(c) is Some {
            if p1 < s.len() && s[p1] == '=' {
                lemma_count_nl_split(s, pos, p1, p1 + 1);
                assert(count_nl(s, p1, p1) == 0);
            }
        } else if c == '/' {
            if p1 < s.len() && s[p1] == '/' {
                lemma_run_end(s, p1 + 1, CharClass::NotNewline);
                let e = run_end(s, p1 + 1, CharClass::NotNewline);
                lemma_spec_next_progress(s, e, l1);
                lemma_count_nl_zero(s, p1, e);
                lemma_count_nl_split(s, pos, p1, e);
                let p = spec_next(s, e, l1).1;
                lemma_count_nl_split(s, pos, e, p);
            }
        } else if c == '"' {
            lemma_run_end(s, p1, CharClass::NotQuote);
            let e = run_end(s, p1, CharClass::NotQuote);
            if e < s.len() {
                lemma_count_nl_split(s, pos, p1, e);
                lemma_count_nl_split(s, pos, e, e + 1);
                assert(count_nl(s, e, e) == 0);
            } else {
                lemma_count_nl_split(s, pos, p1, s.len() as int);
            }
        } else if is_digit(c) {
            lemma_run_end(s, p1, CharClass::Digit);
            let e = run_end(s, p1, CharClass::Digit);
            if e + 1 < s.len() && s[e] == '.' && is_digit(s[e + 1]) {
                lemma_run_end(s, e + 1, CharClass::Digit);
            }
            lemma_count_nl_digits(s, pos, number_end(s, pos));
        } else if is_blank(c) {
            lemma_spec_next_progress(s, p1, l1);
            let p = spec_next(s, p1, l1).1;
            lemma_count_nl_split(s, pos, p1, p);
        } else if is_ident_char(c) {
            lemma_run_end(s, p1, CharClass::IdentChar);
            let e = run_end(s, p1, CharClass::IdentChar);
            lemma_count_nl_split(s, pos, p1, e);
            lemma_keyword_not_eof(s.subrange(pos, e));
        }
    }
}

proof fn lemma_count_nl_zero(s: Seq<char>, i: int, j: int)
    requires
        i <= j,
        forall|k: int| i <= k < j ==> s[k] != '\n',
    ensures
        count_nl(s, i, j) == 0,
    decreases j - i,
{
    if j > i {
        lemma_count_nl_zero(s, i, j - 1);
    }
}

proof fn lemma_count_nl_digits(s: Seq<char>, pos: int, end: int)
    requires
        0 <= pos < end <= s.len(),
        forall|k: int| pos <= k < end ==> s[k] != '\n',
    ensures
        count_nl(s, pos, end) == 0,
{
    lemma_count_nl_zero(s, pos, end);
}

/// The items the scanner produces from position `pos` on: up to and
/// including the `EOF` token.
pub open spec fn spec_scan_from(s: Seq<char>, pos: int, line: nat) -> Seq<SpecItem>
    decreases s.len() - pos,
{
    if pos < 0 || pos > s.len() {
        Seq::empty()
    } else {
        let r = spec_next(s, pos, line);
        proof {
            lemma_spec_next_progress(s, pos, line);
        }
        if is_eof_item(r.0) || r.1 <= pos {
            seq![r.0]
        } else {
            seq![r.0] + spec_scan_from(s, r.1, r.2)
        }
    }
}

/// Blanks between tokens are skipped: a space, tab or carriage return
/// where scanning starts gives the item, the position after it and the line
/// that starting one character later gives; a newline does the same on the
/// next line.
pub proof fn law_blank_skipped(s: Seq<char>, pos: int, line: nat)
    requires
        0 <= pos < s.len(),
        s[pos] == ' ' || s[pos] == '\t' || s[pos] == '\r' || s[pos] == '\n',
    ensures
        spec_next(s, pos, line) == spec_next(
            s,
            pos + 1,
            if s[pos] == '\n' {
                line + 1
            } else {
                line
            },
        ),
{
}

/// Scanning from a blank gives the same items as scanning from the
/// character after it: a tab, space, carriage return or newline between
/// tokens adds no item and changes no token.
pub proof fn law_blank_adds_nothing(s: Seq<char>, pos: int, line: nat)
    requires
        0 <= pos < s.len(),
        s[pos] == ' ' || s[pos] == '\t' || s[pos] == '\r' || s[pos] == '\n',
    ensures
        spec_scan_from(s, pos, line) == spec_scan_from(
            s,
            pos + 1,
            if s[pos] == '\n' {
                line + 1
            } else {
                line
            },
        ),
{
    let l1 = if s[pos] == '\n' {
        line + 1
    } else {
        line
    };
    law_blank_skipped(s, pos, line);
    lemma_spec_next_progress(s, pos + 1, l1);
}

/// All items the scanner produces from a whole text.
pub open spec fn spec_scan(s: Seq<char>) -> Seq<SpecItem> {
    spec_scan_from(s, 0, 1)
}

/// Scanned items agree one by one with their specification.
pub open spec fn items_match(v: Seq<Result<Token, Vec<char>>>, s: Seq<SpecItem>) -> bool {
    v.len() == s.len() && forall|i: int| 0 <= i < v.len() ==> item_matches(#[trigger] v[i], s[i])
}

/// The text `BufRead::lines` would hand over, each line ended by `'\n'`.
pub fn normalize_lines(s: &Vec<char>) -> (r: Vec<char>)
    ensures
        r@ == line_stream(s@),
{
    let mut r: Vec<char> = Vec::new();
    let mut i: usize = 0;
    while i < s.len()
        invariant
            i <= s.len(),
            r@ == line_stream_prefix(s@, i as int),
        decreases s.len() - i,
    {
        let c = s[i];
        if c == '\n' && i >= 1 && s[i - 1] == '\r' {
            proof {
                lemma_line_stream_prefix_last(s@, i as int);
            }
            r.pop();
            r.push('\n');
        } else {
            r.push(c);
        }
        i = i + 1;
        proof {
            assert(r@ =~= line_stream_prefix(s@, i as int));
        }
    }
    if s.len() > 0 && s[s.len() - 1] != '\n' {
        r.push('\n');
    }
    r
}

impl TokenType {
    /// The name the token printer uses for the kind.
    pub fn name(&self) -> (r: &'static str)
        ensures
            r@ == spec_type_name(*self),
    {
        match self {
            TokenType::EOF => "EOF",
            TokenType::LeftParenthesis => "LEFT_PAREN",
            TokenType::RightParenthesis => "RIGHT_PAREN",
            TokenType::LeftBrace => "LEFT_BRACE",
            TokenType::RightBrace => "RIGHT_BRACE",
            TokenType::Comma => "COMMA",
            TokenType::Dot => "DOT",
            TokenType::Minus => "MINUS",
            TokenType::Plus => "PLUS",
            TokenType::Semicolon => "SEMICOLON",
            TokenType::Star => "STAR",
            TokenType::Equal => "EQUAL",
            TokenType::EqualEqual => "EQUAL_EQUAL",
            TokenType::Bang => "BANG",
            TokenType::BangEqual => "BANG_EQUAL",
            TokenType::LessEqual => "LESS_EQUAL",
            TokenType::Less => "LESS",
            TokenType::Greater => "GREATER",
            TokenType::GreaterEqual => "GREATER_EQUAL",
            TokenType::Slash => "SLASH",
            TokenType::String => "STRING",
            TokenType::Number => "NUMBER",
            TokenType::Identifier => "IDENTIFIER",
            TokenType::And => "AND",
            TokenType::Class => "CLASS",
            TokenType::Else => "ELSE",
            TokenType::False => "FALSE",
            TokenType::For => "FOR",
            TokenType::Fun => "FUN",
            TokenType::If => "IF",
            TokenType::Nil => "NIL",
            TokenType::Or => "OR",
            TokenType::Print => "PRINT",
            TokenType::Return => "RETURN",
            TokenType::Super => "SUPER",
            TokenType::This => "THIS",
            TokenType::True => "TRUE",
            TokenType::Var => "VAR",
            TokenType::While => "WHILE",
        }
    }

    /// Whether two kinds are the same.
    pub fn matches(&self, other: &TokenType) -> (r: bool)
        ensures
            r == (*self == *other),
    {
        *self == *other
    }
}

/// The name the token printer uses for each kind.
pub open spec fn spec_type_name(t: TokenType) -> Seq<char> {
    match t {
        TokenType::EOF => "EOF"@,
        TokenType::LeftParenthesis => "LEFT_PAREN"@,
        TokenType::RightParenthesis => "RIGHT_PAREN"@,
        TokenType::LeftBrace => "LEFT_BRACE"@,
        TokenType::RightBrace => "RIGHT_BRACE"@,
        TokenType::Comma => "COMMA"@,
        TokenType::Dot => "DOT"@,
        TokenType::Minus => "MINUS"@,
        TokenType::Plus => "PLUS"@,
        TokenType::Semicolon => "SEMICOLON"@,
        TokenType::Star => "STAR"@,
        TokenType::Equal => "EQUAL"@,
        TokenType::EqualEqual => "EQUAL_EQUAL"@,
        TokenType::Bang => "BANG"@,
        TokenType::BangEqual => "BANG_EQUAL"@,
        TokenType::LessEqual => "LESS_EQUAL"@,
        TokenType::Less => "LESS"@,
        TokenType::Greater => "GREATER"@,
        TokenType::GreaterEqual => "GREATER_EQUAL"@,
        TokenType::Slash => "SLASH"@,
        TokenType::String => "STRING"@,
        TokenType::Number => "NUMBER"@,
        TokenType::Identifier => "IDENTIFIER"@,
        TokenType::And => "AND"@,
        TokenType::Class => "CLASS"@,
        TokenType::Else => "ELSE"@,
        TokenType::False => "FALSE"@,
        TokenType::For => "FOR"@,
        TokenType::Fun => "FUN"@,
        TokenType::If => "IF"@,
        TokenType::Nil => "NIL"@,
        TokenType::Or => "OR"@,
        TokenType::Print => "PRINT"@,
        TokenType::Return => "RETURN"@,
        TokenType::Super => "SUPER"@,
        TokenType::This => "THIS"@,
        TokenType::True => "TRUE"@,
        TokenType::Var => "VAR"@,
        TokenType::While => "WHILE"@,
    }
}

impl Literal {
    /// The text of a literal as it is printed.
    pub fn display_chars(&self) -> (r: Vec<char>)
        ensures
            self matches Literal::String(v) ==> r@ == v@,
            self matches Literal::Digit(d) ==> formats_literal(*d, r@),
            self matches Literal::Digit(d) ==> (literal_text(*d) matches Some(t) ==> r@ == t),
    {
        match self {
            Literal::String(v) => v.clone(),
            Literal::Digit(d) => num_format_literal(*d),
        }
    }

    /// Whether the literal is the string with the given text.
    pub fn eq_string(&self, other: &Vec<char>) -> (r: bool)
        ensures
            r == (self matches Literal::String(v) && v@ == other@),
    {
        match self {
            Literal::String(v) => crate::text::chars_eq(v, other),
            Literal::Digit(_) => false,
        }
    }
}

impl Token {
    /// A copy of the token, field by field.
    pub fn duplicate(&self) -> (r: Token)
        ensures
            tok_view(r) == tok_view(*self),
    {
        let literal = match &self.literal {
            None => None,
            Some(Literal::String(v)) => {
                let c = v.clone();
                assert(c@ =~= v@);
                Some(Literal::String(c))
            },
            Some(Literal::Digit(d)) => Some(Literal::Digit(*d)),
        };
        let lexeme = self.lexeme.clone();
        assert(lexeme@ =~= self.lexeme@);
        Token { token_type: self.token_type, lexeme, literal, line: self.line }
    }

    /// A token without a literal.
    pub fn new(token_type: TokenType, lexeme: Vec<char>, line: usize) -> (r: Token)
        ensures
            r.token_type == token_type,
            r.lexeme@ == lexeme@,
            r.literal is None,
            r.line == line,
    {
        Token { token_type, lexeme, literal: None, line }
    }

    /// A token with a literal.
    pub fn with_literal(token_type: TokenType, lexeme: Vec<char>, literal: Literal, line: usize) -> (r:
        Token)
        ensures
            r.token_type == token_type,
            r.lexeme@ == lexeme@,
            r.literal == Some(literal),
            r.line == line,
    {
        Token { token_type, lexeme, literal: Some(literal), line }
    }

    /// How the token appears in printed syntax trees: its literal if it has
    /// one, its source text otherwise.
    pub fn display(&self) -> (r: Vec<char>)
        ensures
            self.literal is None ==> r@ == self.lexeme@,
            self.literal matches Some(Literal::String(v)) ==> r@ == v@,
            self.literal matches Some(Literal::Digit(d)) ==> formats_literal(d, r@),
            self.literal matches Some(Literal::Digit(d)) ==> (literal_text(d) matches Some(t) ==> r@
                == t),
    {
        match &self.literal {
            Some(l) => l.display_chars(),
            None => self.lexeme.clone(),
        }
    }

    /// The token as the `tokenize` command prints it: kind, text and literal
    /// (`null` when there is none), separated by spaces.
    pub fn display_line(&self) -> (r: Vec<char>)
        ensures
            self.literal is None ==> r@ == spec_type_name(self.token_type) + seq![' ']
                + self.lexeme@ + " null"@,
            self.literal matches Some(Literal::String(v)) ==> r@ == spec_type_name(
                self.token_type,
            ) + seq![' '] + self.lexeme@ + seq![' '] + v@,
            self.literal matches Some(Literal::Digit(d)) ==> exists|t: Seq<char>|
                formats_literal(d, t) && r@ == spec_type_name(self.token_type) + seq![' ']
                    + self.lexeme@ + seq![' '] + t,
    {
        let mut out: Vec<char> = Vec::new();
        append_str(&mut out, self.token_type.name());
        out.push(' ');
        append_chars(&mut out, &self.lexeme);
        match &self.literal {
            Some(l) => {
                out.push(' ');
                let t = l.display_chars();
                append_chars(&mut out, &t);
                assert(self.literal matches Some(Literal::String(v)) ==> out@ =~= spec_type_name(
                    self.token_type,
                ) + seq![' '] + self.lexeme@ + seq![' '] + v@);
                assert(out@ =~= spec_type_name(self.token_type) + seq![' '] + self.lexeme@ + seq![' ']
                    + t@);
            },
            None => {
                append_str(&mut out, " null");
                assert(out@ =~= spec_type_name(self.token_type) + seq![' '] + self.lexeme@
                    + " null"@);
            },
        }
        out
    }

    /// `display_line` as a `String`.
    pub fn to_string(&self) -> (r: String) {
        chars_to_string(&self.display_line())
    }
}

/// The line that the `tokenize` command prints for a number token ends in
/// the printed number, and that text reads back as the token's value,
/// integral or not.
pub proof fn law_number_token_line(tok: Token, b: u64, line: Seq<char>)
    requires
        tok.literal == Some(Literal::Digit(b)),
        spec_is_finite(b),
        exists|u: Seq<char>|
            formats_literal(b, u) && line == spec_type_name(tok.token_type) + seq![' ']
                + tok.lexeme@ + seq![' '] + u,
    ensures
        exists|u: Seq<char>|
            #![trigger spec_type_name(tok.token_type) + seq![' '] + tok.lexeme@ + seq![' '] + u]
            literal_value(u) == spec_magnitude(b) && line == spec_type_name(tok.token_type)
                + seq![' '] + tok.lexeme@ + seq![' '] + u,
{
    let u = choose|u: Seq<char>|
        formats_literal(b, u) && line == spec_type_name(tok.token_type) + seq![' '] + tok.lexeme@
            + seq![' '] + u;
    law_literal_reads_back(b, u);
}

/// The keyword table as a vector.
fn keywords() -> (r: Vec<(Vec<char>, TokenType)>)
    ensures
        r@.len() == keyword_table().len(),
        forall|i: int| 0 <= i < r@.len() ==> r@[i].0@ == keyword_table()[i].0 && r@[i].1
            == keyword_table()[i].1,
{
    let r = vec![
        (vec!['a', 'n', 'd'], TokenType::And),
        (vec!['c', 'l', 'a', 's', 's'], TokenType::Class),
        (vec!['e', 'l', 's', 'e'], TokenType::Else),
        (vec!['f', 'a', 'l', 's', 'e'], TokenType::False),
        (vec!['f', 'o', 'r'], TokenType::For),
        (vec!['f', 'u', 'n'], TokenType::Fun),
        (vec!['i', 'f'], TokenType::If),
        (vec!['n', 'i', 'l'], TokenType::Nil),
        (vec!['o', 'r'], TokenType::Or),
        (vec!['p', 'r', 'i', 'n', 't'], TokenType::Print),
        (vec!['r', 'e', 't', 'u', 'r', 'n'], TokenType::Return),
        (vec!['s', 'u', 'p', 'e', 'r'], TokenType::Super),
        (vec!['t', 'h', 'i', 's'], TokenType::This),
        (vec!['t', 'r', 'u', 'e'], TokenType::True),
        (vec!['v', 'a', 'r'], TokenType::Var),
        (vec!['w', 'h', 'i', 'l', 'e'], TokenType::While),
    ];
    proof {
        let t = keyword_table();
        assert(r@[0].0@ =~= t[0].0);
        assert(r@[1].0@ =~= t[1].0);
        assert(r@[2].0@ =~= t[2].0);
        assert(r@[3].0@ =~= t[3].0);
        assert(r@[4].0@ =~= t[4].0);
        assert(r@[5].0@ =~= t[5].0);
        assert(r@[6].0@ =~= t[6].0);
        assert(r@[7].0@ =~= t[7].0);
        assert(r@[8].0@ =~= t[8].0);
        assert(r@[9].0@ =~= t[9].0);
        assert(r@[10].0@ =~= t[10].0);
        assert(r@[11].0@ =~= t[11].0);
        assert(r@[12].0@ =~= t[12].0);
        assert(r@[13].0@ =~= t[13].0);
        assert(r@[14].0@ =~= t[14].0);
        assert(r@[15].0@ =~= t[15].0);
    }
    r
}

proof fn lemma_lookup_keyword_step(table: Seq<(Seq<char>, TokenType)>, s: Seq<char>, i: int)
    requires
        0 <= i <= table.len(),
        forall|j: int| 0 <= j < i ==> table[j].0 != s,
    ensures
        lookup_keyword(table, s) == lookup_keyword(table.subrange(i, table.len() as int), s),
    decreases i,
{
    if i > 0 {
        lemma_lookup_keyword_step(table, s, i - 1);
        let rest = table.subrange(i - 1, table.len() as int);
        assert(rest.len() > 0);
        assert(rest[0] == table[i - 1]);
        assert(rest[0].0 != s);
        assert(rest.drop_first() =~= table.subrange(i, table.len() as int));
        assert(lookup_keyword(rest, s) == lookup_keyword(rest.drop_first(), s));
    } else {
        assert(table.subrange(0, table.len() as int) =~= table);
    }
}

/// A character-level cursor over normalized source text, producing tokens.
#[derive(Debug)]
pub struct TokensIterator {
    pub content: Vec<char>,
    pub pos: usize,
    pub line: usize,
    pub has_reached_eof: bool,
}

impl TokensIterator {
    /// The cursor's invariant: it stands inside the text, and its line is
    /// one more than the newlines before it.
    pub open spec fn wf(&self) -> bool {
        &&& self.pos <= self.content.len()
        &&& self.content.len() < usize::MAX - 2
        &&& self.line == 1 + count_nl(self.content@, 0, self.pos as int)
    }

    /// A cursor at the start of already normalized text.
    pub fn new(content: Vec<char>) -> (r: Self)
        requires
            content.len() < usize::MAX - 2,
        ensures
            r.wf(),
            r.content@ == content@,
            r.pos == 0,
            r.line == 1,
            !r.has_reached_eof,
    {
        TokensIterator { content, pos: 0, line: 1, has_reached_eof: false }
    }

    /// The line the cursor is on.
    pub fn current_line(&self) -> (r: usize)
        ensures
            r == self.line,
    {
        self.line
    }

    /// Consumes and returns the next character, counting newlines.
    pub fn next_char(&mut self) -> (r: Option<char>)
        requires
            old(self).wf(),
        ensures
            final(self).wf(),
            final(self).content == old(self).content,
            final(self).has_reached_eof == old(self).has_reached_eof,
            old(self).pos < old(self).content.len() ==> r == Some(
                old(self).content@[old(self).pos as int],
            ) && final(self).pos == old(self).pos + 1,
            old(self).pos >= old(self).content.len() ==> r is None && final(self).pos == old(
                self,
            ).pos,
    {
        if self.pos >= self.content.len() {
            return None;
        }
        let c = self.content[self.pos];
        proof {
            lemma_count_nl_bound(self.content@, 0, self.pos as int);
        }
        self.pos = self.pos + 1;
        if c == '\n' {
            self.line = self.line + 1;
        }
        Some(c)
    }

    /// The next character, without consuming it.
    pub fn peek(&self) -> (r: Option<char>)
        ensures
            self.pos < self.content.len() ==> r == Some(self.content@[self.pos as int]),
            self.pos >= self.content.len() ==> r is None,
    {
        if self.pos < self.content.len() {
            Some(self.content[self.pos])
        } else {
            None
        }
    }

    /// The character after the next one, without consuming anything.
    pub fn peek_peek(&self) -> (r: Option<char>)
        requires
            self.pos < usize::MAX,
        ensures
            self.pos + 1 < self.content.len() ==> r == Some(self.content@[self.pos + 1]),
            self.pos + 1 >= self.content.len() ==> r is None,
    {
        if self.pos + 1 < self.content.len() {
            Some(self.content[self.pos + 1])
        } else {
            None
        }
    }

    /// Whether the next character is in the class.
    pub fn peek_matches(&self, k: &CharClass) -> (r: bool)
        ensures
            r == (self.pos < self.content.len() && class_holds(*k, self.content@[self.pos as int])),
    {
        match self.peek() {
            Some(c) => class_holds_exec(k, c),
            None => false,
        }
    }

    /// Whether the character after the next one is in the class.
    pub fn peek_peek_matches(&self, k: &CharClass) -> (r: bool)
        requires
            self.pos < usize::MAX,
        ensures
            r == (self.pos + 1 < self.content.len() && class_holds(
                *k,
                self.content@[self.pos + 1],
            )),
    {
        match self.peek_peek() {
            Some(c) => class_holds_exec(k, c),
            None => false,
        }
    }

    /// Consumes the next character if it is `sought`.
    pub fn next_is(&mut self, sought: char) -> (r: bool)
        requires
            old(self).wf(),
        ensures
            final(self).wf(),
            final(self).content == old(self).content,
            final(self).has_reached_eof == old(self).has_reached_eof,
            r == (old(self).pos < old(self).content.len() && old(self).content@[old(
                self,
            ).pos as int] == sought),
            r ==> final(self).pos == old(self).pos + 1,
            !r ==> final(self).pos == old(self).pos,
    {
        match self.peek() {
            Some(c) => {
                if c == sought {
                    let _ = self.next_char();
                    true
                } else {
                    false
                }
            },
            None => false,
        }
    }

    /// Consumes characters of the class, appending them to `buf`. Returns
    /// whether it stopped at a character outside the class (rather than at
    /// the end of the text).
    pub fn advance_while(&mut self, k: &CharClass, buf: &mut Vec<char>) -> (r: bool)
        requires
            old(self).wf(),
        ensures
            final(self).wf(),
            final(self).content == old(self).content,
            final(self).has_reached_eof == old(self).has_reached_eof,
            final(self).pos == run_end(old(self).content@, old(self).pos as int, *k),
            final(buf)@ == old(buf)@ + old(self).content@.subrange(
                old(self).pos as int,
                final(self).pos as int,
            ),
            r == (final(self).pos < final(self).content.len()),
    {
        let ghost s = self.content@;
        let ghost p0 = self.pos as int;
        let ghost b0 = buf@;
        loop
            invariant
                self.wf(),
                self.content@ == s,
                self.has_reached_eof == old(self).has_reached_eof,
                p0 <= self.pos,
                run_end(s, self.pos as int, *k) == run_end(s, p0, *k),
                buf@ == b0 + s.subrange(p0, self.pos as int),
                p0 == old(self).pos,
                s == old(self).content@,
                self.content == old(self).content,
                b0 == old(buf)@,
            decreases self.content.len() - self.pos,
        {
            if self.pos >= self.content.len() {
                return false;
            }
            let c = self.content[self.pos];
            if !class_holds_exec(k, c) {
                return true;
            }
            let _ = self.next_char();
            buf.push(c);
            assert(buf@ =~= b0 + s.subrange(p0, self.pos as int));
        }
    }

    /// Skips the rest of a `//` comment, up to the newline.
    pub fn handle_line_comment(&mut self)
        requires
            old(self).wf(),
        ensures
            final(self).wf(),
            final(self).content == old(self).content,
            final(self).has_reached_eof == old(self).has_reached_eof,
            final(self).pos == run_end(
                old(self).content@,
                old(self).pos as int,
                CharClass::NotNewline,
            ),
    {
        let mut scratch: Vec<char> = Vec::new();
        let _ = self.advance_while(&CharClass::NotNewline, &mut scratch);
    }

    /// Scans a string literal whose opening quote was just consumed.
    pub fn handle_string(&mut self) -> (r: Result<Token, Vec<char>>)
        requires
            old(self).wf(),
            old(self).pos >= 1,
            old(self).content@[old(self).pos - 1] == '"',
        ensures
            final(self).wf(),
            final(self).content == old(self).content,
            final(self).has_reached_eof == old(self).has_reached_eof,
            ({
                let s = old(self).content@;
                let p1 = old(self).pos as int;
                let e = run_end(s, p1, CharClass::NotQuote);
                if e < s.len() {
                    &&& final(self).pos == e + 1
                    &&& item_matches(
                        r,
                        SpecItem::Tok(
                            SpecToken {
                                token_type: TokenType::String,
                                lexeme: s.subrange(p1 - 1, e + 1),
                                literal: SpecLiteral::Str(s.subrange(p1, e)),
                                line: final(self).line as nat,
                            },
                        ),
                    )
                } else {
                    &&& final(self).pos == s.len()
                    &&& item_matches(
                        r,
                        SpecItem::Error(
                            "[line "@ + decimal(old(self).line as nat)
                                + "] Error: Unterminated string."@,
                        ),
                    )
                }
            }),
    {
        let ghost s = self.content@;
        let ghost p1 = self.pos as int;
        let start_line = self.line;
        let mut buf: Vec<char> = Vec::new();
        buf.push('"');
        let stopped = self.advance_while(&CharClass::NotQuote, &mut buf);
        proof {
            lemma_run_end(s, p1, CharClass::NotQuote);
        }
        if stopped && self.next_is('"') {
            buf.push('"');
            let n = buf.len();
            let literal = crate::text::slice_chars(&buf, 1, n - 1);
            proof {
                assert(buf@ =~= s.subrange(p1 - 1, self.pos as int));
                assert(literal@ =~= s.subrange(p1, self.pos - 1));
            }
            let line = self.line;
            Ok(Token::with_literal(TokenType::String, buf, Literal::String(literal), line))
        } else {
            let mut msg: Vec<char> = Vec::new();
            append_str(&mut msg, "[line ");
            append_decimal(&mut msg, start_line);
            append_str(&mut msg, "] Error: Unterminated string.");
            assert(msg@ =~= "[line "@ + decimal(start_line as nat) + "] Error: Unterminated string."@);
            Err(msg)
        }
    }

    /// Scans a number literal whose first digit was just consumed.
    pub fn handle_digit(&mut self, initial_digit: char) -> (r: Result<Token, Vec<char>>)
        requires
            old(self).wf(),
            old(self).pos >= 1,
            old(self).content@[old(self).pos - 1] == initial_digit,
            is_digit(initial_digit),
        ensures
            final(self).wf(),
            final(self).content == old(self).content,
            final(self).has_reached_eof == old(self).has_reached_eof,
            final(self).pos == number_end(old(self).content@, old(self).pos - 1),
            final(self).line == old(self).line,
            item_matches(
                r,
                SpecItem::Tok(
                    SpecToken {
                        token_type: TokenType::Number,
                        lexeme: old(self).content@.subrange(
                            old(self).pos - 1,
                            final(self).pos as int,
                        ),
                        literal: num_literal(
                            old(self).content@.subrange(old(self).pos - 1, final(self).pos as int),
                            literal_value(
                                old(self).content@.subrange(old(self).pos - 1, final(self).pos as int),
                            ),
                        ),
                        line: old(self).line as nat,
                    },
                ),
            ),
    {
        let ghost s = self.content@;
        let ghost p0 = self.pos - 1;
        let mut buf: Vec<char> = Vec::new();
        buf.push(initial_digit);
        let _ = self.advance_while(&CharClass::Digit, &mut buf);
        proof {
            lemma_run_end(s, p0 + 1, CharClass::Digit);
        }
        let ghost e = self.pos as int;
        if self.pos < usize::MAX && self.peek_matches(&CharClass::NotNewline) && self.content[self.pos]
            == '.' && self.peek_peek_matches(&CharClass::Digit) {
            let dot = self.next_char();
            buf.push('.');
            let _ = self.advance_while(&CharClass::Digit, &mut buf);
            proof {
                lemma_run_end(s, e + 1, CharClass::Digit);
            }
        }
        proof {
            assert(buf@ =~= s.subrange(p0, self.pos as int));
            lemma_count_nl_zero(s, p0 + 1, self.pos as int);
            lemma_count_nl_split(s, 0, p0 + 1, self.pos as int);
        }
        let value = num_parse_literal(&buf);
        let line = self.line;
        Ok(Token::with_literal(TokenType::Number, buf, Literal::Digit(value), line))
    }

    /// The keyword kind of a word, if it is a keyword.
    pub fn is_keyword(identifier: &Vec<char>) -> (r: Option<TokenType>)
        ensures
            r == spec_keyword(identifier@),
    {
        let table = keywords();
        let mut i: usize = 0;
        while i < table.len()
            invariant
                i <= table.len(),
                table@.len() == keyword_table().len(),
                forall|j: int| 0 <= j < table@.len() ==> table@[j].0@ == keyword_table()[j].0
                    && table@[j].1 == keyword_table()[j].1,
                forall|j: int| 0 <= j < i ==> keyword_table()[j].0 != identifier@,
            decreases table.len() - i,
        {
            if crate::text::chars_eq(&table[i].0, identifier) {
                proof {
                    lemma_lookup_keyword_step(keyword_table(), identifier@, i as int);
                }
                return Some(table[i].1);
            }
            i = i + 1;
        }
        proof {
            lemma_lookup_keyword_step(keyword_table(), identifier@, i as int);
        }
        None
    }

    /// Scans an identifier or keyword whose first character was just
    /// consumed.
    pub fn handle_identifier_or_keyword(&mut self, initial: char) -> (r: Result<Token, Vec<char>>)
        requires
            old(self).wf(),
            old(self).pos >= 1,
            old(self).content@[old(self).pos - 1] == initial,
        ensures
            final(self).wf(),
            final(self).content == old(self).content,
            final(self).has_reached_eof == old(self).has_reached_eof,
            final(self).pos == run_end(
                old(self).content@,
                old(self).pos as int,
                CharClass::IdentChar,
            ),
            ({
                let word = old(self).content@.subrange(old(self).pos - 1, final(self).pos as int);
                let kind = match spec_keyword(word) {
                    Some(k) => k,
                    None => TokenType::Identifier,
                };
                item_matches(r, plain(kind, word, final(self).line as nat))
            }),
    {
        let ghost s = self.content@;
        let ghost p0 = self.pos - 1;
        let mut buf: Vec<char> = Vec::new();
        buf.push(initial);
        let _ = self.advance_while(&CharClass::IdentChar, &mut buf);
        proof {
            lemma_run_end(s, p0 + 1, CharClass::IdentChar);
        }
        assert(buf@ =~= s.subrange(p0, self.pos as int));
        let line = self.line;
        match TokensIterator::is_keyword(&buf) {
            Some(token_type) => Ok(Token::new(token_type, buf, line)),
            None => Ok(Token::new(TokenType::Identifier, buf, line)),
        }
    }
}


impl TokensIterator {
    /// A token carrying only its kind, text and line.
    fn simple(token_type: TokenType, c: char, line: usize) -> (r: Result<Token, Vec<char>>)
        ensures
            item_matches(r, plain(token_type, seq![c], line as nat)),
    {
        let mut v: Vec<char> = Vec::new();
        v.push(c);
        assert(v@ =~= seq![c]);
        Ok(Token::new(token_type, v, line))
    }

    /// A two-character operator token ending in `=`.
    fn with_equal(token_type: TokenType, c: char, line: usize) -> (r: Result<Token, Vec<char>>)
        ensures
            item_matches(r, plain(token_type, seq![c, '='], line as nat)),
    {
        let mut v: Vec<char> = Vec::new();
        v.push(c);
        v.push('=');
        assert(v@ =~= seq![c, '=']);
        Ok(Token::new(token_type, v, line))
    }

    /// The next token, or the message of the next error; `None` once the
    /// `EOF` token has been produced. Blanks and `//` comments are skipped.
    pub fn next(&mut self) -> (r: Option<Result<Token, Vec<char>>>)
        requires
            old(self).wf(),
        ensures
            final(self).wf(),
            final(self).content == old(self).content,
            old(self).has_reached_eof ==> r is None && final(self).pos == old(self).pos
                && final(self).has_reached_eof,
            !old(self).has_reached_eof ==> ({
                let (item, p, l) = spec_next(
                    old(self).content@,
                    old(self).pos as int,
                    old(self).line as nat,
                );
                &&& r matches Some(x) && item_matches(x, item)
                &&& final(self).pos == p
                &&& final(self).line == l
                &&& final(self).has_reached_eof == is_eof_item(item)
            }),
    {
        if self.has_reached_eof {
            return None;
        }
        let ghost s = self.content@;
        let ghost target = spec_next(s, self.pos as int, self.line as nat);
        loop
            invariant
                self.wf(),
                self.content@ == s,
                self.content == old(self).content,
                !self.has_reached_eof,
                !old(self).has_reached_eof,
                spec_next(s, self.pos as int, self.line as nat) == target,
                target == spec_next(s, old(self).pos as int, old(self).line as nat),
            decreases self.content.len() - self.pos,
        {
            let ghost p0 = self.pos as int;
            let ghost l0 = self.line as nat;
            let c = match self.next_char() {
                Some(c) => c,
                None => {
                    self.has_reached_eof = true;
                    let eof = Token::new(TokenType::EOF, Vec::new(), self.line);
                    assert(eof.lexeme@ =~= Seq::<char>::empty());
                    return Some(Ok(eof));
                },
            };
            let line = self.line;
            proof {
                assert(count_nl(s, p0, p0) == 0);
                lemma_count_nl_split(s, 0, p0, p0 + 1);
            }
            if c == '(' {
                return Some(TokensIterator::simple(TokenType::LeftParenthesis, '(', line));
            } else if c == ')' {
                return Some(TokensIterator::simple(TokenType::RightParenthesis, ')', line));
            } else if c == '{' {
                return Some(TokensIterator::simple(TokenType::LeftBrace, '{', line));
            } else if c == '}' {
                return Some(TokensIterator::simple(TokenType::RightBrace, '}', line));
            } else if c == ',' {
                return Some(TokensIterator::simple(TokenType::Comma, ',', line));
            } else if c == '.' {
                return Some(TokensIterator::simple(TokenType::Dot, '.', line));
            } else if c == '-' {
                return Some(TokensIterator::simple(TokenType::Minus, '-', line));
            } else if c == '+' {
                return Some(TokensIterator::simple(TokenType::Plus, '+', line));
            } else if c == ';' {
                return Some(TokensIterator::simple(TokenType::Semicolon, ';', line));
            } else if c == '*' {
                return Some(TokensIterator::simple(TokenType::Star, '*', line));
            } else if c == '=' || c == '!' || c == '<' || c == '>' {
                let followed = self.next_is('=');
                proof {
                    if followed {
                        lemma_count_nl_split(s, 0, p0 + 1, p0 + 2);
                        assert(count_nl(s, p0 + 1, p0 + 1) == 0);
                    }
                }
                let line = self.line;
                let r = if c == '=' {
                    if followed {
                        TokensIterator::with_equal(TokenType::EqualEqual, '=', line)
                    } else {
                        TokensIterator::simple(TokenType::Equal, '=', line)
                    }
                } else if c == '!' {
                    if followed {
                        TokensIterator::with_equal(TokenType::BangEqual, '!', line)
                    } else {
                        TokensIterator::simple(TokenType::Bang, '!', line)
                    }
                } else if c == '<' {
                    if followed {
                        TokensIterator::with_equal(TokenType::LessEqual, '<', line)
                    } else {
                        TokensIterator::simple(TokenType::Less, '<', line)
                    }
                } else {
                    if followed {
                        TokensIterator::with_equal(TokenType::GreaterEqual, '>', line)
                    } else {
                        TokensIterator::simple(TokenType::Greater, '>', line)
                    }
                };
                return Some(r);
            } else if c == '/' {
                if self.next_is('/') {
                    self.handle_line_comment();
                    proof {
                        let e = self.pos as int;
                        lemma_run_end(s, p0 + 2, CharClass::NotNewline);
                        lemma_count_nl_zero(s, p0, e);
                        lemma_count_nl_split(s, 0, p0, e);
                    }
                } else {
                    return Some(TokensIterator::simple(TokenType::Slash, '/', line));
                }
            } else if c == '"' {
                let r = self.handle_string();
                proof {
                    let e = run_end(s, p0 + 1, CharClass::NotQuote);
                    lemma_run_end(s, p0 + 1, CharClass::NotQuote);
                    if e < s.len() {
                        lemma_count_nl_split(s, 0, p0 + 1, e);
                        lemma_count_nl_split(s, 0, e, e + 1);
                        assert(count_nl(s, e, e) == 0);
                    } else {
                        lemma_count_nl_split(s, 0, p0 + 1, s.len() as int);
                    }
                }
                return Some(r);
            } else if '0' <= c && c <= '9' {
                let r = self.handle_digit(c);
                return Some(r);
            } else if c == ' ' || c == '\r' || c == '\n' || c == '\t' {
            } else if char_is_alphanumeric(c) || c == '_' {
                let r = self.handle_identifier_or_keyword(c);
                proof {
                    lemma_run_end(s, p0 + 1, CharClass::IdentChar);
                    lemma_count_nl_split(s, 0, p0 + 1, self.pos as int);
                    lemma_keyword_not_eof(s.subrange(p0, self.pos as int));
                }
                return Some(r);
            } else {
                let mut msg: Vec<char> = Vec::new();
                append_str(&mut msg, "[line ");
                append_decimal(&mut msg, line);
                append_str(&mut msg, "] Error: Unexpected character: ");
                msg.push(c);
                assert(msg@ =~= "[line "@ + decimal(line as nat)
                    + "] Error: Unexpected character: "@ + seq![c]);
                return Some(Err(msg));
            }
        }
    }

    /// Every item up to and including the `EOF` token.
    pub fn scan_all(&mut self) -> (r: Vec<Result<Token, Vec<char>>>)
        requires
            old(self).wf(),
            !old(self).has_reached_eof,
        ensures
            final(self).wf(),
            final(self).has_reached_eof,
            items_match(r@, spec_scan_from(old(self).content@, old(self).pos as int, old(self).line as nat)),
    {
        let ghost s = self.content@;
        let ghost all = spec_scan_from(s, self.pos as int, self.line as nat);
        let mut r: Vec<Result<Token, Vec<char>>> = Vec::new();
        let ghost mut done: Seq<SpecItem> = Seq::empty();
        loop
            invariant
                self.wf(),
                self.content@ == s,
                items_match(r@, done),
                !self.has_reached_eof ==> done + spec_scan_from(s, self.pos as int, self.line as nat) == all,
                self.has_reached_eof ==> done == all,
                s == old(self).content@,
                all == spec_scan_from(s, old(self).pos as int, old(self).line as nat),
            decreases (if self.has_reached_eof { 0int } else { 1 + self.content.len() - self.pos }),
        {
            let ghost p0 = self.pos as int;
            let ghost l0 = self.line as nat;
            let ghost was_eof = self.has_reached_eof;
            match self.next() {
                Some(x) => {
                    let ghost old_r = r@;
                    let ghost old_done = done;
                    proof {
                        lemma_spec_next_progress(s, p0, l0);
                        let item = spec_next(s, p0, l0).0;
                        if is_eof_item(item) {
                            assert(spec_scan_from(s, p0, l0) == seq![item]);
                        } else {
                            assert(spec_scan_from(s, p0, l0) == seq![item] + spec_scan_from(
                                s,
                                self.pos as int,
                                self.line as nat,
                            ));
                        }
                        done = done.push(item);
                        assert(done + spec_scan_from(s, self.pos as int, self.line as nat) =~= old_done
                            + (seq![item] + spec_scan_from(s, self.pos as int, self.line as nat)));
                        if is_eof_item(item) {
                            assert(done =~= old_done + seq![item]);
                        }
                    }
                    r.push(x);
                    proof {
                        assert forall|i: int| 0 <= i < r@.len() implies item_matches(
                            #[trigger] r@[i],
                            done[i],
                        ) by {
                            if i < old_r.len() {
                                assert(r@[i] == old_r[i]);
                                assert(done[i] == old_done[i]);
                            }
                        }
                    }
                },
                None => {
                    return r;
                },
            }
        }
    }
}


proof fn lemma_line_stream_prefix_len(s: Seq<char>, n: int)
    requires
        0 <= n <= s.len(),
    ensures
        line_stream_prefix(s, n).len() <= n,
    decreases n,
{
    if n > 0 {
        lemma_line_stream_prefix_len(s, n - 1);
        if s[n - 1] == '\n' && n >= 2 && s[n - 2] == '\r' {
            lemma_line_stream_prefix_last(s, n - 1);
        }
    }
}

/// The scanner always ends with exactly one `EOF` token: every item before
/// the last is a token of another kind or an error, and scanning goes on
/// past errors.
pub proof fn lemma_scan_ends_with_eof(s: Seq<char>, pos: int, line: nat)
    requires
        0 <= pos <= s.len(),
    ensures
        spec_scan_from(s, pos, line).len() > 0,
        is_eof_item(spec_scan_from(s, pos, line).last()),
        forall|i: int|
            0 <= i < spec_scan_from(s, pos, line).len() - 1 ==> !is_eof_item(
                #[trigger] spec_scan_from(s, pos, line)[i],
            ),
    decreases s.len() - pos,
{
    lemma_spec_next_progress(s, pos, line);
    let r = spec_next(s, pos, line);
    if !is_eof_item(r.0) {
        lemma_scan_ends_with_eof(s, r.1, r.2);
        let rest = spec_scan_from(s, r.1, r.2);
        assert(spec_scan_from(s, pos, line) == seq![r.0] + rest);
        assert forall|i: int|
            0 <= i < spec_scan_from(s, pos, line).len() - 1 implies !is_eof_item(
                #[trigger] spec_scan_from(s, pos, line)[i],
            ) by {
            if i > 0 {
                assert(spec_scan_from(s, pos, line)[i] == rest[i - 1]);
            }
        }
    }
}

/// Reads Lox source text and hands out its tokens once.
pub struct Scanner {
    pub reader: Option<Vec<char>>,
}

impl Scanner {
    /// A scanner over the given source text.
    pub fn new(content: &str) -> (r: Scanner)
        ensures
            r.reader matches Some(v) && v@ == content@,
    {
        Scanner { reader: Some(str_to_chars(content)) }
    }

    /// The tokens of the source text, the first time; an error after that.
    /// The text is read line by line: each line is ended by a newline.
    pub fn scan_tokens(&mut self) -> (r: Result<TokensIterator, EvaluationError>)
        requires
            old(self).reader matches Some(v) ==> v@.len() < usize::MAX - 3,
        ensures
            final(self).reader is None,
            old(self).reader matches Some(v) ==> (r matches Ok(t) && t.wf() && t.content@
                == line_stream(v@) && t.pos == 0 && t.line == 1 && !t.has_reached_eof),
            old(self).reader is None ==> (r matches Err(e) && e.message@
                == "Scanner's reader has already been consumed"@),
    {
        match self.reader.take() {
            Some(content) => {
                let normalized = normalize_lines(&content);
                proof {
                    lemma_line_stream_prefix_len(content@, content@.len() as int);
                }
                Ok(TokensIterator::new(normalized))
            },
            None => {
                let e = EvaluationError::from(
                    str_to_chars("Scanner's reader has already been consumed"),
                );
                Err(e)
            },
        }
    }

    /// The tokens of the source text.
    pub fn scan(self) -> (r: Result<TokensIterator, InterpreterError>)
        requires
            self.reader matches Some(v) ==> v@.len() < usize::MAX - 3,
        ensures
            self.reader matches Some(v) ==> (r matches Ok(t) && t.wf() && t.content@ == line_stream(
                v@,
            ) && t.pos == 0 && t.line == 1 && !t.has_reached_eof),
            self.reader is None ==> (r matches Err(e) && spec_error_text(e)
                == "Error: Scanner's reader has already been consumed."@),
    {
        let mut me = self;
        match me.scan_tokens() {
            Ok(t) => Ok(t),
            Err(e) => {
                let r = InterpreterError::scanning(e.message);
                proof {
                    reveal_strlit("Scanner's reader has already been consumed");
                    reveal_strlit("Error: ");
                    reveal_strlit(".");
                    reveal_strlit("Error: Scanner's reader has already been consumed.");
                    assert(spec_error_text(r) =~= "Error: Scanner's reader has already been consumed."@);
                }
                Err(r)
            },
        }
    }
}

} // verus!

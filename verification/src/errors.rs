//! Error values of the scanner, parser, resolver and interpreter, and the
//! text they are reported with.
use vstd::prelude::*;
use crate::text::{append_chars, append_decimal, append_str, chars_to_string, decimal};

verus! {

/// One reported error: a message and, where known, the source line.
#[derive(Debug, Clone)]
pub struct ErrorMessage {
    pub message: Vec<char>,
    pub line: Option<usize>,
}

/// The text of one error message: `[line L] Error: M.` or `Error: M.`.
pub open spec fn spec_message_text(m: ErrorMessage) -> Seq<char> {
    match m.line {
        Some(l) => "[line "@ + decimal(l as nat) + "] Error: "@ + m.message@ + "."@,
        None => "Error: "@ + m.message@ + "."@,
    }
}

/// The text of a list of messages, each followed by a newline.
pub open spec fn spec_lines_text(ms: Seq<ErrorMessage>) -> Seq<char>
    decreases ms.len(),
{
    if ms.len() == 0 {
        Seq::empty()
    } else {
        spec_lines_text(ms.drop_last()) + spec_message_text(ms.last()) + seq!['\n']
    }
}

impl ErrorMessage {
    /// A message with an optional line.
    pub fn new(message: Vec<char>, line: Option<usize>) -> (r: Self)
        ensures
            r.message@ == message@,
            r.line == line,
    {
        ErrorMessage { message, line }
    }

    /// A message whose text is a string slice.
    pub fn from_str(message: &str, line: Option<usize>) -> (r: Self)
        ensures
            r.message@ == message@,
            r.line == line,
    {
        let mut m: Vec<char> = Vec::new();
        append_str(&mut m, message);
        assert(m@ =~= message@);
        ErrorMessage { message: m, line }
    }

    /// The message as it is reported.
    pub fn display_chars(&self) -> (r: Vec<char>)
        ensures
            r@ == spec_message_text(*self),
    {
        let mut out: Vec<char> = Vec::new();
        match self.line {
            Some(l) => {
                append_str(&mut out, "[line ");
                append_decimal(&mut out, l);
                append_str(&mut out, "] Error: ");
                append_chars(&mut out, &self.message);
                append_str(&mut out, ".");
                assert(out@ =~= "[line "@ + decimal(l as nat) + "] Error: "@ + self.message@
                    + "."@);
            },
            None => {
                append_str(&mut out, "Error: ");
                append_chars(&mut out, &self.message);
                append_str(&mut out, ".");
                assert(out@ =~= "Error: "@ + self.message@ + "."@);
            },
        }
        out
    }

    /// The message as it is reported, as a `String`.
    pub fn to_string(&self) -> (r: String)
        ensures
            r@ == spec_message_text(*self),
    {
        chars_to_string(&self.display_chars())
    }
}

/// Appends each message followed by a newline.
fn append_lines(out: &mut Vec<char>, ms: &Vec<ErrorMessage>)
    ensures
        final(out)@ == old(out)@ + spec_lines_text(ms@),
{
    let ghost start = out@;
    let mut i: usize = 0;
    while i < ms.len()
        invariant
            i <= ms.len(),
            out@ == start + spec_lines_text(ms@.subrange(0, i as int)),
        decreases ms.len() - i,
    {
        let t = ms[i].display_chars();
        append_chars(out, &t);
        out.push('\n');
        proof {
            assert(ms@.subrange(0, i + 1).drop_last() =~= ms@.subrange(0, i as int));
        }
        i = i + 1;
        assert(out@ =~= start + spec_lines_text(ms@.subrange(0, i as int)));
    }
    assert(ms@.subrange(0, ms.len() as int) =~= ms@);
}

/// The error a run of the interpreter ends with.
#[derive(Debug, Clone)]
pub enum InterpreterError {
    ScanningError(ErrorMessage),
    ScanningErrors(Vec<ErrorMessage>),
    ParsingErrors(Vec<ErrorMessage>),
    InterpreterError(ErrorMessage),
    RuntimeError(ErrorMessage),
}

/// The text an error is reported with.
pub open spec fn spec_error_text(e: InterpreterError) -> Seq<char> {
    match e {
        InterpreterError::ScanningError(m) => spec_message_text(m),
        InterpreterError::InterpreterError(m) => spec_message_text(m),
        InterpreterError::RuntimeError(m) => spec_message_text(m),
        InterpreterError::ScanningErrors(ms) => spec_lines_text(ms@),
        InterpreterError::ParsingErrors(ms) => spec_lines_text(ms@),
    }
}

impl InterpreterError {
    /// A scanning error without a line.
    pub fn scanning(message: Vec<char>) -> (r: InterpreterError)
        ensures
            r matches InterpreterError::ScanningError(m) && m.message@ == message@ && m.line
                is None,
    {
        InterpreterError::ScanningError(ErrorMessage::new(message, None))
    }

    /// An error raised while parsing; it is reported as a scanning error
    /// without a line.
    pub fn parsing(message: Vec<char>) -> (r: InterpreterError)
        ensures
            r matches InterpreterError::ScanningError(m) && m.message@ == message@ && m.line
                is None,
    {
        InterpreterError::ScanningError(ErrorMessage::new(message, None))
    }

    /// An error raised while evaluating, at the given line.
    pub fn evaluating(message: Vec<char>, line: usize) -> (r: InterpreterError)
        ensures
            r matches InterpreterError::InterpreterError(m) && m.message@ == message@ && m.line
                == Some(line),
    {
        InterpreterError::InterpreterError(ErrorMessage::new(message, Some(line)))
    }

    /// An error found while resolving variables, at an optional line.
    pub fn resolving(message: Vec<char>, line: Option<usize>) -> (r: InterpreterError)
        ensures
            r matches InterpreterError::InterpreterError(m) && m.message@ == message@ && m.line
                == line,
    {
        InterpreterError::InterpreterError(ErrorMessage::new(message, line))
    }

    /// The text the error is reported with.
    pub fn display_chars(&self) -> (r: Vec<char>)
        ensures
            r@ == spec_error_text(*self),
    {
        match self {
            InterpreterError::ScanningError(m) => m.display_chars(),
            InterpreterError::InterpreterError(m) => m.display_chars(),
            InterpreterError::RuntimeError(m) => m.display_chars(),
            InterpreterError::ScanningErrors(ms) => {
                let mut out: Vec<char> = Vec::new();
                append_lines(&mut out, ms);
                assert(out@ =~= spec_lines_text(ms@));
                out
            },
            InterpreterError::ParsingErrors(ms) => {
                let mut out: Vec<char> = Vec::new();
                append_lines(&mut out, ms);
                assert(out@ =~= spec_lines_text(ms@));
                out
            },
        }
    }

    /// The text the error is reported with, as a `String`.
    pub fn to_string(&self) -> (r: String)
        ensures
            r@ == spec_error_text(*self),
    {
        chars_to_string(&self.display_chars())
    }
}

/// Collects parsing errors in the order they are found.
#[derive(Debug)]
pub struct ParsingErrorsBuilder {
    pub errors: Vec<ErrorMessage>,
}

impl ParsingErrorsBuilder {
    /// A builder with no errors.
    pub fn new() -> (r: Self)
        ensures
            r.errors@.len() == 0,
    {
        ParsingErrorsBuilder { errors: Vec::new() }
    }

    /// Records an error at the given line, after the earlier ones.
    pub fn add(&mut self, message: Vec<char>, line: usize)
        ensures
            final(self).errors@.len() == old(self).errors@.len() + 1,
            final(self).errors@.drop_last() == old(self).errors@,
            final(self).errors@.last().message@ == message@,
            final(self).errors@.last().line == Some(line),
    {
        self.errors.push(ErrorMessage::new(message, Some(line)));
        assert(self.errors@.drop_last() =~= old(self).errors@);
    }

    /// All recorded errors, in order, as one error.
    pub fn build(self) -> (r: InterpreterError)
        ensures
            r matches InterpreterError::ParsingErrors(ms) && ms@ == self.errors@,
    {
        InterpreterError::ParsingErrors(self.errors)
    }
}

/// An error found by the scanner at a line.
#[derive(Debug)]
pub struct TokenError {
    pub message: Vec<char>,
    pub line: usize,
}

impl TokenError {
    /// A scanner error.
    pub fn new(message: Vec<char>, line: usize) -> (r: Self)
        ensures
            r.message@ == message@,
            r.line == line,
    {
        TokenError { message, line }
    }

    /// The error as the `Err` of a result.
    pub fn into_result<T>(self) -> (r: Result<T, TokenError>)
        ensures
            r matches Err(e) && e == self,
    {
        Err(self)
    }

    /// The text the error is reported with: `[line L] Error: M`.
    pub fn display_chars(&self) -> (r: Vec<char>)
        ensures
            r@ == "[line "@ + decimal(self.line as nat) + "] Error: "@ + self.message@,
    {
        let mut out: Vec<char> = Vec::new();
        append_str(&mut out, "[line ");
        append_decimal(&mut out, self.line);
        append_str(&mut out, "] Error: ");
        append_chars(&mut out, &self.message);
        assert(out@ =~= "[line "@ + decimal(self.line as nat) + "] Error: "@ + self.message@);
        out
    }
}

/// A list of already formatted parsing errors.
#[derive(Debug)]
pub struct ParsingErrors {
    pub errors: Vec<Vec<char>>,
}

/// The errors, each followed by a newline.
pub open spec fn spec_joined(es: Seq<Vec<char>>) -> Seq<char>
    decreases es.len(),
{
    if es.len() == 0 {
        Seq::empty()
    } else {
        spec_joined(es.drop_last()) + es.last()@ + seq!['\n']
    }
}

impl ParsingErrors {
    /// The list of errors.
    pub fn new(errors: Vec<Vec<char>>) -> (r: Self)
        ensures
            r.errors@ == errors@,
    {
        ParsingErrors { errors }
    }

    /// The list of errors (conversion from a vector).
    pub fn from(value: Vec<Vec<char>>) -> (r: Self)
        ensures
            r.errors@ == value@,
    {
        ParsingErrors { errors: value }
    }

    /// The text of all errors, each followed by a newline.
    pub fn display_chars(&self) -> (r: Vec<char>)
        ensures
            r@ == spec_joined(self.errors@),
    {
        let mut out: Vec<char> = Vec::new();
        let mut i: usize = 0;
        while i < self.errors.len()
            invariant
                i <= self.errors.len(),
                out@ == spec_joined(self.errors@.subrange(0, i as int)),
            decreases self.errors.len() - i,
        {
            append_chars(&mut out, &self.errors[i]);
            out.push('\n');
            proof {
                assert(self.errors@.subrange(0, i + 1).drop_last() =~= self.errors@.subrange(
                    0,
                    i as int,
                ));
            }
            i = i + 1;
        }
        assert(self.errors@.subrange(0, self.errors.len() as int) =~= self.errors@);
        out
    }
}

/// An error that is only a message: raised while evaluating, or when a
/// scanner's text is asked for twice.
#[derive(Debug)]
pub struct EvaluationError {
    pub message: Vec<char>,
}

impl EvaluationError {
    /// The error with the given message (conversion from a string).
    pub fn from(value: Vec<char>) -> (r: Self)
        ensures
            r.message@ == value@,
    {
        EvaluationError { message: value }
    }

    /// The text of the error: its message.
    pub fn display_chars(&self) -> (r: Vec<char>)
        ensures
            r@ == self.message@,
    {
        self.message.clone()
    }
}

} // verus!

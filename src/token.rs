use vstd::prelude::*;

verus! {

/// A lexical unit: the text of a numeral, or a single-character operator.
#[derive(Clone, Debug, PartialEq)]
pub enum Token {
    Num(String),
    Op(char),
}

/// The mathematical value of a token.
pub enum Tok {
    Num(Seq<char>),
    Op(char),
}

impl View for Token {
    type V = Tok;

    open spec fn view(&self) -> Tok {
        match self {
            Token::Num(s) => Tok::Num(s@),
            Token::Op(c) => Tok::Op(*c),
        }
    }
}

/// The view of a token sequence.
pub open spec fn toks(v: Seq<Token>) -> Seq<Tok> {
    v.map_values(|t: Token| t@)
}

pub proof fn lemma_toks_push(v: Seq<Token>, x: Token)
    ensures
        toks(v.push(x)) == toks(v).push(x@),
{
    assert(toks(v.push(x)) =~= toks(v).push(x@));
}

/// Failures of the expression pipeline.
#[derive(Clone, Debug, PartialEq)]
pub enum CalcError {
    /// A numeral with no digit or with more than one decimal point.
    MalformedNumber(String),
    /// An operator character outside `+ - * / ^`.
    UnsupportedOperator(char),
    /// An operator found fewer than two operands before it.
    MissingOperand,
    /// After the last token, not exactly one value was left.
    InvalidExpression,
}

/// The mathematical value of a failure.
pub enum Fault {
    MalformedNumber(Seq<char>),
    UnsupportedOperator(char),
    MissingOperand,
    InvalidExpression,
}

impl View for CalcError {
    type V = Fault;

    open spec fn view(&self) -> Fault {
        match self {
            CalcError::MalformedNumber(s) => Fault::MalformedNumber(s@),
            CalcError::UnsupportedOperator(c) => Fault::UnsupportedOperator(*c),
            CalcError::MissingOperand => Fault::MissingOperand,
            CalcError::InvalidExpression => Fault::InvalidExpression,
        }
    }
}

pub open spec fn is_operator(c: char) -> bool {
    c == '+' || c == '-' || c == '*' || c == '/' || c == '^'
}

pub open spec fn precedence_of(c: char) -> int {
    if c == '+' || c == '-' {
        1
    } else if c == '*' || c == '/' {
        2
    } else {
        3
    }
}

/// Binding strength of a supported operator: `+ -` bind loosest, `^` tightest.
pub fn precedence(op: char) -> (r: i32)
    requires
        is_operator(op),
    ensures
        r == precedence_of(op),
{
    match op {
        '+' | '-' => 1,
        '*' | '/' => 2,
        _ => 3,
    }
}

} // verus!

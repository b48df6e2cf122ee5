use vstd::prelude::*;

verus! {

/// An operator or parenthesis of an arithmetic expression.
#[derive(Debug, Clone, Copy, PartialEq, Eq, Structural)]
pub enum Symbol {
    Add,
    Sub,
    Mul,
    Div,
    /// Postfix percent: divides the operand before it by one hundred.
    Per,
    ParL,
    ParR,
}

/// Why an expression could not be evaluated.
#[derive(Debug, Clone, Copy, PartialEq, Eq, Structural)]
pub enum EvalError {
    /// A character that is neither a digit, `.`, ASCII whitespace nor one of `+ - * / % ( )`.
    UnknownSymbol(char),
    /// A run of digits, points and signs that does not read as a number.
    InvalidNumberLiteral,
    /// The right operand of a division is zero.
    DivisionByZero,
    /// Unbalanced parentheses, a missing operand, or operands left without an operator.
    MalformedExpression,
}

/// The operator that a character stands for, if any.
pub open spec fn symbol_of(c: char) -> Option<Symbol> {
    if c == '+' {
        Some(Symbol::Add)
    } else if c == '-' {
        Some(Symbol::Sub)
    } else if c == '*' {
        Some(Symbol::Mul)
    } else if c == '/' {
        Some(Symbol::Div)
    } else if c == '%' {
        Some(Symbol::Per)
    } else if c == '(' {
        Some(Symbol::ParL)
    } else if c == ')' {
        Some(Symbol::ParR)
    } else {
        None
    }
}

impl Symbol {
    /// Classifies one character as an operator or parenthesis.
    pub fn parse(symbol: char) -> (r: Result<Symbol, EvalError>)
        ensures
            match symbol_of(symbol) {
                Some(s) => r == Ok::<Symbol, EvalError>(s),
                None => r == Err::<Symbol, EvalError>(EvalError::UnknownSymbol(symbol)),
            },
    {
        match symbol {
            '+' => Ok(Symbol::Add),
            '-' => Ok(Symbol::Sub),
            '*' => Ok(Symbol::Mul),
            '/' => Ok(Symbol::Div),
            '%' => Ok(Symbol::Per),
            '(' => Ok(Symbol::ParL),
            ')' => Ok(Symbol::ParR),
            _ => Err(EvalError::UnknownSymbol(symbol)),
        }
    }
}

} // verus!

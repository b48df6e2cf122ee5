//! An infix arithmetic evaluator that scans an expression once, resolving
//! signs, implicit multiplication, precedence, percent and parentheses with
//! an operator stack, and a `{{ key }}` placeholder substitution for text.
//!
//! `evaluator::plan` turns an expression into its reduction schedule: the
//! numbers to push and the operators to apply to an operand stack, in scan
//! order, followed by the structural error that stopped the scan, if any.
//! The caller runs the schedule on its number type; `laws` states what holds
//! of every schedule.

pub mod symbol;
pub mod text;
pub mod evaluator;
pub mod replace;
pub mod laws;

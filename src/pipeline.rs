use vstd::prelude::*;
use crate::token::{CalcError, Fault};
use crate::lexer::{lex, numerals_valid, first_bad_numeral, tokenize};
use crate::rpn::{all_supported, first_unsupported, postfix_order, to_rpn};
use crate::tree::{Expr, Tree, postfix_tree, to_tree};

verus! {

pub open spec fn result_view(r: Result<Expr, CalcError>) -> Result<Tree, Fault> {
    match r {
        Ok(e) => Ok(e@),
        Err(x) => Err(x@),
    }
}

/// The line `s` reads as `r`: its first malformed numeral, else its first
/// unsupported operator, else the tree (or failure) of its postfix order.
pub open spec fn reads_as(s: Seq<char>, r: Result<Tree, Fault>) -> bool {
    let t = lex(s);
    if !numerals_valid(t) {
        r matches Err(Fault::MalformedNumber(n)) && first_bad_numeral(t, n)
    } else if !all_supported(t) {
        r matches Err(Fault::UnsupportedOperator(c)) && first_unsupported(t, c)
    } else {
        r == postfix_tree(postfix_order(t))
    }
}

/// Reads a line into its expression tree: tokens, then postfix order, then
/// the tree that the postfix sequence denotes. The first failure ends it.
pub fn parse_line(input: &str) -> (r: Result<Expr, CalcError>)
    ensures
        reads_as(input@, result_view(r)),
{
    let tokens = match tokenize(input) {
        Ok(v) => v,
        Err(e) => {
            return Err(e);
        },
    };
    let rpn = match to_rpn(tokens) {
        Ok(v) => v,
        Err(e) => {
            return Err(e);
        },
    };
    to_tree(&rpn)
}

} // verus!

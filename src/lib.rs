//! Expansion of a nested tree literal into the instructions that build the tree in an arena.
pub mod expand;
pub mod laws;
pub mod syntax;
pub mod token;

use vstd::prelude::*;
use crate::expand::{expand, expansion, instrs_view, Expansion};
use crate::syntax::{parse_literal, SyntaxError, TreeLiteral};
use crate::token::TokenTree;

verus! {

/// Reads a tree literal from its token trees and flattens it into the instructions that
/// build the tree; fails with the first syntax error, and then nothing is expanded.
pub fn tree(input: &Vec<TokenTree>) -> (r: Result<Expansion, SyntaxError>)
    ensures
        match r {
            Ok(x) => parse_literal(input@) matches Ok(l) && x.arena@ == l.arena && instrs_view(
                x.instrs@,
            ) == expansion(l),
            Err(e) => parse_literal(input@) == Err::<crate::syntax::SpecLiteral, SyntaxError>(e),
        },
{
    match TreeLiteral::parse(input) {
        Ok(lit) => Ok(expand(lit)),
        Err(e) => Err(e),
    }
}

} // verus!

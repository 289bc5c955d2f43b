//! Turns a parsed program into lines of output text.
use vstd::prelude::*;
use crate::exprs::{lemma_stmts_view, render_stmt};
use crate::parser::AST;

verus! {

/// The lines of output for a program: the text of each top-level statement, in order.
pub fn render_program(ast: &AST) -> (r: Vec<String>)
    ensures
        r@.len() == ast@.len(),
        forall|i: int| 0 <= i < r@.len() ==> #[trigger] r@[i]@ == render_stmt(ast@[i]),
{
    proof {
        lemma_stmts_view(ast.program@);
    }
    let mut lines: Vec<String> = Vec::new();
    let mut i: usize = 0;
    while i < ast.program.len()
        invariant
            i <= ast.program.len(),
            ast@.len() == ast.program.len(),
            forall|j: int| 0 <= j < ast.program.len() ==> #[trigger] ast@[j] == ast.program@[j]@,
            lines@.len() == i,
            forall|j: int| 0 <= j < i ==> #[trigger] lines@[j]@ == render_stmt(ast@[j]),
        decreases ast.program.len() - i,
    {
        lines.push(ast.program[i].to_string());
        i = i + 1;
    }
    lines
}

} // verus!

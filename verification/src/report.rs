//! The lines that show a list of operations to a reader.

use crate::diff::{op_name, DiffOperation, DiffOperationView};
use vstd::prelude::*;
use vstd::string::*;

verus! {

/// The line for one operation: its name, a space, and the path between
/// two backticks.
pub open spec fn operation_line(operation: DiffOperationView) -> Seq<char> {
    op_name(operation.op) + " `"@ + operation.path + "`"@
}

/// The lines for `operations`, one for each, in the same order.
pub open spec fn operation_lines(operations: Seq<DiffOperationView>) -> Seq<Seq<char>> {
    Seq::new(operations.len(), |i: int| operation_line(operations[i]))
}

/// Writes one operation as a line, without a line end.
pub fn render_operation(operation: &DiffOperation) -> (line: String)
    ensures
        line@ == operation_line(operation@),
{
    let mut line: String = String::from_str(operation.op.name());
    line.append(" `");
    line.append(operation.path.as_str());
    line.append("`");
    line
}

/// Writes the operations as lines, one for each, in the same order.
pub fn output_operations(operations: &Vec<DiffOperation>) -> (lines: Vec<String>)
    ensures
        lines.deep_view() == operation_lines(operations.deep_view()),
{
    let mut lines: Vec<String> = Vec::new();
    let mut i: usize = 0;
    while i < operations.len()
        invariant
            i <= operations@.len(),
            lines@.len() == i,
            forall|k: int| 0 <= k < i ==> (#[trigger] lines@[k])@ == operation_line(operations@[k]@),
        decreases operations@.len() - i,
    {
        let line: String = render_operation(&operations[i]);
        lines.push(line);
        i += 1;
    }
    assert(lines.deep_view() =~= operation_lines(operations.deep_view()));
    lines
}

} // verus!

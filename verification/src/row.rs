//! Rows of a table that is stored row by row.
use vstd::prelude::*;

verus! {

/// The table has a row `line`.
pub open spec fn has_row(len: nat, width: nat, line: nat) -> bool {
    line * width + width <= len
}

/// Row `line` of a table whose rows are `width` items long.
pub fn slice<T>(blob: &[T], width: usize, line: usize) -> (row: &[T])
    requires
        has_row(blob@.len(), width as nat, line as nat),
    ensures
        row@ == blob@.subrange(line * width, line * width + width),
        row@.len() == width,
        forall|c: int| 0 <= c < width ==> #[trigger] row@[c] == blob@[line * width + c],
{
    assert(0 <= line * width) by (nonlinear_arith)
        requires
            line >= 0,
            width >= 0,
    ;
    assert(blob@.len() == vstd::slice::spec_slice_len(blob));
    let start: usize = line * width;
    vstd::slice::slice_subrange(blob, start, start + width)
}

/// Every item of a table stands in the row that its position divided by the
/// width gives, in the column that the remainder gives.
pub proof fn law_rows_cover<T>(blob: Seq<T>, width: int, lines: int, at: int)
    requires
        width > 0,
        blob.len() == lines * width,
        0 <= at < blob.len(),
    ensures
        0 <= at / width < lines,
        has_row(blob.len(), width as nat, (at / width) as nat),
        blob.subrange((at / width) * width, (at / width) * width + width)[at % width] == blob[at],
{
    vstd::arithmetic::div_mod::lemma_fundamental_div_mod(at, width);
    let line = at / width;
    assert(width * line == line * width) by (nonlinear_arith);
    assert(0 <= line < lines) by (nonlinear_arith)
        requires
            line * width <= at < line * width + width,
            0 <= at < lines * width,
            width > 0,
    ;
    assert(line * width + width <= lines * width) by (nonlinear_arith)
        requires
            line + 1 <= lines,
            width > 0,
    ;
}

/// A table of `lines` rows has exactly the rows before `lines`.
pub proof fn law_table_has_its_rows(width: nat, lines: nat, line: nat)
    requires
        width > 0,
    ensures
        has_row(lines * width, width, line) <==> line < lines,
{
    assert((line + 1) * width == line * width + width) by (nonlinear_arith);
    if line < lines {
        assert((line + 1) * width <= lines * width) by (nonlinear_arith)
            requires
                line + 1 <= lines,
        ;
    } else {
        assert((line + 1) * width > lines * width) by (nonlinear_arith)
            requires
                line + 1 > lines,
                width > 0,
        ;
    }
}

/// Different rows of a table have no item in common.
pub proof fn law_rows_disjoint(width: int, a: int, b: int, at: int)
    requires
        a * width <= at < a * width + width,
        b * width <= at < b * width + width,
    ensures
        a == b,
{
    assert(a == b) by (nonlinear_arith)
        requires
            a * width <= at < a * width + width,
            b * width <= at < b * width + width,
    ;
}

} // verus!

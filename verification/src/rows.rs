//! Rows of an array handed to the grid view: each element with its position
//! in the array, its value written as JSON text so that large integers keep
//! every digit.
use vstd::prelude::*;

use crate::tree::{tree_compact, Tree};

verus! {

/// An element of an array with its position there.
pub struct SortedRow {
    pub index: u32,
    pub value: Tree,
}

/// A row as the grid receives it: the position, and the value as JSON text.
#[derive(Debug, Clone)]
pub struct RowJson {
    pub index: u32,
    pub value: String,
}

/// A window of filtered rows, with how many rows passed the filter in all.
#[derive(Debug, Clone)]
pub struct FilteredRowsJson {
    pub total: u32,
    pub rows: Vec<RowJson>,
}

/// The JSON text a row's value is written as: compact, or `null` when it
/// cannot be written.
pub open spec fn row_text(value: Seq<char>) -> Seq<char> {
    match tree_compact(value) {
        Some(t) => t,
        None => seq!['n', 'u', 'l', 'l'],
    }
}

/// The row as the grid receives it (see [`row_text`]).
pub fn row_to_json(row: SortedRow) -> (r: RowJson)
    ensures
        r.index == row.index,
        r.value@ == row_text(row.value@),
{
    let value = match row.value.to_compact() {
        Some(t) => t,
        None => {
            let s = "null".to_owned();
            proof {
                reveal_strlit("null");
            }
            s
        },
    };
    RowJson { index: row.index, value }
}

/// A window of filtered rows as the grid receives it, in the same order.
pub fn filtered_rows_json(total: u32, rows: Vec<SortedRow>) -> (r: FilteredRowsJson)
    ensures
        r.total == total,
        r.rows@.len() == rows@.len(),
        forall|k: int|
            0 <= k < rows@.len() ==> (#[trigger] r.rows@[k]).index == rows@[k].index
                && r.rows@[k].value@ == row_text(rows@[k].value@),
{
    let mut out: Vec<RowJson> = Vec::new();
    let ghost rows0 = rows@;
    for row in it: rows.into_iter()
        invariant
            it.seq() == rows0,
            out@.len() == it.index(),
            forall|k: int|
                0 <= k < out@.len() ==> (#[trigger] out@[k]).index == rows0[k].index
                    && out@[k].value@ == row_text(rows0[k].value@),
    {
        out.push(row_to_json(row));
    }
    FilteredRowsJson { total, rows: out }
}

} // verus!

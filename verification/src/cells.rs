//! Cells and rows: the bytes of an observation, cut up by the variables'
//! lengths and decoded by their kinds.

use crate::layout::RowLayout;
use crate::model::{row_views, variable_views, VariableType, VariableView, XPTRow, XPTVariable};
use crate::numeric::numeric_text;
use crate::text::{ascii_string_trimmed, trimmed_text};
use crate::XPTParser;
use vstd::prelude::*;

verus! {

/// The storage width: the lengths of the variables, added up.
pub open spec fn storage_width(variables: Seq<VariableView>) -> nat
    decreases variables.len(),
{
    if variables.len() == 0 {
        0
    } else {
        storage_width(variables.drop_last()) + variables.last().length
    }
}

/// Where in a row the cell of the `index`-th variable starts.
pub open spec fn cell_offset(variables: Seq<VariableView>, index: int) -> nat {
    storage_width(variables.take(index))
}

/// The bytes of the cell of the `index`-th variable in a row.
pub open spec fn cell_bytes(row: Seq<u8>, variables: Seq<VariableView>, index: int) -> Seq<u8> {
    row.subrange(
        cell_offset(variables, index) as int,
        (cell_offset(variables, index) + variables[index].length) as int,
    )
}

/// The value of a cell: trimmed text for a character variable, decimal
/// notation for a numeric one.
pub open spec fn cell_text(kind: VariableType, cell: Seq<u8>) -> Seq<char> {
    match kind {
        VariableType::Character => trimmed_text(cell),
        VariableType::Numeric => numeric_text(cell),
    }
}

/// The values of a row: one for each variable, in the variables' order.
pub open spec fn row_values(row: Seq<u8>, variables: Seq<VariableView>) -> Seq<Seq<char>> {
    Seq::new(
        variables.len(),
        |index: int| cell_text(variables[index].var_type, cell_bytes(row, variables, index)),
    )
}

/// The bytes of the `index`-th row: as many as the storage width, from a
/// multiple of the stride on.
pub open spec fn row_bytes(observations: Seq<u8>, stride: int, width: int, index: int) -> Seq<u8> {
    observations.subrange(index * stride, index * stride + width)
}

/// The rows of the observations: as many as strides fit into the kept
/// bytes, each decoded from the first bytes of its stride.
pub open spec fn decoded_rows(
    observations: Seq<u8>,
    stride: int,
    kept: int,
    variables: Seq<VariableView>,
) -> Seq<Seq<Seq<char>>> {
    Seq::new(
        (kept / stride) as nat,
        |index: int|
            row_values(
                row_bytes(observations, stride, storage_width(variables) as int, index),
                variables,
            ),
    )
}

/// The storage width of some of the variables is at most that of all.
pub proof fn lemma_storage_width_grows(variables: Seq<VariableView>, count: int)
    requires
        0 <= count <= variables.len(),
    ensures
        storage_width(variables.take(count)) <= storage_width(variables),
    decreases variables.len(),
{
    if count == variables.len() {
        assert(variables.take(count) =~= variables);
    } else {
        lemma_storage_width_grows(variables.drop_last(), count);
        assert(variables.drop_last().take(count) =~= variables.take(count));
    }
}

/// One more variable adds its length to the storage width.
pub proof fn lemma_storage_width_step(variables: Seq<VariableView>, count: int)
    requires
        0 <= count < variables.len(),
    ensures
        storage_width(variables.take(count + 1)) == storage_width(variables.take(count))
            + variables[count].length,
{
    assert(variables.take(count + 1).drop_last() =~= variables.take(count));
}

/// Variables that each take a byte or more take as many bytes as there
/// are variables, or more.
pub proof fn lemma_storage_width_at_least_count(variables: Seq<VariableView>)
    requires
        forall|i: int| 0 <= i < variables.len() ==> (#[trigger] variables[i]).length >= 1,
    ensures
        storage_width(variables) >= variables.len(),
    decreases variables.len(),
{
    if variables.len() > 0 {
        assert forall|i: int| 0 <= i < variables.drop_last().len() implies (
        #[trigger] variables.drop_last()[i]).length >= 1 by {
            assert(variables.drop_last()[i] == variables[i]);
        }
        lemma_storage_width_at_least_count(variables.drop_last());
    }
}

/// The storage width of the variables.
pub fn storage_width_of(variables: &Vec<XPTVariable>) -> (width: u128)
    ensures
        width == storage_width(variable_views(variables@)),
{
    let ghost views = variable_views(variables@);
    let count: usize = variables.len();
    let mut width: u128 = 0;
    let mut index: usize = 0;
    while index < count
        invariant
            index <= count,
            count == variables@.len(),
            views == variable_views(variables@),
            width == storage_width(views.take(index as int)),
            width <= index * 0xFFFF_FFFF_FFFF_FFFF,
        decreases count - index,
    {
        proof {
            lemma_storage_width_step(views, index as int);
        }
        width = width + variables[index].length as u128;
        index += 1;
    }
    assert(views.take(count as int) =~= views);
    width
}

impl XPTParser {
    /// Decodes the bytes of one cell by the kind of its variable.
    pub fn parse_cell(data: &[u8], variable: &XPTVariable) -> (text: String)
        ensures
            text@ == cell_text(variable.var_type, data@),
    {
        match variable.var_type {
            VariableType::Character => ascii_string_trimmed(data),
            VariableType::Numeric => Self::parse_numeric_value(data),
        }
    }
}

/// Decodes one row. A row that is too short for its cells is dropped as
/// a whole; bytes after the last cell are ignored.
pub fn decode_row(row: &[u8], variables: &Vec<XPTVariable>) -> (decoded: Option<XPTRow>)
    ensures
        decoded is Some <==> storage_width(variable_views(variables@)) <= row@.len(),
        decoded matches Some(values) ==> values@ == row_values(row@, variable_views(variables@)),
{
    let ghost views = variable_views(variables@);
    let count: usize = variables.len();
    let size: usize = row.len();
    let mut values: Vec<String> = Vec::new();
    let mut offset: usize = 0;
    let mut index: usize = 0;
    while index < count
        invariant
            index <= count,
            count == variables@.len(),
            size == row@.len(),
            views == variable_views(variables@),
            offset == cell_offset(views, index as int),
            offset <= size,
            values@.len() == index,
            forall|i: int|
                0 <= i < index ==> (#[trigger] values@[i])@ == cell_text(
                    views[i].var_type,
                    cell_bytes(row@, views, i),
                ),
        decreases count - index,
    {
        let variable = &variables[index];
        proof {
            lemma_storage_width_step(views, index as int);
            lemma_storage_width_grows(views, index + 1);
        }
        if variable.length > size - offset {
            return None;
        }
        let cell = vstd::slice::slice_subrange(row, offset, offset + variable.length);
        values.push(XPTParser::parse_cell(cell, variable));
        offset = offset + variable.length;
        index += 1;
    }
    assert(views.take(count as int) =~= views);
    let decoded = XPTRow { values };
    assert(decoded@ =~= row_values(row@, views));
    Some(decoded)
}

/// The layout leaves room for a row of `width` bytes in every stride.
pub open spec fn layout_fits(observations: Seq<u8>, layout: RowLayout, width: nat) -> bool {
    &&& 0 < width <= layout.stride
    &&& layout.data_len <= observations.len()
    &&& layout.data_len as int % layout.stride as int == 0
}

/// Decodes the rows of the observations, as the layout places them.
pub fn decode_rows(observations: &[u8], layout: RowLayout, variables: &Vec<XPTVariable>) -> (rows:
    Vec<XPTRow>)
    requires
        layout_fits(observations@, layout, storage_width(variable_views(variables@))),
    ensures
        row_views(rows@) == decoded_rows(
            observations@,
            layout.stride as int,
            layout.data_len as int,
            variable_views(variables@),
        ),
{
    let ghost views = variable_views(variables@);
    let ghost stride = layout.stride as int;
    let width: usize = storage_width_of(variables) as usize;
    let mut rows: Vec<XPTRow> = Vec::new();
    let mut start: usize = 0;
    while layout.data_len - start >= layout.stride
        invariant
            views == variable_views(variables@),
            stride == layout.stride,
            width == storage_width(views),
            layout_fits(observations@, layout, storage_width(views)),
            start <= layout.data_len,
            start == rows@.len() * stride,
            forall|i: int|
                0 <= i < rows@.len() ==> (#[trigger] rows@[i])@ == row_values(
                    row_bytes(observations@, stride, width as int, i),
                    views,
                ),
        decreases layout.data_len - start,
    {
        let bytes = vstd::slice::slice_subrange(observations, start, start + width);
        match decode_row(bytes, variables) {
            Some(row) => {
                rows.push(row);
            },
            None => {},
        }
        assert((rows@.len() - 1) * stride + stride == rows@.len() * stride) by (nonlinear_arith);
        start = start + layout.stride;
    }
    proof {
        let count = rows@.len() as int;
        vstd::arithmetic::div_mod::lemma_fundamental_div_mod_converse(
            layout.data_len as int,
            stride,
            count,
            layout.data_len - start,
        );
        assert(row_views(rows@) =~= decoded_rows(
            observations@,
            stride,
            layout.data_len as int,
            views,
        ));
    }
    rows
}

} // verus!

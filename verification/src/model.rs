//! The decoded dataset and its mathematical views.

use vstd::prelude::*;

verus! {

/// The kind of values that a column holds.
#[derive(Debug, Clone, Copy, PartialEq, Eq, Structural)]
pub enum VariableType {
    /// Numbers in the hexadecimal format of the IBM System/360.
    Numeric,
    /// Text of a fixed width.
    Character,
}

/// One column of a dataset.
#[derive(Debug, Clone)]
pub struct XPTVariable {
    /// The name; never empty.
    pub name: String,
    /// The label; the name where the file gives none.
    pub label: String,
    /// The kind of values.
    pub var_type: VariableType,
    /// The width of a cell in bytes.
    pub length: usize,
    /// The ordinal position by which the columns are ordered.
    pub position: usize,
}

/// One observation: a value for each variable, in the variables' order.
/// A missing number is the empty string.
#[derive(Debug, Clone)]
pub struct XPTRow {
    /// The values.
    pub values: Vec<String>,
}

/// A decoded transport file.
#[derive(Debug, Clone)]
pub struct XPTDataset {
    /// The name of the dataset; never empty.
    pub title: String,
    /// When the dataset was created, as the file says it.
    pub created_date: Option<String>,
    /// When the dataset was last modified, as the file says it.
    pub modified_date: Option<String>,
    /// The columns, in storage order.
    pub variables: Vec<XPTVariable>,
    /// The observations.
    pub rows: Vec<XPTRow>,
}

impl VariableType {
    /// The least width in bytes of a cell of this kind.
    pub open spec fn minimum_length(self) -> nat {
        match self {
            VariableType::Numeric => 8,
            VariableType::Character => 1,
        }
    }
}

/// A variable as a mathematical value.
pub struct VariableView {
    pub name: Seq<char>,
    pub label: Seq<char>,
    pub var_type: VariableType,
    pub length: nat,
    pub position: nat,
}

impl VariableView {
    /// What holds of every variable of a decoded dataset: it has a name,
    /// a label and a position, and its cells are wide enough for its
    /// kind.
    pub open spec fn well_formed(self) -> bool {
        &&& self.name.len() > 0
        &&& self.label.len() > 0
        &&& self.length >= self.var_type.minimum_length()
        &&& self.position >= 1
    }
}

/// A dataset as a mathematical value.
pub struct DatasetView {
    pub title: Seq<char>,
    pub created_date: Option<Seq<char>>,
    pub modified_date: Option<Seq<char>>,
    pub variables: Seq<VariableView>,
    pub rows: Seq<Seq<Seq<char>>>,
}

impl DatasetView {
    /// What holds of every decoded dataset: it has a title and at least
    /// one variable and one row, its variables are well formed and stand
    /// in the order of their positions, and every row has a value for
    /// every variable.
    pub open spec fn well_formed(self) -> bool {
        &&& self.title.len() > 0
        &&& self.variables.len() > 0
        &&& self.rows.len() > 0
        &&& forall|i: int|
            0 <= i < self.variables.len() ==> (#[trigger] self.variables[i]).well_formed()
        &&& forall|a: int, b: int|
            0 <= a < b < self.variables.len() ==> (#[trigger] self.variables[a]).position <= (
            #[trigger] self.variables[b]).position
        &&& forall|r: int|
            0 <= r < self.rows.len() ==> (#[trigger] self.rows[r]).len() == self.variables.len()
    }
}

impl View for XPTVariable {
    type V = VariableView;

    open spec fn view(&self) -> VariableView {
        VariableView {
            name: self.name@,
            label: self.label@,
            var_type: self.var_type,
            length: self.length as nat,
            position: self.position as nat,
        }
    }
}

impl View for XPTRow {
    type V = Seq<Seq<char>>;

    open spec fn view(&self) -> Seq<Seq<char>> {
        Seq::new(self.values@.len(), |i: int| self.values@[i]@)
    }
}

/// The view of an optional string.
pub open spec fn optional_text(text: Option<String>) -> Option<Seq<char>> {
    match text {
        Some(s) => Some(s@),
        None => None,
    }
}

impl View for XPTDataset {
    type V = DatasetView;

    open spec fn view(&self) -> DatasetView {
        DatasetView {
            title: self.title@,
            created_date: optional_text(self.created_date),
            modified_date: optional_text(self.modified_date),
            variables: Seq::new(self.variables@.len(), |i: int| self.variables@[i]@),
            rows: Seq::new(self.rows@.len(), |i: int| self.rows@[i]@),
        }
    }
}

/// The views of a vector of variables.
pub open spec fn variable_views(variables: Seq<XPTVariable>) -> Seq<VariableView> {
    Seq::new(variables.len(), |i: int| variables[i]@)
}

/// The views of a vector of rows.
pub open spec fn row_views(rows: Seq<XPTRow>) -> Seq<Seq<Seq<char>>> {
    Seq::new(rows.len(), |i: int| rows[i]@)
}

} // verus!

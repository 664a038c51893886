use vstd::prelude::*;

use crate::value::text_equal;

verus! {

/// The column types a table may declare.
#[derive(Debug, Clone, Copy, PartialEq, Eq, Structural)]
pub enum SqlTypeInfo {
    String,
    Int,
}

/// A column declaration: name and type.
#[derive(Debug)]
pub struct Column {
    pub name: String,
    pub type_info: SqlTypeInfo,
}

/// A table to create and its columns.
#[derive(Debug)]
pub struct CreateStatement {
    pub table: String,
    pub columns: Vec<Column>,
}

/// A condition on one column: `first` is the column, `second` the literal
/// as written, `token` the operator (`=` or `!=`).
#[derive(Debug)]
pub struct Condition {
    pub first: String,
    pub second: String,
    pub token: String,
}

/// A select: the table, the columns, and an optional condition.
#[derive(Debug)]
pub struct SelectStatementCondition {
    pub table: String,
    pub fields: Vec<String>,
    pub where_clause: Option<Condition>,
}

/// The columns of a table.
#[derive(Debug)]
pub struct ColumnInfo {
    pub columns: Vec<Column>,
}

impl ColumnInfo {
    pub fn new(columns: Vec<Column>) -> (r: Self)
        ensures
            r.columns == columns,
    {
        Self { columns }
    }

    /// The columns, in declaration order.
    pub fn iter(&self) -> (r: &Vec<Column>)
        ensures
            r == &self.columns,
    {
        &self.columns
    }

    /// The first column named `column_name`.
    pub fn find_column(&self, column_name: &String) -> (r: Option<&Column>)
        ensures
            match r {
                Some(c) => exists|i: int|
                    0 <= i < self.columns@.len() && self.columns@[i] == *c && c.name@
                        == column_name@ && forall|j: int|
                        0 <= j < i ==> (#[trigger] self.columns@[j]).name@ != column_name@,
                None => forall|j: int|
                    0 <= j < self.columns@.len() ==> (#[trigger] self.columns@[j]).name@
                        != column_name@,
            },
    {
        let n = self.columns.len();
        let mut i: usize = 0;
        while i < n
            invariant
                n == self.columns@.len(),
                0 <= i <= n,
                forall|j: int| 0 <= j < i ==> (#[trigger] self.columns@[j]).name@ != column_name@,
            decreases n - i,
        {
            if text_equal(&self.columns[i].name, column_name) {
                return Some(&self.columns[i]);
            }
            i = i + 1;
        }
        None
    }
}

} // verus!

//! The rows that the schema queries give back.
use vstd::prelude::*;

verus! {

/// A row of the list of tables of a schema.
pub struct TableNameDto {
    pub table_name: String,
}

/// A column of a table, as one environment describes it.
pub struct TableColumn {
    pub column_name: String,
    pub data_type: String,
    pub is_nullable: String,
}

/// An index of a table: its name and its definition.
pub struct TableIndex {
    pub indexname: String,
    pub indexdef: String,
}

/// Two descriptions of a column differ when their names, their data types or their
/// nullability differ.
pub open spec fn columns_differ(a: TableColumn, b: TableColumn) -> bool {
    ||| a.column_name@ != b.column_name@
    ||| a.data_type@ != b.data_type@
    ||| a.is_nullable@ != b.is_nullable@
}

impl TableColumn {
    /// Whether `other` describes this column otherwise than `self` does.
    pub fn has_difference_with(&self, other: &TableColumn) -> (r: bool)
        ensures
            r == columns_differ(*self, *other),
    {
        !(self.column_name == other.column_name) || !(self.data_type == other.data_type)
            || !(self.is_nullable == other.is_nullable)
    }
}

/// Two descriptions of a column differ exactly when they differ in the column's name, in
/// its data type or in its nullability; in particular, another nullability alone makes them
/// differ.
pub proof fn lemma_columns_differ_by_fields(a: TableColumn, b: TableColumn)
    ensures
        a.column_name@ != b.column_name@ ==> columns_differ(a, b),
        a.data_type@ != b.data_type@ ==> columns_differ(a, b),
        a.is_nullable@ != b.is_nullable@ ==> columns_differ(a, b),
        a.column_name@ == b.column_name@ && a.data_type@ == b.data_type@ && a.is_nullable@
            == b.is_nullable@ ==> !columns_differ(a, b),
{
}

/// A column never differs from itself; difference is symmetric; and two descriptions that
/// both agree with a third agree with each other.
pub proof fn lemma_column_difference(a: TableColumn, b: TableColumn, c: TableColumn)
    ensures
        !columns_differ(a, a),
        columns_differ(a, b) == columns_differ(b, a),
        !columns_differ(a, b) && !columns_differ(b, c) ==> !columns_differ(a, c),
{
}

} // verus!

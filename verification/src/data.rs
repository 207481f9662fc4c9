//! Rows and schema entries.
//!
//! A row is an ordered sequence of column values; a schema entry is the
//! column shape of one table. Each type has a mathematical view, and a
//! copy function whose contract says the copy has the same view.

use vstd::prelude::*;

verus! {

/// The type of one column.
#[derive(Debug, Clone, Copy, PartialEq, Eq)]
pub enum DataType {
    Bool,
    Int,
    Text,
}

/// One column value.
#[derive(Debug, Clone, PartialEq, Eq)]
pub enum Value {
    Null,
    Bool(bool),
    I64(i64),
    Str(String),
}

/// The mathematical value of a column value.
pub enum ValueV {
    Null,
    Bool(bool),
    I64(i64),
    Str(Seq<char>),
}

impl View for Value {
    type V = ValueV;

    open spec fn view(&self) -> ValueV {
        match self {
            Value::Null => ValueV::Null,
            Value::Bool(b) => ValueV::Bool(*b),
            Value::I64(x) => ValueV::I64(*x),
            Value::Str(s) => ValueV::Str(s@),
        }
    }
}

/// One row: column values in schema order.
#[derive(Debug, Clone, PartialEq, Eq)]
pub struct Row {
    pub values: Vec<Value>,
}

impl View for Row {
    type V = Seq<ValueV>;

    open spec fn view(&self) -> Seq<ValueV> {
        self.values@.map_values(|v: Value| v@)
    }
}

/// One column definition: name, type, and column-level options.
#[derive(Debug, Clone, PartialEq, Eq)]
pub struct ColumnDef {
    pub name: String,
    pub data_type: DataType,
    pub nullable: bool,
    pub unique: bool,
}

/// The mathematical value of a column definition.
pub struct ColumnDefV {
    pub name: Seq<char>,
    pub data_type: DataType,
    pub nullable: bool,
    pub unique: bool,
}

impl View for ColumnDef {
    type V = ColumnDefV;

    open spec fn view(&self) -> ColumnDefV {
        ColumnDefV {
            name: self.name@,
            data_type: self.data_type,
            nullable: self.nullable,
            unique: self.unique,
        }
    }
}

/// One table's schema entry.
#[derive(Debug, Clone, PartialEq, Eq)]
pub struct Schema {
    pub table_name: String,
    pub column_defs: Vec<ColumnDef>,
}

/// The mathematical value of a schema entry.
pub struct SchemaV {
    pub table_name: Seq<char>,
    pub column_defs: Seq<ColumnDefV>,
}

impl View for Schema {
    type V = SchemaV;

    open spec fn view(&self) -> SchemaV {
        SchemaV {
            table_name: self.table_name@,
            column_defs: self.column_defs@.map_values(|c: ColumnDef| c@),
        }
    }
}

/// Copy one value.
pub fn dup_value(v: &Value) -> (r: Value)
    ensures
        r@ == v@,
{
    match v {
        Value::Null => Value::Null,
        Value::Bool(b) => Value::Bool(*b),
        Value::I64(x) => Value::I64(*x),
        Value::Str(s) => Value::Str(s.clone()),
    }
}

/// Copy one row.
pub fn dup_row(row: &Row) -> (r: Row)
    ensures
        r@ == row@,
{
    let mut values: Vec<Value> = Vec::new();
    let mut i: usize = 0;
    while i < row.values.len()
        invariant
            i <= row.values.len(),
            values@.len() == i,
            forall|j: int| 0 <= j < i ==> values@[j]@ == row.values@[j]@,
        decreases row.values.len() - i,
    {
        values.push(dup_value(&row.values[i]));
        i = i + 1;
    }
    let r = Row { values };
    proof {
        assert(r@ =~= row@);
    }
    r
}

/// Copy one column definition.
pub fn dup_column_def(c: &ColumnDef) -> (r: ColumnDef)
    ensures
        r@ == c@,
{
    ColumnDef {
        name: c.name.clone(),
        data_type: c.data_type,
        nullable: c.nullable,
        unique: c.unique,
    }
}

/// Copy one schema entry.
pub fn dup_schema(s: &Schema) -> (r: Schema)
    ensures
        r@ == s@,
{
    let mut column_defs: Vec<ColumnDef> = Vec::new();
    let mut i: usize = 0;
    while i < s.column_defs.len()
        invariant
            i <= s.column_defs.len(),
            column_defs@.len() == i,
            forall|j: int| 0 <= j < i ==> column_defs@[j]@ == s.column_defs@[j]@,
        decreases s.column_defs.len() - i,
    {
        column_defs.push(dup_column_def(&s.column_defs[i]));
        i = i + 1;
    }
    let r = Schema { table_name: s.table_name.clone(), column_defs };
    proof {
        assert(r@.column_defs =~= s@.column_defs);
    }
    r
}

} // verus!

//! The data the database stores and returns.
use vstd::prelude::*;

verus! {

#[verifier::external_type_specification]
#[verifier::external_body]
pub struct ExObjectName(sqlparser::ast::ObjectName);

#[verifier::external_type_specification]
#[verifier::external_body]
pub struct ExColumnDef(sqlparser::ast::ColumnDef);

/// A table: its name and its columns, as SQL states them.
#[derive(Debug)]
pub struct Table {
    pub name: sqlparser::ast::ObjectName,
    pub columns: Vec<sqlparser::ast::ColumnDef>,
}

/// The rows a statement returns.
#[derive(Debug, PartialEq, Eq, Structural)]
pub struct ResultSet {}

} // verus!

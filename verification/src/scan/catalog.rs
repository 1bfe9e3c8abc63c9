//! The relations of a query, as far as planning reads them.

use vstd::prelude::*;
use crate::pg_types::INVALID_OID;
use crate::scan::node::Var;

verus! {

/// A column of a relation.
pub struct ColumnInfo {
    /// None for a dropped column.
    pub name: Option<String>,
    pub type_oid: u32,
}

/// A relation of a query.
pub struct Relation {
    pub relid: u32,
    /// Columns in order of their numbers, from 1.
    pub columns: Vec<ColumnInfo>,
}

/// The relations of a query by range-table index; index 0 is unused.
pub struct QueryRels {
    pub rels: Vec<Option<Relation>>,
}

impl QueryRels {
    /// The relation that a column reference is to.
    pub open spec fn rel_of(&self, v: Var) -> Option<Relation> {
        if 0 < v.varno < self.rels@.len() {
            self.rels@[v.varno as int]
        } else {
            None
        }
    }

    /// OID of the relation and type of the column that a reference is to.
    pub open spec fn column(&self, v: Var) -> Option<(u32, u32)> {
        match self.rel_of(v) {
            Some(r) => Some((r.relid, r.type_of(v.varattno))),
            None => None,
        }
    }

    /// OID of the relation and type of the column that a reference is to.
    pub fn lookup(&self, v: Var) -> (r: Option<(u32, u32)>)
        ensures
            r == self.column(v),
    {
        if v.varno <= 0 || v.varno as usize >= self.rels.len() {
            return None;
        }
        match &self.rels[v.varno as usize] {
            Some(rel) => Some((rel.relid, rel.column_type(v.varattno))),
            None => None,
        }
    }

    /// The relation that a column reference is to.
    pub fn relation(&self, v: Var) -> (r: Option<&Relation>)
        ensures
            match r {
                Some(rel) => self.rel_of(v) == Some(*rel),
                None => self.rel_of(v) is None,
            },
    {
        if v.varno <= 0 || v.varno as usize >= self.rels.len() {
            return None;
        }
        self.rels[v.varno as usize].as_ref()
    }
}

impl Relation {
    /// Type of a column; invalid for a number that is none of a column's.
    pub open spec fn type_of(&self, attno: i16) -> u32 {
        if 1 <= attno <= self.columns@.len() {
            self.columns@[attno - 1].type_oid
        } else {
            INVALID_OID
        }
    }

    pub fn column_type(&self, attno: i16) -> (r: u32)
        ensures
            r == self.type_of(attno),
    {
        if attno >= 1 && attno as usize <= self.columns.len() {
            self.columns[attno as usize - 1].type_oid
        } else {
            INVALID_OID
        }
    }

    /// Name of a column.
    pub open spec fn name_of(&self, attno: i16) -> Option<Seq<char>> {
        if 1 <= attno <= self.columns@.len() {
            match self.columns@[attno - 1].name {
                Some(s) => Some(s@),
                None => None,
            }
        } else {
            None
        }
    }

    pub fn column_name(&self, attno: i16) -> (r: Option<&String>)
        ensures
            match r {
                Some(s) => self.name_of(attno) == Some(s@),
                None => self.name_of(attno) is None,
            },
    {
        if attno >= 1 && attno as usize <= self.columns.len() {
            self.columns[attno as usize - 1].name.as_ref()
        } else {
            None
        }
    }
}

} // verus!

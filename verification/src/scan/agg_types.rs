//! What the aggregate scan is asked to compute: aggregates, grouping
//! expressions, HAVING filters, and their numbering in a scan description.

use vstd::prelude::*;

verus! {

#[derive(Clone, Copy, Debug, PartialEq, Eq, Structural)]
pub enum AggType {
    CountStar,
    Count,
    Sum,
    Avg,
    CountDistinct,
    Min,
    Max,
}

impl AggType {
    pub open spec fn code_spec(self) -> i32 {
        match self {
            AggType::CountStar => 0,
            AggType::Count => 1,
            AggType::Sum => 2,
            AggType::Avg => 3,
            AggType::CountDistinct => 4,
            AggType::Min => 5,
            AggType::Max => 6,
        }
    }

    /// Number of the aggregate in a scan description.
    pub fn code(self) -> (r: i32)
        ensures
            r == self.code_spec(),
    {
        match self {
            AggType::CountStar => 0,
            AggType::Count => 1,
            AggType::Sum => 2,
            AggType::Avg => 3,
            AggType::CountDistinct => 4,
            AggType::Min => 5,
            AggType::Max => 6,
        }
    }
}

/// Number of MIN in a scan description.
pub const MIN_CODE: i32 = 5;

/// Number of MAX in a scan description.
pub const MAX_CODE: i32 = 6;

/// What is aggregated: the column, its text length, or the column plus a constant.
#[derive(Clone, Copy, Debug, PartialEq, Eq, Structural)]
pub enum AggExpr {
    Column,
    LengthOf,
    AddConst,
}

/// Number of `AggExpr::AddConst` in a scan description.
pub const ADD_CONST_CODE: i32 = 2;

impl AggExpr {
    pub open spec fn code_spec(self) -> i32 {
        match self {
            AggExpr::Column => 0,
            AggExpr::LengthOf => 1,
            AggExpr::AddConst => 2,
        }
    }

    pub fn code(self) -> (r: i32)
        ensures
            r == self.code_spec(),
    {
        match self {
            AggExpr::Column => 0,
            AggExpr::LengthOf => 1,
            AggExpr::AddConst => 2,
        }
    }
}

/// What is done to a MIN or MAX before it is emitted.
#[derive(Clone, Copy, Debug, PartialEq, Eq, Structural)]
pub enum OutputTransform {
    Identity,
    /// Adds a number of microseconds.
    PgUsShift { delta: i64 },
}

/// One aggregate.
#[derive(Clone, Copy, Debug, PartialEq, Eq, Structural)]
pub struct AggSpec {
    pub agg_type: AggType,
    /// Index of the column, -1 for COUNT(*).
    pub col_idx: i32,
    pub result_type_oid: u32,
    pub col_type_oid: u32,
    pub expr_kind: AggExpr,
    /// The constant of `AggExpr::AddConst`.
    pub const_offset: i64,
    pub output_transform: OutputTransform,
}

#[derive(Clone, Copy, Debug, PartialEq, Eq, Structural)]
pub enum CaseWhenOp {
    Eq,
    NotEq,
}

/// `column = constant` or `column <> constant`.
#[derive(Clone, Copy, Debug, PartialEq, Eq, Structural)]
pub struct CaseWhenCondition {
    pub col_idx: usize,
    pub op: CaseWhenOp,
    pub const_val: i64,
}

/// A result of a CASE: a text column, or a string as its UTF-8 bytes.
#[derive(Debug)]
pub enum CaseWhenValue {
    ColumnRef(usize),
    StringConst(Vec<u8>),
}

#[derive(Debug)]
pub struct CaseWhenClause {
    pub conditions: Vec<CaseWhenCondition>,
    pub result: CaseWhenValue,
}

#[derive(Debug)]
pub struct CaseWhenSpec {
    pub clauses: Vec<CaseWhenClause>,
    pub default: CaseWhenValue,
}

/// What is grouped by. Strings are UTF-8 bytes.
#[derive(Debug)]
pub enum GroupByExpr {
    Column,
    RegexpReplace { pattern: Vec<u8>, replacement: Vec<u8>, func_oid: u32, collation: u32 },
    DateTrunc { unit: Vec<u8>, func_oid: u32 },
    Extract { unit: Vec<u8>, func_oid: u32, divisor: i64 },
    AddConst { offset: i32, op_oid: u32 },
    CaseWhen(CaseWhenSpec),
}

/// One grouping expression.
#[derive(Debug)]
pub struct GroupByColSpec {
    /// Index of the column, -1 for a CASE.
    pub col_idx: i32,
    pub type_oid: u32,
    pub expr: GroupByExpr,
}

#[derive(Clone, Copy, Debug, PartialEq, Eq, Structural)]
pub enum HavingOp {
    Gt,
    Lt,
    Ge,
    Le,
    Eq,
    Ne,
}

impl HavingOp {
    pub open spec fn code_spec(self) -> i32 {
        match self {
            HavingOp::Gt => 0,
            HavingOp::Lt => 1,
            HavingOp::Ge => 2,
            HavingOp::Le => 3,
            HavingOp::Eq => 4,
            HavingOp::Ne => 5,
        }
    }

    pub fn code(self) -> (r: i32)
        ensures
            r == self.code_spec(),
    {
        match self {
            HavingOp::Gt => 0,
            HavingOp::Lt => 1,
            HavingOp::Ge => 2,
            HavingOp::Le => 3,
            HavingOp::Eq => 4,
            HavingOp::Ne => 5,
        }
    }
}

/// `aggregate <op> constant`.
#[derive(Clone, Copy, Debug, PartialEq, Eq, Structural)]
pub struct HavingFilter {
    pub agg_idx: usize,
    pub op: HavingOp,
    pub const_val: i64,
}

// ---------------------------------------------------------------------------
// Mathematical values
// ---------------------------------------------------------------------------

pub enum CaseValue {
    ColumnRef(usize),
    StringConst(Seq<u8>),
}

pub struct CaseClause {
    pub conditions: Seq<CaseWhenCondition>,
    pub result: CaseValue,
}

pub struct CaseSpec {
    pub clauses: Seq<CaseClause>,
    pub default: CaseValue,
}

pub enum GroupExpr {
    Column,
    RegexpReplace { pattern: Seq<u8>, replacement: Seq<u8>, func_oid: u32, collation: u32 },
    DateTrunc { unit: Seq<u8>, func_oid: u32 },
    Extract { unit: Seq<u8>, func_oid: u32, divisor: i64 },
    AddConst { offset: i32, op_oid: u32 },
    CaseWhen(CaseSpec),
}

pub struct Group {
    pub col_idx: i32,
    pub type_oid: u32,
    pub expr: GroupExpr,
}

impl CaseWhenValue {
    pub open spec fn view(&self) -> CaseValue {
        match self {
            CaseWhenValue::ColumnRef(c) => CaseValue::ColumnRef(*c),
            CaseWhenValue::StringConst(s) => CaseValue::StringConst(s@),
        }
    }
}

impl CaseWhenClause {
    pub open spec fn view(&self) -> CaseClause {
        CaseClause { conditions: self.conditions@, result: self.result.view() }
    }
}

pub open spec fn clauses_view(v: Seq<CaseWhenClause>) -> Seq<CaseClause> {
    v.map_values(|c: CaseWhenClause| c.view())
}

impl CaseWhenSpec {
    pub open spec fn view(&self) -> CaseSpec {
        CaseSpec { clauses: clauses_view(self.clauses@), default: self.default.view() }
    }
}

impl GroupByExpr {
    pub open spec fn view(&self) -> GroupExpr {
        match self {
            GroupByExpr::Column => GroupExpr::Column,
            GroupByExpr::RegexpReplace { pattern, replacement, func_oid, collation } => {
                GroupExpr::RegexpReplace {
                    pattern: pattern@,
                    replacement: replacement@,
                    func_oid: *func_oid,
                    collation: *collation,
                }
            },
            GroupByExpr::DateTrunc { unit, func_oid } => GroupExpr::DateTrunc {
                unit: unit@,
                func_oid: *func_oid,
            },
            GroupByExpr::Extract { unit, func_oid, divisor } => GroupExpr::Extract {
                unit: unit@,
                func_oid: *func_oid,
                divisor: *divisor,
            },
            GroupByExpr::AddConst { offset, op_oid } => GroupExpr::AddConst {
                offset: *offset,
                op_oid: *op_oid,
            },
            GroupByExpr::CaseWhen(spec) => GroupExpr::CaseWhen(spec.view()),
        }
    }
}

impl GroupByColSpec {
    pub open spec fn view(&self) -> Group {
        Group { col_idx: self.col_idx, type_oid: self.type_oid, expr: self.expr.view() }
    }
}

pub open spec fn groups_view(v: Seq<GroupByColSpec>) -> Seq<Group> {
    v.map_values(|g: GroupByColSpec| g.view())
}

} // verus!

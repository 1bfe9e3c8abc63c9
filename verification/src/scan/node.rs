//! Planner expressions as plain values.
//!
//! A `Node` carries what the planner logic reads of one of PostgreSQL's
//! expression nodes, with catalog names already looked up. `Expr` is the
//! mathematical tree it stands for.

use vstd::prelude::*;

use crate::text::text_is;

verus! {

/// `varno` of a reference into the outer child's target list.
pub const OUTER_VAR: i32 = -2;

/// `varno` of a reference into the inner child's target list.
pub const INNER_VAR: i32 = -1;

/// `varno` of a reference into a custom scan's own tuple.
pub const INDEX_VAR: i32 = -3;

/// Name of an operator, as far as it is told apart.
#[derive(Clone, Copy, Debug, PartialEq, Eq, Structural)]
pub enum OpName {
    Plus,
    Minus,
    Star,
    Slash,
    Eq,
    Ne,
    BangEq,
    Lt,
    Le,
    Gt,
    Ge,
    Like,
    NotLike,
    Other,
    /// The catalog has no such operator.
    Missing,
}

pub open spec fn op_name_of(s: Seq<char>) -> OpName {
    if s == "+"@ {
        OpName::Plus
    } else if s == "-"@ {
        OpName::Minus
    } else if s == "*"@ {
        OpName::Star
    } else if s == "/"@ {
        OpName::Slash
    } else if s == "="@ {
        OpName::Eq
    } else if s == "<>"@ {
        OpName::Ne
    } else if s == "!="@ {
        OpName::BangEq
    } else if s == "<"@ {
        OpName::Lt
    } else if s == "<="@ {
        OpName::Le
    } else if s == ">"@ {
        OpName::Gt
    } else if s == ">="@ {
        OpName::Ge
    } else if s == "~~"@ {
        OpName::Like
    } else if s == "!~~"@ {
        OpName::NotLike
    } else {
        OpName::Other
    }
}

impl OpName {
    /// The operator that a catalog name stands for.
    pub fn from_name(s: &str) -> (r: OpName)
        ensures
            r == op_name_of(s@),
    {
        if text_is(s, "+") {
            OpName::Plus
        } else if text_is(s, "-") {
            OpName::Minus
        } else if text_is(s, "*") {
            OpName::Star
        } else if text_is(s, "/") {
            OpName::Slash
        } else if text_is(s, "=") {
            OpName::Eq
        } else if text_is(s, "<>") {
            OpName::Ne
        } else if text_is(s, "!=") {
            OpName::BangEq
        } else if text_is(s, "<") {
            OpName::Lt
        } else if text_is(s, "<=") {
            OpName::Le
        } else if text_is(s, ">") {
            OpName::Gt
        } else if text_is(s, ">=") {
            OpName::Ge
        } else if text_is(s, "~~") {
            OpName::Like
        } else if text_is(s, "!~~") {
            OpName::NotLike
        } else {
            OpName::Other
        }
    }
}

/// Name of a function or aggregate, as far as it is told apart.
#[derive(Clone, Copy, Debug, PartialEq, Eq, Structural)]
pub enum FuncName {
    Sum,
    Avg,
    Count,
    Min,
    Max,
    Length,
    RegexpReplace,
    DateTrunc,
    Extract,
    DatePart,
    ToTimestamp,
    Other,
    /// The catalog has no such function.
    Missing,
}

pub open spec fn func_name_of(s: Seq<char>) -> FuncName {
    if s == "sum"@ {
        FuncName::Sum
    } else if s == "avg"@ {
        FuncName::Avg
    } else if s == "count"@ {
        FuncName::Count
    } else if s == "min"@ {
        FuncName::Min
    } else if s == "max"@ {
        FuncName::Max
    } else if s == "length"@ {
        FuncName::Length
    } else if s == "regexp_replace"@ {
        FuncName::RegexpReplace
    } else if s == "date_trunc"@ {
        FuncName::DateTrunc
    } else if s == "extract"@ {
        FuncName::Extract
    } else if s == "date_part"@ {
        FuncName::DatePart
    } else if s == "to_timestamp"@ {
        FuncName::ToTimestamp
    } else {
        FuncName::Other
    }
}

impl FuncName {
    /// The function that a catalog name stands for.
    pub fn from_name(s: &str) -> (r: FuncName)
        ensures
            r == func_name_of(s@),
    {
        if text_is(s, "sum") {
            FuncName::Sum
        } else if text_is(s, "avg") {
            FuncName::Avg
        } else if text_is(s, "count") {
            FuncName::Count
        } else if text_is(s, "min") {
            FuncName::Min
        } else if text_is(s, "max") {
            FuncName::Max
        } else if text_is(s, "length") {
            FuncName::Length
        } else if text_is(s, "regexp_replace") {
            FuncName::RegexpReplace
        } else if text_is(s, "date_trunc") {
            FuncName::DateTrunc
        } else if text_is(s, "extract") {
            FuncName::Extract
        } else if text_is(s, "date_part") {
            FuncName::DatePart
        } else if text_is(s, "to_timestamp") {
            FuncName::ToTimestamp
        } else {
            FuncName::Other
        }
    }
}

/// A column reference.
#[derive(Clone, Copy, Debug, PartialEq, Eq, Structural)]
pub struct Var {
    pub varno: i32,
    pub varattno: i16,
    pub vartype: u32,
    pub vartypmod: i32,
    pub varcollid: u32,
    pub varlevelsup: u32,
}

/// What a constant's datum points to, for the types whose contents are read.
#[derive(Debug)]
pub enum Payload {
    /// Passed by value, or of a type that is not looked into.
    Plain,
    Text(String),
    Interval { time: i64, day: i32, month: i32 },
    /// First header word of a `numeric`.
    NumericHeader(u16),
}

/// A constant.
#[derive(Debug)]
pub struct Const {
    pub consttype: u32,
    pub constisnull: bool,
    /// The datum word.
    pub word: i64,
    pub payload: Payload,
}

#[derive(Clone, Copy, Debug, PartialEq, Eq, Structural)]
pub struct OpInfo {
    pub opno: u32,
    pub name: OpName,
    /// Operand and result types of the operator's catalog entry.
    pub oprleft: u32,
    pub oprright: u32,
    pub oprresult: u32,
    pub opfuncid: u32,
    pub opresulttype: u32,
    pub opcollid: u32,
    pub inputcollid: u32,
}

#[derive(Clone, Copy, Debug, PartialEq, Eq, Structural)]
pub struct FuncInfo {
    pub funcid: u32,
    pub name: FuncName,
    pub inputcollid: u32,
}

#[derive(Clone, Copy, Debug, PartialEq, Eq, Structural)]
pub struct CastInfo {
    pub resulttype: u32,
    pub resultcollid: u32,
}

#[derive(Clone, Copy, Debug, PartialEq, Eq, Structural)]
pub struct AggInfo {
    pub aggfnoid: u32,
    pub name: FuncName,
    pub aggtype: u32,
    /// Length and passing of a value of the result type.
    pub typlen: i16,
    pub typbyval: bool,
    pub aggstar: bool,
    /// Has a DISTINCT list.
    pub distinct: bool,
}

#[derive(Clone, Copy, Debug, PartialEq, Eq, Structural)]
pub enum BoolOp {
    And,
    Or,
    Not,
}

/// What kind of node it is, with the fields that are not sub-expressions.
#[derive(Debug)]
pub enum Head {
    /// A null pointer.
    Null,
    Var(Var),
    Const(Const),
    OpExpr(OpInfo),
    BoolExpr(BoolOp),
    FuncExpr(FuncInfo),
    CoerceViaIO(CastInfo),
    RelabelType(CastInfo),
    NullTest,
    BooleanTest,
    CaseExpr,
    /// Arguments: the condition, the result.
    CaseWhen,
    Aggref(AggInfo),
    WindowFunc,
    /// Holds whether ANY (rather than ALL) of the array's elements is asked for.
    ScalarArrayOpExpr(bool),
    /// Holds the entry's `resno`; the argument is its expression.
    TargetEntry(i16),
    List,
    Other,
}

/// An expression node.
///
/// `args` is the node's argument list, in order (for a node with one operand,
/// that operand). An empty list and a null list are the same thing.
pub struct Node {
    /// Tells one node of the plan from another; 0 for a node made here.
    pub ident: u64,
    pub head: Head,
    pub args: Vec<Node>,
    /// The ELSE result of a CASE, the FILTER of an aggregate.
    pub aux: Option<Box<Node>>,
    /// The operand of a simple CASE.
    pub subject: Option<Box<Node>>,
}

/// The tree that a `Node` stands for.
pub struct Expr {
    pub ident: u64,
    pub head: Head,
    pub args: Seq<Expr>,
    pub aux: Option<Box<Expr>>,
    pub subject: Option<Box<Expr>>,
}

impl Node {
    pub open spec fn view(&self) -> Expr
        decreases self,
    {
        Expr {
            ident: self.ident,
            head: self.head,
            args: Seq::new(
                self.args@.len(),
                |i: int|
                    if 0 <= i < self.args@.len() {
                        self.args@[i].view()
                    } else {
                        arbitrary()
                    },
            ),
            aux: match self.aux {
                Some(b) => Some(Box::new(b.view())),
                None => None,
            },
            subject: match self.subject {
                Some(b) => Some(Box::new(b.view())),
                None => None,
            },
        }
    }
}

/// The trees of a list of nodes.
pub open spec fn exprs(v: Seq<Node>) -> Seq<Expr> {
    v.map_values(|n: Node| n.view())
}

/// What the fields of a view are.
pub broadcast proof fn lemma_view(n: Node)
    ensures
        (#[trigger] n.view()).ident == n.ident,
        n.view().head == n.head,
        n.view().args == exprs(n.args@),
        n.view().args.len() == n.args@.len(),
        n.view().aux == match n.aux {
            Some(b) => Some(Box::new(b.view())),
            None => None,
        },
        n.view().subject == match n.subject {
            Some(b) => Some(Box::new(b.view())),
            None => None,
        },
{
    assert(n.view().args =~= exprs(n.args@));
}

/// The view of one argument.
pub broadcast proof fn lemma_exprs(v: Seq<Node>, i: int)
    requires
        0 <= i < v.len(),
    ensures
        #[trigger] exprs(v)[i] == v[i].view(),
{
}

pub broadcast group group_node {
    lemma_view,
    lemma_exprs,
}

/// The null pointer.
pub open spec fn null_expr() -> Expr {
    Expr { ident: 0, head: Head::Null, args: Seq::empty(), aux: None, subject: None }
}

pub open spec fn is_null(e: Expr) -> bool {
    e.head is Null
}

/// A leaf made here.
pub open spec fn leaf(h: Head) -> Expr {
    Expr { ident: 0, head: h, args: Seq::empty(), aux: None, subject: None }
}

pub open spec fn var_expr(v: Var) -> Expr {
    leaf(Head::Var(v))
}

/// Under at most one `RelabelType`; a `RelabelType` over nothing gives null.
pub open spec fn unrelabel(e: Expr) -> Expr {
    if e.head is RelabelType {
        if e.args.len() > 0 {
            e.args[0]
        } else {
            null_expr()
        }
    } else {
        e
    }
}

impl Payload {
    pub fn dup(&self) -> (r: Payload)
        ensures
            r == *self,
    {
        match self {
            Payload::Plain => Payload::Plain,
            Payload::Text(s) => Payload::Text(s.clone()),
            Payload::Interval { time, day, month } => Payload::Interval {
                time: *time,
                day: *day,
                month: *month,
            },
            Payload::NumericHeader(h) => Payload::NumericHeader(*h),
        }
    }
}

impl Const {
    pub fn dup(&self) -> (r: Const)
        ensures
            r == *self,
    {
        Const {
            consttype: self.consttype,
            constisnull: self.constisnull,
            word: self.word,
            payload: self.payload.dup(),
        }
    }
}

impl Head {
    pub fn dup(&self) -> (r: Head)
        ensures
            r == *self,
    {
        match self {
            Head::Null => Head::Null,
            Head::Var(v) => Head::Var(*v),
            Head::Const(c) => Head::Const(c.dup()),
            Head::OpExpr(o) => Head::OpExpr(*o),
            Head::BoolExpr(b) => Head::BoolExpr(*b),
            Head::FuncExpr(f) => Head::FuncExpr(*f),
            Head::CoerceViaIO(c) => Head::CoerceViaIO(*c),
            Head::RelabelType(c) => Head::RelabelType(*c),
            Head::NullTest => Head::NullTest,
            Head::BooleanTest => Head::BooleanTest,
            Head::CaseExpr => Head::CaseExpr,
            Head::CaseWhen => Head::CaseWhen,
            Head::Aggref(a) => Head::Aggref(*a),
            Head::WindowFunc => Head::WindowFunc,
            Head::ScalarArrayOpExpr(u) => Head::ScalarArrayOpExpr(*u),
            Head::TargetEntry(n) => Head::TargetEntry(*n),
            Head::List => Head::List,
            Head::Other => Head::Other,
        }
    }
}

impl Node {
    /// A node without sub-expressions.
    pub fn leaf(head: Head) -> (r: Node)
        ensures
            r.view() == leaf(head),
    {
        broadcast use group_node;

        let r = Node { ident: 0, head, args: Vec::new(), aux: None, subject: None };
        assert(r.view().args =~= Seq::<Expr>::empty());
        r
    }

    /// The null pointer.
    pub fn null() -> (r: Node)
        ensures
            r.view() == null_expr(),
    {
        Node::leaf(Head::Null)
    }

    pub fn is_null(&self) -> (r: bool)
        ensures
            r == is_null(self.view()),
    {
        matches!(self.head, Head::Null)
    }

    /// A copy of the whole tree.
    pub fn dup(&self) -> (r: Node)
        ensures
            r.view() == self.view(),
        decreases self,
    {
        broadcast use group_node;

        let mut args: Vec<Node> = Vec::new();
        let mut i: usize = 0;
        while i < self.args.len()
            invariant
                i <= self.args.len(),
                args.len() == i,
                forall|j: int| 0 <= j < i ==> (#[trigger] args@[j]).view() == self.args@[j].view(),
            decreases self.args.len() - i,
        {
            let n = self.args[i].dup();
            args.push(n);
            i += 1;
        }
        let aux = match &self.aux {
            Some(b) => Some(Box::new(b.dup())),
            None => None,
        };
        let subject = match &self.subject {
            Some(b) => Some(Box::new(b.dup())),
            None => None,
        };
        let r = Node { ident: self.ident, head: self.head.dup(), args, aux, subject };
        assert(r.view().args =~= self.view().args);
        r
    }
}

/// A copy of a list of trees.
pub fn dup_nodes(v: &Vec<Node>) -> (r: Vec<Node>)
    ensures
        exprs(r@) == exprs(v@),
{
    let mut out: Vec<Node> = Vec::new();
    let mut i: usize = 0;
    while i < v.len()
        invariant
            i <= v.len(),
            out.len() == i,
            forall|j: int| 0 <= j < i ==> (#[trigger] out@[j]).view() == v@[j].view(),
        decreases v.len() - i,
    {
        let n = v[i].dup();
        out.push(n);
        i += 1;
    }
    assert(exprs(out@) =~= exprs(v@));
    out
}

} // verus!

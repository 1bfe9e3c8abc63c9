//! Recognition and rewriting of JSONB extraction chains.
//!
//! A chain such as `data->'commit'->>'collection'`, possibly under a cast, can
//! be served from a column that was extracted when the partition was
//! compressed. Here chains are recognised, matched against the configured
//! extractions, and replaced by references to the extracted columns.

use vstd::prelude::*;
use std::collections::HashMap;
use crate::pg_types::{
    BOOLOID, BPCHAROID, DATEOID, DEFAULT_COLLATION_OID, FLOAT4OID, FLOAT8OID, INT2OID, INT4OID,
    INT8OID, INVALID_OID, JSONBOID, TEXTOID, TIMESTAMPOID, TIMESTAMPTZOID, VARCHAROID,
};
use crate::scan::node::{
    exprs, group_node, is_null, leaf, null_expr, unrelabel, var_expr, CastInfo, Const, Expr, Head, Node,
    OpInfo, OpName, Payload, Var, INDEX_VAR, INNER_VAR, OUTER_VAR,
};
use crate::search::{first_where, lemma_first_is, lemma_first_none, lemma_first_where};
use crate::text::{dup_opt_text, dup_texts, opt_text, same_texts, texts};

verus! {

/// `jsonb -> text`.
pub const JSONB_OBJECT_FIELD_OPNO: u32 = 3211;

/// `jsonb ->> text`.
pub const JSONB_OBJECT_FIELD_TEXT_OPNO: u32 = 3477;

/// The function of `jsonb ->> text`.
pub const JSONB_OBJECT_FIELD_TEXT_FUNC: u32 = 3214;

/// The function of `jsonb -> text`.
pub const JSONB_OBJECT_FIELD_FUNC: u32 = 3478;

/// Type that an extracted column is stored as.
#[derive(Clone, Copy, Debug, PartialEq, Eq, Structural)]
pub enum ColumnKind {
    Text,
    Int16,
    Int32,
    Int64,
    Float32,
    Float64,
    Bool,
    Timestamp,
    TimestampTz,
    Date,
    Jsonb,
}

/// The SQL type of an extracted column.
pub open spec fn oid_of_kind(kind: ColumnKind) -> u32 {
    match kind {
        ColumnKind::Text => TEXTOID,
        ColumnKind::Int16 => INT2OID,
        ColumnKind::Int32 => INT4OID,
        ColumnKind::Int64 => INT8OID,
        ColumnKind::Float32 => FLOAT4OID,
        ColumnKind::Float64 => FLOAT8OID,
        ColumnKind::Bool => BOOLOID,
        ColumnKind::Timestamp => TIMESTAMPOID,
        ColumnKind::TimestampTz => TIMESTAMPTZOID,
        ColumnKind::Date => DATEOID,
        ColumnKind::Jsonb => JSONBOID,
    }
}

/// The kind that stores a SQL type: the one of that type, and text for every
/// string type.
pub open spec fn kind_of_oid(oid: u32) -> Option<ColumnKind> {
    if oid == TEXTOID || oid == VARCHAROID || oid == BPCHAROID {
        Some(ColumnKind::Text)
    } else if oid == INT2OID {
        Some(ColumnKind::Int16)
    } else if oid == INT4OID {
        Some(ColumnKind::Int32)
    } else if oid == INT8OID {
        Some(ColumnKind::Int64)
    } else if oid == FLOAT4OID {
        Some(ColumnKind::Float32)
    } else if oid == FLOAT8OID {
        Some(ColumnKind::Float64)
    } else if oid == BOOLOID {
        Some(ColumnKind::Bool)
    } else if oid == TIMESTAMPOID {
        Some(ColumnKind::Timestamp)
    } else if oid == TIMESTAMPTZOID {
        Some(ColumnKind::TimestampTz)
    } else if oid == DATEOID {
        Some(ColumnKind::Date)
    } else if oid == JSONBOID {
        Some(ColumnKind::Jsonb)
    } else {
        None
    }
}

/// Every kind comes back from its SQL type.
pub proof fn lemma_kind_oid_round_trip(kind: ColumnKind)
    ensures
        kind_of_oid(oid_of_kind(kind)) == Some(kind),
{
}

/// SQL type of a column of the given kind.
pub fn kind_to_type_oid(kind: ColumnKind) -> (r: u32)
    ensures
        r == oid_of_kind(kind),
{
    match kind {
        ColumnKind::Text => TEXTOID,
        ColumnKind::Int16 => INT2OID,
        ColumnKind::Int32 => INT4OID,
        ColumnKind::Int64 => INT8OID,
        ColumnKind::Float32 => FLOAT4OID,
        ColumnKind::Float64 => FLOAT8OID,
        ColumnKind::Bool => BOOLOID,
        ColumnKind::Timestamp => TIMESTAMPOID,
        ColumnKind::TimestampTz => TIMESTAMPTZOID,
        ColumnKind::Date => DATEOID,
        ColumnKind::Jsonb => JSONBOID,
    }
}

/// Kind that stores the given SQL type, if any does.
pub fn type_oid_to_kind(oid: u32) -> (r: Option<ColumnKind>)
    ensures
        r == kind_of_oid(oid),
{
    if oid == TEXTOID || oid == VARCHAROID || oid == BPCHAROID {
        Some(ColumnKind::Text)
    } else if oid == INT2OID {
        Some(ColumnKind::Int16)
    } else if oid == INT4OID {
        Some(ColumnKind::Int32)
    } else if oid == INT8OID {
        Some(ColumnKind::Int64)
    } else if oid == FLOAT4OID {
        Some(ColumnKind::Float32)
    } else if oid == FLOAT8OID {
        Some(ColumnKind::Float64)
    } else if oid == BOOLOID {
        Some(ColumnKind::Bool)
    } else if oid == TIMESTAMPOID {
        Some(ColumnKind::Timestamp)
    } else if oid == TIMESTAMPTZOID {
        Some(ColumnKind::TimestampTz)
    } else if oid == DATEOID {
        Some(ColumnKind::Date)
    } else if oid == JSONBOID {
        Some(ColumnKind::Jsonb)
    } else {
        None
    }
}

/// Collation of a column of the given kind.
pub open spec fn collation_of_kind(kind: ColumnKind) -> u32 {
    if kind == ColumnKind::Text {
        DEFAULT_COLLATION_OID
    } else {
        INVALID_OID
    }
}

pub fn kind_collation(kind: ColumnKind) -> (r: u32)
    ensures
        r == collation_of_kind(kind),
{
    if kind == ColumnKind::Text {
        DEFAULT_COLLATION_OID
    } else {
        INVALID_OID
    }
}

/// One configured extraction: the value at `path` under a `jsonb` column.
pub struct ExtractSpec {
    pub src_column: String,
    pub path: Vec<String>,
    pub target_name: String,
    pub target_kind: ColumnKind,
}

/// Names of a relation's columns, by attribute number.
pub struct PhysicalCols {
    pub by_attno: HashMap<i16, String>,
}

/// A recognised chain: keys from the column outwards, the type of the whole
/// expression, and the column it starts from.
pub struct Chain {
    pub keys: Seq<Seq<char>>,
    pub leaf_kind: ColumnKind,
    pub inner_var: Var,
}

/// Below the casts around an expression, and the kind of the outermost cast
/// whose type has one (`outer` if none has). A conversion to a type without a
/// kind stays: no column holds what it gives. A `RelabelType` to one does not,
/// since it leaves the value as it is.
pub open spec fn uncast(e: Expr, outer: Option<ColumnKind>) -> (Expr, Option<ColumnKind>)
    decreases e,
{
    match e.head {
        Head::CoerceViaIO(c) | Head::RelabelType(c) => {
            let k = match outer {
                Some(k) => Some(k),
                None => kind_of_oid(c.resulttype),
            };
            if e.head is CoerceViaIO && kind_of_oid(c.resulttype) is None {
                (e, outer)
            } else if e.args.len() > 0 {
                uncast(e.args[0], k)
            } else {
                (null_expr(), k)
            }
        },
        _ => (e, outer),
    }
}

/// Kind of a chain under casts: that of `->>`, text, where no cast gives one.
pub open spec fn leaf_kind_of(k: Option<ColumnKind>) -> ColumnKind {
    match k {
        Some(k) => k,
        None => ColumnKind::Text,
    }
}

/// `e` as one step `inner <opno> 'key'`: the key and the inner expression.
pub open spec fn op_step(e: Expr, opno: u32) -> Option<(Seq<char>, Expr)> {
    if let Head::OpExpr(op) = e.head {
        if op.opno == opno && e.args.len() == 2 && !is_null(unrelabel(e.args[0])) {
            if let Head::Const(c) = e.args[1].head {
                if c.consttype == TEXTOID && !c.constisnull {
                    match c.payload {
                        Payload::Text(s) => Some((s@, unrelabel(e.args[0]))),
                        _ => None,
                    }
                } else {
                    None
                }
            } else {
                None
            }
        } else {
            None
        }
    } else {
        None
    }
}

/// The keys of the `->` steps of `e`, innermost first, and what they start from.
pub open spec fn object_steps(e: Expr) -> (Seq<Seq<char>>, Expr)
    decreases e,
{
    match op_step(e, JSONB_OBJECT_FIELD_OPNO) {
        Some((key, inner)) => {
            let (keys, root) = object_steps(inner);
            (keys.push(key), root)
        },
        None => (Seq::empty(), e),
    }
}

/// `e` as a chain `cast?(((column -> k1) -> ..) ->> kn)`.
pub open spec fn chain_of(e: Expr) -> Option<Chain> {
    let (root, kind) = uncast(e, None);
    match op_step(root, JSONB_OBJECT_FIELD_TEXT_OPNO) {
        Some((key, inner)) => {
            let (keys, start) = object_steps(inner);
            match unrelabel(start).head {
                Head::Var(v) => Some(
                    Chain { keys: keys.push(key), leaf_kind: leaf_kind_of(kind), inner_var: v },
                ),
                _ => None,
            }
        },
        None => None,
    }
}

proof fn lemma_uncast_kind(e: Expr, k: ColumnKind)
    ensures
        uncast(e, Some(k)).1 == Some(k),
    decreases e,
{
    match e.head {
        Head::CoerceViaIO(_) | Head::RelabelType(_) => {
            if e.args.len() > 0 {
                lemma_uncast_kind(e.args[0], k);
            }
        },
        _ => {},
    }
}

/// A converted chain has the kind of what it is converted to; where that has no
/// kind, there is no chain.
pub proof fn lemma_converted_chain(e: Expr)
    requires
        e.head is CoerceViaIO,
    ensures
        match chain_of(e) {
            Some(c) => kind_of_oid(e.head->CoerceViaIO_0.resulttype) == Some(c.leaf_kind),
            None => true,
        },
        kind_of_oid(e.head->CoerceViaIO_0.resulttype) is None ==> chain_of(e) is None,
{
    if let Some(k) = kind_of_oid(e.head->CoerceViaIO_0.resulttype) {
        if e.args.len() > 0 {
            lemma_uncast_kind(e.args[0], k);
        }
    }
}

/// Constituents of a chain; see `Chain`.
pub struct ChainShape {
    pub keys: Vec<String>,
    pub leaf_kind: ColumnKind,
    pub inner_var: Var,
}

impl ChainShape {
    pub open spec fn view(&self) -> Chain {
        Chain {
            keys: texts(self.keys@),
            leaf_kind: self.leaf_kind,
            inner_var: self.inner_var,
        }
    }
}

fn strip_outer_cast(node: &Node, outer: Option<ColumnKind>) -> (r: (Option<&Node>, Option<
    ColumnKind,
>))
    ensures
        r.1 == uncast(node.view(), outer).1,
        match r.0 {
            Some(n) => n.view() == uncast(node.view(), outer).0,
            None => uncast(node.view(), outer).0 == null_expr(),
        },
    decreases node,
{
    broadcast use group_node;

    match &node.head {
        Head::CoerceViaIO(c) | Head::RelabelType(c) => {
            let own = type_oid_to_kind(c.resulttype);
            let k = match outer {
                Some(k) => Some(k),
                None => own,
            };
            if matches!(node.head, Head::CoerceViaIO(_)) && own.is_none() {
                (Some(node), outer)
            } else if node.args.len() > 0 {
                strip_outer_cast(&node.args[0], k)
            } else {
                (None, k)
            }
        },
        _ => (Some(node), outer),
    }
}

/// The expression under at most one `RelabelType`.
pub fn unwrap_relabel(node: &Node) -> (r: Option<&Node>)
    ensures
        match r {
            Some(n) => n.view() == unrelabel(node.view()) && (*n == *node || (node.args.len() > 0
                && *n == node.args@[0])),
            None => unrelabel(node.view()) == null_expr(),
        },
{
    broadcast use group_node;

    match &node.head {
        Head::RelabelType(_) => if node.args.len() > 0 {
            Some(&node.args[0])
        } else {
            None
        },
        _ => Some(node),
    }
}

/// `node` as one step `inner <opno> 'key'`.
fn match_op_step(node: &Node, expected_opno: u32) -> (r: Option<(String, &Node)>)
    ensures
        match r {
            Some((key, inner)) => op_step(node.view(), expected_opno) == Some((key@, inner.view()))
                && decreases_to!(node => inner),
            None => op_step(node.view(), expected_opno) is None,
        },
{
    broadcast use group_node;

    let op = match &node.head {
        Head::OpExpr(op) => *op,
        _ => {
            return None;
        },
    };
    if op.opno != expected_opno || node.args.len() != 2 {
        return None;
    }
    let inner = match unwrap_relabel(&node.args[0]) {
        Some(n) => n,
        None => {
            return None;
        },
    };
    if inner.is_null() {
        return None;
    }
    match &node.args[1].head {
        Head::Const(c) => {
            if c.consttype != TEXTOID || c.constisnull {
                return None;
            }
            match &c.payload {
                Payload::Text(s) => Some((s.clone(), inner)),
                _ => None,
            }
        },
        _ => None,
    }
}

/// The `->` steps of `node`: their keys, innermost first, and what they start from.
fn walk_object_steps(node: &Node) -> (r: (Vec<String>, &Node))
    ensures
        (texts(r.0@), r.1.view()) == object_steps(node.view()),
    decreases node,
{
    match match_op_step(node, JSONB_OBJECT_FIELD_OPNO) {
        Some((key, inner)) => {
            let (mut keys, start) = walk_object_steps(inner);
            let ghost before = keys@;
            keys.push(key);
            assert(texts(keys@) =~= texts(before).push(key@));
            (keys, start)
        },
        None => {
            let keys: Vec<String> = Vec::new();
            assert(texts(keys@) =~= Seq::<Seq<char>>::empty());
            (keys, node)
        },
    }
}

/// Recognises a chain `cast?(((column -> k1) -> ..) ->> kn)`.
pub fn walk_chain_shape(node: &Node) -> (r: Option<ChainShape>)
    ensures
        match r {
            Some(shape) => chain_of(node.view()) == Some(shape.view()),
            None => chain_of(node.view()) is None,
        },
{
    let (root, kind) = strip_outer_cast(node, None);
    let root = match root {
        Some(n) => n,
        None => {
            return None;
        },
    };
    let (key, inner) = match match_op_step(root, JSONB_OBJECT_FIELD_TEXT_OPNO) {
        Some(step) => step,
        None => {
            return None;
        },
    };
    let (mut keys, start) = walk_object_steps(inner);
    let start = match unwrap_relabel(start) {
        Some(n) => n,
        None => {
            return None;
        },
    };
    match &start.head {
        Head::Var(v) => {
            let ghost before = keys@;
            keys.push(key);
            assert(texts(keys@) =~= texts(before).push(key@));
            let leaf_kind = match kind {
                Some(k) => k,
                None => ColumnKind::Text,
            };
            Some(ChainShape { keys, leaf_kind, inner_var: *v })
        },
        _ => None,
    }
}

/// Whether an extraction holds the value of a chain over the column `column`.
pub open spec fn serves(s: ExtractSpec, column: Seq<char>, c: Chain) -> bool {
    s.src_column@ == column && texts(s.path@) == c.keys && s.target_kind == c.leaf_kind
}

/// The extraction that holds the value of `e`, a chain over a column of
/// relation `rti`.
pub open spec fn chain_spec_index(
    e: Expr,
    rti: i32,
    specs: Seq<ExtractSpec>,
    phys: Map<i16, String>,
) -> Option<int> {
    match chain_of(e) {
        Some(c) => if c.inner_var.varno == rti && phys.contains_key(c.inner_var.varattno) {
            first_where(
                specs,
                |s: ExtractSpec| serves(s, phys[c.inner_var.varattno]@, c),
            )
        } else {
            None
        },
        None => None,
    }
}

/// Finds the extraction that serves `node`, a chain over a column of relation
/// `rti`.
pub fn match_extract_chain(
    node: &Node,
    rti: i32,
    specs: &Vec<ExtractSpec>,
    phys: &PhysicalCols,
) -> (r: Option<usize>)
    ensures
        match r {
            Some(i) => chain_spec_index(node.view(), rti, specs@, phys.by_attno@) == Some(i as int)
                && i < specs.len(),
            None => chain_spec_index(node.view(), rti, specs@, phys.by_attno@) is None,
        },
{
    broadcast use vstd::std_specs::hash::group_hash_axioms;

    let shape = match walk_chain_shape(node) {
        Some(s) => s,
        None => {
            return None;
        },
    };
    if shape.inner_var.varno != rti {
        return None;
    }
    let column = match phys.by_attno.get(&shape.inner_var.varattno) {
        Some(c) => c,
        None => {
            return None;
        },
    };
    let ghost c = shape.view();
    let ghost p = |s: ExtractSpec| serves(s, phys.by_attno@[c.inner_var.varattno]@, c);
    let mut i: usize = 0;
    while i < specs.len()
        invariant
            i <= specs.len(),
            c == shape.view(),
            column@ == phys.by_attno@[c.inner_var.varattno]@,
            p == (|s: ExtractSpec| serves(s, phys.by_attno@[c.inner_var.varattno]@, c)),
            phys.by_attno@.contains_key(c.inner_var.varattno),
            chain_of(node.view()) == Some(c),
            c.inner_var.varno == rti,
            forall|j: int| 0 <= j < i ==> !p(#[trigger] specs@[j]),
        decreases specs.len() - i,
    {
        let s = &specs[i];
        if s.src_column == *column && same_texts(&s.path, &shape.keys) && s.target_kind
            == shape.leaf_kind {
            proof {
                lemma_first_is(specs@, p, i as int);
            }
            return Some(i);
        }
        i += 1;
    }
    proof {
        lemma_first_none(specs@, p);
    }
    None
}

/// What a query's chains can be matched against: the extractions of its
/// partitioned table, the table's columns, and its range-table index.
pub struct AggChainCtx {
    pub specs: Vec<ExtractSpec>,
    pub phys: PhysicalCols,
    pub parent_rti: i32,
    pub physical_count: i16,
}

impl AggChainCtx {
    /// Extracted columns stand behind the physical ones, and their numbers fit
    /// PostgreSQL's attribute numbers.
    pub open spec fn wf(&self) -> bool {
        &&& 0 <= self.physical_count
        &&& self.physical_count + self.specs@.len() < i16::MAX
    }

    /// Column index and type of the extracted column that serves `e`.
    pub open spec fn synthetic(&self, e: Expr) -> Option<(i32, u32)> {
        match chain_spec_index(e, self.parent_rti, self.specs@, self.phys.by_attno@) {
            Some(i) => Some(
                (
                    (self.physical_count + i) as i32,
                    oid_of_kind(self.specs@[i].target_kind),
                ),
            ),
            None => None,
        }
    }

    /// The context of a query over the partitioned table at `parent_rti`: none
    /// where nothing is extracted from it, or where a partition was compressed
    /// before the extractions were configured.
    pub fn from_parent(
        parent_rti: i32,
        specs: Vec<ExtractSpec>,
        safe: bool,
        phys: PhysicalCols,
    ) -> (r: Option<AggChainCtx>)
        requires
            phys.by_attno@.len() + specs@.len() < i16::MAX,
        ensures
            match r {
                Some(ctx) => specs@.len() > 0 && safe && ctx.specs == specs && ctx.phys == phys
                    && ctx.parent_rti == parent_rti && ctx.physical_count
                    == phys.by_attno@.len() && ctx.wf(),
                None => specs@.len() == 0 || !safe,
            },
    {
        broadcast use vstd::std_specs::hash::group_hash_axioms;

        if specs.len() == 0 || !safe {
            return None;
        }
        let physical_count: i16 = phys.by_attno.len() as i16;
        Some(AggChainCtx { specs, phys, parent_rti, physical_count })
    }

    /// Column index and type of the extracted column that holds the value of
    /// `node`, where it is a chain that one serves.
    pub fn match_to_synthetic(&self, node: &Node) -> (r: Option<(i32, u32)>)
        requires
            self.wf(),
        ensures
            r == self.synthetic(node.view()),
    {
        match match_extract_chain(node, self.parent_rti, &self.specs, &self.phys) {
            Some(i) => {
                let col_idx: i32 = self.physical_count as i32 + i as i32;
                Some((col_idx, kind_to_type_oid(self.specs[i].target_kind)))
            },
            None => None,
        }
    }
}

/// What stands at one position of a plan's target list, as the plan above sees it.
pub enum SubplanColumn {
    /// A column of the underlying relation.
    Physical { rel_var_attno: i16 },
    /// An extracted column: the value at `path` under column `src_var_attno`,
    /// read at position `forwarder_resno`.
    Synthetic {
        path: Vec<String>,
        target_kind: ColumnKind,
        src_var_attno: i16,
        forwarder_resno: i16,
    },
    Other,
}

/// The mathematical value of a `SubplanColumn`.
pub enum Column {
    Physical { attno: i16 },
    Synthetic { path: Seq<Seq<char>>, kind: ColumnKind, src: i16, resno: i16 },
    Other,
}

impl SubplanColumn {
    pub open spec fn view(&self) -> Column {
        match self {
            SubplanColumn::Physical { rel_var_attno } => Column::Physical { attno: *rel_var_attno },
            SubplanColumn::Synthetic { path, target_kind, src_var_attno, forwarder_resno } => {
                Column::Synthetic {
                    path: texts(path@),
                    kind: *target_kind,
                    src: *src_var_attno,
                    resno: *forwarder_resno,
                }
            },
            SubplanColumn::Other => Column::Other,
        }
    }

    pub fn dup(&self) -> (r: SubplanColumn)
        ensures
            r.view() == self.view(),
    {
        match self {
            SubplanColumn::Physical { rel_var_attno } => SubplanColumn::Physical {
                rel_var_attno: *rel_var_attno,
            },
            SubplanColumn::Synthetic { path, target_kind, src_var_attno, forwarder_resno } => {
                SubplanColumn::Synthetic {
                    path: dup_texts(path),
                    target_kind: *target_kind,
                    src_var_attno: *src_var_attno,
                    forwarder_resno: *forwarder_resno,
                }
            },
            SubplanColumn::Other => SubplanColumn::Other,
        }
    }
}

/// The columns of a target list.
pub open spec fn columns(v: Seq<SubplanColumn>) -> Seq<Column> {
    v.map_values(|c: SubplanColumn| c.view())
}

/// An extracted column of a scan: where it comes from and its position in the
/// scan's tuple.
pub struct SynthInfo {
    pub src_attno: i16,
    pub path: Vec<String>,
    pub kind: ColumnKind,
    pub position: i16,
}

/// The mathematical value of a `SynthInfo`.
pub struct Synth {
    pub src: i16,
    pub path: Seq<Seq<char>>,
    pub kind: ColumnKind,
    pub position: i16,
}

impl SynthInfo {
    pub open spec fn view(&self) -> Synth {
        Synth {
            src: self.src_attno,
            path: texts(self.path@),
            kind: self.kind,
            position: self.position,
        }
    }
}

/// The extracted columns of a scan.
pub open spec fn synths_of(v: Seq<SynthInfo>) -> Seq<Synth> {
    v.map_values(|s: SynthInfo| s.view())
}

/// Whether `c` is the extracted column of a chain over column `attno`.
pub open spec fn column_serves(c: Column, attno: i16, chain: Chain) -> bool {
    match c {
        Column::Synthetic { path, kind, src, resno } => src == attno && kind == chain.leaf_kind
            && path == chain.keys,
        _ => false,
    }
}

pub open spec fn synth_serves(s: Synth, chain: Chain) -> bool {
    s.src == chain.inner_var.varattno && s.kind == chain.leaf_kind && s.path == chain.keys
}

/// A reference to an extracted column.
pub open spec fn column_ref(varno: i32, attno: i16, kind: ColumnKind, collation: u32) -> Var {
    Var {
        varno,
        varattno: attno,
        vartype: oid_of_kind(kind),
        vartypmod: -1i32,
        varcollid: collation,
        varlevelsup: 0,
    }
}

/// What chains are replaced by.
pub enum Rewrite<'a> {
    /// Chains over relation `rti` of the query, by columns that stand behind
    /// the `natts` physical ones.
    Specs { rti: i32, specs: &'a Vec<ExtractSpec>, phys: &'a PhysicalCols, natts: i16 },
    /// Chains over a column of the child plan, by another column of it.
    Child(&'a Vec<SubplanColumn>),
    /// Chains over the scanned relation, by columns of the scan's tuple.
    Scan(&'a Vec<SynthInfo>),
}

/// The mathematical value of a `Rewrite`.
pub enum Rule {
    Specs { rti: i32, specs: Seq<ExtractSpec>, phys: Map<i16, String>, natts: i16 },
    Child(Seq<Column>),
    Scan(Seq<Synth>),
}

impl<'a> Rewrite<'a> {
    pub open spec fn view(&self) -> Rule {
        match self {
            Rewrite::Specs { rti, specs, phys, natts } => Rule::Specs {
                rti: *rti,
                specs: specs@,
                phys: phys.by_attno@,
                natts: *natts,
            },
            Rewrite::Child(stl) => Rule::Child(columns(stl@)),
            Rewrite::Scan(synths) => Rule::Scan(synths_of(synths@)),
        }
    }
}

impl Rule {
    pub open spec fn wf(self) -> bool {
        match self {
            Rule::Specs { rti, specs, phys, natts } => 0 <= natts && natts + specs.len()
                < i16::MAX,
            _ => true,
        }
    }

    /// What stands in place of `e`, where `e` as a whole is a chain to replace.
    pub open spec fn replacement(self, e: Expr) -> Option<Var> {
        match self {
            Rule::Specs { rti, specs, phys, natts } => match chain_spec_index(
                e,
                rti,
                specs,
                phys,
            ) {
                Some(i) => Some(
                    column_ref(
                        INDEX_VAR,
                        (natts + i + 1) as i16,
                        specs[i].target_kind,
                        INVALID_OID,
                    ),
                ),
                None => None,
            },
            Rule::Child(stl) => match chain_of(e) {
                Some(c) => {
                    let at = c.inner_var.varattno;
                    if c.inner_var.varno == OUTER_VAR && 1 <= at <= stl.len() {
                        match stl[at - 1] {
                            Column::Physical { attno } => match first_where(
                                stl,
                                |s: Column| column_serves(s, attno, c),
                            ) {
                                Some(i) => Some(
                                    column_ref(
                                        OUTER_VAR,
                                        stl[i]->resno,
                                        c.leaf_kind,
                                        collation_of_kind(c.leaf_kind),
                                    ),
                                ),
                                None => None,
                            },
                            _ => None,
                        }
                    } else {
                        None
                    }
                },
                None => None,
            },
            Rule::Scan(synths) => match chain_of(e) {
                Some(c) => if c.inner_var.varno != OUTER_VAR && c.inner_var.varno != INNER_VAR {
                    match first_where(synths, |s: Synth| synth_serves(s, c)) {
                        Some(i) => Some(
                            column_ref(
                                INDEX_VAR,
                                synths[i].position,
                                c.leaf_kind,
                                collation_of_kind(c.leaf_kind),
                            ),
                        ),
                        None => None,
                    }
                } else {
                    None
                },
                None => None,
            },
        }
    }

    /// Whether the rewriting goes on into the arguments of such a node.
    pub open spec fn enters(self, h: Head) -> bool {
        match h {
            Head::OpExpr(_)
            | Head::BoolExpr(_)
            | Head::FuncExpr(_)
            | Head::CoerceViaIO(_)
            | Head::RelabelType(_)
            | Head::NullTest
            | Head::ScalarArrayOpExpr(_) => true,
            Head::CaseExpr | Head::CaseWhen | Head::Aggref(_) => !(self is Scan),
            Head::WindowFunc | Head::TargetEntry(_) => self is Child,
            _ => false,
        }
    }

    /// Whether the rewriting goes on into the ELSE result of such a node.
    pub open spec fn enters_default(self, h: Head) -> bool {
        h is CaseExpr && !(self is Scan)
    }
}

/// `e` with every chain that the rule replaces replaced; a chain is replaced
/// as a whole, and nothing else changes.
pub open spec fn rewritten(rule: Rule, e: Expr) -> Expr
    decreases e,
{
    match rule.replacement(e) {
        Some(v) => var_expr(v),
        None => Expr {
            ident: e.ident,
            head: e.head,
            args: if rule.enters(e.head) {
                Seq::new(
                    e.args.len(),
                    |i: int|
                        if 0 <= i < e.args.len() {
                            rewritten(rule, e.args[i])
                        } else {
                            arbitrary()
                        },
                )
            } else {
                e.args
            },
            aux: match e.aux {
                Some(b) => if rule.enters_default(e.head) {
                    Some(Box::new(rewritten(rule, *b)))
                } else {
                    Some(b)
                },
                None => None,
            },
            subject: e.subject,
        },
    }
}

/// A list with each element rewritten.
pub open spec fn rewritten_list(rule: Rule, s: Seq<Expr>) -> Seq<Expr> {
    s.map_values(|e: Expr| rewritten(rule, e))
}

impl<'a> Rewrite<'a> {
    /// Replaces `node` as a whole, where it is a chain to replace.
    pub fn replace(&self, node: &Node) -> (r: Option<Var>)
        requires
            self.view().wf(),
        ensures
            r == self.view().replacement(node.view()),
    {
        match self {
            Rewrite::Specs { rti, specs, phys, natts } => {
                match match_extract_chain(node, *rti, specs, phys) {
                    Some(i) => Some(
                        Var {
                            varno: INDEX_VAR,
                            varattno: (*natts + i as i16 + 1),
                            vartype: kind_to_type_oid(specs[i].target_kind),
                            vartypmod: -1,
                            varcollid: INVALID_OID,
                            varlevelsup: 0,
                        },
                    ),
                    None => None,
                }
            },
            Rewrite::Child(stl) => match_chain_against_child_stl(node, stl),
            Rewrite::Scan(synths) => match_scan_chain_against_synths(node, synths),
        }
    }

    fn enters_args(&self, h: &Head) -> (r: bool)
        ensures
            r == self.view().enters(*h),
    {
        match h {
            Head::OpExpr(_)
            | Head::BoolExpr(_)
            | Head::FuncExpr(_)
            | Head::CoerceViaIO(_)
            | Head::RelabelType(_)
            | Head::NullTest
            | Head::ScalarArrayOpExpr(_) => true,
            Head::CaseExpr | Head::CaseWhen | Head::Aggref(_) => !matches!(self, Rewrite::Scan(_)),
            Head::WindowFunc | Head::TargetEntry(_) => matches!(self, Rewrite::Child(_)),
            _ => false,
        }
    }
}

/// A reference to the child's column that holds the value of `node`, a chain
/// over a physical column of the child.
pub fn match_chain_against_child_stl(node: &Node, child_stl: &Vec<SubplanColumn>) -> (r: Option<
    Var,
>)
    ensures
        r == Rule::Child(columns(child_stl@)).replacement(node.view()),
{
    let shape = match walk_chain_shape(node) {
        Some(s) => s,
        None => {
            return None;
        },
    };
    let ghost c = shape.view();
    let at: i16 = shape.inner_var.varattno;
    if shape.inner_var.varno != OUTER_VAR || at < 1 || at as usize > child_stl.len() {
        return None;
    }
    let attno: i16 = match &child_stl[at as usize - 1] {
        SubplanColumn::Physical { rel_var_attno } => *rel_var_attno,
        _ => {
            return None;
        },
    };
    let ghost cols = columns(child_stl@);
    let ghost p = |s: Column| column_serves(s, attno, c);
    let mut i: usize = 0;
    while i < child_stl.len()
        invariant
            i <= child_stl.len(),
            c == shape.view(),
            cols == columns(child_stl@),
            p == (|s: Column| column_serves(s, attno, c)),
            chain_of(node.view()) == Some(c),
            c.inner_var.varno == OUTER_VAR,
            at == c.inner_var.varattno,
            1 <= at <= child_stl.len(),
            cols[at - 1] == (Column::Physical { attno }),
            forall|j: int| 0 <= j < i ==> !p(#[trigger] cols[j]),
        decreases child_stl.len() - i,
    {
        match &child_stl[i] {
            SubplanColumn::Synthetic { path, target_kind, src_var_attno, forwarder_resno } => {
                if *src_var_attno == attno && *target_kind == shape.leaf_kind && same_texts(
                    path,
                    &shape.keys,
                ) {
                    proof {
                        lemma_first_is(cols, p, i as int);
                    }
                    return Some(
                        Var {
                            varno: OUTER_VAR,
                            varattno: *forwarder_resno,
                            vartype: kind_to_type_oid(*target_kind),
                            vartypmod: -1,
                            varcollid: kind_collation(*target_kind),
                            varlevelsup: 0,
                        },
                    );
                }
            },
            _ => {},
        }
        i += 1;
    }
    proof {
        lemma_first_none(cols, p);
    }
    None
}

/// A reference to the column of the scan's tuple that holds the value of
/// `node`, a chain over the scanned relation.
pub fn match_scan_chain_against_synths(node: &Node, synths: &Vec<SynthInfo>) -> (r: Option<Var>)
    ensures
        r == Rule::Scan(synths_of(synths@)).replacement(node.view()),
{
    let shape = match walk_chain_shape(node) {
        Some(s) => s,
        None => {
            return None;
        },
    };
    let ghost c = shape.view();
    if shape.inner_var.varno == OUTER_VAR || shape.inner_var.varno == INNER_VAR {
        return None;
    }
    let ghost list = synths_of(synths@);
    let ghost p = |s: Synth| synth_serves(s, c);
    let mut i: usize = 0;
    while i < synths.len()
        invariant
            i <= synths.len(),
            c == shape.view(),
            list == synths_of(synths@),
            p == (|s: Synth| synth_serves(s, c)),
            chain_of(node.view()) == Some(c),
            c.inner_var.varno != OUTER_VAR,
            c.inner_var.varno != INNER_VAR,
            forall|j: int| 0 <= j < i ==> !p(#[trigger] list[j]),
        decreases synths.len() - i,
    {
        let s = &synths[i];
        if s.src_attno == shape.inner_var.varattno && s.kind == shape.leaf_kind && same_texts(
            &s.path,
            &shape.keys,
        ) {
            proof {
                lemma_first_is(list, p, i as int);
            }
            return Some(
                Var {
                    varno: INDEX_VAR,
                    varattno: s.position,
                    vartype: kind_to_type_oid(s.kind),
                    vartypmod: -1,
                    varcollid: kind_collation(s.kind),
                    varlevelsup: 0,
                },
            );
        }
        i += 1;
    }
    proof {
        lemma_first_none(list, p);
    }
    None
}

/// Replaces the chains in an expression.
pub fn rewrite_walker(node: &Node, rule: &Rewrite) -> (r: Node)
    requires
        rule.view().wf(),
    ensures
        r.view() == rewritten(rule.view(), node.view()),
    decreases node,
{
    broadcast use group_node;

    if let Some(v) = rule.replace(node) {
        return Node::leaf(Head::Var(v));
    }
    let enters = rule.enters_args(&node.head);
    let mut args: Vec<Node> = Vec::new();
    let mut i: usize = 0;
    while i < node.args.len()
        invariant
            i <= node.args.len(),
            args.len() == i,
            rule.view().wf(),
            enters == rule.view().enters(node.head),
            forall|j: int|
                0 <= j < i ==> (#[trigger] args@[j]).view() == if enters {
                    rewritten(rule.view(), node.args@[j].view())
                } else {
                    node.args@[j].view()
                },
        decreases node.args.len() - i,
    {
        let n = if enters {
            rewrite_walker(&node.args[i], rule)
        } else {
            node.args[i].dup()
        };
        args.push(n);
        i += 1;
    }
    let into_default = matches!(node.head, Head::CaseExpr) && !matches!(rule, Rewrite::Scan(_));
    let aux = match &node.aux {
        Some(b) => if into_default {
            Some(Box::new(rewrite_walker(b, rule)))
        } else {
            Some(Box::new(b.dup()))
        },
        None => None,
    };
    let subject = match &node.subject {
        Some(b) => Some(Box::new(b.dup())),
        None => None,
    };
    let r = Node { ident: node.ident, head: node.head.dup(), args, aux, subject };
    assert forall|j: int| 0 <= j < r.view().args.len() implies #[trigger] r.view().args[j]
        == rewritten(rule.view(), node.view()).args[j] by {
        assert(args@[j].view() == if enters {
            rewritten(rule.view(), node.args@[j].view())
        } else {
            node.args@[j].view()
        });
    }
    assert(r.view().args =~= rewritten(rule.view(), node.view()).args);
    r
}

/// Replaces the chains in each expression of a list.
pub fn rewrite_list(list: &Vec<Node>, rule: &Rewrite) -> (r: Vec<Node>)
    requires
        rule.view().wf(),
    ensures
        exprs(r@) == rewritten_list(rule.view(), exprs(list@)),
{
    broadcast use group_node;

    let mut out: Vec<Node> = Vec::new();
    let mut i: usize = 0;
    while i < list.len()
        invariant
            i <= list.len(),
            out.len() == i,
            rule.view().wf(),
            forall|j: int|
                0 <= j < i ==> (#[trigger] out@[j]).view() == rewritten(rule.view(), list@[j].view()),
        decreases list.len() - i,
    {
        let n = rewrite_walker(&list[i], rule);
        out.push(n);
        i += 1;
    }
    assert(exprs(out@) =~= rewritten_list(rule.view(), exprs(list@)));
    out
}

/// Replaces the chains over relation `rti` in a list of expressions by
/// references to the scan's extracted columns.
pub fn rewrite_chains_in_list(
    list: &Vec<Node>,
    rti: i32,
    specs: &Vec<ExtractSpec>,
    phys: &PhysicalCols,
    physical_natts: i16,
) -> (r: Vec<Node>)
    requires
        0 <= physical_natts,
        physical_natts + specs@.len() < i16::MAX,
    ensures
        exprs(r@) == rewritten_list(
            Rule::Specs { rti, specs: specs@, phys: phys.by_attno@, natts: physical_natts },
            exprs(list@),
        ),
{
    rewrite_list(list, &Rewrite::Specs { rti, specs, phys, natts: physical_natts })
}

/// What tells one chain from another, the column apart: its keys and its type.
pub struct ChainSig {
    pub path: Vec<String>,
    pub kind: ColumnKind,
}

/// Whether a signature is among `sigs`.
pub open spec fn listed(sigs: Seq<ChainSig>, path: Seq<Seq<char>>, kind: ColumnKind) -> bool {
    exists|i: int| 0 <= i < sigs.len() && #[trigger] texts(sigs[i].path@) == path && sigs[i].kind == kind
}

/// Whether `e` as a whole is a chain of the given signature.
pub open spec fn is_sig(e: Expr, path: Seq<Seq<char>>, kind: ColumnKind) -> bool {
    match chain_of(e) {
        Some(c) => c.keys == path && c.leaf_kind == kind,
        None => false,
    }
}

/// Whether the search for chains goes on into such a node.
pub open spec fn searched(h: Head) -> bool {
    match h {
        Head::Null | Head::Var(_) | Head::Const(_) | Head::List | Head::Other => false,
        _ => true,
    }
}

/// Whether a chain of the given signature occurs anywhere in `e`.
pub open spec fn mentions(e: Expr, path: Seq<Seq<char>>, kind: ColumnKind) -> bool
    decreases e,
{
    ||| is_sig(e, path, kind)
    ||| searched(e.head) && {
        ||| exists|i: int| 0 <= i < e.args.len() && mentions(#[trigger] e.args[i], path, kind)
        ||| match e.aux {
            Some(b) => mentions(*b, path, kind),
            None => false,
        }
        ||| match e.subject {
            Some(b) => mentions(*b, path, kind),
            None => false,
        }
    }
}

/// Whether a chain of the given signature occurs in an expression of the list.
pub open spec fn list_mentions(s: Seq<Expr>, path: Seq<Seq<char>>, kind: ColumnKind) -> bool {
    exists|i: int| 0 <= i < s.len() && #[trigger] mentions(s[i], path, kind)
}

/// Where a chain occurs: it is the whole, or it occurs in a part.
proof fn lemma_mentions(e: Expr, path: Seq<Seq<char>>, kind: ColumnKind)
    ensures
        mentions(e, path, kind) == (is_sig(e, path, kind) || (searched(e.head) && (list_mentions(
            e.args,
            path,
            kind,
        ) || (e.aux matches Some(b) && mentions(*b, path, kind)) || (e.subject matches Some(b)
            && mentions(*b, path, kind))))),
{
    if mentions(e, path, kind) && !is_sig(e, path, kind) && !(e.aux matches Some(b) && mentions(
        *b,
        path,
        kind,
    )) && !(e.subject matches Some(b) && mentions(*b, path, kind)) {
        let i = choose|i: int| 0 <= i < e.args.len() && mentions(#[trigger] e.args[i], path, kind);
        assert(mentions(e.args[i], path, kind));
    }
    if list_mentions(e.args, path, kind) {
        let i = choose|i: int| 0 <= i < e.args.len() && #[trigger] mentions(e.args[i], path, kind);
        assert(mentions(e.args[i], path, kind));
    }
}

/// Whether `(path, kind)` is among the signatures.
pub fn has_signature(sigs: &Vec<ChainSig>, path: &Vec<String>, kind: ColumnKind) -> (r: bool)
    ensures
        r == listed(sigs@, texts(path@), kind),
{
    let mut i: usize = 0;
    while i < sigs.len()
        invariant
            i <= sigs.len(),
            forall|j: int|
                0 <= j < i ==> !(#[trigger] texts(sigs@[j].path@) == texts(path@) && sigs@[j].kind
                    == kind),
        decreases sigs.len() - i,
    {
        if same_texts(&sigs[i].path, path) && sigs[i].kind == kind {
            assert(texts(sigs@[i as int].path@) == texts(path@));
            return true;
        }
        i += 1;
    }
    false
}

/// Adds a signature to a list, unless it is there.
fn add_signature(sigs: &mut Vec<ChainSig>, path: Vec<String>, kind: ColumnKind)
    ensures
        forall|p: Seq<Seq<char>>, k: ColumnKind| #[trigger]
            listed(final(sigs)@, p, k) <==> listed(old(sigs)@, p, k) || (p == texts(path@) && k
                == kind),
{
    if !has_signature(sigs, &path, kind) {
        let ghost before = sigs@;
        let sig = ChainSig { path, kind };
        sigs.push(sig);
        assert forall|p: Seq<Seq<char>>, k: ColumnKind| #[trigger]
            listed(sigs@, p, k) <==> listed(before, p, k) || (p == texts(path@) && k == kind) by {
            if listed(before, p, k) {
                let i = choose|i: int|
                    0 <= i < before.len() && #[trigger] texts(before[i].path@) == p
                        && before[i].kind == k;
                assert(texts(sigs@[i].path@) == p);
            }
            assert(sigs@[before.len() as int] == sig);
            assert(texts(sigs@[before.len() as int].path@) == texts(path@));
            if listed(sigs@, p, k) {
                let i = choose|i: int|
                    0 <= i < sigs@.len() && #[trigger] texts(sigs@[i].path@) == p && sigs@[i].kind
                        == k;
                if i < before.len() {
                    assert(texts(before[i].path@) == p);
                }
            }
        }
    }
}

/// Adds the signatures of all chains in `node` to `out`.
pub fn collect_chain_signatures_in_node(node: &Node, out: &mut Vec<ChainSig>)
    ensures
        forall|p: Seq<Seq<char>>, k: ColumnKind| #[trigger]
            listed(final(out)@, p, k) <==> listed(old(out)@, p, k) || mentions(node.view(), p, k),
    decreases node,
{
    broadcast use group_node;

    let ghost e = node.view();
    if let Some(shape) = walk_chain_shape(node) {
        add_signature(out, shape.keys, shape.leaf_kind);
    }
    let ghost base = out@;
    assert(forall|p: Seq<Seq<char>>, k: ColumnKind| #[trigger]
        listed(base, p, k) <==> listed(old(out)@, p, k) || is_sig(e, p, k));
    match &node.head {
        Head::Null | Head::Var(_) | Head::Const(_) | Head::List | Head::Other => {
            return ;
        },
        _ => {},
    }
    let mut i: usize = 0;
    while i < node.args.len()
        invariant
            i <= node.args.len(),
            forall|p: Seq<Seq<char>>, k: ColumnKind| #[trigger]
                listed(out@, p, k) <==> listed(base, p, k) || exists|j: int|
                    0 <= j < i && #[trigger] mentions(node.args@[j].view(), p, k),
        decreases node.args.len() - i,
    {
        let ghost prior = out@;
        collect_chain_signatures_in_node(&node.args[i], out);
        i += 1;
        assert forall|p: Seq<Seq<char>>, k: ColumnKind| #[trigger]
            listed(out@, p, k) <==> listed(base, p, k) || exists|j: int|
                0 <= j < i && #[trigger] mentions(node.args@[j].view(), p, k) by {
            assert(listed(out@, p, k) <==> listed(prior, p, k) || mentions(
                node.args@[i - 1].view(),
                p,
                k,
            ));
        }
    }
    let ghost with_args = out@;
    assert(searched(e.head));
    if let Some(b) = &node.aux {
        collect_chain_signatures_in_node(b, out);
    }
    let ghost with_aux = out@;
    if let Some(b) = &node.subject {
        collect_chain_signatures_in_node(b, out);
    }
    assert forall|p: Seq<Seq<char>>, k: ColumnKind| #[trigger]
        listed(out@, p, k) <==> listed(old(out)@, p, k) || mentions(e, p, k) by {
        assert(listed(base, p, k) <==> listed(old(out)@, p, k) || is_sig(e, p, k));
        assert(listed(with_args, p, k) <==> listed(base, p, k) || exists|j: int|
            0 <= j < node.args@.len() && #[trigger] mentions(node.args@[j].view(), p, k));
        assert(listed(with_aux, p, k) <==> listed(with_args, p, k) || (node.aux matches Some(b)
            && mentions(b.view(), p, k)));
        assert(listed(out@, p, k) <==> listed(with_aux, p, k) || (node.subject matches Some(b)
            && mentions(b.view(), p, k)));
        assert((exists|j: int|
            0 <= j < node.args@.len() && #[trigger] mentions(node.args@[j].view(), p, k)) <==> (
        exists|j: int| 0 <= j < e.args.len() && #[trigger] mentions(e.args[j], p, k))) by {
            if exists|j: int|
                0 <= j < node.args@.len() && #[trigger] mentions(node.args@[j].view(), p, k) {
                let j = choose|j: int|
                    0 <= j < node.args@.len() && #[trigger] mentions(node.args@[j].view(), p, k);
                assert(mentions(e.args[j], p, k));
            }
            if exists|j: int| 0 <= j < e.args.len() && #[trigger] mentions(e.args[j], p, k) {
                let j = choose|j: int|
                    0 <= j < e.args.len() && #[trigger] mentions(e.args[j], p, k);
                assert(mentions(node.args@[j].view(), p, k));
            }
        }
        lemma_mentions(e, p, k);
    }
}

/// Adds the signatures of all chains in a list of expressions to `out`.
pub fn collect_chain_signatures_in_list(list: &Vec<Node>, out: &mut Vec<ChainSig>)
    ensures
        forall|p: Seq<Seq<char>>, k: ColumnKind| #[trigger]
            listed(final(out)@, p, k) <==> listed(old(out)@, p, k) || list_mentions(
                exprs(list@),
                p,
                k,
            ),
{
    broadcast use group_node;

    let ghost base = out@;
    let mut i: usize = 0;
    while i < list.len()
        invariant
            i <= list.len(),
            forall|p: Seq<Seq<char>>, k: ColumnKind| #[trigger]
                listed(out@, p, k) <==> listed(base, p, k) || exists|j: int|
                    0 <= j < i && #[trigger] mentions(exprs(list@)[j], p, k),
        decreases list.len() - i,
    {
        let ghost prior = out@;
        collect_chain_signatures_in_node(&list[i], out);
        i += 1;
        assert forall|p: Seq<Seq<char>>, k: ColumnKind| #[trigger]
            listed(out@, p, k) <==> listed(base, p, k) || exists|j: int|
                0 <= j < i && #[trigger] mentions(exprs(list@)[j], p, k) by {
            assert(listed(out@, p, k) <==> listed(prior, p, k) || mentions(
                exprs(list@)[i - 1],
                p,
                k,
            ));
        }
    }
}

/// A column of a relation.
pub struct Attribute {
    pub attnum: i16,
    pub name: String,
    pub atttypid: u32,
    pub atttypmod: i32,
    pub attcollation: u32,
    pub dropped: bool,
}

/// An entry of a target list.
pub struct TargetEntry {
    pub expr: Node,
    pub resno: i16,
    pub resname: Option<String>,
    pub resjunk: bool,
}

/// The mathematical value of a `TargetEntry`.
pub struct Target {
    pub expr: Expr,
    pub resno: i16,
    pub resname: Option<Seq<char>>,
    pub resjunk: bool,
}

impl TargetEntry {
    pub open spec fn view(&self) -> Target {
        Target {
            expr: self.expr.view(),
            resno: self.resno,
            resname: opt_text(self.resname),
            resjunk: self.resjunk,
        }
    }

    pub fn dup(&self) -> (r: TargetEntry)
        ensures
            r.view() == self.view(),
    {
        TargetEntry {
            expr: self.expr.dup(),
            resno: self.resno,
            resname: dup_opt_text(&self.resname),
            resjunk: self.resjunk,
        }
    }
}

/// The entries of a target list.
pub open spec fn targets(v: Seq<TargetEntry>) -> Seq<Target> {
    v.map_values(|t: TargetEntry| t.view())
}

/// A text constant.
pub open spec fn text_const(key: String) -> Expr {
    leaf(
        Head::Const(
            Const {
                consttype: TEXTOID,
                constisnull: false,
                word: 0,
                payload: Payload::Text(key),
            },
        ),
    )
}

/// The operator of one step of a chain.
pub open spec fn step_op(last: bool) -> OpInfo {
    OpInfo {
        opno: if last {
            JSONB_OBJECT_FIELD_TEXT_OPNO
        } else {
            JSONB_OBJECT_FIELD_OPNO
        },
        name: OpName::Other,
        oprleft: JSONBOID,
        oprright: TEXTOID,
        oprresult: if last {
            TEXTOID
        } else {
            JSONBOID
        },
        opfuncid: if last {
            JSONB_OBJECT_FIELD_TEXT_FUNC
        } else {
            JSONB_OBJECT_FIELD_FUNC
        },
        opresulttype: if last {
            TEXTOID
        } else {
            JSONBOID
        },
        opcollid: if last {
            DEFAULT_COLLATION_OID
        } else {
            INVALID_OID
        },
        inputcollid: DEFAULT_COLLATION_OID,
    }
}

/// `inner -> key`, or `inner ->> key` for the last step.
pub open spec fn step_expr(inner: Expr, key: String, last: bool) -> Expr {
    Expr {
        ident: 0,
        head: Head::OpExpr(step_op(last)),
        args: seq![inner, text_const(key)],
        aux: None,
        subject: None,
    }
}

/// `root` with the first `n` keys of `path` applied; the path's last key by `->>`.
pub open spec fn path_expr(root: Expr, path: Seq<String>, n: int) -> Expr
    decreases n,
{
    if n <= 0 {
        root
    } else {
        step_expr(path_expr(root, path, n - 1), path[n - 1], n == path.len())
    }
}

/// The chain that an extraction stands for, over its source column `v`.
pub open spec fn spec_chain(spec: ExtractSpec, v: Var) -> Expr {
    let chain = path_expr(var_expr(v), spec.path@, spec.path@.len() as int);
    if spec.target_kind == ColumnKind::Text {
        chain
    } else {
        Expr {
            ident: 0,
            head: Head::CoerceViaIO(
                CastInfo {
                    resulttype: oid_of_kind(spec.target_kind),
                    resultcollid: INVALID_OID,
                },
            ),
            args: seq![chain],
            aux: None,
            subject: None,
        }
    }
}

/// The column that an extraction reads: the first live one of that name.
pub open spec fn source_column(spec: ExtractSpec, atts: Seq<Attribute>) -> Option<int> {
    first_where(atts, |a: Attribute| !a.dropped && a.name@ == spec.src_column@)
}

/// A reference to a column of relation `rti`.
pub open spec fn source_var(rti: i32, a: Attribute) -> Var {
    Var {
        varno: rti,
        varattno: a.attnum,
        vartype: a.atttypid,
        vartypmod: -1i32,
        varcollid: a.attcollation,
        varlevelsup: 0,
    }
}

/// The chain of an extraction over relation `rti`; none where the relation has
/// no `jsonb` column of that name.
pub open spec fn chain_expr_for(rti: i32, spec: ExtractSpec, atts: Seq<Attribute>) -> Option<Expr> {
    match source_column(spec, atts) {
        Some(i) => if atts[i].attnum != 0 && atts[i].atttypid == JSONBOID {
            Some(spec_chain(spec, source_var(rti, atts[i])))
        } else {
            None
        },
        None => None,
    }
}

/// The steps of a chain that was built from a path are the path.
proof fn lemma_path_steps(v: Var, path: Seq<String>, n: int)
    requires
        0 <= n < path.len(),
    ensures
        object_steps(path_expr(var_expr(v), path, n)) == (texts(path.subrange(0, n)), var_expr(v)),
        unrelabel(path_expr(var_expr(v), path, n)) == path_expr(var_expr(v), path, n),
        !is_null(path_expr(var_expr(v), path, n)),
    decreases n,
{
    if n == 0 {
        assert(texts(path.subrange(0, 0)) =~= Seq::<Seq<char>>::empty());
    } else {
        lemma_path_steps(v, path, n - 1);
        let inner = path_expr(var_expr(v), path, n - 1);
        let e = path_expr(var_expr(v), path, n);
        assert(e == step_expr(inner, path[n - 1], false));
        assert(op_step(e, JSONB_OBJECT_FIELD_OPNO) == Some((path[n - 1]@, inner)));
        assert(texts(path.subrange(0, n)) =~= texts(path.subrange(0, n - 1)).push(path[n - 1]@));
    }
}

/// The chain that is published for an extraction is recognised as a chain of
/// the extraction's path and kind over the extraction's source column.
pub proof fn lemma_spec_chain_recognised(spec: ExtractSpec, v: Var)
    requires
        spec.path@.len() > 0,
    ensures
        chain_of(spec_chain(spec, v)) == Some(
            Chain { keys: texts(spec.path@), leaf_kind: spec.target_kind, inner_var: v },
        ),
{
    let path = spec.path@;
    let n = path.len() as int;
    let chain = path_expr(var_expr(v), path, n);
    let inner = path_expr(var_expr(v), path, n - 1);
    lemma_path_steps(v, path, n - 1);
    assert(chain == step_expr(inner, path[n - 1], true));
    assert(op_step(chain, JSONB_OBJECT_FIELD_TEXT_OPNO) == Some((path[n - 1]@, inner)));
    assert(texts(path.subrange(0, n - 1)).push(path[n - 1]@) =~= texts(path));
    lemma_kind_oid_round_trip(spec.target_kind);
    if spec.target_kind == ColumnKind::Text {
        assert(uncast(chain, None) == (chain, None::<ColumnKind>));
    } else {
        let e = spec_chain(spec, v);
        assert(e.args[0] == chain);
        assert(uncast(chain, Some(spec.target_kind)) == (chain, Some(spec.target_kind)));
        assert(uncast(e, None) == (chain, Some(spec.target_kind)));
    }
}

/// The published chain of an extraction is replaced by the column of the
/// first extraction with the same source column, path and kind.
pub proof fn lemma_published_chain_is_served(
    specs: Seq<ExtractSpec>,
    phys: Map<i16, String>,
    natts: i16,
    i: int,
    v: Var,
)
    requires
        0 <= i < specs.len(),
        specs[i].path@.len() > 0,
        phys.contains_key(v.varattno),
        phys[v.varattno]@ == specs[i].src_column@,
    ensures
        ({
            let e = spec_chain(specs[i], v);
            &&& chain_spec_index(e, v.varno, specs, phys) matches Some(j) && {
                &&& 0 <= j <= i
                &&& specs[j].src_column@ == specs[i].src_column@
                &&& texts(specs[j].path@) == texts(specs[i].path@)
                &&& specs[j].target_kind == specs[i].target_kind
                &&& rewritten(Rule::Specs { rti: v.varno, specs, phys, natts }, e) == var_expr(
                    column_ref(
                        INDEX_VAR,
                        (natts + j + 1) as i16,
                        specs[i].target_kind,
                        INVALID_OID,
                    ),
                )
            }
        }),
{
    lemma_spec_chain_recognised(specs[i], v);
    let c = Chain {
        keys: texts(specs[i].path@),
        leaf_kind: specs[i].target_kind,
        inner_var: v,
    };
    let p = |s: ExtractSpec| serves(s, phys[c.inner_var.varattno]@, c);
    lemma_first_where(specs, p);
    assert(p(specs[i]));
}

/// Builds the chain of an extraction over relation `rti`.
pub fn build_chain_expr_for_spec(rti: i32, spec: &ExtractSpec, atts: &Vec<Attribute>) -> (r: Option<
    Node,
>)
    requires
        spec.path@.len() > 0,
    ensures
        match r {
            Some(n) => chain_expr_for(rti, *spec, atts@) == Some(n.view()),
            None => chain_expr_for(rti, *spec, atts@) is None,
        },
{
    broadcast use group_node;

    let ghost p = |a: Attribute| !a.dropped && a.name@ == spec.src_column@;
    let mut i: usize = 0;
    while i < atts.len() && (atts[i].dropped || atts[i].name != spec.src_column)
        invariant
            i <= atts.len(),
            p == (|a: Attribute| !a.dropped && a.name@ == spec.src_column@),
            forall|j: int| 0 <= j < i ==> !p(#[trigger] atts@[j]),
        decreases atts.len() - i,
    {
        i += 1;
    }
    if i == atts.len() {
        proof {
            lemma_first_none(atts@, p);
        }
        return None;
    }
    proof {
        lemma_first_is(atts@, p, i as int);
    }
    if atts[i].attnum == 0 || atts[i].atttypid != JSONBOID {
        return None;
    }
    let v = Var {
        varno: rti,
        varattno: atts[i].attnum,
        vartype: atts[i].atttypid,
        vartypmod: -1,
        varcollid: atts[i].attcollation,
        varlevelsup: 0,
    };
    let mut node = Node::leaf(Head::Var(v));
    let mut k: usize = 0;
    while k < spec.path.len()
        invariant
            k <= spec.path.len(),
            node.view() == path_expr(var_expr(v), spec.path@, k as int),
        decreases spec.path.len() - k,
    {
        node = make_step(node, &spec.path[k], k == spec.path.len() - 1);
        k += 1;
    }
    if spec.target_kind == ColumnKind::Text {
        Some(node)
    } else {
        let cast = CastInfo {
            resulttype: kind_to_type_oid(spec.target_kind),
            resultcollid: INVALID_OID,
        };
        let ghost inner = node.view();
        let mut args: Vec<Node> = Vec::new();
        args.push(node);
        let r = Node { ident: 0, head: Head::CoerceViaIO(cast), args, aux: None, subject: None };
        assert(r.view().args =~= seq![inner]);
        Some(r)
    }
}

/// One step of a chain.
fn make_step(inner: Node, key: &String, last: bool) -> (r: Node)
    ensures
        r.view() == step_expr(inner.view(), *key, last),
{
    broadcast use group_node;

    let op = OpInfo {
        opno: if last {
            JSONB_OBJECT_FIELD_TEXT_OPNO
        } else {
            JSONB_OBJECT_FIELD_OPNO
        },
        name: OpName::Other,
        oprleft: JSONBOID,
        oprright: TEXTOID,
        oprresult: if last {
            TEXTOID
        } else {
            JSONBOID
        },
        opfuncid: if last {
            JSONB_OBJECT_FIELD_TEXT_FUNC
        } else {
            JSONB_OBJECT_FIELD_FUNC
        },
        opresulttype: if last {
            TEXTOID
        } else {
            JSONBOID
        },
        opcollid: if last {
            DEFAULT_COLLATION_OID
        } else {
            INVALID_OID
        },
        inputcollid: DEFAULT_COLLATION_OID,
    };
    let key_const = Node::leaf(
        Head::Const(
            Const {
                consttype: TEXTOID,
                constisnull: false,
                word: 0,
                payload: Payload::Text(key.clone()),
            },
        ),
    );
    let mut args: Vec<Node> = Vec::new();
    args.push(inner);
    args.push(key_const);
    let r = Node { ident: 0, head: Head::OpExpr(op), args, aux: None, subject: None };
    assert(r.view().args =~= seq![inner.view(), text_const(*key)]);
    r
}

} // verus!

use pg_deltax::pg_types::{
    BOOLOID, BPCHAROID, BYTEAOID, DATEOID, FLOAT4OID, FLOAT8OID, INT2OID, INT4OID, INT8OID,
    JSONBOID, NUMERICOID, TEXTOID, TIMESTAMPOID, TIMESTAMPTZOID, VARCHAROID,
};
use pg_deltax::scan::agg_types::{CaseWhenOp, CaseWhenValue};
use pg_deltax::scan::catalog::{ColumnInfo, QueryRels, Relation};
use pg_deltax::scan::exprs::{
    collect_aggrefs_in_expr, expr_only_uses_aggrefs_and_consts, parse_case_expr,
    parse_single_condition, strip_monotonic_topn_wrappers, try_match_derived_minmax_topn,
};
use pg_deltax::scan::json_extract::{
    build_chain_expr_for_spec, collect_chain_signatures_in_node, has_signature, kind_to_type_oid,
    match_chain_against_child_stl, match_extract_chain, rewrite_chains_in_list, type_oid_to_kind,
    walk_chain_shape, AggChainCtx, Attribute, ChainSig, ColumnKind, ExtractSpec, PhysicalCols,
    SubplanColumn, TargetEntry, JSONB_OBJECT_FIELD_OPNO, JSONB_OBJECT_FIELD_TEXT_OPNO,
};
use pg_deltax::scan::json_plan::{
    collect_chain_signatures_in_plan, rewrite_plan_tree, Plan, PlanKind, RelInfo, ScanName,
};
use pg_deltax::scan::json_tlist::{
    build_custom_scan_tlist, has_any_synthetic, intersect_subplan_tlists,
    subplan_columns_equivalent,
};
use pg_deltax::scan::node::{
    AggInfo, BoolOp, CastInfo, Const, FuncInfo, FuncName, Head, Node, OpInfo, OpName, Payload, Var,
    INDEX_VAR, OUTER_VAR,
};
use pg_deltax::scan::pushdown::{
    all_pushable, date_trunc_unit_usecs, is_extract_unit, is_pushable, parse_group_by,
};
use pg_deltax::scan::quals::{extract_query_quals, has_where_clause, make_ands_implicit};
use pg_deltax::scan::time_bounds::{
    classify_meta_quals, is_minmax_meta_type, partitions_contain_time_range, TimeBounds,
};

fn node(head: Head, args: Vec<Node>) -> Node {
    Node { ident: 0, head, args, aux: None, subject: None }
}

fn var(varno: i32, attno: i16, vartype: u32) -> Var {
    Var { varno, varattno: attno, vartype, vartypmod: -1, varcollid: 0, varlevelsup: 0 }
}

fn column(attno: i16, vartype: u32) -> Node {
    Node::leaf(Head::Var(var(1, attno, vartype)))
}

fn constant(consttype: u32, word: i64) -> Node {
    Node::leaf(Head::Const(Const { consttype, constisnull: false, word, payload: Payload::Plain }))
}

fn func(name: FuncName, args: Vec<Node>) -> Node {
    node(Head::FuncExpr(FuncInfo { funcid: 1, name, inputcollid: 0 }), args)
}

fn text_const(s: &str) -> Node {
    Node::leaf(Head::Const(Const {
        consttype: TEXTOID,
        constisnull: false,
        word: 0,
        payload: Payload::Text(s.to_string()),
    }))
}

fn null_const() -> Node {
    Node::leaf(Head::Const(Const {
        consttype: INT4OID,
        constisnull: true,
        word: 0,
        payload: Payload::Plain,
    }))
}

fn op_info(opno: u32, name: OpName, result: u32) -> OpInfo {
    OpInfo {
        opno,
        name,
        oprleft: 0,
        oprright: 0,
        oprresult: result,
        opfuncid: 0,
        opresulttype: result,
        opcollid: 0,
        inputcollid: 0,
    }
}

fn op(name: OpName, left: Node, right: Node) -> Node {
    node(Head::OpExpr(op_info(0, name, BOOLOID)), vec![left, right])
}

fn cast(resulttype: u32, arg: Node) -> Node {
    node(Head::CoerceViaIO(CastInfo { resulttype, resultcollid: 0 }), vec![arg])
}

fn relabel(arg: Node) -> Node {
    node(Head::RelabelType(CastInfo { resulttype: TEXTOID, resultcollid: 0 }), vec![arg])
}

fn aggref(ident: u64, name: FuncName, aggtype: u32, arg: Option<Node>) -> Node {
    let info = AggInfo {
        aggfnoid: 100 + ident as u32,
        name,
        aggtype,
        typlen: 8,
        typbyval: true,
        aggstar: arg.is_none(),
        distinct: false,
    };
    let args = match arg {
        Some(a) => vec![node(Head::TargetEntry(1), vec![a])],
        None => vec![],
    };
    Node { ident, head: Head::Aggref(info), args, aux: None, subject: None }
}

fn make_jsonb_var() -> Node {
    column(1, JSONBOID)
}

fn make_op_expr(left: Node, key: &str, opno: u32, result: u32) -> Node {
    node(Head::OpExpr(op_info(opno, OpName::Other, result)), vec![left, text_const(key)])
}

fn arrow(left: Node, key: &str) -> Node {
    make_op_expr(left, key, JSONB_OBJECT_FIELD_OPNO, JSONBOID)
}

fn text_arrow(left: Node, key: &str) -> Node {
    make_op_expr(left, key, JSONB_OBJECT_FIELD_TEXT_OPNO, TEXTOID)
}

fn var_of(n: &Node) -> Var {
    match &n.head {
        Head::Var(v) => *v,
        other => panic!("no column: {:?}", other),
    }
}

// ---------------------------------------------------------------------------
// Time bounds
// ---------------------------------------------------------------------------

#[test]
fn time_bounds_default_is_unbounded() {
    let b = TimeBounds::default();
    assert_eq!(b.lo, None);
    assert_eq!(b.hi, None);
    assert!(!b.any());
}

#[test]
fn time_bounds_narrow_lo_keeps_max() {
    let mut b = TimeBounds::default();
    b.narrow_lo(100);
    assert_eq!(b.lo, Some(100));
    // narrower (higher) lo wins
    b.narrow_lo(200);
    assert_eq!(b.lo, Some(200));
    // wider (lower) lo is ignored
    b.narrow_lo(50);
    assert_eq!(b.lo, Some(200));
    assert!(b.any());
}

#[test]
fn time_bounds_narrow_hi_keeps_min() {
    let mut b = TimeBounds::default();
    b.narrow_hi(1000);
    assert_eq!(b.hi, Some(1000));
    // narrower (lower) hi wins
    b.narrow_hi(500);
    assert_eq!(b.hi, Some(500));
    // wider (higher) hi is ignored
    b.narrow_hi(800);
    assert_eq!(b.hi, Some(500));
    assert!(b.any());
}

#[test]
fn time_bounds_combined_any() {
    let mut b = TimeBounds::default();
    assert!(!b.any());
    b.narrow_lo(0);
    assert!(b.any());
    b.narrow_hi(100);
    assert!(b.any());
    assert_eq!(b.lo, Some(0));
    assert_eq!(b.hi, Some(100));
}

#[test]
fn is_minmax_meta_type_accepts_integer_float_date_timestamp() {
    for oid in [
        INT2OID,
        INT4OID,
        INT8OID,
        FLOAT4OID,
        FLOAT8OID,
        DATEOID,
        TIMESTAMPOID,
        TIMESTAMPTZOID,
    ] {
        assert!(is_minmax_meta_type(oid), "expected oid {:?} to be meta-min/max-able", oid);
    }
}

#[test]
fn is_minmax_meta_type_rejects_text_bool_jsonb_numeric() {
    for oid in [TEXTOID, VARCHAROID, BPCHAROID, JSONBOID, BOOLOID, BYTEAOID, NUMERICOID] {
        assert!(!is_minmax_meta_type(oid), "expected oid {:?} to NOT be meta-min/max-able", oid);
    }
}

fn events() -> Relation {
    let col = |name: &str, type_oid: u32| ColumnInfo { name: Some(name.to_string()), type_oid };
    Relation {
        relid: 500,
        columns: vec![
            col("ts", TIMESTAMPTZOID),
            col("device", INT4OID),
            col("kind", TEXTOID),
            col("value", INT8OID),
        ],
    }
}

fn time_bounds(quals: Vec<Node>) -> Option<TimeBounds> {
    classify_meta_quals(&quals, &events(), "ts", &vec!["device".to_string()])
}

#[test]
fn conditions_that_metadata_answers() {
    let at = |t: i64| constant(TIMESTAMPTZOID, t);
    let ts = || column(1, TIMESTAMPTZOID);
    let b = time_bounds(vec![op(OpName::Ge, ts(), at(10)), op(OpName::Lt, ts(), at(20))]).unwrap();
    assert_eq!((b.lo, b.hi), (Some(10), Some(20)));
    let b = time_bounds(vec![op(OpName::Gt, ts(), at(10)), op(OpName::Le, ts(), at(20))]).unwrap();
    assert_eq!((b.lo, b.hi), (Some(11), Some(21)));
    // With the constant on the left.
    let b = time_bounds(vec![op(OpName::Gt, at(20), ts())]).unwrap();
    assert_eq!((b.lo, b.hi), (None, Some(20)));
    let both = node(
        Head::BoolExpr(BoolOp::And),
        vec![op(OpName::Ge, ts(), at(1)), op(OpName::Eq, column(2, INT4OID), constant(INT4OID, 7))],
    );
    let b = time_bounds(vec![both]).unwrap();
    assert_eq!((b.lo, b.hi), (Some(1), None));
    let b = time_bounds(vec![op(OpName::Gt, ts(), at(i64::MAX))]).unwrap();
    assert_eq!(b.lo, Some(i64::MAX));
}

#[test]
fn conditions_that_metadata_does_not_answer() {
    let ts = || column(1, TIMESTAMPTZOID);
    let at = |t: i64| constant(TIMESTAMPTZOID, t);
    assert!(time_bounds(vec![op(OpName::Eq, ts(), at(10))]).is_none());
    assert!(time_bounds(vec![op(OpName::Gt, column(2, INT4OID), constant(INT4OID, 7))]).is_none());
    assert!(time_bounds(vec![op(OpName::Eq, column(4, INT8OID), constant(INT8OID, 7))]).is_none());
    assert!(time_bounds(vec![op(OpName::Ge, ts(), null_const())]).is_none());
    let either = node(
        Head::BoolExpr(BoolOp::Or),
        vec![op(OpName::Ge, ts(), at(1)), op(OpName::Ge, ts(), at(2))],
    );
    assert!(time_bounds(vec![either]).is_none());
}

#[test]
fn partitions_inside_the_bounds() {
    let b = TimeBounds { lo: Some(10), hi: Some(30) };
    assert!(partitions_contain_time_range(&b, 2, &Some(vec![(10, 20), (20, 29)])));
    assert!(!partitions_contain_time_range(&b, 2, &Some(vec![(9, 20), (20, 29)])));
    assert!(!partitions_contain_time_range(&b, 3, &Some(vec![(10, 20), (20, 29)])));
    assert!(!partitions_contain_time_range(&b, 2, &None));
    let all = TimeBounds { lo: None, hi: None };
    assert!(partitions_contain_time_range(&all, 2, &None));
}

// ---------------------------------------------------------------------------
// Extraction chains
// ---------------------------------------------------------------------------

#[test]
fn kind_to_type_oid_round_trip() {
    for kind in [
        ColumnKind::Text,
        ColumnKind::Int16,
        ColumnKind::Int32,
        ColumnKind::Int64,
        ColumnKind::Float32,
        ColumnKind::Float64,
        ColumnKind::Bool,
        ColumnKind::Timestamp,
        ColumnKind::TimestampTz,
        ColumnKind::Date,
        ColumnKind::Jsonb,
    ] {
        let oid = kind_to_type_oid(kind);
        let back = type_oid_to_kind(oid).expect("recognized");
        assert_eq!(back, kind, "round trip failed for {:?}", kind);
    }
}

#[test]
fn walk_chain_shape_simple_extract() {
    let expr = text_arrow(make_jsonb_var(), "kind");
    let shape = walk_chain_shape(&expr).expect("recognized");
    assert_eq!(shape.keys, vec!["kind".to_string()]);
    assert_eq!(shape.leaf_kind, ColumnKind::Text);
    assert_eq!(shape.inner_var.varattno, 1);
}

#[test]
fn walk_chain_shape_nested_path() {
    // `((var -> 'a') -> 'b') ->> 'c'`
    let step_c = text_arrow(arrow(arrow(make_jsonb_var(), "a"), "b"), "c");
    let shape = walk_chain_shape(&step_c).expect("recognized");
    assert_eq!(shape.keys, vec!["a".to_string(), "b".to_string(), "c".to_string()]);
    assert_eq!(shape.leaf_kind, ColumnKind::Text);
}

#[test]
fn walk_chain_shape_with_outer_cast() {
    // `(var ->> 'n')::int4`
    let coerce = cast(INT4OID, text_arrow(make_jsonb_var(), "n"));
    let shape = walk_chain_shape(&coerce).expect("recognized");
    assert_eq!(shape.keys, vec!["n".to_string()]);
    assert_eq!(shape.leaf_kind, ColumnKind::Int32);
}

#[test]
fn walk_chain_shape_rejects_bare_var() {
    assert!(walk_chain_shape(&make_jsonb_var()).is_none());
}

#[test]
fn walk_chain_shape_rejects_no_terminal_text_arrow() {
    // `var -> 'k'` alone (no terminal `->>`) is not a recognized chain.
    assert!(walk_chain_shape(&arrow(make_jsonb_var(), "k")).is_none());
}

#[test]
fn walk_chain_shape_rejects_null_node() {
    assert!(walk_chain_shape(&Node::null()).is_none());
}

#[test]
fn walk_chain_shape_of_two_casts_has_the_outer_type() {
    let twice = cast(INT8OID, cast(INT4OID, text_arrow(make_jsonb_var(), "n")));
    assert_eq!(walk_chain_shape(&twice).unwrap().leaf_kind, ColumnKind::Int64);
    let relabelled = text_arrow(relabel(make_jsonb_var()), "n");
    assert_eq!(walk_chain_shape(&relabelled).unwrap().keys, vec!["n"]);
}

#[test]
fn walk_chain_shape_rejects_casts_to_other_types() {
    // `(var ->> 'p')::numeric`: no column holds it, alone or under another cast.
    let numeric = || cast(NUMERICOID, text_arrow(make_jsonb_var(), "p"));
    assert!(walk_chain_shape(&numeric()).is_none());
    assert!(walk_chain_shape(&cast(TEXTOID, numeric())).is_none());
    assert!(walk_chain_shape(&text_arrow(make_jsonb_var(), "p")).is_some());
    // Only the chain under the cast is served.
    let specs = vec![spec(&["p"], ColumnKind::Text)];
    assert_eq!(match_extract_chain(&numeric(), 1, &specs, &physical()), None);
}

fn spec(path: &[&str], kind: ColumnKind) -> ExtractSpec {
    ExtractSpec {
        src_column: "data".to_string(),
        path: path.iter().map(|s| s.to_string()).collect(),
        target_name: "x".to_string(),
        target_kind: kind,
    }
}

fn physical() -> PhysicalCols {
    let mut p = PhysicalCols { by_attno: std::collections::HashMap::new() };
    p.by_attno.insert(1, "data".to_string());
    p.by_attno.insert(2, "ts".to_string());
    p
}

#[test]
fn extractions_that_serve_a_chain() {
    let specs = vec![spec(&["a"], ColumnKind::Text), spec(&["a"], ColumnKind::Int32)];
    let plain = text_arrow(make_jsonb_var(), "a");
    assert_eq!(match_extract_chain(&plain, 1, &specs, &physical()), Some(0));
    let number = cast(INT4OID, text_arrow(make_jsonb_var(), "a"));
    assert_eq!(match_extract_chain(&number, 1, &specs, &physical()), Some(1));
    assert_eq!(match_extract_chain(&number, 2, &specs, &physical()), None);
    let other_key = text_arrow(make_jsonb_var(), "b");
    assert_eq!(match_extract_chain(&other_key, 1, &specs, &physical()), None);
    let other_column = text_arrow(column(2, JSONBOID), "a");
    assert_eq!(match_extract_chain(&other_column, 1, &specs, &physical()), None);

    let ctx = AggChainCtx::from_parent(1, specs, true, physical()).unwrap();
    assert_eq!(ctx.match_to_synthetic(&number), Some((3, INT4OID)));
    assert!(AggChainCtx::from_parent(1, vec![], true, physical()).is_none());
    let again = vec![spec(&["a"], ColumnKind::Text)];
    assert!(AggChainCtx::from_parent(1, again, false, physical()).is_none());
}

#[test]
fn chains_are_replaced_by_extracted_columns() {
    let specs = vec![spec(&["a", "b"], ColumnKind::Int64)];
    let chain = || cast(INT8OID, text_arrow(arrow(make_jsonb_var(), "a"), "b"));
    let list = vec![op(OpName::Gt, chain(), constant(INT8OID, 5))];
    let out = rewrite_chains_in_list(&list, 1, &specs, &physical(), 2);
    let v = var_of(&out[0].args[0]);
    assert_eq!((v.varno, v.varattno, v.vartype), (INDEX_VAR, 3, INT8OID));
    let untouched = rewrite_chains_in_list(&list, 2, &specs, &physical(), 2);
    assert!(matches!(untouched[0].args[0].head, Head::CoerceViaIO(_)));
}

fn attributes() -> Vec<Attribute> {
    let att = |attnum: i16, name: &str, atttypid: u32, dropped: bool| Attribute {
        attnum,
        name: name.to_string(),
        atttypid,
        atttypmod: -1,
        attcollation: 0,
        dropped,
    };
    vec![att(1, "data", JSONBOID, false), att(2, "gone", INT4OID, true)]
}

#[test]
fn chain_of_an_extraction_is_recognised() {
    let s = spec(&["a", "b"], ColumnKind::Float64);
    let n = build_chain_expr_for_spec(1, &s, &attributes()).unwrap();
    let shape = walk_chain_shape(&n).unwrap();
    assert_eq!(shape.keys, vec!["a", "b"]);
    assert_eq!(shape.leaf_kind, ColumnKind::Float64);
    assert_eq!(shape.inner_var.varattno, 1);
    let mut elsewhere = spec(&["a"], ColumnKind::Text);
    elsewhere.src_column = "missing".to_string();
    assert!(build_chain_expr_for_spec(1, &elsewhere, &attributes()).is_none());
}

#[test]
fn tuple_of_a_scan() {
    let specs = vec![spec(&["a"], ColumnKind::Text)];
    let tl = build_custom_scan_tlist(1, &attributes(), &specs);
    // The column, a null for the dropped one, the extracted value.
    assert_eq!(tl.len(), 3);
    assert_eq!(var_of(&tl[0].expr).varattno, 1);
    assert!(matches!(&tl[1].expr.head, Head::Const(c) if c.constisnull));
    assert_eq!(walk_chain_shape(&tl[2].expr).unwrap().keys, vec!["a"]);
    assert_eq!(tl[2].resno, 3);
}

#[test]
fn signatures_of_chains() {
    let mut sigs: Vec<ChainSig> = Vec::new();
    let cond = op(OpName::Gt, cast(INT4OID, text_arrow(make_jsonb_var(), "a")), constant(INT4OID, 1));
    collect_chain_signatures_in_node(&cond, &mut sigs);
    assert!(has_signature(&sigs, &vec!["a".to_string()], ColumnKind::Int32));
    assert!(!has_signature(&sigs, &vec!["b".to_string()], ColumnKind::Int32));
}

fn synthetic(key: &str) -> SubplanColumn {
    SubplanColumn::Synthetic {
        path: vec![key.to_string()],
        target_kind: ColumnKind::Text,
        src_var_attno: 1,
        forwarder_resno: 4,
    }
}

#[test]
fn chains_over_a_child_plan() {
    let stl = vec![SubplanColumn::Physical { rel_var_attno: 1 }, SubplanColumn::Other, synthetic("a")];
    let over = |varno: i32| text_arrow(Node::leaf(Head::Var(var(varno, 1, JSONBOID))), "a");
    let v = match_chain_against_child_stl(&over(OUTER_VAR), &stl).unwrap();
    assert_eq!((v.varno, v.varattno), (OUTER_VAR, 4));
    assert!(match_chain_against_child_stl(&over(1), &stl).is_none());
}

#[test]
fn columns_that_children_share() {
    let phys = || SubplanColumn::Physical { rel_var_attno: 1 };
    assert!(subplan_columns_equivalent(&synthetic("a"), &synthetic("a")));
    assert!(!subplan_columns_equivalent(&synthetic("a"), &synthetic("b")));
    assert!(!subplan_columns_equivalent(&SubplanColumn::Other, &SubplanColumn::Other));
    let common = intersect_subplan_tlists(&vec![phys(), synthetic("a")], &vec![phys(), synthetic("b")]);
    assert!(matches!(common[0], SubplanColumn::Physical { rel_var_attno: 1 }));
    assert!(matches!(common[1], SubplanColumn::Other));
    assert!(has_any_synthetic(&vec![phys(), synthetic("a")]));
    assert!(!has_any_synthetic(&common));
}

fn plan(kind: PlanKind, targetlist: Vec<TargetEntry>, lefttree: Option<Plan>) -> Plan {
    Plan {
        ident: 0,
        kind,
        targetlist,
        qual: vec![],
        run_condition: vec![],
        key_cols: vec![],
        lefttree: lefttree.map(Box::new),
        righttree: None,
        children: vec![],
        scan_name: ScanName::Other,
        scanrelid: 0,
        custom_private: vec![],
        custom_scan_tlist: vec![],
    }
}

fn target(expr: Node, resno: i16) -> TargetEntry {
    TargetEntry { expr, resno, resname: None, resjunk: false }
}

fn chain_plan() -> Plan {
    // After the server's own pass the scan's entries read its tuple.
    let entry = target(Node::leaf(Head::Var(var(INDEX_VAR, 1, JSONBOID))), 1);
    let mut scan = plan(PlanKind::CustomScan, vec![entry], None);
    scan.scan_name = ScanName::Decompress;
    scan.scanrelid = 1;
    scan.custom_private = vec![7, -1, 0];
    let chain = text_arrow(Node::leaf(Head::Var(var(OUTER_VAR, 1, JSONBOID))), "a");
    plan(PlanKind::Other, vec![target(chain, 1)], Some(scan))
}

fn range_table(safe: bool) -> Vec<RelInfo> {
    vec![RelInfo {
        relid: 500,
        specs: vec![spec(&["a"], ColumnKind::Text)],
        extract_safe: safe,
        atts: attributes(),
    }]
}

#[test]
fn plans_read_extracted_columns() {
    let p = rewrite_plan_tree(chain_plan(), &range_table(true), true);
    let v = var_of(&p.targetlist[0].expr);
    assert_eq!((v.varno, v.varattno, v.vartype), (OUTER_VAR, 2, TEXTOID));
    let scan = p.lefttree.unwrap();
    // The document itself is no longer loaded.
    assert_eq!(scan.custom_private, vec![7, -1, -3, 2]);
    assert_eq!(scan.custom_scan_tlist.len(), 3);
    assert_eq!(scan.targetlist.len(), 2);
}

#[test]
fn plans_that_stay_as_they_are() {
    for (safe, enabled) in [(false, true), (true, false)] {
        let p = rewrite_plan_tree(chain_plan(), &range_table(safe), enabled);
        assert!(matches!(p.targetlist[0].expr.head, Head::OpExpr(_)));
        let scan = p.lefttree.unwrap();
        assert_eq!(scan.custom_private, vec![7, -1, 0]);
        assert!(scan.custom_scan_tlist.is_empty());
    }
    let mut sigs: Vec<ChainSig> = Vec::new();
    collect_chain_signatures_in_plan(&chain_plan(), &mut sigs);
    assert!(has_signature(&sigs, &vec!["a".to_string()], ColumnKind::Text));
}

// ---------------------------------------------------------------------------
// Expressions
// ---------------------------------------------------------------------------

fn rels() -> QueryRels {
    QueryRels { rels: vec![None, Some(events())] }
}

#[test]
fn conditions_of_a_case() {
    let c = parse_single_condition(&op(OpName::Ne, column(4, INT8OID), constant(INT8OID, 9))).unwrap();
    assert_eq!((c.col_idx, c.op, c.const_val), (3, CaseWhenOp::NotEq, 9));
    assert!(parse_single_condition(&op(OpName::Lt, column(4, INT8OID), constant(INT8OID, 9))).is_none());
    assert!(parse_single_condition(&op(OpName::Eq, column(4, INT8OID), null_const())).is_none());
}

#[test]
fn case_of_texts() {
    let when = node(
        Head::CaseWhen,
        vec![op(OpName::Eq, column(4, INT8OID), constant(INT8OID, 0)), text_const("none")],
    );
    let mut case = node(Head::CaseExpr, vec![when]);
    case.aux = Some(Box::new(column(3, TEXTOID)));
    let c = parse_case_expr(&case, &rels()).unwrap();
    assert_eq!(c.clauses.len(), 1);
    assert!(matches!(&c.clauses[0].result, CaseWhenValue::StringConst(s) if s == b"none"));
    assert!(matches!(c.default, CaseWhenValue::ColumnRef(2)));
    case.subject = Some(Box::new(column(4, INT8OID)));
    assert!(parse_case_expr(&case, &rels()).is_none());
}

#[test]
fn aggregates_in_expressions() {
    let sum = aggref(1, FuncName::Sum, INT8OID, Some(column(4, INT8OID)));
    let count = aggref(2, FuncName::Count, INT8OID, None);
    let ratio = op(OpName::Slash, sum, count);
    assert!(expr_only_uses_aggrefs_and_consts(&ratio));
    let mut out = Vec::new();
    collect_aggrefs_in_expr(&ratio, &mut out);
    assert_eq!(out.iter().map(|n| n.ident).collect::<Vec<_>>(), vec![1, 2]);
    assert!(!expr_only_uses_aggrefs_and_consts(&op(OpName::Plus, ratio, column(4, INT8OID))));
}

#[test]
fn differences_of_extremes() {
    let max = || aggref(1, FuncName::Max, INT8OID, Some(column(4, INT8OID)));
    let min = || aggref(2, FuncName::Min, INT8OID, Some(column(4, INT8OID)));
    let aggs = vec![max(), min()];
    let diff = op(OpName::Minus, max(), min());
    assert_eq!(try_match_derived_minmax_topn(&diff, &aggs), Some((0, 1)));
    assert_eq!(try_match_derived_minmax_topn(&op(OpName::Plus, max(), min()), &aggs), None);
    assert!(strip_monotonic_topn_wrappers(&diff).is_some());
}

#[test]
fn wrappers_that_keep_the_order() {
    let max = || aggref(1, FuncName::Max, INT8OID, Some(column(4, INT8OID)));
    let min = || aggref(2, FuncName::Min, INT8OID, Some(column(4, INT8OID)));
    let aggs = vec![max(), min()];
    let diff = || op(OpName::Minus, max(), min());
    let field = |name: FuncName, f: Node| func(name, vec![f, diff()]);
    let found = |n: &Node| try_match_derived_minmax_topn(n, &aggs);
    // EXTRACT(EPOCH FROM MAX - MIN) * 1000
    let epoch = || field(FuncName::Extract, text_const("epoch"));
    let key = op(OpName::Star, epoch(), constant(INT8OID, 1000));
    assert_eq!(found(&key), Some((0, 1)));
    assert_eq!(found(&field(FuncName::DatePart, text_const("epoch"))), Some((0, 1)));
    // Other fields start over.
    for f in ["minute", "second", "milliseconds", "hour", "day", "EPOCH"] {
        let e = field(FuncName::Extract, text_const(f));
        assert_eq!(found(&e), None);
        assert!(std::ptr::eq(strip_monotonic_topn_wrappers(&e).unwrap(), &e));
    }
    assert_eq!(found(&field(FuncName::Extract, null_const())), None);
    assert_eq!(found(&field(FuncName::Extract, column(3, TEXTOID))), None);
    // A product with a constant that is not positive turns the order round.
    assert_eq!(found(&op(OpName::Star, constant(INT8OID, -1), epoch())), None);
    assert_eq!(found(&op(OpName::Star, epoch(), constant(INT8OID, 0))), None);
}

#[test]
fn conditions_that_the_scan_checks() {
    let yes = [
        op(OpName::Eq, column(4, INT8OID), constant(INT8OID, 1)),
        op(OpName::Lt, constant(INT8OID, 1), column(4, INT8OID)),
        op(OpName::Like, column(3, TEXTOID), text_const("a%")),
        op(OpName::Ne, column(3, TEXTOID), text_const("a")),
        column(5, BOOLOID),
        node(Head::BoolExpr(BoolOp::Not), vec![column(5, BOOLOID)]),
    ];
    for n in &yes {
        assert!(is_pushable(n, &None));
    }
    let no = [
        op(OpName::Lt, column(3, TEXTOID), text_const("a")),
        op(OpName::Eq, text_const("a"), column(3, TEXTOID)),
        op(OpName::Eq, column(4, NUMERICOID), constant(NUMERICOID, 1)),
        op(OpName::Eq, column(4, INT8OID), null_const()),
        op(OpName::Eq, column(4, INT8OID), column(2, INT8OID)),
        node(Head::BoolExpr(BoolOp::Or), vec![]),
        column(4, INT8OID),
    ];
    for n in &no {
        assert!(!is_pushable(n, &None));
    }
    assert!(all_pushable(&yes.into_iter().collect(), &None));
    assert!(!all_pushable(&no.into_iter().collect(), &None));
}

#[test]
fn units_of_time() {
    assert_eq!(date_trunc_unit_usecs("hour"), Some(3_600_000_000));
    assert_eq!(date_trunc_unit_usecs("minute"), Some(60_000_000));
    assert_eq!(date_trunc_unit_usecs("fortnight"), None);
    assert!(is_extract_unit("hour", false));
    assert!(!is_extract_unit("fortnight", false));
}

#[test]
fn groupings_by_columns() {
    let (groups, relid) = parse_group_by(&vec![column(3, TEXTOID), column(2, INT4OID)], &rels(), &None).unwrap();
    assert_eq!(relid, 500);
    assert_eq!(groups.iter().map(|g| (g.col_idx, g.type_oid)).collect::<Vec<_>>(), vec![(2, TEXTOID), (1, INT4OID)]);
    // A constant groups nothing, and an aggregate cannot be grouped by.
    let (groups, _) = parse_group_by(&vec![constant(INT4OID, 1)], &rels(), &None).unwrap();
    assert!(groups.is_empty());
    let count = aggref(1, FuncName::Count, INT8OID, None);
    assert!(parse_group_by(&vec![count], &rels(), &None).is_none());
}

#[test]
fn conditions_of_a_query() {
    let a = || op(OpName::Eq, column(4, INT8OID), constant(INT8OID, 1));
    let b = || op(OpName::Eq, column(2, INT4OID), constant(INT4OID, 2));
    let both = node(Head::BoolExpr(BoolOp::And), vec![a(), b()]);
    assert_eq!(make_ands_implicit(&both).len(), 2);
    assert_eq!(make_ands_implicit(&a()).len(), 1);
    assert_eq!(make_ands_implicit(&Node::null()).len(), 0);
    assert_eq!(extract_query_quals(&both, &vec![]).len(), 2);
    assert_eq!(extract_query_quals(&Node::null(), &vec![vec![], vec![a()]]).len(), 1);
    assert!(has_where_clause(&a(), &vec![]));
    assert!(has_where_clause(&Node::null(), &vec![vec![], vec![a()]]));
    assert!(!has_where_clause(&Node::null(), &vec![vec![], vec![]]));
}

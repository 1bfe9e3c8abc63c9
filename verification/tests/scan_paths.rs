use pg_deltax::pg_types::{
    BOOLOID, BPCHAROID, BYTEAOID, DATEOID, FLOAT4OID, FLOAT8OID, INT2OID, INT4OID, INT8OID,
    INVALID_OID, JSONBOID, NUMERICOID, TEXTOID, TIMESTAMPOID, TIMESTAMPTZOID, VARCHAROID,
};
use pg_deltax::scan::agg_plan::{
    build_output_map, clean_targetlist, eliminate_redundant_groups, plan_agg_path, Output,
};
use pg_deltax::scan::agg_types::{
    AggExpr, AggSpec, AggType, CaseWhenClause, CaseWhenCondition, CaseWhenOp, CaseWhenSpec,
    CaseWhenValue, GroupByColSpec, GroupByExpr, HavingFilter, HavingOp, OutputTransform,
};
use pg_deltax::scan::catalog::{ColumnInfo, QueryRels, Relation};
use pg_deltax::scan::group_estimate::{
    estimate_groups, group_column_name, grouping_too_fine, plan_grouping, GroupedRows, Grouping,
};
use pg_deltax::scan::having::{choose_agg_topn, parse_having, SortEntry};
use pg_deltax::scan::hook::{
    check_dml, check_time_pathkey, collect_compressed_children, colstats_table_name,
    companion_table_name, extract_companion_oids, extract_order_by_attno, extract_topn_info,
    find_inh_parent_oid, find_parent_oid, has_segment_by, merged_ndistinct,
    partition_of_companion, recommend_scan_workers, relation_size, scan_topn, set_dml_bypass,
    set_rel_pathlist, text_grouping_bails, AppendRel, Command, HookState, InputKind, InputPath,
    Partition, PathKey, RangeEntry, RelKind, RelQuery, RelScan, ResultRelation, SortDirection,
    TopnInfo,
};
use pg_deltax::scan::invalidate_compressed_cache;
use pg_deltax::scan::json_extract::TargetEntry;
use pg_deltax::scan::json_plan::{Plan, PlanKind, ScanName};
use pg_deltax::scan::json_prune::{prune_cscans_by_ref_count, rebuild_cscan_custom_private};
use pg_deltax::scan::minmax::{
    build_minmax_path_private, plan_minmax_path, MetaAggKind, MinMaxAggSpec, PrivateError,
};
use pg_deltax::scan::node::{
    AggInfo, Const, FuncName, Head, Node, OpInfo, OpName, Payload, Var, INDEX_VAR, OUTER_VAR,
};
use pg_deltax::scan::path::{
    agg_specs_partial_emittable, build_count_private, build_scan_private, clear_agg_topn_info,
    is_json_extract_safe, is_partial_eligible_var_type, needed_columns, parallel_agg_eligible,
    parallel_compact_aggs_ok, partial_agg_strategy, peek_agg_topn_info, plan_scan_path,
    quals_reference_only_numeric_vars, rti_to_rel_oid, set_agg_having_filters, set_agg_topn_info,
    set_agg_topn_info_derived_minmax, take_agg_having_filters, take_agg_topn_info, AggStrategy,
    PathState, ScanTopn, TopnCell, TOPN_SORT_COL_DERIVED,
};
use pg_deltax::scan::upper::{classify_aggref, QueryTarget};
use pg_deltax::scan::upper_path::{
    create_upper_path, ParentTable, UpperCatalog, UpperPath, UpperQuery,
};
use pg_deltax::scan::wire::{build_agg_path_private, high_half, join_halves, low_half};
use pg_deltax::scan::wire_decode::{deserialize_case_when_value, parse_agg_path_private};

fn node(head: Head, args: Vec<Node>) -> Node {
    Node { ident: 0, head, args, aux: None, subject: None }
}

fn var_node(varno: i32, attno: i16, vartype: u32) -> Node {
    Node::leaf(Head::Var(Var {
        varno,
        varattno: attno,
        vartype,
        vartypmod: -1,
        varcollid: 0,
        varlevelsup: 0,
    }))
}

fn column(attno: i16, vartype: u32) -> Node {
    var_node(1, attno, vartype)
}

fn constant(consttype: u32, word: i64) -> Node {
    Node::leaf(Head::Const(Const { consttype, constisnull: false, word, payload: Payload::Plain }))
}

fn op(name: OpName, left: Node, right: Node) -> Node {
    let info = OpInfo {
        opno: 0,
        name,
        oprleft: 0,
        oprright: 0,
        oprresult: BOOLOID,
        opfuncid: 0,
        opresulttype: BOOLOID,
        opcollid: 0,
        inputcollid: 0,
    };
    node(Head::OpExpr(info), vec![left, right])
}

fn aggref(ident: u64, name: FuncName, aggtype: u32, arg: Option<Node>) -> Node {
    let info = AggInfo {
        aggfnoid: 100 + ident as u32,
        name,
        aggtype,
        typlen: 8,
        typbyval: true,
        aggstar: arg.is_none(),
        distinct: false,
    };
    let args = match arg {
        Some(a) => vec![node(Head::TargetEntry(1), vec![a])],
        None => vec![],
    };
    Node { ident, head: Head::Aggref(info), args, aux: None, subject: None }
}

fn spec(agg_type: AggType, col_idx: i32, col_type_oid: u32) -> AggSpec {
    AggSpec {
        agg_type,
        col_idx,
        result_type_oid: INT8OID,
        col_type_oid,
        expr_kind: AggExpr::Column,
        const_offset: 0,
        output_transform: OutputTransform::Identity,
    }
}

// ---------------------------------------------------------------------------
// State between planner calls
// ---------------------------------------------------------------------------

#[test]
fn meta_agg_kind_roundtrip() {
    for &k in &[
        MetaAggKind::Min,
        MetaAggKind::Max,
        MetaAggKind::Sum,
        MetaAggKind::CountCol,
        MetaAggKind::CountStar,
    ] {
        assert_eq!(MetaAggKind::from_i32(k as i32), k);
        assert_eq!(MetaAggKind::from_i32(k.code()), k);
    }
}

#[test]
fn topn_sort_col_derived_sentinel_is_negative() {
    const _: () = assert!(TOPN_SORT_COL_DERIVED < 0);
    const _: () = assert!(TOPN_SORT_COL_DERIVED != -1);
}

#[test]
fn is_partial_eligible_var_type_accepts_numerics_and_temporals() {
    for oid in [
        INT2OID,
        INT4OID,
        INT8OID,
        FLOAT4OID,
        FLOAT8OID,
        TIMESTAMPOID,
        TIMESTAMPTZOID,
        DATEOID,
        BOOLOID,
    ] {
        assert!(is_partial_eligible_var_type(oid));
    }
}

#[test]
fn is_partial_eligible_var_type_rejects_text_jsonb_numeric() {
    for oid in [TEXTOID, VARCHAROID, BPCHAROID, JSONBOID, BYTEAOID, NUMERICOID] {
        assert!(!is_partial_eligible_var_type(oid));
    }
}

#[test]
fn parallel_compact_aggs_ok_accepts_compact_set() {
    let specs = vec![
        AggSpec {
            agg_type: AggType::CountStar,
            col_idx: -1,
            result_type_oid: INT8OID,
            col_type_oid: INVALID_OID,
            expr_kind: AggExpr::Column,
            const_offset: 0,
            output_transform: OutputTransform::Identity,
        },
        AggSpec {
            agg_type: AggType::Sum,
            col_idx: 0,
            result_type_oid: INT8OID,
            col_type_oid: INT4OID,
            expr_kind: AggExpr::Column,
            const_offset: 0,
            output_transform: OutputTransform::Identity,
        },
    ];
    assert!(parallel_compact_aggs_ok(&specs));
}

#[test]
fn aggregates_for_workers() {
    assert!(!parallel_compact_aggs_ok(&[]));
    assert!(!parallel_compact_aggs_ok(&[spec(AggType::CountDistinct, 0, INT4OID)]));
    assert!(!parallel_compact_aggs_ok(&[spec(AggType::Min, 0, INT4OID)]));
    assert!(parallel_compact_aggs_ok(&[spec(AggType::Min, 0, TEXTOID)]));
    // Sums of bigint are numeric, and averages have two parts: not passed on.
    assert!(!agg_specs_partial_emittable(&[spec(AggType::Sum, 0, INT8OID)]));
    assert!(!agg_specs_partial_emittable(&[spec(AggType::Avg, 0, INT4OID)]));
    assert!(agg_specs_partial_emittable(&[spec(AggType::Sum, 0, INT4OID)]));
    assert!(!agg_specs_partial_emittable(&[]));

    let quals = vec![op(OpName::Gt, column(1, INT4OID), constant(INT4OID, 1))];
    assert!(quals_reference_only_numeric_vars(&quals));
    let texts = vec![op(OpName::Eq, column(1, TEXTOID), constant(INT4OID, 1))];
    assert!(!quals_reference_only_numeric_vars(&texts));
    let sums = vec![spec(AggType::Sum, 0, INT4OID)];
    let strategy = |groups: usize, compact: bool, q: &Vec<Node>, workers: i32| {
        partial_agg_strategy(false, true, false, &sums, groups, compact, q, workers)
    };
    assert_eq!(strategy(0, false, &quals, 2), Some(AggStrategy::Plain));
    assert_eq!(strategy(1, true, &quals, 2), Some(AggStrategy::Hashed));
    assert_eq!(strategy(1, false, &quals, 2), None);
    assert_eq!(strategy(0, false, &texts, 2), None);
    assert_eq!(strategy(0, false, &quals, 0), None);
    assert_eq!(partial_agg_strategy(true, true, false, &sums, 0, true, &quals, 2), None);
    assert_eq!(partial_agg_strategy(false, true, true, &sums, 0, true, &quals, 2), None);
}

#[test]
fn state_is_handed_on_once() {
    let mut s = PathState::new();
    let f = HavingFilter { agg_idx: 0, op: HavingOp::Gt, const_val: 5 };
    set_agg_having_filters(&mut s, vec![f]);
    assert_eq!(take_agg_having_filters(&mut s), vec![f]);
    assert!(take_agg_having_filters(&mut s).is_empty());
    set_agg_topn_info(&mut s, 10, 2, false);
    assert_eq!(peek_agg_topn_info(&s).unwrap().limit, 10);
    let t = take_agg_topn_info(&mut s).unwrap();
    assert_eq!((t.limit, t.sort_col, t.ascending, t.derived_minmax), (10, 2, false, None));
    assert!(take_agg_topn_info(&mut s).is_none());
    set_agg_topn_info_derived_minmax(&mut s, 3, true, 0, 1);
    let t = peek_agg_topn_info(&s).unwrap();
    assert_eq!((t.sort_col, t.derived_minmax), (TOPN_SORT_COL_DERIVED, Some((0, 1))));
    assert!(!parallel_agg_eligible(&s, &vec![], &vec![spec(AggType::Count, 0, INT4OID)], 0, false));
    clear_agg_topn_info(&mut s);
    assert!(peek_agg_topn_info(&s).is_none());
    assert!(parallel_agg_eligible(&s, &vec![], &vec![spec(AggType::Count, 0, INT4OID)], 0, false));
}

// ---------------------------------------------------------------------------
// Row scans
// ---------------------------------------------------------------------------

fn entry(expr: Node, resno: i16, resjunk: bool) -> TargetEntry {
    TargetEntry { expr, resno, resname: None, resjunk }
}

fn topn(limit: i64) -> ScanTopn {
    ScanTopn { limit, ascending: true, multi_col: false, sort_col_attno: 4, nulls_first: true }
}

#[test]
fn descriptions_of_row_scans() {
    assert_eq!(build_scan_private(&vec![7, 8], &vec![0, 2], topn(0)), vec![7, 8, -1, 0, 2]);
    assert_eq!(
        build_scan_private(&vec![7], &vec![1], topn(5)),
        vec![7, -1, 1, -2, 5, 1, 0, 4, 1]
    );
    let tlist = vec![entry(column(3, INT4OID), 1, false), entry(column(1, INT4OID), 2, false)];
    let quals = vec![
        op(OpName::Gt, column(3, INT4OID), constant(INT4OID, 1)),
        op(OpName::Gt, var_node(2, 9, INT4OID), column(5, INT4OID)),
    ];
    assert_eq!(needed_columns(&tlist, &quals, 1), vec![0, 2, 4]);
    let mut cell = TopnCell::new();
    cell.set(topn(5));
    assert_eq!(
        plan_scan_path(&mut cell, &vec![7], &tlist, &vec![], 1),
        vec![7, -1, 0, 2, -2, 5, 1, 0, 4, 1]
    );
    // The limit is for one scan only.
    assert_eq!(plan_scan_path(&mut cell, &vec![7], &tlist, &vec![], 1), vec![7, -1, 0, 2]);
    assert_eq!(build_count_private(&vec![7], &Some(vec![65, 66])), vec![7, -1, 2, 65, 66]);
    assert_eq!(build_count_private(&vec![7], &None), vec![7, -1, 0]);
}

#[test]
fn extractions_in_older_partitions() {
    assert_eq!(rti_to_rel_oid(&vec![0, 11, 12], 2), 12);
    assert_eq!(rti_to_rel_oid(&vec![0, 11, 12], 0), INVALID_OID);
    assert_eq!(rti_to_rel_oid(&vec![0, 11, 12], 3), INVALID_OID);
    assert!(is_json_extract_safe(Some(5), Some(5)));
    assert!(!is_json_extract_safe(Some(5), Some(4)));
    assert!(is_json_extract_safe(Some(5), None));
    assert!(is_json_extract_safe(None, Some(4)));
}

fn scan_plan(private: Vec<i32>, quals: Vec<Node>) -> Plan {
    Plan {
        ident: 1,
        kind: PlanKind::CustomScan,
        targetlist: vec![
            entry(var_node(INDEX_VAR, 1, JSONBOID), 1, false),
            entry(var_node(INDEX_VAR, 2, INT4OID), 2, false),
            entry(var_node(INDEX_VAR, 3, TEXTOID), 3, false),
        ],
        qual: quals,
        run_condition: vec![],
        key_cols: vec![],
        lefttree: None,
        righttree: None,
        children: vec![],
        scan_name: ScanName::Decompress,
        scanrelid: 1,
        custom_private: private,
        custom_scan_tlist: vec![
            entry(column(1, JSONBOID), 1, false),
            entry(column(2, INT4OID), 2, false),
            entry(op(OpName::Other, column(1, JSONBOID), constant(TEXTOID, 0)), 3, false),
        ],
    }
}

#[test]
fn scans_load_what_is_read() {
    let private = vec![7, -1, 0, 1, -2, 5, 1, 0, 4, 1];
    let p = rebuild_cscan_custom_private(scan_plan(private.clone(), vec![]), &vec![3]);
    assert_eq!(p.custom_private, vec![7, -1, -2, 5, 1, 0, 4, 1, -3, 2]);
    let p = rebuild_cscan_custom_private(scan_plan(private.clone(), vec![]), &vec![2, 1]);
    assert_eq!(p.custom_private, vec![7, -1, 1, 0, -2, 5, 1, 0, 4, 1]);
    // What the filter reads is loaded too.
    let quals = vec![op(OpName::Gt, var_node(INDEX_VAR, 2, INT4OID), constant(INT4OID, 1))];
    let p = rebuild_cscan_custom_private(scan_plan(vec![7, -1, 0, 1], quals), &vec![]);
    assert_eq!(p.custom_private, vec![7, -1, 1]);
}

#[test]
fn plans_read_what_their_output_needs() {
    let top = Plan {
        ident: 2,
        kind: PlanKind::Other,
        targetlist: vec![entry(var_node(OUTER_VAR, 3, TEXTOID), 1, false)],
        qual: vec![],
        run_condition: vec![],
        key_cols: vec![],
        lefttree: Some(Box::new(scan_plan(vec![7, -1, 0, 1], vec![]))),
        righttree: None,
        children: vec![],
        scan_name: ScanName::Other,
        scanrelid: 0,
        custom_private: vec![],
        custom_scan_tlist: vec![],
    };
    let p = prune_cscans_by_ref_count(top);
    assert_eq!(p.lefttree.unwrap().custom_private, vec![7, -1, -3, 2]);
}

// ---------------------------------------------------------------------------
// Hooks
// ---------------------------------------------------------------------------

#[test]
fn caches_of_a_session() {
    let mut s = HookState::new();
    assert_eq!(s.cached_companion(5), None);
    s.remember_companion(5, 77);
    assert_eq!(s.cached_companion(5), Some(77));
    assert_eq!(s.remember_time_column(9, 0), None);
    assert_eq!(s.cached_time_column(9), Some(None));
    assert_eq!(s.remember_time_column(9, 3), Some(3));
    assert_eq!(s.cached_time_column(9), Some(Some(3)));
    s.remember_meta_cols(9, Some(("ts".to_string(), vec!["dev".to_string()])));
    assert_eq!(s.cached_meta_cols(9).unwrap().unwrap().0, "ts");
    s.remember_meta_cols(8, None);
    assert!(s.cached_meta_cols(8).unwrap().is_none());
    set_dml_bypass(&mut s, true);
    invalidate_compressed_cache(&mut s);
    assert_eq!(s.cached_companion(5), None);
    assert_eq!(s.cached_time_column(9), None);
    assert!(s.cached_meta_cols(9).is_none());
    assert!(s.dml_bypass);
}

#[test]
fn changes_of_compressed_partitions() {
    let rel = |name: Option<&str>, companion: u32| ResultRelation {
        relid: 42,
        name: name.map(|n| n.to_string()),
        companion,
    };
    let mut s = HookState::new();
    let list = vec![rel(Some("heap"), 0), rel(Some("p1"), 7)];
    assert_eq!(
        check_dml(&s, Command::Update, &list),
        Err("cannot UPDATE compressed partition \"p1\", decompress it first".to_string())
    );
    assert_eq!(
        check_dml(&s, Command::Insert, &vec![rel(None, 7)]),
        Err("cannot INSERT into compressed partition \"OID 42\", decompress it first".to_string())
    );
    assert_eq!(
        check_dml(&s, Command::Delete, &vec![rel(Some("p2"), 7)]),
        Err("cannot DELETE from compressed partition \"p2\", decompress it first".to_string())
    );
    assert_eq!(check_dml(&s, Command::Other, &list), Ok(()));
    assert_eq!(check_dml(&s, Command::Update, &vec![rel(Some("heap"), 0)]), Ok(()));
    set_dml_bypass(&mut s, true);
    assert_eq!(check_dml(&s, Command::Update, &list), Ok(()));
}

#[test]
fn names_of_metadata_tables() {
    assert_eq!(companion_table_name(&Some("p1".to_string()), 5, 6), Some("p1_meta".to_string()));
    assert_eq!(companion_table_name(&Some("p1".to_string()), 5, 5), None);
    assert_eq!(companion_table_name(&Some("p1".to_string()), 0, 6), None);
    assert_eq!(companion_table_name(&None, 5, 6), None);
    assert_eq!(partition_of_companion("p1_meta"), "p1");
    assert_eq!(colstats_table_name("p1_meta"), "p1_colstats");
    assert_eq!(partition_of_companion("odd"), "odd");
}

fn key(direction: SortDirection, members: Vec<Node>) -> PathKey {
    PathKey { direction, nulls_first: true, members }
}

#[test]
fn parents_of_partitions() {
    let list = vec![AppendRel { parent_relid: 1, child_relid: 3 }];
    assert_eq!(find_parent_oid(&list, &vec![0, 500, 501, 502], 3), Some(500));
    assert_eq!(find_parent_oid(&list, &vec![0, 500], 4), None);
    let e = |relid: u32, is_relation: bool, inh: bool| RangeEntry { relid, is_relation, inh };
    assert_eq!(find_inh_parent_oid(&vec![e(1, true, false), e(2, true, true)]), Some(2));
    assert_eq!(find_inh_parent_oid(&vec![e(1, true, false), e(2, false, true)]), None);
    assert!(has_segment_by(&Some(("ts".to_string(), vec!["d".to_string()]))));
    assert!(!has_segment_by(&Some(("ts".to_string(), vec![]))));
    assert!(!has_segment_by(&None));
    let keys = vec![key(SortDirection::Descending, vec![constant(INT4OID, 1), column(4, INT4OID)])];
    // The child answers to its parent's columns.
    assert_eq!(extract_order_by_attno(&keys, &list, 3), Some(4));
    assert_eq!(extract_order_by_attno(&keys, &list, 2), None);
    assert_eq!(extract_order_by_attno(&vec![], &list, 3), None);
    assert!(!check_time_pathkey(&keys, 1, 4));
    let keys = vec![key(SortDirection::Ascending, vec![column(4, INT4OID)])];
    assert!(check_time_pathkey(&keys, 1, 4));
    assert!(!check_time_pathkey(&keys, 1, 5));
}

#[test]
fn limits_of_row_scans() {
    let keys = || vec![key(SortDirection::Descending, vec![column(4, INT4OID)])];
    let t = extract_topn_info(false, &constant(INT8OID, 10), &Node::null(), &keys());
    assert_eq!((t.limit, t.ascending, t.multi_col, t.nulls_first), (10, false, false, true));
    let t = extract_topn_info(false, &constant(INT8OID, 10), &constant(INT8OID, 5), &keys());
    assert_eq!(t.limit, 15);
    assert_eq!(extract_topn_info(true, &constant(INT8OID, 10), &Node::null(), &keys()).limit, 0);
    assert_eq!(extract_topn_info(false, &constant(INT8OID, 10_001), &Node::null(), &keys()).limit, 0);
    assert_eq!(extract_topn_info(false, &constant(INT8OID, 10), &Node::null(), &vec![]).limit, 0);
    let t = TopnInfo { limit: 10, ascending: false, multi_col: true, nulls_first: false };
    let s = scan_topn(t, Some(4));
    assert_eq!((s.limit, s.ascending, s.multi_col, s.sort_col_attno), (10, false, true, 4));
    assert_eq!(scan_topn(t, None).limit, 0);
}

#[test]
fn partitions_of_a_table() {
    let p = |parent_relid: u32, companion: u32, known_empty: bool| Partition {
        parent_relid,
        companion,
        known_empty,
    };
    assert_eq!(
        collect_compressed_children(&vec![p(1, 7, false), p(1, 0, true), p(2, 0, false), p(1, 8, false)], 1),
        Some(vec![7, 8])
    );
    // One that is not compressed and not empty.
    assert_eq!(collect_compressed_children(&vec![p(1, 7, false), p(1, 0, false)], 1), None);
    assert_eq!(collect_compressed_children(&vec![p(1, 0, true)], 1), None);
}

fn input(kind: InputKind, subpaths: Vec<InputPath>, oids: Vec<u32>, companion: u32) -> InputPath {
    InputPath { kind, subpaths, oids, companion, has_data: false }
}

#[test]
fn tables_that_a_path_reads() {
    let scan = |oid: u32| input(InputKind::RowScan, vec![], vec![oid], 0);
    let append = input(InputKind::Append, vec![scan(7), input(InputKind::Other, vec![], vec![], 8)], vec![], 0);
    let gather = input(InputKind::Gather, vec![append], vec![], 0);
    assert_eq!(extract_companion_oids(&gather), Some(vec![7, 8]));
    let mut heap = input(InputKind::Other, vec![], vec![], 0);
    heap.has_data = true;
    let mixed = input(InputKind::Append, vec![scan(7), heap], vec![], 0);
    assert_eq!(extract_companion_oids(&mixed), None);
    assert_eq!(extract_companion_oids(&input(InputKind::Other, vec![], vec![], 0)), None);
}

#[test]
fn workers_for_a_scan() {
    assert_eq!(recommend_scan_workers(4, 8, &vec![16, 8]), 3);
    assert_eq!(recommend_scan_workers(4, 2, &vec![1000]), 2);
    assert_eq!(recommend_scan_workers(0, 2, &vec![1000]), 0);
    assert_eq!(recommend_scan_workers(4, -1, &vec![1000]), 0);
    assert_eq!(recommend_scan_workers(4, 4, &vec![7]), 0);
}

fn rel_query() -> RelQuery {
    RelQuery {
        is_relation: true,
        kind: RelKind::Base,
        inh: true,
        relid: 1,
        append_rels: vec![],
        pathkeys: vec![key(SortDirection::Ascending, vec![column(4, INT4OID)])],
        topn: TopnInfo { limit: 0, ascending: true, multi_col: false, nulls_first: false },
        children: Some(vec![7, 8]),
        segment_counts: vec![16, 16],
        consider_parallel: true,
        worker_cap: 4,
        pg_worker_cap: 8,
        companion: 0,
        time_attno: Some(4),
        segmented: false,
    }
}

#[test]
fn scans_of_relations() {
    match set_rel_pathlist(&rel_query()) {
        RelScan::Append { companion_oids, topn, workers } => {
            assert_eq!((companion_oids, topn.limit, workers), (vec![7, 8], 0, 4));
        }
        _ => panic!("the table is scanned as one"),
    }
    // A limit is for one process.
    let mut q = rel_query();
    q.topn.limit = 5;
    match set_rel_pathlist(&q) {
        RelScan::Append { topn, workers, .. } => assert_eq!((topn.limit, workers), (5, 0)),
        _ => panic!("the table is scanned as one"),
    }
    let mut q = rel_query();
    q.kind = RelKind::Member;
    q.children = None;
    q.companion = 7;
    match set_rel_pathlist(&q) {
        RelScan::Decompress { companion, sorted, .. } => assert_eq!((companion, sorted), (7, true)),
        _ => panic!("the partition is scanned"),
    }
    q.segmented = true;
    assert!(matches!(set_rel_pathlist(&q), RelScan::Decompress { sorted: false, .. }));
    q.companion = 0;
    assert!(matches!(set_rel_pathlist(&q), RelScan::Nothing));
}

#[test]
fn sizes_of_partitions() {
    assert_eq!(relation_size(Some(250), 0), Some((250, 3)));
    assert_eq!(relation_size(Some(250), 9), Some((250, 9)));
    assert_eq!(relation_size(Some(0), 9), None);
    assert_eq!(relation_size(None, 9), None);
    let counts = vec![("a".to_string(), 5), ("b".to_string(), 9), ("a".to_string(), 7)];
    assert_eq!(merged_ndistinct(&counts, "a", 100), Some(7));
    assert_eq!(merged_ndistinct(&counts, "b", 6), Some(6));
    assert_eq!(merged_ndistinct(&counts, "c", 6), None);
    let group = |type_oid: u32| GroupByColSpec { col_idx: 0, type_oid, expr: GroupByExpr::Column };
    assert!(text_grouping_bails(&vec![group(TEXTOID)], &vec![Some(100_001)], true, 1, true));
    assert!(!text_grouping_bails(&vec![group(TEXTOID)], &vec![Some(100_000)], true, 1, true));
    assert!(!text_grouping_bails(&vec![group(TEXTOID)], &vec![Some(100_001)], false, 1, true));
    assert!(!text_grouping_bails(&vec![group(TEXTOID)], &vec![Some(100_001)], true, 2, true));
    assert!(!text_grouping_bails(&vec![group(INT4OID)], &vec![Some(100_001)], true, 1, true));
}

// ---------------------------------------------------------------------------
// Aggregates
// ---------------------------------------------------------------------------

fn events() -> Relation {
    let col = |name: &str, type_oid: u32| ColumnInfo { name: Some(name.to_string()), type_oid };
    Relation {
        relid: 500,
        columns: vec![
            col("ts", TIMESTAMPTZOID),
            col("device", INT4OID),
            col("kind", TEXTOID),
            col("value", INT4OID),
        ],
    }
}

fn rels() -> QueryRels {
    QueryRels { rels: vec![None, Some(events())] }
}

fn target(expr: Node, resno: i16, sortgroupref: u32) -> QueryTarget {
    QueryTarget { expr, resno, resjunk: false, sortgroupref }
}

fn query(tlist: Vec<QueryTarget>, group_refs: Vec<u32>, jointree: Node) -> UpperQuery {
    UpperQuery {
        tlist,
        group_refs,
        jointree,
        rel_quals: vec![],
        having: Node::null(),
        rels: rels(),
    }
}

fn catalog() -> UpperCatalog {
    UpperCatalog {
        companion_oids: vec![7, 8],
        ctx: None,
        meta_fastpath_disabled: false,
        parent: Some(ParentTable {
            relation: events(),
            time_column: "ts".to_string(),
            segment_by: vec!["device".to_string()],
        }),
        partition_ranges: Some(vec![(10, 20), (20, 30)]),
        companion_columns: vec!["_min_ts".to_string()],
        has_colstats: true,
    }
}

fn count_star() -> Node {
    aggref(1, FuncName::Count, INT8OID, None)
}

#[test]
fn counts_of_rows() {
    let q = query(vec![target(count_star(), 1, 0)], vec![], Node::null());
    assert!(matches!(create_upper_path(&q, &catalog()), UpperPath::Count { with_quals: false }));
    // All partitions lie in the range that is asked for.
    let since = |t: i64| op(OpName::Ge, column(1, TIMESTAMPTZOID), constant(TIMESTAMPTZOID, t));
    let q = query(vec![target(count_star(), 1, 0)], vec![], since(10));
    assert!(matches!(create_upper_path(&q, &catalog()), UpperPath::Count { with_quals: true }));
    // They do not: the rows are scanned.
    let q = query(vec![target(count_star(), 1, 0)], vec![], since(11));
    assert!(matches!(create_upper_path(&q, &catalog()), UpperPath::Agg { .. }));
    let mut none = catalog();
    none.companion_oids = vec![];
    assert!(matches!(create_upper_path(&q, &none), UpperPath::Nothing));
}

#[test]
fn a_filter_is_never_dropped() {
    // COUNT(*) FILTER (WHERE flag): neither metadata nor a scan answers it.
    let mut filtered = count_star();
    filtered.aux = Some(Box::new(column(5, BOOLOID)));
    let q = query(vec![target(filtered, 1, 0)], vec![], Node::null());
    assert!(matches!(create_upper_path(&q, &catalog()), UpperPath::Nothing));
    let mut filtered = aggref(2, FuncName::Max, INT4OID, Some(column(4, INT4OID)));
    filtered.aux = Some(Box::new(column(5, BOOLOID)));
    let q = query(vec![target(count_star(), 1, 0), target(filtered, 2, 0)], vec![], Node::null());
    assert!(matches!(create_upper_path(&q, &catalog()), UpperPath::Nothing));
}

#[test]
fn having_is_never_dropped() {
    let max = || aggref(2, FuncName::Max, INT4OID, Some(column(4, INT4OID)));
    for slow in [false, true] {
        let mut cat = catalog();
        cat.meta_fastpath_disabled = slow;
        let mut q = query(vec![target(max(), 1, 0)], vec![], Node::null());
        assert!(matches!(create_upper_path(&q, &cat), UpperPath::MinMax { .. }));
        q.having = op(OpName::Gt, max(), constant(INT4OID, 5));
        match create_upper_path(&q, &cat) {
            UpperPath::Agg { having, .. } => {
                assert_eq!((having[0].op, having[0].const_val), (HavingOp::Gt, 5));
            }
            _ => panic!("the rows are scanned"),
        }
    }
}

#[test]
fn filtered_aggregates_in_having() {
    // HAVING COUNT(*) FILTER (WHERE flag) > 3 is not HAVING COUNT(*) > 3.
    let other = || aggref(9, FuncName::Count, INT8OID, None);
    let mut listed = count_star();
    if let (Head::Aggref(a), Head::Aggref(b)) = (&mut listed.head, &other().head) {
        a.aggfnoid = b.aggfnoid;
    }
    let aggs = vec![listed];
    assert!(parse_having(&op(OpName::Gt, other(), constant(INT8OID, 3)), &aggs).is_some());
    let mut filtered = other();
    filtered.aux = Some(Box::new(column(5, BOOLOID)));
    assert!(parse_having(&op(OpName::Gt, filtered, constant(INT8OID, 3)), &aggs).is_none());
}

#[test]
fn aggregates_from_metadata() {
    let sum = aggref(2, FuncName::Sum, INT8OID, Some(column(4, INT4OID)));
    let q = query(vec![target(count_star(), 1, 0), target(sum, 2, 0)], vec![], Node::null());
    match create_upper_path(&q, &catalog()) {
        UpperPath::MinMax { answers, with_quals } => {
            assert!(!with_quals);
            assert_eq!(answers[0].kind, MetaAggKind::CountStar);
            assert_eq!((answers[1].kind, answers[1].varattno), (MetaAggKind::Sum, 4));
        }
        _ => panic!("metadata answers the query"),
    }
}

#[test]
fn aggregates_from_a_scan() {
    let avg = || aggref(2, FuncName::Avg, NUMERICOID, Some(column(4, INT4OID)));
    let tlist = || vec![target(column(3, TEXTOID), 1, 1), target(avg(), 2, 0)];
    let cond = op(OpName::Eq, column(3, TEXTOID), Node::leaf(Head::Const(Const {
        consttype: TEXTOID,
        constisnull: false,
        word: 0,
        payload: Payload::Text("x".to_string()),
    })));
    let mut q = query(tlist(), vec![1], cond);
    q.having = op(OpName::Gt, avg(), constant(INT4OID, 5));
    match create_upper_path(&q, &catalog()) {
        UpperPath::Agg { aggs, specs, groups, group_by_relid, having } => {
            assert_eq!(aggs.len(), 1);
            assert_eq!((specs[0].agg_type, specs[0].col_idx), (AggType::Avg, 3));
            assert_eq!((groups[0].col_idx, group_by_relid), (2, 500));
            assert_eq!((having[0].op, having[0].const_val), (HavingOp::Gt, 5));
        }
        _ => panic!("the rows are scanned"),
    }
    // A condition that the scan cannot check.
    let q = query(tlist(), vec![1], node(Head::BoolExpr(pg_deltax::scan::node::BoolOp::Or), vec![]));
    assert!(matches!(create_upper_path(&q, &catalog()), UpperPath::Nothing));
    // An aggregate with a FILTER.
    let mut filtered = avg();
    filtered.aux = Some(Box::new(column(5, BOOLOID)));
    assert!(classify_aggref(&filtered, &rels(), &None).is_none());
    assert!(classify_aggref(&avg(), &rels(), &None).is_some());
}

#[test]
fn filters_of_having() {
    let aggs = vec![count_star()];
    let f = parse_having(&op(OpName::Lt, constant(INT8OID, 3), count_star()), &aggs).unwrap();
    assert_eq!((f[0].agg_idx, f[0].op, f[0].const_val), (0, HavingOp::Gt, 3));
    assert!(parse_having(&op(OpName::Plus, constant(INT8OID, 3), count_star()), &aggs).is_none());
    let other = aggref(9, FuncName::Sum, INT8OID, Some(column(4, INT4OID)));
    assert!(parse_having(&op(OpName::Gt, other, constant(INT8OID, 3)), &aggs).is_none());
}

#[test]
fn limits_of_groups() {
    let tlist = vec![target(column(3, TEXTOID), 1, 1), target(count_star(), 2, 2)];
    let aggs = vec![count_star()];
    let specs = vec![spec(AggType::CountStar, -1, 0)];
    let mut s = PathState::new();
    let limit = constant(INT8OID, 10);
    let by = |r: u32| vec![SortEntry { tle_ref: r, sortop: OpName::Gt }];
    assert!(choose_agg_topn(&mut s, true, &limit, &Node::null(), &by(2), &tlist, &aggs, &specs));
    let t = peek_agg_topn_info(&s).unwrap();
    assert_eq!((t.limit, t.sort_col, t.ascending), (10, 1, false));
    // By a column that is grouped by: PostgreSQL sorts.
    assert!(!choose_agg_topn(&mut s, true, &limit, &Node::null(), &by(1), &tlist, &aggs, &specs));
    assert!(peek_agg_topn_info(&s).is_none());
    assert!(!choose_agg_topn(&mut s, true, &limit, &Node::null(), &vec![], &tlist, &aggs, &specs));
    assert_eq!(peek_agg_topn_info(&s).unwrap().sort_col, -1);
    assert!(!choose_agg_topn(&mut s, false, &limit, &Node::null(), &by(2), &tlist, &aggs, &specs));
    assert!(peek_agg_topn_info(&s).is_none());
}

#[test]
fn numbers_of_groups() {
    let g = |expr: GroupByExpr| GroupByColSpec { col_idx: 0, type_oid: INT4OID, expr };
    let unit = |u: &[u8]| g(GroupByExpr::Extract { unit: u.to_vec(), func_oid: 1, divisor: 1 });
    let plain = || g(GroupByExpr::Column);
    assert_eq!(estimate_groups(&vec![plain(), unit(b"hour")], &vec![Some(10), None], true, 1000), Some(240));
    assert_eq!(estimate_groups(&vec![unit(b"dow"), unit(b"minutes")], &vec![None, None], true, 1000), Some(420));
    // No more than there are rows.
    assert_eq!(estimate_groups(&vec![plain(), unit(b"epoch")], &vec![Some(10), None], true, 1000), Some(1000));
    assert_eq!(estimate_groups(&vec![plain(), plain()], &vec![Some(i64::MAX), Some(0)], true, 1000), Some(0));
    assert_eq!(estimate_groups(&vec![plain()], &vec![None], true, 1000), None);
    assert_eq!(estimate_groups(&vec![unit(b"hour")], &vec![None], false, 1000), None);
    let trunc = g(GroupByExpr::DateTrunc { unit: b"hour".to_vec(), func_oid: 1 });
    assert_eq!(estimate_groups(&vec![trunc], &vec![Some(5)], true, 1000), None);

    assert!(grouping_too_fine(&vec![plain()], &vec![Some(501)], false, 1000));
    assert!(!grouping_too_fine(&vec![plain()], &vec![Some(500)], false, 1000));
    assert!(!grouping_too_fine(&vec![plain()], &vec![Some(501)], true, 1000));
    assert!(!grouping_too_fine(&vec![unit(b"hour")], &vec![Some(501)], false, 1000));

    assert_eq!(group_column_name(2, &events(), &None), Some("kind".to_string()));
    assert_eq!(group_column_name(-1, &events(), &None), None);
    assert_eq!(group_column_name(9, &events(), &None), None);
}

#[test]
fn what_statistics_say_of_a_grouping() {
    // By `kind`, a text column.
    let by_kind = vec![GroupByColSpec { col_idx: 2, type_oid: TEXTOID, expr: GroupByExpr::Column }];
    let rows = |total: i64, counts: &[(&str, i64)], has_where: bool, few: bool| GroupedRows {
        total,
        counts: counts.iter().map(|(n, c)| (n.to_string(), *c)).collect(),
        has_where,
        few,
        workers: 1,
    };
    let plan = |r: GroupedRows| plan_grouping(&by_kind, 500, &events(), &None, &r);
    assert_eq!(plan(rows(1000, &[("kind", 7), ("kind", 9)], false, false)), Grouping::Estimated(9));
    // Nothing is known of the column, of any column, or there are no rows.
    assert_eq!(plan(rows(1000, &[("other", 7)], false, false)), Grouping::Unknown);
    assert_eq!(plan(rows(1000, &[], false, false)), Grouping::Unknown);
    assert_eq!(plan(rows(0, &[("kind", 7)], false, false)), Grouping::Unknown);
    // More than half of the values are distinct.
    assert_eq!(plan(rows(1000, &[("kind", 501)], false, false)), Grouping::LeftToServer);
    assert_eq!(plan(rows(1000, &[("kind", 501)], true, false)), Grouping::Estimated(501));
    // Very many texts, of which few rows are left.
    let many = [("kind", 100_001)];
    assert_eq!(plan(rows(1_000_000, &many, true, true)), Grouping::LeftToServer);
    assert_eq!(plan(rows(1_000_000, &many, true, false)), Grouping::Estimated(100_001));
    let known = rows(1000, &[("kind", 7)], false, false);
    assert_eq!(plan_grouping(&by_kind, INVALID_OID, &events(), &None, &known), Grouping::Unknown);
    assert_eq!(plan_grouping(&vec![], 500, &events(), &None, &known), Grouping::Unknown);
}

// ---------------------------------------------------------------------------
// Descriptions
// ---------------------------------------------------------------------------

#[test]
fn descriptions_of_metadata_scans() {
    let a = MinMaxAggSpec {
        kind: MetaAggKind::Sum,
        varattno: 4,
        result_type_oid: INT8OID,
        col_type_oid: INT4OID,
        typlen: 8,
        typbyval: true,
        const_offset: -1,
    };
    let ints = build_minmax_path_private(&vec![7, 8], &vec![a], &Some(vec![65]));
    assert_eq!(ints, vec![7, 8, -1, 1, 2, 4, 20, 23, 8, 1, -1, -1, 1, 65]);
    let plan = plan_minmax_path(&ints).unwrap();
    assert_eq!(plan.custom_private, ints);
    assert_eq!((plan.columns[0].resno, plan.columns[0].type_oid), (1, INT8OID));
    assert!(matches!(plan_minmax_path(&vec![7, 8]), Err(PrivateError::MissingSeparator)));
    assert!(matches!(plan_minmax_path(&vec![7, -1, 1, 9]), Err(PrivateError::Malformed)));
}

fn groups() -> Vec<GroupByColSpec> {
    let g = |col_idx: i32, expr: GroupByExpr| GroupByColSpec { col_idx, type_oid: INT4OID, expr };
    vec![
        g(0, GroupByExpr::Column),
        g(1, GroupByExpr::DateTrunc { unit: b"hour".to_vec(), func_oid: 9 }),
        g(2, GroupByExpr::Extract { unit: b"dow".to_vec(), func_oid: 8, divisor: 1 << 40 }),
        g(3, GroupByExpr::AddConst { offset: -5, op_oid: 7 }),
        g(4, GroupByExpr::RegexpReplace {
            pattern: b"a".to_vec(),
            replacement: vec![],
            func_oid: 6,
            collation: 100,
        }),
        g(-1, GroupByExpr::CaseWhen(CaseWhenSpec {
            clauses: vec![CaseWhenClause {
                conditions: vec![CaseWhenCondition {
                    col_idx: 3,
                    op: CaseWhenOp::NotEq,
                    const_val: i64::MIN,
                }],
                result: CaseWhenValue::StringConst(b"x".to_vec()),
            }],
            default: CaseWhenValue::ColumnRef(2),
        })),
    ]
}

#[test]
fn descriptions_of_aggregate_paths() {
    let mut shifted = spec(AggType::Max, 5, INT8OID);
    shifted.output_transform = OutputTransform::PgUsShift { delta: -(1 << 40) };
    let mut offset = spec(AggType::Sum, 3, INT4OID);
    offset.expr_kind = AggExpr::AddConst;
    offset.const_offset = -4;
    let specs = vec![spec(AggType::CountStar, -1, 0), offset, shifted];
    let ints = build_agg_path_private(&vec![7, 8], &specs, &groups(), true);
    let p = parse_agg_path_private(&ints).unwrap();
    assert_eq!(p.companion_oids, vec![7, 8]);
    assert!(p.is_partial);
    assert_eq!(p.aggs.len(), 3);
    assert_eq!((p.aggs[1].col_idx, p.aggs[1].const_offset), (3, -4));
    assert_eq!(join_halves(p.aggs[2].output_hi, p.aggs[2].output_lo), -(1 << 40));
    assert_eq!(format!("{:?}", p.groups), format!("{:?}", groups()));
    assert!(parse_agg_path_private(&ints[..ints.len() / 2].to_vec()).is_none());
    let (v, end) = deserialize_case_when_value(&vec![1, 2, 65, 66], 0).unwrap();
    assert!(matches!(v, CaseWhenValue::StringConst(s) if s == b"AB"));
    assert_eq!(end, 4);
    assert!(deserialize_case_when_value(&vec![1, 2, 65], 0).is_none());
    // What is no UTF-8 is replaced.
    let (v, end) = deserialize_case_when_value(&vec![1, 3, 65, 0xff, 66], 0).unwrap();
    assert!(matches!(v, CaseWhenValue::StringConst(s) if s == "A\u{fffd}B".as_bytes()));
    assert_eq!(end, 5);
    let (v, _) = deserialize_case_when_value(&vec![1, 2, 0xc3, 0xa9], 0).unwrap();
    assert!(matches!(v, CaseWhenValue::StringConst(s) if s == "\u{e9}".as_bytes()));
}

#[test]
fn halves_of_integers() {
    for v in [0, 1, -1, i64::MIN, i64::MAX, 0x1234_5678_9abc_def0] {
        assert_eq!(join_halves(high_half(v), low_half(v)), v);
    }
}

#[test]
fn groupings_that_follow_from_others() {
    let g = |col_idx: i32, offset: Option<i32>| GroupByColSpec {
        col_idx,
        type_oid: INT4OID,
        expr: match offset {
            Some(offset) => GroupByExpr::AddConst { offset, op_oid: 551 },
            None => GroupByExpr::Column,
        },
    };
    let (kept, gone) = eliminate_redundant_groups(vec![g(2, Some(-1)), g(2, None), g(5, Some(3)), g(5, Some(1))]);
    assert_eq!(kept.iter().map(|k| k.col_idx).collect::<Vec<_>>(), vec![2, 5]);
    assert_eq!((gone[0].col_idx, gone[0].offset, gone[0].base_new_idx, gone[0].delta), (2, -1, 0, -1));
    assert_eq!((gone[1].col_idx, gone[1].offset, gone[1].base_new_idx, gone[1].delta), (5, 1, 1, -2));
}

#[test]
fn plans_of_aggregates() {
    let tlist = vec![
        entry(column(3, TEXTOID), 1, false),
        entry(column(9, INT4OID), 2, true),
        entry(count_star(), 3, false),
    ];
    let clean = clean_targetlist(&tlist);
    assert_eq!(clean.iter().map(|t| t.resno).collect::<Vec<_>>(), vec![1, 2]);
    let groups = vec![GroupByColSpec { col_idx: 2, type_oid: TEXTOID, expr: GroupByExpr::Column }];
    let outputs = build_output_map(&clean, &groups, &vec![], &None);
    assert_eq!(outputs, vec![Output::Group(0), Output::Agg(0)]);
    let path = build_agg_path_private(&vec![7], &vec![spec(AggType::CountStar, -1, 0)], &groups, false);
    let having = vec![HavingFilter { agg_idx: 0, op: HavingOp::Ge, const_val: 2 }];
    let plan = plan_agg_path(&path, &tlist, &None, &having, &None, &None).unwrap();
    assert_eq!(
        plan.custom_private,
        vec![
            7, -1, // tables
            1, 0, -1, 20, 0, 0, // the count
            1, 2, 25, 0, // the grouping
            2, 1, 0, 0, 0, // the outputs
            1, 0, 2, 2, // the filter
            0, // no conditions
            0, // no limit
            0,
        ]
    );
    assert!(plan_agg_path(&vec![7, -1, 3], &tlist, &None, &having, &None, &None).is_none());
}

#[test]
fn outputs_of_case_groupings() {
    let case = || node(Head::CaseExpr, vec![]);
    let by_case = || GroupByColSpec {
        col_idx: -1,
        type_oid: TEXTOID,
        expr: GroupByExpr::CaseWhen(CaseWhenSpec {
            clauses: vec![],
            default: CaseWhenValue::ColumnRef(2),
        }),
    };
    let by_column = || GroupByColSpec { col_idx: 2, type_oid: TEXTOID, expr: GroupByExpr::Column };
    // Each goes to the grouping in its place among those by a CASE.
    let groups = vec![by_column(), by_case(), by_case()];
    let tlist = vec![
        entry(case(), 1, false),
        entry(count_star(), 2, false),
        entry(case(), 3, false),
        entry(column(3, TEXTOID), 4, false),
    ];
    assert_eq!(
        build_output_map(&tlist, &groups, &vec![], &None),
        vec![Output::Group(1), Output::Agg(0), Output::Group(2), Output::Group(0)]
    );
    // One grouping serves both where there is only one.
    let one = vec![by_column(), by_case()];
    assert_eq!(
        build_output_map(&tlist, &one, &vec![], &None),
        vec![Output::Group(1), Output::Agg(0), Output::Group(1), Output::Group(0)]
    );
    // Entries that are not put out do not count.
    let tlist = vec![entry(case(), 1, true), entry(case(), 2, false)];
    assert_eq!(build_output_map(&tlist, &groups, &vec![], &None), vec![Output::Group(1)]);
    assert_eq!(
        build_output_map(&tlist, &vec![by_column()], &vec![], &None),
        vec![Output::Group(0)]
    );
}

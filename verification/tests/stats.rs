use cardinality_estimator::CardinalityEstimator;
use pg_deltax::pg_types::{
    BPCHAROID, DATEOID, FLOAT4OID, FLOAT8OID, INT2OID, INT4OID, INT8OID, JSONBOID, TEXTOID,
    TIMESTAMPOID, TIMESTAMPTZOID,
};
use pg_deltax::stats::assoc::{Assoc, Named};
use pg_deltax::stats::bounds::{
    build_histogram_bounds, downsample_bounds, histogram_eligible, max_hi,
    parent_histogram_bounds, Range, MAX_HISTOGRAM_BOUNDS,
};
use pg_deltax::stats::estimates::{
    column_stawidth, merge_ndistinct, nulls_of, rel_pages, stadistinct_value, stawidth_for_attlen,
    AttrInfo, ColumnSums, Stadistinct,
};
use pg_deltax::stats::json::{
    add_partition_counts, counts_of, parse_valcounts_json, parse_valmap_json, union_valmap_json,
    values_of, Member,
};
use pg_deltax::stats::partition::{
    analyze_partition_from_catalog, group_segment_mins, write_partition_stats, ColumnMeta,
    PartitionCatalog, RelationStats,
};
use pg_deltax::stats::segments::{colstats_fqn, pool_segment_mins, qualified_name, quote_ident};
use pg_deltax::stats::sketch::{estimate, merge_partition_hll_json, Sketch};
use pg_deltax::stats::slots::{
    correlation_operator, resolve_slots, slot_operator, statistic_row, Cell, Slot1, SlotNumbers,
    SlotValues,
};
use pg_deltax::stats::table::{
    table_column_stats, write_table_stats, NullSource, PartitionRow, TableData, TableTotals,
};
use pg_deltax::stats::values::{add_counts, mcv_freqs, ordered_mcv, Frequency, Values};

fn attr(attlen: i16, atttypid: u32) -> AttrInfo {
    AttrInfo { attname: "c".to_string(), attnum: 1, attlen, atttypid, attnotnull: false }
}

fn sums(nonnull: i64, length: i64) -> Option<ColumnSums> {
    Some(ColumnSums { nonnull, length })
}

fn counts(items: &[(&str, i64)]) -> Assoc<i64> {
    let mut out = Assoc::new();
    for (name, n) in items {
        out.push(name.to_string(), *n);
    }
    out
}

fn list(a: &Assoc<i64>) -> Vec<(String, i64)> {
    a.entries.iter().map(|e| (e.name.clone(), e.item)).collect()
}

fn ranges(items: &[(i64, i64)]) -> Vec<Range> {
    items.iter().map(|&(lo, hi)| Range { lo, hi }).collect()
}

fn freq(f: &Frequency) -> f32 {
    match f {
        Frequency::Even { of } => 1.0f32 / *of as f32,
        Frequency::Share { count, rows } => {
            ((*count as f64 / *rows as f64) as f32).clamp(f32::MIN_POSITIVE, 1.0)
        }
    }
}

fn freqs(list: &[Frequency]) -> Vec<f32> {
    list.iter().map(freq).collect()
}

fn stadistinct(nd: i64, rows: i64) -> f32 {
    match stadistinct_value(nd, rows) {
        Stadistinct::Unknown => 0.0,
        Stadistinct::Count { distinct } => distinct as f32,
        Stadistinct::Share { distinct, rows } => (-(distinct as f64) / rows as f64) as f32,
    }
}

#[test]
fn stawidth_for_attlen_uses_fixed_width_directly() {
    assert_eq!(stawidth_for_attlen(1), 1);
    assert_eq!(stawidth_for_attlen(8), 8);
    assert_eq!(stawidth_for_attlen(16), 16);
    assert_eq!(stawidth_for_attlen(-1), 32);
    assert_eq!(stawidth_for_attlen(-2), 32);
    assert_eq!(stawidth_for_attlen(0), 32);
}

#[test]
fn ordered_mcv_sorts_by_count_desc_and_caps() {
    let c = counts(&[("A", 50), ("B", 30), ("C", 20)]);
    let (vals, f) = ordered_mcv(&c, 100, 10);
    let f = freqs(&f);
    assert_eq!(vals, vec!["A", "B", "C"]);
    assert!((f[0] - 0.5).abs() < 1e-6);
    assert!((f[1] - 0.3).abs() < 1e-6);
    assert!((f[2] - 0.2).abs() < 1e-6);
    // Cap keeps only the top-N.
    let (vals2, freqs2) = ordered_mcv(&c, 100, 2);
    assert_eq!(vals2, vec!["A", "B"]);
    assert_eq!(freqs2.len(), 2);
}

#[test]
fn column_stawidth_uses_avg_length_for_text() {
    assert_eq!(column_stawidth(&attr(8, INT8OID), sums(100, 999)), 8);
    assert_eq!(column_stawidth(&attr(-1, TEXTOID), sums(100, 6000)), 61);
    assert_eq!(column_stawidth(&attr(-1, TEXTOID), sums(10, 2000)), 204);
    assert_eq!(column_stawidth(&attr(-1, TEXTOID), sums(100, 300)), 4);
}

#[test]
fn column_stawidth_falls_back_to_32() {
    assert_eq!(column_stawidth(&attr(-1, TEXTOID), None), 32);
    assert_eq!(column_stawidth(&attr(-1, TEXTOID), sums(0, 0)), 32);
    assert_eq!(column_stawidth(&attr(-1, JSONBOID), sums(100, 999999)), 32);
}

#[test]
fn column_stawidth_rounds_and_saturates() {
    // 7 / 2 rounds up, 5 / 4 rounds down.
    assert_eq!(column_stawidth(&attr(-1, BPCHAROID), sums(2, 7)), 5);
    assert_eq!(column_stawidth(&attr(-1, BPCHAROID), sums(4, 5)), 2);
    // 126.4 is a short header, 126.5 a long one.
    assert_eq!(column_stawidth(&attr(-1, TEXTOID), sums(10, 1264)), 127);
    assert_eq!(column_stawidth(&attr(-1, TEXTOID), sums(10, 1265)), 131);
    assert_eq!(column_stawidth(&attr(-1, TEXTOID), sums(1, i64::MAX)), i32::MAX);
}

/// The JSON object that holds a sketch under the name `k`.
fn sketch_json(values: std::ops::Range<u64>) -> String {
    let mut e = CardinalityEstimator::<u64>::new();
    for v in values {
        e.insert(&v);
    }
    let mut o = serde_json::Map::new();
    o.insert("k".to_string(), serde_json::to_value(&e).unwrap());
    serde_json::Value::Object(o).to_string()
}

#[test]
fn partition_hll_serialize_merge_roundtrip_unions_distinct() {
    let ja = sketch_json(0..1000);
    let jb = sketch_json(1000..2000);
    let mut acc: Assoc<Sketch> = Assoc::new();
    merge_partition_hll_json(&ja, &mut acc);
    merge_partition_hll_json(&jb, &mut acc);
    let est = estimate(&acc, "k").unwrap() as i64;
    assert!((1800..=2200).contains(&est), "union estimate off: {est}");
}

#[test]
fn merge_partition_hll_json_ignores_garbage() {
    let mut acc: Assoc<Sketch> = Assoc::new();
    merge_partition_hll_json("not json", &mut acc);
    merge_partition_hll_json("[1,2,3]", &mut acc); // not an object
    assert!(acc.entries.is_empty());
}

#[test]
fn sketches_of_small_sets_are_exact() {
    let mut acc: Assoc<Sketch> = Assoc::new();
    merge_partition_hll_json(&sketch_json(0..2), &mut acc);
    assert_eq!(estimate(&acc, "k"), Some(2));
    // One that is no sketch is passed over; the other columns stay as they are.
    merge_partition_hll_json(r#"{"k":"oops","other":[1]}"#, &mut acc);
    assert_eq!(estimate(&acc, "k"), Some(2));
    assert_eq!(estimate(&acc, "other"), None);
    merge_partition_hll_json(&sketch_json(1..5), &mut acc);
    assert_eq!(estimate(&acc, "k"), Some(5));
}

#[test]
fn sketches_that_are_none() {
    let words = |first: u32| {
        let mut w = vec!["0".to_string(); 771];
        w[0] = first.to_string();
        format!(r#"{{"k":[3,[{}]]}}"#, w.join(","))
    };
    let held = |text: &str| {
        let mut acc: Assoc<Sketch> = Assoc::new();
        merge_partition_hll_json(text, &mut acc);
        estimate(&acc, "k")
    };
    // All 4096 registers are zero; there are no more of them.
    assert_eq!(held(&words(4096)), Some(0));
    assert_eq!(held(&words(4097)), None);
    assert_eq!(held(&words(u32::MAX)), None);
    assert_eq!(held(r#"{"k":[3,[1,2,3]]}"#), None);
    // A sum that is no number stays one, whatever is merged in.
    let mut acc: Assoc<Sketch> = Assoc::new();
    merge_partition_hll_json(&words(4096).replacen(",0", ",2141192193", 1), &mut acc);
    merge_partition_hll_json(&sketch_json(0..1000), &mut acc);
    assert_eq!(estimate(&acc, "k"), Some(0));
    // Up to two hashes in the word itself, and lists of three to 128.
    assert_eq!(held(r#"{"k":[0,null]}"#), Some(0));
    assert_eq!(held(r#"{"k":[4,null]}"#), Some(1));
    assert_eq!(held(r#"{"k":[8589934596,null]}"#), Some(2));
    assert_eq!(held(r#"{"k":[0,[1,2,3]]}"#), None);
    assert_eq!(held(r#"{"k":[1,null]}"#), None);
    assert_eq!(held(r#"{"k":[1,[5,6]]}"#), None);
    assert_eq!(held(r#"{"k":[1,[5,6,7]]}"#), Some(3));
    assert_eq!(held(r#"{"k":[2,null]}"#), None);
    // Statistics go on without the sketch.
    let mut a = row(1000);
    a.hll = Some(words(4097));
    a.ndistinct = counts(&[("k", 7)]);
    let data = table_data(vec![column("k", 1, -1, TEXTOID)]);
    let s = write_table_stats(&vec![a], &data).unwrap();
    assert_eq!(s.columns[0].distinct, Stadistinct::Count { distinct: 7 });
}

#[test]
fn merge_ndistinct_in_any_order() {
    let nds = [[4, 9, 5, 7], [7, 5, 9, 4], [5, 4, 7, 9]];
    let rs = [
        ranges(&[(0, 10), (11, 20), (20, 30), (40, 50)]),
        ranges(&[(40, 50), (20, 30), (0, 10), (11, 20)]),
    ];
    for n in &nds {
        for r in &rs {
            assert_eq!(merge_ndistinct(n, r, 100), 25);
            assert_eq!(merge_ndistinct(n, r, 20), 20);
            assert_eq!(merge_ndistinct(n, &r[..3], 100), 9);
        }
    }
}

#[test]
fn merge_ndistinct_sums_disjoint_ranges() {
    let nds = [100, 100, 100];
    let r = ranges(&[(0, 99), (100, 199), (200, 299)]);
    assert_eq!(merge_ndistinct(&nds, &r, 10_000), 300);
}

#[test]
fn merge_ndistinct_maxes_overlapping_ranges() {
    let nds = [9, 8, 9];
    let r = ranges(&[(0, 8), (0, 8), (0, 8)]);
    assert_eq!(merge_ndistinct(&nds, &r, 10_000), 9);
}

#[test]
fn merge_ndistinct_caps_at_row_count() {
    let nds = [800, 800];
    let r = ranges(&[(0, 799), (800, 1599)]);
    assert_eq!(merge_ndistinct(&nds, &r, 1000), 1000);
}

#[test]
fn merge_ndistinct_at_its_edges() {
    assert_eq!(merge_ndistinct(&[], &[], 100), 0);
    assert_eq!(merge_ndistinct(&[0], &ranges(&[(0, 1)]), 100), 1);
    assert_eq!(merge_ndistinct(&[5], &[], 0), 1);
    // Without a range for each, the largest.
    assert_eq!(merge_ndistinct(&[5, 7], &ranges(&[(0, 1)]), 100), 7);
    // One of two neighbouring pairs overlaps: not fewer than half.
    let r = ranges(&[(20, 30), (0, 10), (10, 15)]);
    assert_eq!(merge_ndistinct(&[5, 7, 6], &r, 100), 7);
    // Sums past 64 bits are capped too.
    let r = ranges(&[(0, 1), (2, 3)]);
    assert_eq!(merge_ndistinct(&[i64::MAX, i64::MAX], &r, i64::MAX), i64::MAX);
}

#[test]
fn parent_histogram_bounds_builds_sorted_multibucket() {
    let r = ranges(&[(200, 299), (0, 99), (100, 199)]);
    let b = parent_histogram_bounds(INT4OID, &r).unwrap();
    assert_eq!(b, vec![0, 100, 200, 299]);
}

#[test]
fn build_histogram_bounds_from_segment_mins() {
    let b = build_histogram_bounds(INT4OID, &vec![0, 100, 200], 299, 101).unwrap();
    assert_eq!(b, vec![0, 100, 200, 299]);
    let b = build_histogram_bounds(INT4OID, &vec![0], 99, 101).unwrap();
    assert_eq!(b, vec![0, 99]);
    assert!(build_histogram_bounds(INT4OID, &vec![5], 5, 101).is_none());
    assert!(build_histogram_bounds(FLOAT8OID, &vec![0, 50], 100, 101).is_some());
    assert!(build_histogram_bounds(TEXTOID, &vec![0, 5], 9, 101).is_none());
    assert_eq!(
        build_histogram_bounds(INT8OID, &vec![0, 1, 2], 1000, 101).unwrap(),
        vec![0, 1000]
    );
}

#[test]
fn build_histogram_bounds_of_dates() {
    let day = 86_400_000_000i64;
    // Two of the smallest values fall on one day.
    let b = build_histogram_bounds(DATEOID, &vec![0, 2 * day, 2 * day + 1], 3 * day, 101).unwrap();
    assert_eq!(b, vec![0, 2 * day, 3 * day]);
    // All on one day.
    assert!(build_histogram_bounds(DATEOID, &vec![0, 5], 9, 101).is_none());
    assert!(build_histogram_bounds(DATEOID, &vec![0], 9, 101).is_none());
    assert!(build_histogram_bounds(INT8OID, &vec![], 9, 101).is_none());
    // The whole range of the integers.
    assert_eq!(
        build_histogram_bounds(INT8OID, &vec![i64::MIN], i64::MAX, 101).unwrap(),
        vec![i64::MIN, i64::MAX]
    );
}

#[test]
fn downsample_bounds_keeps_endpoints_and_caps() {
    let out = downsample_bounds((0..11).collect(), 5);
    assert_eq!(out.len(), 5);
    assert_eq!(out[0], 0);
    assert_eq!(*out.last().unwrap(), 10);
    assert!(out.windows(2).all(|w| w[0] < w[1]), "ascending: {out:?}");
    assert_eq!(downsample_bounds(vec![1, 2, 3], 100), vec![1, 2, 3]);
}

#[test]
fn downsample_bounds_at_even_distances() {
    assert_eq!(downsample_bounds((0..11).collect(), 5), vec![0, 2, 5, 7, 10]);
    assert_eq!(downsample_bounds(vec![1, 2, 3], 1), vec![1, 2, 3]);
    assert_eq!(downsample_bounds(vec![1, 2, 3], 2), vec![1, 3]);
}

#[test]
fn build_histogram_bounds_downsamples_many_segments() {
    let mins: Vec<i64> = (0..1000).collect();
    let b = build_histogram_bounds(INT8OID, &mins, 1000, MAX_HISTOGRAM_BOUNDS).unwrap();
    assert!(b.len() <= MAX_HISTOGRAM_BOUNDS, "len {}", b.len());
    assert_eq!(b[0], 0);
    assert_eq!(*b.last().unwrap(), 1000);
    assert!(b.windows(2).all(|w| w[0] < w[1]));
}

#[test]
fn parent_histogram_bounds_collapses_constant_range_to_two_points() {
    let b = parent_histogram_bounds(INT4OID, &ranges(&[(0, 27), (0, 27), (0, 27)])).unwrap();
    assert_eq!(b, vec![0, 27]);
}

#[test]
fn parent_histogram_bounds_none_for_ineligible_or_empty() {
    assert!(parent_histogram_bounds(TEXTOID, &ranges(&[(0, 9)])).is_none());
    assert!(parent_histogram_bounds(INT4OID, &[]).is_none());
    assert!(parent_histogram_bounds(INT4OID, &ranges(&[(5, 5), (5, 5)])).is_none());
}

#[test]
fn largest_upper_end() {
    assert_eq!(max_hi(&ranges(&[(0, 3), (0, 9), (0, 4)])), 9);
    assert_eq!(max_hi(&[]), i64::MIN);
}

#[test]
fn histogram_eligible_accepts_ordered_int_and_time_types() {
    assert!(histogram_eligible(INT2OID, 1, 2));
    assert!(histogram_eligible(INT4OID, 100, 9000));
    assert!(histogram_eligible(INT8OID, -5, 5));
    assert!(histogram_eligible(TIMESTAMPOID, 1_000_000, 2_000_000));
    assert!(histogram_eligible(TIMESTAMPTZOID, 1_000_000, 2_000_000));
}

#[test]
fn histogram_eligible_date_compares_at_day_granularity() {
    let day = 86_400_000_000i64;
    assert!(histogram_eligible(DATEOID, day, 3 * day));
    assert!(!histogram_eligible(DATEOID, 1, 100));
}

#[test]
fn histogram_eligible_rejects_constant_and_unsupported() {
    assert!(!histogram_eligible(INT4OID, 7, 7));
    assert!(!histogram_eligible(INT4OID, 9, 1));
    assert!(!histogram_eligible(TEXTOID, 0, 10));
}

#[test]
fn histogram_eligible_accepts_floats() {
    assert!(histogram_eligible(FLOAT4OID, 0, 10));
    assert!(histogram_eligible(FLOAT8OID, -5, 5));
    assert!(!histogram_eligible(FLOAT8OID, 3, 3));
}

#[test]
fn mcv_freqs_uses_real_per_value_counts() {
    let values = vec!["A".to_string(), "B".to_string()];
    let f = freqs(&mcv_freqs(&values, &counts(&[("A", 80), ("B", 20)]), 100));
    assert!((f[0] - 0.8).abs() < 1e-6, "freq(A)={}", f[0]);
    assert!((f[1] - 0.2).abs() < 1e-6, "freq(B)={}", f[1]);
    assert!((f.iter().sum::<f32>() - 1.0).abs() < 1e-6);
}

#[test]
fn mcv_freqs_sums_below_one_with_nulls() {
    let values = vec!["A".to_string(), "B".to_string()];
    let f = freqs(&mcv_freqs(&values, &counts(&[("A", 40), ("B", 20)]), 100));
    assert!((f.iter().sum::<f32>() - 0.6).abs() < 1e-6, "sum={}", f.iter().sum::<f32>());
}

#[test]
fn mcv_freqs_falls_back_to_uniform_without_counts() {
    let values = vec!["A".to_string(), "B".to_string(), "C".to_string(), "D".to_string()];
    let f = freqs(&mcv_freqs(&values, &counts(&[]), 100));
    assert_eq!(f.len(), 4);
    assert!(f.iter().all(|&x| (x - 0.25).abs() < 1e-6), "freqs={:?}", f);
}

#[test]
fn mcv_freqs_empty_and_zero_rowcount() {
    assert!(mcv_freqs(&[], &counts(&[]), 100).is_empty());
    let values = vec!["A".to_string(), "B".to_string()];
    let f = freqs(&mcv_freqs(&values, &counts(&[]), 0));
    assert!(f.iter().all(|&x| (x - 0.5).abs() < 1e-6));
}

#[test]
fn mcv_freqs_of_values_without_a_count() {
    let values = vec!["A".to_string(), "B".to_string(), "C".to_string()];
    let f = mcv_freqs(&values, &counts(&[("A", 80), ("B", -5)]), 100);
    assert_eq!(
        f,
        vec![
            Frequency::Share { count: 80, rows: 100 },
            Frequency::Share { count: 0, rows: 100 },
            Frequency::Share { count: 0, rows: 100 },
        ]
    );
    assert!(freq(&f[1]) > 0.0);
    assert_eq!(
        mcv_freqs(&values, &counts(&[("A", 1)]), -1),
        vec![Frequency::Even { of: 3 }; 3]
    );
}

#[test]
fn ordered_mcv_breaks_ties_by_value() {
    let (vals, _) = ordered_mcv(&counts(&[("b", 1), ("é", 1), ("a", 1), ("ab", 1), ("z", 2)]), 9, 9);
    assert_eq!(vals, vec!["z", "a", "ab", "b", "é"]);
    let (vals, f) = ordered_mcv(&counts(&[("a", 1)]), 9, 0);
    assert!(vals.is_empty() && f.is_empty());
}

#[test]
fn parse_valcounts_json_parses_nested_object() {
    let m = parse_valcounts_json(r#"{"kind":{"A":80,"B":20},"x":{"v":5}}"#);
    let kind = m.get("kind").unwrap();
    assert_eq!(*kind.get("A").unwrap(), 80);
    assert_eq!(*kind.get("B").unwrap(), 20);
    assert_eq!(*m.get("x").unwrap().get("v").unwrap(), 5);
}

#[test]
fn parse_valcounts_json_ignores_garbage() {
    assert!(parse_valcounts_json("not json").entries.is_empty());
    assert!(parse_valcounts_json("[1,2,3]").entries.is_empty()); // not an object
    assert!(parse_valcounts_json(r#"{"k":{"a":"oops"}}"#).entries.is_empty());
}

#[test]
fn parse_valcounts_json_keeps_what_are_integers() {
    let m = parse_valcounts_json(r#"{"k":{"a":1.5,"b":2,"c":18446744073709551615},"l":[1],"m":3}"#);
    assert_eq!(m.entries.len(), 1);
    assert_eq!(list(m.get("k").unwrap()), vec![("b".to_string(), 2)]);
    // Of two members of one name the last one counts.
    let m = parse_valcounts_json(r#"{"k":{"a":1,"a":2}}"#);
    assert_eq!(list(m.get("k").unwrap()), vec![("a".to_string(), 2)]);
}

#[test]
fn counts_of_given_members() {
    let mut inner: Assoc<Option<i64>> = Assoc::new();
    inner.push("a".to_string(), Some(4));
    inner.push("b".to_string(), None);
    let mut o: Assoc<Member> = Assoc::new();
    o.push("k".to_string(), Member::Object(inner));
    o.push("l".to_string(), Member::Array(vec![None, Some("v".to_string())]));
    o.push("m".to_string(), Member::Other);
    let c = counts_of(&o);
    assert_eq!(c.entries.len(), 1);
    assert_eq!(list(c.get("k").unwrap()), vec![("a".to_string(), 4)]);
    let v = values_of(&o);
    assert_eq!(v.entries.len(), 1);
    assert_eq!(v.get("l").unwrap().items, vec!["v"]);
}

#[test]
fn values_of_columns() {
    let m = parse_valmap_json(r#"{"k":["b",1,"a","b"],"l":[],"m":{"x":1}}"#);
    assert_eq!(m.entries.len(), 1);
    assert_eq!(m.get("k").unwrap().items, vec!["b", "a", "b"]);
    assert!(parse_valmap_json("nonsense").entries.is_empty());
}

#[test]
fn values_of_partitions_are_united() {
    let mut acc: Assoc<Values> = Assoc::new();
    union_valmap_json(r#"{"k":["b","a"],"l":[]}"#, &mut acc);
    union_valmap_json(r#"{"k":["c","b",7]}"#, &mut acc);
    union_valmap_json("nonsense", &mut acc);
    assert_eq!(acc.get("k").unwrap().items, vec!["a", "b", "c"]);
    assert!(acc.get("l").unwrap().items.is_empty());
    assert!(acc.get("m").is_none());
}

#[test]
fn counts_of_partitions_are_added() {
    let mut acc: Assoc<Assoc<i64>> = Assoc::new();
    add_partition_counts(&mut acc, &parse_valcounts_json(r#"{"k":{"a":1,"b":2}}"#));
    add_partition_counts(&mut acc, &parse_valcounts_json(r#"{"k":{"b":3},"l":{"x":1}}"#));
    assert_eq!(list(acc.get("k").unwrap()), vec![("a".to_string(), 1), ("b".to_string(), 5)]);
    assert_eq!(list(acc.get("l").unwrap()), vec![("x".to_string(), 1)]);
    let mut one = counts(&[("a", i64::MAX)]);
    add_counts(&mut one, &counts(&[("a", 1)]));
    assert_eq!(list(&one), vec![("a".to_string(), i64::MIN)]);
}

#[test]
fn stadistinct_value_returns_zero_for_unknown_inputs() {
    assert_eq!(stadistinct(0, 100), 0.0);
    assert_eq!(stadistinct(-1, 100), 0.0);
    assert_eq!(stadistinct(50, 0), 0.0);
    assert_eq!(stadistinct(50, -10), 0.0);
}

#[test]
fn stadistinct_value_emits_absolute_count_when_ndistinct_is_small() {
    assert_eq!(stadistinct(10, 1000), 10.0);
    assert_eq!(stadistinct(99, 1000), 99.0);
}

#[test]
fn stadistinct_value_flips_to_fraction_at_density_threshold() {
    let v = stadistinct(500, 1000);
    assert!((v - (-0.5)).abs() < 1e-6, "got {}", v);

    let v2 = stadistinct(900, 1000);
    assert!((v2 - (-0.9)).abs() < 1e-6, "got {}", v2);

    let v3 = stadistinct(101, 1000);
    assert!(v3 < 0.0, "boundary should flip to fraction form, got {}", v3);
}

#[test]
fn stadistinct_value_at_a_tenth() {
    assert_eq!(stadistinct_value(100, 1000), Stadistinct::Count { distinct: 100 });
    assert_eq!(
        stadistinct_value(i64::MAX, i64::MAX),
        Stadistinct::Share { distinct: i64::MAX, rows: i64::MAX }
    );
}

#[test]
fn null_rows_are_clamped() {
    assert_eq!(nulls_of(40, 100), 60);
    assert_eq!(nulls_of(140, 100), 0);
    assert_eq!(nulls_of(-5, 100), 100);
}

#[test]
fn pages_of_a_relation() {
    assert_eq!(rel_pages(0, 32), 1);
    assert_eq!(rel_pages(256, 32), 1);
    assert_eq!(rel_pages(257, 32), 2);
    assert_eq!(rel_pages(10, 10_000), 10);
    assert_eq!(rel_pages(10, -1), 1);
    assert_eq!(rel_pages(i64::MAX, 10_000), i32::MAX);
}

// ---------------------------------------------------------------------------
// Slots and rows
// ---------------------------------------------------------------------------

#[test]
fn slots_and_their_operators() {
    let histogram = Some(Slot1::Histogram { type_oid: INT4OID, bounds: vec![1, 2, 3] });
    let q = slot_operator(&histogram).unwrap();
    assert_eq!((q.type_oid, q.strategy), (INT4OID, 1));
    let short = Some(Slot1::Histogram { type_oid: INT4OID, bounds: vec![1] });
    assert!(slot_operator(&short).is_none());
    let mcv = Some(Slot1::Mcv {
        values: vec!["a".to_string(), "b".to_string()],
        freqs: vec![Frequency::Even { of: 2 }; 2],
    });
    let q = slot_operator(&mcv).unwrap();
    assert_eq!((q.type_oid, q.strategy), (TEXTOID, 3));
    assert!(slot_operator(&None).is_none());
    let q = correlation_operator(Some(DATEOID)).unwrap();
    assert_eq!((q.type_oid, q.strategy), (DATEOID, 1));
    assert!(correlation_operator(None).is_none());

    let slots = resolve_slots(&histogram, 97, Some(INT4OID), 97);
    assert_eq!(slots.len(), 2);
    assert_eq!((slots[0].stakind, slots[0].staop, slots[0].stacoll), (2, 97, 0));
    assert_eq!((slots[0].numbers, slots[0].values), (SlotNumbers::Absent, SlotValues::Bounds));
    assert_eq!((slots[1].stakind, slots[1].staop, slots[1].stacoll), (3, 97, 0));
    assert_eq!(slots[1].numbers, SlotNumbers::Correlation);
    let slots = resolve_slots(&mcv, 98, None, 0);
    assert_eq!(slots.len(), 1);
    assert_eq!((slots[0].stakind, slots[0].staop, slots[0].stacoll), (1, 98, 100));
    assert_eq!(slots[0].numbers, SlotNumbers::Frequencies);
    // Without their operators nothing is written.
    assert!(resolve_slots(&histogram, 0, Some(INT4OID), 0).is_empty());
    assert!(resolve_slots(&short, 97, None, 0).is_empty());
}

#[test]
fn rows_of_pg_statistic() {
    let histogram = Some(Slot1::Histogram { type_oid: INT4OID, bounds: vec![1, 2, 3] });
    let slots = resolve_slots(&histogram, 97, Some(INT4OID), 97);
    let row = statistic_row(1234, 5, true, 4, &slots);
    assert_eq!(row.len(), 31);
    assert_eq!(
        &row[..6],
        &[
            Cell::Oid(1234),
            Cell::Int2(5),
            Cell::Flag(true),
            Cell::NullFraction,
            Cell::Int4(4),
            Cell::Distinct,
        ]
    );
    assert_eq!(&row[6..9], &[Cell::Int2(2), Cell::Int2(3), Cell::Int2(0)]);
    assert_eq!(&row[11..14], &[Cell::Oid(97), Cell::Oid(97), Cell::Oid(0)]);
    assert_eq!(row[16], Cell::Oid(0));
    assert_eq!(row[21], Cell::Numbers(SlotNumbers::Absent));
    assert_eq!(row[22], Cell::Numbers(SlotNumbers::Correlation));
    assert_eq!(row[26], Cell::Values(SlotValues::Bounds));
    assert_eq!(row[30], Cell::Values(SlotValues::Absent));
}

// ---------------------------------------------------------------------------
// Partitions
// ---------------------------------------------------------------------------

fn column(name: &str, attnum: i16, attlen: i16, atttypid: u32) -> AttrInfo {
    AttrInfo { attname: name.to_string(), attnum, attlen, atttypid, attnotnull: false }
}

fn meta(name: &str, is_segment_by: bool) -> ColumnMeta {
    ColumnMeta { name: name.to_string(), is_segment_by }
}

fn minmax(items: &[(&str, i64, i64)]) -> Assoc<Range> {
    let mut out = Assoc::new();
    for (name, lo, hi) in items {
        out.push(name.to_string(), Range { lo: *lo, hi: *hi });
    }
    out
}

fn partition(row_count: i64) -> PartitionCatalog {
    PartitionCatalog {
        row_count,
        attrs: vec![
            column("id", 1, 8, INT8OID),
            column("kind", 2, -1, TEXTOID),
            column("url", 3, -1, TEXTOID),
            column("key", 4, -1, TEXTOID),
        ],
        columns: vec![
            meta("key", true),
            meta("id", false),
            meta("dropped", false),
            meta("kind", false),
            meta("url", false),
        ],
        ndistinct: counts(&[("id", 1000), ("kind", 1), ("url", 500), ("key", 2)]),
        sums: vec![
            (0, ColumnSums { nonnull: 1000, length: 0 }),
            (2, ColumnSums { nonnull: 600, length: 1800 }),
            (3, ColumnSums { nonnull: 0, length: 0 }),
        ],
        minmax: minmax(&[("id", 0, 999)]),
        segment_mins: vec![(0, vec![0, 250, 500, 750])],
        valmap: Some(r#"{"kind":["A","B"],"key":["x"]}"#.to_string()),
        valcounts: Some(r#"{"kind":{"A":400,"B":200},"key":{"x":900}}"#.to_string()),
        mcv: Some(r#"{"url":{"u1":50,"u2":70}}"#.to_string()),
    }
}

fn mcv_of(slot: &Option<Slot1>) -> (Vec<String>, Vec<Frequency>) {
    match slot {
        Some(Slot1::Mcv { values, freqs }) => (values.clone(), freqs.clone()),
        _ => panic!("no list of common values"),
    }
}

fn bounds_of(slot: &Option<Slot1>) -> Vec<i64> {
    match slot {
        Some(Slot1::Histogram { bounds, .. }) => bounds.clone(),
        _ => panic!("no histogram"),
    }
}

fn check_partition(s: &RelationStats) {
    assert_eq!(s.rows, 1000);
    let numbers: Vec<i16> = s.columns.iter().map(|c| c.attnum).collect();
    // The dropped column has no row.
    assert_eq!(numbers, vec![4, 1, 2, 3]);
    let (key, id, kind, url) = (&s.columns[0], &s.columns[1], &s.columns[2], &s.columns[3]);
    // One value only is not listed; its counts give the nulls.
    assert!(key.slot.is_none());
    assert_eq!((key.nulls, key.width), (100, 32));
    assert_eq!(key.distinct, Stadistinct::Count { distinct: 2 });
    assert_eq!(bounds_of(&id.slot), vec![0, 250, 500, 750, 999]);
    assert_eq!(id.correlation, Some(INT8OID));
    assert_eq!((id.nulls, id.width), (0, 8));
    assert_eq!(id.distinct, Stadistinct::Share { distinct: 1000, rows: 1000 });
    // All values are known, so there are no others.
    let (values, f) = mcv_of(&kind.slot);
    assert_eq!(values, vec!["A", "B"]);
    assert_eq!(f[0], Frequency::Share { count: 400, rows: 1000 });
    assert_eq!(kind.distinct, Stadistinct::Count { distinct: 2 });
    assert_eq!((kind.nulls, kind.width), (400, 4));
    assert_eq!(kind.correlation, None);
    // The most frequent values only.
    let (values, _) = mcv_of(&url.slot);
    assert_eq!(values, vec!["u2", "u1"]);
    assert_eq!(url.distinct, Stadistinct::Share { distinct: 500, rows: 1000 });
    assert_eq!((url.nulls, url.width), (0, 32));
    // 76 bytes a row.
    assert_eq!(s.pages, 10);
}

#[test]
fn statistics_of_a_partition() {
    check_partition(&write_partition_stats(partition(1000)).unwrap());
    assert!(write_partition_stats(partition(0)).is_none());
}

#[test]
fn distinct_counts_are_capped() {
    let mut p = partition(1000);
    p.ndistinct = counts(&[("id", 5000), ("kind", 1), ("url", 500), ("key", 2)]);
    check_partition(&analyze_partition_from_catalog(p).unwrap());
}

#[test]
fn histogram_of_the_extremes() {
    let mut p = partition(1000);
    p.segment_mins = vec![];
    let s = write_partition_stats(p).unwrap();
    assert_eq!(bounds_of(&s.columns[1].slot), vec![0, 999]);
    assert_eq!(s.columns[1].correlation, None);
    let mut p = partition(1000);
    p.minmax = minmax(&[("id", 7, 7)]);
    p.valmap = None;
    p.valcounts = Some("nonsense".to_string());
    let s = write_partition_stats(p).unwrap();
    assert!(s.columns[1].slot.is_none());
    assert!(s.columns[2].slot.is_none());
    // No counts: no nulls are known of a segment-by column.
    assert_eq!(s.columns[0].nulls, 0);
}

#[test]
fn segment_by_columns_have_no_segment_minima() {
    // The first minima are those of the first column that is not segment-by.
    let mut p = partition(1000);
    p.attrs[3] = column("key", 4, 8, INT8OID);
    p.minmax = minmax(&[("id", 0, 999), ("key", 5, 900)]);
    let s = write_partition_stats(p).unwrap();
    assert_eq!(bounds_of(&s.columns[0].slot), vec![5, 900]);
    assert_eq!(bounds_of(&s.columns[1].slot), vec![0, 250, 500, 750, 999]);
}

#[test]
fn not_null_columns_have_no_nulls() {
    let mut p = partition(1000);
    p.attrs[1].attnotnull = true;
    let s = write_partition_stats(p).unwrap();
    assert_eq!(s.columns[2].nulls, 0);
}

#[test]
fn smallest_values_by_column() {
    let rows = vec![(1, Some(5)), (0, Some(3)), (1, None), (1, Some(4))];
    let g = group_segment_mins(&rows);
    let find = |i: usize| g.iter().find(|e| e.0 == i).map(|e| e.1.clone());
    assert_eq!(find(0), Some(vec![3]));
    assert_eq!(find(1), Some(vec![5, 4]));
    assert_eq!(find(2), None);
}

// ---------------------------------------------------------------------------
// Tables
// ---------------------------------------------------------------------------

fn row(row_count: i64) -> PartitionRow {
    PartitionRow {
        row_count,
        ndistinct: counts(&[]),
        minmax: minmax(&[]),
        hll: None,
        valmap: None,
        valcounts: None,
        mcv: None,
    }
}

fn table_data(attrs: Vec<AttrInfo>) -> TableData {
    TableData { attrs, widths: vec![], segment_mins: Assoc::new() }
}

#[test]
fn statistics_of_a_table() {
    let mut a = row(600);
    a.ndistinct = counts(&[("id", 100), ("kind", 2)]);
    a.minmax = minmax(&[("id", 0, 99)]);
    a.valmap = Some(r#"{"kind":["B","A"]}"#.to_string());
    a.valcounts = Some(r#"{"kind":{"A":100,"B":500}}"#.to_string());
    let mut b = row(400);
    b.ndistinct = counts(&[("id", 100), ("kind", 3)]);
    b.minmax = minmax(&[("id", 100, 199)]);
    b.valmap = Some(r#"{"kind":["A","C","B"]}"#.to_string());
    b.valcounts = Some(r#"{"kind":{"A":300,"C":100}}"#.to_string());
    b.mcv = Some(r#"{"url":{"u1":3,"u2":2}}"#.to_string());
    let mut data = table_data(vec![
        column("id", 1, 8, INT8OID),
        column("kind", 2, -1, TEXTOID),
        column("url", 3, -1, TEXTOID),
    ]);
    data.attrs[0].attnotnull = true;
    data.widths = vec![(2, 3), (3, 0)];
    let s = write_table_stats(&vec![a, b], &data).unwrap();
    assert_eq!(s.rows, 1000);
    let (id, kind, url) = (&s.columns[0], &s.columns[1], &s.columns[2]);
    assert_eq!(bounds_of(&id.slot), vec![0, 100, 199]);
    assert_eq!(id.correlation, Some(INT8OID));
    assert_eq!(id.distinct, Stadistinct::Share { distinct: 200, rows: 1000 });
    assert_eq!((id.nulls, id.width), (NullSource::Zero, 8));
    let (values, f) = mcv_of(&kind.slot);
    assert_eq!(values, vec!["A", "B", "C"]);
    assert_eq!(f[0], Frequency::Share { count: 400, rows: 1000 });
    assert_eq!(kind.distinct, Stadistinct::Count { distinct: 3 });
    assert_eq!((kind.nulls, kind.width), (NullSource::Partitions, 3));
    let (values, _) = mcv_of(&url.slot);
    assert_eq!(values, vec!["u1", "u2"]);
    assert_eq!(url.distinct, Stadistinct::Unknown);
    assert_eq!(url.width, 32);
    // 43 bytes a row.
    assert_eq!(s.pages, 6);
    assert!(write_table_stats(&vec![row(0)], &data).is_none());
    assert!(write_table_stats(&vec![], &data).is_none());
}

#[test]
fn values_that_are_not_all_there_are() {
    // Two values are known of a column whose sketch says three.
    let mut a = row(1000);
    a.hll = Some(sketch_json(0..3));
    a.valmap = Some(r#"{"k":["A","B"]}"#.to_string());
    let data = table_data(vec![column("k", 1, -1, TEXTOID)]);
    let s = write_table_stats(&vec![a], &data).unwrap();
    assert!(s.columns[0].slot.is_none());
    assert_eq!(s.columns[0].distinct, Stadistinct::Count { distinct: 3 });
}

#[test]
fn columns_with_a_given_estimate() {
    let mut t = TableTotals::new();
    let mut a = row(1000);
    a.ndistinct = counts(&[("k", 7)]);
    a.valmap = Some(r#"{"k":["A","B"]}"#.to_string());
    t.add_partition(&a);
    let data = table_data(vec![column("k", 1, -1, TEXTOID)]);
    let distinct = |e: Option<usize>| table_column_stats(&t, &data, &data.attrs[0], e).distinct;
    assert_eq!(distinct(None), Stadistinct::Count { distinct: 7 });
    assert_eq!(distinct(Some(2)), Stadistinct::Count { distinct: 2 });
    assert_eq!(distinct(Some(0)), Stadistinct::Count { distinct: 1 });
    assert_eq!(distinct(Some(5000)), Stadistinct::Share { distinct: 1000, rows: 1000 });
    assert!(table_column_stats(&t, &data, &data.attrs[0], Some(2)).slot.is_some());
    assert!(table_column_stats(&t, &data, &data.attrs[0], Some(3)).slot.is_none());
}

#[test]
fn histograms_of_segments_come_first() {
    let mut a = row(100);
    a.minmax = minmax(&[("id", 0, 100)]);
    let mut data = table_data(vec![column("id", 1, 8, INT8OID)]);
    data.segment_mins.entries.push(Named { name: "id".to_string(), item: vec![60, 0, 30] });
    let s = write_table_stats(&vec![a], &data).unwrap();
    assert_eq!(bounds_of(&s.columns[0].slot), vec![0, 30, 60, 100]);
}

#[test]
fn smallest_values_are_pooled_by_name() {
    let attrs = vec![column("a", 1, 8, INT8OID), column("seg", 2, 8, INT8OID), column("b", 3, 8, INT8OID)];
    let parts = vec![
        vec![(0, vec![1, 2]), (1, vec![10])],
        vec![(1, vec![20, 30]), (7, vec![99])],
    ];
    let pooled = pool_segment_mins(&attrs, &vec!["seg".to_string()], &parts);
    assert_eq!(pooled.get("a").unwrap(), &vec![1, 2]);
    assert_eq!(pooled.get("b").unwrap(), &vec![10, 20, 30]);
    assert_eq!(pooled.entries.len(), 2);
}

#[test]
fn names_in_quotation_marks() {
    assert_eq!(quote_ident("a b"), "\"a b\"");
    assert_eq!(quote_ident("a\"b"), "\"a\"\"b\"");
    assert_eq!(qualified_name("s", "t"), "\"s\".\"t\"");
    assert_eq!(colstats_fqn("p\"1"), "\"_deltax_compressed\".\"p\"\"1_colstats\"");
}

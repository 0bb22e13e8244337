use mmap_scan::double::F64;
use mmap_scan::like::{
    classify_like_pattern, fast_eq, like_matches_bytes, LikeKind, PrecompiledFinder,
};
use mmap_scan::model::{
    ColumnType, OnDemandSchema, RowGroupMeta, ScanError, V4Footer, ZoneMap,
};
use mmap_scan::multi::MmapScanPred;
use mmap_scan::plain::PlainCodec;
use mmap_scan::storage::OnDemandStorage;

fn bitmap(n: usize, set: &[usize]) -> Vec<u8> {
    let mut out = vec![0u8; (n + 7) / 8];
    for &i in set {
        out[i / 8] |= 1 << (i % 8);
    }
    out
}

fn ints(v: &[i64]) -> Vec<u8> {
    let mut out = vec![0u8];
    out.extend_from_slice(&(v.len() as u64).to_le_bytes());
    for x in v {
        out.extend_from_slice(&x.to_le_bytes());
    }
    out
}

fn reals(v: &[f64]) -> Vec<u8> {
    let mut out = vec![0u8];
    out.extend_from_slice(&(v.len() as u64).to_le_bytes());
    for x in v {
        out.extend_from_slice(&x.to_bits().to_le_bytes());
    }
    out
}

fn strings(v: &[&str]) -> Vec<u8> {
    let mut out = vec![0u8];
    let mut data: Vec<u8> = Vec::new();
    out.extend_from_slice(&(v.len() as u64).to_le_bytes());
    out.extend_from_slice(&0u32.to_le_bytes());
    for s in v {
        data.extend_from_slice(s.as_bytes());
        out.extend_from_slice(&(data.len() as u32).to_le_bytes());
    }
    out.extend_from_slice(&(data.len() as u64).to_le_bytes());
    out.extend_from_slice(&data);
    out
}

fn dict(indices: &[u32], values: &[&str]) -> Vec<u8> {
    let mut out = vec![0u8];
    out.extend_from_slice(&(indices.len() as u64).to_le_bytes());
    out.extend_from_slice(&(values.len() as u64).to_le_bytes());
    for i in indices {
        out.extend_from_slice(&i.to_le_bytes());
    }
    let mut data: Vec<u8> = Vec::new();
    for s in values {
        out.extend_from_slice(&(data.len() as u32).to_le_bytes());
        data.extend_from_slice(s.as_bytes());
    }
    out.extend_from_slice(&(data.len() as u64).to_le_bytes());
    out.extend_from_slice(&data);
    out
}

fn bits(v: &[bool]) -> Vec<u8> {
    let mut out = vec![0u8];
    let set: Vec<usize> = (0..v.len()).filter(|&i| v[i]).collect();
    out.extend_from_slice(&(v.len() as u64).to_le_bytes());
    out.extend_from_slice(&bitmap(v.len(), &set));
    out
}

struct Rows {
    ids: Vec<u64>,
    implicit: bool,
    deleted: Vec<usize>,
    cols: Vec<(Vec<usize>, Vec<u8>)>,
    zones: Vec<ZoneMap>,
}

fn build(schema: &[(&str, ColumnType)], groups: &[Rows]) -> OnDemandStorage<PlainCodec> {
    let mut file = vec![0u8; 64];
    let mut row_groups: Vec<RowGroupMeta> = Vec::new();
    let mut col_offsets: Vec<Vec<u32>> = Vec::new();
    let mut total: u64 = 0;
    for g in groups {
        let n = g.ids.len();
        let mut body: Vec<u8> = Vec::new();
        if !g.implicit {
            for id in &g.ids {
                body.extend_from_slice(&id.to_le_bytes());
            }
        }
        body.extend_from_slice(&bitmap(n, &g.deleted));
        let mut offsets: Vec<u32> = Vec::new();
        for (missing, bytes) in &g.cols {
            offsets.push(body.len() as u32);
            body.extend_from_slice(&bitmap(n, missing));
            body.extend_from_slice(bytes);
        }
        let offset = file.len() as u64;
        let mut header = vec![0u8; 32];
        header[29] = 1;
        header[30] = if g.implicit { 1 } else { 0 };
        file.extend_from_slice(&header);
        file.extend_from_slice(&body);
        row_groups.push(RowGroupMeta {
            offset,
            data_size: (32 + body.len()) as u64,
            row_count: n as u32,
            min_id: *g.ids.first().unwrap_or(&0),
            max_id: *g.ids.last().unwrap_or(&0),
            deletion_count: g.deleted.len() as u32,
        });
        col_offsets.push(offsets);
        total += n as u64;
    }
    let footer_offset = file.len() as u64;
    let footer = V4Footer {
        schema: OnDemandSchema {
            columns: schema.iter().map(|(n, t)| (n.to_string(), *t)).collect(),
        },
        row_groups,
        col_offsets,
        zone_maps: groups.iter().map(|g| g.zones.clone()).collect(),
    };
    OnDemandStorage {
        footer: Some(footer),
        footer_offset,
        file: Some(file),
        codec: PlainCodec {},
        row_count: total,
        ids: Vec::new(),
        deleted: Vec::new(),
        next_id: 0,
        id_to_idx: None,
        delta_rows: 0,
        delta_ids: None,
        columns: Vec::new(),
        journal: Vec::new(),
    }
}

fn double(v: f64) -> F64 {
    F64::from_bits(v.to_bits())
}

/// Seven people in two row groups. The third one has no age, the sixth one is deleted.
fn people() -> OnDemandStorage<PlainCodec> {
    build(
        &[
            ("age", ColumnType::Int64),
            ("score", ColumnType::Float64),
            ("name", ColumnType::String),
            ("city", ColumnType::StringDict),
            ("member", ColumnType::Bool),
        ],
        &[
            Rows {
                ids: vec![10, 11, 12, 13],
                implicit: true,
                deleted: vec![],
                cols: vec![
                    (vec![2], ints(&[20, 30, 40, 50])),
                    (vec![], reals(&[1.5, 2.5, -1.0, 9.0])),
                    (vec![], strings(&["ann", "bob", "cy", "dora"])),
                    (vec![3], dict(&[1, 2, 1, 0], &["rome", "oslo"])),
                    (vec![], bits(&[true, false, true, true])),
                ],
                zones: vec![ZoneMap { col_idx: 0, is_float: false, min_bits: 20, max_bits: 50 }],
            },
            Rows {
                ids: vec![20, 25, 30],
                implicit: false,
                deleted: vec![1],
                cols: vec![
                    (vec![], ints(&[35, 60, 20])),
                    (vec![], reals(&[0.25, 3.0, 4.0])),
                    (vec![], strings(&["ann", "zed", "anna"])),
                    (vec![], dict(&[1, 1, 2], &["oslo", "paris"])),
                    (vec![], bits(&[false, true, true])),
                ],
                zones: vec![ZoneMap { col_idx: 0, is_float: false, min_bits: 20, max_bits: 60 }],
            },
        ],
    )
}

#[test]
fn range_leaves_out_missing_and_deleted_rows() {
    let st = people();
    let all = st.scan_numeric_range_mmap("age", double(20.0), double(60.0), None);
    assert_eq!(all, Ok(Some(vec![0, 1, 3, 4, 6])));
    let some = st.scan_numeric_range_mmap("age", double(20.0), double(35.5), None);
    assert_eq!(some, Ok(Some(vec![0, 1, 4, 6])));
    let none = st.scan_numeric_range_mmap("age", double(20.5), double(20.9), None);
    assert_eq!(none, Ok(Some(vec![])));
}

#[test]
fn range_on_reals() {
    let st = people();
    let r = st.scan_numeric_range_mmap("score", double(-1.0), double(2.5), None);
    assert_eq!(r, Ok(Some(vec![0, 1, 2, 4])));
}

#[test]
fn limit_takes_the_first_rows() {
    let st = people();
    let all = st.scan_numeric_range_mmap("age", double(20.0), double(60.0), None).unwrap().unwrap();
    for n in 1..=all.len() {
        let some = st.scan_numeric_range_mmap("age", double(20.0), double(60.0), Some(n));
        assert_eq!(some, Ok(Some(all[..n].to_vec())));
    }
}

#[test]
fn zone_maps_rule_out_row_groups() {
    let mut st = people();
    if let Some(f) = &mut st.footer {
        f.zone_maps[1][0].max_bits = 25;
    }
    let r = st.scan_numeric_range_mmap("age", double(30.0), double(60.0), Some(9));
    assert_eq!(r, Ok(Some(vec![1, 3])));
}

#[test]
fn unknown_columns_have_no_answer() {
    let st = people();
    assert_eq!(st.scan_numeric_range_mmap("size", double(0.0), double(1.0), None), Ok(None));
    assert_eq!(st.scan_bool_filter_mmap("size", true, None), Ok(None));
    assert_eq!(st.scan_like_filter_mmap("size", "a%", None), Ok(None));
}

#[test]
fn no_file_is_an_error() {
    let mut st = people();
    st.file = None;
    assert_eq!(
        st.scan_numeric_range_mmap("age", double(0.0), double(1.0), None),
        Err(ScanError::NotOpen)
    );
    assert_eq!(st.scan_string_filter_mmap("name", "ann", None), Err(ScanError::NotOpen));
}

#[test]
fn a_short_file_is_an_error() {
    let mut st = people();
    if let Some(f) = &mut st.file {
        f.truncate(100);
    }
    assert_eq!(
        st.scan_numeric_range_mmap("age", double(0.0), double(100.0), None),
        Err(ScanError::PastEof)
    );
}

#[test]
fn numbers_of_a_set() {
    let st = people();
    assert_eq!(st.scan_numeric_in_mmap("age", &[30, 60, 20], None), Ok(Some(vec![0, 1, 6])));
    assert_eq!(st.scan_numeric_in_mmap("age", &[7], None), Ok(Some(vec![])));
}

#[test]
fn identifiers_of_a_range() {
    let st = people();
    let r = st.scan_numeric_range_mmap_with_ids("age", double(20.0), double(35.0));
    assert_eq!(r, Ok(Some(vec![10, 11, 20, 30])));
}

#[test]
fn truth_values() {
    // The bits that are tested stand where the column starts.
    let rows = |first: u64, deleted: Vec<usize>, set: Vec<usize>| Rows {
        ids: vec![first, first + 1, first + 2],
        implicit: true,
        deleted,
        cols: vec![(set, vec![])],
        zones: vec![],
    };
    let st = build(
        &[("member", ColumnType::Bool)],
        &[rows(1, vec![], vec![0, 2]), rows(4, vec![1], vec![1, 2])],
    );
    assert_eq!(st.scan_bool_filter_mmap("member", true, None), Ok(Some(vec![0, 2, 5])));
    assert_eq!(st.scan_bool_filter_mmap("member", false, None), Ok(Some(vec![1, 3])));
    assert_eq!(st.scan_bool_filter_mmap("member", true, Some(2)), Ok(Some(vec![0, 2])));
    assert_eq!(people().scan_bool_filter_mmap("age", true, None), Ok(None));
}

#[test]
fn strings_that_equal() {
    let st = people();
    assert_eq!(st.scan_string_filter_mmap("name", "ann", None), Ok(Some(vec![0, 4])));
    assert_eq!(st.scan_string_filter_mmap("name", "zed", None), Ok(Some(vec![])));
    assert_eq!(st.scan_string_filter_mmap("city", "oslo", None), Ok(Some(vec![1, 4])));
    assert_eq!(st.scan_string_filter_mmap("city", "oslo", Some(1)), Ok(Some(vec![1])));
}

#[test]
fn strings_of_a_set() {
    let st = people();
    let values = vec!["bob".to_string(), "anna".to_string(), "zed".to_string()];
    assert_eq!(st.scan_string_in_mmap("name", &values, None), Ok(Some(vec![1, 6])));
    assert_eq!(st.count_string_in_set_mmap("name", &values), Ok(Some(2)));
    let cities = vec!["rome".to_string(), "paris".to_string()];
    assert_eq!(st.scan_string_in_mmap("city", &cities, None), Ok(Some(vec![0, 2, 6])));
    assert_eq!(st.count_string_in_set_mmap("city", &cities), Ok(Some(3)));
    assert_eq!(st.count_string_in_set_mmap("age", &cities), Ok(None));
    let one = vec!["x".to_string(), "x".to_string()];
    assert_eq!(st.count_string_in_set_mmap("age", &one), Ok(None));
}

fn owned(v: &[&str]) -> Vec<String> {
    v.iter().map(|s| s.to_string()).collect()
}

/// The people with the lengths of their names on record.
fn people_by_length() -> OnDemandStorage<PlainCodec> {
    let mut st = people();
    if let Some(f) = &mut st.footer {
        f.zone_maps[0].push(ZoneMap { col_idx: 2, is_float: false, min_bits: 2, max_bits: 4 });
        f.zone_maps[1].push(ZoneMap { col_idx: 2, is_float: false, min_bits: 3, max_bits: 4 });
    }
    st
}

#[test]
fn a_set_is_the_union_of_its_strings() {
    for st in [people(), people_by_length()] {
        for (col, values) in [
            ("name", owned(&["anna", "cy", "bob", "cy", "nobody"])),
            ("name", owned(&["cy", "cy"])),
            ("name", owned(&["a", "x"])),
            ("city", owned(&["paris", "rome", "rome"])),
            ("city", owned(&["oslo"])),
            ("name", owned(&[])),
        ] {
            let mut each: Vec<usize> = Vec::new();
            for v in &values {
                each.extend(st.scan_string_filter_mmap(col, v, None).unwrap().unwrap());
            }
            each.sort();
            each.dedup();
            let all = st.scan_string_in_mmap(col, &values, None).unwrap().unwrap();
            assert_eq!(all, each);
            assert!(all.windows(2).all(|w| w[0] < w[1]));
            let count = all.len() as i64;
            assert_eq!(st.count_string_in_set_mmap(col, &values), Ok(Some(count)));
            let turned: Vec<String> = values.iter().rev().cloned().collect();
            assert_eq!(st.count_string_in_set_mmap(col, &turned), Ok(Some(count)));
            for n in 0..=all.len() {
                assert_eq!(st.scan_string_in_mmap(col, &values, Some(n)), Ok(Some(all[..n].to_vec())));
            }
        }
    }
}

#[test]
fn a_set_is_the_union_where_a_place_is_not_on_record() {
    let mut st = people();
    if let Some(f) = &mut st.footer {
        f.col_offsets[1].clear();
    }
    let values = owned(&["bob", "anna", "ann", "bob"]);
    assert_eq!(st.scan_string_in_mmap("name", &values, None), Ok(Some(vec![0, 1, 4, 6])));
    assert_eq!(st.scan_string_in_mmap("name", &values, Some(3)), Ok(Some(vec![0, 1, 4])));
    assert_eq!(st.count_string_in_set_mmap("name", &values), Ok(Some(4)));
    assert_eq!(st.scan_string_filter_mmap("name", "ann", Some(1)), Ok(Some(vec![0])));
}

#[test]
fn a_set_predicate_is_any_of_its_strings() {
    let st = people_by_length();
    let values = owned(&["cy", "dora", "anna", "everyone"]);
    let preds = [MmapScanPred::StringIn { col: "name", values: &values }];
    let each: Vec<MmapScanPred> =
        values.iter().map(|v| MmapScanPred::StringEq { col: "name", value: v }).collect();
    assert_eq!(st.scan_multi_predicates_parallel(&preds), Ok(Some(vec![2, 3, 6])));
    assert_eq!(st.scan_multi_predicates_parallel(&each), Ok(Some(vec![2, 3, 6])));
}

#[test]
fn identifiers_are_those_of_the_rows() {
    let st = people();
    let ids: [u64; 7] = [10, 11, 12, 13, 20, 25, 30];
    for (low, high) in [(0.0, 100.0), (20.5, 35.0), (-3.0, 20.0), (60.0, 60.0)] {
        for col in ["age", "score"] {
            let rows = st.scan_numeric_range_mmap(col, double(low), double(high), None);
            let want: Vec<u64> = rows.unwrap().unwrap().iter().map(|&r| ids[r]).collect();
            let got = st.scan_numeric_range_mmap_with_ids(col, double(low), double(high));
            assert_eq!(got, Ok(Some(want)));
        }
    }
}

#[test]
fn identifiers_of_a_range_are_read_by_row_number() {
    for (low, high) in [(0.0, 100.0), (20.5, 35.0), (-3.0, 20.0), (60.0, 60.0)] {
        for col in ["age", "score"] {
            let mut st = people();
            let rows = st.scan_numeric_range_mmap(col, double(low), double(high), None);
            let ids = st.scan_numeric_range_mmap_with_ids(col, double(low), double(high));
            let read = st.read_ids_by_indices(&rows.unwrap().unwrap()).unwrap();
            let want: Vec<i64> = ids.unwrap().unwrap().iter().map(|&id| id as i64).collect();
            assert_eq!(read, want);
        }
    }
}

/// The people without the places of their columns on record.
fn people_without_places() -> OnDemandStorage<PlainCodec> {
    let mut st = people();
    if let Some(f) = &mut st.footer {
        f.col_offsets.clear();
    }
    st
}

#[test]
fn missing_numbers_lie_in_no_range() {
    for st in [people(), people_without_places()] {
        for limit in [None, Some(9)] {
            let r = st.scan_numeric_range_mmap("age", double(40.0), double(50.0), limit);
            assert_eq!(r, Ok(Some(vec![3])));
        }
        assert_eq!(st.scan_numeric_in_mmap("age", &[40, 50], None), Ok(Some(vec![3])));
        let ids = st.scan_numeric_range_mmap_with_ids("age", double(40.0), double(50.0));
        assert_eq!(ids, Ok(Some(vec![13])));
    }
}

#[test]
fn truth_values_in_a_range() {
    for st in [people(), people_without_places()] {
        for limit in [None, Some(9)] {
            let yes = st.scan_numeric_range_mmap("member", double(1.0), double(1.0), limit);
            assert_eq!(yes, Ok(Some(vec![0, 2, 3, 6])));
            let no = st.scan_numeric_range_mmap("member", double(0.0), double(0.0), limit);
            assert_eq!(no, Ok(Some(vec![1, 4])));
            let any = st.scan_numeric_range_mmap("member", double(0.0), double(1.0), limit);
            assert_eq!(any, Ok(Some(vec![0, 1, 2, 3, 4, 6])));
        }
        let some = st.scan_numeric_range_mmap("member", double(1.0), double(1.0), Some(2));
        assert_eq!(some, Ok(Some(vec![0, 2])));
    }
}

/// One row group of three rows whose strings have an encoding.
fn encoded(kind: ColumnType, encoding: u8, mut column: Vec<u8>) -> OnDemandStorage<PlainCodec> {
    column[0] = encoding;
    build(
        &[("name", kind)],
        &[Rows {
            ids: vec![1, 2, 3],
            implicit: true,
            deleted: vec![],
            cols: vec![(vec![], column)],
            zones: vec![],
        }],
    )
}

#[test]
fn strings_that_cannot_be_counted() {
    let two = owned(&["ann", "bob"]);
    let one = owned(&["ann"]);
    let text = strings(&["ann", "bob", "ann"]);
    let st = encoded(ColumnType::String, 0, text.clone());
    assert_eq!(st.count_string_in_set_mmap("name", &two), Ok(Some(3)));
    assert_eq!(st.count_string_in_set_mmap("name", &one), Ok(Some(2)));
    for encoding in [1, 2, 3, 9] {
        let st = encoded(ColumnType::String, encoding, text.clone());
        assert_eq!(st.count_string_in_set_mmap("name", &two), Ok(None));
    }
    let indices = dict(&[1, 2, 1], &["ann", "bob"]);
    let st = encoded(ColumnType::StringDict, 0, indices.clone());
    assert_eq!(st.count_string_in_set_mmap("name", &two), Ok(Some(3)));
    assert_eq!(st.count_string_in_set_mmap("name", &one), Ok(Some(2)));
    for encoding in [1, 2, 4] {
        let st = encoded(ColumnType::StringDict, encoding, indices.clone());
        assert_eq!(st.count_string_in_set_mmap("name", &two), Ok(None));
        assert_eq!(st.count_string_in_set_mmap("name", &one), Ok(None));
    }
}

#[test]
fn rows_of_a_string_ascend() {
    for mut st in [people(), people_by_length(), people_without_places()] {
        for (col, value) in [("name", "ann"), ("name", "cy"), ("city", "oslo"), ("city", "rome")] {
            let rows = st.scan_string_filter_mmap(col, value, None).unwrap().unwrap();
            assert!(rows.len() > 0);
            assert!(rows.windows(2).all(|w| w[0] < w[1]));
        }
        if let Some(f) = &mut st.footer {
            f.zone_maps.clear();
        }
        assert_eq!(st.scan_string_filter_mmap("name", "ann", None), Ok(Some(vec![0, 4])));
    }
}

#[test]
fn bounds_are_compared_as_they_are() {
    let st = people();
    let ages: [f64; 7] = [20.0, 30.0, f64::NAN, 50.0, 35.0, f64::NAN, 20.0];
    for (low, high) in [(19.9, 20.1), (20.0, 34.99), (-0.5, 0.5), (29.5, 50.0), (35.1, 49.9)] {
        let want: Vec<usize> = (0..7).filter(|&r| low <= ages[r] && ages[r] <= high).collect();
        let got = st.scan_numeric_range_mmap("age", double(low), double(high), None);
        assert_eq!(got, Ok(Some(want)));
    }
}

#[test]
fn patterns() {
    let st = people();
    assert_eq!(st.scan_like_filter_mmap("name", "an%", None), Ok(Some(vec![0, 4, 6])));
    assert_eq!(st.scan_like_filter_mmap("name", "%a", None), Ok(Some(vec![3, 6])));
    assert_eq!(st.scan_like_filter_mmap("name", "%o%", None), Ok(Some(vec![1, 3])));
    assert_eq!(st.scan_like_filter_mmap("name", "_o_", None), Ok(Some(vec![1])));
    assert_eq!(st.scan_like_filter_mmap("name", "a_n%", None), Ok(Some(vec![0, 4, 6])));
    assert_eq!(st.scan_like_filter_mmap("city", "%o", None), Ok(Some(vec![1, 4])));
    assert_eq!(st.scan_like_filter_mmap("name", "%", Some(2)), Ok(Some(vec![0, 1])));
}

#[test]
fn pattern_kinds() {
    let kind = |p: &str| classify_like_pattern(p);
    assert!(matches!(kind("ab%"), Some(LikeKind::Prefix(p)) if p == b"ab"));
    assert!(matches!(kind("%ab"), Some(LikeKind::Suffix(p)) if p == b"ab"));
    assert!(matches!(kind("%ab%"), Some(LikeKind::Contains(p)) if p == b"ab"));
    assert!(matches!(
        kind("a_b%"),
        Some(LikeKind::PrefixWildcardSuffix { prefix, suffix }) if prefix == b"a" && suffix == b"b"
    ));
    assert!(matches!(kind("%"), Some(LikeKind::Any)));
    assert!(matches!(kind("a%b_c"), Some(LikeKind::Regex(_))));
}

#[test]
fn expressions_are_escaped() {
    let dots = classify_like_pattern("a.%c_d").unwrap();
    assert!(like_matches_bytes(&dots, b"a.bbcxd"));
    assert!(!like_matches_bytes(&dots, b"axbbcxd"));
    assert!(!like_matches_bytes(&dots, &[b'a', b'.', 0xff, b'c', b'x', b'd']));
}

#[test]
fn finders_find_the_first_place() {
    let f = PrecompiledFinder::new(b"na");
    assert_eq!(f.find(b"banana"), Some(2));
    assert_eq!(f.find(b"bank"), None);
    assert!(fast_eq(b"abc", b"abc"));
    assert!(!fast_eq(b"abc", b"abd"));
    assert!(!fast_eq(b"abc", b"ab"));
}

#[test]
fn several_predicates() {
    let st = people();
    let preds = [
        MmapScanPred::NumericRange { col: "age", low: double(20.0), high: double(30.0) },
        MmapScanPred::StringEq { col: "name", value: "ann" },
    ];
    assert_eq!(st.scan_multi_predicates_parallel(&preds), Ok(Some(vec![0, 1, 4, 6])));
    let preds = [
        MmapScanPred::NumericIn { col: "age", values: &[50] },
        MmapScanPred::StringEq { col: "city", value: "oslo" },
    ];
    assert_eq!(st.scan_multi_predicates_parallel(&preds), Ok(Some(vec![1, 3, 4])));
    let values = vec!["ann".to_string()];
    let one = [MmapScanPred::StringIn { col: "name", values: &values }];
    let same = [MmapScanPred::StringEq { col: "name", value: "ann" }];
    assert_eq!(
        st.scan_multi_predicates_parallel(&one),
        st.scan_multi_predicates_parallel(&same)
    );
    let values = vec!["oslo".to_string(), "nowhere".to_string()];
    let preds = [MmapScanPred::StringIn { col: "city", values: &values }];
    assert_eq!(st.scan_multi_predicates_parallel(&preds), Ok(Some(vec![1, 4])));
    assert_eq!(st.scan_multi_predicates_parallel(&[]), Ok(Some(vec![])));
}

#[test]
fn all_rows_with_one_value() {
    let st = build(
        &[("kind", ColumnType::StringDict)],
        &[
            Rows {
                ids: vec![1, 2, 3],
                implicit: true,
                deleted: vec![],
                cols: vec![(vec![], dict(&[1, 1, 1], &["x"]))],
                zones: vec![],
            },
            Rows {
                ids: vec![4, 5],
                implicit: true,
                deleted: vec![],
                cols: vec![(vec![], dict(&[2, 2], &["y", "x"]))],
                zones: vec![],
            },
        ],
    );
    assert_eq!(st.string_eq_matches_all_mmap("kind", "x"), Ok(Some(true)));
    assert_eq!(st.string_eq_matches_all_mmap("kind", "y"), Ok(Some(false)));
    assert_eq!(people().string_eq_matches_all_mmap("city", "oslo"), Ok(None));
}

#[test]
fn packed_numbers() {
    // Four fields of three bits each above 100: 0, 5, 2, 7.
    let mut packed = vec![2u8];
    packed.extend_from_slice(&4u64.to_le_bytes());
    packed.push(3);
    packed.extend_from_slice(&100i64.to_le_bytes());
    let word: u16 = 5 << 3 | 2 << 6 | 7 << 9;
    packed.extend_from_slice(&word.to_le_bytes());
    let st = build(
        &[("n", ColumnType::Int64)],
        &[Rows {
            ids: vec![1, 2, 3, 4],
            implicit: true,
            deleted: vec![],
            cols: vec![(vec![], packed)],
            zones: vec![],
        }],
    );
    let r = st.scan_numeric_range_mmap("n", double(102.0), double(106.0), None);
    assert_eq!(r, Ok(Some(vec![1, 2])));
    assert_eq!(st.scan_numeric_in_mmap("n", &[100, 107], None), Ok(Some(vec![0, 3])));
}

use mmap_scan::double::F64;
use mmap_scan::groupby::GroupTally;
use mmap_scan::like::LikeKind;
use mmap_scan::model::{
    ColumnType, OnDemandSchema, RowGroupMeta, ScanError, V4Footer, ZoneMap,
};
use mmap_scan::plain::PlainCodec;
use mmap_scan::sorted::SortedCache;
use mmap_scan::stats::ColumnStats;
use mmap_scan::storage::OnDemandStorage;

fn bitmap(n: usize, set: &[usize]) -> Vec<u8> {
    let mut out = vec![0u8; (n + 7) / 8];
    for &i in set {
        out[i / 8] |= 1 << (i % 8);
    }
    out
}

fn ints(v: &[i64]) -> Vec<u8> {
    let mut out = vec![0u8];
    out.extend_from_slice(&(v.len() as u64).to_le_bytes());
    for x in v {
        out.extend_from_slice(&x.to_le_bytes());
    }
    out
}

fn reals(v: &[f64]) -> Vec<u8> {
    let mut out = vec![0u8];
    out.extend_from_slice(&(v.len() as u64).to_le_bytes());
    for x in v {
        out.extend_from_slice(&x.to_bits().to_le_bytes());
    }
    out
}

fn strings(v: &[&str]) -> Vec<u8> {
    let mut out = vec![0u8];
    let mut data: Vec<u8> = Vec::new();
    out.extend_from_slice(&(v.len() as u64).to_le_bytes());
    out.extend_from_slice(&0u32.to_le_bytes());
    for s in v {
        data.extend_from_slice(s.as_bytes());
        out.extend_from_slice(&(data.len() as u32).to_le_bytes());
    }
    out.extend_from_slice(&(data.len() as u64).to_le_bytes());
    out.extend_from_slice(&data);
    out
}

fn dict(indices: &[u32], values: &[&str]) -> Vec<u8> {
    let mut out = vec![0u8];
    out.extend_from_slice(&(indices.len() as u64).to_le_bytes());
    out.extend_from_slice(&(values.len() as u64).to_le_bytes());
    for i in indices {
        out.extend_from_slice(&i.to_le_bytes());
    }
    let mut data: Vec<u8> = Vec::new();
    for s in values {
        out.extend_from_slice(&(data.len() as u32).to_le_bytes());
        data.extend_from_slice(s.as_bytes());
    }
    out.extend_from_slice(&(data.len() as u64).to_le_bytes());
    out.extend_from_slice(&data);
    out
}

fn bits(v: &[bool]) -> Vec<u8> {
    let mut out = vec![0u8];
    let set: Vec<usize> = (0..v.len()).filter(|&i| v[i]).collect();
    out.extend_from_slice(&(v.len() as u64).to_le_bytes());
    out.extend_from_slice(&bitmap(v.len(), &set));
    out
}

struct Rows {
    ids: Vec<u64>,
    implicit: bool,
    deleted: Vec<usize>,
    cols: Vec<(Vec<usize>, Vec<u8>)>,
    zones: Vec<ZoneMap>,
}

fn build(schema: &[(&str, ColumnType)], groups: &[Rows]) -> OnDemandStorage<PlainCodec> {
    let mut file = vec![0u8; 64];
    let mut row_groups: Vec<RowGroupMeta> = Vec::new();
    let mut col_offsets: Vec<Vec<u32>> = Vec::new();
    let mut total: u64 = 0;
    for g in groups {
        let n = g.ids.len();
        let mut body: Vec<u8> = Vec::new();
        if !g.implicit {
            for id in &g.ids {
                body.extend_from_slice(&id.to_le_bytes());
            }
        }
        body.extend_from_slice(&bitmap(n, &g.deleted));
        let mut offsets: Vec<u32> = Vec::new();
        for (missing, bytes) in &g.cols {
            offsets.push(body.len() as u32);
            body.extend_from_slice(&bitmap(n, missing));
            body.extend_from_slice(bytes);
        }
        let offset = file.len() as u64;
        let mut header = vec![0u8; 32];
        header[29] = 1;
        header[30] = if g.implicit { 1 } else { 0 };
        file.extend_from_slice(&header);
        file.extend_from_slice(&body);
        row_groups.push(RowGroupMeta {
            offset,
            data_size: (32 + body.len()) as u64,
            row_count: n as u32,
            min_id: *g.ids.first().unwrap_or(&0),
            max_id: *g.ids.last().unwrap_or(&0),
            deletion_count: g.deleted.len() as u32,
        });
        col_offsets.push(offsets);
        total += n as u64;
    }
    let footer_offset = file.len() as u64;
    let footer = V4Footer {
        schema: OnDemandSchema {
            columns: schema.iter().map(|(n, t)| (n.to_string(), *t)).collect(),
        },
        row_groups,
        col_offsets,
        zone_maps: groups.iter().map(|g| g.zones.clone()).collect(),
    };
    OnDemandStorage {
        footer: Some(footer),
        footer_offset,
        file: Some(file),
        codec: PlainCodec {},
        row_count: total,
        ids: Vec::new(),
        deleted: Vec::new(),
        next_id: 0,
        id_to_idx: None,
        delta_rows: 0,
        delta_ids: None,
        columns: Vec::new(),
        journal: Vec::new(),
    }
}

fn double(v: f64) -> F64 {
    F64::from_bits(v.to_bits())
}

/// Seven people in two row groups. The third one has no age, the sixth one is deleted.
fn people() -> OnDemandStorage<PlainCodec> {
    build(
        &[
            ("age", ColumnType::Int64),
            ("score", ColumnType::Float64),
            ("name", ColumnType::String),
            ("city", ColumnType::StringDict),
            ("member", ColumnType::Bool),
        ],
        &[
            Rows {
                ids: vec![10, 11, 12, 13],
                implicit: true,
                deleted: vec![],
                cols: vec![
                    (vec![2], ints(&[20, 30, 40, 50])),
                    (vec![], reals(&[1.5, 2.5, -1.0, 9.0])),
                    (vec![], strings(&["ann", "bob", "cy", "dora"])),
                    (vec![3], dict(&[1, 2, 1, 0], &["rome", "oslo"])),
                    (vec![], bits(&[true, false, true, true])),
                ],
                zones: vec![ZoneMap { col_idx: 0, is_float: false, min_bits: 20, max_bits: 50 }],
            },
            Rows {
                ids: vec![20, 25, 30],
                implicit: false,
                deleted: vec![1],
                cols: vec![
                    (vec![], ints(&[35, 60, 20])),
                    (vec![], reals(&[0.25, 3.0, 4.0])),
                    (vec![], strings(&["ann", "zed", "anna"])),
                    (vec![], dict(&[1, 1, 2], &["oslo", "paris"])),
                    (vec![], bits(&[false, true, true])),
                ],
                zones: vec![ZoneMap { col_idx: 0, is_float: false, min_bits: 20, max_bits: 60 }],
            },
        ],
    )
}

fn one_group(schema: &[(&str, ColumnType)], cols: Vec<Vec<u8>>, n: u64) -> OnDemandStorage<PlainCodec> {
    build(
        schema,
        &[Rows {
            ids: (1..=n).collect(),
            implicit: true,
            deleted: vec![],
            cols: cols.into_iter().map(|c| (vec![], c)).collect(),
            zones: vec![],
        }],
    )
}

#[test]
fn distinct_values_in_a_range() {
    let st = people();
    let r = st.scan_distinct_dict_values_in_range("age", double(20.0), double(35.0), "city");
    assert_eq!(
        r,
        Ok(Some(vec!["oslo".to_string(), "paris".to_string(), "rome".to_string()]))
    );
    let r = st.scan_distinct_dict_values_in_range("age", double(30.0), double(60.0), "city");
    assert_eq!(r, Ok(Some(vec!["oslo".to_string()])));
    let r = st.scan_distinct_dict_values_in_range("age", double(0.0), double(1.0), "name");
    assert_eq!(r, Ok(None));
}

#[test]
fn what_is_no_number_lies_in_no_range() {
    let st = one_group(
        &[("x", ColumnType::Float64), ("d", ColumnType::StringDict)],
        vec![reals(&[1.0, f64::NAN, 5.0]), dict(&[1, 2, 3], &["a", "b", "c"])],
        3,
    );
    let r = st.scan_distinct_dict_values_in_range("x", double(0.0), double(2.0), "d");
    assert_eq!(r, Ok(Some(vec!["a".to_string()])));
    assert_eq!(st.count_age_out_in_range(0, 0, 3, double(0.0), double(2.0)), Ok(Some(2)));
}

#[test]
fn values_counted_in_two_ranges() {
    let st = people();
    let r = st.count_dict_values_two_ranges(
        "age",
        double(20.0),
        double(30.0),
        double(30.0),
        double(40.0),
        "city",
    );
    assert_eq!(
        r,
        Ok(Some(vec![
            ("oslo".to_string(), 1, 2),
            ("paris".to_string(), 1, 0),
            ("rome".to_string(), 1, 0),
        ]))
    );
}

#[test]
fn lossy_dictionary_values() {
    let mut column = dict(&[1, 1], &["ab"]);
    let n = column.len();
    column[n - 1] = 0xff;
    let st = one_group(
        &[("n", ColumnType::Int64), ("d", ColumnType::StringDict)],
        vec![ints(&[1, 2]), column],
        2,
    );
    let r = st.scan_distinct_dict_values_in_range("n", double(0.0), double(9.0), "d");
    assert_eq!(r, Ok(Some(vec!["a\u{fffd}".to_string()])));
}

#[test]
fn largest_and_smallest_numbers() {
    let st = people();
    let r = st.scan_top_k_indices_mmap("score", 3, true);
    assert_eq!(r, Ok(Some(vec![(3, double(9.0)), (6, double(4.0)), (1, double(2.5))])));
    let r = st.scan_top_k_indices_mmap("score", 2, false);
    assert_eq!(r, Ok(Some(vec![(2, double(-1.0)), (4, double(0.25))])));
    let r = st.scan_top_k_indices_mmap("age", 1, true);
    assert_eq!(r, Ok(Some(vec![(3, double(50.0))])));
}

#[test]
fn longest_and_shortest_strings() {
    let st = people();
    let r = st.scan_top_k_by_length_mmap("name", None, 3, true, false);
    assert_eq!(r, Ok(Some(vec![3, 6, 0])));
    let r = st.scan_top_k_by_length_mmap("name", Some("score"), 3, true, true);
    assert_eq!(r, Ok(Some(vec![3, 6, 1])));
    let r = st.scan_top_k_by_length_mmap("name", None, 1, false, false);
    assert_eq!(r, Ok(Some(vec![2])));
}

#[test]
fn statistics_of_a_column() {
    let st = people();
    let want = ColumnStats {
        addends: vec![double(20.0), double(30.0), double(50.0), double(35.0), double(20.0)],
        min: double(20.0),
        max: double(50.0),
    };
    assert_eq!(st.compute_column_stats_mmap("age"), Ok(Some(want)));
    assert_eq!(st.compute_column_stats_mmap("name"), Ok(None));
}

fn sum_of(t: &GroupTally) -> F64 {
    let mut sum = 0.0;
    for part in &t.parts {
        for v in part {
            sum += f64::from_bits(v.bits);
        }
    }
    double(sum)
}

fn count_of(t: &GroupTally) -> F64 {
    double(t.count as f64)
}

#[test]
fn groups_of_matching_rows() {
    let st = one_group(
        &[
            ("kind", ColumnType::StringDict),
            ("town", ColumnType::StringDict),
            ("price", ColumnType::Float64),
        ],
        vec![
            dict(&[1, 2, 1, 1, 1], &["a", "b"]),
            dict(&[1, 1, 2, 1, 3], &["x", "y", "z"]),
            reals(&[1.0, 50.0, 2.0, 4.0, 3.0]),
        ],
        5,
    );
    let r = st.filter_group_order("kind", "a", "town", Some("price"), sum_of, true, 10, 0);
    assert_eq!(
        r,
        Ok(Some(vec![
            ("x".to_string(), double(5.0)),
            ("z".to_string(), double(3.0)),
            ("y".to_string(), double(2.0)),
        ]))
    );
    let r = st.filter_group_order("kind", "a", "town", None, count_of, false, 1, 1);
    assert_eq!(r, Ok(Some(vec![("z".to_string(), double(1.0))])));
    let r = st.filter_group_order("kind", "c", "town", None, count_of, false, 9, 0);
    assert_eq!(r, Ok(None));
}

/// The numbers of a group in their order, as the digits of one number.
fn digits_of(t: &GroupTally) -> F64 {
    let mut all = 0.0;
    for part in &t.parts {
        for v in part {
            all = all * 10.0 + f64::from_bits(v.bits);
        }
    }
    double(all)
}

#[test]
fn groups_hold_their_rows_in_order() {
    let kinds = [["a", "b", "a", "a"], ["b", "a", "a", "a"]];
    let towns = [["x", "x", "y", "x"], ["y", "y", "x", "y"]];
    let column = |rows: &[&str; 4], values: &[&str; 2], behind: bool| {
        if behind {
            let place = |s: &&str| 1 + values.iter().position(|v| v == s).unwrap() as u32;
            dict(&rows.iter().map(place).collect::<Vec<u32>>(), values)
        } else {
            strings(rows)
        }
    };
    let kind_of = |behind: bool| if behind { ColumnType::StringDict } else { ColumnType::String };
    for (a, b) in [(true, true), (true, false), (false, true), (false, false)] {
        let group = |g: usize, deleted: Vec<usize>| Rows {
            ids: (1..=4).map(|i| (4 * g + i) as u64).collect(),
            implicit: true,
            deleted,
            cols: vec![
                (vec![], column(&kinds[g], &["b", "a"], a)),
                (vec![], column(&towns[g], &["y", "x"], b)),
                (vec![], reals(&[1.0, 2.0, 3.0, 4.0])),
            ],
            zones: vec![],
        };
        let st = build(
            &[("kind", kind_of(a)), ("town", kind_of(b)), ("price", ColumnType::Float64)],
            &[group(0, vec![]), group(1, vec![3])],
        );
        let r = st.filter_group_order("kind", "a", "town", None, count_of, true, 9, 0);
        assert_eq!(r, Ok(Some(vec![("x".to_string(), double(3.0)), ("y".to_string(), double(2.0))])));
        let r = st.filter_group_order("kind", "a", "town", Some("price"), digits_of, true, 9, 0);
        assert_eq!(
            r,
            Ok(Some(vec![("x".to_string(), double(143.0)), ("y".to_string(), double(32.0))]))
        );
    }
}

#[test]
fn sorted_columns_are_searched() {
    let st = build(
        &[("word", ColumnType::String), ("n", ColumnType::Int64)],
        &[
            Rows {
                ids: vec![1, 2, 3],
                implicit: true,
                deleted: vec![],
                cols: vec![
                    (vec![], strings(&["ant", "bear", "beaver"])),
                    (vec![], ints(&[1, 20, 3])),
                ],
                zones: vec![],
            },
            Rows {
                ids: vec![4, 5],
                implicit: true,
                deleted: vec![],
                cols: vec![(vec![], strings(&["bee", "cat"])), (vec![], ints(&[40, 5]))],
                zones: vec![],
            },
        ],
    );
    assert_eq!(st.detect_column_sorted(0), Ok(true));
    assert_eq!(people().detect_column_sorted(2), Ok(false));
    assert_eq!(st.prefix_like_range_sorted(0, b"be"), Ok(Some((1, 4))));
    assert_eq!(st.prefix_like_range_sorted(0, b"x"), Ok(Some((5, 5))));
    let f = st.footer.as_ref().unwrap();
    let file = st.file.as_ref().unwrap();
    assert_eq!(st.lower_bound_sorted(0, b"bee", f, file), Ok(3));
    assert_eq!(st.count_age_out_in_range(1, 1, 4, double(0.0), double(10.0)), Ok(Some(2)));
    let kind = LikeKind::Prefix(b"be".to_vec());
    assert_eq!(
        st.try_not_filter_count_sorted(1, double(0.0), double(10.0), 0, &kind),
        Ok(Some(0))
    );
    assert_eq!(
        st.scan_not_filter_count_mmap("n", double(1.0), double(2.0), "word", "be%"),
        Ok(Some(1))
    );
    assert_eq!(
        st.scan_not_filter_count_mmap("n", double(1.0), double(2.0), "word", "%be"),
        Ok(Some(4))
    );
    assert_eq!(st.prefix_like_range_sorted(0, b""), Ok(Some((0, 5))));
    assert_eq!(st.prefix_like_range_sorted(0, b"be\xff"), Ok(Some((4, 4))));
    assert_eq!(st.prefix_like_range_sorted(0, b"\xff"), Ok(Some((5, 5))));
}

#[test]
fn counting_by_order_is_counting_by_row() {
    let words = ["ant", "bear", "beaver", "bee", "cat"];
    let numbers = [1i64, 20, 3, 40, 5];
    let table = |order: &[usize]| {
        one_group(
            &[("word", ColumnType::String), ("n", ColumnType::Int64)],
            vec![
                strings(&order.iter().map(|&i| words[i]).collect::<Vec<&str>>()),
                ints(&order.iter().map(|&i| numbers[i]).collect::<Vec<i64>>()),
            ],
            order.len() as u64,
        )
    };
    let sorted = table(&[0, 1, 2, 3, 4]);
    let mixed = table(&[3, 0, 4, 1, 2]);
    assert_eq!(sorted.detect_column_sorted(0), Ok(true));
    assert_eq!(mixed.detect_column_sorted(0), Ok(false));
    for pattern in ["be%", "b%", "x%", "ant%", "beaver%"] {
        for (low, high) in [(1.0, 2.0), (0.0, 10.0), (3.5, 4.5), (100.0, 200.0)] {
            let by_order =
                sorted.scan_not_filter_count_mmap("n", double(low), double(high), "word", pattern);
            let by_row =
                mixed.scan_not_filter_count_mmap("n", double(low), double(high), "word", pattern);
            assert_eq!(by_order, by_row);
            assert!(matches!(by_order, Ok(Some(_))));
        }
    }
}

#[test]
fn what_was_found_of_an_order_is_kept() {
    let st = one_group(&[("word", ColumnType::String)], vec![strings(&["a", "b"])], 2);
    let mut cache = SortedCache { entries: std::collections::HashMap::new() };
    assert!(st.column_sorted_cached(&mut cache, Some(7), 1, 0));
    assert_eq!(cache.entries.get(&0), Some(&(7, 1, true)));
    cache.entries.insert(0, (7, 1, false));
    assert!(!st.column_sorted_cached(&mut cache, Some(7), 1, 0));
    assert!(st.column_sorted_cached(&mut cache, Some(8), 1, 0));
}

#[test]
fn row_groups_that_a_filter_cannot_match() {
    let f = people().footer.unwrap();
    assert_eq!(OnDemandStorage::<PlainCodec>::zone_map_prune_rgs(&f, 0, ">", double(50.0)), vec![0]);
    assert_eq!(OnDemandStorage::<PlainCodec>::zone_map_prune_rgs(&f, 0, ">=", double(50.0)), vec![]);
    assert_eq!(OnDemandStorage::<PlainCodec>::zone_map_prune_rgs(&f, 0, "<", double(20.0)), vec![0, 1]);
    assert_eq!(OnDemandStorage::<PlainCodec>::zone_map_prune_rgs(&f, 0, "=", double(55.0)), vec![0]);
}

#[test]
fn range_estimates() {
    let st = people();
    assert_eq!(
        st.estimate_zone_map_range("age", double(55.0), double(99.0)),
        Some((2, 6, 1, 2))
    );
    assert_eq!(st.estimate_zone_map_range("score", double(0.0), double(1.0)), None);
}

#[test]
fn a_column_without_strings_has_no_lengths() {
    let st = people();
    assert_eq!(st.scan_top_k_by_length_mmap("age", None, 1, true, false), Ok(None));
    let mut closed = people();
    closed.file = None;
    assert_eq!(
        closed.scan_top_k_by_length_mmap("name", None, 1, true, false),
        Err(ScanError::NotOpen)
    );
}

#[test]
fn counts_of_two_stretches_add_up() {
    let st = one_group(&[("n", ColumnType::Int64)], vec![ints(&[1, 20, 3, 40, 50])], 5);
    let count = |from: usize, to: usize| {
        st.count_age_out_in_range(0, from, to, double(0.0), double(10.0)).unwrap().unwrap()
    };
    assert_eq!(count(0, 5), 3);
    for mid in 0..=5 {
        assert_eq!(count(0, mid) + count(mid, 5), 3);
    }
}

#[test]
fn the_order_of_rows_decides_among_equals() {
    let st = one_group(
        &[("s", ColumnType::String), ("n", ColumnType::Int64)],
        vec![strings(&["bb", "aa", "c", "dd"]), ints(&[1, 1, 9, 0])],
        4,
    );
    let r = st.scan_top_k_by_length_mmap("s", Some("n"), 4, true, true);
    assert_eq!(r, Ok(Some(vec![0, 1, 3, 2])));
    let r = st.scan_top_k_by_length_mmap("s", Some("n"), 2, true, false);
    assert_eq!(r, Ok(Some(vec![3, 0])));
}

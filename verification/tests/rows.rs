use mmap_scan::arrays::{convert_column, ArrayDesc};
use mmap_scan::batch::{BatchDesc, FieldType};
use mmap_scan::column::ColumnData;
use mmap_scan::double::F64;
use mmap_scan::like_extract::LikeBatch;
use mmap_scan::model::{
    ColumnType, OnDemandSchema, RowGroupMeta, ScanError, V4Footer, ZoneMap,
};
use mmap_scan::plain::PlainCodec;
use mmap_scan::reads::ColumnIndexEntry;
use mmap_scan::retrieve::MmapBatchColumns;
use mmap_scan::row_batch::{MmapBatchColumn, RowsBatch, RowsColumn};
use mmap_scan::storage::OnDemandStorage;

fn bitmap(n: usize, set: &[usize]) -> Vec<u8> {
    let mut out = vec![0u8; (n + 7) / 8];
    for &i in set {
        out[i / 8] |= 1 << (i % 8);
    }
    out
}

fn ints(v: &[i64]) -> Vec<u8> {
    let mut out = vec![0u8];
    out.extend_from_slice(&(v.len() as u64).to_le_bytes());
    for x in v {
        out.extend_from_slice(&x.to_le_bytes());
    }
    out
}

fn reals(v: &[f64]) -> Vec<u8> {
    let mut out = vec![0u8];
    out.extend_from_slice(&(v.len() as u64).to_le_bytes());
    for x in v {
        out.extend_from_slice(&x.to_bits().to_le_bytes());
    }
    out
}

fn strings(v: &[&str]) -> Vec<u8> {
    let mut out = vec![0u8];
    let mut data: Vec<u8> = Vec::new();
    out.extend_from_slice(&(v.len() as u64).to_le_bytes());
    out.extend_from_slice(&0u32.to_le_bytes());
    for s in v {
        data.extend_from_slice(s.as_bytes());
        out.extend_from_slice(&(data.len() as u32).to_le_bytes());
    }
    out.extend_from_slice(&(data.len() as u64).to_le_bytes());
    out.extend_from_slice(&data);
    out
}

fn dict(indices: &[u32], values: &[&str]) -> Vec<u8> {
    let mut out = vec![0u8];
    out.extend_from_slice(&(indices.len() as u64).to_le_bytes());
    out.extend_from_slice(&(values.len() as u64).to_le_bytes());
    for i in indices {
        out.extend_from_slice(&i.to_le_bytes());
    }
    let mut data: Vec<u8> = Vec::new();
    for s in values {
        out.extend_from_slice(&(data.len() as u32).to_le_bytes());
        data.extend_from_slice(s.as_bytes());
    }
    out.extend_from_slice(&(data.len() as u64).to_le_bytes());
    out.extend_from_slice(&data);
    out
}

fn bits(v: &[bool]) -> Vec<u8> {
    let mut out = vec![0u8];
    let set: Vec<usize> = (0..v.len()).filter(|&i| v[i]).collect();
    out.extend_from_slice(&(v.len() as u64).to_le_bytes());
    out.extend_from_slice(&bitmap(v.len(), &set));
    out
}

struct Rows {
    ids: Vec<u64>,
    implicit: bool,
    deleted: Vec<usize>,
    cols: Vec<(Vec<usize>, Vec<u8>)>,
    zones: Vec<ZoneMap>,
}

fn build(schema: &[(&str, ColumnType)], groups: &[Rows]) -> OnDemandStorage<PlainCodec> {
    let mut file = vec![0u8; 64];
    let mut row_groups: Vec<RowGroupMeta> = Vec::new();
    let mut col_offsets: Vec<Vec<u32>> = Vec::new();
    let mut total: u64 = 0;
    for g in groups {
        let n = g.ids.len();
        let mut body: Vec<u8> = Vec::new();
        if !g.implicit {
            for id in &g.ids {
                body.extend_from_slice(&id.to_le_bytes());
            }
        }
        body.extend_from_slice(&bitmap(n, &g.deleted));
        let mut offsets: Vec<u32> = Vec::new();
        for (missing, bytes) in &g.cols {
            offsets.push(body.len() as u32);
            body.extend_from_slice(&bitmap(n, missing));
            body.extend_from_slice(bytes);
        }
        let offset = file.len() as u64;
        let mut header = vec![0u8; 32];
        header[29] = 1;
        header[30] = if g.implicit { 1 } else { 0 };
        file.extend_from_slice(&header);
        file.extend_from_slice(&body);
        row_groups.push(RowGroupMeta {
            offset,
            data_size: (32 + body.len()) as u64,
            row_count: n as u32,
            min_id: *g.ids.first().unwrap_or(&0),
            max_id: *g.ids.last().unwrap_or(&0),
            deletion_count: g.deleted.len() as u32,
        });
        col_offsets.push(offsets);
        total += n as u64;
    }
    let footer_offset = file.len() as u64;
    let footer = V4Footer {
        schema: OnDemandSchema {
            columns: schema.iter().map(|(n, t)| (n.to_string(), *t)).collect(),
        },
        row_groups,
        col_offsets,
        zone_maps: groups.iter().map(|g| g.zones.clone()).collect(),
    };
    OnDemandStorage {
        footer: Some(footer),
        footer_offset,
        file: Some(file),
        codec: PlainCodec {},
        row_count: total,
        ids: Vec::new(),
        deleted: Vec::new(),
        next_id: 0,
        id_to_idx: None,
        delta_rows: 0,
        delta_ids: None,
        columns: Vec::new(),
        journal: Vec::new(),
    }
}

fn double(v: f64) -> F64 {
    F64::from_bits(v.to_bits())
}

/// Seven people in two row groups. The third one has no age, the sixth one is deleted.
fn people() -> OnDemandStorage<PlainCodec> {
    build(
        &[
            ("age", ColumnType::Int64),
            ("score", ColumnType::Float64),
            ("name", ColumnType::String),
            ("city", ColumnType::StringDict),
            ("member", ColumnType::Bool),
        ],
        &[
            Rows {
                ids: vec![10, 11, 12, 13],
                implicit: true,
                deleted: vec![],
                cols: vec![
                    (vec![2], ints(&[20, 30, 40, 50])),
                    (vec![], reals(&[1.5, 2.5, -1.0, 9.0])),
                    (vec![], strings(&["ann", "bob", "cy", "dora"])),
                    (vec![3], dict(&[1, 2, 1, 0], &["rome", "oslo"])),
                    (vec![], bits(&[true, false, true, true])),
                ],
                zones: vec![ZoneMap { col_idx: 0, is_float: false, min_bits: 20, max_bits: 50 }],
            },
            Rows {
                ids: vec![20, 25, 30],
                implicit: false,
                deleted: vec![1],
                cols: vec![
                    (vec![], ints(&[35, 60, 20])),
                    (vec![], reals(&[0.25, 3.0, 4.0])),
                    (vec![], strings(&["ann", "zed", "anna"])),
                    (vec![], dict(&[1, 1, 2], &["oslo", "paris"])),
                    (vec![], bits(&[false, true, true])),
                ],
                zones: vec![ZoneMap { col_idx: 0, is_float: false, min_bits: 20, max_bits: 60 }],
            },
        ],
    )
}

fn texts(v: &[&str]) -> Vec<Option<String>> {
    v.iter().map(|s| Some(s.to_string())).collect()
}

fn named(name: &str, col: MmapBatchColumn) -> (String, MmapBatchColumn) {
    (name.to_string(), col)
}

#[test]
fn a_batch_of_all_rows() {
    let st = people();
    let r = st.describe_batch_range(Some(&["age", "name"]), true, 0, None, false);
    let want = BatchDesc::Rows {
        with_id: true,
        ids: vec![10, 11, 12, 13, 20, 30],
        columns: vec![
            (
                "age".to_string(),
                ArrayDesc::Int64 {
                    values: vec![20, 30, 40, 50, 35, 20],
                    valid: Some(vec![true, true, false, true, true, true]),
                },
            ),
            (
                "name".to_string(),
                ArrayDesc::Utf8 {
                    values: texts(&["ann", "bob", "cy", "dora", "ann", "anna"]),
                    large: false,
                },
            ),
        ],
    };
    assert_eq!(r, Ok(Some(want)));
}

#[test]
fn a_batch_of_a_range() {
    let st = people();
    let r = st.describe_batch_range(Some(&["score"]), false, 3, Some(2), false);
    let want = BatchDesc::Rows {
        with_id: false,
        ids: vec![13, 20],
        columns: vec![(
            "score".to_string(),
            ArrayDesc::Float64 { values: vec![double(9.0), double(0.25)], valid: None },
        )],
    };
    assert_eq!(r, Ok(Some(want)));
    let r = st.describe_batch_range(Some(&["score"]), true, 6, Some(2), false);
    let want = BatchDesc::Rows {
        with_id: true,
        ids: vec![],
        columns: vec![(
            "score".to_string(),
            ArrayDesc::Float64 { values: vec![], valid: None },
        )],
    };
    assert_eq!(r, Ok(Some(want)));
}

#[test]
fn a_batch_of_no_rows() {
    let st = build(&[("score", ColumnType::Float64), ("name", ColumnType::String)], &[]);
    let r = st.describe_batch_range(None, true, 0, None, false);
    let want = BatchDesc::Empty {
        with_id: true,
        fields: vec![
            ("score".to_string(), FieldType::Float64),
            ("name".to_string(), FieldType::Utf8),
        ],
    };
    assert_eq!(r, Ok(Some(want)));
}

#[test]
fn few_different_texts_become_a_dictionary() {
    let mut data: Vec<u8> = Vec::new();
    let mut offsets: Vec<u64> = vec![0];
    for i in 0..1200 {
        data.extend_from_slice(if i % 3 == 0 { b"yes" } else { b"no" });
        offsets.push(data.len() as u64);
    }
    let col = ColumnData::String { offsets, data };
    let r = convert_column(&PlainCodec {}, ColumnType::String, &col, &vec![false; 1200], 1200, true);
    match r {
        Ok(ArrayDesc::Dictionary { keys, values }) => {
            assert_eq!(values, vec!["yes".to_string(), "no".to_string()]);
            assert_eq!(keys.len(), 1200);
            for i in 0..1200 {
                assert_eq!(values[keys[i] as usize], if i % 3 == 0 { "yes" } else { "no" });
            }
        }
        other => panic!("{:?}", other),
    }
}

#[test]
fn dates_and_times() {
    let col = ColumnData::Int64(vec![5, 0x1_0000_0001]);
    let none = vec![false, false];
    let r = convert_column(&PlainCodec {}, ColumnType::Date, &col, &none, 2, false);
    assert_eq!(r, Ok(ArrayDesc::Date { values: vec![5, 1], valid: None }));
    let r = convert_column(&PlainCodec {}, ColumnType::Timestamp, &col, &none, 2, false);
    assert_eq!(r, Ok(ArrayDesc::Timestamp { values: vec![5, 0x1_0000_0001], valid: None }));
}

#[test]
fn rows_by_number() {
    let st = people();
    let r = st.describe_rows_by_indices(&[0, 2, 6], Some(&["_id", "NAME", "age"]));
    let want = RowsBatch::Rows {
        with_id: true,
        ids: vec![10, 12, 30],
        columns: vec![
            (
                "age".to_string(),
                RowsColumn::Typed(MmapBatchColumn::I64(vec![Some(20), None, Some(20)])),
            ),
            (
                "name".to_string(),
                RowsColumn::Typed(MmapBatchColumn::Str(texts(&["ann", "cy", "anna"]))),
            ),
        ],
    };
    assert_eq!(r, Ok(Some(want)));
    assert_eq!(st.describe_rows_by_indices(&[], None), Ok(Some(RowsBatch::NoFields)));
}

#[test]
fn columns_of_rows_by_number() {
    let st = people();
    let r = st.extract_rows_by_indices_mmap_columns(&[5, 4, 1], Some(&["_id", "city", "age"]));
    let want = MmapBatchColumns {
        row_count: 2,
        columns: vec![
            named("_id", MmapBatchColumn::I64(vec![Some(20), Some(11)])),
            named("age", MmapBatchColumn::I64(vec![Some(35), Some(30)])),
            named("city", MmapBatchColumn::Str(texts(&["oslo", "oslo"]))),
        ],
    };
    assert_eq!(r, Ok(Some(want)));
}

#[test]
fn rows_by_identifier() {
    let st = people();
    let columns = vec!["age".to_string()];
    let r = st.retrieve_many_mmap_columns_projected(&[30, 13, 25, 99], &columns);
    let want = MmapBatchColumns {
        row_count: 2,
        columns: vec![
            named("_id", MmapBatchColumn::I64(vec![Some(30), Some(13)])),
            named("age", MmapBatchColumn::I64(vec![Some(20), Some(50)])),
        ],
    };
    assert_eq!(r, Ok(Some(want)));
    let all = st.retrieve_many_mmap_columns(&[11]).unwrap().unwrap();
    assert_eq!(all.row_count, 1);
    assert_eq!(all.columns[3], named("name", MmapBatchColumn::Str(texts(&["bob"]))));
}

#[test]
fn rows_together_are_the_rows_alone() {
    let st = people();
    let columns = vec!["age".to_string()];
    let ids = [30u64, 13, 25, 10];
    let together = st.retrieve_many_mmap_columns_projected(&ids, &columns).unwrap().unwrap();
    let mut ages: Vec<Option<i64>> = Vec::new();
    for id in ids {
        let alone = st.retrieve_many_mmap_columns_projected(&[id], &columns).unwrap().unwrap();
        if alone.row_count > 0 {
            match &alone.columns[1].1 {
                MmapBatchColumn::I64(v) => ages.extend(v.iter().copied()),
                _ => panic!("not integers"),
            }
        }
    }
    assert_eq!(together.row_count, ages.len());
    assert_eq!(together.columns[1], named("age", MmapBatchColumn::I64(ages)));
}

#[test]
fn deleted_identifiers_are_not_visible() {
    let st = people();
    let with = st.retrieve_many_mmap_columns_visible(&[10, 11], &[]).unwrap().unwrap();
    let without = st.retrieve_many_mmap_columns_visible(&[10, 11], &[10]).unwrap().unwrap();
    assert_eq!(with.row_count, 2);
    assert_eq!(without.row_count, 1);
    assert_eq!(without.columns[0], named("_id", MmapBatchColumn::I64(vec![Some(11)])));
}

#[test]
fn matching_rows_with_their_columns() {
    let st = people();
    let r = st.describe_like_rows("name", "an%", Some(2)).unwrap().unwrap();
    assert_eq!(r.ids, vec![10, 20]);
    assert_eq!(r.columns[0], named("age", MmapBatchColumn::I64(vec![Some(20), Some(35)])));
    assert_eq!(r.columns[2], named("name", MmapBatchColumn::Str(texts(&["ann", "ann"]))));
    let none = st.describe_like_rows("name", "q%", None);
    assert!(matches!(none, Ok(Some(LikeBatch { ids, .. })) if ids.is_empty()));
}

#[test]
fn matching_rows_are_those_of_the_scan() {
    let st = people();
    let ids: [i64; 7] = [10, 11, 12, 13, 20, 25, 30];
    for (col, pattern) in [("name", "an%"), ("name", "%a"), ("name", "_o%"), ("city", "%o")] {
        for limit in [None, Some(0), Some(1), Some(2)] {
            let rows = st.scan_like_filter_mmap(col, pattern, limit).unwrap().unwrap();
            let want: Vec<i64> = rows.iter().map(|&r| ids[r]).collect();
            let got = st.describe_like_rows(col, pattern, limit).unwrap().unwrap();
            assert_eq!(got.ids, want);
        }
    }
}

#[test]
fn matching_rows_hold_the_cells_of_the_scan() {
    let st = people();
    let ages = [Some(20), Some(30), None, Some(50), Some(35), Some(60), Some(20)];
    let scores = [1.5, 2.5, -1.0, 9.0, 0.25, 3.0, 4.0];
    let names = ["ann", "bob", "cy", "dora", "ann", "zed", "anna"];
    let cities = [
        Some("rome"), Some("oslo"), Some("rome"), None, Some("oslo"), Some("oslo"), Some("paris"),
    ];
    let members = [true, false, true, true, false, true, true];
    for (col, pattern) in [("name", "%n%"), ("name", "%a"), ("name", "_o%"), ("city", "%o%")] {
        for limit in [None, Some(1), Some(2)] {
            let rows = st.scan_like_filter_mmap(col, pattern, limit).unwrap().unwrap();
            let got = st.describe_like_rows(col, pattern, limit).unwrap().unwrap();
            let age = rows.iter().map(|&r| ages[r]).collect();
            let score = rows.iter().map(|&r| Some(double(scores[r]))).collect();
            let name = rows.iter().map(|&r| Some(names[r].to_string())).collect();
            let city = rows.iter().map(|&r| cities[r].map(|c| c.to_string())).collect();
            let member = rows.iter().map(|&r| Some(members[r])).collect();
            assert_eq!(
                got.columns,
                vec![
                    named("age", MmapBatchColumn::I64(age)),
                    named("score", MmapBatchColumn::F64(score)),
                    named("name", MmapBatchColumn::Str(name)),
                    named("city", MmapBatchColumn::Str(city)),
                    named("member", MmapBatchColumn::Bool(member)),
                ]
            );
        }
    }
}

#[test]
fn a_batch_shows_the_values_of_its_rows() {
    let live = [0usize, 1, 2, 3, 4, 6];
    let scores = [1.5, 2.5, -1.0, 9.0, 0.25, 3.0, 4.0];
    let names = ["ann", "bob", "cy", "dora", "ann", "zed", "anna"];
    let cities = [
        Some("rome"), Some("oslo"), Some("rome"), None, Some("oslo"), Some("oslo"), Some("paris"),
    ];
    let members = [true, false, true, true, false, true, true];
    let mut walked = people();
    if let Some(f) = &mut walked.footer {
        f.col_offsets.clear();
    }
    for st in [people(), walked] {
        for offset in 0..live.len() {
            for limit in [None, Some(1), Some(3)] {
                let end = match limit {
                    None => live.len(),
                    Some(n) => live.len().min(offset + n),
                };
                let rows = &live[offset..end];
                let r = st.describe_batch_range(
                    Some(&["score", "name", "city", "member"]),
                    false,
                    offset,
                    limit,
                    false,
                );
                let columns = match r {
                    Ok(Some(BatchDesc::Rows { columns, .. })) => columns,
                    other => panic!("no rows: {:?}", other),
                };
                let score = rows.iter().map(|&r| double(scores[r])).collect();
                assert_eq!(columns[0].1, ArrayDesc::Float64 { values: score, valid: None });
                let name = rows.iter().map(|&r| Some(names[r].to_string())).collect();
                assert_eq!(columns[1].1, ArrayDesc::Utf8 { values: name, large: false });
                let city = rows.iter().map(|&r| cities[r].map(|c| c.to_string())).collect();
                assert_eq!(columns[2].1, ArrayDesc::Utf8 { values: city, large: false });
                let member = rows.iter().map(|&r| Some(members[r])).collect();
                assert_eq!(columns[3].1, ArrayDesc::Bool { values: member });
            }
        }
    }
}

#[test]
fn a_batch_starts_at_its_offset() {
    let st = people();
    let live: [i64; 6] = [10, 11, 12, 13, 20, 30];
    let ages = [Some(20), Some(30), None, Some(50), Some(35), Some(20)];
    for offset in 0..=live.len() {
        for limit in [None, Some(0), Some(1), Some(3), Some(9)] {
            let end = match limit {
                None => live.len(),
                Some(n) => live.len().min(offset + n),
            };
            let r = st.describe_batch_range(Some(&["score", "age"]), true, offset, limit, false);
            match r {
                Ok(Some(BatchDesc::Rows { ids, columns, .. })) => {
                    assert_eq!(ids, live[offset..end].to_vec());
                    match &columns[1].1 {
                        ArrayDesc::Int64 { values, valid } => {
                            assert_eq!(values.len(), end - offset);
                            for j in 0..values.len() {
                                let there = valid.as_ref().map_or(true, |b| b[j]);
                                assert_eq!(there, ages[offset + j].is_some());
                                assert!(!there || Some(values[j]) == ages[offset + j]);
                            }
                        }
                        other => panic!("no integers: {:?}", other),
                    }
                }
                other => panic!("no rows: {:?}", other),
            }
        }
    }
}

#[test]
fn texts_for_search() {
    let st = people();
    let names = vec!["name".to_string()];
    let (ids, cols) = st.read_fts_string_columns_mmap(&names, false).unwrap().unwrap();
    assert_eq!(ids, vec![10, 11, 12, 13, 20, 30]);
    assert_eq!(
        cols,
        vec![ColumnData::String {
            offsets: vec![0, 3, 6, 8, 12, 15, 19],
            data: b"annbobcydoraannanna".to_vec(),
        }]
    );
    assert_eq!(st.read_fts_string_columns_mmap(&names, true), Ok(None));
}

#[test]
fn whole_columns() {
    let st = people();
    let f = st.footer.as_ref().unwrap();
    let (cols, deleted) = st.scan_columns_mmap(&[0], f).unwrap();
    assert_eq!(cols, vec![ColumnData::Int64(vec![20, 30, 40, 50, 35, 60, 20])]);
    assert_eq!(deleted, vec![0, 2]);
    let all = st.scan_columns_mmap_with_nulls(&[0, 2], f).unwrap();
    assert_eq!(all.nulls, vec![vec![4, 0], vec![0, 0]]);
    let (cols, deleted) = st.scan_columns_mmap_skip_rgs(&[0], f, &[0]).unwrap();
    assert_eq!(cols, vec![ColumnData::Int64(vec![35, 60, 20])]);
    assert_eq!(deleted, vec![2]);
}

#[test]
fn stretches_of_one_column() {
    let st = people();
    let mut file: Vec<u8> = vec![9, 9];
    file.extend_from_slice(&ints(&[7, 8, 9])[1..]);
    let at = ColumnIndexEntry { data_offset: 2, data_length: 32 };
    let r = st.read_column_range_mmap(&file, &at, ColumnType::Int64, 1, 2);
    assert_eq!(r, Ok(ColumnData::Int64(vec![8, 9])));
    let r = st.read_column_range_mmap(&file, &at, ColumnType::Int64, 2, 2);
    assert_eq!(r, Err(ScanError::ReadPastEnd));
    let r = st.read_column_scattered_mmap(&file, &at, ColumnType::Int64, &[2, 0]);
    assert_eq!(r, Ok(ColumnData::Int64(vec![9, 7])));

    let mut file: Vec<u8> = strings(&["ab", "c", "def"])[1..].to_vec();
    let at = ColumnIndexEntry { data_offset: 0, data_length: file.len() as u64 };
    let r = st.read_variable_column_range_mmap(&file, &at, ColumnType::String, 1, 2);
    assert_eq!(r, Ok(ColumnData::String { offsets: vec![0, 1, 4], data: b"cdef".to_vec() }));
    let r = st.read_variable_column_scattered_mmap(&file, &at, ColumnType::String, &[2, 0]);
    assert_eq!(r, Ok(ColumnData::String { offsets: vec![0, 3, 5], data: b"defab".to_vec() }));
    file.truncate(4);
    let r = st.read_variable_column_range_mmap(&file, &at, ColumnType::String, 0, 1);
    assert_eq!(r, Err(ScanError::ReadPastEnd));
}

#[test]
fn dictionary_stretches() {
    let st = people();
    let file: Vec<u8> = dict(&[1, 2, 1], &["ab", "c"])[1..].to_vec();
    let at = ColumnIndexEntry { data_offset: 0, data_length: file.len() as u64 };
    let want = |indices: Vec<u32>| ColumnData::StringDict {
        indices,
        dict_offsets: vec![0, 2],
        dict_data: b"abc".to_vec(),
    };
    let r = st.read_string_dict_column_range_mmap(&file, &at, 1, 2);
    assert_eq!(r, Ok(want(vec![2, 1])));
    let r = st.read_string_dict_column_scattered_mmap(&file, &at, &[1, 0]);
    assert_eq!(r, Ok(want(vec![2, 1])));
}

#[test]
fn columns_in_memory() {
    let mut st = people();
    st.columns = vec![ColumnData::Int64(vec![4, 5, 6, 7])];
    assert_eq!(
        st.read_column_auto(0, ColumnType::Int64, 1, 2),
        ColumnData::Int64(vec![5, 6])
    );
    assert_eq!(
        st.read_column_auto(1, ColumnType::Int64, 0, 2),
        ColumnData::Int64(vec![0, 0])
    );
    assert_eq!(
        st.read_column_scattered_auto(0, ColumnType::Int64, &[3, 0]),
        ColumnData::Int64(vec![7, 4])
    );
}

#[test]
fn a_row_group_that_lacks_a_column() {
    let mut st = people();
    if let Some(f) = &mut st.footer {
        f.schema.columns.push(("late".to_string(), ColumnType::Int64));
    }
    let f = st.footer.as_ref().unwrap();
    let all = st.scan_columns_mmap_with_nulls(&[5], f).unwrap();
    assert_eq!(all.cols, vec![ColumnData::Int64(vec![0; 7])]);
    assert_eq!(all.nulls, vec![vec![0b1111, 0b111]]);
    let b = st.describe_batch_range(Some(&["late"]), false, 0, Some(2), false);
    let want = BatchDesc::Rows {
        with_id: false,
        ids: vec![10, 11],
        columns: vec![(
            "late".to_string(),
            ArrayDesc::Int64 { values: vec![0, 0], valid: Some(vec![false, false]) },
        )],
    };
    assert_eq!(b, Ok(Some(want)));
}

#[test]
fn live_identifiers_can_be_read() {
    let st = people();
    for id in [10, 11, 12, 13, 20] {
        assert_eq!(st.row_id_active_rcix(id), Ok(Some(true)));
        assert_eq!(st.retrieve_many_mmap_columns(&[id]).unwrap().unwrap().row_count, 1);
    }
    assert_eq!(st.retrieve_many_mmap_columns(&[25]).unwrap().unwrap().row_count, 0);
}

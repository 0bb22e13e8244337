use arrow::array::{
    Array, BinaryArray, BooleanArray, Date32Array, DictionaryArray, FixedSizeListArray,
    Float32Array, Float64Array, Int64Array, LargeBinaryArray, LargeStringArray, StringArray,
    TimestampMicrosecondArray,
};
use arrow::datatypes::{DataType, TimeUnit, UInt32Type};
use arrow::record_batch::RecordBatch;
use mmap_scan::arrays::ArrayDesc;
use mmap_scan::batch::BatchDesc;
use mmap_scan::cells::{Cell, ListForm};
use mmap_scan::double::F64;
use mmap_scan::groupby::GroupTally;
use mmap_scan::model::{
    ColumnType, OnDemandSchema, RowGroupMeta, ScanError, V4Footer, ZoneMap,
};
use mmap_scan::overlay::{CellEdit, EditValue};
use mmap_scan::plain::PlainCodec;
use mmap_scan::retrieve::MmapBatchColumns;
use mmap_scan::row_batch::{MmapBatchColumn, RowsBatch, RowsColumn};
use mmap_scan::storage::OnDemandStorage;
use mmap_scan::to_arrow::{describe_to_arrow, rows_to_arrow};

fn bitmap(n: usize, set: &[usize]) -> Vec<u8> {
    let mut out = vec![0u8; (n + 7) / 8];
    for &i in set {
        out[i / 8] |= 1 << (i % 8);
    }
    out
}

fn ints(v: &[i64]) -> Vec<u8> {
    let mut out = vec![0u8];
    out.extend_from_slice(&(v.len() as u64).to_le_bytes());
    for x in v {
        out.extend_from_slice(&x.to_le_bytes());
    }
    out
}

fn reals(v: &[f64]) -> Vec<u8> {
    let mut out = vec![0u8];
    out.extend_from_slice(&(v.len() as u64).to_le_bytes());
    for x in v {
        out.extend_from_slice(&x.to_bits().to_le_bytes());
    }
    out
}

fn strings(v: &[&str]) -> Vec<u8> {
    let mut out = vec![0u8];
    let mut data: Vec<u8> = Vec::new();
    out.extend_from_slice(&(v.len() as u64).to_le_bytes());
    out.extend_from_slice(&0u32.to_le_bytes());
    for s in v {
        data.extend_from_slice(s.as_bytes());
        out.extend_from_slice(&(data.len() as u32).to_le_bytes());
    }
    out.extend_from_slice(&(data.len() as u64).to_le_bytes());
    out.extend_from_slice(&data);
    out
}

fn dict(indices: &[u32], values: &[&str]) -> Vec<u8> {
    let mut out = vec![0u8];
    out.extend_from_slice(&(indices.len() as u64).to_le_bytes());
    out.extend_from_slice(&(values.len() as u64).to_le_bytes());
    for i in indices {
        out.extend_from_slice(&i.to_le_bytes());
    }
    let mut data: Vec<u8> = Vec::new();
    for s in values {
        out.extend_from_slice(&(data.len() as u32).to_le_bytes());
        data.extend_from_slice(s.as_bytes());
    }
    out.extend_from_slice(&(data.len() as u64).to_le_bytes());
    out.extend_from_slice(&data);
    out
}

fn bits(v: &[bool]) -> Vec<u8> {
    let mut out = vec![0u8];
    let set: Vec<usize> = (0..v.len()).filter(|&i| v[i]).collect();
    out.extend_from_slice(&(v.len() as u64).to_le_bytes());
    out.extend_from_slice(&bitmap(v.len(), &set));
    out
}

struct Rows {
    ids: Vec<u64>,
    implicit: bool,
    deleted: Vec<usize>,
    cols: Vec<(Vec<usize>, Vec<u8>)>,
    zones: Vec<ZoneMap>,
}

fn build(schema: &[(&str, ColumnType)], groups: &[Rows]) -> OnDemandStorage<PlainCodec> {
    let mut file = vec![0u8; 64];
    let mut row_groups: Vec<RowGroupMeta> = Vec::new();
    let mut col_offsets: Vec<Vec<u32>> = Vec::new();
    let mut total: u64 = 0;
    for g in groups {
        let n = g.ids.len();
        let mut body: Vec<u8> = Vec::new();
        if !g.implicit {
            for id in &g.ids {
                body.extend_from_slice(&id.to_le_bytes());
            }
        }
        body.extend_from_slice(&bitmap(n, &g.deleted));
        let mut offsets: Vec<u32> = Vec::new();
        for (missing, bytes) in &g.cols {
            offsets.push(body.len() as u32);
            body.extend_from_slice(&bitmap(n, missing));
            body.extend_from_slice(bytes);
        }
        let offset = file.len() as u64;
        let mut header = vec![0u8; 32];
        header[29] = 1;
        header[30] = if g.implicit { 1 } else { 0 };
        file.extend_from_slice(&header);
        file.extend_from_slice(&body);
        row_groups.push(RowGroupMeta {
            offset,
            data_size: (32 + body.len()) as u64,
            row_count: n as u32,
            min_id: *g.ids.first().unwrap_or(&0),
            max_id: *g.ids.last().unwrap_or(&0),
            deletion_count: g.deleted.len() as u32,
        });
        col_offsets.push(offsets);
        total += n as u64;
    }
    let footer_offset = file.len() as u64;
    let footer = V4Footer {
        schema: OnDemandSchema {
            columns: schema.iter().map(|(n, t)| (n.to_string(), *t)).collect(),
        },
        row_groups,
        col_offsets,
        zone_maps: groups.iter().map(|g| g.zones.clone()).collect(),
    };
    OnDemandStorage {
        footer: Some(footer),
        footer_offset,
        file: Some(file),
        codec: PlainCodec {},
        row_count: total,
        ids: Vec::new(),
        deleted: Vec::new(),
        next_id: 0,
        id_to_idx: None,
        delta_rows: 0,
        delta_ids: None,
        columns: Vec::new(),
        journal: Vec::new(),
    }
}

fn double(v: f64) -> F64 {
    F64::from_bits(v.to_bits())
}

/// Seven people in two row groups. The third one has no age, the sixth one is deleted.
fn people() -> OnDemandStorage<PlainCodec> {
    build(
        &[
            ("age", ColumnType::Int64),
            ("score", ColumnType::Float64),
            ("name", ColumnType::String),
            ("city", ColumnType::StringDict),
            ("member", ColumnType::Bool),
        ],
        &[
            Rows {
                ids: vec![10, 11, 12, 13],
                implicit: true,
                deleted: vec![],
                cols: vec![
                    (vec![2], ints(&[20, 30, 40, 50])),
                    (vec![], reals(&[1.5, 2.5, -1.0, 9.0])),
                    (vec![], strings(&["ann", "bob", "cy", "dora"])),
                    (vec![3], dict(&[1, 2, 1, 0], &["rome", "oslo"])),
                    (vec![], bits(&[true, false, true, true])),
                ],
                zones: vec![ZoneMap { col_idx: 0, is_float: false, min_bits: 20, max_bits: 50 }],
            },
            Rows {
                ids: vec![20, 25, 30],
                implicit: false,
                deleted: vec![1],
                cols: vec![
                    (vec![], ints(&[35, 60, 20])),
                    (vec![], reals(&[0.25, 3.0, 4.0])),
                    (vec![], strings(&["ann", "zed", "anna"])),
                    (vec![], dict(&[1, 1, 2], &["oslo", "paris"])),
                    (vec![], bits(&[false, true, true])),
                ],
                zones: vec![ZoneMap { col_idx: 0, is_float: false, min_bits: 20, max_bits: 60 }],
            },
        ],
    )
}

fn int_column(b: &RecordBatch, i: usize) -> Vec<Option<i64>> {
    b.column(i).as_any().downcast_ref::<Int64Array>().unwrap().iter().collect()
}

fn text_column(b: &RecordBatch, i: usize) -> Vec<Option<String>> {
    let a = b.column(i).as_any().downcast_ref::<StringArray>().unwrap();
    a.iter().map(|s| s.map(|t| t.to_string())).collect()
}

fn texts(v: &[&str]) -> Vec<Option<String>> {
    v.iter().map(|s| Some(s.to_string())).collect()
}

/// The only array of a batch that is built from its description.
fn one_array(d: ArrayDesc, n: usize) -> RecordBatch {
    let b = BatchDesc::Rows {
        with_id: true,
        ids: vec![7; n],
        columns: vec![("a".to_string(), d)],
    };
    match describe_to_arrow(&PlainCodec {}, b) {
        Ok(b) => b.inner,
        Err(e) => panic!("{:?}", e),
    }
}

#[test]
fn a_store_becomes_a_record_batch() {
    let st = people();
    let b = st.to_arrow_batch_mmap(None, true, None, false, &[]).unwrap().unwrap().inner;
    assert_eq!(b.num_rows(), 6);
    let schema = b.schema();
    let names: Vec<&str> = schema.fields().iter().map(|f| f.name().as_str()).collect();
    assert_eq!(names, vec!["_id", "age", "score", "name", "city", "member"]);
    let nullable: Vec<bool> = schema.fields().iter().map(|f| f.is_nullable()).collect();
    assert_eq!(nullable, vec![false, true, true, true, true, true]);
    assert_eq!(
        int_column(&b, 0),
        vec![Some(10), Some(11), Some(12), Some(13), Some(20), Some(30)]
    );
    assert_eq!(int_column(&b, 1), vec![Some(20), Some(30), None, Some(50), Some(35), Some(20)]);
    let scores = b.column(2).as_any().downcast_ref::<Float64Array>().unwrap();
    assert_eq!(scores.values().to_vec(), vec![1.5, 2.5, -1.0, 9.0, 0.25, 4.0]);
    assert_eq!(text_column(&b, 3), texts(&["ann", "bob", "cy", "dora", "ann", "anna"]));
}

#[test]
fn a_range_becomes_a_record_batch() {
    let st = people();
    let b = st
        .to_arrow_batch_mmap_range(Some(&["name"]), false, 3, Some(2), false, &[])
        .unwrap()
        .unwrap()
        .inner;
    assert_eq!(b.num_columns(), 1);
    assert_eq!(text_column(&b, 0), texts(&["dora", "ann"]));
}

#[test]
fn pending_edits_are_laid_over_a_batch() {
    let st = people();
    let edit = |id: u64, column: &str, value: EditValue| CellEdit {
        id,
        column: column.to_string(),
        value,
    };
    let edits = vec![
        edit(11, "age", EditValue::Int(31)),
        edit(12, "age", EditValue::Int(40)),
        edit(13, "age", EditValue::Null),
        edit(20, "name", EditValue::Text("eve".to_string())),
        edit(30, "name", EditValue::Int(7)),
        edit(30, "name", EditValue::Null),
        edit(99, "age", EditValue::Int(1)),
        edit(11, "age", EditValue::Int(32)),
    ];
    let b = st
        .to_arrow_batch_mmap_range(Some(&["age", "name"]), true, 1, None, true, &edits)
        .unwrap()
        .unwrap()
        .inner;
    assert_eq!(int_column(&b, 0), vec![Some(11), Some(12), Some(13), Some(20), Some(30)]);
    assert_eq!(int_column(&b, 1), vec![Some(32), Some(40), None, Some(35), Some(20)]);
    assert_eq!(
        text_column(&b, 2),
        vec![
            Some("bob".to_string()),
            Some("cy".to_string()),
            Some("dora".to_string()),
            Some("eve".to_string()),
            None,
        ]
    );
}

#[test]
fn no_rows_become_an_empty_batch() {
    let st = build(&[("score", ColumnType::Float64), ("name", ColumnType::String)], &[]);
    let b = st.to_arrow_batch_mmap(None, true, None, false, &[]).unwrap().unwrap().inner;
    assert_eq!(b.num_rows(), 0);
    assert_eq!(b.schema().field(0).data_type(), &DataType::Int64);
    assert_eq!(b.schema().field(1).data_type(), &DataType::Float64);
    assert_eq!(b.schema().field(2).data_type(), &DataType::Utf8);
    let b = st.to_arrow_batch_mmap(Some(&[]), false, None, false, &[]).unwrap().unwrap().inner;
    assert_eq!(b.num_columns(), 0);
}

#[test]
fn picked_rows_become_a_record_batch() {
    let st = people();
    let b = st
        .extract_rows_by_indices_to_arrow(&[0, 2, 6], Some(&["_ID", "age"]))
        .unwrap()
        .unwrap()
        .inner;
    assert_eq!(int_column(&b, 0), vec![Some(10), Some(12), Some(30)]);
    assert_eq!(int_column(&b, 1), vec![Some(20), None, Some(20)]);
    let none = st.extract_rows_by_indices_to_arrow(&[], None).unwrap().unwrap().inner;
    assert_eq!((none.num_rows(), none.num_columns()), (0, 0));
}

#[test]
fn matching_rows_become_a_record_batch() {
    let st = people();
    let b = st.scan_like_and_extract_mmap("name", "an%", None).unwrap().unwrap().inner;
    assert_eq!(int_column(&b, 0), vec![Some(10), Some(20), Some(30)]);
    assert_eq!(text_column(&b, 3), texts(&["ann", "ann", "anna"]));
    let b = st.scan_like_and_extract_mmap("name", "q%", None).unwrap().unwrap().inner;
    assert_eq!((b.num_rows(), b.num_columns()), (0, 6));
}

#[test]
fn known_rows_become_a_record_batch() {
    let st = people();
    let b = st.retrieve_many_mmap(&[30, 13, 10], &[13]).unwrap().unwrap().inner;
    assert_eq!(int_column(&b, 0), vec![Some(30), Some(10)]);
    let b = st.retrieve_many_mmap_persisted(&[30, 13]).unwrap().unwrap().inner;
    assert_eq!(int_column(&b, 1), vec![Some(20), Some(50)]);
    let b = st.retrieve_many_mmap_persisted(&[99]).unwrap().unwrap().inner;
    assert_eq!((b.num_rows(), b.num_columns()), (0, 0));
}

#[test]
fn found_columns_become_a_record_batch() {
    let cols = MmapBatchColumns {
        row_count: 2,
        columns: vec![
            ("n".to_string(), MmapBatchColumn::I64(vec![None, Some(-4)])),
            ("x".to_string(), MmapBatchColumn::F64(vec![Some(double(0.5)), None])),
            ("b".to_string(), MmapBatchColumn::Bool(vec![Some(true), None])),
            ("z".to_string(), MmapBatchColumn::Bin(vec![Some(vec![1, 2]), None])),
        ],
    };
    let b = OnDemandStorage::<PlainCodec>::mmap_batch_columns_to_arrow(cols);
    let b = b.unwrap().unwrap().inner;
    assert_eq!(int_column(&b, 0), vec![None, Some(-4)]);
    let x = b.column(1).as_any().downcast_ref::<Float64Array>().unwrap();
    assert_eq!(x.iter().collect::<Vec<_>>(), vec![Some(0.5), None]);
    let t = b.column(2).as_any().downcast_ref::<BooleanArray>().unwrap();
    assert_eq!(t.iter().collect::<Vec<_>>(), vec![Some(true), None]);
    let z = b.column(3).as_any().downcast_ref::<BinaryArray>().unwrap();
    assert_eq!(z.iter().collect::<Vec<_>>(), vec![Some(&[1u8, 2][..]), None]);
}

#[test]
fn times_and_days() {
    let b = one_array(ArrayDesc::Timestamp { values: vec![5, 6], valid: None }, 2);
    assert_eq!(b.column(1).data_type(), &DataType::Timestamp(TimeUnit::Microsecond, None));
    let a = b.column(1).as_any().downcast_ref::<TimestampMicrosecondArray>().unwrap();
    assert_eq!(a.values().to_vec(), vec![5, 6]);
    let b = one_array(ArrayDesc::Date { values: vec![-1], valid: Some(vec![true]) }, 1);
    let a = b.column(1).as_any().downcast_ref::<Date32Array>().unwrap();
    assert_eq!(a.value(0), -1);
}

#[test]
fn texts_behind_keys() {
    let values = vec!["no".to_string(), "yes".to_string()];
    let b = one_array(ArrayDesc::Dictionary { keys: vec![1, 0, 1], values }, 3);
    let a = b.column(1).as_any().downcast_ref::<DictionaryArray<UInt32Type>>().unwrap();
    let texts = a.values().as_any().downcast_ref::<StringArray>().unwrap();
    let rows: Vec<&str> = (0..3).map(|i| texts.value(a.keys().value(i) as usize)).collect();
    assert_eq!(rows, vec!["yes", "no", "yes"]);
}

#[test]
fn wide_offsets() {
    let b = one_array(ArrayDesc::Utf8 { values: texts(&["ab"]), large: true }, 1);
    let a = b.column(1).as_any().downcast_ref::<LargeStringArray>().unwrap();
    assert_eq!(a.value(0), "ab");
    let b = one_array(ArrayDesc::Binary { values: vec![Some(vec![9])], large: true }, 1);
    let a = b.column(1).as_any().downcast_ref::<LargeBinaryArray>().unwrap();
    assert_eq!(a.value(0), &[9u8][..]);
}

#[test]
fn lists_of_floats() {
    let mut data: Vec<u8> = Vec::new();
    for v in [1.0f32, 2.5, -3.0, 4.0] {
        data.extend_from_slice(&v.to_ne_bytes());
    }
    let b = one_array(ArrayDesc::FixedList { data: data.clone(), dim: 2 }, 2);
    let a = b.column(1).as_any().downcast_ref::<FixedSizeListArray>().unwrap();
    let row = a.value(1);
    let floats = row.as_any().downcast_ref::<Float32Array>().unwrap();
    assert_eq!(floats.values().to_vec(), vec![-3.0, 4.0]);

    let rows = RowsBatch::Rows {
        with_id: false,
        ids: vec![1, 2],
        columns: vec![(
            "v".to_string(),
            RowsColumn::Lists {
                rows: vec![None, Some((data[..8].to_vec(), ListForm::Float32))],
                dim: 2,
            },
        )],
    };
    let b = rows_to_arrow(&PlainCodec {}, rows).ok().unwrap().inner;
    let a = b.column(0).as_any().downcast_ref::<FixedSizeListArray>().unwrap();
    assert!(a.is_null(0));
    let row = a.value(1);
    let floats = row.as_any().downcast_ref::<Float32Array>().unwrap();
    assert_eq!(floats.values().to_vec(), vec![1.0, 2.5]);
}

#[test]
fn missing_texts() {
    let b = one_array(ArrayDesc::Null { rows: 3 }, 3);
    assert_eq!(text_column(&b, 1), vec![None, None, None]);
}

#[test]
fn numbers_shown_as_texts() {
    let rows = RowsBatch::Rows {
        with_id: true,
        ids: vec![1, 2, 3],
        columns: vec![(
            "o".to_string(),
            RowsColumn::Other(vec![
                Some(Cell::Int(-120)),
                Some(Cell::Text("x".to_string())),
                None,
            ]),
        )],
    };
    let b = rows_to_arrow(&PlainCodec {}, rows).ok().unwrap().inner;
    assert_eq!(text_column(&b, 1), vec![Some("-120".to_string()), Some("x".to_string()), None]);
}

#[test]
fn columns_that_do_not_form_a_batch() {
    let b = BatchDesc::Rows {
        with_id: true,
        ids: vec![1, 2],
        columns: vec![("a".to_string(), ArrayDesc::Int64 { values: vec![1], valid: None })],
    };
    assert!(matches!(describe_to_arrow(&PlainCodec {}, b), Err(ScanError::Batch)));
    let b = BatchDesc::Rows {
        with_id: false,
        ids: vec![],
        columns: vec![(
            "a".to_string(),
            ArrayDesc::Dictionary { keys: vec![1], values: vec!["x".to_string()] },
        )],
    };
    assert!(matches!(describe_to_arrow(&PlainCodec {}, b), Err(ScanError::Batch)));
}

fn count_of(t: &GroupTally) -> F64 {
    double(t.count as f64)
}

#[test]
fn groups_become_a_record_batch() {
    let st = build(
        &[("kind", ColumnType::StringDict), ("town", ColumnType::StringDict)],
        &[Rows {
            ids: vec![1, 2, 3, 4],
            implicit: true,
            deleted: vec![],
            cols: vec![
                (vec![], dict(&[1, 1, 2, 1], &["a", "b"])),
                (vec![], dict(&[1, 2, 2, 2], &["x", "y"])),
            ],
            zones: vec![],
        }],
    );
    let b = st
        .execute_filter_group_order("kind", "a", "town", None, count_of, true, 9, 0)
        .unwrap()
        .unwrap()
        .inner;
    assert_eq!(b.schema().field(0).name(), "town");
    assert_eq!(b.schema().field(1).name(), "agg_result");
    assert_eq!(text_column(&b, 0), texts(&["y", "x"]));
    let counts = b.column(1).as_any().downcast_ref::<Float64Array>().unwrap();
    assert_eq!(counts.values().to_vec(), vec![2.0, 1.0]);
}

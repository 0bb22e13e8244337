use mmap_scan::model::{
    ColumnType, OnDemandSchema, RowGroupMeta, ScanError, V4Footer, ZoneMap,
};
use mmap_scan::plain::PlainCodec;
use mmap_scan::reads::ColumnIndexEntry;
use mmap_scan::storage::OnDemandStorage;

fn bitmap(n: usize, set: &[usize]) -> Vec<u8> {
    let mut out = vec![0u8; (n + 7) / 8];
    for &i in set {
        out[i / 8] |= 1 << (i % 8);
    }
    out
}

fn ints(v: &[i64]) -> Vec<u8> {
    let mut out = vec![0u8];
    out.extend_from_slice(&(v.len() as u64).to_le_bytes());
    for x in v {
        out.extend_from_slice(&x.to_le_bytes());
    }
    out
}

fn strings(v: &[&str]) -> Vec<u8> {
    let mut out = vec![0u8];
    let mut data: Vec<u8> = Vec::new();
    out.extend_from_slice(&(v.len() as u64).to_le_bytes());
    out.extend_from_slice(&0u32.to_le_bytes());
    for s in v {
        data.extend_from_slice(s.as_bytes());
        out.extend_from_slice(&(data.len() as u32).to_le_bytes());
    }
    out.extend_from_slice(&(data.len() as u64).to_le_bytes());
    out.extend_from_slice(&data);
    out
}

struct Rows {
    ids: Vec<u64>,
    implicit: bool,
    deleted: Vec<usize>,
    cols: Vec<(Vec<usize>, Vec<u8>)>,
    zones: Vec<ZoneMap>,
}

fn build(schema: &[(&str, ColumnType)], groups: &[Rows]) -> OnDemandStorage<PlainCodec> {
    let mut file = vec![0u8; 64];
    let mut row_groups: Vec<RowGroupMeta> = Vec::new();
    let mut col_offsets: Vec<Vec<u32>> = Vec::new();
    let mut total: u64 = 0;
    for g in groups {
        let n = g.ids.len();
        let mut body: Vec<u8> = Vec::new();
        if !g.implicit {
            for id in &g.ids {
                body.extend_from_slice(&id.to_le_bytes());
            }
        }
        body.extend_from_slice(&bitmap(n, &g.deleted));
        let mut offsets: Vec<u32> = Vec::new();
        for (missing, bytes) in &g.cols {
            offsets.push(body.len() as u32);
            body.extend_from_slice(&bitmap(n, missing));
            body.extend_from_slice(bytes);
        }
        let offset = file.len() as u64;
        let mut header = vec![0u8; 32];
        header[29] = 1;
        header[30] = if g.implicit { 1 } else { 0 };
        file.extend_from_slice(&header);
        file.extend_from_slice(&body);
        row_groups.push(RowGroupMeta {
            offset,
            data_size: (32 + body.len()) as u64,
            row_count: n as u32,
            min_id: *g.ids.first().unwrap_or(&0),
            max_id: *g.ids.last().unwrap_or(&0),
            deletion_count: g.deleted.len() as u32,
        });
        col_offsets.push(offsets);
        total += n as u64;
    }
    let footer_offset = file.len() as u64;
    let footer = V4Footer {
        schema: OnDemandSchema {
            columns: schema.iter().map(|(n, t)| (n.to_string(), *t)).collect(),
        },
        row_groups,
        col_offsets,
        zone_maps: groups.iter().map(|g| g.zones.clone()).collect(),
    };
    OnDemandStorage {
        footer: Some(footer),
        footer_offset,
        file: Some(file),
        codec: PlainCodec {},
        row_count: total,
        ids: Vec::new(),
        deleted: Vec::new(),
        next_id: 0,
        id_to_idx: None,
        delta_rows: 0,
        delta_ids: None,
        columns: Vec::new(),
        journal: Vec::new(),
    }
}

fn table(ids: Vec<u64>, implicit: bool, kind: ColumnType, data: Vec<u8>) -> OnDemandStorage<PlainCodec> {
    build(
        &[("c", kind)],
        &[Rows { ids, implicit, deleted: vec![], cols: vec![(vec![], data)], zones: vec![] }],
    )
}

fn cut_to(st: &mut OnDemandStorage<PlainCodec>, size: u64) {
    if let Some(f) = &mut st.footer {
        f.row_groups[0].data_size = size;
    }
}

#[test]
fn identifiers_that_are_cut_off() {
    let mut st = table(vec![1, 2], false, ColumnType::Int64, ints(&[1, 2]));
    cut_to(&mut st, 40);
    assert_eq!(st.ensure_ids_loaded_v4(), Err(ScanError::IdsTruncated));
}

#[test]
fn deletions_that_are_cut_off() {
    let mut st = table(vec![1, 2], true, ColumnType::Int64, ints(&[1, 2]));
    cut_to(&mut st, 32);
    assert_eq!(st.ensure_ids_loaded_v4(), Err(ScanError::DeletionsTruncated));
    assert_eq!(st.ids, vec![1, 2]);
}

#[test]
fn a_body_that_is_cut_off() {
    let mut st = table(vec![1, 2], true, ColumnType::String, strings(&["a", "b"]));
    cut_to(&mut st, 32);
    let names = vec!["c".to_string()];
    assert_eq!(
        st.read_fts_string_columns_mmap(&names, false),
        Err(ScanError::BodyTruncated)
    );
}

#[test]
fn null_bitmaps_that_are_cut_off() {
    let mut st = table(vec![1, 2], true, ColumnType::String, strings(&["a", "b"]));
    cut_to(&mut st, 33);
    let names = vec!["c".to_string()];
    assert_eq!(
        st.read_fts_string_columns_mmap(&names, false),
        Err(ScanError::NullsTruncated)
    );
}

#[test]
fn columns_that_hold_no_strings() {
    let st = table(vec![1, 2], true, ColumnType::Int64, ints(&[1, 2]));
    assert_eq!(st.scan_string_filter_mmap("c", "a", None), Err(ScanError::NotAString));
}

#[test]
fn types_that_are_not_served() {
    let st = table(vec![1], true, ColumnType::Int64, ints(&[1]));
    let file = strings(&["ab"])[1..].to_vec();
    let at = ColumnIndexEntry { data_offset: 0, data_length: file.len() as u64 };
    assert_eq!(
        st.read_variable_column_range_mmap(&file, &at, ColumnType::Int64, 0, 1),
        Err(ScanError::WrongType)
    );
}

#[test]
fn identifiers_that_run_out() {
    let mut st = table(vec![u64::MAX], true, ColumnType::Int64, ints(&[1]));
    assert_eq!(st.ensure_ids_loaded_v4(), Err(ScanError::LengthOverflow));
}

#[test]
fn columns_that_the_codec_cannot_read() {
    let mut data = ints(&[1, 2]);
    data[0] = 9;
    let st = table(vec![1, 2], true, ColumnType::Int64, data);
    let f = st.footer.as_ref().unwrap();
    assert_eq!(st.scan_columns_mmap(&[0], f), Err(ScanError::Codec));
}

#[test]
fn strings_that_end_before_they_start() {
    let mut data = strings(&["ab", "c"]);
    data[13] = 3;
    data[17] = 1;
    let st = table(vec![1, 2], true, ColumnType::String, data);
    assert_eq!(st.detect_column_sorted(0), Err(ScanError::Corrupt));
}

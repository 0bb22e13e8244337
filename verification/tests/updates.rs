use mmap_scan::double::F64;
use mmap_scan::model::{
    ColumnType, OnDemandSchema, RowGroupMeta, ScanError, V4Footer, ZoneMap,
};
use mmap_scan::plain::PlainCodec;
use mmap_scan::storage::{Change, OnDemandStorage};

fn bitmap(n: usize, set: &[usize]) -> Vec<u8> {
    let mut out = vec![0u8; (n + 7) / 8];
    for &i in set {
        out[i / 8] |= 1 << (i % 8);
    }
    out
}

fn ints(v: &[i64]) -> Vec<u8> {
    let mut out = vec![0u8];
    out.extend_from_slice(&(v.len() as u64).to_le_bytes());
    for x in v {
        out.extend_from_slice(&x.to_le_bytes());
    }
    out
}

fn reals(v: &[f64]) -> Vec<u8> {
    let mut out = vec![0u8];
    out.extend_from_slice(&(v.len() as u64).to_le_bytes());
    for x in v {
        out.extend_from_slice(&x.to_bits().to_le_bytes());
    }
    out
}

fn strings(v: &[&str]) -> Vec<u8> {
    let mut out = vec![0u8];
    let mut data: Vec<u8> = Vec::new();
    out.extend_from_slice(&(v.len() as u64).to_le_bytes());
    out.extend_from_slice(&0u32.to_le_bytes());
    for s in v {
        data.extend_from_slice(s.as_bytes());
        out.extend_from_slice(&(data.len() as u32).to_le_bytes());
    }
    out.extend_from_slice(&(data.len() as u64).to_le_bytes());
    out.extend_from_slice(&data);
    out
}

fn dict(indices: &[u32], values: &[&str]) -> Vec<u8> {
    let mut out = vec![0u8];
    out.extend_from_slice(&(indices.len() as u64).to_le_bytes());
    out.extend_from_slice(&(values.len() as u64).to_le_bytes());
    for i in indices {
        out.extend_from_slice(&i.to_le_bytes());
    }
    let mut data: Vec<u8> = Vec::new();
    for s in values {
        out.extend_from_slice(&(data.len() as u32).to_le_bytes());
        data.extend_from_slice(s.as_bytes());
    }
    out.extend_from_slice(&(data.len() as u64).to_le_bytes());
    out.extend_from_slice(&data);
    out
}

fn bits(v: &[bool]) -> Vec<u8> {
    let mut out = vec![0u8];
    let set: Vec<usize> = (0..v.len()).filter(|&i| v[i]).collect();
    out.extend_from_slice(&(v.len() as u64).to_le_bytes());
    out.extend_from_slice(&bitmap(v.len(), &set));
    out
}

struct Rows {
    ids: Vec<u64>,
    implicit: bool,
    deleted: Vec<usize>,
    cols: Vec<(Vec<usize>, Vec<u8>)>,
    zones: Vec<ZoneMap>,
}

fn build(schema: &[(&str, ColumnType)], groups: &[Rows]) -> OnDemandStorage<PlainCodec> {
    let mut file = vec![0u8; 64];
    let mut row_groups: Vec<RowGroupMeta> = Vec::new();
    let mut col_offsets: Vec<Vec<u32>> = Vec::new();
    let mut total: u64 = 0;
    for g in groups {
        let n = g.ids.len();
        let mut body: Vec<u8> = Vec::new();
        if !g.implicit {
            for id in &g.ids {
                body.extend_from_slice(&id.to_le_bytes());
            }
        }
        body.extend_from_slice(&bitmap(n, &g.deleted));
        let mut offsets: Vec<u32> = Vec::new();
        for (missing, bytes) in &g.cols {
            offsets.push(body.len() as u32);
            body.extend_from_slice(&bitmap(n, missing));
            body.extend_from_slice(bytes);
        }
        let offset = file.len() as u64;
        let mut header = vec![0u8; 32];
        header[29] = 1;
        header[30] = if g.implicit { 1 } else { 0 };
        file.extend_from_slice(&header);
        file.extend_from_slice(&body);
        row_groups.push(RowGroupMeta {
            offset,
            data_size: (32 + body.len()) as u64,
            row_count: n as u32,
            min_id: *g.ids.first().unwrap_or(&0),
            max_id: *g.ids.last().unwrap_or(&0),
            deletion_count: g.deleted.len() as u32,
        });
        col_offsets.push(offsets);
        total += n as u64;
    }
    let footer_offset = file.len() as u64;
    let footer = V4Footer {
        schema: OnDemandSchema {
            columns: schema.iter().map(|(n, t)| (n.to_string(), *t)).collect(),
        },
        row_groups,
        col_offsets,
        zone_maps: groups.iter().map(|g| g.zones.clone()).collect(),
    };
    OnDemandStorage {
        footer: Some(footer),
        footer_offset,
        file: Some(file),
        codec: PlainCodec {},
        row_count: total,
        ids: Vec::new(),
        deleted: Vec::new(),
        next_id: 0,
        id_to_idx: None,
        delta_rows: 0,
        delta_ids: None,
        columns: Vec::new(),
        journal: Vec::new(),
    }
}

fn double(v: f64) -> F64 {
    F64::from_bits(v.to_bits())
}

/// Seven people in two row groups. The third one has no age, the sixth one is deleted.
fn people() -> OnDemandStorage<PlainCodec> {
    build(
        &[
            ("age", ColumnType::Int64),
            ("score", ColumnType::Float64),
            ("name", ColumnType::String),
            ("city", ColumnType::StringDict),
            ("member", ColumnType::Bool),
        ],
        &[
            Rows {
                ids: vec![10, 11, 12, 13],
                implicit: true,
                deleted: vec![],
                cols: vec![
                    (vec![2], ints(&[20, 30, 40, 50])),
                    (vec![], reals(&[1.5, 2.5, -1.0, 9.0])),
                    (vec![], strings(&["ann", "bob", "cy", "dora"])),
                    (vec![3], dict(&[1, 2, 1, 0], &["rome", "oslo"])),
                    (vec![], bits(&[true, false, true, true])),
                ],
                zones: vec![ZoneMap { col_idx: 0, is_float: false, min_bits: 20, max_bits: 50 }],
            },
            Rows {
                ids: vec![20, 25, 30],
                implicit: false,
                deleted: vec![1],
                cols: vec![
                    (vec![], ints(&[35, 60, 20])),
                    (vec![], reals(&[0.25, 3.0, 4.0])),
                    (vec![], strings(&["ann", "zed", "anna"])),
                    (vec![], dict(&[1, 1, 2], &["oslo", "paris"])),
                    (vec![], bits(&[false, true, true])),
                ],
                zones: vec![ZoneMap { col_idx: 0, is_float: false, min_bits: 20, max_bits: 60 }],
            },
        ],
    )
}

#[test]
fn an_update_is_read_back() {
    let mut st = people();
    let r = st.update_by_id_inplace(12, "age", &77i64.to_le_bytes());
    assert_eq!(r, Ok(Some((1, true))));
    let now = st.scan_numeric_range_mmap("age", double(77.0), double(77.0), Some(9));
    assert_eq!(now, Ok(Some(vec![2])));
    assert_eq!(st.footer.as_ref().unwrap().zone_maps[0][0].max_bits, 77);
    assert_eq!(st.journal.len(), 4);
    assert_eq!(st.journal[0], Change::Footer);
    assert_eq!(st.journal[1], Change::DropStats);
    assert!(matches!(&st.journal[2], Change::Bytes { bytes, .. } if bytes.len() == 1));
    assert!(matches!(&st.journal[3], Change::Bytes { bytes, .. } if bytes == &77i64.to_le_bytes()));
}

#[test]
fn an_update_touches_one_cell() {
    let mut st = people();
    let before = st.file.clone().unwrap();
    st.update_by_id_inplace(11, "age", &31i64.to_le_bytes()).unwrap();
    let after = st.file.clone().unwrap();
    let changed: Vec<usize> = (0..before.len()).filter(|&i| before[i] != after[i]).collect();
    assert_eq!(changed.len(), 1);
    assert_eq!(before[changed[0]], 30);
    assert_eq!(after[changed[0]], 31);
}

#[test]
fn the_same_update_writes_nothing() {
    let mut st = people();
    st.update_by_id_inplace(13, "score", &9.5f64.to_bits().to_le_bytes()).unwrap();
    let steps = st.journal.len();
    let again = st.update_by_id_inplace(13, "score", &9.5f64.to_bits().to_le_bytes());
    assert_eq!(again, Ok(Some((1, false))));
    assert_eq!(st.journal.len(), steps);
}

#[test]
fn a_cell_that_was_found_is_updated() {
    let mut st = people();
    let (footer, null_at, mask, value_at) =
        st.locate_numeric_cell_for_update(13, "age").unwrap().unwrap();
    assert_eq!(footer, st.footer_offset);
    assert_eq!(mask, 8);
    let r = st.update_numeric_cell_cached(footer, null_at, mask, value_at, &51i64.to_le_bytes());
    assert_eq!(r, Ok(Some((1, true))));
    let mut other = people();
    other.update_by_id_inplace(13, "age", &51i64.to_le_bytes()).unwrap();
    assert_eq!(st.file, other.file);
    let stale = st.update_numeric_cell_cached(footer + 1, null_at, mask, value_at, &[0; 8]);
    assert_eq!(stale, Ok(None));
}

#[test]
fn rows_of_a_range_are_updated() {
    let mut st = people();
    let r = st.scan_and_update_inplace(
        "age",
        double(20.0),
        double(30.0),
        "score",
        &6.0f64.to_bits().to_le_bytes(),
    );
    assert_eq!(r, Ok(Some(3)));
    let now = st.scan_numeric_range_mmap("score", double(6.0), double(6.0), None);
    assert_eq!(now, Ok(Some(vec![0, 1, 6])));
}

#[test]
fn the_same_update_of_a_range_writes_nothing() {
    let mut st = people();
    let value = 6.0f64.to_bits().to_le_bytes();
    let first = st.scan_and_update_inplace("age", double(20.0), double(30.0), "score", &value);
    assert_eq!(first, Ok(Some(3)));
    let steps = st.journal.len();
    let file = st.file.clone();
    let again = st.scan_and_update_inplace("age", double(20.0), double(30.0), "score", &value);
    assert_eq!(again, Ok(Some(3)));
    assert_eq!(st.journal.len(), steps);
    assert_eq!(st.file, file);
}

#[test]
fn what_cannot_be_updated() {
    let mut st = people();
    assert_eq!(st.update_by_id_inplace(99, "age", &[0; 8]), Ok(Some((0, false))));
    assert_eq!(st.update_by_id_inplace(10, "name", &[0; 8]), Ok(None));
    assert_eq!(st.update_by_id_inplace(10, "size", &[0; 8]), Ok(None));
    st.file = None;
    assert_eq!(st.update_by_id_inplace(10, "age", &[0; 8]), Err(ScanError::NotOpen));
}

#[test]
fn identifiers_are_loaded() {
    let mut st = people();
    assert_eq!(st.ensure_ids_loaded_v4(), Ok(()));
    assert_eq!(st.ids, vec![10, 11, 12, 13, 20, 25, 30]);
    assert_eq!(st.deleted, vec![0, 2]);
    assert_eq!(st.next_id, 31);
    st.ensure_id_index();
    let index = st.id_to_idx.as_ref().unwrap();
    assert_eq!(index.get(&25), Some(&5));
    assert_eq!(index.get(&26), None);
}

#[test]
fn identifiers_are_read() {
    let mut st = people();
    assert_eq!(st.read_ids(3, Some(2)), Ok(vec![13, 20]));
    assert_eq!(st.read_ids_by_indices(&[6, 0]), Ok(vec![30, 10]));
}

#[test]
fn identifiers_are_looked_up() {
    let st = people();
    assert_eq!(st.row_id_active_rcix(12), Ok(Some(true)));
    assert_eq!(st.row_id_active_rcix(99), Ok(Some(false)));
    let mut cut = people();
    if let Some(f) = &mut cut.file {
        f.truncate(70);
    }
    assert_eq!(cut.ensure_ids_loaded_v4(), Err(ScanError::PastEof));
}

#[test]
fn a_catalogue_can_be_dropped() {
    let mut st = people();
    assert!(st.get_or_load_footer().is_some());
    st.invalidate_footer_cache();
    assert!(st.get_or_load_footer().is_none());
    assert_eq!(st.scan_numeric_range_mmap("age", double(0.0), double(1.0), None), Ok(None));
}

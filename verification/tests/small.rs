use mmap_scan::bytes::{bitpack_value_at, bytes_as_i64_slice, bytes_as_u32_slice, bytes_as_u64_slice};
use mmap_scan::cells::bitpack_decode_at_idx;
use mmap_scan::column::ColumnData;
use mmap_scan::double::F64;
use mmap_scan::footer::{FooterAction, FooterCache, FooterEvent, FooterFormat};
use mmap_scan::model::{ColumnType, ZoneMap};
use mmap_scan::order::{is_lex_less, sort_distinct, sort_strings};
use mmap_scan::plain::PlainCodec;
use mmap_scan::ranking::{Candidate, Preference};

fn double(v: f64) -> F64 {
    F64::from_bits(v.to_bits())
}

#[test]
fn doubles_compare_like_numbers() {
    let values = [
        f64::NEG_INFINITY,
        -2.5,
        -0.0,
        0.0,
        5e-324,
        1.0,
        f64::MAX,
        f64::INFINITY,
        f64::NAN,
    ];
    for a in values {
        for b in values {
            assert_eq!(double(a).le(double(b)), a <= b);
            assert_eq!(double(a).lt(double(b)), a < b);
        }
        assert_eq!(double(a).is_nan(), a.is_nan());
        assert_eq!(double(a).is_finite(), a.is_finite());
    }
}

#[test]
fn doubles_become_integers() {
    let values = [
        0.0,
        0.5,
        -0.5,
        2.0,
        2.5,
        -2.5,
        1e15 + 0.5,
        -1e18,
        1e19,
        -1e19,
        f64::NAN,
        f64::INFINITY,
    ];
    for v in values {
        assert_eq!(double(v).trunc_i64(), v as i64);
        assert_eq!(double(v).ceil_i64(), v.ceil() as i64);
        assert_eq!(double(v).floor_i64(), v.floor() as i64);
    }
}

#[test]
fn integers_become_doubles() {
    let values = [
        0,
        1,
        -1,
        12345,
        (1 << 53) + 1,
        (1 << 53) + 3,
        i64::MAX,
        i64::MIN,
        -((1 << 60) + 1),
    ];
    for v in values {
        assert_eq!(F64::from_i64(v).bits, (v as f64).to_bits());
    }
}

#[test]
fn words_of_bytes() {
    let bytes = [1, 0, 0, 0, 0, 0, 0, 0, 255, 255, 255, 255, 255, 255, 255, 255];
    assert_eq!(bytes_as_i64_slice(&bytes, 2), vec![1, -1]);
    assert_eq!(bytes_as_u64_slice(&bytes, 2), vec![1, u64::MAX]);
    assert_eq!(bytes_as_u32_slice(&bytes, 3), vec![1, 0, u32::MAX]);
}

#[test]
fn packed_fields() {
    let word: u16 = 5 << 3 | 2 << 6 | 7 << 9;
    let packed = word.to_le_bytes();
    for (i, v) in [100, 105, 102, 107].iter().enumerate() {
        assert_eq!(bitpack_value_at(&packed, 3, 100, i), Some(*v));
    }
    assert_eq!(bitpack_value_at(&packed, 3, 100, 6), None);
    let mut column = 4u64.to_le_bytes().to_vec();
    column.push(3);
    column.extend_from_slice(&100i64.to_le_bytes());
    column.extend_from_slice(&packed);
    assert_eq!(bitpack_decode_at_idx(&column, 3), Some(107));
    assert_eq!(bitpack_decode_at_idx(&column, 4), None);
}

#[test]
fn strings_in_order() {
    assert!(is_lex_less(b"ab", b"abc"));
    assert!(is_lex_less(b"ab", b"b"));
    assert!(!is_lex_less(b"b", b"b"));
    let given = vec![b"b".to_vec(), b"a".to_vec(), b"b".to_vec(), b"".to_vec()];
    assert_eq!(sort_strings(&given), vec![b"".to_vec(), b"a".to_vec(), b"b".to_vec()]);
}

#[test]
fn rows_in_order_once() {
    assert_eq!(sort_distinct(vec![5, 1, 5, 0, 1]), vec![0, 1, 5]);
}

#[test]
fn zones_overlap_ranges() {
    let z = ZoneMap { col_idx: 0, is_float: false, min_bits: -3, max_bits: 4 };
    assert!(z.may_overlap_int_range(4, 9));
    assert!(!z.may_overlap_int_range(5, 9));
    let z = ZoneMap {
        col_idx: 0,
        is_float: true,
        min_bits: (-1.5f64).to_bits() as i64,
        max_bits: 2.5f64.to_bits() as i64,
    };
    assert!(z.may_overlap_float_range(double(2.5), double(3.0)));
    assert!(!z.may_overlap_float_range(double(2.6), double(3.0)));
    assert!(!z.may_overlap_float_range(double(f64::NAN), double(3.0)));
}

#[test]
fn the_best_candidates_are_kept() {
    let p = Preference::Length { descending: true, tie_descending: false };
    let c = |length: u64, value: f64, row: usize| Candidate { length, value: double(value), row };
    let mut best: Vec<Candidate> = Vec::new();
    for x in [c(2, 1.0, 0), c(5, 9.0, 1), c(5, 3.0, 2), c(5, 3.0, 3), c(1, 0.0, 4)] {
        p.offer(&mut best, x, 3);
    }
    assert_eq!(best, vec![c(5, 3.0, 2), c(5, 3.0, 3), c(5, 9.0, 1)]);
    assert!(p.is_ahead(c(5, 3.0, 2), c(5, 9.0, 1)));
}

#[test]
fn a_catalogue_is_found_step_by_step() {
    let format = FooterFormat { header_size: 256, version: 4, magic: b"END!".to_vec() };
    let fresh = FooterCache { mapped: 0, held: false };
    assert_eq!(format.decide(fresh, &FooterEvent::Asked), FooterAction::AskLength);
    assert_eq!(
        format.decide(fresh, &FooterEvent::Length { len: 255 }),
        FooterAction::NoFooter
    );
    assert_eq!(
        format.decide(fresh, &FooterEvent::Length { len: 1000 }),
        FooterAction::ReadHeader { unmap: false }
    );
    assert_eq!(
        format.decide(fresh, &FooterEvent::Header { len: 1000, version: 4, footer_offset: 900 }),
        FooterAction::ReadBytes { at: 900, count: 100 }
    );
    assert_eq!(
        format.decide(fresh, &FooterEvent::Header { len: 1000, version: 4, footer_offset: 990 }),
        FooterAction::NoFooter
    );
    assert_eq!(format.decide(fresh, &FooterEvent::Bytes(b"..END!")), FooterAction::Parse);
    assert_eq!(format.decide(fresh, &FooterEvent::Bytes(b"..END")), FooterAction::NoFooter);
    assert_eq!(format.decide(fresh, &FooterEvent::Closed), FooterAction::NoFooter);
}

#[test]
fn a_stale_catalogue_is_not_used() {
    let format = FooterFormat { header_size: 256, version: 4, magic: b"END!".to_vec() };
    let held = FooterCache { mapped: 1000, held: true };
    assert_eq!(format.decide(held, &FooterEvent::Asked), FooterAction::UseHeld);
    assert_eq!(
        format.decide(held, &FooterEvent::Length { len: 1000 }),
        FooterAction::UseHeld
    );
    assert_eq!(
        format.decide(held, &FooterEvent::Length { len: 2000 }),
        FooterAction::ReadHeader { unmap: true }
    );
}

#[test]
fn columns_grow_and_shrink() {
    let c = PlainCodec {};
    let mut col = ColumnData::new(ColumnType::String);
    col.append(
        &c,
        &ColumnData::String { offsets: vec![0, 1, 3], data: b"abc".to_vec() },
    );
    col.push_blank(&c);
    assert_eq!(col, ColumnData::String { offsets: vec![0, 1, 3, 3], data: b"abc".to_vec() });
    assert_eq!(col.len(&c), 3);
    assert_eq!(
        col.slice_range(&c, 1, 3),
        ColumnData::String { offsets: vec![0, 2, 2], data: b"bc".to_vec() }
    );
    assert_eq!(
        col.filter_by_indices(&c, &[1, 0]),
        ColumnData::String { offsets: vec![0, 2, 3], data: b"bca".to_vec() }
    );
}

#[test]
fn dictionaries_are_spelled_out() {
    let c = PlainCodec {};
    let col = ColumnData::StringDict {
        indices: vec![2, 0, 1],
        dict_offsets: vec![0, 2],
        dict_data: b"abc".to_vec(),
    };
    assert_eq!(
        col.decode_string_dict(&c),
        ColumnData::String { offsets: vec![0, 1, 1, 3], data: b"cab".to_vec() }
    );
}

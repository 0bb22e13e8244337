//! Scans over the row groups of a memory-mapped column store.

pub mod assign_laws;
pub mod any_laws;
pub mod apart_laws;
pub mod arrays;
pub mod batch;
pub mod batch_laws;
pub mod bools;
pub mod by_id;
pub mod bytes;
pub mod cells;
pub mod codec;
pub mod column;
pub mod column_ops;
pub mod column_scan;
pub mod columnar;
pub mod dict_text;
pub mod dict_values;
pub mod double;
pub mod extract;
pub mod equal_laws;
pub mod estimate_laws;
pub mod extract_laws;
pub mod flag_laws;
pub mod footer;
pub mod found_laws;
pub mod fts;
pub mod gather_laws;
pub mod group;
pub mod group_laws;
pub mod groupby;
pub mod id_laws;
pub mod identity_laws;
pub mod ids;
pub mod index_laws;
pub mod key_laws;
pub mod length_laws;
pub mod lengths;
pub mod like;
pub mod like_extract;
pub mod like_laws;
pub mod like_row_laws;
pub mod like_scan;
pub mod limit_laws;
pub mod meaning;
pub mod model;
pub mod multi;
pub mod not_count;
pub mod not_laws;
pub mod number_laws;
pub mod numeric;
pub mod occur_laws;
pub mod order;
pub mod order_laws;
pub mod outside;
pub mod overlay;
pub mod overlay_laws;
pub mod page_laws;
pub mod pattern_laws;
pub mod pick_laws;
pub mod plain;
pub mod pred_laws;
pub mod prune;
pub mod range_ids;
pub mod range_laws;
pub mod ranking;
pub mod read_laws;
pub mod reads;
pub mod repeat_laws;
pub mod retrieve;
pub mod retrieve_laws;
pub mod row_batch;
pub mod row_laws;
pub mod scan_laws;
pub mod scattered;
pub mod select;
pub mod set_laws;
pub mod shown_laws;
pub mod sorted;
pub mod stats;
pub mod storage;
pub mod string_laws;
pub mod tally_laws;
pub mod text;
pub mod text_filter;
pub mod text_laws;
pub mod text_scan;
pub mod text_sets;
pub mod to_arrow;
pub mod topk;
pub mod update;
pub mod update_laws;
pub mod value_laws;

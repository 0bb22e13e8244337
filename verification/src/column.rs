//! Decoded columns.

use vstd::prelude::*;

use crate::double::F64;

verus! {

/// How the components of a quantised vector are stored.
#[derive(Clone, Copy, Debug, PartialEq, Eq, Structural)]
pub enum VectorCodec {
    BFloat16,
    Int8,
    UInt8,
    Bit1,
    TurboQuant2,
    TurboQuant3,
    TurboQuant4,
}

/// The values of one column.
#[derive(Debug, PartialEq, Eq)]
pub enum ColumnData {
    Int64(Vec<i64>),
    Float64(Vec<F64>),
    String { offsets: Vec<u64>, data: Vec<u8> },
    StringDict { indices: Vec<u32>, dict_offsets: Vec<u64>, dict_data: Vec<u8> },
    Bool { data: Vec<u8>, len: usize },
    Binary { offsets: Vec<u64>, data: Vec<u8> },
    FixedList { data: Vec<u8>, dim: u32 },
    Float16List { data: Vec<u8>, dim: u32 },
    QuantizedList { data: Vec<u8>, dim: u32, codec: VectorCodec },
}

/// The values of one column, as sequences.
#[verifier::ext_equal]
pub enum ColumnSeq {
    Int64(Seq<i64>),
    Float64(Seq<F64>),
    String { offsets: Seq<u64>, data: Seq<u8> },
    StringDict { indices: Seq<u32>, dict_offsets: Seq<u64>, dict_data: Seq<u8> },
    Bool { data: Seq<u8>, len: usize },
    Binary { offsets: Seq<u64>, data: Seq<u8> },
    FixedList { data: Seq<u8>, dim: u32 },
    Float16List { data: Seq<u8>, dim: u32 },
    QuantizedList { data: Seq<u8>, dim: u32, codec: VectorCodec },
}

impl View for ColumnData {
    type V = ColumnSeq;

    open spec fn view(&self) -> ColumnSeq {
        match *self {
            ColumnData::Int64(v) => ColumnSeq::Int64(v@),
            ColumnData::Float64(v) => ColumnSeq::Float64(v@),
            ColumnData::String { offsets, data } => ColumnSeq::String {
                offsets: offsets@,
                data: data@,
            },
            ColumnData::StringDict { indices, dict_offsets, dict_data } => ColumnSeq::StringDict {
                indices: indices@,
                dict_offsets: dict_offsets@,
                dict_data: dict_data@,
            },
            ColumnData::Bool { data, len } => ColumnSeq::Bool { data: data@, len },
            ColumnData::Binary { offsets, data } => ColumnSeq::Binary {
                offsets: offsets@,
                data: data@,
            },
            ColumnData::FixedList { data, dim } => ColumnSeq::FixedList { data: data@, dim },
            ColumnData::Float16List { data, dim } => ColumnSeq::Float16List { data: data@, dim },
            ColumnData::QuantizedList { data, dim, codec } => ColumnSeq::QuantizedList {
                data: data@,
                dim,
                codec,
            },
        }
    }
}

/// A dictionary-coded string column: one index for each row, 0 for a missing value and `k` for
/// the `k`-th value.
#[derive(Debug)]
pub struct StringDictView {
    pub indices: Vec<u32>,
    pub values: Vec<Option<Vec<u8>>>,
}

/// A dictionary-coded string column, as sequences.
#[verifier::ext_equal]
pub struct DictSeq {
    pub indices: Seq<u32>,
    pub values: Seq<Option<Seq<u8>>>,
}

/// The bytes behind an optional vector.
pub open spec fn bytes_view(v: Option<Vec<u8>>) -> Option<Seq<u8>> {
    match v {
        None => None,
        Some(b) => Some(b@),
    }
}

impl View for StringDictView {
    type V = DictSeq;

    open spec fn view(&self) -> DictSeq {
        DictSeq {
            indices: self.indices@,
            values: Seq::new(self.values@.len(), |i: int| bytes_view(self.values@[i])),
        }
    }
}

impl DictSeq {
    /// The value with index `k`.
    pub open spec fn value(self, k: int) -> Option<Seq<u8>> {
        if 1 <= k <= self.values.len() {
            self.values[k - 1]
        } else {
            None
        }
    }

    /// The first index from `k` on whose value is `target`.
    pub open spec fn find_from(self, target: Seq<u8>, k: int) -> Option<int>
        decreases self.values.len() + 1 - k,
    {
        if k > self.values.len() {
            None
        } else if self.value(k) == Some(target) {
            Some(k)
        } else {
            self.find_from(target, k + 1)
        }
    }

    /// The first index whose value is `target`.
    pub open spec fn find(self, target: Seq<u8>) -> Option<int> {
        self.find_from(target, 1)
    }
}

impl StringDictView {
    /// The value with index `k`.
    pub fn value(&self, k: u32) -> (r: Option<&Vec<u8>>)
        ensures
            r is Some == self@.value(k as int) is Some,
            r matches Some(v) ==> self@.value(k as int) == Some(v@),
    {
        if k == 0 || (k - 1) as u64 >= self.values.len() as u64 {
            return None;
        }
        let at: usize = (k - 1) as usize;
        assert(self@.values[at as int] == bytes_view(self.values@[at as int]));
        match &self.values[at] {
            None => None,
            Some(v) => Some(v),
        }
    }

    /// The first index whose value is `target`.
    pub fn find_value(&self, target: &[u8]) -> (r: Option<usize>)
        ensures
            r is Some == self@.find(target@) is Some,
            r matches Some(k) ==> self@.find(target@) == Some(k as int) && 1 <= k
                <= self.values@.len(),
    {
        let mut i: usize = 0;
        while i < self.values.len()
            invariant
                i <= self.values@.len(),
                self@.find(target@) == self@.find_from(target@, i + 1),
            decreases self.values@.len() - i,
        {
            assert(self@.values[i as int] == bytes_view(self.values@[i as int]));
            match &self.values[i] {
                None => {},
                Some(v) => if crate::model::bytes_eq(v.as_slice(), target) {
                    return Some(i + 1);
                },
            }
            i = i + 1;
        }
        None
    }
}

} // verus!

//! The layer below the scans: how stored bytes become columns.

use vstd::prelude::*;

use crate::cells::ListForm;
use crate::column::{ColumnData, ColumnSeq, DictSeq, StringDictView, VectorCodec};
use crate::model::ColumnType;

verus! {

/// Reads the bodies and columns of row groups. Each reading is a function of the bytes.
pub trait ColumnCodec: Sized {
    /// The body behind the stored bytes of a compressed row group.
    spec fn inflated(&self, flag: u8, stored: Seq<u8>) -> Option<Seq<u8>>;

    /// The column at the start of `bytes`, with the number of bytes that it takes. A tagged column
    /// starts with its encoding.
    spec fn decoded(&self, tagged: bool, bytes: Seq<u8>, kind: ColumnType) -> Option<
        (ColumnSeq, nat),
    >;

    /// The number of bytes that the column at the start of `bytes` takes.
    spec fn extent(&self, tagged: bool, bytes: Seq<u8>, kind: ColumnType) -> Option<nat>;

    /// The dictionary column in `bytes`, which follow the encoding.
    spec fn dictionary(&self, compact: bool, bytes: Seq<u8>) -> Option<DictSeq>;

    /// The first `n` rows of the tagged column at the start of `bytes`, with the number of bytes that
    /// the column takes.
    spec fn decoded_first(&self, bytes: Seq<u8>, kind: ColumnType, n: nat) -> Option<
        (ColumnSeq, nat),
    >;

    /// The number of bytes that a quantised vector takes.
    spec fn width(&self, codec: VectorCodec, dim: nat) -> Option<nat>;

    /// The bytes of `dim` floats of 32 bits each that a vector in another form stands for.
    spec fn expanded(&self, form: ListForm, dim: u32, bytes: Seq<u8>) -> Option<Seq<u8>>;

    /// The bytes that a reference stands for.
    spec fn blob(&self, reference: Seq<u8>) -> Option<Seq<u8>>;

    /// Inflates the body of a compressed row group.
    fn decompress_rg_body(&self, flag: u8, stored: &[u8]) -> (r: Option<Vec<u8>>)
        ensures
            r is Some == self.inflated(flag, stored@) is Some,
            r matches Some(v) ==> self.inflated(flag, stored@) == Some(v@),
    ;

    /// Reads the column at the start of `bytes`.
    fn read_column(&self, tagged: bool, bytes: &[u8], kind: ColumnType) -> (r: Option<
        (ColumnData, usize),
    >)
        ensures
            r is Some == self.decoded(tagged, bytes@, kind) is Some,
            r matches Some((col, n)) ==> self.decoded(tagged, bytes@, kind) == Some(
                (col@, n as nat),
            ),
    ;

    /// Measures the column at the start of `bytes`.
    fn skip_column(&self, tagged: bool, bytes: &[u8], kind: ColumnType) -> (r: Option<usize>)
        ensures
            r is Some == self.extent(tagged, bytes@, kind) is Some,
            r matches Some(n) ==> self.extent(tagged, bytes@, kind) == Some(n as nat),
    ;

    /// Reads a dictionary column.
    fn read_dictionary(&self, compact: bool, bytes: &[u8]) -> (r: Option<StringDictView>)
        ensures
            r is Some == self.dictionary(compact, bytes@) is Some,
            r matches Some(d) ==> self.dictionary(compact, bytes@) == Some(d@),
    ;

    /// Reads the first `n` rows of the tagged column at the start of `bytes`.
    fn read_column_partial(&self, bytes: &[u8], kind: ColumnType, n: usize) -> (r: Option<
        (ColumnData, usize),
    >)
        ensures
            r is Some == self.decoded_first(bytes@, kind, n as nat) is Some,
            r matches Some((col, used)) ==> self.decoded_first(bytes@, kind, n as nat) == Some(
                (col@, used as nat),
            ),
    ;

    /// The number of bytes that a quantised vector takes.
    fn row_width(&self, codec: VectorCodec, dim: usize) -> (r: Option<usize>)
        ensures
            r is Some == self.width(codec, dim as nat) is Some,
            r matches Some(n) ==> self.width(codec, dim as nat) == Some(n as nat),
    ;

    /// Reads a vector in another form as floats of 32 bits.
    fn expand_vector(&self, form: ListForm, dim: u32, bytes: &[u8]) -> (r: Option<Vec<u8>>)
        ensures
            r is Some == self.expanded(form, dim, bytes@) is Some,
            r matches Some(v) ==> self.expanded(form, dim, bytes@) == Some(v@),
    ;

    /// Reads the bytes that a reference stands for.
    fn read_blob(&self, reference: &[u8]) -> (r: Option<Vec<u8>>)
        ensures
            r is Some == self.blob(reference@) is Some,
            r matches Some(v) ==> self.blob(reference@) == Some(v@),
    ;
}

} // verus!

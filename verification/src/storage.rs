//! A store as the scans see it: the catalogue, the mapped file, the codec and what was loaded.

use ahash::AHashMap;
use vstd::prelude::*;

use crate::codec::ColumnCodec;
use crate::column::ColumnData;
use crate::model::{ScanError, V4Footer};

verus! {

/// A store that is scanned.
pub struct OnDemandStorage<C: ColumnCodec> {
    /// The catalogue, where the file has one.
    pub footer: Option<V4Footer>,
    /// Where the catalogue stands in the file; 0 where it has none.
    pub footer_offset: u64,
    /// The bytes of the file, where it is open.
    pub file: Option<Vec<u8>>,
    /// Reads bodies and columns.
    pub codec: C,
    /// Rows that the file header counts.
    pub row_count: u64,
    /// The identifiers of all rows, empty until they are loaded.
    pub ids: Vec<u64>,
    /// The deletion bitmaps of all row groups, one after the other.
    pub deleted: Vec<u8>,
    /// The identifier that the next row gets.
    pub next_id: u64,
    /// The row of each identifier, once it is asked for.
    pub id_to_idx: Option<AHashMap<u64, usize>>,
    /// Rows that were appended since the file was written.
    pub delta_rows: usize,
    /// The identifiers of those rows, where there are any.
    pub delta_ids: Option<Vec<u64>>,
    /// Columns that are held in memory.
    pub columns: Vec<ColumnData>,
    /// What has to be made durable, in this order.
    pub journal: Vec<Change>,
}

/// One step towards making an update durable.
#[derive(Debug, PartialEq, Eq)]
pub enum Change {
    /// Drop the exact statistics of the columns.
    DropStats,
    /// Write the catalogue again.
    Footer,
    /// Write bytes at a place in the file.
    Bytes { at: u64, bytes: Vec<u8> },
}

/// One step towards making an update durable.
#[verifier::ext_equal]
pub enum ChangeSeq {
    DropStats,
    Footer,
    Bytes { at: int, bytes: Seq<u8> },
}

impl View for Change {
    type V = ChangeSeq;

    open spec fn view(&self) -> ChangeSeq {
        match *self {
            Change::DropStats => ChangeSeq::DropStats,
            Change::Footer => ChangeSeq::Footer,
            Change::Bytes { at, bytes } => ChangeSeq::Bytes { at: at as int, bytes: bytes@ },
        }
    }
}

impl<C: ColumnCodec> OnDemandStorage<C> {
    /// Whether the rows of the store can be counted by the machine.
    pub open spec fn wf(self) -> bool {
        &&& self.ids@.len() + self.delta_rows <= usize::MAX
        &&& self.footer matches Some(f) ==> f.wf() && f.total_rows() + self.delta_rows <= usize::MAX
    }

    /// Tells whether the rows of the store can be counted by the machine.
    pub fn rows_fit(&self) -> (r: bool)
        ensures
            r == self.wf(),
    {
        if self.delta_rows > usize::MAX - self.ids.len() {
            return false;
        }
        match &self.footer {
            None => true,
            Some(f) => match f.count_rows() {
                None => false,
                Some(n) => self.delta_rows <= usize::MAX - n,
            },
        }
    }

    /// The steps that are still to be made durable.
    pub open spec fn steps(self) -> Seq<ChangeSeq> {
        Seq::new(self.journal@.len(), |i: int| self.journal@[i]@)
    }

    /// The catalogue as it is held, where there is one.
    pub fn get_or_load_footer(&self) -> (r: Option<&V4Footer>)
        ensures
            match r {
                None => self.footer is None,
                Some(f) => self.footer == Some(*f),
            },
    {
        match &self.footer {
            None => None,
            Some(f) => Some(f),
        }
    }

    /// Forgets the catalogue.
    pub fn invalidate_footer_cache(&mut self)
        ensures
            *final(self) == (OnDemandStorage { footer: None, ..*old(self) }),
    {
        self.footer = None;
    }
}

/// Row numbers as a sequence.
pub open spec fn rows_view(r: Result<Option<Vec<usize>>, ScanError>) -> Result<
    Option<Seq<usize>>,
    ScanError,
> {
    match r {
        Err(e) => Err(e),
        Ok(None) => Ok(None),
        Ok(Some(v)) => Ok(Some(v@)),
    }
}

/// The largest number of rows that a limit lets through.
pub open spec fn max_rows(limit: Option<usize>) -> int {
    match limit {
        None => usize::MAX as int,
        Some(n) => n as int,
    }
}

} // verus!

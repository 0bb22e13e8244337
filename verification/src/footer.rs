//! When a catalogue is taken from memory, and where it is read from the file.

use vstd::prelude::*;

use crate::group::get_tail;
use crate::model::bytes_eq;

verus! {

/// What is known of the catalogue before the file is looked at: the length of the mapping, 0 where
/// there is none or it is stale, and whether a catalogue is held.
#[derive(Clone, Copy, Debug, PartialEq, Eq, Structural)]
pub struct FooterCache {
    pub mapped: u64,
    pub held: bool,
}

/// How the file is laid out.
pub struct FooterFormat {
    /// The length of the header.
    pub header_size: u64,
    /// The version whose files end in a catalogue.
    pub version: u32,
    /// The last bytes of a catalogue.
    pub magic: Vec<u8>,
}

/// What is to be done next.
#[derive(Clone, Copy, Debug, PartialEq, Eq, Structural)]
pub enum FooterAction {
    /// Use the catalogue that is held.
    UseHeld,
    /// There is no catalogue.
    NoFooter,
    /// Ask for the length of the file.
    AskLength,
    /// Drop the mapping where `unmap`, open the file where it is closed, and read the header.
    ReadHeader { unmap: bool },
    /// Read bytes of the file.
    ReadBytes { at: u64, count: u64 },
    /// Parse the bytes that were read, and hold the catalogue.
    Parse,
}

/// What came of the last action.
pub enum FooterEvent<'a> {
    /// A catalogue is asked for.
    Asked,
    /// The length of the file; 0 where it could not be had.
    Length { len: u64 },
    /// The file could not be opened.
    Closed,
    /// The header of a file of `len` bytes.
    Header { len: u64, version: u32, footer_offset: u64 },
    /// The bytes that were read.
    Bytes(&'a [u8]),
}

/// What came of the last action, as sequences.
pub enum FooterEventSeq {
    Asked,
    Length { len: u64 },
    Closed,
    Header { len: u64, version: u32, footer_offset: u64 },
    Bytes(Seq<u8>),
}

impl<'a> View for FooterEvent<'a> {
    type V = FooterEventSeq;

    open spec fn view(&self) -> FooterEventSeq {
        match *self {
            FooterEvent::Asked => FooterEventSeq::Asked,
            FooterEvent::Length { len } => FooterEventSeq::Length { len },
            FooterEvent::Closed => FooterEventSeq::Closed,
            FooterEvent::Header { len, version, footer_offset } => FooterEventSeq::Header {
                len,
                version,
                footer_offset,
            },
            FooterEvent::Bytes(b) => FooterEventSeq::Bytes(b@),
        }
    }
}

impl FooterFormat {
    /// Whether bytes end like a catalogue.
    pub open spec fn ends_well(self, bytes: Seq<u8>) -> bool {
        &&& self.magic@.len() <= bytes.len()
        &&& bytes.subrange(bytes.len() - self.magic@.len(), bytes.len() as int) == self.magic@
    }

    /// What is to be done after an event. A mapping whose length is known to be right, or that of the
    /// file, vouches for the catalogue that is held.
    pub open spec fn next(self, cache: FooterCache, event: FooterEventSeq) -> FooterAction {
        match event {
            FooterEventSeq::Asked => if cache.mapped > 0 && cache.held {
                FooterAction::UseHeld
            } else {
                FooterAction::AskLength
            },
            FooterEventSeq::Length { len } => if len < self.header_size {
                FooterAction::NoFooter
            } else if cache.held && cache.mapped == len {
                FooterAction::UseHeld
            } else {
                FooterAction::ReadHeader { unmap: cache.mapped != 0 && cache.mapped != len }
            },
            FooterEventSeq::Closed => FooterAction::NoFooter,
            FooterEventSeq::Header { len, version, footer_offset } => if footer_offset == 0
                || version != self.version || footer_offset + 16 > len {
                FooterAction::NoFooter
            } else {
                FooterAction::ReadBytes { at: footer_offset, count: (len - footer_offset) as u64 }
            },
            FooterEventSeq::Bytes(b) => if self.ends_well(b) {
                FooterAction::Parse
            } else {
                FooterAction::NoFooter
            },
        }
    }

    /// Decides what is to be done after an event.
    pub fn decide(&self, cache: FooterCache, event: &FooterEvent) -> (r: FooterAction)
        ensures
            r == self.next(cache, event@),
    {
        match event {
            FooterEvent::Asked => if cache.mapped > 0 && cache.held {
                FooterAction::UseHeld
            } else {
                FooterAction::AskLength
            },
            FooterEvent::Length { len } => if *len < self.header_size {
                FooterAction::NoFooter
            } else if cache.held && cache.mapped == *len {
                FooterAction::UseHeld
            } else {
                FooterAction::ReadHeader { unmap: cache.mapped != 0 && cache.mapped != *len }
            },
            FooterEvent::Closed => FooterAction::NoFooter,
            FooterEvent::Header { len, version, footer_offset } => if *footer_offset == 0
                || *version != self.version || *footer_offset as u128 + 16 > *len as u128 {
                FooterAction::NoFooter
            } else {
                FooterAction::ReadBytes { at: *footer_offset, count: *len - *footer_offset }
            },
            FooterEvent::Bytes(b) => {
                let n: usize = self.magic.len();
                if n <= b.len() && bytes_eq(get_tail(b, b.len() - n), self.magic.as_slice()) {
                    FooterAction::Parse
                } else {
                    FooterAction::NoFooter
                }
            },
        }
    }

    /// A catalogue is read to the end of the file, from behind its start, and only where the header
    /// says that there is one.
    pub proof fn law_footer_is_the_end(
        self,
        cache: FooterCache,
        len: u64,
        version: u32,
        footer_offset: u64,
    )
        ensures
            self.next(
                cache,
                FooterEventSeq::Header { len, version, footer_offset },
            ) matches FooterAction::ReadBytes { at, count } ==> at == footer_offset && at > 0 && at
                + count == len && count >= 16 && version == self.version,
    {
    }

    /// Without a mapping a catalogue that is held is not used, unless the file is empty and has no
    /// header.
    pub proof fn law_stale_is_not_used(self, held: bool, len: u64)
        requires
            len > 0,
        ensures
            ({
                let cache = FooterCache { mapped: 0, held };
                &&& self.next(cache, FooterEventSeq::Asked) == FooterAction::AskLength
                &&& self.next(cache, FooterEventSeq::Length { len }) != FooterAction::UseHeld
            }),
    {
    }
}

} // verus!

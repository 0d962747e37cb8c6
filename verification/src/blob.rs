//! Objects held in memory.
use crate::byte_string::{bytes_contents, clone_bytes, slice_bytes};
use crate::error::{IoErrorKind, SlateDBError};
use crate::text::{decimal, decimal_text, range_chars, range_text};
use bytes::Bytes;
use std::ops::Range;
use vstd::prelude::*;
use vstd::string::*;

verus! {

/// An immutable object held entirely in memory.
pub struct BytesBlob {
    bytes: Bytes,
}

impl View for BytesBlob {
    type V = Seq<u8>;

    closed spec fn view(&self) -> Seq<u8> {
        bytes_contents(self.bytes)
    }
}

/// The message about a range that an object does not have.
pub open spec fn invalid_range_chars(start: u64, end: u64, len: nat) -> Seq<char> {
    "invalid in-memory WAL range "@ + range_chars(start, end) + " for object length "@ + decimal(
        len,
    )
}

/// The error about a range that an object does not have.
pub fn invalid_range(range: Range<u64>, len: usize) -> (error: SlateDBError)
    ensures
        error matches SlateDBError::WalDataError { kind, message } && kind
            == IoErrorKind::InvalidData && message@ == invalid_range_chars(
            range.start,
            range.end,
            len as nat,
        ),
        error matches SlateDBError::WalDataError { message, .. } && message@
            == "invalid in-memory WAL range "@ + decimal(range.start as nat) + ".."@ + decimal(
            range.end as nat,
        ) + " for object length "@ + decimal(len as nat),
{
    let mut message: String = "invalid in-memory WAL range ".to_owned();
    message.append(range_text(range.start, range.end).as_str());
    message.append(" for object length ");
    message.append(decimal_text(len as u64).as_str());
    SlateDBError::WalDataError { kind: IoErrorKind::InvalidData, message }
}

impl BytesBlob {
    /// An object of the given bytes.
    pub fn new(bytes: Bytes) -> (blob: Self)
        ensures
            blob@ == bytes_contents(bytes),
    {
        BytesBlob { bytes }
    }

    /// The length of the object.
    pub fn len(&self) -> (len: Result<u64, SlateDBError>)
        ensures
            len matches Ok(len) && len == self@.len(),
    {
        Ok(self.bytes.len() as u64)
    }

    /// The bytes of a range of the object.
    pub fn read_range(&self, range: Range<u64>) -> (part: Result<Bytes, SlateDBError>)
        ensures
            match part {
                Ok(part) => {
                    &&& range.start <= range.end <= self@.len()
                    &&& bytes_contents(part) == self@.subrange(
                        range.start as int,
                        range.end as int,
                    )
                },
                Err(error) => {
                    &&& !(range.start <= range.end <= self@.len())
                    &&& error matches SlateDBError::WalDataError { kind, message } && kind
                        == IoErrorKind::InvalidData && message@ == invalid_range_chars(
                        range.start,
                        range.end,
                        self@.len(),
                    )
                },
            },
    {
        let len: usize = self.bytes.len();
        let start: u64 = range.start;
        let end: u64 = range.end;
        if start > end || end > len as u64 {
            return Err(invalid_range(range, len));
        }
        Ok(slice_bytes(&self.bytes, start as usize, end as usize))
    }

    /// All bytes of the object.
    pub fn read(&self) -> (all: Result<Bytes, SlateDBError>)
        ensures
            all matches Ok(all) && bytes_contents(all) == self@,
    {
        Ok(clone_bytes(&self.bytes))
    }
}

/// The whole object is its full range.
pub proof fn law_whole_object_is_its_full_range(blob: BytesBlob)
    ensures
        blob@.subrange(0, blob@.len() as int) == blob@,
{
    assert(blob@.subrange(0, blob@.len() as int) =~= blob@);
}

} // verus!

use vstd::prelude::*;

verus! {

/// Why a row could not be turned into bytes or back.
#[derive(Debug)]
pub enum RowSerializerError {
    ErrRowSerialize(String),
    ErrRowDeserialize(String),
}

/// Why a storage operation failed.
#[derive(Debug)]
pub enum InternalStorageError {
    /// The row lacks the table's primary-key column.
    ErrPrimaryKeyNotFound(String),
    /// The page holding the row could not be written; the write was undone.
    ErrWriteToDisk(String),
    /// The page holding the row could not be read, or does not hold the row's range.
    ErrReadFromDisk(String),
    /// No row is stored under the key.
    ErrInternal(String),
    /// The row could not be encoded, or its bytes could not be decoded.
    SerializerError(RowSerializerError),
}

} // verus!

use vstd::prelude::*;

verus! {

/// Every error that the storage engine, the table layer and the query layer report.
#[derive(Debug, Clone, Copy, PartialEq, Eq, Structural)]
pub enum DbError {
    RecordMismatch,
    SpaceOver,
    RecordAbsent,
    PageAbsent,
    CorruptedDataError,
    DuplicateKey,
    FileError,
    PageTypeMismatch,
    PageFlagMismatch,
    PageCorrupted,
    MagicMismatch,
    ChecksumMismatch,
    CorruptedWAL,
    InsufficientParams,
    CorruptedLRU,
    TableNameExists,
    ColumnAbsent,
    InvalidComparison,
    TypeMismatch,
    TableAbsent,
    MalformedRequest,
    InvalidOperation,
    InvalidColumn,
    DBExists,
    DBAbsent,
    QueueClosed,
    TooBigRecord,
}

/// The name of each error, as its debug form prints it.
pub open spec fn error_name(e: DbError) -> Seq<char> {
    match e {
        DbError::RecordMismatch => "RecordMismatch"@,
        DbError::SpaceOver => "SpaceOver"@,
        DbError::RecordAbsent => "RecordAbsent"@,
        DbError::PageAbsent => "PageAbsent"@,
        DbError::CorruptedDataError => "CorruptedDataError"@,
        DbError::DuplicateKey => "DuplicateKey"@,
        DbError::FileError => "FileError"@,
        DbError::PageTypeMismatch => "PageTypeMismatch"@,
        DbError::PageFlagMismatch => "PageFlagMismatch"@,
        DbError::PageCorrupted => "PageCorrupted"@,
        DbError::MagicMismatch => "MagicMismatch"@,
        DbError::ChecksumMismatch => "ChecksumMismatch"@,
        DbError::CorruptedWAL => "CorruptedWAL"@,
        DbError::InsufficientParams => "InsufficientParams"@,
        DbError::CorruptedLRU => "CorruptedLRU"@,
        DbError::TableNameExists => "TableNameExists"@,
        DbError::ColumnAbsent => "ColumnAbsent"@,
        DbError::InvalidComparison => "InvalidComparison"@,
        DbError::TypeMismatch => "TypeMismatch"@,
        DbError::TableAbsent => "TableAbsent"@,
        DbError::MalformedRequest => "MalformedRequest"@,
        DbError::InvalidOperation => "InvalidOperation"@,
        DbError::InvalidColumn => "InvalidColumn"@,
        DbError::DBExists => "DBExists"@,
        DbError::DBAbsent => "DBAbsent"@,
        DbError::QueueClosed => "QueueClosed"@,
        DbError::TooBigRecord => "TooBigRecord"@,
    }
}

/// The human-readable message of each error.
pub open spec fn error_message(e: DbError) -> Seq<char> {
    match e {
        DbError::RecordMismatch => "Record data corrupted."@,
        DbError::SpaceOver => "Page is out of space."@,
        DbError::RecordAbsent => "Record doesn't exist."@,
        DbError::PageAbsent => "Given page ID absent."@,
        DbError::CorruptedDataError => "Corrupted data."@,
        DbError::DuplicateKey => "Duplicate key."@,
        DbError::FileError => "Error while writing file."@,
        DbError::PageTypeMismatch => "Unknown page type."@,
        DbError::PageFlagMismatch => "Unknown page flag."@,
        DbError::PageCorrupted => "Corrupted page."@,
        DbError::MagicMismatch => "Page magic doesn't match DB magic."@,
        DbError::ChecksumMismatch => "Checksum mismatch."@,
        DbError::CorruptedWAL => "Corrupted WAL."@,
        DbError::InsufficientParams => "Not enough args to function."@,
        DbError::CorruptedLRU => "Corrupted LRU."@,
        DbError::TableNameExists => "Table name exists."@,
        DbError::ColumnAbsent => "No such column."@,
        DbError::InvalidComparison => "Can't compare these two values."@,
        DbError::TypeMismatch => "No such type."@,
        DbError::TableAbsent => "No such table."@,
        DbError::MalformedRequest => "Bad request."@,
        DbError::InvalidOperation => "No such operation."@,
        DbError::InvalidColumn => "No such column."@,
        DbError::DBExists => "Database exists."@,
        DbError::DBAbsent => "Database doesn't exist."@,
        DbError::QueueClosed => "Queue is full."@,
        DbError::TooBigRecord => "The record is too big."@,
    }
}

impl DbError {
    /// The error's name, as its debug form prints it.
    pub fn name(&self) -> (n: &'static str)
        ensures
            n@ == error_name(*self),
    {
        match self {
            DbError::RecordMismatch => "RecordMismatch",
            DbError::SpaceOver => "SpaceOver",
            DbError::RecordAbsent => "RecordAbsent",
            DbError::PageAbsent => "PageAbsent",
            DbError::CorruptedDataError => "CorruptedDataError",
            DbError::DuplicateKey => "DuplicateKey",
            DbError::FileError => "FileError",
            DbError::PageTypeMismatch => "PageTypeMismatch",
            DbError::PageFlagMismatch => "PageFlagMismatch",
            DbError::PageCorrupted => "PageCorrupted",
            DbError::MagicMismatch => "MagicMismatch",
            DbError::ChecksumMismatch => "ChecksumMismatch",
            DbError::CorruptedWAL => "CorruptedWAL",
            DbError::InsufficientParams => "InsufficientParams",
            DbError::CorruptedLRU => "CorruptedLRU",
            DbError::TableNameExists => "TableNameExists",
            DbError::ColumnAbsent => "ColumnAbsent",
            DbError::InvalidComparison => "InvalidComparison",
            DbError::TypeMismatch => "TypeMismatch",
            DbError::TableAbsent => "TableAbsent",
            DbError::MalformedRequest => "MalformedRequest",
            DbError::InvalidOperation => "InvalidOperation",
            DbError::InvalidColumn => "InvalidColumn",
            DbError::DBExists => "DBExists",
            DbError::DBAbsent => "DBAbsent",
            DbError::QueueClosed => "QueueClosed",
            DbError::TooBigRecord => "TooBigRecord",
        }
    }

    /// The message shown to users for this error.
    pub fn message(&self) -> (msg: &'static str)
        ensures
            msg@ == error_message(*self),
    {
        match self {
            DbError::RecordMismatch => "Record data corrupted.",
            DbError::SpaceOver => "Page is out of space.",
            DbError::RecordAbsent => "Record doesn't exist.",
            DbError::PageAbsent => "Given page ID absent.",
            DbError::CorruptedDataError => "Corrupted data.",
            DbError::DuplicateKey => "Duplicate key.",
            DbError::FileError => "Error while writing file.",
            DbError::PageTypeMismatch => "Unknown page type.",
            DbError::PageFlagMismatch => "Unknown page flag.",
            DbError::PageCorrupted => "Corrupted page.",
            DbError::MagicMismatch => "Page magic doesn't match DB magic.",
            DbError::ChecksumMismatch => "Checksum mismatch.",
            DbError::CorruptedWAL => "Corrupted WAL.",
            DbError::InsufficientParams => "Not enough args to function.",
            DbError::CorruptedLRU => "Corrupted LRU.",
            DbError::TableNameExists => "Table name exists.",
            DbError::ColumnAbsent => "No such column.",
            DbError::InvalidComparison => "Can't compare these two values.",
            DbError::TypeMismatch => "No such type.",
            DbError::TableAbsent => "No such table.",
            DbError::MalformedRequest => "Bad request.",
            DbError::InvalidOperation => "No such operation.",
            DbError::InvalidColumn => "No such column.",
            DbError::DBExists => "Database exists.",
            DbError::DBAbsent => "Database doesn't exist.",
            DbError::QueueClosed => "Queue is full.",
            DbError::TooBigRecord => "The record is too big.",
        }
    }
}

} // verus!

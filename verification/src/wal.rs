use vstd::prelude::*;
use vstd::bytes::*;
use crate::bytes_util::{push_u16, push_u32, push_u64, push_bytes, push_zeros, copy_range, copy_tail, tail, read_u16, read_u32, read_u64};
use crate::db_errors::DbError;

verus! {

/// Size in bytes of the fixed part of a page log entry.
pub const LOG_HEADER_SIZE: u16 = 24;

/// What a page log entry records.
#[derive(Debug, Clone, Copy, PartialEq, Eq, Structural)]
pub enum TaskType {
    Write,
    Update,
    Delete,
}

/// A page log entry: its size in bytes, its sequence number, what it records, and the page
/// and record it concerns. Writes and updates carry the record's bytes after the fixed part.
#[derive(Debug, Clone, Copy)]
pub struct Log {
    pub log_size: u16,
    pub lsn: u64,
    pub task_type: TaskType,
    pub page_id: u64,
    pub record_id: u32,
}

/// On-disk code of a task.
pub open spec fn task_code(t: TaskType) -> u16 {
    match t {
        TaskType::Write => 0,
        TaskType::Update => 1,
        TaskType::Delete => 2,
    }
}

/// The task that an on-disk code stands for, if any.
pub open spec fn task_of_code(c: u16) -> Option<TaskType> {
    if c == 0 {
        Some(TaskType::Write)
    } else if c == 1 {
        Some(TaskType::Update)
    } else if c == 2 {
        Some(TaskType::Delete)
    } else {
        None
    }
}

/// The 24 bytes of the fixed part of an entry, all little endian: size, sequence number,
/// task, page, record.
pub open spec fn log_header_bytes(l: Log) -> Seq<u8> {
    spec_u16_to_le_bytes(l.log_size) + spec_u64_to_le_bytes(l.lsn) + spec_u16_to_le_bytes(task_code(l.task_type))
        + spec_u64_to_le_bytes(l.page_id) + spec_u32_to_le_bytes(l.record_id)
}

/// `n` zero bytes.
pub open spec fn zeros(n: int) -> Seq<u8> {
    Seq::new(n as nat, |k: int| 0u8)
}

/// What decoding an entry from the bytes `b` (the file from the entry's offset on) gives:
/// `CorruptedWAL` when fewer than two bytes are there, the size is under 24, fewer bytes
/// than the size are there, or the task code is unknown; otherwise the entry and, but for
/// a delete, the bytes after the fixed part.
pub open spec fn decode_log(b: Seq<u8>) -> Result<(Log, Option<Seq<u8>>), DbError> {
    if b.len() < 2 {
        Err(DbError::CorruptedWAL)
    } else {
        let size = spec_u16_from_le_bytes(b.subrange(0, 2));
        if size < 24 || b.len() < size {
            Err(DbError::CorruptedWAL)
        } else {
            match task_of_code(spec_u16_from_le_bytes(b.subrange(10, 12))) {
                None => Err(DbError::CorruptedWAL),
                Some(t) => {
                    let log = Log {
                        log_size: size,
                        lsn: spec_u64_from_le_bytes(b.subrange(2, 10)),
                        task_type: t,
                        page_id: spec_u64_from_le_bytes(b.subrange(12, 20)),
                        record_id: spec_u32_from_le_bytes(b.subrange(20, 24)),
                    };
                    if t == TaskType::Delete {
                        Ok((log, None))
                    } else {
                        Ok((log, Some(b.subrange(24, size as int))))
                    }
                },
            }
        }
    }
}

fn code_of_task(t: TaskType) -> (c: u16)
    ensures
        c == task_code(t),
{
    match t {
        TaskType::Write => 0,
        TaskType::Update => 1,
        TaskType::Delete => 2,
    }
}

proof fn lemma_log_header_bytes(l: Log)
    ensures
        log_header_bytes(l).len() == 24,
        log_header_bytes(l).subrange(0, 2) == spec_u16_to_le_bytes(l.log_size),
        log_header_bytes(l).subrange(2, 10) == spec_u64_to_le_bytes(l.lsn),
        log_header_bytes(l).subrange(10, 12) == spec_u16_to_le_bytes(task_code(l.task_type)),
        log_header_bytes(l).subrange(12, 20) == spec_u64_to_le_bytes(l.page_id),
        log_header_bytes(l).subrange(20, 24) == spec_u32_to_le_bytes(l.record_id),
{
    lemma_auto_spec_u16_to_from_le_bytes();
    lemma_auto_spec_u32_to_from_le_bytes();
    lemma_auto_spec_u64_to_from_le_bytes();
    let b = log_header_bytes(l);
    assert(spec_u16_to_le_bytes(l.log_size).len() == 2);
    assert(spec_u16_to_le_bytes(task_code(l.task_type)).len() == 2);
    assert(spec_u64_to_le_bytes(l.lsn).len() == 8);
    assert(spec_u64_to_le_bytes(l.page_id).len() == 8);
    assert(spec_u32_to_le_bytes(l.record_id).len() == 4);
    assert(b.subrange(0, 2) =~= spec_u16_to_le_bytes(l.log_size));
    assert(b.subrange(2, 10) =~= spec_u64_to_le_bytes(l.lsn));
    assert(b.subrange(10, 12) =~= spec_u16_to_le_bytes(task_code(l.task_type)));
    assert(b.subrange(12, 20) =~= spec_u64_to_le_bytes(l.page_id));
    assert(b.subrange(20, 24) =~= spec_u32_to_le_bytes(l.record_id));
}

impl Log {
    /// The entry's bytes: the fixed part, then the record's bytes for a write or an update,
    /// or zeros up to the entry's size for a delete. `InsufficientParams` for a write or an
    /// update without the record.
    pub fn serialise(&self, data: Option<&Vec<u8>>) -> (res: Result<Vec<u8>, DbError>)
        requires
            self.log_size >= LOG_HEADER_SIZE,
            self.task_type != TaskType::Delete && data is Some ==> data->Some_0@.len() + LOG_HEADER_SIZE
                == self.log_size,
        ensures
            match res {
                Ok(b) => b@ == log_header_bytes(*self) + (if self.task_type == TaskType::Delete {
                    zeros(self.log_size - LOG_HEADER_SIZE)
                } else {
                    data->Some_0@
                }),
                Err(e) => e == DbError::InsufficientParams && self.task_type != TaskType::Delete && data is None,
            },
    {
        let mut buf: Vec<u8> = Vec::new();
        push_u16(&mut buf, self.log_size);
        push_u64(&mut buf, self.lsn);
        push_u16(&mut buf, code_of_task(self.task_type));
        push_u64(&mut buf, self.page_id);
        push_u32(&mut buf, self.record_id);
        proof {
            assert(buf@ =~= log_header_bytes(*self));
        }
        if matches!(self.task_type, TaskType::Delete) {
            push_zeros(&mut buf, (self.log_size - LOG_HEADER_SIZE) as usize);
            return Ok(buf);
        }
        let record: &Vec<u8> = match data {
            Some(v) => v,
            None => return Err(DbError::InsufficientParams),
        };
        push_bytes(&mut buf, record.as_slice());
        Ok(buf)
    }

    /// Decodes an entry from `bytes`, the log file from the entry's offset on; see
    /// `decode_log`.
    pub fn deserialise(bytes: &[u8]) -> (res: Result<(Log, Option<Vec<u8>>), DbError>)
        ensures
            match decode_log(bytes@) {
                Err(e) => res == Err::<(Log, Option<Vec<u8>>), DbError>(e),
                Ok((l, d)) => res is Ok && res->Ok_0.0 == l && match d {
                    None => res->Ok_0.1 is None,
                    Some(s) => res->Ok_0.1 is Some && res->Ok_0.1->Some_0@ == s,
                },
            },
    {
        if bytes.len() < 2 {
            return Err(DbError::CorruptedWAL);
        }
        let size = read_u16(bytes, 0);
        if size < LOG_HEADER_SIZE || bytes.len() < size as usize {
            return Err(DbError::CorruptedWAL);
        }
        let lsn = read_u64(bytes, 2);
        let task_type = match read_u16(bytes, 10) {
            0 => TaskType::Write,
            1 => TaskType::Update,
            2 => TaskType::Delete,
            _ => return Err(DbError::CorruptedWAL),
        };
        let page_id = read_u64(bytes, 12);
        let record_id = read_u32(bytes, 20);
        let log = Log { log_size: size, lsn, task_type, page_id, record_id };
        if matches!(task_type, TaskType::Delete) {
            return Ok((log, None));
        }
        let data = copy_range(bytes, 24, size as usize);
        Ok((log, Some(data)))
    }

    /// The entry that records `task_type` on `record_id` of `page_id` next after the entry
    /// numbered `last_lsn`: its size counts the record's bytes for a write or an update.
    /// `InsufficientParams` for a write or an update without the record.
    pub fn for_task(task_type: TaskType, last_lsn: u64, page_id: u64, record_id: u32, data: Option<&Vec<u8>>) -> (res:
        Result<Log, DbError>)
        requires
            last_lsn < u64::MAX,
            data matches Some(d) ==> d@.len() + LOG_HEADER_SIZE <= u16::MAX,
        ensures
            match res {
                Ok(l) => {
                    &&& task_type == TaskType::Delete || data is Some
                    &&& l.lsn == last_lsn + 1
                    &&& l.task_type == task_type
                    &&& l.page_id == page_id
                    &&& l.record_id == record_id
                    &&& l.log_size == (if task_type == TaskType::Delete {
                        LOG_HEADER_SIZE as int
                    } else {
                        LOG_HEADER_SIZE + data->Some_0@.len()
                    })
                },
                Err(e) => e == DbError::InsufficientParams && task_type != TaskType::Delete && data is None,
            },
    {
        let lsn = last_lsn + 1;
        match task_type {
            TaskType::Delete => Ok(Log { log_size: LOG_HEADER_SIZE, lsn, task_type, page_id, record_id }),
            _ => match data {
                Some(record) => {
                    let data_size = record.len() as u16;
                    Ok(Log { log_size: LOG_HEADER_SIZE + data_size, lsn, task_type, page_id, record_id })
                },
                None => Err(DbError::InsufficientParams),
            },
        }
    }
}

/// Decoding the bytes of an entry, whatever follows them, gives the entry back, with the
/// record's bytes for a write or an update.
pub proof fn law_log_roundtrip(l: Log, data: Seq<u8>, rest: Seq<u8>)
    requires
        l.log_size >= LOG_HEADER_SIZE,
        l.task_type != TaskType::Delete ==> data.len() + LOG_HEADER_SIZE == l.log_size,
        l.task_type == TaskType::Delete ==> data == zeros(l.log_size - LOG_HEADER_SIZE),
    ensures
        decode_log(log_header_bytes(l) + data + rest) == Ok::<(Log, Option<Seq<u8>>), DbError>(
            (l, if l.task_type == TaskType::Delete { None } else { Some(data) }),
        ),
{
    lemma_log_header_bytes(l);
    lemma_auto_spec_u16_to_from_le_bytes();
    lemma_auto_spec_u32_to_from_le_bytes();
    lemma_auto_spec_u64_to_from_le_bytes();
    let h = log_header_bytes(l);
    let b = h + data + rest;
    assert(b.subrange(0, 2) =~= h.subrange(0, 2));
    assert(b.subrange(2, 10) =~= h.subrange(2, 10));
    assert(b.subrange(10, 12) =~= h.subrange(10, 12));
    assert(b.subrange(12, 20) =~= h.subrange(12, 20));
    assert(b.subrange(20, 24) =~= h.subrange(20, 24));
    assert(b.subrange(24, l.log_size as int) =~= data);
    assert(task_of_code(task_code(l.task_type)) == Some(l.task_type));
}

/// Size in bytes of a log file's header: the last sequence number, then the entry count.
pub const WAL_HEADER_SIZE: u64 = 10;

/// What a log file's header and size say: `CorruptedWAL` for a file of one to nine bytes;
/// for an empty file, no entries and a file of just the header; otherwise the sequence
/// number and entry count stored in the header, little endian.
pub open spec fn wal_header_state(size: u64, head: Seq<u8>) -> Result<(u64, u16, u64), DbError> {
    if size == 0 {
        Ok((0, 0, 10))
    } else if size < 10 {
        Err(DbError::CorruptedWAL)
    } else {
        Ok((spec_u64_from_le_bytes(head.subrange(0, 8)), spec_u16_from_le_bytes(head.subrange(8, 10)), size))
    }
}

/// The bookkeeping of the page log file: how many entries it holds, the sequence number of
/// the last one, and its size in bytes. Entries follow a 10-byte header.
#[derive(Debug, Clone, Copy)]
pub struct WAL {
    pub length: u16,
    pub last_lsn: u64,
    pub file_size: u64,
}

/// The entry at `off` in the log file `file` when `off` lies before `size`: the entry,
/// its record bytes and the offset after it, or the decoding error; `None` past the end.
pub open spec fn entry_at(file: Seq<u8>, size: u64, off: int) -> Result<Option<(Log, Option<Seq<u8>>, int)>, DbError> {
    if off >= size {
        Ok(None)
    } else {
        match decode_log(tail(file, off)) {
            Err(e) => Err(e),
            Ok((l, d)) => Ok(Some((l, d, off + l.log_size))),
        }
    }
}

/// The first entry at or after `off` that concerns page `page_id` and is numbered after
/// `last_lsn`, walking the entries of `file` up to `size`.
pub open spec fn next_log_for(file: Seq<u8>, size: u64, off: int, last_lsn: u64, page_id: u64) -> Result<
    Option<(Log, Option<Seq<u8>>, int)>,
    DbError,
>
    decreases size + 0x10000 - off,
{
    if off >= size {
        Ok(None)
    } else {
        match decode_log(tail(file, off)) {
            Err(e) => Err(e),
            Ok((l, d)) => if l.page_id == page_id && l.lsn > last_lsn {
                Ok(Some((l, d, off + l.log_size)))
            } else if l.log_size >= 24 {
                next_log_for(file, size, off + l.log_size, last_lsn, page_id)
            } else {
                Ok(None)
            },
        }
    }
}

/// An entry read back, with its record bytes and the offset after it, as mathematical
/// objects.
pub open spec fn found_view(r: Option<(Log, Option<Vec<u8>>, u64)>) -> Option<(Log, Option<Seq<u8>>, int)> {
    match r {
        None => None,
        Some((l, d, o)) => Some(
            (
                l,
                match d {
                    Some(v) => Some(v@),
                    None => None,
                },
                o as int,
            ),
        ),
    }
}

proof fn lemma_decode_log_size(b: Seq<u8>)
    ensures
        decode_log(b) matches Ok((l, _)) ==> l.log_size >= 24 && l.log_size <= b.len(),
{
}

/// The search for a page's next log entry only ever finds an entry that concerns that page
/// and is numbered strictly after `last_lsn`, one that the page has not yet applied, and
/// it finds it at or after where the search started.
pub proof fn law_next_log_is_newer(file: Seq<u8>, size: u64, off: int, last_lsn: u64, page_id: u64)
    ensures
        next_log_for(file, size, off, last_lsn, page_id) matches Ok(Some((l, _, o))) ==> {
            &&& l.lsn > last_lsn
            &&& l.page_id == page_id
            &&& off < o
        },
    decreases size + 0x10000 - off,
{
    if off < size {
        lemma_decode_log_size(tail(file, off));
        match decode_log(tail(file, off)) {
            Ok((l, _)) => {
                if !(l.page_id == page_id && l.lsn > last_lsn) && l.log_size >= 24 {
                    law_next_log_is_newer(file, size, off + l.log_size, last_lsn, page_id);
                }
            },
            Err(_) => {},
        }
    }
}

/// The search for a page's next log entry stops at the first entry it meets that the page
/// has not applied: an entry at `off` that concerns the page and is numbered after
/// `last_lsn` is the answer, and any other entry at `off` is passed over, the search going
/// on from the entry after it.
pub proof fn law_next_log_is_first(file: Seq<u8>, size: u64, off: int, last_lsn: u64, page_id: u64)
    ensures
        entry_at(file, size, off) matches Ok(Some((l, d, o))) ==> next_log_for(file, size, off, last_lsn, page_id)
            == (if l.page_id == page_id && l.lsn > last_lsn {
            Ok::<Option<(Log, Option<Seq<u8>>, int)>, DbError>(Some((l, d, o)))
        } else {
            next_log_for(file, size, o, last_lsn, page_id)
        }),
        entry_at(file, size, off) matches Ok(None) ==> next_log_for(file, size, off, last_lsn, page_id) == Ok::<
            Option<(Log, Option<Seq<u8>>, int)>,
            DbError,
        >(None),
        entry_at(file, size, off) matches Err(e) ==> next_log_for(file, size, off, last_lsn, page_id) == Err::<
            Option<(Log, Option<Seq<u8>>, int)>,
            DbError,
        >(e),
{
    if off < size {
        lemma_decode_log_size(tail(file, off));
    }
}

impl WAL {
    /// The bookkeeping of a log file of `size` bytes whose first bytes are `head`; see
    /// `wal_header_state`. A new file gets the header of `header_bytes` written to it.
    pub fn from_header(size: u64, head: &[u8]) -> (res: Result<WAL, DbError>)
        requires
            size >= 10 ==> head@.len() >= 10,
        ensures
            match wal_header_state(size, head@) {
                Err(e) => res == Err::<WAL, DbError>(e),
                Ok((lsn, len, fsize)) => res matches Ok(w) && w.last_lsn == lsn && w.length == len && w.file_size
                    == fsize,
            },
    {
        if size == 0 {
            return Ok(WAL { length: 0, last_lsn: 0, file_size: WAL_HEADER_SIZE });
        }
        if size < WAL_HEADER_SIZE {
            return Err(DbError::CorruptedWAL);
        }
        let last_lsn = read_u64(head, 0);
        let length = read_u16(head, 8);
        Ok(WAL { length, last_lsn, file_size: size })
    }

    /// The file's header: the last sequence number, then the entry count, little endian.
    pub fn header_bytes(&self) -> (out: Vec<u8>)
        ensures
            out@ == spec_u64_to_le_bytes(self.last_lsn) + spec_u16_to_le_bytes(self.length),
    {
        let mut out: Vec<u8> = Vec::new();
        push_u64(&mut out, self.last_lsn);
        push_u16(&mut out, self.length);
        out
    }

    /// Appends an entry recording `task_type` on `record_id` of `page_id`: returns its bytes
    /// and the offset to write them at, the end of the file; the entry count, the last
    /// sequence number and the file size move on. `InsufficientParams`, with nothing
    /// changed, for a write or an update without the record.
    pub fn add_log(&mut self, task_type: TaskType, page_id: u64, record_id: u32, data: Option<&Vec<u8>>) -> (res:
        Result<(Vec<u8>, u64), DbError>)
        requires
            old(self).last_lsn < u64::MAX,
            old(self).length < u16::MAX,
            data matches Some(d) ==> d@.len() + LOG_HEADER_SIZE <= u16::MAX,
            old(self).file_size + u16::MAX <= u64::MAX,
        ensures
            task_type != TaskType::Delete && data is None ==> res == Err::<(Vec<u8>, u64), DbError>(
                DbError::InsufficientParams,
            ) && *final(self) == *old(self),
            task_type == TaskType::Delete || data is Some ==> {
                let l = Log {
                    log_size: (if task_type == TaskType::Delete {
                        LOG_HEADER_SIZE as int
                    } else {
                        LOG_HEADER_SIZE + data->Some_0@.len()
                    }) as u16,
                    lsn: (old(self).last_lsn + 1) as u64,
                    task_type,
                    page_id,
                    record_id,
                };
                &&& res is Ok
                &&& res->Ok_0.1 == old(self).file_size
                &&& res->Ok_0.0@ == log_header_bytes(l) + (if task_type == TaskType::Delete {
                    Seq::<u8>::empty()
                } else {
                    data->Some_0@
                })
                &&& final(self).length == old(self).length + 1
                &&& final(self).last_lsn == old(self).last_lsn + 1
                &&& final(self).file_size == old(self).file_size + l.log_size
            },
    {
        let entry = Log::for_task(task_type, self.last_lsn, page_id, record_id, data)?;
        let buf = entry.serialise(data)?;
        proof {
            if task_type == TaskType::Delete {
                assert(zeros(entry.log_size - LOG_HEADER_SIZE) =~= Seq::<u8>::empty());
            }
        }
        let offset = self.file_size;
        self.length = self.length + 1;
        self.last_lsn = self.last_lsn + 1;
        self.file_size = self.file_size + entry.log_size as u64;
        Ok((buf, offset))
    }

    /// Empties the log: no entries, a file of just the header. The last sequence number
    /// stays.
    pub fn reset(&mut self)
        ensures
            final(self).length == 0,
            final(self).file_size == WAL_HEADER_SIZE,
            final(self).last_lsn == old(self).last_lsn,
    {
        self.length = 0;
        self.file_size = WAL_HEADER_SIZE;
    }

    /// The entry at `iterator` (at the first entry when `None` or before it) in `file`, the
    /// log file's bytes, with its record bytes and the offset of the next entry; `None`
    /// past the file's size.
    pub fn get_log_any(&self, file: &[u8], iterator: Option<u64>) -> (res: Result<
        Option<(Log, Option<Vec<u8>>, u64)>,
        DbError,
    >)
        requires
            self.file_size + u16::MAX <= u64::MAX,
        ensures
            ({
                let off: u64 = match iterator {
                    Some(v) => if v < 10 { 10 } else { v },
                    None => 10,
                };
                match entry_at(file@, self.file_size, off as int) {
                    Err(e) => res == Err::<Option<(Log, Option<Vec<u8>>, u64)>, DbError>(e),
                    Ok(r) => res is Ok && found_view(res->Ok_0) == r,
                }
            }),
    {
        let offset: u64 = match iterator {
            Some(v) => if v < WAL_HEADER_SIZE { WAL_HEADER_SIZE } else { v },
            None => WAL_HEADER_SIZE,
        };
        if offset >= self.file_size {
            return Ok(None);
        }
        let rest = copy_tail(file, offset);
        let (log, data) = Log::deserialise(rest.as_slice())?;
        proof {
            lemma_decode_log_size(rest@);
        }
        let next = offset + log.log_size as u64;
        Ok(Some((log, data, next)))
    }

    /// The next entry of `file`, the log file's bytes, from `iterator` on (the first entry
    /// when `None`) that concerns page `page_id` and is numbered after `last_lsn`, with its
    /// record bytes and the offset after it; `FileError` for an offset inside the header.
    pub fn find_next_log(&self, file: &[u8], last_lsn: u64, page_id: u64, iterator: Option<u64>) -> (res: Result<
        Option<(Log, Option<Vec<u8>>, u64)>,
        DbError,
    >)
        requires
            self.file_size + u16::MAX <= u64::MAX,
        ensures
            iterator matches Some(v) && v < 10 ==> res == Err::<Option<(Log, Option<Vec<u8>>, u64)>, DbError>(
                DbError::FileError,
            ),
            !(iterator matches Some(v) && v < 10) ==> {
                let off: u64 = match iterator {
                    Some(v) => v,
                    None => 10,
                };
                match next_log_for(file@, self.file_size, off as int, last_lsn, page_id) {
                    Err(e) => res == Err::<Option<(Log, Option<Vec<u8>>, u64)>, DbError>(e),
                    Ok(r) => res is Ok && found_view(res->Ok_0) == r,
                }
            },
            res matches Ok(Some((l, _, o))) ==> l.lsn > last_lsn && l.page_id == page_id && (match iterator {
                Some(v) => v < o,
                None => 10 < o,
            }),
    {
        let mut offset: u64 = match iterator {
            Some(v) => {
                if v < WAL_HEADER_SIZE {
                    return Err(DbError::FileError);
                }
                v
            },
            None => WAL_HEADER_SIZE,
        };
        let ghost start = offset as int;
        while offset < self.file_size
            invariant
                self.file_size + u16::MAX <= u64::MAX,
                !(iterator matches Some(v) && v < 10),
                start == (match iterator {
                    Some(v) => v,
                    None => 10u64,
                }),
                start <= offset,
                next_log_for(file@, self.file_size, offset as int, last_lsn, page_id) == next_log_for(
                    file@,
                    self.file_size,
                    start,
                    last_lsn,
                    page_id,
                ),
            decreases self.file_size + 0xFFFF - offset,
        {
            let rest = copy_tail(file, offset);
            let (log, data) = Log::deserialise(rest.as_slice())?;
            proof {
                lemma_decode_log_size(rest@);
            }
            if log.page_id == page_id && log.lsn > last_lsn {
                let next = offset + log.log_size as u64;
                return Ok(Some((log, data, next)));
            }
            offset = offset + log.log_size as u64;
        }
        Ok(None)
    }
}

/// An entry appended at the end of a log file is what reading the file at that offset
/// gives back, with the offset after it.
pub proof fn law_append_then_read(file: Seq<u8>, l: Log, data: Seq<u8>, size: u64)
    requires
        l.task_type != TaskType::Delete ==> data.len() + LOG_HEADER_SIZE == l.log_size,
        l.task_type == TaskType::Delete ==> l.log_size == LOG_HEADER_SIZE && data.len() == 0,
        size > file.len(),
    ensures
        entry_at(file + log_header_bytes(l) + data, size, file.len() as int) == Ok::<
            Option<(Log, Option<Seq<u8>>, int)>,
            DbError,
        >(
            Some(
                (
                    l,
                    if l.task_type == TaskType::Delete {
                        None
                    } else {
                        Some(data)
                    },
                    file.len() + l.log_size,
                ),
            ),
        ),
{
    let h = log_header_bytes(l);
    let all = file + h + data;
    assert(tail(all, file.len() as int) =~= h + data + Seq::<u8>::empty());
    if l.task_type == TaskType::Delete {
        assert(data =~= zeros(0));
    }
    law_log_roundtrip(l, data, Seq::<u8>::empty());
}

} // verus!

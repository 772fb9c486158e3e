use vstd::prelude::*;
use vstd::bytes::*;
use vstd::utf8::{valid_utf8, encode_utf8, decode_utf8, encode_utf8_decode_utf8};
use crate::bytes_util::{push_u16, push_u32, push_u64, push_bytes, push_zeros, copy_range, copy_tail, tail, read_u16, read_u32, read_u64, string_from_utf8};
use crate::db_errors::DbError;

verus! {

/// Size in bytes of the fixed part of a table log entry.
pub const TABLE_LOG_HEADER_SIZE: u16 = 18;

/// What a table log entry records.
#[derive(Debug, Clone, Copy, PartialEq, Eq, Structural)]
pub enum TaskType {
    Insert,
    Delete,
}

/// A table log entry: its size in bytes, its sequence number, what it records, the record
/// and the table it concerns, and how many bytes of row data follow the table's name.
#[derive(Debug, Clone)]
pub struct Log {
    pub log_size: u16,
    pub lsn: u64,
    pub task_type: TaskType,
    pub record_id: u32,
    pub table_name: String,
    pub data_size: u16,
}

/// On-disk code of a task.
pub open spec fn table_task_code(t: TaskType) -> u16 {
    match t {
        TaskType::Insert => 0,
        TaskType::Delete => 1,
    }
}

/// The task that an on-disk code stands for, if any.
pub open spec fn table_task_of_code(c: u16) -> Option<TaskType> {
    if c == 0 {
        Some(TaskType::Insert)
    } else if c == 1 {
        Some(TaskType::Delete)
    } else {
        None
    }
}

/// `n` zero bytes.
pub open spec fn zero_bytes(n: int) -> Seq<u8> {
    Seq::new(n as nat, |k: int| 0u8)
}

impl Log {
    /// The 18 bytes of the fixed part, all little endian: size, sequence number, task,
    /// record, data size; then the table's name in UTF-8.
    pub open spec fn head_bytes(&self) -> Seq<u8> {
        spec_u16_to_le_bytes(self.log_size) + spec_u64_to_le_bytes(self.lsn) + spec_u16_to_le_bytes(
            table_task_code(self.task_type),
        ) + spec_u32_to_le_bytes(self.record_id) + spec_u16_to_le_bytes(self.data_size) + encode_utf8(
            self.table_name@,
        )
    }
}

/// Which error, if any, decoding a table log entry from `b` (the file from the entry's
/// offset on) reports: all are `CorruptedWAL` (too short, size under 18, unknown task, data
/// size over what the size leaves, a name that is not UTF-8).
pub open spec fn table_log_error(b: Seq<u8>) -> bool {
    b.len() < 2 || {
        let size = spec_u16_from_le_bytes(b.subrange(0, 2));
        let ds = spec_u16_from_le_bytes(b.subrange(16, 18));
        ||| size < 18
        ||| b.len() < size
        ||| table_task_of_code(spec_u16_from_le_bytes(b.subrange(10, 12))) is None
        ||| ds > size - 18
        ||| !valid_utf8(b.subrange(18, size - ds))
    }
}

/// `l` and `data` are what the bytes `b` decode to, when `table_log_error(b)` is false.
pub open spec fn table_log_decodes(b: Seq<u8>, l: Log, data: Option<Seq<u8>>) -> bool {
    let size = spec_u16_from_le_bytes(b.subrange(0, 2));
    let ds = spec_u16_from_le_bytes(b.subrange(16, 18));
    &&& l.log_size == size
    &&& l.lsn == spec_u64_from_le_bytes(b.subrange(2, 10))
    &&& table_task_of_code(spec_u16_from_le_bytes(b.subrange(10, 12))) == Some(l.task_type)
    &&& l.record_id == spec_u32_from_le_bytes(b.subrange(12, 16))
    &&& l.data_size == ds
    &&& encode_utf8(l.table_name@) == b.subrange(18, size - ds)
    &&& l.table_name@ == decode_utf8(b.subrange(18, size - ds))
    &&& data == (if ds == 0 {
        None
    } else {
        Some(b.subrange(size - ds, size as int))
    })
}

fn code_of_table_task(t: TaskType) -> (c: u16)
    ensures
        c == table_task_code(t),
{
    match t {
        TaskType::Insert => 0,
        TaskType::Delete => 1,
    }
}

impl Log {
    /// The entry's bytes: the fixed part, the table's name, then the row's bytes when given,
    /// or zeros up to the entry's size.
    pub fn serialise(&self, row: Option<&[u8]>) -> (res: Result<Vec<u8>, DbError>)
        requires
            self.log_size >= TABLE_LOG_HEADER_SIZE + encode_utf8(self.table_name@).len(),
            row matches Some(r) ==> TABLE_LOG_HEADER_SIZE + encode_utf8(self.table_name@).len() + r@.len()
                == self.log_size,
        ensures
            res is Ok,
            res->Ok_0@ == self.head_bytes() + match row {
                Some(r) => r@,
                None => zero_bytes(self.log_size - TABLE_LOG_HEADER_SIZE - encode_utf8(self.table_name@).len()),
            },
    {
        let mut buf: Vec<u8> = Vec::new();
        push_u16(&mut buf, self.log_size);
        push_u64(&mut buf, self.lsn);
        push_u16(&mut buf, code_of_table_task(self.task_type));
        push_u32(&mut buf, self.record_id);
        push_u16(&mut buf, self.data_size);
        let tname_bytes = self.table_name.as_str().as_bytes();
        push_bytes(&mut buf, tname_bytes);
        proof {
            assert(buf@ =~= self.head_bytes());
        }
        match row {
            Some(row_buf) => push_bytes(&mut buf, row_buf),
            None => {
                let rest = self.log_size as usize - TABLE_LOG_HEADER_SIZE as usize - tname_bytes.len();
                push_zeros(&mut buf, rest);
            },
        }
        Ok(buf)
    }

    /// Decodes an entry from `bytes`, the log file from the entry's offset on; the row's
    /// bytes come with it when its data size is not zero.
    pub fn deserialise(bytes: &[u8]) -> (res: Result<(Log, Option<Vec<u8>>), DbError>)
        ensures
            table_log_error(bytes@) ==> res == Err::<(Log, Option<Vec<u8>>), DbError>(DbError::CorruptedWAL),
            !table_log_error(bytes@) ==> res is Ok && table_log_decodes(
                bytes@,
                res->Ok_0.0,
                match res->Ok_0.1 {
                    Some(v) => Some(v@),
                    None => None,
                },
            ),
    {
        if bytes.len() < 2 {
            return Err(DbError::CorruptedWAL);
        }
        let size = read_u16(bytes, 0);
        if size < TABLE_LOG_HEADER_SIZE || bytes.len() < size as usize {
            return Err(DbError::CorruptedWAL);
        }
        let lsn = read_u64(bytes, 2);
        let task_type = match read_u16(bytes, 10) {
            0 => TaskType::Insert,
            1 => TaskType::Delete,
            _ => return Err(DbError::CorruptedWAL),
        };
        let record_id = read_u32(bytes, 12);
        let data_size = read_u16(bytes, 16);
        if data_size > size - TABLE_LOG_HEADER_SIZE {
            return Err(DbError::CorruptedWAL);
        }
        let name_end = (size - data_size) as usize;
        let tname_buf = copy_range(bytes, 18, name_end);
        let table_name = match string_from_utf8(tname_buf) {
            Some(s) => s,
            None => return Err(DbError::CorruptedWAL),
        };
        proof {
            encode_utf8_decode_utf8(table_name@);
        }
        let data = if data_size != 0 {
            Some(copy_range(bytes, name_end, size as usize))
        } else {
            None
        };
        Ok((Log { log_size: size, lsn, task_type, record_id, table_name, data_size }, data))
    }

    /// The entry that records `task_type` on `record_id` of table `table_name` next after
    /// the entry numbered `last_lsn`; its size counts the name's and the row's bytes.
    pub fn for_task(task_type: TaskType, last_lsn: u64, record_id: u32, table_name: &String, row: Option<&[u8]>) -> (l: Log)
        requires
            last_lsn < u64::MAX,
            TABLE_LOG_HEADER_SIZE + encode_utf8(table_name@).len() + match row {
                Some(r) => r@.len() as int,
                None => 0,
            } <= u16::MAX,
        ensures
            l.lsn == last_lsn + 1,
            l.task_type == task_type,
            l.record_id == record_id,
            l.table_name@ == table_name@,
            l.data_size == match row {
                Some(r) => r@.len() as int,
                None => 0,
            },
            l.log_size == TABLE_LOG_HEADER_SIZE + encode_utf8(table_name@).len() + l.data_size,
    {
        let table_name = table_name.clone();
        let data_size: u16 = match row {
            Some(t) => t.len() as u16,
            None => 0,
        };
        let name_len = table_name.as_str().len() as u16;
        let lsn = last_lsn + 1;
        let log_size = TABLE_LOG_HEADER_SIZE + name_len + data_size;
        Log { log_size, lsn, task_type, record_id, table_name, data_size }
    }
}

/// Decoding the bytes of an entry followed by its row's bytes, whatever follows them,
/// gives the entry back, with the row when there is one.
pub proof fn law_table_log_roundtrip(l: Log, row: Seq<u8>, rest: Seq<u8>)
    requires
        row.len() == l.data_size,
        l.log_size == TABLE_LOG_HEADER_SIZE + encode_utf8(l.table_name@).len() + row.len(),
    ensures
        !table_log_error(l.head_bytes() + row + rest),
        table_log_decodes(
            l.head_bytes() + row + rest,
            l,
            if row.len() == 0 {
                None
            } else {
                Some(row)
            },
        ),
{
    lemma_auto_spec_u16_to_from_le_bytes();
    lemma_auto_spec_u32_to_from_le_bytes();
    lemma_auto_spec_u64_to_from_le_bytes();
    let nb = encode_utf8(l.table_name@);
    let h = spec_u16_to_le_bytes(l.log_size) + spec_u64_to_le_bytes(l.lsn) + spec_u16_to_le_bytes(
        table_task_code(l.task_type),
    ) + spec_u32_to_le_bytes(l.record_id) + spec_u16_to_le_bytes(l.data_size);
    assert(spec_u16_to_le_bytes(l.log_size).len() == 2);
    assert(spec_u16_to_le_bytes(table_task_code(l.task_type)).len() == 2);
    assert(spec_u16_to_le_bytes(l.data_size).len() == 2);
    assert(spec_u64_to_le_bytes(l.lsn).len() == 8);
    assert(spec_u32_to_le_bytes(l.record_id).len() == 4);
    assert(h.len() == 18);
    assert(l.head_bytes() == h + nb);
    let b = h + nb + row + rest;
    assert(l.head_bytes() + row + rest =~= b);
    assert(b.subrange(0, 2) =~= spec_u16_to_le_bytes(l.log_size));
    assert(b.subrange(2, 10) =~= spec_u64_to_le_bytes(l.lsn));
    assert(b.subrange(10, 12) =~= spec_u16_to_le_bytes(table_task_code(l.task_type)));
    assert(b.subrange(12, 16) =~= spec_u32_to_le_bytes(l.record_id));
    assert(b.subrange(16, 18) =~= spec_u16_to_le_bytes(l.data_size));
    let size = l.log_size as int;
    let ds = l.data_size as int;
    assert(b.subrange(18, size - ds) =~= nb);
    assert(b.subrange(size - ds, size) =~= row);
    assert(table_task_of_code(table_task_code(l.task_type)) == Some(l.task_type));
    vstd::utf8::encode_utf8_valid_utf8(l.table_name@);
    encode_utf8_decode_utf8(l.table_name@);
}

/// Size in bytes of the table log file's header: the last sequence number, then the entry
/// count.
pub const TABLE_WAL_HEADER_SIZE: u64 = 10;

/// What the table log file's header and size say: `CorruptedWAL` for a file of one to nine
/// bytes; for an empty file, no entries and a file of just the header; otherwise the
/// sequence number and entry count stored in the header, little endian.
pub open spec fn table_wal_header_state(size: u64, head: Seq<u8>) -> Result<(u64, u16, u64), DbError> {
    if size == 0 {
        Ok((0, 0, 10))
    } else if size < 10 {
        Err(DbError::CorruptedWAL)
    } else {
        Ok((spec_u64_from_le_bytes(head.subrange(0, 8)), spec_u16_from_le_bytes(head.subrange(8, 10)), size))
    }
}

/// The bookkeeping of the table log file: how many entries it holds, the sequence number
/// of the last one, and its size in bytes. Entries follow a 10-byte header.
#[derive(Debug, Clone, Copy)]
pub struct TableWAL {
    pub length: u16,
    pub last_lsn: u64,
    pub file_size: u64,
}

/// The row bytes read with an entry, as a mathematical object.
pub open spec fn row_view_of(d: Option<Vec<u8>>) -> Option<Seq<u8>> {
    match d {
        Some(v) => Some(v@),
        None => None,
    }
}

impl TableWAL {
    /// The bookkeeping of a table log file of `size` bytes whose first bytes are `head`; see
    /// `table_wal_header_state`.
    pub fn from_header(size: u64, head: &[u8]) -> (res: Result<TableWAL, DbError>)
        requires
            size >= 10 ==> head@.len() >= 10,
        ensures
            match table_wal_header_state(size, head@) {
                Err(e) => res == Err::<TableWAL, DbError>(e),
                Ok((lsn, len, fsize)) => res matches Ok(w) && w.last_lsn == lsn && w.length == len && w.file_size
                    == fsize,
            },
    {
        if size == 0 {
            return Ok(TableWAL { length: 0, last_lsn: 0, file_size: TABLE_WAL_HEADER_SIZE });
        }
        if size < TABLE_WAL_HEADER_SIZE {
            return Err(DbError::CorruptedWAL);
        }
        let last_lsn = read_u64(head, 0);
        let length = read_u16(head, 8);
        Ok(TableWAL { length, last_lsn, file_size: size })
    }

    /// The file's header: the last sequence number, then the entry count, little endian.
    pub fn header_bytes(&self) -> (out: Vec<u8>)
        ensures
            out@ == spec_u64_to_le_bytes(self.last_lsn) + spec_u16_to_le_bytes(self.length),
    {
        let mut out: Vec<u8> = Vec::new();
        push_u64(&mut out, self.last_lsn);
        push_u16(&mut out, self.length);
        out
    }

    /// Appends an entry recording `task_type` on `record_id` of table `table_name`, with
    /// the row when given: returns its bytes and the offset to write them at, the end of the
    /// file; the entry count, the last sequence number and the file size move on.
    pub fn add_log(&mut self, task_type: TaskType, record_id: u32, table_name: &String, row: Option<&[u8]>) -> (res: (
        Vec<u8>,
        u64,
    ))
        requires
            old(self).last_lsn < u64::MAX,
            old(self).length < u16::MAX,
            TABLE_LOG_HEADER_SIZE + encode_utf8(table_name@).len() + match row {
                Some(r) => r@.len() as int,
                None => 0,
            } <= u16::MAX,
            old(self).file_size + u16::MAX <= u64::MAX,
        ensures
            ({
                let ds: u16 = match row {
                    Some(r) => r@.len() as u16,
                    None => 0,
                };
                let l = Log {
                    log_size: (TABLE_LOG_HEADER_SIZE + encode_utf8(table_name@).len() + ds) as u16,
                    lsn: (old(self).last_lsn + 1) as u64,
                    task_type,
                    record_id,
                    table_name: *table_name,
                    data_size: ds,
                };
                &&& res.1 == old(self).file_size
                &&& res.0@ == l.head_bytes() + match row {
                    Some(r) => r@,
                    None => Seq::<u8>::empty(),
                }
                &&& final(self).length == old(self).length + 1
                &&& final(self).last_lsn == old(self).last_lsn + 1
                &&& final(self).file_size == old(self).file_size + l.log_size
            }),
    {
        let entry = Log::for_task(task_type, self.last_lsn, record_id, table_name, row);
        let buf = entry.serialise(row).unwrap();
        proof {
            if row is None {
                assert(zero_bytes(entry.log_size - TABLE_LOG_HEADER_SIZE - encode_utf8(table_name@).len())
                    =~= Seq::<u8>::empty());
            }
        }
        let offset = self.file_size;
        self.length = self.length + 1;
        self.last_lsn = self.last_lsn + 1;
        self.file_size = self.file_size + entry.log_size as u64;
        (buf, offset)
    }

    /// Whether recovery has entries to replay: not when the log holds its header alone;
    /// `CorruptedWAL` when the log is shorter than its header.
    pub fn needs_recovery(&self) -> (res: Result<bool, DbError>)
        ensures
            self.file_size < TABLE_WAL_HEADER_SIZE ==> res == Err::<bool, DbError>(DbError::CorruptedWAL),
            self.file_size >= TABLE_WAL_HEADER_SIZE ==> res == Ok::<bool, DbError>(
                self.file_size != TABLE_WAL_HEADER_SIZE,
            ),
    {
        if self.file_size == TABLE_WAL_HEADER_SIZE {
            Ok(false)
        } else if self.file_size < TABLE_WAL_HEADER_SIZE {
            Err(DbError::CorruptedWAL)
        } else {
            Ok(true)
        }
    }

    /// Empties the log: no entries, a file of just the header. The last sequence number
    /// stays.
    pub fn reset(&mut self)
        ensures
            final(self).length == 0,
            final(self).file_size == TABLE_WAL_HEADER_SIZE,
            final(self).last_lsn == old(self).last_lsn,
    {
        self.length = 0;
        self.file_size = TABLE_WAL_HEADER_SIZE;
    }

    /// The entry at `iterator` (at the first entry when `None` or before it) in `file`, the
    /// table log file's bytes, with its row bytes and the offset of the next entry; `None`
    /// past the file's size, `CorruptedWAL` for an entry that does not decode.
    pub fn get_log_any(&self, file: &[u8], iterator: Option<u64>) -> (res: Result<
        Option<(Log, Option<Vec<u8>>, u64)>,
        DbError,
    >)
        requires
            self.file_size + u16::MAX <= u64::MAX,
        ensures
            ({
                let off: u64 = match iterator {
                    Some(v) => if v < 10 { 10 } else { v },
                    None => 10,
                };
                let rest = tail(file@, off as int);
                if off >= self.file_size {
                    res == Ok::<Option<(Log, Option<Vec<u8>>, u64)>, DbError>(None)
                } else if table_log_error(rest) {
                    res == Err::<Option<(Log, Option<Vec<u8>>, u64)>, DbError>(DbError::CorruptedWAL)
                } else {
                    res matches Ok(Some((l, d, next))) && table_log_decodes(rest, l, row_view_of(d)) && next == off
                        + l.log_size
                }
            }),
    {
        let offset: u64 = match iterator {
            Some(v) => if v < TABLE_WAL_HEADER_SIZE { TABLE_WAL_HEADER_SIZE } else { v },
            None => TABLE_WAL_HEADER_SIZE,
        };
        if offset >= self.file_size {
            return Ok(None);
        }
        let rest = copy_tail(file, offset);
        let (log, data) = Log::deserialise(rest.as_slice())?;
        let next = offset + log.log_size as u64;
        Ok(Some((log, data, next)))
    }
}

} // verus!

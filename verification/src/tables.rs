use vstd::prelude::*;
use vstd::bytes::*;
use vstd::utf8::{valid_utf8, encode_utf8, decode_utf8, encode_utf8_decode_utf8};
use std::cmp::Ordering;
use crate::bytes_util::{push_u16, push_u32, push_u64, push_bytes, copy_range, read_u16, read_u32, read_u64, string_from_utf8};
use crate::crc32::{crc32, spec_crc32};
use crate::db_errors::DbError;
use crate::table_wal::TaskType;

verus! {

/// The column types a table can have.
#[derive(Debug, Clone, Copy, PartialEq, Eq, Structural)]
pub enum DataTypes {
    INT32,
    UINT32,
    FLOAT32,
    VARCHAR,
}

/// A value of a column. A `FLOAT32` value is held as the IEEE-754 bits of the float.
#[derive(Debug, Clone)]
pub enum Value {
    Int32(i32),
    Uint32(u32),
    Float32(u32),
    Varchar(String),
}

/// A value as a mathematical object: a `VARCHAR` value is its sequence of characters.
pub enum ValueView {
    Int32(i32),
    Uint32(u32),
    Float32(u32),
    Varchar(Seq<char>),
}

impl View for Value {
    type V = ValueView;

    open spec fn view(&self) -> ValueView {
        match self {
            Value::Int32(v) => ValueView::Int32(*v),
            Value::Uint32(v) => ValueView::Uint32(*v),
            Value::Float32(v) => ValueView::Float32(*v),
            Value::Varchar(s) => ValueView::Varchar(s@),
        }
    }
}

/// The type of a value.
pub open spec fn type_of_value(v: ValueView) -> DataTypes {
    match v {
        ValueView::Int32(_) => DataTypes::INT32,
        ValueView::Uint32(_) => DataTypes::UINT32,
        ValueView::Float32(_) => DataTypes::FLOAT32,
        ValueView::Varchar(_) => DataTypes::VARCHAR,
    }
}

/// How a condition compares a column's value with its own.
#[derive(Debug, Clone, Copy, PartialEq, Eq, Structural)]
pub enum Operator {
    Equal,
    NotEqual,
    Greater,
    Less,
    GreaterEqual,
    LessEqual,
}

/// A condition on a column, or, in an update, the new value of a column.
#[derive(Debug, Clone)]
pub struct Condition {
    pub column: String,
    pub operator: Operator,
    pub value: Value,
}

/// Whether comparing a column's value with a condition's gives `ord` (`-1` less, `0`
/// equal, `1` greater) satisfies operator `op`.
pub open spec fn operator_holds(op: Operator, ord: int) -> bool {
    match op {
        Operator::Equal => ord == 0,
        Operator::NotEqual => ord != 0,
        Operator::Less => ord < 0,
        Operator::Greater => ord > 0,
        Operator::GreaterEqual => ord >= 0,
        Operator::LessEqual => ord <= 0,
    }
}

/// `-1`, `0` or `1` for `Less`, `Equal` or `Greater`.
pub open spec fn ordering_sign(o: Ordering) -> int {
    match o {
        Ordering::Less => -1,
        Ordering::Equal => 0,
        Ordering::Greater => 1,
    }
}

impl Operator {
    /// Whether the outcome `ordering` of comparing a column's value with the condition's
    /// value satisfies this operator.
    pub fn accepts(&self, ordering: Ordering) -> (r: bool)
        ensures
            r == operator_holds(*self, ordering_sign(ordering)),
    {
        let is_less = match ordering {
            Ordering::Less => true,
            _ => false,
        };
        let is_equal = match ordering {
            Ordering::Equal => true,
            _ => false,
        };
        let is_greater = !is_less && !is_equal;
        match self {
            Operator::Equal => is_equal,
            Operator::NotEqual => !is_equal,
            Operator::Less => is_less,
            Operator::Greater => is_greater,
            Operator::GreaterEqual => !is_less,
            Operator::LessEqual => !is_greater,
        }
    }
}

/// A condition as a mathematical object.
pub struct ConditionView {
    pub column: Seq<char>,
    pub operator: Operator,
    pub value: ValueView,
}

impl View for Condition {
    type V = ConditionView;

    open spec fn view(&self) -> ConditionView {
        ConditionView { column: self.column@, operator: self.operator, value: self.value@ }
    }
}

/// Magic number at the start of every table file.
pub const TABLE_MAGIC: u32 = 69420;

/// Size in bytes of the fixed header of a table file.
pub const TABLE_HEADER_SIZE: usize = 26;

/// On-disk code of a column type.
pub open spec fn data_type_code(t: DataTypes) -> u16 {
    match t {
        DataTypes::INT32 => 0,
        DataTypes::UINT32 => 1,
        DataTypes::FLOAT32 => 2,
        DataTypes::VARCHAR => 3,
    }
}

/// The column type that an on-disk code stands for, if any.
pub open spec fn data_type_of_code(c: u16) -> Option<DataTypes> {
    if c == 0 {
        Some(DataTypes::INT32)
    } else if c == 1 {
        Some(DataTypes::UINT32)
    } else if c == 2 {
        Some(DataTypes::FLOAT32)
    } else if c == 3 {
        Some(DataTypes::VARCHAR)
    } else {
        None
    }
}

fn code_of_data_type(t: DataTypes) -> (c: u16)
    ensures
        c == data_type_code(t),
{
    match t {
        DataTypes::INT32 => 0,
        DataTypes::UINT32 => 1,
        DataTypes::FLOAT32 => 2,
        DataTypes::VARCHAR => 3,
    }
}

/// A table: its schema, the ids of its records, the next serial number to hand out, and
/// the sequence number of the last table log entry it reflects. `size` is the record count
/// as last written.
#[derive(Debug)]
pub struct Table {
    pub size: u32,
    pub records: Vec<u32>,
    pub schema: Vec<(String, DataTypes)>,
    pub next_si_no: u32,
    pub lsn: u64,
}

/// A schema as names and types.
pub open spec fn columns_view(s: Seq<(String, DataTypes)>) -> Seq<(Seq<char>, DataTypes)> {
    s.map_values(|p: (String, DataTypes)| (p.0@, p.1))
}

/// The bytes of one column: the name's length in bytes, the name in UTF-8, the type's code.
pub open spec fn column_bytes(name: Seq<char>, t: DataTypes) -> Seq<u8> {
    spec_u16_to_le_bytes(encode_utf8(name).len() as u16) + encode_utf8(name) + spec_u16_to_le_bytes(
        data_type_code(t),
    )
}

/// The bytes of a schema, column after column.
pub open spec fn columns_bytes(cols: Seq<(Seq<char>, DataTypes)>) -> Seq<u8>
    decreases cols.len(),
{
    if cols.len() == 0 {
        Seq::empty()
    } else {
        columns_bytes(cols.drop_last()) + column_bytes(cols.last().0, cols.last().1)
    }
}

/// The bytes of a list of record ids, four little-endian bytes each.
pub open spec fn records_bytes(rs: Seq<u32>) -> Seq<u8>
    decreases rs.len(),
{
    if rs.len() == 0 {
        Seq::empty()
    } else {
        records_bytes(rs.drop_last()) + spec_u32_to_le_bytes(rs.last())
    }
}

/// A table file with `checksum` in its checksum field: magic, checksum, record count,
/// column count, next serial number, sequence number, then the schema and the record ids.
pub open spec fn table_image(
    sch: Seq<(Seq<char>, DataTypes)>,
    recs: Seq<u32>,
    next_si: u32,
    lsn: u64,
    checksum: u32,
) -> Seq<u8> {
    spec_u32_to_le_bytes(TABLE_MAGIC) + spec_u32_to_le_bytes(checksum) + spec_u32_to_le_bytes(recs.len() as u32)
        + spec_u16_to_le_bytes(sch.len() as u16) + spec_u32_to_le_bytes(next_si) + spec_u64_to_le_bytes(lsn)
        + columns_bytes(sch) + records_bytes(recs)
}

/// A table file: its checksum field holds the CRC-32 of the file with that field zero.
pub open spec fn table_bytes(sch: Seq<(Seq<char>, DataTypes)>, recs: Seq<u32>, next_si: u32, lsn: u64) -> Seq<u8> {
    table_image(sch, recs, next_si, lsn, spec_crc32(table_image(sch, recs, next_si, lsn, 0)))
}

/// Overwrites bytes `off..off + 4` of `buf` with the little-endian bytes of `v`.
fn set_u32_at(buf: &mut Vec<u8>, off: usize, v: u32)
    requires
        off + 4 <= old(buf)@.len(),
    ensures
        final(buf)@ == old(buf)@.subrange(0, off as int) + spec_u32_to_le_bytes(v) + old(buf)@.subrange(
            off + 4,
            old(buf)@.len() as int,
        ),
{
    let b = u32_to_le_bytes(v);
    proof {
        lemma_auto_spec_u32_to_from_le_bytes();
    }
    assert(off + 4 <= buf.len());
    buf.set(off, b[0]);
    buf.set(off + 1, b[1]);
    buf.set(off + 2, b[2]);
    buf.set(off + 3, b[3]);
    assert(buf@ =~= old(buf)@.subrange(0, off as int) + spec_u32_to_le_bytes(v) + old(buf)@.subrange(
        off + 4,
        old(buf)@.len() as int,
    ));
}

proof fn lemma_table_image_checksum(sch: Seq<(Seq<char>, DataTypes)>, recs: Seq<u32>, next_si: u32, lsn: u64, c: u32)
    ensures
        table_image(sch, recs, next_si, lsn, c) == table_image(sch, recs, next_si, lsn, 0).subrange(0, 4)
            + spec_u32_to_le_bytes(c) + table_image(sch, recs, next_si, lsn, 0).subrange(
            8,
            table_image(sch, recs, next_si, lsn, 0).len() as int,
        ),
{
    lemma_auto_spec_u32_to_from_le_bytes();
    let a = spec_u32_to_le_bytes(TABLE_MAGIC);
    let rest = spec_u32_to_le_bytes(recs.len() as u32) + spec_u16_to_le_bytes(sch.len() as u16) + spec_u32_to_le_bytes(
        next_si,
    ) + spec_u64_to_le_bytes(lsn) + columns_bytes(sch) + records_bytes(recs);
    assert(a.len() == 4);
    assert(spec_u32_to_le_bytes(c).len() == 4);
    assert(spec_u32_to_le_bytes(0).len() == 4);
    assert(table_image(sch, recs, next_si, lsn, c) =~= a + spec_u32_to_le_bytes(c) + rest);
    assert(table_image(sch, recs, next_si, lsn, 0) =~= a + spec_u32_to_le_bytes(0) + rest);
    assert(table_image(sch, recs, next_si, lsn, 0).subrange(0, 4) =~= a);
    assert(table_image(sch, recs, next_si, lsn, 0).subrange(8, table_image(sch, recs, next_si, lsn, 0).len() as int)
        =~= rest);
}

impl Table {
    /// A new table with the given schema, no records, serial numbers from 1, at sequence
    /// number `lsn`.
    pub fn new(schema: Vec<(String, DataTypes)>, lsn: u64) -> (t: Self)
        ensures
            t.size == 0,
            t.records@.len() == 0,
            t.schema@ == schema@,
            t.next_si_no == 1,
            t.lsn == lsn,
    {
        let records: Vec<u32> = Vec::new();
        Self { size: 0, records, schema, next_si_no: 1, lsn }
    }

    /// The bytes of this table's file; records the record count in `size`.
    pub fn serialise(&mut self) -> (res: Result<Vec<u8>, DbError>)
        ensures
            final(self).size == old(self).records@.len() as u32,
            final(self).records@ == old(self).records@,
            final(self).schema@ == old(self).schema@,
            final(self).next_si_no == old(self).next_si_no,
            final(self).lsn == old(self).lsn,
            res is Ok,
            res->Ok_0@ == table_bytes(
                columns_view(old(self).schema@),
                old(self).records@,
                old(self).next_si_no,
                old(self).lsn,
            ),
    {
        self.size = #[verifier::truncate] (self.records.len() as u32);
        let ghost sch = columns_view(self.schema@);
        let ghost recs = self.records@;
        let mut table: Vec<u8> = Vec::new();
        push_u32(&mut table, TABLE_MAGIC);
        push_u32(&mut table, 0);
        push_u32(&mut table, self.size);
        push_u16(&mut table, #[verifier::truncate] (self.schema.len() as u16));
        push_u32(&mut table, self.next_si_no);
        push_u64(&mut table, self.lsn);
        let ghost head = table@;
        proof {
            lemma_auto_spec_u16_to_from_le_bytes();
            lemma_auto_spec_u32_to_from_le_bytes();
            lemma_auto_spec_u64_to_from_le_bytes();
            assert(spec_u32_to_le_bytes(TABLE_MAGIC).len() == 4);
            assert(spec_u32_to_le_bytes(0).len() == 4);
            assert(spec_u32_to_le_bytes(self.size).len() == 4);
            assert(spec_u16_to_le_bytes(#[verifier::truncate] (self.schema@.len() as u16)).len() == 2);
            assert(spec_u32_to_le_bytes(self.next_si_no).len() == 4);
            assert(spec_u64_to_le_bytes(self.lsn).len() == 8);
            assert(head.len() == 26);
        }
        let mut i: usize = 0;
        proof {
            assert(sch.subrange(0, 0) =~= Seq::<(Seq<char>, DataTypes)>::empty());
            assert(table@ =~= head + columns_bytes(sch.subrange(0, 0)));
        }
        while i < self.schema.len()
            invariant
                i <= self.schema@.len(),
                head.len() == 26,
                sch == columns_view(self.schema@),
                table@ == head + columns_bytes(sch.subrange(0, i as int)),
            decreases self.schema@.len() - i,
        {
            let name_bytes = self.schema[i].0.as_str().as_bytes();
            let ghost before = table@;
            push_u16(&mut table, #[verifier::truncate] (name_bytes.len() as u16));
            push_bytes(&mut table, name_bytes);
            push_u16(&mut table, code_of_data_type(self.schema[i].1));
            proof {
                assert(sch.subrange(0, i + 1).drop_last() =~= sch.subrange(0, i as int));
                assert(sch[i as int] == (self.schema@[i as int].0@, self.schema@[i as int].1));
                assert(table@ =~= head + columns_bytes(sch.subrange(0, i + 1)));
            }
            i = i + 1;
        }
        proof {
            assert(sch.subrange(0, sch.len() as int) =~= sch);
        }
        let ghost mid = table@;
        assert(mid.len() >= 26);
        let mut k: usize = 0;
        proof {
            assert(recs.subrange(0, 0) =~= Seq::<u32>::empty());
            assert(table@ =~= mid + records_bytes(recs.subrange(0, 0)));
        }
        while k < self.records.len()
            invariant
                k <= self.records@.len(),
                mid.len() >= 26,
                recs == self.records@,
                table@ == mid + records_bytes(recs.subrange(0, k as int)),
            decreases self.records@.len() - k,
        {
            push_u32(&mut table, self.records[k]);
            proof {
                assert(recs.subrange(0, k + 1).drop_last() =~= recs.subrange(0, k as int));
                assert(table@ =~= mid + records_bytes(recs.subrange(0, k + 1)));
            }
            k = k + 1;
        }
        proof {
            assert(recs.subrange(0, recs.len() as int) =~= recs);
            assert(table@ =~= table_image(sch, recs, self.next_si_no, self.lsn, 0));
            lemma_table_image_checksum(sch, recs, self.next_si_no, self.lsn, spec_crc32(table@));
        }
        let checksum = crc32(table.as_slice());
        set_u32_at(&mut table, 4, checksum);
        Ok(table)
    }
}

/// A table as a mathematical object.
pub struct TableView {
    pub size: u32,
    pub records: Seq<u32>,
    pub schema: Seq<(Seq<char>, DataTypes)>,
    pub next_si_no: u32,
    pub lsn: u64,
}

impl View for Table {
    type V = TableView;

    open spec fn view(&self) -> TableView {
        TableView {
            size: self.size,
            records: self.records@,
            schema: columns_view(self.schema@),
            next_si_no: self.next_si_no,
            lsn: self.lsn,
        }
    }
}

/// Decoding one column at `o`, after the columns `cols`: `None` where the two bytes of the
/// name's length lie past the end; `CorruptedDataError` when the name and type pass the
/// end, the name is not UTF-8 or the type code is unknown.
pub open spec fn column_step(b: Seq<u8>, o: int, cols: Seq<(Seq<char>, DataTypes)>) -> Option<
    Result<(Seq<(Seq<char>, DataTypes)>, int), DbError>,
> {
    if o + 2 > b.len() {
        None
    } else {
        let ns = spec_u16_from_le_bytes(b.subrange(o, o + 2)) as int;
        let o2 = o + 2;
        if ns + o2 + 2 > b.len() {
            Some(Err(DbError::CorruptedDataError))
        } else if !valid_utf8(b.subrange(o2, o2 + ns)) {
            Some(Err(DbError::CorruptedDataError))
        } else {
            match data_type_of_code(spec_u16_from_le_bytes(b.subrange(o2 + ns, o2 + ns + 2))) {
                None => Some(Err(DbError::CorruptedDataError)),
                Some(t) => Some(Ok((cols.push((decode_utf8(b.subrange(o2, o2 + ns)), t)), o2 + ns + 2))),
            }
        }
    }
}

/// Decoding `n` columns from `off`: the columns and the offset after them, an error, or
/// `None` where a read would pass the end.
pub open spec fn decode_columns(b: Seq<u8>, off: int, n: nat) -> Option<
    Result<(Seq<(Seq<char>, DataTypes)>, int), DbError>,
>
    decreases n,
{
    if n == 0 {
        Some(Ok((Seq::empty(), off)))
    } else {
        match decode_columns(b, off, (n - 1) as nat) {
            None => None,
            Some(Err(e)) => Some(Err(e)),
            Some(Ok((cols, o))) => column_step(b, o, cols),
        }
    }
}

/// The `n` record ids from `off`, or `None` if they pass the end.
pub open spec fn decode_records(b: Seq<u8>, off: int, n: nat) -> Option<Seq<u32>> {
    if off + 4 * n <= b.len() {
        Some(Seq::new(n, |k: int| spec_u32_from_le_bytes(b.subrange(off + 4 * k, off + 4 * k + 4))))
    } else {
        None
    }
}

/// `b` with its checksum field zeroed.
pub open spec fn checksum_zeroed(b: Seq<u8>) -> Seq<u8> {
    b.subrange(0, 4) + spec_u32_to_le_bytes(0) + b.subrange(8, b.len() as int)
}

/// What decoding a table file gives: `CorruptedDataError` for a file under 26 bytes, a wrong
/// magic number, a checksum that does not match, or a bad column; the table otherwise;
/// `None` where a read would pass the end of the file.
pub open spec fn decode_table(b: Seq<u8>) -> Option<Result<TableView, DbError>> {
    if b.len() < 26 {
        Some(Err(DbError::CorruptedDataError))
    } else if spec_u32_from_le_bytes(b.subrange(0, 4)) != TABLE_MAGIC {
        Some(Err(DbError::CorruptedDataError))
    } else if spec_crc32(checksum_zeroed(b)) != spec_u32_from_le_bytes(b.subrange(4, 8)) {
        Some(Err(DbError::CorruptedDataError))
    } else {
        let size = spec_u32_from_le_bytes(b.subrange(8, 12));
        let n = spec_u16_from_le_bytes(b.subrange(12, 14));
        let si = spec_u32_from_le_bytes(b.subrange(14, 18));
        let lsn = spec_u64_from_le_bytes(b.subrange(18, 26));
        match decode_columns(b, 26, n as nat) {
            None => None,
            Some(Err(e)) => Some(Err(e)),
            Some(Ok((cols, o))) => match decode_records(b, o, size as nat) {
                None => None,
                Some(rs) => Some(Ok(TableView { size, records: rs, schema: cols, next_si_no: si, lsn })),
            },
        }
    }
}

/// Decoding a prefix of the columns does not pass the end where decoding them all does not.
pub proof fn lemma_decode_columns_prefix(b: Seq<u8>, off: int, n: nat, m: nat)
    requires
        m <= n,
        decode_columns(b, off, n) is Some,
    ensures
        decode_columns(b, off, m) is Some,
        m < n ==> (decode_columns(b, off, m) matches Some(Ok((cols, o))) ==> column_step(b, o, cols) is Some),
    decreases n - m,
{
    if m < n {
        lemma_decode_columns_prefix(b, off, n, (m + 1) as nat);
    }
}

/// Decoding columns that were read without error leaves an offset past the header.
pub proof fn lemma_decode_columns_offset(b: Seq<u8>, off: int, n: nat)
    ensures
        decode_columns(b, off, n) matches Some(Ok((cols, o))) ==> off <= o <= b.len() || (n == 0 && o == off),
        decode_columns(b, off, n) matches Some(Ok((cols, o))) ==> cols.len() == n,
    decreases n,
{
    if n > 0 {
        lemma_decode_columns_offset(b, off, (n - 1) as nat);
    }
}

/// Whether decoding the table file `bytes` stays within it.
pub fn table_readable(bytes: &[u8]) -> (r: bool)
    ensures
        r == decode_table(bytes@) is Some,
{
    let b = bytes;
    if b.len() < 26 {
        return true;
    }
    let magic = read_u32(b, 0);
    if magic != TABLE_MAGIC {
        return true;
    }
    let checksum = read_u32(b, 4);
    let mut zeroed = copy_range(b, 0, b.len());
    set_u32_at(&mut zeroed, 4, 0);
    proof {
        assert(zeroed@ =~= checksum_zeroed(b@));
    }
    if crc32(zeroed.as_slice()) != checksum {
        return true;
    }
    let size = read_u32(b, 8);
    let num_columns = read_u16(b, 12);
    let mut offset: usize = 26;
    let mut c: u16 = 0;
    let ghost mut cols: Seq<(Seq<char>, DataTypes)> = Seq::empty();
    while c < num_columns
        invariant
            b@ == bytes@,
            c <= num_columns,
            num_columns == spec_u16_from_le_bytes(b@.subrange(12, 14)),
            size == spec_u32_from_le_bytes(b@.subrange(8, 12)),
            spec_u32_from_le_bytes(b@.subrange(0, 4)) == TABLE_MAGIC,
            spec_crc32(checksum_zeroed(b@)) == spec_u32_from_le_bytes(b@.subrange(4, 8)),
            b@.len() >= 26,
            decode_columns(b@, 26, c as nat) == Some(Ok::<(Seq<(Seq<char>, DataTypes)>, int), DbError>((cols, offset as int))),
            offset <= b@.len(),
        decreases num_columns - c,
    {
        if b.len() - offset < 2 {
            proof {
                assert(decode_columns(b@, 26, (c + 1) as nat) is None);
                if decode_columns(b@, 26, num_columns as nat) is Some {
                    lemma_decode_columns_prefix(b@, 26, num_columns as nat, (c + 1) as nat);
                }
                assert(decode_columns(b@, 26, num_columns as nat) is None);
                assert(!(b@.len() < 26));
                assert(decode_table(b@) is None);
            }
            return false;
        }
        let ns = read_u16(b, offset) as usize;
        let o2 = offset + 2;
        if ns + 2 > b.len() - o2 {
            proof {
                assert(decode_columns(b@, 26, (c + 1) as nat) is Some && decode_columns(b@, 26, (c + 1) as nat)->Some_0 is Err);
                lemma_decode_columns_err(b@, 26, (c + 1) as nat, num_columns as nat);
                assert(decode_table(b@) is Some);
            }
            return true;
        }
        let name = copy_range(b, o2, o2 + ns);
        if string_from_utf8(name).is_none() {
            proof {
                lemma_decode_columns_err(b@, 26, (c + 1) as nat, num_columns as nat);
            }
            return true;
        }
        let code = read_u16(b, o2 + ns);
        if code > 3 {
            proof {
                lemma_decode_columns_err(b@, 26, (c + 1) as nat, num_columns as nat);
            }
            return true;
        }
        proof {
            let t = data_type_of_code(code)->Some_0;
            cols = cols.push((decode_utf8(b@.subrange(o2 as int, o2 + ns)), t));
        }
        offset = o2 + ns + 2;
        c = c + 1;
    }
    let room = (b.len() - offset) / 4;
    proof {
        let l = b@.len() - offset;
        assert((size as int) <= l / 4 <==> 4 * size <= l) by (nonlinear_arith)
            requires
                l >= 0,
        ;
    }
    (size as usize) <= room
}

/// An error while decoding some columns is the outcome of decoding more of them.
pub proof fn lemma_decode_columns_err(b: Seq<u8>, off: int, m: nat, n: nat)
    requires
        m <= n,
        decode_columns(b, off, m) matches Some(Err(_)),
    ensures
        decode_columns(b, off, n) == decode_columns(b, off, m),
    decreases n - m,
{
    if m < n {
        lemma_decode_columns_err(b, off, m, (n - 1) as nat);
    }
}

impl Table {
    /// Reads a table from the bytes of its file: `CorruptedDataError` for a file under 26
    /// bytes, a wrong magic number, a checksum that does not match, or a column whose name
    /// and type do not end before the file's last byte, whose name is not UTF-8 or whose
    /// type code is unknown.
    pub fn deserialise(bytes: &[u8]) -> (res: Result<Table, DbError>)
        requires
            decode_table(bytes@) is Some,
        ensures
            match decode_table(bytes@)->Some_0 {
                Ok(tv) => res is Ok && res->Ok_0@ == tv,
                Err(e) => res is Err && res->Err_0 == e,
            },
    {
        if bytes.len() < TABLE_HEADER_SIZE {
            return Err(DbError::CorruptedDataError);
        }
        let magic = read_u32(bytes, 0);
        if magic != TABLE_MAGIC {
            return Err(DbError::CorruptedDataError);
        }
        let checksum = read_u32(bytes, 4);
        let size = read_u32(bytes, 8);
        let num_columns = read_u16(bytes, 12);
        let next_si_no = read_u32(bytes, 14);
        let lsn = read_u64(bytes, 18);
        let mut zeroed = copy_range(bytes, 0, bytes.len());
        set_u32_at(&mut zeroed, 4, 0);
        proof {
            assert(zeroed@ =~= checksum_zeroed(bytes@));
        }
        if crc32(zeroed.as_slice()) != checksum {
            return Err(DbError::CorruptedDataError);
        }
        let blen = bytes.len();
        let mut schema: Vec<(String, DataTypes)> = Vec::new();
        let mut offset: usize = TABLE_HEADER_SIZE;
        let mut c: u16 = 0;
        proof {
            assert(columns_view(schema@) =~= Seq::<(Seq<char>, DataTypes)>::empty());
        }
        while c < num_columns
            invariant
                blen == bytes@.len(),
                c <= num_columns,
                num_columns == spec_u16_from_le_bytes(bytes@.subrange(12, 14)),
                bytes@.len() >= 26,
                decode_table(bytes@) is Some,
                decode_columns(bytes@, 26, num_columns as nat) is Some,
                decode_columns(bytes@, 26, c as nat) == Some(
                    Ok::<(Seq<(Seq<char>, DataTypes)>, int), DbError>((columns_view(schema@), offset as int)),
                ),
                offset <= bytes@.len(),
            decreases num_columns - c,
        {
            proof {
                lemma_decode_columns_prefix(bytes@, 26, num_columns as nat, c as nat);
                assert(column_step(bytes@, offset as int, columns_view(schema@)) is Some);
                assert(offset + 2 <= bytes@.len());
            }
            let ns = read_u16(bytes, offset) as usize;
            let o2 = offset + 2;
            if ns + 2 > bytes.len() - o2 {
                proof {
                    lemma_decode_columns_err(bytes@, 26, (c + 1) as nat, num_columns as nat);
                }
                return Err(DbError::CorruptedDataError);
            }
            let name_bytes = copy_range(bytes, o2, o2 + ns);
            let name = match string_from_utf8(name_bytes) {
                Some(n) => n,
                None => {
                    proof {
                        lemma_decode_columns_err(bytes@, 26, (c + 1) as nat, num_columns as nat);
                    }
                    return Err(DbError::CorruptedDataError);
                },
            };
            proof {
                vstd::utf8::encode_utf8_decode_utf8(name@);
            }
            let data_type = match read_u16(bytes, o2 + ns) {
                0 => DataTypes::INT32,
                1 => DataTypes::UINT32,
                2 => DataTypes::FLOAT32,
                3 => DataTypes::VARCHAR,
                _ => {
                    proof {
                        lemma_decode_columns_err(bytes@, 26, (c + 1) as nat, num_columns as nat);
                    }
                    return Err(DbError::CorruptedDataError);
                },
            };
            let ghost before = schema@;
            schema.push((name, data_type));
            proof {
                assert(columns_view(schema@) =~= columns_view(before).push((name@, data_type)));
            }
            offset = o2 + ns + 2;
            c = c + 1;
        }
        proof {
            assert(decode_records(bytes@, offset as int, size as nat) is Some);
        }
        let mut records: Vec<u32> = Vec::new();
        let mut k: u32 = 0;
        while k < size
            invariant
                blen == bytes@.len(),
                k <= size,
                offset + 4 * size <= bytes@.len(),
                forall|j: int| 0 <= j < k ==> #[trigger] records@[j] == spec_u32_from_le_bytes(
                    bytes@.subrange(offset + 4 * j, offset + 4 * j + 4),
                ),
                records@.len() == k,
            decreases size - k,
        {
            proof {
                assert(4 * (k as int) + 4 <= 4 * (size as int));
            }
            let at = offset + 4 * (k as usize);
            records.push(read_u32(bytes, at));
            k = k + 1;
        }
        let t = Table { size, records, schema, next_si_no, lsn };
        proof {
            let rs = decode_records(bytes@, offset as int, size as nat)->Some_0;
            assert(t.records@ =~= rs);
        }
        Ok(t)
    }
}

proof fn lemma_column_bytes(name: Seq<char>, t: DataTypes)
    ensures
        column_bytes(name, t).len() as int == 4 + encode_utf8(name).len() as int,
        column_bytes(name, t).subrange(0, 2) == spec_u16_to_le_bytes(encode_utf8(name).len() as u16),
        column_bytes(name, t).subrange(2, 2 + encode_utf8(name).len() as int) == encode_utf8(name),
        column_bytes(name, t).subrange(2 + encode_utf8(name).len() as int, 4 + encode_utf8(name).len() as int)
            == spec_u16_to_le_bytes(data_type_code(t)),
{
    lemma_auto_spec_u16_to_from_le_bytes();
    let e = encode_utf8(name);
    let a = spec_u16_to_le_bytes(e.len() as u16);
    let c = spec_u16_to_le_bytes(data_type_code(t));
    assert(a.len() as int == 2 && c.len() as int == 2);
    let b = a + e + c;
    assert(b.subrange(0, 2) =~= a);
    assert(b.subrange(2, 2 + e.len() as int) =~= e);
    assert(b.subrange(2 + e.len() as int, 4 + e.len() as int) =~= c);
}

proof fn lemma_columns_bytes_prefix(s: Seq<(Seq<char>, DataTypes)>, m: int)
    requires
        0 <= m <= s.len() as int,
    ensures
        columns_bytes(s.subrange(0, m)).len() as int <= columns_bytes(s).len() as int,
        columns_bytes(s).subrange(0, columns_bytes(s.subrange(0, m)).len() as int) == columns_bytes(s.subrange(0, m)),
    decreases s.len() as int,
{
    if m == s.len() as int {
        assert(s.subrange(0, m) =~= s);
        assert(columns_bytes(s).subrange(0, columns_bytes(s).len() as int) =~= columns_bytes(s));
    } else {
        let t = s.drop_last();
        assert(s.subrange(0, m) =~= t.subrange(0, m));
        lemma_columns_bytes_prefix(t, m);
        let p = columns_bytes(t.subrange(0, m));
        assert(columns_bytes(s) == columns_bytes(t) + column_bytes(s.last().0, s.last().1));
        assert(columns_bytes(s).subrange(0, p.len() as int) =~= columns_bytes(t).subrange(0, p.len() as int));
    }
}

proof fn lemma_records_bytes(rs: Seq<u32>)
    ensures
        records_bytes(rs).len() as int == 4 * rs.len() as int,
        forall|k: int| 0 <= k < rs.len() as int ==> #[trigger] records_bytes(rs).subrange(4 * k, 4 * k + 4) == spec_u32_to_le_bytes(rs[k]),
    decreases rs.len() as int,
{
    lemma_auto_spec_u32_to_from_le_bytes();
    if rs.len() as int > 0 {
        let t = rs.drop_last();
        lemma_records_bytes(t);
        let rb = records_bytes(rs);
        assert(rb == records_bytes(t) + spec_u32_to_le_bytes(rs.last()));
        assert forall|k: int| 0 <= k < rs.len() as int implies #[trigger] rb.subrange(4 * k, 4 * k + 4) == spec_u32_to_le_bytes(rs[k]) by {
            if k < t.len() as int {
                assert(rb.subrange(4 * k, 4 * k + 4) =~= records_bytes(t).subrange(4 * k, 4 * k + 4));
                assert(t[k] == rs[k]);
            } else {
                assert(rb.subrange(4 * k, 4 * k + 4) =~= spec_u32_to_le_bytes(rs.last()));
            }
        }
    }
}

proof fn lemma_decode_columns_of_bytes(b: Seq<u8>, sch: Seq<(Seq<char>, DataTypes)>, m: nat)
    requires
        m <= sch.len() as int,
        b.len() as int >= 26 + columns_bytes(sch).len() as int,
        b.subrange(26, 26 + columns_bytes(sch).len() as int) == columns_bytes(sch),
        forall|i: int| 0 <= i < sch.len() as int ==> #[trigger] encode_utf8(sch[i].0).len() as int <= u16::MAX,
    ensures
        decode_columns(b, 26, m) == Some(
            Ok::<(Seq<(Seq<char>, DataTypes)>, int), DbError>(
                (sch.subrange(0, m as int), 26 + columns_bytes(sch.subrange(0, m as int)).len() as int),
            ),
        ),
    decreases m,
{
    lemma_auto_spec_u16_to_from_le_bytes();
    if m == 0 {
        assert(sch.subrange(0, 0) =~= Seq::<(Seq<char>, DataTypes)>::empty());
    } else {
        let k = (m - 1) as int;
        lemma_decode_columns_of_bytes(b, sch, (m - 1) as nat);
        let prev = sch.subrange(0, k);
        let cur = sch.subrange(0, m as int);
        assert(cur.drop_last() =~= prev);
        assert(cur.last() == sch[k]);
        let (name, t) = sch[k];
        let e = encode_utf8(name);
        let pb = columns_bytes(prev);
        let o = 26 + pb.len() as int;
        lemma_column_bytes(name, t);
        lemma_columns_bytes_prefix(sch, m as int);
        let cb = columns_bytes(cur);
        assert(cb == pb + column_bytes(name, t));
        let all = columns_bytes(sch);
        assert(b.subrange(26, 26 + cb.len() as int) =~= all.subrange(0, cb.len() as int)) by {
            assert(b.subrange(26, 26 + cb.len() as int) =~= b.subrange(26, 26 + all.len() as int).subrange(0, cb.len() as int));
        }
        let colb = column_bytes(name, t);
        assert(b.subrange(o, o + colb.len() as int) =~= colb) by {
            assert(b.subrange(o, o + colb.len() as int) =~= b.subrange(26, 26 + cb.len() as int).subrange(pb.len() as int, cb.len() as int));
            assert(cb.subrange(pb.len() as int, cb.len() as int) =~= colb);
        }
        assert(b.subrange(o, o + 2) =~= colb.subrange(0, 2));
        assert(spec_u16_from_le_bytes(b.subrange(o, o + 2)) == e.len() as int);
        assert(b.subrange(o + 2, o + 2 + e.len() as int) =~= colb.subrange(2, 2 + e.len() as int));
        assert(b.subrange(o + 2 + e.len() as int, o + 4 + e.len() as int) =~= colb.subrange(2 + e.len() as int, 4 + e.len() as int));
        vstd::utf8::encode_utf8_valid_utf8(name);
        encode_utf8_decode_utf8(name);
        assert(data_type_of_code(data_type_code(t)) == Some(t));
        assert(cur =~= prev.push((name, t)));
    }
}

/// Reading back the bytes written for a table gives the table back, with its record count
/// as its size, when its counts and column names fit their length fields.
pub proof fn law_table_roundtrip(sch: Seq<(Seq<char>, DataTypes)>, recs: Seq<u32>, si: u32, lsn: u64)
    requires
        sch.len() as int <= u16::MAX,
        recs.len() as int <= u32::MAX,
        forall|i: int| 0 <= i < sch.len() as int ==> #[trigger] encode_utf8(sch[i].0).len() as int <= u16::MAX,
    ensures
        decode_table(table_bytes(sch, recs, si, lsn)) == Some(
            Ok::<TableView, DbError>(
                TableView { size: recs.len() as u32, records: recs, schema: sch, next_si_no: si, lsn },
            ),
        ),
{
    lemma_auto_spec_u16_to_from_le_bytes();
    lemma_auto_spec_u32_to_from_le_bytes();
    lemma_auto_spec_u64_to_from_le_bytes();
    let img0 = table_image(sch, recs, si, lsn, 0);
    let c = spec_crc32(img0);
    let b = table_bytes(sch, recs, si, lsn);
    lemma_table_image_checksum(sch, recs, si, lsn, c);
    lemma_table_image_checksum(sch, recs, si, lsn, 0);
    let cb = columns_bytes(sch);
    let rb = records_bytes(recs);
    lemma_records_bytes(recs);
    let h = spec_u32_to_le_bytes(TABLE_MAGIC) + spec_u32_to_le_bytes(c) + spec_u32_to_le_bytes(recs.len() as u32)
        + spec_u16_to_le_bytes(sch.len() as u16) + spec_u32_to_le_bytes(si) + spec_u64_to_le_bytes(lsn);
    assert(spec_u32_to_le_bytes(TABLE_MAGIC).len() as int == 4);
    assert(spec_u32_to_le_bytes(c).len() as int == 4);
    assert(spec_u32_to_le_bytes(recs.len() as u32).len() as int == 4);
    assert(spec_u16_to_le_bytes(sch.len() as u16).len() as int == 2);
    assert(spec_u32_to_le_bytes(si).len() as int == 4);
    assert(spec_u64_to_le_bytes(lsn).len() as int == 8);
    assert(h.len() as int == 26);
    assert(b =~= h + cb + rb);
    assert(b.subrange(0, 4) =~= spec_u32_to_le_bytes(TABLE_MAGIC));
    assert(b.subrange(4, 8) =~= spec_u32_to_le_bytes(c));
    assert(b.subrange(8, 12) =~= spec_u32_to_le_bytes(recs.len() as u32));
    assert(b.subrange(12, 14) =~= spec_u16_to_le_bytes(sch.len() as u16));
    assert(b.subrange(14, 18) =~= spec_u32_to_le_bytes(si));
    assert(b.subrange(18, 26) =~= spec_u64_to_le_bytes(lsn));
    assert(checksum_zeroed(b) =~= img0);
    assert(b.subrange(26, 26 + cb.len() as int) =~= cb);
    lemma_decode_columns_of_bytes(b, sch, sch.len());
    assert(sch.subrange(0, sch.len() as int) =~= sch);
    let off = 26 + cb.len() as int;
    let rs = decode_records(b, off, recs.len() as nat);
    assert(rs is Some);
    assert(rs->Some_0 =~= recs) by {
        assert forall|k: int| 0 <= k < recs.len() as int implies rs->Some_0[k] == recs[k] by {
            assert(b.subrange(off + 4 * k, off + 4 * k + 4) =~= rb.subrange(4 * k, 4 * k + 4));
        }
    }
}

/// The bytes of a stored value: four little-endian bytes for a number (a float's bits),
/// or the length in bytes and the UTF-8 bytes of a string.
pub open spec fn value_bytes(v: ValueView) -> Seq<u8> {
    match v {
        ValueView::Int32(x) => spec_u32_to_le_bytes(x as u32),
        ValueView::Uint32(x) => spec_u32_to_le_bytes(x),
        ValueView::Float32(x) => spec_u32_to_le_bytes(x),
        ValueView::Varchar(s) => spec_u16_to_le_bytes(encode_utf8(s).len() as u16) + encode_utf8(s),
    }
}

/// The bytes of a row's values, in order; the column names are not stored.
pub open spec fn row_bytes(r: Seq<(Seq<char>, ValueView)>) -> Seq<u8>
    decreases r.len(),
{
    if r.len() == 0 {
        Seq::empty()
    } else {
        row_bytes(r.drop_last()) + value_bytes(r.last().1)
    }
}

/// A row's columns and values as mathematical objects.
pub open spec fn row_view(r: Seq<(String, Value)>) -> Seq<(Seq<char>, ValueView)> {
    r.map_values(|p: (String, Value)| (p.0@, p.1@))
}

impl Table {
    /// The bytes of a row's values, in the row's order.
    pub fn row_to_bytes(row: Vec<(String, Value)>) -> (v: Vec<u8>)
        ensures
            v@ == row_bytes(row_view(row@)),
    {
        let ghost rv = row_view(row@);
        let mut v: Vec<u8> = Vec::new();
        let mut i: usize = 0;
        proof {
            assert(rv.subrange(0, 0) =~= Seq::<(Seq<char>, ValueView)>::empty());
        }
        while i < row.len()
            invariant
                i <= row@.len(),
                rv == row_view(row@),
                v@ == row_bytes(rv.subrange(0, i as int)),
            decreases row@.len() - i,
        {
            let ghost before = v@;
            match &row[i].1 {
                Value::Int32(value) => push_u32(&mut v, #[verifier::truncate] (*value as u32)),
                Value::Uint32(value) => push_u32(&mut v, *value),
                Value::Float32(value) => push_u32(&mut v, *value),
                Value::Varchar(value) => {
                    let bytes = value.as_str().as_bytes();
                    push_u16(&mut v, #[verifier::truncate] (bytes.len() as u16));
                    push_bytes(&mut v, bytes);
                },
            }
            proof {
                assert(rv.subrange(0, i + 1).drop_last() =~= rv.subrange(0, i as int));
                assert(rv[i as int] == (row@[i as int].0@, row@[i as int].1@));
                assert(v@ =~= before + value_bytes(rv[i as int].1));
            }
            i = i + 1;
        }
        proof {
            assert(rv.subrange(0, rv.len() as int) =~= rv);
        }
        v
    }
}

/// Decoding the value of one column of type `t` at `o`: the value and the offset after it,
/// `CorruptedDataError` for a string that is not UTF-8, or `None` where a read would pass
/// the end.
pub open spec fn value_step(b: Seq<u8>, o: int, t: DataTypes) -> Option<Result<(ValueView, int), DbError>> {
    match t {
        DataTypes::VARCHAR => if o + 2 > b.len() {
            None
        } else {
            let n = spec_u16_from_le_bytes(b.subrange(o, o + 2)) as int;
            if o + 2 + n > b.len() {
                None
            } else if !valid_utf8(b.subrange(o + 2, o + 2 + n)) {
                Some(Err(DbError::CorruptedDataError))
            } else {
                Some(Ok((ValueView::Varchar(decode_utf8(b.subrange(o + 2, o + 2 + n))), o + 2 + n)))
            }
        },
        _ => if o + 4 > b.len() {
            None
        } else {
            let x = spec_u32_from_le_bytes(b.subrange(o, o + 4));
            Some(
                Ok(
                    (
                        match t {
                            DataTypes::INT32 => ValueView::Int32(x as i32),
                            DataTypes::UINT32 => ValueView::Uint32(x),
                            _ => ValueView::Float32(x),
                        },
                        o + 4,
                    ),
                ),
            )
        },
    }
}

/// Decoding the values of the first `n` columns of `sch` from `off`: the columns and their
/// values and the offset after them, an error, or `None` where a read would pass the end.
pub open spec fn decode_values(b: Seq<u8>, off: int, sch: Seq<(Seq<char>, DataTypes)>, n: nat) -> Option<
    Result<(Seq<(Seq<char>, ValueView)>, int), DbError>,
>
    decreases n,
{
    if n == 0 {
        Some(Ok((Seq::empty(), off)))
    } else {
        match decode_values(b, off, sch, (n - 1) as nat) {
            None => None,
            Some(Err(e)) => Some(Err(e)),
            Some(Ok((vals, o))) => match value_step(b, o, sch[n - 1].1) {
                None => None,
                Some(Err(e)) => Some(Err(e)),
                Some(Ok((v, o2))) => Some(Ok((vals.push((sch[n - 1].0, v)), o2))),
            },
        }
    }
}

/// What reading a stored row gives: its serial number as column `SI`, then each column of
/// the schema with its value; `None` where a read would pass the end.
pub open spec fn decode_row(b: Seq<u8>, sch: Seq<(Seq<char>, DataTypes)>) -> Option<
    Result<Seq<(Seq<char>, ValueView)>, DbError>,
> {
    if b.len() < 4 {
        None
    } else {
        let si = spec_u32_from_le_bytes(b.subrange(0, 4));
        match decode_values(b, 4, sch, sch.len()) {
            None => None,
            Some(Err(e)) => Some(Err(e)),
            Some(Ok((vals, _))) => Some(Ok(seq![("SI"@, ValueView::Uint32(si))] + vals)),
        }
    }
}

/// Decoding the values of a prefix of the columns does not pass the end where decoding
/// them all does not.
pub proof fn lemma_decode_values_prefix(b: Seq<u8>, off: int, sch: Seq<(Seq<char>, DataTypes)>, n: nat, m: nat)
    requires
        m <= n,
        decode_values(b, off, sch, n) is Some,
    ensures
        decode_values(b, off, sch, m) is Some,
        m < n ==> (decode_values(b, off, sch, m) matches Some(Ok((vals, o))) ==> value_step(b, o, sch[m as int].1) is Some),
    decreases n - m,
{
    if m < n {
        lemma_decode_values_prefix(b, off, sch, n, (m + 1) as nat);
    }
}

/// An error while decoding some values is the outcome of decoding more of them.
pub proof fn lemma_decode_values_err(b: Seq<u8>, off: int, sch: Seq<(Seq<char>, DataTypes)>, m: nat, n: nat)
    requires
        m <= n,
        decode_values(b, off, sch, m) matches Some(Err(_)),
    ensures
        decode_values(b, off, sch, n) == decode_values(b, off, sch, m),
    decreases n - m,
{
    if m < n {
        lemma_decode_values_err(b, off, sch, m, (n - 1) as nat);
    }
}

/// Reads a little-endian `u32` at `o` as an `i32`.
fn read_i32(b: &[u8], o: usize) -> (v: i32)
    requires
        o + 4 <= b@.len(),
    ensures
        v == spec_u32_from_le_bytes(b@.subrange(o as int, o + 4)) as i32,
{
    let x = read_u32(b, o);
    #[verifier::truncate] (x as i32)
}

impl Table {
    /// Whether reading the stored row `buf` with this table's schema stays within it.
    pub fn row_readable(&self, buf: &[u8]) -> (r: bool)
        ensures
            r == decode_row(buf@, columns_view(self.schema@)) is Some,
    {
        let ghost sch = columns_view(self.schema@);
        let blen = buf.len();
        if blen < 4 {
            return false;
        }
        let mut offset: usize = 4;
        let mut i: usize = 0;
        let ghost mut vals: Seq<(Seq<char>, ValueView)> = Seq::empty();
        while i < self.schema.len()
            invariant
                sch == columns_view(self.schema@),
                blen == buf@.len(),
                buf@.len() >= 4,
                i <= self.schema@.len(),
                offset <= buf@.len(),
                decode_values(buf@, 4, sch, i as nat) == Some(Ok::<(Seq<(Seq<char>, ValueView)>, int), DbError>((vals, offset as int))),
            decreases self.schema@.len() - i,
        {
            let t = self.schema[i].1;
            proof {
                assert(sch[i as int].1 == t);
            }
            match t {
                DataTypes::VARCHAR => {
                    if blen - offset < 2 {
                        proof {
                            if decode_values(buf@, 4, sch, sch.len()) is Some {
                                lemma_decode_values_prefix(buf@, 4, sch, sch.len(), (i + 1) as nat);
                            }
                        }
                        return false;
                    }
                    let n = read_u16(buf, offset) as usize;
                    if blen - offset - 2 < n {
                        proof {
                            if decode_values(buf@, 4, sch, sch.len()) is Some {
                                lemma_decode_values_prefix(buf@, 4, sch, sch.len(), (i + 1) as nat);
                            }
                        }
                        return false;
                    }
                    let bytes = copy_range(buf, offset + 2, offset + 2 + n);
                    match string_from_utf8(bytes) {
                        None => {
                            proof {
                                lemma_decode_values_err(buf@, 4, sch, (i + 1) as nat, sch.len());
                            }
                            return true;
                        },
                        Some(_) => {},
                    }
                    proof {
                        vals = vals.push((sch[i as int].0, ValueView::Varchar(decode_utf8(buf@.subrange(offset + 2, offset + 2 + n)))));
                    }
                    offset = offset + 2 + n;
                },
                _ => {
                    if blen - offset < 4 {
                        proof {
                            if decode_values(buf@, 4, sch, sch.len()) is Some {
                                lemma_decode_values_prefix(buf@, 4, sch, sch.len(), (i + 1) as nat);
                            }
                        }
                        return false;
                    }
                    proof {
                        let x = spec_u32_from_le_bytes(buf@.subrange(offset as int, offset + 4));
                        vals = vals.push(
                            (
                                sch[i as int].0,
                                match t {
                                    DataTypes::INT32 => ValueView::Int32(x as i32),
                                    DataTypes::UINT32 => ValueView::Uint32(x),
                                    _ => ValueView::Float32(x),
                                },
                            ),
                        );
                    }
                    offset = offset + 4;
                },
            }
            i = i + 1;
        }
        proof {
            assert(sch.len() == self.schema@.len());
        }
        true
    }

    /// Reads a stored row: its serial number as column `SI`, then each column of the schema
    /// with its value; `CorruptedDataError` for a string that is not UTF-8.
    pub fn extract(&self, buf: &[u8]) -> (res: Result<Vec<(String, Value)>, DbError>)
        requires
            decode_row(buf@, columns_view(self.schema@)) is Some,
        ensures
            match decode_row(buf@, columns_view(self.schema@))->Some_0 {
                Ok(r) => res is Ok && row_view(res->Ok_0@) == r,
                Err(e) => res is Err && res->Err_0 == e,
            },
    {
        let ghost sch = columns_view(self.schema@);
        let blen = buf.len();
        let mut row: Vec<(String, Value)> = Vec::new();
        let si = read_u32(buf, 0);
        row.push((String::from_str("SI"), Value::Uint32(si)));
        proof {
            reveal_strlit("SI");
        }
        let mut offset: usize = 4;
        let mut i: usize = 0;
        let ghost head = row_view(row@);
        proof {
            assert(head =~= seq![("SI"@, ValueView::Uint32(si))]);
            assert(row_view(row@) =~= head + Seq::<(Seq<char>, ValueView)>::empty());
            assert(row_view(row@).subrange(1, row@.len() as int) =~= Seq::<(Seq<char>, ValueView)>::empty());
        }
        while i < self.schema.len()
            invariant
                sch == columns_view(self.schema@),
                blen == buf@.len(),
                buf@.len() >= 4,
                decode_row(buf@, sch) is Some,
                i <= self.schema@.len(),
                offset <= buf@.len(),
                head == seq![("SI"@, ValueView::Uint32(si))],
                si == spec_u32_from_le_bytes(buf@.subrange(0, 4)),
                row@.len() >= 1,
                decode_values(buf@, 4, sch, i as nat) == Some(
                    Ok::<(Seq<(Seq<char>, ValueView)>, int), DbError>(
                        (row_view(row@).subrange(1, row@.len() as int), offset as int),
                    ),
                ),
                row_view(row@).subrange(0, 1) == head,
            decreases self.schema@.len() - i,
        {
            proof {
                lemma_decode_values_prefix(buf@, 4, sch, sch.len(), i as nat);
            }
            let cname = self.schema[i].0.clone();
            let t = self.schema[i].1;
            proof {
                assert(sch[i as int] == (cname@, t));
            }
            let ghost before = row_view(row@);
            match t {
                DataTypes::INT32 => {
                    let val = read_i32(buf, offset);
                    row.push((cname, Value::Int32(val)));
                    offset = offset + 4;
                },
                DataTypes::UINT32 => {
                    let val = read_u32(buf, offset);
                    row.push((cname, Value::Uint32(val)));
                    offset = offset + 4;
                },
                DataTypes::FLOAT32 => {
                    let val = read_u32(buf, offset);
                    row.push((cname, Value::Float32(val)));
                    offset = offset + 4;
                },
                DataTypes::VARCHAR => {
                    let data_size = read_u16(buf, offset) as usize;
                    let v = copy_range(buf, offset + 2, offset + 2 + data_size);
                    let val = match string_from_utf8(v) {
                        Some(s) => s,
                        None => {
                            proof {
                                lemma_decode_values_err(buf@, 4, sch, (i + 1) as nat, sch.len());
                            }
                            return Err(DbError::CorruptedDataError);
                        },
                    };
                    proof {
                        vstd::utf8::encode_utf8_decode_utf8(val@);
                    }
                    row.push((cname, Value::Varchar(val)));
                    offset = offset + 2 + data_size;
                },
            }
            proof {
                assert(row_view(row@) =~= before.push(row_view(row@).last()));
                assert(row_view(row@).subrange(1, row@.len() as int) =~= before.subrange(1, before.len() as int).push(
                    row_view(row@).last(),
                ));
                assert(row_view(row@).subrange(0, 1) =~= before.subrange(0, 1));
            }
            i = i + 1;
        }
        proof {
            assert(sch.len() == self.schema@.len());
            assert(row_view(row@) =~= head + row_view(row@).subrange(1, row@.len() as int));
        }
        Ok(row)
    }
}

proof fn lemma_row_bytes_prefix(s: Seq<(Seq<char>, ValueView)>, m: int)
    requires
        0 <= m <= s.len() as int,
    ensures
        row_bytes(s.subrange(0, m)).len() as int <= row_bytes(s).len() as int,
        row_bytes(s).subrange(0, row_bytes(s.subrange(0, m)).len() as int) == row_bytes(s.subrange(0, m)),
    decreases s.len() as int,
{
    if m == s.len() as int {
        assert(s.subrange(0, m) =~= s);
        assert(row_bytes(s).subrange(0, row_bytes(s).len() as int) =~= row_bytes(s));
    } else {
        let t = s.drop_last();
        assert(s.subrange(0, m) =~= t.subrange(0, m));
        lemma_row_bytes_prefix(t, m);
        let p = row_bytes(t.subrange(0, m));
        assert(row_bytes(s) == row_bytes(t) + value_bytes(s.last().1));
        assert(row_bytes(s).subrange(0, p.len() as int) =~= row_bytes(t).subrange(0, p.len() as int));
    }
}

/// A row fits a schema: the same columns in the same order, each value of its column's
/// type, each string short enough for its length field.
pub open spec fn row_fits(vals: Seq<(Seq<char>, ValueView)>, sch: Seq<(Seq<char>, DataTypes)>) -> bool {
    &&& vals.len() as int == sch.len() as int
    &&& forall|i: int|
        #![trigger vals[i]]
        0 <= i < vals.len() as int ==> {
            &&& vals[i].0 == sch[i].0
            &&& type_of_value(vals[i].1) == sch[i].1
            &&& (vals[i].1 matches ValueView::Varchar(s) ==> encode_utf8(s).len() as int <= u16::MAX)
        }
}

proof fn lemma_decode_values_of_bytes(b: Seq<u8>, vals: Seq<(Seq<char>, ValueView)>, sch: Seq<(Seq<char>, DataTypes)>, m: nat)
    requires
        m <= sch.len() as int,
        row_fits(vals, sch),
        b.len() as int >= 4 + row_bytes(vals).len() as int,
        b.subrange(4, 4 + row_bytes(vals).len() as int) == row_bytes(vals),
    ensures
        decode_values(b, 4, sch, m) == Some(
            Ok::<(Seq<(Seq<char>, ValueView)>, int), DbError>(
                (vals.subrange(0, m as int), 4 + row_bytes(vals.subrange(0, m as int)).len() as int),
            ),
        ),
    decreases m,
{
    lemma_auto_spec_u16_to_from_le_bytes();
    lemma_auto_spec_u32_to_from_le_bytes();
    if m == 0 {
        assert(vals.subrange(0, 0) =~= Seq::<(Seq<char>, ValueView)>::empty());
    } else {
        let k = (m - 1) as int;
        lemma_decode_values_of_bytes(b, vals, sch, (m - 1) as nat);
        let prev = vals.subrange(0, k);
        let cur = vals.subrange(0, m as int);
        assert(cur.drop_last() =~= prev);
        assert(cur.last() == vals[k]);
        let v = vals[k].1;
        let pb = row_bytes(prev);
        let o = 4 + pb.len() as int;
        lemma_row_bytes_prefix(vals, m as int);
        let cb = row_bytes(cur);
        let vb = value_bytes(v);
        assert(cb == pb + vb);
        let all = row_bytes(vals);
        assert(b.subrange(o, o + vb.len() as int) =~= vb) by {
            assert(b.subrange(4, 4 + cb.len() as int) =~= b.subrange(4, 4 + all.len() as int).subrange(0, cb.len() as int));
            assert(b.subrange(o, o + vb.len() as int) =~= b.subrange(4, 4 + cb.len() as int).subrange(pb.len() as int, cb.len() as int));
            assert(cb.subrange(pb.len() as int, cb.len() as int) =~= vb);
        }
        assert(vals[k].0 == sch[k].0 && type_of_value(v) == sch[k].1);
        match v {
            ValueView::Varchar(s) => {
                let e = encode_utf8(s);
                assert(spec_u16_to_le_bytes(e.len() as u16).len() as int == 2);
                assert(b.subrange(o, o + 2) =~= vb.subrange(0, 2));
                assert(vb.subrange(0, 2) =~= spec_u16_to_le_bytes(e.len() as u16));
                assert(b.subrange(o + 2, o + 2 + e.len() as int) =~= vb.subrange(2, 2 + e.len() as int));
                assert(vb.subrange(2, 2 + e.len() as int) =~= e);
                vstd::utf8::encode_utf8_valid_utf8(s);
                encode_utf8_decode_utf8(s);
            },
            ValueView::Int32(x) => {
                assert(spec_u32_to_le_bytes(#[verifier::truncate] (x as u32)).len() as int == 4);
                assert(b.subrange(o, o + 4) =~= vb);
                assert((x as u32) as i32 == x) by (bit_vector);
            },
            _ => {
                assert(b.subrange(o, o + 4) =~= vb);
            },
        }
        assert(cur =~= prev.push((sch[k].0, v)));
    }
}

/// Reading back a stored row, written as its serial number and the bytes of its values,
/// gives the serial number as column `SI` and the row, when the row fits the schema.
pub proof fn law_row_roundtrip(si: u32, vals: Seq<(Seq<char>, ValueView)>, sch: Seq<(Seq<char>, DataTypes)>)
    requires
        row_fits(vals, sch),
    ensures
        decode_row(spec_u32_to_le_bytes(si) + row_bytes(vals), sch) == Some(
            Ok::<Seq<(Seq<char>, ValueView)>, DbError>(seq![("SI"@, ValueView::Uint32(si))] + vals),
        ),
{
    lemma_auto_spec_u32_to_from_le_bytes();
    let b = spec_u32_to_le_bytes(si) + row_bytes(vals);
    assert(spec_u32_to_le_bytes(si).len() as int == 4);
    assert(b.subrange(0, 4) =~= spec_u32_to_le_bytes(si));
    assert(b.subrange(4, 4 + row_bytes(vals).len() as int) =~= row_bytes(vals));
    lemma_decode_values_of_bytes(b, vals, sch, sch.len());
    assert(vals.subrange(0, sch.len() as int) =~= vals);
}

/// Some column of `sch` is named `name`.
pub open spec fn schema_has(sch: Seq<(Seq<char>, DataTypes)>, name: Seq<char>) -> bool {
    exists|i: int| 0 <= i < sch.len() && #[trigger] sch[i].0 == name
}

/// Whether a row may be inserted: `ColumnAbsent` if it names a column the schema lacks,
/// else `InsufficientParams` unless it has as many columns as the schema.
pub open spec fn row_check(row: Seq<(Seq<char>, ValueView)>, sch: Seq<(Seq<char>, DataTypes)>) -> Result<(), DbError> {
    if exists|i: int| 0 <= i < row.len() && !schema_has(sch, #[trigger] row[i].0) {
        Err(DbError::ColumnAbsent)
    } else if row.len() != sch.len() {
        Err(DbError::InsufficientParams)
    } else {
        Ok(())
    }
}

/// Whether the table's schema has a column named `name`.
fn has_column(schema: &Vec<(String, DataTypes)>, name: &String) -> (r: bool)
    ensures
        r == schema_has(columns_view(schema@), name@),
{
    let ghost sch = columns_view(schema@);
    let mut i: usize = 0;
    while i < schema.len()
        invariant
            i <= schema@.len(),
            sch == columns_view(schema@),
            forall|j: int| 0 <= j < i ==> sch[j].0 != name@,
        decreases schema@.len() - i,
    {
        if schema[i].0 == *name {
            proof {
                assert(sch[i as int].0 == name@);
            }
            return true;
        }
        i = i + 1;
    }
    false
}

/// The first occurrence of `x` in `s` removed, if there is one.
pub open spec fn remove_first(s: Seq<u32>, x: u32) -> Seq<u32> {
    if exists|i: int| 0 <= i < s.len() && s[i] == x && forall|j: int| 0 <= j < i ==> s[j] != x {
        s.remove(choose|i: int| 0 <= i < s.len() && s[i] == x && forall|j: int| 0 <= j < i ==> s[j] != x)
    } else {
        s
    }
}

/// The entries of a row whose columns are among `wanted`, in order.
pub open spec fn keep_columns(row: Seq<(Seq<char>, ValueView)>, wanted: Seq<Seq<char>>) -> Seq<(Seq<char>, ValueView)>
    decreases row.len(),
{
    if row.len() == 0 {
        Seq::empty()
    } else {
        keep_columns(row.drop_last(), wanted) + if wanted.contains(row.last().0) {
            seq![row.last()]
        } else {
            Seq::empty()
        }
    }
}

/// The columns a selection shows: those asked for, or all of the schema's and `SI` when
/// none are.
pub open spec fn wanted_columns(cols: Seq<Seq<char>>, sch: Seq<(Seq<char>, DataTypes)>) -> Seq<Seq<char>> {
    if cols.len() == 0 {
        sch.map_values(|p: (Seq<char>, DataTypes)| p.0).push("SI"@)
    } else {
        cols
    }
}

/// Strings as character sequences.
pub open spec fn names_view(s: Seq<String>) -> Seq<Seq<char>> {
    s.map_values(|x: String| x@)
}

/// A value after the updates of a column: each update of column `col`, in order, replaces
/// it, and one of another type is `TypeMismatch`.
pub open spec fn apply_updates(v: ValueView, col: Seq<char>, ups: Seq<ConditionView>) -> Result<ValueView, DbError>
    decreases ups.len(),
{
    if ups.len() == 0 {
        Ok(v)
    } else {
        match apply_updates(v, col, ups.drop_last()) {
            Err(e) => Err(e),
            Ok(w) => {
                let u = ups.last();
                if u.column == col {
                    if type_of_value(w) != type_of_value(u.value) {
                        Err(DbError::TypeMismatch)
                    } else {
                        Ok(u.value)
                    }
                } else {
                    Ok(w)
                }
            },
        }
    }
}

/// A row's serial number (its last `SI` entry, or 0) and its other entries with the
/// updates applied.
pub open spec fn rebuild_row(row: Seq<(Seq<char>, ValueView)>, ups: Seq<ConditionView>) -> Result<
    (ValueView, Seq<(Seq<char>, ValueView)>),
    DbError,
>
    decreases row.len(),
{
    if row.len() == 0 {
        Ok((ValueView::Uint32(0), Seq::empty()))
    } else {
        match rebuild_row(row.drop_last(), ups) {
            Err(e) => Err(e),
            Ok((si, nr)) => {
                let (c, v) = row.last();
                if c == "SI"@ {
                    Ok((v, nr))
                } else {
                    match apply_updates(v, c, ups) {
                        Err(e) => Err(e),
                        Ok(w) => Ok((si, nr.push((c, w)))),
                    }
                }
            },
        }
    }
}

/// The bytes an updated row is stored as: its serial number first, then the other
/// columns with the updates applied.
pub open spec fn updated_row(row: Seq<(Seq<char>, ValueView)>, ups: Seq<ConditionView>) -> Result<Seq<u8>, DbError> {
    match rebuild_row(row, ups) {
        Err(e) => Err(e),
        Ok((si, nr)) => Ok(row_bytes(seq![("SI"@, si)] + nr)),
    }
}

/// Conditions as mathematical objects.
pub open spec fn conditions_view(s: Seq<Condition>) -> Seq<ConditionView> {
    s.map_values(|c: Condition| c@)
}

/// Whether two values are of the same type.
fn same_type(a: &Value, b: &Value) -> (r: bool)
    ensures
        r == (type_of_value(a@) == type_of_value(b@)),
{
    match (a, b) {
        (Value::Int32(_), Value::Int32(_)) => true,
        (Value::Uint32(_), Value::Uint32(_)) => true,
        (Value::Float32(_), Value::Float32(_)) => true,
        (Value::Varchar(_), Value::Varchar(_)) => true,
        _ => false,
    }
}

/// A copy of a value.
fn copy_value(v: &Value) -> (r: Value)
    ensures
        r@ == v@,
{
    match v {
        Value::Int32(x) => Value::Int32(*x),
        Value::Uint32(x) => Value::Uint32(*x),
        Value::Float32(x) => Value::Float32(*x),
        Value::Varchar(s) => Value::Varchar(s.clone()),
    }
}

/// Index of the first pair of `r`, from position `from` on, whose column is `c`, or `-1`.
pub open spec fn first_col(r: Seq<(Seq<char>, ValueView)>, c: Seq<char>, from: int) -> int
    decreases r.len() - from,
{
    if from < 0 || from >= r.len() {
        -1
    } else if r[from].0 == c {
        from
    } else {
        first_col(r, c, from + 1)
    }
}

/// Every column of `sch` is given a value in `r`.
pub open spec fn row_covers(r: Seq<(Seq<char>, ValueView)>, sch: Seq<(Seq<char>, DataTypes)>) -> bool {
    forall|k: int| 0 <= k < sch.len() ==> first_col(r, #[trigger] sch[k].0, 0) >= 0
}

/// The values of `r` in the order of the schema's columns: for each column, the first
/// value `r` gives it.
pub open spec fn in_schema_order(r: Seq<(Seq<char>, ValueView)>, sch: Seq<(Seq<char>, DataTypes)>) -> Seq<
    (Seq<char>, ValueView),
> {
    Seq::new(sch.len(), |k: int| (sch[k].0, r[first_col(r, sch[k].0, 0)].1))
}

/// The position of the first pair of `row` whose column is `name`.
fn find_column(row: &Vec<(String, Value)>, name: &String) -> (r: Option<usize>)
    ensures
        match r {
            Some(j) => j < row@.len() && first_col(row_view(row@), name@, 0) == j as int,
            None => first_col(row_view(row@), name@, 0) == -1,
        },
{
    let ghost rv = row_view(row@);
    let mut i: usize = 0;
    while i < row.len()
        invariant
            i <= row@.len(),
            rv == row_view(row@),
            first_col(rv, name@, 0) == first_col(rv, name@, i as int),
        decreases row@.len() - i,
    {
        proof {
            assert(rv[i as int].0 == row@[i as int].0@);
        }
        if row[i].0 == *name {
            return Some(i);
        }
        i = i + 1;
    }
    None
}

impl Table {
    /// The bytes to store for a new row: the next serial number, then the row's values in
    /// the order of the schema, whatever their order in the row. `ColumnAbsent` if the row
    /// names a column the schema lacks; `InsufficientParams` unless it has as many columns
    /// as the schema and gives each of them a value.
    pub fn insert_bytes(&self, row: Vec<(String, Value)>) -> (res: Result<Vec<u8>, DbError>)
        ensures
            match row_check(row_view(row@), columns_view(self.schema@)) {
                Err(e) => res == Err::<Vec<u8>, DbError>(e),
                Ok(()) => if row_covers(row_view(row@), columns_view(self.schema@)) {
                    res is Ok && res->Ok_0@ == spec_u32_to_le_bytes(self.next_si_no) + row_bytes(
                        in_schema_order(row_view(row@), columns_view(self.schema@)),
                    )
                } else {
                    res == Err::<Vec<u8>, DbError>(DbError::InsufficientParams)
                },
            },
    {
        let ghost rv = row_view(row@);
        let ghost sch = columns_view(self.schema@);
        let mut count: usize = 0;
        let mut i: usize = 0;
        while i < row.len()
            invariant
                i <= row@.len(),
                rv == row_view(row@),
                sch == columns_view(self.schema@),
                count == i,
                forall|j: int| 0 <= j < i ==> schema_has(sch, #[trigger] rv[j].0),
            decreases row@.len() - i,
        {
            if !has_column(&self.schema, &row[i].0) {
                proof {
                    assert(rv[i as int].0 == row@[i as int].0@);
                }
                return Err(DbError::ColumnAbsent);
            }
            count = count + 1;
            i = i + 1;
        }
        if count != self.schema.len() {
            return Err(DbError::InsufficientParams);
        }
        let ghost target = in_schema_order(rv, sch);
        let mut ordered: Vec<(String, Value)> = Vec::new();
        let mut k: usize = 0;
        proof {
            assert(row_view(ordered@) =~= target.subrange(0, 0));
        }
        while k < self.schema.len()
            invariant
                k <= self.schema@.len(),
                rv == row_view(row@),
                sch == columns_view(self.schema@),
                target == in_schema_order(rv, sch),
                row_view(ordered@) == target.subrange(0, k as int),
                row@.len() == self.schema@.len(),
                forall|j: int| 0 <= j < row@.len() ==> schema_has(sch, #[trigger] rv[j].0),
                forall|l: int| 0 <= l < k ==> first_col(rv, #[trigger] sch[l].0, 0) >= 0,
            decreases self.schema@.len() - k,
        {
            proof {
                assert(sch[k as int].0 == self.schema@[k as int].0@);
            }
            let j = match find_column(&row, &self.schema[k].0) {
                Some(j) => j,
                None => {
                    proof {
                        assert(!row_covers(rv, sch));
                    }
                    return Err(DbError::InsufficientParams);
                },
            };
            let ghost before = ordered@;
            ordered.push((self.schema[k].0.clone(), copy_value(&row[j].1)));
            proof {
                assert(rv[j as int].1 == row@[j as int].1@);
                assert(row_view(ordered@) =~= row_view(before).push((sch[k as int].0, rv[j as int].1)));
                assert(row_view(ordered@) =~= target.subrange(0, k + 1));
            }
            k = k + 1;
        }
        proof {
            assert(target.subrange(0, k as int) =~= target);
            assert(row_covers(rv, sch));
        }
        let w_buf = Self::row_to_bytes(ordered);
        let mut buf: Vec<u8> = Vec::new();
        push_u32(&mut buf, self.next_si_no);
        push_bytes(&mut buf, w_buf.as_slice());
        Ok(buf)
    }

    /// Records that the new row was stored as record `id`: the record joins the table and
    /// the serial number moves on.
    pub fn insert_done(&mut self, id: u32)
        requires
            old(self).next_si_no < u32::MAX,
        ensures
            final(self).records@ == old(self).records@.push(id),
            final(self).next_si_no == old(self).next_si_no + 1,
            final(self).size == old(self).size,
            final(self).schema@ == old(self).schema@,
            final(self).lsn == old(self).lsn,
    {
        self.records.push(id);
        self.next_si_no = self.next_si_no + 1;
    }

    /// Drops the first occurrence of record `record_id` from the table, if any.
    pub fn remove_record(&mut self, record_id: u32)
        ensures
            final(self).records@ == remove_first(old(self).records@, record_id),
            final(self).size == old(self).size,
            final(self).schema@ == old(self).schema@,
            final(self).next_si_no == old(self).next_si_no,
            final(self).lsn == old(self).lsn,
    {
        let mut i: usize = 0;
        let ghost s = self.records@;
        while i < self.records.len()
            invariant_except_break
                i <= s.len(),
                self.records@ == s,
                forall|j: int| 0 <= j < i ==> s[j] != record_id,
            ensures
                i <= s.len(),
                self.records@ == s,
                forall|j: int| 0 <= j < i ==> s[j] != record_id,
                i < s.len() ==> s[i as int] == record_id,
            decreases s.len() - i,
        {
            if self.records[i] == record_id {
                break;
            }
            i = i + 1;
        }
        if i < self.records.len() {
            self.records.remove(i);
            proof {
                let c = choose|k: int| 0 <= k < s.len() && s[k] == record_id && forall|j: int| 0 <= j < k ==> s[j] != record_id;
                assert(s[i as int] == record_id);
                if c < i {
                } else if c > i {
                    assert(s[i as int] != record_id);
                }
                assert(c == i);
            }
        } else {
            proof {
                assert(!exists|k: int| 0 <= k < s.len() && s[k] == record_id && forall|j: int| 0 <= j < k ==> s[j] != record_id);
            }
        }
    }

    /// Replays a table log entry numbered `lsn`: nothing if the table already reflects
    /// it; else an insert adds the record, a delete drops its first occurrence, and the table
    /// moves to `lsn`. Returns whether the table changed.
    pub fn replay(&mut self, task_type: TaskType, record_id: u32, lsn: u64) -> (changed: bool)
        ensures
            changed == (old(self).lsn < lsn),
            !changed ==> final(self)@ == old(self)@,
            changed ==> final(self)@ == (TableView {
                lsn,
                records: match task_type {
                    TaskType::Insert => old(self).records@.push(record_id),
                    TaskType::Delete => remove_first(old(self).records@, record_id),
                },
                ..old(self)@
            }),
    {
        if self.lsn >= lsn {
            return false;
        }
        match task_type {
            TaskType::Insert => {
                self.records.push(record_id);
            },
            TaskType::Delete => {
                self.remove_record(record_id);
            },
        }
        self.lsn = lsn;
        true
    }

    /// The columns of each row that a selection shows: those in `cols`, or all of the
    /// schema's and `SI` when `cols` is empty.
    pub fn select_columns(&self, rows: Vec<Vec<(String, Value)>>, cols: Vec<String>) -> (res: Vec<Vec<(String, Value)>>)
        ensures
            res@.len() == rows@.len(),
            forall|k: int| 0 <= k < rows@.len() ==> row_view(#[trigger] res@[k]@) == keep_columns(
                row_view(rows@[k]@),
                wanted_columns(names_view(cols@), columns_view(self.schema@)),
            ),
    {
        let ghost sch = columns_view(self.schema@);
        let mut cols = cols;
        if cols.len() == 0 {
            let mut i: usize = 0;
            while i < self.schema.len()
                invariant
                    i <= self.schema@.len(),
                    sch == columns_view(self.schema@),
                    names_view(cols@) == sch.map_values(|p: (Seq<char>, DataTypes)| p.0).subrange(0, i as int),
                decreases self.schema@.len() - i,
            {
                let ghost before = cols@;
                cols.push(self.schema[i].0.clone());
                proof {
                    assert(names_view(cols@) =~= names_view(before).push(self.schema@[i as int].0@));
                    assert(sch.map_values(|p: (Seq<char>, DataTypes)| p.0).subrange(0, i + 1) =~= sch.map_values(
                        |p: (Seq<char>, DataTypes)| p.0,
                    ).subrange(0, i as int).push(sch[i as int].0));
                }
                i = i + 1;
            }
            let ghost before = cols@;
            cols.push(String::from_str("SI"));
            proof {
                reveal_strlit("SI");
                assert(names_view(cols@) =~= names_view(before).push("SI"@));
                assert(sch.map_values(|p: (Seq<char>, DataTypes)| p.0).subrange(0, sch.len() as int) =~= sch.map_values(
                    |p: (Seq<char>, DataTypes)| p.0,
                ));
            }
        }
        let ghost wanted = names_view(cols@);
        let mut result: Vec<Vec<(String, Value)>> = Vec::new();
        let mut k: usize = 0;
        while k < rows.len()
            invariant
                k <= rows@.len(),
                wanted == names_view(cols@),
                result@.len() == k,
                forall|r: int| 0 <= r < k ==> row_view(#[trigger] result@[r]@) == keep_columns(row_view(rows@[r]@), wanted),
            decreases rows@.len() - k,
        {
            let row = &rows[k];
            let ghost rv = row_view(row@);
            let mut r_row: Vec<(String, Value)> = Vec::new();
            let mut i: usize = 0;
            proof {
                assert(rv.subrange(0, 0) =~= Seq::<(Seq<char>, ValueView)>::empty());
                assert(row_view(r_row@) =~= Seq::<(Seq<char>, ValueView)>::empty());
            }
            while i < row.len()
                invariant
                    i <= row@.len(),
                    rv == row_view(row@),
                    wanted == names_view(cols@),
                    row_view(r_row@) == keep_columns(rv.subrange(0, i as int), wanted),
                decreases row@.len() - i,
            {
                let mut found = false;
                let mut c: usize = 0;
                while c < cols.len()
                    invariant
                        c <= cols@.len(),
                        i < row@.len(),
                        wanted == names_view(cols@),
                        found == exists|d: int| 0 <= d < c && wanted[d] == row@[i as int].0@,
                    decreases cols@.len() - c,
                {
                    proof {
                        assert(wanted[c as int] == cols@[c as int]@);
                    }
                    if cols[c] == row[i].0 {
                        found = true;
                    }
                    c = c + 1;
                }
                proof {
                    assert(rv.subrange(0, i + 1).drop_last() =~= rv.subrange(0, i as int));
                    assert(rv[i as int] == (row@[i as int].0@, row@[i as int].1@));
                    if wanted.contains(row@[i as int].0@) {
                        let d = choose|d: int| 0 <= d < wanted.len() && wanted[d] == row@[i as int].0@;
                        assert(exists|d: int| 0 <= d < cols@.len() && wanted[d] == row@[i as int].0@);
                    }
                    if found {
                        let d = choose|d: int| 0 <= d < cols@.len() && wanted[d] == row@[i as int].0@;
                        assert(wanted.contains(row@[i as int].0@));
                    }
                }
                let ghost before = row_view(r_row@);
                if found {
                    let name = row[i].0.clone();
                    let value = copy_value(&row[i].1);
                    r_row.push((name, value));
                    proof {
                        assert(row_view(r_row@) =~= before.push(rv[i as int]));
                    }
                } else {
                    proof {
                        assert(before + Seq::<(Seq<char>, ValueView)>::empty() =~= before);
                    }
                }
                i = i + 1;
            }
            proof {
                assert(rv.subrange(0, rv.len() as int) =~= rv);
            }
            result.push(r_row);
            k = k + 1;
        }
        proof {
            if cols@.len() > 0 {
            }
        }
        result
    }
}

proof fn lemma_apply_updates_err(v: ValueView, col: Seq<char>, ups: Seq<ConditionView>, m: int)
    requires
        0 <= m <= ups.len(),
        apply_updates(v, col, ups.subrange(0, m)) is Err,
    ensures
        apply_updates(v, col, ups) == apply_updates(v, col, ups.subrange(0, m)),
    decreases ups.len() - m,
{
    if m < ups.len() {
        let n = ups.len() - 1;
        assert(ups.subrange(0, n as int).subrange(0, m) =~= ups.subrange(0, m));
        lemma_apply_updates_err(v, col, ups.subrange(0, n as int), m);
        assert(ups.drop_last() =~= ups.subrange(0, n as int));
    } else {
        assert(ups.subrange(0, m) =~= ups);
    }
}

proof fn lemma_rebuild_row_err(row: Seq<(Seq<char>, ValueView)>, ups: Seq<ConditionView>, m: int)
    requires
        0 <= m <= row.len(),
        rebuild_row(row.subrange(0, m), ups) is Err,
    ensures
        rebuild_row(row, ups) == rebuild_row(row.subrange(0, m), ups),
    decreases row.len() - m,
{
    if m < row.len() {
        let n = row.len() - 1;
        assert(row.subrange(0, n as int).subrange(0, m) =~= row.subrange(0, m));
        lemma_rebuild_row_err(row.subrange(0, n as int), ups, m);
        assert(row.drop_last() =~= row.subrange(0, n as int));
    } else {
        assert(row.subrange(0, m) =~= row);
    }
}

impl Table {
    /// The bytes a row is stored as after `updates`: its serial number (its `SI` column, 0
    /// if it has none), then its other columns with each update of theirs applied in order.
    /// `TypeMismatch` for an update whose value is of another type than the column's.
    pub fn updated_row_bytes(row: Vec<(String, Value)>, updates: &Vec<Condition>) -> (res: Result<Vec<u8>, DbError>)
        ensures
            match updated_row(row_view(row@), conditions_view(updates@)) {
                Ok(b) => res is Ok && res->Ok_0@ == b,
                Err(e) => res == Err::<Vec<u8>, DbError>(e),
            },
    {
        let ghost rv = row_view(row@);
        let ghost ups = conditions_view(updates@);
        let si_name = String::from_str("SI");
        proof {
            reveal_strlit("SI");
        }
        let mut new_row: Vec<(String, Value)> = Vec::new();
        let mut si = Value::Uint32(0);
        let mut i: usize = 0;
        proof {
            assert(rv.subrange(0, 0) =~= Seq::<(Seq<char>, ValueView)>::empty());
            assert(row_view(new_row@) =~= Seq::<(Seq<char>, ValueView)>::empty());
        }
        while i < row.len()
            invariant
                i <= row@.len(),
                rv == row_view(row@),
                ups == conditions_view(updates@),
                si_name@ == "SI"@,
                rebuild_row(rv.subrange(0, i as int), ups) == Ok::<(ValueView, Seq<(Seq<char>, ValueView)>), DbError>(
                    (si@, row_view(new_row@)),
                ),
            decreases row@.len() - i,
        {
            proof {
                assert(rv.subrange(0, i + 1).drop_last() =~= rv.subrange(0, i as int));
                assert(rv[i as int] == (row@[i as int].0@, row@[i as int].1@));
            }
            let col_name = &row[i].0;
            if *col_name == si_name {
                si = copy_value(&row[i].1);
            } else {
                let mut new_value = copy_value(&row[i].1);
                let mut j: usize = 0;
                proof {
                    assert(ups.subrange(0, 0) =~= Seq::<ConditionView>::empty());
                }
                while j < updates.len()
                    invariant
                        j <= updates@.len(),
                        i < row@.len(),
                        rv == row_view(row@),
                        *col_name == row@[i as int].0,
                        col_name@ != "SI"@,
                        rv[i as int] == (row@[i as int].0@, row@[i as int].1@),
                        rv.subrange(0, i + 1).drop_last() == rv.subrange(0, i as int),
                        rebuild_row(rv.subrange(0, i as int), ups) == Ok::<(ValueView, Seq<(Seq<char>, ValueView)>), DbError>(
                            (si@, row_view(new_row@)),
                        ),
                        ups == conditions_view(updates@),
                        apply_updates(row@[i as int].1@, col_name@, ups.subrange(0, j as int)) == Ok::<ValueView, DbError>(
                            new_value@,
                        ),
                    decreases updates@.len() - j,
                {
                    proof {
                        assert(ups.subrange(0, j + 1).drop_last() =~= ups.subrange(0, j as int));
                        assert(ups[j as int] == updates@[j as int]@);
                    }
                    if updates[j].column == *col_name {
                        if !same_type(&new_value, &updates[j].value) {
                            proof {
                                lemma_apply_updates_err(row@[i as int].1@, col_name@, ups, j + 1);
                                assert(rv.subrange(0, i + 1).last() == rv[i as int]);
                                assert(rebuild_row(rv.subrange(0, i + 1), ups) is Err);
                                lemma_rebuild_row_err(rv, ups, i + 1);
                            }
                            return Err(DbError::TypeMismatch);
                        }
                        new_value = copy_value(&updates[j].value);
                    }
                    j = j + 1;
                }
                proof {
                    assert(ups.subrange(0, ups.len() as int) =~= ups);
                }
                let ghost before = row_view(new_row@);
                new_row.push((col_name.clone(), new_value));
                proof {
                    assert(row_view(new_row@) =~= before.push((col_name@, new_value@)));
                }
            }
            i = i + 1;
        }
        proof {
            assert(rv.subrange(0, rv.len() as int) =~= rv);
        }
        let ghost si_v = si@;
        let ghost tail = row_view(new_row@);
        let mut nr: Vec<(String, Value)> = Vec::new();
        nr.push((si_name, si));
        let ghost head = row_view(nr@);
        nr.append(&mut new_row);
        proof {
            assert(head =~= seq![("SI"@, si_v)]);
            assert(row_view(nr@) =~= head + tail);
        }
        Ok(Self::row_to_bytes(nr))
    }
}

/// Lexicographic comparison of two texts by code point: `-1`, `0` or `1`.
pub open spec fn text_sign(a: Seq<char>, b: Seq<char>) -> int
    decreases a.len(),
{
    if a.len() == 0 {
        if b.len() == 0 {
            0
        } else {
            -1
        }
    } else if b.len() == 0 {
        1
    } else if a[0] == b[0] {
        text_sign(a.drop_first(), b.drop_first())
    } else if (a[0] as u32) < (b[0] as u32) {
        -1
    } else {
        1
    }
}

proof fn lemma_text_sign_skip(a: Seq<char>, b: Seq<char>, i: int)
    requires
        0 <= i <= a.len(),
        i <= b.len(),
        a.subrange(0, i) == b.subrange(0, i),
    ensures
        text_sign(a, b) == text_sign(a.subrange(i, a.len() as int), b.subrange(i, b.len() as int)),
    decreases i,
{
    if i > 0 {
        assert(a[0] == a.subrange(0, i)[0]);
        assert(b[0] == b.subrange(0, i)[0]);
        let a1 = a.drop_first();
        let b1 = b.drop_first();
        assert(a1.subrange(0, i - 1) =~= a.subrange(1, i));
        assert(b1.subrange(0, i - 1) =~= b.subrange(1, i));
        assert(a.subrange(1, i) =~= a.subrange(0, i).drop_first());
        assert(b.subrange(1, i) =~= b.subrange(0, i).drop_first());
        lemma_text_sign_skip(a1, b1, i - 1);
        assert(a1.subrange(i - 1, a1.len() as int) =~= a.subrange(i, a.len() as int));
        assert(b1.subrange(i - 1, b1.len() as int) =~= b.subrange(i, b.len() as int));
    } else {
        assert(a.subrange(0, a.len() as int) =~= a);
        assert(b.subrange(0, b.len() as int) =~= b);
    }
}

/// Whether character `a` comes before `b` by code point.
fn char_before(a: char, b: char) -> (r: bool)
    ensures
        r == ((a as u32) < (b as u32)),
{
    (a as u32) < (b as u32)
}

/// Compares two texts by code point: `-1`, `0` or `1`.
pub fn text_sign_of(a: &str, b: &str) -> (r: i8)
    ensures
        r == text_sign(a@, b@),
{
    let ca = crate::parser::chars_of(a);
    let cb = crate::parser::chars_of(b);
    let mut i: usize = 0;
    proof {
        assert(a@.subrange(0, 0) =~= b@.subrange(0, 0));
        lemma_text_sign_skip(a@, b@, 0);
    }
    while i < ca.len() && i < cb.len()
        invariant
            ca@ == a@,
            cb@ == b@,
            i <= ca@.len(),
            i <= cb@.len(),
            a@.subrange(0, i as int) == b@.subrange(0, i as int),
            text_sign(a@, b@) == text_sign(a@.subrange(i as int, a@.len() as int), b@.subrange(i as int, b@.len() as int)),
        decreases ca@.len() - i,
    {
        let x = ca[i];
        let y = cb[i];
        let ghost ra = a@.subrange(i as int, a@.len() as int);
        let ghost rb = b@.subrange(i as int, b@.len() as int);
        proof {
            assert(ra[0] == x);
            assert(rb[0] == y);
        }
        if x != y {
            if char_before(x, y) {
                return -1;
            }
            return 1;
        }
        proof {
            assert(ra.drop_first() =~= a@.subrange(i + 1, a@.len() as int));
            assert(rb.drop_first() =~= b@.subrange(i + 1, b@.len() as int));
            assert(a@.subrange(0, i + 1) =~= a@.subrange(0, i as int).push(x));
            assert(b@.subrange(0, i + 1) =~= b@.subrange(0, i as int).push(y));
        }
        i = i + 1;
    }
    if i < ca.len() {
        return 1;
    }
    if i < cb.len() {
        return -1;
    }
    0
}

/// `f` may be called on any two float bit patterns.
pub open spec fn float_order_total<F: Fn(u32, u32) -> Option<Ordering>>(f: F) -> bool {
    forall|a: u32, b: u32| #[trigger] call_requires(f, (a, b))
}

/// `f` orders float bit patterns as `fo` says.
pub open spec fn orders_floats_as<F: Fn(u32, u32) -> Option<Ordering>>(
    f: F,
    fo: spec_fn(u32, u32) -> Option<Ordering>,
) -> bool {
    forall|a: u32, b: u32, r: Option<Ordering>| #[trigger] call_ensures(f, (a, b), r) ==> r == fo(a, b)
}

/// How a value compares with another, floats ordered by `fo`: `TypeMismatch` for values of
/// different types, `InvalidComparison` for floats that `fo` leaves unordered.
pub open spec fn value_order(a: ValueView, b: ValueView, fo: spec_fn(u32, u32) -> Option<Ordering>) -> Result<
    Ordering,
    DbError,
> {
    match (a, b) {
        (ValueView::Int32(x), ValueView::Int32(y)) => Ok(
            if x < y {
                Ordering::Less
            } else if x == y {
                Ordering::Equal
            } else {
                Ordering::Greater
            },
        ),
        (ValueView::Uint32(x), ValueView::Uint32(y)) => Ok(
            if x < y {
                Ordering::Less
            } else if x == y {
                Ordering::Equal
            } else {
                Ordering::Greater
            },
        ),
        (ValueView::Float32(x), ValueView::Float32(y)) => match fo(x, y) {
            Some(o) => Ok(o),
            None => Err(DbError::InvalidComparison),
        },
        (ValueView::Varchar(x), ValueView::Varchar(y)) => Ok(
            if text_sign(x, y) < 0 {
                Ordering::Less
            } else if text_sign(x, y) == 0 {
                Ordering::Equal
            } else {
                Ordering::Greater
            },
        ),
        _ => Err(DbError::TypeMismatch),
    }
}

impl Value {
    /// How this value compares with `other`; float values go through `float_order`.
    pub fn compare<F: Fn(u32, u32) -> Option<Ordering>>(&self, other: &Value, float_order: &F) -> (res: Result<
        Ordering,
        DbError,
    >)
        requires
            float_order_total(*float_order),
        ensures
            forall|fo: spec_fn(u32, u32) -> Option<Ordering>|
                orders_floats_as(*float_order, fo) ==> res == value_order(self@, other@, fo),
    {
        match (self, other) {
            (Value::Int32(a), Value::Int32(b)) => Ok(
                if *a < *b {
                    Ordering::Less
                } else if *a == *b {
                    Ordering::Equal
                } else {
                    Ordering::Greater
                },
            ),
            (Value::Uint32(a), Value::Uint32(b)) => Ok(
                if *a < *b {
                    Ordering::Less
                } else if *a == *b {
                    Ordering::Equal
                } else {
                    Ordering::Greater
                },
            ),
            (Value::Float32(a), Value::Float32(b)) => {
                let r = float_order(*a, *b);
                match r {
                    Some(o) => Ok(o),
                    None => Err(DbError::InvalidComparison),
                }
            },
            (Value::Varchar(a), Value::Varchar(b)) => {
                let s = text_sign_of(a.as_str(), b.as_str());
                Ok(
                    if s < 0 {
                        Ordering::Less
                    } else if s == 0 {
                        Ordering::Equal
                    } else {
                        Ordering::Greater
                    },
                )
            },
            _ => Err(DbError::TypeMismatch),
        }
    }
}

/// The value of the last column of `row` named `col`, if any.
pub open spec fn row_lookup(row: Seq<(Seq<char>, ValueView)>, col: Seq<char>) -> Option<ValueView>
    decreases row.len(),
{
    if row.len() == 0 {
        None
    } else if row.last().0 == col {
        Some(row.last().1)
    } else {
        row_lookup(row.drop_last(), col)
    }
}

/// Whether a row meets every condition, checked in order: `ColumnAbsent` for a condition
/// on a column the row lacks, and a comparison's error, as met before a failing condition.
pub open spec fn conditions_hold(
    row: Seq<(Seq<char>, ValueView)>,
    conds: Seq<ConditionView>,
    fo: spec_fn(u32, u32) -> Option<Ordering>,
) -> Result<bool, DbError>
    decreases conds.len(),
{
    if conds.len() == 0 {
        Ok(true)
    } else {
        match row_lookup(row, conds[0].column) {
            None => Err(DbError::ColumnAbsent),
            Some(v) => match value_order(v, conds[0].value, fo) {
                Err(e) => Err(e),
                Ok(o) => if operator_holds(conds[0].operator, ordering_sign(o)) {
                    conditions_hold(row, conds.drop_first(), fo)
                } else {
                    Ok(false)
                },
            },
        }
    }
}

/// The value of the last column of `row` named `col`, if any.
fn lookup_column<'a>(row: &'a Vec<(String, Value)>, col: &String) -> (res: Option<&'a Value>)
    ensures
        match row_lookup(row_view(row@), col@) {
            None => res is None,
            Some(v) => res matches Some(x) && x@ == v,
        },
{
    let ghost rv = row_view(row@);
    let mut i: usize = row.len();
    assert(rv.subrange(0, i as int) =~= rv);
    while i > 0
        invariant
            i <= row@.len(),
            rv == row_view(row@),
            row_lookup(rv, col@) == row_lookup(rv.subrange(0, i as int), col@),
        decreases i,
    {
        let ghost pre = rv.subrange(0, i as int);
        proof {
            assert(pre.last() == rv[i - 1]);
            assert(pre.drop_last() =~= rv.subrange(0, i - 1));
            assert(rv[i - 1].0 == row@[i - 1].0@);
        }
        if crate::parser::str_eq(row[i - 1].0.as_str(), col.as_str()) {
            return Some(&row[i - 1].1);
        }
        i = i - 1;
    }
    None
}

/// A row meets a list of conditions made of two parts exactly when it meets the first part
/// and then the second: conditions are checked in order, the first that fails decides
/// `false`, the first error decides the error, and only when all of the first part hold
/// does the second part decide.
pub proof fn law_conditions_conjunction(
    row: Seq<(Seq<char>, ValueView)>,
    c1: Seq<ConditionView>,
    c2: Seq<ConditionView>,
    fo: spec_fn(u32, u32) -> Option<Ordering>,
)
    ensures
        conditions_hold(row, c1 + c2, fo) == (match conditions_hold(row, c1, fo) {
            Ok(true) => conditions_hold(row, c2, fo),
            other => other,
        }),
    decreases c1.len(),
{
    if c1.len() == 0 {
        assert(c1 + c2 =~= c2);
    } else {
        assert((c1 + c2)[0] == c1[0]);
        assert((c1 + c2).drop_first() =~= c1.drop_first() + c2);
        law_conditions_conjunction(row, c1.drop_first(), c2, fo);
    }
}

/// A row meets a list of conditions exactly when it meets each of them on its own, as long
/// as none of them is in error: `true` means every single condition holds, and every
/// single condition holding means `true`.
pub proof fn law_conditions_each(
    row: Seq<(Seq<char>, ValueView)>,
    conds: Seq<ConditionView>,
    fo: spec_fn(u32, u32) -> Option<Ordering>,
)
    ensures
        conditions_hold(row, conds, fo) == Ok::<bool, DbError>(true) <==> forall|i: int|
            0 <= i < conds.len() ==> #[trigger] conditions_hold(row, seq![conds[i]], fo) == Ok::<bool, DbError>(true),
    decreases conds.len(),
{
    if conds.len() > 0 {
        let rest = conds.drop_first();
        law_conditions_each(row, rest, fo);
        assert(seq![conds[0]] + rest =~= conds);
        law_conditions_conjunction(row, seq![conds[0]], rest, fo);
        assert(seq![conds[0]].drop_first() =~= Seq::<ConditionView>::empty());
        if conditions_hold(row, conds, fo) == Ok::<bool, DbError>(true) {
            assert forall|i: int| 0 <= i < conds.len() implies #[trigger] conditions_hold(row, seq![conds[i]], fo)
                == Ok::<bool, DbError>(true) by {
                if i > 0 {
                    assert(rest[i - 1] == conds[i]);
                }
            }
        }
        if forall|i: int| 0 <= i < conds.len() ==> #[trigger] conditions_hold(row, seq![conds[i]], fo) == Ok::<
            bool,
            DbError,
        >(true) {
            assert(conditions_hold(row, seq![conds[0]], fo) == Ok::<bool, DbError>(true));
            assert forall|i: int| 0 <= i < rest.len() implies #[trigger] conditions_hold(row, seq![rest[i]], fo)
                == Ok::<bool, DbError>(true) by {
                assert(rest[i] == conds[i + 1]);
                assert(conditions_hold(row, seq![conds[i + 1]], fo) == Ok::<bool, DbError>(true));
            }
        }
    }
}

/// The conditions from position `i` on.
pub open spec fn conds_from(cv: Seq<ConditionView>, i: usize) -> Seq<ConditionView> {
    cv.subrange(i as int, cv.len() as int)
}

proof fn lemma_conds_step(conditions: Seq<Condition>, i: usize)
    requires
        i < conditions.len(),
        i + 1 <= usize::MAX,
    ensures
        conds_from(conditions_view(conditions), i)[0] == conditions[i as int]@,
        conds_from(conditions_view(conditions), i).drop_first() =~= conds_from(conditions_view(conditions), (i + 1) as usize),
        conds_from(conditions_view(conditions), i).len() > 0,
{
}

proof fn lemma_conds_start_end(cv: Seq<ConditionView>, i: usize)
    ensures
        conds_from(cv, 0) =~= cv,
        i == cv.len() ==> conds_from(cv, i).len() == 0,
{
}

impl Table {
    /// Whether a row meets all `conditions`, checked in order; float values go through
    /// `float_order`. `ColumnAbsent` for a condition on a column the row lacks, and the
    /// comparison's error for values that do not compare.
    pub fn row_satisfies<F: Fn(u32, u32) -> Option<Ordering>>(
        row: &Vec<(String, Value)>,
        conditions: &Vec<Condition>,
        float_order: &F,
    ) -> (res: Result<bool, DbError>)
        requires
            float_order_total(*float_order),
        ensures
            forall|fo: spec_fn(u32, u32) -> Option<Ordering>|
                orders_floats_as(*float_order, fo) ==> res == conditions_hold(
                    row_view(row@),
                    conditions_view(conditions@),
                    fo,
                ),
            forall|fo: spec_fn(u32, u32) -> Option<Ordering>|
                orders_floats_as(*float_order, fo) ==> (res == Ok::<bool, DbError>(true) <==> forall|i: int|
                    0 <= i < conditions@.len() ==> #[trigger] conditions_hold(
                        row_view(row@),
                        seq![conditions_view(conditions@)[i]],
                        fo,
                    ) == Ok::<bool, DbError>(true)),
    {
        let res = Self::check_conditions(row, conditions, float_order);
        proof {
            let cv = conditions_view(conditions@);
            assert forall|fo: spec_fn(u32, u32) -> Option<Ordering>| #[trigger] orders_floats_as(*float_order, fo)
                implies (res == Ok::<bool, DbError>(true) <==> forall|i: int|
                0 <= i < conditions@.len() ==> #[trigger] conditions_hold(row_view(row@), seq![cv[i]], fo) == Ok::<
                bool,
                DbError,
            >(true)) by {
                law_conditions_each(row_view(row@), cv, fo);
            }
        }
        res
    }

    /// Checks `conditions` against a row, in order, stopping at the first that fails.
    fn check_conditions<F: Fn(u32, u32) -> Option<Ordering>>(
        row: &Vec<(String, Value)>,
        conditions: &Vec<Condition>,
        float_order: &F,
    ) -> (res: Result<bool, DbError>)
        requires
            float_order_total(*float_order),
        ensures
            forall|fo: spec_fn(u32, u32) -> Option<Ordering>|
                orders_floats_as(*float_order, fo) ==> res == conditions_hold(
                    row_view(row@),
                    conditions_view(conditions@),
                    fo,
                ),
    {
        let ghost cv = conditions_view(conditions@);
        let mut i: usize = 0;
        proof {
            lemma_conds_start_end(cv, 0);
        }
        while i < conditions.len()
            invariant
                i <= conditions@.len(),
                cv == conditions_view(conditions@),
                float_order_total(*float_order),
                forall|fo: spec_fn(u32, u32) -> Option<Ordering>|
                    orders_floats_as(*float_order, fo) ==> conditions_hold(row_view(row@), cv, fo)
                        == conditions_hold(row_view(row@), conds_from(cv, i), fo),
            decreases conditions@.len() - i,
        {
            let c = &conditions[i];
            proof {
                lemma_conds_step(conditions@, i);
            }
            let v = match lookup_column(row, &c.column) {
                Some(v) => v,
                None => return Err(DbError::ColumnAbsent),
            };
            let ordering = v.compare(&c.value, float_order)?;
            if !c.operator.accepts(ordering) {
                return Ok(false);
            }
            i = i + 1;
        }
        proof {
            lemma_conds_start_end(cv, i);
        }
        Ok(true)
    }
}
/// The file listing the tables: each name's UTF-8 length as two little-endian bytes (cut
/// to 16 bits), then the name.
pub open spec fn names_file(names: Seq<Seq<char>>) -> Seq<u8>
    decreases names.len(),
{
    if names.len() == 0 {
        Seq::empty()
    } else {
        names_file(names.drop_last()) + spec_u16_to_le_bytes(encode_utf8(names.last()).len() as u16) + encode_utf8(
            names.last(),
        )
    }
}

/// The bytes that list the tables named `names`, in order.
pub fn table_names_bytes(names: &Vec<String>) -> (out: Vec<u8>)
    ensures
        out@ == names_file(names_view(names@)),
{
    let ghost nv = names_view(names@);
    let mut out: Vec<u8> = Vec::new();
    let mut i: usize = 0;
    while i < names.len()
        invariant
            i <= names@.len(),
            nv == names_view(names@),
            out@ == names_file(nv.take(i as int)),
        decreases names@.len() - i,
    {
        let bytes = names[i].as_str().as_bytes();
        let len = bytes.len() as u16;
        push_u16(&mut out, len);
        push_bytes(&mut out, bytes);
        proof {
            assert(nv.take(i + 1).drop_last() =~= nv.take(i as int));
            assert(nv.take(i + 1).last() == names@[i as int]@);
        }
        i = i + 1;
    }
    assert(nv.take(names@.len() as int) =~= nv);
    out
}

/// The names that the table list `b` holds from offset `off` on, or `CorruptedDataError`
/// for a name that is not UTF-8; `None` when a length or a name runs past the end.
pub open spec fn decode_names(b: Seq<u8>, off: int) -> Option<Result<Seq<Seq<char>>, DbError>>
    decreases b.len() - off,
{
    if off < 0 || off >= b.len() {
        Some(Ok(Seq::empty()))
    } else if off + 2 > b.len() {
        None
    } else {
        let n = spec_u16_from_le_bytes(b.subrange(off, off + 2));
        if off + 2 + n > b.len() {
            None
        } else {
            let raw = b.subrange(off + 2, off + 2 + n);
            if !valid_utf8(raw) {
                Some(Err(DbError::CorruptedDataError))
            } else {
                match decode_names(b, off + 2 + n) {
                    None => None,
                    Some(Err(e)) => Some(Err(e)),
                    Some(Ok(rest)) => Some(Ok(seq![decode_utf8(raw)] + rest)),
                }
            }
        }
    }
}

/// Whether reading the table list `bytes` stays within it.
pub fn table_names_readable(bytes: &[u8]) -> (r: bool)
    ensures
        r == decode_names(bytes@, 0) is Some,
{
    let mut off: usize = 0;
    while off < bytes.len()
        invariant
            off <= bytes@.len(),
            (decode_names(bytes@, 0) is Some) == (decode_names(bytes@, off as int) is Some),
        decreases bytes@.len() - off,
    {
        if bytes.len() - off < 2 {
            return false;
        }
        let n = read_u16(bytes, off) as usize;
        if n > bytes.len() - off - 2 {
            return false;
        }
        let raw = copy_range(bytes, off + 2, off + 2 + n);
        match string_from_utf8(raw) {
            Some(_) => {},
            None => return true,
        }
        off = off + 2 + n;
    }
    true
}

/// The names of the tables listed in `bytes`, in order; `CorruptedDataError` for a name
/// that is not UTF-8.
pub fn parse_table_names(bytes: &[u8]) -> (res: Result<Vec<String>, DbError>)
    requires
        decode_names(bytes@, 0) is Some,
    ensures
        match decode_names(bytes@, 0)->Some_0 {
            Ok(ns) => res is Ok && names_view(res->Ok_0@) == ns,
            Err(e) => res == Err::<Vec<String>, DbError>(e),
        },
{
    let mut names: Vec<String> = Vec::new();
    let mut off: usize = 0;
    while off < bytes.len()
        invariant
            off <= bytes@.len(),
            decode_names(bytes@, off as int) is Some,
            decode_names(bytes@, 0) == match decode_names(bytes@, off as int)->Some_0 {
                Ok(rest) => Some(Ok::<Seq<Seq<char>>, DbError>(names_view(names@) + rest)),
                Err(e) => Some(Err::<Seq<Seq<char>>, DbError>(e)),
            },
        decreases bytes@.len() - off,
    {
        let n = read_u16(bytes, off) as usize;
        let raw = copy_range(bytes, off + 2, off + 2 + n);
        let ghost rawv = raw@;
        let name = match string_from_utf8(raw) {
            Some(s) => s,
            None => return Err(DbError::CorruptedDataError),
        };
        proof {
            encode_utf8_decode_utf8(name@);
            assert(names_view(names@.push(name)) =~= names_view(names@).push(name@));
            match decode_names(bytes@, off + 2 + n) {
                Some(Ok(r)) => {
                    assert(names_view(names@) + (seq![name@] + r) =~= names_view(names@).push(name@) + r);
                },
                _ => {},
            }
        }
        names.push(name);
        off = off + 2 + n;
    }
    proof {
        assert(names_view(names@) + Seq::<Seq<char>>::empty() =~= names_view(names@));
    }
    Ok(names)
}

/// The bytes of one listed name.
pub open spec fn name_entry(n: Seq<char>) -> Seq<u8> {
    spec_u16_to_le_bytes(encode_utf8(n).len() as u16) + encode_utf8(n)
}

proof fn lemma_names_file_append(a: Seq<Seq<char>>, b: Seq<Seq<char>>)
    ensures
        names_file(a + b) == names_file(a) + names_file(b),
    decreases b.len(),
{
    if b.len() == 0 {
        assert(a + b =~= a);
        assert(names_file(a) + names_file(b) =~= names_file(a));
    } else {
        lemma_names_file_append(a, b.drop_last());
        assert((a + b).drop_last() =~= a + b.drop_last());
        assert((a + b).last() == b.last());
        assert(names_file(a) + names_file(b) =~= names_file(a) + names_file(b.drop_last()) + (spec_u16_to_le_bytes(
            encode_utf8(b.last()).len() as u16,
        ) + encode_utf8(b.last())));
    }
}

proof fn lemma_decode_names_from(pre: Seq<u8>, ns: Seq<Seq<char>>)
    requires
        forall|i: int| 0 <= i < ns.len() ==> #[trigger] encode_utf8(ns[i]).len() <= u16::MAX,
    ensures
        decode_names(pre + names_file(ns), pre.len() as int) == Some(Ok::<Seq<Seq<char>>, DbError>(ns)),
    decreases ns.len(),
{
    lemma_auto_spec_u16_to_from_le_bytes();
    if ns.len() == 0 {
        assert(names_file(ns) =~= Seq::<u8>::empty());
        assert(pre + names_file(ns) =~= pre);
        assert(ns =~= Seq::<Seq<char>>::empty());
    } else {
        let first = ns[0];
        let rest = ns.drop_first();
        assert(ns =~= seq![first] + rest);
        lemma_names_file_append(seq![first], rest);
        assert(seq![first].drop_last() =~= Seq::<Seq<char>>::empty());
        let e = encode_utf8(first);
        assert(names_file(Seq::<Seq<char>>::empty()) =~= Seq::<u8>::empty());
        assert(seq![first].last() == first);
        assert(names_file(seq![first]) == names_file(Seq::<Seq<char>>::empty()) + spec_u16_to_le_bytes(
            e.len() as u16,
        ) + e);
        assert(names_file(seq![first]) =~= spec_u16_to_le_bytes(e.len() as u16) + e);
        let pre2 = pre + spec_u16_to_le_bytes(e.len() as u16) + e;
        assert(pre + names_file(ns) =~= pre2 + names_file(rest));
        assert forall|i: int| 0 <= i < rest.len() implies #[trigger] encode_utf8(rest[i]).len() <= u16::MAX by {
            assert(rest[i] == ns[i + 1]);
        }
        lemma_decode_names_from(pre2, rest);
        let b = pre + names_file(ns);
        let off = pre.len() as int;
        assert(encode_utf8(ns[0]).len() <= u16::MAX);
        assert(spec_u16_to_le_bytes(e.len() as u16).len() == 2);
        assert(b.subrange(off, off + 2) =~= spec_u16_to_le_bytes(e.len() as u16));
        assert(b.subrange(off + 2, off + 2 + e.len()) =~= e);
        vstd::utf8::encode_utf8_valid_utf8(first);
        encode_utf8_decode_utf8(first);
        assert(spec_u16_from_le_bytes(b.subrange(off, off + 2)) == e.len());
        assert(pre2.len() == off + 2 + e.len());
        assert(decode_names(b, off + 2 + e.len()) == Some(Ok::<Seq<Seq<char>>, DbError>(rest)));
        assert(seq![decode_utf8(e)] + rest =~= ns);
        assert(b.len() >= off + 2 + e.len());
        let raw = b.subrange(off + 2, off + 2 + e.len());
        assert(raw == e);
        assert(decode_names(b, off) == Some(Ok::<Seq<Seq<char>>, DbError>(seq![decode_utf8(raw)] + rest)));
    }
}

/// Reading back the bytes that list some tables gives the same names, in order, for names
/// whose UTF-8 form fits the 16-bit length.
pub proof fn law_names_roundtrip(names: Seq<Seq<char>>)
    requires
        forall|i: int| 0 <= i < names.len() ==> #[trigger] encode_utf8(names[i]).len() <= u16::MAX,
    ensures
        decode_names(names_file(names), 0) == Some(Ok::<Seq<Seq<char>>, DbError>(names)),
{
    lemma_decode_names_from(Seq::empty(), names);
    assert(Seq::<u8>::empty() + names_file(names) =~= names_file(names));
}

/// What a scan makes of one stored row: the row when it meets the conditions, nothing when
/// it does not, or the error of reading it or of checking a condition.
pub open spec fn scan_step(
    b: Seq<u8>,
    sch: Seq<(Seq<char>, DataTypes)>,
    conds: Seq<ConditionView>,
    fo: spec_fn(u32, u32) -> Option<Ordering>,
) -> Result<Option<Seq<(Seq<char>, ValueView)>>, DbError> {
    match decode_row(b, sch)->Some_0 {
        Err(e) => Err(e),
        Ok(r) => match conditions_hold(r, conds, fo) {
            Err(e) => Err(e),
            Ok(true) => Ok(Some(r)),
            Ok(false) => Ok(None),
        },
    }
}

/// A scanned row as a mathematical object.
pub open spec fn scanned_view(r: Result<Option<Vec<(String, Value)>>, DbError>) -> Result<
    Option<Seq<(Seq<char>, ValueView)>>,
    DbError,
> {
    match r {
        Err(e) => Err(e),
        Ok(None) => Ok(None),
        Ok(Some(v)) => Ok(Some(row_view(v@))),
    }
}

impl Table {
    /// One step of a scan: reads the stored row `buf` and keeps it when it meets all
    /// `conditions`; float values go through `float_order`.
    pub fn scan_one<F: Fn(u32, u32) -> Option<Ordering>>(
        &self,
        buf: &[u8],
        conditions: &Vec<Condition>,
        float_order: &F,
    ) -> (res: Result<Option<Vec<(String, Value)>>, DbError>)
        requires
            decode_row(buf@, columns_view(self.schema@)) is Some,
            float_order_total(*float_order),
        ensures
            forall|fo: spec_fn(u32, u32) -> Option<Ordering>|
                orders_floats_as(*float_order, fo) ==> scanned_view(res) == scan_step(
                    buf@,
                    columns_view(self.schema@),
                    conditions_view(conditions@),
                    fo,
                ),
    {
        let row = self.extract(buf)?;
        if Table::row_satisfies(&row, conditions, float_order)? {
            Ok(Some(row))
        } else {
            Ok(None)
        }
    }
}

} // verus!

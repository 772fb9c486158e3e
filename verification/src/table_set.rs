use vstd::prelude::*;
use vstd::bytes::*;
use vstd::utf8::decode_utf8;
use crate::bytes_util::tail;
use crate::db_errors::DbError;
use crate::parser::str_eq;
use crate::table_wal::{TableWAL, TaskType, table_log_error, table_log_decodes, table_task_of_code};
use crate::tables::{Table, TableView, remove_first, names_view};

verus! {

/// The tables of a database, by name.
pub struct TableSet {
    pub tables: Vec<(String, Table)>,
}

/// The tables as names and table views.
pub open spec fn set_view(ts: Seq<(String, Table)>) -> Seq<(Seq<char>, TableView)> {
    ts.map_values(|p: (String, Table)| (p.0@, p.1@))
}

/// Position of the last table named `name`, or -1 when there is none.
pub open spec fn table_pos(v: Seq<(Seq<char>, TableView)>, name: Seq<char>) -> int
    decreases v.len(),
{
    if v.len() == 0 {
        -1
    } else if v.last().0 == name {
        v.len() - 1
    } else {
        table_pos(v.drop_last(), name)
    }
}

/// A table log entry as a mathematical object.
pub struct EntryView {
    pub size: u16,
    pub lsn: u64,
    pub task: TaskType,
    pub record_id: u32,
    pub name: Seq<char>,
}

/// The table log entry at the start of `b`.
pub open spec fn entry_view(b: Seq<u8>) -> EntryView {
    let size = spec_u16_from_le_bytes(b.subrange(0, 2));
    let ds = spec_u16_from_le_bytes(b.subrange(16, 18));
    EntryView {
        size,
        lsn: spec_u64_from_le_bytes(b.subrange(2, 10)),
        task: table_task_of_code(spec_u16_from_le_bytes(b.subrange(10, 12)))->Some_0,
        record_id: spec_u32_from_le_bytes(b.subrange(12, 16)),
        name: decode_utf8(b.subrange(18, size - ds)),
    }
}

/// A table after entry `e` is replayed on it: nothing if the table has reached the entry's
/// sequence number; otherwise the insert or delete is made and the table moves to it.
pub open spec fn replayed(t: TableView, e: EntryView) -> TableView {
    if t.lsn >= e.lsn {
        t
    } else {
        TableView {
            lsn: e.lsn,
            records: match e.task {
                TaskType::Insert => t.records.push(e.record_id),
                TaskType::Delete => remove_first(t.records, e.record_id),
            },
            ..t
        }
    }
}

/// Replaying the table log `file`, of `size` bytes, from offset `off` on tables `v`, with
/// the names of the tables changed so far in `changed`: each entry is replayed on the
/// table it names, if there is one; `CorruptedWAL` for an entry that does not decode.
/// Gives the tables and the names of those that changed, first change first.
pub open spec fn log_walk(
    file: Seq<u8>,
    size: u64,
    off: int,
    v: Seq<(Seq<char>, TableView)>,
    changed: Seq<Seq<char>>,
) -> Result<(Seq<(Seq<char>, TableView)>, Seq<Seq<char>>), DbError>
    decreases size + 0x10000 - off,
{
    if off >= size {
        Ok((v, changed))
    } else {
        let b = tail(file, off);
        if table_log_error(b) {
            Err(DbError::CorruptedWAL)
        } else {
            let e = entry_view(b);
            let p = table_pos(v, e.name);
            if e.size < 18 {
                Ok((v, changed))
            } else if p < 0 || v[p].1.lsn >= e.lsn {
                log_walk(file, size, off + e.size, v, changed)
            } else {
                log_walk(
                    file,
                    size,
                    off + e.size,
                    v.update(p, (v[p].0, replayed(v[p].1, e))),
                    if changed.contains(e.name) {
                        changed
                    } else {
                        changed.push(e.name)
                    },
                )
            }
        }
    }
}

proof fn lemma_table_pos(v: Seq<(Seq<char>, TableView)>, name: Seq<char>)
    ensures
        -1 <= table_pos(v, name) < v.len(),
        table_pos(v, name) >= 0 ==> v[table_pos(v, name)].0 == name,
        table_pos(v, name) < 0 ==> forall|i: int| 0 <= i < v.len() ==> v[i].0 != name,
        forall|i: int| table_pos(v, name) < i < v.len() ==> v[i].0 != name,
    decreases v.len(),
{
    if v.len() > 0 && v.last().0 != name {
        let w = v.drop_last();
        lemma_table_pos(w, name);
        assert forall|i: int| 0 <= i < w.len() implies w[i] == v[i] by {}
    }
}

impl TableSet {
    /// No tables.
    pub fn new() -> (s: TableSet)
        ensures
            s.tables@.len() == 0,
    {
        TableSet { tables: Vec::new() }
    }

    /// Adds table `table` under `name`.
    pub fn add(&mut self, name: String, table: Table)
        ensures
            set_view(final(self).tables@) == set_view(old(self).tables@).push((name@, table@)),
    {
        self.tables.push((name, table));
        assert(set_view(self.tables@) =~= set_view(old(self).tables@).push((name@, table@)));
    }

    /// The position of the table named `name`, the last one if several are.
    pub fn find(&self, name: &str) -> (r: Option<usize>)
        ensures
            match r {
                Some(i) => i == table_pos(set_view(self.tables@), name@),
                None => table_pos(set_view(self.tables@), name@) < 0,
            },
    {
        let ghost v = set_view(self.tables@);
        let mut i: usize = self.tables.len();
        assert(v.subrange(0, i as int) =~= v);
        while i > 0
            invariant
                i <= self.tables@.len(),
                v == set_view(self.tables@),
                table_pos(v, name@) == table_pos(v.subrange(0, i as int), name@),
            decreases i,
        {
            let ghost pre = v.subrange(0, i as int);
            proof {
                assert(pre.last() == v[i - 1]);
                assert(pre.drop_last() =~= v.subrange(0, i - 1));
            }
            if str_eq(self.tables[i - 1].0.as_str(), name) {
                return Some(i - 1);
            }
            i = i - 1;
        }
        None
    }

    /// Takes out the table at position `i`.
    pub fn remove(&mut self, i: usize) -> (r: (String, Table))
        requires
            i < old(self).tables@.len(),
        ensures
            r == old(self).tables@[i as int],
            final(self).tables@ == old(self).tables@.remove(i as int),
    {
        self.tables.remove(i)
    }

    /// The names of the tables, in order.
    pub fn names(&self) -> (out: Vec<String>)
        ensures
            names_view(out@) == set_view(self.tables@).map_values(|p: (Seq<char>, TableView)| p.0),
    {
        let ghost v = set_view(self.tables@);
        let mut out: Vec<String> = Vec::new();
        let mut i: usize = 0;
        while i < self.tables.len()
            invariant
                i <= self.tables@.len(),
                v == set_view(self.tables@),
                names_view(out@) == v.take(i as int).map_values(|p: (Seq<char>, TableView)| p.0),
            decreases self.tables@.len() - i,
        {
            let ghost old_out = out@;
            let name = self.tables[i].0.clone();
            assert(name@ == self.tables@[i as int].0@);
            out.push(name);
            proof {
                assert(v[i as int].0 == self.tables@[i as int].0@);
                assert(names_view(out@) =~= names_view(old_out).push(self.tables@[i as int].0@));
                assert(v.take(i + 1).map_values(|p: (Seq<char>, TableView)| p.0) =~= v.take(i as int).map_values(
                    |p: (Seq<char>, TableView)| p.0,
                ).push(v[i as int].0));
            }
            i = i + 1;
        }
        assert(v.take(i as int) =~= v);
        out
    }
}

/// Whether `list` holds a name equal to `name`.
fn name_listed(list: &Vec<String>, name: &str) -> (r: bool)
    ensures
        r == names_view(list@).contains(name@),
{
    let mut i: usize = 0;
    while i < list.len()
        invariant
            i <= list@.len(),
            forall|j: int| 0 <= j < i ==> list@[j]@ != name@,
        decreases list@.len() - i,
    {
        if str_eq(list[i].as_str(), name) {
            proof {
                assert(names_view(list@)[i as int] == name@);
            }
            return true;
        }
        i = i + 1;
    }
    proof {
        if names_view(list@).contains(name@) {
            let j = choose|j: int| 0 <= j < names_view(list@).len() && names_view(list@)[j] == name@;
            assert(list@[j]@ == name@);
        }
    }
    false
}

/// The entry a decoded log entry stands for.
proof fn lemma_entry_view(b: Seq<u8>, l: crate::table_wal::Log, d: Option<Seq<u8>>)
    requires
        !table_log_error(b),
        table_log_decodes(b, l, d),
    ensures
        entry_view(b) == (EntryView {
            size: l.log_size,
            lsn: l.lsn,
            task: l.task_type,
            record_id: l.record_id,
            name: l.table_name@,
        }),
        l.log_size >= 18,
{
}

impl TableSet {
    /// Replays the table log on the tables: `file` is the log's bytes and `wal` its
    /// bookkeeping. Each entry is replayed on the table it names, if there is one. Returns
    /// the names of the tables that changed, first change first; `CorruptedWAL` for an
    /// entry that does not decode.
    pub fn replay_log(&mut self, wal: &TableWAL, file: &[u8]) -> (res: Result<Vec<String>, DbError>)
        requires
            wal.file_size + u16::MAX <= u64::MAX,
        ensures
            match log_walk(file@, wal.file_size, 10, set_view(old(self).tables@), Seq::empty()) {
                Ok((v, c)) => res is Ok && set_view(final(self).tables@) == v && names_view(res->Ok_0@) == c,
                Err(e) => res == Err::<Vec<String>, DbError>(e),
            },
    {
        let ghost start = log_walk(file@, wal.file_size, 10, set_view(self.tables@), Seq::empty());
        let mut changed: Vec<String> = Vec::new();
        let mut entry = wal.get_log_any(file, None)?;
        let ghost mut off: int = 10;
        proof {
            assert(names_view(changed@) =~= Seq::<Seq<char>>::empty());
        }
        loop
            invariant
                wal.file_size + u16::MAX <= u64::MAX,
                off >= 10,
                start == log_walk(file@, wal.file_size, 10, set_view(old(self).tables@), Seq::empty()),
                start == log_walk(file@, wal.file_size, off, set_view(self.tables@), names_view(changed@)),
                match entry {
                    None => off >= wal.file_size,
                    Some((l, d, next)) => {
                        &&& off < wal.file_size
                        &&& !table_log_error(tail(file@, off))
                        &&& table_log_decodes(tail(file@, off), l, crate::table_wal::row_view_of(d))
                        &&& next == off + l.log_size
                    },
                },
            decreases wal.file_size + 0x10000 - off,
        {
            let (log, row, next) = match entry {
                Some(e) => e,
                None => {
                    proof {
                        assert(log_walk(file@, wal.file_size, off, set_view(self.tables@), names_view(changed@)) == Ok::<
                            (Seq<(Seq<char>, TableView)>, Seq<Seq<char>>),
                            DbError,
                        >((set_view(self.tables@), names_view(changed@))));
                    }
                    return Ok(changed);
                },
            };
            let ghost b = tail(file@, off);
            let ghost v = set_view(self.tables@);
            let ghost c = names_view(changed@);
            proof {
                lemma_entry_view(b, log, crate::table_wal::row_view_of(row));
                lemma_table_pos(v, log.table_name@);
            }
            match self.find(log.table_name.as_str()) {
                Some(i) => {
                    let (name, mut table) = self.tables.remove(i);
                    let did = table.replay(log.task_type, log.record_id, log.lsn);
                    let listed = name_listed(&changed, name.as_str());
                    if did && !listed {
                        let copy = name.clone();
                        changed.push(copy);
                    }
                    self.tables.insert(i, (name, table));
                    proof {
                        assert(v[i as int].0 == log.table_name@);
                        assert(set_view(self.tables@) =~= (if did {
                            v.update(i as int, (v[i as int].0, replayed(v[i as int].1, entry_view(b))))
                        } else {
                            v
                        }));
                        if did {
                            assert(names_view(changed@) =~= (if c.contains(entry_view(b).name) {
                                c
                            } else {
                                c.push(entry_view(b).name)
                            }));
                        }
                    }
                },
                None => {},
            }
            proof {
                assert(start == log_walk(file@, wal.file_size, next as int, set_view(self.tables@), names_view(changed@)));
            }
            let got = wal.get_log_any(file, Some(next));
            proof {
                off = next as int;
            }
            entry = match got {
                Ok(e) => e,
                Err(e) => return Err(e),
            };
        }
    }
}

/// Two lists of tables with the same names, in the same order.
pub open spec fn same_names(a: Seq<(Seq<char>, TableView)>, b: Seq<(Seq<char>, TableView)>) -> bool {
    &&& a.len() == b.len()
    &&& forall|i: int| 0 <= i < a.len() ==> #[trigger] a[i].0 == b[i].0
}

proof fn lemma_table_pos_same(a: Seq<(Seq<char>, TableView)>, b: Seq<(Seq<char>, TableView)>, name: Seq<char>)
    requires
        same_names(a, b),
    ensures
        table_pos(a, name) == table_pos(b, name),
    decreases a.len(),
{
    if a.len() > 0 {
        let a2 = a.drop_last();
        let b2 = b.drop_last();
        assert(a.last().0 == b.last().0);
        assert forall|i: int| 0 <= i < a2.len() implies #[trigger] a2[i].0 == b2[i].0 by {
            assert(a2[i] == a[i] && b2[i] == b[i]);
        }
        lemma_table_pos_same(a2, b2, name);
    }
}

/// A walk over the log keeps the tables' names and never moves a table's sequence number
/// back.
proof fn lemma_walk_mono(
    file: Seq<u8>,
    size: u64,
    off: int,
    v: Seq<(Seq<char>, TableView)>,
    c: Seq<Seq<char>>,
)
    requires
        log_walk(file, size, off, v, c) is Ok,
    ensures
        same_names(v, log_walk(file, size, off, v, c)->Ok_0.0),
        forall|i: int| 0 <= i < v.len() ==> #[trigger] log_walk(file, size, off, v, c)->Ok_0.0[i].1.lsn >= v[i].1.lsn,
    decreases size + 0x10000 - off,
{
    if off < size {
        let b = tail(file, off);
        let e = entry_view(b);
        let p = table_pos(v, e.name);
        if e.size >= 18 {
            if p < 0 || v[p].1.lsn >= e.lsn {
                lemma_walk_mono(file, size, off + e.size, v, c);
            } else {
                lemma_table_pos(v, e.name);
                let v2 = v.update(p, (v[p].0, replayed(v[p].1, e)));
                let c2 = if c.contains(e.name) { c } else { c.push(e.name) };
                lemma_walk_mono(file, size, off + e.size, v2, c2);
                let r = log_walk(file, size, off + e.size, v2, c2)->Ok_0.0;
                assert forall|i: int| 0 <= i < v.len() implies #[trigger] r[i].1.lsn >= v[i].1.lsn by {
                    assert(r[i].1.lsn >= v2[i].1.lsn);
                }
                assert forall|i: int| 0 <= i < v.len() implies #[trigger] v[i].0 == r[i].0 by {
                    assert(v2[i].0 == r[i].0);
                }
            }
        }
    }
}

/// Walking the log again over the tables a walk left changes nothing and records no
/// change.
proof fn lemma_walk_settled(
    file: Seq<u8>,
    size: u64,
    off: int,
    v: Seq<(Seq<char>, TableView)>,
    c: Seq<Seq<char>>,
    d: Seq<Seq<char>>,
)
    requires
        log_walk(file, size, off, v, c) is Ok,
    ensures
        log_walk(file, size, off, log_walk(file, size, off, v, c)->Ok_0.0, d) == Ok::<
            (Seq<(Seq<char>, TableView)>, Seq<Seq<char>>),
            DbError,
        >((log_walk(file, size, off, v, c)->Ok_0.0, d)),
    decreases size + 0x10000 - off,
{
    let v1 = log_walk(file, size, off, v, c)->Ok_0.0;
    if off < size {
        let b = tail(file, off);
        let e = entry_view(b);
        let p = table_pos(v, e.name);
        lemma_walk_mono(file, size, off, v, c);
        lemma_table_pos_same(v, v1, e.name);
        lemma_table_pos(v, e.name);
        if e.size >= 18 {
            if p < 0 || v[p].1.lsn >= e.lsn {
                lemma_walk_settled(file, size, off + e.size, v, c, d);
                if p >= 0 {
                    assert(v1[p].1.lsn >= v[p].1.lsn);
                }
            } else {
                let v2 = v.update(p, (v[p].0, replayed(v[p].1, e)));
                let c2 = if c.contains(e.name) { c } else { c.push(e.name) };
                lemma_walk_settled(file, size, off + e.size, v2, c2, d);
                lemma_walk_mono(file, size, off + e.size, v2, c2);
                assert(v1 == log_walk(file, size, off + e.size, v2, c2)->Ok_0.0);
                assert(v1[p].1.lsn >= v2[p].1.lsn);
                assert(v2[p].1.lsn == e.lsn);
            }
        }
    }
}

/// Replaying the table log a second time, over the tables the first replay left, changes
/// no table and reports no table as changed.
pub proof fn law_replay_twice(file: Seq<u8>, size: u64, v: Seq<(Seq<char>, TableView)>)
    requires
        log_walk(file, size, 10, v, Seq::empty()) is Ok,
    ensures
        log_walk(file, size, 10, log_walk(file, size, 10, v, Seq::empty())->Ok_0.0, Seq::empty()) == Ok::<
            (Seq<(Seq<char>, TableView)>, Seq<Seq<char>>),
            DbError,
        >((log_walk(file, size, 10, v, Seq::empty())->Ok_0.0, Seq::empty())),
{
    lemma_walk_settled(file, size, 10, v, Seq::empty(), Seq::empty());
}

} // verus!

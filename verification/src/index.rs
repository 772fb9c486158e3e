use vstd::prelude::*;
use crate::b_plus_tree::{BPlusTree, search_result};
use crate::db_errors::DbError;
use crate::page::PageFlags;
use crate::slotted_page::{Page, SLOT_SIZE, ids_unique, read_outcome, write_succeeds, slot_in_use, update_fits};
use crate::wal::{Log, TaskType};

verus! {

/// The record index: which page holds each record, and the id the next new record gets.
/// Pages themselves are read and written by the caller, which hands each step the page it
/// concerns.
pub struct Index {
    pub tree: BPlusTree,
    pub next_record_id: u16,
}

/// What reading a record from its page came to.
pub enum Fetched {
    Record(Vec<u8>),
    /// The record's slot points outside the page: the page must be rebuilt from the log.
    Rebuild,
}

/// What a step that changes a page came to.
#[derive(Debug, Clone, Copy, PartialEq, Eq, Structural)]
pub enum Change {
    /// The change was made and the page took the entry's sequence number.
    Done,
    /// An update did not fit in place: the record left the page, which took the entry's
    /// sequence number, and must be written to another page.
    MustMove,
    /// The page was found damaged and must be rebuilt from the log.
    Rebuild,
}

/// What replaying a page log entry during recovery came to.
#[derive(Debug, Clone, Copy, PartialEq, Eq, Structural)]
pub enum Recovery {
    /// The page already reflects the entry.
    Skipped,
    /// The entry's change was made, in the page and in the index.
    Applied,
    /// A write did not fit: the page took the entry's sequence number and the record goes
    /// to a page with room.
    NeedsRoom,
    /// An update: it is redone as during normal work, at the entry's sequence number.
    Update,
    /// The page was found damaged and must be rebuilt from the log.
    Rebuild,
}

/// The page's records and bookkeeping are as before but for its sequence number.
pub open spec fn same_but_lsn(a: Page, b: Page) -> bool {
    &&& b.buffer == a.buffer
    &&& b.trash == a.trash
    &&& b.header.page_id == a.header.page_id
    &&& b.header.item_count == a.header.item_count
    &&& b.header.flags == a.header.flags
}

impl Index {
    /// An index over `tree`, whose next new record gets id `next_record_id`.
    pub fn new(tree: BPlusTree, next_record_id: u16) -> (ix: Index)
        ensures
            ix.tree == tree,
            ix.next_record_id == next_record_id,
    {
        Index { tree, next_record_id }
    }

    /// The page that holds record `record_id`, or `RecordAbsent`.
    pub fn locate(&self, record_id: u16) -> (res: Result<u64, DbError>)
        requires
            self.tree.wf(),
        ensures
            res == search_result(self.tree@, record_id),
    {
        self.tree.search(record_id)
    }

    /// Reads record `record_id` from `page`, the page that holds it: its bytes, or a
    /// request to rebuild the page when the record's slot points outside it.
    pub fn read_from(&self, page: &mut Page, record_id: u16) -> (res: Result<Fetched, DbError>)
        requires
            old(page).basic(),
        ensures
            ({
                let (r, corrupt) = read_outcome(
                    old(page).header.flags,
                    old(page).header.upper,
                    old(page).buffer@,
                    old(page).slots(),
                    record_id as u32,
                );
                match res {
                    Ok(Fetched::Record(v)) => r == Ok::<Seq<u8>, DbError>(v@),
                    Ok(Fetched::Rebuild) => r == Err::<Seq<u8>, DbError>(DbError::CorruptedDataError),
                    Err(e) => r == Err::<Seq<u8>, DbError>(e) && e != DbError::CorruptedDataError,
                }
            }),
    {
        match page.read_record(record_id as u32) {
            Ok(v) => Ok(Fetched::Record(v)),
            Err(DbError::CorruptedDataError) => Ok(Fetched::Rebuild),
            Err(e) => Err(e),
        }
    }

    /// Writes `buf` into `page` as the next new record, the page taking sequence number
    /// `lsn`; the page's errors otherwise. The index learns of the record through
    /// `register_new`.
    pub fn store_new(&self, page: &mut Page, buf: &[u8], lsn: u64) -> (res: Result<Change, DbError>)
        requires
            old(page).wf(),
            buf@.len() + SLOT_SIZE <= u32::MAX,
        ensures
            old(page).header.flags == PageFlags::Corrupted ==> res == Err::<Change, DbError>(DbError::PageCorrupted)
                && *final(page) == *old(page),
            old(page).header.flags != PageFlags::Corrupted ==> (res == Ok::<Change, DbError>(Change::Done)
                <==> write_succeeds(*old(page), buf@.len() as int)),
            res is Err ==> res == Err::<Change, DbError>(DbError::PageCorrupted) || res == Err::<Change, DbError>(
                DbError::SpaceOver,
            ),
            res is Ok ==> res == Ok::<Change, DbError>(Change::Done) && final(page).header.lsn == lsn
                && final(page).header.flags == PageFlags::Dirty,
            final(page).header.page_id == old(page).header.page_id,
            buf@.len() > 0 ==> final(page).wf(),
            self.next_record_id != 0 && buf@.len() > 0 && ids_unique(old(page).slots()) && !old(page)@.contains_key(
                self.next_record_id as u32,
            ) ==> ids_unique(final(page).slots()) && final(page)@ == (if res is Ok {
                old(page)@.insert(self.next_record_id as u32, buf@)
            } else {
                old(page)@
            }),
    {
        match page.write_record(self.next_record_id as u32, buf, buf.len()) {
            Ok(_) => {
                let ghost before = *page;
                page.header.lsn = lsn;
                proof {
                    if buf@.len() > 0 {
                        crate::slotted_page::lemma_wf_other_lsn(before, *page);
                    }
                    assert(page.slots() =~= before.slots());
                    assert(page@ =~= before@);
                }
                Ok(Change::Done)
            },
            Err(DbError::CorruptedDataError) => Ok(Change::Rebuild),
            Err(e) => Err(e),
        }
    }

    /// Records that the next new record went to page `page_id`, and moves the next id on;
    /// returns the record's id. `DuplicateKey`, with nothing changed, if the index holds
    /// that id already.
    pub fn register_new(&mut self, page_id: u64) -> (res: Result<u16, DbError>)
        requires
            old(self).tree.wf(),
            old(self).next_record_id < u16::MAX,
        ensures
            final(self).tree.wf(),
            match res {
                Ok(id) => {
                    &&& id == old(self).next_record_id
                    &&& !old(self).tree@.contains_key(id)
                    &&& final(self).tree@ == old(self).tree@.insert(id, page_id)
                    &&& final(self).next_record_id == old(self).next_record_id + 1
                },
                Err(e) => e == DbError::DuplicateKey && old(self).tree@.contains_key(old(self).next_record_id)
                    && final(self).tree@ == old(self).tree@ && final(self).next_record_id == old(self).next_record_id,
            },
    {
        let id = self.next_record_id;
        self.tree.insert(id, page_id)?;
        self.next_record_id = id + 1;
        Ok(id)
    }

    /// Updates record `record_id` in `page`, the page that holds it, the page taking
    /// sequence number `lsn`: in place when it fits; otherwise the record leaves the page
    /// and must move. The page's errors otherwise.
    pub fn update_in(&self, page: &mut Page, record_id: u16, buf: &[u8], lsn: u64) -> (res: Result<Change, DbError>)
        requires
            old(page).wf(),
            buf@.len() + SLOT_SIZE <= u32::MAX,
        ensures
            old(page).header.flags == PageFlags::Corrupted ==> res == Err::<Change, DbError>(DbError::PageCorrupted)
                && *final(page) == *old(page),
            res is Err ==> (res == Err::<Change, DbError>(DbError::PageCorrupted) || res == Err::<Change, DbError>(
                DbError::RecordAbsent,
            )) && *final(page) == *old(page),
            res == Err::<Change, DbError>(DbError::RecordAbsent) && record_id != 0 ==> !old(page)@.contains_key(
                record_id as u32,
            ),
            res is Ok ==> res != Ok::<Change, DbError>(Change::Rebuild) && final(page).header.lsn == lsn
                && final(page).header.flags == PageFlags::Dirty,
            old(page).header.flags != PageFlags::Corrupted && slot_in_use(*old(page), record_id as u32) ==> (res
                == Ok::<Change, DbError>(Change::Done) <==> update_fits(*old(page), record_id as u32, buf@.len() as int))
                && res is Ok,
            final(page).header.page_id == old(page).header.page_id,
            record_id != 0 && buf@.len() > 0 ==> final(page).wf(),
            record_id != 0 && ids_unique(old(page).slots()) ==> ids_unique(final(page).slots()) && match res {
                Ok(Change::Done) => final(page)@ == old(page)@.insert(record_id as u32, buf@),
                Ok(Change::MustMove) => final(page)@ == old(page)@.remove(record_id as u32),
                _ => final(page)@ == old(page)@,
            },
    {
        let outcome = match page.update_record(record_id as u32, buf, buf.len()) {
            Ok(_) => Change::Done,
            Err(DbError::SpaceOver) => Change::MustMove,
            Err(DbError::CorruptedDataError) => return Ok(Change::Rebuild),
            Err(e) => return Err(e),
        };
        let ghost before = *page;
        page.header.lsn = lsn;
        proof {
            if record_id != 0 && buf@.len() > 0 {
                crate::slotted_page::lemma_wf_other_lsn(before, *page);
            }
            assert(page.slots() =~= before.slots());
            assert(page@ =~= before@);
        }
        Ok(outcome)
    }

    /// After the page of an update was rebuilt from the log, whether the record must still
    /// move: `false` when the rebuilt `page` holds it, `true` when it is absent; a page still
    /// damaged is `CorruptedDataError`, and the page's other errors are passed on.
    pub fn must_move_after_rebuild(&self, page: &mut Page, record_id: u16) -> (res: Result<bool, DbError>)
        requires
            old(page).basic(),
        ensures
            ({
                let (r, corrupt) = read_outcome(
                    old(page).header.flags,
                    old(page).header.upper,
                    old(page).buffer@,
                    old(page).slots(),
                    record_id as u32,
                );
                match r {
                    Ok(_) => res == Ok::<bool, DbError>(false),
                    Err(DbError::RecordAbsent) => res == Ok::<bool, DbError>(true),
                    Err(e) => res == Err::<bool, DbError>(e),
                }
            }),
    {
        match self.read_from(page, record_id) {
            Ok(Fetched::Record(_)) => Ok(false),
            Err(DbError::RecordAbsent) => Ok(true),
            Ok(Fetched::Rebuild) => Err(DbError::CorruptedDataError),
            Err(e) => Err(e),
        }
    }

    /// Writes record `record_id`, moving from a page where it no longer fits, into `page`,
    /// the page taking sequence number `lsn`; the page's errors otherwise.
    pub fn moved_into(&self, page: &mut Page, record_id: u16, buf: &[u8], lsn: u64) -> (res: Result<Change, DbError>)
        requires
            old(page).wf(),
            buf@.len() + SLOT_SIZE <= u32::MAX,
        ensures
            old(page).header.flags == PageFlags::Corrupted ==> res == Err::<Change, DbError>(DbError::PageCorrupted)
                && *final(page) == *old(page),
            old(page).header.flags != PageFlags::Corrupted ==> (res == Ok::<Change, DbError>(Change::Done)
                <==> write_succeeds(*old(page), buf@.len() as int)),
            res is Err ==> res == Err::<Change, DbError>(DbError::PageCorrupted) || res == Err::<Change, DbError>(
                DbError::SpaceOver,
            ),
            res is Ok ==> res == Ok::<Change, DbError>(Change::Done) && final(page).header.lsn == lsn
                && final(page).header.flags == PageFlags::Dirty,
            final(page).header.page_id == old(page).header.page_id,
            buf@.len() > 0 ==> final(page).wf(),
            record_id != 0 && buf@.len() > 0 && ids_unique(old(page).slots()) && !old(page)@.contains_key(
                record_id as u32,
            ) ==> ids_unique(final(page).slots()) && final(page)@ == (if res is Ok {
                old(page)@.insert(record_id as u32, buf@)
            } else {
                old(page)@
            }),
    {
        match page.write_record(record_id as u32, buf, buf.len()) {
            Ok(_) => {
                let ghost before = *page;
                page.header.lsn = lsn;
                proof {
                    if buf@.len() > 0 {
                        crate::slotted_page::lemma_wf_other_lsn(before, *page);
                    }
                    assert(page.slots() =~= before.slots());
                    assert(page@ =~= before@);
                }
                Ok(Change::Done)
            },
            Err(DbError::CorruptedDataError) => Ok(Change::Rebuild),
            Err(e) => Err(e),
        }
    }

    /// Records that record `record_id` now lives in page `page_id`. `RecordAbsent`, with
    /// nothing changed, if the index does not hold it.
    pub fn rehome(&mut self, record_id: u16, page_id: u64) -> (res: Result<(), DbError>)
        requires
            old(self).tree.wf(),
        ensures
            final(self).tree.wf(),
            final(self).next_record_id == old(self).next_record_id,
            match res {
                Ok(()) => old(self).tree@.contains_key(record_id) && final(self).tree@ == old(self).tree@.insert(
                    record_id,
                    page_id,
                ),
                Err(e) => e == DbError::RecordAbsent && !old(self).tree@.contains_key(record_id) && final(self).tree@
                    == old(self).tree@,
            },
    {
        self.tree.delete(record_id)?;
        let r = self.tree.insert(record_id, page_id);
        proof {
            assert(old(self).tree@.remove(record_id).insert(record_id, page_id) =~= old(self).tree@.insert(
                record_id,
                page_id,
            ));
        }
        r
    }

    /// Deletes record `record_id` from `page`, the page that holds it, the page taking
    /// sequence number `lsn`; a damaged slot asks for a rebuild. The index forgets the
    /// record through `forget`.
    pub fn remove_from(&self, page: &mut Page, record_id: u16, lsn: u64) -> (res: Result<Change, DbError>)
        requires
            old(page).wf(),
        ensures
            old(page).header.flags == PageFlags::Corrupted ==> res == Err::<Change, DbError>(DbError::PageCorrupted)
                && *final(page) == *old(page),
            res is Err ==> (res == Err::<Change, DbError>(DbError::PageCorrupted) || res == Err::<Change, DbError>(
                DbError::RecordAbsent,
            )) && *final(page) == *old(page),
            res == Err::<Change, DbError>(DbError::RecordAbsent) ==> !old(page)@.contains_key(record_id as u32),
            res == Ok::<Change, DbError>(Change::Done) ==> final(page).header.lsn == lsn && final(page).header.flags
                == PageFlags::Dirty,
            res == Ok::<Change, DbError>(Change::Rebuild) ==> final(page).header.flags == PageFlags::Corrupted,
            res != Ok::<Change, DbError>(Change::MustMove),
            final(page).header.page_id == old(page).header.page_id,
            record_id != 0 ==> final(page).wf(),
            record_id != 0 && ids_unique(old(page).slots()) ==> ids_unique(final(page).slots()),
            record_id != 0 && ids_unique(old(page).slots()) && res == Ok::<Change, DbError>(Change::Done)
                ==> final(page)@ == old(page)@.remove(record_id as u32),
    {
        match page.delete_record(record_id as u32) {
            Ok(()) => {
                let ghost before = *page;
                page.header.lsn = lsn;
                proof {
                    if record_id != 0 {
                        crate::slotted_page::lemma_wf_other_lsn(before, *page);
                    }
                    assert(page.slots() =~= before.slots());
                    assert(page@ =~= before@);
                }
                Ok(Change::Done)
            },
            Err(DbError::CorruptedDataError) => Ok(Change::Rebuild),
            Err(e) => Err(e),
        }
    }

    /// Forgets record `record_id`. `RecordAbsent`, with nothing changed, if the index does
    /// not hold it.
    pub fn forget(&mut self, record_id: u16) -> (res: Result<(), DbError>)
        requires
            old(self).tree.wf(),
        ensures
            final(self).tree.wf(),
            final(self).next_record_id == old(self).next_record_id,
            match res {
                Ok(()) => old(self).tree@.contains_key(record_id) && final(self).tree@ == old(self).tree@.remove(
                    record_id,
                ),
                Err(e) => e == DbError::RecordAbsent && !old(self).tree@.contains_key(record_id) && final(self).tree@
                    == old(self).tree@,
            },
    {
        self.tree.delete(record_id)
    }
}

/// The record bytes an entry carries, as a sequence.
pub open spec fn entry_data(data: Option<&Vec<u8>>) -> Seq<u8> {
    match data {
        Some(d) => d@,
        None => Seq::empty(),
    }
}

/// What the index becomes when log entry `log`, already reflected in its page, is passed
/// over: a write whose record the page holds (`held`) enters the index, at that page, if
/// the index lacks it; a delete whose record the page no longer holds leaves the index;
/// anything else, and an entry naming an id beyond the index's range, changes nothing.
pub open spec fn caught_up(t: Map<u16, u64>, log: Log, held: bool, page_id: u64) -> Map<u16, u64> {
    let id = log.record_id as u16;
    if log.record_id > u16::MAX {
        t
    } else if log.task_type == TaskType::Write && held && !t.contains_key(id) {
        t.insert(id, page_id)
    } else if log.task_type == TaskType::Delete && !held && t.contains_key(id) {
        t.remove(id)
    } else {
        t
    }
}

/// The next record id after `caught_up`: a record entering the index moves it past that
/// record's id, when it is not past it already and there is room.
pub open spec fn caught_up_next(n: u16, t: Map<u16, u64>, log: Log, held: bool) -> u16 {
    let id = log.record_id as u16;
    if log.record_id <= u16::MAX && log.task_type == TaskType::Write && held && !t.contains_key(id) && n <= id && id
        < u16::MAX {
        (id + 1) as u16
    } else {
        n
    }
}

impl Index {
    /// Replays page log entry `log` on `page`, the page it concerns, during recovery: when
    /// the page has reached the entry's sequence number, only the index catches up
    /// (`caught_up`); otherwise a delete leaves the page and the index; a write enters the
    /// page and the index, and the next id moves on; a write that does not fit leaves the page at the entry's sequence number and asks for
    /// a page with room; an update is handed back. `CorruptedWAL` for an entry that is not
    /// skipped and names a record id beyond the index's range, or for a write without the
    /// record; `SpaceOver` for a write when record ids have run out; a damaged slot asks
    /// for a rebuild.
    pub fn recover_entry(&mut self, page: &mut Page, log: &Log, data: Option<&Vec<u8>>) -> (res: Result<
        Recovery,
        DbError,
    >)
        requires
            old(self).tree.wf(),
            old(page).wf(),
            data matches Some(d) ==> d@.len() + SLOT_SIZE <= u32::MAX,
        ensures
            final(self).tree.wf(),
            old(page).header.lsn < log.lsn && log.record_id > u16::MAX ==> res == Err::<Recovery, DbError>(
                DbError::CorruptedWAL,
            ) && *final(page) == *old(page) && *final(self) == *old(self),
            old(page).header.lsn < log.lsn && log.record_id <= u16::MAX && log.task_type == TaskType::Write
                && data is Some && old(self).next_record_id == u16::MAX ==> res == Err::<Recovery, DbError>(DbError::SpaceOver)
                && *final(page) == *old(page) && *final(self) == *old(self),
            old(page).header.lsn >= log.lsn ==> res == Ok::<Recovery, DbError>(Recovery::Skipped) && *final(page)
                == *old(page) && final(self).tree@ == caught_up(
                old(self).tree@,
                *log,
                old(page)@.contains_key(log.record_id),
                old(page).header.page_id,
            ) && final(self).next_record_id == caught_up_next(
                old(self).next_record_id,
                old(self).tree@,
                *log,
                old(page)@.contains_key(log.record_id),
            ),
            res == Ok::<Recovery, DbError>(Recovery::Skipped) ==> old(page).header.lsn >= log.lsn,
            log.task_type == TaskType::Delete && old(page).header.lsn < log.lsn && log.record_id <= u16::MAX
                && old(page).header.flags != PageFlags::Corrupted && old(self).tree@.contains_key(log.record_id as u16)
                && old(page)@.contains_key(log.record_id) ==> res == Ok::<Recovery, DbError>(Recovery::Applied) || res
                == Ok::<Recovery, DbError>(Recovery::Rebuild),
            res == Ok::<Recovery, DbError>(Recovery::Update) ==> log.task_type == TaskType::Update && old(page).header.lsn
                < log.lsn && *final(page) == *old(page),
            log.task_type == TaskType::Update && old(page).header.lsn < log.lsn && log.record_id <= u16::MAX ==> res
                == Ok::<Recovery, DbError>(
                Recovery::Update,
            ),
            log.task_type == TaskType::Write && old(page).header.lsn < log.lsn && log.record_id <= u16::MAX
                && data is None ==> res == Err::<
                Recovery,
                DbError,
            >(DbError::CorruptedWAL),
            final(page).header.page_id == old(page).header.page_id,
            res == Ok::<Recovery, DbError>(Recovery::Applied) ==> {
                let id = log.record_id as u16;
                &&& final(page).header.lsn == log.lsn
                &&& match log.task_type {
                    TaskType::Delete => old(self).tree@.contains_key(id) && final(self).tree@ == old(self).tree@.remove(
                        id,
                    ) && final(self).next_record_id == old(self).next_record_id,
                    _ => !old(self).tree@.contains_key(id) && final(self).tree@ == old(self).tree@.insert(
                        id,
                        old(page).header.page_id,
                    ) && final(self).next_record_id == old(self).next_record_id + 1,
                }
                &&& log.record_id != 0 && ids_unique(old(page).slots()) ==> match log.task_type {
                    TaskType::Delete => final(page)@ == old(page)@.remove(log.record_id),
                    _ => entry_data(data).len() > 0 && !old(page)@.contains_key(log.record_id) ==> final(page)@ == old(
                        page,
                    )@.insert(log.record_id, entry_data(data)),
                }
            },
            log.task_type == TaskType::Write && old(page).header.lsn < log.lsn && data is Some && log.record_id
                <= u16::MAX && old(self).next_record_id < u16::MAX && old(page).header.flags != PageFlags::Corrupted && !old(self).tree@.contains_key(log.record_id as u16)
                ==> res is Ok && (res == Ok::<Recovery, DbError>(Recovery::Applied) <==> write_succeeds(
                *old(page),
                entry_data(data).len() as int,
            )),
            res == Ok::<Recovery, DbError>(Recovery::NeedsRoom) ==> log.task_type == TaskType::Write
                && final(page).header.lsn == log.lsn && final(self).tree@ == old(self).tree@,
            res == Ok::<Recovery, DbError>(Recovery::Rebuild) ==> final(self).tree@ == old(self).tree@,
            log.record_id != 0 && (log.task_type == TaskType::Delete || entry_data(data).len() > 0) ==> final(page).wf(),
    {
        if page.header.lsn >= log.lsn {
            if log.record_id <= u16::MAX as u32 {
                let id = log.record_id as u16;
                let held = page.holds_record(log.record_id);
                let known = self.tree.search(id).is_ok();
                match log.task_type {
                    TaskType::Write => {
                        if held && !known {
                            self.tree.insert(id, page.header.page_id)?;
                            if self.next_record_id <= id && id < u16::MAX {
                                self.next_record_id = id + 1;
                            }
                        }
                    },
                    TaskType::Delete => {
                        if !held && known {
                            self.tree.delete(id)?;
                        }
                    },
                    TaskType::Update => {},
                }
            }
            return Ok(Recovery::Skipped);
        }
        proof {
            crate::slotted_page::lemma_first_slot(page.slots(), log.record_id);
        }
        if log.record_id > u16::MAX as u32 {
            return Err(DbError::CorruptedWAL);
        }
        let id = log.record_id as u16;
        match log.task_type {
            TaskType::Delete => match page.delete_record(log.record_id) {
                Ok(()) => {
                    self.tree.delete(id)?;
                    let ghost before = *page;
                    page.header.lsn = log.lsn;
                    proof {
                        if log.record_id != 0 {
                            crate::slotted_page::lemma_wf_other_lsn(before, *page);
                        }
                        assert(page.slots() =~= before.slots());
                        assert(page@ =~= before@);
                    }
                    Ok(Recovery::Applied)
                },
                Err(DbError::CorruptedDataError) => Ok(Recovery::Rebuild),
                Err(e) => Err(e),
            },
            TaskType::Write => {
                let buf = match data {
                    Some(b) => b,
                    None => return Err(DbError::CorruptedWAL),
                };
                if self.next_record_id == u16::MAX {
                    return Err(DbError::SpaceOver);
                }
                match page.write_record(log.record_id, buf.as_slice(), buf.len()) {
                    Ok(_) => {
                        self.tree.insert(id, page.header.page_id)?;
                        self.next_record_id = self.next_record_id + 1;
                        let ghost before = *page;
                        page.header.lsn = log.lsn;
                        proof {
                            if buf@.len() > 0 {
                                crate::slotted_page::lemma_wf_other_lsn(before, *page);
                            }
                            assert(page.slots() =~= before.slots());
                            assert(page@ =~= before@);
                        }
                        Ok(Recovery::Applied)
                    },
                    Err(DbError::SpaceOver) => {
                        let ghost before = *page;
                        page.header.lsn = log.lsn;
                        proof {
                            if buf@.len() > 0 {
                                crate::slotted_page::lemma_wf_other_lsn(before, *page);
                            }
                        }
                        Ok(Recovery::NeedsRoom)
                    },
                    Err(DbError::CorruptedDataError) => Ok(Recovery::Rebuild),
                    Err(e) => Err(e),
                }
            },
            TaskType::Update => Ok(Recovery::Update),
        }
    }

    /// Writes the record of write entry `log`, which did not fit its own page, into `page`,
    /// a page with room, which moves on to the entry's sequence number if it is behind; the
    /// record then enters the index at that page and the next id moves on. `CorruptedWAL`
    /// for a record id beyond the index's range, `SpaceOver` when record ids have run out,
    /// `DuplicateKey` (after the write) when the index holds the id already; the page's
    /// errors otherwise.
    pub fn recover_into(&mut self, page: &mut Page, log: &Log, buf: &Vec<u8>) -> (res: Result<(), DbError>)
        requires
            old(self).tree.wf(),
            old(page).wf(),
            buf@.len() + SLOT_SIZE <= u32::MAX,
        ensures
            final(self).tree.wf(),
            log.record_id > u16::MAX ==> res == Err::<(), DbError>(DbError::CorruptedWAL) && *final(page) == *old(
                page,
            ) && *final(self) == *old(self),
            log.record_id <= u16::MAX && old(self).next_record_id == u16::MAX ==> res == Err::<(), DbError>(
                DbError::SpaceOver,
            ) && *final(page) == *old(page) && *final(self) == *old(self),
            res is Ok ==> {
                let id = log.record_id as u16;
                &&& !old(self).tree@.contains_key(id)
                &&& final(self).tree@ == old(self).tree@.insert(id, old(page).header.page_id)
                &&& final(self).next_record_id == old(self).next_record_id + 1
            },
            res is Err ==> final(self).tree@ == old(self).tree@ && final(self).next_record_id == old(
                self,
            ).next_record_id,
            res == Err::<(), DbError>(DbError::DuplicateKey) ==> old(self).tree@.contains_key(log.record_id as u16),
            old(page).header.flags == PageFlags::Corrupted && log.record_id <= u16::MAX && old(self).next_record_id
                < u16::MAX ==> res == Err::<(), DbError>(DbError::PageCorrupted) && *final(page) == *old(page),
            old(page).header.flags != PageFlags::Corrupted && log.record_id <= u16::MAX && old(self).next_record_id
                < u16::MAX && !old(self).tree@.contains_key(log.record_id as u16) ==> (res is Ok <==> write_succeeds(
                *old(page),
                buf@.len() as int,
            )),
            res is Ok || res == Err::<(), DbError>(DbError::DuplicateKey) ==> final(page).header.lsn == (if old(
                page,
            ).header.lsn < log.lsn {
                log.lsn
            } else {
                old(page).header.lsn
            }),
            final(page).header.page_id == old(page).header.page_id,
            buf@.len() > 0 ==> final(page).wf(),
            log.record_id != 0 && buf@.len() > 0 && ids_unique(old(page).slots()) && !old(page)@.contains_key(
                log.record_id,
            ) ==> ids_unique(final(page).slots()) && final(page)@ == (if res is Ok || res == Err::<(), DbError>(
                DbError::DuplicateKey,
            ) {
                old(page)@.insert(log.record_id, buf@)
            } else {
                old(page)@
            }),
    {
        if log.record_id > u16::MAX as u32 {
            return Err(DbError::CorruptedWAL);
        }
        if self.next_record_id == u16::MAX {
            return Err(DbError::SpaceOver);
        }
        let id = log.record_id as u16;
        match page.write_record(log.record_id, buf.as_slice(), buf.len()) {
            Ok(_) => {
                if page.header.lsn < log.lsn {
                    let ghost before = *page;
                    page.header.lsn = log.lsn;
                    proof {
                        if buf@.len() > 0 {
                            crate::slotted_page::lemma_wf_other_lsn(before, *page);
                        }
                        assert(page.slots() =~= before.slots());
                        assert(page@ =~= before@);
                    }
                }
                self.tree.insert(id, page.header.page_id)?;
                self.next_record_id = self.next_record_id + 1;
                Ok(())
            },
            Err(e) => Err(e),
        }
    }
}

/// What `read_from` reports for record `id` on page `p`.
pub open spec fn fetched(p: Page, id: u16) -> Result<Seq<u8>, DbError> {
    read_outcome(p.header.flags, p.header.upper, p.buffer@, p.slots(), id as u32).0
}

/// A new record stored in page `p0` by `store_new` (giving `p1`) and registered by
/// `register_new` under the page's id (turning the index `t0` into `t1`) is found again:
/// `locate` names that page, and `read_from` on it gives the record's bytes; every other
/// record reads from the page as before.
pub proof fn law_found_after_store(
    t0: Map<u16, u64>,
    t1: Map<u16, u64>,
    p0: Page,
    p1: Page,
    id: u16,
    page_id: u64,
    data: Seq<u8>,
    other: u16,
)
    requires
        p0.wf(),
        p0.header.flags != PageFlags::Corrupted,
        ids_unique(p0.slots()),
        id != 0,
        data.len() > 0,
        !p0@.contains_key(id as u32),
        p1.wf(),
        p1.header.flags == PageFlags::Dirty,
        ids_unique(p1.slots()),
        p1@ == p0@.insert(id as u32, data),
        t1 == t0.insert(id, page_id),
        other != id,
    ensures
        search_result(t1, id) == Ok::<u64, DbError>(page_id),
        fetched(p1, id) == Ok::<Seq<u8>, DbError>(data),
        fetched(p1, other) == fetched(p0, other),
{
    crate::slotted_page::law_read_after_write(p0, p1, id as u32, data, other as u32);
}

/// A record updated in place by `update_in` (page `p0` becomes `p1`) reads back with its
/// new bytes, from the page that `locate` still names; other records read as before.
pub proof fn law_found_after_update(t: Map<u16, u64>, p0: Page, p1: Page, id: u16, data: Seq<u8>, other: u16)
    requires
        p0.wf(),
        p0.header.flags != PageFlags::Corrupted,
        ids_unique(p0.slots()),
        id != 0,
        p1.wf(),
        p1.header.flags == PageFlags::Dirty,
        ids_unique(p1.slots()),
        p1@ == p0@.insert(id as u32, data),
        t.contains_key(id),
        other != id,
    ensures
        search_result(t, id) == Ok::<u64, DbError>(t[id]),
        fetched(p1, id) == Ok::<Seq<u8>, DbError>(data),
        fetched(p1, other) == fetched(p0, other),
{
    crate::slotted_page::law_read_after_write(p0, p1, id as u32, data, other as u32);
}

/// A record that `update_in` sent away from page `p0` (leaving `p1`), that `moved_into`
/// wrote into page `q0` (giving `q1`) and that `rehome` registered there (index `t0`
/// becoming `t1`) is found in its new page with its new bytes, is gone from the old page,
/// and every other record is located as before.
pub proof fn law_found_after_move(
    t0: Map<u16, u64>,
    t1: Map<u16, u64>,
    p0: Page,
    p1: Page,
    q0: Page,
    q1: Page,
    id: u16,
    page_id: u64,
    data: Seq<u8>,
    other: u16,
)
    requires
        p0.wf(),
        p0.header.flags != PageFlags::Corrupted,
        ids_unique(p0.slots()),
        p1.wf(),
        p1.header.flags == PageFlags::Dirty,
        ids_unique(p1.slots()),
        p1@ == p0@.remove(id as u32),
        q0.wf(),
        q0.header.flags != PageFlags::Corrupted,
        ids_unique(q0.slots()),
        !q0@.contains_key(id as u32),
        q1.wf(),
        q1.header.flags == PageFlags::Dirty,
        ids_unique(q1.slots()),
        q1@ == q0@.insert(id as u32, data),
        t0.contains_key(id),
        t1 == t0.insert(id, page_id),
        id != 0,
        other != id,
    ensures
        search_result(t1, id) == Ok::<u64, DbError>(page_id),
        fetched(q1, id) == Ok::<Seq<u8>, DbError>(data),
        fetched(p1, id) == Err::<Seq<u8>, DbError>(DbError::RecordAbsent),
        search_result(t1, other) == search_result(t0, other),
{
    crate::slotted_page::law_read_after_write(q0, q1, id as u32, data, other as u32);
    crate::slotted_page::law_read_after_delete(p0, p1, id as u32, other as u32);
}

/// A record removed from its page by `remove_from` (page `p0` becomes `p1`) and forgotten
/// by `forget` (index `t0` becomes `t1`) is found nowhere: `locate` reports it absent and
/// so does `read_from` on the page; other records read as before.
pub proof fn law_gone_after_remove(t0: Map<u16, u64>, t1: Map<u16, u64>, p0: Page, p1: Page, id: u16, other: u16)
    requires
        p0.wf(),
        p0.header.flags != PageFlags::Corrupted,
        ids_unique(p0.slots()),
        p1.wf(),
        p1.header.flags == PageFlags::Dirty,
        ids_unique(p1.slots()),
        p1@ == p0@.remove(id as u32),
        t1 == t0.remove(id),
        other != id,
    ensures
        search_result(t1, id) == Err::<u64, DbError>(DbError::RecordAbsent),
        fetched(p1, id) == Err::<Seq<u8>, DbError>(DbError::RecordAbsent),
        fetched(p1, other) == fetched(p0, other),
{
    crate::slotted_page::law_read_after_delete(p0, p1, id as u32, other as u32);
}

} // verus!

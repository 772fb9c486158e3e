use vstd::prelude::*;
use crate::db_errors::DbError;
use crate::page::PageFlags;
use crate::slotted_page::{
    Page, SLOT_SIZE, ids_unique, write_succeeds, lemma_wf_other_lsn, slot_in_use, update_fits, lemma_first_slot,
};
use crate::wal::{Log, TaskType};

verus! {

/// What redoing a page log entry on a page came to.
#[derive(Debug, Clone, Copy, PartialEq, Eq, Structural)]
pub enum Redo {
    /// The page already reflects the entry.
    Skipped,
    /// The entry's change was made.
    Applied,
    /// The record did not fit; the page moved on to the entry all the same.
    NoRoom,
    /// The record's slot was found damaged: the page must be rebuilt from the log.
    Rebuild,
}

/// The record bytes an entry carries, as a sequence.
pub open spec fn data_view(data: Option<&Vec<u8>>) -> Seq<u8> {
    match data {
        Some(d) => d@,
        None => Seq::empty(),
    }
}

impl Page {
    /// Redoes a page log entry during a checkpoint: nothing when the page's sequence number
    /// has reached the entry's; otherwise the delete, write or update is made on the page,
    /// a write or update that does not fit is passed over, and the page takes the entry's
    /// sequence number. `CorruptedWAL` for a write or an update without the record; the
    /// page's own errors otherwise, but a damaged slot asks for a rebuild.
    pub fn redo(&mut self, log: &Log, data: Option<&Vec<u8>>) -> (res: Result<Redo, DbError>)
        requires
            old(self).wf(),
            data matches Some(d) ==> d@.len() + SLOT_SIZE <= u32::MAX,
        ensures
            old(self).header.lsn >= log.lsn ==> res == Ok::<Redo, DbError>(Redo::Skipped) && *final(self) == *old(
                self,
            ),
            res == Ok::<Redo, DbError>(Redo::Skipped) ==> old(self).header.lsn >= log.lsn,
            log.task_type == TaskType::Delete && old(self).header.lsn < log.lsn && old(self).header.flags
                != PageFlags::Corrupted && old(self)@.contains_key(log.record_id) ==> res == Ok::<Redo, DbError>(
                Redo::Applied,
            ) || res == Ok::<Redo, DbError>(Redo::Rebuild),
            old(self).header.lsn < log.lsn && log.task_type != TaskType::Delete && data is None ==> res == Err::<
                Redo,
                DbError,
            >(DbError::CorruptedWAL) && *final(self) == *old(self),
            old(self).header.lsn < log.lsn && (log.task_type == TaskType::Delete || data is Some)
                && old(self).header.flags == PageFlags::Corrupted ==> res == Err::<Redo, DbError>(
                DbError::PageCorrupted,
            ) && *final(self) == *old(self),
            res is Err ==> res == Err::<Redo, DbError>(DbError::CorruptedWAL) || res == Err::<Redo, DbError>(
                DbError::PageCorrupted,
            ) || (res == Err::<Redo, DbError>(DbError::RecordAbsent) && log.task_type != TaskType::Write),
            res == Err::<Redo, DbError>(DbError::RecordAbsent) && log.record_id != 0 ==> !old(self)@.contains_key(
                log.record_id,
            ),
            res == Ok::<Redo, DbError>(Redo::Rebuild) ==> log.task_type == TaskType::Delete
                && final(self).header.flags == PageFlags::Corrupted,
            res == Ok::<Redo, DbError>(Redo::Applied) || res == Ok::<Redo, DbError>(Redo::NoRoom) ==> {
                &&& old(self).header.lsn < log.lsn
                &&& final(self).header.lsn == log.lsn
                &&& final(self).header.page_id == old(self).header.page_id
            },
            res == Ok::<Redo, DbError>(Redo::NoRoom) ==> log.task_type != TaskType::Delete,
            log.task_type == TaskType::Write && old(self).header.lsn < log.lsn && data is Some
                && old(self).header.flags != PageFlags::Corrupted ==> (res == Ok::<Redo, DbError>(Redo::Applied)
                <==> write_succeeds(*old(self), data_view(data).len() as int)),
            log.task_type == TaskType::Update && old(self).header.lsn < log.lsn && data is Some
                && old(self).header.flags != PageFlags::Corrupted && slot_in_use(*old(self), log.record_id) ==> res is Ok
                && (res == Ok::<Redo, DbError>(Redo::Applied) <==> update_fits(
                *old(self),
                log.record_id,
                data_view(data).len() as int,
            )),
            ({
                let o = old(self)@;
                let id = log.record_id;
                let d = data_view(data);
                id != 0 && ids_unique(old(self).slots()) ==> match res {
                    Ok(Redo::Applied) => match log.task_type {
                        TaskType::Delete => final(self)@ == o.remove(id),
                        _ => d.len() > 0 && (log.task_type == TaskType::Update || !o.contains_key(id))
                            ==> final(self)@ == o.insert(id, d),
                    },
                    Ok(Redo::NoRoom) => match log.task_type {
                        TaskType::Update => final(self)@ == o.remove(id),
                        _ => d.len() > 0 && !o.contains_key(id) ==> final(self)@ == o,
                    },
                    _ => true,
                }
            }),
            log.record_id != 0 && data_view(data).len() > 0 ==> final(self).wf(),
            log.record_id != 0 && data_view(data).len() > 0 && ids_unique(old(self).slots()) && (
            log.task_type != TaskType::Write || !old(self)@.contains_key(log.record_id)) ==> ids_unique(
                final(self).slots(),
            ),
    {
        if self.header.lsn >= log.lsn {
            return Ok(Redo::Skipped);
        }
        proof {
            lemma_first_slot(self.slots(), log.record_id);
        }
        let outcome = match log.task_type {
            TaskType::Delete => match self.delete_record(log.record_id) {
                Ok(()) => Redo::Applied,
                Err(DbError::CorruptedDataError) => return Ok(Redo::Rebuild),
                Err(e) => return Err(e),
            },
            TaskType::Write => {
                let buf = match data {
                    Some(b) => b,
                    None => return Err(DbError::CorruptedWAL),
                };
                match self.write_record(log.record_id, buf.as_slice(), buf.len()) {
                    Ok(_) => Redo::Applied,
                    Err(DbError::SpaceOver) => Redo::NoRoom,
                    Err(e) => return Err(e),
                }
            },
            TaskType::Update => {
                let buf = match data {
                    Some(b) => b,
                    None => return Err(DbError::CorruptedWAL),
                };
                match self.update_record(log.record_id, buf.as_slice(), buf.len()) {
                    Ok(_) => Redo::Applied,
                    Err(DbError::SpaceOver) => Redo::NoRoom,
                    Err(e) => return Err(e),
                }
            },
        };
        let ghost before = *self;
        self.header.lsn = log.lsn;
        proof {
            if log.record_id != 0 && data_view(data).len() > 0 {
                lemma_wf_other_lsn(before, *self);
            }
            assert(self.slots() =~= before.slots());
            assert(self@ =~= before@);
        }
        Ok(outcome)
    }
}

impl Page {
    /// Replays page log entry `log` while the page is rebuilt from the log: the delete,
    /// write or update is made, and a write or update that does not fit is passed over.
    /// `CorruptedWAL` for a write or an update without the record; the page's errors
    /// otherwise. The page's sequence number is left as it is.
    pub fn replay(&mut self, log: &Log, data: Option<&Vec<u8>>) -> (res: Result<(), DbError>)
        requires
            old(self).wf(),
            data matches Some(d) ==> d@.len() + SLOT_SIZE <= u32::MAX,
        ensures
            log.task_type != TaskType::Delete && data is None ==> res == Err::<(), DbError>(DbError::CorruptedWAL)
                && *final(self) == *old(self),
            (log.task_type == TaskType::Delete || data is Some) && old(self).header.flags == PageFlags::Corrupted
                ==> res == Err::<(), DbError>(DbError::PageCorrupted) && *final(self) == *old(self),
            res is Err ==> res == Err::<(), DbError>(DbError::CorruptedWAL) || res == Err::<(), DbError>(
                DbError::PageCorrupted,
            ) || (res == Err::<(), DbError>(DbError::RecordAbsent) && log.task_type != TaskType::Write) || (res
                == Err::<(), DbError>(DbError::CorruptedDataError) && log.task_type == TaskType::Delete),
            res == Err::<(), DbError>(DbError::RecordAbsent) && log.record_id != 0 ==> !old(self)@.contains_key(
                log.record_id,
            ),
            final(self).header.lsn == old(self).header.lsn,
            final(self).header.page_id == old(self).header.page_id,
            log.task_type == TaskType::Write && data is Some && old(self).header.flags != PageFlags::Corrupted
                ==> res is Ok,
            log.task_type == TaskType::Update && data is Some && old(self).header.flags != PageFlags::Corrupted
                && slot_in_use(*old(self), log.record_id) ==> res is Ok,
            ({
                let o = old(self)@;
                let id = log.record_id;
                let d = data_view(data);
                id != 0 && ids_unique(old(self).slots()) && res is Ok ==> match log.task_type {
                    TaskType::Delete => final(self)@ == o.remove(id),
                    TaskType::Write => d.len() > 0 && !o.contains_key(id) ==> final(self)@ == (if write_succeeds(
                        *old(self),
                        d.len() as int,
                    ) {
                        o.insert(id, d)
                    } else {
                        o
                    }),
                    TaskType::Update => final(self)@ == (if update_fits(*old(self), id, d.len() as int) {
                        o.insert(id, d)
                    } else {
                        o.remove(id)
                    }),
                }
            }),
            log.record_id != 0 && (log.task_type == TaskType::Delete || data_view(data).len() > 0) ==> final(self).wf(),
    {
        match log.task_type {
            TaskType::Delete => self.delete_record(log.record_id),
            TaskType::Write => {
                let buf = match data {
                    Some(b) => b,
                    None => return Err(DbError::CorruptedWAL),
                };
                match self.write_record(log.record_id, buf.as_slice(), buf.len()) {
                    Ok(_) => Ok(()),
                    Err(DbError::SpaceOver) => Ok(()),
                    Err(e) => Err(e),
                }
            },
            TaskType::Update => {
                let buf = match data {
                    Some(b) => b,
                    None => return Err(DbError::CorruptedWAL),
                };
                match self.update_record(log.record_id, buf.as_slice(), buf.len()) {
                    Ok(_) => Ok(()),
                    Err(DbError::SpaceOver) => Ok(()),
                    Err(e) => Err(e),
                }
            },
        }
    }
}

} // verus!

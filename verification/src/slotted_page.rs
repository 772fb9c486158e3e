use vstd::prelude::*;
use vstd::bytes::*;
use crate::bytes_util::{spliced, write_bytes, read_u16, read_u32, lemma_subrange_agree};
use crate::crc32::{crc32, spec_crc32};
use crate::db_errors::DbError;
use crate::page::{PageFlags, PageHeader, PAGE_HEADER_SIZE, PAGE_SIZE, header_bytes, header_decodes, header_decode_error, page_flags_of_code, lemma_header_bytes_checksum_only};

verus! {

/// Size in bytes of one slot of the slot directory: record id, offset, size.
pub const SLOT_SIZE: usize = 10;

/// One entry of a page's slot directory.
#[derive(Debug, Clone, Copy)]
pub struct Slot {
    pub id: u32,
    pub offset: u16,
    pub size: u32,
}

/// Byte position of slot `i` in the page.
pub open spec fn slot_pos(i: int) -> int {
    96 + 10 * i
}

/// The slot encoded at byte position `p` of `b`.
pub open spec fn slot_at(b: Seq<u8>, p: int) -> Slot {
    Slot {
        id: spec_u32_from_le_bytes(b.subrange(p, p + 4)),
        offset: spec_u16_from_le_bytes(b.subrange(p + 4, p + 6)),
        size: spec_u32_from_le_bytes(b.subrange(p + 6, p + 10)),
    }
}

/// The 10 bytes that encode a slot.
pub open spec fn slot_bytes(s: Slot) -> Seq<u8> {
    spec_u32_to_le_bytes(s.id) + spec_u16_to_le_bytes(s.offset) + spec_u32_to_le_bytes(s.size)
}

/// The first `n` slots of the directory in `b`.
pub open spec fn dir(b: Seq<u8>, n: nat) -> Seq<Slot> {
    Seq::new(n, |i: int| slot_at(b, slot_pos(i)))
}

/// A slot holds a record unless its id is zero.
pub open spec fn is_live(s: Slot) -> bool {
    s.id != 0
}

/// Two byte ranges `[o1, o1 + s1)` and `[o2, o2 + s2)` do not overlap.
pub open spec fn disjoint(o1: int, s1: int, o2: int, s2: int) -> bool {
    o1 + s1 <= o2 || o2 + s2 <= o1
}

/// The bytes of the record that slot `s` points at.
pub open spec fn rec_bytes(b: Seq<u8>, s: Slot) -> Seq<u8> {
    b.subrange(s.offset as int, s.offset + s.size)
}

/// Index of the first slot from `i` on whose id is `id`, or `slots.len()` if none.
pub open spec fn first_from(slots: Seq<Slot>, id: u32, i: int) -> int
    decreases slots.len() - i,
{
    if i < 0 || i >= slots.len() {
        slots.len() as int
    } else if slots[i].id == id {
        i
    } else {
        first_from(slots, id, i + 1)
    }
}

/// Index of the first slot with id `id`, or `slots.len()` if none.
pub open spec fn first_slot(slots: Seq<Slot>, id: u32) -> int {
    first_from(slots, id, 0)
}

/// Sum of the sizes of the live slots.
pub open spec fn live_sum(slots: Seq<Slot>) -> int
    decreases slots.len(),
{
    if slots.len() == 0 {
        0
    } else {
        live_sum(slots.drop_last()) + (if is_live(slots.last()) {
            slots.last().size as int
        } else {
            0
        })
    }
}

/// Number of live slots.
pub open spec fn live_count(slots: Seq<Slot>) -> int
    decreases slots.len(),
{
    if slots.len() == 0 {
        0
    } else {
        live_count(slots.drop_last()) + (if is_live(slots.last()) {
            1int
        } else {
            0
        })
    }
}

/// Sum of the hole sizes in a trash list.
pub open spec fn trash_sum(t: Seq<(u16, u32)>) -> int
    decreases t.len(),
{
    if t.len() == 0 {
        0
    } else {
        trash_sum(t.drop_last()) + t.last().1 as int
    }
}

/// No two live slots share an id.
pub open spec fn ids_unique(slots: Seq<Slot>) -> bool {
    forall|i: int, j: int|
        0 <= i < slots.len() && 0 <= j < slots.len() && i != j && is_live(slots[i]) ==> slots[i].id
            != slots[j].id
}

/// Some slot carries id `id`.
pub open spec fn has_id(slots: Seq<Slot>, id: u32) -> bool {
    exists|i: int| 0 <= i < slots.len() && slots[i].id == id
}

/// The records held by a directory over a buffer: id to bytes.
pub open spec fn records_of(b: Seq<u8>, slots: Seq<Slot>) -> Map<u32, Seq<u8>> {
    Map::new(
        |id: u32| id != 0 && has_id(slots, id),
        |id: u32| rec_bytes(b, slots[first_slot(slots, id)]),
    )
}

/// A slotted page: header, the raw page bytes, and the holes left by deleted records.
pub struct Page {
    pub header: PageHeader,
    pub buffer: [u8; PAGE_SIZE],
    pub trash: Vec<(u16, u32)>,
}

impl Slot {
    /// Reads the slot stored at byte position `offset`.
    pub fn deserialise(buffer: &[u8; PAGE_SIZE], offset: usize) -> (s: Self)
        requires
            offset + SLOT_SIZE <= PAGE_SIZE,
        ensures
            s == slot_at(buffer@, offset as int),
    {
        let b: &[u8] = buffer.as_slice();
        let id = read_u32(b, offset);
        let off = read_u16(b, offset + 4);
        let size = read_u32(b, offset + 6);
        Self { id, offset: off, size }
    }
}

/// What `read_record` reports for `id` on a page whose state is given: the result, and
/// whether the page is marked corrupted by the read.
pub open spec fn read_outcome(
    flags: PageFlags,
    upper: u16,
    b: Seq<u8>,
    slots: Seq<Slot>,
    id: u32,
) -> (Result<Seq<u8>, DbError>, bool) {
    let f = first_slot(slots, id);
    if flags == PageFlags::Corrupted {
        (Err(DbError::PageCorrupted), false)
    } else if f >= slots.len() {
        (Err(DbError::RecordAbsent), false)
    } else {
        let s = slots[f];
        if s.id == 0 {
            (Err(DbError::RecordAbsent), false)
        } else if s.offset >= PAGE_SIZE {
            (Err(DbError::CorruptedDataError), true)
        } else if s.offset < upper {
            (Err(DbError::RecordAbsent), false)
        } else if s.size == 0 {
            (Err(DbError::RecordAbsent), false)
        } else if s.offset + s.size > PAGE_SIZE {
            (Err(DbError::CorruptedDataError), true)
        } else {
            (Ok(rec_bytes(b, s)), false)
        }
    }
}

proof fn lemma_first_from(slots: Seq<Slot>, id: u32, i: int)
    requires
        0 <= i <= slots.len(),
    ensures
        i <= first_from(slots, id, i) <= slots.len(),
        forall|k: int| i <= k < first_from(slots, id, i) ==> slots[k].id != id,
        first_from(slots, id, i) < slots.len() ==> slots[first_from(slots, id, i)].id == id,
    decreases slots.len() - i,
{
    if i < slots.len() && slots[i].id != id {
        lemma_first_from(slots, id, i + 1);
    }
}

/// The first slot with an id is found by scanning from the start.
pub proof fn lemma_first_slot(slots: Seq<Slot>, id: u32)
    ensures
        0 <= first_slot(slots, id) <= slots.len(),
        forall|k: int| 0 <= k < first_slot(slots, id) ==> slots[k].id != id,
        first_slot(slots, id) < slots.len() ==> slots[first_slot(slots, id)].id == id,
        has_id(slots, id) <==> first_slot(slots, id) < slots.len(),
{
    lemma_first_from(slots, id, 0);
}

/// In a directory with unique live ids, the first slot of a live id is its only slot.
pub proof fn lemma_first_slot_unique(slots: Seq<Slot>, id: u32, i: int)
    requires
        ids_unique(slots),
        0 <= i < slots.len(),
        slots[i].id == id,
        id != 0,
    ensures
        first_slot(slots, id) == i,
{
    lemma_first_slot(slots, id);
    let f = first_slot(slots, id);
    if f != i {
        assert(slots[f].id == id);
    }
}


/// Encoding a slot and decoding it gives the slot back.
pub proof fn lemma_slot_bytes(s: Slot)
    ensures
        slot_bytes(s).len() == 10,
        slot_bytes(s).subrange(0, 4) == spec_u32_to_le_bytes(s.id),
        slot_bytes(s).subrange(4, 6) == spec_u16_to_le_bytes(s.offset),
        slot_bytes(s).subrange(6, 10) == spec_u32_to_le_bytes(s.size),
{
    lemma_auto_spec_u16_to_from_le_bytes();
    lemma_auto_spec_u32_to_from_le_bytes();
    assert(slot_bytes(s).subrange(0, 4) =~= spec_u32_to_le_bytes(s.id));
    assert(slot_bytes(s).subrange(4, 6) =~= spec_u16_to_le_bytes(s.offset));
    assert(slot_bytes(s).subrange(6, 10) =~= spec_u32_to_le_bytes(s.size));
}

/// After writing a slot's bytes at `p`, the slot read back at `p` is that slot.
pub proof fn lemma_slot_write_read(b: Seq<u8>, p: int, s: Slot)
    requires
        0 <= p,
        p + 10 <= b.len(),
    ensures
        slot_at(spliced(b, p, slot_bytes(s)), p) == s,
{
    lemma_slot_bytes(s);
    lemma_auto_spec_u16_to_from_le_bytes();
    lemma_auto_spec_u32_to_from_le_bytes();
    let b2 = spliced(b, p, slot_bytes(s));
    assert(b2.subrange(p, p + 4) =~= slot_bytes(s).subrange(0, 4));
    assert(b2.subrange(p + 4, p + 6) =~= slot_bytes(s).subrange(4, 6));
    assert(b2.subrange(p + 6, p + 10) =~= slot_bytes(s).subrange(6, 10));
}

/// Buffers that agree on the slot area have the same directory.
pub proof fn lemma_dir_frame(b1: Seq<u8>, b2: Seq<u8>, n: nat)
    requires
        slot_pos(n as int) <= b1.len(),
        slot_pos(n as int) <= b2.len(),
        forall|k: int| 96 <= k < slot_pos(n as int) ==> b1[k] == b2[k],
    ensures
        dir(b1, n) == dir(b2, n),
{
    assert forall|i: int| 0 <= i < n implies dir(b1, n)[i] == dir(b2, n)[i] by {
        let p = slot_pos(i);
        lemma_subrange_agree(b1, b2, p, p + 4);
        lemma_subrange_agree(b1, b2, p + 4, p + 6);
        lemma_subrange_agree(b1, b2, p + 6, p + 10);
    }
    assert(dir(b1, n) =~= dir(b2, n));
}

/// Writing slot `i` changes only entry `i` of the directory (or appends it when `i == n`).
pub proof fn lemma_dir_write(b: Seq<u8>, n: nat, i: int, s: Slot)
    requires
        0 <= i <= n,
        slot_pos(n as int) <= b.len(),
        slot_pos(i + 1) <= b.len(),
    ensures
        i < n ==> dir(spliced(b, slot_pos(i), slot_bytes(s)), n) == dir(b, n).update(i, s),
        i == n ==> dir(spliced(b, slot_pos(i), slot_bytes(s)), (n + 1) as nat) == dir(b, n).push(s),
{
    lemma_slot_bytes(s);
    let b2 = spliced(b, slot_pos(i), slot_bytes(s));
    lemma_slot_write_read(b, slot_pos(i), s);
    let m: nat = if i < n { n } else { (n + 1) as nat };
    let expect = if i < n { dir(b, n).update(i, s) } else { dir(b, n).push(s) };
    assert forall|j: int| 0 <= j < m implies dir(b2, m)[j] == expect[j] by {
        if j != i {
            let p = slot_pos(j);
            lemma_subrange_agree(b, b2, p, p + 4);
            lemma_subrange_agree(b, b2, p + 4, p + 6);
            lemma_subrange_agree(b, b2, p + 6, p + 10);
        }
    }
    assert(dir(b2, m) =~= expect);
}

proof fn lemma_live_sum_update(s: Seq<Slot>, i: int, x: Slot)
    requires
        0 <= i < s.len(),
    ensures
        live_sum(s.update(i, x)) == live_sum(s) - (if is_live(s[i]) { s[i].size as int } else { 0 })
            + (if is_live(x) { x.size as int } else { 0 }),
        live_count(s.update(i, x)) == live_count(s) - (if is_live(s[i]) { 1int } else { 0 }) + (if is_live(x) { 1int } else { 0 }),
    decreases s.len(),
{
    let s2 = s.update(i, x);
    if i == s.len() - 1 {
        assert(s2.drop_last() =~= s.drop_last());
    } else {
        lemma_live_sum_update(s.drop_last(), i, x);
        assert(s2.drop_last() =~= s.drop_last().update(i, x));
    }
}

proof fn lemma_live_sum_nonneg(s: Seq<Slot>)
    ensures
        live_sum(s) >= 0,
        live_count(s) >= 0,
        live_count(s) <= s.len(),
    decreases s.len(),
{
    if s.len() > 0 {
        lemma_live_sum_nonneg(s.drop_last());
    }
}

proof fn lemma_trash_sum_remove(t: Seq<(u16, u32)>, k: int)
    requires
        0 <= k < t.len(),
    ensures
        trash_sum(t.remove(k)) == trash_sum(t) - t[k].1,
    decreases t.len(),
{
    let t2 = t.remove(k);
    if k == t.len() - 1 {
        assert(t2 =~= t.drop_last());
    } else {
        lemma_trash_sum_remove(t.drop_last(), k);
        assert(t2.drop_last() =~= t.drop_last().remove(k));
    }
}

proof fn lemma_trash_sum_ge(t: Seq<(u16, u32)>, k: int)
    requires
        0 <= k < t.len(),
    ensures
        trash_sum(t) >= t[k].1,
        trash_sum(t) >= 0,
    decreases t.len(),
{
    lemma_trash_sum_nonneg(t.drop_last());
    if k < t.len() - 1 {
        lemma_trash_sum_ge(t.drop_last(), k);
    }
}

proof fn lemma_trash_sum_nonneg(t: Seq<(u16, u32)>)
    ensures
        trash_sum(t) >= 0,
    decreases t.len(),
{
    if t.len() > 0 {
        lemma_trash_sum_nonneg(t.drop_last());
    }
}

/// Writes the encoding of slot `s` at byte position `pos`.
fn write_slot(buf: &mut [u8; PAGE_SIZE], pos: usize, s: Slot)
    requires
        pos + SLOT_SIZE <= PAGE_SIZE,
    ensures
        final(buf)@ == spliced(old(buf)@, pos as int, slot_bytes(s)),
{
    let mut bytes = u32_to_le_bytes(s.id);
    let mut off_bytes = u16_to_le_bytes(s.offset);
    let mut size_bytes = u32_to_le_bytes(s.size);
    bytes.append(&mut off_bytes);
    bytes.append(&mut size_bytes);
    proof {
        lemma_slot_bytes(s);
    }
    write_bytes(buf, pos, bytes.as_slice());
}

impl Page {
    /// The slot directory, as far as the header counts it.
    pub open spec fn slots(&self) -> Seq<Slot> {
        dir(self.buffer@, self.header.item_count as nat)
    }

    /// The records the page holds.
    pub open spec fn view(&self) -> Map<u32, Seq<u8>> {
        records_of(self.buffer@, self.slots())
    }

    /// Header bounds: the slot area ends at `lower`, records start at `upper`.
    pub open spec fn basic(&self) -> bool {
        &&& self.header.lower == PAGE_HEADER_SIZE + SLOT_SIZE * self.header.item_count
        &&& self.header.lower <= self.header.upper <= PAGE_SIZE
    }

    /// Slot `s` points inside the record area.
    pub open spec fn in_area(&self, s: Slot) -> bool {
        self.header.upper <= s.offset && s.offset + s.size <= PAGE_SIZE
    }

    /// Index of the slot that a trash entry refers to.
    pub open spec fn trash_slot(&self, k: int) -> int {
        (self.trash@[k].0 - 96) / 10
    }

    /// Trash entry `k` names a dead slot and a hole inside the record area.
    pub open spec fn trash_ok(&self, k: int) -> bool {
        let (o, s) = self.trash@[k];
        let i = self.trash_slot(k);
        &&& o >= 96
        &&& (o - 96) % 10 == 0
        &&& 0 <= i < self.header.item_count
        &&& !is_live(self.slots()[i])
        &&& s > 0
        &&& self.header.upper <= self.slots()[i].offset
        &&& self.slots()[i].offset + s <= PAGE_SIZE
    }

    /// Start of the hole that trash entry `k` stands for.
    pub open spec fn hole_start(&self, k: int) -> int {
        self.slots()[self.trash_slot(k)].offset as int
    }

    /// Slot sizes fit, regions never overlap, and holes are accounted for.
    pub open spec fn wf(&self) -> bool {
        let slots = self.slots();
        &&& self.basic()
        &&& forall|i: int| 0 <= i < slots.len() ==> #[trigger] self.in_area(slots[i])
        &&& forall|i: int| 0 <= i < slots.len() && is_live(slots[i]) ==> #[trigger] slots[i].size > 0
        &&& forall|i: int, j: int|
            0 <= i < slots.len() && 0 <= j < slots.len() && i != j && is_live(slots[i]) && is_live(
                slots[j],
            ) ==> disjoint(
                #[trigger] slots[i].offset as int,
                slots[i].size as int,
                #[trigger] slots[j].offset as int,
                slots[j].size as int,
            )
        &&& forall|k: int| 0 <= k < self.trash@.len() ==> #[trigger] self.trash_ok(k)
        &&& forall|k: int, i: int|
            0 <= k < self.trash@.len() && 0 <= i < slots.len() && is_live(slots[i]) ==> disjoint(
                #[trigger] self.hole_start(k),
                self.trash@[k].1 as int,
                #[trigger] slots[i].offset as int,
                slots[i].size as int,
            )
        &&& forall|k1: int, k2: int|
            0 <= k1 < self.trash@.len() && 0 <= k2 < self.trash@.len() && k1 != k2 ==> disjoint(
                #[trigger] self.hole_start(k1),
                self.trash@[k1].1 as int,
                #[trigger] self.hole_start(k2),
                self.trash@[k2].1 as int,
            )
        &&& live_sum(slots) + trash_sum(self.trash@) <= PAGE_SIZE - self.header.upper
    }

    /// Looks up a record: its bytes if the page holds it, `RecordAbsent` if not.
    /// A slot pointing outside the page marks the page corrupted.
    pub fn read_record(&mut self, record_id: u32) -> (res: Result<Vec<u8>, DbError>)
        requires
            old(self).basic(),
        ensures
            ({
                let (r, corrupt) = read_outcome(
                    old(self).header.flags,
                    old(self).header.upper,
                    old(self).buffer@,
                    old(self).slots(),
                    record_id,
                );
                &&& match res {
                    Ok(v) => r == Ok::<Seq<u8>, DbError>(v@),
                    Err(e) => r == Err::<Seq<u8>, DbError>(e),
                }
                &&& final(self).header == (if corrupt {
                    PageHeader { flags: PageFlags::Corrupted, ..old(self).header }
                } else {
                    old(self).header
                })
                &&& final(self).buffer == old(self).buffer
                &&& final(self).trash == old(self).trash
            }),
    {
        if matches!(self.header.flags, PageFlags::Corrupted) {
            return Err(DbError::PageCorrupted);
        }
        let ghost slots = self.slots();
        let mut offset: usize = PAGE_HEADER_SIZE;
        let mut i: u16 = 0;
        let mut slot: Option<Slot> = None;
        while i < self.header.item_count
            invariant_except_break
                slot is None,
            invariant
                self.basic(),
                *self == *old(self),
                slots == self.slots(),
                i <= self.header.item_count,
                offset == slot_pos(i as int),
                forall|k: int| 0 <= k < i ==> slots[k].id != record_id,
            ensures
                slot is None ==> i == self.header.item_count,
                slot is Some ==> i < self.header.item_count && slot->0 == slots[i as int]
                    && slots[i as int].id == record_id,
            decreases self.header.item_count - i,
        {
            let candidate = Slot::deserialise(&self.buffer, offset);
            if candidate.id == record_id {
                slot = Some(candidate);
                break;
            }
            offset += SLOT_SIZE;
            i += 1;
        }
        proof {
            lemma_first_slot(slots, record_id);
            if slot is Some {
                assert(first_slot(slots, record_id) == i);
            } else {
                assert(first_slot(slots, record_id) == slots.len());
            }
        }
        let slot = match slot {
            Some(s) => s,
            None => return Err(DbError::RecordAbsent),
        };
        if slot.id == 0 {
            return Err(DbError::RecordAbsent);
        }
        if slot.offset as usize >= PAGE_SIZE {
            self.header.flags = PageFlags::Corrupted;
            return Err(DbError::CorruptedDataError);
        }
        if slot.offset < self.header.upper {
            return Err(DbError::RecordAbsent);
        }
        if slot.size == 0 {
            return Err(DbError::RecordAbsent);
        }
        if slot.offset as u64 + slot.size as u64 > PAGE_SIZE as u64 {
            self.header.flags = PageFlags::Corrupted;
            return Err(DbError::CorruptedDataError);
        }
        let start = slot.offset as usize;
        let end = start + slot.size as usize;
        let out = vstd::slice::slice_to_vec(vstd::slice::slice_subrange(self.buffer.as_slice(), start, end));
        Ok(out)
    }
}

/// A run of `n` zero bytes.
pub open spec fn zeros(n: int) -> Seq<u8> {
    Seq::new(n as nat, |i: int| 0u8)
}

impl Page {
    /// Whether the page holds a record under `record_id`.
    pub fn holds_record(&self, record_id: u32) -> (r: bool)
        requires
            self.basic(),
        ensures
            r == self@.contains_key(record_id),
    {
        proof {
            lemma_first_slot(self.slots(), record_id);
        }
        record_id != 0 && self.find_slot(record_id).is_some()
    }

    /// Finds the first slot whose id is `record_id`: its byte position and contents.
    fn find_slot(&self, record_id: u32) -> (r: Option<(usize, Slot)>)
        requires
            self.basic(),
        ensures
            ({
                let f = first_slot(self.slots(), record_id);
                match r {
                    None => f == self.slots().len(),
                    Some((pos, s)) => f < self.slots().len() && pos == slot_pos(f) && s == self.slots()[f],
                }
            }),
    {
        let ghost slots = self.slots();
        let mut offset: usize = PAGE_HEADER_SIZE;
        let mut i: u16 = 0;
        while i < self.header.item_count
            invariant
                self.basic(),
                slots == self.slots(),
                i <= self.header.item_count,
                offset == slot_pos(i as int),
                forall|k: int| 0 <= k < i ==> slots[k].id != record_id,
            decreases self.header.item_count - i,
        {
            let candidate = Slot::deserialise(&self.buffer, offset);
            if candidate.id == record_id {
                proof {
                    assert(candidate == slots[i as int]);
                    lemma_first_slot(slots, record_id);
                    assert(first_slot(slots, record_id) == i);
                }
                return Some((offset, candidate));
            }
            offset += SLOT_SIZE;
            i += 1;
        }
        proof {
            lemma_first_slot(slots, record_id);
        }
        None
    }

    /// Removes a record: its slot's id becomes zero, its bytes are zeroed, and its space
    /// joins the trash for reuse.
    pub fn delete_record(&mut self, record_id: u32) -> (res: Result<(), DbError>)
        requires
            old(self).wf(),
        ensures
            ({
                let o = old(self);
                let f = first_slot(o.slots(), record_id);
                let s = o.slots()[f];
                if o.header.flags == PageFlags::Corrupted {
                    res == Err::<(), DbError>(DbError::PageCorrupted) && *final(self) == *o
                } else if f >= o.slots().len() {
                    res == Err::<(), DbError>(DbError::RecordAbsent) && *final(self) == *o
                } else if s.size == 0 {
                    &&& res == Err::<(), DbError>(DbError::CorruptedDataError)
                    &&& final(self).header == PageHeader { flags: PageFlags::Corrupted, ..o.header }
                    &&& final(self).buffer == o.buffer
                    &&& final(self).trash@ == o.trash@.push((slot_pos(f) as u16, 0u32))
                } else {
                    &&& res == Ok::<(), DbError>(())
                    &&& final(self).header == PageHeader { flags: PageFlags::Dirty, ..o.header }
                    &&& final(self).buffer@ == spliced(
                        spliced(o.buffer@, slot_pos(f), slot_bytes(Slot { id: 0, ..s })),
                        s.offset as int,
                        zeros(s.size as int),
                    )
                    &&& final(self).slots() == o.slots().update(f, Slot { id: 0, ..s })
                    &&& final(self).trash@ == o.trash@.push((slot_pos(f) as u16, s.size))
                }
            }),
            record_id != 0 ==> final(self).wf(),
            record_id != 0 && ids_unique(old(self).slots()) ==> ids_unique(final(self).slots()),
            record_id != 0 && ids_unique(old(self).slots()) && res is Ok ==> final(self)@ == old(
                self,
            )@.remove(record_id),
            record_id != 0 && res is Err ==> final(self)@ == old(self)@,
            res == Err::<(), DbError>(DbError::RecordAbsent) ==> !old(self)@.contains_key(record_id),
    {
        proof {
            lemma_first_slot(self.slots(), record_id);
        }
        if matches!(self.header.flags, PageFlags::Corrupted) {
            return Err(DbError::PageCorrupted);
        }
        let ghost o = *self;
        let ghost slots = self.slots();
        let (offset, slot) = match self.find_slot(record_id) {
            Some(found) => found,
            None => return Err(DbError::RecordAbsent),
        };
        let ghost f = first_slot(slots, record_id);
        assert(0 <= f < slots.len());
        assert(o.in_area(slots[f]));
        self.trash.push((offset as u16, slot.size));
        if slot.size == 0 {
            self.header.flags = PageFlags::Corrupted;
            return Err(DbError::CorruptedDataError);
        }
        proof {
            assert(o.in_area(slots[f]));
        }
        if slot.offset as usize >= PAGE_SIZE {
            self.header.flags = PageFlags::Corrupted;
            return Err(DbError::CorruptedDataError);
        }
        if slot.offset < self.header.upper {
            self.header.flags = PageFlags::Corrupted;
            return Err(DbError::CorruptedDataError);
        }
        let dead = Slot { id: 0, offset: slot.offset, size: slot.size };
        write_slot(&mut self.buffer, offset, dead);
        let ghost b1 = self.buffer@;
        let zero_buf: Vec<u8> = vec![0u8; slot.size as usize];
        write_bytes(&mut self.buffer, slot.offset as usize, zero_buf.as_slice());
        self.header.flags = PageFlags::Dirty;
        proof {
            assert(zero_buf@ =~= zeros(slot.size as int));
            let n = o.header.item_count as nat;
            lemma_dir_write(o.buffer@, n, f, dead);
            lemma_dir_frame(b1, self.buffer@, n);
            let s2 = self.slots();
            assert(s2 == slots.update(f, dead));
            lemma_live_sum_update(slots, f, dead);
            if record_id != 0 {
                lemma_page_delete_wf(o, *self, f);
                if ids_unique(slots) {
                    assert forall|i: int, j: int|
                        0 <= i < s2.len() && 0 <= j < s2.len() && i != j && is_live(s2[i]) implies s2[i].id
                        != s2[j].id by {
                        assert(slots[i].id == s2[i].id);
                    }
                    assert forall|k: int|
                        0 <= k < o.buffer@.len() && !(slots[f].offset <= k < slots[f].offset + slots[f].size) && !(
                        slot_pos(f) <= k < slot_pos(f) + 10) implies o.buffer@[k] == self.buffer@[k] by {
                        lemma_slot_bytes(dead);
                    }
                    assert forall|i: int| 0 <= i < slots.len() implies slots[i].offset + slots[i].size
                        <= o.buffer@.len() && slots[i].offset >= slot_pos(slots.len() as int) by {
                        assert(o.in_area(slots[i]));
                    }
                    lemma_records_after_delete(o.buffer@, self.buffer@, slots, f, dead, record_id);
                }
            }
        }
        Ok(())
    }
}

/// Deleting a live record keeps the page well formed.
proof fn lemma_page_delete_wf(o: Page, p: Page, f: int)
    requires
        o.wf(),
        0 <= f < o.slots().len(),
        is_live(o.slots()[f]),
        p.header == (PageHeader { flags: p.header.flags, ..o.header }),
        p.slots() == o.slots().update(f, (Slot { id: 0, ..o.slots()[f] })),
        p.trash@ == o.trash@.push((slot_pos(f) as u16, o.slots()[f].size)),
    ensures
        p.wf(),
{
    let slots = o.slots();
    let s2 = p.slots();
    let s = slots[f];
    lemma_live_sum_update(slots, f, Slot { id: 0, ..s });
    let t2 = p.trash@;
    assert(t2.drop_last() =~= o.trash@);
    assert(o.in_area(s));
    let kn = o.trash@.len() as int;
    assert(p.trash_slot(kn) == f);
    assert forall|k: int| 0 <= k < t2.len() implies #[trigger] p.trash_ok(k) by {
        if k < kn {
            assert(o.trash_ok(k));
            assert(p.trash_slot(k) == o.trash_slot(k));
        }
    }
    assert forall|k: int| 0 <= k < t2.len() implies p.hole_start(k) == (if k < kn {
        o.hole_start(k)
    } else {
        s.offset as int
    }) by {
        if k < kn {
            assert(o.trash_ok(k));
            assert(p.trash_slot(k) == o.trash_slot(k));
        }
    }
    assert forall|k: int, i: int|
        0 <= k < t2.len() && 0 <= i < s2.len() && is_live(s2[i]) implies disjoint(
        #[trigger] p.hole_start(k),
        t2[k].1 as int,
        #[trigger] s2[i].offset as int,
        s2[i].size as int,
    ) by {
        if k < kn {
            assert(o.hole_start(k) == p.hole_start(k));
            assert(disjoint(o.hole_start(k), o.trash@[k].1 as int, slots[i].offset as int, slots[i].size as int));
        } else {
            assert(disjoint(slots[f].offset as int, slots[f].size as int, slots[i].offset as int, slots[i].size as int));
        }
    }
    assert forall|k1: int, k2: int|
        0 <= k1 < t2.len() && 0 <= k2 < t2.len() && k1 != k2 implies disjoint(
        #[trigger] p.hole_start(k1),
        t2[k1].1 as int,
        #[trigger] p.hole_start(k2),
        t2[k2].1 as int,
    ) by {
        if k1 < kn && k2 < kn {
            assert(o.hole_start(k1) == p.hole_start(k1));
            assert(o.hole_start(k2) == p.hole_start(k2));
            assert(disjoint(o.hole_start(k1), o.trash@[k1].1 as int, o.hole_start(k2), o.trash@[k2].1 as int));
        } else if k1 < kn {
            assert(o.hole_start(k1) == p.hole_start(k1));
            assert(disjoint(o.hole_start(k1), o.trash@[k1].1 as int, slots[f].offset as int, slots[f].size as int));
        } else {
            assert(o.hole_start(k2) == p.hole_start(k2));
            assert(disjoint(o.hole_start(k2), o.trash@[k2].1 as int, slots[f].offset as int, slots[f].size as int));
        }
    }
    assert forall|i: int| 0 <= i < s2.len() implies #[trigger] p.in_area(s2[i]) by {
        assert(o.in_area(slots[i]));
    }
    assert forall|i: int, j: int|
        0 <= i < s2.len() && 0 <= j < s2.len() && i != j && is_live(s2[i]) && is_live(s2[j]) implies disjoint(
        #[trigger] s2[i].offset as int,
        s2[i].size as int,
        #[trigger] s2[j].offset as int,
        s2[j].size as int,
    ) by {
        assert(disjoint(slots[i].offset as int, slots[i].size as int, slots[j].offset as int, slots[j].size as int));
    }
}

/// After a delete, the record map loses exactly the deleted id.
proof fn lemma_records_after_delete(
    b1: Seq<u8>,
    b2: Seq<u8>,
    slots: Seq<Slot>,
    f: int,
    dead: Slot,
    id: u32,
)
    requires
        ids_unique(slots),
        0 <= f < slots.len(),
        slots[f].id == id,
        id != 0,
        dead == (Slot { id: 0, ..slots[f] }),
        forall|i: int, j: int|
            0 <= i < slots.len() && 0 <= j < slots.len() && i != j && is_live(slots[i]) && is_live(slots[j]) ==> disjoint(
                slots[i].offset as int,
                slots[i].size as int,
                slots[j].offset as int,
                slots[j].size as int,
            ),
        b1.len() == b2.len(),
        forall|k: int|
            0 <= k < b1.len() && !(slots[f].offset <= k < slots[f].offset + slots[f].size) && !(slot_pos(f) <= k < slot_pos(f) + 10) ==> b1[k] == b2[k],
        forall|i: int| 0 <= i < slots.len() ==> slots[i].offset + slots[i].size <= b1.len(),
        forall|i: int| 0 <= i < slots.len() ==> slots[i].offset >= slot_pos(slots.len() as int),
        slot_pos(slots.len() as int) <= b1.len(),
        ids_unique(slots.update(f, dead)),
    ensures
        records_of(b2, slots.update(f, dead)) == records_of(b1, slots).remove(id),
{
    let s2 = slots.update(f, dead);
    let m1 = records_of(b1, slots);
    let m2 = records_of(b2, s2);
    assert forall|j: u32| #[trigger] m2.contains_key(j) <==> m1.remove(id).contains_key(j) by {
        if j != 0 && j != id {
            if has_id(slots, j) {
                let i = choose|i: int| 0 <= i < slots.len() && slots[i].id == j;
                assert(s2[i].id == j);
            }
            if has_id(s2, j) {
                let i = choose|i: int| 0 <= i < s2.len() && s2[i].id == j;
                assert(slots[i].id == j);
            }
        }
        if j == id && j != 0 {
            if has_id(s2, j) {
                let i = choose|i: int| 0 <= i < s2.len() && s2[i].id == j;
                assert(slots[i].id == j);
            }
        }
    }
    assert forall|j: u32| #[trigger] m2.contains_key(j) implies m2[j] == m1.remove(id)[j] by {
        let i = choose|i: int| 0 <= i < s2.len() && s2[i].id == j;
        assert(i != f);
        lemma_first_slot_unique(s2, j, i);
        lemma_first_slot_unique(slots, j, i);
        let si = slots[i];
        assert(disjoint(si.offset as int, si.size as int, slots[f].offset as int, slots[f].size as int));
        assert forall|k: int| si.offset <= k < si.offset + si.size implies b1[k] == b2[k] by {}
        lemma_subrange_agree(b1, b2, si.offset as int, si.offset + si.size);
    }
    assert(m2 =~= m1.remove(id));
}

/// The live slots of a directory, in directory order.
pub open spec fn live_filter(s: Seq<Slot>) -> Seq<Slot>
    decreases s.len(),
{
    if s.len() == 0 {
        Seq::empty()
    } else {
        let r = live_filter(s.drop_last());
        if is_live(s.last()) {
            r.push(s.last())
        } else {
            r
        }
    }
}

/// Sum of all slot sizes.
pub open spec fn sizes_sum(s: Seq<Slot>) -> int
    decreases s.len(),
{
    if s.len() == 0 {
        0
    } else {
        sizes_sum(s.drop_last()) + s.last().size as int
    }
}

proof fn lemma_live_filter_len(s: Seq<Slot>)
    ensures
        live_filter(s).len() == live_count(s),
        sizes_sum(live_filter(s)) == live_sum(s),
        forall|p: int| 0 <= p < live_filter(s).len() ==> is_live(#[trigger] live_filter(s)[p]),
    decreases s.len(),
{
    if s.len() > 0 {
        let t = s.drop_last();
        lemma_live_filter_len(t);
        if is_live(s.last()) {
            assert(live_filter(s).drop_last() =~= live_filter(t));
        }
    }
}

proof fn lemma_live_filter_from(s: Seq<Slot>)
    ensures
        forall|p: int|
            0 <= p < live_filter(s).len() ==> exists|i: int| 0 <= i < s.len() && s[i] == #[trigger] live_filter(s)[p],
    decreases s.len(),
{
    if s.len() > 0 {
        let t = s.drop_last();
        lemma_live_filter_from(t);
        let r = live_filter(t);
        let lf = live_filter(s);
        assert forall|p: int| 0 <= p < lf.len() implies exists|i: int| 0 <= i < s.len() && s[i] == #[trigger] lf[p] by {
            if p < r.len() {
                let i = choose|i: int| 0 <= i < t.len() && t[i] == r[p];
                assert(s[i] == lf[p]);
            } else {
                assert(s[s.len() - 1] == lf[p]);
            }
        }
    }
}

proof fn lemma_live_filter_to(s: Seq<Slot>)
    ensures
        forall|i: int|
            0 <= i < s.len() && is_live(s[i]) ==> exists|p: int|
                0 <= p < live_filter(s).len() && #[trigger] live_filter(s)[p] == s[i],
    decreases s.len(),
{
    if s.len() > 0 {
        let t = s.drop_last();
        lemma_live_filter_to(t);
        let r = live_filter(t);
        let lf = live_filter(s);
        assert forall|i: int| 0 <= i < s.len() && is_live(s[i]) implies exists|p: int|
            0 <= p < lf.len() && #[trigger] lf[p] == s[i] by {
            if i < t.len() {
                assert(t[i] == s[i]);
                let p = choose|p: int| 0 <= p < r.len() && #[trigger] r[p] == t[i];
                assert(lf[p] == s[i]);
            } else {
                assert(lf[lf.len() - 1] == s[i]);
            }
        }
    }
}

proof fn lemma_live_filter_unique(s: Seq<Slot>)
    requires
        ids_unique(s),
    ensures
        forall|p: int, q: int|
            0 <= p < live_filter(s).len() && 0 <= q < live_filter(s).len() && p != q ==> #[trigger] live_filter(s)[p].id
                != #[trigger] live_filter(s)[q].id,
    decreases s.len(),
{
    if s.len() > 0 {
        let t = s.drop_last();
        assert(ids_unique(t)) by {
            assert forall|i: int, j: int|
                0 <= i < t.len() && 0 <= j < t.len() && i != j && is_live(t[i]) implies t[i].id != t[j].id by {
                assert(s[i] == t[i] && s[j] == t[j]);
            }
        }
        lemma_live_filter_unique(t);
        lemma_live_filter_from(t);
        lemma_live_filter_len(t);
        let r = live_filter(t);
        let lf = live_filter(s);
        assert forall|p: int, q: int| 0 <= p < lf.len() && 0 <= q < lf.len() && p != q implies #[trigger] lf[p].id
            != #[trigger] lf[q].id by {
            if p < r.len() && q < r.len() {
                assert(lf[p] == r[p] && lf[q] == r[q]);
            } else if p < r.len() {
                let i = choose|i: int| 0 <= i < t.len() && t[i] == r[p];
                assert(s[i] == lf[p]);
                assert(lf[q] == s[s.len() - 1]);
            } else {
                let i = choose|i: int| 0 <= i < t.len() && t[i] == r[q];
                assert(s[i] == lf[q]);
                assert(lf[p] == s[s.len() - 1]);
            }
        }
    }
}

/// The first `w` slots of `nb` hold the last `w` live slots of `alive`, in reverse, packed
/// above `upper` without overlap, with the record bytes copied from `ob`.
#[verifier::opaque]
pub open spec fn packed(nb: Seq<u8>, ob: Seq<u8>, alive: Seq<Slot>, w: int, upper: int) -> bool {
    let d = dir(nb, w as nat);
    let len0 = alive.len() as int;
    &&& nb.len() == PAGE_SIZE
    &&& 0 <= w <= len0
    &&& forall|v: int|
        0 <= v < w ==> {
            let dv = #[trigger] d[v];
            let sv = alive[len0 - 1 - v];
            &&& dv.id == sv.id
            &&& dv.size == sv.size
            &&& upper <= dv.offset
            &&& dv.offset + dv.size <= PAGE_SIZE
            &&& rec_bytes(nb, dv) == rec_bytes(ob, sv)
            &&& is_live(dv)
        }
    &&& forall|w1: int, w2: int|
        0 <= w1 < w && 0 <= w2 < w && w1 != w2 ==> disjoint(
            #[trigger] d[w1].offset as int,
            d[w1].size as int,
            #[trigger] d[w2].offset as int,
            d[w2].size as int,
        )
    &&& live_sum(d) == sizes_sum(alive) - sizes_sum(alive.subrange(0, len0 - w))
}

proof fn lemma_packed_start(nb: Seq<u8>, ob: Seq<u8>, alive: Seq<Slot>)
    requires
        nb.len() == PAGE_SIZE,
    ensures
        packed(nb, ob, alive, 0, PAGE_SIZE as int),
{
    reveal(packed);
    assert(alive.subrange(0, alive.len() as int) =~= alive);
    assert(dir(nb, 0) =~= Seq::<Slot>::empty());
}

proof fn lemma_packed_step(
    before: Seq<u8>,
    mid: Seq<u8>,
    after: Seq<u8>,
    ob: Seq<u8>,
    alive: Seq<Slot>,
    w: int,
    upper: int,
    new_slot: Slot,
)
    requires
        packed(before, ob, alive, w, upper),
        0 <= w < alive.len(),
        ob.len() == PAGE_SIZE,
        upper <= PAGE_SIZE,
        new_slot.id == alive[alive.len() - 1 - w].id,
        new_slot.size == alive[alive.len() - 1 - w].size,
        new_slot.offset == upper - new_slot.size,
        is_live(alive[alive.len() - 1 - w]),
        new_slot.offset >= slot_pos(alive.len() as int),
        alive[alive.len() - 1 - w].offset + alive[alive.len() - 1 - w].size <= PAGE_SIZE,
        mid == spliced(before, slot_pos(w), slot_bytes(new_slot)),
        after == spliced(mid, new_slot.offset as int, rec_bytes(ob, alive[alive.len() - 1 - w])),
        sizes_sum(alive.subrange(0, alive.len() - w)) == sizes_sum(alive.subrange(0, alive.len() - w - 1))
            + new_slot.size,
    ensures
        packed(after, ob, alive, w + 1, new_slot.offset as int),
        forall|k: int| 0 <= k < 96 ==> after[k] == before[k],
{
    reveal(packed);
    let len0 = alive.len() as int;
    let wn = (w + 1) as nat;
    let new_upper = new_slot.offset as int;
    lemma_slot_bytes(new_slot);
    lemma_dir_write(before, w as nat, w, new_slot);
    assert forall|k: int| 96 <= k < slot_pos(wn as int) implies mid[k] == after[k] by {}
    lemma_dir_frame(mid, after, wn);
    let d_old = dir(before, w as nat);
    let d_new = dir(after, wn);
    assert(d_new == d_old.push(new_slot));
    assert(d_new.drop_last() =~= d_old);
    assert forall|v: int| 0 <= v < wn implies {
        let dv = #[trigger] d_new[v];
        let sv = alive[len0 - 1 - v];
        &&& dv.id == sv.id
        &&& dv.size == sv.size
        &&& new_upper <= dv.offset
        &&& dv.offset + dv.size <= PAGE_SIZE
        &&& rec_bytes(after, dv) == rec_bytes(ob, sv)
        &&& is_live(dv)
    } by {
        let dv = d_new[v];
        if v < w {
            assert(dv == d_old[v]);
            assert forall|k: int| dv.offset <= k < dv.offset + dv.size implies after[k] == before[k] by {}
            lemma_subrange_agree(before, after, dv.offset as int, dv.offset + dv.size);
        } else {
            assert(dv == new_slot);
            assert(rec_bytes(after, dv) =~= rec_bytes(ob, alive[len0 - 1 - w]));
        }
    }
    assert forall|w1: int, w2: int| 0 <= w1 < wn && 0 <= w2 < wn && w1 != w2 implies disjoint(
        #[trigger] d_new[w1].offset as int,
        d_new[w1].size as int,
        #[trigger] d_new[w2].offset as int,
        d_new[w2].size as int,
    ) by {
        if w1 < w && w2 < w {
            assert(d_new[w1] == d_old[w1] && d_new[w2] == d_old[w2]);
        } else if w1 < w {
            assert(d_new[w1] == d_old[w1]);
        } else {
            assert(d_new[w2] == d_old[w2]);
        }
    }
    assert(alive.subrange(0, len0 - w - 1) == alive.subrange(0, len0 - (w + 1)));
}

/// `fs` lists the slots of `alive` in reverse order, with the same ids and record bytes.
pub open spec fn reversed_copy(ob: Seq<u8>, nb: Seq<u8>, fs: Seq<Slot>, alive: Seq<Slot>) -> bool {
    &&& fs.len() == alive.len()
    &&& forall|w: int|
        0 <= w < fs.len() ==> {
            let sv = alive[alive.len() - 1 - w];
            &&& (#[trigger] fs[w]).id == sv.id
            &&& rec_bytes(nb, fs[w]) == rec_bytes(ob, sv)
        }
}

proof fn lemma_compact_unique(ob: Seq<u8>, nb: Seq<u8>, slots: Seq<Slot>, fs: Seq<Slot>, alive: Seq<Slot>)
    requires
        ids_unique(slots),
        alive == live_filter(slots),
        reversed_copy(ob, nb, fs, alive),
    ensures
        ids_unique(fs),
{
    lemma_live_filter_unique(slots);
    let len0 = alive.len() as int;
    assert forall|i: int, j: int|
        0 <= i < fs.len() && 0 <= j < fs.len() && i != j && is_live(fs[i]) implies fs[i].id != fs[j].id by {
        assert(alive[len0 - 1 - i].id != alive[len0 - 1 - j].id);
    }
}

proof fn lemma_compact_has_id(ob: Seq<u8>, nb: Seq<u8>, slots: Seq<Slot>, fs: Seq<Slot>, alive: Seq<Slot>, j: u32)
    requires
        j != 0,
        alive == live_filter(slots),
        reversed_copy(ob, nb, fs, alive),
    ensures
        has_id(slots, j) <==> has_id(fs, j),
{
    lemma_live_filter_len(slots);
    lemma_live_filter_from(slots);
    lemma_live_filter_to(slots);
    let len0 = alive.len() as int;
    if has_id(slots, j) {
        let i = choose|i: int| 0 <= i < slots.len() && slots[i].id == j;
        let p = choose|p: int| 0 <= p < alive.len() && #[trigger] alive[p] == slots[i];
        assert(fs[len0 - 1 - p].id == j);
    }
    if has_id(fs, j) {
        let w = choose|w: int| 0 <= w < fs.len() && fs[w].id == j;
        let p = len0 - 1 - w;
        let i = choose|i: int| 0 <= i < slots.len() && slots[i] == #[trigger] alive[p];
        assert(slots[i].id == j);
    }
}

proof fn lemma_compact_value(ob: Seq<u8>, nb: Seq<u8>, slots: Seq<Slot>, fs: Seq<Slot>, alive: Seq<Slot>, j: u32)
    requires
        j != 0,
        has_id(fs, j),
        ids_unique(slots),
        ids_unique(fs),
        alive == live_filter(slots),
        reversed_copy(ob, nb, fs, alive),
    ensures
        rec_bytes(nb, fs[first_slot(fs, j)]) == rec_bytes(ob, slots[first_slot(slots, j)]),
{
    lemma_live_filter_from(slots);
    let len0 = alive.len() as int;
    let w = choose|w: int| 0 <= w < fs.len() && fs[w].id == j;
    let p = len0 - 1 - w;
    let i = choose|i: int| 0 <= i < slots.len() && slots[i] == #[trigger] alive[p];
    lemma_first_slot_unique(fs, j, w);
    lemma_first_slot_unique(slots, j, i);
}

/// Compaction keeps the record map when live ids are unique.
proof fn lemma_compact_records(ob: Seq<u8>, nb: Seq<u8>, slots: Seq<Slot>, fs: Seq<Slot>, alive: Seq<Slot>)
    requires
        ids_unique(slots),
        alive == live_filter(slots),
        reversed_copy(ob, nb, fs, alive),
    ensures
        ids_unique(fs),
        records_of(nb, fs) == records_of(ob, slots),
{
    lemma_compact_unique(ob, nb, slots, fs, alive);
    let m1 = records_of(ob, slots);
    let m2 = records_of(nb, fs);
    assert forall|j: u32| #[trigger] m2.contains_key(j) <==> m1.contains_key(j) by {
        if j != 0 {
            lemma_compact_has_id(ob, nb, slots, fs, alive, j);
        }
    }
    assert forall|j: u32| #[trigger] m2.contains_key(j) implies m2[j] == m1[j] by {
        lemma_compact_value(ob, nb, slots, fs, alive, j);
    }
    assert(m2 =~= m1);
}

proof fn lemma_sizes_sum_prefix(a: Seq<Slot>, k: int)
    requires
        0 <= k < a.len(),
    ensures
        sizes_sum(a.subrange(0, k + 1)) == sizes_sum(a.subrange(0, k)) + a[k].size,
{
    assert(a.subrange(0, k + 1).drop_last() =~= a.subrange(0, k));
}

proof fn lemma_sizes_sum_prefix_nonneg(a: Seq<Slot>, k: int)
    requires
        0 <= k <= a.len(),
    ensures
        0 <= sizes_sum(a.subrange(0, k)) <= sizes_sum(a),
    decreases a.len() - k,
{
    if k == a.len() {
        assert(a.subrange(0, k) =~= a);
        lemma_sizes_sum_nonneg(a);
    } else {
        lemma_sizes_sum_prefix(a, k);
        lemma_sizes_sum_prefix_nonneg(a, k + 1);
        lemma_sizes_sum_nonneg(a.subrange(0, k));
    }
}

proof fn lemma_sizes_sum_nonneg(a: Seq<Slot>)
    ensures
        sizes_sum(a) >= 0,
    decreases a.len(),
{
    if a.len() > 0 {
        lemma_sizes_sum_nonneg(a.drop_last());
    }
}

impl Page {
    /// Writes the header into the page and stores the CRC-32 of the page, taken with the
    /// checksum field zeroed, as the header's checksum.
    fn seal(&mut self)
        ensures
            final(self).header == (PageHeader { checksum: final(self).header.checksum, ..old(self).header }),
            final(self).sealed(),
            forall|k: int| 96 <= k < PAGE_SIZE ==> #[trigger] final(self).buffer@[k] == old(self).buffer@[k],
            final(self).trash == old(self).trash,
    {
        let ghost h0 = self.header;
        let ghost b0 = self.buffer@;
        self.header.serialise(&mut self.buffer);
        let zero_bytes: Vec<u8> = vec![0u8; 4];
        assert(zero_bytes@ =~= zeros(4));
        write_bytes(&mut self.buffer, 24, zero_bytes.as_slice());
        let ghost z = self.buffer@;
        let checksum = crc32(self.buffer.as_slice());
        let ck_bytes = u32_to_le_bytes(checksum);
        proof {
            lemma_auto_spec_u32_to_from_le_bytes();
        }
        write_bytes(&mut self.buffer, 24, ck_bytes.as_slice());
        self.header.checksum = checksum;
        self.header.serialise(&mut self.buffer);
        proof {
            let h1 = self.header;
            lemma_header_bytes_checksum_only(h1, h0);
            let f = self.buffer@;
            assert(spliced(f, 24, zeros(4)) =~= z);
        }
    }
}


impl Page {
    /// The page can be compacted: header bounds hold, every live slot is non-empty and lies
    /// in the record area, and the live records fit above the slot area. Dead slots may
    /// hold anything.
    pub open spec fn compactable(&self) -> bool {
        let slots = self.slots();
        &&& self.basic()
        &&& forall|i: int| 0 <= i < slots.len() && is_live(slots[i]) ==> #[trigger] self.in_area(slots[i])
        &&& forall|i: int| 0 <= i < slots.len() && is_live(slots[i]) ==> #[trigger] slots[i].size > 0
        &&& live_sum(slots) <= PAGE_SIZE - self.header.upper
    }

    /// The header's checksum is the CRC-32 of the page with the checksum field zeroed, and
    /// the page starts with the header's bytes.
    pub open spec fn sealed(&self) -> bool {
        &&& self.buffer@.subrange(0, 96) == header_bytes(self.header)
        &&& self.header.checksum == spec_crc32(spliced(self.buffer@, 24, zeros(4)))
    }

    /// Collects the live slots of the directory, in directory order.
    fn live_slots(&self) -> (alive: Vec<Slot>)
        requires
            self.basic(),
        ensures
            alive@ == live_filter(self.slots()),
    {
        let ghost slots = self.slots();
        let mut alive: Vec<Slot> = Vec::new();
        let mut offset: usize = PAGE_HEADER_SIZE;
        let mut i: u16 = 0;
        while offset < self.header.lower as usize
            invariant
                self.basic(),
                slots == self.slots(),
                i <= self.header.item_count,
                offset == slot_pos(i as int),
                alive@ == live_filter(slots.subrange(0, i as int)),
            decreases self.header.item_count - i,
        {
            let candidate = Slot::deserialise(&self.buffer, offset);
            proof {
                assert(candidate == slots[i as int]);
                assert(slots.subrange(0, i + 1).drop_last() =~= slots.subrange(0, i as int));
            }
            if candidate.id != 0 {
                alive.push(candidate);
            }
            offset += SLOT_SIZE;
            i += 1;
        }
        assert(slots.subrange(0, slots.len() as int) =~= slots);
        alive
    }

    /// Rewrites the page with only its live records, packed at the end of the page, in
    /// reverse directory order; empties the trash and reseals the checksum.
    fn compact(&mut self) -> (res: Result<(), DbError>)
        requires
            old(self).compactable(),
        ensures
            res is Ok,
            compacted(*old(self), *final(self)),
    {
        let ghost o = *self;
        let ghost slots = self.slots();
        let ghost n = slots.len() as int;
        let mut new_buf = [0u8; PAGE_SIZE];
        let mut hi: usize = 0;
        while hi < PAGE_HEADER_SIZE
            invariant
                hi <= PAGE_HEADER_SIZE,
                self.buffer == o.buffer,
                forall|k: int| 0 <= k < hi ==> #[trigger] new_buf@[k] == o.buffer@[k],
            decreases PAGE_HEADER_SIZE - hi,
        {
            new_buf[hi] = self.buffer[hi];
            hi += 1;
        }
        let mut alive = self.live_slots();
        let ghost alive0 = alive@;
        let ghost len0 = alive0.len() as int;
        proof {
            lemma_live_filter_len(slots);
            lemma_live_filter_from(slots);
            lemma_live_sum_nonneg(slots);
            lemma_sizes_sum_nonneg(alive0);
            assert(alive0.subrange(0, len0) =~= alive0);
            lemma_packed_start(new_buf@, o.buffer@, alive0);
        }
        let n_records = alive.len();
        self.header.item_count = n_records as u16;
        self.header.flags = PageFlags::Dirty;
        self.header.lower = (n_records * SLOT_SIZE + PAGE_HEADER_SIZE) as u16;
        let mut upper: u16 = 8192;
        let mut lower: usize = PAGE_HEADER_SIZE;
        while alive.len() > 0
            invariant
                self.buffer == o.buffer,
                self.trash == o.trash,
                self.header == (PageHeader {
                    flags: PageFlags::Dirty,
                    item_count: len0 as u16,
                    lower: (96 + 10 * len0) as u16,
                    ..o.header
                }),
                o.compactable(),
                slots == o.slots(),
                n == slots.len(),
                alive0 == live_filter(slots),
                len0 == alive0.len(),
                len0 == live_count(slots),
                len0 <= n,
                sizes_sum(alive0) == live_sum(slots),
                forall|p: int| 0 <= p < len0 ==> is_live(#[trigger] alive0[p]),
                forall|p: int| 0 <= p < len0 ==> exists|i: int| 0 <= i < n && slots[i] == #[trigger] alive0[p],
                alive@.len() <= len0,
                alive@ == alive0.subrange(0, alive@.len() as int),
                lower == 96 + 10 * (len0 - alive@.len()),
                upper == PAGE_SIZE - (sizes_sum(alive0) - sizes_sum(alive@)),
                forall|k: int| 0 <= k < 96 ==> #[trigger] new_buf@[k] == o.buffer@[k],
                packed(new_buf@, o.buffer@, alive0, len0 - alive@.len(), upper as int),
            decreases alive@.len(),
        {
            let ghost r = alive@.len() as int;
            let ghost w = len0 - r;
            let ghost before = new_buf@;
            let rec = alive.pop().unwrap();
            proof {
                lemma_sizes_sum_prefix_nonneg(alive0, r);
                assert(rec == alive0[r - 1]);
                assert(alive@ =~= alive0.subrange(0, r - 1));
                let i = choose|i: int| 0 <= i < n && slots[i] == #[trigger] alive0[r - 1];
                assert(o.in_area(slots[i]));
                assert(slots[i].size > 0);
                lemma_sizes_sum_prefix(alive0, r - 1);
                lemma_sizes_sum_prefix_nonneg(alive0, r - 1);
                assert(o.header.upper >= 96 + 10 * n);
            }
            if rec.size == 0 {
                self.header.flags = PageFlags::Corrupted;
                return Err(DbError::CorruptedDataError);
            }
            if rec.offset > PAGE_SIZE as u16 {
                self.header.flags = PageFlags::Corrupted;
                return Err(DbError::CorruptedDataError);
            }
            let new_offset: u16 = upper - rec.size as u16;
            let new_slot = Slot { id: rec.id, offset: new_offset, size: rec.size };
            write_slot(&mut new_buf, lower, new_slot);
            let ghost mid = new_buf@;
            let src = vstd::slice::slice_subrange(
                self.buffer.as_slice(),
                rec.offset as usize,
                rec.offset as usize + rec.size as usize,
            );
            write_bytes(&mut new_buf, new_offset as usize, src);
            proof {
                lemma_packed_step(before, mid, new_buf@, o.buffer@, alive0, w, upper as int, new_slot);
            }
            upper -= rec.size as u16;
            lower += SLOT_SIZE;
        }
        self.buffer = new_buf;
        self.header.upper = upper;
        let ghost pre_seal = *self;
        proof {
            assert(alive@.len() == 0);
            assert(alive0.subrange(0, 0) =~= Seq::<Slot>::empty());
        }
        self.seal();
        self.trash.clear();
        proof {
            reveal(packed);
            let ln = len0 as nat;
            lemma_dir_frame(pre_seal.buffer@, self.buffer@, ln);
            let fs = self.slots();
            assert(fs == dir(new_buf@, ln));
            assert(live_sum(fs) == live_sum(slots));
            assert forall|w: int| 0 <= w < ln implies #[trigger] rec_bytes(self.buffer@, fs[w]) == rec_bytes(
                o.buffer@,
                alive0[len0 - 1 - w],
            ) by {
                let d = fs[w];
                lemma_subrange_agree(new_buf@, self.buffer@, d.offset as int, d.offset + d.size);
            }
            assert forall|w: int| 0 <= w < ln implies #[trigger] fs[w].size > 0 by {
                let p = len0 - 1 - w;
                let i = choose|i: int| 0 <= i < n && slots[i] == #[trigger] alive0[p];
            }
            assert forall|i: int| 0 <= i < fs.len() implies #[trigger] self.in_area(fs[i]) by {}
            assert(self.wf());
            if ids_unique(slots) {
                lemma_live_filter_len(slots);
                assert(reversed_copy(o.buffer@, self.buffer@, fs, alive0));
                lemma_compact_records(o.buffer@, self.buffer@, slots, fs, alive0);
            }
        }
        Ok(())
    }
}

/// A single slot changed (or was appended) to hold `id`, whose bytes are `data`: the record
/// map gains exactly that entry.
proof fn lemma_records_insert(
    b1: Seq<u8>,
    b2: Seq<u8>,
    slots1: Seq<Slot>,
    slots2: Seq<Slot>,
    i: int,
    id: u32,
    data: Seq<u8>,
)
    requires
        ids_unique(slots1),
        id != 0,
        !has_id(slots1, id),
        0 <= i <= slots1.len(),
        slots2.len() == (if i < slots1.len() { slots1.len() } else { slots1.len() + 1 }),
        i < slots1.len() ==> slots1[i].id == 0,
        forall|m: int| 0 <= m < slots1.len() && m != i ==> slots2[m] == slots1[m],
        slots2[i].id == id,
        rec_bytes(b2, slots2[i]) == data,
        forall|m: int|
            0 <= m < slots1.len() && m != i && is_live(slots1[m]) ==> rec_bytes(b2, slots1[m]) == rec_bytes(
                b1,
                slots1[m],
            ),
    ensures
        ids_unique(slots2),
        records_of(b2, slots2) == records_of(b1, slots1).insert(id, data),
{
    assert forall|x: int, y: int|
        0 <= x < slots2.len() && 0 <= y < slots2.len() && x != y && is_live(slots2[x]) implies slots2[x].id
        != slots2[y].id by {
        if x == i {
            assert(slots1[y].id != id);
        } else if y == i {
            assert(slots1[x].id != id);
        } else {
            assert(slots1[x] == slots2[x] && slots1[y] == slots2[y]);
        }
    }
    let m1 = records_of(b1, slots1);
    let m2 = records_of(b2, slots2);
    let e = m1.insert(id, data);
    assert forall|j: u32| #[trigger] m2.contains_key(j) <==> e.contains_key(j) by {
        if j != 0 && j != id {
            if has_id(slots1, j) {
                let m = choose|m: int| 0 <= m < slots1.len() && slots1[m].id == j;
                assert(slots2[m].id == j);
            }
            if has_id(slots2, j) {
                let m = choose|m: int| 0 <= m < slots2.len() && slots2[m].id == j;
                assert(m != i);
                assert(slots1[m].id == j);
            }
        }
        if j == id {
            assert(slots2[i].id == j);
        }
    }
    assert forall|j: u32| #[trigger] m2.contains_key(j) implies m2[j] == e[j] by {
        if j == id {
            lemma_first_slot_unique(slots2, j, i);
        } else {
            let m = choose|m: int| 0 <= m < slots2.len() && slots2[m].id == j;
            assert(m != i);
            assert(slots1[m] == slots2[m]);
            lemma_first_slot_unique(slots2, j, m);
            lemma_first_slot_unique(slots1, j, m);
        }
    }
    assert(m2 =~= e);
}

/// Free space after compaction: the page minus the live records and their slots.
pub open spec fn compacted_free(slots: Seq<Slot>) -> int {
    PAGE_SIZE - live_sum(slots) - (PAGE_HEADER_SIZE + SLOT_SIZE * live_count(slots))
}

/// Some hole in the trash can take `size` bytes.
pub open spec fn hole_fits(trash: Seq<(u16, u32)>, size: int) -> bool {
    exists|k: int| 0 <= k < trash.len() && trash[k].1 >= size
}

/// What `has_space` reports: the slot-area gap, compared modulo 2^16 as the page does,
/// or a hole large enough.
pub open spec fn spec_has_space(p: Page, size: int) -> bool {
    &&& p.header.flags != PageFlags::Corrupted
    &&& ((p.header.upper - p.header.lower) >= (SLOT_SIZE + size) % 65536 || size == 0 || hole_fits(
        p.trash@,
        size,
    ))
}

impl Page {
    /// Whether a record of `size` bytes can go into the page as it is, without compaction.
    pub fn has_space(&self, size: usize) -> (b: bool)
        requires
            self.basic(),
            size + SLOT_SIZE <= u32::MAX,
        ensures
            b == spec_has_space(*self, size as int),
    {
        if matches!(self.header.flags, PageFlags::Corrupted) {
            return false;
        }
        let mut max_trash_size: u32 = 0;
        let mut k: usize = 0;
        while k < self.trash.len()
            invariant
                k <= self.trash@.len(),
                forall|j: int| 0 <= j < k ==> self.trash@[j].1 <= max_trash_size,
                k > 0 ==> exists|j: int| 0 <= j < k && self.trash@[j].1 == max_trash_size,
                k == 0 ==> max_trash_size == 0,
            decreases self.trash@.len() - k,
        {
            if self.trash[k].1 > max_trash_size {
                max_trash_size = self.trash[k].1;
            }
            k += 1;
        }
        let gap: u16 = self.header.upper - self.header.lower;
        let need: u16 = ((SLOT_SIZE + size) % 65536) as u16;
        let has_record_space: bool = (gap >= need) || (max_trash_size >= size as u32);
        proof {
            if hole_fits(self.trash@, size as int) {
                let j = choose|j: int| 0 <= j < self.trash@.len() && self.trash@[j].1 >= size;
                assert(self.trash@[j].1 <= max_trash_size);
            }
            if max_trash_size >= size as u32 && size > 0 {
                let j = choose|j: int| 0 <= j < self.trash@.len() && self.trash@[j].1 == max_trash_size;
            }
        }
        has_record_space
    }

    /// Bytes available to records: the gap between slots and records, plus all holes.
    pub fn free_space(&self) -> (f: u32)
        requires
            self.wf(),
        ensures
            f == (if self.header.flags == PageFlags::Corrupted {
                0
            } else {
                (self.header.upper - self.header.lower) + trash_sum(self.trash@)
            }),
    {
        if matches!(self.header.flags, PageFlags::Corrupted) {
            return 0;
        }
        let mut total_trash_space: u32 = 0;
        let mut k: usize = 0;
        proof {
            lemma_live_sum_nonneg(self.slots());
        }
        while k < self.trash.len()
            invariant
                k <= self.trash@.len(),
                total_trash_space == trash_sum(self.trash@.subrange(0, k as int)),
                trash_sum(self.trash@) <= PAGE_SIZE,
            decreases self.trash@.len() - k,
        {
            proof {
                assert(self.trash@.subrange(0, k + 1).drop_last() =~= self.trash@.subrange(0, k as int));
                lemma_trash_sum_prefix_le(self.trash@, k + 1);
            }
            total_trash_space = total_trash_space + self.trash[k].1;
            k += 1;
        }
        assert(self.trash@.subrange(0, self.trash@.len() as int) =~= self.trash@);
        (self.header.upper - self.header.lower) as u32 + total_trash_space
    }
}

proof fn lemma_trash_sum_prefix_le(t: Seq<(u16, u32)>, k: int)
    requires
        0 <= k <= t.len(),
    ensures
        0 <= trash_sum(t.subrange(0, k)) <= trash_sum(t),
    decreases t.len() - k,
{
    if k == t.len() {
        assert(t.subrange(0, k) =~= t);
        lemma_trash_sum_nonneg(t);
    } else {
        assert(t.subrange(0, k + 1).drop_last() =~= t.subrange(0, k));
        lemma_trash_sum_prefix_le(t, k + 1);
        lemma_trash_sum_nonneg(t.subrange(0, k));
    }
}

/// Reusing trash hole `k` for a record of `new_slot.size > 0` bytes keeps the page well formed.
proof fn lemma_fill_hole_wf(o: Page, p: Page, k: int, new_slot: Slot)
    requires
        o.wf(),
        0 <= k < o.trash@.len(),
        new_slot.offset == o.hole_start(k),
        0 < new_slot.size <= o.trash@[k].1,
        p.header == (PageHeader { flags: p.header.flags, ..o.header }),
        p.slots() == o.slots().update(o.trash_slot(k), new_slot),
        p.trash@ == o.trash@.remove(k),
    ensures
        p.wf(),
{
    let slots = o.slots();
    let s2 = p.slots();
    let t = o.trash@;
    let t2 = p.trash@;
    let i = o.trash_slot(k);
    assert(o.trash_ok(k));
    lemma_live_sum_update(slots, i, new_slot);
    lemma_trash_sum_remove(t, k);
    lemma_trash_sum_ge(t, k);
    let hk = o.hole_start(k);
    let sk = t[k].1 as int;
    // maps an index of the new trash to the old one
    assert forall|k2: int| 0 <= k2 < t2.len() implies t2[k2] == t[if k2 < k { k2 } else { k2 + 1 }] by {}
    assert forall|k2: int| 0 <= k2 < t2.len() implies #[trigger] p.trash_ok(k2) && p.hole_start(k2) == o.hole_start(
        if k2 < k { k2 } else { k2 + 1 },
    ) && o.trash_slot(if k2 < k { k2 } else { k2 + 1 }) != i by {
        let ko = if k2 < k { k2 } else { k2 + 1 };
        assert(o.trash_ok(ko));
        assert(p.trash_slot(k2) == o.trash_slot(ko));
        if o.trash_slot(ko) == i {
            assert(o.hole_start(ko) == hk);
            assert(disjoint(o.hole_start(ko), t[ko].1 as int, hk, sk));
        }
    }
    assert forall|k2: int, m: int|
        0 <= k2 < t2.len() && 0 <= m < s2.len() && is_live(s2[m]) implies disjoint(
        #[trigger] p.hole_start(k2),
        t2[k2].1 as int,
        #[trigger] s2[m].offset as int,
        s2[m].size as int,
    ) by {
        let ko = if k2 < k { k2 } else { k2 + 1 };
        assert(p.trash_ok(k2));
        if m == i {
            assert(disjoint(o.hole_start(ko), t[ko].1 as int, hk, sk));
        } else {
            assert(disjoint(o.hole_start(ko), t[ko].1 as int, slots[m].offset as int, slots[m].size as int));
        }
    }
    assert forall|k1: int, k2: int|
        0 <= k1 < t2.len() && 0 <= k2 < t2.len() && k1 != k2 implies disjoint(
        #[trigger] p.hole_start(k1),
        t2[k1].1 as int,
        #[trigger] p.hole_start(k2),
        t2[k2].1 as int,
    ) by {
        let ko1 = if k1 < k { k1 } else { k1 + 1 };
        let ko2 = if k2 < k { k2 } else { k2 + 1 };
        assert(p.trash_ok(k1));
        assert(p.trash_ok(k2));
        assert(disjoint(o.hole_start(ko1), t[ko1].1 as int, o.hole_start(ko2), t[ko2].1 as int));
    }
    assert forall|m: int| 0 <= m < s2.len() implies #[trigger] p.in_area(s2[m]) by {
        assert(o.in_area(slots[m]));
    }
    assert forall|m: int| 0 <= m < s2.len() && is_live(s2[m]) implies #[trigger] s2[m].size > 0 by {}
    assert forall|x: int, y: int|
        0 <= x < s2.len() && 0 <= y < s2.len() && x != y && is_live(s2[x]) && is_live(s2[y]) implies disjoint(
        #[trigger] s2[x].offset as int,
        s2[x].size as int,
        #[trigger] s2[y].offset as int,
        s2[y].size as int,
    ) by {
        if x == i {
            assert(disjoint(hk, sk, slots[y].offset as int, slots[y].size as int));
        } else if y == i {
            assert(disjoint(hk, sk, slots[x].offset as int, slots[x].size as int));
        } else {
            assert(disjoint(slots[x].offset as int, slots[x].size as int, slots[y].offset as int, slots[y].size as int));
        }
    }
}

/// Appending a record of `new_slot.size > 0` bytes just below `upper` keeps the page well formed.
proof fn lemma_append_wf(o: Page, p: Page, new_slot: Slot)
    requires
        o.wf(),
        new_slot.size > 0,
        o.header.upper - o.header.lower >= SLOT_SIZE + new_slot.size,
        new_slot.offset == o.header.upper - new_slot.size,
        p.header == (PageHeader {
            flags: p.header.flags,
            item_count: (o.header.item_count + 1) as u16,
            lower: (o.header.lower + SLOT_SIZE) as u16,
            upper: new_slot.offset,
            ..o.header
        }),
        p.slots() == o.slots().push(new_slot),
        p.trash@ == o.trash@,
    ensures
        p.wf(),
{
    let slots = o.slots();
    let s2 = p.slots();
    let n = slots.len() as int;
    assert(s2.drop_last() =~= slots);
    lemma_trash_sum_nonneg(o.trash@);
    assert forall|k: int| 0 <= k < p.trash@.len() implies #[trigger] p.trash_ok(k) && p.hole_start(k) == o.hole_start(k) by {
        assert(o.trash_ok(k));
        assert(p.trash_slot(k) == o.trash_slot(k));
        assert(s2[o.trash_slot(k)] == slots[o.trash_slot(k)]);
    }
    assert forall|k: int, m: int|
        0 <= k < p.trash@.len() && 0 <= m < s2.len() && is_live(s2[m]) implies disjoint(
        #[trigger] p.hole_start(k),
        p.trash@[k].1 as int,
        #[trigger] s2[m].offset as int,
        s2[m].size as int,
    ) by {
        assert(p.trash_ok(k));
        assert(o.trash_ok(k));
        if m < n {
            assert(disjoint(o.hole_start(k), o.trash@[k].1 as int, slots[m].offset as int, slots[m].size as int));
        } else {
            assert(s2[m] == new_slot);
            assert(o.hole_start(k) >= o.header.upper);
        }
    }
    assert forall|k1: int, k2: int|
        0 <= k1 < p.trash@.len() && 0 <= k2 < p.trash@.len() && k1 != k2 implies disjoint(
        #[trigger] p.hole_start(k1),
        p.trash@[k1].1 as int,
        #[trigger] p.hole_start(k2),
        p.trash@[k2].1 as int,
    ) by {
        assert(p.trash_ok(k1));
        assert(p.trash_ok(k2));
        assert(disjoint(o.hole_start(k1), o.trash@[k1].1 as int, o.hole_start(k2), o.trash@[k2].1 as int));
    }
    assert forall|m: int| 0 <= m < s2.len() implies #[trigger] p.in_area(s2[m]) by {
        if m < n {
            assert(o.in_area(slots[m]));
        }
    }
    assert forall|m: int| 0 <= m < s2.len() && is_live(s2[m]) implies #[trigger] s2[m].size > 0 by {}
    assert forall|x: int, y: int|
        0 <= x < s2.len() && 0 <= y < s2.len() && x != y && is_live(s2[x]) && is_live(s2[y]) implies disjoint(
        #[trigger] s2[x].offset as int,
        s2[x].size as int,
        #[trigger] s2[y].offset as int,
        s2[y].size as int,
    ) by {
        if x < n && y < n {
            assert(disjoint(slots[x].offset as int, slots[x].size as int, slots[y].offset as int, slots[y].size as int));
        } else if x < n {
            assert(o.in_area(slots[x]));
        } else {
            assert(o.in_area(slots[y]));
        }
    }
}

/// The page `c` that compacting `o` leaves: only the live records, packed at the end of the
/// page (their bytes and ids kept), no trash, a dirty header counting the live slots, and
/// a fresh checksum.
pub open spec fn compacted(o: Page, c: Page) -> bool {
    &&& c.wf()
    &&& c.trash@.len() == 0
    &&& c.header == (PageHeader {
        flags: PageFlags::Dirty,
        item_count: live_count(o.slots()) as u16,
        lower: (PAGE_HEADER_SIZE + SLOT_SIZE * live_count(o.slots())) as u16,
        upper: (PAGE_SIZE - live_sum(o.slots())) as u16,
        checksum: c.header.checksum,
        ..o.header
    })
    &&& c.sealed()
    &&& ids_unique(o.slots()) ==> ids_unique(c.slots()) && c@ == o@
    &&& forall|i: int| 0 <= i < c.slots().len() ==> is_live(#[trigger] c.slots()[i])
    &&& live_sum(c.slots()) == live_sum(o.slots())
}

/// Index of the last hole of `trash` that takes `size` bytes, or `-1` if none does.
pub open spec fn last_fit(trash: Seq<(u16, u32)>, size: int) -> int
    decreases trash.len(),
{
    if trash.len() == 0 {
        -1
    } else if trash.last().1 >= size {
        trash.len() - 1
    } else {
        last_fit(trash.drop_last(), size)
    }
}

/// The page `f` that putting record `id` with bytes `data` into hole `k` of `o` leaves:
/// the hole's dead slot now names the record at the hole's start, the hole leaves the
/// trash, the record's bytes start there, and the header is only marked dirty.
pub open spec fn filled(o: Page, f: Page, k: int, id: u32, data: Seq<u8>) -> bool {
    let s = Slot { id, offset: o.hole_start(k) as u16, size: data.len() as u32 };
    let at = o.trash@[k].0 as int;
    &&& f.header == (PageHeader { flags: PageFlags::Dirty, ..o.header })
    &&& f.slots() == o.slots().update(o.trash_slot(k), s)
    &&& f.trash@ == o.trash@.remove(k)
    &&& f.buffer@.subrange(at, at + SLOT_SIZE) == slot_bytes(s)
    &&& rec_bytes(f.buffer@, s) == data
}

/// The page `f` that appending record `id` with bytes `data` to `p` leaves: the bytes go
/// just below the record area, a slot naming them is added at the end of the directory,
/// `upper` drops by the size, `lower` and the slot count grow by one slot, the header is
/// marked dirty and the trash is kept.
pub open spec fn appended(p: Page, f: Page, id: u32, data: Seq<u8>) -> bool {
    let s = Slot { id, offset: (p.header.upper - data.len()) as u16, size: data.len() as u32 };
    &&& f.header == (PageHeader {
        flags: PageFlags::Dirty,
        item_count: (p.header.item_count + 1) as u16,
        lower: (p.header.lower + SLOT_SIZE) as u16,
        upper: (p.header.upper - data.len()) as u16,
        ..p.header
    })
    &&& f.slots() == p.slots().push(s)
    &&& f.trash@ == p.trash@
    &&& f.buffer@.subrange(p.header.lower as int, p.header.lower + SLOT_SIZE) == slot_bytes(s)
    &&& rec_bytes(f.buffer@, s) == data
}

/// What `write_record` of `data` under `id` does to a page `o` that is not corrupted.
/// When `has_space` says yes: into the last hole that fits, if one does; else appended if
/// the gap between slots and records takes the slot and the bytes; else `SpaceOver` with
/// the page unchanged. When it says no: the page is compacted, then the record appended
/// if the gap now takes it; else `SpaceOver`, the page left compacted.
pub open spec fn written(o: Page, f: Page, id: u32, data: Seq<u8>, res: Result<usize, DbError>) -> bool {
    let size = data.len() as int;
    if spec_has_space(o, size) {
        let k = last_fit(o.trash@, size);
        if k >= 0 {
            res == Ok::<usize, DbError>(size as usize) && filled(o, f, k, id, data)
        } else if o.header.upper - o.header.lower >= SLOT_SIZE + size {
            res == Ok::<usize, DbError>(size as usize) && appended(o, f, id, data)
        } else {
            res == Err::<usize, DbError>(DbError::SpaceOver) && f == o
        }
    } else if compacted_free(o.slots()) >= SLOT_SIZE + size {
        res == Ok::<usize, DbError>(size as usize) && exists|c: Page| #[trigger] compacted(o, c) && appended(c, f, id, data)
    } else {
        res == Err::<usize, DbError>(DbError::SpaceOver) && compacted(o, f)
    }
}

/// `last_fit` finds hole `idx` when it fits and no later hole does, and no hole when none
/// fits.
proof fn lemma_last_fit(t: Seq<(u16, u32)>, size: int, idx: int)
    requires
        -1 <= idx < t.len(),
        idx >= 0 ==> t[idx].1 >= size,
        forall|j: int| idx < j < t.len() ==> t[j].1 < size,
    ensures
        last_fit(t, size) == idx,
    decreases t.len(),
{
    if t.len() > 0 && idx < t.len() - 1 {
        let d = t.drop_last();
        assert forall|j: int| idx < j < d.len() implies d[j].1 < size by {
            assert(d[j] == t[j]);
        }
        if idx >= 0 {
            assert(d[idx] == t[idx]);
        }
        lemma_last_fit(d, size, idx);
    }
}

/// Whether `write_record` of `size` bytes succeeds on page `p`: without compaction when
/// `has_space` says so (a hole, or room between slots and records), else after compaction.
pub open spec fn write_succeeds(p: Page, size: int) -> bool {
    if spec_has_space(p, size) {
        hole_fits(p.trash@, size) || p.header.upper - p.header.lower >= SLOT_SIZE + size
    } else {
        compacted_free(p.slots()) >= SLOT_SIZE + size
    }
}

impl Page {
    /// Puts a record into the hole that trash entry `k` stands for, reusing its slot.
    fn fill_hole(&mut self, k: usize, record_id: u32, buf: &[u8], size: usize)
        requires
            old(self).wf(),
            k < old(self).trash@.len(),
            old(self).trash@[k as int].1 >= size,
            buf@.len() == size,
        ensures
            final(self).header == (PageHeader { flags: PageFlags::Dirty, ..old(self).header }),
            final(self).slots() == old(self).slots().update(
                old(self).trash_slot(k as int),
                (Slot { id: record_id, offset: old(self).hole_start(k as int) as u16, size: size as u32 }),
            ),
            final(self).trash@ == old(self).trash@.remove(k as int),
            filled(*old(self), *final(self), k as int, record_id, buf@),
            size > 0 ==> final(self).wf(),
            ids_unique(old(self).slots()) && record_id != 0 && !old(self)@.contains_key(record_id) ==> ids_unique(
                final(self).slots(),
            ) && final(self)@ == old(self)@.insert(record_id, buf@),
    {
        let ghost o = *self;
        let ghost slots = self.slots();
        let ghost i = o.trash_slot(k as int);
        proof {
            assert(o.trash_ok(k as int));
            assert(o.in_area(slots[i]));
        }
        let (slot_offset, _hole) = self.trash[k];
        self.trash.remove(k);
        let slot = Slot::deserialise(&self.buffer, slot_offset as usize);
        assert(slot == slots[i]);
        let new_slot = Slot { id: record_id, offset: slot.offset, size: size as u32 };
        write_slot(&mut self.buffer, slot_offset as usize, new_slot);
        let ghost b1 = self.buffer@;
        write_bytes(&mut self.buffer, slot.offset as usize, buf);
        self.header.flags = PageFlags::Dirty;
        proof {
            let at = slot_offset as int;
            assert(at - 96 == 10 * i);
            assert(at + 10 <= o.header.lower);
            lemma_slot_bytes(new_slot);
            assert(b1.subrange(at, at + 10) =~= slot_bytes(new_slot));
            assert(self.buffer@.subrange(at, at + 10) =~= b1.subrange(at, at + 10));
            assert(rec_bytes(self.buffer@, new_slot) =~= buf@);
            let n = slots.len() as nat;
            lemma_dir_write(o.buffer@, n, i, new_slot);
            lemma_dir_frame(b1, self.buffer@, n);
            assert(self.slots() == slots.update(i, new_slot));
            if size > 0 {
                lemma_fill_hole_wf(o, *self, k as int, new_slot);
            }
            if ids_unique(slots) && record_id != 0 && !o@.contains_key(record_id) {
                lemma_slot_bytes(new_slot);
                assert(rec_bytes(self.buffer@, new_slot) =~= buf@);
                assert forall|m: int|
                    0 <= m < slots.len() && m != i && is_live(slots[m]) implies rec_bytes(self.buffer@, slots[m])
                    == rec_bytes(o.buffer@, slots[m]) by {
                    let sm = slots[m];
                    assert(o.in_area(sm));
                    assert(disjoint(o.hole_start(k as int), o.trash@[k as int].1 as int, sm.offset as int, sm.size as int));
                    lemma_subrange_agree(o.buffer@, self.buffer@, sm.offset as int, sm.offset + sm.size);
                }
                lemma_records_insert(o.buffer@, self.buffer@, slots, self.slots(), i, record_id, buf@);
            }
        }
    }

    /// Puts a record just below the record area and appends its slot to the directory.
    fn append_record(&mut self, record_id: u32, buf: &[u8], size: usize)
        requires
            old(self).wf(),
            old(self).header.upper - old(self).header.lower >= SLOT_SIZE + size,
            buf@.len() == size,
        ensures
            final(self).header == (PageHeader {
                flags: PageFlags::Dirty,
                item_count: (old(self).header.item_count + 1) as u16,
                lower: (old(self).header.lower + SLOT_SIZE) as u16,
                upper: (old(self).header.upper - size) as u16,
                ..old(self).header
            }),
            final(self).slots() == old(self).slots().push(
                (Slot { id: record_id, offset: (old(self).header.upper - size) as u16, size: size as u32 }),
            ),
            final(self).trash == old(self).trash,
            appended(*old(self), *final(self), record_id, buf@),
            size > 0 ==> final(self).wf(),
            ids_unique(old(self).slots()) && record_id != 0 && !old(self)@.contains_key(record_id) ==> ids_unique(
                final(self).slots(),
            ) && final(self)@ == old(self)@.insert(record_id, buf@),
    {
        let ghost o = *self;
        let ghost slots = self.slots();
        let up = self.header.upper as usize;
        write_bytes(&mut self.buffer, up - size, buf);
        let ghost b1 = self.buffer@;
        self.header.upper -= size as u16;
        let new_slot = Slot { id: record_id, offset: self.header.upper, size: size as u32 };
        write_slot(&mut self.buffer, self.header.lower as usize, new_slot);
        self.header.item_count += 1;
        self.header.lower += SLOT_SIZE as u16;
        self.header.flags = PageFlags::Dirty;
        proof {
            let lo = o.header.lower as int;
            lemma_slot_bytes(new_slot);
            assert(self.buffer@.subrange(lo, lo + 10) =~= slot_bytes(new_slot));
            assert(rec_bytes(self.buffer@, new_slot) =~= rec_bytes(b1, new_slot));
            assert(rec_bytes(b1, new_slot) =~= buf@);
            let n = slots.len() as nat;
            lemma_dir_frame(o.buffer@, b1, n);
            lemma_dir_write(b1, n, n as int, new_slot);
            assert(self.slots() == slots.push(new_slot));
            if size > 0 {
                lemma_append_wf(o, *self, new_slot);
            }
            if ids_unique(slots) && record_id != 0 && !o@.contains_key(record_id) {
                lemma_slot_bytes(new_slot);
                assert(rec_bytes(self.buffer@, new_slot) =~= buf@);
                assert forall|m: int|
                    0 <= m < slots.len() && is_live(slots[m]) implies rec_bytes(self.buffer@, slots[m]) == rec_bytes(
                    o.buffer@,
                    slots[m],
                ) by {
                    let sm = slots[m];
                    assert(o.in_area(sm));
                    lemma_subrange_agree(o.buffer@, self.buffer@, sm.offset as int, sm.offset + sm.size);
                }
                lemma_records_insert(o.buffer@, self.buffer@, slots, self.slots(), n as int, record_id, buf@);
            }
        }
    }

    /// Stores a record of `size` bytes under `record_id`: in the last trash hole that fits,
    /// else below the record area, compacting the page first when `has_space` says no.
    /// Returns the size written, or `SpaceOver` when the record does not fit.
    pub fn write_record(&mut self, record_id: u32, buf: &[u8], size: usize) -> (res: Result<usize, DbError>)
        requires
            old(self).wf(),
            buf@.len() == size,
            size + SLOT_SIZE <= u32::MAX,
        ensures
            old(self).header.flags == PageFlags::Corrupted ==> res == Err::<usize, DbError>(DbError::PageCorrupted)
                && *final(self) == *old(self),
            old(self).header.flags != PageFlags::Corrupted ==> (res is Ok <==> write_succeeds(*old(self), size as int)),
            old(self).header.flags != PageFlags::Corrupted ==> written(*old(self), *final(self), record_id, buf@, res),
            old(self).header.flags != PageFlags::Corrupted && res is Err ==> res == Err::<usize, DbError>(
                DbError::SpaceOver,
            ),
            res is Ok ==> res == Ok::<usize, DbError>(size) && final(self).header.flags == PageFlags::Dirty,
            size > 0 ==> final(self).wf(),
            ids_unique(old(self).slots()) && size > 0 && record_id != 0 && !old(self)@.contains_key(record_id)
                ==> ids_unique(final(self).slots()) && final(self)@ == (if res is Ok {
                old(self)@.insert(record_id, buf@)
            } else {
                old(self)@
            }),
            final(self).header.page_id == old(self).header.page_id,
            final(self).header.page_type == old(self).header.page_type,
            final(self).header.lsn == old(self).header.lsn,
            final(self).header.magic == old(self).header.magic,
    {
        if matches!(self.header.flags, PageFlags::Corrupted) {
            return Err(DbError::PageCorrupted);
        }
        let ghost o = *self;
        proof {
            lemma_trash_sum_nonneg(self.trash@);
            lemma_live_sum_nonneg(self.slots());
        }
        let roomy = self.has_space(size);
        if !roomy {
            self.compact()?;
            proof {
                lemma_live_sum_nonneg(o.slots());
            }
            if !self.has_space(size) {
                return Err(DbError::SpaceOver);
            }
        }
        let ghost c0 = *self;
        proof {
            if roomy {
                assert(c0 == o);
            } else {
                assert(compacted(o, c0));
                assert(c0.trash@.len() == 0);
            }
        }
        if !self.trash.is_empty() {
            let mut idx: usize = self.trash.len();
            let mut found = false;
            while idx > 0
                invariant_except_break
                    !found,
                    forall|j: int| idx <= j < self.trash@.len() ==> self.trash@[j].1 < size,
                invariant
                    idx <= self.trash@.len(),
                ensures
                    found ==> idx < self.trash@.len() && self.trash@[idx as int].1 >= size,
                    found ==> forall|j: int| idx < j < self.trash@.len() ==> self.trash@[j].1 < size,
                    !found ==> forall|j: int| 0 <= j < self.trash@.len() ==> self.trash@[j].1 < size,
                decreases idx,
            {
                idx -= 1;
                if self.trash[idx].1 as usize >= size {
                    found = true;
                    break;
                }
            }
            if found {
                proof {
                    lemma_last_fit(self.trash@, size as int, idx as int);
                }
                self.fill_hole(idx, record_id, buf, size);
                return Ok(size);
            }
        }
        proof {
            lemma_last_fit(self.trash@, size as int, -1);
        }
        let free_space: u16 = self.header.upper - self.header.lower;
        if (free_space as u32) < SLOT_SIZE as u32 + size as u32 {
            return Err(DbError::SpaceOver);
        }
        self.append_record(record_id, buf, size);
        proof {
            if !roomy {
                assert(compacted(o, c0) && appended(c0, *self, record_id, buf@));
            }
        }
        Ok(size)
    }
}

proof fn lemma_live_count_all_live(s: Seq<Slot>)
    requires
        forall|i: int| 0 <= i < s.len() ==> is_live(#[trigger] s[i]),
    ensures
        live_count(s) == s.len(),
    decreases s.len(),
{
    if s.len() > 0 {
        lemma_live_count_all_live(s.drop_last());
    }
}

impl Page {
    /// Replaces the bytes of a record. In place when the new bytes fit in the old slot;
    /// otherwise the record is deleted, the page compacted, and the bytes written anew, so
    /// that a `SpaceOver` leaves the record deleted.
    pub fn update_record(&mut self, record_id: u32, buf: &[u8], size: usize) -> (res: Result<usize, DbError>)
        requires
            old(self).wf(),
            buf@.len() == size,
            size + SLOT_SIZE <= u32::MAX,
        ensures
            ({
                let o = old(self);
                let f = first_slot(o.slots(), record_id);
                let s = o.slots()[f];
                if o.header.flags == PageFlags::Corrupted {
                    res == Err::<usize, DbError>(DbError::PageCorrupted) && *final(self) == *o
                } else if f >= o.slots().len() || s.size == 0 {
                    res == Err::<usize, DbError>(DbError::RecordAbsent) && *final(self) == *o
                } else if s.size >= size {
                    &&& res == Ok::<usize, DbError>(size)
                    &&& final(self).header == (PageHeader { flags: PageFlags::Dirty, ..o.header })
                    &&& final(self).slots() == o.slots().update(f, (Slot { size: size as u32, ..s }))
                    &&& final(self).trash == o.trash
                    &&& rec_bytes(final(self).buffer@, final(self).slots()[f]) == buf@
                } else {
                    &&& (res is Ok <==> compacted_free(o.slots().update(f, (Slot { id: 0, ..s }))) >= SLOT_SIZE
                        + size)
                    &&& res is Ok ==> res == Ok::<usize, DbError>(size)
                    &&& res is Err ==> res == Err::<usize, DbError>(DbError::SpaceOver)
                }
            }),
            record_id != 0 && size > 0 ==> final(self).wf(),
            record_id != 0 && ids_unique(old(self).slots()) ==> ids_unique(final(self).slots()) && final(self)@
                == (if res is Ok {
                old(self)@.insert(record_id, buf@)
            } else if res == Err::<usize, DbError>(DbError::SpaceOver) {
                old(self)@.remove(record_id)
            } else {
                old(self)@
            }),
            res == Err::<usize, DbError>(DbError::RecordAbsent) && record_id != 0 ==> !old(self)@.contains_key(
                record_id,
            ),
            old(self).header.flags != PageFlags::Corrupted && (res is Ok || res == Err::<usize, DbError>(
                DbError::SpaceOver,
            )) ==> final(self).header.flags == PageFlags::Dirty,
            final(self).header.page_id == old(self).header.page_id,
            final(self).header.page_type == old(self).header.page_type,
            final(self).header.lsn == old(self).header.lsn,
            final(self).header.magic == old(self).header.magic,
    {
        proof {
            lemma_first_slot(self.slots(), record_id);
        }
        if matches!(self.header.flags, PageFlags::Corrupted) {
            return Err(DbError::PageCorrupted);
        }
        let ghost o = *self;
        let ghost slots = self.slots();
        let (offset, slot) = match self.find_slot(record_id) {
            Some(found) => found,
            None => return Err(DbError::RecordAbsent),
        };
        let ghost f = first_slot(slots, record_id);
        proof {
            assert(o.in_area(slots[f]));
        }
        if slot.size == 0 {
            return Err(DbError::RecordAbsent);
        }
        if slot.size >= size as u32 {
            write_bytes(&mut self.buffer, slot.offset as usize, buf);
            let ghost b1 = self.buffer@;
            let new_slot = Slot { id: slot.id, offset: slot.offset, size: size as u32 };
            write_slot(&mut self.buffer, offset, new_slot);
            self.header.flags = PageFlags::Dirty;
            proof {
                let n = slots.len() as nat;
                lemma_dir_frame(o.buffer@, b1, n);
                lemma_dir_write(b1, n, f, new_slot);
                let s2 = self.slots();
                assert(s2 == slots.update(f, new_slot));
                lemma_slot_bytes(new_slot);
                assert forall|k: int| new_slot.offset <= k < new_slot.offset + new_slot.size implies self.buffer@[k]
                    == b1[k] by {}
                lemma_subrange_agree(b1, self.buffer@, new_slot.offset as int, new_slot.offset + new_slot.size);
                assert(rec_bytes(b1, new_slot) =~= buf@);
                if record_id != 0 {
                    lemma_update_in_place(o, *self, f, new_slot, buf@);
                }
            }
            return Ok(size);
        }
        let ghost dead = Slot { id: 0, ..slots[f] };
        self.delete_record(record_id)?;
        proof {
            let p1 = *self;
            assert(p1.slots() == slots.update(f, dead));
            lemma_live_sum_update(slots, f, dead);
            lemma_trash_sum_nonneg(o.trash@);
            lemma_live_sum_nonneg(slots);
            assert forall|i: int| 0 <= i < p1.slots().len() implies #[trigger] p1.in_area(p1.slots()[i]) by {
                assert(o.in_area(slots[i]));
            }
            assert(p1.compactable());
        }
        let ghost p1 = *self;
        self.compact()?;
        proof {
            let s2 = self.slots();
            lemma_live_count_all_live(s2);
            lemma_live_sum_nonneg(s2);
            assert(compacted_free(s2) == self.header.upper - self.header.lower);
            assert(self.trash@.len() == 0);
            assert(!hole_fits(self.trash@, size as int));
        }
        self.write_record(record_id, buf, size)
    }
}

/// Rewriting a live record in place keeps the page well formed and updates its entry.
proof fn lemma_update_in_place(o: Page, p: Page, f: int, new_slot: Slot, data: Seq<u8>)
    requires
        o.wf(),
        0 <= f < o.slots().len(),
        is_live(o.slots()[f]),
        new_slot == (Slot { size: new_slot.size, ..o.slots()[f] }),
        new_slot.size <= o.slots()[f].size,
        p.header == (PageHeader { flags: p.header.flags, ..o.header }),
        p.slots() == o.slots().update(f, new_slot),
        p.trash == o.trash,
        rec_bytes(p.buffer@, new_slot) == data,
        forall|k: int|
            0 <= k < PAGE_SIZE && !(o.slots()[f].offset <= k < o.slots()[f].offset + o.slots()[f].size) && !(
            slot_pos(f) <= k < slot_pos(f) + 10) ==> p.buffer@[k] == o.buffer@[k],
    ensures
        new_slot.size > 0 ==> p.wf(),
        ids_unique(o.slots()) ==> ids_unique(p.slots()) && p@ == o@.insert(new_slot.id, data),
{
    let slots = o.slots();
    let s2 = p.slots();
    let sf = slots[f];
    lemma_live_sum_update(slots, f, new_slot);
    assert(o.in_area(sf));
    assert forall|k: int| 0 <= k < p.trash@.len() implies #[trigger] p.trash_ok(k) && p.hole_start(k) == o.hole_start(k) by {
        assert(o.trash_ok(k));
        assert(p.trash_slot(k) == o.trash_slot(k));
    }
    if new_slot.size > 0 {
        assert forall|k: int, m: int|
            0 <= k < p.trash@.len() && 0 <= m < s2.len() && is_live(s2[m]) implies disjoint(
            #[trigger] p.hole_start(k),
            p.trash@[k].1 as int,
            #[trigger] s2[m].offset as int,
            s2[m].size as int,
        ) by {
            assert(p.trash_ok(k));
            assert(disjoint(o.hole_start(k), o.trash@[k].1 as int, slots[m].offset as int, slots[m].size as int));
        }
        assert forall|k1: int, k2: int|
            0 <= k1 < p.trash@.len() && 0 <= k2 < p.trash@.len() && k1 != k2 implies disjoint(
            #[trigger] p.hole_start(k1),
            p.trash@[k1].1 as int,
            #[trigger] p.hole_start(k2),
            p.trash@[k2].1 as int,
        ) by {
            assert(p.trash_ok(k1));
            assert(p.trash_ok(k2));
            assert(disjoint(o.hole_start(k1), o.trash@[k1].1 as int, o.hole_start(k2), o.trash@[k2].1 as int));
        }
        assert forall|m: int| 0 <= m < s2.len() implies #[trigger] p.in_area(s2[m]) by {
            assert(o.in_area(slots[m]));
        }
        assert forall|x: int, y: int|
            0 <= x < s2.len() && 0 <= y < s2.len() && x != y && is_live(s2[x]) && is_live(s2[y]) implies disjoint(
            #[trigger] s2[x].offset as int,
            s2[x].size as int,
            #[trigger] s2[y].offset as int,
            s2[y].size as int,
        ) by {
            assert(disjoint(slots[x].offset as int, slots[x].size as int, slots[y].offset as int, slots[y].size as int));
        }
    }
    if ids_unique(slots) {
        assert forall|x: int, y: int|
            0 <= x < s2.len() && 0 <= y < s2.len() && x != y && is_live(s2[x]) implies s2[x].id != s2[y].id by {
            assert(slots[x].id == s2[x].id && slots[y].id == s2[y].id);
        }
        let m1 = o@;
        let m2 = p@;
        let e = m1.insert(new_slot.id, data);
        assert forall|j: u32| #[trigger] m2.contains_key(j) <==> e.contains_key(j) by {
            if has_id(slots, j) {
                let m = choose|m: int| 0 <= m < slots.len() && slots[m].id == j;
                assert(s2[m].id == j);
            }
            if has_id(s2, j) {
                let m = choose|m: int| 0 <= m < s2.len() && s2[m].id == j;
                assert(slots[m].id == j);
            }
            if j == new_slot.id {
                assert(s2[f].id == j);
            }
        }
        assert forall|j: u32| #[trigger] m2.contains_key(j) implies m2[j] == e[j] by {
            let m = choose|m: int| 0 <= m < s2.len() && s2[m].id == j;
            lemma_first_slot_unique(s2, j, m);
            lemma_first_slot_unique(slots, j, m);
            if m != f {
                let sm = slots[m];
                assert(o.in_area(sm));
                assert(disjoint(sm.offset as int, sm.size as int, sf.offset as int, sf.size as int));
                lemma_subrange_agree(o.buffer@, p.buffer@, sm.offset as int, sm.offset + sm.size);
            }
        }
        assert(m2 =~= e);
    }
}

/// The checksum stored in bytes 24..28 of a page.
pub open spec fn stored_checksum(b: Seq<u8>) -> u32 {
    spec_u32_from_le_bytes(b.subrange(24, 28))
}

impl Page {
    /// Whether the checksum stored in the page matches the CRC-32 of the page taken with
    /// the checksum field zeroed. The page is left as it was.
    fn check_checksum(buf: &mut [u8; PAGE_SIZE]) -> (ok: bool)
        ensures
            final(buf)@ == old(buf)@,
            ok == (stored_checksum(old(buf)@) == spec_crc32(spliced(old(buf)@, 24, zeros(4)))),
    {
        let ghost b0 = buf@;
        let file_checksum = read_u32(buf.as_slice(), 24);
        let zero_bytes: Vec<u8> = vec![0u8; 4];
        assert(zero_bytes@ =~= zeros(4));
        write_bytes(buf, 24, zero_bytes.as_slice());
        let calc_checksum: u32 = crc32(buf.as_slice());
        let f_chk_bytes = u32_to_le_bytes(file_checksum);
        write_bytes(buf, 24, f_chk_bytes.as_slice());
        proof {
            lemma_auto_spec_u32_to_from_le_bytes();
            assert(spec_u32_to_le_bytes(file_checksum) == b0.subrange(24, 28));
            assert(buf@ =~= b0);
        }
        file_checksum == calc_checksum
    }

    /// A page made of a header and raw bytes: the CRC-32 of the bytes becomes the header's
    /// checksum and is written into bytes 24..28. The trash starts empty.
    pub fn new(head: PageHeader, buf: [u8; PAGE_SIZE]) -> (page: Self)
        ensures
            page.header == (PageHeader { checksum: spec_crc32(buf@), ..head }),
            page.buffer@ == spliced(buf@, 24, spec_u32_to_le_bytes(spec_crc32(buf@))),
            page.trash@.len() == 0,
            head.item_count == 0 && head.lower == PAGE_HEADER_SIZE && PAGE_HEADER_SIZE <= head.upper <= PAGE_SIZE
                ==> page.wf() && page@ == Map::<u32, Seq<u8>>::empty(),
    {
        let trash: Vec<(u16, u32)> = Vec::new();
        let chks: u32 = crc32(buf.as_slice());
        let mut page = Self { header: head, buffer: buf, trash };
        page.header.checksum = chks;
        let chks_bytes = u32_to_le_bytes(chks);
        write_bytes(&mut page.buffer, 24, chks_bytes.as_slice());
        proof {
            if head.item_count == 0 {
                assert(page.slots() =~= Seq::<Slot>::empty());
                assert(page@ =~= Map::<u32, Seq<u8>>::empty());
            }
        }
        page
    }
}

/// On a well-formed page with unique live ids, reading a record gives exactly what the
/// record map holds for its id, and `RecordAbsent` for every other id.
pub proof fn lemma_read_view(p: Page, id: u32)
    requires
        p.wf(),
        ids_unique(p.slots()),
        p.header.flags != PageFlags::Corrupted,
    ensures
        read_outcome(p.header.flags, p.header.upper, p.buffer@, p.slots(), id) == (if p@.contains_key(id) {
            (Ok::<Seq<u8>, DbError>(p@[id]), false)
        } else {
            (Err::<Seq<u8>, DbError>(DbError::RecordAbsent), false)
        }),
{
    let slots = p.slots();
    lemma_first_slot(slots, id);
    let f = first_slot(slots, id);
    if f < slots.len() {
        assert(p.in_area(slots[f]));
        if id != 0 {
            assert(slots[f].size > 0);
        }
    }
}

/// A successful `delete_record` of `id` frees exactly the record's bytes: the free space
/// that `free_space` reports grows by the size of the record that `read_record` gave, and
/// the slot count and the bounds of the slot and record areas stay as they were.
pub proof fn law_delete_frees_space(before: Page, after: Page, id: u32, v: Seq<u8>)
    requires
        before.wf(),
        before.header.flags != PageFlags::Corrupted,
        first_slot(before.slots(), id) < before.slots().len(),
        read_outcome(before.header.flags, before.header.upper, before.buffer@, before.slots(), id).0 == Ok::<
            Seq<u8>,
            DbError,
        >(v),
        after.header == (PageHeader { flags: PageFlags::Dirty, ..before.header }),
        after.trash@ == before.trash@.push(
            (
                slot_pos(first_slot(before.slots(), id)) as u16,
                before.slots()[first_slot(before.slots(), id)].size,
            ),
        ),
    ensures
        after.header.item_count == before.header.item_count,
        after.header.lower == before.header.lower,
        after.header.upper == before.header.upper,
        (after.header.upper - after.header.lower) + trash_sum(after.trash@) == (before.header.upper
            - before.header.lower) + trash_sum(before.trash@) + v.len(),
{
    let f = first_slot(before.slots(), id);
    assert(after.trash@.drop_last() =~= before.trash@);
    assert(before.in_area(before.slots()[f]));
}

/// A record read back after a successful write is what was written, and every other
/// record reads as before.
pub proof fn law_read_after_write(before: Page, after: Page, id: u32, data: Seq<u8>, other: u32)
    requires
        before.wf(),
        after.wf(),
        ids_unique(before.slots()),
        ids_unique(after.slots()),
        after@ == before@.insert(id, data),
        id != 0,
        other != id,
        before.header.flags != PageFlags::Corrupted,
        after.header.flags != PageFlags::Corrupted,
    ensures
        read_outcome(after.header.flags, after.header.upper, after.buffer@, after.slots(), id).0 == Ok::<
            Seq<u8>,
            DbError,
        >(data),
        read_outcome(after.header.flags, after.header.upper, after.buffer@, after.slots(), other).0
            == read_outcome(before.header.flags, before.header.upper, before.buffer@, before.slots(), other).0,
{
    lemma_read_view(before, id);
    lemma_read_view(after, id);
    lemma_read_view(before, other);
    lemma_read_view(after, other);
}

/// After a successful delete the record reads as absent, and every other record reads
/// as before.
pub proof fn law_read_after_delete(before: Page, after: Page, id: u32, other: u32)
    requires
        before.wf(),
        after.wf(),
        ids_unique(before.slots()),
        ids_unique(after.slots()),
        after@ == before@.remove(id),
        other != id,
        before.header.flags != PageFlags::Corrupted,
        after.header.flags != PageFlags::Corrupted,
    ensures
        read_outcome(after.header.flags, after.header.upper, after.buffer@, after.slots(), id).0 == Err::<
            Seq<u8>,
            DbError,
        >(DbError::RecordAbsent),
        read_outcome(after.header.flags, after.header.upper, after.buffer@, after.slots(), other).0
            == read_outcome(before.header.flags, before.header.upper, before.buffer@, before.slots(), other).0,
{
    lemma_read_view(before, id);
    lemma_read_view(after, id);
    lemma_read_view(before, other);
    lemma_read_view(after, other);
}

/// How many slot positions a load scans: those that start below `lower`.
pub open spec fn scan_count(lower: u16) -> nat {
    if lower <= 96 {
        0
    } else {
        ((lower - 96 + 9) / 10) as nat
    }
}

/// The holes a load finds among the first `n` slot positions of `b`: every slot whose id
/// is zero, with its byte position and size, in directory order.
pub open spec fn scanned_trash(b: Seq<u8>, n: nat) -> Seq<(u16, u32)>
    decreases n,
{
    if n == 0 {
        Seq::empty()
    } else {
        let p = slot_pos(n - 1);
        let s = slot_at(b, p);
        scanned_trash(b, (n - 1) as nat) + if s.id == 0 {
            seq![(p as u16, s.size)]
        } else {
            Seq::empty()
        }
    }
}

/// The page's checksum field matches the CRC-32 of the page with that field zeroed.
pub open spec fn checksum_ok(b: Seq<u8>) -> bool {
    stored_checksum(b) == spec_crc32(spliced(b, 24, zeros(4)))
}

/// The lower bound stored in a page's header.
pub open spec fn stored_lower(b: Seq<u8>) -> u16 {
    spec_u16_from_le_bytes(b.subrange(30, 32))
}

/// Loading `b` gets as far as scanning the slot directory: the header decodes, the page is
/// not marked corrupted and its checksum matches.
pub open spec fn load_scans(b: Seq<u8>) -> bool {
    &&& header_decode_error(b) is None
    &&& page_flags_of_code(spec_u16_from_le_bytes(b.subrange(14, 16))) != Some(PageFlags::Corrupted)
    &&& checksum_ok(b)
}

/// The slot scan of a load stays within the page.
pub open spec fn load_fits(b: Seq<u8>) -> bool {
    load_scans(b) ==> stored_lower(b) <= 8186
}

/// Whether loading the raw page `buf` stays within it; see `Page::from_buffer`.
pub fn page_loadable(buf: &[u8; PAGE_SIZE]) -> (r: bool)
    ensures
        r == load_fits(buf@),
{
    let mut b = *buf;
    let head = match PageHeader::deserialise(&mut b) {
        Ok(h) => h,
        Err(_) => return true,
    };
    if matches!(head.flags, PageFlags::Corrupted) {
        return true;
    }
    if !Page::check_checksum(&mut b) {
        return true;
    }
    head.lower <= 8186
}

impl Page {
    /// A page from its raw bytes as read from disk: `CorruptedDataError` when the header
    /// does not decode, `PageCorrupted` when it is marked corrupted, `ChecksumMismatch` when
    /// the checksum does not match. The holes are the slots with id zero below `lower`.
    pub fn from_buffer(buf: [u8; PAGE_SIZE]) -> (res: Result<Page, DbError>)
        requires
            load_fits(buf@),
        ensures
            match header_decode_error(buf@) {
                Some(e) => res == Err::<Page, DbError>(e),
                None => if page_flags_of_code(spec_u16_from_le_bytes(buf@.subrange(14, 16))) == Some(
                    PageFlags::Corrupted,
                ) {
                    res == Err::<Page, DbError>(DbError::PageCorrupted)
                } else if !checksum_ok(buf@) {
                    res == Err::<Page, DbError>(DbError::ChecksumMismatch)
                } else {
                    &&& res is Ok
                    &&& header_decodes(res->Ok_0.header, buf@)
                    &&& res->Ok_0.buffer@ == buf@
                    &&& res->Ok_0.trash@ == scanned_trash(buf@, scan_count(stored_lower(buf@)))
                },
            },
    {
        let mut buf = buf;
        let ghost b = buf@;
        let header = PageHeader::deserialise(&mut buf)?;
        if matches!(header.flags, PageFlags::Corrupted) {
            return Err(DbError::PageCorrupted);
        }
        if !Page::check_checksum(&mut buf) {
            return Err(DbError::ChecksumMismatch);
        }
        let mut trash: Vec<(u16, u32)> = Vec::new();
        let mut offset: usize = PAGE_HEADER_SIZE;
        let mut k: usize = 0;
        proof {
            assert(header.lower == stored_lower(b));
            assert(scanned_trash(b, 0) =~= Seq::<(u16, u32)>::empty());
        }
        while offset < header.lower as usize
            invariant
                buf@ == b,
                header.lower <= 8186,
                offset == 96 + 10 * k,
                k <= scan_count(header.lower),
                offset < header.lower ==> k < scan_count(header.lower),
                offset >= header.lower ==> k == scan_count(header.lower),
                trash@ == scanned_trash(b, k as nat),
            decreases scan_count(header.lower) - k,
        {
            let s = Slot::deserialise(&buf, offset);
            if s.id == 0 {
                trash.push((offset as u16, s.size));
            }
            proof {
                assert(slot_pos(k as int) == offset);
                assert(trash@ =~= scanned_trash(b, (k + 1) as nat));
            }
            offset = offset + SLOT_SIZE;
            k = k + 1;
        }
        Ok(Page { header, buffer: buf, trash })
    }

    /// Readies the page for writing out: `PageCorrupted` for a page marked corrupted;
    /// `false` for a clean page, which needs no write; otherwise the page is marked clean,
    /// its header written into it and its checksum sealed, and `true` asks for the write.
    pub fn prepare_flush(&mut self) -> (res: Result<bool, DbError>)
        ensures
            old(self).header.flags == PageFlags::Corrupted ==> res == Err::<bool, DbError>(DbError::PageCorrupted)
                && *final(self) == *old(self),
            old(self).header.flags == PageFlags::Clean ==> res == Ok::<bool, DbError>(false) && *final(self)
                == *old(self),
            old(self).header.flags == PageFlags::Dirty ==> {
                &&& res == Ok::<bool, DbError>(true)
                &&& final(self).header == (PageHeader {
                    flags: PageFlags::Clean,
                    checksum: final(self).header.checksum,
                    ..old(self).header
                })
                &&& final(self).sealed()
                &&& forall|k: int| 96 <= k < PAGE_SIZE ==> #[trigger] final(self).buffer@[k] == old(self).buffer@[k]
                &&& final(self).trash == old(self).trash
            },
    {
        if matches!(self.header.flags, PageFlags::Corrupted) {
            return Err(DbError::PageCorrupted);
        }
        if matches!(self.header.flags, PageFlags::Clean) {
            return Ok(false);
        }
        self.header.flags = PageFlags::Clean;
        self.seal();
        Ok(true)
    }
}

/// A page that differs from a well-formed page only in its sequence number is well-formed,
/// with the same records.
pub proof fn lemma_wf_other_lsn(p: Page, q: Page)
    requires
        p.wf(),
        q.buffer == p.buffer,
        q.trash == p.trash,
        q.header == (PageHeader { lsn: q.header.lsn, ..p.header }),
    ensures
        q.wf(),
        q.slots() == p.slots(),
        q@ == p@,
{
    assert(q.slots() =~= p.slots());
    assert forall|i: int| 0 <= i < q.slots().len() implies #[trigger] q.in_area(q.slots()[i]) by {
        assert(p.in_area(p.slots()[i]));
    }
    assert forall|k: int| 0 <= k < q.trash@.len() implies #[trigger] q.trash_ok(k) by {
        assert(p.trash_ok(k));
    }
    assert forall|k: int, i: int|
        0 <= k < q.trash@.len() && 0 <= i < q.slots().len() && is_live(q.slots()[i]) implies disjoint(
        #[trigger] q.hole_start(k),
        q.trash@[k].1 as int,
        #[trigger] q.slots()[i].offset as int,
        q.slots()[i].size as int,
    ) by {
        assert(q.hole_start(k) == p.hole_start(k));
    }
    assert forall|k1: int, k2: int|
        0 <= k1 < q.trash@.len() && 0 <= k2 < q.trash@.len() && k1 != k2 implies disjoint(
        #[trigger] q.hole_start(k1),
        q.trash@[k1].1 as int,
        #[trigger] q.hole_start(k2),
        q.trash@[k2].1 as int,
    ) by {
        assert(q.hole_start(k1) == p.hole_start(k1));
        assert(q.hole_start(k2) == p.hole_start(k2));
    }
}

/// Every slot lies in the record area, and live slots are not empty.
pub open spec fn slots_placed(p: Page) -> bool {
    let slots = p.slots();
    &&& forall|i: int| 0 <= i < slots.len() ==> #[trigger] p.in_area(slots[i])
    &&& forall|i: int| 0 <= i < slots.len() && is_live(slots[i]) ==> #[trigger] slots[i].size > 0
}

/// Live slots do not overlap.
pub open spec fn live_apart(p: Page) -> bool {
    let slots = p.slots();
    forall|i: int, j: int|
        0 <= i < slots.len() && 0 <= j < slots.len() && i != j && is_live(slots[i]) && is_live(slots[j])
            ==> disjoint(
            #[trigger] slots[i].offset as int,
            slots[i].size as int,
            #[trigger] slots[j].offset as int,
            slots[j].size as int,
        )
}

/// Every hole names a dead slot and lies in the record area.
pub open spec fn holes_placed(p: Page) -> bool {
    forall|k: int| 0 <= k < p.trash@.len() ==> #[trigger] p.trash_ok(k)
}

/// Holes overlap neither live records nor each other.
pub open spec fn holes_apart(p: Page) -> bool {
    let slots = p.slots();
    &&& forall|k: int, i: int|
        0 <= k < p.trash@.len() && 0 <= i < slots.len() && is_live(slots[i]) ==> disjoint(
            #[trigger] p.hole_start(k),
            p.trash@[k].1 as int,
            #[trigger] slots[i].offset as int,
            slots[i].size as int,
        )
    &&& forall|k1: int, k2: int|
        0 <= k1 < p.trash@.len() && 0 <= k2 < p.trash@.len() && k1 != k2 ==> disjoint(
            #[trigger] p.hole_start(k1),
            p.trash@[k1].1 as int,
            #[trigger] p.hole_start(k2),
            p.trash@[k2].1 as int,
        )
}

proof fn lemma_wf_parts(p: Page)
    ensures
        p.wf() == (p.basic() && slots_placed(p) && live_apart(p) && holes_placed(p) && holes_apart(p) && live_sum(
            p.slots(),
        ) + trash_sum(p.trash@) <= PAGE_SIZE - p.header.upper),
{
}

proof fn lemma_live_sum_step(s: Seq<Slot>, i: int)
    requires
        0 <= i < s.len(),
    ensures
        live_sum(s.take(i + 1)) == live_sum(s.take(i)) + (if is_live(s[i]) { s[i].size as int } else { 0 }),
{
    assert(s.take(i + 1).drop_last() =~= s.take(i));
}

proof fn lemma_trash_sum_step(t: Seq<(u16, u32)>, k: int)
    requires
        0 <= k < t.len(),
    ensures
        trash_sum(t.take(k + 1)) == trash_sum(t.take(k)) + t[k].1,
{
    assert(t.take(k + 1).drop_last() =~= t.take(k));
}

impl Page {
    /// The slot directory, read from the page.
    fn read_slots(&self) -> (v: Vec<Slot>)
        requires
            self.basic(),
        ensures
            v@ == self.slots(),
    {
        let n = self.header.item_count as usize;
        let mut v: Vec<Slot> = Vec::new();
        let mut i: usize = 0;
        while i < n
            invariant
                self.basic(),
                n == self.header.item_count,
                i <= n,
                v@ == self.slots().take(i as int),
            decreases n - i,
        {
            let s = Slot::deserialise(&self.buffer, PAGE_HEADER_SIZE + SLOT_SIZE * i);
            v.push(s);
            i = i + 1;
            assert(v@ =~= self.slots().take(i as int));
        }
        assert(v@ =~= self.slots());
        v
    }

    /// Whether every slot lies in the record area with live slots not empty; when so, the
    /// sum of the live sizes.
    fn check_slots_placed(&self, slots: &Vec<Slot>) -> (res: (bool, u64))
        requires
            self.basic(),
            slots@ == self.slots(),
        ensures
            res.0 == slots_placed(*self),
            res.0 ==> res.1 == live_sum(self.slots()),
            res.1 <= 8192 * 809,
    {
        let mut sum: u64 = 0;
        let mut i: usize = 0;
        while i < slots.len()
            invariant
                self.basic(),
                slots@ == self.slots(),
                i <= slots@.len(),
                slots@.len() <= 809,
                forall|j: int| 0 <= j < i ==> #[trigger] self.in_area(slots@[j]),
                forall|j: int| 0 <= j < i && is_live(slots@[j]) ==> #[trigger] slots@[j].size > 0,
                sum == live_sum(slots@.take(i as int)),
                sum <= 8192 * i,
            decreases slots@.len() - i,
        {
            let s = slots[i];
            if (s.offset as u64) < (self.header.upper as u64) || (s.offset as u64) + (s.size as u64) > PAGE_SIZE as u64 {
                assert(!self.in_area(self.slots()[i as int]));
                return (false, 0);
            }
            if s.id != 0 && s.size == 0 {
                assert(is_live(self.slots()[i as int]) && !(self.slots()[i as int].size > 0));
                return (false, 0);
            }
            proof {
                lemma_live_sum_step(slots@, i as int);
            }
            if s.id != 0 {
                sum = sum + s.size as u64;
            }
            i = i + 1;
        }
        assert(slots@.take(slots@.len() as int) =~= slots@);
        (true, sum)
    }

    /// Whether live slots are pairwise apart and carry distinct ids.
    fn check_live_apart(&self, slots: &Vec<Slot>) -> (r: bool)
        requires
            self.basic(),
            slots@ == self.slots(),
        ensures
            r == (live_apart(*self) && ids_unique(self.slots())),
    {
        let n = slots.len();
        let mut i: usize = 0;
        while i < n
            invariant
                slots@ == self.slots(),
                n == slots@.len(),
                i <= n,
                forall|a: int, b: int|
                    #![trigger slots@[a], slots@[b]]
                    0 <= a < i && 0 <= b < n && a != b && is_live(slots@[a]) && is_live(slots@[b]) ==> disjoint(
                        slots@[a].offset as int,
                        slots@[a].size as int,
                        slots@[b].offset as int,
                        slots@[b].size as int,
                    ) && slots@[a].id != slots@[b].id,
            decreases n - i,
        {
            let mut j: usize = 0;
            while j < n
                invariant
                    slots@ == self.slots(),
                    n == slots@.len(),
                    i < n,
                    j <= n,
                    forall|a: int, b: int|
                        #![trigger slots@[a], slots@[b]]
                        0 <= a < i && 0 <= b < n && a != b && is_live(slots@[a]) && is_live(slots@[b]) ==> disjoint(
                            slots@[a].offset as int,
                            slots@[a].size as int,
                            slots@[b].offset as int,
                            slots@[b].size as int,
                        ) && slots@[a].id != slots@[b].id,
                    forall|b: int|
                        #![trigger slots@[b]]
                        0 <= b < j && i != b && is_live(slots@[i as int]) && is_live(slots@[b]) ==> disjoint(
                            slots@[i as int].offset as int,
                            slots@[i as int].size as int,
                            slots@[b].offset as int,
                            slots@[b].size as int,
                        ) && slots@[i as int].id != slots@[b].id,
                decreases n - j,
            {
                let a = slots[i];
                let b = slots[j];
                if i != j && a.id != 0 && b.id != 0 {
                    let apart = (a.offset as u64) + (a.size as u64) <= (b.offset as u64) || (b.offset as u64)
                        + (b.size as u64) <= (a.offset as u64);
                    if !apart {
                        assert(!disjoint(
                            self.slots()[i as int].offset as int,
                            self.slots()[i as int].size as int,
                            self.slots()[j as int].offset as int,
                            self.slots()[j as int].size as int,
                        ));
                        return false;
                    }
                    if a.id == b.id {
                        assert(is_live(self.slots()[i as int]) && self.slots()[i as int].id == self.slots()[j as int].id);
                        return false;
                    }
                }
                j = j + 1;
            }
            i = i + 1;
        }
        proof {
            let s = self.slots();
            assert forall|a: int, b: int|
                0 <= a < s.len() && 0 <= b < s.len() && a != b && is_live(s[a]) implies s[a].id != s[b].id by {
                assert(s[a] == slots@[a] && s[b] == slots@[b]);
                if is_live(s[b]) {
                    assert(slots@[a].id != slots@[b].id);
                }
            }
        }
        true
    }

    /// Whether every hole is in place; when so, the sum of the hole sizes.
    fn check_holes_placed(&self, slots: &Vec<Slot>) -> (res: (bool, u128))
        requires
            self.basic(),
            slots@ == self.slots(),
        ensures
            res.0 == holes_placed(*self),
            res.0 ==> res.1 == trash_sum(self.trash@),
            res.1 <= 8192 * self.trash@.len(),
    {
        let mut sum: u128 = 0;
        let mut k: usize = 0;
        while k < self.trash.len()
            invariant
                self.basic(),
                slots@ == self.slots(),
                k <= self.trash@.len(),
                forall|j: int| 0 <= j < k ==> #[trigger] self.trash_ok(j),
                sum == trash_sum(self.trash@.take(k as int)),
                sum <= 8192 * k,
            decreases self.trash@.len() - k,
        {
            let (o, s) = self.trash[k];
            if o < 96 || (o - 96) % 10 != 0 {
                assert(!self.trash_ok(k as int));
                return (false, 0);
            }
            let idx = ((o - 96) / 10) as usize;
            if idx >= self.header.item_count as usize {
                assert(!self.trash_ok(k as int));
                return (false, 0);
            }
            let slot = slots[idx];
            if slot.id != 0 || s == 0 || slot.offset < self.header.upper || (slot.offset as u64) + (s as u64)
                > PAGE_SIZE as u64 {
                assert(self.trash_slot(k as int) == idx);
                assert(!self.trash_ok(k as int));
                return (false, 0);
            }
            proof {
                lemma_trash_sum_step(self.trash@, k as int);
            }
            sum = sum + s as u128;
            k = k + 1;
        }
        assert(self.trash@.take(self.trash@.len() as int) =~= self.trash@);
        (true, sum)
    }
}

impl Page {
    /// Start of hole `k`, read from the slot it names.
    fn hole_start_of(&self, slots: &Vec<Slot>, k: usize) -> (o: u64)
        requires
            self.basic(),
            slots@ == self.slots(),
            k < self.trash@.len(),
            self.trash_ok(k as int),
        ensures
            o == self.hole_start(k as int),
    {
        let idx = ((self.trash[k].0 - 96) / 10) as usize;
        slots[idx].offset as u64
    }

    /// Whether holes overlap neither live records nor each other.
    fn check_holes_apart(&self, slots: &Vec<Slot>) -> (r: bool)
        requires
            self.basic(),
            slots@ == self.slots(),
            holes_placed(*self),
        ensures
            r == holes_apart(*self),
    {
        let t = self.trash.len();
        let n = slots.len();
        let mut k: usize = 0;
        while k < t
            invariant
                self.basic(),
                slots@ == self.slots(),
                holes_placed(*self),
                t == self.trash@.len(),
                n == slots@.len(),
                k <= t,
                forall|a: int, i: int|
                    #![trigger self.hole_start(a), slots@[i]]
                    0 <= a < k && 0 <= i < n && is_live(slots@[i]) ==> disjoint(
                        self.hole_start(a),
                        self.trash@[a].1 as int,
                        slots@[i].offset as int,
                        slots@[i].size as int,
                    ),
                forall|a: int, b: int|
                    #![trigger self.hole_start(a), self.hole_start(b)]
                    0 <= a < k && 0 <= b < t && a != b ==> disjoint(
                        self.hole_start(a),
                        self.trash@[a].1 as int,
                        self.hole_start(b),
                        self.trash@[b].1 as int,
                    ),
            decreases t - k,
        {
            assert(self.trash_ok(k as int));
            let hk = self.hole_start_of(slots, k);
            let sk = self.trash[k].1 as u64;
            let mut i: usize = 0;
            while i < n
                invariant
                    self.basic(),
                    slots@ == self.slots(),
                    holes_placed(*self),
                    n == slots@.len(),
                    k < t,
                    t == self.trash@.len(),
                    i <= n,
                    hk == self.hole_start(k as int),
                    sk == self.trash@[k as int].1,
                    forall|b: int|
                        #![trigger slots@[b]]
                        0 <= b < i && is_live(slots@[b]) ==> disjoint(
                            hk as int,
                            sk as int,
                            slots@[b].offset as int,
                            slots@[b].size as int,
                        ),
                decreases n - i,
            {
                let s = slots[i];
                if s.id != 0 && !(hk + sk <= s.offset as u64 || (s.offset as u64) + (s.size as u64) <= hk) {
                    assert(!disjoint(
                        self.hole_start(k as int),
                        self.trash@[k as int].1 as int,
                        self.slots()[i as int].offset as int,
                        self.slots()[i as int].size as int,
                    ));
                    return false;
                }
                i = i + 1;
            }
            let mut j: usize = 0;
            while j < t
                invariant
                    self.basic(),
                    slots@ == self.slots(),
                    holes_placed(*self),
                    k < t,
                    t == self.trash@.len(),
                    j <= t,
                    hk == self.hole_start(k as int),
                    sk == self.trash@[k as int].1,
                    forall|b: int|
                        #![trigger self.hole_start(b)]
                        0 <= b < j && b != k ==> disjoint(
                            hk as int,
                            sk as int,
                            self.hole_start(b),
                            self.trash@[b].1 as int,
                        ),
                decreases t - j,
            {
                if j != k {
                    assert(self.trash_ok(j as int));
                    let hj = self.hole_start_of(slots, j);
                    let sj = self.trash[j].1 as u64;
                    if !(hk + sk <= hj || hj + sj <= hk) {
                        return false;
                    }
                }
                j = j + 1;
            }
            k = k + 1;
        }
        true
    }

    /// Whether the page is well-formed, with distinct ids on its live slots; a page read
    /// from disk is checked so before it is worked on.
    pub fn check_well_formed(&self) -> (r: bool)
        ensures
            r == (self.wf() && ids_unique(self.slots())),
    {
        proof {
            lemma_wf_parts(*self);
        }
        let lower = self.header.lower as usize;
        let upper = self.header.upper as usize;
        if lower != PAGE_HEADER_SIZE + SLOT_SIZE * (self.header.item_count as usize) || lower > upper || upper
            > PAGE_SIZE {
            return false;
        }
        let slots = self.read_slots();
        let (placed, live) = self.check_slots_placed(&slots);
        if !placed {
            return false;
        }
        if !self.check_live_apart(&slots) {
            return false;
        }
        let (holes_ok, holes) = self.check_holes_placed(&slots);
        if !holes_ok {
            return false;
        }
        if !self.check_holes_apart(&slots) {
            return false;
        }
        let trash_len = self.trash.len();
        assert(self.trash@.len() == trash_len);
        (live as u128) + holes <= (PAGE_SIZE - upper) as u128
    }
}

impl Page {
    /// Whether the header bounds hold: the slot area ends at `lower`, records start at
    /// `upper`, within the page.
    pub fn is_basic(&self) -> (r: bool)
        ensures
            r == self.basic(),
    {
        (self.header.lower as usize) == PAGE_HEADER_SIZE + SLOT_SIZE * (self.header.item_count as usize)
            && self.header.lower <= self.header.upper && (self.header.upper as usize) <= PAGE_SIZE
    }
}

/// What a flush seals, a load reads back: the page's bytes decode to its own header, carry
/// a matching checksum, and are not marked corrupted, so the load keeps the page's bytes
/// and with them its records.
pub proof fn law_flush_then_load(p: Page)
    requires
        p.sealed(),
        p.header.magic == crate::page::MAGIC,
        p.header.flags != PageFlags::Corrupted,
    ensures
        load_scans(p.buffer@),
        forall|h: PageHeader| #[trigger] header_decodes(h, p.buffer@) ==> h == p.header,
{
    let b = p.buffer@;
    let hb = header_bytes(p.header);
    crate::page::lemma_header_bytes_decode(p.header);
    assert forall|x: int, y: int| 0 <= x <= y <= 96 implies b.subrange(x, y) == hb.subrange(x, y) by {
        assert(b.subrange(x, y) =~= b.subrange(0, 96).subrange(x, y));
        assert(hb.subrange(x, y) =~= hb.subrange(0, 96).subrange(x, y));
        assert(hb.subrange(0, 96) =~= hb);
    }
    assert(b.subrange(0, 4) == hb.subrange(0, 4));
    assert(b.subrange(12, 14) == hb.subrange(12, 14));
    assert(b.subrange(14, 16) == hb.subrange(14, 16));
    assert(b.subrange(24, 28) == hb.subrange(24, 28));
    assert(b.subrange(30, 32) == hb.subrange(30, 32));
    assert(header_decodes(p.header, b));
    assert forall|h: PageHeader| #[trigger] header_decodes(h, b) implies h == p.header by {
        crate::page::lemma_header_decodes_unique(h, p.header, b);
    }
}

/// The page has a slot for record `id` that is not empty.
pub open spec fn slot_in_use(p: Page, id: u32) -> bool {
    let f = first_slot(p.slots(), id);
    f < p.slots().len() && p.slots()[f].size != 0
}

/// An update of record `id` to `size` bytes succeeds: in place when the old slot is large
/// enough, else after the record is deleted and the page compacted.
pub open spec fn update_fits(p: Page, id: u32, size: int) -> bool {
    let f = first_slot(p.slots(), id);
    let s = p.slots()[f];
    s.size >= size || compacted_free(p.slots().update(f, Slot { id: 0, ..s })) >= SLOT_SIZE + size
}

} // verus!

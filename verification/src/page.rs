use vstd::prelude::*;
use vstd::bytes::*;
use crate::bytes_util::{spliced, write_bytes, read_u16, read_u32, read_u64, push_u16, push_u32, push_u64};
use crate::db_errors::DbError;

verus! {

pub use crate::bytes_util::PAGE_SIZE;

/// Magic number at the start of every page of this database.
pub const MAGIC: u32 = 69420;

/// Size in bytes of the header at the start of every page.
pub const PAGE_HEADER_SIZE: usize = 96;

/// What a page holds.
#[derive(Debug, Clone, Copy, PartialEq, Eq, Structural)]
pub enum PageType {
    Free,
    Data,
    BTreeLeaf,
    BtreeInternal,
    Meta,
}

/// Whether a page in memory matches its copy on disk, or was found damaged.
#[derive(Debug, Clone, Copy, PartialEq, Eq, Structural)]
pub enum PageFlags {
    Clean,
    Dirty,
    Corrupted,
}

/// On-disk code of a page type.
pub open spec fn page_type_code(t: PageType) -> u16 {
    match t {
        PageType::Free => 0,
        PageType::Data => 1,
        PageType::BTreeLeaf => 2,
        PageType::BtreeInternal => 3,
        PageType::Meta => 4,
    }
}

/// On-disk code of a page flag.
pub open spec fn page_flags_code(f: PageFlags) -> u16 {
    match f {
        PageFlags::Clean => 0,
        PageFlags::Dirty => 1,
        PageFlags::Corrupted => 2,
    }
}

/// The page type that an on-disk code stands for, if any.
pub open spec fn page_type_of_code(c: u16) -> Option<PageType> {
    if c == 0 {
        Some(PageType::Free)
    } else if c == 1 {
        Some(PageType::Data)
    } else if c == 2 {
        Some(PageType::BTreeLeaf)
    } else if c == 3 {
        Some(PageType::BtreeInternal)
    } else if c == 4 {
        Some(PageType::Meta)
    } else {
        None
    }
}

/// The page flag that an on-disk code stands for, if any.
pub open spec fn page_flags_of_code(c: u16) -> Option<PageFlags> {
    if c == 0 {
        Some(PageFlags::Clean)
    } else if c == 1 {
        Some(PageFlags::Dirty)
    } else if c == 2 {
        Some(PageFlags::Corrupted)
    } else {
        None
    }
}

/// The 96-byte header at the start of each page.
#[derive(Debug, Clone, Copy)]
pub struct PageHeader {
    pub magic: u32,
    pub page_id: u64,
    pub page_type: PageType,
    pub flags: PageFlags,
    pub lsn: u64,
    pub checksum: u32,
    pub item_count: u16,
    pub lower: u16,
    pub upper: u16,
    pub reserved: [u8; 62],
}

/// The 96 bytes that encode a header, all fields little endian, in declaration order.
pub open spec fn header_bytes(h: PageHeader) -> Seq<u8> {
    spec_u32_to_le_bytes(h.magic) + spec_u64_to_le_bytes(h.page_id) + spec_u16_to_le_bytes(
        page_type_code(h.page_type),
    ) + spec_u16_to_le_bytes(page_flags_code(h.flags)) + spec_u64_to_le_bytes(h.lsn)
        + spec_u32_to_le_bytes(h.checksum) + spec_u16_to_le_bytes(h.item_count)
        + spec_u16_to_le_bytes(h.lower) + spec_u16_to_le_bytes(h.upper) + h.reserved@
}

/// `h` holds exactly the field values that the first 96 bytes of `s` encode.
pub open spec fn header_decodes(h: PageHeader, s: Seq<u8>) -> bool {
    &&& h.magic == spec_u32_from_le_bytes(s.subrange(0, 4))
    &&& h.page_id == spec_u64_from_le_bytes(s.subrange(4, 12))
    &&& page_type_of_code(spec_u16_from_le_bytes(s.subrange(12, 14))) == Some(h.page_type)
    &&& page_flags_of_code(spec_u16_from_le_bytes(s.subrange(14, 16))) == Some(h.flags)
    &&& h.lsn == spec_u64_from_le_bytes(s.subrange(16, 24))
    &&& h.checksum == spec_u32_from_le_bytes(s.subrange(24, 28))
    &&& h.item_count == spec_u16_from_le_bytes(s.subrange(28, 30))
    &&& h.lower == spec_u16_from_le_bytes(s.subrange(30, 32))
    &&& h.upper == spec_u16_from_le_bytes(s.subrange(32, 34))
    &&& h.reserved@ == s.subrange(34, 96)
}

/// Which error, if any, decoding a header from `s` reports.
pub open spec fn header_decode_error(s: Seq<u8>) -> Option<DbError> {
    if spec_u32_from_le_bytes(s.subrange(0, 4)) != MAGIC {
        Some(DbError::CorruptedDataError)
    } else if page_type_of_code(spec_u16_from_le_bytes(s.subrange(12, 14))) is None {
        Some(DbError::CorruptedDataError)
    } else if page_flags_of_code(spec_u16_from_le_bytes(s.subrange(14, 16))) is None {
        Some(DbError::CorruptedDataError)
    } else {
        None
    }
}

fn type_code(t: PageType) -> (c: u16)
    ensures
        c == page_type_code(t),
{
    match t {
        PageType::Free => 0,
        PageType::Data => 1,
        PageType::BTreeLeaf => 2,
        PageType::BtreeInternal => 3,
        PageType::Meta => 4,
    }
}

fn flags_code(f: PageFlags) -> (c: u16)
    ensures
        c == page_flags_code(f),
{
    match f {
        PageFlags::Clean => 0,
        PageFlags::Dirty => 1,
        PageFlags::Corrupted => 2,
    }
}

proof fn lemma_header_bytes_len(h: PageHeader)
    ensures
        header_bytes(h).len() == 96,
{
    lemma_auto_spec_u16_to_from_le_bytes();
    lemma_auto_spec_u32_to_from_le_bytes();
    lemma_auto_spec_u64_to_from_le_bytes();
    assert(spec_u16_to_le_bytes(page_type_code(h.page_type)).len() == 2);
    assert(spec_u16_to_le_bytes(page_flags_code(h.flags)).len() == 2);
    assert(spec_u16_to_le_bytes(h.item_count).len() == 2);
    assert(spec_u16_to_le_bytes(h.lower).len() == 2);
    assert(spec_u16_to_le_bytes(h.upper).len() == 2);
    assert(spec_u32_to_le_bytes(h.magic).len() == 4);
    assert(spec_u32_to_le_bytes(h.checksum).len() == 4);
    assert(spec_u64_to_le_bytes(h.page_id).len() == 8);
    assert(spec_u64_to_le_bytes(h.lsn).len() == 8);
}

/// Decoding the bytes of a header gives every field back.
pub proof fn lemma_header_bytes_decode(h: PageHeader)
    ensures
        header_bytes(h).len() == 96,
        header_decodes(h, header_bytes(h)),
        header_decode_error(header_bytes(h)) == (if h.magic == MAGIC {
            None::<DbError>
        } else {
            Some(DbError::CorruptedDataError)
        }),
{
    lemma_header_bytes_len(h);
    lemma_auto_spec_u16_to_from_le_bytes();
    lemma_auto_spec_u32_to_from_le_bytes();
    lemma_auto_spec_u64_to_from_le_bytes();
    let b = header_bytes(h);
    let tc = page_type_code(h.page_type);
    let fc = page_flags_code(h.flags);
    assert(b.subrange(0, 4) =~= spec_u32_to_le_bytes(h.magic));
    assert(b.subrange(4, 12) =~= spec_u64_to_le_bytes(h.page_id));
    assert(b.subrange(12, 14) =~= spec_u16_to_le_bytes(tc));
    assert(b.subrange(14, 16) =~= spec_u16_to_le_bytes(fc));
    assert(b.subrange(16, 24) =~= spec_u64_to_le_bytes(h.lsn));
    assert(b.subrange(24, 28) =~= spec_u32_to_le_bytes(h.checksum));
    assert(b.subrange(28, 30) =~= spec_u16_to_le_bytes(h.item_count));
    assert(b.subrange(30, 32) =~= spec_u16_to_le_bytes(h.lower));
    assert(b.subrange(32, 34) =~= spec_u16_to_le_bytes(h.upper));
    assert(b.subrange(34, 96) =~= h.reserved@);
}

/// Two headers with the same encoding are the same header.
pub proof fn lemma_header_decodes_unique(h1: PageHeader, h2: PageHeader, s: Seq<u8>)
    requires
        header_decodes(h1, s),
        header_decodes(h2, s),
    ensures
        h1 == h2,
{
    assert(h1.reserved =~= h2.reserved) by {
        assert forall|i: int| 0 <= i < 62 implies h1.reserved[i] == h2.reserved[i] by {
            assert(h1.reserved@[i] == s.subrange(34, 96)[i]);
        }
    }
}

impl PageHeader {
    /// A fresh header at sequence number `lsn`: this database's magic, no items, empty slot
    /// area, clean.
    pub fn new(page_id: u64, page_type: PageType, lsn: u64) -> (h: Self)
        ensures
            h.magic == MAGIC,
            h.page_id == page_id,
            h.page_type == page_type,
            h.flags == PageFlags::Clean,
            h.lsn == lsn,
            h.checksum == 0,
            h.item_count == 0,
            h.lower == PAGE_HEADER_SIZE,
            h.upper == PAGE_SIZE,
            forall|i: int| 0 <= i < 62 ==> #[trigger] h.reserved@[i] == 0,
    {
        Self {
            magic: MAGIC,
            page_id,
            page_type,
            flags: PageFlags::Clean,
            lsn,
            checksum: 0,
            item_count: 0,
            lower: 96,
            upper: 8192,
            reserved: [0u8; 62],
        }
    }

    /// The 96 encoded bytes of this header.
    pub fn to_bytes(&self) -> (out: Vec<u8>)
        ensures
            out@ == header_bytes(*self),
    {
        let mut out: Vec<u8> = Vec::new();
        push_u32(&mut out, self.magic);
        push_u64(&mut out, self.page_id);
        push_u16(&mut out, type_code(self.page_type));
        push_u16(&mut out, flags_code(self.flags));
        push_u64(&mut out, self.lsn);
        push_u32(&mut out, self.checksum);
        push_u16(&mut out, self.item_count);
        push_u16(&mut out, self.lower);
        push_u16(&mut out, self.upper);
        let mut i: usize = 0;
        let ghost before = out@;
        while i < 62
            invariant
                i <= 62,
                out@ == before + self.reserved@.subrange(0, i as int),
            decreases 62 - i,
        {
            out.push(self.reserved[i]);
            i = i + 1;
            proof {
                assert(out@ =~= before + self.reserved@.subrange(0, i as int));
            }
        }
        proof {
            assert(self.reserved@.subrange(0, 62) =~= self.reserved@);
            assert(Seq::<u8>::empty() + spec_u32_to_le_bytes(self.magic) =~= spec_u32_to_le_bytes(
                self.magic,
            ));
        }
        out
    }

    /// Writes this header over the first 96 bytes of `buffer`; the rest is untouched.
    pub fn serialise(&self, buffer: &mut [u8; PAGE_SIZE])
        ensures
            final(buffer)@ == spliced(old(buffer)@, 0, header_bytes(*self)),
            final(buffer)@.subrange(0, 96) == header_bytes(*self),
    {
        let bytes = self.to_bytes();
        proof {
            lemma_header_bytes_len(*self);
        }
        write_bytes(buffer, 0, bytes.as_slice());
        assert(buffer@.subrange(0, 96) =~= header_bytes(*self));
    }

    /// Reads a header from the first 96 bytes of `buffer`: fails with `CorruptedDataError`
    /// on a wrong magic number or an unknown page type or flag.
    pub fn deserialise(buffer: &mut [u8; PAGE_SIZE]) -> (res: Result<Self, DbError>)
        ensures
            final(buffer)@ == old(buffer)@,
            match header_decode_error(old(buffer)@) {
                Some(e) => res == Err::<PageHeader, DbError>(e),
                None => res is Ok && header_decodes(res->Ok_0, old(buffer)@),
            },
    {
        let s: &[u8] = buffer.as_slice();
        let magic = read_u32(s, 0);
        if magic != MAGIC {
            return Err(DbError::CorruptedDataError);
        }
        let page_id = read_u64(s, 4);
        let page_type = match read_u16(s, 12) {
            0 => PageType::Free,
            1 => PageType::Data,
            2 => PageType::BTreeLeaf,
            3 => PageType::BtreeInternal,
            4 => PageType::Meta,
            _ => return Err(DbError::CorruptedDataError),
        };
        let flags = match read_u16(s, 14) {
            0 => PageFlags::Clean,
            1 => PageFlags::Dirty,
            2 => PageFlags::Corrupted,
            _ => return Err(DbError::CorruptedDataError),
        };
        let lsn = read_u64(s, 16);
        let checksum = read_u32(s, 24);
        let item_count = read_u16(s, 28);
        let lower = read_u16(s, 30);
        let upper = read_u16(s, 32);
        let mut reserved = [0u8; 62];
        let mut i: usize = 0;
        while i < 62
            invariant
                i <= 62,
                s@ == old(buffer)@,
                s@.len() == PAGE_SIZE,
                forall|k: int| 0 <= k < i ==> #[trigger] reserved@[k] == s@[34 + k],
            decreases 62 - i,
        {
            reserved[i] = s[34 + i];
            i = i + 1;
        }
        assert(reserved@ =~= old(buffer)@.subrange(34, 96));
        Ok(
            Self {
                magic,
                page_id,
                page_type,
                flags,
                lsn,
                checksum,
                item_count,
                lower,
                upper,
                reserved,
            },
        )
    }
}

/// Decoding what `serialise` wrote gives the same header back, whatever the rest of the page.
pub proof fn law_header_roundtrip(h: PageHeader, page: Seq<u8>, decoded: PageHeader)
    requires
        page.len() == PAGE_SIZE,
        header_decodes(decoded, spliced(page, 0, header_bytes(h))),
    ensures
        decoded == h,
{
    lemma_header_bytes_decode(h);
    let p = spliced(page, 0, header_bytes(h));
    assert(p.subrange(0, 96) =~= header_bytes(h));
    assert forall|a: int, b: int| 0 <= a <= b <= 96 implies p.subrange(a, b) == header_bytes(h).subrange(a, b) by {
        assert(p.subrange(a, b) =~= header_bytes(h).subrange(a, b));
    }
    lemma_header_decodes_unique(decoded, h, header_bytes(h));
}

/// Two headers that differ at most in their checksum encode to the same bytes outside
/// bytes 24..28.
pub proof fn lemma_header_bytes_checksum_only(h1: PageHeader, h2: PageHeader)
    requires
        h1 == (PageHeader { checksum: h1.checksum, ..h2 }),
    ensures
        header_bytes(h1).len() == 96,
        header_bytes(h2).len() == 96,
        forall|k: int| 0 <= k < 96 && !(24 <= k < 28) ==> header_bytes(h1)[k] == header_bytes(h2)[k],
        header_bytes(h1).subrange(24, 28) == spec_u32_to_le_bytes(h1.checksum),
{
    lemma_header_bytes_len(h1);
    lemma_header_bytes_len(h2);
    lemma_auto_spec_u16_to_from_le_bytes();
    lemma_auto_spec_u32_to_from_le_bytes();
    lemma_auto_spec_u64_to_from_le_bytes();
    assert(header_bytes(h1).subrange(24, 28) =~= spec_u32_to_le_bytes(h1.checksum));
}

} // verus!

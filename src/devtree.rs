//! The blob as a whole: header validation, block ranges, the reservation table
//! and the root node.
use crate::error::DtError;
use crate::format::{addressable, be32_at, be64_at, read_be32, read_be64, token, Token};
use crate::node::DevTreeNode;
use vstd::prelude::*;
use vstd::slice::slice_subrange;

verus! {

/// The header's magic word.
pub const FDT_MAGIC: u32 = 0xd00dfeed;

/// Size in bytes of the fixed header.
pub const HEADER_SIZE: usize = 40;

/// Size in bytes of one reservation record.
pub const RSV_ENTRY_SIZE: usize = 16;

/// The fixed header, decoded field by field from big-endian words.
#[derive(Debug, Clone, Copy, PartialEq, Eq, Structural)]
pub struct DevTreeHeader {
    pub magic: u32,
    pub totalsize: u32,
    pub off_dt_struct: u32,
    pub off_dt_strings: u32,
    pub off_mem_rsvmap: u32,
    pub version: u32,
    pub last_comp_version: u32,
    pub boot_cpuid_phys: u32,
    pub size_dt_strings: u32,
    pub size_dt_struct: u32,
}

/// The header stored at the start of `b`.
pub open spec fn header_of(b: Seq<u8>) -> DevTreeHeader {
    DevTreeHeader {
        magic: be32_at(b, 0x00),
        totalsize: be32_at(b, 0x04),
        off_dt_struct: be32_at(b, 0x08),
        off_dt_strings: be32_at(b, 0x0C),
        off_mem_rsvmap: be32_at(b, 0x10),
        version: be32_at(b, 0x14),
        last_comp_version: be32_at(b, 0x18),
        boot_cpuid_phys: be32_at(b, 0x1C),
        size_dt_strings: be32_at(b, 0x20),
        size_dt_struct: be32_at(b, 0x24),
    }
}

/// What is wrong with the header of `b`, if anything.
pub open spec fn header_error(b: Seq<u8>) -> Option<DtError> {
    if b.len() < HEADER_SIZE {
        Some(DtError::TruncatedHeader)
    } else {
        let h = header_of(b);
        if h.magic != FDT_MAGIC {
            Some(DtError::InvalidMagic)
        } else if h.totalsize == 0 {
            Some(DtError::EmptyBlob)
        } else if h.totalsize > b.len() {
            Some(DtError::OffsetOutOfBounds)
        } else if h.off_dt_struct + h.size_dt_struct > h.totalsize {
            Some(DtError::OffsetOutOfBounds)
        } else if h.off_dt_strings + h.size_dt_strings > h.totalsize {
            Some(DtError::OffsetOutOfBounds)
        } else if h.off_mem_rsvmap > h.totalsize {
            Some(DtError::OffsetOutOfBounds)
        } else {
            None
        }
    }
}

/// The structure block of `b`.
pub open spec fn struct_block(b: Seq<u8>) -> Seq<u8> {
    let h = header_of(b);
    b.subrange(h.off_dt_struct as int, h.off_dt_struct + h.size_dt_struct)
}

/// The strings block of `b`.
pub open spec fn strings_block(b: Seq<u8>) -> Seq<u8> {
    let h = header_of(b);
    b.subrange(h.off_dt_strings as int, h.off_dt_strings + h.size_dt_strings)
}

/// Why `b` does not decode to a tree, if it does not: a bad header, or a root
/// that is not a `BEGIN_NODE` with a terminated, valid name.
pub open spec fn blob_error(b: Seq<u8>) -> Option<DtError> {
    match header_error(b) {
        Some(e) => Some(e),
        None => if !addressable(struct_block(b)) {
            Some(DtError::OffsetOutOfBounds)
        } else {
            match token(struct_block(b), strings_block(b), 0) {
                Ok(Token::Begin { .. }) => None,
                Ok(_) => Some(DtError::MalformedToken),
                Err(e) => Some(e),
            }
        },
    }
}

/// One reserved memory range.
#[derive(Debug, Clone, Copy, PartialEq, Eq, Structural)]
pub struct MemReservation {
    pub address: u64,
    pub size: u64,
}

/// The reservation records of `b` from `off` on: 16-byte (address, size)
/// pairs up to the all-zero record or to `end`, whichever comes first.
pub open spec fn rsv_list(b: Seq<u8>, off: int, end: int) -> Seq<MemReservation>
    decreases end - off,
{
    if off < 0 || off + RSV_ENTRY_SIZE > end {
        seq![]
    } else {
        let address = be64_at(b, off);
        let size = be64_at(b, off + 8);
        if address == 0 && size == 0 {
            seq![]
        } else {
            seq![MemReservation { address, size }] + rsv_list(b, off + RSV_ENTRY_SIZE, end)
        }
    }
}

/// Record `i` of a reservation list lies at `off + 16 * i`, inside the range.
pub proof fn lemma_rsv_index(b: Seq<u8>, off: int, end: int, i: int)
    requires
        0 <= i < rsv_list(b, off, end).len(),
    ensures
        0 <= off,
        off + RSV_ENTRY_SIZE * i + RSV_ENTRY_SIZE <= end,
        rsv_list(b, off, end)[i] == (MemReservation {
            address: be64_at(b, off + RSV_ENTRY_SIZE * i),
            size: be64_at(b, off + RSV_ENTRY_SIZE * i + 8),
        }),
    decreases i,
{
    if i > 0 {
        lemma_rsv_index(b, off + RSV_ENTRY_SIZE, end, i - 1);
    }
}

/// The reservation table, read in place from the blob.
#[derive(Debug, Clone, Copy)]
pub struct MemReservations<'a> {
    pub blob: &'a [u8],
    pub offset: usize,
    pub end: usize,
    pub count: usize,
}

impl<'a> MemReservations<'a> {
    /// The table lies inside the blob and `count` is its number of records.
    pub open spec fn wf(&self) -> bool {
        &&& self.end <= self.blob@.len()
        &&& self.count == self.view().len()
    }

    /// The records, in file order.
    pub open spec fn view(&self) -> Seq<MemReservation> {
        rsv_list(self.blob@, self.offset as int, self.end as int)
    }

    /// Decodes the table that starts at `offset` and may not reach past `end`.
    pub fn new(blob: &'a [u8], offset: usize, end: usize) -> (r: Self)
        requires
            end <= blob@.len(),
        ensures
            r.wf(),
            r.blob == blob,
            r.offset == offset,
            r.end == end,
    {
        let count = Self::count_mem_rsv_entries(blob, offset, end);
        MemReservations { blob, offset, end, count }
    }

    fn count_mem_rsv_entries(blob: &[u8], offset: usize, end: usize) -> (r: usize)
        requires
            end <= blob@.len(),
        ensures
            r == rsv_list(blob@, offset as int, end as int).len(),
    {
        let mut count: usize = 0;
        let mut off = offset;
        loop
            invariant
                end <= blob@.len(),
                off == offset + RSV_ENTRY_SIZE * count,
                count + rsv_list(blob@, off as int, end as int).len() == rsv_list(
                    blob@,
                    offset as int,
                    end as int,
                ).len(),
            decreases end - off,
        {
            if off > end || end - off < RSV_ENTRY_SIZE {
                return count;
            }
            let address = read_be64(blob, off);
            let size = read_be64(blob, off + 8);
            if address == 0 && size == 0 {
                return count;
            }
            count = count + 1;
            off = off + RSV_ENTRY_SIZE;
        }
    }

    /// The number of records.
    pub fn len(&self) -> (r: usize)
        requires
            self.wf(),
        ensures
            r == self.view().len(),
    {
        self.count
    }

    /// Record `i`, or `None` past the end.
    pub fn get(&self, i: usize) -> (r: Option<MemReservation>)
        requires
            self.wf(),
        ensures
            i < self.view().len() ==> r == Some(self.view()[i as int]),
            i >= self.view().len() ==> r is None,
    {
        if i >= self.count {
            return None;
        }
        proof {
            lemma_rsv_index(self.blob@, self.offset as int, self.end as int, i as int);
        }
        let at = self.offset + RSV_ENTRY_SIZE * i;
        let address = read_be64(self.blob, at);
        let size = read_be64(self.blob, at + 8);
        Some(MemReservation { address, size })
    }
}

impl DevTreeHeader {
    pub fn magic(&self) -> (r: u32)
        ensures
            r == self.magic,
    {
        self.magic
    }

    pub fn totalsize(&self) -> (r: u32)
        ensures
            r == self.totalsize,
    {
        self.totalsize
    }

    pub fn off_dt_struct(&self) -> (r: u32)
        ensures
            r == self.off_dt_struct,
    {
        self.off_dt_struct
    }

    pub fn off_dt_strings(&self) -> (r: u32)
        ensures
            r == self.off_dt_strings,
    {
        self.off_dt_strings
    }

    pub fn off_mem_rsvmap(&self) -> (r: u32)
        ensures
            r == self.off_mem_rsvmap,
    {
        self.off_mem_rsvmap
    }

    pub fn version(&self) -> (r: u32)
        ensures
            r == self.version,
    {
        self.version
    }

    pub fn last_comp_version(&self) -> (r: u32)
        ensures
            r == self.last_comp_version,
    {
        self.last_comp_version
    }

    pub fn boot_cpuid_phys(&self) -> (r: u32)
        ensures
            r == self.boot_cpuid_phys,
    {
        self.boot_cpuid_phys
    }

    pub fn size_dt_strings(&self) -> (r: u32)
        ensures
            r == self.size_dt_strings,
    {
        self.size_dt_strings
    }

    pub fn size_dt_struct(&self) -> (r: u32)
        ensures
            r == self.size_dt_struct,
    {
        self.size_dt_struct
    }

    /// Decodes the header at the start of `b`.
    fn read(b: &[u8]) -> (r: Self)
        requires
            b@.len() >= HEADER_SIZE,
        ensures
            r == header_of(b@),
    {
        DevTreeHeader {
            magic: read_be32(b, 0x00),
            totalsize: read_be32(b, 0x04),
            off_dt_struct: read_be32(b, 0x08),
            off_dt_strings: read_be32(b, 0x0C),
            off_mem_rsvmap: read_be32(b, 0x10),
            version: read_be32(b, 0x14),
            last_comp_version: read_be32(b, 0x18),
            boot_cpuid_phys: read_be32(b, 0x1C),
            size_dt_strings: read_be32(b, 0x20),
            size_dt_struct: read_be32(b, 0x24),
        }
    }
}

/// A validated blob: its header, its reservation table and its root node, all
/// borrowed from the caller's bytes.
#[derive(Debug, Clone, Copy)]
pub struct DevTree<'a> {
    pub blob: &'a [u8],
    pub header: DevTreeHeader,
    pub mem_rsvmap: MemReservations<'a>,
    pub root_node: DevTreeNode<'a>,
}

impl<'a> DevTree<'a> {
    /// Everything the tree holds is what `blob` says.
    pub open spec fn wf(&self) -> bool {
        let b = self.blob@;
        let h = header_of(b);
        &&& blob_error(b) is None
        &&& self.header == h
        &&& self.mem_rsvmap.wf()
        &&& self.mem_rsvmap.blob == self.blob
        &&& self.mem_rsvmap.offset == h.off_mem_rsvmap
        &&& self.mem_rsvmap.end == h.totalsize
        &&& self.root_node.wf()
        &&& self.root_node.dt_struct@ == struct_block(b)
        &&& self.root_node.dt_strings@ == strings_block(b)
        &&& self.root_node.struct_offset == 0
    }

    /// Validates the header of `blob` and decodes its root node.
    pub fn new(blob: &'a [u8]) -> (r: Result<Self, DtError>)
        ensures
            match blob_error(blob@) {
                Some(e) => r == Err::<Self, DtError>(e),
                None => r matches Ok(t) && t.wf() && t.blob == blob,
            },
    {
        if blob.len() < HEADER_SIZE {
            return Err(DtError::TruncatedHeader);
        }
        let header = DevTreeHeader::read(blob);
        if header.magic != FDT_MAGIC {
            return Err(DtError::InvalidMagic);
        }
        if header.totalsize == 0 {
            return Err(DtError::EmptyBlob);
        }
        let total = header.totalsize as usize;
        if total > blob.len() {
            return Err(DtError::OffsetOutOfBounds);
        }
        let off_struct = header.off_dt_struct as usize;
        let size_struct = header.size_dt_struct as usize;
        if off_struct > total || total - off_struct < size_struct {
            return Err(DtError::OffsetOutOfBounds);
        }
        let off_strings = header.off_dt_strings as usize;
        let size_strings = header.size_dt_strings as usize;
        if off_strings > total || total - off_strings < size_strings {
            return Err(DtError::OffsetOutOfBounds);
        }
        let off_rsv = header.off_mem_rsvmap as usize;
        if off_rsv > total {
            return Err(DtError::OffsetOutOfBounds);
        }
        let dt_struct = slice_subrange(blob, off_struct, off_struct + size_struct);
        let dt_strings = slice_subrange(blob, off_strings, off_strings + size_strings);
        let root_node = match DevTreeNode::new_root(dt_struct, dt_strings) {
            Ok(n) => n,
            Err(e) => {
                return Err(e);
            },
        };
        let mem_rsvmap = MemReservations::new(blob, off_rsv, total);
        Ok(DevTree { blob, header, mem_rsvmap, root_node })
    }

    /// The root node.
    pub fn root(&self) -> (r: &DevTreeNode<'a>)
        ensures
            *r == self.root_node,
    {
        &self.root_node
    }

    /// The decoded header.
    pub fn header(&self) -> (r: &DevTreeHeader)
        ensures
            *r == self.header,
    {
        &self.header
    }

    /// The memory reservation table.
    pub fn mem_rsvmap(&self) -> (r: MemReservations<'a>)
        ensures
            r == self.mem_rsvmap,
    {
        self.mem_rsvmap
    }
}

} // verus!

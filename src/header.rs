//! The fixed header at the start of a blob, and the records it points at.
use vstd::prelude::*;
use crate::bytes::{be32, read_be32, find_nul, cstr_len, text_of};
use crate::error::DtbError;
use crate::model::{cells_value, read_cells, max_cells};
use vstd::utf8::valid_utf8;
use vstd::string::StringSliceAdditionalSpecFns;

verus! {

/// Size of the header: ten big-endian words.
pub const HEADER_SIZE: usize = 40;

/// The first word of every blob.
pub const DTB_HEADER_MAGIC: u32 = 0xd00d_feed;

/// The newest structure version this reader understands.
pub const DTB_VERSION: u32 = 17;

/// Word `i` of the header.
pub open spec fn header_word(b: Seq<u8>, i: int) -> int {
    be32(b, 4 * i)
}

pub open spec fn spec_magic(b: Seq<u8>) -> int {
    header_word(b, 0)
}

pub open spec fn spec_off_dt_struct(b: Seq<u8>) -> int {
    header_word(b, 2)
}

pub open spec fn spec_off_dt_strings(b: Seq<u8>) -> int {
    header_word(b, 3)
}

pub open spec fn spec_off_mem_rsvmap(b: Seq<u8>) -> int {
    header_word(b, 4)
}

pub open spec fn spec_last_comp_version(b: Seq<u8>) -> int {
    header_word(b, 6)
}

pub open spec fn spec_size_dt_strings(b: Seq<u8>) -> int {
    header_word(b, 8)
}

pub open spec fn spec_size_dt_struct(b: Seq<u8>) -> int {
    header_word(b, 9)
}

/// Whether the structure and strings blocks that the header declares lie
/// inside the blob.
pub open spec fn blocks_inside(b: Seq<u8>) -> bool {
    &&& spec_off_dt_struct(b) + spec_size_dt_struct(b) <= b.len()
    &&& spec_off_dt_strings(b) + spec_size_dt_strings(b) <= b.len()
}

/// The verdict on a blob's header: the magic first, then the version, then
/// whether the declared blocks fit.
pub open spec fn header_check(b: Seq<u8>) -> Result<(), DtbError> {
    if b.len() < HEADER_SIZE {
        Err(DtbError::OutOfBounds)
    } else if spec_magic(b) != DTB_HEADER_MAGIC {
        Err(DtbError::InvalidMagic)
    } else if spec_last_comp_version(b) > DTB_VERSION {
        Err(DtbError::UnsupportedVersion)
    } else if !blocks_inside(b) {
        Err(DtbError::OutOfBounds)
    } else {
        Ok(())
    }
}

/// The NUL-terminated text at `p`: its bytes, once they are found to end
/// inside the blob and to be valid UTF-8.
pub open spec fn cstr_at(b: Seq<u8>, p: int) -> Result<Seq<u8>, DtbError> {
    match cstr_len(b, p, b.len() as int) {
        None => Err(DtbError::OutOfBounds),
        Some(k) => if valid_utf8(b.subrange(p, p + k)) {
            Ok(b.subrange(p, p + k))
        } else {
            Err(DtbError::Utf8DecodeError)
        },
    }
}

/// A blob whose header has been checked. Offsets are counted from the first
/// byte of the blob.
pub struct Dtb<'a> {
    blob: &'a [u8],
}

impl<'a> Dtb<'a> {
    pub closed spec fn bytes(&self) -> Seq<u8> {
        self.blob@
    }

    /// A blob's length is a `usize`.
    pub proof fn lemma_len_fits(&self)
        ensures
            self.bytes().len() <= usize::MAX,
    {
        assert(self.blob@.len() == self.blob.len());
    }

    pub open spec fn wf(&self) -> bool {
        header_check(self.bytes()) is Ok
    }

    /// Checks the header of `blob`.
    pub fn new(blob: &'a [u8]) -> (r: Result<Dtb<'a>, DtbError>)
        ensures
            match r {
                Ok(d) => header_check(blob@) is Ok && d.bytes() == blob@,
                Err(e) => header_check(blob@) == Err::<(), DtbError>(e),
            },
    {
        if blob.len() < HEADER_SIZE {
            return Err(DtbError::OutOfBounds);
        }
        if read_be32(blob, 0) != DTB_HEADER_MAGIC {
            return Err(DtbError::InvalidMagic);
        }
        if read_be32(blob, 24) > DTB_VERSION {
            return Err(DtbError::UnsupportedVersion);
        }
        let off_struct = read_be32(blob, 8) as usize;
        let size_struct = read_be32(blob, 36) as usize;
        let off_strings = read_be32(blob, 12) as usize;
        let size_strings = read_be32(blob, 32) as usize;
        if off_struct > blob.len() || size_struct > blob.len() - off_struct {
            return Err(DtbError::OutOfBounds);
        }
        if off_strings > blob.len() || size_strings > blob.len() - off_strings {
            return Err(DtbError::OutOfBounds);
        }
        Ok(Dtb { blob })
    }

    pub fn blob(&self) -> (r: &'a [u8])
        ensures
            r@ == self.bytes(),
    {
        self.blob
    }

    pub fn get_struct_start_address(&self) -> (r: usize)
        requires
            self.wf(),
        ensures
            r == spec_off_dt_struct(self.bytes()),
    {
        read_be32(self.blob, 8) as usize
    }

    pub fn get_struct_end_address(&self) -> (r: usize)
        requires
            self.wf(),
        ensures
            r == spec_off_dt_struct(self.bytes()) + spec_size_dt_struct(self.bytes()),
            r <= self.bytes().len(),
    {
        assert(self.blob@.len() == self.blob.len());
        self.get_struct_start_address() + read_be32(self.blob, 36) as usize
    }

    pub fn get_string_start_address(&self) -> (r: usize)
        requires
            self.wf(),
        ensures
            r == spec_off_dt_strings(self.bytes()),
            r <= self.bytes().len(),
    {
        read_be32(self.blob, 12) as usize
    }

    pub fn get_string_end_address(&self) -> (r: usize)
        requires
            self.wf(),
        ensures
            r == spec_off_dt_strings(self.bytes()) + spec_size_dt_strings(self.bytes()),
            r <= self.bytes().len(),
    {
        assert(self.blob@.len() == self.blob.len());
        self.get_string_start_address() + read_be32(self.blob, 32) as usize
    }

    pub fn get_memory_reservation_start_address(&self) -> (r: usize)
        requires
            self.wf(),
        ensures
            r == spec_off_mem_rsvmap(self.bytes()),
    {
        read_be32(self.blob, 16) as usize
    }

    /// The big-endian word at `offset`, where four bytes remain there.
    pub fn read_u32_from_ptr(&self, offset: usize) -> (r: Option<u32>)
        ensures
            offset + 4 <= self.bytes().len() ==> r == Some(be32(self.bytes(), offset as int) as u32),
            offset + 4 > self.bytes().len() ==> r is None,
    {
        if offset > self.blob.len() || self.blob.len() - offset < 4 {
            None
        } else {
            Some(read_be32(self.blob, offset))
        }
    }

    /// The NUL-terminated text at `offset`.
    pub fn read_char_str(&self, offset: usize) -> (r: Result<&'a str, DtbError>)
        ensures
            match cstr_at(self.bytes(), offset as int) {
                Ok(s) => r matches Ok(t) && t.spec_bytes() == s,
                Err(e) => r == Err::<&str, DtbError>(e),
            },
    {
        assert(self.blob@.len() == self.blob.len());
        match find_nul(self.blob, offset, self.blob.len()) {
            None => Err(DtbError::OutOfBounds),
            Some(n) => {
                let bytes = vstd::slice::slice_subrange(self.blob, offset, n);
                match text_of(bytes) {
                    Some(t) => Ok(t),
                    None => Err(DtbError::Utf8DecodeError),
                }
            },
        }
    }
}

/// A big-endian word is below 2^32.
pub proof fn lemma_be32_bound(b: Seq<u8>, p: int)
    requires
        0 <= p,
        p + 4 <= b.len(),
    ensures
        0 <= be32(b, p) < 0x1_0000_0000,
{
}

/// As many cells as a machine word can hold give a number that fits one.
pub proof fn lemma_cells_fit(b: Seq<u8>, p: int, n: nat)
    requires
        0 <= p,
        p + 4 * n <= b.len(),
        n <= max_cells(),
    ensures
        0 <= cells_value(b, p, n) <= usize::MAX,
{
    reveal_with_fuel(cells_value, 3);
    if n >= 1 {
        lemma_be32_bound(b, p);
    }
    if n >= 2 {
        lemma_be32_bound(b, p + 4);
    }
}

impl<'a> Dtb<'a> {
    /// The number held by `size` cells at `offset`, and the bytes they take.
    pub fn read_regs(&self, offset: usize, size: u32) -> (r: Result<(usize, usize), DtbError>)
        requires
            offset + 4 * size <= self.bytes().len(),
        ensures
            match read_cells(self.bytes(), offset as int, size as int) {
                Ok(v) => r matches Ok((x, used)) && x == v && used == 4 * size,
                Err(e) => r == Err::<(usize, usize), DtbError>(e),
            },
    {
        let b = self.blob;
        assert(b@.len() == b.len());
        if size as u64 > (usize::BITS / 32) as u64 {
            return Err(DtbError::CellsOverflow);
        }
        proof {
            lemma_cells_fit(b@, offset as int, size as nat);
            reveal_with_fuel(cells_value, 3);
        }
        if size == 0 {
            Ok((0, 0))
        } else if size == 1 {
            Ok((read_be32(b, offset) as usize, 4))
        } else {
            let hi = read_be32(b, offset) as u64;
            let lo = read_be32(b, offset + 4) as u64;
            let v: u64 = hi * 0x1_0000_0000 + lo;
            Ok((v as usize, 8))
        }
    }
}

/// The eight-byte header of a property record: payload length and the
/// offset of the property's name in the strings block.
pub struct FdtProperty {
    property_len: u32,
    name_offset: u32,
}

impl FdtProperty {
    pub closed spec fn spec_len(&self) -> u32 {
        self.property_len
    }

    pub closed spec fn spec_name_offset(&self) -> u32 {
        self.name_offset
    }

    /// Decodes the property header that starts at `offset`.
    pub fn read(blob: &[u8], offset: usize) -> (r: Option<FdtProperty>)
        ensures
            offset + 8 <= blob@.len() ==> (r matches Some(p) && p.spec_len() == be32(
                blob@,
                offset as int,
            ) && p.spec_name_offset() == be32(blob@, offset + 4)),
            offset + 8 > blob@.len() ==> r is None,
    {
        if offset > blob.len() || blob.len() - offset < 8 {
            None
        } else {
            Some(
                FdtProperty {
                    property_len: read_be32(blob, offset),
                    name_offset: read_be32(blob, offset + 4),
                },
            )
        }
    }

    pub fn get_property_len(&self) -> (r: u32)
        ensures
            r == self.spec_len(),
    {
        self.property_len
    }

    pub fn get_name_offset(&self) -> (r: u32)
        ensures
            r == self.spec_name_offset(),
    {
        self.name_offset
    }
}

/// One entry of the memory-reservation block: a 64-bit address and a 64-bit
/// size, both big-endian.
pub struct FdtReserveEntry {
    address: u64,
    size: u64,
}

/// The big-endian 64-bit word at `p`.
pub open spec fn be64(b: Seq<u8>, p: int) -> int {
    be32(b, p) * 0x1_0000_0000 + be32(b, p + 4)
}

impl FdtReserveEntry {
    pub closed spec fn spec_address(&self) -> u64 {
        self.address
    }

    pub closed spec fn spec_size(&self) -> u64 {
        self.size
    }

    /// Decodes the reservation entry that starts at `offset`.
    pub fn read(blob: &[u8], offset: usize) -> (r: Option<FdtReserveEntry>)
        ensures
            offset + 16 <= blob@.len() ==> (r matches Some(e) && e.spec_address() == be64(
                blob@,
                offset as int,
            ) && e.spec_size() == be64(blob@, offset + 8)),
            offset + 16 > blob@.len() ==> r is None,
    {
        if offset > blob.len() || blob.len() - offset < 16 {
            None
        } else {
            let a_hi = read_be32(blob, offset) as u64;
            let a_lo = read_be32(blob, offset + 4) as u64;
            let s_hi = read_be32(blob, offset + 8) as u64;
            let s_lo = read_be32(blob, offset + 12) as u64;
            Some(
                FdtReserveEntry {
                    address: a_hi * 0x1_0000_0000 + a_lo,
                    size: s_hi * 0x1_0000_0000 + s_lo,
                },
            )
        }
    }

    pub fn get_address(&self) -> (r: u64)
        ensures
            r == self.spec_address(),
    {
        self.address
    }

    pub fn get_size(&self) -> (r: u64)
        ensures
            r == self.spec_size(),
    {
        self.size
    }
}

} // verus!

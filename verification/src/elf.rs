//! Reading ELF images: the entry point of a program and the segments to load.

use vstd::prelude::*;
use vstd::slice::slice_to_vec;
use xmas_elf::header::HeaderPt2;
use xmas_elf::program::Type;
use xmas_elf::ElfFile;

verus! {

/// Whether the header starts with the four bytes that every ELF image starts with.
pub open spec fn has_elf_magic(h: ElfHeader) -> bool {
    h.magic0 == 0x7f && h.magic1 == 0x45 && h.magic2 == 0x4c && h.magic3 == 0x46
}

/// What the file header of an ELF image says.
#[derive(Clone, Copy, Debug, PartialEq, Eq, Structural)]
pub struct ElfHeader {
    /// The first byte of the image.
    pub magic0: u8,
    /// The second byte of the image.
    pub magic1: u8,
    /// The third byte of the image.
    pub magic2: u8,
    /// The fourth byte of the image.
    pub magic3: u8,
    /// Whether the image is of the 64-bit class.
    pub class64: bool,
    /// Address at which the program starts.
    pub entry_point: u64,
    /// Offset of the table of program headers in the image.
    pub ph_offset: u64,
    /// Size of one program header in the table.
    pub ph_entry_size: u16,
    /// Number of program headers.
    pub ph_count: u16,
}

/// The kind of a segment, as far as loading is concerned.
#[derive(Clone, Copy, Debug, PartialEq, Eq, Structural)]
pub enum SegmentKind {
    /// A segment to load into memory.
    Load,
    /// A segment of another valid type.
    Other,
    /// The type of the segment is no valid type.
    Invalid,
}

/// What a program header of an ELF image says.
#[derive(Clone, Copy, Debug, PartialEq, Eq, Structural)]
pub struct ProgramHeaderInfo {
    /// The kind of the segment.
    pub kind: SegmentKind,
    /// Whether the segment can be read.
    pub readable: bool,
    /// Whether the segment can be written.
    pub writable: bool,
    /// Whether the segment can be executed.
    pub executable: bool,
    /// Offset of the bytes of the segment in the image.
    pub offset: u64,
    /// Virtual address of the segment.
    pub virtual_addr: u64,
    /// Number of bytes of the segment in the image.
    pub file_size: u64,
    /// Number of bytes of the segment in memory.
    pub mem_size: u64,
}

/// What `xmas_elf::ElfFile::new` makes of the bytes of an image: the header, or nothing
/// if the bytes start no ELF image of a known class.
pub uninterp spec fn elf_header_of(data: Seq<u8>) -> Option<ElfHeader>;

/// What `xmas_elf::ElfFile::program_header` makes of the `index`-th program header of
/// an image, or nothing if the header says that there is no such program header.
pub uninterp spec fn elf_program_header_of(data: Seq<u8>, index: u16) -> Option<ProgramHeaderInfo>;

/// Whether the `index`-th program header can be read in place: if the header counts it
/// in, its bytes lie inside the image, are enough for a program header of the image's
/// class, and start at a multiple of the size of the words in it.
pub open spec fn program_header_in_place(h: ElfHeader, len: int, index: u16) -> bool {
    index < h.ph_count && h.ph_offset > 0 && h.ph_entry_size > 0 ==> {
        &&& h.ph_offset + (index + 1) * h.ph_entry_size <= len
        &&& h.ph_entry_size >= (if h.class64 {
            56int
        } else {
            32int
        })
        &&& (h.ph_offset + index * h.ph_entry_size) % (if h.class64 {
            8int
        } else {
            4int
        }) == 0
    }
}

/// Calls `xmas_elf::ElfFile::new` and reads the header it returns.
///
/// The result stands for exactly what the parser makes of these bytes; nothing more
/// is claimed of it. The parser reads the header in place and wants it at a multiple
/// of eight, so the bytes are handed to it in a buffer of their own, from the first
/// such place on.
#[verifier::external_body]
fn read_elf_header(data: &Vec<u8>) -> (r: Option<ElfHeader>)
    ensures
        r == elf_header_of(data@),
{
    let mut buf = vec![0u8; data.len() + 8];
    let at = (8 - buf.as_ptr() as usize % 8) % 8;
    buf[at..at + data.len()].copy_from_slice(data);
    let header = ElfFile::new(&buf[at..at + data.len()]).ok()?.header;
    Some(ElfHeader {
        magic0: header.pt1.magic[0], magic1: header.pt1.magic[1],
        magic2: header.pt1.magic[2], magic3: header.pt1.magic[3],
        class64: matches!(header.pt2, HeaderPt2::Header64(_)),
        entry_point: header.pt2.entry_point(), ph_offset: header.pt2.ph_offset(),
        ph_entry_size: header.pt2.ph_entry_size(), ph_count: header.pt2.ph_count(),
    })
}

/// Calls `xmas_elf::ElfFile::program_header` and reads the program header it returns.
///
/// The result stands for exactly what the parser makes of these bytes. The parser
/// reads the program header in place and stops the program if it cannot, so the
/// caller makes sure that it can; the bytes are handed to the parser in a buffer of
/// their own, from the first multiple of eight on.
#[verifier::external_body]
fn read_program_header(data: &Vec<u8>, index: u16) -> (r: Option<ProgramHeaderInfo>)
    requires
        elf_header_of(data@) matches Some(h) && program_header_in_place(h, data@.len() as int, index),
    ensures
        r == elf_program_header_of(data@, index),
{
    let mut buf = vec![0u8; data.len() + 8];
    let at = (8 - buf.as_ptr() as usize % 8) % 8;
    let end = at + data.len();
    buf[at..end].copy_from_slice(data);
    let ph = ElfFile::new(&buf[at..end]).ok()?.program_header(index).ok()?;
    let f = ph.flags();
    Some(ProgramHeaderInfo {
        kind: match ph.get_type() {
            Ok(Type::Load) => SegmentKind::Load,
            Ok(_) => SegmentKind::Other, Err(_) => SegmentKind::Invalid
        },
        readable: f.is_read(), writable: f.is_write(), executable: f.is_execute(),
        offset: ph.offset(), virtual_addr: ph.virtual_addr(), file_size: ph.file_size(),
        mem_size: ph.mem_size()
    })
}

/// Why the bytes at hand are no program that can be loaded.
#[derive(Clone, Copy, Debug, PartialEq, Eq, Structural)]
pub enum ElfError {
    /// The bytes do not start with an ELF header.
    NotElf,
    /// A program header lies outside the image, is cut short or misplaced, is missing,
    /// or has no valid type.
    BadProgramHeader,
}

/// A program read from an ELF image: where it starts, and its segments to load.
pub struct ElfImage {
    /// Address at which the program starts.
    pub entry_point: u64,
    /// The segments to load, in the order of their program headers.
    pub segments: Vec<ProgramHeaderInfo>,
}

/// The plain contents of a program.
pub struct ImageView {
    /// Address at which the program starts.
    pub entry_point: u64,
    /// The segments to load, in the order of their program headers.
    pub segments: Seq<ProgramHeaderInfo>,
}

impl View for ElfImage {
    type V = ImageView;

    open spec fn view(&self) -> ImageView {
        ImageView { entry_point: self.entry_point, segments: self.segments@ }
    }
}

/// Whether the `index`-th program header can be read and is of a valid type.
pub open spec fn program_header_ok(data: Seq<u8>, h: ElfHeader, index: u16) -> bool {
    &&& program_header_in_place(h, data.len() as int, index)
    &&& elf_program_header_of(data, index) matches Some(ph) && ph.kind != SegmentKind::Invalid
}

/// The segments to load among the first `n` program headers, in order.
pub open spec fn load_segments(data: Seq<u8>, n: int) -> Seq<ProgramHeaderInfo>
    decreases n,
{
    if n <= 0 {
        Seq::empty()
    } else {
        let before = load_segments(data, n - 1);
        match elf_program_header_of(data, (n - 1) as u16) {
            Some(ph) => if ph.kind == SegmentKind::Load {
                before.push(ph)
            } else {
                before
            },
            None => before,
        }
    }
}

/// The program that the bytes `data` hold: they must start with an ELF header with
/// the magic bytes, and every program header must be readable and of a valid type.
pub open spec fn elf_image_of(data: Seq<u8>) -> Result<ImageView, ElfError> {
    match elf_header_of(data) {
        None => Err(ElfError::NotElf),
        Some(h) => if !has_elf_magic(h) {
            Err(ElfError::NotElf)
        } else if !(forall|i: u16| i < h.ph_count ==> #[trigger] program_header_ok(data, h, i)) {
            Err(ElfError::BadProgramHeader)
        } else {
            Ok(
                ImageView {
                    entry_point: h.entry_point,
                    segments: load_segments(data, h.ph_count as int),
                },
            )
        },
    }
}

/// Whether the `index`-th program header of an image of `len` bytes can be read in
/// place.
fn in_place(h: &ElfHeader, len: usize, index: u16) -> (r: bool)
    ensures
        r == program_header_in_place(*h, len as int, index),
{
    if !(index < h.ph_count && h.ph_offset > 0 && h.ph_entry_size > 0) {
        return true;
    }
    let size: u64 = h.ph_entry_size as u64;
    let least: u64 = if h.class64 {
        56
    } else {
        32
    };
    let word: u64 = if h.class64 {
        8
    } else {
        4
    };
    assert((index + 1) * size <= 0x1_0000 * 0x1_0000 && index * size <= (index + 1) * size)
        by (nonlinear_arith)
        requires
            index < 0x1_0000,
            size < 0x1_0000,
    ;
    let span: u64 = (index as u64 + 1) * size;
    if h.ph_offset > u64::MAX - span {
        return false;
    }
    let end: u64 = h.ph_offset + span;
    if len as u64 as usize != len || end > len as u64 {
        return false;
    }
    size >= least && (h.ph_offset + index as u64 * size) % word == 0
}

/// Reads the program that the bytes `elf_data` hold.
pub fn parse_elf(elf_data: &[u8]) -> (r: Result<ElfImage, ElfError>)
    ensures
        match r {
            Ok(image) => elf_image_of(elf_data@) == Ok::<ImageView, ElfError>(image@),
            Err(e) => elf_image_of(elf_data@) == Err::<ImageView, ElfError>(e),
        },
{
    let data: Vec<u8> = slice_to_vec(elf_data);
    let header = match read_elf_header(&data) {
        Some(h) => h,
        None => {
            return Err(ElfError::NotElf);
        },
    };
    if !(header.magic0 == 0x7f && header.magic1 == 0x45 && header.magic2 == 0x4c
        && header.magic3 == 0x46) {
        return Err(ElfError::NotElf);
    }
    let mut segments: Vec<ProgramHeaderInfo> = Vec::new();
    let mut i: u16 = 0;
    while i < header.ph_count
        invariant
            i <= header.ph_count,
            data@ == elf_data@,
            elf_header_of(data@) == Some(header),
            has_elf_magic(header),
            segments@ == load_segments(data@, i as int),
            forall|j: u16| j < i ==> #[trigger] program_header_ok(data@, header, j),
        decreases header.ph_count - i,
    {
        if !in_place(&header, data.len(), i) {
            assert(!program_header_ok(elf_data@, header, i));
            return Err(ElfError::BadProgramHeader);
        }
        match read_program_header(&data, i) {
            None => {
                assert(!program_header_ok(elf_data@, header, i));
                return Err(ElfError::BadProgramHeader);
            },
            Some(ph) => {
                match ph.kind {
                    SegmentKind::Invalid => {
                        assert(!program_header_ok(elf_data@, header, i));
                        return Err(ElfError::BadProgramHeader);
                    },
                    SegmentKind::Load => {
                        segments.push(ph);
                    },
                    SegmentKind::Other => {},
                }
            },
        }
        assert(program_header_ok(data@, header, i));
        i = i + 1;
    }
    assert(forall|j: u16| j < header.ph_count ==> #[trigger] program_header_ok(elf_data@, header, j));
    Ok(ElfImage { entry_point: header.entry_point, segments })
}

} // verus!

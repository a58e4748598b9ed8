//! ELF images, as the loader sees them: the entry point and the loadable
//! segments with their bytes.
//!
//! Header parsing is done by the `xmas-elf` crate behind one trusted
//! wrapper. Before the wrapper runs, a verified gate checks the byte
//! facts that keep parsing total: a 64-bit class, and a program-header
//! table whose offset, entry size and extent fit the eight-byte reads
//! the parser performs. The wrapper itself parses an eight-aligned copy
//! of the input, so the alignment the parser's reads assert always
//! holds, and it hands back plain values only; the segment payloads are
//! sliced out of the original bytes by verified code.

use vstd::prelude::*;

use xmas_elf::program::Type;
use xmas_elf::ElfFile;

verus! {

/// The little-endian 16-bit value at byte offset `off`.
pub open spec fn spec_u16_le(d: Seq<u8>, off: int) -> int {
    d[off] + 0x100 * d[off + 1]
}

/// The little-endian 64-bit value at byte offset `off`.
pub open spec fn spec_u64_le(d: Seq<u8>, off: int) -> int {
    d[off] + 0x100 * d[off + 1] + 0x1_0000 * d[off + 2] + 0x100_0000 * d[off + 3]
        + 0x1_0000_0000 * d[off + 4] + 0x100_0000_0000 * d[off + 5] + 0x1_0000_0000_0000 * d[off
        + 6] + 0x100_0000_0000_0000 * d[off + 7]
}

fn read_u16_le(d: &[u8], off: usize) -> (r: u64)
    requires
        off + 2 <= d@.len(),
    ensures
        r == spec_u16_le(d@, off as int),
        r < 0x1_0000,
{
    d[off] as u64 + 0x100 * (d[off + 1] as u64)
}

fn read_u64_le(d: &[u8], off: usize) -> (r: u64)
    requires
        off + 8 <= d@.len(),
    ensures
        r == spec_u64_le(d@, off as int),
{
    d[off] as u64 + 0x100 * (d[off + 1] as u64) + 0x1_0000 * (d[off + 2] as u64) + 0x100_0000 * (
    d[off + 3] as u64) + 0x1_0000_0000 * (d[off + 4] as u64) + 0x100_0000_0000 * (d[off + 5]
        as u64) + 0x1_0000_0000_0000 * (d[off + 6] as u64) + 0x100_0000_0000_0000 * (d[off + 7]
        as u64)
}

/// The byte facts under which the parser's reads are total: a 64-bit
/// image whose program-header table lies inside the bytes, with entries
/// at least one header long and offsets in the eight-byte grid the
/// parser's typed reads require.
pub open spec fn phdr_table_ok(d: Seq<u8>) -> bool {
    &&& d.len() >= 64
    &&& d[4] == 2
    &&& {
        let po = spec_u64_le(d, 32);
        let pe = spec_u16_le(d, 54);
        let pc = spec_u16_le(d, 56);
        pc == 0 || (pe >= 56 && pe % 8 == 0 && po % 8 == 0 && po + pe * pc <= d.len())
    }
}

/// The executable gate for `phdr_table_ok`.
pub fn phdrs_ok(data: &[u8]) -> (r: bool)
    ensures
        r == phdr_table_ok(data@),
{
    let n = data.len();
    if n < 64 {
        return false;
    }
    if data[4] != 2 {
        return false;
    }
    let po = read_u64_le(data, 32);
    let pe = read_u16_le(data, 54);
    let pc = read_u16_le(data, 56);
    proof {
        assert(pe * pc < 0x1_0000_0000) by (nonlinear_arith)
            requires pe < 0x1_0000 && pc < 0x1_0000,
        ;
    }
    pc == 0 || (pe >= 56 && pe % 8 == 0 && po % 8 == 0 && po <= n as u64 && pe * pc <= n as u64
        - po)
}

/// One loadable segment: where it goes, how big it is in memory, its
/// permissions, and its file bytes (the rest of the region is zero).
pub struct ElfSegment {
    pub start_va: u64,
    pub mem_size: u64,
    pub readable: bool,
    pub writable: bool,
    pub executable: bool,
    pub data: Vec<u8>,
}

/// Ghost shape of a segment.
pub ghost struct ElfSegmentView {
    pub start_va: u64,
    pub mem_size: u64,
    pub readable: bool,
    pub writable: bool,
    pub executable: bool,
    pub data: Seq<u8>,
}

impl View for ElfSegment {
    type V = ElfSegmentView;

    open spec fn view(&self) -> ElfSegmentView {
        ElfSegmentView {
            start_va: self.start_va,
            mem_size: self.mem_size,
            readable: self.readable,
            writable: self.writable,
            executable: self.executable,
            data: self.data@,
        }
    }
}

/// A parsed ELF image: entry point plus the loadable segments in header
/// order.
pub struct ElfImage {
    pub entry: u64,
    pub segments: Vec<ElfSegment>,
}

/// Ghost shape of an image.
pub ghost struct ElfImageView {
    pub entry: u64,
    pub segments: Seq<ElfSegmentView>,
}

impl View for ElfImage {
    type V = ElfImageView;

    open spec fn view(&self) -> ElfImageView {
        ElfImageView {
            entry: self.entry,
            segments: self.segments@.map(|i: int, s: ElfSegment| s@),
        }
    }
}

/// A loadable segment as the header table states it, before its file
/// bytes are attached: plain values only.
pub struct ElfRawSegment {
    pub start_va: u64,
    pub mem_size: u64,
    pub offset: u64,
    pub file_size: u64,
    pub readable: bool,
    pub writable: bool,
    pub executable: bool,
}

/// Ghost shape of a raw segment.
pub ghost struct ElfRawSegmentView {
    pub start_va: u64,
    pub mem_size: u64,
    pub offset: u64,
    pub file_size: u64,
    pub readable: bool,
    pub writable: bool,
    pub executable: bool,
}

impl View for ElfRawSegment {
    type V = ElfRawSegmentView;

    open spec fn view(&self) -> ElfRawSegmentView {
        ElfRawSegmentView {
            start_va: self.start_va,
            mem_size: self.mem_size,
            offset: self.offset,
            file_size: self.file_size,
            readable: self.readable,
            writable: self.writable,
            executable: self.executable,
        }
    }
}

/// The header-table content of an image: entry point and raw segments.
pub struct ElfRaw {
    pub entry: u64,
    pub segments: Vec<ElfRawSegment>,
}

/// Ghost shape of the header-table content.
pub ghost struct ElfRawView {
    pub entry: u64,
    pub segments: Seq<ElfRawSegmentView>,
}

impl View for ElfRaw {
    type V = ElfRawView;

    open spec fn view(&self) -> ElfRawView {
        ElfRawView {
            entry: self.entry,
            segments: self.segments@.map(|i: int, s: ElfRawSegment| s@),
        }
    }
}

/// Builds one raw segment from its plain values; the permission flags
/// come as the `p_flags` word, whose low bits mean X, W and R.
fn raw_seg(start_va: u64, mem_size: u64, offset: u64, file_size: u64, flags: u32) -> (r:
    ElfRawSegment)
    ensures
        r@ == (ElfRawSegmentView {
            start_va,
            mem_size,
            offset,
            file_size,
            readable: flags & 4 == 4,
            writable: flags & 2 == 2,
            executable: flags & 1 == 1,
        }),
{
    ElfRawSegment {
        start_va,
        mem_size,
        offset,
        file_size,
        readable: flags & 4 == 4,
        writable: flags & 2 == 2,
        executable: flags & 1 == 1,
    }
}

/// What the header table of a gated byte string states: the entry point
/// and the `PT_LOAD` entries, or nothing when the bytes are not a
/// well-formed ELF file. The result depends on the bytes alone.
pub uninterp spec fn elf_raw_of(data: Seq<u8>) -> Option<ElfRawView>;

/// Relies on `xmas_elf::ElfFile::new` and the program-header accessors
/// of xmas-elf: they validate the header (magic `7f 45 4c 46` included)
/// and expose each entry's type, virtual address, sizes, flags and file
/// span (the `p_flags` word's low bits mean X, W, R, as the `Flags`
/// accessors read them). Under `phdr_table_ok` every read stays within
/// the buffer, and
/// the buffer is an eight-aligned duplicate of the input, so the typed
/// reads' alignment assertions hold.
#[verifier::external_body]
fn parse_elf_raw(data: &[u8]) -> (r: Option<ElfRaw>)
    requires
        phdr_table_ok(data@),
    ensures
        match r {
            Some(rw) => elf_raw_of(data@) == Some(rw@),
            None => elf_raw_of(data@) is None,
        },
{
    let n = data.len();
    let mut buf = vec![0u64; n / 8 + 1];
    let bm: &mut [u8] = bytemuck::cast_slice_mut(&mut buf);
    bm[..n].copy_from_slice(data);
    let elf = ElfFile::new(&bm[..n]).ok()?;
    let mut segments = Vec::new();
    for i in 0..elf.header.pt2.ph_count() {
        let ph = elf.program_header(i).ok()?;
        if ph.get_type().ok()? == Type::Load {
            segments.push(raw_seg(ph.virtual_addr(), ph.mem_size(), ph.offset(),
                ph.file_size(), ph.flags().0));
        }
    }
    Some(ElfRaw { entry: elf.header.pt2.entry_point(), segments })
}

/// Every raw segment's file range lies inside the bytes.
pub open spec fn raw_bounds_ok(segs: Seq<ElfRawSegmentView>, len: int) -> bool {
    forall|k: int|
        0 <= k < segs.len() ==> (#[trigger] segs[k]).offset + segs[k].file_size <= len
}

/// The file bytes of a raw segment attached.
pub open spec fn seg_of_raw(r: ElfRawSegmentView, data: Seq<u8>) -> ElfSegmentView {
    ElfSegmentView {
        start_va: r.start_va,
        mem_size: r.mem_size,
        readable: r.readable,
        writable: r.writable,
        executable: r.executable,
        data: data.subrange(r.offset as int, r.offset + r.file_size),
    }
}

/// What parsing a byte string yields: for a gated, well-formed image,
/// the entry point and the loadable segments with their file bytes;
/// nothing otherwise.
pub open spec fn elf_image_of(data: Seq<u8>) -> Option<ElfImageView> {
    if !phdr_table_ok(data) {
        None
    } else {
        match elf_raw_of(data) {
            Some(rw) => if raw_bounds_ok(rw.segments, data.len() as int) {
                Some(
                    ElfImageView {
                        entry: rw.entry,
                        segments: Seq::new(
                            rw.segments.len(),
                            |k: int| seg_of_raw(rw.segments[k], data),
                        ),
                    },
                )
            } else {
                None
            },
            None => None,
        }
    }
}

/// Copy of the byte range `[lo, hi)`.
fn bytes_range(data: &[u8], lo: usize, hi: usize) -> (r: Vec<u8>)
    requires
        lo <= hi <= data@.len(),
    ensures
        r@ == data@.subrange(lo as int, hi as int),
{
    let mut r: Vec<u8> = Vec::new();
    let mut i: usize = lo;
    while i < hi
        invariant
            lo <= i <= hi <= data@.len(),
            r@ == data@.subrange(lo as int, i as int),
        decreases hi - i,
    {
        r.push(data[i]);
        proof {
            assert(r@ =~= data@.subrange(lo as int, i + 1));
        }
        i = i + 1;
    }
    r
}

/// Parses `data`: the verified gate first, then the trusted header
/// parse on an aligned copy, then the payload slices out of the
/// original bytes.
pub fn parse_elf(data: &[u8]) -> (r: Option<ElfImage>)
    ensures
        match r {
            Some(img) => elf_image_of(data@) == Some(img@),
            None => elf_image_of(data@) is None,
        },
{
    if !phdrs_ok(data) {
        return None;
    }
    let rw = match parse_elf_raw(data) {
        Some(rw) => rw,
        None => {
            return None;
        },
    };
    let n = data.len();
    let mut segments: Vec<ElfSegment> = Vec::new();
    let m = rw.segments.len();
    let ghost img = elf_image_of(data@);
    let mut k: usize = 0;
    while k < m
        invariant
            k <= m,
            m == rw@.segments.len(),
            n == data@.len(),
            phdr_table_ok(data@),
            elf_raw_of(data@) == Some(rw@),
            segments@.len() == k,
            forall|j: int|
                0 <= j < k ==> (#[trigger] rw@.segments[j]).offset + rw@.segments[j].file_size
                    <= n,
            forall|j: int|
                0 <= j < k ==> (#[trigger] segments@[j])@ == seg_of_raw(rw@.segments[j], data@),
        decreases m - k,
    {
        let s = &rw.segments[k];
        if s.offset > n as u64 || s.file_size > n as u64 - s.offset {
            proof {
                assert(s@ == rw@.segments[k as int]);
                assert(rw@.segments[k as int].offset + rw@.segments[k as int].file_size > n);
                assert(!raw_bounds_ok(rw@.segments, n as int));
            }
            return None;
        }
        let payload = bytes_range(data, s.offset as usize, (s.offset + s.file_size) as usize);
        segments.push(
            ElfSegment {
                start_va: s.start_va,
                mem_size: s.mem_size,
                readable: s.readable,
                writable: s.writable,
                executable: s.executable,
                data: payload,
            },
        );
        proof {
            assert((segments@[k as int])@ =~= seg_of_raw(rw@.segments[k as int], data@));
        }
        k = k + 1;
    }
    let img_out = ElfImage { entry: rw.entry, segments };
    proof {
        assert(raw_bounds_ok(rw@.segments, n as int));
        assert(img_out@.segments =~= elf_image_of(data@).unwrap().segments);
        assert(img_out@ =~~= elf_image_of(data@).unwrap());
    }
    Some(img_out)
}

} // verus!

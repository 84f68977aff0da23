//! Extraction tests: hand-built 32-bit little-endian ELF images run
//! through `extract_data`, checking segment selection, sorting,
//! coalescing, the rejection of malformed files, and the stability of the
//! result.

use saml10::ErrorKind;
use saml10::elf::extract_data;
use saml10::elf::DataChunk;

const EHSIZE: usize = 52;
const PHENT: usize = 32;
const SHENT: usize = 40;
const PT_LOAD: u32 = 1;
const SHT_PROGBITS: u32 = 1;
const SHT_NOBITS: u32 = 8;

fn put_u16(buf: &mut [u8], off: usize, v: u16) {
    buf[off] = (v & 0xFF) as u8;
    buf[off + 1] = (v >> 8) as u8;
}

fn put_u32(buf: &mut [u8], off: usize, v: u32) {
    buf[off] = (v & 0xFF) as u8;
    buf[off + 1] = ((v >> 8) & 0xFF) as u8;
    buf[off + 2] = ((v >> 16) & 0xFF) as u8;
    buf[off + 3] = ((v >> 24) & 0xFF) as u8;
}

/// A zeroed ELF image with a valid header: `phnum` program headers at
/// offset 52, `shnum` section headers after them, and `extra` data bytes
/// after that.
fn mk_elf(phnum: usize, shnum: usize, extra: usize) -> Vec<u8> {
    let total = EHSIZE + phnum * PHENT + shnum * SHENT + extra;
    let mut e = vec![0u8; total];
    e[0] = 0x7F;
    e[1] = 0x45;
    e[2] = 0x4C;
    e[3] = 0x46;
    e[4] = 1; // ELFCLASS32
    e[5] = 1; // little-endian
    e[6] = 1; // EV_CURRENT
    put_u16(&mut e, 16, 2); // ET_EXEC
    put_u16(&mut e, 18, 0x28); // ARM
    put_u32(&mut e, 20, 1);
    put_u32(&mut e, 28, EHSIZE as u32); // e_phoff
    put_u32(&mut e, 32, (EHSIZE + phnum * PHENT) as u32); // e_shoff
    put_u16(&mut e, 40, EHSIZE as u16);
    put_u16(&mut e, 42, PHENT as u16);
    put_u16(&mut e, 44, phnum as u16);
    put_u16(&mut e, 46, SHENT as u16);
    put_u16(&mut e, 48, shnum as u16);
    e
}

fn data_off(phnum: usize, shnum: usize) -> usize {
    EHSIZE + phnum * PHENT + shnum * SHENT
}

fn set_phdr(e: &mut [u8], i: usize, ptype: u32, off: u32, paddr: u32, filesz: u32) {
    let base = EHSIZE + i * PHENT;
    put_u32(e, base, ptype);
    put_u32(e, base + 4, off);
    put_u32(e, base + 8, paddr); // p_vaddr, unused by the loader
    put_u32(e, base + 12, paddr);
    put_u32(e, base + 16, filesz);
    put_u32(e, base + 20, filesz); // p_memsz
}

fn set_shdr(e: &mut [u8], phnum: usize, j: usize, stype: u32, off: u32, size: u32) {
    let base = EHSIZE + phnum * PHENT + j * SHENT;
    put_u32(e, base + 4, stype);
    put_u32(e, base + 16, off);
    put_u32(e, base + 20, size);
}

/// One loadable segment with a covering section; the canonical good file.
fn one_segment_elf(paddr: u32, bytes: &[u8]) -> Vec<u8> {
    let doff = data_off(1, 1) as u32;
    let mut e = mk_elf(1, 1, bytes.len());
    set_phdr(&mut e, 0, PT_LOAD, doff, paddr, bytes.len() as u32);
    set_shdr(&mut e, 1, 0, SHT_PROGBITS, doff, bytes.len() as u32);
    e[doff as usize..doff as usize + bytes.len()].copy_from_slice(bytes);
    e
}

#[test]
fn extracts_single_loadable_segment() {
    let bytes: Vec<u8> = (0..100u32).map(|i| (i & 0xFF) as u8).collect();
    let e = one_segment_elf(0x100, &bytes);
    let fd = extract_data(e.clone()).unwrap();
    assert_eq!(fd.bin_data, e);
    assert_eq!(fd.chunks.len(), 1);
    let c = &fd.chunks[0];
    assert_eq!(c.address, 0x100);
    assert_eq!(c.segment_filesize, 100);
    let o = c.segment_offset as usize;
    assert_eq!(&fd.bin_data[o..o + 100], &bytes[..]);
    assert!(fd.check_wf());
}

#[test]
fn empty_file_is_image_error() {
    assert!(matches!(extract_data(Vec::new()), Err(ErrorKind::ImageError)));
}

#[test]
fn bad_magic_is_image_error() {
    let mut e = one_segment_elf(0, &[1, 2, 3]);
    e[1] = 0x00;
    assert!(matches!(extract_data(e), Err(ErrorKind::ImageError)));
}

#[test]
fn sixty_four_bit_class_is_image_error() {
    let mut e = one_segment_elf(0, &[1, 2, 3]);
    e[4] = 2; // ELFCLASS64
    assert!(matches!(extract_data(e), Err(ErrorKind::ImageError)));
}

#[test]
fn big_endian_is_image_error() {
    let mut e = one_segment_elf(0, &[1, 2, 3]);
    e[5] = 2; // big-endian data
    assert!(matches!(extract_data(e), Err(ErrorKind::ImageError)));
}

#[test]
fn truncated_segment_is_image_error() {
    let doff = data_off(1, 1) as u32;
    let mut e = mk_elf(1, 1, 10);
    // Claims more bytes than the file holds.
    set_phdr(&mut e, 0, PT_LOAD, doff, 0, 1000);
    set_shdr(&mut e, 1, 0, SHT_PROGBITS, doff, 10);
    assert!(matches!(extract_data(e), Err(ErrorKind::ImageError)));
}

#[test]
fn non_loadable_segments_are_skipped() {
    let doff = data_off(2, 1) as u32;
    let mut e = mk_elf(2, 1, 20);
    set_phdr(&mut e, 0, 4, doff, 0x0, 10); // PT_NOTE
    set_phdr(&mut e, 1, PT_LOAD, doff + 10, 0x200, 10);
    set_shdr(&mut e, 2, 0, SHT_PROGBITS, doff + 10, 10);
    let fd = extract_data(e).unwrap();
    assert_eq!(fd.chunks.len(), 1);
    assert_eq!(fd.chunks[0].address, 0x200);
}

#[test]
fn zero_size_segments_are_skipped() {
    let doff = data_off(2, 1) as u32;
    let mut e = mk_elf(2, 1, 20);
    set_phdr(&mut e, 0, PT_LOAD, doff, 0x0, 0);
    set_phdr(&mut e, 1, PT_LOAD, doff, 0x200, 20);
    set_shdr(&mut e, 2, 0, SHT_PROGBITS, doff, 20);
    let fd = extract_data(e).unwrap();
    assert_eq!(fd.chunks.len(), 1);
    assert_eq!(fd.chunks[0].address, 0x200);
}

#[test]
fn segment_without_covering_section_is_skipped() {
    let doff = data_off(2, 1) as u32;
    let mut e = mk_elf(2, 1, 40);
    set_phdr(&mut e, 0, PT_LOAD, doff, 0x0, 20);
    set_phdr(&mut e, 1, PT_LOAD, doff + 20, 0x200, 20);
    // Only the second segment is covered by a section.
    set_shdr(&mut e, 2, 0, SHT_PROGBITS, doff + 20, 20);
    let fd = extract_data(e).unwrap();
    assert_eq!(fd.chunks.len(), 1);
    assert_eq!(fd.chunks[0].address, 0x200);
}

#[test]
fn nobits_section_does_not_cover() {
    let doff = data_off(1, 1) as u32;
    let mut e = mk_elf(1, 1, 20);
    set_phdr(&mut e, 0, PT_LOAD, doff, 0x0, 20);
    set_shdr(&mut e, 1, 0, SHT_NOBITS, doff, 20);
    let fd = extract_data(e).unwrap();
    assert_eq!(fd.chunks.len(), 0);
}

#[test]
fn segments_are_sorted_by_address() {
    let doff = data_off(2, 2) as u32;
    let mut e = mk_elf(2, 2, 40);
    set_phdr(&mut e, 0, PT_LOAD, doff, 0x400, 20);
    set_phdr(&mut e, 1, PT_LOAD, doff + 20, 0x100, 20);
    set_shdr(&mut e, 2, 0, SHT_PROGBITS, doff, 20);
    set_shdr(&mut e, 2, 1, SHT_PROGBITS, doff + 20, 20);
    let fd = extract_data(e).unwrap();
    assert_eq!(fd.chunks.len(), 2);
    assert_eq!(fd.chunks[0].address, 0x100);
    assert_eq!(fd.chunks[1].address, 0x400);
}

/// Two segments contiguous both in flash and in the file fuse into one
/// chunk (the scenario that then spans two rows when programmed).
#[test]
fn contiguous_segments_fuse() {
    let doff = data_off(2, 2) as u32;
    let mut e = mk_elf(2, 2, 320);
    set_phdr(&mut e, 0, PT_LOAD, doff, 0x0000, 200);
    set_phdr(&mut e, 1, PT_LOAD, doff + 200, 0x00C8, 120);
    set_shdr(&mut e, 2, 0, SHT_PROGBITS, doff, 200);
    set_shdr(&mut e, 2, 1, SHT_PROGBITS, doff + 200, 120);
    for i in 0..320usize {
        e[doff as usize + i] = (i & 0xFF) as u8;
    }
    let fd = extract_data(e).unwrap();
    assert_eq!(fd.chunks.len(), 1);
    let c = &fd.chunks[0];
    assert_eq!(c.address, 0x0000);
    assert_eq!(c.segment_offset, doff as u64);
    assert_eq!(c.segment_filesize, 320);
}

/// Segments contiguous in flash but not in the file are kept apart: the
/// backing buffer does not present their bytes contiguously.
#[test]
fn address_contiguous_but_file_gapped_segments_stay_apart() {
    let doff = data_off(2, 2) as u32;
    let mut e = mk_elf(2, 2, 64);
    set_phdr(&mut e, 0, PT_LOAD, doff, 0x0000, 16);
    // 16-byte hole in the file between the two segments.
    set_phdr(&mut e, 1, PT_LOAD, doff + 32, 0x0010, 16);
    set_shdr(&mut e, 2, 0, SHT_PROGBITS, doff, 16);
    set_shdr(&mut e, 2, 1, SHT_PROGBITS, doff + 32, 16);
    let fd = extract_data(e).unwrap();
    assert_eq!(fd.chunks.len(), 2);
    assert_eq!(fd.chunks[0].address, 0x0000);
    assert_eq!(fd.chunks[1].address, 0x0010);
}

#[test]
fn overlapping_segments_are_image_error() {
    let doff = data_off(2, 2) as u32;
    let mut e = mk_elf(2, 2, 40);
    set_phdr(&mut e, 0, PT_LOAD, doff, 0x100, 20);
    set_phdr(&mut e, 1, PT_LOAD, doff + 20, 0x108, 20);
    set_shdr(&mut e, 2, 0, SHT_PROGBITS, doff, 20);
    set_shdr(&mut e, 2, 1, SHT_PROGBITS, doff + 20, 20);
    assert!(matches!(extract_data(e), Err(ErrorKind::ImageError)));
}

#[test]
fn chunk_past_address_space_is_image_error() {
    let doff = data_off(1, 1) as u32;
    let mut e = mk_elf(1, 1, 20);
    set_phdr(&mut e, 0, PT_LOAD, doff, 0xFFFF_FFF0, 20);
    set_shdr(&mut e, 1, 0, SHT_PROGBITS, doff, 20);
    assert!(matches!(extract_data(e), Err(ErrorKind::ImageError)));
}

/// The extracted chunk list is strictly sorted, disjoint, and leaves no
/// fusible neighbours.
#[test]
fn extracted_chunks_hold_invariants() {
    let doff = data_off(3, 3) as u32;
    let mut e = mk_elf(3, 3, 96);
    set_phdr(&mut e, 0, PT_LOAD, doff, 0x300, 32);
    set_phdr(&mut e, 1, PT_LOAD, doff + 32, 0x100, 32);
    set_phdr(&mut e, 2, PT_LOAD, doff + 64, 0x120, 32);
    set_shdr(&mut e, 3, 0, SHT_PROGBITS, doff, 32);
    set_shdr(&mut e, 3, 1, SHT_PROGBITS, doff + 32, 32);
    set_shdr(&mut e, 3, 2, SHT_PROGBITS, doff + 64, 32);
    let fd = extract_data(e).unwrap();
    // 0x100 and 0x120 fuse (contiguous in flash and file); 0x300 stays.
    assert_eq!(fd.chunks.len(), 2);
    assert_eq!(
        fd.chunks[0],
        DataChunk {
            address: 0x100,
            segment_offset: (doff + 32) as u64,
            segment_filesize: 64,
        }
    );
    assert_eq!(fd.chunks[1].address, 0x300);
    for w in fd.chunks.windows(2) {
        let end = w[0].address as u64 + w[0].segment_filesize;
        assert!(end <= w[1].address as u64);
        assert!(w[0].address < w[1].address);
        let file_end = w[0].segment_offset + w[0].segment_filesize;
        assert!(!(end == w[1].address as u64 && file_end == w[1].segment_offset));
    }
    assert!(fd.check_wf());
}

/// Two back-to-back loads of the same bytes yield byte-equal chunk lists.
#[test]
fn extraction_is_stable() {
    let bytes: Vec<u8> = (0..500u32).map(|i| (i * 11 & 0xFF) as u8).collect();
    let e = one_segment_elf(0x0, &bytes);
    let fd1 = extract_data(e.clone()).unwrap();
    let fd2 = extract_data(e).unwrap();
    assert_eq!(fd1.chunks, fd2.chunks);
    assert_eq!(fd1.bin_data, fd2.bin_data);
}

#[test]
fn row_alignment_check() {
    let aligned = one_segment_elf(0x200, &[1, 2, 3]);
    let fd = extract_data(aligned).unwrap();
    assert!(fd.check_row_aligned());

    let misaligned = one_segment_elf(0x201, &[1, 2, 3]);
    let fd2 = extract_data(misaligned).unwrap();
    assert!(!fd2.check_row_aligned());
}

use featscan::binary::{Arch, Binary, Section, Segment};
use featscan::counts::has_cpuid_usage;
use featscan::error::AppError;
use featscan::task::{Decoder, Task, TaskCount};

fn section(text: bool, range: Option<(u64, u64)>, name: &str) -> Section {
    Section { text, range, name: Some(name.to_string()) }
}

fn binary(arch: Arch, architecture: object::Architecture, sections: Vec<Section>) -> Binary {
    Binary::new(object::BinaryFormat::Elf, architecture, arch, sections)
}

#[test]
fn only_code_sections_with_bytes_are_kept() {
    let b = binary(
        Arch::X86_64,
        object::Architecture::X86_64,
        vec![
            section(false, Some((0, 10)), ".data"),
            section(true, Some((64, 128)), ".text"),
            section(true, None, ".bss_code"),
            Section { text: true, range: Some((512, 4)), name: None },
        ],
    );
    let segments = b.into_segments();
    assert_eq!(segments.len(), 2);
    assert_eq!(segments[0], Segment::new(Some(".text".to_string()), 64, 128));
    assert_eq!(segments[0].name(), Some(".text"));
    assert_eq!((segments[1].offset(), segments[1].size()), (512, 4));
    assert_eq!(segments[1].name(), None);
}

#[test]
fn bitness_of_each_architecture() {
    assert_eq!(binary(Arch::X86_64, object::Architecture::X86_64, vec![]).bitness(), Some(64));
    assert_eq!(binary(Arch::I386, object::Architecture::I386, vec![]).bitness(), Some(32));
    assert_eq!(
        binary(Arch::X86_64X32, object::Architecture::X86_64_X32, vec![]).bitness(),
        Some(32)
    );
    assert_eq!(binary(Arch::Other, object::Architecture::Arm, vec![]).bitness(), None);
}

#[test]
fn other_architecture_is_refused_before_sections_are_looked_at() {
    let b = binary(Arch::Other, object::Architecture::Arm, vec![section(true, Some((0, 4)), ".text")]);
    assert_eq!(b.target().err(), Some(AppError::WrongArch));
    let b = binary(Arch::Other, object::Architecture::Arm, vec![]);
    assert_eq!(b.target().err(), Some(AppError::WrongArch));
}

#[test]
fn binary_without_code_is_refused() {
    let b = binary(Arch::X86_64, object::Architecture::X86_64, vec![section(false, Some((0, 4)), ".data")]);
    assert_eq!(b.target().err(), Some(AppError::NoText));
}

#[test]
fn target_gives_bitness_and_segments() {
    let b = binary(Arch::I386, object::Architecture::I386, vec![section(true, Some((16, 32)), ".text")]);
    let (bitness, segments) = b.target().unwrap();
    assert_eq!(bitness, 32);
    assert_eq!(segments.len(), 1);
    assert_eq!(segments[0].offset(), 16);
}

#[test]
fn parse_refuses_bytes_that_are_no_object_file() {
    assert!(Binary::parse(b"not an object file").is_err());
}

#[test]
fn error_messages() {
    assert_eq!(AppError::WrongTarget.message(), "Should target a file");
    assert_eq!(AppError::WrongArch.message(), "Unsupported architecture");
    assert_eq!(AppError::NoText.message(), "No 'text' sections found in the file");
}

fn put16(v: &mut Vec<u8>, x: u16) {
    v.extend_from_slice(&x.to_le_bytes());
}

fn put32(v: &mut Vec<u8>, x: u32) {
    v.extend_from_slice(&x.to_le_bytes());
}

fn put64(v: &mut Vec<u8>, x: u64) {
    v.extend_from_slice(&x.to_le_bytes());
}

#[allow(clippy::too_many_arguments)]
fn section_header(v: &mut Vec<u8>, name: u32, kind: u32, flags: u64, offset: u64, size: u64, align: u64) {
    put32(v, name);
    put32(v, kind);
    put64(v, flags);
    put64(v, 0);
    put64(v, offset);
    put64(v, size);
    put32(v, 0);
    put32(v, 0);
    put64(v, align);
    put64(v, 0);
}

/// A little-endian ELF64 executable for `machine`; with `sections`, it has
/// a `.text` section holding `cpuid` and a section name table.
fn elf64(machine: u16, sections: bool) -> Vec<u8> {
    let mut v = vec![0x7f, b'E', b'L', b'F', 2, 1, 1, 0, 0, 0, 0, 0, 0, 0, 0, 0];
    put16(&mut v, 2);
    put16(&mut v, machine);
    put32(&mut v, 1);
    put64(&mut v, 0);
    put64(&mut v, 0);
    put64(&mut v, if sections { 104 } else { 0 });
    put32(&mut v, 0);
    put16(&mut v, 64);
    put16(&mut v, 56);
    put16(&mut v, 0);
    put16(&mut v, 64);
    put16(&mut v, if sections { 3 } else { 0 });
    put16(&mut v, if sections { 2 } else { 0 });
    assert_eq!(v.len(), 64);
    if sections {
        v.extend_from_slice(&[0x0f, 0xa2]);
        v.resize(80, 0);
        v.extend_from_slice(b"\0.text\0.shstrtab\0");
        v.resize(104, 0);
        section_header(&mut v, 0, 0, 0, 0, 0, 0);
        section_header(&mut v, 1, 1, 6, 64, 2, 16);
        section_header(&mut v, 7, 3, 0, 80, 17, 1);
    }
    v
}

#[test]
fn parse_reads_architecture_and_code_sections() {
    let data = elf64(62, true);
    let b = Binary::parse(&data).unwrap();
    assert_eq!(b.arch, Arch::X86_64);
    assert_eq!(b.bitness(), Some(64));
    assert_eq!(b.segments.len(), 1);
    assert_eq!(b.segments[0], Segment::new(Some(".text".to_string()), 64, 2));
    let (bitness, segments) = b.target().unwrap();
    let mut decoder = Decoder::new(bitness, TaskCount::new());
    assert!(decoder.read_segments(&data, &segments).is_ok());
    assert!(has_cpuid_usage(&decoder.into_result()));
}

#[test]
fn parse_then_target_refuses_an_arm_binary() {
    let b = Binary::parse(&elf64(40, true)).unwrap();
    assert_eq!(b.arch, Arch::Other);
    assert_eq!(b.target().err(), Some(AppError::WrongArch));
}

#[test]
fn parse_then_target_refuses_a_binary_without_sections() {
    let b = Binary::parse(&elf64(62, false)).unwrap();
    assert!(b.segments.is_empty());
    assert_eq!(b.target().err(), Some(AppError::NoText));
}

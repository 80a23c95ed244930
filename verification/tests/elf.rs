//! Section names, object files and flat programs.

use ebpf_lab::elf::{
    load_bytes, programs_from, raw_program, tries_raw, ElfError, ProgType, RawSection, SectionKind,
};

#[test]
fn section_name_mapping() {
    assert_eq!(ProgType::from_section_name("xdp"), Some(ProgType::Xdp));
    assert_eq!(ProgType::from_section_name("kprobe/sys_exec"), Some(ProgType::Kprobe));
    assert_eq!(ProgType::from_section_name(".maps"), None);
    assert_eq!(ProgType::from_section_name(".symtab"), None);
    assert_eq!(ProgType::from_section_name("my_prog"), Some(ProgType::Other("my_prog".into())));
}

#[test]
fn section_kind_names_skips() {
    assert_eq!(SectionKind::classify(".maps"), SectionKind::Maps);
    assert_eq!(SectionKind::classify("maps"), SectionKind::Maps);
    assert_eq!(SectionKind::classify(".BTF"), SectionKind::Btf);
    assert_eq!(SectionKind::classify(".BTF.ext"), SectionKind::Btf);
    assert_eq!(SectionKind::classify(".symtab"), SectionKind::Ignored);
    assert!(SectionKind::classify("xdp").program_type().is_some());
    assert!(SectionKind::classify(".maps").program_type().is_none());
}

#[test]
fn prog_type_from_str() {
    assert_eq!(ProgType::from("xdp"), ProgType::Xdp);
    assert_eq!(ProgType::from("kprobe/sys_exec"), ProgType::Kprobe);
    assert_eq!(ProgType::from("my_prog"), ProgType::Other("my_prog".into()));
    assert_eq!(ProgType::from(".maps"), ProgType::Unknown);
    assert_eq!(ProgType::from(".symtab"), ProgType::Unknown);
}

#[test]
fn prog_type_display() {
    assert_eq!(ProgType::Xdp.to_string(), "xdp");
    assert_eq!(ProgType::Kprobe.to_string(), "kprobe");
    assert_eq!(ProgType::Tc.to_string(), "tc");
    assert_eq!(ProgType::Socket.to_string(), "socket");
    assert_eq!(ProgType::Tracepoint.to_string(), "tracepoint");
    assert_eq!(ProgType::Other("my_prog".into()).to_string(), "my_prog");
    assert_eq!(ProgType::Unknown.to_string(), "unknown");
}

#[test]
fn rejects_empty_object() {
    let err = load_bytes(&[], "empty").unwrap_err();
    assert!(matches!(err, ElfError::Parse(_)));
}

#[test]
fn raw_bytes_roundtrip_and_length_check() {
    let prog = raw_program(vec![0x95u8, 0, 0, 0, 0, 0, 0, 0], "valid.bin").unwrap();
    assert_eq!(prog.bytes.len(), 8);
    assert_eq!(prog.prog_type, ProgType::Unknown);
    assert!(prog.relocations.is_empty());

    let err = raw_program(vec![0x95u8, 0, 0], "bad.bin").unwrap_err();
    assert!(matches!(err, ElfError::BadRawLength(3)));
}

/// A little-endian 64-bit relocatable object with the given sections, each
/// with its name, its type and its data; the name table comes last.
fn object(sections: &[(&str, u32, &[u8])]) -> Vec<u8> {
    let mut names = vec![0u8];
    let mut data: Vec<u8> = Vec::new();
    let mut headers: Vec<[u64; 4]> = Vec::new();
    for (name, kind, bytes) in sections {
        headers.push([names.len() as u64, u64::from(*kind), 64 + data.len() as u64, bytes.len() as u64]);
        names.extend_from_slice(name.as_bytes());
        names.push(0);
        data.extend_from_slice(bytes);
    }
    let table_name = names.len() as u64;
    names.extend_from_slice(b".shstrtab\0");
    headers.push([table_name, 3, 64 + data.len() as u64, names.len() as u64]);
    data.extend_from_slice(&names);
    while data.len() % 8 != 0 {
        data.push(0);
    }
    let mut out = vec![0x7f, b'E', b'L', b'F', 2, 1, 1, 0];
    out.extend_from_slice(&[0; 8]);
    out.extend_from_slice(&1u16.to_le_bytes()); // relocatable
    out.extend_from_slice(&247u16.to_le_bytes()); // BPF
    out.extend_from_slice(&1u32.to_le_bytes());
    out.extend_from_slice(&0u64.to_le_bytes());
    out.extend_from_slice(&0u64.to_le_bytes());
    out.extend_from_slice(&(64 + data.len() as u64).to_le_bytes());
    out.extend_from_slice(&0u32.to_le_bytes());
    out.extend_from_slice(&64u16.to_le_bytes());
    out.extend_from_slice(&0u16.to_le_bytes());
    out.extend_from_slice(&0u16.to_le_bytes());
    out.extend_from_slice(&64u16.to_le_bytes());
    out.extend_from_slice(&(headers.len() as u16 + 1).to_le_bytes());
    out.extend_from_slice(&(headers.len() as u16).to_le_bytes());
    out.extend_from_slice(&data);
    out.extend_from_slice(&[0; 64]);
    for [name, kind, offset, size] in headers {
        out.extend_from_slice(&(name as u32).to_le_bytes());
        out.extend_from_slice(&(kind as u32).to_le_bytes());
        out.extend_from_slice(&0u64.to_le_bytes());
        out.extend_from_slice(&0u64.to_le_bytes());
        out.extend_from_slice(&offset.to_le_bytes());
        out.extend_from_slice(&size.to_le_bytes());
        out.extend_from_slice(&0u32.to_le_bytes());
        out.extend_from_slice(&0u32.to_le_bytes());
        out.extend_from_slice(&1u64.to_le_bytes());
        out.extend_from_slice(&0u64.to_le_bytes());
    }
    out
}

#[test]
fn object_sections_become_programs() {
    let exit = [0x95u8, 0, 0, 0, 0, 0, 0, 0];
    let bytes = object(&[
        ("xdp", 1, &exit),
        (".maps", 1, &[1, 2, 3]),
        ("kprobe/x", 1, &[0xb7, 0, 0, 0, 1, 0, 0, 0, 0x95, 0, 0, 0, 0, 0, 0, 0]),
    ]);
    let progs = load_bytes(&bytes, "test.o").unwrap();
    assert_eq!(progs.len(), 2);
    assert_eq!(progs[0].name, "xdp");
    assert_eq!(progs[0].prog_type, ProgType::Xdp);
    assert_eq!(progs[0].bytes, exit.to_vec());
    assert_eq!(progs[1].prog_type, ProgType::Kprobe);
    assert_eq!(progs[1].bytes.len(), 16);
}

#[test]
fn object_without_programs() {
    let bytes = object(&[(".maps", 1, &[0; 8])]);
    let err = load_bytes(&bytes, "none.o").unwrap_err();
    assert!(matches!(&err, ElfError::NoPrograms(label) if label == "none.o"));
    assert!(tries_raw(true, &err));
}

#[test]
fn sections_are_taken_in_order() {
    let section = |name: Option<&str>, data: Option<Vec<u8>>| RawSection {
        name: name.map(|n| n.to_string()),
        data,
        relocations: vec![(8, 1)],
    };
    let sections = vec![
        section(Some("tc/ingress"), Some(vec![1])),
        section(None, Some(vec![2])),
        section(Some(".text"), Some(vec![3])),
        section(Some("socket"), Some(vec![4])),
    ];
    let progs = programs_from(&sections, "x").unwrap();
    let names: Vec<&str> = progs.iter().map(|p| p.name.as_str()).collect();
    assert!(names.contains(&"tc/ingress"));
    assert!(names.contains(&"socket"));
    assert_eq!(progs[0].relocations[0].offset, 8);
    assert_eq!(progs[0].relocations[0].kind, 1);
}

#[test]
fn object_error_texts() {
    assert_eq!(
        ElfError::BadRawLength(3).to_string(),
        "raw program length 3 is not a multiple of 8"
    );
    assert_eq!(
        ElfError::NoPrograms("a.o".into()).to_string(),
        "no eBPF program sections found in a.o"
    );
    assert_eq!(
        ElfError::Io { path: "p".into(), source: "gone".into() }.to_string(),
        "cannot read p: gone"
    );
}

use pld::error::LinkError;
use pld::layout::{build_segments, pad_header_region, pad_trailing, relocate_section_offsets};
use pld::linker::{
    check_limits, finalize_header, has_symbol_table, link_object_file, Linker, StaticLinker,
};
use pld::object::{
    Contents, FileHeader, ObjectFile, Relocation, Section, SectionHeader, Symbol, CODE_BASE,
    DATA_BASE, PAGE_SIZE,
};
use pld::object::section_index;
use pld::option::LinkOption;
use pld::relocation::{compute_patch, encode_le};
use pld::symbols::allocate_symbols;

fn header(offset: u64, size: u64) -> SectionHeader {
    SectionHeader {
        sh_name: 0,
        sh_type: 0,
        sh_flags: 0,
        sh_addr: 0,
        sh_offset: offset,
        sh_size: size,
        sh_link: 0,
        sh_info: 0,
        sh_addralign: 1,
        sh_entsize: 0,
    }
}

fn raw(name: &str, offset: u64, bytes: Vec<u8>) -> Section {
    let size = bytes.len() as u64;
    Section { name: name.to_string(), header: header(offset, size), contents: Contents::Raw(bytes) }
}

fn symbol(name: &str, info: u8, shndx: u16, value: u64) -> Symbol {
    Symbol { name: name.to_string(), info, shndx, value }
}

fn symtab(offset: u64, symbols: Vec<Symbol>) -> Section {
    let size = 24 * symbols.len() as u64;
    Section { name: ".symtab".to_string(), header: header(offset, size), contents: Contents::Symbols(symbols) }
}

fn rela(offset: u64, relocations: Vec<Relocation>) -> Section {
    let size = 24 * relocations.len() as u64;
    Section {
        name: ".rela.text".to_string(),
        header: header(offset, size),
        contents: Contents::Relocations(relocations),
    }
}

fn file(sections: Vec<Section>) -> ObjectFile {
    ObjectFile {
        header: FileHeader { e_type: 1, e_entry: 0, e_phoff: 0, e_shoff: 0, e_phentsize: 0, e_phnum: 0 },
        sections,
        segments: Vec::new(),
    }
}

fn options(entry: &str) -> LinkOption {
    LinkOption { entry_point: entry.to_string(), static_link: true }
}

const FUNC: u8 = 0x12;
const SECTION: u8 = 0x03;

fn link(obj: ObjectFile, entry: &str) -> ObjectFile {
    match link_object_file(obj, options(entry)) {
        Ok(out) => out,
        Err(e) => panic!("link failed: {:?}", e),
    }
}

fn link_err(obj: ObjectFile, option: LinkOption) -> LinkError {
    match link_object_file(obj, option) {
        Ok(_) => panic!("link succeeded"),
        Err(e) => e,
    }
}

fn raw_bytes(sec: &Section) -> &Vec<u8> {
    match &sec.contents {
        Contents::Raw(v) => v,
        _ => panic!("not raw"),
    }
}

fn symbols(sec: &Section) -> &Vec<Symbol> {
    match &sec.contents {
        Contents::Symbols(v) => v,
        _ => panic!("not a symbol table"),
    }
}

/// null, .text (ret), .symtab with `main` at 0.
fn main_only() -> ObjectFile {
    file(vec![
        raw("", 0, vec![]),
        raw(".text", 0x40, vec![0xc3; 8]),
        symtab(0x48, vec![symbol("", 0, 0, 0), symbol("main", FUNC, 1, 0)]),
    ])
}

#[test]
fn main_only_links_with_one_code_segment() {
    let out = link(main_only(), "main");
    assert_eq!(out.segments.len(), 1);
    let code = out.segments[0];
    assert_eq!(code.p_vaddr, CODE_BASE);
    assert_eq!(code.p_paddr, CODE_BASE);
    assert_eq!(code.p_offset, PAGE_SIZE);
    assert_eq!(code.p_filesz, 8);
    assert_eq!(code.p_memsz, 8);
    assert_eq!(code.p_align, 0x1000);
    assert_eq!(code.p_type, 1);
    assert_eq!(code.p_flags, 4);
    assert_eq!(out.header.e_entry, CODE_BASE);
    assert_eq!(out.header.e_type, 2);
    assert_eq!(out.header.e_phoff, 0x40);
    assert_eq!(out.header.e_phnum, 1);
    assert_eq!(out.header.e_phentsize, 0x38);
    let total: u64 = out.sections.iter().map(|s| s.header.sh_size).sum();
    assert_eq!(total, 8 + 48);
    assert_eq!(out.header.e_shoff, 0x1000 + total);
}

#[test]
fn sections_move_past_the_header_page() {
    let out = link(main_only(), "main");
    assert_eq!(out.sections[0].header.sh_offset, 0xfc0);
    assert_eq!(out.sections[1].header.sh_offset, 0x1000);
    assert_eq!(out.sections[2].header.sh_offset, 0x1008);
    assert_eq!(out.sections[1].header.sh_addr, CODE_BASE);
    assert_eq!(out.sections[2].header.sh_addr, 0);
}

#[test]
fn header_page_is_padded_with_zeros() {
    let out = link(main_only(), "main");
    let pad = raw_bytes(&out.sections[0]);
    assert_eq!(pad.len(), 0x1000 - 0x40 - 0x38);
    assert!(pad.iter().all(|b| *b == 0));
    assert_eq!(out.sections[0].header.sh_size, 0);
}

#[test]
fn function_symbols_move_to_the_code_base() {
    let obj = file(vec![
        raw("", 0, vec![]),
        raw(".text", 0x40, vec![0x90; 32]),
        symtab(0x60, vec![symbol("", 0, 0, 0), symbol("helper", FUNC, 1, 0x10), symbol("main", FUNC, 1, 0x18)]),
    ]);
    let out = link(obj, "main");
    assert_eq!(out.header.e_entry, CODE_BASE + 0x18);
    let syms = symbols(&out.sections[2]);
    assert_eq!(syms[0].value, 0);
    assert_eq!(syms[1].value, 0x400010);
    assert_eq!(syms[2].value, 0x400018);
    assert_eq!(syms[2].name, "main");
}

#[test]
fn missing_entry_symbol_gives_zero_entry() {
    let out = link(main_only(), "start");
    assert_eq!(out.header.e_entry, 0);
}

#[test]
fn non_function_symbol_is_not_an_entry() {
    let obj = file(vec![
        raw("", 0, vec![]),
        raw(".text", 0x40, vec![0x90; 8]),
        symtab(0x48, vec![symbol("", 0, 0, 0), symbol("main", 0x11, 1, 4)]),
    ]);
    let out = link(obj, "main");
    assert_eq!(out.header.e_entry, 0);
    assert_eq!(symbols(&out.sections[2])[1].value, 4);
}

/// null, .text with a `lea` of a string, .rela.text, .rodata, .nodata, .symtab.
fn string_reference(kind: u64) -> ObjectFile {
    let mut text = vec![0x48, 0x8d, 0x3c, 0x25, 0xff, 0xff, 0xff, 0xff, 0xc3];
    text.extend(vec![0x90; 7]);
    file(vec![
        raw("", 0, vec![]),
        raw(".text", 0x40, text),
        rela(0x50, vec![Relocation { offset: 4, symbol: 1, kind, addend: 0 }]),
        raw(".rodata", 0x68, b"hello\0".to_vec()),
        raw(".nodata", 0x6e, vec![]),
        symtab(
            0x70,
            vec![symbol("", 0, 0, 0), symbol("", SECTION, 3, 0), symbol("main", FUNC, 1, 0)],
        ),
    ])
}

#[test]
fn string_reference_resolves_to_data_base() {
    let out = link(string_reference(10), "main");
    let text = raw_bytes(&out.sections[1]);
    assert_eq!(&text[4..8], &[0x00, 0x10, 0x40, 0x00]);
    assert_eq!(&text[0..4], &[0x48, 0x8d, 0x3c, 0x25]);
    assert_eq!(text[8], 0xc3);
    let value = i32::from_le_bytes([text[4], text[5], text[6], text[7]]);
    assert_eq!(value as i64, DATA_BASE as i64);
    assert_eq!(symbols(&out.sections[5])[1].value, DATA_BASE);
}

#[test]
fn rodata_gives_a_data_segment() {
    let out = link(string_reference(10), "main");
    assert_eq!(out.segments.len(), 2);
    let data = out.segments[1];
    assert_eq!(data.p_vaddr, DATA_BASE);
    assert_eq!(data.p_vaddr, CODE_BASE + PAGE_SIZE);
    assert_eq!(data.p_offset, 0x2000);
    assert_eq!(data.p_filesz, 6);
    assert_eq!(out.header.e_phnum, 2);
    assert_eq!(out.sections[3].header.sh_addr, DATA_BASE);
}

#[test]
fn nodata_is_padded_up_to_the_data_page() {
    let out = link(string_reference(10), "main");
    let nodata = &out.sections[4];
    assert_eq!(nodata.header.sh_offset, 0x6e + 0xfc0);
    let len = raw_bytes(nodata).len() as u64;
    assert_eq!(nodata.header.sh_offset + len, 0x2000);
    assert_eq!(nodata.header.sh_size, len);
    let total: u64 = out.sections.iter().map(|s| s.header.sh_size).sum();
    assert_eq!(out.header.e_shoff, 0x1000 + total);
}

#[test]
fn call_relative_relocation_is_pc_relative() {
    // call f at offset 4 (the displacement at 5), f at offset 0x10.
    let mut text = vec![0x90; 4];
    text.extend(vec![0xe8, 0, 0, 0, 0]);
    text.extend(vec![0xc3; 0x10]);
    let obj = file(vec![
        raw("", 0, vec![]),
        raw(".text", 0x40, text),
        rela(0x60, vec![Relocation { offset: 5, symbol: 2, kind: 4, addend: -4 }]),
        symtab(0x78, vec![symbol("", 0, 0, 0), symbol("main", FUNC, 1, 0), symbol("f", FUNC, 1, 0x10)]),
    ]);
    let out = link(obj, "main");
    let text = raw_bytes(&out.sections[1]);
    assert_eq!(&text[5..9], &[7, 0, 0, 0]);
    assert_eq!(text[4], 0xe8);
}

#[test]
fn backward_call_encodes_a_negative_displacement() {
    let mut text = vec![0xc3; 0x10];
    text.extend(vec![0xe8, 0, 0, 0, 0]);
    let obj = file(vec![
        raw("", 0, vec![]),
        raw(".text", 0x40, text),
        rela(0x60, vec![Relocation { offset: 0x11, symbol: 1, kind: 4, addend: -4 }]),
        symtab(0x78, vec![symbol("", 0, 0, 0), symbol("f", FUNC, 1, 0)]),
    ]);
    let out = link(obj, "f");
    let text = raw_bytes(&out.sections[1]);
    let value = i32::from_le_bytes([text[0x11], text[0x12], text[0x13], text[0x14]]);
    assert_eq!(value, -0x15);
}

#[test]
fn absolute_relocation_adds_the_addend() {
    let obj = file(vec![
        raw("", 0, vec![]),
        raw(".text", 0x40, vec![0; 8]),
        rela(0x48, vec![Relocation { offset: 0, symbol: 1, kind: 10, addend: 3 }]),
        raw(".rodata", 0x60, b"abcdef\0".to_vec()),
        symtab(0x68, vec![symbol("", 0, 0, 0), symbol("", SECTION, 3, 0)]),
    ]);
    let out = link(obj, "main");
    let text = raw_bytes(&out.sections[1]);
    assert_eq!(&text[0..4], &[0x03, 0x10, 0x40, 0x00]);
}

#[test]
fn unsupported_relocation_fails_the_link() {
    assert_eq!(link_err(string_reference(2), options("main")), LinkError::UnsupportedRelocation);
}

#[test]
fn unsupported_relocation_leaves_the_object_unchanged() {
    let mut linker = StaticLinker { object_file: string_reference(2), linker_option: options("main") };
    assert_eq!(linker.link(), Err(LinkError::UnsupportedRelocation));
    assert_eq!(linker.object_file.segments.len(), 0);
    assert_eq!(linker.object_file.sections[1].header.sh_offset, 0x40);
    assert_eq!(&raw_bytes(&linker.object_file.sections[1])[4..8], &[0xff, 0xff, 0xff, 0xff]);
}

#[test]
fn relocation_outside_text_is_invalid() {
    let obj = file(vec![
        raw("", 0, vec![]),
        raw(".text", 0x40, vec![0; 6]),
        rela(0x48, vec![Relocation { offset: 3, symbol: 0, kind: 10, addend: 0 }]),
        symtab(0x60, vec![symbol("", 0, 0, 0)]),
    ]);
    assert_eq!(link_err(obj, options("main")), LinkError::InvalidRelocation);
}

#[test]
fn relocation_naming_no_symbol_is_invalid() {
    let obj = file(vec![
        raw("", 0, vec![]),
        raw(".text", 0x40, vec![0; 8]),
        rela(0x48, vec![Relocation { offset: 0, symbol: 5, kind: 10, addend: 0 }]),
        symtab(0x60, vec![symbol("", 0, 0, 0)]),
    ]);
    assert_eq!(link_err(obj, options("main")), LinkError::InvalidRelocation);
}

#[test]
fn missing_text_fails_the_link() {
    let obj = file(vec![raw("", 0, vec![]), symtab(0x40, vec![symbol("", 0, 0, 0)])]);
    assert_eq!(link_err(obj, options("main")), LinkError::MissingText);
}

#[test]
fn missing_symtab_fails_the_link() {
    let obj = file(vec![raw("", 0, vec![]), raw(".text", 0x40, vec![0xc3])]);
    assert_eq!(link_err(obj, options("main")), LinkError::MissingSymtab);
}

#[test]
fn huge_offset_is_too_large() {
    let obj = file(vec![
        raw("", 0, vec![]),
        raw(".text", 0x100_0000_0000, vec![0xc3]),
        symtab(0x48, vec![symbol("", 0, 0, 0)]),
    ]);
    assert_eq!(link_err(obj, options("main")), LinkError::LayoutTooLarge);
}

fn many_sections() -> ObjectFile {
    let mut sections = vec![raw("", 0, vec![])];
    sections.push(raw(".text", 0x40, vec![0xc3; 4]));
    for i in 0..4 {
        sections.push(raw(".pad", 0x44 + i, vec![0; 1]));
    }
    sections.push(raw(".strtab", 0x50, vec![0; 0x10]));
    sections.push(raw(".shstrtab", 0x60, vec![0; 0x20]));
    sections.push(symtab(0x80, vec![symbol("", 0, 0, 0)]));
    file(sections)
}

#[test]
fn later_sections_follow_each_other_from_the_data_offset() {
    let mut obj = many_sections();
    relocate_section_offsets(&mut obj);
    assert_eq!(obj.sections[5].header.sh_offset, 0x47 + 0xfc0);
    assert_eq!(obj.sections[6].header.sh_offset, 0x2000);
    assert_eq!(obj.sections[7].header.sh_offset, 0x2010);
    assert_eq!(obj.sections[8].header.sh_offset, 0x2030);
}

#[test]
fn relocating_identical_snapshots_gives_identical_offsets() {
    let mut a = many_sections();
    let mut b = many_sections();
    relocate_section_offsets(&mut a);
    relocate_section_offsets(&mut b);
    for i in 0..a.sections.len() {
        assert_eq!(a.sections[i].header, b.sections[i].header);
    }
}

#[test]
fn patch_values_wrap_to_32_bits() {
    assert_eq!(compute_patch(10, 0x401000, 4, 0), 0x401000);
    assert_eq!(compute_patch(10, 0x401000, 4, -0x401001), 0xffff_ffff);
    assert_eq!(compute_patch(4, 0x400010, 5, -4), 7);
    assert_eq!(compute_patch(4, 0x400000, 0x11, -4), (-0x15i32) as u32);
    assert_eq!(compute_patch(10, 0x1_0000_0005, 0, 0), 5);
}

#[test]
fn little_endian_encoding() {
    assert_eq!(encode_le(0x0040_1000), (0x00, 0x10, 0x40, 0x00));
    assert_eq!(encode_le(0xdead_beef), (0xef, 0xbe, 0xad, 0xde));
}

#[test]
fn segments_need_text() {
    let mut obj = file(vec![raw("", 0, vec![]), raw(".rodata", 0x40, vec![1, 2])]);
    assert_eq!(build_segments(&mut obj), Err(LinkError::MissingText));
    assert_eq!(obj.segments.len(), 0);
}

#[test]
fn header_padding_depends_on_segment_count() {
    let mut obj = string_reference(10);
    assert_eq!(build_segments(&mut obj), Ok(()));
    pad_header_region(&mut obj);
    assert_eq!(raw_bytes(&obj.sections[0]).len(), 0x1000 - 0x40 - 2 * 0x38);
}

#[test]
fn trailing_padding_keeps_long_nodata() {
    let mut obj = file(vec![raw("", 0, vec![]), raw(".nodata", 0x1ff0, vec![0; 0x20])]);
    pad_trailing(&mut obj);
    assert_eq!(raw_bytes(&obj.sections[1]).len(), 0x20);
    assert_eq!(obj.sections[1].header.sh_size, 0x20);
    let mut obj = file(vec![raw("", 0, vec![]), raw(".nodata", 0x1ff0, vec![0; 4])]);
    pad_trailing(&mut obj);
    assert_eq!(raw_bytes(&obj.sections[1]).len(), 0x10);
    assert_eq!(obj.sections[1].header.sh_size, 0x10);
}

#[test]
fn allocation_needs_a_symbol_table() {
    let mut obj = file(vec![raw("", 0, vec![]), raw(".text", 0x40, vec![0xc3])]);
    assert_eq!(allocate_symbols(&mut obj, &"main".to_string()), Err(LinkError::MissingSymtab));
}

#[test]
fn last_function_of_the_entry_name_wins() {
    let mut obj = file(vec![
        raw("", 0, vec![]),
        raw(".text", 0x40, vec![0xc3; 8]),
        symtab(0x48, vec![symbol("main", FUNC, 1, 2), symbol("main", FUNC, 1, 6)]),
    ]);
    assert_eq!(allocate_symbols(&mut obj, &"main".to_string()), Ok(0x400006));
}

#[test]
fn section_symbol_with_bad_index_keeps_its_value() {
    let mut obj = file(vec![
        raw("", 0, vec![]),
        raw(".text", 0x40, vec![0xc3; 8]),
        symtab(0x48, vec![symbol("", SECTION, 9, 0x33)]),
    ]);
    assert_eq!(allocate_symbols(&mut obj, &"main".to_string()), Ok(0));
    assert_eq!(symbols(&obj.sections[2])[0].value, 0x33);
}

#[test]
fn finalized_header_counts_all_section_bytes() {
    let mut obj = main_only();
    finalize_header(&mut obj);
    assert_eq!(obj.header.e_shoff, 0x1000 + 8 + 48);
    assert_eq!(obj.header.e_phnum, 0);
    assert_eq!(obj.header.e_type, 2);
}

#[test]
fn limits_and_tables_are_checked() {
    assert!(check_limits(&main_only().sections));
    assert!(has_symbol_table(&main_only().sections));
    let big = file(vec![symtab(0, vec![symbol("main", FUNC, 1, 0x100_0000_0000)])]);
    assert!(!check_limits(&big.sections));
    let none = file(vec![raw(".symtab", 0, vec![])]);
    assert!(!has_symbol_table(&none.sections));
}

#[test]
fn section_lookup_finds_the_first_match() {
    let obj = file(vec![raw("", 0, vec![]), raw(".text", 0, vec![]), raw(".text", 0, vec![])]);
    assert_eq!(section_index(&obj.sections, &".text".to_string()), Some(1));
    assert_eq!(section_index(&obj.sections, &".data".to_string()), None);
}

#[test]
fn unloaded_sections_get_address_zero() {
    let mut obj = main_only();
    obj.sections[2].header.sh_addr = 0x1234;
    let out = link(obj, "main");
    assert_eq!(out.sections[2].header.sh_addr, 0);
    assert_eq!(out.sections[1].header.sh_addr, CODE_BASE);
}

#[test]
fn linking_through_the_trait_fills_the_executable() {
    let mut linker = StaticLinker { object_file: string_reference(10), linker_option: options("main") };
    assert_eq!(linker.link(), Ok(()));
    let out = &linker.object_file;
    assert_eq!(out.segments.len(), 2);
    assert_eq!(out.segments[0].p_vaddr, CODE_BASE);
    assert_eq!(out.segments[1].p_vaddr, DATA_BASE);
    assert_eq!(out.header.e_entry, CODE_BASE);
    assert_eq!(&raw_bytes(&out.sections[1])[4..8], &[0x00, 0x10, 0x40, 0x00]);
    match &out.sections[2].contents {
        Contents::Relocations(r) => assert_eq!(r.len(), 1),
        _ => panic!("relocations lost"),
    }
    assert_eq!(raw_bytes(&out.sections[3]), &b"hello\0".to_vec());
}

#[test]
fn text_without_relocations_is_unchanged() {
    let out = link(main_only(), "main");
    assert_eq!(raw_bytes(&out.sections[1]), &vec![0xc3; 8]);
}

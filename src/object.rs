//! The in-memory model of an ELF64 object file that the linker works on.
use vstd::prelude::*;

verus! {

/// Size of a page; every loaded segment starts on a page boundary.
pub const PAGE_SIZE: u64 = 0x1000;
/// Virtual address at which the code segment is mapped.
pub const CODE_BASE: u64 = 0x400000;
/// Virtual address at which the data segment is mapped, one page above code.
pub const DATA_BASE: u64 = CODE_BASE + PAGE_SIZE;
/// File offset of the code segment: right after the header page.
pub const CODE_OFFSET: u64 = PAGE_SIZE;
/// File offset of the data segment, and of the sections after the first few.
pub const DATA_OFFSET: u64 = 2 * PAGE_SIZE;
/// Size of the ELF64 file header.
pub const ELF_HEADER_SIZE: u64 = 0x40;
/// Size of one ELF64 program-header entry.
pub const PROGRAM_HEADER_SIZE: u64 = 0x38;
/// `PT_LOAD`: a loadable segment.
pub const SEGMENT_LOAD: u32 = 1;
/// `PF_R`: a readable segment.
pub const SEGMENT_READ: u32 = 4;
/// `ET_EXEC`: an executable file.
pub const FILE_TYPE_EXEC: u16 = 2;
/// `STT_FUNC`: a function symbol.
pub const SYMBOL_FUNCTION: u8 = 2;
/// `STT_SECTION`: a section symbol.
pub const SYMBOL_SECTION: u8 = 3;
/// `R_X86_64_PLT32`: a call-relative 32-bit relocation.
pub const RELOCATION_PLT32: u64 = 4;
/// `R_X86_64_32`: an absolute 32-bit relocation.
pub const RELOCATION_ABS32: u64 = 10;
/// Sections below this index sit right after the program-header page.
pub const LOW_SECTION_COUNT: usize = 6;
/// Upper bound (exclusive) on every offset, size, length and symbol value the
/// linker accepts: one tebibyte.
pub const LAYOUT_LIMIT: u64 = 0x100_0000_0000;

/// The fields of the ELF header that linking decides.
#[derive(Clone, Copy, PartialEq, Eq, Structural, Debug)]
pub struct FileHeader {
    pub e_type: u16,
    pub e_entry: u64,
    pub e_phoff: u64,
    pub e_shoff: u64,
    pub e_phentsize: u16,
    pub e_phnum: u16,
}

/// A section header.
#[derive(Clone, Copy, PartialEq, Eq, Structural, Debug)]
pub struct SectionHeader {
    pub sh_name: u32,
    pub sh_type: u32,
    pub sh_flags: u64,
    pub sh_addr: u64,
    pub sh_offset: u64,
    pub sh_size: u64,
    pub sh_link: u32,
    pub sh_info: u32,
    pub sh_addralign: u64,
    pub sh_entsize: u64,
}

/// A program-header entry.
#[derive(Clone, Copy, PartialEq, Eq, Structural, Debug)]
pub struct Segment {
    pub p_type: u32,
    pub p_flags: u32,
    pub p_offset: u64,
    pub p_vaddr: u64,
    pub p_paddr: u64,
    pub p_filesz: u64,
    pub p_memsz: u64,
    pub p_align: u64,
}

/// A symbol-table entry.
#[derive(Debug)]
pub struct Symbol {
    pub name: String,
    /// Binding in the high nibble, type in the low nibble.
    pub info: u8,
    /// Index of the section the symbol belongs to.
    pub shndx: u16,
    pub value: u64,
}

/// A relocation entry with addend, its info word split into symbol and type.
#[derive(Clone, Copy, PartialEq, Eq, Structural, Debug)]
pub struct Relocation {
    /// Byte offset within `.text` to patch.
    pub offset: u64,
    /// Index into the symbol table.
    pub symbol: u64,
    /// Relocation type.
    pub kind: u64,
    pub addend: i64,
}

/// What a section holds.
#[derive(Debug)]
pub enum Contents {
    Raw(Vec<u8>),
    Symbols(Vec<Symbol>),
    Relocations(Vec<Relocation>),
    /// Contents the linker neither reads nor changes (string tables, ...).
    Other,
}

#[derive(Debug)]
pub struct Section {
    pub name: String,
    pub header: SectionHeader,
    pub contents: Contents,
}

/// An object file: header, sections in file order, and program headers.
#[derive(Debug)]
pub struct ObjectFile {
    pub header: FileHeader,
    pub sections: Vec<Section>,
    pub segments: Vec<Segment>,
}

/// The type nibble of a symbol's info byte.
pub open spec fn symbol_type(info: u8) -> u8 {
    info % 16
}

pub open spec fn text_name() -> Seq<char> {
    ".text"@
}

pub open spec fn rodata_name() -> Seq<char> {
    ".rodata"@
}

pub open spec fn symtab_name() -> Seq<char> {
    ".symtab"@
}

pub open spec fn rela_text_name() -> Seq<char> {
    ".rela.text"@
}

pub open spec fn nodata_name() -> Seq<char> {
    ".nodata"@
}

/// The names of the sections, in order.
pub open spec fn section_names(s: Seq<Section>) -> Seq<Seq<char>> {
    Seq::new(s.len(), |i: int| s[i].name@)
}

/// Index of the first entry of `names` equal to `name`, if any.
#[verifier::opaque]
pub open spec fn first_named(names: Seq<Seq<char>>, name: Seq<char>) -> Option<int> {
    if exists|i: int| 0 <= i < names.len() && names[i] == name {
        Some(choose|i: int| 0 <= i < names.len() && names[i] == name
            && forall|j: int| 0 <= j < i ==> names[j] != name)
    } else {
        None
    }
}

/// What `first_named` returns is the first matching position.
pub proof fn lemma_first_named(names: Seq<Seq<char>>, name: Seq<char>)
    ensures
        first_named(names, name) matches Some(i) ==> 0 <= i < names.len() && names[i] == name
            && forall|j: int| 0 <= j < i ==> names[j] != name,
        first_named(names, name) is None ==> forall|j: int|
            0 <= j < names.len() ==> names[j] != name,
{
    reveal(first_named);
    if exists|i: int| 0 <= i < names.len() && names[i] == name {
        let w = choose|i: int| 0 <= i < names.len() && names[i] == name;
        lemma_first_exists(names, name, w);
    }
}

proof fn lemma_first_exists(names: Seq<Seq<char>>, name: Seq<char>, w: int)
    requires
        0 <= w < names.len(),
        names[w] == name,
    ensures
        exists|i: int| 0 <= i < names.len() && names[i] == name
            && forall|j: int| 0 <= j < i ==> names[j] != name,
    decreases w,
{
    if exists|j: int| 0 <= j < w && names[j] == name {
        let v = choose|j: int| 0 <= j < w && names[j] == name;
        lemma_first_exists(names, name, v);
    }
}

/// Index of the first section named `name`, if any.
pub open spec fn find_section(s: Seq<Section>, name: Seq<char>) -> Option<int> {
    first_named(section_names(s), name)
}

/// Section `sec` with its header replaced by `h`.
pub open spec fn with_header(sec: Section, h: SectionHeader) -> Section {
    Section { name: sec.name, header: h, contents: sec.contents }
}

/// Section `sec` with its contents replaced by `c`.
pub open spec fn with_contents(sec: Section, c: Contents) -> Section {
    Section { name: sec.name, header: sec.header, contents: c }
}

/// Replaces the header of section `i`.
pub fn set_header(sections: &mut Vec<Section>, i: usize, h: SectionHeader)
    requires
        i < old(sections)@.len(),
    ensures
        final(sections)@ == old(sections)@.update(i as int, with_header(old(sections)@[i as int], h)),
{
    let mut sec = Section { name: String::new(), header: h, contents: Contents::Other };
    sections.set_and_swap(i, &mut sec);
    sec.header = h;
    sections.set_and_swap(i, &mut sec);
}

/// Replaces the contents of section `i`.
pub fn set_contents(sections: &mut Vec<Section>, i: usize, c: Contents)
    requires
        i < old(sections)@.len(),
    ensures
        final(sections)@ == old(sections)@.update(i as int, with_contents(old(sections)@[i as int], c)),
{
    let h = sections[i].header;
    let mut sec = Section { name: String::new(), header: h, contents: Contents::Other };
    sections.set_and_swap(i, &mut sec);
    sec.contents = c;
    sections.set_and_swap(i, &mut sec);
}

/// `n` zero bytes.
pub open spec fn zeros(n: int) -> Seq<u8> {
    Seq::new(n as nat, |i: int| 0u8)
}

/// The raw bytes a section holds; none for a table.
pub open spec fn raw_bytes(sec: Section) -> Seq<u8> {
    match sec.contents {
        Contents::Raw(v) => v@,
        _ => Seq::empty(),
    }
}

/// Number of raw bytes a section holds; zero for a table.
pub open spec fn raw_len(sec: Section) -> int {
    match sec.contents {
        Contents::Raw(v) => v@.len() as int,
        _ => 0,
    }
}

/// `new` is `old` with `n` zero bytes appended to its raw contents, if it
/// holds raw bytes; otherwise `new` is `old`.
pub open spec fn zero_extended(old: Section, new: Section, n: int) -> bool {
    &&& new.name == old.name
    &&& new.header == old.header
    &&& match old.contents {
        Contents::Raw(v) => new.contents matches Contents::Raw(w) && w@ == v@ + zeros(n),
        _ => new.contents == old.contents,
    }
}

/// Appends `n` zero bytes to `v`.
pub fn append_zeros(v: &mut Vec<u8>, n: u64)
    ensures
        final(v)@ == old(v)@ + zeros(n as int),
{
    let mut k: u64 = 0;
    while k < n
        invariant
            k <= n,
            v@ == old(v)@ + zeros(k as int),
        decreases n - k,
    {
        v.push(0u8);
        k = k + 1;
        proof {
            assert(v@ =~= old(v)@ + zeros(k as int));
        }
    }
}

/// Appends `n` zero bytes to the raw contents of section `i`, if it holds
/// raw bytes.
pub fn zero_extend_section(sections: &mut Vec<Section>, i: usize, n: u64)
    requires
        i < old(sections)@.len(),
    ensures
        final(sections)@.len() == old(sections)@.len(),
        forall|j: int| 0 <= j < old(sections)@.len() && j != i ==> final(sections)@[j] == old(sections)@[j],
        zero_extended(old(sections)@[i as int], final(sections)@[i as int], n as int),
{
    let h = sections[i].header;
    let mut sec = Section { name: String::new(), header: h, contents: Contents::Other };
    sections.set_and_swap(i, &mut sec);
    let Section { name, header, contents } = sec;
    let contents = match contents {
        Contents::Raw(mut v) => {
            append_zeros(&mut v, n);
            Contents::Raw(v)
        },
        other => other,
    };
    let mut sec = Section { name, header, contents };
    sections.set_and_swap(i, &mut sec);
}

/// Returns the type nibble of a symbol's info byte.
pub fn symbol_type_of(info: u8) -> (r: u8)
    ensures
        r == symbol_type(info),
{
    info % 16
}

/// Returns the index of the first section named `name`.
pub fn section_index(sections: &Vec<Section>, name: &String) -> (r: Option<usize>)
    ensures
        r matches Some(i) ==> find_section(sections@, name@) == Some(i as int) && i
            < sections@.len() && sections@[i as int].name@ == name@,
        r is None ==> find_section(sections@, name@) is None,
{
    let mut i: usize = 0;
    while i < sections.len()
        invariant
            0 <= i <= sections@.len(),
            forall|j: int| 0 <= j < i ==> sections@[j].name@ != name@,
            section_names(sections@).len() == sections@.len(),
        decreases sections@.len() - i,
    {
        if sections[i].name == *name {
            proof {
                reveal(first_named);
                let names = section_names(sections@);
                assert(names[i as int] == name@);
                let k = choose|k: int| 0 <= k < names.len() && names[k] == name@
                    && forall|j: int| 0 <= j < k ==> names[j] != name@;
                assert(k == i as int) by {
                    if k < i {
                        assert(names[k] != name@);
                    } else if k > i {
                        assert(names[i as int] != name@);
                    }
                }
            }
            return Some(i);
        }
        i = i + 1;
    }
    proof {
        reveal(first_named);
        let names = section_names(sections@);
        assert forall|j: int| 0 <= j < names.len() implies names[j] != name@ by {
            assert(sections@[j].name@ != name@);
        }
    }
    None
}

} // verus!

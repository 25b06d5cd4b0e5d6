//! The link pipeline: header finalization, the static linker and its driver.
use vstd::prelude::*;
use crate::error::LinkError;
use crate::option::LinkOption;
use crate::layout::{
    build_segments, header_padding, pad_header_region, pad_trailing, relocate_section_offsets,
    relocated_addr, relocated_offset, trailing_padding, relocated_sections, sections_bounded, segments_for, size_sum,
    lemma_size_sum_bounded,
};
use crate::object::{
    find_section, nodata_name, raw_len, rela_text_name, rodata_name, section_index, section_names,
    symtab_name, text_name, zero_extended, raw_bytes, zeros, Contents, FileHeader, ObjectFile,
    Section, SectionHeader, Symbol, CODE_BASE,
    ELF_HEADER_SIZE, FILE_TYPE_EXEC, RELOCATION_ABS32, RELOCATION_PLT32, LAYOUT_LIMIT, PAGE_SIZE, PROGRAM_HEADER_SIZE,
    lemma_first_named,
};
use crate::relocation::{
    apply_relocations, has_out_of_range, has_unsupported, relocations_of, resolve_relocations,
    symbol_count, text_bytes, text_len, validate_relocations, in_range, lemma_apply_len,
    windows_disjoint, lemma_patch_in_list, patch_bytes, decode_i32,
    lemma_abs32_patch, lemma_plt32_patch,
};
use crate::symbols::{
    allocate_symbols, allocated, entry_address, symbols_bounded, symbols_of,
};

verus! {

/// Few enough sections and segments for the header's 16-bit counts, each
/// section under 4 TiB.
pub open spec fn header_bounded(obj: ObjectFile) -> bool {
    &&& obj.sections@.len() <= 0xffff
    &&& obj.segments@.len() <= 0xffff
    &&& forall|i: int|
        0 <= i < obj.sections@.len() ==> (#[trigger] obj.sections@[i]).header.sh_size
            < 0x400_0000_0000
}

/// The header of the executable: type, program-header table right after the
/// file header, section-header table after the first page and all sections.
pub open spec fn finalized_header(obj: ObjectFile) -> FileHeader {
    FileHeader {
        e_type: FILE_TYPE_EXEC,
        e_phoff: ELF_HEADER_SIZE,
        e_phnum: obj.segments@.len() as u16,
        e_phentsize: PROGRAM_HEADER_SIZE as u16,
        e_shoff: (PAGE_SIZE + size_sum(obj.sections@, obj.sections@.len() as int)) as u64,
        ..obj.header
    }
}

proof fn lemma_size_sum_capped(s: Seq<Section>, n: int)
    requires
        0 <= n <= s.len(),
        forall|i: int| 0 <= i < s.len() ==> (#[trigger] s[i]).header.sh_size < 0x400_0000_0000,
    ensures
        0 <= size_sum(s, n) <= n * 0x400_0000_0000,
    decreases n,
{
    if n > 0 {
        assert(s[n - 1].header.sh_size < 0x400_0000_0000);
        lemma_size_sum_capped(s, n - 1);
    }
}

/// Stamps the header with the executable's type, the program-header table's
/// place, count and entry size, and the section-header table's offset.
pub fn finalize_header(obj: &mut ObjectFile)
    requires
        header_bounded(*old(obj)),
    ensures
        final(obj).header == finalized_header(*old(obj)),
        final(obj).header.e_shoff == PAGE_SIZE + size_sum(old(obj).sections@, old(obj).sections@.len() as int),
        final(obj).sections == old(obj).sections,
        final(obj).segments == old(obj).segments,
{
    let n = obj.sections.len();
    let mut total: u64 = 0;
    let mut i: usize = 0;
    while i < n
        invariant
            n == obj.sections@.len(),
            header_bounded(*obj),
            0 <= i <= n,
            total == size_sum(obj.sections@, i as int),
        decreases n - i,
    {
        proof {
            lemma_size_sum_capped(obj.sections@, i as int);
            assert(obj.sections@[i as int].header.sh_size < 0x400_0000_0000);
            assert(i * 0x400_0000_0000 <= 0xffff * 0x400_0000_0000) by (nonlinear_arith)
                requires i <= 0xffff;
        }
        total = total + obj.sections[i].header.sh_size;
        i = i + 1;
    }
    proof {
        lemma_size_sum_capped(obj.sections@, n as int);
        assert(n * 0x400_0000_0000 <= 0xffff * 0x400_0000_0000) by (nonlinear_arith)
            requires n <= 0xffff;
    }
    obj.header.e_type = FILE_TYPE_EXEC;
    obj.header.e_phoff = ELF_HEADER_SIZE;
    obj.header.e_phnum = obj.segments.len() as u16;
    obj.header.e_phentsize = PROGRAM_HEADER_SIZE as u16;
    obj.header.e_shoff = PAGE_SIZE + total;
}

/// Every offset, size and raw length of the sections, and every symbol value
/// of `.symtab`, is under the layout limit, and there are few enough
/// sections for the header's 16-bit count.
pub open spec fn within_limits(s: Seq<Section>) -> bool {
    &&& sections_bounded(s)
    &&& forall|i: int| 0 <= i < s.len() ==> raw_len(#[trigger] s[i]) < LAYOUT_LIMIT
    &&& symbols_of(s) matches Some(v) ==> symbols_bounded(v)
}

/// Returns whether the sections are within the layout limits.
pub fn check_limits(sections: &Vec<Section>) -> (r: bool)
    ensures
        r == within_limits(sections@),
{
    if sections.len() > 0xffff {
        return false;
    }
    let mut i: usize = 0;
    while i < sections.len()
        invariant
            0 <= i <= sections@.len(),
            forall|j: int|
                0 <= j < i ==> (#[trigger] sections@[j]).header.sh_offset < LAYOUT_LIMIT
                    && sections@[j].header.sh_size < LAYOUT_LIMIT && raw_len(sections@[j]) < LAYOUT_LIMIT,
        decreases sections@.len() - i,
    {
        let h = sections[i].header;
        if h.sh_offset >= LAYOUT_LIMIT || h.sh_size >= LAYOUT_LIMIT {
            assert(!sections_bounded(sections@)) by {
                assert(sections@[i as int].header == h);
            }
            return false;
        }
        match &sections[i].contents {
            Contents::Raw(v) => {
                if v.len() as u64 >= LAYOUT_LIMIT {
                    assert(raw_len(sections@[i as int]) >= LAYOUT_LIMIT);
                    return false;
                }
            },
            _ => {},
        }
        i = i + 1;
    }
    let symtab = ".symtab".to_owned();
    proof {
        reveal_strlit(".symtab");
    }
    match section_index(sections, &symtab) {
        Some(k) => match &sections[k].contents {
            Contents::Symbols(v) => {
                let mut q: usize = 0;
                while q < v.len()
                    invariant
                        symbols_of(sections@) == Some(v@),
                        0 <= q <= v@.len(),
                        forall|p: int| 0 <= p < q ==> (#[trigger] v@[p]).value < LAYOUT_LIMIT,
                    decreases v@.len() - q,
                {
                    if v[q].value >= LAYOUT_LIMIT {
                        assert(!symbols_bounded(v@)) by {
                            assert(v@[q as int].value >= LAYOUT_LIMIT);
                        }
                        return false;
                    }
                    q = q + 1;
                }
            },
            _ => {},
        },
        None => {},
    }
    true
}

/// Returns whether `.symtab` exists and holds symbols.
pub fn has_symbol_table(sections: &Vec<Section>) -> (r: bool)
    ensures
        r == symbols_of(sections@) is Some,
{
    let symtab = ".symtab".to_owned();
    proof {
        reveal_strlit(".symtab");
    }
    match section_index(sections, &symtab) {
        Some(k) => match &sections[k].contents {
            Contents::Symbols(_) => true,
            _ => false,
        },
        None => false,
    }
}

/// Why linking `s` statically fails, checked in this order; `None` where
/// it succeeds.
pub open spec fn link_error(s: Seq<Section>) -> Option<LinkError> {
    if find_section(s, text_name()) is None {
        Some(LinkError::MissingText)
    } else if !within_limits(s) {
        Some(LinkError::LayoutTooLarge)
    } else if symbols_of(s) is None {
        Some(LinkError::MissingSymtab)
    } else if has_unsupported(relocations_of(s)) {
        Some(LinkError::UnsupportedRelocation)
    } else if has_out_of_range(s) {
        Some(LinkError::InvalidRelocation)
    } else {
        None
    }
}

/// `b` holds the same table as `a`, or raw bytes that extend those of `a`.
pub open spec fn tables_kept(a: Section, b: Section) -> bool {
    &&& a.contents is Raw ==> b.contents is Raw && raw_len(b) >= raw_len(a)
    &&& !(a.contents is Raw) ==> b.contents == a.contents
}

/// Lookups of tables by name agree between `a` and `b`, and `.text` only
/// grows.
proof fn lemma_tables_kept(a: Seq<Section>, b: Seq<Section>)
    requires
        a.len() == b.len(),
        section_names(a) == section_names(b),
        forall|i: int| 0 <= i < a.len() ==> tables_kept(#[trigger] a[i], b[i]),
    ensures
        symbols_of(a) == symbols_of(b),
        relocations_of(a) == relocations_of(b),
        symbol_count(a) == symbol_count(b),
        text_len(a) <= text_len(b),
{
    lemma_first_named(section_names(a), symtab_name());
    lemma_first_named(section_names(a), rela_text_name());
    lemma_first_named(section_names(a), text_name());
    match find_section(a, symtab_name()) {
        Some(k) => {
            assert(tables_kept(a[k], b[k]));
        },
        None => {},
    }
    match find_section(a, rela_text_name()) {
        Some(k) => {
            assert(tables_kept(a[k], b[k]));
        },
        None => {},
    }
    match find_section(a, text_name()) {
        Some(k) => {
            assert(tables_kept(a[k], b[k]));
        },
        None => {},
    }
}

proof fn lemma_relocated_offset_bounded(s: Seq<Section>, i: int)
    requires
        sections_bounded(s),
        0 <= i < s.len(),
    ensures
        0 <= relocated_offset(s, i) < 0x400_0000_0000_0000,
{
    assert(s[i].header.sh_offset < LAYOUT_LIMIT);
    if i >= 6 {
        lemma_size_sum_bounded(s, 6, i);
        assert(i * LAYOUT_LIMIT <= 0xffff * LAYOUT_LIMIT) by (nonlinear_arith)
            requires i <= 0xffff;
    }
}

/// `a` and `b` have the same section names, so every lookup by name agrees.
proof fn lemma_same_names(a: Seq<Section>, b: Seq<Section>)
    requires
        a.len() == b.len(),
        forall|i: int| 0 <= i < a.len() ==> (#[trigger] a[i]).name == b[i].name,
    ensures
        section_names(a) == section_names(b),
{
    assert(section_names(a) =~= section_names(b));
}

proof fn lemma_distinct_names()
    ensures
        text_name() != rodata_name(),
        text_name() != symtab_name(),
        text_name() != rela_text_name(),
        text_name() != nodata_name(),
        symtab_name() != rela_text_name(),
        symtab_name() != nodata_name(),
        rela_text_name() != nodata_name(),
{
    reveal_strlit(".text");
    reveal_strlit(".rodata");
    reveal_strlit(".symtab");
    reveal_strlit(".rela.text");
    reveal_strlit(".nodata");
    assert(text_name().len() != symtab_name().len());
    assert(text_name().len() != rela_text_name().len());
    assert(symtab_name().len() != rela_text_name().len());
    assert(text_name()[1] != rodata_name()[1]);
    assert(text_name()[1] != nodata_name()[1]);
    assert(symtab_name()[1] != nodata_name()[1]);
    assert(rela_text_name().len() != nodata_name().len());
}

/// Raw bytes of section `i` of `s` once the header page is padded: the
/// first section gains the header padding for the executable's segments.
pub open spec fn header_padded_bytes(s: Seq<Section>, i: int) -> Seq<u8> {
    if i == 0 {
        raw_bytes(s[i]) + zeros(header_padding(segments_for(s).len() as int))
    } else {
        raw_bytes(s[i])
    }
}

/// Raw bytes of section `i` of `s` in the executable, `syms` being the final
/// symbols: header padding, then the relocations patched into `.text`, then
/// `.nodata` padded up to the data offset.
pub open spec fn linked_bytes(s: Seq<Section>, syms: Seq<Symbol>, i: int) -> Seq<u8> {
    let padded = header_padded_bytes(s, i);
    let patched = if find_section(s, text_name()) == Some(i) && relocations_of(s).len() > 0 {
        apply_relocations(padded, relocations_of(s), syms)
    } else {
        padded
    };
    if find_section(s, nodata_name()) == Some(i) {
        patched + zeros(trailing_padding(relocated_offset(s, i), patched.len() as int))
    } else {
        patched
    }
}

/// Header of section `i` of `s` in the executable: placed, and for a raw
/// `.nodata` sized to its padded bytes.
pub open spec fn linked_header(s: Seq<Section>, syms: Seq<Symbol>, i: int) -> SectionHeader {
    SectionHeader {
        sh_offset: relocated_offset(s, i) as u64,
        sh_addr: relocated_addr(s, i),
        sh_size: if find_section(s, nodata_name()) == Some(i) && s[i].contents is Raw {
            linked_bytes(s, syms, i).len() as u64
        } else {
            s[i].header.sh_size
        },
        ..s[i].header
    }
}

/// `after` is the executable linked from `before` with entry symbol
/// `entry`: its segments, entry address, header, and the place of each
/// section.
pub open spec fn linked(before: ObjectFile, after: ObjectFile, entry: Seq<char>) -> bool {
    let s = before.sections@;
    let out = after.sections@;
    &&& after.segments@ == segments_for(s)
    &&& after.header.e_entry == entry_address(symbols_of(s)->Some_0, entry)
    &&& after.header.e_type == FILE_TYPE_EXEC
    &&& after.header.e_phoff == ELF_HEADER_SIZE
    &&& after.header.e_phnum == after.segments@.len()
    &&& after.header.e_phentsize == PROGRAM_HEADER_SIZE
    &&& after.header.e_shoff == PAGE_SIZE + size_sum(out, out.len() as int)
    &&& out.len() == s.len()
    &&& symbols_of(out) matches Some(w) && w.len() == symbols_of(s)->Some_0.len() && forall|q: int|
        0 <= q < w.len() ==> allocated(relocated_sections(s), symbols_of(s)->Some_0[q], #[trigger] w[q])
    &&& forall|i: int| 0 <= i < s.len() ==> {
        let w = symbols_of(out)->Some_0;
        &&& (#[trigger] out[i]).header == linked_header(s, w, i)
        &&& s[i].contents is Raw ==> out[i].contents is Raw && raw_bytes(out[i]) == linked_bytes(s, w, i)
        &&& !(s[i].contents is Raw) && find_section(s, symtab_name()) != Some(i) ==> out[i].contents
            == s[i].contents
    }
    &&& forall|i: int| 0 <= i < s.len() ==> {
        &&& (#[trigger] out[i]).name == s[i].name
        &&& out[i].header.sh_offset == relocated_offset(s, i)
        &&& out[i].header.sh_addr == relocated_addr(s, i)
    }
}

/// Links `obj` statically in place: builds the segments, places the
/// sections, pads the header page, assigns symbol addresses and the entry
/// point for `entry_point`, resolves relocations, pads up to the data page,
/// and finalizes the header. On failure `obj` is left unchanged.
pub fn link_static(obj: &mut ObjectFile, entry_point: &String) -> (r: Result<(), LinkError>)
    ensures
        r is Err <==> link_error(old(obj).sections@) is Some,
        r is Err ==> r == Err::<(), LinkError>(link_error(old(obj).sections@)->Some_0)
            && *final(obj) == *old(obj),
        r is Ok ==> linked(*old(obj), *final(obj), entry_point@),
{
    proof {
        lemma_distinct_names();
    }
    let text = ".text".to_owned();
    proof {
        reveal_strlit(".text");
    }
    let ghost s0 = obj.sections@;
    match section_index(&obj.sections, &text) {
        Some(_) => {},
        None => {
            return Err(LinkError::MissingText);
        },
    }
    if !check_limits(&obj.sections) {
        return Err(LinkError::LayoutTooLarge);
    }
    if !has_symbol_table(&obj.sections) {
        return Err(LinkError::MissingSymtab);
    }
    match validate_relocations(obj) {
        Ok(()) => {},
        Err(e) => {
            return Err(e);
        },
    }
    assert(link_error(s0) is None);
    let seg = build_segments(obj);
    assert(seg is Ok);
    relocate_section_offsets(obj);
    let ghost s2 = obj.sections@;
    proof {
        lemma_same_names(s0, s2);
    }
    pad_header_region(obj);
    let ghost s3 = obj.sections@;
    proof {
        assert forall|i: int| 0 <= i < s3.len() implies (#[trigger] s3[i]).name == s0[i].name
            && s3[i].header == s2[i].header && tables_kept(s0[i], s3[i]) by {
            if i == 0 {
                assert(zero_extended(s2[0], s3[0], header_padding(obj.segments@.len() as int)));
            }
        }
        lemma_same_names(s0, s3);
        lemma_tables_kept(s0, s3);
    }
    let entry = match allocate_symbols(obj, entry_point) {
        Ok(e) => e,
        Err(e) => {
            return Err(e);
        },
    };
    obj.header.e_entry = entry;
    let ghost s4 = obj.sections@;
    proof {
        let k = find_section(s3, symtab_name())->Some_0;
        lemma_first_named(section_names(s3), symtab_name());
        lemma_first_named(section_names(s3), rela_text_name());
        lemma_first_named(section_names(s3), text_name());
        assert forall|i: int| 0 <= i < s4.len() implies (#[trigger] s4[i]).name == s0[i].name
            && s4[i].header == s2[i].header && raw_len(s4[i]) <= raw_len(s3[i]) by {
            if i != k {
                assert(s4[i] == s3[i]);
            }
        }
        lemma_same_names(s0, s4);
        assert(relocations_of(s4) == relocations_of(s3));
        assert(text_len(s4) == text_len(s3));
        assert(symbol_count(s4) == symbol_count(s3));
        assert(!has_out_of_range(s4)) by {
            let rels = relocations_of(s4);
            assert forall|q: int| 0 <= q < rels.len() implies in_range(
                #[trigger] rels[q],
                symbol_count(s4),
                text_len(s4),
            ) by {
                assert(in_range(rels[q], symbol_count(s0), text_len(s0)));
            }
        }
    }
    match resolve_relocations(obj) {
        Ok(()) => {},
        Err(e) => {
            return Err(e);
        },
    }
    let ghost s5 = obj.sections@;
    proof {
        assert forall|i: int| 0 <= i < s5.len() implies (#[trigger] s5[i]).name == s0[i].name
            && s5[i].header == s2[i].header && raw_len(s5[i]) == raw_len(s4[i]) by {
            if relocations_of(s4).len() > 0 {
                let t = find_section(s4, text_name())->Some_0;
                if i == t {
                    lemma_first_named(section_names(s4), text_name());
                    lemma_apply_len(text_bytes(s4)->Some_0, relocations_of(s4), symbols_of(s4)->Some_0);
                }
            }
        }
        assert forall|i: int| 0 <= i < s5.len() implies (#[trigger] s5[i]).header.sh_offset
            < 0x400_0000_0000_0000 && raw_len(s5[i]) < 0x200_0000_0000 by {
            lemma_relocated_offset_bounded(s0, i);
            assert(raw_len(s3[i]) <= raw_len(s0[i]) + 4096);
            assert(raw_len(s0[i]) < LAYOUT_LIMIT);
        }
    }
    pad_trailing(obj);
    let ghost s6 = obj.sections@;
    proof {
        lemma_same_names(s0, s5);
        lemma_first_named(section_names(s5), nodata_name());
        assert forall|i: int| 0 <= i < s6.len() implies (#[trigger] s6[i]).name == s0[i].name
            && s6[i].header.sh_offset == relocated_offset(s0, i)
            && s6[i].header.sh_addr == relocated_addr(s0, i)
            && s6[i].header.sh_size < 0x400_0000_0000 by {
            assert(s2[i].header == relocated_sections(s0)[i].header);
            assert(s0[i].header.sh_size < LAYOUT_LIMIT);
            lemma_relocated_offset_bounded(s0, i);
        }
    }
    proof {
        let k = find_section(s0, symtab_name())->Some_0;
        let t = find_section(s0, text_name())->Some_0;
        lemma_first_named(section_names(s0), symtab_name());
        lemma_first_named(section_names(s0), text_name());
        lemma_same_names(s0, s6);
        assert(s6[k] == s4[k]) by {
            lemma_first_named(section_names(s4), text_name());
        }
        let v = symbols_of(s0)->Some_0;
        let w = symbols_of(s6)->Some_0;
        assert forall|q: int| 0 <= q < w.len() implies allocated(
            relocated_sections(s0),
            v[q],
            #[trigger] w[q],
        ) by {
            assert(allocated(s3, v[q], w[q]));
            let sh = v[q].shndx as int;
            if 0 <= sh < s3.len() {
                assert(s3[sh].header == relocated_sections(s0)[sh].header);
            }
        }
        if relocations_of(s0).len() > 0 && t != 0 {
            lemma_first_named(section_names(s4), text_name());
            assert(s6[t] == s5[t]);
            assert(s3[t] == s2[t]);
            assert(text_bytes(s4) == text_bytes(s0));
            assert(symbols_of(s4) == symbols_of(s6));
        }
    }
    finalize_header(obj);
    Ok(())
}

/// An object file with `.text` and `.symtab`, within the layout limits and
/// with only supported relocations that name symbols and stay inside
/// `.text`, links without error.
pub proof fn lemma_valid_object_links(s: Seq<Section>)
    requires
        find_section(s, text_name()) is Some,
        symbols_of(s) is Some,
        within_limits(s),
        !has_unsupported(relocations_of(s)),
        !has_out_of_range(s),
    ensures
        link_error(s) is None,
{
}

/// A linked executable has exactly one code segment, at the code base, and a
/// second, data segment one page above it exactly when `.rodata` exists.
pub proof fn lemma_linked_segments(before: ObjectFile, after: ObjectFile, entry: Seq<char>)
    requires
        linked(before, after, entry),
        find_section(before.sections@, text_name()) is Some,
    ensures
        after.segments@.len() == (if find_section(before.sections@, rodata_name()) is Some {
            2int
        } else {
            1int
        }),
        after.segments@[0].p_vaddr == CODE_BASE,
        after.segments@.len() == 2 ==> after.segments@[1].p_vaddr == CODE_BASE + PAGE_SIZE,
{
    crate::layout::lemma_segments_layout(before.sections@);
}

/// In a linked executable whose relocations patch disjoint windows, the
/// window of each relocation holds its patch computed from the final symbol
/// values `S` and addend `A`: for an absolute-32 relocation it decodes to
/// `S + A`, for a call-relative-32 one at offset `O` to `S - code base - O + A`,
/// wherever that value fits in 32 signed bits.
pub proof fn lemma_linked_patch(before: ObjectFile, after: ObjectFile, entry: Seq<char>, q: int)
    requires
        linked(before, after, entry),
        link_error(before.sections@) is None,
        windows_disjoint(relocations_of(before.sections@)),
        0 <= q < relocations_of(before.sections@).len(),
    ensures
        ({
            let r = relocations_of(before.sections@)[q];
            let syms = symbols_of(after.sections@)->Some_0;
            let window = text_bytes(after.sections@)->Some_0.subrange(r.offset as int, r.offset + 4);
            let target = syms[r.symbol as int].value;
            &&& text_bytes(after.sections@) is Some
            &&& r.symbol < syms.len()
            &&& window == patch_bytes(r, syms)
            &&& r.kind == RELOCATION_ABS32 && -0x8000_0000 <= target + r.addend < 0x8000_0000
                ==> decode_i32(window) == target + r.addend
            &&& r.kind == RELOCATION_PLT32 && -0x8000_0000 <= target - CODE_BASE - r.offset
                + r.addend < 0x8000_0000 ==> decode_i32(window) == target - CODE_BASE - r.offset
                + r.addend
        }),
{
    let s = before.sections@;
    let out = after.sections@;
    let rels = relocations_of(s);
    let t = find_section(s, text_name())->Some_0;
    lemma_first_named(section_names(s), text_name());
    lemma_first_named(section_names(s), nodata_name());
    lemma_distinct_names();
    lemma_same_names(s, out);
    let w = symbols_of(out)->Some_0;
    assert(rels[q].offset + 4 <= text_len(s)) by {
        assert(in_range(rels[q], symbol_count(s), text_len(s)));
    }
    let padded = header_padded_bytes(s, t);
    assert(s[t].contents is Raw);
    assert(raw_bytes(out[t]) == apply_relocations(padded, rels, w));
    assert forall|p: int| 0 <= p < rels.len() implies (#[trigger] rels[p]).offset + 4 <= padded.len()
        && rels[p].symbol < w.len() by {
        assert(in_range(rels[p], symbol_count(s), text_len(s)));
    }
    lemma_patch_in_list(padded, rels, w, q);
    let r = rels[q];
    let target = w[r.symbol as int].value;
    if r.kind == RELOCATION_ABS32 && -0x8000_0000 <= target + r.addend < 0x8000_0000 {
        lemma_abs32_patch(target, r.offset, r.addend);
    }
    if r.kind == RELOCATION_PLT32 && -0x8000_0000 <= target - CODE_BASE - r.offset + r.addend
        < 0x8000_0000 {
        lemma_plt32_patch(target, r.offset, r.addend);
    }
}

/// Linking identical snapshots places every section identically: offsets
/// and addresses in the executable are a function of the input alone.
pub proof fn lemma_linked_deterministic(
    a: ObjectFile,
    out_a: ObjectFile,
    b: ObjectFile,
    out_b: ObjectFile,
    entry: Seq<char>,
)
    requires
        linked(a, out_a, entry),
        linked(b, out_b, entry),
        a.sections@ == b.sections@,
    ensures
        out_a.sections@.len() == out_b.sections@.len(),
        forall|i: int|
            0 <= i < out_a.sections@.len() ==> (#[trigger] out_a.sections@[i]).header.sh_offset
                == out_b.sections@[i].header.sh_offset && out_a.sections@[i].header.sh_addr
                == out_b.sections@[i].header.sh_addr,
{
    assert forall|i: int| 0 <= i < out_a.sections@.len() implies (#[trigger] out_a.sections@[i]).header.sh_offset
        == out_b.sections@[i].header.sh_offset && out_a.sections@[i].header.sh_addr
        == out_b.sections@[i].header.sh_addr by {
        assert(out_b.sections@[i].header.sh_offset == relocated_offset(b.sections@, i));
    }
}

/// A linker turns the object file it holds into an executable.
pub trait Linker {
    fn link(&mut self) -> Result<(), LinkError>;
}

/// Links one object file statically.
pub struct StaticLinker {
    pub object_file: ObjectFile,
    pub linker_option: LinkOption,
}

impl StaticLinker {
    /// Links the held object file in place with the entry symbol of the
    /// options.
    pub fn link_static_file(&mut self) -> (r: Result<(), LinkError>)
        ensures
            final(self).linker_option == old(self).linker_option,
            r is Err <==> link_error(old(self).object_file.sections@) is Some,
            r is Err ==> r == Err::<(), LinkError>(link_error(old(self).object_file.sections@)->Some_0)
                && final(self).object_file == old(self).object_file,
            r is Ok ==> linked(
                old(self).object_file,
                final(self).object_file,
                old(self).linker_option.entry_point@,
            ),
    {
        link_static(&mut self.object_file, &self.linker_option.entry_point)
    }
}

impl Linker for StaticLinker {
    /// Links the held object file in place; see `link_static_file`.
    fn link(&mut self) -> (r: Result<(), LinkError>)
        ensures
            final(self).linker_option == old(self).linker_option,
            r is Err <==> link_error(old(self).object_file.sections@) is Some,
            r is Err ==> r == Err::<(), LinkError>(link_error(old(self).object_file.sections@)->Some_0)
                && final(self).object_file == old(self).object_file,
            r is Ok ==> linked(
                old(self).object_file,
                final(self).object_file,
                old(self).linker_option.entry_point@,
            ),
    {
        self.link_static_file()
    }
}

/// Links `object_file` statically into an executable with the entry symbol
/// of `link_option`. Only static linking is implemented.
pub fn link_object_file(object_file: ObjectFile, link_option: LinkOption) -> (r: Result<
    ObjectFile,
    LinkError,
>)
    requires
        link_option.static_link,
    ensures
        r is Err <==> link_error(object_file.sections@) is Some,
        r is Err ==> r == Err::<ObjectFile, LinkError>(link_error(object_file.sections@)->Some_0),
        r matches Ok(out) ==> linked(object_file, out, link_option.entry_point@),
{
    let mut linker = StaticLinker { object_file, linker_option: link_option };
    match linker.link_static_file() {
        Ok(()) => Ok(linker.object_file),
        Err(e) => Err(e),
    }
}

} // verus!

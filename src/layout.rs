//! Segment construction, section placement and padding.
use vstd::prelude::*;
use crate::error::LinkError;
use crate::object::{
    find_section, rodata_name, section_index, text_name, ObjectFile, Section, Segment, CODE_BASE,
    DATA_BASE, PAGE_SIZE, CODE_OFFSET, DATA_OFFSET, SectionHeader, with_header, set_header,
    ELF_HEADER_SIZE, LOW_SECTION_COUNT, LAYOUT_LIMIT, PROGRAM_HEADER_SIZE, zero_extended,
    zero_extend_section, raw_len, nodata_name, Contents, zeros, SEGMENT_LOAD, SEGMENT_READ,
};

verus! {

/// A read-only loadable segment mapping `size` bytes at file offset `offset`
/// to address `addr`.
pub open spec fn load_segment(offset: u64, addr: u64, size: u64) -> Segment {
    Segment {
        p_type: SEGMENT_LOAD,
        p_flags: SEGMENT_READ,
        p_offset: offset,
        p_vaddr: addr,
        p_paddr: addr,
        p_filesz: size,
        p_memsz: size,
        p_align: PAGE_SIZE,
    }
}

/// The segments of the executable built from sections `s`: code, then data
/// where `.rodata` exists; none without `.text`.
pub open spec fn segments_for(s: Seq<Section>) -> Seq<Segment> {
    match find_section(s, text_name()) {
        Some(t) => {
            let code = load_segment(CODE_OFFSET, CODE_BASE, s[t].header.sh_size);
            match find_section(s, rodata_name()) {
                Some(d) => seq![code, load_segment(DATA_OFFSET, DATA_BASE, s[d].header.sh_size)],
                None => seq![code],
            }
        },
        None => Seq::empty(),
    }
}

fn make_load_segment(offset: u64, addr: u64, size: u64) -> (r: Segment)
    ensures
        r == load_segment(offset, addr, size),
{
    Segment {
        p_type: SEGMENT_LOAD,
        p_flags: SEGMENT_READ,
        p_offset: offset,
        p_vaddr: addr,
        p_paddr: addr,
        p_filesz: size,
        p_memsz: size,
        p_align: PAGE_SIZE,
    }
}

/// Replaces the segments by a code segment for `.text` and, where `.rodata`
/// exists, a data segment for it.
pub fn build_segments(obj: &mut ObjectFile) -> (r: Result<(), LinkError>)
    ensures
        r is Err <==> find_section(old(obj).sections@, text_name()) is None,
        r is Err ==> r == Err::<(), LinkError>(LinkError::MissingText),
        final(obj).sections == old(obj).sections,
        final(obj).header == old(obj).header,
        r is Ok ==> final(obj).segments@ == segments_for(old(obj).sections@),
        r is Err ==> final(obj).segments == old(obj).segments,
{
    let text = ".text".to_owned();
    let rodata = ".rodata".to_owned();
    proof {
        reveal_strlit(".text");
        reveal_strlit(".rodata");
    }
    let t = match section_index(&obj.sections, &text) {
        Some(t) => t,
        None => {
            return Err(LinkError::MissingText);
        },
    };
    let mut segments: Vec<Segment> = Vec::new();
    segments.push(make_load_segment(CODE_OFFSET, CODE_BASE, obj.sections[t].header.sh_size));
    match section_index(&obj.sections, &rodata) {
        Some(d) => {
            segments.push(make_load_segment(DATA_OFFSET, DATA_BASE, obj.sections[d].header.sh_size));
        },
        None => {},
    }
    obj.segments = segments;
    proof {
        assert(obj.segments@ =~= segments_for(old(obj).sections@));
    }
    Ok(())
}

/// Sum of the sizes of the first `n` sections.
pub open spec fn size_sum(s: Seq<Section>, n: int) -> int
    decreases n,
{
    if n <= 0 || s.len() < n {
        0
    } else {
        size_sum(s, n - 1) + s[n - 1].header.sh_size
    }
}

/// Few enough sections, each with offset and size under the layout limit.
pub open spec fn sections_bounded(s: Seq<Section>) -> bool {
    &&& s.len() <= 0xffff
    &&& forall|i: int|
        0 <= i < s.len() ==> (#[trigger] s[i]).header.sh_offset < LAYOUT_LIMIT
            && s[i].header.sh_size < LAYOUT_LIMIT
}

/// File offset of section `i` in the executable: the first few sections
/// move past the program-header page, the rest follow each other from the
/// data offset on, in input order.
pub open spec fn relocated_offset(s: Seq<Section>, i: int) -> int {
    if i < LOW_SECTION_COUNT {
        s[i].header.sh_offset + (PAGE_SIZE - ELF_HEADER_SIZE)
    } else {
        DATA_OFFSET + size_sum(s, i) - size_sum(s, LOW_SECTION_COUNT as int)
    }
}

/// Address of section `i` in the executable: `.text` at the code base,
/// `.rodata` at the data base; any other is not loaded and has address 0.
pub open spec fn relocated_addr(s: Seq<Section>, i: int) -> u64 {
    if s[i].name@ == text_name() {
        CODE_BASE
    } else if s[i].name@ == rodata_name() {
        DATA_BASE
    } else {
        0
    }
}

pub open spec fn relocated_header(s: Seq<Section>, i: int) -> SectionHeader {
    SectionHeader {
        sh_offset: relocated_offset(s, i) as u64,
        sh_addr: relocated_addr(s, i),
        ..s[i].header
    }
}

/// The sections `s` placed in the executable's layout.
pub open spec fn relocated_sections(s: Seq<Section>) -> Seq<Section> {
    Seq::new(s.len(), |i: int| with_header(s[i], relocated_header(s, i)))
}

/// The sum of sizes grows with `n` and stays under `n` times the limit.
pub proof fn lemma_size_sum_bounded(s: Seq<Section>, m: int, n: int)
    requires
        sections_bounded(s),
        0 <= m <= n <= s.len(),
    ensures
        0 <= size_sum(s, m) <= size_sum(s, n) <= n * LAYOUT_LIMIT,
    decreases n,
{
    if n > 0 {
        assert(s[n - 1].header.sh_size < LAYOUT_LIMIT);
        if m < n {
            lemma_size_sum_bounded(s, m, n - 1);
        } else {
            lemma_size_sum_bounded(s, n - 1, n - 1);
        }
    }
}

/// Recomputes the file offset of every section, and the address of `.text`
/// and `.rodata`, for the executable's layout.
pub fn relocate_section_offsets(obj: &mut ObjectFile)
    requires
        sections_bounded(old(obj).sections@),
    ensures
        final(obj).sections@ == relocated_sections(old(obj).sections@),
        final(obj).header == old(obj).header,
        final(obj).segments == old(obj).segments,
{
    let text = ".text".to_owned();
    let rodata = ".rodata".to_owned();
    proof {
        reveal_strlit(".text");
        reveal_strlit(".rodata");
    }
    let ghost s = obj.sections@;
    let n = obj.sections.len();
    let mut total: u64 = 0;
    let mut i: usize = 0;
    while i < n
        invariant
            n == s.len(),
            sections_bounded(s),
            obj.sections@.len() == n,
            0 <= i <= n,
            total == size_sum(s, i as int) - size_sum(
                s,
                if i < LOW_SECTION_COUNT { i as int } else { LOW_SECTION_COUNT as int },
            ),
            obj.header == old(obj).header,
            obj.segments == old(obj).segments,
            s == old(obj).sections@,
            text@ == text_name(),
            rodata@ == rodata_name(),
            forall|j: int| 0 <= j < i ==> obj.sections@[j] == with_header(s[j], relocated_header(s, j)),
            forall|j: int| i <= j < n ==> obj.sections@[j] == s[j],
        decreases n - i,
    {
        proof {
            lemma_size_sum_bounded(s, i as int, i as int + 1);
            lemma_size_sum_bounded(s, 0, i as int);
            assert(s[i as int].header.sh_offset < LAYOUT_LIMIT);
            if i >= LOW_SECTION_COUNT {
                lemma_size_sum_bounded(s, LOW_SECTION_COUNT as int, i as int);
            }
            assert(size_sum(s, i as int + 1) == size_sum(s, i as int) + s[i as int].header.sh_size);
            assert(i * LAYOUT_LIMIT <= 0xffff * LAYOUT_LIMIT) by (nonlinear_arith)
                requires i <= 0xffff;
        }
        let mut h = obj.sections[i].header;
        if i < LOW_SECTION_COUNT {
            h.sh_offset = h.sh_offset + (PAGE_SIZE - ELF_HEADER_SIZE);
        } else {
            h.sh_offset = DATA_OFFSET + total;
            total = total + h.sh_size;
        }
        if obj.sections[i].name == text {
            h.sh_addr = CODE_BASE;
        } else if obj.sections[i].name == rodata {
            h.sh_addr = DATA_BASE;
        } else {
            h.sh_addr = 0;
        }
        set_header(&mut obj.sections, i, h);
        proof {
            assert(h == relocated_header(s, i as int));
        }
        i = i + 1;
    }
    proof {
        assert(obj.sections@ =~= relocated_sections(s));
    }
}

/// The executable has exactly one code segment, mapped at the code base;
/// a second, data segment exists exactly when `.rodata` does, and is mapped
/// one page above the code base whatever the section sizes.
pub proof fn lemma_segments_layout(s: Seq<Section>)
    requires
        find_section(s, text_name()) is Some,
    ensures
        segments_for(s).len() == (if find_section(s, rodata_name()) is Some { 2int } else { 1int }),
        segments_for(s)[0].p_vaddr == CODE_BASE,
        segments_for(s)[0].p_offset == CODE_OFFSET,
        segments_for(s).len() == 2 ==> segments_for(s)[1].p_vaddr == CODE_BASE + PAGE_SIZE,
{
}

proof fn lemma_size_sum_same(a: Seq<Section>, b: Seq<Section>, n: int)
    requires
        a.len() == b.len(),
        forall|i: int| 0 <= i < a.len() ==> (#[trigger] a[i]).header == b[i].header,
    ensures
        size_sum(a, n) == size_sum(b, n),
    decreases n,
{
    if n > 0 && n <= a.len() {
        assert(a[n - 1].header == b[n - 1].header);
        lemma_size_sum_same(a, b, n - 1);
    }
}

/// Placing sections is a function of their names and headers: two runs on
/// identical snapshots give identical offsets and addresses.
pub proof fn lemma_relocation_deterministic(a: Seq<Section>, b: Seq<Section>)
    requires
        a.len() == b.len(),
        forall|i: int|
            0 <= i < a.len() ==> (#[trigger] a[i]).name@ == b[i].name@ && a[i].header == b[i].header,
    ensures
        forall|i: int|
            0 <= i < a.len() ==> (#[trigger] relocated_sections(a)[i]).header
                == relocated_sections(b)[i].header,
{
    assert forall|i: int| 0 <= i < a.len() implies (#[trigger] relocated_sections(a)[i]).header
        == relocated_sections(b)[i].header by {
        lemma_size_sum_same(a, b, i);
        lemma_size_sum_same(a, b, LOW_SECTION_COUNT as int);
        assert(a[i].header == b[i].header);
    }
}

/// Zero bytes that fill the first page after the ELF header and `n`
/// program headers.
pub open spec fn header_padding(n: int) -> int {
    PAGE_SIZE - ELF_HEADER_SIZE - PROGRAM_HEADER_SIZE * n
}

/// Pads the first section with zero bytes so that the file header, the
/// program headers and the padding fill exactly one page.
pub fn pad_header_region(obj: &mut ObjectFile)
    requires
        header_padding(old(obj).segments@.len() as int) >= 0,
    ensures
        final(obj).header == old(obj).header,
        final(obj).segments == old(obj).segments,
        final(obj).sections@.len() == old(obj).sections@.len(),
        old(obj).sections@.len() > 0 ==> zero_extended(
            old(obj).sections@[0],
            final(obj).sections@[0],
            header_padding(old(obj).segments@.len() as int),
        ),
        forall|j: int|
            0 < j < old(obj).sections@.len() ==> final(obj).sections@[j] == old(obj).sections@[j],
{
    if obj.sections.len() == 0 {
        return;
    }
    let n = obj.segments.len() as u64;
    let pad = PAGE_SIZE - ELF_HEADER_SIZE - PROGRAM_HEADER_SIZE * n;
    zero_extend_section(&mut obj.sections, 0, pad);
}

/// Zero bytes that make content starting at `offset`, `len` bytes long,
/// reach the data offset; none where it already does.
pub open spec fn trailing_padding(offset: int, len: int) -> int {
    if offset + len < DATA_OFFSET {
        DATA_OFFSET - offset - len
    } else {
        0
    }
}

/// Offsets and raw lengths small enough for trailing padding.
pub open spec fn padding_bounded(s: Seq<Section>) -> bool {
    forall|i: int|
        0 <= i < s.len() ==> (#[trigger] s[i]).header.sh_offset < 0x400_0000_0000_0000
            && raw_len(s[i]) < 0x200_0000_0000
}

/// Pads `.nodata`, where it holds raw bytes, with zero bytes up to the data
/// offset, and sets its size to its new length.
pub fn pad_trailing(obj: &mut ObjectFile)
    requires
        padding_bounded(old(obj).sections@),
    ensures
        final(obj).header == old(obj).header,
        final(obj).segments == old(obj).segments,
        final(obj).sections@.len() == old(obj).sections@.len(),
        match find_section(old(obj).sections@, nodata_name()) {
            Some(k) => {
                let old_sec = old(obj).sections@[k];
                let new_sec = final(obj).sections@[k];
                let pad = trailing_padding(old_sec.header.sh_offset as int, raw_len(old_sec));
                &&& forall|j: int|
                    0 <= j < old(obj).sections@.len() && j != k ==> final(obj).sections@[j]
                        == old(obj).sections@[j]
                &&& old_sec.contents is Raw ==> {
                    &&& new_sec.name == old_sec.name
                    &&& new_sec.header == SectionHeader {
                        sh_size: (raw_len(old_sec) + pad) as u64,
                        ..old_sec.header
                    }
                    &&& new_sec.contents matches Contents::Raw(w) && old_sec.contents matches Contents::Raw(v)
                        && w@ == v@ + zeros(pad)
                }
                &&& !(old_sec.contents is Raw) ==> new_sec == old_sec
            },
            None => final(obj).sections == old(obj).sections,
        },
{
    let nodata = ".nodata".to_owned();
    proof {
        reveal_strlit(".nodata");
    }
    let k = match section_index(&obj.sections, &nodata) {
        Some(k) => k,
        None => {
            return;
        },
    };
    let len: u64 = match &obj.sections[k].contents {
        Contents::Raw(v) => v.len() as u64,
        _ => {
            return;
        },
    };
    let ghost s = obj.sections@;
    assert(s[k as int].header.sh_offset < 0x400_0000_0000_0000);
    assert(raw_len(s[k as int]) < 0x200_0000_0000);
    let mut h = obj.sections[k].header;
    let end = h.sh_offset + len;
    let pad: u64 = if end < DATA_OFFSET { DATA_OFFSET - end } else { 0 };
    zero_extend_section(&mut obj.sections, k, pad);
    h.sh_size = len + pad;
    set_header(&mut obj.sections, k, h);
}

} // verus!

//! Resolution of relocations in `.text`.
use vstd::prelude::*;
use vstd::arithmetic::div_mod::{
    lemma_div_denominator, lemma_fundamental_div_mod, lemma_mod_multiples_vanish,
};
use crate::error::LinkError;
use crate::object::{
    find_section, rela_text_name, section_index, text_name, Contents, ObjectFile, Relocation,
    Section, Symbol, CODE_BASE, RELOCATION_ABS32, RELOCATION_PLT32,
};
use crate::symbols::symbols_of;

verus! {

/// The relocations of the first section named `.rela.text`; none where there
/// is no such section holding relocations.
pub open spec fn relocations_of(s: Seq<Section>) -> Seq<Relocation> {
    match find_section(s, rela_text_name()) {
        Some(k) => match s[k].contents {
            Contents::Relocations(v) => v@,
            _ => Seq::empty(),
        },
        None => Seq::empty(),
    }
}

/// The raw bytes of the first section named `.text`, if it holds raw bytes.
pub open spec fn text_bytes(s: Seq<Section>) -> Option<Seq<u8>> {
    match find_section(s, text_name()) {
        Some(k) => match s[k].contents {
            Contents::Raw(v) => Some(v@),
            _ => None,
        },
        None => None,
    }
}

/// Number of symbols in `.symtab`; zero without one.
pub open spec fn symbol_count(s: Seq<Section>) -> int {
    match symbols_of(s) {
        Some(v) => v.len() as int,
        None => 0,
    }
}

/// Number of bytes in `.text`; zero without raw bytes there.
pub open spec fn text_len(s: Seq<Section>) -> int {
    match text_bytes(s) {
        Some(b) => b.len() as int,
        None => 0,
    }
}

pub open spec fn is_supported(kind: u64) -> bool {
    kind == RELOCATION_ABS32 || kind == RELOCATION_PLT32
}

/// The relocation names an existing symbol and patches four bytes inside a
/// code section of `len` bytes.
pub open spec fn in_range(r: Relocation, n_symbols: int, len: int) -> bool {
    r.symbol < n_symbols && r.offset + 4 <= len
}

/// The value a relocation of type `kind` writes, modulo 2^32, for a symbol
/// at `target`: `target + addend` for an absolute reference,
/// `target - code base - offset + addend` for a call-relative one.
pub open spec fn patch_value(kind: u64, target: u64, offset: u64, addend: i64) -> int {
    let v = if kind == RELOCATION_ABS32 {
        target + addend
    } else {
        target - CODE_BASE - offset + addend
    };
    v % 0x1_0000_0000
}

/// The four little-endian bytes of `u`.
pub open spec fn le_bytes(u: int) -> Seq<u8> {
    seq![
        (u % 256) as u8,
        ((u / 256) % 256) as u8,
        ((u / 0x1_0000) % 256) as u8,
        ((u / 0x100_0000) % 256) as u8,
    ]
}

/// The signed 32-bit value whose little-endian bytes are `b`.
pub open spec fn decode_i32(b: Seq<u8>) -> int {
    let u = b[0] + 256 * b[1] + 0x1_0000 * b[2] + 0x100_0000 * b[3];
    if u < 0x8000_0000 {
        u
    } else {
        u - 0x1_0000_0000
    }
}

/// `data` with `b` written from position `at` on.
pub open spec fn write_bytes(data: Seq<u8>, at: int, b: Seq<u8>) -> Seq<u8> {
    Seq::new(data.len(), |i: int| if at <= i < at + b.len() { b[i - at] } else { data[i] })
}

/// The bytes relocation `r` writes, with symbol values from `syms`.
pub open spec fn patch_bytes(r: Relocation, syms: Seq<Symbol>) -> Seq<u8> {
    le_bytes(patch_value(r.kind, syms[r.symbol as int].value, r.offset, r.addend))
}

/// `data` after applying `rels` in order.
pub open spec fn apply_relocations(
    data: Seq<u8>,
    rels: Seq<Relocation>,
    syms: Seq<Symbol>,
) -> Seq<u8>
    decreases rels.len(),
{
    if rels.len() == 0 {
        data
    } else {
        let r = rels.last();
        let before = apply_relocations(data, rels.drop_last(), syms);
        write_bytes(before, r.offset as int, patch_bytes(r, syms))
    }
}

/// The little-endian bytes of a value in `[0, 2^32)` decode, as a signed
/// 32-bit number, to that value taken modulo 2^32 into `[-2^31, 2^31)`.
pub proof fn lemma_decode_le_bytes(u: int)
    requires
        0 <= u < 0x1_0000_0000,
    ensures
        decode_i32(le_bytes(u)) == if u < 0x8000_0000 { u } else { u - 0x1_0000_0000 },
{
    let a = u / 256;
    let b = u / 0x1_0000;
    let c = u / 0x100_0000;
    lemma_fundamental_div_mod(u, 256);
    lemma_fundamental_div_mod(a, 256);
    lemma_fundamental_div_mod(b, 256);
    lemma_div_denominator(u, 256, 256);
    lemma_div_denominator(u, 0x1_0000, 256);
    assert(a / 256 == b);
    assert(b / 256 == c);
    assert(0 <= c < 256) by {
        assert(u / 0x100_0000 < 256) by (nonlinear_arith)
            requires 0 <= u < 0x1_0000_0000;
        assert(u / 0x100_0000 >= 0) by (nonlinear_arith)
            requires 0 <= u;
    }
    assert(c % 256 == c);
    let bytes = le_bytes(u);
    assert(bytes[0] == u % 256);
    assert(bytes[1] == a % 256);
    assert(bytes[2] == b % 256);
    assert(bytes[3] == c % 256);
    assert(bytes[0] + 256 * bytes[1] + 0x1_0000 * bytes[2] + 0x100_0000 * bytes[3] == u) by (nonlinear_arith)
        requires
            u == 256 * a + u % 256,
            a == 256 * b + a % 256,
            b == 256 * c + b % 256,
            bytes[0] == u % 256,
            bytes[1] == a % 256,
            bytes[2] == b % 256,
            bytes[3] == c,
    ;
}

proof fn lemma_mod_signed_range(v: int)
    requires
        -0x8000_0000 <= v < 0x8000_0000,
    ensures
        (if v % 0x1_0000_0000 < 0x8000_0000 {
            v % 0x1_0000_0000
        } else {
            v % 0x1_0000_0000 - 0x1_0000_0000
        }) == v,
        0 <= v % 0x1_0000_0000 < 0x1_0000_0000,
{
    lemma_fundamental_div_mod(v, 0x1_0000_0000);
    if v >= 0 {
        assert(v % 0x1_0000_0000 == v) by {
            vstd::arithmetic::div_mod::lemma_small_mod(v as nat, 0x1_0000_0000);
        }
    } else {
        lemma_mod_multiples_vanish(1, v, 0x1_0000_0000);
        assert((v + 0x1_0000_0000) % 0x1_0000_0000 == v + 0x1_0000_0000) by {
            vstd::arithmetic::div_mod::lemma_small_mod((v + 0x1_0000_0000) as nat, 0x1_0000_0000);
        }
    }
}

/// An absolute-32 relocation against a symbol at `target` with addend `a`
/// writes bytes that decode, little-endian and signed, to exactly
/// `target + a`, wherever that sum fits in 32 signed bits.
pub proof fn lemma_abs32_patch(target: u64, offset: u64, a: i64)
    requires
        -0x8000_0000 <= target + a < 0x8000_0000,
    ensures
        decode_i32(le_bytes(patch_value(RELOCATION_ABS32, target, offset, a))) == target + a,
{
    lemma_mod_signed_range(target + a);
    lemma_decode_le_bytes(patch_value(RELOCATION_ABS32, target, offset, a));
}

/// A call-relative-32 relocation at offset `offset` from the start of the
/// code segment, against a symbol at `target` with addend `a`, writes bytes
/// that decode to `target - code base - offset + a`, wherever that fits in 32
/// signed bits.
pub proof fn lemma_plt32_patch(target: u64, offset: u64, a: i64)
    requires
        -0x8000_0000 <= target - CODE_BASE - offset + a < 0x8000_0000,
    ensures
        decode_i32(le_bytes(patch_value(RELOCATION_PLT32, target, offset, a))) == target
            - CODE_BASE - offset + a,
{
    lemma_mod_signed_range(target - CODE_BASE - offset + a);
    lemma_decode_le_bytes(patch_value(RELOCATION_PLT32, target, offset, a));
}

/// A single relocation writes its four patch bytes at its offset and leaves
/// every other byte of the code as it was.
pub proof fn lemma_single_relocation(data: Seq<u8>, r: Relocation, syms: Seq<Symbol>)
    requires
        r.offset + 4 <= data.len(),
        r.symbol < syms.len(),
    ensures
        apply_relocations(data, seq![r], syms).subrange(r.offset as int, r.offset + 4) == patch_bytes(r, syms),
        forall|i: int|
            0 <= i < data.len() && !(r.offset <= i < r.offset + 4) ==> #[trigger] apply_relocations(
                data,
                seq![r],
                syms,
            )[i] == data[i],
{
    assert(seq![r].drop_last() =~= Seq::<Relocation>::empty());
    assert(seq![r].last() == r);
    assert(apply_relocations(data, seq![r].drop_last(), syms) == data);
    let out = apply_relocations(data, seq![r], syms);
    assert(out == write_bytes(data, r.offset as int, patch_bytes(r, syms)));
    assert(out.subrange(r.offset as int, r.offset + 4) =~= patch_bytes(r, syms));
}

/// Applying relocations keeps the length of the code.
pub proof fn lemma_apply_len(data: Seq<u8>, rels: Seq<Relocation>, syms: Seq<Symbol>)
    ensures
        apply_relocations(data, rels, syms).len() == data.len(),
    decreases rels.len(),
{
    if rels.len() > 0 {
        lemma_apply_len(data, rels.drop_last(), syms);
    }
}

/// No two relocations patch overlapping bytes.
pub open spec fn windows_disjoint(rels: Seq<Relocation>) -> bool {
    forall|p: int, q: int|
        #![trigger rels[p], rels[q]]
        0 <= p < rels.len() && 0 <= q < rels.len() && p != q ==> rels[p].offset + 4
            <= rels[q].offset || rels[q].offset + 4 <= rels[p].offset
}

/// Where the relocations patch disjoint windows inside the code, each
/// window holds exactly the bytes of its own relocation afterwards.
pub proof fn lemma_patch_in_list(data: Seq<u8>, rels: Seq<Relocation>, syms: Seq<Symbol>, q: int)
    requires
        windows_disjoint(rels),
        forall|p: int|
            0 <= p < rels.len() ==> (#[trigger] rels[p]).offset + 4 <= data.len() && rels[p].symbol
                < syms.len(),
        0 <= q < rels.len(),
    ensures
        apply_relocations(data, rels, syms).subrange(rels[q].offset as int, rels[q].offset + 4)
            == patch_bytes(rels[q], syms),
    decreases rels.len(),
{
    let n = rels.len() - 1;
    let init = rels.drop_last();
    let r = rels.last();
    assert(r == rels[n]);
    assert(rels[n].offset + 4 <= data.len());
    assert(rels[q].offset + 4 <= data.len());
    lemma_apply_len(data, init, syms);
    let before = apply_relocations(data, init, syms);
    let out = apply_relocations(data, rels, syms);
    assert(out == write_bytes(before, r.offset as int, patch_bytes(r, syms)));
    if q == n {
        assert(out.subrange(r.offset as int, r.offset + 4) =~= patch_bytes(r, syms));
    } else {
        assert forall|a: int, b: int|
            #![trigger init[a], init[b]]
            0 <= a < init.len() && 0 <= b < init.len() && a != b implies init[a].offset + 4
                <= init[b].offset || init[b].offset + 4 <= init[a].offset by {
            assert(init[a] == rels[a] && init[b] == rels[b]);
        }
        assert forall|p: int| 0 <= p < init.len() implies (#[trigger] init[p]).offset + 4
            <= data.len() && init[p].symbol < syms.len() by {
            assert(init[p] == rels[p]);
        }
        lemma_patch_in_list(data, init, syms, q);
        assert(init[q] == rels[q]);
        assert(rels[q].offset + 4 <= rels[n].offset || rels[n].offset + 4 <= rels[q].offset);
        assert(out.subrange(rels[q].offset as int, rels[q].offset + 4) =~= before.subrange(
            rels[q].offset as int,
            rels[q].offset + 4,
        ));
    }
}

/// Returns the value a relocation writes, reduced to 32 bits.
pub fn compute_patch(kind: u64, target: u64, offset: u64, addend: i64) -> (r: u32)
    ensures
        r == patch_value(kind, target, offset, addend),
{
    let x: i128 = if kind == RELOCATION_ABS32 {
        target as i128 + addend as i128
    } else {
        target as i128 - CODE_BASE as i128 - offset as i128 + addend as i128
    };
    let y: i128 = x + 0x4_0000_0000_0000_0000;
    let r = ((y as u128) % 0x1_0000_0000) as u32;
    proof {
        lemma_mod_multiples_vanish(0x4_0000_0000, x as int, 0x1_0000_0000);
        assert(0x1_0000_0000 * 0x4_0000_0000 == 0x4_0000_0000_0000_0000);
    }
    r
}

/// Returns the four little-endian bytes of `u`.
pub fn encode_le(u: u32) -> (r: (u8, u8, u8, u8))
    ensures
        seq![r.0, r.1, r.2, r.3] == le_bytes(u as int),
{
    (
        (u % 256) as u8,
        ((u / 256) % 256) as u8,
        ((u / 0x1_0000) % 256) as u8,
        ((u / 0x100_0000) % 256) as u8,
    )
}

/// Some relocation has an unsupported type.
pub open spec fn has_unsupported(rels: Seq<Relocation>) -> bool {
    exists|q: int| 0 <= q < rels.len() && !is_supported(#[trigger] rels[q].kind)
}

/// Some relocation names no symbol or patches bytes outside `.text`.
pub open spec fn has_out_of_range(s: Seq<Section>) -> bool {
    let rels = relocations_of(s);
    exists|q: int| 0 <= q < rels.len() && !in_range(#[trigger] rels[q], symbol_count(s), text_len(s))
}

/// Checks every relocation of `.rela.text`: its type must be supported,
/// then it must name a symbol of `.symtab` and patch bytes inside `.text`.
pub fn validate_relocations(obj: &ObjectFile) -> (r: Result<(), LinkError>)
    ensures
        (r == Err::<(), LinkError>(LinkError::UnsupportedRelocation)) <==> has_unsupported(
            relocations_of(obj.sections@),
        ),
        (r == Err::<(), LinkError>(LinkError::InvalidRelocation)) <==> !has_unsupported(
            relocations_of(obj.sections@),
        ) && has_out_of_range(obj.sections@),
        r is Err ==> r == Err::<(), LinkError>(LinkError::UnsupportedRelocation) || r == Err::<
            (),
            LinkError,
        >(LinkError::InvalidRelocation),
{
    let rela_text = ".rela.text".to_owned();
    let text = ".text".to_owned();
    let symtab = ".symtab".to_owned();
    proof {
        reveal_strlit(".rela.text");
        reveal_strlit(".text");
        reveal_strlit(".symtab");
    }
    let ghost s = obj.sections@;
    let ri = match section_index(&obj.sections, &rela_text) {
        Some(ri) => ri,
        None => {
            return Ok(());
        },
    };
    let rels = match &obj.sections[ri].contents {
        Contents::Relocations(v) => v,
        _ => {
            return Ok(());
        },
    };
    let mut i: usize = 0;
    while i < rels.len()
        invariant
            s == obj.sections@,
            rels@ == relocations_of(s),
            0 <= i <= rels@.len(),
            forall|q: int| 0 <= q < i ==> is_supported(#[trigger] rels@[q].kind),
        decreases rels@.len() - i,
    {
        if rels[i].kind != RELOCATION_ABS32 && rels[i].kind != RELOCATION_PLT32 {
            assert(!is_supported(rels@[i as int].kind));
            assert(has_unsupported(relocations_of(s)));
            return Err(LinkError::UnsupportedRelocation);
        }
        i = i + 1;
    }
    let n_symbols: usize = match section_index(&obj.sections, &symtab) {
        Some(k) => match &obj.sections[k].contents {
            Contents::Symbols(v) => v.len(),
            _ => 0,
        },
        None => 0,
    };
    let len: usize = match section_index(&obj.sections, &text) {
        Some(t) => match &obj.sections[t].contents {
            Contents::Raw(v) => v.len(),
            _ => 0,
        },
        None => 0,
    };
    let mut i: usize = 0;
    while i < rels.len()
        invariant
            s == obj.sections@,
            rels@ == relocations_of(s),
            !has_unsupported(relocations_of(s)),
            n_symbols == symbol_count(s),
            len == text_len(s),
            0 <= i <= rels@.len(),
            forall|q: int| 0 <= q < i ==> in_range(#[trigger] rels@[q], symbol_count(s), text_len(s)),
        decreases rels@.len() - i,
    {
        let rel = rels[i];
        if rel.symbol >= n_symbols as u64 || len < 4 || rel.offset > (len - 4) as u64 {
            assert(!in_range(rels@[i as int], symbol_count(s), text_len(s)));
            assert(has_out_of_range(s));
            return Err(LinkError::InvalidRelocation);
        }
        i = i + 1;
    }
    Ok(())
}

/// Patches `.text` for every relocation of `.rela.text`, in order, with the
/// symbol values of `.symtab`. Fails on an unsupported relocation type, then
/// on a relocation that names no symbol or reaches outside `.text`; the
/// object is then unchanged.
pub fn resolve_relocations(obj: &mut ObjectFile) -> (r: Result<(), LinkError>)
    ensures
        final(obj).header == old(obj).header,
        final(obj).segments == old(obj).segments,
        final(obj).sections@.len() == old(obj).sections@.len(),
        (r == Err::<(), LinkError>(LinkError::UnsupportedRelocation)) <==> has_unsupported(
            relocations_of(old(obj).sections@),
        ),
        (r == Err::<(), LinkError>(LinkError::InvalidRelocation)) <==> !has_unsupported(
            relocations_of(old(obj).sections@),
        ) && has_out_of_range(old(obj).sections@),
        r is Err ==> r == Err::<(), LinkError>(LinkError::UnsupportedRelocation) || r == Err::<
            (),
            LinkError,
        >(LinkError::InvalidRelocation),
        r is Err ==> *final(obj) == *old(obj),
        r is Ok && relocations_of(old(obj).sections@).len() == 0 ==> *final(obj) == *old(obj),
        r is Ok && relocations_of(old(obj).sections@).len() > 0 ==> {
            let s = old(obj).sections@;
            let t = find_section(s, text_name())->Some_0;
            &&& find_section(s, text_name()) is Some
            &&& forall|j: int| 0 <= j < s.len() && j != t ==> final(obj).sections@[j] == s[j]
            &&& final(obj).sections@[t].name == s[t].name
            &&& final(obj).sections@[t].header == s[t].header
            &&& final(obj).sections@[t].contents matches Contents::Raw(w) && w@ == apply_relocations(
                text_bytes(s)->Some_0,
                relocations_of(s),
                symbols_of(s)->Some_0,
            )
        },
{
    let rela_text = ".rela.text".to_owned();
    let text = ".text".to_owned();
    let symtab = ".symtab".to_owned();
    proof {
        reveal_strlit(".rela.text");
        reveal_strlit(".text");
        reveal_strlit(".symtab");
    }
    let ghost s = obj.sections@;
    match validate_relocations(obj) {
        Ok(()) => {},
        Err(e) => {
            return Err(e);
        },
    }
    let ri = match section_index(&obj.sections, &rela_text) {
        Some(ri) => ri,
        None => {
            return Ok(());
        },
    };
    let rels = match &obj.sections[ri].contents {
        Contents::Relocations(v) => v,
        _ => {
            return Ok(());
        },
    };
    if rels.len() == 0 {
        return Ok(());
    }
    let syms: &Vec<Symbol> = match section_index(&obj.sections, &symtab) {
        Some(k) => match &obj.sections[k].contents {
            Contents::Symbols(v) => v,
            _ => {
                assert(!in_range(rels@[0], symbol_count(s), text_len(s)));
                assert(has_out_of_range(s));
                return Err(LinkError::InvalidRelocation);
            },
        },
        None => {
            assert(!in_range(rels@[0], symbol_count(s), text_len(s)));
            assert(has_out_of_range(s));
            return Err(LinkError::InvalidRelocation);
        },
    };
    let t = match section_index(&obj.sections, &text) {
        Some(t) => t,
        None => {
            assert(!in_range(rels@[0], symbol_count(s), text_len(s)));
            assert(has_out_of_range(s));
            return Err(LinkError::InvalidRelocation);
        },
    };
    let len: u64 = match &obj.sections[t].contents {
        Contents::Raw(v) => {
            let n: usize = v.len();
            n as u64
        },
        _ => {
            assert(!in_range(rels@[0], symbol_count(s), text_len(s)));
            assert(has_out_of_range(s));
            return Err(LinkError::InvalidRelocation);
        },
    };
    let mut offsets: Vec<usize> = Vec::new();
    let mut values: Vec<u32> = Vec::new();
    let mut i: usize = 0;
    while i < rels.len()
        invariant
            s == old(obj).sections@,
            len <= usize::MAX,
            !has_unsupported(relocations_of(s)),
            rels@ == relocations_of(s),
            symbols_of(s) == Some(syms@),
            text_len(s) == len,
            0 <= i <= rels@.len(),
            offsets@.len() == i,
            values@.len() == i,
            forall|q: int| 0 <= q < i ==> in_range(#[trigger] rels@[q], symbol_count(s), text_len(s)),
            forall|q: int| 0 <= q < i ==> offsets@[q] as int == rels@[q].offset as int,
            forall|q: int|
                0 <= q < i ==> values@[q] == patch_value(
                    rels@[q].kind,
                    syms@[rels@[q].symbol as int].value,
                    rels@[q].offset,
                    rels@[q].addend,
                ),
        decreases rels@.len() - i,
    {
        let rel = rels[i];
        if rel.symbol >= syms.len() as u64 || len < 4 || rel.offset > len - 4 {
            assert(!in_range(rels@[i as int], symbol_count(s), text_len(s)));
            assert(has_out_of_range(s));
            return Err(LinkError::InvalidRelocation);
        }
        assert(rel.offset + 4 <= len);
        offsets.push(rel.offset as usize);
        values.push(compute_patch(rel.kind, syms[rel.symbol as usize].value, rel.offset, rel.addend));
        i = i + 1;
    }
    let ghost n = rels@.len();
    let ghost syms_s = syms@;
    let ghost rels_s = rels@;
    let mut sec = Section { name: String::new(), header: obj.sections[t].header, contents: Contents::Other };
    obj.sections.set_and_swap(t, &mut sec);
    let Section { name, header, contents } = sec;
    let mut data = match contents {
        Contents::Raw(v) => v,
        _ => Vec::new(),
    };
    assert(data@ == text_bytes(s)->Some_0);
    let mut i: usize = 0;
    while i < offsets.len()
        invariant
            offsets@.len() == n,
            values@.len() == n,
            rels_s.len() == n,
            0 <= i <= n,
            data@.len() == len,
            forall|q: int| 0 <= q < n ==> #[trigger] offsets@[q] + 4 <= data@.len(),
            forall|q: int| 0 <= q < n ==> offsets@[q] as int == rels_s[q].offset as int,
            forall|q: int|
                0 <= q < n ==> values@[q] == patch_value(
                    rels_s[q].kind,
                    syms_s[rels_s[q].symbol as int].value,
                    rels_s[q].offset,
                    rels_s[q].addend,
                ),
            data@ == apply_relocations(text_bytes(s)->Some_0, rels_s.take(i as int), syms_s),
        decreases n - i,
    {
        let o = offsets[i];
        let (b0, b1, b2, b3) = encode_le(values[i]);
        let ghost before = data@;
        assert(offsets@[i as int] + 4 <= data@.len());
        let dl: usize = data.len();
        assert(o + 4 <= dl);
        let (o1, o2, o3) = (o + 1, o + 2, o + 3);
        data.set(o, b0);
        data.set(o1, b1);
        data.set(o2, b2);
        data.set(o3, b3);
        proof {
            let r = rels_s[i as int];
            assert(rels_s.take(i as int + 1).drop_last() =~= rels_s.take(i as int));
            assert(rels_s.take(i as int + 1).last() == r);
            assert(data@ =~= write_bytes(before, o as int, patch_bytes(r, syms_s)));
        }
        i = i + 1;
    }
    proof {
        assert(rels_s.take(n as int) =~= rels_s);
    }
    let mut sec = Section { name, header, contents: Contents::Raw(data) };
    obj.sections.set_and_swap(t, &mut sec);
    Ok(())
}

} // verus!

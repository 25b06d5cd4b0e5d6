//! Assignment of final addresses to symbols.
use vstd::prelude::*;
use crate::error::LinkError;
use crate::object::{
    find_section, section_index, symbol_type_of, set_contents, symbol_type, symtab_name, Contents,
    ObjectFile, Section, Symbol, CODE_BASE, LAYOUT_LIMIT, SYMBOL_FUNCTION, SYMBOL_SECTION,
};

verus! {

/// The symbols of the first section named `.symtab`, if it holds symbols.
pub open spec fn symbols_of(s: Seq<Section>) -> Option<Seq<Symbol>> {
    match find_section(s, symtab_name()) {
        Some(k) => match s[k].contents {
            Contents::Symbols(v) => Some(v@),
            _ => None,
        },
        None => None,
    }
}

/// Every symbol value is under the layout limit.
pub open spec fn symbols_bounded(syms: Seq<Symbol>) -> bool {
    forall|q: int| 0 <= q < syms.len() ==> (#[trigger] syms[q]).value < LAYOUT_LIMIT
}

/// Final value of `sym`: a function moves to the code base plus its offset,
/// a section symbol takes its section's address, any other keeps its value.
pub open spec fn allocated_value(s: Seq<Section>, sym: Symbol) -> u64 {
    if symbol_type(sym.info) == SYMBOL_FUNCTION {
        (CODE_BASE + sym.value) as u64
    } else if symbol_type(sym.info) == SYMBOL_SECTION && sym.shndx < s.len() {
        s[sym.shndx as int].header.sh_addr
    } else {
        sym.value
    }
}

/// `new` is `old` with its final value against sections `s`.
pub open spec fn allocated(s: Seq<Section>, old: Symbol, new: Symbol) -> bool {
    &&& new.name == old.name
    &&& new.info == old.info
    &&& new.shndx == old.shndx
    &&& new.value == allocated_value(s, old)
}

/// Entry address for the symbol named `name`: the code base plus the value of
/// the last function symbol of that name, or 0 where there is none.
pub open spec fn entry_address(syms: Seq<Symbol>, name: Seq<char>) -> u64
    decreases syms.len(),
{
    if syms.len() == 0 {
        0
    } else {
        let last = syms.last();
        if symbol_type(last.info) == SYMBOL_FUNCTION && last.name@ == name {
            (CODE_BASE + last.value) as u64
        } else {
            entry_address(syms.drop_last(), name)
        }
    }
}

/// `sym` is a function symbol named `name`.
pub open spec fn is_function_named(sym: Symbol, name: Seq<char>) -> bool {
    symbol_type(sym.info) == SYMBOL_FUNCTION && sym.name@ == name
}

/// The entry address is the code base plus the pre-link value of the
/// function symbol named `name` (the last one, should several share the
/// name), and 0 where no function symbol has that name.
pub proof fn lemma_entry_address(syms: Seq<Symbol>, name: Seq<char>)
    requires
        symbols_bounded(syms),
    ensures
        (forall|q: int| 0 <= q < syms.len() ==> !is_function_named(#[trigger] syms[q], name))
            ==> entry_address(syms, name) == 0,
        forall|q: int|
            0 <= q < syms.len() && is_function_named(#[trigger] syms[q], name) && (forall|p: int|
                q < p < syms.len() ==> !is_function_named(#[trigger] syms[p], name))
                ==> entry_address(syms, name) == CODE_BASE + syms[q].value,
    decreases syms.len(),
{
    if syms.len() > 0 {
        let init = syms.drop_last();
        assert forall|q: int| 0 <= q < init.len() implies (#[trigger] init[q]).value < LAYOUT_LIMIT by {
            assert(init[q] == syms[q]);
        }
        lemma_entry_address(init, name);
        assert(syms.last() == syms[syms.len() - 1]);
        assert(syms[syms.len() - 1].value < LAYOUT_LIMIT);
        assert forall|q: int|
            0 <= q < syms.len() && is_function_named(#[trigger] syms[q], name) && (forall|p: int|
                q < p < syms.len() ==> !is_function_named(#[trigger] syms[p], name))
                implies entry_address(syms, name) == CODE_BASE + syms[q].value by {
            if q < syms.len() - 1 {
                assert(!is_function_named(syms[syms.len() - 1], name));
                assert(init[q] == syms[q]);
                assert forall|p: int| q < p < init.len() implies !is_function_named(#[trigger] init[p], name) by {
                    assert(init[p] == syms[p]);
                }
            }
        }
        if forall|q: int| 0 <= q < syms.len() ==> !is_function_named(#[trigger] syms[q], name) {
            assert(!is_function_named(syms[syms.len() - 1], name));
            assert forall|q: int| 0 <= q < init.len() implies !is_function_named(#[trigger] init[q], name) by {
                assert(init[q] == syms[q]);
            }
        }
    }
}

/// Rewrites every symbol of `.symtab` to its final value and returns the
/// entry address for `entry_point`.
pub fn allocate_symbols(obj: &mut ObjectFile, entry_point: &String) -> (r: Result<u64, LinkError>)
    requires
        symbols_of(old(obj).sections@) matches Some(v) ==> symbols_bounded(v),
    ensures
        r is Err <==> symbols_of(old(obj).sections@) is None,
        r is Err ==> r == Err::<u64, LinkError>(LinkError::MissingSymtab) && *final(obj) == *old(obj),
        final(obj).header == old(obj).header,
        final(obj).segments == old(obj).segments,
        final(obj).sections@.len() == old(obj).sections@.len(),
        r is Ok ==> {
            let s = old(obj).sections@;
            let k = find_section(s, symtab_name())->Some_0;
            let v = symbols_of(s)->Some_0;
            &&& r == Ok::<u64, LinkError>(entry_address(v, entry_point@))
            &&& forall|j: int| 0 <= j < s.len() && j != k ==> final(obj).sections@[j] == s[j]
            &&& final(obj).sections@[k].name == s[k].name
            &&& final(obj).sections@[k].header == s[k].header
            &&& final(obj).sections@[k].contents matches Contents::Symbols(w) && w@.len() == v.len()
                && forall|q: int| 0 <= q < v.len() ==> allocated(s, v[q], #[trigger] w@[q])
        },
{
    let symtab = ".symtab".to_owned();
    proof {
        reveal_strlit(".symtab");
    }
    let k = match section_index(&obj.sections, &symtab) {
        Some(k) => k,
        None => {
            return Err(LinkError::MissingSymtab);
        },
    };
    let ghost s = obj.sections@;
    let mut entry: u64 = 0;
    let mut out: Vec<Symbol> = Vec::new();
    match &obj.sections[k].contents {
        Contents::Symbols(v) => {
            let mut i: usize = 0;
            while i < v.len()
                invariant
                    s == obj.sections@,
                    symbols_of(s) == Some(v@),
                    symbols_bounded(v@),
                    0 <= i <= v@.len(),
                    out@.len() == i,
                    forall|q: int| 0 <= q < i ==> allocated(s, v@[q], #[trigger] out@[q]),
                    entry == entry_address(v@.take(i as int), entry_point@),
                decreases v@.len() - i,
            {
                let sym = &v[i];
                assert(sym.value < LAYOUT_LIMIT);
                let kind = symbol_type_of(sym.info);
                let value = if kind == SYMBOL_FUNCTION {
                    CODE_BASE + sym.value
                } else if kind == SYMBOL_SECTION && (sym.shndx as usize) < obj.sections.len() {
                    obj.sections[sym.shndx as usize].header.sh_addr
                } else {
                    sym.value
                };
                if kind == SYMBOL_FUNCTION && sym.name == *entry_point {
                    entry = CODE_BASE + sym.value;
                }
                proof {
                    assert(v@.take(i as int + 1).drop_last() =~= v@.take(i as int));
                    assert(v@.take(i as int + 1).last() == v@[i as int]);
                }
                out.push(Symbol { name: sym.name.clone(), info: sym.info, shndx: sym.shndx, value });
                i = i + 1;
            }
            proof {
                assert(v@.take(v@.len() as int) =~= v@);
            }
        },
        _ => {
            return Err(LinkError::MissingSymtab);
        },
    }
    set_contents(&mut obj.sections, k, Contents::Symbols(out));
    Ok(entry)
}

} // verus!

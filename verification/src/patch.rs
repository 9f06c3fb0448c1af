//! Planning a patch: where each undefined name of the patched code is found in the
//! program that is being patched.

use vstd::prelude::*;
use vstd::utf8::encode_utf8;
use crate::stub::{
    jump_code, law_aarch64_stub, law_offset_is_added, law_x86_64_stub, number_at, offset_by,
    process_address, stub,
};
use crate::symbols::{
    Symbol, SymbolKind, SymbolTable, lacks_name, last_of_name, law_lookup_finds_the_last,
    lemma_push_contains, lookup, names,
};
use crate::target::{Architecture, Target};

verus! {

/// How a patch object defines a symbol.
#[derive(Debug, PartialEq, Eq)]
pub enum Placement<Bytes> {
    /// By a stub with this code, which jumps to the symbol.
    Stub(Bytes),
    /// By the address of the symbol in the running process.
    Absolute(u64),
}

/// A symbol that a patch object defines.
#[derive(Debug, PartialEq, Eq)]
pub struct PatchSymbol<Bytes> {
    pub name: Bytes,
    pub kind: SymbolKind,
    pub weak: bool,
    pub placement: Placement<Bytes>,
}

impl View for PatchSymbol<Vec<u8>> {
    type V = PatchSymbol<Seq<u8>>;

    open spec fn view(&self) -> PatchSymbol<Seq<u8>> {
        PatchSymbol {
            name: self.name@,
            kind: self.kind,
            weak: self.weak,
            placement: match self.placement {
                Placement::Stub(code) => Placement::Stub(code@),
                Placement::Absolute(address) => Placement::Absolute(address),
            },
        }
    }
}

/// What a patch object is to define, and what could not be found.
#[derive(Debug, PartialEq, Eq)]
pub struct Patch {
    pub symbols: Vec<PatchSymbol<Vec<u8>>>,
    pub missing: Vec<String>,
}

/// The values of a patch's symbols.
pub open spec fn patched(list: Seq<PatchSymbol<Vec<u8>>>) -> Seq<PatchSymbol<Seq<u8>>> {
    Seq::new(list.len(), |i: int| list[i]@)
}

/// Whether a symbol is reached through a stub: code is, and so is whatever may be code.
pub open spec fn needs_stub(kind: SymbolKind) -> bool {
    kind == SymbolKind::Text || kind == SymbolKind::Unknown
}

/// The kind that a patch gives to what has the given kind in the program: a stub is code.
pub open spec fn defined_kind(kind: SymbolKind) -> SymbolKind {
    if needs_stub(kind) {
        SymbolKind::Text
    } else {
        kind
    }
}

/// Whether an object can define a symbol under this name. It cannot where the name holds a
/// zero byte, or where the symbol stands for a section of the program.
pub open spec fn patchable(name: Seq<char>, symbol: Symbol) -> bool {
    !encode_utf8(name).contains(0u8) && symbol.kind != SymbolKind::Section
}

/// Whether a name, if it is found, can be defined.
pub open spec fn name_patchable(name: Seq<char>, table: Seq<Symbol>) -> bool {
    lookup(table, name) matches Some(symbol) ==> patchable(name, symbol)
}

/// How a patch defines a name that stands for `symbol` in the program on disk.
pub open spec fn patch_symbol(
    name: Seq<char>,
    symbol: Symbol,
    target: Target,
    aslr_offset: u64,
) -> PatchSymbol<Seq<u8>> {
    let address = offset_by(symbol.address, aslr_offset);
    if needs_stub(symbol.kind) {
        PatchSymbol {
            name: encode_utf8(name),
            kind: SymbolKind::Text,
            weak: false,
            placement: Placement::Stub(stub(target.architecture->0, address)),
        }
    } else {
        PatchSymbol {
            name: encode_utf8(name),
            kind: symbol.kind,
            weak: symbol.weak,
            placement: Placement::Absolute(address),
        }
    }
}

/// The symbols that a patch defines: one for each name that is found, in order.
pub open spec fn patch_symbols(
    list: Seq<Seq<char>>,
    table: Seq<Symbol>,
    target: Target,
    aslr_offset: u64,
) -> Seq<PatchSymbol<Seq<u8>>>
    decreases list.len(),
{
    if list.len() == 0 {
        Seq::empty()
    } else {
        let rest = patch_symbols(list.drop_last(), table, target, aslr_offset);
        match lookup(table, list.last()) {
            Some(symbol) => rest.push(patch_symbol(list.last(), symbol, target, aslr_offset)),
            None => rest,
        }
    }
}

/// The names of a list that are not found, in order.
pub open spec fn missing_names(list: Seq<Seq<char>>, table: Seq<Symbol>) -> Seq<Seq<char>>
    decreases list.len(),
{
    if list.len() == 0 {
        Seq::empty()
    } else {
        let rest = missing_names(list.drop_last(), table);
        if lookup(table, list.last()) is None {
            rest.push(list.last())
        } else {
            rest
        }
    }
}

/// The first name of a list that is found but cannot be defined.
pub open spec fn first_unpatchable(
    list: Seq<Seq<char>>,
    table: Seq<Symbol>,
) -> Option<Seq<char>>
    decreases list.len(),
{
    if list.len() == 0 {
        None
    } else {
        match first_unpatchable(list.drop_last(), table) {
            Some(name) => Some(name),
            None => if name_patchable(list.last(), table) {
                None
            } else {
                Some(list.last())
            },
        }
    }
}

/// Where no name of a list is unpatchable, each of them can be defined if it is found.
pub proof fn lemma_all_patchable(list: Seq<Seq<char>>, table: Seq<Symbol>)
    requires
        first_unpatchable(list, table) is None,
    ensures
        forall|i: int| 0 <= i < list.len() ==> name_patchable(#[trigger] list[i], table),
    decreases list.len(),
{
    if list.len() > 0 {
        lemma_all_patchable(list.drop_last(), table);
        assert forall|i: int| 0 <= i < list.len() implies name_patchable(
            #[trigger] list[i],
            table,
        ) by {
            if i < list.len() - 1 {
                assert(list[i] == list.drop_last()[i]);
            }
        }
    }
}

/// Where each name of a list can be defined if it is found, none is unpatchable.
pub proof fn lemma_none_unpatchable(list: Seq<Seq<char>>, table: Seq<Symbol>)
    requires
        forall|i: int| 0 <= i < list.len() ==> name_patchable(#[trigger] list[i], table),
    ensures
        first_unpatchable(list, table) is None,
    decreases list.len(),
{
    if list.len() > 0 {
        let rest = list.drop_last();
        assert forall|i: int| 0 <= i < rest.len() implies name_patchable(
            #[trigger] rest[i],
            table,
        ) by {
            assert(rest[i] == list[i]);
        }
        lemma_none_unpatchable(rest, table);
        assert(name_patchable(list[list.len() - 1], table));
    }
}

proof fn lemma_unpatchable_prefix(
    list: Seq<Seq<char>>,
    table: Seq<Symbol>,
    i: int,
)
    requires
        0 <= i <= list.len(),
        first_unpatchable(list.take(i), table) is Some,
    ensures
        first_unpatchable(list, table) == first_unpatchable(list.take(i), table),
    decreases list.len(),
{
    if i < list.len() {
        assert(list.drop_last().take(i) == list.take(i));
        lemma_unpatchable_prefix(list.drop_last(), table, i);
    } else {
        assert(list.take(i) == list);
    }
}

/// The bytes of a name.
fn name_bytes(name: &str) -> (r: Vec<u8>)
    ensures
        r@ == encode_utf8(name@),
{
    let bytes = name.as_bytes();
    let mut r: Vec<u8> = Vec::new();
    let mut i: usize = 0;
    while i < bytes.len()
        invariant
            i <= bytes@.len(),
            bytes@ == encode_utf8(name@),
            r@ == bytes@.take(i as int),
        decreases bytes@.len() - i,
    {
        r.push(bytes[i]);
        i += 1;
    }
    r
}

fn contains_zero(name: &str) -> (r: bool)
    ensures
        r == encode_utf8(name@).contains(0u8),
{
    let bytes = name.as_bytes();
    let mut i: usize = 0;
    while i < bytes.len()
        invariant
            i <= bytes@.len(),
            bytes@ == encode_utf8(name@),
            forall|j: int| 0 <= j < i ==> bytes@[j] != 0,
        decreases bytes@.len() - i,
    {
        if bytes[i] == 0 {
            return true;
        }
        i += 1;
    }
    false
}

/// Whether an object can define this name, if the table has it.
pub fn is_patchable(name: &str, table: &SymbolTable) -> (r: bool)
    ensures
        r == name_patchable(name@, table@),
{
    match table.get(name) {
        Some(entry) => !contains_zero(name) && entry.kind != SymbolKind::Section,
        None => true,
    }
}

/// Finds the first name of a list that the table has but no object can define.
pub fn find_unpatchable(list: &Vec<String>, table: &SymbolTable) -> (r: Option<
    String,
>)
    ensures
        match r {
            Some(name) => first_unpatchable(names(list@), table@) == Some(name@),
            None => first_unpatchable(names(list@), table@) is None,
        },
{
    let mut i: usize = 0;
    while i < list.len()
        invariant
            i <= list@.len(),
            first_unpatchable(names(list@).take(i as int), table@) is None,
        decreases list@.len() - i,
    {
        let ghost more = names(list@).take(i + 1);
        assert(more.drop_last() == names(list@).take(i as int));
        assert(more.last() == list@[i as int]@);
        if !is_patchable(list[i].as_str(), table) {
            proof {
                lemma_unpatchable_prefix(names(list@), table@, i + 1);
            }
            return Some(list[i].clone());
        }
        i += 1;
    }
    assert(names(list@).take(list@.len() as int) == names(list@));
    None
}

/// Plans how to define the names of a list by what the table says they stand for in the
/// program on disk. Code gets a stub that jumps to it, since a direct call from the patch
/// may not reach it; everything else is defined as the address that it has in the
/// running process.
pub fn plan_patch(
    list: &Vec<String>,
    table: &SymbolTable,
    target: &Target,
    aslr_offset: u64,
) -> (r: Patch)
    requires
        target.architecture is Some,
    ensures
        patched(r.symbols@) == patch_symbols(names(list@), table@, *target, aslr_offset),
        names(r.missing@) == missing_names(names(list@), table@),
{
    let mut symbols: Vec<PatchSymbol<Vec<u8>>> = Vec::new();
    let mut missing: Vec<String> = Vec::new();
    let mut i: usize = 0;
    while i < list.len()
        invariant
            i <= list@.len(),
            target.architecture is Some,
            patched(symbols@) == patch_symbols(
                names(list@).take(i as int),
                table@,
                *target,
                aslr_offset,
            ),
            names(missing@) == missing_names(names(list@).take(i as int), table@),
        decreases list@.len() - i,
    {
        let name = list[i].as_str();
        let ghost more = names(list@).take(i + 1);
        assert(more.drop_last() == names(list@).take(i as int));
        assert(more.last() == name@);
        match table.get(name) {
            Some(entry) => {
                let address = process_address(entry.address, aslr_offset);
                let stubbed = match entry.kind {
                    SymbolKind::Text | SymbolKind::Unknown => true,
                    _ => false,
                };
                let symbol = if stubbed {
                    PatchSymbol {
                        name: name_bytes(name),
                        kind: SymbolKind::Text,
                        weak: false,
                        placement: Placement::Stub(jump_code(target.architecture.unwrap(), address)),
                    }
                } else {
                    PatchSymbol {
                        name: name_bytes(name),
                        kind: entry.kind,
                        weak: entry.weak,
                        placement: Placement::Absolute(address),
                    }
                };
                let ghost before = symbols@;
                symbols.push(symbol);
                assert(patched(symbols@) == patched(before).push(symbol@));
            },
            None => {
                let ghost before = missing@;
                missing.push(list[i].clone());
                assert(names(missing@) == names(before).push(name@));
            },
        }
        i += 1;
    }
    assert(names(list@).take(list@.len() as int) == names(list@));
    Patch { symbols, missing }
}

/// Every name of a list is either defined by the patch, as what it stands for in the
/// program, or reported as missing, and the patch defines nothing else.
pub proof fn law_names_are_patched_or_missing(
    list: Seq<Seq<char>>,
    table: Seq<Symbol>,
    target: Target,
    aslr_offset: u64,
)
    ensures
        patch_symbols(list, table, target, aslr_offset).len() + missing_names(list, table).len()
            == list.len(),
        forall|name: Seq<char>| #[trigger]
            missing_names(list, table).contains(name) <==> list.contains(name) && lookup(
                table,
                name,
            ) is None,
        forall|i: int|
            0 <= i < list.len() && lookup(table, #[trigger] list[i]) is Some ==> patch_symbols(
                list,
                table,
                target,
                aslr_offset,
            ).contains(
                patch_symbol(list[i], lookup(table, list[i])->0, target, aslr_offset),
            ),
        forall|symbol: PatchSymbol<Seq<u8>>| #[trigger]
            patch_symbols(list, table, target, aslr_offset).contains(symbol) ==> exists|i: int|
                0 <= i < list.len() && lookup(table, #[trigger] list[i]) is Some && symbol
                    == patch_symbol(list[i], lookup(table, list[i])->0, target, aslr_offset),
    decreases list.len(),
{
    if list.len() > 0 {
        let rest = list.drop_last();
        let last = list.last();
        let all = patch_symbols(list, table, target, aslr_offset);
        let before = patch_symbols(rest, table, target, aslr_offset);
        let absent = missing_names(list, table);
        let absent_before = missing_names(rest, table);
        law_names_are_patched_or_missing(rest, table, target, aslr_offset);
        assert(list[list.len() - 1] == last);
        assert forall|name: Seq<char>| #[trigger] absent.contains(name) <==> list.contains(name)
            && lookup(table, name) is None by {
            assert(absent_before.contains(name) <==> rest.contains(name) && lookup(
                table,
                name,
            ) is None);
            if rest.contains(name) {
                assert(list[rest.index_of(name)] == name);
            }
            if list.contains(name) && name != last {
                assert(rest[list.index_of(name)] == name);
            }
            if absent_before.contains(name) {
                assert(absent[absent_before.index_of(name)] == name);
            }
            if absent.contains(name) && absent.index_of(name) < absent_before.len() {
                assert(absent_before[absent.index_of(name)] == name);
            }
            if name == last && lookup(table, name) is None {
                assert(absent[absent_before.len() as int] == name);
            }
        }
        assert forall|i: int|
            0 <= i < list.len() && lookup(table, #[trigger] list[i]) is Some implies all.contains(
            patch_symbol(list[i], lookup(table, list[i])->0, target, aslr_offset),
        ) by {
            let symbol = patch_symbol(list[i], lookup(table, list[i])->0, target, aslr_offset);
            if i < rest.len() {
                assert(rest[i] == list[i]);
                assert(all[before.index_of(symbol)] == symbol);
            } else {
                assert(all[before.len() as int] == symbol);
            }
        }
        assert forall|symbol: PatchSymbol<Seq<u8>>| #[trigger] all.contains(symbol) implies exists|
            i: int,
        |
            0 <= i < list.len() && lookup(table, #[trigger] list[i]) is Some && symbol
                == patch_symbol(list[i], lookup(table, list[i])->0, target, aslr_offset) by {
            let k = all.index_of(symbol);
            if k < before.len() {
                assert(before[k] == symbol);
                assert(before.contains(symbol));
                let i = choose|i: int|
                    0 <= i < rest.len() && lookup(table, #[trigger] rest[i]) is Some && symbol
                        == patch_symbol(rest[i], lookup(table, rest[i])->0, target, aslr_offset);
                assert(list[i] == rest[i]);
            }
        }
    }
}

/// The names of a list that are found, in order.
pub open spec fn found_names(list: Seq<Seq<char>>, table: Seq<Symbol>) -> Seq<Seq<char>>
    decreases list.len(),
{
    if list.len() == 0 {
        Seq::empty()
    } else {
        let rest = found_names(list.drop_last(), table);
        if lookup(table, list.last()) is Some {
            rest.push(list.last())
        } else {
            rest
        }
    }
}

/// The names of a list that are found and get a stub, in order.
pub open spec fn stubbed_names(list: Seq<Seq<char>>, table: Seq<Symbol>) -> Seq<Seq<char>>
    decreases list.len(),
{
    if list.len() == 0 {
        Seq::empty()
    } else {
        let rest = stubbed_names(list.drop_last(), table);
        match lookup(table, list.last()) {
            Some(symbol) if needs_stub(symbol.kind) => rest.push(list.last()),
            _ => rest,
        }
    }
}

/// How many symbols of a patch are defined by a stub.
pub open spec fn stub_count(patch: Seq<PatchSymbol<Seq<u8>>>) -> nat
    decreases patch.len(),
{
    if patch.len() == 0 {
        0
    } else {
        stub_count(patch.drop_last()) + if patch.last().placement is Stub {
            1nat
        } else {
            0nat
        }
    }
}

/// A patch defines the names that are found, each as what it stands for in the program, in
/// order. Names that stand for code get a stub.
pub proof fn law_found_names_are_patched(
    list: Seq<Seq<char>>,
    table: Seq<Symbol>,
    target: Target,
    aslr_offset: u64,
)
    ensures
        patch_symbols(list, table, target, aslr_offset).len() == found_names(list, table).len(),
        forall|i: int|
            0 <= i < found_names(list, table).len() ==> #[trigger] patch_symbols(
                list,
                table,
                target,
                aslr_offset,
            )[i] == patch_symbol(
                found_names(list, table)[i],
                lookup(table, found_names(list, table)[i])->0,
                target,
                aslr_offset,
            ),
        stub_count(patch_symbols(list, table, target, aslr_offset)) == stubbed_names(
            list,
            table,
        ).len(),
        stubbed_names(list, table).len() <= list.len(),
    decreases list.len(),
{
    if list.len() > 0 {
        law_found_names_are_patched(list.drop_last(), table, target, aslr_offset);
        let all = patch_symbols(list, table, target, aslr_offset);
        let rest = patch_symbols(list.drop_last(), table, target, aslr_offset);
        if lookup(table, list.last()) is Some {
            assert(all.drop_last() == rest);
            assert forall|i: int| 0 <= i < found_names(list, table).len() implies #[trigger] all[i]
                == patch_symbol(
                found_names(list, table)[i],
                lookup(table, found_names(list, table)[i])->0,
                target,
                aslr_offset,
            ) by {
                if i < rest.len() {
                    assert(all[i] == rest[i]);
                }
            }
        }
    }
}

/// The names that are found are those of the list that the table has. If none comes twice
/// in the list, none is found twice.
pub proof fn law_found_names(list: Seq<Seq<char>>, table: Seq<Symbol>)
    ensures
        forall|name: Seq<char>| #[trigger]
            found_names(list, table).contains(name) <==> list.contains(name) && lookup(
                table,
                name,
            ) is Some,
        list.no_duplicates() ==> found_names(list, table).no_duplicates(),
    decreases list.len(),
{
    if list.len() > 0 {
        let rest = list.drop_last();
        law_found_names(rest, table);
        assert(list == rest.push(list.last()));
        let found = found_names(list, table);
        let before = found_names(rest, table);
        assert forall|name: Seq<char>| #[trigger] found.contains(name) <==> list.contains(name)
            && lookup(table, name) is Some by {
            lemma_push_contains(rest, list.last(), name);
            lemma_push_contains(before, list.last(), name);
            assert(before.contains(name) <==> rest.contains(name) && lookup(table, name) is Some);
        }
        if list.no_duplicates() && lookup(table, list.last()) is Some {
            if before.contains(list.last()) {
                assert(rest.contains(list.last()));
                assert(list[rest.index_of(list.last())] == list.last());
            }
            assert forall|i: int, j: int| 0 <= i < j < found.len() implies #[trigger] found[i]
                != #[trigger] found[j] by {
                if j == before.len() {
                    assert(before.contains(found[i]));
                }
            }
        }
    }
}

/// The value of a patch has the fields of each symbol in its place.
pub proof fn law_patch_values(list: Seq<PatchSymbol<Vec<u8>>>, i: int)
    requires
        0 <= i < list.len(),
    ensures
        patched(list).len() == list.len(),
        patched(list)[i].name == list[i].name@,
        patched(list)[i].kind == list[i].kind,
        patched(list)[i].weak == list[i].weak,
        patched(list)[i].placement is Stub <==> list[i].placement is Stub,
        list[i].placement is Stub ==> patched(list)[i].placement->Stub_0 == (
        list[i].placement->Stub_0)@,
        list[i].placement is Absolute ==> patched(list)[i].placement->Absolute_0
            == list[i].placement->Absolute_0,
{
}

/// Code, and what may be code, is defined under its name as a strong function whose code
/// loads the address in the process and jumps to it.
pub proof fn law_code_gets_a_stub(
    name: Seq<char>,
    symbol: Symbol,
    target: Target,
    aslr_offset: u64,
)
    requires
        symbol.kind == SymbolKind::Text || symbol.kind == SymbolKind::Unknown,
    ensures
        ({
            let defined = patch_symbol(name, symbol, target, aslr_offset);
            let code = defined.placement->Stub_0;
            &&& defined.name == encode_utf8(name)
            &&& defined.kind == SymbolKind::Text
            &&& !defined.weak
            &&& defined.placement is Stub
            &&& target.architecture == Some(Architecture::Aarch64) ==> {
                &&& code.len() == 16
                &&& code[0] == 0x50 && code[1] == 0 && code[2] == 0 && code[3] == 0x58
                &&& code[4] == 0 && code[5] == 0x02 && code[6] == 0x1F && code[7] == 0xD6
                &&& (number_at(code, 8) - symbol.address - aslr_offset)
                    % 0x1_0000_0000_0000_0000 == 0
            }
            &&& target.architecture == Some(Architecture::X86_64) ==> {
                &&& code.len() == 14
                &&& code[0] == 0xFF && code[1] == 0x25 && code[2] == 0
                &&& code[3] == 0 && code[4] == 0 && code[5] == 0
                &&& (number_at(code, 6) - symbol.address - aslr_offset)
                    % 0x1_0000_0000_0000_0000 == 0
            }
        }),
{
    let address = offset_by(symbol.address, aslr_offset);
    law_offset_is_added(symbol.address, aslr_offset);
    law_aarch64_stub(address);
    law_x86_64_stub(address);
}

/// Everything else is defined under its name as its address in the process, and keeps its
/// kind and its binding.
pub proof fn law_data_gets_its_address(
    name: Seq<char>,
    symbol: Symbol,
    target: Target,
    aslr_offset: u64,
)
    requires
        symbol.kind != SymbolKind::Text,
        symbol.kind != SymbolKind::Unknown,
    ensures
        ({
            let defined = patch_symbol(name, symbol, target, aslr_offset);
            &&& defined.name == encode_utf8(name)
            &&& defined.kind == symbol.kind
            &&& defined.weak == symbol.weak
            &&& defined.placement is Absolute
            &&& (defined.placement->Absolute_0 - symbol.address - aslr_offset)
                % 0x1_0000_0000_0000_0000 == 0
        }),
{
    law_offset_is_added(symbol.address, aslr_offset);
}

/// A name that the table has can be defined unless it holds a zero byte or its last symbol
/// stands for a section. Other names stand in no way.
pub proof fn law_patchable_names(name: Seq<char>, table: Seq<Symbol>, i: int)
    ensures
        last_of_name(table, name, i) ==> (name_patchable(name, table) <==> !encode_utf8(
            name,
        ).contains(0u8) && table[i].kind != SymbolKind::Section),
        lacks_name(table, name) ==> name_patchable(name, table),
{
    law_lookup_finds_the_last(table, name, i);
}

/// What is found unpatchable in a list is the first name of it that cannot be defined.
pub proof fn law_first_unpatchable(list: Seq<Seq<char>>, table: Seq<Symbol>, k: int)
    ensures
        first_unpatchable(list, table) is None <==> forall|i: int|
            0 <= i < list.len() ==> name_patchable(#[trigger] list[i], table),
        0 <= k < list.len() && !name_patchable(list[k], table) && (forall|i: int|
            0 <= i < k ==> name_patchable(#[trigger] list[i], table)) ==> first_unpatchable(
            list,
            table,
        ) == Some(list[k]),
{
    if first_unpatchable(list, table) is None {
        lemma_all_patchable(list, table);
    }
    if forall|i: int| 0 <= i < list.len() ==> name_patchable(#[trigger] list[i], table) {
        lemma_none_unpatchable(list, table);
    }
    if 0 <= k < list.len() && !name_patchable(list[k], table) && (forall|i: int|
        0 <= i < k ==> name_patchable(#[trigger] list[i], table)) {
        let before = list.take(k);
        assert forall|i: int| 0 <= i < before.len() implies name_patchable(
            #[trigger] before[i],
            table,
        ) by {
            assert(before[i] == list[i]);
        }
        lemma_none_unpatchable(before, table);
        assert(list.take(k + 1).drop_last() == before);
        assert(list.take(k + 1).last() == list[k]);
        lemma_unpatchable_prefix(list, table, k + 1);
    }
}

} // verus!

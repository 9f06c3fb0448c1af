//! What holds of every patch object.

use vstd::prelude::*;
use vstd::utf8::{encode_utf8, encode_utf8_decode_utf8};
use crate::object_file::{
    ObjectContents, ObjectSymbol, SymbolPlace, SymbolScope, object_bytes, unencodable,
};
use crate::patch::{
    defined_kind, first_unpatchable, found_names, law_found_names, law_found_names_are_patched,
    law_names_are_patched_or_missing, lemma_all_patchable,
    lemma_none_unpatchable, missing_names, name_patchable, needs_stub, patch_symbol, stubbed_names,
};
use crate::patch_object::{STUB_ALIGN, law_layout, law_text_size, layout, lays_out, patch_contents};
use crate::resolve::{Failure, Resolution, patch_object, planned, reference, resolution};
use crate::stub::{
    distance, law_moved_end, law_offsets_add_up, law_stub_jumps_to_its_address, offset_by, stub, stub_target,
};
use crate::symbols::{
    Link, Symbol, SymbolKind, defines, law_unresolved_names, lookup, unresolved, wants,
};
use crate::target::{Architecture, BinaryFormat, Target};

verus! {

/// The size of a stub on AArch64.
pub const STUB_SIZE: u64 = 16;

/// The address that a symbol of an object leads to: the one that its stub jumps to, or its
/// own.
pub open spec fn resolved_address(object: ObjectContents, symbol: ObjectSymbol) -> int {
    match symbol.place {
        SymbolPlace::Text => stub_target(
            object.architecture,
            (object.text->0).data.subrange(symbol.value, symbol.value + symbol.size),
        ),
        SymbolPlace::Absolute => symbol.value,
    }
}

/// Whether an object has a symbol of this name, kind and binding that leads to this address.
pub open spec fn resolves(
    object: ObjectContents,
    name: Seq<u8>,
    kind: SymbolKind,
    weak: bool,
    address: int,
) -> bool {
    exists|i: int|
        {
            &&& 0 <= i < object.symbols.len()
            &&& (#[trigger] object.symbols[i]).name == name
            &&& object.symbols[i].kind == kind
            &&& object.symbols[i].weak == weak
            &&& resolved_address(object, object.symbols[i]) == address
        }
}

/// Whether the object files leave a name undefined that the program to patch has.
pub open spec fn to_define(table: Seq<Link>, source: Seq<Symbol>, name: Seq<char>) -> bool {
    wants(table, name) && !defines(table, name) && lookup(source, name) is Some
}

/// Whether these are the bytes of such a name.
pub open spec fn bytes_to_define(table: Seq<Link>, source: Seq<Symbol>, bytes: Seq<u8>) -> bool {
    exists|name: Seq<char>| #[trigger]
        to_define(table, source, name) && encode_utf8(name) == bytes
}

/// The address in the running process of what a name stands for in the program to patch.
pub open spec fn address_in_process(
    source: Seq<Symbol>,
    target: Target,
    aslr_reference: u64,
    name: Seq<char>,
) -> u64 {
    offset_by(
        (lookup(source, name)->0).address,
        distance((reference(source, target)->0).address, aslr_reference),
    )
}

/// Whether a symbol of an object is what a name of the program to patch is to become: code
/// is a strong function of the object, everything else keeps its kind and its binding.
pub open spec fn stands_for(
    object: ObjectContents,
    symbol: ObjectSymbol,
    name: Seq<char>,
    source: Seq<Symbol>,
    address: u64,
) -> bool {
    let original = lookup(source, name)->0;
    &&& symbol.name == encode_utf8(name)
    &&& symbol.kind == defined_kind(original.kind)
    &&& symbol.weak == (!needs_stub(original.kind) && original.weak)
    &&& symbol.scope == SymbolScope::Linkage
    &&& symbol.place is Text <==> needs_stub(original.kind)
    &&& resolved_address(object, symbol) == address
}

proof fn lemma_same_bytes(a: Seq<char>, b: Seq<char>)
    requires
        encode_utf8(a) == encode_utf8(b),
    ensures
        a == b,
{
    encode_utf8_decode_utf8(a);
    encode_utf8_decode_utf8(b);
}

/// The stubs of a patch object are all of the same size, and the text section holds nothing
/// else.
pub proof fn law_text_holds_stubs(
    table: Seq<Link>,
    source: Seq<Symbol>,
    target: Target,
    aslr_reference: u64,
)
    requires
        target.supported(),
    ensures
        (patch_object(table, source, target, aslr_reference).text->0).data.len() == STUB_SIZE
            * stubbed_names(unresolved(table), source).len(),
{
    let offset = distance((reference(source, target)->0).address, aslr_reference);
    let patch = planned(table, source, target, aslr_reference);
    law_found_names_are_patched(unresolved(table), source, target, offset);
    assert forall|i: int| 0 <= i < patch.len() && (#[trigger] patch[i]).placement is Stub implies
        patch[i].placement->Stub_0.len() == 16 by {
        let name = found_names(unresolved(table), source)[i];
        let address = offset_by((lookup(source, name)->0).address, offset);
        assert(patch[i] == patch_symbol(name, lookup(source, name)->0, target, offset));
        law_stub_jumps_to_its_address(target.architecture->0, address);
    }
    law_text_size(patch, 16);
}

/// A patch object has one symbol for each name that the object files leave undefined and
/// the program to patch has, in the order in which the names come up. Each symbol has the
/// very name that the files use, and leads to where the program's symbol of that name is
/// in the running process.
pub proof fn law_symbols_of_an_object(
    table: Seq<Link>,
    source: Seq<Symbol>,
    target: Target,
    aslr_reference: u64,
)
    requires
        target.supported(),
        resolution(table, source, target, aslr_reference) is Ok,
    ensures
        (resolution(table, source, target, aslr_reference)->Ok_0).object == object_bytes(
            patch_object(table, source, target, aslr_reference),
        )->Ok_0,
        patch_object(table, source, target, aslr_reference).symbols.len() == found_names(
            unresolved(table),
            source,
        ).len(),
        forall|i: int|
            0 <= i < found_names(unresolved(table), source).len() ==> stands_for(
                patch_object(table, source, target, aslr_reference),
                #[trigger] patch_object(table, source, target, aslr_reference).symbols[i],
                found_names(unresolved(table), source)[i],
                source,
                address_in_process(
                    source,
                    target,
                    aslr_reference,
                    found_names(unresolved(table), source)[i],
                ),
            ),
        forall|name: Seq<char>| #[trigger]
            found_names(unresolved(table), source).contains(name) <==> to_define(
                table,
                source,
                name,
            ),
{
    lemma_symbols(table, source, target, aslr_reference);
}

/// The symbols of an object, whether or not it can be written.
proof fn lemma_symbols(
    table: Seq<Link>,
    source: Seq<Symbol>,
    target: Target,
    aslr_reference: u64,
)
    requires
        target.supported(),
        first_unpatchable(unresolved(table), source) is None,
    ensures
        patch_object(table, source, target, aslr_reference).symbols.len() == found_names(
            unresolved(table),
            source,
        ).len(),
        forall|i: int|
            0 <= i < found_names(unresolved(table), source).len() ==> stands_for(
                patch_object(table, source, target, aslr_reference),
                #[trigger] patch_object(table, source, target, aslr_reference).symbols[i],
                found_names(unresolved(table), source)[i],
                source,
                address_in_process(
                    source,
                    target,
                    aslr_reference,
                    found_names(unresolved(table), source)[i],
                ),
            ),
        forall|name: Seq<char>| #[trigger]
            found_names(unresolved(table), source).contains(name) <==> to_define(
                table,
                source,
                name,
            ),
{
    let offset = distance((reference(source, target)->0).address, aslr_reference);
    let patch = planned(table, source, target, aslr_reference);
    let object = patch_object(table, source, target, aslr_reference);
    let list = unresolved(table);
    let found = found_names(list, source);
    law_found_names_are_patched(list, source, target, offset);
    law_found_names(list, source);
    law_unresolved_names(table);
    law_layout(patch);
    lemma_all_patchable(list, source);
    assert forall|i: int| 0 <= i < found.len() implies stands_for(
        object,
        #[trigger] object.symbols[i],
        found[i],
        source,
        address_in_process(source, target, aslr_reference, found[i]),
    ) by {
        let name = found[i];
        let symbol = lookup(source, name)->0;
        assert(found.contains(name));
        assert(list[list.index_of(name)] == name);
        assert(name_patchable(list[list.index_of(name)], source));
        assert(patch[i] == patch_symbol(name, symbol, target, offset));
        assert(lays_out(
            layout(patch).text.data,
            layout(patch).symbols[i],
            patch[i],
        ));
        law_stub_jumps_to_its_address(
            target.architecture->0,
            offset_by(symbol.address, offset),
        );
    }
    assert forall|name: Seq<char>| #[trigger] found.contains(name) <==> to_define(
        table,
        source,
        name,
    ) by {
        assert(list.contains(name) <==> wants(table, name) && !defines(table, name));
    }
}

/// Whenever a patch object is made, each name that the object files leave undefined and
/// the program to patch has is the name of a symbol in it, which leads to where the
/// program's symbol of that name is in the running process. The process is known by the
/// address of the reference symbol in it.
pub proof fn law_undefined_names_lead_into_the_process(
    table: Seq<Link>,
    source: Seq<Symbol>,
    target: Target,
    aslr_reference: u64,
    name: Seq<char>,
)
    requires
        target.supported(),
        resolution(table, source, target, aslr_reference) is Ok,
        to_define(table, source, name),
    ensures
        exists|i: int|
            {
                &&& 0 <= i < patch_object(table, source, target, aslr_reference).symbols.len()
                &&& (#[trigger] patch_object(
                    table,
                    source,
                    target,
                    aslr_reference,
                ).symbols[i]).name == encode_utf8(name)
                &&& resolved_address(
                    patch_object(table, source, target, aslr_reference),
                    patch_object(table, source, target, aslr_reference).symbols[i],
                ) == address_in_process(source, target, aslr_reference, name)
            },
{
    law_symbols_of_an_object(table, source, target, aslr_reference);
    let object = patch_object(table, source, target, aslr_reference);
    let found = found_names(unresolved(table), source);
    assert(found.contains(name));
    let i = found.index_of(name);
    assert(object.symbols[i].name == encode_utf8(name));
}

/// Whenever a patch object is made, the names of its symbols are those that the object
/// files leave undefined and the program to patch has, and no two symbols share a name. All
/// of them are defined: in the text section or as an address.
pub proof fn law_object_defines_each_name_once(
    table: Seq<Link>,
    source: Seq<Symbol>,
    target: Target,
    aslr_reference: u64,
)
    requires
        target.supported(),
        resolution(table, source, target, aslr_reference) is Ok,
    ensures
        forall|i: int|
            0 <= i < patch_object(table, source, target, aslr_reference).symbols.len()
                ==> bytes_to_define(
                table,
                source,
                (#[trigger] patch_object(table, source, target, aslr_reference).symbols[i]).name,
            ),
        forall|name: Seq<char>| #[trigger]
            to_define(table, source, name) ==> exists|i: int|
                0 <= i < patch_object(table, source, target, aslr_reference).symbols.len() && (
                #[trigger] patch_object(table, source, target, aslr_reference).symbols[i]).name
                    == encode_utf8(name),
        forall|i: int, j: int|
            0 <= i < j < patch_object(table, source, target, aslr_reference).symbols.len() ==> (
            #[trigger] patch_object(table, source, target, aslr_reference).symbols[i]).name != (
            #[trigger] patch_object(table, source, target, aslr_reference).symbols[j]).name,
        unresolved(table).len() == patch_object(
            table,
            source,
            target,
            aslr_reference,
        ).symbols.len() + missing_names(unresolved(table), source).len(),
{
    law_symbols_of_an_object(table, source, target, aslr_reference);
    law_unresolved_names(table);
    law_found_names(unresolved(table), source);
    let offset = distance((reference(source, target)->0).address, aslr_reference);
    law_names_are_patched_or_missing(unresolved(table), source, target, offset);
    law_found_names_are_patched(unresolved(table), source, target, offset);
    let object = patch_object(table, source, target, aslr_reference);
    let found = found_names(unresolved(table), source);
    assert forall|i: int| 0 <= i < object.symbols.len() implies bytes_to_define(
        table,
        source,
        (#[trigger] object.symbols[i]).name,
    ) by {
        assert(found.contains(found[i]));
        assert(to_define(table, source, found[i]));
    }
    assert forall|name: Seq<char>| #[trigger] to_define(table, source, name) implies exists|i: int|
        0 <= i < object.symbols.len() && (#[trigger] object.symbols[i]).name == encode_utf8(name) by {
        assert(found.contains(name));
        assert(object.symbols[found.index_of(name)].name == encode_utf8(name));
    }
    assert forall|i: int, j: int| 0 <= i < j < object.symbols.len() implies (
    #[trigger] object.symbols[i]).name != (#[trigger] object.symbols[j]).name by {
        if object.symbols[i].name == object.symbols[j].name {
            lemma_same_bytes(found[i], found[j]);
        }
    }
}

/// Whether a symbol of an object is a strong function of sixteen bytes at a multiple of
/// eight of the text section, and the bytes there load an address and jump to it.
pub open spec fn is_stub(object: ObjectContents, symbol: ObjectSymbol, address: u64) -> bool {
    let text = (object.text->0).data;
    &&& symbol.kind == SymbolKind::Text
    &&& !symbol.weak
    &&& symbol.place is Text
    &&& symbol.size == STUB_SIZE
    &&& symbol.value % (STUB_ALIGN as int) == 0
    &&& 0 <= symbol.value && symbol.value + STUB_SIZE <= text.len()
    &&& text.subrange(symbol.value, symbol.value + STUB_SIZE) == stub(
        Architecture::Aarch64,
        address,
    )
}

proof fn lemma_is_stub(
    table: Seq<Link>,
    source: Seq<Symbol>,
    target: Target,
    aslr_reference: u64,
    i: int,
)
    requires
        target.supported(),
        0 <= i < found_names(unresolved(table), source).len(),
        needs_stub((lookup(source, found_names(unresolved(table), source)[i])->0).kind),
    ensures
        is_stub(
            patch_object(table, source, target, aslr_reference),
            patch_object(table, source, target, aslr_reference).symbols[i],
            address_in_process(
                source,
                target,
                aslr_reference,
                found_names(unresolved(table), source)[i],
            ),
        ),
{
    let offset = distance((reference(source, target)->0).address, aslr_reference);
    let patch = planned(table, source, target, aslr_reference);
    let object = patch_object(table, source, target, aslr_reference);
    let name = found_names(unresolved(table), source)[i];
    let address = address_in_process(source, target, aslr_reference, name);
    law_found_names_are_patched(unresolved(table), source, target, offset);
    assert(patch[i] == patch_symbol(name, lookup(source, name)->0, target, offset));
    assert(lays_out((object.text->0).data, object.symbols[i], patch[i])) by {
        law_layout(patch);
        assert(object.symbols[i] == layout(patch).symbols[i]);
    }
    lemma_stub_size(address);
}

proof fn lemma_stub_size(address: u64)
    ensures
        stub(Architecture::Aarch64, address).len() == STUB_SIZE,
{
}

/// Whenever a patch object is made, each of its symbols that stands for code is a stub that
/// jumps to where the code is in the running process. No two stubs overlap, and the text
/// section holds nothing else.
pub proof fn law_stubs_of_an_object(
    table: Seq<Link>,
    source: Seq<Symbol>,
    target: Target,
    aslr_reference: u64,
)
    requires
        target.supported(),
        resolution(table, source, target, aslr_reference) is Ok,
    ensures
        forall|i: int|
            0 <= i < found_names(unresolved(table), source).len() && needs_stub(
                (lookup(source, found_names(unresolved(table), source)[i])->0).kind,
            ) ==> is_stub(
                patch_object(table, source, target, aslr_reference),
                #[trigger] patch_object(table, source, target, aslr_reference).symbols[i],
                address_in_process(
                    source,
                    target,
                    aslr_reference,
                    found_names(unresolved(table), source)[i],
                ),
            ),
        forall|i: int, j: int|
            0 <= i < j < patch_object(table, source, target, aslr_reference).symbols.len() && (
            #[trigger] patch_object(table, source, target, aslr_reference).symbols[i]).place is Text
                && (#[trigger] patch_object(
                table,
                source,
                target,
                aslr_reference,
            ).symbols[j]).place is Text ==> patch_object(
                table,
                source,
                target,
                aslr_reference,
            ).symbols[i].value + STUB_SIZE <= patch_object(
                table,
                source,
                target,
                aslr_reference,
            ).symbols[j].value,
        (patch_object(table, source, target, aslr_reference).text->0).data.len() == STUB_SIZE
            * stubbed_names(unresolved(table), source).len(),
{
    let object = patch_object(table, source, target, aslr_reference);
    let found = found_names(unresolved(table), source);
    law_symbols_of_an_object(table, source, target, aslr_reference);
    law_text_holds_stubs(table, source, target, aslr_reference);
    assert forall|i: int| 0 <= i < found.len() && needs_stub((lookup(source, found[i])->0).kind) implies is_stub(
        object,
        #[trigger] object.symbols[i],
        address_in_process(source, target, aslr_reference, found[i]),
    ) by {
        lemma_is_stub(table, source, target, aslr_reference, i);
    }
    assert forall|i: int, j: int|
        0 <= i < j < object.symbols.len() && (#[trigger] object.symbols[i]).place is Text && (
        #[trigger] object.symbols[j]).place is Text implies object.symbols[i].value + STUB_SIZE
        <= object.symbols[j].value by {
        law_layout(planned(table, source, target, aslr_reference));
        let all = layout(
            planned(table, source, target, aslr_reference),
        );
        assert(object.symbols[i] == all.symbols[i]);
        assert(object.symbols[j] == all.symbols[j]);
        assert(is_stub(
            object,
            object.symbols[i],
            address_in_process(source, target, aslr_reference, found[i]),
        ));
    }
}

proof fn lemma_moved_distance(address: u64, reference: u64, aslr_reference: u64, d: u64)
    ensures
        offset_by(address, distance(reference, offset_by(aslr_reference, d))) == offset_by(
            offset_by(address, distance(reference, aslr_reference)),
            d,
        ),
{
    law_offsets_add_up(address, distance(reference, aslr_reference), d);
    law_moved_end(reference, aslr_reference, d);
}

proof fn lemma_same_kinds(
    table: Seq<Link>,
    source: Seq<Symbol>,
    target: Target,
    x: u64,
    y: u64,
)
    requires
        target.supported(),
        first_unpatchable(unresolved(table), source) is None,
        unencodable(patch_object(table, source, target, x)),
    ensures
        unencodable(patch_object(table, source, target, y)),
{
    lemma_symbols(table, source, target, x);
    lemma_symbols(table, source, target, y);
    let from = patch_object(table, source, target, x);
    let to = patch_object(table, source, target, y);
    let i = choose|i: int|
        0 <= i < from.symbols.len() && (#[trigger] from.symbols[i]).kind == (match from.format {
            BinaryFormat::Elf => SymbolKind::Unknown,
            BinaryFormat::MachO => SymbolKind::Label,
        });
    assert(to.symbols[i].kind == from.symbols[i].kind);
}

/// If the reference symbol is `d` bytes further on in the process, a patch object is made
/// under the same conditions and reports the same names as missing. It has symbols of the
/// same names, kinds and bindings in the same order, and each leads `d` bytes further on.
pub proof fn law_moved_reference_moves_all(
    table: Seq<Link>,
    source: Seq<Symbol>,
    target: Target,
    aslr_reference: u64,
    d: u64,
)
    requires
        target.supported(),
    ensures
        resolution(table, source, target, aslr_reference) is Ok <==> resolution(
            table,
            source,
            target,
            offset_by(aslr_reference, d),
        ) is Ok,
        resolution(table, source, target, aslr_reference) is Ok ==> {
            let here = patch_object(table, source, target, aslr_reference);
            let there = patch_object(table, source, target, offset_by(aslr_reference, d));
            &&& (resolution(table, source, target, aslr_reference)->Ok_0).missing == (resolution(
                table,
                source,
                target,
                offset_by(aslr_reference, d),
            )->Ok_0).missing
            &&& here.symbols.len() == there.symbols.len()
            &&& forall|i: int|
                0 <= i < here.symbols.len() ==> is_moved(
                    here,
                    #[trigger] here.symbols[i],
                    there,
                    there.symbols[i],
                    d,
                )
        },
{
    let moved = offset_by(aslr_reference, d);
    if first_unpatchable(unresolved(table), source) is None {
        let here = patch_object(table, source, target, aslr_reference);
        let there = patch_object(table, source, target, moved);
        if unencodable(here) {
            lemma_same_kinds(table, source, target, aslr_reference, moved);
        }
        if unencodable(there) {
            lemma_same_kinds(table, source, target, moved, aslr_reference);
        }
        lemma_symbols(table, source, target, aslr_reference);
        lemma_symbols(table, source, target, moved);
        let found = found_names(unresolved(table), source);
        assert forall|i: int| 0 <= i < here.symbols.len() implies is_moved(
            here,
            #[trigger] here.symbols[i],
            there,
            there.symbols[i],
            d,
        ) by {
            lemma_moved_distance(
                (lookup(source, found[i])->0).address,
                (reference(source, target)->0).address,
                aslr_reference,
                d,
            );
            assert(there.symbols[i].name == here.symbols[i].name);
        }
    }
}

/// Whether two symbols of two objects have the same name, kind and binding, and the second
/// leads `d` bytes further on.
pub open spec fn is_moved(
    here: ObjectContents,
    symbol: ObjectSymbol,
    there: ObjectContents,
    moved: ObjectSymbol,
    d: u64,
) -> bool {
    &&& moved.name == symbol.name
    &&& moved.kind == symbol.kind
    &&& moved.weak == symbol.weak
    &&& moved.place == symbol.place
    &&& resolved_address(there, moved) == offset_by(resolved_address(here, symbol) as u64, d)
}

/// If the process has the reference symbol where the file says, each symbol of a patch
/// object leads to the address that the file gives for it.
pub proof fn law_unmoved_reference_keeps_addresses(
    table: Seq<Link>,
    source: Seq<Symbol>,
    target: Target,
    aslr_reference: u64,
)
    requires
        target.supported(),
        resolution(table, source, target, aslr_reference) is Ok,
        aslr_reference == (reference(source, target)->0).address,
    ensures
        forall|i: int|
            0 <= i < found_names(unresolved(table), source).len() ==> resolved_address(
                patch_object(table, source, target, aslr_reference),
                #[trigger] patch_object(table, source, target, aslr_reference).symbols[i],
            ) == (lookup(source, found_names(unresolved(table), source)[i])->0).address,
{
    law_symbols_of_an_object(table, source, target, aslr_reference);
    let object = patch_object(table, source, target, aslr_reference);
    let found = found_names(unresolved(table), source);
    assert forall|i: int| 0 <= i < found.len() implies resolved_address(
        object,
        #[trigger] object.symbols[i],
    ) == (lookup(source, found[i])->0).address by {
        assert(stands_for(
            object,
            object.symbols[i],
            found[i],
            source,
            address_in_process(source, target, aslr_reference, found[i]),
        ));
    }
}

/// Whether two tables want and define the same names.
pub open spec fn same_names(table: Seq<Link>, other: Seq<Link>) -> bool {
    &&& forall|name: Seq<char>| #[trigger] wants(table, name) <==> wants(other, name)
    &&& forall|name: Seq<char>| #[trigger] defines(table, name) <==> defines(other, name)
}

proof fn lemma_same_names(
    table: Seq<Link>,
    other: Seq<Link>,
    source: Seq<Symbol>,
    target: Target,
    aslr_reference: u64,
)
    requires
        target.supported(),
        same_names(table, other),
        resolution(table, source, target, aslr_reference) is Ok,
    ensures
        resolution(other, source, target, aslr_reference) is Ok,
        forall|name: Seq<u8>, kind: SymbolKind, weak: bool, address: int| #[trigger]
            resolves(
                patch_object(table, source, target, aslr_reference),
                name,
                kind,
                weak,
                address,
            ) ==> resolves(
                patch_object(other, source, target, aslr_reference),
                name,
                kind,
                weak,
                address,
            ),
{
    let here = patch_object(table, source, target, aslr_reference);
    let there = patch_object(other, source, target, aslr_reference);
    let found = found_names(unresolved(table), source);
    let also = found_names(unresolved(other), source);
    law_unresolved_names(table);
    law_unresolved_names(other);
    lemma_all_patchable(unresolved(table), source);
    assert forall|i: int| 0 <= i < unresolved(other).len() implies name_patchable(
        #[trigger] unresolved(other)[i],
        source,
    ) by {
        let name = unresolved(other)[i];
        assert(unresolved(other).contains(name));
        assert(wants(table, name) && !defines(table, name));
        assert(unresolved(table).contains(name));
        assert(unresolved(table)[unresolved(table).index_of(name)] == name);
    }
    lemma_none_unpatchable(unresolved(other), source);
    lemma_symbols(table, source, target, aslr_reference);
    lemma_symbols(other, source, target, aslr_reference);
    if unencodable(there) {
        let i = choose|i: int|
            0 <= i < there.symbols.len() && (#[trigger] there.symbols[i]).kind == (
            match there.format {
                BinaryFormat::Elf => SymbolKind::Unknown,
                BinaryFormat::MachO => SymbolKind::Label,
            });
        assert(also.contains(also[i]));
        assert(to_define(table, source, also[i]));
        assert(found.contains(also[i]));
        assert(here.symbols[found.index_of(also[i])].kind == there.symbols[i].kind);
    }
    assert forall|name: Seq<u8>, kind: SymbolKind, weak: bool, address: int| #[trigger]
        resolves(here, name, kind, weak, address) implies resolves(
        there,
        name,
        kind,
        weak,
        address,
    ) by {
        let i = choose|i: int|
            {
                &&& 0 <= i < here.symbols.len()
                &&& (#[trigger] here.symbols[i]).name == name
                &&& here.symbols[i].kind == kind
                &&& here.symbols[i].weak == weak
                &&& resolved_address(here, here.symbols[i]) == address
            };
        assert(found.contains(found[i]));
        assert(to_define(other, source, found[i]));
        assert(also.contains(found[i]));
        let j = also.index_of(found[i]);
        assert(there.symbols[j].name == name);
    }
}

/// Tables that want and define the same names lead to a patch object under the same
/// conditions. The objects have symbols of the same names, kinds and bindings that lead to
/// the same addresses, and the same names are missing.
pub proof fn law_same_names_same_object(
    table: Seq<Link>,
    other: Seq<Link>,
    source: Seq<Symbol>,
    target: Target,
    aslr_reference: u64,
)
    requires
        target.supported(),
        same_names(table, other),
    ensures
        resolution(table, source, target, aslr_reference) is Ok <==> resolution(
            other,
            source,
            target,
            aslr_reference,
        ) is Ok,
        resolution(table, source, target, aslr_reference) is Ok ==> forall|
            name: Seq<u8>,
            kind: SymbolKind,
            weak: bool,
            address: int,
        | #[trigger]
            resolves(
                patch_object(table, source, target, aslr_reference),
                name,
                kind,
                weak,
                address,
            ) <==> resolves(
                patch_object(other, source, target, aslr_reference),
                name,
                kind,
                weak,
                address,
            ),
        resolution(table, source, target, aslr_reference) is Ok ==> forall|name: Seq<char>|
            #[trigger]
            (resolution(table, source, target, aslr_reference)->Ok_0).missing.contains(name) <==> (
            resolution(other, source, target, aslr_reference)->Ok_0).missing.contains(name),
{
    if resolution(table, source, target, aslr_reference) is Ok {
        lemma_same_names(table, other, source, target, aslr_reference);
    }
    if resolution(other, source, target, aslr_reference) is Ok {
        lemma_same_names(other, table, source, target, aslr_reference);
        assert forall|name: Seq<char>| #[trigger]
            (resolution(table, source, target, aslr_reference)->Ok_0).missing.contains(name) <==> (
            resolution(other, source, target, aslr_reference)->Ok_0).missing.contains(name) by {
            law_missing_names(table, source, target, aslr_reference, name);
            law_missing_names(other, source, target, aslr_reference, name);
        }
    }
}

/// Whenever a patch object is made, the names that are reported as missing are those
/// that the object files leave undefined and the program to patch does not have.
pub proof fn law_missing_names(
    table: Seq<Link>,
    source: Seq<Symbol>,
    target: Target,
    aslr_reference: u64,
    name: Seq<char>,
)
    requires
        resolution(table, source, target, aslr_reference) is Ok,
    ensures
        (resolution(table, source, target, aslr_reference)->Ok_0).missing.contains(name) <==> wants(
            table,
            name,
        ) && !defines(table, name) && lookup(source, name) is None,
{
    let offset = distance((reference(source, target)->0).address, aslr_reference);
    law_unresolved_names(table);
    law_names_are_patched_or_missing(unresolved(table), source, target, offset);
    assert(missing_names(unresolved(table), source).contains(name) <==> unresolved(table).contains(
        name,
    ) && lookup(source, name) is None);
}

/// Object files without undefined names give an object without symbols, and nothing is
/// missing.
pub proof fn law_nothing_undefined_gives_empty_object(
    table: Seq<Link>,
    source: Seq<Symbol>,
    target: Target,
    aslr_reference: u64,
)
    requires
        forall|name: Seq<char>| !#[trigger] wants(table, name),
        reference(source, target) is Some,
    ensures
        resolution(table, source, target, aslr_reference) == Ok::<_, Failure>(
            Resolution {
                object: object_bytes(patch_contents(target, Seq::empty()))->Ok_0,
                missing: Seq::empty(),
            },
        ),
        patch_contents(target, Seq::empty()).symbols.len() == 0,
{
    law_unresolved_names(table);
    let list = unresolved(table);
    if list.len() > 0 {
        assert(list.contains(list[0]));
        assert(wants(table, list[0]));
    }
    assert(list =~= Seq::empty());
}

} // verus!

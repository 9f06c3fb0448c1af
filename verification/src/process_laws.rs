//! What the names of the object files become in a patch object, in terms of what the files
//! hold.

use vstd::prelude::*;
use vstd::utf8::encode_utf8;
use crate::file_laws::{law_collected_symbols, some_file_has};
use crate::incremental::{Incremental, is_permutation, lemma_permutation_is_complete};
use crate::object_file::{
    ObjectContents, ObjectSymbol, file_base, file_links, file_offsets, file_symbols,
    law_unencodable, object_bytes, unencodable,
};
use crate::object_laws::{
    law_object_defines_each_name_once, law_stubs_of_an_object, law_symbols_of_an_object,
};
use crate::patch::{
    PatchSymbol, first_unpatchable, found_names, law_code_gets_a_stub, law_data_gets_its_address,
    law_first_unpatchable, law_found_names, law_found_names_are_patched,
    law_names_are_patched_or_missing, law_patchable_names, missing_names, name_patchable,
    patch_symbol, stub_count,
};
use crate::patch_object::{law_header, law_layout, law_text_alignment, layout, lays_out};
use crate::resolve::{
    Failure, collected, full_resolution, incremental_links, patch_object, planned,
    program_symbols, reference, resolution,
};
use crate::resolve_laws::{
    law_reference_symbol, law_steps_of_a_resolution, law_symbols_of_a_file,
    law_symbols_of_the_program, law_unusable_program, usable,
};
use crate::stub::{distance, law_distance_is_a_difference, number_at};
use crate::symbols::{
    Link, Symbol, SymbolKind, Unplaced, lacks_name, last_of_name, law_found_symbol_is_the_last,
    law_lookup_finds_the_last, law_unresolved_by_fields, law_unresolved_names, lookup, unresolved,
};
use crate::target::{Architecture, BinaryFormat, Target};

verus! {

/// Whether a symbol of this name is undefined, and none of this name is both defined and
/// global.
pub open spec fn left_undefined(table: Seq<Link>, name: Seq<char>) -> bool {
    &&& exists|i: int|
        0 <= i < table.len() && (#[trigger] table[i]).undefined && table[i].name is Ok
            && table[i].name->Ok_0 == name
    &&& forall|i: int|
        0 <= i < table.len() && (#[trigger] table[i]).name is Ok && table[i].name->Ok_0 == name
            && table[i].global ==> table[i].undefined
}

/// Whether the reference symbol is at this place of a program's table: the last one of the
/// name `_aslr_reference`, or in ELF, without one, the last one of the name `aslr_reference`.
pub open spec fn reference_at(source: Seq<Symbol>, target: Target, i: int) -> bool {
    ||| last_of_name(source, "_aslr_reference"@, i)
    ||| lacks_name(source, "_aslr_reference"@) && target.binary_format == Some(BinaryFormat::Elf)
        && last_of_name(source, "aslr_reference"@, i)
}

/// Whether a symbol of an object stands for something of the given kind and binding at the
/// given address, up to a multiple of the size of the address space.
///
/// Code, and what may be code, is a strong function of sixteen bytes at a multiple of eight of
/// the text section, which loads the address from its own end into `x16` and branches to
/// `x16`. Everything else is that address, with its own kind and binding.
#[verifier::opaque]
pub open spec fn becomes(
    object: ObjectContents,
    symbol: ObjectSymbol,
    kind: SymbolKind,
    weak: bool,
    address: int,
) -> bool {
    let text = (object.text->0).data;
    let at = symbol.value;
    if kind == SymbolKind::Text || kind == SymbolKind::Unknown {
        &&& symbol.kind is Text
        &&& !symbol.weak
        &&& symbol.scope is Linkage
        &&& symbol.place is Text
        &&& symbol.size == 16
        &&& 0 <= at && at % 8 == 0 && at + 16 <= text.len()
        &&& text[at] == 0x50 && text[at + 1] == 0x00 && text[at + 2] == 0x00 && text[at + 3]
            == 0x58
        &&& text[at + 4] == 0x00 && text[at + 5] == 0x02 && text[at + 6] == 0x1F && text[at + 7]
            == 0xD6
        &&& (number_at(text, at + 8) - address) % 0x1_0000_0000_0000_0000 == 0
    } else {
        &&& symbol.kind == kind
        &&& symbol.weak == weak
        &&& symbol.scope is Linkage
        &&& symbol.place is Absolute
        &&& symbol.size == 0
        &&& 0 <= at < 0x1_0000_0000_0000_0000
        &&& (at - address) % 0x1_0000_0000_0000_0000 == 0
    }
}

/// Whether exactly one symbol of an object has this name, and it stands for something of the
/// given kind and binding at the given address.
pub open spec fn defined_once(
    object: ObjectContents,
    name: Seq<u8>,
    kind: SymbolKind,
    weak: bool,
    address: int,
) -> bool {
    exists|k: int|
        {
            &&& 0 <= k < object.symbols.len()
            &&& (#[trigger] object.symbols[k]).name == name
            &&& becomes(object, object.symbols[k], kind, weak, address)
            &&& forall|j: int|
                0 <= j < object.symbols.len() && j != k ==> (#[trigger] object.symbols[j]).name
                    != name
        }
}

proof fn lemma_same_residue(x: int, y: int, z: int)
    requires
        (x - y) % 0x1_0000_0000_0000_0000 == 0,
        (y - z) % 0x1_0000_0000_0000_0000 == 0,
    ensures
        (x - z) % 0x1_0000_0000_0000_0000 == 0,
{
}

proof fn lemma_number_within(text: Seq<u8>, at: int, code: Seq<u8>)
    requires
        0 <= at && at + 16 <= text.len(),
        code.len() == 16,
        text.subrange(at, at + 16) == code,
    ensures
        forall|k: int| 0 <= k < 16 ==> #[trigger] code[k] == text[at + k],
        number_at(text, at + 8) == number_at(code, 8),
{
    assert(forall|k: int| 0 <= k < 16 ==> #[trigger] code[k] == text[at + k]);
    assert(code[8] == text[at + 8] && code[9] == text[at + 8 + 1] && code[10] == text[at + 8 + 2]
        && code[11] == text[at + 8 + 3] && code[12] == text[at + 8 + 4] && code[13] == text[at + 8
        + 5] && code[14] == text[at + 8 + 6] && code[15] == text[at + 8 + 7]);
}

/// What the symbol at one place of an object stands for.
proof fn lemma_becomes(
    table: Seq<Link>,
    source: Seq<Symbol>,
    target: Target,
    aslr_reference: u64,
    k: int,
)
    requires
        target.architecture == Some(Architecture::Aarch64),
        target.binary_format is Some,
        0 <= k < found_names(unresolved(table), source).len(),
    ensures
        k < patch_object(table, source, target, aslr_reference).symbols.len(),
        ({
            let name = found_names(unresolved(table), source)[k];
            let original = lookup(source, name)->0;
            let object = patch_object(table, source, target, aslr_reference);
            &&& object.symbols[k].name == encode_utf8(name)
            &&& becomes(
                object,
                object.symbols[k],
                original.kind,
                original.weak,
                original.address + aslr_reference - (reference(source, target)->0).address,
            )
        }),
{
    let offset = distance((reference(source, target)->0).address, aslr_reference);
    let patch = planned(table, source, target, aslr_reference);
    let object = patch_object(table, source, target, aslr_reference);
    let name = found_names(unresolved(table), source)[k];
    let original = lookup(source, name)->0;
    law_found_names_are_patched(unresolved(table), source, target, offset);
    law_layout(patch);
    assert(patch[k] == patch_symbol(name, original, target, offset));
    assert(lays_out(layout(patch).text.data, layout(patch).symbols[k], patch[k]));
    assert(object.symbols[k] == layout(patch).symbols[k]);
    lemma_laid_out_becomes(
        object,
        object.symbols[k],
        name,
        original,
        target,
        (reference(source, target)->0).address,
        aslr_reference,
    );
}

proof fn lemma_laid_out_becomes(
    object: ObjectContents,
    symbol: ObjectSymbol,
    name: Seq<char>,
    original: Symbol,
    target: Target,
    reference: u64,
    aslr_reference: u64,
)
    requires
        target.architecture == Some(Architecture::Aarch64),
        lays_out(
            (object.text->0).data,
            symbol,
            patch_symbol(name, original, target, distance(reference, aslr_reference)),
        ),
    ensures
        symbol.name == encode_utf8(name),
        becomes(
            object,
            symbol,
            original.kind,
            original.weak,
            original.address + aslr_reference - reference,
        ),
{
    let offset = distance(reference, aslr_reference);
    let wanted = patch_symbol(name, original, target, offset);
    let address = original.address + aslr_reference - reference;
    lemma_offset_residue(original.address, reference, aslr_reference);
    if original.kind == SymbolKind::Text || original.kind == SymbolKind::Unknown {
        law_code_gets_a_stub(name, original, target, offset);
        let code = wanted.placement->Stub_0;
        let text = (object.text->0).data;
        lemma_number_within(text, symbol.value, code);
        lemma_same_residue(number_at(code, 8), original.address + offset, address);
        assert(code[0] == text[symbol.value + 0] && code[1] == text[symbol.value + 1] && code[2]
            == text[symbol.value + 2] && code[3] == text[symbol.value + 3] && code[4]
            == text[symbol.value + 4] && code[5] == text[symbol.value + 5] && code[6]
            == text[symbol.value + 6] && code[7] == text[symbol.value + 7]);
        lemma_is_becoming_code(object, symbol, original.kind, original.weak, address);
    } else {
        law_data_gets_its_address(name, original, target, offset);
        lemma_same_residue(
            wanted.placement->Absolute_0 as int,
            original.address + offset,
            address,
        );
        reveal(becomes);
    }
}

proof fn lemma_is_becoming_code(
    object: ObjectContents,
    symbol: ObjectSymbol,
    kind: SymbolKind,
    weak: bool,
    address: int,
)
    requires
        kind == SymbolKind::Text || kind == SymbolKind::Unknown,
        symbol.kind is Text,
        !symbol.weak,
        symbol.scope is Linkage,
        symbol.place is Text,
        symbol.size == 16,
        symbol.value % 8 == 0,
        0 <= symbol.value && symbol.value + 16 <= (object.text->0).data.len(),
        (object.text->0).data[symbol.value] == 0x50,
        (object.text->0).data[symbol.value + 1] == 0x00,
        (object.text->0).data[symbol.value + 2] == 0x00,
        (object.text->0).data[symbol.value + 3] == 0x58,
        (object.text->0).data[symbol.value + 4] == 0x00,
        (object.text->0).data[symbol.value + 5] == 0x02,
        (object.text->0).data[symbol.value + 6] == 0x1F,
        (object.text->0).data[symbol.value + 7] == 0xD6,
        (number_at((object.text->0).data, symbol.value + 8) - address) % 0x1_0000_0000_0000_0000
            == 0,
    ensures
        becomes(object, symbol, kind, weak, address),
{
    reveal(becomes);
}

/// What a symbol stands for does not change with a multiple of the size of the address space.
proof fn lemma_becomes_at_residue(
    object: ObjectContents,
    symbol: ObjectSymbol,
    kind: SymbolKind,
    weak: bool,
    before: int,
    after: int,
)
    requires
        becomes(object, symbol, kind, weak, before),
        (before - after) % 0x1_0000_0000_0000_0000 == 0,
    ensures
        becomes(object, symbol, kind, weak, after),
{
    reveal(becomes);
    if kind == SymbolKind::Text || kind == SymbolKind::Unknown {
        lemma_same_residue(number_at((object.text->0).data, symbol.value + 8), before, after);
    } else {
        lemma_same_residue(symbol.value, before, after);
    }
}

/// Code becomes code, and everything else keeps its kind.
proof fn lemma_kind_of_what_it_becomes(
    object: ObjectContents,
    symbol: ObjectSymbol,
    kind: SymbolKind,
    weak: bool,
    address: int,
)
    requires
        becomes(object, symbol, kind, weak, address),
    ensures
        kind == SymbolKind::Text || kind == SymbolKind::Unknown ==> symbol.kind is Text,
        kind != SymbolKind::Text && kind != SymbolKind::Unknown ==> symbol.kind == kind,
{
    reveal(becomes);
}

proof fn lemma_offset_residue(file_address: u64, reference: u64, aslr_reference: u64)
    ensures
        ((file_address + distance(reference, aslr_reference)) - (file_address + aslr_reference
            - reference)) % 0x1_0000_0000_0000_0000 == 0,
{
    law_distance_is_a_difference(reference, aslr_reference);
}

/// Whenever a patch object is made, a name that the object files leave undefined becomes what
/// the last symbol of that name in the program is. Its address in the process is the one that
/// the file gives, moved as the reference symbol was moved. Exactly one symbol of the object
/// has the name, and it has all of it.
pub proof fn law_what_a_name_becomes(
    table: Seq<Link>,
    source: Seq<Symbol>,
    target: Target,
    aslr_reference: u64,
    name: Seq<char>,
    i: int,
    r: int,
)
    requires
        target.architecture == Some(Architecture::Aarch64),
        target.binary_format is Some,
        resolution(table, source, target, aslr_reference) is Ok,
        left_undefined(table, name),
        last_of_name(source, name, i),
        reference_at(source, target, r),
    ensures
        defined_once(
            patch_object(table, source, target, aslr_reference),
            encode_utf8(name),
            source[i].kind,
            source[i].weak,
            source[i].address + aslr_reference - source[r].address,
        ),
{
    let object = patch_object(table, source, target, aslr_reference);
    let found = found_names(unresolved(table), source);
    assert(reference(source, target) == Some(source[r])) by {
        law_reference_symbol(source, target, r);
    }
    assert(lookup(source, name) == Some(source[i])) by {
        law_lookup_finds_the_last(source, name, i);
    }
    assert(found.contains(name)) by {
        law_unresolved_by_fields(table, name);
        law_found_names(unresolved(table), source);
    }
    let k = found.index_of(name);
    lemma_becomes(table, source, target, aslr_reference, k);
    assert forall|j: int| 0 <= j < object.symbols.len() && j != k implies (
    #[trigger] object.symbols[j]).name != encode_utf8(name) by {
        lemma_distinct_names(table, source, target, aslr_reference, j, k);
    }
    assert(object.symbols[k].name == encode_utf8(name));
}

proof fn lemma_distinct_names(
    table: Seq<Link>,
    source: Seq<Symbol>,
    target: Target,
    aslr_reference: u64,
    j: int,
    k: int,
)
    requires
        target.architecture == Some(Architecture::Aarch64),
        target.binary_format is Some,
        resolution(table, source, target, aslr_reference) is Ok,
        0 <= j < patch_object(table, source, target, aslr_reference).symbols.len(),
        0 <= k < patch_object(table, source, target, aslr_reference).symbols.len(),
        j != k,
    ensures
        patch_object(table, source, target, aslr_reference).symbols[j].name != patch_object(
            table,
            source,
            target,
            aslr_reference,
        ).symbols[k].name,
{
    law_object_defines_each_name_once(table, source, target, aslr_reference);
    let object = patch_object(table, source, target, aslr_reference);
    if j < k {
        assert(object.symbols[j].name != object.symbols[k].name);
    } else {
        assert(object.symbols[k].name != object.symbols[j].name);
    }
}

/// Whether these are the bytes of a name that the object files leave undefined and the
/// program has.
pub open spec fn asked_and_found(table: Seq<Link>, source: Seq<Symbol>, bytes: Seq<u8>) -> bool {
    exists|name: Seq<char>| #[trigger]
        left_undefined(table, name) && !lacks_name(source, name) && encode_utf8(name) == bytes
}

/// Whenever a patch object is made, it defines nothing but names that the object files leave
/// undefined and the program has. What they leave undefined and the program does not have is
/// reported as missing, each name once, and nothing else is.
pub proof fn law_nothing_else_is_defined_or_missing(
    table: Seq<Link>,
    source: Seq<Symbol>,
    target: Target,
    aslr_reference: u64,
)
    requires
        target.architecture == Some(Architecture::Aarch64),
        target.binary_format is Some,
        resolution(table, source, target, aslr_reference) is Ok,
    ensures
        forall|k: int|
            0 <= k < patch_object(table, source, target, aslr_reference).symbols.len()
                ==> asked_and_found(
                table,
                source,
                (#[trigger] patch_object(table, source, target, aslr_reference).symbols[k]).name,
            ),
        forall|name: Seq<char>| #[trigger]
            (resolution(table, source, target, aslr_reference)->Ok_0).missing.contains(name)
                <==> left_undefined(table, name) && lacks_name(source, name),
        (resolution(table, source, target, aslr_reference)->Ok_0).missing.no_duplicates(),
{
    let object = patch_object(table, source, target, aslr_reference);
    let list = unresolved(table);
    let found = found_names(list, source);
    let missing = (resolution(table, source, target, aslr_reference)->Ok_0).missing;
    let offset = distance((reference(source, target)->0).address, aslr_reference);
    law_symbols_of_an_object(table, source, target, aslr_reference);
    law_found_names(list, source);
    law_unresolved_names(table);
    law_names_are_patched_or_missing(list, source, target, offset);
    assert forall|k: int| 0 <= k < object.symbols.len() implies asked_and_found(
        table,
        source,
        (#[trigger] object.symbols[k]).name,
    ) by {
        let name = found[k];
        assert(found.contains(name));
        assert(list.contains(name));
        law_unresolved_by_fields(table, name);
        law_lookup_finds_the_last(source, name, 0);
        lemma_becomes(table, source, target, aslr_reference, k);
        assert(left_undefined(table, name));
    }
    assert forall|name: Seq<char>| #[trigger] missing.contains(name) <==> left_undefined(
        table,
        name,
    ) && lacks_name(source, name) by {
        law_unresolved_by_fields(table, name);
        law_lookup_finds_the_last(source, name, 0);
        assert(missing == missing_names(list, source));
    }
    lemma_missing_once(list, source);
}

proof fn lemma_missing_once(list: Seq<Seq<char>>, source: Seq<Symbol>)
    requires
        list.no_duplicates(),
    ensures
        missing_names(list, source).no_duplicates(),
        forall|name: Seq<char>| #[trigger]
            missing_names(list, source).contains(name) ==> list.contains(name),
    decreases list.len(),
{
    if list.len() > 0 {
        let rest = list.drop_last();
        lemma_missing_once(rest, source);
        let before = missing_names(rest, source);
        let all = missing_names(list, source);
        assert forall|name: Seq<char>| #[trigger] all.contains(name) implies list.contains(name) by {
            let k = all.index_of(name);
            if k < before.len() {
                assert(before[k] == name);
                assert(before.contains(name));
                assert(list[rest.index_of(name)] == name);
            } else {
                assert(list[list.len() - 1] == name);
            }
        }
        if all != before {
            assert forall|i: int, j: int| 0 <= i < j < all.len() implies #[trigger] all[i]
                != #[trigger] all[j] by {
                if j == before.len() && all[i] == all[j] {
                    assert(before[i] == all[i]);
                    assert(before.contains(all[i]));
                    assert(rest.contains(list.last()));
                    assert(list[rest.index_of(list.last())] == list.last());
                }
            }
        }
    }
}

/// Whenever a patch object is made, it is for the target, its bytes are those that the writer
/// gives for it, and its text section holds sixteen bytes for each name that stands for code,
/// aligned to eight if there are any, and nothing else.
pub proof fn law_the_object_as_a_whole(
    table: Seq<Link>,
    source: Seq<Symbol>,
    target: Target,
    aslr_reference: u64,
)
    requires
        target.architecture == Some(Architecture::Aarch64),
        target.binary_format is Some,
        resolution(table, source, target, aslr_reference) is Ok,
    ensures
        ({
            let object = patch_object(table, source, target, aslr_reference);
            let text = object.text->0;
            &&& (resolution(table, source, target, aslr_reference)->Ok_0).object == object_bytes(
                object,
            )->Ok_0
            &&& Some(object.format) == target.binary_format
            &&& Some(object.architecture) == target.architecture
            &&& target.endianness is Some ==> Some(object.endianness) == target.endianness
            &&& target.endianness is None ==> object.endianness is Little
            &&& !object.underscores
            &&& object.build_version == target.version()
            &&& object.text is Some
            &&& text.data.len() == 16 * in_text(object.symbols)
            &&& text.align == if in_text(object.symbols) > 0 {
                8u64
            } else {
                1u64
            }
            &&& forall|i: int, j: int|
                0 <= i < j < object.symbols.len() && (#[trigger] object.symbols[i]).place is Text
                    && (#[trigger] object.symbols[j]).place is Text ==> object.symbols[i].value + 16
                    <= object.symbols[j].value
        }),
{
    let patch = planned(table, source, target, aslr_reference);
    law_header(target, patch);
    law_stubs_of_an_object(table, source, target, aslr_reference);
    law_text_alignment(patch);
    lemma_in_text(patch);
    let offset = distance((reference(source, target)->0).address, aslr_reference);
    law_found_names_are_patched(unresolved(table), source, target, offset);
}

/// How many of the symbols are in the text section.
pub open spec fn in_text(symbols: Seq<ObjectSymbol>) -> nat
    decreases symbols.len(),
{
    if symbols.len() == 0 {
        0
    } else {
        in_text(symbols.drop_last()) + if symbols.last().place is Text {
            1nat
        } else {
            0nat
        }
    }
}

proof fn lemma_in_text(patch: Seq<PatchSymbol<Seq<u8>>>)
    ensures
        in_text(layout(patch).symbols) == stub_count(patch),
    decreases patch.len(),
{
    if patch.len() > 0 {
        lemma_in_text(patch.drop_last());
        assert(layout(patch).symbols.drop_last() == layout(patch.drop_last()).symbols);
    }
}

/// Whether the object files leave a name undefined whose last symbol in the program holds a
/// zero byte in its name or stands for a section.
pub open spec fn undefinable(table: Seq<Link>, source: Seq<Symbol>, name: Seq<char>) -> bool {
    &&& left_undefined(table, name)
    &&& exists|i: int| #[trigger]
        last_of_name(source, name, i) && (encode_utf8(name).contains(0u8) || source[i].kind
            == SymbolKind::Section)
}

/// Whether the object files leave a name undefined whose last symbol in the program is a
/// label.
pub open spec fn asks_for_label(table: Seq<Link>, source: Seq<Symbol>, name: Seq<char>) -> bool {
    &&& left_undefined(table, name)
    &&& exists|i: int| #[trigger]
        last_of_name(source, name, i) && source[i].kind == SymbolKind::Label
}

/// A patch object is made unless the program has no reference symbol, or a name that it has
/// and the object files leave undefined cannot be defined, or in Mach-O is a label. The first
/// of these that holds is reported.
pub proof fn law_when_an_object_is_made(
    table: Seq<Link>,
    source: Seq<Symbol>,
    target: Target,
    aslr_reference: u64,
)
    requires
        target.architecture == Some(Architecture::Aarch64),
        target.binary_format is Some,
    ensures
        ({
            let result = resolution(table, source, target, aslr_reference);
            let has_reference = !lacks_name(source, "_aslr_reference"@) || target.binary_format
                == Some(BinaryFormat::Elf) && !lacks_name(source, "aslr_reference"@);
            let has_undefinable = exists|name: Seq<char>| #[trigger]
                undefinable(table, source, name);
            let has_label = target.binary_format == Some(BinaryFormat::MachO) && exists|
                name: Seq<char>,
            | #[trigger]
                asks_for_label(table, source, name);
            &&& result is Ok <==> has_reference && !has_undefinable && !has_label
            &&& !has_reference ==> result->Err_0 is MissingReference
            &&& has_reference && has_undefinable ==> result->Err_0 is Unpatchable && undefinable(
                table,
                source,
                result->Err_0->Unpatchable_0,
            )
            &&& has_reference && !has_undefinable && has_label ==> result->Err_0
                == Failure::Write(
                object_bytes(patch_object(table, source, target, aslr_reference))->Err_0,
            )
        }),
{
    let list = unresolved(table);
    let object = patch_object(table, source, target, aslr_reference);
    let found = found_names(list, source);
    lemma_has_reference(source, target);
    lemma_undefinable(table, source);
    law_unencodable(object);
    law_found_names(list, source);
    let offset = distance((reference(source, target)->0).address, aslr_reference);
    law_found_names_are_patched(list, source, target, offset);
    law_layout(planned(table, source, target, aslr_reference));
    assert(object.symbols.len() == found.len());
    assert(Some(object.format) == target.binary_format);
    if unencodable(object) {
        let bad = if object.format == BinaryFormat::Elf {
            SymbolKind::Unknown
        } else {
            SymbolKind::Label
        };
        let k = choose|k: int|
            0 <= k < object.symbols.len() && (#[trigger] object.symbols[k]).kind == bad;
        let name = found[k];
        assert(found.contains(name));
        lemma_becomes(table, source, target, aslr_reference, k);
        let original = lookup(source, name)->0;
        lemma_kind_of_what_it_becomes(
            object,
            object.symbols[k],
            original.kind,
            original.weak,
            original.address + aslr_reference - (reference(source, target)->0).address,
        );
        let i = law_found_symbol_is_the_last(source, name);
        law_unresolved_by_fields(table, name);
        assert(last_of_name(source, name, i));
        assert(source[i].kind == SymbolKind::Label);
        assert(asks_for_label(table, source, name));
    }
    if target.binary_format == Some(BinaryFormat::MachO) && exists|name: Seq<char>| #[trigger]
        asks_for_label(table, source, name) {
        let name = choose|name: Seq<char>| #[trigger] asks_for_label(table, source, name);
        let i = choose|i: int| #[trigger]
            last_of_name(source, name, i) && source[i].kind == SymbolKind::Label;
        law_lookup_finds_the_last(source, name, i);
        law_unresolved_by_fields(table, name);
        assert(found.contains(name));
        let k = found.index_of(name);
        lemma_becomes(table, source, target, aslr_reference, k);
        lemma_kind_of_what_it_becomes(
            object,
            object.symbols[k],
            source[i].kind,
            source[i].weak,
            source[i].address + aslr_reference - (reference(source, target)->0).address,
        );
        assert(object.symbols[k].kind == SymbolKind::Label);
    }
}

proof fn lemma_has_reference(source: Seq<Symbol>, target: Target)
    ensures
        reference(source, target) is Some <==> !lacks_name(source, "_aslr_reference"@)
            || target.binary_format == Some(BinaryFormat::Elf) && !lacks_name(
            source,
            "aslr_reference"@,
        ),
{
    law_reference_symbol(source, target, 0);
    law_lookup_finds_the_last(source, "_aslr_reference"@, 0);
    law_lookup_finds_the_last(source, "aslr_reference"@, 0);
    if !lacks_name(source, "_aslr_reference"@) {
        let i = law_found_symbol_is_the_last(source, "_aslr_reference"@);
        law_reference_symbol(source, target, i);
    } else if !lacks_name(source, "aslr_reference"@) {
        let i = law_found_symbol_is_the_last(source, "aslr_reference"@);
        law_reference_symbol(source, target, i);
    }
}

proof fn lemma_undefinable_name(table: Seq<Link>, source: Seq<Symbol>, name: Seq<char>)
    ensures
        undefinable(table, source, name) <==> unresolved(table).contains(name) && !name_patchable(
            name,
            source,
        ),
{
    law_unresolved_by_fields(table, name);
    law_lookup_finds_the_last(source, name, 0);
    law_patchable_names(name, source, 0);
    if lookup(source, name) is Some {
        let i = law_found_symbol_is_the_last(source, name);
        law_patchable_names(name, source, i);
        assert(last_of_name(source, name, i));
    }
    if undefinable(table, source, name) {
        let i = choose|i: int| #[trigger]
            last_of_name(source, name, i) && (encode_utf8(name).contains(0u8) || source[i].kind
                == SymbolKind::Section);
        law_patchable_names(name, source, i);
    }
}

proof fn lemma_undefinable(table: Seq<Link>, source: Seq<Symbol>)
    ensures
        first_unpatchable(unresolved(table), source) is Some <==> exists|name: Seq<char>| #[trigger]
            undefinable(table, source, name),
        first_unpatchable(unresolved(table), source) is Some ==> undefinable(
            table,
            source,
            first_unpatchable(unresolved(table), source)->0,
        ),
{
    let list = unresolved(table);
    law_first_unpatchable(list, source, 0);
    if first_unpatchable(list, source) is Some {
        lemma_first_unpatchable_is_one(list, source);
        lemma_undefinable_name(table, source, first_unpatchable(list, source)->0);
    }
    if exists|name: Seq<char>| #[trigger] undefinable(table, source, name) {
        let name = choose|name: Seq<char>| #[trigger] undefinable(table, source, name);
        lemma_undefinable_name(table, source, name);
        assert(!name_patchable(list[list.index_of(name)], source));
    }
}

proof fn lemma_first_unpatchable_is_one(list: Seq<Seq<char>>, source: Seq<Symbol>)
    requires
        first_unpatchable(list, source) is Some,
    ensures
        list.contains(first_unpatchable(list, source)->0),
        !name_patchable(first_unpatchable(list, source)->0, source),
    decreases list.len(),
{
    if list.len() > 0 {
        let rest = list.drop_last();
        if first_unpatchable(rest, source) is Some {
            lemma_first_unpatchable_is_one(rest, source);
            let name = first_unpatchable(rest, source)->0;
            assert(list[rest.index_of(name)] == name);
        } else {
            assert(list[list.len() - 1] == list.last());
        }
    }
}

/// Whether an object file holds an undefined symbol of this name.
pub open spec fn file_asks(file: Incremental, name: Seq<char>) -> bool {
    let table = file_links((file.bytes->0)@)->Ok_0;
    exists|i: int|
        0 <= i < table.len() && (#[trigger] table[i]).undefined && table[i].name is Ok
            && table[i].name->Ok_0 == name
}

/// Whether an object file holds a global definition of this name.
pub open spec fn file_provides(file: Incremental, name: Seq<char>) -> bool {
    let table = file_links((file.bytes->0)@)->Ok_0;
    exists|i: int|
        0 <= i < table.len() && !(#[trigger] table[i]).undefined && table[i].global
            && table[i].name is Ok && table[i].name->Ok_0 == name
}

/// The symbols of all the files leave a name undefined exactly if some file asks for it and
/// none provides it. They are at hand exactly if each file can be used.
pub proof fn law_names_left_undefined_by_files(
    files: Seq<Incremental>,
    order: Seq<usize>,
    name: Seq<char>,
)
    requires
        is_permutation(order, files.len()),
        files.len() <= usize::MAX,
    ensures
        collected(files, order) is Ok <==> forall|f: int|
            0 <= f < files.len() ==> usable(#[trigger] files[f]),
        collected(files, order) is Ok ==> (left_undefined(collected(files, order)->Ok_0, name)
            <==> {
            &&& exists|f: int| 0 <= f < files.len() && file_asks(#[trigger] files[f], name)
            &&& forall|f: int| 0 <= f < files.len() ==> !file_provides(#[trigger] files[f], name)
        }),
{
    law_collected_symbols(files, order);
    assert forall|k: int| 0 <= k < order.len() implies (usable(files[#[trigger] order[k] as int])
        <==> incremental_links(files[order[k] as int], order[k]) is Ok) by {
        law_symbols_of_a_file(files[order[k] as int], order[k]);
    }
    if collected(files, order) is Ok {
        assert forall|f: int| 0 <= f < files.len() implies usable(#[trigger] files[f]) by {
            lemma_permutation_is_complete(order, files.len(), f as usize);
            let k = order.index_of(f as usize);
            assert(usable(files[order[k] as int]));
        }
        let table = collected(files, order)->Ok_0;
        if left_undefined(table, name) {
            let i = choose|i: int|
                0 <= i < table.len() && (#[trigger] table[i]).undefined && table[i].name is Ok
                    && table[i].name->Ok_0 == name;
            assert(table.contains(table[i]));
            let f = lemma_file_of(files, order, table[i]);
            let held = file_links((files[f].bytes->0)@)->Ok_0;
            assert(held[held.index_of(table[i])].undefined);
            assert(file_asks(files[f], name));
            assert forall|f: int| 0 <= f < files.len() implies !file_provides(
                #[trigger] files[f],
                name,
            ) by {
                if file_provides(files[f], name) {
                    let held = file_links((files[f].bytes->0)@)->Ok_0;
                    let j = choose|j: int|
                        0 <= j < held.len() && !(#[trigger] held[j]).undefined && held[j].global
                            && held[j].name is Ok && held[j].name->Ok_0 == name;
                    lemma_symbol_of_file(files, order, f, j);
                    assert(table[table.index_of(held[j])].undefined);
                }
            }
        }
        if (exists|f: int| 0 <= f < files.len() && file_asks(#[trigger] files[f], name)) && (
        forall|f: int| 0 <= f < files.len() ==> !file_provides(#[trigger] files[f], name)) {
            let f = choose|f: int| 0 <= f < files.len() && file_asks(#[trigger] files[f], name);
            let held = file_links((files[f].bytes->0)@)->Ok_0;
            let j = choose|j: int|
                0 <= j < held.len() && (#[trigger] held[j]).undefined && held[j].name is Ok
                    && held[j].name->Ok_0 == name;
            lemma_symbol_of_file(files, order, f, j);
            assert(table[table.index_of(held[j])].undefined);
            assert forall|i: int|
                0 <= i < table.len() && (#[trigger] table[i]).name is Ok && table[i].name->Ok_0
                    == name && table[i].global implies table[i].undefined by {
                assert(table.contains(table[i]));
                let f = lemma_file_of(files, order, table[i]);
                let held = file_links((files[f].bytes->0)@)->Ok_0;
                assert(held[held.index_of(table[i])] == table[i]);
                assert(!file_provides(files[f], name));
            }
        }
    }
    if forall|f: int| 0 <= f < files.len() ==> usable(#[trigger] files[f]) {
        assert forall|k: int| 0 <= k < order.len() implies incremental_links(
            files[#[trigger] order[k] as int],
            order[k],
        ) is Ok by {
            assert(usable(files[order[k] as int]));
        }
    }
}

proof fn lemma_file_of(files: Seq<Incremental>, order: Seq<usize>, link: Link) -> (f: int)
    requires
        is_permutation(order, files.len()),
        collected(files, order) is Ok,
        (collected(files, order)->Ok_0).contains(link),
    ensures
        0 <= f < files.len(),
        (file_links((files[f].bytes->0)@)->Ok_0).contains(link),
{
    law_collected_symbols(files, order);
    assert(some_file_has(files, order, link));
    let k = choose|k: int|
        0 <= k < order.len() && (incremental_links(
            files[#[trigger] order[k] as int],
            order[k],
        )->Ok_0).contains(link);
    law_symbols_of_a_file(files[order[k] as int], order[k]);
    order[k] as int
}

proof fn lemma_symbol_of_file(files: Seq<Incremental>, order: Seq<usize>, f: int, j: int)
    requires
        is_permutation(order, files.len()),
        files.len() <= usize::MAX,
        collected(files, order) is Ok,
        0 <= f < files.len(),
        0 <= j < (file_links((files[f].bytes->0)@)->Ok_0).len(),
    ensures
        (collected(files, order)->Ok_0).contains((file_links((files[f].bytes->0)@)->Ok_0)[j]),
{
    law_collected_symbols(files, order);
    lemma_permutation_is_complete(order, files.len(), f as usize);
    let k = order.index_of(f as usize);
    let link = (file_links((files[f].bytes->0)@)->Ok_0)[j];
    assert(order[k] as int == f);
    law_symbols_of_a_file(files[order[k] as int], order[k]);
    assert((incremental_links(files[order[k] as int], order[k])->Ok_0).contains(
        link,
    ));
    assert(some_file_has(files, order, link));
}

/// Whether the last symbol of this name is at this place of what a program's file gives.
pub open spec fn last_in_file(table: Seq<Unplaced>, name: Seq<char>, i: int) -> bool {
    &&& 0 <= i < table.len()
    &&& table[i].name == Some(name)
    &&& forall|j: int| i < j < table.len() ==> (#[trigger] table[j]).name != Some(name)
}

proof fn lemma_last_in_file(bytes: Seq<u8>, name: Seq<char>, i: int)
    requires
        program_symbols(Some(bytes)) is Ok,
        last_in_file(file_symbols(bytes)->Ok_0, name, i),
    ensures
        last_of_name(program_symbols(Some(bytes))->Ok_0, name, i),
        (program_symbols(Some(bytes))->Ok_0)[i].kind == (file_symbols(bytes)->Ok_0)[i].kind,
        (program_symbols(Some(bytes))->Ok_0)[i].weak == (file_symbols(bytes)->Ok_0)[i].weak,
{
    let table = program_symbols(Some(bytes))->Ok_0;
    law_unusable_program(bytes);
    law_symbols_of_the_program(bytes, i);
    assert forall|j: int| i < j < table.len() implies (#[trigger] table[j]).name != Some(name) by {
        law_symbols_of_the_program(bytes, j);
        assert((file_symbols(bytes)->Ok_0)[j].name != Some(name));
    }
}

/// From the files to the object: whenever a patch object is made, a name that some object file
/// asks for and none provides becomes what the last symbol of that name in the program's file
/// is. In the process it is as far from the reference symbol as it is in the file.
pub proof fn law_from_files_to_object(
    bytes: Seq<u8>,
    files: Seq<Incremental>,
    order: Seq<usize>,
    target: Target,
    aslr_reference: u64,
    name: Seq<char>,
    i: int,
    r: int,
    f: int,
)
    requires
        target.architecture == Some(Architecture::Aarch64),
        target.binary_format is Some,
        is_permutation(order, files.len()),
        files.len() <= usize::MAX,
        full_resolution(Some(bytes), files, order, target, aslr_reference) is Ok,
        0 <= f < files.len() && file_asks(files[f], name),
        forall|g: int| 0 <= g < files.len() ==> !file_provides(#[trigger] files[g], name),
        last_in_file(file_symbols(bytes)->Ok_0, name, i),
        last_in_file(file_symbols(bytes)->Ok_0, "_aslr_reference"@, r),
        (file_offsets(bytes)->Ok_0)[i] is Some,
        (file_offsets(bytes)->Ok_0)[r] is Some,
    ensures
        exists|object: ObjectContents|
            {
                &&& (full_resolution(
                    Some(bytes),
                    files,
                    order,
                    target,
                    aslr_reference,
                )->Ok_0).object == object_bytes(object)->Ok_0
                &&& #[trigger] defined_once(
                    object,
                    encode_utf8(name),
                    (file_symbols(bytes)->Ok_0)[i].kind,
                    (file_symbols(bytes)->Ok_0)[i].weak,
                    (file_offsets(bytes)->Ok_0)[i]->0 + aslr_reference - (file_offsets(
                        bytes,
                    )->Ok_0)[r]->0,
                )
            },
{
    let table = collected(files, order)->Ok_0;
    let source = program_symbols(Some(bytes))->Ok_0;
    let object = patch_object(table, source, target, aslr_reference);
    law_steps_of_a_resolution(Some(bytes), files, order, target, aslr_reference);
    assert(file_symbols(bytes) is Ok && file_offsets(bytes) is Ok && file_base(bytes) is Ok) by {
        law_unusable_program(bytes);
    }
    assert(left_undefined(table, name)) by {
        law_names_left_undefined_by_files(files, order, name);
    }
    lemma_last_in_file(bytes, name, i);
    lemma_last_in_file(bytes, "_aslr_reference"@, r);
    assert(defined_once(
        object,
        encode_utf8(name),
        source[i].kind,
        source[i].weak,
        source[i].address + aslr_reference - source[r].address,
    )) by {
        law_what_a_name_becomes(table, source, target, aslr_reference, name, i, r);
    }
    assert((resolution(table, source, target, aslr_reference)->Ok_0).object == object_bytes(
        object,
    )->Ok_0) by {
        law_the_object_as_a_whole(table, source, target, aslr_reference);
    }
    assert(((source[i].address + aslr_reference - source[r].address) - ((file_offsets(
        bytes,
    )->Ok_0)[i]->0 + aslr_reference - (file_offsets(bytes)->Ok_0)[r]->0))
        % 0x1_0000_0000_0000_0000 == 0) by {
        law_symbols_of_the_program(bytes, i);
        law_symbols_of_the_program(bytes, r);
        lemma_base_does_not_matter(
            source[i].address,
            source[r].address,
            file_base(bytes)->Ok_0,
            (file_offsets(bytes)->Ok_0)[i]->0,
            (file_offsets(bytes)->Ok_0)[r]->0,
            aslr_reference,
        );
    }
    lemma_defined_at_residue(
        object,
        encode_utf8(name),
        source[i].kind,
        source[i].weak,
        source[i].address + aslr_reference - source[r].address,
        (file_offsets(bytes)->Ok_0)[i]->0 + aslr_reference - (file_offsets(bytes)->Ok_0)[r]->0,
    );
}

proof fn lemma_defined_at_residue(
    object: ObjectContents,
    name: Seq<u8>,
    kind: SymbolKind,
    weak: bool,
    before: int,
    after: int,
)
    requires
        defined_once(object, name, kind, weak, before),
        (before - after) % 0x1_0000_0000_0000_0000 == 0,
    ensures
        defined_once(object, name, kind, weak, after),
{
    let k = choose|k: int|
        {
            &&& 0 <= k < object.symbols.len()
            &&& (#[trigger] object.symbols[k]).name == name
            &&& becomes(object, object.symbols[k], kind, weak, before)
            &&& forall|j: int|
                0 <= j < object.symbols.len() && j != k ==> (#[trigger] object.symbols[j]).name
                    != name
        };
    lemma_becomes_at_residue(object, object.symbols[k], kind, weak, before, after);
    assert(object.symbols[k].name == name);
}

proof fn lemma_base_does_not_matter(a: u64, b: u64, base: u64, x: u64, y: u64, r: u64)
    requires
        (a - base - x) % 0x1_0000_0000_0000_0000 == 0,
        (b - base - y) % 0x1_0000_0000_0000_0000 == 0,
    ensures
        ((a + r - b) - (x + r - y)) % 0x1_0000_0000_0000_0000 == 0,
{
}

} // verus!

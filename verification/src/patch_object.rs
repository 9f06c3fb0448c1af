//! The object file that defines the symbols of a patch.

use vstd::prelude::*;
use crate::object_file::{
    ObjectContents, ObjectSymbol, NewSymbol, SymbolPlace, SymbolScope, TextSection, add_symbol,
    add_text_section, align_up, append_text, appended, contents, disable_mangling, law_appended,
    new_object,
    object_bytes, set_build_version, text_id, unencodable, write_object,
};
use crate::patch::{PatchSymbol, Placement, patched, stub_count};
use crate::symbols::SymbolKind;
use crate::target::{
    BuildVersion, Endianness, Environment, OperatingSystem, Target, law_build_version,
    law_byte_order,
};

verus! {

/// The alignment of a stub in the text section.
pub const STUB_ALIGN: u64 = 8;

/// What a text section and a symbol table hold once the symbols of a patch were added.
#[verifier::ext_equal]
pub struct Layout {
    pub text: TextSection,
    pub symbols: Seq<ObjectSymbol>,
}

/// What an object holds for the symbols of a patch: each stub at the
/// next multiple of its alignment, with a symbol that covers it, and an absolute symbol for
/// each address.
pub open spec fn layout(patch: Seq<PatchSymbol<Seq<u8>>>) -> Layout
    decreases patch.len(),
{
    if patch.len() == 0 {
        Layout { text: TextSection { align: 1, data: Seq::empty() }, symbols: Seq::empty() }
    } else {
        let rest = layout(patch.drop_last());
        let symbol = patch.last();
        match symbol.placement {
            Placement::Stub(code) => Layout {
                text: TextSection {
                    align: STUB_ALIGN,
                    data: appended(rest.text.data, code, STUB_ALIGN as nat),
                },
                symbols: rest.symbols.push(
                    ObjectSymbol {
                        name: symbol.name,
                        value: align_up(rest.text.data.len(), STUB_ALIGN as nat) as int,
                        size: code.len() as int,
                        kind: symbol.kind,
                        scope: SymbolScope::Linkage,
                        weak: symbol.weak,
                        place: SymbolPlace::Text,
                    },
                ),
            },
            Placement::Absolute(address) => Layout {
                text: rest.text,
                symbols: rest.symbols.push(
                    ObjectSymbol {
                        name: symbol.name,
                        value: address as int,
                        size: 0,
                        kind: symbol.kind,
                        scope: SymbolScope::Linkage,
                        weak: symbol.weak,
                        place: SymbolPlace::Absolute,
                    },
                ),
            },
        }
    }
}

/// What the object of a patch holds.
pub open spec fn patch_contents(
    target: Target,
    patch: Seq<PatchSymbol<Seq<u8>>>,
) -> ObjectContents {
    ObjectContents {
        format: target.binary_format->0,
        architecture: target.architecture->0,
        endianness: target.byte_order(),
        underscores: false,
        build_version: target.version(),
        text: Some(layout(patch).text),
        symbols: layout(patch).symbols,
    }
}

/// Whether a symbol can be added to an object.
pub open spec fn addable(symbol: PatchSymbol<Seq<u8>>) -> bool {
    !symbol.name.contains(0u8) && symbol.kind != SymbolKind::Section
}

/// Writes the object that defines the symbols of a patch.
pub fn write_patch(target: &Target, patch: &Vec<PatchSymbol<Vec<u8>>>) -> (r: Result<
    Vec<u8>,
    object::write::Error,
>)
    requires
        target.supported(),
        forall|i: int| 0 <= i < patch@.len() ==> addable((#[trigger] patch@[i])@),
    ensures
        r is Err <==> unencodable(patch_contents(*target, patched(patch@))),
        match r {
            Ok(bytes) => object_bytes(patch_contents(*target, patched(patch@))) == Ok::<
                _,
                object::write::Error,
            >(bytes@),
            Err(error) => object_bytes(patch_contents(*target, patched(patch@))) == Err::<
                Seq<u8>,
                _,
            >(error),
        },
{
    let mut object = new_object(
        target.binary_format.unwrap(),
        target.architecture.unwrap(),
        target.object_endianness(),
    );
    disable_mangling(&mut object);
    if let Some(version) = target.build_version() {
        set_build_version(&mut object, version);
    }
    let text = add_text_section(&mut object);
    assert(contents(object) =~= patch_contents(*target, patched(patch@).take(0)));
    let mut i: usize = 0;
    while i < patch.len()
        invariant
            i <= patch@.len(),
            forall|i: int| 0 <= i < patch@.len() ==> addable((#[trigger] patch@[i])@),
            contents(object) == patch_contents(*target, patched(patch@).take(i as int)),
            contents(object).text->0.align <= STUB_ALIGN,
            contents(object).symbols.len() == i,
            forall|j: int|
                0 <= j < i ==> !(#[trigger] contents(object).symbols[j]).name.contains(0u8),
            text_id(object) == Some(text),
        decreases patch@.len() - i,
    {
        let symbol = &patch[i];
        let ghost more = patched(patch@).take(i + 1);
        assert(more.drop_last() == patched(patch@).take(i as int));
        assert(more.last() == symbol@);
        assert(addable(patch@[i as int]@));
        match &symbol.placement {
            Placement::Stub(code) => {
                assert(8u64 & 7u64 == 0) by (bit_vector);
                let offset = append_text(&mut object, text, code, STUB_ALIGN);
                add_symbol(
                    &mut object,
                    NewSymbol {
                        name: symbol.name.clone(),
                        value: offset,
                        size: code.len() as u64,
                        kind: symbol.kind,
                        scope: SymbolScope::Linkage,
                        weak: symbol.weak,
                        section: Some(text),
                    },
                );
            },
            Placement::Absolute(address) => {
                add_symbol(
                    &mut object,
                    NewSymbol {
                        name: symbol.name.clone(),
                        value: *address,
                        size: 0,
                        kind: symbol.kind,
                        scope: SymbolScope::Linkage,
                        weak: symbol.weak,
                        section: None,
                    },
                );
            },
        }
        i += 1;
    }
    assert(patched(patch@).take(patch@.len() as int) == patched(patch@));
    write_object(&object)
}

/// Whether a symbol of an object does for a symbol of a patch what the patch asks for: it
/// has its name, kind and binding, and covers the code of its stub, which starts at a
/// multiple of the stub alignment, or has its address.
pub open spec fn lays_out(
    text: Seq<u8>,
    symbol: ObjectSymbol,
    wanted: PatchSymbol<Seq<u8>>,
) -> bool {
    &&& symbol.name == wanted.name
    &&& symbol.kind == wanted.kind
    &&& symbol.weak == wanted.weak
    &&& symbol.scope == SymbolScope::Linkage
    &&& match wanted.placement {
        Placement::Stub(code) => {
            &&& symbol.place is Text
            &&& symbol.value % (STUB_ALIGN as int) == 0
            &&& symbol.size == code.len()
            &&& 0 <= symbol.value && symbol.value + symbol.size <= text.len()
            &&& text.subrange(symbol.value, symbol.value + symbol.size) == code
        },
        Placement::Absolute(address) => {
            &&& symbol.place is Absolute
            &&& symbol.value == address
            &&& symbol.size == 0
        },
    }
}

/// The object of a patch has one symbol for each symbol of the patch, in order, which
/// does what the patch asks for. Stubs do not overlap.
pub proof fn law_layout(patch: Seq<PatchSymbol<Seq<u8>>>)
    ensures
        layout(patch).symbols.len() == patch.len(),
        forall|i: int|
            0 <= i < patch.len() ==> lays_out(
                layout(patch).text.data,
                #[trigger] layout(patch).symbols[i],
                patch[i],
            ),
        forall|i: int, j: int|
            0 <= i < j < patch.len() && (#[trigger] layout(patch).symbols[i]).place is Text && (
            #[trigger] layout(patch).symbols[j]).place is Text ==> layout(patch).symbols[i].value
                + layout(patch).symbols[i].size <= layout(patch).symbols[j].value,
    decreases patch.len(),
{
    if patch.len() > 0 {
        let rest = patch.drop_last();
        let all = layout(patch);
        let before = layout(rest);
        let old_len = before.text.data.len();
        assert(all.text.data.len() >= old_len);
        assert(all.text.data.take(old_len as int) == before.text.data);
        law_layout(rest);
        assert forall|i: int| 0 <= i < patch.len() implies lays_out(
            all.text.data,
            #[trigger] all.symbols[i],
            patch[i],
        ) by {
            if i < rest.len() {
                let symbol = before.symbols[i];
                assert(all.symbols[i] == symbol);
                assert(rest[i] == patch[i]);
                assert(lays_out(before.text.data, before.symbols[i], rest[i]));
                if symbol.place is Text {
                    assert(all.text.data.subrange(
                        symbol.value,
                        symbol.value + symbol.size,
                    ) == before.text.data.subrange(
                        symbol.value,
                        symbol.value + symbol.size,
                    ));
                }
            } else {
                match patch.last().placement {
                    Placement::Stub(code) => {
                        let symbol = all.symbols[i];
                        let offset = align_up(old_len, STUB_ALIGN as nat);
                        assert(offset + code.len() == all.text.data.len());
                        assert(symbol.value == offset);
                        assert(all.text.data.subrange(
                            offset as int,
                            all.text.data.len() as int,
                        ) == code);
                    },
                    Placement::Absolute(_) => {},
                }
            }
        }
        assert forall|i: int, j: int|
            0 <= i < j < patch.len() && (#[trigger] all.symbols[i]).place is Text && (
            #[trigger] all.symbols[j]).place is Text implies all.symbols[i].value
            + all.symbols[i].size <= all.symbols[j].value by {
            assert(all.symbols[i] == before.symbols[i]);
            assert(lays_out(before.text.data, before.symbols[i], rest[i]));
            if j < rest.len() {
                assert(all.symbols[j] == before.symbols[j]);
            } else {
                assert(all.symbols[j].value == align_up(old_len, STUB_ALIGN as nat));
            }
        }
    }
}

/// Where all stubs have the same length, a multiple of their alignment, the text section
/// holds them and nothing else.
pub proof fn law_text_size(patch: Seq<PatchSymbol<Seq<u8>>>, len: nat)
    requires
        len % (STUB_ALIGN as nat) == 0,
        forall|i: int|
            0 <= i < patch.len() && (#[trigger] patch[i]).placement is Stub
                ==> patch[i].placement->Stub_0.len() == len,
    ensures
        layout(patch).text.data.len() == len * stub_count(patch),
    decreases patch.len(),
{
    if patch.len() > 0 {
        let rest = patch.drop_last();
        assert forall|i: int|
            0 <= i < rest.len() && (#[trigger] rest[i]).placement is Stub implies
            rest[i].placement->Stub_0.len() == len by {
            assert(rest[i] == patch[i]);
        }
        law_text_size(rest, len);
        let count = stub_count(rest);
        assert((len * count) % 8 == 0) by {
            assert(len * count == (len / 8 * count) * 8) by (nonlinear_arith)
                requires
                    len % 8 == 0,
            ;
            vstd::arithmetic::div_mod::lemma_mod_multiples_basic((len / 8 * count) as int, 8);
        }
        assert(len * (count + 1) == len * count + len) by (nonlinear_arith);
        assert(patch[patch.len() - 1] == patch.last());
    } else {
        assert(len * 0 == 0);
    }
}

/// The object of a patch is for the target: in its format, for its architecture, in its byte
/// order where that is known and little endian where it is not, and with the build version
/// of its system. Names are left alone.
pub proof fn law_header(target: Target, patch: Seq<PatchSymbol<Seq<u8>>>)
    requires
        target.binary_format is Some,
        target.architecture is Some,
    ensures
        ({
            let object = patch_contents(target, patch);
            &&& Some(object.format) == target.binary_format
            &&& Some(object.architecture) == target.architecture
            &&& target.endianness is Some ==> Some(object.endianness) == target.endianness
            &&& target.endianness is None ==> object.endianness == Endianness::Little
            &&& !object.underscores
            &&& object.text is Some
            &&& object.build_version is None <==> target.operating_system is None
            &&& target.operating_system == Some(OperatingSystem::Darwin) ==> object.build_version
                == Some(BuildVersion { platform: 1, minos: 0xB_0000, sdk: 0xB_0000 })
            &&& target.operating_system == Some(OperatingSystem::IOS) && target.environment
                == Some(Environment::Sim) ==> object.build_version == Some(
                BuildVersion { platform: 7, minos: 0xE_0000, sdk: 0xE_0000 },
            )
            &&& target.operating_system == Some(OperatingSystem::IOS) && target.environment
                is None ==> object.build_version == Some(
                BuildVersion { platform: 2, minos: 0xE_0000, sdk: 0xE_0000 },
            )
        }),
{
    law_byte_order(target);
    law_build_version(target);
}

/// The text section of a patch object is aligned to eight bytes if it holds a stub.
pub proof fn law_text_alignment(patch: Seq<PatchSymbol<Seq<u8>>>)
    ensures
        layout(patch).text.align == if stub_count(patch) > 0 {
            8u64
        } else {
            1u64
        },
    decreases patch.len(),
{
    if patch.len() > 0 {
        law_text_alignment(patch.drop_last());
    }
}

/// One more symbol of a patch adds one symbol to the object and leaves the others as they
/// are. If it has a stub, the stub goes to the first multiple of eight that is not below the
/// end of the text section, and the section then ends with it. Otherwise the text section
/// stays.
pub proof fn law_one_more_symbol(
    patch: Seq<PatchSymbol<Seq<u8>>>,
    symbol: PatchSymbol<Seq<u8>>,
)
    ensures
        ({
            let before = layout(patch);
            let after = layout(patch.push(symbol));
            let added = after.symbols[before.symbols.len() as int];
            &&& after.symbols.len() == before.symbols.len() + 1
            &&& after.symbols.take(before.symbols.len() as int) == before.symbols
            &&& added.name == symbol.name
            &&& added.kind == symbol.kind
            &&& added.weak == symbol.weak
            &&& added.scope is Linkage
            &&& match symbol.placement {
                Placement::Stub(code) => {
                    &&& added.place is Text
                    &&& added.size == code.len()
                    &&& added.value % 8 == 0
                    &&& before.text.data.len() <= added.value < before.text.data.len() + 8
                    &&& after.text.data.len() == added.value + code.len()
                    &&& after.text.data.take(before.text.data.len() as int) == before.text.data
                    &&& after.text.data.skip(added.value) == code
                },
                Placement::Absolute(address) => {
                    &&& added.place is Absolute
                    &&& added.size == 0
                    &&& added.value == address
                    &&& after.text == before.text
                },
            }
        }),
{
    let all = patch.push(symbol);
    assert(all.drop_last() == patch);
    assert(all.last() == symbol);
    let before = layout(patch);
    let after = layout(all);
    assert(after.symbols.take(before.symbols.len() as int) =~= before.symbols);
    match symbol.placement {
        Placement::Stub(code) => {
            law_appended(before.text.data, code, 8);
            let value = after.symbols[before.symbols.len() as int].value;
            assert(after.text.data.take(before.text.data.len() as int) =~= before.text.data);
            assert(after.text.data.skip(value) =~= code);
        },
        Placement::Absolute(_) => {},
    }
}

/// A patch without symbols gives an empty text section and no symbols.
pub proof fn law_empty_patch(patch: Seq<PatchSymbol<Seq<u8>>>)
    ensures
        patch.len() == 0 <==> layout(patch).symbols.len() == 0,
        patch.len() == 0 ==> layout(patch).text.data.len() == 0,
{
    law_layout(patch);
}

} // verus!
